use hashmap::keys::{fnv1a_bytes, HashKey};

#[test]
fn fnv_of_empty_input_is_the_offset_basis() {
    assert_eq!(fnv1a_bytes(&[]), 0xcbf2_9ce4_8422_2325);
}

#[test]
fn fnv_of_known_input() {
    assert_eq!(fnv1a_bytes(b"abc"), 0xe71f_a219_0541_574b);
}

#[test]
fn string_hash_uses_utf8_bytes() {
    assert_eq!(String::from("").hash_key(), 0xcbf2_9ce4_8422_2325);
    assert_eq!(String::from("abc").hash_key(), 0xe71f_a219_0541_574b);
    assert_eq!(String::from("Les Misérables").hash_key(), 0x55e6_1b4d_06a1_6d67);
}

#[test]
fn equal_strings_hash_equal() {
    let a = String::from("same text");
    let b = String::from("same text");
    assert!(a.eq_key(&b));
    assert_eq!(a.hash_key(), b.hash_key());
    assert!(!a.eq_key(&String::from("other text")));
}

#[test]
fn integer_keys_hash_to_themselves() {
    assert_eq!(7u64.hash_key(), 7);
    assert!(7u64.eq_key(&7));
    assert!(!7u64.eq_key(&8));
}
