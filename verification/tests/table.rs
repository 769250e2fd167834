use hashmap::HashMap;

#[test]
fn has_new() {
    HashMap::<String, u32>::new();
}

#[test]
fn has_get() {
    HashMap::<String, i8>::new().get(&String::from("test"));
}

#[test]
fn has_insert() {
    HashMap::new().insert(String::from("key"), String::from("val"));
}

#[test]
fn inserts_has_good_return() {
    let mut map = HashMap::new();
    assert_eq!(map.insert(String::from("a"), String::from("b")), None);
    assert_eq!(
        map.insert(String::from("a"), String::from("c")),
        Some(String::from("b"))
    );
}

#[test]
fn new_table_is_empty() {
    let table = HashMap::<String, u32>::new();
    assert_eq!(table.len(), 0);
    assert_eq!(table.get(&String::from("anything")), None);
    assert!(!table.contains_key(&String::from("anything")));
}

#[test]
fn fresh_insert_increments_len() {
    let mut table = HashMap::new();
    assert_eq!(table.insert(String::from("one"), 1u32), None);
    assert_eq!(table.len(), 1);
    assert_eq!(table.insert(String::from("two"), 2u32), None);
    assert_eq!(table.len(), 2);
}

#[test]
fn overwrite_keeps_len_and_replaces_value() {
    let mut table = HashMap::new();
    assert_eq!(
        table.insert(String::from("Pride and Prejudice"), String::from("Very enjoyable.")),
        None
    );
    let len_before = table.len();
    assert_eq!(
        table.insert(
            String::from("Pride and Prejudice"),
            String::from("Not very enjoyable")
        ),
        Some(String::from("Very enjoyable."))
    );
    assert_eq!(table.len(), len_before);
    assert_eq!(
        table.get(&String::from("Pride and Prejudice")),
        Some(&String::from("Not very enjoyable"))
    );
}

#[test]
fn remove_present_key() {
    let mut table = HashMap::new();
    table.insert(String::from("k"), String::from("first"));
    table.insert(String::from("k"), String::from("last"));
    table.insert(String::from("other"), String::from("stays"));
    assert_eq!(table.len(), 2);
    assert_eq!(table.remove(&String::from("k")), Some(String::from("last")));
    assert!(!table.contains_key(&String::from("k")));
    assert_eq!(table.len(), 1);
    assert_eq!(table.get(&String::from("other")), Some(&String::from("stays")));
}

#[test]
fn remove_absent_key_keeps_len() {
    let mut table = HashMap::new();
    let titles = [
        "Adventures of Huckleberry Finn",
        "Grimms' Fairy Tales",
        "Pride and Prejudice",
        "The Adventures of Sherlock Holmes",
        "Emma",
    ];
    for (i, title) in titles.iter().enumerate() {
        assert_eq!(table.insert(title.to_string(), i as u32), None);
    }
    assert_eq!(table.len(), 5);
    assert_eq!(table.remove(&String::from("Les Misérables")), None);
    assert_eq!(table.len(), 5);
    assert!(!table.contains_key(&String::from("Les Misérables")));
}

#[test]
fn remove_twice_returns_none_both_times() {
    let mut table = HashMap::new();
    table.insert(String::from("gone"), 7u32);
    assert_eq!(table.remove(&String::from("gone")), Some(7));
    assert_eq!(table.remove(&String::from("gone")), None);
    assert_eq!(table.remove(&String::from("gone")), None);
    assert_eq!(table.remove(&String::from("never there")), None);
    assert_eq!(table.remove(&String::from("never there")), None);
}

#[test]
fn iteration_round_trip() {
    let mut table = HashMap::new();
    let pairs = [
        ("alpha", 1u32),
        ("beta", 2u32),
        ("gamma", 3u32),
        ("delta", 4u32),
        ("epsilon", 5u32),
    ];
    for (k, v) in pairs.iter() {
        table.insert(k.to_string(), *v);
    }
    let mut seen: Vec<(String, u32)> = Vec::new();
    let mut it = table.iter();
    while let Some(entry) = it.next() {
        seen.push((entry.0.clone(), entry.1));
    }
    assert_eq!(seen.len(), table.len());
    for (k, v) in pairs.iter() {
        let matches = seen
            .iter()
            .filter(|(sk, sv)| sk == k && sv == v)
            .count();
        assert_eq!(matches, 1);
    }
}

#[test]
fn iteration_of_empty_table_yields_nothing() {
    let table = HashMap::<String, u32>::new();
    let mut it = table.iter();
    assert!(it.next().is_none());
    assert!(it.next().is_none());
}

#[test]
fn index_of_present_key() {
    let mut table = HashMap::new();
    table.insert(String::from("title"), String::from("review"));
    if table.contains_key(&String::from("title")) {
        assert_eq!(table.index(&String::from("title")), &String::from("review"));
    } else {
        panic!("key must be present");
    }
}

#[test]
fn failed_remove_leaves_iteration_order_unchanged() {
    // Keys 1, 1001 and 2001 collide in one bucket; fresh inserts append, so
    // iteration yields them in insertion order, and a remove of an absent key
    // (3001 collides too) modifies nothing.
    let mut table = HashMap::<u64, u64>::new();
    table.insert(1, 10);
    table.insert(1001, 20);
    table.insert(2001, 30);
    let mut before: Vec<(u64, u64)> = Vec::new();
    let mut it = table.iter();
    while let Some(entry) = it.next() {
        before.push((entry.0, entry.1));
    }
    assert_eq!(before, vec![(1, 10), (1001, 20), (2001, 30)]);
    assert_eq!(table.remove(&3001), None);
    let mut after: Vec<(u64, u64)> = Vec::new();
    let mut it = table.iter();
    while let Some(entry) = it.next() {
        after.push((entry.0, entry.1));
    }
    assert_eq!(before, after);
}

#[test]
fn integer_keys_work() {
    let mut table = HashMap::<u64, &str>::new();
    assert_eq!(table.insert(1, "one"), None);
    assert_eq!(table.insert(1001, "collides with one"), None);
    assert_eq!(table.insert(2001, "collides again"), None);
    assert_eq!(table.len(), 3);
    assert_eq!(table.get(&1), Some(&"one"));
    assert_eq!(table.get(&1001), Some(&"collides with one"));
    assert_eq!(table.get(&2001), Some(&"collides again"));
    assert_eq!(table.remove(&1001), Some("collides with one"));
    assert_eq!(table.len(), 2);
    assert_eq!(table.get(&1), Some(&"one"));
    assert_eq!(table.get(&2001), Some(&"collides again"));
    assert_eq!(table.get(&1001), None);
}
