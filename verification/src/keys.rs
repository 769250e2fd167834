//! Keys of the table: hashing and equality as a single capability.
//!
//! A key type must supply both a hash and an equality test, and the two must
//! agree: the hash is a function of the key's abstract value (its view), so
//! keys that compare equal necessarily route to the same bucket.

use vstd::prelude::*;
use vstd::utf8::encode_utf8;

verus! {

/// A type usable as a table key.
///
/// The hash is specified as a pure function `hash_of` of the key's view, so
/// it is deterministic for the table's lifetime and agrees with equality by
/// construction.  The two executable methods are the only capabilities the
/// table needs from a key: `hash_key` for routing and `eq_key` for the exact
/// match inside a bucket.
pub trait HashKey: View + Sized {
    /// Mathematical hash of a key value.
    spec fn hash_of(v: Self::V) -> u64;

    /// Executable hash; returns exactly `hash_of` of this key's view.
    fn hash_key(&self) -> (h: u64)
        ensures
            h == Self::hash_of(self@),
    ;

    /// Executable equality; decides equality of the two keys' views.
    fn eq_key(&self, other: &Self) -> (r: bool)
        ensures
            r == (self@ == other@),
    ;
}

/// The Fowler–Noll–Vo 1a hash of a byte sequence, with 64-bit wrapping
/// multiplication expressed as reduction modulo 2^64.
pub open spec fn fnv1a(bytes: Seq<u8>) -> u64
    decreases bytes.len(),
{
    if bytes.len() == 0 {
        0xcbf2_9ce4_8422_2325u64
    } else {
        ((((fnv1a(bytes.drop_last()) ^ (bytes.last() as u64)) as nat) * 0x100_0000_01b3)
            % 0x1_0000_0000_0000_0000) as u64
    }
}

/// Computes `fnv1a` of a byte slice.
pub fn fnv1a_bytes(bytes: &[u8]) -> (h: u64)
    ensures
        h == fnv1a(bytes@),
{
    let mut h: u64 = 0xcbf2_9ce4_8422_2325u64;
    let mut i: usize = 0;
    while i < bytes.len()
        invariant
            0 <= i <= bytes@.len(),
            h == fnv1a(bytes@.take(i as int)),
        decreases bytes@.len() - i,
    {
        let x: u64 = h ^ (bytes[i] as u64);
        let wide: u128 = (x as u128) * 0x100_0000_01b3u128;
        h = (wide % 0x1_0000_0000_0000_0000u128) as u64;
        i = i + 1;
        proof {
            assert(bytes@.take(i as int).drop_last() =~= bytes@.take(i - 1));
            assert(bytes@.take(i as int).last() == bytes@[i - 1]);
        }
    }
    proof {
        assert(bytes@.take(bytes@.len() as int) =~= bytes@);
    }
    h
}

impl HashKey for String {
    /// A string key hashes its UTF-8 encoding.
    open spec fn hash_of(v: Seq<char>) -> u64 {
        fnv1a(encode_utf8(v))
    }

    fn hash_key(&self) -> (h: u64) {
        fnv1a_bytes(self.as_str().as_bytes())
    }

    fn eq_key(&self, other: &Self) -> (r: bool) {
        self.eq(other)
    }
}

impl HashKey for u64 {
    /// An unsigned integer key is its own hash.
    open spec fn hash_of(v: u64) -> u64 {
        v
    }

    fn hash_key(&self) -> (h: u64) {
        *self
    }

    fn eq_key(&self, other: &Self) -> (r: bool) {
        *self == *other
    }
}

} // verus!
