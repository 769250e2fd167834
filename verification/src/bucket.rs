//! One bucket of the table: the small unordered collection of entries whose
//! keys all route to the same slot.
//!
//! A bucket is a list of `(key, value)` pairs holding at most one entry per
//! distinct key value; every operation is a linear scan that compares keys
//! exactly, not merely by hash.

use crate::keys::HashKey;
use vstd::prelude::*;

verus! {

/// Whether some entry of `entries` has key value `k`.
pub open spec fn bucket_has_key<K: View, Val>(entries: Seq<(K, Val)>, k: K::V) -> bool {
    exists|i: int| 0 <= i < entries.len() && entries[i].0@ == k
}

/// The position of the entry with key value `k`.
pub open spec fn bucket_key_index<K: View, Val>(entries: Seq<(K, Val)>, k: K::V) -> int {
    choose|i: int| 0 <= i < entries.len() && entries[i].0@ == k
}

/// The value stored under key value `k`.
pub open spec fn bucket_value<K: View, Val>(entries: Seq<(K, Val)>, k: K::V) -> Val {
    entries[bucket_key_index(entries, k)].1
}

/// Key values of the entries are pairwise distinct, so a key identifies at
/// most one entry.
pub open spec fn distinct_key_views<K: View, Val>(entries: Seq<(K, Val)>) -> bool {
    forall|i: int, j: int|
        0 <= i < j < entries.len() ==> entries[i].0@ != entries[j].0@
}

/// A bucket's entries after an insert: on a key already present the entry
/// keeps its position and its stored key and only the value changes; on a new
/// key the entry is appended at the end.
pub open spec fn bucket_after_insert<K: View, Val>(
    entries: Seq<(K, Val)>,
    key: K,
    val: Val,
) -> Seq<(K, Val)> {
    if bucket_has_key(entries, key@) {
        entries.update(
            bucket_key_index(entries, key@),
            (entries[bucket_key_index(entries, key@)].0, val),
        )
    } else {
        entries.push((key, val))
    }
}

/// A bucket: the entries routed to one slot of the table, in storage order.
pub struct HashMapBucket<K: HashKey, Val> {
    pub(crate) values: Vec<(K, Val)>,
}

impl<K: HashKey, Val> View for HashMapBucket<K, Val> {
    type V = Seq<(K, Val)>;

    open(crate) spec fn view(&self) -> Seq<(K, Val)> {
        self.values@
    }
}

impl<K: HashKey, Val> HashMapBucket<K, Val> {
    /// Creates an empty bucket.
    pub(crate) fn new() -> (b: Self)
        ensures
            b@ == Seq::<(K, Val)>::empty(),
    {
        HashMapBucket { values: Vec::new() }
    }

    /// Position of the entry whose key's view is `key@`, if any.
    fn find(&self, key: &K) -> (r: Option<usize>)
        ensures
            match r {
                Some(i) => i < self@.len() && self@[i as int].0@ == key@,
                None => !bucket_has_key(self@, key@),
            },
    {
        let mut i: usize = 0;
        while i < self.values.len()
            invariant
                0 <= i <= self@.len(),
                self@ == self.values@,
                forall|j: int| 0 <= j < i ==> self@[j].0@ != key@,
            decreases self@.len() - i,
        {
            if self.values[i].0.eq_key(key) {
                return Some(i);
            }
            i = i + 1;
        }
        None
    }

    /// Inserts `val` under `key`.  On a key already present the stored key is
    /// retained, only its value is replaced, and the previous value is
    /// returned; on a new key the entry is appended and nothing is returned.
    pub(crate) fn insert(&mut self, key: K, val: Val) -> (r: Option<Val>)
        requires
            distinct_key_views(old(self)@),
            old(self)@.len() < usize::MAX,
        ensures
            final(self)@ == bucket_after_insert(old(self)@, key, val),
            distinct_key_views(final(self)@),
            bucket_has_key(final(self)@, key@),
            bucket_value(final(self)@, key@) == val,
            r == (if bucket_has_key(old(self)@, key@) {
                Some(bucket_value(old(self)@, key@))
            } else {
                None::<Val>
            }),
            final(self)@.len() == old(self)@.len() + (if bucket_has_key(old(self)@, key@) {
                0int
            } else {
                1int
            }),
            forall|k2: <K as View>::V|
                k2 != key@ ==> bucket_has_key(final(self)@, k2) == bucket_has_key(old(self)@, k2),
            forall|k2: <K as View>::V|
                k2 != key@ && bucket_has_key(old(self)@, k2) ==> bucket_value(final(self)@, k2)
                    == bucket_value(old(self)@, k2),
            forall|j: int|
                0 <= j < final(self)@.len() ==> final(self)@[j].0@ == key@ || bucket_has_key(
                    old(self)@,
                    final(self)@[j].0@,
                ),
    {
        let ghost gkey = key;
        let ghost gval = val;
        match self.find(&key) {
            Some(i) => {
                proof {
                    lemma_unique_key_index(self@, key@, i as int);
                }
                let entry = &mut self.values[i];
                let mut prev = val;
                core::mem::swap(&mut entry.1, &mut prev);
                proof {
                    lemma_update_value_pointwise(old(self)@, self@, i as int, gkey@);
                    assert(self@[i as int] == (old(self)@[i as int].0, gval));
                    assert(self@ =~= bucket_after_insert(old(self)@, gkey, gval));
                }
                Some(prev)
            },
            None => {
                self.values.push((key, val));
                proof {
                    lemma_push_pointwise(old(self)@, self@, key@);
                }
                None
            },
        }
    }

    /// Borrows the value stored under `key`, or nothing if the key is absent.
    pub(crate) fn get(&self, key: &K) -> (r: Option<&Val>)
        requires
            distinct_key_views(self@),
        ensures
            match r {
                Some(v) => bucket_has_key(self@, key@) && *v == bucket_value(self@, key@),
                None => !bucket_has_key(self@, key@),
            },
    {
        match self.find(key) {
            Some(i) => {
                proof {
                    lemma_unique_key_index(self@, key@, i as int);
                }
                Some(&self.values[i].1)
            },
            None => None,
        }
    }

    /// Removes the entry stored under `key` and returns its value, or nothing
    /// if the key is absent.  The order of the remaining entries may change.
    pub(crate) fn remove(&mut self, key: &K) -> (r: Option<Val>)
        requires
            distinct_key_views(old(self)@),
        ensures
            !bucket_has_key(old(self)@, key@) ==> final(self)@ == old(self)@,
            distinct_key_views(final(self)@),
            !bucket_has_key(final(self)@, key@),
            r == (if bucket_has_key(old(self)@, key@) {
                Some(bucket_value(old(self)@, key@))
            } else {
                None::<Val>
            }),
            final(self)@.len() == old(self)@.len() - (if bucket_has_key(old(self)@, key@) {
                1int
            } else {
                0int
            }),
            forall|k2: <K as View>::V|
                k2 != key@ ==> bucket_has_key(final(self)@, k2) == bucket_has_key(old(self)@, k2),
            forall|k2: <K as View>::V|
                k2 != key@ && bucket_has_key(old(self)@, k2) ==> bucket_value(final(self)@, k2)
                    == bucket_value(old(self)@, k2),
            forall|j: int|
                0 <= j < final(self)@.len() ==> bucket_has_key(old(self)@, final(self)@[j].0@),
    {
        match self.find(key) {
            Some(i) => {
                proof {
                    lemma_unique_key_index(self@, key@, i as int);
                }
                let (_, v) = self.values.swap_remove(i);
                proof {
                    lemma_swap_remove_pointwise(old(self)@, self@, i as int, key@);
                }
                Some(v)
            },
            None => None,
        }
    }
}

/// In a bucket with pairwise distinct key values, a position holding key
/// value `k` is the position `bucket_key_index` denotes.
pub(crate) proof fn lemma_unique_key_index<K: View, Val>(entries: Seq<(K, Val)>, k: K::V, i: int)
    requires
        distinct_key_views(entries),
        0 <= i < entries.len(),
        entries[i].0@ == k,
    ensures
        bucket_has_key(entries, k),
        bucket_key_index(entries, k) == i,
        bucket_value(entries, k) == entries[i].1,
{
    assert(bucket_has_key(entries, k));
    let j = bucket_key_index(entries, k);
    assert(0 <= j < entries.len() && entries[j].0@ == k);
    if i != j {
        assert(entries[i].0@ != entries[j].0@);
    }
}

/// Replacing the value at the position of key value `k` leaves every other
/// key's presence and value unchanged.
proof fn lemma_update_value_pointwise<K: View, Val>(
    pre: Seq<(K, Val)>,
    post: Seq<(K, Val)>,
    i: int,
    k: K::V,
)
    requires
        distinct_key_views(pre),
        0 <= i < pre.len(),
        pre[i].0@ == k,
        post.len() == pre.len(),
        post[i].0 == pre[i].0,
        forall|j: int| 0 <= j < pre.len() && j != i ==> post[j] == pre[j],
    ensures
        distinct_key_views(post),
        bucket_has_key(post, k),
        bucket_value(post, k) == post[i].1,
        forall|k2: K::V| k2 != k ==> bucket_has_key(post, k2) == bucket_has_key(pre, k2),
        forall|k2: K::V|
            k2 != k && bucket_has_key(pre, k2) ==> bucket_value(post, k2) == bucket_value(pre, k2),
        forall|j: int| 0 <= j < post.len() ==> post[j].0@ == k || bucket_has_key(pre, post[j].0@),
{
    assert(forall|j: int| 0 <= j < post.len() ==> post[j].0@ == pre[j].0@);
    lemma_unique_key_index(post, k, i);
    assert forall|k2: K::V| k2 != k && bucket_has_key(pre, k2) implies bucket_has_key(post, k2)
        && bucket_value(post, k2) == bucket_value(pre, k2) by {
        let j = bucket_key_index(pre, k2);
        assert(pre[j].0@ == k2);
        assert(post[j].0@ == k2);
        lemma_unique_key_index(post, k2, j);
    }
    assert forall|k2: K::V| k2 != k && bucket_has_key(post, k2) implies bucket_has_key(pre, k2) by {
        let j = bucket_key_index(post, k2);
        assert(pre[j].0@ == k2);
    }
}

/// Appending an entry with a fresh key value keeps the other keys' presence
/// and values unchanged.
proof fn lemma_push_pointwise<K: View, Val>(pre: Seq<(K, Val)>, post: Seq<(K, Val)>, k: K::V)
    requires
        distinct_key_views(pre),
        !bucket_has_key(pre, k),
        post.len() == pre.len() + 1,
        post.last().0@ == k,
        forall|j: int| 0 <= j < pre.len() ==> post[j] == pre[j],
    ensures
        distinct_key_views(post),
        bucket_has_key(post, k),
        bucket_value(post, k) == post.last().1,
        forall|k2: K::V| k2 != k ==> bucket_has_key(post, k2) == bucket_has_key(pre, k2),
        forall|k2: K::V|
            k2 != k && bucket_has_key(pre, k2) ==> bucket_value(post, k2) == bucket_value(pre, k2),
        forall|j: int| 0 <= j < post.len() ==> post[j].0@ == k || bucket_has_key(pre, post[j].0@),
{
    let n = pre.len() as int;
    assert forall|i: int, j: int| 0 <= i < j < post.len() implies post[i].0@ != post[j].0@ by {
        if j < n {
            assert(pre[i].0@ != pre[j].0@);
        } else {
            assert(post[i] == pre[i]);
            if post[i].0@ == k {
                assert(bucket_has_key(pre, k));
            }
        }
    }
    lemma_unique_key_index(post, k, n);
    assert forall|k2: K::V| k2 != k && bucket_has_key(pre, k2) implies bucket_has_key(post, k2)
        && bucket_value(post, k2) == bucket_value(pre, k2) by {
        let j = bucket_key_index(pre, k2);
        assert(post[j].0@ == k2);
        lemma_unique_key_index(post, k2, j);
    }
    assert forall|k2: K::V| k2 != k && bucket_has_key(post, k2) implies bucket_has_key(pre, k2) by {
        let j = bucket_key_index(post, k2);
        assert(j < n);
        assert(pre[j].0@ == k2);
    }
}

/// Removing the entry at the position of key value `k` by swapping in the
/// last entry keeps the other keys' presence and values unchanged.
proof fn lemma_swap_remove_pointwise<K: View, Val>(
    pre: Seq<(K, Val)>,
    post: Seq<(K, Val)>,
    i: int,
    k: K::V,
)
    requires
        distinct_key_views(pre),
        0 <= i < pre.len(),
        pre[i].0@ == k,
        post == pre.update(i, pre.last()).drop_last(),
    ensures
        distinct_key_views(post),
        !bucket_has_key(post, k),
        post.len() == pre.len() - 1,
        forall|k2: K::V| k2 != k ==> bucket_has_key(post, k2) == bucket_has_key(pre, k2),
        forall|k2: K::V|
            k2 != k && bucket_has_key(pre, k2) ==> bucket_value(post, k2) == bucket_value(pre, k2),
        forall|j: int| 0 <= j < post.len() ==> bucket_has_key(pre, post[j].0@),
{
    let n = pre.len() as int;
    assert(post.len() == n - 1);
    assert(forall|j: int|
        0 <= j < n - 1 ==> post[j] == (if j == i {
            pre[n - 1]
        } else {
            pre[j]
        }));
    assert forall|p: int, q: int| 0 <= p < q < post.len() implies post[p].0@ != post[q].0@ by {
        let p2: int = if p == i { n - 1 } else { p };
        let q2: int = if q == i { n - 1 } else { q };
        assert(post[p] == pre[p2]);
        assert(post[q] == pre[q2]);
        assert(p2 != q2);
    }
    assert forall|j: int| 0 <= j < post.len() implies post[j].0@ != k by {
        let j2: int = if j == i { n - 1 } else { j };
        assert(post[j] == pre[j2]);
        if pre[j2].0@ == k {
            lemma_unique_key_index(pre, k, i);
            lemma_unique_key_index(pre, k, j2);
            assert(j2 == i);
            assert(false);
        }
    }
    assert forall|k2: K::V| k2 != k && bucket_has_key(pre, k2) implies bucket_has_key(post, k2)
        && bucket_value(post, k2) == bucket_value(pre, k2) by {
        let j = bucket_key_index(pre, k2);
        lemma_unique_key_index(pre, k2, j);
        let j2: int = if j == n - 1 { i } else { j };
        assert(j != i);
        assert(post[j2] == pre[j]);
        lemma_unique_key_index(post, k2, j2);
    }
    assert forall|k2: K::V| bucket_has_key(post, k2) implies bucket_has_key(pre, k2) by {
        let j = bucket_key_index(post, k2);
        let j2: int = if j == i { n - 1 } else { j };
        assert(post[j] == pre[j2]);
        assert(pre[j2].0@ == k2);
    }
}

} // verus!
