//! The hash table: a fixed array of buckets and an aggregate entry count.
//!
//! Every operation routes its key to one bucket by reducing the key's hash
//! modulo the bucket count, then delegates to that bucket's linear scan.  The
//! table is specified by its view, a map from key values to stored values,
//! and by `spec_len`, the number of stored entries.

use crate::bucket::{
    bucket_after_insert, bucket_has_key, bucket_key_index, bucket_value, distinct_key_views,
    lemma_unique_key_index, HashMapBucket,
};
use crate::keys::HashKey;
use vstd::prelude::*;

verus! {

/// Number of buckets of every table; fixed for a table's whole lifetime, so
/// the table never rehashes.
pub const BUCKET_COUNT: usize = 1000;

/// The slot a key value is routed to: its hash reduced modulo the bucket
/// count.  A pure function of the key's value, so equal keys always route to
/// the same slot.
pub open spec fn bucket_of<K: HashKey>(k: K::V, cap: nat) -> int {
    (K::hash_of(k) as int) % (cap as int)
}

/// All entries of a sequence of buckets, in bucket order, each bucket in its
/// own storage order.
pub open spec fn entries_of<K: HashKey, Val>(bs: Seq<Seq<(K, Val)>>) -> Seq<(K, Val)>
    decreases bs.len(),
{
    if bs.len() == 0 {
        Seq::empty()
    } else {
        bs[0] + entries_of(bs.drop_first())
    }
}

/// One bucket's obligations within the table: pairwise distinct key values,
/// every entry routed to this very slot.
pub open spec fn slot_wf<K: HashKey, Val>(entries: Seq<(K, Val)>, i: int, cap: nat) -> bool {
    &&& distinct_key_views(entries)
    &&& forall|j: int|
        0 <= j < entries.len() ==> bucket_of::<K>(#[trigger] entries[j].0@, cap) == i
}

/// A mapping from keys to values with a fixed number of buckets; colliding
/// entries chain inside their bucket.
pub struct HashMap<K: HashKey, Val> {
    buckets: Vec<HashMapBucket<K, Val>>,
    len: usize,
    cap: usize,
}

impl<K: HashKey, Val> View for HashMap<K, Val> {
    type V = Map<<K as View>::V, Val>;

    /// The table as a map: a key value is present when its routed bucket
    /// holds it, and it maps to the value stored there.
    closed spec fn view(&self) -> Map<<K as View>::V, Val> {
        Map::new(
            |k: <K as View>::V|
                bucket_has_key(self.buckets@[bucket_of::<K>(k, self.cap as nat)]@, k),
            |k: <K as View>::V| bucket_value(self.buckets@[bucket_of::<K>(k, self.cap as nat)]@, k),
        )
    }
}

impl<K: HashKey, Val> HashMap<K, Val> {
    /// The buckets' contents, as a sequence of entry sequences.
    pub closed spec fn bucket_views(&self) -> Seq<Seq<(K, Val)>> {
        self.buckets@.map_values(|b: HashMapBucket<K, Val>| b@)
    }

    /// All stored entries, in iteration order: ascending bucket index, then
    /// the bucket's own storage order.
    pub closed spec fn entries(&self) -> Seq<(K, Val)> {
        entries_of(self.bucket_views())
    }

    /// Number of stored entries.
    pub closed spec fn spec_len(&self) -> nat {
        self.len as nat
    }

    /// The table's invariant: the bucket array has the fixed capacity, the
    /// aggregate count equals the number of entries over all buckets, and
    /// every bucket holds distinct keys that route to it.
    pub closed spec fn wf(&self) -> bool {
        &&& self.cap == BUCKET_COUNT
        &&& self.buckets@.len() == self.cap
        &&& self.len == entries_of(self.bucket_views()).len()
        &&& forall|i: int|
            0 <= i < self.buckets@.len() ==> slot_wf::<K, Val>(
                (#[trigger] self.buckets@[i])@,
                i,
                self.cap as nat,
            )
    }

    /// Creates an empty table with `BUCKET_COUNT` empty buckets.
    pub fn new() -> (t: Self)
        ensures
            t.wf(),
            t@ == Map::<<K as View>::V, Val>::empty(),
            t.spec_len() == 0,
    {
        let mut buckets: Vec<HashMapBucket<K, Val>> = Vec::new();
        let mut i: usize = 0;
        while i < BUCKET_COUNT
            invariant
                i <= BUCKET_COUNT,
                i == buckets@.len(),
                forall|j: int| 0 <= j < i ==> (#[trigger] buckets@[j])@.len() == 0,
            decreases BUCKET_COUNT - i,
        {
            buckets.push(HashMapBucket::new());
            i = i + 1;
        }
        let t = HashMap { buckets, len: 0, cap: BUCKET_COUNT };
        proof {
            assert forall|j: int| 0 <= j < t.bucket_views().len() implies (#[trigger] t.bucket_views()[j]).len() == 0 by {
                assert(t.bucket_views()[j] == t.buckets@[j]@);
            }
            lemma_entries_of_all_empty(t.bucket_views());
            assert forall|j: int| 0 <= j < t.buckets@.len() implies slot_wf::<K, Val>(
                (#[trigger] t.buckets@[j])@,
                j,
                t.cap as nat,
            ) by {
                assert(t.buckets@[j]@.len() == 0);
            }
            assert(t@ =~= Map::<<K as View>::V, Val>::empty());
        }
        t
    }

    /// The bucket index for `key`: its hash reduced modulo the capacity.
    fn hash(&self, key: &K) -> (i: usize)
        requires
            self.wf(),
        ensures
            i as int == bucket_of::<K>(key@, self.cap as nat),
            i < self.buckets@.len(),
    {
        let h = key.hash_key();
        (h % (self.cap as u64)) as usize
    }

    /// Stores `val` under `key`.  Returns the value previously stored under
    /// an equal key, replacing it without incrementing the count; on a new
    /// key stores the entry and increments the count.
    pub fn insert(&mut self, key: K, val: Val) -> (r: Option<Val>)
        requires
            old(self).wf(),
            old(self).spec_len() < usize::MAX,
        ensures
            final(self).wf(),
            final(self)@ == old(self)@.insert(key@, val),
            final(self).bucket_views() == old(self).bucket_views().update(
                bucket_of::<K>(key@, BUCKET_COUNT as nat),
                bucket_after_insert(
                    old(self).bucket_views()[bucket_of::<K>(key@, BUCKET_COUNT as nat)],
                    key,
                    val,
                ),
            ),
            old(self)@.contains_key(key@) ==> r == Some(old(self)@[key@])
                && final(self).spec_len() == old(self).spec_len(),
            !old(self)@.contains_key(key@) ==> r == None::<Val>
                && final(self).spec_len() == old(self).spec_len() + 1,
    {
        let idx = self.hash(&key);
        let ghost kv = key@;
        let ghost gkey = key;
        let ghost gval = val;
        let ghost pre = *self;
        proof {
            lemma_bucket_within_entries(pre.bucket_views(), idx as int);
        }
        let bucket = &mut self.buckets[idx];
        let r = bucket.insert(key, val);
        if r.is_none() {
            self.len = self.len + 1;
        }
        proof {
            assert(self.bucket_views() =~= pre.bucket_views().update(
                idx as int,
                self.buckets@[idx as int]@,
            ));
            lemma_entries_of_update(pre.bucket_views(), idx as int, self.buckets@[idx as int]@);
            assert forall|i: int| 0 <= i < self.buckets@.len() implies slot_wf::<K, Val>(
                (#[trigger] self.buckets@[i])@,
                i,
                self.cap as nat,
            ) by {
                if i == idx as int {
                    assert forall|j: int| 0 <= j < self.buckets@[i]@.len() implies bucket_of::<K>(
                        (#[trigger] self.buckets@[i]@[j]).0@,
                        self.cap as nat,
                    ) == i by {
                        let k2 = self.buckets@[i]@[j].0@;
                        if k2 != kv {
                            assert(bucket_has_key(pre.buckets@[i]@, k2));
                            let j2 = bucket_key_index(pre.buckets@[i]@, k2);
                            assert(bucket_of::<K>(pre.buckets@[i]@[j2].0@, self.cap as nat) == i);
                        }
                    }
                } else {
                    assert(self.buckets@[i] == pre.buckets@[i]);
                }
            }
            assert(final(self)@ =~= pre@.insert(kv, val)) by {
                lemma_view_after_bucket_change(pre, *self, idx as int, kv, gval);
            }
            assert(self.buckets@[idx as int]@ == bucket_after_insert(
                pre.buckets@[idx as int]@,
                gkey,
                gval,
            ));
            assert(pre.bucket_views()[idx as int] == pre.buckets@[idx as int]@);
            assert(final(self).bucket_views() =~= pre.bucket_views().update(
                idx as int,
                bucket_after_insert(pre.bucket_views()[idx as int], gkey, gval),
            ));
            assert(pre@.contains_key(kv) == bucket_has_key(pre.buckets@[idx as int]@, kv));
            if pre@.contains_key(kv) {
                assert(pre@[kv] == bucket_value(pre.buckets@[idx as int]@, kv));
            }
        }
        r
    }

    /// Borrows the value stored under `key`, or nothing if the key is absent.
    /// Never mutates the table.
    pub fn get(&self, key: &K) -> (r: Option<&Val>)
        requires
            self.wf(),
        ensures
            match r {
                Some(v) => self@.contains_key(key@) && *v == self@[key@],
                None => !self@.contains_key(key@),
            },
    {
        let idx = self.hash(key);
        let bucket = &self.buckets[idx];
        let r = bucket.get(key);
        proof {
            assert(self@.contains_key(key@) == bucket_has_key(self.buckets@[idx as int]@, key@));
        }
        r
    }

    /// Whether some entry is stored under `key`.
    pub fn contains_key(&self, key: &K) -> (r: bool)
        requires
            self.wf(),
        ensures
            r == self@.contains_key(key@),
    {
        self.get(key).is_some()
    }

    /// Number of stored entries, in constant time.
    pub fn len(&self) -> (n: usize)
        ensures
            n == self.spec_len(),
    {
        self.len
    }

    /// Removes the entry stored under `key` and returns its value, or nothing
    /// if the key is absent.
    pub fn remove(&mut self, key: &K) -> (r: Option<Val>)
        requires
            old(self).wf(),
        ensures
            final(self).wf(),
            old(self)@.contains_key(key@) ==> r == Some(old(self)@[key@])
                && final(self)@ == old(self)@.remove(key@)
                && final(self).spec_len() == old(self).spec_len() - 1,
            !old(self)@.contains_key(key@) ==> r == None::<Val>
                && final(self)@ == old(self)@
                && final(self).bucket_views() == old(self).bucket_views()
                && final(self).entries() == old(self).entries()
                && final(self).spec_len() == old(self).spec_len(),
    {
        let idx = self.hash(key);
        let ghost kv = key@;
        let ghost pre = *self;
        proof {
            lemma_bucket_within_entries(pre.bucket_views(), idx as int);
        }
        let bucket = &mut self.buckets[idx];
        let r = bucket.remove(key);
        if r.is_some() {
            self.len = self.len - 1;
        }
        proof {
            assert(self.bucket_views() =~= pre.bucket_views().update(
                idx as int,
                self.buckets@[idx as int]@,
            ));
            lemma_entries_of_update(pre.bucket_views(), idx as int, self.buckets@[idx as int]@);
            assert forall|i: int| 0 <= i < self.buckets@.len() implies slot_wf::<K, Val>(
                (#[trigger] self.buckets@[i])@,
                i,
                self.cap as nat,
            ) by {
                if i == idx as int {
                    assert forall|j: int| 0 <= j < self.buckets@[i]@.len() implies bucket_of::<K>(
                        (#[trigger] self.buckets@[i]@[j]).0@,
                        self.cap as nat,
                    ) == i by {
                        let k2 = self.buckets@[i]@[j].0@;
                        assert(bucket_has_key(pre.buckets@[i]@, k2));
                        let j2 = bucket_key_index(pre.buckets@[i]@, k2);
                        assert(bucket_of::<K>(pre.buckets@[i]@[j2].0@, self.cap as nat) == i);
                    }
                } else {
                    assert(self.buckets@[i] == pre.buckets@[i]);
                }
            }
            assert(pre@.contains_key(kv) == bucket_has_key(pre.buckets@[idx as int]@, kv));
            if pre@.contains_key(kv) {
                assert(pre@[kv] == bucket_value(pre.buckets@[idx as int]@, kv));
                assert(final(self)@ =~= pre@.remove(kv)) by {
                    lemma_view_after_bucket_removal(pre, *self, idx as int, kv);
                }
            } else {
                assert(final(self)@ =~= pre@) by {
                    lemma_view_after_bucket_removal(pre, *self, idx as int, kv);
                }
                assert(self.buckets@[idx as int]@ == pre.buckets@[idx as int]@);
                assert(final(self).bucket_views() =~= pre.bucket_views());
            }
        }
        r
    }

    /// Borrows the value stored under `key`, which the caller must have
    /// established to be present; absence is a contract violation here, so
    /// callers without that knowledge use `get` or `contains_key` first.
    pub fn index(&self, key: &K) -> (v: &Val)
        requires
            self.wf(),
            self@.contains_key(key@),
        ensures
            *v == self@[key@],
    {
        match self.get(key) {
            Some(v) => v,
            None => vstd::pervasive::unreached(),
        }
    }
}

/// A borrowing cursor over a table: buckets in ascending index order, entries
/// within a bucket in the bucket's own storage order.  It holds the table
/// borrowed for its whole lifetime, so the table cannot be mutated while the
/// cursor is alive.
pub struct HashMapIter<'a, K: HashKey, Val> {
    table: &'a HashMap<K, Val>,
    at_bucket: usize,
    at_entry: usize,
}

/// The entries of `bs` not yet visited by a cursor standing at entry `j` of
/// bucket `i`: the rest of bucket `i`, then all later buckets.
pub open spec fn remaining_from<K: HashKey, Val>(bs: Seq<Seq<(K, Val)>>, i: int, j: int) -> Seq<
    (K, Val),
>
    decreases bs.len() - i,
{
    if i < 0 || i >= bs.len() {
        Seq::empty()
    } else {
        bs[i].skip(j) + remaining_from(bs, i + 1, 0)
    }
}

impl<'a, K: HashKey, Val> HashMapIter<'a, K, Val> {
    /// The cursor's invariant: the table is well formed and the cursor stands
    /// on a bucket boundary or inside a bucket.
    pub closed spec fn wf(&self) -> bool {
        &&& self.table.wf()
        &&& self.at_bucket <= self.table.cap
        &&& (self.at_bucket < self.table.cap ==> self.at_entry
            <= self.table.buckets@[self.at_bucket as int]@.len())
        &&& (self.at_bucket == self.table.cap ==> self.at_entry == 0)
    }

    /// The entries not yet produced, in the order they will be produced.
    pub closed spec fn remaining(&self) -> Seq<(K, Val)> {
        remaining_from(self.table.bucket_views(), self.at_bucket as int, self.at_entry as int)
    }

    /// Produces the next stored entry, or nothing once every entry has been
    /// produced exactly once.
    pub fn next(&mut self) -> (r: Option<&'a (K, Val)>)
        requires
            old(self).wf(),
        ensures
            final(self).wf(),
            old(self).remaining().len() > 0 ==> (r matches Some(p)
                && *p == old(self).remaining()[0]
                && final(self).remaining() == old(self).remaining().drop_first()),
            old(self).remaining().len() == 0 ==> r is None && final(self).remaining().len() == 0,
    {
        while self.at_bucket < self.table.cap
            invariant
                self.wf(),
                self.table == old(self).table,
                self.remaining() == old(self).remaining(),
            decreases self.table.cap - self.at_bucket,
        {
            let ghost bs = self.table.bucket_views();
            let ghost i = self.at_bucket as int;
            let ghost j = self.at_entry as int;
            let bucket = &self.table.buckets[self.at_bucket];
            proof {
                assert(bs[i] == bucket@);
            }
            if self.at_entry < bucket.values.len() {
                let p = &bucket.values[self.at_entry];
                self.at_entry = self.at_entry + 1;
                proof {
                    lemma_remaining_step(bs, i, j);
                }
                return Some(p);
            }
            self.at_bucket = self.at_bucket + 1;
            self.at_entry = 0;
            proof {
                lemma_remaining_bucket_done(bs, i);
            }
        }
        None
    }
}

impl<K: HashKey, Val> HashMap<K, Val> {
    /// A cursor that produces every stored entry exactly once.
    pub fn iter<'a>(&'a self) -> (it: HashMapIter<'a, K, Val>)
        requires
            self.wf(),
        ensures
            it.wf(),
            it.remaining() == self.entries(),
    {
        proof {
            lemma_remaining_is_entries(self.bucket_views());
        }
        HashMapIter { table: self, at_bucket: 0, at_entry: 0 }
    }
}

/// A cursor standing on an entry produces that entry and afterwards has the
/// rest to produce.
proof fn lemma_remaining_step<K: HashKey, Val>(bs: Seq<Seq<(K, Val)>>, i: int, j: int)
    requires
        0 <= i < bs.len(),
        0 <= j < bs[i].len(),
    ensures
        remaining_from(bs, i, j).len() > 0,
        remaining_from(bs, i, j)[0] == bs[i][j],
        remaining_from(bs, i, j + 1) == remaining_from(bs, i, j).drop_first(),
{
    assert(remaining_from(bs, i, j + 1) =~= remaining_from(bs, i, j).drop_first());
}

/// A cursor at the end of a bucket has exactly the later buckets' entries to
/// produce.
proof fn lemma_remaining_bucket_done<K: HashKey, Val>(bs: Seq<Seq<(K, Val)>>, i: int)
    requires
        0 <= i < bs.len(),
    ensures
        remaining_from(bs, i, bs[i].len() as int) == remaining_from(bs, i + 1, 0),
{
    assert(bs[i].skip(bs[i].len() as int) =~= Seq::<(K, Val)>::empty());
    assert(remaining_from(bs, i, bs[i].len() as int) =~= remaining_from(bs, i + 1, 0));
}

/// Shifting the cursor view: the entries after bucket `i + 1` of `bs` are the
/// entries after bucket `i` of `bs` without its first bucket.
proof fn lemma_remaining_shift<K: HashKey, Val>(bs: Seq<Seq<(K, Val)>>, i: int)
    requires
        0 <= i,
        bs.len() > 0,
    ensures
        remaining_from(bs, i + 1, 0) == remaining_from(bs.drop_first(), i, 0),
    decreases bs.len() - i,
{
    if i + 1 >= bs.len() {
        assert(remaining_from(bs, i + 1, 0) =~= remaining_from(bs.drop_first(), i, 0));
    } else {
        lemma_remaining_shift(bs, i + 1);
        assert(bs.drop_first()[i] == bs[i + 1]);
        assert(bs[i + 1].skip(0) =~= bs[i + 1]);
        assert(bs.drop_first()[i].skip(0) =~= bs[i + 1]);
    }
}

/// A cursor at the very start has every entry of the table to produce.
proof fn lemma_remaining_is_entries<K: HashKey, Val>(bs: Seq<Seq<(K, Val)>>)
    ensures
        remaining_from(bs, 0, 0) == entries_of(bs),
    decreases bs.len(),
{
    if bs.len() > 0 {
        lemma_remaining_shift(bs, 0);
        lemma_remaining_is_entries(bs.drop_first());
        assert(bs[0].skip(0) =~= bs[0]);
    }
}

/// Two tables that differ in one bucket, where only the key value `k` gained
/// presence or changed its value, have views related by `insert`.
proof fn lemma_view_after_bucket_change<K: HashKey, Val>(
    pre: HashMap<K, Val>,
    post: HashMap<K, Val>,
    idx: int,
    k: K::V,
    val: Val,
)
    requires
        pre.cap == post.cap,
        pre.cap > 0,
        pre.buckets@.len() == pre.cap,
        post.buckets@.len() == post.cap,
        idx == bucket_of::<K>(k, pre.cap as nat),
        forall|i: int| 0 <= i < pre.buckets@.len() && i != idx ==> post.buckets@[i] == pre.buckets@[i],
        bucket_has_key(post.buckets@[idx]@, k),
        bucket_value(post.buckets@[idx]@, k) == val,
        forall|k2: K::V|
            k2 != k ==> bucket_has_key(post.buckets@[idx]@, k2) == bucket_has_key(
                pre.buckets@[idx]@,
                k2,
            ),
        forall|k2: K::V|
            k2 != k && bucket_has_key(pre.buckets@[idx]@, k2) ==> bucket_value(
                post.buckets@[idx]@,
                k2,
            ) == bucket_value(pre.buckets@[idx]@, k2),
    ensures
        post@ =~= pre@.insert(k, val),
{
    assert forall|k2: K::V| true implies (post@.contains_key(k2) == pre@.insert(
        k,
        val,
    ).contains_key(k2) && (post@.contains_key(k2) ==> post@[k2] == pre@.insert(k, val)[k2])) by {
        let i = bucket_of::<K>(k2, pre.cap as nat);
        if k2 == k {
            assert(post@.contains_key(k2));
        } else if i == idx {
            assert(post@.contains_key(k2) == pre@.contains_key(k2));
        } else {
            assert(post.buckets@[i] == pre.buckets@[i]);
        }
    }
}

/// Two tables that differ in one bucket, where only the key value `k` lost
/// its presence, have views related by `remove`.
proof fn lemma_view_after_bucket_removal<K: HashKey, Val>(
    pre: HashMap<K, Val>,
    post: HashMap<K, Val>,
    idx: int,
    k: K::V,
)
    requires
        pre.cap == post.cap,
        pre.cap > 0,
        pre.buckets@.len() == pre.cap,
        post.buckets@.len() == post.cap,
        idx == bucket_of::<K>(k, pre.cap as nat),
        forall|i: int| 0 <= i < pre.buckets@.len() && i != idx ==> post.buckets@[i] == pre.buckets@[i],
        !bucket_has_key(post.buckets@[idx]@, k),
        forall|k2: K::V|
            k2 != k ==> bucket_has_key(post.buckets@[idx]@, k2) == bucket_has_key(
                pre.buckets@[idx]@,
                k2,
            ),
        forall|k2: K::V|
            k2 != k && bucket_has_key(pre.buckets@[idx]@, k2) ==> bucket_value(
                post.buckets@[idx]@,
                k2,
            ) == bucket_value(pre.buckets@[idx]@, k2),
    ensures
        post@ =~= pre@.remove(k),
{
    assert forall|k2: K::V| true implies (post@.contains_key(k2) == pre@.remove(k).contains_key(k2)
        && (post@.contains_key(k2) ==> post@[k2] == pre@.remove(k)[k2])) by {
        let i = bucket_of::<K>(k2, pre.cap as nat);
        if k2 == k {
            assert(!post@.contains_key(k2));
        } else if i == idx {
            assert(post@.contains_key(k2) == pre@.contains_key(k2));
        } else {
            assert(post.buckets@[i] == pre.buckets@[i]);
        }
    }
}

impl<K: HashKey, Val> HashMap<K, Val> {
    /// Iteration is complete and exact: a full pass produces as many entries
    /// as the table counts, every produced pair is stored in the table, no
    /// key value is produced twice, and every stored pair is produced.
    pub proof fn lemma_entries_match_map(&self)
        requires
            self.wf(),
        ensures
            self.entries().len() == self.spec_len(),
            distinct_key_views(self.entries()),
            forall|p: int|
                0 <= p < self.entries().len() ==> self@.contains_key(
                    (#[trigger] self.entries()[p]).0@,
                ) && self@[self.entries()[p].0@] == self.entries()[p].1,
            forall|k: <K as View>::V|
                #[trigger] self@.contains_key(k) ==> exists|p: int|
                    0 <= p < self.entries().len() && (#[trigger] self.entries()[p]).0@ == k
                        && self.entries()[p].1 == self@[k],
    {
        let bs = self.bucket_views();
        let cap = self.cap as nat;
        assert forall|i: int| 0 <= i < bs.len() implies slot_wf::<K, Val>(
            #[trigger] bs[i],
            0 + i,
            cap,
        ) by {
            assert(bs[i] == self.buckets@[i]@);
        }
        lemma_entries_of_distinct(bs, 0, cap);
        assert forall|p: int| 0 <= p < self.entries().len() implies self@.contains_key(
            (#[trigger] self.entries()[p]).0@,
        ) && self@[self.entries()[p].0@] == self.entries()[p].1 by {
            lemma_entries_of_pos(bs, p);
            let (i, j) = choose|i: int, j: int|
                0 <= i < bs.len() && 0 <= j < bs[i].len() && entries_of(bs)[p] == bs[i][j];
            let k = bs[i][j].0@;
            assert(bucket_of::<K>(k, cap) == i);
            lemma_unique_key_index(bs[i], k, j);
        }
        assert forall|k: <K as View>::V| #[trigger] self@.contains_key(k) implies exists|p: int|
            0 <= p < self.entries().len() && (#[trigger] self.entries()[p]).0@ == k
                && self.entries()[p].1 == self@[k] by {
            let i = bucket_of::<K>(k, cap);
            assert(bucket_has_key(self.buckets@[i]@, k));
            let j = bucket_key_index(bs[i], k);
            lemma_unique_key_index(bs[i], k, j);
            lemma_entries_of_member(bs, i, j);
            let p = choose|p: int|
                0 <= p < entries_of(bs).len() && entries_of(bs)[p] == bs[i][j];
            assert((self.entries()[p]).0@ == k && self.entries()[p].1 == self@[k]);
        }
    }

    /// The count the table reports is the size of its view: there are exactly
    /// `spec_len` keys present.
    pub proof fn lemma_len_is_map_size(&self)
        requires
            self.wf(),
        ensures
            self@.dom().finite(),
            self.spec_len() == self@.len(),
    {
        broadcast use vstd::seq_lib::seq_to_set_is_finite;

        self.lemma_entries_match_map();
        let keys = self.entries().map_values(|e: (K, Val)| e.0@);
        assert forall|p: int, q: int| 0 <= p < keys.len() && 0 <= q < keys.len() && p != q implies
            keys[p] != keys[q] by {
            assert(keys[p] == self.entries()[p].0@ && keys[q] == self.entries()[q].0@);
        }
        keys.unique_seq_to_set();
        assert forall|k: <K as View>::V| #[trigger] self@.dom().contains(k) implies
            keys.to_set().contains(k) by {
            let p = choose|p: int|
                0 <= p < self.entries().len() && (#[trigger] self.entries()[p]).0@ == k
                    && self.entries()[p].1 == self@[k];
            assert(keys[p] == k);
        }
        assert forall|k: <K as View>::V| #[trigger] keys.to_set().contains(k) implies
            self@.dom().contains(k) by {
            let p = choose|p: int| 0 <= p < keys.len() && keys[p] == k;
            assert(self.entries()[p].0@ == k);
        }
        assert(self@.dom() =~= keys.to_set());
    }
}

/// In a run of buckets whose entries all route to their own slot, the
/// collected entries carry pairwise distinct key values, and each routes at
/// or after the run's first slot.
proof fn lemma_entries_of_distinct<K: HashKey, Val>(bs: Seq<Seq<(K, Val)>>, off: int, cap: nat)
    requires
        forall|i: int| 0 <= i < bs.len() ==> slot_wf::<K, Val>(#[trigger] bs[i], off + i, cap),
    ensures
        distinct_key_views(entries_of(bs)),
        forall|p: int|
            0 <= p < entries_of(bs).len() ==> bucket_of::<K>(
                (#[trigger] entries_of(bs)[p]).0@,
                cap,
            ) >= off,
    decreases bs.len(),
{
    if bs.len() > 0 {
        let rest = bs.drop_first();
        assert forall|i: int| 0 <= i < rest.len() implies slot_wf::<K, Val>(
            #[trigger] rest[i],
            (off + 1) + i,
            cap,
        ) by {
            assert(rest[i] == bs[i + 1]);
        }
        lemma_entries_of_distinct(rest, off + 1, cap);
        let n0 = bs[0].len() as int;
        let es = entries_of(bs);
        assert forall|p: int, q: int| 0 <= p < q < es.len() implies es[p].0@ != es[q].0@ by {
            if q < n0 {
                assert(es[p] == bs[0][p] && es[q] == bs[0][q]);
            } else if p >= n0 {
                assert(es[p] == entries_of(rest)[p - n0] && es[q] == entries_of(rest)[q - n0]);
            } else {
                assert(es[p] == bs[0][p]);
                assert(es[q] == entries_of(rest)[q - n0]);
                assert(bucket_of::<K>(es[p].0@, cap) == off);
                assert(bucket_of::<K>(es[q].0@, cap) >= off + 1);
            }
        }
        assert forall|p: int| 0 <= p < es.len() implies bucket_of::<K>(
            (#[trigger] es[p]).0@,
            cap,
        ) >= off by {
            if p < n0 {
                assert(es[p] == bs[0][p]);
            } else {
                assert(es[p] == entries_of(rest)[p - n0]);
            }
        }
    }
}

/// Every collected entry comes from some bucket.
proof fn lemma_entries_of_pos<K: HashKey, Val>(bs: Seq<Seq<(K, Val)>>, p: int)
    requires
        0 <= p < entries_of(bs).len(),
    ensures
        exists|i: int, j: int|
            0 <= i < bs.len() && 0 <= j < bs[i].len() && entries_of(bs)[p] == bs[i][j],
    decreases bs.len(),
{
    let n0 = bs[0].len() as int;
    if p < n0 {
        assert(entries_of(bs)[p] == bs[0][p]);
    } else {
        let rest = bs.drop_first();
        lemma_entries_of_pos(rest, p - n0);
        let (i, j) = choose|i: int, j: int|
            0 <= i < rest.len() && 0 <= j < rest[i].len() && entries_of(rest)[p - n0] == rest[i][j];
        assert(entries_of(bs)[p] == bs[i + 1][j]);
    }
}

/// Every bucket entry appears somewhere among the collected entries.
proof fn lemma_entries_of_member<K: HashKey, Val>(bs: Seq<Seq<(K, Val)>>, i: int, j: int)
    requires
        0 <= i < bs.len(),
        0 <= j < bs[i].len(),
    ensures
        exists|p: int| 0 <= p < entries_of(bs).len() && entries_of(bs)[p] == bs[i][j],
    decreases bs.len(),
{
    let n0 = bs[0].len() as int;
    if i == 0 {
        assert(entries_of(bs)[j] == bs[0][j]);
    } else {
        let rest = bs.drop_first();
        lemma_entries_of_member(rest, i - 1, j);
        let p = choose|p: int|
            0 <= p < entries_of(rest).len() && entries_of(rest)[p] == rest[i - 1][j];
        assert(entries_of(bs)[p + n0] == entries_of(rest)[p]);
        assert(rest[i - 1] == bs[i]);
    }
}

/// A sequence of empty buckets holds no entries.
proof fn lemma_entries_of_all_empty<K: HashKey, Val>(bs: Seq<Seq<(K, Val)>>)
    requires
        forall|i: int| 0 <= i < bs.len() ==> (#[trigger] bs[i]).len() == 0,
    ensures
        entries_of(bs).len() == 0,
    decreases bs.len(),
{
    if bs.len() > 0 {
        lemma_entries_of_all_empty(bs.drop_first());
    }
}

/// Replacing one bucket changes the total entry count by the difference of
/// that bucket's lengths.
proof fn lemma_entries_of_update<K: HashKey, Val>(bs: Seq<Seq<(K, Val)>>, i: int, nb: Seq<(K, Val)>)
    requires
        0 <= i < bs.len(),
    ensures
        entries_of(bs.update(i, nb)).len() == entries_of(bs).len() - bs[i].len() + nb.len(),
    decreases bs.len(),
{
    if i == 0 {
        assert(bs.update(0, nb).drop_first() =~= bs.drop_first());
        assert(bs.update(0, nb)[0] == nb);
    } else {
        lemma_entries_of_update(bs.drop_first(), i - 1, nb);
        assert(bs.update(i, nb).drop_first() =~= bs.drop_first().update(i - 1, nb));
        assert(bs.update(i, nb)[0] == bs[0]);
    }
}

/// One bucket never holds more entries than the whole table.
proof fn lemma_bucket_within_entries<K: HashKey, Val>(bs: Seq<Seq<(K, Val)>>, i: int)
    requires
        0 <= i < bs.len(),
    ensures
        bs[i].len() <= entries_of(bs).len(),
    decreases bs.len(),
{
    if i > 0 {
        lemma_bucket_within_entries(bs.drop_first(), i - 1);
    }
}

} // verus!
