//! Laws of the table's map view.
//!
//! The operations' contracts describe one call each, over the view.  The
//! proofs here chain those contracts across calls: what a second `insert` of
//! the same key reports and leaves behind, and what `remove` leaves for a
//! later `remove` or `get` of the same key.

use vstd::prelude::*;

verus! {

/// A freshly constructed table holds nothing: no key is present in the empty
/// map, so `get` on any key reports absence.
pub proof fn lemma_empty_absent<KV, Val>(k: KV)
    ensures
        !Map::<KV, Val>::empty().contains_key(k),
{
}

/// Overwrite: after `insert(k, v1)` the table maps `k` to `v1`, so a second
/// `insert(k, v2)` reports `Some(v1)`, leaves `k` mapped to `v2` for a later
/// `get`, and keeps the key set, and with it the count, unchanged.
pub proof fn lemma_insert_overwrite<KV, Val>(m: Map<KV, Val>, k: KV, v1: Val, v2: Val)
    ensures
        m.insert(k, v1).contains_key(k),
        m.insert(k, v1)[k] == v1,
        m.insert(k, v1).insert(k, v2)[k] == v2,
        m.insert(k, v1).insert(k, v2) =~= m.insert(k, v2),
        m.insert(k, v1).insert(k, v2).dom() =~= m.insert(k, v1).dom(),
{
}

/// An insert touches no other key: every other key keeps its presence and its
/// value.
pub proof fn lemma_insert_preserves_others<KV, Val>(m: Map<KV, Val>, k: KV, v: Val, k2: KV)
    requires
        k2 != k,
    ensures
        m.insert(k, v).contains_key(k2) == m.contains_key(k2),
        m.contains_key(k2) ==> m.insert(k, v)[k2] == m[k2],
{
}

/// After a removal the key is absent: a `get` of it reports absence, and a
/// second `remove` of it finds nothing and changes nothing, twice over.
pub proof fn lemma_remove_then_absent<KV, Val>(m: Map<KV, Val>, k: KV)
    ensures
        !m.remove(k).contains_key(k),
        m.remove(k).remove(k) =~= m.remove(k),
        !m.contains_key(k) ==> m.remove(k) =~= m,
{
}

/// A removal touches no other key: every other key keeps its presence and its
/// value.
pub proof fn lemma_remove_preserves_others<KV, Val>(m: Map<KV, Val>, k: KV, k2: KV)
    requires
        k2 != k,
    ensures
        m.remove(k).contains_key(k2) == m.contains_key(k2),
        m.contains_key(k2) ==> m.remove(k)[k2] == m[k2],
{
}

} // verus!
