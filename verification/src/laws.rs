//! The laws the map obeys, stated over its abstract value. Each public
//! operation's contract describes one call; these lemmas tie sequences of
//! calls together.

use vstd::prelude::*;

use crate::key::HashKey;

verus! {

/// The entry count follows distinct keys exactly: inserting a fresh key
/// raises the length by one, inserting a present key leaves it unchanged,
/// removing a present key lowers it by one, and removing an absent key
/// leaves it unchanged. With `insert`, `remove` and `len` described by
/// `Map::insert`, `Map::remove` and `dom().len()`, this pins `len()` to the
/// number of distinct keys inserted minus the number successfully removed.
pub proof fn lemma_len_bookkeeping<K: HashKey, V>(m: Map<K::V, V>, kv: K::V, v: V)
    requires
        m.dom().finite(),
    ensures
        !m.contains_key(kv) ==> m.insert(kv, v).dom().len() == m.dom().len() + 1,
        m.contains_key(kv) ==> m.insert(kv, v).dom().len() == m.dom().len(),
        m.contains_key(kv) ==> m.remove(kv).dom().len() == m.dom().len() - 1,
        !m.contains_key(kv) ==> m.remove(kv).dom().len() == m.dom().len(),
{
    assert(m.insert(kv, v).dom() =~= m.dom().insert(kv));
    assert(m.remove(kv).dom() =~= m.dom().remove(kv));
    if m.contains_key(kv) {
        assert(m.dom().insert(kv) =~= m.dom());
    } else {
        assert(m.dom().remove(kv) =~= m.dom());
    }
}

/// Round trip: after `insert(k, v)` the key is present — `contains_key`
/// holds — and `get` yields exactly `v`.
pub proof fn lemma_insert_round_trip<K: HashKey, V>(m: Map<K::V, V>, kv: K::V, v: V)
    ensures
        m.insert(kv, v).contains_key(kv),
        m.insert(kv, v)[kv] == v,
{
}

/// Overwrite: inserting the same key twice is the same as inserting the
/// final value once — the second value wins and the length is unchanged by
/// the second insert. `insert`'s own result clause hands the first value
/// back at that second call.
pub proof fn lemma_insert_overwrite<K: HashKey, V>(m: Map<K::V, V>, kv: K::V, v1: V, v2: V)
    requires
        m.dom().finite(),
    ensures
        m.insert(kv, v1).insert(kv, v2) == m.insert(kv, v2),
        m.insert(kv, v1).insert(kv, v2)[kv] == v2,
        m.insert(kv, v1).insert(kv, v2).dom().len() == m.insert(kv, v1).dom().len(),
{
    assert(m.insert(kv, v1).insert(kv, v2) =~= m.insert(kv, v2));
    assert(m.insert(kv, v1).insert(kv, v2).dom() =~= m.insert(kv, v1).dom());
}

/// Absence: a key never inserted is absent — the empty map lacks every key,
/// and neither inserting nor removing a different key makes it present. By
/// the contracts of `get`, `remove` and `contains_key`, an absent key makes
/// all three return absence, on empty and non-empty maps alike.
pub proof fn lemma_absent_key<K: HashKey, V>(m: Map<K::V, V>, kv: K::V, other: K::V, v: V)
    requires
        kv != other,
    ensures
        !Map::<K::V, V>::empty().contains_key(kv),
        m.insert(other, v).contains_key(kv) == m.contains_key(kv),
        m.remove(other).contains_key(kv) == m.contains_key(kv),
{
}

/// No entry is lost or duplicated by an insertion, whatever rehash it
/// triggers internally: every other key keeps its presence and its value.
/// `insert` promises its whole result as `Map::insert`, so this holds in
/// particular of the insert that crosses the grow threshold.
pub proof fn lemma_insert_preserves_others<K: HashKey, V>(
    m: Map<K::V, V>,
    kv: K::V,
    v: V,
    other: K::V,
)
    requires
        other != kv,
    ensures
        m.insert(kv, v).contains_key(other) == m.contains_key(other),
        m.contains_key(other) ==> m.insert(kv, v)[other] == m[other],
{
}

} // verus!
