//! A hash map built from first principles: open hashing with separate
//! chaining, a dynamically resized bucket array, and owning as well as
//! borrowing iteration.
//!
//! The map owns a sequence of buckets; each bucket is a short sequence of
//! `(key, value)` entries sharing the same hash-routed index. Every entry
//! lives in the bucket its key hashes to, keys are unique, and the entry
//! count is tracked exactly — these invariants are captured by `wf` and
//! proved across every operation. The abstract value of a map is a
//! `Map<K::V, V>` from abstract key values to values.

use vstd::prelude::*;

pub mod key;
pub mod iter;
pub mod index;
pub mod laws;

use crate::key::HashKey;

verus! {

/// The number of buckets a map is first sized to when storage is created.
pub const DEFAULT_BUCKET_LEN: usize = 4;

pub struct HashMap<K, V> {
    pub(crate) storage: Vec<Vec<(K, V)>>,
    /// Number of live entries across all buckets.
    pub(crate) count: usize,
}

/// The bucket that a key with abstract value `kv` is routed to, out of `n`
/// buckets: its hash, reduced modulo the bucket count.
pub open spec fn bucket_index_of<K: HashKey>(kv: K::V, n: int) -> int {
    K::key_hash(kv) as int % n
}

/// Whether some entry of bucket `b` holds a key with abstract value `kv`.
pub open spec fn bucket_has_key<K: HashKey, V>(b: Seq<(K, V)>, kv: K::V) -> bool {
    exists|j: int| 0 <= j < b.len() && b[j].0@ == kv
}

/// The value stored beside the key with abstract value `kv` in bucket `b`.
pub open spec fn bucket_value<K: HashKey, V>(b: Seq<(K, V)>, kv: K::V) -> V {
    b[choose|j: int| 0 <= j < b.len() && b[j].0@ == kv].1
}

/// No two entries of bucket `b` hold keys with the same abstract value.
pub open spec fn bucket_distinct<K: HashKey, V>(b: Seq<(K, V)>) -> bool {
    forall|j1: int, j2: int| 0 <= j1 < j2 < b.len() ==> (#[trigger] b[j1]).0@ != (#[trigger] b[j2]).0@
}

/// Every entry sits in the bucket its key is routed to.
pub open spec fn slots_routed<K: HashKey, V>(s: Seq<Seq<(K, V)>>) -> bool {
    forall|i: int, j: int| 0 <= i < s.len() && 0 <= j < s[i].len() ==>
        bucket_index_of::<K>((#[trigger] s[i][j]).0@, s.len() as int) == i
}

/// Every bucket is free of duplicate keys.
pub open spec fn slots_distinct<K: HashKey, V>(s: Seq<Seq<(K, V)>>) -> bool {
    forall|i: int| 0 <= i < s.len() ==> bucket_distinct(#[trigger] s[i])
}

/// The association that a bucket array stores: a key's abstract value maps to
/// the value beside it in the bucket the key is routed to.
pub open spec fn slots_map<K: HashKey, V>(s: Seq<Seq<(K, V)>>) -> Map<K::V, V> {
    Map::new(
        |kv: K::V| s.len() > 0 && bucket_has_key(s[bucket_index_of::<K>(kv, s.len() as int)], kv),
        |kv: K::V| bucket_value(s[bucket_index_of::<K>(kv, s.len() as int)], kv),
    )
}

/// The bucket array a `Vec` of bucket `Vec`s stores, with each bucket as a
/// sequence of entries.
pub open(crate) spec fn views_of<K, V>(s: Seq<Vec<(K, V)>>) -> Seq<Seq<(K, V)>> {
    s.map_values(|b: Vec<(K, V)>| b@)
}

impl<K: HashKey, V> HashMap<K, V> {
    /// The bucket array, with each bucket as a sequence of entries.
    pub open(crate) spec fn slots(&self) -> Seq<Seq<(K, V)>> {
        views_of(self.storage@)
    }

    /// The current number of buckets.
    pub closed spec fn bucket_count(&self) -> nat {
        self.storage@.len()
    }

    /// Structural soundness: entries are routed and duplicate-free, the entry
    /// count matches the abstract map, and the bucket array keeps enough
    /// headroom that growing it cannot overflow a `usize`.
    pub closed spec fn wf(&self) -> bool {
        &&& slots_routed(self.slots())
        &&& slots_distinct(self.slots())
        &&& (self.storage@.len() == 0 ==> self.count == 0)
        &&& self@.dom().finite()
        &&& self.count as nat == self@.dom().len()
        &&& self.count <= usize::MAX / 8
        &&& self.storage@.len() <= usize::MAX / 2
    }

    /// Constructs the empty map: no buckets, no entries.
    pub fn new() -> (m: Self)
        ensures
            m.wf(),
            m@ == Map::<K::V, V>::empty(),
            m.bucket_count() == 0,
    {
        let m = HashMap { storage: Vec::new(), count: 0 };
        proof {
            assert(m.slots() =~= Seq::<Seq<(K, V)>>::empty());
            assert(m@ =~= Map::<K::V, V>::empty());
            assert(m@.dom() =~= Set::<K::V>::empty());
        }
        m
    }

    /// The bucket index the key is routed to, or `None` while the map has
    /// never been sized. A returned index is only valid until the next
    /// resize.
    pub fn get_ht(&self, k: &K) -> (r: Option<usize>)
        ensures
            r == (if self.bucket_count() == 0 {
                None
            } else {
                Some(bucket_index_of::<K>(k@, self.bucket_count() as int) as usize)
            }),
            r matches Some(i) ==> (i as nat) < self.bucket_count(),
    {
        if self.storage.is_empty() {
            return None;
        }
        let h = k.hash_key();
        let idx = (h % self.storage.len() as u64) as usize;
        Some(idx)
    }
}

/// In a duplicate-free bucket, an entry holding `kv` pins the bucket's
/// stored value for `kv` down to that entry's value.
pub(crate) proof fn lemma_bucket_value_at<K: HashKey, V>(b: Seq<(K, V)>, kv: K::V, j: int)
    requires
        bucket_distinct(b),
        0 <= j < b.len(),
        b[j].0@ == kv,
    ensures
        bucket_has_key(b, kv),
        bucket_value(b, kv) == b[j].1,
{
    assert(bucket_has_key(b, kv));
    let j0 = choose|j0: int| 0 <= j0 < b.len() && b[j0].0@ == kv;
    if j0 != j {
        assert(b[j0].0@ != b[j].0@);
        assert(false);
    }
}

impl<K: HashKey, V> HashMap<K, V> {
    /// Looks the key up: the stored value if the key is present, absence if
    /// not. Routes to one bucket and scans it by key equality; no resize
    /// check, no side effect.
    pub fn get(&self, k: &K) -> (r: Option<&V>)
        requires
            self.wf(),
        ensures
            match r {
                Some(v) => self@.contains_key(k@) && *v == self@[k@],
                None => !self@.contains_key(k@),
            },
    {
        if self.storage.is_empty() {
            return None;
        }
        let h = k.hash_key();
        let idx = (h % self.storage.len() as u64) as usize;
        let ghost b = self.slots()[idx as int];
        proof {
            assert(self.slots().len() == self.storage@.len());
            assert(idx as int == bucket_index_of::<K>(k@, self.slots().len() as int));
            assert(bucket_distinct(b));
        }
        let bucket = &self.storage[idx];
        let mut j: usize = 0;
        while j < bucket.len()
            invariant
                self.wf(),
                0 <= idx < self.slots().len(),
                idx as int == bucket_index_of::<K>(k@, self.slots().len() as int),
                b == self.slots()[idx as int],
                bucket_distinct(b),
                bucket@ == b,
                j <= bucket.len(),
                forall|t: int| 0 <= t < j ==> (#[trigger] b[t]).0@ != k@,
            decreases bucket.len() - j,
        {
            if bucket[j].0.eq_key(k) {
                proof {
                    lemma_bucket_value_at(b, k@, j as int);
                }
                return Some(&bucket[j].1);
            }
            j += 1;
        }
        proof {
            assert(!bucket_has_key(b, k@));
        }
        None
    }

    /// Whether the key is present: exactly `get(k).is_some()`.
    pub fn contains_key(&self, k: &K) -> (r: bool)
        requires
            self.wf(),
        ensures
            r == self@.contains_key(k@),
    {
        self.get(k).is_some()
    }

    /// The number of live entries, in constant time.
    pub fn len(&self) -> (n: usize)
        requires
            self.wf(),
        ensures
            n as nat == self@.dom().len(),
    {
        self.count
    }

    /// A well-formed map stores finitely many entries; callers may rely on
    /// this when applying the laws stated over the abstract map.
    pub proof fn lemma_dom_finite(&self)
        requires
            self.wf(),
        ensures
            self@.dom().finite(),
    {
    }
}

/// Appending an entry with a fresh key to a duplicate-free bucket keeps it
/// duplicate-free, stores that key's value, and disturbs no other key.
pub(crate) proof fn lemma_bucket_push<K: HashKey, V>(b: Seq<(K, V)>, e: (K, V))
    requires
        bucket_distinct(b),
        !bucket_has_key(b, e.0@),
    ensures
        bucket_distinct(b.push(e)),
        bucket_has_key(b.push(e), e.0@),
        bucket_value(b.push(e), e.0@) == e.1,
        forall|kv: K::V| kv != e.0@ ==> bucket_has_key(b.push(e), kv) == bucket_has_key(b, kv),
        forall|kv: K::V| kv != e.0@ && bucket_has_key(b, kv) ==> bucket_value(b.push(e), kv)
            == bucket_value(b, kv),
{
    let b2 = b.push(e);
    assert forall|j1: int, j2: int| 0 <= j1 < j2 < b2.len() implies (b2[j1]).0@ != (b2[j2]).0@ by {
        if j2 == b.len() as int {
            if b[j1].0@ == e.0@ {
                assert(bucket_has_key(b, e.0@));
            }
        } else {
            assert(b2[j1] == b[j1] && b2[j2] == b[j2]);
        }
    }
    lemma_bucket_value_at(b2, e.0@, b.len() as int);
    assert forall|kv: K::V| kv != e.0@ implies bucket_has_key(b2, kv) == bucket_has_key(b, kv) by {
        if bucket_has_key(b, kv) {
            let j = choose|j: int| 0 <= j < b.len() && b[j].0@ == kv;
            assert(b2[j] == b[j]);
            assert(bucket_has_key(b2, kv));
        }
        if bucket_has_key(b2, kv) {
            let j = choose|j: int| 0 <= j < b2.len() && b2[j].0@ == kv;
            assert(j < b.len());
            assert(b[j] == b2[j]);
            assert(bucket_has_key(b, kv));
        }
    }
    assert forall|kv: K::V| kv != e.0@ && bucket_has_key(b, kv) implies bucket_value(b2, kv)
        == bucket_value(b, kv) by {
        let j = choose|j: int| 0 <= j < b.len() && b[j].0@ == kv;
        lemma_bucket_value_at(b, kv, j);
        assert(b2[j] == b[j]);
        lemma_bucket_value_at(b2, kv, j);
    }
}

/// Swap-removal — overwriting an entry with the bucket's last entry, then
/// shortening by one — deletes exactly that entry's key and no other.
pub(crate) proof fn lemma_bucket_swap_remove<K: HashKey, V>(b: Seq<(K, V)>, j: int)
    requires
        bucket_distinct(b),
        0 <= j < b.len(),
    ensures
        bucket_distinct(b.update(j, b.last()).drop_last()),
        !bucket_has_key(b.update(j, b.last()).drop_last(), b[j].0@),
        forall|kv: K::V| kv != b[j].0@ ==> bucket_has_key(b.update(j, b.last()).drop_last(), kv)
            == bucket_has_key(b, kv),
        forall|kv: K::V| kv != b[j].0@ && bucket_has_key(b, kv) ==> bucket_value(
            b.update(j, b.last()).drop_last(),
            kv,
        ) == bucket_value(b, kv),
{
    let b2 = b.update(j, b.last()).drop_last();
    let kv0 = b[j].0@;
    assert(b2.len() == b.len() - 1);
    assert(forall|t: int| 0 <= t < b2.len() ==> #[trigger] b2[t] == (if t == j {
        b.last()
    } else {
        b[t]
    }));
    assert forall|j1: int, j2: int| 0 <= j1 < j2 < b2.len() implies (b2[j1]).0@ != (b2[j2]).0@ by {
        let t1: int = if j1 == j { b.len() - 1 } else { j1 };
        let t2: int = if j2 == j { b.len() - 1 } else { j2 };
        assert(b2[j1] == b[t1] && b2[j2] == b[t2]);
        assert(t1 != t2);
    }
    assert forall|t: int| 0 <= t < b2.len() implies b2[t].0@ != kv0 by {
        let t0: int = if t == j { b.len() - 1 } else { t };
        assert(b2[t] == b[t0]);
        if t0 != j {
            assert(b[t0].0@ != b[j].0@);
        }
    }
    assert forall|kv: K::V| kv != kv0 implies bucket_has_key(b2, kv) == bucket_has_key(b, kv) by {
        if bucket_has_key(b, kv) {
            let t = choose|t: int| 0 <= t < b.len() && b[t].0@ == kv;
            if t == b.len() - 1 {
                if j < b.len() - 1 {
                    assert(b2[j] == b.last());
                    assert(bucket_has_key(b2, kv));
                } else {
                    // j is the last index, so its key is kv0, not kv
                    assert(b[t].0@ == kv0);
                }
            } else if t == j {
                assert(b[t].0@ == kv0);
            } else {
                assert(b2[t] == b[t]);
                assert(bucket_has_key(b2, kv));
            }
        }
        if bucket_has_key(b2, kv) {
            let t = choose|t: int| 0 <= t < b2.len() && b2[t].0@ == kv;
            let t0: int = if t == j { b.len() - 1 } else { t };
            assert(b2[t] == b[t0]);
            assert(bucket_has_key(b, kv));
        }
    }
    assert forall|kv: K::V| kv != kv0 && bucket_has_key(b, kv) implies bucket_value(b2, kv)
        == bucket_value(b, kv) by {
        assert(bucket_has_key(b2, kv));
        let t = choose|t: int| 0 <= t < b2.len() && b2[t].0@ == kv;
        let t0: int = if t == j { b.len() - 1 } else { t };
        assert(b2[t] == b[t0]);
        lemma_bucket_value_at(b2, kv, t);
        lemma_bucket_value_at(b, kv, t0);
    }
}

/// A single-bucket edit, seen at the level of the whole bucket array: if the
/// replacement bucket agrees with the old one on every key but `kv0`, the
/// stored association changes by exactly an insertion or a removal of `kv0`.
pub(crate) proof fn lemma_slots_edit<K: HashKey, V>(
    s: Seq<Seq<(K, V)>>,
    i: int,
    b2: Seq<(K, V)>,
    kv0: K::V,
    res: Option<V>,
)
    requires
        slots_routed(s),
        slots_distinct(s),
        s.len() > 0,
        0 <= i < s.len(),
        i == bucket_index_of::<K>(kv0, s.len() as int),
        bucket_distinct(b2),
        forall|j: int| 0 <= j < b2.len() ==> bucket_index_of::<K>(
            (#[trigger] b2[j]).0@,
            s.len() as int,
        ) == i,
        forall|kv: K::V| kv != kv0 ==> bucket_has_key(b2, kv) == bucket_has_key(s[i], kv),
        forall|kv: K::V| kv != kv0 && bucket_has_key(s[i], kv) ==> bucket_value(b2, kv)
            == bucket_value(s[i], kv),
        match res {
            Some(v0) => bucket_has_key(b2, kv0) && bucket_value(b2, kv0) == v0,
            None => !bucket_has_key(b2, kv0),
        },
    ensures
        slots_routed(s.update(i, b2)),
        slots_distinct(s.update(i, b2)),
        slots_map(s.update(i, b2)) == match res {
            Some(v0) => slots_map(s).insert(kv0, v0),
            None => slots_map(s).remove(kv0),
        },
{
    let s2 = s.update(i, b2);
    assert(s2.len() == s.len());
    assert forall|i2: int, j: int| 0 <= i2 < s2.len() && 0 <= j < s2[i2].len() implies
        bucket_index_of::<K>((s2[i2][j]).0@, s2.len() as int) == i2 by {
        if i2 != i {
            assert(s2[i2] == s[i2]);
        }
    }
    assert forall|i2: int| 0 <= i2 < s2.len() implies bucket_distinct(s2[i2]) by {
        if i2 != i {
            assert(s2[i2] == s[i2]);
        }
    }
    let m2 = slots_map(s2);
    assert forall|kv: K::V| kv != kv0 implies #[trigger] m2.contains_key(kv) == slots_map(
        s,
    ).contains_key(kv) by {
        let r = bucket_index_of::<K>(kv, s.len() as int);
        if r != i {
            assert(s2[r] == s[r]);
        }
    }
    assert forall|kv: K::V| kv != kv0 && slots_map(s).contains_key(kv) implies #[trigger] m2[kv]
        == slots_map(s)[kv] by {
        let r = bucket_index_of::<K>(kv, s.len() as int);
        if r != i {
            assert(s2[r] == s[r]);
        }
    }
    match res {
        Some(v0) => {
            assert(m2 =~= slots_map(s).insert(kv0, v0));
        }
        None => {
            assert(m2 =~= slots_map(s).remove(kv0));
        }
    }
}

/// Whether `count` live entries trigger growth of an array of `n` buckets:
/// the load has reached three quarters of the bucket count.
pub open spec fn grow_trigger(count: int, n: int) -> bool {
    count >= 3 * n / 4
}

/// The bucket count after growth from `n` buckets: doubled, but never less
/// than the default minimum.
pub open spec fn grown_bucket_len(n: int) -> int {
    if 2 * n > DEFAULT_BUCKET_LEN as int {
        2 * n
    } else {
        DEFAULT_BUCKET_LEN as int
    }
}

impl<K: HashKey, V> HashMap<K, V> {
    /// Grows the bucket array and rehashes every entry into it when the load
    /// factor has reached the grow threshold; the shrink branch is a
    /// deliberate no-op. The stored association is exactly preserved.
    fn resize(&mut self)
        requires
            old(self).wf(),
        ensures
            final(self).wf(),
            final(self)@ == old(self)@,
            final(self).count == old(self).count,
            final(self).storage@.len() > 0,
            final(self).storage@.len() as int == (if grow_trigger(
                old(self).count as int,
                old(self).storage@.len() as int,
            ) {
                grown_bucket_len(old(self).storage@.len() as int)
            } else {
                old(self).storage@.len() as int
            }),
    {
        let n = self.storage.len();
        let grow = (self.count as u128) >= 3u128 * (n as u128) / 4u128;
        proof {
            assert(grow == grow_trigger(self.count as int, n as int));
        }
        if grow {
            proof {
                // The load reached 3/4 of the bucket count and the entry
                // count is far below usize::MAX, so the doubled bucket count
                // still fits comfortably.
                assert(3 * (n as int) / 4 <= self.count as int);
                assert(3 * (n as int) <= 4 * (3 * (n as int) / 4) + 3) by (nonlinear_arith);
                assert(2 * (n as int) <= usize::MAX / 2);
            }
            let new_len = if n * 2 > DEFAULT_BUCKET_LEN {
                n * 2
            } else {
                DEFAULT_BUCKET_LEN
            };
            let mut new_storage: Vec<Vec<(K, V)>> = Vec::new();
            while new_storage.len() < new_len
                invariant
                    new_storage@.len() <= new_len,
                    forall|t: int| 0 <= t < new_storage@.len() ==> (#[trigger] new_storage@[t])@
                        =~= Seq::<(K, V)>::empty(),
                decreases new_len - new_storage@.len(),
            {
                new_storage.push(Vec::new());
            }
            let ghost s0 = self.slots();
            let ghost n1 = new_len as int;
            let mut i: usize = 0;
            while i < n
                invariant
                    n == s0.len(),
                    self.storage@.len() == s0.len(),
                    i <= s0.len(),
                    slots_routed(self.slots()),
                    slots_distinct(self.slots()),
                    forall|t: int| 0 <= t < i ==> (#[trigger] self.slots()[t]).len() == 0,
                    forall|t: int| i <= t < s0.len() ==> #[trigger] self.slots()[t] == s0[t],
                    new_storage@.len() == n1,
                    0 < n1 <= usize::MAX / 2,
                    new_len == n1,
                    slots_routed(views_of(new_storage@)),
                    slots_distinct(views_of(new_storage@)),
                    forall|kv: K::V| #[trigger] slots_map(s0).contains_key(kv) == (slots_map(
                        self.slots(),
                    ).contains_key(kv) || slots_map(
                        views_of(new_storage@),
                    ).contains_key(kv)),
                    forall|kv: K::V| #[trigger] slots_map(self.slots()).contains_key(kv) ==> (
                    !slots_map(views_of(new_storage@)).contains_key(kv)
                        && slots_map(self.slots())[kv] == slots_map(s0)[kv]),
                    forall|kv: K::V| #[trigger] slots_map(
                        views_of(new_storage@),
                    ).contains_key(kv) ==> slots_map(
                        views_of(new_storage@),
                    )[kv] == slots_map(s0)[kv],
                    self.count == old(self).count,
                decreases s0.len() - i,
            {
                let mut bucket: Vec<(K, V)> = Vec::new();
                let ghost slots_at_start = self.slots();
                self.storage.set_and_swap(i, &mut bucket);
                proof {
                    assert(self.slots() =~= slots_at_start.update(i as int, Seq::empty()));
                    assert(self.slots().update(i as int, bucket@) =~= slots_at_start);
                }
                while bucket.len() > 0
                    invariant
                        n == s0.len(),
                        self.storage@.len() == s0.len(),
                        0 <= i < s0.len(),
                        forall|t: int| 0 <= t <= i ==> (#[trigger] self.slots()[t]).len() == 0,
                        forall|t: int| i < t < s0.len() ==> #[trigger] self.slots()[t] == s0[t],
                        slots_routed(self.slots().update(i as int, bucket@)),
                        slots_distinct(self.slots().update(i as int, bucket@)),
                        new_storage@.len() == n1,
                        0 < n1 <= usize::MAX / 2,
                        new_len == n1,
                        slots_routed(views_of(new_storage@)),
                        slots_distinct(views_of(new_storage@)),
                        forall|kv: K::V| #[trigger] slots_map(s0).contains_key(kv) == (slots_map(
                            self.slots().update(i as int, bucket@),
                        ).contains_key(kv) || slots_map(
                            views_of(new_storage@),
                        ).contains_key(kv)),
                        forall|kv: K::V| #[trigger] slots_map(
                            self.slots().update(i as int, bucket@),
                        ).contains_key(kv) ==> (!slots_map(
                            views_of(new_storage@),
                        ).contains_key(kv) && slots_map(self.slots().update(i as int, bucket@))[kv]
                            == slots_map(s0)[kv]),
                        forall|kv: K::V| #[trigger] slots_map(
                            views_of(new_storage@),
                        ).contains_key(kv) ==> slots_map(
                            views_of(new_storage@),
                        )[kv] == slots_map(s0)[kv],
                        self.count == old(self).count,
                    decreases bucket@.len(),
                {
                    let ghost cur_prev = self.slots().update(i as int, bucket@);
                    let ghost ns_prev = views_of(new_storage@);
                    let e = bucket.pop().unwrap();
                    let ghost eg = e;
                    let h = e.0.hash_key();
                    let t = (h % (new_len as u64)) as usize;
                    proof {
                        let bi = cur_prev[i as int];
                        assert(bi.len() > 0);
                        let last_j = bi.len() - 1;
                        assert(eg == bi[last_j]);
                        assert(bucket_distinct(bi));
                        lemma_bucket_value_at(bi, eg.0@, last_j);
                        assert(slots_map(cur_prev).contains_key(eg.0@));
                        assert(slots_map(cur_prev)[eg.0@] == eg.1);
                        assert(t as int == bucket_index_of::<K>(eg.0@, n1));
                        assert(!slots_map(ns_prev).contains_key(eg.0@));
                        assert(!bucket_has_key(ns_prev[t as int], eg.0@));
                    }
                    let mut nb: Vec<(K, V)> = Vec::new();
                    new_storage.set_and_swap(t, &mut nb);
                    nb.push(e);
                    new_storage.set_and_swap(t, &mut nb);
                    proof {
                        let bi = cur_prev[i as int];
                        let last_j = bi.len() - 1;
                        let cur2 = self.slots().update(i as int, bucket@);
                        let ns2 = views_of(new_storage@);
                        // The drained side lost exactly eg's key.
                        assert(bi.update(last_j, bi.last()).drop_last() =~= bucket@);
                        lemma_bucket_swap_remove(bi, last_j);
                        lemma_slots_edit(cur_prev, i as int, bucket@, eg.0@, None::<V>);
                        assert(cur2 =~= cur_prev.update(i as int, bucket@));
                        assert(slots_map(cur2) == slots_map(cur_prev).remove(eg.0@));
                        // The new side gained exactly eg's key, with eg's value.
                        lemma_bucket_push(ns_prev[t as int], eg);
                        lemma_slots_edit(
                            ns_prev,
                            t as int,
                            ns_prev[t as int].push(eg),
                            eg.0@,
                            Some(eg.1),
                        );
                        assert(ns2 =~= ns_prev.update(t as int, ns_prev[t as int].push(eg)));
                        assert(slots_map(ns2) == slots_map(ns_prev).insert(eg.0@, eg.1));
                        // Re-establish the split of the association being rehashed.
                        assert forall|kv: K::V| #[trigger] slots_map(s0).contains_key(kv) == (
                        slots_map(cur2).contains_key(kv) || slots_map(ns2).contains_key(kv)) by {
                            assert(slots_map(cur_prev).contains_key(kv) || true);
                        }
                    }
                }
                proof {
                    assert(bucket@ =~= self.slots()[i as int]);
                    assert(self.slots().update(i as int, bucket@) =~= self.slots());
                }
                i += 1;
            }
            let ghost drained = self.slots();
            self.storage = new_storage;
            proof {
                let ns = self.slots();
                assert forall|kv: K::V| !(#[trigger] slots_map(drained).contains_key(kv)) by {
                    if slots_map(drained).contains_key(kv) {
                        let r = bucket_index_of::<K>(kv, drained.len() as int);
                        assert(drained[r].len() == 0);
                    }
                }
                assert forall|kv: K::V| #[trigger] slots_map(ns).contains_key(kv) == slots_map(
                    s0,
                ).contains_key(kv) && (slots_map(ns).contains_key(kv) ==> slots_map(ns)[kv]
                    == slots_map(s0)[kv]) by {
                    assert(slots_map(s0).contains_key(kv) == (slots_map(drained).contains_key(kv)
                        || slots_map(ns).contains_key(kv)));
                }
                assert(self@ =~= old(self)@);
                assert(self@.dom() =~= old(self)@.dom());
            }
        } else {
            // Shrink check: deliberately deferred, the bucket array is kept.
            assert(self.storage@.len() > 0);
        }
    }
}

impl<K: HashKey, V> HashMap<K, V> {
    /// Inserts the pair, after first giving the resize policy its chance to
    /// grow the bucket array. An already-present key has its value replaced
    /// and the old value handed back; a fresh key is appended to its bucket.
    /// The entry count stays clear of `usize::MAX / 8`, a machine limit far
    /// beyond what an address space can hold.
    pub fn insert(&mut self, k: K, v: V) -> (r: Option<V>)
        requires
            old(self).wf(),
            old(self)@.dom().len() < usize::MAX as nat / 8,
        ensures
            final(self).wf(),
            final(self)@ == old(self)@.insert(k@, v),
            r == (if old(self)@.contains_key(k@) {
                Some(old(self)@[k@])
            } else {
                None::<V>
            }),
            final(self).bucket_count() as int == (if grow_trigger(
                old(self)@.dom().len() as int,
                old(self).bucket_count() as int,
            ) {
                grown_bucket_len(old(self).bucket_count() as int)
            } else {
                old(self).bucket_count() as int
            }),
    {
        self.resize();
        let ghost mid = *self;
        let h = k.hash_key();
        let idx = (h % self.storage.len() as u64) as usize;
        let ghost s = self.slots();
        let ghost b = s[idx as int];
        proof {
            assert(s.len() == self.storage@.len());
            assert(idx as int == bucket_index_of::<K>(k@, s.len() as int));
            assert(bucket_distinct(b));
        }
        let mut found: Option<usize> = None;
        {
            let bucket_ref = &self.storage[idx];
            let mut j: usize = 0;
            while j < bucket_ref.len()
                invariant
                    j <= b.len(),
                    bucket_ref@ == b,
                    bucket_distinct(b),
                    match found {
                        Some(jj) => jj < j && b[jj as int].0@ == k@,
                        None => forall|t: int| 0 <= t < j ==> (#[trigger] b[t]).0@ != k@,
                    },
                decreases bucket_ref.len() - j,
            {
                if found.is_none() && bucket_ref[j].0.eq_key(&k) {
                    found = Some(j);
                }
                j += 1;
            }
        }
        match found {
            Some(jj) => {
                let mut bucket: Vec<(K, V)> = Vec::new();
                self.storage.set_and_swap(idx, &mut bucket);
                let pair = bucket.swap_remove(jj);
                let ghost b2 = b.update(jj as int, b.last()).drop_last();
                let newe = (pair.0, v);
                let ghost ge = newe;
                bucket.push(newe);
                self.storage.set_and_swap(idx, &mut bucket);
                proof {
                    lemma_bucket_value_at(b, k@, jj as int);
                    lemma_bucket_swap_remove(b, jj as int);
                    lemma_bucket_push(b2, ge);
                    let b3 = b2.push(ge);
                    lemma_slots_edit(s, idx as int, b3, k@, Some(v));
                    assert(self.slots() =~= s.update(idx as int, b3));
                    assert(self@ == mid@.insert(k@, v));
                    assert(self@.dom() =~= mid@.dom());
                    assert(self@ == old(self)@.insert(k@, v));
                }
                Some(pair.1)
            }
            None => {
                proof {
                    assert(!bucket_has_key(b, k@));
                    assert(!mid@.contains_key(k@));
                }
                let mut bucket: Vec<(K, V)> = Vec::new();
                self.storage.set_and_swap(idx, &mut bucket);
                let newe = (k, v);
                let ghost ge = newe;
                bucket.push(newe);
                self.storage.set_and_swap(idx, &mut bucket);
                self.count = self.count + 1;
                proof {
                    lemma_bucket_push(b, ge);
                    lemma_slots_edit(s, idx as int, b.push(ge), ge.0@, Some(v));
                    assert(self.slots() =~= s.update(idx as int, b.push(ge)));
                    assert(self@ == mid@.insert(ge.0@, v));
                    assert(self@.dom() =~= mid@.dom().insert(ge.0@));
                    assert(self@.dom().len() == mid@.dom().len() + 1);
                    assert(self@ == old(self)@.insert(ge.0@, v));
                }
                None
            }
        }
    }

    /// Removes the key's entry by swapping the bucket's last entry into its
    /// slot, then gives the resize policy its (currently inert) shrink
    /// check. An absent key leaves the map unchanged, storage included.
    pub fn remove(&mut self, k: &K) -> (r: Option<V>)
        requires
            old(self).wf(),
        ensures
            final(self).wf(),
            final(self)@ == old(self)@.remove(k@),
            r == (if old(self)@.contains_key(k@) {
                Some(old(self)@[k@])
            } else {
                None::<V>
            }),
            r is None ==> *final(self) == *old(self),
    {
        if self.storage.is_empty() {
            proof {
                assert(self@.remove(k@) =~= self@);
            }
            return None;
        }
        let h = k.hash_key();
        let idx = (h % self.storage.len() as u64) as usize;
        let ghost s = self.slots();
        let ghost b = s[idx as int];
        proof {
            assert(s.len() == self.storage@.len());
            assert(idx as int == bucket_index_of::<K>(k@, s.len() as int));
            assert(bucket_distinct(b));
        }
        let mut found: Option<usize> = None;
        {
            let bucket_ref = &self.storage[idx];
            let mut j: usize = 0;
            while j < bucket_ref.len()
                invariant
                    j <= b.len(),
                    bucket_ref@ == b,
                    bucket_distinct(b),
                    match found {
                        Some(jj) => jj < j && b[jj as int].0@ == k@,
                        None => forall|t: int| 0 <= t < j ==> (#[trigger] b[t]).0@ != k@,
                    },
                decreases bucket_ref.len() - j,
            {
                if found.is_none() && bucket_ref[j].0.eq_key(k) {
                    found = Some(j);
                }
                j += 1;
            }
        }
        match found {
            Some(jj) => {
                proof {
                    lemma_bucket_value_at(b, k@, jj as int);
                    assert(self@.contains_key(k@));
                    assert(self@.dom().remove(k@).len() == self@.dom().len() - 1);
                }
                let ghost mid = *self;
                self.count = self.count - 1;
                let mut bucket: Vec<(K, V)> = Vec::new();
                self.storage.set_and_swap(idx, &mut bucket);
                let pair = bucket.swap_remove(jj);
                self.storage.set_and_swap(idx, &mut bucket);
                proof {
                    let b2 = b.update(jj as int, b.last()).drop_last();
                    lemma_bucket_swap_remove(b, jj as int);
                    lemma_slots_edit(s, idx as int, b2, k@, None::<V>);
                    assert(self.slots() =~= s.update(idx as int, b2));
                    assert(self@ == mid@.remove(k@));
                    assert(self@.dom() =~= mid@.dom().remove(k@));
                }
                self.resize();
                Some(pair.1)
            }
            None => {
                proof {
                    assert(!bucket_has_key(b, k@));
                    assert(!self@.contains_key(k@));
                    assert(self@.remove(k@) =~= self@);
                }
                None
            }
        }
    }
}

impl<K: HashKey, V> View for HashMap<K, V> {
    type V = Map<K::V, V>;

    closed spec fn view(&self) -> Map<K::V, V> {
        slots_map(self.slots())
    }
}

} // verus!


