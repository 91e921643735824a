//! Iteration over the map: borrowing iteration, which yields references and
//! leaves the map untouched, and consuming iteration, which drains the
//! buckets as it advances. Both walk the buckets in storage order and are
//! proved to yield exactly the live entries, each key once.

use vstd::prelude::*;

use crate::key::HashKey;
use crate::{bucket_index_of, lemma_bucket_value_at, slots_map};
use crate::{slots_distinct, slots_routed, HashMap};

verus! {

/// The order a bucket is drained in by repeated popping: back to front.
pub open spec fn pop_order<K, V>(b: Seq<(K, V)>) -> Seq<(K, V)>
    decreases b.len(),
{
    if b.len() == 0 {
        Seq::empty()
    } else {
        seq![b.last()] + pop_order(b.drop_last())
    }
}

/// What consuming iteration, standing at bucket `i`, still has to yield:
/// every bucket from `i` on, each in pop order.
pub open spec fn drain_order<K, V>(s: Seq<Seq<(K, V)>>, i: int) -> Seq<(K, V)>
    decreases s.len() - i,
{
    if i < 0 || i >= s.len() {
        Seq::empty()
    } else {
        pop_order(s[i]) + drain_order(s, i + 1)
    }
}

/// What borrowing iteration, standing at bucket `i`, still has to yield:
/// every bucket from `i` on, each front to back.
pub open spec fn fwd_order<K, V>(s: Seq<Seq<(K, V)>>, i: int) -> Seq<(K, V)>
    decreases s.len() - i,
{
    if i < 0 || i >= s.len() {
        Seq::empty()
    } else {
        s[i] + fwd_order(s, i + 1)
    }
}

/// Entry sequences drawn from the buckets at `i` and beyond depend only on
/// those buckets.
pub(crate) proof fn lemma_drain_order_agree<K, V>(s1: Seq<Seq<(K, V)>>, s2: Seq<Seq<(K, V)>>, i: int)
    requires
        s1.len() == s2.len(),
        forall|t: int| i <= t < s1.len() ==> s1[t] == s2[t],
        0 <= i <= s1.len(),
    ensures
        drain_order(s1, i) == drain_order(s2, i),
    decreases s1.len() - i,
{
    if i < s1.len() {
        lemma_drain_order_agree(s1, s2, i + 1);
    }
}

/// `es` lists live entries of the association `m`, no key twice: what a
/// complete iteration must consist of.
pub open spec fn entries_match<K: HashKey, V>(es: Seq<(K, V)>, m: Map<K::V, V>) -> bool {
    &&& forall|t: int|
        0 <= t < es.len() ==> m.contains_key((#[trigger] es[t]).0@) && m[es[t].0@] == es[t].1
    &&& forall|t1: int, t2: int|
        0 <= t1 < t2 < es.len() ==> (#[trigger] es[t1]).0@ != (#[trigger] es[t2]).0@
}

/// The entries of each bucket, popped back to front, are the bucket's
/// entries reversed.
pub(crate) proof fn lemma_pop_order_entries<K, V>(b: Seq<(K, V)>)
    ensures
        pop_order(b).len() == b.len(),
        forall|t: int| 0 <= t < b.len() ==> #[trigger] pop_order(b)[t] == b[b.len() - 1 - t],
    decreases b.len(),
{
    if b.len() > 0 {
        lemma_pop_order_entries(b.drop_last());
    }
}

/// Walking the buckets from `i` on in pop order yields only live entries of
/// the stored association, yields no key twice, and misses no key that is
/// routed to a bucket at `i` or beyond.
pub(crate) proof fn lemma_drain_props<K: HashKey, V>(s: Seq<Seq<(K, V)>>, i: int)
    requires
        slots_routed(s),
        slots_distinct(s),
        0 <= i <= s.len(),
    ensures
        entries_match(drain_order(s, i), slots_map(s)),
        forall|t: int|
            0 <= t < drain_order(s, i).len() ==> i <= bucket_index_of::<K>(
                (#[trigger] drain_order(s, i)[t]).0@,
                s.len() as int,
            ),
        forall|kv: K::V|
            #[trigger] slots_map(s).contains_key(kv) && i <= bucket_index_of::<K>(
                kv,
                s.len() as int,
            ) ==> exists|t: int|
                0 <= t < drain_order(s, i).len() && (#[trigger] drain_order(s, i)[t]).0@ == kv,
    decreases s.len() - i,
{
    if i == s.len() {
    } else {
        lemma_drain_props::<K, V>(s, i + 1);
        let b = s[i];
        let l = drain_order(s, i);
        lemma_pop_order_entries(b);
        assert(l.len() == b.len() + drain_order(s, i + 1).len());
        assert forall|t: int| 0 <= t < l.len() implies ({
            &&& slots_map(s).contains_key((#[trigger] l[t]).0@)
            &&& slots_map(s)[l[t].0@] == l[t].1
            &&& i <= bucket_index_of::<K>(l[t].0@, s.len() as int)
        }) by {
            if t < b.len() {
                let j: int = b.len() - 1 - t;
                assert(l[t] == s[i][j]);
                assert(bucket_index_of::<K>(s[i][j].0@, s.len() as int) == i);
                lemma_bucket_value_at(b, b[j].0@, j);
            } else {
                assert(l[t] == drain_order(s, i + 1)[t - b.len()]);
            }
        }
        assert forall|t1: int, t2: int| 0 <= t1 < t2 < l.len() implies (#[trigger] l[t1]).0@ != (
        #[trigger] l[t2]).0@ by {
            if t2 < b.len() {
                let j1: int = b.len() - 1 - t1;
                let j2: int = b.len() - 1 - t2;
                assert(l[t1] == s[i][j1] && l[t2] == s[i][j2]);
                assert(j1 != j2);
            } else if t1 < b.len() {
                // the earlier entry routes to bucket i, the later one beyond
                let j1: int = b.len() - 1 - t1;
                assert(l[t1] == s[i][j1]);
                assert(bucket_index_of::<K>(s[i][j1].0@, s.len() as int) == i);
                assert(l[t2] == drain_order(s, i + 1)[t2 - b.len()]);
            } else {
                assert(l[t1] == drain_order(s, i + 1)[t1 - b.len()]);
                assert(l[t2] == drain_order(s, i + 1)[t2 - b.len()]);
            }
        }
        assert forall|kv: K::V|
            #[trigger] slots_map(s).contains_key(kv) && i <= bucket_index_of::<K>(
                kv,
                s.len() as int,
            ) implies exists|t: int| 0 <= t < l.len() && (#[trigger] l[t]).0@ == kv by {
            let r = bucket_index_of::<K>(kv, s.len() as int);
            if r == i {
                let j = choose|j: int| 0 <= j < b.len() && b[j].0@ == kv;
                let t: int = b.len() - 1 - j;
                assert(l[t] == s[i][j]);
                assert(0 <= t < l.len() && l[t].0@ == kv);
            } else {
                let t = choose|t: int|
                    0 <= t < drain_order(s, i + 1).len() && (#[trigger] drain_order(s, i + 1)[t]).0@
                        == kv;
                assert(l[b.len() + t] == drain_order(s, i + 1)[t]);
                assert(0 <= b.len() + t < l.len() && l[b.len() + t].0@ == kv);
            }
        }
    }
}

/// Walking the buckets from `i` on in front-to-back order yields only live
/// entries of the stored association, yields no key twice, and misses no key
/// that is routed to a bucket at `i` or beyond.
pub(crate) proof fn lemma_fwd_props<K: HashKey, V>(s: Seq<Seq<(K, V)>>, i: int)
    requires
        slots_routed(s),
        slots_distinct(s),
        0 <= i <= s.len(),
    ensures
        entries_match(fwd_order(s, i), slots_map(s)),
        forall|t: int|
            0 <= t < fwd_order(s, i).len() ==> i <= bucket_index_of::<K>(
                (#[trigger] fwd_order(s, i)[t]).0@,
                s.len() as int,
            ),
        forall|kv: K::V|
            #[trigger] slots_map(s).contains_key(kv) && i <= bucket_index_of::<K>(
                kv,
                s.len() as int,
            ) ==> exists|t: int|
                0 <= t < fwd_order(s, i).len() && (#[trigger] fwd_order(s, i)[t]).0@ == kv,
    decreases s.len() - i,
{
    if i == s.len() {
    } else {
        lemma_fwd_props::<K, V>(s, i + 1);
        let b = s[i];
        let l = fwd_order(s, i);
        assert(l.len() == b.len() + fwd_order(s, i + 1).len());
        assert forall|t: int| 0 <= t < l.len() implies ({
            &&& slots_map(s).contains_key((#[trigger] l[t]).0@)
            &&& slots_map(s)[l[t].0@] == l[t].1
            &&& i <= bucket_index_of::<K>(l[t].0@, s.len() as int)
        }) by {
            if t < b.len() {
                assert(l[t] == s[i][t]);
                assert(bucket_index_of::<K>(s[i][t].0@, s.len() as int) == i);
                lemma_bucket_value_at(b, b[t].0@, t);
            } else {
                assert(l[t] == fwd_order(s, i + 1)[t - b.len()]);
            }
        }
        assert forall|t1: int, t2: int| 0 <= t1 < t2 < l.len() implies (#[trigger] l[t1]).0@ != (
        #[trigger] l[t2]).0@ by {
            if t2 < b.len() {
                assert(l[t1] == s[i][t1] && l[t2] == s[i][t2]);
            } else if t1 < b.len() {
                // the earlier entry routes to bucket i, the later one beyond
                assert(l[t1] == s[i][t1]);
                assert(bucket_index_of::<K>(s[i][t1].0@, s.len() as int) == i);
                assert(l[t2] == fwd_order(s, i + 1)[t2 - b.len()]);
            } else {
                assert(l[t1] == fwd_order(s, i + 1)[t1 - b.len()]);
                assert(l[t2] == fwd_order(s, i + 1)[t2 - b.len()]);
            }
        }
        assert forall|kv: K::V|
            #[trigger] slots_map(s).contains_key(kv) && i <= bucket_index_of::<K>(
                kv,
                s.len() as int,
            ) implies exists|t: int| 0 <= t < l.len() && (#[trigger] l[t]).0@ == kv by {
            let r = bucket_index_of::<K>(kv, s.len() as int);
            if r == i {
                let j = choose|j: int| 0 <= j < b.len() && b[j].0@ == kv;
                assert(l[j] == s[i][j]);
                assert(0 <= j < l.len() && l[j].0@ == kv);
            } else {
                let t = choose|t: int|
                    0 <= t < fwd_order(s, i + 1).len() && (#[trigger] fwd_order(s, i + 1)[t]).0@
                        == kv;
                assert(l[b.len() + t] == fwd_order(s, i + 1)[t]);
                assert(0 <= b.len() + t < l.len() && l[b.len() + t].0@ == kv);
            }
        }
    }
}

/// The route of a key never lies outside the bucket array.
pub(crate) proof fn lemma_route_in_range<K: HashKey, V>(s: Seq<Seq<(K, V)>>, kv: K::V)
    requires
        s.len() > 0,
    ensures
        0 <= bucket_index_of::<K>(kv, s.len() as int) < s.len(),
{
}

/// A complete pop-order walk over a well-formed bucket array yields exactly
/// as many entries as the association holds.
pub(crate) proof fn lemma_drain_len<K: HashKey, V>(s: Seq<Seq<(K, V)>>)
    requires
        slots_routed(s),
        slots_distinct(s),
        slots_map(s).dom().finite(),
    ensures
        drain_order(s, 0).len() == slots_map(s).dom().len(),
{
    let l = drain_order(s, 0);
    lemma_drain_props::<K, V>(s, 0);
    let keys = l.map_values(|e: (K, V)| e.0@);
    assert(keys.no_duplicates());
    assert(keys.to_set() =~= slots_map(s).dom()) by {
        assert forall|kv: K::V| #[trigger] slots_map(s).dom().contains(kv) implies keys.to_set()
            .contains(kv) by {
            lemma_route_in_range::<K, V>(s, kv);
            let t = choose|t: int| 0 <= t < l.len() && (#[trigger] l[t]).0@ == kv;
            assert(keys[t] == kv);
            assert(keys.contains(kv));
        }
        assert forall|kv: K::V| #[trigger] keys.to_set().contains(kv) implies slots_map(
            s,
        ).dom().contains(kv) by {
            let t = choose|t: int| 0 <= t < keys.len() && keys[t] == kv;
            assert((l[t]).0@ == kv);
        }
    }
    keys.unique_seq_to_set();
}

/// A complete front-to-back walk over a well-formed bucket array yields
/// exactly as many entries as the association holds.
pub(crate) proof fn lemma_fwd_len<K: HashKey, V>(s: Seq<Seq<(K, V)>>)
    requires
        slots_routed(s),
        slots_distinct(s),
        slots_map(s).dom().finite(),
    ensures
        fwd_order(s, 0).len() == slots_map(s).dom().len(),
{
    let l = fwd_order(s, 0);
    lemma_fwd_props::<K, V>(s, 0);
    let keys = l.map_values(|e: (K, V)| e.0@);
    assert(keys.no_duplicates());
    assert(keys.to_set() =~= slots_map(s).dom()) by {
        assert forall|kv: K::V| #[trigger] slots_map(s).dom().contains(kv) implies keys.to_set()
            .contains(kv) by {
            lemma_route_in_range::<K, V>(s, kv);
            let t = choose|t: int| 0 <= t < l.len() && (#[trigger] l[t]).0@ == kv;
            assert(keys[t] == kv);
            assert(keys.contains(kv));
        }
        assert forall|kv: K::V| #[trigger] keys.to_set().contains(kv) implies slots_map(
            s,
        ).dom().contains(kv) by {
            let t = choose|t: int| 0 <= t < keys.len() && keys[t] == kv;
            assert((l[t]).0@ == kv);
        }
    }
    keys.unique_seq_to_set();
}


/// Consuming iteration: owns the map and drains each bucket from the back as
/// it advances; after a full iteration the storage is empty.
pub struct HashMapIntoIterator<K, V> {
    pub(crate) hm: HashMap<K, V>,
    pub(crate) bucket_index: usize,
}

/// Borrowing iteration: yields references, valid while no mutation occurs.
pub struct HashMapIterator<'a, K, V> {
    pub(crate) hm: &'a HashMap<K, V>,
    pub(crate) bucket_index: usize,
    pub(crate) per_bucket_index: usize,
}

impl<K: HashKey, V> HashMapIntoIterator<K, V> {
    /// The entries still to be yielded, in order.
    pub closed spec fn remaining(&self) -> Seq<(K, V)> {
        drain_order(self.hm.slots(), self.bucket_index as int)
    }

    /// Buckets the iteration has moved past are already drained.
    pub closed spec fn drained(&self) -> bool {
        forall|t: int|
            0 <= t < self.bucket_index as int && t < self.hm.slots().len() ==> (
            #[trigger] self.hm.slots()[t]).len() == 0
    }

    /// The association the drained map still stores.
    pub closed spec fn map_left(&self) -> Map<K::V, V> {
        slots_map(self.hm.slots())
    }

    /// The next entry: the first of `remaining()`, moved out of its bucket,
    /// or `None` once everything has been yielded — the storage is then
    /// fully drained and stores the empty association.
    pub fn next(&mut self) -> (r: Option<(K, V)>)
        requires
            old(self).drained(),
        ensures
            final(self).drained(),
            match r {
                Some(e) => old(self).remaining().len() > 0 && e == old(self).remaining()[0]
                    && final(self).remaining() == old(self).remaining().drop_first(),
                None => old(self).remaining().len() == 0 && final(self).remaining().len() == 0
                    && final(self).map_left() == Map::<K::V, V>::empty(),
            },
    {
        loop
            invariant
                self.remaining() == old(self).remaining(),
                self.drained(),
            decreases self.hm.storage@.len() - self.bucket_index,
        {
            let i = self.bucket_index;
            if i >= self.hm.storage.len() {
                proof {
                    assert forall|kv: K::V| !(#[trigger] slots_map(
                        self.hm.slots(),
                    ).contains_key(kv)) by {
                        if slots_map(self.hm.slots()).contains_key(kv) {
                            let r = bucket_index_of::<K>(kv, self.hm.slots().len() as int);
                            assert(self.hm.slots()[r].len() == 0);
                        }
                    }
                    assert(self.map_left() =~= Map::<K::V, V>::empty());
                }
                return None;
            }
            let ghost s_prev = self.hm.slots();
            let mut bucket: Vec<(K, V)> = Vec::new();
            self.hm.storage.set_and_swap(i, &mut bucket);
            let popped = bucket.pop();
            let ghost bafter = bucket@;
            self.hm.storage.set_and_swap(i, &mut bucket);
            proof {
                assert(self.hm.slots() =~= s_prev.update(i as int, bafter));
            }
            match popped {
                Some(e) => {
                    proof {
                        let s2 = self.hm.slots();
                        let b = s_prev[i as int];
                        assert(bafter =~= b.drop_last());
                        lemma_drain_order_agree(s2, s_prev, i as int + 1);
                        assert(drain_order(s_prev, i as int) == pop_order(b) + drain_order(
                            s_prev,
                            i as int + 1,
                        ));
                        assert(drain_order(s2, i as int) == pop_order(b.drop_last())
                            + drain_order(s2, i as int + 1));
                        assert(drain_order(s_prev, i as int) =~= seq![e] + drain_order(
                            s2,
                            i as int,
                        ));
                        assert(drain_order(s2, i as int) =~= drain_order(
                            s_prev,
                            i as int,
                        ).drop_first());
                    }
                    return Some(e);
                }
                None => {
                    proof {
                        let s2 = self.hm.slots();
                        assert(bafter =~= s_prev[i as int]);
                        assert(s2 =~= s_prev);
                        assert(self.hm.slots()[i as int].len() == 0);
                        assert(drain_order(s2, i as int) == pop_order(s_prev[i as int])
                            + drain_order(s2, i as int + 1));
                        assert(drain_order(s2, i as int) =~= drain_order(s2, i as int + 1));
                    }
                    self.bucket_index = i + 1;
                }
            }
        }
    }
}

impl<'a, K: HashKey, V> HashMapIterator<'a, K, V> {
    /// The entries still to be yielded, in order.
    pub closed spec fn remaining(&self) -> Seq<(K, V)> {
        let s = self.hm.slots();
        if self.bucket_index < s.len() {
            s[self.bucket_index as int].skip(self.per_bucket_index as int) + fwd_order(
                s,
                self.bucket_index as int + 1,
            )
        } else {
            Seq::empty()
        }
    }

    /// Whether the iterator's cursor lies within the bucket array.
    pub closed spec fn in_bounds(&self) -> bool {
        self.bucket_index < self.hm.slots().len() ==> self.per_bucket_index
            <= self.hm.slots()[self.bucket_index as int].len()
    }

    /// The next entry: references into the first of `remaining()`, or `None`
    /// once everything has been yielded.
    pub fn next(&mut self) -> (r: Option<(&'a K, &'a V)>)
        requires
            old(self).in_bounds(),
        ensures
            final(self).in_bounds(),
            match r {
                Some(p) => old(self).remaining().len() > 0 && (*p.0, *p.1) == old(
                    self,
                ).remaining()[0] && final(self).remaining() == old(self).remaining().drop_first(),
                None => old(self).remaining().len() == 0 && final(self).remaining().len() == 0,
            },
    {
        let ghost s = self.hm.slots();
        loop
            invariant
                self.hm == old(self).hm,
                s == self.hm.slots(),
                self.in_bounds(),
                self.remaining() == old(self).remaining(),
            decreases s.len() - self.bucket_index,
        {
            let i = self.bucket_index;
            if i >= self.hm.storage.len() {
                return None;
            }
            let bucket = &self.hm.storage[i];
            let j = self.per_bucket_index;
            if j < bucket.len() {
                let ghost before = self.remaining();
                self.per_bucket_index = j + 1;
                proof {
                    assert(s[i as int].skip(j as int) =~= seq![s[i as int][j as int]] + s[
                        i as int
                    ].skip(j as int + 1));
                    assert(self.remaining() =~= before.drop_first());
                }
                return Some((&bucket[j].0, &bucket[j].1));
            } else {
                proof {
                    assert(s[i as int].skip(j as int) =~= Seq::<(K, V)>::empty());
                    if i as int + 1 < s.len() {
                        assert(s[i as int + 1].skip(0) =~= s[i as int + 1]);
                        assert(fwd_order(s, i as int + 1) == s[i as int + 1] + fwd_order(
                            s,
                            i as int + 2,
                        ));
                    }
                }
                let ghost before = self.remaining();
                self.bucket_index = i + 1;
                self.per_bucket_index = 0;
                proof {
                    assert(self.remaining() =~= before);
                }
            }
        }
    }
}

impl<K: HashKey, V> HashMap<K, V> {
    /// Starts a borrowing iteration: what it will yield is exactly the map's
    /// live entries, each key once.
    pub fn iter(&self) -> (it: HashMapIterator<'_, K, V>)
        requires
            self.wf(),
        ensures
            it.in_bounds(),
            entries_match(it.remaining(), self@),
            it.remaining().len() == self@.dom().len(),
    {
        let it = HashMapIterator { hm: self, bucket_index: 0, per_bucket_index: 0 };
        proof {
            let s = self.slots();
            lemma_fwd_props::<K, V>(s, 0);
            lemma_fwd_len::<K, V>(s);
            if s.len() > 0 {
                assert(s[0].skip(0) =~= s[0]);
                assert(it.remaining() =~= fwd_order(s, 0));
            }
        }
        it
    }

    /// Starts a consuming iteration, taking the map over: what it will yield
    /// is exactly the map's live entries, each key once, and the storage is
    /// drained as it goes.
    pub fn into_iter(self) -> (it: HashMapIntoIterator<K, V>)
        requires
            self.wf(),
        ensures
            it.drained(),
            entries_match(it.remaining(), self@),
            it.remaining().len() == self@.dom().len(),
    {
        proof {
            lemma_drain_props::<K, V>(self.slots(), 0);
            lemma_drain_len::<K, V>(self.slots());
        }
        HashMapIntoIterator { hm: self, bucket_index: 0 }
    }
}

} // verus!
