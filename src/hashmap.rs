use vstd::prelude::*;
use crate::measurement::{Agg, Measurement, combine, single};

verus! {

/// Distinct keys the table is sized for before it has to grow.
pub const STATIONS_IN_DATASET: usize = 413;

/// Largest observation count for which a sum of in-domain values fits `i64`.
pub const MAX_COUNT: u64 = 9232604641496272;

/// Largest observation count that one aggregate may reach.
pub open spec fn count_limit() -> int {
    if (usize::MAX as int) < (MAX_COUNT as int) {
        usize::MAX as int
    } else {
        MAX_COUNT as int
    }
}

/// An aggregate whose observations all lie in the value domain.
pub open spec fn in_domain(m: Measurement) -> bool {
    &&& m.wf()
    &&& -999 <= m.min
    &&& m.max <= 999
    &&& m.count <= count_limit()
}

/// The sum of an in-domain aggregate lies within 999 tenths per observation,
/// and so does any sum over at most `MAX_COUNT` observations fit `i64`.
pub proof fn lemma_sum_in_domain(m: Measurement)
    requires
        in_domain(m),
    ensures
        -999 * m.count <= m.sum <= 999 * m.count,
        999 * MAX_COUNT <= i64::MAX,
{
    assert(m.count * -999 <= m.sum <= m.count * 999) by (nonlinear_arith)
        requires
            m.count * m.min <= m.sum <= m.count * m.max,
            -999 <= m.min,
            m.max <= 999,
            m.count >= 0,
    ;
}

/// Table `a` after one more observation `v` of key `k`.
pub open spec fn upsert(a: Map<Seq<u8>, Agg>, k: Seq<u8>, v: int) -> Map<Seq<u8>, Agg> {
    if a.contains_key(k) {
        a.insert(k, combine(a[k], single(v)))
    } else {
        a.insert(k, single(v))
    }
}

/// The table of the observations of `a` and `b` together.
pub open spec fn merge_tables(a: Map<Seq<u8>, Agg>, b: Map<Seq<u8>, Agg>) -> Map<Seq<u8>, Agg> {
    Map::new(
        |k: Seq<u8>| a.contains_key(k) || b.contains_key(k),
        |k: Seq<u8>|
            if a.contains_key(k) && b.contains_key(k) {
                combine(a[k], b[k])
            } else if a.contains_key(k) {
                a[k]
            } else {
                b[k]
            },
    )
}

/// Observation count of `k` in `m`, zero where absent.
pub open spec fn count_in(m: Map<Seq<u8>, Measurement>, k: Seq<u8>) -> int {
    if m.contains_key(k) {
        m[k].count as int
    } else {
        0
    }
}

/// Aggregate of `k` over the observations of `a` and `b` together.
pub open spec fn merged_at(a: Map<Seq<u8>, Measurement>, b: Map<Seq<u8>, Measurement>, k: Seq<u8>) -> Agg {
    if a.contains_key(k) && b.contains_key(k) {
        combine(a[k]@, b[k]@)
    } else if a.contains_key(k) {
        a[k]@
    } else {
        b[k]@
    }
}

/// Aggregates keyed by the bytes of a key span borrowed from the input.
#[verifier::external_body]
pub struct HashMap<'a> {
    inner: hashbrown::HashMap<&'a [u8], Measurement, ahash::RandomState>,
}

/// What a table holds: each key's bytes with its aggregate.
pub uninterp spec fn table_contents(t: HashMap) -> Map<Seq<u8>, Measurement>;

/// Each key of `e` once, and `e` lists exactly the entries of `m`.
pub open spec fn lists_entries(e: Seq<(&[u8], Measurement)>, m: Map<Seq<u8>, Measurement>) -> bool {
    &&& forall|i: int, j: int| 0 <= i < j < e.len() ==> e[i].0@ != e[j].0@
    &&& forall|i: int| 0 <= i < e.len() ==> #[trigger] m.contains_key(e[i].0@) && m[e[i].0@] == e[i].1
    &&& forall|k: Seq<u8>| m.contains_key(k) ==> exists|i: int| 0 <= i < e.len() && #[trigger] e[i].0@ == k
}

impl<'a> HashMap<'a> {
    pub open spec fn view(&self) -> Map<Seq<u8>, Measurement> {
        table_contents(*self)
    }

    /// The aggregates of the table, in their mathematical form.
    pub open spec fn aggs(&self) -> Map<Seq<u8>, Agg> {
        self@.map_values(|m: Measurement| m@)
    }

    pub open spec fn wf(&self) -> bool {
        forall|k: Seq<u8>| self@.contains_key(k) ==> in_domain(#[trigger] self@[k])
    }

    /// Relies on hashbrown's `HashMap::with_capacity_and_hasher`, seeded by
    /// ahash's `RandomState::new`: a map with no entries.
    #[verifier::external_body]
    fn with_capacity(capacity: usize) -> (r: Self)
        ensures
            table_contents(r) == (Map::<Seq<u8>, Measurement>::empty()),
    {
        HashMap { inner: hashbrown::HashMap::with_capacity_and_hasher(capacity, ahash::RandomState::new()) }
    }

    /// Relies on hashbrown's `HashMap::get`: the value stored under equal key bytes.
    #[verifier::external_body]
    fn lookup(&self, key: &[u8]) -> (r: Option<Measurement>)
        ensures
            r == (if table_contents(*self).contains_key(key@) {
                Some(table_contents(*self)[key@])
            } else {
                None::<Measurement>
            }),
    {
        self.inner.get(key).copied()
    }

    /// Relies on hashbrown's `HashMap::insert`: the key now maps to `m`.
    #[verifier::external_body]
    fn put(&mut self, key: &'a [u8], m: Measurement)
        ensures
            table_contents(*final(self)) == table_contents(*old(self)).insert(key@, m),
    {
        self.inner.insert(key, m);
    }

    /// Relies on hashbrown's `HashMap::into_iter`: every entry once, in some order.
    #[verifier::external_body]
    fn drain_entries(self) -> (r: Vec<(&'a [u8], Measurement)>)
        ensures
            lists_entries(r@, table_contents(self)),
    {
        self.inner.into_iter().collect()
    }

    /// An empty table, sized for the expected number of distinct keys.
    pub fn new() -> (r: Self)
        ensures
            r@ == Map::<Seq<u8>, Measurement>::empty(),
            r.wf(),
    {
        Self::with_capacity(STATIONS_IN_DATASET * 2)
    }

    /// The entries of the table, each key once, in no particular order.
    pub fn into_inner(self) -> (r: Vec<(&'a [u8], Measurement)>)
        ensures
            lists_entries(r@, self@),
    {
        self.drain_entries()
    }

    /// Records one observation of `key`.
    pub fn upsert(&mut self, key: &'a [u8], value: i16)
        requires
            old(self).wf(),
            -999 <= value <= 999,
            old(self)@.contains_key(key@) ==> old(self)@[key@].count < count_limit(),
        ensures
            final(self).wf(),
            final(self).aggs() == upsert(old(self).aggs(), key@, value as int),
            final(self)@.dom() == old(self)@.dom().insert(key@),
            forall|k: Seq<u8>| k != key@ && old(self)@.contains_key(k) ==> final(self)@[k] == old(self)@[k],
            final(self)@.contains_key(key@) && final(self)@[key@].count == (
                if old(self)@.contains_key(key@) { old(self)@[key@].count + 1 } else { 1 }),
    {
        match self.lookup(key) {
            Some(m) => {
                let mut m = m;
                assert(in_domain(m));
                proof {
                    lemma_sum_in_domain(m);
                }
                m.add(value);
                self.put(key, m);
            },
            None => {
                self.put(key, Measurement::new(value));
            },
        }
        assert(self.aggs() =~= upsert(old(self).aggs(), key@, value as int));
    }

    /// Folds every entry of `other` into this table.
    pub fn merge(&mut self, other: HashMap<'a>)
        requires
            old(self).wf(),
            other.wf(),
            forall|k: Seq<u8>|
                old(self)@.contains_key(k) && other@.contains_key(k) ==> old(self)@[k].count
                    + other@[k].count <= count_limit(),
        ensures
            final(self).wf(),
            final(self).aggs() == merge_tables(old(self).aggs(), other.aggs()),
            final(self)@.dom() == old(self)@.dom().union(other@.dom()),
            forall|k: Seq<u8>|
                #[trigger] final(self)@.contains_key(k) ==> final(self)@[k].count == count_in(old(self)@, k)
                    + count_in(other@, k),
    {
        let ghost o = old(self)@;
        let ghost om = other@;
        let entries = other.into_inner();
        let ghost mut done: Map<Seq<u8>, Measurement> = Map::empty();
        let mut i: usize = 0;
        while i < entries.len()
            invariant
                0 <= i <= entries@.len(),
                lists_entries(entries@, om),
                forall|k: Seq<u8>| om.contains_key(k) ==> in_domain(#[trigger] om[k]),
                forall|k: Seq<u8>| o.contains_key(k) ==> in_domain(#[trigger] o[k]),
                forall|k: Seq<u8>|
                    o.contains_key(k) && om.contains_key(k) ==> o[k].count + om[k].count <= count_limit(),
                forall|j: int| 0 <= j < i ==> done.contains_key(#[trigger] entries@[j].0@),
                forall|k: Seq<u8>|
                    done.contains_key(k) ==> exists|j: int| 0 <= j < i && #[trigger] entries@[j].0@ == k,
                forall|k: Seq<u8>| done.contains_key(k) ==> om.contains_key(k) && #[trigger] done[k] == om[k],
                self.wf(),
                self@.dom() == o.dom().union(done.dom()),
                forall|k: Seq<u8>|
                    #[trigger] self@.contains_key(k) ==> self@[k]@ == merged_at(o, done, k),
                forall|k: Seq<u8>|
                    #[trigger] self@.contains_key(k) ==> self@[k].count == count_in(o, k) + count_in(done, k),
            decreases entries@.len() - i,
        {
            let key = entries[i].0;
            let val = entries[i].1;
            assert(om.contains_key(entries@[i as int].0@));
            assert(om.contains_key(key@) && om[key@] == val);
            assert(!done.contains_key(key@)) by {
                if done.contains_key(key@) {
                    let j = choose|j: int| 0 <= j < i && #[trigger] entries@[j].0@ == key@;
                    assert(entries@[j].0@ != entries@[i as int].0@);
                }
            }
            match self.lookup(key) {
                Some(m) => {
                    let mut m = m;
                    assert(o.contains_key(key@));
                    assert(in_domain(val));
                    proof {
                        lemma_sum_in_domain(m);
                        lemma_sum_in_domain(val);
                    }
                    m.merge(&val);
                    self.put(key, m);
                },
                None => {
                    self.put(key, val);
                },
            }
            proof {
                done = done.insert(key@, val);
                assert forall|k: Seq<u8>|
                    done.contains_key(k) implies exists|j: int| 0 <= j < i + 1 && #[trigger] entries@[j].0@ == k by {
                    if k == key@ {
                        assert(entries@[i as int].0@ == k);
                    } else {
                        let j = choose|j: int| 0 <= j < i && #[trigger] entries@[j].0@ == k;
                        assert(0 <= j < i + 1 && entries@[j].0@ == k);
                    }
                }
                assert(self@.dom() =~= o.dom().union(done.dom()));
            }
            i = i + 1;
        }
        proof {
            assert(done =~= om) by {
                assert forall|k: Seq<u8>| om.contains_key(k) implies done.contains_key(k) by {
                    let j = choose|j: int| 0 <= j < entries@.len() && #[trigger] entries@[j].0@ == k;
                }
            }
            assert(self.aggs() =~= merge_tables(o.map_values(|m: Measurement| m@), om.map_values(|m: Measurement| m@)));
        }
    }
}

} // verus!
