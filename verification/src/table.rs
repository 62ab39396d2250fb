//! Per-name aggregate maps: name bytes mapped to histograms.
//!
//! The backing store is a hash map from the `ahash` crate, kept behind a
//! small set of trusted operations; everything built on top of them —
//! recording, merging, well-formedness — is verified against the map
//! model `Map<Seq<u8>, Seq<u64>>`.

use vstd::prelude::*;

use crate::hist::{
    hist_add, hist_total, lemma_bucket_le_sum, lemma_sum_add, lemma_sum_update, lemma_sum_zero,
    zero_hist, Histogram,
};

verus! {

/// The hash table behind an aggregate map. Holds `ahash::AHashMap`
/// entries from name bytes to histograms; opaque to the verifier, which
/// sees it only through `table_model` and the trusted operations below.
#[verifier::external_body]
pub struct AggTable {
    inner: ahash::AHashMap<Vec<u8>, Histogram>,
}

/// What the table holds: each name's histogram, as a map of plain values.
pub uninterp spec fn table_model(t: AggTable) -> Map<Seq<u8>, Seq<u64>>;

/// The aggregate map with no entries.
pub open spec fn empty_agg() -> Map<Seq<u8>, Seq<u64>> {
    Map::empty()
}

/// Relies on ahash::AHashMap::new: a freshly created map holds no entry.
#[verifier::external_body]
fn table_new() -> (t: AggTable)
    ensures
        table_model(t) == empty_agg(),
{
    AggTable { inner: ahash::AHashMap::new() }
}

/// Relies on std's HashMap::remove_entry (through ahash::AHashMap's
/// Deref): takes out and returns the stored key and value at the key, if
/// present, leaving the rest of the map unchanged.
#[verifier::external_body]
fn table_take(t: &mut AggTable, name: &Vec<u8>) -> (r: Option<(Vec<u8>, Histogram)>)
    ensures
        match r {
            Some(p) => p.0@ == name@ && table_model(*old(t)).contains_key(name@)
                && p.1@ == table_model(*old(t))[name@]
                && table_model(*final(t)) == table_model(*old(t)).remove(name@),
            None => !table_model(*old(t)).contains_key(name@)
                && table_model(*final(t)) == table_model(*old(t)),
        },
{
    t.inner.remove_entry(name)
}

/// Relies on ahash::AHashMap::insert: binds the key to the value,
/// replacing any previous entry.
#[verifier::external_body]
fn table_insert(t: &mut AggTable, name: Vec<u8>, h: Histogram)
    ensures
        table_model(*final(t)) == table_model(*old(t)).insert(name@, h@),
{
    t.inner.insert(name, h);
}

/// Relies on std's HashMap::keys (through ahash::AHashMap's Deref):
/// yields each key exactly once, in no promised order.
#[verifier::external_body]
fn table_keys(t: &AggTable) -> (r: Vec<Vec<u8>>)
    ensures
        forall|i: int, j: int| 0 <= i < j < r@.len() ==> r@[i]@ != r@[j]@,
        forall|i: int| 0 <= i < r@.len() ==> table_model(*t).contains_key(r@[i]@),
        forall|n: Seq<u8>|
            table_model(*t).contains_key(n) ==> exists|i: int| 0 <= i < r@.len() && r@[i]@ == n,
{
    t.inner.keys().cloned().collect()
}

/// The names a key vector holds, as a set of byte sequences.
pub open spec fn name_set(ks: Seq<Vec<u8>>) -> Set<Seq<u8>> {
    Set::new(|n: Seq<u8>| exists|i: int| 0 <= i < ks.len() && ks[i]@ == n)
}

/// Every histogram in the map has 1999 buckets and at least one record,
/// and no histogram holds more records than `bound`.
pub open spec fn agg_wf(m: Map<Seq<u8>, Seq<u64>>, bound: int) -> bool {
    forall|n: Seq<u8>| #[trigger]
        m.contains_key(n) ==> m[n].len() == 1999 && 1 <= hist_total(m[n]) <= bound
}

/// One record with the given name and histogram index added to the map.
pub open spec fn agg_bump(m: Map<Seq<u8>, Seq<u64>>, name: Seq<u8>, k: int) -> Map<
    Seq<u8>,
    Seq<u64>,
> {
    let h = if m.contains_key(name) {
        m[name]
    } else {
        zero_hist()
    };
    m.insert(name, h.update(k, (h[k] + 1) as u64))
}

/// Two aggregate maps folded together: the union of their names, with
/// histograms added bucket-wise where a name appears in both.
pub open spec fn merge_spec(g: Map<Seq<u8>, Seq<u64>>, l: Map<Seq<u8>, Seq<u64>>) -> Map<
    Seq<u8>,
    Seq<u64>,
> {
    Map::new(
        |n: Seq<u8>| g.contains_key(n) || l.contains_key(n),
        |n: Seq<u8>|
            if l.contains_key(n) {
                if g.contains_key(n) {
                    hist_add(g[n], l[n])
                } else {
                    l[n]
                }
            } else {
                g[n]
            },
    )
}

/// An aggregate map under construction: a table of histograms plus the
/// count of records folded into it so far.
pub struct LocalAgg {
    table: AggTable,
    records: u64,
}

impl View for LocalAgg {
    type V = Map<Seq<u8>, Seq<u64>>;

    closed spec fn view(&self) -> Map<Seq<u8>, Seq<u64>> {
        table_model(self.table)
    }
}

impl LocalAgg {
    /// Total records folded into this map.
    pub closed spec fn records_model(&self) -> int {
        self.records as int
    }

    pub open spec fn wf(&self) -> bool {
        &&& agg_wf(self@, self.records_model())
        &&& self.records_model() <= u64::MAX
    }

    /// An empty aggregate map.
    pub fn new() -> (a: LocalAgg)
        ensures
            a@ == Map::<Seq<u8>, Seq<u64>>::empty(),
            a.records_model() == 0,
            a.wf(),
    {
        LocalAgg { table: table_new(), records: 0 }
    }

    pub fn record_count(&self) -> (n: u64)
        ensures
            n as int == self.records_model(),
    {
        self.records
    }

    /// Folds in one record with the given name and histogram index.
    pub fn record_one(&mut self, name: Vec<u8>, idx: usize)
        requires
            old(self).wf(),
            idx < 1999,
            old(self).records_model() < u64::MAX,
        ensures
            final(self).wf(),
            final(self)@ == agg_bump(old(self)@, name@, idx as int),
            final(self).records_model() == old(self).records_model() + 1,
    {
        let ghost m0 = self@;
        let mut h = match table_take(&mut self.table, &name) {
            Some(p) => p.1,
            None => Histogram::new(),
        };
        proof {
            if m0.contains_key(name@) {
                lemma_bucket_le_sum(h@, idx as int, 1999);
            } else {
                lemma_sum_zero(1999);
                lemma_bucket_le_sum(h@, idx as int, 1999);
            }
            assert(h@[idx as int] < u64::MAX);
        }
        let ghost hv = h@;
        h.bump(idx);
        proof {
            lemma_sum_update(hv, idx as int, (hv[idx as int] + 1) as u64, 1999);
        }
        table_insert(&mut self.table, name, h);
        self.records = self.records + 1;
        proof {
            if m0.contains_key(name@) {
                assert(self@ =~= agg_bump(m0, name@, idx as int));
            } else {
                assert(self@ =~= agg_bump(m0, name@, idx as int));
            }
        }
    }

    /// The names the map holds, each exactly once, in no promised order.
    pub fn keys(&self) -> (r: Vec<Vec<u8>>)
        ensures
            forall|i: int, j: int| 0 <= i < j < r@.len() ==> r@[i]@ != r@[j]@,
            forall|i: int| 0 <= i < r@.len() ==> self@.contains_key(r@[i]@),
            forall|n: Seq<u8>| self@.contains_key(n) ==> exists|i: int| 0 <= i < r@.len() && r@[i]@ == n,
    {
        table_keys(&self.table)
    }

    /// Takes the named histogram out of the map, if present.
    pub fn take_hist(&mut self, name: &Vec<u8>) -> (r: Option<Histogram>)
        requires
            old(self).wf(),
        ensures
            final(self).wf(),
            final(self).records_model() == old(self).records_model(),
            match r {
                Some(h) => old(self)@.contains_key(name@) && h@ == old(self)@[name@]
                    && final(self)@ == old(self)@.remove(name@),
                None => !old(self)@.contains_key(name@) && final(self)@ == old(self)@,
            },
    {
        match table_take(&mut self.table, name) {
            Some(p) => Some(p.1),
            None => None,
        }
    }

    /// Folds a finished local map into this one: histograms of shared
    /// names are added bucket-wise, others are moved in as they are.
    pub fn merge_from(&mut self, local: LocalAgg)
        requires
            old(self).wf(),
            local.wf(),
            old(self).records_model() + local.records_model() <= u64::MAX,
        ensures
            final(self).wf(),
            final(self)@ == merge_spec(old(self)@, local@),
            final(self).records_model() == old(self).records_model() + local.records_model(),
    {
        let ghost g0 = self@;
        let ghost l0 = local@;
        let ghost r0 = self.records_model();
        let ghost rl = local.records_model();
        let mut local = local;
        self.records = self.records + local.records;
        let keys = table_keys(&local.table);
        let n_keys = keys.len();
        let mut i: usize = 0;
        proof {
            assert(name_set(keys@.take(0)) =~= Set::<Seq<u8>>::empty());
            assert(l0.remove_keys(name_set(keys@.take(0))) =~= l0);
            assert(merge_spec(g0, l0.restrict(name_set(keys@.take(0)))) =~= g0);
        }
        while i < n_keys
            invariant
                i <= n_keys,
                n_keys == keys@.len(),
                forall|p: int, q: int| 0 <= p < q < keys@.len() ==> keys@[p]@ != keys@[q]@,
                forall|p: int| 0 <= p < keys@.len() ==> l0.contains_key(keys@[p]@),
                forall|n: Seq<u8>|
                    l0.contains_key(n) ==> exists|p: int| 0 <= p < keys@.len() && keys@[p]@ == n,
                agg_wf(g0, r0),
                agg_wf(l0, rl),
                0 <= r0,
                0 <= rl,
                r0 + rl <= u64::MAX,
                self.records_model() == r0 + rl,
                local@ == l0.remove_keys(name_set(keys@.take(i as int))),
                self@ == merge_spec(g0, l0.restrict(name_set(keys@.take(i as int)))),
                agg_wf(self@, r0 + rl),
            decreases n_keys - i,
        {
            let ghost pre = self@;
            let ghost taken = name_set(keys@.take(i as int));
            let name = &keys[i];
            proof {
                let ki = keys@.take(i as int);
                let ki1 = keys@.take(i as int + 1);
                assert forall|n: Seq<u8>| #[trigger] name_set(ki1).contains(n) implies taken.insert(
                    name@,
                ).contains(n) by {
                    let p = choose|p: int| 0 <= p < ki1.len() && ki1[p]@ == n;
                    if p < i as int {
                        assert(ki[p]@ == n);
                    } else {
                        assert(ki1[p] == keys@[i as int]);
                    }
                }
                assert forall|n: Seq<u8>| taken.insert(name@).contains(n) implies #[trigger]
                    name_set(ki1).contains(n) by {
                    if n == name@ {
                        assert(ki1[i as int]@ == n);
                    } else {
                        let p = choose|p: int| 0 <= p < ki.len() && ki[p]@ == n;
                        assert(ki1[p]@ == n);
                    }
                }
                assert(name_set(ki1) =~= taken.insert(name@));
                if taken.contains(name@) {
                    let p = choose|p: int| 0 <= p < ki.len() && ki[p]@ == name@;
                    assert(keys@[p]@ == keys@[i as int]@);
                    assert(false);
                }
                assert(local@.contains_key(name@));
            }
            let taken_local = table_take(&mut local.table, name);
            let (lkey, h) = match taken_local {
                Some(p) => p,
                None => (Vec::new(), Histogram::new()),
            };
            proof {
                assert(h@ == l0[name@]);
            }
            match table_take(&mut self.table, name) {
                Some(p) => {
                    let (gkey, mut gh) = p;
                    proof {
                        assert(pre.contains_key(name@) && pre[name@] == gh@);
                        assert(gh@ == g0[name@]);
                        assert forall|k: int| 0 <= k < 1999 implies gh@[k] + h@[k] <= u64::MAX by {
                            lemma_bucket_le_sum(gh@, k, 1999);
                            lemma_bucket_le_sum(h@, k, 1999);
                        }
                    }
                    gh.add(&h);
                    proof {
                        lemma_sum_add(g0[name@], l0[name@], 1999);
                        assert(gh@ == hist_add(g0[name@], l0[name@]));
                        assert(g0.contains_key(name@));
                        assert(l0.contains_key(name@));
                        assert(hist_total(g0[name@]) <= r0);
                        assert(hist_total(l0[name@]) <= rl);
                        assert(hist_total(gh@) <= r0 + rl);
                    }
                    table_insert(&mut self.table, gkey, gh);
                    proof {
                        assert(hist_total(self@[name@]) <= r0 + rl);
                    }
                },
                None => {
                    proof {
                        assert(l0.contains_key(name@));
                        assert(h@ == l0[name@]);
                        assert(hist_total(h@) <= rl);
                    }
                    table_insert(&mut self.table, lkey, h);
                    proof {
                        assert(hist_total(self@[name@]) <= r0 + rl);
                    }
                },
            }
            proof {
                let ki1 = keys@.take(i as int + 1);
                assert(local@ =~= l0.remove_keys(name_set(ki1)));
                assert(self@ =~= merge_spec(g0, l0.restrict(name_set(ki1))));
                assert forall|n: Seq<u8>| #[trigger] self@.contains_key(n) implies self@[n].len()
                    == 1999 && 1 <= hist_total(self@[n]) <= r0 + rl by {
                    if n != name@ {
                        assert(pre.contains_key(n) && self@[n] == pre[n]);
                    }
                }
            }
            i += 1;
        }
        proof {
            assert(keys@.take(n_keys as int) == keys@);
            assert forall|n: Seq<u8>| l0.contains_key(n) implies name_set(keys@).contains(n) by {}
            assert(l0.restrict(name_set(keys@)) =~= l0);
            assert(self@ == merge_spec(g0, l0));
        }
    }
}

} // verus!
