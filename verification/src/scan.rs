//! The chunk scanner: a single-pass, two-state byte machine.
//!
//! A chunk is streamed byte by byte. A `;` switches from the name buffer
//! to the value buffer, a `\n` finalizes one record (parse the value,
//! bump the name's histogram bucket), any other byte is appended to the
//! buffer the flag selects. The specification is the step function
//! `scan_step` folded over the bytes; everything the library states about
//! scanning — chunk composition, worker independence — is proved from it.

use vstd::prelude::*;

use crate::parse::{lemma_value_index_in_range, parse_temperature, valid_value, value_index};
use crate::table::{agg_bump, empty_agg, merge_spec, LocalAgg};
use crate::AggError;

verus! {

/// The scanner state between bytes: the two buffers, the
/// before-separator flag, and the aggregate map built so far.
pub ghost struct ScanState {
    pub name: Seq<u8>,
    pub value: Seq<u8>,
    pub before: bool,
    pub agg: Map<Seq<u8>, Seq<u64>>,
}

/// The state at a line start: empty buffers, flag set, aggregate `m`.
pub open spec fn clean_state(m: Map<Seq<u8>, Seq<u64>>) -> ScanState {
    ScanState { name: Seq::empty(), value: Seq::empty(), before: true, agg: m }
}

/// Every histogram in the map has exactly 1999 buckets.
pub open spec fn agg_sized(m: Map<Seq<u8>, Seq<u64>>) -> bool {
    forall|n: Seq<u8>| #[trigger] m.contains_key(n) ==> m[n].len() == 1999
}

/// One byte of scanning.
pub open spec fn scan_step(st: ScanState, b: u8) -> Result<ScanState, AggError> {
    if b == 10u8 {
        if valid_value(st.value) {
            Ok(clean_state(agg_bump(st.agg, st.name, value_index(st.value))))
        } else {
            Err(AggError::MalformedInput)
        }
    } else if b == 59u8 {
        Ok(ScanState { name: st.name, value: st.value, before: false, agg: st.agg })
    } else if st.before {
        if st.name.len() >= 100 {
            Err(AggError::RecordTooLarge)
        } else {
            Ok(ScanState { name: st.name.push(b), value: st.value, before: st.before, agg: st.agg })
        }
    } else {
        if st.value.len() >= 6 {
            Err(AggError::RecordTooLarge)
        } else {
            Ok(ScanState { name: st.name, value: st.value.push(b), before: st.before, agg: st.agg })
        }
    }
}

/// The step function folded over a byte sequence.
pub open spec fn scan_from(st: ScanState, s: Seq<u8>) -> Result<ScanState, AggError>
    decreases s.len(),
{
    if s.len() <= 0 {
        Ok(st)
    } else {
        match scan_step(st, s[0]) {
            Ok(st2) => scan_from(st2, s.drop_first()),
            Err(e) => Err(e),
        }
    }
}

pub proof fn lemma_scan_from_snoc(st: ScanState, s: Seq<u8>, b: u8)
    ensures
        scan_from(st, s.push(b)) == (match scan_from(st, s) {
            Ok(st2) => scan_step(st2, b),
            Err(e) => Err(e),
        }),
    decreases s.len(),
{
    if s.len() == 0 {
        let t = s.push(b);
        assert(t[0] == b);
        assert(t.drop_first() =~= Seq::<u8>::empty());
        match scan_step(st, b) {
            Ok(st2) => {
                assert(scan_from(st2, t.drop_first()) == Ok::<ScanState, AggError>(st2));
            },
            Err(e) => {
                assert(scan_from(st, t) == Err::<ScanState, AggError>(e));
            },
        }
    } else {
        assert(s.push(b)[0] == s[0]);
        assert(s.push(b).drop_first() =~= s.drop_first().push(b));
        match scan_step(st, s[0]) {
            Ok(st2) => {
                lemma_scan_from_snoc(st2, s.drop_first(), b);
            },
            Err(_) => {},
        }
    }
}

/// Scanning a concatenation is scanning the parts in turn.
pub proof fn lemma_scan_from_concat(st: ScanState, a: Seq<u8>, b: Seq<u8>)
    ensures
        scan_from(st, a + b) == (match scan_from(st, a) {
            Ok(st2) => scan_from(st2, b),
            Err(e) => Err(e),
        }),
    decreases a.len(),
{
    if a.len() == 0 {
        assert(a + b =~= b);
    } else {
        assert((a + b)[0] == a[0]);
        assert((a + b).drop_first() =~= a.drop_first() + b);
        match scan_step(st, a[0]) {
            Ok(st2) => {
                lemma_scan_from_concat(st2, a.drop_first(), b);
            },
            Err(_) => {},
        }
    }
}

/// After a byte sequence ending in a newline, the scanner stands at a
/// line start: both buffers empty, the flag set.
pub proof fn lemma_clean_after_newline(st: ScanState, s: Seq<u8>)
    requires
        s.len() > 0,
        s.last() == 10u8,
        scan_from(st, s) is Ok,
    ensures
        ({
            let st2 = scan_from(st, s)->Ok_0;
            st2 == clean_state(st2.agg)
        }),
{
    lemma_scan_from_snoc(st, s.drop_last(), 10u8);
    assert(s.drop_last().push(10u8) =~= s);
}

proof fn lemma_merge_bump(
    g: Map<Seq<u8>, Seq<u64>>,
    m: Map<Seq<u8>, Seq<u64>>,
    name: Seq<u8>,
    k: int,
)
    requires
        agg_sized(g),
        agg_sized(m),
        0 <= k < 1999,
    ensures
        merge_spec(g, agg_bump(m, name, k)) == agg_bump(merge_spec(g, m), name, k),
        agg_sized(agg_bump(m, name, k)),
{
    let lhs = merge_spec(g, agg_bump(m, name, k));
    let rhs = agg_bump(merge_spec(g, m), name, k);
    assert forall|x: Seq<u8>| lhs.contains_key(x) <==> rhs.contains_key(x) by {}
    assert forall|x: Seq<u8>| #[trigger] lhs.contains_key(x) implies lhs[x] == rhs[x] by {
        if x == name {
            if g.contains_key(name) {
                let gh = g[name];
                let mh = if m.contains_key(name) {
                    m[name]
                } else {
                    crate::hist::zero_hist()
                };
                assert forall|i: int| 0 <= i < 1999 implies lhs[x][i] == rhs[x][i] by {
                    if i == k {
                        let a = gh[i];
                        let b = mh[i];
                        assert((a + ((b + 1) as u64)) as u64 == (((a + b) as u64) + 1) as u64)
                            by (bit_vector);
                    }
                }
                assert(lhs[x] =~= rhs[x]);
            } else {
                assert(lhs[x] =~= rhs[x]);
            }
        }
    }
    assert(lhs =~= rhs);
}

/// Worker independence: scanning bytes on top of an existing aggregate
/// gives the same result as scanning them into an empty aggregate and
/// merging afterwards — errors included.
pub proof fn lemma_scan_on_merged(g: Map<Seq<u8>, Seq<u64>>, st: ScanState, s: Seq<u8>)
    requires
        agg_sized(g),
        agg_sized(st.agg),
    ensures
        ({
            let merged = ScanState {
                name: st.name,
                value: st.value,
                before: st.before,
                agg: merge_spec(g, st.agg),
            };
            match (scan_from(st, s), scan_from(merged, s)) {
                (Ok(a), Ok(b)) => b.name == a.name && b.value == a.value && b.before == a.before
                    && b.agg == merge_spec(g, a.agg) && agg_sized(a.agg),
                (Err(e1), Err(e2)) => e1 == e2,
                _ => false,
            }
        }),
    decreases s.len(),
{
    let merged = ScanState {
        name: st.name,
        value: st.value,
        before: st.before,
        agg: merge_spec(g, st.agg),
    };
    if s.len() == 0 {
    } else {
        let b0 = s[0];
        if b0 == 10u8 && valid_value(st.value) {
            let k = value_index(st.value);
            lemma_value_index_in_range(st.value);
            lemma_merge_bump(g, st.agg, st.name, k);
            let st2 = clean_state(agg_bump(st.agg, st.name, k));
            lemma_scan_on_merged(g, st2, s.drop_first());
        } else if b0 == 10u8 {
        } else if b0 == 59u8 {
            let st2 = ScanState { name: st.name, value: st.value, before: false, agg: st.agg };
            lemma_scan_on_merged(g, st2, s.drop_first());
        } else if st.before {
            if st.name.len() < 100 {
                let st2 = ScanState {
                    name: st.name.push(b0),
                    value: st.value,
                    before: st.before,
                    agg: st.agg,
                };
                lemma_scan_on_merged(g, st2, s.drop_first());
            }
        } else {
            if st.value.len() < 6 {
                let st2 = ScanState {
                    name: st.name,
                    value: st.value.push(b0),
                    before: st.before,
                    agg: st.agg,
                };
                lemma_scan_on_merged(g, st2, s.drop_first());
            }
        }
    }
}

/// A worker that scans a chunk into a private empty map contributes,
/// after merging, exactly what scanning that chunk in place would have.
pub proof fn lemma_worker_merge(g: Map<Seq<u8>, Seq<u64>>, s: Seq<u8>)
    requires
        agg_sized(g),
    ensures
        match (scan_from(clean_state(g), s), scan_from(clean_state(empty_agg()), s)) {
            (Ok(a), Ok(b)) => a.agg == merge_spec(g, b.agg),
            (Err(e1), Err(e2)) => e1 == e2,
            _ => false,
        },
{
    assert(agg_sized(empty_agg()));
    lemma_scan_on_merged(g, clean_state(empty_agg()), s);
    assert(merge_spec(g, empty_agg()) =~= g);
}

/// Splitting at a line boundary changes nothing: scanning `a + b` in one
/// pass builds exactly the merge of what two workers build scanning `a`
/// and `b` into private empty maps.
pub proof fn lemma_two_workers(a: Seq<u8>, b: Seq<u8>)
    requires
        a.len() > 0 ==> a.last() == 10u8,
        scan_from(clean_state(empty_agg()), a + b) is Ok,
    ensures
        scan_from(clean_state(empty_agg()), a) is Ok,
        scan_from(clean_state(empty_agg()), b) is Ok,
        scan_from(clean_state(empty_agg()), a + b)->Ok_0.agg == merge_spec(
            scan_from(clean_state(empty_agg()), a)->Ok_0.agg,
            scan_from(clean_state(empty_agg()), b)->Ok_0.agg,
        ),
{
    let e = clean_state(empty_agg());
    lemma_scan_from_concat(e, a, b);
    let sa = scan_from(e, a)->Ok_0;
    if a.len() > 0 {
        lemma_clean_after_newline(e, a);
    }
    assert(sa == clean_state(sa.agg));
    assert(agg_sized(empty_agg()));
    lemma_scan_on_merged(empty_agg(), e, a);
    assert(merge_spec(empty_agg(), empty_agg()) =~= empty_agg());
    assert(agg_sized(sa.agg));
    lemma_worker_merge(sa.agg, b);
}

/// Merge order does not matter: two finished local maps folded into a
/// global map in either order give the same global map.
pub proof fn lemma_merge_comm(
    g: Map<Seq<u8>, Seq<u64>>,
    a: Map<Seq<u8>, Seq<u64>>,
    b: Map<Seq<u8>, Seq<u64>>,
)
    requires
        agg_sized(g),
        agg_sized(a),
        agg_sized(b),
    ensures
        merge_spec(merge_spec(g, a), b) == merge_spec(merge_spec(g, b), a),
{
    let lhs = merge_spec(merge_spec(g, a), b);
    let rhs = merge_spec(merge_spec(g, b), a);
    assert forall|n: Seq<u8>| #[trigger] lhs.contains_key(n) implies lhs[n] == rhs[n] by {
        if g.contains_key(n) && a.contains_key(n) && b.contains_key(n) {
            assert forall|i: int| 0 <= i < 1999 implies lhs[n][i] == rhs[n][i] by {
                let x = g[n][i];
                let y = a[n][i];
                let z = b[n][i];
                assert((((x + y) as u64) + z) as u64 == (((x + z) as u64) + y) as u64)
                    by (bit_vector);
            }
            assert(lhs[n] =~= rhs[n]);
        } else if !g.contains_key(n) && a.contains_key(n) && b.contains_key(n) {
            assert forall|i: int| 0 <= i < 1999 implies lhs[n][i] == rhs[n][i] by {
                let y = a[n][i];
                let z = b[n][i];
                assert(((y + z) as u64) == ((z + y) as u64)) by (bit_vector);
            }
            assert(lhs[n] =~= rhs[n]);
        }
    }
    assert(lhs =~= rhs);
}

/// Scans one chunk into the aggregate map, as the step function states:
/// on success every byte was consumed and the map grew by the chunk's
/// records; a partial trailing line (none, when the chunk ends on a
/// newline) is dropped.
pub fn scan_chunk(agg: &mut LocalAgg, chunk: &[u8]) -> (r: Result<usize, AggError>)
    requires
        old(agg).wf(),
        old(agg).records_model() + chunk@.len() <= u64::MAX,
    ensures
        final(agg).wf(),
        final(agg).records_model() <= old(agg).records_model() + chunk@.len(),
        match scan_from(clean_state(old(agg)@), chunk@) {
            Ok(st) => r == Ok::<usize, AggError>(chunk@.len() as usize) && final(agg)@ == st.agg,
            Err(e) => r == Err::<usize, AggError>(e),
        },
{
    let ghost m0 = agg@;
    let ghost r0 = old(agg).records_model();
    let ghost st0 = clean_state(m0);
    let n = chunk.len();
    let mut name_buf: Vec<u8> = Vec::new();
    let mut value_buf: Vec<u8> = Vec::new();
    let mut before: bool = true;
    let mut i: usize = 0;
    while i < n
        invariant
            n == chunk@.len(),
            i <= n,
            agg.wf(),
            agg.records_model() <= r0 + i,
            r0 + n <= u64::MAX,
            m0 == old(agg)@,
            r0 == old(agg).records_model(),
            st0 == clean_state(m0),
            scan_from(st0, chunk@.take(i as int)) == Ok::<ScanState, AggError>(
                ScanState { name: name_buf@, value: value_buf@, before, agg: agg@ },
            ),
        decreases n - i,
    {
        let b = chunk[i];
        proof {
            lemma_scan_from_snoc(st0, chunk@.take(i as int), chunk@[i as int]);
            assert(chunk@.take(i as int + 1) =~= chunk@.take(i as int).push(chunk@[i as int]));
        }
        if b == 10 {
            match parse_temperature(value_buf.as_slice()) {
                Ok(idx) => {
                    let name = name_buf;
                    name_buf = Vec::new();
                    agg.record_one(name, idx);
                    value_buf.clear();
                    before = true;
                },
                Err(e) => {
                    proof {
                        lemma_scan_from_concat(st0, chunk@.take(i as int + 1), chunk@.skip(i as int + 1));
                        assert(chunk@.take(i as int + 1) + chunk@.skip(i as int + 1) =~= chunk@);
                    }
                    return Err(e);
                },
            }
        } else if b == 59 {
            before = false;
        } else if before {
            if name_buf.len() >= 100 {
                proof {
                    lemma_scan_from_concat(st0, chunk@.take(i as int + 1), chunk@.skip(i as int + 1));
                    assert(chunk@.take(i as int + 1) + chunk@.skip(i as int + 1) =~= chunk@);
                }
                return Err(AggError::RecordTooLarge);
            }
            name_buf.push(b);
        } else {
            if value_buf.len() >= 6 {
                proof {
                    lemma_scan_from_concat(st0, chunk@.take(i as int + 1), chunk@.skip(i as int + 1));
                    assert(chunk@.take(i as int + 1) + chunk@.skip(i as int + 1) =~= chunk@);
                }
                return Err(AggError::RecordTooLarge);
            }
            value_buf.push(b);
        }
        i += 1;
    }
    proof {
        assert(chunk@.take(n as int) =~= chunk@);
    }
    Ok(n)
}

} // verus!
