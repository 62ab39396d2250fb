//! The statistics finalizer: sorted, formatted output.
//!
//! Every name of a finished aggregate map is listed exactly once, in
//! strictly ascending byte-wise order, as `name=min/median/max` with one
//! fractional digit each, the entries joined by `", "`.

use vstd::prelude::*;

use crate::hist::{max_index, median_tenths, min_index, Histogram};
use crate::parse::{fmt_tenths, format_tenths};
use crate::table::{name_set, LocalAgg};

verus! {

/// Strict byte-wise lexicographic order on byte sequences.
pub open spec fn lex_lt(a: Seq<u8>, b: Seq<u8>) -> bool
    decreases a.len(),
{
    if b.len() == 0 {
        false
    } else if a.len() == 0 {
        true
    } else if a[0] < b[0] {
        true
    } else if a[0] > b[0] {
        false
    } else {
        lex_lt(a.drop_first(), b.drop_first())
    }
}

pub proof fn lemma_lex_irrefl(a: Seq<u8>)
    ensures
        !lex_lt(a, a),
    decreases a.len(),
{
    if a.len() > 0 {
        lemma_lex_irrefl(a.drop_first());
    }
}

pub proof fn lemma_lex_connected(a: Seq<u8>, b: Seq<u8>)
    requires
        a != b,
    ensures
        lex_lt(a, b) || lex_lt(b, a),
    decreases a.len(),
{
    if a.len() == 0 && b.len() == 0 {
        assert(a =~= b);
    } else if a.len() > 0 && b.len() > 0 && a[0] == b[0] {
        if a.drop_first() == b.drop_first() {
            assert(a.drop_first().len() == a.len() - 1);
            assert(b.drop_first().len() == b.len() - 1);
            assert(a.len() == b.len());
            assert forall|i: int| 0 <= i < a.len() implies a[i] == b[i] by {
                if i > 0 {
                    assert(a.drop_first()[i - 1] == a[i]);
                    assert(b.drop_first()[i - 1] == b[i]);
                }
            }
            assert(a =~= b);
        }
        lemma_lex_connected(a.drop_first(), b.drop_first());
    }
}

pub proof fn lemma_lex_asym(a: Seq<u8>, b: Seq<u8>)
    requires
        lex_lt(a, b),
    ensures
        !lex_lt(b, a),
    decreases a.len(),
{
    if a.len() > 0 && b.len() > 0 && a[0] == b[0] {
        lemma_lex_asym(a.drop_first(), b.drop_first());
    }
}

pub proof fn lemma_lex_trans(a: Seq<u8>, b: Seq<u8>, c: Seq<u8>)
    requires
        lex_lt(a, b),
        lex_lt(b, c),
    ensures
        lex_lt(a, c),
    decreases a.len(),
{
    if a.len() > 0 && b.len() > 0 && c.len() > 0 && a[0] == b[0] && b[0] == c[0] {
        lemma_lex_trans(a.drop_first(), b.drop_first(), c.drop_first());
    }
}

/// Byte-wise comparison of two names.
pub fn lex_less(a: &Vec<u8>, b: &Vec<u8>) -> (r: bool)
    ensures
        r == lex_lt(a@, b@),
{
    let an = a.len();
    let bn = b.len();
    let mut i: usize = 0;
    proof {
        assert(a@.skip(0) =~= a@);
        assert(b@.skip(0) =~= b@);
    }
    while i < an && i < bn
        invariant
            an == a@.len(),
            bn == b@.len(),
            i <= an,
            i <= bn,
            lex_lt(a@, b@) == lex_lt(a@.skip(i as int), b@.skip(i as int)),
        decreases an - i,
    {
        proof {
            assert(a@.skip(i as int)[0] == a@[i as int]);
            assert(b@.skip(i as int)[0] == b@[i as int]);
            assert(a@.skip(i as int).drop_first() =~= a@.skip(i as int + 1));
            assert(b@.skip(i as int).drop_first() =~= b@.skip(i as int + 1));
        }
        if a[i] < b[i] {
            return true;
        }
        if a[i] > b[i] {
            return false;
        }
        i += 1;
    }
    proof {
        assert(a@.skip(i as int).len() == an - i);
        assert(b@.skip(i as int).len() == bn - i);
    }
    an < bn
}

/// Names in strictly ascending byte-wise order, so no duplicates.
pub open spec fn sorted_names(s: Seq<Vec<u8>>) -> bool {
    forall|i: int, j: int| 0 <= i < j < s.len() ==> lex_lt(s[i]@, s[j]@)
}

pub open spec fn strictly_sorted(ks: Seq<Seq<u8>>) -> bool {
    forall|i: int, j: int| 0 <= i < j < ks.len() ==> lex_lt(ks[i], ks[j])
}

/// Idempotent sort: two strictly sorted listings of the same names are
/// the same listing — the output order is unique.
pub proof fn lemma_sorted_names_unique(a: Seq<Seq<u8>>, b: Seq<Seq<u8>>)
    requires
        strictly_sorted(a),
        strictly_sorted(b),
        forall|n: Seq<u8>| a.contains(n) <==> b.contains(n),
    ensures
        a == b,
    decreases a.len(),
{
    if a.len() == 0 {
        if b.len() > 0 {
            assert(b.contains(b[0]));
            assert(a.contains(b[0]));
        }
        assert(a =~= b);
    } else if b.len() == 0 {
        assert(a.contains(a[0]));
        assert(b.contains(a[0]));
    } else {
        assert(a.contains(a[0]));
        assert(b.contains(b[0]));
        let j = choose|j: int| 0 <= j < b.len() && b[j] == a[0];
        let k = choose|k: int| 0 <= k < a.len() && a[k] == b[0];
        if j > 0 && k > 0 {
            assert(lex_lt(b[0], b[j]));
            assert(lex_lt(a[0], a[k]));
            lemma_lex_asym(a[0], b[0]);
            assert(false);
        }
        assert(a[0] == b[0]);
        let a1 = a.drop_first();
        let b1 = b.drop_first();
        assert forall|n: Seq<u8>| a1.contains(n) implies b1.contains(n) by {
            let i = choose|i: int| 0 <= i < a1.len() && a1[i] == n;
            assert(a[i + 1] == n);
            assert(a.contains(n));
            let p = choose|p: int| 0 <= p < b.len() && b[p] == n;
            assert(lex_lt(a[0], a[i + 1]));
            lemma_lex_irrefl(n);
            assert(p != 0);
            assert(b1[p - 1] == n);
        }
        assert forall|n: Seq<u8>| b1.contains(n) implies a1.contains(n) by {
            let i = choose|i: int| 0 <= i < b1.len() && b1[i] == n;
            assert(b[i + 1] == n);
            assert(b.contains(n));
            let p = choose|p: int| 0 <= p < a.len() && a[p] == n;
            assert(lex_lt(b[0], b[i + 1]));
            lemma_lex_irrefl(n);
            assert(p != 0);
            assert(a1[p - 1] == n);
        }
        assert(strictly_sorted(a1)) by {
            assert forall|i: int, j: int| 0 <= i < j < a1.len() implies lex_lt(a1[i], a1[j]) by {
                assert(a1[i] == a[i + 1] && a1[j] == a[j + 1]);
            }
        }
        assert(strictly_sorted(b1)) by {
            assert forall|i: int, j: int| 0 <= i < j < b1.len() implies lex_lt(b1[i], b1[j]) by {
                assert(b1[i] == b[i + 1] && b1[j] == b[j + 1]);
            }
        }
        lemma_sorted_names_unique(a1, b1);
        assert forall|i: int| 0 <= i < a.len() implies a[i] == b[i] by {
            if i > 0 {
                assert(a1[i - 1] == a[i]);
                assert(b1[i - 1] == b[i]);
            }
        }
        assert(a =~= b);
    }
}

proof fn lemma_name_set_insert(s: Seq<Vec<u8>>, pos: int, x: Vec<u8>)
    requires
        0 <= pos <= s.len(),
    ensures
        name_set(s.insert(pos, x)) == name_set(s).insert(x@),
{
    let t = s.insert(pos, x);
    s.insert_ensures(pos, x);
    assert forall|n: Seq<u8>| name_set(t).contains(n) implies name_set(s).insert(x@).contains(
        n,
    ) by {
        let i = choose|i: int| 0 <= i < t.len() && t[i]@ == n;
        if i < pos {
            assert(s[i]@ == n);
        } else if i > pos {
            assert(s[i - 1]@ == n);
        }
    }
    assert forall|n: Seq<u8>| name_set(s).insert(x@).contains(n) implies name_set(t).contains(
        n,
    ) by {
        if n == x@ {
            assert(t[pos]@ == n);
        } else {
            let i = choose|i: int| 0 <= i < s.len() && s[i]@ == n;
            if i < pos {
                assert(t[i]@ == n);
            } else {
                assert(t[i + 1]@ == n);
            }
        }
    }
    assert(name_set(t) =~= name_set(s).insert(x@));
}

proof fn lemma_name_set_unskip(s: Seq<Vec<u8>>, k: int)
    requires
        0 < k <= s.len(),
    ensures
        name_set(s.skip(k - 1)) == name_set(s.skip(k)).insert(s[k - 1]@),
{
    let t = s.skip(k - 1);
    let u = s.skip(k);
    assert forall|n: Seq<u8>| name_set(t).contains(n) implies name_set(u).insert(s[k - 1]@)
        .contains(n) by {
        let i = choose|i: int| 0 <= i < t.len() && t[i]@ == n;
        if i > 0 {
            assert(u[i - 1]@ == n);
        }
    }
    assert forall|n: Seq<u8>| name_set(u).insert(s[k - 1]@).contains(n) implies name_set(t)
        .contains(n) by {
        if n == s[k - 1]@ {
            assert(t[0]@ == n);
        } else {
            let i = choose|i: int| 0 <= i < u.len() && u[i]@ == n;
            assert(t[i + 1]@ == n);
        }
    }
    assert(name_set(t) =~= name_set(u).insert(s[k - 1]@));
}

/// Sorts names into strictly ascending byte-wise order.
pub fn sort_names(names: Vec<Vec<u8>>) -> (r: Vec<Vec<u8>>)
    requires
        forall|i: int, j: int| 0 <= i < j < names@.len() ==> names@[i]@ != names@[j]@,
    ensures
        sorted_names(r@),
        name_set(r@) == name_set(names@),
{
    let ghost names0 = names@;
    let mut rem = names;
    let mut out: Vec<Vec<u8>> = Vec::new();
    proof {
        assert(names0.take(names0.len() as int) =~= names0);
        assert(name_set(out@) =~= name_set(names0.skip(names0.len() as int)));
    }
    while rem.len() > 0
        invariant
            forall|i: int, j: int| 0 <= i < j < names0.len() ==> names0[i]@ != names0[j]@,
            rem@.len() <= names0.len(),
            rem@ == names0.take(rem@.len() as int),
            sorted_names(out@),
            name_set(out@) == name_set(names0.skip(rem@.len() as int)),
        decreases rem@.len(),
    {
        let ghost k = rem@.len() as int;
        let x = match rem.pop() {
            Some(x) => x,
            None => Vec::new(),
        };
        proof {
            assert(x == names0.take(k)[k - 1]);
            assert(x == names0[k - 1]);
            assert(names0.take(k).drop_last() =~= names0.take(k - 1));
            if name_set(out@).contains(x@) {
                let i = choose|i: int|
                    0 <= i < names0.skip(k).len() && names0.skip(k)[i]@ == x@;
                assert(names0[k + i]@ == names0[k - 1]@);
                assert(false);
            }
        }
        let n_out = out.len();
        let mut pos: usize = 0;
        while pos < n_out && lex_less(&out[pos], &x)
            invariant
                n_out == out@.len(),
                pos <= n_out,
                forall|j: int| 0 <= j < pos ==> lex_lt(out@[j]@, x@),
            decreases n_out - pos,
        {
            pos += 1;
        }
        proof {
            if pos < out@.len() {
                assert(name_set(out@).contains(out@[pos as int]@));
                assert(out@[pos as int]@ != x@);
                lemma_lex_connected(x@, out@[pos as int]@);
            }
            assert forall|j: int| pos <= j < out@.len() implies lex_lt(x@, out@[j]@) by {
                if j > pos {
                    lemma_lex_trans(x@, out@[pos as int]@, out@[j]@);
                }
            }
        }
        let ghost out_pre = out@;
        out.insert(pos, x);
        proof {
            out_pre.insert_ensures(pos as int, x);
            assert forall|i: int, j: int| 0 <= i < j < out@.len() implies lex_lt(
                out@[i]@,
                out@[j]@,
            ) by {
                if j < pos {
                } else if j == pos {
                    assert(out@[i] == out_pre[i]);
                } else {
                    if i < pos {
                        assert(out@[i] == out_pre[i] && out@[j] == out_pre[j - 1]);
                    } else if i == pos {
                        assert(out@[j] == out_pre[j - 1]);
                    } else {
                        assert(out@[i] == out_pre[i - 1] && out@[j] == out_pre[j - 1]);
                    }
                }
            }
            lemma_name_set_insert(out_pre, pos as int, x);
            lemma_name_set_unskip(names0, k);
        }
    }
    proof {
        assert(names0.skip(0) =~= names0);
    }
    out
}

/// One output entry: `name=min/median/max`.
pub open spec fn entry_bytes(name: Seq<u8>, h: Seq<u64>) -> Seq<u8> {
    name + seq![61u8] + fmt_tenths(min_index(h) - 999) + seq![47u8] + fmt_tenths(median_tenths(h))
        + seq![47u8] + fmt_tenths(max_index(h) - 999)
}

/// The entries for the given names in the given order, joined by `", "`.
pub open spec fn rendered(m: Map<Seq<u8>, Seq<u64>>, ks: Seq<Seq<u8>>) -> Seq<u8>
    decreases ks.len(),
{
    if ks.len() == 0 {
        Seq::empty()
    } else if ks.len() == 1 {
        entry_bytes(ks[0], m[ks[0]])
    } else {
        entry_bytes(ks[0], m[ks[0]]) + seq![44u8, 32u8] + rendered(m, ks.drop_first())
    }
}

/// The output for an aggregate map: its names listed in strictly
/// ascending byte-wise order, every name exactly once, each entry
/// holding that name's statistics.
pub open spec fn is_render_of(out: Seq<u8>, m: Map<Seq<u8>, Seq<u64>>) -> bool {
    exists|ks: Seq<Seq<u8>>|
        #![auto]
        strictly_sorted(ks) && (forall|i: int| 0 <= i < ks.len() ==> m.contains_key(ks[i])) && (
        forall|n: Seq<u8>| m.contains_key(n) ==> ks.contains(n)) && out == rendered(m, ks)
}

/// Renders a finished aggregate map.
pub fn render(agg: LocalAgg) -> (out: Vec<u8>)
    requires
        agg.wf(),
    ensures
        is_render_of(out@, agg@),
{
    let ghost m0 = agg@;
    let mut agg = agg;
    let names = agg.keys();
    let sorted = sort_names(names);
    let ghost ks = sorted@.map_values(|v: Vec<u8>| v@);
    proof {
        assert forall|i: int, j: int| 0 <= i < j < ks.len() implies lex_lt(ks[i], ks[j]) by {
            assert(ks[i] == sorted@[i]@ && ks[j] == sorted@[j]@);
        }
        assert forall|i: int| 0 <= i < ks.len() implies m0.contains_key(ks[i]) by {
            assert(name_set(sorted@).contains(sorted@[i]@));
            let p = choose|p: int| 0 <= p < names@.len() && names@[p]@ == sorted@[i]@;
        }
        assert forall|n: Seq<u8>| m0.contains_key(n) implies ks.contains(n) by {
            let p = choose|p: int| 0 <= p < names@.len() && names@[p]@ == n;
            assert(name_set(names@).contains(n));
            let q = choose|q: int| 0 <= q < sorted@.len() && sorted@[q]@ == n;
            assert(ks[q] == n);
        }
    }
    let n_names = sorted.len();
    let mut out: Vec<u8> = Vec::new();
    let mut i: usize = 0;
    proof {
        assert(ks.skip(0) =~= ks);
        assert(out@ + rendered(m0, ks) =~= rendered(m0, ks));
    }
    while i < n_names
        invariant
            n_names == sorted@.len(),
            i <= n_names,
            ks == sorted@.map_values(|v: Vec<u8>| v@),
            agg.wf(),
            forall|i2: int, j2: int| 0 <= i2 < j2 < ks.len() ==> lex_lt(ks[i2], ks[j2]),
            forall|j: int| i <= j < ks.len() ==> #[trigger] agg@.contains_key(ks[j]) && agg@[ks[j]]
                == m0[ks[j]],
            rendered(m0, ks) == out@ + rendered(m0, ks.skip(i as int)),
        decreases n_names - i,
    {
        let name = &sorted[i];
        proof {
            assert(agg@.contains_key(ks[i as int]));
        }
        let h = match agg.take_hist(name) {
            Some(h) => h,
            None => Histogram::new(),
        };
        proof {
            assert(h@ == m0[ks[i as int]]);
            assert(crate::hist::hist_total(h@) <= agg.records_model());
        }
        let (mn, md, mx) = h.stats();
        let ghost base = out@;
        let mut j: usize = 0;
        let name_len = name.len();
        while j < name_len
            invariant
                name_len == name@.len(),
                j <= name_len,
                out@ == base + name@.take(j as int),
            decreases name_len - j,
        {
            out.push(name[j]);
            proof {
                assert(name@.take(j as int).push(name@[j as int]) =~= name@.take(j as int + 1));
                assert(out@ =~= base + name@.take(j as int + 1));
            }
            j += 1;
        }
        proof {
            assert(name@.take(name_len as int) =~= name@);
        }
        out.push(61);
        let mut f1 = format_tenths(mn);
        out.append(&mut f1);
        out.push(47);
        let mut f2 = format_tenths(md);
        out.append(&mut f2);
        out.push(47);
        let mut f3 = format_tenths(mx);
        out.append(&mut f3);
        proof {
            let h0 = m0[ks[i as int]];
            assert(out@ =~= base + entry_bytes(ks[i as int], h0));
        }
        if i + 1 < n_names {
            out.push(44);
            out.push(32);
        }
        proof {
            let tail = ks.skip(i as int);
            assert(tail[0] == ks[i as int]);
            assert(tail.drop_first() =~= ks.skip(i as int + 1));
            if i + 1 < n_names {
                assert(out@ =~= (base + entry_bytes(ks[i as int], m0[ks[i as int]])) + seq![
                    44u8,
                    32u8,
                ]);
                assert(base + rendered(m0, tail) =~= out@ + rendered(m0, ks.skip(i as int + 1)));
            } else {
                assert(tail.len() == 1);
                assert(rendered(m0, tail) == entry_bytes(ks[i as int], m0[ks[i as int]]));
                assert(ks.skip(i as int + 1).len() == 0);
                assert(base + rendered(m0, tail) =~= out@ + rendered(m0, ks.skip(i as int + 1)));
            }
            assert forall|j2: int| i + 1 <= j2 < ks.len() implies #[trigger] agg@.contains_key(
                ks[j2],
            ) && agg@[ks[j2]] == m0[ks[j2]] by {
                assert(lex_lt(ks[i as int], ks[j2]));
                lemma_lex_irrefl(ks[j2]);
            }
        }
        i += 1;
    }
    proof {
        assert(ks.skip(n_names as int).len() == 0);
        assert(rendered(m0, ks.skip(n_names as int)) =~= Seq::<u8>::empty());
        assert(out@ + Seq::<u8>::empty() =~= out@);
        assert(out@ == rendered(m0, ks));
        assert(strictly_sorted(ks));
        assert(forall|i2: int| 0 <= i2 < ks.len() ==> m0.contains_key(ks[i2]));
        assert(forall|n: Seq<u8>| m0.contains_key(n) ==> ks.contains(n));
        assert(is_render_of(out@, m0));
    }
    out
}

} // verus!
