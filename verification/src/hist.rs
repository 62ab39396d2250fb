//! Fixed-bucket histograms of tenths-values.
//!
//! A histogram has 1999 counters; counter `i` counts the records whose
//! value is the tenths-value `i - 999`, so the buckets cover `[-99.9, 99.9]`
//! in steps of 0.1. Order statistics (minimum, median, maximum) are read
//! off the buckets without sorting.

use vstd::prelude::*;

verus! {

pub open spec fn zero_hist() -> Seq<u64> {
    Seq::new(1999, |i: int| 0u64)
}

/// Sum of the first `i` buckets.
pub open spec fn sum_to(h: Seq<u64>, i: int) -> int
    decreases i,
{
    if i <= 0 {
        0
    } else {
        sum_to(h, i - 1) + h[i - 1]
    }
}

/// Total record count of a histogram.
pub open spec fn hist_total(h: Seq<u64>) -> int {
    sum_to(h, h.len() as int)
}

pub proof fn lemma_sum_nonneg(h: Seq<u64>, i: int)
    requires
        i <= h.len(),
    ensures
        0 <= sum_to(h, i),
    decreases i,
{
    if i > 0 {
        lemma_sum_nonneg(h, i - 1);
    }
}

pub proof fn lemma_sum_monotone(h: Seq<u64>, i: int, j: int)
    requires
        0 <= i <= j <= h.len(),
    ensures
        sum_to(h, i) <= sum_to(h, j),
    decreases j,
{
    if i < j {
        lemma_sum_monotone(h, i, j - 1);
    }
}

pub proof fn lemma_bucket_le_sum(h: Seq<u64>, k: int, i: int)
    requires
        0 <= k < i <= h.len(),
    ensures
        h[k] <= sum_to(h, i),
    decreases i,
{
    if k == i - 1 {
        lemma_sum_nonneg(h, i - 1);
    } else {
        lemma_bucket_le_sum(h, k, i - 1);
    }
}

pub proof fn lemma_sum_update(h: Seq<u64>, k: int, v: u64, i: int)
    requires
        0 <= k < h.len(),
        i <= h.len(),
    ensures
        sum_to(h.update(k, v), i) == sum_to(h, i) + (if k < i { v - h[k] } else { 0 }),
    decreases i,
{
    if i > 0 {
        lemma_sum_update(h, k, v, i - 1);
    }
}

pub proof fn lemma_sum_zero(i: int)
    requires
        i <= 1999,
    ensures
        sum_to(zero_hist(), i) == 0,
    decreases i,
{
    if i > 0 {
        lemma_sum_zero(i - 1);
    }
}

pub proof fn lemma_sum_pos_exists(h: Seq<u64>, i: int)
    requires
        0 <= i <= h.len(),
        sum_to(h, i) > 0,
    ensures
        exists|k: int| 0 <= k < i && h[k] > 0,
    decreases i,
{
    if i > 0 && h[i - 1] == 0 {
        lemma_sum_pos_exists(h, i - 1);
    }
}

/// First bucket index `j >= i` with a nonzero count, or `h.len()` if none.
pub open spec fn first_nonzero_from(h: Seq<u64>, i: int) -> int
    decreases h.len() - i,
{
    if i < 0 || i >= h.len() {
        i
    } else if h[i] > 0 {
        i
    } else {
        first_nonzero_from(h, i + 1)
    }
}

/// Index of the first nonzero bucket: the minimum recorded value.
pub open spec fn min_index(h: Seq<u64>) -> int {
    first_nonzero_from(h, 0)
}

/// Last bucket index `j < i` with a nonzero count, or `0` if none.
pub open spec fn last_nonzero_below(h: Seq<u64>, i: int) -> int
    decreases i,
{
    if i <= 0 {
        0
    } else if h[i - 1] > 0 {
        i - 1
    } else {
        last_nonzero_below(h, i - 1)
    }
}

/// Index of the last nonzero bucket: the maximum recorded value.
pub open spec fn max_index(h: Seq<u64>) -> int {
    last_nonzero_below(h, h.len() as int)
}

/// First bucket index `j >= i` whose cumulative count exceeds `k`,
/// or `h.len()` if the total never does: the bucket holding the
/// element of rank `k` in the sorted multiset of recorded values.
pub open spec fn rank_from(h: Seq<u64>, k: int, i: int) -> int
    decreases h.len() - i,
{
    if i < 0 || i >= h.len() {
        i
    } else if sum_to(h, i + 1) > k {
        i
    } else {
        rank_from(h, k, i + 1)
    }
}

pub open spec fn rank_index(h: Seq<u64>, k: int) -> int {
    rank_from(h, k, 0)
}

/// The median tenths-value of a nonempty histogram, per the standard
/// "average the two middle elements" convention: for an odd total the
/// value of rank `total/2`; for an even total the average of the two
/// middle values, rounded up to the nearest tenth.
pub open spec fn median_tenths(h: Seq<u64>) -> int {
    let total = hist_total(h);
    let half = total / 2;
    let m = rank_index(h, half);
    if total % 2 == 1 {
        m - 999
    } else if sum_to(h, m) == half {
        (last_nonzero_below(h, m) + m + 1) / 2 - 999
    } else {
        m - 999
    }
}

/// The bucket of rank `k` is a real bucket holding rank `k`:
/// its cumulative count up to it is at most `k`, and adding it passes `k`.
pub proof fn lemma_rank_props(h: Seq<u64>, k: int, i: int)
    requires
        0 <= i <= h.len(),
        sum_to(h, i) <= k < hist_total(h),
    ensures
        i <= rank_from(h, k, i) < h.len(),
        sum_to(h, rank_from(h, k, i)) <= k,
        sum_to(h, rank_from(h, k, i) + 1) > k,
    decreases h.len() - i,
{
    if i == h.len() {
        assert(false);
    } else if sum_to(h, i + 1) > k {
    } else {
        lemma_rank_props(h, k, i + 1);
    }
}

proof fn lemma_last_nonzero_pinpoint(h: Seq<u64>, i: int, p: int)
    requires
        0 <= p < i <= h.len(),
        h[p] > 0,
        forall|j: int| p < j < i ==> h[j] == 0,
    ensures
        last_nonzero_below(h, i) == p,
    decreases i,
{
    if i - 1 > p {
        lemma_last_nonzero_pinpoint(h, i - 1, p);
    }
}

/// Median correctness: for an even total the two values averaged are
/// exactly the two middle order statistics, of ranks `total/2 - 1` and
/// `total/2`; for an odd total the median is the value of rank `total/2`.
pub proof fn lemma_median_is_middle_ranks(h: Seq<u64>)
    requires
        h.len() == 1999,
        hist_total(h) >= 1,
    ensures
        hist_total(h) % 2 == 1 ==> median_tenths(h) == rank_index(h, hist_total(h) / 2) - 999,
        hist_total(h) % 2 == 0 ==> median_tenths(h) == (rank_index(h, hist_total(h) / 2 - 1)
            + rank_index(h, hist_total(h) / 2) + 1) / 2 - 999,
{
    let total = hist_total(h);
    let half = total / 2;
    let m = rank_index(h, half);
    if total % 2 == 0 {
        assert(1 <= half < total);
        lemma_rank_props(h, half, 0);
        lemma_rank_props(h, half - 1, 0);
        let p = rank_index(h, half - 1);
        if sum_to(h, m) == half {
            // the middle ranks straddle the boundary before bucket m:
            // rank half-1 sits in the last nonzero bucket below m
            assert(p < m) by {
                if p >= m {
                    lemma_sum_monotone(h, m, p);
                }
            }
            assert(h[p] > 0) by {
                assert(sum_to(h, p + 1) == sum_to(h, p) + h[p]);
            }
            assert forall|j: int| p < j < m implies h[j] == 0 by {
                if h[j] > 0 {
                    lemma_sum_monotone(h, p + 1, j);
                    assert(sum_to(h, j + 1) == sum_to(h, j) + h[j]);
                    lemma_sum_monotone(h, j + 1, m);
                    assert(false);
                }
            }
            lemma_last_nonzero_pinpoint(h, m, p);
        } else {
            // both middle ranks lie inside bucket m
            assert(sum_to(h, m) < half);
            assert(p == m) by {
                lemma_rank_agree(h, half - 1, half, 0);
            }
        }
    }
}

/// Two ranks with the same first bucket passing them share that bucket.
proof fn lemma_rank_agree(h: Seq<u64>, k1: int, k2: int, i: int)
    requires
        0 <= i <= h.len(),
        k1 <= k2,
        sum_to(h, rank_from(h, k2, i)) <= k1,
    ensures
        rank_from(h, k1, i) == rank_from(h, k2, i),
    decreases h.len() - i,
{
    if i < h.len() {
        if sum_to(h, i + 1) > k2 {
        } else if sum_to(h, i + 1) > k1 {
            // rank k1 would stop at i, yet the k2 bucket's prefix is under k1
            let r2 = rank_from(h, k2, i + 1);
            lemma_rank_from_ge(h, k2, i + 1);
            lemma_sum_monotone(h, i + 1, r2);
            assert(false);
        } else {
            lemma_rank_agree(h, k1, k2, i + 1);
        }
    }
}

proof fn lemma_rank_from_ge(h: Seq<u64>, k: int, i: int)
    requires
        0 <= i <= h.len(),
    ensures
        i <= rank_from(h, k, i) <= h.len(),
    decreases h.len() - i,
{
    if i < h.len() && sum_to(h, i + 1) <= k {
        lemma_rank_from_ge(h, k, i + 1);
    }
}

/// A histogram of 1999 counters.
pub struct Histogram {
    counts: Vec<u64>,
}

impl View for Histogram {
    type V = Seq<u64>;

    closed spec fn view(&self) -> Seq<u64> {
        self.counts@
    }
}

impl Histogram {
    pub open spec fn wf(&self) -> bool {
        self@.len() == 1999
    }

    /// A histogram with every counter zero.
    pub fn new() -> (h: Histogram)
        ensures
            h@ == zero_hist(),
            h.wf(),
    {
        let counts: Vec<u64> = vec![0u64; 1999];
        proof {
            assert(counts@ =~= zero_hist());
        }
        Histogram { counts }
    }

    /// Adds one record with histogram index `idx`.
    pub fn bump(&mut self, idx: usize)
        requires
            old(self).wf(),
            idx < 1999,
            old(self)@[idx as int] < u64::MAX,
        ensures
            final(self).wf(),
            final(self)@ == old(self)@.update(idx as int, (old(self)@[idx as int] + 1) as u64),
    {
        let c = self.counts[idx];
        self.counts[idx] = c + 1;
    }

    /// Adds `other` to `self`, bucket by bucket.
    pub fn add(&mut self, other: &Histogram)
        requires
            old(self).wf(),
            other.wf(),
            forall|k: int| 0 <= k < 1999 ==> old(self)@[k] + other@[k] <= u64::MAX,
        ensures
            final(self).wf(),
            final(self)@ == hist_add(old(self)@, other@),
    {
        let mut k: usize = 0;
        while k < 1999
            invariant
                old(self).wf(),
                other.wf(),
                self@.len() == 1999,
                k <= 1999,
                forall|j: int| 0 <= j < 1999 ==> old(self)@[j] + other@[j] <= u64::MAX,
                forall|j: int| k <= j < 1999 ==> self@[j] == old(self)@[j],
                forall|j: int| 0 <= j < k ==> self@[j] == hist_add(old(self)@, other@)[j],
            decreases 1999 - k,
        {
            let c = self.counts[k];
            self.counts[k] = c + other.counts[k];
            k += 1;
        }
        proof {
            assert(self@ =~= hist_add(old(self)@, other@));
        }
    }

    /// The total number of records in the histogram.
    pub fn total(&self) -> (t: u64)
        requires
            self.wf(),
            hist_total(self@) <= u64::MAX,
        ensures
            t == hist_total(self@),
    {
        let mut i: usize = 0;
        let mut acc: u64 = 0;
        while i < 1999
            invariant
                self.wf(),
                i <= 1999,
                acc == sum_to(self@, i as int),
                hist_total(self@) <= u64::MAX,
            decreases 1999 - i,
        {
            proof {
                lemma_sum_monotone(self@, i as int + 1, 1999);
            }
            acc = acc + self.counts[i];
            i += 1;
        }
        acc
    }

    /// The minimum, median and maximum recorded tenths-values.
    pub fn stats(&self) -> (r: (i32, i32, i32))
        requires
            self.wf(),
            1 <= hist_total(self@) <= u64::MAX,
        ensures
            r.0 == min_index(self@) - 999,
            r.1 == median_tenths(self@),
            r.2 == max_index(self@) - 999,
            -999 <= r.0 <= 999,
            -999 <= r.1 <= 999,
            -999 <= r.2 <= 999,
    {
        let ghost h = self@;
        let total = self.total();

        // minimum: first nonzero bucket
        let mut mn: usize = 0;
        while mn < 1998 && self.counts[mn] == 0
            invariant
                self.wf(),
                h == self@,
                mn <= 1998,
                forall|j: int| 0 <= j < mn ==> h[j] == 0,
                first_nonzero_from(h, 0) == first_nonzero_from(h, mn as int),
            decreases 1998 - mn,
        {
            mn += 1;
        }
        proof {
            if h[mn as int] == 0 {
                lemma_sum_pos_exists(h, 1999);
                let k = choose|k: int| 0 <= k < 1999 && h[k] > 0;
                assert(false);
            }
            assert(first_nonzero_from(h, mn as int) == mn as int);
        }

        // maximum: last nonzero bucket
        let mut mx: usize = 1998;
        while mx > 0 && self.counts[mx] == 0
            invariant
                self.wf(),
                h == self@,
                mx <= 1998,
                forall|j: int| mx < j < 1999 ==> h[j] == 0,
                last_nonzero_below(h, 1999) == last_nonzero_below(h, mx as int + 1),
            decreases mx,
        {
            mx -= 1;
        }
        proof {
            if h[mx as int] == 0 {
                lemma_sum_pos_exists(h, 1999);
                let k = choose|k: int| 0 <= k < 1999 && h[k] > 0;
                assert(false);
            }
            assert(last_nonzero_below(h, mx as int + 1) == mx as int);
        }

        // median: walk cumulative counts to the stopping bucket
        let half = total / 2;
        let mut m: usize = 0;
        let mut prev: u64 = 0;
        let mut acc: u64 = self.counts[0];
        proof {
            assert(sum_to(h, 0) == 0);
            assert(sum_to(h, 1) == h[0]);
            lemma_sum_monotone(h, 1, 1999);
        }
        while acc <= half
            invariant
                self.wf(),
                h == self@,
                m < 1999,
                total == hist_total(h),
                1 <= total <= u64::MAX,
                half == total as int / 2,
                prev == sum_to(h, m as int),
                acc == sum_to(h, m as int + 1),
                rank_from(h, half as int, 0) == rank_from(h, half as int, m as int),
            decreases 1999 - m,
        {
            // acc <= half < total, so the stopping bucket lies strictly ahead
            proof {
                assert(total as int / 2 < total as int) by (nonlinear_arith)
                    requires total as int >= 1;
                if m as int + 1 == 1999 {
                    assert(acc == hist_total(h));
                    assert(false);
                }
            }
            m += 1;
            prev = acc;
            proof {
                lemma_sum_monotone(h, m as int + 1, 1999);
            }
            acc = acc + self.counts[m];
        }
        proof {
            assert(rank_from(h, half as int, m as int) == m as int);
        }
        let med: i32 = if total % 2 == 1 {
            m as i32 - 999
        } else if prev == half {
            // even total, split exactly at the bucket boundary: average the
            // stopping bucket with the last nonzero bucket before it
            let mut last: usize = 0;
            let mut j: usize = 0;
            while j < m
                invariant
                    self.wf(),
                    h == self@,
                    j <= m,
                    m < 1999,
                    last <= j || last == 0,
                    last == last_nonzero_below(h, j as int),
                decreases m - j,
            {
                if self.counts[j] != 0 {
                    last = j;
                }
                j += 1;
            }
            assert(last < 1999 && m < 1999);
            assert((last + m + 1) / 2 <= 1998);
            ((last + m + 1) / 2) as i32 - 999
        } else {
            m as i32 - 999
        };
        (mn as i32 - 999, med, mx as i32 - 999)
    }
}

/// Bucket-wise sum of two histograms.
pub open spec fn hist_add(a: Seq<u64>, b: Seq<u64>) -> Seq<u64> {
    Seq::new(1999, |i: int| (a[i] + b[i]) as u64)
}

pub proof fn lemma_sum_add(a: Seq<u64>, b: Seq<u64>, i: int)
    requires
        a.len() == 1999,
        b.len() == 1999,
        i <= 1999,
        forall|k: int| 0 <= k < 1999 ==> a[k] + b[k] <= u64::MAX,
    ensures
        sum_to(hist_add(a, b), i) == sum_to(a, i) + sum_to(b, i),
    decreases i,
{
    if i > 0 {
        lemma_sum_add(a, b, i - 1);
    }
}

} // verus!
