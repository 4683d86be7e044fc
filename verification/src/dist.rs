//! The distribution pipeline: brightness histogram, probability density,
//! weighting-distribution reshaping, and the cumulative density function.
//!
//! Densities are Q30 fixed-point values (see [`crate::fixed`]). The
//! weighting transform divides by `pdf_max - pdf_min + 1`, where the `+ 1`
//! is one fixed-point quantum: the epsilon that keeps a perfectly flat
//! density from dividing by zero.

use vstd::prelude::*;
use vstd::arithmetic::div_mod::{
    lemma_div_is_ordered, lemma_div_multiples_vanish, lemma_div_pos_is_pos,
};
use vstd::arithmetic::mul::lemma_mul_inequality;
use crate::fixed::{
    mul_q, mul_q_s, pow_frac, pow_frac_s, SCALE,
};

verus! {

/// The sum of a sequence of counters.
pub open spec fn sum_u64(s: Seq<u64>) -> int
    decreases s.len(),
{
    if s.len() == 0 {
        0
    } else {
        sum_u64(s.drop_last()) + s.last()
    }
}

/// How many entries of `vals` equal `x`.
pub open spec fn count_val(vals: Seq<u8>, x: int) -> int
    decreases vals.len(),
{
    if vals.len() == 0 {
        0
    } else {
        count_val(vals.drop_last(), x) + if vals.last() as int == x {
            1int
        } else {
            0int
        }
    }
}

/// The sum of a sequence of counters is non-negative.
pub proof fn lemma_sum_nonneg(s: Seq<u64>)
    ensures
        0 <= sum_u64(s),
    decreases s.len(),
{
    if s.len() > 0 {
        lemma_sum_nonneg(s.drop_last());
    }
}

/// A sequence of zero counters sums to zero.
proof fn lemma_sum_zeros(s: Seq<u64>)
    requires
        forall|i: int| 0 <= i < s.len() ==> s[i] == 0,
    ensures
        sum_u64(s) == 0,
    decreases s.len(),
{
    if s.len() > 0 {
        lemma_sum_zeros(s.drop_last());
    }
}

/// Updating one counter moves the sum by the difference.
proof fn lemma_sum_update(s: Seq<u64>, i: int, v: u64)
    requires
        0 <= i < s.len(),
    ensures
        sum_u64(s.update(i, v)) == sum_u64(s) - s[i] + v,
    decreases s.len(),
{
    if i == s.len() - 1 {
        assert(s.update(i, v).drop_last() =~= s.drop_last());
    } else {
        assert(s.update(i, v).drop_last() =~= s.drop_last().update(i, v));
        lemma_sum_update(s.drop_last(), i, v);
    }
}

/// Every counter is at most the sum of all of them.
pub proof fn lemma_elem_le_sum(s: Seq<u64>, i: int)
    requires
        0 <= i < s.len(),
    ensures
        s[i] <= sum_u64(s),
    decreases s.len(),
{
    lemma_sum_nonneg(s.drop_last());
    if i < s.len() - 1 {
        lemma_elem_le_sum(s.drop_last(), i);
    }
}

/// A value occurs at most as often as the sequence is long.
proof fn lemma_count_le_len(vals: Seq<u8>, x: int)
    ensures
        0 <= count_val(vals, x) <= vals.len(),
    decreases vals.len(),
{
    if vals.len() > 0 {
        lemma_count_le_len(vals.drop_last(), x);
    }
}

/// The law of histogram totals: the 256 occurrence counters of a sequence
/// of brightness values sum to exactly its length.
pub proof fn lemma_counts_sum_to_len(vals: Seq<u8>)
    requires
        vals.len() < 0x1_0000_0000_0000_0000,
    ensures
        sum_u64(Seq::new(256, |x: int| count_val(vals, x) as u64)) == vals.len(),
    decreases vals.len(),
{
    let hist = Seq::new(256, |x: int| count_val(vals, x) as u64);
    if vals.len() == 0 {
        lemma_sum_zeros(hist);
    } else {
        let prev = vals.drop_last();
        let v = vals.last() as int;
        lemma_counts_sum_to_len(prev);
        let ph = Seq::new(256, |x: int| count_val(prev, x) as u64);
        assert forall|x: int| 0 <= x < 256 implies hist[x] == ph.update(
            v,
            (count_val(prev, v) + 1) as u64,
        )[x] by {
            lemma_count_le_len(prev, x);
        }
        assert(hist =~= ph.update(v, (count_val(prev, v) + 1) as u64));
        lemma_count_le_len(prev, v);
        lemma_sum_update(ph, v, (count_val(prev, v) + 1) as u64);
    }
}

/// Longer prefixes of a counter sequence have larger sums.
pub proof fn lemma_sum_take_mono(s: Seq<u64>, i: int, j: int)
    requires
        0 <= i <= j <= s.len(),
    ensures
        sum_u64(s.take(i)) <= sum_u64(s.take(j)),
    decreases j - i,
{
    if i < j {
        lemma_sum_take_mono(s, i, j - 1);
        assert(s.take(j).drop_last() =~= s.take(j - 1));
    }
}

/// A histogram of brightness values: 256 counters, one per 8-bit level,
/// whose sum is exactly the number of values counted.
#[derive(Debug)]
pub struct Histogram {
    /// One counter per brightness level.
    pub counts: Vec<u64>,
    /// The number of values counted.
    pub total: u64,
}

impl Histogram {
    /// 256 counters that sum to a positive total.
    pub open spec fn wf(self) -> bool {
        &&& self.counts@.len() == 256
        &&& sum_u64(self.counts@) == self.total as int
        &&& self.total > 0
    }

    /// Counts how often each brightness level occurs in `values`.
    pub fn new(values: &Vec<u8>) -> (h: Histogram)
        requires
            values@.len() > 0,
        ensures
            h.wf(),
            h.total as int == values@.len(),
            forall|x: int| 0 <= x < 256 ==> h.counts@[x] as int == count_val(values@, x),
    {
        let mut counts: Vec<u64> = vec![0u64; 256];
        proof {
            lemma_sum_zeros(counts@);
        }
        let mut i: usize = 0;
        while i < values.len()
            invariant
                i <= values@.len(),
                counts@.len() == 256,
                sum_u64(counts@) == i,
                forall|x: int|
                    0 <= x < 256 ==> counts@[x] as int == count_val(values@.take(i as int), x),
            decreases values@.len() - i,
        {
            let ghost cs = counts@;
            let idx = values[i] as usize;
            let c = counts[idx];
            proof {
                lemma_elem_le_sum(counts@, idx as int);
            }
            counts.set(idx, c + 1);
            proof {
                lemma_sum_update(cs, idx as int, (c + 1) as u64);
                assert(values@.take(i as int + 1).drop_last() =~= values@.take(i as int));
                assert forall|x: int| 0 <= x < 256 implies counts@[x] as int == count_val(
                    values@.take(i as int + 1),
                    x,
                ) by {
                    assert(values@.take(i as int + 1).last() == values@[i as int]);
                }
            }
            i = i + 1;
        }
        proof {
            assert(values@.take(values@.len() as int) =~= values@);
        }
        Histogram { counts, total: values.len() as u64 }
    }
}

/// The probability density of a histogram: each counter divided by the
/// total, as a Q30 fixed-point sequence.
pub open spec fn spec_pdf(counts: Seq<u64>, total: int) -> Seq<u64> {
    Seq::new(256, |i: int| (counts[i] * (SCALE as int) / total) as u64)
}

/// The largest entry of a counter sequence (zero if it is empty).
pub open spec fn seq_max(s: Seq<u64>) -> int
    decreases s.len(),
{
    if s.len() == 0 {
        0
    } else if s.len() == 1 {
        s[0] as int
    } else {
        let m = seq_max(s.drop_last());
        if s.last() as int > m {
            s.last() as int
        } else {
            m
        }
    }
}

/// The smallest entry of a counter sequence (zero if it is empty).
pub open spec fn seq_min(s: Seq<u64>) -> int
    decreases s.len(),
{
    if s.len() == 0 {
        0
    } else if s.len() == 1 {
        s[0] as int
    } else {
        let m = seq_min(s.drop_last());
        if (s.last() as int) < m {
            s.last() as int
        } else {
            m
        }
    }
}

/// The weighting distribution of a density: each entry is the density
/// maximum scaled by the entry's normalized distance from the density
/// minimum, raised to the fractional power `alpha / 1024`. The normalizing
/// divisor carries one quantum of headroom, the epsilon guard.
pub open spec fn spec_weighted(pdf: Seq<u64>, alpha: nat) -> Seq<u64> {
    let mx = seq_max(pdf);
    let mn = seq_min(pdf);
    Seq::new(
        256,
        |i: int|
            mul_q_s(
                mx,
                pow_frac_s((pdf[i] - mn) * (SCALE as int) / (mx - mn + 1), alpha),
            ) as u64,
    )
}

/// A probability density or weighting distribution over the 256 brightness
/// levels, in Q30 fixed point.
#[derive(Debug)]
pub struct Pdf(pub Vec<u64>);

impl Pdf {
    /// 256 fixed-point entries, each at most one.
    pub open spec fn wf(self) -> bool {
        &&& self.0@.len() == 256
        &&& forall|i: int| 0 <= i < 256 ==> self.0@[i] <= SCALE
    }

    /// Normalizes a histogram into a probability density.
    pub fn new(h: &Histogram) -> (pdf: Pdf)
        requires
            h.wf(),
        ensures
            pdf.wf(),
            pdf.0@ == spec_pdf(h.counts@, h.total as int),
    {
        let mut v: Vec<u64> = Vec::new();
        let mut i: usize = 0;
        while i < 256
            invariant
                h.wf(),
                i <= 256,
                v@.len() == i,
                forall|j: int|
                    0 <= j < i ==> v@[j] as int == h.counts@[j] * (SCALE as int) / (
                    h.total as int),
                forall|j: int| 0 <= j < i ==> v@[j] <= SCALE,
            decreases 256 - i,
        {
            let c = h.counts[i];
            proof {
                lemma_elem_le_sum(h.counts@, i as int);
                lemma_mul_inequality(c as int, h.total as int, SCALE as int);
                lemma_div_is_ordered(
                    c as int * (SCALE as int),
                    h.total as int * (SCALE as int),
                    h.total as int,
                );
                lemma_div_multiples_vanish(SCALE as int, h.total as int);
                lemma_div_pos_is_pos(c as int * (SCALE as int), h.total as int);
            }
            let val = ((c as u128) * (SCALE as u128) / (h.total as u128)) as u64;
            v.push(val);
            i = i + 1;
        }
        proof {
            assert(v@ =~= spec_pdf(h.counts@, h.total as int));
        }
        Pdf(v)
    }

    /// Reshapes the density with the weighting distribution controlled by
    /// `alpha`, in units of 1/1024.
    pub fn to_weighting_distribution(&self, alpha: u16) -> (w: Pdf)
        requires
            self.wf(),
        ensures
            w.wf(),
            w.0@ == spec_weighted(self.0@, alpha as nat),
    {
        let s = &self.0;
        let mut mx: u64 = s[0];
        let mut mn: u64 = s[0];
        let mut i: usize = 1;
        while i < 256
            invariant
                self.wf(),
                s == &self.0,
                1 <= i <= 256,
                mx as int == seq_max(s@.take(i as int)),
                mn as int == seq_min(s@.take(i as int)),
                mn <= mx <= SCALE,
            decreases 256 - i,
        {
            proof {
                assert(s@.take(i as int + 1).drop_last() =~= s@.take(i as int));
            }
            let x = s[i];
            if x > mx {
                mx = x;
            }
            if x < mn {
                mn = x;
            }
            i = i + 1;
        }
        proof {
            assert(s@.take(256) =~= s@);
        }

        let range = mx - mn + 1;
        let mut v: Vec<u64> = Vec::new();
        let mut i: usize = 0;
        while i < 256
            invariant
                self.wf(),
                i <= 256,
                mx as int == seq_max(s@),
                mn as int == seq_min(s@),
                mn <= mx <= SCALE,
                range as int == mx as int - mn as int + 1,
                s == &self.0,
                v@.len() == i,
                forall|j: int|
                    0 <= j < i ==> v@[j] as int == mul_q_s(
                        mx as int,
                        pow_frac_s(
                            (s@[j] - mn as int) * (SCALE as int) / (range as int),
                            alpha as nat,
                        ),
                    ),
                forall|j: int| 0 <= j < i ==> v@[j] <= SCALE,
            decreases 256 - i,
        {
            let x = s[i];
            proof {
                lemma_seq_min_le(s@, i as int);
                lemma_seq_max_ge(s@, i as int);
                lemma_mul_inequality(
                    x as int - mn as int,
                    range as int,
                    SCALE as int,
                );
                lemma_div_is_ordered(
                    (x as int - mn as int) * (SCALE as int),
                    range as int * (SCALE as int),
                    range as int,
                );
                lemma_div_multiples_vanish(SCALE as int, range as int);
                lemma_div_pos_is_pos((x as int - mn as int) * (SCALE as int), range as int);
            }
            let ratio = (((x - mn) as u128) * (SCALE as u128) / (range as u128)) as u64;
            let p = pow_frac(ratio, alpha);
            let wi = mul_q(mx, p);
            v.push(wi);
            i = i + 1;
        }
        proof {
            assert(v@ =~= spec_weighted(self.0@, alpha as nat));
        }
        Pdf(v)
    }
}

/// Every entry is at most the sequence maximum.
pub proof fn lemma_seq_max_ge(s: Seq<u64>, i: int)
    requires
        0 <= i < s.len(),
    ensures
        s[i] as int <= seq_max(s),
    decreases s.len(),
{
    if s.len() > 1 && i < s.len() - 1 {
        lemma_seq_max_ge(s.drop_last(), i);
    }
}

/// Every entry is at least the sequence minimum.
pub proof fn lemma_seq_min_le(s: Seq<u64>, i: int)
    requires
        0 <= i < s.len(),
    ensures
        seq_min(s) <= s[i] as int,
    decreases s.len(),
{
    if s.len() > 1 && i < s.len() - 1 {
        lemma_seq_min_le(s.drop_last(), i);
    }
}

/// The cumulative density over the 256 brightness levels: each prefix sum
/// of the weighting distribution, normalized so the last entry is exactly
/// one. A weighting distribution that sums to zero carries no information;
/// it normalizes to the uniform cumulative density.
pub open spec fn spec_cdf(w: Seq<u64>) -> Seq<u64> {
    let total = sum_u64(w);
    if total == 0 {
        Seq::new(256, |i: int| ((i + 1) * (SCALE as int) / 256) as u64)
    } else {
        Seq::new(256, |i: int| (sum_u64(w.take(i + 1)) * (SCALE as int) / total) as u64)
    }
}

/// A cumulative density function over the 256 brightness levels, in Q30
/// fixed point: non-decreasing, and ending at exactly one.
#[derive(Debug)]
pub struct Cdf(pub Vec<u64>);

impl Cdf {
    /// 256 non-decreasing fixed-point entries ending at exactly one.
    pub open spec fn wf(self) -> bool {
        &&& self.0@.len() == 256
        &&& forall|i: int| 0 <= i < 256 ==> self.0@[i] <= SCALE
        &&& forall|i: int| 0 <= i < 255 ==> #[trigger] self.0@[i] <= self.0@[i + 1]
        &&& self.0@[255] == SCALE
    }

    /// Integrates a weighting distribution and normalizes it by its final
    /// running sum, so the cumulative density is non-decreasing and ends at
    /// exactly one.
    pub fn new(w: &Pdf) -> (cdf: Cdf)
        requires
            w.wf(),
        ensures
            cdf.wf(),
            cdf.0@ == spec_cdf(w.0@),
    {
        let s = &w.0;
        let mut prefix: Vec<u64> = Vec::new();
        let mut sum: u64 = 0;
        let mut i: usize = 0;
        while i < 256
            invariant
                w.wf(),
                s == &w.0,
                i <= 256,
                prefix@.len() == i,
                sum as int == sum_u64(s@.take(i as int)),
                sum as int <= i * (SCALE as int),
                forall|j: int| 0 <= j < i ==> prefix@[j] as int == sum_u64(s@.take(j + 1)),
            decreases 256 - i,
        {
            proof {
                assert(s@.take(i as int + 1).drop_last() =~= s@.take(i as int));
                lemma_sum_nonneg(s@.take(i as int));
            }
            sum = sum + s[i];
            prefix.push(sum);
            i = i + 1;
        }
        proof {
            assert(s@.take(256) =~= s@);
        }
        let total = sum;

        let mut v: Vec<u64> = Vec::new();
        if total == 0 {
            let mut i: usize = 0;
            while i < 256
                invariant
                    i <= 256,
                    v@.len() == i,
                    forall|j: int|
                        0 <= j < i ==> v@[j] as int == (j + 1) * (SCALE as int) / 256,
                    forall|j: int| 0 <= j < i ==> v@[j] <= SCALE,
                decreases 256 - i,
            {
                proof {
                    lemma_mul_inequality(i as int + 1, 256, SCALE as int);
                    lemma_div_is_ordered(
                        (i as int + 1) * (SCALE as int),
                        256 * (SCALE as int),
                        256,
                    );
                    lemma_div_multiples_vanish(SCALE as int, 256);
                    lemma_div_pos_is_pos((i as int + 1) * (SCALE as int), 256);
                }
                let val = (i as u64 + 1) * SCALE / 256;
                v.push(val);
                i = i + 1;
            }
            proof {
                assert(v@ =~= spec_cdf(s@));
                lemma_div_multiples_vanish(SCALE as int, 256);
                assert forall|i: int| 0 <= i < 255 implies #[trigger] v@[i] <= v@[i + 1] by {
                    lemma_div_is_ordered(
                        (i + 1) * (SCALE as int),
                        (i + 2) * (SCALE as int),
                        256,
                    );
                }
            }
        } else {
            let mut i: usize = 0;
            while i < 256
                invariant
                    w.wf(),
                    s == &w.0,
                    0 < total,
                    total as int == sum_u64(s@),
                    i <= 256,
                    prefix@.len() == 256,
                    forall|j: int| 0 <= j < 256 ==> prefix@[j] as int == sum_u64(s@.take(j + 1)),
                    v@.len() == i,
                    forall|j: int|
                        0 <= j < i ==> v@[j] as int == sum_u64(s@.take(j + 1)) * (SCALE as int)
                            / (total as int),
                    forall|j: int| 0 <= j < i ==> v@[j] <= SCALE,
                decreases 256 - i,
            {
                let p = prefix[i];
                proof {
                    lemma_sum_take_mono(s@, i as int + 1, 256);
                    assert(s@.take(256) =~= s@);
                    lemma_sum_nonneg(s@.take(i as int + 1));
                    lemma_mul_inequality(p as int, total as int, SCALE as int);
                    lemma_div_is_ordered(
                        p as int * (SCALE as int),
                        total as int * (SCALE as int),
                        total as int,
                    );
                    lemma_div_multiples_vanish(SCALE as int, total as int);
                    lemma_div_pos_is_pos(p as int * (SCALE as int), total as int);
                }
                let val = ((p as u128) * (SCALE as u128) / (total as u128)) as u64;
                v.push(val);
                i = i + 1;
            }
            proof {
                assert(v@ =~= spec_cdf(s@));
                assert forall|i: int| 0 <= i < 255 implies #[trigger] v@[i] <= v@[i + 1] by {
                    lemma_sum_take_mono(s@, i + 1, i + 2);
                    lemma_sum_nonneg(s@.take(i + 1));
                    assert(sum_u64(s@.take(i + 1)) * (SCALE as int) <= sum_u64(s@.take(i + 2))
                        * (SCALE as int)) by (nonlinear_arith)
                        requires
                            0 <= sum_u64(s@.take(i + 1)) <= sum_u64(s@.take(i + 2)),
                    ;
                    lemma_div_is_ordered(
                        sum_u64(s@.take(i + 1)) * (SCALE as int),
                        sum_u64(s@.take(i + 2)) * (SCALE as int),
                        total as int,
                    );
                }
                assert(s@.take(256) =~= s@);
                lemma_div_multiples_vanish(SCALE as int, total as int);
                assert(v@[255] as int == total as int * (SCALE as int) / (total as int));
                assert(total as int * (SCALE as int) / (total as int) == SCALE as int);
            }
        }
        Cdf(v)
    }
}

} // verus!
