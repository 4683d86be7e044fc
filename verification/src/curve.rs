//! The intensity transformation curve: the 256-entry gamma lookup table
//! derived from a cumulative density function.
//!
//! Entry `i` is `255 * (i / 255) ^ (1 - cdf[i])`, rounded to nearest: where
//! the cumulative density is still low the exponent is close to one and the
//! level is boosted strongly, and where it approaches one the exponent
//! approaches zero. The table is provably non-decreasing and starts at zero.

use vstd::prelude::*;
use vstd::arithmetic::div_mod::{
    lemma_basic_div, lemma_div_is_ordered, lemma_div_multiples_vanish, lemma_div_pos_is_pos,
    lemma_fundamental_div_mod_converse_div,
};
use vstd::arithmetic::mul::lemma_mul_inequality;
use crate::dist::Cdf;
use crate::fixed::{
    lemma_pow_frac_anti_exp, lemma_pow_frac_bounds, lemma_pow_frac_mono_base, pow_frac,
    pow_frac_s, SCALE,
};

verus! {

/// The per-level gamma exponent of a cumulative density entry, on the
/// 1/1024 exponent grid, rounded to nearest: `1 - cdf[i]`.
pub open spec fn spec_exponent(c: int) -> int {
    (((SCALE as int) - c) * 1024 + (SCALE as int) / 2) / (SCALE as int)
}

/// Entry `i` of the gamma table for a cumulative density: the level scaled
/// to a fixed-point base `i / 255`, raised to the per-level exponent, and
/// scaled back to an 8-bit level, rounded to nearest.
pub open spec fn spec_curve_at(cdf: Seq<u64>, i: int) -> int {
    let base = i * (SCALE as int) / 255;
    let k = spec_exponent(cdf[i] as int);
    (255 * pow_frac_s(base, k as nat) + (SCALE as int) / 2) / (SCALE as int)
}

/// The whole 256-entry gamma table of a cumulative density.
pub open spec fn spec_curve(cdf: Seq<u64>) -> Seq<u8> {
    Seq::new(256, |i: int| spec_curve_at(cdf, i) as u8)
}

/// The 256-entry lookup table mapping an input brightness level to its
/// gamma-corrected output level.
#[derive(Debug)]
pub struct IntensityTransformationCurve {
    /// The output level for each input level.
    pub table: Vec<u8>,
}

impl IntensityTransformationCurve {
    /// One output level per 8-bit input level.
    pub open spec fn wf(self) -> bool {
        self.table@.len() == 256
    }

    /// Builds the gamma table of a cumulative density. The table starts at
    /// zero and is non-decreasing: the base grows with the level while the
    /// exponent shrinks with the non-decreasing cumulative density, and the
    /// fixed-point power is monotone in both.
    pub fn new(cdf: &Cdf) -> (curve: IntensityTransformationCurve)
        requires
            cdf.wf(),
        ensures
            curve.wf(),
            curve.table@ == spec_curve(cdf.0@),
            curve.table@[0] == 0,
            forall|i: int| 0 <= i < 255 ==> #[trigger] curve.table@[i] <= curve.table@[i + 1],
    {
        let mut table: Vec<u8> = Vec::new();
        let mut i: usize = 0;
        while i < 256
            invariant
                cdf.wf(),
                i <= 256,
                table@.len() == i,
                forall|j: int| 0 <= j < i ==> table@[j] as int == spec_curve_at(cdf.0@, j),
            decreases 256 - i,
        {
            let c = cdf.0[i];
            proof {
                lemma_div_is_ordered(
                    ((SCALE as int) - c as int) * 1024 + (SCALE as int) / 2,
                    (SCALE as int) * 1025 - 1,
                    SCALE as int,
                );
                lemma_fundamental_div_mod_converse_div(
                    (SCALE as int) * 1025 - 1,
                    SCALE as int,
                    1024,
                    (SCALE as int) - 1,
                );
                lemma_div_pos_is_pos(((SCALE as int) - c as int) * 1024 + (SCALE as int) / 2, SCALE as int);
            }
            let k = (((SCALE - c) * 1024 + SCALE / 2) / SCALE) as u16;
            proof {
                lemma_mul_inequality(i as int, 255, SCALE as int);
                lemma_div_is_ordered(i as int * (SCALE as int), 255 * (SCALE as int), 255);
                lemma_div_multiples_vanish(SCALE as int, 255);
                lemma_div_pos_is_pos(i as int * (SCALE as int), 255);
            }
            let base = (i as u64) * SCALE / 255;
            let p = pow_frac(base, k);
            proof {
                lemma_div_is_ordered(
                    255 * p as int + (SCALE as int) / 2,
                    256 * (SCALE as int) - 1,
                    SCALE as int,
                );
                lemma_fundamental_div_mod_converse_div(
                    256 * (SCALE as int) - 1,
                    SCALE as int,
                    255,
                    (SCALE as int) - 1,
                );
                lemma_div_pos_is_pos(255 * p as int + (SCALE as int) / 2, SCALE as int);
            }
            let val = ((255 * p + SCALE / 2) / SCALE) as u8;
            table.push(val);
            i = i + 1;
        }
        proof {
            assert(table@ =~= spec_curve(cdf.0@));
            // The zero entry: a base of zero gives a power of zero.
            lemma_basic_div((SCALE as int) / 2, SCALE as int);
            // Monotonicity, entry by entry.
            assert forall|i: int| 0 <= i < 255 implies #[trigger] table@[i] <= table@[i + 1] by {
                lemma_curve_step(cdf.0@, i);
            }
        }
        IntensityTransformationCurve { table }
    }
}

/// Adjacent gamma-table entries of a non-decreasing cumulative density are
/// ordered.
proof fn lemma_curve_step(cdf: Seq<u64>, i: int)
    requires
        cdf.len() == 256,
        0 <= i < 255,
        cdf[i] <= cdf[i + 1],
        cdf[i + 1] <= SCALE,
    ensures
        spec_curve_at(cdf, i) <= spec_curve_at(cdf, i + 1),
{
    let s = SCALE as int;
    let b1 = i * s / 255;
    let b2 = (i + 1) * s / 255;
    let k1 = spec_exponent(cdf[i] as int);
    let k2 = spec_exponent(cdf[i + 1] as int);

    // The base grows with the level and stays at or below one.
    assert(i * s <= (i + 1) * s && (i + 1) * s <= 255 * s) by (nonlinear_arith)
        requires
            0 <= i < 255,
            0 < s,
    ;
    lemma_div_is_ordered(i * s, (i + 1) * s, 255);
    lemma_div_is_ordered((i + 1) * s, 255 * s, 255);
    lemma_div_multiples_vanish(s, 255);
    lemma_div_pos_is_pos(i * s, 255);

    // The exponent shrinks as the cumulative density grows, and stays on
    // the grid.
    assert((s - cdf[i + 1]) * 1024 <= (s - cdf[i]) * 1024) by (nonlinear_arith)
        requires
            cdf[i] <= cdf[i + 1],
    ;
    lemma_div_is_ordered((s - cdf[i + 1]) * 1024 + s / 2, (s - cdf[i]) * 1024 + s / 2, s);
    lemma_div_pos_is_pos((s - cdf[i + 1]) * 1024 + s / 2, s);

    lemma_pow_frac_anti_exp(b1, k2 as nat, k1 as nat);
    lemma_pow_frac_mono_base(b1, b2, k2 as nat);
    lemma_pow_frac_bounds(b1, k1 as nat);
    lemma_pow_frac_bounds(b2, k2 as nat);

    lemma_div_is_ordered(
        255 * pow_frac_s(b1, k1 as nat) + s / 2,
        255 * pow_frac_s(b2, k2 as nat) + s / 2,
        s,
    );
}

} // verus!
