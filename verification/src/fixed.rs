//! Q30 fixed-point arithmetic: multiplication, integer square roots and the
//! fractional power `b^(k/1024)` that the gamma curve needs.
//!
//! A fixed-point number holds a real value in `[0, 1]` as an integer in
//! `[0, SCALE]`. The fractional power is computed as
//! `(b^(1/1024))^k`: ten nested square roots followed by `k` fixed-point
//! multiplications. Every operation rounds down, and each one is monotone,
//! which is what makes the gamma curve provably non-decreasing.

use vstd::prelude::*;
use vstd::arithmetic::div_mod::{
    lemma_div_by_multiple, lemma_div_is_ordered, lemma_div_pos_is_pos,
};

verus! {

/// The Q30 fixed-point one: an integer `a` stands for the real value
/// `a / SCALE`.
pub const SCALE: u64 = 0x4000_0000;

/// `r` is the integer square root of `n`, rounded down.
pub open spec fn is_sqrt(n: int, r: int) -> bool {
    &&& 0 <= r
    &&& r * r <= n
    &&& n < (r + 1) * (r + 1)
}

/// The integer square root of `n`, rounded down.
pub open spec fn sqrt_floor(n: int) -> int {
    choose|r: int| is_sqrt(n, r)
}

/// Every non-negative integer has an integer square root, and `sqrt_floor`
/// denotes it.
pub proof fn lemma_sqrt_exists(n: int)
    requires
        0 <= n,
    ensures
        is_sqrt(n, sqrt_floor(n)),
    decreases n,
{
    if n == 0 {
        assert(is_sqrt(0, 0));
    } else {
        lemma_sqrt_exists(n - 1);
        let r = sqrt_floor(n - 1);
        if (r + 1) * (r + 1) <= n {
            assert(n < (r + 2) * (r + 2)) by (nonlinear_arith)
                requires
                    0 <= r,
                    n - 1 < (r + 1) * (r + 1),
                    (r + 1) * (r + 1) <= n,
            ;
            assert(is_sqrt(n, r + 1));
        } else {
            assert(is_sqrt(n, r));
        }
    }
}

/// The integer square root is unique: anything that satisfies `is_sqrt` is
/// `sqrt_floor`.
pub proof fn lemma_sqrt_is(n: int, r: int)
    requires
        is_sqrt(n, r),
    ensures
        r == sqrt_floor(n),
{
    let r2 = sqrt_floor(n);
    assert(is_sqrt(n, r2));
    assert(r == r2) by (nonlinear_arith)
        requires
            0 <= r,
            r * r <= n < (r + 1) * (r + 1),
            0 <= r2,
            r2 * r2 <= n < (r2 + 1) * (r2 + 1),
    ;
}

/// The integer square root is monotone.
pub proof fn lemma_sqrt_mono(a: int, b: int)
    requires
        0 <= a <= b,
    ensures
        sqrt_floor(a) <= sqrt_floor(b),
{
    lemma_sqrt_exists(a);
    lemma_sqrt_exists(b);
    let ra = sqrt_floor(a);
    let rb = sqrt_floor(b);
    assert(ra <= rb) by (nonlinear_arith)
        requires
            a <= b,
            0 <= ra,
            ra * ra <= a < (ra + 1) * (ra + 1),
            0 <= rb,
            rb * rb <= b < (rb + 1) * (rb + 1),
    ;
}

/// Computes the integer square root of `n`, rounded down.
pub fn isqrt(n: u64) -> (r: u64)
    requires
        n < 0x4000_0000_0000_0000,
    ensures
        r as int == sqrt_floor(n as int),
        is_sqrt(n as int, r as int),
{
    let mut lo: u64 = 0;
    let mut hi: u64 = 0x8000_0000;
    proof {
        assert(n < (0x8000_0000u64 + 1) * (0x8000_0000u64 + 1)) by (nonlinear_arith)
            requires
                n < 0x4000_0000_0000_0000,
        ;
    }
    while lo < hi
        invariant
            lo <= hi <= 0x8000_0000,
            lo * lo <= n,
            n < (hi + 1) * (hi + 1),
        decreases hi - lo,
    {
        let mid = lo + (hi - lo + 1) / 2;
        assert(lo < mid <= hi);
        proof {
            assert(mid * mid <= 0x8000_0000u64 * 0x8000_0000u64) by (nonlinear_arith)
                requires
                    0 <= mid <= 0x8000_0000u64,
            ;
        }
        if mid * mid <= n {
            lo = mid;
        } else {
            hi = mid - 1;
        }
    }
    proof {
        lemma_sqrt_is(n as int, lo as int);
    }
    lo
}

/// Fixed-point multiplication, rounding down: `a * b / SCALE`.
pub open spec fn mul_q_s(a: int, b: int) -> int {
    a * b / (SCALE as int)
}

/// A fixed-point product of values at or below one stays at or below one,
/// and at or below each factor.
pub proof fn lemma_mul_q_bounds(a: int, b: int)
    requires
        0 <= a <= SCALE,
        0 <= b <= SCALE,
    ensures
        0 <= mul_q_s(a, b) <= a,
        mul_q_s(a, b) <= SCALE,
{
    let s = SCALE as int;
    assert(0 <= a * b && a * b <= a * s && a * s <= s * s) by (nonlinear_arith)
        requires
            0 <= a <= s,
            0 <= b <= s,
    ;
    lemma_div_is_ordered(0, a * b, s);
    lemma_div_is_ordered(a * b, a * s, s);
    lemma_div_by_multiple(a, s);
    lemma_div_is_ordered(a * s, s * s, s);
    lemma_div_by_multiple(s, s);
}

/// Fixed-point multiplication is monotone in both factors.
pub proof fn lemma_mul_q_mono(a1: int, b1: int, a2: int, b2: int)
    requires
        0 <= a1 <= a2,
        0 <= b1 <= b2,
    ensures
        mul_q_s(a1, b1) <= mul_q_s(a2, b2),
{
    assert(a1 * b1 <= a2 * b2) by (nonlinear_arith)
        requires
            0 <= a1 <= a2,
            0 <= b1 <= b2,
    ;
    lemma_div_is_ordered(a1 * b1, a2 * b2, SCALE as int);
}

/// Fixed-point multiplication.
pub fn mul_q(a: u64, b: u64) -> (r: u64)
    requires
        a <= SCALE,
        b <= SCALE,
    ensures
        r as int == mul_q_s(a as int, b as int),
        r <= SCALE,
{
    proof {
        assert(a * b <= 0x4000_0000u64 * 0x4000_0000u64) by (nonlinear_arith)
            requires
                0 <= a <= 0x4000_0000u64,
                0 <= b <= 0x4000_0000u64,
        ;
        lemma_mul_q_bounds(a as int, b as int);
    }
    a * b / SCALE
}

/// The fixed-point square root: the square root of `a / SCALE`, as a
/// fixed-point value.
pub open spec fn sqrt_q_s(a: int) -> int {
    sqrt_floor(a * (SCALE as int))
}

/// The fixed-point square root of a value at or below one stays in `[0, 1]`.
pub proof fn lemma_sqrt_q_bounds(a: int)
    requires
        0 <= a <= SCALE,
    ensures
        0 <= sqrt_q_s(a) <= SCALE,
{
    let s = SCALE as int;
    assert(0 <= a * s && a * s <= s * s) by (nonlinear_arith)
        requires
            0 <= a <= s,
    ;
    lemma_sqrt_exists(a * s);
    let r = sqrt_q_s(a);
    assert(r <= s) by (nonlinear_arith)
        requires
            0 < s,
            0 <= r,
            r * r <= a * s,
            a * s <= s * s,
    ;
}

/// Computes the fixed-point square root.
pub fn sqrt_q(a: u64) -> (r: u64)
    requires
        a <= SCALE,
    ensures
        r as int == sqrt_q_s(a as int),
        r <= SCALE,
{
    proof {
        assert(a * SCALE < 0x4000_0000_0000_0000u64) by (nonlinear_arith)
            requires
                0 <= a <= 0x4000_0000u64,
        ;
    }
    let r = isqrt(a * SCALE);
    proof {
        lemma_sqrt_q_bounds(a as int);
    }
    r
}

/// `depth` nested fixed-point square roots of `b`: the fixed-point value of
/// `(b / SCALE) ^ (1 / 2^depth)`.
pub open spec fn nested_sqrt_s(b: int, depth: nat) -> int
    decreases depth,
{
    if depth == 0 {
        b
    } else {
        sqrt_q_s(nested_sqrt_s(b, (depth - 1) as nat))
    }
}

/// Nested fixed-point square roots of a value at or below one stay in
/// `[0, 1]`.
pub proof fn lemma_nested_sqrt_bounds(b: int, depth: nat)
    requires
        0 <= b <= SCALE,
    ensures
        0 <= nested_sqrt_s(b, depth) <= SCALE,
    decreases depth,
{
    if depth > 0 {
        lemma_nested_sqrt_bounds(b, (depth - 1) as nat);
        lemma_sqrt_q_bounds(nested_sqrt_s(b, (depth - 1) as nat));
    }
}

/// Nested fixed-point square roots are monotone in the radicand.
pub proof fn lemma_nested_sqrt_mono(b1: int, b2: int, depth: nat)
    requires
        0 <= b1 <= b2 <= SCALE,
    ensures
        nested_sqrt_s(b1, depth) <= nested_sqrt_s(b2, depth),
    decreases depth,
{
    if depth > 0 {
        let d = (depth - 1) as nat;
        lemma_nested_sqrt_mono(b1, b2, d);
        lemma_nested_sqrt_bounds(b1, d);
        lemma_nested_sqrt_bounds(b2, d);
        let x1 = nested_sqrt_s(b1, d);
        let x2 = nested_sqrt_s(b2, d);
        assert(x1 * (SCALE as int) <= x2 * (SCALE as int)) by (nonlinear_arith)
            requires
                0 <= x1 <= x2,
        ;
        lemma_sqrt_mono(x1 * (SCALE as int), x2 * (SCALE as int));
    }
}

/// Raising a fixed-point value to the integer power `k`, rounding down at
/// each multiplication.
pub open spec fn powi_s(y: int, k: nat) -> int
    decreases k,
{
    if k == 0 {
        SCALE as int
    } else {
        mul_q_s(powi_s(y, (k - 1) as nat), y)
    }
}

/// Integer powers of a fixed-point value at or below one stay in `[0, 1]`.
pub proof fn lemma_powi_bounds(y: int, k: nat)
    requires
        0 <= y <= SCALE,
    ensures
        0 <= powi_s(y, k) <= SCALE,
    decreases k,
{
    if k > 0 {
        lemma_powi_bounds(y, (k - 1) as nat);
        lemma_mul_q_bounds(powi_s(y, (k - 1) as nat), y);
    }
}

/// Integer powers are monotone in the base.
pub proof fn lemma_powi_mono_base(y1: int, y2: int, k: nat)
    requires
        0 <= y1 <= y2 <= SCALE,
    ensures
        powi_s(y1, k) <= powi_s(y2, k),
    decreases k,
{
    if k > 0 {
        let d = (k - 1) as nat;
        lemma_powi_mono_base(y1, y2, d);
        lemma_powi_bounds(y1, d);
        lemma_powi_bounds(y2, d);
        lemma_mul_q_mono(powi_s(y1, d), y1, powi_s(y2, d), y2);
    }
}

/// For a base at or below one, integer powers do not increase with the
/// exponent.
pub proof fn lemma_powi_anti_exp(y: int, k1: nat, k2: nat)
    requires
        0 <= y <= SCALE,
        k1 <= k2,
    ensures
        powi_s(y, k2) <= powi_s(y, k1),
    decreases k2 - k1,
{
    if k1 < k2 {
        lemma_powi_anti_exp(y, k1, (k2 - 1) as nat);
        lemma_powi_bounds(y, (k2 - 1) as nat);
        lemma_mul_q_bounds(powi_s(y, (k2 - 1) as nat), y);
    }
}

/// Computes the integer power of a fixed-point value.
pub fn powi(y: u64, k: u16) -> (r: u64)
    requires
        y <= SCALE,
    ensures
        r as int == powi_s(y as int, k as nat),
        r <= SCALE,
{
    let mut r: u64 = SCALE;
    let mut i: u16 = 0;
    while i < k
        invariant
            i <= k,
            y <= SCALE,
            r as int == powi_s(y as int, i as nat),
            r <= SCALE,
        decreases k - i,
    {
        r = mul_q(r, y);
        i = i + 1;
    }
    r
}

/// The fractional power `(b / SCALE) ^ (k / 1024)`, as the library
/// computes it: ten nested square roots followed by `k` fixed-point
/// multiplications, with a base of zero mapped to zero for every exponent.
pub open spec fn pow_frac_s(b: int, k: nat) -> int {
    if b <= 0 {
        0
    } else {
        powi_s(nested_sqrt_s(b, 10), k)
    }
}

/// Fractional powers of a value in `[0, 1]` stay in `[0, 1]`.
pub proof fn lemma_pow_frac_bounds(b: int, k: nat)
    requires
        0 <= b <= SCALE,
    ensures
        0 <= pow_frac_s(b, k) <= SCALE,
{
    if b > 0 {
        lemma_nested_sqrt_bounds(b, 10);
        lemma_powi_bounds(nested_sqrt_s(b, 10), k);
    }
}

/// The fractional power is monotone in the base.
pub proof fn lemma_pow_frac_mono_base(b1: int, b2: int, k: nat)
    requires
        0 <= b1 <= b2 <= SCALE,
    ensures
        pow_frac_s(b1, k) <= pow_frac_s(b2, k),
{
    if b1 > 0 {
        lemma_nested_sqrt_mono(b1, b2, 10);
        lemma_nested_sqrt_bounds(b1, 10);
        lemma_nested_sqrt_bounds(b2, 10);
        lemma_powi_mono_base(nested_sqrt_s(b1, 10), nested_sqrt_s(b2, 10), k);
    } else {
        lemma_pow_frac_bounds(b2, k);
    }
}

/// The fractional power of a value at or below one does not increase with
/// the exponent.
pub proof fn lemma_pow_frac_anti_exp(b: int, k1: nat, k2: nat)
    requires
        0 <= b <= SCALE,
        k1 <= k2,
    ensures
        pow_frac_s(b, k2) <= pow_frac_s(b, k1),
{
    if b > 0 {
        lemma_nested_sqrt_bounds(b, 10);
        lemma_powi_anti_exp(nested_sqrt_s(b, 10), k1, k2);
    }
}

/// Computes the fractional power `(b / SCALE) ^ (k / 1024)`.
pub fn pow_frac(b: u64, k: u16) -> (r: u64)
    requires
        b <= SCALE,
    ensures
        r as int == pow_frac_s(b as int, k as nat),
        r <= SCALE,
{
    if b == 0 {
        return 0;
    }
    let mut y = b;
    let mut d: u8 = 0;
    while d < 10
        invariant
            d <= 10,
            b <= SCALE,
            y as int == nested_sqrt_s(b as int, d as nat),
            y <= SCALE,
        decreases 10 - d,
    {
        y = sqrt_q(y);
        d = d + 1;
    }
    powi(y, k)
}

} // verus!
