//! Stateless conversions between the RGB, HSV and YUV (BT.601) color spaces,
//! in the 8-bit integer domain.
//!
//! Every function is pure integer arithmetic; its contract states the exact
//! quantized formula it computes, so callers can reason about the conversion
//! result bit for bit.

use vstd::prelude::*;
use vstd::arithmetic::div_mod::{
    lemma_fundamental_div_mod, lemma_fundamental_div_mod_converse_div, lemma_mod_bound,
};

verus! {

/// The largest of three channel values: the HSV value (brightness) channel.
pub open spec fn spec_max3(r: int, g: int, b: int) -> int {
    if r >= g && r >= b {
        r
    } else if g >= b {
        g
    } else {
        b
    }
}

/// Clamps an integer into the 8-bit channel range.
pub open spec fn spec_clamp8(x: int) -> int {
    if x < 0 {
        0
    } else if x > 255 {
        255
    } else {
        x
    }
}

/// The smallest of three channel values.
pub open spec fn spec_min3(r: int, g: int, b: int) -> int {
    if r <= g && r <= b {
        r
    } else if g <= b {
        g
    } else {
        b
    }
}

/// Six times the hue of an RGB triple, on the scale where a full turn spans
/// `6 * 255`: the conventional six-sector hue angle.
pub open spec fn spec_hue6(r: int, g: int, b: int) -> int {
    let mx = spec_max3(r, g, b);
    let mn = spec_min3(r, g, b);
    let n = mx - mn;
    if n == 0 {
        0
    } else if mx == r {
        if g < b {
            6 * 255 + g * 255 / n - b * 255 / n
        } else {
            (g - b) * 255 / n
        }
    } else if mx == g {
        2 * 255 + b * 255 / n - r * 255 / n
    } else {
        4 * 255 + r * 255 / n - g * 255 / n
    }
}

/// The RGB -> HSV formula in the 8-bit integer domain: value is the channel
/// maximum, saturation is the scaled chroma, and hue is the conventional
/// six-sector angle scaled so that a full turn spans 0..=255.
pub open spec fn spec_rgb_to_hsv(r: int, g: int, b: int) -> (int, int, int) {
    let mx = spec_max3(r, g, b);
    let mn = spec_min3(r, g, b);
    let n = mx - mn;
    let s = if mx == 0 {
        0
    } else {
        n * 255 / mx
    };
    (spec_hue6(r, g, b) / 6, s, mx)
}

/// The HSV -> RGB formula in the 8-bit integer domain: the hue is expanded
/// back into a sector in 0..=6 and a fractional part, and the two channels
/// away from the sector's peak are scaled down from the value channel.
pub open spec fn spec_hsv_to_rgb(h: int, s: int, v: int) -> (int, int, int) {
    if s == 0 {
        (v, v, v)
    } else {
        let h6 = h * 6;
        let f = h6 % 255;
        let sector = h6 / 255;
        if sector == 1 {
            (v * (65025 - s * f) / 65025, v, v * (255 - s) / 255)
        } else if sector == 2 {
            (v * (255 - s) / 255, v, v * (65025 - s * (255 - f)) / 65025)
        } else if sector == 3 {
            (v * (255 - s) / 255, v * (65025 - s * f) / 65025, v)
        } else if sector == 4 {
            (v * (65025 - s * (255 - f)) / 65025, v * (255 - s) / 255, v)
        } else if sector == 5 {
            (v, v * (255 - s) / 255, v * (65025 - s * f) / 65025)
        } else {
            (v, v * (65025 - s * (255 - f)) / 65025, v * (255 - s) / 255)
        }
    }
}

/// The BT.601 RGB -> YUV formula with coefficients scaled by 256, the luma
/// biased by 16 and the chroma channels biased by 128.
pub open spec fn spec_rgb_to_yuv(r: int, g: int, b: int) -> (int, int, int) {
    (
        (66 * r + 129 * g + 25 * b + 128) / 256 + 16,
        (-38 * r - 74 * g + 112 * b + 128) / 256 + 128,
        (112 * r - 94 * g - 18 * b) / 256 + 128,
    )
}

/// The BT.601 YUV -> RGB formula with coefficients scaled by 256 and each
/// channel clamped into the 8-bit range.
pub open spec fn spec_yuv_to_rgb(y: int, u: int, v: int) -> (int, int, int) {
    let c = y - 16;
    let d = u - 128;
    let e = v - 128;
    (
        spec_clamp8((298 * c + 409 * e + 128) / 256),
        spec_clamp8((298 * c - 100 * d - 208 * e + 128) / 256),
        spec_clamp8((298 * c + 516 * d + 128) / 256),
    )
}

/// Shifting a dividend by a multiple of the divisor shifts the quotient by
/// that multiple: `(x + k * d) / d == x / d + k` for a positive divisor.
proof fn lemma_div_shift(x: int, k: int, d: int)
    requires
        0 < d,
    ensures
        (x + k * d) / d == x / d + k,
{
    lemma_fundamental_div_mod(x, d);
    lemma_mod_bound(x, d);
    assert(x + k * d == (x / d + k) * d + (x % d)) by (nonlinear_arith)
        requires
            x == d * (x / d) + (x % d),
    ;
    lemma_fundamental_div_mod_converse_div(x + k * d, d, x / d + k, x % d);
}

/// For two channels between the extremes of a pixel, the scaled hue
/// fractions differ by at most 255: `q * 255 / n <= p * 255 / n + 255`.
proof fn lemma_hue_term(p: int, q: int, mn: int, mx: int, n: int)
    requires
        n == mx - mn,
        0 < n,
        mn <= p <= mx,
        mn <= q <= mx,
    ensures
        q * 255 / n <= p * 255 / n + 255,
        p * 255 / n <= q * 255 / n + 255,
{
    lemma_div_shift(mn * 255, 255, n);
    vstd::arithmetic::div_mod::lemma_div_is_ordered(q * 255, mn * 255 + 255 * n, n);
    vstd::arithmetic::div_mod::lemma_div_is_ordered(p * 255, mn * 255 + 255 * n, n);
    vstd::arithmetic::div_mod::lemma_div_is_ordered(mn * 255, p * 255, n);
    vstd::arithmetic::div_mod::lemma_div_is_ordered(mn * 255, q * 255, n);
}

/// A ratio of non-negative integers scaled by 255 stays at or below 255:
/// `a <= b` gives `a * 255 / b <= 255`.
proof fn lemma_ratio_le_255(a: int, b: int)
    requires
        0 <= a <= b,
        0 < b,
    ensures
        0 <= a * 255 / b <= 255,
{
    lemma_div_shift(0, 255, b);
    vstd::arithmetic::div_mod::lemma_div_of0(b);
    vstd::arithmetic::div_mod::lemma_div_is_ordered(0, a * 255, b);
    vstd::arithmetic::div_mod::lemma_div_is_ordered(a * 255, 255 * b, b);
}

/// Converts an RGB triple to HSV in the 8-bit integer domain.
pub fn rgb_to_hsv(r: u8, g: u8, b: u8) -> (hsv: (u8, u8, u8))
    ensures
        (hsv.0 as int, hsv.1 as int, hsv.2 as int) == spec_rgb_to_hsv(
            r as int,
            g as int,
            b as int,
        ),
{
    let r = r as usize;
    let g = g as usize;
    let b = b as usize;
    let mx = if r >= g && r >= b {
        r
    } else if g >= b {
        g
    } else {
        b
    };
    let mn = if r <= g && r <= b {
        r
    } else if g <= b {
        g
    } else {
        b
    };
    let n = mx - mn;

    let s = if mx == 0 {
        0
    } else {
        proof {
            lemma_ratio_le_255(n as int, mx as int);
        }
        n * 255 / mx
    };

    let h6: usize = if n == 0 {
        0
    } else if mx == r {
        if g < b {
            proof {
                lemma_hue_term(g as int, b as int, mn as int, mx as int, n as int);
                vstd::arithmetic::div_mod::lemma_div_is_ordered(
                    g as int * 255,
                    b as int * 255,
                    n as int,
                );
            }
            6 * 255 + g * 255 / n - b * 255 / n
        } else {
            proof {
                lemma_ratio_le_255((g - b) as int, n as int);
            }
            (g - b) * 255 / n
        }
    } else if mx == g {
        proof {
            lemma_hue_term(b as int, r as int, mn as int, mx as int, n as int);
        }
        2 * 255 + b * 255 / n - r * 255 / n
    } else {
        proof {
            lemma_hue_term(r as int, g as int, mn as int, mx as int, n as int);
        }
        4 * 255 + r * 255 / n - g * 255 / n
    };

    proof {
        vstd::arithmetic::div_mod::lemma_div_is_ordered(h6 as int, 1530, 6);
        vstd::arithmetic::div_mod::lemma_fundamental_div_mod_converse_div(1530, 6, 255, 0);
        vstd::arithmetic::div_mod::lemma_div_pos_is_pos(h6 as int, 6);
    }
    ((h6 / 6) as u8, s as u8, mx as u8)
}

/// Scales an 8-bit value by the ratio `num / den`, rounding down.
fn scale(v: usize, num: usize, den: usize) -> (c: u8)
    requires
        v <= 255,
        num <= den,
        0 < den <= 65025,
    ensures
        c as int == v as int * num as int / den as int,
{
    proof {
        assert(v * num <= v * den && v * den <= 255 * 65025) by (nonlinear_arith)
            requires
                0 <= v <= 255,
                num <= den <= 65025,
        ;
        vstd::arithmetic::div_mod::lemma_div_is_ordered(
            v as int * num as int,
            v as int * den as int,
            den as int,
        );
        vstd::arithmetic::div_mod::lemma_div_by_multiple(v as int, den as int);
        vstd::arithmetic::div_mod::lemma_div_pos_is_pos(v as int * num as int, den as int);
    }
    (v * num / den) as u8
}

/// Converts an HSV triple back to RGB in the 8-bit integer domain.
pub fn hsv_to_rgb(h: u8, s: u8, v: u8) -> (rgb: (u8, u8, u8))
    ensures
        (rgb.0 as int, rgb.1 as int, rgb.2 as int) == spec_hsv_to_rgb(
            h as int,
            s as int,
            v as int,
        ),
{
    if s == 0 {
        return (v, v, v);
    }

    let vv = v as usize;
    let s = s as usize;
    let h6 = (h as usize) * 6;
    let f = h6 % 255;
    let sector = h6 / 255;

    proof {
        lemma_mod_bound(h6 as int, 255);
        assert(s * f <= 255 * 254) by (nonlinear_arith)
            requires
                0 <= s <= 255,
                0 <= f <= 254,
        ;
        assert(s * (255 - f) <= 255 * 255) by (nonlinear_arith)
            requires
                0 <= s <= 255,
                0 <= f <= 254,
        ;
    }

    if sector == 1 {
        (scale(vv, 65025 - s * f, 65025), v, scale(vv, 255 - s, 255))
    } else if sector == 2 {
        (scale(vv, 255 - s, 255), v, scale(vv, 65025 - s * (255 - f), 65025))
    } else if sector == 3 {
        (scale(vv, 255 - s, 255), scale(vv, 65025 - s * f, 65025), v)
    } else if sector == 4 {
        (scale(vv, 65025 - s * (255 - f), 65025), scale(vv, 255 - s, 255), v)
    } else if sector == 5 {
        (v, scale(vv, 255 - s, 255), scale(vv, 65025 - s * f, 65025))
    } else {
        (v, scale(vv, 65025 - s * (255 - f), 65025), scale(vv, 255 - s, 255))
    }
}

/// Converts a YUV triple to HSV by composing the YUV -> RGB and RGB -> HSV
/// conversions.
pub fn yuv_to_hsv(y: u8, u: u8, v: u8) -> (hsv: (u8, u8, u8))
    ensures
        ({
            let (r, g, b) = spec_yuv_to_rgb(y as int, u as int, v as int);
            (hsv.0 as int, hsv.1 as int, hsv.2 as int) == spec_rgb_to_hsv(r, g, b)
        }),
{
    let (r, g, b) = yuv_to_rgb(y, u, v);
    rgb_to_hsv(r, g, b)
}

/// Converts an HSV triple to YUV by composing the HSV -> RGB and RGB -> YUV
/// conversions.
pub fn hsv_to_yuv(h: u8, s: u8, v: u8) -> (yuv: (u8, u8, u8))
    ensures
        ({
            let (r, g, b) = spec_hsv_to_rgb(h as int, s as int, v as int);
            (yuv.0 as int, yuv.1 as int, yuv.2 as int) == spec_rgb_to_yuv(r, g, b)
        }),
{
    let (r, g, b) = hsv_to_rgb(h, s, v);
    rgb_to_yuv(r, g, b)
}

/// A value scaled by a ratio at most one does not grow: `v * num / den <= v`.
proof fn lemma_scaled_le(v: int, num: int, den: int)
    requires
        0 <= v,
        0 <= num <= den,
        0 < den,
    ensures
        0 <= v * num / den <= v,
{
    assert(v * num <= v * den) by (nonlinear_arith)
        requires
            0 <= v,
            num <= den,
    ;
    vstd::arithmetic::div_mod::lemma_div_is_ordered(v * num, v * den, den);
    vstd::arithmetic::div_mod::lemma_div_by_multiple(v, den);
    vstd::arithmetic::div_mod::lemma_div_pos_is_pos(v * num, den);
}

/// The law of brightness preservation: converting an HSV triple to RGB
/// yields a pixel whose channel maximum is exactly the value channel, so a
/// brightness remap through the HSV round trip lands exactly on the
/// remapped value.
pub proof fn lemma_value_preserved(h: int, s: int, v: int)
    requires
        0 <= h <= 255,
        0 <= s <= 255,
        0 <= v <= 255,
    ensures
        ({
            let (r, g, b) = spec_hsv_to_rgb(h, s, v);
            spec_max3(r, g, b) == v
        }),
{
    if s != 0 {
        let h6 = h * 6;
        let f = h6 % 255;
        lemma_mod_bound(h6, 255);
        assert(0 <= s * f && s * f <= 65025 && 0 <= s * (255 - f) && s * (255 - f) <= 65025)
            by (nonlinear_arith)
            requires
                0 < s <= 255,
                0 <= f <= 254,
        ;
        lemma_scaled_le(v, 65025 - s * f, 65025);
        lemma_scaled_le(v, 65025 - s * (255 - f), 65025);
        lemma_scaled_le(v, 255 - s, 255);
    }
}

/// Converting an RGB triple to HSV yields channels in the 8-bit range, and
/// a value channel that is exactly the channel maximum.
pub proof fn lemma_rgb_to_hsv_ranges(r: int, g: int, b: int)
    requires
        0 <= r <= 255,
        0 <= g <= 255,
        0 <= b <= 255,
    ensures
        ({
            let (h, s, v) = spec_rgb_to_hsv(r, g, b);
            0 <= h <= 255 && 0 <= s <= 255 && v == spec_max3(r, g, b)
        }),
{
    let mx = spec_max3(r, g, b);
    let mn = spec_min3(r, g, b);
    let n = mx - mn;
    if mx != 0 {
        lemma_ratio_le_255(n, mx);
    }
    if n != 0 {
        if mx == r {
            if g < b {
                lemma_hue_term(g, b, mn, mx, n);
                vstd::arithmetic::div_mod::lemma_div_is_ordered(g * 255, b * 255, n);
            } else {
                lemma_ratio_le_255(g - b, n);
            }
        } else if mx == g {
            lemma_hue_term(b, r, mn, mx, n);
        } else {
            lemma_hue_term(r, g, mn, mx, n);
        }
    }
    let h6 = spec_hue6(r, g, b);
    vstd::arithmetic::div_mod::lemma_div_is_ordered(h6, 1530, 6);
    vstd::arithmetic::div_mod::lemma_fundamental_div_mod_converse_div(1530, 6, 255, 0);
    vstd::arithmetic::div_mod::lemma_div_pos_is_pos(h6, 6);
}

/// The law of brightness round trips: for every RGB triple, converting to
/// HSV and back reproduces the channel maximum exactly, whatever
/// quantization does to the other channels.
pub proof fn lemma_round_trip_preserves_brightness(r: u8, g: u8, b: u8)
    ensures
        ({
            let (h, s, v) = spec_rgb_to_hsv(r as int, g as int, b as int);
            let (r2, g2, b2) = spec_hsv_to_rgb(h, s, v);
            spec_max3(r2, g2, b2) == spec_max3(r as int, g as int, b as int)
        }),
{
    lemma_rgb_to_hsv_ranges(r as int, g as int, b as int);
    let (h, s, v) = spec_rgb_to_hsv(r as int, g as int, b as int);
    lemma_value_preserved(h, s, v);
}

/// The law of achromatic stability: a gray pixel survives the RGB -> HSV ->
/// RGB round trip exactly, because its saturation is zero.
pub proof fn lemma_achromatic_round_trip(c: u8)
    ensures
        ({
            let (h, s, v) = spec_rgb_to_hsv(c as int, c as int, c as int);
            spec_hsv_to_rgb(h, s, v) == (c as int, c as int, c as int)
        }),
{
    if c != 0 {
        vstd::arithmetic::div_mod::lemma_div_of0(c as int);
        assert(0 * 255 == 0);
    }
}

/// Converts an RGB triple to YUV with BT.601 integer coefficients.
pub fn rgb_to_yuv(r: u8, g: u8, b: u8) -> (yuv: (u8, u8, u8))
    ensures
        (yuv.0 as int, yuv.1 as int, yuv.2 as int) == spec_rgb_to_yuv(
            r as int,
            g as int,
            b as int,
        ),
{
    let r = r as u32;
    let g = g as u32;
    let b = b as u32;

    let y = (66 * r + 129 * g + 25 * b + 128) / 256 + 16;
    // The chroma numerators can be negative, so the computation is shifted up
    // by a multiple of 256 to stay in unsigned arithmetic; the shift moves
    // the quotient by exactly that multiple.
    let u = (112 * b + 28800 - 38 * r - 74 * g) / 256 + 16;
    let v = (112 * r + 28672 - 94 * g - 18 * b) / 256 + 16;

    proof {
        lemma_div_shift(-38 * r - 74 * g + 112 * b + 128, 112, 256);
        lemma_div_shift(112 * r - 94 * g - 18 * b, 112, 256);
    }

    (y as u8, u as u8, v as u8)
}

/// Converts a YUV triple back to RGB with BT.601 integer coefficients,
/// clamping each channel to the 8-bit range.
pub fn yuv_to_rgb(y: u8, u: u8, v: u8) -> (rgb: (u8, u8, u8))
    ensures
        (rgb.0 as int, rgb.1 as int, rgb.2 as int) == spec_yuv_to_rgb(
            y as int,
            u as int,
            v as int,
        ),
{
    let y = y as u32;
    let u = u as u32;
    let v = v as u32;

    // Each numerator is shifted up by a multiple of 256 large enough to keep
    // it non-negative; the shift is subtracted from the quotient again when
    // the channel is clamped.
    let rq = (298 * y + 409 * v + 352) / 256;
    let gq = (298 * y + 78560 - 100 * u - 208 * v) / 256;
    let bq = (298 * y + 516 * u + 224) / 256;

    proof {
        lemma_div_shift(298 * (y - 16) + 409 * (v - 128) + 128, 224, 256);
        lemma_div_shift(298 * (y - 16) - 100 * (u - 128) - 208 * (v - 128) + 128, 171, 256);
        lemma_div_shift(298 * (y - 16) + 516 * (u - 128) + 128, 277, 256);
    }

    (clamp_shifted(rq, 224), clamp_shifted(gq, 171), clamp_shifted(bq, 277))
}

/// Subtracts the unsigned-arithmetic shift from a shifted quotient and clamps
/// the result into the 8-bit channel range.
fn clamp_shifted(q: u32, shift: u32) -> (c: u8)
    ensures
        c as int == spec_clamp8(q as int - shift as int),
{
    if q <= shift {
        0
    } else if q - shift > 255 {
        255
    } else {
        (q - shift) as u8
    }
}

} // verus!
