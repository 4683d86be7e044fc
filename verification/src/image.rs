//! Pixel views: a byte buffer tagged with its layout, the brightness of each
//! pixel, and the in-place rewrite of every pixel through a brightness remap
//! table.

use vstd::prelude::*;
use vstd::arithmetic::div_mod::{
    lemma_div_is_ordered, lemma_fundamental_div_mod_converse_div,
    lemma_fundamental_div_mod_converse_mod,
};
use vstd::arithmetic::mul::lemma_mul_inequality;
use crate::color_format::{
    hsv_to_rgb, rgb_to_hsv, spec_hsv_to_rgb, spec_max3, spec_rgb_to_hsv,
};
use crate::curve::IntensityTransformationCurve;

verus! {

/// How a byte buffer lays out its pixels.
#[derive(Clone, Copy, Debug)]
pub enum PixelFormat {
    /// Interleaved 3-byte pixels: red, green, blue.
    Rgb,
    /// Interleaved 4-byte pixels: red, green, blue and a fourth byte that is
    /// never touched.
    Rgba,
    /// One brightness byte per pixel: the luma plane of a planar format.
    Luma,
}

impl PixelFormat {
    /// The number of bytes each pixel occupies.
    pub open spec fn spec_stride(self) -> int {
        match self {
            PixelFormat::Rgb => 3,
            PixelFormat::Rgba => 4,
            PixelFormat::Luma => 1,
        }
    }

    /// Returns the number of bytes each pixel occupies.
    pub fn stride(self) -> (s: usize)
        ensures
            s as int == self.spec_stride(),
    {
        match self {
            PixelFormat::Rgb => 3,
            PixelFormat::Rgba => 4,
            PixelFormat::Luma => 1,
        }
    }
}

/// The brightness of pixel `j` of a buffer: the channel maximum for packed
/// formats, the sample itself for a luma plane.
pub open spec fn spec_intensity(p: Seq<u8>, fmt: PixelFormat, j: int) -> int {
    let st = fmt.spec_stride();
    match fmt {
        PixelFormat::Luma => p[j] as int,
        _ => spec_max3(p[st * j] as int, p[st * j + 1] as int, p[st * j + 2] as int),
    }
}

/// The brightness values of all pixels of a buffer, in pixel order.
pub open spec fn spec_intensity_seq(p: Seq<u8>, fmt: PixelFormat, n: int) -> Seq<u8> {
    Seq::new(n as nat, |j: int| spec_intensity(p, fmt, j) as u8)
}

/// A weighted blend of an original and an enhanced channel value, with
/// `ratio` out of 1024 parts taken from the enhanced value, rounded to
/// nearest.
pub open spec fn spec_blend(orig: int, enh: int, ratio: int) -> int {
    (ratio * enh + (1024 - ratio) * orig + 512) / 1024
}

/// Byte `m` of a buffer after every pixel's brightness has been rewritten
/// through `curve` and blended against the original with `ratio`: packed
/// pixels go through the HSV round trip with their value channel remapped,
/// luma samples are remapped directly, and a fourth packed byte is returned
/// unchanged.
pub open spec fn spec_enhanced_at(
    p: Seq<u8>,
    fmt: PixelFormat,
    curve: Seq<u8>,
    ratio: int,
    m: int,
) -> int {
    let st = fmt.spec_stride();
    let j = m / st;
    let c = m % st;
    match fmt {
        PixelFormat::Luma => spec_blend(p[m] as int, curve[p[m] as int] as int, ratio),
        _ => {
            if c == 3 {
                p[m] as int
            } else {
                let (h, s, v) = spec_rgb_to_hsv(
                    p[st * j] as int,
                    p[st * j + 1] as int,
                    p[st * j + 2] as int,
                );
                let (r2, g2, b2) = spec_hsv_to_rgb(h, s, curve[v] as int);
                let enh = if c == 0 {
                    r2
                } else if c == 1 {
                    g2
                } else {
                    b2
                };
                spec_blend(p[m] as int, enh, ratio)
            }
        },
    }
}

/// A pixel view: a byte buffer, its layout, and the number of pixels the
/// enhancement works on. For packed layouts the pixels fill the whole
/// buffer; for a luma plane they are a prefix and the chroma tail is left
/// alone.
#[derive(Debug)]
pub struct Image {
    /// The pixel bytes.
    pub pixels: Vec<u8>,
    /// The buffer's layout.
    pub format: PixelFormat,
    /// The number of pixels.
    pub size: usize,
}

impl Image {
    /// The pixel count and stride fit the buffer.
    pub open spec fn wf(self) -> bool {
        &&& self.size * self.format.spec_stride() <= self.pixels@.len()
        &&& self.size * self.format.spec_stride() < 0x1_0000_0000_0000_0000
    }

    /// Wraps a packed buffer whose pixels fill it exactly.
    pub fn new(pixels: Vec<u8>, format: PixelFormat) -> (img: Image)
        requires
            pixels@.len() as int % format.spec_stride() == 0,
        ensures
            img.wf(),
            img.pixels == pixels,
            img.format == format,
            img.size as int == pixels@.len() as int / format.spec_stride(),
            img.size * format.spec_stride() == pixels@.len(),
    {
        let st = format.stride();
        let size = pixels.len() / st;
        proof {
            vstd::arithmetic::div_mod::lemma_fundamental_div_mod(pixels@.len() as int, st as int);
        }
        Image { pixels, format, size }
    }

    /// Wraps the luma plane of a planar buffer: the first `luma_len` bytes
    /// are pixels, the rest is chroma and stays untouched.
    pub fn new_planar(pixels: Vec<u8>, luma_len: usize) -> (img: Image)
        requires
            luma_len <= pixels@.len(),
        ensures
            img.wf(),
            img.pixels == pixels,
            img.format is Luma,
            img.size == luma_len,
    {
        Image { pixels, format: PixelFormat::Luma, size: luma_len }
    }

    /// Returns the number of pixels.
    pub fn len(&self) -> (n: usize)
        ensures
            n == self.size,
    {
        self.size
    }

    /// Collects the brightness of every pixel, in pixel order.
    pub fn intensities(&self) -> (vals: Vec<u8>)
        requires
            self.wf(),
        ensures
            vals@ == spec_intensity_seq(self.pixels@, self.format, self.size as int),
    {
        let st = self.format.stride();
        let mut vals: Vec<u8> = Vec::new();
        let mut j: usize = 0;
        while j < self.size
            invariant
                self.wf(),
                j <= self.size,
                st as int == self.format.spec_stride(),
                self.pixels.len() == self.pixels@.len(),
                vals@.len() == j,
                forall|i: int|
                    0 <= i < j ==> vals@[i] as int == spec_intensity(
                        self.pixels@,
                        self.format,
                        i,
                    ),
            decreases self.size - j,
        {
            proof {
                lemma_mul_inequality(j as int + 1, self.size as int, st as int);
                assert((j as int + 1) * (st as int) == j as int * (st as int) + st as int)
                    by (nonlinear_arith);
            }
            let v: u8 = match self.format {
                PixelFormat::Luma => self.pixels[j],
                _ => {
                    let base = j * st;
                    let r = self.pixels[base];
                    let g = self.pixels[base + 1];
                    let b = self.pixels[base + 2];
                    let m1 = if g >= b {
                        g
                    } else {
                        b
                    };
                    if r >= m1 {
                        r
                    } else {
                        m1
                    }
                },
            };
            vals.push(v);
            j = j + 1;
        }
        proof {
            assert(vals@ =~= spec_intensity_seq(self.pixels@, self.format, self.size as int));
        }
        vals
    }

    /// Rewrites every pixel in place: brightness is remapped through
    /// `curve` and the result is blended against the original with `ratio`
    /// parts out of 1024. A fourth packed byte and a planar chroma tail are
    /// never touched.
    pub fn update_pixels(&mut self, curve: &IntensityTransformationCurve, ratio: u16)
        requires
            old(self).wf(),
            curve.wf(),
            ratio <= 1024,
        ensures
            final(self).format == old(self).format,
            final(self).size == old(self).size,
            final(self).pixels@.len() == old(self).pixels@.len(),
            forall|m: int|
                0 <= m < old(self).size * old(self).format.spec_stride()
                    ==> final(self).pixels@[m] as int == spec_enhanced_at(
                    old(self).pixels@,
                    old(self).format,
                    curve.table@,
                    ratio as int,
                    m,
                ),
            forall|m: int|
                old(self).size * old(self).format.spec_stride() <= m
                    < old(self).pixels@.len()
                    ==> final(self).pixels@[m] == old(self).pixels@[m],
    {
        let st = self.format.stride();
        let ghost p0 = self.pixels@;
        let ghost fmt = self.format;
        let ghost n = self.size as int;
        let mut j: usize = 0;
        while j < self.size
            invariant
                self.format == fmt,
                self.size as int == n,
                st as int == fmt.spec_stride(),
                n * (st as int) <= self.pixels@.len(),
                n * (st as int) < 0x1_0000_0000_0000_0000,
                curve.wf(),
                ratio <= 1024,
                j <= n,
                self.pixels.len() == self.pixels@.len(),
                self.pixels@.len() == p0.len(),
                forall|m: int|
                    0 <= m < j * st as int ==> self.pixels@[m] as int == spec_enhanced_at(
                        p0,
                        fmt,
                        curve.table@,
                        ratio as int,
                        m,
                    ),
                forall|m: int| j * st as int <= m < p0.len() ==> self.pixels@[m] == p0[m],
            decreases n - j,
        {
            proof {
                lemma_mul_inequality(j as int + 1, n, st as int);
                assert((j as int + 1) * st as int == j as int * st as int + st as int)
                    by (nonlinear_arith);
            }
            let base = j * st;
            match self.format {
                PixelFormat::Luma => {
                    let orig = self.pixels[base];
                    let nv = curve.table[orig as usize];
                    let out = blend8(orig, nv, ratio);
                    self.pixels.set(base, out);
                },
                _ => {
                    let r = self.pixels[base];
                    let g = self.pixels[base + 1];
                    let b = self.pixels[base + 2];
                    let (h, s, v) = rgb_to_hsv(r, g, b);
                    let nv = curve.table[v as usize];
                    let (r2, g2, b2) = hsv_to_rgb(h, s, nv);
                    self.pixels.set(base, blend8(r, r2, ratio));
                    self.pixels.set(base + 1, blend8(g, g2, ratio));
                    self.pixels.set(base + 2, blend8(b, b2, ratio));
                },
            }
            proof {
                assert forall|m: int|
                    0 <= m < (j + 1) * (st as int) implies self.pixels@[m] as int
                    == #[trigger] spec_enhanced_at(p0, fmt, curve.table@, ratio as int, m) by {
                    if j * (st as int) <= m {
                        lemma_pixel_index(j as int, m - j * (st as int), st as int);
                    }
                }
            }
            j = j + 1;
        }
    }
}

/// Byte `j * st + c` of a buffer with stride `st` belongs to pixel `j` at
/// channel `c`.
proof fn lemma_pixel_index(j: int, c: int, st: int)
    requires
        0 < st,
        0 <= c < st,
        0 <= j,
    ensures
        (j * st + c) / st == j,
        (j * st + c) % st == c,
{
    lemma_fundamental_div_mod_converse_div(j * st + c, st, j, c);
    lemma_fundamental_div_mod_converse_mod(j * st + c, st, j, c);
}

/// Blends an original and an enhanced channel value, taking `ratio` out of
/// 1024 parts from the enhanced value, rounded to nearest.
fn blend8(orig: u8, enh: u8, ratio: u16) -> (out: u8)
    requires
        ratio <= 1024,
    ensures
        out as int == spec_blend(orig as int, enh as int, ratio as int),
{
    let o = orig as u32;
    let e = enh as u32;
    let q = ratio as u32;
    proof {
        assert(q * e + (1024 - q) * o + 512 <= 1024 * 255 + 512) by (nonlinear_arith)
            requires
                0 <= q <= 1024,
                0 <= e <= 255,
                0 <= o <= 255,
        ;
        lemma_div_is_ordered((q * e + (1024 - q) * o + 512) as int, 261632, 1024);
        lemma_fundamental_div_mod_converse_div(261632, 1024, 255, 512);
        vstd::arithmetic::div_mod::lemma_div_pos_is_pos(
            (q * e + (1024 - q) * o + 512) as int,
            1024,
        );
    }
    ((q * e + (1024 - q) * o + 512) / 1024) as u8
}

} // verus!
