//! Contrast enhancement for 8-bit raster and planar-video images, using
//! adaptive gamma correction with a weighting distribution: the brightness
//! histogram of the image is reshaped into a per-level gamma curve, and every
//! pixel's brightness is rewritten through that curve in place while hue and
//! saturation are preserved.
//!
//! The pipeline is histogram, probability density, weighting distribution,
//! cumulative density, gamma curve, pixel rewrite. All table arithmetic is
//! Q30 fixed point, so every step is deterministic integer arithmetic with an
//! exact contract: the cumulative density provably ends at one, the curve is
//! provably non-decreasing and starts at zero, and a fourth packed byte is
//! provably never touched.

pub mod color_format;
pub mod curve;
pub mod dist;
pub mod fixed;
pub mod image;

use vstd::prelude::*;
use crate::curve::{spec_curve, IntensityTransformationCurve};
use crate::dist::{
    count_val, lemma_counts_sum_to_len, spec_cdf, spec_pdf, spec_weighted, sum_u64, Cdf,
    Histogram, Pdf,
};
use crate::image::{spec_enhanced_at, spec_intensity_seq, Image, PixelFormat};

verus! {

/// [`Agcwd`] options.
#[derive(Debug, Clone, Copy)]
pub struct AgcwdOptions {
    /// Adjusts the shape of the weighting distribution, in units of 1/1024:
    /// 1024 stands for an exponent of one (the raw density shape), values
    /// near zero approach uniform weighting.
    ///
    /// Defaults to `512`, an exponent of one half.
    pub alpha: u16,

    /// If `true`, the enhanced image is blended with the original to soften
    /// the effect.
    ///
    /// Defaults to `false`.
    pub fusion: bool,

    /// The blend weight of the enhanced image when `fusion` is on, in units
    /// of 1/1024; weights above 1024 count as 1024.
    ///
    /// Defaults to `512`, an even blend.
    pub fusion_strength: u16,
}

impl Default for AgcwdOptions {
    /// The default options: an exponent of one half and no fusion.
    fn default() -> (o: Self)
        ensures
            o.alpha == 512,
            !o.fusion,
            o.fusion_strength == 512,
    {
        Self { alpha: 512, fusion: false, fusion_strength: 512 }
    }
}

/// Why an enhancement call rejected its input buffer.
#[derive(Debug, Clone, Copy, PartialEq, Eq)]
pub enum EnhanceError {
    /// The buffer is empty: there is no pixel to enhance.
    EmptyImage,
    /// The buffer's length is not a multiple of its pixel stride.
    StrideMismatch,
    /// The width is zero or does not divide the luma plane's length.
    WidthMismatch,
}

/// The blend ratio an option set asks for: 1024 (fully enhanced) without
/// fusion, else the fusion strength capped at 1024.
pub open spec fn spec_ratio(o: AgcwdOptions) -> int {
    if o.fusion {
        if o.fusion_strength > 1024 {
            1024
        } else {
            o.fusion_strength as int
        }
    } else {
        1024
    }
}

/// The brightness histogram of the first `n` pixels of a buffer.
pub open spec fn spec_hist_of(p: Seq<u8>, fmt: PixelFormat, n: int) -> Seq<u64> {
    Seq::new(256, |x: int| count_val(spec_intensity_seq(p, fmt, n), x) as u64)
}

/// The law of histogram totals: the brightness histogram of the first `n`
/// pixels of any buffer has counters that sum to exactly `n`.
pub proof fn lemma_histogram_sum(p: Seq<u8>, fmt: PixelFormat, n: int)
    requires
        0 <= n < 0x1_0000_0000_0000_0000,
    ensures
        sum_u64(spec_hist_of(p, fmt, n)) == n,
{
    lemma_counts_sum_to_len(spec_intensity_seq(p, fmt, n));
    assert(spec_hist_of(p, fmt, n) =~= Seq::new(
        256,
        |x: int| count_val(spec_intensity_seq(p, fmt, n), x) as u64,
    ));
}

/// The gamma curve an image yields: its histogram normalized to a density,
/// reshaped by the weighting distribution with exponent `alpha / 1024`,
/// integrated into a cumulative density, and turned into the per-level
/// gamma table.
pub open spec fn spec_curve_of(p: Seq<u8>, fmt: PixelFormat, n: int, alpha: nat) -> Seq<u8> {
    spec_curve(spec_cdf(spec_weighted(spec_pdf(spec_hist_of(p, fmt, n), n), alpha)))
}

/// A whole buffer after enhancement: every byte of the first `n` pixels is
/// rewritten through the image's own gamma curve, everything after them is
/// untouched.
pub open spec fn spec_enhanced(
    p: Seq<u8>,
    fmt: PixelFormat,
    n: int,
    alpha: nat,
    ratio: int,
) -> Seq<u8> {
    let curve = spec_curve_of(p, fmt, n, alpha);
    Seq::new(
        p.len(),
        |m: int|
            if m < n * fmt.spec_stride() {
                spec_enhanced_at(p, fmt, curve, ratio, m) as u8
            } else {
                p[m]
            },
    )
}

/// [`Agcwd`] provides methods to enhance image contrast with adaptive gamma
/// correction and a weighting distribution.
#[derive(Debug)]
pub struct Agcwd {
    /// The options every enhancement call uses.
    pub options: AgcwdOptions,
}

impl Agcwd {
    /// Makes a new [`Agcwd`] instance with the default options.
    pub fn new() -> (a: Self)
        ensures
            a.options.alpha == 512,
            !a.options.fusion,
            a.options.fusion_strength == 512,
    {
        Self::with_options(AgcwdOptions { alpha: 512, fusion: false, fusion_strength: 512 })
    }

    /// Makes a new [`Agcwd`] instance with the given options.
    pub fn with_options(options: AgcwdOptions) -> (a: Self)
        ensures
            a.options == options,
    {
        Self { options }
    }

    /// Enhances the contrast of an image in place: builds the gamma curve
    /// from the image's brightness histogram and rewrites every pixel
    /// through it.
    #[verifier::rlimit(50)]
    fn enhance_image(&self, image: &mut Image)
        requires
            old(image).wf(),
            old(image).size > 0,
        ensures
            final(image).format == old(image).format,
            final(image).size == old(image).size,
            final(image).pixels@ == spec_enhanced(
                old(image).pixels@,
                old(image).format,
                old(image).size as int,
                self.options.alpha as nat,
                spec_ratio(self.options),
            ),
    {
        let ghost p0 = image.pixels@;
        let ghost fmt = image.format;
        let ghost n = image.size as int;

        let values = image.intensities();
        let hist = Histogram::new(&values);
        proof {
            assert(hist.counts@ =~= spec_hist_of(p0, fmt, n));
        }
        let pdf = Pdf::new(&hist);
        proof {
            assert(pdf.0@ == spec_pdf(spec_hist_of(p0, fmt, n), n));
        }
        let pdf_w = pdf.to_weighting_distribution(self.options.alpha);
        let cdf_w = Cdf::new(&pdf_w);
        let curve = IntensityTransformationCurve::new(&cdf_w);
        proof {
            assert(curve.table@ == spec_curve_of(p0, fmt, n, self.options.alpha as nat));
        }
        let ratio: u16 = if self.options.fusion {
            if self.options.fusion_strength > 1024 {
                1024
            } else {
                self.options.fusion_strength
            }
        } else {
            1024
        };
        image.update_pixels(&curve, ratio);
        proof {
            assert(ratio as int == spec_ratio(self.options));
            lemma_enhanced_glue(
                p0,
                fmt,
                n,
                self.options.alpha as nat,
                spec_ratio(self.options),
                curve.table@,
                image.pixels@,
            );
        }
    }

    /// Enhances the contrast of an RGB image: the buffer holds interleaved
    /// 3-byte pixels. Rejects a buffer that is empty or whose length is not
    /// a multiple of 3, leaving it untouched.
    pub fn enhance_rgb_image(&self, pixels: &mut Vec<u8>) -> (r: Result<(), EnhanceError>)
        ensures
            r is Ok <==> old(pixels)@.len() > 0 && old(pixels)@.len() % 3 == 0,
            r == Err::<(), EnhanceError>(EnhanceError::EmptyImage) <==> old(pixels)@.len() == 0,
            r == Err::<(), EnhanceError>(EnhanceError::StrideMismatch) <==> old(pixels)@.len() > 0
                && old(pixels)@.len() % 3 != 0,
            r is Ok ==> final(pixels)@ == spec_enhanced(
                old(pixels)@,
                PixelFormat::Rgb,
                old(pixels)@.len() as int / 3,
                self.options.alpha as nat,
                spec_ratio(self.options),
            ),
            r is Err ==> final(pixels)@ == old(pixels)@,
    {
        if pixels.len() == 0 {
            return Err(EnhanceError::EmptyImage);
        }
        if pixels.len() % 3 != 0 {
            return Err(EnhanceError::StrideMismatch);
        }
        let mut buf: Vec<u8> = Vec::new();
        core::mem::swap(pixels, &mut buf);
        let mut image = Image::new(buf, PixelFormat::Rgb);
        proof {
            vstd::arithmetic::div_mod::lemma_div_pos_is_pos(image.pixels@.len() as int, 3);
            vstd::arithmetic::div_mod::lemma_div_non_zero(image.pixels@.len() as int, 3);
        }
        self.enhance_image(&mut image);
        let mut out = image.pixels;
        core::mem::swap(pixels, &mut out);
        Ok(())
    }

    /// Enhances the contrast of an RGBA image: the buffer holds interleaved
    /// 4-byte pixels whose fourth byte is never touched. Rejects a buffer
    /// that is empty or whose length is not a multiple of 4, leaving it
    /// untouched.
    pub fn enhance_rgba_image(&self, pixels: &mut Vec<u8>) -> (r: Result<(), EnhanceError>)
        ensures
            r is Ok <==> old(pixels)@.len() > 0 && old(pixels)@.len() % 4 == 0,
            r == Err::<(), EnhanceError>(EnhanceError::EmptyImage) <==> old(pixels)@.len() == 0,
            r == Err::<(), EnhanceError>(EnhanceError::StrideMismatch) <==> old(pixels)@.len() > 0
                && old(pixels)@.len() % 4 != 0,
            r is Ok ==> final(pixels)@ == spec_enhanced(
                old(pixels)@,
                PixelFormat::Rgba,
                old(pixels)@.len() as int / 4,
                self.options.alpha as nat,
                spec_ratio(self.options),
            ),
            r is Ok ==> forall|m: int|
                0 <= m < old(pixels)@.len() && m % 4 == 3 ==> final(pixels)@[m] == old(
                    pixels,
                )@[m],
            r is Err ==> final(pixels)@ == old(pixels)@,
    {
        if pixels.len() == 0 {
            return Err(EnhanceError::EmptyImage);
        }
        if pixels.len() % 4 != 0 {
            return Err(EnhanceError::StrideMismatch);
        }
        let mut buf: Vec<u8> = Vec::new();
        core::mem::swap(pixels, &mut buf);
        let mut image = Image::new(buf, PixelFormat::Rgba);
        proof {
            vstd::arithmetic::div_mod::lemma_div_pos_is_pos(image.pixels@.len() as int, 4);
            vstd::arithmetic::div_mod::lemma_div_non_zero(image.pixels@.len() as int, 4);
        }
        self.enhance_image(&mut image);
        let mut out = image.pixels;
        core::mem::swap(pixels, &mut out);
        proof {
            lemma_alpha_bytes_preserved(
                old(pixels)@,
                self.options.alpha as nat,
                spec_ratio(self.options),
            );
        }
        Ok(())
    }

    /// Enhances the contrast of a planar YUV image laid out as I420: the
    /// luma plane is the first two thirds of the buffer and is rewritten
    /// through the gamma curve directly; the chroma planes after it are
    /// never touched. Rejects a buffer that is empty or not divisible into
    /// an I420 frame of the given width, leaving it untouched.
    pub fn enhance_planar_luma(&self, pixels: &mut Vec<u8>, width: usize) -> (r: Result<
        (),
        EnhanceError,
    >)
        ensures
            r is Ok <==> old(pixels)@.len() > 0 && old(pixels)@.len() % 3 == 0 && width > 0 && (2
                * (old(pixels)@.len() as int / 3)) % (width as int) == 0,
            r == Err::<(), EnhanceError>(EnhanceError::EmptyImage) <==> old(pixels)@.len() == 0,
            r == Err::<(), EnhanceError>(EnhanceError::StrideMismatch) <==> old(pixels)@.len() > 0
                && old(pixels)@.len() % 3 != 0,
            r == Err::<(), EnhanceError>(EnhanceError::WidthMismatch) <==> old(pixels)@.len() > 0
                && old(pixels)@.len() % 3 == 0 && (width == 0 || (2 * (old(
                pixels,
            )@.len() as int / 3)) % (width as int) != 0),
            r is Ok ==> final(pixels)@ == spec_enhanced(
                old(pixels)@,
                PixelFormat::Luma,
                2 * (old(pixels)@.len() as int / 3),
                self.options.alpha as nat,
                spec_ratio(self.options),
            ),
            r is Err ==> final(pixels)@ == old(pixels)@,
    {
        if pixels.len() == 0 {
            return Err(EnhanceError::EmptyImage);
        }
        if pixels.len() % 3 != 0 {
            return Err(EnhanceError::StrideMismatch);
        }
        let third = pixels.len() / 3;
        proof {
            vstd::arithmetic::div_mod::lemma_fundamental_div_mod(pixels@.len() as int, 3);
            vstd::arithmetic::div_mod::lemma_div_non_zero(pixels@.len() as int, 3);
        }
        let luma_len = third * 2;
        if width == 0 || luma_len % width != 0 {
            return Err(EnhanceError::WidthMismatch);
        }
        let mut buf: Vec<u8> = Vec::new();
        core::mem::swap(pixels, &mut buf);
        let mut image = Image::new_planar(buf, luma_len);
        self.enhance_image(&mut image);
        let mut out = image.pixels;
        core::mem::swap(pixels, &mut out);
        Ok(())
    }
}

/// A buffer whose first `n` pixels were rewritten through the image's own
/// gamma curve, and whose tail is untouched, is the enhanced buffer.
proof fn lemma_enhanced_glue(
    p0: Seq<u8>,
    fmt: PixelFormat,
    n: int,
    alpha: nat,
    ratio: int,
    ct: Seq<u8>,
    result: Seq<u8>,
)
    requires
        0 <= n,
        n * fmt.spec_stride() <= p0.len(),
        ct == spec_curve_of(p0, fmt, n, alpha),
        result.len() == p0.len(),
        forall|m: int|
            0 <= m < n * fmt.spec_stride() ==> result[m] as int == spec_enhanced_at(
                p0,
                fmt,
                ct,
                ratio,
                m,
            ),
        forall|m: int| n * fmt.spec_stride() <= m < p0.len() ==> result[m] == p0[m],
    ensures
        result == spec_enhanced(p0, fmt, n, alpha, ratio),
{
    assert(result =~= spec_enhanced(p0, fmt, n, alpha, ratio));
}

/// The law of alpha preservation: enhancing an RGBA buffer never changes a
/// byte at an index congruent to 3 modulo 4.
pub proof fn lemma_alpha_bytes_preserved(p: Seq<u8>, alpha: nat, ratio: int)
    ensures
        forall|m: int|
            0 <= m < p.len() && m % 4 == 3 ==> #[trigger] spec_enhanced(
                p,
                PixelFormat::Rgba,
                p.len() as int / 4,
                alpha,
                ratio,
            )[m] == p[m],
{
    let n = p.len() as int / 4;
    let q = spec_enhanced(p, PixelFormat::Rgba, n, alpha, ratio);
    assert forall|m: int| 0 <= m < p.len() && m % 4 == 3 implies #[trigger] q[m] == p[m] by {
        if m < n * 4 {
            assert(q[m] as int == spec_enhanced_at(
                p,
                PixelFormat::Rgba,
                spec_curve_of(p, PixelFormat::Rgba, n, alpha),
                ratio,
                m,
            ));
        }
    }
}

} // verus!
