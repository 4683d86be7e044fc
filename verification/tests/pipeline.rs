use agcwd::curve::IntensityTransformationCurve;
use agcwd::dist::{Cdf, Histogram, Pdf};
use agcwd::fixed::SCALE;

fn sample_stages(values: &Vec<u8>, alpha: u16) -> (Histogram, Cdf, IntensityTransformationCurve) {
    let hist = Histogram::new(values);
    let pdf = Pdf::new(&hist);
    let pdf_w = pdf.to_weighting_distribution(alpha);
    let cdf = Cdf::new(&pdf_w);
    let curve = IntensityTransformationCurve::new(&cdf);
    (hist, cdf, curve)
}

#[test]
fn histogram_counters_sum_to_the_pixel_count() {
    let values: Vec<u8> = (0..=255).chain(vec![7u8; 100]).chain(vec![200u8; 3]).collect();
    let hist = Histogram::new(&values);
    assert_eq!(hist.counts.len(), 256);
    let sum: u64 = hist.counts.iter().sum();
    assert_eq!(sum, values.len() as u64);
    assert_eq!(hist.total, values.len() as u64);
    assert_eq!(hist.counts[7], 1 + 100);
    assert_eq!(hist.counts[200], 1 + 3);
}

#[test]
fn cdf_is_nondecreasing_and_ends_at_one() {
    let values: Vec<u8> = (0..200u8).map(|x| x.wrapping_mul(41)).collect();
    let (_, cdf, _) = sample_stages(&values, 512);
    assert_eq!(cdf.0.len(), 256);
    for i in 0..255 {
        assert!(cdf.0[i] <= cdf.0[i + 1]);
    }
    assert_eq!(cdf.0[255], SCALE);
}

#[test]
fn cdf_of_a_flat_spike_is_a_step_ending_at_one() {
    let values = vec![128u8; 64];
    let (_, cdf, curve) = sample_stages(&values, 512);
    assert_eq!(cdf.0[127], 0);
    assert_eq!(cdf.0[128], SCALE);
    assert_eq!(cdf.0[255], SCALE);
    // The curve is still defined everywhere: identity below the spike,
    // saturated from the spike on.
    assert_eq!(curve.table[0], 0);
    assert_eq!(curve.table[127], 127);
    assert_eq!(curve.table[128], 255);
}

#[test]
fn uniform_weighting_falls_back_to_the_uniform_cdf() {
    // Every level equally populated: the weighting distribution is all
    // zeros and normalizes to the uniform cumulative density.
    let values: Vec<u8> = (0..=255u8).collect();
    let (_, cdf, _) = sample_stages(&values, 512);
    assert_eq!(cdf.0[255], SCALE);
    assert_eq!(cdf.0[127], 128 * SCALE / 256);
    for i in 0..255 {
        assert!(cdf.0[i] <= cdf.0[i + 1]);
    }
}

#[test]
fn curve_starts_at_zero_and_is_nondecreasing() {
    let values: Vec<u8> = (0..240u8).map(|x| x.wrapping_mul(13) / 2).collect();
    let (_, _, curve) = sample_stages(&values, 512);
    assert_eq!(curve.table.len(), 256);
    assert_eq!(curve.table[0], 0);
    for i in 0..255 {
        assert!(curve.table[i] <= curve.table[i + 1]);
    }
    assert_eq!(curve.table[255], 255);
}

#[test]
fn alpha_near_zero_flattens_the_weighting() {
    let values: Vec<u8> = (0..100u8).collect();
    let (_, _, strong) = sample_stages(&values, 1024);
    let (_, _, weak) = sample_stages(&values, 1);
    assert_eq!(strong.table[0], 0);
    assert_eq!(weak.table[0], 0);
    for i in 0..256 {
        assert!(weak.table[i] <= 255 && strong.table[i] <= 255);
    }
}
