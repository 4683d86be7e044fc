use agcwd::{Agcwd, AgcwdOptions, EnhanceError};

#[test]
fn enhance_rgb_image_works() {
    let mut pixels = vec![1, 2, 3, 4, 5, 6];
    let agcwd = Agcwd::new();
    let r = agcwd.enhance_rgb_image(&mut pixels);
    assert!(r.is_ok());
}

#[test]
fn enhance_rgba_image_works() {
    let mut pixels = vec![1, 2, 3, 4, 5, 6, 7, 8];
    let agcwd = Agcwd::new();
    let r = agcwd.enhance_rgba_image(&mut pixels);
    assert!(r.is_ok());
}

#[test]
fn enhance_rgb_two_pixel_golden() {
    let mut pixels = vec![0, 1, 2, 3, 4, 5];
    let agcwd = Agcwd::new();
    agcwd.enhance_rgb_image(&mut pixels).unwrap();
    assert_eq!(pixels, vec![0, 11, 23, 153, 205, 255]);
}

#[test]
fn enhance_rgb_golden_values() {
    let mut pixels = vec![1, 2, 3, 4, 5, 6];
    let agcwd = Agcwd::new();
    agcwd.enhance_rgb_image(&mut pixels).unwrap();
    assert_eq!(pixels, vec![9, 18, 28, 170, 214, 255]);
}

#[test]
fn enhance_rgba_preserves_every_fourth_byte() {
    let mut pixels = vec![1, 2, 3, 4, 5, 6, 7, 8];
    let agcwd = Agcwd::new();
    agcwd.enhance_rgba_image(&mut pixels).unwrap();
    assert_eq!(pixels, vec![9, 18, 28, 4, 183, 220, 255, 8]);
    assert_eq!(pixels[3], 4);
    assert_eq!(pixels[7], 8);
}

#[test]
fn enhance_rgba_preserves_alpha_on_larger_image() {
    let mut pixels = Vec::new();
    for j in 0..64u8 {
        pixels.extend_from_slice(&[j, 255 - j, j.wrapping_mul(3), 200 + (j % 50)]);
    }
    let original = pixels.clone();
    let agcwd = Agcwd::new();
    agcwd.enhance_rgba_image(&mut pixels).unwrap();
    for j in 0..64 {
        assert_eq!(pixels[4 * j + 3], original[4 * j + 3]);
    }
}

#[test]
fn enhance_planar_luma_touches_only_the_luma_plane() {
    let mut pixels = vec![10, 20, 30, 40, 50, 60, 70, 80, 90, 100, 110, 120];
    let agcwd = Agcwd::new();
    agcwd.enhance_planar_luma(&mut pixels, 4).unwrap();
    assert_eq!(pixels, vec![15, 38, 67, 101, 138, 178, 217, 255, 90, 100, 110, 120]);
}

#[test]
fn fusion_blends_enhanced_with_original() {
    let mut pixels = vec![0, 1, 2, 3, 4, 5];
    let agcwd = Agcwd::with_options(AgcwdOptions {
        alpha: 512,
        fusion: true,
        fusion_strength: 512,
    });
    agcwd.enhance_rgb_image(&mut pixels).unwrap();
    assert_eq!(pixels, vec![0, 6, 13, 78, 105, 130]);
}

#[test]
fn flat_image_yields_a_defined_result() {
    // A single-intensity image: the weighting denominator is saved from a
    // division by zero by the epsilon quantum, and the single populated
    // level, where the cumulative density reaches one, is stretched to full
    // brightness.
    let mut pixels = vec![128; 8 * 8 * 3];
    let agcwd = Agcwd::new();
    agcwd.enhance_rgb_image(&mut pixels).unwrap();
    assert!(pixels.iter().all(|&b| b == 255));

    // Black is the exception: the curve provably starts at zero.
    let mut black = vec![0; 8 * 8 * 3];
    agcwd.enhance_rgb_image(&mut black).unwrap();
    assert!(black.iter().all(|&b| b == 0));
}

#[test]
fn empty_buffer_is_rejected() {
    let agcwd = Agcwd::new();
    let mut pixels: Vec<u8> = Vec::new();
    assert_eq!(agcwd.enhance_rgb_image(&mut pixels), Err(EnhanceError::EmptyImage));
    assert_eq!(agcwd.enhance_rgba_image(&mut pixels), Err(EnhanceError::EmptyImage));
    assert_eq!(agcwd.enhance_planar_luma(&mut pixels, 4), Err(EnhanceError::EmptyImage));
}

#[test]
fn misaligned_buffer_is_rejected_and_untouched() {
    let agcwd = Agcwd::new();
    let mut pixels = vec![1, 2, 3, 4];
    assert_eq!(agcwd.enhance_rgb_image(&mut pixels), Err(EnhanceError::StrideMismatch));
    assert_eq!(pixels, vec![1, 2, 3, 4]);

    let mut pixels = vec![1, 2, 3];
    assert_eq!(agcwd.enhance_rgba_image(&mut pixels), Err(EnhanceError::StrideMismatch));
    assert_eq!(pixels, vec![1, 2, 3]);
}

#[test]
fn bad_planar_width_is_rejected_and_untouched() {
    let agcwd = Agcwd::new();
    let mut pixels = vec![1, 2, 3, 4, 5, 6];
    assert_eq!(agcwd.enhance_planar_luma(&mut pixels, 0), Err(EnhanceError::WidthMismatch));
    assert_eq!(agcwd.enhance_planar_luma(&mut pixels, 3), Err(EnhanceError::WidthMismatch));
    assert_eq!(pixels, vec![1, 2, 3, 4, 5, 6]);
    let mut odd = vec![1, 2, 3, 4];
    assert_eq!(agcwd.enhance_planar_luma(&mut odd, 2), Err(EnhanceError::StrideMismatch));
    assert_eq!(odd, vec![1, 2, 3, 4]);
}

#[test]
fn default_options() {
    let o = AgcwdOptions::default();
    assert_eq!(o.alpha, 512);
    assert!(!o.fusion);
    assert_eq!(o.fusion_strength, 512);
}
