use agcwd::color_format::{hsv_to_rgb, hsv_to_yuv, rgb_to_hsv, rgb_to_yuv, yuv_to_hsv, yuv_to_rgb};

#[test]
fn rgb_to_hsv_works() {
    let inputs = [(255, 0, 0), (10, 30, 200), (222, 222, 222)];
    for i in inputs {
        let (h, s, v) = rgb_to_hsv(i.0, i.1, i.2);
        let (r, g, b) = hsv_to_rgb(h, s, v);

        assert!((i32::from(r) - i32::from(i.0)).abs() <= 2);
        assert!((i32::from(g) - i32::from(i.1)).abs() <= 2);
        assert!((i32::from(b) - i32::from(i.2)).abs() <= 2);
    }
}

#[test]
fn rgb_to_yuv_works() {
    let inputs = [(255, 0, 0), (10, 30, 200), (222, 222, 222), (0, 133, 0)];
    for i in inputs {
        let (y, u, v) = rgb_to_yuv(i.0, i.1, i.2);
        let (r, g, b) = yuv_to_rgb(y, u, v);

        assert!((i32::from(r) - i32::from(i.0)).abs() <= 2);
        assert!((i32::from(g) - i32::from(i.1)).abs() <= 2);
        assert!((i32::from(b) - i32::from(i.2)).abs() <= 2);
    }
}

#[test]
fn yuv_to_hsv_works() {
    let inputs = [(83, 89, 79), (188, 128, 128), (124, 90, 55)];
    for i in inputs {
        let (h, s, v) = yuv_to_hsv(i.0, i.1, i.2);
        let (y, u, v) = hsv_to_yuv(h, s, v);

        assert!((i32::from(y) - i32::from(i.0)).abs() <= 2);
        assert!((i32::from(u) - i32::from(i.1)).abs() <= 2);
        assert!((i32::from(v) - i32::from(i.2)).abs() <= 2);
    }
}

#[test]
fn rgb_to_yuv_exact_values() {
    assert_eq!(rgb_to_yuv(255, 0, 0), (82, 90, 239));
    assert_eq!(rgb_to_yuv(0, 0, 0), (16, 128, 128));
    assert_eq!(rgb_to_yuv(255, 255, 255), (235, 128, 128));
}

#[test]
fn gray_round_trip_is_exact() {
    for c in 0..=255u8 {
        let (h, s, v) = rgb_to_hsv(c, c, c);
        assert_eq!((h, s), (0, 0));
        assert_eq!(v, c);
        assert_eq!(hsv_to_rgb(h, s, v), (c, c, c));
    }
}

#[test]
fn round_trip_preserves_brightness() {
    // Hue quantization can move individual channels, but the channel
    // maximum always survives the round trip exactly.
    let triples: [(u8, u8, u8); 5] = [(255, 3, 0), (0, 214, 146), (10, 30, 200), (1, 2, 3), (0, 0, 0)];
    for t in triples {
        let (h, s, v) = rgb_to_hsv(t.0, t.1, t.2);
        let (r, g, b) = hsv_to_rgb(h, s, v);
        assert_eq!(r.max(g).max(b), t.0.max(t.1).max(t.2));
    }
}

#[test]
fn hsv_value_channel_is_preserved() {
    for h in (0..=255u8).step_by(17) {
        for s in (0..=255u8).step_by(17) {
            for v in (0..=255u8).step_by(17) {
                let (r, g, b) = hsv_to_rgb(h, s, v);
                assert_eq!(r.max(g).max(b), v);
            }
        }
    }
}
