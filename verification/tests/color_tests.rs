use canvas2d::color::{Color, ColorFormat};

#[test]
fn color_roundtrip_all_bytes() {
    // each channel recovers every byte value exactly
    for v in 0..=255u8 {
        let c = Color::new(v, 0, 0, 0);
        assert_eq!(c.r(), v);
        let c = Color::new(0, v, 0, 0);
        assert_eq!(c.g(), v);
        let c = Color::new(0, 0, v, 0);
        assert_eq!(c.b(), v);
        let c = Color::new(0, 0, 0, v);
        assert_eq!(c.a(), v);
    }
    let c = Color::new(10, 20, 30, 40);
    assert_eq!(c.r(), 10);
    assert_eq!(c.g(), 20);
    assert_eq!(c.b(), 30);
    assert_eq!(c.a(), 40);
}

#[test]
fn color_packed_layout() {
    // alpha is the most significant byte, then red, green, blue
    let c = Color::new(0x12, 0x34, 0x56, 0x78);
    assert_eq!(c.0, 0x78123456);
}

#[test]
fn with_alpha_replaces_only_alpha() {
    let c = Color::new(10, 20, 30, 40).with_alpha(99);
    assert_eq!(c.r(), 10);
    assert_eq!(c.g(), 20);
    assert_eq!(c.b(), 30);
    assert_eq!(c.a(), 99);
}

#[test]
fn hsv_primary_hues() {
    let red = Color::hsv_to_rgb(0, 255, 255);
    assert_eq!((red.r(), red.g(), red.b(), red.a()), (255, 0, 0, 255));
    let green = Color::hsv_to_rgb(120, 255, 255);
    assert_eq!((green.r(), green.g(), green.b(), green.a()), (0, 255, 0, 255));
    let blue = Color::hsv_to_rgb(240, 255, 255);
    assert_eq!((blue.r(), blue.g(), blue.b(), blue.a()), (0, 0, 255, 255));
}

#[test]
fn hsv_zero_saturation_is_gray() {
    for h in [0u32, 1, 59, 60, 119, 120, 180, 300, 359, 720] {
        for v in [0u8, 1, 100, 200, 255] {
            let c = Color::hsv_to_rgb(h, 0, v);
            assert_eq!((c.r(), c.g(), c.b(), c.a()), (v, v, v, 255));
        }
    }
}

#[test]
fn hsv_alpha_always_opaque() {
    for h in (0..360).step_by(7) {
        let c = Color::hsv_to_rgb(h, 200, 150);
        assert_eq!(c.a(), 255);
    }
}

#[test]
fn fmt_debug_decimal() {
    let c = Color::new(10, 20, 30, 40);
    assert_eq!(c.fmt_debug(ColorFormat::Rgba), "Color(r: 10, g: 20, b: 30, a: 40)");
    let c = Color::new(0, 5, 255, 100);
    assert_eq!(c.fmt_debug(ColorFormat::Rgba), "Color(r: 0, g: 5, b: 255, a: 100)");
}

#[test]
fn fmt_debug_hex() {
    let c = Color::new(0x0A, 0x14, 0x1E, 40);
    assert_eq!(c.fmt_debug(ColorFormat::RGBHex), "Color(#0A141E)");
    let c = Color::new(255, 0, 171, 0);
    assert_eq!(c.fmt_debug(ColorFormat::RGBHex), "Color(#FF00AB)");
}

#[test]
fn hsv_secondary_hues() {
    let yellow = Color::hsv_to_rgb(60, 255, 255);
    assert_eq!((yellow.r(), yellow.g(), yellow.b()), (255, 255, 0));
    let cyan = Color::hsv_to_rgb(180, 255, 255);
    assert_eq!((cyan.r(), cyan.g(), cyan.b()), (0, 255, 255));
    let magenta = Color::hsv_to_rgb(300, 255, 255);
    assert_eq!((magenta.r(), magenta.g(), magenta.b()), (255, 0, 255));
}

#[test]
fn hsv_wraps_hue() {
    let a = Color::hsv_to_rgb(30, 200, 220);
    let b = Color::hsv_to_rgb(390, 200, 220);
    assert_eq!(a.0, b.0);
}

#[test]
fn hsv_mid_sector_value() {
    // halfway into the second sector the red channel carries half chroma
    let c = Color::hsv_to_rgb(90, 255, 255);
    assert_eq!((c.r(), c.g(), c.b(), c.a()), (127, 255, 0, 255));
}
