use scal::color::{hex, hex_byte, hex_digit, is_valid_hex_color, rgba8_from_u32, Rgba8};

fn unit(v: u8) -> f32 {
    f32::from(v) / 255.0
}

#[test]
fn hex_parses_six_digit() {
    let c = hex("#ff0000");
    assert!((unit(c.r) - 1.0).abs() < f32::EPSILON);
    assert!((unit(c.g) - 0.0).abs() < f32::EPSILON);
    assert!((unit(c.b) - 0.0).abs() < f32::EPSILON);
    assert!((unit(c.a) - 1.0).abs() < f32::EPSILON);
}

#[test]
fn hex_parses_eight_digit() {
    let c = hex("#00ff0080");
    assert!((unit(c.r) - 0.0).abs() < f32::EPSILON);
    assert!((unit(c.g) - 1.0).abs() < f32::EPSILON);
    assert!((unit(c.b) - 0.0).abs() < f32::EPSILON);
    assert!((unit(c.a) - 0.50196).abs() < 0.001);
}

#[test]
fn hex_parses_shorthand() {
    let c = hex("#f0f");
    assert!((unit(c.r) - 1.0).abs() < f32::EPSILON);
    assert!((unit(c.g) - 0.0).abs() < f32::EPSILON);
    assert!((unit(c.b) - 1.0).abs() < f32::EPSILON);
    assert!((unit(c.a) - 1.0).abs() < f32::EPSILON);
}

#[test]
fn hex_parses_shorthand_with_alpha() {
    assert_eq!(hex("#1234"), Rgba8 { r: 0x11, g: 0x22, b: 0x33, a: 0x44 });
    assert_eq!(hex("#A0b1C2"), Rgba8 { r: 0xa0, g: 0xb1, b: 0xc2, a: 255 });
}

#[test]
fn hex_byte_reads_hexadecimal_digits() {
    assert_eq!(hex_byte("ff"), 255);
    assert_eq!(hex_byte("0A"), 10);
    assert_eq!(hex_byte("00ff"), 255);
    assert_eq!(hex_digit(b'7'), 7);
    assert_eq!(hex_digit(b'c'), 12);
    assert_eq!(hex_digit(b'C'), 12);
}

#[test]
fn hex_validity() {
    assert!(is_valid_hex_color("#fff"));
    assert!(is_valid_hex_color("#ffff"));
    assert!(is_valid_hex_color("#ffffff"));
    assert!(is_valid_hex_color("#ffffffff"));
    assert!(!is_valid_hex_color("#+f+f+f"));
    assert!(!is_valid_hex_color("#+f0000"));
    assert!(!is_valid_hex_color("fff"));
    assert!(!is_valid_hex_color("#ff"));
    assert!(!is_valid_hex_color("#fffff"));
    assert!(!is_valid_hex_color("#gggggg"));
    assert!(!is_valid_hex_color("#ff00é"));
    assert!(!is_valid_hex_color(""));
}

#[test]
fn packed_colors() {
    assert_eq!(rgba8_from_u32(0x11121d), Rgba8 { r: 0x11, g: 0x12, b: 0x1d, a: 255 });
    assert_eq!(rgba8_from_u32(0x80ff0000), Rgba8 { r: 0xff, g: 0, b: 0, a: 0x80 });
    assert_eq!(rgba8_from_u32(0), Rgba8 { r: 0, g: 0, b: 0, a: 255 });
}

#[test]
fn palette_from_packed_values() {
    let mut hex_values = [0u32; 16];
    hex_values[0] = 0x11121d;
    hex_values[15] = 0x80773440;
    let p = scal::color::palette_from_hex(&hex_values);
    assert_eq!(p[0], Rgba8 { r: 0x11, g: 0x12, b: 0x1d, a: 255 });
    assert_eq!(p[15], Rgba8 { r: 0x77, g: 0x34, b: 0x40, a: 0x80 });
    assert_eq!(p[7], Rgba8 { r: 0, g: 0, b: 0, a: 255 });
}

#[test]
fn hex_string_and_packed_value_agree() {
    for (s, v) in [("#11121d", 0x11121du32), ("#A0A8CD", 0xa0a8cd), ("#000000", 0)] {
        assert_eq!(hex(s), rgba8_from_u32(v));
    }
}
