use jelly_cursor::color::{is_white_space, mix, parse_hex_color, COLOR_ALPHA};
use jelly_cursor::single::Single;

#[test]
fn parses_hex_colors() {
    assert_eq!(
        parse_hex_color("#cba6f7"),
        Some([0xf7, 0xa6, 0xcb, COLOR_ALPHA])
    );
    assert_eq!(
        parse_hex_color("cba6f7"),
        Some([0xf7, 0xa6, 0xcb, COLOR_ALPHA])
    );
    assert_eq!(parse_hex_color("#cba6f780"), Some([0xf7, 0xa6, 0xcb, 0x80]));
    assert_eq!(parse_hex_color("not-a-color"), None);
    assert_eq!(parse_hex_color("#abc"), None);
}

#[test]
fn white_space_is_that_of_unicode() {
    for n in 0..=0x10ffffu32 {
        if let Some(c) = char::from_u32(n) {
            assert_eq!(is_white_space(c), c.is_whitespace(), "{n:x}");
        }
    }
}

#[test]
fn colors_are_trimmed() {
    let sky = Some([0xeb, 0xdc, 0x89, COLOR_ALPHA]);
    assert_eq!(parse_hex_color(" \t\u{a0}#89dceb\u{2003}\n"), sky);
    assert_eq!(parse_hex_color("##89dceb"), None);
    assert_eq!(parse_hex_color("# 89dceb"), None);
    assert_eq!(parse_hex_color("89 dceb"), None);
}

#[test]
fn colors_are_read_in_either_case() {
    assert_eq!(parse_hex_color("#CBA6F7"), parse_hex_color("#cba6f7"));
    assert_eq!(parse_hex_color("aBcDeF09"), Some([0xef, 0xcd, 0xab, 0x09]));
}

#[test]
fn a_sign_is_no_digit() {
    assert_eq!(parse_hex_color("+1+2+f"), None);
    assert_eq!(parse_hex_color("+f+f+f"), None);
    assert_eq!(parse_hex_color("#+1+2+3+4"), None);
    assert_eq!(parse_hex_color("-1+2+f"), None);
    assert_eq!(parse_hex_color("1+2+f+"), None);
}

#[test]
fn other_strings_have_no_color() {
    for s in [
        "",
        "#",
        "   ",
        "12345",
        "1234567",
        "123456789",
        "12345g",
        "1234567g",
        "a\u{e9}bcd",
        "\u{e9}\u{e9}\u{e9}",
        "12345\u{e9}6",
        "\u{ff11}\u{ff12}",
    ] {
        assert_eq!(parse_hex_color(s), None, "{s:?}");
    }
}

#[test]
fn mixtures_agree_with_the_machine() {
    for a in [0u8, 1, 7, 100, 127, 128, 200, 254, 255] {
        for b in [0u8, 3, 64, 128, 255] {
            for k in 0..=64u32 {
                let t = k as f32 / 64.0;
                let expected = (a as f32 * (1.0 - t) + b as f32 * t).round() as u8;
                assert_eq!(mix(a, b, Single { bits: t.to_bits() }), expected);
            }
            assert_eq!(mix(a, b, Single { bits: 0.0f32.to_bits() }), a);
            assert_eq!(mix(a, b, Single { bits: 1.0f32.to_bits() }), b);
            assert_eq!(mix(a, b, Single { bits: f32::NAN.to_bits() }), 0);
        }
    }
    assert_eq!(mix(0, 255, Single { bits: 0.5f32.to_bits() }), 128);
}
