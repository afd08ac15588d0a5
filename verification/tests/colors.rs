use rustcolors::color::RGB;
use rustcolors::parse::ParseError;

fn rgb(r: u8, g: u8, b: u8) -> RGB {
    RGB { r, g, b }
}

#[test]
fn parse_hex_with_hash() {
    assert_eq!(RGB::from_str("#FF0000"), Ok(rgb(255, 0, 0)));
}

#[test]
fn parse_hex_bare() {
    assert_eq!(RGB::from_str("FF0000"), Ok(rgb(255, 0, 0)));
}

#[test]
fn parse_decimal_triple() {
    assert_eq!(RGB::from_str("255,0,0"), Ok(rgb(255, 0, 0)));
}

#[test]
fn parse_all_digit_string_is_hex() {
    assert_eq!(RGB::from_str("112233"), Ok(rgb(0x11, 0x22, 0x33)));
}

#[test]
fn parse_two_parts_is_invalid_format() {
    assert_eq!(RGB::from_str("12,34"), Err(ParseError::InvalidFormat));
}

#[test]
fn parse_bad_hex_is_component_error() {
    assert_eq!(RGB::from_str("#ZZZZZZ"), Err(ParseError::InvalidRedComponent));
}

#[test]
fn parse_out_of_range_decimal() {
    assert_eq!(RGB::from_str("300,0,0"), Err(ParseError::InvalidRedComponent));
    assert_eq!(RGB::from_str("0,256,0"), Err(ParseError::InvalidGreenComponent));
    assert_eq!(RGB::from_str("0,0,999"), Err(ParseError::InvalidBlueComponent));
}

#[test]
fn parse_trims_whitespace() {
    assert_eq!(RGB::from_str("  #ff0000 \t"), Ok(rgb(255, 0, 0)));
    assert_eq!(RGB::from_str(" 10 , 20 , 30 "), Ok(rgb(10, 20, 30)));
}

#[test]
fn parse_rejects_malformed() {
    assert_eq!(RGB::from_str(""), Err(ParseError::InvalidFormat));
    assert_eq!(RGB::from_str("#123"), Err(ParseError::InvalidFormat));
    assert_eq!(RGB::from_str("1,2,3,4"), Err(ParseError::InvalidFormat));
    assert_eq!(RGB::from_str("1,,3"), Err(ParseError::InvalidGreenComponent));
}

#[test]
fn complement_black_and_white() {
    assert_eq!(rgb(0, 0, 0).complement(), rgb(255, 255, 255));
    assert_eq!(rgb(255, 255, 255).complement(), rgb(0, 0, 0));
}

#[test]
fn complement_is_channel_wise() {
    assert_eq!(rgb(10, 200, 77).complement(), rgb(245, 55, 178));
}

#[test]
fn achromatic_hsl_has_zero_hue_and_saturation() {
    let hsl = rgb(128, 128, 128).to_hsl();
    assert_eq!(hsl.h.num, 0);
    assert_eq!(hsl.s.num, 0);
    // lightness is 25600/510 percent, about 50.2
    assert_eq!(hsl.l.num, 25600);
    assert_eq!(hsl.l.den, 510);
}

#[test]
fn red_hsl_values() {
    let hsl = rgb(255, 0, 0).to_hsl();
    assert_eq!(hsl.h.num, 0);
    assert_eq!(hsl.s.num as i128, 100 * hsl.s.den as i128);
    assert_eq!(hsl.l.num as i128, 50 * hsl.l.den as i128);
}

#[test]
fn round_trip_is_exact() {
    let samples = [
        rgb(0, 0, 0),
        rgb(255, 255, 255),
        rgb(255, 0, 0),
        rgb(12, 34, 56),
        rgb(1, 2, 3),
        rgb(200, 100, 50),
        rgb(128, 128, 128),
        rgb(254, 255, 253),
        rgb(0, 128, 255),
    ];
    for c in samples {
        assert_eq!(c.to_hsl().to_rgb(), c);
    }
}

#[test]
fn round_trip_exhaustive_slice() {
    for r in 0..=255u8 {
        for g in [0u8, 1, 17, 128, 200, 255] {
            let c = rgb(r, g, 77);
            assert_eq!(c.to_hsl().to_rgb(), c);
        }
    }
}

#[test]
fn triads_of_red_are_red_green_blue() {
    let t = rgb(255, 0, 0).triads();
    assert_eq!(t.len(), 3);
    assert_eq!(t[0], rgb(255, 0, 0));
    assert_eq!(t[1], rgb(0, 255, 0));
    assert_eq!(t[2], rgb(0, 0, 255));
    // hues of the members: exactly 0, 120, 240 degrees
    for (c, want) in t.iter().zip([0i64, 120, 240]) {
        let h = c.to_hsl().h;
        assert_eq!(h.num as i128, want as i128 * h.den as i128);
    }
}

#[test]
fn tetrads_step_by_ninety_degrees() {
    let base = rgb(255, 0, 0);
    let t = base.tetrads();
    assert_eq!(t.len(), 4);
    assert_eq!(t[0], base);
    // successive hues differ by 90 degrees, within rounding tolerance
    let mut prev = 0.0f64;
    for c in t.iter().skip(1) {
        let h = c.to_hsl().h;
        let hv = h.num as f64 / h.den as f64;
        let mut diff = (hv - prev) % 360.0;
        if diff < 0.0 {
            diff += 360.0;
        }
        assert!((diff - 90.0).abs() < 1.0, "hue step was {}", diff);
        prev = hv;
    }
}

#[test]
fn rotate_by_negative_angle() {
    // red turned back by 120 degrees is blue
    assert_eq!(rgb(255, 0, 0).rotate_hue(-120), rgb(0, 0, 255));
}

#[test]
fn rotation_matches_float_reference() {
    // the exact rational conversion agrees with a double-precision
    // evaluation of the same formulas
    let samples = [rgb(200, 100, 50), rgb(3, 250, 90), rgb(0, 0, 1)];
    for c in samples {
        let hsl = c.to_hsl();
        let (rf, gf, bf) = (c.r as f64 / 255.0, c.g as f64 / 255.0, c.b as f64 / 255.0);
        let max = rf.max(gf.max(bf));
        let min = rf.min(gf.min(bf));
        let l = (max + min) / 2.0;
        let lv = hsl.l.num as f64 / hsl.l.den as f64;
        assert!((lv - l * 100.0).abs() < 1e-9);
    }
}

#[test]
fn hex_rendering() {
    assert_eq!(rgb(255, 0, 0).to_hex(), "#FF0000");
    assert_eq!(rgb(1, 171, 18).to_hex(), "#01AB12");
}

#[test]
fn ansi_block_rendering() {
    assert_eq!(
        rgb(1, 22, 193).to_ansi_color_block(),
        "\u{1b}[48;2;1;22;193m        \u{1b}[0m"
    );
}

#[test]
fn display_rendering() {
    assert_eq!(
        rgb(255, 0, 0).display_with_color(),
        "\u{1b}[48;2;255;0;0m        \u{1b}[0m #FF0000"
    );
}
