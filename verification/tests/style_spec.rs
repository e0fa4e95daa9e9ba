use ratto::color::ColorProfile;
use ratto::style_spec::{color_sgr, parse_color, Color, Layer, StyleSpec};

fn spec_bold_212() -> StyleSpec {
    StyleSpec { bold: true, foreground: Some(Color::Indexed(212)), ..StyleSpec::default() }
}

#[test]
fn ascii_renders_plain() {
    assert_eq!(spec_bold_212().render("X", ColorProfile::Ascii), "X");
}

#[test]
fn empty_spec_renders_plain() {
    assert_eq!(StyleSpec::default().render("X", ColorProfile::TrueColor), "X");
}

#[test]
fn bold_indexed_fg_under_ansi256() {
    assert_eq!(spec_bold_212().render("X", ColorProfile::Ansi256), "\x1b[1;38;5;212mX\x1b[0m");
}

#[test]
fn rgb_under_truecolor() {
    assert_eq!(
        color_sgr(Color::Rgb(255, 0, 0), ColorProfile::TrueColor, Layer::Fg),
        Some("38;2;255;0;0".to_string())
    );
}

#[test]
fn rgb_downsamples_to_256_cube() {
    assert_eq!(
        color_sgr(Color::Rgb(255, 0, 0), ColorProfile::Ansi256, Layer::Fg),
        Some("38;5;196".to_string())
    );
}

#[test]
fn rgb_downsamples_to_basic_under_ansi() {
    assert_eq!(
        color_sgr(Color::Rgb(255, 0, 0), ColorProfile::Ansi, Layer::Fg),
        Some("91".to_string())
    );
}

#[test]
fn named_red_is_31() {
    assert_eq!(color_sgr(Color::Red, ColorProfile::Ansi, Layer::Fg), Some("31".to_string()));
}

#[test]
fn indexed_under_ansi_masks_to_16() {
    assert_eq!(
        color_sgr(Color::Indexed(212), ColorProfile::Ansi, Layer::Fg),
        Some("34".to_string())
    );
}

#[test]
fn background_uses_bg_codes() {
    assert_eq!(
        color_sgr(Color::Indexed(212), ColorProfile::Ansi256, Layer::Bg),
        Some("48;5;212".to_string())
    );
    assert_eq!(color_sgr(Color::Red, ColorProfile::Ansi, Layer::Bg), Some("41".to_string()));
}

#[test]
fn parse_color_accepts_named_index_and_hex() {
    assert_eq!(parse_color("red").unwrap(), Color::Red);
    assert_eq!(parse_color("212").unwrap(), Color::Indexed(212));
    assert_eq!(parse_color("#ff0000").unwrap(), Color::Rgb(255, 0, 0));
    assert!(parse_color("definitely-not-a-color").is_err());
    assert_eq!(
        parse_color("definitely-not-a-color").unwrap_err().message(),
        "invalid color: definitely-not-a-color"
    );
}

#[test]
fn all_attributes_in_prefix() {
    let spec = StyleSpec {
        bold: true,
        faint: true,
        italic: true,
        underline: true,
        strikethrough: true,
        ..StyleSpec::default()
    };
    assert_eq!(spec.sgr_prefix(ColorProfile::Ansi), "1;2;3;4;9");
    assert_eq!(spec.sgr_prefix(ColorProfile::Ascii), "");
}

#[test]
fn grays_use_the_ramp_and_reset_draws_nothing() {
    assert_eq!(
        color_sgr(Color::Rgb(128, 128, 128), ColorProfile::Ansi256, Layer::Fg),
        Some("38;5;244".to_string())
    );
    assert_eq!(
        color_sgr(Color::Rgb(0, 0, 0), ColorProfile::Ansi256, Layer::Bg),
        Some("48;5;16".to_string())
    );
    assert_eq!(color_sgr(Color::Reset, ColorProfile::TrueColor, Layer::Fg), None);
    assert_eq!(color_sgr(Color::White, ColorProfile::Ansi, Layer::Bg), Some("107".to_string()));
}

#[test]
fn the_nearest_basic_color_breaks_ties_toward_the_first() {
    // (92,92,255) is entry 12; pure blue (0,0,238) is entry 4.
    assert_eq!(
        color_sgr(Color::Rgb(0, 0, 240), ColorProfile::Ansi, Layer::Fg),
        Some("34".to_string())
    );
    assert_eq!(
        color_sgr(Color::Rgb(90, 90, 250), ColorProfile::Ansi, Layer::Fg),
        Some("94".to_string())
    );
    assert_eq!(
        color_sgr(Color::Rgb(0, 0, 0), ColorProfile::Ansi, Layer::Fg),
        Some("30".to_string())
    );
}
