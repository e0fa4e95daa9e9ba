use ratto::box_model::{parse_sides, render_box, BorderPreset, BoxSpec, Sides};
use ratto::color::ColorProfile;
use ratto::measure::{display_width, Align};
use ratto::style_spec::{Color, StyleSpec};

#[test]
fn sides_shorthand_follows_css_order() {
    assert_eq!(parse_sides("1").unwrap(), Sides { top: 1, right: 1, bottom: 1, left: 1 });
    assert_eq!(parse_sides("0 2").unwrap(), Sides { top: 0, right: 2, bottom: 0, left: 2 });
    assert_eq!(parse_sides("1 2 3").unwrap(), Sides { top: 1, right: 2, bottom: 3, left: 2 });
    assert_eq!(parse_sides("1 2 3 4").unwrap(), Sides { top: 1, right: 2, bottom: 3, left: 4 });
    assert_eq!(parse_sides("1,2").unwrap(), Sides { top: 1, right: 2, bottom: 1, left: 2 });
    assert!(parse_sides("").is_err());
    assert!(parse_sides("1 2 3 4 5").is_err());
    assert!(parse_sides("x").is_err());
}

#[test]
fn presets_have_distinct_corners() {
    assert_eq!(BorderPreset::Rounded.set().unwrap().top_left, "╭");
    assert_eq!(BorderPreset::Normal.set().unwrap().top_left, "┌");
    assert_eq!(BorderPreset::Thick.set().unwrap().top_left, "┏");
    assert_eq!(BorderPreset::Double.set().unwrap().top_left, "╔");
    let ascii = BorderPreset::Ascii.set().unwrap();
    assert_eq!(
        (ascii.top_left.as_str(), ascii.horizontal_top.as_str(), ascii.vertical_left.as_str()),
        ("+", "-", "|")
    );
    assert!(BorderPreset::NoBorder.set().is_none());
}

#[test]
fn every_preset_glyph_is_one_cell_wide() {
    for preset in [
        BorderPreset::Rounded,
        BorderPreset::Normal,
        BorderPreset::Thick,
        BorderPreset::Double,
        BorderPreset::Ascii,
    ] {
        let set = preset.set().unwrap();
        for glyph in [
            &set.top_left,
            &set.top_right,
            &set.bottom_left,
            &set.bottom_right,
            &set.vertical_left,
            &set.vertical_right,
            &set.horizontal_top,
            &set.horizontal_bottom,
        ] {
            assert_eq!(display_width(glyph), 1, "{glyph:?} in {preset:?}");
        }
    }
}

fn plain(lines: &[&str]) -> Vec<String> {
    lines.iter().map(|s| s.to_string()).collect()
}

#[test]
fn a_border_wraps_the_widest_line() {
    let spec = BoxSpec { border: BorderPreset::Normal, ..BoxSpec::default() };
    assert_eq!(
        render_box(&plain(&["hi", "there"]), &spec, ColorProfile::Ascii),
        plain(&["┌─────┐", "│hi   │", "│there│", "└─────┘"])
    );
}

#[test]
fn padding_grows_the_box_on_each_side() {
    let spec = BoxSpec {
        border: BorderPreset::Normal,
        padding: Sides { top: 1, right: 2, bottom: 1, left: 2 },
        ..BoxSpec::default()
    };
    assert_eq!(
        render_box(&plain(&["hi"]), &spec, ColorProfile::Ascii),
        plain(&["┌──────┐", "│      │", "│  hi  │", "│      │", "└──────┘"])
    );
}

#[test]
fn width_pins_the_content_column_and_truncates() {
    let spec = BoxSpec { border: BorderPreset::Normal, width: Some(4), ..BoxSpec::default() };
    assert_eq!(
        render_box(&plain(&["abcdefg"]), &spec, ColorProfile::Ascii),
        plain(&["┌────┐", "│abc…│", "└────┘"])
    );
}

#[test]
fn ansi_content_keeps_the_box_square() {
    let spec = BoxSpec { border: BorderPreset::Normal, ..BoxSpec::default() };
    assert_eq!(
        render_box(&plain(&["\x1b[31mhi\x1b[0m"]), &spec, ColorProfile::Ascii)[1],
        "│\x1b[31mhi\x1b[0m│"
    );
}

#[test]
fn align_right_pads_on_the_left() {
    let spec = BoxSpec { border: BorderPreset::Normal, align: Align::Right, ..BoxSpec::default() };
    assert_eq!(
        render_box(&plain(&["a", "long"]), &spec, ColorProfile::Ascii),
        plain(&["┌────┐", "│   a│", "│long│", "└────┘"])
    );
}

#[test]
fn the_border_style_wraps_only_the_border() {
    let spec = BoxSpec {
        border: BorderPreset::Normal,
        border_style: StyleSpec { foreground: Some(Color::Indexed(240)), ..StyleSpec::default() },
        ..BoxSpec::default()
    };
    let out = render_box(&plain(&["hi"]), &spec, ColorProfile::Ansi256);
    assert!(out[0].starts_with("\x1b[38;5;240m┌"), "got {:?}", out[0]);
    assert_eq!(out[1], "\x1b[38;5;240m│\x1b[0mhi\x1b[38;5;240m│\x1b[0m");
}

#[test]
fn the_content_style_fills_the_padding() {
    let spec = BoxSpec {
        content_style: StyleSpec { background: Some(Color::Indexed(212)), ..StyleSpec::default() },
        padding: Sides { top: 0, right: 1, bottom: 0, left: 1 },
        ..BoxSpec::default()
    };
    assert_eq!(
        render_box(&plain(&["hi"]), &spec, ColorProfile::Ansi256),
        plain(&["\x1b[48;5;212m hi \x1b[0m"])
    );
}

#[test]
fn margin_sits_outside_the_border() {
    let spec = BoxSpec {
        border: BorderPreset::Normal,
        margin: Sides { top: 1, right: 0, bottom: 1, left: 2 },
        ..BoxSpec::default()
    };
    assert_eq!(
        render_box(&plain(&["hi"]), &spec, ColorProfile::Ascii),
        plain(&["", "  ┌──┐", "  │hi│", "  └──┘", ""])
    );
}

#[test]
fn a_bare_spec_is_a_passthrough() {
    assert_eq!(
        render_box(&plain(&["a", "longer"]), &BoxSpec::default(), ColorProfile::Ascii),
        plain(&["a", "longer"])
    );
}

#[test]
fn an_explicit_width_pads_even_without_a_border() {
    let spec = BoxSpec { width: Some(5), ..BoxSpec::default() };
    assert_eq!(render_box(&plain(&["ab"]), &spec, ColorProfile::Ascii), plain(&["ab   "]));
}

#[test]
fn borders_keep_their_glyphs_under_the_ascii_profile() {
    let spec = BoxSpec { border: BorderPreset::Rounded, ..BoxSpec::default() };
    assert_eq!(render_box(&plain(&["x"]), &spec, ColorProfile::Ascii)[0], "╭─╮");
}

#[test]
fn a_title_sits_in_the_top_border() {
    let spec = BoxSpec {
        border: BorderPreset::Normal,
        title: Some("status"),
        width: Some(12),
        ..BoxSpec::default()
    };
    assert_eq!(render_box(&plain(&["hi"]), &spec, ColorProfile::Ascii)[0], "┌─ status ───┐");
}

#[test]
fn a_long_title_is_truncated_into_the_border() {
    let spec = BoxSpec {
        border: BorderPreset::Normal,
        title: Some("a very long title"),
        width: Some(8),
        ..BoxSpec::default()
    };
    let top = &render_box(&plain(&["hi"]), &spec, ColorProfile::Ascii)[0];
    assert_eq!(display_width(top), 10);
    assert!(top.contains('…'), "got {top:?}");
}

#[test]
fn a_title_is_dropped_when_the_box_is_too_narrow() {
    let spec = BoxSpec {
        border: BorderPreset::Normal,
        title: Some("status"),
        width: Some(2),
        ..BoxSpec::default()
    };
    assert_eq!(render_box(&plain(&["hi"]), &spec, ColorProfile::Ascii)[0], "┌──┐");
}

#[test]
fn a_title_without_a_border_is_ignored() {
    let spec = BoxSpec { title: Some("status"), ..BoxSpec::default() };
    assert_eq!(render_box(&plain(&["hi"]), &spec, ColorProfile::Ascii), plain(&["hi"]));
}

#[test]
fn a_styled_title_keeps_its_escapes_without_widening_the_box() {
    let spec = BoxSpec {
        border: BorderPreset::Normal,
        title: Some("\x1b[1mrun\x1b[0m"),
        width: Some(10),
        ..BoxSpec::default()
    };
    let top = &render_box(&plain(&["hi"]), &spec, ColorProfile::Ascii)[0];
    assert_eq!(display_width(top), 12);
    assert!(top.contains("\x1b[1mrun\x1b[0m"), "got {top:?}");
}

#[test]
fn a_bad_sides_shorthand_says_why() {
    assert_eq!(parse_sides("1 x").unwrap_err().message(), "invalid side \"x\"");
    assert_eq!(
        parse_sides("1 2 3 4 5").unwrap_err().message(),
        "expected 1 to 4 values (top right bottom left), got \"1 2 3 4 5\""
    );
}

#[test]
fn box_drawing_glyphs_are_one_cell() {
    for cp in 0x2500u32..=0x257F {
        let c = char::from_u32(cp).unwrap();
        assert_eq!(display_width(&c.to_string()), 1, "U+{cp:04X}");
    }
}

#[test]
fn every_line_of_a_bordered_box_is_its_declared_width() {
    let lines = vec![
        "short".to_string(),
        "\x1b[31ma styled line that is much too long\x1b[0m".to_string(),
        "日本語".to_string(),
    ];
    for border in [BorderPreset::Rounded, BorderPreset::Normal, BorderPreset::Thick, BorderPreset::Double, BorderPreset::Ascii] {
        let spec = BoxSpec {
            border,
            width: Some(12),
            padding: Sides { top: 1, right: 2, bottom: 0, left: 1 },
            margin: Sides { top: 1, right: 0, bottom: 1, left: 3 },
            title: Some("a title longer than the box"),
            border_style: StyleSpec { bold: true, ..StyleSpec::default() },
            ..BoxSpec::default()
        };
        let out = render_box(&lines, &spec, ColorProfile::TrueColor);
        // margin, top border, padding row, three content rows, bottom border, margin.
        assert_eq!(out.len(), 1 + 1 + 1 + 3 + 1 + 1);
        assert!(out[0].is_empty());
        assert!(out[out.len() - 1].is_empty());
        for line in &out[1..out.len() - 1] {
            assert_eq!(display_width(line), 3 + (12 + 1 + 2) + 2, "{line:?}");
        }
    }
}
