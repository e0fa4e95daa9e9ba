use ratto::bar::{auto_label_width, indeterminate_span, render_indeterminate, BarPreset, PulseSpec};
use ratto::color::ColorProfile;
use ratto::style_spec::{Color, StyleSpec};

#[test]
fn presets_have_expected_glyphs() {
    assert_eq!(BarPreset::Blocks.chars(), ('█', '░'));
    assert_eq!(BarPreset::Shade.chars(), ('▓', '░'));
    assert_eq!(BarPreset::Ascii.chars(), ('#', '-'));
    assert_eq!(BarPreset::Line.chars(), ('━', '─'));
    assert_eq!(BarPreset::Dots.chars(), ('⣿', '⣀'));
}

#[test]
fn indeterminate_is_periodic() {
    for tick in 0..3 {
        assert_eq!(
            indeterminate_span(32, tick),
            indeterminate_span(32, tick + 32)
        );
    }
    let (_, len) = indeterminate_span(32, 5);
    assert!(len >= 1);
    assert_ne!(indeterminate_span(32, 0), indeterminate_span(32, 1));
}

#[test]
fn a_narrow_bar_still_moves_one_cell_and_an_empty_one_nothing() {
    assert_eq!(indeterminate_span(3, 7), (1, 1));
    assert_eq!(indeterminate_span(0, 7), (0, 0));
    assert_eq!(indeterminate_span(32, 40), (8, 8));
}

#[test]
fn auto_label_width_is_widest_capped() {
    // The labels of the rows "ab\t1\t2" and "longer-label\t1\t2".
    let labels = vec!["ab".to_string(), "longer-label".to_string()];
    assert_eq!(auto_label_width(&labels, 40), 12);
    assert_eq!(auto_label_width(&labels, 8), 8);
}

#[test]
fn auto_label_width_counts_display_cells() {
    let labels = vec!["日本".to_string(), "abc".to_string()];
    assert_eq!(auto_label_width(&labels, 40), 4);
    assert_eq!(auto_label_width(&Vec::new(), 40), 0);
}

fn pulse(width: u16) -> PulseSpec {
    PulseSpec {
        width,
        fill: '#',
        empty: '-',
        fill_style: StyleSpec::default(),
        empty_style: StyleSpec::default(),
        label: None,
        label_width: 0,
        state: None,
    }
}

#[test]
fn the_moving_block_wraps_around_the_bar() {
    // Width 16: a block of four cells.
    assert_eq!(render_indeterminate(&pulse(16), 0, ColorProfile::Ascii), "####------------");
    assert_eq!(render_indeterminate(&pulse(16), 5, ColorProfile::Ascii), "-----####-------");
    assert_eq!(render_indeterminate(&pulse(16), 14, ColorProfile::Ascii), "##------------##");
    // It repeats every width ticks.
    assert_eq!(
        render_indeterminate(&pulse(16), 3, ColorProfile::Ascii),
        render_indeterminate(&pulse(16), 19, ColorProfile::Ascii)
    );
    // Narrow bars still move one cell.
    assert_eq!(render_indeterminate(&pulse(3), 2, ColorProfile::Ascii), "--#");
    assert_eq!(render_indeterminate(&pulse(0), 7, ColorProfile::Ascii), "");
}

#[test]
fn the_indeterminate_bar_pads_its_label_and_styles_each_run() {
    let spec = PulseSpec {
        label: Some("build".to_string()),
        label_width: 8,
        state: Some("running".to_string()),
        fill_style: StyleSpec { foreground: Some(Color::Indexed(212)), ..StyleSpec::default() },
        empty_style: StyleSpec { foreground: Some(Color::Indexed(240)), ..StyleSpec::default() },
        ..pulse(8)
    };
    assert_eq!(
        render_indeterminate(&spec, 7, ColorProfile::Ansi256),
        "build    \x1b[38;5;212m#\x1b[0m\x1b[38;5;240m------\x1b[0m\x1b[38;5;212m#\x1b[0m  running"
    );
    // A wide label is not cut; the pad is just gone.
    let wide = PulseSpec { label: Some("日本語ラベル".to_string()), label_width: 4, ..pulse(4) };
    assert_eq!(render_indeterminate(&wide, 0, ColorProfile::Ascii), "日本語ラベル #---");
}
