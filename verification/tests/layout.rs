use ratto::box_model::{BorderPreset, Sides};
use ratto::color::ColorProfile;
use ratto::layout::{render_pane, LineMark, PaneChrome};
use ratto::measure::{display_width, strip_escapes};
use ratto::registry::{Overflow, PaneBox, PaneGeometry, PaneWidth};
use ratto::style_spec::Color;

const BORDER: Color = Color::Indexed(240);

fn pane(height: u16, border: BorderPreset, padding: Sides, chrome: bool) -> PaneBox {
    PaneBox {
        height,
        width: PaneWidth::Weight(1),
        overflow: Overflow::KeepTop,
        border,
        padding,
        title: None,
        chrome,
    }
}

/// The geometry the registry would resolve for this pane at `cells` wide.
fn geom(pane: &PaneBox, cells: u16) -> PaneGeometry {
    PaneGeometry {
        cells,
        rows: pane.height,
        inner_cols: cells - pane.frame_cols(),
        inner_rows: pane.height - pane.frame_rows(),
    }
}

fn chrome<'a>(failure: Option<&'a str>) -> PaneChrome<'a> {
    PaneChrome {
        title: "plan",
        cadence: "every 5s",
        stamp: "12:04:31",
        failure,
    }
}

fn lines(items: &[&str]) -> Vec<String> {
    items.iter().map(|s| s.to_string()).collect()
}

fn sides(top: usize, right: usize, bottom: usize, left: usize) -> Sides {
    Sides {
        top,
        right,
        bottom,
        left,
    }
}

#[test]
fn a_pane_is_exactly_its_declared_size() {
    let bare = pane(4, BorderPreset::NoBorder, Sides::default(), true);
    let block = render_pane(
        &lines(&["ab"]),
        &[LineMark::default()],
        &bare,
        geom(&bare, 20),
        &PaneChrome {
            cadence: "once",
            ..chrome(None)
        },
        BORDER,
        ColorProfile::Ascii,
    );
    assert_eq!(
        block.lines,
        lines(&[
            "ab                  ",
            "                    ",
            "                    ",
            "     once \u{b7} 12:04:31",
        ])
    );

    let boxed = pane(7, BorderPreset::Normal, sides(0, 1, 0, 1), true);
    let block = render_pane(
        &lines(&["line one", "line two"]),
        &[LineMark::default(), LineMark::default()],
        &boxed,
        geom(&boxed, 30),
        &chrome(None),
        BORDER,
        ColorProfile::Ascii,
    );
    assert_eq!(block.lines.len(), 7);
    for line in &block.lines {
        assert_eq!(display_width(line), 30, "ragged row: {line:?}");
    }
    assert_eq!(block.marks.len(), block.lines.len());
    assert!(
        block.lines[0].contains("plan"),
        "the title rides the border"
    );
}

#[test]
fn overflow_keep_top_drops_the_tail() {
    let pane = pane(3, BorderPreset::NoBorder, Sides::default(), false);
    let block = render_pane(
        &lines(&["1", "2", "3", "4", "5"]),
        &vec![LineMark::default(); 5],
        &pane,
        geom(&pane, 5),
        &chrome(None),
        BORDER,
        ColorProfile::Ascii,
    );
    assert_eq!(block.lines, lines(&["1    ", "2    ", "3    "]));
}

#[test]
fn overflow_keep_bottom_keeps_the_tail() {
    let pane = PaneBox {
        overflow: Overflow::KeepBottom,
        ..pane(3, BorderPreset::NoBorder, Sides::default(), false)
    };
    let mut marks = vec![LineMark::default(); 5];
    marks[4] = LineMark {
        changed: true,
        cells: vec![0..1],
    };
    let block = render_pane(
        &lines(&["1", "2", "3", "4", "5"]),
        &marks,
        &pane,
        geom(&pane, 5),
        &chrome(None),
        BORDER,
        ColorProfile::Ascii,
    );
    assert_eq!(block.lines, lines(&["3    ", "4    ", "5    "]));
    assert_eq!(block.marks[2].cells, vec![0..1]);
    assert!(!block.marks[0].changed && !block.marks[1].changed);
}

#[test]
fn a_short_pane_pads_with_blank_rows() {
    let pane = pane(3, BorderPreset::NoBorder, Sides::default(), false);
    let block = render_pane(
        &lines(&["only"]),
        &[LineMark::default()],
        &pane,
        geom(&pane, 5),
        &chrome(None),
        BORDER,
        ColorProfile::Ascii,
    );
    assert_eq!(block.lines, lines(&["only ", "     ", "     "]));
    // Empty output is the same case, not a special one.
    let block = render_pane(
        &[],
        &[],
        &pane,
        geom(&pane, 5),
        &chrome(None),
        BORDER,
        ColorProfile::Ascii,
    );
    assert_eq!(block.lines, lines(&["     ", "     ", "     "]));
}

#[test]
fn the_chrome_row_is_the_last_inner_row_and_right_aligned() {
    let pane = pane(8, BorderPreset::Normal, sides(0, 1, 1, 1), true);
    let block = render_pane(
        &lines(&["x"]),
        &[LineMark::default()],
        &pane,
        geom(&pane, 30),
        &chrome(None),
        BORDER,
        ColorProfile::Ascii,
    );
    assert_eq!(block.lines.len(), 8);
    assert_eq!(block.lines[5], "│        every 5s · 12:04:31 │");
    assert_eq!(block.lines[6], format!("│{}│", " ".repeat(28)));
}

#[test]
fn a_failure_badge_rides_the_chrome_row_without_changing_the_height() {
    let pane = pane(7, BorderPreset::Normal, sides(0, 1, 0, 1), true);
    let block = render_pane(
        &lines(&["boom"]),
        &[LineMark::default()],
        &pane,
        geom(&pane, 40),
        &chrome(Some("exit 3")),
        BORDER,
        ColorProfile::Ascii,
    );
    assert_eq!(block.lines.len(), 7, "a failure never changes the height");
    assert!(
        block.lines[5].contains("every 5s · 12:04:31 · exit 3"),
        "got {:?}",
        block.lines[5]
    );

    let block = render_pane(
        &lines(&["boom"]),
        &[LineMark::default()],
        &pane,
        geom(&pane, 24),
        &chrome(Some("exit 3")),
        BORDER,
        ColorProfile::Ascii,
    );
    assert_eq!(block.lines.len(), 7);
    for line in &block.lines {
        assert_eq!(display_width(line), 24, "ragged row: {line:?}");
    }
}

#[test]
fn marks_shift_by_the_border_and_padding_rows() {
    let pane = pane(8, BorderPreset::Normal, sides(1, 2, 0, 2), true);
    let marks = vec![
        LineMark {
            changed: true,
            cells: vec![0..3],
        },
        LineMark::default(),
    ];
    let block = render_pane(
        &lines(&["abc", "d"]),
        &marks,
        &pane,
        geom(&pane, 30),
        &chrome(None),
        BORDER,
        ColorProfile::Ascii,
    );
    assert_eq!(block.marks.len(), block.lines.len());
    // Down by the top border (1) and the top padding (1).
    assert!(block.marks[2].changed);
    assert!(!block.marks[0].changed && !block.marks[1].changed);
    // Right by the border glyph (1 char) and the left padding (2).
    assert_eq!(block.marks[2].cells, vec![3..6]);
    let stripped: Vec<char> = strip_escapes(&block.lines[2]).chars().collect();
    assert_eq!(&stripped[3..6], &['a', 'b', 'c']);
}

#[test]
fn the_border_color_reaches_a_colored_profile() {
    let pane = pane(3, BorderPreset::Normal, Sides::default(), false);
    let block = render_pane(
        &lines(&["x"]),
        &[],
        &pane,
        geom(&pane, 6),
        &chrome(None),
        BORDER,
        ColorProfile::Ansi256,
    );
    assert!(block.lines[0].contains("\x1b[38;5;240m"), "{:?}", block.lines[0]);
    assert_eq!(block.marks.len(), 3);
}
