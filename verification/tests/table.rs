use ratto::measure::Align;
use ratto::table::{
    parse_aligns, parse_columns, parse_table, render_table, resolve_widths, ColumnSpec, Overflow,
    Row, TableSpec,
};


#[test]
fn parse_table_splits_on_the_delimiter_and_keeps_blank_lines() {
    assert_eq!(
        parse_table("a\tb\n\nc\td\n", '\t'),
        vec![
            Row::Cells(vec!["a".into(), "b".into()]),
            Row::Blank,
            Row::Cells(vec!["c".into(), "d".into()]),
        ]
    );
}

#[test]
fn parse_table_handles_crlf_input() {
    assert_eq!(
        parse_table("a\tb\r\n", '\t'),
        vec![Row::Cells(vec!["a".into(), "b".into()])]
    );
}

#[test]
fn resolve_widths_auto_sizes_to_the_widest_cell() {
    assert_eq!(
        resolve_widths(&parse_table("ab\tlonger\nabcd\tx\n", '\t'), &[]),
        vec![4, 6]
    );
}

#[test]
fn resolve_widths_measures_display_cells_not_bytes() {
    assert_eq!(
        resolve_widths(&parse_table("\x1b[31mab\x1b[0m\t日本\n", '\t'), &[]),
        vec![2, 4]
    );
}

#[test]
fn an_explicit_width_pins_the_column() {
    let columns = vec![
        ColumnSpec {
            width: Some(9),
            ..ColumnSpec::default()
        },
        ColumnSpec::default(),
    ];
    assert_eq!(
        resolve_widths(&parse_table("ab\tlonger\n", '\t'), &columns),
        vec![9, 6]
    );
}

#[test]
fn ragged_rows_use_the_widest_row_for_the_column_count() {
    assert_eq!(
        resolve_widths(&parse_table("a\nb\tc\td\n", '\t'), &[]).len(),
        3
    );
}

#[test]
fn parse_columns_maps_positional_lists() {
    let columns = parse_columns(Some("27,,8"), Some("l,r"), Some("truncate,wrap")).unwrap();
    assert_eq!(columns.len(), 3);
    assert_eq!(columns[0].width, Some(27));
    assert_eq!(columns[1].width, None);
    assert_eq!(columns[1].align, Align::Right);
    assert_eq!(columns[1].overflow, Overflow::Wrap);
    assert_eq!(columns[2].width, Some(8));
    assert_eq!(columns[2].align, Align::Left);
    assert_eq!(columns[2].overflow, Overflow::Truncate);
}

#[test]
fn align_accepts_letters_and_words() {
    assert_eq!(
        parse_aligns("l,right,c").unwrap(),
        vec![Some(Align::Left), Some(Align::Right), Some(Align::Center)]
    );
}

#[test]
fn bad_column_specs_name_the_column() {
    let err = parse_columns(Some("27,nope"), None, None)
        .unwrap_err()
        .message();
    assert!(err.contains("column 2"), "got: {err}");
    assert!(parse_columns(None, Some("l,x"), None).is_err());
    assert!(parse_columns(None, None, Some("wrapp")).is_err());
}

fn spec(columns: Vec<ColumnSpec>) -> TableSpec {
    TableSpec {
        columns,
        ..TableSpec::default()
    }
}

#[test]
fn render_pads_columns_to_a_shared_width() {
    assert_eq!(
        render_table(&parse_table("a\t1\nlonger\t22\n", '\t'), &spec(vec![])),
        vec!["a       1", "longer  22"]
    );
}

#[test]
fn right_aligned_columns_pad_on_the_left() {
    let columns = vec![
        ColumnSpec::default(),
        ColumnSpec {
            align: Align::Right,
            ..ColumnSpec::default()
        },
    ];
    assert_eq!(
        render_table(&parse_table("a\t1\nb\t22\n", '\t'), &spec(columns)),
        vec!["a   1", "b  22"]
    );
}

#[test]
fn pinned_columns_truncate_with_the_ellipsis() {
    let columns = vec![
        ColumnSpec {
            width: Some(4),
            ..ColumnSpec::default()
        },
        ColumnSpec::default(),
    ];
    assert_eq!(
        render_table(&parse_table("abcdefgh\tx\n", '\t'), &spec(columns)),
        vec!["abc…  x"]
    );
}

#[test]
fn ansi_cells_keep_their_escapes_and_their_width() {
    assert_eq!(
        render_table(
            &parse_table("\x1b[31mab\x1b[0m\tx\nabcd\ty\n", '\t'),
            &spec(vec![])
        ),
        vec!["\x1b[31mab\x1b[0m    x", "abcd  y"]
    );
}

#[test]
fn a_row_styled_end_to_end_keeps_color_across_cells() {
    // An SGR opened before the first cell and reset after the last one
    // survives the split: the open code rides cell 1, the reset rides the
    // final cell, and the padding between stays inside the colored span.
    let rows = parse_table("\x1b[38;5;42m✓\t1.1\tland the fix\x1b[0m\n", '\t');
    let out = render_table(&rows, &spec(vec![]));
    assert_eq!(out, vec!["\x1b[38;5;42m✓  1.1  land the fix\x1b[0m"]);
}

#[test]
fn blank_rows_pass_through() {
    assert_eq!(
        render_table(&parse_table("a\tb\n\nc\td\n", '\t'), &spec(vec![])),
        vec!["a  b", "", "c  d"]
    );
}

#[test]
fn no_line_ends_in_invented_padding() {
    for line in render_table(&parse_table("a\tb\nlonger\t\n", '\t'), &spec(vec![])) {
        assert_eq!(line, line.trim_end(), "trailing padding: {line:?}");
    }
}

#[test]
fn missing_trailing_cells_drop_their_separators() {
    assert_eq!(
        render_table(&parse_table("a\tb\tc\nlonger\n", '\t'), &spec(vec![]))[1],
        "longer"
    );
}

#[test]
fn a_custom_separator_sets_the_gutter() {
    let s = TableSpec {
        separator: " ".into(),
        ..TableSpec::default()
    };
    assert_eq!(
        render_table(&parse_table("ab\tx\n", '\t'), &s),
        vec!["ab x"]
    );
}

#[test]
fn wrapped_cells_add_continuation_lines_in_their_column() {
    let columns = vec![
        ColumnSpec::default(),
        ColumnSpec {
            width: Some(9),
            overflow: Overflow::Wrap,
            ..ColumnSpec::default()
        },
    ];
    assert_eq!(
        render_table(
            &parse_table("id\tthe quick brown fox\n", '\t'),
            &spec(columns)
        ),
        vec!["id  the quick", "    brown fox"]
    );
}

#[test]
fn wrapped_rows_keep_later_columns_aligned() {
    let columns = vec![
        ColumnSpec {
            width: Some(3),
            overflow: Overflow::Wrap,
            ..ColumnSpec::default()
        },
        ColumnSpec::default(),
    ];
    assert_eq!(
        render_table(&parse_table("a b c d\tx\n", '\t'), &spec(columns)),
        vec!["a b  x", "c d"]
    );
}

#[test]
fn a_wrapped_styled_cell_reopens_its_style_per_line() {
    let columns = vec![ColumnSpec {
        width: Some(3),
        overflow: Overflow::Wrap,
        ..ColumnSpec::default()
    }];
    let out = render_table(
        &parse_table("\x1b[31ma b c d\x1b[0m\n", '\t'),
        &spec(columns),
    );
    assert_eq!(out, vec!["\x1b[31ma b\x1b[0m", "\x1b[31mc d\x1b[0m"]);
}

#[test]
fn auto_width_columns_never_wrap() {
    let columns = vec![ColumnSpec {
        overflow: Overflow::Wrap,
        ..ColumnSpec::default()
    }];
    assert_eq!(
        render_table(&parse_table("a b c d\n", '\t'), &spec(columns)),
        vec!["a b c d"]
    );
}
