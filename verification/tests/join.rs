use ratto::join::{
    horizontal_width, join_horizontal, join_vertical, parse_block, JoinAlign, JoinAlignError,
    VAlign,
};
use ratto::measure::Align;

#[test]
fn parse_block_splits_lines_and_survives_crlf() {
    assert_eq!(parse_block("a\nb\n"), vec!["a", "b"]);
    assert_eq!(parse_block("a\nb"), vec!["a", "b"]);
    assert_eq!(parse_block("a\r\nb\r\n"), vec!["a", "b"]);
    assert_eq!(parse_block(""), Vec::<String>::new());
    assert_eq!(parse_block("\n"), vec![""]);
}

#[test]
fn horizontal_join_pads_each_block_to_its_widest_line() {
    let left = parse_block("a\nlonger\n");
    let right = parse_block("1\n2\n");
    assert_eq!(join_horizontal(&[left, right], 1, VAlign::Top), vec!["a      1", "longer 2"]);
}

#[test]
fn unequal_heights_fill_per_align() {
    let tall = parse_block("1\n2\n3\n");
    let short = parse_block("x\n");
    assert_eq!(
        join_horizontal(&[tall.clone(), short.clone()], 1, VAlign::Top),
        vec!["1 x", "2", "3"]
    );
    assert_eq!(
        join_horizontal(&[tall.clone(), short.clone()], 1, VAlign::Middle),
        vec!["1", "2 x", "3"]
    );
    assert_eq!(join_horizontal(&[tall, short], 1, VAlign::Bottom), vec!["1", "2", "3 x"]);
}

#[test]
fn ansi_blocks_pad_by_display_width() {
    let left = parse_block("\x1b[31mab\x1b[0m\nabcd\n");
    let right = parse_block("x\ny\n");
    assert_eq!(
        join_horizontal(&[left, right], 0, VAlign::Top),
        vec!["\x1b[31mab\x1b[0m  x", "abcdy"]
    );
}

#[test]
fn vertical_join_stacks_with_gap_lines() {
    assert_eq!(
        join_vertical(&[parse_block("a\n"), parse_block("b\n")], 1, Align::Left),
        vec!["a", "", "b"]
    );
}

#[test]
fn vertical_join_centers_narrow_blocks_without_trailing_padding() {
    assert_eq!(
        join_vertical(&[parse_block("abcdef\n"), parse_block("xy\n")], 0, Align::Center),
        vec!["abcdef", "  xy"]
    );
}

#[test]
fn join_align_rejects_a_mismatched_direction() {
    assert!(JoinAlign::Middle.horizontal().is_err());
    assert!(JoinAlign::Center.vertical().is_err());
    assert_eq!(JoinAlign::Top.vertical().unwrap(), VAlign::Top);
    assert_eq!(JoinAlign::Right.horizontal().unwrap(), Align::Right);
}

#[test]
fn horizontal_width_totals_blocks_and_gaps() {
    let blocks = vec![parse_block("aaaa\n"), parse_block("bb\ncc\n")];
    assert_eq!(horizontal_width(&blocks, 2), 8);
    assert_eq!(horizontal_width(&blocks, 0), 6);
    assert_eq!(horizontal_width(&[], 2), 0);
}

#[test]
fn an_empty_block_contributes_no_width() {
    assert_eq!(join_horizontal(&[parse_block(""), parse_block("x\n")], 1, VAlign::Top), vec![" x"]);
}

#[test]
fn a_mismatched_alignment_names_itself_and_the_legal_ones() {
    assert_eq!(
        JoinAlign::Center.vertical().unwrap_err().message(),
        "align Center applies to vertical joins; use top, middle, or bottom"
    );
    assert_eq!(
        JoinAlign::Bottom.horizontal().unwrap_err(),
        JoinAlignError::NotHorizontal(JoinAlign::Bottom)
    );
    assert_eq!(
        JoinAlign::Bottom.horizontal().unwrap_err().message(),
        "align Bottom applies to horizontal joins; use left, center, or right"
    );
}

#[test]
fn vertical_join_right_aligns_and_keeps_gaps_only_between() {
    assert_eq!(
        join_vertical(&[parse_block("abc\n"), parse_block("x\ny\n")], 2, Align::Right),
        vec!["abc", "", "", "  x", "  y"]
    );
    assert_eq!(join_vertical(&[], 3, Align::Left), Vec::<String>::new());
}
