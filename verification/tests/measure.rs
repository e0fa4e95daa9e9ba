use ratto::measure::{
    chunks, display_width, expand_tabs, pad_display, split_at_width, strip_escapes,
    truncate_display, wrap_display, Align, Chunk,
};

#[test]
fn display_width_ignores_escapes() {
    assert_eq!(display_width("hello"), 5);
    assert_eq!(display_width("\x1b[1;38;5;212mhello\x1b[0m"), 5);
    assert_eq!(display_width("日本"), 4);
    assert_eq!(display_width(""), 0);
    assert_eq!(display_width("\x1b[31m\x1b[0m"), 0);
}

#[test]
fn pad_display_fills_to_display_cells() {
    assert_eq!(pad_display("ab", 5, Align::Left), "ab   ");
    assert_eq!(pad_display("ab", 5, Align::Right), "   ab");
    assert_eq!(pad_display("ab", 5, Align::Center), " ab  ");
    assert_eq!(pad_display("日本", 6, Align::Left), "日本  ");
    assert_eq!(
        pad_display("\x1b[31mab\x1b[0m", 4, Align::Left),
        "\x1b[31mab\x1b[0m  "
    );
    assert_eq!(pad_display("abcdef", 3, Align::Left), "abcdef");
}

#[test]
fn split_at_width_never_splits_an_escape() {
    assert_eq!(
        split_at_width("\x1b[31mabcd\x1b[0m", 2),
        ("\x1b[31mab", "cd\x1b[0m")
    );
    // A closing escape rides along with the text it closes.
    assert_eq!(split_at_width("ab\x1b[0mcd", 2), ("ab\x1b[0m", "cd"));
}

#[test]
fn split_at_width_puts_a_straddling_wide_char_in_the_tail() {
    assert_eq!(split_at_width("a日本", 2), ("a", "日本"));
}

#[test]
fn truncate_display_adds_the_marker_inside_the_budget() {
    assert_eq!(truncate_display("abcdef", 4, "…"), "abc…");
    assert_eq!(truncate_display("abc", 4, "…"), "abc");
    assert_eq!(truncate_display("abcdef", 4, ""), "abcd");
    assert_eq!(truncate_display("abcdef", 1, "…"), "a");
}

#[test]
fn truncate_display_closes_open_styling() {
    assert_eq!(
        truncate_display("\x1b[31mabcdef\x1b[0m", 4, "…"),
        "\x1b[31mabc…\x1b[0m"
    );
}

#[test]
fn an_osc_sequence_is_one_zero_width_chunk() {
    let mut walk = chunks("\x1b]0;title\x07a");
    assert_eq!(walk.next(), Some(Chunk::Escape("\x1b]0;title\x07".to_string())));
    assert_eq!(walk.next(), Some(Chunk::Text("a".to_string(), 1)));
    assert_eq!(walk.next(), None);
    assert_eq!(display_width("\x1b]0;title\x1b\\after"), 5);
}

#[test]
fn an_unterminated_escape_swallows_the_rest() {
    assert_eq!(display_width("ab\x1b[31"), 2);
    assert_eq!(strip_escapes("ab\x1b[31"), "ab");
}

#[test]
fn strip_escapes_keeps_tabs_and_text() {
    assert_eq!(strip_escapes("\x1b[38;5;212mhi\x1b[0m\tx"), "hi\tx");
}

#[test]
fn tabs_expand_to_the_next_stop_by_display_column() {
    assert_eq!(
        expand_tabs("completed\tsuccess\ttest", 8),
        "completed       success test"
    );
    assert_eq!(expand_tabs("\x1b[1mab\x1b[0m\tc", 4), "\x1b[1mab\x1b[0m  c");
    assert_eq!(expand_tabs("\t", 8), "        ");
}

#[test]
fn wrapping_breaks_at_spaces_and_reopens_style() {
    assert_eq!(wrap_display("the quick brown fox", 9), vec!["the quick", "brown fox"]);
    assert_eq!(
        wrap_display("\x1b[31ma b c d\x1b[0m", 3),
        vec!["\x1b[31ma b\x1b[0m", "\x1b[31mc d\x1b[0m"]
    );
    assert_eq!(wrap_display("", 3), vec![""]);
    assert_eq!(wrap_display("abcdef gh", 3), vec!["abcdef", "gh"]);
}

#[test]
fn display_width_agrees_with_stripping() {
    for (s, w) in [
        ("plain", 5),
        ("\x1b[1mbold\x1b[0m", 4),
        ("\x1b[38;2;255;0;0mrgb\x1b[0m tail", 8),
        ("日本語\x1b[0m", 6),
        ("\x1b]0;title\x07after", 5),
    ] {
        assert_eq!(display_width(s), w, "mismatch for {s:?}");
        assert_eq!(display_width(&strip_escapes(s)), w, "stripped {s:?}");
    }
}

#[test]
fn a_hard_cut_still_closes_open_styling() {
    assert_eq!(truncate_display("\x1b[31mab", 1, "--"), "\x1b[31ma\x1b[0m");
    assert_eq!(truncate_display("abc", 1, "--"), "a");
}
