use ratto::decode::stream_lines;

#[test]
fn an_empty_stream_is_one_empty_line() {
    assert_eq!(stream_lines(b""), vec![String::new()]);
}

#[test]
fn trailing_newlines_are_stripped_and_interior_blanks_survive() {
    assert_eq!(
        stream_lines(b"a\n\nb\n\n\n"),
        vec!["a".to_string(), String::new(), "b".to_string()]
    );
}

#[test]
fn invalid_utf8_on_unix_still_becomes_replacement_chars() {
    assert_eq!(stream_lines(b"gr\x81\xE1e"), vec!["gr\u{FFFD}\u{FFFD}e".to_string()]);
}

#[test]
fn utf8_input_round_trips_exactly() {
    assert_eq!(stream_lines("grüße\n".as_bytes()), vec!["grüße".to_string()]);
}

#[test]
fn tabs_become_geometry_safe_spaces() {
    assert_eq!(
        stream_lines(b"completed\tsuccess\ttest\n"),
        vec!["completed       success test".to_string()]
    );
}

#[test]
fn only_newlines_is_still_one_empty_line() {
    assert_eq!(stream_lines(b"\n\n\n"), vec![String::new()]);
    assert_eq!(stream_lines(b"\nx"), vec![String::new(), "x".to_string()]);
}

#[test]
fn each_line_decodes_on_its_own() {
    assert_eq!(
        stream_lines(b"ok\n\xffbad\nfine"),
        vec!["ok".to_string(), "\u{FFFD}bad".to_string(), "fine".to_string()]
    );
}
