use ratto::snapshot::{snapshot_body, snapshot_file_name, SNAPSHOT_ATTEMPTS};

#[test]
fn the_first_name_has_no_suffix() {
    assert_eq!(
        snapshot_file_name("20260727-134502", 0),
        "rat-watch-20260727-134502.txt"
    );
    assert_eq!(
        snapshot_file_name("20260727-134502", 1),
        "rat-watch-20260727-134502-2.txt"
    );
    assert_eq!(
        snapshot_file_name("20260727-134502", 8),
        "rat-watch-20260727-134502-9.txt"
    );
}

#[test]
fn the_body_strips_escapes_by_default() {
    let styled = vec!["\x1b[38;5;212mhi\x1b[0m".to_string()];
    assert_eq!(snapshot_body(&styled, false), "hi\n");
    assert_eq!(snapshot_body(&styled, true), "\x1b[38;5;212mhi\x1b[0m\n");
    let tabbed = vec!["a\tb".to_string()];
    assert_eq!(snapshot_body(&tabbed, false), "a\tb\n");
    assert_eq!(snapshot_body(&tabbed, true), "a\tb\n");
}

#[test]
fn the_last_attempt_name_and_an_empty_body() {
    assert_eq!(
        snapshot_file_name("s", SNAPSHOT_ATTEMPTS - 1),
        "rat-watch-s-100.txt"
    );
    assert_eq!(snapshot_body(&[], false), "");
    assert_eq!(
        snapshot_body(&["a".to_string(), "".to_string()], false),
        "a\n\n"
    );
}
