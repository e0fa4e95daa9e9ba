use ratto::exit::AppError;
use ratto::retain::Keep;
use ratto::spin::{child_code, dropped_notice, shown_streams, spin_result, spin_retention};

#[test]
fn a_stream_that_fit_is_not_reported() {
    assert_eq!(dropped_notice(0, 12, "stdout"), None);
}

#[test]
fn the_notice_names_the_stream_the_loss_and_what_survived() {
    assert_eq!(
        dropped_notice(2_000, 10_000, "stdout").as_deref(),
        Some("rat: 2.0k lines dropped from stdout \u{2014} kept the newest 10000")
    );
    assert_eq!(
        dropped_notice(2_000, 10_000, "stderr").as_deref(),
        Some("rat: 2.0k lines dropped from stderr \u{2014} kept the newest 10000")
    );
}

#[test]
fn one_dropped_line_is_a_line() {
    assert_eq!(
        dropped_notice(1, 3, "stdout").as_deref(),
        Some("rat: 1 line dropped from stdout \u{2014} kept the newest 3")
    );
}

#[test]
fn what_survived_is_counted_rather_than_assumed_to_be_the_bound() {
    assert_eq!(
        dropped_notice(1, 0, "stdout").as_deref(),
        Some("rat: 1 line dropped from stdout \u{2014} kept the newest 0")
    );
}

#[test]
fn show_error_replays_both_streams_only_on_failure() {
    assert_eq!(shown_streams(false, false, false, true, 2), (true, true));
    assert_eq!(shown_streams(false, false, false, true, 0), (false, false));
    assert_eq!(shown_streams(false, true, false, false, 0), (true, false));
    assert_eq!(shown_streams(true, false, false, false, 0), (true, true));
}

#[test]
fn the_exit_is_the_timeout_then_the_childs_code() {
    assert_eq!(spin_result(true, 3).unwrap_err().code(), 124);
    assert!(matches!(spin_result(false, 3), Err(AppError::Child(3))));
    assert!(spin_result(false, 0).is_ok());
    assert_eq!(child_code(None), 1);
    assert_eq!(child_code(Some(0)), 0);
    let r = spin_retention();
    assert_eq!(r.max_lines, 10_000);
    assert_eq!(r.keep, Keep::Bottom);
}
