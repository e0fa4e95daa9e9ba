use ratto::log::{plain_line, should_log, LogLevel};

#[test]
fn every_level_has_a_four_character_tag() {
    assert_eq!(LogLevel::Debug.tag(), "DEBU");
    assert_eq!(LogLevel::Info.tag(), "INFO");
    assert_eq!(LogLevel::Warn.tag(), "WARN");
    assert_eq!(LogLevel::Error.tag(), "ERRO");
    assert_eq!(LogLevel::Fatal.tag(), "FATA");
}

#[test]
fn the_minimum_level_filters_only_leveled_lines() {
    assert!(!should_log(Some(LogLevel::Info), Some(LogLevel::Warn)));
    assert!(should_log(Some(LogLevel::Warn), Some(LogLevel::Warn)));
    assert!(should_log(Some(LogLevel::Fatal), Some(LogLevel::Debug)));
    assert!(should_log(None, Some(LogLevel::Fatal)));
    assert!(should_log(Some(LogLevel::Debug), None));
}

#[test]
fn the_plain_line_is_stamp_tag_then_the_words() {
    let words = vec!["disk".to_string(), "space".to_string(), "low".to_string()];
    assert_eq!(
        plain_line(Some("12:00:00"), Some(LogLevel::Warn), &words),
        "12:00:00 WARN disk space low"
    );
    assert_eq!(plain_line(None, None, &words), "disk space low");
    assert_eq!(plain_line(None, Some(LogLevel::Info), &[]), "INFO ");
}
