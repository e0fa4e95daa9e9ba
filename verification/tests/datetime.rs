use ratto::datetime::{format_timestamp, parse_timestamp, relative, Stamp, TimestampError};

const EPOCH: i64 = 1785067200; // 2026-07-26T12:00:00Z

fn now() -> Stamp {
    let t = jiff::Timestamp::now();
    Stamp {
        seconds: t.as_second(),
        nanos: t.subsec_nanosecond(),
    }
}

fn parse(s: &str) -> Result<Stamp, TimestampError> {
    parse_timestamp(s, now())
}

#[test]
fn parses_rfc3339_and_epoch_and_now() {
    assert_eq!(parse("2026-07-26T12:00:00Z").unwrap().seconds, EPOCH);
    assert_eq!(parse("1785067200").unwrap().seconds, EPOCH);
    let now = parse("now").unwrap();
    assert!(now.seconds > EPOCH - 86400 * 365 * 10);
    assert!(parse("garbage").is_err());
    assert!(parse("").is_err());
}

#[test]
fn formats_in_utc() {
    let ts = parse("1785067200").unwrap();
    assert_eq!(format_timestamp(ts, "%H:%M", true).unwrap(), "12:00");
    assert_eq!(format_timestamp(ts, "%s", true).unwrap(), "1785067200");
    assert_eq!(format_timestamp(ts, "%Y-%m-%d", true).unwrap(), "2026-07-26");
}

#[test]
fn relative_phrases() {
    let now = parse("1785067200").unwrap();
    let past = parse(&(EPOCH - 300).to_string()).unwrap();
    let future = parse(&(EPOCH + 5580).to_string()).unwrap();
    assert_eq!(relative(now.seconds, past.seconds), "5m ago");
    assert_eq!(relative(now.seconds, future.seconds), "in 1h 33m");
    assert_eq!(relative(now.seconds, now.seconds), "just now");
}

#[test]
fn epoch_text_is_read_exactly_and_refused_by_reason() {
    let given = Stamp { seconds: 7, nanos: 9 };
    assert_eq!(parse_timestamp("  now ", given), Ok(given));
    assert_eq!(parse("-60").unwrap(), Stamp { seconds: -60, nanos: 0 });
    assert_eq!(parse("   ").unwrap_err(), TimestampError::Empty);
    assert_eq!(parse("-").unwrap_err(), TimestampError::NoDigits);
    assert_eq!(parse("9223372036854775808").unwrap_err(), TimestampError::TooLarge);
    assert_eq!(parse("-9223372036854775809").unwrap_err(), TimestampError::TooSmall);
    assert_eq!(parse("999999999999999").unwrap_err(), TimestampError::OutOfRange);
    assert_eq!(parse("253402207200").unwrap().seconds, 253402207200);
    assert_eq!(parse("253402207201").unwrap_err(), TimestampError::OutOfRange);
    assert_eq!(parse("-377705023201").unwrap().seconds, -377705023201);
    assert_eq!(parse("-377705023202").unwrap_err(), TimestampError::OutOfRange);
    assert_eq!(
        parse("-").unwrap_err().message(),
        "parsing epoch seconds: invalid digit found in string"
    );
    assert!(parse("garbage")
        .unwrap_err()
        .message()
        .starts_with("invalid timestamp: \"garbage\": "));
}

#[test]
fn a_relative_phrase_turns_at_ten_seconds_both_ways() {
    assert_eq!(relative(100, 109), "just now");
    assert_eq!(relative(100, 91), "just now");
    assert_eq!(relative(100, 110), "in 10s");
    assert_eq!(relative(100, 90), "10s ago");
    assert_eq!(relative(i64::MIN, i64::MAX), "in 213503982334601d 7h 15s");
}
