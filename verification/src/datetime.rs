//! Timestamps, portably: reading "now", epoch seconds or RFC 3339 text,
//! strftime formatting through jiff, and the relative phrase.

use vstd::prelude::*;

use crate::duration::{format_long, long_text};
use crate::text::{chars_of, debug_quote, debug_quoted, push_str, trim, trimmed};

verus! {

/// An instant: whole seconds since the Unix epoch and the nanoseconds
/// past them, as jiff's `as_second` and `subsec_nanosecond` give them.
#[derive(Copy, Clone, Debug, PartialEq, Eq, Structural)]
pub struct Stamp {
    pub seconds: i64,
    pub nanos: i32,
}

/// The earliest epoch second jiff represents (`Timestamp::MIN`).
pub const EPOCH_MIN: i64 = -377705023201;

/// The latest epoch second jiff represents (`Timestamp::MAX`).
pub const EPOCH_MAX: i64 = 253402207200;

/// What jiff's `Timestamp` parser (`str::parse`) makes of a text: the
/// instant's seconds and nanoseconds, or the error's text.
pub uninterp spec fn jiff_timestamp(text: Seq<char>) -> Result<(i64, i32), Seq<char>>;

/// `text.parse::<jiff::Timestamp>()`, the instant read back as seconds and
/// nanoseconds, or the error's `Display` text. A function of the text; it
/// is named.
#[verifier::external_body]
fn parse_rfc3339(text: &str) -> (r: Result<Stamp, String>)
    ensures
        match r {
            Ok(t) => jiff_timestamp(text@) == Ok::<(i64, i32), Seq<char>>((t.seconds, t.nanos)),
            Err(e) => jiff_timestamp(text@) == Err::<(i64, i32), Seq<char>>(e@),
        },
{
    match text.parse::<jiff::Timestamp>() {
        Ok(t) => Ok(Stamp { seconds: t.as_second(), nanos: t.subsec_nanosecond() }),
        Err(e) => Err(e.to_string()),
    }
}

/// `jiff::Timestamp::from_second(seconds).is_ok()`. jiff guarantees (as a
/// semver promise in its documentation) that the only failure is a second
/// outside `Timestamp::MIN..=Timestamp::MAX`.
#[verifier::external_body]
fn in_jiff_range(seconds: i64) -> (r: bool)
    ensures
        r == (EPOCH_MIN <= seconds <= EPOCH_MAX),
{
    jiff::Timestamp::from_second(seconds).is_ok()
}

/// What `jiff::fmt::strtime::format` makes of a format over an instant in
/// UTC: the text, or the error's text.
pub uninterp spec fn jiff_strftime_utc(format: Seq<char>, seconds: i64, nanos: i32) -> Result<Seq<char>, Seq<char>>;

/// `jiff::Timestamp::new(seconds, nanos)` zoned in `TimeZone::UTC` and
/// formatted with `strtime::format`; either error as its `Display` text.
/// A function of its arguments; it is named.
#[verifier::external_body]
fn strftime_utc(format: &str, t: Stamp) -> (r: Result<String, String>)
    ensures
        match r {
            Ok(s) => jiff_strftime_utc(format@, t.seconds, t.nanos) == Ok::<Seq<char>, Seq<char>>(s@),
            Err(e) => jiff_strftime_utc(format@, t.seconds, t.nanos) == Err::<Seq<char>, Seq<char>>(e@),
        },
{
    match jiff::Timestamp::new(t.seconds, t.nanos) {
        Ok(ts) => jiff::fmt::strtime::format(format, &ts.to_zoned(jiff::tz::TimeZone::UTC)).map_err(
            |e| e.to_string(),
        ),
        Err(e) => Err(e.to_string()),
    }
}

/// The same in the system's time zone (`TimeZone::system()`). The zone
/// depends on the machine and its environment, so nothing is claimed of
/// the text.
#[verifier::external_body]
fn strftime_system(format: &str, t: Stamp) -> (r: Result<String, String>) {
    match jiff::Timestamp::new(t.seconds, t.nanos) {
        Ok(ts) => jiff::fmt::strtime::format(format, &ts.to_zoned(jiff::tz::TimeZone::system())).map_err(
            |e| e.to_string(),
        ),
        Err(e) => Err(e.to_string()),
    }
}

/// Why a timestamp does not read or format.
#[derive(Clone, Debug, PartialEq, Eq)]
pub enum TimestampError {
    Empty,
    /// A bare `-`: no digits after the sign.
    NoDigits,
    /// Epoch seconds above `i64::MAX`.
    TooLarge,
    /// Epoch seconds below `i64::MIN`.
    TooSmall,
    /// Epoch seconds outside what jiff represents.
    OutOfRange,
    /// Not RFC 3339: the trimmed text and jiff's reason.
    Invalid { text: String, reason: String },
    /// The format does not apply: the format and jiff's reason.
    Format { format: String, reason: String },
}

/// The sentence a timestamp is refused with.
pub open spec fn timestamp_error_text(e: TimestampError) -> Seq<char> {
    match e {
        TimestampError::Empty => "empty timestamp"@,
        TimestampError::NoDigits => "parsing epoch seconds: invalid digit found in string"@,
        TimestampError::TooLarge => "parsing epoch seconds: number too large to fit in target type"@,
        TimestampError::TooSmall => "parsing epoch seconds: number too small to fit in target type"@,
        TimestampError::OutOfRange => "epoch out of range"@,
        TimestampError::Invalid { text, reason } => "invalid timestamp: "@ + debug_quoted(text@) + ": "@
            + reason@,
        TimestampError::Format { format, reason } => "invalid format: "@ + debug_quoted(format@) + ": "@
            + reason@,
    }
}

impl TimestampError {
    /// The sentence the timestamp is refused with.
    pub fn message(&self) -> (r: String)
        ensures
            r@ == timestamp_error_text(*self),
    {
        match self {
            TimestampError::Empty => "empty timestamp".to_string(),
            TimestampError::NoDigits => "parsing epoch seconds: invalid digit found in string".to_string(),
            TimestampError::TooLarge => "parsing epoch seconds: number too large to fit in target type".to_string(),
            TimestampError::TooSmall => "parsing epoch seconds: number too small to fit in target type".to_string(),
            TimestampError::OutOfRange => "epoch out of range".to_string(),
            TimestampError::Invalid { text, reason } => {
                let mut r = String::new();
                push_str(&mut r, "invalid timestamp: ");
                push_str(&mut r, debug_quote(text.as_str()).as_str());
                push_str(&mut r, ": ");
                push_str(&mut r, reason.as_str());
                r
            },
            TimestampError::Format { format, reason } => {
                let mut r = String::new();
                push_str(&mut r, "invalid format: ");
                push_str(&mut r, debug_quote(format.as_str()).as_str());
                push_str(&mut r, ": ");
                push_str(&mut r, reason.as_str());
                r
            },
        }
    }
}

/// An ASCII digit.
pub open spec fn is_digit(c: char) -> bool {
    '0' <= c <= '9'
}

/// The digits after an optional leading `-`.
pub open spec fn unsigned_part(t: Seq<char>) -> Seq<char> {
    if t.len() > 0 && t[0] == '-' {
        t.skip(1)
    } else {
        t
    }
}

/// Whether the text is epoch seconds: an optional `-`, then nothing but
/// ASCII digits.
pub open spec fn epoch_shaped(t: Seq<char>) -> bool {
    forall|i: int| 0 <= i < unsigned_part(t).len() ==> is_digit(#[trigger] unsigned_part(t)[i])
}

/// The value of a run of decimal digits.
pub open spec fn digits_value(d: Seq<char>) -> nat
    decreases d.len(),
{
    if d.len() == 0 {
        0
    } else {
        10 * digits_value(d.drop_last()) + (d.last() as nat - '0' as nat) as nat
    }
}

/// The signed value of epoch-shaped text.
pub open spec fn epoch_value(t: Seq<char>) -> int {
    if t.len() > 0 && t[0] == '-' {
        -(digits_value(unsigned_part(t)) as int)
    } else {
        digits_value(unsigned_part(t)) as int
    }
}

/// How a timestamp reads, given the present instant: trimmed, empty is
/// refused, `now` is the present, an optional `-` and digits are epoch
/// seconds (which must fit `i64` and jiff's range), anything else is read
/// as RFC 3339 by jiff.
pub open spec fn timestamp_outcome(s: Seq<char>, now: Stamp, r: Result<Stamp, TimestampError>) -> bool {
    let t = trimmed(s);
    if t.len() == 0 {
        r == Err::<Stamp, TimestampError>(TimestampError::Empty)
    } else if t == "now"@ {
        r == Ok::<Stamp, TimestampError>(now)
    } else if epoch_shaped(t) {
        let v = epoch_value(t);
        if unsigned_part(t).len() == 0 {
            r == Err::<Stamp, TimestampError>(TimestampError::NoDigits)
        } else if v > i64::MAX {
            r == Err::<Stamp, TimestampError>(TimestampError::TooLarge)
        } else if v < i64::MIN {
            r == Err::<Stamp, TimestampError>(TimestampError::TooSmall)
        } else if EPOCH_MIN <= v <= EPOCH_MAX {
            r == Ok::<Stamp, TimestampError>(Stamp { seconds: v as i64, nanos: 0 })
        } else {
            r == Err::<Stamp, TimestampError>(TimestampError::OutOfRange)
        }
    } else {
        match jiff_timestamp(t) {
            Ok(p) => r == Ok::<Stamp, TimestampError>(Stamp { seconds: p.0, nanos: p.1 }),
            Err(m) => r matches Err(TimestampError::Invalid { text, reason }) && text@ == t && reason@ == m,
        }
    }
}

/// Accepts `now`, integer epoch seconds, or RFC 3339; `now` is the present
/// instant, which the caller reads.
pub fn parse_timestamp(s: &str, now: Stamp) -> (r: Result<Stamp, TimestampError>)
    ensures
        timestamp_outcome(s@, now, r),
{
    let t = trim(s);
    let v = chars_of(t.as_str());
    if v.len() == 0 {
        return Err(TimestampError::Empty);
    }
    proof {
        reveal_strlit("now");
    }
    if v.len() == 3 && v[0] == 'n' && v[1] == 'o' && v[2] == 'w' {
        proof {
            assert(v@ =~= "now"@);
        }
        return Ok(now);
    }
    proof {
        if v@ == "now"@ {
            assert(v@[0] == 'n' && v@[1] == 'o' && v@[2] == 'w');
        }
    }
    let neg = v[0] == '-';
    let start: usize = if neg { 1 } else { 0 };
    let ghost u = unsigned_part(v@);
    proof {
        assert(u =~= v@.skip(start as int));
    }
    // Shape first: an optional sign, then digits only.
    let mut i: usize = start;
    let mut shaped = true;
    while i < v.len()
        invariant
            start <= i <= v@.len(),
            u == v@.skip(start as int),
            shaped == forall|j: int| 0 <= j < i - start ==> is_digit(#[trigger] u[j]),
        decreases v@.len() - i,
    {
        proof {
            assert(u[i - start] == v@[i as int]);
        }
        if !('0' <= v[i] && v[i] <= '9') {
            shaped = false;
        }
        i += 1;
    }
    if !shaped {
        return match parse_rfc3339(t.as_str()) {
            Ok(p) => Ok(p),
            Err(reason) => Err(TimestampError::Invalid { text: t, reason }),
        };
    }
    if v.len() == start {
        return Err(TimestampError::NoDigits);
    }
    // The magnitude, or `big` once it passes 2^63.
    let limit: u128 = 9223372036854775808;
    let mut acc: u128 = 0;
    let mut big = false;
    let mut k: usize = start;
    while k < v.len()
        invariant
            start <= k <= v@.len(),
            u == v@.skip(start as int),
            forall|j: int| 0 <= j < u.len() ==> is_digit(#[trigger] u[j]),
            limit == 9223372036854775808u128,
            !big ==> acc == digits_value(u.take(k - start)) && acc <= limit,
            big ==> digits_value(u.take(k - start)) > limit,
        decreases v@.len() - k,
    {
        let ghost pre = u.take(k - start);
        let ghost post = u.take(k + 1 - start);
        proof {
            assert(post.drop_last() =~= pre);
            assert(post.last() == v@[k as int]);
            assert(is_digit(u[k - start]));
        }
        let d = (v[k] as u32 - '0' as u32) as u128;
        if !big {
            let next = acc * 10 + d;
            if next > limit {
                big = true;
            } else {
                acc = next;
            }
        }
        k += 1;
    }
    proof {
        assert(u.take(u.len() as int) =~= u);
    }
    if neg {
        if big || acc > limit {
            return Err(TimestampError::TooSmall);
        }
        let secs: i64 = if acc == limit { i64::MIN } else { -(acc as i64) };
        if in_jiff_range(secs) {
            Ok(Stamp { seconds: secs, nanos: 0 })
        } else {
            Err(TimestampError::OutOfRange)
        }
    } else {
        if big || acc >= limit {
            return Err(TimestampError::TooLarge);
        }
        let secs = acc as i64;
        if in_jiff_range(secs) {
            Ok(Stamp { seconds: secs, nanos: 0 })
        } else {
            Err(TimestampError::OutOfRange)
        }
    }
}

/// strftime formatting in UTC, or in the system's zone.
pub fn format_timestamp(t: Stamp, format: &str, utc: bool) -> (r: Result<String, TimestampError>)
    ensures
        utc ==> match jiff_strftime_utc(format@, t.seconds, t.nanos) {
            Ok(s) => r matches Ok(x) && x@ == s,
            Err(m) => r matches Err(TimestampError::Format { format: f, reason }) && f@ == format@ && reason@ == m,
        },
        !utc ==> (r matches Err(e) ==> e matches TimestampError::Format { format: f, .. } && f@ == format@),
{
    let out = if utc {
        strftime_utc(format, t)
    } else {
        strftime_system(format, t)
    };
    match out {
        Ok(s) => Ok(s),
        Err(reason) => Err(TimestampError::Format { format: format.to_string(), reason }),
    }
}

/// "5m ago", "in 1h 33m", or "just now" within ten seconds either way.
pub open spec fn relative_text(from: i64, to: i64) -> Seq<char> {
    let delta = to - from;
    if -10 < delta < 10 {
        "just now"@
    } else if delta < 0 {
        long_text((-delta) as nat) + " ago"@
    } else {
        "in "@ + long_text(delta as nat)
    }
}

/// How `to` stands relative to `from`, in words.
pub fn relative(from: i64, to: i64) -> (r: String)
    ensures
        r@ == relative_text(from, to),
{
    let delta: i128 = to as i128 - from as i128;
    if -10 < delta && delta < 10 {
        return "just now".to_string();
    }
    if delta < 0 {
        let mut r = format_long((-delta) as u64);
        push_str(&mut r, " ago");
        r
    } else {
        let mut r = "in ".to_string();
        push_str(&mut r, format_long(delta as u64).as_str());
        r
    }
}

} // verus!
