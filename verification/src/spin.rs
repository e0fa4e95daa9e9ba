//! What `rat spin` decides once its child is done: which streams it
//! replays, what it says about lines the bound dropped, and how it exits.

use vstd::prelude::*;

use crate::exit::AppError;
use crate::retain::{compact, compact_count, Keep, Retention};
use crate::text::{decimal, decimal_string, push_str};

verus! {

/// How much of the child's output `spin` retains, and from which end: ten
/// thousand lines per stream, the newest kept. `spin` replays what it kept
/// as the command's answer, and why a command failed is usually the last
/// thing it said.
pub fn spin_retention() -> (r: Retention)
    ensures
        r.max_lines == 10_000,
        r.keep == Keep::Bottom,
{
    Retention { max_lines: 10_000, keep: Keep::Bottom }
}

/// `rat: {count} {line|lines} dropped from {stream} — kept the newest {kept}`.
pub open spec fn notice_text(dropped: nat, kept: nat, stream: Seq<char>) -> Seq<char> {
    "rat: "@ + compact(dropped) + (if dropped == 1 {
        " line"@
    } else {
        " lines"@
    }) + " dropped from "@ + stream + " \u{2014} kept the newest "@ + decimal(kept)
}

/// What the bound cost a shown stream, if anything. `kept` is counted
/// rather than assumed to be the bound: one over-long line is dropped
/// whole, with the line count nowhere near full.
pub fn dropped_notice(dropped: usize, kept: usize, stream: &str) -> (r: Option<String>)
    ensures
        dropped == 0 ==> r is None,
        dropped > 0 ==> (r matches Some(s) && s@ == notice_text(dropped as nat, kept as nat, stream@)),
{
    if dropped == 0 {
        return None;
    }
    let mut r = String::new();
    push_str(&mut r, "rat: ");
    push_str(&mut r, compact_count(dropped).as_str());
    if dropped == 1 {
        push_str(&mut r, " line");
    } else {
        push_str(&mut r, " lines");
    }
    push_str(&mut r, " dropped from ");
    push_str(&mut r, stream);
    push_str(&mut r, " \u{2014} kept the newest ");
    push_str(&mut r, decimal_string(kept).as_str());
    Some(r)
}

/// The child's exit code; a death by signal reads as 1.
pub fn child_code(code: Option<i32>) -> (r: i32)
    ensures
        r == match code {
            Some(c) => c,
            None => 1,
        },
{
    match code {
        Some(c) => c,
        None => 1,
    }
}

/// Which streams are replayed, `(stdout, stderr)`: those asked for, and
/// both when `show_error` is set and the child failed.
pub fn shown_streams(show_output: bool, show_stdout: bool, show_stderr: bool, show_error: bool, code: i32) -> (r: (bool, bool))
    ensures
        r.0 == (show_output || show_stdout || (show_error && code != 0)),
        r.1 == (show_output || show_stderr || (show_error && code != 0)),
{
    let failed = code != 0;
    (show_output || show_stdout || (show_error && failed), show_output || show_stderr || (show_error && failed))
}

/// How `spin` ends: a timeout first, then the child's failure as its own
/// code, else success.
pub fn spin_result(timed_out: bool, code: i32) -> (r: Result<(), AppError>)
    ensures
        timed_out ==> r matches Err(AppError::Timeout(None)),
        !timed_out && code != 0 ==> (r matches Err(AppError::Child(c)) && c == code),
        !timed_out && code == 0 ==> r is Ok,
{
    if timed_out {
        return Err(AppError::Timeout(None));
    }
    if code != 0 {
        return Err(AppError::Child(code));
    }
    Ok(())
}

} // verus!
