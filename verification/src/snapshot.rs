//! Snapshot files: their collision-suffixed names and their bodies.

use vstd::prelude::*;

use crate::measure::{strip_escapes, stripped};
use crate::text::{decimal, decimal_string, push_char, push_str, views};

verus! {

/// How many collision-suffixed names a snapshot tries before giving up.
pub const SNAPSHOT_ATTEMPTS: usize = 100;

/// `rat-watch-{stamp}.txt`; attempt `n > 0` appends `-{n + 1}`.
pub open spec fn snapshot_name(stamp: Seq<char>, attempt: nat) -> Seq<char> {
    if attempt == 0 {
        "rat-watch-"@ + stamp + ".txt"@
    } else {
        "rat-watch-"@ + stamp + "-"@ + decimal(attempt + 1) + ".txt"@
    }
}

/// `rat-watch-{stamp}.txt`; collision attempts append `-2`, `-3`, and so
/// on (attempt 0 is bare, attempt 1 is `-2`).
pub fn snapshot_file_name(stamp: &str, attempt: usize) -> (r: String)
    requires
        attempt < usize::MAX,
    ensures
        r@ == snapshot_name(stamp@, attempt as nat),
{
    let mut r = String::new();
    push_str(&mut r, "rat-watch-");
    push_str(&mut r, stamp);
    if attempt > 0 {
        push_str(&mut r, "-");
        push_str(&mut r, decimal_string(attempt + 1).as_str());
    }
    push_str(&mut r, ".txt");
    r
}

/// The body of a snapshot of `lines[..n]`.
pub open spec fn body_of(lines: Seq<Seq<char>>, keep_ansi: bool) -> Seq<char>
    decreases lines.len(),
{
    if lines.len() == 0 {
        Seq::empty()
    } else {
        let last = lines.last();
        body_of(lines.drop_last(), keep_ansi) + (if keep_ansi {
            last
        } else {
            stripped(last)
        }).push('\n')
    }
}

/// One frame line per line plus a trailing newline, escapes stripped
/// unless `keep_ansi`. Tabs and carriage returns survive either way:
/// stripping drops escape sequences only.
pub fn snapshot_body(lines: &[String], keep_ansi: bool) -> (r: String)
    ensures
        r@ == body_of(views(lines@), keep_ansi),
{
    let mut body = String::new();
    proof {
        assert(body@ =~= body_of(views(lines@).take(0), keep_ansi));
    }
    let mut i: usize = 0;
    while i < lines.len()
        invariant
            i <= lines@.len(),
            body@ == body_of(views(lines@).take(i as int), keep_ansi),
        decreases lines@.len() - i,
    {
        if keep_ansi {
            push_str(&mut body, lines[i].as_str());
        } else {
            push_str(&mut body, strip_escapes(lines[i].as_str()).as_str());
        }
        push_char(&mut body, '\n');
        proof {
            assert(views(lines@).take(i + 1).drop_last() =~= views(lines@).take(i as int));
        }
        i += 1;
    }
    proof {
        assert(views(lines@).take(lines@.len() as int) =~= views(lines@));
    }
    body
}

} // verus!
