//! The decisions and the words of the `rat watch` loop: what a key means in
//! each mode, how the interval resolves beside triggers, and the text of
//! the status rows and the key reference.

use vstd::prelude::*;

use crate::dashboard_file::DEFAULT_INTERVAL_MS;
use crate::datetime::Stamp;
use crate::registry::PaneGeometry;
use crate::decode::{decode_line, lossy_text};
use crate::duration::{format_long, interval_ms, long_text, parse_interval, IntervalError};
use crate::text::{
    chars_of, decimal, decimal_string, push_str, slice_of, split_on, split_str, string_of, views,
};
use crate::trigger::{trigger_label, TriggerSpec};

verus! {

/// A key as the loop reads it.
#[derive(Copy, Clone, PartialEq, Eq, Debug, Structural)]
pub enum Key {
    Char(char),
    CtrlC,
    Enter,
    Esc,
    Tab,
    Backspace,
    Up,
    Down,
    Left,
    Right,
    PageUp,
    PageDown,
    Home,
    End,
}

/// How far one scroll key moves the window.
#[derive(Copy, Clone, PartialEq, Eq, Debug, Structural)]
pub enum ScrollStep {
    LineDown,
    LineUp,
    HalfDown,
    HalfUp,
    PageDown,
    PageUp,
    Top,
    Bottom,
}

/// Which surface the loop is showing. The freeze remains reachable from
/// every mode.
#[derive(Copy, Clone, PartialEq, Eq, Debug, Structural)]
pub enum FrameMode {
    Live,
    LiveScrolled,
    Paused,
}

/// What one key means.
#[derive(Copy, Clone, PartialEq, Eq, Debug, Structural)]
pub enum WatchAction {
    Abort,
    Quit,
    Page,
    Help,
    Snapshot,
    Resume,
    Freeze,
    ScrubBack,
    ScrubForward,
    Scroll(ScrollStep),
    ToggleWrap,
    ShiftLeft,
    ShiftRight,
    ToggleGutter,
    ToggleHighlight,
    ToggleTime,
    Ignore,
}

/// The binding table, for every mode.
pub open spec fn binding(key: Key, mode: FrameMode) -> WatchAction {
    match key {
        Key::CtrlC => WatchAction::Abort,
        Key::Enter => WatchAction::Page,
        Key::Down => WatchAction::Scroll(ScrollStep::LineDown),
        Key::Up => WatchAction::Scroll(ScrollStep::LineUp),
        Key::PageDown => WatchAction::Scroll(ScrollStep::PageDown),
        Key::PageUp => WatchAction::Scroll(ScrollStep::PageUp),
        Key::Home => WatchAction::Scroll(ScrollStep::Top),
        Key::End => WatchAction::Scroll(ScrollStep::Bottom),
        Key::Left => WatchAction::ShiftLeft,
        Key::Right => WatchAction::ShiftRight,
        Key::Esc => if mode != FrameMode::Live {
            WatchAction::Resume
        } else {
            WatchAction::Ignore
        },
        Key::Tab | Key::Backspace => WatchAction::Ignore,
        Key::Char(c) => if c == 'q' {
            WatchAction::Quit
        } else if c == 'v' {
            WatchAction::Page
        } else if c == '?' {
            WatchAction::Help
        } else if c == 'S' {
            WatchAction::Snapshot
        } else if c == 'j' {
            WatchAction::Scroll(ScrollStep::LineDown)
        } else if c == 'k' {
            WatchAction::Scroll(ScrollStep::LineUp)
        } else if c == 'd' {
            WatchAction::Scroll(ScrollStep::HalfDown)
        } else if c == 'u' {
            WatchAction::Scroll(ScrollStep::HalfUp)
        } else if c == 'f' {
            WatchAction::Scroll(ScrollStep::PageDown)
        } else if c == 'b' {
            WatchAction::Scroll(ScrollStep::PageUp)
        } else if c == 'g' {
            WatchAction::Scroll(ScrollStep::Top)
        } else if c == 'G' {
            WatchAction::Scroll(ScrollStep::Bottom)
        } else if c == 'w' {
            WatchAction::ToggleWrap
        } else if c == 'h' {
            WatchAction::ShiftLeft
        } else if c == 'l' {
            WatchAction::ShiftRight
        } else if c == 'D' {
            WatchAction::ToggleGutter
        } else if c == 'c' {
            WatchAction::ToggleHighlight
        } else if c == 't' {
            WatchAction::ToggleTime
        } else if c == 'F' && mode != FrameMode::Live {
            WatchAction::Resume
        } else if c == 'p' && mode != FrameMode::Paused {
            WatchAction::Freeze
        } else if c == '<' || c == ',' {
            WatchAction::ScrubBack
        } else if (c == '>' || c == '.') && mode == FrameMode::Paused {
            WatchAction::ScrubForward
        } else {
            WatchAction::Ignore
        },
    }
}

/// What `key` means in `mode`. Unix and Windows read their keys
/// differently but mean the same things by them; view keys never freeze.
pub fn action_for(key: Key, mode: FrameMode) -> (r: WatchAction)
    ensures
        r == binding(key, mode),
{
    let live = match mode {
        FrameMode::Live => true,
        _ => false,
    };
    let paused = match mode {
        FrameMode::Paused => true,
        _ => false,
    };
    match key {
        Key::CtrlC => WatchAction::Abort,
        Key::Enter => WatchAction::Page,
        Key::Down => WatchAction::Scroll(ScrollStep::LineDown),
        Key::Up => WatchAction::Scroll(ScrollStep::LineUp),
        Key::PageDown => WatchAction::Scroll(ScrollStep::PageDown),
        Key::PageUp => WatchAction::Scroll(ScrollStep::PageUp),
        Key::Home => WatchAction::Scroll(ScrollStep::Top),
        Key::End => WatchAction::Scroll(ScrollStep::Bottom),
        Key::Left => WatchAction::ShiftLeft,
        Key::Right => WatchAction::ShiftRight,
        Key::Esc => if !live {
            WatchAction::Resume
        } else {
            WatchAction::Ignore
        },
        Key::Tab | Key::Backspace => WatchAction::Ignore,
        Key::Char(c) => if c == 'q' {
            WatchAction::Quit
        } else if c == 'v' {
            WatchAction::Page
        } else if c == '?' {
            WatchAction::Help
        } else if c == 'S' {
            WatchAction::Snapshot
        } else if c == 'j' {
            WatchAction::Scroll(ScrollStep::LineDown)
        } else if c == 'k' {
            WatchAction::Scroll(ScrollStep::LineUp)
        } else if c == 'd' {
            WatchAction::Scroll(ScrollStep::HalfDown)
        } else if c == 'u' {
            WatchAction::Scroll(ScrollStep::HalfUp)
        } else if c == 'f' {
            WatchAction::Scroll(ScrollStep::PageDown)
        } else if c == 'b' {
            WatchAction::Scroll(ScrollStep::PageUp)
        } else if c == 'g' {
            WatchAction::Scroll(ScrollStep::Top)
        } else if c == 'G' {
            WatchAction::Scroll(ScrollStep::Bottom)
        } else if c == 'w' {
            WatchAction::ToggleWrap
        } else if c == 'h' {
            WatchAction::ShiftLeft
        } else if c == 'l' {
            WatchAction::ShiftRight
        } else if c == 'D' {
            WatchAction::ToggleGutter
        } else if c == 'c' {
            WatchAction::ToggleHighlight
        } else if c == 't' {
            WatchAction::ToggleTime
        } else if c == 'F' && !live {
            WatchAction::Resume
        } else if c == 'p' && !paused {
            WatchAction::Freeze
        } else if c == '<' || c == ',' {
            WatchAction::ScrubBack
        } else if (c == '>' || c == '.') && paused {
            WatchAction::ScrubForward
        } else {
            WatchAction::Ignore
        },
    }
}

/// The keys whose meaning depends on the mode: resume (`Esc`, `F`),
/// freeze (`p`) and scrub-forward (`>`, `.`). Every other key means the
/// same thing in every mode; only `p` freezes, never from a freeze; a live
/// surface has nothing to resume; scrubbing forward needs a parked frame.
pub proof fn lemma_keys_mean_the_same_in_every_mode(key: Key, a: FrameMode, b: FrameMode)
    ensures
        !(key == Key::Esc || key == Key::Char('F') || key == Key::Char('p') || key == Key::Char('>')
            || key == Key::Char('.')) ==> binding(key, a) == binding(key, b),
        binding(key, a) == WatchAction::Freeze ==> key == Key::Char('p') && a != FrameMode::Paused,
        binding(key, a) == WatchAction::Resume ==> a != FrameMode::Live,
        binding(key, a) == WatchAction::ScrubForward ==> a == FrameMode::Paused,
{
}

// ---------------------------------------------------------------------
// The interval.

/// How the interval resolves: the user's token always wins; no token
/// means the 2s default, unless a trigger exists, which makes polling
/// opt-in (`None` is trigger-only).
pub open spec fn interval_outcome(user: Option<Seq<char>>, triggered: bool, r: Result<Option<u64>, IntervalError>) -> bool {
    match user {
        Some(t) => match interval_ms(t) {
            Some(ms) => r == Ok::<Option<u64>, IntervalError>(Some(ms)),
            None => r matches Err(e) && e.input@ == t,
        },
        None => r == Ok::<Option<u64>, IntervalError>(
            if triggered {
                None
            } else {
                Some(DEFAULT_INTERVAL_MS)
            },
        ),
    }
}

/// The one home of the interval's meaning beside triggers, in
/// milliseconds.
pub fn resolve_interval(user: Option<&str>, triggered: bool) -> (r: Result<Option<u64>, IntervalError>)
    ensures
        interval_outcome(
            match user {
                Some(t) => Some(t@),
                None => None,
            },
            triggered,
            r,
        ),
{
    match user {
        Some(token) => match parse_interval(token) {
            Ok(ms) => Ok(Some(ms)),
            Err(e) => Err(e),
        },
        None => if triggered {
            Ok(None)
        } else {
            Ok(Some(DEFAULT_INTERVAL_MS))
        },
    }
}

// ---------------------------------------------------------------------
// The status rows.

/// The paused row's counting age: a short grace reads "just now", then the
/// exact age counts second by second.
pub open spec fn age_words(age_secs: nat) -> Seq<char> {
    if age_secs < 10 {
        "just now"@
    } else {
        long_text(age_secs) + " ago"@
    }
}

/// The counting age, pre-formatted.
pub fn age_text(age_secs: u64) -> (r: String)
    ensures
        r@ == age_words(age_secs as nat),
{
    if age_secs < 10 {
        "just now".to_string()
    } else {
        let mut r = format_long(age_secs);
        push_str(&mut r, " ago");
        r
    }
}

/// The live row's time segment: the last-change stamp, or its counting
/// form when the presentation is flipped.
pub fn live_time_segment(alt_time: bool, since: &str, live_age_secs: u64) -> (r: String)
    ensures
        r@ == if alt_time {
            "changed "@ + age_words(live_age_secs as nat)
        } else {
            "since "@ + since@
        },
{
    let mut r = String::new();
    if alt_time {
        push_str(&mut r, "changed ");
        push_str(&mut r, age_text(live_age_secs).as_str());
    } else {
        push_str(&mut r, "since ");
        push_str(&mut r, since);
    }
    r
}

/// The run-constant tail of every live dashboard row: the source count,
/// the one fact worth the width, and the help breadcrumb. Empty in once
/// mode. Nothing in it counts, so a parked dashboard stays byte-silent.
pub fn dashboard_suffix(once: bool, sources: usize) -> (r: String)
    ensures
        r@ == if once {
            Seq::empty()
        } else if sources == 1 {
            " \u{b7} 1 source \u{b7} ? help"@
        } else {
            " \u{b7} "@ + decimal(sources as nat) + " sources \u{b7} ? help"@
        },
{
    let mut r = String::new();
    proof {
        assert(r@ =~= Seq::<char>::empty());
    }
    if once {
        return r;
    }
    if sources == 1 {
        push_str(&mut r, " \u{b7} 1 source \u{b7} ? help");
        proof {
            assert(r@ =~= " \u{b7} 1 source \u{b7} ? help"@);
        }
    } else {
        push_str(&mut r, " \u{b7} ");
        push_str(&mut r, decimal_string(sources).as_str());
        push_str(&mut r, " sources \u{b7} ? help");
    }
    r
}

/// The `file:` paths among a set of triggers, in order: the ones the
/// ledger stats.
pub fn file_paths(triggers: &[TriggerSpec]) -> (r: Vec<String>)
    ensures
        views(r@) == file_path_views(triggers@),
{
    let mut out: Vec<String> = Vec::new();
    let mut i: usize = 0;
    while i < triggers.len()
        invariant
            i <= triggers@.len(),
            views(out@) == file_path_views(triggers@.take(i as int)),
        decreases triggers@.len() - i,
    {
        proof {
            assert(triggers@.take(i + 1).drop_last() =~= triggers@.take(i as int));
        }
        match &triggers[i] {
            TriggerSpec::File(p) => {
                let q = p.clone();
                let ghost prev = out@;
                out.push(q);
                proof {
                    assert(views(out@) =~= views(prev).push(q@));
                }
            },
            _ => {},
        }
        i += 1;
    }
    proof {
        assert(triggers@.take(triggers@.len() as int) =~= triggers@);
    }
    out
}

/// The paths of the `file:` triggers, in order.
pub open spec fn file_path_views(ts: Seq<TriggerSpec>) -> Seq<Seq<char>>
    decreases ts.len(),
{
    if ts.len() == 0 {
        Seq::empty()
    } else {
        let rest = file_path_views(ts.drop_last());
        match ts.last() {
            TriggerSpec::File(p) => rest.push(p@),
            _ => rest,
        }
    }
}

/// The run-constant tail of every live row: the refresh mode and the one
/// discoverability breadcrumb. Empty in once mode. A missing interval
/// without a trigger cannot arise from `resolve_interval`.
pub fn live_suffix(once: bool, interval: Option<&str>, triggered: bool) -> (r: String)
    requires
        once || interval is Some || triggered,
    ensures
        r@ == if once {
            Seq::empty()
        } else {
            match interval {
                Some(i) => if triggered {
                    " \u{b7} every "@ + i@ + " or on trigger \u{b7} ? help"@
                } else {
                    " \u{b7} every "@ + i@ + " \u{b7} ? help"@
                },
                None => " \u{b7} on trigger \u{b7} ? help"@,
            }
        },
{
    let mut r = String::new();
    proof {
        assert(r@ =~= Seq::<char>::empty());
    }
    if once {
        return r;
    }
    match interval {
        Some(i) => {
            push_str(&mut r, " \u{b7} every ");
            push_str(&mut r, i);
            if triggered {
                push_str(&mut r, " or on trigger \u{b7} ? help");
            } else {
                push_str(&mut r, " \u{b7} ? help");
            }
        },
        None => {
            push_str(&mut r, " \u{b7} on trigger \u{b7} ? help");
        },
    }
    r
}

/// The live status row: the truncation notice when rows are hidden,
/// carrying the time segment.
pub fn live_notice(hidden: usize, time_seg: &str) -> (r: String)
    ensures
        r@ == if hidden > 0 {
            "\u{2026} "@ + decimal(hidden as nat) + " more lines \u{b7} "@ + time_seg@
        } else {
            time_seg@
        },
{
    let mut r = String::new();
    if hidden > 0 {
        push_str(&mut r, "\u{2026} ");
        push_str(&mut r, decimal_string(hidden).as_str());
        push_str(&mut r, " more lines \u{b7} ");
    }
    push_str(&mut r, time_seg);
    r
}

/// The painted body: `max_height`, else the terminal's rows less two (one
/// for the notice line, one for the cursor row below the frame).
pub fn window_rows(max_height: Option<u16>, rows: u16) -> (r: u16)
    ensures
        r == match max_height {
            Some(h) => h as int,
            None => if rows >= 2 {
                rows - 2
            } else {
                0
            },
        },
{
    match max_height {
        Some(h) => h,
        None => rows.saturating_sub(2),
    }
}

// ---------------------------------------------------------------------
// The frame.

/// `s` without its trailing newlines.
pub open spec fn without_trailing_newlines(s: Seq<char>) -> Seq<char>
    decreases s.len(),
{
    if s.len() > 0 && s.last() == '\n' {
        without_trailing_newlines(s.drop_last())
    } else {
        s
    }
}

/// A stream's lines in a frame: trailing newlines trimmed, interior ones
/// kept.
pub open spec fn stream_pieces(s: Seq<char>) -> Seq<Seq<char>> {
    split_on(without_trailing_newlines(s), '\n')
}

/// One frame's lines: title first, the child's stdout, then its stderr
/// when it joins the frame and is not empty.
pub open spec fn frame_of(title: Option<Seq<char>>, stdout: Seq<u8>, stderr: Seq<u8>, join_stderr: bool) -> Seq<Seq<char>> {
    let head = match title {
        Some(t) => seq![t],
        None => Seq::empty(),
    };
    let tail = if join_stderr && stderr.len() > 0 {
        stream_pieces(lossy_text(stderr))
    } else {
        Seq::empty()
    };
    head + stream_pieces(lossy_text(stdout)) + tail
}

fn stream_split(bytes: &[u8]) -> (r: Vec<String>)
    ensures
        views(r@) == stream_pieces(lossy_text(bytes@)),
{
    let body = decode_line(bytes);
    let v = chars_of(body.as_str());
    let mut end = v.len();
    proof {
        assert(v@.take(end as int) =~= v@);
    }
    while end > 0 && v[end - 1] == '\n'
        invariant
            end <= v@.len(),
            without_trailing_newlines(v@) == without_trailing_newlines(v@.take(end as int)),
        decreases end,
    {
        proof {
            assert(v@.take(end as int).drop_last() =~= v@.take(end - 1));
        }
        end -= 1;
    }
    let kept = string_of(slice_of(&v, 0, end));
    proof {
        assert(v@.subrange(0, end as int) =~= v@.take(end as int));
        assert(without_trailing_newlines(v@.take(end as int)) == v@.take(end as int));
    }
    split_str(kept.as_str(), '\n')
}

/// One frame's lines: title first, child stdout, then child stderr when
/// it joins the frame. Trailing newlines are trimmed, not the interior
/// ones.
pub fn compose_frame(title: Option<&String>, stdout: &[u8], stderr: &[u8], join_stderr: bool) -> (r: Vec<String>)
    ensures
        views(r@) == frame_of(
            match title {
                Some(t) => Some(t@),
                None => None,
            },
            stdout@,
            stderr@,
            join_stderr,
        ),
{
    let mut lines: Vec<String> = Vec::new();
    if let Some(t) = title {
        lines.push(t.clone());
    }
    let out = stream_split(stdout);
    let ghost head = views(lines@);
    let mut i: usize = 0;
    while i < out.len()
        invariant
            i <= out@.len(),
            views(lines@) == head + views(out@).take(i as int),
        decreases out@.len() - i,
    {
        let w = out[i].clone();
        proof {
            assert(views(lines@.push(w)) =~= views(lines@).push(w@));
            assert(views(out@).take(i + 1) =~= views(out@).take(i as int).push(out@[i as int]@));
        }
        lines.push(w);
        i += 1;
    }
    proof {
        assert(views(out@).take(out@.len() as int) =~= views(out@));
    }
    if join_stderr && stderr.len() > 0 {
        let err = stream_split(stderr);
        let ghost mid = views(lines@);
        let mut j: usize = 0;
        while j < err.len()
            invariant
                j <= err@.len(),
                views(lines@) == mid + views(err@).take(j as int),
            decreases err@.len() - j,
        {
            let w = err[j].clone();
            proof {
                assert(views(lines@.push(w)) =~= views(lines@).push(w@));
                assert(views(err@).take(j + 1) =~= views(err@).take(j as int).push(err@[j as int]@));
            }
            lines.push(w);
            j += 1;
        }
        proof {
            assert(views(err@).take(err@.len() as int) =~= views(err@));
        }
    } else {
        proof {
            assert(views(lines@) =~= views(lines@) + Seq::<Seq<char>>::empty());
        }
    }
    lines
}

// ---------------------------------------------------------------------
// The key reference.

/// The key reference, grouped the way the keys are learned.
pub open spec fn key_reference() -> Seq<Seq<char>> {
    seq![
        "rat watch \u{2014} keys"@,
        ""@,
        "  q                  quit"@,
        "  v, Enter           view the full frame in the pager"@,
        "  ?                  this key reference"@,
        "  S                  snapshot the viewed frame to a file"@,
        ""@,
        "  j/k, Up/Down       scroll one line (opens a live window)"@,
        "  d/u                scroll half a window"@,
        "  f/b, PgDn/PgUp     scroll a full window"@,
        "  g, Home            top \u{2014} and back to the live view"@,
        "  G, End             bottom \u{2014} stick to the tail"@,
        ""@,
        "  p                  freeze the frame in place (the command keeps running)"@,
        "  Esc, F             resume the live tail"@,
        "  <, ,               step back through distinct frames"@,
        "  >, .               step forward again"@,
        ""@,
        "  w                  wrap or chop long lines"@,
        "  h/l, Left/Right    shift the view horizontally"@,
        "  D                  toggle the change gutter"@,
        "  c                  toggle the change highlights"@,
        "  t                  time style: wall-clock stamps or counting ages"@,
    ]
}

/// One indented row per trigger source.
pub open spec fn trigger_rows(ts: Seq<TriggerSpec>) -> Seq<Seq<char>>
    decreases ts.len(),
{
    if ts.len() == 0 {
        Seq::empty()
    } else {
        trigger_rows(ts.drop_last()).push("    "@ + trigger_label(ts.last()))
    }
}

/// The reference `?` pages, then the configured trigger sources when any
/// exist.
pub open spec fn help_text(triggers: Seq<TriggerSpec>) -> Seq<Seq<char>> {
    if triggers.len() == 0 {
        key_reference()
    } else {
        key_reference() + seq![""@, "  refresh triggers:"@] + trigger_rows(triggers)
    }
}

/// The key reference `?` pages: plain text, grouped the way the keys are
/// learned, plus the configured trigger sources when any exist.
pub fn help_lines(triggers: &[TriggerSpec]) -> (r: Vec<String>)
    ensures
        views(r@) == help_text(triggers@),
{
    let mut lines: Vec<String> = Vec::new();
    lines.push("rat watch \u{2014} keys".to_string());
    lines.push("".to_string());
    lines.push("  q                  quit".to_string());
    lines.push("  v, Enter           view the full frame in the pager".to_string());
    lines.push("  ?                  this key reference".to_string());
    lines.push("  S                  snapshot the viewed frame to a file".to_string());
    lines.push("".to_string());
    lines.push("  j/k, Up/Down       scroll one line (opens a live window)".to_string());
    lines.push("  d/u                scroll half a window".to_string());
    lines.push("  f/b, PgDn/PgUp     scroll a full window".to_string());
    lines.push("  g, Home            top \u{2014} and back to the live view".to_string());
    lines.push("  G, End             bottom \u{2014} stick to the tail".to_string());
    lines.push("".to_string());
    lines.push("  p                  freeze the frame in place (the command keeps running)".to_string());
    lines.push("  Esc, F             resume the live tail".to_string());
    lines.push("  <, ,               step back through distinct frames".to_string());
    lines.push("  >, .               step forward again".to_string());
    lines.push("".to_string());
    lines.push("  w                  wrap or chop long lines".to_string());
    lines.push("  h/l, Left/Right    shift the view horizontally".to_string());
    lines.push("  D                  toggle the change gutter".to_string());
    lines.push("  c                  toggle the change highlights".to_string());
    lines.push("  t                  time style: wall-clock stamps or counting ages".to_string());
    proof {
        assert(views(lines@) =~= key_reference());
    }
    if triggers.len() == 0 {
        return lines;
    }
    lines.push("".to_string());
    lines.push("  refresh triggers:".to_string());
    let ghost head = views(lines@);
    proof {
        assert(head =~= key_reference() + seq![""@, "  refresh triggers:"@]);
    }
    let mut i: usize = 0;
    while i < triggers.len()
        invariant
            i <= triggers@.len(),
            views(lines@) == head + trigger_rows(triggers@.take(i as int)),
        decreases triggers@.len() - i,
    {
        let mut line = String::new();
        push_str(&mut line, "    ");
        push_str(&mut line, triggers[i].label().as_str());
        proof {
            assert(views(lines@.push(line)) =~= views(lines@).push(line@));
            assert(triggers@.take(i + 1).drop_last() =~= triggers@.take(i as int));
        }
        lines.push(line);
        i += 1;
    }
    proof {
        assert(triggers@.take(triggers@.len() as int) =~= triggers@);
    }
    lines
}


/// Whether instant `a` is later than instant `b`.
pub open spec fn stamp_later(a: Stamp, b: Stamp) -> bool {
    a.seconds > b.seconds || (a.seconds == b.seconds && a.nanos > b.nanos)
}

/// The frame's change stamp after one drained outcome: an outcome whose
/// own content did not change leaves it; a changed one dates it, and the
/// newest such stamp wins.
pub open spec fn folded_changed_at(acc: Option<Stamp>, changed: bool, at: Stamp) -> Option<Stamp> {
    if !changed {
        acc
    } else {
        match acc {
            Some(best) => if stamp_later(at, best) { Some(at) } else { Some(best) },
            None => Some(at),
        }
    }
}

/// Fold one drained outcome into the frame's change stamp: only a
/// source whose OWN content changed may re-date the frame, and the
/// newest such stamp wins.
pub fn fold_changed_at(acc: Option<Stamp>, changed: bool, at: Stamp) -> (r: Option<Stamp>)
    ensures
        r == folded_changed_at(acc, changed, at),
{
    match acc {
        None => if changed { Some(at) } else { None },
        Some(best) => {
            if changed && (at.seconds > best.seconds || (at.seconds == best.seconds && at.nanos > best.nanos)) {
                Some(at)
            } else {
                Some(best)
            }
        },
    }
}

/// Folding two changed outcomes gives the newer stamp whichever order
/// they arrive in, and an unchanged outcome never moves the stamp.
pub proof fn lemma_fold_takes_the_newest(a: Stamp, b: Stamp, quiet: Stamp)
    ensures
        folded_changed_at(folded_changed_at(None, true, a), true, b)
            == folded_changed_at(folded_changed_at(None, true, b), true, a),
        folded_changed_at(folded_changed_at(None, true, a), false, quiet) == Some(a),
{
}

/// The environment a child is started with: its pane's inner size (the
/// terminal's, without panes), the appearance verdict, and, only under a
/// declared layout, the pane's name.
pub open spec fn child_env_spec(name: Seq<char>, in_pane: bool, appearance: Seq<char>, g: PaneGeometry) -> Seq<(Seq<char>, Seq<char>)> {
    let base = seq![
        ("RAT_WIDTH"@, decimal(g.inner_cols as nat)),
        ("RAT_HEIGHT"@, decimal(g.inner_rows as nat)),
        ("RAT_APPEARANCE"@, appearance),
    ];
    if in_pane {
        base.push(("RAT_PANE"@, name))
    } else {
        base
    }
}

/// The variables as plain values.
pub open spec fn env_view(v: Seq<(String, String)>) -> Seq<(Seq<char>, Seq<char>)> {
    v.map_values(|p: (String, String)| (p.0@, p.1@))
}

/// What a source's child is told: `RAT_WIDTH` and `RAT_HEIGHT` (the
/// pane's inner size, re-measured every tick so scripts follow resizes),
/// `RAT_APPEARANCE` (the verdict, so the child never queries the terminal
/// this process reads), and `RAT_PANE` under a declared layout only.
pub fn child_env(name: &str, in_pane: bool, appearance: &str, g: PaneGeometry) -> (r: Vec<(String, String)>)
    ensures
        env_view(r@) == child_env_spec(name@, in_pane, appearance@, g),
{
    let mut r: Vec<(String, String)> = Vec::new();
    r.push(("RAT_WIDTH".to_string(), decimal_string(g.inner_cols as usize)));
    r.push(("RAT_HEIGHT".to_string(), decimal_string(g.inner_rows as usize)));
    r.push(("RAT_APPEARANCE".to_string(), appearance.to_string()));
    if in_pane {
        r.push(("RAT_PANE".to_string(), name.to_string()));
    }
    proof {
        reveal_strlit("RAT_WIDTH");
        reveal_strlit("RAT_HEIGHT");
        reveal_strlit("RAT_APPEARANCE");
        reveal_strlit("RAT_PANE");
        assert(env_view(r@) =~= child_env_spec(name@, in_pane, appearance@, g));
    }
    r
}

// ---------------------------------------------------------------------
// Refusals before the loop starts.

/// Why a watch cannot start with its triggers.
#[derive(Copy, Clone, PartialEq, Eq, Debug, Structural)]
pub enum TriggerRefusal {
    /// A `fifo:` or `fd:` trigger wakes the loop through the terminal,
    /// which a piped or once run does not read.
    NeedsTerminal,
    /// `fd:0` is the terminal's own input while the loop reads keys.
    TerminalInput,
}

impl TriggerRefusal {
    /// The sentence the run is refused with.
    pub fn message(&self) -> (r: String)
        ensures
            r@ == match *self {
                TriggerRefusal::NeedsTerminal => "fifo:/fd: triggers need an interactive terminal; use file:PATH"@,
                TriggerRefusal::TerminalInput => "fd:0 is the terminal's own input while watch reads keys; use another descriptor"@,
            },
    {
        match self {
            TriggerRefusal::NeedsTerminal => "fifo:/fd: triggers need an interactive terminal; use file:PATH".to_string(),
            TriggerRefusal::TerminalInput => "fd:0 is the terminal's own input while watch reads keys; use another descriptor".to_string(),
        }
    }
}

/// Some trigger is not a stat-polled file.
pub open spec fn has_waking_trigger(ts: Seq<TriggerSpec>) -> bool {
    exists|i: int| 0 <= i < ts.len() && !(#[trigger] ts[i] is File)
}

/// Some trigger reads descriptor 0.
pub open spec fn reads_fd_zero(ts: Seq<TriggerSpec>) -> bool {
    exists|i: int| 0 <= i < ts.len() && #[trigger] ts[i] == TriggerSpec::Fd(0)
}

/// The refusals a run meets before any terminal state changes: without
/// an interactive terminal only `file:` triggers can wake the loop; with
/// one, `fd:0` is taken by the keys.
pub fn refuse_untriggerable(interactive: bool, triggers: &[TriggerSpec]) -> (r: Result<(), TriggerRefusal>)
    ensures
        r == if !interactive && has_waking_trigger(triggers@) {
            Err::<(), TriggerRefusal>(TriggerRefusal::NeedsTerminal)
        } else if interactive && reads_fd_zero(triggers@) {
            Err(TriggerRefusal::TerminalInput)
        } else {
            Ok(())
        },
{
    let mut waking = false;
    let mut fd_zero = false;
    let mut i: usize = 0;
    while i < triggers.len()
        invariant
            i <= triggers@.len(),
            waking == exists|k: int| 0 <= k < i && !(#[trigger] triggers@[k] is File),
            fd_zero == exists|k: int| 0 <= k < i && #[trigger] triggers@[k] == TriggerSpec::Fd(0),
        decreases triggers@.len() - i,
    {
        match &triggers[i] {
            TriggerSpec::File(_) => {},
            TriggerSpec::Fd(n) => {
                waking = true;
                if *n == 0 {
                    fd_zero = true;
                }
            },
            TriggerSpec::Fifo(_) => {
                waking = true;
            },
        }
        proof {
            if !waking {
                assert forall|k: int| 0 <= k < i + 1 implies (#[trigger] triggers@[k] is File) by {
                    if k == i {
                    }
                }
            }
        }
        i += 1;
    }
    if !interactive && waking {
        Err(TriggerRefusal::NeedsTerminal)
    } else if interactive && fd_zero {
        Err(TriggerRefusal::TerminalInput)
    } else {
        Ok(())
    }
}

// ---------------------------------------------------------------------
// The painted window.

/// The window's first line: the top while live, the offset (clamped into
/// the frame) while scrolled or frozen.
pub open spec fn window_start(len: nat, offset: nat, mode: FrameMode) -> nat {
    if mode == FrameMode::Live {
        0
    } else if offset < len {
        offset
    } else {
        len
    }
}

/// The window past its first line: at most the body's rows.
pub open spec fn window_end(len: nat, start: nat, rows: nat) -> nat {
    if start + rows < len {
        start + rows
    } else {
        len
    }
}

/// The lines a one-line-per-row paint shows, and how many it hides below:
/// the frame from the window's first line, at most the body's rows
/// (`max_height`, else the terminal's rows less two). The live status
/// row counts the hidden lines ("… N more lines"). Shifting and chopping
/// each line to the columns is the terminal renderer's.
pub fn frame_rows(lines: &[String], offset: usize, mode: FrameMode, max_height: Option<u16>, rows: u16) -> (r: (Vec<String>, usize))
    ensures
        ({
            let start = window_start(lines@.len(), offset as nat, mode);
            let end = window_end(lines@.len(), start, window_rows_of(max_height, rows));
            &&& views(r.0@) == views(lines@.subrange(start as int, end as int))
            &&& r.1 == lines@.len() - end
        }),
{
    let len = lines.len();
    let start = match mode {
        FrameMode::Live => 0,
        _ => if offset < len {
            offset
        } else {
            len
        },
    };
    let body = window_rows(max_height, rows) as usize;
    let end = if body < len - start {
        start + body
    } else {
        len
    };
    let mut kept: Vec<String> = Vec::new();
    let mut i = start;
    while i < end
        invariant
            start <= i <= end <= lines@.len(),
            views(kept@) == views(lines@.subrange(start as int, i as int)),
        decreases end - i,
    {
        let line = lines[i].clone();
        proof {
            assert(line == lines@[i as int]);
            assert(lines@.subrange(start as int, i + 1) =~= lines@.subrange(start as int, i as int).push(lines@[i as int]));
            assert(views(kept@.push(line)) =~= views(kept@).push(line@));
            assert(views(lines@.subrange(start as int, i + 1)) =~= views(lines@.subrange(start as int, i as int)).push(line@));
        }
        kept.push(line);
        i += 1;
    }
    (kept, len - end)
}

/// The body's rows as a number.
pub open spec fn window_rows_of(max_height: Option<u16>, rows: u16) -> nat {
    match max_height {
        Some(h) => h as nat,
        None => if rows >= 2 {
            (rows - 2) as nat
        } else {
            0
        },
    }
}

} // verus!
