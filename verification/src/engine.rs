//! The decisions of the `rat watch` loop, as a state machine. The loop
//! that runs it (signals, children, the terminal, sleeping) hands it one
//! event at a time and performs the actions it answers, in order.
//!
//! The turn order the loop keeps is signals, spawn-if-due, drain-then-
//! compose-once, triggers, nap (with the age refresh), then keys. The
//! machine keeps the child's schedule, the trigger debouncer, the paint
//! gate (a frame is redrawn only when what it shows changed), the frozen
//! view and the view toggles. Scrolling, scrubbing, paging and snapshots
//! work on data the loop owns (its scroll model, its history, its pager);
//! the machine asks for them and is told where the view ended up.
//! Times are milliseconds.

use vstd::prelude::*;

use crate::schedule::{after_completion, after_request, after_respawn_request, completes_in_range, fresh, nap_of, polled, Due, SchedState, TickSchedule};
use crate::trigger::{gate_due, gate_fired, DebounceGate, TriggerSpec};
use crate::watch::{action_for, binding, live_notice, window_rows, FrameMode, Key, ScrollStep, WatchAction};

verus! {

/// The longest the loop sleeps before it looks again.
pub const SLICE_MS: u64 = 50;

/// How long lines are shown. View state, not scrollback state: it
/// survives freeze, resume and the pager.
#[derive(Copy, Clone, PartialEq, Eq, Debug, Structural)]
pub struct ViewState {
    /// Wrap long lines (otherwise chop them).
    pub wrap: bool,
    /// Columns shifted right.
    pub hshift: usize,
    /// The change gutter.
    pub gutter: bool,
    /// Reverse-video highlights on changed characters.
    pub highlight: bool,
    /// Counting ages in place of wall-clock stamps.
    pub alt_time: bool,
}

/// The frame the newest drain composed.
#[derive(Copy, Clone, PartialEq, Eq, Debug, Structural)]
pub struct LiveFrame {
    /// The content key of the frame.
    pub content: u64,
    /// When the content last changed (not when it was last produced).
    pub changed_at: u64,
}

/// A frozen view: what it shows and where.
#[derive(Copy, Clone, PartialEq, Eq, Debug, Structural)]
pub struct PauseView {
    /// The content key of the frozen frame.
    pub content: u64,
    /// The appearance it was frozen under.
    pub theme: u8,
    /// The window's first line.
    pub offset: usize,
    /// When the viewed frame was current.
    pub viewed_at: u64,
}

/// Everything a painted frame depends on. Two equal keys paint the same
/// frame, so the second is never painted.
#[derive(Copy, Clone, PartialEq, Eq, Debug, Structural)]
pub struct PaintKey {
    pub content: u64,
    pub cols: u16,
    pub rows: u16,
    pub theme: u8,
    pub offset: usize,
    pub paused: bool,
    pub view: ViewState,
    /// Whole seconds the displayed status row counts; 0 when it shows a
    /// stamp.
    pub age_secs: u64,
}

/// What to paint: the surface, the window's first line, the view, and
/// whether a one-shot notice row follows.
#[derive(Copy, Clone, PartialEq, Eq, Debug, Structural)]
pub struct PaintPlan {
    pub mode: FrameMode,
    pub offset: usize,
    pub view: ViewState,
    pub notice: bool,
}

/// How the loop ends.
#[derive(Copy, Clone, PartialEq, Eq, Debug, Structural)]
pub enum ExitKind {
    /// Quit, or once mode done, or asked to terminate.
    Done,
    /// Ctrl-C or an interrupt signal.
    Aborted,
    /// Once mode: the child could not be started.
    Failed,
}

/// What the loop is told.
#[derive(Copy, Clone, PartialEq, Eq, Debug, Structural)]
pub enum WatchEvent {
    /// An interrupt signal arrived.
    Interrupted,
    /// A terminate signal arrived.
    Terminated,
    /// The turn's spawn check.
    Poll { now: u64 },
    /// A child finished and its frame was composed: the frame's content
    /// key, when the child completed, and whether it could not be started.
    Drained { now: u64, content: u64, at: u64, failed: bool },
    /// The trigger check: whether any trigger fired since the last one.
    Triggers { now: u64, fired: bool },
    /// The turn's sleep.
    Nap { now: u64 },
    /// A key.
    Key { now: u64, key: Key },
    /// The loop's scroll model answered a scroll: the window's new first
    /// line, `None` once a live window is back at its top.
    Scrolled { now: u64, offset: Option<usize> },
    /// The loop's history answered a scrub with a neighboring frame.
    Scrubbed { now: u64, content: u64, offset: usize, viewed_at: u64 },
    /// The terminal was measured.
    Resized { cols: u16, rows: u16 },
    /// The terminal's appearance was measured.
    Appearance { now: u64, theme: u8 },
}

/// What the loop should do, in order.
#[derive(Copy, Clone, PartialEq, Eq, Debug, Structural)]
pub enum WatchOutput {
    /// Start the child now (its environment measured now).
    Spawn,
    /// Paint the terminal frame.
    Paint(PaintPlan),
    /// Print the frame to the pipe, stderr kept apart.
    Print,
    /// Sleep (or wait for input) at most this long.
    Nap(u64),
    /// Move the window by a step, then report `Scrolled`.
    Scroll(ScrollStep),
    /// Park on the neighboring distinct frame, then report `Scrubbed`.
    Scrub { back: bool },
    /// Page the frame (or the key reference).
    Page { help: bool },
    /// Write the snapshot file.
    Snapshot,
    /// Stop.
    Exit(ExitKind),
}

/// Everything the machine holds besides the schedule.
#[derive(Copy, Clone, PartialEq, Eq, Debug, Structural)]
pub struct WatchCore {
    pub gate: DebounceGate,
    /// Run one tick and stop.
    pub once: bool,
    /// The loop reads keys.
    pub interactive: bool,
    /// The output is a terminal.
    pub is_tty: bool,
    /// Some trigger is configured.
    pub triggered: bool,
    /// Columns one shift key moves the view.
    pub shift_step: usize,
    /// The newest frame's content key (0 before any).
    pub hash: u64,
    pub frame: Option<LiveFrame>,
    pub pause: Option<PauseView>,
    /// A live window scrolled off the tail.
    pub live_offset: Option<usize>,
    pub view: ViewState,
    pub previous: Option<PaintKey>,
    pub theme: u8,
    pub cols: u16,
    pub rows: u16,
}

/// The state as plain values.
pub struct WatchView {
    pub sched: SchedState,
    pub status: WatchCore,
}

/// The watch loop's state.
pub struct WatchState {
    schedule: TickSchedule,
    status: WatchCore,
}

impl View for WatchState {
    type V = WatchView;

    closed spec fn view(&self) -> WatchView {
        WatchView { sched: self.schedule@, status: self.status }
    }
}

/// The machine at the start: nothing composed, nothing frozen, the child
/// due at once.
pub open spec fn initial(
    interval: Option<u64>,
    debounce: u64,
    once: bool,
    interactive: bool,
    is_tty: bool,
    triggered: bool,
    shift_step: usize,
    view: ViewState,
    theme: u8,
    cols: u16,
    rows: u16,
) -> WatchView {
    WatchView {
        sched: fresh(interval),
        status: WatchCore {
            gate: DebounceGate { window: debounce, deadline: None },
            once,
            interactive,
            is_tty,
            triggered,
            shift_step,
            hash: 0,
            frame: None,
            pause: None,
            live_offset: None,
            view,
            previous: None,
            theme,
            cols,
            rows,
        },
    }
}

/// The surface being shown: the freeze wins.
pub open spec fn mode_of(c: WatchCore) -> FrameMode {
    if c.pause is Some {
        FrameMode::Paused
    } else if c.live_offset is Some {
        FrameMode::LiveScrolled
    } else {
        FrameMode::Live
    }
}

/// Whole seconds from `t` to `now`, zero if `t` is later.
pub open spec fn age_secs(now: u64, t: u64) -> u64 {
    if now >= t {
        ((now - t) / 1000) as u64
    } else {
        0
    }
}

/// The seconds the displayed status row counts: only with counting ages
/// on, on the paused row or the plain live row; the live-scrolled row
/// carries no time.
pub open spec fn displayed_age(c: WatchCore, now: u64) -> u64 {
    if !c.view.alt_time {
        0
    } else {
        match c.pause {
            Some(p) => age_secs(now, p.viewed_at),
            None => match (c.live_offset, c.frame) {
                (None, Some(f)) => age_secs(now, f.changed_at),
                _ => 0,
            },
        }
    }
}

/// The paint key of what would be shown now: while frozen, the frozen
/// content and appearance and the window's place; live, the newest.
pub open spec fn key_of(c: WatchCore, now: u64) -> PaintKey {
    let live_content = match c.frame {
        Some(f) => f.content,
        None => 0,
    };
    match c.pause {
        Some(p) => PaintKey {
            content: p.content,
            cols: c.cols,
            rows: c.rows,
            theme: p.theme,
            offset: p.offset,
            paused: true,
            view: c.view,
            age_secs: displayed_age(c, now),
        },
        None => PaintKey {
            content: live_content,
            cols: c.cols,
            rows: c.rows,
            theme: c.theme,
            offset: match c.live_offset {
                Some(o) => o,
                None => 0,
            },
            paused: false,
            view: c.view,
            age_secs: displayed_age(c, now),
        },
    }
}

/// The plan that paints what would be shown.
pub open spec fn plan_of(c: WatchCore, notice: bool) -> PaintPlan {
    PaintPlan {
        mode: mode_of(c),
        offset: match c.pause {
            Some(p) => p.offset,
            None => match c.live_offset {
                Some(o) => o,
                None => 0,
            },
        },
        view: c.view,
        notice,
    }
}

/// Paint now, remembering the key painted.
pub open spec fn painted(c: WatchCore, now: u64, notice: bool) -> (WatchCore, Seq<WatchOutput>) {
    (WatchCore { previous: Some(key_of(c, now)), ..c }, seq![WatchOutput::Paint(plan_of(c, notice))])
}

/// Whether an event can be taken: the clock has room for the deadlines
/// it would set.
pub open spec fn step_ok(s: WatchView, e: WatchEvent) -> bool {
    match e {
        WatchEvent::Drained { now, .. } => completes_in_range(s.sched, now),
        WatchEvent::Triggers { now, fired } => fired && s.status.gate.deadline is None ==> now + s.status.gate.window
            <= u64::MAX,
        _ => true,
    }
}

/// A drained frame: composed once, painted (or printed) only when what
/// would be shown changed, the schedule's delay counted from now, and
/// once mode done after its first frame. A child that could not start
/// ends once mode before anything is painted.
pub open spec fn on_drained(s: WatchView, now: u64, content: u64, at: u64, failed: bool) -> (WatchView, Seq<WatchOutput>) {
    let c = s.status;
    if failed && c.once {
        (s, seq![WatchOutput::Exit(ExitKind::Failed)])
    } else {
        let changed_at = if content != c.hash {
            at
        } else {
            match c.frame {
                Some(f) => f.changed_at,
                None => at,
            }
        };
        let c1 = WatchCore { hash: content, frame: Some(LiveFrame { content, changed_at }), ..c };
        let key = key_of(c1, now);
        let (c2, out) = if c1.previous == Some(key) {
            (c1, Seq::<WatchOutput>::empty())
        } else if c1.is_tty {
            painted(c1, now, false)
        } else {
            (WatchCore { previous: Some(key), ..c1 }, seq![WatchOutput::Print])
        };
        let sched = after_completion(s.sched, now);
        if c.once {
            (WatchView { sched, status: c2 }, out.push(WatchOutput::Exit(ExitKind::Done)))
        } else {
            (WatchView { sched, status: c2 }, out)
        }
    }
}

/// The trigger check: a fire opens (or joins) the debounce window; a
/// window that closes asks for a fresh child, one an in-flight child
/// cannot satisfy.
pub open spec fn on_triggers(s: WatchView, now: u64, fired: bool) -> WatchView {
    if !s.status.triggered {
        s
    } else {
        let g1 = if fired {
            gate_fired(s.status.gate, now)
        } else {
            s.status.gate
        };
        let (g2, due) = gate_due(g1, now);
        WatchView {
            sched: if due {
                after_respawn_request(s.sched)
            } else {
                s.sched
            },
            status: WatchCore { gate: g2, ..s.status },
        }
    }
}

/// The last painted status row counted a different second than it would
/// now.
pub open spec fn age_moved(c: WatchCore, now: u64) -> bool {
    match c.previous {
        Some(k) => k.age_secs != displayed_age(c, now),
        None => false,
    }
}

/// The turn's sleep: never past the schedule's deadline, never past one
/// slice. While the status row counts, it is repainted first when its
/// second moved.
pub open spec fn on_nap(s: WatchView, now: u64) -> (WatchView, Seq<WatchOutput>) {
    let nap = WatchOutput::Nap(nap_of(s.sched, now, SLICE_MS));
    let c = s.status;
    if c.interactive && c.frame is Some && age_moved(c, now) {
        let (c2, out) = painted(c, now, false);
        (WatchView { status: c2, ..s }, out.push(nap))
    } else {
        (s, seq![nap])
    }
}

/// The view toggles.
pub open spec fn toggled(v: ViewState, a: WatchAction, step: usize) -> ViewState {
    match a {
        WatchAction::ToggleWrap => ViewState { wrap: !v.wrap, ..v },
        WatchAction::ToggleGutter => ViewState { gutter: !v.gutter, ..v },
        WatchAction::ToggleHighlight => ViewState { highlight: !v.highlight, ..v },
        WatchAction::ToggleTime => ViewState { alt_time: !v.alt_time, ..v },
        WatchAction::ShiftLeft => ViewState {
            hshift: if v.hshift >= step {
                (v.hshift - step) as usize
            } else {
                0
            },
            ..v
        },
        _ => ViewState {
            hshift: if v.hshift + step <= usize::MAX {
                (v.hshift + step) as usize
            } else {
                usize::MAX
            },
            ..v
        },
    }
}

/// Whether an action is a view toggle.
pub open spec fn is_toggle(a: WatchAction) -> bool {
    a == WatchAction::ToggleWrap || a == WatchAction::ShiftLeft || a == WatchAction::ShiftRight
        || a == WatchAction::ToggleGutter || a == WatchAction::ToggleHighlight || a == WatchAction::ToggleTime
}

/// A key: quitting needs no frame; everything else waits for the first.
pub open spec fn on_key(s: WatchView, now: u64, key: Key) -> (WatchView, Seq<WatchOutput>) {
    let c = s.status;
    let a = binding(key, mode_of(c));
    if a == WatchAction::Abort {
        (s, seq![WatchOutput::Exit(ExitKind::Aborted)])
    } else if a == WatchAction::Quit {
        (s, seq![WatchOutput::Exit(ExitKind::Done)])
    } else if c.frame is None || a == WatchAction::Ignore {
        (s, Seq::empty())
    } else if a == WatchAction::Page || a == WatchAction::Help {
        let (c2, out) = painted(c, now, false);
        (WatchView { status: c2, ..s }, seq![WatchOutput::Page { help: a == WatchAction::Help }] + out)
    } else if a == WatchAction::Snapshot {
        let (c2, out) = painted(c, now, true);
        (WatchView { status: c2, ..s }, seq![WatchOutput::Snapshot] + out)
    } else if a == WatchAction::ScrubBack || a == WatchAction::ScrubForward {
        (s, seq![WatchOutput::Scrub { back: a == WatchAction::ScrubBack }])
    } else if a == WatchAction::Resume {
        let sched = if c.pause is Some {
            after_request(s.sched)
        } else {
            s.sched
        };
        let (c2, out) = painted(WatchCore { pause: None, live_offset: None, ..c }, now, false);
        (WatchView { sched, status: c2 }, out)
    } else if a == WatchAction::Freeze {
        let f = c.frame.unwrap();
        let p = match c.pause {
            Some(p) => p,
            None => PauseView {
                content: f.content,
                theme: c.theme,
                offset: match c.live_offset {
                    Some(o) => o,
                    None => 0,
                },
                viewed_at: now,
            },
        };
        let (c2, out) = painted(WatchCore { pause: Some(p), live_offset: None, ..c }, now, false);
        (WatchView { status: c2, ..s }, out)
    } else if is_toggle(a) {
        let (c2, out) = painted(WatchCore { view: toggled(c.view, a, c.shift_step), ..c }, now, false);
        (WatchView { status: c2, ..s }, out)
    } else {
        match a {
            WatchAction::Scroll(step) => (s, seq![WatchOutput::Scroll(step)]),
            _ => (s, Seq::empty()),
        }
    }
}

/// The scroll model's answer: a frozen window moves; a live window moves
/// or, back at its top, returns to the live view; a live view that the
/// step left at the top stays live and paints nothing.
pub open spec fn on_scrolled(s: WatchView, now: u64, offset: Option<usize>) -> (WatchView, Seq<WatchOutput>) {
    let c = s.status;
    match c.pause {
        Some(p) => {
            let o = match offset {
                Some(o) => o,
                None => 0,
            };
            let (c2, out) = painted(WatchCore { pause: Some(PauseView { offset: o, ..p }), ..c }, now, false);
            (WatchView { status: c2, ..s }, out)
        },
        None => if c.frame is None || (c.live_offset is None && offset is None) {
            (s, Seq::empty())
        } else {
            let (c2, out) = painted(WatchCore { live_offset: offset, ..c }, now, false);
            (WatchView { status: c2, ..s }, out)
        },
    }
}

/// A scrub parks on the frame the history answered, keeping the freeze's
/// appearance (or taking the current one).
pub open spec fn on_scrubbed(s: WatchView, now: u64, content: u64, offset: usize, viewed_at: u64) -> (WatchView, Seq<WatchOutput>) {
    let c = s.status;
    let theme = match c.pause {
        Some(p) => p.theme,
        None => c.theme,
    };
    let p = PauseView { content, theme, offset, viewed_at };
    let (c2, out) = painted(WatchCore { pause: Some(p), live_offset: None, ..c }, now, false);
    (WatchView { status: c2, ..s }, out)
}

/// A measured appearance: a new verdict asks for a fresh child (the one
/// running was started under the old one) and repaints the chrome at once.
pub open spec fn on_appearance(s: WatchView, now: u64, theme: u8) -> (WatchView, Seq<WatchOutput>) {
    let c = s.status;
    if theme == c.theme {
        (s, Seq::empty())
    } else {
        let c1 = WatchCore { theme, ..c };
        let sched = after_respawn_request(s.sched);
        if c1.frame is Some {
            let (c2, out) = painted(c1, now, false);
            (WatchView { sched, status: c2 }, out)
        } else {
            (WatchView { sched, status: c1 }, Seq::empty())
        }
    }
}

/// One event taken: the state after it and what the loop does, in order.
pub open spec fn stepped(s: WatchView, e: WatchEvent) -> (WatchView, Seq<WatchOutput>) {
    match e {
        WatchEvent::Interrupted => (s, seq![WatchOutput::Exit(ExitKind::Aborted)]),
        WatchEvent::Terminated => (s, seq![WatchOutput::Exit(ExitKind::Done)]),
        WatchEvent::Poll { now } => {
            let (sched, due) = polled(s.sched, now);
            (WatchView { sched, ..s }, if due == Due::Spawn {
                seq![WatchOutput::Spawn]
            } else {
                Seq::empty()
            })
        },
        WatchEvent::Drained { now, content, at, failed } => on_drained(s, now, content, at, failed),
        WatchEvent::Triggers { now, fired } => (on_triggers(s, now, fired), Seq::empty()),
        WatchEvent::Nap { now } => on_nap(s, now),
        WatchEvent::Key { now, key } => on_key(s, now, key),
        WatchEvent::Scrolled { now, offset } => on_scrolled(s, now, offset),
        WatchEvent::Scrubbed { now, content, offset, viewed_at } => on_scrubbed(s, now, content, offset, viewed_at),
        WatchEvent::Resized { cols, rows } => (WatchView { status: WatchCore { cols, rows, ..s.status }, ..s }, Seq::empty()),
        WatchEvent::Appearance { now, theme } => on_appearance(s, now, theme),
    }
}

fn mode_now(c: &WatchCore) -> (r: FrameMode)
    ensures
        r == mode_of(*c),
{
    if c.pause.is_some() {
        FrameMode::Paused
    } else if c.live_offset.is_some() {
        FrameMode::LiveScrolled
    } else {
        FrameMode::Live
    }
}

fn age_between(now: u64, t: u64) -> (r: u64)
    ensures
        r == age_secs(now, t),
{
    if now >= t {
        (now - t) / 1000
    } else {
        0
    }
}

fn age_shown(c: &WatchCore, now: u64) -> (r: u64)
    ensures
        r == displayed_age(*c, now),
{
    if !c.view.alt_time {
        return 0;
    }
    match c.pause {
        Some(p) => age_between(now, p.viewed_at),
        None => match (c.live_offset, c.frame) {
            (None, Some(f)) => age_between(now, f.changed_at),
            _ => 0,
        },
    }
}

fn key_now(c: &WatchCore, now: u64) -> (r: PaintKey)
    ensures
        r == key_of(*c, now),
{
    let age = age_shown(c, now);
    match c.pause {
        Some(p) => PaintKey {
            content: p.content,
            cols: c.cols,
            rows: c.rows,
            theme: p.theme,
            offset: p.offset,
            paused: true,
            view: c.view,
            age_secs: age,
        },
        None => PaintKey {
            content: match c.frame {
                Some(f) => f.content,
                None => 0,
            },
            cols: c.cols,
            rows: c.rows,
            theme: c.theme,
            offset: match c.live_offset {
                Some(o) => o,
                None => 0,
            },
            paused: false,
            view: c.view,
            age_secs: age,
        },
    }
}

fn plan_now(c: &WatchCore, notice: bool) -> (r: PaintPlan)
    ensures
        r == plan_of(*c, notice),
{
    PaintPlan {
        mode: mode_now(c),
        offset: match c.pause {
            Some(p) => p.offset,
            None => match c.live_offset {
                Some(o) => o,
                None => 0,
            },
        },
        view: c.view,
        notice,
    }
}

/// Paint what would be shown, remembering its key.
fn paint(c: &mut WatchCore, now: u64, notice: bool, out: &mut Vec<WatchOutput>)
    ensures
        *final(c) == painted(*old(c), now, notice).0,
        final(out)@ == old(out)@ + painted(*old(c), now, notice).1,
{
    let key = key_now(c, now);
    let plan = plan_now(c, notice);
    c.previous = Some(key);
    out.push(WatchOutput::Paint(plan));
    proof {
        assert(final(out)@ =~= old(out)@ + painted(*old(c), now, notice).1);
    }
}

fn toggle(v: ViewState, a: WatchAction, step: usize) -> (r: ViewState)
    ensures
        r == toggled(v, a, step),
{
    match a {
        WatchAction::ToggleWrap => ViewState { wrap: !v.wrap, ..v },
        WatchAction::ToggleGutter => ViewState { gutter: !v.gutter, ..v },
        WatchAction::ToggleHighlight => ViewState { highlight: !v.highlight, ..v },
        WatchAction::ToggleTime => ViewState { alt_time: !v.alt_time, ..v },
        WatchAction::ShiftLeft => ViewState { hshift: v.hshift.saturating_sub(step), ..v },
        _ => ViewState { hshift: v.hshift.saturating_add(step), ..v },
    }
}

impl WatchState {
    /// The machine at the start of a run.
    pub fn new(
        interval: Option<u64>,
        debounce: u64,
        once: bool,
        interactive: bool,
        is_tty: bool,
        triggered: bool,
        shift_step: usize,
        view: ViewState,
        theme: u8,
        cols: u16,
        rows: u16,
    ) -> (r: WatchState)
        ensures
            r@ == initial(interval, debounce, once, interactive, is_tty, triggered, shift_step, view, theme, cols, rows),
    {
        WatchState {
            schedule: TickSchedule::new(interval),
            status: WatchCore {
                gate: DebounceGate::new(debounce),
                once,
                interactive,
                is_tty,
                triggered,
                shift_step,
                hash: 0,
                frame: None,
                pause: None,
                live_offset: None,
                view,
                previous: None,
                theme,
                cols,
                rows,
            },
        }
    }

    /// Everything but the schedule, as it stands.
    pub fn status(&self) -> (r: WatchCore)
        ensures
            r == self@.status,
    {
        self.status
    }

    /// Whether the event can be taken now: the deadlines it sets fit the
    /// clock.
    pub fn accepts(&self, e: WatchEvent) -> (r: bool)
        ensures
            r == step_ok(self@, e),
    {
        match e {
            WatchEvent::Drained { now, .. } => match self.schedule.interval() {
                Some(i) => now <= u64::MAX - i,
                None => true,
            },
            WatchEvent::Triggers { now, fired } => {
                !(fired && self.status.gate.deadline.is_none()) || now <= u64::MAX - self.status.gate.window
            },
            _ => true,
        }
    }

    /// Take one event: the state moves on and the answer lists what the
    /// loop does, in order.
    pub fn step(&mut self, e: WatchEvent) -> (r: Vec<WatchOutput>)
        requires
            step_ok(old(self)@, e),
        ensures
            (final(self)@, r@) == stepped(old(self)@, e),
    {
        let mut out: Vec<WatchOutput> = Vec::new();
        match e {
            WatchEvent::Interrupted => {
                out.push(WatchOutput::Exit(ExitKind::Aborted));
                proof {
                    assert(out@ =~= seq![WatchOutput::Exit(ExitKind::Aborted)]);
                }
            },
            WatchEvent::Terminated => {
                out.push(WatchOutput::Exit(ExitKind::Done));
                proof {
                    assert(out@ =~= seq![WatchOutput::Exit(ExitKind::Done)]);
                }
            },
            WatchEvent::Poll { now } => {
                if self.schedule.poll(now) == Due::Spawn {
                    out.push(WatchOutput::Spawn);
                }
                proof {
                    assert(out@ =~= stepped(old(self)@, e).1);
                }
            },
            WatchEvent::Drained { now, content, at, failed } => {
                self.drained(now, content, at, failed, &mut out);
            },
            WatchEvent::Triggers { now, fired } => {
                self.triggers(now, fired);
            },
            WatchEvent::Nap { now } => {
                self.nap(now, &mut out);
            },
            WatchEvent::Key { now, key } => {
                self.key(now, key, &mut out);
            },
            WatchEvent::Scrolled { now, offset } => {
                self.scrolled(now, offset, &mut out);
            },
            WatchEvent::Scrubbed { now, content, offset, viewed_at } => {
                let theme = match self.status.pause {
                    Some(p) => p.theme,
                    None => self.status.theme,
                };
                self.status.pause = Some(PauseView { content, theme, offset, viewed_at });
                self.status.live_offset = None;
                paint(&mut self.status, now, false, &mut out);
                proof {
                    assert(out@ =~= stepped(old(self)@, e).1);
                }
            },
            WatchEvent::Resized { cols, rows } => {
                self.status.cols = cols;
                self.status.rows = rows;
            },
            WatchEvent::Appearance { now, theme } => {
                self.appearance(now, theme, &mut out);
            },
        }
        out
    }

    fn drained(&mut self, now: u64, content: u64, at: u64, failed: bool, out: &mut Vec<WatchOutput>)
        requires
            old(out)@.len() == 0,
            completes_in_range(old(self)@.sched, now),
        ensures
            (final(self)@, final(out)@) == on_drained(old(self)@, now, content, at, failed),
    {
        if failed && self.status.once {
            out.push(WatchOutput::Exit(ExitKind::Failed));
            proof {
                assert(out@ =~= seq![WatchOutput::Exit(ExitKind::Failed)]);
            }
            return;
        }
        let changed_at = if content != self.status.hash {
            at
        } else {
            match self.status.frame {
                Some(f) => f.changed_at,
                None => at,
            }
        };
        self.status.hash = content;
        self.status.frame = Some(LiveFrame { content, changed_at });
        let key = key_now(&self.status, now);
        if self.status.previous == Some(key) {
        } else if self.status.is_tty {
            paint(&mut self.status, now, false, out);
        } else {
            self.status.previous = Some(key);
            out.push(WatchOutput::Print);
        }
        self.schedule.completed(now);
        if self.status.once {
            out.push(WatchOutput::Exit(ExitKind::Done));
        }
        proof {
            let o = on_drained(old(self)@, now, content, at, failed).1;
            assert(out@ =~= o);
        }
    }

    fn triggers(&mut self, now: u64, fired: bool)
        requires
            fired && old(self)@.status.gate.deadline is None ==> now + old(self)@.status.gate.window <= u64::MAX,
        ensures
            final(self)@ == on_triggers(old(self)@, now, fired),
    {
        if self.status.triggered {
            if fired {
                self.status.gate.fire(now);
            }
            if self.status.gate.due(now) {
                self.schedule.request_respawn();
            }
        }
    }

    fn nap(&mut self, now: u64, out: &mut Vec<WatchOutput>)
        requires
            old(out)@.len() == 0,
        ensures
            (final(self)@, final(out)@) == on_nap(old(self)@, now),
    {
        let nap = self.schedule.nap(now, SLICE_MS);
        let refresh = match self.status.previous {
            Some(k) => self.status.interactive && self.status.frame.is_some() && k.age_secs != age_shown(&self.status, now),
            None => false,
        };
        if refresh {
            paint(&mut self.status, now, false, out);
        }
        out.push(WatchOutput::Nap(nap));
        proof {
            assert(out@ =~= on_nap(old(self)@, now).1);
        }
    }

    fn scrolled(&mut self, now: u64, offset: Option<usize>, out: &mut Vec<WatchOutput>)
        requires
            old(out)@.len() == 0,
        ensures
            (final(self)@, final(out)@) == on_scrolled(old(self)@, now, offset),
    {
        match self.status.pause {
            Some(p) => {
                let o = match offset {
                    Some(o) => o,
                    None => 0,
                };
                self.status.pause = Some(PauseView { offset: o, ..p });
                paint(&mut self.status, now, false, out);
            },
            None => {
                if self.status.frame.is_none() || (self.status.live_offset.is_none() && offset.is_none()) {
                } else {
                    self.status.live_offset = offset;
                    paint(&mut self.status, now, false, out);
                }
            },
        }
        proof {
            assert(out@ =~= on_scrolled(old(self)@, now, offset).1);
        }
    }

    fn appearance(&mut self, now: u64, theme: u8, out: &mut Vec<WatchOutput>)
        requires
            old(out)@.len() == 0,
        ensures
            (final(self)@, final(out)@) == on_appearance(old(self)@, now, theme),
    {
        if theme != self.status.theme {
            self.status.theme = theme;
            self.schedule.request_respawn();
            if self.status.frame.is_some() {
                paint(&mut self.status, now, false, out);
            }
        }
        proof {
            assert(out@ =~= on_appearance(old(self)@, now, theme).1);
        }
    }

    fn key(&mut self, now: u64, key: Key, out: &mut Vec<WatchOutput>)
        requires
            old(out)@.len() == 0,
        ensures
            (final(self)@, final(out)@) == on_key(old(self)@, now, key),
    {
        let a = action_for(key, mode_now(&self.status));
        match a {
            WatchAction::Abort => {
                out.push(WatchOutput::Exit(ExitKind::Aborted));
                proof {
                    assert(out@ =~= seq![WatchOutput::Exit(ExitKind::Aborted)]);
                }
                return;
            },
            WatchAction::Quit => {
                out.push(WatchOutput::Exit(ExitKind::Done));
                proof {
                    assert(out@ =~= seq![WatchOutput::Exit(ExitKind::Done)]);
                }
                return;
            },
            _ => {},
        }
        if self.status.frame.is_none() {
            return;
        }
        match a {
            WatchAction::Ignore => {},
            WatchAction::Page | WatchAction::Help => {
                out.push(WatchOutput::Page { help: a == WatchAction::Help });
                paint(&mut self.status, now, false, out);
            },
            WatchAction::Snapshot => {
                out.push(WatchOutput::Snapshot);
                paint(&mut self.status, now, true, out);
            },
            WatchAction::ScrubBack => {
                out.push(WatchOutput::Scrub { back: true });
            },
            WatchAction::ScrubForward => {
                out.push(WatchOutput::Scrub { back: false });
            },
            WatchAction::Resume => {
                if self.status.pause.is_some() {
                    self.schedule.request_now();
                }
                self.status.pause = None;
                self.status.live_offset = None;
                paint(&mut self.status, now, false, out);
            },
            WatchAction::Freeze => {
                let p = match self.status.pause {
                    Some(p) => p,
                    None => {
                        let f = self.status.frame.unwrap();
                        PauseView {
                            content: f.content,
                            theme: self.status.theme,
                            offset: match self.status.live_offset {
                                Some(o) => o,
                                None => 0,
                            },
                            viewed_at: now,
                        }
                    },
                };
                self.status.pause = Some(p);
                self.status.live_offset = None;
                paint(&mut self.status, now, false, out);
            },
            WatchAction::Scroll(step) => {
                out.push(WatchOutput::Scroll(step));
            },
            _ => {
                self.status.view = toggle(self.status.view, a, self.status.shift_step);
                paint(&mut self.status, now, false, out);
            },
        }
        proof {
            let (v, o) = on_key(old(self)@, now, key);
            assert(out@ =~= o);
        }
    }
}

/// No output paints or prints a frame.
pub open spec fn draws_nothing(out: Seq<WatchOutput>) -> bool {
    forall|i: int| 0 <= i < out.len() ==> !(out[i] is Paint) && out[i] != WatchOutput::Print
}

/// A frame is redrawn only when what it shows changed: draining the same
/// content again at the same instant, size, view and appearance paints
/// and prints nothing.
pub proof fn lemma_redraw_only_on_change(s: WatchView, now: u64, content: u64, at1: u64, at2: u64)
    requires
        !s.status.once,
        completes_in_range(s.sched, now),
    ensures
        ({
            let (s1, o1) = stepped(s, WatchEvent::Drained { now, content, at: at1, failed: false });
            let (s2, o2) = stepped(s1, WatchEvent::Drained { now, content, at: at2, failed: false });
            o2.len() == 0 && s2.status == s1.status
        }),
{
    let (s1, o1) = stepped(s, WatchEvent::Drained { now, content, at: at1, failed: false });
    assert(completes_in_range(s1.sched, now));
}

/// While frozen, new child output never repaints: the paint key holds the
/// frozen content, so a drain at the instant last painted draws nothing.
pub proof fn lemma_frozen_frame_holds(s: WatchView, now: u64, content: u64, at: u64)
    requires
        !s.status.once,
        s.status.pause is Some,
        s.status.previous == Some(key_of(s.status, now)),
        completes_in_range(s.sched, now),
    ensures
        draws_nothing(stepped(s, WatchEvent::Drained { now, content, at, failed: false }).1),
{
}

/// `q` quits and Ctrl-C aborts in every state, frame or none, frozen or
/// not, and nothing else happens first.
pub proof fn lemma_quit_keys_always_exit(s: WatchView, now: u64)
    ensures
        stepped(s, WatchEvent::Key { now, key: Key::Char('q') }).1 == seq![WatchOutput::Exit(ExitKind::Done)],
        stepped(s, WatchEvent::Key { now, key: Key::CtrlC }).1 == seq![WatchOutput::Exit(ExitKind::Aborted)],
{
}

/// Once mode ends with its first frame: a drained tick that started is
/// shown (or printed) as the first frame of the run and the loop exits.
pub proof fn lemma_once_exits_after_its_frame(s: WatchView, now: u64, content: u64, at: u64)
    requires
        s.status.once,
        s.status.previous is None,
        completes_in_range(s.sched, now),
    ensures
        ({
            let o = stepped(s, WatchEvent::Drained { now, content, at, failed: false }).1;
            &&& o.len() == 2
            &&& (if s.status.is_tty { o[0] is Paint } else { o[0] == WatchOutput::Print })
            &&& o[1] == WatchOutput::Exit(ExitKind::Done)
        }),
{
}

/// At most one child runs: after a poll starts one, no later poll starts
/// another until its frame is drained (keys, triggers and naps between
/// them included).
pub proof fn lemma_one_child_until_drained(s: WatchView, now: u64, later: u64)
    requires
        stepped(s, WatchEvent::Poll { now }).1 == seq![WatchOutput::Spawn],
    ensures
        stepped(stepped(s, WatchEvent::Poll { now }).0, WatchEvent::Poll { now: later }).1.len() == 0,
        stepped(s, WatchEvent::Poll { now }).0.sched.in_flight,
{
    let (sched, due) = polled(s.sched, now);
    if due != Due::Spawn {
        assert(stepped(s, WatchEvent::Poll { now }).1.len() == 0);
    }
}

/// Keys, triggers, naps, scrolls, scrubs, resizes and appearance reports
/// never clear a child in flight: only a drained frame does.
pub proof fn lemma_only_a_drain_ends_a_child(s: WatchView, e: WatchEvent)
    requires
        s.sched.in_flight,
        !(e is Drained),
    ensures
        stepped(s, e).0.sched.in_flight,
{
}

} // verus!
