use ratto::engine::{ExitKind, PaintPlan, ViewState, WatchEvent, WatchOutput, WatchState};
use ratto::watch::{FrameMode, Key, ScrollStep};

fn view() -> ViewState {
    ViewState { wrap: true, hshift: 0, gutter: false, highlight: false, alt_time: false }
}

fn live_paint(v: ViewState) -> WatchOutput {
    WatchOutput::Paint(PaintPlan { mode: FrameMode::Live, offset: 0, view: v, notice: false })
}

/// An interactive terminal watch polling every 2 s.
fn interactive() -> WatchState {
    WatchState::new(Some(2000), 120, false, true, true, false, 8, view(), 0, 80, 24)
}

#[test]
fn the_first_poll_spawns_and_a_running_child_is_not_spawned_twice() {
    let mut s = interactive();
    assert_eq!(s.step(WatchEvent::Poll { now: 0 }), vec![WatchOutput::Spawn]);
    assert_eq!(s.step(WatchEvent::Poll { now: 10 }), vec![]);
}

#[test]
fn a_frame_is_redrawn_only_when_it_changed() {
    let mut s = interactive();
    s.step(WatchEvent::Poll { now: 0 });
    assert_eq!(s.step(WatchEvent::Drained { now: 100, content: 7, at: 90, failed: false }), vec![live_paint(view())]);
    // The delay counts from the completion: Wait at 2099, Spawn at 2100.
    assert_eq!(s.step(WatchEvent::Poll { now: 2099 }), vec![]);
    assert_eq!(s.step(WatchEvent::Poll { now: 2100 }), vec![WatchOutput::Spawn]);
    // Same bytes again: nothing to paint.
    assert_eq!(s.step(WatchEvent::Drained { now: 100, content: 7, at: 2200, failed: false }), vec![]);
    // New bytes: painted.
    s.step(WatchEvent::Poll { now: 4200 });
    assert_eq!(s.step(WatchEvent::Drained { now: 4300, content: 8, at: 4250, failed: false }), vec![live_paint(view())]);
    // A resize re-keys the frame.
    s.step(WatchEvent::Resized { cols: 100, rows: 30 });
    s.step(WatchEvent::Poll { now: 6300 });
    assert_eq!(s.step(WatchEvent::Drained { now: 6400, content: 8, at: 6350, failed: false }), vec![live_paint(view())]);
}

#[test]
fn quit_and_ctrl_c_end_the_loop_even_before_a_frame() {
    let mut s = interactive();
    assert_eq!(s.step(WatchEvent::Key { now: 0, key: Key::Char('q') }), vec![WatchOutput::Exit(ExitKind::Done)]);
    assert_eq!(s.step(WatchEvent::Key { now: 0, key: Key::CtrlC }), vec![WatchOutput::Exit(ExitKind::Aborted)]);
    assert_eq!(s.step(WatchEvent::Interrupted), vec![WatchOutput::Exit(ExitKind::Aborted)]);
    assert_eq!(s.step(WatchEvent::Terminated), vec![WatchOutput::Exit(ExitKind::Done)]);
    // Other keys wait for the first frame.
    assert_eq!(s.step(WatchEvent::Key { now: 0, key: Key::Char('p') }), vec![]);
}

#[test]
fn once_mode_prints_its_frame_and_exits() {
    let mut s = WatchState::new(Some(2000), 120, true, false, false, false, 8, view(), 0, 80, 24);
    assert_eq!(s.step(WatchEvent::Poll { now: 0 }), vec![WatchOutput::Spawn]);
    assert_eq!(
        s.step(WatchEvent::Drained { now: 50, content: 3, at: 40, failed: false }),
        vec![WatchOutput::Print, WatchOutput::Exit(ExitKind::Done)]
    );
    let mut f = WatchState::new(Some(2000), 120, true, false, false, false, 8, view(), 0, 80, 24);
    f.step(WatchEvent::Poll { now: 0 });
    assert_eq!(
        f.step(WatchEvent::Drained { now: 50, content: 0, at: 40, failed: true }),
        vec![WatchOutput::Exit(ExitKind::Failed)]
    );
}

#[test]
fn a_frozen_frame_ignores_new_output_until_resumed() {
    let mut s = interactive();
    s.step(WatchEvent::Poll { now: 0 });
    s.step(WatchEvent::Drained { now: 100, content: 1, at: 90, failed: false });
    let paused = WatchOutput::Paint(PaintPlan { mode: FrameMode::Paused, offset: 0, view: view(), notice: false });
    assert_eq!(s.step(WatchEvent::Key { now: 200, key: Key::Char('p') }), vec![paused]);
    s.step(WatchEvent::Poll { now: 2100 });
    assert_eq!(s.step(WatchEvent::Drained { now: 200, content: 2, at: 2150, failed: false }), vec![]);
    // F resumes: the newest frame paints now and a fresh tick is asked for.
    assert_eq!(s.step(WatchEvent::Key { now: 2200, key: Key::Char('F') }), vec![live_paint(view())]);
    assert_eq!(s.step(WatchEvent::Poll { now: 2200 }), vec![WatchOutput::Spawn]);
}

#[test]
fn view_keys_toggle_and_repaint() {
    let mut s = interactive();
    s.step(WatchEvent::Poll { now: 0 });
    s.step(WatchEvent::Drained { now: 100, content: 1, at: 90, failed: false });
    let shifted = ViewState { hshift: 8, ..view() };
    assert_eq!(s.step(WatchEvent::Key { now: 100, key: Key::Char('l') }), vec![live_paint(shifted)]);
    assert_eq!(s.step(WatchEvent::Key { now: 100, key: Key::Char('h') }), vec![live_paint(view())]);
    assert_eq!(s.step(WatchEvent::Key { now: 100, key: Key::Char('h') }), vec![live_paint(view())]);
    assert_eq!(s.step(WatchEvent::Key { now: 100, key: Key::Char('j') }), vec![WatchOutput::Scroll(ScrollStep::LineDown)]);
    let scrolled = WatchOutput::Paint(PaintPlan { mode: FrameMode::LiveScrolled, offset: 3, view: view(), notice: false });
    assert_eq!(s.step(WatchEvent::Scrolled { now: 100, offset: Some(3) }), vec![scrolled]);
    assert_eq!(s.step(WatchEvent::Scrolled { now: 100, offset: None }), vec![live_paint(view())]);
    assert_eq!(s.step(WatchEvent::Key { now: 100, key: Key::Char('?') }), vec![WatchOutput::Page { help: true }, live_paint(view())]);
}

#[test]
fn a_trigger_asks_for_one_respawn_per_window() {
    // Trigger-only: no interval.
    let mut s = WatchState::new(None, 250, false, true, true, true, 8, view(), 0, 80, 24);
    s.step(WatchEvent::Poll { now: 0 });
    s.step(WatchEvent::Drained { now: 100, content: 1, at: 90, failed: false });
    assert_eq!(s.step(WatchEvent::Poll { now: 10_000 }), vec![]);
    s.step(WatchEvent::Triggers { now: 10_000, fired: true });
    s.step(WatchEvent::Triggers { now: 10_200, fired: true });
    assert_eq!(s.step(WatchEvent::Poll { now: 10_200 }), vec![]);
    s.step(WatchEvent::Triggers { now: 10_250, fired: false });
    assert_eq!(s.step(WatchEvent::Poll { now: 10_250 }), vec![WatchOutput::Spawn]);
    // The nap never passes one slice.
    assert_eq!(s.step(WatchEvent::Nap { now: 10_260 }), vec![WatchOutput::Nap(50)]);
}

#[test]
fn a_new_appearance_repaints_and_respawns() {
    let mut s = interactive();
    s.step(WatchEvent::Poll { now: 0 });
    s.step(WatchEvent::Drained { now: 100, content: 1, at: 90, failed: false });
    assert_eq!(s.step(WatchEvent::Appearance { now: 150, theme: 1 }), vec![live_paint(view())]);
    assert_eq!(s.step(WatchEvent::Appearance { now: 160, theme: 1 }), vec![]);
    assert_eq!(s.step(WatchEvent::Poll { now: 170 }), vec![WatchOutput::Spawn]);
}
