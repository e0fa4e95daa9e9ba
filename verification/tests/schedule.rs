use ratto::schedule::{Due, TickSchedule};

const IVL: u64 = 2_000;
const CAP: u64 = 50;

fn base() -> u64 {
    1_000_000
}

#[test]
fn a_fresh_schedule_spawns_at_once() {
    let mut s = TickSchedule::new(Some(IVL));
    assert_eq!(s.poll(base()), Due::Spawn);
}

#[test]
fn only_one_child_runs_at_a_time() {
    let t = base();
    let mut s = TickSchedule::new(Some(IVL));
    assert_eq!(s.poll(t), Due::Spawn);
    assert_eq!(s.poll(t + IVL * 10), Due::Running);
}

#[test]
fn a_finished_tick_waits_one_interval() {
    let t = base();
    let mut s = TickSchedule::new(Some(IVL));
    s.poll(t);
    s.completed(t + 30_000);
    assert_eq!(s.poll(t + 31_000), Due::Wait);
    assert_eq!(s.poll(t + 32_000), Due::Spawn);
}

#[test]
fn the_nap_never_outruns_the_deadline_or_the_cap() {
    let t = base();
    let mut s = TickSchedule::new(Some(IVL));
    s.poll(t);
    assert_eq!(s.nap(t, CAP), CAP);
    s.completed(t);
    assert_eq!(s.nap(t, CAP), CAP);
    assert_eq!(s.nap(t + IVL - 10, CAP), 10);
    assert_eq!(s.nap(t + IVL, CAP), 0);
}

#[test]
fn an_immediate_request_collapses_the_deadline() {
    let t = base();
    let mut s = TickSchedule::new(Some(IVL));
    s.poll(t);
    s.completed(t);
    assert_eq!(s.poll(t), Due::Wait);
    s.request_now();
    assert_eq!(s.poll(t), Due::Spawn);
}

#[test]
fn a_request_while_a_child_runs_is_satisfied_by_its_completion() {
    let t = base();
    let mut s = TickSchedule::new(Some(IVL));
    s.poll(t);
    s.request_now();
    s.completed(t);
    assert_eq!(s.poll(t + 1), Due::Wait);
    assert_eq!(s.poll(t + IVL), Due::Spawn);
}

#[test]
fn a_respawn_request_outlives_the_child_it_interrupted() {
    let t = base();
    let mut s = TickSchedule::new(Some(IVL));
    s.poll(t);
    s.request_respawn();
    s.completed(t);
    assert_eq!(s.poll(t), Due::Spawn);
}

#[test]
fn a_respawn_request_is_spent_once() {
    let t = base();
    let mut s = TickSchedule::new(Some(IVL));
    s.poll(t);
    s.request_respawn();
    s.completed(t);
    assert_eq!(s.poll(t), Due::Spawn);
    s.completed(t);
    assert_eq!(s.poll(t), Due::Wait);
    assert_eq!(s.poll(t + IVL), Due::Spawn);
}

#[test]
fn a_respawn_request_with_nothing_running_spawns_at_once() {
    let t = base();
    let mut s = TickSchedule::new(Some(IVL));
    s.poll(t);
    s.completed(t);
    s.request_respawn();
    assert_eq!(s.poll(t), Due::Spawn);
    s.completed(t);
    assert_eq!(s.poll(t), Due::Wait);
}

#[test]
fn a_trigger_only_schedule_spawns_once_then_waits_forever() {
    let t = base();
    let mut s = TickSchedule::new(None);
    assert_eq!(s.poll(t), Due::Spawn);
    s.completed(t);
    assert_eq!(s.poll(t + 3_600_000), Due::Wait);
}

#[test]
fn a_request_still_collapses_a_never_deadline() {
    let t = base();
    let mut s = TickSchedule::new(None);
    s.poll(t);
    s.completed(t);
    s.request_now();
    assert_eq!(s.poll(t), Due::Spawn);
}

#[test]
fn a_respawn_request_survives_completion_without_an_interval() {
    let t = base();
    let mut s = TickSchedule::new(None);
    s.poll(t);
    s.request_respawn();
    s.completed(t);
    assert_eq!(s.poll(t), Due::Spawn);
    s.completed(t);
    assert_eq!(s.poll(t), Due::Wait);
}

#[test]
fn the_nap_is_the_cap_when_no_deadline_exists() {
    let t = base();
    let mut s = TickSchedule::new(None);
    s.poll(t);
    s.completed(t);
    assert_eq!(s.nap(t, CAP), CAP);
}

#[test]
fn a_fresh_schedule_naps_not_at_all() {
    let s = TickSchedule::new(Some(IVL));
    assert_eq!(s.nap(base(), CAP), 0);
}
