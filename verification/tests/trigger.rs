use ratto::registry::SourceId;
use ratto::trigger::{
    credit, median_width, parse_trigger, Change, DebounceGate, TriggerError, TriggerKey,
    TriggerSpec, WindowLog,
};

const D: u64 = 250;

fn base() -> u64 {
    5_000_000
}

fn secs(n: u64) -> u64 {
    n * 1000
}

#[test]
fn a_fire_becomes_due_when_the_window_closes() {
    let t = base();
    let mut g = DebounceGate::new(D);
    assert!(!g.due(t));
    g.fire(t);
    assert!(!g.due(t + 100));
    assert!(g.due(t + D));
    assert!(!g.due(t + D));
}

#[test]
fn fires_inside_the_window_do_not_move_it() {
    let t = base();
    let mut g = DebounceGate::new(D);
    g.fire(t);
    g.fire(t + 200);
    assert!(g.due(t + D));
}

#[test]
fn a_fire_after_the_window_closed_opens_a_new_one() {
    let t = base();
    let mut g = DebounceGate::new(D);
    g.fire(t);
    assert!(g.due(t + D));
    g.fire(t + D * 2);
    assert!(!g.due(t + D * 2));
    assert!(g.due(t + D * 3));
}

#[test]
fn a_zero_window_is_due_at_the_fire_instant() {
    let t = base();
    let mut g = DebounceGate::new(0);
    g.fire(t);
    assert!(g.due(t));
    assert!(!g.due(t));
}

#[test]
fn sustained_sub_window_fires_never_starve_the_spawn() {
    let t = base();
    let mut g = DebounceGate::new(D);
    let mut spawns = 0;
    for i in 0..20 {
        let now = t + 50 * i;
        g.fire(now);
        if g.due(now) {
            spawns += 1;
        }
    }
    assert!(spawns >= 3, "starved: {spawns} spawns over 1s at D=250ms");
}

#[test]
fn specs_parse_by_scheme() {
    assert_eq!(
        parse_trigger("file:/tmp/state.json").unwrap(),
        TriggerSpec::File("/tmp/state.json".to_string())
    );
    assert_eq!(
        parse_trigger("fifo:/tmp/rat.trigger").unwrap(),
        TriggerSpec::Fifo("/tmp/rat.trigger".to_string())
    );
    assert_eq!(parse_trigger("fd:3").unwrap(), TriggerSpec::Fd(3));
}

#[test]
fn a_bare_path_teaches_the_schemes() {
    let err = parse_trigger("/tmp/state.json").unwrap_err().message();
    assert!(err.contains("fifo:"), "{err}");
    assert!(err.contains("file:"), "{err}");
    assert!(err.contains("fd:"), "{err}");
}

#[test]
fn an_empty_path_after_a_scheme_is_rejected() {
    assert!(parse_trigger("file:").is_err());
    assert!(parse_trigger("fifo:").is_err());
}

#[test]
fn a_non_numeric_fd_is_rejected() {
    assert!(parse_trigger("fd:three").is_err());
    assert!(parse_trigger("fd:-1").is_err());
}

#[test]
fn an_fd_past_the_select_limit_is_rejected_at_parse() {
    let err = parse_trigger("fd:1024").unwrap_err().message();
    assert!(err.contains("select"), "{err}");
    assert!(parse_trigger("fd:1023").is_ok());
}

#[test]
fn each_refusal_reads_exactly() {
    assert_eq!(
        parse_trigger("x").unwrap_err().message(),
        "invalid trigger \"x\": expected fifo:PATH, file:PATH, or fd:N"
    );
    assert_eq!(parse_trigger("fd:x").unwrap_err(), TriggerError::FdNotNumber("fd:x".into()));
    assert_eq!(
        parse_trigger("fd:x").unwrap_err().message(),
        "invalid trigger \"fd:x\": fd:N takes a number"
    );
    assert_eq!(
        parse_trigger("fd:-2").unwrap_err().message(),
        "invalid trigger \"fd:-2\": fd:N takes a non-negative number"
    );
    assert_eq!(
        parse_trigger("fd:2048").unwrap_err().message(),
        "fd:2048 is out of range for select(2); descriptors must be below 1024"
    );
    assert_eq!(parse_trigger("nope:/x").unwrap_err(), TriggerError::Teach("nope:/x".into()));
}

#[test]
fn a_spec_labels_itself_as_written() {
    assert_eq!(parse_trigger("fifo:/tmp/a").unwrap().label(), "fifo:/tmp/a");
    assert_eq!(parse_trigger("file:/var/x").unwrap().label(), "file:/var/x");
    assert_eq!(parse_trigger("fd:7").unwrap().label(), "fd:7");
    assert_eq!(parse_trigger("file:a:b").unwrap(), TriggerSpec::File("a:b".into()));
}

const W: u64 = 30_000;

#[test]
fn a_windowed_respawn_count_falls_as_evidence_expires() {
    let mut log = WindowLog::new(W);
    let t0 = base();
    for i in 0..50 {
        log.record_respawn(SourceId(0), t0 + i * 10);
    }
    assert_eq!(log.respawns_in_window(SourceId(0), t0 + secs(1)), 50);
    assert_eq!(log.respawns_in_window(SourceId(0), t0 + secs(40)), 0);
}

#[test]
fn respawns_are_counted_per_source() {
    let mut log = WindowLog::new(W);
    let t0 = base();
    log.record_respawn(SourceId(0), t0);
    log.record_respawn(SourceId(1), t0);
    log.record_respawn(SourceId(1), t0);
    assert_eq!(log.respawns_in_window(SourceId(0), t0 + secs(1)), 1);
    assert_eq!(log.respawns_in_window(SourceId(1), t0 + secs(1)), 2);
}

#[test]
fn close_bracket_returns_the_completed_record() {
    let mut log = WindowLog::new(W);
    let t0 = base();
    let id = log.open_bracket(SourceId(2), t0, Vec::new());
    let closed = log.close_bracket(id, t0 + 7, Vec::new());
    let closed = closed.expect("a live id must close");
    assert_eq!(closed.source, SourceId(2));
    assert_eq!(closed.width(), Some(7));
}

#[test]
fn an_evicted_bracket_never_shifts_a_live_bracket_id() {
    let mut log = WindowLog::new(secs(10));
    let t0 = base();
    let old = log.open_bracket(SourceId(0), t0, Vec::new());
    log.close_bracket(old, t0 + secs(1), Vec::new());
    let live = log.open_bracket(SourceId(7), t0 + secs(9), Vec::new());

    log.evict(t0 + secs(20));

    let closed = log
        .close_bracket(live, t0 + secs(20), Vec::new())
        .expect("the live bracket must still be closeable");
    assert_eq!(closed.source, SourceId(7), "closed the wrong record");
}

#[test]
fn closing_an_evicted_id_is_a_no_op_returning_none() {
    let mut log = WindowLog::new(secs(10));
    let t0 = base();
    let id = log.open_bracket(SourceId(0), t0, Vec::new());
    log.close_bracket(id, t0 + secs(1), Vec::new());
    log.evict(t0 + secs(30));
    assert!(log.close_bracket(id, t0 + secs(30), Vec::new()).is_none());
}

#[test]
fn covering_reports_closed_brackets_with_final_widths() {
    let mut log = WindowLog::new(W);
    let t0 = base();
    let id = log.open_bracket(SourceId(4), t0, Vec::new());
    log.close_bracket(id, t0 + 20, Vec::new());

    let over = log.covering(t0 + 10);
    assert_eq!(over, vec![(SourceId(4), 20)]);
    assert!(log.covering(t0 + secs(5)).is_empty(), "outside the bracket");
}

#[test]
fn covering_withholds_an_open_bracket_and_any_open_reports_it() {
    let mut log = WindowLog::new(W);
    let t0 = base();
    log.open_bracket(SourceId(0), t0, Vec::new());
    assert!(log.covering(t0 + 5).is_empty());
    assert!(log.any_open(t0 + 5));
}

#[test]
fn an_arrival_with_nothing_in_flight_is_exogenous_immediately() {
    let mut log = WindowLog::new(W);
    let t0 = base();
    log.observe_arrival(SourceId(0), TriggerKey("fifo:/tmp/a".into()), t0);
    let key = TriggerKey("fifo:/tmp/a".into());
    let arrivals = log.arrivals(&key);
    assert_eq!(arrivals.len(), 1);
    assert!(arrivals[0].containing.is_empty());
}

#[test]
fn an_arrival_captures_bracket_identity_at_record_time_and_widths_later() {
    let mut log = WindowLog::new(W);
    let t0 = base();
    let id = log.open_bracket(SourceId(1), t0, Vec::new());
    log.observe_arrival(SourceId(1), TriggerKey("fifo:/tmp/a".into()), t0 + 3);

    let key = TriggerKey("fifo:/tmp/a".into());
    {
        let arrivals = log.arrivals(&key);
        assert_eq!(arrivals[0].containing, vec![id], "identity is captured now");
        assert!(log.widths(arrivals[0]).is_none(), "width is not final yet");
    }

    log.close_bracket(id, t0 + 40, Vec::new());
    let arrivals = log.arrivals(&key);
    assert_eq!(
        log.widths(arrivals[0]),
        Some(vec![(SourceId(1), 40)]),
        "the FINAL width, not elapsed-so-far"
    );
}

#[test]
fn two_triggers_on_one_pane_are_kept_separate_not_merged() {
    let mut log = WindowLog::new(W);
    let t0 = base();
    log.observe_arrival(SourceId(0), TriggerKey("fifo:/tmp/a".into()), t0);
    log.observe_arrival(SourceId(0), TriggerKey("fifo:/tmp/b".into()), t0);
    log.observe_arrival(SourceId(0), TriggerKey("fifo:/tmp/b".into()), t0);

    assert_eq!(log.arrivals(&TriggerKey("fifo:/tmp/a".into())).len(), 1);
    assert_eq!(log.arrivals(&TriggerKey("fifo:/tmp/b".into())).len(), 2);
}

#[test]
fn an_overflow_forces_abstention_for_any_window_it_touches() {
    let mut log = WindowLog::new(W);
    let t0 = base();
    log.record_overflow(t0);
    assert!(log.evidence_lost(t0 + secs(1)));
    assert!(!log.evidence_lost(t0 + secs(40)), "and it expires with the window");
}

#[test]
fn eviction_retains_a_bracket_a_live_arrival_still_references() {
    let mut log = WindowLog::new(secs(10));
    let t0 = base();
    let id = log.open_bracket(SourceId(0), t0, Vec::new());
    log.close_bracket(id, t0 + 5, Vec::new());
    log.observe_arrival(SourceId(0), TriggerKey("fifo:/tmp/a".into()), t0);
    log.arrivals(&TriggerKey("fifo:/tmp/a".into()));

    log.evict(t0 + 500);

    let key = TriggerKey("fifo:/tmp/a".into());
    let arrivals = log.arrivals(&key);
    assert_eq!(arrivals.len(), 1);
    assert_eq!(
        log.widths(arrivals[0]),
        Some(vec![(SourceId(0), 5)]),
        "the referenced bracket must have been retained"
    );
}

#[test]
fn eviction_drops_what_the_window_no_longer_covers() {
    let mut log = WindowLog::new(secs(10));
    let t0 = base();
    let id = log.open_bracket(SourceId(0), t0, Vec::new());
    log.close_bracket(id, t0 + 5, Vec::new());
    log.record_respawn(SourceId(0), t0);
    log.observe_arrival(SourceId(0), TriggerKey("fifo:/tmp/a".into()), t0);
    log.record_overflow(t0);

    log.evict(t0 + secs(30));

    assert_eq!(log.respawns_in_window(SourceId(0), t0 + secs(30)), 0);
    assert!(log.arrivals(&TriggerKey("fifo:/tmp/a".into())).is_empty());
    assert!(!log.evidence_lost(t0 + secs(30)));
    assert!(log.close_bracket(id, t0 + secs(30), Vec::new()).is_none());
}

fn changes_all(n: usize, containing: &[(SourceId, u64)]) -> Vec<Change> {
    let t = base();
    (0..n).map(|i| Change { at: t + i as u64, containing: containing.to_vec() }).collect()
}

#[test]
fn credit_merges_two_panes_whose_children_cost_the_same() {
    let credited = credit(&changes_all(10, &[(SourceId(0), 22), (SourceId(1), 24)]));
    assert_eq!(credited, vec![SourceId(0), SourceId(1)]);
}

#[test]
fn credit_rejects_a_producer_whose_bracket_merely_contains_the_consumers() {
    let credited = credit(&changes_all(10, &[(SourceId(0), 168), (SourceId(1), 6)]));
    assert_eq!(credited, vec![SourceId(1)], "only the tight one");
}

#[test]
fn credit_requires_more_than_half_the_changes_not_merely_some() {
    let mut changes = changes_all(8, &[(SourceId(1), 5)]);
    changes.extend(changes_all(2, &[(SourceId(1), 5), (SourceId(9), 1)]));
    let credited = credit(&changes);
    assert_eq!(
        credited,
        vec![SourceId(1)],
        "SourceId(9) covered 2 of 10 and must not be credited despite being tighter"
    );
}

#[test]
fn credit_of_nothing_is_nothing() {
    assert!(credit(&[]).is_empty());
    assert!(credit(&changes_all(3, &[])).is_empty());
}

#[test]
fn the_median_width_is_the_middle_of_the_sorted_widths() {
    let mut changes = Vec::new();
    for w in [9u64, 1, 5, 7, 3] {
        changes.push(Change { at: base(), containing: vec![(SourceId(2), w)] });
    }
    assert_eq!(median_width(&changes, SourceId(2)), 5);
    changes.push(Change { at: base(), containing: vec![(SourceId(2), 4)] });
    assert_eq!(median_width(&changes, SourceId(2)), 5);
    assert_eq!(median_width(&changes, SourceId(3)), 0);
}

#[test]
fn credit_lists_its_writers_in_increasing_order() {
    let credited = credit(&changes_all(4, &[(SourceId(5), 10), (SourceId(2), 12), (SourceId(7), 11)]));
    assert_eq!(credited, vec![SourceId(2), SourceId(5), SourceId(7)]);
}
