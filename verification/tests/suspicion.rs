use ratto::registry::SourceId;
use ratto::suspicion::{LoopSuspicion, PaneWindow};
use ratto::trigger::{Change, PathLedger, TriggerKey, WindowLog};

fn base() -> u64 {
    5_000_000
}

fn secs(n: u64) -> u64 {
    n * 1000
}

fn busy_fraction(log: &WindowLog, now: u64) -> f64 {
    log.busy_ms(now) as f64 / log.window() as f64
}

#[test]
fn busy_fraction_unions_overlapping_brackets_rather_than_summing() {
    let mut log = WindowLog::new(secs(10));
    let t0 = base();
    let a = log.open_bracket(SourceId(0), t0, Vec::new());
    let b = log.open_bracket(SourceId(1), t0, Vec::new());
    log.close_bracket(a, t0 + secs(1), Vec::new());
    log.close_bracket(b, t0 + secs(1), Vec::new());

    let f = busy_fraction(&log, t0 + secs(10));
    assert!(
        (f - 0.1).abs() < 0.01,
        "two overlapping 1s brackets in 10s is 10%, not 20% — got {f}"
    );
}

#[test]
fn busy_fraction_sums_disjoint_brackets() {
    let mut log = WindowLog::new(secs(10));
    let t0 = base();
    let a = log.open_bracket(SourceId(0), t0, Vec::new());
    log.close_bracket(a, t0 + secs(1), Vec::new());
    let b = log.open_bracket(SourceId(1), t0 + secs(5), Vec::new());
    log.close_bracket(b, t0 + secs(6), Vec::new());

    let f = busy_fraction(&log, t0 + secs(10));
    assert!(
        (f - 0.2).abs() < 0.01,
        "two disjoint 1s brackets in 10s is 20% — got {f}"
    );
}

#[test]
fn an_open_bracket_counts_as_busy_up_to_now() {
    let mut log = WindowLog::new(secs(10));
    let t0 = base();
    log.open_bracket(SourceId(0), t0 + secs(9), Vec::new());
    let f = busy_fraction(&log, t0 + secs(10));
    assert!(
        (f - 0.1).abs() < 0.01,
        "a still-open 1s bracket is 10% — got {f}"
    );
}

#[test]
fn busy_time_is_exact_in_milliseconds() {
    let mut log = WindowLog::new(secs(10));
    let t0 = base();
    // Nested, chained and straddling the window's start.
    let a = log.open_bracket(SourceId(0), t0 - 500, Vec::new());
    log.close_bracket(a, t0 + 1_000, Vec::new());
    let b = log.open_bracket(SourceId(1), t0 + 200, Vec::new());
    log.close_bracket(b, t0 + 300, Vec::new());
    let c = log.open_bracket(SourceId(2), t0 + 1_000, Vec::new());
    log.close_bracket(c, t0 + 1_250, Vec::new());
    let d = log.open_bracket(SourceId(3), t0 + 4_000, Vec::new());
    log.close_bracket(d, t0 + 4_001, Vec::new());
    assert_eq!(log.busy_ms(t0 + secs(10)), 1_251);
    // Before a whole window has passed nothing is measured.
    assert_eq!(WindowLog::new(secs(10)).busy_ms(secs(5)), 0);
}

#[test]
fn eviction_drops_brackets_respawns_arrivals_and_overflows_alike() {
    let mut log = WindowLog::new(secs(10));
    let t0 = base();
    let id = log.open_bracket(SourceId(0), t0, Vec::new());
    log.close_bracket(id, t0 + 5, Vec::new());
    log.record_respawn(SourceId(0), t0);
    log.observe_arrival(SourceId(0), TriggerKey("fifo:/tmp/a".into()), t0);
    log.record_overflow(t0);

    log.evict(t0 + secs(30));

    assert_eq!(log.respawns_in_window(SourceId(0), t0 + secs(30)), 0);
    assert!(log.arrivals(&TriggerKey("fifo:/tmp/a".into())).is_empty());
    assert!(!log.evidence_lost(t0 + secs(30)));
    assert!((busy_fraction(&log, t0 + secs(30)) - 0.0).abs() < 1e-9);
}

#[test]
fn eviction_keeps_a_bracket_that_still_overlaps_the_window() {
    let mut log = WindowLog::new(secs(10));
    let t0 = base();
    let id = log.open_bracket(SourceId(0), t0, Vec::new());
    log.close_bracket(id, t0 + secs(6), Vec::new());

    log.evict(t0 + secs(11)); // cutoff is t0 + 1s: opened before, closed after

    let f = busy_fraction(&log, t0 + secs(11));
    assert!(
        f > 0.0,
        "a bracket overlapping the window must survive — got {f}"
    );
}

/// `n` changes, each covered by the given (source, width) pairs.
fn changes_all(n: usize, containing: &[(SourceId, u64)]) -> Vec<Change> {
    let t = base();
    (0..n)
        .map(|i| Change {
            at: t + i as u64,
            containing: containing.to_vec(),
        })
        .collect()
}

/// A pane that has made enough trigger-driven respawns to be a candidate.
fn pane(id: usize, watched: &[&str], readers: &[TriggerKey]) -> PaneWindow {
    PaneWindow {
        source: SourceId(id),
        trigger_respawns: 50,
        watched: watched.iter().map(|p| p.to_string()).collect(),
        readers: readers.to_vec(),
    }
}

/// A ledger holding exactly the changes given, with no filesystem.
fn ledger_with(entries: &[(&str, Vec<Change>)]) -> PathLedger {
    let mut ledger = PathLedger::new(Vec::new());
    for (path, changes) in entries {
        for change in changes {
            ledger.inject(path, change.at, change.containing.clone());
        }
    }
    ledger
}

#[test]
fn a_two_pane_cycle_trips_and_names_both() {
    let both = [(SourceId(0), 22), (SourceId(1), 24)];
    let ledger = ledger_with(&[("/sa", changes_all(10, &both)), ("/sb", changes_all(10, &both))]);
    let log = WindowLog::new(secs(30));
    let panes = [pane(0, &["/sa"], &[]), pane(1, &["/sb"], &[])];

    let v = LoopSuspicion::default().evaluate(base(), &ledger, &log, &panes);
    assert_eq!(v.panes, vec![SourceId(0), SourceId(1)]);
    assert!(!v.abstained);
}

#[test]
fn concurrent_children_are_never_ordered() {
    let both = [(SourceId(0), 22), (SourceId(1), 24)];
    let ledger = ledger_with(&[("/sa", changes_all(10, &both))]);
    let log = WindowLog::new(secs(30));
    let panes = [pane(0, &["/sa"], &[]), pane(1, &["/sa"], &[])];

    let v = LoopSuspicion::default().evaluate(base(), &ledger, &log, &panes);
    assert!(v.ordered.is_none(), "a merged pair cannot be ordered");
    assert_eq!(v.panes, vec![SourceId(0), SourceId(1)]);
}

#[test]
fn a_precise_cycle_is_ordered() {
    // Each path credits one writer: nothing merged, so the order stands.
    let ledger = ledger_with(&[
        ("/sa", changes_all(10, &[(SourceId(1), 5)])),
        ("/sb", changes_all(10, &[(SourceId(0), 5)])),
    ]);
    let log = WindowLog::new(secs(30));
    let panes = [pane(1, &["/sb"], &[]), pane(0, &["/sa"], &[])];
    let v = LoopSuspicion::default().evaluate(base(), &ledger, &log, &panes);
    assert_eq!(v.panes, vec![SourceId(0), SourceId(1)]);
    assert_eq!(v.ordered, Some(vec![SourceId(0), SourceId(1)]));
}

#[test]
fn a_one_way_producer_consumer_pair_does_not_trip() {
    let ledger = ledger_with(&[("/data", changes_all(10, &[(SourceId(0), 6)]))]);
    let log = WindowLog::new(secs(30));
    let panes = [pane(0, &["/upstream"], &[]), pane(1, &["/data"], &[])];

    let v = LoopSuspicion::default().evaluate(base(), &ledger, &log, &panes);
    assert!(
        v.panes.is_empty(),
        "an acyclic one-way chain must never be implicated"
    );
}

#[test]
fn an_expensive_producer_chain_does_not_trip_end_to_end() {
    let ledger = ledger_with(&[
        ("/d1", changes_all(10, &[(SourceId(0), 168)])),
        ("/d2", changes_all(10, &[(SourceId(0), 168), (SourceId(1), 6)])),
    ]);
    let log = WindowLog::new(secs(30));
    let panes = [
        pane(0, &["/upstream"], &[]),
        pane(1, &["/d1"], &[]),
        pane(2, &["/d2"], &[]),
    ];

    let v = LoopSuspicion::default().evaluate(base(), &ledger, &log, &panes);
    assert!(
        v.panes.is_empty(),
        "an acyclic chain must not trip because one bracket contains another: {:?}",
        v.panes
    );
}

#[test]
fn too_few_trigger_driven_respawns_never_trips() {
    let both = [(SourceId(0), 22), (SourceId(1), 24)];
    let ledger = ledger_with(&[("/sa", changes_all(10, &both))]);
    let log = WindowLog::new(secs(30));
    let mut slow = pane(0, &["/sa"], &[]);
    slow.trigger_respawns = 3;
    let panes = [slow];

    let v = LoopSuspicion::default().evaluate(base(), &ledger, &log, &panes);
    assert!(v.panes.is_empty());
}

#[test]
fn one_exogenous_observation_clears_the_veto() {
    let both = [(SourceId(0), 22), (SourceId(1), 24)];
    let mut changes = changes_all(10, &both);
    changes.push(Change {
        at: base(),
        containing: Vec::new(), // nothing in flight: an outside writer
    });
    let ledger = ledger_with(&[("/sa", changes)]);
    let log = WindowLog::new(secs(30));
    let panes = [pane(0, &["/sa"], &[]), pane(1, &["/sa"], &[])];

    let v = LoopSuspicion::default().evaluate(base(), &ledger, &log, &panes);
    assert!(v.panes.is_empty(), "one exogenous change is enough");
}

#[test]
fn a_pane_watching_nothing_is_never_implicated() {
    let ledger = PathLedger::new(Vec::new());
    let log = WindowLog::new(secs(30));
    let panes = [pane(0, &[], &[])];
    let v = LoopSuspicion::default().evaluate(base(), &ledger, &log, &panes);
    assert!(v.panes.is_empty());
}

#[test]
fn a_busy_dashboard_abstains_rather_than_guessing() {
    let both = [(SourceId(0), 22), (SourceId(1), 24)];
    let ledger = ledger_with(&[("/sa", changes_all(10, &both))]);
    let mut log = WindowLog::new(secs(10));
    let t0 = base();
    let id = log.open_bracket(SourceId(0), t0, Vec::new());
    log.close_bracket(id, t0 + secs(9), Vec::new());

    let panes = [pane(0, &["/sa"], &[]), pane(1, &["/sa"], &[])];
    let v = LoopSuspicion::default().evaluate(t0 + secs(10), &ledger, &log, &panes);
    assert!(v.abstained, "90% duty must abstain");
    assert!(v.panes.is_empty(), "abstaining accuses nobody");
}

#[test]
fn half_a_window_of_duty_is_the_abstention_line() {
    let mut log = WindowLog::new(secs(10));
    let t0 = base();
    let id = log.open_bracket(SourceId(0), t0, Vec::new());
    log.close_bracket(id, t0 + 4_999, Vec::new());
    let ledger = PathLedger::new(Vec::new());
    let panes = [pane(0, &["/sa"], &[])];
    let rule = LoopSuspicion::default();
    assert!(!rule.evaluate(t0 + secs(10), &ledger, &log, &panes).abstained);
    let id = log.open_bracket(SourceId(0), t0 + 4_999, Vec::new());
    log.close_bracket(id, t0 + 5_000, Vec::new());
    assert!(rule.evaluate(t0 + secs(10), &ledger, &log, &panes).abstained);
}

#[test]
fn lost_reader_evidence_forces_abstention() {
    let both = [(SourceId(0), 22), (SourceId(1), 24)];
    let ledger = ledger_with(&[("/sa", changes_all(10, &both))]);
    let mut log = WindowLog::new(secs(30));
    let t0 = base();
    log.record_overflow(t0);

    let panes = [pane(0, &["/sa"], &[]), pane(1, &["/sa"], &[])];
    let v = LoopSuspicion::default().evaluate(t0 + secs(1), &ledger, &log, &panes);
    assert!(v.abstained);
}

#[test]
fn an_arrival_with_an_unresolved_width_is_deferred_from_credit() {
    let mut log = WindowLog::new(secs(30));
    let t0 = base();
    let key = TriggerKey("fifo:/tmp/a".into());
    log.open_bracket(SourceId(0), t0, Vec::new()); // never closed
    log.observe_arrival(SourceId(1), key.clone(), t0 + 3);

    let changes = LoopSuspicion::arrival_changes(&log, &key);
    assert!(
        changes.is_empty(),
        "an unresolved arrival contributes no credit input"
    );
}

#[test]
fn a_reader_route_closes_a_cycle_once_its_brackets_close() {
    let key = TriggerKey("fifo:/tmp/a".into());
    let mut log = WindowLog::new(secs(30));
    let t0 = base();
    // Pane 0's children cover every arrival on pane 1's fifo.
    for i in 0..10 {
        let id = log.open_bracket(SourceId(0), t0 + i * 100, Vec::new());
        log.observe_arrival(SourceId(1), key.clone(), t0 + i * 100 + 1);
        log.close_bracket(id, t0 + i * 100 + 5, Vec::new());
    }
    // Pane 1 writes the path pane 0 watches.
    let ledger = ledger_with(&[("/sb", changes_all(10, &[(SourceId(1), 5)]))]);
    let panes = [pane(0, &["/sb"], &[]), pane(1, &[], &[key.clone()])];
    let v = LoopSuspicion::default().evaluate(t0 + secs(1), &ledger, &log, &panes);
    assert_eq!(v.panes, vec![SourceId(0), SourceId(1)]);
    assert_eq!(LoopSuspicion::arrival_changes(&log, &key).len(), 10);
}
