use ratto::registry::SourceId;
use ratto::trigger::{Bracket, BracketId, MtimeWatch, MtimeWatchSet, PathLedger, PathStamp};

const T: u64 = 1_000_000;

fn at(mtime: u64) -> PathStamp {
    PathStamp(Some(mtime))
}

fn ledger_over(paths: &[(&str, PathStamp)]) -> PathLedger {
    PathLedger::new(paths.iter().map(|(p, s)| (p.to_string(), *s)).collect())
}

fn stamped(path: &str, stamp: PathStamp) -> Vec<(String, PathStamp)> {
    vec![(path.to_string(), stamp)]
}

#[test]
fn a_change_with_no_bracket_over_it_is_exogenous() {
    let mut ledger = ledger_over(&[("sa", at(1))]);
    ledger.observe(T, &[], &stamped("sa", at(2))); // nothing in flight
    assert_eq!(ledger.exogenous("sa"), 1);
}

#[test]
fn a_change_inside_a_bracket_is_endogenous() {
    let mut ledger = ledger_over(&[("sa", at(1))]);
    ledger.observe(T, &[(SourceId(0), 7)], &stamped("sa", at(2)));
    assert_eq!(ledger.exogenous("sa"), 0);
    assert_eq!(ledger.changes("sa").len(), 1);
}

#[test]
fn the_first_stat_only_establishes_a_baseline() {
    let mut ledger = ledger_over(&[("sa", at(1))]);
    ledger.observe(T, &[], &stamped("sa", at(1)));
    assert_eq!(ledger.exogenous("sa"), 0);
}

#[test]
fn an_absent_path_is_stable_and_its_appearance_is_one_change() {
    let absent = PathStamp(None);
    let mut ledger = ledger_over(&[("not-yet", absent)]);
    ledger.observe(T, &[], &stamped("not-yet", absent));
    assert_eq!(ledger.exogenous("not-yet"), 0);
    ledger.observe(T + 50, &[], &stamped("not-yet", at(9)));
    assert_eq!(ledger.exogenous("not-yet"), 1);
}

#[test]
fn observe_bracket_credits_the_source_whose_bracket_it_was() {
    let mut ledger = ledger_over(&[("sa", at(1))]);
    ledger.observe_bracket(&Bracket {
        id: BracketId(0),
        source: SourceId(3),
        opened: T,
        closed: Some(T + 9),
        open_stamps: stamped("sa", at(1)),
        close_stamps: stamped("sa", at(2)),
    });
    assert_eq!(ledger.exogenous("sa"), 0);
    let c = ledger.changes("sa");
    assert_eq!(c.len(), 1);
    assert_eq!(c[0].at, T + 9);
    assert_eq!(c[0].containing, vec![(SourceId(3), 9)]);
}

#[test]
fn a_bracket_that_moved_nothing_records_no_change() {
    let mut ledger = ledger_over(&[("sa", at(1))]);
    ledger.observe_bracket(&Bracket {
        id: BracketId(0),
        source: SourceId(0),
        opened: T,
        closed: Some(T + 5),
        open_stamps: stamped("sa", at(1)),
        close_stamps: stamped("sa", at(1)),
    });
    assert!(ledger.changes("sa").is_empty());
}

#[test]
fn an_open_bracket_says_nothing() {
    let mut ledger = ledger_over(&[("sa", at(1))]);
    ledger.observe_bracket(&Bracket {
        id: BracketId(0),
        source: SourceId(0),
        opened: T,
        closed: None,
        open_stamps: stamped("sa", at(1)),
        close_stamps: stamped("sa", at(2)),
    });
    assert!(ledger.changes("sa").is_empty());
}

#[test]
fn a_bracket_advances_the_baseline_so_one_change_is_not_counted_twice() {
    let mut ledger = ledger_over(&[("sa", at(1))]);
    ledger.observe_bracket(&Bracket {
        id: BracketId(0),
        source: SourceId(0),
        opened: T,
        closed: Some(T + 5),
        open_stamps: stamped("sa", at(1)),
        close_stamps: stamped("sa", at(2)),
    });
    assert_eq!(ledger.changes("sa").len(), 1);
    ledger.observe(T + 60, &[], &stamped("sa", at(2)));
    assert_eq!(
        ledger.changes("sa").len(),
        1,
        "the same change must not be counted twice"
    );
}

#[test]
fn eviction_drops_changes_older_than_the_window() {
    let mut ledger = ledger_over(&[("sa", at(1))]);
    ledger.observe(T, &[], &stamped("sa", at(2)));
    assert_eq!(ledger.exogenous("sa"), 1);
    ledger.evict(T + 31_000, 30_000);
    assert_eq!(ledger.exogenous("sa"), 0, "the window must mean now");
}

#[test]
fn an_early_eviction_keeps_everything() {
    let mut ledger = ledger_over(&[("sa", at(1))]);
    ledger.observe(10, &[], &stamped("sa", at(2)));
    ledger.evict(20, 30_000);
    assert_eq!(ledger.exogenous("sa"), 1);
}

#[test]
fn the_ledger_never_swallows_a_trigger_set_fire() {
    let mut set = MtimeWatchSet::new(vec!["sa".to_string()]);
    assert!(!set.fired(&[at(1)]), "baseline");
    let mut ledger = ledger_over(&[("sa", at(1))]);
    ledger.observe(T, &[], &stamped("sa", at(2)));
    ledger.observe(T + 50, &[], &stamped("sa", at(2)));
    assert!(set.fired(&[at(2)]), "the trigger must still see its own change");
}

#[test]
fn the_watched_paths_are_sorted_and_free_of_repeats() {
    let ledger = ledger_over(&[("b", at(1)), ("a", at(1)), ("b", at(2)), ("c/d", at(1))]);
    assert_eq!(ledger.watched(), &vec!["a".to_string(), "b".to_string(), "c/d".to_string()]);
}

#[test]
fn the_first_observation_is_a_baseline_not_a_fire() {
    let mut w = MtimeWatch::new("f".to_string());
    assert!(!w.fired(at(5)));
    assert!(!w.fired(at(5)));
    assert!(w.fired(at(6)), "a changed mtime fires once");
    assert!(!w.fired(at(6)));
}

#[test]
fn an_absent_path_is_stable_and_fires_on_appearance() {
    let mut w = MtimeWatch::new("f".to_string());
    assert!(!w.fired(PathStamp(None)));
    assert!(!w.fired(PathStamp(None)));
    assert!(w.fired(at(1)));
    assert_eq!(w.path(), "f");
}

#[test]
fn a_set_fires_when_any_member_fires() {
    let mut set = MtimeWatchSet::new(vec!["a".to_string(), "b".to_string()]);
    assert_eq!(set.paths(), vec!["a".to_string(), "b".to_string()]);
    assert!(!set.fired(&[at(1), at(1)]));
    assert!(set.fired(&[at(1), at(2)]));
    // Both baselines advanced: nothing moved since.
    assert!(!set.fired(&[at(1), at(2)]));
}

#[test]
fn an_injected_change_is_read_back() {
    let mut ledger = ledger_over(&[("sa", at(1))]);
    ledger.inject("elsewhere", 4, vec![(SourceId(1), 3)]);
    ledger.inject("elsewhere", 5, Vec::new());
    assert_eq!(ledger.changes("elsewhere").len(), 2);
    assert_eq!(ledger.exogenous("elsewhere"), 1);
    assert!(ledger.changes("sa").is_empty());
}
