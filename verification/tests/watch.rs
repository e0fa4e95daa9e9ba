use ratto::datetime::Stamp;
use ratto::duration::format_long;
use ratto::watch::{frame_rows, refuse_untriggerable, TriggerRefusal};
use ratto::registry::PaneGeometry;
use ratto::trigger::TriggerSpec;
use ratto::watch::{
    action_for, age_text, child_env, fold_changed_at, compose_frame, dashboard_suffix, file_paths, help_lines, live_notice, live_suffix, live_time_segment,
    resolve_interval, window_rows, FrameMode, Key, ScrollStep, WatchAction,
};

const ALL_MODES: [FrameMode; 3] = [FrameMode::Live, FrameMode::LiveScrolled, FrameMode::Paused];

#[test]
fn the_interval_resolves_by_the_trigger_rule() {
    // (user token, has triggers) -> resolved, in milliseconds.
    let secs = |n: u64| Some(n * 1000);
    assert_eq!(resolve_interval(Some("5s"), false).unwrap(), secs(5));
    assert_eq!(resolve_interval(Some("5s"), true).unwrap(), secs(5));
    assert_eq!(resolve_interval(None, false).unwrap(), secs(2));
    assert_eq!(resolve_interval(None, true).unwrap(), None); // trigger-only
    assert!(resolve_interval(Some("bogus"), false).is_err());
}

#[test]
fn todays_keys_mean_the_same_thing_in_every_mode() {
    for mode in ALL_MODES {
        assert_eq!(action_for(Key::CtrlC, mode), WatchAction::Abort);
        assert_eq!(action_for(Key::Char('q'), mode), WatchAction::Quit);
        assert_eq!(action_for(Key::Char('v'), mode), WatchAction::Page);
        assert_eq!(action_for(Key::Enter, mode), WatchAction::Page);
    }
}

#[test]
fn navigation_keys_scroll() {
    for mode in ALL_MODES {
        for (key, step) in [
            (Key::Char('j'), ScrollStep::LineDown),
            (Key::Down, ScrollStep::LineDown),
            (Key::Char('k'), ScrollStep::LineUp),
            (Key::Up, ScrollStep::LineUp),
            (Key::Char('d'), ScrollStep::HalfDown),
            (Key::Char('u'), ScrollStep::HalfUp),
            (Key::Char('f'), ScrollStep::PageDown),
            (Key::PageDown, ScrollStep::PageDown),
            (Key::Char('b'), ScrollStep::PageUp),
            (Key::PageUp, ScrollStep::PageUp),
            (Key::Char('g'), ScrollStep::Top),
            (Key::Home, ScrollStep::Top),
            (Key::Char('G'), ScrollStep::Bottom),
            (Key::End, ScrollStep::Bottom),
        ] {
            assert_eq!(
                action_for(key, mode),
                WatchAction::Scroll(step),
                "{key:?} mode={mode:?}"
            );
        }
    }
}

#[test]
fn esc_only_means_something_when_not_live() {
    assert_eq!(action_for(Key::Esc, FrameMode::Live), WatchAction::Ignore);
    assert_eq!(
        action_for(Key::Esc, FrameMode::LiveScrolled),
        WatchAction::Resume
    );
    assert_eq!(action_for(Key::Esc, FrameMode::Paused), WatchAction::Resume);
}

#[test]
fn f_resumes_and_p_freezes() {
    assert_eq!(
        action_for(Key::Char('F'), FrameMode::Live),
        WatchAction::Ignore
    );
    assert_eq!(
        action_for(Key::Char('F'), FrameMode::LiveScrolled),
        WatchAction::Resume
    );
    assert_eq!(
        action_for(Key::Char('F'), FrameMode::Paused),
        WatchAction::Resume
    );
    assert_eq!(
        action_for(Key::Char('p'), FrameMode::Live),
        WatchAction::Freeze
    );
    assert_eq!(
        action_for(Key::Char('p'), FrameMode::LiveScrolled),
        WatchAction::Freeze
    );
    assert_eq!(
        action_for(Key::Char('p'), FrameMode::Paused),
        WatchAction::Ignore
    );
}

#[test]
fn shift_d_toggles_the_gutter_in_every_mode() {
    for mode in ALL_MODES {
        assert_eq!(action_for(Key::Char('D'), mode), WatchAction::ToggleGutter);
    }
    // The half-page scroll is untouched by its shifted neighbour.
    for mode in ALL_MODES {
        assert_eq!(
            action_for(Key::Char('d'), mode),
            WatchAction::Scroll(ScrollStep::HalfDown)
        );
    }
}

#[test]
fn c_toggles_the_highlight_in_every_mode() {
    for mode in ALL_MODES {
        assert_eq!(
            action_for(Key::Char('c'), mode),
            WatchAction::ToggleHighlight
        );
    }
}

#[test]
fn t_toggles_the_time_display_in_every_mode() {
    for mode in ALL_MODES {
        assert_eq!(action_for(Key::Char('t'), mode), WatchAction::ToggleTime);
    }
}

#[test]
fn view_keys_are_view_actions_in_every_mode() {
    for mode in ALL_MODES {
        assert_eq!(action_for(Key::Char('w'), mode), WatchAction::ToggleWrap);
        assert_eq!(action_for(Key::Char('h'), mode), WatchAction::ShiftLeft);
        assert_eq!(action_for(Key::Left, mode), WatchAction::ShiftLeft);
        assert_eq!(action_for(Key::Char('l'), mode), WatchAction::ShiftRight);
        assert_eq!(action_for(Key::Right, mode), WatchAction::ShiftRight);
    }
}

#[test]
fn unbound_keys_are_ignored() {
    for mode in ALL_MODES {
        assert_eq!(action_for(Key::Char('x'), mode), WatchAction::Ignore);
        assert_eq!(action_for(Key::Tab, mode), WatchAction::Ignore);
        assert_eq!(action_for(Key::Backspace, mode), WatchAction::Ignore);
    }
}

#[test]
fn scrub_keys_walk_history() {
    for mode in ALL_MODES {
        assert_eq!(action_for(Key::Char('<'), mode), WatchAction::ScrubBack);
        assert_eq!(action_for(Key::Char(','), mode), WatchAction::ScrubBack);
    }
    // Forward only means something while parked on a past frame.
    assert_eq!(
        action_for(Key::Char('>'), FrameMode::Paused),
        WatchAction::ScrubForward
    );
    assert_eq!(
        action_for(Key::Char('.'), FrameMode::Paused),
        WatchAction::ScrubForward
    );
    for mode in [FrameMode::Live, FrameMode::LiveScrolled] {
        assert_eq!(action_for(Key::Char('>'), mode), WatchAction::Ignore);
        assert_eq!(action_for(Key::Char('.'), mode), WatchAction::Ignore);
    }
}

#[test]
fn s_is_the_snapshot_key() {
    for mode in ALL_MODES {
        assert_eq!(action_for(Key::Char('S'), mode), WatchAction::Snapshot);
        assert_eq!(action_for(Key::Char('s'), mode), WatchAction::Ignore);
    }
}

#[test]
fn the_live_rows_carry_the_time_segment() {
    assert_eq!(live_notice(0, "since 18:47:53"), "since 18:47:53");
    assert_eq!(
        live_notice(8, "changed 14s ago"),
        "\u{2026} 8 more lines \u{b7} changed 14s ago"
    );
}

#[test]
fn the_live_suffix_names_the_interval_and_help() {
    assert_eq!(
        live_suffix(false, Some("2s"), false),
        " \u{b7} every 2s \u{b7} ? help"
    );
    assert_eq!(
        live_suffix(false, Some("500ms"), false),
        " \u{b7} every 500ms \u{b7} ? help"
    );
    // Once mode has no cadence to anticipate and no keys to learn.
    assert_eq!(live_suffix(true, Some("2s"), false), "");
}

#[test]
fn the_live_suffix_names_the_trigger_modes() {
    assert_eq!(
        live_suffix(false, Some("60s"), true),
        " \u{b7} every 60s or on trigger \u{b7} ? help"
    );
    assert_eq!(
        live_suffix(false, None, true),
        " \u{b7} on trigger \u{b7} ? help"
    );
    assert_eq!(live_suffix(true, None, true), ""); // once still empties it
}

#[test]
fn the_help_reference_names_the_trigger_sources() {
    let specs = vec![TriggerSpec::File("/tmp/state.json".into())];
    let lines = help_lines(&specs);
    assert!(
        lines
            .iter()
            .any(|line| line.contains("file:/tmp/state.json")),
        "{lines:?}"
    );
    // And stays clean when none are configured.
    assert!(
        !help_lines(&[]).iter().any(|line| line.contains("trigger")),
        "the untriggered reference must not mention triggers"
    );
}

#[test]
fn the_age_reads_just_now_then_counts() {
    assert_eq!(age_text(0), "just now");
    assert_eq!(age_text(9), "just now");
    assert_eq!(age_text(10), "10s ago");
    assert_eq!(age_text(14), "14s ago");
    assert_eq!(age_text(75), "1m 15s ago");
}

#[test]
fn the_live_segment_flips_between_stamp_and_counter() {
    assert_eq!(live_time_segment(false, "18:47:53", 999), "since 18:47:53");
    assert_eq!(live_time_segment(true, "18:47:53", 0), "changed just now");
    assert_eq!(live_time_segment(true, "18:47:53", 14), "changed 14s ago");
    assert_eq!(
        live_time_segment(true, "18:47:53", 75),
        "changed 1m 15s ago"
    );
}

#[test]
fn the_window_is_the_max_height_or_two_short_of_the_screen() {
    assert_eq!(window_rows(None, 24), 22);
    assert_eq!(window_rows(Some(5), 24), 5);
    assert_eq!(window_rows(None, 1), 0);
}

#[test]
fn composing_a_frame_puts_the_title_first_and_stderr_last() {
    let title = "T".to_string();
    assert_eq!(
        compose_frame(Some(&title), b"a\nb\n", b"boom\n", true),
        vec!["T", "a", "b", "boom"]
    );
    assert_eq!(
        compose_frame(Some(&title), b"a\nb\n", b"boom\n", false),
        vec!["T", "a", "b"]
    );
}

#[test]
fn question_mark_pages_the_key_help() {
    for mode in ALL_MODES {
        assert_eq!(action_for(Key::Char('?'), mode), WatchAction::Help);
    }
}

#[test]
fn the_help_names_the_key_families() {
    let text = help_lines(&[]).join("\n");
    for needle in [
        "quit",
        "pager",
        "snapshot",
        "freeze the frame in place",
        "resume the live tail",
        "step back",
        "wrap",
        "gutter",
        "highlights",
        "counting ages",
        "key reference",
    ] {
        assert!(text.contains(needle), "help must mention {needle:?}");
    }
}

#[test]
fn a_frame_keeps_interior_blank_lines_and_skips_an_empty_stderr() {
    assert_eq!(
        compose_frame(None, b"a\n\nb\n\n\n", b"", true),
        vec!["a", "", "b"]
    );
    assert_eq!(compose_frame(None, b"", b"", true), vec![""]);
    // Invalid bytes read as the replacement character.
    assert_eq!(compose_frame(None, b"x\xffy", b"", false), vec!["x\u{fffd}y"]);
}

#[test]
fn long_durations_name_every_nonzero_unit() {
    assert_eq!(format_long(0), "0s");
    assert_eq!(format_long(75), "1m 15s");
    assert_eq!(format_long(3600), "1h");
    assert_eq!(format_long(90061), "1d 1h 1m 1s");
    assert_eq!(age_text(3605), "1h 5s ago");
}

#[test]
fn the_dashboard_suffix_counts_sources_and_nothing_else() {
    assert_eq!(dashboard_suffix(true, 3), "");
    assert_eq!(dashboard_suffix(false, 1), " · 1 source · ? help");
    assert_eq!(dashboard_suffix(false, 3), " · 3 sources · ? help");
    assert_eq!(dashboard_suffix(false, 12), " · 12 sources · ? help");
}

#[test]
fn only_file_triggers_are_statted() {
    let triggers = vec![
        TriggerSpec::Fifo("/tmp/a".to_string()),
        TriggerSpec::File("./stamp".to_string()),
        TriggerSpec::Fd(3),
        TriggerSpec::File("./notes".to_string()),
    ];
    assert_eq!(
        file_paths(&triggers),
        vec!["./stamp".to_string(), "./notes".to_string()]
    );
    assert!(file_paths(&[]).is_empty());
}

fn stamp(secs: i64) -> Stamp {
    Stamp { seconds: secs, nanos: 0 }
}

#[test]
fn changed_at_takes_the_newest_changed_source() {
    let early = stamp(10);
    let late = stamp(40);
    assert_eq!(fold_changed_at(fold_changed_at(None, true, early), true, late), Some(late));
    assert_eq!(fold_changed_at(fold_changed_at(None, true, late), true, early), Some(late));
}

#[test]
fn changed_at_ignores_an_unchanged_source_that_completed_later() {
    let changed = stamp(10);
    let quiet = stamp(40);
    assert_eq!(fold_changed_at(fold_changed_at(None, true, changed), false, quiet), Some(changed));
    assert_eq!(fold_changed_at(None, false, quiet), None);
}

#[test]
fn changed_at_orders_within_a_second_by_nanoseconds() {
    let a = Stamp { seconds: 7, nanos: 500 };
    let b = Stamp { seconds: 7, nanos: 900 };
    assert_eq!(fold_changed_at(Some(b), true, a), Some(b));
    assert_eq!(fold_changed_at(Some(a), true, b), Some(b));
}

fn env_of(pairs: &[(String, String)], key: &str) -> Option<String> {
    pairs.iter().find(|(k, _)| k == key).map(|(_, v)| v.clone())
}

#[test]
fn every_child_is_told_the_frame_size_and_appearance() {
    let geom = PaneGeometry { cells: 100, rows: 40, inner_cols: 100, inner_rows: 40 };
    let env = child_env("some-tool", false, "light", geom);
    assert_eq!(env_of(&env, "RAT_WIDTH").as_deref(), Some("100"));
    assert_eq!(env_of(&env, "RAT_HEIGHT").as_deref(), Some("40"));
    assert_eq!(env_of(&env, "RAT_APPEARANCE").as_deref(), Some("light"));
    // No layout, no pane identity.
    assert_eq!(env_of(&env, "RAT_PANE"), None);
}

#[test]
fn a_pane_child_is_told_its_inner_size_and_name() {
    let geom = PaneGeometry { cells: 40, rows: 7, inner_cols: 36, inner_rows: 4 };
    let env = child_env("plan", true, "dark", geom);
    assert_eq!(
        env,
        vec![
            ("RAT_WIDTH".to_string(), "36".to_string()),
            ("RAT_HEIGHT".to_string(), "4".to_string()),
            ("RAT_APPEARANCE".to_string(), "dark".to_string()),
            ("RAT_PANE".to_string(), "plan".to_string()),
        ]
    );
}

#[test]
fn fifo_and_fd_triggers_need_an_interactive_terminal() {
    let file = TriggerSpec::File("a".to_string());
    let fifo = TriggerSpec::Fifo("p".to_string());
    assert_eq!(refuse_untriggerable(false, &[file.clone()]), Ok(()));
    let err = refuse_untriggerable(false, &[file.clone(), fifo.clone()]).unwrap_err();
    assert_eq!(err, TriggerRefusal::NeedsTerminal);
    assert_eq!(err.message(), "fifo:/fd: triggers need an interactive terminal; use file:PATH");
    assert_eq!(refuse_untriggerable(true, &[fifo, TriggerSpec::Fd(3)]), Ok(()));
    assert_eq!(refuse_untriggerable(true, &[TriggerSpec::Fd(0)]), Err(TriggerRefusal::TerminalInput));
}

#[test]
fn the_painted_window_counts_the_hidden_lines() {
    let lines: Vec<String> = (0..10).map(|i| format!("l{i}")).collect();
    // 8 rows less two: six lines shown, four hidden.
    let (rows, hidden) = frame_rows(&lines, 5, FrameMode::Live, None, 8);
    assert_eq!(rows, lines[0..6].to_vec());
    assert_eq!(hidden, 4);
    assert_eq!(live_notice(hidden, "since 12:00:00"), "\u{2026} 4 more lines \u{b7} since 12:00:00");
    let (rows, hidden) = frame_rows(&lines, 7, FrameMode::Paused, Some(5), 40);
    assert_eq!(rows, lines[7..10].to_vec());
    assert_eq!(hidden, 0);
    let (rows, hidden) = frame_rows(&lines, 50, FrameMode::LiveScrolled, Some(5), 40);
    assert!(rows.is_empty());
    assert_eq!(hidden, 0);
}
