use ratto::color::{detect_profile, resolve_profile, ColorMode, ColorProfile, EnvSource, MapEnv};

fn env(pairs: &[(&str, &str)]) -> MapEnv {
    MapEnv(pairs.iter().map(|(k, v)| (k.to_string(), v.to_string())).collect())
}

#[test]
fn detect_matrix() {
    let cases: Vec<(Vec<(&str, &str)>, bool, ColorProfile)> = vec![
        (vec![("NO_COLOR", "1"), ("TERM", "xterm-256color")], true, ColorProfile::Ascii),
        (
            vec![("NO_COLOR", "1"), ("CLICOLOR_FORCE", "1"), ("TERM", "xterm-256color")],
            true,
            ColorProfile::Ascii,
        ),
        (vec![("CLICOLOR", "0"), ("TERM", "xterm-256color")], true, ColorProfile::Ascii),
        (
            vec![("CLICOLOR", "0"), ("CLICOLOR_FORCE", "1"), ("TERM", "xterm-256color")],
            true,
            ColorProfile::Ansi256,
        ),
        (vec![("CLICOLOR_FORCE", "1"), ("TERM", "xterm-256color")], false, ColorProfile::Ansi),
        (vec![("CLICOLOR_FORCE", "0"), ("TERM", "xterm-256color")], false, ColorProfile::Ascii),
        (vec![("CI", "1"), ("TERM", "xterm-256color")], true, ColorProfile::Ascii),
        (vec![("COLORTERM", "truecolor"), ("TERM", "screen")], true, ColorProfile::Ansi256),
        (
            vec![("COLORTERM", "truecolor"), ("TERM", "screen"), ("TERM_PROGRAM", "tmux")],
            true,
            ColorProfile::TrueColor,
        ),
        (vec![("COLORTERM", "24bit"), ("TERM", "xterm-256color")], true, ColorProfile::TrueColor),
        (vec![("COLORTERM", "yes"), ("TERM", "xterm-256color")], true, ColorProfile::Ansi256),
        (vec![("TERM", "xterm-kitty")], true, ColorProfile::TrueColor),
        (vec![("TERM", "xterm-ghostty")], true, ColorProfile::TrueColor),
        (vec![("TERM", "wezterm")], true, ColorProfile::TrueColor),
        (vec![("TERM", "xterm")], true, ColorProfile::Ansi),
        (vec![("TERM", "linux")], true, ColorProfile::Ansi),
        (vec![("TERM", "xterm-256color")], true, ColorProfile::Ansi256),
        (vec![("TERM", "vt100-color")], true, ColorProfile::Ansi),
        (vec![("TERM", "ansi")], true, ColorProfile::Ansi),
        (vec![("TERM", "dumb")], true, ColorProfile::Ascii),
        (vec![("GOOGLE_CLOUD_SHELL", "true")], true, ColorProfile::TrueColor),
        (vec![("TERM", "xterm-256color")], false, ColorProfile::Ascii),
    ];
    for (pairs, is_tty, expected) in cases {
        assert_eq!(detect_profile(&env(&pairs), is_tty), expected, "{pairs:?} tty={is_tty}");
    }
}

#[test]
fn a_bare_environment_stays_colorless() {
    assert_eq!(detect_profile(&env(&[]), true), ColorProfile::Ascii);
}

#[test]
fn always_ignores_kill_switches_at_full_depth() {
    let e = env(&[("NO_COLOR", "1"), ("TERM", "xterm-256color")]);
    assert_eq!(resolve_profile(ColorMode::Always, &e, false), ColorProfile::Ansi256);
    let ci = env(&[("CI", "1"), ("TERM", "xterm-ghostty")]);
    assert_eq!(resolve_profile(ColorMode::Always, &ci, false), ColorProfile::TrueColor);
}

#[test]
fn never_overrides_force() {
    let e = env(&[("CLICOLOR_FORCE", "1"), ("TERM", "xterm-256color")]);
    assert_eq!(resolve_profile(ColorMode::Never, &e, true), ColorProfile::Ascii);
}

#[test]
fn always_bumps_to_at_least_ansi() {
    let e = env(&[("TERM", "dumb")]);
    assert_eq!(resolve_profile(ColorMode::Always, &e, false), ColorProfile::Ansi);
    let rich = env(&[("TERM", "xterm-256color")]);
    assert_eq!(resolve_profile(ColorMode::Always, &rich, false), ColorProfile::Ansi256);
}

#[test]
fn auto_is_detect() {
    let e = env(&[("TERM", "xterm-256color")]);
    assert_eq!(resolve_profile(ColorMode::Auto, &e, true), ColorProfile::Ansi256);
}

#[test]
fn colorterm_is_read_case_insensitively_and_the_last_setting_wins() {
    let e = env(&[("COLORTERM", "TrueColor"), ("TERM", "xterm")]);
    assert_eq!(detect_profile(&e, true), ColorProfile::TrueColor);
    let e = env(&[("TERM", "dumb"), ("TERM", "xterm-256color")]);
    assert_eq!(e.get("TERM"), Some("xterm-256color".to_string()));
    assert_eq!(detect_profile(&e, true), ColorProfile::Ansi256);
    assert_eq!(e.get("HOME"), None);
}
