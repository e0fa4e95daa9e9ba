//! Color profile detection: what the terminal can render, decided from
//! the environment the way termenv decides it.

use vstd::prelude::*;

use crate::text::{lowercase, lowercased, starts_with_seq, str_contains, str_eq, str_starts_with, contains_seq};

verus! {

/// How aggressively to emit color, from the global `--color` flag.
#[derive(Copy, Clone, PartialEq, Eq, Debug, Default, Structural)]
pub enum ColorMode {
    #[default]
    Auto,
    Always,
    Never,
}

/// What the terminal can render. Variant order is capability order.
#[derive(Copy, Clone, PartialEq, Eq, PartialOrd, Ord, Debug, Structural)]
pub enum ColorProfile {
    Ascii,
    Ansi,
    Ansi256,
    TrueColor,
}

/// Environment access seam so detection stays pure and testable.
pub trait EnvSource {
    fn get(&self, key: &str) -> Option<String>;
}

/// An environment given as name/value pairs; a later pair for the same
/// name wins, as when the pairs are collected into a map.
pub struct MapEnv(pub Vec<(String, String)>);

/// The value of `key` in `pairs`: the last pair naming it.
pub open spec fn env_lookup(pairs: Seq<(String, String)>, key: Seq<char>) -> Option<Seq<char>>
    decreases pairs.len(),
{
    if pairs.len() == 0 {
        None
    } else if pairs.last().0@ == key {
        Some(pairs.last().1@)
    } else {
        env_lookup(pairs.drop_last(), key)
    }
}

/// The view of an optional string.
pub open spec fn opt_view(o: Option<String>) -> Option<Seq<char>> {
    match o {
        Some(s) => Some(s@),
        None => None,
    }
}

impl MapEnv {
    /// The value of `key`, if set.
    pub fn lookup(&self, key: &str) -> (r: Option<String>)
        ensures
            opt_view(r) == env_lookup(self.0@, key@),
    {
        let mut i: usize = self.0.len();
        proof {
            assert(self.0@.take(i as int) =~= self.0@);
        }
        while i > 0
            invariant
                i <= self.0@.len(),
                env_lookup(self.0@, key@) == env_lookup(self.0@.take(i as int), key@),
            decreases i,
        {
            proof {
                assert(self.0@.take(i as int).last() == self.0@[i - 1]);
                assert(self.0@.take(i as int).drop_last() =~= self.0@.take(i - 1));
            }
            if str_eq(self.0[i - 1].0.as_str(), key) {
                return Some(self.0[i - 1].1.clone());
            }
            i -= 1;
        }
        None
    }
}

impl EnvSource for MapEnv {
    fn get(&self, key: &str) -> (r: Option<String>)
        ensures
            opt_view(r) == env_lookup(self.0@, key@),
    {
        self.lookup(key)
    }
}

/// Set, and neither empty nor `0`.
pub open spec fn forced(v: Option<Seq<char>>) -> bool {
    v matches Some(s) && s.len() > 0 && s != "0"@
}

/// Set and not empty.
pub open spec fn set_nonempty(v: Option<Seq<char>>) -> bool {
    v matches Some(s) && s.len() > 0
}

/// What TERM and COLORTERM alone say the terminal can render.
pub open spec fn term_capability_of(env: Seq<(String, String)>) -> ColorProfile {
    let term = match env_lookup(env, "TERM"@) {
        Some(t) => t,
        None => Seq::empty(),
    };
    let from_colorterm: Option<ColorProfile> = match env_lookup(env, "COLORTERM"@) {
        Some(ct) => {
            let l = lowercased(ct);
            if l == "24bit"@ || l == "truecolor"@ {
                if starts_with_seq(term, "screen"@) && env_lookup(env, "TERM_PROGRAM"@) != Some("tmux"@) {
                    Some(ColorProfile::Ansi256)
                } else {
                    Some(ColorProfile::TrueColor)
                }
            } else if l == "yes"@ || l == "true"@ {
                Some(ColorProfile::Ansi256)
            } else {
                None
            }
        },
        None => None,
    };
    if env_lookup(env, "GOOGLE_CLOUD_SHELL"@) == Some("true"@) {
        ColorProfile::TrueColor
    } else if from_colorterm is Some {
        from_colorterm.unwrap()
    } else if term == "alacritty"@ || term == "contour"@ || term == "rio"@ || term == "wezterm"@
        || term == "xterm-ghostty"@ || term == "xterm-kitty"@ {
        ColorProfile::TrueColor
    } else if term == "linux"@ || term == "xterm"@ {
        ColorProfile::Ansi
    } else if contains_seq(term, "256color"@) {
        ColorProfile::Ansi256
    } else if contains_seq(term, "color"@) || contains_seq(term, "ansi"@) {
        ColorProfile::Ansi
    } else {
        ColorProfile::Ascii
    }
}

/// The profile `detect_profile` answers.
pub open spec fn detected(env: Seq<(String, String)>, stream_is_tty: bool) -> ColorProfile {
    let force_on = forced(env_lookup(env, "CLICOLOR_FORCE"@));
    let base = if set_nonempty(env_lookup(env, "CI"@)) || !stream_is_tty {
        ColorProfile::Ascii
    } else {
        term_capability_of(env)
    };
    if set_nonempty(env_lookup(env, "NO_COLOR"@)) {
        ColorProfile::Ascii
    } else if env_lookup(env, "CLICOLOR"@) == Some("0"@) && !force_on {
        ColorProfile::Ascii
    } else if force_on && base == ColorProfile::Ascii {
        ColorProfile::Ansi
    } else {
        base
    }
}

/// The profile `resolve_profile` answers.
pub open spec fn resolved(mode: ColorMode, env: Seq<(String, String)>, is_tty: bool) -> ColorProfile {
    match mode {
        ColorMode::Never => ColorProfile::Ascii,
        ColorMode::Always => if term_capability_of(env) == ColorProfile::Ascii {
            ColorProfile::Ansi
        } else {
            term_capability_of(env)
        },
        ColorMode::Auto => detected(env, is_tty),
    }
}

fn is_set_nonempty(v: &Option<String>) -> (r: bool)
    ensures
        r == set_nonempty(opt_view(*v)),
{
    match v {
        Some(s) => !s.as_str().is_empty(),
        None => false,
    }
}

fn equals(v: &Option<String>, lit: &str) -> (r: bool)
    ensures
        r == (opt_view(*v) == Some(lit@)),
{
    match v {
        Some(s) => str_eq(s.as_str(), lit),
        None => false,
    }
}

/// Termenv-compatible profile detection. `stream_is_tty` is the ttyness
/// of the UI stream.
pub fn detect_profile(env: &MapEnv, stream_is_tty: bool) -> (r: ColorProfile)
    ensures
        r == detected(env.0@, stream_is_tty),
{
    let force = env.lookup("CLICOLOR_FORCE");
    let force_on = match &force {
        Some(v) => !v.as_str().is_empty() && !str_eq(v.as_str(), "0"),
        None => false,
    };
    if is_set_nonempty(&env.lookup("NO_COLOR")) {
        return ColorProfile::Ascii;
    }
    if equals(&env.lookup("CLICOLOR"), "0") && !force_on {
        return ColorProfile::Ascii;
    }
    let profile = base_profile(env, stream_is_tty);
    if force_on && profile == ColorProfile::Ascii {
        return ColorProfile::Ansi;
    }
    profile
}

fn base_profile(env: &MapEnv, stream_is_tty: bool) -> (r: ColorProfile)
    ensures
        r == if set_nonempty(env_lookup(env.0@, "CI"@)) || !stream_is_tty {
            ColorProfile::Ascii
        } else {
            term_capability_of(env.0@)
        },
{
    if is_set_nonempty(&env.lookup("CI")) || !stream_is_tty {
        return ColorProfile::Ascii;
    }
    term_capability(env)
}

/// What TERM/COLORTERM alone say the terminal can render, with no tty or
/// kill-switch gating.
fn term_capability(env: &MapEnv) -> (r: ColorProfile)
    ensures
        r == term_capability_of(env.0@),
{
    if equals(&env.lookup("GOOGLE_CLOUD_SHELL"), "true") {
        return ColorProfile::TrueColor;
    }
    let term = match env.lookup("TERM") {
        Some(t) => t,
        None => String::new(),
    };
    let t = term.as_str();
    match env.lookup("COLORTERM") {
        Some(colorterm) => {
            let l = lowercase(colorterm.as_str());
            let lower = l.as_str();
            if str_eq(lower, "24bit") || str_eq(lower, "truecolor") {
                if str_starts_with(t, "screen") && !equals(&env.lookup("TERM_PROGRAM"), "tmux") {
                    return ColorProfile::Ansi256;
                }
                return ColorProfile::TrueColor;
            }
            if str_eq(lower, "yes") || str_eq(lower, "true") {
                return ColorProfile::Ansi256;
            }
        },
        None => {},
    }
    if str_eq(t, "alacritty") || str_eq(t, "contour") || str_eq(t, "rio") || str_eq(t, "wezterm")
        || str_eq(t, "xterm-ghostty") || str_eq(t, "xterm-kitty") {
        return ColorProfile::TrueColor;
    }
    if str_eq(t, "linux") || str_eq(t, "xterm") {
        return ColorProfile::Ansi;
    }
    if str_contains(t, "256color") {
        ColorProfile::Ansi256
    } else if str_contains(t, "color") || str_contains(t, "ansi") {
        ColorProfile::Ansi
    } else {
        ColorProfile::Ascii
    }
}

/// The profile for a `--color` mode: never is plain; always trusts
/// TERM/COLORTERM at 16 colors at least, ignoring ttyness and the kill
/// switches; auto detects.
pub fn resolve_profile(mode: ColorMode, env: &MapEnv, is_tty: bool) -> (r: ColorProfile)
    ensures
        r == resolved(mode, env.0@, is_tty),
{
    match mode {
        ColorMode::Never => ColorProfile::Ascii,
        ColorMode::Always => {
            let cap = term_capability(env);
            if cap == ColorProfile::Ascii {
                ColorProfile::Ansi
            } else {
                cap
            }
        },
        ColorMode::Auto => detect_profile(env, is_tty),
    }
}

/// `NO_COLOR` wins over everything under auto, `CLICOLOR_FORCE` included;
/// `--color never` is always plain; `--color always` is never plain.
pub proof fn lemma_kill_switches(env: Seq<(String, String)>, tty: bool)
    ensures
        set_nonempty(env_lookup(env, "NO_COLOR"@)) ==> resolved(ColorMode::Auto, env, tty) == ColorProfile::Ascii,
        resolved(ColorMode::Never, env, tty) == ColorProfile::Ascii,
        resolved(ColorMode::Always, env, tty) != ColorProfile::Ascii,
        !tty && !forced(env_lookup(env, "CLICOLOR_FORCE"@)) ==> resolved(ColorMode::Auto, env, tty)
            == ColorProfile::Ascii,
{
}

} // verus!
