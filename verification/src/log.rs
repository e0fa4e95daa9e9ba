//! Log lines: the level tags and the minimum-level filter.

use vstd::prelude::*;

use crate::text::push_str;

verus! {

/// A log line's severity, least severe first.
#[derive(Copy, Clone, PartialEq, Eq, Debug, Structural)]
pub enum LogLevel {
    Debug,
    Info,
    Warn,
    Error,
    Fatal,
}

/// Severity order.
pub open spec fn level_rank(l: LogLevel) -> nat {
    match l {
        LogLevel::Debug => 0,
        LogLevel::Info => 1,
        LogLevel::Warn => 2,
        LogLevel::Error => 3,
        LogLevel::Fatal => 4,
    }
}

/// Severity rises strictly in the order the levels are declared, so the
/// filter keeps a line exactly when its level is at least as severe as the
/// minimum: a fatal line passes every minimum, a debug line only a debug
/// minimum, and no level passes a minimum more severe than itself.
pub proof fn lemma_severity_order()
    ensures
        level_rank(LogLevel::Debug) < level_rank(LogLevel::Info),
        level_rank(LogLevel::Info) < level_rank(LogLevel::Warn),
        level_rank(LogLevel::Warn) < level_rank(LogLevel::Error),
        level_rank(LogLevel::Error) < level_rank(LogLevel::Fatal),
        forall|m: LogLevel| level_rank(LogLevel::Fatal) >= #[trigger] level_rank(m),
        forall|m: LogLevel| #[trigger] level_rank(m) >= level_rank(LogLevel::Debug),
        forall|l: LogLevel, m: LogLevel|
            (#[trigger] level_rank(l) == #[trigger] level_rank(m)) ==> l == m,
{
}

/// The four-character tag of each level.
pub open spec fn tag_of(l: LogLevel) -> Seq<char> {
    match l {
        LogLevel::Debug => "DEBU"@,
        LogLevel::Info => "INFO"@,
        LogLevel::Warn => "WARN"@,
        LogLevel::Error => "ERRO"@,
        LogLevel::Fatal => "FATA"@,
    }
}

fn rank(l: LogLevel) -> (r: u8)
    ensures
        r as nat == level_rank(l),
{
    match l {
        LogLevel::Debug => 0,
        LogLevel::Info => 1,
        LogLevel::Warn => 2,
        LogLevel::Error => 3,
        LogLevel::Fatal => 4,
    }
}

impl LogLevel {
    /// Four-character tag, charmbracelet/log style.
    pub fn tag(self) -> (r: &'static str)
        ensures
            r@ == tag_of(self),
    {
        match self {
            LogLevel::Debug => "DEBU",
            LogLevel::Info => "INFO",
            LogLevel::Warn => "WARN",
            LogLevel::Error => "ERRO",
            LogLevel::Fatal => "FATA",
        }
    }
}

/// Whether a line is written: unleveled lines bypass the minimum-level
/// filter, and a leveled one needs at least the minimum's severity.
pub fn should_log(level: Option<LogLevel>, min: Option<LogLevel>) -> (r: bool)
    ensures
        r == match (level, min) {
            (Some(l), Some(m)) => level_rank(l) >= level_rank(m),
            _ => true,
        },
{
    match (level, min) {
        (Some(l), Some(m)) => rank(l) >= rank(m),
        _ => true,
    }
}

/// The words of a message joined by single spaces.
pub open spec fn spaced(words: Seq<Seq<char>>) -> Seq<char>
    decreases words.len(),
{
    if words.len() == 0 {
        Seq::empty()
    } else if words.len() == 1 {
        words[0]
    } else {
        spaced(words.drop_last()) + " "@ + words.last()
    }
}

/// The unstyled line a log file receives: the stamp, the tag, then the
/// message, each followed by a space.
pub open spec fn plain_line_text(stamp: Option<Seq<char>>, level: Option<LogLevel>, words: Seq<Seq<char>>) -> Seq<char> {
    (match stamp {
        Some(s) => s + " "@,
        None => Seq::empty(),
    }) + (match level {
        Some(l) => tag_of(l) + " "@,
        None => Seq::empty(),
    }) + spaced(words)
}

/// The unstyled line a log file receives.
pub fn plain_line(stamp: Option<&str>, level: Option<LogLevel>, words: &[String]) -> (r: String)
    ensures
        r@ == plain_line_text(
            match stamp {
                Some(s) => Some(s@),
                None => None,
            },
            level,
            crate::text::views(words@),
        ),
{
    let mut r = String::new();
    if let Some(s) = stamp {
        push_str(&mut r, s);
        push_str(&mut r, " ");
    }
    if let Some(l) = level {
        push_str(&mut r, l.tag());
        push_str(&mut r, " ");
    }
    let ghost head = r@;
    let ghost ws = crate::text::views(words@);
    let mut i: usize = 0;
    while i < words.len()
        invariant
            i <= words@.len(),
            ws == crate::text::views(words@),
            r@ == head + spaced(ws.take(i as int)),
        decreases words@.len() - i,
    {
        if i > 0 {
            push_str(&mut r, " ");
        }
        push_str(&mut r, words[i].as_str());
        proof {
            assert(ws.take(i + 1).drop_last() =~= ws.take(i as int));
            if i == 0 {
                assert(ws.take(1) =~= seq![ws[0]]);
            }
        }
        i += 1;
    }
    proof {
        assert(ws.take(words@.len() as int) =~= ws);
        match stamp {
            Some(s) => {
                match level {
                    Some(l) => assert(head =~= s@ + " "@ + tag_of(l) + " "@),
                    None => assert(head =~= s@ + " "@),
                }
            },
            None => {
                match level {
                    Some(l) => assert(head =~= tag_of(l) + " "@),
                    None => assert(head =~= Seq::<char>::empty()),
                }
            },
        }
    }
    r
}

} // verus!
