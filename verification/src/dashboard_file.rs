//! The parsed dashboard declaration and the one path that validates it.
//!
//! | pane `interval` | defaults `interval` | triggers | effective |
//! |---|---|---|---|
//! | a token | any | any | the pane's token |
//! | `"never"` | any | any | none: triggers only |
//! | absent | a token | any | the default's token |
//! | absent | absent | some | none: triggers only |
//! | absent | absent | none | 2s |

use vstd::prelude::*;

use crate::box_model::{parse_sides, sides_error_text, sides_outcome, BorderPreset, Sides, SidesError};
use crate::duration::{interval_ms, parse_interval, IntervalError};
use crate::registry::{
    frame_rows_of, list_ids, node_ids, occurrences, panes_outcome, registry_error_text, Composition, LayoutNode,
    Overflow, PaneBox, PaneWidth, Registry, RegistryError, SourceId, SourceSpec,
};
use crate::text::{
    chars_of, debug_quote, debug_quoted, decimal, decimal_string, parse_usize, parsed_usize,
    push_str, str_eq, string_of, slice_of, trim, trimmed, views,
};
use crate::trigger::{
    lemma_trigger_accepts, parse_trigger, trigger_accepts, trigger_error_text, trigger_outcome,
    TriggerError, TriggerSpec,
};

verus! {

/// A pane's debounce when neither it nor the defaults say otherwise.
pub const DEFAULT_DEBOUNCE_MS: u64 = 250;

/// A pane's interval when nothing is declared and nothing triggers it.
pub const DEFAULT_INTERVAL_MS: u64 = 2000;

/// One pane's declaration (or the defaults block), tokens unparsed.
#[derive(Clone, PartialEq, Eq, Debug, Default)]
pub struct PaneDecl {
    pub name: Option<String>,
    /// Split argv, or one raw script string under `shell`.
    pub command: Option<Vec<String>>,
    pub shell: Option<bool>,
    /// `"5s"` or `"never"`.
    pub interval: Option<String>,
    pub trigger: Option<Vec<String>>,
    pub trigger_debounce: Option<String>,
    pub height: Option<u16>,
    /// `"40"`, `"2fr"` or `"auto"`.
    pub width: Option<String>,
    /// `"keep-top"` or `"keep-bottom"`.
    pub overflow: Option<String>,
    pub border: Option<String>,
    /// `parse_sides` shorthand.
    pub padding: Option<String>,
    pub title: Option<String>,
    pub chrome: Option<bool>,
}

/// A declared layout node: a pane by name, or a row/column of nested
/// nodes.
#[derive(PartialEq, Eq, Debug)]
pub enum LayoutDecl {
    Pane(String),
    Row(Vec<LayoutDecl>),
    Column(Vec<LayoutDecl>),
}

/// The parsed declaration; one validation path turns it into a
/// [`Registry`].
#[derive(PartialEq, Eq, Debug, Default)]
pub struct DashboardFile {
    pub gap: Option<usize>,
    pub row_gap: Option<usize>,
    pub defaults: PaneDecl,
    pub panes: Vec<PaneDecl>,
    /// The declared layout, by pane name; absent stacks every pane in
    /// declaration order.
    pub layout: Option<Vec<LayoutDecl>>,
}

/// Why a declaration cannot run. Every error a pane raises names it.
#[derive(Clone, PartialEq, Eq, Debug)]
pub enum DashboardError {
    NoPanes,
    NameInDefaults,
    /// The pane at this 1-based position has no name.
    Unnamed { number: usize },
    DuplicateName { name: String },
    InheritedShell { pane: String },
    NoCommand { pane: String },
    BadTrigger { pane: String, err: TriggerError },
    BadInterval { pane: String, err: IntervalError },
    NoHeight { pane: String },
    BadWidth { pane: String, token: String },
    BadOverflow { pane: String, token: String },
    BadBorder { pane: String, token: String },
    BadPadding { pane: String, err: SidesError },
    EmptyLayout,
    NeverPlaced { name: String },
    UnknownPane { wanted: String, declared: Vec<String> },
    PlacedTwice { wanted: String },
    EmptyRow,
    EmptyColumn,
    Registry(RegistryError),
}

/// `pane "NAME"`.
pub open spec fn at_text(name: Seq<char>) -> Seq<char> {
    "pane "@ + debug_quoted(name)
}

/// Names joined with `, `.
pub open spec fn comma_joined(names: Seq<Seq<char>>) -> Seq<char>
    decreases names.len(),
{
    if names.len() == 0 {
        Seq::empty()
    } else if names.len() == 1 {
        names[0]
    } else {
        comma_joined(names.drop_last()) + ", "@ + names.last()
    }
}

/// The sentence a declaration is refused with.
pub open spec fn dashboard_error_text(e: DashboardError) -> Seq<char> {
    match e {
        DashboardError::NoPanes => "no panes declared: a dashboard needs at least one pane"@,
        DashboardError::NameInDefaults => "`name` is not a default: give each pane its own name"@,
        DashboardError::Unnamed { number } => "pane #"@ + decimal(number as nat)
            + ": every pane needs a `name`"@,
        DashboardError::DuplicateName { name } => "pane "@ + debug_quoted(name@)
            + " is declared twice: pane names must be unique"@,
        DashboardError::InheritedShell { pane } => at_text(pane@)
            + ": inherits `command` from [defaults] but overrides `shell` \u{2014} the inherited command was read under the defaults' shell mode; declare the pane's own `command`"@,
        DashboardError::NoCommand { pane } => at_text(pane@) + ": needs a `command`"@,
        DashboardError::BadTrigger { pane, err } => at_text(pane@) + ": "@ + trigger_error_text(err),
        DashboardError::BadInterval { pane, err } => at_text(pane@) + ": "@ + "invalid interval "@
            + debug_quoted(err.input@) + ": expected a duration like 500ms, 2s, 1m or 1h30m"@,
        DashboardError::NoHeight { pane } => at_text(pane@)
            + ": needs a `height` \u{2014} declare one on the pane or in [defaults]"@,
        DashboardError::BadWidth { pane, token } => at_text(pane@) + ": invalid width "@
            + debug_quoted(token@) + ": expected CELLS, Nfr, or auto"@,
        DashboardError::BadOverflow { pane, token } => at_text(pane@) + ": unknown overflow "@
            + debug_quoted(token@) + ": expected keep-top or keep-bottom"@,
        DashboardError::BadBorder { pane, token } => at_text(pane@) + ": unknown border "@
            + debug_quoted(token@) + ": expected one of none, rounded, normal, thick, double, ascii"@,
        DashboardError::BadPadding { pane, err } => at_text(pane@) + ": "@ + sides_error_text(err),
        DashboardError::EmptyLayout => "layout is empty: name at least one pane, or omit the layout"@,
        DashboardError::NeverPlaced { name } => "pane "@ + debug_quoted(name@)
            + " is declared but never placed: add it to the layout"@,
        DashboardError::UnknownPane { wanted, declared } => "layout names unknown pane "@
            + debug_quoted(wanted@) + ": declared panes are "@ + comma_joined(views(declared@)),
        DashboardError::PlacedTwice { wanted } => "layout places pane "@ + debug_quoted(wanted@)
            + " twice"@,
        DashboardError::EmptyRow => "layout has an empty row"@,
        DashboardError::EmptyColumn => "layout has an empty column"@,
        DashboardError::Registry(e) => registry_error_text(e),
    }
}

fn comma_join(names: &Vec<String>) -> (r: String)
    ensures
        r@ == comma_joined(views(names@)),
{
    let ghost ns = views(names@);
    let mut out = String::new();
    let mut i: usize = 0;
    while i < names.len()
        invariant
            i <= names@.len(),
            ns == views(names@),
            out@ == comma_joined(ns.take(i as int)),
        decreases names@.len() - i,
    {
        proof {
            assert(ns.take(i + 1).last() == names@[i as int]@);
            if i > 0 {
                assert(ns.take(i + 1).drop_last() =~= ns.take(i as int));
            } else {
                assert(ns.take(0).len() == 0);
            }
        }
        if i > 0 {
            push_str(&mut out, ", ");
        }
        push_str(&mut out, names[i].as_str());
        proof {
            if i == 0 {
                assert(out@ =~= ns.take(1)[0]);
            }
        }
        i += 1;
    }
    proof {
        assert(ns.take(names@.len() as int) =~= ns);
    }
    out
}

impl DashboardError {
    /// The sentence the declaration is refused with.
    pub fn message(&self) -> (r: String)
        ensures
            r@ == dashboard_error_text(*self),
    {
        let mut r = String::new();
        match self {
            DashboardError::NoPanes => push_str(&mut r, "no panes declared: a dashboard needs at least one pane"),
            DashboardError::NameInDefaults => push_str(&mut r, "`name` is not a default: give each pane its own name"),
            DashboardError::Unnamed { number } => {
                push_str(&mut r, "pane #");
                push_str(&mut r, decimal_string(*number).as_str());
                push_str(&mut r, ": every pane needs a `name`");
            },
            DashboardError::DuplicateName { name } => {
                push_str(&mut r, "pane ");
                push_str(&mut r, debug_quote(name.as_str()).as_str());
                push_str(&mut r, " is declared twice: pane names must be unique");
            },
            DashboardError::InheritedShell { pane } => {
                push_at(&mut r, pane);
                push_str(&mut r, ": inherits `command` from [defaults] but overrides `shell` \u{2014} the inherited command was read under the defaults' shell mode; declare the pane's own `command`");
            },
            DashboardError::NoCommand { pane } => {
                push_at(&mut r, pane);
                push_str(&mut r, ": needs a `command`");
            },
            DashboardError::BadTrigger { pane, err } => {
                push_at(&mut r, pane);
                push_str(&mut r, ": ");
                push_str(&mut r, err.message().as_str());
            },
            DashboardError::BadInterval { pane, err } => {
                push_at(&mut r, pane);
                push_str(&mut r, ": ");
                push_str(&mut r, err.message().as_str());
            },
            DashboardError::NoHeight { pane } => {
                push_at(&mut r, pane);
                push_str(&mut r, ": needs a `height` \u{2014} declare one on the pane or in [defaults]");
            },
            DashboardError::BadWidth { pane, token } => {
                push_at(&mut r, pane);
                push_str(&mut r, ": invalid width ");
                push_str(&mut r, debug_quote(token.as_str()).as_str());
                push_str(&mut r, ": expected CELLS, Nfr, or auto");
            },
            DashboardError::BadOverflow { pane, token } => {
                push_at(&mut r, pane);
                push_str(&mut r, ": unknown overflow ");
                push_str(&mut r, debug_quote(token.as_str()).as_str());
                push_str(&mut r, ": expected keep-top or keep-bottom");
            },
            DashboardError::BadBorder { pane, token } => {
                push_at(&mut r, pane);
                push_str(&mut r, ": unknown border ");
                push_str(&mut r, debug_quote(token.as_str()).as_str());
                push_str(&mut r, ": expected one of none, rounded, normal, thick, double, ascii");
            },
            DashboardError::BadPadding { pane, err } => {
                push_at(&mut r, pane);
                push_str(&mut r, ": ");
                push_str(&mut r, err.message().as_str());
            },
            DashboardError::EmptyLayout => push_str(&mut r, "layout is empty: name at least one pane, or omit the layout"),
            DashboardError::NeverPlaced { name } => {
                push_str(&mut r, "pane ");
                push_str(&mut r, debug_quote(name.as_str()).as_str());
                push_str(&mut r, " is declared but never placed: add it to the layout");
            },
            DashboardError::UnknownPane { wanted, declared } => {
                push_str(&mut r, "layout names unknown pane ");
                push_str(&mut r, debug_quote(wanted.as_str()).as_str());
                push_str(&mut r, ": declared panes are ");
                push_str(&mut r, comma_join(declared).as_str());
            },
            DashboardError::PlacedTwice { wanted } => {
                push_str(&mut r, "layout places pane ");
                push_str(&mut r, debug_quote(wanted.as_str()).as_str());
                push_str(&mut r, " twice");
            },
            DashboardError::EmptyRow => push_str(&mut r, "layout has an empty row"),
            DashboardError::EmptyColumn => push_str(&mut r, "layout has an empty column"),
            DashboardError::Registry(e) => push_str(&mut r, e.message().as_str()),
        }
        proof {
            reveal_strlit("");
        }
        r
    }
}

fn push_at(r: &mut String, name: &String)
    ensures
        final(r)@ == old(r)@ + at_text(name@),
{
    push_str(r, "pane ");
    push_str(r, debug_quote(name.as_str()).as_str());
}

// ---------------------------------------------------------------------
// Resolving one pane.

/// The pane's value, or the defaults'.
pub open spec fn pick<T>(a: Option<T>, b: Option<T>) -> Option<T> {
    match a {
        Some(x) => Some(x),
        None => b,
    }
}

/// The view of an optional string.
pub open spec fn opt_str(o: Option<String>) -> Option<Seq<char>> {
    match o {
        Some(s) => Some(s@),
        None => None,
    }
}

/// The view of an optional word list.
pub open spec fn opt_words(o: Option<Vec<String>>) -> Option<Seq<Seq<char>>> {
    match o {
        Some(v) => Some(views(v@)),
        None => None,
    }
}

/// The shell mode in force for a pane.
pub open spec fn shell_of(d: PaneDecl, df: PaneDecl) -> bool {
    match pick(d.shell, df.shell) {
        Some(b) => b,
        None => false,
    }
}

/// A pane that inherits the defaults' command while flipping `shell`.
pub open spec fn flips_inherited_shell(d: PaneDecl, df: PaneDecl) -> bool {
    d.command is None && shell_of(d, df) != match df.shell {
        Some(b) => b,
        None => false,
    }
}

/// The pane's trigger specs, as written.
pub open spec fn trigger_tokens(d: PaneDecl, df: PaneDecl) -> Seq<Seq<char>> {
    match opt_words(pick(d.trigger, df.trigger)) {
        Some(v) => v,
        None => Seq::empty(),
    }
}

/// The first trigger spec `parse_trigger` refuses.
pub open spec fn first_rejected(ts: Seq<Seq<char>>, from: nat) -> Option<int>
    decreases ts.len() - from,
{
    if from >= ts.len() {
        None
    } else if !trigger_accepts(ts[from as int]) {
        Some(from as int)
    } else {
        first_rejected(ts, from + 1)
    }
}

/// Whether an interval token is refused (`"never"` aside).
pub open spec fn interval_refused(t: Option<Seq<char>>, never_ok: bool) -> bool {
    match t {
        Some(t) => !(never_ok && t == "never"@) && interval_ms(t) is None,
        None => false,
    }
}

/// The effective interval.
pub open spec fn interval_of(t: Option<Seq<char>>, triggered: bool) -> Option<u64> {
    match t {
        Some(t) => if t == "never"@ {
            None
        } else {
            interval_ms(t)
        },
        None => if triggered {
            None
        } else {
            Some(DEFAULT_INTERVAL_MS)
        },
    }
}

/// The effective debounce.
pub open spec fn debounce_of(t: Option<Seq<char>>) -> u64 {
    match t {
        Some(t) => interval_ms(t).unwrap(),
        None => DEFAULT_DEBOUNCE_MS,
    }
}

/// How `resolve_source` answers: the first refusal in the order the
/// checks run, or the source the declaration describes.
pub open spec fn source_outcome(d: PaneDecl, df: PaneDecl, name: Seq<char>, r: Result<SourceSpec, DashboardError>) -> bool {
    let cmd = opt_words(pick(d.command, df.command));
    let ts = trigger_tokens(d, df);
    let it = opt_str(pick(d.interval, df.interval));
    let dt = opt_str(pick(d.trigger_debounce, df.trigger_debounce));
    if flips_inherited_shell(d, df) {
        r matches Err(DashboardError::InheritedShell { pane }) && pane@ == name
    } else if cmd is None || cmd.unwrap().len() == 0 {
        r matches Err(DashboardError::NoCommand { pane }) && pane@ == name
    } else if first_rejected(ts, 0) is Some {
        r matches Err(DashboardError::BadTrigger { pane, err }) && pane@ == name && trigger_outcome(
            ts[first_rejected(ts, 0).unwrap()],
            Err(err),
        )
    } else if interval_refused(it, true) {
        r matches Err(DashboardError::BadInterval { pane, err }) && pane@ == name && err.input@
            == it.unwrap()
    } else if interval_refused(dt, false) {
        r matches Err(DashboardError::BadInterval { pane, err }) && pane@ == name && err.input@
            == dt.unwrap()
    } else {
        r matches Ok(s) && s.name@ == name && views(s.command@) == cmd.unwrap() && s.shell
            == shell_of(d, df) && s.triggers@.len() == ts.len() && (forall|i: int|
            0 <= i < ts.len() ==> trigger_outcome(ts[i], Ok(#[trigger] s.triggers@[i]))) && s.interval
            == interval_of(it, ts.len() > 0) && s.debounce == debounce_of(dt)
    }
}

fn pick_str<'a>(a: &'a Option<String>, b: &'a Option<String>) -> (r: Option<&'a str>)
    ensures
        match r {
            Some(s) => opt_str(pick(*a, *b)) == Some(s@),
            None => opt_str(pick(*a, *b)) is None,
        },
{
    match a {
        Some(s) => Some(s.as_str()),
        None => match b {
            Some(s) => Some(s.as_str()),
            None => None,
        },
    }
}

pub(crate) fn copy_words(v: &Vec<String>) -> (r: Vec<String>)
    ensures
        views(r@) == views(v@),
{
    let mut out: Vec<String> = Vec::new();
    let mut i: usize = 0;
    while i < v.len()
        invariant
            i <= v@.len(),
            views(out@) == views(v@).take(i as int),
        decreases v@.len() - i,
    {
        let w = v[i].clone();
        proof {
            assert(views(out@.push(w)) =~= views(out@).push(w@));
            assert(views(v@).take(i + 1) =~= views(v@).take(i as int).push(v@[i as int]@));
        }
        out.push(w);
        i += 1;
    }
    proof {
        assert(views(v@).take(v@.len() as int) =~= views(v@));
    }
    out
}

fn resolve_source(d: &PaneDecl, df: &PaneDecl, name: &str) -> (r: Result<SourceSpec, DashboardError>)
    ensures
        source_outcome(*d, *df, name@, r),
{
    let shell = match d.shell {
        Some(b) => b,
        None => match df.shell {
            Some(b) => b,
            None => false,
        },
    };
    let default_shell = match df.shell {
        Some(b) => b,
        None => false,
    };
    if d.command.is_none() && shell != default_shell {
        return Err(DashboardError::InheritedShell { pane: name.to_owned() });
    }
    let command: Vec<String> = match &d.command {
        Some(c) => copy_words(c),
        None => match &df.command {
            Some(c) => copy_words(c),
            None => {
                return Err(DashboardError::NoCommand { pane: name.to_owned() });
            },
        },
    };
    if command.len() == 0 {
        return Err(DashboardError::NoCommand { pane: name.to_owned() });
    }
    let empty: Vec<String> = Vec::new();
    let tokens: &Vec<String> = match &d.trigger {
        Some(t) => t,
        None => match &df.trigger {
            Some(t) => t,
            None => &empty,
        },
    };
    let ghost ts = trigger_tokens(*d, *df);
    proof {
        assert(views(tokens@) == ts);
        assert(views(command@) == opt_words(pick(d.command, df.command)).unwrap());
    }
    let mut triggers: Vec<TriggerSpec> = Vec::new();
    let mut i: usize = 0;
    while i < tokens.len()
        invariant
            i <= tokens@.len(),
            ts == views(tokens@),
            ts == trigger_tokens(*d, *df),
            triggers@.len() == i,
            forall|k: int| 0 <= k < i ==> trigger_outcome(ts[k], Ok(#[trigger] triggers@[k])),
            forall|k: int| 0 <= k < i ==> trigger_accepts(#[trigger] ts[k]),
            first_rejected(ts, 0) == first_rejected(ts, i as nat),
            !flips_inherited_shell(*d, *df),
            opt_words(pick(d.command, df.command)) is Some,
            opt_words(pick(d.command, df.command)).unwrap().len() > 0,
        decreases tokens@.len() - i,
    {
        let t = parse_trigger(tokens[i].as_str());
        proof {
            lemma_trigger_accepts(ts[i as int], t);
        }
        match t {
            Ok(spec) => {
                triggers.push(spec);
            },
            Err(err) => {
                proof {
                    assert(ts[i as int] == tokens@[i as int]@);
                    assert(trigger_outcome(ts[i as int], Err(err)));
                    assert(!trigger_accepts(ts[i as int]));
                    assert(first_rejected(ts, i as nat) == Some(i as int));
                    assert(first_rejected(ts, 0).unwrap() == i);
                }
                return Err(DashboardError::BadTrigger { pane: name.to_owned(), err });
            },
        }
        i += 1;
    }
    proof {
        assert(first_rejected(ts, i as nat) is None);
    }
    let it = pick_str(&d.interval, &df.interval);
    let interval: Option<u64> = match it {
        Some(t) => {
            if str_eq(t, "never") {
                None
            } else {
                match parse_interval(t) {
                    Ok(ms) => Some(ms),
                    Err(err) => {
                        return Err(DashboardError::BadInterval { pane: name.to_owned(), err });
                    },
                }
            }
        },
        None => if triggers.len() == 0 {
            Some(DEFAULT_INTERVAL_MS)
        } else {
            None
        },
    };
    let dt = pick_str(&d.trigger_debounce, &df.trigger_debounce);
    let debounce: u64 = match dt {
        Some(t) => match parse_interval(t) {
            Ok(ms) => ms,
            Err(err) => {
                return Err(DashboardError::BadInterval { pane: name.to_owned(), err });
            },
        },
        None => DEFAULT_DEBOUNCE_MS,
    };
    Ok(SourceSpec { name: name.to_owned(), command, shell, interval, triggers, debounce })
}

/// The width a token declares: `"40"` exact cells, `"2fr"` a share;
/// `None` when it is neither.
pub open spec fn width_of_token(t: Seq<char>) -> Option<PaneWidth> {
    if t.len() >= 2 && t.skip(t.len() - 2) == "fr"@ {
        match parsed_usize(trimmed(t.take(t.len() - 2))) {
            Some(n) => if n <= 0xffff {
                Some(PaneWidth::Weight(n as u16))
            } else {
                None
            },
            None => None,
        }
    } else {
        match parsed_usize(t) {
            Some(n) => if n <= 0xffff {
                Some(PaneWidth::Cells(n as u16))
            } else {
                None
            },
            None => None,
        }
    }
}

/// ASCII letters compared without case.
pub open spec fn ascii_fold(c: char) -> char {
    if 'A' <= c && c <= 'Z' {
        ((c as u32) + 32) as char
    } else {
        c
    }
}

/// Equal up to ASCII case.
pub open spec fn eq_ignore_ascii_case(a: Seq<char>, b: Seq<char>) -> bool {
    a.len() == b.len() && forall|i: int| 0 <= i < a.len() ==> ascii_fold(#[trigger] a[i]) == ascii_fold(b[i])
}

/// The preset a border word names, ASCII case ignored.
pub open spec fn border_named(t: Seq<char>) -> Option<BorderPreset> {
    if eq_ignore_ascii_case(t, "none"@) {
        Some(BorderPreset::NoBorder)
    } else if eq_ignore_ascii_case(t, "rounded"@) {
        Some(BorderPreset::Rounded)
    } else if eq_ignore_ascii_case(t, "normal"@) {
        Some(BorderPreset::Normal)
    } else if eq_ignore_ascii_case(t, "thick"@) {
        Some(BorderPreset::Thick)
    } else if eq_ignore_ascii_case(t, "double"@) {
        Some(BorderPreset::Double)
    } else if eq_ignore_ascii_case(t, "ascii"@) {
        Some(BorderPreset::Ascii)
    } else {
        None
    }
}

/// The declared width, `None` when its token is refused.
pub open spec fn width_choice(d: PaneDecl, df: PaneDecl) -> Option<PaneWidth> {
    match opt_str(pick(d.width, df.width)) {
        None => Some(PaneWidth::Weight(1)),
        Some(t) => if t == "auto"@ {
            Some(PaneWidth::Weight(1))
        } else {
            width_of_token(t)
        },
    }
}

/// The declared overflow, `None` when its token is refused.
pub open spec fn overflow_choice(d: PaneDecl, df: PaneDecl) -> Option<Overflow> {
    match opt_str(pick(d.overflow, df.overflow)) {
        None => Some(Overflow::KeepTop),
        Some(t) => if t == "keep-top"@ {
            Some(Overflow::KeepTop)
        } else if t == "keep-bottom"@ {
            Some(Overflow::KeepBottom)
        } else {
            None
        },
    }
}

/// The declared border, `None` when its token is refused.
pub open spec fn border_choice(d: PaneDecl, df: PaneDecl) -> Option<BorderPreset> {
    match opt_str(pick(d.border, df.border)) {
        None => Some(BorderPreset::NoBorder),
        Some(t) => border_named(t),
    }
}

/// Whether the declared padding is refused.
pub open spec fn padding_refused(d: PaneDecl, df: PaneDecl) -> bool {
    let pt = opt_str(pick(d.padding, df.padding));
    pt is Some && (exists|e: SidesError| sides_outcome(pt.unwrap(), Err(e)))
}

/// How `resolve_box` answers.
pub open spec fn box_outcome(d: PaneDecl, df: PaneDecl, name: Seq<char>, r: Result<PaneBox, DashboardError>) -> bool {
    let wt = opt_str(pick(d.width, df.width));
    let width = width_choice(d, df);
    let ot = opt_str(pick(d.overflow, df.overflow));
    let overflow = overflow_choice(d, df);
    let bt = opt_str(pick(d.border, df.border));
    let border = border_choice(d, df);
    let pt = opt_str(pick(d.padding, df.padding));
    if pick(d.height, df.height) is None {
        r matches Err(DashboardError::NoHeight { pane }) && pane@ == name
    } else if width is None {
        r matches Err(DashboardError::BadWidth { pane, token }) && pane@ == name && token@ == wt.unwrap()
    } else if overflow is None {
        r matches Err(DashboardError::BadOverflow { pane, token }) && pane@ == name && token@ == ot.unwrap()
    } else if border is None {
        r matches Err(DashboardError::BadBorder { pane, token }) && pane@ == name && token@ == bt.unwrap()
    } else if padding_refused(d, df) {
        r matches Err(DashboardError::BadPadding { pane, err }) && pane@ == name && sides_outcome(
            pt.unwrap(),
            Err(err),
        )
    } else {
        r matches Ok(b) && b.height == pick(d.height, df.height).unwrap() && b.width == width.unwrap()
            && b.overflow == overflow.unwrap() && b.border == border.unwrap() && (match pt {
            Some(t) => sides_outcome(t, Ok(b.padding)),
            None => b.padding == Sides { top: 0, right: 0, bottom: 0, left: 0 },
        }) && opt_str(b.title) == opt_str(pick(d.title, df.title)) && b.chrome == match pick(
            d.chrome,
            df.chrome,
        ) {
            Some(c) => c,
            None => true,
        }
    }
}

/// `"40"` = exact cells, `"2fr"` = a share of what is left.
fn parse_width(token: &str) -> (r: Option<PaneWidth>)
    ensures
        r == width_of_token(token@),
{
    let v = chars_of(token);
    let n = v.len();
    proof {
        reveal_strlit("fr");
    }
    if n >= 2 && v[n - 2] == 'f' && v[n - 1] == 'r' {
        proof {
            assert(v@.skip(n - 2) =~= "fr"@);
        }
        let head = string_of(slice_of(&v, 0, n - 2));
        let t = trim(head.as_str());
        proof {
            assert(head@ =~= token@.take(n - 2));
        }
        return match parse_usize(t.as_str()) {
            Some(w) => if w <= 0xffff {
                Some(PaneWidth::Weight(w as u16))
            } else {
                None
            },
            None => None,
        };
    }
    proof {
        if n >= 2 {
            assert(token@.skip(n - 2) != "fr"@) by {
                if token@.skip(n - 2) == "fr"@ {
                    assert(token@.skip(n - 2)[0] == v@[n - 2]);
                    assert(token@.skip(n - 2)[1] == v@[n - 1]);
                }
            }
        }
    }
    match parse_usize(token) {
        Some(w) => if w <= 0xffff {
            Some(PaneWidth::Cells(w as u16))
        } else {
            None
        },
        None => None,
    }
}

fn fold_char(c: char) -> (r: char)
    ensures
        r == ascii_fold(c),
{
    if 'A' <= c && c <= 'Z' {
        let b = c as u8;
        (b + 32) as char
    } else {
        c
    }
}

fn same_ignoring_case(a: &str, b: &str) -> (r: bool)
    ensures
        r == eq_ignore_ascii_case(a@, b@),
{
    let x = chars_of(a);
    let y = chars_of(b);
    if x.len() != y.len() {
        return false;
    }
    let mut i: usize = 0;
    while i < x.len()
        invariant
            i <= x@.len(),
            x@ == a@,
            y@ == b@,
            x@.len() == y@.len(),
            forall|k: int| 0 <= k < i ==> ascii_fold(#[trigger] x@[k]) == ascii_fold(y@[k]),
        decreases x@.len() - i,
    {
        if fold_char(x[i]) != fold_char(y[i]) {
            return false;
        }
        i += 1;
    }
    true
}

/// The preset a border word names; the words are the flag's.
fn parse_border(token: &str) -> (r: Option<BorderPreset>)
    ensures
        r == border_named(token@),
{
    if same_ignoring_case(token, "none") {
        Some(BorderPreset::NoBorder)
    } else if same_ignoring_case(token, "rounded") {
        Some(BorderPreset::Rounded)
    } else if same_ignoring_case(token, "normal") {
        Some(BorderPreset::Normal)
    } else if same_ignoring_case(token, "thick") {
        Some(BorderPreset::Thick)
    } else if same_ignoring_case(token, "double") {
        Some(BorderPreset::Double)
    } else if same_ignoring_case(token, "ascii") {
        Some(BorderPreset::Ascii)
    } else {
        None
    }
}

fn resolve_box(d: &PaneDecl, df: &PaneDecl, name: &str) -> (r: Result<PaneBox, DashboardError>)
    ensures
        box_outcome(*d, *df, name@, r),
{
    let height = match d.height {
        Some(h) => h,
        None => match df.height {
            Some(h) => h,
            None => {
                return Err(DashboardError::NoHeight { pane: name.to_owned() });
            },
        },
    };
    let width = match pick_str(&d.width, &df.width) {
        None => PaneWidth::Weight(1),
        Some(t) => if str_eq(t, "auto") {
            PaneWidth::Weight(1)
        } else {
            match parse_width(t) {
                Some(w) => w,
                None => {
                    return Err(DashboardError::BadWidth { pane: name.to_owned(), token: t.to_owned() });
                },
            }
        },
    };
    let overflow = match pick_str(&d.overflow, &df.overflow) {
        None => Overflow::KeepTop,
        Some(t) => if str_eq(t, "keep-top") {
            Overflow::KeepTop
        } else if str_eq(t, "keep-bottom") {
            Overflow::KeepBottom
        } else {
            return Err(DashboardError::BadOverflow { pane: name.to_owned(), token: t.to_owned() });
        },
    };
    let border = match pick_str(&d.border, &df.border) {
        None => BorderPreset::NoBorder,
        Some(t) => match parse_border(t) {
            Some(b) => b,
            None => {
                return Err(DashboardError::BadBorder { pane: name.to_owned(), token: t.to_owned() });
            },
        },
    };
    let padding = match pick_str(&d.padding, &df.padding) {
        None => Sides { top: 0, right: 0, bottom: 0, left: 0 },
        Some(t) => match parse_sides(t) {
            Ok(s) => {
                proof {
                    if exists|e: SidesError| sides_outcome(t@, Err(e)) {
                        let e = choose|e: SidesError| sides_outcome(t@, Err(e));
                        lemma_sides_outcome_exclusive(t@, s, e);
                    }
                }
                s
            },
            Err(err) => {
                proof {
                    assert(opt_str(pick(d.padding, df.padding)) == Some(t@));
                    assert(sides_outcome(opt_str(pick(d.padding, df.padding)).unwrap(), Err(err)));
                    assert(padding_refused(*d, *df));
                }
                return Err(DashboardError::BadPadding { pane: name.to_owned(), err });
            },
        },
    };
    let title = match &d.title {
        Some(t) => Some(t.clone()),
        None => match &df.title {
            Some(t) => Some(t.clone()),
            None => None,
        },
    };
    let chrome = match d.chrome {
        Some(c) => c,
        None => match df.chrome {
            Some(c) => c,
            None => true,
        },
    };
    Ok(PaneBox { height, width, overflow, border, padding, title, chrome })
}

proof fn lemma_sides_outcome_exclusive(t: Seq<char>, s: Sides, e: SidesError)
    requires
        sides_outcome(t, Ok(s)),
    ensures
        !sides_outcome(t, Err(e)),
{
}

// ---------------------------------------------------------------------
// Names.

/// Whether the pane at `i` is unnamed or repeats an earlier name.
pub open spec fn name_problem(panes: Seq<PaneDecl>, i: int) -> bool {
    panes[i].name is None || exists|j: int|
        0 <= j < i && #[trigger] opt_str(panes[j].name) == opt_str(panes[i].name)
}

/// The first pane whose name is missing or repeated.
pub open spec fn first_name_problem(panes: Seq<PaneDecl>, from: nat) -> Option<int>
    decreases panes.len() - from,
{
    if from >= panes.len() {
        None
    } else if name_problem(panes, from as int) {
        Some(from as int)
    } else {
        first_name_problem(panes, from + 1)
    }
}

/// Every pane's name, in declaration order.
pub open spec fn pane_name_list(panes: Seq<PaneDecl>) -> Seq<Seq<char>> {
    panes.map_values(|p: PaneDecl| opt_str(p.name).unwrap())
}

/// How `pane_names` answers.
pub open spec fn names_outcome(panes: Seq<PaneDecl>, r: Result<Vec<String>, DashboardError>) -> bool {
    match first_name_problem(panes, 0) {
        Some(i) => if panes[i].name is None {
            r matches Err(DashboardError::Unnamed { number }) && number == i + 1
        } else {
            r matches Err(DashboardError::DuplicateName { name }) && name@ == opt_str(panes[i].name).unwrap()
        },
        None => r matches Ok(ns) && views(ns@) == pane_name_list(panes),
    }
}

/// Every pane's name, in declaration order: names are the file's identity
/// for a source.
fn pane_names(panes: &Vec<PaneDecl>) -> (r: Result<Vec<String>, DashboardError>)
    ensures
        names_outcome(panes@, r),
{
    let mut names: Vec<String> = Vec::new();
    let mut i: usize = 0;
    while i < panes.len()
        invariant
            i <= panes@.len(),
            names@.len() == i,
            forall|k: int| 0 <= k < i ==> #[trigger] names@[k]@ == opt_str(panes@[k].name).unwrap(),
            forall|k: int| 0 <= k < i ==> (#[trigger] panes@[k]).name is Some,
            first_name_problem(panes@, 0) == first_name_problem(panes@, i as nat),
        decreases panes@.len() - i,
    {
        let name = match &panes[i].name {
            Some(n) => n,
            None => {
                proof {
                    assert(name_problem(panes@, i as int));
                }
                return Err(DashboardError::Unnamed { number: i + 1 });
            },
        };
        let mut j: usize = 0;
        while j < names.len()
            invariant
                j <= names@.len(),
                names@.len() == i,
                i < panes@.len(),
                panes@[i as int].name == Some(*name),
                forall|k: int| 0 <= k < i ==> #[trigger] names@[k]@ == opt_str(panes@[k].name).unwrap(),
                forall|k: int| 0 <= k < i ==> (#[trigger] panes@[k]).name is Some,
                forall|k: int| 0 <= k < j ==> opt_str(#[trigger] panes@[k].name) != opt_str(panes@[i as int].name),
                first_name_problem(panes@, 0) == first_name_problem(panes@, i as nat),
            decreases names@.len() - j,
        {
            if str_eq(names[j].as_str(), name.as_str()) {
                proof {
                    assert(opt_str(panes@[j as int].name) == opt_str(panes@[i as int].name));
                    assert(name_problem(panes@, i as int));
                }
                return Err(DashboardError::DuplicateName { name: name.clone() });
            }
            j += 1;
        }
        proof {
            assert(!name_problem(panes@, i as int));
        }
        names.push(name.clone());
        i += 1;
    }
    proof {
        assert(views(names@) =~= pane_name_list(panes@));
    }
    Ok(names)
}

// ---------------------------------------------------------------------
// The layout.

/// One step of walking a declared layout, depth first.
pub enum LayoutEvent {
    /// A pane named.
    Name(Seq<char>),
    EmptyRow,
    EmptyColumn,
}

/// Why a layout walk stopped.
pub enum LayoutFault {
    Unknown(Seq<char>),
    Twice(Seq<char>),
    EmptyRow,
    EmptyColumn,
}

/// A declaration's events, depth first, left to right.
pub open spec fn decl_events(d: LayoutDecl) -> Seq<LayoutEvent>
    decreases d, 0nat,
{
    match d {
        LayoutDecl::Pane(w) => seq![LayoutEvent::Name(w@)],
        LayoutDecl::Row(c) => if c@.len() == 0 {
            seq![LayoutEvent::EmptyRow]
        } else {
            list_events(c@, 0)
        },
        LayoutDecl::Column(c) => if c@.len() == 0 {
            seq![LayoutEvent::EmptyColumn]
        } else {
            list_events(c@, 0)
        },
    }
}

/// The events of `c[i..]`.
pub open spec fn list_events(c: Seq<LayoutDecl>, i: int) -> Seq<LayoutEvent>
    decreases c, c.len() - i,
{
    if i < 0 || i >= c.len() {
        Seq::empty()
    } else {
        decl_events(c[i]) + list_events(c, i + 1)
    }
}

/// The first index of `w` among the names.
pub open spec fn index_of(names: Seq<Seq<char>>, w: Seq<char>) -> Option<nat>
    decreases names.len(),
{
    if names.len() == 0 {
        None
    } else {
        match index_of(names.drop_last(), w) {
            Some(i) => Some(i),
            None => if names.last() == w {
                Some((names.len() - 1) as nat)
            } else {
                None
            },
        }
    }
}

/// One event against the panes placed so far.
pub open spec fn step_event(names: Seq<Seq<char>>, placed: Seq<bool>, e: LayoutEvent) -> Result<Seq<bool>, LayoutFault> {
    match e {
        LayoutEvent::Name(w) => match index_of(names, w) {
            None => Err(LayoutFault::Unknown(w)),
            Some(i) => if placed[i as int] {
                Err(LayoutFault::Twice(w))
            } else {
                Ok(placed.update(i as int, true))
            },
        },
        LayoutEvent::EmptyRow => Err(LayoutFault::EmptyRow),
        LayoutEvent::EmptyColumn => Err(LayoutFault::EmptyColumn),
    }
}

/// The events in order, stopping at the first fault.
pub open spec fn run_events(names: Seq<Seq<char>>, placed: Seq<bool>, events: Seq<LayoutEvent>) -> Result<Seq<bool>, LayoutFault>
    decreases events.len(),
{
    if events.len() == 0 {
        Ok(placed)
    } else {
        match run_events(names, placed, events.drop_last()) {
            Err(f) => Err(f),
            Ok(p) => step_event(names, p, events.last()),
        }
    }
}

/// The error a fault is reported with.
pub open spec fn fault_reported(e: DashboardError, f: LayoutFault, names: Seq<Seq<char>>) -> bool {
    match f {
        LayoutFault::Unknown(w) => e matches DashboardError::UnknownPane { wanted, declared } && wanted@ == w
            && views(declared@) == names,
        LayoutFault::Twice(w) => e matches DashboardError::PlacedTwice { wanted } && wanted@ == w,
        LayoutFault::EmptyRow => e == DashboardError::EmptyRow,
        LayoutFault::EmptyColumn => e == DashboardError::EmptyColumn,
    }
}

/// A resolved node has the declaration's shape, names replaced by ids.
pub open spec fn node_matches(n: LayoutNode, d: LayoutDecl, names: Seq<Seq<char>>) -> bool
    decreases d, 0nat,
{
    match (n, d) {
        (LayoutNode::Pane(id), LayoutDecl::Pane(w)) => index_of(names, w@) == Some(id.0 as nat),
        (LayoutNode::Row(c), LayoutDecl::Row(e)) => c@.len() == e@.len() && list_matches(c@, e@, 0, names),
        (LayoutNode::Column(c), LayoutDecl::Column(e)) => c@.len() == e@.len() && list_matches(c@, e@, 0, names),
        _ => false,
    }
}

/// `c[i..]` matches `e[i..]` element by element.
pub open spec fn list_matches(c: Seq<LayoutNode>, e: Seq<LayoutDecl>, i: int, names: Seq<Seq<char>>) -> bool
    decreases e, e.len() - i,
{
    if i < 0 || i >= e.len() {
        true
    } else {
        i < c.len() && node_matches(c[i], e[i], names) && list_matches(c, e, i + 1, names)
    }
}

proof fn lemma_run_concat(names: Seq<Seq<char>>, placed: Seq<bool>, a: Seq<LayoutEvent>, b: Seq<LayoutEvent>)
    ensures
        run_events(names, placed, a + b) == match run_events(names, placed, a) {
            Err(f) => Err(f),
            Ok(q) => run_events(names, q, b),
        },
    decreases b.len(),
{
    if b.len() == 0 {
        assert(a + b =~= a);
    } else {
        assert((a + b).drop_last() =~= a + b.drop_last());
        lemma_run_concat(names, placed, a, b.drop_last());
    }
}

proof fn lemma_index_bound(names: Seq<Seq<char>>, w: Seq<char>)
    ensures
        index_of(names, w) matches Some(i) ==> i < names.len() && names[i as int] == w,
    decreases names.len(),
{
    if names.len() > 0 {
        lemma_index_bound(names.drop_last(), w);
    }
}

proof fn lemma_run_keeps_len(names: Seq<Seq<char>>, placed: Seq<bool>, events: Seq<LayoutEvent>)
    requires
        placed.len() == names.len(),
    ensures
        run_events(names, placed, events) matches Ok(p) ==> p.len() == names.len(),
    decreases events.len(),
{
    if events.len() > 0 {
        lemma_run_keeps_len(names, placed, events.drop_last());
        if let Ok(p) = run_events(names, placed, events.drop_last()) {
            if let LayoutEvent::Name(w) = events.last() {
                lemma_index_bound(names, w);
            }
        }
    }
}

/// The position of `w` among the names.
fn find_name(names: &Vec<String>, w: &str) -> (r: Option<usize>)
    ensures
        match index_of(views(names@), w@) {
            Some(i) => r == Some(i as usize),
            None => r is None,
        },
{
    let ghost ns = views(names@);
    let mut i: usize = 0;
    while i < names.len()
        invariant
            i <= names@.len(),
            ns == views(names@),
            index_of(ns.take(i as int), w@) is None,
        decreases names@.len() - i,
    {
        proof {
            assert(ns.take(i + 1).drop_last() =~= ns.take(i as int));
            assert(ns.take(i + 1).last() == names@[i as int]@);
        }
        if str_eq(names[i].as_str(), w) {
            proof {
                lemma_index_prefix(ns, (i + 1) as int, w@);
            }
            return Some(i);
        }
        i += 1;
    }
    proof {
        assert(ns.take(names@.len() as int) =~= ns);
    }
    None
}

proof fn lemma_index_prefix(ns: Seq<Seq<char>>, k: int, w: Seq<char>)
    requires
        0 <= k <= ns.len(),
        index_of(ns.take(k), w) is Some,
    ensures
        index_of(ns, w) == index_of(ns.take(k), w),
    decreases ns.len() - k,
{
    if k < ns.len() {
        assert(ns.take(k + 1).drop_last() =~= ns.take(k));
        lemma_index_prefix(ns, k + 1, w);
    } else {
        assert(ns.take(k) =~= ns);
    }
}

/// Resolve one declared node against the declared names, marking what it
/// places.
#[verifier::spinoff_prover]
fn resolve_node(d: &LayoutDecl, names: &Vec<String>, placed: &mut Vec<bool>) -> (r: Result<LayoutNode, DashboardError>)
    requires
        old(placed)@.len() == names@.len(),
    ensures
        match run_events(views(names@), old(placed)@, decl_events(*d)) {
            Err(f) => r matches Err(e) && fault_reported(e, f, views(names@)),
            Ok(p) => r matches Ok(n) && final(placed)@ == p && node_matches(n, *d, views(names@)),
        },
        final(placed)@.len() == names@.len(),
    decreases d,
{
    let ghost ns = views(names@);
    let ghost start = placed@;
    match d {
        LayoutDecl::Pane(wanted) => {
            proof {
                assert(decl_events(*d) =~= seq![LayoutEvent::Name(wanted@)]);
                assert(seq![LayoutEvent::Name(wanted@)].drop_last() =~= Seq::<LayoutEvent>::empty());
                reveal_with_fuel(run_events, 2);
                assert(run_events(ns, start, decl_events(*d)) == step_event(ns, start, LayoutEvent::Name(wanted@)));
            }
            let ws = wanted.as_str();
            match find_name(names, ws) {
                None => Err(DashboardError::UnknownPane { wanted: wanted.clone(), declared: copy_words(names) }),
                Some(i) => {
                    proof {
                        lemma_index_bound(ns, wanted@);
                    }
                    if placed[i] {
                        let w = wanted.clone();
                        proof {
                            assert(ns.len() == names.len());
                            assert(index_of(ns, wanted@) == Some(i as nat));
                        }
                        return Err(DashboardError::PlacedTwice { wanted: w });
                    }
                    placed.set(i, true);
                    Ok(LayoutNode::Pane(SourceId(i)))
                },
            }
        },
        LayoutDecl::Row(cells) | LayoutDecl::Column(cells) => {
            let is_row = match d {
                LayoutDecl::Row(_) => true,
                _ => false,
            };
            if cells.len() == 0 {
                proof {
                    assert(seq![LayoutEvent::EmptyRow].drop_last() =~= Seq::<LayoutEvent>::empty());
                    assert(seq![LayoutEvent::EmptyColumn].drop_last() =~= Seq::<LayoutEvent>::empty());
                    reveal_with_fuel(run_events, 2);
                    if is_row {
                        assert(decl_events(*d) == seq![LayoutEvent::EmptyRow]);
                        assert(run_events(ns, start, decl_events(*d)) == Err::<Seq<bool>, LayoutFault>(LayoutFault::EmptyRow));
                    } else {
                        assert(decl_events(*d) == seq![LayoutEvent::EmptyColumn]);
                        assert(run_events(ns, start, decl_events(*d)) == Err::<Seq<bool>, LayoutFault>(LayoutFault::EmptyColumn));
                    }
                }
                return if is_row {
                    Err(DashboardError::EmptyRow)
                } else {
                    Err(DashboardError::EmptyColumn)
                };
            }
            let ghost c = cells@;
            let ghost p0 = placed@;
            proof {
                assert forall|j: int| 0 <= j < c.len() implies decreases_to!(*d => #[trigger] c[j]) by {
                    assert(decreases_to!(*d => *cells));
                    assert(decreases_to!(*cells => cells@));
                    assert(decreases_to!(cells@ => c[j]));
                }
                assert(decl_events(*d) == list_events(c, 0));
            }
            let mut nodes: Vec<LayoutNode> = Vec::new();
            let mut i: usize = 0;
            while i < cells.len()
                invariant
                    i <= c.len(),
                    c == cells@,
                    c.len() > 0,
                    ns == views(names@),
                    placed@.len() == names@.len(),
                    forall|j: int| 0 <= j < c.len() ==> decreases_to!(*d => #[trigger] c[j]),
                    p0 == start,
                    start == old(placed)@,
                    decl_events(*d) == list_events(c, 0),
                    run_events(ns, p0, list_events(c, 0)) == run_events(ns, placed@, list_events(c, i as int)),
                    nodes@.len() == i,
                    forall|j: int| 0 <= j < i ==> node_matches(#[trigger] nodes@[j], c[j], ns),
                decreases c.len() - i,
            {
                proof {
                    assert(decreases_to!(*d => c[i as int]));
                    assert(list_events(c, i as int) == decl_events(c[i as int]) + list_events(c, i + 1));
                    lemma_run_concat(ns, placed@, decl_events(c[i as int]), list_events(c, i + 1));
                }
                let n = match resolve_node(&cells[i], names, placed) {
                    Ok(n) => n,
                    Err(e) => {
                        return Err(e);
                    },
                };
                nodes.push(n);
                i += 1;
            }
            proof {
                assert(list_events(c, c.len() as int) =~= Seq::<LayoutEvent>::empty());
                lemma_list_matches(nodes@, c, ns, 0);
            }
            if is_row {
                Ok(LayoutNode::Row(nodes))
            } else {
                Ok(LayoutNode::Column(nodes))
            }
        },
    }
}

proof fn lemma_list_matches(n: Seq<LayoutNode>, c: Seq<LayoutDecl>, names: Seq<Seq<char>>, i: int)
    requires
        n.len() == c.len(),
        0 <= i <= c.len(),
        forall|j: int| 0 <= j < c.len() ==> node_matches(#[trigger] n[j], c[j], names),
    ensures
        list_matches(n, c, i, names),
    decreases c.len() - i,
{
    if i < c.len() {
        lemma_list_matches(n, c, names, i + 1);
    }
}

/// The first declared pane the layout never places.
pub open spec fn first_unplaced(placed: Seq<bool>, from: nat) -> Option<int>
    decreases placed.len() - from,
{
    if from >= placed.len() {
        None
    } else if !placed[from as int] {
        Some(from as int)
    } else {
        first_unplaced(placed, from + 1)
    }
}

/// No declared pane placed yet.
pub open spec fn none_placed(n: nat) -> Seq<bool> {
    Seq::new(n, |i: int| false)
}

/// How `resolve_layout` answers: absent, the panes stack in declaration
/// order; declared, the walk's first fault, an empty layout, the first
/// pane never placed, or the tree the declaration describes.
pub open spec fn layout_outcome(items: Option<Seq<LayoutDecl>>, names: Seq<Seq<char>>, r: Result<LayoutNode, DashboardError>) -> bool {
    match items {
        None => r matches Ok(LayoutNode::Column(c)) && c@.len() == names.len() && forall|i: int|
            0 <= i < names.len() ==> #[trigger] c@[i] == LayoutNode::Pane(SourceId(i as usize)),
        Some(items) => match run_events(names, none_placed(names.len()), list_events(items, 0)) {
            Err(f) => r matches Err(e) && fault_reported(e, f, names),
            Ok(p) => if items.len() == 0 {
                r == Err::<LayoutNode, DashboardError>(DashboardError::EmptyLayout)
            } else if first_unplaced(p, 0) is Some {
                r matches Err(DashboardError::NeverPlaced { name }) && name@ == names[first_unplaced(p, 0).unwrap()]
            } else {
                r matches Ok(LayoutNode::Column(c)) && c@.len() == items.len() && list_matches(c@, items, 0, names)
            },
        },
    }
}

/// The pane ids a walk's events name, in order; an empty row or column
/// names none.
pub open spec fn event_ids(names: Seq<Seq<char>>, events: Seq<LayoutEvent>) -> Seq<usize>
    decreases events.len(),
{
    if events.len() == 0 {
        Seq::empty()
    } else {
        let rest = event_ids(names, events.drop_last());
        match events.last() {
            LayoutEvent::Name(w) => match index_of(names, w) {
                Some(i) => rest.push(i as usize),
                None => rest,
            },
            _ => rest,
        }
    }
}

proof fn lemma_event_ids_concat(names: Seq<Seq<char>>, a: Seq<LayoutEvent>, b: Seq<LayoutEvent>)
    ensures
        event_ids(names, a + b) == event_ids(names, a) + event_ids(names, b),
    decreases b.len(),
{
    if b.len() == 0 {
        assert(a + b =~= a);
        assert(event_ids(names, a) + event_ids(names, b) =~= event_ids(names, a));
    } else {
        assert((a + b).drop_last() =~= a + b.drop_last());
        assert((a + b).last() == b.last());
        lemma_event_ids_concat(names, a, b.drop_last());
        match b.last() {
            LayoutEvent::Name(w) => match index_of(names, w) {
                Some(i) => {
                    assert(event_ids(names, a) + event_ids(names, b) =~= (event_ids(names, a) + event_ids(
                        names,
                        b.drop_last(),
                    )).push(i as usize));
                },
                None => {},
            },
            _ => {},
        }
    }
}

/// A resolved node places the panes its declaration names, in order.
proof fn lemma_node_ids_match(n: LayoutNode, d: LayoutDecl, names: Seq<Seq<char>>)
    requires
        node_matches(n, d, names),
    ensures
        node_ids(n) == event_ids(names, decl_events(d)),
    decreases d, 1nat, 0int,
{
    match (n, d) {
        (LayoutNode::Pane(id), LayoutDecl::Pane(w)) => {
            let evs = seq![LayoutEvent::Name(w@)];
            assert(decl_events(d) == evs);
            assert(evs.drop_last() =~= Seq::<LayoutEvent>::empty());
            assert(evs.last() == LayoutEvent::Name(w@));
            assert(index_of(names, w@) == Some(id.0 as nat));
            assert(event_ids(names, evs.drop_last()) == Seq::<usize>::empty());
            assert(event_ids(names, evs) == Seq::<usize>::empty().push(id.0));
            assert(event_ids(names, evs) =~= seq![id.0]);
            assert(node_ids(n) == seq![id.0]);
        },
        (LayoutNode::Row(c), LayoutDecl::Row(e)) => {
            if e@.len() == 0 {
                let evs = seq![LayoutEvent::EmptyRow];
                assert(evs.drop_last() =~= Seq::<LayoutEvent>::empty());
                assert(list_ids(c@, 0) =~= Seq::<usize>::empty());
                assert(decl_events(d) == evs);
                assert(evs.last() == LayoutEvent::EmptyRow);
                assert(event_ids(names, evs.drop_last()) == Seq::<usize>::empty());
                assert(event_ids(names, evs) =~= Seq::<usize>::empty());
            } else {
                assert forall|j: int| 0 <= j < e@.len() implies decreases_to!(d => #[trigger] e@[j]) by {
                    assert(decreases_to!(d => e));
                    assert(decreases_to!(e => e@));
                    assert(decreases_to!(e@ => e@[j]));
                }
                lemma_list_ids_match(c@, e@, 0, names, d);
                assert(node_ids(n) == list_ids(c@, 0));
                assert(decl_events(d) == list_events(e@, 0));
            }
        },
        (LayoutNode::Column(c), LayoutDecl::Column(e)) => {
            if e@.len() == 0 {
                let evs = seq![LayoutEvent::EmptyColumn];
                assert(evs.drop_last() =~= Seq::<LayoutEvent>::empty());
                assert(list_ids(c@, 0) =~= Seq::<usize>::empty());
                assert(decl_events(d) == evs);
                assert(evs.last() == LayoutEvent::EmptyColumn);
                assert(event_ids(names, evs.drop_last()) == Seq::<usize>::empty());
                assert(event_ids(names, evs) =~= Seq::<usize>::empty());
            } else {
                assert forall|j: int| 0 <= j < e@.len() implies decreases_to!(d => #[trigger] e@[j]) by {
                    assert(decreases_to!(d => e));
                    assert(decreases_to!(e => e@));
                    assert(decreases_to!(e@ => e@[j]));
                }
                lemma_list_ids_match(c@, e@, 0, names, d);
                assert(node_ids(n) == list_ids(c@, 0));
                assert(decl_events(d) == list_events(e@, 0));
            }
        },
        _ => {},
    }
}

proof fn lemma_list_ids_match(c: Seq<LayoutNode>, e: Seq<LayoutDecl>, i: int, names: Seq<Seq<char>>, parent: LayoutDecl)
    requires
        c.len() == e.len(),
        0 <= i <= e.len(),
        list_matches(c, e, i, names),
        forall|j: int| 0 <= j < e.len() ==> decreases_to!(parent => #[trigger] e[j]),
    ensures
        list_ids(c, i) == event_ids(names, list_events(e, i)),
    decreases parent, 0nat, e.len() - i,
{
    if i < e.len() {
        assert(decreases_to!(parent => e[i]));
        lemma_node_ids_match(c[i], e[i], names);
        lemma_list_ids_match(c, e, i + 1, names, parent);
        lemma_event_ids_concat(names, decl_events(e[i]), list_events(e, i + 1));
    } else {
        assert(list_events(e, i) =~= Seq::<LayoutEvent>::empty());
    }
}

/// A run that succeeds places each named pane once, each one not yet
/// placed, and nothing else.
proof fn lemma_run_places(names: Seq<Seq<char>>, placed: Seq<bool>, events: Seq<LayoutEvent>)
    requires
        placed.len() == names.len(),
        names.len() <= usize::MAX,
        run_events(names, placed, events) is Ok,
    ensures
        ({
            let p = run_events(names, placed, events)->Ok_0;
            let ids = event_ids(names, events);
            &&& p.len() == names.len()
            &&& ids.no_duplicates()
            &&& forall|k: int| 0 <= k < ids.len() ==> #[trigger] ids[k] < names.len() && !placed[ids[k] as int]
            &&& forall|i: int| 0 <= i < names.len() ==> #[trigger] p[i] == (placed[i] || ids.contains(i as usize))
        }),
    decreases events.len(),
{
    if events.len() == 0 {
    } else {
        let pre = events.drop_last();
        lemma_run_places(names, placed, pre);
        let q = run_events(names, placed, pre)->Ok_0;
        let ids0 = event_ids(names, pre);
        match events.last() {
            LayoutEvent::Name(w) => {
                lemma_index_bound(names, w);
                let i = index_of(names, w).unwrap();
                let ids = ids0.push(i as usize);
                assert(!q[i as int]);
                assert(!ids0.contains(i as usize));
                assert forall|k: int| 0 <= k < ids.len() implies #[trigger] ids[k] < names.len() && !placed[ids[k] as int] by {
                    if k < ids0.len() {
                        assert(ids[k] == ids0[k]);
                    }
                }
                assert forall|a: int, b: int| 0 <= a < b < ids.len() implies ids[a] != ids[b] by {
                    if b == ids.len() - 1 {
                        assert(ids0.contains(ids[a]));
                    } else {
                        assert(ids[a] == ids0[a] && ids[b] == ids0[b]);
                    }
                }
                let p = q.update(i as int, true);
                assert forall|x: int| 0 <= x < names.len() implies #[trigger] p[x] == (placed[x] || ids.contains(x as usize)) by {
                    if ids0.contains(x as usize) {
                        let k = choose|k: int| 0 <= k < ids0.len() && ids0[k] == x as usize;
                        assert(ids[k] == x as usize);
                    }
                    if ids.contains(x as usize) && x != i {
                        let k = choose|k: int| 0 <= k < ids.len() && ids[k] == x as usize;
                        assert(k < ids0.len());
                        assert(ids0[k] == x as usize);
                    }
                    if x == i {
                        assert(ids[ids0.len() as int] == i as usize);
                    }
                }
            },
            _ => {},
        }
    }
}

/// A sequence without repeats whose members all occur in `b` is no
/// longer than `b`.
proof fn lemma_nodup_within<A>(a: Seq<A>, b: Seq<A>)
    requires
        a.no_duplicates(),
        forall|i: int| 0 <= i < a.len() ==> b.contains(#[trigger] a[i]),
    ensures
        a.len() <= b.len(),
{
    a.unique_seq_to_set();
    b.lemma_cardinality_of_set();
    assert(a.to_set().subset_of(b.to_set()));
    vstd::set_lib::lemma_len_subset(a.to_set(), b.to_set());
}

proof fn lemma_first_unplaced_none(placed: Seq<bool>, from: nat)
    requires
        first_unplaced(placed, from) is None,
    ensures
        forall|i: int| from <= i < placed.len() ==> #[trigger] placed[i],
    decreases placed.len() - from,
{
    if from < placed.len() {
        lemma_first_unplaced_none(placed, from + 1);
    }
}

proof fn lemma_stacked_ids(c: Seq<LayoutNode>, i: int)
    requires
        0 <= i <= c.len(),
        forall|k: int| 0 <= k < c.len() ==> #[trigger] c[k] == LayoutNode::Pane(SourceId(k as usize)),
    ensures
        list_ids(c, i) == Seq::new((c.len() - i) as nat, |k: int| (k + i) as usize),
    decreases c.len() - i,
{
    if i < c.len() {
        lemma_stacked_ids(c, i + 1);
        assert(node_ids(c[i]) == seq![i as usize]);
        assert(list_ids(c, i) =~= Seq::new((c.len() - i) as nat, |k: int| (k + i) as usize));
    } else {
        assert(list_ids(c, i) =~= Seq::<usize>::empty());
    }
}

/// A resolved layout places every declared pane exactly once, at any
/// depth: its ids, depth first, are the panes' positions `0..n`, none of
/// them twice.
pub proof fn lemma_layout_places_every_pane_once(
    items: Option<Seq<LayoutDecl>>,
    names: Seq<Seq<char>>,
    r: Result<LayoutNode, DashboardError>,
)
    requires
        layout_outcome(items, names, r),
        r is Ok,
        names.len() <= usize::MAX,
    ensures
        node_ids(r->Ok_0).len() == names.len(),
        node_ids(r->Ok_0).no_duplicates(),
        forall|k: int| 0 <= k < node_ids(r->Ok_0).len() ==> #[trigger] node_ids(r->Ok_0)[k] < names.len(),
        forall|i: usize| i < names.len() ==> #[trigger] node_ids(r->Ok_0).contains(i),
{
    let n = names.len();
    let full = Seq::new(n, |k: int| k as usize);
    match items {
        None => {
            let c = match r->Ok_0 {
                LayoutNode::Column(c) => c@,
                _ => Seq::empty(),
            };
            lemma_stacked_ids(c, 0);
            assert(node_ids(r->Ok_0) =~= full);
            assert forall|i: usize| i < n implies #[trigger] node_ids(r->Ok_0).contains(i) by {
                assert(full[i as int] == i);
            }
        },
        Some(its) => {
            let events = list_events(its, 0);
            let c = match r->Ok_0 {
                LayoutNode::Column(c) => c@,
                _ => Seq::empty(),
            };
            lemma_list_ids_by_events(c, its, names);
            let ids = event_ids(names, events);
            assert(node_ids(r->Ok_0) == ids);
            lemma_run_places(names, none_placed(n), events);
            let p = run_events(names, none_placed(n), events)->Ok_0;
            lemma_first_unplaced_none(p, 0);
            assert forall|i: int| 0 <= i < full.len() implies ids.contains(#[trigger] full[i]) by {
                assert(p[i]);
                assert(!none_placed(n)[i]);
            }
            assert forall|i: int| 0 <= i < ids.len() implies full.contains(#[trigger] ids[i]) by {
                assert(full[ids[i] as int] == ids[i]);
            }
            assert forall|i: usize| i < n implies #[trigger] ids.contains(i) by {
                assert(p[i as int]);
                assert(!none_placed(n)[i as int]);
            }
            assert forall|a: int, b: int| 0 <= a < b < full.len() implies full[a] != full[b] by {}
            lemma_nodup_within(ids, full);
            lemma_nodup_within(full, ids);
        },
    }
}

/// The top-level list of a declared layout places the panes its events
/// name.
proof fn lemma_list_ids_by_events(c: Seq<LayoutNode>, its: Seq<LayoutDecl>, names: Seq<Seq<char>>)
    requires
        c.len() == its.len(),
        list_matches(c, its, 0, names),
    ensures
        list_ids(c, 0) == event_ids(names, list_events(its, 0)),
    decreases its.len(),
{
    lemma_top_list_ids(c, its, 0, names);
}

proof fn lemma_top_list_ids(c: Seq<LayoutNode>, e: Seq<LayoutDecl>, i: int, names: Seq<Seq<char>>)
    requires
        c.len() == e.len(),
        0 <= i <= e.len(),
        list_matches(c, e, i, names),
    ensures
        list_ids(c, i) == event_ids(names, list_events(e, i)),
    decreases e.len() - i,
{
    if i < e.len() {
        lemma_node_ids_match(c[i], e[i], names);
        lemma_top_list_ids(c, e, i + 1, names);
        lemma_event_ids_concat(names, decl_events(e[i]), list_events(e, i + 1));
    } else {
        assert(list_events(e, i) =~= Seq::<LayoutEvent>::empty());
    }
}

/// The declared tree becomes the engine's tree: names resolve to ids, and
/// every declared pane is placed exactly once at any depth.
fn resolve_layout(items: &Option<Vec<LayoutDecl>>, names: &Vec<String>) -> (r: Result<LayoutNode, DashboardError>)
    ensures
        layout_outcome(
            match items {
                Some(v) => Some(v@),
                None => None,
            },
            views(names@),
            r,
        ),
{
    let ghost ns = views(names@);
    let ghost given = match items {
        Some(v) => Some(v@),
        None => None,
    };
    let list = match items {
        None => {
            let mut nodes: Vec<LayoutNode> = Vec::new();
            let mut i: usize = 0;
            while i < names.len()
                invariant
                    i <= names@.len(),
                    nodes@.len() == i,
                    forall|k: int| 0 <= k < i ==> #[trigger] nodes@[k] == LayoutNode::Pane(SourceId(k as usize)),
                decreases names@.len() - i,
            {
                nodes.push(LayoutNode::Pane(SourceId(i)));
                i += 1;
            }
            return Ok(LayoutNode::Column(nodes));
        },
        Some(v) => v,
    };
    let mut placed: Vec<bool> = Vec::new();
    let mut k: usize = 0;
    while k < names.len()
        invariant
            k <= names@.len(),
            placed@ == Seq::new(k as nat, |i: int| false),
        decreases names@.len() - k,
    {
        placed.push(false);
        proof {
            assert(placed@ =~= Seq::new((k + 1) as nat, |i: int| false));
        }
        k += 1;
    }
    let ghost c = list@;
    let ghost p0 = placed@;
    proof {
        assert(p0 =~= none_placed(ns.len()));
    }
    let mut nodes: Vec<LayoutNode> = Vec::new();
    let mut i: usize = 0;
    while i < list.len()
        invariant
            i <= c.len(),
            c == list@,
            ns == views(names@),
            placed@.len() == names@.len(),
            p0 == none_placed(ns.len()),
            given == Some(c),
            given == (match items {
                Some(v) => Some(v@),
                None => None,
            }),
            run_events(ns, p0, list_events(c, 0)) == run_events(ns, placed@, list_events(c, i as int)),
            nodes@.len() == i,
            forall|j: int| 0 <= j < i ==> node_matches(#[trigger] nodes@[j], c[j], ns),
        decreases c.len() - i,
    {
        proof {
            assert(list_events(c, i as int) == decl_events(c[i as int]) + list_events(c, i + 1));
            lemma_run_concat(ns, placed@, decl_events(c[i as int]), list_events(c, i + 1));
        }
        let n = match resolve_node(&list[i], names, &mut placed) {
            Ok(n) => n,
            Err(e) => {
                return Err(e);
            },
        };
        nodes.push(n);
        i += 1;
    }
    proof {
        assert(list_events(c, c.len() as int) =~= Seq::<LayoutEvent>::empty());
        lemma_list_matches(nodes@, c, ns, 0);
    }
    if nodes.len() == 0 {
        return Err(DashboardError::EmptyLayout);
    }
    let mut u: usize = 0;
    while u < placed.len()
        invariant
            u <= placed@.len(),
            placed@.len() == names@.len(),
            ns == views(names@),
            c == list@,
            c.len() > 0,
            p0 == none_placed(ns.len()),
            given == Some(c),
            given == (match items {
                Some(v) => Some(v@),
                None => None,
            }),
            run_events(ns, p0, list_events(c, 0)) == Ok::<Seq<bool>, LayoutFault>(placed@),
            first_unplaced(placed@, 0) == first_unplaced(placed@, u as nat),
        decreases placed@.len() - u,
    {
        if !placed[u] {
            proof {
                assert(first_unplaced(placed@, u as nat) == Some(u as int));
            }
            return Err(DashboardError::NeverPlaced { name: names[u].clone() });
        }
        u += 1;
    }
    Ok(LayoutNode::Column(nodes))
}


// ---------------------------------------------------------------------
// The one validation path.

/// Whether `resolve_source` refuses the pane.
pub open spec fn source_refused(d: PaneDecl, df: PaneDecl) -> bool {
    let cmd = opt_words(pick(d.command, df.command));
    let ts = trigger_tokens(d, df);
    ||| flips_inherited_shell(d, df)
    ||| cmd is None || cmd.unwrap().len() == 0
    ||| first_rejected(ts, 0) is Some
    ||| interval_refused(opt_str(pick(d.interval, df.interval)), true)
    ||| interval_refused(opt_str(pick(d.trigger_debounce, df.trigger_debounce)), false)
}

/// Whether `resolve_box` refuses the pane.
pub open spec fn box_refused(d: PaneDecl, df: PaneDecl) -> bool {
    ||| pick(d.height, df.height) is None
    ||| width_choice(d, df) is None
    ||| overflow_choice(d, df) is None
    ||| border_choice(d, df) is None
    ||| padding_refused(d, df)
}

/// The first pane whose source or box is refused.
pub open spec fn first_refused_pane(panes: Seq<PaneDecl>, df: PaneDecl, from: nat) -> Option<int>
    decreases panes.len() - from,
{
    if from >= panes.len() {
        None
    } else if source_refused(panes[from as int], df) || box_refused(panes[from as int], df) {
        Some(from as int)
    } else {
        first_refused_pane(panes, df, from + 1)
    }
}

/// The declared layout, by view.
pub open spec fn layout_items(l: Option<Vec<LayoutDecl>>) -> Option<Seq<LayoutDecl>> {
    match l {
        Some(v) => Some(v@),
        None => None,
    }
}

/// Whether `resolve_layout` refuses the declared layout.
pub open spec fn layout_refused(items: Option<Seq<LayoutDecl>>, names: Seq<Seq<char>>) -> bool {
    match items {
        None => false,
        Some(it) => match run_events(names, none_placed(names.len()), list_events(it, 0)) {
            Err(_) => true,
            Ok(p) => it.len() == 0 || first_unplaced(p, 0) is Some,
        },
    }
}

/// Every pane resolved: `srcs[i]` and `boxes[i]` are what the pane and the
/// defaults describe.
pub open spec fn all_resolved(
    panes: Seq<PaneDecl>,
    df: PaneDecl,
    names: Seq<Seq<char>>,
    srcs: Seq<SourceSpec>,
    boxes: Seq<PaneBox>,
) -> bool {
    &&& srcs.len() == panes.len()
    &&& boxes.len() == panes.len()
    &&& forall|i: int| 0 <= i < panes.len() ==> source_outcome(panes[i], df, names[i], Ok(#[trigger] srcs[i]))
    &&& forall|i: int| 0 <= i < panes.len() ==> box_outcome(panes[i], df, names[i], Ok(#[trigger] boxes[i]))
}

/// `Some(v)`'s value, else 0.
pub open spec fn or_zero(o: Option<usize>) -> usize {
    match o {
        Some(v) => v,
        None => 0,
    }
}

/// How `into_registry` answers: the first refusal in the order the checks
/// run (no panes, a name among the defaults, a missing or repeated name,
/// then pane by pane its source before its box, then the layout, then the
/// registry's own checks), or the registry the file describes.
pub open spec fn registry_outcome(f: DashboardFile, r: Result<Registry, DashboardError>) -> bool {
    let panes = f.panes@;
    let names = pane_name_list(panes);
    let items = layout_items(f.layout);
    if panes.len() == 0 {
        r == Err::<Registry, DashboardError>(DashboardError::NoPanes)
    } else if f.defaults.name is Some {
        r == Err::<Registry, DashboardError>(DashboardError::NameInDefaults)
    } else if first_name_problem(panes, 0) is Some {
        r matches Err(e) && names_outcome(panes, Err(e))
    } else if first_refused_pane(panes, f.defaults, 0) is Some {
        let i = first_refused_pane(panes, f.defaults, 0).unwrap();
        if source_refused(panes[i], f.defaults) {
            r matches Err(e) && source_outcome(panes[i], f.defaults, names[i], Err(e))
        } else {
            r matches Err(e) && box_outcome(panes[i], f.defaults, names[i], Err(e))
        }
    } else if layout_refused(items, names) {
        r matches Err(e) && layout_outcome(items, names, Err(e))
    } else {
        exists|srcs: Seq<SourceSpec>, boxes: Seq<PaneBox>, node: LayoutNode|
            #![trigger all_resolved(panes, f.defaults, names, srcs, boxes), layout_outcome(items, names, Ok(node))]
            all_resolved(panes, f.defaults, names, srcs, boxes) && layout_outcome(items, names, Ok(node))
                && match r {
                Ok(reg) => panes_outcome(srcs, boxes, node, Ok(())) && reg.sources_view() == srcs
                    && reg.panes_view() == boxes && *reg.composition_view() == (Composition::Panes {
                    layout: node,
                    gap: or_zero(f.gap),
                    row_gap: or_zero(f.row_gap),
                }),
                Err(DashboardError::Registry(re)) => panes_outcome(srcs, boxes, node, Err(re)),
                Err(_) => false,
            }
    }
}

/// A dashboard that validates composes every declared pane exactly once:
/// its layout's ids, depth first, are the sources `0..n`, none twice.
pub proof fn lemma_dashboard_places_every_pane_once(f: DashboardFile, r: Result<Registry, DashboardError>)
    requires
        registry_outcome(f, r),
        r is Ok,
        f.panes@.len() <= usize::MAX,
    ensures
        ({
            let reg = r->Ok_0;
            let n = reg.sources_view().len();
            &&& reg.composition_view() matches Composition::Panes { layout, .. }
            &&& composed_ids(*reg.composition_view()).len() == n
            &&& composed_ids(*reg.composition_view()).no_duplicates()
            &&& forall|k: int|
                0 <= k < n ==> #[trigger] composed_ids(*reg.composition_view())[k] < n
        }),
{
    let panes = f.panes@;
    let names = pane_name_list(panes);
    let items = layout_items(f.layout);
    let (srcs, boxes, node) = choose|srcs: Seq<SourceSpec>, boxes: Seq<PaneBox>, node: LayoutNode|
        #![trigger all_resolved(panes, f.defaults, names, srcs, boxes), layout_outcome(items, names, Ok(node))]
        all_resolved(panes, f.defaults, names, srcs, boxes) && layout_outcome(items, names, Ok(node)) && match r {
            Ok(reg) => panes_outcome(srcs, boxes, node, Ok(())) && reg.sources_view() == srcs && reg.panes_view()
                == boxes && *reg.composition_view() == (Composition::Panes {
                layout: node,
                gap: or_zero(f.gap),
                row_gap: or_zero(f.row_gap),
            }),
            Err(DashboardError::Registry(re)) => panes_outcome(srcs, boxes, node, Err(re)),
            Err(_) => false,
        };
    lemma_layout_places_every_pane_once(items, names, Ok(node));
}

/// The ids a composition's layout places, depth first; a plain one
/// places none.
pub open spec fn composed_ids(c: Composition) -> Seq<usize> {
    match c {
        Composition::Panes { layout, .. } => node_ids(layout),
        Composition::Plain { .. } => Seq::empty(),
    }
}

impl DashboardFile {
    /// The one validation path: resolve defaults, parse every token, check
    /// the layout, build the registry. Every error names the pane and the
    /// fix.
    pub fn into_registry(self) -> (r: Result<Registry, DashboardError>)
        ensures
            registry_outcome(self, r),
    {
        if self.panes.len() == 0 {
            return Err(DashboardError::NoPanes);
        }
        if self.defaults.name.is_some() {
            return Err(DashboardError::NameInDefaults);
        }
        let names = match pane_names(&self.panes) {
            Ok(n) => n,
            Err(e) => {
                return Err(e);
            },
        };
        let ghost panes = self.panes@;
        let ghost ns = pane_name_list(panes);
        proof {
            assert(views(names@).len() == names@.len());
        }
        let mut sources: Vec<SourceSpec> = Vec::new();
        let mut boxes: Vec<PaneBox> = Vec::new();
        let mut i: usize = 0;
        while i < self.panes.len()
            invariant
                panes == self.panes@,
                ns == pane_name_list(panes),
                views(names@) == ns,
                names@.len() == panes.len(),
                first_name_problem(panes, 0) is None,
                self.defaults.name is None,
                panes.len() > 0,
                i <= panes.len(),
                all_resolved(panes.take(i as int), self.defaults, ns, sources@, boxes@),
                first_refused_pane(panes, self.defaults, 0) == first_refused_pane(panes, self.defaults, i as nat),
            decreases panes.len() - i,
        {
            let s = match resolve_source(&self.panes[i], &self.defaults, names[i].as_str()) {
                Ok(s) => s,
                Err(e) => {
                    return Err(e);
                },
            };
            let b = match resolve_box(&self.panes[i], &self.defaults, names[i].as_str()) {
                Ok(b) => b,
                Err(e) => {
                    return Err(e);
                },
            };
            sources.push(s);
            boxes.push(b);
            i += 1;
        }
        let layout = match resolve_layout(&self.layout, &names) {
            Ok(l) => l,
            Err(e) => {
                return Err(e);
            },
        };
        let gap = match self.gap {
            Some(g) => g,
            None => 0,
        };
        let row_gap = match self.row_gap {
            Some(g) => g,
            None => 0,
        };
        let ghost srcs = sources@;
        let ghost bxs = boxes@;
        let ghost node = layout;
        let ghost items = layout_items(self.layout);
        proof {
            assert(panes.take(panes.len() as int) =~= panes);
            assert(all_resolved(panes, self.defaults, ns, srcs, bxs));
            assert(!layout_refused(items, ns));
        }
        let r = match Registry::panes(sources, boxes, layout, gap, row_gap) {
            Ok(reg) => Ok(reg),
            Err(e) => Err(DashboardError::Registry(e)),
        };
        proof {
            assert(layout_outcome(items, ns, Ok(node)));
        }
        r
    }
}


// ---------------------------------------------------------------------
// Normal form.

/// `r` is `d` with every one-cell row or column collapsed to its cell, at
/// every depth.
pub open spec fn normal_of(r: LayoutDecl, d: LayoutDecl) -> bool
    decreases d, 0nat,
{
    match d {
        LayoutDecl::Pane(w) => r matches LayoutDecl::Pane(x) && x@ == w@,
        LayoutDecl::Row(c) => if c@.len() == 1 {
            normal_of(r, c@[0])
        } else {
            r matches LayoutDecl::Row(rc) && rc@.len() == c@.len() && normal_list(rc@, c@, 0)
        },
        LayoutDecl::Column(c) => if c@.len() == 1 {
            normal_of(r, c@[0])
        } else {
            r matches LayoutDecl::Column(rc) && rc@.len() == c@.len() && normal_list(rc@, c@, 0)
        },
    }
}

/// `rc[i..]` is `c[i..]` in normal form, cell by cell.
pub open spec fn normal_list(rc: Seq<LayoutDecl>, c: Seq<LayoutDecl>, i: int) -> bool
    decreases c, c.len() - i,
{
    if i < 0 || i >= c.len() {
        true
    } else {
        i < rc.len() && normal_of(rc[i], c[i]) && normal_list(rc, c, i + 1)
    }
}

proof fn lemma_normal_list(rc: Seq<LayoutDecl>, c: Seq<LayoutDecl>, i: int)
    requires
        rc.len() == c.len(),
        0 <= i <= c.len(),
        forall|j: int| 0 <= j < c.len() ==> normal_of(#[trigger] rc[j], c[j]),
    ensures
        normal_list(rc, c, i),
    decreases c.len() - i,
{
    if i < c.len() {
        lemma_normal_list(rc, c, i + 1);
    }
}

impl LayoutDecl {
    /// One-cell rows and columns collapse to their cell, so the two
    /// grammars' different spellings of "a full-width pane" reach the
    /// same declaration.
    pub fn normalized(self) -> (r: LayoutDecl)
        ensures
            normal_of(r, self),
        decreases self,
    {
        let ghost whole = self;
        let is_row = match &self {
            LayoutDecl::Row(_) => true,
            _ => false,
        };
        match self {
            LayoutDecl::Pane(name) => LayoutDecl::Pane(name),
            LayoutDecl::Row(cells) | LayoutDecl::Column(cells) => {
                let ghost c = cells@;
                proof {
                    assert forall|j: int| 0 <= j < c.len() implies decreases_to!(whole => #[trigger] c[j]) by {
                        assert(decreases_to!(whole => cells));
                        assert(decreases_to!(cells => cells@));
                        assert(decreases_to!(cells@ => c[j]));
                    }
                }
                let mut rest = cells;
                proof {
                    assert(c.len() == rest.len());
                }
                if rest.len() == 1 {
                    let only = rest.remove(0);
                    proof {
                        assert(decreases_to!(whole => c[0]));
                    }
                    return only.normalized();
                }
                let mut out: Vec<LayoutDecl> = Vec::new();
                let mut i: usize = 0;
                while rest.len() > 0
                    invariant
                        c.len() != 1,
                        c.len() <= usize::MAX,
                        whole == self,
                        i <= c.len(),
                        rest@ == c.subrange(i as int, c.len() as int),
                        out@.len() == i,
                        forall|j: int| 0 <= j < c.len() ==> decreases_to!(whole => #[trigger] c[j]),
                        forall|j: int| 0 <= j < i ==> normal_of(#[trigger] out@[j], c[j]),
                    decreases rest@.len(),
                {
                    let next = rest.remove(0);
                    proof {
                        assert(next == c[i as int]);
                        assert(decreases_to!(whole => c[i as int]));
                    }
                    out.push(next.normalized());
                    i += 1;
                    proof {
                        assert(rest@ =~= c.subrange(i as int, c.len() as int));
                    }
                }
                proof {
                    lemma_normal_list(out@, c, 0);
                }
                if is_row {
                    LayoutDecl::Row(out)
                } else {
                    LayoutDecl::Column(out)
                }
            },
        }
    }
}


/// The pane names a layout places, left to right and top to bottom.
pub open spec fn names_of(d: LayoutDecl) -> Seq<Seq<char>>
    decreases d, 0nat,
{
    match d {
        LayoutDecl::Pane(w) => seq![w@],
        LayoutDecl::Row(c) => names_list(c@, 0),
        LayoutDecl::Column(c) => names_list(c@, 0),
    }
}

/// The pane names of `c[i..]`, in order.
pub open spec fn names_list(c: Seq<LayoutDecl>, i: int) -> Seq<Seq<char>>
    decreases c, c.len() - i,
{
    if i < 0 || i >= c.len() {
        seq![]
    } else {
        names_of(c[i]) + names_list(c, i + 1)
    }
}

/// No row or column at any depth holds exactly one cell.
pub open spec fn is_normal(d: LayoutDecl) -> bool
    decreases d, 0nat,
{
    match d {
        LayoutDecl::Pane(_) => true,
        LayoutDecl::Row(c) => c@.len() != 1 && normal_cells(c@, 0),
        LayoutDecl::Column(c) => c@.len() != 1 && normal_cells(c@, 0),
    }
}

/// Every cell of `c[i..]` is in normal form.
pub open spec fn normal_cells(c: Seq<LayoutDecl>, i: int) -> bool
    decreases c, c.len() - i,
{
    if i < 0 || i >= c.len() {
        true
    } else {
        is_normal(c[i]) && normal_cells(c, i + 1)
    }
}

/// `a` and `b` are the same declaration: the same shape, and panes with
/// the same names.
pub open spec fn same_decl(a: LayoutDecl, b: LayoutDecl) -> bool
    decreases b, 0nat,
{
    match b {
        LayoutDecl::Pane(w) => a matches LayoutDecl::Pane(x) && x@ == w@,
        LayoutDecl::Row(c) => a matches LayoutDecl::Row(ac) && ac@.len() == c@.len() && same_cells(ac@, c@, 0),
        LayoutDecl::Column(c) => a matches LayoutDecl::Column(ac) && ac@.len() == c@.len() && same_cells(ac@, c@, 0),
    }
}

/// `ac[i..]` and `c[i..]` are the same declarations, cell by cell.
pub open spec fn same_cells(ac: Seq<LayoutDecl>, c: Seq<LayoutDecl>, i: int) -> bool
    decreases c, c.len() - i,
{
    if i < 0 || i >= c.len() {
        true
    } else {
        i < ac.len() && same_decl(ac[i], c[i]) && same_cells(ac, c, i + 1)
    }
}

proof fn lemma_names_list_one(c: Seq<LayoutDecl>)
    requires
        c.len() == 1,
    ensures
        names_list(c, 0) == names_of(c[0]),
{
    assert(names_list(c, 1) == Seq::<Seq<char>>::empty());
    assert(names_of(c[0]) + Seq::<Seq<char>>::empty() =~= names_of(c[0]));
}

proof fn lemma_normal_keeps_names(r: LayoutDecl, d: LayoutDecl)
    requires
        normal_of(r, d),
    ensures
        names_of(r) == names_of(d),
        is_normal(r),
    decreases d, 0nat,
{
    match d {
        LayoutDecl::Pane(_) => {},
        LayoutDecl::Row(c) => {
            assert(decreases_to!(d => c));
            assert(decreases_to!(c => c@));
            if c@.len() == 1 {
                assert(decreases_to!(c@ => c@[0]));
                lemma_normal_keeps_names(r, c@[0]);
                lemma_names_list_one(c@);
            } else {
                let rc = r->Row_0;
                lemma_normal_cells_keep_names(rc@, c@, 0);
            }
        },
        LayoutDecl::Column(c) => {
            assert(decreases_to!(d => c));
            assert(decreases_to!(c => c@));
            if c@.len() == 1 {
                assert(decreases_to!(c@ => c@[0]));
                lemma_normal_keeps_names(r, c@[0]);
                lemma_names_list_one(c@);
            } else {
                let rc = r->Column_0;
                lemma_normal_cells_keep_names(rc@, c@, 0);
            }
        },
    }
}

proof fn lemma_normal_cells_keep_names(rc: Seq<LayoutDecl>, c: Seq<LayoutDecl>, i: int)
    requires
        rc.len() == c.len(),
        0 <= i <= c.len(),
        normal_list(rc, c, i),
    ensures
        names_list(rc, i) == names_list(c, i),
        normal_cells(rc, i),
    decreases c, c.len() - i,
{
    if i < c.len() {
        lemma_normal_keeps_names(rc[i], c[i]);
        lemma_normal_cells_keep_names(rc, c, i + 1);
    }
}

proof fn lemma_normal_of_normal(r: LayoutDecl, d: LayoutDecl)
    requires
        is_normal(d),
        normal_of(r, d),
    ensures
        same_decl(r, d),
    decreases d, 0nat,
{
    match d {
        LayoutDecl::Pane(_) => {},
        LayoutDecl::Row(c) => {
            assert(decreases_to!(d => c));
            assert(decreases_to!(c => c@));
            lemma_normal_cells_same(r->Row_0@, c@, 0);
        },
        LayoutDecl::Column(c) => {
            assert(decreases_to!(d => c));
            assert(decreases_to!(c => c@));
            lemma_normal_cells_same(r->Column_0@, c@, 0);
        },
    }
}

proof fn lemma_normal_cells_same(rc: Seq<LayoutDecl>, c: Seq<LayoutDecl>, i: int)
    requires
        rc.len() == c.len(),
        0 <= i <= c.len(),
        normal_cells(c, i),
        normal_list(rc, c, i),
    ensures
        same_cells(rc, c, i),
    decreases c, c.len() - i,
{
    if i < c.len() {
        lemma_normal_of_normal(rc[i], c[i]);
        lemma_normal_cells_same(rc, c, i + 1);
    }
}

/// Normalizing leaves no row or column of one cell at any depth, keeps
/// the panes' order (the normal form places the same names in the same
/// sequence), and is idempotent: a normal form normalizes to the same
/// declaration.
pub proof fn lemma_normalized_keeps_order_and_is_idempotent(d: LayoutDecl, r: LayoutDecl, r2: LayoutDecl)
    requires
        normal_of(r, d),
        normal_of(r2, r),
    ensures
        is_normal(r),
        names_of(r) == names_of(d),
        same_decl(r2, r),
{
    lemma_normal_keeps_names(r, d);
    lemma_normal_of_normal(r2, r);
}

} // verus!
