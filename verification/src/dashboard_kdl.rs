//! The KDL reading of a dashboard file: a walk over the document's nodes
//! to a [`DashboardFile`], parsing only; every rule lives once, in
//! `into_registry`. KDL v2 grammar (`#true` and `#false` for booleans).

use vstd::prelude::*;

use crate::dashboard_file::{
    dashboard_error_text, normal_of, opt_str, opt_words, registry_outcome, DashboardError, DashboardFile,
    LayoutDecl, PaneDecl,
};
use crate::registry::Registry;
use crate::pager::{shell_split, split_words};
use crate::text::{debug_quote, debug_quoted, push_str, str_eq, views};

verus! {

/// A KDL value as the walk reads it.
#[derive(Clone, Debug)]
pub enum KdlScalar {
    Text(String),
    Integer(i128),
    Boolean(bool),
    /// A float or `#null`: never what a dashboard field takes.
    Other,
}

/// One entry of a node: a positional argument, or a named property.
#[derive(Clone, Debug)]
pub struct KdlEntryData {
    pub name: Option<String>,
    pub value: KdlScalar,
}

/// One node: its name, its entries in order, and its children block.
#[derive(Debug)]
pub struct KdlNodeData {
    pub name: String,
    pub entries: Vec<KdlEntryData>,
    pub children: Option<Vec<KdlNodeData>>,
}

/// `kdl::KdlNode`, carried through unread.
#[verifier::external_type_specification]
#[verifier::external_body]
pub struct ExKdlNode(kdl::KdlNode);

/// `kdl::KdlEntry`, carried through unread.
#[verifier::external_type_specification]
#[verifier::external_body]
pub struct ExKdlEntry(kdl::KdlEntry);

/// What `kdl::KdlDocument::parse` makes of a text, as plain nodes, or the
/// parse error's text.
pub uninterp spec fn kdl_read(text: Seq<char>) -> Result<Seq<KdlNodeData>, Seq<char>>;

/// `KdlDocument::parse` (the KDL v2 grammar) with the document converted
/// node for node to plain values, or the error's `Display` text. The
/// grammar is the crate's; the result is named.
#[verifier::external_body]
fn read_kdl(text: &str) -> (r: Result<Vec<KdlNodeData>, String>)
    ensures
        match r {
            Ok(v) => kdl_read(text@) == Ok::<Seq<KdlNodeData>, Seq<char>>(v@),
            Err(e) => kdl_read(text@) == Err::<Seq<KdlNodeData>, Seq<char>>(e@),
        },
{
    match kdl::KdlDocument::parse(text) {
        Ok(doc) => Ok(doc.nodes().iter().map(kdl_node_data).collect()),
        Err(err) => Err(err.to_string()),
    }
}

/// One `kdl::KdlNode` as plain values: `name().value()`, `entries()` and
/// `children()`, converted one for one.
#[verifier::external_body]
fn kdl_node_data(node: &kdl::KdlNode) -> KdlNodeData {
    KdlNodeData {
        name: node.name().value().to_string(),
        entries: node.entries().iter().map(kdl_entry_data).collect(),
        children: node.children().map(|doc| doc.nodes().iter().map(kdl_node_data).collect()),
    }
}

/// One `kdl::KdlEntry` as plain values: its name and its value, a string,
/// an integer or a boolean carried over and anything else marked.
#[verifier::external_body]
fn kdl_entry_data(entry: &kdl::KdlEntry) -> KdlEntryData {
    let value = match entry.value() {
        kdl::KdlValue::String(s) => KdlScalar::Text(s.clone()),
        kdl::KdlValue::Integer(i) => KdlScalar::Integer(*i),
        kdl::KdlValue::Bool(b) => KdlScalar::Boolean(*b),
        _ => KdlScalar::Other,
    };
    KdlEntryData { name: entry.name().map(|n| n.value().to_string()), value }
}

/// Why a KDL dashboard does not read.
#[derive(Clone, Debug, PartialEq, Eq)]
pub enum KdlError {
    /// The text is not a KDL document.
    Read(String),
    UnknownTop(String),
    UnknownPaneNode(String),
    UnknownLayoutNode(String),
    /// A positional argument of this node is not a string.
    NotString(String),
    /// This node has no positional argument.
    NoValue(String),
    NotInteger(String),
    NotBool(String),
    /// A count field does not fit an unsigned integer.
    BadCount(String),
    /// The pane's height does not fit 0..=65535.
    BadHeight(String),
    /// The pane's one-string command does not split.
    Unbalanced(String),
}

/// The node names a pane or `defaults` block accepts, as the teaching error
/// lists them.
pub open spec fn pane_nodes_text() -> Seq<char> {
    "command, shell, interval, trigger, trigger-debounce, height, width, overflow, border, padding, title, chrome"@
}

/// The sentence a reading is refused with.
pub open spec fn kdl_error_text(e: KdlError) -> Seq<char> {
    match e {
        KdlError::Read(m) => "reading the dashboard KDL: "@ + m@,
        KdlError::UnknownTop(n) => "unknown node "@ + debug_quoted(n@)
            + ": expected gap, row-gap, defaults, pane, or layout"@,
        KdlError::UnknownPaneNode(n) => "unknown node "@ + debug_quoted(n@) + ": expected one of "@
            + pane_nodes_text(),
        KdlError::UnknownLayoutNode(n) => "unknown node "@ + debug_quoted(n@)
            + " in layout: expected row or column"@,
        KdlError::NotString(n) => n@ + ": expected a string"@,
        KdlError::NoValue(n) => n@ + ": expected a value"@,
        KdlError::NotInteger(n) => n@ + ": expected an integer"@,
        KdlError::NotBool(n) => n@ + ": expected #true or #false"@,
        KdlError::BadCount(f) => f@ + " must be a non-negative integer"@,
        KdlError::BadHeight(l) => "pane "@ + debug_quoted(l@)
            + ": height must be a non-negative integer (max 65535)"@,
        KdlError::Unbalanced(l) => "pane "@ + debug_quoted(l@)
            + ": command has unbalanced quoting (missing closing quote)"@,
    }
}

impl KdlError {
    /// The sentence the reading is refused with.
    pub fn message(&self) -> (r: String)
        ensures
            r@ == kdl_error_text(*self),
    {
        let mut r = String::new();
        match self {
            KdlError::Read(m) => {
                push_str(&mut r, "reading the dashboard KDL: ");
                push_str(&mut r, m.as_str());
            },
            KdlError::UnknownTop(n) => {
                push_str(&mut r, "unknown node ");
                push_str(&mut r, debug_quote(n.as_str()).as_str());
                push_str(&mut r, ": expected gap, row-gap, defaults, pane, or layout");
            },
            KdlError::UnknownPaneNode(n) => {
                push_str(&mut r, "unknown node ");
                push_str(&mut r, debug_quote(n.as_str()).as_str());
                push_str(&mut r, ": expected one of ");
                push_str(
                    &mut r,
                    "command, shell, interval, trigger, trigger-debounce, height, width, overflow, border, padding, title, chrome",
                );
            },
            KdlError::UnknownLayoutNode(n) => {
                push_str(&mut r, "unknown node ");
                push_str(&mut r, debug_quote(n.as_str()).as_str());
                push_str(&mut r, " in layout: expected row or column");
            },
            KdlError::NotString(n) => {
                push_str(&mut r, n.as_str());
                push_str(&mut r, ": expected a string");
            },
            KdlError::NoValue(n) => {
                push_str(&mut r, n.as_str());
                push_str(&mut r, ": expected a value");
            },
            KdlError::NotInteger(n) => {
                push_str(&mut r, n.as_str());
                push_str(&mut r, ": expected an integer");
            },
            KdlError::NotBool(n) => {
                push_str(&mut r, n.as_str());
                push_str(&mut r, ": expected #true or #false");
            },
            KdlError::BadCount(f) => {
                push_str(&mut r, f.as_str());
                push_str(&mut r, " must be a non-negative integer");
            },
            KdlError::BadHeight(l) => {
                push_str(&mut r, "pane ");
                push_str(&mut r, debug_quote(l.as_str()).as_str());
                push_str(&mut r, ": height must be a non-negative integer (max 65535)");
            },
            KdlError::Unbalanced(l) => {
                push_str(&mut r, "pane ");
                push_str(&mut r, debug_quote(l.as_str()).as_str());
                push_str(&mut r, ": command has unbalanced quoting (missing closing quote)");
            },
        }
        r
    }
}

// ---------------------------------------------------------------------
// Reading one node's arguments.

/// The positional arguments of a node, in order.
pub open spec fn positional(es: Seq<KdlEntryData>) -> Seq<KdlScalar>
    decreases es.len(),
{
    if es.len() == 0 {
        Seq::empty()
    } else if es.last().name is None {
        positional(es.drop_last()).push(es.last().value)
    } else {
        positional(es.drop_last())
    }
}

/// Whether every value is a string.
pub open spec fn all_text(vs: Seq<KdlScalar>) -> bool {
    forall|i: int| 0 <= i < vs.len() ==> #[trigger] vs[i] is Text
}

/// The strings among the values, in order, as characters.
pub open spec fn text_views(vs: Seq<KdlScalar>) -> Seq<Seq<char>> {
    vs.map_values(|v: KdlScalar| match v {
        KdlScalar::Text(s) => s@,
        _ => Seq::empty(),
    })
}

/// Every positional argument of a node as a string, when all of them are.
pub open spec fn node_strings(n: KdlNodeData) -> Option<Seq<Seq<char>>> {
    let vs = positional(n.entries@);
    if all_text(vs) {
        Some(text_views(vs))
    } else {
        None
    }
}

/// A node's first positional string: `None` when an argument is not a
/// string or there is none.
pub open spec fn node_first_string(n: KdlNodeData) -> Option<Seq<char>> {
    match node_strings(n) {
        Some(ss) => if ss.len() > 0 {
            Some(ss[0])
        } else {
            None
        },
        None => None,
    }
}

/// The error `first_string` gives, when it gives one.
pub open spec fn first_string_error(n: KdlNodeData, e: KdlError) -> bool {
    match node_strings(n) {
        None => e matches KdlError::NotString(m) && m@ == n.name@,
        Some(_) => e matches KdlError::NoValue(m) && m@ == n.name@,
    }
}

/// A node's first positional integer.
pub open spec fn node_first_int(n: KdlNodeData) -> Option<i128> {
    let vs = positional(n.entries@);
    if vs.len() > 0 {
        match vs[0] {
            KdlScalar::Integer(i) => Some(i),
            _ => None,
        }
    } else {
        None
    }
}

/// A node's first positional boolean.
pub open spec fn node_bool(n: KdlNodeData) -> Option<bool> {
    let vs = positional(n.entries@);
    if vs.len() > 0 {
        match vs[0] {
            KdlScalar::Boolean(b) => Some(b),
            _ => None,
        }
    } else {
        None
    }
}

fn positional_values(es: &Vec<KdlEntryData>) -> (r: Vec<KdlScalar>)
    ensures
        r@ == positional(es@),
{
    let mut out: Vec<KdlScalar> = Vec::new();
    let mut i: usize = 0;
    while i < es.len()
        invariant
            i <= es@.len(),
            out@ == positional(es@.take(i as int)),
        decreases es@.len() - i,
    {
        proof {
            assert(es@.take(i + 1).drop_last() =~= es@.take(i as int));
        }
        if es[i].name.is_none() {
            let v = match &es[i].value {
                KdlScalar::Text(s) => KdlScalar::Text(s.clone()),
                KdlScalar::Integer(k) => KdlScalar::Integer(*k),
                KdlScalar::Boolean(b) => KdlScalar::Boolean(*b),
                KdlScalar::Other => KdlScalar::Other,
            };
            proof {
                assert(v == es@[i as int].value) by {
                    match es@[i as int].value {
                        KdlScalar::Text(s) => {
                            assert(v matches KdlScalar::Text(t) && t@ == s@);
                        },
                        _ => {},
                    }
                }
            }
            out.push(v);
        }
        i += 1;
    }
    proof {
        assert(es@.take(es@.len() as int) =~= es@);
    }
    out
}

/// Every positional argument of a node, as strings.
fn strings(node: &KdlNodeData) -> (r: Result<Vec<String>, KdlError>)
    ensures
        match node_strings(*node) {
            Some(ss) => r matches Ok(v) && views(v@) == ss,
            None => r matches Err(KdlError::NotString(m)) && m@ == node.name@,
        },
{
    let vs = positional_values(&node.entries);
    let mut out: Vec<String> = Vec::new();
    let mut i: usize = 0;
    while i < vs.len()
        invariant
            i <= vs@.len(),
            vs@ == positional(node.entries@),
            forall|k: int| 0 <= k < i ==> #[trigger] vs@[k] is Text,
            views(out@) == text_views(vs@.take(i as int)),
        decreases vs@.len() - i,
    {
        match &vs[i] {
            KdlScalar::Text(s) => {
                let w = s.clone();
                proof {
                    assert(views(out@.push(w)) =~= views(out@).push(w@));
                    assert(text_views(vs@.take(i + 1)) =~= text_views(vs@.take(i as int)).push(w@));
                }
                out.push(w);
            },
            _ => {
                return Err(KdlError::NotString(node.name.clone()));
            },
        }
        i += 1;
    }
    proof {
        assert(vs@.take(vs@.len() as int) =~= vs@);
    }
    Ok(out)
}

/// A node's first positional argument, which must be a string.
fn first_string(node: &KdlNodeData) -> (r: Result<String, KdlError>)
    ensures
        match node_first_string(*node) {
            Some(s) => r matches Ok(v) && v@ == s,
            None => r matches Err(e) && first_string_error(*node, e),
        },
{
    match strings(node) {
        Ok(v) => if v.len() > 0 {
            Ok(v[0].clone())
        } else {
            Err(KdlError::NoValue(node.name.clone()))
        },
        Err(e) => Err(e),
    }
}

/// A node's first positional argument, which must be an integer.
fn first_int(node: &KdlNodeData) -> (r: Result<i128, KdlError>)
    ensures
        match node_first_int(*node) {
            Some(i) => r == Ok::<i128, KdlError>(i),
            None => r matches Err(KdlError::NotInteger(m)) && m@ == node.name@,
        },
{
    let vs = positional_values(&node.entries);
    if vs.len() > 0 {
        match &vs[0] {
            KdlScalar::Integer(i) => {
                return Ok(*i);
            },
            _ => {},
        }
    }
    Err(KdlError::NotInteger(node.name.clone()))
}

/// A node's first positional argument, which must be a boolean.
fn bool_value(node: &KdlNodeData) -> (r: Result<bool, KdlError>)
    ensures
        match node_bool(*node) {
            Some(b) => r == Ok::<bool, KdlError>(b),
            None => r matches Err(KdlError::NotBool(m)) && m@ == node.name@,
        },
{
    let vs = positional_values(&node.entries);
    if vs.len() > 0 {
        match &vs[0] {
            KdlScalar::Boolean(b) => {
                return Ok(*b);
            },
            _ => {},
        }
    }
    Err(KdlError::NotBool(node.name.clone()))
}

// ---------------------------------------------------------------------
// One pane or defaults block.

/// The smallest index of a node with this name.
pub open spec fn first_named(cs: Seq<KdlNodeData>, name: Seq<char>) -> Option<int>
    decreases cs.len(),
{
    if cs.len() == 0 {
        None
    } else {
        match first_named(cs.drop_last(), name) {
            Some(i) => Some(i),
            None => if cs.last().name@ == name {
                Some(cs.len() - 1)
            } else {
                None
            },
        }
    }
}

/// The largest index of a node with this name.
pub open spec fn last_named(cs: Seq<KdlNodeData>, name: Seq<char>) -> Option<int>
    decreases cs.len(),
{
    if cs.len() == 0 {
        None
    } else if cs.last().name@ == name {
        Some(cs.len() - 1)
    } else {
        last_named(cs.drop_last(), name)
    }
}

/// What a child of a block names.
#[derive(Copy, Clone, PartialEq, Eq, Debug, Structural)]
pub enum PaneField {
    Command,
    Shell,
    Chrome,
    Trigger,
    Height,
    Interval,
    TriggerDebounce,
    Width,
    Overflow,
    Border,
    Padding,
    Title,
    Unknown,
}

/// The field a child's name selects.
pub open spec fn field_of(n: Seq<char>) -> PaneField {
    if n == "command"@ {
        PaneField::Command
    } else if n == "shell"@ {
        PaneField::Shell
    } else if n == "chrome"@ {
        PaneField::Chrome
    } else if n == "trigger"@ {
        PaneField::Trigger
    } else if n == "height"@ {
        PaneField::Height
    } else if n == "interval"@ {
        PaneField::Interval
    } else if n == "trigger-debounce"@ {
        PaneField::TriggerDebounce
    } else if n == "width"@ {
        PaneField::Width
    } else if n == "overflow"@ {
        PaneField::Overflow
    } else if n == "border"@ {
        PaneField::Border
    } else if n == "padding"@ {
        PaneField::Padding
    } else if n == "title"@ {
        PaneField::Title
    } else {
        PaneField::Unknown
    }
}

/// The field a child's name selects.
fn field_kind(n: &str) -> (r: PaneField)
    ensures
        r == field_of(n@),
{
    if str_eq(n, "command") {
        PaneField::Command
    } else if str_eq(n, "shell") {
        PaneField::Shell
    } else if str_eq(n, "chrome") {
        PaneField::Chrome
    } else if str_eq(n, "trigger") {
        PaneField::Trigger
    } else if str_eq(n, "height") {
        PaneField::Height
    } else if str_eq(n, "interval") {
        PaneField::Interval
    } else if str_eq(n, "trigger-debounce") {
        PaneField::TriggerDebounce
    } else if str_eq(n, "width") {
        PaneField::Width
    } else if str_eq(n, "overflow") {
        PaneField::Overflow
    } else if str_eq(n, "border") {
        PaneField::Border
    } else if str_eq(n, "padding") {
        PaneField::Padding
    } else if str_eq(n, "title") {
        PaneField::Title
    } else {
        PaneField::Unknown
    }
}

/// Whether a field takes one string.
pub open spec fn takes_string(f: PaneField) -> bool {
    f == PaneField::Interval || f == PaneField::TriggerDebounce || f == PaneField::Width || f
        == PaneField::Overflow || f == PaneField::Border || f == PaneField::Padding || f == PaneField::Title
}

/// The largest index of a child naming this field.
pub open spec fn last_field(cs: Seq<KdlNodeData>, f: PaneField) -> Option<int>
    decreases cs.len(),
{
    if cs.len() == 0 {
        None
    } else if field_of(cs.last().name@) == f {
        Some(cs.len() - 1)
    } else {
        last_field(cs.drop_last(), f)
    }
}

/// What a `command` node declares: one word under `shell` stays one word,
/// one string otherwise splits as a shell would, several are the argv
/// verbatim. `None` when an argument is not a string or the string does
/// not split.
pub open spec fn command_of(c: KdlNodeData, shell: bool) -> Option<Seq<Seq<char>>> {
    match node_strings(c) {
        Some(ss) => if ss.len() == 1 && shell {
            Some(ss)
        } else if ss.len() == 1 {
            shell_split(ss[0])
        } else {
            Some(ss)
        },
        None => None,
    }
}

/// Whether one child of a block reads.
pub open spec fn child_ok(c: KdlNodeData, shell: bool) -> bool {
    match field_of(c.name@) {
        PaneField::Command => command_of(c, shell) is Some,
        PaneField::Shell => true,
        PaneField::Chrome => node_bool(c) is Some,
        PaneField::Trigger => node_strings(c) is Some,
        PaneField::Height => node_first_int(c) matches Some(i) && 0 <= i <= 65535,
        PaneField::Unknown => false,
        _ => node_first_string(c) is Some,
    }
}

/// The error a child that does not read is refused with.
pub open spec fn child_error(c: KdlNodeData, label: Seq<char>, e: KdlError) -> bool {
    let n = c.name@;
    match field_of(n) {
        PaneField::Command => match node_strings(c) {
            None => e matches KdlError::NotString(m) && m@ == n,
            Some(_) => e matches KdlError::Unbalanced(l) && l@ == label,
        },
        PaneField::Chrome => e matches KdlError::NotBool(m) && m@ == n,
        PaneField::Trigger => e matches KdlError::NotString(m) && m@ == n,
        PaneField::Height => match node_first_int(c) {
            None => e matches KdlError::NotInteger(m) && m@ == n,
            Some(_) => e matches KdlError::BadHeight(l) && l@ == label,
        },
        PaneField::Unknown => e matches KdlError::UnknownPaneNode(m) && m@ == n,
        _ => first_string_error(c, e),
    }
}

/// The first child at or after `from` that does not read.
pub open spec fn first_bad_child(cs: Seq<KdlNodeData>, shell: bool, from: nat) -> Option<int>
    decreases cs.len() - from,
{
    if from >= cs.len() {
        None
    } else if !child_ok(cs[from as int], shell) {
        Some(from as int)
    } else {
        first_bad_child(cs, shell, from + 1)
    }
}

/// The value of the last child naming a field that takes one string.
pub open spec fn last_string(cs: Seq<KdlNodeData>, f: PaneField) -> Option<Seq<char>> {
    match last_field(cs, f) {
        Some(i) => node_first_string(cs[i]),
        None => None,
    }
}

/// A block's declaration read from its children: each field is what the
/// last child naming it says, absent when none does.
pub open spec fn pane_fields(d: PaneDecl, cs: Seq<KdlNodeData>, name: Option<Seq<char>>, shell: Option<bool>, eff: bool) -> bool {
    &&& opt_str(d.name) == name
    &&& d.shell == shell
    &&& opt_words(d.command) == match last_field(cs, PaneField::Command) {
        Some(i) => command_of(cs[i], eff),
        None => None,
    }
    &&& opt_words(d.trigger) == match last_field(cs, PaneField::Trigger) {
        Some(i) => node_strings(cs[i]),
        None => None,
    }
    &&& d.height == match last_field(cs, PaneField::Height) {
        Some(i) => Some(node_first_int(cs[i]).unwrap() as u16),
        None => None,
    }
    &&& d.chrome == match last_field(cs, PaneField::Chrome) {
        Some(i) => node_bool(cs[i]),
        None => None,
    }
    &&& opt_str(d.interval) == last_string(cs, PaneField::Interval)
    &&& opt_str(d.trigger_debounce) == last_string(cs, PaneField::TriggerDebounce)
    &&& opt_str(d.width) == last_string(cs, PaneField::Width)
    &&& opt_str(d.overflow) == last_string(cs, PaneField::Overflow)
    &&& opt_str(d.border) == last_string(cs, PaneField::Border)
    &&& opt_str(d.padding) == last_string(cs, PaneField::Padding)
    &&& opt_str(d.title) == last_string(cs, PaneField::Title)
}

/// The `shell` a block declares: its first `shell` child's boolean.
pub open spec fn block_shell(cs: Seq<KdlNodeData>) -> Option<bool> {
    match first_named(cs, "shell"@) {
        Some(i) => node_bool(cs[i]),
        None => None,
    }
}

/// Whether the block's first `shell` child is refused.
pub open spec fn shell_refused(cs: Seq<KdlNodeData>) -> bool {
    first_named(cs, "shell"@) matches Some(i) && node_bool(cs[i]) is None
}

/// Whether a block reads.
pub open spec fn block_ok(n: KdlNodeData, ds: bool) -> bool {
    match n.children {
        None => true,
        Some(v) => !shell_refused(v@) && first_bad_child(
            v@,
            match block_shell(v@) {
                Some(b) => b,
                None => ds,
            },
            0,
        ) is None,
    }
}

/// How `pane_block` answers.
pub open spec fn block_outcome(n: KdlNodeData, name: Option<Seq<char>>, ds: bool, r: Result<PaneDecl, KdlError>) -> bool {
    let label = match name {
        Some(s) => s,
        None => "defaults"@,
    };
    match n.children {
        None => r matches Ok(d) && pane_fields(d, Seq::empty(), name, None, ds),
        Some(v) => {
            let cs = v@;
            let eff = match block_shell(cs) {
                Some(b) => b,
                None => ds,
            };
            if shell_refused(cs) {
                r matches Err(e) && e matches KdlError::NotBool(m) && m@ == "shell"@
            } else {
                match first_bad_child(cs, eff, 0) {
                    Some(k) => r matches Err(e) && child_error(cs[k], label, e),
                    None => r matches Ok(d) && pane_fields(d, cs, name, block_shell(cs), eff),
                }
            }
        },
    }
}

/// The first node with this name.
fn find_named(cs: &Vec<KdlNodeData>, name: &str) -> (r: Option<usize>)
    ensures
        match first_named(cs@, name@) {
            Some(i) => r == Some(i as usize) && 0 <= i < cs.len(),
            None => r is None,
        },
{
    let mut i: usize = 0;
    while i < cs.len()
        invariant
            i <= cs@.len(),
            first_named(cs@.take(i as int), name@) is None,
        decreases cs@.len() - i,
    {
        proof {
            assert(cs@.take(i + 1).drop_last() =~= cs@.take(i as int));
        }
        if str_eq(cs[i].name.as_str(), name) {
            proof {
                lemma_first_named_prefix(cs@, (i + 1) as int, name@);
            }
            return Some(i);
        }
        i += 1;
    }
    proof {
        assert(cs@.take(cs@.len() as int) =~= cs@);
    }
    None
}

proof fn lemma_first_named_prefix(cs: Seq<KdlNodeData>, k: int, name: Seq<char>)
    requires
        0 <= k <= cs.len(),
        first_named(cs.take(k), name) is Some,
    ensures
        first_named(cs, name) == first_named(cs.take(k), name),
        first_named(cs, name).unwrap() < k,
    decreases cs.len() - k,
{
    lemma_first_named_bound(cs.take(k), name);
    if k < cs.len() {
        assert(cs.take(k + 1).drop_last() =~= cs.take(k));
        lemma_first_named_prefix(cs, k + 1, name);
    } else {
        assert(cs.take(k) =~= cs);
    }
}

proof fn lemma_first_named_bound(cs: Seq<KdlNodeData>, name: Seq<char>)
    ensures
        first_named(cs, name) matches Some(i) ==> 0 <= i < cs.len() && cs[i].name@ == name,
    decreases cs.len(),
{
    if cs.len() > 0 {
        lemma_first_named_bound(cs.drop_last(), name);
    }
}

proof fn lemma_last_field_step(cs: Seq<KdlNodeData>, k: int, f: PaneField)
    requires
        0 <= k < cs.len(),
    ensures
        last_field(cs.take(k + 1), f) == if field_of(cs[k].name@) == f {
            Some(k)
        } else {
            last_field(cs.take(k), f)
        },
        last_field(cs.take(k), f) matches Some(i) ==> 0 <= i < k && cs.take(k + 1)[i] == cs[i] && cs.take(k)[i]
            == cs[i],
{
    assert(cs.take(k + 1).drop_last() =~= cs.take(k));
    lemma_last_field_bound(cs.take(k), f);
}

proof fn lemma_last_field_bound(cs: Seq<KdlNodeData>, f: PaneField)
    ensures
        last_field(cs, f) matches Some(i) ==> 0 <= i < cs.len() && field_of(cs[i].name@) == f,
    decreases cs.len(),
{
    if cs.len() > 0 {
        lemma_last_field_bound(cs.drop_last(), f);
    }
}

/// The argv a `command` child declares.
fn command_words(c: &KdlNodeData, shell: bool, label: &str) -> (r: Result<Vec<String>, KdlError>)
    requires
        field_of(c.name@) == PaneField::Command,
    ensures
        match command_of(*c, shell) {
            Some(w) => r matches Ok(v) && views(v@) == w,
            None => r matches Err(e) && child_error(*c, label@, e),
        },
{
    let argv = match strings(c) {
        Ok(v) => v,
        Err(e) => {
            return Err(e);
        },
    };
    if argv.len() == 1 && shell {
        return Ok(argv);
    }
    if argv.len() == 1 {
        proof {
            assert(views(argv@)[0] == argv@[0]@);
        }
        return match split_words(argv[0].as_str()) {
            Some(words) => Ok(words),
            None => Err(KdlError::Unbalanced(label.to_string())),
        };
    }
    Ok(argv)
}

/// A block's declaration after one child: the field the child names takes
/// its value, every other field stays.
pub open spec fn child_applied(before: PaneDecl, after: PaneDecl, c: KdlNodeData, eff: bool) -> bool {
    let f = field_of(c.name@);
    &&& opt_str(after.name) == opt_str(before.name)
    &&& after.shell == before.shell
    &&& opt_words(after.command) == if f == PaneField::Command {
        command_of(c, eff)
    } else {
        opt_words(before.command)
    }
    &&& opt_words(after.trigger) == if f == PaneField::Trigger {
        node_strings(c)
    } else {
        opt_words(before.trigger)
    }
    &&& after.height == if f == PaneField::Height {
        Some(node_first_int(c).unwrap() as u16)
    } else {
        before.height
    }
    &&& after.chrome == if f == PaneField::Chrome {
        node_bool(c)
    } else {
        before.chrome
    }
    &&& opt_str(after.interval) == if f == PaneField::Interval {
        node_first_string(c)
    } else {
        opt_str(before.interval)
    }
    &&& opt_str(after.trigger_debounce) == if f == PaneField::TriggerDebounce {
        node_first_string(c)
    } else {
        opt_str(before.trigger_debounce)
    }
    &&& opt_str(after.width) == if f == PaneField::Width {
        node_first_string(c)
    } else {
        opt_str(before.width)
    }
    &&& opt_str(after.overflow) == if f == PaneField::Overflow {
        node_first_string(c)
    } else {
        opt_str(before.overflow)
    }
    &&& opt_str(after.border) == if f == PaneField::Border {
        node_first_string(c)
    } else {
        opt_str(before.border)
    }
    &&& opt_str(after.padding) == if f == PaneField::Padding {
        node_first_string(c)
    } else {
        opt_str(before.padding)
    }
    &&& opt_str(after.title) == if f == PaneField::Title {
        node_first_string(c)
    } else {
        opt_str(before.title)
    }
}

/// Read one child of a block into the declaration.
fn apply_child(decl: &mut PaneDecl, c: &KdlNodeData, eff: bool, label: &str) -> (r: Result<(), KdlError>)
    ensures
        child_ok(*c, eff) ==> r is Ok && child_applied(*old(decl), *final(decl), *c, eff),
        !child_ok(*c, eff) ==> (r matches Err(e) && child_error(*c, label@, e)),
{
    match field_kind(c.name.as_str()) {
        PaneField::Command => match command_words(c, eff, label) {
            Ok(words) => {
                decl.command = Some(words);
            },
            Err(e) => {
                return Err(e);
            },
        },
        PaneField::Shell => {},
        PaneField::Chrome => match bool_value(c) {
            Ok(b) => {
                decl.chrome = Some(b);
            },
            Err(e) => {
                return Err(e);
            },
        },
        PaneField::Trigger => match strings(c) {
            Ok(v) => {
                decl.trigger = Some(v);
            },
            Err(e) => {
                return Err(e);
            },
        },
        PaneField::Height => match first_int(c) {
            Ok(h) => {
                if h < 0 || h > 65535 {
                    return Err(KdlError::BadHeight(label.to_string()));
                }
                decl.height = Some(h as u16);
            },
            Err(e) => {
                return Err(e);
            },
        },
        PaneField::Unknown => {
            return Err(KdlError::UnknownPaneNode(c.name.clone()));
        },
        field => {
            let v = match first_string(c) {
                Ok(v) => v,
                Err(e) => {
                    return Err(e);
                },
            };
            match field {
                PaneField::Interval => {
                    decl.interval = Some(v);
                },
                PaneField::TriggerDebounce => {
                    decl.trigger_debounce = Some(v);
                },
                PaneField::Width => {
                    decl.width = Some(v);
                },
                PaneField::Overflow => {
                    decl.overflow = Some(v);
                },
                PaneField::Border => {
                    decl.border = Some(v);
                },
                PaneField::Padding => {
                    decl.padding = Some(v);
                },
                _ => {
                    decl.title = Some(v);
                },
            }
        },
    }
    Ok(())
}

/// One `pane "name" { ... }` or `defaults { ... }` block. The block's own
/// `shell` is read first because the command split depends on it: `shell`
/// is the one thing the reading resolves against the defaults.
fn pane_block(node: &KdlNodeData, name: Option<String>, default_shell: bool) -> (r: Result<PaneDecl, KdlError>)
    ensures
        block_outcome(*node, opt_str(name), default_shell, r),
{
    let ghost name_view = opt_str(name);
    let label: String = match &name {
        Some(n) => n.clone(),
        None => "defaults".to_string(),
    };
    let children = match &node.children {
        None => {
            let d = PaneDecl {
                name,
                command: None,
                shell: None,
                interval: None,
                trigger: None,
                trigger_debounce: None,
                height: None,
                width: None,
                overflow: None,
                border: None,
                padding: None,
                title: None,
                chrome: None,
            };
            return Ok(d);
        },
        Some(v) => v,
    };
    let ghost cs = children@;
    proof {
        lemma_first_named_bound(cs, "shell"@);
    }
    let found = find_named(children, "shell");
    let shell: Option<bool> = match found {
        Some(i) => match bool_value(&children[i]) {
            Ok(b) => Some(b),
            Err(e) => {
                proof {
                    assert(first_named(cs, "shell"@) == Some(i as int));
                    assert(cs[i as int].name@ == "shell"@);
                    assert(shell_refused(cs));
                }
                return Err(e);
            },
        },
        None => None,
    };
    proof {
        match found {
            Some(i) => {
                assert(first_named(cs, "shell"@) == Some(i as int));
            },
            None => {
                assert(first_named(cs, "shell"@) is None);
            },
        }
        assert(shell == block_shell(cs));
        assert(!shell_refused(cs));
    }
    let eff = match shell {
        Some(b) => b,
        None => default_shell,
    };
    let mut decl = PaneDecl {
        name,
        command: None,
        shell,
        interval: None,
        trigger: None,
        trigger_debounce: None,
        height: None,
        width: None,
        overflow: None,
        border: None,
        padding: None,
        title: None,
        chrome: None,
    };
    proof {
        assert(cs.take(0) =~= Seq::<KdlNodeData>::empty());
    }
    let mut k: usize = 0;
    while k < children.len()
        invariant
            k <= cs.len(),
            cs == children@,
            node.children matches Some(v) && v@ == cs,
            !shell_refused(cs),
            name_view == opt_str(decl.name),
            name_view == opt_str(name),
            label@ == match name_view {
                Some(s) => s,
                None => "defaults"@,
            },
            shell == block_shell(cs),
            eff == match shell {
                Some(b) => b,
                None => default_shell,
            },
            pane_fields(decl, cs.take(k as int), name_view, shell, eff),
            first_bad_child(cs, eff, 0) == first_bad_child(cs, eff, k as nat),
        decreases cs.len() - k,
    {
        let c = &children[k];
        let n = c.name.as_str();
        proof {
            assert(cs.take(k + 1).drop_last() =~= cs.take(k as int));
            assert(cs.take(k + 1)[k as int] == cs[k as int]);
            lemma_last_field_step(cs, k as int, PaneField::Command);
            lemma_last_field_step(cs, k as int, PaneField::Trigger);
            lemma_last_field_step(cs, k as int, PaneField::Height);
            lemma_last_field_step(cs, k as int, PaneField::Chrome);
            lemma_last_field_step(cs, k as int, PaneField::Interval);
            lemma_last_field_step(cs, k as int, PaneField::TriggerDebounce);
            lemma_last_field_step(cs, k as int, PaneField::Width);
            lemma_last_field_step(cs, k as int, PaneField::Overflow);
            lemma_last_field_step(cs, k as int, PaneField::Border);
            lemma_last_field_step(cs, k as int, PaneField::Padding);
            lemma_last_field_step(cs, k as int, PaneField::Title);
        }
        match apply_child(&mut decl, c, eff, label.as_str()) {
            Ok(()) => {},
            Err(e) => {
                return Err(e);
            },
        }
        k += 1;
    }
    proof {
        assert(cs.take(cs.len() as int) =~= cs);
    }
    Ok(decl)
}

// ---------------------------------------------------------------------
// The layout block.

/// A pane leaf with this name.
pub open spec fn pane_named(d: LayoutDecl, s: Seq<char>) -> bool {
    d matches LayoutDecl::Pane(x) && x@ == s
}

/// Whether a layout node reads: its arguments are pane names, its
/// children nested rows and columns, and it is itself a row or a column.
pub open spec fn layout_ok(n: KdlNodeData) -> bool
    decreases n, 0nat,
{
    node_strings(n) is Some && match n.children {
        Some(v) => layout_list_bad(v@, 0) is None,
        None => true,
    } && (n.name@ == "row"@ || n.name@ == "column"@)
}

/// The first node of `cs[i..]` that does not read.
pub open spec fn layout_list_bad(cs: Seq<KdlNodeData>, i: int) -> Option<int>
    decreases cs, cs.len() - i,
{
    if i < 0 || i >= cs.len() {
        None
    } else if !layout_ok(cs[i]) {
        Some(i)
    } else {
        layout_list_bad(cs, i + 1)
    }
}

/// The error a layout node that does not read is refused with: its
/// arguments first, then its children in order, then its own name.
pub open spec fn layout_error(n: KdlNodeData, e: KdlError) -> bool
    decreases n, 0nat,
{
    if node_strings(n) is None {
        e matches KdlError::NotString(m) && m@ == n.name@
    } else {
        match n.children {
            Some(v) => match layout_list_bad(v@, 0) {
                Some(k) => layout_list_error(v@, k, e),
                None => e matches KdlError::UnknownLayoutNode(m) && m@ == n.name@,
            },
            None => e matches KdlError::UnknownLayoutNode(m) && m@ == n.name@,
        }
    }
}

/// The error of `cs[k]`.
pub open spec fn layout_list_error(cs: Seq<KdlNodeData>, k: int, e: KdlError) -> bool
    decreases cs, 0int,
{
    if 0 <= k < cs.len() {
        layout_error(cs[k], e)
    } else {
        false
    }
}

/// The declaration a layout node reads as: its arguments as panes, then
/// its children, in a row or a column as it is named.
pub open spec fn layout_decl_is(n: KdlNodeData, d: LayoutDecl) -> bool
    decreases n, 0nat,
{
    let ss = node_strings(n).unwrap();
    let kids = match n.children {
        Some(v) => v@,
        None => Seq::empty(),
    };
    let cells = match d {
        LayoutDecl::Row(c) => c@,
        LayoutDecl::Column(c) => c@,
        LayoutDecl::Pane(_) => Seq::empty(),
    };
    &&& (if n.name@ == "row"@ {
        d is Row
    } else {
        d is Column
    })
    &&& cells.len() == ss.len() + kids.len()
    &&& forall|j: int| 0 <= j < ss.len() ==> pane_named(#[trigger] cells[j], ss[j])
    &&& match n.children {
        Some(v) => layout_list_decls(v@, cells, ss.len() as int, 0),
        None => true,
    }
}

/// `cells[off + i..]` are the declarations of `cs[i..]`.
pub open spec fn layout_list_decls(cs: Seq<KdlNodeData>, cells: Seq<LayoutDecl>, off: int, i: int) -> bool
    decreases cs, cs.len() - i,
{
    if i < 0 || i >= cs.len() {
        true
    } else {
        layout_decl_is(cs[i], cells[off + i]) && layout_list_decls(cs, cells, off, i + 1)
    }
}

proof fn lemma_layout_list_decls(cs: Seq<KdlNodeData>, cells: Seq<LayoutDecl>, off: int, i: int)
    requires
        0 <= i <= cs.len(),
        forall|j: int| 0 <= j < cs.len() ==> layout_decl_is(#[trigger] cs[j], cells[off + j]),
    ensures
        layout_list_decls(cs, cells, off, i),
    decreases cs.len() - i,
{
    if i < cs.len() {
        lemma_layout_list_decls(cs, cells, off, i + 1);
    }
}

proof fn lemma_layout_list_bad_none(cs: Seq<KdlNodeData>, i: int)
    requires
        0 <= i <= cs.len(),
        forall|j: int| i <= j < cs.len() ==> layout_ok(#[trigger] cs[j]),
    ensures
        layout_list_bad(cs, i) is None,
    decreases cs.len() - i,
{
    if i < cs.len() {
        lemma_layout_list_bad_none(cs, i + 1);
    }
}

proof fn lemma_layout_list_bad_some(cs: Seq<KdlNodeData>, i: int, k: int)
    requires
        0 <= i <= k < cs.len(),
        forall|j: int| i <= j < k ==> layout_ok(#[trigger] cs[j]),
        !layout_ok(cs[k]),
    ensures
        layout_list_bad(cs, i) == Some(k),
    decreases k - i,
{
    if i < k {
        lemma_layout_list_bad_some(cs, i + 1, k);
    }
}

/// A `row` or `column` node and everything nested in it.
fn layout_node(node: &KdlNodeData) -> (r: Result<LayoutDecl, KdlError>)
    ensures
        layout_ok(*node) ==> (r matches Ok(d) && layout_decl_is(*node, d)),
        !layout_ok(*node) ==> (r matches Err(e) && layout_error(*node, e)),
    decreases node,
{
    let names = match strings(node) {
        Ok(v) => v,
        Err(e) => {
            return Err(e);
        },
    };
    let mut cells: Vec<LayoutDecl> = Vec::new();
    let mut i: usize = 0;
    while i < names.len()
        invariant
            i <= names@.len(),
            cells@.len() == i,
            forall|j: int| 0 <= j < i ==> pane_named(#[trigger] cells@[j], names@[j]@),
        decreases names@.len() - i,
    {
        cells.push(LayoutDecl::Pane(names[i].clone()));
        i += 1;
    }
    let ghost ns = cells@.len();
    match &node.children {
        Some(kids) => {
            let ghost ks = kids@;
            proof {
                assert forall|j: int| 0 <= j < ks.len() implies decreases_to!(*node => #[trigger] ks[j]) by {
                    assert(decreases_to!(*node => node.children));
                    assert(decreases_to!(node.children => *kids));
                    assert(decreases_to!(*kids => kids@));
                    assert(decreases_to!(kids@ => ks[j]));
                }
            }
            let mut k: usize = 0;
            while k < kids.len()
                invariant
                    k <= ks.len(),
                    ks == kids@,
                    node.children matches Some(v) && v@ == ks,
                    views(names@) == node_strings(*node).unwrap(),
                    node_strings(*node) is Some,
                    ns == names@.len(),
                    cells@.len() == ns + k,
                    forall|j: int| 0 <= j < ns ==> pane_named(#[trigger] cells@[j], names@[j]@),
                    forall|j: int| 0 <= j < k ==> layout_ok(#[trigger] ks[j]),
                    forall|j: int| 0 <= j < k ==> layout_decl_is(#[trigger] ks[j], cells@[ns + j]),
                    forall|j: int| 0 <= j < ks.len() ==> decreases_to!(*node => #[trigger] ks[j]),
                decreases ks.len() - k,
            {
                proof {
                    assert(decreases_to!(*node => ks[k as int]));
                }
                match layout_node(&kids[k]) {
                    Ok(d) => {
                        cells.push(d);
                    },
                    Err(e) => {
                        proof {
                            lemma_layout_list_bad_some(ks, 0, k as int);
                        }
                        return Err(e);
                    },
                }
                k += 1;
            }
            proof {
                lemma_layout_list_bad_none(ks, 0);
                lemma_layout_list_decls(ks, cells@, ns as int, 0);
            }
        },
        None => {},
    }
    proof {
        assert forall|j: int| 0 <= j < ns implies pane_named(#[trigger] cells@[j], node_strings(*node).unwrap()[j]) by {
            assert(views(names@)[j] == names@[j]@);
        }
    }
    let n = node.name.as_str();
    if str_eq(n, "row") {
        Ok(LayoutDecl::Row(cells))
    } else if str_eq(n, "column") {
        Ok(LayoutDecl::Column(cells))
    } else {
        Err(KdlError::UnknownLayoutNode(node.name.clone()))
    }
}

/// Whether a `layout` block reads.
pub open spec fn rows_ok(n: KdlNodeData) -> bool {
    match n.children {
        Some(v) => layout_list_bad(v@, 0) is None,
        None => true,
    }
}

/// The error a `layout` block that does not read is refused with: its
/// first child's.
pub open spec fn rows_error(n: KdlNodeData, e: KdlError) -> bool {
    match n.children {
        Some(v) => match layout_list_bad(v@, 0) {
            Some(k) => layout_error(v@[k], e),
            None => false,
        },
        None => false,
    }
}

/// The rows a `layout` block declares: each child read, then normalized.
pub open spec fn rows_are(n: KdlNodeData, rows: Seq<LayoutDecl>) -> bool {
    let kids = match n.children {
        Some(v) => v@,
        None => Seq::empty(),
    };
    &&& rows.len() == kids.len()
    &&& forall|i: int| 0 <= i < kids.len() ==> #[trigger] row_reads(kids[i], rows[i])
}

/// A row is what its node reads as, normalized.
pub open spec fn row_reads(kid: KdlNodeData, row: LayoutDecl) -> bool {
    exists|d: LayoutDecl| #[trigger] layout_decl_is(kid, d) && normal_of(row, d)
}

/// `layout { row "a"; row "b" "c"; row { column "d" "e" } }`: a node's
/// string arguments are pane leaves, its children nested row and column
/// blocks, after the arguments in source order. One-cell rows and columns
/// collapse.
fn layout_rows(node: &KdlNodeData) -> (r: Result<Vec<LayoutDecl>, KdlError>)
    ensures
        rows_ok(*node) ==> (r matches Ok(v) && rows_are(*node, v@)),
        !rows_ok(*node) ==> (r matches Err(e) && rows_error(*node, e)),
{
    let kids = match &node.children {
        Some(k) => k,
        None => {
            return Ok(Vec::new());
        },
    };
    let ghost ks = kids@;
    let mut rows: Vec<LayoutDecl> = Vec::new();
    let mut i: usize = 0;
    while i < kids.len()
        invariant
            i <= ks.len(),
            ks == kids@,
            node.children matches Some(v) && v@ == ks,
            rows@.len() == i,
            forall|j: int| 0 <= j < i ==> layout_ok(#[trigger] ks[j]),
            forall|j: int| 0 <= j < i ==> #[trigger] row_reads(ks[j], rows@[j]),
        decreases ks.len() - i,
    {
        match layout_node(&kids[i]) {
            Ok(d) => {
                let ghost dd = d;
                let row = d.normalized();
                rows.push(row);
                proof {
                    assert(layout_decl_is(ks[i as int], dd) && normal_of(rows@[i as int], dd));
                    assert(row_reads(ks[i as int], rows@[i as int]));
                }
            },
            Err(e) => {
                proof {
                    lemma_layout_list_bad_some(ks, 0, i as int);
                }
                return Err(e);
            },
        }
        i += 1;
    }
    proof {
        lemma_layout_list_bad_none(ks, 0);
    }
    Ok(rows)
}

// ---------------------------------------------------------------------
// The document.

/// Whether a top-level node reads in the first pass.
pub open spec fn top_ok(n: KdlNodeData) -> bool {
    let name = n.name@;
    if name == "gap"@ || name == "row-gap"@ {
        node_first_int(n) matches Some(i) && 0 <= i <= usize::MAX
    } else if name == "defaults"@ {
        block_ok(n, false)
    } else if name == "pane"@ {
        node_first_string(n) is Some
    } else if name == "layout"@ {
        rows_ok(n)
    } else {
        false
    }
}

/// The error a top-level node that does not read is refused with.
pub open spec fn top_error(n: KdlNodeData, e: KdlError) -> bool {
    let name = n.name@;
    if name == "gap"@ || name == "row-gap"@ {
        match node_first_int(n) {
            None => e matches KdlError::NotInteger(m) && m@ == name,
            Some(_) => e matches KdlError::BadCount(m) && m@ == name,
        }
    } else if name == "defaults"@ {
        block_outcome(n, None, false, Err(e))
    } else if name == "pane"@ {
        first_string_error(n, e)
    } else if name == "layout"@ {
        rows_error(n, e)
    } else {
        e matches KdlError::UnknownTop(m) && m@ == name
    }
}

/// The first top-level node at or after `from` that does not read.
pub open spec fn first_bad_top(ns: Seq<KdlNodeData>, from: nat) -> Option<int>
    decreases ns.len() - from,
{
    if from >= ns.len() {
        None
    } else if !top_ok(ns[from as int]) {
        Some(from as int)
    } else {
        first_bad_top(ns, from + 1)
    }
}

/// The indices of the `pane` nodes, in order.
pub open spec fn pane_nodes(ns: Seq<KdlNodeData>) -> Seq<int>
    decreases ns.len(),
{
    if ns.len() == 0 {
        Seq::empty()
    } else if ns.last().name@ == "pane"@ {
        pane_nodes(ns.drop_last()).push(ns.len() - 1)
    } else {
        pane_nodes(ns.drop_last())
    }
}

/// The `shell` the defaults declare, `false` when they say nothing.
pub open spec fn defaults_shell(ns: Seq<KdlNodeData>) -> bool {
    match last_named(ns, "defaults"@) {
        Some(i) => match ns[i].children {
            Some(v) => match block_shell(v@) {
                Some(b) => b,
                None => false,
            },
            None => false,
        },
        None => false,
    }
}

/// The first pane, by position among the panes, whose block does not read.
pub open spec fn first_bad_pane(ns: Seq<KdlNodeData>, ps: Seq<int>, ds: bool, from: nat) -> Option<int>
    decreases ps.len() - from,
{
    if from >= ps.len() {
        None
    } else if !block_ok(ns[ps[from as int]], ds) {
        Some(from as int)
    } else {
        first_bad_pane(ns, ps, ds, from + 1)
    }
}

/// A count field's value: what its last node says.
pub open spec fn last_count(ns: Seq<KdlNodeData>, f: Seq<char>) -> Option<usize> {
    match last_named(ns, f) {
        Some(i) => Some(node_first_int(ns[i]).unwrap() as usize),
        None => None,
    }
}

/// A declaration with nothing said.
pub open spec fn bare_decl(d: PaneDecl) -> bool {
    pane_fields(d, Seq::empty(), None, None, false)
}

/// How reading a KDL dashboard answers. The first pass reads every node in
/// order, the first refusal winning; the panes are read after it, so a
/// `defaults` node anywhere still supplies the `shell` their command split
/// depends on. A field said twice keeps what it says last.
pub open spec fn kdl_outcome(text: Seq<char>, r: Result<DashboardFile, KdlError>) -> bool {
    match kdl_read(text) {
        Err(m) => r matches Err(KdlError::Read(s)) && s@ == m,
        Ok(ns) => match first_bad_top(ns, 0) {
            Some(k) => r matches Err(e) && top_error(ns[k], e),
            None => {
                let ps = pane_nodes(ns);
                let ds = defaults_shell(ns);
                match first_bad_pane(ns, ps, ds, 0) {
                    Some(j) => r matches Err(e) && block_outcome(
                        ns[ps[j]],
                        node_first_string(ns[ps[j]]),
                        ds,
                        Err(e),
                    ),
                    None => r matches Ok(f) && {
                        &&& f.gap == last_count(ns, "gap"@)
                        &&& f.row_gap == last_count(ns, "row-gap"@)
                        &&& match last_named(ns, "defaults"@) {
                            Some(i) => block_outcome(ns[i], None, false, Ok(f.defaults)),
                            None => bare_decl(f.defaults),
                        }
                        &&& f.panes@.len() == ps.len()
                        &&& forall|j: int| 0 <= j < ps.len() ==> block_outcome(
                            ns[ps[j]],
                            node_first_string(ns[ps[j]]),
                            ds,
                            Ok(#[trigger] f.panes@[j]),
                        )
                        &&& match last_named(ns, "layout"@) {
                            Some(i) => f.layout matches Some(rows) && rows_are(ns[i], rows@),
                            None => f.layout is None,
                        }
                    },
                }
            },
        },
    }
}


proof fn lemma_first_bad_top_none(ns: Seq<KdlNodeData>, from: nat)
    requires
        from <= ns.len(),
        forall|j: int| from <= j < ns.len() ==> top_ok(#[trigger] ns[j]),
    ensures
        first_bad_top(ns, from) is None,
    decreases ns.len() - from,
{
    if from < ns.len() {
        lemma_first_bad_top_none(ns, from + 1);
    }
}

proof fn lemma_first_bad_top_some(ns: Seq<KdlNodeData>, from: nat, k: int)
    requires
        from <= k < ns.len(),
        forall|j: int| from <= j < k ==> top_ok(#[trigger] ns[j]),
        !top_ok(ns[k]),
    ensures
        first_bad_top(ns, from) == Some(k),
    decreases k - from,
{
    if from < k {
        lemma_first_bad_top_some(ns, from + 1, k);
    }
}

proof fn lemma_first_bad_pane_none(ns: Seq<KdlNodeData>, ps: Seq<int>, ds: bool, from: nat)
    requires
        from <= ps.len(),
        forall|j: int| from <= j < ps.len() ==> block_ok(ns[#[trigger] ps[j]], ds),
    ensures
        first_bad_pane(ns, ps, ds, from) is None,
    decreases ps.len() - from,
{
    if from < ps.len() {
        lemma_first_bad_pane_none(ns, ps, ds, from + 1);
    }
}

proof fn lemma_first_bad_pane_some(ns: Seq<KdlNodeData>, ps: Seq<int>, ds: bool, from: nat, k: int)
    requires
        from <= k < ps.len(),
        forall|j: int| from <= j < k ==> block_ok(ns[#[trigger] ps[j]], ds),
        !block_ok(ns[ps[k]], ds),
    ensures
        first_bad_pane(ns, ps, ds, from) == Some(k),
    decreases k - from,
{
    if from < k {
        lemma_first_bad_pane_some(ns, ps, ds, from + 1, k);
    }
}

/// A block reads exactly when `pane_block` answers `Ok`.
proof fn lemma_block_ok(n: KdlNodeData, name: Option<Seq<char>>, ds: bool, r: Result<PaneDecl, KdlError>)
    requires
        block_outcome(n, name, ds, r),
    ensures
        block_ok(n, ds) <==> r is Ok,
{
}

/// A declaration with nothing said.
fn bare_pane() -> (d: PaneDecl)
    ensures
        bare_decl(d),
{
    PaneDecl {
        name: None,
        command: None,
        shell: None,
        interval: None,
        trigger: None,
        trigger_debounce: None,
        height: None,
        width: None,
        overflow: None,
        border: None,
        padding: None,
        title: None,
        chrome: None,
    }
}

/// A count field: a non-negative integer that fits `usize`.
fn count_field(node: &KdlNodeData, field: &str) -> (r: Result<usize, KdlError>)
    ensures
        match node_first_int(*node) {
            Some(i) => if 0 <= i <= usize::MAX {
                r == Ok::<usize, KdlError>(i as usize)
            } else {
                r matches Err(KdlError::BadCount(m)) && m@ == field@
            },
            None => r matches Err(KdlError::NotInteger(m)) && m@ == node.name@,
        },
{
    let v = match first_int(node) {
        Ok(v) => v,
        Err(e) => {
            return Err(e);
        },
    };
    if v < 0 || v > usize::MAX as i128 {
        Err(KdlError::BadCount(field.to_string()))
    } else {
        Ok(v as usize)
    }
}

proof fn lemma_last_named_bound(cs: Seq<KdlNodeData>, name: Seq<char>)
    ensures
        last_named(cs, name) matches Some(k) ==> 0 <= k < cs.len(),
    decreases cs.len(),
{
    if cs.len() > 0 {
        lemma_last_named_bound(cs.drop_last(), name);
    }
}

proof fn lemma_last_count_step(ns: Seq<KdlNodeData>, i: int, f: Seq<char>)
    requires
        0 <= i < ns.len(),
    ensures
        last_count(ns.take(i + 1), f) == if ns[i].name@ == f {
            Some(node_first_int(ns[i]).unwrap() as usize)
        } else {
            last_count(ns.take(i), f)
        },
{
    let post = ns.take(i + 1);
    assert(post.drop_last() =~= ns.take(i));
    lemma_last_named_bound(ns.take(i), f);
    match last_named(ns.take(i), f) {
        Some(k) => {
            assert(post[k] == ns.take(i)[k]);
        },
        None => {},
    }
}

/// Reads a KDL dashboard. Top-level nodes are `gap`, `row-gap`,
/// `defaults`, `pane "name" { ... }` and `layout { ... }`; a field said
/// twice keeps what it says last. The panes are read after every other
/// node, so a `defaults` block anywhere supplies the `shell` their command
/// split depends on.
pub fn parse(text: &str) -> (r: Result<DashboardFile, KdlError>)
    ensures
        kdl_outcome(text@, r),
{
    let nodes = match read_kdl(text) {
        Ok(v) => v,
        Err(m) => {
            return Err(KdlError::Read(m));
        },
    };
    let ghost ns = nodes@;
    proof {
        reveal_strlit("gap");
        reveal_strlit("row-gap");
        reveal_strlit("defaults");
        reveal_strlit("pane");
        reveal_strlit("layout");
        assert("gap"@.len() == 3 && "row-gap"@.len() == 7 && "defaults"@.len() == 8);
        assert("pane"@.len() == 4 && "layout"@.len() == 6);
    }
    let mut gap: Option<usize> = None;
    let mut row_gap: Option<usize> = None;
    let mut defaults: Option<PaneDecl> = None;
    let mut layout: Option<Vec<LayoutDecl>> = None;
    let mut pane_idx: Vec<usize> = Vec::new();
    let mut pane_names: Vec<String> = Vec::new();
    let mut i: usize = 0;
    while i < nodes.len()
        invariant
            i <= ns.len(),
            ns == nodes@,
            kdl_read(text@) == Ok::<Seq<KdlNodeData>, Seq<char>>(ns),
            "gap"@ != "row-gap"@ && "gap"@ != "defaults"@ && "gap"@ != "pane"@ && "gap"@ != "layout"@,
            "row-gap"@ != "defaults"@ && "row-gap"@ != "pane"@ && "row-gap"@ != "layout"@,
            "defaults"@ != "pane"@ && "defaults"@ != "layout"@ && "pane"@ != "layout"@,
            forall|j: int| 0 <= j < i ==> top_ok(#[trigger] ns[j]),
            gap == last_count(ns.take(i as int), "gap"@),
            row_gap == last_count(ns.take(i as int), "row-gap"@),
            match last_named(ns.take(i as int), "defaults"@) {
                Some(k) => 0 <= k < i && (defaults matches Some(d) && block_outcome(ns[k], None, false, Ok(d))),
                None => defaults is None,
            },
            match last_named(ns.take(i as int), "layout"@) {
                Some(k) => 0 <= k < i && (layout matches Some(rows) && rows_are(ns[k], rows@)),
                None => layout is None,
            },
            pane_idx@.len() == pane_names@.len(),
            pane_nodes(ns.take(i as int)).len() == pane_idx@.len(),
            forall|t: int| 0 <= t < pane_idx@.len() ==> pane_nodes(ns.take(i as int))[t] == #[trigger] pane_idx@[t] as int,
            forall|t: int| 0 <= t < pane_idx@.len() ==> #[trigger] pane_idx@[t] < i,
            forall|t: int| 0 <= t < pane_idx@.len() ==> node_first_string(ns[#[trigger] pane_idx@[t] as int]) == Some(pane_names@[t]@),
        decreases ns.len() - i,
    {
        let ghost pre = ns.take(i as int);
        let ghost post = ns.take(i + 1);
        proof {
            assert(post.drop_last() =~= pre);
            assert(post.last() == ns[i as int]);
        }
        proof {
            lemma_last_count_step(ns, i as int, "gap"@);
            lemma_last_count_step(ns, i as int, "row-gap"@);
        }
        let node = &nodes[i];
        let n = node.name.as_str();
        if str_eq(n, "gap") {
            match count_field(node, "gap") {
                Ok(v) => {
                    gap = Some(v);
                },
                Err(e) => {
                    proof {
                        lemma_first_bad_top_some(ns, 0, i as int);
                    }
                    return Err(e);
                },
            }
        } else if str_eq(n, "row-gap") {
            match count_field(node, "row-gap") {
                Ok(v) => {
                    row_gap = Some(v);
                },
                Err(e) => {
                    proof {
                        lemma_first_bad_top_some(ns, 0, i as int);
                    }
                    return Err(e);
                },
            }
        } else if str_eq(n, "defaults") {
            let r = pane_block(node, None, false);
            proof {
                lemma_block_ok(*node, None, false, r);
            }
            match r {
                Ok(d) => {
                    defaults = Some(d);
                },
                Err(e) => {
                    proof {
                        lemma_first_bad_top_some(ns, 0, i as int);
                    }
                    return Err(e);
                },
            }
        } else if str_eq(n, "pane") {
            match first_string(node) {
                Ok(name) => {
                    pane_idx.push(i);
                    pane_names.push(name);
                },
                Err(e) => {
                    proof {
                        lemma_first_bad_top_some(ns, 0, i as int);
                    }
                    return Err(e);
                },
            }
        } else if str_eq(n, "layout") {
            match layout_rows(node) {
                Ok(rows) => {
                    layout = Some(rows);
                },
                Err(e) => {
                    proof {
                        lemma_first_bad_top_some(ns, 0, i as int);
                    }
                    return Err(e);
                },
            }
        } else {
            proof {
                lemma_first_bad_top_some(ns, 0, i as int);
            }
            return Err(KdlError::UnknownTop(node.name.clone()));
        }
        i += 1;
    }
    proof {
        assert(ns.take(ns.len() as int) =~= ns);
        lemma_first_bad_top_none(ns, 0);
    }
    let ghost ps = pane_nodes(ns);
    let ds = match &defaults {
        Some(d) => match d.shell {
            Some(b) => b,
            None => false,
        },
        None => false,
    };
    assert(ds == defaults_shell(ns));
    let mut panes: Vec<PaneDecl> = Vec::new();
    let mut j: usize = 0;
    while j < pane_idx.len()
        invariant
            j <= pane_idx@.len(),
            ns == nodes@,
            kdl_read(text@) == Ok::<Seq<KdlNodeData>, Seq<char>>(ns),
            first_bad_top(ns, 0) is None,
            ds == defaults_shell(ns),
            ps == pane_nodes(ns),
            ps.len() == pane_idx@.len(),
            pane_idx@.len() == pane_names@.len(),
            forall|t: int| 0 <= t < pane_idx@.len() ==> ps[t] == #[trigger] pane_idx@[t] as int,
            forall|t: int| 0 <= t < pane_idx@.len() ==> #[trigger] pane_idx@[t] < ns.len(),
            forall|t: int| 0 <= t < pane_idx@.len() ==> node_first_string(ns[#[trigger] pane_idx@[t] as int]) == Some(pane_names@[t]@),
            panes@.len() == j,
            forall|t: int| 0 <= t < j ==> block_ok(ns[#[trigger] ps[t]], ds),
            forall|t: int| 0 <= t < j ==> block_outcome(
                ns[ps[t]],
                node_first_string(ns[ps[t]]),
                ds,
                Ok(#[trigger] panes@[t]),
            ),
        decreases pane_idx@.len() - j,
    {
        let k = pane_idx[j];
        let r = pane_block(&nodes[k], Some(pane_names[j].clone()), ds);
        proof {
            assert(ps[j as int] == k as int);
            lemma_block_ok(ns[k as int], node_first_string(ns[k as int]), ds, r);
        }
        match r {
            Ok(d) => {
                panes.push(d);
            },
            Err(e) => {
                proof {
                    lemma_first_bad_pane_some(ns, ps, ds, 0, j as int);
                }
                return Err(e);
            },
        }
        j += 1;
    }
    proof {
        lemma_first_bad_pane_none(ns, ps, ds, 0);
    }
    let defaults = match defaults {
        Some(d) => d,
        None => bare_pane(),
    };
    Ok(DashboardFile { gap, row_gap, defaults, panes, layout })
}


/// Why a dashboard text does not load: it does not read, or what it
/// declares cannot run.
#[derive(Clone, Debug, PartialEq, Eq)]
pub enum LoadError {
    Read(KdlError),
    Invalid(DashboardError),
}

/// The sentence a load is refused with.
pub open spec fn load_error_text(e: LoadError) -> Seq<char> {
    match e {
        LoadError::Read(k) => kdl_error_text(k),
        LoadError::Invalid(d) => dashboard_error_text(d),
    }
}

impl LoadError {
    /// The sentence the load is refused with.
    pub fn message(&self) -> (r: String)
        ensures
            r@ == load_error_text(*self),
    {
        match self {
            LoadError::Read(k) => k.message(),
            LoadError::Invalid(d) => d.message(),
        }
    }
}

/// A text reads or is refused, never both.
proof fn lemma_outcome_variant(text: Seq<char>, f: DashboardFile, e: KdlError)
    requires
        kdl_outcome(text, Ok(f)),
    ensures
        !kdl_outcome(text, Err(e)),
{
}

/// What a text declares, validated: the outcome of `into_registry` on a
/// file the text reads as.
pub open spec fn loaded(text: Seq<char>, r: Result<Registry, DashboardError>) -> bool {
    exists|f: DashboardFile| kdl_outcome(text, Ok(f)) && #[trigger] registry_outcome(f, r)
}

/// Parses a dashboard text and validates it: the registry it declares,
/// or the first refusal, the reading's before the declaration's.
pub fn load_text(text: &str) -> (r: Result<Registry, LoadError>)
    ensures
        r matches Err(LoadError::Read(e)) ==> kdl_outcome(text@, Err(e)),
        r matches Err(LoadError::Invalid(e)) ==> loaded(text@, Err(e)),
        r matches Ok(reg) ==> loaded(text@, Ok(reg)),
        (exists|e: KdlError| kdl_outcome(text@, Err(e))) ==> (r matches Err(LoadError::Read(_))),
{
    match parse(text) {
        Err(e) => Err(LoadError::Read(e)),
        Ok(f) => {
            let ghost g = f;
            proof {
                assert forall|e: KdlError| !kdl_outcome(text@, Err(e)) by {
                    lemma_outcome_variant(text@, g, e);
                }
            }
            let v = f.into_registry();
            assert(loaded(text@, v));
            match v {
                Ok(reg) => Ok(reg),
                Err(e) => Err(LoadError::Invalid(e)),
            }
        },
    }
}

} // verus!
