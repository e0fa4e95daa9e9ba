//! The TOML spelling of a dashboard, after it has been read into plain
//! values: one mapping to [`DashboardFile`]. No validation lives here
//! (that is `DashboardFile::into_registry`, the one validation path); the
//! one thing resolved is how a command string becomes words.

use vstd::prelude::*;

use crate::dashboard_file::{copy_words, opt_str, opt_words, DashboardFile, LayoutDecl, PaneDecl};
use crate::pager::{shell_split, split_words};
use crate::text::{debug_quote, debug_quoted, push_str, views};

verus! {

/// A pane's `command`: one string (a script under `shell`, otherwise a
/// shell-words split), or an array (argv, verbatim, no splitting).
#[derive(Clone, Debug, PartialEq, Eq)]
pub enum TomlCommand {
    One(String),
    Many(Vec<String>),
}

/// One `[[pane]]` table, or the `[defaults]` table, as read.
#[derive(Clone, Debug, PartialEq, Eq)]
pub struct TomlPane {
    pub name: Option<String>,
    pub command: Option<TomlCommand>,
    pub shell: Option<bool>,
    pub interval: Option<String>,
    pub trigger: Option<Vec<String>>,
    pub trigger_debounce: Option<String>,
    pub height: Option<u16>,
    pub width: Option<String>,
    pub overflow: Option<String>,
    pub border: Option<String>,
    pub padding: Option<String>,
    pub title: Option<String>,
    pub chrome: Option<bool>,
}

/// One entry of `layout.rows`: a single pane name, or a row of them.
#[derive(Clone, Debug, PartialEq, Eq)]
pub enum TomlRow {
    One(String),
    Many(Vec<String>),
}

/// A whole dashboard file as read.
#[derive(Clone, Debug, PartialEq, Eq)]
pub struct TomlFile {
    pub gap: Option<usize>,
    pub row_gap: Option<usize>,
    pub defaults: Option<TomlPane>,
    pub panes: Vec<TomlPane>,
    pub layout: Option<Vec<TomlRow>>,
}

/// Why a TOML dashboard cannot be read: a one-string command whose quoting
/// does not close, in the pane named here (`defaults` for the defaults).
#[derive(Clone, Debug, PartialEq, Eq)]
pub enum TomlError {
    Unbalanced(String),
}

/// The teaching sentence for an error.
pub open spec fn toml_error_text(e: TomlError) -> Seq<char> {
    match e {
        TomlError::Unbalanced(pane) => "pane "@ + debug_quoted(pane@)
            + ": command has unbalanced quoting (missing closing quote)"@,
    }
}

impl TomlError {
    /// The sentence the file is refused with.
    pub fn message(&self) -> (r: String)
        ensures
            r@ == toml_error_text(*self),
    {
        match self {
            TomlError::Unbalanced(pane) => {
                let mut r = String::new();
                push_str(&mut r, "pane ");
                let q = debug_quote(pane.as_str());
                push_str(&mut r, q.as_str());
                push_str(&mut r, ": command has unbalanced quoting (missing closing quote)");
                proof {
                    reveal_strlit("pane ");
                    reveal_strlit(": command has unbalanced quoting (missing closing quote)");
                    assert(r@ =~= toml_error_text(*self));
                }
                r
            },
        }
    }
}

/// The words a command declares under the given shell mode, or `None`
/// where a one-string command does not split.
pub open spec fn command_words(c: TomlCommand, shell: bool) -> Option<Seq<Seq<char>>> {
    match c {
        TomlCommand::One(s) => if shell {
            Some(seq![s@])
        } else {
            shell_split(s@)
        },
        TomlCommand::Many(v) => Some(views(v@)),
    }
}

/// The name an error about this pane gives it.
pub open spec fn pane_label(p: TomlPane) -> Seq<char> {
    match p.name {
        Some(n) => n@,
        None => "defaults"@,
    }
}

/// Whether the pane's command (if any) reads under the shell mode.
pub open spec fn pane_reads(p: TomlPane, shell: bool) -> bool {
    match p.command {
        Some(c) => command_words(c, shell) is Some,
        None => true,
    }
}

/// `d` is the declaration the table `p` maps to under the shell mode:
/// every field carried over, the command as words.
pub open spec fn pane_mapped(p: TomlPane, shell: bool, d: PaneDecl) -> bool {
    &&& opt_str(d.name) == opt_str(p.name)
    &&& opt_words(d.command) == match p.command {
        Some(c) => command_words(c, shell),
        None => None,
    }
    &&& d.shell == p.shell
    &&& opt_str(d.interval) == opt_str(p.interval)
    &&& opt_words(d.trigger) == opt_words(p.trigger)
    &&& opt_str(d.trigger_debounce) == opt_str(p.trigger_debounce)
    &&& d.height == p.height
    &&& opt_str(d.width) == opt_str(p.width)
    &&& opt_str(d.overflow) == opt_str(p.overflow)
    &&& opt_str(d.border) == opt_str(p.border)
    &&& opt_str(d.padding) == opt_str(p.padding)
    &&& opt_str(d.title) == opt_str(p.title)
    &&& d.chrome == p.chrome
}

/// The shell mode a pane's command is read under: its own, else the
/// defaults'.
pub open spec fn shell_in_force(p: TomlPane, default_shell: bool) -> bool {
    match p.shell {
        Some(b) => b,
        None => default_shell,
    }
}

/// A table with no keys.
pub open spec fn empty_table() -> TomlPane {
    TomlPane {
        name: None,
        command: None,
        shell: None,
        interval: None,
        trigger: None,
        trigger_debounce: None,
        height: None,
        width: None,
        overflow: None,
        border: None,
        padding: None,
        title: None,
        chrome: None,
    }
}

/// The `[defaults]` table, empty when absent.
pub open spec fn defaults_table(f: TomlFile) -> TomlPane {
    match f.defaults {
        Some(p) => p,
        None => empty_table(),
    }
}

/// The shell mode the defaults set (`false` when unset).
pub open spec fn default_shell(f: TomlFile) -> bool {
    match defaults_table(f).shell {
        Some(b) => b,
        None => false,
    }
}

/// Every pane of `ps[..k]` reads.
pub open spec fn panes_read(ps: Seq<TomlPane>, shell: bool, k: int) -> bool {
    forall|i: int| 0 <= i < k ==> pane_reads(#[trigger] ps[i], shell_in_force(ps[i], shell))
}

/// `d` places the one pane named `n`.
pub open spec fn pane_named(d: LayoutDecl, n: Seq<char>) -> bool {
    d matches LayoutDecl::Pane(x) && x@ == n
}

/// `out` is what one layout row declares: a lone name is a pane, a list of
/// one name is that pane, a longer list is a row of panes.
pub open spec fn row_mapped(row: TomlRow, out: LayoutDecl) -> bool {
    match row {
        TomlRow::One(n) => pane_named(out, n@),
        TomlRow::Many(ns) => if ns@.len() == 1 {
            pane_named(out, ns@[0]@)
        } else {
            out matches LayoutDecl::Row(c) && c@.len() == ns@.len() && forall|j: int|
                0 <= j < ns@.len() ==> pane_named(#[trigger] c@[j], ns@[j]@)
        },
    }
}

/// The words of a command under the shell mode.
fn words(command: &TomlCommand, shell: bool, pane: &str) -> (r: Result<Vec<String>, TomlError>)
    ensures
        match command_words(*command, shell) {
            Some(w) => r matches Ok(v) && views(v@) == w,
            None => r matches Err(TomlError::Unbalanced(p)) && p@ == pane@,
        },
{
    match command {
        TomlCommand::One(script) => {
            if shell {
                let mut v: Vec<String> = Vec::new();
                v.push(script.clone());
                proof {
                    assert(views(v@) =~= seq![script@]);
                }
                Ok(v)
            } else {
                match split_words(script.as_str()) {
                    Some(v) => Ok(v),
                    None => Err(TomlError::Unbalanced(pane.to_string())),
                }
            }
        },
        TomlCommand::Many(argv) => Ok(copy_words(argv)),
    }
}

fn copy_str(o: &Option<String>) -> (r: Option<String>)
    ensures
        opt_str(r) == opt_str(*o),
{
    match o {
        Some(s) => Some(s.clone()),
        None => None,
    }
}

fn copy_opt_words(o: &Option<Vec<String>>) -> (r: Option<Vec<String>>)
    ensures
        opt_words(r) == opt_words(*o),
{
    match o {
        Some(v) => Some(copy_words(v)),
        None => None,
    }
}

/// One table as a declaration. `shell` is the one thing resolved against
/// the defaults, because whether a command string splits depends on it.
/// An unbalanced command string is an error naming the pane, never a
/// silently misread declaration.
pub fn pane_decl(pane: &TomlPane, shell: bool) -> (r: Result<PaneDecl, TomlError>)
    ensures
        r is Ok <==> pane_reads(*pane, shell),
        r matches Ok(d) ==> pane_mapped(*pane, shell, d),
        r matches Err(TomlError::Unbalanced(p)) ==> p@ == pane_label(*pane),
{
    let command = match &pane.command {
        Some(c) => {
            let label = match &pane.name {
                Some(n) => n.as_str(),
                None => "defaults",
            };
            proof {
                reveal_strlit("defaults");
            }
            match words(c, shell, label) {
                Ok(v) => Some(v),
                Err(e) => {
                    return Err(e);
                },
            }
        },
        None => None,
    };
    Ok(PaneDecl {
        name: copy_str(&pane.name),
        command,
        shell: pane.shell,
        interval: copy_str(&pane.interval),
        trigger: copy_opt_words(&pane.trigger),
        trigger_debounce: copy_str(&pane.trigger_debounce),
        height: pane.height,
        width: copy_str(&pane.width),
        overflow: copy_str(&pane.overflow),
        border: copy_str(&pane.border),
        padding: copy_str(&pane.padding),
        title: copy_str(&pane.title),
        chrome: pane.chrome,
    })
}

fn empty_pane() -> (r: TomlPane)
    ensures
        r == empty_table(),
{
    TomlPane {
        name: None,
        command: None,
        shell: None,
        interval: None,
        trigger: None,
        trigger_debounce: None,
        height: None,
        width: None,
        overflow: None,
        border: None,
        padding: None,
        title: None,
        chrome: None,
    }
}

/// One layout row as a declaration.
fn row_decl(row: &TomlRow) -> (r: LayoutDecl)
    ensures
        row_mapped(*row, r),
{
    match row {
        TomlRow::One(n) => LayoutDecl::Pane(n.clone()),
        TomlRow::Many(ns) => {
            if ns.len() == 1 {
                return LayoutDecl::Pane(ns[0].clone());
            }
            let mut cells: Vec<LayoutDecl> = Vec::new();
            let mut j: usize = 0;
            while j < ns.len()
                invariant
                    j <= ns@.len(),
                    cells@.len() == j,
                    forall|k: int|
                        0 <= k < j ==> pane_named(#[trigger] cells@[k], ns@[k]@),
                decreases ns@.len() - j,
            {
                cells.push(LayoutDecl::Pane(ns[j].clone()));
                j += 1;
            }
            LayoutDecl::Row(cells)
        },
    }
}

/// The declared layout rows.
fn layout_decls(rows: &Vec<TomlRow>) -> (r: Vec<LayoutDecl>)
    ensures
        r@.len() == rows@.len(),
        forall|i: int| 0 <= i < rows@.len() ==> row_mapped(rows@[i], #[trigger] r@[i]),
{
    let mut out: Vec<LayoutDecl> = Vec::new();
    let mut i: usize = 0;
    while i < rows.len()
        invariant
            i <= rows@.len(),
            out@.len() == i,
            forall|k: int| 0 <= k < i ==> row_mapped(rows@[k], #[trigger] out@[k]),
        decreases rows@.len() - i,
    {
        out.push(row_decl(&rows[i]));
        i += 1;
    }
    out
}

/// The file as a [`DashboardFile`]: the defaults and each pane mapped (a
/// pane's command read under its own `shell`, else the defaults'), the
/// layout rows as declarations. The first table whose command does not
/// split (the defaults first, then the panes in order) refuses the file.
pub fn assemble(file: &TomlFile) -> (r: Result<DashboardFile, TomlError>)
    ensures
        r is Ok <==> pane_reads(defaults_table(*file), default_shell(*file))
            && panes_read(file.panes@, default_shell(*file), file.panes@.len() as int),
        r matches Ok(f) ==> {
            &&& f.gap == file.gap
            &&& f.row_gap == file.row_gap
            &&& pane_mapped(defaults_table(*file), default_shell(*file), f.defaults)
            &&& f.panes@.len() == file.panes@.len()
            &&& forall|i: int|
                0 <= i < f.panes@.len() ==> pane_mapped(
                    file.panes@[i],
                    shell_in_force(file.panes@[i], default_shell(*file)),
                    #[trigger] f.panes@[i],
                )
            &&& (file.layout is None <==> f.layout is None)
            &&& file.layout matches Some(rows) ==> f.layout matches Some(ls) && ls@.len() == rows@.len()
                && forall|i: int| 0 <= i < rows@.len() ==> row_mapped(rows@[i], #[trigger] ls@[i])
        },
        r matches Err(TomlError::Unbalanced(p)) ==> if !pane_reads(defaults_table(*file), default_shell(*file)) {
            p@ == pane_label(defaults_table(*file))
        } else {
            exists|k: int|
                0 <= k < file.panes@.len() && panes_read(file.panes@, default_shell(*file), k)
                    && !pane_reads(#[trigger] file.panes@[k], shell_in_force(file.panes@[k], default_shell(*file)))
                    && p@ == pane_label(file.panes@[k])
        },
{
    let empty = empty_pane();
    let defaults = match &file.defaults {
        Some(p) => p,
        None => &empty,
    };
    let shell = match defaults.shell {
        Some(b) => b,
        None => false,
    };
    let defaults_decl = match pane_decl(defaults, shell) {
        Ok(d) => d,
        Err(e) => {
            return Err(e);
        },
    };
    let mut panes: Vec<PaneDecl> = Vec::new();
    let mut i: usize = 0;
    while i < file.panes.len()
        invariant
            i <= file.panes@.len(),
            shell == default_shell(*file),
            pane_reads(defaults_table(*file), shell),
            pane_mapped(defaults_table(*file), shell, defaults_decl),
            panes@.len() == i,
            panes_read(file.panes@, shell, i as int),
            forall|k: int|
                0 <= k < i ==> pane_mapped(
                    file.panes@[k],
                    shell_in_force(file.panes@[k], shell),
                    #[trigger] panes@[k],
                ),
        decreases file.panes@.len() - i,
    {
        let p = &file.panes[i];
        let own = match p.shell {
            Some(b) => b,
            None => shell,
        };
        match pane_decl(p, own) {
            Ok(d) => panes.push(d),
            Err(e) => {
                proof {
                    let k = i as int;
                    assert(!pane_reads(file.panes@[k], shell_in_force(file.panes@[k], shell)));
                    assert(0 <= k < file.panes@.len() && panes_read(file.panes@, shell, k));
                }
                return Err(e);
            },
        }
        i += 1;
    }
    let layout = match &file.layout {
        Some(rows) => Some(layout_decls(rows)),
        None => None,
    };
    Ok(DashboardFile { gap: file.gap, row_gap: file.row_gap, defaults: defaults_decl, panes, layout })
}

} // verus!
