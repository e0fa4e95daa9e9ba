//! `rat table`: tab-separated rows in, aligned columns out.

use vstd::prelude::*;

use crate::measure::{
    capped, cells, display_width, pad_display, padded, spaces_of, truncate_display,
    truncated, wrap_display, wrapped, Align, ELLIPSIS,
};
use crate::text::{
    debug_quote, debug_quoted, decimal, decimal_string, lines, lines_of, parse_usize, spaces,
    parsed_usize, push_str, split_on, split_str, str_eq, trim, trimmed, views,
};

verus! {

#[derive(Copy, Clone, PartialEq, Eq, Debug, Default, Structural)]
pub enum Overflow {
    #[default]
    Truncate,
    Wrap,
}

/// Per-column geometry. `width: None` auto-sizes to the widest cell.
#[derive(Copy, Clone, Debug, Default, PartialEq, Eq, Structural)]
pub struct ColumnSpec {
    pub width: Option<usize>,
    pub align: Align,
    pub overflow: Overflow,
}

/// One input line: a row of cells, or a blank spacer passed through.
#[derive(Clone, Debug, PartialEq, Eq)]
pub enum Row {
    Cells(Vec<String>),
    Blank,
}

/// What a row holds: its cells' text, or nothing for a spacer.
pub enum RowView {
    Cells(Seq<Seq<char>>),
    Blank,
}

impl View for Row {
    type V = RowView;

    open spec fn view(&self) -> RowView {
        match self {
            Row::Cells(cells) => RowView::Cells(views(cells@)),
            Row::Blank => RowView::Blank,
        }
    }
}

#[derive(Clone, Debug, PartialEq, Eq)]
pub struct TableSpec {
    pub columns: Vec<ColumnSpec>,
    pub separator: String,
    pub ellipsis: String,
}

impl TableSpec {
    /// No column settings, a two-space gutter, the one-cell ellipsis.
    pub fn default() -> (r: TableSpec)
        ensures
            r.columns@.len() == 0,
            r.separator@ == seq![' ', ' '],
            r.ellipsis@ == seq!['\u{2026}'],
    {
        let mut separator = String::new();
        push_str(&mut separator, "  ");
        let ellipsis = ELLIPSIS.to_owned();
        proof {
            reveal_strlit("  ");
            reveal_strlit("\u{2026}");
            assert(separator@ =~= seq![' ', ' ']);
        }
        TableSpec { columns: Vec::new(), separator, ellipsis }
    }
}

/// Which per-column setting a comma-list entry was for.
#[derive(Copy, Clone, PartialEq, Eq, Debug, Structural)]
pub enum Setting {
    Width,
    Alignment,
    Overflow,
}

/// A comma-list entry that does not parse: the column (1-based), the
/// setting, and the entry as written (trimmed).
#[derive(Clone, Debug, PartialEq, Eq)]
pub struct ColumnError {
    pub column: usize,
    pub setting: Setting,
    pub entry: String,
}

impl ColumnError {
    /// `column N: invalid SETTING "ENTRY"`.
    pub fn message(&self) -> (r: String)
        ensures
            r@ == seq!['c', 'o', 'l', 'u', 'm', 'n', ' '] + decimal(self.column as nat) + seq![
                ':',
                ' ',
                'i',
                'n',
                'v',
                'a',
                'l',
                'i',
                'd',
                ' ',
            ] + setting_word(self.setting) + seq![' '] + debug_quoted(self.entry@),
    {
        let mut r = String::new();
        push_str(&mut r, "column ");
        let n = decimal_string(self.column);
        push_str(&mut r, n.as_str());
        push_str(&mut r, ": invalid ");
        let word = match self.setting {
            Setting::Width => "width",
            Setting::Alignment => "alignment",
            Setting::Overflow => "overflow",
        };
        push_str(&mut r, word);
        push_str(&mut r, " ");
        let q = debug_quote(self.entry.as_str());
        push_str(&mut r, q.as_str());
        proof {
            reveal_strlit("column ");
            reveal_strlit(": invalid ");
            reveal_strlit("width");
            reveal_strlit("alignment");
            reveal_strlit("overflow");
            reveal_strlit(" ");
        }
        r
    }
}

/// The word a setting is named by in an error.
pub open spec fn setting_word(s: Setting) -> Seq<char> {
    match s {
        Setting::Width => seq!['w', 'i', 'd', 't', 'h'],
        Setting::Alignment => seq!['a', 'l', 'i', 'g', 'n', 'm', 'e', 'n', 't'],
        Setting::Overflow => seq!['o', 'v', 'e', 'r', 'f', 'l', 'o', 'w'],
    }
}

// ---------------------------------------------------------------------
// Parsing.
// ---------------------------------------------------------------------

/// The rows `parse_table` reads from `input`.
pub open spec fn table_rows(input: Seq<char>, delimiter: char) -> Seq<RowView> {
    lines_of(input).map_values(
        |line: Seq<char>|
            if line.len() == 0 {
                RowView::Blank
            } else {
                RowView::Cells(split_on(line, delimiter))
            },
    )
}

pub fn parse_table(input: &str, delimiter: char) -> (r: Vec<Row>)
    ensures
        r@.map_values(|row: Row| row@) == table_rows(input@, delimiter),
{
    let ls = lines(input);
    let mut out: Vec<Row> = Vec::new();
    let mut i: usize = 0;
    while i < ls.len()
        invariant
            i <= ls@.len(),
            views(ls@) == lines_of(input@),
            out@.map_values(|row: Row| row@) =~= table_rows(input@, delimiter).take(i as int),
        decreases ls@.len() - i,
    {
        let line = ls[i].as_str();
        let row = if line.is_empty() {
            Row::Blank
        } else {
            Row::Cells(split_str(line, delimiter))
        };
        let ghost before = out@.map_values(|row: Row| row@);
        out.push(row);
        proof {
            assert(ls@[i as int]@ == lines_of(input@)[i as int]);
            assert(out@.map_values(|row: Row| row@) =~= before.push(row@));
            assert(table_rows(input@, delimiter).take(i + 1) =~= table_rows(input@, delimiter).take(
                i as int,
            ).push(table_rows(input@, delimiter)[i as int]));
        }
        i += 1;
    }
    out
}

/// An alignment word: `l`/`left`, `r`/`right`, `c`/`center`.
pub open spec fn align_word(e: Seq<char>) -> Option<Align> {
    if e == seq!['l'] || e == seq!['l', 'e', 'f', 't'] {
        Some(Align::Left)
    } else if e == seq!['r'] || e == seq!['r', 'i', 'g', 'h', 't'] {
        Some(Align::Right)
    } else if e == seq!['c'] || e == seq!['c', 'e', 'n', 't', 'e', 'r'] {
        Some(Align::Center)
    } else {
        None
    }
}

/// An overflow word: `truncate` or `wrap`.
pub open spec fn overflow_word(e: Seq<char>) -> Option<Overflow> {
    if e == seq!['t', 'r', 'u', 'n', 'c', 'a', 't', 'e'] {
        Some(Overflow::Truncate)
    } else if e == seq!['w', 'r', 'a', 'p'] {
        Some(Overflow::Wrap)
    } else {
        None
    }
}

/// What one width entry means: `Some(None)` keeps the default, `None` is an
/// invalid entry.
pub open spec fn width_entry(e: Seq<char>) -> Option<Option<usize>> {
    let t = trimmed(e);
    if t.len() == 0 {
        Some(None)
    } else {
        match parsed_usize(t) {
            Some(n) => Some(Some(n)),
            None => None,
        }
    }
}

pub open spec fn align_entry(e: Seq<char>) -> Option<Option<Align>> {
    let t = trimmed(e);
    if t.len() == 0 {
        Some(None)
    } else {
        match align_word(t) {
            Some(a) => Some(Some(a)),
            None => None,
        }
    }
}

pub open spec fn overflow_entry(e: Seq<char>) -> Option<Option<Overflow>> {
    let t = trimmed(e);
    if t.len() == 0 {
        Some(None)
    } else {
        match overflow_word(t) {
            Some(o) => Some(Some(o)),
            None => None,
        }
    }
}

/// Whether a comma-list entry parses for `setting`.
pub open spec fn entry_ok(setting: Setting, e: Seq<char>) -> bool {
    match setting {
        Setting::Width => width_entry(e) is Some,
        Setting::Alignment => align_entry(e) is Some,
        Setting::Overflow => overflow_entry(e) is Some,
    }
}

/// Whether every entry of a comma list parses for `setting`.
pub open spec fn entries_ok(setting: Setting, entries: Seq<Seq<char>>) -> bool {
    forall|i: int| 0 <= i < entries.len() ==> #[trigger] entry_ok(setting, entries[i])
}

/// Whether `err` reports the first entry of `entries` that does not parse
/// for `setting`.
pub open spec fn reports_first_bad(entries: Seq<Seq<char>>, err: ColumnError, setting: Setting) -> bool {
    let k = err.column - 1;
    &&& 1 <= err.column <= entries.len()
    &&& !entry_ok(setting, entries[k])
    &&& forall|j: int| 0 <= j < k ==> #[trigger] entry_ok(setting, entries[j])
    &&& err.entry@ == trimmed(entries[k])
    &&& err.setting == setting
}

fn align_of(t: &str) -> (r: Option<Align>)
    ensures
        r == align_word(t@),
{
    proof {
        reveal_strlit("l");
        reveal_strlit("left");
        reveal_strlit("r");
        reveal_strlit("right");
        reveal_strlit("c");
        reveal_strlit("center");
    }
    assert("l"@ =~= seq!['l']);
    assert("left"@ =~= seq!['l', 'e', 'f', 't']);
    assert("r"@ =~= seq!['r']);
    assert("right"@ =~= seq!['r', 'i', 'g', 'h', 't']);
    assert("c"@ =~= seq!['c']);
    assert("center"@ =~= seq!['c', 'e', 'n', 't', 'e', 'r']);
    if str_eq(t, "l") || str_eq(t, "left") {
        Some(Align::Left)
    } else if str_eq(t, "r") || str_eq(t, "right") {
        Some(Align::Right)
    } else if str_eq(t, "c") || str_eq(t, "center") {
        Some(Align::Center)
    } else {
        None
    }
}

fn overflow_of(t: &str) -> (r: Option<Overflow>)
    ensures
        r == overflow_word(t@),
{
    proof {
        reveal_strlit("truncate");
        reveal_strlit("wrap");
    }
    assert("truncate"@ =~= seq!['t', 'r', 'u', 'n', 'c', 'a', 't', 'e']);
    assert("wrap"@ =~= seq!['w', 'r', 'a', 'p']);
    if str_eq(t, "truncate") {
        Some(Overflow::Truncate)
    } else if str_eq(t, "wrap") {
        Some(Overflow::Wrap)
    } else {
        None
    }
}

/// Parse a positional comma list of widths; an empty entry keeps the
/// default.
pub fn parse_widths(s: &str) -> (r: Result<Vec<Option<usize>>, ColumnError>)
    ensures
        ({
            let entries = split_on(s@, ',');
            match r {
                Ok(v) => {
                    &&& v@.len() == entries.len()
                    &&& forall|i: int| 0 <= i < v@.len() ==> width_entry(entries[i]) == Some(#[trigger] v@[i])
                },
                Err(e) => reports_first_bad(entries, e, Setting::Width),
            }
        }),
        r is Ok <==> entries_ok(Setting::Width, split_on(s@, ',')),
{
    let entries = split_str(s, ',');
    let ghost es = views(entries@);
    let mut out: Vec<Option<usize>> = Vec::new();
    let mut i: usize = 0;
    while i < entries.len()
        invariant
            i <= entries@.len(),
            es == views(entries@),
            es == split_on(s@, ','),
            out@.len() == i,
            forall|j: int| 0 <= j < i ==> width_entry(es[j]) == Some(#[trigger] out@[j]),
            forall|j: int| 0 <= j < i ==> #[trigger] entry_ok(Setting::Width, es[j]),
        decreases entries@.len() - i,
    {
        let t = trim(entries[i].as_str());
        assert(es[i as int] == entries@[i as int]@);
        if t.as_str().is_empty() {
            out.push(None);
        } else {
            match parse_usize(t.as_str()) {
                Some(n) => out.push(Some(n)),
                None => {
                    assert(!entry_ok(Setting::Width, es[i as int]));
                    let entry = t;
                    return Err(ColumnError { column: i + 1, setting: Setting::Width, entry });
                },
            }
        }
        i += 1;
    }
    Ok(out)
}

/// Parse a positional comma list of alignments.
pub fn parse_aligns(s: &str) -> (r: Result<Vec<Option<Align>>, ColumnError>)
    ensures
        ({
            let entries = split_on(s@, ',');
            match r {
                Ok(v) => {
                    &&& v@.len() == entries.len()
                    &&& forall|i: int| 0 <= i < v@.len() ==> align_entry(entries[i]) == Some(#[trigger] v@[i])
                },
                Err(e) => reports_first_bad(entries, e, Setting::Alignment),
            }
        }),
        r is Ok <==> entries_ok(Setting::Alignment, split_on(s@, ',')),
{
    let entries = split_str(s, ',');
    let ghost es = views(entries@);
    let mut out: Vec<Option<Align>> = Vec::new();
    let mut i: usize = 0;
    while i < entries.len()
        invariant
            i <= entries@.len(),
            es == views(entries@),
            es == split_on(s@, ','),
            out@.len() == i,
            forall|j: int| 0 <= j < i ==> align_entry(es[j]) == Some(#[trigger] out@[j]),
            forall|j: int| 0 <= j < i ==> #[trigger] entry_ok(Setting::Alignment, es[j]),
        decreases entries@.len() - i,
    {
        let t = trim(entries[i].as_str());
        assert(es[i as int] == entries@[i as int]@);
        if t.as_str().is_empty() {
            out.push(None);
        } else {
            match align_of(t.as_str()) {
                Some(a) => out.push(Some(a)),
                None => {
                    assert(!entry_ok(Setting::Alignment, es[i as int]));
                    let entry = t;
                    return Err(ColumnError { column: i + 1, setting: Setting::Alignment, entry });
                },
            }
        }
        i += 1;
    }
    Ok(out)
}

/// Parse a positional comma list of overflow modes.
pub fn parse_overflows(s: &str) -> (r: Result<Vec<Option<Overflow>>, ColumnError>)
    ensures
        ({
            let entries = split_on(s@, ',');
            match r {
                Ok(v) => {
                    &&& v@.len() == entries.len()
                    &&& forall|i: int| 0 <= i < v@.len() ==> overflow_entry(entries[i]) == Some(#[trigger] v@[i])
                },
                Err(e) => reports_first_bad(entries, e, Setting::Overflow),
            }
        }),
        r is Ok <==> entries_ok(Setting::Overflow, split_on(s@, ',')),
{
    let entries = split_str(s, ',');
    let ghost es = views(entries@);
    let mut out: Vec<Option<Overflow>> = Vec::new();
    let mut i: usize = 0;
    while i < entries.len()
        invariant
            i <= entries@.len(),
            es == views(entries@),
            es == split_on(s@, ','),
            out@.len() == i,
            forall|j: int| 0 <= j < i ==> overflow_entry(es[j]) == Some(#[trigger] out@[j]),
            forall|j: int| 0 <= j < i ==> #[trigger] entry_ok(Setting::Overflow, es[j]),
        decreases entries@.len() - i,
    {
        let t = trim(entries[i].as_str());
        assert(es[i as int] == entries@[i as int]@);
        if t.as_str().is_empty() {
            out.push(None);
        } else {
            match overflow_of(t.as_str()) {
                Some(o) => out.push(Some(o)),
                None => {
                    assert(!entry_ok(Setting::Overflow, es[i as int]));
                    let entry = t;
                    return Err(ColumnError { column: i + 1, setting: Setting::Overflow, entry });
                },
            }
        }
        i += 1;
    }
    Ok(out)
}

/// The entries of an optional comma list; absent is no entries.
pub open spec fn opt_entries(o: Option<Seq<char>>) -> Seq<Seq<char>> {
    match o {
        Some(s) => split_on(s, ','),
        None => Seq::empty(),
    }
}

pub open spec fn max_nat(a: nat, b: nat) -> nat {
    if a >= b { a } else { b }
}

/// The column `parse_columns` builds at index `i`.
pub open spec fn column_at(
    w: Seq<Seq<char>>,
    a: Seq<Seq<char>>,
    o: Seq<Seq<char>>,
    i: int,
) -> ColumnSpec {
    ColumnSpec {
        width: if i < w.len() { width_entry(w[i]).unwrap() } else { None },
        align: if i < a.len() {
            match align_entry(a[i]).unwrap() {
                Some(x) => x,
                None => Align::Left,
            }
        } else {
            Align::Left
        },
        overflow: if i < o.len() {
            match overflow_entry(o[i]).unwrap() {
                Some(x) => x,
                None => Overflow::Truncate,
            }
        } else {
            Overflow::Truncate
        },
    }
}

pub open spec fn opt_view(o: Option<&str>) -> Option<Seq<char>> {
    match o {
        Some(s) => Some(s@),
        None => None,
    }
}

/// Build per-column specs from the three positional lists; short lists and
/// empty entries keep that column's default. Widths are checked first,
/// then alignments, then overflow modes.
pub fn parse_columns(
    widths: Option<&str>,
    aligns: Option<&str>,
    overflows: Option<&str>,
) -> (r: Result<Vec<ColumnSpec>, ColumnError>)
    ensures
        ({
            let w = opt_entries(opt_view(widths));
            let a = opt_entries(opt_view(aligns));
            let o = opt_entries(opt_view(overflows));
            &&& (r is Ok <==> entries_ok(Setting::Width, w) && entries_ok(Setting::Alignment, a)
                && entries_ok(Setting::Overflow, o))
            &&& (r matches Err(e) ==> if !entries_ok(Setting::Width, w) {
                reports_first_bad(w, e, Setting::Width)
            } else if !entries_ok(Setting::Alignment, a) {
                reports_first_bad(a, e, Setting::Alignment)
            } else {
                reports_first_bad(o, e, Setting::Overflow)
            })
            &&& (r matches Ok(v) ==> {
                &&& v@.len() == max_nat(max_nat(w.len(), a.len()), o.len())
                &&& forall|i: int| 0 <= i < v@.len() ==> #[trigger] v@[i] == column_at(w, a, o, i)
            })
        }),
{
    let ghost w = opt_entries(opt_view(widths));
    let ghost a = opt_entries(opt_view(aligns));
    let ghost o = opt_entries(opt_view(overflows));
    let ws: Vec<Option<usize>> = match widths {
        Some(s) => parse_widths(s)?,
        None => Vec::new(),
    };
    let al: Vec<Option<Align>> = match aligns {
        Some(s) => parse_aligns(s)?,
        None => Vec::new(),
    };
    let ov: Vec<Option<Overflow>> = match overflows {
        Some(s) => parse_overflows(s)?,
        None => Vec::new(),
    };
    let mut count = ws.len();
    if al.len() > count {
        count = al.len();
    }
    if ov.len() > count {
        count = ov.len();
    }
    let mut out: Vec<ColumnSpec> = Vec::new();
    let mut i: usize = 0;
    while i < count
        invariant
            i <= count,
            count == max_nat(max_nat(w.len(), a.len()), o.len()),
            ws@.len() == w.len(),
            al@.len() == a.len(),
            ov@.len() == o.len(),
            forall|j: int| 0 <= j < ws@.len() ==> width_entry(w[j]) == Some(#[trigger] ws@[j]),
            forall|j: int| 0 <= j < al@.len() ==> align_entry(a[j]) == Some(#[trigger] al@[j]),
            forall|j: int| 0 <= j < ov@.len() ==> overflow_entry(o[j]) == Some(#[trigger] ov@[j]),
            out@.len() == i,
            forall|j: int| 0 <= j < i ==> #[trigger] out@[j] == column_at(w, a, o, j),
        decreases count - i,
    {
        let width = if i < ws.len() {
            ws[i]
        } else {
            None
        };
        let align = if i < al.len() {
            match al[i] {
                Some(x) => x,
                None => Align::Left,
            }
        } else {
            Align::Left
        };
        let overflow = if i < ov.len() {
            match ov[i] {
                Some(x) => x,
                None => Overflow::Truncate,
            }
        } else {
            Overflow::Truncate
        };
        out.push(ColumnSpec { width, align, overflow });
        i += 1;
    }
    Ok(out)
}

// ---------------------------------------------------------------------
// Geometry.
// ---------------------------------------------------------------------

/// Cells in a row: its cell count, zero for a spacer.
pub open spec fn row_len(r: RowView) -> nat {
    match r {
        RowView::Cells(c) => c.len(),
        RowView::Blank => 0,
    }
}

/// The widest row's cell count.
pub open spec fn col_count(rows: Seq<RowView>) -> nat
    decreases rows.len(),
{
    if rows.len() == 0 {
        0
    } else {
        max_nat(col_count(rows.drop_last()), row_len(rows.last()))
    }
}

/// The measured width of cell `i` of a row, if the row has one.
pub open spec fn cell_width(r: RowView, i: int) -> nat {
    match r {
        RowView::Cells(c) => if 0 <= i < c.len() {
            capped(cells(c[i])) as nat
        } else {
            0
        },
        RowView::Blank => 0,
    }
}

/// The widest cell in column `i`.
pub open spec fn auto_width(rows: Seq<RowView>, i: int) -> nat
    decreases rows.len(),
{
    if rows.len() == 0 {
        0
    } else {
        max_nat(auto_width(rows.drop_last(), i), cell_width(rows.last(), i))
    }
}

/// Column `i`'s resolved width: the pin if there is one, else the widest
/// cell.
pub open spec fn resolved_width(rows: Seq<RowView>, columns: Seq<ColumnSpec>, i: int) -> nat {
    if 0 <= i < columns.len() && columns[i].width is Some {
        columns[i].width.unwrap() as nat
    } else {
        auto_width(rows, i)
    }
}

pub open spec fn row_views(rows: Seq<Row>) -> Seq<RowView> {
    rows.map_values(|r: Row| r@)
}

proof fn lemma_auto_width_bound(rows: Seq<RowView>, i: int)
    ensures
        auto_width(rows, i) <= usize::MAX,
    decreases rows.len(),
{
    if rows.len() > 0 {
        lemma_auto_width_bound(rows.drop_last(), i);
    }
}

/// Resolved column widths: a pinned column takes the pin, an auto column
/// takes its widest cell.
pub fn resolve_widths(rows: &[Row], columns: &[ColumnSpec]) -> (r: Vec<usize>)
    ensures
        r@.len() == col_count(row_views(rows@)),
        forall|i: int| 0 <= i < r@.len() ==> #[trigger] r@[i] as nat == resolved_width(row_views(rows@), columns@, i),
{
    let ghost rv = row_views(rows@);
    let mut count: usize = 0;
    let mut k: usize = 0;
    while k < rows.len()
        invariant
            k <= rows@.len(),
            rv == row_views(rows@),
            count as nat == col_count(rv.take(k as int)),
        decreases rows@.len() - k,
    {
        let n = match &rows[k] {
            Row::Cells(c) => c.len(),
            Row::Blank => 0,
        };
        proof {
            assert(rv.take(k + 1).drop_last() =~= rv.take(k as int));
            assert(rv[k as int] == rows@[k as int]@);
        }
        if n > count {
            count = n;
        }
        k += 1;
    }
    assert(rv.take(rows@.len() as int) =~= rv);
    let mut out: Vec<usize> = Vec::new();
    let mut i: usize = 0;
    while i < count
        invariant
            i <= count,
            rv == row_views(rows@),
            count as nat == col_count(rv),
            out@.len() == i,
            forall|j: int| 0 <= j < i ==> #[trigger] out@[j] as nat == resolved_width(rv, columns@, j),
        decreases count - i,
    {
        let pinned = if i < columns.len() {
            columns[i].width
        } else {
            None
        };
        let w = match pinned {
            Some(w) => w,
            None => {
                let mut best: usize = 0;
                let mut k: usize = 0;
                while k < rows.len()
                    invariant
                        k <= rows@.len(),
                        rv == row_views(rows@),
                        best as nat == auto_width(rv.take(k as int), i as int),
                    decreases rows@.len() - k,
                {
                    let cw: usize = match &rows[k] {
                        Row::Cells(c) => if i < c.len() {
                            display_width(c[i].as_str())
                        } else {
                            0
                        },
                        Row::Blank => 0,
                    };
                    proof {
                        assert(rv.take(k + 1).drop_last() =~= rv.take(k as int));
                        assert(rv[k as int] == rows@[k as int]@);
                    }
                    if cw > best {
                        best = cw;
                    }
                    k += 1;
                }
                assert(rv.take(rows@.len() as int) =~= rv);
                best
            },
        };
        out.push(w);
        i += 1;
    }
    out
}

// ---------------------------------------------------------------------
// Rendering.
// ---------------------------------------------------------------------

pub open spec fn col_align(columns: Seq<ColumnSpec>, i: int) -> Align {
    if 0 <= i < columns.len() {
        columns[i].align
    } else {
        Align::Left
    }
}

pub open spec fn col_overflow(columns: Seq<ColumnSpec>, i: int) -> Overflow {
    if 0 <= i < columns.len() {
        columns[i].overflow
    } else {
        Overflow::Truncate
    }
}

/// The text lines one cell renders to at its column width.
pub open spec fn cell_text_lines(cell: Seq<char>, width: nat, overflow: Overflow, ellipsis: Seq<char>) -> Seq<Seq<char>> {
    match overflow {
        Overflow::Wrap => wrapped(cell, width),
        Overflow::Truncate => seq![truncated(cell, width, ellipsis)],
    }
}

/// The final column keeps only left-side alignment padding.
pub open spec fn last_padded(s: Seq<char>, width: nat, align: Align) -> Seq<char> {
    if capped(cells(s)) >= width {
        s
    } else {
        let missing = (width - capped(cells(s))) as nat;
        match align {
            Align::Left => s,
            Align::Right => spaces_of(missing) + s,
            Align::Center => spaces_of(missing / 2) + s,
        }
    }
}

/// The final column pads on the left exactly as any other column would,
/// and drops only the right-hand padding: the full padding of a cell is its
/// last-column form followed by spaces. Right alignment keeps all of its
/// padding, centering keeps the left share, left alignment none.
pub proof fn lemma_last_column_drops_only_right_padding(s: Seq<char>, width: nat, align: Align)
    requires
        cells(s) <= usize::MAX,
    ensures
        exists|k: nat| padded(s, width, align) == last_padded(s, width, align) + spaces_of(k),
        cells(s) < width && align == Align::Center ==> last_padded(s, width, align) == spaces_of(
            ((width - cells(s)) / 2) as nat,
        ) + s,
        cells(s) < width && align == Align::Right ==> padded(s, width, align) == last_padded(s, width, align),
{
    if cells(s) >= width {
        assert(padded(s, width, align) =~= last_padded(s, width, align) + spaces_of(0));
    } else {
        let missing = (width - cells(s)) as nat;
        match align {
            Align::Left => {
                assert(padded(s, width, align) =~= last_padded(s, width, align) + spaces_of(missing));
            },
            Align::Right => {
                assert(padded(s, width, align) =~= last_padded(s, width, align) + spaces_of(0));
            },
            Align::Center => {
                let k = (missing - missing / 2) as nat;
                assert(padded(s, width, align) =~= last_padded(s, width, align) + spaces_of(k));
            },
        }
    }
}

/// Index of the last non-empty part, or -1.
pub open spec fn last_nonempty(parts: Seq<Seq<char>>) -> int
    decreases parts.len(),
{
    if parts.len() == 0 {
        -1
    } else if parts.last().len() > 0 {
        parts.len() - 1
    } else {
        last_nonempty(parts.drop_last())
    }
}

/// Parts joined with `sep` between neighbours.
pub open spec fn joined(parts: Seq<Seq<char>>, sep: Seq<char>) -> Seq<char>
    decreases parts.len(),
{
    if parts.len() == 0 {
        Seq::empty()
    } else if parts.len() == 1 {
        parts[0]
    } else {
        joined(parts.drop_last(), sep) + sep + parts.last()
    }
}

/// One physical output line from per-column text: every column up to the
/// last non-empty one, padded, then joined; trailing empty columns drop.
pub open spec fn physical_line(
    parts: Seq<Seq<char>>,
    widths: Seq<usize>,
    columns: Seq<ColumnSpec>,
    sep: Seq<char>,
) -> Seq<char> {
    let last = last_nonempty(parts);
    if last < 0 {
        Seq::empty()
    } else {
        joined(physical_items(parts, widths, columns, last), sep)
    }
}

/// The padded parts of a physical line whose last non-empty part is at
/// `last`.
pub open spec fn physical_items(
    parts: Seq<Seq<char>>,
    widths: Seq<usize>,
    columns: Seq<ColumnSpec>,
    last: int,
) -> Seq<Seq<char>> {
    Seq::new(
        (last + 1) as nat,
        |i: int|
            if i < last {
                padded(parts[i], widths[i] as nat, col_align(columns, i))
            } else {
                last_padded(parts[i], widths[i] as nat, col_align(columns, i))
            },
    )
}

/// The rendered lines of every cell of a row.
pub open spec fn row_cell_lines(
    row: Seq<Seq<char>>,
    widths: Seq<usize>,
    columns: Seq<ColumnSpec>,
    ellipsis: Seq<char>,
) -> Seq<Seq<Seq<char>>> {
    let n = if row.len() <= widths.len() {
        row.len()
    } else {
        widths.len()
    };
    Seq::new(
        n,
        |i: int| cell_text_lines(row[i], widths[i] as nat, col_overflow(columns, i), ellipsis),
    )
}

/// The tallest cell's line count.
pub open spec fn max_height(lines: Seq<Seq<Seq<char>>>) -> nat
    decreases lines.len(),
{
    if lines.len() == 0 {
        0
    } else {
        max_nat(max_height(lines.drop_last()), lines.last().len())
    }
}

/// The parts of physical line `k`: each cell's `k`-th line, or nothing.
pub open spec fn parts_at(lines: Seq<Seq<Seq<char>>>, k: int) -> Seq<Seq<char>> {
    Seq::new(lines.len(), |i: int| if k < lines[i].len() { lines[i][k] } else { Seq::empty() })
}

/// The physical lines one row renders to.
pub open spec fn row_lines(
    row: Seq<Seq<char>>,
    widths: Seq<usize>,
    columns: Seq<ColumnSpec>,
    sep: Seq<char>,
    ellipsis: Seq<char>,
) -> Seq<Seq<char>> {
    let lines = row_cell_lines(row, widths, columns, ellipsis);
    Seq::new(max_height(lines), |k: int| physical_line(parts_at(lines, k), widths, columns, sep))
}

/// Every row's lines, in order; a spacer is one empty line.
pub open spec fn table_lines(
    rows: Seq<RowView>,
    widths: Seq<usize>,
    columns: Seq<ColumnSpec>,
    sep: Seq<char>,
    ellipsis: Seq<char>,
) -> Seq<Seq<char>>
    decreases rows.len(),
{
    if rows.len() == 0 {
        Seq::empty()
    } else {
        table_lines(rows.drop_last(), widths, columns, sep, ellipsis) + match rows.last() {
            RowView::Blank => seq![Seq::empty()],
            RowView::Cells(c) => row_lines(c, widths, columns, sep, ellipsis),
        }
    }
}

/// The final cell of a line: left-side padding only.
fn pad_last_cell(cell: &str, width: usize, align: Align) -> (r: String)
    ensures
        r@ == last_padded(cell@, width as nat, align),
{
    let current = display_width(cell);
    if current >= width {
        return cell.to_owned();
    }
    let missing = width - current;
    match align {
        Align::Left => cell.to_owned(),
        Align::Right => {
            let mut out = spaces(missing);
            push_str(&mut out, cell);
            out
        },
        Align::Center => {
            let mut out = spaces(missing / 2);
            push_str(&mut out, cell);
            out
        },
    }
}

/// One physical output line from per-column cell text.
fn render_physical(rendered: &Vec<String>, widths: &Vec<usize>, spec: &TableSpec) -> (r: String)
    requires
        rendered@.len() <= widths@.len(),
    ensures
        r@ == physical_line(views(rendered@), widths@, spec.columns@, spec.separator@),
{
    let ghost parts = views(rendered@);
    let len = rendered.len();
    let mut last: usize = len;
    assert(parts.take(len as int) =~= parts);
    while last > 0 && rendered[last - 1].as_str().is_empty()
        invariant
            last <= rendered@.len(),
            parts == views(rendered@),
            last_nonempty(parts) == last_nonempty(parts.take(last as int)),
        decreases last,
    {
        proof {
            assert(parts.take(last as int).drop_last() =~= parts.take(last - 1));
        }
        last -= 1;
    }
    if last == 0 {
        proof {
            assert(parts.take(0).len() == 0);
        }
        return String::new();
    }
    proof {
        assert(parts.take(last as int).last() == parts[last - 1]);
    }
    let end = last;
    let ghost lastg = (last - 1) as int;
    let ghost items = physical_items(parts, widths@, spec.columns@, lastg);
    let mut out = String::new();
    let mut i: usize = 0;
    while i < end
        invariant
            end <= rendered@.len(),
            lastg == end - 1,
            rendered@.len() <= widths@.len(),
            parts == views(rendered@),
            i <= end,
            items == physical_items(parts, widths@, spec.columns@, lastg),
            out@ == joined(items.take(i as int), spec.separator@),
        decreases end - i,
    {
        let align = if i < spec.columns.len() {
            spec.columns[i].align
        } else {
            Align::Left
        };
        let cell = rendered[i].as_str();
        let piece = if i + 1 < end {
            pad_display(cell, widths[i], align)
        } else {
            pad_last_cell(cell, widths[i], align)
        };
        proof {
            assert(parts[i as int] == cell@);
            assert(piece@ == items[i as int]);
            assert(items.take(i + 1).drop_last() =~= items.take(i as int));
        }
        if i > 0 {
            push_str(&mut out, spec.separator.as_str());
        }
        push_str(&mut out, piece.as_str());
        proof {
            if i == 0 {
                assert(items.take(1) =~= seq![items[0]]);
            }
        }
        i += 1;
    }
    proof {
        assert(items.take(end as int) =~= items);
    }
    out
}

/// The physical lines of one row of cells.
fn render_row(cells: &Vec<String>, widths: &Vec<usize>, spec: &TableSpec) -> (r: Vec<String>)
    ensures
        views(r@) == row_lines(views(cells@), widths@, spec.columns@, spec.separator@, spec.ellipsis@),
{
    let ghost lines = row_cell_lines(views(cells@), widths@, spec.columns@, spec.ellipsis@);
    let n = if cells.len() <= widths.len() {
        cells.len()
    } else {
        widths.len()
    };
    let mut cell_lines: Vec<Vec<String>> = Vec::new();
    let mut height: usize = 0;
    let mut i: usize = 0;
    while i < n
        invariant
            i <= n,
            n <= cells@.len(),
            n <= widths@.len(),
            lines.len() == n,
            lines == row_cell_lines(views(cells@), widths@, spec.columns@, spec.ellipsis@),
            cell_lines@.len() == i,
            forall|j: int| 0 <= j < i ==> views(#[trigger] cell_lines@[j]@) == lines[j],
            height as nat == max_height(lines.take(i as int)),
        decreases n - i,
    {
        let overflow = if i < spec.columns.len() {
            spec.columns[i].overflow
        } else {
            Overflow::Truncate
        };
        let cell = cells[i].as_str();
        let rendered: Vec<String> = match overflow {
            Overflow::Wrap => wrap_display(cell, widths[i]),
            Overflow::Truncate => {
                let t = truncate_display(cell, widths[i], spec.ellipsis.as_str());
                let mut v: Vec<String> = Vec::new();
                v.push(t);
                proof {
                    assert(views(v@) =~= seq![t@]);
                }
                v
            },
        };
        proof {
            assert(views(cells@)[i as int] == cell@);
            assert(views(rendered@) == lines[i as int]);
            assert(lines.take(i + 1).drop_last() =~= lines.take(i as int));
            assert(lines.take(i + 1).last() == lines[i as int]);
        }
        if rendered.len() > height {
            height = rendered.len();
        }
        cell_lines.push(rendered);
        i += 1;
    }
    assert(lines.take(n as int) =~= lines);
    let mut out: Vec<String> = Vec::new();
    let mut k: usize = 0;
    while k < height
        invariant
            k <= height,
            height as nat == max_height(lines),
            cell_lines@.len() == n,
            lines.len() == n,
            n <= widths@.len(),
            forall|j: int| 0 <= j < n ==> views(#[trigger] cell_lines@[j]@) == lines[j],
            views(out@) =~= Seq::new(k as nat, |q: int| physical_line(parts_at(lines, q), widths@, spec.columns@, spec.separator@)),
        decreases height - k,
    {
        let mut parts: Vec<String> = Vec::new();
        let mut j: usize = 0;
        while j < n
            invariant
                j <= n,
                cell_lines@.len() == n,
                lines.len() == n,
                forall|q: int| 0 <= q < n ==> views(#[trigger] cell_lines@[q]@) == lines[q],
                parts@.len() == j,
                forall|q: int| 0 <= q < j ==> (#[trigger] parts@[q])@ == parts_at(lines, k as int)[q],
            decreases n - j,
        {
            let col = &cell_lines[j];
            let piece = if k < col.len() {
                col[k].clone()
            } else {
                String::new()
            };
            proof {
                assert(views(col@) == lines[j as int]);
                if k < col@.len() {
                    assert(views(col@)[k as int] == col@[k as int]@);
                }
            }
            parts.push(piece);
            j += 1;
        }
        proof {
            assert(views(parts@) =~= parts_at(lines, k as int));
        }
        let line = render_physical(&parts, widths, spec);
        let ghost before = views(out@);
        out.push(line);
        proof {
            assert(views(out@) =~= before.push(line@));
        }
        k += 1;
    }
    out
}

/// Render rows into aligned lines. Widths resolve once for the whole table;
/// a wrapping cell turns its row into several physical lines; the final
/// non-empty column is never right-padded and trailing empty columns drop
/// their separators.
pub fn render_table(rows: &[Row], spec: &TableSpec) -> (r: Vec<String>)
    ensures
        ({
            let rv = row_views(rows@);
            let widths = Seq::new(
                col_count(rv),
                |i: int| resolved_width(rv, spec.columns@, i) as usize,
            );
            views(r@) == table_lines(rv, widths, spec.columns@, spec.separator@, spec.ellipsis@)
        }),
{
    let widths = resolve_widths(rows, spec.columns.as_slice());
    let ghost rv = row_views(rows@);
    proof {
        let w = Seq::new(col_count(rv), |i: int| resolved_width(rv, spec.columns@, i) as usize);
        assert(widths@ =~= w);
    }
    let mut out: Vec<String> = Vec::new();
    let mut k: usize = 0;
    while k < rows.len()
        invariant
            k <= rows@.len(),
            rv == row_views(rows@),
            views(out@) == table_lines(rv.take(k as int), widths@, spec.columns@, spec.separator@, spec.ellipsis@),
        decreases rows@.len() - k,
    {
        let ghost before = views(out@);
        let lines: Vec<String> = match &rows[k] {
            Row::Blank => {
                let mut v: Vec<String> = Vec::new();
                v.push(String::new());
                proof {
                    assert(views(v@) =~= seq![Seq::<char>::empty()]);
                }
                v
            },
            Row::Cells(c) => render_row(c, &widths, spec),
        };
        let mut j: usize = 0;
        while j < lines.len()
            invariant
                j <= lines@.len(),
                views(out@) =~= before + views(lines@).take(j as int),
            decreases lines@.len() - j,
        {
            let ghost prev = views(out@);
            out.push(lines[j].clone());
            proof {
                assert(views(out@) =~= prev.push(lines@[j as int]@));
                assert(views(lines@).take(j + 1) =~= views(lines@).take(j as int).push(lines@[j as int]@));
            }
            j += 1;
        }
        proof {
            assert(views(lines@).take(lines@.len() as int) =~= views(lines@));
            assert(rv.take(k + 1).drop_last() =~= rv.take(k as int));
            assert(rv[k as int] == rows@[k as int]@);
        }
        k += 1;
    }
    proof {
        assert(rv.take(rows@.len() as int) =~= rv);
    }
    out
}

} // verus!
