//! Pane rendering: one source's output pinned into its declared box.
//!
//! `PaneBox::title` is the declaration and `PaneChrome::title` the
//! resolution: only the loop knows the source's name, so the default is
//! applied there and `render_pane` uses `chrome.title` verbatim.

use vstd::prelude::*;

use crate::box_model::{box_fits, box_has_its_width, boxed, holds_whole, render_box, BoxSpec};
use crate::color::ColorProfile;
use crate::measure::{pad_display, padded, truncate_display, truncated, Align, ELLIPSIS};
use crate::registry::{edge_of, Overflow, PaneBox, PaneGeometry};
use crate::style_spec::{no_style, style_fits, styled, Color, StyleSpec};
use crate::text::{push_str, views};

verus! {

/// Which cells of one line changed against the previous distinct frame.
#[derive(Clone, PartialEq, Eq, Debug, Default)]
pub struct LineMark {
    pub changed: bool,
    /// Character ranges, start inclusive, end exclusive.
    pub cells: Vec<std::ops::Range<usize>>,
}

/// A mark as plain values: whether it changed and its ranges.
pub open spec fn mark_view(m: LineMark) -> (bool, Seq<(usize, usize)>) {
    (m.changed, m.cells@.map_values(|r: std::ops::Range<usize>| (r.start, r.end)))
}

/// A rendered block and its marks in the block's own line coordinates.
#[derive(Clone, PartialEq, Eq, Debug, Default)]
pub struct PaneBlock {
    pub lines: Vec<String>,
    pub marks: Vec<LineMark>,
}

/// The chrome row's inputs, resolved by the loop.
pub struct PaneChrome<'a> {
    pub title: &'a str,
    /// `every 60s`, `every 60s or on trigger`, `on trigger` or `once`.
    pub cadence: &'a str,
    /// `12:04:31` or `2m ago`: the pane's last change.
    pub stamp: &'a str,
    /// `exit 3` when the pane failed.
    pub failure: Option<&'a str>,
}

/// The faint style of the chrome row.
pub open spec fn faint_style() -> StyleSpec {
    StyleSpec { faint: true, ..no_style() }
}

/// `{cadence} · {stamp}`, plus the failure badge when the pane failed.
pub open spec fn chrome_text(cadence: Seq<char>, stamp: Seq<char>, failure: Option<Seq<char>>) -> Seq<char> {
    cadence + " \u{b7} "@ + stamp + match failure {
        Some(f) => " \u{b7} "@ + f,
        None => Seq::empty(),
    }
}

/// The chrome row: faint, right-aligned, truncated from the right to the
/// inner width.
pub open spec fn chrome_line(cadence: Seq<char>, stamp: Seq<char>, failure: Option<Seq<char>>, cols: nat, profile: ColorProfile) -> Seq<char> {
    padded(styled(faint_style(), truncated(chrome_text(cadence, stamp, failure), cols, ELLIPSIS@), profile), cols, Align::Right)
}

/// How many leading output lines the overflow rule drops.
pub open spec fn dropped_lines(n: nat, rows: nat, overflow: Overflow) -> nat {
    match overflow {
        Overflow::KeepTop => 0,
        Overflow::KeepBottom => if n > rows {
            (n - rows) as nat
        } else {
            0
        },
    }
}

/// The pane's interior: the surviving window of the output, padded with
/// blank rows to the inner height, then the chrome row when the pane has
/// one.
pub open spec fn pane_content(out: Seq<Seq<char>>, rows: nat, overflow: Overflow, chrome_row: Option<Seq<char>>) -> Seq<Seq<char>> {
    let d = dropped_lines(out.len(), rows, overflow);
    let body = Seq::new(rows, |k: int| if d + k < out.len() {
        out[d + k]
    } else {
        Seq::empty()
    });
    match chrome_row {
        Some(c) => body.push(c),
        None => body,
    }
}

/// The box a pane is drawn with.
pub open spec fn pane_spec<'a>(pane: PaneBox, cols: usize, border_color: Color, title: &'a str) -> BoxSpec<'a> {
    BoxSpec {
        content_style: no_style(),
        width: Some(cols),
        align: Align::Left,
        padding: pane.padding,
        border: pane.border,
        border_style: StyleSpec { foreground: Some(border_color), ..no_style() },
        title: Some(title),
        margin: crate::box_model::Sides { top: 0, right: 0, bottom: 0, left: 0 },
        ellipsis: ELLIPSIS,
    }
}

/// The marks in box coordinates: line `k` carries the mark of output line
/// `k - row_shift + dropped` when that line survived and changed, its
/// ranges moved right by `char_shift`; every other line is unmarked.
pub open spec fn mark_at(marks: Seq<LineMark>, k: int, dropped: nat, rows: nat, row_shift: nat, char_shift: nat) -> (bool, Seq<(usize, usize)>) {
    let i = k - row_shift + dropped;
    if row_shift <= k && i < dropped + rows && i < marks.len() && marks[i].changed {
        (true, mark_view(marks[i]).1.map_values(|r: (usize, usize)| ((r.0 + char_shift) as usize, (r.1 + char_shift) as usize)))
    } else {
        (false, Seq::empty())
    }
}

/// Every range end of every mark, moved by `shift`, still fits a `usize`.
pub open spec fn marks_fit(marks: Seq<LineMark>, shift: nat) -> bool {
    forall|i: int, j: int|
        0 <= i < marks.len() && 0 <= j < marks[i].cells@.len() ==> #[trigger] marks[i].cells@[j].start + shift
            <= usize::MAX && marks[i].cells@[j].end + shift <= usize::MAX
}

/// The chrome row text, styled and aligned.
fn chrome_row(chrome: &PaneChrome, cols: usize, profile: ColorProfile) -> (r: String)
    ensures
        r@ == chrome_line(
            chrome.cadence@,
            chrome.stamp@,
            match chrome.failure {
                Some(f) => Some(f@),
                None => None,
            },
            cols as nat,
            profile,
        ),
{
    let mut text = String::new();
    push_str(&mut text, chrome.cadence);
    push_str(&mut text, " \u{b7} ");
    push_str(&mut text, chrome.stamp);
    if let Some(failure) = chrome.failure {
        push_str(&mut text, " \u{b7} ");
        push_str(&mut text, failure);
    }
    proof {
        match chrome.failure {
            Some(f) => {
                assert(text@ =~= chrome_text(chrome.cadence@, chrome.stamp@, Some(f@)));
            },
            None => {
                assert(text@ =~= chrome_text(chrome.cadence@, chrome.stamp@, None));
            },
        }
    }
    let faint = StyleSpec { faint: true, ..StyleSpec::plain() };
    let cut = truncate_display(text.as_str(), cols, ELLIPSIS);
    let styled_text = faint.render(cut.as_str(), profile);
    pad_display(styled_text.as_str(), cols, Align::Right)
}

/// Shift a mark's ranges right.
fn shift_cells(cells: &Vec<std::ops::Range<usize>>, by: usize) -> (r: Vec<std::ops::Range<usize>>)
    requires
        forall|j: int| 0 <= j < cells@.len() ==> #[trigger] cells@[j].start + by <= usize::MAX
            && cells@[j].end + by <= usize::MAX,
    ensures
        r@.map_values(|x: std::ops::Range<usize>| (x.start, x.end)) == cells@.map_values(
            |x: std::ops::Range<usize>| (x.start, x.end),
        ).map_values(|x: (usize, usize)| ((x.0 + by) as usize, (x.1 + by) as usize)),
{
    let mut out: Vec<std::ops::Range<usize>> = Vec::new();
    let mut j: usize = 0;
    while j < cells.len()
        invariant
            j <= cells@.len(),
            out@.len() == j,
            forall|i: int| 0 <= i < cells@.len() ==> #[trigger] cells@[i].start + by <= usize::MAX
                && cells@[i].end + by <= usize::MAX,
            forall|i: int| 0 <= i < j ==> (#[trigger] out@[i]).start == cells@[i].start + by
                && out@[i].end == cells@[i].end + by,
        decreases cells@.len() - j,
    {
        let start = cells[j].start + by;
        let end = cells[j].end + by;
        out.push(start..end);
        j += 1;
    }
    proof {
        assert(out@.map_values(|x: std::ops::Range<usize>| (x.start, x.end)) =~= cells@.map_values(
            |x: std::ops::Range<usize>| (x.start, x.end),
        ).map_values(|x: (usize, usize)| ((x.0 + by) as usize, (x.1 + by) as usize)));
    }
    out
}

/// The lines a pane boxes: its output kept by the overflow rule and padded
/// to the inner height, then the chrome row when it has one.
pub open spec fn pane_lines(output: Seq<Seq<char>>, pane: PaneBox, geom: PaneGeometry, chrome: PaneChrome, profile: ColorProfile) -> Seq<Seq<char>> {
    pane_content(
        output,
        geom.inner_rows as nat,
        pane.overflow,
        if pane.chrome {
            Some(
                chrome_line(
                    chrome.cadence@,
                    chrome.stamp@,
                    match chrome.failure {
                        Some(f) => Some(f@),
                        None => None,
                    },
                    geom.inner_cols as nat,
                    profile,
                ),
            )
        } else {
            None
        },
    )
}

/// Pin one pane's output into its declared box: apply the overflow rule,
/// pad to the inner height, chop or pad to the inner width, append the
/// chrome row, draw the border. Marks arrive in output-line coordinates
/// and leave in box coordinates; marks on dropped lines are dropped.
pub fn render_pane(
    output: &[String],
    marks: &[LineMark],
    pane: &PaneBox,
    geom: PaneGeometry,
    chrome: &PaneChrome,
    border_color: Color,
    profile: ColorProfile,
) -> (r: PaneBlock)
    requires
        style_fits(StyleSpec { foreground: Some(border_color), ..no_style() }, profile),
        geom.inner_cols + pane.padding.left + pane.padding.right <= usize::MAX,
        edge_of(pane.border) + pane.padding.top + geom.inner_rows <= usize::MAX,
        edge_of(pane.border) + pane.padding.left <= usize::MAX,
        marks_fit(marks@, (edge_of(pane.border) + pane.padding.left) as nat),
    ensures
        views(r.lines@) == boxed(
            pane_lines(views(output@), *pane, geom, *chrome, profile),
            pane_spec(*pane, geom.inner_cols as usize, border_color, chrome.title),
            profile,
        ),
        holds_whole(pane_lines(views(output@), *pane, geom, *chrome, profile), pane_spec(*pane, geom.inner_cols as usize, border_color, chrome.title))
            ==> box_has_its_width(
            pane_lines(views(output@), *pane, geom, *chrome, profile),
            pane_spec(*pane, geom.inner_cols as usize, border_color, chrome.title),
            profile,
        ),
        r.marks@.len() == r.lines@.len(),
        forall|k: int| 0 <= k < r.marks@.len() ==> mark_view(#[trigger] r.marks@[k]) == mark_at(
            marks@,
            k,
            dropped_lines(output@.len(), geom.inner_rows as nat, pane.overflow),
            geom.inner_rows as nat,
            (edge_of(pane.border) + pane.padding.top) as nat,
            (edge_of(pane.border) + pane.padding.left) as nat,
        ),
{
    let rows = geom.inner_rows as usize;
    let cols = geom.inner_cols as usize;
    let n = output.len();
    let dropped: usize = match pane.overflow {
        Overflow::KeepTop => 0,
        Overflow::KeepBottom => if n > rows {
            n - rows
        } else {
            0
        },
    };
    let ghost outv = views(output@);
    let ghost chrome_opt = if pane.chrome {
        Some(
            chrome_line(
                chrome.cadence@,
                chrome.stamp@,
                match chrome.failure {
                    Some(f) => Some(f@),
                    None => None,
                },
                cols as nat,
                profile,
            ),
        )
    } else {
        None
    };
    let ghost want = pane_content(outv, rows as nat, pane.overflow, chrome_opt);
    let mut content: Vec<String> = Vec::new();
    let mut k: usize = 0;
    while k < rows
        invariant
            k <= rows,
            n == output@.len(),
            outv == views(output@),
            dropped == dropped_lines(n as nat, rows as nat, pane.overflow),
            dropped <= n,
            views(content@) == Seq::new(k as nat, |j: int| if dropped + j < outv.len() {
                outv[dropped + j]
            } else {
                Seq::empty()
            }),
        decreases rows - k,
    {
        let line = if dropped < n && k < n - dropped {
            output[dropped + k].clone()
        } else {
            String::new()
        };
        proof {
            if !(dropped < n && k < n - dropped) {
                assert(line@ =~= Seq::<char>::empty());
            }
            assert(views(content@.push(line)) =~= views(content@).push(line@));
            assert(views(content@).push(line@) =~= Seq::new((k + 1) as nat, |j: int| if dropped + j < outv.len() {
                outv[dropped + j]
            } else {
                Seq::empty()
            }));
        }
        content.push(line);
        k += 1;
    }
    if pane.chrome {
        let row = chrome_row(chrome, cols, profile);
        proof {
            assert(views(content@.push(row)) =~= views(content@).push(row@));
        }
        content.push(row);
    }
    proof {
        assert(views(content@) =~= want);
    }
    let spec = BoxSpec {
        content_style: StyleSpec::plain(),
        width: Some(cols),
        align: Align::Left,
        padding: pane.padding,
        border: pane.border,
        border_style: StyleSpec { foreground: Some(border_color), ..StyleSpec::plain() },
        title: Some(chrome.title),
        margin: crate::box_model::Sides { top: 0, right: 0, bottom: 0, left: 0 },
        ellipsis: ELLIPSIS,
    };
    proof {
        assert(spec == pane_spec(*pane, cols, border_color, chrome.title));
    }
    let lines = render_box(&content, &spec, profile);
    let edge = pane.edge_cells() as usize;
    let row_shift = edge + pane.padding.top;
    let char_shift = edge + pane.padding.left;
    let total = lines.len();
    let mut shifted: Vec<LineMark> = Vec::new();
    let mut s: usize = 0;
    while s < total
        invariant
            s <= total,
            shifted@.len() == s,
            forall|k: int| 0 <= k < s ==> mark_view(#[trigger] shifted@[k]) == (false, Seq::<(usize, usize)>::empty()),
        decreases total - s,
    {
        let blank = LineMark { changed: false, cells: Vec::new() };
        proof {
            assert(mark_view(blank).1 =~= Seq::<(usize, usize)>::empty());
        }
        shifted.push(blank);
        s += 1;
    }
    let lim = dropped + rows;
    let stop = if marks.len() < lim {
        marks.len()
    } else {
        lim
    };
    let ghost ms = marks@;
    let mut i: usize = dropped;
    while i < stop
        invariant
            dropped <= i,
            i <= stop || stop < dropped,
            stop <= marks@.len(),
            stop <= dropped + rows,
            ms == marks@,
            shifted@.len() == total,
            marks_fit(ms, char_shift as nat),
            row_shift == edge_of(pane.border) + pane.padding.top,
            row_shift + rows <= usize::MAX,
            char_shift == edge_of(pane.border) + pane.padding.left,
            forall|k: int| 0 <= k < total ==> mark_view(#[trigger] shifted@[k]) == (
                if row_shift <= k && k - row_shift + dropped < i {
                    mark_at(ms, k, dropped as nat, rows as nat, row_shift as nat, char_shift as nat)
                } else {
                    (false, Seq::<(usize, usize)>::empty())
                }
            ),
        decreases stop - i,
    {
        if marks[i].changed {
            let slot = i - dropped + row_shift;
            if slot < total {
                let cells = shift_cells(&marks[i].cells, char_shift);
                let m = LineMark { changed: true, cells };
                shifted.set(slot, m);
            }
        }
        i += 1;
    }
    PaneBlock { lines, marks: shifted }
}

} // verus!
