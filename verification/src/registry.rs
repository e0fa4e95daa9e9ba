//! The pure declaration every entry point constructs: what each source
//! runs, how often, and the box it paints into. Durations are whole
//! milliseconds.

use vstd::prelude::*;

use crate::box_model::{preset_glyphs, BorderPreset, Sides};
use crate::trigger::TriggerSpec;
use crate::text::{debug_quote, debug_quoted, decimal, decimal_string, push_str};

verus! {

/// Stable index of one source: the tag on every outcome and the key of
/// every per-source runtime resource.
#[derive(Copy, Clone, PartialEq, Eq, PartialOrd, Ord, Hash, Debug, Structural)]
pub struct SourceId(pub usize);

/// What one source runs and how often.
#[derive(Clone, PartialEq, Eq, Debug)]
pub struct SourceSpec {
    pub name: String,
    /// argv when `shell` is false; the single script string when it is true.
    pub command: Vec<String>,
    pub shell: bool,
    /// Milliseconds between runs; `None` runs on triggers only.
    pub interval: Option<u64>,
    pub triggers: Vec<TriggerSpec>,
    /// Milliseconds a trigger fire is held before it spawns.
    pub debounce: u64,
}

/// The declared box a source paints into. Height is pinned.
#[derive(Clone, PartialEq, Eq, Debug)]
pub struct PaneBox {
    /// The finished box, borders and chrome included.
    pub height: u16,
    pub width: PaneWidth,
    pub overflow: Overflow,
    pub border: BorderPreset,
    pub padding: Sides,
    /// `None` renders the source's name.
    pub title: Option<String>,
    /// The faint cadence/freshness row, the last interior row.
    pub chrome: bool,
}

#[derive(Copy, Clone, PartialEq, Eq, Debug, Structural)]
pub enum PaneWidth {
    Weight(u16),
    Cells(u16),
}

#[derive(Copy, Clone, PartialEq, Eq, Debug, Default, Structural)]
pub enum Overflow {
    /// Longer content drops its tail.
    #[default]
    KeepTop,
    /// A log tail keeps the bottom instead.
    KeepBottom,
}

/// `min(n, 65535)`.
pub open spec fn sat16(n: int) -> u16 {
    if n <= 0xffff {
        n as u16
    } else {
        0xffffu16
    }
}

/// Rows and cells one border edge consumes.
pub open spec fn edge_of(border: BorderPreset) -> nat {
    if preset_glyphs(border) is Some {
        1
    } else {
        0
    }
}

/// Everything in `height` that is not the child's: both borders, the
/// vertical padding, and the status row.
pub open spec fn frame_rows_of(p: PaneBox) -> u16 {
    sat16(2 * edge_of(p.border) + p.padding.top + p.padding.bottom + if p.chrome {
        1nat
    } else {
        0nat
    })
}

/// Everything in the pane's cells that is not the child's.
pub open spec fn frame_cols_of(p: PaneBox) -> u16 {
    sat16(2 * edge_of(p.border) + p.padding.left + p.padding.right)
}

impl PaneBox {
    /// Rows and cells one border edge consumes: the preset decides.
    pub fn edge_cells(&self) -> (r: u16)
        ensures
            r as nat == edge_of(self.border),
    {
        if self.border.draws() {
            1
        } else {
            0
        }
    }

    /// Both borders, the vertical padding, and the status row.
    pub fn frame_rows(&self) -> (r: u16)
        ensures
            r == frame_rows_of(*self),
    {
        let padding = self.padding.top.saturating_add(self.padding.bottom);
        let capped: u16 = if padding > 0xffff {
            0xffff
        } else {
            padding as u16
        };
        let chrome: u16 = if self.chrome {
            1
        } else {
            0
        };
        (self.edge_cells() * 2).saturating_add(capped).saturating_add(chrome)
    }

    /// Both borders and the horizontal padding.
    pub fn frame_cols(&self) -> (r: u16)
        ensures
            r == frame_cols_of(*self),
    {
        let padding = self.padding.left.saturating_add(self.padding.right);
        let capped: u16 = if padding > 0xffff {
            0xffff
        } else {
            padding as u16
        };
        (self.edge_cells() * 2).saturating_add(capped)
    }
}

/// A vertical stack of rows; a row is one or more panes joined
/// horizontally.
#[derive(PartialEq, Eq, Debug)]
pub enum LayoutNode {
    Pane(SourceId),
    Row(Vec<LayoutNode>),
    Column(Vec<LayoutNode>),
}

/// The pane ids a layout places, depth first, left to right.
pub open spec fn node_ids(n: LayoutNode) -> Seq<usize>
    decreases n, 0nat,
{
    match n {
        LayoutNode::Pane(id) => seq![id.0],
        LayoutNode::Row(c) => list_ids(c@, 0),
        LayoutNode::Column(c) => list_ids(c@, 0),
    }
}

/// The ids placed by `c[i..]`, in order.
pub open spec fn list_ids(c: Seq<LayoutNode>, i: int) -> Seq<usize>
    decreases c, c.len() - i,
{
    if i < 0 || i >= c.len() {
        Seq::empty()
    } else {
        node_ids(c[i]) + list_ids(c, i + 1)
    }
}

/// How drained outputs become one frame.
#[derive(PartialEq, Eq, Debug)]
pub enum Composition {
    /// `rat watch`: title, stdout, stderr. No geometry, no boxes.
    Plain { title: Option<String> },
    /// `rat dashboard`: declared boxes composed by the layout tree.
    Panes { layout: LayoutNode, gap: usize, row_gap: usize },
}

/// One pane's resolved box for the current terminal width.
#[derive(Copy, Clone, PartialEq, Eq, Debug, Structural)]
pub struct PaneGeometry {
    /// The whole box.
    pub cells: u16,
    /// == `PaneBox::height`.
    pub rows: u16,
    /// Handed to the child as `RAT_WIDTH`.
    pub inner_cols: u16,
    /// Handed to the child as `RAT_HEIGHT`; excludes the chrome row.
    pub inner_rows: u16,
}

/// The whole declaration the loop runs. The index into `sources` and
/// `panes` is the `SourceId`.
#[derive(Debug)]
pub struct Registry {
    sources: Vec<SourceSpec>,
    /// Empty under `Composition::Plain`: watch declares no box.
    panes: Vec<PaneBox>,
    composition: Composition,
}

/// Why a pane declaration cannot run. Names are the sources' names.
#[derive(Clone, PartialEq, Eq, Debug)]
pub enum RegistryError {
    /// `sources` sources but `panes` panes were declared.
    CountMismatch { sources: usize, panes: usize },
    /// The layout places `index`, but only `declared` panes exist.
    UnknownPane { index: usize, declared: usize },
    /// A declared pane the layout never places.
    Unplaced { name: String },
    /// A pane the layout places `count` times.
    PlacedTwice { name: String, count: usize },
    /// A pane whose height leaves no content row: `frame` rows are taken.
    TooShort { name: String, height: u16, frame: u16 },
}

/// The sentence a `RegistryError` reads as.
pub open spec fn registry_error_text(e: RegistryError) -> Seq<char> {
    match e {
    RegistryError::CountMismatch { sources, panes } => decimal(sources as nat)
        + " sources declared but "@ + decimal(panes as nat)
        + " panes: every source paints into exactly one pane"@,
    RegistryError::UnknownPane { index, declared } => "the layout places pane index "@
        + decimal(index as nat) + ", but only "@ + decimal(declared as nat)
        + " panes are declared"@,
    RegistryError::Unplaced { name } => "pane "@ + debug_quoted(name@)
        + " is declared but never placed in the layout"@,
    RegistryError::PlacedTwice { name, count } => "pane "@ + debug_quoted(name@)
        + " is placed "@ + decimal(count as nat) + " times in the layout; place it once"@,
    RegistryError::TooShort { name, height, frame } => "pane "@ + debug_quoted(name@)
        + " is "@ + decimal(height as nat)
        + " rows tall, but its border, padding, and status row already take "@
        + decimal(frame as nat) + ": give it at least "@ + decimal((frame + 1) as nat),
    }
}

impl RegistryError {
    /// The sentence the declaration is refused with.
    pub fn message(&self) -> (r: String)
        ensures
            r@ == registry_error_text(*self),
    {
        let mut r = String::new();
        match self {
            RegistryError::CountMismatch { sources, panes } => {
                push_str(&mut r, decimal_string(*sources).as_str());
                push_str(&mut r, " sources declared but ");
                push_str(&mut r, decimal_string(*panes).as_str());
                push_str(&mut r, " panes: every source paints into exactly one pane");
            },
            RegistryError::UnknownPane { index, declared } => {
                push_str(&mut r, "the layout places pane index ");
                push_str(&mut r, decimal_string(*index).as_str());
                push_str(&mut r, ", but only ");
                push_str(&mut r, decimal_string(*declared).as_str());
                push_str(&mut r, " panes are declared");
            },
            RegistryError::Unplaced { name } => {
                push_str(&mut r, "pane ");
                push_str(&mut r, debug_quote(name.as_str()).as_str());
                push_str(&mut r, " is declared but never placed in the layout");
            },
            RegistryError::PlacedTwice { name, count } => {
                push_str(&mut r, "pane ");
                push_str(&mut r, debug_quote(name.as_str()).as_str());
                push_str(&mut r, " is placed ");
                push_str(&mut r, decimal_string(*count).as_str());
                push_str(&mut r, " times in the layout; place it once");
            },
            RegistryError::TooShort { name, height, frame } => {
                push_str(&mut r, "pane ");
                push_str(&mut r, debug_quote(name.as_str()).as_str());
                push_str(&mut r, " is ");
                push_str(&mut r, decimal_string(*height as usize).as_str());
                push_str(
                    &mut r,
                    " rows tall, but its border, padding, and status row already take ",
                );
                push_str(&mut r, decimal_string(*frame as usize).as_str());
                push_str(&mut r, ": give it at least ");
                push_str(&mut r, decimal_string(*frame as usize + 1).as_str());
            },
        }
        r
    }
}

/// How often `id` occurs in `ids`.
pub open spec fn occurrences(ids: Seq<usize>, id: usize) -> nat
    decreases ids.len(),
{
    if ids.len() == 0 {
        0
    } else {
        occurrences(ids.drop_last(), id) + if ids.last() == id {
            1nat
        } else {
            0nat
        }
    }
}

/// The first id in `ids` at or past `declared`, if any.
pub open spec fn first_unknown(ids: Seq<usize>, declared: nat) -> Option<usize>
    decreases ids.len(),
{
    if ids.len() == 0 {
        None
    } else if ids[0] >= declared {
        Some(ids[0])
    } else {
        first_unknown(ids.skip(1), declared)
    }
}

/// The first source, in declaration order, placed other than once.
pub open spec fn first_misplaced(ids: Seq<usize>, n: nat, from: nat) -> Option<usize>
    decreases n - from,
{
    if from >= n {
        None
    } else if occurrences(ids, from as usize) != 1 {
        Some(from as usize)
    } else {
        first_misplaced(ids, n, from + 1)
    }
}

/// The first pane, in declaration order, too short for its frame.
pub open spec fn first_short(panes: Seq<PaneBox>, from: nat) -> Option<usize>
    decreases panes.len() - from,
{
    if from >= panes.len() {
        None
    } else if panes[from as int].height <= frame_rows_of(panes[from as int]) {
        Some(from as usize)
    } else {
        first_short(panes, from + 1)
    }
}

/// What `Registry::panes` answers: `Ok` exactly when the declaration is
/// coherent, else the first problem in the order the checks run.
pub open spec fn panes_outcome(
    sources: Seq<SourceSpec>,
    panes: Seq<PaneBox>,
    layout: LayoutNode,
    r: Result<(), RegistryError>,
) -> bool {
    let ids = node_ids(layout);
    if sources.len() != panes.len() {
        r == Err::<(), RegistryError>(
            RegistryError::CountMismatch { sources: sources.len() as usize, panes: panes.len() as usize },
        )
    } else if first_unknown(ids, sources.len()) is Some {
        r == Err::<(), RegistryError>(
            RegistryError::UnknownPane {
                index: first_unknown(ids, sources.len()).unwrap(),
                declared: sources.len() as usize,
            },
        )
    } else if first_misplaced(ids, sources.len(), 0) is Some {
        let k = first_misplaced(ids, sources.len(), 0).unwrap();
        if occurrences(ids, k) == 0 {
            r matches Err(RegistryError::Unplaced { name }) && name@ == sources[k as int].name@
        } else {
            r matches Err(RegistryError::PlacedTwice { name, count }) && name@
                == sources[k as int].name@ && count as nat == sat_usize(occurrences(ids, k) as int)
        }
    } else if first_short(panes, 0) is Some {
        let k = first_short(panes, 0).unwrap();
        r matches Err(RegistryError::TooShort { name, height, frame }) && name@
            == sources[k as int].name@ && height == panes[k as int].height && frame
            == frame_rows_of(panes[k as int])
    } else {
        r is Ok
    }
}

/// No pane shrinks below this floor.
pub const MIN_PANE_CELLS: u16 = 8;

/// A `Cells` pane's own cells, never below the floor; zero for a weighted
/// one.
pub open spec fn declared_cells(w: PaneWidth) -> nat {
    match w {
        PaneWidth::Cells(c) => if c < MIN_PANE_CELLS {
            MIN_PANE_CELLS as nat
        } else {
            c as nat
        },
        PaneWidth::Weight(_) => 0,
    }
}

/// A weighted pane's share; weight 0 reads as 1. Zero for a fixed one.
pub open spec fn declared_weight(w: PaneWidth) -> nat {
    match w {
        PaneWidth::Weight(k) => if k == 0 {
            1
        } else {
            k as nat
        },
        PaneWidth::Cells(_) => 0,
    }
}

pub open spec fn sum_cells(ws: Seq<PaneWidth>) -> nat
    decreases ws.len(),
{
    if ws.len() == 0 {
        0
    } else {
        sum_cells(ws.drop_last()) + declared_cells(ws.last())
    }
}

pub open spec fn sum_weights(ws: Seq<PaneWidth>) -> nat
    decreases ws.len(),
{
    if ws.len() == 0 {
        0
    } else {
        sum_weights(ws.drop_last()) + declared_weight(ws.last())
    }
}

/// Weighted panes among `ws`.
pub open spec fn count_weighted(ws: Seq<PaneWidth>) -> nat
    decreases ws.len(),
{
    if ws.len() == 0 {
        0
    } else {
        count_weighted(ws.drop_last()) + if ws.last() is Weight {
            1nat
        } else {
            0nat
        }
    }
}

/// A pane's floored share before the leftover is handed out.
pub open spec fn base_share(w: PaneWidth, pool: nat, weights: nat) -> nat {
    match w {
        PaneWidth::Cells(_) => declared_cells(w),
        PaneWidth::Weight(_) => if weights > 0 {
            pool * declared_weight(w) / weights
        } else {
            0
        },
    }
}

pub open spec fn sum_base(ws: Seq<PaneWidth>, pool: nat, weights: nat) -> nat
    decreases ws.len(),
{
    if ws.len() == 0 {
        0
    } else {
        sum_base(ws.drop_last(), pool, weights) + base_share(ws.last(), pool, weights)
    }
}

pub open spec fn clamp_cells(c: nat) -> u16 {
    if c < MIN_PANE_CELLS {
        MIN_PANE_CELLS
    } else if c > 0xffff {
        0xffffu16
    } else {
        c as u16
    }
}

/// `a - b`, floored at zero.
pub open spec fn minus(a: nat, b: nat) -> nat {
    if a >= b {
        (a - b) as nat
    } else {
        0
    }
}

/// The gap cells between `n` panes, saturating.
pub open spec fn gap_cells(gap: nat, n: nat) -> nat {
    if n == 0 {
        0
    } else if gap * (n - 1) > usize::MAX {
        usize::MAX as nat
    } else {
        gap * (n - 1) as nat
    }
}

/// Cells left for the panes once the gaps are paid.
pub open spec fn usable_cells(total: nat, gap: nat, ws: Seq<PaneWidth>) -> nat {
    minus(total, gap_cells(gap, ws.len()))
}

/// What the weighted panes share once the fixed panes are paid.
pub open spec fn pool_cells(total: nat, gap: nat, ws: Seq<PaneWidth>) -> nat {
    minus(usable_cells(total, gap, ws), sum_cells(ws))
}

/// Cells the flooring left unassigned.
pub open spec fn leftover_cells(total: nat, gap: nat, ws: Seq<PaneWidth>) -> nat {
    minus(
        usable_cells(total, gap, ws),
        sum_base(ws, pool_cells(total, gap, ws), sum_weights(ws)),
    )
}

/// Pane `i`'s cells: its floored share, plus one leftover cell when it is
/// among the first `leftover` weighted panes, clamped to the floor.
pub open spec fn row_share(total: nat, gap: nat, ws: Seq<PaneWidth>, i: int) -> u16 {
    let base = base_share(ws[i], pool_cells(total, gap, ws), sum_weights(ws));
    let bonus: nat = if ws[i] is Weight && count_weighted(ws.take(i)) < leftover_cells(total, gap, ws) {
        1
    } else {
        0
    };
    clamp_cells(base + bonus)
}

proof fn lemma_sums_bounded(ws: Seq<PaneWidth>)
    ensures
        sum_cells(ws) <= ws.len() * 0xffff,
        sum_weights(ws) <= ws.len() * 0xffff,
        count_weighted(ws) <= ws.len(),
    decreases ws.len(),
{
    if ws.len() > 0 {
        lemma_sums_bounded(ws.drop_last());
    }
}

proof fn lemma_weight_le_sum(ws: Seq<PaneWidth>, i: int)
    requires
        0 <= i < ws.len(),
    ensures
        declared_weight(ws[i]) <= sum_weights(ws),
    decreases ws.len(),
{
    if i < ws.len() - 1 {
        lemma_weight_le_sum(ws.drop_last(), i);
    }
}

proof fn lemma_base_share_bound(w: PaneWidth, pool: nat, weights: nat)
    requires
        pool <= 0xffff,
        w is Weight ==> declared_weight(w) <= weights,
    ensures
        base_share(w, pool, weights) <= 0xffff,
{
    if w is Weight && weights > 0 {
        let d = declared_weight(w);
        assert(pool * d / weights <= pool) by (nonlinear_arith)
            requires
                d <= weights,
                weights > 0,
        ;
    }
}

proof fn lemma_sum_base_le(ws: Seq<PaneWidth>, pool: nat, weights: nat)
    requires
        pool <= 0xffff,
        forall|i: int| 0 <= i < ws.len() ==> declared_weight(#[trigger] ws[i]) <= weights,
    ensures
        sum_base(ws, pool, weights) <= ws.len() * 0xffff,
    decreases ws.len(),
{
    if ws.len() > 0 {
        assert forall|i: int| 0 <= i < ws.drop_last().len() implies declared_weight(
            #[trigger] ws.drop_last()[i],
        ) <= weights by {
            assert(ws.drop_last()[i] == ws[i]);
        }
        lemma_sum_base_le(ws.drop_last(), pool, weights);
        lemma_base_share_bound(ws.last(), pool, weights);
    }
}

/// Split a row's cells: `Cells` panes take their own, the remainder is
/// shared by weight, flooring leftovers go left to right, nothing below
/// [`MIN_PANE_CELLS`].
pub fn allocate_row(total: u16, gap: usize, widths: &[PaneWidth]) -> (r: Vec<u16>)
    ensures
        r@.len() == widths@.len(),
        forall|i: int| 0 <= i < r@.len() ==> #[trigger] r@[i] == row_share(total as nat, gap as nat, widths@, i),
{
    let ghost ws = widths@;
    let n = widths.len();
    if n == 0 {
        return Vec::new();
    }
    let gaps: usize = if gap > 0 && n - 1 > usize::MAX / gap {
        proof {
            assert(gap * (n - 1) > usize::MAX) by (nonlinear_arith)
                requires
                    gap > 0,
                    n - 1 > usize::MAX / gap,
            ;
        }
        usize::MAX
    } else {
        proof {
            assert(gap * (n - 1) <= usize::MAX) by (nonlinear_arith)
                requires
                    gap == 0 || n - 1 <= usize::MAX / gap,
            ;
        }
        gap * (n - 1)
    };
    assert(gaps as nat == gap_cells(gap as nat, n as nat));
    let usable: usize = if (total as usize) > gaps {
        total as usize - gaps
    } else {
        0
    };
    proof {
        lemma_sums_bounded(ws);
    }
    let mut fixed: u128 = 0;
    let mut weights: u128 = 0;
    let mut i: usize = 0;
    while i < n
        invariant
            i <= n,
            n == ws.len(),
            ws == widths@,
            fixed as nat == sum_cells(ws.take(i as int)),
            weights as nat == sum_weights(ws.take(i as int)),
        decreases n - i,
    {
        proof {
            assert(ws.take(i + 1).drop_last() =~= ws.take(i as int));
            lemma_sums_bounded(ws.take(i + 1));
            assert((i + 1) * 0xffff <= 0x1_0000_0000_0000_0000 * 0xffff) by (nonlinear_arith)
                requires
                    i + 1 <= 0x1_0000_0000_0000_0000,
            ;
        }
        match widths[i] {
            PaneWidth::Cells(c) => {
                fixed = fixed + if c < MIN_PANE_CELLS {
                    MIN_PANE_CELLS as u128
                } else {
                    c as u128
                };
            },
            PaneWidth::Weight(k) => {
                weights = weights + if k == 0 {
                    1
                } else {
                    k as u128
                };
            },
        }
        i += 1;
    }
    assert(ws.take(n as int) =~= ws);
    let pool: usize = if (usable as u128) > fixed {
        (usable as u128 - fixed) as usize
    } else {
        0
    };
    assert(pool as nat == pool_cells(total as nat, gap as nat, ws));
    assert(pool <= 0xffff);
    proof {
        assert forall|j: int| 0 <= j < ws.len() implies declared_weight(#[trigger] ws[j]) <= weights by {
            lemma_weight_le_sum(ws, j);
        }
    }
    let mut cells: Vec<usize> = Vec::new();
    let mut spent: u128 = 0;
    let mut i: usize = 0;
    while i < n
        invariant
            i <= n,
            n == ws.len(),
            ws == widths@,
            pool <= 0xffff,
            weights as nat == sum_weights(ws),
            forall|j: int| 0 <= j < ws.len() ==> declared_weight(#[trigger] ws[j]) <= weights,
            cells@.len() == i,
            forall|j: int| 0 <= j < i ==> #[trigger] cells@[j] as nat == base_share(ws[j], pool as nat, weights as nat),
            spent as nat == sum_base(ws.take(i as int), pool as nat, weights as nat),
        decreases n - i,
    {
        proof {
            assert(ws.take(i + 1).drop_last() =~= ws.take(i as int));
            assert forall|j: int| 0 <= j < ws.take(i + 1).len() implies declared_weight(
                #[trigger] ws.take(i + 1)[j],
            ) <= weights by {
                assert(ws.take(i + 1)[j] == ws[j]);
            }
            lemma_sum_base_le(ws.take(i + 1), pool as nat, weights as nat);
            assert((i + 1) * 0xffff <= 0x1_0000_0000_0000_0000 * 0xffff) by (nonlinear_arith)
                requires
                    i + 1 <= 0x1_0000_0000_0000_0000,
            ;
            lemma_base_share_bound(ws[i as int], pool as nat, weights as nat);
        }
        let share: usize = match widths[i] {
            PaneWidth::Cells(c) => if c < MIN_PANE_CELLS {
                MIN_PANE_CELLS as usize
            } else {
                c as usize
            },
            PaneWidth::Weight(k) => if weights > 0 {
                let d: usize = if k == 0 {
                    1
                } else {
                    k as usize
                };
                proof {
                    assert(pool * d <= 0xffff * 0xffff) by (nonlinear_arith)
                        requires
                            pool <= 0xffff,
                            d <= 0xffff,
                    ;
                }
                (pool as u128 * d as u128 / weights) as usize
            } else {
                0
            },
        };
        cells.push(share);
        spent = spent + share as u128;
        i += 1;
    }
    assert(ws.take(n as int) =~= ws);
    let mut leftover: usize = if (usable as u128) > spent {
        (usable as u128 - spent) as usize
    } else {
        0
    };
    proof {
        assert forall|j: int| 0 <= j < n implies #[trigger] cells@[j] <= 0xffff by {
            lemma_base_share_bound(ws[j], pool as nat, weights as nat);
        }
    }
    let ghost initial = leftover as nat;
    assert(initial == leftover_cells(total as nat, gap as nat, ws));
    let mut out: Vec<u16> = Vec::new();
    let mut i: usize = 0;
    while i < n
        invariant
            i <= n,
            n == ws.len(),
            ws == widths@,
            cells@.len() == n,
            forall|j: int| 0 <= j < n ==> #[trigger] cells@[j] as nat == base_share(ws[j], pool as nat, weights as nat),
            pool as nat == pool_cells(total as nat, gap as nat, ws),
            weights as nat == sum_weights(ws),
            initial == leftover_cells(total as nat, gap as nat, ws),
            leftover as nat == minus(initial, count_weighted(ws.take(i as int))),
            forall|j: int| 0 <= j < n ==> #[trigger] cells@[j] <= 0xffff,
            out@.len() == i,
            forall|j: int| 0 <= j < i ==> #[trigger] out@[j] == row_share(total as nat, gap as nat, ws, j),
        decreases n - i,
    {
        proof {
            assert(ws.take(i + 1).drop_last() =~= ws.take(i as int));
        }
        let mut c = cells[i];
        let weighted = match widths[i] {
            PaneWidth::Weight(_) => true,
            PaneWidth::Cells(_) => false,
        };
        if weighted && leftover > 0 {
            c = c + 1;
            leftover = leftover - 1;
        }
        let clamped: u16 = if c < MIN_PANE_CELLS as usize {
            MIN_PANE_CELLS
        } else if c > 0xffff {
            0xffff
        } else {
            c as u16
        };
        out.push(clamped);
        i += 1;
    }
    out
}

/// `min(n, usize::MAX)`.
pub open spec fn sat_usize(n: int) -> nat {
    if n <= usize::MAX {
        n as nat
    } else {
        usize::MAX as nat
    }
}

proof fn lemma_occurrences_concat(a: Seq<usize>, b: Seq<usize>, id: usize)
    ensures
        occurrences(a + b, id) == occurrences(a, id) + occurrences(b, id),
    decreases b.len(),
{
    if b.len() == 0 {
        assert(a + b =~= a);
    } else {
        assert((a + b).drop_last() =~= a + b.drop_last());
        lemma_occurrences_concat(a, b.drop_last(), id);
    }
}

proof fn lemma_first_unknown_concat(a: Seq<usize>, b: Seq<usize>, declared: nat)
    ensures
        first_unknown(a + b, declared) == match first_unknown(a, declared) {
            Some(k) => Some(k),
            None => first_unknown(b, declared),
        },
    decreases a.len(),
{
    if a.len() == 0 {
        assert(a + b =~= b);
    } else {
        assert((a + b).skip(1) =~= a.skip(1) + b);
        lemma_first_unknown_concat(a.skip(1), b, declared);
    }
}

/// Tally how often each source appears in the layout, refusing an id the
/// declaration never made. Counts saturate.
fn count_placements(node: &LayoutNode, placed: &mut Vec<usize>, declared: usize) -> (r: Result<
    (),
    RegistryError,
>)
    requires
        old(placed)@.len() == declared,
    ensures
        final(placed)@.len() == declared,
        match first_unknown(node_ids(*node), declared as nat) {
            Some(k) => r == Err::<(), RegistryError>(RegistryError::UnknownPane { index: k, declared }),
            None => r is Ok && forall|id: int| 0 <= id < declared ==> #[trigger] final(placed)@[id] as nat
                == sat_usize(old(placed)@[id] + occurrences(node_ids(*node), id as usize)),
        },
    decreases node,
{
    match node {
        LayoutNode::Pane(id) => {
            proof {
                reveal_with_fuel(occurrences, 2);
                reveal_with_fuel(first_unknown, 2);
                assert(node_ids(*node) =~= seq![id.0]);
                assert(seq![id.0].skip(1) =~= Seq::<usize>::empty());
                assert(seq![id.0].drop_last() =~= Seq::<usize>::empty());
            }
            if id.0 >= placed.len() {
                return Err(RegistryError::UnknownPane { index: id.0, declared });
            }
            let cur = placed[id.0];
            let next = if cur < usize::MAX {
                cur + 1
            } else {
                cur
            };
            placed.set(id.0, next);
            Ok(())
        },
        LayoutNode::Row(children) | LayoutNode::Column(children) => {
            let ghost start = placed@;
            let ghost c = children@;
            proof {
                assert(node_ids(*node) == list_ids(c, 0));
                assert forall|j: int| 0 <= j < c.len() implies decreases_to!(*node => #[trigger] c[j]) by {
                    assert(decreases_to!(*node => *children));
                    assert(decreases_to!(*children => children@));
                    assert(decreases_to!(children@ => c[j]));
                }
            }
            let mut i: usize = 0;
            let ghost mut done: Seq<usize> = Seq::empty();
            while i < children.len()
                invariant
                    i <= c.len(),
                    c == children@,
                    placed@.len() == declared,
                    start.len() == declared,
                    node_ids(*node) == list_ids(c, 0),
                    forall|j: int| 0 <= j < c.len() ==> decreases_to!(*node => #[trigger] c[j]),
                    list_ids(c, 0) == done + list_ids(c, i as int),
                    first_unknown(done, declared as nat) is None,
                    forall|id: int| 0 <= id < declared ==> #[trigger] placed@[id] as nat == sat_usize(
                        start[id] + occurrences(done, id as usize),
                    ),
                decreases c.len() - i,
            {
                let ghost before = placed@;
                proof {
                    assert(list_ids(c, i as int) == node_ids(c[i as int]) + list_ids(c, i + 1));
                    assert(done + (node_ids(c[i as int]) + list_ids(c, i + 1)) =~= (done + node_ids(
                        c[i as int],
                    )) + list_ids(c, i + 1));
                    lemma_first_unknown_concat(done, node_ids(c[i as int]), declared as nat);
                    lemma_first_unknown_concat(done, list_ids(c, i as int), declared as nat);
                }
                proof {
                    assert(decreases_to!(*node => c[i as int]));
                }
                match count_placements(&children[i], placed, declared) {
                    Ok(()) => {},
                    Err(e) => {
                        proof {
                            lemma_first_unknown_concat(
                                done + node_ids(c[i as int]),
                                list_ids(c, i + 1),
                                declared as nat,
                            );
                        }
                        return Err(e);
                    },
                }
                proof {
                    assert forall|id: int| 0 <= id < declared implies #[trigger] placed@[id] as nat
                        == sat_usize(start[id] + occurrences(done + node_ids(c[i as int]), id as usize)) by {
                        lemma_occurrences_concat(done, node_ids(c[i as int]), id as usize);
                    }
                    done = done + node_ids(c[i as int]);
                }
                i += 1;
            }
            proof {
                assert(list_ids(c, c.len() as int) =~= Seq::<usize>::empty());
                assert(done + Seq::<usize>::empty() =~= done);
            }
            Ok(())
        },
    }
}

/// `a - b`, floored at zero, in `u16`.
pub open spec fn sub16(a: u16, b: u16) -> u16 {
    if a >= b {
        (a - b) as u16
    } else {
        0
    }
}

/// A pane's resolved box at `cells` wide.
pub open spec fn geom_of(p: PaneBox, cells: u16) -> PaneGeometry {
    PaneGeometry {
        cells,
        rows: p.height,
        inner_cols: sub16(cells, frame_cols_of(p)),
        inner_rows: sub16(p.height, frame_rows_of(p)),
    }
}

/// The width a layout node declares inside a row: a pane's own, and one
/// equal share for anything else.
pub open spec fn node_width(panes: Seq<PaneBox>, n: LayoutNode) -> PaneWidth {
    match n {
        LayoutNode::Pane(id) => if id.0 < panes.len() {
            panes[id.0 as int].width
        } else {
            PaneWidth::Weight(1)
        },
        _ => PaneWidth::Weight(1),
    }
}

/// The declared widths of a row's children.
pub open spec fn row_widths(panes: Seq<PaneBox>, c: Seq<LayoutNode>) -> Seq<PaneWidth> {
    c.map_values(|n: LayoutNode| node_width(panes, n))
}

/// The cells each child of a row receives.
pub open spec fn row_shares(cells: u16, gap: usize, ws: Seq<PaneWidth>) -> Seq<u16> {
    Seq::new(ws.len(), |i: int| row_share(cells as nat, gap as nat, ws, i))
}

/// Geometry after allocating `n` at `cells` wide into `out`.
pub open spec fn alloc_node(
    panes: Seq<PaneBox>,
    n: LayoutNode,
    cells: u16,
    gap: usize,
    out: Seq<PaneGeometry>,
) -> Seq<PaneGeometry>
    decreases n, 0nat,
{
    match n {
        LayoutNode::Pane(id) => if id.0 < panes.len() && id.0 < out.len() {
            out.update(id.0 as int, geom_of(panes[id.0 as int], cells))
        } else {
            out
        },
        LayoutNode::Column(c) => alloc_list(panes, c@, 0, Seq::new(c@.len(), |i: int| cells), gap, out),
        LayoutNode::Row(c) => alloc_list(
            panes,
            c@,
            0,
            row_shares(cells, gap, row_widths(panes, c@)),
            gap,
            out,
        ),
    }
}

/// Geometry after allocating `c[i..]`, child `j` at `shares[j]` wide.
pub open spec fn alloc_list(
    panes: Seq<PaneBox>,
    c: Seq<LayoutNode>,
    i: int,
    shares: Seq<u16>,
    gap: usize,
    out: Seq<PaneGeometry>,
) -> Seq<PaneGeometry>
    decreases c, c.len() - i,
{
    if i < 0 || i >= c.len() || i >= shares.len() {
        out
    } else {
        alloc_list(panes, c, i + 1, shares, gap, alloc_node(panes, c[i], shares[i], gap, out))
    }
}

/// The zero geometry every source starts from.
pub open spec fn zero_geom() -> PaneGeometry {
    PaneGeometry { cells: 0, rows: 0, inner_cols: 0, inner_rows: 0 }
}

impl Registry {
    pub closed spec fn sources_view(&self) -> Seq<SourceSpec> {
        self.sources@
    }

    pub closed spec fn panes_view(&self) -> Seq<PaneBox> {
        self.panes@
    }

    pub closed spec fn composition_view(&self) -> &Composition {
        &self.composition
    }

    /// The geometry `geometry` resolves for a terminal `size`.
    pub open spec fn spec_geometry(&self, size: (u16, u16)) -> Seq<PaneGeometry> {
        let n = self.sources_view().len();
        match *self.composition_view() {
            Composition::Plain { .. } => Seq::new(
                n,
                |i: int|
                    PaneGeometry {
                        cells: size.0,
                        rows: size.1,
                        inner_cols: size.0,
                        inner_rows: size.1,
                    },
            ),
            Composition::Panes { layout, gap, .. } => alloc_node(
                self.panes_view(),
                layout,
                size.0,
                gap,
                Seq::new(n, |i: int| zero_geom()),
            ),
        }
    }

    /// The N == 1 constructor `rat watch` uses: one source, no box.
    pub fn single(spec: SourceSpec, title: Option<String>) -> (r: Registry)
        ensures
            r.sources_view() == seq![spec],
            r.panes_view().len() == 0,
            *r.composition_view() == (Composition::Plain { title }),
    {
        let mut sources = Vec::new();
        sources.push(spec);
        proof {
            assert(sources@ =~= seq![spec]);
        }
        Registry { sources, panes: Vec::new(), composition: Composition::Plain { title } }
    }

    /// The N-pane constructor. Every way a declaration can be incoherent
    /// fails here, before a single child spawns.
    pub fn panes(
        sources: Vec<SourceSpec>,
        panes: Vec<PaneBox>,
        layout: LayoutNode,
        gap: usize,
        row_gap: usize,
    ) -> (r: Result<Registry, RegistryError>)
        ensures
            panes_outcome(
                sources@,
                panes@,
                layout,
                match r {
                    Ok(_) => Ok(()),
                    Err(e) => Err(e),
                },
            ),
            r matches Ok(reg) ==> reg.sources_view() == sources@ && reg.panes_view() == panes@
                && *reg.composition_view() == (Composition::Panes { layout, gap, row_gap }),
    {
        if sources.len() != panes.len() {
            return Err(RegistryError::CountMismatch { sources: sources.len(), panes: panes.len() });
        }
        let n = sources.len();
        let mut placed: Vec<usize> = Vec::new();
        let mut i: usize = 0;
        while i < n
            invariant
                i <= n,
                placed@.len() == i,
                forall|j: int| 0 <= j < i ==> placed@[j] == 0,
            decreases n - i,
        {
            placed.push(0);
            i += 1;
        }
        let ghost ids = node_ids(layout);
        match count_placements(&layout, &mut placed, n) {
            Ok(()) => {},
            Err(e) => {
                return Err(e);
            },
        }
        let mut k: usize = 0;
        while k < n
            invariant
                k <= n,
                n == sources@.len(),
                n == panes@.len(),
                placed@.len() == n,
                ids == node_ids(layout),
                first_unknown(ids, n as nat) is None,
                forall|id: int| 0 <= id < n ==> #[trigger] placed@[id] as nat == sat_usize(occurrences(ids, id as usize) as int),
                first_misplaced(ids, n as nat, 0) == first_misplaced(ids, n as nat, k as nat),
            decreases n - k,
        {
            let count = placed[k];
            if count == 0 {
                return Err(RegistryError::Unplaced { name: sources[k].name.clone() });
            }
            if count > 1 {
                return Err(RegistryError::PlacedTwice { name: sources[k].name.clone(), count });
            }
            k += 1;
        }
        let mut k: usize = 0;
        while k < n
            invariant
                k <= n,
                n == sources@.len(),
                n == panes@.len(),
                ids == node_ids(layout),
                first_unknown(ids, n as nat) is None,
                first_misplaced(ids, n as nat, 0) is None,
                first_short(panes@, 0) == first_short(panes@, k as nat),
            decreases n - k,
        {
            let frame = panes[k].frame_rows();
            if panes[k].height <= frame {
                assert(first_short(panes@, k as nat) == Some(k));
                return Err(RegistryError::TooShort {
                    name: sources[k].name.clone(),
                    height: panes[k].height,
                    frame,
                });
            }
            k += 1;
        }
        Ok(Registry { sources, panes, composition: Composition::Panes { layout, gap, row_gap } })
    }

    pub fn len(&self) -> (r: usize)
        ensures
            r == self.sources_view().len(),
    {
        self.sources.len()
    }

    pub fn is_empty(&self) -> (r: bool)
        ensures
            r == (self.sources_view().len() == 0),
    {
        self.sources.len() == 0
    }

    /// Every source id, in declaration order.
    pub fn ids(&self) -> (r: Vec<SourceId>)
        ensures
            r@.len() == self.sources_view().len(),
            forall|i: int| 0 <= i < r@.len() ==> #[trigger] r@[i] == SourceId(i as usize),
    {
        let mut out: Vec<SourceId> = Vec::new();
        let mut i: usize = 0;
        while i < self.sources.len()
            invariant
                i <= self.sources@.len(),
                out@.len() == i,
                forall|j: int| 0 <= j < i ==> #[trigger] out@[j] == SourceId(j as usize),
            decreases self.sources@.len() - i,
        {
            out.push(SourceId(i));
            i += 1;
        }
        out
    }

    pub fn spec(&self, id: SourceId) -> (r: &SourceSpec)
        requires
            id.0 < self.sources_view().len(),
        ensures
            *r == self.sources_view()[id.0 as int],
    {
        &self.sources[id.0]
    }

    pub fn pane(&self, id: SourceId) -> (r: Option<&PaneBox>)
        ensures
            match r {
                Some(p) => id.0 < self.panes_view().len() && *p == self.panes_view()[id.0 as int],
                None => id.0 >= self.panes_view().len(),
            },
    {
        if id.0 < self.panes.len() {
            Some(&self.panes[id.0])
        } else {
            None
        }
    }

    pub fn composition(&self) -> (r: &Composition)
        ensures
            *r == *self.composition_view(),
    {
        &self.composition
    }

    /// Per-pane geometry for one terminal size, resolved before the spawn
    /// step so a child can be told its pane's inner size.
    pub fn geometry(&self, size: (u16, u16)) -> (r: Vec<PaneGeometry>)
        ensures
            r@ == self.spec_geometry(size),
    {
        let n = self.sources.len();
        match &self.composition {
            Composition::Plain { .. } => {
                let g = PaneGeometry { cells: size.0, rows: size.1, inner_cols: size.0, inner_rows: size.1 };
                let mut out: Vec<PaneGeometry> = Vec::new();
                let mut i: usize = 0;
                while i < n
                    invariant
                        i <= n,
                        out@.len() == i,
                        forall|j: int| 0 <= j < i ==> #[trigger] out@[j] == g,
                    decreases n - i,
                {
                    out.push(g);
                    i += 1;
                }
                proof {
                    assert(out@ =~= self.spec_geometry(size));
                }
                out
            },
            Composition::Panes { layout, gap, .. } => {
                let mut out: Vec<PaneGeometry> = Vec::new();
                let mut i: usize = 0;
                while i < n
                    invariant
                        i <= n,
                        out@.len() == i,
                        forall|j: int| 0 <= j < i ==> #[trigger] out@[j] == zero_geom(),
                    decreases n - i,
                {
                    out.push(PaneGeometry { cells: 0, rows: 0, inner_cols: 0, inner_rows: 0 });
                    i += 1;
                }
                proof {
                    assert(out@ =~= Seq::new(n as nat, |i: int| zero_geom()));
                }
                self.allocate(layout, size.0, *gap, &mut out);
                out
            },
        }
    }

    /// Resolve `node` at `cells` wide into `out`.
    fn allocate(&self, node: &LayoutNode, cells: u16, gap: usize, out: &mut Vec<PaneGeometry>)
        ensures
            final(out)@ == alloc_node(self.panes@, *node, cells, gap, old(out)@),
        decreases node,
    {
        match node {
            LayoutNode::Pane(id) => {
                if id.0 < self.panes.len() && id.0 < out.len() {
                    let pane = &self.panes[id.0];
                    let fc = pane.frame_cols();
                    let fr = pane.frame_rows();
                    let g = PaneGeometry {
                        cells,
                        rows: pane.height,
                        inner_cols: if cells >= fc {
                            cells - fc
                        } else {
                            0
                        },
                        inner_rows: if pane.height >= fr {
                            pane.height - fr
                        } else {
                            0
                        },
                    };
                    out.set(id.0, g);
                }
            },
            LayoutNode::Column(children) => {
                let ghost c = children@;
                let ghost sh = Seq::new(c.len(), |i: int| cells);
                let ghost start = out@;
                proof {
                    assert forall|j: int| 0 <= j < c.len() implies decreases_to!(*node => #[trigger] c[j]) by {
                        assert(decreases_to!(*node => *children));
                        assert(decreases_to!(*children => children@));
                        assert(decreases_to!(children@ => c[j]));
                    }
                }
                let mut i: usize = 0;
                while i < children.len()
                    invariant
                        i <= c.len(),
                        c == children@,
                        sh == Seq::new(c.len(), |i: int| cells),
                        forall|j: int| 0 <= j < c.len() ==> decreases_to!(*node => #[trigger] c[j]),
                        alloc_list(self.panes@, c, i as int, sh, gap, out@) == alloc_list(
                            self.panes@,
                            c,
                            0,
                            sh,
                            gap,
                            start,
                        ),
                    decreases c.len() - i,
                {
                    proof {
                        assert(decreases_to!(*node => c[i as int]));
                    }
                    self.allocate(&children[i], cells, gap, out);
                    i += 1;
                }
            },
            LayoutNode::Row(children) => {
                let ghost c = children@;
                let ghost start = out@;
                proof {
                    assert forall|j: int| 0 <= j < c.len() implies decreases_to!(*node => #[trigger] c[j]) by {
                        assert(decreases_to!(*node => *children));
                        assert(decreases_to!(*children => children@));
                        assert(decreases_to!(children@ => c[j]));
                    }
                }
                let mut widths: Vec<PaneWidth> = Vec::new();
                let mut k: usize = 0;
                while k < children.len()
                    invariant
                        k <= c.len(),
                        c == children@,
                        widths@ == row_widths(self.panes@, c).take(k as int),
                    decreases c.len() - k,
                {
                    let w = self.width_of(&children[k]);
                    proof {
                        assert(row_widths(self.panes@, c).take(k + 1) =~= row_widths(
                            self.panes@,
                            c,
                        ).take(k as int).push(w));
                    }
                    widths.push(w);
                    k += 1;
                }
                proof {
                    assert(row_widths(self.panes@, c).take(c.len() as int) =~= row_widths(self.panes@, c));
                }
                let shares = allocate_row(cells, gap, widths.as_slice());
                let ghost sh = shares@;
                proof {
                    assert(sh =~= row_shares(cells, gap, row_widths(self.panes@, c)));
                }
                let mut i: usize = 0;
                while i < children.len()
                    invariant
                        i <= c.len(),
                        c == children@,
                        sh == shares@,
                        sh.len() == c.len(),
                        sh == row_shares(cells, gap, row_widths(self.panes@, c)),
                        forall|j: int| 0 <= j < c.len() ==> decreases_to!(*node => #[trigger] c[j]),
                        alloc_list(self.panes@, c, i as int, sh, gap, out@) == alloc_list(
                            self.panes@,
                            c,
                            0,
                            sh,
                            gap,
                            start,
                        ),
                    decreases c.len() - i,
                {
                    proof {
                        assert(decreases_to!(*node => c[i as int]));
                    }
                    self.allocate(&children[i], shares[i], gap, out);
                    i += 1;
                }
            },
        }
    }

    /// The width a node declares inside a row.
    fn width_of(&self, node: &LayoutNode) -> (r: PaneWidth)
        ensures
            r == node_width(self.panes@, *node),
    {
        match node {
            LayoutNode::Pane(id) => if id.0 < self.panes.len() {
                self.panes[id.0].width
            } else {
                PaneWidth::Weight(1)
            },
            _ => PaneWidth::Weight(1),
        }
    }
}


/// `g` is a geometry resolved for the box `p`: its rows are the box's
/// height, its inner rows the height less the frame rows, its inner
/// columns its cells less the frame columns (both saturating).
pub open spec fn geometry_of_box(g: PaneGeometry, p: PaneBox) -> bool {
    &&& g.rows == p.height
    &&& g.inner_rows == sub16(p.height, frame_rows_of(p))
    &&& g.inner_cols == sub16(g.cells, frame_cols_of(p))
}

proof fn lemma_concat_contains(a: Seq<usize>, b: Seq<usize>, x: usize)
    ensures
        (a + b).contains(x) <==> a.contains(x) || b.contains(x),
{
    if (a + b).contains(x) {
        let k = choose|k: int| 0 <= k < (a + b).len() && (a + b)[k] == x;
        if k < a.len() {
            assert(a[k] == x);
        } else {
            assert(b[k - a.len()] == x);
        }
    }
    if a.contains(x) {
        let k = choose|k: int| 0 <= k < a.len() && a[k] == x;
        assert((a + b)[k] == x);
    }
    if b.contains(x) {
        let k = choose|k: int| 0 <= k < b.len() && b[k] == x;
        assert((a + b)[k + a.len()] == x);
    }
}

proof fn lemma_alloc_node_shape(panes: Seq<PaneBox>, n: LayoutNode, cells: u16, gap: usize, out: Seq<PaneGeometry>)
    ensures
        alloc_node(panes, n, cells, gap, out).len() == out.len(),
        forall|j: usize|
            (j as int) < out.len() ==> {
                let g = #[trigger] alloc_node(panes, n, cells, gap, out)[j as int];
                &&& (node_ids(n).contains(j) && (j as int) < panes.len()) ==> geometry_of_box(g, panes[j as int])
                &&& !node_ids(n).contains(j) ==> g == out[j as int]
            },
    decreases n, 0nat,
{
    match n {
        LayoutNode::Pane(id) => {
            assert forall|j: usize| node_ids(n).contains(j) <==> j == id.0 by {
                if j == id.0 {
                    assert(node_ids(n)[0] == j);
                }
            }
        },
        LayoutNode::Column(c) => {
            assert(decreases_to!(n => c));
            assert(decreases_to!(c => c@));
            lemma_alloc_list_shape(panes, c@, 0, Seq::new(c@.len(), |i: int| cells), gap, out);
        },
        LayoutNode::Row(c) => {
            assert(decreases_to!(n => c));
            assert(decreases_to!(c => c@));
            lemma_alloc_list_shape(panes, c@, 0, row_shares(cells, gap, row_widths(panes, c@)), gap, out);
        },
    }
}

proof fn lemma_alloc_list_shape(
    panes: Seq<PaneBox>,
    c: Seq<LayoutNode>,
    i: int,
    shares: Seq<u16>,
    gap: usize,
    out: Seq<PaneGeometry>,
)
    requires
        0 <= i <= c.len(),
        shares.len() == c.len(),
    ensures
        alloc_list(panes, c, i, shares, gap, out).len() == out.len(),
        forall|j: usize|
            (j as int) < out.len() ==> {
                let g = #[trigger] alloc_list(panes, c, i, shares, gap, out)[j as int];
                &&& (list_ids(c, i).contains(j) && (j as int) < panes.len()) ==> geometry_of_box(g, panes[j as int])
                &&& !list_ids(c, i).contains(j) ==> g == out[j as int]
            },
    decreases c, c.len() - i,
{
    if i < c.len() {
        let mid = alloc_node(panes, c[i], shares[i], gap, out);
        lemma_alloc_node_shape(panes, c[i], shares[i], gap, out);
        lemma_alloc_list_shape(panes, c, i + 1, shares, gap, mid);
        assert forall|j: usize| (j as int) < out.len() implies {
            let g = #[trigger] alloc_list(panes, c, i, shares, gap, out)[j as int];
            &&& (list_ids(c, i).contains(j) && (j as int) < panes.len()) ==> geometry_of_box(g, panes[j as int])
            &&& !list_ids(c, i).contains(j) ==> g == out[j as int]
        } by {
            lemma_concat_contains(node_ids(c[i]), list_ids(c, i + 1), j);
            let g1 = mid[j as int];
            let g2 = alloc_list(panes, c, i + 1, shares, gap, mid)[j as int];
        }
    } else {
        assert(list_ids(c, i) =~= Seq::<usize>::empty());
    }
}

proof fn lemma_no_misplaced(ids: Seq<usize>, n: nat, from: nat, k: usize)
    requires
        first_misplaced(ids, n, from) is None,
        from <= k < n,
    ensures
        ids.contains(k),
    decreases n - from,
{
    if from < k {
        lemma_no_misplaced(ids, n, from + 1, k);
    } else {
        lemma_occurrence_is_contained(ids, k);
    }
}

proof fn lemma_occurrence_is_contained(ids: Seq<usize>, k: usize)
    requires
        occurrences(ids, k) >= 1,
    ensures
        ids.contains(k),
    decreases ids.len(),
{
    if ids.last() == k {
        assert(ids[ids.len() - 1] == k);
    } else {
        lemma_occurrence_is_contained(ids.drop_last(), k);
        let m = choose|m: int| 0 <= m < ids.drop_last().len() && ids.drop_last()[m] == k;
        assert(ids[m] == k);
    }
}

/// In a registry that `Registry::panes` accepted, every pane's geometry
/// for a terminal `size` is resolved for its own box: its rows are the
/// declared height, its inner rows that height less the frame rows, and
/// its inner columns its cells less the frame columns. One geometry per
/// source.
pub proof fn lemma_geometry_fits_each_box(
    reg: Registry,
    sources: Seq<SourceSpec>,
    panes: Seq<PaneBox>,
    layout: LayoutNode,
    gap: usize,
    row_gap: usize,
    size: (u16, u16),
)
    requires
        panes_outcome(sources, panes, layout, Ok(())),
        reg.sources_view() == sources,
        reg.panes_view() == panes,
        *reg.composition_view() == (Composition::Panes { layout, gap, row_gap }),
    ensures
        reg.spec_geometry(size).len() == sources.len(),
        forall|i: int| 0 <= i < panes.len() ==> geometry_of_box(#[trigger] reg.spec_geometry(size)[i], panes[i]),
{
    let n = sources.len();
    let zero = Seq::new(n, |i: int| zero_geom());
    assert(panes.len() <= usize::MAX) by {
        assert(reg.panes@.len() == reg.panes.len());
    }
    assert(zero =~= Seq::new(reg.sources_view().len(), |i: int| zero_geom()));
    let geo = alloc_node(panes, layout, size.0, gap, zero);
    assert(reg.spec_geometry(size) == geo);
    lemma_alloc_node_shape(panes, layout, size.0, gap, zero);
    assert forall|i: int| 0 <= i < panes.len() implies geometry_of_box(#[trigger] reg.spec_geometry(size)[i], panes[i]) by {
        let k = i as usize;
        lemma_no_misplaced(node_ids(layout), n, 0, k);
        assert(geo[k as int] == geo[i]);
    }
}

} // verus!
