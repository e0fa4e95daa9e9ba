//! Joining text blocks side by side or stacked, by display width.

use vstd::prelude::*;

use crate::measure::{capped, cells, display_width, pad_display, padded, spaces_of, Align};
use crate::table::{joined, last_nonempty};
use crate::text::{lines, lines_of, push_str, spaces, views};

verus! {

/// Where a shorter block sits beside a taller one.
#[derive(Copy, Clone, PartialEq, Eq, Debug, Default, Structural)]
pub enum VAlign {
    #[default]
    Top,
    Middle,
    Bottom,
}

/// The `--align` value; which half is legal depends on the direction.
#[derive(Copy, Clone, PartialEq, Eq, Debug, Structural)]
pub enum JoinAlign {
    Top,
    Middle,
    Bottom,
    Left,
    Center,
    Right,
}

/// An alignment given for the other direction of join.
#[derive(Copy, Clone, PartialEq, Eq, Debug, Structural)]
pub enum JoinAlignError {
    /// A horizontal alignment given to a horizontal join (which aligns
    /// vertically).
    NotVertical(JoinAlign),
    /// A vertical alignment given to a vertical join.
    NotHorizontal(JoinAlign),
}

/// The name `Debug` prints for an alignment.
pub open spec fn align_name(a: JoinAlign) -> Seq<char> {
    match a {
        JoinAlign::Top => "Top"@,
        JoinAlign::Middle => "Middle"@,
        JoinAlign::Bottom => "Bottom"@,
        JoinAlign::Left => "Left"@,
        JoinAlign::Center => "Center"@,
        JoinAlign::Right => "Right"@,
    }
}

fn align_name_of(a: JoinAlign) -> (r: &'static str)
    ensures
        r@ == align_name(a),
{
    match a {
        JoinAlign::Top => "Top",
        JoinAlign::Middle => "Middle",
        JoinAlign::Bottom => "Bottom",
        JoinAlign::Left => "Left",
        JoinAlign::Center => "Center",
        JoinAlign::Right => "Right",
    }
}

impl JoinAlignError {
    /// The sentence the alignment is refused with.
    pub fn message(&self) -> (r: String)
        ensures
            r@ == match *self {
                JoinAlignError::NotVertical(a) => "align "@ + align_name(a)
                    + " applies to vertical joins; use top, middle, or bottom"@,
                JoinAlignError::NotHorizontal(a) => "align "@ + align_name(a)
                    + " applies to horizontal joins; use left, center, or right"@,
            },
    {
        let mut r = String::new();
        push_str(&mut r, "align ");
        match self {
            JoinAlignError::NotVertical(a) => {
                push_str(&mut r, align_name_of(*a));
                push_str(&mut r, " applies to vertical joins; use top, middle, or bottom");
            },
            JoinAlignError::NotHorizontal(a) => {
                push_str(&mut r, align_name_of(*a));
                push_str(&mut r, " applies to horizontal joins; use left, center, or right");
            },
        }
        r
    }
}

impl JoinAlign {
    /// The vertical alignment for a horizontal join.
    pub fn vertical(self) -> (r: Result<VAlign, JoinAlignError>)
        ensures
            r == match self {
                JoinAlign::Top => Ok(VAlign::Top),
                JoinAlign::Middle => Ok(VAlign::Middle),
                JoinAlign::Bottom => Ok(VAlign::Bottom),
                other => Err(JoinAlignError::NotVertical(other)),
            },
    {
        match self {
            JoinAlign::Top => Ok(VAlign::Top),
            JoinAlign::Middle => Ok(VAlign::Middle),
            JoinAlign::Bottom => Ok(VAlign::Bottom),
            other => Err(JoinAlignError::NotVertical(other)),
        }
    }

    /// The horizontal alignment for a vertical join.
    pub fn horizontal(self) -> (r: Result<Align, JoinAlignError>)
        ensures
            r == match self {
                JoinAlign::Left => Ok(Align::Left),
                JoinAlign::Center => Ok(Align::Center),
                JoinAlign::Right => Ok(Align::Right),
                other => Err(JoinAlignError::NotHorizontal(other)),
            },
    {
        match self {
            JoinAlign::Left => Ok(Align::Left),
            JoinAlign::Center => Ok(Align::Center),
            JoinAlign::Right => Ok(Align::Right),
            other => Err(JoinAlignError::NotHorizontal(other)),
        }
    }
}

/// Split a block into lines (CRLF-safe); empty input is zero lines.
pub fn parse_block(text: &str) -> (r: Vec<String>)
    ensures
        views(r@) == lines_of(text@),
{
    lines(text)
}

/// The blocks' lines, as text.
pub open spec fn block_views(blocks: Seq<Vec<String>>) -> Seq<Seq<Seq<char>>> {
    blocks.map_values(|b: Vec<String>| views(b@))
}

/// The widest line of a block, in display cells.
pub open spec fn block_width(b: Seq<Seq<char>>) -> nat
    decreases b.len(),
{
    if b.len() == 0 {
        0
    } else {
        let rest = block_width(b.drop_last());
        let w = capped(cells(b.last())) as nat;
        if w > rest {
            w
        } else {
            rest
        }
    }
}

/// The sum of the blocks' widths.
pub open spec fn widths_total(blocks: Seq<Seq<Seq<char>>>) -> nat
    decreases blocks.len(),
{
    if blocks.len() == 0 {
        0
    } else {
        widths_total(blocks.drop_last()) + block_width(blocks.last())
    }
}

/// Cells a horizontal join occupies: block widths plus the gaps.
pub open spec fn horizontal_cells(blocks: Seq<Seq<Seq<char>>>, gap: nat) -> nat {
    widths_total(blocks) + gap * if blocks.len() > 0 {
        (blocks.len() - 1) as nat
    } else {
        0nat
    }
}

/// The tallest block's line count.
pub open spec fn max_height(blocks: Seq<Seq<Seq<char>>>) -> nat
    decreases blocks.len(),
{
    if blocks.len() == 0 {
        0
    } else {
        let rest = max_height(blocks.drop_last());
        if blocks.last().len() > rest {
            blocks.last().len()
        } else {
            rest
        }
    }
}

/// The first row a block of `len` lines occupies in a join `height` tall.
pub open spec fn offset_of(align: VAlign, height: nat, len: nat) -> nat {
    match align {
        VAlign::Top => 0,
        VAlign::Middle => ((height - len) / 2) as nat,
        VAlign::Bottom => (height - len) as nat,
    }
}

/// A block's line on `row`, or nothing.
pub open spec fn segment(block: Seq<Seq<char>>, offset: nat, row: nat) -> Seq<char> {
    if row >= offset && row - offset < block.len() {
        block[row - offset]
    } else {
        Seq::empty()
    }
}

/// Every block's line on `row`.
pub open spec fn row_segments(blocks: Seq<Seq<Seq<char>>>, align: VAlign, row: nat) -> Seq<Seq<char>> {
    Seq::new(
        blocks.len(),
        |i: int| segment(blocks[i], offset_of(align, max_height(blocks), blocks[i].len()), row),
    )
}

/// One joined row: segments up to the last non-empty one, each but the
/// last padded to its block's width, joined with `gap` spaces.
pub open spec fn join_row(blocks: Seq<Seq<Seq<char>>>, align: VAlign, gap: nat, row: nat) -> Seq<char> {
    let segs = row_segments(blocks, align, row);
    let last = last_nonempty(segs);
    if last < 0 {
        Seq::empty()
    } else {
        joined(
            Seq::new(
                (last + 1) as nat,
                |i: int|
                    if i < last {
                        padded(segs[i], block_width(blocks[i]), Align::Left)
                    } else {
                        segs[i]
                    },
            ),
            spaces_of(gap),
        )
    }
}

/// What `join_horizontal` produces.
pub open spec fn joined_horizontally(blocks: Seq<Seq<Seq<char>>>, gap: nat, align: VAlign) -> Seq<Seq<char>> {
    Seq::new(max_height(blocks), |row: int| join_row(blocks, align, gap, row as nat))
}

/// The widest line across all blocks.
pub open spec fn widest(blocks: Seq<Seq<Seq<char>>>) -> nat
    decreases blocks.len(),
{
    if blocks.len() == 0 {
        0
    } else {
        let rest = widest(blocks.drop_last());
        let w = block_width(blocks.last());
        if w > rest {
            w
        } else {
            rest
        }
    }
}

/// A line of a vertical join, moved toward the widest block.
pub open spec fn aligned_line(line: Seq<char>, width: nat, align: Align) -> Seq<char> {
    let current = capped(cells(line)) as nat;
    let missing: nat = if width >= current {
        (width - current) as nat
    } else {
        0
    };
    match align {
        Align::Left => line,
        Align::Center => spaces_of(missing / 2) + line,
        Align::Right => spaces_of(missing) + line,
    }
}

/// What `join_vertical` produces for `blocks`, every line aligned to
/// `width`.
pub open spec fn stacked(blocks: Seq<Seq<Seq<char>>>, gap: nat, align: Align, width: nat) -> Seq<Seq<char>>
    decreases blocks.len(),
{
    if blocks.len() == 0 {
        Seq::empty()
    } else {
        let before = stacked(blocks.drop_last(), gap, align, width);
        let between: Seq<Seq<char>> = if blocks.len() > 1 {
            Seq::new(gap, |i: int| Seq::<char>::empty())
        } else {
            Seq::empty()
        };
        before + between + blocks.last().map_values(|l: Seq<char>| aligned_line(l, width, align))
    }
}

proof fn lemma_block_width_bound(b: Seq<Seq<char>>)
    ensures
        block_width(b) <= usize::MAX,
        forall|i: int| 0 <= i < b.len() ==> capped(cells(#[trigger] b[i])) <= block_width(b),
    decreases b.len(),
{
    if b.len() > 0 {
        lemma_block_width_bound(b.drop_last());
        assert forall|i: int| 0 <= i < b.len() implies capped(cells(#[trigger] b[i])) <= block_width(b) by {
            if i < b.len() - 1 {
                assert(b[i] == b.drop_last()[i]);
            }
        }
    }
}

/// The widest line of one block.
fn width_of_block(block: &Vec<String>) -> (r: usize)
    ensures
        r == block_width(views(block@)),
{
    width_of_lines(block.as_slice())
}

/// The widest of some lines, in display cells.
pub(crate) fn width_of_lines(block: &[String]) -> (r: usize)
    ensures
        r == block_width(views(block@)),
{
    let ghost b = views(block@);
    let mut w: usize = 0;
    let mut i: usize = 0;
    while i < block.len()
        invariant
            i <= block@.len(),
            b == views(block@),
            w == block_width(b.take(i as int)),
        decreases block@.len() - i,
    {
        proof {
            assert(b.take(i + 1).drop_last() =~= b.take(i as int));
            assert(b.take(i + 1).last() == block@[i as int]@);
        }
        let d = display_width(block[i].as_str());
        if d > w {
            w = d;
        }
        i += 1;
    }
    proof {
        assert(b.take(block@.len() as int) =~= b);
    }
    w
}

/// Cells a horizontal join would occupy: block widths plus the gaps.
pub fn horizontal_width(blocks: &[Vec<String>], gap: usize) -> (r: usize)
    requires
        horizontal_cells(block_views(blocks@), gap as nat) <= usize::MAX,
    ensures
        r == horizontal_cells(block_views(blocks@), gap as nat),
{
    let ghost bs = block_views(blocks@);
    let mut total: usize = 0;
    let mut i: usize = 0;
    proof {
        lemma_widths_total_mono(bs, gap as nat);
    }
    while i < blocks.len()
        invariant
            i <= blocks@.len(),
            bs == block_views(blocks@),
            total == widths_total(bs.take(i as int)),
            widths_total(bs) <= usize::MAX,
            forall|k: int| 0 <= k <= bs.len() ==> widths_total(#[trigger] bs.take(k)) <= widths_total(bs),
        decreases blocks@.len() - i,
    {
        proof {
            assert(bs.take(i + 1).drop_last() =~= bs.take(i as int));
            assert(bs.take(i + 1).last() == views(blocks@[i as int]@));
            assert(widths_total(bs.take(i + 1)) <= widths_total(bs));
        }
        total = total + width_of_block(&blocks[i]);
        i += 1;
    }
    proof {
        assert(bs.take(blocks@.len() as int) =~= bs);
    }
    let n = blocks.len();
    if n == 0 {
        total
    } else {
        proof {
            assert(gap * (n - 1) <= usize::MAX) by (nonlinear_arith)
                requires
                    widths_total(bs) + gap * (n - 1) <= usize::MAX,
            ;
        }
        total + gap * (n - 1)
    }
}

proof fn lemma_widths_total_mono(bs: Seq<Seq<Seq<char>>>, gap: nat)
    ensures
        forall|k: int| 0 <= k <= bs.len() ==> widths_total(#[trigger] bs.take(k)) <= widths_total(bs),
    decreases bs.len(),
{
    if bs.len() > 0 {
        lemma_widths_total_mono(bs.drop_last(), gap);
        assert forall|k: int| 0 <= k <= bs.len() implies widths_total(#[trigger] bs.take(k)) <= widths_total(bs) by {
            if k < bs.len() {
                assert(bs.take(k) =~= bs.drop_last().take(k));
            } else {
                assert(bs.take(k) =~= bs);
            }
        }
    }
}

/// Place blocks side by side: each block's lines pad to its widest line,
/// rows join with `gap` spaces, and nothing after the last non-empty
/// segment is emitted.
pub fn join_horizontal(blocks: &[Vec<String>], gap: usize, align: VAlign) -> (r: Vec<String>)
    ensures
        views(r@) == joined_horizontally(block_views(blocks@), gap as nat, align),
{
    let ghost bs = block_views(blocks@);
    let n = blocks.len();
    let mut widths: Vec<usize> = Vec::new();
    let mut height: usize = 0;
    let mut i: usize = 0;
    while i < n
        invariant
            n == blocks@.len(),
            i <= n,
            bs == block_views(blocks@),
            widths@.len() == i,
            forall|k: int| 0 <= k < i ==> #[trigger] widths@[k] == block_width(bs[k]),
            height == max_height(bs.take(i as int)),
        decreases n - i,
    {
        proof {
            assert(bs.take(i + 1).drop_last() =~= bs.take(i as int));
            assert(bs.take(i + 1).last() == bs[i as int]);
            assert(bs[i as int] == views(blocks@[i as int]@));
        }
        widths.push(width_of_block(&blocks[i]));
        if blocks[i].len() > height {
            height = blocks[i].len();
        }
        i += 1;
    }
    proof {
        assert(bs.take(n as int) =~= bs);
        lemma_max_height(bs);
    }
    let gap_text = spaces(gap);
    let mut out: Vec<String> = Vec::new();
    let mut row: usize = 0;
    while row < height
        invariant
            n == blocks@.len(),
            bs == block_views(blocks@),
            height == max_height(bs),
            forall|k: int| 0 <= k < n ==> bs[k].len() <= height,
            widths@.len() == n,
            forall|k: int| 0 <= k < n ==> #[trigger] widths@[k] == block_width(bs[k]),
            gap_text@ == spaces_of(gap as nat),
            row <= height,
            views(out@) == joined_horizontally(bs, gap as nat, align).take(row as int),
        decreases height - row,
    {
        let line = join_one_row(blocks, &widths, &gap_text, gap, height, align, row);
        proof {
            assert(views(out@.push(line)) =~= views(out@).push(line@));
            assert(joined_horizontally(bs, gap as nat, align).take(row + 1) =~= joined_horizontally(
                bs,
                gap as nat,
                align,
            ).take(row as int).push(join_row(bs, align, gap as nat, row as nat)));
        }
        out.push(line);
        row += 1;
    }
    proof {
        assert(joined_horizontally(bs, gap as nat, align).take(height as int) =~= joined_horizontally(
            bs,
            gap as nat,
            align,
        ));
    }
    out
}

proof fn lemma_max_height(bs: Seq<Seq<Seq<char>>>)
    ensures
        forall|k: int| 0 <= k < bs.len() ==> #[trigger] bs[k].len() <= max_height(bs),
    decreases bs.len(),
{
    if bs.len() > 0 {
        lemma_max_height(bs.drop_last());
        assert forall|k: int| 0 <= k < bs.len() implies #[trigger] bs[k].len() <= max_height(bs) by {
            if k < bs.len() - 1 {
                assert(bs[k] == bs.drop_last()[k]);
            }
        }
    }
}

/// Block `k`'s line on `row` in a join `height` tall.
fn row_seg(blocks: &[Vec<String>], height: usize, align: VAlign, row: usize, k: usize) -> (r: &str)
    requires
        k < blocks@.len(),
        height == max_height(block_views(blocks@)),
        forall|j: int| 0 <= j < blocks@.len() ==> block_views(blocks@)[j].len() <= height,
    ensures
        r@ == row_segments(block_views(blocks@), align, row as nat)[k as int],
{
    proof {
        assert(block_views(blocks@)[k as int] == views(blocks@[k as int]@));
    }
    let off = offset_for(align, height, blocks[k].len());
    segment_at(&blocks[k], off, row)
}

/// The block's line on `row`, or the empty string.
fn segment_at(block: &Vec<String>, offset: usize, row: usize) -> (r: &str)
    ensures
        r@ == segment(views(block@), offset as nat, row as nat),
{
    if row >= offset && row - offset < block.len() {
        block[row - offset].as_str()
    } else {
        proof {
            reveal_strlit("");
        }
        ""
    }
}

fn offset_for(align: VAlign, height: usize, len: usize) -> (r: usize)
    requires
        len <= height,
    ensures
        r == offset_of(align, height as nat, len as nat),
{
    match align {
        VAlign::Top => 0,
        VAlign::Middle => (height - len) / 2,
        VAlign::Bottom => height - len,
    }
}

fn join_one_row(
    blocks: &[Vec<String>],
    widths: &Vec<usize>,
    gap_text: &String,
    gap: usize,
    height: usize,
    align: VAlign,
    row: usize,
) -> (r: String)
    requires
        gap_text@ == spaces_of(gap as nat),
        height == max_height(block_views(blocks@)),
        forall|k: int| 0 <= k < blocks@.len() ==> block_views(blocks@)[k].len() <= height,
        widths@.len() == blocks@.len(),
        forall|k: int| 0 <= k < blocks@.len() ==> #[trigger] widths@[k] == block_width(block_views(blocks@)[k]),
    ensures
        r@ == join_row(block_views(blocks@), align, gap as nat, row as nat),
{
    let ghost bs = block_views(blocks@);
    let ghost segs = row_segments(bs, align, row as nat);
    let n = blocks.len();
    // The last block with a line on this row.
    let mut last: usize = n;
    proof {
        assert(segs.take(n as int) =~= segs);
    }
    while last > 0 && row_seg(blocks, height, align, row, last - 1).is_empty()
        invariant
            last <= n,
            n == blocks@.len(),
            bs == block_views(blocks@),
            segs == row_segments(bs, align, row as nat),
            height == max_height(bs),
            forall|k: int| 0 <= k < n ==> bs[k].len() <= height,
            last_nonempty(segs) == last_nonempty(segs.take(last as int)),
        decreases last,
    {
        proof {
            assert(segs.take(last as int).last() == segs[last - 1]);
            assert(segs.take(last as int).drop_last() =~= segs.take(last - 1));
        }
        last = last - 1;
    }
    if last == 0 {
        proof {
            assert(segs.take(0).len() == 0);
        }
        return String::new();
    }
    proof {
        assert(segs.take(last as int).last() == segs[last - 1]);
        assert(segs.take(last as int).last().len() > 0);
        assert(last_nonempty(segs) == last - 1);
    }
    let lastk = last - 1;
    let ghost parts = Seq::new(
        last as nat,
        |i: int|
            if i < lastk {
                padded(segs[i], block_width(bs[i]), Align::Left)
            } else {
                segs[i]
            },
    );
    let mut out = String::new();
    let mut i: usize = 0;
    while i < last
        invariant
            last <= n,
            lastk + 1 == last,
            n == blocks@.len(),
            bs == block_views(blocks@),
            segs == row_segments(bs, align, row as nat),
            height == max_height(bs),
            forall|k: int| 0 <= k < n ==> bs[k].len() <= height,
            widths@.len() == n,
            forall|k: int| 0 <= k < n ==> #[trigger] widths@[k] == block_width(bs[k]),
            parts == Seq::new(
                last as nat,
                |i: int|
                    if i < lastk {
                        padded(segs[i], block_width(bs[i]), Align::Left)
                    } else {
                        segs[i]
                    },
            ),
            i <= last,
            i == 0 ==> out@.len() == 0,
            gap_text@ == spaces_of(gap as nat),
            i > 0 ==> out@ == joined(parts.take(i as int), gap_text@),
        decreases last - i,
    {
        proof {
            assert(bs[i as int] == views(blocks@[i as int]@));
        }
        let off = offset_for(align, height, blocks[i].len());
        let seg = segment_at(&blocks[i], off, row);
        let piece = if i < lastk {
            pad_display(seg, widths[i], Align::Left)
        } else {
            seg.to_owned()
        };
        proof {
            assert(piece@ == parts[i as int]);
            if i > 0 {
                assert(parts.take(i + 1).drop_last() =~= parts.take(i as int));
                assert(parts.take(i + 1).last() == parts[i as int]);
            } else {
                assert(parts.take(1) =~= seq![parts[0]]);
            }
        }
        if i > 0 {
            push_str(&mut out, gap_text.as_str());
        }
        push_str(&mut out, piece.as_str());
        proof {
            if i == 0 {
                assert(out@ =~= parts[0]);
            }
        }
        i += 1;
    }
    proof {
        assert(parts.take(last as int) =~= parts);
    }
    out
}

/// Stack blocks with `gap` blank lines between; non-left alignment pads
/// narrower lines toward the widest block, never inventing trailing
/// spaces.
pub fn join_vertical(blocks: &[Vec<String>], gap: usize, align: Align) -> (r: Vec<String>)
    ensures
        views(r@) == stacked(block_views(blocks@), gap as nat, align, widest(block_views(blocks@))),
{
    let ghost bs = block_views(blocks@);
    let n = blocks.len();
    let mut width: usize = 0;
    let mut i: usize = 0;
    while i < n
        invariant
            n == blocks@.len(),
            i <= n,
            bs == block_views(blocks@),
            width == widest(bs.take(i as int)),
        decreases n - i,
    {
        proof {
            assert(bs.take(i + 1).drop_last() =~= bs.take(i as int));
            assert(bs.take(i + 1).last() == bs[i as int]);
            assert(bs[i as int] == views(blocks@[i as int]@));
        }
        let w = width_of_block(&blocks[i]);
        if w > width {
            width = w;
        }
        i += 1;
    }
    proof {
        assert(bs.take(n as int) =~= bs);
    }
    let ghost wn = width as nat;
    let mut out: Vec<String> = Vec::new();
    let mut i: usize = 0;
    while i < n
        invariant
            n == blocks@.len(),
            i <= n,
            bs == block_views(blocks@),
            wn == width,
            views(out@) == stacked(bs.take(i as int), gap as nat, align, wn),
        decreases n - i,
    {
        let ghost before = views(out@);
        if i > 0 {
            let mut g: usize = 0;
            while g < gap
                invariant
                    g <= gap,
                    views(out@) == before + Seq::new(g as nat, |k: int| Seq::<char>::empty()),
                decreases gap - g,
            {
                let blank = String::new();
                proof {
                    assert(views(out@.push(blank)) =~= views(out@).push(Seq::<char>::empty()));
                    assert(Seq::new((g + 1) as nat, |k: int| Seq::<char>::empty()) =~= Seq::new(
                        g as nat,
                        |k: int| Seq::<char>::empty(),
                    ).push(Seq::<char>::empty()));
                }
                out.push(blank);
                g += 1;
            }
        } else {
            proof {
                assert(views(out@) =~= before + Seq::<Seq<char>>::empty());
            }
        }
        let ghost mid = views(out@);
        let block = &blocks[i];
        let mut j: usize = 0;
        while j < block.len()
            invariant
                j <= block@.len(),
                wn == width,
                views(out@) == mid + views(block@).take(j as int).map_values(
                    |l: Seq<char>| aligned_line(l, wn, align),
                ),
            decreases block@.len() - j,
        {
            let line = block[j].as_str();
            let current = display_width(line);
            let missing = if width >= current {
                width - current
            } else {
                0
            };
            let padded_line = match align {
                Align::Left => line.to_owned(),
                Align::Center => {
                    let mut s = spaces(missing / 2);
                    push_str(&mut s, line);
                    s
                },
                Align::Right => {
                    let mut s = spaces(missing);
                    push_str(&mut s, line);
                    s
                },
            };
            proof {
                assert(padded_line@ == aligned_line(line@, wn, align));
                assert(views(block@).take(j + 1) =~= views(block@).take(j as int).push(line@));
                assert(views(out@.push(padded_line)) =~= views(out@).push(padded_line@));
                assert(views(block@).take(j + 1).map_values(|l: Seq<char>| aligned_line(l, wn, align))
                    =~= views(block@).take(j as int).map_values(|l: Seq<char>| aligned_line(l, wn, align)).push(
                    aligned_line(line@, wn, align),
                ));
            }
            out.push(padded_line);
            j += 1;
        }
        proof {
            assert(views(block@).take(block@.len() as int) =~= views(block@));
            assert(bs.take(i + 1).drop_last() =~= bs.take(i as int));
            assert(bs.take(i + 1).last() == views(block@));
            let between: Seq<Seq<char>> = if i + 1 > 1 {
                Seq::new(gap as nat, |k: int| Seq::<char>::empty())
            } else {
                Seq::empty()
            };
            assert(mid == before + between);
        }
        i += 1;
    }
    proof {
        assert(bs.take(n as int) =~= bs);
    }
    out
}

/// A vertical join never invents trailing spaces: every line it emits
/// ends with the line it was given.
pub proof fn lemma_vertical_adds_no_trailing_spaces(line: Seq<char>, width: nat, align: Align)
    ensures
        aligned_line(line, width, align).len() >= line.len(),
        aligned_line(line, width, align).skip(aligned_line(line, width, align).len() - line.len()) == line,
{
    let a = aligned_line(line, width, align);
    assert(a.skip(a.len() - line.len()) =~= line);
}

/// A horizontal join row ends with the last block's line that has text on
/// that row, unpadded: nothing after the last non-empty segment.
pub proof fn lemma_row_ends_with_its_last_segment(blocks: Seq<Seq<Seq<char>>>, align: VAlign, gap: nat, row: nat)
    requires
        last_nonempty(row_segments(blocks, align, row)) >= 0,
    ensures
        ({
            let segs = row_segments(blocks, align, row);
            let last = last_nonempty(segs);
            let r = join_row(blocks, align, gap, row);
            r.len() >= segs[last].len() && r.skip(r.len() - segs[last].len()) == segs[last]
        }),
{
    let segs = row_segments(blocks, align, row);
    let last = last_nonempty(segs);
    let parts = Seq::new(
        (last + 1) as nat,
        |i: int|
            if i < last {
                padded(segs[i], block_width(blocks[i]), Align::Left)
            } else {
                segs[i]
            },
    );
    let r = joined(parts, spaces_of(gap));
    assert(parts.last() == segs[last]);
    if parts.len() > 1 {
        assert(r == joined(parts.drop_last(), spaces_of(gap)) + spaces_of(gap) + parts.last());
    }
    assert(r.skip(r.len() - segs[last].len()) =~= segs[last]);
}

} // verus!
