//! Progress bar presets and the moving block of an indeterminate bar.

use vstd::prelude::*;

use crate::color::ColorProfile;
use crate::measure::{spaces_of, str_width, unicode_str_width};
use crate::style_spec::{style_fits, styled, StyleSpec};
use crate::text::{push_char, push_str, spaces, views};

verus! {

/// What follows the bar: nothing, a percentage, a ratio, or both.
#[derive(Clone, Copy, PartialEq, Eq, Debug, Structural)]
pub enum Annotation {
    NoAnnotation,
    Percent,
    Ratio,
    Both,
}

/// A named pair of fill and empty glyphs.
#[derive(Clone, Copy, PartialEq, Eq, Debug, Structural)]
pub enum BarPreset {
    Blocks,
    Shade,
    Ascii,
    Line,
    Dots,
}

/// The fill and empty glyphs of each preset.
pub open spec fn preset_glyphs(p: BarPreset) -> (char, char) {
    match p {
        BarPreset::Blocks => ('\u{2588}', '\u{2591}'),
        BarPreset::Shade => ('\u{2593}', '\u{2591}'),
        BarPreset::Ascii => ('#', '-'),
        BarPreset::Line => ('\u{2501}', '\u{2500}'),
        BarPreset::Dots => ('\u{28ff}', '\u{28c0}'),
    }
}

impl BarPreset {
    /// `(fill, empty)`.
    pub fn chars(self) -> (r: (char, char))
        ensures
            r == preset_glyphs(self),
    {
        match self {
            BarPreset::Blocks => ('\u{2588}', '\u{2591}'),
            BarPreset::Shade => ('\u{2593}', '\u{2591}'),
            BarPreset::Ascii => ('#', '-'),
            BarPreset::Line => ('\u{2501}', '\u{2500}'),
            BarPreset::Dots => ('\u{28ff}', '\u{28c0}'),
        }
    }
}

/// The moving block at `tick`: it starts at `tick mod width` and covers a
/// quarter of the width, at least one cell. A zero width has no block.
pub open spec fn span_at(width: u16, tick: u64) -> (u16, u16) {
    if width == 0 {
        (0, 0)
    } else {
        ((tick % (width as u64)) as u16, if width / 4 >= 1 {
            width / 4
        } else {
            1
        })
    }
}

/// Moving block for unknown totals: `(start, len)`, period == width.
pub fn indeterminate_span(width: u16, tick: u64) -> (r: (u16, u16))
    ensures
        r == span_at(width, tick),
{
    if width == 0 {
        return (0, 0);
    }
    let quarter = width / 4;
    let len = if quarter >= 1 {
        quarter
    } else {
        1
    };
    let start = (tick % (width as u64)) as u16;
    (start, len)
}

/// The block repeats every `width` ticks, never leaves the bar, and is
/// never empty on a bar with cells.
pub proof fn lemma_span_is_periodic(width: u16, tick: u64)
    requires
        tick + width <= u64::MAX,
    ensures
        span_at(width, tick) == span_at(width, (tick + width) as u64),
        width > 0 ==> span_at(width, tick).0 < width && 1 <= span_at(width, tick).1 <= width,
{
    if width > 0 {
        let w = width as int;
        let t = tick as int;
        assert((t + w) % w == t % w) by (nonlinear_arith)
            requires
                w > 0,
        ;
        assert(((tick + width) as u64) % (width as u64) == tick % (width as u64));
    }
}


/// A label's display width, capped at `u16::MAX`.
pub open spec fn label_cells(label: Seq<char>) -> int {
    if unicode_str_width(label) > u16::MAX {
        u16::MAX as int
    } else {
        unicode_str_width(label) as int
    }
}

/// The widest of the labels (each capped at `u16::MAX`); 0 for none.
pub open spec fn widest_label(labels: Seq<Seq<char>>) -> int
    decreases labels.len(),
{
    if labels.len() == 0 {
        0
    } else {
        let rest = widest_label(labels.drop_last());
        let last = label_cells(labels.last());
        if last > rest {
            last
        } else {
            rest
        }
    }
}

/// Widest label display width, capped at `max`.
pub fn auto_label_width(labels: &Vec<String>, max: u16) -> (w: u16)
    ensures
        w == if widest_label(views(labels@)) < max as int {
            widest_label(views(labels@))
        } else {
            max as int
        },
{
    let mut widest: u16 = 0;
    let mut i: usize = 0;
    while i < labels.len()
        invariant
            i <= labels.len(),
            widest as int == widest_label(views(labels@).take(i as int)),
        decreases labels.len() - i,
    {
        let cells = str_width(labels[i].as_str());
        let capped: u16 = if cells > 65535 {
            65535
        } else {
            cells as u16
        };
        proof {
            assert(views(labels@).take(i + 1).drop_last() =~= views(labels@).take(i as int));
            assert(views(labels@)[i as int] == labels@[i as int]@);
        }
        if capped > widest {
            widest = capped;
        }
        i += 1;
    }
    proof {
        assert(views(labels@).take(labels@.len() as int) =~= views(labels@));
    }
    if widest < max {
        widest
    } else {
        max
    }
}

// ---------------------------------------------------------------------
// The indeterminate bar.

/// What an indeterminate bar draws: `width` cells of `empty` with a block
/// of `fill` moving through them, an optional label padded to its column,
/// and an optional state word after the bar.
#[derive(Clone, Debug, PartialEq, Eq)]
pub struct PulseSpec {
    pub width: u16,
    pub fill: char,
    pub empty: char,
    pub fill_style: StyleSpec,
    pub empty_style: StyleSpec,
    pub label: Option<String>,
    /// The label column, in display cells.
    pub label_width: u16,
    pub state: Option<String>,
}

/// Whether cell `k` of a bar `width` wide lies in the block of `len`
/// cells that starts at `start` and wraps around the end.
pub open spec fn in_block(k: int, width: int, start: int, len: int) -> bool {
    let d = if k >= start {
        k - start
    } else {
        k + width - start
    };
    d < len
}

/// The bar's cells at `tick`.
pub open spec fn pulse_cells(s: PulseSpec, tick: u64) -> Seq<char> {
    let (start, len) = span_at(s.width, tick);
    Seq::new(s.width as nat, |k: int| if in_block(k, s.width as int, start as int, len as int) {
        s.fill
    } else {
        s.empty
    })
}

/// Where the run that starts at `i` ends: the first cell past `i` whose
/// fill-ness differs, or the end.
pub open spec fn run_end(cells: Seq<char>, fill: char, i: int, j: int) -> int
    decreases cells.len() - j,
{
    if j < 0 || j >= cells.len() || (cells[j] == fill) != (cells[i] == fill) {
        j
    } else {
        run_end(cells, fill, i, j + 1)
    }
}

/// The cells from `i` on, each run of fill (or of not-fill) cells styled
/// as one piece.
pub open spec fn runs_from(cells: Seq<char>, s: PulseSpec, i: int, profile: ColorProfile) -> Seq<char>
    decreases cells.len() - i,
{
    if i < 0 || i >= cells.len() {
        Seq::empty()
    } else {
        let j = run_end(cells, s.fill, i, i + 1);
        let st = if cells[i] == s.fill {
            s.fill_style
        } else {
            s.empty_style
        };
        if j <= i || j > cells.len() {
            Seq::empty()
        } else {
            styled(st, cells.subrange(i, j), profile) + runs_from(cells, s, j, profile)
        }
    }
}

/// The label, padded to its column by display width, and a space.
pub open spec fn label_part(s: PulseSpec) -> Seq<char> {
    match s.label {
        Some(l) => {
            let w = unicode_str_width(l@);
            let pad: nat = if s.label_width >= w {
                (s.label_width - w) as nat
            } else {
                0
            };
            l@ + spaces_of(pad) + seq![' ']
        },
        None => Seq::empty(),
    }
}

/// What `render_indeterminate` produces at `tick`.
pub open spec fn pulse_text(s: PulseSpec, tick: u64, profile: ColorProfile) -> Seq<char> {
    label_part(s) + runs_from(pulse_cells(s, tick), s, 0, profile) + match s.state {
        Some(w) => "  "@ + w@,
        None => Seq::empty(),
    }
}

/// Whether the moving block's positions fit the cell arithmetic: the
/// block's last cell, counted before it wraps, stays within `u16`.
pub open spec fn pulse_fits(width: u16) -> bool {
    width + span_at(width, 0).1 <= 65537
}

/// Whether a bar this wide can be drawn moving.
pub fn pulse_fits_width(width: u16) -> (r: bool)
    ensures
        r == pulse_fits(width),
{
    let len: u32 = if width / 4 >= 1 {
        (width / 4) as u32
    } else {
        1
    };
    width as u32 + len <= 65537
}

proof fn lemma_run_end_bounds(cells: Seq<char>, fill: char, i: int, j: int)
    requires
        0 <= i < j <= cells.len(),
    ensures
        j <= run_end(cells, fill, i, j) <= cells.len(),
        forall|k: int| i <= k < run_end(cells, fill, i, j) && k >= j ==> (#[trigger] cells[k] == fill) == (cells[i] == fill),
    decreases cells.len() - j,
{
    if j < cells.len() && (cells[j] == fill) == (cells[i] == fill) {
        lemma_run_end_bounds(cells, fill, i, j + 1);
    }
}

/// Render an indeterminate bar: the moving block wraps around the width;
/// fill and empty runs keep their own styles.
pub fn render_indeterminate(spec: &PulseSpec, tick: u64, profile: ColorProfile) -> (r: String)
    requires
        style_fits(spec.fill_style, profile),
        style_fits(spec.empty_style, profile),
        pulse_fits(spec.width),
    ensures
        r@ == pulse_text(*spec, tick, profile),
{
    let (start, len) = indeterminate_span(spec.width, tick);
    let width = spec.width;
    let ghost cs = pulse_cells(*spec, tick);
    let mut cells: Vec<char> = Vec::new();
    let mut k: u16 = 0;
    while k < width
        invariant
            k <= width,
            width == spec.width,
            (start, len) == span_at(spec.width, tick),
            cs == pulse_cells(*spec, tick),
            cells@ == cs.take(k as int),
        decreases width - k,
    {
        let d: u32 = if k >= start {
            (k - start) as u32
        } else {
            k as u32 + width as u32 - start as u32
        };
        let c = if d < len as u32 {
            spec.fill
        } else {
            spec.empty
        };
        proof {
            assert(cs.take(k + 1) =~= cs.take(k as int).push(c));
        }
        cells.push(c);
        k += 1;
    }
    proof {
        assert(cs.take(width as int) =~= cs);
    }
    let mut out = String::new();
    match &spec.label {
        Some(label) => {
            push_str(&mut out, label.as_str());
            let w = str_width(label.as_str());
            let lw = spec.label_width as usize;
            let pad = if lw >= w {
                lw - w
            } else {
                0
            };
            push_str(&mut out, spaces(pad).as_str());
            push_char(&mut out, ' ');
            proof {
                assert(out@ =~= label_part(*spec));
            }
        },
        None => {
            proof {
                assert(out@ =~= label_part(*spec));
            }
        },
    }
    let mut i: usize = 0;
    let n = cells.len();
    while i < n
        invariant
            n == cells@.len(),
            cells@ == cs,
            i <= n,
            out@ + runs_from(cs, *spec, i as int, profile) == label_part(*spec) + runs_from(cs, *spec, 0, profile),
            style_fits(spec.fill_style, profile),
            style_fits(spec.empty_style, profile),
        decreases n - i,
    {
        let is_fill = cells[i] == spec.fill;
        let mut j = i + 1;
        let mut run = String::new();
        push_char(&mut run, cells[i]);
        proof {
            lemma_run_end_bounds(cs, spec.fill, i as int, i + 1);
            assert(run@ =~= cs.subrange(i as int, i + 1));
        }
        while j < n && (cells[j] == spec.fill) == is_fill
            invariant
                n == cells@.len(),
                cells@ == cs,
                i < j <= n,
                is_fill == (cs[i as int] == spec.fill),
                run_end(cs, spec.fill, i as int, i + 1) == run_end(cs, spec.fill, i as int, j as int),
                run@ == cs.subrange(i as int, j as int),
            decreases n - j,
        {
            proof {
                assert(cs.subrange(i as int, j + 1) =~= cs.subrange(i as int, j as int).push(cs[j as int]));
            }
            push_char(&mut run, cells[j]);
            j += 1;
        }
        let piece = if is_fill {
            spec.fill_style.render(run.as_str(), profile)
        } else {
            spec.empty_style.render(run.as_str(), profile)
        };
        let ghost before = out@;
        push_str(&mut out, piece.as_str());
        proof {
            assert(run_end(cs, spec.fill, i as int, i + 1) == j);
            assert(runs_from(cs, *spec, i as int, profile) == piece@ + runs_from(cs, *spec, j as int, profile));
            assert(out@ + runs_from(cs, *spec, j as int, profile) =~= before + runs_from(cs, *spec, i as int, profile));
        }
        i = j;
    }
    proof {
        assert(runs_from(cs, *spec, n as int, profile) =~= Seq::<char>::empty());
        assert(out@ =~= label_part(*spec) + runs_from(cs, *spec, 0, profile));
    }
    match &spec.state {
        Some(state) => {
            push_str(&mut out, "  ");
            push_str(&mut out, state.as_str());
            proof {
                assert(out@ =~= pulse_text(*spec, tick, profile));
            }
        },
        None => {
            proof {
                assert(out@ =~= pulse_text(*spec, tick, profile));
            }
        },
    }
    out
}

/// The moving bar repeats every `width` ticks: the same text comes back.
pub proof fn lemma_pulse_is_periodic(s: PulseSpec, tick: u64, profile: ColorProfile)
    requires
        tick + s.width <= u64::MAX,
    ensures
        pulse_text(s, tick, profile) == pulse_text(s, (tick + s.width) as u64, profile),
{
    lemma_span_is_periodic(s.width, tick);
    assert(pulse_cells(s, tick) =~= pulse_cells(s, (tick + s.width) as u64));
}

} // verus!
