//! Borders, padding, margin and titles around a block of lines.

use vstd::prelude::*;

use crate::color::ColorProfile;
use crate::join::{aligned_line, block_width};
use crate::measure::{
    capped, cells, char_cells, char_width, closed, display_width, lemma_cells_concat, lemma_cells_space_prefix,
    lemma_padded_cells, lemma_plain_closed, lemma_spaces, lemma_truncated_cells, pad_display, padded, spaces_of,
    truncate_display, truncated, unicode_width_of, Align, ELLIPSIS, ESC,
};
use crate::style_spec::{lemma_styled_cells, style_fits, styled, StyleSpec};
use crate::text::{
    chars_of, debug_quote, debug_quoted, parse_usize, parsed_usize, push_char, push_str, spaces,
    views,
};

verus! {

#[derive(Copy, Clone, PartialEq, Eq, Debug, Default, Structural)]
pub enum BorderPreset {
    #[default]
    NoBorder,
    Rounded,
    Normal,
    Thick,
    Double,
    Ascii,
}

/// The eight glyphs of a border.
#[derive(Clone, Debug, PartialEq, Eq)]
pub struct BorderSet {
    pub top_left: String,
    pub top_right: String,
    pub bottom_left: String,
    pub bottom_right: String,
    pub vertical_left: String,
    pub vertical_right: String,
    pub horizontal_top: String,
    pub horizontal_bottom: String,
}

impl View for BorderSet {
    type V = Seq<Seq<char>>;

    /// The glyphs in field order.
    open spec fn view(&self) -> Seq<Seq<char>> {
        seq![
            self.top_left@,
            self.top_right@,
            self.bottom_left@,
            self.bottom_right@,
            self.vertical_left@,
            self.vertical_right@,
            self.horizontal_top@,
            self.horizontal_bottom@,
        ]
    }
}

/// A set of single-character glyphs, vertical and horizontal sides shared.
pub open spec fn glyph_set(tl: char, tr: char, bl: char, br: char, v: char, h: char) -> Seq<
    Seq<char>,
> {
    seq![seq![tl], seq![tr], seq![bl], seq![br], seq![v], seq![v], seq![h], seq![h]]
}

/// The glyphs each preset draws with.
pub open spec fn preset_glyphs(p: BorderPreset) -> Option<Seq<Seq<char>>> {
    match p {
        BorderPreset::NoBorder => None,
        BorderPreset::Rounded => Some(
            glyph_set('\u{256D}', '\u{256E}', '\u{2570}', '\u{256F}', '\u{2502}', '\u{2500}'),
        ),
        BorderPreset::Normal => Some(
            glyph_set('\u{250C}', '\u{2510}', '\u{2514}', '\u{2518}', '\u{2502}', '\u{2500}'),
        ),
        BorderPreset::Thick => Some(
            glyph_set('\u{250F}', '\u{2513}', '\u{2517}', '\u{251B}', '\u{2503}', '\u{2501}'),
        ),
        BorderPreset::Double => Some(
            glyph_set('\u{2554}', '\u{2557}', '\u{255A}', '\u{255D}', '\u{2551}', '\u{2550}'),
        ),
        BorderPreset::Ascii => Some(glyph_set('+', '+', '+', '+', '|', '-')),
    }
}

/// `ratatui::symbols::border::ROUNDED`, read field by field. The glyphs are
/// the ones the crate's `symbols::line` constants spell out.
#[verifier::external_body]
fn ratatui_rounded() -> (r: BorderSet)
    ensures
        r@ == glyph_set('\u{256D}', '\u{256E}', '\u{2570}', '\u{256F}', '\u{2502}', '\u{2500}'),
{
    let set = ratatui::symbols::border::ROUNDED;
    BorderSet {
        top_left: set.top_left.to_string(),
        top_right: set.top_right.to_string(),
        bottom_left: set.bottom_left.to_string(),
        bottom_right: set.bottom_right.to_string(),
        vertical_left: set.vertical_left.to_string(),
        vertical_right: set.vertical_right.to_string(),
        horizontal_top: set.horizontal_top.to_string(),
        horizontal_bottom: set.horizontal_bottom.to_string(),
    }
}

/// `ratatui::symbols::border::PLAIN`, read field by field.
#[verifier::external_body]
fn ratatui_plain() -> (r: BorderSet)
    ensures
        r@ == glyph_set('\u{250C}', '\u{2510}', '\u{2514}', '\u{2518}', '\u{2502}', '\u{2500}'),
{
    let set = ratatui::symbols::border::PLAIN;
    BorderSet {
        top_left: set.top_left.to_string(),
        top_right: set.top_right.to_string(),
        bottom_left: set.bottom_left.to_string(),
        bottom_right: set.bottom_right.to_string(),
        vertical_left: set.vertical_left.to_string(),
        vertical_right: set.vertical_right.to_string(),
        horizontal_top: set.horizontal_top.to_string(),
        horizontal_bottom: set.horizontal_bottom.to_string(),
    }
}

/// `ratatui::symbols::border::THICK`, read field by field.
#[verifier::external_body]
fn ratatui_thick() -> (r: BorderSet)
    ensures
        r@ == glyph_set('\u{250F}', '\u{2513}', '\u{2517}', '\u{251B}', '\u{2503}', '\u{2501}'),
{
    let set = ratatui::symbols::border::THICK;
    BorderSet {
        top_left: set.top_left.to_string(),
        top_right: set.top_right.to_string(),
        bottom_left: set.bottom_left.to_string(),
        bottom_right: set.bottom_right.to_string(),
        vertical_left: set.vertical_left.to_string(),
        vertical_right: set.vertical_right.to_string(),
        horizontal_top: set.horizontal_top.to_string(),
        horizontal_bottom: set.horizontal_bottom.to_string(),
    }
}

/// `ratatui::symbols::border::DOUBLE`, read field by field.
#[verifier::external_body]
fn ratatui_double() -> (r: BorderSet)
    ensures
        r@ == glyph_set('\u{2554}', '\u{2557}', '\u{255A}', '\u{255D}', '\u{2551}', '\u{2550}'),
{
    let set = ratatui::symbols::border::DOUBLE;
    BorderSet {
        top_left: set.top_left.to_string(),
        top_right: set.top_right.to_string(),
        bottom_left: set.bottom_left.to_string(),
        bottom_right: set.bottom_right.to_string(),
        vertical_left: set.vertical_left.to_string(),
        vertical_right: set.vertical_right.to_string(),
        horizontal_top: set.horizontal_top.to_string(),
        horizontal_bottom: set.horizontal_bottom.to_string(),
    }
}

/// A one-character string.
fn glyph(c: char) -> (r: String)
    ensures
        r@ == seq![c],
{
    let mut s = String::new();
    push_char(&mut s, c);
    proof {
        assert(s@ =~= seq![c]);
    }
    s
}

impl BorderPreset {
    /// The glyph set, or `None` for [`BorderPreset::NoBorder`]. The dumb-terminal
    /// preset draws with `+`, `|` and `-`.
    pub fn set(self) -> (r: Option<BorderSet>)
        ensures
            match r {
                Some(s) => preset_glyphs(self) == Some(s@),
                None => preset_glyphs(self) is None,
            },
    {
        match self {
            BorderPreset::NoBorder => None,
            BorderPreset::Rounded => Some(ratatui_rounded()),
            BorderPreset::Normal => Some(ratatui_plain()),
            BorderPreset::Thick => Some(ratatui_thick()),
            BorderPreset::Double => Some(ratatui_double()),
            BorderPreset::Ascii => {
                let s = BorderSet {
                    top_left: glyph('+'),
                    top_right: glyph('+'),
                    bottom_left: glyph('+'),
                    bottom_right: glyph('+'),
                    vertical_left: glyph('|'),
                    vertical_right: glyph('|'),
                    horizontal_top: glyph('-'),
                    horizontal_bottom: glyph('-'),
                };
                Some(s)
            },
        }
    }

    /// Whether the preset draws a border at all.
    pub fn draws(self) -> (r: bool)
        ensures
            r == (preset_glyphs(self) is Some),
    {
        match self {
            BorderPreset::NoBorder => false,
            _ => true,
        }
    }
}

/// Space on the four sides, in cells.
#[derive(Copy, Clone, PartialEq, Eq, Debug, Default, Structural)]
pub struct Sides {
    pub top: usize,
    pub right: usize,
    pub bottom: usize,
    pub left: usize,
}

/// A shorthand that does not parse.
#[derive(Clone, Debug, PartialEq, Eq)]
pub enum SidesError {
    /// A value that is not a number, as written.
    InvalidSide(String),
    /// Not one to four values; the whole shorthand as written.
    WrongCount(String),
}

/// The sentence a `SidesError` reads as.
pub open spec fn sides_error_text(e: SidesError) -> Seq<char> {
    match e {
    SidesError::InvalidSide(p) => seq!['i', 'n', 'v', 'a', 'l', 'i', 'd', ' ', 's', 'i', 'd', 'e', ' '] + debug_quoted(p@),
    SidesError::WrongCount(s) => wrong_count_text() + debug_quoted(s@),
    }
}

impl SidesError {
    /// The message `rat` prints for the error.
    pub fn message(&self) -> (r: String)
        ensures
            r@ == sides_error_text(*self),
    {
        match self {
            SidesError::InvalidSide(p) => {
                let mut r = String::new();
                push_str(&mut r, "invalid side ");
                let q = debug_quote(p.as_str());
                push_str(&mut r, q.as_str());
                proof {
                    reveal_strlit("invalid side ");
                    assert("invalid side "@ =~= seq!['i', 'n', 'v', 'a', 'l', 'i', 'd', ' ', 's', 'i', 'd', 'e', ' ']);
                }
                r
            },
            SidesError::WrongCount(s) => {
                let mut r = String::new();
                push_str(&mut r, "expected 1 to 4 values (top right bottom left), got ");
                let q = debug_quote(s.as_str());
                push_str(&mut r, q.as_str());
                proof {
                    reveal_strlit("expected 1 to 4 values (top right bottom left), got ");
                    assert("expected 1 to 4 values (top right bottom left), got "@ =~= wrong_count_text());
                }
                r
            },
        }
    }
}

pub open spec fn wrong_count_text() -> Seq<char> {
    seq![
        'e', 'x', 'p', 'e', 'c', 't', 'e', 'd', ' ', '1', ' ', 't', 'o', ' ', '4', ' ', 'v', 'a',
        'l', 'u', 'e', 's', ' ', '(', 't', 'o', 'p', ' ', 'r', 'i', 'g', 'h', 't', ' ', 'b', 'o',
        't', 't', 'o', 'm', ' ', 'l', 'e', 'f', 't', ')', ',', ' ', 'g', 'o', 't', ' ',
    ]
}

pub open spec fn is_side_sep(c: char) -> bool {
    c == ' ' || c == ','
}

/// The non-empty runs of `s` between spaces and commas; `cur` is the run in
/// progress.
pub open spec fn side_tokens(s: Seq<char>, cur: Seq<char>) -> Seq<Seq<char>>
    decreases s.len(),
{
    if s.len() == 0 {
        if cur.len() > 0 {
            seq![cur]
        } else {
            Seq::empty()
        }
    } else if is_side_sep(s[0]) {
        (if cur.len() > 0 {
            seq![cur]
        } else {
            Seq::<Seq<char>>::empty()
        }) + side_tokens(s.skip(1), Seq::empty())
    } else {
        side_tokens(s.skip(1), cur.push(s[0]))
    }
}

/// The sides a list of values spells, CSS order.
pub open spec fn sides_of(v: Seq<usize>) -> Option<Sides> {
    if v.len() == 1 {
        Some(Sides { top: v[0], right: v[0], bottom: v[0], left: v[0] })
    } else if v.len() == 2 {
        Some(Sides { top: v[0], right: v[1], bottom: v[0], left: v[1] })
    } else if v.len() == 3 {
        Some(Sides { top: v[0], right: v[1], bottom: v[2], left: v[1] })
    } else if v.len() == 4 {
        Some(Sides { top: v[0], right: v[1], bottom: v[2], left: v[3] })
    } else {
        None
    }
}

/// Whether `p` is the first token that is not a number.
pub open spec fn first_bad_side(toks: Seq<Seq<char>>, p: Seq<char>) -> bool {
    exists|k: int|
        0 <= k < toks.len() && p == toks[k] && parsed_usize(#[trigger] toks[k]) is None && forall|j: int|
            0 <= j < k ==> parsed_usize(#[trigger] toks[j]) is Some
}

/// Whether every token is a number.
pub open spec fn all_sides_numeric(toks: Seq<Seq<char>>) -> bool {
    forall|i: int| 0 <= i < toks.len() ==> parsed_usize(#[trigger] toks[i]) is Some
}

/// Parse CSS shorthand: "1" | "1 2" | "1 2 3" | "1 2 3 4" (commas accepted).
/// How `parse_sides` answers `s`: the first value that is not a number,
/// or the sides one to four values spell, or the count is wrong.
pub open spec fn sides_outcome(s: Seq<char>, r: Result<Sides, SidesError>) -> bool {
        ({
            let toks = side_tokens(s, Seq::empty());
            &&& (r matches Err(SidesError::InvalidSide(p)) <==> !all_sides_numeric(toks))
            &&& (r matches Err(SidesError::InvalidSide(p)) ==> first_bad_side(toks, p@))
            &&& (all_sides_numeric(toks) ==> match sides_of(
                toks.map_values(|t: Seq<char>| parsed_usize(t).unwrap()),
            ) {
                Some(sd) => r == Ok::<Sides, SidesError>(sd),
                None => r matches Err(SidesError::WrongCount(x)) && x@ == s,
            })
        })
}

pub fn parse_sides(s: &str) -> (r: Result<Sides, SidesError>)
    ensures
        sides_outcome(s@, r),
{
    let v = chars_of(s);
    let mut toks: Vec<String> = Vec::new();
    let mut cur = String::new();
    let mut i: usize = 0;
    assert(v@.skip(0) =~= v@);
    while i < v.len()
        invariant
            i <= v@.len(),
            v@ == s@,
            side_tokens(s@, Seq::empty()) == views(toks@) + side_tokens(v@.skip(i as int), cur@),
        decreases v@.len() - i,
    {
        let ghost t = v@.skip(i as int);
        let ghost before = views(toks@);
        proof {
            assert(t[0] == v@[i as int]);
            assert(t.skip(1) =~= v@.skip(i + 1));
        }
        if v[i] == ' ' || v[i] == ',' {
            if cur.as_str().unicode_len() > 0 {
                let done = cur;
                cur = String::new();
                toks.push(done);
                proof {
                    assert(views(toks@) =~= before + seq![done@]);
                    assert(before + (seq![done@] + side_tokens(t.skip(1), Seq::empty()))
                        =~= views(toks@) + side_tokens(t.skip(1), cur@));
                }
            } else {
                proof {
                    assert(Seq::<Seq<char>>::empty() + side_tokens(t.skip(1), Seq::empty())
                        =~= side_tokens(t.skip(1), Seq::empty()));
                    assert(cur@ =~= Seq::<char>::empty());
                }
            }
        } else {
            push_char(&mut cur, v[i]);
        }
        i += 1;
    }
    let ghost before = views(toks@);
    if cur.as_str().unicode_len() > 0 {
        toks.push(cur);
        proof {
            assert(views(toks@) =~= before + seq![cur@]);
        }
    } else {
        proof {
            assert(views(toks@) =~= before + Seq::<Seq<char>>::empty());
        }
    }
    proof {
        assert(v@.skip(v@.len() as int) =~= Seq::<char>::empty());
    }
    let ghost tk = side_tokens(s@, Seq::empty());
    assert(tk == views(toks@));
    let mut values: Vec<usize> = Vec::new();
    let mut k: usize = 0;
    while k < toks.len()
        invariant
            k <= toks@.len(),
            tk == views(toks@),
            tk == side_tokens(s@, Seq::empty()),
            values@.len() == k,
            forall|j: int| 0 <= j < k ==> parsed_usize(#[trigger] tk[j]) == Some(values@[j]),
        decreases toks@.len() - k,
    {
        proof {
            assert(tk[k as int] == toks@[k as int]@);
        }
        match parse_usize(toks[k].as_str()) {
            Some(n) => values.push(n),
            None => {
                proof {
                    assert(forall|j: int| 0 <= j < k ==> parsed_usize(#[trigger] tk[j]) is Some);
                    assert(first_bad_side(tk, tk[k as int]));
                }
                let bad = toks[k].clone();
                proof {
                    assert(bad@ == tk[k as int]);
                    assert(parsed_usize(tk[k as int]) is None);
                    assert(!all_sides_numeric(tk));
                }
                return Err(SidesError::InvalidSide(bad));
            },
        }
        k += 1;
    }
    proof {
        assert(values@ =~= tk.map_values(|t: Seq<char>| parsed_usize(t).unwrap()));
    }
    let n = values.len();
    if n == 1 {
        Ok(Sides { top: values[0], right: values[0], bottom: values[0], left: values[0] })
    } else if n == 2 {
        Ok(Sides { top: values[0], right: values[1], bottom: values[0], left: values[1] })
    } else if n == 3 {
        Ok(Sides { top: values[0], right: values[1], bottom: values[2], left: values[1] })
    } else if n == 4 {
        Ok(Sides { top: values[0], right: values[1], bottom: values[2], left: values[3] })
    } else {
        Err(SidesError::WrongCount(s.to_owned()))
    }
}

// ---------------------------------------------------------------------
// Rendering a box.

/// How a block of content lines is boxed.
#[derive(Debug)]
pub struct BoxSpec<'a> {
    pub content_style: StyleSpec,
    pub width: Option<usize>,
    pub align: Align,
    pub padding: Sides,
    pub border: BorderPreset,
    pub border_style: StyleSpec,
    pub title: Option<&'a str>,
    pub margin: Sides,
    pub ellipsis: &'a str,
}

impl<'a> BoxSpec<'a> {
    /// No style, no width, no padding, no border, no title, no margin; an
    /// ellipsis marks truncation.
    pub fn new_default() -> (r: BoxSpec<'a>)
        ensures
            r.content_style == StyleSpec::default_spec(),
            r.width is None,
            r.align == Align::Left,
            r.padding == (Sides { top: 0, right: 0, bottom: 0, left: 0 }),
            r.border == BorderPreset::NoBorder,
            r.border_style == StyleSpec::default_spec(),
            r.title is None,
            r.margin == (Sides { top: 0, right: 0, bottom: 0, left: 0 }),
            r.ellipsis@ == ELLIPSIS@,
    {
        BoxSpec {
            content_style: StyleSpec::plain(),
            width: None,
            align: Align::Left,
            padding: Sides { top: 0, right: 0, bottom: 0, left: 0 },
            border: BorderPreset::NoBorder,
            border_style: StyleSpec::plain(),
            title: None,
            margin: Sides { top: 0, right: 0, bottom: 0, left: 0 },
            ellipsis: ELLIPSIS,
        }
    }
}

impl<'a> Default for BoxSpec<'a> {
    fn default() -> (r: BoxSpec<'a>)
        ensures
            r.content_style == StyleSpec::default_spec(),
            r.width is None,
            r.align == Align::Left,
            r.padding == (Sides { top: 0, right: 0, bottom: 0, left: 0 }),
            r.border == BorderPreset::NoBorder,
            r.border_style == StyleSpec::default_spec(),
            r.title is None,
            r.margin == (Sides { top: 0, right: 0, bottom: 0, left: 0 }),
            r.ellipsis@ == ELLIPSIS@,
    {
        BoxSpec::new_default()
    }
}

/// `s` laid end to end `n` times.
pub open spec fn repeated(s: Seq<char>, n: nat) -> Seq<char>
    decreases n,
{
    if n == 0 {
        Seq::empty()
    } else {
        repeated(s, (n - 1) as nat) + s
    }
}

/// `a - b`, floored at zero.
pub open spec fn sub_floor(a: nat, b: nat) -> nat {
    if a >= b {
        (a - b) as nat
    } else {
        0
    }
}

/// The content column's width: pinned, or the widest line.
pub open spec fn inner_width(lines: Seq<Seq<char>>, spec: BoxSpec) -> nat {
    match spec.width {
        Some(w) => w as nat,
        None => block_width(lines),
    }
}

/// Whether anything closes the right edge, so lines square up.
pub open spec fn closes_right(spec: BoxSpec) -> bool {
    spec.width is Some || preset_glyphs(spec.border) is Some || spec.padding.right > 0
}

/// One content line: truncated to the column, aligned, padded.
pub open spec fn content_line(line: Seq<char>, inner: nat, spec: BoxSpec) -> Seq<char> {
    let cut = truncated(line, inner, spec.ellipsis@);
    let aligned = if closes_right(spec) {
        padded(cut, inner, spec.align)
    } else {
        aligned_line(cut, inner, spec.align)
    };
    spaces_of(spec.padding.left as nat) + aligned + spaces_of(spec.padding.right as nat)
}

/// The padded interior, before styling.
pub open spec fn interior_of(lines: Seq<Seq<char>>, spec: BoxSpec) -> Seq<Seq<char>> {
    let inner = inner_width(lines, spec);
    let blank = spaces_of((inner + spec.padding.left + spec.padding.right) as nat);
    Seq::new(spec.padding.top as nat, |i: int| blank) + lines.map_values(
        |l: Seq<char>| content_line(l, inner, spec),
    ) + Seq::new(spec.padding.bottom as nat, |i: int| blank)
}

/// The top border, with the title spliced in when the box is wide enough.
pub open spec fn top_border_of(g: Seq<Seq<char>>, run: nat, spec: BoxSpec, profile: ColorProfile) -> Seq<char> {
    let bs = spec.border_style;
    match spec.title {
        Some(t) => if run >= 4 {
            let title = truncated(t@, (run - 3) as nat, spec.ellipsis@);
            let tw = capped(cells(title)) as nat;
            styled(bs, g[0] + g[6], profile) + " "@ + title + " "@ + styled(
                bs,
                repeated(g[6], sub_floor(run, (tw + 3) as nat)) + g[1],
                profile,
            )
        } else {
            styled(bs, g[0] + repeated(g[6], run) + g[1], profile)
        },
        None => styled(bs, g[0] + repeated(g[6], run) + g[1], profile),
    }
}

/// The styled interior inside its border, if any.
pub open spec fn framed(lines: Seq<Seq<char>>, spec: BoxSpec, profile: ColorProfile) -> Seq<Seq<char>> {
    let inner = inner_width(lines, spec);
    let interior = interior_of(lines, spec).map_values(
        |l: Seq<char>| styled(spec.content_style, l, profile),
    );
    let run = (inner + spec.padding.left + spec.padding.right) as nat;
    let bs = spec.border_style;
    match preset_glyphs(spec.border) {
        None => interior,
        Some(g) => seq![top_border_of(g, run, spec, profile)] + interior.map_values(
            |l: Seq<char>| styled(bs, g[4], profile) + l + styled(bs, g[5], profile),
        ) + seq![styled(bs, g[2] + repeated(g[7], run) + g[3], profile)],
    }
}

/// What `render_box` produces: the frame with its margin around it. The
/// right margin has no edge to move.
pub open spec fn boxed(lines: Seq<Seq<char>>, spec: BoxSpec, profile: ColorProfile) -> Seq<Seq<char>> {
    Seq::new(spec.margin.top as nat, |i: int| Seq::<char>::empty()) + framed(lines, spec, profile).map_values(
        |l: Seq<char>|
            if l.len() == 0 {
                l
            } else {
                spaces_of(spec.margin.left as nat) + l
            },
    ) + Seq::new(spec.margin.bottom as nat, |i: int| Seq::<char>::empty())
}

/// Whether `render_box` can lay the box out: both styles render under the
/// profile and the interior's width fits in memory's index type.
pub open spec fn box_fits(lines: Seq<Seq<char>>, spec: BoxSpec, profile: ColorProfile) -> bool {
    &&& style_fits(spec.content_style, profile)
    &&& style_fits(spec.border_style, profile)
    &&& inner_width(lines, spec) + spec.padding.left + spec.padding.right <= usize::MAX
}

fn repeat_str(s: &str, n: usize) -> (r: String)
    ensures
        r@ == repeated(s@, n as nat),
{
    let mut r = String::new();
    let mut i: usize = 0;
    while i < n
        invariant
            i <= n,
            r@ == repeated(s@, i as nat),
        decreases n - i,
    {
        push_str(&mut r, s);
        i += 1;
    }
    r
}

fn concat3(a: &str, b: &str, c: &str) -> (r: String)
    ensures
        r@ == a@ + b@ + c@,
{
    let mut r = String::new();
    push_str(&mut r, a);
    push_str(&mut r, b);
    push_str(&mut r, c);
    proof {
        assert(r@ =~= a@ + b@ + c@);
    }
    r
}

/// Alignment that never invents trailing whitespace (the open-edge path).
fn align_without_trailing(line: &str, width: usize, align: Align) -> (r: String)
    ensures
        r@ == aligned_line(line@, width as nat, align),
{
    let current = display_width(line);
    if current >= width {
        proof {
            assert(spaces_of(0) + line@ =~= line@);
        }
        return line.to_owned();
    }
    let missing = width - current;
    match align {
        Align::Left => line.to_owned(),
        Align::Right => {
            let mut s = spaces(missing);
            push_str(&mut s, line);
            s
        },
        Align::Center => {
            let mut s = spaces(missing / 2);
            push_str(&mut s, line);
            s
        },
    }
}

/// The top border, with the title spliced in when the box is wide enough.
/// The title is inserted verbatim; the border style never wraps it.
fn top_border(set: &BorderSet, run: usize, spec: &BoxSpec, profile: ColorProfile) -> (r: String)
    requires
        style_fits(spec.border_style, profile),
    ensures
        r@ == top_border_of(set@, run as nat, *spec, profile),
{
    let bs = &spec.border_style;
    proof {
        reveal_strlit("");
    }
    match spec.title {
        Some(title) => {
            if run >= 4 {
                let budget = run - 3;
                let t = truncate_display(title, budget, spec.ellipsis);
                let tw = display_width(t.as_str());
                let rest = if run >= tw && run - tw >= 3 {
                    run - tw - 3
                } else {
                    0
                };
                let left = concat3(set.top_left.as_str(), set.horizontal_top.as_str(), "");
                let run_glyphs = repeat_str(set.horizontal_top.as_str(), rest);
                let right = concat3(run_glyphs.as_str(), set.top_right.as_str(), "");
                let mut r = bs.render(left.as_str(), profile);
                push_str(&mut r, " ");
                push_str(&mut r, t.as_str());
                push_str(&mut r, " ");
                push_str(&mut r, bs.render(right.as_str(), profile).as_str());
                proof {
                    assert(left@ =~= set@[0] + set@[6]);
                    assert(right@ =~= repeated(set@[6], sub_floor(run as nat, (tw + 3) as nat)) + set@[1]);
                }
                return r;
            }
        },
        None => {},
    }
    let run_glyphs = repeat_str(set.horizontal_top.as_str(), run);
    let line = concat3(set.top_left.as_str(), run_glyphs.as_str(), set.top_right.as_str());
    bs.render(line.as_str(), profile)
}

/// The width law for the box about to be drawn, its border glyphs read
/// from the width table.
fn width_holds(lines: &[String], spec: &BoxSpec, profile: ColorProfile)
    ensures
        holds_whole(views(lines@), *spec) ==> box_has_its_width(views(lines@), *spec, profile),
{
    measure_glyphs(spec.border);
    proof {
        if holds_whole(views(lines@), *spec) {
            lemma_box_lines_have_their_width(views(lines@), *spec, profile);
        }
    }
}

/// Style, align, pad, border, and margin a block of content lines.
#[verifier::rlimit(40)]
pub fn render_box(lines: &[String], spec: &BoxSpec, profile: ColorProfile) -> (r: Vec<String>)
    requires
        box_fits(views(lines@), *spec, profile),
    ensures
        views(r@) == boxed(views(lines@), *spec, profile),
        holds_whole(views(lines@), *spec) ==> box_has_its_width(views(lines@), *spec, profile),
{
    width_holds(lines, spec, profile);
    let ghost ls = views(lines@);
    let inner: usize = match spec.width {
        Some(w) => w,
        None => crate::join::width_of_lines(lines),
    };
    let need_right_pad = spec.width.is_some() || spec.border.draws() || spec.padding.right > 0;
    let run = inner + spec.padding.left + spec.padding.right;
    let blank = spaces(run);
    let ghost interior_spec = interior_of(ls, *spec);
    // The interior, styled as it is built.
    let mut interior: Vec<String> = Vec::new();
    let mut i: usize = 0;
    while i < spec.padding.top
        invariant
            i <= spec.padding.top,
            blank@ == spaces_of(run as nat),
            views(interior@) == Seq::new(i as nat, |k: int| spaces_of(run as nat)).map_values(
                |l: Seq<char>| styled(spec.content_style, l, profile),
            ),
            style_fits(spec.content_style, profile),
        decreases spec.padding.top - i,
    {
        let line = spec.content_style.render(blank.as_str(), profile);
        proof {
            assert(views(interior@.push(line)) =~= views(interior@).push(line@));
            assert(Seq::new((i + 1) as nat, |k: int| spaces_of(run as nat)).map_values(
                |l: Seq<char>| styled(spec.content_style, l, profile),
            ) =~= Seq::new(i as nat, |k: int| spaces_of(run as nat)).map_values(
                |l: Seq<char>| styled(spec.content_style, l, profile),
            ).push(styled(spec.content_style, spaces_of(run as nat), profile)));
        }
        interior.push(line);
        i += 1;
    }
    let ghost top_part = views(interior@);
    let left_pad = spaces(spec.padding.left);
    let right_pad = spaces(spec.padding.right);
    let mut j: usize = 0;
    while j < lines.len()
        invariant
            j <= lines@.len(),
            ls == views(lines@),
            inner == inner_width(ls, *spec),
            need_right_pad == closes_right(*spec),
            left_pad@ == spaces_of(spec.padding.left as nat),
            right_pad@ == spaces_of(spec.padding.right as nat),
            style_fits(spec.content_style, profile),
            views(interior@) == top_part + ls.take(j as int).map_values(
                |l: Seq<char>| content_line(l, inner as nat, *spec),
            ).map_values(|l: Seq<char>| styled(spec.content_style, l, profile)),
        decreases lines@.len() - j,
    {
        let cut = truncate_display(lines[j].as_str(), inner, spec.ellipsis);
        let aligned = if need_right_pad {
            pad_display(cut.as_str(), inner, spec.align)
        } else {
            align_without_trailing(cut.as_str(), inner, spec.align)
        };
        let body = concat3(left_pad.as_str(), aligned.as_str(), right_pad.as_str());
        let line = spec.content_style.render(body.as_str(), profile);
        proof {
            assert(body@ == content_line(ls[j as int], inner as nat, *spec));
            assert(views(interior@.push(line)) =~= views(interior@).push(line@));
            assert(ls.take(j + 1) =~= ls.take(j as int).push(ls[j as int]));
            assert(ls.take(j + 1).map_values(|l: Seq<char>| content_line(l, inner as nat, *spec)).map_values(
                |l: Seq<char>| styled(spec.content_style, l, profile),
            ) =~= ls.take(j as int).map_values(|l: Seq<char>| content_line(l, inner as nat, *spec)).map_values(
                |l: Seq<char>| styled(spec.content_style, l, profile),
            ).push(styled(spec.content_style, body@, profile)));
        }
        interior.push(line);
        j += 1;
    }
    proof {
        assert(ls.take(lines@.len() as int) =~= ls);
    }
    let ghost mid_part = views(interior@);
    let mut i: usize = 0;
    while i < spec.padding.bottom
        invariant
            i <= spec.padding.bottom,
            blank@ == spaces_of(run as nat),
            style_fits(spec.content_style, profile),
            views(interior@) == mid_part + Seq::new(i as nat, |k: int| spaces_of(run as nat)).map_values(
                |l: Seq<char>| styled(spec.content_style, l, profile),
            ),
        decreases spec.padding.bottom - i,
    {
        let line = spec.content_style.render(blank.as_str(), profile);
        proof {
            assert(views(interior@.push(line)) =~= views(interior@).push(line@));
            assert(Seq::new((i + 1) as nat, |k: int| spaces_of(run as nat)).map_values(
                |l: Seq<char>| styled(spec.content_style, l, profile),
            ) =~= Seq::new(i as nat, |k: int| spaces_of(run as nat)).map_values(
                |l: Seq<char>| styled(spec.content_style, l, profile),
            ).push(styled(spec.content_style, spaces_of(run as nat), profile)));
        }
        interior.push(line);
        i += 1;
    }
    proof {
        assert(views(interior@) =~= interior_of(ls, *spec).map_values(
            |l: Seq<char>| styled(spec.content_style, l, profile),
        ));
    }
    // The border.
    let frame: Vec<String> = match spec.border.set() {
        None => interior,
        Some(set) => {
            let ghost g = set@;
            let mut framed_lines: Vec<String> = Vec::new();
            framed_lines.push(top_border(&set, run, spec, profile));
            let vl = spec.border_style.render(set.vertical_left.as_str(), profile);
            let vr = spec.border_style.render(set.vertical_right.as_str(), profile);
            let ghost first = views(framed_lines@);
            let mut k: usize = 0;
            while k < interior.len()
                invariant
                    k <= interior@.len(),
                    vl@ == styled(spec.border_style, g[4], profile),
                    vr@ == styled(spec.border_style, g[5], profile),
                    views(framed_lines@) == first + views(interior@).take(k as int).map_values(
                        |l: Seq<char>| styled(spec.border_style, g[4], profile) + l + styled(spec.border_style, g[5], profile),
                    ),
                decreases interior@.len() - k,
            {
                let line = concat3(vl.as_str(), interior[k].as_str(), vr.as_str());
                proof {
                    assert(views(framed_lines@.push(line)) =~= views(framed_lines@).push(line@));
                    assert(views(interior@).take(k + 1) =~= views(interior@).take(k as int).push(interior@[k as int]@));
                    assert(views(interior@).take(k + 1).map_values(
                        |l: Seq<char>| styled(spec.border_style, g[4], profile) + l + styled(spec.border_style, g[5], profile),
                    ) =~= views(interior@).take(k as int).map_values(
                        |l: Seq<char>| styled(spec.border_style, g[4], profile) + l + styled(spec.border_style, g[5], profile),
                    ).push(line@));
                }
                framed_lines.push(line);
                k += 1;
            }
            proof {
                assert(views(interior@).take(interior@.len() as int) =~= views(interior@));
            }
            let run_glyphs = repeat_str(set.horizontal_bottom.as_str(), run);
            let bottom = concat3(set.bottom_left.as_str(), run_glyphs.as_str(), set.bottom_right.as_str());
            let last = spec.border_style.render(bottom.as_str(), profile);
            proof {
                assert(views(framed_lines@.push(last)) =~= views(framed_lines@).push(last@));
            }
            framed_lines.push(last);
            framed_lines
        },
    };
    proof {
        assert(views(frame@) =~= framed(ls, *spec, profile));
    }
    // The margin.
    let mut out: Vec<String> = Vec::new();
    let mut i: usize = 0;
    while i < spec.margin.top
        invariant
            i <= spec.margin.top,
            views(out@) == Seq::new(i as nat, |k: int| Seq::<char>::empty()),
        decreases spec.margin.top - i,
    {
        let e = String::new();
        proof {
            assert(e@ =~= Seq::<char>::empty());
            assert(views(out@.push(e)) =~= views(out@).push(e@));
            assert(views(out@.push(e)) =~= Seq::new((i + 1) as nat, |k: int| Seq::<char>::empty()));
        }
        out.push(e);
        i += 1;
    }
    let ghost before_frame = views(out@);
    let left = spaces(spec.margin.left);
    proof {
        reveal_strlit("");
    }
    let mut k: usize = 0;
    while k < frame.len()
        invariant
            k <= frame@.len(),
            left@ == spaces_of(spec.margin.left as nat),
            views(out@) == before_frame + views(frame@).take(k as int).map_values(
                |l: Seq<char>|
                    if l.len() == 0 {
                        l
                    } else {
                        spaces_of(spec.margin.left as nat) + l
                    },
            ),
        decreases frame@.len() - k,
    {
        let line = if frame[k].as_str().is_empty() {
            String::new()
        } else {
            concat3(left.as_str(), frame[k].as_str(), "")
        };
        proof {
            reveal_strlit("");
            if frame@[k as int]@.len() == 0 {
                assert(line@ =~= frame@[k as int]@);
            } else {
                assert(line@ =~= spaces_of(spec.margin.left as nat) + frame@[k as int]@);
            }
            assert(views(out@.push(line)) =~= views(out@).push(line@));
            assert(views(frame@).take(k + 1) =~= views(frame@).take(k as int).push(frame@[k as int]@));
        }
        out.push(line);
        k += 1;
    }
    proof {
        assert(views(frame@).take(frame@.len() as int) =~= views(frame@));
    }
    let ghost after_frame = views(out@);
    let mut i: usize = 0;
    while i < spec.margin.bottom
        invariant
            i <= spec.margin.bottom,
            views(out@) == after_frame + Seq::new(i as nat, |k: int| Seq::<char>::empty()),
        decreases spec.margin.bottom - i,
    {
        let e = String::new();
        proof {
            assert(e@ =~= Seq::<char>::empty());
            assert(views(out@.push(e)) =~= views(out@).push(e@));
            assert(views(out@.push(e)) =~= after_frame + Seq::new((i + 1) as nat, |k: int| Seq::<char>::empty()));
        }
        out.push(e);
        i += 1;
    }
    proof {
        assert(views(out@) =~= boxed(ls, *spec, profile));
    }
    out
}

// ---------------------------------------------------------------------
// A framed box is exactly as wide as it was laid out.

/// Every glyph of a set is one character, no escape, one cell wide.
pub open spec fn glyphs_one_cell(g: Seq<Seq<char>>) -> bool {
    &&& g.len() == 8
    &&& forall|i: int| 0 <= i < 8 ==> (#[trigger] g[i]).len() == 1 && g[i][0] != ESC && char_cells(g[i][0]) == 1
}

/// A text a box can hold whole: no escape sequence left open, and a
/// width that fits `usize`.
pub open spec fn boxable(t: Seq<char>) -> bool {
    closed(t) && cells(t) <= usize::MAX
}

/// The run of cells between the side borders.
pub open spec fn run_of(lines: Seq<Seq<char>>, spec: BoxSpec) -> nat {
    (inner_width(lines, spec) + spec.padding.left + spec.padding.right) as nat
}

proof fn lemma_glyph(g: Seq<char>)
    requires
        g.len() == 1,
        g[0] != ESC,
        char_cells(g[0]) == 1,
    ensures
        closed(g),
        cells(g) == 1,
{
    lemma_plain_closed(g);
    assert(g.skip(1) =~= Seq::<char>::empty());
    assert(cells(Seq::<char>::empty()) == 0);
}

proof fn lemma_repeated(g: Seq<char>, n: nat)
    requires
        closed(g),
        cells(g) == 1,
    ensures
        closed(repeated(g, n)),
        cells(repeated(g, n)) == n,
    decreases n,
{
    if n == 0 {
        assert(closed(Seq::<char>::empty()));
        assert(cells(Seq::<char>::empty()) == 0);
    } else {
        lemma_repeated(g, (n - 1) as nat);
        lemma_cells_concat(repeated(g, (n - 1) as nat), g);
    }
}

/// `a`, a run of `n` copies of `h`, and `b`, all one-cell glyphs.
proof fn lemma_border_run(st: StyleSpec, a: Seq<char>, h: Seq<char>, n: nat, b: Seq<char>, profile: ColorProfile)
    requires
        closed(a) && cells(a) == 1,
        closed(h) && cells(h) == 1,
        closed(b) && cells(b) == 1,
    ensures
        cells(styled(st, a + repeated(h, n) + b, profile)) == n + 2,
        closed(styled(st, a + repeated(h, n) + b, profile)),
{
    lemma_repeated(h, n);
    lemma_cells_concat(a, repeated(h, n));
    lemma_cells_concat(a + repeated(h, n), b);
    lemma_styled_cells(st, a + repeated(h, n) + b, profile);
}

proof fn lemma_top_border(g: Seq<Seq<char>>, run: nat, spec: BoxSpec, profile: ColorProfile)
    requires
        glyphs_one_cell(g),
        spec.title matches Some(t) ==> boxable(t@),
        boxable(spec.ellipsis@),
    ensures
        cells(top_border_of(g, run, spec, profile)) == run + 2,
{
    let bs = spec.border_style;
    lemma_glyph(g[0]);
    lemma_glyph(g[1]);
    lemma_glyph(g[6]);
    match spec.title {
        Some(t) => if run >= 4 {
            let title = truncated(t@, (run - 3) as nat, spec.ellipsis@);
            lemma_truncated_cells(t@, (run - 3) as nat, spec.ellipsis@);
            let tw = capped(cells(title)) as nat;
            assert(tw == cells(title));
            let rest = sub_floor(run, (tw + 3) as nat);
            assert(rest == run - tw - 3);
            let left = styled(bs, g[0] + g[6], profile);
            lemma_cells_concat(g[0], g[6]);
            lemma_styled_cells(bs, g[0] + g[6], profile);
            let right = styled(bs, repeated(g[6], rest) + g[1], profile);
            lemma_repeated(g[6], rest);
            lemma_cells_concat(repeated(g[6], rest), g[1]);
            lemma_styled_cells(bs, repeated(g[6], rest) + g[1], profile);
            reveal_strlit(" ");
            lemma_spaces(1);
            assert(" "@ =~= spaces_of(1));
            lemma_cells_concat(left, " "@);
            lemma_cells_concat(left + " "@, title);
            lemma_cells_concat(left + " "@ + title, " "@);
            lemma_cells_concat(left + " "@ + title + " "@, right);
        } else {
            lemma_border_run(bs, g[0], g[6], run, g[1], profile);
        },
        None => {
            lemma_border_run(bs, g[0], g[6], run, g[1], profile);
        },
    }
}

proof fn lemma_interior_rows(lines: Seq<Seq<char>>, spec: BoxSpec, profile: ColorProfile)
    requires
        closes_right(spec),
        forall|i: int| 0 <= i < lines.len() ==> boxable(#[trigger] lines[i]),
        boxable(spec.ellipsis@),
    ensures
        forall|i: int|
            0 <= i < interior_of(lines, spec).len() ==> {
                let row = styled(spec.content_style, #[trigger] interior_of(lines, spec)[i], profile);
                closed(row) && cells(row) == run_of(lines, spec)
            },
{
    let inner = inner_width(lines, spec);
    let run = run_of(lines, spec);
    let pl = spec.padding.left as nat;
    let pr = spec.padding.right as nat;
    let rows = interior_of(lines, spec);
    let top = spec.padding.top as nat;
    assert forall|i: int| 0 <= i < rows.len() implies {
        let row = styled(spec.content_style, #[trigger] rows[i], profile);
        closed(row) && cells(row) == run
    } by {
        if i < top || i >= top + lines.len() {
            assert(rows[i] == spaces_of(run));
            lemma_spaces(run);
        } else {
            let l = lines[i - top];
            assert(rows[i] == content_line(l, inner, spec));
            let cut = truncated(l, inner, spec.ellipsis@);
            lemma_truncated_cells(l, inner, spec.ellipsis@);
            lemma_padded_cells(cut, inner, spec.align);
            let aligned = padded(cut, inner, spec.align);
            lemma_spaces(pl);
            lemma_spaces(pr);
            lemma_cells_concat(spaces_of(pl), aligned);
            lemma_cells_concat(spaces_of(pl) + aligned, spaces_of(pr));
        }
        lemma_styled_cells(spec.content_style, rows[i], profile);
    }
}

/// The box's margin lines are empty and every other line is
/// `margin.left + run + 2` cells wide.
pub open spec fn box_has_its_width(lines: Seq<Seq<char>>, spec: BoxSpec, profile: ColorProfile) -> bool {
    let b = boxed(lines, spec, profile);
    let top = spec.margin.top as int;
    let rows = lines.len() + spec.padding.top + spec.padding.bottom + 2;
    &&& b.len() == top + rows + spec.margin.bottom
    &&& forall|i: int| 0 <= i < top ==> (#[trigger] b[i]).len() == 0
    &&& forall|i: int| top + rows <= i < b.len() ==> (#[trigger] b[i]).len() == 0
    &&& forall|i: int|
        top <= i < top + rows ==> cells(#[trigger] b[i]) == spec.margin.left + run_of(lines, spec) + 2
}

/// A bordered box over texts it can hold whole.
pub open spec fn holds_whole(lines: Seq<Seq<char>>, spec: BoxSpec) -> bool {
    &&& preset_glyphs(spec.border) is Some
    &&& forall|i: int| 0 <= i < lines.len() ==> boxable(#[trigger] lines[i])
    &&& spec.title matches Some(t) ==> boxable(t@)
    &&& boxable(spec.ellipsis@)
}

/// The widths of the border glyphs, read from the width table.
fn measure_glyphs(p: BorderPreset)
    ensures
        preset_glyphs(p) matches Some(g) ==> glyphs_one_cell(g),
{
    match p {
        BorderPreset::Rounded => {
            char_width('\u{256D}');
            char_width('\u{256E}');
            char_width('\u{2570}');
            char_width('\u{256F}');
            char_width('\u{2502}');
            char_width('\u{2500}');
        },
        BorderPreset::Normal => {
            char_width('\u{250C}');
            char_width('\u{2510}');
            char_width('\u{2514}');
            char_width('\u{2518}');
            char_width('\u{2502}');
            char_width('\u{2500}');
        },
        BorderPreset::Thick => {
            char_width('\u{250F}');
            char_width('\u{2513}');
            char_width('\u{2517}');
            char_width('\u{251B}');
            char_width('\u{2503}');
            char_width('\u{2501}');
        },
        BorderPreset::Double => {
            char_width('\u{2554}');
            char_width('\u{2557}');
            char_width('\u{255A}');
            char_width('\u{255D}');
            char_width('\u{2551}');
            char_width('\u{2550}');
        },
        _ => {},
    }
}

/// Every line of a bordered box is exactly `margin.left + run + 2` cells
/// wide, `run` being the content column plus the padding: the top border
/// (title included), each padded and truncated content row between the
/// side borders, and the bottom border. Only the top and bottom margin
/// lines are empty. This holds for content, title and ellipsis that leave
/// no escape sequence open (an unterminated one would swallow what the
/// box puts after it) and whose widths fit `usize`.
pub proof fn lemma_box_lines_have_their_width(lines: Seq<Seq<char>>, spec: BoxSpec, profile: ColorProfile)
    requires
        preset_glyphs(spec.border) matches Some(g) && glyphs_one_cell(g),
        forall|i: int| 0 <= i < lines.len() ==> boxable(#[trigger] lines[i]),
        spec.title matches Some(t) ==> boxable(t@),
        boxable(spec.ellipsis@),
    ensures
        box_has_its_width(lines, spec, profile),
{
    let g = preset_glyphs(spec.border).unwrap();
    let run = run_of(lines, spec);
    let bs = spec.border_style;
    let f = framed(lines, spec, profile);
    let inner_rows = interior_of(lines, spec).map_values(|l: Seq<char>| styled(spec.content_style, l, profile));
    lemma_interior_rows(lines, spec, profile);
    lemma_glyph(g[2]);
    lemma_glyph(g[3]);
    lemma_glyph(g[4]);
    lemma_glyph(g[5]);
    lemma_glyph(g[7]);
    lemma_styled_cells(bs, g[4], profile);
    lemma_styled_cells(bs, g[5], profile);
    lemma_top_border(g, run, spec, profile);
    lemma_border_run(bs, g[2], g[7], run, g[3], profile);
    let ml = spec.margin.left as nat;
    assert forall|i: int| 0 <= i < f.len() implies cells(#[trigger] f[i]) == run + 2 by {
        if i == 0 {
        } else if i == f.len() - 1 {
        } else {
            let row = inner_rows[i - 1];
            assert(row == styled(spec.content_style, interior_of(lines, spec)[i - 1], profile));
            let l = styled(bs, g[4], profile);
            let r = styled(bs, g[5], profile);
            assert(f[i] == l + row + r);
            lemma_cells_concat(l, row);
            lemma_cells_concat(l + row, r);
        }
    }
    let b = boxed(lines, spec, profile);
    let top = spec.margin.top as int;
    assert forall|i: int| top <= i < top + f.len() implies cells(#[trigger] b[i]) == ml + run + 2 by {
        let x = f[i - top];
        if x.len() == 0 {
            assert(cells(x) == 0);
        }
        assert(b[i] == spaces_of(ml) + x);
        lemma_cells_space_prefix(ml, x);
    }
}

} // verus!
