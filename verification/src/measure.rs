//! ANSI-aware measurement: escape sequences occupy zero cells, every
//! other character occupies what the Unicode width tables say.

use unicode_width::{UnicodeWidthChar, UnicodeWidthStr};
use vstd::prelude::*;

use crate::text::{chars_of, push_char, push_str, slice_of, spaces, split_on, split_str, string_of, views};

verus! {

/// Default truncation marker: one display cell.
pub const ELLIPSIS: &'static str = "…";

/// The escape character that opens every control sequence.
pub const ESC: char = '\x1b';

/// Horizontal placement inside a fixed-width column.
#[derive(Copy, Clone, PartialEq, Eq, Debug, Default, Structural)]
pub enum Align {
    #[default]
    Left,
    Right,
    Center,
}

/// One step of an ANSI-aware walk over a string.
#[derive(Clone, PartialEq, Eq, Debug)]
pub enum Chunk {
    /// An escape sequence: zero display cells, never split.
    Escape(String),
    /// A printable character and the cells it occupies.
    Text(String, usize),
}

// ---------------------------------------------------------------------
// The outside width table.
// ---------------------------------------------------------------------

/// What `UnicodeWidthChar::width` answers for one character.
pub uninterp spec fn unicode_width_of(c: char) -> Option<usize>;

/// `unicode_width::UnicodeWidthChar::width`: the character's column width
/// from the crate's Unicode tables, `None` for a control character. The
/// contract states what the crate's source shows directly: printable ASCII
/// is one column, the C0 and C1 control ranges are `None`, the Box
/// Drawing block (U+2500..=U+257F, all narrow in the table) is one column,
/// and every table entry is at most three columns. The table itself is not
/// restated.
#[verifier::external_body]
pub(crate) fn char_width(c: char) -> (w: Option<usize>)
    ensures
        w == unicode_width_of(c),
        (' ' <= c && '\x7f' > c) ==> w == Some(1usize),
        ('\u{2500}' <= c && c <= '\u{257F}') ==> w == Some(1usize),
        (' ' > c || ('\x7f' <= c && '\u{a0}' > c)) ==> w is None,
        w matches Some(n) ==> n <= 3,
{
    UnicodeWidthChar::width(c)
}

/// What `UnicodeWidthStr::width` answers for a string.
pub uninterp spec fn unicode_str_width(s: Seq<char>) -> usize;

/// `unicode_width::UnicodeWidthStr::width`: the string's column width by the
/// crate's rules, which also weigh character sequences (emoji, joiners) and
/// are not restated; the result is named.
#[verifier::external_body]
pub(crate) fn str_width(s: &str) -> (w: usize)
    ensures
        w == unicode_str_width(s@),
{
    UnicodeWidthStr::width(s)
}

/// Cells one character occupies; control characters count zero. Printable
/// ASCII and the control ranges are spelled out; everything else is what
/// the width table answers.
pub open spec fn char_cells(c: char) -> nat {
    if ' ' <= c && '\x7f' > c {
        1
    } else if ' ' > c || ('\x7f' <= c && '\u{a0}' > c) {
        0
    } else {
        match unicode_width_of(c) {
            Some(n) => n as nat,
            None => 0,
        }
    }
}

// ---------------------------------------------------------------------
// The model: escape sequences and display cells over `Seq<char>`.
// ---------------------------------------------------------------------

/// Whether `c` ends a CSI sequence (a final byte in `@..=~`).
pub open spec fn is_csi_final(c: char) -> bool {
    '@' <= c && c <= '~'
}

/// Where a CSI sequence that has reached position `i` of `s` ends.
pub open spec fn csi_end(s: Seq<char>, i: int) -> int
    decreases s.len() - i,
{
    if i >= s.len() {
        s.len() as int
    } else if is_csi_final(s[i]) {
        i + 1
    } else {
        csi_end(s, i + 1)
    }
}

/// Where an OSC sequence that has reached position `i` of `s` ends: at BEL
/// or at ST (`ESC \`).
pub open spec fn osc_end(s: Seq<char>, i: int) -> int
    decreases s.len() - i,
{
    if i >= s.len() {
        s.len() as int
    } else if s[i] == '\x07' {
        i + 1
    } else if s[i] == ESC && i + 1 < s.len() && s[i + 1] == '\\' {
        i + 2
    } else {
        osc_end(s, i + 1)
    }
}

/// Characters an escape sequence starting at `s[0] == ESC` occupies. An
/// unterminated sequence swallows the remainder.
pub open spec fn escape_len(s: Seq<char>) -> int {
    if s.len() < 2 {
        1
    } else if s[1] == '[' {
        csi_end(s, 2)
    } else if s[1] == ']' {
        osc_end(s, 2)
    } else {
        2
    }
}

/// Characters the chunk at the front of a non-empty `s` occupies.
pub open spec fn chunk_len(s: Seq<char>) -> int {
    if s[0] == ESC {
        escape_len(s)
    } else {
        1
    }
}

pub proof fn lemma_csi_end_bounds(s: Seq<char>, i: int)
    requires
        0 <= i <= s.len(),
    ensures
        i <= csi_end(s, i) <= s.len(),
        csi_end(s, i) > i || i == s.len(),
    decreases s.len() - i,
{
    if i < s.len() && !is_csi_final(s[i]) {
        lemma_csi_end_bounds(s, i + 1);
    }
}

pub proof fn lemma_osc_end_bounds(s: Seq<char>, i: int)
    requires
        0 <= i <= s.len(),
    ensures
        i <= osc_end(s, i) <= s.len(),
        osc_end(s, i) > i || i == s.len(),
    decreases s.len() - i,
{
    if i < s.len() && !(s[i] == '\x07') && !(s[i] == ESC && i + 1 < s.len() && s[i + 1] == '\\') {
        lemma_osc_end_bounds(s, i + 1);
    }
}

/// Every chunk advances the walk and stays inside the string.
pub proof fn lemma_chunk_len_bounds(s: Seq<char>)
    requires
        s.len() > 0,
    ensures
        1 <= chunk_len(s) <= s.len(),
{
    if s[0] == ESC && s.len() >= 2 {
        if s[1] == '[' {
            lemma_csi_end_bounds(s, 2);
        } else if s[1] == ']' {
            lemma_osc_end_bounds(s, 2);
        }
    }
}

/// Display cells a string occupies; escape sequences count as zero.
pub open spec fn cells(s: Seq<char>) -> nat
    decreases s.len(),
{
    if s.len() == 0 {
        0
    } else {
        proof {
            lemma_chunk_len_bounds(s);
        }
        if s[0] == ESC {
            cells(s.skip(chunk_len(s)))
        } else {
            char_cells(s[0]) + cells(s.skip(1))
        }
    }
}

/// Characters of `s` that fit in `max` cells after `used` are spent: the
/// walk stops at the first printable character that would overflow, and
/// escapes met before that point stay with the head.
pub open spec fn fit_len(s: Seq<char>, used: nat, max: nat) -> nat
    decreases s.len(),
{
    if s.len() == 0 {
        0
    } else {
        proof {
            lemma_chunk_len_bounds(s);
        }
        if s[0] == ESC {
            (chunk_len(s) + fit_len(s.skip(chunk_len(s)), used, max)) as nat
        } else if used + char_cells(s[0]) > max {
            0
        } else {
            1 + fit_len(s.skip(1), used + char_cells(s[0]), max)
        }
    }
}

/// Whether an escape sequence is an SGR reset (`ESC[0m` or `ESC[m`).
pub open spec fn is_sgr_reset(e: Seq<char>) -> bool {
    e == seq![ESC, '[', '0', 'm'] || e == seq![ESC, '[', 'm']
}

/// Whether an escape sequence is any SGR sequence (`ESC[ ... m`).
pub open spec fn is_sgr(e: Seq<char>) -> bool {
    e.len() >= 3 && e[0] == ESC && e[1] == '[' && e[e.len() - 1] == 'm'
}

/// Whether styling is open after walking `s` from state `open`.
pub open spec fn sgr_open_after(s: Seq<char>, open: bool) -> bool
    decreases s.len(),
{
    if s.len() == 0 {
        open
    } else {
        proof {
            lemma_chunk_len_bounds(s);
        }
        if s[0] == ESC {
            let e = s.take(chunk_len(s));
            let next = if is_sgr_reset(e) {
                false
            } else if is_sgr(e) {
                true
            } else {
                open
            };
            sgr_open_after(s.skip(chunk_len(s)), next)
        } else {
            sgr_open_after(s.skip(1), open)
        }
    }
}

/// `n` spaces.
pub open spec fn spaces_of(n: nat) -> Seq<char> {
    Seq::new(n, |i: int| ' ')
}

/// The text `pad_display` produces.
pub open spec fn padded(s: Seq<char>, width: nat, align: Align) -> Seq<char> {
    if cells(s) >= width {
        s
    } else {
        let missing = (width - cells(s)) as nat;
        match align {
            Align::Left => s + spaces_of(missing),
            Align::Right => spaces_of(missing) + s,
            Align::Center => spaces_of(missing / 2) + s + spaces_of((missing - missing / 2) as nat),
        }
    }
}

/// The SGR reset appended after an open style.
pub open spec fn sgr_reset() -> Seq<char> {
    seq![ESC, '[', '0', 'm']
}

/// The text `truncate_display` produces: a reset closes any SGR left open
/// in the kept head, on the hard cut too.
pub open spec fn truncated(s: Seq<char>, max: nat, marker: Seq<char>) -> Seq<char> {
    if capped(cells(s)) <= max {
        s
    } else if capped(cells(marker)) >= max {
        let head = s.take(fit_len(s, 0, max) as int);
        if sgr_open_after(head, false) {
            head + sgr_reset()
        } else {
            head
        }
    } else {
        let head = s.take(fit_len(s, 0, (max - cells(marker)) as nat) as int);
        if sgr_open_after(head, false) {
            head + marker + sgr_reset()
        } else {
            head + marker
        }
    }
}

/// A string with every escape sequence removed.
pub open spec fn stripped(s: Seq<char>) -> Seq<char>
    decreases s.len(),
{
    if s.len() == 0 {
        s
    } else {
        proof {
            lemma_chunk_len_bounds(s);
        }
        if s[0] == ESC {
            stripped(s.skip(chunk_len(s)))
        } else {
            seq![s[0]] + stripped(s.skip(1))
        }
    }
}

/// `s` with each tab widened to the next multiple of `stop` display
/// columns; `col` is the current column modulo `stop`.
pub open spec fn expanded(s: Seq<char>, col: nat, stop: nat) -> Seq<char>
    decreases s.len(),
{
    if s.len() == 0 || stop == 0 {
        s
    } else {
        proof {
            lemma_chunk_len_bounds(s);
        }
        if s[0] == ESC {
            s.take(chunk_len(s)) + expanded(s.skip(chunk_len(s)), col, stop)
        } else if s[0] == '\t' {
            spaces_of((stop - col) as nat) + expanded(s.skip(1), 0, stop)
        } else {
            seq![s[0]] + expanded(s.skip(1), (col + char_cells(s[0])) % stop, stop)
        }
    }
}

/// The style prefix carried across a wrap after seeing escape `e`: a reset
/// clears it, any other SGR sequence joins it.
pub open spec fn sgr_step(active: Seq<char>, e: Seq<char>) -> Seq<char> {
    if is_sgr_reset(e) {
        Seq::empty()
    } else if is_sgr(e) {
        active + e
    } else {
        active
    }
}

/// The style prefix in force after walking `s` from prefix `active`.
pub open spec fn active_after(s: Seq<char>, active: Seq<char>) -> Seq<char>
    decreases s.len(),
{
    if s.len() == 0 {
        active
    } else {
        proof {
            lemma_chunk_len_bounds(s);
        }
        if s[0] == ESC {
            active_after(s.skip(chunk_len(s)), sgr_step(active, s.take(chunk_len(s))))
        } else {
            active_after(s.skip(1), active)
        }
    }
}

/// Greedy word wrap of `words` into lines of at most `width` cells.
/// `line` is the line in progress, `lw` its cells, `fresh` whether it holds
/// no word yet, `active` the style in force. A word wider than the whole
/// line stays whole on a line of its own; a style left open at a break is
/// closed there and reopened on the next line.
pub open spec fn wrap_words(
    words: Seq<Seq<char>>,
    width: nat,
    line: Seq<char>,
    lw: nat,
    fresh: bool,
    active: Seq<char>,
) -> Seq<Seq<char>>
    decreases words.len(),
{
    if words.len() == 0 {
        seq![line]
    } else {
        let w = words[0];
        let cw = capped(cells(w)) as nat;
        let next = active_after(w, active);
        if fresh {
            wrap_words(words.skip(1), width, line + w, cw, false, next)
        } else if lw + 1 + cw <= width {
            wrap_words(words.skip(1), width, line + seq![' '] + w, lw + 1 + cw, false, next)
        } else {
            let closed = if active.len() > 0 {
                line + sgr_reset()
            } else {
                line
            };
            seq![closed] + wrap_words(words.skip(1), width, active + w, cw, false, next)
        }
    }
}

/// The lines `wrap_display` produces.
pub open spec fn wrapped(s: Seq<char>, width: nat) -> Seq<Seq<char>> {
    wrap_words(split_on(s, ' '), width, Seq::empty(), 0, true, Seq::empty())
}

/// The width `display_width` reports: exact, saturating at `usize::MAX`.
pub open spec fn capped(n: nat) -> usize {
    if n <= usize::MAX {
        n as usize
    } else {
        usize::MAX
    }
}

// ---------------------------------------------------------------------
// Executable walk.
// ---------------------------------------------------------------------

/// Cells of one printable character, from the width table.
fn cells_of_char(c: char) -> (w: usize)
    ensures
        w == char_cells(c),
        w <= 3,
{
    match char_width(c) {
        Some(n) => n,
        None => 0,
    }
}

/// Characters the escape sequence starting at `v[i]` occupies.
fn escape_len_at(v: &Vec<char>, i: usize) -> (n: usize)
    requires
        i < v@.len(),
        v@[i as int] == ESC,
    ensures
        n as int == escape_len(v@.skip(i as int)),
        1 <= n <= v@.len() - i,
{
    let ghost t = v@.skip(i as int);
    let len = v.len();
    if i + 1 >= len {
        return 1;
    }
    if v[i + 1] == '[' {
        let mut j: usize = i + 2;
        while j < len && !('@' <= v[j] && v[j] <= '~')
            invariant
                i + 2 <= j <= len,
                len == v@.len(),
                t == v@.skip(i as int),
                csi_end(t, 2) == csi_end(t, j - i),
            decreases len - j,
        {
            j += 1;
        }
        if j < len {
            j + 1 - i
        } else {
            len - i
        }
    } else if v[i + 1] == ']' {
        assert(t[1] == v@[i + 1]);
        assert(escape_len(t) == osc_end(t, 2));
        let mut j: usize = i + 2;
        while j < len
            invariant
                i + 2 <= j <= len,
                len == v@.len(),
                t == v@.skip(i as int),
                osc_end(t, 2) == osc_end(t, j - i),
                escape_len(t) == osc_end(t, 2),
            decreases len - j,
        {
            assert(t.len() == len - i);
            assert(t[j - i] == v@[j as int]);
            if v[j] == '\x07' {
                assert(osc_end(t, j - i) == j - i + 1);
                return j + 1 - i;
            }
            if v[j] == ESC && j + 1 < len && v[j + 1] == '\\' {
                assert(t[j - i + 1] == v@[j + 1]);
                return j + 2 - i;
            }
            j += 1;
        }
        len - i
    } else {
        2
    }
}

/// Characters the chunk starting at `v[i]` occupies.
fn chunk_len_at(v: &Vec<char>, i: usize) -> (n: usize)
    requires
        i < v@.len(),
    ensures
        n as int == chunk_len(v@.skip(i as int)),
        1 <= n <= v@.len() - i,
{
    if v[i] == ESC {
        escape_len_at(v, i)
    } else {
        1
    }
}

/// A walk over a string as escape sequences and printable characters.
pub struct Chunks {
    chars: Vec<char>,
    pos: usize,
}

impl Chunks {
    #[verifier::type_invariant]
    spec fn wf(self) -> bool {
        self.pos <= self.chars.len()
    }

    /// What the walk has not yet produced.
    pub closed spec fn rest(&self) -> Seq<char> {
        self.chars@.skip(self.pos as int)
    }

    /// The next chunk: an escape sequence whole, or one character with the
    /// cells it occupies.
    pub fn next(&mut self) -> (r: Option<Chunk>)
        ensures
            match r {
                None => old(self).rest().len() == 0 && final(self).rest() == old(self).rest(),
                Some(Chunk::Escape(e)) => {
                    &&& old(self).rest().len() > 0
                    &&& old(self).rest()[0] == ESC
                    &&& e@ == old(self).rest().take(chunk_len(old(self).rest()))
                    &&& final(self).rest() == old(self).rest().skip(chunk_len(old(self).rest()))
                },
                Some(Chunk::Text(t, w)) => {
                    &&& old(self).rest().len() > 0
                    &&& old(self).rest()[0] != ESC
                    &&& t@ == seq![old(self).rest()[0]]
                    &&& w == char_cells(old(self).rest()[0])
                    &&& final(self).rest() == old(self).rest().skip(1)
                },
            },
    {
        proof {
            use_type_invariant(&*self);
        }
        if self.pos >= self.chars.len() {
            proof {
                assert(self.rest().len() == 0);
            }
            return None;
        }
        let i = self.pos;
        let n = chunk_len_at(&self.chars, i);
        proof {
            lemma_skip_skip(self.chars@, i as int, n as int);
        }
        if self.chars[i] == ESC {
            let e = string_of(slice_of(&self.chars, i, i + n));
            proof {
                assert(self.chars@.subrange(i as int, i + n) =~= self.chars@.skip(i as int).take(n as int));
            }
            self.pos = i + n;
            Some(Chunk::Escape(e))
        } else {
            let c = self.chars[i];
            let mut t = String::new();
            push_char(&mut t, c);
            proof {
                assert(t@ =~= seq![c]);
            }
            self.pos = i + 1;
            Some(Chunk::Text(t, cells_of_char(c)))
        }
    }
}

/// Walk a string as escape sequences and printable characters.
pub fn chunks(s: &str) -> (r: Chunks)
    ensures
        r.rest() == s@,
{
    let r = Chunks { chars: chars_of(s), pos: 0 };
    proof {
        assert(r.chars@.skip(0) =~= r.chars@);
    }
    r
}

/// Drop every escape sequence, keeping the printable text.
pub fn strip_escapes(s: &str) -> (r: String)
    ensures
        r@ == stripped(s@),
{
    let v = chars_of(s);
    let mut out = String::new();
    let mut i: usize = 0;
    assert(v@.skip(0) =~= v@);
    while i < v.len()
        invariant
            i <= v@.len(),
            stripped(v@) == out@ + stripped(v@.skip(i as int)),
        decreases v@.len() - i,
    {
        let ghost t = v@.skip(i as int);
        let n = chunk_len_at(&v, i);
        proof {
            lemma_skip_skip(v@, i as int, n as int);
        }
        if v[i] != ESC {
            let ghost before = out@;
            push_char(&mut out, v[i]);
            assert(stripped(t) == seq![t[0]] + stripped(t.skip(1)));
            assert(before + (seq![t[0]] + stripped(t.skip(1))) =~= out@ + stripped(t.skip(1)));
        }
        i += n;
    }
    proof {
        assert(v@.skip(v@.len() as int) =~= Seq::<char>::empty());
        assert(out@ + Seq::<char>::empty() =~= out@);
    }
    out
}

/// Widen every tab to the next multiple of `stop` display columns, so a
/// line's geometry no longer depends on the terminal's tab stops.
pub fn expand_tabs(s: &str, stop: usize) -> (r: String)
    requires
        stop > 0,
    ensures
        r@ == expanded(s@, 0, stop as nat),
{
    let v = chars_of(s);
    let mut out = String::new();
    let mut i: usize = 0;
    let mut col: usize = 0;
    assert(v@.skip(0) =~= v@);
    while i < v.len()
        invariant
            i <= v@.len(),
            col < stop,
            expanded(v@, 0, stop as nat) == out@ + expanded(v@.skip(i as int), col as nat, stop as nat),
        decreases v@.len() - i,
    {
        let ghost t = v@.skip(i as int);
        let ghost before = out@;
        let n = chunk_len_at(&v, i);
        proof {
            lemma_skip_skip(v@, i as int, n as int);
        }
        if v[i] == ESC {
            let e = string_of(slice_of(&v, i, i + n));
            push_str(&mut out, e.as_str());
            proof {
                assert(v@.subrange(i as int, i + n) =~= t.take(n as int));
                assert(before + (t.take(n as int) + expanded(t.skip(n as int), col as nat, stop as nat))
                    =~= out@ + expanded(t.skip(n as int), col as nat, stop as nat));
            }
        } else if v[i] == '\t' {
            let pad = spaces(stop - col);
            push_str(&mut out, pad.as_str());
            proof {
                assert(before + (spaces_of((stop - col) as nat) + expanded(t.skip(1), 0, stop as nat))
                    =~= out@ + expanded(t.skip(1), 0, stop as nat));
            }
            col = 0;
        } else {
            let w = cells_of_char(v[i]);
            push_char(&mut out, v[i]);
            let next = if w < stop - col {
                col + w
            } else {
                (w - (stop - col)) % stop
            };
            proof {
                if w < stop - col {
                    vstd::arithmetic::div_mod::lemma_small_mod((col + w) as nat, stop as nat);
                } else {
                    vstd::arithmetic::div_mod::lemma_mod_add_multiples_vanish(
                        (w - (stop - col)) as int,
                        stop as int,
                    );
                }
                let nc: nat = ((col + w) % (stop as int)) as nat;
                assert(next == nc);
                assert(before + (seq![t[0]] + expanded(t.skip(1), nc, stop as nat))
                    =~= out@ + expanded(t.skip(1), nc, stop as nat));
            }
            col = next;
        }
        i += n;
    }
    proof {
        assert(v@.skip(v@.len() as int) =~= Seq::<char>::empty());
        assert(out@ + Seq::<char>::empty() =~= out@);
    }
    out
}

/// The style prefix in force after `s`, starting from `active`.
fn carry_style(s: &str, active: String) -> (r: String)
    ensures
        r@ == active_after(s@, active@),
{
    let v = chars_of(s);
    let mut active = active;
    let mut i: usize = 0;
    let ghost start = active@;
    assert(v@.skip(0) =~= v@);
    while i < v.len()
        invariant
            i <= v@.len(),
            active_after(v@, start) == active_after(v@.skip(i as int), active@),
        decreases v@.len() - i,
    {
        let ghost t = v@.skip(i as int);
        let n = chunk_len_at(&v, i);
        proof {
            lemma_skip_skip(v@, i as int, n as int);
            assert(t.take(n as int) =~= v@.subrange(i as int, i + n));
        }
        if v[i] == ESC {
            if escape_is_reset(&v, i, n) {
                active = String::new();
            } else if n >= 3 && v[i + 1] == '[' && v[i + n - 1] == 'm' {
                let e = string_of(slice_of(&v, i, i + n));
                push_str(&mut active, e.as_str());
            }
        }
        i += n;
    }
    active
}

/// Word-wrap to `width` display cells. Words break at single spaces (the
/// breaking space is dropped); a style still open at a break is reset at
/// the end of that line and reopened at the start of the next.
pub fn wrap_display(s: &str, width: usize) -> (r: Vec<String>)
    ensures
        views(r@) == wrapped(s@, width as nat),
{
    let words = split_str(s, ' ');
    let ghost ws = views(words@);
    let mut out: Vec<String> = Vec::new();
    let mut line = String::new();
    let mut lw: usize = 0;
    let mut fresh = true;
    let mut active = String::new();
    let mut i: usize = 0;
    assert(ws.skip(0) =~= ws);
    while i < words.len()
        invariant
            i <= words@.len(),
            ws == views(words@),
            wrapped(s@, width as nat) == views(out@) + wrap_words(
                ws.skip(i as int),
                width as nat,
                line@,
                lw as nat,
                fresh,
                active@,
            ),
        decreases words@.len() - i,
    {
        let ghost rest = ws.skip(i as int);
        let ghost before = views(out@);
        let word = words[i].as_str();
        proof {
            assert(rest[0] == word@);
            assert(rest.skip(1) =~= ws.skip(i + 1));
        }
        let cw = display_width(word);
        let next = carry_style(word, active.clone());
        let ghost line0 = line@;
        let ghost lw0 = lw as nat;
        let ghost fresh0 = fresh;
        let ghost active0 = active@;
        proof {
            assert(cw as nat == capped(cells(rest[0])) as nat);
        }
        if fresh {
            push_str(&mut line, word);
            lw = cw;
            fresh = false;
            proof {
                assert(wrap_words(rest, width as nat, line0, lw0, fresh0, active0) == wrap_words(
                    rest.skip(1), width as nat, line0 + word@, cw as nat, false, next@));
            }
        } else if lw < width && cw <= width - lw - 1 {
            push_str(&mut line, " ");
            push_str(&mut line, word);
            proof {
                reveal_strlit(" ");
                assert(" "@ =~= seq![' ']);
                assert(line@ =~= line0 + seq![' '] + word@);
                assert(wrap_words(rest, width as nat, line0, lw0, fresh0, active0) == wrap_words(
                    rest.skip(1), width as nat, line0 + seq![' '] + word@, (lw0 + 1 + cw) as nat, false, next@));
            }
            lw = lw + 1 + cw;
        } else {
            let mut closed = line;
            if active.as_str().unicode_len() > 0 {
                push_str(&mut closed, "\x1b[0m");
                proof {
                    reveal_strlit("\x1b[0m");
                    assert("\x1b[0m"@ =~= sgr_reset());
                }
            }
            out.push(closed);
            proof {
                assert(views(out@) =~= before + seq![closed@]);
            }
            line = active.clone();
            push_str(&mut line, word);
            lw = cw;
            proof {
                assert(wrap_words(rest, width as nat, line0, lw0, fresh0, active0) == seq![closed@] + wrap_words(
                    rest.skip(1), width as nat, active0 + word@, cw as nat, false, next@));
                assert(before + (seq![closed@] + wrap_words(rest.skip(1), width as nat, line@, lw as nat, false, next@))
                    =~= views(out@) + wrap_words(rest.skip(1), width as nat, line@, lw as nat, false, next@));
            }
        }
        active = next;
        i += 1;
    }
    let ghost before = views(out@);
    out.push(line);
    proof {
        assert(views(out@) =~= before + seq![line@]);
    }
    out
}

/// Display cells of a character sequence, saturating at `usize::MAX`.
pub(crate) fn cells_of(v: &Vec<char>) -> (w: usize)
    ensures
        w == capped(cells(v@)),
{
    let mut i: usize = 0;
    let mut acc: usize = 0;
    let ghost mut done: nat = 0;
    assert(v@.skip(0) =~= v@);
    while i < v.len()
        invariant
            i <= v@.len(),
            cells(v@) == done + cells(v@.skip(i as int)),
            acc == capped(done),
        decreases v@.len() - i,
    {
        let ghost t = v@.skip(i as int);
        let n = chunk_len_at(v, i);
        proof {
            lemma_skip_skip(v@, i as int, n as int);
        }
        if v[i] == ESC {
            assert(cells(t) == cells(t.skip(n as int)));
        } else {
            let w = cells_of_char(v[i]);
            assert(cells(t) == w + cells(t.skip(1)));
            acc = acc.saturating_add(w);
            proof {
                done = (done + w) as nat;
            }
        }
        i += n;
    }
    acc
}

/// Display cells a string occupies; escape sequences count as zero.
pub fn display_width(s: &str) -> (w: usize)
    ensures
        w == capped(cells(s@)),
{
    let v = chars_of(s);
    cells_of(&v)
}

/// Characters of `v[i..]` that fit in `max` cells.
fn fit_len_of(v: &Vec<char>, max: usize) -> (k: usize)
    ensures
        k as nat == fit_len(v@, 0, max as nat),
        k <= v@.len(),
{
    let mut i: usize = 0;
    let mut used: usize = 0;
    assert(v@.skip(0) =~= v@);
    while i < v.len()
        invariant
            i <= v@.len(),
            used <= max,
            fit_len(v@, 0, max as nat) == i + fit_len(v@.skip(i as int), used as nat, max as nat),
        decreases v@.len() - i,
    {
        let ghost t = v@.skip(i as int);
        let n = chunk_len_at(v, i);
        proof {
            lemma_skip_skip(v@, i as int, n as int);
        }
        if v[i] != ESC {
            let w = cells_of_char(v[i]);
            if w > max - used {
                assert(fit_len(t, used as nat, max as nat) == 0);
                return i;
            }
            used = used + w;
        }
        i += n;
    }
    i
}

/// Split at the last position fitting in `max` display cells. Escape
/// sequences never straddle the split and trailing zero-width escapes stay
/// with the head; a wide character that would straddle goes to the tail.
pub fn split_at_width(s: &str, max: usize) -> (r: (&str, &str))
    ensures
        r.0@ == s@.take(fit_len(s@, 0, max as nat) as int),
        r.1@ == s@.skip(fit_len(s@, 0, max as nat) as int),
{
    let v = chars_of(s);
    let k = fit_len_of(&v, max);
    (s.substring_char(0, k), s.substring_char(k, v.len()))
}

/// Pad to `width` display cells with spaces. Strings already at or over
/// `width` are returned untouched: padding never truncates.
pub fn pad_display(s: &str, width: usize, align: Align) -> (r: String)
    ensures
        r@ == padded(s@, width as nat, align),
{
    let current = display_width(s);
    if current >= width {
        return s.to_owned();
    }
    let missing = width - current;
    let mut out = String::new();
    match align {
        Align::Left => {
            push_str(&mut out, s);
            let pad = spaces(missing);
            push_str(&mut out, pad.as_str());
        },
        Align::Right => {
            let pad = spaces(missing);
            push_str(&mut out, pad.as_str());
            push_str(&mut out, s);
        },
        Align::Center => {
            let left = missing / 2;
            let pad = spaces(left);
            push_str(&mut out, pad.as_str());
            push_str(&mut out, s);
            let pad = spaces(missing - left);
            push_str(&mut out, pad.as_str());
        },
    }
    out
}

/// Whether the escape `v[i..i + n]` is an SGR reset.
fn escape_is_reset(v: &Vec<char>, i: usize, n: usize) -> (b: bool)
    requires
        i + n <= v.len(),
    ensures
        b == is_sgr_reset(v@.subrange(i as int, i + n)),
{
    let ghost e = v@.subrange(i as int, i + n);
    if n == 4 {
        let b = v[i] == ESC && v[i + 1] == '[' && v[i + 2] == '0' && v[i + 3] == 'm';
        proof {
            if b {
                assert(e =~= seq![ESC, '[', '0', 'm']);
            } else {
                assert(e.len() == 4);
                assert(!(e =~= seq![ESC, '[', '0', 'm']));
            }
        }
        b
    } else if n == 3 {
        let b = v[i] == ESC && v[i + 1] == '[' && v[i + 2] == 'm';
        proof {
            if b {
                assert(e =~= seq![ESC, '[', 'm']);
            } else {
                assert(!(e =~= seq![ESC, '[', 'm']));
            }
        }
        b
    } else {
        proof {
            assert(e.len() != 4 && e.len() != 3);
            assert(e != seq![ESC, '[', '0', 'm']);
            assert(e != seq![ESC, '[', 'm']);
        }
        false
    }
}

/// Whether styling is left open after walking `v`.
fn sgr_open_in(v: &Vec<char>) -> (b: bool)
    ensures
        b == sgr_open_after(v@, false),
{
    let mut i: usize = 0;
    let mut open = false;
    assert(v@.skip(0) =~= v@);
    while i < v.len()
        invariant
            i <= v@.len(),
            sgr_open_after(v@, false) == sgr_open_after(v@.skip(i as int), open),
        decreases v@.len() - i,
    {
        let ghost t = v@.skip(i as int);
        let n = chunk_len_at(v, i);
        proof {
            lemma_skip_skip(v@, i as int, n as int);
            assert(t.take(n as int) =~= v@.subrange(i as int, i + n));
        }
        if v[i] == ESC {
            if escape_is_reset(v, i, n) {
                open = false;
            } else if n >= 3 && v[i + 1] == '[' && v[i + n - 1] == 'm' {
                open = true;
            }
        }
        i += n;
    }
    open
}

/// Whether the string ends with SGR styling still open (an SGR sequence
/// seen after the last reset).
pub fn sgr_left_open(s: &str) -> (b: bool)
    ensures
        b == sgr_open_after(s@, false),
{
    let v = chars_of(s);
    sgr_open_in(&v)
}

/// Keep the leading `max` display cells, appending `marker` inside the
/// budget when anything is dropped ("" for a hard cut) and a reset when SGR
/// was left open.
pub fn truncate_display(s: &str, max: usize, marker: &str) -> (r: String)
    ensures
        r@ == truncated(s@, max as nat, marker@),
{
    if display_width(s) <= max {
        return s.to_owned();
    }
    let marker_width = display_width(marker);
    let v = chars_of(s);
    if marker_width >= max {
        let k = fit_len_of(&v, max);
        let head = s.substring_char(0, k);
        let mut cut = head.to_owned();
        if sgr_left_open(head) {
            push_str(&mut cut, "\x1b[0m");
            proof {
                reveal_strlit("\x1b[0m");
                assert("\x1b[0m"@ =~= sgr_reset());
            }
        }
        return cut;
    }
    let k = fit_len_of(&v, max - marker_width);
    let head = s.substring_char(0, k);
    let mut out = head.to_owned();
    push_str(&mut out, marker);
    if sgr_left_open(head) {
        push_str(&mut out, "\x1b[0m");
        proof {
            reveal_strlit("\x1b[0m");
            assert("\x1b[0m"@ =~= sgr_reset());
        }
    }
    out
}

// ---------------------------------------------------------------------
// Lemmas.
// ---------------------------------------------------------------------

pub proof fn lemma_skip_skip<A>(s: Seq<A>, i: int, j: int)
    requires
        0 <= i,
        0 <= j,
        i + j <= s.len(),
    ensures
        s.skip(i).skip(j) =~= s.skip(i + j),
{
}

/// Cells of a string that starts with a printable (non-escape) prefix.
pub proof fn lemma_cells_space_prefix(n: nat, s: Seq<char>)
    ensures
        cells(spaces_of(n) + s) == n + cells(s),
    decreases n,
{
    reveal_with_fuel(cells, 2);
    if n > 0 {
        let t = spaces_of(n) + s;
        assert(t[0] == ' ');
        assert(t.skip(1) =~= spaces_of((n - 1) as nat) + s);
        lemma_cells_space_prefix((n - 1) as nat, s);
    }
}


// ---------------------------------------------------------------------
// Widths of strings laid end to end.

/// A CSI sequence that has reached position `i` of `s` meets its final
/// character inside `s`.
pub open spec fn csi_closed(s: Seq<char>, i: int) -> bool
    decreases s.len() - i,
{
    if i < 0 || i >= s.len() {
        false
    } else if is_csi_final(s[i]) {
        true
    } else {
        csi_closed(s, i + 1)
    }
}

/// An OSC sequence that has reached position `i` of `s` meets its BEL or
/// ST inside `s`.
pub open spec fn osc_closed(s: Seq<char>, i: int) -> bool
    decreases s.len() - i,
{
    if i < 0 || i >= s.len() {
        false
    } else if s[i] == '\x07' {
        true
    } else if s[i] == ESC && i + 1 < s.len() && s[i + 1] == '\\' {
        true
    } else {
        osc_closed(s, i + 1)
    }
}

/// The escape at the front of `s` ends inside `s`: nothing after `s` can
/// extend it.
pub open spec fn escape_closed(s: Seq<char>) -> bool {
    &&& s.len() >= 2
    &&& s[1] == '[' ==> csi_closed(s, 2)
    &&& s[1] == ']' ==> osc_closed(s, 2)
}

/// Every escape sequence in `s` ends inside `s`: `s` leaves no sequence
/// open for what follows it to complete.
pub open spec fn closed(s: Seq<char>) -> bool
    decreases s.len(),
{
    if s.len() == 0 {
        true
    } else {
        proof {
            lemma_chunk_len_bounds(s);
        }
        if s[0] == ESC {
            escape_closed(s) && closed(s.skip(chunk_len(s)))
        } else {
            closed(s.skip(1))
        }
    }
}

proof fn lemma_csi_end_concat(a: Seq<char>, b: Seq<char>, i: int)
    requires
        0 <= i,
        csi_closed(a, i),
    ensures
        csi_end(a + b, i) == csi_end(a, i),
    decreases a.len() - i,
{
    assert((a + b)[i] == a[i]);
    if !is_csi_final(a[i]) {
        lemma_csi_end_concat(a, b, i + 1);
    }
}

proof fn lemma_osc_end_concat(a: Seq<char>, b: Seq<char>, i: int)
    requires
        0 <= i,
        osc_closed(a, i),
    ensures
        osc_end(a + b, i) == osc_end(a, i),
    decreases a.len() - i,
{
    assert((a + b)[i] == a[i]);
    if i + 1 < a.len() {
        assert((a + b)[i + 1] == a[i + 1]);
    }
    if a[i] == '\x07' {
    } else if a[i] == ESC && i + 1 < a.len() && a[i + 1] == '\\' {
    } else {
        assert(osc_closed(a, i + 1));
        lemma_osc_end_concat(a, b, i + 1);
        assert(!(a[i] == ESC && i + 1 < (a + b).len() && (a + b)[i + 1] == '\\'));
    }
}

/// A closed escape is the same chunk whatever follows it.
proof fn lemma_chunk_len_concat(a: Seq<char>, b: Seq<char>)
    requires
        a.len() > 0,
        a[0] == ESC,
        escape_closed(a),
    ensures
        chunk_len(a + b) == chunk_len(a),
{
    assert((a + b)[0] == a[0]);
    assert((a + b)[1] == a[1]);
    if a[1] == '[' {
        lemma_csi_end_concat(a, b, 2);
    } else if a[1] == ']' {
        lemma_osc_end_concat(a, b, 2);
    }
}

/// Cells add up across a closed string and whatever follows it, which
/// stays closed when both parts are.
pub proof fn lemma_cells_concat(a: Seq<char>, b: Seq<char>)
    requires
        closed(a),
    ensures
        cells(a + b) == cells(a) + cells(b),
        closed(b) ==> closed(a + b),
    decreases a.len(),
{
    if a.len() == 0 {
        assert(a + b =~= b);
        return;
    }
    lemma_chunk_len_bounds(a);
    lemma_chunk_len_bounds(a + b);
    assert((a + b)[0] == a[0]);
    if a[0] == ESC {
        let k = chunk_len(a);
        lemma_chunk_len_concat(a, b);
        assert((a + b).skip(k) =~= a.skip(k) + b);
        lemma_cells_concat(a.skip(k), b);
        if closed(b) {
            assert(escape_closed(a + b)) by {
                assert((a + b)[1] == a[1]);
                if a[1] == '[' {
                    lemma_csi_closed_concat(a, b, 2);
                }
                if a[1] == ']' {
                    lemma_osc_closed_concat(a, b, 2);
                }
            }
        }
    } else {
        assert((a + b).skip(1) =~= a.skip(1) + b);
        lemma_cells_concat(a.skip(1), b);
    }
}

proof fn lemma_csi_closed_concat(a: Seq<char>, b: Seq<char>, i: int)
    requires
        0 <= i,
        csi_closed(a, i),
    ensures
        csi_closed(a + b, i),
    decreases a.len() - i,
{
    assert((a + b)[i] == a[i]);
    if !is_csi_final(a[i]) {
        lemma_csi_closed_concat(a, b, i + 1);
    }
}

proof fn lemma_osc_closed_concat(a: Seq<char>, b: Seq<char>, i: int)
    requires
        0 <= i,
        osc_closed(a, i),
    ensures
        osc_closed(a + b, i),
    decreases a.len() - i,
{
    assert((a + b)[i] == a[i]);
    if i + 1 < a.len() {
        assert((a + b)[i + 1] == a[i + 1]);
    }
    if !(a[i] == '\x07') && !(a[i] == ESC && i + 1 < a.len() && a[i + 1] == '\\') {
        lemma_osc_closed_concat(a, b, i + 1);
    }
}

/// A string without escapes is closed, and is as wide as its
/// characters.
pub proof fn lemma_plain_closed(s: Seq<char>)
    requires
        forall|i: int| 0 <= i < s.len() ==> s[i] != ESC,
    ensures
        closed(s),
    decreases s.len(),
{
    if s.len() > 0 {
        lemma_plain_closed(s.skip(1));
    }
}

proof fn lemma_csi_closed_take(s: Seq<char>, m: int, i: int)
    requires
        0 <= i,
        csi_closed(s, i),
        csi_end(s, i) <= m <= s.len(),
    ensures
        csi_closed(s.take(m), i),
    decreases s.len() - i,
{
    lemma_csi_end_bounds(s, i);
    assert(s.take(m)[i] == s[i]);
    if !is_csi_final(s[i]) {
        lemma_csi_closed_take(s, m, i + 1);
    }
}

proof fn lemma_osc_closed_take(s: Seq<char>, m: int, i: int)
    requires
        0 <= i,
        osc_closed(s, i),
        osc_end(s, i) <= m <= s.len(),
    ensures
        osc_closed(s.take(m), i),
    decreases s.len() - i,
{
    lemma_osc_end_bounds(s, i);
    assert(s.take(m)[i] == s[i]);
    if s[i] == '\x07' {
    } else if s[i] == ESC && i + 1 < s.len() && s[i + 1] == '\\' {
        assert(s.take(m)[i + 1] == s[i + 1]);
    } else {
        lemma_osc_closed_take(s, m, i + 1);
    }
}

/// A closed escape at the front stays the same closed chunk in any prefix
/// that holds it.
proof fn lemma_take_escape(s: Seq<char>, m: int)
    requires
        s.len() > 0,
        s[0] == ESC,
        escape_closed(s),
        chunk_len(s) <= m <= s.len(),
    ensures
        escape_closed(s.take(m)),
        chunk_len(s.take(m)) == chunk_len(s),
{
    let t = s.take(m);
    if s[1] == '[' {
        lemma_csi_end_bounds(s, 2);
    } else if s[1] == ']' {
        lemma_osc_end_bounds(s, 2);
    }
    assert(m >= 2);
    assert(t[0] == s[0]);
    assert(t[1] == s[1]);
    if s[1] == '[' {
        lemma_csi_closed_take(s, m, 2);
    } else if s[1] == ']' {
        lemma_osc_closed_take(s, m, 2);
    }
    lemma_chunk_len_concat(t, s.skip(m));
    assert(t + s.skip(m) =~= s);
}

/// What fits is a closed head within the budget.
pub proof fn lemma_fit(s: Seq<char>, used: nat, max: nat)
    requires
        closed(s),
        used <= max,
    ensures
        fit_len(s, used, max) <= s.len(),
        used + cells(s.take(fit_len(s, used, max) as int)) <= max,
        closed(s.take(fit_len(s, used, max) as int)),
    decreases s.len(),
{
    let f = fit_len(s, used, max);
    if s.len() == 0 {
        assert(s.take(0) =~= Seq::<char>::empty());
        return;
    }
    lemma_chunk_len_bounds(s);
    if s[0] == ESC {
        let k = chunk_len(s);
        let rest = s.skip(k);
        lemma_fit(rest, used, max);
        let g = fit_len(rest, used, max);
        let t = s.take(f as int);
        assert(f == k + g);
        lemma_take_escape(s, f as int);
        lemma_chunk_len_bounds(t);
        assert(t.skip(k) =~= rest.take(g as int));
        assert(t[0] == ESC);
    } else if used + char_cells(s[0]) > max {
        assert(s.take(0) =~= Seq::<char>::empty());
    } else {
        let rest = s.skip(1);
        lemma_fit(rest, used + char_cells(s[0]), max);
        let g = fit_len(rest, used + char_cells(s[0]), max);
        let t = s.take(f as int);
        assert(t[0] == s[0]);
        assert(t.skip(1) =~= rest.take(g as int));
    }
}

/// The reset closes itself and takes no cells.
pub proof fn lemma_reset_closed()
    ensures
        closed(sgr_reset()),
        cells(sgr_reset()) == 0,
{
    let e = sgr_reset();
    assert(!is_csi_final(e[2]));
    assert(is_csi_final(e[3]));
    assert(csi_end(e, 3) == 4);
    assert(csi_end(e, 2) == 4);
    assert(csi_closed(e, 3));
    assert(csi_closed(e, 2));
    assert(chunk_len(e) == 4);
    assert(e.skip(4) =~= Seq::<char>::empty());
    assert(closed(Seq::<char>::empty()));
    assert(cells(Seq::<char>::empty()) == 0);
}

/// Spaces are closed and one cell each.
pub proof fn lemma_spaces(n: nat)
    ensures
        closed(spaces_of(n)),
        cells(spaces_of(n)) == n,
{
    lemma_plain_closed(spaces_of(n));
    lemma_cells_space_prefix(n, Seq::<char>::empty());
    assert(spaces_of(n) + Seq::<char>::empty() =~= spaces_of(n));
}

/// A truncated closed text is closed and within its budget.
pub proof fn lemma_truncated_cells(s: Seq<char>, max: nat, marker: Seq<char>)
    requires
        closed(s),
        closed(marker),
        cells(s) <= usize::MAX,
        cells(marker) <= usize::MAX,
    ensures
        cells(truncated(s, max, marker)) <= max,
        closed(truncated(s, max, marker)),
{
    lemma_reset_closed();
    if capped(cells(s)) <= max {
    } else if capped(cells(marker)) >= max {
        lemma_fit(s, 0, max);
        let head = s.take(fit_len(s, 0, max) as int);
        lemma_cells_concat(head, sgr_reset());
    } else {
        let budget = (max - cells(marker)) as nat;
        lemma_fit(s, 0, budget);
        let head = s.take(fit_len(s, 0, budget) as int);
        lemma_cells_concat(head, marker);
        lemma_cells_concat(head + marker, sgr_reset());
    }
}

/// Padding a closed text that fits fills the width exactly.
pub proof fn lemma_padded_cells(s: Seq<char>, width: nat, align: Align)
    requires
        closed(s),
        cells(s) <= width,
    ensures
        cells(padded(s, width, align)) == width,
        closed(padded(s, width, align)),
{
    if cells(s) < width {
        let missing = (width - cells(s)) as nat;
        match align {
            Align::Left => {
                lemma_spaces(missing);
                lemma_cells_concat(s, spaces_of(missing));
            },
            Align::Right => {
                lemma_spaces(missing);
                lemma_cells_concat(spaces_of(missing), s);
            },
            Align::Center => {
                let l = missing / 2;
                let r = (missing - missing / 2) as nat;
                lemma_spaces(l);
                lemma_spaces(r);
                lemma_cells_concat(spaces_of(l), s);
                lemma_cells_concat(spaces_of(l) + s, spaces_of(r));
            },
        }
    }
}

} // verus!
