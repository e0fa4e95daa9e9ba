//! Text attributes plus colors, rendered as one SGR sequence, degraded to
//! what the terminal's color profile can show.

use vstd::prelude::*;

use crate::color::ColorProfile;
use crate::measure::{cells, chunk_len, closed, csi_end, escape_closed, csi_closed, is_csi_final, lemma_cells_concat, lemma_chunk_len_bounds, ESC};
use crate::table::joined;
use crate::text::{chars_of, decimal, decimal_string, digit_char, parse_usize, parsed_usize, push_str, str_eq};

verus! {

/// A terminal color: a named one of the sixteen, a 256-palette index, or
/// 24-bit RGB.
#[derive(Copy, Clone, PartialEq, Eq, Debug, Default, Structural)]
pub enum Color {
    #[default]
    Reset,
    Black,
    Red,
    Green,
    Yellow,
    Blue,
    Magenta,
    Cyan,
    Gray,
    DarkGray,
    LightRed,
    LightGreen,
    LightYellow,
    LightBlue,
    LightMagenta,
    LightCyan,
    White,
    Rgb(u8, u8, u8),
    Indexed(u8),
}

/// Text attributes plus colors, rendered as one SGR sequence.
#[derive(Clone, Copy, Debug, Default, PartialEq, Eq, Structural)]
pub struct StyleSpec {
    pub bold: bool,
    pub faint: bool,
    pub italic: bool,
    pub underline: bool,
    pub strikethrough: bool,
    pub foreground: Option<Color>,
    pub background: Option<Color>,
}

#[derive(Copy, Clone, PartialEq, Eq, Debug, Structural)]
pub enum Layer {
    Fg,
    Bg,
}

/// A color string that names no color.
#[derive(Clone, Debug, PartialEq, Eq)]
pub struct ColorError {
    pub input: String,
}

impl ColorError {
    /// `invalid color: INPUT`.
    pub fn message(&self) -> (r: String)
        ensures
            r@ == "invalid color: "@ + self.input@,
    {
        let mut r = String::new();
        push_str(&mut r, "invalid color: ");
        push_str(&mut r, self.input.as_str());
        r
    }
}

/// What `ratatui`'s `Color::from_str` makes of a string (a named color,
/// case, spaces, dashes and underscores ignored, with its synonyms; a
/// palette index; or `#rrggbb`), written back out by its `Display`.
pub uninterp spec fn ratatui_color_text(s: Seq<char>) -> Option<Seq<char>>;

/// The value of an uppercase hexadecimal digit.
pub open spec fn hex_value(c: char) -> Option<nat> {
    if '0' <= c && c <= '9' {
        Some((c as nat - '0' as nat) as nat)
    } else if 'A' <= c && c <= 'F' {
        Some((c as nat - 'A' as nat + 10) as nat)
    } else {
        None
    }
}

/// The byte two uppercase hex digits spell.
pub open spec fn hex_byte(hi: char, lo: char) -> Option<u8> {
    match (hex_value(hi), hex_value(lo)) {
        (Some(h), Some(l)) => Some((h * 16 + l) as u8),
        _ => None,
    }
}

/// The color `Display` prints as `t`: a name, `#RRGGBB`, or an index.
pub open spec fn color_of_text(t: Seq<char>) -> Option<Color> {
    if t == "Reset"@ { Some(Color::Reset) } else if t == "Black"@ { Some(Color::Black) }
    else if t == "Red"@ { Some(Color::Red) } else if t == "Green"@ { Some(Color::Green) }
    else if t == "Yellow"@ { Some(Color::Yellow) } else if t == "Blue"@ { Some(Color::Blue) }
    else if t == "Magenta"@ { Some(Color::Magenta) } else if t == "Cyan"@ { Some(Color::Cyan) }
    else if t == "Gray"@ { Some(Color::Gray) } else if t == "DarkGray"@ { Some(Color::DarkGray) }
    else if t == "LightRed"@ { Some(Color::LightRed) } else if t == "LightGreen"@ { Some(Color::LightGreen) }
    else if t == "LightYellow"@ { Some(Color::LightYellow) } else if t == "LightBlue"@ { Some(Color::LightBlue) }
    else if t == "LightMagenta"@ { Some(Color::LightMagenta) } else if t == "LightCyan"@ { Some(Color::LightCyan) }
    else if t == "White"@ { Some(Color::White) }
    else if t.len() == 7 && t[0] == '#' {
        match (hex_byte(t[1], t[2]), hex_byte(t[3], t[4]), hex_byte(t[5], t[6])) {
            (Some(r), Some(g), Some(b)) => Some(Color::Rgb(r, g, b)),
            _ => None,
        }
    } else {
        match parsed_usize(t) {
            Some(n) => if n <= 255 {
                Some(Color::Indexed(n as u8))
            } else {
                None
            },
            None => None,
        }
    }
}

/// `<ratatui::style::Color as FromStr>::from_str`, its success written
/// out with the color's `Display`. The accepted spellings are the crate's
/// and the result is named; what `Display` prints is always one of the
/// sixteen names, `Reset`, `#RRGGBB` in uppercase hex, or the index in
/// decimal, so it always reads back as a color.
#[verifier::external_body]
fn ratatui_parse_color(s: &str) -> (r: Option<String>)
    ensures
        opt_text(r) == ratatui_color_text(s@),
        r matches Some(t) ==> color_of_text(t@) is Some,
{
    s.parse::<ratatui::style::Color>().ok().map(|c| c.to_string())
}

/// The view of an optional string.
pub open spec fn opt_text(o: Option<String>) -> Option<Seq<char>> {
    match o {
        Some(s) => Some(s@),
        None => None,
    }
}

fn hex_digit(c: char) -> (r: Option<u8>)
    ensures
        match hex_value(c) {
            Some(v) => r == Some(v as u8),
            None => r is None,
        },
{
    if '0' <= c && c <= '9' {
        Some((c as u32 - '0' as u32) as u8)
    } else if 'A' <= c && c <= 'F' {
        Some((c as u32 - 'A' as u32 + 10) as u8)
    } else {
        None
    }
}

fn hex_pair(hi: char, lo: char) -> (r: Option<u8>)
    ensures
        r == hex_byte(hi, lo),
{
    match (hex_digit(hi), hex_digit(lo)) {
        (Some(h), Some(l)) => Some(h * 16 + l),
        _ => None,
    }
}

/// Read back the color `Display` printed.
fn color_from_text(t: &str) -> (r: Option<Color>)
    ensures
        r == color_of_text(t@),
{
    if str_eq(t, "Reset") { return Some(Color::Reset); }
    if str_eq(t, "Black") { return Some(Color::Black); }
    if str_eq(t, "Red") { return Some(Color::Red); }
    if str_eq(t, "Green") { return Some(Color::Green); }
    if str_eq(t, "Yellow") { return Some(Color::Yellow); }
    if str_eq(t, "Blue") { return Some(Color::Blue); }
    if str_eq(t, "Magenta") { return Some(Color::Magenta); }
    if str_eq(t, "Cyan") { return Some(Color::Cyan); }
    if str_eq(t, "Gray") { return Some(Color::Gray); }
    if str_eq(t, "DarkGray") { return Some(Color::DarkGray); }
    if str_eq(t, "LightRed") { return Some(Color::LightRed); }
    if str_eq(t, "LightGreen") { return Some(Color::LightGreen); }
    if str_eq(t, "LightYellow") { return Some(Color::LightYellow); }
    if str_eq(t, "LightBlue") { return Some(Color::LightBlue); }
    if str_eq(t, "LightMagenta") { return Some(Color::LightMagenta); }
    if str_eq(t, "LightCyan") { return Some(Color::LightCyan); }
    if str_eq(t, "White") { return Some(Color::White); }
    let v = chars_of(t);
    if v.len() == 7 && v[0] == '#' {
        return match (hex_pair(v[1], v[2]), hex_pair(v[3], v[4]), hex_pair(v[5], v[6])) {
            (Some(r), Some(g), Some(b)) => Some(Color::Rgb(r, g, b)),
            _ => None,
        };
    }
    match parse_usize(t) {
        Some(n) => if n <= 255 {
            Some(Color::Indexed(n as u8))
        } else {
            None
        },
        None => None,
    }
}

/// Accepts named colors, 256 indices, and `#rrggbb` hex.
pub fn parse_color(s: &str) -> (r: Result<Color, ColorError>)
    ensures
        match ratatui_color_text(s@) {
            Some(t) => r == Ok::<Color, ColorError>(color_of_text(t).unwrap()),
            None => r matches Err(e) && e.input@ == s@,
        },
{
    match ratatui_parse_color(s) {
        Some(t) => match color_from_text(t.as_str()) {
            Some(c) => Ok(c),
            None => Err(ColorError { input: s.to_owned() }),
        },
        None => Err(ColorError { input: s.to_owned() }),
    }
}

/// The SGR parameter that opens an extended color on a layer.
pub open spec fn extended_base_of(layer: Layer) -> nat {
    match layer {
        Layer::Fg => 38,
        Layer::Bg => 48,
    }
}

/// The basic SGR code for one of the sixteen colors on a layer.
pub open spec fn basic_code(idx: nat, layer: Layer) -> nat {
    if idx < 8 {
        match layer {
            Layer::Fg => 30 + idx,
            Layer::Bg => 40 + idx,
        }
    } else {
        match layer {
            Layer::Fg => (90 + (idx - 8)) as nat,
            Layer::Bg => (100 + (idx - 8)) as nat,
        }
    }
}

/// One RGB component's step in the 6x6x6 cube.
pub open spec fn cube_level(v: u8) -> nat {
    if v < 48 {
        0
    } else if v < 115 {
        1
    } else {
        ((v - 35) / 40) as nat
    }
}

/// The nearest xterm 256-palette index: the gray ramp for grays, else the
/// color cube.
pub open spec fn palette256(r: u8, g: u8, b: u8) -> nat {
    if r == g && g == b {
        if r < 8 {
            16
        } else if r > 248 {
            231
        } else {
            (232 + (r - 8) / 10) as nat
        }
    } else {
        16 + 36 * cube_level(r) + 6 * cube_level(g) + cube_level(b)
    }
}

/// Whether `palette256` fits a byte: the gray at 248 lands one past the
/// palette, where the index arithmetic overflows.
pub open spec fn rgb_fits_256(r: u8, g: u8, b: u8) -> bool {
    !(r == 248 && g == 248 && b == 248)
}

/// The cube coordinate of a channel, counted directly: how many of the
/// boundaries between xterm's six cube levels (0, 95, 135, 175, 215, 255)
/// the value reaches. The boundaries are the midpoints 48 and 115, then
/// 155, 195, 235.
pub open spec fn levels_reached(v: u8) -> nat {
    (if v >= 48 { 1nat } else { 0nat }) + (if v >= 115 { 1nat } else { 0nat }) + (if v >= 155 { 1nat } else { 0nat })
        + (if v >= 195 { 1nat } else { 0nat }) + (if v >= 235 { 1nat } else { 0nat })
}

/// A non-gray color lands on the 6x6x6 cube with each channel in its own
/// place: red picks the block of 36, green the row of 6, blue the cell, so
/// the index less 16 reads, in base 6, as the red, green and blue levels.
/// Pure green is entry 46 and pure blue entry 21.
pub proof fn lemma_cube_places_each_channel(r: u8, g: u8, b: u8)
    requires
        !(r == g && g == b),
    ensures
        palette256(r, g, b) == 16 + 36 * levels_reached(r) + 6 * levels_reached(g) + levels_reached(b),
        (palette256(r, g, b) - 16) / 36 == levels_reached(r),
        ((palette256(r, g, b) - 16) / 6) % 6 == levels_reached(g),
        (palette256(r, g, b) - 16) % 6 == levels_reached(b),
        16 <= palette256(r, g, b) <= 231,
{
    lemma_level_counts(r);
    lemma_level_counts(g);
    lemma_level_counts(b);
    let (x, y, z) = (levels_reached(r), levels_reached(g), levels_reached(b));
    assert(x <= 5 && y <= 5 && z <= 5);
    assert((36 * x + 6 * y + z) / 36 == x && ((36 * x + 6 * y + z) / 6) % 6 == y && (36 * x + 6 * y + z) % 6 == z)
        by (nonlinear_arith)
        requires
            x <= 5,
            y <= 5,
            z <= 5,
    ;
}

proof fn lemma_level_counts(v: u8)
    ensures
        cube_level(v) == levels_reached(v),
        levels_reached(v) <= 5,
{
    if v >= 115 {
        let w = v as int - 35;
        assert(80 <= w <= 220);
        if v < 155 {
            assert(w / 40 == 2);
        } else if v < 195 {
            assert(w / 40 == 3);
        } else if v < 235 {
            assert(w / 40 == 4);
        } else {
            assert(w / 40 == 5);
        }
    }
}

/// A gray lands on the gray ramp at the step at or just below it: ramp
/// entry `232 + k` stands for the gray `8 + 10k`, and the gray `v` takes
/// the `k` with `8 + 10k <= v < 18 + 10k`. Grays darker than the ramp
/// take cube black (16), lighter ones cube white (231).
pub proof fn lemma_gray_takes_its_ramp_step(v: u8)
    ensures
        v < 8 ==> palette256(v, v, v) == 16,
        v > 248 ==> palette256(v, v, v) == 231,
        8 <= v <= 248 ==> ({
            let k = palette256(v, v, v) - 232;
            0 <= k <= 24 && 8 + 10 * k <= v < 18 + 10 * k
        }),
{
}

/// Under the 256-color profile a non-gray RGB foreground or background is
/// written as the cube entry of its three levels, red, green, blue in
/// that order: `38;5;46` for pure green, `38;5;21` for pure blue.
pub proof fn lemma_rgb_downsamples_to_its_cube_entry(r: u8, g: u8, b: u8, layer: Layer)
    requires
        !(r == g && g == b),
    ensures
        color_sgr_of(Color::Rgb(r, g, b), ColorProfile::Ansi256, layer) == Some(
            decimal(extended_base_of(layer)) + ";5;"@ + decimal(
                16 + 36 * levels_reached(r) + 6 * levels_reached(g) + levels_reached(b),
            ),
        ),
{
    lemma_cube_places_each_channel(r, g, b);
}

/// The xterm default sixteen colors.
pub open spec fn palette16(i: nat) -> (u8, u8, u8) {
    if i == 0 { (0, 0, 0) } else if i == 1 { (205, 0, 0) } else if i == 2 { (0, 205, 0) }
    else if i == 3 { (205, 205, 0) } else if i == 4 { (0, 0, 238) } else if i == 5 { (205, 0, 205) }
    else if i == 6 { (0, 205, 205) } else if i == 7 { (229, 229, 229) } else if i == 8 { (127, 127, 127) }
    else if i == 9 { (255, 0, 0) } else if i == 10 { (0, 255, 0) } else if i == 11 { (255, 255, 0) }
    else if i == 12 { (92, 92, 255) } else if i == 13 { (255, 0, 255) } else if i == 14 { (0, 255, 255) }
    else { (255, 255, 255) }
}

/// Squared RGB distance from palette entry `i`.
pub open spec fn dist16(i: nat, r: u8, g: u8, b: u8) -> int {
    let p = palette16(i);
    (p.0 - r) * (p.0 - r) + (p.1 - g) * (p.1 - g) + (p.2 - b) * (p.2 - b)
}

/// The nearest of the sixteen: no entry is closer, and no earlier entry is
/// as close.
pub open spec fn nearest16(r: u8, g: u8, b: u8, i: nat) -> bool {
    &&& i < 16
    &&& forall|j: nat| j < 16 ==> dist16(i, r, g, b) <= #[trigger] dist16(j, r, g, b)
    &&& forall|j: nat| j < i ==> dist16(i, r, g, b) < #[trigger] dist16(j, r, g, b)
}

/// The SGR parameters for a color on a layer, or `None` when it draws
/// nothing (reset, or the plain profile).
pub open spec fn color_code(c: Color, profile: ColorProfile, layer: Layer, nearest: nat) -> Option<Seq<char>> {
    if profile == ColorProfile::Ascii {
        None
    } else {
        let named = |i: nat| Some(decimal(basic_code(i, layer)));
        match c {
            Color::Reset => None,
            Color::Black => named(0),
            Color::Red => named(1),
            Color::Green => named(2),
            Color::Yellow => named(3),
            Color::Blue => named(4),
            Color::Magenta => named(5),
            Color::Cyan => named(6),
            Color::Gray => named(7),
            Color::DarkGray => named(8),
            Color::LightRed => named(9),
            Color::LightGreen => named(10),
            Color::LightYellow => named(11),
            Color::LightBlue => named(12),
            Color::LightMagenta => named(13),
            Color::LightCyan => named(14),
            Color::White => named(15),
            Color::Indexed(n) => if profile == ColorProfile::Ansi {
                named((n % 16) as nat)
            } else {
                Some(decimal(extended_base_of(layer)) + ";5;"@ + decimal(n as nat))
            },
            Color::Rgb(r, g, b) => if profile == ColorProfile::TrueColor {
                Some(
                    decimal(extended_base_of(layer)) + ";2;"@ + decimal(r as nat) + ";"@ + decimal(
                        g as nat,
                    ) + ";"@ + decimal(b as nat),
                )
            } else if profile == ColorProfile::Ansi256 {
                Some(decimal(extended_base_of(layer)) + ";5;"@ + decimal(palette256(r, g, b)))
            } else {
                named(nearest)
            },
        }
    }
}

/// Whether a color can be rendered under a profile without the 256-palette
/// overflow.
pub open spec fn color_fits(c: Color, profile: ColorProfile) -> bool {
    match c {
        Color::Rgb(r, g, b) => profile == ColorProfile::Ansi256 ==> rgb_fits_256(r, g, b),
        _ => true,
    }
}

/// Whether both of a style's colors fit.
pub open spec fn style_fits(s: StyleSpec, profile: ColorProfile) -> bool {
    &&& (s.foreground matches Some(c) ==> color_fits(c, profile))
    &&& (s.background matches Some(c) ==> color_fits(c, profile))
}

/// The nearest of the sixteen to an RGB color (index 0 for other colors).
pub open spec fn nearest_of(c: Color) -> nat {
    match c {
        Color::Rgb(r, g, b) => choose|i: nat| nearest16(r, g, b, i),
        _ => 0,
    }
}

/// The SGR parameters for a color, as `color_sgr` returns them.
pub open spec fn color_sgr_of(c: Color, profile: ColorProfile, layer: Layer) -> Option<Seq<char>> {
    color_code(c, profile, layer, nearest_of(c))
}

/// The attribute codes a style turns on, in SGR order.
pub open spec fn attr_codes(s: StyleSpec) -> Seq<Seq<char>> {
    (if s.bold { seq!["1"@] } else { Seq::empty() }) + (if s.faint { seq!["2"@] } else { Seq::empty() })
        + (if s.italic { seq!["3"@] } else { Seq::empty() }) + (if s.underline { seq!["4"@] } else {
        Seq::empty()
    }) + (if s.strikethrough { seq!["9"@] } else { Seq::empty() })
}

/// A color's part of the prefix, if it draws.
pub open spec fn color_part(c: Option<Color>, profile: ColorProfile, layer: Layer) -> Seq<Seq<char>> {
    match c {
        Some(c) => match color_sgr_of(c, profile, layer) {
            Some(p) => seq![p],
            None => Seq::empty(),
        },
        None => Seq::empty(),
    }
}

/// The parameters of a style's SGR sequence.
pub open spec fn prefix_parts(s: StyleSpec, profile: ColorProfile) -> Seq<Seq<char>> {
    if profile == ColorProfile::Ascii {
        Seq::empty()
    } else {
        attr_codes(s) + color_part(s.foreground, profile, Layer::Fg) + color_part(s.background, profile, Layer::Bg)
    }
}

/// The SGR parameters of a style, `;`-joined; empty when it draws nothing.
pub open spec fn sgr_prefix_of(s: StyleSpec, profile: ColorProfile) -> Seq<char> {
    joined(prefix_parts(s, profile), ";"@)
}

/// Text wrapped in a style's SGR sequence and a reset, or left as is when
/// the style draws nothing.
pub open spec fn styled(s: StyleSpec, text: Seq<char>, profile: ColorProfile) -> Seq<char> {
    let p = sgr_prefix_of(s, profile);
    if p.len() == 0 {
        text
    } else {
        "\x1b["@ + p + "m"@ + text + "\x1b[0m"@
    }
}

fn extended_base(layer: Layer) -> (r: usize)
    ensures
        r == extended_base_of(layer),
{
    match layer {
        Layer::Fg => 38,
        Layer::Bg => 48,
    }
}

fn basic_sgr(idx: u8, layer: Layer) -> (r: String)
    requires
        idx < 16,
    ensures
        r@ == decimal(basic_code(idx as nat, layer)),
{
    let code: usize = if idx < 8 {
        match layer {
            Layer::Fg => 30 + idx as usize,
            Layer::Bg => 40 + idx as usize,
        }
    } else {
        match layer {
            Layer::Fg => 90 + (idx as usize - 8),
            Layer::Bg => 100 + (idx as usize - 8),
        }
    };
    decimal_string(code)
}

/// Nearest xterm 256-palette index: the 6x6x6 color cube or the gray ramp.
fn rgb_to_256(r: u8, g: u8, b: u8) -> (x: u8)
    requires
        rgb_fits_256(r, g, b),
    ensures
        x == palette256(r, g, b),
{
    if r == g && g == b {
        if r < 8 {
            return 16;
        }
        if r > 248 {
            return 231;
        }
        return 232 + ((r - 8) / 10);
    }
    16 + 36 * level(r) + 6 * level(g) + level(b)
}

fn level(v: u8) -> (x: u8)
    ensures
        x == cube_level(v),
        x <= 5,
{
    if v < 48 {
        0
    } else if v < 115 {
        1
    } else {
        (v - 35) / 40
    }
}

fn palette_entry(i: u8) -> (p: (u8, u8, u8))
    requires
        i < 16,
    ensures
        p == palette16(i as nat),
{
    match i {
        0 => (0, 0, 0),
        1 => (205, 0, 0),
        2 => (0, 205, 0),
        3 => (205, 205, 0),
        4 => (0, 0, 238),
        5 => (205, 0, 205),
        6 => (0, 205, 205),
        7 => (229, 229, 229),
        8 => (127, 127, 127),
        9 => (255, 0, 0),
        10 => (0, 255, 0),
        11 => (255, 255, 0),
        12 => (92, 92, 255),
        13 => (255, 0, 255),
        14 => (0, 255, 255),
        _ => (255, 255, 255),
    }
}

fn sq_diff(a: u8, b: u8) -> (r: u32)
    ensures
        r == (a - b) * (a - b),
        r <= 65025,
{
    let d: i32 = a as i32 - b as i32;
    assert(d * d <= 65025) by (nonlinear_arith)
        requires
            -255 <= d <= 255,
    ;
    assert(d * d >= 0) by (nonlinear_arith);
    (d * d) as u32
}

/// Nearest of the 16 xterm default colors by squared RGB distance; the
/// first on ties.
fn rgb_to_16(r: u8, g: u8, b: u8) -> (x: u8)
    ensures
        nearest16(r, g, b, x as nat),
{
    let mut best: u8 = 0;
    let p0 = palette_entry(0);
    let mut best_d: u32 = sq_diff(p0.0, r) + sq_diff(p0.1, g) + sq_diff(p0.2, b);
    let mut i: u8 = 1;
    while i < 16
        invariant
            1 <= i <= 16,
            best < i,
            best_d == dist16(best as nat, r, g, b),
            forall|j: nat| j < i ==> dist16(best as nat, r, g, b) <= #[trigger] dist16(j, r, g, b),
            forall|j: nat| j < best ==> dist16(best as nat, r, g, b) < #[trigger] dist16(j, r, g, b),
        decreases 16 - i,
    {
        let p = palette_entry(i);
        let d = sq_diff(p.0, r) + sq_diff(p.1, g) + sq_diff(p.2, b);
        if d < best_d {
            best = i;
            best_d = d;
        }
        i += 1;
    }
    best
}

proof fn lemma_nearest_unique(r: u8, g: u8, b: u8, i: nat, k: nat)
    requires
        nearest16(r, g, b, i),
        nearest16(r, g, b, k),
    ensures
        i == k,
{
    if i < k {
        assert(dist16(k, r, g, b) < dist16(i, r, g, b));
        assert(dist16(k, r, g, b) <= dist16(i, r, g, b));
    } else if k < i {
        assert(dist16(i, r, g, b) < dist16(k, r, g, b));
    }
}

/// The SGR parameters for a color on a layer, degraded to the profile;
/// `None` when it draws nothing.
pub fn color_sgr(c: Color, profile: ColorProfile, layer: Layer) -> (r: Option<String>)
    requires
        color_fits(c, profile),
    ensures
        match color_sgr_of(c, profile, layer) {
            Some(p) => r matches Some(s) && s@ == p,
            None => r is None,
        },
{
    if profile == ColorProfile::Ascii {
        return None;
    }
    let named = |i: u8| -> (s: String)
        requires
            i < 16,
        ensures
            s@ == decimal(basic_code(i as nat, layer)),
        { basic_sgr(i, layer) };
    match c {
        Color::Reset => None,
        Color::Black => Some(named(0)),
        Color::Red => Some(named(1)),
        Color::Green => Some(named(2)),
        Color::Yellow => Some(named(3)),
        Color::Blue => Some(named(4)),
        Color::Magenta => Some(named(5)),
        Color::Cyan => Some(named(6)),
        Color::Gray => Some(named(7)),
        Color::DarkGray => Some(named(8)),
        Color::LightRed => Some(named(9)),
        Color::LightGreen => Some(named(10)),
        Color::LightYellow => Some(named(11)),
        Color::LightBlue => Some(named(12)),
        Color::LightMagenta => Some(named(13)),
        Color::LightCyan => Some(named(14)),
        Color::White => Some(named(15)),
        Color::Indexed(n) => {
            if profile == ColorProfile::Ansi {
                Some(named(n % 16))
            } else {
                let mut s = decimal_string(extended_base(layer));
                push_str(&mut s, ";5;");
                push_str(&mut s, decimal_string(n as usize).as_str());
                Some(s)
            }
        },
        Color::Rgb(r, g, b) => {
            if profile == ColorProfile::TrueColor {
                let mut s = decimal_string(extended_base(layer));
                push_str(&mut s, ";2;");
                push_str(&mut s, decimal_string(r as usize).as_str());
                push_str(&mut s, ";");
                push_str(&mut s, decimal_string(g as usize).as_str());
                push_str(&mut s, ";");
                push_str(&mut s, decimal_string(b as usize).as_str());
                Some(s)
            } else if profile == ColorProfile::Ansi256 {
                let mut s = decimal_string(extended_base(layer));
                push_str(&mut s, ";5;");
                push_str(&mut s, decimal_string(rgb_to_256(r, g, b) as usize).as_str());
                Some(s)
            } else {
                let x = rgb_to_16(r, g, b);
                proof {
                    lemma_nearest_unique(r, g, b, x as nat, nearest_of(c));
                }
                Some(named(x))
            }
        },
    }
}

/// The style that draws nothing.
pub open spec fn no_style() -> StyleSpec {
    StyleSpec {
        bold: false,
        faint: false,
        italic: false,
        underline: false,
        strikethrough: false,
        foreground: None,
        background: None,
    }
}

impl StyleSpec {
    /// The style that draws nothing.
    pub open spec fn default_spec() -> StyleSpec {
        no_style()
    }

    /// The style that draws nothing.
    pub fn plain() -> (r: StyleSpec)
        ensures
            r == no_style(),
    {
        StyleSpec {
            bold: false,
            faint: false,
            italic: false,
            underline: false,
            strikethrough: false,
            foreground: None,
            background: None,
        }
    }

    /// The style's SGR parameters, `;`-joined.
    pub fn sgr_prefix(&self, profile: ColorProfile) -> (r: String)
        requires
            style_fits(*self, profile),
        ensures
            r@ == sgr_prefix_of(*self, profile),
    {
        if profile == ColorProfile::Ascii {
            return String::new();
        }
        let mut parts: Vec<String> = Vec::new();
        let ghost mut want: Seq<Seq<char>> = Seq::empty();
        if self.bold {
            parts.push(code_text("1"));
        }
        if self.faint {
            parts.push(code_text("2"));
        }
        if self.italic {
            parts.push(code_text("3"));
        }
        if self.underline {
            parts.push(code_text("4"));
        }
        if self.strikethrough {
            parts.push(code_text("9"));
        }
        proof {
            assert(crate::text::views(parts@) =~= attr_codes(*self));
        }
        match self.foreground {
            Some(c) => match color_sgr(c, profile, Layer::Fg) {
                Some(p) => parts.push(p),
                None => {},
            },
            None => {},
        }
        proof {
            assert(crate::text::views(parts@) =~= attr_codes(*self) + color_part(self.foreground, profile, Layer::Fg));
        }
        match self.background {
            Some(c) => match color_sgr(c, profile, Layer::Bg) {
                Some(p) => parts.push(p),
                None => {},
            },
            None => {},
        }
        proof {
            assert(crate::text::views(parts@) =~= prefix_parts(*self, profile));
        }
        join_with(&parts, ";")
    }

    /// Wrap text in the style's sequence and a reset; plain when the
    /// style draws nothing.
    pub fn render(&self, text: &str, profile: ColorProfile) -> (r: String)
        requires
            style_fits(*self, profile),
        ensures
            r@ == styled(*self, text@, profile),
    {
        let prefix = self.sgr_prefix(profile);
        if prefix.as_str().is_empty() {
            text.to_owned()
        } else {
            let mut r = String::new();
            push_str(&mut r, "\x1b[");
            push_str(&mut r, prefix.as_str());
            push_str(&mut r, "m");
            push_str(&mut r, text);
            push_str(&mut r, "\x1b[0m");
            r
        }
    }
}

fn code_text(s: &str) -> (r: String)
    ensures
        r@ == s@,
{
    s.to_owned()
}

/// Parts joined with `sep` between neighbours.
pub fn join_with(parts: &Vec<String>, sep: &str) -> (r: String)
    ensures
        r@ == joined(crate::text::views(parts@), sep@),
{
    let ghost ps = crate::text::views(parts@);
    let mut out = String::new();
    let mut i: usize = 0;
    while i < parts.len()
        invariant
            i <= parts@.len(),
            ps == crate::text::views(parts@),
            out@ == joined(ps.take(i as int), sep@),
        decreases parts@.len() - i,
    {
        proof {
            if i > 0 {
                assert(ps.take(i + 1).drop_last() =~= ps.take(i as int));
            } else {
                assert(ps.take(1) =~= seq![ps[0]]);
                assert(ps.take(0).len() == 0);
            }
            assert(ps.take(i + 1).last() == parts@[i as int]@);
        }
        if i > 0 {
            push_str(&mut out, sep);
        }
        push_str(&mut out, parts[i].as_str());
        proof {
            if i == 0 {
                assert(out@ =~= parts@[0]@);
            }
        }
        i += 1;
    }
    proof {
        assert(ps.take(parts@.len() as int) =~= ps);
    }
    out
}


// ---------------------------------------------------------------------
// A style adds no width.

/// A character an SGR parameter list holds: a digit or `;`.
pub open spec fn param_char(c: char) -> bool {
    ('0' <= c && c <= '9') || c == ';'
}

/// Every character is a parameter character.
pub open spec fn sgr_params(p: Seq<char>) -> bool {
    forall|i: int| 0 <= i < p.len() ==> param_char(#[trigger] p[i])
}

proof fn lemma_params_concat(a: Seq<char>, b: Seq<char>)
    requires
        sgr_params(a),
        sgr_params(b),
    ensures
        sgr_params(a + b),
{
    assert forall|i: int| 0 <= i < (a + b).len() implies param_char(#[trigger] (a + b)[i]) by {
        if i < a.len() {
            assert((a + b)[i] == a[i]);
        } else {
            assert((a + b)[i] == b[i - a.len()]);
        }
    }
}

proof fn lemma_decimal_params(n: nat)
    ensures
        sgr_params(decimal(n)),
    decreases n,
{
    if n >= 10 {
        lemma_decimal_params(n / 10);
        let d = decimal(n / 10);
        assert(param_char(digit_char(n % 10)));
        assert(sgr_params(seq![digit_char(n % 10)]));
        lemma_params_concat(d, seq![digit_char(n % 10)]);
        assert(d + seq![digit_char(n % 10)] =~= d.push(digit_char(n % 10)));
    } else {
        assert(param_char(digit_char(n)));
    }
}

proof fn lemma_joined_params(parts: Seq<Seq<char>>, sep: Seq<char>)
    requires
        sgr_params(sep),
        forall|i: int| 0 <= i < parts.len() ==> sgr_params(#[trigger] parts[i]),
    ensures
        sgr_params(joined(parts, sep)),
    decreases parts.len(),
{
    if parts.len() > 1 {
        lemma_joined_params(parts.drop_last(), sep);
        lemma_params_concat(joined(parts.drop_last(), sep), sep);
        lemma_params_concat(joined(parts.drop_last(), sep) + sep, parts.last());
    }
}

proof fn lemma_color_params(c: Color, profile: ColorProfile, layer: Layer, nearest: nat)
    ensures
        color_code(c, profile, layer, nearest) matches Some(p) ==> sgr_params(p),
{
    reveal_strlit(";5;");
    reveal_strlit(";2;");
    reveal_strlit(";");
    assert(sgr_params(";5;"@));
    assert(sgr_params(";2;"@));
    assert(sgr_params(";"@));
    lemma_decimal_params(extended_base_of(layer));
    match c {
        Color::Indexed(n) => {
            if profile == ColorProfile::Ansi {
                lemma_decimal_params(basic_code((n % 16) as nat, layer));
            } else {
                lemma_decimal_params(n as nat);
                lemma_params_concat(decimal(extended_base_of(layer)), ";5;"@);
                lemma_params_concat(decimal(extended_base_of(layer)) + ";5;"@, decimal(n as nat));
            }
        },
        Color::Rgb(r, g, b) => {
            if profile == ColorProfile::TrueColor {
                lemma_decimal_params(r as nat);
                lemma_decimal_params(g as nat);
                lemma_decimal_params(b as nat);
                let x0 = decimal(extended_base_of(layer));
                lemma_params_concat(x0, ";2;"@);
                let x1 = x0 + ";2;"@;
                lemma_params_concat(x1, decimal(r as nat));
                let x2 = x1 + decimal(r as nat);
                lemma_params_concat(x2, ";"@);
                let x3 = x2 + ";"@;
                lemma_params_concat(x3, decimal(g as nat));
                let x4 = x3 + decimal(g as nat);
                lemma_params_concat(x4, ";"@);
                let x5 = x4 + ";"@;
                lemma_params_concat(x5, decimal(b as nat));
            } else if profile == ColorProfile::Ansi256 {
                lemma_decimal_params(palette256(r, g, b));
                lemma_params_concat(decimal(extended_base_of(layer)), ";5;"@);
                lemma_params_concat(decimal(extended_base_of(layer)) + ";5;"@, decimal(palette256(r, g, b)));
            } else {
                lemma_decimal_params(basic_code(nearest, layer));
            }
        },
        _ => {
            let i: nat = match c {
                Color::Black => 0,
                Color::Red => 1,
                Color::Green => 2,
                Color::Yellow => 3,
                Color::Blue => 4,
                Color::Magenta => 5,
                Color::Cyan => 6,
                Color::Gray => 7,
                Color::DarkGray => 8,
                Color::LightRed => 9,
                Color::LightGreen => 10,
                Color::LightYellow => 11,
                Color::LightBlue => 12,
                Color::LightMagenta => 13,
                Color::LightCyan => 14,
                _ => 15,
            };
            lemma_decimal_params(basic_code(i, layer));
        },
    }
}

proof fn lemma_attr_params(st: StyleSpec)
    ensures
        forall|j: int| 0 <= j < attr_codes(st).len() ==> sgr_params(#[trigger] attr_codes(st)[j]),
{
    reveal_strlit("1");
    reveal_strlit("2");
    reveal_strlit("3");
    reveal_strlit("4");
    reveal_strlit("9");
    assert(sgr_params("1"@));
    assert(sgr_params("2"@));
    assert(sgr_params("3"@));
    assert(sgr_params("4"@));
    assert(sgr_params("9"@));
    let a = attr_codes(st);
    assert forall|j: int| 0 <= j < a.len() implies sgr_params(#[trigger] a[j]) by {
        assert(a[j] == "1"@ || a[j] == "2"@ || a[j] == "3"@ || a[j] == "4"@ || a[j] == "9"@);
    }
}

proof fn lemma_color_part_params(c: Option<Color>, profile: ColorProfile, layer: Layer)
    ensures
        forall|j: int|
            0 <= j < color_part(c, profile, layer).len() ==> sgr_params(#[trigger] color_part(c, profile, layer)[j]),
{
    if let Some(x) = c {
        lemma_color_params(x, profile, layer, nearest_of(x));
    }
}

proof fn lemma_all_params_concat(a: Seq<Seq<char>>, b: Seq<Seq<char>>)
    requires
        forall|j: int| 0 <= j < a.len() ==> sgr_params(#[trigger] a[j]),
        forall|j: int| 0 <= j < b.len() ==> sgr_params(#[trigger] b[j]),
    ensures
        forall|j: int| 0 <= j < (a + b).len() ==> sgr_params(#[trigger] (a + b)[j]),
{
    assert forall|j: int| 0 <= j < (a + b).len() implies sgr_params(#[trigger] (a + b)[j]) by {
        if j < a.len() {
            assert((a + b)[j] == a[j]);
        } else {
            assert((a + b)[j] == b[j - a.len()]);
        }
    }
}

/// A style's parameter list holds only digits and `;`.
pub proof fn lemma_prefix_params(st: StyleSpec, profile: ColorProfile)
    ensures
        sgr_params(sgr_prefix_of(st, profile)),
{
    reveal_strlit(";");
    assert(sgr_params(";"@));
    let parts = prefix_parts(st, profile);
    if profile != ColorProfile::Ascii {
        let a = attr_codes(st);
        let f = color_part(st.foreground, profile, Layer::Fg);
        let g = color_part(st.background, profile, Layer::Bg);
        lemma_attr_params(st);
        lemma_color_part_params(st.foreground, profile, Layer::Fg);
        lemma_color_part_params(st.background, profile, Layer::Bg);
        lemma_all_params_concat(a, f);
        lemma_all_params_concat(a + f, g);
    }
    lemma_joined_params(parts, ";"@);
}

proof fn lemma_csi_over_params(e: Seq<char>, i: int)
    requires
        2 <= i < e.len(),
        forall|j: int| 2 <= j < e.len() - 1 ==> !is_csi_final(#[trigger] e[j]),
        is_csi_final(e[e.len() - 1]),
    ensures
        csi_end(e, i) == e.len(),
        csi_closed(e, i),
    decreases e.len() - i,
{
    if i < e.len() - 1 {
        lemma_csi_over_params(e, i + 1);
    }
}

/// An SGR sequence over a parameter list: one closed chunk of no width.
proof fn lemma_sgr_sequence(p: Seq<char>)
    requires
        sgr_params(p),
    ensures
        closed("\x1b["@ + p + "m"@),
        cells("\x1b["@ + p + "m"@) == 0,
{
    reveal_strlit("\x1b[");
    reveal_strlit("m");
    let e = "\x1b["@ + p + "m"@;
    assert(e.len() == p.len() + 3);
    assert(e[0] == ESC);
    assert(e[1] == '[');
    assert forall|j: int| 2 <= j < e.len() - 1 implies !is_csi_final(#[trigger] e[j]) by {
        assert(e[j] == p[j - 2]);
        assert(param_char(p[j - 2]));
    }
    assert(e[e.len() - 1] == 'm');
    lemma_csi_over_params(e, 2);
    assert(chunk_len(e) == e.len());
    lemma_chunk_len_bounds(e);
    assert(e.skip(chunk_len(e)) =~= Seq::<char>::empty());
    assert(escape_closed(e));
    assert(closed(Seq::<char>::empty()));
    assert(cells(Seq::<char>::empty()) == 0);
}

/// Styling adds no display cells, and keeps a closed text closed.
pub proof fn lemma_styled_cells(st: StyleSpec, t: Seq<char>, profile: ColorProfile)
    requires
        closed(t),
    ensures
        cells(styled(st, t, profile)) == cells(t),
        closed(styled(st, t, profile)),
{
    let p = sgr_prefix_of(st, profile);
    if p.len() > 0 {
        lemma_prefix_params(st, profile);
        lemma_sgr_sequence(p);
        reveal_strlit("0");
        assert(sgr_params("0"@));
        lemma_sgr_sequence("0"@);
        reveal_strlit("\x1b[");
        reveal_strlit("m");
        reveal_strlit("\x1b[0m");
        let open = "\x1b["@ + p + "m"@;
        let reset = "\x1b[0m"@;
        assert(reset =~= "\x1b["@ + "0"@ + "m"@);
        lemma_cells_concat(t, reset);
        lemma_cells_concat(open, t + reset);
        assert(styled(st, t, profile) =~= open + (t + reset));
    }
}

} // verus!
