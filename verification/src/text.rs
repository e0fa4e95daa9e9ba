//! Character-level helpers shared by every renderer.

use vstd::prelude::*;
use vstd::slice::slice_subrange;

verus! {

/// The characters of a string slice, in order.
pub fn chars_of(s: &str) -> (v: Vec<char>)
    ensures
        v@ == s@,
{
    let mut v: Vec<char> = Vec::new();
    for c in it: s.chars()
        invariant
            v@ == it.seq().take(it.index() as int),
            it.seq() == s@,
    {
        v.push(c);
    }
    v
}

/// Append one character to a string.
#[verifier::external_body]
pub(crate) fn push_char(s: &mut String, c: char)
    ensures
        final(s)@ == old(s)@.push(c),
{
    s.push(c);
}

/// Append a string slice.
pub fn push_str(s: &mut String, t: &str)
    ensures
        final(s)@ == old(s)@ + t@,
{
    s.append(t);
}

/// A string holding exactly the given characters.
pub fn string_of(v: &[char]) -> (s: String)
    ensures
        s@ == v@,
{
    let mut s = String::new();
    let mut i: usize = 0;
    while i < v.len()
        invariant
            i <= v@.len(),
            s@ == v@.take(i as int),
        decreases v@.len() - i,
    {
        push_char(&mut s, v[i]);
        assert(v@.take(i + 1) =~= v@.take(i as int).push(v@[i as int]));
        i += 1;
    }
    assert(v@.take(v@.len() as int) =~= v@);
    s
}

/// The slice `v[from..to]`.
pub fn slice_of(v: &Vec<char>, from: usize, to: usize) -> (r: &[char])
    requires
        from <= to <= v@.len(),
    ensures
        r@ == v@.subrange(from as int, to as int),
{
    slice_subrange(v.as_slice(), from, to)
}

/// `n` spaces.
pub fn spaces(n: usize) -> (s: String)
    ensures
        s@ == Seq::new(n as nat, |i: int| ' '),
{
    let mut s = String::new();
    let mut i: usize = 0;
    while i < n
        invariant
            i <= n,
            s@ == Seq::new(i as nat, |k: int| ' '),
        decreases n - i,
    {
        push_char(&mut s, ' ');
        assert(s@ =~= Seq::new((i + 1) as nat, |k: int| ' '));
        i += 1;
    }
    s
}


// ---------------------------------------------------------------------
// Splitting.
// ---------------------------------------------------------------------

/// The pieces of `s` between occurrences of `d`, with `cur` the piece in
/// progress: `str::split` with a `char` pattern.
pub open spec fn split_acc(s: Seq<char>, d: char, cur: Seq<char>) -> Seq<Seq<char>>
    decreases s.len(),
{
    if s.len() == 0 {
        seq![cur]
    } else if s[0] == d {
        seq![cur] + split_acc(s.skip(1), d, Seq::empty())
    } else {
        split_acc(s.skip(1), d, cur.push(s[0]))
    }
}

/// `s.split(d)`: never empty; an empty string is one empty piece.
pub open spec fn split_on(s: Seq<char>, d: char) -> Seq<Seq<char>> {
    split_acc(s, d, Seq::empty())
}

/// The views of a vector of strings.
pub open spec fn views(v: Seq<String>) -> Seq<Seq<char>> {
    v.map_values(|x: String| x@)
}

/// One piece without a trailing carriage return.
pub open spec fn strip_cr(p: Seq<char>) -> Seq<char> {
    if p.len() > 0 && p[p.len() - 1] == '\r' {
        p.drop_last()
    } else {
        p
    }
}

/// `s.lines()`: split at `\n`, a `\r` right before a `\n` belongs to the
/// terminator, and a final terminator does not open an empty last line.
pub open spec fn lines_of(s: Seq<char>) -> Seq<Seq<char>> {
    let p = split_on(s, '\n');
    if s.len() == 0 {
        Seq::empty()
    } else if s[s.len() - 1] == '\n' {
        p.drop_last().map_values(|x: Seq<char>| strip_cr(x))
    } else {
        p.drop_last().map_values(|x: Seq<char>| strip_cr(x)) + seq![p.last()]
    }
}

proof fn lemma_split_acc_nonempty(s: Seq<char>, d: char, cur: Seq<char>)
    ensures
        split_acc(s, d, cur).len() >= 1,
    decreases s.len(),
{
    if s.len() > 0 {
        if s[0] == d {
            lemma_split_acc_nonempty(s.skip(1), d, Seq::empty());
        } else {
            lemma_split_acc_nonempty(s.skip(1), d, cur.push(s[0]));
        }
    }
}

/// Split a character vector at every `d`.
pub fn split_chars(v: &Vec<char>, d: char) -> (r: Vec<String>)
    ensures
        views(r@) == split_on(v@, d),
        r@.len() >= 1,
{
    let mut out: Vec<String> = Vec::new();
    let mut cur = String::new();
    let mut i: usize = 0;
    assert(v@.skip(0) =~= v@);
    while i < v.len()
        invariant
            i <= v@.len(),
            split_on(v@, d) == views(out@) + split_acc(v@.skip(i as int), d, cur@),
        decreases v@.len() - i,
    {
        let ghost t = v@.skip(i as int);
        let ghost before = views(out@);
        proof {
            lemma_skip_skip1(v@, i as int);
        }
        if v[i] == d {
            let done = cur;
            cur = String::new();
            proof {
                assert(split_acc(t, d, done@) == seq![done@] + split_acc(t.skip(1), d, Seq::empty()));
            }
            out.push(done);
            proof {
                assert(views(out@) =~= before + seq![done@]);
                assert(before + (seq![done@] + split_acc(t.skip(1), d, Seq::empty()))
                    =~= views(out@) + split_acc(t.skip(1), d, cur@));
            }
        } else {
            push_char(&mut cur, v[i]);
        }
        i += 1;
    }
    let ghost before = views(out@);
    proof {
        assert(v@.skip(v@.len() as int) =~= Seq::<char>::empty());
    }
    out.push(cur);
    proof {
        assert(views(out@) =~= before + seq![cur@]);
    }
    out
}

proof fn lemma_skip_skip1(s: Seq<char>, i: int)
    requires
        0 <= i < s.len(),
    ensures
        s.skip(i).skip(1) =~= s.skip(i + 1),
        s.skip(i)[0] == s[i],
{
}

/// `s.split(d)` as owned strings.
pub fn split_str(s: &str, d: char) -> (r: Vec<String>)
    ensures
        views(r@) == split_on(s@, d),
        r@.len() >= 1,
{
    let v = chars_of(s);
    split_chars(&v, d)
}

/// A piece without its trailing carriage return.
fn strip_cr_string(p: String) -> (r: String)
    ensures
        r@ == strip_cr(p@),
{
    let v = chars_of(p.as_str());
    if v.len() > 0 && v[v.len() - 1] == '\r' {
        let r = string_of(slice_of(&v, 0, v.len() - 1));
        proof {
            assert(v@.subrange(0, v@.len() - 1) =~= v@.drop_last());
        }
        r
    } else {
        p
    }
}

/// `s.lines()` as owned strings.
pub fn lines(s: &str) -> (r: Vec<String>)
    ensures
        views(r@) == lines_of(s@),
{
    let v = chars_of(s);
    if v.len() == 0 {
        let r: Vec<String> = Vec::new();
        proof {
            assert(views(r@) =~= lines_of(s@));
        }
        return r;
    }
    let pieces = split_chars(&v, '\n');
    let ghost p = views(pieces@);
    let ends = v[v.len() - 1] == '\n';
    let n = pieces.len() - 1;
    let mut out: Vec<String> = Vec::new();
    let mut i: usize = 0;
    while i < n
        invariant
            i <= n,
            n == pieces@.len() - 1,
            p == views(pieces@),
            views(out@) =~= p.take(i as int).map_values(|x: Seq<char>| strip_cr(x)),
        decreases n - i,
    {
        let piece = pieces[i].clone();
        let ghost before = views(out@);
        out.push(strip_cr_string(piece));
        proof {
            assert(p.take(i + 1) =~= p.take(i as int).push(p[i as int]));
            assert(views(out@) =~= before.push(strip_cr(p[i as int])));
            assert(p.take(i + 1).map_values(|x: Seq<char>| strip_cr(x))
                =~= p.take(i as int).map_values(|x: Seq<char>| strip_cr(x)).push(strip_cr(p[i as int])));
        }
        i += 1;
    }
    proof {
        assert(p.take(n as int) =~= p.drop_last());
    }
    if !ends {
        let ghost before = views(out@);
        let last = pieces[n].clone();
        out.push(last);
        proof {
            assert(views(out@) =~= before + seq![p.last()]);
        }
    }
    out
}

// ---------------------------------------------------------------------
// Trimming and numbers.
// ---------------------------------------------------------------------

/// `char::is_whitespace`: the Unicode `White_Space` property.
pub open spec fn is_white(c: char) -> bool {
    ('\t' <= c && c <= '\r') || c == ' ' || c == '\u{85}' || c == '\u{a0}' || c == '\u{1680}'
        || ('\u{2000}' <= c && c <= '\u{200a}') || c == '\u{2028}' || c == '\u{2029}'
        || c == '\u{202f}' || c == '\u{205f}' || c == '\u{3000}'
}

fn white(c: char) -> (b: bool)
    ensures
        b == is_white(c),
{
    ('\t' <= c && c <= '\r') || c == ' ' || c == '\u{85}' || c == '\u{a0}' || c == '\u{1680}'
        || ('\u{2000}' <= c && c <= '\u{200a}') || c == '\u{2028}' || c == '\u{2029}'
        || c == '\u{202f}' || c == '\u{205f}' || c == '\u{3000}'
}

/// Leading white space of `s`, in characters.
pub open spec fn lead_white(s: Seq<char>) -> nat
    decreases s.len(),
{
    if s.len() > 0 && is_white(s[0]) {
        1 + lead_white(s.skip(1))
    } else {
        0
    }
}

/// Trailing white space of `s`, in characters.
pub open spec fn trail_white(s: Seq<char>) -> nat
    decreases s.len(),
{
    if s.len() > 0 && is_white(s[s.len() - 1]) {
        1 + trail_white(s.drop_last())
    } else {
        0
    }
}

/// `str::trim`.
pub open spec fn trimmed(s: Seq<char>) -> Seq<char> {
    let t = s.skip(lead_white(s) as int);
    t.take(t.len() - trail_white(t))
}

proof fn lemma_lead_white_bound(s: Seq<char>)
    ensures
        lead_white(s) <= s.len(),
    decreases s.len(),
{
    if s.len() > 0 && is_white(s[0]) {
        lemma_lead_white_bound(s.skip(1));
    }
}

proof fn lemma_trail_white_bound(s: Seq<char>)
    ensures
        trail_white(s) <= s.len(),
    decreases s.len(),
{
    if s.len() > 0 && is_white(s[s.len() - 1]) {
        lemma_trail_white_bound(s.drop_last());
    }
}

/// Strip white space from both ends.
pub fn trim(s: &str) -> (r: String)
    ensures
        r@ == trimmed(s@),
{
    let v = chars_of(s);
    let mut a: usize = 0;
    assert(v@.skip(0) =~= v@);
    while a < v.len() && white(v[a])
        invariant
            a <= v@.len(),
            lead_white(v@) == a + lead_white(v@.skip(a as int)),
        decreases v@.len() - a,
    {
        proof {
            lemma_skip_skip1(v@, a as int);
        }
        a += 1;
    }
    let ghost t = v@.skip(a as int);
    assert(lead_white(v@.skip(a as int)) == 0);
    let mut b: usize = v.len();
    assert(v@.subrange(a as int, b as int) =~= t);
    while b > a && white(v[b - 1])
        invariant
            a <= b <= v@.len(),
            t == v@.skip(a as int),
            trail_white(t) == (v@.len() - b) + trail_white(v@.subrange(a as int, b as int)),
        decreases b,
    {
        proof {
            let u = v@.subrange(a as int, b as int);
            assert(u.drop_last() =~= v@.subrange(a as int, b - 1));
        }
        b -= 1;
    }
    proof {
        let u = v@.subrange(a as int, b as int);
        assert(trail_white(u) == 0);
        lemma_trail_white_bound(t);
        assert(t.take(t.len() - trail_white(t)) =~= u);
    }
    string_of(slice_of(&v, a, b))
}

/// The value of one ASCII digit.
pub open spec fn digit_value(c: char) -> nat {
    (c as u32 - '0' as u32) as nat
}

pub open spec fn is_digit(c: char) -> bool {
    '0' <= c && c <= '9'
}

/// The value of a run of ASCII digits, most significant first.
pub open spec fn digits_value(s: Seq<char>) -> nat
    decreases s.len(),
{
    if s.len() == 0 {
        0
    } else {
        digits_value(s.drop_last()) * 10 + digit_value(s[s.len() - 1])
    }
}

/// The digits of an optionally `+`-signed decimal number.
pub open spec fn unsigned_digits(s: Seq<char>) -> Seq<char> {
    if s.len() > 0 && s[0] == '+' {
        s.skip(1)
    } else {
        s
    }
}

/// What `usize::from_str` accepts: an optional `+`, then one or more ASCII
/// digits whose value fits.
pub open spec fn parsed_usize(s: Seq<char>) -> Option<usize> {
    let d = unsigned_digits(s);
    if d.len() > 0 && (forall|i: int| 0 <= i < d.len() ==> is_digit(#[trigger] d[i]))
        && digits_value(d) <= usize::MAX {
        Some(digits_value(d) as usize)
    } else {
        None
    }
}

/// Parse a decimal `usize` the way `usize::from_str` does.
pub fn parse_usize(s: &str) -> (r: Option<usize>)
    ensures
        r == parsed_usize(s@),
{
    let v = chars_of(s);
    let start: usize = if v.len() > 0 && v[0] == '+' {
        1
    } else {
        0
    };
    let ghost d = unsigned_digits(v@);
    assert(d =~= v@.skip(start as int));
    if start == v.len() {
        return None;
    }
    let mut acc: usize = 0;
    let mut i: usize = start;
    while i < v.len()
        invariant
            start <= i <= v@.len(),
            d == v@.skip(start as int),
            d == unsigned_digits(v@),
            v@ == s@,
            forall|k: int| 0 <= k < i - start ==> is_digit(#[trigger] d[k]),
            acc as nat == digits_value(d.take(i - start)),
        decreases v@.len() - i,
    {
        let c = v[i];
        if !('0' <= c && c <= '9') {
            assert(d[i - start] == c);
            assert(!is_digit(d[i - start]));
            assert(!(forall|k: int| 0 <= k < d.len() ==> is_digit(#[trigger] d[k])));
            return None;
        }
        let dv = (c as u32 - '0' as u32) as usize;
        proof {
            assert(d.take(i - start + 1).drop_last() =~= d.take(i - start));
        }
        if acc > (usize::MAX - dv) / 10 {
            proof {
                let k = (i - start + 1) as int;
                assert(d[k - 1] == c);
                assert(digits_value(d.take(k)) == acc * 10 + dv);
                assert(acc * 10 + dv > usize::MAX) by (nonlinear_arith)
                    requires
                        acc > (usize::MAX - dv) / 10,
                        dv <= 9,
                ;
                if forall|j: int| 0 <= j < d.len() ==> is_digit(#[trigger] d[j]) {
                    lemma_digits_value_prefix_grows(d, k);
                }
            }
            return None;
        }
        acc = acc * 10 + dv;
        i += 1;
    }
    assert(d.take(v@.len() - start) =~= d);
    Some(acc)
}

/// A longer run of digits never has a smaller value.
proof fn lemma_digits_value_prefix_grows(d: Seq<char>, k: int)
    requires
        0 <= k <= d.len(),
        forall|i: int| 0 <= i < d.len() ==> is_digit(#[trigger] d[i]),
    ensures
        digits_value(d.take(k)) <= digits_value(d),
    decreases d.len() - k,
{
    if k < d.len() {
        lemma_digits_value_prefix_grows(d, k + 1);
        assert(d.take(k + 1).drop_last() =~= d.take(k));
    } else {
        assert(d.take(k) =~= d);
    }
}


/// What `i32::from_str` accepts: an optional sign, then one or more ASCII
/// digits whose signed value fits.
pub open spec fn parsed_i32(s: Seq<char>) -> Option<i32> {
    let neg = s.len() > 0 && s[0] == '-';
    let d = s.skip(sign_len(s));
    if d.len() > 0 && (forall|i: int| 0 <= i < d.len() ==> is_digit(#[trigger] d[i])) {
        if neg && digits_value(d) <= 0x8000_0000 {
            Some((0 - digits_value(d)) as i32)
        } else if !neg && digits_value(d) <= 0x7fff_ffff {
            Some(digits_value(d) as i32)
        } else {
            None
        }
    } else {
        None
    }
}

/// Characters of a leading `+` or `-`: zero or one.
pub open spec fn sign_len(s: Seq<char>) -> int {
    if s.len() > 0 && (s[0] == '+' || s[0] == '-') {
        1
    } else {
        0
    }
}

/// Parse a decimal `i32` the way `i32::from_str` does.
pub fn parse_i32(s: &str) -> (r: Option<i32>)
    ensures
        r == parsed_i32(s@),
{
    let v = chars_of(s);
    let neg = v.len() > 0 && v[0] == '-';
    let start: usize = if v.len() > 0 && (v[0] == '+' || v[0] == '-') {
        1
    } else {
        0
    };
    let ghost d = v@.skip(start as int);
    assert(start == sign_len(s@));
    if start == v.len() {
        return None;
    }
    let limit: u64 = if neg {
        0x8000_0000
    } else {
        0x7fff_ffff
    };
    let mut acc: u64 = 0;
    let mut i: usize = start;
    while i < v.len()
        invariant
            start <= i <= v@.len(),
            d == v@.skip(start as int),
            v@ == s@,
            neg == (s@.len() > 0 && s@[0] == '-'),
            start == sign_len(s@),
            limit == (if neg { 0x8000_0000u64 } else { 0x7fff_ffffu64 }),
            forall|k: int| 0 <= k < i - start ==> is_digit(#[trigger] d[k]),
            acc as nat == digits_value(d.take(i - start)),
            acc <= limit,
        decreases v@.len() - i,
    {
        let c = v[i];
        if !('0' <= c && c <= '9') {
            assert(d[i - start] == c);
            assert(!is_digit(d[i - start]));
            assert(!(forall|k: int| 0 <= k < d.len() ==> is_digit(#[trigger] d[k])));
            return None;
        }
        let dv = (c as u32 - '0' as u32) as u64;
        proof {
            assert(d.take(i - start + 1).drop_last() =~= d.take(i - start));
            assert(d[i - start] == c);
        }
        if acc > (limit - dv) / 10 {
            proof {
                let k = (i - start + 1) as int;
                assert(digits_value(d.take(k)) == acc * 10 + dv);
                assert(acc * 10 + dv > limit) by (nonlinear_arith)
                    requires
                        acc > (limit - dv) / 10,
                        dv <= 9,
                ;
                if forall|j: int| 0 <= j < d.len() ==> is_digit(#[trigger] d[j]) {
                    lemma_digits_value_prefix_grows(d, k);
                }
            }
            return None;
        }
        assert(acc * 10 + dv <= limit) by (nonlinear_arith)
            requires
                acc <= (limit - dv) / 10,
                dv <= 9,
                limit >= 9,
        ;
        acc = acc * 10 + dv;
        i += 1;
    }
    assert(d.take(v@.len() - start) =~= d);
    if neg {
        let r = (0i64 - acc as i64) as i32;
        Some(r)
    } else {
        Some(acc as i32)
    }
}

/// The decimal digits of `n`.
pub open spec fn decimal(n: nat) -> Seq<char>
    decreases n,
{
    if n < 10 {
        seq![digit_char(n)]
    } else {
        decimal(n / 10).push(digit_char(n % 10))
    }
}

/// The ASCII digit for `d < 10`.
pub open spec fn digit_char(d: nat) -> char {
    if d == 0 { '0' } else if d == 1 { '1' } else if d == 2 { '2' } else if d == 3 { '3' }
    else if d == 4 { '4' } else if d == 5 { '5' } else if d == 6 { '6' } else if d == 7 { '7' }
    else if d == 8 { '8' } else { '9' }
}

fn digit_of(d: usize) -> (c: char)
    requires
        d < 10,
    ensures
        c == digit_char(d as nat),
{
    if d == 0 { '0' } else if d == 1 { '1' } else if d == 2 { '2' } else if d == 3 { '3' }
    else if d == 4 { '4' } else if d == 5 { '5' } else if d == 6 { '6' } else if d == 7 { '7' }
    else if d == 8 { '8' } else { '9' }
}

/// `n.to_string()`.
pub fn decimal_string(n: usize) -> (s: String)
    ensures
        s@ == decimal(n as nat),
    decreases n,
{
    if n < 10 {
        let mut s = String::new();
        push_char(&mut s, digit_of(n));
        proof {
            assert(s@ =~= seq![digit_char(n as nat)]);
        }
        s
    } else {
        let mut s = decimal_string(n / 10);
        push_char(&mut s, digit_of(n % 10));
        s
    }
}

/// `n.to_string()` for a `u64`.
pub fn decimal_u64(n: u64) -> (s: String)
    ensures
        s@ == decimal(n as nat),
    decreases n,
{
    if n < 10 {
        let mut s = String::new();
        push_char(&mut s, digit_of(n as usize));
        proof {
            assert(s@ =~= seq![digit_char(n as nat)]);
        }
        s
    } else {
        let mut s = decimal_u64(n / 10);
        push_char(&mut s, digit_of((n % 10) as usize));
        s
    }
}

/// `format!("{s:?}")` for a string: what `Debug` prints for it.
pub uninterp spec fn debug_quoted(s: Seq<char>) -> Seq<char>;

/// `<str as Debug>::fmt` through `format!`: the string in double quotes
/// with `char::escape_debug` applied. The escaping rules are the standard
/// library's and are not restated; the result is named.
#[verifier::external_body]
pub fn debug_quote(s: &str) -> (r: String)
    ensures
        r@ == debug_quoted(s@),
{
    format!("{s:?}")
}

/// Whether two strings hold the same characters.
pub fn str_eq(a: &str, b: &str) -> (r: bool)
    ensures
        r == (a@ == b@),
{
    let x = chars_of(a);
    let y = chars_of(b);
    if x.len() != y.len() {
        return false;
    }
    let mut i: usize = 0;
    while i < x.len()
        invariant
            i <= x@.len(),
            x@.len() == y@.len(),
            x@ == a@,
            y@ == b@,
            forall|k: int| 0 <= k < i ==> x@[k] == y@[k],
        decreases x@.len() - i,
    {
        if x[i] != y[i] {
            assert(x@[i as int] != y@[i as int]);
            return false;
        }
        i += 1;
    }
    assert(x@ =~= y@);
    true
}

// ---------------------------------------------------------------------
// Searching.
// ---------------------------------------------------------------------

/// Whether `t` occurs in `s` at position `i`.
pub open spec fn occurs_at(s: Seq<char>, t: Seq<char>, i: int) -> bool {
    0 <= i && i + t.len() <= s.len() && s.subrange(i, i + t.len()) == t
}

/// Whether `t` occurs anywhere in `s`.
pub open spec fn contains_seq(s: Seq<char>, t: Seq<char>) -> bool {
    exists|i: int| #[trigger] occurs_at(s, t, i)
}

/// Whether `s` begins with `t`.
pub open spec fn starts_with_seq(s: Seq<char>, t: Seq<char>) -> bool {
    occurs_at(s, t, 0)
}

pub(crate) fn matches_at(s: &Vec<char>, t: &Vec<char>, i: usize) -> (r: bool)
    requires
        i <= s@.len(),
    ensures
        r == occurs_at(s@, t@, i as int),
{
    let n = s.len();
    if t.len() > n - i {
        return false;
    }
    let mut k: usize = 0;
    while k < t.len()
        invariant
            n == s@.len(),
            i + t@.len() <= s@.len(),
            k <= t@.len(),
            forall|j: int| 0 <= j < k ==> s@[i + j] == t@[j],
        decreases t@.len() - k,
    {
        if s[i + k] != t[k] {
            assert(s@.subrange(i as int, i + t@.len())[k as int] != t@[k as int]);
            return false;
        }
        k += 1;
    }
    assert(s@.subrange(i as int, i + t@.len()) =~= t@);
    true
}

/// `s.contains(t)`.
pub fn str_contains(s: &str, t: &str) -> (r: bool)
    ensures
        r == contains_seq(s@, t@),
{
    let sv = chars_of(s);
    let tv = chars_of(t);
    let n = sv.len();
    let mut i: usize = 0;
    while i < n
        invariant
            i <= n,
            n == sv@.len(),
            sv@ == s@,
            tv@ == t@,
            forall|j: int| 0 <= j < i ==> !#[trigger] occurs_at(s@, t@, j),
        decreases n - i,
    {
        if matches_at(&sv, &tv, i) {
            return true;
        }
        i += 1;
    }
    if matches_at(&sv, &tv, n) {
        return true;
    }
    proof {
        assert forall|j: int| !#[trigger] occurs_at(s@, t@, j) by {
            if j > s@.len() {
                assert(!(j + t@.len() <= s@.len()));
            }
        }
    }
    false
}

/// `s.starts_with(t)`.
pub fn str_starts_with(s: &str, t: &str) -> (r: bool)
    ensures
        r == starts_with_seq(s@, t@),
{
    let sv = chars_of(s);
    let tv = chars_of(t);
    matches_at(&sv, &tv, 0)
}

/// What `str::to_lowercase` returns: the Unicode lowercase mapping, which
/// the standard library defines and which is not restated here.
pub uninterp spec fn lowercased(s: Seq<char>) -> Seq<char>;

/// `str::to_lowercase`. Its result is named, not described.
#[verifier::external_body]
pub(crate) fn lowercase(s: &str) -> (r: String)
    ensures
        r@ == lowercased(s@),
{
    s.to_lowercase()
}

} // verus!
