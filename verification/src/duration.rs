//! Interval tokens: `500ms`, `2s`, `1m`, `1h30m`. Values are whole
//! milliseconds. Elapsed seconds read back as `1h 2m 3s`.

use vstd::prelude::*;

use crate::text::{
    chars_of, debug_quote, debug_quoted, decimal, decimal_u64, digits_value, is_digit, push_char, push_str,
};

verus! {

/// Milliseconds in one unit, for the units an interval may use.
pub open spec fn unit_ms(u: Seq<char>) -> Option<nat> {
    if u == seq!['m', 's'] {
        Some(1)
    } else if u == seq!['s'] {
        Some(1000)
    } else if u == seq!['m'] {
        Some(60_000)
    } else if u == seq!['h'] {
        Some(3_600_000)
    } else {
        None
    }
}

/// How many of `s`'s leading characters are ASCII digits.
pub open spec fn digit_run(s: Seq<char>) -> nat
    decreases s.len(),
{
    if s.len() > 0 && is_digit(s[0]) {
        1 + digit_run(s.skip(1))
    } else {
        0
    }
}

/// How many of `s`'s leading characters are ASCII letters.
pub open spec fn letter_run(s: Seq<char>) -> nat
    decreases s.len(),
{
    if s.len() > 0 && (('a' <= s[0] && s[0] <= 'z') || ('A' <= s[0] && s[0] <= 'Z')) {
        1 + letter_run(s.skip(1))
    } else {
        0
    }
}

/// The value of a run of `number unit` groups, or `None` when `s` is not
/// one.
pub open spec fn groups_ms(s: Seq<char>) -> Option<nat>
    decreases s.len(),
{
    if s.len() == 0 {
        Some(0)
    } else {
        let d = digit_run(s);
        let rest = s.skip(d as int);
        let l = letter_run(rest);
        proof {
            lemma_runs_bounded(s);
            lemma_runs_bounded(rest);
        }
        if d == 0 || l == 0 {
            None
        } else {
            match unit_ms(rest.take(l as int)) {
                None => None,
                Some(u) => match groups_ms(rest.skip(l as int)) {
                    None => None,
                    Some(v) => Some(digits_value(s.take(d as int)) * u + v),
                },
            }
        }
    }
}

/// What `parse_interval` accepts: one or more groups, summed, fitting.
pub open spec fn interval_ms(s: Seq<char>) -> Option<u64> {
    match groups_ms(s) {
        Some(v) => if s.len() > 0 && v <= u64::MAX {
            Some(v as u64)
        } else {
            None
        },
        None => None,
    }
}

/// An interval token that does not parse.
#[derive(Clone, Debug, PartialEq, Eq)]
pub struct IntervalError {
    pub input: String,
}

impl IntervalError {
    /// The sentence the token is refused with.
    pub fn message(&self) -> (r: String)
        ensures
            r@ == "invalid interval "@ + debug_quoted(self.input@)
                + ": expected a duration like 500ms, 2s, 1m or 1h30m"@,
    {
        let mut r = String::new();
        push_str(&mut r, "invalid interval ");
        push_str(&mut r, debug_quote(self.input.as_str()).as_str());
        push_str(&mut r, ": expected a duration like 500ms, 2s, 1m or 1h30m");
        r
    }
}

/// Digit and letter runs never outrun the text.
pub proof fn lemma_runs_bounded(s: Seq<char>)
    ensures
        digit_run(s) <= s.len(),
        letter_run(s) <= s.len(),
    decreases s.len(),
{
    if s.len() > 0 {
        lemma_runs_bounded(s.skip(1));
    }
}

proof fn lemma_digit_run_facts(s: Seq<char>)
    ensures
        forall|i: int| 0 <= i < digit_run(s) ==> is_digit(#[trigger] s[i]),
        digit_run(s) < s.len() ==> !is_digit(s[digit_run(s) as int]),
    decreases s.len(),
{
    lemma_runs_bounded(s);
    if s.len() > 0 && is_digit(s[0]) {
        lemma_digit_run_facts(s.skip(1));
        assert forall|i: int| 0 <= i < digit_run(s) implies is_digit(#[trigger] s[i]) by {
            if i > 0 {
                assert(s[i] == s.skip(1)[i - 1]);
            }
        }
        if digit_run(s) < s.len() {
            assert(s[digit_run(s) as int] == s.skip(1)[digit_run(s.skip(1)) as int]);
        }
    }
}

/// Whether `c` is an ASCII letter.
pub open spec fn is_letter(c: char) -> bool {
    ('a' <= c && c <= 'z') || ('A' <= c && c <= 'Z')
}

proof fn lemma_digit_run_concat(a: Seq<char>, b: Seq<char>)
    requires
        digit_run(a) < a.len(),
    ensures
        digit_run(a + b) == digit_run(a),
    decreases a.len(),
{
    assert((a + b)[0] == a[0]);
    if is_digit(a[0]) {
        assert((a + b).skip(1) =~= a.skip(1) + b);
        lemma_digit_run_concat(a.skip(1), b);
    }
}

proof fn lemma_letter_run_concat(x: Seq<char>, b: Seq<char>)
    requires
        letter_run(x) < x.len() || b.len() == 0 || !is_letter(b[0]),
    ensures
        letter_run(x + b) == letter_run(x),
    decreases x.len(),
{
    if x.len() == 0 {
        assert(x + b =~= b);
    } else {
        assert((x + b)[0] == x[0]);
        if is_letter(x[0]) {
            assert((x + b).skip(1) =~= x.skip(1) + b);
            lemma_letter_run_concat(x.skip(1), b);
        }
    }
}

proof fn lemma_groups_start_with_a_digit(s: Seq<char>)
    requires
        s.len() > 0,
        groups_ms(s) is Some,
    ensures
        is_digit(s[0]),
{
    lemma_runs_bounded(s);
}

/// Groups laid end to end are worth the sum of their values: a token of
/// several `number unit` groups adds them up, so `1h30m` is one hour plus
/// thirty minutes.
pub proof fn lemma_groups_add_up(a: Seq<char>, b: Seq<char>)
    requires
        groups_ms(a) is Some,
        groups_ms(b) is Some,
    ensures
        groups_ms(a + b) == Some(groups_ms(a).unwrap() + groups_ms(b).unwrap()),
    decreases a.len(),
{
    if a.len() == 0 {
        assert(a + b =~= b);
        return;
    }
    lemma_runs_bounded(a);
    let d = digit_run(a);
    let rest = a.skip(d as int);
    lemma_runs_bounded(rest);
    let l = letter_run(rest);
    let tail = rest.skip(l as int);
    lemma_digit_run_concat(a, b);
    assert((a + b).skip(d as int) =~= rest + b);
    assert((a + b).take(d as int) =~= a.take(d as int));
    if l == rest.len() && b.len() > 0 {
        lemma_groups_start_with_a_digit(b);
    }
    lemma_letter_run_concat(rest, b);
    assert((rest + b).take(l as int) =~= rest.take(l as int));
    assert((rest + b).skip(l as int) =~= tail + b);
    lemma_groups_add_up(tail, b);
}

/// One group is its number times its unit: `N` followed by `ms`, `s`, `m`
/// or `h` is worth `N` milliseconds, seconds, minutes or hours.
pub proof fn lemma_one_group(digits: Seq<char>, unit: Seq<char>)
    requires
        digits.len() > 0,
        forall|i: int| 0 <= i < digits.len() ==> is_digit(#[trigger] digits[i]),
        unit_ms(unit) is Some,
    ensures
        groups_ms(digits + unit) == Some(digits_value(digits) * unit_ms(unit).unwrap()),
{
    let s = digits + unit;
    assert(unit.len() > 0 && is_letter(unit[0]) && forall|i: int| 0 <= i < unit.len() ==> is_letter(#[trigger] unit[i]));
    lemma_all_digits_run(digits, unit);
    assert(s.skip(digits.len() as int) =~= unit);
    assert(s.take(digits.len() as int) =~= digits);
    lemma_all_letters_run(unit);
    assert(unit.take(unit.len() as int) =~= unit);
    assert(unit.skip(unit.len() as int) =~= Seq::<char>::empty());
    assert(groups_ms(Seq::<char>::empty()) == Some(0nat));
    assert(digit_run(s) == digits.len());
    assert(letter_run(s.skip(digits.len() as int)) == unit.len());
    assert(unit_ms(s.skip(digits.len() as int).take(unit.len() as int)) == unit_ms(unit));
    assert(groups_ms(s.skip(digits.len() as int).skip(unit.len() as int)) == Some(0nat));
}

proof fn lemma_all_digits_run(digits: Seq<char>, rest: Seq<char>)
    requires
        forall|i: int| 0 <= i < digits.len() ==> is_digit(#[trigger] digits[i]),
        rest.len() > 0,
        !is_digit(rest[0]),
    ensures
        digit_run(digits + rest) == digits.len(),
    decreases digits.len(),
{
    if digits.len() == 0 {
        assert(digits + rest =~= rest);
    } else {
        assert((digits + rest)[0] == digits[0]);
        assert((digits + rest).skip(1) =~= digits.skip(1) + rest);
        lemma_all_digits_run(digits.skip(1), rest);
    }
}

proof fn lemma_all_letters_run(u: Seq<char>)
    requires
        forall|i: int| 0 <= i < u.len() ==> is_letter(#[trigger] u[i]),
    ensures
        letter_run(u) == u.len(),
    decreases u.len(),
{
    if u.len() > 0 {
        lemma_all_letters_run(u.skip(1));
    }
}

/// The units stand in their usual ratios: a millisecond is the base, a
/// second a thousand of them, a minute sixty seconds, an hour sixty
/// minutes; nothing else is a unit.
pub proof fn lemma_unit_ratios(u: Seq<char>)
    ensures
        unit_ms(seq!['m', 's']) == Some(1nat),
        unit_ms(seq!['s']) == Some(1000 * unit_ms(seq!['m', 's']).unwrap()),
        unit_ms(seq!['m']) == Some(60 * unit_ms(seq!['s']).unwrap()),
        unit_ms(seq!['h']) == Some(60 * unit_ms(seq!['m']).unwrap()),
        unit_ms(u) is Some ==> (u == seq!['m', 's'] || u == seq!['s'] || u == seq!['m'] || u == seq!['h']),
{
    let ms = seq!['m', 's'];
    let s1 = seq!['s'];
    let m1 = seq!['m'];
    let h1 = seq!['h'];
    assert(s1.len() != ms.len());
    assert(m1.len() != ms.len());
    assert(h1.len() != ms.len());
    assert(m1[0] != s1[0]);
    assert(h1[0] != s1[0]);
    assert(h1[0] != m1[0]);
}

/// A token made of two well-formed parts is worth their sum, when that
/// fits: `parse_interval("1h30m")` is `3_600_000 + 1_800_000`.
pub proof fn lemma_interval_adds_up(a: Seq<char>, b: Seq<char>)
    requires
        interval_ms(a) is Some,
        interval_ms(b) is Some,
        interval_ms(a).unwrap() + interval_ms(b).unwrap() <= u64::MAX,
    ensures
        interval_ms(a + b) == Some((interval_ms(a).unwrap() + interval_ms(b).unwrap()) as u64),
{
    lemma_groups_add_up(a, b);
}

/// Parse an interval token into milliseconds.
pub fn parse_interval(s: &str) -> (r: Result<u64, IntervalError>)
    ensures
        match interval_ms(s@) {
            Some(v) => r == Ok::<u64, IntervalError>(v),
            None => r matches Err(e) && e.input@ == s@,
        },
{
    let v = chars_of(s);
    if v.len() == 0 {
        return Err(IntervalError { input: s.to_owned() });
    }
    proof {
        assert(v@.skip(0) =~= v@);
    }
    match groups_value(&v, 0) {
        Some(ms) => Ok(ms),
        None => Err(IntervalError { input: s.to_owned() }),
    }
}

/// The value of the groups in `v[from..]`, when it is a run of groups that
/// fits in `u64`.
fn groups_value(v: &Vec<char>, from: usize) -> (r: Option<u64>)
    requires
        from <= v@.len(),
    ensures
        match groups_ms(v@.skip(from as int)) {
            Some(x) => if x <= u64::MAX {
                r == Some(x as u64)
            } else {
                r is None
            },
            None => r is None,
        },
    decreases v@.len() - from,
{
    let ghost s = v@.skip(from as int);
    if from == v.len() {
        return Some(0);
    }
    // The number.
    let mut i = from;
    let mut num: u64 = 0;
    let mut fits = true;
    proof {
        lemma_digit_run_facts(s);
        lemma_runs_bounded(s);
    }
    while i < v.len() && '0' <= v[i] && v[i] <= '9'
        invariant
            from <= i <= v@.len(),
            s == v@.skip(from as int),
            forall|k: int| 0 <= k < i - from ==> is_digit(#[trigger] s[k]),
            fits ==> num as nat == digits_value(s.take(i - from)),
            !fits ==> digits_value(s.take(i - from)) > u64::MAX,
        decreases v@.len() - i,
    {
        let dv = (v[i] as u32 - '0' as u32) as u64;
        proof {
            assert(s[i - from] == v@[i as int]);
            assert(s.take(i - from + 1).drop_last() =~= s.take(i - from));
            assert(s.take(i - from + 1).last() == v@[i as int]);
        }
        if fits && num <= (u64::MAX - dv) / 10 {
            num = num * 10 + dv;
        } else {
            proof {
                if fits {
                    assert(num * 10 + dv > u64::MAX) by (nonlinear_arith)
                        requires
                            num > (u64::MAX - dv) / 10,
                            dv <= 9,
                    ;
                } else {
                    assert(digits_value(s.take(i - from)) * 10 + dv > u64::MAX) by (nonlinear_arith)
                        requires
                            digits_value(s.take(i - from)) > u64::MAX,
                    ;
                }
            }
            fits = false;
        }
        i += 1;
    }
    let d = i - from;
    proof {
        if (d as nat) < digit_run(s) {
            assert(is_digit(s[d as int]));
            assert(s[d as int] == v@[i as int]);
        }
        if (d as nat) > digit_run(s) {
            assert(is_digit(s[digit_run(s) as int]));
        }
        assert(d == digit_run(s));
    }
    if d == 0 {
        return None;
    }
    // The unit.
    let ghost rest = s.skip(d as int);
    let mut j = i;
    proof {
        lemma_runs_bounded(rest);
        assert(rest == v@.skip(i as int));
    }
    while j < v.len() && (('a' <= v[j] && v[j] <= 'z') || ('A' <= v[j] && v[j] <= 'Z'))
        invariant
            i <= j <= v@.len(),
            rest == v@.skip(i as int),
            letter_run(rest) == (j - i) + letter_run(v@.skip(j as int)),
        decreases v@.len() - j,
    {
        proof {
            assert(v@.skip(j as int).skip(1) =~= v@.skip(j + 1));
            assert(v@.skip(j as int)[0] == v@[j as int]);
        }
        j += 1;
    }
    proof {
        if j < v.len() {
            assert(v@.skip(j as int)[0] == v@[j as int]);
        }
        assert(letter_run(v@.skip(j as int)) == 0);
    }
    let l = j - i;
    if l == 0 {
        return None;
    }
    let unit: u64 = if l == 2 && v[i] == 'm' && v[i + 1] == 's' {
        1
    } else if l == 1 && v[i] == 's' {
        1000
    } else if l == 1 && v[i] == 'm' {
        60_000
    } else if l == 1 && v[i] == 'h' {
        3_600_000
    } else {
        0
    };
    proof {
        let u = rest.take(l as int);
        assert(u.len() == l);
        if l == 2 {
            assert(u[0] == v@[i as int] && u[1] == v@[i + 1]);
        }
        if l == 1 {
            assert(u[0] == v@[i as int]);
        }
        if l == 2 && v@[i as int] == 'm' && v@[i + 1] == 's' {
            assert(u =~= seq!['m', 's']);
        } else if l == 1 && v@[i as int] == 's' {
            assert(u =~= seq!['s']);
        } else if l == 1 && v@[i as int] == 'm' {
            assert(u =~= seq!['m']);
        } else if l == 1 && v@[i as int] == 'h' {
            assert(u =~= seq!['h']);
        } else {
            if l == 2 {
                assert(u != seq!['m', 's']) by {
                    if u == seq!['m', 's'] {
                        assert(u[0] == 'm' && u[1] == 's');
                    }
                }
            }
            if l == 1 {
                assert(u != seq!['s'] && u != seq!['m'] && u != seq!['h']) by {
                    if u == seq!['s'] || u == seq!['m'] || u == seq!['h'] {
                        assert(u[0] == seq!['s'][0] || u[0] == seq!['m'][0] || u[0] == seq!['h'][0]);
                    }
                }
            }
            assert(unit_ms(u) is None);
        }
    }
    if unit == 0 {
        return None;
    }
    proof {
        assert(rest.skip(l as int) =~= v@.skip(j as int));
    }
    let tail = groups_value(v, j);
    match tail {
        None => {
            proof {
                if let Some(x) = groups_ms(v@.skip(j as int)) {
                    if let Some(all) = groups_ms(s) {
                        assert(all >= x);
                    }
                }
            }
            None
        },
        Some(t) => {
            if !fits {
                proof {
                    assert(digits_value(s.take(d as int)) * unit >= digits_value(s.take(d as int)))
                        by (nonlinear_arith)
                        requires
                            unit >= 1,
                    ;
                }
                return None;
            }
            let lim = (u64::MAX - t) / unit;
            if num > lim {
                proof {
                    assert(num * unit + t > u64::MAX) by (nonlinear_arith)
                        requires
                            num > lim,
                            lim == (u64::MAX - t) / (unit as int),
                            unit >= 1,
                            t <= u64::MAX,
                    ;
                }
                return None;
            }
            proof {
                assert(num * unit + t <= u64::MAX) by (nonlinear_arith)
                    requires
                        num <= lim,
                        lim == (u64::MAX - t) / (unit as int),
                        unit >= 1,
                        t <= u64::MAX,
                ;
            }
            Some(num * unit + t)
        },
    }
}

// ---------------------------------------------------------------------
// Elapsed time in words.

/// How `rat duration` prints seconds.
#[derive(Copy, Clone, PartialEq, Eq, Debug, Structural)]
pub enum DurationFormat {
    Compact,
    Long,
    Clock,
}

/// `acc` with `n` of unit `u` appended, space-separated; a zero count adds
/// nothing.
pub open spec fn with_part(acc: Seq<char>, n: nat, u: char) -> Seq<char> {
    if n == 0 {
        acc
    } else if acc.len() == 0 {
        decimal(n).push(u)
    } else {
        acc + seq![' '] + decimal(n).push(u)
    }
}

/// `secs` as days, hours, minutes and seconds, largest first, zero units
/// left out; no time at all reads `0s`.
pub open spec fn long_text(secs: nat) -> Seq<char> {
    let a = with_part(Seq::empty(), secs / 86400, 'd');
    let b = with_part(a, secs % 86400 / 3600, 'h');
    let c = with_part(b, secs % 3600 / 60, 'm');
    let d = with_part(c, secs % 60, 's');
    if d.len() == 0 {
        seq!['0', 's']
    } else {
        d
    }
}

fn push_part(acc: &mut String, n: u64, u: char)
    ensures
        final(acc)@ == with_part(old(acc)@, n as nat, u),
{
    if n == 0 {
        return;
    }
    if !acc.as_str().is_empty() {
        push_char(acc, ' ');
    }
    let digits = decimal_u64(n);
    push_str(acc, digits.as_str());
    push_char(acc, u);
    proof {
        if old(acc)@.len() == 0 {
            assert(final(acc)@ =~= decimal(n as nat).push(u));
        } else {
            assert(final(acc)@ =~= old(acc)@ + seq![' '] + decimal(n as nat).push(u));
        }
    }
}

/// Whole seconds in words: `75` is `1m 15s`, `3600` is `1h`.
pub fn format_long(secs: u64) -> (r: String)
    ensures
        r@ == long_text(secs as nat),
{
    let mut r = String::new();
    proof {
        assert(r@ =~= Seq::<char>::empty());
    }
    push_part(&mut r, secs / 86400, 'd');
    push_part(&mut r, secs % 86400 / 3600, 'h');
    push_part(&mut r, secs % 3600 / 60, 'm');
    push_part(&mut r, secs % 60, 's');
    if r.as_str().is_empty() {
        push_char(&mut r, '0');
        push_char(&mut r, 's');
        proof {
            assert(r@ =~= seq!['0', 's']);
        }
    }
    r
}

} // verus!
