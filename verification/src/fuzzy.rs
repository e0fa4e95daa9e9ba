//! The item matching behind `filter`: nucleo's fuzzy matcher, ranked, and
//! case-insensitive substring matching for `--no-fuzzy`.

use nucleo_matcher::pattern::{CaseMatching, Normalization, Pattern};
use nucleo_matcher::{Config, Matcher, Utf32Str};
use vstd::prelude::*;

use crate::text::{chars_of, lowercase, lowercased, matches_at, occurs_at, views};

verus! {

/// One item that matched: its index, its score, and the character
/// positions the query covers.
#[derive(Debug, Clone, PartialEq, Eq)]
pub struct Match {
    pub index: usize,
    pub score: u32,
    pub positions: Vec<u32>,
}

/// The first position at or after `i` where `t` occurs in `s`.
pub open spec fn first_from(s: Seq<char>, t: Seq<char>, i: int) -> Option<int>
    decreases s.len() + 1 - i,
{
    if i < 0 || i + t.len() > s.len() {
        None
    } else if occurs_at(s, t, i) {
        Some(i)
    } else {
        first_from(s, t, i + 1)
    }
}

/// Where a case-insensitive query first occurs in an item, in
/// characters.
pub open spec fn hit_of(item: Seq<char>, query: Seq<char>) -> Option<int> {
    first_from(lowercased(item), lowercased(query), 0)
}

/// The items a query hits, in order, each with where it first occurs.
pub open spec fn hits(items: Seq<Seq<char>>, query: Seq<char>) -> Seq<(int, int)>
    decreases items.len(),
{
    if items.len() == 0 {
        Seq::empty()
    } else {
        let rest = hits(items.drop_last(), query);
        match hit_of(items.last(), query) {
            Some(s) => rest.push((items.len() - 1, s)),
            None => rest,
        }
    }
}

/// `n` consecutive positions from `start`.
pub open spec fn run_from(start: int, n: nat) -> Seq<u32> {
    Seq::new(n, |j: int| (start + j) as u32)
}

/// Every lowercased item fits the `u32` positions a match reports.
pub open spec fn items_fit(items: Seq<Seq<char>>) -> bool {
    forall|i: int| 0 <= i < items.len() ==> #[trigger] lowercased(items[i]).len() <= u32::MAX
}

proof fn lemma_first_from_bounds(s: Seq<char>, t: Seq<char>, i: int)
    ensures
        first_from(s, t, i) matches Some(k) ==> i <= k && k + t.len() <= s.len() && occurs_at(s, t, k),
    decreases s.len() + 1 - i,
{
    if !(i < 0 || i + t.len() > s.len()) && !occurs_at(s, t, i) {
        lemma_first_from_bounds(s, t, i + 1);
    }
}

/// What substring filtering answers: an empty query matches every item
/// with no positions; otherwise each item the query occurs in, in order,
/// with the positions of its first occurrence.
pub open spec fn filtered(items: Seq<Seq<char>>, query: Seq<char>, r: Seq<Match>) -> bool {
    if query.len() == 0 {
        r.len() == items.len() && forall|k: int|
            0 <= k < r.len() ==> (#[trigger] r[k]).index == k && r[k].score == 0
                && r[k].positions@.len() == 0
    } else {
        r.len() == hits(items, query).len() && forall|k: int|
            0 <= k < r.len() ==> (#[trigger] r[k]).index == hits(items, query)[k].0
                && r[k].score == 0 && r[k].positions@ == run_from(hits(items, query)[k].1, lowercased(query).len())
    }
}

fn first_occurrence(s: &Vec<char>, t: &Vec<char>) -> (r: Option<usize>)
    ensures
        match first_from(s@, t@, 0) {
            Some(i) => 0 <= i && i + t@.len() <= s@.len() && r == Some(i as usize),
            None => r is None,
        },
{
    proof {
        lemma_first_from_bounds(s@, t@, 0);
    }
    if t.len() > s.len() {
        return None;
    }
    if t.len() == 0 {
        proof {
            assert(s@.subrange(0, 0) =~= t@);
        }
        return Some(0);
    }
    let last = s.len() - t.len();
    let mut i: usize = 0;
    while i <= last
        invariant
            last == s@.len() - t@.len(),
            t@.len() > 0,
            s@.len() <= usize::MAX,
            i <= last + 1,
            first_from(s@, t@, 0) == first_from(s@, t@, i as int),
        decreases last + 1 - i,
    {
        if matches_at(s, t, i) {
            return Some(i);
        }
        i += 1;
    }
    None
}

/// Case-insensitive substring matching: every item in which the query
/// occurs, in item order, positions covering its first occurrence. An
/// empty query matches everything, with no positions.
pub fn substring_filter(items: &[String], query: &str) -> (r: Vec<Match>)
    requires
        items_fit(views(items@)),
    ensures
        filtered(views(items@), query@, r@),
{
    let mut out: Vec<Match> = Vec::new();
    if query.is_empty() {
        let mut i: usize = 0;
        while i < items.len()
            invariant
                i <= items@.len(),
                out@.len() == i,
                forall|k: int| 0 <= k < i ==> (#[trigger] out@[k]).index == k && out@[k].score == 0
                    && out@[k].positions@.len() == 0,
            decreases items@.len() - i,
        {
            out.push(Match { index: i, score: 0, positions: Vec::new() });
            i += 1;
        }
        return out;
    }
    let needle = lowercase(query);
    let nv = chars_of(needle.as_str());
    let ghost q = query@;
    let ghost vs = views(items@);
    let mut i: usize = 0;
    while i < items.len()
        invariant
            i <= items@.len(),
            vs == views(items@),
            items_fit(vs),
            nv@ == lowercased(q),
            q == query@,
            q.len() > 0,
            out@.len() == hits(vs.take(i as int), q).len(),
            forall|k: int| 0 <= k < out@.len() ==> (#[trigger] out@[k]).index == hits(vs.take(i as int), q)[k].0
                && out@[k].score == 0 && out@[k].positions@ == run_from(
                hits(vs.take(i as int), q)[k].1,
                lowercased(q).len(),
            ),
        decreases items@.len() - i,
    {
        let item = items[i].as_str();
        let hay = lowercase(item);
        let hv = chars_of(hay.as_str());
        proof {
            assert(vs[i as int] == items@[i as int]@);
            assert(item@ == items@[i as int]@);
            assert(hv@ == lowercased(vs[i as int]));
            assert(vs.take(i + 1).drop_last() =~= vs.take(i as int));
            assert(vs.take(i + 1).last() == items@[i as int]@);
            assert(lowercased(vs[i as int]).len() <= u32::MAX);
        }
        let found = first_occurrence(&hv, &nv);
        match found {
            Some(start) => {
                proof {
                    assert(first_from(hv@, nv@, 0) == Some(start as int));
                    assert(hit_of(vs[i as int], q) == Some(start as int));
                    assert(hits(vs.take(i + 1), q) == hits(vs.take(i as int), q).push((i as int, start as int)));
                }
                let n = nv.len();
                let mut positions: Vec<u32> = Vec::new();
                let mut j: usize = 0;
                while j < n
                    invariant
                        j <= n,
                        start + n <= hv@.len(),
                        hv@.len() <= u32::MAX,
                        positions@ == run_from(start as int, j as nat),
                    decreases n - j,
                {
                    positions.push((start + j) as u32);
                    proof {
                        assert(positions@ =~= run_from(start as int, (j + 1) as nat));
                    }
                    j += 1;
                }
                out.push(Match { index: i, score: 0, positions });
            },
            None => {
                proof {
                    assert(hits(vs.take(i + 1), q) == hits(vs.take(i as int), q));
                }
            },
        }
        i += 1;
    }
    proof {
        assert(vs.take(items@.len() as int) =~= vs);
    }
    out
}

/// Substring filtering for any items: `None` when an item lowercases to
/// more characters than a `u32` position can reach.
pub fn substring_filter_checked(items: &[String], query: &str) -> (r: Option<Vec<Match>>)
    ensures
        r is Some <==> items_fit(views(items@)),
        r matches Some(v) ==> filtered(views(items@), query@, v@),
{
    let mut i: usize = 0;
    while i < items.len()
        invariant
            i <= items@.len(),
            forall|k: int| 0 <= k < i ==> #[trigger] lowercased(views(items@)[k]).len() <= u32::MAX,
        decreases items@.len() - i,
    {
        let item = items[i].as_str();
        let low = chars_of(lowercase(item).as_str());
        proof {
            assert(views(items@)[i as int] == item@);
        }
        if low.len() > 4294967295usize {
            return None;
        }
        i += 1;
    }
    Some(substring_filter(items, query))
}


// ---------------------------------------------------------------------
// Fuzzy matching.

/// `nucleo_matcher::Matcher`, carried through unread.
#[verifier::external_type_specification]
#[verifier::external_body]
pub struct ExMatcher(Matcher);

/// The longest item, in characters, fuzzy matching takes: a quarter of
/// the `u32` range nucleo's matcher indexes (a character is at most four
/// UTF-8 bytes).
pub const MAX_MATCH_CHARS: usize = 1073741823;

/// Every item is short enough to match.
pub open spec fn items_matchable(items: Seq<String>) -> bool {
    forall|i: int| 0 <= i < items.len() ==> (#[trigger] items[i])@.len() <= MAX_MATCH_CHARS
}

/// nucleo's matcher with its default configuration, and the scratch space
/// it reuses from one item to the next.
pub struct FuzzyMatcher {
    matcher: Matcher,
}

/// `Matcher::new(Config::DEFAULT)`.
#[verifier::external_body]
fn default_matcher() -> Matcher {
    Matcher::new(Config::DEFAULT)
}

/// A matcher with the default configuration.
pub fn new_matcher() -> FuzzyMatcher {
    FuzzyMatcher { matcher: default_matcher() }
}

/// What nucleo makes of an item under a query (parsed with smart case and
/// smart normalization, matched with the default configuration): the
/// score and the matched character positions as it reports them, or
/// nothing when the item does not match.
pub uninterp spec fn nucleo_match(query: Seq<char>, item: Seq<char>) -> Option<(u32, Seq<u32>)>;

/// `Pattern::parse(query, CaseMatching::Smart, Normalization::Smart)` and
/// `Pattern::indices` over the item (as `Utf32Str::new` reads it) on a
/// default-configured matcher, into a fresh positions list. `indices`
/// overwrites only the case and normalization settings, per atom, so the
/// answer depends on the query and the item alone; it is named.
///
/// nucleo asserts that the haystack it matches holds at most `u32::MAX`
/// units. `Utf32Str::new` counts an item's characters, or its UTF-8 bytes
/// (at most four per character) when every grapheme of a non-ASCII item
/// is ASCII, so an item of at most [`MAX_MATCH_CHARS`] characters never
/// reaches that assertion.
#[verifier::external_body]
fn pattern_indices(m: &mut FuzzyMatcher, query: &str, item: &str) -> (r: Option<(u32, Vec<u32>)>)
    requires
        item@.len() <= MAX_MATCH_CHARS,
    ensures
        match r {
            Some(x) => nucleo_match(query@, item@) == Some((x.0, x.1@)),
            None => nucleo_match(query@, item@) is None,
        },
{
    let pattern = Pattern::parse(query, CaseMatching::Smart, Normalization::Smart);
    let mut buf = Vec::new();
    let haystack = Utf32Str::new(item, &mut buf);
    let mut positions = Vec::new();
    pattern.indices(haystack, &mut m.matcher, &mut positions).map(|score| (score, positions))
}

/// Strictly increasing positions.
pub open spec fn ascending(p: Seq<u32>) -> bool {
    forall|i: int, j: int| 0 <= i < j < p.len() ==> #[trigger] p[i] < #[trigger] p[j]
}

/// `p` is `raw` sorted, each position once.
pub open spec fn tidied(p: Seq<u32>, raw: Seq<u32>) -> bool {
    ascending(p) && forall|x: u32| p.contains(x) <==> raw.contains(x)
}

/// Sort and deduplicate positions.
fn tidy(raw: Vec<u32>) -> (r: Vec<u32>)
    ensures
        tidied(r@, raw@),
{
    let mut out: Vec<u32> = Vec::new();
    let mut i: usize = 0;
    while i < raw.len()
        invariant
            i <= raw@.len(),
            ascending(out@),
            forall|x: u32| out@.contains(x) <==> raw@.take(i as int).contains(x),
        decreases raw@.len() - i,
    {
        let x = raw[i];
        let ghost pre = raw@.take(i as int);
        let ghost post = raw@.take(i + 1);
        proof {
            assert(post =~= pre.push(x));
        }
        let mut pos: usize = 0;
        while pos < out.len() && out[pos] < x
            invariant
                pos <= out@.len(),
                forall|j: int| 0 <= j < pos ==> #[trigger] out@[j] < x,
            decreases out@.len() - pos,
        {
            pos += 1;
        }
        if pos < out.len() && out[pos] == x {
            proof {
                assert forall|y: u32| out@.contains(y) <==> post.contains(y) by {
                    if post.contains(y) {
                        let k = choose|k: int| 0 <= k < post.len() && post[k] == y;
                        if k < i {
                            assert(pre[k] == y);
                            assert(pre.contains(y));
                        } else {
                            assert(out@[pos as int] == y);
                        }
                    }
                    if out@.contains(y) {
                        assert(pre.contains(y));
                        let k = choose|k: int| 0 <= k < pre.len() && pre[k] == y;
                        assert(post[k] == y);
                    }
                }
            }
        } else {
            let ghost before = out@;
            out.insert(pos, x);
            proof {
                assert(out@ == before.insert(pos as int, x));
                assert forall|a: int, b: int| 0 <= a < b < out@.len() implies #[trigger] out@[a] < #[trigger] out@[b] by {
                    if pos < before.len() {
                        assert(x < before[pos as int]);
                    }
                    if a < pos && b == pos {
                        assert(before[a] < x);
                    } else if a == pos && b > pos {
                        assert(before[b - 1] >= before[pos as int]);
                    } else if a < pos && b > pos {
                        assert(before[a] < before[b - 1]);
                    } else if a > pos {
                        assert(before[a - 1] < before[b - 1]);
                    }
                }
                assert forall|y: u32| out@.contains(y) <==> post.contains(y) by {
                    if post.contains(y) {
                        let k = choose|k: int| 0 <= k < post.len() && post[k] == y;
                        if k < i {
                            assert(pre[k] == y);
                            assert(before.contains(y));
                            let m = choose|m: int| 0 <= m < before.len() && before[m] == y;
                            if m < pos {
                                assert(out@[m] == y);
                            } else {
                                assert(out@[m + 1] == y);
                            }
                        } else {
                            assert(out@[pos as int] == y);
                        }
                    }
                    if out@.contains(y) {
                        let m = choose|m: int| 0 <= m < out@.len() && out@[m] == y;
                        if m == pos {
                            assert(post[i as int] == y);
                        } else {
                            let mm = if m < pos { m } else { m - 1 };
                            assert(before[mm] == y);
                            assert(before.contains(y));
                            let k = choose|k: int| 0 <= k < pre.len() && pre[k] == y;
                            assert(post[k] == y);
                        }
                    }
                }
            }
        }
        i += 1;
    }
    proof {
        assert(raw@.take(raw@.len() as int) =~= raw@);
    }
    out
}

/// The items nucleo matches under a query, by index, in order.
pub open spec fn fuzzy_hits(items: Seq<String>, query: Seq<char>) -> Seq<int>
    decreases items.len(),
{
    if items.len() == 0 {
        Seq::empty()
    } else {
        let rest = fuzzy_hits(items.drop_last(), query);
        if nucleo_match(query, items.last()@) is Some {
            rest.push(items.len() - 1)
        } else {
            rest
        }
    }
}

/// `m` is the match nucleo makes of its item: its score, and its
/// positions sorted and each once.
pub open spec fn fuzzy_hit(items: Seq<String>, query: Seq<char>, m: Match) -> bool {
    &&& 0 <= m.index < items.len()
    &&& nucleo_match(query, items[m.index as int]@) matches Some(h)
    &&& m.score == h.0
    &&& tidied(m.positions@, h.1)
}

/// `a` ranks above `b`: a higher score, or an equal one and an earlier
/// item.
pub open spec fn ranks_before(a: Match, b: Match) -> bool {
    a.score > b.score || (a.score == b.score && a.index < b.index)
}

/// What fuzzy filtering answers. An empty query matches every item, in
/// order, with score 0 and no positions. Otherwise every item nucleo
/// matches, once: in item order, or ranked by score (stable on index).
pub open spec fn fuzzy_filtered(items: Seq<String>, query: Seq<char>, sort: bool, r: Seq<Match>) -> bool {
    if query.len() == 0 {
        r.len() == items.len() && forall|k: int|
            0 <= k < r.len() ==> (#[trigger] r[k]).index == k && r[k].score == 0
                && r[k].positions@.len() == 0
    } else {
        let hs = fuzzy_hits(items, query);
        &&& r.len() == hs.len()
        &&& forall|k: int| 0 <= k < r.len() ==> fuzzy_hit(items, query, #[trigger] r[k])
        &&& if sort {
            forall|j: int, k: int| 0 <= j < k < r.len() ==> ranks_before(#[trigger] r[j], #[trigger] r[k])
        } else {
            forall|k: int| 0 <= k < r.len() ==> (#[trigger] r[k]).index == hs[k]
        }
    }
}

/// Fuzzy-match a query against every item; an empty query matches
/// everything. Sorted output ranks by score, stable on index.
pub fn fuzzy_filter(matcher: &mut FuzzyMatcher, items: &[String], query: &str, sort: bool) -> (r: Vec<Match>)
    requires
        query@.len() > 0 ==> items_matchable(items@),
    ensures
        fuzzy_filtered(items@, query@, sort, r@),
{
    let mut out: Vec<Match> = Vec::new();
    if query.is_empty() {
        let mut i: usize = 0;
        while i < items.len()
            invariant
                i <= items@.len(),
                out@.len() == i,
                forall|k: int| 0 <= k < i ==> (#[trigger] out@[k]).index == k && out@[k].score == 0
                    && out@[k].positions@.len() == 0,
            decreases items@.len() - i,
        {
            out.push(Match { index: i, score: 0, positions: Vec::new() });
            i += 1;
        }
        return out;
    }
    let ghost its = items@;
    let ghost q = query@;
    let mut i: usize = 0;
    while i < items.len()
        invariant
            i <= its.len(),
            its == items@,
            q == query@,
            out@.len() == fuzzy_hits(its.take(i as int), q).len(),
            forall|k: int| 0 <= k < out@.len() ==> fuzzy_hit(its, q, #[trigger] out@[k]),
            forall|k: int| 0 <= k < out@.len() ==> (#[trigger] out@[k]).index == fuzzy_hits(its.take(i as int), q)[k],
            forall|k: int| 0 <= k < out@.len() ==> (#[trigger] out@[k]).index < i,
            forall|j: int, k: int| 0 <= j < k < out@.len() ==> #[trigger] out@[j].index < #[trigger] out@[k].index,
            items_matchable(its),
        decreases its.len() - i,
    {
        proof {
            assert(its.take(i + 1).drop_last() =~= its.take(i as int));
            assert(its.take(i + 1).last() == its[i as int]);
        }
        match pattern_indices(matcher, query, items[i].as_str()) {
            Some((score, raw)) => {
                let positions = tidy(raw);
                let ghost prev = out@;
                out.push(Match { index: i, score, positions });
                proof {
                    assert(out@[prev.len() as int].index == i);
                    assert(fuzzy_hit(its, q, out@[prev.len() as int]));
                    assert forall|k: int| 0 <= k < out@.len() implies fuzzy_hit(its, q, #[trigger] out@[k]) by {
                        if k < prev.len() {
                            assert(out@[k] == prev[k]);
                        }
                    }
                }
            },
            None => {},
        }
        i += 1;
    }
    proof {
        assert(its.take(its.len() as int) =~= its);
    }
    if !sort {
        return out;
    }
    // Ranked: take the matches from the back, each into its place.
    let ghost all = out@;
    let mut ranked: Vec<Match> = Vec::new();
    while out.len() > 0
        invariant
            out@.len() + ranked@.len() == all.len(),
            out@ == all.take(out@.len() as int),
            forall|k: int| 0 <= k < all.len() ==> fuzzy_hit(its, q, #[trigger] all[k]),
            forall|j: int, k: int| 0 <= j < k < all.len() ==> #[trigger] all[j].index < #[trigger] all[k].index,
            forall|k: int| 0 <= k < ranked@.len() ==> fuzzy_hit(its, q, #[trigger] ranked@[k]),
            forall|j: int, k: int| 0 <= j < k < ranked@.len() ==> ranks_before(#[trigger] ranked@[j], #[trigger] ranked@[k]),
            forall|j: int, k: int| 0 <= j < out@.len() && 0 <= k < ranked@.len() ==> #[trigger] out@[j].index < #[trigger] ranked@[k].index,
        decreases out@.len(),
    {
        let ghost before_out = out@;
        let m = out.pop().unwrap();
        proof {
            assert(before_out =~= out@.push(m));
            assert(m == all[out@.len() as int]);
            assert(out@ =~= all.take(out@.len() as int));
            assert forall|j: int, k: int| 0 <= j < out@.len() && 0 <= k < ranked@.len() implies #[trigger] out@[j].index < #[trigger] ranked@[k].index by {
                assert(out@[j] == before_out[j]);
            }
            assert forall|k: int| 0 <= k < ranked@.len() implies m.index < #[trigger] ranked@[k].index by {
                assert(before_out[before_out.len() - 1] == m);
            }
        }
        let mut pos: usize = 0;
        while pos < ranked.len() && !(m.score > ranked[pos].score || (m.score == ranked[pos].score && m.index < ranked[pos].index))
            invariant
                pos <= ranked@.len(),
                forall|j: int| 0 <= j < pos ==> !ranks_before(m, #[trigger] ranked@[j]),
            decreases ranked@.len() - pos,
        {
            pos += 1;
        }
        let ghost before = ranked@;
        ranked.insert(pos, m);
        proof {
            assert(ranked@ == before.insert(pos as int, m));
            assert forall|a: int, b: int| 0 <= a < b < ranked@.len() implies ranks_before(#[trigger] ranked@[a], #[trigger] ranked@[b]) by {
                if a < pos && b == pos {
                    assert(!ranks_before(m, before[a]));
                    assert(m.index < before[a].index);
                } else if a == pos && b > pos {
                    assert(ranks_before(m, before[pos as int]));
                    if b - 1 > pos {
                        assert(ranks_before(before[pos as int], before[b - 1]));
                    }
                } else if a < pos && b > pos {
                    assert(ranks_before(before[a], before[b - 1]));
                } else if a > pos {
                    assert(ranks_before(before[a - 1], before[b - 1]));
                } else {
                    assert(ranks_before(before[a], before[b]));
                }
            }
            assert forall|k: int| 0 <= k < ranked@.len() implies fuzzy_hit(its, q, #[trigger] ranked@[k]) by {
                if k < pos {
                    assert(ranked@[k] == before[k]);
                } else if k > pos {
                    assert(ranked@[k] == before[k - 1]);
                }
            }
            assert forall|j: int, k: int| 0 <= j < out@.len() && 0 <= k < ranked@.len() implies #[trigger] out@[j].index < #[trigger] ranked@[k].index by {
                assert(out@[j] == all[j]);
                assert(all[j].index < all[out@.len() as int].index);
                if k < pos {
                    assert(ranked@[k] == before[k]);
                } else if k > pos {
                    assert(ranked@[k] == before[k - 1]);
                }
            }
        }
    }
    ranked
}

/// Fuzzy filtering for any items: `None` when an item is longer than
/// [`MAX_MATCH_CHARS`] (and the query is not empty, so matching runs).
pub fn fuzzy_filter_checked(matcher: &mut FuzzyMatcher, items: &[String], query: &str, sort: bool) -> (r: Option<Vec<Match>>)
    ensures
        r is Some <==> (query@.len() == 0 || items_matchable(items@)),
        r matches Some(v) ==> fuzzy_filtered(items@, query@, sort, v@),
{
    if !query.is_empty() {
        let mut i: usize = 0;
        while i < items.len()
            invariant
                i <= items@.len(),
                forall|k: int| 0 <= k < i ==> (#[trigger] items@[k])@.len() <= MAX_MATCH_CHARS,
                query@.len() > 0,
            decreases items@.len() - i,
        {
            if chars_of(items[i].as_str()).len() > MAX_MATCH_CHARS {
                proof {
                    let k = i as int;
                    assert(!((items@[k])@.len() <= MAX_MATCH_CHARS));
                    assert(!items_matchable(items@));
                }
                return None;
            }
            i += 1;
        }
    }
    Some(fuzzy_filter(matcher, items, query, sort))
}

} // verus!
