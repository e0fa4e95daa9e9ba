//! The measure of a union of half-open millisecond spans: how long at
//! least one of them was running, overlapping spans counted once.

use vstd::prelude::*;
use vstd::set_lib::{lemma_int_range, lemma_len_subset, set_int_range};

verus! {

/// The instants some span covers: `from <= t < to` for one of them.
pub open spec fn covered(s: Seq<(u64, u64)>) -> Set<int> {
    Set::new(|t: int| exists|i: int| 0 <= i < s.len() && #[trigger] s[i].0 <= t < s[i].1)
}

/// Spans inside `[lo, hi]`, none of them empty.
pub open spec fn spans_within(s: Seq<(u64, u64)>, lo: u64, hi: u64) -> bool {
    forall|i: int| 0 <= i < s.len() ==> lo <= #[trigger] s[i].0 < s[i].1 <= hi
}

/// Spans in order of their starts.
pub open spec fn by_start(s: Seq<(u64, u64)>) -> bool {
    forall|i: int, j: int| 0 <= i < j < s.len() ==> #[trigger] s[i].0 <= #[trigger] s[j].0
}

proof fn lemma_covered_within(s: Seq<(u64, u64)>, lo: u64, hi: u64)
    requires
        spans_within(s, lo, hi),
        lo <= hi,
    ensures
        covered(s).subset_of(set_int_range(lo as int, hi as int)),
        covered(s).finite(),
        covered(s).len() <= hi - lo,
{
    assert forall|t: int| covered(s).contains(t) implies set_int_range(lo as int, hi as int).contains(t) by {
        let i = choose|i: int| 0 <= i < s.len() && #[trigger] s[i].0 <= t < s[i].1;
    }
    lemma_int_range(lo as int, hi as int);
    lemma_len_subset(covered(s), set_int_range(lo as int, hi as int));
}

/// Sequences with the same members cover the same instants.
proof fn lemma_covered_same_members(a: Seq<(u64, u64)>, b: Seq<(u64, u64)>)
    requires
        forall|x: (u64, u64)| a.contains(x) <==> b.contains(x),
    ensures
        covered(a) == covered(b),
{
    assert forall|t: int| covered(a).contains(t) implies covered(b).contains(t) by {
        let i = choose|i: int| 0 <= i < a.len() && #[trigger] a[i].0 <= t < a[i].1;
        assert(a.contains(a[i]));
        let j = choose|j: int| 0 <= j < b.len() && b[j] == a[i];
        assert(b[j].0 <= t < b[j].1);
    }
    assert forall|t: int| covered(b).contains(t) implies covered(a).contains(t) by {
        let i = choose|i: int| 0 <= i < b.len() && #[trigger] b[i].0 <= t < b[i].1;
        assert(b.contains(b[i]));
        let j = choose|j: int| 0 <= j < a.len() && a[j] == b[i];
        assert(a[j].0 <= t < a[j].1);
    }
    assert(covered(a) =~= covered(b));
}

/// The spans ordered by their starts: the same spans, as members.
fn sort_by_start(v: Vec<(u64, u64)>) -> (r: Vec<(u64, u64)>)
    ensures
        by_start(r@),
        r@.len() == v@.len(),
        forall|x: (u64, u64)| v@.contains(x) <==> r@.contains(x),
{
    let mut out: Vec<(u64, u64)> = Vec::new();
    let mut i: usize = 0;
    while i < v.len()
        invariant
            i <= v@.len(),
            out@.len() == i,
            by_start(out@),
            forall|x: (u64, u64)| v@.take(i as int).contains(x) <==> out@.contains(x),
        decreases v@.len() - i,
    {
        let x = v[i];
        let mut pos: usize = 0;
        while pos < out.len() && out[pos].0 <= x.0
            invariant
                pos <= out@.len(),
                forall|j: int| 0 <= j < pos ==> #[trigger] out@[j].0 <= x.0,
            decreases out@.len() - pos,
        {
            pos += 1;
        }
        let ghost before = out@;
        out.insert(pos, x);
        proof {
            assert(out@ == before.insert(pos as int, x));
            assert forall|a: int, b: int| 0 <= a < b < out@.len() implies #[trigger] out@[a].0 <= #[trigger] out@[b].0 by {
                if pos < before.len() {
                    assert(x.0 < before[pos as int].0);
                }
                if a < pos && b == pos {
                    assert(before[a].0 <= x.0);
                } else if a == pos && b > pos {
                    assert(before[b - 1].0 >= before[pos as int].0);
                } else if a < pos && b > pos {
                    assert(before[a].0 <= before[b - 1].0);
                } else if a > pos {
                    assert(before[a - 1].0 <= before[b - 1].0);
                }
            }
            let pre = v@.take(i as int);
            let post = v@.take(i + 1);
            assert(post =~= pre.push(x));
            assert forall|y: (u64, u64)| post.contains(y) <==> out@.contains(y) by {
                if post.contains(y) {
                    let k = choose|k: int| 0 <= k < post.len() && post[k] == y;
                    if k < i {
                        assert(pre[k] == y);
                        assert(before.contains(y));
                        let m = choose|m: int| 0 <= m < before.len() && before[m] == y;
                        if m < pos {
                            assert(out@[m] == y);
                        } else {
                            assert(out@[m + 1] == y);
                        }
                    } else {
                        assert(out@[pos as int] == y);
                    }
                }
                if out@.contains(y) {
                    let m = choose|m: int| 0 <= m < out@.len() && out@[m] == y;
                    if m == pos {
                        assert(post[i as int] == y);
                    } else {
                        let mm = if m < pos { m } else { m - 1 };
                        assert(before[mm] == y);
                        assert(before.contains(y));
                        assert(pre.contains(y));
                        let k = choose|k: int| 0 <= k < pre.len() && pre[k] == y;
                        assert(post[k] == y);
                    }
                }
            }
        }
        i += 1;
    }
    proof {
        assert(v@.take(v@.len() as int) =~= v@);
    }
    out
}

/// How long at least one span ran: the number of instants the spans
/// cover, overlaps counted once.
pub fn union_len(spans: Vec<(u64, u64)>, lo: u64, hi: u64) -> (r: u64)
    requires
        lo <= hi,
        spans_within(spans@, lo, hi),
    ensures
        r == covered(spans@).len(),
        r <= hi - lo,
{
    let ghost given = spans@;
    let s = sort_by_start(spans);
    proof {
        lemma_covered_same_members(given, s@);
        lemma_covered_within(given, lo, hi);
        assert forall|i: int| 0 <= i < s@.len() implies lo <= #[trigger] s@[i].0 < s@[i].1 <= hi by {
            assert(s@.contains(s@[i]));
            let j = choose|j: int| 0 <= j < given.len() && given[j] == s@[i];
        }
    }
    if s.len() == 0 {
        proof {
            assert(covered(given) =~= Set::<int>::empty());
        }
        return 0;
    }
    // The spans before `i` cover `done` and `[mf, mt)`, `done` wholly
    // before `mf`.
    let mut busy: u64 = 0;
    let mut mf: u64 = s[0].0;
    let mut mt: u64 = s[0].0;
    let ghost mut done: Set<int> = Set::empty();
    let mut i: usize = 0;
    proof {
        assert(covered(s@.take(0)) =~= done + set_int_range(mf as int, mt as int));
    }
    while i < s.len()
        invariant
            i <= s@.len(),
            s@.len() > 0,
            lo <= hi,
            by_start(s@),
            spans_within(s@, lo, hi),
            lo <= mf <= mt <= hi,
            i < s@.len() ==> mf <= s@[i as int].0,
            done.finite(),
            done.len() == busy,
            forall|t: int| done.contains(t) ==> lo <= t < mf,
            covered(s@.take(i as int)) == done + set_int_range(mf as int, mt as int),
        decreases s@.len() - i,
    {
        let (f, t) = s[i];
        proof {
            assert(s@.take(i + 1) =~= s@.take(i as int).push((f, t)));
            lemma_covered_push(s@.take(i as int), f, t);
            lemma_int_range(mf as int, mt as int);
        }
        if f <= mt {
            let nt = if t > mt { t } else { mt };
            proof {
                assert(set_int_range(mf as int, mt as int) + set_int_range(f as int, t as int) =~= set_int_range(
                    mf as int,
                    nt as int,
                ));
                assert((done + set_int_range(mf as int, mt as int)) + set_int_range(f as int, t as int) =~= done
                    + set_int_range(mf as int, nt as int));
            }
            mt = nt;
        } else {
            proof {
                assert(done.disjoint(set_int_range(mf as int, mt as int)));
                vstd::set_lib::lemma_set_disjoint_lens(done, set_int_range(mf as int, mt as int));
                let nd = done + set_int_range(mf as int, mt as int);
                lemma_covered_within(s@.take(i as int), lo, hi);
                assert(nd.subset_of(set_int_range(lo as int, hi as int)));
                lemma_int_range(lo as int, hi as int);
                lemma_len_subset(nd, set_int_range(lo as int, hi as int));
                assert(nd + set_int_range(f as int, t as int) =~= (done + set_int_range(mf as int, mt as int))
                    + set_int_range(f as int, t as int));
                done = nd;
            }
            busy = busy + (mt - mf);
            mf = f;
            mt = t;
        }
        i += 1;
        proof {
            if i < s@.len() {
                assert(s@[i - 1].0 <= s@[i as int].0);
            }
        }
    }
    proof {
        assert(s@.take(s@.len() as int) =~= s@);
        lemma_int_range(mf as int, mt as int);
        assert(done.disjoint(set_int_range(mf as int, mt as int)));
        vstd::set_lib::lemma_set_disjoint_lens(done, set_int_range(mf as int, mt as int));
        lemma_covered_within(s@, lo, hi);
    }
    busy + (mt - mf)
}

/// One span more covers its own instants besides.
pub proof fn lemma_covered_push(s: Seq<(u64, u64)>, f: u64, t: u64)
    ensures
        covered(s.push((f, t))) == covered(s) + set_int_range(f as int, t as int),
{
    let p = s.push((f, t));
    let r = covered(s) + set_int_range(f as int, t as int);
    assert forall|x: int| covered(p).contains(x) implies r.contains(x) by {
        let i = choose|i: int| 0 <= i < p.len() && #[trigger] p[i].0 <= x < p[i].1;
        if i < s.len() {
            assert(s[i] == p[i]);
            assert(s[i].0 <= x < s[i].1);
            assert(covered(s).contains(x));
        } else {
            assert(p[i] == (f, t));
        }
    }
    assert forall|x: int| r.contains(x) implies covered(p).contains(x) by {
        if covered(s).contains(x) {
            let i = choose|i: int| 0 <= i < s.len() && #[trigger] s[i].0 <= x < s[i].1;
            assert(p[i] == s[i]);
            assert(p[i].0 <= x < p[i].1);
        } else {
            let n = s.len() as int;
            assert(p[n] == (f, t));
            assert(p[n].0 <= x < p[n].1);
        }
    }
    assert(covered(p) =~= r);
}

} // verus!
