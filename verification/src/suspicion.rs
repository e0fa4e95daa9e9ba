//! The loop-suspicion test: which panes are rewriting each other's
//! triggers. The windowed evidence comes from `WindowLog` and `PathLedger`;
//! the verdict is a graph question, answered over panes merged into one
//! node where attribution could not tell them apart.

use vstd::prelude::*;

use crate::registry::SourceId;
use crate::trigger::{
    arrivals_for, busy_instants, change_exogenous, change_view, containing_views, credit, credited, cutoff_of,
    history_at, in_window, increasing, kept, lemma_credited_views, lemma_kept_step, widths_of, Arrival, Bracket,
    Change, PathLedger, TriggerKey, WindowLog,
};

verus! {

// ---------------------------------------------------------------------
// The observed graph.

/// The first merged group that holds `id`.
pub open spec fn group_of(merged: Seq<Seq<SourceId>>, id: SourceId) -> Option<int>
    decreases merged.len(),
{
    if merged.len() == 0 {
        None
    } else {
        match group_of(merged.drop_last(), id) {
            Some(i) => Some(i),
            None => if merged.last().contains(id) {
                Some(merged.len() - 1)
            } else {
                None
            },
        }
    }
}

/// The smallest id of a group (`fallback` for an empty one); the first
/// of equals.
pub open spec fn least(g: Seq<SourceId>, fallback: SourceId) -> SourceId
    decreases g.len(),
{
    if g.len() == 0 {
        fallback
    } else if g.len() == 1 {
        g[0]
    } else {
        let m = least(g.drop_last(), fallback);
        if m.0 <= g.last().0 {
            m
        } else {
            g.last()
        }
    }
}

/// The graph node an id stands for: the smallest id of the first merged
/// group holding it, or the id itself when no group does.
pub open spec fn node_of(merged: Seq<Seq<SourceId>>, id: SourceId) -> SourceId {
    match group_of(merged, id) {
        Some(i) => least(merged[i], id),
        None => id,
    }
}

/// Whether `n` steps of the graph lead from node `a` to node `b`: each step
/// follows an edge whose writer stands for the node the step leaves.
pub open spec fn reach(edges: Seq<(SourceId, SourceId)>, merged: Seq<Seq<SourceId>>, a: SourceId, b: SourceId, n: nat) -> bool
    decreases n,
{
    if n == 0 {
        a == b
    } else {
        exists|k: int|
            #![trigger edges[k]]
            0 <= k < edges.len() && node_of(merged, edges[k].0) == a && reach(
                edges,
                merged,
                node_of(merged, edges[k].1),
                b,
                (n - 1) as nat,
            )
    }
}

/// Whether one edge leads from node `a` to node `b`.
pub open spec fn step(edges: Seq<(SourceId, SourceId)>, merged: Seq<Seq<SourceId>>, a: SourceId, b: SourceId) -> bool {
    exists|k: int|
        #![trigger edges[k]]
        0 <= k < edges.len() && node_of(merged, edges[k].0) == a && node_of(merged, edges[k].1) == b
}

/// Whether `b` lies one or more steps from `a`.
pub open spec fn beyond(edges: Seq<(SourceId, SourceId)>, merged: Seq<Seq<SourceId>>, a: SourceId, b: SourceId) -> bool {
    exists|n: nat| n >= 1 && #[trigger] reach(edges, merged, a, b, n)
}

/// Whether node `a` lies on a cycle: it can reach itself.
pub open spec fn on_cycle(edges: Seq<(SourceId, SourceId)>, merged: Seq<Seq<SourceId>>, a: SourceId) -> bool {
    beyond(edges, merged, a, a)
}

/// The members of each merged group.
pub open spec fn groups(merged: Seq<Vec<SourceId>>) -> Seq<Seq<SourceId>> {
    merged.map_values(|g: Vec<SourceId>| g@)
}

/// The node every edge leads to.
pub open spec fn targets(edges: Seq<(SourceId, SourceId)>, merged: Seq<Seq<SourceId>>) -> Seq<SourceId> {
    edges.map_values(|e: (SourceId, SourceId)| node_of(merged, e.1))
}

/// Non-decreasing ids.
pub open spec fn sorted_ids(v: Seq<SourceId>) -> bool {
    forall|i: int, j: int| 0 <= i < j < v.len() ==> #[trigger] v[i].0 <= #[trigger] v[j].0
}

proof fn lemma_reach_append(
    edges: Seq<(SourceId, SourceId)>,
    merged: Seq<Seq<SourceId>>,
    a: SourceId,
    b: SourceId,
    n: nat,
    k: int,
)
    requires
        reach(edges, merged, a, b, n),
        0 <= k < edges.len(),
        node_of(merged, edges[k].0) == b,
    ensures
        reach(edges, merged, a, node_of(merged, edges[k].1), n + 1),
    decreases n,
{
    let c = node_of(merged, edges[k].1);
    if n == 0 {
        assert(reach(edges, merged, c, c, 0));
    } else {
        let j = choose|j: int|
            #![trigger edges[j]]
            0 <= j < edges.len() && node_of(merged, edges[j].0) == a && reach(
                edges,
                merged,
                node_of(merged, edges[j].1),
                b,
                (n - 1) as nat,
            );
        lemma_reach_append(edges, merged, node_of(merged, edges[j].1), b, (n - 1) as nat, k);
        assert(reach(edges, merged, node_of(merged, edges[j].1), c, n));
    }
}

/// From a set closed under steps, every step leads back into the set.
proof fn lemma_closed_reach(
    edges: Seq<(SourceId, SourceId)>,
    merged: Seq<Seq<SourceId>>,
    seen: Seq<SourceId>,
    y: SourceId,
    z: SourceId,
    n: nat,
)
    requires
        seen.contains(y),
        reach(edges, merged, y, z, n),
        forall|x: SourceId, k: int|
            #![trigger seen.contains(x), edges[k]]
            seen.contains(x) && 0 <= k < edges.len() && node_of(merged, edges[k].0) == x ==> seen.contains(
                node_of(merged, edges[k].1),
            ),
    ensures
        seen.contains(z),
    decreases n,
{
    if n > 0 {
        let k = choose|k: int|
            #![trigger edges[k]]
            0 <= k < edges.len() && node_of(merged, edges[k].0) == y && reach(
                edges,
                merged,
                node_of(merged, edges[k].1),
                z,
                (n - 1) as nat,
            );
        lemma_closed_reach(edges, merged, seen, node_of(merged, edges[k].1), z, (n - 1) as nat);
    }
}

proof fn lemma_seen_bound(seen: Seq<SourceId>, t: Seq<SourceId>)
    requires
        seen.no_duplicates(),
        forall|i: int| 0 <= i < seen.len() ==> t.contains(#[trigger] seen[i]),
    ensures
        seen.len() <= t.len(),
{
    seen.unique_seq_to_set();
    t.lemma_cardinality_of_set();
    assert(seen.to_set().subset_of(t.to_set()));
    vstd::set_lib::lemma_len_subset(seen.to_set(), t.to_set());
}

/// The smallest id of a group.
fn least_of(g: &Vec<SourceId>, fallback: SourceId) -> (r: SourceId)
    ensures
        r == least(g@, fallback),
{
    let mut m = fallback;
    let mut i: usize = 0;
    while i < g.len()
        invariant
            i <= g@.len(),
            m == least(g@.take(i as int), fallback),
        decreases g@.len() - i,
    {
        proof {
            assert(g@.take(i + 1).drop_last() =~= g@.take(i as int));
        }
        if i == 0 {
            m = g[0];
        } else if g[i].0 < m.0 {
            m = g[i];
        }
        i += 1;
    }
    proof {
        assert(g@.take(g@.len() as int) =~= g@);
    }
    m
}

/// The graph node an id stands for.
fn node(merged: &Vec<Vec<SourceId>>, id: SourceId) -> (r: SourceId)
    ensures
        r == node_of(groups(merged@), id),
{
    let mut i: usize = 0;
    while i < merged.len()
        invariant
            i <= groups(merged@).len(),
            group_of(groups(merged@).take(i as int), id) is None,
        decreases groups(merged@).len() - i,
    {
        proof {
            assert(groups(merged@).take(i + 1).drop_last() =~= groups(merged@).take(i as int));
        }
        if contains_id(&merged[i], id) {
            proof {
                lemma_group_of_prefix(groups(merged@), (i + 1) as int, id);
            }
            return least_of(&merged[i], id);
        }
        i += 1;
    }
    proof {
        assert(groups(merged@).take(groups(merged@).len() as int) =~= groups(merged@));
    }
    id
}

/// A group found in a prefix is the group of the whole.
proof fn lemma_group_of_prefix(merged: Seq<Seq<SourceId>>, k: int, id: SourceId)
    requires
        0 <= k <= merged.len(),
        group_of(merged.take(k), id) is Some,
    ensures
        group_of(merged, id) == group_of(merged.take(k), id),
    decreases merged.len() - k,
{
    if k < merged.len() {
        assert(merged.take(k + 1).drop_last() =~= merged.take(k));
        lemma_group_of_prefix(merged, k + 1, id);
    } else {
        assert(merged.take(k) =~= merged);
    }
}

/// Whether a list holds an id.
fn contains_id(v: &Vec<SourceId>, id: SourceId) -> (r: bool)
    ensures
        r == v@.contains(id),
{
    let mut i: usize = 0;
    while i < v.len()
        invariant
            i <= v@.len(),
            forall|j: int| 0 <= j < i ==> v@[j] != id,
        decreases v@.len() - i,
    {
        if v[i] == id {
            return true;
        }
        i += 1;
    }
    false
}

/// The nodes one step from `x`, each time an edge leaves it.
fn successors(edges: &Vec<(SourceId, SourceId)>, merged: &Vec<Vec<SourceId>>, x: SourceId) -> (r: Vec<SourceId>)
    ensures
        forall|i: int| 0 <= i < r@.len() ==> targets(edges@, groups(merged@)).contains(#[trigger] r@[i]),
        forall|i: int| 0 <= i < r@.len() ==> step(edges@, groups(merged@), x, #[trigger] r@[i]),
        forall|k: int|
            #![trigger edges@[k]]
            0 <= k < edges@.len() && node_of(groups(merged@), edges@[k].0) == x ==> r@.contains(
                node_of(groups(merged@), edges@[k].1),
            ),
{
    let ghost t = targets(edges@, groups(merged@));
    let mut out: Vec<SourceId> = Vec::new();
    let mut k: usize = 0;
    while k < edges.len()
        invariant
            k <= edges@.len(),
            t == targets(edges@, groups(merged@)),
            forall|i: int| 0 <= i < out@.len() ==> t.contains(#[trigger] out@[i]),
            forall|i: int| 0 <= i < out@.len() ==> step(edges@, groups(merged@), x, #[trigger] out@[i]),
            forall|j: int|
                #![trigger edges@[j]]
                0 <= j < k && node_of(groups(merged@), edges@[j].0) == x ==> out@.contains(
                    node_of(groups(merged@), edges@[j].1),
                ),
        decreases edges@.len() - k,
    {
        let from = node(merged, edges[k].0);
        if from == x {
            let to = node(merged, edges[k].1);
            proof {
                assert(t[k as int] == to);
            }
            let ghost prev = out@;
            out.push(to);
            proof {
                assert(out@ == prev.push(to));
                assert(out@[prev.len() as int] == to);
                assert forall|i: int| 0 <= i < out@.len() implies step(edges@, groups(merged@), x, #[trigger] out@[i]) by {
                    if i < prev.len() {
                        assert(prev[i] == out@[i]);
                    } else {
                        assert(node_of(groups(merged@), edges@[k as int].0) == x && node_of(groups(merged@), edges@[k as int].1)
                            == out@[i]);
                    }
                }
                assert forall|j: int|
                    #![trigger edges@[j]]
                    0 <= j < k + 1 && node_of(groups(merged@), edges@[j].0) == x implies out@.contains(
                    node_of(groups(merged@), edges@[j].1),
                ) by {
                    if j < k {
                        let w = node_of(groups(merged@), edges@[j].1);
                        assert(prev.contains(w));
                        let i = choose|i: int| 0 <= i < prev.len() && prev[i] == w;
                        assert(out@[i] == w);
                    } else {
                        assert(out@[prev.len() as int] == to);
                    }
                }
                assert forall|i: int| 0 <= i < out@.len() implies t.contains(#[trigger] out@[i]) by {
                    if i < prev.len() {
                        assert(prev[i] == out@[i]);
                    }
                }
            }
        }
        k += 1;
    }
    out
}

/// Whether node `start` can reach itself: a depth-first walk from its
/// successors that stops when it comes back.
fn cyclic_from(edges: &Vec<(SourceId, SourceId)>, merged: &Vec<Vec<SourceId>>, start: SourceId) -> (r: bool)
    ensures
        r == on_cycle(edges@, groups(merged@), start),
{
    let ghost es = edges@;
    let ghost ms = groups(merged@);
    let ghost t = targets(es, ms);
    let mut stack = successors(edges, merged, start);
    let mut seen: Vec<SourceId> = Vec::new();
    let mut cyclic = false;
    proof {
        assert forall|i: int| 0 <= i < stack@.len() implies beyond(es, ms, start, #[trigger] stack@[i]) by {
            assert(step(es, ms, start, stack@[i]));
            let k = choose|k: int|
                #![trigger es[k]]
                0 <= k < es.len() && node_of(ms, es[k].0) == start && node_of(ms, es[k].1) == stack@[i];
            assert(reach(es, ms, stack@[i], stack@[i], 0));
            assert(reach(es, ms, start, stack@[i], 1));
        }
    }
    while !cyclic && stack.len() > 0
        invariant
            es == edges@,
            ms == groups(merged@),
            t == targets(es, ms),
            t.len() == es.len(),
            forall|i: int| 0 <= i < stack@.len() ==> t.contains(#[trigger] stack@[i]),
            forall|i: int| 0 <= i < seen@.len() ==> t.contains(#[trigger] seen@[i]),
            forall|i: int| 0 <= i < stack@.len() ==> beyond(es, ms, start, #[trigger] stack@[i]),
            forall|i: int| 0 <= i < seen@.len() ==> beyond(es, ms, start, #[trigger] seen@[i]),
            seen@.no_duplicates(),
            seen@.len() <= es.len(),
            !seen@.contains(start),
            cyclic ==> on_cycle(es, ms, start),
            !cyclic ==> forall|x: SourceId, k: int|
                #![trigger seen@.contains(x), es[k]]
                seen@.contains(x) && 0 <= k < es.len() && node_of(ms, es[k].0) == x ==> seen@.contains(
                    node_of(ms, es[k].1),
                ) || stack@.contains(node_of(ms, es[k].1)),
            !cyclic ==> forall|k: int|
                #![trigger es[k]]
                0 <= k < es.len() && node_of(ms, es[k].0) == start ==> seen@.contains(node_of(ms, es[k].1))
                    || stack@.contains(node_of(ms, es[k].1)),
        decreases es.len() - seen@.len(), stack@.len(),
    {
        let ghost before = stack@;
        let current = stack.pop().unwrap();
        proof {
            assert(before =~= stack@.push(current));
            assert(beyond(es, ms, start, before[before.len() - 1]));
            assert forall|y: SourceId| before.contains(y) && y != current implies stack@.contains(y) by {
                let i = choose|i: int| 0 <= i < before.len() && before[i] == y;
                assert(stack@[i] == y);
            }
        }
        let ghost mid = stack@;
        if current == start {
            cyclic = true;
        } else if contains_id(&seen, current) {
            proof {
                assert forall|x: SourceId, k: int|
                    #![trigger seen@.contains(x), es[k]]
                    seen@.contains(x) && 0 <= k < es.len() && node_of(ms, es[k].0) == x implies seen@.contains(
                        node_of(ms, es[k].1),
                    ) || stack@.contains(node_of(ms, es[k].1)) by {
                    let w = node_of(ms, es[k].1);
                    if !seen@.contains(w) {
                        assert(before.contains(w));
                    }
                }
                assert forall|k: int|
                    #![trigger es[k]]
                    0 <= k < es.len() && node_of(ms, es[k].0) == start implies seen@.contains(node_of(ms, es[k].1))
                        || stack@.contains(node_of(ms, es[k].1)) by {
                    let w = node_of(ms, es[k].1);
                    if !seen@.contains(w) {
                        assert(before.contains(w));
                    }
                }
            }
        } else {
            let ghost old_seen = seen@;
            seen.push(current);
            proof {
                assert(seen@ == old_seen.push(current));
                assert(seen@[old_seen.len() as int] == current);
                assert forall|i: int, j: int| 0 <= i < j < seen@.len() implies seen@[i] != seen@[j] by {
                    if j == seen@.len() - 1 {
                        assert(old_seen.contains(seen@[i]));
                    }
                }
                assert(t.contains(current));
                lemma_seen_bound(seen@, t);
                assert forall|y: SourceId| seen@.contains(y) implies old_seen.contains(y) || y == current by {
                    let i = choose|i: int| 0 <= i < seen@.len() && seen@[i] == y;
                    if i < old_seen.len() {
                        assert(old_seen[i] == y);
                    }
                }
                assert forall|y: SourceId| old_seen.contains(y) implies seen@.contains(y) by {
                    let i = choose|i: int| 0 <= i < old_seen.len() && old_seen[i] == y;
                    assert(seen@[i] == y);
                }
            }
            let more = successors(edges, merged, current);
            let ghost base = stack@;
            let mut m: usize = 0;
            while m < more.len()
                invariant
                    m <= more@.len(),
                    stack@ == base + more@.take(m as int),
                decreases more@.len() - m,
            {
                proof {
                    assert(more@.take(m + 1) =~= more@.take(m as int).push(more@[m as int]));
                }
                stack.push(more[m]);
                m += 1;
            }
            proof {
                assert(more@.take(more@.len() as int) =~= more@);
                assert forall|y: SourceId| base.contains(y) implies stack@.contains(y) by {
                    let i = choose|i: int| 0 <= i < base.len() && base[i] == y;
                    assert(stack@[i] == y);
                }
                assert forall|y: SourceId| more@.contains(y) implies stack@.contains(y) by {
                    let i = choose|i: int| 0 <= i < more@.len() && more@[i] == y;
                    assert(stack@[base.len() + i] == y);
                }
                assert forall|i: int| 0 <= i < stack@.len() implies beyond(es, ms, start, #[trigger] stack@[i]) by {
                    if i >= base.len() {
                        let y = stack@[i];
                        assert(more@[i - base.len()] == y);
                        assert(step(es, ms, current, more@[i - base.len()]));
                        let k = choose|k: int|
                            #![trigger es[k]]
                            0 <= k < es.len() && node_of(ms, es[k].0) == current && node_of(ms, es[k].1) == y;
                        let n = choose|n: nat| n >= 1 && #[trigger] reach(es, ms, start, current, n);
                        lemma_reach_append(es, ms, start, current, n, k);
                        assert(reach(es, ms, start, y, n + 1));
                    } else {
                        assert(base[i] == stack@[i]);
                    }
                }
                assert forall|i: int| 0 <= i < stack@.len() implies t.contains(#[trigger] stack@[i]) by {
                    if i >= base.len() {
                        assert(more@[i - base.len()] == stack@[i]);
                    } else {
                        assert(base[i] == stack@[i]);
                    }
                }
                assert forall|x: SourceId, k: int|
                    #![trigger seen@.contains(x), es[k]]
                    seen@.contains(x) && 0 <= k < es.len() && node_of(ms, es[k].0) == x implies seen@.contains(
                        node_of(ms, es[k].1),
                    ) || stack@.contains(node_of(ms, es[k].1)) by {
                    let w = node_of(ms, es[k].1);
                    if x == current {
                        assert(more@.contains(w));
                    } else {
                        assert(old_seen.contains(x));
                        if !old_seen.contains(w) && w != current {
                            assert(before.contains(w));
                            assert(base.contains(w));
                        }
                        if w == current {
                            assert(seen@.contains(current));
                        }
                    }
                }
                assert forall|k: int|
                    #![trigger es[k]]
                    0 <= k < es.len() && node_of(ms, es[k].0) == start implies seen@.contains(node_of(ms, es[k].1))
                        || stack@.contains(node_of(ms, es[k].1)) by {
                    let w = node_of(ms, es[k].1);
                    if !old_seen.contains(w) && w != current {
                        assert(before.contains(w));
                        assert(base.contains(w));
                    }
                    if w == current {
                        assert(seen@.contains(current));
                    }
                }
            }
        }
    }
    proof {
        if !cyclic && on_cycle(es, ms, start) {
            let n = choose|n: nat| n >= 1 && #[trigger] reach(es, ms, start, start, n);
            let k = choose|k: int|
                #![trigger es[k]]
                0 <= k < es.len() && node_of(ms, es[k].0) == start && reach(
                    es,
                    ms,
                    node_of(ms, es[k].1),
                    start,
                    (n - 1) as nat,
                );
            assert(seen@.contains(node_of(ms, es[k].1)));
            lemma_closed_reach(es, ms, seen@, node_of(ms, es[k].1), start, (n - 1) as nat);
        }
    }
    cyclic
}


/// The candidates whose node lies on a cycle, in order.
pub open spec fn cyclic_sources(cands: Seq<SourceId>, edges: Seq<(SourceId, SourceId)>, merged: Seq<Seq<SourceId>>) -> Seq<SourceId>
    decreases cands.len(),
{
    if cands.len() == 0 {
        Seq::empty()
    } else {
        let rest = cyclic_sources(cands.drop_last(), edges, merged);
        if on_cycle(edges, merged, node_of(merged, cands.last())) {
            rest.push(cands.last())
        } else {
            rest
        }
    }
}

/// Inserting one element adds it to the multiset.
pub proof fn lemma_insert_multiset<A>(s: Seq<A>, pos: int, x: A)
    requires
        0 <= pos <= s.len(),
    ensures
        s.insert(pos, x).to_multiset() =~= s.to_multiset().insert(x),
{
    broadcast use vstd::seq_lib::group_to_multiset_ensures;
    broadcast use vstd::multiset::group_multiset_axioms;

    let a = s.take(pos);
    let b = s.skip(pos);
    assert(s =~= a + b);
    assert(s.insert(pos, x) =~= a.push(x) + b);
    vstd::seq_lib::lemma_multiset_commutative(a.push(x), b);
    vstd::seq_lib::lemma_multiset_commutative(a, b);
    assert(a.push(x).to_multiset() =~= a.to_multiset().insert(x));
}

/// The sources on a cycle of the observed graph, in increasing order. A
/// merged group is one node, so its self-edge is a cycle: when two panes'
/// children overlap so much that either could have written either path,
/// the collapse is the loop.
fn on_a_cycle(candidates: &Vec<SourceId>, edges: &Vec<(SourceId, SourceId)>, merged: &Vec<Vec<SourceId>>) -> (r: Vec<SourceId>)
    ensures
        sorted_ids(r@),
        r@.to_multiset() == cyclic_sources(candidates@, edges@, groups(merged@)).to_multiset(),
{
    let ghost g = groups(merged@);
    let mut out: Vec<SourceId> = Vec::new();
    let mut i: usize = 0;
    while i < candidates.len()
        invariant
            i <= candidates@.len(),
            g == groups(merged@),
            sorted_ids(out@),
            out@.to_multiset() == cyclic_sources(candidates@.take(i as int), edges@, g).to_multiset(),
        decreases candidates@.len() - i,
    {
        let c = candidates[i];
        let ghost pre = candidates@.take(i as int);
        let ghost post = candidates@.take(i + 1);
        proof {
            assert(post.drop_last() =~= pre);
            assert(post.last() == c);
        }
        let start = node(merged, c);
        if cyclic_from(edges, merged, start) {
            let mut pos: usize = 0;
            while pos < out.len() && out[pos].0 <= c.0
                invariant
                    pos <= out@.len(),
                    forall|j: int| 0 <= j < pos ==> #[trigger] out@[j].0 <= c.0,
                decreases out@.len() - pos,
            {
                pos += 1;
            }
            let ghost before = out@;
            out.insert(pos, c);
            proof {
                assert(out@ == before.insert(pos as int, c));
                lemma_insert_multiset(before, pos as int, c);
                assert(cyclic_sources(post, edges@, g) == cyclic_sources(pre, edges@, g).push(c));
                broadcast use vstd::seq_lib::group_to_multiset_ensures;
                assert(cyclic_sources(pre, edges@, g).push(c).to_multiset() =~= cyclic_sources(pre, edges@, g).to_multiset().insert(c));
                assert forall|a: int, b: int| 0 <= a < b < out@.len() implies #[trigger] out@[a].0 <= #[trigger] out@[b].0 by {
                    if pos < before.len() {
                        assert(c.0 < before[pos as int].0);
                    }
                    if a < pos && b == pos {
                        assert(before[a].0 <= c.0);
                    } else if a == pos && b > pos {
                        assert(before[b - 1].0 >= before[pos as int].0);
                    } else if a < pos && b > pos {
                        assert(before[a].0 <= before[b - 1].0);
                    } else if a > pos {
                        assert(before[a - 1].0 <= before[b - 1].0);
                    }
                }
            }
        } else {
            proof {
                assert(cyclic_sources(post, edges@, g) == cyclic_sources(pre, edges@, g));
            }
        }
        i += 1;
    }
    proof {
        assert(candidates@.take(candidates@.len() as int) =~= candidates@);
    }
    out
}


// ---------------------------------------------------------------------
// The evidence.

/// Who the credit rule credits with writing a path whose changes saw these
/// containing lists (it reads nothing else of a change).
pub open spec fn credited_by(views: Seq<Seq<(SourceId, u64)>>, id: SourceId) -> bool {
    exists|cs: Seq<Change>| containing_views(cs) == views && #[trigger] credited(cs, id)
}

/// The credited writers, in increasing order.
pub open spec fn credit_list(views: Seq<Seq<(SourceId, u64)>>) -> Seq<SourceId> {
    choose|v: Seq<SourceId>| increasing(v) && forall|id: SourceId| v.contains(id) <==> credited_by(views, id)
}

proof fn lemma_increasing_unique(a: Seq<SourceId>, b: Seq<SourceId>)
    requires
        increasing(a),
        increasing(b),
        forall|x: SourceId| a.contains(x) <==> b.contains(x),
    ensures
        a == b,
    decreases a.len(),
{
    if a.len() == 0 {
        if b.len() > 0 {
            assert(b.contains(b[0]));
        }
        assert(a =~= b);
    } else {
        assert(a.contains(a[0]));
        assert(b.len() > 0);
        assert(b.contains(b[0]));
        let j = choose|j: int| 0 <= j < b.len() && b[j] == a[0];
        let i = choose|i: int| 0 <= i < a.len() && a[i] == b[0];
        if i > 0 {
            assert(a[0].0 < a[i].0);
        }
        if j > 0 {
            assert(b[0].0 < b[j].0);
        }
        assert(a[0] == b[0]);
        let ta = a.drop_first();
        let tb = b.drop_first();
        assert forall|x: SourceId| ta.contains(x) <==> tb.contains(x) by {
            if ta.contains(x) {
                let k = choose|k: int| 0 <= k < ta.len() && ta[k] == x;
                assert(a[k + 1] == x);
                assert(a[0].0 < x.0);
                assert(b.contains(x));
                let m = choose|m: int| 0 <= m < b.len() && b[m] == x;
                assert(m != 0);
                assert(tb[m - 1] == x);
            }
            if tb.contains(x) {
                let k = choose|k: int| 0 <= k < tb.len() && tb[k] == x;
                assert(b[k + 1] == x);
                assert(b[0].0 < x.0);
                assert(a.contains(x));
                let m = choose|m: int| 0 <= m < a.len() && a[m] == x;
                assert(m != 0);
                assert(ta[m - 1] == x);
            }
        }
        assert forall|p: int, q: int| 0 <= p < q < ta.len() implies #[trigger] ta[p].0 < #[trigger] ta[q].0 by {
            assert(ta[p] == a[p + 1] && ta[q] == a[q + 1]);
        }
        assert forall|p: int, q: int| 0 <= p < q < tb.len() implies #[trigger] tb[p].0 < #[trigger] tb[q].0 by {
            assert(tb[p] == b[p + 1] && tb[q] == b[q + 1]);
        }
        lemma_increasing_unique(ta, tb);
        assert(a =~= seq![a[0]] + ta);
        assert(b =~= seq![b[0]] + tb);
    }
}

/// What `credit` returns is the credit list of its changes' views.
proof fn lemma_credit_list(changes: Seq<Change>, r: Seq<SourceId>)
    requires
        increasing(r),
        forall|id: SourceId| r.contains(id) <==> credited(changes, id),
    ensures
        r == credit_list(containing_views(changes)),
{
    let views = containing_views(changes);
    assert forall|id: SourceId| r.contains(id) <==> credited_by(views, id) by {
        if credited_by(views, id) {
            let cs = choose|cs: Seq<Change>| containing_views(cs) == views && #[trigger] credited(cs, id);
            lemma_credited_views(cs, changes, id);
        }
        if r.contains(id) {
            assert(credited(changes, id));
        }
    }
    let v = credit_list(views);
    assert(increasing(v) && forall|id: SourceId| v.contains(id) <==> credited_by(views, id));
    lemma_increasing_unique(r, v);
}

/// The containing lists of a watched path's recorded changes.
pub open spec fn path_views(lv: Map<Seq<char>, Seq<(u64, Seq<(SourceId, u64)>)>>, p: Seq<char>) -> Seq<Seq<(SourceId, u64)>> {
    history_at(lv, p).map_values(|c: (u64, Seq<(SourceId, u64)>)| c.1)
}

/// The containing lists of a reader's arrivals whose brackets have all
/// closed, in order: one still open is deferred.
pub open spec fn reader_views(bs: Seq<Bracket>, arrs: Seq<Arrival>) -> Seq<Seq<(SourceId, u64)>>
    decreases arrs.len(),
{
    if arrs.len() == 0 {
        Seq::empty()
    } else {
        let rest = reader_views(bs, arrs.drop_last());
        match widths_of(bs, arrs.last().containing@) {
            Some(w) => rest.push(w),
            None => rest,
        }
    }
}

/// A pane's credited lists in the order the test meets them: its watched
/// paths, then its readers.
pub open spec fn pane_lists(
    pane: PaneWindow,
    lv: Map<Seq<char>, Seq<(u64, Seq<(SourceId, u64)>)>>,
    bs: Seq<Bracket>,
    arrs: Seq<Arrival>,
) -> Seq<Seq<SourceId>> {
    watched_lists(pane, lv) + reader_lists(pane, bs, arrs)
}

pub open spec fn watched_lists(pane: PaneWindow, lv: Map<Seq<char>, Seq<(u64, Seq<(SourceId, u64)>)>>) -> Seq<Seq<SourceId>> {
    pane.watched@.map_values(|p: String| credit_list(path_views(lv, p@)))
}

pub open spec fn reader_lists(pane: PaneWindow, bs: Seq<Bracket>, arrs: Seq<Arrival>) -> Seq<Seq<SourceId>> {
    pane.readers@.map_values(|k: TriggerKey| credit_list(reader_views(bs, arrivals_for(arrs, k.0@))))
}

/// An edge from each credited writer to the watcher.
pub open spec fn lists_edges(ls: Seq<Seq<SourceId>>, watcher: SourceId) -> Seq<(SourceId, SourceId)>
    decreases ls.len(),
{
    if ls.len() == 0 {
        Seq::empty()
    } else {
        lists_edges(ls.drop_last(), watcher) + ls.last().map_values(|w: SourceId| (w, watcher))
    }
}

/// The lists that credit more than one writer: attribution could not tell
/// them apart.
pub open spec fn lists_groups(ls: Seq<Seq<SourceId>>) -> Seq<Seq<SourceId>>
    decreases ls.len(),
{
    if ls.len() == 0 {
        Seq::empty()
    } else if ls.last().len() > 1 {
        lists_groups(ls.drop_last()).push(ls.last())
    } else {
        lists_groups(ls.drop_last())
    }
}

/// Every candidate's edges, in order.
pub open spec fn graph_edges(
    cands: Seq<PaneWindow>,
    lv: Map<Seq<char>, Seq<(u64, Seq<(SourceId, u64)>)>>,
    bs: Seq<Bracket>,
    arrs: Seq<Arrival>,
) -> Seq<(SourceId, SourceId)>
    decreases cands.len(),
{
    if cands.len() == 0 {
        Seq::empty()
    } else {
        graph_edges(cands.drop_last(), lv, bs, arrs) + lists_edges(
            pane_lists(cands.last(), lv, bs, arrs),
            cands.last().source,
        )
    }
}

/// Every candidate's merged groups, in order.
pub open spec fn graph_groups(
    cands: Seq<PaneWindow>,
    lv: Map<Seq<char>, Seq<(u64, Seq<(SourceId, u64)>)>>,
    bs: Seq<Bracket>,
    arrs: Seq<Arrival>,
) -> Seq<Seq<SourceId>>
    decreases cands.len(),
{
    if cands.len() == 0 {
        Seq::empty()
    } else {
        graph_groups(cands.drop_last(), lv, bs, arrs) + lists_groups(pane_lists(cands.last(), lv, bs, arrs))
    }
}

/// How many of a path's recorded changes no child was in flight for.
pub open spec fn exogenous_count(lv: Map<Seq<char>, Seq<(u64, Seq<(SourceId, u64)>)>>, p: Seq<char>) -> nat {
    kept(history_at(lv, p), change_exogenous()).len()
}

/// Condition 2: the pane watches something, and every trigger it watches
/// recorded no exogenous observation.
pub open spec fn closed_everywhere(
    pane: PaneWindow,
    lv: Map<Seq<char>, Seq<(u64, Seq<(SourceId, u64)>)>>,
    arrs: Seq<Arrival>,
) -> bool {
    &&& (pane.watched@.len() > 0 || pane.readers@.len() > 0)
    &&& forall|i: int| 0 <= i < pane.watched@.len() ==> exogenous_count(lv, #[trigger] pane.watched@[i]@) == 0
    &&& forall|i: int, j: int|
        0 <= i < pane.readers@.len() && 0 <= j < arrivals_for(arrs, pane.readers@[i].0@).len() ==> #[trigger] arrivals_for(
            arrs,
            #[trigger] pane.readers@[i].0@,
        )[j].containing@.len() > 0
}

/// The panes the graph test considers: enough trigger respawns, and closed.
pub open spec fn candidate_pred(
    min_respawns: usize,
    lv: Map<Seq<char>, Seq<(u64, Seq<(SourceId, u64)>)>>,
    arrs: Seq<Arrival>,
) -> spec_fn(PaneWindow) -> bool {
    |p: PaneWindow| p.trigger_respawns >= min_respawns && closed_everywhere(p, lv, arrs)
}

/// Whether the window ran busy enough to abstain: at least `permille`
/// thousandths of it had a child in flight.
pub open spec fn busy_at_or_above(busy: nat, window: u64, permille: u64) -> bool {
    window > 0 && busy * 1000 >= permille * window
}

/// How long any child was in flight over the log's window.
pub open spec fn busy_of(log: WindowLog, now: u64) -> nat {
    match cutoff_of(log.window_of(), now) {
        None => 0,
        Some(start) => busy_instants(log.brackets_of(), start, now).len(),
    }
}

/// Condition 3: the test abstains when a reader lost evidence inside the
/// window, or the window ran too busy for silence to mean anything.
pub open spec fn abstains(log: WindowLog, now: u64, permille: u64) -> bool {
    ||| exists|i: int|
        0 <= i < log.overflows_of().len() && in_window(
            #[trigger] log.overflows_of()[i],
            cutoff_of(log.window_of(), now),
        )
    ||| busy_at_or_above(busy_of(log, now), log.window_of(), permille)
}

/// The suspicion test's thresholds. None of them is user-facing: under
/// report-only a false positive is cosmetic.
#[derive(Clone, Copy, Debug)]
pub struct LoopSuspicion {
    /// Milliseconds.
    pub window: u64,
    pub min_respawns: usize,
    /// Abstain when at least this many thousandths of the window had a
    /// child in flight.
    pub abstain_permille: u64,
}

impl Default for LoopSuspicion {
    fn default() -> (r: LoopSuspicion)
        ensures
            r.window == 30_000 && r.min_respawns == 50 && r.abstain_permille == 500,
    {
        LoopSuspicion { window: 30_000, min_respawns: 50, abstain_permille: 500 }
    }
}

/// One pane's windowed facts, assembled by the loop. Every count is already
/// restricted to the window by `WindowLog`.
#[derive(Clone, Debug)]
pub struct PaneWindow {
    pub source: SourceId,
    pub trigger_respawns: usize,
    /// Its `file:` paths, read through the ledger.
    pub watched: Vec<String>,
    /// Its fifo and fd triggers, read through the log's arrivals.
    pub readers: Vec<TriggerKey>,
}

/// What the test says.
#[derive(Clone, Debug, PartialEq, Eq)]
pub struct Verdict {
    /// The implicated panes, in increasing order; empty when nothing is
    /// suspected.
    pub panes: Vec<SourceId>,
    /// Present only where attribution was precise enough to order them.
    pub ordered: Option<Vec<SourceId>>,
    /// The test declined to answer: not the same as finding nothing.
    pub abstained: bool,
}

pub open spec fn sources_of(ps: Seq<PaneWindow>) -> Seq<SourceId> {
    ps.map_values(|p: PaneWindow| p.source)
}

/// Whether no merged group holds more than one id.
pub open spec fn precise(gs: Seq<Seq<SourceId>>) -> bool {
    forall|i: int| 0 <= i < gs.len() ==> #[trigger] gs[i].len() <= 1
}

/// Record a credited list: an edge from each writer to the watcher, and a
/// merged group when it names more than one.
fn record_credit(edges: &mut Vec<(SourceId, SourceId)>, merged: &mut Vec<Vec<SourceId>>, credited: &Vec<SourceId>, watcher: SourceId)
    ensures
        final(edges)@ == old(edges)@ + credited@.map_values(|w: SourceId| (w, watcher)),
        groups(final(merged)@) == groups(old(merged)@) + (if credited@.len() > 1 {
            seq![credited@]
        } else {
            Seq::empty()
        }),
{
    let ghost e0 = edges@;
    let mut i: usize = 0;
    while i < credited.len()
        invariant
            i <= credited@.len(),
            edges@ == e0 + credited@.take(i as int).map_values(|w: SourceId| (w, watcher)),
        decreases credited@.len() - i,
    {
        proof {
            assert(credited@.take(i + 1).map_values(|w: SourceId| (w, watcher)) =~= credited@.take(i as int).map_values(
                |w: SourceId| (w, watcher),
            ).push((credited@[i as int], watcher)));
        }
        edges.push((credited[i], watcher));
        i += 1;
    }
    proof {
        assert(credited@.take(credited@.len() as int) =~= credited@);
    }
    let ghost m0 = merged@;
    if credited.len() > 1 {
        let mut copy: Vec<SourceId> = Vec::new();
        let mut j: usize = 0;
        while j < credited.len()
            invariant
                j <= credited@.len(),
                copy@ == credited@.take(j as int),
            decreases credited@.len() - j,
        {
            proof {
                assert(credited@.take(j + 1) =~= credited@.take(j as int).push(credited@[j as int]));
            }
            copy.push(credited[j]);
            j += 1;
        }
        proof {
            assert(credited@.take(credited@.len() as int) =~= credited@);
        }
        merged.push(copy);
        proof {
            assert(groups(merged@) =~= groups(m0) + seq![credited@]);
        }
    } else {
        proof {
            assert(groups(merged@) =~= groups(m0) + Seq::<Seq<SourceId>>::empty());
        }
    }
}


impl LoopSuspicion {
    /// A reader route's arrivals, in the shape the credit rule takes. An
    /// arrival whose covering bracket is still open is deferred: it resolves
    /// once that bracket closes.
    pub fn arrival_changes(log: &WindowLog, key: &TriggerKey) -> (r: Vec<Change>)
        ensures
            containing_views(r@) == reader_views(log.brackets_of(), arrivals_for(log.arrivals_of(), key.0@)),
    {
        let arrs = log.arrivals(key);
        let ghost av = arrivals_for(log.arrivals_of(), key.0@);
        let ghost bs = log.brackets_of();
        let mut out: Vec<Change> = Vec::new();
        let mut i: usize = 0;
        while i < arrs.len()
            invariant
                i <= arrs@.len(),
                arrs@.len() == av.len(),
                av == arrivals_for(log.arrivals_of(), key.0@),
                bs == log.brackets_of(),
                forall|j: int| 0 <= j < arrs@.len() ==> *#[trigger] arrs@[j] == av[j],
                containing_views(out@) == reader_views(bs, av.take(i as int)),
            decreases arrs@.len() - i,
        {
            let a = arrs[i];
            proof {
                assert(av.take(i + 1).drop_last() =~= av.take(i as int));
                assert(av.take(i + 1).last() == av[i as int]);
                assert(*a == av[i as int]);
            }
            match log.widths(a) {
                Some(w) => {
                    let ghost prev = out@;
                    out.push(Change { at: a.at, containing: w });
                    proof {
                        assert(containing_views(out@) =~= containing_views(prev).push(out@[prev.len() as int].containing@));
                    }
                },
                None => {},
            }
            i += 1;
        }
        proof {
            assert(av.take(av.len() as int) =~= av);
        }
        out
    }

    /// Condition 2: every trigger this pane watches recorded no exogenous
    /// observation. One is enough to say the path has an outside writer;
    /// a pane watching nothing has no evidence either way.
    fn closed_everywhere(&self, ledger: &PathLedger, log: &WindowLog, pane: &PaneWindow) -> (r: bool)
        requires
            ledger.wf(),
        ensures
            r == closed_everywhere(*pane, ledger.changes_view(), log.arrivals_of()),
    {
        let ghost lv = ledger.changes_view();
        let ghost arrs = log.arrivals_of();
        let mut files_closed = true;
        let mut i: usize = 0;
        while i < pane.watched.len()
            invariant
                i <= pane.watched@.len(),
                ledger.wf(),
                lv == ledger.changes_view(),
                files_closed == forall|j: int| 0 <= j < i ==> exogenous_count(lv, #[trigger] pane.watched@[j]@) == 0,
            decreases pane.watched@.len() - i,
        {
            if ledger.exogenous(pane.watched[i].as_str()) != 0 {
                files_closed = false;
            }
            i += 1;
        }
        let mut readers_closed = true;
        let mut k: usize = 0;
        while k < pane.readers.len()
            invariant
                k <= pane.readers@.len(),
                arrs == log.arrivals_of(),
                readers_closed == forall|a: int, j: int|
                    0 <= a < k && 0 <= j < arrivals_for(arrs, pane.readers@[a].0@).len() ==> #[trigger] arrivals_for(
                        arrs,
                        #[trigger] pane.readers@[a].0@,
                    )[j].containing@.len() > 0,
            decreases pane.readers@.len() - k,
        {
            let found = log.arrivals(&pane.readers[k]);
            let ghost av = arrivals_for(arrs, pane.readers@[k as int].0@);
            let mut all = true;
            let mut j: usize = 0;
            while j < found.len()
                invariant
                    j <= found@.len(),
                    found@.len() == av.len(),
                    forall|t: int| 0 <= t < found@.len() ==> *#[trigger] found@[t] == av[t],
                    all == forall|t: int| 0 <= t < j ==> #[trigger] av[t].containing@.len() > 0,
                decreases found@.len() - j,
            {
                if found[j].containing.len() == 0 {
                    all = false;
                }
                proof {
                    assert(*found@[j as int] == av[j as int]);
                }
                j += 1;
            }
            if !all {
                readers_closed = false;
            }
            proof {
                assert(all == forall|t: int| 0 <= t < av.len() ==> #[trigger] av[t].containing@.len() > 0);
                let before = forall|a: int, j: int|
                    0 <= a < k && 0 <= j < arrivals_for(arrs, pane.readers@[a].0@).len() ==> #[trigger] arrivals_for(
                        arrs,
                        #[trigger] pane.readers@[a].0@,
                    )[j].containing@.len() > 0;
                assert((forall|a: int, j: int|
                    0 <= a < k + 1 && 0 <= j < arrivals_for(arrs, pane.readers@[a].0@).len() ==> #[trigger] arrivals_for(
                        arrs,
                        #[trigger] pane.readers@[a].0@,
                    )[j].containing@.len() > 0) == (before && all)) by {
                    if before && all {
                        assert forall|a: int, j: int|
                            0 <= a < k + 1 && 0 <= j < arrivals_for(arrs, pane.readers@[a].0@).len() implies #[trigger] arrivals_for(
                                arrs,
                                #[trigger] pane.readers@[a].0@,
                            )[j].containing@.len() > 0 by {
                            if a == k {
                                assert(av[j].containing@.len() > 0);
                            }
                        }
                    }
                }
            }
            k += 1;
        }
        let watches_something = pane.watched.len() > 0 || pane.readers.len() > 0;
        watches_something && files_closed && readers_closed
    }

    /// Which panes are implicated over the window ending at `now`. All four
    /// conditions must hold: enough trigger respawns, every watched trigger
    /// closed, a window quiet enough to judge (else the test abstains), and
    /// a cycle in the graph from credited writers to watchers. The first
    /// three alone are met by a legitimate one-way producer and consumer,
    /// which is why the graph test exists.
    pub fn evaluate(&self, now: u64, ledger: &PathLedger, log: &WindowLog, panes: &[PaneWindow]) -> (r: Verdict)
        requires
            ledger.wf(),
        ensures
            abstains(*log, now, self.abstain_permille) ==> r.abstained && r.panes@.len() == 0 && r.ordered is None,
            !abstains(*log, now, self.abstain_permille) ==> {
                let lv = ledger.changes_view();
                let bs = log.brackets_of();
                let arrs = log.arrivals_of();
                let cands = kept(panes@, candidate_pred(self.min_respawns, lv, arrs));
                let es = graph_edges(cands, lv, bs, arrs);
                let gs = graph_groups(cands, lv, bs, arrs);
                &&& !r.abstained
                &&& sorted_ids(r.panes@)
                &&& r.panes@.to_multiset() == cyclic_sources(sources_of(cands), es, gs).to_multiset()
                &&& match r.ordered {
                    Some(v) => precise(gs) && r.panes@.len() > 0 && v@ == r.panes@,
                    None => !(precise(gs) && r.panes@.len() > 0),
                }
            },
    {
        // Condition 3 first: it is the cheapest, and it short-circuits.
        // Lost reader evidence lands here too: missing evidence is not
        // absent evidence.
        let lost = log.evidence_lost(now);
        let busy = log.busy_ms(now);
        let w = log.window();
        let p = self.abstain_permille;
        proof {
            assert((p as u128) * (w as u128) <= 0xffff_ffff_ffff_fffe_0000_0000_0000_0001u128) by (nonlinear_arith)
                requires
                    p <= 0xffff_ffff_ffff_ffffu64,
                    w <= 0xffff_ffff_ffff_ffffu64,
            ;
        }
        let high = w > 0 && (busy as u128) * 1000 >= (p as u128) * (w as u128);
        proof {
            assert(busy_of(*log, now) == busy);
            assert(high == busy_at_or_above(busy_of(*log, now), log.window_of(), self.abstain_permille)) by (nonlinear_arith)
                requires
                    busy_of(*log, now) == busy,
                    w == log.window_of(),
                    high == (w > 0 && (busy as u128) * 1000 >= (p as u128) * (w as u128)),
                    p == self.abstain_permille,
                    busy <= u64::MAX,
                    w <= u64::MAX,
                    self.abstain_permille <= u64::MAX,
            ;
        }
        if lost || high {
            return Verdict { panes: Vec::new(), ordered: None, abstained: true };
        }
        let ghost lv = ledger.changes_view();
        let ghost bs = log.brackets_of();
        let ghost arrs = log.arrivals_of();
        let ghost pred = candidate_pred(self.min_respawns, lv, arrs);
        // The candidates, by position.
        let mut cand: Vec<usize> = Vec::new();
        let mut i: usize = 0;
        while i < panes.len()
            invariant
                i <= panes@.len(),
                ledger.wf(),
                lv == ledger.changes_view(),
                arrs == log.arrivals_of(),
                pred == candidate_pred(self.min_respawns, lv, arrs),
                cand@.len() == kept(panes@.take(i as int), pred).len(),
                forall|t: int| 0 <= t < cand@.len() ==> #[trigger] cand@[t] < i,
                forall|t: int| 0 <= t < cand@.len() ==> panes@[#[trigger] cand@[t] as int] == kept(panes@.take(i as int), pred)[t],
            decreases panes@.len() - i,
        {
            proof {
                lemma_kept_step(panes@, pred, i as int);
            }
            let pane = &panes[i];
            if pane.trigger_respawns >= self.min_respawns && self.closed_everywhere(ledger, log, pane) {
                cand.push(i);
                proof {
                    assert(cand@[cand@.len() - 1] == i);
                }
            }
            i += 1;
        }
        proof {
            assert(panes@.take(panes@.len() as int) =~= panes@);
        }
        let ghost cands = kept(panes@, pred);
        // Condition 4: an edge runs from whoever is credited with writing a
        // path to whoever watches it.
        let mut edges: Vec<(SourceId, SourceId)> = Vec::new();
        let mut merged: Vec<Vec<SourceId>> = Vec::new();
        let mut sources: Vec<SourceId> = Vec::new();
        let mut t: usize = 0;
        while t < cand.len()
            invariant
                t <= cand@.len(),
                ledger.wf(),
                lv == ledger.changes_view(),
                bs == log.brackets_of(),
                arrs == log.arrivals_of(),
                cand@.len() == cands.len(),
                forall|x: int| 0 <= x < cand@.len() ==> #[trigger] cand@[x] < panes@.len(),
                forall|x: int| 0 <= x < cand@.len() ==> panes@[#[trigger] cand@[x] as int] == cands[x],
                edges@ == graph_edges(cands.take(t as int), lv, bs, arrs),
                groups(merged@) == graph_groups(cands.take(t as int), lv, bs, arrs),
                sources@ == sources_of(cands.take(t as int)),
            decreases cand@.len() - t,
        {
            let pane = &panes[cand[t]];
            let ghost c = cands[t as int];
            let ghost e0 = edges@;
            let ghost g0 = groups(merged@);
            let ghost wl = watched_lists(c, lv);
            let ghost rl = reader_lists(c, bs, arrs);
            proof {
                assert(*pane == c);
            }
            let mut j: usize = 0;
            while j < pane.watched.len()
                invariant
                    j <= pane.watched@.len(),
                    *pane == c,
                    ledger.wf(),
                    lv == ledger.changes_view(),
                    wl == watched_lists(c, lv),
                    edges@ == e0 + lists_edges(wl.take(j as int), c.source),
                    groups(merged@) == g0 + lists_groups(wl.take(j as int)),
                decreases pane.watched@.len() - j,
            {
                let ch = ledger.changes(pane.watched[j].as_str());
                let credited = credit(ch);
                proof {
                    assert(containing_views(ch@) =~= path_views(lv, pane.watched@[j as int]@)) by {
                        assert(ch@.map_values(|c: Change| change_view(c)).len() == ch@.len());
                        assert forall|x: int| 0 <= x < ch@.len() implies containing_views(ch@)[x] == path_views(
                            lv,
                            pane.watched@[j as int]@,
                        )[x] by {
                            assert(ch@.map_values(|c: Change| change_view(c))[x] == change_view(ch@[x]));
                        }
                    }
                    lemma_credit_list(ch@, credited@);
                    assert(wl[j as int] == credited@);
                    assert(wl.take(j + 1) =~= wl.take(j as int).push(credited@));
                    assert(wl.take(j + 1).drop_last() =~= wl.take(j as int));
                }
                record_credit(&mut edges, &mut merged, &credited, pane.source);
                proof {
                    assert(edges@ =~= e0 + lists_edges(wl.take(j + 1), c.source));
                    assert(groups(merged@) =~= g0 + lists_groups(wl.take(j + 1)));
                }
                j += 1;
            }
            proof {
                assert(wl.take(wl.len() as int) =~= wl);
                assert(wl + rl.take(0) =~= wl);
            }
            let mut k: usize = 0;
            while k < pane.readers.len()
                invariant
                    k <= pane.readers@.len(),
                    *pane == c,
                    bs == log.brackets_of(),
                    arrs == log.arrivals_of(),
                    wl == watched_lists(c, lv),
                    rl == reader_lists(c, bs, arrs),
                    edges@ == e0 + lists_edges(wl + rl.take(k as int), c.source),
                    groups(merged@) == g0 + lists_groups(wl + rl.take(k as int)),
                decreases pane.readers@.len() - k,
            {
                let changes = Self::arrival_changes(log, &pane.readers[k]);
                let credited = credit(changes.as_slice());
                proof {
                    lemma_credit_list(changes@, credited@);
                    assert(rl[k as int] == credited@);
                    assert((wl + rl.take(k + 1)).drop_last() =~= wl + rl.take(k as int));
                    assert((wl + rl.take(k + 1)).last() == credited@);
                }
                record_credit(&mut edges, &mut merged, &credited, pane.source);
                proof {
                    assert(edges@ =~= e0 + lists_edges(wl + rl.take(k + 1), c.source));
                    assert(groups(merged@) =~= g0 + lists_groups(wl + rl.take(k + 1)));
                }
                k += 1;
            }
            sources.push(pane.source);
            proof {
                assert(rl.take(rl.len() as int) =~= rl);
                assert(cands.take(t + 1).drop_last() =~= cands.take(t as int));
                assert(cands.take(t + 1).last() == c);
                assert(sources@ =~= sources_of(cands.take(t + 1)));
            }
            t += 1;
        }
        proof {
            assert(cands.take(cands.len() as int) =~= cands);
        }
        let implicated = on_a_cycle(&sources, &edges, &merged);
        let mut exact = true;
        let mut g: usize = 0;
        while g < merged.len()
            invariant
                g <= merged@.len(),
                exact == forall|x: int| 0 <= x < g ==> #[trigger] groups(merged@)[x].len() <= 1,
            decreases merged@.len() - g,
        {
            proof {
                assert(groups(merged@)[g as int] == merged@[g as int]@);
            }
            if merged[g].len() > 1 {
                exact = false;
            }
            g += 1;
        }
        let ordered = if exact && implicated.len() > 0 {
            let mut copy: Vec<SourceId> = Vec::new();
            let mut m: usize = 0;
            while m < implicated.len()
                invariant
                    m <= implicated@.len(),
                    copy@ == implicated@.take(m as int),
                decreases implicated@.len() - m,
            {
                proof {
                    assert(implicated@.take(m + 1) =~= implicated@.take(m as int).push(implicated@[m as int]));
                }
                copy.push(implicated[m]);
                m += 1;
            }
            proof {
                assert(implicated@.take(implicated@.len() as int) =~= implicated@);
            }
            Some(copy)
        } else {
            None
        };
        Verdict { panes: implicated, ordered, abstained: false }
    }
}

} // verus!
