//! A bounded line accumulator.
//!
//! Bytes in, at most `max_lines` of them out, and a count of the lines
//! that did not survive. The bound is a line count, never a byte budget;
//! a single line is additionally held to [`MAX_LINE_BYTES`] and dropped
//! whole past it. Nothing here decodes: bytes stay exactly what the child
//! wrote. A line ends at `\n` and nowhere else; a `\r` immediately before
//! that `\n` is the other half of the terminator and is dropped, a bare
//! `\r` is content.
//!
//! The accumulator is specified as a state machine over single bytes
//! ([`stepped`]); feeding a chunk is that machine run over the chunk
//! ([`fed`]), so where a pipe splits its chunks cannot matter.

use std::collections::VecDeque;

use vstd::prelude::*;

use crate::text::{decimal, decimal_string, push_char, push_str};

verus! {

/// The most bytes one line may hold, terminator aside, before it is
/// dropped whole.
pub const MAX_LINE_BYTES: usize = 65536;

/// Which end of an over-long stream survives.
///
/// `Bottom` is a ring: every line is retained and the oldest evicted.
/// `Top` is a gate that shuts once full. Both keep counting.
#[derive(Clone, Copy, Debug, Eq, PartialEq, Structural)]
pub enum Keep {
    /// Keep the oldest lines; discard everything after the bound.
    Top,
    /// Keep the newest lines; evict the oldest to make room.
    Bottom,
}

/// The abstract state of a [`LineCap`].
pub struct CapView {
    pub max_lines: nat,
    pub keep: Keep,
    /// The retained lines, oldest first, each with its terminator.
    pub retained: Seq<Seq<u8>>,
    /// Lines discarded so far; the count saturates at `usize::MAX`.
    pub dropped: nat,
    /// The bytes since the last `\n`.
    pub partial: Seq<u8>,
    /// The line in progress passed the byte backstop and is being skipped
    /// up to its `\n`; it has already been counted.
    pub overlong: bool,
}

/// The empty accumulator.
pub open spec fn start(max_lines: nat, keep: Keep) -> CapView {
    CapView {
        max_lines,
        keep,
        retained: Seq::empty(),
        dropped: 0,
        partial: Seq::empty(),
        overlong: false,
    }
}

/// One more, saturating at `usize::MAX`.
pub open spec fn sat_inc(d: nat) -> nat {
    if d < usize::MAX {
        d + 1
    } else {
        d
    }
}

/// What every reachable state satisfies.
pub open spec fn inv(s: CapView) -> bool {
    &&& s.retained.len() <= s.max_lines
    &&& s.max_lines <= usize::MAX
    &&& s.dropped <= usize::MAX
    &&& s.partial.len() <= MAX_LINE_BYTES
    &&& (s.overlong ==> s.partial.len() == 0)
    &&& forall|i: int| 0 <= i < s.retained.len() ==> #[trigger] s.retained[i].len() <= MAX_LINE_BYTES + 1
}

/// One finished line offered to the retained window.
pub open spec fn accepted(s: CapView, line: Seq<u8>) -> CapView {
    match s.keep {
        Keep::Bottom => if s.retained.len() >= s.max_lines {
            CapView { retained: s.retained.push(line).drop_first(), dropped: sat_inc(s.dropped), ..s }
        } else {
            CapView { retained: s.retained.push(line), ..s }
        },
        Keep::Top => if s.retained.len() < s.max_lines {
            CapView { retained: s.retained.push(line), ..s }
        } else {
            CapView { dropped: sat_inc(s.dropped), ..s }
        },
    }
}

/// The line in progress without a trailing `\r`.
pub open spec fn without_cr(p: Seq<u8>) -> Seq<u8> {
    if p.len() > 0 && p.last() == 13u8 {
        p.drop_last()
    } else {
        p
    }
}

/// A `\n` arrived.
pub open spec fn ended(s: CapView) -> CapView {
    if s.overlong {
        CapView { overlong: false, ..s }
    } else {
        accepted(CapView { partial: Seq::empty(), ..s }, without_cr(s.partial).push(10u8))
    }
}

/// A byte other than `\n` arrived.
pub open spec fn extended(s: CapView, b: u8) -> CapView {
    if s.overlong {
        s
    } else if s.partial.len() + 1 > MAX_LINE_BYTES {
        CapView { overlong: true, dropped: sat_inc(s.dropped), partial: Seq::empty(), ..s }
    } else {
        CapView { partial: s.partial.push(b), ..s }
    }
}

/// One byte arrived.
pub open spec fn stepped(s: CapView, b: u8) -> CapView {
    if b == 10u8 {
        ended(s)
    } else {
        extended(s, b)
    }
}

/// The state after `bytes` arrived, one by one.
pub open spec fn fed(s: CapView, bytes: Seq<u8>) -> CapView
    decreases bytes.len(),
{
    if bytes.len() == 0 {
        s
    } else {
        stepped(fed(s, bytes.drop_last()), bytes.last())
    }
}

/// What `finish` yields: the retained lines, the unterminated last line
/// flushed as a line of its own, and the drop count.
pub open spec fn finished(s: CapView) -> (Seq<Seq<u8>>, nat) {
    if s.partial.len() > 0 {
        let t = accepted(s, s.partial);
        (t.retained, t.dropped)
    } else {
        (s.retained, s.dropped)
    }
}

/// The lines laid end to end.
pub open spec fn concat(lines: Seq<Seq<u8>>) -> Seq<u8>
    decreases lines.len(),
{
    if lines.len() == 0 {
        Seq::empty()
    } else {
        concat(lines.drop_last()) + lines.last()
    }
}

/// Whether `p` holds a `\r\n` pair anywhere.
pub open spec fn has_crlf(p: Seq<u8>) -> bool {
    exists|i: int| 0 <= i < p.len() - 1 && #[trigger] p[i] == 13u8 && p[i + 1] == 10u8
}

proof fn lemma_accepted_keeps_inv(s: CapView, line: Seq<u8>)
    requires
        inv(s),
        line.len() <= MAX_LINE_BYTES + 1,
    ensures
        inv(accepted(s, line)),
        accepted(s, line).dropped >= s.dropped,
{
    let t = accepted(s, line);
    let pushed = s.retained.push(line);
    assert forall|i: int| 0 <= i < pushed.len() implies #[trigger] pushed[i].len() <= MAX_LINE_BYTES + 1 by {
        if i < s.retained.len() {
            assert(pushed[i] == s.retained[i]);
        }
    }
    assert forall|i: int| 0 <= i < t.retained.len() implies #[trigger] t.retained[i].len() <= MAX_LINE_BYTES + 1 by {
        if s.keep == Keep::Bottom && s.retained.len() >= s.max_lines {
            assert(t.retained[i] == pushed[i + 1]);
        } else if t.retained.len() > s.retained.len() {
            assert(t.retained[i] == pushed[i]);
        }
    }
}

/// Every byte keeps the accumulator within its bounds.
pub proof fn lemma_stepped_keeps_inv(s: CapView, b: u8)
    requires
        inv(s),
    ensures
        inv(stepped(s, b)),
        stepped(s, b).max_lines == s.max_lines,
        stepped(s, b).keep == s.keep,
        stepped(s, b).dropped >= s.dropped,
{
    if b == 10u8 {
        if !s.overlong {
            let c = CapView { partial: Seq::empty(), ..s };
            lemma_accepted_keeps_inv(c, without_cr(s.partial).push(10u8));
        }
    }
}

/// However much is fed, the retained set never exceeds the bound, no
/// line exceeds the byte backstop plus its terminator, and the drop count
/// never goes down.
pub proof fn lemma_fed_keeps_bound(s: CapView, bytes: Seq<u8>)
    requires
        inv(s),
    ensures
        inv(fed(s, bytes)),
        fed(s, bytes).retained.len() <= s.max_lines,
        fed(s, bytes).max_lines == s.max_lines,
        fed(s, bytes).keep == s.keep,
        fed(s, bytes).dropped >= s.dropped,
        finished(fed(s, bytes)).0.len() <= s.max_lines,
        finished(fed(s, bytes)).1 >= fed(s, bytes).dropped,
        forall|i: int|
            0 <= i < finished(fed(s, bytes)).0.len() ==> #[trigger] finished(fed(s, bytes)).0[i].len()
                <= MAX_LINE_BYTES + 1,
    decreases bytes.len(),
{
    if bytes.len() > 0 {
        lemma_fed_keeps_bound(s, bytes.drop_last());
        lemma_stepped_keeps_inv(fed(s, bytes.drop_last()), bytes.last());
    }
    let f = fed(s, bytes);
    if f.partial.len() > 0 {
        lemma_accepted_keeps_inv(f, f.partial);
    }
}

/// A chunk boundary is not a line boundary: feeding `a` then `b` is
/// feeding `a + b`.
pub proof fn lemma_feeds_compose(s: CapView, a: Seq<u8>, b: Seq<u8>)
    ensures
        fed(fed(s, a), b) == fed(s, a + b),
    decreases b.len(),
{
    if b.len() == 0 {
        assert(a + b =~= a);
    } else {
        lemma_feeds_compose(s, a, b.drop_last());
        assert((a + b).drop_last() =~= a + b.drop_last());
        assert((a + b).last() == b.last());
    }
}

proof fn lemma_concat_push(lines: Seq<Seq<u8>>, line: Seq<u8>)
    ensures
        concat(lines.push(line)) == concat(lines) + line,
{
    assert(lines.push(line).drop_last() =~= lines);
}

proof fn lemma_no_crlf_prefix(p: Seq<u8>)
    requires
        p.len() > 0,
        !has_crlf(p),
    ensures
        !has_crlf(p.drop_last()),
{
    let q = p.drop_last();
    if has_crlf(q) {
        let i = choose|i: int| 0 <= i < q.len() - 1 && #[trigger] q[i] == 13u8 && q[i + 1] == 10u8;
        assert(p[i] == q[i] && p[i + 1] == q[i + 1]);
    }
}

proof fn lemma_round_trip_state(max_lines: nat, keep: Keep, p: Seq<u8>)
    requires
        !has_crlf(p),
        max_lines <= usize::MAX,
        fed(start(max_lines, keep), p).dropped == 0,
    ensures
        concat(fed(start(max_lines, keep), p).retained) + fed(start(max_lines, keep), p).partial == p,
        !fed(start(max_lines, keep), p).overlong,
        inv(fed(start(max_lines, keep), p)),
    decreases p.len(),
{
    let s0 = start(max_lines, keep);
    if p.len() == 0 {
        assert(concat(Seq::<Seq<u8>>::empty()) + Seq::<u8>::empty() =~= p);
    } else {
        let q = p.drop_last();
        let b = p.last();
        lemma_fed_keeps_bound(s0, q);
        lemma_stepped_keeps_inv(fed(s0, q), b);
        lemma_no_crlf_prefix(p);
        lemma_round_trip_state(max_lines, keep, q);
        let s = fed(s0, q);
        assert(concat(s.retained) + s.partial == q);
        if b == 10u8 {
            if s.partial.len() > 0 {
                let k = q.len() - 1;
                assert(s.partial.last() == q[k]) by {
                    assert(q[k] == (concat(s.retained) + s.partial)[k]);
                }
                assert(q.len() >= 1);
                assert(p[k] == q[k]);
                assert(p[k + 1] == 10u8);
                assert(!(p[k] == 13u8 && p[k + 1] == 10u8));
            }
            assert(without_cr(s.partial) == s.partial);
            let line = s.partial.push(10u8);
            lemma_concat_push(s.retained, line);
            assert(concat(s.retained) + line =~= q.push(10u8));
            assert(q.push(10u8) =~= p);
        } else {
            assert(s.partial.push(b) =~= s.partial + seq![b]);
            assert(concat(s.retained) + s.partial.push(b) =~= q.push(b));
            assert(q.push(b) =~= p);
        }
    }
}

/// A stream that lost nothing and carries no CRLF terminator comes back
/// byte for byte: the lines laid end to end are the stream.
pub proof fn lemma_under_cap_round_trips(max_lines: nat, keep: Keep, bytes: Seq<u8>)
    requires
        max_lines <= usize::MAX,
        !has_crlf(bytes),
        finished(fed(start(max_lines, keep), bytes)).1 == 0,
    ensures
        concat(finished(fed(start(max_lines, keep), bytes)).0) == bytes,
{
    let s0 = start(max_lines, keep);
    lemma_fed_keeps_bound(s0, bytes);
    lemma_round_trip_state(max_lines, keep, bytes);
    let s = fed(s0, bytes);
    if s.partial.len() > 0 {
        lemma_concat_push(s.retained, s.partial);
    } else {
        assert(concat(s.retained) + s.partial =~= concat(s.retained));
    }
}

// ---------------------------------------------------------------------
// The stream seen as segments.

/// The bytes after the last `\n` of `x` (all of `x` if it has none).
pub open spec fn tail_of(x: Seq<u8>) -> Seq<u8>
    decreases x.len(),
{
    if x.len() == 0 {
        Seq::empty()
    } else if x.last() == 10u8 {
        Seq::empty()
    } else {
        tail_of(x.drop_last()).push(x.last())
    }
}

/// What one `\n`-terminated segment, its terminator aside, offers the
/// window: over-long, nothing (it only counts); otherwise the line with a
/// `\r` right before the `\n` removed.
pub open spec fn segment_item(seg: Seq<u8>) -> Option<Seq<u8>> {
    if seg.len() > MAX_LINE_BYTES {
        None
    } else {
        Some(without_cr(seg).push(10u8))
    }
}

/// The items the terminated segments of `x` offer, in order.
pub open spec fn segment_items(x: Seq<u8>) -> Seq<Option<Seq<u8>>>
    decreases x.len(),
{
    if x.len() == 0 {
        Seq::empty()
    } else if x.last() == 10u8 {
        segment_items(x.drop_last()).push(segment_item(tail_of(x.drop_last())))
    } else {
        segment_items(x.drop_last())
    }
}

/// Every item `x` offers once the stream has ended: its terminated
/// segments, then a non-empty unterminated tail (over-long: counted only;
/// otherwise kept byte for byte).
pub open spec fn stream_items(x: Seq<u8>) -> Seq<Option<Seq<u8>>> {
    let t = tail_of(x);
    if t.len() > MAX_LINE_BYTES {
        segment_items(x).push(None)
    } else if t.len() > 0 {
        segment_items(x).push(Some(t))
    } else {
        segment_items(x)
    }
}

/// The lines among the items, in order.
pub open spec fn kept_lines(items: Seq<Option<Seq<u8>>>) -> Seq<Seq<u8>>
    decreases items.len(),
{
    if items.len() == 0 {
        Seq::empty()
    } else {
        match items.last() {
            Some(l) => kept_lines(items.drop_last()).push(l),
            None => kept_lines(items.drop_last()),
        }
    }
}

/// The lines a bound of `max_lines` keeps: the last ones for `Bottom`, the
/// first ones for `Top`.
pub open spec fn window(lines: Seq<Seq<u8>>, max_lines: nat, keep: Keep) -> Seq<Seq<u8>> {
    if lines.len() <= max_lines {
        lines
    } else {
        match keep {
            Keep::Bottom => lines.skip(lines.len() - max_lines),
            Keep::Top => lines.take(max_lines as int),
        }
    }
}

/// The count, saturating at `usize::MAX`.
pub open spec fn sat_count(n: int) -> nat {
    if n > usize::MAX {
        usize::MAX as nat
    } else if n < 0 {
        0
    } else {
        n as nat
    }
}

/// One item offered to the window.
pub open spec fn offered(s: CapView, item: Option<Seq<u8>>) -> CapView {
    match item {
        Some(l) => accepted(s, l),
        None => CapView { dropped: sat_inc(s.dropped), ..s },
    }
}

/// The items offered one by one.
pub open spec fn offered_all(s: CapView, items: Seq<Option<Seq<u8>>>) -> CapView
    decreases items.len(),
{
    if items.len() == 0 {
        s
    } else {
        offered(offered_all(s, items.drop_last()), items.last())
    }
}

proof fn lemma_offered_all_fields(s: CapView, items: Seq<Option<Seq<u8>>>)
    ensures
        offered_all(s, items).max_lines == s.max_lines,
        offered_all(s, items).keep == s.keep,
        offered_all(s, items).partial == s.partial,
        offered_all(s, items).overlong == s.overlong,
    decreases items.len(),
{
    if items.len() > 0 {
        lemma_offered_all_fields(s, items.drop_last());
    }
}

/// The state after `x` in terms of its segments: the window has been
/// offered every terminated segment (and an over-long tail, already
/// counted); the line in progress is the tail, unless it is over-long.
proof fn lemma_fed_is_segments(m: nat, keep: Keep, x: Seq<u8>)
    ensures
        ({
            let s = fed(start(m, keep), x);
            let t = tail_of(x);
            let its = if t.len() > MAX_LINE_BYTES { segment_items(x).push(None) } else { segment_items(x) };
            let o = offered_all(start(m, keep), its);
            &&& s.retained == o.retained
            &&& s.dropped == o.dropped
            &&& s.max_lines == m
            &&& s.keep == keep
            &&& s.overlong == (t.len() > MAX_LINE_BYTES)
            &&& s.partial == if t.len() > MAX_LINE_BYTES { Seq::<u8>::empty() } else { t }
        }),
    decreases x.len(),
{
    let s0 = start(m, keep);
    if x.len() == 0 {
        return;
    }
    let y = x.drop_last();
    let b = x.last();
    lemma_fed_is_segments(m, keep, y);
    lemma_offered_all_fields(s0, segment_items(y));
    lemma_offered_all_fields(s0, segment_items(y).push(None));
    let ty = tail_of(y);
    let sy = fed(s0, y);
    if b == 10u8 {
        assert(segment_items(x) == segment_items(y).push(segment_item(ty)));
        if ty.len() > MAX_LINE_BYTES {
            assert(segment_item(ty) == None::<Seq<u8>>);
        } else {
            assert(segment_items(x).drop_last() =~= segment_items(y));
        }
    } else {
        assert(segment_items(x) == segment_items(y));
        assert(tail_of(x) == ty.push(b));
        if ty.len() <= MAX_LINE_BYTES && ty.len() + 1 > MAX_LINE_BYTES {
            assert(segment_items(y).push(None).drop_last() =~= segment_items(y));
        }
    }
}

proof fn lemma_kept_len(its: Seq<Option<Seq<u8>>>)
    ensures
        kept_lines(its).len() <= its.len(),
    decreases its.len(),
{
    if its.len() > 0 {
        lemma_kept_len(its.drop_last());
    }
}

proof fn lemma_window_step(its: Seq<Option<Seq<u8>>>, m: nat, keep: Keep)
    requires
        m <= usize::MAX,
    ensures
        ({
            let o = offered_all(start(m, keep), its);
            &&& o.retained == window(kept_lines(its), m, keep)
            &&& o.dropped == sat_count(its.len() - window(kept_lines(its), m, keep).len())
        }),
    decreases its.len(),
{
    let s0 = start(m, keep);
    if its.len() == 0 {
        assert(kept_lines(its) =~= Seq::<Seq<u8>>::empty());
        return;
    }
    let jt = its.drop_last();
    lemma_window_step(jt, m, keep);
    lemma_offered_all_fields(s0, jt);
    lemma_kept_len(jt);
    let o = offered_all(s0, jt);
    let k = kept_lines(jt);
    let w = window(k, m, keep);
    let n = jt.len();
    assert(w.len() == if k.len() <= m { k.len() } else { m });
    assert(o.retained == w);
    assert(o.dropped == sat_count(n - w.len()));
    assert(offered_all(s0, its) == offered(o, its.last()));
    match its.last() {
        Some(l) => {
            let k2 = k.push(l);
            assert(kept_lines(its) == k2);
            match keep {
                Keep::Bottom => {
                    if k.len() >= m {
                        if k.len() == m {
                            assert(w =~= k);
                        }
                        assert(w.push(l).drop_first() =~= k2.skip(k2.len() - m));
                        assert(window(k2, m, keep) == k2.skip(k2.len() - m));
                        assert(sat_inc(sat_count(n - m)) == sat_count(n + 1 - m));
                    } else {
                        assert(w == k);
                        assert(window(k2, m, keep) == k2);
                    }
                },
                Keep::Top => {
                    if k.len() < m {
                        assert(w == k);
                        assert(window(k2, m, keep) == k2);
                    } else {
                        assert(w =~= k2.take(m as int));
                        assert(window(k2, m, keep) == k2.take(m as int));
                        assert(sat_inc(sat_count(n - m)) == sat_count(n + 1 - m));
                    }
                },
            }
        },
        None => {
            assert(kept_lines(its) == k);
            assert(sat_inc(sat_count(n - w.len())) == sat_count(n + 1 - w.len()));
        },
    }
}

/// A chunk at a time: the state after each chunk of `chunks` in turn.
pub open spec fn fed_chunks(s: CapView, chunks: Seq<Seq<u8>>) -> CapView
    decreases chunks.len(),
{
    if chunks.len() == 0 {
        s
    } else {
        fed(fed_chunks(s, chunks.drop_last()), chunks.last())
    }
}

proof fn lemma_chunks_are_one_stream(s: CapView, chunks: Seq<Seq<u8>>)
    ensures
        fed_chunks(s, chunks) == fed(s, concat(chunks)),
    decreases chunks.len(),
{
    if chunks.len() > 0 {
        lemma_chunks_are_one_stream(s, chunks.drop_last());
        lemma_feeds_compose(s, concat(chunks.drop_last()), chunks.last());
    }
}

/// However a stream is cut into chunks, `finish` answers by its segments:
/// the stream cut after every `\n`, plus a non-empty unterminated tail.
/// The lines kept are, in stream order, the segments no longer than
/// [`MAX_LINE_BYTES`] (a `\r` right before the `\n` removed; the tail
/// keeps its bytes): the last `max_lines` of them for `Bottom`, the first
/// for `Top`. Every other segment is counted dropped, so kept plus dropped
/// is the number of segments (the count saturating at `usize::MAX`).
pub proof fn lemma_finish_counts_every_segment(max_lines: nat, keep: Keep, chunks: Seq<Seq<u8>>)
    requires
        max_lines <= usize::MAX,
    ensures
        ({
            let (ls, d) = finished(fed_chunks(start(max_lines, keep), chunks));
            let its = stream_items(concat(chunks));
            &&& ls == window(kept_lines(its), max_lines, keep)
            &&& ls.len() <= max_lines
            &&& d == sat_count(its.len() - ls.len())
        }),
{
    let x = concat(chunks);
    let s0 = start(max_lines, keep);
    lemma_chunks_are_one_stream(s0, chunks);
    lemma_fed_is_segments(max_lines, keep, x);
    let t = tail_of(x);
    let s = fed(s0, x);
    if t.len() > MAX_LINE_BYTES {
        lemma_window_step(segment_items(x).push(None), max_lines, keep);
    } else if t.len() > 0 {
        let its = segment_items(x).push(Some(t));
        lemma_window_step(its, max_lines, keep);
        lemma_offered_all_fields(s0, segment_items(x));
        assert(its.drop_last() =~= segment_items(x));
    } else {
        lemma_window_step(segment_items(x), max_lines, keep);
    }
}

/// A bounded window over a stream of lines. `dropped` counts lines.
pub struct LineCap {
    max_lines: usize,
    keep: Keep,
    retained: VecDeque<Vec<u8>>,
    dropped: usize,
    partial: Vec<u8>,
    overlong: bool,
}

/// The contents of each line.
pub open spec fn line_views(v: Seq<Vec<u8>>) -> Seq<Seq<u8>> {
    v.map_values(|l: Vec<u8>| l@)
}

impl View for LineCap {
    type V = CapView;

    closed spec fn view(&self) -> CapView {
        CapView {
            max_lines: self.max_lines as nat,
            keep: self.keep,
            retained: line_views(self.retained@),
            dropped: self.dropped as nat,
            partial: self.partial@,
            overlong: self.overlong,
        }
    }
}

fn copy_bytes(v: &[u8]) -> (r: Vec<u8>)
    ensures
        r@ == v@,
{
    let mut r: Vec<u8> = Vec::new();
    let mut i: usize = 0;
    while i < v.len()
        invariant
            i <= v@.len(),
            r@ == v@.take(i as int),
        decreases v@.len() - i,
    {
        proof {
            assert(v@.take(i + 1) =~= v@.take(i as int).push(v@[i as int]));
        }
        r.push(v[i]);
        i += 1;
    }
    proof {
        assert(v@.take(v@.len() as int) =~= v@);
    }
    r
}

impl LineCap {
    /// A cap retaining at most `max_lines` lines from the `keep` end.
    pub fn new(max_lines: usize, keep: Keep) -> (r: LineCap)
        ensures
            r@ == start(max_lines as nat, keep),
            inv(r@),
    {
        let r = LineCap {
            max_lines,
            keep,
            retained: VecDeque::new(),
            dropped: 0,
            partial: Vec::new(),
            overlong: false,
        };
        proof {
            assert(line_views(r.retained@) =~= Seq::<Seq<u8>>::empty());
        }
        r
    }

    /// Feed an arbitrary byte chunk. Never retains beyond the bound.
    pub fn feed(&mut self, chunk: &[u8])
        requires
            inv(old(self)@),
        ensures
            final(self)@ == fed(old(self)@, chunk@),
            inv(final(self)@),
    {
        let ghost s0 = self@;
        let mut i: usize = 0;
        while i < chunk.len()
            invariant
                i <= chunk@.len(),
                self@ == fed(s0, chunk@.take(i as int)),
                inv(self@),
            decreases chunk@.len() - i,
        {
            proof {
                assert(chunk@.take(i + 1).drop_last() =~= chunk@.take(i as int));
                lemma_stepped_keeps_inv(self@, chunk@[i as int]);
            }
            let b = chunk[i];
            if b == 10u8 {
                self.end_line();
            } else {
                self.extend_line(b);
            }
            i += 1;
        }
        proof {
            assert(chunk@.take(chunk@.len() as int) =~= chunk@);
        }
    }

    /// Consume, flushing any unterminated trailing line, and yield the
    /// retained lines with the number dropped.
    pub fn finish(self) -> (r: (Vec<Vec<u8>>, usize))
        requires
            inv(self@),
        ensures
            (line_views(r.0@), r.1 as nat) == finished(self@),
    {
        let mut me = self;
        if me.partial.len() > 0 {
            let last = copy_bytes(me.partial.as_slice());
            proof {
                lemma_accepted_keeps_inv(me@, last@);
            }
            me.accept(last);
        }
        let ghost lines = me@.retained;
        let mut out: Vec<Vec<u8>> = Vec::new();
        let mut rest = me.retained;
        while rest.len() > 0
            invariant
                line_views(out@) + line_views(rest@) == lines,
            decreases rest@.len(),
        {
            let ghost before = rest@;
            match rest.pop_front() {
                Some(line) => {
                    proof {
                        assert(line_views(out@.push(line)) + line_views(rest@) =~= line_views(out@)
                            + line_views(before));
                    }
                    out.push(line);
                },
                None => {},
            }
        }
        proof {
            assert(line_views(out@) =~= line_views(out@) + line_views(rest@));
        }
        (out, me.dropped)
    }

    /// The retained lines and the drop count, without consuming. The line
    /// in progress is excluded: a live child's partial line is mid-write.
    pub fn snapshot(&self) -> (r: (Vec<Vec<u8>>, usize))
        ensures
            line_views(r.0@) == self@.retained,
            r.1 as nat == self@.dropped,
    {
        let mut out: Vec<Vec<u8>> = Vec::new();
        let mut i: usize = 0;
        while i < self.retained.len()
            invariant
                i <= self.retained@.len(),
                line_views(out@) == line_views(self.retained@).take(i as int),
            decreases self.retained@.len() - i,
        {
            let src: &Vec<u8> = &self.retained[i];
            let line = copy_bytes(src.as_slice());
            proof {
                assert(line@ == line_views(self.retained@)[i as int]);
                assert(line_views(out@.push(line)) =~= line_views(out@).push(line@));
                assert(line_views(self.retained@).take(i + 1) =~= line_views(self.retained@).take(
                    i as int,
                ).push(line@));
            }
            out.push(line);
            i += 1;
        }
        proof {
            assert(line_views(self.retained@).take(self.retained@.len() as int) =~= line_views(
                self.retained@,
            ));
        }
        (out, self.dropped)
    }

    /// How many lines are retained, without cloning any of them.
    pub fn retained_len(&self) -> (r: usize)
        ensures
            r as nat == self@.retained.len(),
    {
        self.retained.len()
    }

    /// How many lines the bound has discarded, without cloning.
    pub fn dropped_count(&self) -> (r: usize)
        ensures
            r as nat == self@.dropped,
    {
        self.dropped
    }

    /// One byte other than `\n` for the line in progress; past the
    /// backstop the line is counted once, released, and skipped.
    fn extend_line(&mut self, b: u8)
        requires
            inv(old(self)@),
            b != 10u8,
        ensures
            final(self)@ == extended(old(self)@, b),
    {
        if self.overlong {
            return;
        }
        if self.partial.len() + 1 > MAX_LINE_BYTES {
            self.overlong = true;
            if self.dropped < usize::MAX {
                self.dropped += 1;
            }
            self.partial = Vec::new();
            return;
        }
        self.partial.push(b);
    }

    /// The line in progress ended at a `\n`; a `\r` right before it is the
    /// other half of the terminator.
    fn end_line(&mut self)
        requires
            inv(old(self)@),
        ensures
            final(self)@ == ended(old(self)@),
    {
        if self.overlong {
            self.overlong = false;
            return;
        }
        let mut line: Vec<u8> = Vec::new();
        std::mem::swap(&mut line, &mut self.partial);
        let n = line.len();
        if n > 0 && line[n - 1] == 13u8 {
            line.pop();
            proof {
                assert(line@ =~= without_cr(old(self)@.partial));
            }
        }
        line.push(10u8);
        proof {
            let c = CapView { partial: Seq::empty(), ..old(self)@ };
            assert(self@ == c);
            lemma_accepted_keeps_inv(c, line@);
        }
        self.accept(line);
    }

    /// Offer one line, terminator included, to the retained window.
    fn accept(&mut self, line: Vec<u8>)
        requires
            inv(old(self)@),
            line@.len() <= MAX_LINE_BYTES + 1,
        ensures
            final(self)@ == accepted(old(self)@, line@),
    {
        let ghost before = self.retained@;
        match self.keep {
            Keep::Bottom => {
                self.retained.push_back(line);
                proof {
                    assert(line_views(self.retained@) =~= line_views(before).push(line@));
                }
                if self.retained.len() > self.max_lines {
                    let ghost full = self.retained@;
                    let _ = self.retained.pop_front();
                    if self.dropped < usize::MAX {
                        self.dropped += 1;
                    }
                    proof {
                        assert(line_views(self.retained@) =~= line_views(full).drop_first());
                    }
                }
            },
            Keep::Top => {
                if self.retained.len() < self.max_lines {
                    self.retained.push_back(line);
                    proof {
                        assert(line_views(self.retained@) =~= line_views(before).push(line@));
                    }
                } else if self.dropped < usize::MAX {
                    self.dropped += 1;
                }
            },
        }
    }
}

/// How much of one child's output is retained, and from which end.
#[derive(Clone, Copy, Debug, PartialEq, Eq, Structural)]
pub struct Retention {
    pub max_lines: usize,
    pub keep: Keep,
}

/// `Read::read` into a fresh 8 KiB buffer: the bytes it delivered, or
/// whether the failure was an interruption (worth retrying) rather than
/// a real error. `read` delivers at most the buffer's length.
#[verifier::external_body]
fn read_chunk<R: std::io::Read>(pipe: &mut R) -> (r: Result<Vec<u8>, bool>)
    ensures
        r matches Ok(v) ==> v@.len() <= 8192,
{
    let mut buf = [0u8; 8192];
    match pipe.read(&mut buf) {
        Ok(n) => Ok(buf[..n].to_vec()),
        Err(e) => Err(e.kind() == std::io::ErrorKind::Interrupted),
    }
}

/// One read's outcome as values: the bytes delivered, or whether the
/// failure was an interruption.
pub open spec fn outcome_view(o: Result<Vec<u8>, bool>) -> Result<Seq<u8>, bool> {
    match o {
        Ok(v) => Ok(v@),
        Err(i) => Err(i),
    }
}

/// Whether reading goes on after this outcome: it delivered bytes, or it
/// was interrupted (and is retried).
pub open spec fn continues(o: Result<Seq<u8>, bool>) -> bool {
    match o {
        Ok(v) => v.len() > 0,
        Err(interrupted) => interrupted,
    }
}

/// The bytes of a run of read outcomes, in order.
pub open spec fn trace_bytes(outs: Seq<Result<Seq<u8>, bool>>) -> Seq<u8>
    decreases outs.len(),
{
    if outs.len() == 0 {
        Seq::empty()
    } else {
        trace_bytes(outs.drop_last()) + match outs.last() {
            Ok(v) => v,
            Err(_) => Seq::empty(),
        }
    }
}

/// A run of reads as `read_all` makes them: every outcome but the last
/// goes on, and the last ends the stream (end of file, or an error other
/// than an interruption), unless the count of reads ran out first.
pub open spec fn read_trace(outs: Seq<Result<Seq<u8>, bool>>) -> bool {
    &&& outs.len() > 0
    &&& forall|i: int| 0 <= i < outs.len() - 1 ==> continues(#[trigger] outs[i])
    &&& (!continues(outs.last()) || outs.len() == u64::MAX)
}

/// Take one read's outcome into the accumulator: delivered bytes are fed,
/// a failure feeds nothing. Answers whether to read on: after bytes, or
/// after an interruption; not at end of file or after a real error.
pub fn absorb(cap: &mut LineCap, outcome: Result<Vec<u8>, bool>) -> (more: bool)
    requires
        inv(old(cap)@),
    ensures
        inv(final(cap)@),
        more == continues(outcome_view(outcome)),
        final(cap)@ == match outcome {
            Ok(v) => fed(old(cap)@, v@),
            Err(_) => old(cap)@,
        },
{
    match outcome {
        Ok(data) => {
            if data.len() == 0 {
                return false;
            }
            cap.feed(data.as_slice());
            true
        },
        Err(interrupted) => interrupted,
    }
}

/// Drain one pipe to its end, retaining at most what the policy allows.
/// The loop never stops early when the bound fills: the accumulator
/// discards, the reader keeps reading. Interrupted reads are retried; end
/// of file or another error ends the stream with what arrived. What the
/// reads deliver depends on the pipe; whatever they were, the result is
/// their bytes, in order, run through a fresh accumulator.
pub fn read_all<R: std::io::Read>(pipe: Option<R>, retention: Retention) -> (r: (Vec<Vec<u8>>, usize))
    ensures
        pipe is None ==> r.0@.len() == 0 && r.1 == 0,
        pipe is Some ==> exists|outs: Seq<Result<Seq<u8>, bool>>|
            read_trace(outs) && (line_views(r.0@), r.1 as nat) == finished(
                #[trigger] fed(start(retention.max_lines as nat, retention.keep), trace_bytes(outs)),
            ),
        r.0@.len() <= retention.max_lines,
{
    let ghost s0 = start(retention.max_lines as nat, retention.keep);
    let mut cap = LineCap::new(retention.max_lines, retention.keep);
    let ghost mut outs: Seq<Result<Seq<u8>, bool>> = Seq::empty();
    let is_some = pipe.is_some();
    match pipe {
        None => {},
        Some(mut p) => {
            // A pipe cannot deliver 2^64 reads; the count only proves the
            // loop ends.
            let mut budget: u64 = u64::MAX;
            let mut done = false;
            while budget > 0 && !done
                invariant
                    cap@ == fed(s0, trace_bytes(outs)),
                    inv(cap@),
                    outs.len() + budget == u64::MAX,
                    forall|i: int| 0 <= i < outs.len() - 1 ==> continues(#[trigger] outs[i]),
                    outs.len() > 0 ==> (continues(outs.last()) || done),
                    done ==> outs.len() > 0 && !continues(outs.last()),
                decreases budget,
            {
                budget -= 1;
                let outcome = read_chunk(&mut p);
                let ghost o = outcome_view(outcome);
                let ghost before = outs;
                proof {
                    let bytes = match o {
                        Ok(v) => v,
                        Err(_) => Seq::empty(),
                    };
                    lemma_feeds_compose(s0, trace_bytes(before), bytes);
                    outs = before.push(o);
                    assert(outs.drop_last() =~= before);
                    assert(trace_bytes(outs) == trace_bytes(before) + bytes);
                    assert forall|i: int| 0 <= i < outs.len() - 1 implies continues(#[trigger] outs[i]) by {
                        assert(outs[i] == before[i]);
                    }
                }
                let more = absorb(&mut cap, outcome);
                if !more {
                    done = true;
                }
            }
        },
    }
    proof {
        lemma_fed_keeps_bound(s0, trace_bytes(outs));
        if is_some {
            assert(read_trace(outs));
        }
    }
    let r = cap.finish();
    proof {
        assert(line_views(r.0@).len() == r.0@.len());
        if !is_some {
            assert(trace_bytes(outs) =~= Seq::<u8>::empty());
            assert(fed(s0, trace_bytes(outs)) == s0);
        }
    }
    r
}

/// A dropped-line count as a person reads it: `90`, `1.2k`, `2.5M`.
pub open spec fn compact(n: nat) -> Seq<char> {
    if n < 1000 {
        decimal(n)
    } else if n < 1000000 {
        decimal(n / 1000) + seq!['.'] + decimal((n % 1000) / 100) + seq!['k']
    } else {
        decimal(n / 1000000) + seq!['.'] + decimal((n % 1000000) / 100000) + seq!['M']
    }
}

/// A dropped-line count as a person reads it: `90`, `1.2k`, `2.5M`.
pub fn compact_count(n: usize) -> (r: String)
    ensures
        r@ == compact(n as nat),
{
    if n < 1000 {
        decimal_string(n)
    } else if n < 1000000 {
        let mut r = decimal_string(n / 1000);
        push_char(&mut r, '.');
        push_str(&mut r, decimal_string((n % 1000) / 100).as_str());
        push_char(&mut r, 'k');
        r
    } else {
        let mut r = decimal_string(n / 1000000);
        push_char(&mut r, '.');
        push_str(&mut r, decimal_string((n % 1000000) / 100000).as_str());
        push_char(&mut r, 'M');
        r
    }
}

} // verus!
