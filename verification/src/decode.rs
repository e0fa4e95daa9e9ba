//! Child output bytes to frame lines: the one display-side decode.
//!
//! Payloads stay bytes everywhere else; decoding here changes what a frame
//! shows, never what was captured. Each line decodes on its own.

use vstd::prelude::*;

use crate::measure::{expand_tabs, expanded};

verus! {

/// Display columns between tab stops.
pub const TAB_STOP: usize = 8;

/// What `String::from_utf8_lossy` makes of some bytes: valid UTF-8 as is,
/// each invalid sequence as U+FFFD.
pub uninterp spec fn lossy_text(b: Seq<u8>) -> Seq<char>;

/// `String::from_utf8_lossy(line).into_owned()`. The decoding rules are the
/// standard library's; the result is named.
#[verifier::external_body]
pub(crate) fn decode_line(line: &[u8]) -> (r: String)
    ensures
        r@ == lossy_text(line@),
        line@.len() == 0 ==> r@.len() == 0,
{
    String::from_utf8_lossy(line).into_owned()
}

/// How many bytes remain once trailing newlines are stripped.
pub open spec fn trimmed_len(b: Seq<u8>) -> nat
    decreases b.len(),
{
    if b.len() > 0 && b.last() == 10u8 {
        trimmed_len(b.drop_last())
    } else {
        b.len()
    }
}

/// The pieces of `b` between newlines, `cur` the piece in progress;
/// splitting an empty remainder yields one empty piece.
pub open spec fn split_bytes(b: Seq<u8>, cur: Seq<u8>) -> Seq<Seq<u8>>
    decreases b.len(),
{
    if b.len() == 0 {
        seq![cur]
    } else if b[0] == 10u8 {
        seq![cur] + split_bytes(b.skip(1), Seq::empty())
    } else {
        split_bytes(b.skip(1), cur.push(b[0]))
    }
}

/// The stream's lines: trailing newlines stripped first, then split.
pub open spec fn pieces_of(b: Seq<u8>) -> Seq<Seq<u8>> {
    split_bytes(b.take(trimmed_len(b) as int), Seq::empty())
}

/// What `stream_lines` produces.
pub open spec fn frame_lines(b: Seq<u8>) -> Seq<Seq<char>> {
    pieces_of(b).map_values(|p: Seq<u8>| expanded(lossy_text(p), 0, TAB_STOP as nat))
}

/// A captured stream as frame lines: trailing newlines stripped,
/// interior blanks kept, each line decoded independently and its tabs
/// widened. An empty stream is one empty line.
pub fn stream_lines(bytes: &[u8]) -> (r: Vec<String>)
    ensures
        r@.map_values(|s: String| s@) == frame_lines(bytes@),
        r@.len() >= 1,
{
    let mut end = bytes.len();
    proof {
        assert(bytes@.take(end as int) =~= bytes@);
    }
    while end > 0 && bytes[end - 1] == 10u8
        invariant
            end <= bytes@.len(),
            trimmed_len(bytes@) == trimmed_len(bytes@.take(end as int)),
        decreases end,
    {
        proof {
            assert(bytes@.take(end as int).drop_last() =~= bytes@.take(end - 1));
        }
        end -= 1;
    }
    proof {
        assert(trimmed_len(bytes@.take(end as int)) == end);
    }
    let ghost body = bytes@.take(end as int);
    let ghost want = pieces_of(bytes@);
    let ghost f = |p: Seq<u8>| expanded(lossy_text(p), 0, TAB_STOP as nat);
    let ghost mut done: Seq<Seq<u8>> = Seq::empty();
    let mut out: Vec<String> = Vec::new();
    let mut cur: Vec<u8> = Vec::new();
    let mut i: usize = 0;
    proof {
        assert(body.skip(0) =~= body);
        assert(out@.map_values(|s: String| s@) =~= done.map_values(f));
        assert(done + split_bytes(body.skip(0), cur@) =~= split_bytes(body, Seq::empty()));
    }
    while i < end
        invariant
            end <= bytes@.len(),
            body == bytes@.take(end as int),
            want == split_bytes(body, Seq::empty()),
            f == (|p: Seq<u8>| expanded(lossy_text(p), 0, TAB_STOP as nat)),
            i <= end,
            want == done + split_bytes(body.skip(i as int), cur@),
            out@.map_values(|s: String| s@) == done.map_values(f),
        decreases end - i,
    {
        let ghost t = body.skip(i as int);
        proof {
            assert(t.skip(1) =~= body.skip(i + 1));
            assert(t[0] == bytes@[i as int]);
        }
        if bytes[i] == 10u8 {
            let text = decode_line(cur.as_slice());
            let line = expand_tabs(text.as_str(), TAB_STOP);
            proof {
                assert(line@ == f(cur@));
                assert(split_bytes(t, cur@) == seq![cur@] + split_bytes(t.skip(1), Seq::empty()));
                assert(want =~= done.push(cur@) + split_bytes(body.skip(i + 1), Seq::empty()));
                assert(out@.push(line).map_values(|s: String| s@) =~= out@.map_values(|s: String| s@).push(line@));
        assert(done.push(cur@).map_values(f) =~= done.map_values(f).push(f(cur@)));
        assert(out@.push(line).map_values(|s: String| s@) =~= done.push(cur@).map_values(f));
                done = done.push(cur@);
            }
            out.push(line);
            cur = Vec::new();
            proof {
                assert(cur@ =~= Seq::<u8>::empty());
            }
        } else {
            proof {
                assert(split_bytes(t, cur@) == split_bytes(t.skip(1), cur@.push(t[0])));
            }
            cur.push(bytes[i]);
        }
        i += 1;
    }
    let text = decode_line(cur.as_slice());
    let line = expand_tabs(text.as_str(), TAB_STOP);
    proof {
        assert(line@ == f(cur@));
        assert(body.skip(end as int).len() == 0);
        assert(want =~= done.push(cur@));
        assert(out@.push(line).map_values(|s: String| s@) =~= out@.map_values(|s: String| s@).push(line@));
        assert(done.push(cur@).map_values(f) =~= done.map_values(f).push(f(cur@)));
        assert(out@.push(line).map_values(|s: String| s@) =~= done.push(cur@).map_values(f));
    }
    out.push(line);
    out
}

/// A stream of nothing but newlines, the empty stream included, is one
/// line: the decode of no bytes.
pub proof fn lemma_blank_stream_is_one_line(b: Seq<u8>)
    requires
        forall|i: int| 0 <= i < b.len() ==> b[i] == 10u8,
    ensures
        frame_lines(b) == seq![expanded(lossy_text(Seq::empty()), 0, TAB_STOP as nat)],
{
    assert(pieces_of(b) =~= seq![Seq::<u8>::empty()]) by {
        assert(trimmed_len(b) == 0) by {
            lemma_blank_trims_to_nothing(b);
        }
        assert(b.take(0) =~= Seq::<u8>::empty());
    }
    assert(frame_lines(b) =~= seq![expanded(lossy_text(Seq::empty()), 0, TAB_STOP as nat)]);
}

proof fn lemma_blank_trims_to_nothing(b: Seq<u8>)
    requires
        forall|i: int| 0 <= i < b.len() ==> b[i] == 10u8,
    ensures
        trimmed_len(b) == 0,
    decreases b.len(),
{
    if b.len() > 0 {
        lemma_blank_trims_to_nothing(b.drop_last());
    }
}

} // verus!
