use std::io::Read;

use ratto::retain::{absorb, compact_count, read_all, Keep, LineCap, Retention, MAX_LINE_BYTES};

#[test]
fn under_the_bound_nothing_is_dropped_and_the_lines_are_verbatim() {
    let mut cap = LineCap::new(10, Keep::Bottom);
    cap.feed(b"a\nb\nc\n");
    assert_eq!(cap.finish(), (vec![b"a\n".to_vec(), b"b\n".to_vec(), b"c\n".to_vec()], 0));
}

#[test]
fn keep_bottom_retains_the_newest_and_counts_the_rest() {
    let mut cap = LineCap::new(2, Keep::Bottom);
    cap.feed(b"1\n2\n3\n4\n");
    assert_eq!(cap.finish(), (vec![b"3\n".to_vec(), b"4\n".to_vec()], 2));
}

#[test]
fn keep_top_retains_the_oldest_and_counts_the_rest() {
    let mut cap = LineCap::new(2, Keep::Top);
    cap.feed(b"1\n2\n3\n4\n");
    assert_eq!(cap.finish(), (vec![b"1\n".to_vec(), b"2\n".to_vec()], 2));
}

#[test]
fn a_trailing_line_without_a_newline_is_still_a_line() {
    let mut cap = LineCap::new(10, Keep::Bottom);
    cap.feed(b"a\nb");
    assert_eq!(cap.finish(), (vec![b"a\n".to_vec(), b"b".to_vec()], 0));
}

#[test]
fn a_crlf_terminator_is_recognised_whole() {
    let mut cap = LineCap::new(10, Keep::Bottom);
    cap.feed(b"a\r\nb\r\n");
    assert_eq!(cap.finish(), (vec![b"a\n".to_vec(), b"b\n".to_vec()], 0));
}

#[test]
fn a_crlf_split_across_two_reads_is_still_one_terminator() {
    let mut cap = LineCap::new(10, Keep::Bottom);
    cap.feed(b"a\r");
    cap.feed(b"\nb\r\n");
    assert_eq!(cap.finish(), (vec![b"a\n".to_vec(), b"b\n".to_vec()], 0));
}

#[test]
fn a_bare_carriage_return_is_content_and_survives() {
    let mut cap = LineCap::new(10, Keep::Bottom);
    cap.feed(b"10%\r50%\r100%\n");
    assert_eq!(cap.finish(), (vec![b"10%\r50%\r100%\n".to_vec()], 0));
}

#[test]
fn an_unterminated_line_keeps_its_trailing_carriage_return() {
    let mut cap = LineCap::new(10, Keep::Bottom);
    cap.feed(b"a\r\nb\r");
    assert_eq!(cap.finish(), (vec![b"a\n".to_vec(), b"b\r".to_vec()], 0));
}

#[test]
fn invalid_utf8_survives_the_accumulator_untouched() {
    let mut cap = LineCap::new(10, Keep::Bottom);
    cap.feed(b"\xff\n");
    assert_eq!(cap.finish(), (vec![b"\xff\n".to_vec()], 0));
}

#[test]
fn the_retained_set_never_exceeds_the_bound_however_much_is_fed() {
    let mut cap = LineCap::new(4, Keep::Bottom);
    for _ in 0..10_000 {
        cap.feed(b"x\n");
    }
    let (lines, dropped) = cap.finish();
    assert_eq!(lines.len(), 4);
    assert_eq!(dropped, 9_996);
}

#[test]
fn a_line_split_across_feeds_is_one_line() {
    let mut cap = LineCap::new(10, Keep::Bottom);
    cap.feed(b"hel");
    cap.feed(b"lo\n");
    assert_eq!(cap.finish(), (vec![b"hello\n".to_vec()], 0));
}

#[test]
fn a_split_line_still_counts_once_against_the_bound() {
    let mut cap = LineCap::new(2, Keep::Bottom);
    cap.feed(b"1\n2\n3");
    cap.feed(b"\n");
    assert_eq!(cap.finish(), (vec![b"2\n".to_vec(), b"3\n".to_vec()], 1));
}

#[test]
fn a_multibyte_char_split_across_feeds_survives() {
    let mut cap = LineCap::new(10, Keep::Bottom);
    let s = "héllo\n".as_bytes();
    let cut = 2;
    cap.feed(&s[..cut]);
    cap.feed(&s[cut..]);
    assert_eq!(cap.finish(), (vec!["héllo\n".as_bytes().to_vec()], 0));
}

#[test]
fn many_tiny_feeds_bound_the_partial_buffer_too() {
    let mut cap = LineCap::new(4, Keep::Bottom);
    for _ in 0..50_000 {
        cap.feed(b"x");
    }
    let (lines, _) = cap.finish();
    assert_eq!(lines.len(), 1);
}

#[test]
fn one_enormous_line_does_not_grow_without_limit() {
    let mut cap = LineCap::new(10, Keep::Bottom);
    for _ in 0..(MAX_LINE_BYTES / 8 + 100) {
        cap.feed(b"xxxxxxxx");
    }
    let (lines, dropped) = cap.finish();
    assert!(lines.iter().all(|l| l.len() <= MAX_LINE_BYTES + 1), "a line grew past the backstop");
    assert!(dropped > 0, "an over-long line must be counted as dropped");
}

#[test]
fn an_over_long_line_counts_once_however_many_reads_it_spans() {
    let mut cap = LineCap::new(10, Keep::Bottom);
    for _ in 0..40 {
        cap.feed(&vec![b'x'; MAX_LINE_BYTES / 2]);
    }
    cap.feed(b"\n");
    let (lines, dropped) = cap.finish();
    assert!(lines.is_empty());
    assert_eq!(dropped, 1);
}

#[test]
fn a_line_at_exactly_the_backstop_is_kept_whole() {
    let mut cap = LineCap::new(10, Keep::Bottom);
    cap.feed(&vec![b'x'; MAX_LINE_BYTES]);
    cap.feed(b"\n");
    let (lines, dropped) = cap.finish();
    assert_eq!(lines.len(), 1);
    assert_eq!(lines[0].len(), MAX_LINE_BYTES + 1);
    assert_eq!(dropped, 0);
}

#[test]
fn the_line_after_an_over_long_one_is_unaffected() {
    let mut cap = LineCap::new(10, Keep::Bottom);
    cap.feed(&vec![b'x'; MAX_LINE_BYTES * 2]);
    cap.feed(b"\nafter\n");
    let (lines, _) = cap.finish();
    assert_eq!(lines.last().unwrap(), b"after\n");
}

#[test]
fn a_zero_bound_retains_nothing_and_counts_everything() {
    let mut cap = LineCap::new(0, Keep::Bottom);
    cap.feed(b"a\nb\n");
    assert_eq!(cap.finish(), (Vec::<Vec<u8>>::new(), 2));
}

#[test]
fn a_snapshot_reads_the_retained_set_without_consuming_it() {
    let mut cap = LineCap::new(10, Keep::Bottom);
    cap.feed(b"a\nb\n");
    assert_eq!(cap.snapshot(), (vec![b"a\n".to_vec(), b"b\n".to_vec()], 0));
    assert_eq!(cap.snapshot(), (vec![b"a\n".to_vec(), b"b\n".to_vec()], 0));
    cap.feed(b"c\n");
    assert_eq!(cap.snapshot().0.len(), 3);
}

#[test]
fn a_snapshot_respects_the_bound_and_reports_the_same_drop_count() {
    let mut cap = LineCap::new(2, Keep::Bottom);
    cap.feed(b"1\n2\n3\n4\n");
    assert_eq!(cap.snapshot(), (vec![b"3\n".to_vec(), b"4\n".to_vec()], 2));
}

#[test]
fn a_snapshot_excludes_the_unterminated_line_that_finish_would_flush() {
    let mut cap = LineCap::new(10, Keep::Bottom);
    cap.feed(b"a\nb");
    assert_eq!(cap.snapshot(), (vec![b"a\n".to_vec()], 0));
    assert_eq!(cap.finish(), (vec![b"a\n".to_vec(), b"b".to_vec()], 0));
}

#[test]
fn a_snapshot_sees_a_line_only_once_its_terminator_arrives() {
    let mut cap = LineCap::new(10, Keep::Bottom);
    cap.feed(b"par");
    assert_eq!(cap.snapshot().0, Vec::<Vec<u8>>::new());
    cap.feed(b"tial\n");
    assert_eq!(cap.snapshot().0, vec![b"partial\n".to_vec()]);
}

#[test]
fn the_cheap_accessors_agree_with_the_snapshot() {
    let mut cap = LineCap::new(2, Keep::Bottom);
    cap.feed(b"1\n2\n3\n");
    let (lines, dropped) = cap.snapshot();
    assert_eq!(cap.retained_len(), lines.len());
    assert_eq!(cap.dropped_count(), dropped);
}

/// A pipe that delivers once and then breaks.
struct BreaksAfterOneRead<'a> {
    first: &'a [u8],
    delivered: bool,
}

impl Read for BreaksAfterOneRead<'_> {
    fn read(&mut self, buf: &mut [u8]) -> std::io::Result<usize> {
        if self.delivered {
            return Err(std::io::Error::other("the pipe broke"));
        }
        self.delivered = true;
        let n = self.first.len().min(buf.len());
        buf[..n].copy_from_slice(&self.first[..n]);
        Ok(n)
    }
}

/// A pipe that is interrupted once before every delivery.
struct InterruptedEachTime<'a> {
    rest: &'a [u8],
    interrupted: bool,
}

impl Read for InterruptedEachTime<'_> {
    fn read(&mut self, buf: &mut [u8]) -> std::io::Result<usize> {
        if !self.interrupted {
            self.interrupted = true;
            return Err(std::io::Error::new(std::io::ErrorKind::Interrupted, "signal"));
        }
        self.interrupted = false;
        let n = self.rest.len().min(buf.len()).min(3);
        buf[..n].copy_from_slice(&self.rest[..n]);
        self.rest = &self.rest[n..];
        Ok(n)
    }
}

#[test]
fn a_pipe_longer_than_the_bound_yields_only_the_bound() {
    let body: Vec<u8> = (0..1000).flat_map(|i| format!("line{i}\n").into_bytes()).collect();
    let (lines, dropped) =
        read_all(Some(&body[..]), Retention { max_lines: 10, keep: Keep::Bottom });
    assert_eq!(lines.len(), 10);
    assert_eq!(dropped, 990);
    assert_eq!(lines[9], b"line999\n");
}

#[test]
fn a_pipe_under_the_bound_is_byte_identical_to_today() {
    let body = b"alpha\nbeta\n".to_vec();
    let (lines, dropped) = read_all(Some(&body[..]), Retention { max_lines: 100, keep: Keep::Top });
    assert_eq!(lines.concat(), body, "an under-cap stream must round-trip byte-for-byte");
    assert_eq!(dropped, 0);
}

#[test]
fn an_absent_pipe_is_empty_and_drops_nothing() {
    let (lines, dropped) = read_all(None::<&[u8]>, Retention { max_lines: 10, keep: Keep::Top });
    assert!(lines.is_empty());
    assert_eq!(dropped, 0);
}

#[test]
fn an_under_cap_stream_round_trips_invalid_utf8_and_its_exact_framing() {
    let body = b"warn: \xff\nno trailing newline".to_vec();
    let (lines, dropped) =
        read_all(Some(&body[..]), Retention { max_lines: 100, keep: Keep::Bottom });
    assert_eq!(lines.concat(), body);
    assert_eq!(dropped, 0);
}

#[test]
fn empty_input_retains_nothing_and_drops_nothing() {
    let (lines, dropped) = read_all(Some(&b""[..]), Retention { max_lines: 10, keep: Keep::Top });
    assert!(lines.is_empty());
    assert_eq!(dropped, 0);
}

#[test]
fn trailing_blank_lines_survive_as_bytes() {
    let body = b"a\n\n\n".to_vec();
    let (lines, _) = read_all(Some(&body[..]), Retention { max_lines: 10, keep: Keep::Bottom });
    assert_eq!(lines.concat(), body, "the bytes survive; collapsing is the renderer's job");
}

#[test]
fn a_read_error_yields_what_arrived_rather_than_nothing() {
    let (lines, dropped) = read_all(
        Some(BreaksAfterOneRead { first: b"a\nb", delivered: false }),
        Retention { max_lines: 10, keep: Keep::Bottom },
    );
    assert_eq!(lines.concat(), b"a\nb");
    assert_eq!(dropped, 0);
}

#[test]
fn an_interrupted_read_is_retried_not_taken_for_the_end() {
    let (lines, dropped) = read_all(
        Some(InterruptedEachTime { rest: b"one\ntwo\n", interrupted: false }),
        Retention { max_lines: 10, keep: Keep::Bottom },
    );
    assert_eq!(lines, vec![b"one\n".to_vec(), b"two\n".to_vec()]);
    assert_eq!(dropped, 0);
}

#[test]
fn feeding_in_pieces_matches_feeding_whole() {
    let body = b"ab\r\ncd\nef\r\n\r\ngh";
    let mut whole = LineCap::new(3, Keep::Bottom);
    whole.feed(body);
    for cut in 0..body.len() {
        let mut split = LineCap::new(3, Keep::Bottom);
        split.feed(&body[..cut]);
        split.feed(&body[cut..]);
        assert_eq!(split.snapshot(), whole.snapshot(), "cut at {cut}");
    }
    assert_eq!(whole.finish(), (vec![b"ef\n".to_vec(), b"\n".to_vec(), b"gh".to_vec()], 2));
}

#[test]
fn compact_count_reads_like_a_person_would_write_it() {
    assert_eq!(compact_count(0), "0");
    assert_eq!(compact_count(90), "90");
    assert_eq!(compact_count(999), "999");
    assert_eq!(compact_count(1_000), "1.0k");
    assert_eq!(compact_count(1_250), "1.2k");
    assert_eq!(compact_count(999_999), "999.9k");
    assert_eq!(compact_count(1_000_000), "1.0M");
    assert_eq!(compact_count(2_560_000), "2.5M");
}

#[test]
fn keep_top_shuts_the_gate_for_good() {
    let mut cap = LineCap::new(1, Keep::Top);
    cap.feed(b"first\nsecond\nthird");
    assert_eq!(cap.finish(), (vec![b"first\n".to_vec()], 2));
}

#[test]
fn each_read_outcome_decides_whether_reading_goes_on() {
    let mut cap = LineCap::new(10, Keep::Bottom);
    assert!(absorb(&mut cap, Ok(b"one\ntw".to_vec())), "bytes: read on");
    assert!(absorb(&mut cap, Err(true)), "interrupted: retry");
    assert!(absorb(&mut cap, Ok(b"o\n".to_vec())));
    assert!(!absorb(&mut cap, Ok(Vec::new())), "end of file");
    assert!(!absorb(&mut cap, Err(false)), "a real error ends the stream");
    let (lines, dropped) = cap.finish();
    assert_eq!(lines, vec![b"one\n".to_vec(), b"two\n".to_vec()]);
    assert_eq!(dropped, 0);
}

/// The stream's segments, as the segment-level law reads them: cut after
/// every `\n`, plus a non-empty unterminated tail.
fn segments(x: &[u8]) -> Vec<Vec<u8>> {
    let mut out: Vec<Vec<u8>> = Vec::new();
    let mut cur = Vec::new();
    for &b in x {
        cur.push(b);
        if b == b'\n' {
            out.push(std::mem::take(&mut cur));
        }
    }
    if !cur.is_empty() {
        out.push(cur);
    }
    out
}

#[test]
fn every_segment_is_kept_or_counted_whatever_the_chunking() {
    let long = vec![b'x'; MAX_LINE_BYTES + 1];
    let mut stream = Vec::new();
    stream.extend_from_slice(b"one\r\n");
    stream.extend_from_slice(&long);
    stream.extend_from_slice(b"\ntwo\nthree\nfour\r\nta");
    stream.extend_from_slice(b"il\r");
    let total = segments(&stream).len();
    assert_eq!(total, 6);
    for keep in [Keep::Top, Keep::Bottom] {
        let mut whole = LineCap::new(3, keep);
        whole.feed(&stream);
        let whole = whole.finish();
        // Cut at every byte, and at an odd stride.
        for stride in [1usize, 7, 4096] {
            let mut cap = LineCap::new(3, keep);
            for chunk in stream.chunks(stride) {
                cap.feed(chunk);
            }
            assert_eq!(cap.finish(), whole);
        }
        assert_eq!(whole.0.len() + whole.1, total);
        let expected: Vec<Vec<u8>> = match keep {
            Keep::Top => vec![b"one\n".to_vec(), b"two\n".to_vec(), b"three\n".to_vec()],
            Keep::Bottom => vec![b"three\n".to_vec(), b"four\n".to_vec(), b"tail\r".to_vec()],
        };
        assert_eq!(whole.0, expected);
    }
}
