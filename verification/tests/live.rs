use ratto::live::{Outbox, Stream};
use ratto::retain::{Keep, Retention};

fn ample() -> Retention {
    Retention {
        max_lines: 100,
        keep: Keep::Bottom,
    }
}

fn bound(max_lines: usize) -> Retention {
    Retention {
        max_lines,
        keep: Keep::Bottom,
    }
}

fn at() -> u64 {
    1_700_000_000_000
}

#[test]
fn the_first_visible_line_transitions_the_outbox_and_says_so() {
    let mut e = Outbox::new(ample(), ample());
    assert!(e.feed(Stream::Stdout, b"one\n", at()), "empty -> occupied");
    let body = e.take().expect("a body");
    assert_eq!(body.stdout, vec![b"one\n".to_vec()]);
    assert!(body.stderr.is_empty());
}

#[test]
fn feeding_while_a_body_is_unread_updates_it_and_sends_no_second_wake() {
    let mut e = Outbox::new(ample(), ample());
    assert!(e.feed(Stream::Stdout, b"one\n", at()));
    for i in 0..500 {
        assert!(
            !e.feed(Stream::Stdout, format!("line-{i}\n").as_bytes(), at()),
            "a wake was sent while a body was still pending"
        );
    }
    let body = e.take().expect("a body");
    assert_eq!(body.stdout.last().unwrap(), b"line-499\n");
    assert!(e.take().is_none(), "one slot, never a backlog");
}

#[test]
fn taking_re_arms_the_wake() {
    let mut e = Outbox::new(ample(), ample());
    assert!(e.feed(Stream::Stdout, b"a\n", at()));
    e.take();
    assert!(e.feed(Stream::Stdout, b"b\n", at()), "a taken slot re-arms");
}

#[test]
fn a_partial_line_moves_nothing_and_wakes_nobody() {
    let mut e = Outbox::new(ample(), ample());
    assert!(!e.feed(Stream::Stdout, b"no-terminator", at()));
    assert!(e.take().is_none());
    assert!(
        e.feed(Stream::Stdout, b"-yet\n", at()),
        "the terminator moves it"
    );
    assert_eq!(e.take().unwrap().stdout, vec![b"no-terminator-yet\n".to_vec()]);
}

#[test]
fn the_two_streams_stay_apart_and_a_published_body_carries_both() {
    let mut e = Outbox::new(ample(), ample());
    e.feed(Stream::Stdout, b"out-1\n", at());
    e.feed(Stream::Stderr, b"err-1\n", at());
    let body = e.take().expect("a body");
    assert_eq!(body.stdout, vec![b"out-1\n".to_vec()]);
    assert_eq!(body.stderr, vec![b"err-1\n".to_vec()]);
}

#[test]
fn a_stderr_feed_publishes_the_current_stdout_too() {
    let mut e = Outbox::new(ample(), ample());
    e.feed(Stream::Stdout, b"out-1\n", at());
    e.take();
    e.feed(Stream::Stderr, b"err-1\n", at());
    let body = e.take().expect("a body");
    assert_eq!(
        body.stdout,
        vec![b"out-1\n".to_vec()],
        "stdout must not vanish"
    );
    assert_eq!(body.stderr, vec![b"err-1\n".to_vec()]);
}

#[test]
fn each_stream_keeps_its_own_bound_and_the_drop_count_is_the_sum() {
    let mut e = Outbox::new(bound(1), bound(1));
    e.feed(Stream::Stdout, b"o1\no2\no3\n", at());
    e.feed(Stream::Stderr, b"e1\ne2\n", at());
    let body = e.take().expect("a body");
    assert_eq!(body.stdout, vec![b"o3\n".to_vec()]);
    assert_eq!(body.stderr, vec![b"e2\n".to_vec()]);
    assert_eq!(body.dropped, 3, "2 dropped from stdout + 1 from stderr");
}

#[test]
fn eviction_alone_counts_as_movement() {
    let mut e = Outbox::new(bound(1), bound(1));
    assert!(e.feed(Stream::Stdout, b"first\n", at()));
    e.take();
    assert!(
        e.feed(Stream::Stdout, b"second\n", at()),
        "eviction is movement"
    );
}

#[test]
fn a_published_body_carries_its_time_and_the_shape_reads_both_buffers() {
    let mut e = Outbox::new(bound(2), ample());
    e.feed(Stream::Stdout, b"a\nb\nc\n", 7);
    e.feed(Stream::Stderr, b"x\n", 9);
    assert_eq!(e.shape(), (2, 1, 1, 0));
    assert_eq!(e.take().unwrap().at, 9, "latest wins");
}
