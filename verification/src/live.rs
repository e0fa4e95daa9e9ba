//! The handoff between a live source's readers and the loop: two bounded
//! line buffers and one outbox slot, latest wins, no queue. The loop's
//! termination argument says a source contributes at most one body per
//! iteration; a queue of emissions would break it.
//!
//! The wake is gated the same way: `feed` answers `true` only when it
//! fills an empty outbox, so while a body sits unread a flooding child
//! publishes silently. The shared handle (one lock over this state, so a
//! published body is an atomic view of both streams) lives with the
//! program.

use vstd::prelude::*;

use crate::retain::{fed, inv, line_views, start, CapView, LineCap, Retention};

verus! {

/// Which pipe a reader is feeding.
#[derive(Clone, Copy, Debug, Eq, PartialEq, Structural)]
pub enum Stream {
    Stdout,
    Stderr,
}

/// One body a live source offers the loop: each stream's retained lines,
/// kept apart, and the lines the bounds discarded across both.
#[derive(Debug, Eq, PartialEq)]
pub struct Emission {
    pub stdout: Vec<Vec<u8>>,
    pub stderr: Vec<Vec<u8>>,
    pub dropped: usize,
    /// When this body became current, in milliseconds.
    pub at: u64,
}

/// An emission as values.
pub struct EmissionView {
    pub stdout: Seq<Seq<u8>>,
    pub stderr: Seq<Seq<u8>>,
    pub dropped: nat,
    pub at: u64,
}

impl View for Emission {
    type V = EmissionView;

    open spec fn view(&self) -> EmissionView {
        EmissionView {
            stdout: line_views(self.stdout@),
            stderr: line_views(self.stderr@),
            dropped: self.dropped as nat,
            at: self.at,
        }
    }
}

/// The outbox as values.
pub struct OutboxView {
    pub stdout: CapView,
    pub stderr: CapView,
    pub pending: Option<EmissionView>,
}

/// A live source's two bounded buffers and its one-slot outbox.
pub struct Outbox {
    stdout: LineCap,
    stderr: LineCap,
    pending: Option<Emission>,
}

/// The shape a reader could see of one buffer: how many lines it holds
/// and how many it has dropped. A full buffer that evicts one line and
/// gains one keeps its length, so the drop count is part of the shape.
pub open spec fn shape(c: CapView) -> (nat, nat) {
    (c.retained.len(), c.dropped)
}

/// A count that stops at `usize::MAX`, as each buffer's own does.
pub open spec fn sat_sum(a: nat, b: nat) -> nat {
    if a + b > usize::MAX {
        usize::MAX as nat
    } else {
        a + b
    }
}

/// One chunk fed: the outbox after it, and whether it sends a wake. The
/// body is republished, both streams at once, only when the visible
/// shape moved; the wake only when it filled an empty outbox.
pub open spec fn fed_outbox(o: OutboxView, stream: Stream, chunk: Seq<u8>, at: u64) -> (OutboxView, bool) {
    let out = if stream == Stream::Stdout {
        fed(o.stdout, chunk)
    } else {
        o.stdout
    };
    let err = if stream == Stream::Stderr {
        fed(o.stderr, chunk)
    } else {
        o.stderr
    };
    if shape(out) == shape(o.stdout) && shape(err) == shape(o.stderr) {
        (OutboxView { stdout: out, stderr: err, pending: o.pending }, false)
    } else {
        (
            OutboxView {
                stdout: out,
                stderr: err,
                pending: Some(
                    EmissionView {
                        stdout: out.retained,
                        stderr: err.retained,
                        dropped: sat_sum(out.dropped, err.dropped),
                        at,
                    },
                ),
            },
            o.pending is None,
        )
    }
}

/// A run of feeds with no take between them: the outbox after it, and how
/// many wakes it sent.
pub open spec fn fed_run(o: OutboxView, feeds: Seq<(Stream, Seq<u8>, u64)>) -> (OutboxView, nat)
    decreases feeds.len(),
{
    if feeds.len() == 0 {
        (o, 0)
    } else {
        let (mid, n) = fed_run(o, feeds.drop_last());
        let f = feeds.last();
        let (next, woke) = fed_outbox(mid, f.0, f.1, f.2);
        (next, n + if woke {
            1nat
        } else {
            0nat
        })
    }
}

/// Between two takes, a run of feeds sends at most one wake, and only to
/// an empty outbox; once it has, or if a body was already pending, a body
/// stays pending. A flooding child cannot queue wakes behind an unread
/// body.
pub proof fn lemma_one_wake_per_body(o: OutboxView, feeds: Seq<(Stream, Seq<u8>, u64)>)
    ensures
        fed_run(o, feeds).1 <= 1,
        fed_run(o, feeds).1 == 1 ==> o.pending is None,
        (o.pending is Some || fed_run(o, feeds).1 == 1) ==> fed_run(o, feeds).0.pending is Some,
        fed_run(o, feeds).0.pending is None ==> fed_run(o, feeds).1 == 0,
    decreases feeds.len(),
{
    if feeds.len() > 0 {
        lemma_one_wake_per_body(o, feeds.drop_last());
    }
}

impl View for Outbox {
    type V = OutboxView;

    closed spec fn view(&self) -> OutboxView {
        OutboxView {
            stdout: self.stdout@,
            stderr: self.stderr@,
            pending: match self.pending {
                Some(e) => Some(e@),
                None => None,
            },
        }
    }
}

impl Outbox {
    /// Both buffers hold their invariant.
    pub closed spec fn wf(&self) -> bool {
        inv(self.stdout@) && inv(self.stderr@)
    }

    /// Empty buffers under each stream's retention, nothing pending.
    pub fn new(stdout: Retention, stderr: Retention) -> (r: Outbox)
        ensures
            r.wf(),
            r@.stdout == start(stdout.max_lines as nat, stdout.keep),
            r@.stderr == start(stderr.max_lines as nat, stderr.keep),
            r@.pending is None,
    {
        Outbox {
            stdout: LineCap::new(stdout.max_lines, stdout.keep),
            stderr: LineCap::new(stderr.max_lines, stderr.keep),
            pending: None,
        }
    }

    /// The shape a reader could see of both buffers; nothing is cloned.
    pub fn shape(&self) -> (r: (usize, usize, usize, usize))
        ensures
            (r.0 as nat, r.1 as nat) == shape(self@.stdout),
            (r.2 as nat, r.3 as nat) == shape(self@.stderr),
    {
        (
            self.stdout.retained_len(),
            self.stdout.dropped_count(),
            self.stderr.retained_len(),
            self.stderr.dropped_count(),
        )
    }

    /// Feed one chunk of one stream, and publish the whole body if the
    /// visible shape moved. Answers `true` only when this call filled an
    /// empty outbox: exactly when the reader should send a wake.
    pub fn feed(&mut self, stream: Stream, chunk: &[u8], at: u64) -> (r: bool)
        requires
            old(self).wf(),
        ensures
            final(self).wf(),
            (final(self)@, r) == fed_outbox(old(self)@, stream, chunk@, at),
    {
        let before = self.shape();
        match stream {
            Stream::Stdout => self.stdout.feed(chunk),
            Stream::Stderr => self.stderr.feed(chunk),
        }
        let after = self.shape();
        if after.0 == before.0 && after.1 == before.1 && after.2 == before.2 && after.3 == before.3 {
            // A chunk that landed mid-line changes nothing a reader can see.
            return false;
        }
        let (stdout, out_dropped) = self.stdout.snapshot();
        let (stderr, err_dropped) = self.stderr.snapshot();
        let was_empty = self.pending.is_none();
        self.pending = Some(
            Emission { stdout, stderr, dropped: out_dropped.saturating_add(err_dropped), at },
        );
        was_empty
    }

    /// Take the pending body, leaving the outbox empty and the buffers as
    /// they are.
    pub fn take(&mut self) -> (r: Option<Emission>)
        ensures
            final(self)@.stdout == old(self)@.stdout,
            final(self)@.stderr == old(self)@.stderr,
            final(self)@.pending is None,
            final(self).wf() == old(self).wf(),
            match r {
                Some(e) => old(self)@.pending == Some(e@),
                None => old(self)@.pending is None,
            },
    {
        self.pending.take()
    }
}

} // verus!
