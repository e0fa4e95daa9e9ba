//! When the next watch child may start.
//!
//! Fixed-delay, not fixed-rate: the deadline is set when a tick
//! completes, so the gap between one child exiting and the next starting
//! is always one interval, and two children never overlap. A schedule
//! without an interval never sets its own deadline: it spawns once at
//! startup and then only when a request collapses it. Pure: every method
//! takes `now`. Instants and durations are whole milliseconds on one
//! monotonic clock.

use vstd::prelude::*;

verus! {

/// When the next child may spawn.
#[derive(Copy, Clone, PartialEq, Eq, Debug, Structural)]
pub enum Deadline {
    /// Spawn at the next poll.
    Now,
    /// Spawn once `now` reaches the instant.
    At(u64),
    /// No deadline of its own: only a request collapses it.
    Never,
}

/// What the loop should do about the child on this turn.
#[derive(Copy, Clone, PartialEq, Eq, Debug, Structural)]
pub enum Due {
    /// Start a child now. Answering this records one as in flight: the
    /// caller must start it.
    Spawn,
    /// The interval has not elapsed.
    Wait,
    /// A child is already running; only its completion moves this on.
    Running,
}

/// The state of a [`TickSchedule`].
#[derive(Copy, Clone, PartialEq, Eq, Debug, Structural)]
pub struct SchedState {
    pub interval: Option<u64>,
    pub due: Deadline,
    pub in_flight: bool,
    /// A request an in-flight child cannot satisfy.
    pub respawn: bool,
}

/// The cadence for one child source: at most one in flight, the next
/// start due one interval after the last completion.
pub struct TickSchedule {
    interval: Option<u64>,
    due: Deadline,
    in_flight: bool,
    respawn: bool,
}

impl View for TickSchedule {
    type V = SchedState;

    closed spec fn view(&self) -> SchedState {
        SchedState {
            interval: self.interval,
            due: self.due,
            in_flight: self.in_flight,
            respawn: self.respawn,
        }
    }
}

/// A fresh schedule: due at once.
pub open spec fn fresh(interval: Option<u64>) -> SchedState {
    SchedState { interval, due: Deadline::Now, in_flight: false, respawn: false }
}

/// What `poll` answers at `now`, and the state after.
pub open spec fn polled(s: SchedState, now: u64) -> (SchedState, Due) {
    if s.in_flight {
        (s, Due::Running)
    } else {
        match s.due {
            Deadline::At(due) => if now < due {
                (s, Due::Wait)
            } else {
                (SchedState { in_flight: true, ..s }, Due::Spawn)
            },
            Deadline::Never => (s, Due::Wait),
            Deadline::Now => (SchedState { in_flight: true, ..s }, Due::Spawn),
        }
    }
}

/// Whether `completed(now)` can place its deadline on the clock.
pub open spec fn completes_in_range(s: SchedState, now: u64) -> bool {
    s.interval matches Some(i) ==> now + i <= u64::MAX
}

/// The state after a child finished at `now`.
pub open spec fn after_completion(s: SchedState, now: u64) -> SchedState {
    SchedState {
        due: if s.respawn {
            Deadline::Now
        } else {
            match s.interval {
                Some(i) => Deadline::At((now + i) as u64),
                None => Deadline::Never,
            }
        },
        respawn: false,
        in_flight: false,
        ..s
    }
}

/// The state after `request_now`.
pub open spec fn after_request(s: SchedState) -> SchedState {
    SchedState { due: Deadline::Now, ..s }
}

/// The state after `request_respawn`.
pub open spec fn after_respawn_request(s: SchedState) -> SchedState {
    SchedState { due: Deadline::Now, respawn: s.in_flight, ..s }
}

/// The longest the caller may sleep at `now`, never more than `cap`.
pub open spec fn nap_of(s: SchedState, now: u64, cap: u64) -> u64 {
    if s.in_flight {
        cap
    } else {
        match s.due {
            Deadline::Now => 0,
            Deadline::At(due) => {
                let left: u64 = if due > now {
                    (due - now) as u64
                } else {
                    0
                };
                if left < cap {
                    left
                } else {
                    cap
                }
            },
            Deadline::Never => cap,
        }
    }
}

impl TickSchedule {
    /// A fresh schedule starts due: the first child spawns at once,
    /// interval or not.
    pub fn new(interval: Option<u64>) -> (r: TickSchedule)
        ensures
            r@ == fresh(interval),
    {
        TickSchedule { interval, due: Deadline::Now, in_flight: false, respawn: false }
    }

    /// The fixed delay between a completion and the next start.
    pub fn interval(&self) -> (r: Option<u64>)
        ensures
            r == self@.interval,
    {
        self.interval
    }

    /// Whether a child should start at `now`.
    pub fn poll(&mut self, now: u64) -> (r: Due)
        ensures
            (final(self)@, r) == polled(old(self)@, now),
    {
        if self.in_flight {
            return Due::Running;
        }
        match self.due {
            Deadline::At(due) => {
                if now < due {
                    Due::Wait
                } else {
                    self.in_flight = true;
                    Due::Spawn
                }
            },
            Deadline::Never => Due::Wait,
            Deadline::Now => {
                self.in_flight = true;
                Due::Spawn
            },
        }
    }

    /// A child finished and its frame has been composed.
    pub fn completed(&mut self, now: u64)
        requires
            completes_in_range(old(self)@, now),
        ensures
            final(self)@ == after_completion(old(self)@, now),
    {
        self.due = if self.respawn {
            Deadline::Now
        } else {
            match self.interval {
                Some(i) => Deadline::At(now + i),
                None => Deadline::Never,
            }
        };
        self.respawn = false;
        self.in_flight = false;
    }

    /// Ask for a tick as soon as possible. An in-flight child's
    /// completion discharges it.
    pub fn request_now(&mut self)
        ensures
            final(self)@ == after_request(old(self)@),
    {
        self.due = Deadline::Now;
    }

    /// Ask for a new child. An in-flight one cannot satisfy this, so the
    /// request survives that completion. Spent after one spawn.
    pub fn request_respawn(&mut self)
        ensures
            final(self)@ == after_respawn_request(old(self)@),
    {
        self.due = Deadline::Now;
        self.respawn = self.in_flight;
    }

    /// The longest the caller may sleep before it must ask again.
    pub fn nap(&self, now: u64, cap: u64) -> (r: u64)
        ensures
            r == nap_of(self@, now, cap),
    {
        if self.in_flight {
            return cap;
        }
        match self.due {
            Deadline::Now => 0,
            Deadline::At(due) => {
                let left = if due > now {
                    due - now
                } else {
                    0
                };
                if left < cap {
                    left
                } else {
                    cap
                }
            },
            Deadline::Never => cap,
        }
    }
}

/// Only one child runs at a time: while one is in flight every poll
/// answers `Running` and changes nothing, and a `Spawn` is only ever
/// answered with nothing in flight, which it then records.
pub proof fn lemma_one_child_at_a_time(s: SchedState, now: u64)
    ensures
        s.in_flight ==> polled(s, now) == (s, Due::Running),
        polled(s, now).1 == Due::Spawn ==> !s.in_flight && polled(s, now).0.in_flight,
        polled(s, now).1 != Due::Spawn ==> polled(s, now).0 == s,
{
}

/// Fixed delay: once a child completes at `t` with no respawn pending, the
/// next spawn comes exactly one interval later, and not before.
pub proof fn lemma_fixed_delay(s: SchedState, t: u64, later: u64, interval: u64)
    requires
        s.interval == Some(interval),
        !s.respawn,
        t + interval <= u64::MAX,
    ensures
        polled(after_completion(s, t), later).1 == if later < t + interval {
            Due::Wait
        } else {
            Due::Spawn
        },
{
}

/// Without an interval, a completed schedule waits however long passes.
pub proof fn lemma_no_interval_waits_forever(s: SchedState, t: u64, later: u64)
    requires
        s.interval is None,
        !s.respawn,
    ensures
        polled(after_completion(s, t), later).1 == Due::Wait,
{
}

/// An immediate request made while a child runs is discharged by that
/// child's completion: completing after the request is completing without
/// it.
pub proof fn lemma_request_discharged_by_completion(s: SchedState, t: u64)
    ensures
        after_completion(after_request(s), t) == after_completion(s, t),
{
}

/// A respawn requested while a child runs outlives that child, spawns at
/// once after it, and is spent by that one spawn.
pub proof fn lemma_respawn_outlives_its_child(s: SchedState, t: u64, t2: u64)
    requires
        s.in_flight,
        completes_in_range(s, t),
    ensures
        polled(after_completion(after_respawn_request(s), t), t2).1 == Due::Spawn,
        !polled(after_completion(after_respawn_request(s), t), t2).0.respawn,
{
}

/// Any request collapses the deadline: with nothing in flight the next
/// poll spawns.
pub proof fn lemma_request_spawns_next(s: SchedState, now: u64)
    requires
        !s.in_flight,
    ensures
        polled(after_request(s), now).1 == Due::Spawn,
        polled(after_respawn_request(s), now).1 == Due::Spawn,
        !after_respawn_request(s).respawn,
{
}

/// The nap never outruns the cap, nor a deadline that has not passed, and
/// is zero exactly when a poll would spawn at once (given a nonzero cap).
pub proof fn lemma_nap_bounds(s: SchedState, now: u64, cap: u64)
    ensures
        nap_of(s, now, cap) <= cap,
        forall|d: u64|
            !s.in_flight && s.due == Deadline::At(d) && now < d ==> now + nap_of(s, now, cap) <= d,
        cap > 0 ==> (nap_of(s, now, cap) == 0 <==> polled(s, now).1 == Due::Spawn),
{
}

} // verus!
