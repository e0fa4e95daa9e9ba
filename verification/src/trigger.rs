//! Triggers: the `--trigger` grammar, the debounce gate, and the windowed
//! evidence behind the feedback-loop suspicion test.

use vstd::prelude::*;

use crate::busy::{covered, spans_within, union_len};
use crate::registry::SourceId;

use crate::text::{
    chars_of, debug_quote, debug_quoted, decimal, decimal_string, parse_i32, parsed_i32,
    push_str, str_eq, string_of, slice_of, views,
};

verus! {

/// One parsed `--trigger` source. Paths are carried as text.
#[derive(Clone, PartialEq, Eq, Debug)]
pub enum TriggerSpec {
    /// A named pipe, opened read + dummy-write so it never sees EOF.
    Fifo(String),
    /// A path (file or directory) stat-polled by mtime.
    File(String),
    /// An inherited descriptor folded into a reader's select set.
    Fd(i32),
}

/// `select(2)`'s hard ceiling: a descriptor at or past it is refused.
pub const FD_SETSIZE: i32 = 1024;

/// A `--trigger` spec that does not parse. Each variant carries the spec
/// as written, or the descriptor number.
#[derive(Clone, PartialEq, Eq, Debug)]
pub enum TriggerError {
    /// No scheme, an empty path, or an unknown scheme.
    Teach(String),
    /// `fd:` followed by something that is not a number.
    FdNotNumber(String),
    /// `fd:` followed by a negative number.
    FdNegative(String),
    /// A descriptor at or past [`FD_SETSIZE`].
    FdOutOfRange(i32),
}

/// `file`.
pub open spec fn scheme_file() -> Seq<char> {
    seq!['f', 'i', 'l', 'e']
}

/// `fifo`.
pub open spec fn scheme_fifo() -> Seq<char> {
    seq!['f', 'i', 'f', 'o']
}

/// `fd`.
pub open spec fn scheme_fd() -> Seq<char> {
    seq!['f', 'd']
}

/// Index of the first `:` in `s`, if any.
pub open spec fn first_colon(s: Seq<char>) -> Option<int>
    decreases s.len(),
{
    if s.len() == 0 {
        None
    } else if s[0] == ':' {
        Some(0)
    } else {
        match first_colon(s.skip(1)) {
            Some(k) => Some(k + 1),
            None => None,
        }
    }
}

/// How `parse_trigger` answers: the spec it builds, or the error. Paths
/// and spec text are compared by their characters.
pub open spec fn trigger_outcome(s: Seq<char>, r: Result<TriggerSpec, TriggerError>) -> bool {
    match first_colon(s) {
        None => r matches Err(TriggerError::Teach(t)) && t@ == s,
        Some(k) => {
            let scheme = s.take(k);
            let rest = s.skip(k + 1);
            if rest.len() == 0 {
                r matches Err(TriggerError::Teach(t)) && t@ == s
            } else if scheme == scheme_file() {
                r matches Ok(TriggerSpec::File(p)) && p@ == rest
            } else if scheme == scheme_fifo() {
                r matches Ok(TriggerSpec::Fifo(p)) && p@ == rest
            } else if scheme == scheme_fd() {
                match parsed_i32(rest) {
                    None => r matches Err(TriggerError::FdNotNumber(t)) && t@ == s,
                    Some(n) => if n < 0 {
                        r matches Err(TriggerError::FdNegative(t)) && t@ == s
                    } else if n >= FD_SETSIZE {
                        r == Err::<TriggerSpec, TriggerError>(TriggerError::FdOutOfRange(n))
                    } else {
                        r == Ok::<TriggerSpec, TriggerError>(TriggerSpec::Fd(n))
                    },
                }
            } else {
                r matches Err(TriggerError::Teach(t)) && t@ == s
            }
        },
    }
}

/// Whether `parse_trigger` accepts `s`.
pub open spec fn trigger_accepts(s: Seq<char>) -> bool {
    match first_colon(s) {
        None => false,
        Some(k) => {
            let scheme = s.take(k);
            let rest = s.skip(k + 1);
            let fd_ok = match parsed_i32(rest) {
                Some(n) => 0 <= n && n < FD_SETSIZE,
                None => false,
            };
            rest.len() > 0 && (scheme == scheme_file() || scheme == scheme_fifo() || (scheme
                == scheme_fd() && fd_ok))
        },
    }
}

/// `parse_trigger` succeeds exactly on the specs it accepts.
pub proof fn lemma_trigger_accepts(s: Seq<char>, r: Result<TriggerSpec, TriggerError>)
    requires
        trigger_outcome(s, r),
    ensures
        r is Ok <==> trigger_accepts(s),
{
}

proof fn lemma_first_colon(s: Seq<char>, k: int)
    requires
        0 <= k <= s.len(),
        forall|j: int| 0 <= j < k ==> s[j] != ':',
    ensures
        k < s.len() && s[k] == ':' ==> first_colon(s) == Some(k),
        k == s.len() ==> first_colon(s) is None,
    decreases k,
{
    if k > 0 {
        lemma_first_colon(s.skip(1), k - 1);
    }
}

/// Parse one `--trigger` spec. Bare paths are rejected: the scheme is the
/// contract, and the error teaches it.
pub fn parse_trigger(s: &str) -> (r: Result<TriggerSpec, TriggerError>)
    ensures
        trigger_outcome(s@, r),
{
    let v = chars_of(s);
    let mut k: usize = 0;
    while k < v.len() && v[k] != ':'
        invariant
            k <= v@.len(),
            forall|j: int| 0 <= j < k ==> v@[j] != ':',
        decreases v@.len() - k,
    {
        k += 1;
    }
    proof {
        lemma_first_colon(v@, k as int);
    }
    if k == v.len() {
        return Err(TriggerError::Teach(s.to_owned()));
    }
    let scheme = string_of(slice_of(&v, 0, k));
    let rest = string_of(slice_of(&v, k + 1, v.len()));
    proof {
        assert(v@.subrange(0, k as int) =~= v@.take(k as int));
        assert(v@.subrange(k + 1, v@.len() as int) =~= v@.skip(k + 1));
    }
    if rest.as_str().is_empty() {
        return Err(TriggerError::Teach(s.to_owned()));
    }
    proof {
        reveal_strlit("file");
        reveal_strlit("fifo");
        reveal_strlit("fd");
        assert("file"@ =~= scheme_file());
        assert("fifo"@ =~= scheme_fifo());
        assert("fd"@ =~= scheme_fd());
    }
    if crate::text::str_eq(scheme.as_str(), "file") {
        Ok(TriggerSpec::File(rest))
    } else if crate::text::str_eq(scheme.as_str(), "fifo") {
        Ok(TriggerSpec::Fifo(rest))
    } else if crate::text::str_eq(scheme.as_str(), "fd") {
        match parse_i32(rest.as_str()) {
            None => Err(TriggerError::FdNotNumber(s.to_owned())),
            Some(n) => if n < 0 {
                Err(TriggerError::FdNegative(s.to_owned()))
            } else if n >= FD_SETSIZE {
                Err(TriggerError::FdOutOfRange(n))
            } else {
                Ok(TriggerSpec::Fd(n))
            },
        }
    } else {
        Err(TriggerError::Teach(s.to_owned()))
    }
}

/// The text of a signed number.
pub open spec fn signed_decimal(n: int) -> Seq<char> {
    if n >= 0 {
        decimal(n as nat)
    } else {
        seq!['-'] + decimal((-n) as nat)
    }
}

fn signed_decimal_string(n: i32) -> (r: String)
    ensures
        r@ == signed_decimal(n as int),
{
    if n >= 0 {
        decimal_string(n as usize)
    } else {
        let mut r = String::new();
        push_str(&mut r, "-");
        let m: i64 = 0i64 - n as i64;
        push_str(&mut r, decimal_string(m as usize).as_str());
        proof {
            reveal_strlit("-");
            assert(r@ =~= seq!['-'] + decimal((-n) as nat));
        }
        r
    }
}

/// A spec in the scheme-prefixed form the user wrote.
pub open spec fn trigger_label(t: TriggerSpec) -> Seq<char> {
    match t {
        TriggerSpec::Fifo(p) => "fifo:"@ + p@,
        TriggerSpec::File(p) => "file:"@ + p@,
        TriggerSpec::Fd(n) => "fd:"@ + signed_decimal(n as int),
    }
}

impl TriggerSpec {
    /// The scheme-prefixed form the user wrote.
    pub fn label(&self) -> (r: String)
        ensures
            r@ == trigger_label(*self),
    {
        let mut r = String::new();
        match self {
            TriggerSpec::Fifo(p) => {
                push_str(&mut r, "fifo:");
                push_str(&mut r, p.as_str());
            },
            TriggerSpec::File(p) => {
                push_str(&mut r, "file:");
                push_str(&mut r, p.as_str());
            },
            TriggerSpec::Fd(n) => {
                push_str(&mut r, "fd:");
                push_str(&mut r, signed_decimal_string(*n).as_str());
            },
        }
        r
    }
}

/// The sentence a `TriggerError` reads as.
pub open spec fn trigger_error_text(e: TriggerError) -> Seq<char> {
    match e {
    TriggerError::Teach(t) => "invalid trigger "@ + debug_quoted(t@)
        + ": expected fifo:PATH, file:PATH, or fd:N"@,
    TriggerError::FdNotNumber(t) => "invalid trigger "@ + debug_quoted(t@)
        + ": fd:N takes a number"@,
    TriggerError::FdNegative(t) => "invalid trigger "@ + debug_quoted(t@)
        + ": fd:N takes a non-negative number"@,
    TriggerError::FdOutOfRange(n) => "fd:"@ + signed_decimal(n as int)
        + " is out of range for select(2); descriptors must be below 1024"@,
    }
}

impl TriggerError {
    /// The sentence the spec is refused with; it teaches the schemes.
    pub fn message(&self) -> (r: String)
        ensures
            r@ == trigger_error_text(*self),
    {
        let mut r = String::new();
        match self {
            TriggerError::Teach(t) => {
                push_str(&mut r, "invalid trigger ");
                push_str(&mut r, debug_quote(t.as_str()).as_str());
                push_str(&mut r, ": expected fifo:PATH, file:PATH, or fd:N");
            },
            TriggerError::FdNotNumber(t) => {
                push_str(&mut r, "invalid trigger ");
                push_str(&mut r, debug_quote(t.as_str()).as_str());
                push_str(&mut r, ": fd:N takes a number");
            },
            TriggerError::FdNegative(t) => {
                push_str(&mut r, "invalid trigger ");
                push_str(&mut r, debug_quote(t.as_str()).as_str());
                push_str(&mut r, ": fd:N takes a non-negative number");
            },
            TriggerError::FdOutOfRange(n) => {
                push_str(&mut r, "fd:");
                push_str(&mut r, signed_decimal_string(*n).as_str());
                push_str(&mut r, " is out of range for select(2); descriptors must be below 1024");
            },
        }
        r
    }
}

/// Collapses trigger fires into one spawn request per window. The window
/// is anchored at the first unserved fire: later fires inside it are
/// already covered by the spawn it owes. Milliseconds throughout.
#[derive(Clone, Copy, Debug, PartialEq, Eq, Structural)]
pub struct DebounceGate {
    pub window: u64,
    /// When the open window closes; `None` with no fire unserved.
    pub deadline: Option<u64>,
}

/// The debouncer after a fire at `now`.
pub open spec fn gate_fired(g: DebounceGate, now: u64) -> DebounceGate {
    if g.deadline is None {
        DebounceGate { deadline: Some((now + g.window) as u64), ..g }
    } else {
        g
    }
}

/// Whether the debouncer is due at `now`, and its state after asking.
pub open spec fn gate_due(g: DebounceGate, now: u64) -> (DebounceGate, bool) {
    match g.deadline {
        Some(d) => if now >= d {
            (DebounceGate { deadline: None, ..g }, true)
        } else {
            (g, false)
        },
        None => (g, false),
    }
}

impl DebounceGate {
    pub fn new(window: u64) -> (r: DebounceGate)
        ensures
            r == (DebounceGate { window, deadline: None }),
    {
        DebounceGate { window, deadline: None }
    }

    /// Record a fire. Opens a window only if none is open.
    pub fn fire(&mut self, now: u64)
        requires
            old(self).deadline is None ==> now + old(self).window <= u64::MAX,
        ensures
            *final(self) == gate_fired(*old(self), now),
    {
        if self.deadline.is_none() {
            self.deadline = Some(now + self.window);
        }
    }

    /// True exactly once per window, when it closes; clears the window.
    pub fn due(&mut self, now: u64) -> (r: bool)
        ensures
            (*final(self), r) == gate_due(*old(self), now),
    {
        match self.deadline {
            Some(d) => {
                if now >= d {
                    self.deadline = None;
                    true
                } else {
                    false
                }
            },
            None => false,
        }
    }
}

/// The window is anchored: a fire while one is open does not move it; a
/// fire with none open opens one exactly `window` long. A due answer is
/// given once per window: right after it the debouncer is closed and not due.
pub proof fn lemma_gate_is_anchored(g: DebounceGate, now: u64, later: u64)
    requires
        g.deadline is None ==> now + g.window <= u64::MAX,
    ensures
        g.deadline is Some ==> gate_fired(g, now) == g,
        g.deadline is None ==> gate_fired(g, now).deadline == Some((now + g.window) as u64),
        gate_due(g, now).1 ==> !gate_due(gate_due(g, now).0, later).1,
        gate_due(gate_fired(g, now), later).1 <==> (later >= gate_fired(g, now).deadline.unwrap()),
{
}

// ---------------------------------------------------------------------
// Windowed evidence. Instants and widths are milliseconds.

/// A path's fingerprint: `None` when the path is absent, else its newest
/// relevant modification time.
#[derive(Copy, Clone, PartialEq, Eq, Debug, Structural)]
pub struct PathStamp(pub Option<u64>);

/// A stable handle to one bracket. Monotonic and never reused, so
/// evicting an older bracket cannot shift what a live source holds.
#[derive(Copy, Clone, PartialEq, Eq, PartialOrd, Ord, Hash, Debug, Structural)]
pub struct BracketId(pub u64);

/// One spawn-to-exit interval of one source, with the watched union
/// stamped on both sides.
#[derive(Debug)]
pub struct Bracket {
    pub id: BracketId,
    pub source: SourceId,
    pub opened: u64,
    /// `None` while the child is still running.
    pub closed: Option<u64>,
    pub open_stamps: Vec<(String, PathStamp)>,
    pub close_stamps: Vec<(String, PathStamp)>,
}

/// One observed change to one watched path.
#[derive(Clone, Debug)]
pub struct Change {
    pub at: u64,
    /// The brackets this change fell inside, with each one's width. Empty
    /// means no child was in flight: the change is exogenous.
    pub containing: Vec<(SourceId, u64)>,
}

/// Which trigger an observation came from: a `file:` source by its path,
/// a reader route by its spec's label.
#[derive(Clone, PartialEq, Eq, Hash, Debug)]
pub struct TriggerKey(pub String);

/// One reader arrival. Its covering brackets are identified when the
/// bytes arrive; their widths are resolved later.
#[derive(Debug)]
pub struct Arrival {
    pub source: SourceId,
    pub trigger: TriggerKey,
    pub at: u64,
    /// The brackets covering `at`, by id. Empty means nothing was in flight.
    pub containing: Vec<BracketId>,
}

/// A bracket's final width, or `None` while its child runs.
pub open spec fn bracket_width(b: Bracket) -> Option<u64> {
    match b.closed {
        Some(c) => Some(if c >= b.opened {
            (c - b.opened) as u64
        } else {
            0u64
        }),
        None => None,
    }
}

/// Whether a bracket covers `at`; an open one covers everything from its
/// start on.
pub open spec fn spans_at(b: Bracket, at: u64) -> bool {
    b.opened <= at && (b.closed matches Some(c) ==> c >= at)
}

/// When a bracket ends, treating a live child as ending now.
pub open spec fn end_at(b: Bracket, now: u64) -> u64 {
    match b.closed {
        Some(c) => c,
        None => now,
    }
}

impl Bracket {
    /// Final width, or `None` while the child is still running.
    pub fn width(&self) -> (r: Option<u64>)
        ensures
            r == bracket_width(*self),
    {
        match self.closed {
            Some(c) => Some(if c >= self.opened {
                c - self.opened
            } else {
                0
            }),
            None => None,
        }
    }

    fn end_or(&self, now: u64) -> (r: u64)
        ensures
            r == end_at(*self, now),
    {
        match self.closed {
            Some(c) => c,
            None => now,
        }
    }

    fn spans(&self, at: u64) -> (r: bool)
        ensures
            r == spans_at(*self, at),
    {
        self.opened <= at && match self.closed {
            Some(c) => c >= at,
            None => true,
        }
    }
}

/// The start of the window ending at `now`; `None` before the clock has
/// run a whole window.
pub open spec fn cutoff_of(window: u64, now: u64) -> Option<u64> {
    if now >= window {
        Some((now - window) as u64)
    } else {
        None
    }
}

/// Whether an instant is inside the window starting at `c`.
pub open spec fn in_window(at: u64, c: Option<u64>) -> bool {
    match c {
        Some(c) => at >= c,
        None => true,
    }
}

/// The members of `s` that satisfy `p`, in order.
pub open spec fn kept<T>(s: Seq<T>, p: spec_fn(T) -> bool) -> Seq<T>
    decreases s.len(),
{
    if s.len() == 0 {
        Seq::empty()
    } else if p(s.last()) {
        kept(s.drop_last(), p).push(s.last())
    } else {
        kept(s.drop_last(), p)
    }
}

pub proof fn lemma_kept_step<T>(s: Seq<T>, p: spec_fn(T) -> bool, i: int)
    requires
        0 <= i < s.len(),
    ensures
        kept(s.take(i + 1), p) == if p(s[i]) {
            kept(s.take(i), p).push(s[i])
        } else {
            kept(s.take(i), p)
        },
{
    assert(s.take(i + 1).drop_last() =~= s.take(i));
    assert(s.take(i + 1).last() == s[i]);
}

/// Respawns of `source` inside the window.
pub open spec fn respawn_count(rs: Seq<(SourceId, u64)>, source: SourceId, c: Option<u64>) -> nat {
    kept(rs, respawn_pred(source, c)).len()
}

/// A respawn of `source` inside the window starting at `c`.
pub open spec fn respawn_pred(source: SourceId, c: Option<u64>) -> spec_fn((SourceId, u64)) -> bool {
    |r: (SourceId, u64)| r.0 == source && in_window(r.1, c)
}

/// The instants of `[start, now)` during which some bracket was in
/// flight, a running one up to `now`.
pub open spec fn busy_instants(bs: Seq<Bracket>, start: u64, now: u64) -> Set<int> {
    Set::new(
        |t: int|
            start <= t < now && exists|i: int| 0 <= i < bs.len() && #[trigger] bs[i].opened <= t < end_at(bs[i], now),
    )
}

/// The closed brackets covering `at`, with their final widths.
pub open spec fn covering_of(bs: Seq<Bracket>, at: u64) -> Seq<(SourceId, u64)>
    decreases bs.len(),
{
    if bs.len() == 0 {
        Seq::empty()
    } else {
        let rest = covering_of(bs.drop_last(), at);
        let b = bs.last();
        if b.closed is Some && spans_at(b, at) {
            rest.push((b.source, bracket_width(b).unwrap()))
        } else {
            rest
        }
    }
}

/// The ids of the brackets spanning `at`, in order.
pub open spec fn spanning_ids(bs: Seq<Bracket>, at: u64) -> Seq<BracketId>
    decreases bs.len(),
{
    if bs.len() == 0 {
        Seq::empty()
    } else if spans_at(bs.last(), at) {
        spanning_ids(bs.drop_last(), at).push(bs.last().id)
    } else {
        spanning_ids(bs.drop_last(), at)
    }
}

/// The first bracket with this id.
pub open spec fn find_bracket(bs: Seq<Bracket>, id: BracketId) -> Option<Bracket>
    decreases bs.len(),
{
    if bs.len() == 0 {
        None
    } else if bs[0].id == id {
        Some(bs[0])
    } else {
        find_bracket(bs.skip(1), id)
    }
}

/// An arrival's covering brackets resolved to final widths; `None` while
/// any is open or gone.
pub open spec fn widths_of(bs: Seq<Bracket>, ids: Seq<BracketId>) -> Option<Seq<(SourceId, u64)>>
    decreases ids.len(),
{
    if ids.len() == 0 {
        Some(Seq::empty())
    } else {
        match widths_of(bs, ids.drop_last()) {
            None => None,
            Some(w) => match find_bracket(bs, ids.last()) {
                Some(b) => match bracket_width(b) {
                    Some(x) => Some(w.push((b.source, x))),
                    None => None,
                },
                None => None,
            },
        }
    }
}

/// The arrivals of one trigger, in order.
pub open spec fn arrivals_for(arr: Seq<Arrival>, key: Seq<char>) -> Seq<Arrival> {
    kept(arr, |a: Arrival| a.trigger.0@ == key)
}

/// Whether an arrival references a bracket id.
pub open spec fn referenced(arr: Seq<Arrival>, id: BracketId) -> bool {
    exists|i: int, j: int| 0 <= i < arr.len() && 0 <= j < arr[i].containing@.len() && #[trigger] arr[i].containing@[j] == id
}

/// Bracket ids strictly increase and all sit below the next id.
pub open spec fn ids_ordered(bs: Seq<Bracket>, next_id: u64) -> bool {
    &&& forall|i: int, j: int| 0 <= i < j < bs.len() ==> #[trigger] bs[i].id.0 < #[trigger] bs[j].id.0
    &&& forall|i: int| 0 <= i < bs.len() ==> #[trigger] bs[i].id.0 < next_id
}

/// Every windowed quantity the suspicion test reads, all of it evicting.
pub struct WindowLog {
    window: u64,
    next_id: u64,
    brackets: Vec<Bracket>,
    respawns: Vec<(SourceId, u64)>,
    arrivals: Vec<Arrival>,
    overflows: Vec<u64>,
}

impl WindowLog {
    pub closed spec fn window_of(&self) -> u64 {
        self.window
    }

    pub closed spec fn next_id_of(&self) -> u64 {
        self.next_id
    }

    pub closed spec fn brackets_of(&self) -> Seq<Bracket> {
        self.brackets@
    }

    pub closed spec fn respawns_of(&self) -> Seq<(SourceId, u64)> {
        self.respawns@
    }

    pub closed spec fn arrivals_of(&self) -> Seq<Arrival> {
        self.arrivals@
    }

    pub closed spec fn overflows_of(&self) -> Seq<u64> {
        self.overflows@
    }

    /// The log's invariant: bracket ids are unique and ordered.
    pub open spec fn wf(&self) -> bool {
        ids_ordered(self.brackets_of(), self.next_id_of())
    }

    /// The window the log keeps.
    pub fn window(&self) -> (r: u64)
        ensures
            r == self.window_of(),
    {
        self.window
    }

    pub fn new(window: u64) -> (r: WindowLog)
        ensures
            r.wf(),
            r.window_of() == window,
            r.next_id_of() == 0,
            r.brackets_of().len() == 0,
            r.respawns_of().len() == 0,
            r.arrivals_of().len() == 0,
            r.overflows_of().len() == 0,
    {
        WindowLog {
            window,
            next_id: 0,
            brackets: Vec::new(),
            respawns: Vec::new(),
            arrivals: Vec::new(),
            overflows: Vec::new(),
        }
    }

    /// Open a bracket for `source` at `at`; its id is fresh.
    pub fn open_bracket(&mut self, source: SourceId, at: u64, open_stamps: Vec<(String, PathStamp)>) -> (r: BracketId)
        requires
            old(self).wf(),
            old(self).next_id_of() < u64::MAX,
        ensures
            final(self).wf(),
            r == BracketId(old(self).next_id_of()),
            final(self).next_id_of() == old(self).next_id_of() + 1,
            final(self).brackets_of().len() == old(self).brackets_of().len() + 1,
            final(self).brackets_of().drop_last() == old(self).brackets_of(),
            final(self).brackets_of().last().id == r,
            final(self).brackets_of().last().source == source,
            final(self).brackets_of().last().opened == at,
            final(self).brackets_of().last().closed is None,
            final(self).brackets_of().last().open_stamps@ == open_stamps@,
            final(self).brackets_of().last().close_stamps@.len() == 0,
            final(self).window_of() == old(self).window_of(),
            final(self).respawns_of() == old(self).respawns_of(),
            final(self).arrivals_of() == old(self).arrivals_of(),
            final(self).overflows_of() == old(self).overflows_of(),
    {
        let id = BracketId(self.next_id);
        self.next_id = self.next_id + 1;
        self.brackets.push(
            Bracket { id, source, opened: at, closed: None, open_stamps, close_stamps: Vec::new() },
        );
        proof {
            assert(self.brackets@.drop_last() =~= old(self).brackets@);
        }
        id
    }

    /// Close the bracket with this id and hand back the completed record;
    /// `None` when the id has already been evicted.
    pub fn close_bracket(&mut self, id: BracketId, at: u64, close_stamps: Vec<(String, PathStamp)>) -> (r: Option<&Bracket>)
        requires
            old(self).wf(),
        ensures
            final(self).wf(),
            final(self).window_of() == old(self).window_of(),
            final(self).next_id_of() == old(self).next_id_of(),
            final(self).respawns_of() == old(self).respawns_of(),
            final(self).arrivals_of() == old(self).arrivals_of(),
            final(self).overflows_of() == old(self).overflows_of(),
            final(self).brackets_of().len() == old(self).brackets_of().len(),
            match find_bracket(old(self).brackets_of(), id) {
                None => r is None && final(self).brackets_of() == old(self).brackets_of(),
                Some(b) => r matches Some(c) && c.id == id && c.source == b.source && c.opened
                    == b.opened && c.closed == Some(at) && c.close_stamps@ == close_stamps@
                    && c.open_stamps@ == b.open_stamps@ && find_bracket(final(self).brackets_of(), id)
                    == Some(*c),
            },
            forall|other: BracketId| other != id ==> find_bracket(final(self).brackets_of(), other)
                == find_bracket(old(self).brackets_of(), other),
    {
        let ghost bs = self.brackets@;
        proof {
            assert(bs.skip(0) =~= bs);
        }
        let mut k: usize = 0;
        while k < self.brackets.len() && self.brackets[k].id != id
            invariant
                self.brackets@ == bs,
                k <= bs.len(),
                find_bracket(bs, id) == find_bracket(bs.skip(k as int), id),
            decreases bs.len() - k,
        {
            proof {
                assert(bs.skip(k as int).skip(1) =~= bs.skip(k + 1));
            }
            k += 1;
        }
        if k == self.brackets.len() {
            proof {
                assert(bs.skip(k as int).len() == 0);
            }
            return None;
        }
        proof {
            assert(bs.skip(k as int)[0] == bs[k as int]);
        }
        let mut b = self.brackets.remove(k);
        b.closed = Some(at);
        b.close_stamps = close_stamps;
        self.brackets.insert(k, b);
        proof {
            let nb = self.brackets@;
            assert(nb =~= bs.update(k as int, nb[k as int]));
            assert forall|i: int| 0 <= i < nb.len() implies #[trigger] nb[i].id == bs[i].id by {
                if i != k {
                    assert(nb[i] == bs[i]);
                }
            }
            assert forall|i: int, j: int| 0 <= i < j < nb.len() implies #[trigger] nb[i].id.0 < #[trigger] nb[j].id.0 by {
                assert(nb[i].id == bs[i].id);
                assert(nb[j].id == bs[j].id);
            }
            lemma_find_bracket_unique(bs, k as int, self.next_id);
            lemma_find_bracket_unique(nb, k as int, self.next_id);
            assert forall|other: BracketId| other != id implies find_bracket(nb, other) == find_bracket(bs, other) by {
                lemma_find_bracket_same_ids(nb, bs, other, k as int);
            }
        }
        Some(&self.brackets[k])
    }

    /// A trigger-driven respawn event, counted per window on demand.
    pub fn record_respawn(&mut self, source: SourceId, at: u64)
        ensures
            final(self).respawns_of() == old(self).respawns_of().push((source, at)),
            final(self).window_of() == old(self).window_of(),
            final(self).next_id_of() == old(self).next_id_of(),
            final(self).brackets_of() == old(self).brackets_of(),
            final(self).arrivals_of() == old(self).arrivals_of(),
            final(self).overflows_of() == old(self).overflows_of(),
    {
        self.respawns.push((source, at));
    }

    /// A fifo/fd arrival, resolved against the brackets already here: the
    /// ids of those spanning `at` are captured now.
    pub fn observe_arrival(&mut self, source: SourceId, trigger: TriggerKey, at: u64)
        ensures
            final(self).arrivals_of().len() == old(self).arrivals_of().len() + 1,
            final(self).arrivals_of().drop_last() == old(self).arrivals_of(),
            final(self).arrivals_of().last().source == source,
            final(self).arrivals_of().last().trigger.0@ == trigger.0@,
            final(self).arrivals_of().last().at == at,
            final(self).arrivals_of().last().containing@ == spanning_ids(old(self).brackets_of(), at),
            final(self).window_of() == old(self).window_of(),
            final(self).next_id_of() == old(self).next_id_of(),
            final(self).brackets_of() == old(self).brackets_of(),
            final(self).respawns_of() == old(self).respawns_of(),
            final(self).overflows_of() == old(self).overflows_of(),
    {
        let mut containing: Vec<BracketId> = Vec::new();
        let mut i: usize = 0;
        while i < self.brackets.len()
            invariant
                i <= self.brackets@.len(),
                containing@ == spanning_ids(self.brackets@.take(i as int), at),
            decreases self.brackets@.len() - i,
        {
            proof {
                assert(self.brackets@.take(i + 1).drop_last() =~= self.brackets@.take(i as int));
            }
            if self.brackets[i].spans(at) {
                containing.push(self.brackets[i].id);
            }
            i += 1;
        }
        proof {
            assert(self.brackets@.take(self.brackets@.len() as int) =~= self.brackets@);
        }
        self.arrivals.push(Arrival { source, trigger, at, containing });
        proof {
            assert(self.arrivals@.drop_last() =~= old(self).arrivals@);
        }
    }

    /// A reader's queue overflowed: arrivals were lost at `at`.
    pub fn record_overflow(&mut self, at: u64)
        ensures
            final(self).overflows_of() == old(self).overflows_of().push(at),
            final(self).window_of() == old(self).window_of(),
            final(self).next_id_of() == old(self).next_id_of(),
            final(self).brackets_of() == old(self).brackets_of(),
            final(self).respawns_of() == old(self).respawns_of(),
            final(self).arrivals_of() == old(self).arrivals_of(),
    {
        self.overflows.push(at);
    }

    /// Trigger-driven respawns of `source` inside the window ending at
    /// `now`.
    pub fn respawns_in_window(&self, source: SourceId, now: u64) -> (r: usize)
        ensures
            r == respawn_count(self.respawns_of(), source, cutoff_of(self.window_of(), now)),
    {
        let c = self.cutoff(now);
        let ghost p = respawn_pred(source, c);
        let mut n: usize = 0;
        let mut i: usize = 0;
        while i < self.respawns.len()
            invariant
                i <= self.respawns@.len(),
                c == cutoff_of(self.window, now),
                p == respawn_pred(source, c),
                n == kept(self.respawns@.take(i as int), p).len(),
                n <= i,
            decreases self.respawns@.len() - i,
        {
            proof {
                lemma_kept_step(self.respawns@, p, i as int);
            }
            let (id, at) = self.respawns[i];
            proof {
                assert(p(self.respawns@[i as int]) == (id == source && in_window(at, c)));
            }
            let inside = match c {
                Some(c) => at >= c,
                None => true,
            };
            if id == source && inside {
                n += 1;
            }
            i += 1;
        }
        proof {
            assert(self.respawns@.take(self.respawns@.len() as int) =~= self.respawns@);
        }
        n
    }

    /// Closed brackets containing `at`, with their final widths. Open
    /// brackets are absent: their width is not final.
    pub fn covering(&self, at: u64) -> (r: Vec<(SourceId, u64)>)
        ensures
            r@ == covering_of(self.brackets_of(), at),
    {
        let mut out: Vec<(SourceId, u64)> = Vec::new();
        let mut i: usize = 0;
        while i < self.brackets.len()
            invariant
                i <= self.brackets@.len(),
                out@ == covering_of(self.brackets@.take(i as int), at),
            decreases self.brackets@.len() - i,
        {
            proof {
                assert(self.brackets@.take(i + 1).drop_last() =~= self.brackets@.take(i as int));
            }
            let b = &self.brackets[i];
            if b.closed.is_some() && b.spans(at) {
                let w = match b.width() {
                    Some(w) => w,
                    None => 0,
                };
                out.push((b.source, w));
            }
            i += 1;
        }
        proof {
            assert(self.brackets@.take(self.brackets@.len() as int) =~= self.brackets@);
        }
        out
    }

    /// How long, within the window ending at `now`, at least one child was
    /// in flight: overlapping brackets count once, a running one up to
    /// `now`. Zero before a whole window has passed.
    pub fn busy_ms(&self, now: u64) -> (r: u64)
        ensures
            match cutoff_of(self.window_of(), now) {
                None => r == 0,
                Some(start) => r == busy_instants(self.brackets_of(), start, now).len(),
            },
            r <= self.window_of(),
    {
        let start = match self.cutoff(now) {
            Some(c) => c,
            None => {
                return 0;
            },
        };
        let ghost bs = self.brackets@;
        let mut spans: Vec<(u64, u64)> = Vec::new();
        let mut j: usize = 0;
        while j < self.brackets.len()
            invariant
                j <= bs.len(),
                bs == self.brackets@,
                start <= now,
                spans_within(spans@, start, now),
                covered(spans@) == busy_instants(bs.take(j as int), start, now),
            decreases bs.len() - j,
        {
            let b = &self.brackets[j];
            let from = if b.opened > start { b.opened } else { start };
            let end = match b.closed {
                Some(c) => c,
                None => now,
            };
            let to = if end < now { end } else { now };
            let ghost pre = bs.take(j as int);
            let ghost post = bs.take(j + 1);
            proof {
                assert(post =~= pre.push(bs[j as int]));
                assert forall|t: int| #![trigger busy_instants(post, start, now).contains(t)]
                    busy_instants(post, start, now).contains(t) <==> busy_instants(pre, start, now).contains(t) || (
                    from <= t < to) by {
                    if busy_instants(post, start, now).contains(t) {
                        let i = choose|i: int| 0 <= i < post.len() && #[trigger] post[i].opened <= t < end_at(post[i], now);
                        if i < pre.len() {
                            assert(pre[i] == post[i]);
                        }
                    }
                    if busy_instants(pre, start, now).contains(t) {
                        let i = choose|i: int| 0 <= i < pre.len() && #[trigger] pre[i].opened <= t < end_at(pre[i], now);
                        assert(post[i] == pre[i]);
                    }
                    if from <= t < to {
                        assert(post[j as int] == bs[j as int]);
                    }
                }
            }
            if to > from {
                let ghost old_spans = spans@;
                spans.push((from, to));
                proof {
                    crate::busy::lemma_covered_push(old_spans, from, to);
                    assert(spans@ == old_spans.push((from, to)));
                    assert(covered(spans@) =~= busy_instants(post, start, now));
                }
            } else {
                proof {
                    assert(covered(spans@) =~= busy_instants(post, start, now));
                }
            }
            j += 1;
        }
        proof {
            assert(bs.take(bs.len() as int) =~= bs);
        }
        union_len(spans, start, now)
    }

    /// Is any bracket still open over `at`?
    pub fn any_open(&self, at: u64) -> (r: bool)
        ensures
            r == exists|i: int|
                0 <= i < self.brackets_of().len() && #[trigger] self.brackets_of()[i].closed is None
                    && self.brackets_of()[i].opened <= at,
    {
        let mut i: usize = 0;
        while i < self.brackets.len()
            invariant
                i <= self.brackets@.len(),
                forall|j: int| 0 <= j < i ==> !(#[trigger] self.brackets@[j].closed is None && self.brackets@[j].opened <= at),
            decreases self.brackets@.len() - i,
        {
            if self.brackets[i].closed.is_none() && self.brackets[i].opened <= at {
                return true;
            }
            i += 1;
        }
        false
    }

    /// Arrivals for one trigger still in the log.
    pub fn arrivals(&self, trigger: &TriggerKey) -> (r: Vec<&Arrival>)
        ensures
            r@.len() == arrivals_for(self.arrivals_of(), trigger.0@).len(),
            forall|i: int| 0 <= i < r@.len() ==> *#[trigger] r@[i] == arrivals_for(self.arrivals_of(), trigger.0@)[i],
    {
        let ghost p = |a: Arrival| a.trigger.0@ == trigger.0@;
        let mut out: Vec<&Arrival> = Vec::new();
        let mut i: usize = 0;
        while i < self.arrivals.len()
            invariant
                i <= self.arrivals@.len(),
                p == (|a: Arrival| a.trigger.0@ == trigger.0@),
                out@.len() == kept(self.arrivals@.take(i as int), p).len(),
                forall|j: int| 0 <= j < out@.len() ==> *out@[j] == #[trigger] kept(self.arrivals@.take(i as int), p)[j],
            decreases self.arrivals@.len() - i,
        {
            proof {
                lemma_kept_step(self.arrivals@, p, i as int);
            }
            let a = &self.arrivals[i];
            if crate::text::str_eq(a.trigger.0.as_str(), trigger.0.as_str()) {
                out.push(a);
            }
            i += 1;
        }
        proof {
            assert(self.arrivals@.take(self.arrivals@.len() as int) =~= self.arrivals@);
            assert(kept(self.arrivals@, p) == arrivals_for(self.arrivals@, trigger.0@));
        }
        out
    }

    /// Resolve an arrival's covering brackets to final widths; `None`
    /// while any of them is open (or gone).
    pub fn widths(&self, arrival: &Arrival) -> (r: Option<Vec<(SourceId, u64)>>)
        ensures
            match widths_of(self.brackets_of(), arrival.containing@) {
                None => r is None,
                Some(w) => r matches Some(v) && v@ == w,
            },
    {
        let ids = &arrival.containing;
        let mut out: Vec<(SourceId, u64)> = Vec::new();
        let mut i: usize = 0;
        while i < ids.len()
            invariant
                i <= ids@.len(),
                ids@ == arrival.containing@,
                widths_of(self.brackets@, ids@.take(i as int)) == Some(out@),
            decreases ids@.len() - i,
        {
            proof {
                assert(ids@.take(i + 1).drop_last() =~= ids@.take(i as int));
                assert(ids@.take(i + 1).last() == ids@[i as int]);
            }
            match self.find(ids[i]) {
                Some(k) => {
                    match self.brackets[k].width() {
                        Some(w) => {
                            out.push((self.brackets[k].source, w));
                        },
                        None => {
                            proof {
                                lemma_widths_none_extends(self.brackets@, ids@, i as int);
                                assert(self.brackets_of() == self.brackets@);
                            }
                            return None;
                        },
                    }
                },
                None => {
                    proof {
                        lemma_widths_none_extends(self.brackets@, ids@, i as int);
                        assert(self.brackets_of() == self.brackets@);
                    }
                    return None;
                },
            }
            i += 1;
        }
        proof {
            assert(ids@.take(ids@.len() as int) =~= ids@);
        }
        Some(out)
    }

    /// The position of the first bracket with this id.
    fn find(&self, id: BracketId) -> (r: Option<usize>)
        ensures
            match r {
                Some(k) => k < self.brackets@.len() && find_bracket(self.brackets@, id) == Some(self.brackets@[k as int]),
                None => find_bracket(self.brackets@, id) is None,
            },
    {
        let ghost bs = self.brackets@;
        proof {
            assert(bs.skip(0) =~= bs);
        }
        let mut k: usize = 0;
        while k < self.brackets.len()
            invariant
                k <= bs.len(),
                bs == self.brackets@,
                find_bracket(bs, id) == find_bracket(bs.skip(k as int), id),
            decreases bs.len() - k,
        {
            if self.brackets[k].id == id {
                proof {
                    assert(bs.skip(k as int)[0] == bs[k as int]);
                }
                return Some(k);
            }
            proof {
                assert(bs.skip(k as int).skip(1) =~= bs.skip(k + 1));
            }
            k += 1;
        }
        None
    }

    /// True when a reader lost arrivals inside the window ending at `now`.
    pub fn evidence_lost(&self, now: u64) -> (r: bool)
        ensures
            r == exists|i: int|
                0 <= i < self.overflows_of().len() && in_window(
                    #[trigger] self.overflows_of()[i],
                    cutoff_of(self.window_of(), now),
                ),
    {
        let c = self.cutoff(now);
        let mut i: usize = 0;
        while i < self.overflows.len()
            invariant
                i <= self.overflows@.len(),
                c == cutoff_of(self.window, now),
                forall|j: int| 0 <= j < i ==> !in_window(#[trigger] self.overflows@[j], c),
            decreases self.overflows@.len() - i,
        {
            let at = self.overflows[i];
            let inside = match c {
                Some(c) => at >= c,
                None => true,
            };
            if inside {
                assert(in_window(self.overflows_of()[i as int], cutoff_of(self.window_of(), now)));
                return true;
            }
            i += 1;
        }
        false
    }

    /// Drop what the window ending at `now` no longer covers. A bracket a
    /// live arrival still references is kept, so its widths stay
    /// resolvable; ids never shift, so what a source still holds stays
    /// valid.
    pub fn evict(&mut self, now: u64)
        requires
            old(self).wf(),
        ensures
            final(self).wf(),
            final(self).window_of() == old(self).window_of(),
            final(self).next_id_of() == old(self).next_id_of(),
            match cutoff_of(old(self).window_of(), now) {
                None => final(self).brackets_of() == old(self).brackets_of() && final(self).respawns_of()
                    == old(self).respawns_of() && final(self).arrivals_of() == old(self).arrivals_of()
                    && final(self).overflows_of() == old(self).overflows_of(),
                Some(c) => {
                    &&& final(self).respawns_of() == kept(old(self).respawns_of(), respawn_live(c))
                    &&& final(self).overflows_of() == kept(old(self).overflows_of(), instant_live(c))
                    &&& final(self).arrivals_of() == kept(old(self).arrivals_of(), arrival_live(c))
                    &&& final(self).brackets_of() == kept(
                        old(self).brackets_of(),
                        bracket_live(now, c, final(self).arrivals_of()),
                    )
                },
            },
            forall|id: BracketId|
                #![trigger find_bracket(final(self).brackets_of(), id)]
                find_bracket(final(self).brackets_of(), id) is None || find_bracket(
                    final(self).brackets_of(),
                    id,
                ) == find_bracket(old(self).brackets_of(), id),
    {
        let c = match self.cutoff(now) {
            Some(c) => c,
            None => {
                return;
            },
        };
        // Respawns and overflows.
        let mut kept_r: Vec<(SourceId, u64)> = Vec::new();
        let mut i: usize = 0;
        while i < self.respawns.len()
            invariant
                i <= self.respawns@.len(),
                kept_r@ == kept(self.respawns@.take(i as int), respawn_live(c)),
            decreases self.respawns@.len() - i,
        {
            proof {
                lemma_kept_step(self.respawns@, respawn_live(c), i as int);
            }
            let r = self.respawns[i];
            if r.1 >= c {
                kept_r.push(r);
            }
            i += 1;
        }
        proof {
            assert(self.respawns@.take(self.respawns@.len() as int) =~= self.respawns@);
        }
        self.respawns = kept_r;
        let mut kept_o: Vec<u64> = Vec::new();
        let mut i: usize = 0;
        while i < self.overflows.len()
            invariant
                i <= self.overflows@.len(),
                kept_o@ == kept(self.overflows@.take(i as int), instant_live(c)),
            decreases self.overflows@.len() - i,
        {
            proof {
                lemma_kept_step(self.overflows@, instant_live(c), i as int);
            }
            let at = self.overflows[i];
            if at >= c {
                kept_o.push(at);
            }
            i += 1;
        }
        proof {
            assert(self.overflows@.take(self.overflows@.len() as int) =~= self.overflows@);
        }
        self.overflows = kept_o;
        // Arrivals.
        let mut old_a: Vec<Arrival> = Vec::new();
        std::mem::swap(&mut old_a, &mut self.arrivals);
        let ghost orig_a = old_a@;
        let total_a = old_a.len();
        let mut kept_a: Vec<Arrival> = Vec::new();
        let mut n: usize = 0;
        while old_a.len() > 0
            invariant
                n + old_a@.len() == orig_a.len(),
                orig_a.len() == total_a,
                old_a@ == orig_a.skip(n as int),
                kept_a@ == kept(orig_a.take(n as int), arrival_live(c)),
            decreases old_a@.len(),
        {
            proof {
                lemma_kept_step(orig_a, arrival_live(c), n as int);
                assert(orig_a.skip(n as int)[0] == orig_a[n as int]);
                assert(orig_a.skip(n as int).skip(1) =~= orig_a.skip(n + 1));
            }
            let a = old_a.remove(0);
            if a.at >= c {
                kept_a.push(a);
            }
            n += 1;
        }
        proof {
            assert(orig_a.take(orig_a.len() as int) =~= orig_a);
        }
        self.arrivals = kept_a;
        // Brackets: kept while they still overlap the window, or while a
        // live arrival references them.
        let mut old_b: Vec<Bracket> = Vec::new();
        std::mem::swap(&mut old_b, &mut self.brackets);
        let ghost orig_b = old_b@;
        let total_b = old_b.len();
        let ghost live = bracket_live(now, c, self.arrivals@);
        let mut kept_b: Vec<Bracket> = Vec::new();
        let mut n: usize = 0;
        while old_b.len() > 0
            invariant
                n + old_b@.len() == orig_b.len(),
                orig_b.len() == total_b,
                old_b@ == orig_b.skip(n as int),
                kept_b@ == kept(orig_b.take(n as int), live),
                live == bracket_live(now, c, self.arrivals@),
            decreases old_b@.len(),
        {
            proof {
                lemma_kept_step(orig_b, live, n as int);
                assert(orig_b.skip(n as int)[0] == orig_b[n as int]);
                assert(orig_b.skip(n as int).skip(1) =~= orig_b.skip(n + 1));
            }
            let b = old_b.remove(0);
            let keep = b.end_or(now) >= c || references(&self.arrivals, b.id);
            proof {
                assert(live(b) == keep);
            }
            if keep {
                kept_b.push(b);
            }
            n += 1;
        }
        proof {
            assert(orig_b.take(orig_b.len() as int) =~= orig_b);
            lemma_kept_ordered(orig_b, live, self.next_id);
            assert forall|id: BracketId| #![trigger find_bracket(kept_b@, id)]
                find_bracket(kept_b@, id) is None || find_bracket(kept_b@, id) == find_bracket(orig_b, id) by {
                lemma_find_in_kept(orig_b, live, id, self.next_id);
            }
        }
        self.brackets = kept_b;
    }

    fn cutoff(&self, now: u64) -> (r: Option<u64>)
        ensures
            r == cutoff_of(self.window, now),
    {
        if now >= self.window {
            Some(now - self.window)
        } else {
            None
        }
    }
}

/// A respawn still inside the window starting at `c`.
pub open spec fn respawn_live(c: u64) -> spec_fn((SourceId, u64)) -> bool {
    |r: (SourceId, u64)| r.1 >= c
}

/// An instant still inside the window starting at `c`.
pub open spec fn instant_live(c: u64) -> spec_fn(u64) -> bool {
    |at: u64| at >= c
}

/// An arrival still inside the window starting at `c`.
pub open spec fn arrival_live(c: u64) -> spec_fn(Arrival) -> bool {
    |a: Arrival| a.at >= c
}

/// A bracket that still overlaps the window, or that a live arrival
/// references.
pub open spec fn bracket_live(now: u64, c: u64, arrivals: Seq<Arrival>) -> spec_fn(Bracket) -> bool {
    |b: Bracket| end_at(b, now) >= c || referenced(arrivals, b.id)
}

fn references(arrivals: &Vec<Arrival>, id: BracketId) -> (r: bool)
    ensures
        r == referenced(arrivals@, id),
{
    let mut i: usize = 0;
    while i < arrivals.len()
        invariant
            i <= arrivals@.len(),
            forall|k: int, j: int|
                0 <= k < i && 0 <= j < arrivals@[k].containing@.len() ==> #[trigger] arrivals@[k].containing@[j] != id,
        decreases arrivals@.len() - i,
    {
        let ids = &arrivals[i].containing;
        let mut j: usize = 0;
        while j < ids.len()
            invariant
                i < arrivals@.len(),
                ids@ == arrivals@[i as int].containing@,
                j <= ids@.len(),
                forall|m: int| 0 <= m < j ==> #[trigger] ids@[m] != id,
            decreases ids@.len() - j,
        {
            if ids[j] == id {
                assert(arrivals@[i as int].containing@[j as int] == id);
                return true;
            }
            j += 1;
        }
        i += 1;
    }
    false
}

proof fn lemma_kept_members<T>(s: Seq<T>, p: spec_fn(T) -> bool)
    ensures
        forall|i: int| 0 <= i < kept(s, p).len() ==> exists|j: int| 0 <= j < s.len() && #[trigger] kept(s, p)[i] == s[j] && p(s[j]),
    decreases s.len(),
{
    if s.len() > 0 {
        lemma_kept_members(s.drop_last(), p);
        let k = kept(s.drop_last(), p);
        assert forall|i: int| 0 <= i < kept(s, p).len() implies exists|j: int| 0 <= j < s.len() && #[trigger] kept(s, p)[i] == s[j] && p(s[j]) by {
            if i < k.len() {
                let j = choose|j: int| 0 <= j < s.drop_last().len() && #[trigger] k[j] == s.drop_last()[j] && p(s.drop_last()[j]);
                let j2 = choose|j: int| 0 <= j < s.drop_last().len() && k[i] == s.drop_last()[j] && p(s.drop_last()[j]);
                assert(kept(s, p)[i] == s[j2]);
            } else {
                assert(kept(s, p)[i] == s[s.len() - 1]);
            }
        }
    }
}

proof fn lemma_kept_ordered(s: Seq<Bracket>, p: spec_fn(Bracket) -> bool, next_id: u64)
    requires
        ids_ordered(s, next_id),
    ensures
        ids_ordered(kept(s, p), next_id),
    decreases s.len(),
{
    if s.len() > 0 {
        let d = s.drop_last();
        assert(ids_ordered(d, next_id)) by {
            assert forall|i: int, j: int| 0 <= i < j < d.len() implies #[trigger] d[i].id.0 < #[trigger] d[j].id.0 by {
                assert(d[i] == s[i] && d[j] == s[j]);
            }
            assert forall|i: int| 0 <= i < d.len() implies #[trigger] d[i].id.0 < next_id by {
                assert(d[i] == s[i]);
            }
        }
        lemma_kept_ordered(d, p, next_id);
        lemma_kept_members(d, p);
        let k = kept(d, p);
        let kk = kept(s, p);
        if p(s.last()) {
            assert forall|i: int, j: int| 0 <= i < j < kk.len() implies #[trigger] kk[i].id.0 < #[trigger] kk[j].id.0 by {
                if j < k.len() {
                    assert(kk[i] == k[i] && kk[j] == k[j]);
                } else {
                    assert(kk[i] == k[i]);
                    let m = choose|m: int| 0 <= m < d.len() && #[trigger] k[i] == d[m] && p(d[m]);
                    assert(d[m] == s[m]);
                    assert(s[m].id.0 < s[s.len() - 1].id.0);
                }
            }
            assert forall|i: int| 0 <= i < kk.len() implies #[trigger] kk[i].id.0 < next_id by {
                if i < k.len() {
                    assert(kk[i] == k[i]);
                }
            }
        }
    }
}

proof fn lemma_find_char(s: Seq<Bracket>, id: BracketId)
    ensures
        find_bracket(s, id) matches Some(b) ==> exists|k: int| 0 <= k < s.len() && #[trigger] s[k] == b && b.id == id,
        find_bracket(s, id) is None ==> forall|k: int| 0 <= k < s.len() ==> #[trigger] s[k].id != id,
    decreases s.len(),
{
    if s.len() > 0 && s[0].id != id {
        lemma_find_char(s.skip(1), id);
        if let Some(b) = find_bracket(s, id) {
            let k = choose|k: int| 0 <= k < s.skip(1).len() && #[trigger] s.skip(1)[k] == b && b.id == id;
            assert(s[k + 1] == b);
        } else {
            assert forall|k: int| 0 <= k < s.len() implies #[trigger] s[k].id != id by {
                if k > 0 {
                    assert(s[k] == s.skip(1)[k - 1]);
                }
            }
        }
    } else if s.len() > 0 {
        assert(s[0] == s[0]);
    }
}

proof fn lemma_find_in_kept(s: Seq<Bracket>, p: spec_fn(Bracket) -> bool, id: BracketId, next_id: u64)
    requires
        ids_ordered(s, next_id),
    ensures
        find_bracket(kept(s, p), id) is None || find_bracket(kept(s, p), id) == find_bracket(s, id),
{
    lemma_find_char(kept(s, p), id);
    if let Some(b) = find_bracket(kept(s, p), id) {
        let k = choose|k: int| 0 <= k < kept(s, p).len() && #[trigger] kept(s, p)[k] == b && b.id == id;
        lemma_kept_members(s, p);
        let j = choose|j: int| 0 <= j < s.len() && #[trigger] kept(s, p)[k] == s[j] && p(s[j]);
        lemma_find_bracket_unique(s, j, next_id);
    }
}

proof fn lemma_widths_none_extends(bs: Seq<Bracket>, ids: Seq<BracketId>, i: int)
    requires
        0 <= i < ids.len(),
        widths_of(bs, ids.take(i + 1)) is None,
    ensures
        widths_of(bs, ids) is None,
    decreases ids.len() - i,
{
    if i + 1 < ids.len() {
        assert(ids.take(i + 2).drop_last() =~= ids.take(i + 1));
        lemma_widths_none_extends(bs, ids, i + 1);
    } else {
        assert(ids.take(i + 1) =~= ids);
    }
}

proof fn lemma_find_bracket_unique(bs: Seq<Bracket>, k: int, next_id: u64)
    requires
        0 <= k < bs.len(),
        forall|i: int, j: int| 0 <= i < j < bs.len() ==> #[trigger] bs[i].id.0 < #[trigger] bs[j].id.0,
    ensures
        find_bracket(bs, bs[k].id) == Some(bs[k]),
    decreases k,
{
    if k > 0 {
        assert(bs[0].id.0 < bs[k].id.0);
        let t = bs.skip(1);
        assert forall|i: int, j: int| 0 <= i < j < t.len() implies #[trigger] t[i].id.0 < #[trigger] t[j].id.0 by {
            assert(t[i] == bs[i + 1]);
            assert(t[j] == bs[j + 1]);
        }
        lemma_find_bracket_unique(t, k - 1, next_id);
        assert(t[k - 1] == bs[k]);
    }
}

proof fn lemma_find_bracket_same_ids(a: Seq<Bracket>, b: Seq<Bracket>, id: BracketId, k: int)
    requires
        a.len() == b.len(),
        0 <= k < a.len(),
        forall|i: int| 0 <= i < a.len() ==> #[trigger] a[i].id == b[i].id,
        forall|i: int| 0 <= i < a.len() && i != k ==> #[trigger] a[i] == b[i],
        a[k].id != id,
    ensures
        find_bracket(a, id) == find_bracket(b, id),
    decreases a.len(),
{
    if a.len() > 0 {
        assert(a[0].id == b[0].id);
        if a[0].id != id {
            let (ta, tb) = (a.skip(1), b.skip(1));
            if k > 0 {
                assert forall|i: int| 0 <= i < ta.len() implies #[trigger] ta[i].id == tb[i].id by {
                    assert(ta[i] == a[i + 1] && tb[i] == b[i + 1]);
                }
                assert forall|i: int| 0 <= i < ta.len() && i != k - 1 implies #[trigger] ta[i] == tb[i] by {
                    assert(ta[i] == a[i + 1] && tb[i] == b[i + 1]);
                }
                lemma_find_bracket_same_ids(ta, tb, id, k - 1);
            } else {
                assert(ta =~= tb);
            }
        } else {
            assert(k != 0);
            assert(a[0] == b[0]);
        }
    }
}

// ---------------------------------------------------------------------
// The credit rule: who wrote a path, from the changes observed on it.

/// The width of the first entry for `id`, if any.
pub open spec fn first_width(ws: Seq<(SourceId, u64)>, id: SourceId) -> Option<u64>
    decreases ws.len(),
{
    if ws.len() == 0 {
        None
    } else if ws[0].0 == id {
        Some(ws[0].1)
    } else {
        first_width(ws.skip(1), id)
    }
}

/// The widths of `id`'s brackets over the changes it was in flight for.
pub open spec fn widths_for(changes: Seq<Change>, id: SourceId) -> Seq<u64>
    decreases changes.len(),
{
    if changes.len() == 0 {
        Seq::empty()
    } else {
        match first_width(changes.last().containing@, id) {
            Some(w) => widths_for(changes.drop_last(), id).push(w),
            None => widths_for(changes.drop_last(), id),
        }
    }
}

/// Whether `id` was in flight for any change.
pub open spec fn appears(changes: Seq<Change>, id: SourceId) -> bool {
    exists|i: int, j: int|
        0 <= i < changes.len() && 0 <= j < changes[i].containing@.len() && #[trigger] changes[i].containing@[j].0 == id
}

/// In flight for more than half of the changes.
pub open spec fn eligible(changes: Seq<Change>, id: SourceId) -> bool {
    widths_for(changes, id).len() * 2 > changes.len()
}

/// How many of `ws` fall below `w` (or at it, when `inclusive`).
pub open spec fn count_below(ws: Seq<u64>, w: u64, inclusive: bool) -> nat {
    kept(ws, below(w, inclusive)).len()
}

pub open spec fn below(w: u64, inclusive: bool) -> spec_fn(u64) -> bool {
    |x: u64| if inclusive {
        x <= w
    } else {
        x < w
    }
}

/// `w` sits at rank `k` of `ws`: at most `k` values lie below it and more
/// than `k` at or below it — the `k`-th smallest.
pub open spec fn at_rank(ws: Seq<u64>, k: nat, w: u64) -> bool {
    count_below(ws, w, false) <= k < count_below(ws, w, true)
}

/// The first of `cands` at rank `k` of `ws`.
pub open spec fn first_at_rank(cands: Seq<u64>, ws: Seq<u64>, k: nat) -> Option<u64>
    decreases cands.len(),
{
    if cands.len() == 0 {
        None
    } else if at_rank(ws, k, cands[0]) {
        Some(cands[0])
    } else {
        first_at_rank(cands.skip(1), ws, k)
    }
}

/// The median of `ws`: its value at rank `len / 2`, zero when empty.
pub open spec fn median_of(ws: Seq<u64>) -> u64 {
    match first_at_rank(ws, ws, ws.len() / 2) {
        Some(w) => w,
        None => 0,
    }
}

/// The median width of `id`'s brackets over the changes.
pub open spec fn median_width_of(changes: Seq<Change>, id: SourceId) -> u64 {
    median_of(widths_for(changes, id))
}

/// Who is credited with writing a path: eligible, and with a median
/// width within twice every other eligible writer's.
pub open spec fn credited(changes: Seq<Change>, id: SourceId) -> bool {
    &&& eligible(changes, id)
    &&& forall|j: SourceId| #[trigger] eligible(changes, j) ==> median_width_of(changes, id) <= 2 * median_width_of(changes, j)
}

/// What the credit rule reads of the changes: each one's containing list.
pub open spec fn containing_views(cs: Seq<Change>) -> Seq<Seq<(SourceId, u64)>> {
    cs.map_values(|c: Change| c.containing@)
}

proof fn lemma_widths_for_views(a: Seq<Change>, b: Seq<Change>, id: SourceId)
    requires
        containing_views(a) == containing_views(b),
    ensures
        widths_for(a, id) == widths_for(b, id),
    decreases a.len(),
{
    assert(a.len() == containing_views(a).len());
    assert(b.len() == containing_views(b).len());
    if a.len() > 0 {
        assert(containing_views(a.drop_last()) =~= containing_views(b.drop_last())) by {
            assert forall|i: int| 0 <= i < a.len() - 1 implies containing_views(a.drop_last())[i] == containing_views(
                b.drop_last(),
            )[i] by {
                assert(containing_views(a)[i] == containing_views(b)[i]);
            }
        }
        assert(containing_views(a)[a.len() - 1] == containing_views(b)[b.len() - 1]);
        lemma_widths_for_views(a.drop_last(), b.drop_last(), id);
    }
}

/// The credit rule reads nothing of a change but its containing list.
pub proof fn lemma_credited_views(a: Seq<Change>, b: Seq<Change>, id: SourceId)
    requires
        containing_views(a) == containing_views(b),
    ensures
        credited(a, id) == credited(b, id),
{
    assert(a.len() == containing_views(a).len());
    assert(b.len() == containing_views(b).len());
    assert forall|j: SourceId|
        #![trigger eligible(a, j)]
        #![trigger eligible(b, j)]
        eligible(a, j) == eligible(b, j) && median_width_of(a, j) == median_width_of(b, j) by {
        lemma_widths_for_views(a, b, j);
    }
    lemma_widths_for_views(a, b, id);
    if credited(a, id) {
        assert forall|j: SourceId| #[trigger] eligible(b, j) implies median_width_of(b, id) <= 2 * median_width_of(b, j) by {
            assert(eligible(a, j));
        }
    }
    if credited(b, id) {
        assert forall|j: SourceId| #[trigger] eligible(a, j) implies median_width_of(a, id) <= 2 * median_width_of(a, j) by {
            assert(eligible(b, j));
        }
    }
}

/// Strictly increasing ids.
pub open spec fn increasing(v: Seq<SourceId>) -> bool {
    forall|i: int, j: int| 0 <= i < j < v.len() ==> #[trigger] v[i].0 < #[trigger] v[j].0
}

fn first_width_in(ws: &Vec<(SourceId, u64)>, id: SourceId) -> (r: Option<u64>)
    ensures
        r == first_width(ws@, id),
{
    let mut k: usize = 0;
    proof {
        assert(ws@.skip(0) =~= ws@);
    }
    while k < ws.len()
        invariant
            k <= ws@.len(),
            first_width(ws@, id) == first_width(ws@.skip(k as int), id),
        decreases ws@.len() - k,
    {
        proof {
            assert(ws@.skip(k as int)[0] == ws@[k as int]);
            assert(ws@.skip(k as int).skip(1) =~= ws@.skip(k + 1));
        }
        if ws[k].0 == id {
            return Some(ws[k].1);
        }
        k += 1;
    }
    None
}

proof fn lemma_first_width_some(ws: Seq<(SourceId, u64)>, id: SourceId)
    ensures
        first_width(ws, id) is Some <==> exists|j: int| 0 <= j < ws.len() && #[trigger] ws[j].0 == id,
    decreases ws.len(),
{
    if ws.len() > 0 {
        lemma_first_width_some(ws.skip(1), id);
        if ws[0].0 != id {
            if exists|j: int| 0 <= j < ws.len() && #[trigger] ws[j].0 == id {
                let j = choose|j: int| 0 <= j < ws.len() && #[trigger] ws[j].0 == id;
                assert(ws.skip(1)[j - 1] == ws[j]);
            }
            if exists|j: int| 0 <= j < ws.skip(1).len() && #[trigger] ws.skip(1)[j].0 == id {
                let j = choose|j: int| 0 <= j < ws.skip(1).len() && #[trigger] ws.skip(1)[j].0 == id;
                assert(ws[j + 1] == ws.skip(1)[j]);
            }
        }
    }
}

/// Insert `x` into a strictly increasing list, unless present.
fn insert_sorted(v: &mut Vec<SourceId>, x: SourceId)
    requires
        increasing(old(v)@),
    ensures
        increasing(final(v)@),
        forall|y: SourceId| final(v)@.contains(y) <==> (old(v)@.contains(y) || y == x),
{
    let mut k: usize = 0;
    while k < v.len() && v[k].0 < x.0
        invariant
            k <= v@.len(),
            increasing(v@),
            v@ == old(v)@,
            forall|i: int| 0 <= i < k ==> #[trigger] v@[i].0 < x.0,
        decreases v@.len() - k,
    {
        k += 1;
    }
    if k < v.len() && v[k].0 == x.0 {
        assert(v@[k as int] == x);
        return;
    }
    let ghost before = v@;
    v.insert(k, x);
    proof {
        assert(before == old(v)@);
        assert(v@ == before.insert(k as int, x));
        assert forall|i: int, j: int| 0 <= i < j < v@.len() implies #[trigger] v@[i].0 < #[trigger] v@[j].0 by {
            if j < k {
                assert(v@[i] == before[i] && v@[j] == before[j]);
            } else if j == k {
                assert(v@[i] == before[i]);
            } else if i < k {
                assert(v@[i] == before[i] && v@[j] == before[j - 1]);
                if k < before.len() {
                    assert(before[k as int].0 > x.0);
                }
            } else if i == k {
                assert(v@[j] == before[j - 1]);
                assert(before[k as int].0 > x.0);
                if j - 1 > k {
                    assert(before[k as int].0 < before[j - 1].0);
                }
            } else {
                assert(v@[i] == before[i - 1] && v@[j] == before[j - 1]);
            }
        }
        assert(v@[k as int] == x);
        assert forall|y: SourceId| v@.contains(y) <==> (before.contains(y) || y == x) by {
            if v@.contains(y) {
                let i = choose|i: int| 0 <= i < v@.len() && v@[i] == y;
                if i < k {
                    assert(before[i] == y);
                    assert(before.contains(y));
                } else if i > k {
                    assert(before[i - 1] == y);
                    assert(before.contains(y));
                } else {
                    assert(y == x);
                }
            }
            if before.contains(y) {
                let i = choose|i: int| 0 <= i < before.len() && before[i] == y;
                if i < k {
                    assert(v@[i] == y);
                } else {
                    assert(v@[i + 1] == y);
                }
            }
            if y == x {
                assert(v@[k as int] == y);
            }
        }
    }
}

/// Every id in flight for some change, once each, in increasing order.
fn sources_of(changes: &[Change]) -> (r: Vec<SourceId>)
    ensures
        increasing(r@),
        forall|id: SourceId| r@.contains(id) <==> appears(changes@, id),
{
    let mut out: Vec<SourceId> = Vec::new();
    let mut i: usize = 0;
    while i < changes.len()
        invariant
            i <= changes@.len(),
            increasing(out@),
            forall|id: SourceId|
                out@.contains(id) <==> exists|a: int, b: int|
                    0 <= a < i && 0 <= b < changes@[a].containing@.len() && #[trigger] changes@[a].containing@[b].0 == id,
        decreases changes@.len() - i,
    {
        let ws = &changes[i].containing;
        let mut j: usize = 0;
        while j < ws.len()
            invariant
                i < changes@.len(),
                ws@ == changes@[i as int].containing@,
                j <= ws@.len(),
                increasing(out@),
                forall|id: SourceId|
                    out@.contains(id) <==> (exists|a: int, b: int|
                        0 <= a < i && 0 <= b < changes@[a].containing@.len() && #[trigger] changes@[a].containing@[b].0 == id)
                        || exists|b: int| 0 <= b < j && #[trigger] ws@[b].0 == id,
            decreases ws@.len() - j,
        {
            let ghost before = out@;
            insert_sorted(&mut out, ws[j].0);
            proof {
                assert forall|id: SourceId|
                    out@.contains(id) <==> (exists|a: int, b: int|
                        0 <= a < i && 0 <= b < changes@[a].containing@.len() && #[trigger] changes@[a].containing@[b].0 == id)
                        || exists|b: int| 0 <= b < j + 1 && #[trigger] ws@[b].0 == id by {
                    if id == ws@[j as int].0 {
                        assert(ws@[j as int].0 == id);
                    }
                    if exists|b: int| 0 <= b < j + 1 && #[trigger] ws@[b].0 == id {
                        let b = choose|b: int| 0 <= b < j + 1 && #[trigger] ws@[b].0 == id;
                        if b < j {
                            assert(exists|b: int| 0 <= b < j && #[trigger] ws@[b].0 == id);
                        }
                    }
                }
            }
            j += 1;
        }
        proof {
            assert forall|id: SourceId|
                out@.contains(id) <==> exists|a: int, b: int|
                    0 <= a < i + 1 && 0 <= b < changes@[a].containing@.len() && #[trigger] changes@[a].containing@[b].0 == id by {
                if exists|b: int| 0 <= b < ws@.len() && #[trigger] ws@[b].0 == id {
                    let b = choose|b: int| 0 <= b < ws@.len() && #[trigger] ws@[b].0 == id;
                    assert(changes@[i as int].containing@[b].0 == id);
                }
                if exists|a: int, b: int|
                    0 <= a < i + 1 && 0 <= b < changes@[a].containing@.len() && #[trigger] changes@[a].containing@[b].0 == id {
                    let (a, b) = choose|a: int, b: int|
                        0 <= a < i + 1 && 0 <= b < changes@[a].containing@.len() && #[trigger] changes@[a].containing@[b].0 == id;
                    if a == i {
                        assert(ws@[b].0 == id);
                    }
                }
            }
        }
        i += 1;
    }
    out
}

/// The widths of `id`'s brackets over the changes, in order.
fn widths_of_source(changes: &[Change], id: SourceId) -> (r: Vec<u64>)
    ensures
        r@ == widths_for(changes@, id),
{
    let mut out: Vec<u64> = Vec::new();
    let mut i: usize = 0;
    while i < changes.len()
        invariant
            i <= changes@.len(),
            out@ == widths_for(changes@.take(i as int), id),
        decreases changes@.len() - i,
    {
        proof {
            assert(changes@.take(i + 1).drop_last() =~= changes@.take(i as int));
            assert(changes@.take(i + 1).last() == changes@[i as int]);
        }
        match first_width_in(&changes[i].containing, id) {
            Some(w) => out.push(w),
            None => {},
        }
        i += 1;
    }
    proof {
        assert(changes@.take(changes@.len() as int) =~= changes@);
    }
    out
}

fn count_under(ws: &Vec<u64>, w: u64, inclusive: bool) -> (r: usize)
    ensures
        r == count_below(ws@, w, inclusive),
{
    let ghost p = below(w, inclusive);
    let mut n: usize = 0;
    let mut i: usize = 0;
    while i < ws.len()
        invariant
            i <= ws@.len(),
            p == below(w, inclusive),
            n == kept(ws@.take(i as int), p).len(),
            n <= i,
        decreases ws@.len() - i,
    {
        proof {
            lemma_kept_step(ws@, p, i as int);
        }
        let x = ws[i];
        let hit = if inclusive {
            x <= w
        } else {
            x < w
        };
        if hit {
            n += 1;
        }
        i += 1;
    }
    proof {
        assert(ws@.take(ws@.len() as int) =~= ws@);
    }
    n
}

/// The median width of `id`'s brackets over the changes.
pub fn median_width(changes: &[Change], id: SourceId) -> (r: u64)
    ensures
        r == median_width_of(changes@, id),
{
    let ws = widths_of_source(changes, id);
    let k = ws.len() / 2;
    let mut i: usize = 0;
    proof {
        assert(ws@.skip(0) =~= ws@);
    }
    while i < ws.len()
        invariant
            i <= ws@.len(),
            k == ws@.len() / 2,
            ws@ == widths_for(changes@, id),
            first_at_rank(ws@, ws@, k as nat) == first_at_rank(ws@.skip(i as int), ws@, k as nat),
        decreases ws@.len() - i,
    {
        proof {
            assert(ws@.skip(i as int)[0] == ws@[i as int]);
            assert(ws@.skip(i as int).skip(1) =~= ws@.skip(i + 1));
        }
        let w = ws[i];
        if count_under(&ws, w, false) <= k && k < count_under(&ws, w, true) {
            return w;
        }
        i += 1;
    }
    0
}

/// Who wrote this path? Stage one keeps the ids in flight for more than
/// half of the changes; stage two keeps those whose median width is within
/// twice the tightest. In increasing order.
pub fn credit(changes: &[Change]) -> (r: Vec<SourceId>)
    ensures
        increasing(r@),
        forall|id: SourceId| r@.contains(id) <==> credited(changes@, id),
{
    let n = changes.len();
    let sources = sources_of(changes);
    // Stage one.
    let mut elig: Vec<SourceId> = Vec::new();
    let mut meds: Vec<u64> = Vec::new();
    let mut i: usize = 0;
    while i < sources.len()
        invariant
            i <= sources@.len(),
            n == changes@.len(),
            increasing(sources@),
            forall|id: SourceId| sources@.contains(id) <==> appears(changes@, id),
            meds@.len() == elig@.len(),
            forall|a: int| 0 <= a < elig@.len() ==> #[trigger] meds@[a] == median_width_of(changes@, elig@[a]),
            forall|a: int| 0 <= a < elig@.len() ==> eligible(changes@, #[trigger] elig@[a]),
            forall|a: int, b: int| 0 <= a < b < elig@.len() ==> #[trigger] elig@[a].0 < #[trigger] elig@[b].0,
            forall|a: int| #![trigger elig@[a]] 0 <= a < elig@.len() ==> exists|b: int| 0 <= b < i && #[trigger] sources@[b] == elig@[a],
            forall|b: int| 0 <= b < i && eligible(changes@, #[trigger] sources@[b]) ==> elig@.contains(sources@[b]),
        decreases sources@.len() - i,
    {
        let id = sources[i];
        let ws = widths_of_source(changes, id);
        if ws.len() as u128 * 2 > n as u128 {
            let ghost before = elig@;
            proof {
                assert forall|a: int| 0 <= a < before.len() implies #[trigger] before[a].0 < id.0 by {
                    let b = choose|b: int| 0 <= b < i && #[trigger] sources@[b] == before[a];
                    assert(sources@[b].0 < sources@[i as int].0);
                }
            }
            elig.push(id);
            meds.push(median_width(changes, id));
            proof {
                assert(elig@[elig@.len() - 1] == sources@[i as int]);
                assert forall|b: int| 0 <= b < i + 1 && eligible(changes@, #[trigger] sources@[b]) implies elig@.contains(sources@[b]) by {
                    if b < i {
                        let a = choose|a: int| 0 <= a < before.len() && before[a] == sources@[b];
                        assert(elig@[a] == sources@[b]);
                    } else {
                        assert(elig@[elig@.len() - 1] == sources@[b]);
                    }
                }
            }
        }
        i += 1;
    }
    // Every eligible id appears, so it was seen above.
    proof {
        assert forall|id: SourceId| eligible(changes@, id) implies elig@.contains(id) by {
            lemma_eligible_appears(changes@, id);
            let b = choose|b: int| 0 <= b < sources@.len() && sources@[b] == id;
            assert(eligible(changes@, sources@[b]));
        }
    }
    if elig.len() == 0 {
        proof {
            assert forall|id: SourceId| !credited(changes@, id) by {
                if eligible(changes@, id) {
                    assert(elig@.contains(id));
                }
            }
            assert forall|id: SourceId| !Seq::<SourceId>::empty().contains(id) by {}
        }
        return Vec::new();
    }
    // Stage two.
    let mut tightest: u64 = meds[0];
    let mut t_at: usize = 0;
    let mut k: usize = 1;
    while k < meds.len()
        invariant
            1 <= k <= meds@.len(),
            t_at < meds@.len(),
            tightest == meds@[t_at as int],
            forall|a: int| 0 <= a < k ==> tightest <= #[trigger] meds@[a],
        decreases meds@.len() - k,
    {
        if meds[k] < tightest {
            tightest = meds[k];
            t_at = k;
        }
        k += 1;
    }
    let mut out: Vec<SourceId> = Vec::new();
    let mut k: usize = 0;
    while k < elig.len()
        invariant
            k <= elig@.len(),
            meds@.len() == elig@.len(),
            t_at < meds@.len(),
            tightest == meds@[t_at as int],
            forall|a: int| 0 <= a < meds@.len() ==> tightest <= #[trigger] meds@[a],
            forall|a: int| 0 <= a < elig@.len() ==> #[trigger] meds@[a] == median_width_of(changes@, elig@[a]),
            forall|a: int| 0 <= a < elig@.len() ==> eligible(changes@, #[trigger] elig@[a]),
            forall|a: int, b: int| 0 <= a < b < elig@.len() ==> #[trigger] elig@[a].0 < #[trigger] elig@[b].0,
            forall|id: SourceId| eligible(changes@, id) ==> elig@.contains(id),
            forall|a: int, b: int| 0 <= a < b < out@.len() ==> #[trigger] out@[a].0 < #[trigger] out@[b].0,
            forall|a: int| #![trigger out@[a]] 0 <= a < out@.len() ==> exists|b: int| 0 <= b < k && #[trigger] elig@[b] == out@[a],
            forall|b: int| 0 <= b < elig@.len() ==> (out@.contains(#[trigger] elig@[b]) <==> (b < k && meds@[b] <= 2 * tightest)),
        decreases elig@.len() - k,
    {
        let keep = (meds[k] as u128) <= 2 * (tightest as u128);
        if keep {
            let ghost before = out@;
            proof {
                assert forall|a: int| 0 <= a < before.len() implies #[trigger] before[a].0 < elig@[k as int].0 by {
                    let b = choose|b: int| 0 <= b < k && #[trigger] elig@[b] == before[a];
                }
            }
            out.push(elig[k]);
            proof {
                assert forall|b: int| 0 <= b < elig@.len() implies (out@.contains(#[trigger] elig@[b]) <==> (b < k + 1 && meds@[b] <= 2 * tightest)) by {
                    if b == k {
                        assert(out@[out@.len() - 1] == elig@[b]);
                    } else {
                        if b < k {
                            assert(elig@[b].0 < elig@[k as int].0);
                        } else {
                            assert(elig@[k as int].0 < elig@[b].0);
                        }
                        if out@.contains(elig@[b]) {
                            let a = choose|a: int| 0 <= a < out@.len() && out@[a] == elig@[b];
                            if a < before.len() {
                                assert(before.contains(elig@[b]));
                            } else {
                                assert(elig@[b] == elig@[k as int]);
                            }
                        }
                        if before.contains(elig@[b]) {
                            let a = choose|a: int| 0 <= a < before.len() && before[a] == elig@[b];
                            assert(out@[a] == elig@[b]);
                        }
                    }
                }
            }
        } else {
            proof {
                assert forall|b: int| 0 <= b < elig@.len() implies (out@.contains(#[trigger] elig@[b]) <==> (b < k + 1 && meds@[b] <= 2 * tightest)) by {
                    if b == k && out@.contains(elig@[b]) {
                        let a = choose|a: int| 0 <= a < out@.len() && out@[a] == elig@[b];
                        let c = choose|c: int| 0 <= c < k && #[trigger] elig@[c] == out@[a];
                        assert(elig@[c].0 < elig@[b].0);
                    }
                }
            }
        }
        k += 1;
    }
    proof {
        assert forall|id: SourceId| out@.contains(id) <==> credited(changes@, id) by {
            if out@.contains(id) {
                let a = choose|a: int| 0 <= a < out@.len() && out@[a] == id;
                let b = choose|b: int| 0 <= b < elig@.len() && #[trigger] elig@[b] == out@[a];
                assert(out@.contains(elig@[b]));
                assert forall|j: SourceId| #[trigger] eligible(changes@, j) implies median_width_of(changes@, id) <= 2 * median_width_of(changes@, j) by {
                    assert(elig@.contains(j));
                    let c = choose|c: int| 0 <= c < elig@.len() && elig@[c] == j;
                    assert(tightest <= meds@[c]);
                }
            }
            if credited(changes@, id) {
                assert(elig@.contains(id));
                let b = choose|b: int| 0 <= b < elig@.len() && elig@[b] == id;
                assert(eligible(changes@, elig@[t_at as int]));
                assert(out@.contains(elig@[b]));
            }
        }
    }
    out
}

proof fn lemma_widths_for_len(changes: Seq<Change>, id: SourceId)
    ensures
        widths_for(changes, id).len() <= changes.len(),
        widths_for(changes, id).len() > 0 ==> appears(changes, id),
    decreases changes.len(),
{
    if changes.len() > 0 {
        lemma_widths_for_len(changes.drop_last(), id);
        let d = changes.drop_last();
        if widths_for(d, id).len() > 0 {
            let (i, j) = choose|i: int, j: int|
                0 <= i < d.len() && 0 <= j < d[i].containing@.len() && #[trigger] d[i].containing@[j].0 == id;
            assert(changes[i] == d[i]);
        }
        lemma_first_width_some(changes.last().containing@, id);
        if first_width(changes.last().containing@, id) is Some {
            let j = choose|j: int| 0 <= j < changes.last().containing@.len() && #[trigger] changes.last().containing@[j].0 == id;
            assert(changes[changes.len() - 1].containing@[j].0 == id);
        }
    }
}

proof fn lemma_eligible_appears(changes: Seq<Change>, id: SourceId)
    requires
        eligible(changes, id),
    ensures
        appears(changes, id),
{
    lemma_widths_for_len(changes, id);
}

// ---------------------------------------------------------------------
// Keyed lists: a path-keyed association list read as a map, the later of
// two entries for one path winning.

/// The map an association list stands for, each value seen through `f`.
pub open spec fn assoc_map<V, W>(s: Seq<(String, V)>, f: spec_fn(V) -> W) -> Map<Seq<char>, W>
    decreases s.len(),
{
    if s.len() == 0 {
        Map::empty()
    } else {
        assoc_map(s.drop_last(), f).insert(s.last().0@, f(s.last().1))
    }
}

/// Whether no path occurs twice.
pub open spec fn keys_distinct<V>(s: Seq<(String, V)>) -> bool {
    forall|i: int, j: int| 0 <= i < j < s.len() ==> s[i].0@ != s[j].0@
}

proof fn lemma_assoc_absent<V, W>(s: Seq<(String, V)>, f: spec_fn(V) -> W, k: Seq<char>)
    requires
        forall|j: int| 0 <= j < s.len() ==> s[j].0@ != k,
    ensures
        !assoc_map(s, f).contains_key(k),
    decreases s.len(),
{
    if s.len() > 0 {
        lemma_assoc_absent(s.drop_last(), f, k);
    }
}

proof fn lemma_assoc_at<V, W>(s: Seq<(String, V)>, f: spec_fn(V) -> W, i: int)
    requires
        0 <= i < s.len(),
        forall|j: int| i < j < s.len() ==> s[j].0@ != s[i].0@,
    ensures
        assoc_map(s, f).contains_key(s[i].0@),
        assoc_map(s, f)[s[i].0@] == f(s[i].1),
    decreases s.len(),
{
    if i < s.len() - 1 {
        lemma_assoc_at(s.drop_last(), f, i);
    }
}

proof fn lemma_assoc_update<V, W>(s: Seq<(String, V)>, f: spec_fn(V) -> W, i: int, k: String, v: V)
    requires
        0 <= i < s.len(),
        s[i].0@ == k@,
        forall|j: int| i < j < s.len() ==> s[j].0@ != k@,
    ensures
        assoc_map(s.update(i, (k, v)), f) == assoc_map(s, f).insert(k@, f(v)),
    decreases s.len(),
{
    if i == s.len() - 1 {
        assert(s.update(i, (k, v)).drop_last() =~= s.drop_last());
        assert(assoc_map(s.update(i, (k, v)), f) =~= assoc_map(s, f).insert(k@, f(v)));
    } else {
        assert(s.update(i, (k, v)).drop_last() =~= s.drop_last().update(i, (k, v)));
        lemma_assoc_update(s.drop_last(), f, i, k, v);
        assert(assoc_map(s.update(i, (k, v)), f) =~= assoc_map(s, f).insert(k@, f(v)));
    }
}

proof fn lemma_distinct_update<V>(s: Seq<(String, V)>, i: int, k: String, v: V)
    requires
        keys_distinct(s),
        0 <= i < s.len(),
        s[i].0@ == k@,
    ensures
        keys_distinct(s.update(i, (k, v))),
{
    assert forall|a: int, b: int| 0 <= a < b < s.len() implies s.update(i, (k, v))[a].0@ != s.update(
        i,
        (k, v),
    )[b].0@ by {
        assert(s[a].0@ != s[b].0@);
    }
}

/// Where `p` is keyed, if anywhere: the last entry for it.
fn key_index<V>(s: &Vec<(String, V)>, p: &str) -> (r: Option<usize>)
    ensures
        match r {
            Some(i) => i < s@.len() && s@[i as int].0@ == p@ && forall|j: int|
                i < j < s@.len() ==> s@[j].0@ != p@,
            None => forall|j: int| 0 <= j < s@.len() ==> s@[j].0@ != p@,
        },
{
    let mut i: usize = s.len();
    while i > 0
        invariant
            i <= s@.len(),
            forall|j: int| i <= j < s@.len() ==> s@[j].0@ != p@,
        decreases i,
    {
        if str_eq(s[i - 1].0.as_str(), p) {
            return Some(i - 1);
        }
        i -= 1;
    }
    None
}

proof fn lemma_assoc_dom<V, W>(s: Seq<(String, V)>, f: spec_fn(V) -> W, k: Seq<char>)
    ensures
        assoc_map(s, f).contains_key(k) <==> exists|j: int| 0 <= j < s.len() && s[j].0@ == k,
    decreases s.len(),
{
    if s.len() > 0 {
        lemma_assoc_dom(s.drop_last(), f, k);
        if exists|j: int| 0 <= j < s.len() && s[j].0@ == k {
            let j = choose|j: int| 0 <= j < s.len() && s[j].0@ == k;
            if j < s.len() - 1 {
                assert(s.drop_last()[j].0@ == k);
            }
        }
    }
}

// ---------------------------------------------------------------------
// Path order: paths sort by their characters.

/// Lexicographic order on characters.
pub open spec fn chars_lt(a: Seq<char>, b: Seq<char>) -> bool
    decreases a.len(),
{
    if a.len() == 0 {
        b.len() > 0
    } else if b.len() == 0 {
        false
    } else if a[0] != b[0] {
        a[0] < b[0]
    } else {
        chars_lt(a.skip(1), b.skip(1))
    }
}

/// Strictly increasing, hence free of repeats.
pub open spec fn paths_sorted(v: Seq<Seq<char>>) -> bool {
    forall|i: int, j: int| 0 <= i < j < v.len() ==> chars_lt(v[i], v[j])
}

proof fn lemma_lt_irreflexive(a: Seq<char>)
    ensures
        !chars_lt(a, a),
    decreases a.len(),
{
    if a.len() > 0 {
        lemma_lt_irreflexive(a.skip(1));
    }
}

proof fn lemma_lt_transitive(a: Seq<char>, b: Seq<char>, c: Seq<char>)
    requires
        chars_lt(a, b),
        chars_lt(b, c),
    ensures
        chars_lt(a, c),
    decreases a.len(),
{
    if a.len() > 0 && b.len() > 0 && c.len() > 0 && a[0] == b[0] && b[0] == c[0] {
        lemma_lt_transitive(a.skip(1), b.skip(1), c.skip(1));
    }
}

proof fn lemma_lt_total(a: Seq<char>, b: Seq<char>)
    ensures
        a =~= b || chars_lt(a, b) || chars_lt(b, a),
    decreases a.len(),
{
    if a.len() == 0 && b.len() == 0 {
        assert(a =~= b);
    } else if a.len() > 0 && b.len() > 0 && a[0] == b[0] {
        lemma_lt_total(a.skip(1), b.skip(1));
        if a.skip(1) =~= b.skip(1) {
            assert(a.len() == b.len());
            assert forall|i: int| 0 <= i < a.len() implies a[i] == b[i] by {
                if i > 0 {
                    assert(a[i] == a.skip(1)[i - 1]);
                    assert(b[i] == b.skip(1)[i - 1]);
                }
            }
            assert(a =~= b);
        }
    }
}

fn chars_less(a: &Vec<char>, b: &Vec<char>) -> (r: bool)
    ensures
        r == chars_lt(a@, b@),
{
    let mut i: usize = 0;
    proof {
        assert(a@.skip(0) =~= a@);
        assert(b@.skip(0) =~= b@);
    }
    while i < a.len() && i < b.len()
        invariant
            i <= a@.len(),
            i <= b@.len(),
            chars_lt(a@, b@) == chars_lt(a@.skip(i as int), b@.skip(i as int)),
        decreases a@.len() - i,
    {
        if a[i] != b[i] {
            proof {
                assert(a@.skip(i as int)[0] == a@[i as int]);
                assert(b@.skip(i as int)[0] == b@[i as int]);
            }
            return a[i] < b[i];
        }
        proof {
            assert(a@.skip(i as int).skip(1) =~= a@.skip(i + 1));
            assert(b@.skip(i as int).skip(1) =~= b@.skip(i + 1));
        }
        i += 1;
    }
    i == a.len() && i < b.len()
}

/// `paths` with `x` inserted in order, unless already present.
fn insert_path(paths: &mut Vec<String>, x: String)
    requires
        paths_sorted(views(old(paths)@)),
    ensures
        paths_sorted(views(final(paths)@)),
        views(final(paths)@).to_set() == views(old(paths)@).to_set().insert(x@),
{
    let xv = chars_of(x.as_str());
    let ghost start = views(paths@);
    let mut k: usize = 0;
    while k < paths.len()
        invariant
            k <= paths@.len(),
            start == views(paths@),
            paths_sorted(start),
            xv@ == x@,
            forall|j: int| 0 <= j < k ==> chars_lt(start[j], x@),
        ensures
            k <= paths@.len(),
            start == views(paths@),
            forall|j: int| 0 <= j < k ==> chars_lt(start[j], x@),
            k < paths@.len() ==> !chars_lt(start[k as int], x@),
        decreases paths@.len() - k,
    {
        let pv = chars_of(paths[k].as_str());
        if !chars_less(&pv, &xv) {
            break;
        }
        k += 1;
    }
    if k < paths.len() {
        let pv = chars_of(paths[k].as_str());
        if !chars_less(&xv, &pv) {
            proof {
                lemma_lt_total(start[k as int], x@);
                assert(start[k as int] == x@);
                assert(start.to_set().insert(x@) =~= start.to_set());
            }
            return;
        }
    }
    proof {
        lemma_lt_irreflexive(x@);
        assert forall|m: int| k <= m < start.len() implies chars_lt(x@, start[m]) by {
            if m > k {
                lemma_lt_transitive(x@, start[k as int], start[m]);
            }
        }
    }
    paths.insert(k, x);
    proof {
        let now = views(paths@);
        assert(now =~= start.subrange(0, k as int).push(x@) + start.subrange(k as int, start.len() as int));
        assert forall|i: int, j: int| 0 <= i < j < now.len() implies chars_lt(now[i], now[j]) by {
            if j < k {
            } else if j == k {
            } else if i == k {
            } else if i < k {
                lemma_lt_transitive(start[i], x@, start[j - 1]);
            }
        }
        assert forall|y: Seq<char>| #[trigger] now.to_set().contains(y) == start.to_set().insert(x@).contains(y) by {
            if now.contains(y) {
                let i = choose|i: int| 0 <= i < now.len() && now[i] == y;
                if i < k {
                    assert(start[i] == y);
                } else if i > k {
                    assert(start[i - 1] == y);
                }
            }
            if start.contains(y) {
                let i = choose|i: int| 0 <= i < start.len() && start[i] == y;
                if i < k {
                    assert(now[i] == y);
                } else {
                    assert(now[i + 1] == y);
                }
            }
            if y == x@ {
                assert(now[k as int] == y);
            }
        }
        assert(now.to_set() =~= start.to_set().insert(x@));
    }
}

// ---------------------------------------------------------------------
// The path ledger.

/// A copy of a list of bracket widths.
fn copy_widths(v: &Vec<(SourceId, u64)>) -> (r: Vec<(SourceId, u64)>)
    ensures
        r@ == v@,
{
    let mut out: Vec<(SourceId, u64)> = Vec::new();
    let mut j: usize = 0;
    while j < v.len()
        invariant
            j <= v@.len(),
            out@ == v@.take(j as int),
        decreases v@.len() - j,
    {
        out.push(v[j]);
        proof {
            assert(v@.take(j + 1) =~= v@.take(j as int).push(v@[j as int]));
        }
        j += 1;
    }
    proof {
        assert(v@.take(v@.len() as int) =~= v@);
    }
    out
}

/// A change as plain values: when, and the widths of the brackets over it.
pub open spec fn change_view(c: Change) -> (u64, Seq<(SourceId, u64)>) {
    (c.at, c.containing@)
}

/// A stamp read as itself.
pub open spec fn stamp_id() -> spec_fn(PathStamp) -> PathStamp {
    |x: PathStamp| x
}

/// A path's changes read as plain values.
pub open spec fn history() -> spec_fn(Vec<Change>) -> Seq<(u64, Seq<(SourceId, u64)>)> {
    |v: Vec<Change>| v@.map_values(|c: Change| change_view(c))
}

/// A path's recorded changes, none when it has none.
pub open spec fn history_at(m: Map<Seq<char>, Seq<(u64, Seq<(SourceId, u64)>)>>, p: Seq<char>) -> Seq<(u64, Seq<(SourceId, u64)>)> {
    if m.contains_key(p) {
        m[p]
    } else {
        Seq::empty()
    }
}

/// One stat of one path: when it differs from the observer's own baseline,
/// the baseline advances and one change is recorded at `at`, inside the
/// given brackets.
pub open spec fn noted(
    seen: Map<Seq<char>, PathStamp>,
    ch: Map<Seq<char>, Seq<(u64, Seq<(SourceId, u64)>)>>,
    p: Seq<char>,
    st: PathStamp,
    at: u64,
    containing: Seq<(SourceId, u64)>,
) -> (Map<Seq<char>, PathStamp>, Map<Seq<char>, Seq<(u64, Seq<(SourceId, u64)>)>>) {
    if seen.contains_key(p) && seen[p] == st {
        (seen, ch)
    } else {
        (seen.insert(p, st), ch.insert(p, history_at(ch, p).push((at, containing))))
    }
}

/// A run of stats, in order.
pub open spec fn observed(
    seen: Map<Seq<char>, PathStamp>,
    ch: Map<Seq<char>, Seq<(u64, Seq<(SourceId, u64)>)>>,
    cur: Seq<(String, PathStamp)>,
    at: u64,
    containing: Seq<(SourceId, u64)>,
) -> (Map<Seq<char>, PathStamp>, Map<Seq<char>, Seq<(u64, Seq<(SourceId, u64)>)>>)
    decreases cur.len(),
{
    if cur.len() == 0 {
        (seen, ch)
    } else {
        let prev = observed(seen, ch, cur.drop_last(), at, containing);
        noted(prev.0, prev.1, cur.last().0@, cur.last().1, at, containing)
    }
}

/// A completed bracket's closing stamps, in order: a path whose stamp is
/// what the bracket opened with is skipped, the others are stats.
pub open spec fn bracket_observed(
    seen: Map<Seq<char>, PathStamp>,
    ch: Map<Seq<char>, Seq<(u64, Seq<(SourceId, u64)>)>>,
    closes: Seq<(String, PathStamp)>,
    before: Map<Seq<char>, PathStamp>,
    at: u64,
    containing: Seq<(SourceId, u64)>,
) -> (Map<Seq<char>, PathStamp>, Map<Seq<char>, Seq<(u64, Seq<(SourceId, u64)>)>>)
    decreases closes.len(),
{
    if closes.len() == 0 {
        (seen, ch)
    } else {
        let prev = bracket_observed(seen, ch, closes.drop_last(), before, at, containing);
        let p = closes.last().0@;
        let st = closes.last().1;
        if before.contains_key(p) && before[p] == st {
            prev
        } else {
            noted(prev.0, prev.1, p, st, at, containing)
        }
    }
}

/// Whether a change happened at or after `cutoff`.
pub open spec fn change_live(cutoff: u64) -> spec_fn((u64, Seq<(SourceId, u64)>)) -> bool {
    |c: (u64, Seq<(SourceId, u64)>)| c.0 >= cutoff
}

/// Whether no child was in flight over a change.
pub open spec fn change_exogenous() -> spec_fn((u64, Seq<(SourceId, u64)>)) -> bool {
    |c: (u64, Seq<(SourceId, u64)>)| c.1.len() == 0
}

/// The observer's view of the watched union: its own baseline per path, and
/// the changes it has seen inside the window. Deliberately separate from
/// every `MtimeWatchSet`: the two stat the same paths and must not share a
/// baseline, or advancing one would swallow the other's fire.
pub struct PathLedger {
    /// Sorted and free of repeats, so the stat order is deterministic.
    paths: Vec<String>,
    seen: Vec<(String, PathStamp)>,
    changes: Vec<(String, Vec<Change>)>,
}

impl PathLedger {
    /// The watched paths, in stat order.
    pub closed spec fn paths_view(&self) -> Seq<Seq<char>> {
        views(self.paths@)
    }

    /// The observer's baseline per path.
    pub closed spec fn seen_view(&self) -> Map<Seq<char>, PathStamp> {
        assoc_map(self.seen@, stamp_id())
    }

    /// The changes seen per path.
    pub closed spec fn changes_view(&self) -> Map<Seq<char>, Seq<(u64, Seq<(SourceId, u64)>)>> {
        assoc_map(self.changes@, history())
    }

    /// The representation's invariant.
    pub closed spec fn wf(&self) -> bool {
        &&& paths_sorted(views(self.paths@))
        &&& keys_distinct(self.seen@)
        &&& keys_distinct(self.changes@)
    }

    /// Sort and deduplicate the paths, and take the baseline: a path that
    /// already exists is not a change. `stamped` is the watched paths with
    /// their current stamps; for a path named twice the later stamp holds.
    pub fn new(stamped: Vec<(String, PathStamp)>) -> (r: PathLedger)
        ensures
            r.wf(),
            paths_sorted(r.paths_view()),
            r.paths_view().to_set() == stamped@.map_values(|e: (String, PathStamp)| e.0@).to_set(),
            r.seen_view() == assoc_map(stamped@, stamp_id()),
            r.changes_view() == Map::<Seq<char>, Seq<(u64, Seq<(SourceId, u64)>)>>::empty(),
    {
        let mut ledger = PathLedger { paths: Vec::new(), seen: Vec::new(), changes: Vec::new() };
        let ghost keys = stamped@.map_values(|e: (String, PathStamp)| e.0@);
        proof {
            assert(views(ledger.paths@).to_set() =~= keys.take(0).to_set());
            assert(assoc_map(stamped@.take(0), stamp_id()) =~= Map::empty());
            assert(ledger.changes_view() =~= Map::empty());
        }
        let mut i: usize = 0;
        while i < stamped.len()
            invariant
                i <= stamped@.len(),
                keys == stamped@.map_values(|e: (String, PathStamp)| e.0@),
                ledger.wf(),
                views(ledger.paths@).to_set() == keys.take(i as int).to_set(),
                ledger.seen_view() == assoc_map(stamped@.take(i as int), stamp_id()),
                ledger.changes_view() == Map::<Seq<char>, Seq<(u64, Seq<(SourceId, u64)>)>>::empty(),
            decreases stamped@.len() - i,
        {
            let p = stamped[i].0.clone();
            let st = stamped[i].1;
            insert_path(&mut ledger.paths, p.clone());
            ledger.set_seen(p, st);
            proof {
                assert(stamped@.take(i + 1).drop_last() =~= stamped@.take(i as int));
                assert(keys.take(i + 1) =~= keys.take(i as int).push(stamped@[i as int].0@));
                keys.take(i as int).lemma_push_to_set_commute(stamped@[i as int].0@);
            }
            i += 1;
        }
        proof {
            assert(stamped@.take(stamped@.len() as int) =~= stamped@);
            assert(keys.take(keys.len() as int) =~= keys);
        }
        ledger
    }

    /// The watched paths, sorted: what a stat of the union covers.
    pub fn watched(&self) -> (r: &Vec<String>)
        ensures
            views(r@) == self.paths_view(),
    {
        &self.paths
    }

    /// Set the observer's baseline for one path.
    fn set_seen(&mut self, p: String, st: PathStamp)
        requires
            old(self).wf(),
        ensures
            final(self).wf(),
            final(self).paths_view() == old(self).paths_view(),
            final(self).seen_view() == old(self).seen_view().insert(p@, st),
            final(self).changes_view() == old(self).changes_view(),
    {
        match key_index(&self.seen, p.as_str()) {
            Some(i) => {
                proof {
                    lemma_assoc_update(self.seen@, stamp_id(), i as int, p, st);
                    lemma_distinct_update(self.seen@, i as int, p, st);
                }
                self.seen.set(i, (p, st));
            },
            None => {
                proof {
                    assert(self.seen@.push((p, st)).drop_last() =~= self.seen@);
                }
                self.seen.push((p, st));
            },
        }
    }

    /// Record one change to one path.
    fn record(&mut self, p: String, at: u64, containing: Vec<(SourceId, u64)>)
        requires
            old(self).wf(),
        ensures
            final(self).wf(),
            final(self).paths_view() == old(self).paths_view(),
            final(self).seen_view() == old(self).seen_view(),
            final(self).changes_view() == old(self).changes_view().insert(
                p@,
                history_at(old(self).changes_view(), p@).push((at, containing@)),
            ),
    {
        let c = Change { at, containing };
        match key_index(&self.changes, p.as_str()) {
            Some(i) => {
                let (k, mut v) = self.changes.remove(i);
                let ghost before = self.changes@;
                proof {
                    assert(k@ == p@);
                    lemma_assoc_at(old(self).changes@, history(), i as int);
                }
                let ghost old_v = v@;
                v.push(c);
                proof {
                    assert(v@.map_values(|c: Change| change_view(c)) =~= old_v.map_values(|c: Change| change_view(c)).push(
                        (at, containing@),
                    ));
                }
                self.changes.insert(i, (k, v));
                proof {
                    assert(self.changes@ =~= old(self).changes@.update(i as int, (k, v)));
                    lemma_assoc_update(old(self).changes@, history(), i as int, k, v);
                    lemma_distinct_update(old(self).changes@, i as int, k, v);
                }
            },
            None => {
                proof {
                    lemma_assoc_absent(self.changes@, history(), p@);
                }
                let mut v: Vec<Change> = Vec::new();
                v.push(c);
                proof {
                    assert(v@.map_values(|c: Change| change_view(c)) =~= seq![(at, containing@)]);
                    assert(history_at(old(self).changes_view(), p@) =~= Seq::<(u64, Seq<(SourceId, u64)>)>::empty());
                }
                let ghost prev = self.changes@;
                self.changes.push((p, v));
                proof {
                    assert(self.changes@.drop_last() =~= prev);
                    assert forall|a: int, b: int| 0 <= a < b < self.changes@.len() implies self.changes@[a].0@
                        != self.changes@[b].0@ by {
                        if b == self.changes@.len() - 1 {
                            assert(prev[a].0@ != p@);
                        }
                    }
                }
            },
        }
    }

    /// Has this path moved since the observer last looked? If so, advance
    /// the observer's own baseline and record the change.
    fn note(&mut self, p: &str, st: PathStamp, at: u64, containing: &Vec<(SourceId, u64)>)
        requires
            old(self).wf(),
        ensures
            final(self).wf(),
            final(self).paths_view() == old(self).paths_view(),
            (final(self).seen_view(), final(self).changes_view()) == noted(
                old(self).seen_view(),
                old(self).changes_view(),
                p@,
                st,
                at,
                containing@,
            ),
    {
        let same = match key_index(&self.seen, p) {
            Some(i) => {
                proof {
                    lemma_assoc_at(self.seen@, stamp_id(), i as int);
                }
                self.seen[i].1 == st
            },
            None => {
                proof {
                    lemma_assoc_absent(self.seen@, stamp_id(), p@);
                }
                false
            },
        };
        if same {
            return;
        }
        let owned = p.to_string();
        self.set_seen(owned.clone(), st);
        let copy = copy_widths(containing);
        self.record(owned, at, copy);
    }

    /// Record the changes a stat of the union found. `current` is the
    /// watched paths with their stamps now; `brackets` is who was in flight
    /// over the interval since the last call, empty when the dashboard was
    /// idle.
    pub fn observe(&mut self, now: u64, brackets: &[(SourceId, u64)], current: &[(String, PathStamp)])
        requires
            old(self).wf(),
        ensures
            final(self).wf(),
            final(self).paths_view() == old(self).paths_view(),
            (final(self).seen_view(), final(self).changes_view()) == observed(
                old(self).seen_view(),
                old(self).changes_view(),
                current@,
                now,
                brackets@,
            ),
    {
        let mut inside: Vec<(SourceId, u64)> = Vec::new();
        let mut j: usize = 0;
        while j < brackets.len()
            invariant
                j <= brackets@.len(),
                inside@ == brackets@.take(j as int),
            decreases brackets@.len() - j,
        {
            inside.push(brackets[j]);
            proof {
                assert(brackets@.take(j + 1) =~= brackets@.take(j as int).push(brackets@[j as int]));
            }
            j += 1;
        }
        proof {
            assert(brackets@.take(brackets@.len() as int) =~= brackets@);
        }
        let ghost s0 = self.seen_view();
        let ghost c0 = self.changes_view();
        let ghost p0 = self.paths_view();
        let mut i: usize = 0;
        while i < current.len()
            invariant
                i <= current@.len(),
                self.wf(),
                self.paths_view() == p0,
                inside@ == brackets@,
                (self.seen_view(), self.changes_view()) == observed(s0, c0, current@.take(i as int), now, brackets@),
            decreases current@.len() - i,
        {
            self.note(current[i].0.as_str(), current[i].1, now, &inside);
            proof {
                assert(current@.take(i + 1).drop_last() =~= current@.take(i as int));
            }
            i += 1;
        }
        proof {
            assert(current@.take(current@.len() as int) =~= current@);
        }
    }

    /// Read a completed bracket: any path whose stamp differs between its two
    /// snapshots changed while that source's child was running. A bracket
    /// still open has no width yet and says nothing.
    pub fn observe_bracket(&mut self, bracket: &Bracket)
        requires
            old(self).wf(),
        ensures
            final(self).wf(),
            final(self).paths_view() == old(self).paths_view(),
            (final(self).seen_view(), final(self).changes_view()) == match bracket.closed {
                None => (old(self).seen_view(), old(self).changes_view()),
                Some(closed) => bracket_observed(
                    old(self).seen_view(),
                    old(self).changes_view(),
                    bracket.close_stamps@,
                    assoc_map(bracket.open_stamps@, stamp_id()),
                    closed,
                    seq![(bracket.source, bracket_width(*bracket).unwrap())],
                ),
            },
    {
        let closed = match bracket.closed {
            Some(c) => c,
            None => {
                return;
            },
        };
        let width = match bracket.width() {
            Some(w) => w,
            None => 0,
        };
        let mut inside: Vec<(SourceId, u64)> = Vec::new();
        inside.push((bracket.source, width));
        proof {
            assert(inside@ =~= seq![(bracket.source, bracket_width(*bracket).unwrap())]);
        }
        let ghost before = assoc_map(bracket.open_stamps@, stamp_id());
        let ghost s0 = self.seen_view();
        let ghost c0 = self.changes_view();
        let ghost p0 = self.paths_view();
        let closes = &bracket.close_stamps;
        let mut i: usize = 0;
        while i < closes.len()
            invariant
                i <= closes@.len(),
                closes@ == bracket.close_stamps@,
                before == assoc_map(bracket.open_stamps@, stamp_id()),
                self.wf(),
                self.paths_view() == p0,
                inside@ == seq![(bracket.source, bracket_width(*bracket).unwrap())],
                (self.seen_view(), self.changes_view()) == bracket_observed(
                    s0,
                    c0,
                    closes@.take(i as int),
                    before,
                    closed,
                    inside@,
                ),
            decreases closes@.len() - i,
        {
            let p = closes[i].0.as_str();
            let st = closes[i].1;
            proof {
                assert(closes@.take(i + 1).drop_last() =~= closes@.take(i as int));
            }
            let unchanged = match key_index(&bracket.open_stamps, p) {
                Some(k) => {
                    proof {
                        lemma_assoc_at(bracket.open_stamps@, stamp_id(), k as int);
                    }
                    bracket.open_stamps[k].1 == st
                },
                None => {
                    proof {
                        lemma_assoc_absent(bracket.open_stamps@, stamp_id(), p@);
                    }
                    false
                },
            };
            if !unchanged {
                self.note(p, st, closed, &inside);
            }
            i += 1;
        }
        proof {
            assert(closes@.take(closes@.len() as int) =~= closes@);
        }
    }

    /// Drop changes older than the window, so a count means now. Before the
    /// clock has run a whole window nothing is old enough to drop.
    pub fn evict(&mut self, now: u64, window: u64)
        requires
            old(self).wf(),
        ensures
            final(self).wf(),
            final(self).paths_view() == old(self).paths_view(),
            final(self).seen_view() == old(self).seen_view(),
            final(self).changes_view().dom() == old(self).changes_view().dom(),
            forall|p: Seq<char>| #[trigger] final(self).changes_view().contains_key(p) ==> final(self).changes_view()[p]
                == match cutoff_of(window, now) {
                    Some(c) => kept(old(self).changes_view()[p], change_live(c)),
                    None => old(self).changes_view()[p],
                },
    {
        if now < window {
            return;
        }
        let cutoff = now - window;
        let ghost start = self.changes@;
        let mut i: usize = 0;
        while i < self.changes.len()
            invariant
                i <= self.changes@.len(),
                self.changes@.len() == start.len(),
                keys_distinct(start),
                self.wf(),
                self.paths_view() == old(self).paths_view(),
                self.seen_view() == old(self).seen_view(),
                start == old(self).changes@,
                forall|j: int| 0 <= j < start.len() ==> (#[trigger] self.changes@[j]).0@ == start[j].0@,
                forall|j: int| i <= j < start.len() ==> (#[trigger] self.changes@[j]).1@ == start[j].1@,
                forall|j: int| 0 <= j < i ==> history()((#[trigger] self.changes@[j]).1) == kept(
                    history()(start[j].1),
                    change_live(cutoff),
                ),
            decreases start.len() - i,
        {
            let (k, v) = self.changes.remove(i);
            let ghost hv = history()(v);
            let mut out: Vec<Change> = Vec::new();
            let mut j: usize = 0;
            while j < v.len()
                invariant
                    j <= v@.len(),
                    hv == history()(v),
                    history()(out) == kept(hv.take(j as int), change_live(cutoff)),
                decreases v@.len() - j,
            {
                proof {
                    lemma_kept_step(hv, change_live(cutoff), j as int);
                }
                if v[j].at >= cutoff {
                    let c = Change { at: v[j].at, containing: copy_widths(&v[j].containing) };
                    let ghost before = out@;
                    out.push(c);
                    proof {
                        assert(out@.map_values(|c: Change| change_view(c)) =~= before.map_values(
                            |c: Change| change_view(c),
                        ).push(change_view(c)));
                    }
                }
                j += 1;
            }
            proof {
                assert(hv.take(v@.len() as int) =~= hv);
            }
            self.changes.insert(i, (k, out));
            proof {
                assert forall|a: int, b: int| 0 <= a < b < self.changes@.len() implies self.changes@[a].0@
                    != self.changes@[b].0@ by {
                    assert(start[a].0@ != start[b].0@);
                }
            }
            i += 1;
        }
        proof {
            assert forall|p: Seq<char>| #[trigger] self.changes_view().contains_key(p)
                == old(self).changes_view().contains_key(p) by {
                lemma_assoc_dom(self.changes@, history(), p);
                lemma_assoc_dom(start, history(), p);
                if exists|j: int| 0 <= j < start.len() && start[j].0@ == p {
                    let j = choose|j: int| 0 <= j < start.len() && start[j].0@ == p;
                    assert(self.changes@[j].0@ == p);
                }
                if exists|j: int| 0 <= j < self.changes@.len() && self.changes@[j].0@ == p {
                    let j = choose|j: int| 0 <= j < self.changes@.len() && self.changes@[j].0@ == p;
                    assert(start[j].0@ == p);
                }
            }
            assert(self.changes_view().dom() =~= old(self).changes_view().dom());
            assert forall|p: Seq<char>| #[trigger] self.changes_view().contains_key(p) implies self.changes_view()[p]
                == kept(old(self).changes_view()[p], change_live(cutoff)) by {
                lemma_assoc_dom(self.changes@, history(), p);
                let j = choose|j: int| 0 <= j < self.changes@.len() && self.changes@[j].0@ == p;
                assert forall|m: int| j < m < self.changes@.len() implies self.changes@[m].0@ != self.changes@[j].0@ by {
                    assert(start[m].0@ != start[j].0@);
                }
                assert forall|m: int| j < m < start.len() implies start[m].0@ != start[j].0@ by {}
                lemma_assoc_at(self.changes@, history(), j);
                lemma_assoc_at(start, history(), j);
            }
        }
    }

    /// How many of this path's changes had no child in flight over them.
    pub fn exogenous(&self, path: &str) -> (r: usize)
        requires
            self.wf(),
        ensures
            r == kept(history_at(self.changes_view(), path@), change_exogenous()).len(),
    {
        let v = self.changes(path);
        let ghost hv = v@.map_values(|c: Change| change_view(c));
        let mut n: usize = 0;
        let mut j: usize = 0;
        while j < v.len()
            invariant
                j <= v@.len(),
                hv == v@.map_values(|c: Change| change_view(c)),
                hv == history_at(self.changes_view(), path@),
                n == kept(hv.take(j as int), change_exogenous()).len(),
                n <= j,
            decreases v@.len() - j,
        {
            proof {
                lemma_kept_step(hv, change_exogenous(), j as int);
            }
            if v[j].containing.len() == 0 {
                n += 1;
            }
            j += 1;
        }
        proof {
            assert(hv.take(v@.len() as int) =~= hv);
        }
        n
    }

    /// Every change to this path still inside the window.
    pub fn changes(&self, path: &str) -> (r: &[Change])
        requires
            self.wf(),
        ensures
            r@.map_values(|c: Change| change_view(c)) == history_at(self.changes_view(), path@),
    {
        match key_index(&self.changes, path) {
            Some(i) => {
                proof {
                    lemma_assoc_at(self.changes@, history(), i as int);
                }
                self.changes[i].1.as_slice()
            },
            None => {
                proof {
                    lemma_assoc_absent(self.changes@, history(), path@);
                }
                let none: &[Change] = &[];
                proof {
                    assert(none@.map_values(|c: Change| change_view(c)) =~= Seq::<(u64, Seq<(SourceId, u64)>)>::empty());
                }
                none
            },
        }
    }

    /// Test seam: place a change directly, without a filesystem.
    pub fn inject(&mut self, path: &str, at: u64, containing: Vec<(SourceId, u64)>)
        requires
            old(self).wf(),
        ensures
            final(self).wf(),
            final(self).paths_view() == old(self).paths_view(),
            final(self).seen_view() == old(self).seen_view(),
            final(self).changes_view() == old(self).changes_view().insert(
                path@,
                history_at(old(self).changes_view(), path@).push((at, containing@)),
            ),
    {
        self.record(path.to_string(), at, containing);
    }
}

// ---------------------------------------------------------------------
// Modification-time triggers.

/// Whether a stamp differs from a baseline that exists.
pub open spec fn moved_from(last: Option<PathStamp>, current: PathStamp) -> bool {
    last matches Some(l) && l != current
}

/// A `file:` trigger's poller. A path fires when its newest relevant
/// modification time moves; an absent path is a stable state, with no fire
/// while absent and one on appearance. The first observation only
/// establishes the baseline. The stat itself is the caller's.
pub struct MtimeWatch {
    path: String,
    last: Option<PathStamp>,
}

impl MtimeWatch {
    /// The watched path.
    pub closed spec fn path_view(&self) -> Seq<char> {
        self.path@
    }

    /// The stamp the last observation saw, if any was made.
    pub closed spec fn last_view(&self) -> Option<PathStamp> {
        self.last
    }

    /// A watch with no baseline yet.
    pub fn new(path: String) -> (r: MtimeWatch)
        ensures
            r.path_view() == path@,
            r.last_view() is None,
    {
        MtimeWatch { path, last: None }
    }

    /// The path to stat.
    pub fn path(&self) -> (r: &str)
        ensures
            r@ == self.path_view(),
    {
        self.path.as_str()
    }

    /// Given the path's stamp now, report whether it changed since the last
    /// observation, and make it the baseline.
    pub fn fired(&mut self, current: PathStamp) -> (r: bool)
        ensures
            r == moved_from(old(self).last_view(), current),
            final(self).last_view() == Some(current),
            final(self).path_view() == old(self).path_view(),
    {
        let changed = match self.last {
            Some(l) => l != current,
            None => false,
        };
        self.last = Some(current);
        changed
    }
}

/// Every `file:` spec of one watch run; fires when any member fires.
pub struct MtimeWatchSet(Vec<MtimeWatch>);

impl MtimeWatchSet {
    /// The members' paths, in order.
    pub closed spec fn paths_view(&self) -> Seq<Seq<char>> {
        self.0@.map_values(|w: MtimeWatch| w.path_view())
    }

    /// The members' baselines, in order.
    pub closed spec fn lasts_view(&self) -> Seq<Option<PathStamp>> {
        self.0@.map_values(|w: MtimeWatch| w.last_view())
    }

    /// One watch per path, none with a baseline yet.
    pub fn new(paths: Vec<String>) -> (r: MtimeWatchSet)
        ensures
            r.paths_view() == views(paths@),
            r.lasts_view() == Seq::new(paths@.len(), |i: int| None::<PathStamp>),
    {
        let ghost ps = views(paths@);
        let mut out: Vec<MtimeWatch> = Vec::new();
        let mut rest = paths;
        let mut i: usize = 0;
        let n = rest.len();
        while i < n
            invariant
                n == ps.len(),
                i <= n,
                rest@.len() == n - i,
                views(rest@) == ps.skip(i as int),
                out@.map_values(|w: MtimeWatch| w.path_view()) == ps.take(i as int),
                out@.map_values(|w: MtimeWatch| w.last_view()) == Seq::new(i as nat, |k: int| None::<PathStamp>),
            decreases n - i,
        {
            let ghost was = rest@;
            let p = rest.remove(0);
            proof {
                assert(rest@ =~= was.subrange(1, was.len() as int));
                assert(views(was)[0] == ps.skip(i as int)[0]);
                assert forall|k: int| 0 <= k < rest@.len() implies views(rest@)[k] == ps.skip(i + 1)[k] by {
                    assert(views(was)[k + 1] == ps.skip(i as int)[k + 1]);
                }
                assert(views(rest@) =~= ps.skip(i + 1));
                assert(p@ == ps[i as int]);
            }
            let w = MtimeWatch::new(p);
            let ghost before = out@;
            out.push(w);
            proof {
                assert(out@.map_values(|w: MtimeWatch| w.path_view()) =~= before.map_values(
                    |w: MtimeWatch| w.path_view(),
                ).push(w.path_view()));
                assert(ps.take(i + 1) =~= ps.take(i as int).push(ps[i as int]));
                assert(out@.map_values(|w: MtimeWatch| w.last_view()) =~= before.map_values(
                    |w: MtimeWatch| w.last_view(),
                ).push(w.last_view()));
                assert(out@.map_values(|w: MtimeWatch| w.last_view()) =~= Seq::new((i + 1) as nat, |k: int| None::<PathStamp>));
            }
            i += 1;
        }
        proof {
            assert(ps.take(n as int) =~= ps);
        }
        MtimeWatchSet(out)
    }

    /// The paths to stat, in member order.
    pub fn paths(&self) -> (r: Vec<String>)
        ensures
            views(r@) == self.paths_view(),
    {
        let mut out: Vec<String> = Vec::new();
        let mut i: usize = 0;
        while i < self.0.len()
            invariant
                i <= self.0@.len(),
                views(out@) == self.paths_view().take(i as int),
            decreases self.0@.len() - i,
        {
            let p = self.0[i].path().to_string();
            proof {
                assert(views(out@.push(p)) =~= views(out@).push(p@));
                assert(self.paths_view().take(i + 1) =~= self.paths_view().take(i as int).push(self.paths_view()[i as int]));
            }
            out.push(p);
            i += 1;
        }
        proof {
            assert(self.paths_view().take(self.0@.len() as int) =~= self.paths_view());
        }
        out
    }

    /// Given each member's stamp now, in member order: every baseline
    /// advances, even after one fires, and the set fires when any member
    /// does.
    pub fn fired(&mut self, current: &[PathStamp]) -> (r: bool)
        requires
            current@.len() == old(self).paths_view().len(),
        ensures
            r == exists|i: int| 0 <= i < current@.len() && #[trigger] moved_from(old(self).lasts_view()[i], current@[i]),
            final(self).lasts_view() == current@.map_values(|c: PathStamp| Some(c)),
            final(self).paths_view() == old(self).paths_view(),
    {
        let ghost start = self.0@;
        let mut any = false;
        let mut i: usize = 0;
        while i < self.0.len()
            invariant
                i <= self.0@.len(),
                self.0@.len() == start.len(),
                current@.len() == start.len(),
                forall|k: int| 0 <= k < start.len() ==> (#[trigger] self.0@[k]).path_view() == start[k].path_view(),
                forall|k: int| 0 <= k < i ==> (#[trigger] self.0@[k]).last_view() == Some(current@[k]),
                forall|k: int| i <= k < start.len() ==> (#[trigger] self.0@[k]).last_view() == start[k].last_view(),
                any == exists|k: int| 0 <= k < i && #[trigger] moved_from(start[k].last_view(), current@[k]),
            decreases start.len() - i,
        {
            let mut w = self.0.remove(i);
            let f = w.fired(current[i]);
            self.0.insert(i, w);
            any = any || f;
            proof {
                if f {
                    assert(moved_from(start[i as int].last_view(), current@[i as int]));
                }
            }
            i += 1;
        }
        proof {
            assert(self.lasts_view() =~= current@.map_values(|c: PathStamp| Some(c)));
            assert(self.paths_view() =~= old(self).paths_view());
            assert forall|k: int| 0 <= k < start.len() implies old(self).lasts_view()[k] == start[k].last_view() by {}
            if any {
                let k = choose|k: int| 0 <= k < start.len() && #[trigger] moved_from(start[k].last_view(), current@[k]);
                assert(moved_from(old(self).lasts_view()[k], current@[k]));
            }
            if exists|k: int| 0 <= k < current@.len() && #[trigger] moved_from(old(self).lasts_view()[k], current@[k]) {
                let k = choose|k: int| 0 <= k < current@.len() && #[trigger] moved_from(old(self).lasts_view()[k], current@[k]);
                assert(moved_from(start[k].last_view(), current@[k]));
            }
        }
        any
    }
}


// ---------------------------------------------------------------------
// Laws over calls.

/// Every kept member satisfies the predicate, and every member that
/// satisfies it is kept.
proof fn lemma_kept_contains<T>(s: Seq<T>, p: spec_fn(T) -> bool, j: int)
    requires
        0 <= j < s.len(),
        p(s[j]),
    ensures
        kept(s, p).contains(s[j]),
    decreases s.len(),
{
    if j == s.len() - 1 {
        assert(kept(s, p)[kept(s, p).len() - 1] == s[j]);
    } else {
        assert(s.drop_last()[j] == s[j]);
        lemma_kept_contains(s.drop_last(), p, j);
        let k = kept(s.drop_last(), p);
        let i = choose|i: int| 0 <= i < k.len() && k[i] == s[j];
        if p(s.last()) {
            assert(kept(s, p)[i] == s[j]);
        }
    }
}

/// A stronger predicate keeps no more.
proof fn lemma_kept_len_mono<T>(s: Seq<T>, p: spec_fn(T) -> bool, q: spec_fn(T) -> bool)
    requires
        forall|x: T| #[trigger] q(x) ==> p(x),
    ensures
        kept(s, q).len() <= kept(s, p).len(),
    decreases s.len(),
{
    if s.len() > 0 {
        lemma_kept_len_mono(s.drop_last(), p, q);
    }
}

/// A windowed respawn count only falls as time passes: evidence expires,
/// it is never re-dated.
pub proof fn lemma_respawn_count_falls(rs: Seq<(SourceId, u64)>, source: SourceId, window: u64, earlier: u64, later: u64)
    requires
        earlier <= later,
    ensures
        respawn_count(rs, source, cutoff_of(window, later)) <= respawn_count(rs, source, cutoff_of(window, earlier)),
{
    let p = respawn_pred(source, cutoff_of(window, earlier));
    let q = respawn_pred(source, cutoff_of(window, later));
    assert forall|x: (SourceId, u64)| #[trigger] q(x) implies p(x) by {}
    lemma_kept_len_mono(rs, p, q);
}

/// The id the next `open_bracket` hands out is held by no bracket in the
/// log, and every id it holds is smaller: ids strictly increase and are
/// never reused, eviction included (it keeps the next id).
pub proof fn lemma_next_id_is_fresh(log: WindowLog)
    requires
        log.wf(),
    ensures
        find_bracket(log.brackets_of(), BracketId(log.next_id_of())) is None,
        forall|i: int| 0 <= i < log.brackets_of().len() ==> #[trigger] log.brackets_of()[i].id.0 < log.next_id_of(),
{
    let bs = log.brackets_of();
    let id = BracketId(log.next_id_of());
    lemma_find_char(bs, id);
    if let Some(b) = find_bracket(bs, id) {
        let k = choose|k: int| 0 <= k < bs.len() && #[trigger] bs[k] == b && b.id == id;
        assert(bs[k].id.0 < log.next_id_of());
    }
}

/// A bracket just opened is the one its id finds: `close_bracket` with
/// that id closes it, until eviction drops it (then `None`).
pub proof fn lemma_opened_bracket_is_found(bs: Seq<Bracket>, b: Bracket, next_id: u64)
    requires
        ids_ordered(bs, next_id),
        b.id == BracketId(next_id),
    ensures
        find_bracket(bs.push(b), b.id) == Some(b),
{
    let s = bs.push(b);
    lemma_find_char(s, b.id);
    assert(s[bs.len() as int] == b);
    if let Some(x) = find_bracket(s, b.id) {
        let k = choose|k: int| 0 <= k < s.len() && #[trigger] s[k] == x && x.id == b.id;
        if k < bs.len() {
            assert(s[k] == bs[k]);
            assert(bs[k].id.0 < next_id);
        }
    }
}

proof fn lemma_widths_same(a: Seq<Bracket>, b: Seq<Bracket>, ids: Seq<BracketId>)
    requires
        forall|k: int| 0 <= k < ids.len() ==> find_bracket(a, #[trigger] ids[k]) == find_bracket(b, ids[k]),
    ensures
        widths_of(a, ids) == widths_of(b, ids),
    decreases ids.len(),
{
    if ids.len() > 0 {
        let d = ids.drop_last();
        assert forall|k: int| 0 <= k < d.len() implies find_bracket(a, #[trigger] d[k]) == find_bracket(b, d[k]) by {
            assert(d[k] == ids[k]);
        }
        lemma_widths_same(a, b, d);
        assert(ids.last() == ids[ids.len() - 1]);
    }
}

/// After an eviction that kept `after` of `before`'s arrivals and
/// brackets, every arrival still in the log resolves its widths exactly
/// as before: a bracket a live arrival references is kept.
pub proof fn lemma_evict_keeps_arrival_widths(before: WindowLog, after: WindowLog, now: u64, c: u64, i: int)
    requires
        before.wf(),
        after.arrivals_of() == kept(before.arrivals_of(), arrival_live(c)),
        after.brackets_of() == kept(before.brackets_of(), bracket_live(now, c, after.arrivals_of())),
        0 <= i < after.arrivals_of().len(),
    ensures
        widths_of(after.brackets_of(), after.arrivals_of()[i].containing@) == widths_of(
            before.brackets_of(),
            after.arrivals_of()[i].containing@,
        ),
{
    let bs = before.brackets_of();
    let arr = after.arrivals_of();
    let p = bracket_live(now, c, arr);
    let ids = arr[i].containing@;
    assert forall|k: int| 0 <= k < ids.len() implies find_bracket(after.brackets_of(), #[trigger] ids[k]) == find_bracket(
        bs,
        ids[k],
    ) by {
        let id = ids[k];
        assert(arr[i].containing@[k] == id);
        assert(referenced(arr, id));
        lemma_find_in_kept(bs, p, id, before.next_id_of());
        lemma_find_char(bs, id);
        lemma_find_char(kept(bs, p), id);
        if let Some(b) = find_bracket(bs, id) {
            let j = choose|j: int| 0 <= j < bs.len() && #[trigger] bs[j] == b && b.id == id;
            assert(p(bs[j]));
            lemma_kept_contains(bs, p, j);
            let m = choose|m: int| 0 <= m < kept(bs, p).len() && kept(bs, p)[m] == bs[j];
            assert(kept(bs, p)[m].id == id);
        } else {
            lemma_kept_members(bs, p);
            if let Some(x) = find_bracket(kept(bs, p), id) {
                let m = choose|m: int| 0 <= m < kept(bs, p).len() && #[trigger] kept(bs, p)[m] == x && x.id == id;
                let j = choose|j: int| 0 <= j < bs.len() && #[trigger] kept(bs, p)[m] == bs[j] && p(bs[j]);
                assert(bs[j].id != id);
            }
        }
    }
    lemma_widths_same(after.brackets_of(), bs, ids);
}

/// The baselines a new watch set holds before its `k`-th call: none
/// before the first, then the previous call's stamps.
pub open spec fn lasts_before(obs: Seq<Seq<PathStamp>>, k: int) -> Seq<Option<PathStamp>> {
    if k == 0 {
        Seq::new(obs[k].len(), |i: int| None::<PathStamp>)
    } else {
        obs[k - 1].map_values(|c: PathStamp| Some(c))
    }
}

/// What the watch set's `fired` answers at its `k`-th call of a run of
/// stats, one stamp per path per call, starting from a new set.
pub open spec fn set_fires(obs: Seq<Seq<PathStamp>>, k: int) -> bool {
    exists|i: int| 0 <= i < obs[k].len() && #[trigger] moved_from(lasts_before(obs, k)[i], obs[k][i])
}

/// The first call only takes the baseline; each later call fires exactly
/// when some path's stamp differs from the previous call's, so a change
/// is reported once and not again while the stamp stays.
pub proof fn lemma_set_fires_once_per_change(obs: Seq<Seq<PathStamp>>, k: int)
    requires
        0 <= k < obs.len(),
        forall|j: int| 0 <= j < obs.len() ==> #[trigger] obs[j].len() == obs[0].len(),
    ensures
        k == 0 ==> !set_fires(obs, k),
        k > 0 ==> (set_fires(obs, k) <==> exists|i: int| 0 <= i < obs[k].len() && #[trigger] obs[k - 1][i] != obs[k][i]),
{
    if k == 0 {
        if set_fires(obs, k) {
            let i = choose|i: int| 0 <= i < obs[k].len() && #[trigger] moved_from(lasts_before(obs, k)[i], obs[k][i]);
            assert(lasts_before(obs, k)[i] is None);
        }
    } else {
        assert(obs[k - 1].len() == obs[k].len());
        if exists|i: int| 0 <= i < obs[k].len() && #[trigger] obs[k - 1][i] != obs[k][i] {
            let i = choose|i: int| 0 <= i < obs[k].len() && #[trigger] obs[k - 1][i] != obs[k][i];
            assert(lasts_before(obs, k)[i] == Some(obs[k - 1][i]));
            assert(moved_from(lasts_before(obs, k)[i], obs[k][i]));
        }
        if set_fires(obs, k) {
            let i = choose|i: int| 0 <= i < obs[k].len() && #[trigger] moved_from(lasts_before(obs, k)[i], obs[k][i]);
            assert(lasts_before(obs, k)[i] == Some(obs[k - 1][i]));
            assert(obs[k - 1][i] != obs[k][i]);
        }
    }
}

/// A stamp noted for a path is not noted again: a later stat (from a
/// bracket or from the observer) that reads the same stamp adds no change.
pub proof fn lemma_noted_once(
    seen: Map<Seq<char>, PathStamp>,
    ch: Map<Seq<char>, Seq<(u64, Seq<(SourceId, u64)>)>>,
    p: Seq<char>,
    st: PathStamp,
    at: u64,
    containing: Seq<(SourceId, u64)>,
    later: u64,
    again: Seq<(SourceId, u64)>,
)
    ensures
        ({
            let first = noted(seen, ch, p, st, at, containing);
            noted(first.0, first.1, p, st, later, again) == first
        }),
{
}

} // verus!
