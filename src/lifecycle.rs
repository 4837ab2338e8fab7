//! The server's running flag as a one-shot state machine: it starts once,
//! stops once, and never runs again after a stop.
use vstd::prelude::*;

verus! {

#[derive(Clone, Copy, Debug, PartialEq, Eq, Structural)]
pub enum Phase {
    /// Bound, not yet running.
    Idle,
    Running,
    /// Stopped for good.
    Stopped,
}

/// What a call of `stop` reports.
#[derive(Clone, Copy, Debug, PartialEq, Eq, Structural)]
pub enum StopNotice {
    /// The server was running and has been told to stop.
    Signalled,
    /// The server was not running; nothing changed.
    AlreadyStopped,
}

pub open spec fn start_spec(p: Phase) -> Phase {
    if p == Phase::Idle {
        Phase::Running
    } else {
        p
    }
}

pub open spec fn stop_spec(p: Phase) -> (Phase, StopNotice) {
    if p == Phase::Running {
        (Phase::Stopped, StopNotice::Signalled)
    } else {
        (Phase::Stopped, StopNotice::AlreadyStopped)
    }
}

pub open spec fn running_spec(p: Phase) -> bool {
    p == Phase::Running
}

pub open spec fn code_spec(p: Phase) -> u8 {
    match p {
        Phase::Idle => 0,
        Phase::Running => 1,
        Phase::Stopped => 2,
    }
}

/// The phase after a run of later calls: `true` for `start`, `false` for `stop`.
pub open spec fn after_calls(p: Phase, calls: Seq<bool>) -> Phase
    decreases calls.len(),
{
    if calls.len() == 0 {
        p
    } else {
        let q = if calls[0] {
            start_spec(p)
        } else {
            stop_spec(p).0
        };
        after_calls(q, calls.subrange(1, calls.len() as int))
    }
}

impl Phase {
    /// Called when the accept loop begins: an idle server starts running; a
    /// stopped one stays stopped.
    pub fn start(self) -> (r: Phase)
        ensures
            r == start_spec(self),
    {
        match self {
            Phase::Idle => Phase::Running,
            other => other,
        }
    }

    /// The stop signal: a running server stops; otherwise nothing changes but
    /// the phase records that no run may follow.
    pub fn stop(self) -> (r: (Phase, StopNotice))
        ensures
            r == stop_spec(self),
    {
        match self {
            Phase::Running => (Phase::Stopped, StopNotice::Signalled),
            _ => (Phase::Stopped, StopNotice::AlreadyStopped),
        }
    }

    /// Whether the accept loop and the connection workers keep going.
    pub fn is_running(self) -> (r: bool)
        ensures
            r == running_spec(self),
    {
        match self {
            Phase::Running => true,
            _ => false,
        }
    }

    /// The phase as a small number, to be kept in an atomic cell.
    pub fn code(self) -> (r: u8)
        ensures
            r == code_spec(self),
            r < 3,
    {
        match self {
            Phase::Idle => 0,
            Phase::Running => 1,
            Phase::Stopped => 2,
        }
    }

    /// The phase that `code` maps to `c`; any larger number reads as stopped.
    pub fn from_code(c: u8) -> (r: Phase)
        ensures
            c < 3 ==> code_spec(r) == c,
            c >= 3 ==> r == Phase::Stopped,
    {
        if c == 0 {
            Phase::Idle
        } else if c == 1 {
            Phase::Running
        } else {
            Phase::Stopped
        }
    }
}

/// Reading a phase back from its code gives the same phase.
pub proof fn lemma_code_round_trip(p: Phase)
    ensures
        forall|q: Phase| code_spec(q) == code_spec(p) ==> q == p,
{
}

/// Once stopped, a server never runs again, whatever `start` and `stop` calls
/// follow; the accept loop therefore accepts nothing more.
pub proof fn lemma_stopped_for_good(p: Phase, calls: Seq<bool>)
    ensures
        !running_spec(after_calls(stop_spec(p).0, calls)),
        after_calls(stop_spec(p).0, calls) == Phase::Stopped,
{
    lemma_stopped_stays(calls);
}

proof fn lemma_stopped_stays(calls: Seq<bool>)
    ensures
        after_calls(Phase::Stopped, calls) == Phase::Stopped,
    decreases calls.len(),
{
    if calls.len() > 0 {
        lemma_stopped_stays(calls.subrange(1, calls.len() as int));
    }
}

/// A second `stop` reports that nothing was running and changes nothing.
pub proof fn lemma_stop_twice(p: Phase)
    ensures
        stop_spec(stop_spec(p).0) == (stop_spec(p).0, StopNotice::AlreadyStopped),
        !running_spec(stop_spec(p).0),
{
}

} // verus!
