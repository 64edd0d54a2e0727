//! The stream pump's control state: a background task drains the mailbox into
//! a long-lived outbound stream, and on a transport failure it backs off a
//! fixed interval and reconnects, indefinitely. Only channel closure — or a
//! clean completion of the stream call — ends it.
//!
//! The pump here is the decision rule alone: the embedding performs each
//! returned action (opening the stream call, sleeping, exiting) and reports
//! the outcome back as the next event. Recovery never touches the mailbox, so
//! messages still resident in the queue survive a reconnect; only messages
//! already dequeued at the moment of failure may be lost.

use vstd::prelude::*;

verus! {

/// The fixed backoff slept after a failed stream call, in seconds. It does
/// not grow with the failure count and there is no retry ceiling.
pub const BACKOFF_SECS: u64 = 3;

/// Where the pump stands.
#[derive(Clone, Copy, Debug, PartialEq, Eq, Structural)]
pub enum PumpState {
    /// About to issue the stream call.
    Connecting,
    /// The stream call is live and draining the mailbox.
    Streaming,
    /// A call failed; waiting out the backoff interval.
    Backoff,
    /// Finished for good.
    Exited,
}

/// What the embedding reports to the pump.
#[derive(Clone, Copy, Debug, PartialEq, Eq, Structural)]
pub enum PumpEvent {
    /// The stream call was issued and is live.
    Connected,
    /// The stream call returned an error.
    StreamFailed,
    /// The stream call returned cleanly. This ends the pump even if the
    /// channel is not yet closed and drained — an accepted design risk: an
    /// early server-side close stops consumption while producers may still
    /// hold buffered sends.
    StreamCompleted,
    /// The backoff interval has elapsed.
    BackoffElapsed,
}

/// What the embedding performs next.
#[derive(Clone, Copy, Debug, PartialEq, Eq, Structural)]
pub enum PumpAction {
    /// Issue the long-lived stream call, feeding it from the mailbox.
    OpenStream,
    /// Keep driving the live stream.
    Drive,
    /// Sleep this many seconds, then report the elapse.
    Sleep(u64),
    /// Stop the pump's task.
    Exit,
}

/// The pump's transition relation: the linear life
/// connecting, streaming, and on failure backoff and around again,
/// until a clean completion exits. An event out of season changes nothing.
pub open spec fn spec_pump_next(s: PumpState, e: PumpEvent) -> PumpState {
    match (s, e) {
        (PumpState::Connecting, PumpEvent::Connected) => PumpState::Streaming,
        (PumpState::Streaming, PumpEvent::StreamFailed) => PumpState::Backoff,
        (PumpState::Streaming, PumpEvent::StreamCompleted) => PumpState::Exited,
        (PumpState::Backoff, PumpEvent::BackoffElapsed) => PumpState::Connecting,
        _ => s,
    }
}

/// What each state asks of the embedding. The backoff asked after a failure
/// is the fixed interval, whatever the failure count.
pub open spec fn spec_pump_action(s: PumpState) -> PumpAction {
    match s {
        PumpState::Connecting => PumpAction::OpenStream,
        PumpState::Streaming => PumpAction::Drive,
        PumpState::Backoff => PumpAction::Sleep(BACKOFF_SECS),
        PumpState::Exited => PumpAction::Exit,
    }
}

/// The pump: its state and how many stream calls have failed so far (kept
/// for diagnostics; it never influences the backoff).
pub struct Pump {
    state: PumpState,
    failures: u64,
}

impl Pump {
    /// Where the pump stands.
    pub closed spec fn spec_state(&self) -> PumpState {
        self.state
    }

    /// How many stream calls have failed so far.
    pub closed spec fn spec_failures(&self) -> u64 {
        self.failures
    }

    /// A fresh pump, about to connect.
    pub fn new() -> (pump: Pump)
        ensures
            pump.spec_state() == PumpState::Connecting,
            pump.spec_failures() == 0,
    {
        Pump { state: PumpState::Connecting, failures: 0 }
    }

    /// Where the pump stands.
    pub fn state(&self) -> (s: PumpState)
        ensures
            s == self.spec_state(),
    {
        self.state
    }

    /// Whether the pump has finished for good.
    pub fn is_exited(&self) -> (b: bool)
        ensures
            b == (self.spec_state() == PumpState::Exited),
    {
        match self.state {
            PumpState::Exited => true,
            _ => false,
        }
    }

    /// Feeds one event to the pump and returns what the embedding performs
    /// next. The transition follows [`spec_pump_next`]; the action follows
    /// [`spec_pump_action`] on the new state, so the backoff slept after a
    /// failure is always the fixed interval.
    pub fn step(&mut self, e: PumpEvent) -> (a: PumpAction)
        ensures
            final(self).spec_state() == spec_pump_next(old(self).spec_state(), e),
            a == spec_pump_action(final(self).spec_state()),
            final(self).spec_failures() == if old(self).spec_state() == PumpState::Streaming && e
                == PumpEvent::StreamFailed && old(self).spec_failures() < u64::MAX {
                old(self).spec_failures() + 1
            } else {
                old(self).spec_failures() as int
            },
    {
        match (self.state, e) {
            (PumpState::Connecting, PumpEvent::Connected) => {
                self.state = PumpState::Streaming;
            },
            (PumpState::Streaming, PumpEvent::StreamFailed) => {
                self.state = PumpState::Backoff;
                if self.failures < u64::MAX {
                    self.failures = self.failures + 1;
                }
            },
            (PumpState::Streaming, PumpEvent::StreamCompleted) => {
                self.state = PumpState::Exited;
            },
            (PumpState::Backoff, PumpEvent::BackoffElapsed) => {
                self.state = PumpState::Connecting;
            },
            _ => {},
        }
        match self.state {
            PumpState::Connecting => PumpAction::OpenStream,
            PumpState::Streaming => PumpAction::Drive,
            PumpState::Backoff => PumpAction::Sleep(BACKOFF_SECS),
            PumpState::Exited => PumpAction::Exit,
        }
    }
}

/// Pump resilience: from a live stream, a failed call sends the pump through
/// one fixed-interval backoff — the same interval whatever the failure count
/// — and a reconnect back to a live stream; no step of that recovery touches
/// the mailbox, so every message still resident in the queue is still there
/// to be replayed. A clean completion, by contrast, exits for good.
pub proof fn lemma_pump_resilience(s: PumpState)
    requires
        s == PumpState::Streaming,
    ensures
        spec_pump_next(s, PumpEvent::StreamFailed) == PumpState::Backoff,
        spec_pump_action(spec_pump_next(s, PumpEvent::StreamFailed)) == PumpAction::Sleep(
            BACKOFF_SECS,
        ),
        spec_pump_next(spec_pump_next(s, PumpEvent::StreamFailed), PumpEvent::BackoffElapsed)
            == PumpState::Connecting,
        spec_pump_next(
            spec_pump_next(spec_pump_next(s, PumpEvent::StreamFailed), PumpEvent::BackoffElapsed),
            PumpEvent::Connected,
        ) == PumpState::Streaming,
        spec_pump_next(s, PumpEvent::StreamCompleted) == PumpState::Exited,
{
}

} // verus!
