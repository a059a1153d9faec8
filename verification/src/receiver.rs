//! The ingestion channel's decision logic.
//!
//! The transport polling loop itself lives outside the library; each
//! turn of that loop hands the current shutdown flag and what the
//! transport returned to [`ReceiverState::step`], and performs the
//! action it decides: stop, broadcast the received bytes, or back off
//! briefly (no data) or at length (a transport fault — faults never end
//! the loop).  The broadcast channel the bytes go to is bounded and
//! drop-oldest: a lossy fan-out, not a backpressure mechanism.

use vstd::prelude::*;

verus! {

/// What the transport returned on one poll.
#[derive(Debug)]
pub enum TransportEvent {
    /// A whole envelope was received.
    Message(Vec<u8>),
    /// Nothing is available right now.
    Empty,
    /// The transport reported an error other than "would block".
    Fault,
}

/// What the loop must do next.
#[derive(Debug, PartialEq, Eq)]
pub enum ReceiverAction {
    /// Leave the loop and release the transport.
    Stop,
    /// Hand the envelope to the broadcast channel and poll again.
    Broadcast(Vec<u8>),
    /// Sleep briefly (millisecond scale), then poll again.
    PauseShort,
    /// Sleep at length (second scale), then poll again.
    PauseLong,
}

/// The loop's own state: how many envelopes have been received.
#[derive(Debug)]
pub struct ReceiverState {
    pub receive_count: u64,
}

impl ReceiverState {
    /// A fresh loop that has received nothing.
    pub fn new() -> (r: ReceiverState)
        ensures
            r.receive_count == 0,
    {
        ReceiverState { receive_count: 0 }
    }

    /// One turn of the polling loop.  Shutdown is checked first and
    /// wins over everything; a received envelope is counted and handed
    /// on; no data backs off briefly; any other fault backs off at
    /// length and never stops the loop.
    pub fn step(&mut self, shutdown: bool, event: TransportEvent) -> (a: ReceiverAction)
        ensures
            shutdown ==> a == ReceiverAction::Stop && final(self).receive_count
                == old(self).receive_count,
            !shutdown ==> match event {
                TransportEvent::Message(m) => a == ReceiverAction::Broadcast(m)
                    && final(self).receive_count == (if old(self).receive_count < u64::MAX {
                    old(self).receive_count + 1
                } else {
                    u64::MAX as int
                }),
                TransportEvent::Empty => a == ReceiverAction::PauseShort
                    && final(self).receive_count == old(self).receive_count,
                TransportEvent::Fault => a == ReceiverAction::PauseLong
                    && final(self).receive_count == old(self).receive_count,
            },
    {
        if shutdown {
            return ReceiverAction::Stop;
        }
        match event {
            TransportEvent::Message(m) => {
                if self.receive_count < u64::MAX {
                    self.receive_count = self.receive_count + 1;
                }
                ReceiverAction::Broadcast(m)
            },
            TransportEvent::Empty => ReceiverAction::PauseShort,
            TransportEvent::Fault => ReceiverAction::PauseLong,
        }
    }
}

} // verus!
