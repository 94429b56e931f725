//! The ways an evaluation can fail.

use vstd::prelude::*;

verus! {

/// Why the agent ended its turn.
#[derive(Debug, Clone, Copy, PartialEq, Eq, Structural)]
pub enum StopReason {
    EndTurn,
    MaxTokens,
    MaxTurnRequests,
    Refusal,
    Cancelled,
}

/// What the agent did that the protocol does not allow.
#[derive(Debug, Clone, Copy, PartialEq, Eq, Structural)]
pub enum AgentFault {
    /// The turn ended for a reason other than `StopReason::EndTurn`.
    Stopped { reason: StopReason },
    /// A callback or a completion arrived when none was due.
    OutOfOrder,
}

/// Every way an evaluation can fail.
#[derive(Debug, Clone, Copy, PartialEq, Eq, Structural)]
pub enum Error {
    /// A callback named a child that the thinking node does not have.
    IndexBounds { index: usize, len: usize },
    /// The agent left the protocol.
    UnexpectedAgentState { fault: AgentFault },
    /// A channel endpoint vanished while it was still needed.
    InternalProtocol,
    /// Opening a session or submitting a prompt failed.
    Transport,
}

} // verus!
