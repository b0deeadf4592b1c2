//! The life of one connection, from accept to teardown.

use vstd::prelude::*;

verus! {

/// Where a connection stands in its life.
#[derive(Clone, Copy, Debug, PartialEq, Eq, Structural)]
pub enum ConnState {
    /// The transport was accepted; the read and write loops are not running yet.
    Connecting,
    /// Both loops run; the connection may join rooms, send and receive.
    Active,
    /// Teardown has begun; the connection takes no further part in any room.
    Closing,
    /// Both loops have ended. The connection never comes back.
    Closed,
}

/// What can happen to a connection.
#[derive(Clone, Copy, Debug, PartialEq, Eq, Structural)]
pub enum ConnEvent {
    /// The read and write loops have been spawned.
    Spawned,
    /// Reading from the transport failed, or the peer went away.
    ReadError,
    /// Writing to the transport failed.
    WriteError,
    /// The connection was asked to close.
    CloseRequested,
    /// Too many messages in a row had to be dropped for this connection.
    DropLimitReached,
    /// Both loops have ended and the connection's resources are released.
    Finished,
}

/// The state that follows `state` when `event` happens.
///
/// A connection only ever moves forward: `Connecting`, `Active`, `Closing`,
/// `Closed`. An event that does not apply in the current state leaves it as it is.
pub open spec fn spec_step(state: ConnState, event: ConnEvent) -> ConnState {
    match (state, event) {
        (ConnState::Connecting, ConnEvent::Spawned) => ConnState::Active,
        (ConnState::Active, ConnEvent::ReadError) => ConnState::Closing,
        (ConnState::Active, ConnEvent::WriteError) => ConnState::Closing,
        (ConnState::Active, ConnEvent::CloseRequested) => ConnState::Closing,
        (ConnState::Active, ConnEvent::DropLimitReached) => ConnState::Closing,
        (ConnState::Closing, ConnEvent::Finished) => ConnState::Closed,
        _ => state,
    }
}

/// How far a connection has come: each state counts one more than the one
/// before it.
pub open spec fn spec_rank(state: ConnState) -> int {
    match state {
        ConnState::Connecting => 0,
        ConnState::Active => 1,
        ConnState::Closing => 2,
        ConnState::Closed => 3,
    }
}

/// A connection moves forward one state at a time or not at all, and out of
/// `Closed` it never moves.
pub proof fn lemma_step_forward(state: ConnState, event: ConnEvent)
    ensures
        spec_rank(state) <= spec_rank(spec_step(state, event)) <= spec_rank(state) + 1,
        state == ConnState::Closed ==> spec_step(state, event) == ConnState::Closed,
{
}

/// Computes the state that follows `state` when `event` happens.
pub fn step(state: ConnState, event: ConnEvent) -> (next: ConnState)
    ensures
        next == spec_step(state, event),
{
    match state {
        ConnState::Connecting => match event {
            ConnEvent::Spawned => ConnState::Active,
            _ => state,
        },
        ConnState::Active => match event {
            ConnEvent::ReadError
            | ConnEvent::WriteError
            | ConnEvent::CloseRequested
            | ConnEvent::DropLimitReached => ConnState::Closing,
            _ => state,
        },
        ConnState::Closing => match event {
            ConnEvent::Finished => ConnState::Closed,
            _ => state,
        },
        ConnState::Closed => state,
    }
}

} // verus!
