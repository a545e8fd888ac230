//! The life of one upgraded client connection, as a state machine: the task
//! that owns the connection performs the action and reports the next event.
use vstd::prelude::*;

verus! {

#[derive(Debug, Clone, Copy, PartialEq, Eq, Structural)]
pub enum ConnState {
    Connecting,
    Attached,
    Closing,
    Closed,
}

#[derive(Debug, Clone, Copy, PartialEq, Eq, Structural)]
pub enum ConnEvent {
    /// The lobby accepted the attachment.
    AttachAccepted,
    /// The lobby refused the attachment (session gone, race lost).
    AttachRefused,
    /// An inbound frame decoded into an envelope.
    FrameDecoded,
    /// An inbound frame arrived whole but did not decode.
    FrameMalformed,
    /// The inbound framing itself is corrupt.
    FramingCorrupted,
    /// The read loop ended: the peer closed, or the transport failed.
    ReadEnded,
    /// The drain loop ended: the outbound channel closed, or a write failed.
    DrainEnded,
    /// Detachment, channel close and shutdown are done.
    CleanupDone,
}

#[derive(Debug, Clone, Copy, PartialEq, Eq, Structural)]
pub enum ConnAction {
    /// Nothing to do.
    Nothing,
    /// Announce the arrival to the peers returned by the attachment.
    Announce,
    /// Tell the client why it could not join, then clean up.
    RejectAndCleanup,
    /// Broadcast the envelope to the session, sender excluded.
    Relay,
    /// Report an invalid message to this client only.
    ReplyInvalid,
    /// Detach from the session, close the outbound channel, shut down the
    /// transport.
    Cleanup,
}

/// The transition taken by a connection in `state` on `event`.
pub open spec fn transition(state: ConnState, event: ConnEvent) -> (ConnState, ConnAction) {
    match state {
        ConnState::Connecting => match event {
            ConnEvent::AttachAccepted => (ConnState::Attached, ConnAction::Announce),
            ConnEvent::AttachRefused => (ConnState::Closing, ConnAction::RejectAndCleanup),
            ConnEvent::FramingCorrupted | ConnEvent::ReadEnded | ConnEvent::DrainEnded => (
                ConnState::Closing,
                ConnAction::Cleanup,
            ),
            _ => (ConnState::Connecting, ConnAction::Nothing),
        },
        ConnState::Attached => match event {
            ConnEvent::FrameDecoded => (ConnState::Attached, ConnAction::Relay),
            ConnEvent::FrameMalformed => (ConnState::Attached, ConnAction::ReplyInvalid),
            ConnEvent::FramingCorrupted | ConnEvent::ReadEnded | ConnEvent::DrainEnded => (
                ConnState::Closing,
                ConnAction::Cleanup,
            ),
            _ => (ConnState::Attached, ConnAction::Nothing),
        },
        ConnState::Closing => match event {
            ConnEvent::CleanupDone => (ConnState::Closed, ConnAction::Nothing),
            _ => (ConnState::Closing, ConnAction::Nothing),
        },
        ConnState::Closed => (ConnState::Closed, ConnAction::Nothing),
    }
}

/// The next state of a connection in `state` on `event`, and what the owning
/// task has to do.
pub fn step(state: ConnState, event: ConnEvent) -> (r: (ConnState, ConnAction))
    ensures
        r == transition(state, event),
{
    match state {
        ConnState::Connecting => match event {
            ConnEvent::AttachAccepted => (ConnState::Attached, ConnAction::Announce),
            ConnEvent::AttachRefused => (ConnState::Closing, ConnAction::RejectAndCleanup),
            ConnEvent::FramingCorrupted | ConnEvent::ReadEnded | ConnEvent::DrainEnded => (
                ConnState::Closing,
                ConnAction::Cleanup,
            ),
            _ => (ConnState::Connecting, ConnAction::Nothing),
        },
        ConnState::Attached => match event {
            ConnEvent::FrameDecoded => (ConnState::Attached, ConnAction::Relay),
            ConnEvent::FrameMalformed => (ConnState::Attached, ConnAction::ReplyInvalid),
            ConnEvent::FramingCorrupted | ConnEvent::ReadEnded | ConnEvent::DrainEnded => (
                ConnState::Closing,
                ConnAction::Cleanup,
            ),
            _ => (ConnState::Attached, ConnAction::Nothing),
        },
        ConnState::Closing => match event {
            ConnEvent::CleanupDone => (ConnState::Closed, ConnAction::Nothing),
            _ => (ConnState::Closing, ConnAction::Nothing),
        },
        ConnState::Closed => (ConnState::Closed, ConnAction::Nothing),
    }
}

/// Every way into `Closing` cleans up, and cleanup is asked for nowhere else:
/// a connection that leaves `Connecting` or `Attached` for good always detaches.
pub proof fn lemma_closing_cleans_up(state: ConnState, event: ConnEvent)
    ensures
        ({
            let (next, action) = transition(state, event);
            (state != ConnState::Closing && state != ConnState::Closed && next == ConnState::Closing)
                <==> (action == ConnAction::Cleanup || action == ConnAction::RejectAndCleanup)
        }),
        transition(ConnState::Closed, event) == (ConnState::Closed, ConnAction::Nothing),
{
}

} // verus!
