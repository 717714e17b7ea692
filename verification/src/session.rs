//! The per-connection session: identity allocation and the decisions of
//! the read and write flows, as a pure state machine.
//!
//! The process runs one read flow and one write flow per connection; both
//! perform socket I/O outside this crate and hand every observation here
//! as an event.  The step functions below decide the next state and the
//! one action owed for each event, so the loop around them contains no
//! policy of its own.

use crate::frame::FrameError;
use vstd::prelude::*;

verus! {

/// The process-wide source of connection identities: a monotonic counter,
/// so every identity is handed out at most once for the life of the
/// process.  The process shares one generator, guarded like the registry.
pub struct IdGenerator {
    next_id: u64,
}

impl IdGenerator {
    /// The identity the next call will hand out.
    pub closed spec fn next_id(self) -> u64 {
        self.next_id
    }

    /// A generator starting at zero.
    pub fn new() -> (r: Self)
        ensures
            r.next_id() == 0,
    {
        IdGenerator { next_id: 0 }
    }

    /// The identity the next call will hand out, without advancing.
    pub fn peek_next_id(&self) -> (r: u64)
        ensures
            r == self.next_id(),
    {
        self.next_id
    }

    /// Hands out the next identity and advances the counter, so no two
    /// calls ever return the same value.
    pub fn generate_new_id(&mut self) -> (r: u64)
        requires
            old(self).next_id() < u64::MAX,
        ensures
            r == old(self).next_id(),
            final(self).next_id() == old(self).next_id() + 1,
    {
        let id = self.next_id;
        self.next_id = self.next_id + 1;
        id
    }
}

/// The lifecycle of one connection's session.
#[derive(Debug, PartialEq, Eq, Structural, Clone, Copy)]
pub enum SessionState {
    /// Reading and validating the HTTP upgrade request.
    Handshaking,
    /// Upgraded: the read and write flows are both running.
    Open,
    /// The peer closed: the write flow drains its queue, reading stopped.
    Draining,
    /// Both flows have stopped and the identity left the registry.
    Closed,
}

/// What the read flow observed in one step.
pub enum ReadEvent {
    /// The decoder yielded one complete text message.
    Message(String),
    /// The decoder saw the peer's close frame.
    PeerClosed,
    /// The read timed out or would block: transient, retry later.
    Transient,
    /// The decoder rejected the frame as a protocol violation.
    Protocol(FrameError),
    /// A fatal I/O error on the socket.
    IoFailed,
}

/// What the session owes the process after a read-flow step.
pub enum ReadAction {
    /// Nothing: poll the socket again on the next scheduling opportunity.
    Continue,
    /// Persist the message (best effort: a persistence failure is logged
    /// and does not stop delivery) and broadcast it to every other
    /// connection.
    Deliver(String),
    /// Deregister this connection and signal the write flow to drain its
    /// remaining queue and stop; reading ends in order.
    DrainAndClose,
    /// Deregister this connection and drop it: the error is unrecoverable
    /// for this connection, and only for this one.
    AbortConnection,
}

/// The read flow's decision table.
pub open spec fn spec_read_step(event: ReadEvent) -> (SessionState, ReadAction) {
    match event {
        ReadEvent::Message(text) => (SessionState::Open, ReadAction::Deliver(text)),
        ReadEvent::PeerClosed => (SessionState::Draining, ReadAction::DrainAndClose),
        ReadEvent::Transient => (SessionState::Open, ReadAction::Continue),
        ReadEvent::Protocol(_) => (SessionState::Closed, ReadAction::AbortConnection),
        ReadEvent::IoFailed => (SessionState::Closed, ReadAction::AbortConnection),
    }
}

/// Decides one step of the read flow: deliver decoded messages, treat the
/// peer's close as orderly shutdown, retry after transient failures, and
/// terminate this connection alone on any protocol violation or fatal
/// I/O error.
pub fn on_read_event(state: SessionState, event: ReadEvent) -> (r: (SessionState, ReadAction))
    requires
        state == SessionState::Open,
    ensures
        r == spec_read_step(event),
{
    match event {
        ReadEvent::Message(text) => (SessionState::Open, ReadAction::Deliver(text)),
        ReadEvent::PeerClosed => (SessionState::Draining, ReadAction::DrainAndClose),
        ReadEvent::Transient => (SessionState::Open, ReadAction::Continue),
        ReadEvent::Protocol(_) => (SessionState::Closed, ReadAction::AbortConnection),
        ReadEvent::IoFailed => (SessionState::Closed, ReadAction::AbortConnection),
    }
}

/// What the write flow observed in one step.
pub enum WriteEvent {
    /// The connection's queue yielded its oldest pending message.
    Pending(String),
    /// The queue was empty at this look.
    Empty,
    /// The read flow's one-shot close signal has fired.
    CloseSignaled,
}

/// What the session owes the process after a write-flow step.
pub enum WriteAction {
    /// Encode this message and write the frame to the socket.
    Send(String),
    /// Wait (bounded) and look at the queue again.
    Wait,
    /// The queue is drained and the close signal was seen: stop writing.
    Stop,
}

/// The write flow's decision table: `draining` is true once the close
/// signal has been observed.
pub open spec fn spec_write_step(draining: bool, event: WriteEvent) -> (bool, WriteAction) {
    match event {
        WriteEvent::Pending(text) => (draining, WriteAction::Send(text)),
        WriteEvent::Empty => if draining {
            (true, WriteAction::Stop)
        } else {
            (false, WriteAction::Wait)
        },
        WriteEvent::CloseSignaled => (true, WriteAction::Wait),
    }
}

/// Decides one step of the write flow: send whatever is pending, in queue
/// order, even while draining; after the close signal, an empty queue
/// ends the flow instead of waiting for more.
pub fn on_write_event(draining: bool, event: WriteEvent) -> (r: (bool, WriteAction))
    ensures
        r == spec_write_step(draining, event),
{
    match event {
        WriteEvent::Pending(text) => (draining, WriteAction::Send(text)),
        WriteEvent::Empty => {
            if draining {
                (true, WriteAction::Stop)
            } else {
                (false, WriteAction::Wait)
            }
        },
        WriteEvent::CloseSignaled => (true, WriteAction::Wait),
    }
}

/// The state the session enters once the handshake has been decided: only
/// a successful upgrade opens the session; a non-upgrade request or a
/// missing key ends it without registering.
pub fn after_handshake(upgraded: bool) -> (r: SessionState)
    ensures
        upgraded ==> r == SessionState::Open,
        !upgraded ==> r == SessionState::Closed,
{
    if upgraded {
        SessionState::Open
    } else {
        SessionState::Closed
    }
}

} // verus!
