use ws_chat::frame::FrameError;
use ws_chat::session::{
    after_handshake, on_read_event, on_write_event, IdGenerator, ReadAction, ReadEvent,
    SessionState, WriteAction, WriteEvent,
};

#[test]
fn generate_new_id_is_monotonic_and_unique() {
    let mut generator = IdGenerator::new();
    let a = generator.generate_new_id();
    let b = generator.generate_new_id();
    let c = generator.generate_new_id();
    assert_eq!(a, 0);
    assert_eq!(b, 1);
    assert_eq!(c, 2);
    assert!(a != b && b != c && a != c);
}

#[test]
fn decoded_message_is_delivered_and_session_stays_open() {
    let (state, action) = on_read_event(SessionState::Open, ReadEvent::Message("hi".to_string()));
    assert_eq!(state, SessionState::Open);
    assert!(matches!(action, ReadAction::Deliver(text) if text == "hi"));
}

#[test]
fn peer_close_drains_and_closes() {
    let (state, action) = on_read_event(SessionState::Open, ReadEvent::PeerClosed);
    assert_eq!(state, SessionState::Draining);
    assert!(matches!(action, ReadAction::DrainAndClose));
}

#[test]
fn transient_read_failure_is_retried() {
    let (state, action) = on_read_event(SessionState::Open, ReadEvent::Transient);
    assert_eq!(state, SessionState::Open);
    assert!(matches!(action, ReadAction::Continue));
}

#[test]
fn protocol_violation_terminates_only_this_connection() {
    let (state, action) =
        on_read_event(SessionState::Open, ReadEvent::Protocol(FrameError::Fragmented));
    assert_eq!(state, SessionState::Closed);
    assert!(matches!(action, ReadAction::AbortConnection));
}

#[test]
fn fatal_io_terminates_only_this_connection() {
    let (state, action) = on_read_event(SessionState::Open, ReadEvent::IoFailed);
    assert_eq!(state, SessionState::Closed);
    assert!(matches!(action, ReadAction::AbortConnection));
}

#[test]
fn write_flow_sends_pending_messages() {
    let (draining, action) = on_write_event(false, WriteEvent::Pending("out".to_string()));
    assert!(!draining);
    assert!(matches!(action, WriteAction::Send(text) if text == "out"));
}

#[test]
fn write_flow_waits_on_empty_queue_until_signaled() {
    let (draining, action) = on_write_event(false, WriteEvent::Empty);
    assert!(!draining);
    assert!(matches!(action, WriteAction::Wait));
}

#[test]
fn write_flow_drains_then_stops_after_close_signal() {
    let (draining, action) = on_write_event(false, WriteEvent::CloseSignaled);
    assert!(draining);
    assert!(matches!(action, WriteAction::Wait));

    // Still sends whatever is already enqueued...
    let (draining, action) = on_write_event(true, WriteEvent::Pending("last".to_string()));
    assert!(draining);
    assert!(matches!(action, WriteAction::Send(text) if text == "last"));

    // ...and stops once the queue is empty.
    let (draining, action) = on_write_event(true, WriteEvent::Empty);
    assert!(draining);
    assert!(matches!(action, WriteAction::Stop));
}

#[test]
fn only_a_successful_upgrade_opens_the_session() {
    assert_eq!(after_handshake(true), SessionState::Open);
    assert_eq!(after_handshake(false), SessionState::Closed);
}
