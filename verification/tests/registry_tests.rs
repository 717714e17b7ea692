use ws_chat::registry::Registry;

#[test]
fn broadcast_reaches_all_but_the_sender() {
    let mut registry = Registry::new();
    registry.register(1);
    registry.register(2);
    registry.register(3);

    registry.broadcast_except(1, &"hello".to_string());

    assert_eq!(registry.pop_pending(2), Some("hello".to_string()));
    assert_eq!(registry.pop_pending(3), Some("hello".to_string()));
    assert_eq!(registry.pop_pending(1), None);
}

#[test]
fn per_recipient_order_is_send_order() {
    let mut registry = Registry::new();
    registry.register(1);
    registry.register(2);
    registry.register(3);

    registry.broadcast_except(1, &"first".to_string());
    registry.broadcast_except(3, &"second".to_string());

    assert_eq!(registry.pop_pending(2), Some("first".to_string()));
    assert_eq!(registry.pop_pending(2), Some("second".to_string()));
    assert_eq!(registry.pop_pending(2), None);

    // Connection 3 sent the second message, so it only holds the first.
    assert_eq!(registry.pop_pending(3), Some("first".to_string()));
    assert_eq!(registry.pop_pending(3), None);
}

#[test]
fn deregistered_connection_receives_nothing_afterwards() {
    let mut registry = Registry::new();
    registry.register(1);
    registry.register(2);

    registry.deregister(1);
    registry.broadcast_except(2, &"late".to_string());

    assert_eq!(registry.pop_pending(1), None);
    assert_eq!(registry.pop_pending(2), None);
}

#[test]
fn deregister_leaves_other_queues_alone() {
    let mut registry = Registry::new();
    registry.register(1);
    registry.register(2);
    registry.register(3);
    registry.broadcast_except(1, &"kept".to_string());

    registry.deregister(2);

    assert_eq!(registry.pop_pending(3), Some("kept".to_string()));
    assert_eq!(registry.pop_pending(2), None);
}

#[test]
fn deregister_of_absent_id_changes_nothing() {
    let mut registry = Registry::new();
    registry.register(7);
    registry.deregister(99);
    registry.broadcast_except(99, &"still here".to_string());
    assert_eq!(registry.pop_pending(7), Some("still here".to_string()));
}

#[test]
fn pop_on_empty_queue_is_none() {
    let mut registry = Registry::new();
    registry.register(4);
    assert_eq!(registry.pop_pending(4), None);
    assert_eq!(registry.pop_pending(12345), None);
}

#[test]
fn interleaved_operations_keep_the_registry_sound() {
    let mut registry = Registry::new();

    // Many connections come and go while messages fan out between them.
    for id in 0..20u64 {
        registry.register(id);
    }
    for id in (0..20u64).step_by(2) {
        registry.deregister(id);
    }
    registry.broadcast_except(1, &"round one".to_string());
    for id in 20..30u64 {
        registry.register(id);
    }
    registry.deregister(3);
    registry.broadcast_except(5, &"round two".to_string());

    // Departed connections hold nothing.
    for id in (0..20u64).step_by(2) {
        assert_eq!(registry.pop_pending(id), None);
    }
    assert_eq!(registry.pop_pending(3), None);

    // Odd survivors other than the senders got exactly one copy of each
    // round they were present for, in order, and no duplicates.
    for id in [7u64, 9, 11, 13, 15, 17, 19] {
        assert_eq!(registry.pop_pending(id), Some("round one".to_string()));
        assert_eq!(registry.pop_pending(id), Some("round two".to_string()));
        assert_eq!(registry.pop_pending(id), None);
    }
    // The senders were spared their own rounds.
    assert_eq!(registry.pop_pending(1), Some("round two".to_string()));
    assert_eq!(registry.pop_pending(1), None);
    assert_eq!(registry.pop_pending(5), Some("round one".to_string()));
    assert_eq!(registry.pop_pending(5), None);

    // Late arrivals only saw the second round.
    for id in 20..30u64 {
        assert_eq!(registry.pop_pending(id), Some("round two".to_string()));
        assert_eq!(registry.pop_pending(id), None);
    }
}
