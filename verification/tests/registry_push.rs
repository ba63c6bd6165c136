use chatcore::messages::MessageResponse;
use chatcore::registry::Registry;
use chatcore::session::teardown;

fn msg(id: u128, sender: u128, recipient: u128, content: &str, at: u64) -> MessageResponse {
    MessageResponse {
        id,
        sender_id: sender,
        recipient_id: recipient,
        content: content.to_string(),
        created_at: at,
    }
}

#[test]
fn broadcast_without_connections_is_noop() {
    let mut reg = Registry::new();
    // No entry for user 7 at all: nothing happens, nothing fails.
    reg.broadcast(7, &msg(1, 1, 7, "nobody home", 10));
    assert_eq!(reg.conn_count(7), 0);
    assert!(!reg.is_registered(7));

    // A registered user whose set became empty: still a no-op.
    reg.register(7, 1);
    reg.unregister(7, 1);
    assert_eq!(reg.conn_count(7), 0);
    reg.broadcast(7, &msg(2, 1, 7, "still nobody", 11));
    assert_eq!(reg.conn_count(7), 0);
    assert!(reg.is_registered(7));
}

#[test]
fn broadcast_reaches_both_connections_in_call_order() {
    let mut reg = Registry::new();
    reg.register(5, 101);
    reg.register(5, 102);
    reg.register(6, 201);

    reg.broadcast(5, &msg(1, 9, 5, "first", 10));
    reg.broadcast(5, &msg(2, 9, 5, "second", 11));

    for conn in [101, 102] {
        let a = reg.pop_next(5, conn).expect("first payload");
        assert_eq!(a.content, "first");
        let b = reg.pop_next(5, conn).expect("second payload");
        assert_eq!(b.content, "second");
        assert!(reg.pop_next(5, conn).is_none());
    }

    // A connection registered under a different identity observes nothing.
    assert!(reg.pop_next(6, 201).is_none());
}

#[test]
fn closed_connection_dropped_on_next_broadcast_sibling_kept() {
    let mut reg = Registry::new();
    reg.register(5, 101);
    reg.register(5, 102);

    reg.close(5, 101);
    assert_eq!(reg.conn_count(5), 2);

    // The next fan-out pass is the cleanup pass: the closed channel is
    // dropped without receiving, the sibling receives.
    reg.broadcast(5, &msg(1, 9, 5, "after close", 10));
    assert_eq!(reg.conn_count(5), 1);
    assert!(!reg.has_connection(5, 101));
    assert!(reg.has_connection(5, 102));
    let got = reg.pop_next(5, 102).expect("sibling still reachable");
    assert_eq!(got.content, "after close");
    assert!(reg.pop_next(5, 101).is_none());
}

#[test]
fn unregister_is_idempotent() {
    let mut reg = Registry::new();
    reg.register(5, 101);
    reg.unregister(5, 101);
    assert_eq!(reg.conn_count(5), 0);
    // Removing again, or removing from an unknown identity, is a no-op.
    reg.unregister(5, 101);
    reg.unregister(99, 101);
    assert_eq!(reg.conn_count(5), 0);
    assert_eq!(reg.conn_count(99), 0);
}

#[test]
fn teardown_detaches_own_channel_only() {
    let mut reg = Registry::new();
    reg.register(5, 101);
    reg.register(5, 102);
    reg.broadcast(5, &msg(1, 9, 5, "queued", 10));

    teardown(&mut reg, 5, 101);
    assert!(!reg.has_connection(5, 101));
    assert!(reg.has_connection(5, 102));
    // The sibling's queue is intact through the teardown.
    let got = reg.pop_next(5, 102).expect("sibling queue intact");
    assert_eq!(got.content, "queued");
}

#[test]
fn entry_persists_after_all_connections_leave() {
    let mut reg = Registry::new();
    assert!(!reg.is_registered(5));
    reg.register(5, 101);
    teardown(&mut reg, 5, 101);
    assert_eq!(reg.conn_count(5), 0);
    assert!(reg.is_registered(5));
}
