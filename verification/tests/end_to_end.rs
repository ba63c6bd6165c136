use chatcore::gateway::{create_and_deliver, deliver};
use chatcore::messages::{CreateMessageRequest, MessageResponse, MessageStore};
use chatcore::registry::Registry;

const USER_A: u128 = 1;
const USER_B: u128 = 2;
const UUID_A: &str = "00000000-0000-0000-0000-000000000001";
const UUID_B: &str = "00000000-0000-0000-0000-000000000002";

#[test]
fn created_message_pushed_to_recipient_only() {
    let mut store = MessageStore::new();
    let mut reg = Registry::new();
    reg.register(USER_A, 11);
    reg.register(USER_B, 22);

    let req = CreateMessageRequest {
        token: String::new(),
        recipient_id: UUID_B.to_string(),
        content: "hi".to_string(),
    };
    let resp = create_and_deliver(&mut store, &mut reg, USER_A, &req, 100).expect("created");
    assert_eq!(resp.sender_id, USER_A);
    assert_eq!(resp.recipient_id, USER_B);
    assert_eq!(resp.content, "hi");

    // B's connection receives exactly one push, carrying the stored record.
    let pushed = reg.pop_next(USER_B, 22).expect("one push for B");
    assert_eq!(pushed.sender_id, USER_A);
    assert_eq!(pushed.recipient_id, USER_B);
    assert_eq!(pushed.content, "hi");
    assert_eq!(pushed.id, resp.id);
    assert!(reg.pop_next(USER_B, 22).is_none());

    // A's connection receives zero pushes for this event.
    assert!(reg.pop_next(USER_A, 11).is_none());
}

#[test]
fn rejected_creation_delivers_nothing() {
    let mut store = MessageStore::new();
    let mut reg = Registry::new();
    reg.register(USER_B, 22);

    let empty = CreateMessageRequest {
        token: String::new(),
        recipient_id: UUID_B.to_string(),
        content: String::new(),
    };
    assert_eq!(
        create_and_deliver(&mut store, &mut reg, USER_A, &empty, 100),
        Err(chatcore::errors::ApiError::EmptyContent)
    );

    let bad_recipient = CreateMessageRequest {
        token: String::new(),
        recipient_id: "not-a-uuid".to_string(),
        content: "hi".to_string(),
    };
    assert_eq!(
        create_and_deliver(&mut store, &mut reg, USER_A, &bad_recipient, 100),
        Err(chatcore::errors::ApiError::InvalidRecipientId)
    );

    assert!(reg.pop_next(USER_B, 22).is_none());
}

#[test]
fn deliver_is_fire_and_forget() {
    let mut reg = Registry::new();
    // No connections registered anywhere: a silent no-op, never an error.
    let payload = MessageResponse {
        id: 1,
        sender_id: USER_A,
        recipient_id: USER_B,
        content: "dropped silently".to_string(),
        created_at: 5,
    };
    deliver(&mut reg, USER_B, &payload);
    assert_eq!(reg.conn_count(USER_B), 0);
}

#[test]
fn self_addressed_message_reaches_own_connection() {
    // The asymmetry is sender vs. recipient: when someone writes to
    // themselves, their connection is the recipient's and does get the push.
    let mut store = MessageStore::new();
    let mut reg = Registry::new();
    reg.register(USER_A, 11);
    let req = CreateMessageRequest {
        token: String::new(),
        recipient_id: UUID_A.to_string(),
        content: "note to self".to_string(),
    };
    create_and_deliver(&mut store, &mut reg, USER_A, &req, 100).expect("created");
    let got = reg.pop_next(USER_A, 11).expect("own push");
    assert_eq!(got.content, "note to self");
}
