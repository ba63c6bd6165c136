use chatcore::errors::ApiError;
use chatcore::messages::{
    create_message, delete_message, list_messages, update_message, CreateMessageRequest,
    DeleteMessageRequest, ListMessagesRequest, MessageStore, UpdateMessageRequest,
};

const USER_A: u128 = 1;
const USER_B: u128 = 2;
const USER_C: u128 = 3;
const UUID_B: &str = "00000000-0000-0000-0000-000000000002";
const UUID_C: &str = "00000000-0000-0000-0000-000000000003";
const UUID_MSG_1: &str = "00000000-0000-0000-0000-000000000001";

fn create_req(recipient: &str, content: &str) -> CreateMessageRequest {
    CreateMessageRequest {
        token: String::new(),
        recipient_id: recipient.to_string(),
        content: content.to_string(),
    }
}

#[test]
fn create_assigns_ids_and_fields() {
    let mut store = MessageStore::new();
    let m1 = create_message(&mut store, USER_A, &create_req(UUID_B, "one"), 10).unwrap();
    let m2 = create_message(&mut store, USER_A, &create_req(UUID_B, "two"), 11).unwrap();
    assert_eq!(m1.id, 1);
    assert_eq!(m2.id, 2);
    assert_eq!(m1.sender_id, USER_A);
    assert_eq!(m1.recipient_id, USER_B);
    assert_eq!(m1.content, "one");
    assert_eq!(m1.created_at, 10);
}

#[test]
fn create_rejects_empty_content_and_bad_recipient() {
    let mut store = MessageStore::new();
    assert_eq!(
        create_message(&mut store, USER_A, &create_req(UUID_B, ""), 10),
        Err(ApiError::EmptyContent)
    );
    assert_eq!(
        create_message(&mut store, USER_A, &create_req("zzz", "hello"), 10),
        Err(ApiError::InvalidRecipientId)
    );
}

#[test]
fn list_is_conversation_only_in_creation_order() {
    let mut store = MessageStore::new();
    create_message(&mut store, USER_A, &create_req(UUID_B, "a->b early"), 10).unwrap();
    create_message(&mut store, USER_A, &create_req(UUID_C, "a->c"), 11).unwrap();
    create_message(&mut store, USER_B, &create_req("00000000-0000-0000-0000-000000000001", "b->a"), 12)
        .unwrap();
    // A message stamped earlier than the ones already stored is listed first.
    create_message(&mut store, USER_A, &create_req(UUID_B, "a->b earliest"), 5).unwrap();

    let listed = list_messages(
        &store,
        USER_A,
        &ListMessagesRequest { token: String::new(), other_user_id: UUID_B.to_string() },
    )
    .unwrap();
    let contents: Vec<&str> = listed.iter().map(|m| m.content.as_str()).collect();
    assert_eq!(contents, vec!["a->b earliest", "a->b early", "b->a"]);
    assert!(listed.windows(2).all(|w| w[0].created_at <= w[1].created_at));

    let bad = list_messages(
        &store,
        USER_A,
        &ListMessagesRequest { token: String::new(), other_user_id: "nope".to_string() },
    );
    assert_eq!(bad, Err(ApiError::InvalidOtherUserId));
}

#[test]
fn update_by_non_owner_fails_and_changes_nothing() {
    let mut store = MessageStore::new();
    let m = create_message(&mut store, USER_A, &create_req(UUID_B, "original"), 10).unwrap();
    assert_eq!(m.id, 1);

    // B does not own A's message: collapsed category, content unchanged.
    let attempt = update_message(
        &mut store,
        USER_B,
        &UpdateMessageRequest {
            token: String::new(),
            message_id: UUID_MSG_1.to_string(),
            content: "tampered".to_string(),
        },
    );
    assert_eq!(attempt, Err(ApiError::NotFoundOrForbidden));

    let listed = list_messages(
        &store,
        USER_A,
        &ListMessagesRequest { token: String::new(), other_user_id: UUID_B.to_string() },
    )
    .unwrap();
    assert_eq!(listed.len(), 1);
    assert_eq!(listed[0].content, "original");
}

#[test]
fn update_by_owner_replaces_content_only() {
    let mut store = MessageStore::new();
    create_message(&mut store, USER_A, &create_req(UUID_B, "original"), 10).unwrap();
    let updated = update_message(
        &mut store,
        USER_A,
        &UpdateMessageRequest {
            token: String::new(),
            message_id: UUID_MSG_1.to_string(),
            content: "edited".to_string(),
        },
    )
    .unwrap();
    assert_eq!(updated.id, 1);
    assert_eq!(updated.sender_id, USER_A);
    assert_eq!(updated.recipient_id, USER_B);
    assert_eq!(updated.content, "edited");
    assert_eq!(updated.created_at, 10);
}

#[test]
fn update_rejects_empty_content_and_bad_id() {
    let mut store = MessageStore::new();
    create_message(&mut store, USER_A, &create_req(UUID_B, "original"), 10).unwrap();
    assert_eq!(
        update_message(
            &mut store,
            USER_A,
            &UpdateMessageRequest {
                token: String::new(),
                message_id: UUID_MSG_1.to_string(),
                content: String::new(),
            },
        ),
        Err(ApiError::EmptyContent)
    );
    assert_eq!(
        update_message(
            &mut store,
            USER_A,
            &UpdateMessageRequest {
                token: String::new(),
                message_id: "not-a-uuid".to_string(),
                content: "x".to_string(),
            },
        ),
        Err(ApiError::InvalidMessageId)
    );
}

#[test]
fn delete_twice_or_not_owned_reports_failure_not_success() {
    let mut store = MessageStore::new();
    create_message(&mut store, USER_A, &create_req(UUID_B, "to be deleted"), 10).unwrap();

    // Not the owner: same collapsed category as "does not exist".
    let not_owner = delete_message(
        &mut store,
        USER_B,
        &DeleteMessageRequest { token: String::new(), message_id: UUID_MSG_1.to_string() },
    );
    assert_eq!(not_owner, Err(ApiError::NotFoundOrForbidden));

    let first = delete_message(
        &mut store,
        USER_A,
        &DeleteMessageRequest { token: String::new(), message_id: UUID_MSG_1.to_string() },
    );
    assert_eq!(first, Ok(true));

    // Already deleted: failure again, never a second success.
    let second = delete_message(
        &mut store,
        USER_A,
        &DeleteMessageRequest { token: String::new(), message_id: UUID_MSG_1.to_string() },
    );
    assert_eq!(second, Err(ApiError::NotFoundOrForbidden));
}
