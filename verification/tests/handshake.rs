use chatcore::auth::{access_claims, refresh_claims, Claims, TokenPair};
use chatcore::echo;
use chatcore::errors::ApiError;
use chatcore::gate::{handshake_decision, resolve_identity, GateDecision, WsParams};
use chatcore::messages::MessageResponse;
use chatcore::session::{egress_step, egress_write_result, ingress_step, EgressStep, Flow, InboundFrame};

fn claims_with_sub(sub: &str) -> Claims {
    Claims { sub: sub.to_string(), email: "a@example.com".to_string(), exp: 1000, iat: 100 }
}

#[test]
fn gate_accepts_valid_identity_claim() {
    let c = claims_with_sub("00000000-0000-0000-0000-0000000000ab");
    assert_eq!(handshake_decision(&Some(c)), GateDecision::Accept(0xab));
}

#[test]
fn gate_rejects_before_upgrade() {
    // Failed credential check: authentication failure.
    let unauthorized = handshake_decision(&None);
    assert_eq!(unauthorized, GateDecision::Unauthorized);
    assert_eq!(unauthorized.rejection_status(), Some(401));

    // Valid credential, unparseable identity claim: the distinct failure.
    let malformed = handshake_decision(&Some(claims_with_sub("not-a-user-id")));
    assert_eq!(malformed, GateDecision::MalformedIdentity);
    assert_eq!(malformed.rejection_status(), Some(400));

    let accepted = handshake_decision(&Some(claims_with_sub(
        "00000000-0000-0000-0000-000000000001",
    )));
    assert_eq!(accepted.rejection_status(), None);
}

#[test]
fn resolve_identity_round_trips_issued_claims() {
    // The claims an issued credential carries resolve back to the identity
    // they were issued for.
    let c = access_claims(0xdeadbeef, "a@example.com".to_string(), 100);
    assert_eq!(resolve_identity(&c), Ok(0xdeadbeef));
    assert_eq!(c.sub, "00000000-0000-0000-0000-0000deadbeef");
    assert_eq!(c.iat, 100);
    assert_eq!(c.exp, 100 + 900);

    let r = refresh_claims(5, "a@example.com".to_string(), 100);
    assert_eq!(r.exp, 100 + 604800);
    assert_eq!(resolve_identity(&r), Ok(5));

    assert_eq!(
        resolve_identity(&claims_with_sub("garbage")),
        Err(ApiError::MalformedIdentity)
    );
}

#[test]
fn ingress_stops_only_on_close_frame() {
    assert_eq!(ingress_step(&InboundFrame::Close), Flow::Stop);
    assert_eq!(ingress_step(&InboundFrame::Text), Flow::Proceed);
    assert_eq!(ingress_step(&InboundFrame::Binary), Flow::Proceed);
    assert_eq!(ingress_step(&InboundFrame::Ping), Flow::Proceed);
    assert_eq!(ingress_step(&InboundFrame::Pong), Flow::Proceed);
}

#[test]
fn egress_writes_in_order_and_stops_on_failure() {
    let m = MessageResponse {
        id: 1,
        sender_id: 1,
        recipient_id: 2,
        content: "payload".to_string(),
        created_at: 10,
    };
    match egress_step(Some(m)) {
        EgressStep::Write(w) => assert_eq!(w.content, "payload"),
        EgressStep::Stop => panic!("a queued payload must be written"),
    }
    assert_eq!(egress_step(None), EgressStep::Stop);
    assert_eq!(egress_write_result(true), Flow::Proceed);
    assert_eq!(egress_write_result(false), Flow::Stop);
}

#[test]
fn error_messages_are_descriptive() {
    assert_eq!(
        ApiError::NotFoundOrForbidden.message(),
        "Message not found or you are not the sender"
    );
    assert_eq!(ApiError::EmptyContent.message(), "Message content cannot be empty");
    assert_eq!(ApiError::MalformedIdentity.message(), "Invalid user ID in token");
    assert_eq!(ApiError::Unauthorized.message(), "Unauthorized");
    assert_eq!(ApiError::InvalidCredentials.message(), "Invalid email or password");
    assert_eq!(
        ApiError::AlreadyExists.message(),
        "A user with that email or username already exists"
    );
    assert_eq!(ApiError::PasswordTooShort.message(), "Password must be at least 8 characters");
    assert_eq!(ApiError::MissingFields.message(), "All fields are required");
    assert_eq!(ApiError::InvalidRecipientId.message(), "Invalid recipient_id");
    assert_eq!(ApiError::InvalidMessageId.message(), "Invalid message_id");
    assert_eq!(ApiError::InvalidOtherUserId.message(), "Invalid other_user_id");
    assert_eq!(ApiError::HashFailure.message(), "Password hashing failed");
}

#[test]
fn echo_returns_input() {
    assert_eq!(echo("ping".to_string()), "ping");
}

#[test]
fn ws_params_and_token_pair_carry_their_fields() {
    let p = WsParams { token: "tok".to_string() };
    assert_eq!(p.token, "tok");
    let t = TokenPair { access_token: "a".to_string(), refresh_token: "r".to_string() };
    assert_eq!(t.access_token, "a");
    assert_eq!(t.refresh_token, "r");
}
