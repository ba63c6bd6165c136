use chatcore::errors::ApiError;
use chatcore::users::{login, register, register_with_hash, LoginRequest, RegisterRequest, UserStore};

fn reg_req(email: &str, username: &str, password: &str) -> RegisterRequest {
    RegisterRequest {
        email: email.to_string(),
        username: username.to_string(),
        password: password.to_string(),
    }
}

fn login_req(email: &str, password: &str) -> LoginRequest {
    LoginRequest { email: email.to_string(), password: password.to_string() }
}

#[test]
fn register_then_login_round_trip() {
    let mut store = UserStore::new();
    let id = register(&mut store, &reg_req("a@example.com", "alice", "correct horse"))
        .expect("registered");
    assert_eq!(id, 1);

    // The stored bcrypt hash verifies against the registered password.
    let back = login(&store, &login_req("a@example.com", "correct horse")).expect("logged in");
    assert_eq!(back, id);

    // A wrong password is rejected with the indistinct credential failure.
    assert_eq!(
        login(&store, &login_req("a@example.com", "wrong password")),
        Err(ApiError::InvalidCredentials)
    );
    // So is an unknown email.
    assert_eq!(
        login(&store, &login_req("b@example.com", "correct horse")),
        Err(ApiError::InvalidCredentials)
    );
}

#[test]
fn register_validates_input() {
    let mut store = UserStore::new();
    assert_eq!(
        register(&mut store, &reg_req("", "alice", "correct horse")),
        Err(ApiError::MissingFields)
    );
    assert_eq!(
        register(&mut store, &reg_req("a@example.com", "", "correct horse")),
        Err(ApiError::MissingFields)
    );
    assert_eq!(
        register(&mut store, &reg_req("a@example.com", "alice", "")),
        Err(ApiError::MissingFields)
    );
    assert_eq!(
        register(&mut store, &reg_req("a@example.com", "alice", "short")),
        Err(ApiError::PasswordTooShort)
    );
}

#[test]
fn register_rejects_taken_email_or_username() {
    let mut store = UserStore::new();
    register(&mut store, &reg_req("a@example.com", "alice", "correct horse")).expect("registered");
    assert_eq!(
        register(&mut store, &reg_req("a@example.com", "alice2", "battery staple")),
        Err(ApiError::AlreadyExists)
    );
    assert_eq!(
        register(&mut store, &reg_req("a2@example.com", "alice", "battery staple")),
        Err(ApiError::AlreadyExists)
    );
    // A fresh email and username still goes through.
    let id = register(&mut store, &reg_req("b@example.com", "bob", "battery staple"))
        .expect("registered");
    assert_eq!(id, 2);
}

#[test]
fn login_requires_both_fields() {
    let store = UserStore::new();
    assert_eq!(login(&store, &login_req("", "pw")), Err(ApiError::MissingCredentials));
    assert_eq!(login(&store, &login_req("a@example.com", "")), Err(ApiError::MissingCredentials));
    assert_eq!(ApiError::MissingCredentials.message(), "Email and password are required");
}

#[test]
fn insertion_step_decides_on_the_store_alone() {
    let mut store = UserStore::new();
    let first = register_with_hash(
        &mut store,
        &reg_req("a@example.com", "alice", "correct horse"),
        "stored-hash-one".to_string(),
    );
    assert_eq!(first, Ok(1));
    // With a hash in hand, only a taken email or username can refuse.
    let second = register_with_hash(
        &mut store,
        &reg_req("a@example.com", "alice2", "battery staple"),
        "stored-hash-two".to_string(),
    );
    assert_eq!(second, Err(ApiError::AlreadyExists));
}
