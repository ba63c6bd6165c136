//! Error taxonomy for the request paths.
//!
//! `NotFoundOrForbidden` deliberately collapses "entity does not exist" and
//! "caller is not the owner" into one category, so that a failed mutation
//! leaks no information about whether the entity exists.

use vstd::prelude::*;

verus! {

/// A typed, human-readable failure surfaced to the caller of a request path.
#[derive(Clone, Copy, Debug, PartialEq, Eq, Structural)]
pub enum ApiError {
    /// The bearer credential is missing, invalid or expired.
    Unauthorized,
    /// The credential's identity claim cannot be parsed as a user id.
    MalformedIdentity,
    /// The recipient identifier in a creation request does not parse.
    InvalidRecipientId,
    /// The message identifier in a mutation request does not parse.
    InvalidMessageId,
    /// The other-user identifier in a listing request does not parse.
    InvalidOtherUserId,
    /// Message content must not be empty.
    EmptyContent,
    /// A required request field is empty.
    MissingFields,
    /// The email or the password is missing from a login request.
    MissingCredentials,
    /// A password must be at least 8 characters long.
    PasswordTooShort,
    /// A user with the same email or username already exists.
    AlreadyExists,
    /// The email is unknown or the password does not match.
    InvalidCredentials,
    /// The credential hashing service failed.
    HashFailure,
    /// The mutated entity does not exist, or the caller does not own it.
    NotFoundOrForbidden,
}

impl ApiError {
    /// The descriptive message shown to the caller.
    pub fn message(&self) -> (r: &'static str)
        ensures
            *self is Unauthorized ==> r@ == "Unauthorized"@,
            *self is MalformedIdentity ==> r@ == "Invalid user ID in token"@,
            *self is InvalidRecipientId ==> r@ == "Invalid recipient_id"@,
            *self is InvalidMessageId ==> r@ == "Invalid message_id"@,
            *self is InvalidOtherUserId ==> r@ == "Invalid other_user_id"@,
            *self is EmptyContent ==> r@ == "Message content cannot be empty"@,
            *self is MissingFields ==> r@ == "All fields are required"@,
            *self is MissingCredentials ==> r@ == "Email and password are required"@,
            *self is PasswordTooShort ==> r@ == "Password must be at least 8 characters"@,
            *self is AlreadyExists ==> r@ == "A user with that email or username already exists"@,
            *self is InvalidCredentials ==> r@ == "Invalid email or password"@,
            *self is HashFailure ==> r@ == "Password hashing failed"@,
            *self is NotFoundOrForbidden ==> r@ == "Message not found or you are not the sender"@,
    {
        match self {
            ApiError::Unauthorized => "Unauthorized",
            ApiError::MalformedIdentity => "Invalid user ID in token",
            ApiError::InvalidRecipientId => "Invalid recipient_id",
            ApiError::InvalidMessageId => "Invalid message_id",
            ApiError::InvalidOtherUserId => "Invalid other_user_id",
            ApiError::EmptyContent => "Message content cannot be empty",
            ApiError::MissingFields => "All fields are required",
            ApiError::MissingCredentials => "Email and password are required",
            ApiError::PasswordTooShort => "Password must be at least 8 characters",
            ApiError::AlreadyExists => "A user with that email or username already exists",
            ApiError::InvalidCredentials => "Invalid email or password",
            ApiError::HashFailure => "Password hashing failed",
            ApiError::NotFoundOrForbidden => "Message not found or you are not the sender",
        }
    }
}

} // verus!
