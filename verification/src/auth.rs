//! Claims carried by a bearer credential.
//!
//! Issuing and checking the credential itself (signature, expiry) is the job
//! of an external authentication collaborator; this module fixes what the
//! claims of a freshly issued credential contain.

use vstd::prelude::*;
use crate::ids::uuid_text;

verus! {

/// Lifetime of a short-lived access credential, in seconds (15 minutes).
pub const ACCESS_TOKEN_TTL_SECS: usize = 900;

/// Lifetime of a long-lived refresh credential, in seconds (7 days).
pub const REFRESH_TOKEN_TTL_SECS: usize = 604800;

/// Claims payload of a bearer credential.
#[derive(Debug, Clone, PartialEq)]
pub struct Claims {
    /// The holder's identity, in canonical text form.
    pub sub: String,
    pub email: String,
    /// Expiry timestamp, seconds since the epoch.
    pub exp: usize,
    /// Issued-at timestamp, seconds since the epoch.
    pub iat: usize,
}

/// The pair of credentials returned on login and registration.
#[derive(Debug, Clone, PartialEq)]
pub struct TokenPair {
    pub access_token: String,
    pub refresh_token: String,
}

/// The claims of a fresh access credential for `user_id`, issued at `now`.
pub fn access_claims(user_id: u128, email: String, now: usize) -> (c: Claims)
    requires
        now + ACCESS_TOKEN_TTL_SECS <= usize::MAX,
    ensures
        c.sub@ == uuid_text(user_id),
        c.email@ == email@,
        c.iat == now,
        c.exp == now + ACCESS_TOKEN_TTL_SECS,
{
    Claims {
        sub: crate::ids::user_id_text(user_id),
        email,
        exp: now + ACCESS_TOKEN_TTL_SECS,
        iat: now,
    }
}

/// The claims of a fresh refresh credential for `user_id`, issued at `now`.
pub fn refresh_claims(user_id: u128, email: String, now: usize) -> (c: Claims)
    requires
        now + REFRESH_TOKEN_TTL_SECS <= usize::MAX,
    ensures
        c.sub@ == uuid_text(user_id),
        c.email@ == email@,
        c.iat == now,
        c.exp == now + REFRESH_TOKEN_TTL_SECS,
{
    Claims {
        sub: crate::ids::user_id_text(user_id),
        email,
        exp: now + REFRESH_TOKEN_TTL_SECS,
        iat: now,
    }
}

} // verus!
