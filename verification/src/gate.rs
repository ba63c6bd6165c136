//! Handshake gate: the admission rule run before a transport is upgraded to
//! streaming mode.
//!
//! The external authentication collaborator checks the bearer credential's
//! signature and expiry; from that outcome alone the handshake decides
//! whether the upgrade proceeds and for which identity. A credential that
//! fails the check is rejected outright; one whose identity claim does not
//! parse as a user id is rejected with a distinct failure. No state is kept
//! between calls.

use vstd::prelude::*;
use crate::auth::Claims;
use crate::ids::parsed_uuid;

verus! {

/// Query parameters of an upgrade request: the bearer credential.
#[derive(Debug, Clone, PartialEq)]
pub struct WsParams {
    pub token: String,
}

/// The decision made for one upgrade request.
#[derive(Debug, Clone, Copy, PartialEq, Eq, Structural)]
pub enum GateDecision {
    /// Upgrade the transport and bind the connection to this identity.
    Accept(u128),
    /// The credential is missing, invalid or expired.
    Unauthorized,
    /// The credential is valid but its identity claim is not a user id.
    MalformedIdentity,
}

impl GateDecision {
    /// The HTTP-equivalent status of a rejection; `None` when accepted.
    pub fn rejection_status(&self) -> (r: Option<u16>)
        ensures
            *self is Accept ==> r is None,
            *self is Unauthorized ==> r == Some(401u16),
            *self is MalformedIdentity ==> r == Some(400u16),
    {
        match self {
            GateDecision::Accept(_) => None,
            GateDecision::Unauthorized => Some(401),
            GateDecision::MalformedIdentity => Some(400),
        }
    }
}

/// The identity named by a validated claims payload, or the malformed-identity
/// failure when its `sub` is not a user id.
pub fn resolve_identity(claims: &Claims) -> (r: Result<u128, crate::errors::ApiError>)
    ensures
        match r {
            Ok(u) => parsed_uuid(claims.sub@) == Some(u),
            Err(e) => parsed_uuid(claims.sub@) is None && e == crate::errors::ApiError::MalformedIdentity,
        },
{
    match crate::ids::parse_user_id(claims.sub.as_str()) {
        Some(u) => Ok(u),
        None => Err(crate::errors::ApiError::MalformedIdentity),
    }
}

/// Decide one upgrade request, given the outcome of the external credential
/// check: `None` when the credential was rejected, `Some` with the claims it
/// carried when it passed.
pub fn handshake_decision(validated: &Option<Claims>) -> (r: GateDecision)
    ensures
        match validated {
            None => r == GateDecision::Unauthorized,
            Some(c) => match parsed_uuid(c.sub@) {
                Some(u) => r == GateDecision::Accept(u),
                None => r == GateDecision::MalformedIdentity,
            },
        },
{
    match validated {
        None => GateDecision::Unauthorized,
        Some(claims) => match crate::ids::parse_user_id(claims.sub.as_str()) {
            Some(u) => GateDecision::Accept(u),
            None => GateDecision::MalformedIdentity,
        },
    }
}

} // verus!
