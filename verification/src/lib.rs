//! Core of a small chat service: a per-user broadcast registry for live
//! connections, the session and handshake rules around it, and the message
//! and user stores whose workflows feed it.

use vstd::prelude::*;

pub mod auth;
pub mod errors;
pub mod gate;
pub mod gateway;
pub mod ids;
pub mod messages;
pub mod registry;
pub mod session;
pub mod users;

verus! {

/// Echo the input back to the caller unchanged.
pub fn echo(input: String) -> (r: String)
    ensures
        r@ == input@,
{
    input
}

} // verus!
