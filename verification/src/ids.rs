//! User and message identities.
//!
//! An identity is an opaque, stable 128-bit value. On the wire it travels in
//! its canonical textual form; the conversions in both directions are done by
//! the `uuid` crate and are pure functions of their input, named here by the
//! two uninterpreted spec functions.

use vstd::prelude::*;

verus! {

/// The 128-bit value denoted by a textual UUID, or `None` when the text is
/// not a valid textual UUID.
pub uninterp spec fn parsed_uuid(s: Seq<char>) -> Option<u128>;

/// The canonical hyphenated text of a 128-bit identity.
pub uninterp spec fn uuid_text(u: u128) -> Seq<char>;

/// Relies on `uuid::Uuid::parse_str`: whether a string is a valid textual
/// UUID, and which 128-bit value it denotes, depend on the characters alone.
#[verifier::external_body]
pub(crate) fn parse_user_id(s: &str) -> (r: Option<u128>)
    ensures
        r == parsed_uuid(s@),
{
    match uuid::Uuid::parse_str(s) {
        Ok(u) => Some(u.as_u128()),
        Err(_) => None,
    }
}

/// Relies on `uuid::fmt::Hyphenated`: the hyphenated text of a UUID depends
/// on its 128-bit value alone; and on `uuid::Uuid::parse_str`, whose
/// accepted forms include the hyphenated one, so the text parses back to
/// the value it was made from.
#[verifier::external_body]
pub(crate) fn user_id_text(u: u128) -> (r: String)
    ensures
        r@ == uuid_text(u),
        parsed_uuid(r@) == Some(u),
{
    uuid::Uuid::from_u128(u).hyphenated().to_string()
}

} // verus!
