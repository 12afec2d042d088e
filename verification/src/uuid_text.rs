//! UUIDs as they are written in a path segment.

use vstd::prelude::*;

verus! {

/// The 128-bit value of the UUID that a text spells, in the `uuid` crate's
/// reading of it; `None` for a text that spells none.
pub uninterp spec fn uuid_value(text: Seq<char>) -> Option<u128>;

/// `uuid::Uuid::parse_str`, then `Uuid::as_u128` on what it accepted: the
/// value of the UUID that `text` spells, as the crate reads it, and `None`
/// where the crate reports an error. The result depends on the text alone.
#[verifier::external_body]
pub(crate) fn parse_uuid(text: &str) -> (parsed: Option<u128>)
    ensures
        parsed == uuid_value(text@),
{
    match uuid::Uuid::parse_str(text) {
        Ok(id) => Some(id.as_u128()),
        Err(_) => None,
    }
}

} // verus!
