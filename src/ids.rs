//! Item identifiers: 128-bit ULIDs, which sort by the millisecond they were
//! made in.
use vstd::prelude::*;

verus! {

/// A character of the Crockford base32 alphabet (no I, L, O or U).
pub open spec fn is_crockford_digit(c: char) -> bool {
    ('0' <= c && c <= '9') || ('A' <= c && c <= 'Z' && c != 'I' && c != 'L' && c != 'O' && c != 'U')
}

/// Relies on `ulid::Ulid::new` and ulid's `Display`: a fresh identifier from
/// the clock and a random source, written as 26 Crockford base32 characters.
/// Nothing is promised of its value.
#[verifier::external_body]
pub(crate) fn new_item_id() -> (r: String)
    ensures
        r@.len() == 26,
        forall|i: int| 0 <= i < r@.len() ==> is_crockford_digit(#[trigger] r@[i]),
{
    ulid::Ulid::new().to_string()
}

} // verus!
