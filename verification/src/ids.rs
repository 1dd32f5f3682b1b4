//! Snippet, profile and bundle identifiers.
//!
//! An identifier is a UUID held as the `u128` that `uuid::Uuid::as_u128`
//! gives (big-endian), so identifiers compare in the order of `Uuid`.

use vstd::prelude::*;
use vstd::arithmetic::power2::pow2;

verus! {

/// The lowercase hexadecimal digit of a nibble `0 <= n < 16`.
pub open spec fn hex_digit(n: int) -> char {
    if n < 10 {
        (48 + n) as char
    } else {
        (87 + n) as char
    }
}

/// Nibble `d` (0 = most significant) of the 32 hex digits of `v`.
pub open spec fn nibble(v: u128, d: int) -> int {
    (v as int / pow2((4 * (31 - d)) as nat) as int) % 16
}

/// Position among the 32 hex digits of character `i` of the hyphenated form.
pub open spec fn digit_index(i: int) -> int {
    if i < 8 {
        i
    } else if i < 13 {
        i - 1
    } else if i < 18 {
        i - 2
    } else if i < 23 {
        i - 3
    } else {
        i - 4
    }
}

/// The hyphenated lowercase text of a UUID, `xxxxxxxx-xxxx-xxxx-xxxx-xxxxxxxxxxxx`.
pub open spec fn uuid_text(v: u128) -> Seq<char> {
    Seq::new(
        36,
        |i: int|
            if i == 8 || i == 13 || i == 18 || i == 23 {
                '-'
            } else {
                hex_digit(nibble(v, digit_index(i)))
            },
    )
}

/// What `uuid::Uuid::parse_str` yields for a text (as a `u128`), `None` on error.
pub uninterp spec fn uuid_parsed(text: Seq<char>) -> Option<u128>;

/// Calls `Uuid::new_v4`: a random identifier whose version nibble is 4 and
/// whose variant bits are those of RFC 4122 (`10`).
#[verifier::external_body]
pub(crate) fn random_id() -> (id: u128)
    ensures
        (id >> 76u128) & 0xfu128 == 4,
        (id >> 62u128) & 0x3u128 == 2,
{
    uuid::Uuid::new_v4().as_u128()
}

/// Calls `Uuid::to_string` (its `Display`), which writes the hyphenated
/// lowercase hex form of the big-endian bytes.
#[verifier::external_body]
pub(crate) fn format_id(id: u128) -> (r: String)
    ensures
        r@ == uuid_text(id),
{
    uuid::Uuid::from_u128(id).to_string()
}

/// Calls `Uuid::parse_str`. The result is named; beside it the contract
/// states that the hyphenated form written by `format_id` parses back to
/// the same identifier. The other accepted forms (simple, braced, URN,
/// uppercase digits) are left to the name.
#[verifier::external_body]
pub(crate) fn parse_id(text: &str) -> (r: Option<u128>)
    ensures
        r == uuid_parsed(text@),
        forall|v: u128| #[trigger] uuid_text(v) == text@ ==> r == Some(v),
{
    uuid::Uuid::parse_str(text).ok().map(|u| u.as_u128())
}

/// Reads a stored identifier, falling back to a fresh random one when the
/// text does not parse (as the store does for damaged rows).
pub(crate) fn id_from_text_or_random(text: &str) -> (r: u128)
    ensures
        uuid_parsed(text@) matches Some(v) ==> r == v,
        uuid_parsed(text@) is None ==> (r >> 76u128) & 0xfu128 == 4 && (r >> 62u128) & 0x3u128 == 2,
        forall|v: u128| #[trigger] uuid_text(v) == text@ ==> r == v,
{
    match parse_id(text) {
        Some(v) => v,
        None => random_id(),
    }
}

} // verus!
