//! Identifiers of anchors and chunks: random version 4 UUIDs, held as
//! 128-bit numbers.

use vstd::arithmetic::power::pow;
use vstd::prelude::*;

verus! {

/// A UUID as a number, its first byte the most significant.
pub type Id = u128;

/// Whether the version and variant fields are those of a random UUID.
pub open spec fn is_random_id(id: u128) -> bool {
    &&& (id as int / pow(16, 19)) % 16 == 4
    &&& (id as int / pow(4, 31)) % 4 == 2
}

/// The `k`-th of the 32 hexadecimal digits of an identifier.
pub open spec fn nibble(id: u128, k: int) -> int {
    (id as int / pow(16, (31 - k) as nat)) % 16
}

/// The character for a hexadecimal digit, in lower case.
pub open spec fn hex_digit(d: int) -> char {
    if d < 10 {
        (48 + d) as char
    } else {
        (87 + d) as char
    }
}

/// An identifier in its usual form: 32 hexadecimal digits in groups of 8, 4,
/// 4, 4 and 12, with hyphens between the groups.
pub open spec fn id_text(id: u128) -> Seq<char> {
    Seq::new(
        36,
        |i: int|
            if i == 8 || i == 13 || i == 18 || i == 23 {
                '-'
            } else if i < 8 {
                hex_digit(nibble(id, i))
            } else if i < 13 {
                hex_digit(nibble(id, i - 1))
            } else if i < 18 {
                hex_digit(nibble(id, i - 2))
            } else if i < 23 {
                hex_digit(nibble(id, i - 3))
            } else {
                hex_digit(nibble(id, i - 4))
            },
    )
}

/// `uuid::Uuid::new_v4`: an identifier that is random but for its version and
/// variant fields. That no two calls give the same one is likely, not
/// certain, and nothing here relies on it.
#[verifier::external_body]
pub(crate) fn new_id() -> (id: Id)
    ensures
        is_random_id(id),
{
    uuid::Uuid::new_v4().as_u128()
}

/// `uuid::Uuid::to_string`: the identifier in its usual form.
#[verifier::external_body]
pub(crate) fn id_string(id: Id) -> (s: String)
    ensures
        s@ == id_text(id),
{
    uuid::Uuid::from_u128(id).to_string()
}

} // verus!
