//! Identifiers: random 128-bit ids and their textual form.
use vstd::prelude::*;

verus! {

/// The lowercase hexadecimal character of a value below 16.
pub open spec fn hex_char(v: int) -> char {
    if v < 10 {
        (v + 48) as char
    } else {
        (v + 87) as char
    }
}

/// The `i`-th hexadecimal digit of an id, the most significant first.
pub open spec fn id_nibble(id: u128, i: int) -> int {
    ((id >> ((124 - 4 * i) as u128)) & 0xfu128) as int
}

/// How many hyphens come before position `k` of the hyphenated form.
pub open spec fn hyphens_before(k: int) -> int {
    if k < 9 {
        0
    } else if k < 14 {
        1
    } else if k < 19 {
        2
    } else if k < 24 {
        3
    } else {
        4
    }
}

/// The hyphenated lowercase form of an id (8-4-4-4-12 hexadecimal digits).
pub open spec fn id_text(id: u128) -> Seq<char> {
    Seq::new(
        36,
        |k: int|
            if k == 8 || k == 13 || k == 18 || k == 23 {
                '-'
            } else {
                hex_char(id_nibble(id, k - hyphens_before(k)))
            },
    )
}

/// `uuid::Uuid::new_v4`, taken as its 128-bit value: a random id whose
/// version digit is 4 and whose two variant bits are `10`; the other 122 bits
/// are random, and nothing more is promised of them.
#[verifier::external_body]
pub(crate) fn new_id() -> (id: u128)
    ensures
        id_nibble(id, 12) == 4,
        (id >> 62u128) & 3u128 == 2,
{
    uuid::Uuid::new_v4().as_u128()
}

/// `Display` of `uuid::Uuid` (through `from_u128`): the hyphenated lowercase
/// hexadecimal form of the id.
#[verifier::external_body]
pub(crate) fn id_string(id: u128) -> (s: String)
    ensures
        s@ == id_text(id),
{
    uuid::Uuid::from_u128(id).to_string()
}

} // verus!
