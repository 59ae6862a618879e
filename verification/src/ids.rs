//! UUIDs, held as their 128 bits (big-endian, as `uuid::Uuid::as_u128` gives them).

use vstd::prelude::*;
use vstd::arithmetic::power::pow;

verus! {

/// What `uuid::Uuid::parse_str` gives for a text: the 128 bits of the UUID it
/// reads, or `None` when it rejects the text.
pub uninterp spec fn uuid_parse(text: Seq<char>) -> Option<u128>;

/// Lowercase hexadecimal digit of `n` (0 to 15).
pub open spec fn hex_digit(n: int) -> char {
    if n < 10 {
        (('0' as int) + n) as char
    } else {
        (('a' as int) + n - 10) as char
    }
}

/// Which hex digit of the 32 stands at position `p` of the 36-character form.
pub open spec fn digit_position(p: int) -> int {
    if p < 8 {
        p
    } else if p < 13 {
        p - 1
    } else if p < 18 {
        p - 2
    } else if p < 23 {
        p - 3
    } else {
        p - 4
    }
}

/// The `k`-th hex digit of `v`, most significant first.
pub open spec fn nibble(v: u128, k: int) -> int {
    (v as int / pow(16, (31 - k) as nat)) % 16
}

/// The hyphenated lowercase form `xxxxxxxx-xxxx-xxxx-xxxx-xxxxxxxxxxxx`.
pub open spec fn uuid_text(v: u128) -> Seq<char> {
    Seq::new(
        36,
        |p: int|
            if p == 8 || p == 13 || p == 18 || p == 23 {
                '-'
            } else {
                hex_digit(nibble(v, digit_position(p)))
            },
    )
}

/// Calls `uuid::Uuid::new_v4()`: a random UUID. Its value rests on chance, so
/// nothing is stated of it.
#[verifier::external_body]
pub fn new_uuid() -> u128 {
    uuid::Uuid::new_v4().as_u128()
}

/// Calls `uuid::Uuid::from_u128(v).to_string()`, the `Display` form of a UUID:
/// the 32 lowercase hex digits of `v` in groups of 8-4-4-4-12. `parse_str`
/// reads that form back to the same UUID.
#[verifier::external_body]
pub fn uuid_to_string(v: u128) -> (r: String)
    ensures
        r@ == uuid_text(v),
        uuid_parse(r@) == Some(v),
{
    uuid::Uuid::from_u128(v).to_string()
}

/// Calls `uuid::Uuid::parse_str(text)`, keeping the UUID's 128 bits on success.
/// Which texts it accepts (simple, hyphenated, braced and URN forms) is left to
/// the name `uuid_parse`.
#[verifier::external_body]
pub fn parse_uuid(text: &str) -> (r: Option<u128>)
    ensures
        r == uuid_parse(text@),
{
    match uuid::Uuid::parse_str(text) {
        Ok(u) => Some(u.as_u128()),
        Err(_) => None,
    }
}

} // verus!
