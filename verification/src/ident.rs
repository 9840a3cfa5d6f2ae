//! Entry identifier generation.

use vstd::prelude::*;

verus! {

/// Whether a character is a lowercase hexadecimal digit.
pub open spec fn is_hex_lower(c: char) -> bool {
    ('0' <= c && c <= '9') || ('a' <= c && c <= 'f')
}

/// Whether text has the shape of a generated entry identifier: 32 lowercase
/// hexadecimal characters with no separator punctuation.
pub open spec fn is_id_text(s: Seq<char>) -> bool {
    s.len() == 32 && forall|i: int| 0 <= i < s.len() ==> is_hex_lower(#[trigger] s[i])
}

/// Generates a fresh opaque entry identifier.
///
/// Relies on `uuid::Uuid::new_v4` and `Uuid::simple`: the simple form of a
/// version-4 UUID displays as exactly 32 lowercase hexadecimal digits with no
/// separators. The value is random, so nothing relates two calls.
#[verifier::external_body]
pub fn generate_id() -> (r: String)
    ensures
        is_id_text(r@),
{
    uuid::Uuid::new_v4().simple().to_string()
}

} // verus!
