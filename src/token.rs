use vstd::prelude::*;

verus! {

pub open spec fn is_upper_or_digit(c: u8) -> bool {
    (65 <= c <= 90) || (48 <= c <= 57)
}

pub open spec fn is_lower_or_digit(c: u8) -> bool {
    (97 <= c <= 122) || (48 <= c <= 57)
}

/// An ESDT token identifier: a ticker of 3 to 10 upper-case letters or digits,
/// a dash, and 6 lower-case letters or digits.
pub open spec fn valid_token_id(s: Seq<u8>) -> bool {
    &&& 10 <= s.len() <= 17
    &&& forall|i: int| 0 <= i < s.len() - 7 ==> is_upper_or_digit(#[trigger] s[i])
    &&& s[s.len() - 7] == 45u8
    &&& forall|i: int| s.len() - 6 <= i < s.len() ==> is_lower_or_digit(#[trigger] s[i])
}

/// Relies on multiversx_chain_core::token_identifier_util::validate_token_identifier,
/// which checks the length, the upper-case ticker, the dash and the six
/// lower-case random characters.
#[verifier::external_body]
fn validate_token_identifier(id: &Vec<u8>) -> (r: bool)
    ensures
        r == valid_token_id(id@),
{
    multiversx_sc::chain_core::token_identifier_util::validate_token_identifier(id.as_slice())
}

/// Whether `id` is a well-formed token identifier.
pub fn is_valid_token(id: &Vec<u8>) -> (r: bool)
    ensures
        r == valid_token_id(id@),
{
    validate_token_identifier(id)
}

} // verus!
