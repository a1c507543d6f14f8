//! Unicode case mapping and character classes, taken from the standard
//! library and named here: their tables take pages to state.
use vstd::prelude::*;

verus! {

/// The characters of `str::to_uppercase` applied to a string.
pub uninterp spec fn upper_case(s: Seq<char>) -> Seq<char>;

/// The characters of `str::to_lowercase` applied to a string.
pub uninterp spec fn lower_case(s: Seq<char>) -> Seq<char>;

/// `char::is_alphabetic`.
pub uninterp spec fn alphabetic(c: char) -> bool;

/// `char::is_whitespace`.
pub uninterp spec fn white_space(c: char) -> bool;

/// `str::to_uppercase`: the Unicode upper-case mapping of every character.
/// The contract names the result; it states nothing of the mapping itself.
#[verifier::external_body]
pub(crate) fn to_upper(s: &str) -> (r: String)
    ensures
        r@ == upper_case(s@),
{
    s.to_uppercase()
}

/// `str::to_lowercase`: the Unicode lower-case mapping of the string.
/// The contract names the result; it states nothing of the mapping itself.
#[verifier::external_body]
pub(crate) fn to_lower(s: &str) -> (r: String)
    ensures
        r@ == lower_case(s@),
{
    s.to_lowercase()
}

/// `char::is_alphabetic`: whether the character has the Unicode Alphabetic
/// property. The contract names the result; it lists no characters.
#[verifier::external_body]
pub(crate) fn is_alphabetic(c: char) -> (b: bool)
    ensures
        b == alphabetic(c),
{
    c.is_alphabetic()
}

/// `char::is_whitespace`: whether the character has the Unicode White_Space
/// property. The contract names the result; it lists no characters.
#[verifier::external_body]
pub(crate) fn is_whitespace(c: char) -> (b: bool)
    ensures
        b == white_space(c),
{
    c.is_whitespace()
}

} // verus!
