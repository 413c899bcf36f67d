//! The classes of characters that the grammars tell apart.

use vstd::prelude::*;

verus! {

/// The uppercase ASCII letters, `A` to `Z`.
pub open spec fn spec_is_uppercase(chr: char) -> bool {
    'A' <= chr && chr <= 'Z'
}

/// The lowercase ASCII letters, `a` to `z`.
pub open spec fn spec_is_lowercase(chr: char) -> bool {
    'a' <= chr && chr <= 'z'
}

/// The ASCII decimal digits.
pub open spec fn spec_is_digit(chr: char) -> bool {
    '0' <= chr && chr <= '9'
}

/// ASCII letters of either case and decimal digits.
pub open spec fn spec_is_alphanumeric(chr: char) -> bool {
    spec_is_uppercase(chr) || spec_is_lowercase(chr) || spec_is_digit(chr)
}

/// Tab, line feed, carriage return and space.
pub open spec fn spec_is_whitespace(chr: char) -> bool {
    chr == '\t' || chr == '\n' || chr == '\r' || chr == ' '
}

/// Whitespace that is trimmed from the end of data content: tab, carriage
/// return and space, but not line feed.
pub open spec fn spec_is_breaking_whitespace(chr: char) -> bool {
    chr == '\t' || chr == '\r' || chr == ' '
}

/// Every character but `<`.
pub open spec fn spec_is_not_open_bracket(chr: char) -> bool {
    chr != '<'
}

/// The two characters that end a chunk of literal data: `<` and `&`.
pub open spec fn spec_is_sgml_data_end(chr: char) -> bool {
    chr == '<' || chr == '&'
}

#[verifier::when_used_as_spec(spec_is_uppercase)]
pub fn is_uppercase(chr: char) -> (b: bool)
    ensures
        b == spec_is_uppercase(chr),
{
    'A' <= chr && chr <= 'Z'
}

#[verifier::when_used_as_spec(spec_is_lowercase)]
pub fn is_lowercase(chr: char) -> (b: bool)
    ensures
        b == spec_is_lowercase(chr),
{
    'a' <= chr && chr <= 'z'
}

#[verifier::when_used_as_spec(spec_is_digit)]
pub fn is_digit(chr: char) -> (b: bool)
    ensures
        b == spec_is_digit(chr),
{
    '0' <= chr && chr <= '9'
}

#[verifier::when_used_as_spec(spec_is_alphanumeric)]
pub fn is_alphanumeric(chr: char) -> (b: bool)
    ensures
        b == spec_is_alphanumeric(chr),
{
    is_uppercase(chr) || is_lowercase(chr) || is_digit(chr)
}

#[verifier::when_used_as_spec(spec_is_whitespace)]
pub fn is_whitespace(chr: char) -> (b: bool)
    ensures
        b == spec_is_whitespace(chr),
{
    chr == '\t' || chr == '\n' || chr == '\r' || chr == ' '
}

#[verifier::when_used_as_spec(spec_is_breaking_whitespace)]
pub fn is_breaking_whitespace(chr: char) -> (b: bool)
    ensures
        b == spec_is_breaking_whitespace(chr),
{
    chr == '\t' || chr == '\r' || chr == ' '
}

#[verifier::when_used_as_spec(spec_is_not_open_bracket)]
pub fn is_not_open_bracket(chr: char) -> (b: bool)
    ensures
        b == spec_is_not_open_bracket(chr),
{
    chr != '<'
}

#[verifier::when_used_as_spec(spec_is_sgml_data_end)]
pub fn is_sgml_data_end(chr: char) -> (b: bool)
    ensures
        b == spec_is_sgml_data_end(chr),
{
    chr == '<' || chr == '&'
}

} // verus!
