use vstd::prelude::*;

verus! {

#[verifier::external_type_specification]
#[verifier::external_body]
pub struct ExPgnError(pgn_traits::Error);

/// Relies on pgn_traits::Error::new_parse_error: builds a parse error that
/// carries the message and the rejected input.
#[verifier::external_body]
pub(crate) fn parse_error(message: &str, input: &str) -> pgn_traits::Error {
    pgn_traits::Error::new_parse_error(format!("{} \"{}\"", message, input))
}

/// Relies on String::push: appends one character.
#[verifier::external_body]
pub(crate) fn push_char(s: &mut String, c: char)
    ensures
        final(s)@ == old(s)@.push(c),
{
    s.push(c)
}

} // verus!
