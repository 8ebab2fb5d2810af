//! Conversions between owned strings and their character sequences, for
//! code that reads or builds text one character at a time.

use vstd::prelude::*;

verus! {

/// Relies on str::chars with Iterator::collect: the characters of the
/// text, in order.
#[verifier::external_body]
pub fn string_to_chars(s: &str) -> (r: Vec<char>)
    ensures
        r@ == s@,
{
    s.chars().collect()
}

/// Relies on String's FromIterator over characters via Iterator::collect:
/// the text made of exactly the given characters, in order.
#[verifier::external_body]
pub fn chars_to_string(v: &Vec<char>) -> (r: String)
    ensures
        r@ == v@,
{
    v.iter().collect()
}

} // verus!
