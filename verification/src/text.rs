//! Character-level access to strings.
//!
//! The view of a `str` or `String` is its sequence of characters; these two
//! helpers move between that view and executable values.

use vstd::prelude::*;

verus! {

/// Relies on str::chars: it yields the characters of the string in order, so
/// the collected vector is exactly the string's character sequence.
#[verifier::external_body]
pub fn chars_of(s: &str) -> (r: Vec<char>)
    ensures
        r@ == s@,
{
    s.chars().collect()
}

/// Relies on String::push: it appends one character to the end of the string.
#[verifier::external_body]
pub fn push_char(s: &mut String, c: char)
    ensures
        final(s)@ == old(s)@.push(c),
{
    s.push(c);
}

} // verus!
