//! Building output text from verified character sequences.

use vstd::prelude::*;
use vstd::string::*;
use crate::digits::{dec_rep, push_dec_u128};

verus! {

/// Relies on `String`'s `FromIterator<char>` impl: collecting characters
/// builds the string of exactly those characters, in order.
#[verifier::external_body]
pub(crate) fn chars_to_string(v: &Vec<char>) -> (r: String)
    ensures
        r@ == v@,
{
    v.iter().collect()
}

/// Relies on `str::chars`: the characters of the string, in order.
#[verifier::external_body]
pub(crate) fn str_to_chars(s: &str) -> (r: Vec<char>)
    ensures
        r@ == s@,
{
    s.chars().collect()
}

/// The shortest decimal rendering of `n` as a string.
pub fn num_string(n: u128) -> (r: String)
    ensures
        r@ == dec_rep(n as nat),
{
    let mut v: Vec<char> = Vec::new();
    push_dec_u128(&mut v, n);
    chars_to_string(&v)
}

} // verus!
