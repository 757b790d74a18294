//! The front end of a small language: a scanner that turns source text into
//! classified tokens. A fault in the text (a number too large, a string left
//! open, a character no rule accepts) never stops the scan: the token is
//! made anyway and carries the fault, with the span it concerns, for later
//! reporting.
use vstd::prelude::*;

pub mod cursor;
pub mod errors;
pub mod first_read;
pub mod laws;
pub mod lex;
pub mod locality;
pub mod model;
pub mod token;

verus! {

/// The characters of `s`, in order.
pub fn chars_of(s: &str) -> (r: Vec<char>)
    ensures
        r@ == s@,
{
    broadcast use vstd::string::group_string_axioms;
    let mut v: Vec<char> = Vec::new();
    for c in it: s.chars()
        invariant
            v@ == it.seq().take(it.index() as int),
            it.seq() == s@,
    {
        v.push(c);
    }
    v
}

} // verus!
