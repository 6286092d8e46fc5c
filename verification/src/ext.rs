//! Contracts taken on trust for the two std functions this crate calls
//! that vstd leaves unspecified.

use vstd::prelude::*;

verus! {

/// Relies on char::from_u32: it returns `Some` exactly for Unicode scalar
/// values (everything up to U+10FFFF except the surrogate range), and the
/// returned character has the given value.
pub assume_specification[ char::from_u32 ](v: u32) -> (r: Option<char>)
    ensures
        r is Some <==> vstd::utf8::is_scalar(v),
        r matches Some(c) ==> c as u32 == v,
;

/// Relies on String::push: it appends the given character to the end of
/// the string.
pub assume_specification[ String::push ](s: &mut String, ch: char)
    ensures
        final(s)@ == old(s)@.push(ch),
;

} // verus!
