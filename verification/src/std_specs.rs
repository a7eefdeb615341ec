//! Contracts of the std functions that the library calls and that vstd leaves
//! without one.
use vstd::prelude::*;

verus! {

/// `String::push` appends one character to the string.
pub assume_specification[ String::push ](string: &mut String, ch: char)
    ensures
        final(string)@ == old(string)@.push(ch),
;

} // verus!
