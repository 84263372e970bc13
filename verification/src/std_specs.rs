//! Specifications of standard-library functions that vstd leaves without
//! one. Nothing here is proved: each states what the documentation of the
//! function promises.

use vstd::prelude::*;

verus! {

/// `String::push` appends the character to the end of the string and leaves
/// the characters before it as they were.
pub assume_specification[ std::string::String::push ](s: &mut std::string::String, c: char)
    ensures
        final(s)@ == old(s)@.push(c),
;

} // verus!
