//! Contracts for the few `String` operations that the library relies on.

use vstd::prelude::*;

verus! {

/// `String::push` appends exactly the given character to the end of the
/// string and leaves everything before it unchanged.
pub assume_specification[ String::push ](s: &mut String, ch: char)
    ensures
        final(s)@ == old(s)@.push(ch),
;

} // verus!
