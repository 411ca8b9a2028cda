use vstd::prelude::*;

verus! {

/// `String::push` of the standard library appends the given character to the
/// end of the string and changes nothing else. Taken on trust from its
/// documentation.
pub assume_specification[ String::push ](s: &mut String, ch: char)
    ensures
        final(s)@ == old(s)@.push(ch),
;

} // verus!
