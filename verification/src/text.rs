//! Building owned strings from characters.

use vstd::prelude::*;

verus! {

/// `String::push` of the standard library appends the character to the end of
/// the string and changes nothing else.
pub assume_specification[ String::push ](s: &mut String, c: char)
    ensures
        final(s)@ == old(s)@.push(c),
;

/// The string made of the given characters.
pub(crate) fn string_of(chars: &Vec<char>) -> (s: String)
    ensures
        s@ == chars@,
{
    let mut s = String::new();
    let mut i: usize = 0;
    while i < chars.len()
        invariant
            i <= chars@.len(),
            s@ == chars@.take(i as int),
        decreases chars@.len() - i,
    {
        s.push(chars[i]);
        assert(chars@.take(i + 1) == chars@.take(i as int).push(chars@[i as int]));
        i = i + 1;
    }
    assert(chars@.take(i as int) == chars@);
    s
}

} // verus!
