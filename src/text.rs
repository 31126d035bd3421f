//! Building strings character by character.

use vstd::prelude::*;

verus! {

/// Relies on `String::push`: appends the character `c` to the end of `s`.
#[verifier::external_body]
pub(crate) fn push_char(s: &mut String, c: char)
    ensures
        final(s)@ == old(s)@.push(c),
{
    s.push(c);
}

/// The characters of `chars`, last one first, as a string.
pub(crate) fn string_of_reversed(chars: &Vec<char>) -> (r: String)
    ensures
        r@ == chars@.reverse(),
{
    let mut s = String::new();
    let mut i: usize = chars.len();
    while i > 0
        invariant
            i <= chars.len(),
            s@ == chars@.subrange(i as int, chars.len() as int).reverse(),
        decreases i,
    {
        i = i - 1;
        push_char(&mut s, chars[i]);
        assert(s@ =~= chars@.subrange(i as int, chars.len() as int).reverse());
    }
    assert(chars@.subrange(0, chars.len() as int) =~= chars@);
    s
}

} // verus!
