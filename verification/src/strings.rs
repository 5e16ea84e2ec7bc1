//! Conversions between strings and vectors of characters.

use vstd::prelude::*;

verus! {

/// Trusted: `String::push` of the standard library. The contract claims what
/// its documentation says: the character is appended to the end of the
/// string, and the characters before it stay as they were.
pub assume_specification[ String::push ](s: &mut String, c: char)
    ensures
        final(s)@ == old(s)@.push(c),
;

/// The characters of `s`, in order.
pub fn chars_of(s: &str) -> (out: Vec<char>)
    ensures
        out@ == s@,
{
    let mut out: Vec<char> = Vec::new();
    for c in it: s.chars()
        invariant
            it.seq() == s@,
            out@ == s@.take(it.index() as int),
    {
        out.push(c);
    }
    out
}

/// The string made of the `len` characters of `text` from `start` on.
pub fn string_of(text: &Vec<char>, start: usize, len: usize) -> (out: String)
    requires
        start + len <= text.len(),
    ensures
        out@ == text@.subrange(start as int, start + len),
{
    let mut out = String::new();
    let mut i: usize = 0;
    while i < len
        invariant
            i <= len,
            start + len <= text.len(),
            out@ == text@.subrange(start as int, start + i),
        decreases len - i,
    {
        out.push(text[start + i]);
        assert(text@.subrange(start as int, start + i + 1) =~= text@.subrange(
            start as int,
            start + i,
        ).push(text@[start + i]));
        i += 1;
    }
    out
}

} // verus!
