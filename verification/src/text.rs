//! Conversions between strings and character vectors.

use vstd::prelude::*;
use vstd::std_specs::iter::IteratorSpec;

verus! {

/// The contract assumed of std's `String::push`, which is not verified here:
/// after the call the string holds the characters that it held before,
/// followed by `ch`.
pub assume_specification[ String::push ](s: &mut String, ch: char)
    ensures
        final(s)@ == old(s)@.push(ch),
;

/// The characters of `text`, in order.
pub fn to_chars(text: &str) -> (chars: Vec<char>)
    ensures
        chars@ == text@,
{
    let mut chars: Vec<char> = Vec::new();
    let mut it = text.chars();
    loop
        invariant
            chars@ + it.remaining() == text@,
            it.decrease() is Some,
        ensures
            chars@ == text@,
        decreases it.decrease()->0,
    {
        match it.next() {
            Some(c) => {
                chars.push(c);
            },
            None => {
                assert(chars@ + it.remaining() =~= chars@);
                break;
            },
        }
    }
    chars
}

/// The string made of `chars[from..to]`.
pub fn string_of(chars: &Vec<char>, from: usize, to: usize) -> (s: String)
    requires
        from <= to <= chars.len(),
    ensures
        s@ == chars@.subrange(from as int, to as int),
{
    let mut s = String::new();
    let mut i: usize = from;
    while i < to
        invariant
            from <= i <= to <= chars.len(),
            s@ == chars@.subrange(from as int, i as int),
        decreases to - i,
    {
        s.push(chars[i]);
        i += 1;
    }
    s
}

} // verus!
