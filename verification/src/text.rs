//! Strings as sequences of characters.

use vstd::prelude::*;

verus! {

/// The characters of `s`, in order.
pub fn chars_of(s: &str) -> (list: Vec<char>)
    ensures
        list@ == s@,
{
    let mut list: Vec<char> = Vec::new();
    for c in it: s.chars()
        invariant
            it.seq() == s@,
            list@ == s@.subrange(0, it.index() as int),
    {
        list.push(c);
        assert(s@.subrange(0, it.index() + 1) =~= s@.subrange(0, it.index() as int).push(c));
    }
    assert(s@.subrange(0, s@.len() as int) =~= s@);
    list
}

/// The character at position `at` of `list`.
pub fn char_at(list: &Vec<char>, at: usize) -> (c: char)
    requires
        at < list@.len(),
    ensures
        c == list@[at as int],
{
    list[at]
}

} // verus!
