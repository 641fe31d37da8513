//! Moving between strings and sequences of characters.

use vstd::prelude::*;

verus! {

/// Appends one character to `s`.
///
/// This calls `String::push` of the standard library, and its contract is
/// taken on trust: the string afterwards is the string before with `c` added
/// at its end.
#[verifier::external_body]
pub(crate) fn push_char(s: &mut String, c: char)
    ensures
        final(s)@ == old(s)@.push(c),
{
    s.push(c);
}

/// The characters of `s`, in order.
pub fn chars_of(s: &str) -> (v: Vec<char>)
    ensures
        v@ == s@,
{
    let mut v: Vec<char> = Vec::new();
    for c in it: s.chars()
        invariant
            it.seq() == s@,
            v@ == it.seq().take(it.index() as int),
    {
        v.push(c);
    }
    v
}

/// The string made of the characters `v[from..to]`.
pub fn string_of(v: &Vec<char>, from: usize, to: usize) -> (s: String)
    requires
        from <= to <= v.len(),
    ensures
        s@ == v@.subrange(from as int, to as int),
{
    let mut s = String::new();
    let mut i: usize = from;
    while i < to
        invariant
            from <= i <= to <= v.len(),
            s@ == v@.subrange(from as int, i as int),
        decreases to - i,
    {
        push_char(&mut s, v[i]);
        i = i + 1;
    }
    s
}

/// Whether the characters `v` spell exactly `word`.
pub fn spells(v: &Vec<char>, word: &str) -> (r: bool)
    ensures
        r == (v@ == word@),
{
    let mut i: usize = 0;
    for c in it: word.chars()
        invariant
            it.seq() == word@,
            i == it.index(),
            i <= v.len(),
            v@.take(i as int) == word@.take(i as int),
    {
        if i >= v.len() || v[i] != c {
            return false;
        }
        i = i + 1;
    }
    assert(word@.take(i as int) == word@);
    if i == v.len() {
        assert(v@.take(i as int) == v@);
        true
    } else {
        false
    }
}

/// Whether two strings hold the same characters.
pub fn same_text(a: &str, b: &str) -> (r: bool)
    ensures
        r == (a@ == b@),
{
    let v = chars_of(a);
    spells(&v, b)
}

} // verus!
