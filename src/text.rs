//! Character-level helpers for reading the signature source.
use vstd::prelude::*;

verus! {

/// Relies on `String::push`: appends one character at the end.
#[verifier::external_body]
pub(crate) fn push_char(s: &mut String, c: char)
    ensures
        final(s)@ == old(s)@.push(c),
{
    s.push(c);
}

/// The characters of `s`, in order.
pub fn chars_of(s: &str) -> (r: Vec<char>)
    ensures
        r@ == s@,
{
    let mut r: Vec<char> = Vec::new();
    for c in it: s.chars()
        invariant
            it.seq() == s@,
            r@ == it.seq().take(it.index() as int),
    {
        r.push(c);
    }
    r
}

/// A string holding the characters of `v[from..to]`.
pub fn string_of(v: &Vec<char>, from: usize, to: usize) -> (r: String)
    requires
        from <= to <= v.len(),
    ensures
        r@ == v@.subrange(from as int, to as int),
{
    let mut r = String::new();
    let mut i: usize = from;
    while i < to
        invariant
            from <= i <= to <= v.len(),
            r@ == v@.subrange(from as int, i as int),
        decreases to - i,
    {
        push_char(&mut r, v[i]);
        assert(v@.subrange(from as int, i + 1) == v@.subrange(from as int, i as int).push(v@[i as int]));
        i = i + 1;
    }
    r
}

} // verus!
