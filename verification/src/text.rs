//! Texts as sequences of letters.

use vstd::prelude::*;

verus! {

/// The letters of a text.
pub fn letters(text: &str) -> (r: Vec<char>)
    ensures
        r@ == text@,
{
    let mut out: Vec<char> = Vec::new();
    for c in it: text.chars()
        invariant
            out@ == it.seq().take(it.index() as int),
            it.seq() == text@,
    {
        out.push(c);
        assert(out@ =~= it.seq().take(it.index() + 1));
    }
    assert(text@.take(text@.len() as int) =~= text@);
    out
}

/// Whether `text` ends with `tail`.
pub open spec fn ends_with_letters(text: Seq<char>, tail: Seq<char>) -> bool {
    tail.len() <= text.len() && text.subrange(text.len() - tail.len(), text.len() as int) == tail
}

/// Whether `text` ends with `tail`.
pub fn ends_with(text: &str, tail: &str) -> (r: bool)
    ensures
        r == ends_with_letters(text@, tail@),
{
    let n: usize = text.unicode_len();
    let m: usize = tail.unicode_len();
    if m > n {
        return false;
    }
    same_text(text.substring_char(n - m, n), tail)
}

/// Whether two texts hold the same letters.
pub fn same_text(a: &str, b: &str) -> (r: bool)
    ensures
        r == (a@ == b@),
{
    a.to_owned() == b.to_owned()
}

} // verus!
