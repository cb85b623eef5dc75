//! The characters of an expression: letters, white space and symbols.

use vstd::prelude::*;

verus! {

/// Whether a character outside the ASCII range carries Unicode's `Alphabetic`
/// property, as `char::is_alphabetic` reports it.
pub uninterp spec fn unicode_alphabetic(c: char) -> bool;

/// A letter of the Latin alphabet, small or capital.
pub open spec fn is_latin_letter(c: char) -> bool {
    ('a' <= c && c <= 'z') || ('A' <= c && c <= 'Z')
}

/// A letter: among the ASCII characters the Latin letters and nothing else,
/// and beyond them whatever Unicode calls alphabetic.
pub open spec fn is_letter(c: char) -> bool {
    if (c as u32) < 128 {
        is_latin_letter(c)
    } else {
        unicode_alphabetic(c)
    }
}

/// White space between tokens: a space or a tab.
pub open spec fn is_blank(c: char) -> bool {
    c == ' ' || c == '\t'
}

/// A character that is a token, or the start of the token `=>`, by itself.
pub open spec fn is_symbol(c: char) -> bool {
    c == '0' || c == '1' || c == '&' || c == '|' || c == '^' || c == '=' || c == '!' || c == '('
        || c == ')'
}

/// Every character of `s` is a letter.
pub open spec fn all_letters(s: Seq<char>) -> bool {
    forall|i: int| 0 <= i < s.len() ==> is_letter(#[trigger] s[i])
}

/// Calls `char::is_alphabetic`. The result is taken on trust to be Unicode's
/// `Alphabetic` property: among the ASCII characters it holds of the letters
/// of the Latin alphabet and of nothing else, and of the other characters
/// nothing is claimed but that the answer depends on the character alone.
#[verifier::external_body]
pub(crate) fn is_alphabetic(c: char) -> (b: bool)
    ensures
        b == (if (c as u32) < 128 {
            is_latin_letter(c)
        } else {
            unicode_alphabetic(c)
        }),
{
    c.is_alphabetic()
}

/// The characters of a string slice, one by one.
pub fn chars_of(s: &str) -> (v: Vec<char>)
    ensures
        v@ == s@,
{
    let mut v: Vec<char> = Vec::new();
    for c in it: s.chars()
        invariant
            it.seq() == s@,
            v@ == it.seq().take(it.index() as int),
    {
        v.push(c);
    }
    v
}

/// Whether two string slices hold the same characters.
pub fn same_text(a: &str, b: &str) -> (r: bool)
    ensures
        r == (a@ == b@),
{
    let left = chars_of(a);
    let right = chars_of(b);
    if left.len() != right.len() {
        return false;
    }
    let mut k: usize = 0;
    while k < left.len()
        invariant
            left@ == a@,
            right@ == b@,
            left.len() == right.len(),
            k <= left.len(),
            forall|i: int| 0 <= i < k ==> a@[i] == b@[i],
        decreases left.len() - k,
    {
        if left[k] != right[k] {
            return false;
        }
        k += 1;
    }
    assert(a@ =~= b@);
    true
}

} // verus!
