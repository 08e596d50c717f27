//! Character classes and the decoding of a string into its code points.

use vstd::prelude::*;

verus! {

/// Whether `c` is a Unicode scalar value, as every `char` is.
pub open spec fn is_scalar_value(c: char) -> bool {
    0 <= c as int <= 0xD7FF || 0xE000 <= c as int <= 0x10FFFF
}

/// Every `char` is a Unicode scalar value.
pub proof fn lemma_char_is_scalar(c: char)
    ensures
        is_scalar_value(c),
{
}

/// Every member of a sequence of `char`s is a Unicode scalar value.
pub broadcast proof fn lemma_seq_char_is_scalar(s: Seq<char>, i: int)
    ensures
        is_scalar_value(#[trigger] s[i]),
{
    lemma_char_is_scalar(s[i]);
}

/// Whether `c` is one of the decimal digits `'0'` to `'9'`.
pub open spec fn is_digit(c: char) -> bool {
    '0' <= c <= '9'
}

/// Whether `c` is one of the ASCII capitals `'A'` to `'Z'`.
pub open spec fn is_uppercase_letter(c: char) -> bool {
    'A' <= c <= 'Z'
}

/// Whether `c` is one of the ASCII small letters `'a'` to `'z'`.
pub open spec fn is_lowercase_letter(c: char) -> bool {
    'a' <= c <= 'z'
}

/// Whether `c` is an ASCII letter of either case.
pub open spec fn is_letter(c: char) -> bool {
    is_uppercase_letter(c) || is_lowercase_letter(c)
}

/// Whether `c` is an ASCII letter or a decimal digit.
pub open spec fn is_alphanumeric(c: char) -> bool {
    is_digit(c) || is_letter(c)
}

/// Whether `c` is a decimal digit.
pub fn is_char_digit(c: char) -> (r: bool)
    ensures
        r == is_digit(c),
{
    c >= '0' && c <= '9'
}

/// Whether `c` is an ASCII capital.
pub fn is_char_uppercase_letter(c: char) -> (r: bool)
    ensures
        r == is_uppercase_letter(c),
{
    c >= 'A' && c <= 'Z'
}

/// Whether `c` is an ASCII small letter.
pub fn is_char_lowercase_letter(c: char) -> (r: bool)
    ensures
        r == is_lowercase_letter(c),
{
    c >= 'a' && c <= 'z'
}

/// Whether `c` is an ASCII letter.
pub fn is_char_letter(c: char) -> (r: bool)
    ensures
        r == is_letter(c),
{
    is_char_uppercase_letter(c) || is_char_lowercase_letter(c)
}

/// Whether `c` is an ASCII letter or a decimal digit.
pub fn is_char_alphanumeric(c: char) -> (r: bool)
    ensures
        r == is_alphanumeric(c),
{
    is_char_digit(c) || is_char_letter(c)
}

/// The code points of `s`, in order.
pub fn code_points(s: &str) -> (chars: Vec<char>)
    ensures
        chars@ == s@,
{
    let mut chars: Vec<char> = Vec::new();
    for c in it: s.chars()
        invariant
            chars@ == it.seq().take(it.index()),
            it.seq() == s@,
    {
        chars.push(c);
    }
    chars
}

/// A copy of a list of characters.
pub fn copy_chars(chars: &Vec<char>) -> (copy: Vec<char>)
    ensures
        copy@ == chars@,
{
    let mut copy: Vec<char> = Vec::new();
    let mut i: usize = 0;
    while i < chars.len()
        invariant
            i <= chars.len(),
            copy@ == chars@.take(i as int),
        decreases chars.len() - i,
    {
        copy.push(chars[i]);
        i += 1;
        assert(copy@ =~= chars@.take(i as int));
    }
    assert(copy@ =~= chars@);
    copy
}

/// Whether `c` occurs in `chars`.
pub fn contains_char(chars: &Vec<char>, c: char) -> (found: bool)
    ensures
        found == chars@.contains(c),
{
    let mut i: usize = 0;
    while i < chars.len()
        invariant
            i <= chars.len(),
            forall|j: int| 0 <= j < i ==> chars@[j] != c,
        decreases chars.len() - i,
    {
        if chars[i] == c {
            return true;
        }
        i += 1;
    }
    false
}

} // verus!
