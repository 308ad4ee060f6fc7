//! Classes of characters, and text without regard to the case of ASCII letters.

use vstd::prelude::*;
use vstd::string::*;

verus! {

/// Blanks, tabs and line breaks.
pub open spec fn is_space(c: char) -> bool {
    c == ' ' || c == '\t' || c == '\n' || c == '\r'
}

/// The ten ASCII digits.
pub open spec fn is_digit(c: char) -> bool {
    '0' <= c <= '9'
}

/// What may start a word: an ASCII letter, `_`, or any character outside ASCII.
pub open spec fn is_letter(c: char) -> bool {
    'a' <= c <= 'z' || 'A' <= c <= 'Z' || c == '_' || c as u32 >= 0x80
}

/// What may continue a word.
pub open spec fn is_word(c: char) -> bool {
    is_letter(c) || is_digit(c)
}

/// The character with an ASCII capital letter turned into the small one.
pub open spec fn lower_char(c: char) -> char {
    if 'A' <= c <= 'Z' {
        ((c as u8) + 32) as char
    } else {
        c
    }
}

/// The text with its ASCII capital letters turned into small ones.
pub open spec fn lower(text: Seq<char>) -> Seq<char> {
    Seq::new(text.len(), |i: int| lower_char(text[i]))
}

/// Whether the character is whitespace.
pub fn space(c: char) -> (yes: bool)
    ensures
        yes == is_space(c),
{
    c == ' ' || c == '\t' || c == '\n' || c == '\r'
}

/// Whether the character is a digit.
pub fn digit(c: char) -> (yes: bool)
    ensures
        yes == is_digit(c),
{
    '0' <= c && c <= '9'
}

/// Whether the character may start a word.
pub fn letter(c: char) -> (yes: bool)
    ensures
        yes == is_letter(c),
{
    ('a' <= c && c <= 'z') || ('A' <= c && c <= 'Z') || c == '_' || c as u32 >= 0x80
}

/// Whether the character may continue a word.
pub fn word(c: char) -> (yes: bool)
    ensures
        yes == is_word(c),
{
    letter(c) || digit(c)
}

/// The character with an ASCII capital letter turned into the small one.
pub fn to_lower_char(c: char) -> (small: char)
    ensures
        small == lower_char(c),
{
    if 'A' <= c && c <= 'Z' {
        ((c as u8) + 32) as char
    } else {
        c
    }
}

/// The characters of a string.
pub fn to_chars(text: &str) -> (chars: Vec<char>)
    ensures
        chars@ == text@,
{
    let mut chars: Vec<char> = Vec::new();
    for c in it: text.chars()
        invariant
            chars@ == it.seq().take(it.index()),
            it.seq() == text@,
    {
        chars.push(c);
    }
    chars
}

/// The characters between `from` and `to`, with ASCII capital letters turned into small
/// ones.
pub fn to_lower(chars: &Vec<char>, from: usize, to: usize) -> (small: Vec<char>)
    requires
        from <= to <= chars.len(),
    ensures
        small@ == lower(chars@.subrange(from as int, to as int)),
{
    let mut small: Vec<char> = Vec::new();
    let mut i: usize = from;
    while i < to
        invariant
            from <= i <= to <= chars.len(),
            small@ == lower(chars@.subrange(from as int, i as int)),
        decreases to - i,
    {
        small.push(to_lower_char(chars[i]));
        assert(small@ =~= lower(chars@.subrange(from as int, i + 1)));
        i += 1;
    }
    small
}

/// Whether the characters spell the text.
pub fn spells(chars: &Vec<char>, text: &str) -> (same: bool)
    ensures
        same == (chars@ == text@),
{
    if text.unicode_len() != chars.len() {
        return false;
    }
    let mut i: usize = 0;
    while i < chars.len()
        invariant
            i <= chars.len(),
            chars.len() == text@.len(),
            chars@.take(i as int) == text@.take(i as int),
        decreases chars.len() - i,
    {
        if text.get_char(i) != chars[i] {
            return false;
        }
        assert(chars@.take(i + 1) =~= chars@.take(i as int).push(chars@[i as int]));
        assert(text@.take(i + 1) =~= text@.take(i as int).push(text@[i as int]));
        i += 1;
    }
    assert(chars@.take(i as int) =~= chars@);
    assert(text@.take(i as int) =~= text@);
    true
}

} // verus!

verus! {

/// Whether the two hold the same characters.
pub fn same_chars(left: &Vec<char>, right: &Vec<char>) -> (same: bool)
    ensures
        same == (left@ == right@),
{
    if left.len() != right.len() {
        return false;
    }
    let mut i: usize = 0;
    while i < left.len()
        invariant
            i <= left.len(),
            left.len() == right.len(),
            left@.take(i as int) == right@.take(i as int),
        decreases left.len() - i,
    {
        if left[i] != right[i] {
            return false;
        }
        assert(left@.take(i + 1) =~= left@.take(i as int).push(left@[i as int]));
        assert(right@.take(i + 1) =~= right@.take(i as int).push(right@[i as int]));
        i += 1;
    }
    assert(left@.take(i as int) =~= left@);
    assert(right@.take(i as int) =~= right@);
    true
}

} // verus!
