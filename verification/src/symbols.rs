//! The alphabet of a token: ASCII digits and letters, read in base 36.

use vstd::prelude::*;

verus! {

/// Whether `c` is an ASCII digit or an ASCII letter of either case.
pub open spec fn is_symbol(c: char) -> bool {
    ('0' <= c <= '9') || ('a' <= c <= 'z') || ('A' <= c <= 'Z')
}

/// Whether `c` is an ASCII lower-case letter.
pub open spec fn is_lower(c: char) -> bool {
    'a' <= c <= 'z'
}

/// The position of a lower-case letter in the alphabet, `a` at 0.
pub open spec fn letter_index(c: char) -> int {
    c as int - 'a' as int
}

/// The lower-case letter at position `index` of the alphabet.
pub open spec fn letter_of(index: int) -> char {
    (index + 'a' as int) as char
}

/// Letters and their positions in the alphabet correspond one to one.
pub proof fn lemma_letter_index(index: int, c: char)
    ensures
        0 <= index < 26 ==> is_lower(letter_of(index)) && letter_index(letter_of(index)) == index,
        is_lower(c) ==> 0 <= letter_index(c) < 26 && letter_of(letter_index(c)) == c,
{
}

/// `c` with an ASCII upper-case letter replaced by its lower-case form.
pub open spec fn fold_case(c: char) -> char {
    if 'A' <= c <= 'Z' {
        ((c as u32) + 32) as char
    } else {
        c
    }
}

/// The number a character stands for. A digit stands for itself and a letter,
/// whatever its case, for 10 (`a`) to 35 (`z`). On any other character the
/// value is its distance from `a` plus 10, which lies outside `0..36` or
/// collides with a digit; callers test [`is_symbol`] first.
pub open spec fn symbol_value(c: char) -> int {
    if '0' <= c <= '9' {
        c as int - '0' as int
    } else {
        fold_case(c) as int - 'a' as int + 10
    }
}

/// Every symbol has a value below 36.
pub proof fn lemma_symbol_value_range(c: char)
    requires
        is_symbol(c),
    ensures
        0 <= symbol_value(c) < 36,
{
}

/// Case does not matter to the value of a character.
pub proof fn lemma_symbol_value_ignores_case(c: char)
    ensures
        symbol_value(fold_case(c)) == symbol_value(c),
        is_symbol(fold_case(c)) == is_symbol(c),
{
}

/// Tests whether `c` is an ASCII digit or letter.
pub fn is_alphanumeric(c: char) -> (yes: bool)
    ensures
        yes == is_symbol(c),
{
    ('0' <= c && c <= '9') || ('a' <= c && c <= 'z') || ('A' <= c && c <= 'Z')
}

/// Tests whether `c` is an ASCII lower-case letter.
pub fn is_lowercase(c: char) -> (yes: bool)
    ensures
        yes == is_lower(c),
{
    'a' <= c && c <= 'z'
}

/// Folds an ASCII upper-case letter to lower case and leaves every other
/// character as it is.
pub fn to_lowercase(c: char) -> (folded: char)
    ensures
        folded == fold_case(c),
{
    if 'A' <= c && c <= 'Z' {
        let code: u32 = c as u32 + 32;
        lower_letter(code - 97)
    } else {
        c
    }
}

/// The lower-case letter at position `index` of the alphabet.
pub fn lower_letter(index: u32) -> (letter: char)
    requires
        index < 26,
    ensures
        letter == letter_of(index as int),
        is_lower(letter),
{
    let code: u8 = 97u8 + index as u8;
    code as char
}

/// Maps a character to the number it stands for.
pub fn char_to_num(c: char) -> (value: i32)
    ensures
        value == symbol_value(c),
{
    if '0' <= c && c <= '9' {
        (c as u32 - 48) as i32
    } else {
        let folded = to_lowercase(c);
        (folded as u32) as i32 - 97 + 10
    }
}

} // verus!
