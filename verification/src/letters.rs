//! Letters and case folding. Inside the ASCII range both are fixed here;
//! outside it they follow Unicode.

use vstd::prelude::*;
use crate::unicode::{char_to_lowercase, unicode_alphabetic, unicode_lowercase};

verus! {

/// Whether `c` lies in the 7-bit ASCII range.
pub open spec fn is_ascii_char(c: char) -> bool {
    c <= '\u{7f}'
}

/// Whether `c` is one of the 52 ASCII letters.
pub open spec fn is_ascii_letter(c: char) -> bool {
    ('a' <= c && c <= 'z') || ('A' <= c && c <= 'Z')
}

/// An ASCII capital as its small letter; any other character unchanged.
pub open spec fn ascii_lower(c: char) -> char {
    if 'A' <= c && c <= 'Z' {
        ((c as u8) + 32) as char
    } else {
        c
    }
}

/// Whether `c` counts as a letter: an ASCII letter, or a character outside
/// ASCII that Unicode calls alphabetic.
pub open spec fn is_letter(c: char) -> bool {
    if is_ascii_char(c) {
        is_ascii_letter(c)
    } else {
        unicode_alphabetic(c)
    }
}

/// The lowercase form of `c`. One character can fold to several.
pub open spec fn folded(c: char) -> Seq<char> {
    if is_ascii_char(c) {
        seq![ascii_lower(c)]
    } else {
        unicode_lowercase(c)
    }
}

/// Whether the byte `b` is an ASCII letter.
pub open spec fn is_letter_byte(b: u8) -> bool {
    (97 <= b && b <= 122) || (65 <= b && b <= 90)
}

/// Whether the byte `b` is a small ASCII letter.
pub open spec fn is_small_letter_byte(b: u8) -> bool {
    97 <= b && b <= 122
}

/// The bytes `bytes` read as characters, one for one.
pub open spec fn byte_chars(bytes: Seq<u8>) -> Seq<char> {
    Seq::new(bytes.len(), |i: int| bytes[i] as char)
}

/// Decides whether `c` counts as a letter.
pub fn is_letter_char(c: char) -> (yes: bool)
    ensures
        yes == is_letter(c),
{
    if c <= '\u{7f}' {
        ('a' <= c && c <= 'z') || ('A' <= c && c <= 'Z')
    } else {
        c.is_alphabetic()
    }
}

/// Appends the lowercase form of `c` to `word`.
pub fn push_folded(word: &mut Vec<char>, c: char)
    ensures
        final(word)@ == old(word)@ + folded(c),
{
    if c <= '\u{7f}' {
        if 'A' <= c && c <= 'Z' {
            let small: u8 = (c as u8) + 32;
            word.push(small as char);
        } else {
            word.push(c);
        }
    } else {
        let mut lower = char_to_lowercase(c);
        word.append(&mut lower);
    }
}

/// Folds an ASCII letter to lowercase by setting the bit that tells the two
/// cases apart.
pub fn fold_letter_byte(b: u8) -> (small: u8)
    requires
        is_letter_byte(b),
    ensures
        is_small_letter_byte(small),
        seq![small as char] == folded(b as char),
{
    let small: u8 = b | 0x20;
    assert(small == (if 65 <= b && b <= 90 { (b + 32) as u8 } else { b })) by (bit_vector)
        requires
            small == b | 0x20,
            (97 <= b && b <= 122) || (65 <= b && b <= 90),
    ;
    small
}

} // verus!
