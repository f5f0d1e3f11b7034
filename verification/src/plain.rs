//! Words as the baseline analyzer takes them: the text is split at white
//! space, each piece is turned to lowercase as a whole, and what is left of
//! it after every character but the letters is dropped is a word.

use vstd::prelude::*;
use crate::letters::{ascii_lower, is_ascii_char, is_letter, is_letter_char};
use crate::tokens::with_word;
use crate::unicode::{text_to_lowercase, unicode_lowercase_text, unicode_whitespace};

verus! {

/// Whether `c` is ASCII white space: a space, or one of the five control
/// characters from tab to carriage return.
pub open spec fn is_ascii_space(c: char) -> bool {
    c == ' ' || ('\t' <= c && c <= '\r')
}

/// Whether `c` separates the pieces of a text: ASCII white space, or a
/// character outside ASCII that Unicode calls white space.
pub open spec fn is_space(c: char) -> bool {
    if is_ascii_char(c) {
        is_ascii_space(c)
    } else {
        unicode_whitespace(c)
    }
}

/// Every character of `piece` is ASCII.
pub open spec fn all_ascii(piece: Seq<char>) -> bool {
    forall|i: int| 0 <= i < piece.len() ==> is_ascii_char(#[trigger] piece[i])
}

/// Each character of an ASCII text as its small letter.
pub open spec fn ascii_lowered(piece: Seq<char>) -> Seq<char> {
    Seq::new(piece.len(), |i: int| ascii_lower(piece[i]))
}

/// The lowercase form of `piece`: letter by letter where it is all ASCII,
/// and by Unicode's rules for whole strings otherwise.
pub open spec fn lowered(piece: Seq<char>) -> Seq<char> {
    if all_ascii(piece) {
        ascii_lowered(piece)
    } else {
        unicode_lowercase_text(piece)
    }
}

/// The letters of `text`, in their order.
pub open spec fn only_letters(text: Seq<char>) -> Seq<char>
    decreases text.len(),
{
    if text.len() == 0 {
        Seq::empty()
    } else if is_letter(text.last()) {
        only_letters(text.drop_last()).push(text.last())
    } else {
        only_letters(text.drop_last())
    }
}

/// The word that a piece of text stands for; empty where no letter is left.
pub open spec fn cleaned(piece: Seq<char>) -> Seq<char> {
    only_letters(lowered(piece))
}

/// The piece that `text` ends in: the characters after its last white
/// space.
pub open spec fn trailing_piece(text: Seq<char>) -> Seq<char>
    decreases text.len(),
{
    if text.len() == 0 {
        Seq::empty()
    } else if is_space(text.last()) {
        Seq::empty()
    } else {
        trailing_piece(text.drop_last()).push(text.last())
    }
}

/// The words of the pieces of `text` that white space has ended, in the
/// order in which they occur.
pub open spec fn finished_plain_words(text: Seq<char>) -> Seq<Seq<char>>
    decreases text.len(),
{
    if text.len() == 0 {
        Seq::empty()
    } else if is_space(text.last()) {
        with_word(finished_plain_words(text.drop_last()), cleaned(trailing_piece(text.drop_last())))
    } else {
        finished_plain_words(text.drop_last())
    }
}

/// All words of `text` as the baseline takes them.
pub open spec fn plain_words(text: Seq<char>) -> Seq<Seq<char>> {
    with_word(finished_plain_words(text), cleaned(trailing_piece(text)))
}

/// An empty piece stands for no word.
pub proof fn lemma_cleaned_empty()
    ensures
        cleaned(Seq::<char>::empty()) == Seq::<char>::empty(),
{
    assert(ascii_lowered(Seq::<char>::empty()) =~= Seq::<char>::empty());
}

/// Nothing has been split off before the first character.
pub proof fn lemma_split_start(text: Seq<char>)
    ensures
        trailing_piece(text.take(0)) == Seq::<char>::empty(),
        finished_plain_words(text.take(0)) == Seq::<Seq<char>>::empty(),
{
    assert(text.take(0).len() == 0);
}

/// What one more character adds to the pieces of a prefix.
pub proof fn lemma_split_step(text: Seq<char>, i: int)
    requires
        0 <= i < text.len(),
    ensures
        is_space(text[i]) ==> {
            &&& trailing_piece(text.take(i + 1)) == Seq::<char>::empty()
            &&& finished_plain_words(text.take(i + 1)) == with_word(
                finished_plain_words(text.take(i)),
                cleaned(trailing_piece(text.take(i))),
            )
        },
        !is_space(text[i]) ==> {
            &&& trailing_piece(text.take(i + 1)) == trailing_piece(text.take(i)).push(text[i])
            &&& finished_plain_words(text.take(i + 1)) == finished_plain_words(text.take(i))
        },
{
    let longer = text.take(i + 1);
    assert(longer.drop_last() =~= text.take(i));
    assert(longer.last() == text[i]);
}

/// A text has no more words than characters: each word ends at a place of
/// its own.
pub proof fn lemma_plain_words_bound(text: Seq<char>)
    ensures
        finished_plain_words(text).len() <= text.len(),
        trailing_piece(text).len() > 0 ==> finished_plain_words(text).len() < text.len(),
        plain_words(text).len() <= text.len(),
    decreases text.len(),
{
    lemma_cleaned_empty();
    if text.len() > 0 {
        lemma_plain_words_bound(text.drop_last());
    }
}

/// Decides whether `c` separates the pieces of a text.
pub fn is_space_char(c: char) -> (yes: bool)
    ensures
        yes == is_space(c),
{
    if c <= '\u{7f}' {
        c == ' ' || ('\t' <= c && c <= '\r')
    } else {
        c.is_whitespace()
    }
}

/// Decides whether every character of `piece` is ASCII.
fn is_ascii_piece(piece: &Vec<char>) -> (yes: bool)
    ensures
        yes == all_ascii(piece@),
{
    let mut k: usize = 0;
    while k < piece.len()
        invariant
            k <= piece.len(),
            forall|j: int| 0 <= j < k ==> is_ascii_char(#[trigger] piece@[j]),
        decreases piece.len() - k,
    {
        if piece[k] > '\u{7f}' {
            return false;
        }
        k = k + 1;
    }
    true
}

/// The lowercase form of a piece of text.
pub fn lower_piece(piece: &Vec<char>) -> (lower: Vec<char>)
    ensures
        lower@ == lowered(piece@),
{
    if is_ascii_piece(piece) {
        let mut lower: Vec<char> = Vec::with_capacity(piece.len());
        let mut k: usize = 0;
        while k < piece.len()
            invariant
                k <= piece.len(),
                all_ascii(piece@),
                lower@.len() == k,
                forall|j: int| 0 <= j < k ==> #[trigger] lower@[j] == ascii_lower(piece@[j]),
            decreases piece.len() - k,
        {
            let c = piece[k];
            if 'A' <= c && c <= 'Z' {
                let small: u8 = (c as u8) + 32;
                lower.push(small as char);
            } else {
                lower.push(c);
            }
            k = k + 1;
        }
        assert(lower@ =~= ascii_lowered(piece@));
        lower
    } else {
        text_to_lowercase(piece)
    }
}

/// The word that a piece of text stands for: its lowercase form without
/// anything that is not a letter.
pub fn clean_piece(piece: &Vec<char>) -> (word: Vec<char>)
    ensures
        word@ == cleaned(piece@),
{
    let lower = lower_piece(piece);
    let mut word: Vec<char> = Vec::new();
    let mut k: usize = 0;
    while k < lower.len()
        invariant
            k <= lower.len(),
            word@ == only_letters(lower@.take(k as int)),
        decreases lower.len() - k,
    {
        proof {
            assert(lower@.take(k + 1).drop_last() =~= lower@.take(k as int));
        }
        if is_letter_char(lower[k]) {
            word.push(lower[k]);
        }
        k = k + 1;
    }
    assert(lower@.take(lower.len() as int) =~= lower@);
    word
}

} // verus!
