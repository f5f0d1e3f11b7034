//! Words of a text. A word is a maximal run of letters, folded to
//! lowercase; every other character separates words and belongs to none.

use vstd::prelude::*;
use crate::letters::{folded, is_letter};

verus! {

/// `ws` with `w` appended, unless `w` is empty.
pub open spec fn with_word(ws: Seq<Seq<char>>, w: Seq<char>) -> Seq<Seq<char>> {
    if w.len() > 0 {
        ws.push(w)
    } else {
        ws
    }
}

/// The folded letters of the run that `text` ends in; empty where `text` is
/// empty or ends in a separator.
pub open spec fn trailing_word(text: Seq<char>) -> Seq<char>
    decreases text.len(),
{
    if text.len() == 0 {
        Seq::empty()
    } else if is_letter(text.last()) {
        trailing_word(text.drop_last()) + folded(text.last())
    } else {
        Seq::empty()
    }
}

/// The words of `text` that a separator has ended, in the order in which
/// they occur.
pub open spec fn finished_words(text: Seq<char>) -> Seq<Seq<char>>
    decreases text.len(),
{
    if text.len() == 0 {
        Seq::empty()
    } else if is_letter(text.last()) {
        finished_words(text.drop_last())
    } else {
        with_word(finished_words(text.drop_last()), trailing_word(text.drop_last()))
    }
}

/// All words of `text`, in the order in which they occur.
pub open spec fn words(text: Seq<char>) -> Seq<Seq<char>> {
    with_word(finished_words(text), trailing_word(text))
}

/// The number of letters in `text`.
pub open spec fn letter_count(text: Seq<char>) -> nat
    decreases text.len(),
{
    if text.len() == 0 {
        0
    } else {
        letter_count(text.drop_last()) + if is_letter(text.last()) {
            1nat
        } else {
            0nat
        }
    }
}

/// How often `w` occurs in `ws`.
pub open spec fn occurrences(ws: Seq<Seq<char>>, w: Seq<char>) -> nat
    decreases ws.len(),
{
    if ws.len() == 0 {
        0
    } else {
        occurrences(ws.drop_last(), w) + if ws.last() == w {
            1nat
        } else {
            0nat
        }
    }
}

/// Nothing has been scanned before the first character.
pub proof fn lemma_scan_start(text: Seq<char>)
    ensures
        trailing_word(text.take(0)) == Seq::<char>::empty(),
        finished_words(text.take(0)) == Seq::<Seq<char>>::empty(),
        letter_count(text.take(0)) == 0,
{
    assert(text.take(0).len() == 0);
}

/// What one more character adds to the scan of a prefix.
pub proof fn lemma_scan_step(text: Seq<char>, i: int)
    requires
        0 <= i < text.len(),
    ensures
        is_letter(text[i]) ==> {
            &&& trailing_word(text.take(i + 1)) == trailing_word(text.take(i)) + folded(text[i])
            &&& finished_words(text.take(i + 1)) == finished_words(text.take(i))
            &&& letter_count(text.take(i + 1)) == letter_count(text.take(i)) + 1
        },
        !is_letter(text[i]) ==> {
            &&& trailing_word(text.take(i + 1)) == Seq::<char>::empty()
            &&& finished_words(text.take(i + 1)) == with_word(
                finished_words(text.take(i)),
                trailing_word(text.take(i)),
            )
            &&& letter_count(text.take(i + 1)) == letter_count(text.take(i))
        },
{
    let longer = text.take(i + 1);
    assert(longer.drop_last() =~= text.take(i));
    assert(longer.last() == text[i]);
}

/// The whole text is its own longest prefix.
pub proof fn lemma_scan_end(text: Seq<char>)
    ensures
        text.take(text.len() as int) == text,
{
    assert(text.take(text.len() as int) =~= text);
}

/// A text has no more letters than characters.
pub proof fn lemma_letter_count_bound(text: Seq<char>)
    ensures
        letter_count(text) <= text.len(),
    decreases text.len(),
{
    if text.len() > 0 {
        lemma_letter_count_bound(text.drop_last());
    }
}

/// A text has no more words than characters: each word ends at a place of
/// its own.
pub proof fn lemma_words_bound(text: Seq<char>)
    ensures
        finished_words(text).len() <= text.len(),
        words(text).len() <= text.len(),
        trailing_word(text).len() > 0 ==> finished_words(text).len() < text.len(),
    decreases text.len(),
{
    if text.len() > 0 {
        lemma_words_bound(text.drop_last());
    }
}

/// One more word adds one occurrence of itself and none of any other word.
pub proof fn lemma_occurrences_push(ws: Seq<Seq<char>>, x: Seq<char>, w: Seq<char>)
    ensures
        occurrences(ws.push(x), w) == occurrences(ws, w) + if x == w {
            1nat
        } else {
            0nat
        },
{
    assert(ws.push(x).drop_last() =~= ws);
    assert(ws.push(x).last() == x);
}

/// A word occurs no more often than there are words.
pub proof fn lemma_occurrences_bound(ws: Seq<Seq<char>>, w: Seq<char>)
    ensures
        occurrences(ws, w) <= ws.len(),
    decreases ws.len(),
{
    if ws.len() > 0 {
        lemma_occurrences_bound(ws.drop_last(), w);
    }
}

/// A word occurs at least once exactly where the sequence holds it.
pub proof fn lemma_occurrences_contains(ws: Seq<Seq<char>>, w: Seq<char>)
    ensures
        occurrences(ws, w) > 0 <==> ws.contains(w),
    decreases ws.len(),
{
    if ws.len() > 0 {
        lemma_occurrences_contains(ws.drop_last(), w);
        if ws.contains(w) {
            let i = choose|i: int| 0 <= i < ws.len() && ws[i] == w;
            if i < ws.len() - 1 {
                assert(ws.drop_last()[i] == w);
            }
        }
        if ws.drop_last().contains(w) {
            let i = choose|i: int| 0 <= i < ws.drop_last().len() && ws.drop_last()[i] == w;
            assert(ws[i] == w);
        }
    }
}

} // verus!
