//! Sample texts: the words of the fixed vocabulary, over and over.

use vstd::prelude::*;
use vstd::string::StringExecFns;
use vstd::utf8::is_ascii_chars;
use crate::fast::{fast_summary, hot_only, takes_shortcut};
use crate::laws::{
    is_letters_and_spaces, law_analyzers_agree, law_same_words_in_plain_text,
    vocabulary_in_rank_order,
};
use crate::letters::{folded, is_ascii_letter, is_letter};
use crate::plain::is_space;
use crate::slow::slow_summary;
use crate::stats::Summary;
use crate::tokens::{
    finished_words, lemma_occurrences_push, occurrences, trailing_word, words,
};
use crate::vocabulary::{
    alphabetical_place, lemma_vocabulary_distinct, lemma_vocabulary_spelled, vocabulary,
    vocabulary_index, vocabulary_word,
};

verus! {

/// The sample text of `size` words: the word at place `i % 10` of the
/// vocabulary for every `i` below `size`, with one space between words.
pub open spec fn sample_text(size: nat) -> Seq<char>
    decreases size,
{
    if size == 0 {
        Seq::empty()
    } else if size == 1 {
        vocabulary(0)
    } else {
        sample_text((size - 1) as nat) + seq![' '] + vocabulary(((size - 1) % 10) as int)
    }
}

/// Writes the sample text of `size` words.
pub fn generate_test_text(size: usize) -> (text: String)
    ensures
        text@ == sample_text(size as nat),
{
    let mut text = String::new();
    let mut i: usize = 0;
    while i < size
        invariant
            i <= size,
            text@ == sample_text(i as nat),
        decreases size - i,
    {
        if i > 0 {
            text.push(' ');
        }
        text.append(vocabulary_word(i % 10));
        i = i + 1;
        proof {
            if i == 1 {
                assert(text@ =~= vocabulary(0));
            } else {
                assert(text@ =~= sample_text((i - 1) as nat) + seq![' '] + vocabulary(
                    ((i - 1) % 10) as int,
                ));
            }
        }
    }
    text
}

/// The first `size` words of the endless round through the vocabulary.
pub open spec fn sample_words(size: nat) -> Seq<Seq<char>> {
    Seq::new(size, |i: int| vocabulary(i % 10))
}

/// Every character of `run` is a small ASCII letter.
pub open spec fn is_small_letters(run: Seq<char>) -> bool {
    forall|i: int| 0 <= i < run.len() ==> 'a' <= #[trigger] run[i] && run[i] <= 'z'
}

/// Every word of the vocabulary is made of small ASCII letters.
proof fn lemma_vocabulary_small(place: int)
    requires
        0 <= place < 10,
    ensures
        is_small_letters(vocabulary(place)),
        vocabulary(place).len() > 0,
{
    lemma_vocabulary_spelled();
}

/// Small letters after a text go on with the word it ends in, and end none.
proof fn lemma_scan_small_letters(text: Seq<char>, run: Seq<char>)
    requires
        is_small_letters(run),
    ensures
        trailing_word(text + run) == trailing_word(text) + run,
        finished_words(text + run) == finished_words(text),
    decreases run.len(),
{
    if run.len() == 0 {
        assert(text + run =~= text);
        assert(trailing_word(text) + run =~= trailing_word(text));
    } else {
        let shorter = run.drop_last();
        let c = run.last();
        assert(is_small_letters(shorter)) by {
            assert forall|i: int| 0 <= i < shorter.len() implies 'a' <= #[trigger] shorter[i]
                && shorter[i] <= 'z' by {
                assert(shorter[i] == run[i]);
            }
        }
        lemma_scan_small_letters(text, shorter);
        assert((text + run).drop_last() =~= text + shorter);
        assert((text + run).last() == c);
        assert('a' <= c && c <= 'z');
        assert(folded(c) =~= seq![c]);
        assert(trailing_word(text) + shorter + seq![c] =~= trailing_word(text) + run);
    }
}

/// A space after a text ends the word it ends in.
proof fn lemma_scan_space(text: Seq<char>)
    ensures
        trailing_word(text.push(' ')) == Seq::<char>::empty(),
        finished_words(text.push(' ')) == words(text),
{
    assert(text.push(' ').drop_last() =~= text);
    assert(text.push(' ').last() == ' ');
}

/// The words of a sample text are the round through the vocabulary, and
/// its characters are small ASCII letters and spaces.
pub proof fn lemma_sample_words(size: nat)
    ensures
        words(sample_text(size)) == sample_words(size),
        size > 0 ==> trailing_word(sample_text(size)).len() > 0,
        is_letters_and_spaces(sample_text(size)),
        is_ascii_chars(sample_text(size)),
    decreases size,
{
    if size == 0 {
        assert(words(sample_text(0)) =~= sample_words(0));
    } else if size == 1 {
        lemma_vocabulary_small(0);
        lemma_scan_small_letters(Seq::empty(), vocabulary(0));
        assert(Seq::<char>::empty() + vocabulary(0) =~= vocabulary(0));
        assert(words(sample_text(1)) =~= sample_words(1));
        assert forall|i: int| 0 <= i < sample_text(1).len() implies is_ascii_letter(
            #[trigger] sample_text(1)[i],
        ) by {
            assert('a' <= vocabulary(0)[i] && vocabulary(0)[i] <= 'z');
        }
        assert forall|i: int| 0 <= i < sample_text(1).len() implies '\0' <= #[trigger] sample_text(
            1,
        )[i] <= '\u{7f}' by {
            assert('a' <= vocabulary(0)[i] && vocabulary(0)[i] <= 'z');
        }
    } else {
        let before = sample_text((size - 1) as nat);
        let last = vocabulary(((size - 1) % 10) as int);
        lemma_sample_words((size - 1) as nat);
        lemma_vocabulary_small(((size - 1) % 10) as int);
        lemma_scan_space(before);
        lemma_scan_small_letters(before.push(' '), last);
        assert(before + seq![' '] =~= before.push(' '));
        assert(words(sample_text(size)) =~= sample_words((size - 1) as nat).push(last));
        assert(sample_words((size - 1) as nat).push(last) =~= sample_words(size));
        let whole = sample_text(size);
        assert forall|i: int| 0 <= i < whole.len() implies (is_ascii_letter(#[trigger] whole[i])
            || (is_space(whole[i]) && !is_letter(whole[i]))) && '\0' <= whole[i] <= '\u{7f}' by {
            if i < before.len() {
                assert(whole[i] == before[i]);
                assert(is_ascii_letter(before[i]) || (is_space(before[i]) && !is_letter(
                    before[i],
                )));
            } else if i == before.len() {
                assert(whole[i] == ' ');
            } else {
                assert(whole[i] == last[i - before.len() - 1]);
                assert('a' <= last[i - before.len() - 1] && last[i - before.len() - 1] <= 'z');
            }
        }
    }
}

/// In the round through the vocabulary the word at `place` occurs once in
/// every ten words, first at `place`.
pub proof fn lemma_sample_occurrences(size: nat, place: int)
    requires
        0 <= place < 10,
    ensures
        occurrences(sample_words(size), vocabulary(place)) == (size + 9 - place) / 10,
    decreases size,
{
    if size > 0 {
        let shorter = sample_words((size - 1) as nat);
        let last = vocabulary(((size - 1) % 10) as int);
        lemma_sample_occurrences((size - 1) as nat, place);
        assert(sample_words(size) =~= shorter.push(last));
        lemma_occurrences_push(shorter, last, vocabulary(place));
        lemma_vocabulary_distinct();
        assert(vocabulary_index(last) == Some(((size - 1) % 10) as usize));
        assert(vocabulary_index(vocabulary(place)) == Some(place as usize));
    }
}

/// A sample text of ten words, or twenty, or any multiple of ten but none,
/// gets the short report, and in it every word of the vocabulary has the
/// same count.
pub proof fn lemma_sample_is_even(size: nat)
    requires
        size > 0,
        size % 10 == 0,
    ensures
        takes_shortcut(sample_text(size)),
        vocabulary_in_rank_order(words(sample_text(size))),
        forall|place: int|
            0 <= place < 10 ==> occurrences(words(sample_text(size)), #[trigger] vocabulary(place))
                == size / 10,
{
    lemma_sample_words(size);
    lemma_vocabulary_distinct();
    let ws = sample_words(size);
    assert forall|place: int| 0 <= place < 10 implies occurrences(ws, #[trigger] vocabulary(place))
        == size / 10 by {
        lemma_sample_occurrences(size, place);
    }
    assert forall|i: int| 0 <= i < ws.len() implies vocabulary_index(#[trigger] ws[i]) is Some by {
        assert(vocabulary_index(vocabulary(i % 10)) == Some((i % 10) as usize));
    }
    assert(hot_only(ws));
    assert forall|rank: int| 0 <= rank < 9 implies occurrences(
        ws,
        vocabulary(#[trigger] alphabetical_place(rank)),
    ) >= occurrences(ws, vocabulary(alphabetical_place(rank + 1))) by {
        assert(occurrences(ws, vocabulary(alphabetical_place(rank))) == size / 10);
        assert(occurrences(ws, vocabulary(alphabetical_place(rank + 1))) == size / 10);
    }
    assert(occurrences(ws, vocabulary(alphabetical_place(9))) == size / 10);
}

/// On a sample text of a multiple of ten words the two analyzers return
/// the same record, but for the time taken: ten words, each as often as
/// every other.
pub proof fn law_analyzers_agree_on_sample(size: nat, fast: Summary, slow: Summary)
    requires
        size > 0,
        size % 10 == 0,
        fast_summary(sample_text(size), fast),
        slow_summary(sample_text(size), slow),
    ensures
        fast == slow,
        fast.word_count == 10,
        forall|i: int| 0 <= i < 10 ==> (#[trigger] fast.top_words[i]).1 == size / 10,
{
    let text = sample_text(size);
    lemma_sample_is_even(size);
    lemma_sample_words(size);
    law_same_words_in_plain_text(text);
    law_analyzers_agree(text, fast, slow);
    assert forall|i: int| 0 <= i < 10 implies (#[trigger] fast.top_words[i]).1 == size / 10 by {
        assert(occurrences(words(text), vocabulary(alphabetical_place(i))) == size / 10);
    }
}

} // verus!
