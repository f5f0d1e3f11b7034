//! The three scanners. Each reads a text once and counts its words and its
//! letters; they differ in the texts they are made for.

use vstd::prelude::*;
use vstd::string::is_ascii;
use vstd::utf8::{encode_scalar, encode_utf8, is_ascii_chars};
use crate::letters::{byte_chars, fold_letter_byte, folded, is_letter_char, push_folded};
use crate::table::{bump, count_in, table_counts, table_new, WordTable, CAPACITY_LIMIT};
use crate::tally::Tally;
use crate::tokens::{
    finished_words, lemma_letter_count_bound, lemma_occurrences_bound, lemma_occurrences_push,
    lemma_scan_end, lemma_scan_start, lemma_scan_step, lemma_words_bound, letter_count,
    occurrences, trailing_word, words,
};

verus! {

/// Every character of `text` is a space or a small ASCII letter.
pub open spec fn is_plain_lowercase(text: Seq<char>) -> bool {
    forall|i: int| 0 <= i < text.len() ==> #[trigger] text[i] == ' ' || ('a' <= text[i] && text[i] <= 'z')
}

/// The room to make for a frequency table when scanning `size` bytes: one
/// word for every 64 bytes, up to the limit on a table's first capacity.
pub fn capacity_hint(size: usize) -> (hint: usize)
    ensures
        hint == if size / 64 <= CAPACITY_LIMIT {
            size / 64
        } else {
            CAPACITY_LIMIT
        },
{
    let wanted = size / 64;
    if wanted <= CAPACITY_LIMIT {
        wanted
    } else {
        CAPACITY_LIMIT
    }
}

/// Decides whether `text` is made of spaces and small ASCII letters alone.
pub fn is_simple_lower_ascii(text: &str) -> (yes: bool)
    requires
        is_ascii(text),
    ensures
        yes == is_plain_lowercase(text@),
{
    broadcast use vstd::string::is_ascii_spec_bytes;

    let bytes = text.as_bytes();
    assert(bytes@ =~= Seq::new(text@.len(), |i: int| text@[i] as u8));
    let mut i: usize = 0;
    while i < bytes.len()
        invariant
            i <= bytes.len(),
            bytes@.len() == text@.len(),
            is_ascii_chars(text@),
            forall|j: int| 0 <= j < text@.len() ==> bytes@[j] == text@[j] as u8,
            forall|j: int|
                0 <= j < i ==> #[trigger] text@[j] == ' ' || ('a' <= text@[j] && text@[j] <= 'z'),
        decreases bytes.len() - i,
    {
        let b = bytes[i];
        if !(b == 32 || (97 <= b && b <= 122)) {
            assert(!(text@[i as int] == ' ' || ('a' <= text@[i as int] && text@[i as int] <= 'z')));
            return false;
        }
        i = i + 1;
    }
    true
}

/// The generic ASCII scanner: every byte that is not a letter separates
/// words, and letters are folded to lowercase as they are read.
pub fn scan_ascii(text: &str) -> (found: (Tally, usize))
    requires
        is_ascii(text),
    ensures
        found.0.counts(words(text@)),
        found.1 == letter_count(text@),
{
    broadcast use vstd::string::is_ascii_spec_bytes;

    let bytes = text.as_bytes();
    assert(bytes@ =~= Seq::new(text@.len(), |i: int| text@[i] as u8));
    let hint = capacity_hint(bytes.len());
    let mut tally = Tally::new();
    let mut letters: usize = 0;
    let mut token: Vec<u8> = Vec::with_capacity(32);
    let mut i: usize = 0;
    proof {
        lemma_scan_start(text@);
        assert(byte_chars(token@) =~= Seq::<char>::empty());
    }
    while i < bytes.len()
        invariant
            i <= bytes.len(),
            bytes@.len() == text@.len(),
            is_ascii_chars(text@),
            forall|j: int| 0 <= j < text@.len() ==> bytes@[j] == text@[j] as u8,
            hint <= CAPACITY_LIMIT,
            tally.counts(finished_words(text@.take(i as int))),
            letters == letter_count(text@.take(i as int)),
            byte_chars(token@) == trailing_word(text@.take(i as int)),
        decreases bytes.len() - i,
    {
        let b = bytes[i];
        proof {
            assert(text@[i as int] == b as char);
            lemma_scan_step(text@, i as int);
            lemma_letter_count_bound(text@.take(i + 1));
            lemma_words_bound(text@.take(i as int));
        }
        if (97 <= b && b <= 122) || (65 <= b && b <= 90) {
            let small = fold_letter_byte(b);
            letters = letters + 1;
            token.push(small);
            assert(byte_chars(token@) =~= trailing_word(text@.take(i as int)) + folded(
                text@[i as int],
            ));
        } else if token.len() > 0 {
            tally.record(&token, hint, Ghost(finished_words(text@.take(i as int))));
            token.clear();
            assert(byte_chars(token@) =~= Seq::<char>::empty());
        } else {
            assert(trailing_word(text@.take(i as int)).len() == 0);
        }
        i = i + 1;
    }
    proof {
        lemma_scan_end(text@);
        lemma_words_bound(text@);
    }
    if token.len() > 0 {
        tally.record(&token, hint, Ghost(finished_words(text@)));
    }
    (tally, letters)
}

/// The scanner for texts of spaces and small ASCII letters: a space ends a
/// word, and every other byte is taken into the word as it stands. The
/// token buffer starts with room for 32 bytes and grows for longer words.
pub fn scan_lower_ascii(text: &str) -> (found: (Tally, usize))
    requires
        is_ascii(text),
        is_plain_lowercase(text@),
    ensures
        found.0.counts(words(text@)),
        found.1 == letter_count(text@),
{
    broadcast use vstd::string::is_ascii_spec_bytes;

    let bytes = text.as_bytes();
    assert(bytes@ =~= Seq::new(text@.len(), |i: int| text@[i] as u8));
    let hint = capacity_hint(bytes.len());
    let mut tally = Tally::new();
    let mut letters: usize = 0;
    let mut token: Vec<u8> = Vec::with_capacity(32);
    let mut i: usize = 0;
    proof {
        lemma_scan_start(text@);
        assert(byte_chars(token@) =~= Seq::<char>::empty());
    }
    while i < bytes.len()
        invariant
            i <= bytes.len(),
            bytes@.len() == text@.len(),
            is_ascii_chars(text@),
            is_plain_lowercase(text@),
            forall|j: int| 0 <= j < text@.len() ==> bytes@[j] == text@[j] as u8,
            hint <= CAPACITY_LIMIT,
            tally.counts(finished_words(text@.take(i as int))),
            letters == letter_count(text@.take(i as int)),
            byte_chars(token@) == trailing_word(text@.take(i as int)),
        decreases bytes.len() - i,
    {
        let b = bytes[i];
        proof {
            assert(text@[i as int] == b as char);
            assert(text@[i as int] == ' ' || ('a' <= text@[i as int] && text@[i as int] <= 'z'));
            lemma_scan_step(text@, i as int);
            lemma_letter_count_bound(text@.take(i + 1));
            lemma_words_bound(text@.take(i as int));
        }
        if b == 32 {
            if token.len() > 0 {
                tally.record(&token, hint, Ghost(finished_words(text@.take(i as int))));
                token.clear();
                assert(byte_chars(token@) =~= Seq::<char>::empty());
            } else {
                assert(trailing_word(text@.take(i as int)).len() == 0);
            }
        } else {
            letters = letters + 1;
            token.push(b);
            assert(byte_chars(token@) =~= trailing_word(text@.take(i as int)) + folded(
                text@[i as int],
            ));
        }
        i = i + 1;
    }
    proof {
        lemma_scan_end(text@);
        lemma_words_bound(text@);
    }
    if token.len() > 0 {
        tally.record(&token, hint, Ghost(finished_words(text@)));
    }
    (tally, letters)
}

/// A text has no more characters than its UTF-8 encoding has bytes.
pub proof fn lemma_encoding_length(text: Seq<char>)
    ensures
        text.len() <= encode_utf8(text).len(),
    decreases text.len(),
{
    if text.len() > 0 {
        lemma_encoding_length(text.drop_first());
        assert(encode_scalar(text[0] as u32).len() >= 1);
    }
}

/// The word counts held by a table are those of `ws`, and none is zero.
pub open spec fn table_counts_words(counts: Map<Seq<char>, usize>, ws: Seq<Seq<char>>) -> bool {
    &&& forall|word: Seq<char>| #[trigger] count_in(counts, word) == occurrences(ws, word)
    &&& forall|word: Seq<char>| #[trigger] counts.contains_key(word) ==> counts[word] > 0
}

/// The scanner for any text: letters are told from separators by Unicode's
/// rules, each letter is folded to its full lowercase form, and every word
/// goes to the frequency table.
pub fn scan_unicode(text: &str) -> (found: (WordTable, usize))
    ensures
        table_counts_words(table_counts(found.0), words(text@)),
        found.1 == letter_count(text@),
{
    let size = text.as_bytes().len();
    proof {
        lemma_encoding_length(text@);
        lemma_scan_start(text@);
    }
    let mut table = table_new(0);
    let mut letters: usize = 0;
    let mut word: Vec<char> = Vec::new();
    for c in it: text.chars()
        invariant
            it.seq() == text@,
            text@.len() <= usize::MAX,
            table_counts_words(table_counts(table), finished_words(text@.take(it.index() as int))),
            letters == letter_count(text@.take(it.index() as int)),
            word@ == trailing_word(text@.take(it.index() as int)),
    {
        let ghost i = it.index() as int;
        proof {
            assert(c == text@[i]);
            lemma_scan_step(text@, i);
            lemma_letter_count_bound(text@.take(i + 1));
            lemma_words_bound(text@.take(i));
        }
        if is_letter_char(c) {
            letters = letters + 1;
            push_folded(&mut word, c);
        } else if word.len() > 0 {
            count_word(&mut table, &word, Ghost(finished_words(text@.take(i))));
            word.clear();
        }
    }
    proof {
        lemma_scan_end(text@);
        lemma_words_bound(text@);
    }
    if word.len() > 0 {
        count_word(&mut table, &word, Ghost(finished_words(text@)));
    }
    (table, letters)
}

/// Counts one more word in a table that holds the counts of `ws`.
fn count_word(table: &mut WordTable, word: &Vec<char>, Ghost(ws): Ghost<Seq<Seq<char>>>)
    requires
        table_counts_words(table_counts(*old(table)), ws),
        ws.len() < usize::MAX,
    ensures
        table_counts_words(table_counts(*final(table)), ws.push(word@)),
{
    proof {
        lemma_occurrences_bound(ws, word@);
        assert(count_in(table_counts(*table), word@) == occurrences(ws, word@));
    }
    bump(table, word);
    proof {
        assert forall|other: Seq<char>| #[trigger]
            count_in(table_counts(*table), other) == occurrences(ws.push(word@), other) by {
            lemma_occurrences_push(ws, word@, other);
            assert(count_in(table_counts(*old(table)), other) == occurrences(ws, other));
        }
    }
}

} // verus!
