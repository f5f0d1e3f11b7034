//! The optimized analyzer. It picks one of three scanners by the shape of
//! the text, and reports a text made of vocabulary words alone without
//! building a frequency list or ranking anything.

use vstd::prelude::*;
use vstd::utf8::is_ascii_chars;
use std::time::Instant;
use crate::order::outranks;
use crate::ranking::{entry_views, is_leading, outranked_by_all};
use crate::report::{lemma_tabulated_summary, lists_word, rank_entries, tabulates};
use crate::scan::{
    is_simple_lower_ascii, scan_ascii, scan_lower_ascii, scan_unicode, table_counts_words,
};
use crate::stats::{
    measured, ranked_summary, with_lengths, Summary, TextStats, LONGEST_WORDS, TOP_WORDS,
};
use crate::table::{count_in, holds_word, table_counts, table_into_entries, WordTable};
use crate::tally::{has_other_word, Tally};
use crate::tokens::{lemma_occurrences_contains, letter_count, occurrences, words};
use crate::vocabulary::{
    alphabetical, alphabetical_place, by_length, lemma_length_order, lemma_length_rank,
    lemma_vocabulary_distinct, lemma_vocabulary_index, length_place, length_rank, sized_word,
    vocabulary, vocabulary_index, vocabulary_word, VOCABULARY_SIZE,
};

verus! {

/// `ws` has words, and all of them are in the fixed vocabulary.
pub open spec fn hot_only(ws: Seq<Seq<char>>) -> bool {
    &&& ws.len() > 0
    &&& forall|i: int| 0 <= i < ws.len() ==> vocabulary_index(#[trigger] ws[i]) is Some
}

/// The ten words of the vocabulary in alphabetical order, each with the
/// number of its occurrences in `ws`, which may be zero.
pub open spec fn alphabetical_counts(ws: Seq<Seq<char>>) -> Seq<(Seq<char>, nat)> {
    Seq::new(
        10,
        |rank: int|
            (
                vocabulary(alphabetical_place(rank)),
                occurrences(ws, vocabulary(alphabetical_place(rank))),
            ),
    )
}

/// `s` is the short report on words `ws` that are all of the vocabulary:
/// ten for the number of words, all ten words in alphabetical order with
/// their counts, and the first five by length of those that occur.
pub open spec fn shortcut_summary(ws: Seq<Seq<char>>, letters: nat, s: Summary) -> bool {
    &&& s.word_count == VOCABULARY_SIZE
    &&& s.char_count == letters
    &&& s.top_words == alphabetical_counts(ws)
    &&& is_leading(with_lengths(s.longest_words), measured(ws), LONGEST_WORDS as nat)
}

/// What a tally of the words `ws` is reported as.
pub open spec fn tally_summary(ws: Seq<Seq<char>>, letters: nat, s: Summary) -> bool {
    if hot_only(ws) {
        shortcut_summary(ws, letters, s)
    } else {
        ranked_summary(ws, letters, s)
    }
}

/// `text` gets the short report: it is ASCII, has words, and all of them
/// are in the fixed vocabulary.
pub open spec fn takes_shortcut(text: Seq<char>) -> bool {
    is_ascii_chars(text) && hot_only(words(text))
}

/// `s` is what the optimized analyzer reports of `text`.
pub open spec fn fast_summary(text: Seq<char>, s: Summary) -> bool {
    if takes_shortcut(text) {
        shortcut_summary(words(text), letter_count(text), s)
    } else {
        ranked_summary(words(text), letter_count(text), s)
    }
}

/// The characters of `word`.
pub fn letters_of(word: &str) -> (letters: Vec<char>)
    ensures
        letters@ == word@,
{
    let mut letters: Vec<char> = Vec::new();
    for c in it: word.chars()
        invariant
            it.seq() == word@,
            letters@ == word@.take(it.index() as int),
    {
        letters.push(c);
        assert(word@.take(it.index() + 1) =~= word@.take(it.index() as int).push(c));
    }
    assert(word@.take(word@.len() as int) =~= word@);
    letters
}

/// Decides whether any counter of the vocabulary is above zero.
fn any_count(hot: &[usize; 10]) -> (yes: bool)
    ensures
        yes == exists|i: int| 0 <= i < 10 && #[trigger] hot@[i] > 0,
{
    let mut i: usize = 0;
    while i < 10
        invariant
            i <= 10,
            forall|j: int| 0 <= j < i ==> #[trigger] hot@[j] == 0,
        decreases 10 - i,
    {
        if hot[i] > 0 {
            return true;
        }
        i = i + 1;
    }
    false
}

/// The ten words of the vocabulary in alphabetical order, each with its
/// counter.
pub open spec fn alphabetical_counters(hot: Seq<usize>) -> Seq<(Seq<char>, nat)> {
    Seq::new(
        10,
        |rank: int| (vocabulary(alphabetical_place(rank)), hot[alphabetical_place(rank)] as nat),
    )
}

/// The words of the vocabulary whose counter is above zero, each with the
/// number of its characters.
pub open spec fn counted_words(hot: Seq<usize>) -> Set<(Seq<char>, nat)> {
    Set::new(|e: (Seq<char>, nat)| has_counter(hot, e))
}

/// `e` is a word of the vocabulary with its length, and its counter is
/// above zero.
pub open spec fn has_counter(hot: Seq<usize>, e: (Seq<char>, nat)) -> bool {
    exists|place: int| 0 <= place < 10 && hot[place] > 0 && e == #[trigger] sized_word(place)
}

/// The short report on the counters of the vocabulary: no frequency list,
/// no ranking. The ten words are listed in their fixed alphabetical order
/// with the counts they have, and the fixed order by length is walked for
/// the first five whose count is above zero. The time is left at zero.
pub fn short_report(hot: &[usize; 10], letters: usize) -> (stats: TextStats)
    ensures
        stats.word_count == VOCABULARY_SIZE,
        stats.char_count == letters,
        stats.time_ns == 0,
        stats@.top_words == alphabetical_counters(hot@),
        is_leading(
            with_lengths(stats@.longest_words),
            counted_words(hot@),
            LONGEST_WORDS as nat,
        ),
{
    let mut top_words: Vec<(String, usize)> = Vec::with_capacity(10);
    let mut rank: usize = 0;
    while rank < 10
        invariant
            rank <= 10,
            top_words.len() == rank,
            forall|k: int|
                0 <= k < rank ==> (#[trigger] top_words[k]).0@ == vocabulary(alphabetical_place(k))
                    && top_words[k].1 == hot@[alphabetical_place(k)],
        decreases 10 - rank,
    {
        let place = alphabetical(rank);
        top_words.push((vocabulary_word(place).to_owned(), hot[place]));
        rank = rank + 1;
    }
    let mut longest_words: Vec<String> = Vec::with_capacity(5);
    let ghost mut picked: Seq<int> = Seq::empty();
    let mut rank: usize = 0;
    while rank < 10 && longest_words.len() < 5
        invariant
            rank <= 10,
            longest_words.len() == picked.len(),
            picked.len() <= 5,
            forall|j: int|
                0 <= j < picked.len() ==> 0 <= #[trigger] picked[j] < rank && hot@[length_place(
                    picked[j],
                )] > 0 && longest_words[j]@ == vocabulary(length_place(picked[j])),
            forall|j: int, k: int|
                0 <= j < k < picked.len() ==> #[trigger] picked[j] < #[trigger] picked[k],
            forall|q: int|
                0 <= q < rank && hot@[#[trigger] length_place(q)] > 0 ==> picked.contains(q),
        decreases 10 - rank,
    {
        let place = by_length(rank);
        if hot[place] > 0 {
            longest_words.push(vocabulary_word(place).to_owned());
            proof {
                let before = picked;
                picked = picked.push(rank as int);
                assert forall|q: int|
                    0 <= q < rank + 1 && hot@[#[trigger] length_place(q)]
                        > 0 implies picked.contains(q) by {
                    if q < rank {
                        assert(before.contains(q));
                        let j = choose|j: int| 0 <= j < before.len() && before[j] == q;
                        assert(picked[j] == q);
                    } else {
                        assert(picked[before.len() as int] == q);
                    }
                }
            }
        }
        rank = rank + 1;
    }
    let stats = TextStats {
        word_count: VOCABULARY_SIZE,
        char_count: letters,
        top_words,
        longest_words,
        time_ns: 0,
    };
    proof {
        assert(stats@.top_words =~= alphabetical_counters(hot@));
        let out = with_lengths(stats@.longest_words);
        let pool = counted_words(hot@);
        assert forall|j: int| 0 <= j < out.len() implies #[trigger] out[j] == sized_word(
            length_place(picked[j]),
        ) by {}
        assert forall|i: int| 0 <= i < out.len() implies pool.contains(#[trigger] out[i]) by {
            assert(out[i] == sized_word(length_place(picked[i])));
            assert(has_counter(hot@, out[i]));
        }
        assert forall|i: int, j: int| 0 <= i < j < out.len() implies outranks(
            #[trigger] out[i],
            #[trigger] out[j],
        ) by {
            assert(picked[i] < picked[j]);
            lemma_length_order(picked[i], picked[j]);
        }
        assert forall|e: (Seq<char>, nat)| #[trigger] pool.contains(e) implies out.contains(e) || (
        out.len() == LONGEST_WORDS as nat && outranked_by_all(out, e)) by {
            assert(has_counter(hot@, e));
            let place = choose|place: int|
                0 <= place < 10 && hot@[place] > 0 && e == #[trigger] sized_word(place);
            lemma_length_rank(place);
            let q = length_rank(place);
            if q < rank {
                assert(hot@[length_place(q)] > 0);
                assert(picked.contains(q));
                let j = choose|j: int| 0 <= j < picked.len() && picked[j] == q;
                assert(out[j] == e);
            } else {
                assert forall|i: int| 0 <= i < out.len() implies outranks(
                    #[trigger] out[i],
                    e,
                ) by {
                    assert(picked[i] < rank);
                    lemma_length_order(picked[i], q);
                }
            }
        }
    }
    stats
}

/// Where the counters hold the occurrences in `ws` and every word of `ws`
/// is of the vocabulary, the short report on the counters is the short
/// report on `ws`.
pub proof fn lemma_short_report(hot: Seq<usize>, ws: Seq<Seq<char>>, letters: nat, s: Summary)
    requires
        forall|i: int| 0 <= i < 10 ==> #[trigger] hot[i] == occurrences(ws, vocabulary(i)),
        forall|word: Seq<char>| #[trigger]
            occurrences(ws, word) > 0 ==> vocabulary_index(word) is Some,
        s.word_count == VOCABULARY_SIZE,
        s.char_count == letters,
        s.top_words == alphabetical_counters(hot),
        is_leading(with_lengths(s.longest_words), counted_words(hot), LONGEST_WORDS as nat),
    ensures
        shortcut_summary(ws, letters, s),
{
    assert(alphabetical_counters(hot) =~= alphabetical_counts(ws));
    assert forall|e: (Seq<char>, nat)| counted_words(hot).contains(e) <==> measured(ws).contains(
        e,
    ) by {
        if counted_words(hot).contains(e) {
            assert(has_counter(hot, e));
        }
        if measured(ws).contains(e) {
            lemma_vocabulary_index(e.0);
            let place = vocabulary_index(e.0)->0 as int;
            assert(e == sized_word(place));
            assert(has_counter(hot, e));
        }
    }
    assert(counted_words(hot) =~= measured(ws));
}

/// The frequency list of a tally that has a table: the words of the
/// vocabulary that occur, then whatever the table holds.
fn merged_entries(tally: Tally, Ghost(ws): Ghost<Seq<Seq<char>>>) -> (entries: Vec<
    (Vec<char>, usize),
>)
    requires
        tally.counts(ws),
    ensures
        tabulates(entry_views(entries@), ws),
{
    proof {
        lemma_vocabulary_distinct();
        assert forall|i: int| 0 <= i < 10 implies #[trigger] tally.hot@[i] == occurrences(
            ws,
            vocabulary(i),
        ) by {
            assert(tally.count(vocabulary(i)) == occurrences(ws, vocabulary(i)));
        }
    }
    let mut entries: Vec<(Vec<char>, usize)> = Vec::with_capacity(18);
    let mut place: usize = 0;
    while place < 10
        invariant
            place <= 10,
            forall|i: int|
                0 <= i < 10 ==> #[trigger] tally.hot@[i] == occurrences(ws, vocabulary(i)),
            forall|i: int| 0 <= i < 10 ==> vocabulary_index(#[trigger] vocabulary(i)) == Some(i as usize),
            forall|k: int|
                0 <= k < entries.len() ==> {
                    let at = vocabulary_index((#[trigger] entries[k]).0@);
                    &&& at is Some
                    &&& at->0 < place
                    &&& entries[k].1 > 0
                    &&& entries[k].1 == occurrences(ws, entries[k].0@)
                },
            forall|j: int, k: int|
                0 <= j < k < entries.len() ==> vocabulary_index((#[trigger] entries[j]).0@)->0
                    < vocabulary_index((#[trigger] entries[k]).0@)->0,
            forall|i: int|
                0 <= i < place && tally.hot@[i] > 0 ==> holds_word(entries@, #[trigger] vocabulary(i)),
        decreases 10 - place,
    {
        if tally.hot[place] > 0 {
            let ghost before = entries@;
            entries.push((letters_of(vocabulary_word(place)), tally.hot[place]));
            proof {
                assert forall|i: int| 0 <= i < place + 1 && tally.hot@[i] > 0 implies holds_word(
                    entries@,
                    #[trigger] vocabulary(i),
                ) by {
                    if i < place {
                        assert(holds_word(before, vocabulary(i)));
                        let k = choose|k: int|
                            0 <= k < before.len() && (#[trigger] before[k]).0@ == vocabulary(i);
                        assert(entries@[k].0@ == vocabulary(i));
                    } else {
                        assert(entries@[before.len() as int].0@ == vocabulary(i));
                    }
                }
            }
        }
        place = place + 1;
    }
    let ghost first = entries@;
    match tally.table {
        Some(table) => {
            let ghost held = table_counts(table);
            let mut rest = table_into_entries(table);
            let ghost second = rest@;
            entries.append(&mut rest);
            proof {
                let list = entry_views(entries@);
                assert(tally.extra() == held);
                assert forall|k: int| 0 <= k < second.len() implies vocabulary_index(
                    (#[trigger] second[k]).0@,
                ) is None && second[k].1 > 0 && second[k].1 == occurrences(ws, second[k].0@) by {
                    let e = second[k];
                    assert(held.contains_pair(e.0@, e.1));
                    assert(tally.extra().contains_key(e.0@));
                    assert(tally.count(e.0@) == occurrences(ws, e.0@));
                }
                assert forall|k: int| 0 <= k < list.len() implies (if k < first.len() {
                    #[trigger] list[k] == entry_views(first)[k]
                } else {
                    list[k] == entry_views(second)[k - first.len()]
                }) by {}
                assert forall|i: int, j: int| 0 <= i < j < list.len() implies (#[trigger] list[i]).0
                    != (#[trigger] list[j]).0 by {
                    if j < first.len() {
                        assert(vocabulary_index(first[i].0@)->0 < vocabulary_index(first[j].0@)->0);
                    } else if i < first.len() {
                        assert(vocabulary_index(first[i].0@) is Some);
                        assert(vocabulary_index(second[j - first.len()].0@) is None);
                    } else {
                        assert(entry_views(second)[i - first.len()].0 != entry_views(second)[j
                            - first.len()].0);
                    }
                }
                assert forall|i: int| 0 <= i < list.len() implies (#[trigger] list[i]).1 > 0
                    && list[i].1 == occurrences(ws, list[i].0) by {
                    if i >= first.len() {
                        assert(second[i - first.len()].1 > 0);
                    } else {
                        assert(first[i].1 > 0);
                    }
                }
                assert forall|word: Seq<char>| #[trigger] occurrences(ws, word) > 0 implies lists_word(
                    list,
                    word,
                ) by {
                    assert(tally.count(word) == occurrences(ws, word));
                    lemma_vocabulary_index(word);
                    if vocabulary_index(word) is Some {
                        let i = vocabulary_index(word)->0 as int;
                        assert(holds_word(first, vocabulary(i)));
                        let k = choose|k: int|
                            0 <= k < first.len() && (#[trigger] first[k]).0@ == vocabulary(i);
                        assert(list[k].0 == word);
                    } else {
                        assert(held.contains_key(word));
                        assert(holds_word(second, word));
                        let k = choose|k: int|
                            0 <= k < second.len() && (#[trigger] second[k]).0@ == word;
                        assert(list[first.len() + k].0 == word);
                    }
                }
            }
        },
        None => {
            proof {
                let list = entry_views(entries@);
                assert forall|i: int, j: int| 0 <= i < j < list.len() implies (#[trigger] list[i]).0
                    != (#[trigger] list[j]).0 by {
                    assert(vocabulary_index(first[i].0@)->0 < vocabulary_index(first[j].0@)->0);
                }
                assert forall|word: Seq<char>| #[trigger] occurrences(ws, word) > 0 implies lists_word(
                    list,
                    word,
                ) by {
                    assert(tally.count(word) == occurrences(ws, word));
                    lemma_vocabulary_index(word);
                    let i = vocabulary_index(word)->0 as int;
                    assert(holds_word(first, vocabulary(i)));
                    let k = choose|k: int|
                        0 <= k < first.len() && (#[trigger] first[k]).0@ == vocabulary(i);
                    assert(list[k].0 == word);
                }
            }
        },
    }
    entries
}

/// Reports a tally of the words `ws`: the short report where all words are
/// of the vocabulary, and otherwise the record ranked from the merged
/// frequency list. A tally of no words gives the empty record.
pub(crate) fn summarise(
    tally: Tally,
    letters: usize,
    Ghost(ws): Ghost<Seq<Seq<char>>>,
) -> (stats: TextStats)
    requires
        tally.counts(ws),
    ensures
        tally_summary(ws, letters as nat, stats@),
        stats.time_ns == 0,
{
    proof {
        lemma_vocabulary_distinct();
        assert forall|i: int| 0 <= i < 10 implies #[trigger] tally.hot@[i] == occurrences(
            ws,
            vocabulary(i),
        ) by {
            assert(tally.count(vocabulary(i)) == occurrences(ws, vocabulary(i)));
        }
        assert forall|i: int| 0 <= i < ws.len() implies occurrences(ws, #[trigger] ws[i]) > 0 by {
            lemma_occurrences_contains(ws, ws[i]);
        }
        if ws.len() > 0 {
            assert(occurrences(ws, ws[0]) > 0);
        }
    }
    if tally.table.is_none() && any_count(&tally.hot) {
        proof {
            assert forall|word: Seq<char>| #[trigger] occurrences(ws, word) > 0 implies vocabulary_index(
                word,
            ) is Some by {
                assert(tally.count(word) == occurrences(ws, word));
            }
            let i = choose|i: int| 0 <= i < 10 && #[trigger] tally.hot@[i] > 0;
            lemma_occurrences_contains(ws, vocabulary(i));
            assert(hot_only(ws));
        }
        let stats = short_report(&tally.hot, letters);
        proof {
            lemma_short_report(tally.hot@, ws, letters as nat, stats@);
        }
        stats
    } else {
        proof {
            if tally.table is None {
                if ws.len() > 0 {
                    assert(tally.count(ws[0]) == occurrences(ws, ws[0]));
                    lemma_vocabulary_index(ws[0]);
                    assert(tally.hot@[vocabulary_index(ws[0])->0 as int] > 0);
                }
                assert(!hot_only(ws));
            } else {
                assert(has_other_word(ws));
                assert(!hot_only(ws));
            }
        }
        let entries = merged_entries(tally, Ghost(ws));
        let stats = rank_entries(&entries, letters);
        proof {
            lemma_tabulated_summary(entry_views(entries@), ws, letters as nat, stats@);
        }
        stats
    }
}

/// Reports the words that a table has counted: the record ranked from what
/// the table holds.
pub(crate) fn summarise_table(
    table: WordTable,
    letters: usize,
    Ghost(ws): Ghost<Seq<Seq<char>>>,
) -> (stats: TextStats)
    requires
        table_counts_words(table_counts(table), ws),
    ensures
        ranked_summary(ws, letters as nat, stats@),
        stats.time_ns == 0,
{
    let ghost held = table_counts(table);
    let entries = table_into_entries(table);
    proof {
        let list = entry_views(entries@);
        assert forall|i: int| 0 <= i < list.len() implies (#[trigger] list[i]).1 > 0 && list[i].1
            == occurrences(ws, list[i].0) by {
            assert(held.contains_pair(entries[i].0@, entries[i].1));
            assert(held.contains_key(entries[i].0@));
            assert(count_in(held, entries[i].0@) == occurrences(ws, entries[i].0@));
        }
        assert forall|word: Seq<char>| #[trigger] occurrences(ws, word) > 0 implies lists_word(
            list,
            word,
        ) by {
            assert(count_in(held, word) == occurrences(ws, word));
            assert(held.contains_key(word));
            assert(holds_word(entries@, word));
            let k = choose|k: int| 0 <= k < entries.len() && (#[trigger] entries[k]).0@ == word;
            assert(list[k].0 == word);
        }
    }
    let stats = rank_entries(&entries, letters);
    proof {
        lemma_tabulated_summary(entry_views(entries@), ws, letters as nat, stats@);
    }
    stats
}

/// Analyzes `text` by the scanner that fits it: the Unicode scanner where
/// a character lies outside ASCII, the lowercase scanner where the text is
/// small letters and spaces alone, and the generic ASCII scanner
/// otherwise. The record is the same whichever scanner ran, but for one
/// thing: an ASCII text whose words are all of the fixed vocabulary gets
/// the short report. The time spent is recorded in `time_ns`.
pub fn analyze_text_fast(text: &str) -> (stats: TextStats)
    ensures
        fast_summary(text@, stats@),
        stats.char_count == letter_count(text@),
        stats.top_words.len() <= TOP_WORDS,
        stats.longest_words.len() <= LONGEST_WORDS,
{
    let start = Instant::now();
    let mut stats = if !text.is_ascii() {
        let found = scan_unicode(text);
        summarise_table(found.0, found.1, Ghost(words(text@)))
    } else if is_simple_lower_ascii(text) {
        let found = scan_lower_ascii(text);
        summarise(found.0, found.1, Ghost(words(text@)))
    } else {
        let found = scan_ascii(text);
        summarise(found.0, found.1, Ghost(words(text@)))
    };
    stats.time_ns = start.elapsed().as_nanos();
    assert(stats@.top_words.len() == stats.top_words.len());
    assert(with_lengths(stats@.longest_words).len() == stats.longest_words.len());
    stats
}

} // verus!
