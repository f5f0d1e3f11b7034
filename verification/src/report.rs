//! From a list of distinct words with their counts to the record.

use vstd::prelude::*;
use crate::ranking::{
    chosen, distinct_words, entry_views, is_leading, leading_entries, weighed_by_length,
};
use crate::stats::{
    counted, measured, ranked_summary, with_lengths, Summary, TextStats, LONGEST_WORDS, TOP_WORDS,
};
use crate::tokens::{lemma_occurrences_contains, occurrences};

verus! {

/// `String::push`. Trusted: the string grows by the one character.
pub assume_specification[ String::push ](text: &mut String, ch: char)
    ensures
        final(text)@ == old(text)@.push(ch),
;

/// `list` has an entry for `word`.
pub open spec fn lists_word(list: Seq<(Seq<char>, nat)>, word: Seq<char>) -> bool {
    exists|i: int| 0 <= i < list.len() && (#[trigger] list[i]).0 == word
}

/// `list` is a frequency list of `ws`: one entry for each word that occurs
/// in `ws`, weighed by the number of its occurrences, and no other entry.
pub open spec fn tabulates(list: Seq<(Seq<char>, nat)>, ws: Seq<Seq<char>>) -> bool {
    &&& distinct_words(list)
    &&& forall|i: int|
        0 <= i < list.len() ==> (#[trigger] list[i]).1 > 0 && list[i].1 == occurrences(
            ws,
            list[i].0,
        )
    &&& forall|word: Seq<char>| #[trigger] occurrences(ws, word) > 0 ==> lists_word(list, word)
}

/// A frequency list of `ws` has as many entries as `ws` has distinct words,
/// and its entries are the pool from which the record's two lists lead.
pub proof fn lemma_tabulated_pools(list: Seq<(Seq<char>, nat)>, ws: Seq<Seq<char>>)
    requires
        tabulates(list, ws),
    ensures
        list.len() == ws.to_set().len(),
        list.to_set() == counted(ws),
        weighed_by_length(list).to_set() == measured(ws),
{
    assert forall|e: (Seq<char>, nat)| list.to_set().contains(e) <==> counted(ws).contains(
        e,
    ) by {
        if list.to_set().contains(e) {
            assert(list.contains(e));
            let i = choose|i: int| 0 <= i < list.len() && list[i] == e;
            assert(list[i].1 > 0);
        }
        if counted(ws).contains(e) {
            assert(occurrences(ws, e.0) > 0);
            assert(lists_word(list, e.0));
            let i = choose|i: int| 0 <= i < list.len() && (#[trigger] list[i]).0 == e.0;
            assert(list[i] == e);
            assert(list.contains(e));
        }
    }
    assert(list.to_set() =~= counted(ws));
    let sized = weighed_by_length(list);
    assert forall|e: (Seq<char>, nat)| sized.to_set().contains(e) <==> measured(ws).contains(
        e,
    ) by {
        if sized.to_set().contains(e) {
            assert(sized.contains(e));
            let i = choose|i: int| 0 <= i < sized.len() && sized[i] == e;
            assert(list[i].1 > 0);
        }
        if measured(ws).contains(e) {
            assert(lists_word(list, e.0));
            let i = choose|i: int| 0 <= i < list.len() && (#[trigger] list[i]).0 == e.0;
            assert(sized[i] == e);
            assert(sized.contains(e));
        }
    }
    assert(sized.to_set() =~= measured(ws));
    let spelled = Seq::new(list.len(), |i: int| list[i].0);
    assert(spelled.no_duplicates()) by {
        assert forall|i: int, j: int|
            0 <= i < spelled.len() && 0 <= j < spelled.len() && i != j implies spelled[i]
            != spelled[j] by {
            if i < j {
                assert(list[i].0 != list[j].0);
            } else {
                assert(list[j].0 != list[i].0);
            }
        }
    }
    assert forall|word: Seq<char>| spelled.to_set().contains(word) <==> ws.to_set().contains(
        word,
    ) by {
        lemma_occurrences_contains(ws, word);
        if spelled.to_set().contains(word) {
            assert(spelled.contains(word));
            let i = choose|i: int| 0 <= i < spelled.len() && spelled[i] == word;
            assert(list[i].1 > 0);
        }
        if ws.to_set().contains(word) {
            assert(ws.contains(word));
            assert(lists_word(list, word));
            let i = choose|i: int| 0 <= i < list.len() && (#[trigger] list[i]).0 == word;
            assert(spelled[i] == word);
            assert(spelled.contains(word));
        }
    }
    assert(spelled.to_set() =~= ws.to_set());
    spelled.unique_seq_to_set();
}

/// The word `word` as a string.
pub fn spell(word: &Vec<char>) -> (text: String)
    ensures
        text@ == word@,
{
    let mut text = String::new();
    let mut k: usize = 0;
    while k < word.len()
        invariant
            k <= word.len(),
            text@ == word@.take(k as int),
        decreases word.len() - k,
    {
        text.push(word[k]);
        k = k + 1;
        assert(word@.take(k as int) =~= word@.take(k - 1).push(word@[k - 1]));
    }
    assert(word@.take(word.len() as int) =~= word@);
    text
}

/// Builds the record from a list of words with their counts and the places
/// picked for its two lists. The time is left at zero.
pub fn compile_record(
    entries: &Vec<(Vec<char>, usize)>,
    most: &Vec<usize>,
    longest: &Vec<usize>,
    letters: usize,
) -> (stats: TextStats)
    requires
        forall|k: int| 0 <= k < most.len() ==> #[trigger] most[k] < entries.len(),
        forall|k: int| 0 <= k < longest.len() ==> #[trigger] longest[k] < entries.len(),
    ensures
        stats.word_count == entries.len(),
        stats.char_count == letters,
        stats.time_ns == 0,
        stats.top_words.len() == most.len(),
        stats.longest_words.len() == longest.len(),
        stats@.top_words == chosen(entry_views(entries@), most@),
        with_lengths(stats@.longest_words) == chosen(
            weighed_by_length(entry_views(entries@)),
            longest@,
        ),
{
    let mut top_words: Vec<(String, usize)> = Vec::new();
    let mut j: usize = 0;
    while j < most.len()
        invariant
            j <= most.len(),
            top_words.len() == j,
            forall|k: int| 0 <= k < most.len() ==> #[trigger] most[k] < entries.len(),
            forall|k: int|
                0 <= k < j ==> (#[trigger] top_words[k]).0@ == entries[most[k] as int].0@
                    && top_words[k].1 == entries[most[k] as int].1,
        decreases most.len() - j,
    {
        let place = most[j];
        top_words.push((spell(&entries[place].0), entries[place].1));
        j = j + 1;
    }
    let mut longest_words: Vec<String> = Vec::new();
    let mut j: usize = 0;
    while j < longest.len()
        invariant
            j <= longest.len(),
            longest_words.len() == j,
            forall|k: int| 0 <= k < longest.len() ==> #[trigger] longest[k] < entries.len(),
            forall|k: int|
                0 <= k < j ==> (#[trigger] longest_words[k])@ == entries[longest[k] as int].0@,
        decreases longest.len() - j,
    {
        let place = longest[j];
        longest_words.push(spell(&entries[place].0));
        j = j + 1;
    }
    let stats = TextStats {
        word_count: entries.len(),
        char_count: letters,
        top_words,
        longest_words,
        time_ns: 0,
    };
    assert(stats@.top_words =~= chosen(entry_views(entries@), most@));
    assert(with_lengths(stats@.longest_words) =~= chosen(
        weighed_by_length(entry_views(entries@)),
        longest@,
    ));
    stats
}

/// Builds the record from a list of distinct words with their counts: the
/// number of entries, the first ten by count and the first five by length.
/// The time is left at zero.
pub fn rank_entries(entries: &Vec<(Vec<char>, usize)>, letters: usize) -> (stats: TextStats)
    requires
        distinct_words(entry_views(entries@)),
    ensures
        stats.word_count == entries.len(),
        stats.char_count == letters,
        stats.time_ns == 0,
        stats.top_words.len() <= TOP_WORDS,
        stats.longest_words.len() <= LONGEST_WORDS,
        is_leading(stats@.top_words, entry_views(entries@).to_set(), TOP_WORDS as nat),
        is_leading(
            with_lengths(stats@.longest_words),
            weighed_by_length(entry_views(entries@)).to_set(),
            LONGEST_WORDS as nat,
        ),
{
    let most = leading_entries(entries, TOP_WORDS, false);
    let longest = leading_entries(entries, LONGEST_WORDS, true);
    compile_record(entries, &most, &longest, letters)
}

/// The record built from a frequency list of `ws` is the summary of `ws`.
pub proof fn lemma_tabulated_summary(
    list: Seq<(Seq<char>, nat)>,
    ws: Seq<Seq<char>>,
    letters: nat,
    s: Summary,
)
    requires
        tabulates(list, ws),
        s.word_count == list.len(),
        s.char_count == letters,
        is_leading(s.top_words, list.to_set(), TOP_WORDS as nat),
        is_leading(
            with_lengths(s.longest_words),
            weighed_by_length(list).to_set(),
            LONGEST_WORDS as nat,
        ),
    ensures
        ranked_summary(ws, letters, s),
{
    lemma_tabulated_pools(list, ws);
}

} // verus!
