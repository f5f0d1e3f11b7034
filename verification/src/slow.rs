//! The baseline analyzer: one way through for every text, a list in place
//! of a hash table, and a fresh scan of that list for every word it
//! reports.

use vstd::prelude::*;
use std::time::Instant;
use crate::letters::is_letter_char;
use crate::order::{lemma_outranks_total, lemma_outranks_transitive, outranks};
use crate::plain::{
    clean_piece, finished_plain_words, is_space_char, lemma_cleaned_empty,
    lemma_plain_words_bound, lemma_split_start, lemma_split_step, plain_words, trailing_piece,
};
use crate::ranking::{
    chosen, distinct_words, entry_outranks, entry_views, is_leading, lemma_settled_is_leading,
    lemma_weighed_keeps_words, picks, ranked_places, settled, weighed,
};
use crate::report::{compile_record, lemma_tabulated_summary, lists_word, tabulates};
use crate::scan::lemma_encoding_length;
use crate::stats::{ranked_summary, Summary, TextStats, LONGEST_WORDS, TOP_WORDS};
use crate::tokens::{
    lemma_letter_count_bound, lemma_occurrences_bound, lemma_occurrences_push, lemma_scan_end,
    lemma_scan_start, lemma_scan_step, letter_count, occurrences,
};

verus! {

/// `s` is what the baseline analyzer reports of `text`.
pub open spec fn slow_summary(text: Seq<char>, s: Summary) -> bool {
    ranked_summary(plain_words(text), letter_count(text), s)
}

/// Decides whether two words are the same.
pub fn same_word(a: &Vec<char>, b: &Vec<char>) -> (yes: bool)
    ensures
        yes == (a@ == b@),
{
    if a.len() != b.len() {
        return false;
    }
    let mut k: usize = 0;
    while k < a.len()
        invariant
            k <= a.len(),
            a.len() == b.len(),
            forall|j: int| 0 <= j < k ==> a@[j] == b@[j],
        decreases a.len() - k,
    {
        if a[k] != b[k] {
            return false;
        }
        k = k + 1;
    }
    assert(a@ =~= b@);
    true
}

/// Counts one more occurrence of `word` in a frequency list of `ws`: the
/// list is searched from its start, and the word is added at its end where
/// it is not found.
pub(crate) fn count_in_list(
    entries: &mut Vec<(Vec<char>, usize)>,
    word: Vec<char>,
    Ghost(ws): Ghost<Seq<Seq<char>>>,
)
    requires
        tabulates(entry_views(old(entries)@), ws),
        ws.len() < usize::MAX,
        word@.len() > 0,
    ensures
        tabulates(entry_views(final(entries)@), ws.push(word@)),
{
    let ghost before = entry_views(entries@);
    let ghost longer = ws.push(word@);
    proof {
        assert forall|other: Seq<char>|
            occurrences(longer, other) == occurrences(ws, other) + if word@ == other {
                1nat
            } else {
                0nat
            } by {
            lemma_occurrences_push(ws, word@, other);
        }
        lemma_occurrences_bound(ws, word@);
    }
    let mut k: usize = 0;
    while k < entries.len()
        invariant
            k <= entries.len(),
            entries@ == old(entries)@,
            before == entry_views(entries@),
            tabulates(before, ws),
            ws.len() < usize::MAX,
            longer == ws.push(word@),
            occurrences(ws, word@) <= ws.len(),
            forall|other: Seq<char>|
                occurrences(longer, other) == occurrences(ws, other) + if word@ == other {
                    1nat
                } else {
                    0nat
                },
            forall|j: int| 0 <= j < k ==> (#[trigger] entries@[j]).0@ != word@,
        decreases entries.len() - k,
    {
        if same_word(&entries[k].0, &word) {
            assert(before[k as int].1 == occurrences(ws, before[k as int].0));
            let held = entries[k].1;
            entries[k].1 = held + 1;
            proof {
                let after = entry_views(entries@);
                assert forall|i: int| 0 <= i < after.len() implies (#[trigger] after[i]).0
                    == before[i].0 && after[i].1 == occurrences(longer, after[i].0) by {
                    assert(before[i].1 == occurrences(ws, before[i].0));
                    if i != k {
                        if i < k {
                            assert(before[i].0 != before[k as int].0);
                        } else {
                            assert(before[k as int].0 != before[i].0);
                        }
                    }
                }
                assert forall|i: int, j: int| 0 <= i < j < after.len() implies (#[trigger] after[i]).0
                    != (#[trigger] after[j]).0 by {
                    assert(before[i].0 != before[j].0);
                }
                assert forall|other: Seq<char>| #[trigger] occurrences(longer, other) > 0 implies lists_word(
                    after,
                    other,
                ) by {
                    if other == word@ {
                        assert(after[k as int].0 == other);
                    } else {
                        assert(occurrences(ws, other) > 0);
                        assert(lists_word(before, other));
                        let i = choose|i: int| 0 <= i < before.len() && (#[trigger] before[i]).0 == other;
                        assert(after[i].0 == other);
                    }
                }
            }
            return ;
        }
        k = k + 1;
    }
    proof {
        if occurrences(ws, word@) > 0 {
            assert(lists_word(before, word@));
            let i = choose|i: int| 0 <= i < before.len() && (#[trigger] before[i]).0 == word@;
            assert(entries@[i].0@ == word@);
        }
    }
    entries.push((word, 1));
    proof {
        let after = entry_views(entries@);
        assert forall|i: int| 0 <= i < after.len() implies (#[trigger] after[i]).1 > 0 && after[i].1
            == occurrences(longer, after[i].0) by {
            if i < before.len() {
                assert(after[i] == before[i]);
                assert(before[i].1 == occurrences(ws, before[i].0));
                assert(entries@[i].0@ != word@);
            }
        }
        assert forall|i: int, j: int| 0 <= i < j < after.len() implies (#[trigger] after[i]).0 != (
        #[trigger] after[j]).0 by {
            assert(after[i] == before[i]);
            if j < before.len() {
                assert(after[j] == before[j]);
                assert(before[i].0 != before[j].0);
            } else {
                assert(entries@[i].0@ != word@);
            }
        }
        assert forall|other: Seq<char>| #[trigger] occurrences(longer, other) > 0 implies lists_word(
            after,
            other,
        ) by {
            if other == word@ {
                assert(after[before.len() as int].0 == other);
            } else {
                assert(occurrences(ws, other) > 0);
                assert(lists_word(before, other));
                let i = choose|i: int| 0 <= i < before.len() && (#[trigger] before[i]).0 == other;
                assert(after[i] == before[i]);
            }
        }
    }
}

/// Decides whether `place` is among the places picked so far.
fn is_picked(picked: &Vec<usize>, place: usize) -> (yes: bool)
    ensures
        yes == picks(picked@, place as int),
{
    let mut k: usize = 0;
    while k < picked.len()
        invariant
            k <= picked.len(),
            forall|j: int| 0 <= j < k ==> #[trigger] picked@[j] != place,
        decreases picked.len() - k,
    {
        if picked[k] == place {
            return true;
        }
        k = k + 1;
    }
    false
}

/// Picks the places of the leading entries of `entries`, at most `limit` of
/// them, in rank order. Entries are ranked by their own weight, or by the
/// length of their word where `by_length` is set.
///
/// One scan of all entries for every place picked: each scan finds the
/// entry that outranks all others not picked before.
pub fn select_by_scanning(
    entries: &Vec<(Vec<char>, usize)>,
    limit: usize,
    by_length: bool,
) -> (picked: Vec<usize>)
    requires
        distinct_words(entry_views(entries@)),
    ensures
        forall|j: int| 0 <= j < picked.len() ==> #[trigger] picked[j] < entries.len(),
        is_leading(
            chosen(weighed(entry_views(entries@), by_length), picked@),
            weighed(entry_views(entries@), by_length).to_set(),
            limit as nat,
        ),
{
    let ghost list = weighed(entry_views(entries@), by_length);
    proof {
        lemma_weighed_keeps_words(entry_views(entries@), by_length);
    }
    let mut picked: Vec<usize> = Vec::new();
    let mut exhausted = false;
    while picked.len() < limit && !exhausted
        invariant
            list == weighed(entry_views(entries@), by_length),
            list.len() == entries.len(),
            distinct_words(list),
            picked.len() <= limit,
            forall|j: int| 0 <= j < picked.len() ==> #[trigger] picked[j] < entries.len(),
            ranked_places(list, picked@),
            forall|m: int|
                0 <= m < list.len() ==> picks(picked@, m) || forall|j: int|
                    0 <= j < picked.len() ==> outranks(list[#[trigger] picked[j] as int], list[m]),
            exhausted ==> forall|m: int| 0 <= m < list.len() ==> picks(picked@, m),
        decreases limit - picked.len() + if exhausted { 0int } else { 1int },
    {
        let mut best: Option<usize> = None;
        let mut m: usize = 0;
        while m < entries.len()
            invariant
                m <= entries.len(),
                list == weighed(entry_views(entries@), by_length),
                list.len() == entries.len(),
                distinct_words(list),
                best matches Some(b) ==> b < m && !picks(picked@, b as int),
                best matches Some(b) ==> forall|other: int|
                    0 <= other < m && !picks(picked@, other) && other != b ==> outranks(
                        list[b as int],
                        #[trigger] list[other],
                    ),
                best is None ==> forall|other: int| 0 <= other < m ==> picks(picked@, other),
            decreases entries.len() - m,
        {
            if !is_picked(&picked, m) {
                match best {
                    None => {
                        best = Some(m);
                    },
                    Some(b) => {
                        if entry_outranks(entries, m, b, by_length) {
                            proof {
                                assert forall|other: int|
                                    0 <= other < m + 1 && !picks(picked@, other) && other
                                        != m implies outranks(list[m as int], #[trigger] list[other]) by {
                                    if other != b {
                                        lemma_outranks_transitive(
                                            list[m as int],
                                            list[b as int],
                                            list[other],
                                        );
                                    }
                                }
                            }
                            best = Some(m);
                        } else {
                            proof {
                                assert(list[b as int].0 != list[m as int].0);
                                lemma_outranks_total(list[b as int], list[m as int]);
                            }
                        }
                    },
                }
            }
            m = m + 1;
        }
        match best {
            None => {
                exhausted = true;
            },
            Some(b) => {
                let ghost before = picked@;
                picked.push(b);
                proof {
                    assert forall|j: int, k: int| 0 <= j < k < picked.len() implies outranks(
                        list[#[trigger] picked[j] as int],
                        list[#[trigger] picked[k] as int],
                    ) by {
                        if k < before.len() {
                            assert(outranks(list[before[j] as int], list[before[k] as int]));
                        } else {
                            assert(outranks(list[before[j] as int], list[b as int]));
                        }
                    }
                    assert forall|m: int| 0 <= m < list.len() implies picks(picked@, m) || forall|
                        j: int,
                    |
                        0 <= j < picked.len() ==> outranks(
                            list[#[trigger] picked[j] as int],
                            list[m],
                        ) by {
                        if picks(before, m) {
                            let q = choose|q: int| 0 <= q < before.len() && #[trigger] before[q] == m;
                            assert(picked[q] == m);
                        } else if m == b {
                            assert(picked[before.len() as int] == m);
                        } else {
                            assert forall|j: int| 0 <= j < picked.len() implies outranks(
                                list[#[trigger] picked[j] as int],
                                list[m],
                            ) by {
                                if j < before.len() {
                                    assert(outranks(list[before[j] as int], list[m]));
                                } else {
                                    assert(outranks(list[b as int], list[m]));
                                }
                            }
                        }
                    }
                }
            },
        }
    }
    proof {
        assert forall|m: int| 0 <= m < list.len() implies settled(
            list,
            picked@,
            m,
            limit as nat,
        ) by {}
        lemma_settled_is_leading(list, picked@, limit as nat);
    }
    picked
}

/// The frequency list of the words of `text`, as the baseline takes them,
/// and the number of its letters.
pub fn tabulate(text: &str) -> (found: (Vec<(Vec<char>, usize)>, usize))
    ensures
        tabulates(entry_views(found.0@), plain_words(text@)),
        found.1 == letter_count(text@),
{
    let size = text.as_bytes().len();
    proof {
        lemma_encoding_length(text@);
        lemma_scan_start(text@);
        lemma_split_start(text@);
    }
    let mut entries: Vec<(Vec<char>, usize)> = Vec::new();
    let mut letters: usize = 0;
    let mut piece: Vec<char> = Vec::new();
    for c in it: text.chars()
        invariant
            it.seq() == text@,
            text@.len() <= usize::MAX,
            tabulates(entry_views(entries@), finished_plain_words(text@.take(it.index() as int))),
            letters == letter_count(text@.take(it.index() as int)),
            piece@ == trailing_piece(text@.take(it.index() as int)),
    {
        let ghost i = it.index() as int;
        proof {
            assert(c == text@[i]);
            lemma_scan_step(text@, i);
            lemma_split_step(text@, i);
            lemma_letter_count_bound(text@.take(i + 1));
            lemma_plain_words_bound(text@.take(i));
            lemma_cleaned_empty();
        }
        if is_letter_char(c) {
            letters = letters + 1;
        }
        if is_space_char(c) {
            if piece.len() > 0 {
                let word = clean_piece(&piece);
                if word.len() > 0 {
                    count_in_list(&mut entries, word, Ghost(finished_plain_words(text@.take(i))));
                }
                piece.clear();
            }
        } else {
            piece.push(c);
        }
    }
    proof {
        lemma_scan_end(text@);
        lemma_plain_words_bound(text@);
        lemma_cleaned_empty();
    }
    if piece.len() > 0 {
        let word = clean_piece(&piece);
        if word.len() > 0 {
            count_in_list(&mut entries, word, Ghost(finished_plain_words(text@)));
        }
    }
    (entries, letters)
}

/// Analyzes `text` in the plain way: the words are counted in a list, the
/// ten most frequent and the five longest are each found by scanning that
/// list once for every word reported. The time spent is recorded in
/// `time_ns`.
pub fn analyze_text_slow(text: &str) -> (stats: TextStats)
    ensures
        slow_summary(text@, stats@),
        stats.char_count == letter_count(text@),
        stats.top_words.len() <= TOP_WORDS,
        stats.longest_words.len() <= LONGEST_WORDS,
{
    let start = Instant::now();
    let found = tabulate(text);
    let most = select_by_scanning(&found.0, TOP_WORDS, false);
    let longest = select_by_scanning(&found.0, LONGEST_WORDS, true);
    let mut stats = compile_record(&found.0, &most, &longest, found.1);
    proof {
        lemma_tabulated_summary(
            entry_views(found.0@),
            plain_words(text@),
            found.1 as nat,
            stats@,
        );
    }
    stats.time_ns = start.elapsed().as_nanos();
    stats
}

} // verus!
