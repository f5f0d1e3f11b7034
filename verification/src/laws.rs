//! What holds of every record that the analyzers return.

use vstd::prelude::*;
use crate::fast::{
    alphabetical_counts, fast_summary, hot_only, shortcut_summary, takes_shortcut,
};
use crate::order::{outranks, precedes};
use crate::ranking::{is_leading, lemma_leading_unique, outranked_by_all};
use crate::slow::slow_summary;
use crate::stats::{
    counted, measured, ranked_summary, with_lengths, Summary, LONGEST_WORDS, TOP_WORDS,
};
use crate::letters::{ascii_lower, folded, is_ascii_char, is_ascii_letter, is_letter};
use crate::plain::{
    all_ascii, ascii_lowered, cleaned, finished_plain_words, is_space, lemma_cleaned_empty,
    plain_words, trailing_piece,
};
use crate::tokens::{
    finished_words, lemma_occurrences_contains, letter_count, occurrences, trailing_word, words,
};
use crate::vocabulary::{
    alphabetical_place, alphabetical_rank, lemma_alphabetical_order, lemma_vocabulary_distinct,
    lemma_vocabulary_index, vocabulary, vocabulary_index,
};

verus! {

/// Every word occurs as often in `a` as in `b`.
pub open spec fn same_counts(a: Seq<Seq<char>>, b: Seq<Seq<char>>) -> bool {
    forall|word: Seq<char>| occurrences(a, word) == #[trigger] occurrences(b, word)
}

/// Along the alphabetical order of the vocabulary no word occurs in `ws`
/// more often than the word before it.
pub open spec fn counts_descend(ws: Seq<Seq<char>>) -> bool {
    forall|rank: int|
        0 <= rank < 9 ==> occurrences(ws, vocabulary(#[trigger] alphabetical_place(rank)))
            >= occurrences(ws, vocabulary(alphabetical_place(rank + 1)))
}

/// Every word of the vocabulary occurs in `ws`, and along the alphabetical
/// order none more often than the word before it.
pub open spec fn vocabulary_in_rank_order(ws: Seq<Seq<char>>) -> bool {
    &&& counts_descend(ws)
    &&& occurrences(ws, vocabulary(alphabetical_place(9))) > 0
}

/// The words of `list` are in strictly descending rank, place by place.
pub open spec fn ranked_step_by_step(list: Seq<(Seq<char>, nat)>) -> bool {
    forall|i: int| 0 <= i < list.len() - 1 ==> outranks(#[trigger] list[i], list[i + 1])
}

/// Two sequences of words with the same lengths attached are the same.
proof fn lemma_with_lengths_injective(a: Seq<Seq<char>>, b: Seq<Seq<char>>)
    requires
        with_lengths(a) == with_lengths(b),
    ensures
        a == b,
{
    assert(a.len() == with_lengths(a).len());
    assert(b.len() == with_lengths(b).len());
    assert forall|i: int| 0 <= i < a.len() implies a[i] == b[i] by {
        assert(with_lengths(a)[i].0 == a[i]);
        assert(with_lengths(b)[i].0 == b[i]);
    }
    assert(a =~= b);
}

/// Words that occur equally often have the same summaries.
proof fn lemma_same_counts_same_pools(a: Seq<Seq<char>>, b: Seq<Seq<char>>)
    requires
        same_counts(a, b),
    ensures
        counted(a) == counted(b),
        measured(a) == measured(b),
        a.to_set() == b.to_set(),
{
    assert forall|e: (Seq<char>, nat)| counted(a).contains(e) <==> counted(b).contains(e) by {
        assert(occurrences(a, e.0) == occurrences(b, e.0));
    }
    assert(counted(a) =~= counted(b));
    assert forall|e: (Seq<char>, nat)| measured(a).contains(e) <==> measured(b).contains(e) by {
        assert(occurrences(a, e.0) == occurrences(b, e.0));
    }
    assert(measured(a) =~= measured(b));
    assert forall|word: Seq<char>| a.to_set().contains(word) <==> b.to_set().contains(word) by {
        assert(occurrences(a, word) == occurrences(b, word));
        lemma_occurrences_contains(a, word);
        lemma_occurrences_contains(b, word);
    }
    assert(a.to_set() =~= b.to_set());
}

/// The words `ws` have one ranked summary.
pub proof fn law_ranked_summary_unique(ws: Seq<Seq<char>>, letters: nat, a: Summary, b: Summary)
    requires
        ranked_summary(ws, letters, a),
        ranked_summary(ws, letters, b),
    ensures
        a == b,
{
    lemma_leading_unique(a.top_words, b.top_words, counted(ws), TOP_WORDS as nat);
    lemma_leading_unique(
        with_lengths(a.longest_words),
        with_lengths(b.longest_words),
        measured(ws),
        LONGEST_WORDS as nat,
    );
    lemma_with_lengths_injective(a.longest_words, b.longest_words);
    assert(a =~= b);
}

/// Idempotence of the optimized analyzer: a text determines its record.
/// Whatever two calls on the same text return, they differ in nothing but
/// the time taken.
pub proof fn law_fast_summary_unique(text: Seq<char>, a: Summary, b: Summary)
    requires
        fast_summary(text, a),
        fast_summary(text, b),
    ensures
        a == b,
{
    if takes_shortcut(text) {
        lemma_leading_unique(
            with_lengths(a.longest_words),
            with_lengths(b.longest_words),
            measured(words(text)),
            LONGEST_WORDS as nat,
        );
        lemma_with_lengths_injective(a.longest_words, b.longest_words);
        assert(a =~= b);
    } else {
        law_ranked_summary_unique(words(text), letter_count(text), a, b);
    }
}

/// Idempotence of the baseline analyzer: a text determines its record.
pub proof fn law_slow_summary_unique(text: Seq<char>, a: Summary, b: Summary)
    requires
        slow_summary(text, a),
        slow_summary(text, b),
    ensures
        a == b,
{
    law_ranked_summary_unique(plain_words(text), letter_count(text), a, b);
}

/// Along the alphabetical order a word occurs at least as often as every
/// word after it, where that holds from each word to the next.
proof fn lemma_counts_descend(ws: Seq<Seq<char>>, low: int, high: int)
    requires
        counts_descend(ws),
        0 <= low <= high < 10,
    ensures
        occurrences(ws, vocabulary(alphabetical_place(low))) >= occurrences(
            ws,
            vocabulary(alphabetical_place(high)),
        ),
    decreases high - low,
{
    if low < high {
        lemma_counts_descend(ws, low, high - 1);
        assert(occurrences(ws, vocabulary(alphabetical_place(high - 1))) >= occurrences(
            ws,
            vocabulary(alphabetical_place(high - 1 + 1)),
        ));
    }
}

/// The alphabetical list of the vocabulary is in strictly descending rank
/// where the counts descend along it.
proof fn lemma_alphabetical_counts_ranked(ws: Seq<Seq<char>>, low: int, high: int)
    requires
        counts_descend(ws),
        0 <= low < high < 10,
    ensures
        outranks(alphabetical_counts(ws)[low], alphabetical_counts(ws)[high]),
{
    lemma_counts_descend(ws, low, high);
    lemma_alphabetical_order(low, high);
}

/// Where every word of the vocabulary occurs and the counts descend along
/// the alphabetical order, the short report is the ranked summary.
pub proof fn law_short_report_is_ranked(ws: Seq<Seq<char>>, letters: nat, s: Summary)
    requires
        hot_only(ws),
        vocabulary_in_rank_order(ws),
        shortcut_summary(ws, letters, s),
    ensures
        ranked_summary(ws, letters, s),
{
    lemma_vocabulary_distinct();
    let all = Seq::new(10, |place: int| vocabulary(place));
    assert(all.no_duplicates()) by {
        assert forall|i: int, j: int| 0 <= i < all.len() && 0 <= j < all.len() && i != j implies all[i]
            != all[j] by {
            assert(vocabulary_index(vocabulary(i)) == Some(i as usize));
            assert(vocabulary_index(vocabulary(j)) == Some(j as usize));
        }
    }
    assert forall|place: int| 0 <= place < 10 implies occurrences(ws, #[trigger] vocabulary(place))
        > 0 by {
        let rank = alphabetical_rank(place);
        assert(alphabetical_place(rank) == place);
        lemma_counts_descend(ws, rank, 9);
    }
    assert forall|word: Seq<char>| all.to_set().contains(word) <==> ws.to_set().contains(word) by {
        lemma_occurrences_contains(ws, word);
        if all.to_set().contains(word) {
            assert(all.contains(word));
            let place = choose|place: int| 0 <= place < all.len() && all[place] == word;
            assert(occurrences(ws, vocabulary(place)) > 0);
        }
        if ws.to_set().contains(word) {
            assert(ws.contains(word));
            let i = choose|i: int| 0 <= i < ws.len() && ws[i] == word;
            assert(vocabulary_index(ws[i]) is Some);
            lemma_vocabulary_index(word);
            let place = vocabulary_index(word)->0 as int;
            assert(all[place] == word);
            assert(all.contains(word));
        }
    }
    assert(all.to_set() =~= ws.to_set());
    all.unique_seq_to_set();
    let out = s.top_words;
    let pool = counted(ws);
    assert forall|i: int| 0 <= i < out.len() implies pool.contains(#[trigger] out[i]) by {
        assert(occurrences(ws, vocabulary(alphabetical_place(i))) > 0);
    }
    assert forall|i: int, j: int| 0 <= i < j < out.len() implies outranks(
        #[trigger] out[i],
        #[trigger] out[j],
    ) by {
        lemma_alphabetical_counts_ranked(ws, i, j);
    }
    assert forall|e: (Seq<char>, nat)| #[trigger] pool.contains(e) implies out.contains(e) || (
    out.len() == TOP_WORDS as nat && outranked_by_all(out, e)) by {
        lemma_occurrences_contains(ws, e.0);
        let i = choose|i: int| 0 <= i < ws.len() && ws[i] == e.0;
        assert(vocabulary_index(ws[i]) is Some);
        lemma_vocabulary_index(e.0);
        let place = vocabulary_index(e.0)->0 as int;
        let rank = alphabetical_rank(place);
        assert(alphabetical_place(rank) == place);
        assert(out[rank] == e);
    }
}

/// Every character of `text` is an ASCII letter, or white space that is no
/// letter.
pub open spec fn is_letters_and_spaces(text: Seq<char>) -> bool {
    forall|i: int|
        0 <= i < text.len() ==> is_ascii_letter(#[trigger] text[i]) || (is_space(text[i])
            && !is_letter(text[i]))
}

/// The piece that `text` ends in holds a letter.
pub open spec fn piece_has_letter(text: Seq<char>) -> bool
    decreases text.len(),
{
    if text.len() == 0 {
        false
    } else if is_space(text.last()) {
        false
    } else {
        is_letter(text.last()) || piece_has_letter(text.drop_last())
    }
}

/// The piece that `text` ends in holds a letter and, somewhere after it, a
/// character that is no letter.
pub open spec fn piece_run_ended(text: Seq<char>) -> bool
    decreases text.len(),
{
    if text.len() == 0 {
        false
    } else if is_space(text.last()) {
        false
    } else if is_letter(text.last()) {
        piece_run_ended(text.drop_last())
    } else {
        piece_has_letter(text.drop_last())
    }
}

/// In every piece of `text` the letters stand together, with nothing
/// between them; white space is no letter, and every other character is
/// ASCII.
pub open spec fn letters_stand_together(text: Seq<char>) -> bool
    decreases text.len(),
{
    text.len() == 0 || {
        &&& letters_stand_together(text.drop_last())
        &&& if is_space(text.last()) {
            !is_letter(text.last())
        } else {
            is_ascii_char(text.last())
        }
        &&& is_letter(text.last()) ==> !piece_run_ended(text.drop_last())
    }
}

/// One more ASCII character at the end of an ASCII piece adds its small
/// letter to the word that the piece stands for, if it is a letter, and
/// nothing if it is none.
proof fn lemma_cleaned_push(piece: Seq<char>, c: char)
    requires
        all_ascii(piece),
        is_ascii_char(c),
    ensures
        all_ascii(piece.push(c)),
        is_letter(c) ==> cleaned(piece.push(c)) == cleaned(piece).push(ascii_lower(c)),
        !is_letter(c) ==> cleaned(piece.push(c)) == cleaned(piece),
{
    let longer = piece.push(c);
    assert(all_ascii(longer)) by {
        assert forall|i: int| 0 <= i < longer.len() implies is_ascii_char(#[trigger] longer[i]) by {
            if i < piece.len() {
                assert(longer[i] == piece[i]);
            }
        }
    }
    assert(ascii_lowered(longer) =~= ascii_lowered(piece).push(ascii_lower(c)));
    assert(ascii_lowered(longer).drop_last() =~= ascii_lowered(piece));
}

/// Where the letters of every piece stand together, the two ways of taking
/// words have come as far as each other after every prefix: they have
/// finished the same words, but for the word of a piece whose letters have
/// ended while the piece has not.
proof fn lemma_together_so_far(text: Seq<char>)
    requires
        letters_stand_together(text),
    ensures
        all_ascii(trailing_piece(text)),
        piece_has_letter(text) <==> cleaned(trailing_piece(text)).len() > 0,
        piece_run_ended(text) ==> piece_has_letter(text),
        !piece_run_ended(text) ==> finished_plain_words(text) == finished_words(text) && cleaned(
            trailing_piece(text),
        ) == trailing_word(text),
        piece_run_ended(text) ==> trailing_word(text).len() == 0 && finished_words(text)
            == finished_plain_words(text).push(cleaned(trailing_piece(text))),
    decreases text.len(),
{
    lemma_cleaned_empty();
    if text.len() > 0 {
        let shorter = text.drop_last();
        let c = text.last();
        lemma_together_so_far(shorter);
        if !is_space(c) {
            lemma_cleaned_push(trailing_piece(shorter), c);
            if is_letter(c) {
                assert(folded(c) =~= seq![ascii_lower(c)]);
                assert(trailing_word(shorter) + seq![ascii_lower(c)] =~= trailing_word(
                    shorter,
                ).push(ascii_lower(c)));
            }
        }
    }
}

/// Where the letters of every piece of a text stand together, the baseline
/// finds the words that the optimized analyzer finds. Such a text may have
/// any ASCII character before the letters of a piece and after them, as in
/// `(word),`, but none between them, as in `don't`.
pub proof fn law_same_words_where_letters_stand_together(text: Seq<char>)
    requires
        letters_stand_together(text),
    ensures
        plain_words(text) == words(text),
{
    lemma_together_so_far(text);
}

/// A text of ASCII letters and white space is one in which the letters of
/// every piece stand together.
proof fn lemma_plain_text_stands_together(text: Seq<char>)
    requires
        is_letters_and_spaces(text),
    ensures
        letters_stand_together(text),
        !piece_run_ended(text),
    decreases text.len(),
{
    if text.len() > 0 {
        let shorter = text.drop_last();
        assert forall|i: int| 0 <= i < shorter.len() implies is_ascii_letter(
            #[trigger] shorter[i],
        ) || (is_space(shorter[i]) && !is_letter(shorter[i])) by {
            assert(shorter[i] == text[i]);
        }
        lemma_plain_text_stands_together(shorter);
        assert(is_ascii_letter(text[text.len() - 1]) || (is_space(text[text.len() - 1])
            && !is_letter(text[text.len() - 1])));
    }
}

/// In a text of ASCII letters and white space the baseline finds the words
/// that the optimized analyzer finds.
pub proof fn law_same_words_in_plain_text(text: Seq<char>)
    requires
        is_letters_and_spaces(text),
    ensures
        plain_words(text) == words(text),
{
    lemma_plain_text_stands_together(text);
    law_same_words_where_letters_stand_together(text);
}

/// Differential equivalence. The two analyzers return the same record,
/// but for the time taken, on every text that both take for the same
/// words and that does not get a short report which differs from the
/// ranked one. A short report is the ranked one where every word of the
/// vocabulary occurs and the counts descend along the alphabetical order.
pub proof fn law_analyzers_agree(text: Seq<char>, fast: Summary, slow: Summary)
    requires
        fast_summary(text, fast),
        slow_summary(text, slow),
        same_counts(plain_words(text), words(text)),
        takes_shortcut(text) ==> vocabulary_in_rank_order(words(text)),
    ensures
        fast == slow,
{
    let ws = words(text);
    let letters = letter_count(text);
    if takes_shortcut(text) {
        law_short_report_is_ranked(ws, letters, fast);
    }
    lemma_same_counts_same_pools(plain_words(text), ws);
    law_ranked_summary_unique(ws, letters, fast, slow);
}

/// A leading list is a prefix of the pool's whole rank order: of any
/// leading list that was made with a limit at least as large.
pub proof fn law_leading_is_prefix(
    out: Seq<(Seq<char>, nat)>,
    all: Seq<(Seq<char>, nat)>,
    pool: Set<(Seq<char>, nat)>,
    limit: nat,
    larger: nat,
)
    requires
        is_leading(out, pool, limit),
        is_leading(all, pool, larger),
        limit <= larger,
    ensures
        out.len() <= all.len(),
        out == all.take(out.len() as int),
{
    let k: int = if limit <= all.len() {
        limit as int
    } else {
        all.len() as int
    };
    let front = all.take(k);
    assert forall|i: int| 0 <= i < front.len() implies pool.contains(#[trigger] front[i]) by {
        assert(front[i] == all[i]);
    }
    assert forall|i: int, j: int| 0 <= i < j < front.len() implies outranks(
        #[trigger] front[i],
        #[trigger] front[j],
    ) by {
        assert(outranks(all[i], all[j]));
    }
    assert forall|e: (Seq<char>, nat)| #[trigger] pool.contains(e) implies front.contains(e) || (
    front.len() == limit && outranked_by_all(front, e)) by {
        if all.contains(e) {
            let m = choose|m: int| 0 <= m < all.len() && all[m] == e;
            if m < k {
                assert(front[m] == e);
            } else {
                assert forall|i: int| 0 <= i < front.len() implies outranks(
                    #[trigger] front[i],
                    e,
                ) by {
                    assert(outranks(all[i], all[m]));
                }
            }
        } else {
            assert(outranked_by_all(all, e));
            assert forall|i: int| 0 <= i < front.len() implies outranks(#[trigger] front[i], e) by {
                assert(outranks(all[i], e));
            }
        }
    }
    lemma_leading_unique(out, front, pool, limit);
}

/// The most frequent words come in order: of two neighbours the first has
/// the larger count, or the same count and the word that comes first. This
/// holds of every record of the optimized analyzer but a short report whose
/// counts do not descend along the alphabetical order.
pub proof fn law_fast_top_words_ordered(text: Seq<char>, s: Summary)
    requires
        fast_summary(text, s),
        takes_shortcut(text) ==> counts_descend(words(text)),
    ensures
        ranked_step_by_step(s.top_words),
{
    if takes_shortcut(text) {
        assert forall|i: int| 0 <= i < s.top_words.len() - 1 implies outranks(
            #[trigger] s.top_words[i],
            s.top_words[i + 1],
        ) by {
            lemma_alphabetical_counts_ranked(words(text), i, i + 1);
        }
    }
}

/// The most frequent words of the baseline analyzer come in order.
pub proof fn law_slow_top_words_ordered(text: Seq<char>, s: Summary)
    requires
        slow_summary(text, s),
    ensures
        ranked_step_by_step(s.top_words),
{
}

/// The longest words come in order: of two neighbours the first is longer,
/// or as long and the word that comes first.
pub open spec fn longest_step_by_step(list: Seq<Seq<char>>) -> bool {
    forall|i: int|
        0 <= i < list.len() - 1 ==> (#[trigger] list[i]).len() > list[i + 1].len() || (
        list[i].len() == list[i + 1].len() && precedes(list[i], list[i + 1]))
}

/// The longest words of every record of the optimized analyzer come in
/// order.
pub proof fn law_fast_longest_words_ordered(text: Seq<char>, s: Summary)
    requires
        fast_summary(text, s),
    ensures
        longest_step_by_step(s.longest_words),
{
    let sized = with_lengths(s.longest_words);
    assert(is_leading(sized, measured(words(text)), LONGEST_WORDS as nat));
    assert forall|i: int| 0 <= i < s.longest_words.len() - 1 implies (
    #[trigger] s.longest_words[i]).len() > s.longest_words[i + 1].len() || (
    s.longest_words[i].len() == s.longest_words[i + 1].len() && precedes(
        s.longest_words[i],
        s.longest_words[i + 1],
    )) by {
        assert(outranks(sized[i], sized[i + 1]));
    }
}

/// The longest words of every record of the baseline analyzer come in
/// order.
pub proof fn law_slow_longest_words_ordered(text: Seq<char>, s: Summary)
    requires
        slow_summary(text, s),
    ensures
        longest_step_by_step(s.longest_words),
{
    let sized = with_lengths(s.longest_words);
    assert forall|i: int| 0 <= i < s.longest_words.len() - 1 implies (
    #[trigger] s.longest_words[i]).len() > s.longest_words[i + 1].len() || (
    s.longest_words[i].len() == s.longest_words[i + 1].len() && precedes(
        s.longest_words[i],
        s.longest_words[i + 1],
    )) by {
        assert(outranks(sized[i], sized[i + 1]));
    }
}

/// No record lists more than ten most frequent words or more than five
/// longest words.
pub proof fn law_lists_are_short(text: Seq<char>, s: Summary)
    requires
        fast_summary(text, s) || slow_summary(text, s),
    ensures
        s.top_words.len() <= TOP_WORDS,
        s.longest_words.len() <= LONGEST_WORDS,
{
    assert(with_lengths(s.longest_words).len() == s.longest_words.len());
}

} // verus!
