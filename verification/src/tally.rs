//! The tally of an ASCII scan: one counter for each word of the fixed
//! vocabulary, and a frequency table for all other words, which is made
//! only when the first of them turns up.

use vstd::prelude::*;
use crate::letters::byte_chars;
use crate::table::{bump, count_in, no_counts, table_counts, table_new, WordTable, CAPACITY_LIMIT};
use crate::tokens::{lemma_occurrences_bound, lemma_occurrences_push, occurrences};
use crate::vocabulary::{lemma_vocabulary_distinct, match_hot_lower, vocabulary_index};

verus! {

/// What an ASCII scan has counted so far.
pub struct Tally {
    /// The count of each word of the fixed vocabulary, by its place there.
    pub hot: [usize; 10],
    /// The counts of all other words; absent until one has been seen.
    pub table: Option<WordTable>,
}

impl Tally {
    /// The counts of the words outside the fixed vocabulary.
    pub open spec fn extra(&self) -> Map<Seq<char>, usize> {
        match self.table {
            Some(table) => table_counts(table),
            None => no_counts(),
        }
    }

    /// The count that the tally holds for `word`.
    pub open spec fn count(&self, word: Seq<char>) -> nat {
        match vocabulary_index(word) {
            Some(place) => self.hot@[place as int] as nat,
            None => count_in(self.extra(), word),
        }
    }

    /// The tally is that of the words `ws`: it holds for every word the
    /// number of its occurrences in `ws`, the table holds no word of the
    /// fixed vocabulary and no zero, and there is a table only if `ws` has
    /// a word from outside the vocabulary.
    pub open spec fn counts(&self, ws: Seq<Seq<char>>) -> bool {
        &&& forall|word: Seq<char>| #[trigger] self.count(word) == occurrences(ws, word)
        &&& forall|word: Seq<char>| #[trigger]
            self.extra().contains_key(word) ==> vocabulary_index(word) is None
                && self.extra()[word] > 0
        &&& self.table is Some ==> has_other_word(ws)
    }

    /// A tally that has counted nothing.
    pub fn new() -> (tally: Tally)
        ensures
            tally.counts(Seq::empty()),
    {
        Tally { hot: [0usize; 10], table: None }
    }

    /// Counts one more word, given as its lowercase ASCII bytes. A word of
    /// the fixed vocabulary goes to its counter; any other goes to the
    /// table, which is made with room for `hint` words if there is none
    /// yet.
    pub(crate) fn record(
        &mut self,
        token: &Vec<u8>,
        hint: usize,
        Ghost(ws): Ghost<Seq<Seq<char>>>,
    )
        requires
            old(self).counts(ws),
            ws.len() < usize::MAX,
            hint <= CAPACITY_LIMIT,
        ensures
            final(self).counts(ws.push(byte_chars(token@))),
    {
        let ghost word = byte_chars(token@);
        let ghost longer = ws.push(word);
        proof {
            lemma_occurrences_bound(ws, word);
            assert(old(self).count(word) == occurrences(ws, word));
            assert forall|other: Seq<char>|
                occurrences(longer, other) == occurrences(ws, other) + if word == other {
                    1nat
                } else {
                    0nat
                } by {
                lemma_occurrences_push(ws, word, other);
            }
            assert forall|other: Seq<char>|
                #[trigger] old(self).count(other) == occurrences(ws, other) by {}
        }
        match match_hot_lower(token.as_slice()) {
            Some(place) => {
                proof {
                    lemma_vocabulary_distinct();
                }
                let held = self.hot[place];
                self.hot[place] = held + 1;
                proof {
                    assert forall|other: Seq<char>| #[trigger]
                        self.count(other) == occurrences(longer, other) by {
                        assert(old(self).count(other) == occurrences(ws, other));
                    }
                    if self.table is Some {
                        let i = choose|i: int|
                            0 <= i < ws.len() && vocabulary_index(#[trigger] ws[i]) is None;
                        assert(longer[i] == ws[i]);
                    }
                }
            },
            None => {
                let spelled = ascii_word(token);
                let mut table = match self.table.take() {
                    Some(held) => held,
                    None => table_new(hint),
                };
                bump(&mut table, &spelled);
                self.table = Some(table);
                proof {
                    assert forall|other: Seq<char>| #[trigger]
                        self.count(other) == occurrences(longer, other) by {
                        assert(old(self).count(other) == occurrences(ws, other));
                    }
                    assert(longer[ws.len() as int] == word);
                }
            },
        }
    }
}

/// Some word of `ws` is not in the fixed vocabulary.
pub open spec fn has_other_word(ws: Seq<Seq<char>>) -> bool {
    exists|i: int| 0 <= i < ws.len() && vocabulary_index(#[trigger] ws[i]) is None
}

/// The bytes of `token` as characters.
pub fn ascii_word(token: &Vec<u8>) -> (word: Vec<char>)
    ensures
        word@ == byte_chars(token@),
{
    let mut word: Vec<char> = Vec::with_capacity(token.len());
    let mut k: usize = 0;
    while k < token.len()
        invariant
            k <= token.len(),
            word@ == byte_chars(token@.take(k as int)),
        decreases token.len() - k,
    {
        word.push(token[k] as char);
        k = k + 1;
        assert(byte_chars(token@.take(k as int)) =~= byte_chars(token@.take(k - 1)).push(
            token@[k - 1] as char,
        ));
    }
    assert(token@.take(token.len() as int) =~= token@);
    word
}

} // verus!
