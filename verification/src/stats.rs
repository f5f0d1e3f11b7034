//! The statistics record, and what it means for a record to summarise a
//! sequence of words.

use vstd::prelude::*;
use crate::ranking::is_leading;
use crate::tokens::occurrences;

verus! {

/// How many of the most frequent words a record lists.
pub const TOP_WORDS: usize = 10;

/// How many of the longest words a record lists.
pub const LONGEST_WORDS: usize = 5;

/// The statistics of one text.
#[derive(Debug)]
pub struct TextStats {
    /// The number of distinct words.
    pub word_count: usize,
    /// The number of letters.
    pub char_count: usize,
    /// The most frequent words, each with the number of its occurrences.
    pub top_words: Vec<(String, usize)>,
    /// The longest words.
    pub longest_words: Vec<String>,
    /// The time that the analysis took, in nanoseconds.
    pub time_ns: u128,
}

/// A record without the time it took: what an analysis determines.
#[verifier::ext_equal]
pub struct Summary {
    /// The number of distinct words.
    pub word_count: nat,
    /// The number of letters.
    pub char_count: nat,
    /// The most frequent words, each with the number of its occurrences.
    pub top_words: Seq<(Seq<char>, nat)>,
    /// The longest words.
    pub longest_words: Seq<Seq<char>>,
}

impl View for TextStats {
    type V = Summary;

    open spec fn view(&self) -> Summary {
        Summary {
            word_count: self.word_count as nat,
            char_count: self.char_count as nat,
            top_words: Seq::new(
                self.top_words@.len(),
                |i: int| (self.top_words@[i].0@, self.top_words@[i].1 as nat),
            ),
            longest_words: Seq::new(self.longest_words@.len(), |i: int| self.longest_words@[i]@),
        }
    }
}

/// The words that occur in `ws`, each with the number of its occurrences.
pub open spec fn counted(ws: Seq<Seq<char>>) -> Set<(Seq<char>, nat)> {
    Set::new(|e: (Seq<char>, nat)| e.1 > 0 && e.1 == occurrences(ws, e.0))
}

/// The words that occur in `ws`, each with the number of its characters.
pub open spec fn measured(ws: Seq<Seq<char>>) -> Set<(Seq<char>, nat)> {
    Set::new(|e: (Seq<char>, nat)| occurrences(ws, e.0) > 0 && e.1 == e.0.len())
}

/// Each word of `list` with the number of its characters.
pub open spec fn with_lengths(list: Seq<Seq<char>>) -> Seq<(Seq<char>, nat)> {
    Seq::new(list.len(), |i: int| (list[i], list[i].len()))
}

/// `s` is the summary of the words `ws` in a text of `letters` letters:
/// the number of distinct words, the first ten by descending count and the
/// first five by descending length, ties in both going to the word that
/// comes first.
pub open spec fn ranked_summary(ws: Seq<Seq<char>>, letters: nat, s: Summary) -> bool {
    &&& s.word_count == ws.to_set().len()
    &&& s.char_count == letters
    &&& is_leading(s.top_words, counted(ws), TOP_WORDS as nat)
    &&& is_leading(with_lengths(s.longest_words), measured(ws), LONGEST_WORDS as nat)
}

} // verus!
