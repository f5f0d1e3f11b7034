//! The fixed vocabulary: ten words that the scanners recognise without
//! hashing, and the two fixed orders in which a text of such words alone is
//! reported.

use vstd::prelude::*;
use vstd::string::is_ascii;
use crate::letters::byte_chars;
use crate::order::{decided_at, lemma_outranks_transitive, lemma_precedes_transitive, outranks, precedes};

verus! {

/// Number of words in the fixed vocabulary.
pub const VOCABULARY_SIZE: usize = 10;

/// The word of the fixed vocabulary at `index`, as characters.
pub open spec fn vocabulary(index: int) -> Seq<char> {
    if index == 0 {
        "rust"@
    } else if index == 1 {
        "performance"@
    } else if index == 2 {
        "optimization"@
    } else if index == 3 {
        "memory"@
    } else if index == 4 {
        "speed"@
    } else if index == 5 {
        "efficiency"@
    } else if index == 6 {
        "benchmark"@
    } else if index == 7 {
        "algorithm"@
    } else if index == 8 {
        "data"@
    } else {
        "structure"@
    }
}

/// The place of `word` in the fixed vocabulary, if it is one of the ten.
pub open spec fn vocabulary_index(word: Seq<char>) -> Option<usize> {
    if word == vocabulary(0) {
        Some(0usize)
    } else if word == vocabulary(1) {
        Some(1usize)
    } else if word == vocabulary(2) {
        Some(2usize)
    } else if word == vocabulary(3) {
        Some(3usize)
    } else if word == vocabulary(4) {
        Some(4usize)
    } else if word == vocabulary(5) {
        Some(5usize)
    } else if word == vocabulary(6) {
        Some(6usize)
    } else if word == vocabulary(7) {
        Some(7usize)
    } else if word == vocabulary(8) {
        Some(8usize)
    } else if word == vocabulary(9) {
        Some(9usize)
    } else {
        None
    }
}

/// The ten words, letter by letter.
pub proof fn lemma_vocabulary_spelled()
    ensures
        vocabulary(0) =~= seq!['r', 'u', 's', 't'],
        vocabulary(1) =~= seq!['p', 'e', 'r', 'f', 'o', 'r', 'm', 'a', 'n', 'c', 'e'],
        vocabulary(2) =~= seq!['o', 'p', 't', 'i', 'm', 'i', 'z', 'a', 't', 'i', 'o', 'n'],
        vocabulary(3) =~= seq!['m', 'e', 'm', 'o', 'r', 'y'],
        vocabulary(4) =~= seq!['s', 'p', 'e', 'e', 'd'],
        vocabulary(5) =~= seq!['e', 'f', 'f', 'i', 'c', 'i', 'e', 'n', 'c', 'y'],
        vocabulary(6) =~= seq!['b', 'e', 'n', 'c', 'h', 'm', 'a', 'r', 'k'],
        vocabulary(7) =~= seq!['a', 'l', 'g', 'o', 'r', 'i', 't', 'h', 'm'],
        vocabulary(8) =~= seq!['d', 'a', 't', 'a'],
        vocabulary(9) =~= seq!['s', 't', 'r', 'u', 'c', 't', 'u', 'r', 'e'],
{
    reveal_strlit("rust");
    reveal_strlit("performance");
    reveal_strlit("optimization");
    reveal_strlit("memory");
    reveal_strlit("speed");
    reveal_strlit("efficiency");
    reveal_strlit("benchmark");
    reveal_strlit("algorithm");
    reveal_strlit("data");
    reveal_strlit("structure");
}

/// Every word of the vocabulary is found at its own place, so no two places
/// hold the same word; and every word is made of ASCII characters.
pub proof fn lemma_vocabulary_distinct()
    ensures
        forall|i: int| 0 <= i < 10 ==> vocabulary_index(#[trigger] vocabulary(i)) == Some(i as usize),
        forall|i: int| 0 <= i < 10 ==> vstd::utf8::is_ascii_chars(#[trigger] vocabulary(i)),
        forall|i: int| 0 <= i < 10 ==> (#[trigger] vocabulary(i)).len() > 0,
{
    lemma_vocabulary_spelled();
    assert(vocabulary(0)[0] == 'r');
    assert(vocabulary(1)[0] == 'p');
    assert(vocabulary(2)[0] == 'o');
    assert(vocabulary(3)[0] == 'm');
    assert(vocabulary(4)[0] == 's');
    assert(vocabulary(5)[0] == 'e');
    assert(vocabulary(6)[0] == 'b');
    assert(vocabulary(7)[0] == 'a');
    assert(vocabulary(8)[0] == 'd');
    assert(vocabulary(9)[0] == 's');
    assert(vocabulary(4).len() == 5);
    assert(vocabulary(9).len() == 9);
}

/// The word of the fixed vocabulary at `index`.
pub fn vocabulary_word(index: usize) -> (word: &'static str)
    requires
        index < VOCABULARY_SIZE,
    ensures
        word@ == vocabulary(index as int),
        is_ascii(word),
{
    proof {
        lemma_vocabulary_distinct();
        assert(vstd::utf8::is_ascii_chars(vocabulary(index as int)));
    }
    if index == 0 {
        "rust"
    } else if index == 1 {
        "performance"
    } else if index == 2 {
        "optimization"
    } else if index == 3 {
        "memory"
    } else if index == 4 {
        "speed"
    } else if index == 5 {
        "efficiency"
    } else if index == 6 {
        "benchmark"
    } else if index == 7 {
        "algorithm"
    } else if index == 8 {
        "data"
    } else {
        "structure"
    }
}

/// Decides whether the bytes of `token` spell the ASCII string `word`.
pub fn spells(token: &[u8], word: &str) -> (yes: bool)
    requires
        is_ascii(word),
    ensures
        yes == (byte_chars(token@) == word@),
{
    broadcast use vstd::string::is_ascii_spec_bytes;

    let letters = word.as_bytes();
    assert(letters@ =~= Seq::new(word@.len(), |i: int| word@[i] as u8));
    if token.len() != letters.len() {
        return false;
    }
    let mut k: usize = 0;
    while k < token.len()
        invariant
            k <= token.len(),
            token.len() == letters.len(),
            letters@.len() == word@.len(),
            forall|j: int| 0 <= j < word@.len() ==> letters@[j] == word@[j] as u8,
            vstd::utf8::is_ascii_chars(word@),
            forall|j: int| 0 <= j < k ==> token@[j] as char == word@[j],
        decreases token.len() - k,
    {
        if token[k] != letters[k] {
            assert(byte_chars(token@)[k as int] != word@[k as int]);
            return false;
        }
        assert(word@[k as int] as u8 as char == word@[k as int]);
        k = k + 1;
    }
    assert(byte_chars(token@) =~= word@);
    true
}

/// Looks `token` up in the fixed vocabulary: its place there, if its bytes
/// spell one of the ten words. The first byte picks the one or two words
/// that can still match, so that at most one comparison follows.
pub fn match_hot_lower(token: &[u8]) -> (place: Option<usize>)
    ensures
        place == vocabulary_index(byte_chars(token@)),
{
    proof {
        lemma_vocabulary_spelled();
        lemma_vocabulary_distinct();
    }
    if token.len() == 0 {
        return None;
    }
    let first: u8 = token[0];
    assert(byte_chars(token@)[0] == first as char);
    let candidate: usize = if first == 114 {
        0
    } else if first == 112 {
        1
    } else if first == 111 {
        2
    } else if first == 109 {
        3
    } else if first == 115 {
        if token.len() == 5 {
            4
        } else if token.len() == 9 {
            9
        } else {
            return None;
        }
    } else if first == 101 {
        5
    } else if first == 98 {
        6
    } else if first == 97 {
        7
    } else if first == 100 {
        8
    } else {
        return None;
    };
    if spells(token, vocabulary_word(candidate)) {
        Some(candidate)
    } else {
        None
    }
}

/// The place in the vocabulary of the word that comes `rank`-th in
/// alphabetical order: algorithm, benchmark, data, efficiency, memory,
/// optimization, performance, rust, speed, structure.
pub open spec fn alphabetical_place(rank: int) -> int {
    if rank == 0 {
        7
    } else if rank == 1 {
        6
    } else if rank == 2 {
        8
    } else if rank == 3 {
        5
    } else if rank == 4 {
        3
    } else if rank == 5 {
        2
    } else if rank == 6 {
        1
    } else if rank == 7 {
        0
    } else if rank == 8 {
        4
    } else {
        9
    }
}

/// The place in the vocabulary of the word that comes `rank`-th by
/// descending length, words of one length in alphabetical order:
/// optimization, performance, efficiency, algorithm, benchmark, structure,
/// memory, speed, data, rust.
pub open spec fn length_place(rank: int) -> int {
    if rank == 0 {
        2
    } else if rank == 1 {
        1
    } else if rank == 2 {
        5
    } else if rank == 3 {
        7
    } else if rank == 4 {
        6
    } else if rank == 5 {
        9
    } else if rank == 6 {
        3
    } else if rank == 7 {
        4
    } else if rank == 8 {
        8
    } else {
        0
    }
}

/// The rank in alphabetical order of the word at `place` in the vocabulary.
pub open spec fn alphabetical_rank(place: int) -> int {
    if place == 7 {
        0
    } else if place == 6 {
        1
    } else if place == 8 {
        2
    } else if place == 5 {
        3
    } else if place == 3 {
        4
    } else if place == 2 {
        5
    } else if place == 1 {
        6
    } else if place == 0 {
        7
    } else if place == 4 {
        8
    } else {
        9
    }
}

/// The rank by length of the word at `place` in the vocabulary.
pub open spec fn length_rank(place: int) -> int {
    if place == 2 {
        0
    } else if place == 1 {
        1
    } else if place == 5 {
        2
    } else if place == 7 {
        3
    } else if place == 6 {
        4
    } else if place == 9 {
        5
    } else if place == 3 {
        6
    } else if place == 4 {
        7
    } else if place == 8 {
        8
    } else {
        9
    }
}

/// The word at `place` in the vocabulary, with its length for a weight.
pub open spec fn sized_word(place: int) -> (Seq<char>, nat) {
    (vocabulary(place), vocabulary(place).len())
}

/// Computes `alphabetical_place`.
pub fn alphabetical(rank: usize) -> (place: usize)
    requires
        rank < VOCABULARY_SIZE,
    ensures
        place == alphabetical_place(rank as int),
        place < VOCABULARY_SIZE,
{
    if rank == 0 {
        7
    } else if rank == 1 {
        6
    } else if rank == 2 {
        8
    } else if rank == 3 {
        5
    } else if rank == 4 {
        3
    } else if rank == 5 {
        2
    } else if rank == 6 {
        1
    } else if rank == 7 {
        0
    } else if rank == 8 {
        4
    } else {
        9
    }
}

/// Computes `length_place`.
pub fn by_length(rank: usize) -> (place: usize)
    requires
        rank < VOCABULARY_SIZE,
    ensures
        place == length_place(rank as int),
        place < VOCABULARY_SIZE,
{
    if rank == 0 {
        2
    } else if rank == 1 {
        1
    } else if rank == 2 {
        5
    } else if rank == 3 {
        7
    } else if rank == 4 {
        6
    } else if rank == 5 {
        9
    } else if rank == 6 {
        3
    } else if rank == 7 {
        4
    } else if rank == 8 {
        8
    } else {
        0
    }
}

/// Each word in alphabetical order comes before the next.
proof fn lemma_alphabetical_steps()
    ensures
        forall|rank: int|
            0 <= rank < 9 ==> precedes(
                vocabulary(#[trigger] alphabetical_place(rank)),
                vocabulary(alphabetical_place(rank + 1)),
            ),
{
    lemma_vocabulary_spelled();
    assert(decided_at(vocabulary(7), vocabulary(6), 0));
    assert(decided_at(vocabulary(6), vocabulary(8), 0));
    assert(decided_at(vocabulary(8), vocabulary(5), 0));
    assert(decided_at(vocabulary(5), vocabulary(3), 0));
    assert(decided_at(vocabulary(3), vocabulary(2), 0));
    assert(decided_at(vocabulary(2), vocabulary(1), 0));
    assert(decided_at(vocabulary(1), vocabulary(0), 0));
    assert(decided_at(vocabulary(0), vocabulary(4), 0));
    assert(decided_at(vocabulary(4), vocabulary(9), 1));
}

/// The alphabetical order of the vocabulary is what its name says: a word
/// of lower rank comes before every word of higher rank.
pub proof fn lemma_alphabetical_order(low: int, high: int)
    requires
        0 <= low < high < 10,
    ensures
        precedes(vocabulary(alphabetical_place(low)), vocabulary(alphabetical_place(high))),
    decreases high - low,
{
    lemma_alphabetical_steps();
    if high > low + 1 {
        lemma_alphabetical_order(low, high - 1);
        assert(precedes(
            vocabulary(alphabetical_place(high - 1)),
            vocabulary(alphabetical_place(high - 1 + 1)),
        ));
        lemma_precedes_transitive(
            vocabulary(alphabetical_place(low)),
            vocabulary(alphabetical_place(high - 1)),
            vocabulary(alphabetical_place(high)),
        );
    }
}

/// Each word in the order by length outranks the next.
proof fn lemma_length_steps()
    ensures
        forall|rank: int|
            0 <= rank < 9 ==> outranks(
                sized_word(#[trigger] length_place(rank)),
                sized_word(length_place(rank + 1)),
            ),
{
    lemma_vocabulary_spelled();
    assert(decided_at(vocabulary(7), vocabulary(6), 0));
    assert(decided_at(vocabulary(6), vocabulary(9), 0));
    assert(decided_at(vocabulary(8), vocabulary(0), 0));
}

/// The order by length is what its name says: a word of lower rank is
/// longer than every word of higher rank, or as long and before it.
pub proof fn lemma_length_order(low: int, high: int)
    requires
        0 <= low < high < 10,
    ensures
        outranks(sized_word(length_place(low)), sized_word(length_place(high))),
    decreases high - low,
{
    lemma_length_steps();
    if high > low + 1 {
        lemma_length_order(low, high - 1);
        assert(outranks(
            sized_word(length_place(high - 1)),
            sized_word(length_place(high - 1 + 1)),
        ));
        lemma_outranks_transitive(
            sized_word(length_place(low)),
            sized_word(length_place(high - 1)),
            sized_word(length_place(high)),
        );
    }
}

/// Rank and place by length undo each other.
pub proof fn lemma_length_rank(place: int)
    requires
        0 <= place < 10,
    ensures
        0 <= length_rank(place) < 10,
        length_place(length_rank(place)) == place,
{
}

/// A word that has a place in the vocabulary is the word at that place.
pub proof fn lemma_vocabulary_index(word: Seq<char>)
    ensures
        vocabulary_index(word) matches Some(place) ==> place < 10 && word == vocabulary(
            place as int,
        ),
{
}

} // verus!
