//! The frequency table: a hash map from word to count whose keys are hashed
//! with Fx. The map itself is not verified; the contracts of the few
//! operations used here say what it holds before and after each of them.

use std::collections::HashMap;
use std::hash::BuildHasherDefault;
use rustc_hash::FxHasher;
use vstd::prelude::*;
use crate::ranking::{distinct_words, entry_views};

verus! {

/// `rustc_hash::FxHasher`, carried through as an opaque type.
#[verifier::external_type_specification]
#[verifier::external_body]
pub struct ExFxHasher(FxHasher);

/// `std::hash::BuildHasherDefault`, carried through as an opaque type.
#[verifier::external_type_specification]
#[verifier::external_body]
#[verifier::reject_recursive_types(H)]
pub struct ExBuildHasherDefault<H>(BuildHasherDefault<H>);

/// A hash map from word to count that hashes its keys with Fx.
pub type WordTable = HashMap<String, usize, BuildHasherDefault<FxHasher>>;

/// The largest capacity that a table is ever created with.
pub const CAPACITY_LIMIT: usize = 65536;

/// What a frequency table holds: each word in it, with its count.
pub uninterp spec fn table_counts(table: WordTable) -> Map<Seq<char>, usize>;

/// The counts of a table that holds no word.
pub open spec fn no_counts() -> Map<Seq<char>, usize> {
    Map::empty()
}

/// The count that `counts` gives for `word`: zero where it holds none.
pub open spec fn count_in(counts: Map<Seq<char>, usize>, word: Seq<char>) -> nat {
    if counts.contains_key(word) {
        counts[word] as nat
    } else {
        0
    }
}

/// Calls `HashMap::with_capacity_and_hasher` with the default Fx hasher.
/// Trusted: the new table holds nothing.
#[verifier::external_body]
pub(crate) fn table_new(capacity: usize) -> (fresh: WordTable)
    requires
        capacity <= CAPACITY_LIMIT,
    ensures
        table_counts(fresh) == no_counts(),
{
    HashMap::with_capacity_and_hasher(capacity, BuildHasherDefault::<FxHasher>::default())
}

/// Calls `HashMap::get` with `word` as the key. Trusted: the result is the
/// count held for `word`, or `None` where the table holds none.
#[verifier::external_body]
pub(crate) fn table_get(table: &WordTable, word: &Vec<char>) -> (count: Option<usize>)
    ensures
        count == (if table_counts(*table).contains_key(word@) {
            Some(table_counts(*table)[word@])
        } else {
            None
        }),
{
    let key: String = word.iter().collect();
    table.get(&key).copied()
}

/// Calls `HashMap::insert` with `word` as the key. Trusted: afterwards the
/// table holds `count` for `word`, and for every other word what it held.
#[verifier::external_body]
pub(crate) fn table_insert(table: &mut WordTable, word: &Vec<char>, count: usize)
    ensures
        table_counts(*final(table)) == table_counts(*old(table)).insert(word@, count),
{
    table.insert(word.iter().collect(), count);
}

/// Calls `HashMap::into_iter` and collects the pairs it yields. Trusted:
/// every pair is one that the table held, every word of the table comes
/// out, and none comes out twice. Nothing is said of their order.
#[verifier::external_body]
pub(crate) fn table_into_entries(table: WordTable) -> (entries: Vec<(Vec<char>, usize)>)
    ensures
        distinct_words(entry_views(entries@)),
        forall|i: int|
            0 <= i < entries.len() ==> table_counts(table).contains_pair(
                (#[trigger] entries[i]).0@,
                entries[i].1,
            ),
        forall|word: Seq<char>| #[trigger]
            table_counts(table).contains_key(word) ==> holds_word(entries@, word),
{
    table.into_iter().map(|(word, count)| (word.chars().collect(), count)).collect()
}

/// Some entry of `entries` is for `word`.
pub open spec fn holds_word(entries: Seq<(Vec<char>, usize)>, word: Seq<char>) -> bool {
    exists|i: int| 0 <= i < entries.len() && (#[trigger] entries[i]).0@ == word
}

/// Counts one more occurrence of `word` in `table`.
pub fn bump(table: &mut WordTable, word: &Vec<char>)
    requires
        count_in(table_counts(*old(table)), word@) < usize::MAX,
    ensures
        table_counts(*final(table)) == table_counts(*old(table)).insert(
            word@,
            (count_in(table_counts(*old(table)), word@) + 1) as usize,
        ),
{
    let count: usize = match table_get(table, word) {
        Some(held) => held,
        None => 0,
    };
    table_insert(table, word, count + 1);
}

} // verus!
