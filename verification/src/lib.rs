//! Word-frequency statistics over a text: the number of distinct words, the
//! number of letters, the most frequent words and the longest words.
//!
//! Two analyzers compute them. `analyze_text_fast` picks a scanner by the
//! shape of the text and counts the words of a small fixed vocabulary
//! without hashing; `analyze_text_slow` goes one plain way for every text.
//! What each returns is stated over the words of the text, and `laws` holds
//! what follows for every record: that a text determines it, that its lists
//! are in order, and when the two analyzers agree.

pub mod clock;
pub mod fast;
pub mod laws;
pub mod letters;
pub mod order;
pub mod plain;
pub mod ranking;
pub mod report;
pub mod sample;
pub mod scan;
pub mod slow;
pub mod stats;
pub mod table;
pub mod tally;
pub mod tokens;
pub mod unicode;
pub mod vocabulary;

pub use fast::analyze_text_fast;
pub use sample::generate_test_text;
pub use slow::analyze_text_slow;
pub use stats::TextStats;
pub use vocabulary::match_hot_lower;
