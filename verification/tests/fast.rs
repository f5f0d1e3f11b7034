use text_analyzer::analyze_text_fast;
use text_analyzer::generate_test_text;

fn pairs(list: &[(&str, usize)]) -> Vec<(String, usize)> {
    list.iter().map(|(word, count)| (word.to_string(), *count)).collect()
}

fn strings(list: &[&str]) -> Vec<String> {
    list.iter().map(|word| word.to_string()).collect()
}

#[test]
fn fast_empty_text_gives_empty_record() {
    let stats = analyze_text_fast("");
    assert_eq!(stats.word_count, 0);
    assert_eq!(stats.char_count, 0);
    assert_eq!(stats.top_words, pairs(&[]));
    assert_eq!(stats.longest_words, strings(&[]));
}

#[test]
fn fast_text_without_letters_gives_empty_record() {
    let stats = analyze_text_fast("  12 34 !? \n");
    assert_eq!(stats.word_count, 0);
    assert_eq!(stats.char_count, 0);
    assert_eq!(stats.top_words, pairs(&[]));
    assert_eq!(stats.longest_words, strings(&[]));
    let spaces = analyze_text_fast("   ");
    assert_eq!(spaces.word_count, 0);
    assert_eq!(spaces.top_words, pairs(&[]));
}

#[test]
fn fast_counts_only_letters() {
    let stats = analyze_text_fast("ab1 cd!");
    assert_eq!(stats.char_count, 4);
    assert_eq!(stats.word_count, 2);
    assert_eq!(stats.top_words, pairs(&[("ab", 1), ("cd", 1)]));
    assert_eq!(stats.longest_words, strings(&["ab", "cd"]));
}

#[test]
fn fast_vocabulary_text_gets_the_short_report() {
    let stats = analyze_text_fast("rust rust speed");
    assert_eq!(stats.word_count, 10);
    assert_eq!(stats.char_count, 13);
    assert_eq!(
        stats.top_words,
        pairs(&[
            ("algorithm", 0),
            ("benchmark", 0),
            ("data", 0),
            ("efficiency", 0),
            ("memory", 0),
            ("optimization", 0),
            ("performance", 0),
            ("rust", 2),
            ("speed", 1),
            ("structure", 0),
        ])
    );
    assert_eq!(stats.longest_words, strings(&["speed", "rust"]));
}

#[test]
fn fast_short_report_also_after_folding() {
    let stats = analyze_text_fast("Rust, DATA; data! Structure?");
    assert_eq!(stats.word_count, 10);
    assert_eq!(stats.char_count, 21);
    assert_eq!(stats.top_words[2], ("data".to_string(), 2));
    assert_eq!(stats.top_words[7], ("rust".to_string(), 1));
    assert_eq!(stats.top_words[9], ("structure".to_string(), 1));
    assert_eq!(stats.top_words[0], ("algorithm".to_string(), 0));
    assert_eq!(stats.longest_words, strings(&["structure", "data", "rust"]));
}

#[test]
fn fast_short_report_lists_at_most_five_longest() {
    let text = generate_test_text(50);
    let stats = analyze_text_fast(&text);
    assert_eq!(stats.word_count, 10);
    assert_eq!(stats.char_count, 5 * 79);
    assert_eq!(
        stats.top_words,
        pairs(&[
            ("algorithm", 5),
            ("benchmark", 5),
            ("data", 5),
            ("efficiency", 5),
            ("memory", 5),
            ("optimization", 5),
            ("performance", 5),
            ("rust", 5),
            ("speed", 5),
            ("structure", 5),
        ])
    );
    assert_eq!(
        stats.longest_words,
        strings(&["optimization", "performance", "efficiency", "algorithm", "benchmark"])
    );
}

#[test]
fn fast_short_report_skips_words_that_do_not_occur() {
    let stats = analyze_text_fast("memory data structure rust speed benchmark");
    assert_eq!(stats.word_count, 10);
    assert_eq!(
        stats.longest_words,
        strings(&["benchmark", "structure", "memory", "speed", "data"])
    );
}

#[test]
fn fast_non_ascii_letters_are_letters() {
    let stats = analyze_text_fast("café café");
    assert_eq!(stats.word_count, 1);
    assert_eq!(stats.char_count, 8);
    assert_eq!(stats.top_words, pairs(&[("café", 2)]));
    assert_eq!(stats.longest_words, strings(&["café"]));
}

#[test]
fn fast_non_ascii_capitals_are_folded() {
    let stats = analyze_text_fast("CAFÉ Café café");
    assert_eq!(stats.word_count, 1);
    assert_eq!(stats.top_words, pairs(&[("café", 3)]));
}

#[test]
fn fast_one_letter_can_fold_to_several() {
    let stats = analyze_text_fast("\u{130}");
    assert_eq!(stats.char_count, 1);
    assert_eq!(stats.word_count, 1);
    assert_eq!(stats.top_words, pairs(&[("i\u{307}", 1)]));
}

#[test]
fn fast_non_ascii_text_never_gets_the_short_report() {
    let stats = analyze_text_fast("rust\u{a0}rust speed");
    assert_eq!(stats.word_count, 2);
    assert_eq!(stats.top_words, pairs(&[("rust", 2), ("speed", 1)]));
    assert_eq!(stats.longest_words, strings(&["speed", "rust"]));
}

#[test]
fn fast_length_is_counted_in_characters() {
    let stats = analyze_text_fast("\u{e9}\u{e9}\u{e9} abcd");
    assert_eq!(stats.longest_words, strings(&["abcd", "\u{e9}\u{e9}\u{e9}"]));
}

#[test]
fn fast_words_outside_the_vocabulary_are_tabulated() {
    let stats = analyze_text_fast("zzz zzz yyy");
    assert_eq!(stats.word_count, 2);
    assert_eq!(stats.char_count, 9);
    assert_eq!(stats.top_words, pairs(&[("zzz", 2), ("yyy", 1)]));
    assert_eq!(stats.longest_words, strings(&["yyy", "zzz"]));
}

#[test]
fn fast_mixed_text_merges_both_pools() {
    let stats = analyze_text_fast("rust zebra rust apple speed zebra");
    assert_eq!(stats.word_count, 4);
    assert_eq!(stats.char_count, 28);
    assert_eq!(
        stats.top_words,
        pairs(&[("rust", 2), ("zebra", 2), ("apple", 1), ("speed", 1)])
    );
    assert_eq!(stats.longest_words, strings(&["apple", "speed", "zebra", "rust"]));
}

#[test]
fn fast_mixed_text_in_the_generic_scanner() {
    let stats = analyze_text_fast("Rust, Zebra; RUST: apple. Speed - zebra!");
    assert_eq!(stats.word_count, 4);
    assert_eq!(
        stats.top_words,
        pairs(&[("rust", 2), ("zebra", 2), ("apple", 1), ("speed", 1)])
    );
    assert_eq!(stats.longest_words, strings(&["apple", "speed", "zebra", "rust"]));
}

#[test]
fn fast_every_other_byte_separates_words() {
    let stats = analyze_text_fast("ab1cd don't");
    assert_eq!(stats.word_count, 4);
    assert_eq!(stats.char_count, 8);
    assert_eq!(
        stats.top_words,
        pairs(&[("ab", 1), ("cd", 1), ("don", 1), ("t", 1)])
    );
    assert_eq!(stats.longest_words, strings(&["don", "ab", "cd", "t"]));
}

#[test]
fn fast_lists_at_most_ten_and_five() {
    let stats = analyze_text_fast("a bb ccc dddd eeeee ffffff ggggggg hhhhhhhh iiiiiiiii jjjjjjjjjj kkkkkkkkkkk l l");
    assert_eq!(stats.word_count, 12);
    assert_eq!(stats.top_words.len(), 10);
    assert_eq!(stats.top_words[0], ("l".to_string(), 2));
    assert_eq!(stats.top_words[1], ("a".to_string(), 1));
    assert_eq!(stats.top_words[9], ("iiiiiiiii".to_string(), 1));
    assert_eq!(
        stats.longest_words,
        strings(&["kkkkkkkkkkk", "jjjjjjjjjj", "iiiiiiiii", "hhhhhhhh", "ggggggg"])
    );
}

#[test]
fn fast_long_words_are_kept_whole() {
    let long = "q".repeat(100);
    let text = format!("{} {} x", long, long);
    let stats = analyze_text_fast(&text);
    assert_eq!(stats.word_count, 2);
    assert_eq!(stats.char_count, 201);
    assert_eq!(stats.top_words, vec![(long.clone(), 2), ("x".to_string(), 1)]);
    assert_eq!(stats.longest_words, vec![long, "x".to_string()]);
}

#[test]
fn fast_is_idempotent() {
    let text = "the quick brown fox jumps over the lazy dog and the rust data";
    let first = analyze_text_fast(text);
    let second = analyze_text_fast(text);
    assert_eq!(first.word_count, second.word_count);
    assert_eq!(first.char_count, second.char_count);
    assert_eq!(first.top_words, second.top_words);
    assert_eq!(first.longest_words, second.longest_words);
}

#[test]
fn fast_ties_go_to_the_word_that_comes_first() {
    let stats = analyze_text_fast("pear apple fig apple pear kiwi");
    assert_eq!(
        stats.top_words,
        pairs(&[("apple", 2), ("pear", 2), ("fig", 1), ("kiwi", 1)])
    );
    assert_eq!(stats.longest_words, strings(&["apple", "kiwi", "pear", "fig"]));
    let prefixes = analyze_text_fast("ab abc a abcd");
    assert_eq!(
        prefixes.top_words,
        pairs(&[("a", 1), ("ab", 1), ("abc", 1), ("abcd", 1)])
    );
}

#[test]
fn short_report_lists_all_ten_words() {
    let stats = text_analyzer::fast::short_report(&[3, 0, 1, 0, 2, 0, 0, 4, 0, 1], 42);
    assert_eq!(stats.word_count, 10);
    assert_eq!(stats.char_count, 42);
    assert_eq!(stats.time_ns, 0);
    assert_eq!(
        stats.top_words,
        pairs(&[
            ("algorithm", 4),
            ("benchmark", 0),
            ("data", 0),
            ("efficiency", 0),
            ("memory", 0),
            ("optimization", 1),
            ("performance", 0),
            ("rust", 3),
            ("speed", 2),
            ("structure", 1),
        ])
    );
    assert_eq!(
        stats.longest_words,
        strings(&["optimization", "algorithm", "structure", "speed", "rust"])
    );
}

#[test]
fn short_report_of_no_counts_lists_no_longest_word() {
    let stats = text_analyzer::fast::short_report(&[0; 10], 0);
    assert_eq!(stats.word_count, 10);
    assert_eq!(stats.top_words.len(), 10);
    assert_eq!(stats.longest_words, strings(&[]));
}
