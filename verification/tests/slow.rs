use text_analyzer::analyze_text_fast;
use text_analyzer::analyze_text_slow;
use text_analyzer::generate_test_text;

fn counted(list: &[(&str, usize)]) -> Vec<(String, usize)> {
    list.iter().map(|(word, count)| (word.to_string(), *count)).collect()
}

fn listed(list: &[&str]) -> Vec<String> {
    list.iter().map(|word| word.to_string()).collect()
}

#[test]
fn slow_empty_text_gives_empty_record() {
    let stats = analyze_text_slow("");
    assert_eq!(stats.word_count, 0);
    assert_eq!(stats.char_count, 0);
    assert_eq!(stats.top_words, counted(&[]));
    assert_eq!(stats.longest_words, listed(&[]));
}

#[test]
fn slow_counts_only_letters() {
    let stats = analyze_text_slow("ab1 cd!");
    assert_eq!(stats.char_count, 4);
    assert_eq!(stats.word_count, 2);
    assert_eq!(stats.top_words, counted(&[("ab", 1), ("cd", 1)]));
    assert_eq!(stats.longest_words, listed(&["ab", "cd"]));
}

#[test]
fn slow_reports_only_words_that_occur() {
    let stats = analyze_text_slow("rust rust speed");
    assert_eq!(stats.word_count, 2);
    assert_eq!(stats.char_count, 13);
    assert_eq!(stats.top_words, counted(&[("rust", 2), ("speed", 1)]));
    assert_eq!(stats.longest_words, listed(&["speed", "rust"]));
}

#[test]
fn slow_non_ascii_letters_are_letters() {
    let stats = analyze_text_slow("café café");
    assert_eq!(stats.word_count, 1);
    assert_eq!(stats.char_count, 8);
    assert_eq!(stats.top_words, counted(&[("café", 2)]));
    assert_eq!(stats.longest_words, listed(&["café"]));
}

#[test]
fn slow_non_ascii_capitals_are_folded() {
    let stats = analyze_text_slow("CAFÉ Café café");
    assert_eq!(stats.word_count, 1);
    assert_eq!(stats.top_words, counted(&[("café", 3)]));
}

#[test]
fn slow_splits_at_non_ascii_white_space() {
    let stats = analyze_text_slow("\u{e9}t\u{e9}\u{a0}\u{e9}t\u{e9}\u{2003}hiver");
    assert_eq!(stats.word_count, 2);
    assert_eq!(stats.top_words, counted(&[("\u{e9}t\u{e9}", 2), ("hiver", 1)]));
}

#[test]
fn slow_splits_at_every_ascii_white_space() {
    let stats = analyze_text_slow("one\ttwo\nthree\rfour\u{b}five\u{c}six seven");
    assert_eq!(stats.word_count, 7);
    assert_eq!(stats.longest_words, listed(&["seven", "three", "five", "four", "one"]));
}

#[test]
fn slow_words_outside_the_vocabulary() {
    let stats = analyze_text_slow("zzz zzz yyy");
    assert_eq!(stats.word_count, 2);
    assert_eq!(stats.char_count, 9);
    assert_eq!(stats.top_words, counted(&[("zzz", 2), ("yyy", 1)]));
    assert_eq!(stats.longest_words, listed(&["yyy", "zzz"]));
}

#[test]
fn slow_mixed_text() {
    let stats = analyze_text_slow("Rust, Zebra; RUST: apple. Speed - zebra!");
    assert_eq!(stats.word_count, 4);
    assert_eq!(
        stats.top_words,
        counted(&[("rust", 2), ("zebra", 2), ("apple", 1), ("speed", 1)])
    );
    assert_eq!(stats.longest_words, listed(&["apple", "speed", "zebra", "rust"]));
}

#[test]
fn slow_strips_what_is_not_a_letter_inside_a_piece() {
    let stats = analyze_text_slow("ab1cd don't");
    assert_eq!(stats.word_count, 2);
    assert_eq!(stats.char_count, 8);
    assert_eq!(stats.top_words, counted(&[("abcd", 1), ("dont", 1)]));
    assert_eq!(stats.longest_words, listed(&["abcd", "dont"]));
}

#[test]
fn slow_lowers_a_piece_before_it_drops_what_is_not_a_letter() {
    let stats = analyze_text_slow("\u{130}");
    assert_eq!(stats.char_count, 1);
    assert_eq!(stats.top_words, counted(&[("i", 1)]));
}

#[test]
fn slow_lists_at_most_ten_and_five() {
    let stats = analyze_text_slow("a bb ccc dddd eeeee ffffff ggggggg hhhhhhhh iiiiiiiii jjjjjjjjjj kkkkkkkkkkk l l");
    assert_eq!(stats.word_count, 12);
    assert_eq!(stats.top_words.len(), 10);
    assert_eq!(stats.top_words[0], ("l".to_string(), 2));
    assert_eq!(stats.top_words[1], ("a".to_string(), 1));
    assert_eq!(stats.top_words[9], ("iiiiiiiii".to_string(), 1));
    assert_eq!(
        stats.longest_words,
        listed(&["kkkkkkkkkkk", "jjjjjjjjjj", "iiiiiiiii", "hhhhhhhh", "ggggggg"])
    );
}

#[test]
fn slow_is_idempotent() {
    let text = "the quick brown fox jumps over the lazy dog and the rust data";
    let first = analyze_text_slow(text);
    let second = analyze_text_slow(text);
    assert_eq!(first.word_count, second.word_count);
    assert_eq!(first.char_count, second.char_count);
    assert_eq!(first.top_words, second.top_words);
    assert_eq!(first.longest_words, second.longest_words);
}

fn agree(text: &str) {
    let slow = analyze_text_slow(text);
    let fast = analyze_text_fast(text);
    assert_eq!(slow.word_count, fast.word_count, "word_count of {:?}", text);
    assert_eq!(slow.char_count, fast.char_count, "char_count of {:?}", text);
    assert_eq!(slow.top_words, fast.top_words, "top_words of {:?}", text);
    assert_eq!(slow.longest_words, fast.longest_words, "longest_words of {:?}", text);
}

#[test]
fn analyzers_agree_on_plain_texts() {
    agree("");
    agree("   ");
    agree("zzz zzz yyy");
    agree("rust zebra rust apple speed zebra");
    agree("Rust, Zebra; RUST: apple. Speed - zebra!");
    agree("the quick brown fox jumps over the lazy dog and the dog sleeps");
    agree("café café thé");
    agree("a bb ccc dddd eeeee ffffff ggggggg hhhhhhhh iiiiiiiii jjjjjjjjjj kkkkkkkkkkk l l");
    agree("one\ttwo\nthree\r\nfour");
}

#[test]
fn analyzers_agree_on_the_sample_text() {
    agree(&generate_test_text(10));
    agree(&generate_test_text(50));
    agree(&generate_test_text(1000));
}

#[test]
fn analyzers_differ_on_vocabulary_text_with_uneven_counts() {
    let slow = analyze_text_slow("rust rust speed");
    let fast = analyze_text_fast("rust rust speed");
    assert_eq!(slow.word_count, 2);
    assert_eq!(fast.word_count, 10);
    assert_eq!(slow.top_words.len(), 2);
    assert_eq!(fast.top_words.len(), 10);
    assert_eq!(slow.longest_words, fast.longest_words);
    assert_eq!(slow.char_count, fast.char_count);
}

fn in_order(stats: &text_analyzer::TextStats) {
    for pair in stats.top_words.windows(2) {
        let (first, second) = (&pair[0], &pair[1]);
        assert!(
            first.1 > second.1 || (first.1 == second.1 && first.0 < second.0),
            "{:?} before {:?}",
            first,
            second
        );
    }
    for pair in stats.longest_words.windows(2) {
        let (first, second) = (pair[0].chars().count(), pair[1].chars().count());
        assert!(
            first > second || (first == second && pair[0] < pair[1]),
            "{:?} before {:?}",
            pair[0],
            pair[1]
        );
    }
    assert!(stats.top_words.len() <= 10);
    assert!(stats.longest_words.len() <= 5);
}

#[test]
fn both_lists_come_in_order() {
    let text = "It was the best of times, it was the worst of times, it was the age of wisdom, \
                it was the age of foolishness, it was the epoch of belief, it was the epoch of \
                incredulity, it was the season of Light, it was the season of Darkness";
    in_order(&analyze_text_fast(text));
    in_order(&analyze_text_slow(text));
    let accented = "\u{e9}t\u{e9} hiver \u{e9}t\u{e9} automne \u{ea}tre avoir \u{ea}tre \u{e0} la";
    in_order(&analyze_text_fast(accented));
    in_order(&analyze_text_slow(accented));
    in_order(&analyze_text_fast(&generate_test_text(100)));
    in_order(&analyze_text_slow(&generate_test_text(37)));
}

#[test]
fn short_report_is_out_of_order_where_counts_rise() {
    let stats = analyze_text_fast("rust rust speed");
    let first = &stats.top_words[6];
    let second = &stats.top_words[7];
    assert_eq!(first, &("performance".to_string(), 0));
    assert_eq!(second, &("rust".to_string(), 2));
}

#[test]
fn lists_are_prefixes_of_the_whole_order() {
    let text = "one two two three three three four four four four five five five five five \
                six seven eight nine ten eleven twelve thirteen";
    let mut counts: Vec<(String, usize)> = Vec::new();
    for piece in text.split_whitespace() {
        match counts.iter_mut().find(|entry| entry.0 == piece) {
            Some(entry) => entry.1 += 1,
            None => counts.push((piece.to_string(), 1)),
        }
    }
    let mut by_count = counts.clone();
    by_count.sort_by(|a, b| b.1.cmp(&a.1).then(a.0.cmp(&b.0)));
    let mut by_length: Vec<String> = counts.iter().map(|entry| entry.0.clone()).collect();
    by_length.sort_by(|a, b| b.len().cmp(&a.len()).then(a.cmp(b)));
    for stats in [analyze_text_fast(text), analyze_text_slow(text)] {
        assert_eq!(stats.word_count, 13);
        assert_eq!(stats.top_words, by_count[..10].to_vec());
        assert_eq!(stats.longest_words, by_length[..5].to_vec());
    }
}
