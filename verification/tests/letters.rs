use text_analyzer::letters::{fold_letter_byte, is_letter_char, push_folded};
use text_analyzer::plain::{clean_piece, is_space_char, lower_piece};
use text_analyzer::scan::{
    capacity_hint, is_simple_lower_ascii, scan_ascii, scan_lower_ascii, scan_unicode,
};
use text_analyzer::fast::letters_of;
use text_analyzer::vocabulary::{alphabetical, by_length, spells, vocabulary_word};

fn chars(text: &str) -> Vec<char> {
    text.chars().collect()
}

#[test]
fn ascii_letters_are_letters() {
    for c in 'a'..='z' {
        assert!(is_letter_char(c));
    }
    for c in 'A'..='Z' {
        assert!(is_letter_char(c));
    }
    for c in ['0', '9', ' ', '\n', '@', '[', '`', '{', '_', '-', '\'', '\u{7f}', '\0'] {
        assert!(!is_letter_char(c));
    }
}

#[test]
fn letters_outside_ascii_follow_unicode() {
    assert!(is_letter_char('\u{e9}'));
    assert!(is_letter_char('\u{3b1}'));
    assert!(is_letter_char('\u{4e2d}'));
    assert!(!is_letter_char('\u{a0}'));
    assert!(!is_letter_char('\u{2014}'));
    assert!(!is_letter_char('\u{660}'));
}

#[test]
fn letters_agree_with_the_standard_library_on_ascii() {
    for code in 0u8..128 {
        let c = code as char;
        assert_eq!(is_letter_char(c), c.is_alphabetic());
        assert_eq!(is_space_char(c), c.is_whitespace());
    }
}

#[test]
fn folding_lowers_ascii_capitals() {
    let mut word = chars("x");
    push_folded(&mut word, 'A');
    push_folded(&mut word, 'z');
    push_folded(&mut word, 'Z');
    push_folded(&mut word, '1');
    assert_eq!(word, chars("xazz1"));
}

#[test]
fn folding_follows_unicode_outside_ascii() {
    let mut word = Vec::new();
    push_folded(&mut word, '\u{c9}');
    push_folded(&mut word, '\u{130}');
    push_folded(&mut word, '\u{3a3}');
    assert_eq!(word, chars("\u{e9}i\u{307}\u{3c3}"));
}

#[test]
fn folding_a_byte_sets_one_bit() {
    assert_eq!(fold_letter_byte(b'A'), b'a');
    assert_eq!(fold_letter_byte(b'Z'), b'z');
    assert_eq!(fold_letter_byte(b'a'), b'a');
    assert_eq!(fold_letter_byte(b'q'), b'q');
}

#[test]
fn white_space_is_ascii_or_unicode() {
    for c in [' ', '\t', '\n', '\u{b}', '\u{c}', '\r', '\u{a0}', '\u{2003}', '\u{85}'] {
        assert!(is_space_char(c));
    }
    for c in ['a', '0', '\u{8}', '\u{e}', '\u{1f}', '\u{e9}', '\u{200b}'] {
        assert!(!is_space_char(c));
    }
}

#[test]
fn lowering_a_piece() {
    assert_eq!(lower_piece(&chars("Hello,World!")), chars("hello,world!"));
    assert_eq!(lower_piece(&chars("\u{c9}T\u{c9}")), chars("\u{e9}t\u{e9}"));
    assert_eq!(lower_piece(&chars("\u{39f}\u{394}\u{39f}\u{3a3}")), chars("\u{3bf}\u{3b4}\u{3bf}\u{3c2}"));
    assert_eq!(lower_piece(&chars("")), chars(""));
}

#[test]
fn cleaning_a_piece() {
    assert_eq!(clean_piece(&chars("Don't!")), chars("dont"));
    assert_eq!(clean_piece(&chars("(Hello)")), chars("hello"));
    assert_eq!(clean_piece(&chars("1234")), chars(""));
    assert_eq!(clean_piece(&chars("\u{130}x")), chars("ix"));
}

#[test]
fn capacity_hint_is_one_word_for_64_bytes() {
    assert_eq!(capacity_hint(0), 0);
    assert_eq!(capacity_hint(63), 0);
    assert_eq!(capacity_hint(64), 1);
    assert_eq!(capacity_hint(6400), 100);
    assert_eq!(capacity_hint(64 * 65536), 65536);
    assert_eq!(capacity_hint(64 * 65537), 65536);
    assert_eq!(capacity_hint(usize::MAX), 65536);
}

#[test]
fn simple_lowercase_texts() {
    assert!(is_simple_lower_ascii(""));
    assert!(is_simple_lower_ascii("rust speed  data"));
    assert!(!is_simple_lower_ascii("Rust"));
    assert!(!is_simple_lower_ascii("rust\nspeed"));
    assert!(!is_simple_lower_ascii("rust1"));
    assert!(!is_simple_lower_ascii("a{"));
    assert!(!is_simple_lower_ascii("a`"));
}

#[test]
fn ascii_scanners_count_the_vocabulary_in_place() {
    let (tally, letters) = scan_lower_ascii("rust data rust structure");
    assert_eq!(tally.hot, [2, 0, 0, 0, 0, 0, 0, 0, 1, 1]);
    assert!(tally.table.is_none());
    assert_eq!(letters, 21);
    let (tally, letters) = scan_ascii("Rust, DATA; rust: structure.");
    assert_eq!(tally.hot, [2, 0, 0, 0, 0, 0, 0, 0, 1, 1]);
    assert!(tally.table.is_none());
    assert_eq!(letters, 21);
}

#[test]
fn ascii_scanners_send_other_words_to_the_table() {
    let (tally, letters) = scan_lower_ascii("rust zebra zebra");
    assert_eq!(tally.hot, [1, 0, 0, 0, 0, 0, 0, 0, 0, 0]);
    let table = tally.table.expect("a table");
    assert_eq!(table.len(), 1);
    assert_eq!(table.get("zebra"), Some(&2));
    assert_eq!(letters, 14);
    let (tally, _) = scan_ascii("Rusty rust-y");
    assert_eq!(tally.hot, [1, 0, 0, 0, 0, 0, 0, 0, 0, 0]);
    let table = tally.table.expect("a table");
    assert_eq!(table.len(), 2);
    assert_eq!(table.get("rusty"), Some(&1));
    assert_eq!(table.get("y"), Some(&1));
}

#[test]
fn unicode_scanner_sends_every_word_to_the_table() {
    let (table, letters) = scan_unicode("Rust \u{c9}t\u{e9} rust\u{2014}\u{e9}T\u{c9}");
    assert_eq!(letters, 14);
    assert_eq!(table.len(), 2);
    assert_eq!(table.get("rust"), Some(&2));
    assert_eq!(table.get("\u{e9}t\u{e9}"), Some(&2));
}

#[test]
fn letters_of_a_string() {
    assert_eq!(letters_of("caf\u{e9}"), chars("caf\u{e9}"));
    assert_eq!(letters_of(""), chars(""));
}

#[test]
fn spells_compares_bytes_with_a_word() {
    assert!(spells(b"rust", "rust"));
    assert!(!spells(b"rus", "rust"));
    assert!(!spells(b"rusty", "rust"));
    assert!(!spells(b"ruse", "rust"));
    assert!(spells(b"", ""));
}

#[test]
fn vocabulary_in_its_three_orders() {
    let words: Vec<&str> = (0..10).map(vocabulary_word).collect();
    assert_eq!(
        words,
        vec![
            "rust",
            "performance",
            "optimization",
            "memory",
            "speed",
            "efficiency",
            "benchmark",
            "algorithm",
            "data",
            "structure"
        ]
    );
    let alphabetically: Vec<&str> = (0..10).map(|rank| vocabulary_word(alphabetical(rank))).collect();
    let mut sorted = words.clone();
    sorted.sort();
    assert_eq!(alphabetically, sorted);
    let lengthwise: Vec<&str> = (0..10).map(|rank| vocabulary_word(by_length(rank))).collect();
    let mut sized = words.clone();
    sized.sort_by(|a, b| b.len().cmp(&a.len()).then(a.cmp(b)));
    assert_eq!(lengthwise, sized);
    assert_eq!(
        lengthwise,
        vec![
            "optimization",
            "performance",
            "efficiency",
            "algorithm",
            "benchmark",
            "structure",
            "memory",
            "speed",
            "data",
            "rust"
        ]
    );
}
