use text_analyzer::order::word_precedes;
use text_analyzer::ranking::{entry_outranks, leading_entries};
use text_analyzer::report::{compile_record, rank_entries, spell};
use text_analyzer::slow::{same_word, select_by_scanning};

fn word(text: &str) -> Vec<char> {
    text.chars().collect()
}

fn entries(list: &[(&str, usize)]) -> Vec<(Vec<char>, usize)> {
    list.iter().map(|(text, count)| (word(text), *count)).collect()
}

#[test]
fn word_order_is_lexicographic() {
    assert!(word_precedes(&word("apple"), &word("pear")));
    assert!(!word_precedes(&word("pear"), &word("apple")));
    assert!(word_precedes(&word("ab"), &word("abc")));
    assert!(!word_precedes(&word("abc"), &word("ab")));
    assert!(word_precedes(&word(""), &word("a")));
    assert!(!word_precedes(&word("a"), &word("")));
    assert!(word_precedes(&word("abc"), &word("abd")));
    assert!(word_precedes(&word("Z"), &word("a")));
}

#[test]
fn no_word_precedes_itself() {
    assert!(!word_precedes(&word("same"), &word("same")));
    assert!(!word_precedes(&word(""), &word("")));
}

#[test]
fn word_order_goes_by_code_point() {
    assert!(word_precedes(&word("z"), &word("\u{e9}")));
    assert!(word_precedes(&word("caf\u{e9}"), &word("caf\u{ea}")));
    assert!(word_precedes(&word("\u{ffff}"), &word("\u{10000}")));
    assert_eq!(
        word_precedes(&word("z"), &word("\u{e9}")),
        "z".to_string() < "\u{e9}".to_string()
    );
}

#[test]
fn same_word_compares_every_character() {
    assert!(same_word(&word("rust"), &word("rust")));
    assert!(!same_word(&word("rust"), &word("rust ")));
    assert!(!same_word(&word("rust"), &word("ruse")));
    assert!(same_word(&word(""), &word("")));
}

#[test]
fn heavier_entry_outranks() {
    let list = entries(&[("pear", 3), ("apple", 2), ("fig", 3), ("kiwi", 3)]);
    assert!(entry_outranks(&list, 0, 1, false));
    assert!(!entry_outranks(&list, 1, 0, false));
    assert!(entry_outranks(&list, 2, 0, false));
    assert!(!entry_outranks(&list, 0, 2, false));
    assert!(!entry_outranks(&list, 0, 0, false));
}

#[test]
fn longer_entry_outranks_by_length() {
    let list = entries(&[("pear", 3), ("apple", 2), ("fig", 9), ("kiwi", 1)]);
    assert!(entry_outranks(&list, 1, 0, true));
    assert!(entry_outranks(&list, 0, 2, true));
    assert!(entry_outranks(&list, 3, 0, true));
    assert!(!entry_outranks(&list, 0, 3, true));
}

#[test]
fn leading_entries_by_count() {
    let list = entries(&[("pear", 2), ("fig", 1), ("apple", 2), ("kiwi", 5), ("plum", 1)]);
    assert_eq!(leading_entries(&list, 10, false), vec![3, 2, 0, 1, 4]);
    assert_eq!(leading_entries(&list, 3, false), vec![3, 2, 0]);
    assert_eq!(leading_entries(&list, 1, false), vec![3]);
    assert_eq!(leading_entries(&list, 0, false), Vec::<usize>::new());
}

#[test]
fn leading_entries_by_length() {
    let list = entries(&[("pear", 2), ("fig", 1), ("apple", 2), ("kiwi", 5), ("plum", 1)]);
    assert_eq!(leading_entries(&list, 5, true), vec![2, 3, 0, 4, 1]);
    assert_eq!(leading_entries(&list, 2, true), vec![2, 3]);
}

#[test]
fn leading_entries_of_nothing() {
    let list = entries(&[]);
    assert_eq!(leading_entries(&list, 10, false), Vec::<usize>::new());
    assert_eq!(select_by_scanning(&list, 10, false), Vec::<usize>::new());
}

#[test]
fn scanning_picks_what_insertion_picks() {
    let list = entries(&[
        ("delta", 4),
        ("alpha", 4),
        ("omega", 1),
        ("beta", 7),
        ("gamma", 4),
        ("pi", 2),
        ("epsilon", 2),
        ("mu", 9),
        ("nu", 9),
        ("xi", 1),
        ("rho", 3),
        ("tau", 3),
        ("upsilon", 1),
    ]);
    for limit in 0..15 {
        assert_eq!(
            select_by_scanning(&list, limit, false),
            leading_entries(&list, limit, false)
        );
        assert_eq!(
            select_by_scanning(&list, limit, true),
            leading_entries(&list, limit, true)
        );
    }
    assert_eq!(
        select_by_scanning(&list, 10, false),
        vec![7, 8, 3, 1, 0, 4, 10, 11, 6, 5]
    );
    assert_eq!(select_by_scanning(&list, 5, true), vec![6, 12, 1, 0, 4]);
}

#[test]
fn leading_entries_are_a_prefix_of_the_whole_order() {
    let list = entries(&[
        ("kappa", 3),
        ("iota", 3),
        ("theta", 8),
        ("eta", 1),
        ("zeta", 8),
        ("lambda", 2),
    ]);
    let whole = leading_entries(&list, list.len(), false);
    let mut sorted: Vec<usize> = (0..list.len()).collect();
    sorted.sort_by(|a, b| list[*b].1.cmp(&list[*a].1).then(list[*a].0.cmp(&list[*b].0)));
    assert_eq!(whole, sorted);
    for limit in 0..list.len() {
        assert_eq!(leading_entries(&list, limit, false), sorted[..limit].to_vec());
    }
}

#[test]
fn spell_writes_the_word() {
    assert_eq!(spell(&word("caf\u{e9}")), "caf\u{e9}");
    assert_eq!(spell(&word("")), "");
}

#[test]
fn rank_entries_builds_both_lists() {
    let list = entries(&[("pear", 2), ("fig", 1), ("apple", 2), ("kiwi", 5), ("plum", 1)]);
    let stats = rank_entries(&list, 17);
    assert_eq!(stats.word_count, 5);
    assert_eq!(stats.char_count, 17);
    assert_eq!(stats.time_ns, 0);
    assert_eq!(
        stats.top_words,
        vec![
            ("kiwi".to_string(), 5),
            ("apple".to_string(), 2),
            ("pear".to_string(), 2),
            ("fig".to_string(), 1),
            ("plum".to_string(), 1),
        ]
    );
    assert_eq!(stats.longest_words, vec!["apple", "kiwi", "pear", "plum", "fig"]);
}

#[test]
fn compile_record_lists_the_places_given() {
    let list = entries(&[("pear", 2), ("fig", 1), ("apple", 2)]);
    let stats = compile_record(&list, &vec![2, 0], &vec![1], 12);
    assert_eq!(stats.word_count, 3);
    assert_eq!(stats.char_count, 12);
    assert_eq!(stats.top_words, vec![("apple".to_string(), 2), ("pear".to_string(), 2)]);
    assert_eq!(stats.longest_words, vec!["fig"]);
}
