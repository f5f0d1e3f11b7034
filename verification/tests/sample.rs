use text_analyzer::generate_test_text;

#[test]
fn sample_text_of_no_words_is_empty() {
    assert_eq!(generate_test_text(0), "");
}

#[test]
fn sample_text_of_one_word() {
    assert_eq!(generate_test_text(1), "rust");
}

#[test]
fn sample_text_joins_words_with_one_space() {
    assert_eq!(generate_test_text(3), "rust performance optimization");
}

#[test]
fn sample_text_starts_over_after_ten_words() {
    assert_eq!(
        generate_test_text(12),
        "rust performance optimization memory speed efficiency benchmark algorithm data structure rust performance"
    );
}
