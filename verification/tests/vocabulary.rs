use text_analyzer::vocabulary::match_hot_lower;

#[test]
fn match_hot_lower_finds_each_word() {
    assert_eq!(match_hot_lower(b"rust"), Some(0));
    assert_eq!(match_hot_lower(b"performance"), Some(1));
    assert_eq!(match_hot_lower(b"optimization"), Some(2));
    assert_eq!(match_hot_lower(b"memory"), Some(3));
    assert_eq!(match_hot_lower(b"speed"), Some(4));
    assert_eq!(match_hot_lower(b"efficiency"), Some(5));
    assert_eq!(match_hot_lower(b"benchmark"), Some(6));
    assert_eq!(match_hot_lower(b"algorithm"), Some(7));
    assert_eq!(match_hot_lower(b"data"), Some(8));
    assert_eq!(match_hot_lower(b"structure"), Some(9));
}

#[test]
fn match_hot_lower_rejects_other_tokens() {
    assert_eq!(match_hot_lower(b""), None);
    assert_eq!(match_hot_lower(b"rusty"), None);
    assert_eq!(match_hot_lower(b"rus"), None);
    assert_eq!(match_hot_lower(b"spead"), None);
    assert_eq!(match_hot_lower(b"zzz"), None);
}
