use crumble::like::like_match;

#[test]
fn percent_matches_anything() {
    assert!(like_match("hello", "%"));
    assert!(like_match("", "%"));
    assert!(like_match("hello world", "hello%"));
    assert!(like_match("hello world", "%world"));
    assert!(like_match("hello world", "%lo wo%"));
    assert!(!like_match("hello", "hi%"));
}

#[test]
fn underscore_matches_exactly_one_char() {
    assert!(like_match("cat", "c_t"));
    assert!(!like_match("ct", "c_t"));
    assert!(!like_match("caat", "c_t"));
}

#[test]
fn combined_wildcards() {
    assert!(like_match("cataract", "c_t%"));
    assert!(!like_match("dog", "c_t%"));
}

#[test]
fn no_wildcards_requires_exact_match() {
    assert!(like_match("exact", "exact"));
    assert!(!like_match("exact", "exactly"));
}

#[test]
fn empty_pattern_matches_only_empty_text() {
    assert!(like_match("", ""));
    assert!(!like_match("a", ""));
}

#[test]
fn non_ascii_characters_count_as_one() {
    assert!(like_match("héllo", "h_llo"));
    assert!(like_match("日本語", "___"));
    assert!(!like_match("日本語", "__"));
}

#[test]
fn percent_in_the_middle_backtracks() {
    assert!(like_match("abcabc", "a%c"));
    assert!(like_match("abcabd", "a%bd"));
    assert!(!like_match("abcabd", "a%bc"));
}

#[test]
fn leading_percent_matches_when_some_suffix_matches_the_rest() {
    // "b_d" matches the suffix "bcd" of "abcd"
    assert!(like_match("abcd", "%b_d"));
    // no suffix of "abcd" matches "b_"
    assert!(!like_match("abcd", "%b_"));
    // "é" is one character for `_`
    assert!(like_match("é", "_"));
}
