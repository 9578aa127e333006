use unfurl::text::{contains_case_insensitive, usize_to_string};

#[test]
fn match_ignores_the_case_of_the_content() {
    assert!(contains_case_insensitive("Hello World", "world"));
    assert!(contains_case_insensitive("HELLO", "ell"));
    assert!(!contains_case_insensitive("Hello", "xyz"));
}

#[test]
fn empty_query_matches_nothing() {
    assert!(!contains_case_insensitive("anything", ""));
    assert!(!contains_case_insensitive("", ""));
}

#[test]
fn query_is_expected_lower_case() {
    assert!(!contains_case_insensitive("ABC", "ABC"));
    assert!(contains_case_insensitive("ABC", "abc"));
}

#[test]
fn only_ascii_letters_are_folded() {
    assert!(!contains_case_insensitive("ÄB", "äb"));
    assert!(contains_case_insensitive("ÄB", "Äb"));
}

#[test]
fn query_longer_than_content_does_not_match() {
    assert!(!contains_case_insensitive("ab", "abc"));
    assert!(contains_case_insensitive("abc", "abc"));
}

#[test]
fn indices_are_written_in_decimal() {
    assert_eq!(usize_to_string(0), "0");
    assert_eq!(usize_to_string(7), "7");
    assert_eq!(usize_to_string(10), "10");
    assert_eq!(usize_to_string(1234567890), "1234567890");
    assert_eq!(usize_to_string(usize::MAX), usize::MAX.to_string());
}
