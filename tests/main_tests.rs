use grep_matcher::match_pattern;

#[test]
fn main_test_match_pattern_single_letter() {
    assert_eq!(match_pattern("hello world", "h"), true);
    assert_eq!(match_pattern("hello world", "w"), true);
    assert_eq!(match_pattern("hello world", "f"), false);
    assert_eq!(match_pattern("hello world", "a"), false);
}

#[test]
fn test_match_pattern_single_digit() {
    assert_eq!(match_pattern("hello world", r"\d"), false);
    assert_eq!(match_pattern("hello 1 world", r"\d"), true);
    assert_eq!(match_pattern("2 hello world", r"\d"), true);
    assert_eq!(match_pattern("hello world 3", r"\d"), true);
    assert_eq!(match_pattern("Cia0", r"\d"), true);
}
