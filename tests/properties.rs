use grep_matcher::{is_match, match_pattern, parse_pattern, Pattern, PatternError};

#[test]
fn literal_pattern_matches_where_text_holds_it() {
    assert!(match_pattern("hello world", "wor"));
    assert!(!match_pattern("hello world", "xyz"));
    assert!(match_pattern("abc", "abc"));
    assert!(!match_pattern("ab", "abc"));
}

#[test]
fn anchors_fix_the_position() {
    assert!(match_pattern("abcde", "^abc"));
    assert!(!match_pattern("hello world", "^world"));
    assert!(match_pattern("log", "log$"));
    assert!(!match_pattern("logs", "log$"));
}

#[test]
fn alternation_takes_any_branch() {
    assert!(match_pattern("cat", "(dog|cat)"));
    assert!(!match_pattern("fish", "(dog|cat)"));
}

#[test]
fn backreference_repeats_the_capture() {
    assert!(match_pattern("cat and cat", "(cat) and \\1"));
    assert!(!match_pattern("cat and dog", "(cat) and \\1"));
    assert!(match_pattern("cat-cat", "(dog|cat)-\\1"));
    assert!(!match_pattern("cat-dog", "(dog|cat)-\\1"));
    assert!(match_pattern("aaa,aaa", "(a+),\\1"));
    assert!(match_pattern("ab1-ab1", "(\\w+\\d)-\\1"));
}

#[test]
fn quantifiers_repeat_the_node_before_them() {
    assert!(match_pattern("aaab", "a+b"));
    assert!(!match_pattern("b", "a+b"));
    assert!(match_pattern("logs", "log?s"));
    assert!(!match_pattern("loggs", "log?s"));
}

#[test]
fn compiling_twice_gives_the_same_nodes() {
    let a = parse_pattern("^(\\w+) and [^x]?\\1$").unwrap();
    let b = parse_pattern("^(\\w+) and [^x]?\\1$").unwrap();
    assert_eq!(a, b);
    for text in ["cat and cat", "cat and dog", "x and yx", ""] {
        assert_eq!(is_match(&a, text), is_match(&b, text));
    }
}

#[test]
fn empty_pattern_matches_every_text() {
    assert!(match_pattern("", ""));
    assert!(match_pattern("anything", ""));
    assert_eq!(parse_pattern(""), Ok(vec![]));
    assert!(is_match(&vec![], ""));
}

#[test]
fn both_anchors_ask_for_the_whole_text() {
    assert!(match_pattern("abc", "^abc$"));
    assert!(!match_pattern("abcd", "^abc$"));
    assert!(!match_pattern("xabc", "^abc$"));
    assert!(match_pattern("", "^$"));
    assert!(!match_pattern("a", "^$"));
    assert!(match_pattern("aaa", "^a+$"));
}

#[test]
fn errors_name_what_is_wrong() {
    assert_eq!(parse_pattern("abc\\"), Err(PatternError::DanglingEscape));
    assert_eq!(parse_pattern("+a"), Err(PatternError::DanglingQuantifier));
    assert_eq!(parse_pattern("?"), Err(PatternError::DanglingQuantifier));
    assert_eq!(parse_pattern("^+"), Err(PatternError::DanglingQuantifier));
    assert_eq!(parse_pattern("(+)"), Err(PatternError::DanglingQuantifier));
    assert_eq!(parse_pattern("[abc"), Err(PatternError::UnterminatedClass));
    assert_eq!(parse_pattern("(abc"), Err(PatternError::UnterminatedGroup));
    assert_eq!(parse_pattern("(a\\)"), Err(PatternError::UnterminatedGroup));
    assert_eq!(parse_pattern("a^"), Err(PatternError::MisplacedAnchor));
    assert_eq!(parse_pattern("a$b"), Err(PatternError::MisplacedAnchor));
    assert_eq!(parse_pattern("(^a)"), Err(PatternError::MisplacedAnchor));
    assert_eq!(parse_pattern("(a$)"), Err(PatternError::MisplacedAnchor));
    assert_eq!(parse_pattern("\\1"), Err(PatternError::UnknownBackreference));
    assert_eq!(parse_pattern("(a)\\2"), Err(PatternError::UnknownBackreference));
    assert!(!match_pattern("a", "[a"));
}

#[test]
fn escapes_and_classes_stand_for_text() {
    assert_eq!(parse_pattern("\\."), Ok(vec![Pattern::Literal('.')]));
    assert!(match_pattern("a.b", "a\\.b"));
    assert!(!match_pattern("axb", "a\\.b"));
    assert!(match_pattern("x)", "x)"));
    assert!(match_pattern("a|b", "a|b"));
    assert_eq!(
        parse_pattern("[)|]"),
        Ok(vec![Pattern::PositiveGroup(")|".to_string())])
    );
    assert_eq!(parse_pattern("[]"), Ok(vec![Pattern::PositiveGroup(String::new())]));
    assert!(!match_pattern("abc", "[]"));
    assert_eq!(parse_pattern("\\0"), Ok(vec![Pattern::Literal('0')]));
}

#[test]
fn nested_groups_take_indices_in_order_of_opening() {
    assert_eq!(
        parse_pattern("((a)|b)"),
        Ok(vec![Pattern::Alternation(
            vec![
                vec![Pattern::CapturingGroup(vec![Pattern::Literal('a')], 2)],
                vec![Pattern::Literal('b')]
            ],
            1
        )])
    );
    assert!(match_pattern("ab-ab-b", "((a)(b))-\\1-\\3"));
    assert!(!match_pattern("ab-ab-a", "((a)(b))-\\1-\\3"));
}

#[test]
fn backtracking_reconsiders_branches_and_counts() {
    assert!(match_pattern("abc", "(a|ab)c"));
    assert!(match_pattern("aaab", "a+ab"));
    assert!(match_pattern("xx", "^(x?)+$"));
    assert!(!match_pattern("xy", "^(x?)+$"));
    assert!(match_pattern("ac", "ab?c"));
}

#[test]
fn word_class_reads_unicode_letters_and_digits() {
    assert!(match_pattern("é", "\\w"));
    assert!(match_pattern("٣", "\\w"));
    assert!(!match_pattern("£", "\\w"));
    assert!(!match_pattern("٣", "\\d"));
}

#[test]
fn is_match_runs_nodes_built_by_hand() {
    let nodes = vec![
        Pattern::StartOfString,
        Pattern::OneOrMore(Box::new(Pattern::Digit)),
        Pattern::EndOfString,
    ];
    assert!(is_match(&nodes, "2024"));
    assert!(!is_match(&nodes, "20a4"));
    let back = vec![Pattern::Backreference(1)];
    assert!(!is_match(&back, "abc"));
    assert!(is_match(&vec![Pattern::NegativeGroup("ab".to_string())], "abc"));
    assert!(!is_match(&vec![Pattern::NegativeGroup("abc".to_string())], "abc"));
}

#[test]
fn word_char_adds_the_underscore() {
    assert!(grep_matcher::semantics::is_word_char(true, 'a'));
    assert!(grep_matcher::semantics::is_word_char(false, '_'));
    assert!(!grep_matcher::semantics::is_word_char(false, '-'));
}
