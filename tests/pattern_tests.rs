use grep_matcher::{parse_pattern, Pattern, PatternError};

fn lit(c: char) -> Pattern {
    Pattern::Literal(c)
}

fn group(body: Vec<Pattern>, index: usize) -> Pattern {
    Pattern::CapturingGroup(body, index)
}

fn zero_or_one(p: Pattern) -> Pattern {
    Pattern::ZeroOrOne(Box::new(p))
}

fn one_or_more(p: Pattern) -> Pattern {
    Pattern::OneOrMore(Box::new(p))
}

fn positive(members: &str) -> Pattern {
    Pattern::PositiveGroup(members.to_string())
}

fn negative(members: &str) -> Pattern {
    Pattern::NegativeGroup(members.to_string())
}

#[test]
fn pattern_test_parse_pattern_with_literal() {
    assert_eq!(parse_pattern("h"), Ok(vec![lit('h')]));
    assert_eq!(parse_pattern("z"), Ok(vec![lit('z')]));
    assert_eq!(parse_pattern("zoz"), Ok(vec![lit('z'), lit('o'), lit('z')]));
}

#[test]
fn pattern_test_parse_pattern_with_digit() {
    assert_eq!(parse_pattern(r"\d"), Ok(vec![Pattern::Digit]));
    assert_eq!(parse_pattern(r"\d\d"), Ok(vec![Pattern::Digit, Pattern::Digit]));
}

#[test]
fn pattern_test_parse_pattern_with_alphanumeric() {
    assert_eq!(parse_pattern(r"\w"), Ok(vec![Pattern::Alphanumeric]));
    assert_eq!(
        parse_pattern(r"\w\w"),
        Ok(vec![Pattern::Alphanumeric, Pattern::Alphanumeric])
    );
}

#[test]
fn pattern_test_parse_pattern_with_positive_group() {
    assert_eq!(parse_pattern("[a]"), Ok(vec![positive("a")]));
    assert_eq!(parse_pattern("[abc]"), Ok(vec![positive("abc")]));
}

#[test]
fn pattern_test_parse_pattern_with_negative_group() {
    assert_eq!(parse_pattern("[^a]"), Ok(vec![negative("a")]));
    assert_eq!(parse_pattern("[^abc]"), Ok(vec![negative("abc")]));
}

#[test]
fn pattern_test_parse_pattern_with_start_of_string() {
    assert_eq!(parse_pattern("^h"), Ok(vec![Pattern::StartOfString, lit('h')]));
    assert_eq!(
        parse_pattern("^abc"),
        Ok(vec![Pattern::StartOfString, lit('a'), lit('b'), lit('c')])
    );
    assert_eq!(
        parse_pattern("^hey"),
        Ok(vec![Pattern::StartOfString, lit('h'), lit('e'), lit('y')])
    );
}

#[test]
fn pattern_test_parse_pattern_with_end_of_string() {
    assert_eq!(parse_pattern("h$"), Ok(vec![lit('h'), Pattern::EndOfString]));
    assert_eq!(
        parse_pattern("abc$"),
        Ok(vec![lit('a'), lit('b'), lit('c'), Pattern::EndOfString])
    );
    assert_eq!(
        parse_pattern("hey$"),
        Ok(vec![lit('h'), lit('e'), lit('y'), Pattern::EndOfString])
    );
}

#[test]
fn pattern_test_parse_pattern_with_zero_or_one() {
    assert_eq!(parse_pattern("h?"), Ok(vec![zero_or_one(lit('h'))]));
    assert_eq!(parse_pattern("A?"), Ok(vec![zero_or_one(lit('A'))]));
}

#[test]
fn pattern_test_parse_pattern_with_one_or_more() {
    assert_eq!(parse_pattern("h+"), Ok(vec![one_or_more(lit('h'))]));
    assert_eq!(parse_pattern("A+"), Ok(vec![one_or_more(lit('A'))]));
}

#[test]
fn pattern_test_parse_pattern_with_wildcard() {
    assert_eq!(parse_pattern("."), Ok(vec![Pattern::Wildcard]));
    assert_eq!(
        parse_pattern("d.g.o"),
        Ok(vec![lit('d'), Pattern::Wildcard, lit('g'), Pattern::Wildcard, lit('o')])
    );
}

#[test]
fn pattern_test_parse_pattern_with_alternation() {
    assert_eq!(parse_pattern("(a)"), Ok(vec![group(vec![lit('a')], 1)]));
    assert_eq!(
        parse_pattern("(a|b|cc)"),
        Ok(vec![Pattern::Alternation(
            vec![vec![lit('a')], vec![lit('b')], vec![lit('c'), lit('c')]],
            1
        )])
    );
}

#[test]
fn pattern_test_parse_pattern_with_combinations_of_patterns() {
    assert_eq!(parse_pattern("[a][b]"), Ok(vec![positive("a"), positive("b")]));
    assert_eq!(parse_pattern("[a]b"), Ok(vec![positive("a"), lit('b')]));
    assert_eq!(parse_pattern("a[bc]"), Ok(vec![lit('a'), positive("bc")]));
    assert_eq!(parse_pattern("a[^bc]"), Ok(vec![lit('a'), negative("bc")]));
    assert_eq!(
        parse_pattern(r"\d\d\ds"),
        Ok(vec![Pattern::Digit, Pattern::Digit, Pattern::Digit, lit('s')])
    );
    assert_eq!(
        parse_pattern(r"\d\w\dxxx"),
        Ok(vec![
            Pattern::Digit,
            Pattern::Alphanumeric,
            Pattern::Digit,
            lit('x'),
            lit('x'),
            lit('x'),
        ])
    );
    assert_eq!(
        parse_pattern(r"^yolo"),
        Ok(vec![Pattern::StartOfString, lit('y'), lit('o'), lit('l'), lit('o')])
    );
    assert_eq!(
        parse_pattern("ab?c"),
        Ok(vec![lit('a'), zero_or_one(lit('b')), lit('c')])
    );
    assert_eq!(
        parse_pattern("hey?"),
        Ok(vec![lit('h'), lit('e'), zero_or_one(lit('y'))])
    );
    assert_eq!(
        parse_pattern("ab+c"),
        Ok(vec![lit('a'), one_or_more(lit('b')), lit('c')])
    );
    assert_eq!(
        parse_pattern("hey+"),
        Ok(vec![lit('h'), lit('e'), one_or_more(lit('y'))])
    );
    assert_eq!(
        parse_pattern("h?e.y+"),
        Ok(vec![
            zero_or_one(lit('h')),
            lit('e'),
            Pattern::Wildcard,
            one_or_more(lit('y'))
        ])
    );
    assert_eq!(
        parse_pattern("(dog|.ss|f?i+)"),
        Ok(vec![Pattern::Alternation(
            vec![
                vec![lit('d'), lit('o'), lit('g')],
                vec![Pattern::Wildcard, lit('s'), lit('s')],
                vec![zero_or_one(lit('f')), one_or_more(lit('i'))],
            ],
            1
        )])
    );
}

#[test]
fn tests_test_parse_pattern_with_literal() {
    assert_eq!(parse_pattern("h"), Ok(vec![lit('h')]));
    assert_eq!(parse_pattern("z"), Ok(vec![lit('z')]));
    assert_eq!(parse_pattern("zoz"), Ok(vec![lit('z'), lit('o'), lit('z')]));
}

#[test]
fn tests_test_parse_pattern_with_digit() {
    assert_eq!(parse_pattern(r"\d"), Ok(vec![Pattern::Digit]));
    assert_eq!(parse_pattern(r"\d\d"), Ok(vec![Pattern::Digit, Pattern::Digit]));
}

#[test]
fn tests_test_parse_pattern_with_alphanumeric() {
    assert_eq!(parse_pattern(r"\w"), Ok(vec![Pattern::Alphanumeric]));
    assert_eq!(
        parse_pattern(r"\w\w"),
        Ok(vec![Pattern::Alphanumeric, Pattern::Alphanumeric])
    );
}

#[test]
fn tests_test_parse_pattern_with_positive_group() {
    assert_eq!(parse_pattern("[a]"), Ok(vec![positive("a")]));
    assert_eq!(parse_pattern("[abc]"), Ok(vec![positive("abc")]));
}

#[test]
fn tests_test_parse_pattern_with_negative_group() {
    assert_eq!(parse_pattern("[^a]"), Ok(vec![negative("a")]));
    assert_eq!(parse_pattern("[^abc]"), Ok(vec![negative("abc")]));
}

#[test]
fn tests_test_parse_pattern_with_start_of_string() {
    assert_eq!(parse_pattern("^h"), Ok(vec![Pattern::StartOfString, lit('h')]));
    assert_eq!(
        parse_pattern("^abc"),
        Ok(vec![Pattern::StartOfString, lit('a'), lit('b'), lit('c')])
    );
    assert_eq!(
        parse_pattern("^(hey)"),
        Ok(vec![
            Pattern::StartOfString,
            group(vec![lit('h'), lit('e'), lit('y')], 1)
        ])
    );
    assert_eq!(
        parse_pattern("^(\\w+)"),
        Ok(vec![
            Pattern::StartOfString,
            group(vec![one_or_more(Pattern::Alphanumeric)], 1)
        ])
    );
}

#[test]
fn tests_test_parse_pattern_with_end_of_string() {
    assert_eq!(parse_pattern("h$"), Ok(vec![lit('h'), Pattern::EndOfString]));
    assert_eq!(
        parse_pattern("abc$"),
        Ok(vec![lit('a'), lit('b'), lit('c'), Pattern::EndOfString])
    );
    assert_eq!(
        parse_pattern("(\\w)$"),
        Ok(vec![group(vec![Pattern::Alphanumeric], 1), Pattern::EndOfString])
    );
}

#[test]
fn tests_test_parse_pattern_with_zero_or_one() {
    assert_eq!(parse_pattern("h?"), Ok(vec![zero_or_one(lit('h'))]));
    assert_eq!(parse_pattern("A?"), Ok(vec![zero_or_one(lit('A'))]));
}

#[test]
fn tests_test_parse_pattern_with_one_or_more() {
    assert_eq!(parse_pattern("h+"), Ok(vec![one_or_more(lit('h'))]));
    assert_eq!(parse_pattern("A+"), Ok(vec![one_or_more(lit('A'))]));
}

#[test]
fn tests_test_parse_pattern_with_wildcard() {
    assert_eq!(parse_pattern("."), Ok(vec![Pattern::Wildcard]));
    assert_eq!(
        parse_pattern("d.g.o"),
        Ok(vec![lit('d'), Pattern::Wildcard, lit('g'), Pattern::Wildcard, lit('o')])
    );
}

#[test]
fn test_parse_pattern_with_capturing_group() {
    assert_eq!(parse_pattern("(a)"), Ok(vec![group(vec![lit('a')], 1)]));
    assert_eq!(
        parse_pattern("(c\\d)"),
        Ok(vec![group(vec![lit('c'), Pattern::Digit], 1)])
    );
}

#[test]
fn tests_test_parse_pattern_with_alternation() {
    assert_eq!(
        parse_pattern("(a|b)"),
        Ok(vec![Pattern::Alternation(vec![vec![lit('a')], vec![lit('b')]], 1)])
    );
    assert_eq!(
        parse_pattern("(a|b|cc)"),
        Ok(vec![Pattern::Alternation(
            vec![vec![lit('a')], vec![lit('b')], vec![lit('c'), lit('c')]],
            1
        )])
    );
}

#[test]
fn test_parse_pattern_with_backreference() {
    assert_eq!(
        parse_pattern("(a) \\1.(b) \\2"),
        Ok(vec![
            group(vec![lit('a')], 1),
            lit(' '),
            Pattern::Backreference(1),
            Pattern::Wildcard,
            group(vec![lit('b')], 2),
            lit(' '),
            Pattern::Backreference(2)
        ])
    );
    // only one capturing construct comes before `\2`
    assert_eq!(
        parse_pattern("(a|b).\\1.\\2"),
        Err(PatternError::UnknownBackreference)
    );
}

#[test]
fn tests_test_parse_pattern_with_combinations_of_patterns() {
    assert_eq!(parse_pattern("[a][b]"), Ok(vec![positive("a"), positive("b")]));
    assert_eq!(parse_pattern("[a]b"), Ok(vec![positive("a"), lit('b')]));
    assert_eq!(parse_pattern("a[bc]"), Ok(vec![lit('a'), positive("bc")]));
    assert_eq!(parse_pattern("a[^bc]"), Ok(vec![lit('a'), negative("bc")]));
    assert_eq!(
        parse_pattern(r"\d\d\ds"),
        Ok(vec![Pattern::Digit, Pattern::Digit, Pattern::Digit, lit('s')])
    );
    assert_eq!(
        parse_pattern(r"\d\w\dxxx"),
        Ok(vec![
            Pattern::Digit,
            Pattern::Alphanumeric,
            Pattern::Digit,
            lit('x'),
            lit('x'),
            lit('x'),
        ])
    );
    assert_eq!(
        parse_pattern("ab?c"),
        Ok(vec![lit('a'), zero_or_one(lit('b')), lit('c')])
    );
    assert_eq!(
        parse_pattern("hey?"),
        Ok(vec![lit('h'), lit('e'), zero_or_one(lit('y'))])
    );
    assert_eq!(
        parse_pattern("ab+c"),
        Ok(vec![lit('a'), one_or_more(lit('b')), lit('c')])
    );
    assert_eq!(
        parse_pattern("hey+"),
        Ok(vec![lit('h'), lit('e'), one_or_more(lit('y'))])
    );
    assert_eq!(
        parse_pattern("h?e.y+"),
        Ok(vec![
            zero_or_one(lit('h')),
            lit('e'),
            Pattern::Wildcard,
            one_or_more(lit('y'))
        ])
    );
    assert_eq!(
        parse_pattern("(c?**\\w)"),
        Ok(vec![group(
            vec![zero_or_one(lit('c')), lit('*'), lit('*'), Pattern::Alphanumeric],
            1
        )])
    );
    assert_eq!(
        parse_pattern("(dog|.ss|f?i+)"),
        Ok(vec![Pattern::Alternation(
            vec![
                vec![lit('d'), lit('o'), lit('g')],
                vec![Pattern::Wildcard, lit('s'), lit('s')],
                vec![zero_or_one(lit('f')), one_or_more(lit('i'))],
            ],
            1
        )])
    );
    assert_eq!(
        parse_pattern("(.a)_\\1.(b+)_\\2"),
        Ok(vec![
            group(vec![Pattern::Wildcard, lit('a')], 1),
            lit('_'),
            Pattern::Backreference(1),
            Pattern::Wildcard,
            group(vec![one_or_more(lit('b'))], 2),
            lit('_'),
            Pattern::Backreference(2)
        ])
    );
    assert_eq!(
        parse_pattern("(\\w\\w\\w\\w \\d\\d\\d) is doing \\1 times"),
        Ok(vec![
            group(
                vec![
                    Pattern::Alphanumeric,
                    Pattern::Alphanumeric,
                    Pattern::Alphanumeric,
                    Pattern::Alphanumeric,
                    lit(' '),
                    Pattern::Digit,
                    Pattern::Digit,
                    Pattern::Digit,
                ],
                1
            ),
            lit(' '),
            lit('i'),
            lit('s'),
            lit(' '),
            lit('d'),
            lit('o'),
            lit('i'),
            lit('n'),
            lit('g'),
            lit(' '),
            Pattern::Backreference(1),
            lit(' '),
            lit('t'),
            lit('i'),
            lit('m'),
            lit('e'),
            lit('s'),
        ])
    );
    assert_eq!(
        parse_pattern("([abcd]+) is \\1, not [^xyz]+"),
        Ok(vec![
            group(vec![one_or_more(positive("abcd"))], 1),
            lit(' '),
            lit('i'),
            lit('s'),
            lit(' '),
            Pattern::Backreference(1),
            lit(','),
            lit(' '),
            lit('n'),
            lit('o'),
            lit('t'),
            lit(' '),
            one_or_more(negative("xyz"))
        ])
    );
    assert_eq!(
        parse_pattern("^(\\w+) and \\1$"),
        Ok(vec![
            Pattern::StartOfString,
            group(vec![one_or_more(Pattern::Alphanumeric)], 1),
            lit(' '),
            lit('a'),
            lit('n'),
            lit('d'),
            lit(' '),
            Pattern::Backreference(1),
            Pattern::EndOfString
        ])
    );
}

#[test]
fn test_parse_pattern() {
    assert_eq!(parse_pattern("h"), Ok(vec![lit('h')]));
    assert_eq!(parse_pattern(r"\d"), Ok(vec![Pattern::Digit]));
    assert_eq!(parse_pattern(r"\w"), Ok(vec![Pattern::Alphanumeric]));
    assert_eq!(parse_pattern("[^a]"), Ok(vec![negative("a")]));
    assert_eq!(parse_pattern("[a]"), Ok(vec![positive("a")]));
    assert_eq!(parse_pattern("[a][b]"), Ok(vec![positive("a"), positive("b")]));
    assert_eq!(parse_pattern("[a]b"), Ok(vec![positive("a"), lit('b')]));
    assert_eq!(parse_pattern("a[b]"), Ok(vec![lit('a'), positive("b")]));
    assert_eq!(
        parse_pattern(r"\d\d\ds"),
        Ok(vec![Pattern::Digit, Pattern::Digit, Pattern::Digit, lit('s')])
    );
}
