use codecrafters_grep::{CharacterClasses, PatternParser};

fn assert_equality_test(pattern_str: &str, expected_pattern: Vec<CharacterClasses>) {
    let parsed_pattern = PatternParser::from(pattern_str).0;

    assert_eq!(
        expected_pattern, parsed_pattern,
        "The pattern didn't parse into expected pattern: {pattern_str}"
    );
}

fn assert_pattern_matches(pattern: &str, input: &str) -> bool {
    let parsed_pattern = PatternParser::from(pattern);

    parsed_pattern.match_input_with_pattern(input)
}

#[test]
fn test_convert_string_to_pattern_parser() {
    let pattern_str = "\\d\\d";
    let expected_pattern = vec![CharacterClasses::Digits, CharacterClasses::Digits];

    assert_equality_test(pattern_str, expected_pattern);

    let pattern_str = "\\d \\d"; // handle whitespace case scenario
    let expected_pattern =
        vec![CharacterClasses::Digits, CharacterClasses::WhiteSpace, CharacterClasses::Digits];
    assert_equality_test(pattern_str, expected_pattern);
    let pattern_str = "\\d \\d[abc]";

    let expected_pattern = vec![
        CharacterClasses::Digits,
        CharacterClasses::WhiteSpace,
        CharacterClasses::Digits,
        CharacterClasses::PositiveMatch(vec!['a', 'b', 'c']),
    ];

    assert_equality_test(pattern_str, expected_pattern);
    let pattern_str = "\\d \\d[abc]literal_val";

    let expected_pattern = vec![
        CharacterClasses::Digits,
        CharacterClasses::WhiteSpace,
        CharacterClasses::Digits,
        CharacterClasses::PositiveMatch(vec!['a', 'b', 'c']),
        CharacterClasses::Literal("literal_val".to_string()),
    ];

    assert_equality_test(pattern_str, expected_pattern);
    let pattern_str = "\\d apple";

    let expected_pattern = vec![
        CharacterClasses::Digits,
        CharacterClasses::WhiteSpace,
        CharacterClasses::Literal("apple".to_string()),
    ];

    assert_equality_test(pattern_str, expected_pattern);
    let pattern_str = "\\d\\d\\d apples";

    let expected_pattern = vec![
        CharacterClasses::Digits,
        CharacterClasses::Digits,
        CharacterClasses::Digits,
        CharacterClasses::WhiteSpace,
        CharacterClasses::Literal("apples".to_string()),
    ];

    assert_equality_test(pattern_str, expected_pattern);
    let pattern_str = "\\d \\w\\w\\ws";

    let expected_pattern = vec![
        CharacterClasses::Digits,
        CharacterClasses::WhiteSpace,
        CharacterClasses::Characters,
        CharacterClasses::Characters,
        CharacterClasses::Characters,
        CharacterClasses::Literal("s".to_string()),
    ];

    assert_equality_test(pattern_str, expected_pattern);

    let pattern_str = "\\d \\w\\w\\ws[abc][^abc]abc";

    let expected_pattern = vec![
        CharacterClasses::Digits,
        CharacterClasses::WhiteSpace,
        CharacterClasses::Characters,
        CharacterClasses::Characters,
        CharacterClasses::Characters,
        CharacterClasses::Literal("s".to_string()),
        CharacterClasses::PositiveMatch(vec!['a', 'b', 'c']),
        CharacterClasses::NegativeMatch(vec!['a', 'b', 'c']),
        CharacterClasses::Literal("abc".to_string()),
    ];

    assert_equality_test(pattern_str, expected_pattern);

    let pattern_str = "^str";
    let expected_pattern =
        vec![CharacterClasses::Anchor(vec![CharacterClasses::Literal("str".to_string())])];

    assert_equality_test(pattern_str, expected_pattern);
    let pattern_str = "^\\d\\d\\d";
    let expected_pattern = vec![CharacterClasses::Anchor(vec![
        CharacterClasses::Digits,
        CharacterClasses::Digits,
        CharacterClasses::Digits,
    ])];

    assert_equality_test(pattern_str, expected_pattern);

    let pattern_str = "^\\d\\w \\d";
    let expected_pattern = vec![CharacterClasses::Anchor(vec![
        CharacterClasses::Digits,
        CharacterClasses::Characters,
        CharacterClasses::WhiteSpace,
        CharacterClasses::Digits,
    ])];

    assert_equality_test(pattern_str, expected_pattern);

    let pattern_str = "end$";
    let expected_pattern =
        vec![CharacterClasses::LineAnchor(vec![CharacterClasses::Literal("end".to_string())])];

    assert_equality_test(pattern_str, expected_pattern);

    let pattern_str = "\\d\\d\\w$";
    let expected_pattern = vec![CharacterClasses::LineAnchor(vec![
        CharacterClasses::Digits,
        CharacterClasses::Digits,
        CharacterClasses::Characters,
    ])];

    assert_equality_test(pattern_str, expected_pattern);

    let pattern_str = "\\d\\d \\w$";
    let expected_pattern = vec![CharacterClasses::LineAnchor(vec![
        CharacterClasses::Digits,
        CharacterClasses::Digits,
        CharacterClasses::WhiteSpace,
        CharacterClasses::Characters,
    ])];

    assert_equality_test(pattern_str, expected_pattern);

    let pattern_str = "^orange$";
    let expected_pattern = vec![CharacterClasses::ImmAnchor(vec![CharacterClasses::Literal(
        "orange".to_string(),
    )])];

    assert_equality_test(pattern_str, expected_pattern);

    let pattern_str = "orange+";
    let expected_pattern = vec![
        CharacterClasses::Literal("orang".to_string()),
        CharacterClasses::PositiveQuantifier(Box::new(CharacterClasses::Literal(
            "e".to_string(),
        ))),
    ];

    assert_equality_test(pattern_str, expected_pattern);

    let pattern_str = "or+ange";
    let expected_pattern = vec![
        CharacterClasses::Literal("o".to_string()),
        CharacterClasses::PositiveQuantifier(Box::new(CharacterClasses::Literal(
            "r".to_string(),
        ))),
        CharacterClasses::Literal("ange".to_string()),
    ];

    assert_equality_test(pattern_str, expected_pattern);

    let pattern_str = "\\d+ days";
    let expected_pattern = vec![
        CharacterClasses::PositiveQuantifier(Box::new(CharacterClasses::Digits)),
        CharacterClasses::WhiteSpace,
        CharacterClasses::Literal("days".to_string()),
    ];

    assert_equality_test(pattern_str, expected_pattern);
}

#[test]
fn test_correct_patter_matching_for_input() {
    // BASIC TESTS
    assert!(assert_pattern_matches("\\d", "1"), "Expected the pattern to match");
    assert!(!assert_pattern_matches("\\d", "w"), "Expected the pattern to not match");
    assert!(assert_pattern_matches("\\d apple", "1 apple"), "Expected the pattern to match");
    assert!(
        assert_pattern_matches("apples \\d\\d\\d", "I got apples 100 from the store"),
        "Expected the pattern to match"
    );
    assert!(
        !assert_pattern_matches("\\d\\d\\d apples", "I got 1 apples from the store"),
        "Expected the pattern to not match"
    );
    assert!(
        !assert_pattern_matches("\\d apples", "1 oranges"),
        "Expected the pattern to not match"
    );
    assert!(assert_pattern_matches("\\d \\w\\w\\ws", "2 cats"), "Expected the pattern to match");

    assert!(
        assert_pattern_matches("\\d apple", "sally has 3 apples"),
        "Expected the pattern to match"
    );
    assert!(
        !assert_pattern_matches("\\d \\w\\w\\ws", "sally has 1 dog"),
        "Expected the pattern to not match"
    );

    // ANCHOR TESTS
    assert!(assert_pattern_matches("^log", "log"), "Expected the pattern to match");
    assert!(assert_pattern_matches("^\\d", "1"), "Expected the pattern to match");
    assert!(assert_pattern_matches("^\\d\\d\\d", "100s"), "Expected the pattern to match");
    assert!(!assert_pattern_matches("^\\d\\d\\d", "wwe"), "Expected the pattern to not match");
    assert!(!assert_pattern_matches("^log", "slog"), "Expected the pattern to not match");

    // LINE ANCHOR TESTS
    assert!(assert_pattern_matches("log$", "this pattern will match this coz it has log"));
    assert!(assert_pattern_matches("\\d dog has \\w\\w\\ws", "my 1 dog has logs"));
    assert!(assert_pattern_matches("\\w\\w\\ws", "I have 3 cats"));
    assert!(!assert_pattern_matches("\\w\\w\\w\\w is a joke", "he is a joke"));
    assert!(assert_pattern_matches("^orange$", "orange"));
    assert!(!assert_pattern_matches("^respberry$", "respberry_respberry"));
    assert!(assert_pattern_matches("orange+", "orange"));
    assert!(assert_pattern_matches("orange+", "orangeeeeee"));
    assert!(assert_pattern_matches("or+ange", "orrrrrrrange"));
}
