use codecrafters_grep::helpers::debug_mode_from;
use codecrafters_grep::{
    run, CharacterClasses, GrepArgs, GrepError, MatchResultType, PatternParser, QualifierType,
};

fn matches(pattern: &str, input: &str) -> bool {
    PatternParser::new(pattern).match_input_with_pattern(input)
}

#[test]
fn empty_input_never_matches() {
    assert!(!matches("\\d", ""));
    assert!(!matches("", ""));
    assert!(!matches("^a", ""));
    assert!(!matches("a$", ""));
}

#[test]
fn empty_pattern_matches_any_nonempty_input() {
    assert_eq!(PatternParser::new("").0, vec![]);
    assert!(matches("", "x"));
    assert!(matches("", "hello world"));
}

#[test]
fn char_classes_find_any_accepted_character() {
    assert!(matches("\\d", "abc1"));
    assert!(!matches("\\d", "abc"));
    assert!(matches("[xyz]", "abz"));
    assert!(!matches("[xyz]", "abc"));
    assert!(!matches("[^abc]", "cab"));
    assert!(matches("[^abc]", "cabd"));
    assert!(matches(" ", "a b"));
    assert!(!matches(" ", "ab"));
}

#[test]
fn word_class_is_ascii_letters_digits_and_underscore() {
    assert!(matches("\\w", "!_"));
    assert!(matches("\\w", "-Z-"));
    assert!(matches("\\w", "..7"));
    assert!(!matches("\\w", "!? -"));
    assert!(!matches("\\w", "é"));
}

#[test]
fn literal_finds_occurrence() {
    assert!(matches("cat", "concatenate"));
    assert!(!matches("cat", "cta"));
    assert!(!matches("cat", "ca"));
    assert!(matches("cat", "cat"));
}

#[test]
fn start_anchor_matches_prefix() {
    assert!(matches("^log", "log"));
    assert!(matches("^log", "logs"));
    assert!(matches("^log", "log124"));
    assert!(!matches("^log", "slog"));
    assert!(!matches("^log", "blog"));
    assert!(!matches("^log", "lo"));
}

#[test]
fn end_anchor_matches_suffix() {
    assert!(matches("dog$", "I have a dog"));
    assert!(!matches("dog$", "dogs"));
    assert!(!matches("dog$", "og"));
    assert!(matches("\\d\\d\\w$", "ab12c"));
    assert!(!matches("\\d\\d\\w$", "ab1cc"));
}

#[test]
fn exact_anchor_matches_only_itself() {
    assert!(matches("^orange$", "orange"));
    assert!(!matches("^orange$", "orangeade"));
    assert!(!matches("^orange$", "an orange"));
    assert!(!matches("^orange$", "orangf"));
}

#[test]
fn exact_anchor_needs_the_whole_input() {
    assert!(matches("^\\d\\d$", "12"));
    assert!(!matches("^\\d\\d$", "1a"));
    assert!(!matches("^\\d\\d$", "123"));
    assert!(matches("^\\d+ apples$", "42 apples"));
    assert!(!matches("^\\d+ apples$", "42 apples!"));
}

#[test]
fn start_anchor_matches_classes_in_order_from_the_start() {
    assert!(!matches("^\\d\\d\\d", "1ab"));
    assert!(!matches("^\\d\\d\\d", "a111"));
    assert!(matches("^\\d\\d\\d", "123x"));
    assert!(matches("^\\dabc", "1abc"));
    assert!(!matches("^\\d\\d", "1a"));
}

#[test]
fn end_anchor_needs_the_whole_pattern() {
    assert!(!matches("\\d\\d$", "1"));
    assert!(matches("\\d\\d$", "a12"));
    assert!(!matches("\\d\\d$", "12a"));
}

#[test]
fn failed_attempt_restarts_one_past_its_start() {
    assert!(matches("\\dx", "11x"));
    assert!(matches("\\dx", "1x"));
    assert!(matches("\\d ", "11 "));
    assert!(matches("ab", "aab"));
}

#[test]
fn plus_backtracks() {
    assert!(matches("a+a", "aaa"));
    assert!(matches("a+a", "aa"));
    assert!(!matches("a+a", "a"));
    assert!(matches("\\d+1", "x1111"));
    assert!(matches("[ab]+b", "abab"));
}

#[test]
fn text_around_a_match_keeps_it() {
    assert!(matches("c\\d+t", "c12t"));
    assert!(matches("c\\d+t", "xxc12t"));
    assert!(matches("c\\d+t", "c12txx"));
    assert!(matches("c\\d+t", "cc12tt"));
}

#[test]
fn plus_inside_anchors() {
    assert!(matches("^\\d+", "123"));
    assert!(!matches("^\\d+", "a123"));
    assert!(matches("\\d+$", "a123"));
    assert!(matches("^\\d+$", "123"));
    assert!(!matches("^\\d+$", "12a3"));
    assert!(matches("^a+", "a"));
}

#[test]
fn repeated_class_matches_as_the_class() {
    assert!(matches("\\d+", "ab3"));
    assert!(!matches("\\d+", "abc"));
    assert!(matches("\\d+ days", "in 12 days"));
    assert!(!matches("\\d+ days", "in a days"));
}

#[test]
fn plus_repeats_last_character_of_literal() {
    assert_eq!(
        PatternParser::new("ab+").0,
        vec![
            CharacterClasses::Literal("a".to_string()),
            CharacterClasses::PositiveQuantifier(Box::new(CharacterClasses::Literal(
                "b".to_string()
            ))),
        ]
    );
    assert_eq!(
        PatternParser::new("a+").0,
        vec![CharacterClasses::PositiveQuantifier(Box::new(CharacterClasses::Literal(
            "a".to_string()
        )))]
    );
    assert!(matches("ab+c", "xabbbcx"));
    assert!(!matches("ab+c", "xacx"));
}

#[test]
fn brackets_and_escapes_parse() {
    assert_eq!(
        PatternParser::new("[a]x[^bc]\\q\\").0,
        vec![
            CharacterClasses::PositiveMatch(vec!['a']),
            CharacterClasses::Literal("x".to_string()),
            CharacterClasses::NegativeMatch(vec!['b', 'c']),
        ]
    );
    assert_eq!(PatternParser::new("[ab").0, vec![CharacterClasses::PositiveMatch(vec!['a', 'b'])]);
    assert_eq!(
        PatternParser::new("a ^b").0,
        vec![
            CharacterClasses::Literal("a".to_string()),
            CharacterClasses::WhiteSpace,
            CharacterClasses::Anchor(vec![CharacterClasses::Literal("b".to_string())]),
        ]
    );
    assert_eq!(
        PatternParser::from("^a$b").0,
        vec![CharacterClasses::Anchor(vec![CharacterClasses::Literal("a".to_string())])]
    );
    assert_eq!(PatternParser::new("$").0, vec![CharacterClasses::LineAnchor(vec![])]);
    assert_eq!(PatternParser::new("^$").0, vec![CharacterClasses::ImmAnchor(vec![])]);
}

#[test]
fn escaped_bracket_is_dropped() {
    assert_eq!(
        PatternParser::new("a\\[b").0,
        vec![
            CharacterClasses::Literal("a".to_string()),
            CharacterClasses::Literal("b".to_string()),
        ]
    );
    assert_eq!(
        PatternParser::new("a\\[^b").0,
        vec![
            CharacterClasses::Literal("a".to_string()),
            CharacterClasses::Anchor(vec![CharacterClasses::Literal("b".to_string())]),
        ]
    );
}

#[test]
fn patterns_that_cannot_be_parsed() {
    assert!(PatternParser::try_new("+a").is_none());
    assert!(PatternParser::try_new("^+").is_none());
    assert!(PatternParser::try_new("x ^+").is_none());
    assert!(PatternParser::try_new("a+").is_some());
}

#[test]
fn multibyte_literal_before_plus() {
    assert_eq!(
        PatternParser::new("é+").0,
        vec![
            CharacterClasses::Literal("é".to_string()),
            CharacterClasses::PositiveQuantifier(Box::new(CharacterClasses::Literal(
                String::new()
            ))),
        ]
    );
    assert_eq!(
        PatternParser::new("aé+").0,
        vec![
            CharacterClasses::Literal("aé".to_string()),
            CharacterClasses::PositiveQuantifier(Box::new(CharacterClasses::Literal(
                String::new()
            ))),
        ]
    );
    assert!(PatternParser::try_new("éè+").is_none());
    assert!(PatternParser::try_new("€+").is_none());
    assert!(matches("é+", "xé"));
    assert!(!matches("é+", "xe"));
    let args = GrepArgs { option: "éè+".to_string() };
    assert_eq!(args.match_pattern("éè"), Err(GrepError::InvalidOptionProvided));
}

#[test]
fn literals_match_at_character_positions() {
    assert!(matches("b", "ab"));
    assert!(matches("b", "éb"));
    assert!(matches("b$", "éb"));
    assert!(matches("^é", "éx"));
    assert!(matches("é", "é"));
    assert!(matches("^é$", "é"));
    assert!(!matches("log", "LOG"));
}

#[test]
fn nested_repetition() {
    assert!(!matches("a++", "b"));
    assert!(matches("a++", "xaa"));
    assert!(!matches("a++", ""));
}

#[test]
fn exact_anchor_keeps_inner_marks() {
    assert_eq!(
        PatternParser::new("^[^a]$").0,
        vec![CharacterClasses::ImmAnchor(vec![CharacterClasses::NegativeMatch(vec!['a'])])]
    );
    assert!(matches("^[^a]$", "b"));
    assert!(!matches("^[^a]$", "a"));
    assert!(!matches("^[^a]$", "bb"));
}

#[test]
fn match_char_with_pattern_results() {
    assert!(matches!(
        CharacterClasses::Digits.match_char_with_pattern('5'),
        MatchResultType::Char(true)
    ));
    assert!(matches!(
        CharacterClasses::Digits.match_char_with_pattern('x'),
        MatchResultType::Char(false)
    ));
    assert!(matches!(
        CharacterClasses::NegativeMatch(vec!['x']).match_char_with_pattern('x'),
        MatchResultType::Char(false)
    ));
    match CharacterClasses::Literal("ab".to_string()).match_char_with_pattern('q') {
        MatchResultType::Literal(s) => assert_eq!(s, "ab"),
        _ => panic!("expected a literal"),
    }
    match CharacterClasses::PositiveQuantifier(Box::new(CharacterClasses::Digits))
        .match_char_with_pattern('1')
    {
        MatchResultType::Qualifier(QualifierType::Positive(inner)) => {
            assert_eq!(*inner, CharacterClasses::Digits)
        },
        _ => panic!("expected a repetition"),
    }
    match CharacterClasses::Anchor(vec![CharacterClasses::WhiteSpace]).match_char_with_pattern('1') {
        MatchResultType::Anchor(items) => assert_eq!(items, vec![CharacterClasses::WhiteSpace]),
        _ => panic!("expected an anchor"),
    }
}

#[test]
fn single_character_predicates() {
    assert!(CharacterClasses::is_whitespace(' '));
    assert!(!CharacterClasses::is_whitespace('\t'));
    assert!(CharacterClasses::is_digit('0'));
    assert!(CharacterClasses::is_digit('9'));
    assert!(!CharacterClasses::is_digit('a'));
    assert!(CharacterClasses::is_character('_'));
    assert!(!CharacterClasses::is_character('-'));
    assert!(CharacterClasses::is_positive_matched('b', &['a', 'b']));
    assert!(!CharacterClasses::is_positive_matched('c', &['a', 'b']));
    assert!(CharacterClasses::is_negative_matched('c', &['a', 'b']));
}

#[test]
fn clone_is_deep() {
    let c = CharacterClasses::Anchor(vec![
        CharacterClasses::Literal("x".to_string()),
        CharacterClasses::PositiveQuantifier(Box::new(CharacterClasses::PositiveMatch(vec!['q']))),
    ]);
    assert_eq!(c.clone(), c);
}

#[test]
fn grep_args_match_pattern_outcomes() {
    let args = GrepArgs { option: "\\d apple".to_string() };
    assert_eq!(args.match_pattern("sally has 3 apples"), Ok(true));
    assert_eq!(args.match_pattern("sally has apples"), Ok(false));
    let bad = GrepArgs { option: "+".to_string() };
    assert_eq!(bad.match_pattern("x"), Err(GrepError::InvalidOptionProvided));
    let nested = GrepArgs { option: "a++".to_string() };
    assert_eq!(nested.match_pattern("b"), Ok(false));
}

#[test]
fn run_reports_a_match() {
    let args = GrepArgs { option: "\\d".to_string() };
    assert_eq!(run(&args, "a1"), Ok(()));
    assert_eq!(run(&args, "ab"), Err("An unexpected error occured".to_string()));
    let bad = GrepArgs { option: "+".to_string() };
    assert_eq!(run(&bad, "ab"), Err("An unexpected error occured".to_string()));
}

#[test]
fn debug_mode_only_for_true() {
    assert!(debug_mode_from(Some("true")));
    assert!(!debug_mode_from(Some("false")));
    assert!(!debug_mode_from(Some("1")));
    assert!(!debug_mode_from(Some("True")));
    assert!(!debug_mode_from(None));
}

#[test]
fn plus_after_class_tokens() {
    assert_eq!(
        PatternParser::new("\\d+").0,
        vec![CharacterClasses::PositiveQuantifier(Box::new(CharacterClasses::Digits))]
    );
    assert_eq!(
        PatternParser::new("\\w+").0,
        vec![CharacterClasses::PositiveQuantifier(Box::new(CharacterClasses::Characters))]
    );
    assert_eq!(
        PatternParser::new(" +").0,
        vec![CharacterClasses::PositiveQuantifier(Box::new(CharacterClasses::WhiteSpace))]
    );
    assert_eq!(
        PatternParser::new("[^ab]+").0,
        vec![CharacterClasses::PositiveQuantifier(Box::new(CharacterClasses::NegativeMatch(
            vec!['a', 'b']
        )))]
    );
}

#[test]
fn anchors_wrap_the_parse_of_the_pattern() {
    let inner = PatternParser::new("a\\d+[^x]").0;
    assert_eq!(PatternParser::new("^a\\d+[^x]").0, vec![CharacterClasses::Anchor(inner.clone())]);
    assert_eq!(
        PatternParser::new("a\\d+[^x]$").0,
        vec![CharacterClasses::LineAnchor(inner.clone())]
    );
    assert_eq!(PatternParser::new("^a\\d+[^x]$").0, vec![CharacterClasses::ImmAnchor(inner)]);
}

#[test]
fn parses_concatenate_at_a_seam() {
    let mut joined = PatternParser::new("ab[c]").0;
    joined.extend(PatternParser::new("\\d+ x").0);
    assert_eq!(PatternParser::new("ab[c]\\d+ x").0, joined);
    let mut joined = PatternParser::new("q+").0;
    joined.extend(PatternParser::new(" [^z]").0);
    assert_eq!(PatternParser::new("q+ [^z]").0, joined);
}

#[test]
fn error_messages() {
    assert_eq!(GrepError::InvalidOptionProvided.message(), "Invalid option provided");
    assert_eq!(GrepError::FailedToMatch.message(), "Failted to match");
    assert_eq!(GrepError::IOError.message(), "IO error");
}

#[test]
fn long_line_without_a_match() {
    let digits = "1".repeat(120);
    assert!(!matches("\\d+x", &digits));
    assert!(matches("\\d+x", &format!("{}x", digits)));
    assert!(matches("^\\d+$", &digits));
}
