use lexdfa::determinizer::Determinizer;
use lexdfa::dfa::Dfa;
use lexdfa::parser::{Operator, ParseError, Parser};

fn error_of(pattern: &str) -> Option<ParseError> {
    Parser::new().parse(pattern, 0).err()
}

fn single(pattern: &str) -> Dfa {
    let mut parser = Parser::new();
    parser.parse(pattern, 0).unwrap();
    let nfa = parser.build();
    Determinizer::new(&nfa).determinize().unwrap()
}

fn matches(dfa: &Dfa, input: &str) -> bool {
    dfa.longest_match(input.as_bytes()) == Some((0, &b""[..]))
}

#[test]
fn backslash_at_the_end() {
    assert_eq!(error_of("a\\"), Some(ParseError::UnexpectedEnd));
    assert_eq!(error_of("\\"), Some(ParseError::UnexpectedEnd));
}

#[test]
fn backslash_before_a_plain_character() {
    assert_eq!(error_of("\\a"), Some(ParseError::BadEscape));
    assert_eq!(error_of("ab\\n"), Some(ParseError::BadEscape));
}

#[test]
fn group_that_is_not_closed() {
    assert_eq!(error_of("(a"), Some(ParseError::UnmatchedOpen));
    assert_eq!(error_of("((a)"), Some(ParseError::UnmatchedOpen));
    assert_eq!(error_of("("), Some(ParseError::UnmatchedOpen));
}

#[test]
fn close_without_open() {
    assert_eq!(error_of("a)"), Some(ParseError::UnmatchedClose));
    assert_eq!(error_of(")"), Some(ParseError::UnmatchedClose));
    assert_eq!(error_of("(a))"), Some(ParseError::UnmatchedClose));
}

#[test]
fn operator_without_operand() {
    assert_eq!(error_of(""), Some(ParseError::MissingOperand));
    assert_eq!(error_of("*a"), Some(ParseError::MissingOperand));
    assert_eq!(error_of("+"), Some(ParseError::MissingOperand));
    assert_eq!(error_of("(?a)"), Some(ParseError::MissingOperand));
    assert_eq!(error_of("a|"), Some(ParseError::MissingOperand));
    assert_eq!(error_of("|a"), Some(ParseError::MissingOperand));
    assert_eq!(error_of("a||b"), Some(ParseError::MissingOperand));
    assert_eq!(error_of("()"), Some(ParseError::MissingOperand));
    assert_eq!(error_of("a()"), Some(ParseError::MissingOperand));
    assert_eq!(error_of("(a|)"), Some(ParseError::MissingOperand));
}

#[test]
fn first_fault_from_the_left_is_reported() {
    assert_eq!(error_of("|a\\x"), Some(ParseError::MissingOperand));
    assert_eq!(error_of("a\\x)"), Some(ParseError::BadEscape));
    assert_eq!(error_of("(a)*)(+"), Some(ParseError::UnmatchedClose));
}

#[test]
fn escaped_meta_characters_are_literal() {
    assert!(matches(&single("\\("), "("));
    assert!(matches(&single("\\)\\*\\+\\?\\\\\\|"), ")*+?\\|"));
    assert!(!matches(&single("\\*"), "\\"));
    assert!(matches(&single("a\\|b"), "a|b"));
    assert!(!matches(&single("a\\|b"), "a"));
}

#[test]
fn concatenation_binds_tighter_than_alternation() {
    let dfa = single("ab|cd");
    assert!(matches(&dfa, "ab") && matches(&dfa, "cd"));
    assert!(!matches(&dfa, "abd") && !matches(&dfa, "acd") && !matches(&dfa, "a"));
    let grouped = single("a(b|c)d");
    assert!(matches(&grouped, "abd") && matches(&grouped, "acd"));
    assert!(!matches(&grouped, "ab") && !matches(&grouped, "cd"));
}

#[test]
fn quantifier_applies_to_the_last_atom() {
    let dfa = single("ab*");
    assert!(matches(&dfa, "a") && matches(&dfa, "abbb"));
    assert!(!matches(&dfa, "abab"));
    let group = single("(ab)*c");
    assert!(matches(&group, "c") && matches(&group, "ababc"));
    assert!(!matches(&group, "abbc"));
}

#[test]
fn quantifiers_can_follow_each_other() {
    let dfa = single("a+?b");
    assert!(matches(&dfa, "b") && matches(&dfa, "ab") && matches(&dfa, "aaab"));
    let star = single("a**");
    assert!(matches(&star, "a") && matches(&star, "aaaa"));
}

#[test]
fn alternation_of_three() {
    let dfa = single("a|b|c");
    assert!(matches(&dfa, "a") && matches(&dfa, "b") && matches(&dfa, "c"));
    assert!(!matches(&dfa, "ab"));
}

#[test]
fn nested_groups() {
    let dfa = single("((a|b)(c|d))+e");
    assert!(matches(&dfa, "ace") && matches(&dfa, "bdace"));
    assert!(!matches(&dfa, "e") && !matches(&dfa, "abe"));
}

#[test]
fn refused_pattern_leaves_the_others() {
    let mut parser = Parser::new();
    assert_eq!(parser.parse("a", 0), Ok(()));
    assert_eq!(parser.parse("(b", 1), Err(ParseError::UnmatchedOpen));
    assert_eq!(parser.parse("b|", 1), Err(ParseError::MissingOperand));
    assert_eq!(parser.parse("c", 2), Ok(()));
    let nfa = parser.build();
    assert_eq!(nfa.fragments().len(), 2);
    let dfa = Determinizer::new(&nfa).determinize().unwrap();
    assert_eq!(dfa.longest_match(b"a"), Some((0, &b""[..])));
    assert_eq!(dfa.longest_match(b"c"), Some((2, &b""[..])));
    assert_eq!(dfa.longest_match(b"b"), None);
    assert_eq!(dfa.token_count(), 3);
}

#[test]
fn tokens_need_not_be_dense() {
    let mut parser = Parser::new();
    parser.parse("x", 40).unwrap();
    parser.parse("y", 7).unwrap();
    let nfa = parser.build();
    let dfa = Determinizer::new(&nfa).determinize().unwrap();
    assert_eq!(dfa.token_count(), 41);
    assert_eq!(dfa.longest_match(b"y"), Some((7, &b""[..])));
    assert_eq!(dfa.longest_match(b"xy"), Some((40, &b"y"[..])));
}

#[test]
fn operators_order_by_precedence() {
    assert!(Operator::LeftParenthesis.is_left_parenthesis());
    assert!(!Operator::Alternate.is_left_parenthesis());
    assert_eq!(Operator::Alternate.precedence(), 0);
    assert_eq!(Operator::Concatenate.precedence(), 1);
    assert!(Operator::Concatenate.groups_left(Operator::Alternate));
    assert!(Operator::Concatenate.groups_left(Operator::Concatenate));
    assert!(Operator::Alternate.groups_left(Operator::Alternate));
    assert!(!Operator::Alternate.groups_left(Operator::Concatenate));
}
