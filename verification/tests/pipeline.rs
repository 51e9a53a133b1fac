use lexdfa::determinizer::{BuildError, Determinizer};
use lexdfa::dfa::Dfa;
use lexdfa::minimizer::Minimizer;
use lexdfa::nfa::Nfa;
use lexdfa::parser::Parser;
use lexdfa::sparse_set::SparseSet;

fn determinized(patterns: &[(&str, usize)]) -> Dfa {
    let mut parser = Parser::new();
    for (pattern, token) in patterns {
        parser.parse(pattern, *token).unwrap();
    }
    let nfa = parser.build();
    Determinizer::new(&nfa).determinize().unwrap()
}

fn compile(patterns: &[(&str, usize)]) -> Dfa {
    let dfa = determinized(patterns);
    Minimizer::new(&dfa).minimize()
}

fn both(patterns: &[(&str, usize)]) -> [Dfa; 2] {
    [determinized(patterns), compile(patterns)]
}

#[test]
fn prefix_patterns_take_the_longest() {
    for dfa in both(&[("a", 0), ("ab", 1)]) {
        assert_eq!(dfa.longest_match(b"ab"), Some((1, &b""[..])));
        assert_eq!(dfa.longest_match(b"a"), Some((0, &b""[..])));
        assert_eq!(dfa.longest_match(b"ac"), Some((0, &b"c"[..])));
    }
}

#[test]
fn star_needs_one_byte() {
    for dfa in both(&[("a*", 0)]) {
        assert_eq!(dfa.longest_match(b""), None);
        assert_eq!(dfa.longest_match(b"aaa"), Some((0, &b""[..])));
        assert_eq!(dfa.longest_match(b"aaab"), Some((0, &b"b"[..])));
    }
}

#[test]
fn repeated_group_of_alternatives() {
    for dfa in both(&[("(ab|cd)+", 0)]) {
        assert_eq!(dfa.longest_match(b"abcdab"), Some((0, &b""[..])));
        assert_eq!(dfa.longest_match(b"abx"), Some((0, &b"x"[..])));
        assert_eq!(dfa.longest_match(b"ac"), None);
    }
}

#[test]
fn optional_prefix() {
    for dfa in both(&[("a?b", 0)]) {
        assert_eq!(dfa.longest_match(b"b"), Some((0, &b""[..])));
        assert_eq!(dfa.longest_match(b"ab"), Some((0, &b""[..])));
        assert_eq!(dfa.longest_match(b"xb"), None);
    }
}

#[test]
fn keyword_and_longer_word() {
    for dfa in both(&[("if", 0), ("ifx", 1)]) {
        assert_eq!(dfa.longest_match(b"ifx"), Some((1, &b""[..])));
        assert_eq!(dfa.longest_match(b"if"), Some((0, &b""[..])));
        assert_eq!(dfa.longest_match(b"ifz"), Some((0, &b"z"[..])));
    }
}

#[test]
fn literal_of_two_bytes() {
    for dfa in both(&[("é", 0)]) {
        assert_eq!(dfa.longest_match("é".as_bytes()), Some((0, &b""[..])));
        assert_eq!(dfa.longest_match(b"\xC3"), None);
    }
}

#[test]
fn same_input_for_two_patterns_is_ambiguous() {
    let mut parser = Parser::new();
    parser.parse("ab", 0).unwrap();
    parser.parse("a(b|c)", 1).unwrap();
    let nfa = parser.build();
    let result = Determinizer::new(&nfa).determinize();
    assert_eq!(result.err(), Some(BuildError::Ambiguous { a: 0, b: 1 }));
}

#[test]
fn minimizing_merges_equal_tails() {
    let dfa = determinized(&[("ac|bc", 0)]);
    let minimized = Minimizer::new(&dfa).minimize();
    assert_eq!(dfa.state_count(), 6);
    assert_eq!(minimized.state_count(), 4);
    assert_eq!(minimized.longest_match(b"bcd"), Some((0, &b"d"[..])));
    assert_eq!(minimized.token_count(), 1);
}

#[test]
fn minimizing_twice_changes_nothing() {
    let once = compile(&[("(ab|cd)+", 0), ("x?y", 3)]);
    let twice = Minimizer::new(&once).minimize();
    assert_eq!(once.state_count(), twice.state_count());
    assert_eq!(once.token_count(), twice.token_count());
    for state_id in 0..once.state_count() {
        assert_eq!(once.matched_token(state_id), twice.matched_token(state_id));
        for byte in 0..=255u8 {
            assert_eq!(once.next_state(state_id, byte), twice.next_state(state_id, byte));
        }
    }
}

#[test]
fn nothing_to_match_leaves_the_dead_state() {
    let nfa = Parser::new().build();
    let dfa = Determinizer::new(&nfa).determinize().unwrap();
    assert_eq!(dfa.state_count(), 2);
    assert_eq!(dfa.longest_match(b"abc"), None);
    let minimized = Minimizer::new(&dfa).minimize();
    assert_eq!(minimized.state_count(), 1);
    assert_eq!(minimized.longest_match(b"abc"), None);
}

#[test]
fn minimized_automaton_accepts_the_same() {
    let patterns = [("(a|b)*abb", 0), ("c+(d|e)?", 1), ("cde\\+", 2)];
    let [dfa, minimized] = both(&patterns);
    assert!(minimized.state_count() <= dfa.state_count());
    let alphabet = [b'a', b'b', b'c', b'd', b'e', b'+'];
    let mut inputs: Vec<Vec<u8>> = vec![Vec::new()];
    let mut from = 0;
    for _ in 0..5 {
        let to = inputs.len();
        for index in from..to {
            for byte in alphabet {
                let mut longer = inputs[index].clone();
                longer.push(byte);
                inputs.push(longer);
            }
        }
        from = to;
    }
    for input in &inputs {
        assert_eq!(dfa.longest_match(input), minimized.longest_match(input));
    }
    assert_eq!(minimized.longest_match(b"ababbabb!"), Some((0, &b"!"[..])));
    assert_eq!(minimized.longest_match(b"cde+"), Some((2, &b""[..])));
    assert_eq!(minimized.longest_match(b"ccd+"), Some((1, &b"+"[..])));
}

#[test]
fn minimized_automaton_is_the_least() {
    // The classes of (a|b)*abb: nothing seen, "a", "ab", "abb"; and the dead state.
    let minimized = compile(&[("(a|b)*abb", 0)]);
    assert_eq!(minimized.state_count(), 5);
    // The classes of a*: the start, which reports nothing, and one or more "a".
    let star = compile(&[("a*", 0)]);
    assert_eq!(star.state_count(), 3);
}

#[test]
fn ambiguity_names_the_earlier_pattern_first() {
    let mut parser = Parser::new();
    parser.parse("a+", 1).unwrap();
    parser.parse("aa", 0).unwrap();
    let nfa = parser.build();
    let result = Determinizer::new(&nfa).determinize();
    assert_eq!(result.err(), Some(BuildError::Ambiguous { a: 1, b: 0 }));
}

#[test]
fn patterns_that_share_a_start_only_are_not_ambiguous() {
    let dfa = determinized(&[("a*b", 0), ("a*c", 1), ("a", 2)]);
    assert_eq!(dfa.longest_match(b"aab"), Some((0, &b""[..])));
    assert_eq!(dfa.longest_match(b"c"), Some((1, &b""[..])));
    assert_eq!(dfa.longest_match(b"aa"), Some((2, &b"a"[..])));
}

fn members(set: &SparseSet) -> Vec<usize> {
    let mut iter = set.iter();
    let mut members = Vec::new();
    while let Some(member) = iter.next() {
        members.push(member);
    }
    members
}

/// The tokens that the states report in which `nfa` can be after `input`.
fn reported(nfa: &Nfa, input: &[u8]) -> Vec<usize> {
    let mut stack = Vec::new();
    let mut current = SparseSet::new(nfa.state_count());
    for fragment in nfa.fragments() {
        nfa.empty_closure(fragment.start_state_id, &mut current, &mut stack);
    }
    for &byte in input {
        let mut next = SparseSet::new(nfa.state_count());
        for state_id in members(&current) {
            for transition in &nfa.state(state_id).transitions {
                if let Some(range) = &transition.byte_range {
                    if range.contains(byte) {
                        nfa.empty_closure(transition.next_state_id, &mut next, &mut stack);
                    }
                }
            }
        }
        current = next;
    }
    let mut tokens: Vec<usize> =
        members(&current).into_iter().filter_map(|state_id| nfa.state(state_id).matched_token).collect();
    tokens.sort();
    tokens
}

/// The token that `dfa` reports after `input`, read from the start.
fn reported_after(dfa: &Dfa, input: &[u8]) -> Option<usize> {
    let mut state_id = if dfa.state_count() > 1 { 1 } else { 0 };
    for &byte in input {
        state_id = dfa.next_state(state_id, byte);
    }
    dfa.matched_token(state_id)
}

#[test]
fn three_automata_accept_the_same() {
    let mut parser = Parser::new();
    parser.parse("(a|b)*abb", 5).unwrap();
    parser.parse("b+a?c", 2).unwrap();
    parser.parse("é(a|é)*", 9).unwrap();
    let nfa = parser.build();
    let dfa = Determinizer::new(&nfa).determinize().unwrap();
    let minimized = Minimizer::new(&dfa).minimize();
    let alphabet = [b'a', b'b', b'c', 0xC3, 0xA9];
    let mut inputs: Vec<Vec<u8>> = vec![Vec::new()];
    let mut from = 0;
    for _ in 0..5 {
        let to = inputs.len();
        for index in from..to {
            for byte in alphabet {
                let mut longer = inputs[index].clone();
                longer.push(byte);
                inputs.push(longer);
            }
        }
        from = to;
    }
    let mut accepted = 0;
    for input in inputs.iter().filter(|input| !input.is_empty()) {
        let tokens = reported(&nfa, input);
        let expected = tokens.first().copied();
        assert!(tokens.len() <= 1);
        assert_eq!(reported_after(&dfa, input), expected);
        assert_eq!(reported_after(&minimized, input), expected);
        if expected.is_some() {
            accepted += 1;
        }
    }
    assert!(accepted > 0);
    assert_eq!(reported(&nfa, b"babb"), vec![5]);
    assert_eq!(reported(&nfa, b"bbac"), vec![2]);
    assert_eq!(reported(&nfa, "éaé".as_bytes()), vec![9]);
}

#[test]
fn default_values_are_empty() {
    assert_eq!(Nfa::default().state_count(), 0);
    assert_eq!(Parser::default().build().state_count(), 0);
    assert_eq!(lexdfa::nfa::Builder::default().fragment_count(), 0);
}
