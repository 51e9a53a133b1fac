use lexdfa::dfa::{dead_state_id, start_state_id, Dfa, Transition};
use lexdfa::minimizer::Minimizer;
use lexdfa::vec_set::VecSet;

fn sample() -> Dfa {
    let mut dfa = Dfa::new();
    let start = dfa.add_state(None);
    let word = dfa.add_state(Some(2));
    let longer = dfa.add_state(Some(0));
    dfa.add_transition(start, b'a', word);
    dfa.add_transition(word, b'b', start);
    dfa.add_transition(word, b'c', longer);
    dfa
}

#[test]
fn reserved_ids() {
    assert_eq!(dead_state_id(), 0);
    assert_eq!(start_state_id(), 1);
}

#[test]
fn new_automaton_has_the_dead_state() {
    let dfa = Dfa::new();
    assert_eq!(dfa.state_count(), 1);
    assert_eq!(dfa.token_count(), 0);
    assert_eq!(dfa.matched_token(0), None);
    for byte in 0..=255u8 {
        assert_eq!(dfa.next_state(0, byte), 0);
    }
    assert_eq!(dfa.longest_match(b"abc"), None);
    assert_eq!(Dfa::default().state_count(), 1);
}

#[test]
fn token_count_is_one_more_than_the_largest_token() {
    let mut dfa = Dfa::new();
    dfa.add_state(None);
    assert_eq!(dfa.token_count(), 0);
    dfa.add_state(Some(4));
    assert_eq!(dfa.token_count(), 5);
    dfa.add_state(Some(1));
    assert_eq!(dfa.token_count(), 5);
    dfa.add_state(Some(5));
    assert_eq!(dfa.token_count(), 6);
    assert_eq!(dfa.state_count(), 5);
}

#[test]
fn added_state_leads_to_the_dead_state() {
    let mut dfa = Dfa::new();
    assert_eq!(dfa.add_state(Some(0)), 1);
    for byte in 0..=255u8 {
        assert_eq!(dfa.next_state(1, byte), 0);
    }
    dfa.add_transition(1, 7, 1);
    assert_eq!(dfa.next_state(1, 7), 1);
    assert_eq!(dfa.next_state(1, 6), 0);
    assert_eq!(dfa.next_state(1, 8), 0);
}

#[test]
fn scan_takes_the_longest_match() {
    let dfa = sample();
    assert_eq!(dfa.longest_match(b"a"), Some((2, &b""[..])));
    assert_eq!(dfa.longest_match(b"ab"), Some((2, &b"b"[..])));
    assert_eq!(dfa.longest_match(b"aba"), Some((2, &b""[..])));
    assert_eq!(dfa.longest_match(b"abac"), Some((0, &b""[..])));
    assert_eq!(dfa.longest_match(b"abacx"), Some((0, &b"x"[..])));
    assert_eq!(dfa.longest_match(b"ababab"), Some((2, &b"b"[..])));
}

#[test]
fn scan_without_match() {
    let dfa = sample();
    assert_eq!(dfa.longest_match(b""), None);
    assert_eq!(dfa.longest_match(b"b"), None);
    assert_eq!(dfa.longest_match(b"ba"), None);
}

#[test]
fn scan_stops_in_the_dead_state() {
    let dfa = sample();
    assert_eq!(dfa.longest_match(b"axa"), Some((2, &b"xa"[..])));
    assert_eq!(dfa.longest_match(b"ax"), dfa.longest_match(b"a").map(|(token, _)| (token, &b"x"[..])));
    assert_eq!(dfa.longest_match(b"xabac"), None);
}

#[test]
fn scan_reports_no_match_of_no_bytes() {
    let mut dfa = Dfa::new();
    let start = dfa.add_state(Some(3));
    dfa.add_transition(start, b'x', start);
    assert_eq!(dfa.longest_match(b""), None);
    assert_eq!(dfa.longest_match(b"y"), None);
    assert_eq!(dfa.longest_match(b"xxy"), Some((3, &b"y"[..])));
}

#[test]
fn every_state_has_one_transition_for_every_byte() {
    let dfa = sample();
    let mut states = dfa.states();
    let mut count = 0;
    while let Some((state_id, state)) = states.next() {
        assert_eq!(state_id, count);
        assert_eq!(state.matched_token(), dfa.matched_token(state_id));
        let mut transitions = state.transitions();
        let mut byte: usize = 0;
        while let Some(transition) = transitions.next() {
            assert_eq!(
                transition,
                Transition { byte: byte as u8, next_state_id: dfa.next_state(state_id, byte as u8) }
            );
            assert!(transition.next_state_id < dfa.state_count());
            byte += 1;
        }
        assert_eq!(byte, 256);
        count += 1;
    }
    assert_eq!(count, 4);
    assert!(states.next().is_none());
}

#[test]
fn previous_states_lead_into_the_block() {
    let dfa = sample();
    let mut minimizer = Minimizer::new(&dfa);
    let mut previous = VecSet::new();
    minimizer.previous_states(1, b'c', &mut previous);
    assert_eq!(previous.into_vec(), vec![2]);
    let mut previous = VecSet::from_vec_unchecked(vec![0, 1]);
    minimizer.previous_states(2, b'a', &mut previous);
    assert_eq!(previous.into_vec(), vec![1]);
    let mut previous = VecSet::new();
    minimizer.previous_states(0, b'b', &mut previous);
    assert_eq!(previous.into_vec(), vec![0, 1, 2, 3]);
}

#[test]
fn minimizing_keeps_states_that_differ() {
    let dfa = sample();
    let minimized = Minimizer::new(&dfa).minimize();
    assert_eq!(minimized.state_count(), 4);
    assert_eq!(minimized.token_count(), 3);
    for input in [&b"a"[..], b"ab", b"aba", b"abac", b"abacx", b"", b"b", b"axa"] {
        assert_eq!(minimized.longest_match(input), dfa.longest_match(input));
    }
}

#[test]
fn minimizing_merges_states_that_agree() {
    let mut dfa = Dfa::new();
    let start = dfa.add_state(None);
    let left = dfa.add_state(None);
    let right = dfa.add_state(None);
    let end = dfa.add_state(Some(0));
    let unreachable = dfa.add_state(Some(0));
    dfa.add_transition(start, b'l', left);
    dfa.add_transition(start, b'r', right);
    dfa.add_transition(left, b'x', end);
    dfa.add_transition(right, b'x', unreachable);
    let minimized = Minimizer::new(&dfa).minimize();
    assert_eq!(minimized.state_count(), 4);
    assert_eq!(minimized.matched_token(0), None);
    assert_eq!(minimized.matched_token(1), None);
    let middle = minimized.next_state(1, b'l');
    assert_eq!(minimized.next_state(1, b'r'), middle);
    let last = minimized.next_state(middle, b'x');
    assert_eq!(minimized.matched_token(last), Some(0));
    assert_eq!(minimized.next_state(last, b'x'), 0);
}

#[test]
fn minimizing_tells_the_last_byte_apart() {
    let mut dfa = Dfa::new();
    let start = dfa.add_state(None);
    let plain = dfa.add_state(None);
    let special = dfa.add_state(None);
    let end = dfa.add_state(Some(0));
    dfa.add_transition(start, 0, plain);
    dfa.add_transition(start, 1, special);
    dfa.add_transition(special, 255, end);
    let minimized = Minimizer::new(&dfa).minimize();
    // Only byte 255 tells `special` from `plain`, which is as good as dead.
    assert_eq!(minimized.state_count(), 4);
    assert_eq!(minimized.next_state(1, 0), 0);
    assert!(minimized.next_state(1, 1) != 0);
    assert_eq!(minimized.longest_match(&[1, 255]), Some((0, &b""[..])));
    assert_eq!(minimized.longest_match(&[0, 255]), None);
}

#[test]
fn minimizing_an_automaton_that_matches_nothing() {
    let mut dfa = Dfa::new();
    let start = dfa.add_state(None);
    dfa.add_state(Some(1));
    dfa.add_transition(start, b'a', start);
    let minimized = Minimizer::new(&dfa).minimize();
    assert_eq!(minimized.state_count(), 1);
    assert_eq!(minimized.longest_match(b"aaa"), None);
    let only_dead = Minimizer::new(&Dfa::new()).minimize();
    assert_eq!(only_dead.state_count(), 1);
}
