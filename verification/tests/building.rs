use lexdfa::nfa::{encode_char, Builder, ByteRange, Nfa, Transition};
use lexdfa::sparse_set::SparseSet;

fn empty(next_state_id: usize) -> Transition {
    Transition { byte_range: None, next_state_id }
}

fn on(byte: u8, next_state_id: usize) -> Transition {
    Transition { byte_range: Some(ByteRange { start: byte, end: byte }), next_state_id }
}

fn closure(nfa: &Nfa, seed: usize) -> Vec<usize> {
    let mut set = SparseSet::new(nfa.state_count());
    let mut stack = Vec::new();
    nfa.empty_closure(seed, &mut set, &mut stack);
    let mut members = Vec::new();
    let mut iter = set.iter();
    while let Some(member) = iter.next() {
        members.push(member);
    }
    members.sort();
    members
}

#[test]
fn byte_range_contains_its_ends() {
    let range = ByteRange { start: 10, end: 20 };
    assert!(range.contains(10) && range.contains(15) && range.contains(20));
    assert!(!range.contains(9) && !range.contains(21));
    assert!(!ByteRange { start: 5, end: 4 }.contains(5));
}

#[test]
fn transition_without_range_is_empty() {
    assert!(empty(3).is_empty());
    assert!(!on(b'a', 3).is_empty());
}

#[test]
fn encoding_follows_utf8() {
    assert_eq!(encode_char('a'), vec![0x61]);
    assert_eq!(encode_char('é'), vec![0xC3, 0xA9]);
    assert_eq!(encode_char('€'), vec![0xE2, 0x82, 0xAC]);
    assert_eq!(encode_char('𝄞'), vec![0xF0, 0x9D, 0x84, 0x9E]);
    for ch in ['\0', '\u{7f}', '\u{80}', '\u{7ff}', '\u{800}', '\u{ffff}', '\u{10000}', '\u{10ffff}'] {
        let mut buffer = [0; 4];
        assert_eq!(encode_char(ch), ch.encode_utf8(&mut buffer).as_bytes().to_vec());
    }
}

#[test]
fn nfa_grows_by_states_and_transitions() {
    let mut nfa = Nfa::new();
    assert_eq!(nfa.state_count(), 0);
    assert_eq!(nfa.add_state(), 0);
    assert_eq!(nfa.add_state(), 1);
    nfa.add_transition(0, None, 1);
    nfa.add_transition(0, Some(ByteRange { start: 1, end: 2 }), 0);
    assert_eq!(nfa.state_count(), 2);
    assert_eq!(nfa.state(0).matched_token, None);
    assert_eq!(
        nfa.state(0).transitions,
        vec![empty(1), Transition { byte_range: Some(ByteRange { start: 1, end: 2 }), next_state_id: 0 }]
    );
    assert!(nfa.state(1).transitions.is_empty());
    assert!(nfa.fragments().is_empty());
}

#[test]
fn char_of_one_byte() {
    let mut builder = Builder::new();
    builder.char('a');
    assert_eq!(builder.fragment_count(), 1);
    builder.accept(4);
    assert_eq!(builder.fragment_count(), 0);
    let nfa = builder.build();
    assert_eq!(nfa.state_count(), 2);
    assert_eq!(nfa.state(0).transitions, vec![on(b'a', 1)]);
    assert_eq!(nfa.state(1).matched_token, Some(4));
    assert_eq!(nfa.fragments().len(), 1);
    assert_eq!(nfa.fragments()[0].start_state_id, 0);
    assert_eq!(nfa.fragments()[0].end_state_id, 1);
}

#[test]
fn char_of_two_bytes_is_one_fragment() {
    let mut builder = Builder::new();
    builder.char('é');
    assert_eq!(builder.fragment_count(), 1);
    builder.accept(0);
    let nfa = builder.build();
    assert_eq!(nfa.state_count(), 4);
    assert_eq!(nfa.state(0).transitions, vec![on(0xC3, 1)]);
    assert_eq!(nfa.state(1).transitions, vec![empty(2)]);
    assert_eq!(nfa.state(2).transitions, vec![on(0xA9, 3)]);
    assert_eq!(nfa.fragments()[0].start_state_id, 0);
    assert_eq!(nfa.fragments()[0].end_state_id, 3);
    assert_eq!(nfa.state(3).matched_token, Some(0));
}

#[test]
fn zero_or_one_adds_three_edges() {
    let mut builder = Builder::new();
    builder.char('a');
    builder.zero_or_one();
    builder.accept(0);
    let nfa = builder.build();
    assert_eq!(nfa.state_count(), 4);
    assert_eq!(nfa.state(2).transitions, vec![empty(0), empty(3)]);
    assert_eq!(nfa.state(1).transitions, vec![empty(3)]);
    assert_eq!(nfa.fragments()[0].start_state_id, 2);
    assert_eq!(nfa.fragments()[0].end_state_id, 3);
}

#[test]
fn one_or_more_adds_three_edges() {
    let mut builder = Builder::new();
    builder.char('a');
    builder.one_or_more();
    builder.accept(0);
    let nfa = builder.build();
    assert_eq!(nfa.state(2).transitions, vec![empty(0)]);
    assert_eq!(nfa.state(1).transitions, vec![empty(0), empty(3)]);
}

#[test]
fn zero_or_more_adds_four_edges() {
    let mut builder = Builder::new();
    builder.char('a');
    builder.zero_or_more();
    builder.accept(0);
    let nfa = builder.build();
    assert_eq!(nfa.state(2).transitions, vec![empty(0), empty(3)]);
    assert_eq!(nfa.state(1).transitions, vec![empty(0), empty(3)]);
}

#[test]
fn concatenate_joins_the_lower_to_the_upper() {
    let mut builder = Builder::new();
    builder.char('a');
    builder.char('b');
    builder.concatenate();
    assert_eq!(builder.fragment_count(), 1);
    builder.accept(0);
    let nfa = builder.build();
    assert_eq!(nfa.state_count(), 4);
    assert_eq!(nfa.state(1).transitions, vec![empty(2)]);
    assert_eq!(nfa.fragments()[0].start_state_id, 0);
    assert_eq!(nfa.fragments()[0].end_state_id, 3);
}

#[test]
fn alternate_adds_four_edges() {
    let mut builder = Builder::new();
    builder.char('a');
    builder.char('b');
    builder.alternate();
    builder.accept(0);
    let nfa = builder.build();
    assert_eq!(nfa.state_count(), 6);
    assert_eq!(nfa.state(4).transitions, vec![empty(0), empty(2)]);
    assert_eq!(nfa.state(1).transitions, vec![empty(5)]);
    assert_eq!(nfa.state(3).transitions, vec![empty(5)]);
    assert_eq!(nfa.fragments()[0].start_state_id, 4);
    assert_eq!(nfa.fragments()[0].end_state_id, 5);
}

#[test]
fn truncate_drops_fragments_only() {
    let mut builder = Builder::new();
    builder.char('a');
    builder.char('b');
    builder.truncate(1);
    assert_eq!(builder.fragment_count(), 1);
    builder.accept(9);
    let nfa = builder.build();
    assert_eq!(nfa.state_count(), 4);
    assert_eq!(nfa.state(1).matched_token, Some(9));
    assert_eq!(nfa.state(3).matched_token, None);
}

#[test]
fn closure_follows_empty_edges_through_cycles() {
    let mut builder = Builder::new();
    builder.char('a');
    builder.zero_or_more();
    builder.accept(0);
    let nfa = builder.build();
    assert_eq!(closure(&nfa, 2), vec![0, 2, 3]);
    assert_eq!(closure(&nfa, 1), vec![0, 1, 3]);
    assert_eq!(closure(&nfa, 0), vec![0]);
    assert_eq!(closure(&nfa, 3), vec![3]);
}

#[test]
fn closure_stops_at_what_is_in_the_set() {
    let mut nfa = Nfa::new();
    for _ in 0..4 {
        nfa.add_state();
    }
    nfa.add_transition(0, None, 1);
    nfa.add_transition(1, None, 2);
    nfa.add_transition(2, None, 3);
    let mut set = SparseSet::new(4);
    let mut stack = Vec::new();
    set.insert(2);
    nfa.empty_closure(0, &mut set, &mut stack);
    assert!(set.contains(0) && set.contains(1) && set.contains(2));
    assert!(!set.contains(3));
    assert!(stack.is_empty());
    nfa.empty_closure(2, &mut set, &mut stack);
    assert_eq!(set.len(), 3);
}
