//! Deterministic automata over bytes as a dense table, and the scanner that
//! finds the longest match.

use vstd::prelude::*;
use vstd::slice::slice_subrange;

verus! {

pub type StateId = usize;

/// The state that no input leaves.
pub open spec fn dead() -> int {
    0
}

/// The mathematical content of a [`Dfa`].
pub struct DfaView {
    /// The token that each state reports, if any.
    pub tokens: Seq<Option<usize>>,
    /// The successor of state `s` on byte `b`, at index `256 * s + b`.
    pub table: Seq<StateId>,
    /// One more than the largest token, or 0 where no state reports one.
    pub token_count: usize,
}

/// A transition of a state: on `byte` to `next_state_id`.
#[derive(Clone, Copy, Debug, PartialEq, Eq)]
pub struct Transition {
    pub byte: u8,
    pub next_state_id: StateId,
}

/// The transitions that a row of the table holds, in the order of their bytes.
pub open spec fn transitions_of(row: Seq<StateId>) -> Seq<Transition> {
    Seq::new(256, |i: int| Transition { byte: i as u8, next_state_id: row[i] })
}

/// One more than the largest token among `tokens`, or 0.
pub open spec fn token_bound(tokens: Seq<Option<usize>>) -> int
    decreases tokens.len(),
{
    if tokens.len() == 0 {
        0
    } else {
        let rest = token_bound(tokens.drop_last());
        match tokens.last() {
            Some(t) if t + 1 > rest => t + 1,
            _ => rest,
        }
    }
}

impl DfaView {
    /// The automaton that has the dead state only.
    pub open spec fn dead_only() -> DfaView {
        DfaView { tokens: seq![None], table: Seq::new(256, |i: int| 0usize), token_count: 0 }
    }

    pub open spec fn state_count(self) -> int {
        self.tokens.len() as int
    }

    /// The successor of state `s` on `byte`.
    pub open spec fn next(self, s: int, byte: u8) -> int {
        self.table[256 * s + byte] as int
    }

    /// The table is complete and stays within the states; state 0 is dead:
    /// it reports nothing and leads to itself.
    pub open spec fn wf(self) -> bool {
        &&& self.tokens.len() >= 1
        &&& self.table.len() == 256 * self.tokens.len()
        &&& forall|k: int| 0 <= k < self.table.len() ==> #[trigger] self.table[k] < self.tokens.len()
        &&& self.tokens[0] is None
        &&& forall|k: int| 0 <= k < 256 ==> #[trigger] self.table[k] == 0
        &&& self.token_count == token_bound(self.tokens)
    }

    /// The state in which a scan begins: state 1, or the dead state where
    /// the automaton has no other.
    pub open spec fn start(self) -> int {
        if self.tokens.len() > 1 {
            1
        } else {
            0
        }
    }

    /// The state reached from `s` on `input`.
    pub open spec fn run(self, s: int, input: Seq<u8>) -> int
        decreases input.len(),
    {
        if input.len() == 0 {
            s
        } else {
            self.next(self.run(s, input.drop_last()), input.last())
        }
    }

    /// The token reported after `input`, read from the start.
    pub open spec fn token_after(self, input: Seq<u8>) -> Option<usize> {
        self.tokens[self.run(self.start(), input)]
    }

    /// Whether the first `n` bytes of `input` are a match: at least one
    /// byte, and a token is reported after them.
    pub open spec fn is_match(self, input: Seq<u8>, n: int) -> bool {
        1 <= n <= input.len() && self.token_after(input.take(n)) is Some
    }

    /// The length of the longest match among the first `n` bytes of `input`,
    /// or 0 where there is none.
    pub open spec fn longest(self, input: Seq<u8>, n: int) -> int
        decreases n,
    {
        if n <= 0 {
            0
        } else if self.is_match(input, n) {
            n
        } else {
            self.longest(input, n - 1)
        }
    }

    /// The automaton with one more state, which reports `token` and leads
    /// to the dead state on every byte.
    pub open spec fn with_state(self, token: Option<usize>) -> DfaView {
        DfaView {
            tokens: self.tokens.push(token),
            table: self.table + Seq::new(256, |i: int| 0usize),
            token_count: match token {
                Some(t) if t + 1 > self.token_count => (t + 1) as usize,
                _ => self.token_count,
            },
        }
    }

    /// The automaton in which state `s` leads to `next` on `byte`.
    pub open spec fn with_transition(self, s: StateId, byte: u8, next: StateId) -> DfaView {
        DfaView { table: self.table.update(256 * s + byte, next), ..self }
    }

    /// A run stays within the states.
    pub proof fn lemma_run_in_range(self, s: int, input: Seq<u8>)
        requires
            self.wf(),
            0 <= s < self.state_count(),
        ensures
            0 <= self.run(s, input) < self.state_count(),
        decreases input.len(),
    {
        if input.len() > 0 {
            self.lemma_run_in_range(s, input.drop_last());
            let p = self.run(s, input.drop_last());
            assert(self.table[256 * p + input.last()] < self.tokens.len());
        }
    }

    /// Running over two inputs in turn is running over both at once.
    pub proof fn lemma_run_concat(self, s: int, first: Seq<u8>, second: Seq<u8>)
        ensures
            self.run(s, first + second) == self.run(self.run(s, first), second),
        decreases second.len(),
    {
        if second.len() == 0 {
            assert(first + second =~= first);
        } else {
            assert((first + second).drop_last() =~= first + second.drop_last());
            assert((first + second).last() == second.last());
            self.lemma_run_concat(s, first, second.drop_last());
        }
    }

    /// No input leads out of the dead state.
    pub proof fn lemma_dead_absorbs(self, input: Seq<u8>)
        requires
            self.wf(),
        ensures
            self.run(dead(), input) == dead(),
        decreases input.len(),
    {
        if input.len() > 0 {
            self.lemma_dead_absorbs(input.drop_last());
            assert(self.table[input.last() as int] == 0);
        }
    }

    /// Once a scan is in the dead state, no longer prefix is a match.
    pub proof fn lemma_no_match_after_dead(self, input: Seq<u8>, k: int, n: int)
        requires
            self.wf(),
            0 <= k <= n <= input.len(),
            self.run(self.start(), input.take(k)) == dead(),
        ensures
            self.run(self.start(), input.take(n)) == dead(),
            !self.is_match(input, n),
    {
        assert(input.take(n) =~= input.take(k) + input.subrange(k, n));
        self.lemma_run_concat(self.start(), input.take(k), input.subrange(k, n));
        self.lemma_dead_absorbs(input.subrange(k, n));
    }

    /// The longest match among the first `n` bytes is a match, no longer
    /// prefix within them is one, and it is 0 only where none is.
    pub proof fn lemma_longest(self, input: Seq<u8>, n: int)
        requires
            n <= input.len(),
        ensures
            0 <= self.longest(input, n),
            self.longest(input, n) <= n || n < 0,
            self.longest(input, n) > 0 ==> self.is_match(input, self.longest(input, n)),
            forall|m: int| self.longest(input, n) < m <= n ==> !self.is_match(input, m),
        decreases n,
    {
        if n > 0 && !self.is_match(input, n) {
            self.lemma_longest(input, n - 1);
        }
    }

    /// Once a scan has reached the dead state after `k` bytes, the bytes
    /// that follow do not change the longest match.
    pub proof fn lemma_dead_keeps_longest(self, input: Seq<u8>, k: int, n: int)
        requires
            self.wf(),
            0 <= k <= n <= input.len(),
            self.run(self.start(), input.take(k)) == dead(),
        ensures
            self.longest(input, n) == self.longest(input, k),
        decreases n - k,
    {
        if k < n {
            self.lemma_no_match_after_dead(input, k, n);
            self.lemma_dead_keeps_longest(input, k, n - 1);
        }
    }

    /// Whether the automaton reports the same after every input, whether
    /// it begins in `p` or in `q`.
    pub open spec fn equivalent(self, p: int, q: int) -> bool {
        forall|input: Seq<u8>|
            self.tokens[#[trigger] self.run(p, input)] == self.tokens[self.run(q, input)]
    }

    /// Running over a byte and then an input is running over both at once.
    pub proof fn lemma_run_first(self, s: int, byte: u8, input: Seq<u8>)
        ensures
            self.run(s, seq![byte] + input) == self.run(self.next(s, byte), input),
    {
        self.lemma_run_concat(s, seq![byte], input);
        assert(seq![byte].drop_last() =~= Seq::<u8>::empty());
        assert(self.run(s, seq![byte]) == self.next(self.run(s, Seq::<u8>::empty()), byte));
    }

    /// Equivalent states report the same and lead to equivalent states.
    pub proof fn lemma_equivalent_step(self, p: int, q: int, byte: u8)
        requires
            self.equivalent(p, q),
        ensures
            self.tokens[p] == self.tokens[q],
            self.equivalent(self.next(p, byte), self.next(q, byte)),
    {
        assert(self.run(p, Seq::<u8>::empty()) == p);
        assert(self.run(q, Seq::<u8>::empty()) == q);
        assert forall|input: Seq<u8>|
            self.tokens[#[trigger] self.run(self.next(p, byte), input)]
                == self.tokens[self.run(self.next(q, byte), input)] by {
            self.lemma_run_first(p, byte, input);
            self.lemma_run_first(q, byte, input);
            assert(self.tokens[self.run(p, seq![byte] + input)] == self.tokens[self.run(
                q,
                seq![byte] + input,
            )]);
        }
    }

    /// Whether some input leads from the start to state `s`.
    pub open spec fn reachable(self, s: int) -> bool {
        exists|input: Seq<u8>| #[trigger] self.run(self.start(), input) == s
    }

    /// Whether no continuation tells `first` from `second`: after both,
    /// every further input is reported alike.
    pub open spec fn alike(self, first: Seq<u8>, second: Seq<u8>) -> bool {
        forall|more: Seq<u8>|
            #[trigger] self.token_after(first + more) == self.token_after(second + more)
    }

    /// The transitions of state `s` in the order of their bytes.
    pub open spec fn transitions(self, s: int) -> Seq<Transition> {
        transitions_of(self.row(s))
    }

    /// The part of the table that belongs to state `s`.
    pub open spec fn row(self, s: int) -> Seq<StateId> {
        self.table.subrange(256 * s, 256 * s + 256)
    }

    /// Every state has exactly one transition for every byte, and it leads
    /// to a state.
    pub proof fn lemma_deterministic(self, s: int, byte: u8)
        requires
            self.wf(),
            0 <= s < self.state_count(),
        ensures
            self.transitions(s).len() == 256,
            self.transitions(s)[byte as int] == (Transition {
                byte,
                next_state_id: self.next(s, byte) as usize,
            }),
            forall|i: int|
                0 <= i < 256 && (#[trigger] self.transitions(s)[i]).byte == byte ==> i == byte,
            0 <= self.next(s, byte) < self.state_count(),
    {
        assert(self.table[256 * s + byte] < self.tokens.len());
    }

    /// Every token is below the bound, and the bound is reached.
    pub proof fn lemma_token_bound(tokens: Seq<Option<usize>>)
        ensures
            0 <= token_bound(tokens),
            forall|s: int|
                0 <= s < tokens.len() && (#[trigger] tokens[s]) is Some ==> tokens[s]->0
                    < token_bound(tokens),
            token_bound(tokens) > 0 ==> exists|s: int|
                0 <= s < tokens.len() && #[trigger] tokens[s] == Some(
                    (token_bound(tokens) - 1) as usize,
                ),
        decreases tokens.len(),
    {
        if tokens.len() > 0 {
            let rest = tokens.drop_last();
            Self::lemma_token_bound(rest);
            assert forall|s: int| 0 <= s < tokens.len() && (#[trigger] tokens[s]) is Some implies tokens[s]->0
                < token_bound(tokens) by {
                if s < rest.len() {
                    assert(rest[s] == tokens[s]);
                }
            }
            if token_bound(tokens) > 0 {
                if token_bound(tokens) == token_bound(rest) {
                    let s = choose|s: int|
                        0 <= s < rest.len() && #[trigger] rest[s] == Some(
                            (token_bound(rest) - 1) as usize,
                        );
                    assert(tokens[s] == rest[s]);
                } else {
                    assert(tokens[tokens.len() - 1] == Some((token_bound(tokens) - 1) as usize));
                }
            }
        }
    }
}

/// A deterministic automaton with a transition for every state and byte.
#[derive(Clone, Debug)]
pub struct Dfa {
    states: Vec<Option<usize>>,
    transitions: Vec<StateId>,
    token_count: usize,
}

impl View for Dfa {
    type V = DfaView;

    closed spec fn view(&self) -> DfaView {
        DfaView {
            tokens: self.states@,
            table: self.transitions@,
            token_count: self.token_count,
        }
    }
}

impl Dfa {
    /// The automaton that has the dead state only.
    pub fn new() -> (dfa: Self)
        ensures
            dfa@ == DfaView::dead_only(),
            dfa@.wf(),
    {
        let mut states: Vec<Option<usize>> = Vec::new();
        states.push(None);
        let mut transitions: Vec<StateId> = Vec::new();
        let mut byte: usize = 0;
        while byte < 256
            invariant
                byte <= 256,
                transitions@.len() == byte,
                forall|k: int| 0 <= k < byte ==> transitions@[k] == 0,
            decreases 256 - byte,
        {
            transitions.push(0);
            byte += 1;
        }
        let dfa = Self { states, transitions, token_count: 0 };
        proof {
            assert(dfa@.tokens =~= seq![None]);
            assert(dfa@.table =~= Seq::new(256, |i: int| 0usize));
            assert(dfa@.tokens.drop_last() =~= Seq::empty());
            reveal_with_fuel(token_bound, 2);
        }
        dfa
    }

    /// The table is indexed by a machine integer.
    pub proof fn lemma_table_fits(&self)
        ensures
            self@.table.len() <= usize::MAX,
            self@.tokens.len() <= usize::MAX,
    {
        assert(self.transitions.len() == self.transitions@.len());
        assert(self.states.len() == self.states@.len());
    }

    pub fn state_count(&self) -> (n: usize)
        ensures
            n == self@.state_count(),
    {
        self.states.len()
    }

    /// One more than the largest token that a state reports, or 0.
    pub fn token_count(&self) -> (n: usize)
        ensures
            n == self@.token_count,
    {
        self.token_count
    }

    /// The token that state `state_id` reports.
    pub fn matched_token(&self, state_id: StateId) -> (token: Option<usize>)
        requires
            state_id < self@.state_count(),
        ensures
            token == self@.tokens[state_id as int],
    {
        self.states[state_id]
    }

    /// The successor of `state_id` on `byte`.
    pub fn next_state(&self, state_id: StateId, byte: u8) -> (next: StateId)
        requires
            self@.wf(),
            state_id < self@.state_count(),
        ensures
            next == self@.next(state_id as int, byte),
            next < self@.state_count(),
    {
        proof {
            assert(self.transitions.len() == self.transitions@.len());
        }
        let offset: usize = state_id * 256 + byte as usize;
        self.transitions[offset]
    }

    /// A cursor over the states in the order of their ids.
    pub fn states(&self) -> (states: States<'_>)
        requires
            self@.wf(),
        ensures
            states.dfa() == self@,
            states.position() == 0,
    {
        States { dfa: self, position: 0 }
    }

    /// The longest prefix of `bytes`, of at least one byte, after which the
    /// automaton reports a token: that token, and the bytes after the prefix.
    pub fn longest_match<'a>(&self, bytes: &'a [u8]) -> (longest_match: Option<
        (usize, &'a [u8]),
    >)
        requires
            self@.wf(),
        ensures
            match longest_match {
                None => self@.longest(bytes@, bytes@.len() as int) == 0,
                Some((token, rest)) => {
                    let n = self@.longest(bytes@, bytes@.len() as int);
                    &&& 0 < n <= bytes@.len()
                    &&& self@.token_after(bytes@.take(n)) == Some(token)
                    &&& rest@ == bytes@.skip(n)
                },
            },
    {
        let mut longest_match: Option<(usize, usize)> = None;
        let mut state_id: usize = if self.states.len() > 1 {
            start_state_id()
        } else {
            dead_state_id()
        };
        let mut consumed: usize = 0;
        let len: usize = bytes.len();
        assert(bytes@.take(0) =~= Seq::empty());
        while consumed < len
            invariant_except_break
                state_id == self@.run(self@.start(), bytes@.take(consumed as int)),
            invariant
                self@.wf(),
                len == bytes@.len(),
                consumed <= len,
                state_id < self@.state_count(),
                match longest_match {
                    None => self@.longest(bytes@, consumed as int) == 0,
                    Some((token, n)) => {
                        &&& n == self@.longest(bytes@, consumed as int)
                        &&& 0 < n <= consumed
                        &&& self@.token_after(bytes@.take(n as int)) == Some(token)
                    },
                },
            ensures
                consumed <= len,
                self@.longest(bytes@, len as int) == self@.longest(bytes@, consumed as int),
            decreases len - consumed,
        {
            let byte: u8 = bytes[consumed];
            proof {
                assert(bytes@.take(consumed + 1).drop_last() =~= bytes@.take(consumed as int));
                assert(bytes@.take(consumed + 1).last() == byte);
            }
            state_id = self.next_state(state_id, byte);
            if state_id == dead_state_id() {
                proof {
                    self@.lemma_dead_keeps_longest(bytes@, consumed + 1, len as int);
                }
                break;
            }
            consumed += 1;
            if let Some(token) = self.states[state_id] {
                longest_match = Some((token, consumed));
            }
        }
        match longest_match {
            None => None,
            Some((token, n)) => {
                let rest = slice_subrange(bytes, n, len);
                Some((token, rest))
            },
        }
    }

    /// Adds a state that reports `matched_token` and leads to the dead
    /// state on every byte.
    pub fn add_state(&mut self, matched_token: Option<usize>) -> (state_id: StateId)
        requires
            old(self)@.wf(),
            matched_token is Some ==> matched_token->0 < usize::MAX,
        ensures
            state_id == old(self)@.state_count(),
            final(self)@ == old(self)@.with_state(matched_token),
            final(self)@.wf(),
    {
        let state_id: usize = self.states.len();
        self.states.push(matched_token);
        let mut byte: usize = 0;
        while byte < 256
            invariant
                byte <= 256,
                self.states@ == old(self).states@.push(matched_token),
                self.token_count == old(self).token_count,
                self.transitions@.len() == old(self).transitions@.len() + byte,
                forall|k: int|
                    0 <= k < old(self).transitions@.len() ==> self.transitions@[k] == old(
                        self,
                    ).transitions@[k],
                forall|k: int|
                    old(self).transitions@.len() <= k < self.transitions@.len()
                        ==> self.transitions@[k] == 0,
            decreases 256 - byte,
        {
            self.transitions.push(dead_state_id());
            byte += 1;
        }
        if let Some(matched_token) = matched_token {
            if matched_token + 1 > self.token_count {
                self.token_count = matched_token + 1;
            }
        }
        proof {
            assert(self@.table =~= old(self)@.with_state(matched_token).table);
            assert(self@.tokens.drop_last() =~= old(self)@.tokens);
        }
        state_id
    }

    /// Lets `state_id` lead to `next_state_id` on `byte`. The dead state
    /// can only be led to itself.
    pub fn add_transition(&mut self, state_id: StateId, byte: u8, next_state_id: StateId)
        requires
            old(self)@.wf(),
            state_id < old(self)@.state_count(),
            next_state_id < old(self)@.state_count(),
            state_id == 0 ==> next_state_id == 0,
        ensures
            final(self)@ == old(self)@.with_transition(state_id, byte, next_state_id),
            final(self)@.wf(),
    {
        proof {
            assert(self.transitions.len() == self.transitions@.len());
        }
        let offset: usize = state_id * 256 + byte as usize;
        self.transitions.set(offset, next_state_id);
    }
}

impl Default for Dfa {
    /// The automaton that has the dead state only.
    fn default() -> (dfa: Self)
        ensures
            dfa@ == DfaView::dead_only(),
            dfa@.wf(),
    {
        Self::new()
    }
}

/// A cursor over the states of a [`Dfa`].
#[derive(Debug)]
pub struct States<'a> {
    dfa: &'a Dfa,
    position: usize,
}

impl<'a> States<'a> {
    #[verifier::type_invariant]
    spec fn in_bounds(self) -> bool {
        self.dfa@.wf() && self.position <= self.dfa@.tokens.len()
    }

    /// The automaton whose states are visited.
    pub closed spec fn dfa(&self) -> DfaView {
        self.dfa@
    }

    /// The id of the state that comes next.
    pub closed spec fn position(&self) -> int {
        self.position as int
    }

    /// The next state with its id, if any is left.
    pub fn next(&mut self) -> (item: Option<(StateId, State<'a>)>)
        ensures
            final(self).dfa() == old(self).dfa(),
            match item {
                None => {
                    &&& old(self).position() >= old(self).dfa().state_count()
                    &&& final(self).position() == old(self).position()
                },
                Some((state_id, state)) => {
                    &&& old(self).position() < old(self).dfa().state_count()
                    &&& state_id == old(self).position()
                    &&& state@ == (old(self).dfa().tokens[state_id as int], old(self).dfa().row(
                        state_id as int,
                    ))
                    &&& final(self).position() == old(self).position() + 1
                },
            },
    {
        proof {
            use_type_invariant(&*self);
            self.dfa.lemma_table_fits();
        }
        if self.position < self.dfa.states.len() {
            let state_id: usize = self.position;
            let matched_token = self.dfa.states[state_id];
            let transitions = slice_subrange(
                self.dfa.transitions.as_slice(),
                state_id * 256,
                state_id * 256 + 256,
            );
            self.position += 1;
            Some((state_id, State { matched_token, transitions }))
        } else {
            None
        }
    }
}

/// A state of a [`Dfa`]: what it reports, and where it leads.
#[derive(Debug)]
pub struct State<'a> {
    matched_token: Option<usize>,
    transitions: &'a [StateId],
}

impl<'a> View for State<'a> {
    type V = (Option<usize>, Seq<StateId>);

    /// The token, and the row of the table.
    closed spec fn view(&self) -> (Option<usize>, Seq<StateId>) {
        (self.matched_token, self.transitions@)
    }
}

impl<'a> State<'a> {
    #[verifier::type_invariant]
    spec fn full_row(self) -> bool {
        self.transitions@.len() == 256
    }

    pub fn matched_token(&self) -> (token: Option<usize>)
        ensures
            token == self.token(),
    {
        self.matched_token
    }

    /// The token that the state reports.
    pub open spec fn token(&self) -> Option<usize> {
        let (token, _) = self@;
        token
    }

    /// The row of the table that belongs to the state.
    pub open spec fn row(&self) -> Seq<StateId> {
        let (_, row) = self@;
        row
    }

    /// A cursor over the transitions in the order of their bytes.
    pub fn transitions(&self) -> (transitions: Transitions<'a>)
        ensures
            transitions@ == transitions_of(self.row()),
    {
        proof {
            use_type_invariant(self);
        }
        let transitions = Transitions { transitions: self.transitions, position: 0 };
        assert(transitions_of(self.transitions@).skip(0) =~= transitions_of(self.transitions@));
        transitions
    }
}

/// A cursor over the transitions of a [`State`].
#[derive(Debug)]
pub struct Transitions<'a> {
    transitions: &'a [StateId],
    position: usize,
}

impl<'a> View for Transitions<'a> {
    type V = Seq<Transition>;

    /// The transitions still to come.
    closed spec fn view(&self) -> Seq<Transition> {
        transitions_of(self.transitions@).skip(self.position as int)
    }
}

impl<'a> Transitions<'a> {
    #[verifier::type_invariant]
    spec fn in_bounds(self) -> bool {
        self.transitions@.len() == 256 && self.position <= 256
    }

    /// The next transition, if any is left.
    pub fn next(&mut self) -> (item: Option<Transition>)
        ensures
            old(self)@.len() == 0 ==> item is None && final(self)@ == old(self)@,
            old(self)@.len() > 0 ==> item == Some(old(self)@[0]) && final(self)@ == old(
                self,
            )@.drop_first(),
    {
        proof {
            use_type_invariant(&*self);
        }
        if self.position < 256 {
            let byte: u8 = self.position as u8;
            let next_state_id: usize = self.transitions[self.position];
            self.position += 1;
            assert(transitions_of(self.transitions@).skip(self.position as int)
                =~= transitions_of(self.transitions@).skip(self.position - 1).drop_first());
            Some(Transition { byte, next_state_id })
        } else {
            None
        }
    }
}

pub fn dead_state_id() -> (state_id: StateId)
    ensures
        state_id == 0,
{
    0
}

pub fn start_state_id() -> (state_id: StateId)
    ensures
        state_id == 1,
{
    1
}

} // verus!
