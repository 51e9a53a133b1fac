//! Subset construction: from a nondeterministic automaton to a deterministic one.

use crate::counting::{
    below, increasing, lemma_distinct_keys_bound, lemma_increasing_same_set, pow2,
};
use crate::dfa::{Dfa, DfaView, StateId};
use crate::nfa;
use crate::nfa::{Nfa, NfaView};
use crate::sparse_set::SparseSet;
use vstd::prelude::*;

verus! {

/// Why no deterministic automaton was built.
///
/// Patterns are not ranked: where two of them match the same input, the
/// automaton is refused.
#[derive(Clone, Copy, Debug, PartialEq, Eq)]
pub enum BuildError {
    /// Some input is matched by two patterns at once: they report `a` and
    /// `b`, `a` being the token of the pattern whose end state has the
    /// smaller id.
    Ambiguous { a: usize, b: usize },
}

/// Whether state `q` reports a token.
pub open spec fn accepting(nfa: NfaView, q: nfa::StateId) -> bool {
    q < nfa.states.len() && nfa.states[q as int].matched_token is Some
}

/// Whether at most one state of `set` reports a token, and `token` is
/// what it reports.
pub open spec fn reports_for(nfa: NfaView, set: Set<nfa::StateId>, token: Option<usize>) -> bool {
    &&& forall|p: nfa::StateId, q: nfa::StateId|
        set.contains(p) && set.contains(q) && accepting(nfa, p) && accepting(nfa, q) ==> p == q
    &&& match token {
        Some(t) => exists|q: nfa::StateId| set.contains(q) && nfa.reports(q, t),
        None => forall|q: nfa::StateId| set.contains(q) ==> !accepting(nfa, q),
    }
}

/// Whether `input`, of at least one byte, leads to two states that report
/// a token: `a` the one with the smaller id, `b` the other.
pub open spec fn ambiguous(nfa: NfaView, input: Seq<u8>, a: usize, b: usize) -> bool {
    input.len() > 0 && exists|p: nfa::StateId, q: nfa::StateId|
        p < q && nfa.reach(input).contains(p) && nfa.reach(input).contains(q) && nfa.reports(p, a)
            && nfa.reports(q, b)
}

/// Whether `dfa` reports after every input of at least one byte what `nfa` can report.
pub open spec fn simulates(dfa: DfaView, nfa: NfaView) -> bool {
    forall|input: Seq<u8>, token: usize|
        input.len() > 0 ==> (dfa.token_after(input) == Some(token) <==> #[trigger] nfa.accepts(
            input,
            token,
        ))
}

/// What a set of states reports is determined by the set.
pub proof fn lemma_reports_unique(
    nfa: NfaView,
    set: Set<nfa::StateId>,
    first: Option<usize>,
    second: Option<usize>,
)
    requires
        reports_for(nfa, set, first),
        reports_for(nfa, set, second),
    ensures
        first == second,
{
    if first is Some {
        let p = choose|q: nfa::StateId| set.contains(q) && nfa.reports(q, first->0);
        assert(accepting(nfa, p));
        if second is Some {
            let q = choose|q: nfa::StateId| set.contains(q) && nfa.reports(q, second->0);
            assert(accepting(nfa, q));
        }
    } else if second is Some {
        let q = choose|q: nfa::StateId| set.contains(q) && nfa.reports(q, second->0);
        assert(accepting(nfa, q));
    }
}

/// The subset construction as far as it has come: each state of `dfa`
/// stands for the set of states of `nfa` that `keys` lists for it, and
/// `words` holds an input that leads `nfa` to exactly that set.
pub struct Subsets {
    pub nfa: NfaView,
    pub dfa: DfaView,
    pub keys: Seq<Seq<nfa::StateId>>,
    pub words: Seq<Seq<u8>>,
}

impl Subsets {
    /// The set that state `i` stands for.
    pub open spec fn set_of(self, i: int) -> Set<nfa::StateId> {
        self.keys[i].to_set()
    }

    /// The dead state stands for no state; state 1 for the states in which
    /// `nfa` begins, and it reports nothing; every later state stands for
    /// a set that some input of at least one byte leads to, reports what
    /// that set reports, and differs from the states before it in its set
    /// or in what it reports.
    pub open spec fn wf(self) -> bool {
        &&& self.nfa.wf()
        &&& self.dfa.wf()
        &&& self.keys.len() == self.dfa.tokens.len()
        &&& self.words.len() == self.keys.len()
        &&& self.keys.len() >= 2
        &&& forall|i: int|
            0 <= i < self.keys.len() ==> increasing(#[trigger] self.keys[i]) && below(
                self.keys[i],
                self.nfa.states.len(),
            )
        &&& self.keys[0].len() == 0
        &&& self.dfa.tokens[1] is None
        &&& self.words[1].len() == 0
        &&& forall|i: int|
            1 <= i < self.keys.len() ==> self.nfa.reach(#[trigger] self.words[i]) == self.set_of(i)
        &&& forall|i: int|
            2 <= i < self.keys.len() ==> (#[trigger] self.words[i]).len() > 0 && reports_for(
                self.nfa,
                self.set_of(i),
                self.dfa.tokens[i],
            )
        &&& forall|i: int, j: int|
            0 <= i < j < self.keys.len() && 2 <= j ==> #[trigger] self.keys[i]
                != #[trigger] self.keys[j] || self.dfa.tokens[i] != self.dfa.tokens[j]
    }

    /// Whether the transition of state `i` on `byte` is filled in: it leads
    /// to the first state that stands for what the set of `i` reaches on `byte`.
    pub open spec fn done(self, i: int, byte: u8) -> bool {
        let j = self.dfa.next(i, byte);
        &&& self.set_of(j) == self.nfa.closure(self.nfa.step(self.set_of(i), byte))
        &&& reports_for(self.nfa, self.set_of(j), self.dfa.tokens[j])
        &&& self.first(j)
    }

    /// Whether no state before `j` has the set and the token of `j`.
    pub open spec fn first(self, j: int) -> bool {
        forall|k: int|
            0 <= k < j ==> #[trigger] self.keys[k] != self.keys[j] || self.dfa.tokens[k]
                != self.dfa.tokens[j]
    }

    /// Whether every transition is filled in.
    pub open spec fn complete(self) -> bool {
        forall|i: int, byte: u8| 1 <= i < self.keys.len() ==> #[trigger] self.done(i, byte)
    }

    /// Whether this stage has everything of `earlier`, unchanged.
    pub open spec fn extends(self, earlier: Subsets) -> bool {
        &&& self.nfa == earlier.nfa
        &&& earlier.keys.is_prefix_of(self.keys)
        &&& earlier.words.is_prefix_of(self.words)
        &&& earlier.dfa.tokens.is_prefix_of(self.dfa.tokens)
        &&& earlier.dfa.table.is_prefix_of(self.dfa.table)
    }

    /// This stage with the transition of state `s` on `byte` led to `next`.
    pub open spec fn filled(self, s: StateId, byte: u8, next: StateId) -> Subsets {
        Subsets { dfa: self.dfa.with_transition(s, byte, next), ..self }
    }

    /// Filling in a transition with the first state that stands for what
    /// is reached keeps the stage well formed, and leaves the transitions
    /// that were filled in before as they were.
    pub proof fn lemma_filled(self, earlier: Subsets, s: StateId, byte: u8, next: StateId)
        requires
            earlier.wf(),
            self.wf(),
            self.extends(earlier),
            1 <= s < earlier.keys.len(),
            next < self.keys.len(),
            self.set_of(next as int) == self.nfa.closure(
                self.nfa.step(self.set_of(s as int), byte),
            ),
            reports_for(self.nfa, self.set_of(next as int), self.dfa.tokens[next as int]),
            self.first(next as int),
        ensures
            self.filled(s, byte, next).wf(),
            self.filled(s, byte, next).done(s as int, byte),
            forall|i: int, b: u8|
                1 <= i < earlier.keys.len() && earlier.done(i, b) && !(i == s && b == byte)
                    ==> #[trigger] self.filled(s, byte, next).done(i, b),
    {
        let now = self.filled(s, byte, next);
        assert(now.dfa.tokens == self.dfa.tokens);
        assert(now.keys == self.keys);
        assert(now.words == self.words);
        assert(now.dfa.wf()) by {
            assert forall|k: int| 0 <= k < now.dfa.table.len() implies #[trigger] now.dfa.table[k]
                < now.dfa.tokens.len() by {
                if k != 256 * s + byte {
                    assert(now.dfa.table[k] == self.dfa.table[k]);
                }
            }
            assert forall|k: int| 0 <= k < 256 implies #[trigger] now.dfa.table[k] == 0 by {
                assert(now.dfa.table[k] == self.dfa.table[k]);
            }
        }
        assert forall|i: int| 1 <= i < now.keys.len() implies now.nfa.reach(
            #[trigger] now.words[i],
        ) == now.set_of(i) by {
            assert(self.nfa.reach(self.words[i]) == self.set_of(i));
        }
        assert forall|i: int| 2 <= i < now.keys.len() implies (#[trigger] now.words[i]).len() > 0
            && reports_for(now.nfa, now.set_of(i), now.dfa.tokens[i]) by {
            assert(self.words[i].len() > 0);
        }
        assert forall|i: int, j: int| 0 <= i < j < now.keys.len() && 2 <= j implies #[trigger] now.keys[i]
            != #[trigger] now.keys[j] || now.dfa.tokens[i] != now.dfa.tokens[j] by {
            assert(self.keys[i] != self.keys[j] || self.dfa.tokens[i] != self.dfa.tokens[j]);
        }
        assert forall|i: int| 0 <= i < now.keys.len() implies increasing(#[trigger] now.keys[i])
            && below(now.keys[i], now.nfa.states.len()) by {
            assert(increasing(self.keys[i]));
        }
        assert(now.wf());
        assert(now.dfa.next(s as int, byte) == next);
        assert(now.first(next as int)) by {
            assert forall|k: int| 0 <= k < next implies #[trigger] now.keys[k] != now.keys[next as int]
                || now.dfa.tokens[k] != now.dfa.tokens[next as int] by {
                assert(self.keys[k] != self.keys[next as int] || self.dfa.tokens[k]
                    != self.dfa.tokens[next as int]);
            }
        }
        assert forall|i: int, b: u8|
            1 <= i < earlier.keys.len() && earlier.done(i, b) && !(i == s && b
                == byte) implies #[trigger] now.done(i, b) by {
            let k = 256 * i + b;
            assert(earlier.dfa.table[k] == self.dfa.table[k]);
            assert(now.dfa.table[k] == self.dfa.table[k]);
            let j = earlier.dfa.next(i, b);
            assert(earlier.dfa.table[k] < earlier.dfa.tokens.len());
            assert(earlier.keys[j] == now.keys[j]);
            assert(earlier.keys[i] == now.keys[i]);
            assert(earlier.dfa.tokens[j] == now.dfa.tokens[j]);
            assert(now.first(j)) by {
                assert forall|k2: int| 0 <= k2 < j implies #[trigger] now.keys[k2] != now.keys[j]
                    || now.dfa.tokens[k2] != now.dfa.tokens[j] by {
                    assert(earlier.keys[k2] != earlier.keys[j] || earlier.dfa.tokens[k2]
                        != earlier.dfa.tokens[j]);
                    assert(earlier.keys[k2] == now.keys[k2]);
                    assert(earlier.dfa.tokens[k2] == now.dfa.tokens[k2]);
                }
            }
        }
    }

    /// The dead state always leads where the empty set leads: to itself.
    pub proof fn lemma_dead_done(self, byte: u8)
        requires
            self.wf(),
        ensures
            self.done(0, byte),
    {
        let empty = self.set_of(0);
        assert(self.dfa.table[byte as int] == 0);
        assert(self.keys[0] =~= Seq::empty());
        assert(empty =~= Set::empty());
        assert(self.nfa.step(empty, byte) =~= Set::empty());
        assert(self.nfa.closure(Set::empty()) =~= Set::empty());
    }

    /// There are no more states than sets of states of `nfa`, and two.
    pub proof fn lemma_state_bound(self)
        requires
            self.wf(),
        ensures
            self.keys.len() <= pow2(self.nfa.states.len()) + 2,
    {
        let later = self.keys.skip(2);
        assert forall|i: int, j: int| 0 <= i < j < later.len() implies later[i] != later[j] by {
            assert(later[i] == self.keys[i + 2]);
            assert(later[j] == self.keys[j + 2]);
            if self.keys[i + 2] == self.keys[j + 2] {
                assert(self.words[i + 2].len() > 0);
                assert(self.words[j + 2].len() > 0);
                lemma_reports_unique(
                    self.nfa,
                    self.set_of(i + 2),
                    self.dfa.tokens[i + 2],
                    self.dfa.tokens[j + 2],
                );
            }
        }
        assert forall|i: int| 0 <= i < later.len() implies increasing(#[trigger] later[i])
            && below(later[i], self.nfa.states.len()) by {
            assert(later[i] == self.keys[i + 2]);
        }
        lemma_distinct_keys_bound(later, self.nfa.states.len());
    }

    /// After any input the deterministic automaton is in the state that
    /// stands for the states in which `nfa` can be.
    pub proof fn lemma_run(self, input: Seq<u8>)
        requires
            self.wf(),
            self.complete(),
        ensures
            0 <= self.dfa.run(1, input) < self.keys.len(),
            self.set_of(self.dfa.run(1, input)) == self.nfa.reach(input),
            input.len() > 0 ==> reports_for(
                self.nfa,
                self.nfa.reach(input),
                self.dfa.token_after(input),
            ),
            input.len() > 0 ==> self.first(self.dfa.run(1, input)),
        decreases input.len(),
    {
        self.dfa.lemma_run_in_range(1, input);
        if input.len() > 0 {
            self.lemma_run(input.drop_last());
            let i = self.dfa.run(1, input.drop_last());
            if i == 0 {
                self.lemma_dead_done(input.last());
            } else {
                assert(self.done(i, input.last()));
            }
        }
    }

    /// Once every transition is filled in, inputs that lead `nfa` to the
    /// same states lead the deterministic automaton to the same state.
    pub proof fn lemma_interned(self, first: Seq<u8>, second: Seq<u8>)
        requires
            self.wf(),
            self.complete(),
            first.len() > 0,
            second.len() > 0,
            self.nfa.reach(first) == self.nfa.reach(second),
        ensures
            self.dfa.run(1, first) == self.dfa.run(1, second),
    {
        self.lemma_run(first);
        self.lemma_run(second);
        let i = self.dfa.run(1, first);
        let j = self.dfa.run(1, second);
        lemma_reports_unique(
            self.nfa,
            self.nfa.reach(first),
            self.dfa.tokens[i],
            self.dfa.tokens[j],
        );
        assert(increasing(self.keys[i]) && increasing(self.keys[j]));
        lemma_increasing_same_set(self.keys[i], self.keys[j]);
        if i < j {
            assert(self.keys[i] != self.keys[j] || self.dfa.tokens[i] != self.dfa.tokens[j]);
        } else if j < i {
            assert(self.keys[j] != self.keys[i] || self.dfa.tokens[j] != self.dfa.tokens[i]);
        }
    }

    /// Once every transition is filled in, the input kept for a state
    /// leads to it.
    pub proof fn lemma_reached(self, i: int)
        requires
            self.wf(),
            self.complete(),
            1 <= i < self.keys.len(),
        ensures
            self.dfa.run(1, self.words[i]) == i,
            self.dfa.reachable(i),
    {
        let word = self.words[i];
        let j = self.dfa.run(1, word);
        if i == 1 {
            assert(j == 1);
        } else {
            self.lemma_run(word);
            assert(self.nfa.reach(word) == self.set_of(i));
            assert(word.len() > 0);
            lemma_reports_unique(self.nfa, self.set_of(i), self.dfa.tokens[i], self.dfa.tokens[j]);
            assert(increasing(self.keys[i]) && increasing(self.keys[j]));
            lemma_increasing_same_set(self.keys[i], self.keys[j]);
            if j < i {
                assert(self.keys[j] != self.keys[i] || self.dfa.tokens[j] != self.dfa.tokens[i]);
            } else if i < j {
                assert(self.keys[i] != self.keys[j] || self.dfa.tokens[i] != self.dfa.tokens[j]);
            }
        }
        assert(self.dfa.start() == 1);
    }

    /// Once every transition is filled in, the deterministic automaton
    /// reports what `nfa` can report, and no input is ambiguous.
    pub proof fn lemma_complete(self)
        requires
            self.wf(),
            self.complete(),
        ensures
            simulates(self.dfa, self.nfa),
            forall|input: Seq<u8>, a: usize, b: usize| !ambiguous(self.nfa, input, a, b),
    {
        assert forall|input: Seq<u8>, token: usize| input.len() > 0 implies (
        self.dfa.token_after(input) == Some(token) <==> #[trigger] self.nfa.accepts(
            input,
            token,
        )) by {
            self.lemma_run(input);
            let set = self.nfa.reach(input);
            if self.nfa.accepts(input, token) {
                let q = choose|q: nfa::StateId| set.contains(q) && self.nfa.reports(q, token);
                assert(accepting(self.nfa, q));
                if self.dfa.token_after(input) is Some {
                    let p = choose|p: nfa::StateId|
                        set.contains(p) && self.nfa.reports(p, self.dfa.token_after(input)->0);
                    assert(accepting(self.nfa, p));
                }
            }
        }
        assert forall|input: Seq<u8>, a: usize, b: usize| !ambiguous(self.nfa, input, a, b) by {
            if ambiguous(self.nfa, input, a, b) {
                self.lemma_run(input);
                let (p, q) = choose|p: nfa::StateId, q: nfa::StateId|
                    p < q && self.nfa.reach(input).contains(p) && self.nfa.reach(input).contains(
                        q,
                    ) && self.nfa.reports(p, a) && self.nfa.reports(q, b);
                assert(accepting(self.nfa, p) && accepting(self.nfa, q));
            }
        }
    }
}


/// Whether some input makes `nfa` report the two tokens of `error` at once.
pub open spec fn witnessed(nfa: NfaView, error: BuildError) -> bool {
    exists|input: Seq<u8>| #[trigger] ambiguous(nfa, input, error->a, error->b)
}

/// Whether inputs of at least one byte that lead `nfa` to the same states
/// lead `dfa` to the same state.
pub open spec fn interned(dfa: DfaView, nfa: NfaView) -> bool {
    forall|first: Seq<u8>, second: Seq<u8>|
        #![trigger nfa.reach(first), nfa.reach(second)]
        first.len() > 0 && second.len() > 0 && nfa.reach(first) == nfa.reach(second) ==> dfa.run(
            dfa.start(),
            first,
        ) == dfa.run(dfa.start(), second)
}

/// What `determinize` owes for `nfa`: an automaton that reports what `nfa`
/// can report, where no input is ambiguous; otherwise two tokens that some
/// input makes `nfa` report at once.
pub open spec fn determinized(nfa: NfaView, result: Result<Dfa, BuildError>) -> bool {
    match result {
        Ok(dfa) => {
            &&& dfa@.wf()
            &&& dfa@.state_count() >= 2
            &&& dfa@.tokens[1] is None
            &&& simulates(dfa@, nfa)
            &&& forall|input: Seq<u8>, a: usize, b: usize| !ambiguous(nfa, input, a, b)
            &&& forall|s: int| 1 <= s < dfa@.state_count() ==> #[trigger] dfa@.reachable(s)
            &&& interned(dfa@, nfa)
        },
        Err(error) => witnessed(nfa, error),
    }
}

/// A state of the deterministic automaton under construction.
struct State {
    nfa_state_ids: Vec<nfa::StateId>,
    matched_token: Option<usize>,
}

/// Builds the deterministic automaton of an [`Nfa`].
pub struct Determinizer<'a> {
    nfa: &'a Nfa,
    dfa: Dfa,
    states: Vec<State>,
    words: Ghost<Seq<Seq<u8>>>,
    nfa_state_id_set: SparseSet,
    nfa_state_id_stack: Vec<nfa::StateId>,
    nfa_state_ids: Vec<nfa::StateId>,
    matched_tokens: Vec<usize>,
}

fn same_ids(first: &Vec<nfa::StateId>, second: &Vec<nfa::StateId>) -> (same: bool)
    ensures
        same == (first@ == second@),
{
    if first.len() != second.len() {
        return false;
    }
    let mut i: usize = 0;
    while i < first.len()
        invariant
            i <= first@.len(),
            first@.len() == second@.len(),
            forall|k: int| 0 <= k < i ==> first@[k] == second@[k],
        decreases first@.len() - i,
    {
        if first[i] != second[i] {
            return false;
        }
        i += 1;
    }
    assert(first@ =~= second@);
    true
}

fn same_token(first: Option<usize>, second: Option<usize>) -> (same: bool)
    ensures
        same == (first == second),
{
    match (first, second) {
        (None, None) => true,
        (Some(a), Some(b)) => a == b,
        _ => false,
    }
}

impl<'a> Determinizer<'a> {
    /// The automaton that is being determinized.
    pub closed spec fn nfa(&self) -> NfaView {
        self.nfa@
    }

    /// The state in which `new` leaves the determinizer.
    pub closed spec fn ready(&self) -> bool {
        &&& self.nfa@.wf()
        &&& self.dfa@ == DfaView::dead_only()
        &&& self.dfa@.wf()
        &&& self.states@.len() == 0
        &&& self.nfa_state_id_set.wf()
        &&& self.nfa_state_id_set.capacity() == self.nfa@.states.len()
    }

    closed spec fn model(&self) -> Subsets {
        Subsets {
            nfa: self.nfa@,
            dfa: self.dfa@,
            keys: self.states@.map_values(|state: State| state.nfa_state_ids@),
            words: self.words@,
        }
    }

    closed spec fn inv(&self) -> bool {
        &&& self.model().wf()
        &&& forall|i: int|
            0 <= i < self.states@.len() ==> (#[trigger] self.states@[i]).matched_token
                == self.dfa@.tokens[i]
        &&& self.nfa_state_id_set.wf()
        &&& self.nfa_state_id_set.capacity() == self.nfa@.states.len()
    }

    pub fn new(nfa: &'a Nfa) -> (determinizer: Self)
        requires
            nfa@.wf(),
        ensures
            determinizer.ready(),
            determinizer.nfa() == nfa@,
    {
        Self {
            nfa,
            dfa: Dfa::new(),
            states: Vec::new(),
            words: Ghost(Seq::empty()),
            nfa_state_id_set: SparseSet::new(nfa.state_count()),
            nfa_state_id_stack: Vec::new(),
            nfa_state_ids: Vec::new(),
            matched_tokens: Vec::new(),
        }
    }

    /// The deterministic automaton that reports, after every input of at
    /// least one byte, the token that the automaton given to `new` can
    /// report; or two tokens that it can report at once.
    pub fn determinize(self) -> (result: Result<Dfa, BuildError>)
        requires
            self.ready(),
        ensures
            determinized(self.nfa(), result),
    {
        let mut this = self;
        let ghost nfa = this.nfa@;
        let start_state_id = this.create_start_state();
        let mut state_id_stack: Vec<StateId> = Vec::new();
        state_id_stack.push(start_state_id);
        proof {
            assert(state_id_stack@[0] == 1);
            this.model().lemma_state_bound();
        }
        while state_id_stack.len() > 0
            invariant
                this.inv(),
                this.nfa@ == nfa,
                nfa == self.nfa(),
                this.states@.len() <= pow2(nfa.states.len()) + 2,
                forall|k: int|
                    0 <= k < state_id_stack@.len() ==> 1 <= (#[trigger] state_id_stack@[k])
                        < this.states@.len(),
                forall|i: StateId, byte: u8|
                    1 <= i < this.states@.len() ==> state_id_stack@.contains(i)
                        || #[trigger] this.model().done(i as int, byte),
            decreases pow2(nfa.states.len()) + 2 - this.states@.len(), state_id_stack@.len(),
        {
            let ghost stack_before = state_id_stack@;
            let ghost count_before = this.states@.len();
            let state_id = state_id_stack.pop().unwrap();
            let ghost popped = state_id_stack@;
            assert(stack_before[stack_before.len() - 1] == state_id);
            proof {
                assert forall|y: StateId| stack_before.contains(y) implies popped.contains(y)
                    || y == state_id by {
                    let k = choose|k: int| 0 <= k < stack_before.len() && stack_before[k] == y;
                    if k < popped.len() {
                        assert(popped[k] == y);
                    }
                }
            }
            proof {
                assert forall|i: StateId, b: u8| 1 <= i < this.states@.len() implies popped.contains(
                    i,
                ) || i == state_id || #[trigger] this.model().done(i as int, b) by {
                    if !this.model().done(i as int, b) {
                        assert(stack_before.contains(i));
                    }
                }
            }
            let mut byte: usize = 0;
            while byte < 256
                invariant
                    byte <= 256,
                    this.inv(),
                    this.nfa@ == nfa,
                    nfa == self.nfa(),
                    1 <= state_id < this.states@.len(),
                    count_before <= this.states@.len(),
                    this.states@.len() > count_before || state_id_stack@ == popped,
                    forall|k: int|
                        0 <= k < state_id_stack@.len() ==> 1 <= (#[trigger] state_id_stack@[k])
                            < this.states@.len(),
                    forall|i: StateId, b: u8|
                        1 <= i < this.states@.len() ==> state_id_stack@.contains(i) || (i
                            == state_id && b >= byte) || #[trigger] this.model().done(i as int, b),
                decreases 256 - byte,
            {
                let ghost before = this.model();
                let ghost stack_then = state_id_stack@;
                match this.get_or_create_next_state(state_id, byte as u8) {
                    Err(error) => {
                        return Err(error);
                    },
                    Ok((next_state_id, is_new)) => {
                        let ghost created = this.model();
                        proof {
                            created.lemma_filled(before, state_id, byte as u8, next_state_id);
                        }
                        this.dfa.add_transition(state_id, byte as u8, next_state_id);
                        if is_new {
                            state_id_stack.push(next_state_id);
                        }
                        proof {
                            assert(this.model() == created.filled(
                                state_id,
                                byte as u8,
                                next_state_id,
                            ));
                            assert forall|y: StateId| stack_then.contains(y) implies state_id_stack@.contains(
                                y,
                            ) by {
                                let k = choose|k: int|
                                    0 <= k < stack_then.len() && stack_then[k] == y;
                                assert(state_id_stack@[k] == y);
                            }
                            if is_new {
                                assert(state_id_stack@[stack_then.len() as int] == next_state_id);
                            }
                        }
                    },
                }
                byte += 1;
            }
            proof {
                this.model().lemma_state_bound();
            }
        }
        proof {
            assert(this.model().complete()) by {
                assert(this.states.len() == this.states@.len());
                assert forall|i: int, byte: u8| 1 <= i < this.model().keys.len() implies #[trigger] this.model().done(
                    i,
                    byte,
                ) by {
                    let state_id = i as usize;
                    assert(!state_id_stack@.contains(state_id));
                    assert(this.model().done(state_id as int, byte));
                }
            }
            this.model().lemma_complete();
            assert forall|s: int| 1 <= s < this.dfa@.state_count() implies #[trigger] this.dfa@.reachable(
                s,
            ) by {
                this.model().lemma_reached(s);
            }
            assert forall|first: Seq<u8>, second: Seq<u8>|
                #![trigger nfa.reach(first), nfa.reach(second)]
                first.len() > 0 && second.len() > 0 && nfa.reach(first) == nfa.reach(
                    second,
                ) implies this.dfa@.run(this.dfa@.start(), first) == this.dfa@.run(
                this.dfa@.start(),
                second,
            ) by {
                this.model().lemma_interned(first, second);
            }
        }
        Ok(this.dfa)
    }

    /// Adds state 1, which stands for the states in which the automaton begins.
    fn create_start_state(&mut self) -> (start_state_id: StateId)
        requires
            old(self).ready(),
        ensures
            start_state_id == 1,
            final(self).inv(),
            final(self).nfa == old(self).nfa,
            final(self).states@.len() == 2,
    {
        self.states.push(State { nfa_state_ids: Vec::new(), matched_token: None });
        let start_state_id = self.dfa.add_state(None);
        Self::start_nfa_state_id_set(
            self.nfa,
            &mut self.nfa_state_id_set,
            &mut self.nfa_state_id_stack,
        );
        let _ = Self::collect(
            self.nfa,
            &self.nfa_state_id_set,
            &mut self.nfa_state_ids,
            &mut self.matched_tokens,
        );
        let mut nfa_state_ids: Vec<nfa::StateId> = Vec::new();
        std::mem::swap(&mut nfa_state_ids, &mut self.nfa_state_ids);
        let ghost key = nfa_state_ids@;
        self.states.push(State { nfa_state_ids, matched_token: None });
        proof {
            self.words@ = seq![Seq::empty(), Seq::empty()];
        }
        proof {
            let m = self.model();
            assert(m.keys =~= seq![Seq::empty(), key]);
            assert(m.dfa.tokens =~= seq![None, None]);
            assert(m.dfa.table[0] == 0);
            assert(m.words[1] =~= Seq::empty());
            assert(m.nfa.reach(m.words[1]) == m.set_of(1));
        }
        start_state_id
    }

    /// Fills `nfa_state_id_set` with the states in which `nfa` begins.
    fn start_nfa_state_id_set(
        nfa: &Nfa,
        nfa_state_id_set: &mut SparseSet,
        nfa_state_id_stack: &mut Vec<nfa::StateId>,
    )
        requires
            nfa@.wf(),
            old(nfa_state_id_set).wf(),
            old(nfa_state_id_set).capacity() == nfa@.states.len(),
        ensures
            final(nfa_state_id_set).wf(),
            final(nfa_state_id_set).capacity() == nfa@.states.len(),
            final(nfa_state_id_set)@.to_set() == nfa@.closure(nfa@.starts()),
    {
        nfa_state_id_set.clear();
        let fragments = nfa.fragments();
        let mut i: usize = 0;
        while i < fragments.len()
            invariant
                nfa@.wf(),
                fragments@ == nfa@.fragments,
                i <= fragments@.len(),
                nfa_state_id_set.wf(),
                nfa_state_id_set.capacity() == nfa@.states.len(),
                nfa@.closed(nfa_state_id_set@.to_set()),
                forall|q: nfa::StateId|
                    nfa_state_id_set@.contains(q) ==> nfa@.closure(nfa@.starts()).contains(q),
                forall|k: int|
                    0 <= k < i ==> nfa_state_id_set@.contains(
                        (#[trigger] fragments@[k]).start_state_id,
                    ),
            decreases fragments@.len() - i,
        {
            let fragment = fragments[i];
            let ghost before = nfa_state_id_set@;
            nfa.empty_closure(fragment.start_state_id, nfa_state_id_set, nfa_state_id_stack);
            proof {
                let seed = fragment.start_state_id;
                nfa@.lemma_closure_grows(before.to_set(), seed, nfa_state_id_set@.to_set());
                nfa@.lemma_reach_refl(seed);
                assert(nfa@.starts().contains(seed));
                assert forall|k: int| 0 <= k < i + 1 implies nfa_state_id_set@.contains(
                    (#[trigger] fragments@[k]).start_state_id,
                ) by {
                    if k < i {
                        assert(before.contains(fragments@[k].start_state_id));
                    }
                }
            }
            i += 1;
        }
        proof {
            let found = nfa_state_id_set@.to_set();
            let all = nfa@.closure(nfa@.starts());
            assert forall|q: nfa::StateId| all.contains(q) implies found.contains(q) by {
                let p = choose|p: nfa::StateId| nfa@.starts().contains(p) && nfa@.empty_reach(p, q);
                let path = choose|path: Seq<nfa::StateId>|
                    #[trigger] nfa@.empty_path(path) && path[0] == p && path.last() == q;
                nfa@.lemma_closed_path(found, path, path.len() - 1);
            }
            assert(found =~= all);
        }
    }

    /// Fills `nfa_state_id_set` with the states that those of `nfa_state_ids`
    /// reach on `byte`.
    fn next_nfa_state_id_set(
        nfa: &Nfa,
        nfa_state_ids: &Vec<nfa::StateId>,
        byte: u8,
        nfa_state_id_set: &mut SparseSet,
        nfa_state_id_stack: &mut Vec<nfa::StateId>,
    )
        requires
            nfa@.wf(),
            below(nfa_state_ids@, nfa@.states.len()),
            old(nfa_state_id_set).wf(),
            old(nfa_state_id_set).capacity() == nfa@.states.len(),
        ensures
            final(nfa_state_id_set).wf(),
            final(nfa_state_id_set).capacity() == nfa@.states.len(),
            final(nfa_state_id_set)@.to_set() == nfa@.closure(
                nfa@.step(nfa_state_ids@.to_set(), byte),
            ),
    {
        let ghost from = nfa_state_ids@.to_set();
        let ghost all = nfa@.closure(nfa@.step(from, byte));
        nfa_state_id_set.clear();
        let mut i: usize = 0;
        while i < nfa_state_ids.len()
            invariant
                nfa@.wf(),
                below(nfa_state_ids@, nfa@.states.len()),
                from == nfa_state_ids@.to_set(),
                all == nfa@.closure(nfa@.step(from, byte)),
                i <= nfa_state_ids@.len(),
                nfa_state_id_set.wf(),
                nfa_state_id_set.capacity() == nfa@.states.len(),
                nfa@.closed(nfa_state_id_set@.to_set()),
                forall|q: nfa::StateId| nfa_state_id_set@.contains(q) ==> all.contains(q),
                forall|k: int, t: int|
                    0 <= k < i && 0 <= t < nfa@.states[nfa_state_ids@[k] as int].transitions.len()
                        && (#[trigger] nfa@.states[nfa_state_ids@[k] as int].transitions[t]).consumes(
                        byte,
                    ) ==> nfa_state_id_set@.contains(
                        nfa@.states[nfa_state_ids@[k] as int].transitions[t].next_state_id,
                    ),
            decreases nfa_state_ids@.len() - i,
        {
            let nfa_state_id = nfa_state_ids[i];
            assert(nfa_state_ids@[i as int] < nfa@.states.len());
            assert(from.contains(nfa_state_id));
            let state = nfa.state(nfa_state_id);
            let ghost edges = nfa@.states[nfa_state_id as int].transitions;
            let mut t: usize = 0;
            while t < state.transitions.len()
                invariant
                    nfa@.wf(),
                    nfa_state_id < nfa@.states.len(),
                    from.contains(nfa_state_id),
                    all == nfa@.closure(nfa@.step(from, byte)),
                    state@ == nfa@.states[nfa_state_id as int],
                    edges == state.transitions@,
                    t <= edges.len(),
                    nfa_state_id_set.wf(),
                    nfa_state_id_set.capacity() == nfa@.states.len(),
                    nfa@.closed(nfa_state_id_set@.to_set()),
                    forall|q: nfa::StateId| nfa_state_id_set@.contains(q) ==> all.contains(q),
                    forall|k: int, t: int|
                        0 <= k < i && 0 <= t
                            < nfa@.states[nfa_state_ids@[k] as int].transitions.len() && (
                        #[trigger] nfa@.states[nfa_state_ids@[k] as int].transitions[t]).consumes(
                            byte,
                        ) ==> nfa_state_id_set@.contains(
                            nfa@.states[nfa_state_ids@[k] as int].transitions[t].next_state_id,
                        ),
                    forall|u: int|
                        0 <= u < t && (#[trigger] edges[u]).consumes(byte)
                            ==> nfa_state_id_set@.contains(edges[u].next_state_id),
                decreases edges.len() - t,
            {
                let transition = state.transitions[t];
                let consumes = match transition.byte_range {
                    Some(byte_range) => byte_range.contains(byte),
                    None => false,
                };
                if consumes {
                    let ghost before = nfa_state_id_set@;
                    let ghost seed = transition.next_state_id;
                    assert(edges[t as int] == transition);
                    assert(nfa@.states[nfa_state_id as int].transitions[t as int].next_state_id
                        < nfa@.states.len());
                    nfa.empty_closure(
                        transition.next_state_id,
                        nfa_state_id_set,
                        nfa_state_id_stack,
                    );
                    proof {
                        nfa@.lemma_closure_grows(
                            before.to_set(),
                            seed,
                            nfa_state_id_set@.to_set(),
                        );
                        nfa@.lemma_reach_refl(seed);
                        assert(nfa@.byte_edge(nfa_state_id, byte, seed));
                        assert(nfa@.step(from, byte).contains(seed));
                    }
                }
                t += 1;
            }
            proof {
                assert forall|k: int, t: int|
                    0 <= k < i + 1 && 0 <= t
                        < nfa@.states[nfa_state_ids@[k] as int].transitions.len() && (
                    #[trigger] nfa@.states[nfa_state_ids@[k] as int].transitions[t]).consumes(
                        byte,
                    ) implies nfa_state_id_set@.contains(
                    nfa@.states[nfa_state_ids@[k] as int].transitions[t].next_state_id,
                ) by {
                    if k == i {
                        assert(edges[t].consumes(byte));
                    }
                }
            }
            i += 1;
        }
        proof {
            let found = nfa_state_id_set@.to_set();
            assert forall|q: nfa::StateId| all.contains(q) implies found.contains(q) by {
                let seed = choose|p: nfa::StateId|
                    nfa@.step(from, byte).contains(p) && nfa@.empty_reach(p, q);
                let p = choose|p: nfa::StateId| from.contains(p) && nfa@.byte_edge(p, byte, seed);
                let k = choose|k: int| 0 <= k < nfa_state_ids@.len() && nfa_state_ids@[k] == p;
                let t = choose|t: int|
                    0 <= t < nfa@.states[p as int].transitions.len() && (
                    #[trigger] nfa@.states[p as int].transitions[t]).consumes(byte)
                        && nfa@.states[p as int].transitions[t].next_state_id == seed;
                assert(nfa@.states[nfa_state_ids@[k] as int].transitions[t].consumes(byte));
                assert(found.contains(seed));
                let path = choose|path: Seq<nfa::StateId>|
                    #[trigger] nfa@.empty_path(path) && path[0] == seed && path.last() == q;
                nfa@.lemma_closed_path(found, path, path.len() - 1);
            }
            assert(found =~= all);
        }
    }

    /// Lists the members of `nfa_state_id_set` in increasing order, and the
    /// tokens of those that report one, in the same order.
    fn collect(
        nfa: &Nfa,
        nfa_state_id_set: &SparseSet,
        nfa_state_ids: &mut Vec<nfa::StateId>,
        matched_tokens: &mut Vec<usize>,
    ) -> (reporting: Ghost<Seq<nfa::StateId>>)
        requires
            nfa@.wf(),
            nfa_state_id_set.wf(),
            nfa_state_id_set.capacity() == nfa@.states.len(),
        ensures
            increasing(final(nfa_state_ids)@),
            below(final(nfa_state_ids)@, nfa@.states.len()),
            final(nfa_state_ids)@.to_set() == nfa_state_id_set@.to_set(),
            increasing(reporting@),
            reporting@.len() == final(matched_tokens)@.len(),
            forall|k: int|
                0 <= k < reporting@.len() ==> nfa_state_id_set@.contains(
                    #[trigger] reporting@[k],
                ) && nfa@.reports(reporting@[k], final(matched_tokens)@[k]),
            forall|q: nfa::StateId|
                nfa_state_id_set@.contains(q) && accepting(nfa@, q) ==> reporting@.contains(q),
    {
        nfa_state_ids.clear();
        matched_tokens.clear();
        let ghost mut reporting: Seq<nfa::StateId> = Seq::empty();
        let count: usize = nfa.state_count();
        let mut q: usize = 0;
        while q < count
            invariant
                nfa@.wf(),
                count == nfa@.states.len(),
                q <= count,
                nfa_state_id_set.wf(),
                nfa_state_id_set.capacity() == count,
                increasing(nfa_state_ids@),
                below(nfa_state_ids@, q as nat),
                forall|p: nfa::StateId|
                    nfa_state_ids@.contains(p) <==> p < q && nfa_state_id_set@.contains(p),
                increasing(reporting),
                below(reporting, q as nat),
                reporting.len() == matched_tokens@.len(),
                forall|k: int|
                    0 <= k < reporting.len() ==> nfa_state_id_set@.contains(
                        #[trigger] reporting[k],
                    ) && nfa@.reports(reporting[k], matched_tokens@[k]),
                forall|p: nfa::StateId|
                    p < q && nfa_state_id_set@.contains(p) && accepting(nfa@, p)
                        ==> reporting.contains(p),
            decreases count - q,
        {
            broadcast use vstd::seq_lib::lemma_seq_contains_after_push;

            if nfa_state_id_set.contains(q) {
                nfa_state_ids.push(q);
                if let Some(token) = nfa.state(q).matched_token {
                    matched_tokens.push(token);
                    proof {
                        reporting = reporting.push(q);
                    }
                }
            }
            q += 1;
        }
        proof {
            assert forall|p: nfa::StateId| nfa_state_id_set@.contains(p) implies p < count by {
                let k = choose|k: int|
                    0 <= k < nfa_state_id_set@.len() && nfa_state_id_set@[k] == p;
                assert(nfa_state_id_set@[k] < nfa_state_id_set.capacity());
            }
            assert(nfa_state_ids@.to_set() =~= nfa_state_id_set@.to_set());
        }
        Ghost(reporting)
    }

    /// The first state with the given set and token, if there is one.
    fn find_state(
        states: &Vec<State>,
        nfa_state_ids: &Vec<nfa::StateId>,
        matched_token: Option<usize>,
    ) -> (found: Option<StateId>)
        ensures
            match found {
                Some(state_id) => state_id < states@.len()
                    && states@[state_id as int].nfa_state_ids@ == nfa_state_ids@
                    && states@[state_id as int].matched_token == matched_token && forall|i: int|
                    0 <= i < state_id ==> !((#[trigger] states@[i]).nfa_state_ids@
                        == nfa_state_ids@ && states@[i].matched_token == matched_token),
                None => forall|i: int|
                    0 <= i < states@.len() ==> !((#[trigger] states@[i]).nfa_state_ids@
                        == nfa_state_ids@ && states@[i].matched_token == matched_token),
            },
    {
        let mut i: usize = 0;
        while i < states.len()
            invariant
                i <= states@.len(),
                forall|k: int|
                    0 <= k < i ==> !((#[trigger] states@[k]).nfa_state_ids@ == nfa_state_ids@
                        && states@[k].matched_token == matched_token),
            decreases states@.len() - i,
        {
            if same_token(states[i].matched_token, matched_token) && same_ids(
                &states[i].nfa_state_ids,
                nfa_state_ids,
            ) {
                return Some(i);
            }
            i += 1;
        }
        None
    }

    /// The state that stands for what `state_id` reaches on `byte`, and
    /// whether it had to be added.
    fn get_or_create_next_state(&mut self, state_id: StateId, byte: u8) -> (result: Result<
        (StateId, bool),
        BuildError,
    >)
        requires
            old(self).inv(),
            1 <= state_id < old(self).states@.len(),
        ensures
            final(self).nfa == old(self).nfa,
            match result {
                Ok((next, is_new)) => {
                    &&& final(self).inv()
                    &&& final(self).model().extends(old(self).model())
                    &&& next < final(self).states@.len()
                    &&& final(self).model().set_of(next as int) == old(self).nfa@.closure(
                        old(self).nfa@.step(old(self).model().set_of(state_id as int), byte),
                    )
                    &&& reports_for(
                        old(self).nfa@,
                        final(self).model().set_of(next as int),
                        final(self).dfa@.tokens[next as int],
                    )
                    &&& final(self).model().first(next as int)
                    &&& is_new ==> next == old(self).states@.len() && final(self).states@.len()
                        == old(self).states@.len() + 1
                    &&& !is_new ==> final(self).states@.len() == old(self).states@.len()
                },
                Err(error) => witnessed(old(self).nfa@, error),
            },
    {
        let ghost word = self.words@[state_id as int].push(byte);
        proof {
            let m = self.model();
            assert(m.keys[state_id as int] == self.states@[state_id as int].nfa_state_ids@);
            assert(increasing(m.keys[state_id as int]));
            assert(m.nfa.reach(m.words[state_id as int]) == m.set_of(state_id as int));
            assert(word.drop_last() =~= self.words@[state_id as int]);
        }
        Self::next_nfa_state_id_set(
            self.nfa,
            &self.states[state_id].nfa_state_ids,
            byte,
            &mut self.nfa_state_id_set,
            &mut self.nfa_state_id_stack,
        );
        self.get_or_create_state(Ghost(word))
    }

    /// The state that stands for the set in `nfa_state_id_set`, and whether
    /// it had to be added.
    fn get_or_create_state(&mut self, Ghost(word): Ghost<Seq<u8>>) -> (result: Result<
        (StateId, bool),
        BuildError,
    >)
        requires
            old(self).model().wf(),
            forall|i: int|
                0 <= i < old(self).states@.len() ==> (#[trigger] old(self).states@[i]).matched_token
                    == old(self).dfa@.tokens[i],
            old(self).nfa_state_id_set.wf(),
            old(self).nfa_state_id_set.capacity() == old(self).nfa@.states.len(),
            word.len() > 0,
            old(self).nfa_state_id_set@.to_set() == old(self).nfa@.reach(word),
        ensures
            final(self).nfa == old(self).nfa,
            match result {
                Ok((next, is_new)) => {
                    &&& final(self).inv()
                    &&& final(self).model().extends(old(self).model())
                    &&& next < final(self).states@.len()
                    &&& final(self).model().set_of(next as int) == old(self).nfa@.reach(word)
                    &&& reports_for(
                        old(self).nfa@,
                        final(self).model().set_of(next as int),
                        final(self).dfa@.tokens[next as int],
                    )
                    &&& final(self).model().first(next as int)
                    &&& is_new ==> next == old(self).states@.len() && final(self).states@.len()
                        == old(self).states@.len() + 1
                    &&& !is_new ==> final(self).states@.len() == old(self).states@.len()
                },
                Err(error) => witnessed(old(self).nfa@, error),
            },
    {
        let ghost nfa = self.nfa@;
        let ghost set = self.nfa_state_id_set@.to_set();
        let Ghost(reporting) = Self::collect(
            self.nfa,
            &self.nfa_state_id_set,
            &mut self.nfa_state_ids,
            &mut self.matched_tokens,
        );
        if self.matched_tokens.len() > 1 {
            let a: usize = self.matched_tokens[0];
            let b: usize = self.matched_tokens[1];
            proof {
                assert(set.contains(reporting[0]) && set.contains(reporting[1]));
                assert(reporting[0] < reporting[1]);
                assert(nfa.reports(reporting[0], a) && nfa.reports(reporting[1], b));
                assert(ambiguous(nfa, word, a, b));
                assert(exists|input: Seq<u8>| #[trigger] ambiguous(nfa, input, a, b));
                let error = BuildError::Ambiguous { a, b };
                assert(error->a == a && error->b == b);
                assert(witnessed(nfa, error));
            }
            return Err(BuildError::Ambiguous { a, b });
        }
        let matched_token = if self.matched_tokens.len() == 1 {
            Some(self.matched_tokens[0])
        } else {
            None
        };
        proof {
            if matched_token is Some {
                assert(set.contains(reporting[0]));
                assert forall|p: nfa::StateId, q: nfa::StateId|
                    set.contains(p) && set.contains(q) && accepting(nfa, p) && accepting(
                        nfa,
                        q,
                    ) implies p == q by {
                    assert(reporting.contains(p) && reporting.contains(q));
                }
            } else {
                assert forall|q: nfa::StateId| set.contains(q) implies !accepting(nfa, q) by {
                    if accepting(nfa, q) {
                        assert(reporting.contains(q));
                    }
                }
            }
            assert(reports_for(nfa, set, matched_token));
        }
        match Self::find_state(&self.states, &self.nfa_state_ids, matched_token) {
            Some(state_id) => {
                proof {
                    let m = self.model();
                    assert(m.keys[state_id as int] == self.nfa_state_ids@);
                    assert forall|k: int| 0 <= k < state_id implies #[trigger] m.keys[k]
                        != m.keys[state_id as int] || m.dfa.tokens[k]
                        != m.dfa.tokens[state_id as int] by {
                        assert(self.states@[k].nfa_state_ids@ == m.keys[k]);
                        assert(self.states@[k].matched_token == m.dfa.tokens[k]);
                    }
                }
                Ok((state_id, false))
            },
            None => {
                let ghost before = self.model();
                let mut nfa_state_ids: Vec<nfa::StateId> = Vec::new();
                std::mem::swap(&mut nfa_state_ids, &mut self.nfa_state_ids);
                let ghost key = nfa_state_ids@;
                let state_id = self.dfa.add_state(matched_token);
                self.states.push(State { nfa_state_ids, matched_token });
                proof {
                    self.words@ = self.words@.push(word);
                }
                proof {
                    let m = self.model();
                    assert(m.keys =~= before.keys.push(key));
                    assert(state_id >= 2);
                    assert forall|i: int| 0 <= i < before.keys.len() implies before.keys[i] != key
                        || before.dfa.tokens[i] != matched_token by {
                        assert(old(self).states@[i].matched_token == before.dfa.tokens[i]);
                        assert(old(self).states@[i].nfa_state_ids@ == before.keys[i]);
                    }
                    assert forall|i: int, j: int|
                        0 <= i < j < m.keys.len() && 2 <= j implies #[trigger] m.keys[i]
                        != #[trigger] m.keys[j] || m.dfa.tokens[i] != m.dfa.tokens[j] by {
                        assert(m.keys[i] == before.keys[i]);
                        assert(m.dfa.tokens[i] == before.dfa.tokens[i]);
                        if j < before.keys.len() {
                            assert(m.keys[j] == before.keys[j]);
                            assert(m.dfa.tokens[j] == before.dfa.tokens[j]);
                            assert(before.keys[i] != before.keys[j] || before.dfa.tokens[i]
                                != before.dfa.tokens[j]);
                        }
                    }
                    assert forall|i: int| 1 <= i < m.keys.len() implies m.nfa.reach(
                        #[trigger] m.words[i],
                    ) == m.set_of(i) by {
                        if i < before.keys.len() {
                            assert(m.words[i] == before.words[i]);
                            assert(m.keys[i] == before.keys[i]);
                        }
                    }
                    assert forall|i: int| 2 <= i < m.keys.len() implies (#[trigger] m.words[i]).len()
                        > 0 && reports_for(m.nfa, m.set_of(i), m.dfa.tokens[i]) by {
                        if i < before.keys.len() {
                            assert(m.words[i] == before.words[i]);
                            assert(m.keys[i] == before.keys[i]);
                            assert(m.dfa.tokens[i] == before.dfa.tokens[i]);
                        }
                    }
                    assert forall|i: int| 0 <= i < m.keys.len() implies increasing(
                        #[trigger] m.keys[i],
                    ) && below(m.keys[i], m.nfa.states.len()) by {
                        if i < before.keys.len() {
                            assert(m.keys[i] == before.keys[i]);
                        }
                    }
                    assert(m.wf());
                }
                Ok((state_id, true))
            },
        }
    }
}

} // verus!
