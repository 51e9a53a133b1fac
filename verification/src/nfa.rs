//! Nondeterministic automata over bytes, and the combinators that build them.

use crate::sparse_set::SparseSet;
use vstd::prelude::*;
use vstd::utf8::encode_scalar;

verus! {

pub type StateId = usize;

/// An inclusive range of bytes.
#[derive(Clone, Copy, Debug, PartialEq, Eq, Hash)]
pub struct ByteRange {
    pub start: u8,
    pub end: u8,
}

impl ByteRange {
    pub open spec fn spec_contains(&self, byte: u8) -> bool {
        self.start <= byte && byte <= self.end
    }

    #[verifier::when_used_as_spec(spec_contains)]
    pub fn contains(&self, byte: u8) -> (b: bool)
        ensures
            b == self.spec_contains(byte),
    {
        self.start <= byte && byte <= self.end
    }
}

/// An edge to `next_state_id`, taken on a byte of `byte_range`, or without
/// consuming input where there is no range.
#[derive(Clone, Copy, Debug, PartialEq, Eq, Hash)]
pub struct Transition {
    pub byte_range: Option<ByteRange>,
    pub next_state_id: StateId,
}

impl Transition {
    pub open spec fn spec_is_empty(&self) -> bool {
        self.byte_range is None
    }

    /// Whether the edge consumes no input.
    #[verifier::when_used_as_spec(spec_is_empty)]
    pub fn is_empty(&self) -> (b: bool)
        ensures
            b == self.spec_is_empty(),
    {
        self.byte_range.is_none()
    }

    /// Whether the edge can be taken on `byte`.
    pub open spec fn consumes(self, byte: u8) -> bool {
        self.byte_range is Some && self.byte_range->0.spec_contains(byte)
    }
}

#[derive(Debug)]
pub struct State {
    pub matched_token: Option<usize>,
    pub transitions: Vec<Transition>,
}

pub struct StateView {
    pub matched_token: Option<usize>,
    pub transitions: Seq<Transition>,
}

impl View for State {
    type V = StateView;

    open spec fn view(&self) -> StateView {
        StateView { matched_token: self.matched_token, transitions: self.transitions@ }
    }
}

/// The entry and exit states of the automaton of one subexpression.
#[derive(Clone, Copy, Debug)]
pub struct Fragment {
    pub start_state_id: StateId,
    pub end_state_id: StateId,
}

/// The state of a search for the states that `seed` reaches without
/// consuming input and without passing through a state of `avoid`.
pub struct Search {
    pub seed: StateId,
    pub avoid: Set<StateId>,
    /// The states found so far, after those that were there before.
    pub found: Seq<StateId>,
    /// The states still to be looked at.
    pub stack: Seq<StateId>,
}

/// The mathematical content of an [`Nfa`].
pub struct NfaView {
    pub states: Seq<StateView>,
    pub fragments: Seq<Fragment>,
}

impl NfaView {
    pub open spec fn empty() -> NfaView {
        NfaView { states: Seq::empty(), fragments: Seq::empty() }
    }

    /// Every id that occurs refers to a state, and every token leaves room
    /// for a count of tokens.
    pub open spec fn wf(self) -> bool {
        &&& forall|p: int, i: int|
            0 <= p < self.states.len() && 0 <= i < self.states[p].transitions.len()
                ==> (#[trigger] self.states[p].transitions[i]).next_state_id < self.states.len()
        &&& forall|i: int|
            0 <= i < self.fragments.len() ==> (#[trigger] self.fragments[i]).start_state_id
                < self.states.len() && self.fragments[i].end_state_id < self.states.len()
        &&& forall|p: int|
            0 <= p < self.states.len() && (#[trigger] self.states[p]).matched_token is Some
                ==> self.states[p].matched_token->0 < usize::MAX
    }

    /// Whether this automaton has every state of `base`, unchanged and under
    /// the same id, and the same patterns.
    pub open spec fn extends(self, base: NfaView) -> bool {
        &&& self.fragments == base.fragments
        &&& base.states.len() <= self.states.len()
        &&& forall|p: int| 0 <= p < base.states.len() ==> self.states[p] == base.states[p]
    }

    /// Whether an edge that consumes no input leads from `p` to `q`.
    pub open spec fn empty_edge(self, p: StateId, q: StateId) -> bool {
        p < self.states.len() && exists|i: int|
            0 <= i < self.states[p as int].transitions.len() && (
            #[trigger] self.states[p as int].transitions[i]) == (Transition {
                byte_range: None,
                next_state_id: q,
            })
    }

    /// Whether an edge that consumes `byte` leads from `p` to `q`.
    pub open spec fn byte_edge(self, p: StateId, byte: u8, q: StateId) -> bool {
        p < self.states.len() && exists|i: int|
            0 <= i < self.states[p as int].transitions.len() && (
            #[trigger] self.states[p as int].transitions[i]).consumes(byte)
                && self.states[p as int].transitions[i].next_state_id == q
    }

    /// Whether each state of `path` leads to the next without consuming input.
    pub open spec fn empty_path(self, path: Seq<StateId>) -> bool {
        path.len() >= 1 && forall|i: int|
            0 <= i < path.len() - 1 ==> self.empty_edge(#[trigger] path[i], path[i + 1])
    }

    /// Whether `q` is reached from `p` without consuming input.
    pub open spec fn empty_reach(self, p: StateId, q: StateId) -> bool {
        exists|path: Seq<StateId>|
            #[trigger] self.empty_path(path) && path[0] == p && path.last() == q
    }

    /// Whether `q` is reached from `p` without consuming input and without
    /// passing through a state of `avoid`, `p` and `q` included.
    pub open spec fn empty_reach_outside(self, p: StateId, q: StateId, avoid: Set<StateId>) -> bool {
        exists|path: Seq<StateId>|
            #[trigger] self.empty_path(path) && path[0] == p && path.last() == q && forall|
                i: int,
            |
                0 <= i < path.len() ==> !avoid.contains(#[trigger] path[i])
    }

    /// The states reached from a state of `seeds` without consuming input.
    pub open spec fn closure(self, seeds: Set<StateId>) -> Set<StateId> {
        Set::new(|q: StateId| exists|p: StateId| seeds.contains(p) && self.empty_reach(p, q))
    }

    /// The states to which an edge that consumes `byte` leads from a state of `from`.
    pub open spec fn step(self, from: Set<StateId>, byte: u8) -> Set<StateId> {
        Set::new(|q: StateId| exists|p: StateId| from.contains(p) && self.byte_edge(p, byte, q))
    }

    /// The entry states of the patterns.
    pub open spec fn starts(self) -> Set<StateId> {
        Set::new(
            |p: StateId|
                exists|i: int|
                    0 <= i < self.fragments.len() && (
                    #[trigger] self.fragments[i]).start_state_id == p,
        )
    }

    /// The states in which the automaton can be after `input`.
    pub open spec fn reach(self, input: Seq<u8>) -> Set<StateId>
        decreases input.len(),
    {
        if input.len() == 0 {
            self.closure(self.starts())
        } else {
            self.closure(self.step(self.reach(input.drop_last()), input.last()))
        }
    }

    /// Whether state `q` reports `token`.
    pub open spec fn reports(self, q: StateId, token: usize) -> bool {
        q < self.states.len() && self.states[q as int].matched_token == Some(token)
    }

    /// Whether the automaton can report `token` after `input`.
    pub open spec fn accepts(self, input: Seq<u8>, token: usize) -> bool {
        exists|q: StateId| self.reach(input).contains(q) && self.reports(q, token)
    }

    /// Whether no edge that consumes no input leads out of `set`.
    pub open spec fn closed(self, set: Set<StateId>) -> bool {
        forall|p: StateId, q: StateId|
            set.contains(p) && #[trigger] self.empty_edge(p, q) ==> set.contains(q)
    }

    /// What holds while the states that `seed` reaches outside `avoid` are
    /// searched: what was found or is on the stack is reached, unless it is
    /// in `avoid`; and every edge out of a state that was found leads to a
    /// state that was found or is on the stack.
    pub open spec fn search(self, s: Search) -> bool {
        &&& forall|k: int|
            0 <= k < s.stack.len() ==> (#[trigger] s.stack[k]) < self.states.len()
        &&& forall|k: int|
            0 <= k < s.stack.len() ==> s.avoid.contains(#[trigger] s.stack[k])
                || self.empty_reach_outside(s.seed, s.stack[k], s.avoid)
        &&& forall|q: StateId|
            s.found.contains(q) ==> s.avoid.contains(q) || self.empty_reach_outside(
                s.seed,
                q,
                s.avoid,
            )
        &&& s.found.contains(s.seed) || s.stack.contains(s.seed)
        &&& forall|x: StateId, y: StateId|
            s.found.contains(x) && !s.avoid.contains(x) && #[trigger] self.empty_edge(x, y)
                ==> s.found.contains(y) || s.stack.contains(y)
    }

    /// The search goes on when the state on top of the stack was found before.
    pub proof fn lemma_search_skip(self, s: Search)
        requires
            self.search(s),
            s.stack.len() > 0,
            s.found.contains(s.stack.last()),
        ensures
            self.search(Search { stack: s.stack.drop_last(), ..s }),
    {
        let popped = s.stack.drop_last();
        assert forall|y: StateId| s.stack.contains(y) implies popped.contains(y) || y
            == s.stack.last() by {
            let k = choose|k: int| 0 <= k < s.stack.len() && s.stack[k] == y;
            if k < s.stack.len() - 1 {
                assert(popped[k] == y);
            }
        }
        assert forall|k: int| 0 <= k < popped.len() implies (#[trigger] popped[k])
            < self.states.len() && (s.avoid.contains(popped[k]) || self.empty_reach_outside(
            s.seed,
            popped[k],
            s.avoid,
        )) by {
            assert(popped[k] == s.stack[k]);
        }
        assert(s.found.contains(s.seed) || popped.contains(s.seed)) by {
            if !s.found.contains(s.seed) {
                assert(s.stack.contains(s.seed));
            }
        }
        assert forall|x: StateId, y: StateId|
            s.found.contains(x) && !s.avoid.contains(x) && #[trigger] self.empty_edge(
                x,
                y,
            ) implies s.found.contains(y) || popped.contains(y) by {
            if !s.found.contains(y) {
                assert(s.stack.contains(y));
            }
        }
    }

    /// The search goes on when the state on top of the stack is new: it is
    /// found, and the states that follow it take its place on the stack.
    pub proof fn lemma_search_visit(self, s: Search, stack: Seq<StateId>)
        requires
            self.search(s),
            s.stack.len() > 0,
            !s.found.contains(s.stack.last()),
            forall|q: StateId| s.avoid.contains(q) ==> s.found.contains(q),
            s.stack.drop_last().is_prefix_of(stack),
            forall|k: int|
                s.stack.len() - 1 <= k < stack.len() ==> (#[trigger] stack[k]) < self.states.len()
                    && self.empty_edge(s.stack.last(), stack[k]),
            forall|y: StateId| self.empty_edge(s.stack.last(), y) ==> stack.contains(y),
        ensures
            self.search(Search { found: s.found.push(s.stack.last()), stack, ..s }),
    {
        broadcast use vstd::seq_lib::lemma_seq_contains_after_push;

        let current = s.stack.last();
        let popped = s.stack.drop_last();
        let found = s.found.push(current);
        assert(s.stack[s.stack.len() - 1] == current);
        assert(self.empty_reach_outside(s.seed, current, s.avoid));
        assert forall|y: StateId| s.stack.contains(y) implies stack.contains(y) || y
            == current by {
            let k = choose|k: int| 0 <= k < s.stack.len() && s.stack[k] == y;
            if k < s.stack.len() - 1 {
                assert(popped[k] == y);
                assert(stack[k] == y);
            }
        }
        let path = choose|path: Seq<StateId>|
            #[trigger] self.empty_path(path) && path[0] == s.seed && path.last() == current
                && forall|i: int| 0 <= i < path.len() ==> !s.avoid.contains(#[trigger] path[i]);
        assert forall|k: int| 0 <= k < stack.len() implies (#[trigger] stack[k])
            < self.states.len() && (s.avoid.contains(stack[k]) || self.empty_reach_outside(
            s.seed,
            stack[k],
            s.avoid,
        )) by {
            if k < popped.len() {
                assert(stack[k] == popped[k]);
                assert(popped[k] == s.stack[k]);
            } else if !s.avoid.contains(stack[k]) {
                self.lemma_path_push(path, stack[k]);
                assert(self.empty_path(path.push(stack[k])));
            }
        }
        assert forall|x: StateId, y: StateId|
            found.contains(x) && !s.avoid.contains(x) && #[trigger] self.empty_edge(
                x,
                y,
            ) implies found.contains(y) || stack.contains(y) by {
            if x != current {
                assert(s.found.contains(x));
                if !s.found.contains(y) {
                    assert(s.stack.contains(y));
                    assert(stack.contains(y) || y == current);
                    assert(found.contains(current));
                }
            }
        }
        assert(found.contains(s.seed) || stack.contains(s.seed)) by {
            if !s.found.contains(s.seed) {
                assert(s.stack.contains(s.seed));
                assert(stack.contains(s.seed) || s.seed == current);
                assert(found.contains(current));
            }
        }
        assert forall|q: StateId| found.contains(q) implies s.avoid.contains(q)
            || self.empty_reach_outside(s.seed, q, s.avoid) by {
            if q != current {
                assert(s.found.contains(q));
            }
        }
    }

    /// When the stack is empty, everything that the seed reaches outside
    /// `avoid` was found.
    pub proof fn lemma_search_done(self, s: Search)
        requires
            self.search(s),
            s.stack.len() == 0,
        ensures
            forall|q: StateId|
                self.empty_reach_outside(s.seed, q, s.avoid) ==> s.found.contains(q),
    {
        assert forall|q: StateId| self.empty_reach_outside(s.seed, q, s.avoid) implies s.found.contains(
            q,
        ) by {
            let path = choose|path: Seq<StateId>|
                #[trigger] self.empty_path(path) && path[0] == s.seed && path.last() == q
                    && forall|i: int| 0 <= i < path.len() ==> !s.avoid.contains(#[trigger] path[i]);
            assert forall|x: StateId, y: StateId|
                s.found.contains(x) && !s.avoid.contains(x) && #[trigger] self.empty_edge(
                    x,
                    y,
                ) implies s.found.contains(y) by {
                if !s.found.contains(y) {
                    assert(s.stack.contains(y));
                }
            }
            self.lemma_explored(s.found, s.avoid, path, path.len() - 1);
        }
    }

    /// Where a search has followed every edge out of the states that it
    /// added, it has added every state of a path that begins in one of them
    /// and keeps outside `avoid`.
    pub proof fn lemma_explored(
        self,
        found: Seq<StateId>,
        avoid: Set<StateId>,
        path: Seq<StateId>,
        k: int,
    )
        requires
            self.empty_path(path),
            0 <= k < path.len(),
            forall|i: int| 0 <= i < path.len() ==> !avoid.contains(#[trigger] path[i]),
            found.contains(path[0]),
            forall|x: StateId, y: StateId|
                found.contains(x) && !avoid.contains(x) && #[trigger] self.empty_edge(x, y)
                    ==> found.contains(y),
        ensures
            found.contains(path[k]),
        decreases k,
    {
        if k > 0 {
            self.lemma_explored(found, avoid, path, k - 1);
            assert(self.empty_edge(path[k - 1], path[k - 1 + 1]));
        }
    }

    /// A path that begins in a closed set ends in it.
    pub proof fn lemma_closed_path(self, set: Set<StateId>, path: Seq<StateId>, k: int)
        requires
            self.closed(set),
            self.empty_path(path),
            0 <= k < path.len(),
            set.contains(path[0]),
        ensures
            set.contains(path[k]),
        decreases k,
    {
        if k > 0 {
            self.lemma_closed_path(set, path, k - 1);
            assert(self.empty_edge(path[k - 1], path[k - 1 + 1]));
        }
    }

    /// A path can be cut off before any of its states.
    pub proof fn lemma_path_suffix(self, path: Seq<StateId>, k: int)
        requires
            self.empty_path(path),
            0 <= k < path.len(),
        ensures
            self.empty_path(path.skip(k)),
            path.skip(k)[0] == path[k],
            path.skip(k).last() == path.last(),
    {
        let cut = path.skip(k);
        assert forall|i: int| 0 <= i < cut.len() - 1 implies self.empty_edge(
            #[trigger] cut[i],
            cut[i + 1],
        ) by {
            assert(self.empty_edge(path[i + k], path[i + k + 1]));
        }
    }

    /// A path can be continued along an edge.
    pub proof fn lemma_path_push(self, path: Seq<StateId>, q: StateId)
        requires
            self.empty_path(path),
            self.empty_edge(path.last(), q),
        ensures
            self.empty_path(path.push(q)),
            path.push(q)[0] == path[0],
            path.push(q).last() == q,
    {
        let longer = path.push(q);
        assert forall|i: int| 0 <= i < longer.len() - 1 implies self.empty_edge(
            #[trigger] longer[i],
            longer[i + 1],
        ) by {
            if i < path.len() - 1 {
                assert(self.empty_edge(path[i], path[i + 1]));
            }
        }
    }

    /// Reaching is transitive.
    pub proof fn lemma_reach_trans(self, p: StateId, q: StateId, r: StateId)
        requires
            self.empty_reach(p, q),
            self.empty_reach(q, r),
        ensures
            self.empty_reach(p, r),
    {
        let first = choose|path: Seq<StateId>|
            #[trigger] self.empty_path(path) && path[0] == p && path.last() == q;
        let second = choose|path: Seq<StateId>|
            #[trigger] self.empty_path(path) && path[0] == q && path.last() == r;
        let joined = first + second.skip(1);
        assert forall|i: int| 0 <= i < joined.len() - 1 implies self.empty_edge(
            #[trigger] joined[i],
            joined[i + 1],
        ) by {
            if i < first.len() - 1 {
                assert(self.empty_edge(first[i], first[i + 1]));
            } else {
                let j = i - first.len() + 1;
                assert(self.empty_edge(second[j], second[j + 1]));
            }
        }
        assert(self.empty_path(joined));
    }

    /// Every state reaches itself.
    pub proof fn lemma_reach_refl(self, p: StateId)
        ensures
            self.empty_reach(p, p),
    {
        let path = seq![p];
        assert(self.empty_path(path));
        assert(path[0] == p && path.last() == p);
    }

    /// Adding to a closed set what a seed reaches outside it gives the
    /// set together with everything that the seed reaches, which is closed again.
    pub proof fn lemma_closure_grows(
        self,
        before: Set<StateId>,
        seed: StateId,
        after: Set<StateId>,
    )
        requires
            self.closed(before),
            forall|q: StateId|
                after.contains(q) <==> before.contains(q) || self.empty_reach_outside(
                    seed,
                    q,
                    before,
                ),
        ensures
            self.closed(after),
            forall|q: StateId|
                after.contains(q) <==> before.contains(q) || self.empty_reach(seed, q),
    {
        assert forall|q: StateId| self.empty_reach(seed, q) implies after.contains(q) by {
            let path = choose|path: Seq<StateId>|
                #[trigger] self.empty_path(path) && path[0] == seed && path.last() == q;
            if exists|i: int| 0 <= i < path.len() && before.contains(path[i]) {
                let i = choose|i: int| 0 <= i < path.len() && before.contains(path[i]);
                self.lemma_path_suffix(path, i);
                self.lemma_closed_path(before, path.skip(i), path.len() - 1 - i);
            } else {
                assert(self.empty_reach_outside(seed, q, before));
            }
        }
        assert forall|p: StateId, q: StateId|
            after.contains(p) && #[trigger] self.empty_edge(p, q) implies after.contains(q) by {
            if !before.contains(p) {
                let path = choose|path: Seq<StateId>|
                    #[trigger] self.empty_path(path) && path[0] == seed && path.last() == p;
                self.lemma_path_push(path, q);
                assert(self.empty_reach(seed, q));
            }
        }
    }

    /// Whether the states from `from` on report nothing.
    pub open spec fn quiet_from(self, from: int) -> bool {
        forall|x: int|
            from <= x < self.states.len() ==> (#[trigger] self.states[x]).matched_token is None
    }

    /// The automaton with one more state, which has no token and no edges.
    pub open spec fn with_state(self) -> NfaView {
        NfaView {
            states: self.states.push(
                StateView { matched_token: None, transitions: Seq::empty() },
            ),
            ..self
        }
    }

    /// The automaton with `transition` added after the edges that leave
    /// `p`, where `p` is a state.
    pub open spec fn with_transition(self, p: StateId, transition: Transition) -> NfaView {
        if p < self.states.len() {
            NfaView {
                states: self.states.update(
                    p as int,
                    StateView {
                        transitions: self.states[p as int].transitions.push(transition),
                        ..self.states[p as int]
                    },
                ),
                ..self
            }
        } else {
            self
        }
    }

    /// The automaton with an edge from `p` to `q` that consumes no input.
    pub open spec fn with_empty(self, p: StateId, q: StateId) -> NfaView {
        self.with_transition(p, Transition { byte_range: None, next_state_id: q })
    }

    /// The automaton in which state `p` reports `token`, where `p` is a state.
    pub open spec fn with_token(self, p: StateId, token: usize) -> NfaView {
        if p < self.states.len() {
            NfaView {
                states: self.states.update(
                    p as int,
                    StateView { matched_token: Some(token), ..self.states[p as int] },
                ),
                ..self
            }
        } else {
            self
        }
    }

    /// The automaton with `fragment` recorded as a pattern.
    pub open spec fn with_fragment(self, fragment: Fragment) -> NfaView {
        NfaView { fragments: self.fragments.push(fragment), ..self }
    }
}

#[derive(Debug)]
pub struct Nfa {
    states: Vec<State>,
    fragments: Vec<Fragment>,
}

impl View for Nfa {
    type V = NfaView;

    closed spec fn view(&self) -> NfaView {
        NfaView { states: self.states@.map_values(|s: State| s@), fragments: self.fragments@ }
    }
}

impl Nfa {
    pub fn new() -> (nfa: Self)
        ensures
            nfa@ == NfaView::empty(),
    {
        let nfa = Self { states: Vec::new(), fragments: Vec::new() };
        assert(nfa@.states =~= Seq::empty());
        nfa
    }

    /// The states are counted by a machine integer.
    pub proof fn lemma_state_count_fits(&self)
        ensures
            self@.states.len() <= usize::MAX,
    {
        assert(self.states.len() == self.states@.len());
    }

    pub fn state_count(&self) -> (n: usize)
        ensures
            n == self@.states.len(),
    {
        self.states.len()
    }

    pub fn state(&self, state_id: StateId) -> (state: &State)
        requires
            state_id < self@.states.len(),
        ensures
            state@ == self@.states[state_id as int],
    {
        &self.states[state_id]
    }

    /// The patterns, in the order in which they were accepted.
    pub fn fragments(&self) -> (fragments: &[Fragment])
        ensures
            fragments@ == self@.fragments,
    {
        self.fragments.as_slice()
    }

    /// Pushes the states to which an edge that consumes no input leads from `state_id`.
    fn push_empty_successors(&self, state_id: StateId, state_id_stack: &mut Vec<StateId>)
        requires
            self@.wf(),
            state_id < self@.states.len(),
        ensures
            old(state_id_stack)@.is_prefix_of(final(state_id_stack)@),
            forall|k: int|
                old(state_id_stack)@.len() <= k < final(state_id_stack)@.len() ==> (
                #[trigger] final(state_id_stack)@[k]) < self@.states.len() && self@.empty_edge(
                    state_id,
                    final(state_id_stack)@[k],
                ),
            forall|y: StateId|
                self@.empty_edge(state_id, y) ==> final(state_id_stack)@.contains(y),
    {
        let state = &self.states[state_id];
        let ghost edges = self@.states[state_id as int].transitions;
        assert(edges == state.transitions@);
        let mut t: usize = 0;
        while t < state.transitions.len()
            invariant
                self@.wf(),
                state_id < self@.states.len(),
                edges == state.transitions@,
                edges == self@.states[state_id as int].transitions,
                t <= edges.len(),
                old(state_id_stack)@.is_prefix_of(state_id_stack@),
                forall|k: int|
                    old(state_id_stack)@.len() <= k < state_id_stack@.len() ==> (
                    #[trigger] state_id_stack@[k]) < self@.states.len() && self@.empty_edge(
                        state_id,
                        state_id_stack@[k],
                    ),
                forall|j: int|
                    0 <= j < t && (#[trigger] edges[j]).byte_range is None
                        ==> state_id_stack@.contains(edges[j].next_state_id),
            decreases edges.len() - t,
        {
            let transition = state.transitions[t];
            if transition.is_empty() {
                let ghost grown = state_id_stack@;
                state_id_stack.push(transition.next_state_id);
                proof {
                    assert(edges[t as int] == transition);
                    assert(transition == (Transition {
                        byte_range: None,
                        next_state_id: transition.next_state_id,
                    }));
                    assert(self@.empty_edge(state_id, transition.next_state_id));
                    assert(state_id_stack@[grown.len() as int] == transition.next_state_id);
                    assert forall|j: int|
                        0 <= j < t + 1 && (#[trigger] edges[j]).byte_range is None implies state_id_stack@.contains(
                        edges[j].next_state_id) by {
                        if j < t {
                            let k = choose|k: int|
                                0 <= k < grown.len() && grown[k] == edges[j].next_state_id;
                            assert(state_id_stack@[k] == grown[k]);
                        }
                    }
                }
            }
            t += 1;
        }
        proof {
            assert forall|y: StateId| self@.empty_edge(state_id, y) implies state_id_stack@.contains(
                y,
            ) by {
                let j = choose|j: int|
                    0 <= j < edges.len() && (#[trigger] edges[j]) == (Transition {
                        byte_range: None,
                        next_state_id: y,
                    });
                assert(edges[j].byte_range is None);
            }
        }
    }

    /// Adds to `state_id_set` the states that `state_id` reaches without
    /// consuming input and without passing through a state that is in the
    /// set already. `state_id_stack` is working space.
    pub fn empty_closure(
        &self,
        state_id: StateId,
        state_id_set: &mut SparseSet,
        state_id_stack: &mut Vec<StateId>,
    )
        requires
            self@.wf(),
            state_id < self@.states.len(),
            old(state_id_set).wf(),
            old(state_id_set).capacity() >= self@.states.len(),
        ensures
            final(state_id_set).wf(),
            final(state_id_set).capacity() == old(state_id_set).capacity(),
            old(state_id_set)@.is_prefix_of(final(state_id_set)@),
            forall|q: StateId|
                final(state_id_set)@.contains(q) <==> old(state_id_set)@.contains(q)
                    || self@.empty_reach_outside(state_id, q, old(state_id_set)@.to_set()),
            final(state_id_stack)@.len() == 0,
    {
        let ghost avoid = old(state_id_set)@.to_set();
        state_id_stack.clear();
        state_id_stack.push(state_id);
        proof {
            assert(state_id_stack@[0] == state_id);
            assert(self@.search(Search {
                seed: state_id,
                avoid,
                found: state_id_set@,
                stack: state_id_stack@,
            })) by {
                if !avoid.contains(state_id) {
                    let path = seq![state_id];
                    assert(self@.empty_path(path));
                    assert(path[0] == state_id && path.last() == state_id);
                    assert(self@.empty_reach_outside(state_id, state_id, avoid));
                }
            }
        }
        while state_id_stack.len() > 0
            invariant
                self@.wf(),
                state_id < self@.states.len(),
                avoid == old(state_id_set)@.to_set(),
                state_id_set.wf(),
                state_id_set.capacity() == old(state_id_set).capacity(),
                state_id_set.capacity() >= self@.states.len(),
                old(state_id_set)@.is_prefix_of(state_id_set@),
                self@.search(
                    Search {
                        seed: state_id,
                        avoid,
                        found: state_id_set@,
                        stack: state_id_stack@,
                    },
                ),
            decreases state_id_set.capacity() - state_id_set@.len(), state_id_stack@.len(),
        {
            let ghost before = Search {
                seed: state_id,
                avoid,
                found: state_id_set@,
                stack: state_id_stack@,
            };
            let current = state_id_stack.pop().unwrap();
            assert(before.stack[before.stack.len() - 1] == current);
            if state_id_set.contains(current) {
                proof {
                    self@.lemma_search_skip(before);
                }
                continue;
            }
            state_id_set.insert(current);
            self.push_empty_successors(current, state_id_stack);
            proof {
                self@.lemma_search_visit(before, state_id_stack@);
            }
        }
        proof {
            let done = Search { seed: state_id, avoid, found: state_id_set@, stack: Seq::empty() };
            assert(state_id_stack@ =~= Seq::empty());
            self@.lemma_search_done(done);
        }
    }

    pub fn add_state(&mut self) -> (state_id: StateId)
        ensures
            state_id == old(self)@.states.len(),
            final(self)@ == old(self)@.with_state(),
    {
        let state_id: usize = self.states.len();
        self.states.push(State { matched_token: None, transitions: Vec::new() });
        assert(self@.states =~= old(self)@.with_state().states);
        state_id
    }

    pub fn add_transition(
        &mut self,
        state_id: StateId,
        byte_range: Option<ByteRange>,
        next_state_id: StateId,
    )
        requires
            state_id < old(self)@.states.len(),
        ensures
            final(self)@ == old(self)@.with_transition(
                state_id,
                Transition { byte_range, next_state_id },
            ),
    {
        let state = &mut self.states[state_id];
        state.transitions.push(Transition { byte_range, next_state_id });
        assert(self@.states =~= old(self)@.with_transition(
            state_id,
            Transition { byte_range, next_state_id },
        ).states);
    }

    fn set_matched_token(&mut self, state_id: StateId, token: usize)
        requires
            state_id < old(self)@.states.len(),
        ensures
            final(self)@ == old(self)@.with_token(state_id, token),
    {
        let state = &mut self.states[state_id];
        state.matched_token = Some(token);
        assert(self@.states =~= old(self)@.with_token(state_id, token).states);
    }

    fn add_fragment(&mut self, fragment: Fragment)
        ensures
            final(self)@ == old(self)@.with_fragment(fragment),
    {
        self.fragments.push(fragment);
    }
}


impl Default for Nfa {
    /// The automaton without states.
    fn default() -> (nfa: Self)
        ensures
            nfa@ == NfaView::empty(),
    {
        Self::new()
    }
}

/// The mathematical content of a [`Builder`]: the automaton so far and the
/// fragments that await a combinator.
pub struct BuilderView {
    pub nfa: NfaView,
    pub stack: Seq<Fragment>,
}

impl BuilderView {
    pub open spec fn empty() -> BuilderView {
        BuilderView { nfa: NfaView::empty(), stack: Seq::empty() }
    }

    /// The automaton is well formed, and the fragments on the stack refer to
    /// its states, end in distinct states, and have no token yet.
    pub open spec fn wf(self) -> bool {
        &&& self.nfa.wf()
        &&& forall|i: int|
            0 <= i < self.stack.len() ==> {
                &&& (#[trigger] self.stack[i]).start_state_id < self.nfa.states.len()
                &&& self.stack[i].end_state_id < self.nfa.states.len()
                &&& self.nfa.states[self.stack[i].end_state_id as int].matched_token is None
            }
        &&& forall|i: int, j: int|
            0 <= i < j < self.stack.len() ==> (#[trigger] self.stack[i]).end_state_id != (
            #[trigger] self.stack[j]).end_state_id
    }

    /// The fragment pushed last.
    pub open spec fn top(self) -> Fragment {
        self.stack[self.stack.len() - 1]
    }

    /// The fragment below the top.
    pub open spec fn below_top(self) -> Fragment {
        self.stack[self.stack.len() - 2]
    }

    /// The fragment that the combinators create: two states added at the end.
    pub open spec fn fresh(self) -> Fragment {
        Fragment {
            start_state_id: self.nfa.states.len() as usize,
            end_state_id: (self.nfa.states.len() + 1) as usize,
        }
    }

    /// Pushes two new states joined by an edge on `range`.
    pub open spec fn byte_range(self, range: ByteRange) -> BuilderView {
        let new = self.fresh();
        BuilderView {
            nfa: self.nfa.with_state().with_state().with_transition(
                new.start_state_id,
                Transition { byte_range: Some(range), next_state_id: new.end_state_id },
            ),
            stack: self.stack.push(new),
        }
    }

    /// Pushes a chain that matches exactly `bytes`, byte after byte.
    pub open spec fn literal(self, bytes: Seq<u8>) -> BuilderView
        decreases bytes.len(),
    {
        if bytes.len() == 0 {
            self
        } else {
            let last = ByteRange { start: bytes.last(), end: bytes.last() };
            if bytes.len() == 1 {
                self.byte_range(last)
            } else {
                self.literal(bytes.drop_last()).byte_range(last).concatenate()
            }
        }
    }

    /// Pushes a chain that matches the UTF-8 encoding of `ch`.
    pub open spec fn char(self, ch: char) -> BuilderView {
        self.literal(encode_scalar(ch as u32))
    }

    /// Replaces the top by a fragment that matches it or nothing.
    pub open spec fn zero_or_one(self) -> BuilderView {
        let inner = self.top();
        let new = self.fresh();
        BuilderView {
            nfa: self.nfa.with_state().with_state().with_empty(
                new.start_state_id,
                inner.start_state_id,
            ).with_empty(new.start_state_id, new.end_state_id).with_empty(
                inner.end_state_id,
                new.end_state_id,
            ),
            stack: self.stack.drop_last().push(new),
        }
    }

    /// Replaces the top by a fragment that matches it once or several times.
    pub open spec fn one_or_more(self) -> BuilderView {
        let inner = self.top();
        let new = self.fresh();
        BuilderView {
            nfa: self.nfa.with_state().with_state().with_empty(
                new.start_state_id,
                inner.start_state_id,
            ).with_empty(inner.end_state_id, inner.start_state_id).with_empty(
                inner.end_state_id,
                new.end_state_id,
            ),
            stack: self.stack.drop_last().push(new),
        }
    }

    /// Replaces the top by a fragment that matches it any number of times.
    pub open spec fn zero_or_more(self) -> BuilderView {
        let inner = self.top();
        let new = self.fresh();
        BuilderView {
            nfa: self.nfa.with_state().with_state().with_empty(
                new.start_state_id,
                inner.start_state_id,
            ).with_empty(new.start_state_id, new.end_state_id).with_empty(
                inner.end_state_id,
                inner.start_state_id,
            ).with_empty(inner.end_state_id, new.end_state_id),
            stack: self.stack.drop_last().push(new),
        }
    }

    /// Replaces the two topmost fragments by one that matches the lower and
    /// then the upper.
    pub open spec fn concatenate(self) -> BuilderView {
        let first = self.below_top();
        let second = self.top();
        BuilderView {
            nfa: self.nfa.with_empty(first.end_state_id, second.start_state_id),
            stack: self.stack.drop_last().drop_last().push(
                Fragment {
                    start_state_id: first.start_state_id,
                    end_state_id: second.end_state_id,
                },
            ),
        }
    }

    /// Replaces the two topmost fragments by one that matches either.
    pub open spec fn alternate(self) -> BuilderView {
        let first = self.below_top();
        let second = self.top();
        let new = self.fresh();
        BuilderView {
            nfa: self.nfa.with_state().with_state().with_empty(
                new.start_state_id,
                first.start_state_id,
            ).with_empty(new.start_state_id, second.start_state_id).with_empty(
                first.end_state_id,
                new.end_state_id,
            ).with_empty(second.end_state_id, new.end_state_id),
            stack: self.stack.drop_last().drop_last().push(new),
        }
    }

    /// Takes the top off the stack, lets its end state report `token`, and
    /// records it as a pattern.
    pub open spec fn accept(self, token: usize) -> BuilderView {
        let fragment = self.top();
        BuilderView {
            nfa: self.nfa.with_token(fragment.end_state_id, token).with_fragment(fragment),
            stack: self.stack.drop_last(),
        }
    }
}

/// One call of a combinator of the [`Builder`].
pub enum BuildOp {
    Char(char),
    ZeroOrOne,
    OneOrMore,
    ZeroOrMore,
    Concatenate,
    Alternate,
}

impl BuilderView {
    /// The builder after the combinator that `op` names.
    pub open spec fn apply(self, op: BuildOp) -> BuilderView {
        match op {
            BuildOp::Char(ch) => self.char(ch),
            BuildOp::ZeroOrOne => self.zero_or_one(),
            BuildOp::OneOrMore => self.one_or_more(),
            BuildOp::ZeroOrMore => self.zero_or_more(),
            BuildOp::Concatenate => self.concatenate(),
            BuildOp::Alternate => self.alternate(),
        }
    }

    /// The builder after the combinators that `ops` names, first to last.
    pub open spec fn run(self, ops: Seq<BuildOp>) -> BuilderView
        decreases ops.len(),
    {
        if ops.len() == 0 {
            self
        } else {
            self.run(ops.drop_last()).apply(ops.last())
        }
    }

    /// Running one more combinator is applying it to what the others gave.
    pub proof fn lemma_run_push(self, ops: Seq<BuildOp>, op: BuildOp)
        ensures
            self.run(ops.push(op)) == self.run(ops).apply(op),
    {
        assert(ops.push(op).drop_last() =~= ops);
    }
}

/// The UTF-8 encoding of `ch`.
pub fn encode_char(ch: char) -> (bytes: Vec<u8>)
    ensures
        bytes@ == encode_scalar(ch as u32),
{
    let v: u32 = ch as u32;
    let mut bytes: Vec<u8> = Vec::new();
    if v <= 0x7F {
        assert(v & 0x7F <= 0xFF) by (bit_vector);
        bytes.push((v & 0x7F) as u8);
    } else if v <= 0x7FF {
        assert((v >> 6) & 0x1F <= 0xFF) by (bit_vector);
        assert(v & 0x3F <= 0xFF) by (bit_vector);
        bytes.push(0xC0 | ((v >> 6) & 0x1F) as u8);
        bytes.push(0x80 | (v & 0x3F) as u8);
    } else if v <= 0xFFFF {
        assert((v >> 12) & 0x0F <= 0xFF) by (bit_vector);
        assert((v >> 6) & 0x3F <= 0xFF) by (bit_vector);
        assert(v & 0x3F <= 0xFF) by (bit_vector);
        bytes.push(0xE0 | ((v >> 12) & 0x0F) as u8);
        bytes.push(0x80 | ((v >> 6) & 0x3F) as u8);
        bytes.push(0x80 | (v & 0x3F) as u8);
    } else {
        assert((v >> 18) & 0x7 <= 0xFF) by (bit_vector);
        assert((v >> 12) & 0x3F <= 0xFF) by (bit_vector);
        assert((v >> 6) & 0x3F <= 0xFF) by (bit_vector);
        assert(v & 0x3F <= 0xFF) by (bit_vector);
        bytes.push(0xF0 | ((v >> 18) & 0x7) as u8);
        bytes.push(0x80 | ((v >> 12) & 0x3F) as u8);
        bytes.push(0x80 | ((v >> 6) & 0x3F) as u8);
        bytes.push(0x80 | (v & 0x3F) as u8);
    }
    assert(bytes@ =~= encode_scalar(ch as u32));
    bytes
}

/// Builds an [`Nfa`] from fragments kept on a stack.
#[derive(Debug)]
pub struct Builder {
    nfa: Nfa,
    fragment_stack: Vec<Fragment>,
}

impl View for Builder {
    type V = BuilderView;

    closed spec fn view(&self) -> BuilderView {
        BuilderView { nfa: self.nfa@, stack: self.fragment_stack@ }
    }
}

impl Builder {
    pub fn new() -> (builder: Self)
        ensures
            builder@ == BuilderView::empty(),
    {
        Self { nfa: Nfa::new(), fragment_stack: Vec::new() }
    }

    /// The states are counted by a machine integer.
    pub proof fn lemma_state_count_fits(&self)
        ensures
            self@.nfa.states.len() <= usize::MAX,
    {
        self.nfa.lemma_state_count_fits();
    }

    /// The number of fragments on the stack.
    pub fn fragment_count(&self) -> (n: usize)
        ensures
            n == self@.stack.len(),
    {
        self.fragment_stack.len()
    }

    /// Pushes a fragment that matches the UTF-8 encoding of `ch`.
    pub fn char(&mut self, ch: char)
        requires
            old(self)@.wf(),
        ensures
            final(self)@ == old(self)@.char(ch),
            final(self)@.wf(),
            final(self)@.stack.len() == old(self)@.stack.len() + 1,
            final(self)@.stack.drop_last() == old(self)@.stack,
            final(self)@.nfa.fragments == old(self)@.nfa.fragments,
            final(self)@.nfa.extends(old(self)@.nfa),
            final(self)@.nfa.quiet_from(old(self)@.nfa.states.len() as int),
            final(self)@.top().start_state_id >= old(self)@.nfa.states.len(),
            final(self)@.top().end_state_id >= old(self)@.nfa.states.len(),
    {
        let bytes = encode_char(ch);
        let mut i: usize = 0;
        while i < bytes.len()
            invariant
                i <= bytes.len(),
                self@ == old(self)@.literal(bytes@.take(i as int)),
                self@.wf(),
                self@.nfa.fragments == old(self)@.nfa.fragments,
                i > 0 ==> self@.stack.len() == old(self)@.stack.len() + 1
                    && self@.stack.drop_last() == old(self)@.stack,
                self@.nfa.extends(old(self)@.nfa),
                self@.nfa.quiet_from(old(self)@.nfa.states.len() as int),
                i > 0 ==> self@.top().start_state_id >= old(self)@.nfa.states.len()
                    && self@.top().end_state_id >= old(self)@.nfa.states.len(),
            decreases bytes.len() - i,
        {
            let byte: u8 = bytes[i];
            proof {
                assert(bytes@.take(i + 1).drop_last() =~= bytes@.take(i as int));
                assert(bytes@.take(i + 1).last() == byte);
            }
            let ghost before = self@;
            proof {
                self.lemma_state_count_fits();
            }
            self.byte_range(ByteRange { start: byte, end: byte });
            proof {
                self.lemma_state_count_fits();
            }
            assert(self@.stack.drop_last() =~= before.stack);
            if i > 0 {
                self.concatenate();
                assert(self@.stack.drop_last() =~= old(self)@.stack);
            }
            i += 1;
        }
        proof {
            assert(bytes@.take(i as int) =~= bytes@);
            assert(bytes@.len() > 0);
        }
    }

    fn byte_range(&mut self, byte_range: ByteRange)
        requires
            old(self)@.wf(),
        ensures
            final(self)@ == old(self)@.byte_range(byte_range),
            final(self)@.wf(),
    {
        let start_state_id = self.nfa.add_state();
        let end_state_id = self.nfa.add_state();
        self.nfa.add_transition(start_state_id, Some(byte_range), end_state_id);
        self.fragment_stack.push(Fragment { start_state_id, end_state_id });
    }

    /// Replaces the top by a fragment that matches it or nothing.
    pub fn zero_or_one(&mut self)
        requires
            old(self)@.wf(),
            old(self)@.stack.len() >= 1,
        ensures
            final(self)@ == old(self)@.zero_or_one(),
            final(self)@.wf(),
    {
        let fragment = self.pop();
        let start_state_id = self.nfa.add_state();
        let end_state_id = self.nfa.add_state();
        self.nfa.add_transition(start_state_id, None, fragment.start_state_id);
        self.nfa.add_transition(start_state_id, None, end_state_id);
        self.nfa.add_transition(fragment.end_state_id, None, end_state_id);
        self.fragment_stack.push(Fragment { start_state_id, end_state_id });
    }

    /// Replaces the top by a fragment that matches it once or several times.
    pub fn one_or_more(&mut self)
        requires
            old(self)@.wf(),
            old(self)@.stack.len() >= 1,
        ensures
            final(self)@ == old(self)@.one_or_more(),
            final(self)@.wf(),
    {
        let fragment = self.pop();
        let start_state_id = self.nfa.add_state();
        let end_state_id = self.nfa.add_state();
        self.nfa.add_transition(start_state_id, None, fragment.start_state_id);
        self.nfa.add_transition(fragment.end_state_id, None, fragment.start_state_id);
        self.nfa.add_transition(fragment.end_state_id, None, end_state_id);
        self.fragment_stack.push(Fragment { start_state_id, end_state_id });
    }

    /// Replaces the top by a fragment that matches it any number of times.
    pub fn zero_or_more(&mut self)
        requires
            old(self)@.wf(),
            old(self)@.stack.len() >= 1,
        ensures
            final(self)@ == old(self)@.zero_or_more(),
            final(self)@.wf(),
    {
        let fragment = self.pop();
        let start_state_id = self.nfa.add_state();
        let end_state_id = self.nfa.add_state();
        self.nfa.add_transition(start_state_id, None, fragment.start_state_id);
        self.nfa.add_transition(start_state_id, None, end_state_id);
        self.nfa.add_transition(fragment.end_state_id, None, fragment.start_state_id);
        self.nfa.add_transition(fragment.end_state_id, None, end_state_id);
        self.fragment_stack.push(Fragment { start_state_id, end_state_id });
    }

    /// Replaces the two topmost fragments by one that matches the lower and
    /// then the upper.
    pub fn concatenate(&mut self)
        requires
            old(self)@.wf(),
            old(self)@.stack.len() >= 2,
        ensures
            final(self)@ == old(self)@.concatenate(),
            final(self)@.wf(),
    {
        let fragment_1 = self.pop();
        let fragment_0 = self.pop();
        self.nfa.add_transition(fragment_0.end_state_id, None, fragment_1.start_state_id);
        self.fragment_stack.push(
            Fragment {
                start_state_id: fragment_0.start_state_id,
                end_state_id: fragment_1.end_state_id,
            },
        );
    }

    /// Replaces the two topmost fragments by one that matches either.
    pub fn alternate(&mut self)
        requires
            old(self)@.wf(),
            old(self)@.stack.len() >= 2,
        ensures
            final(self)@ == old(self)@.alternate(),
            final(self)@.wf(),
    {
        let fragment_1 = self.pop();
        let fragment_0 = self.pop();
        let start_state_id = self.nfa.add_state();
        let end_state_id = self.nfa.add_state();
        self.nfa.add_transition(start_state_id, None, fragment_0.start_state_id);
        self.nfa.add_transition(start_state_id, None, fragment_1.start_state_id);
        self.nfa.add_transition(fragment_0.end_state_id, None, end_state_id);
        self.nfa.add_transition(fragment_1.end_state_id, None, end_state_id);
        self.fragment_stack.push(Fragment { start_state_id, end_state_id });
    }

    /// Takes the top off the stack, lets its end state report `matched_token`,
    /// and records it as a pattern.
    pub fn accept(&mut self, matched_token: usize)
        requires
            old(self)@.wf(),
            old(self)@.stack.len() >= 1,
            matched_token < usize::MAX,
        ensures
            final(self)@ == old(self)@.accept(matched_token),
            final(self)@.wf(),
    {
        let fragment = self.pop();
        self.nfa.set_matched_token(fragment.end_state_id, matched_token);
        self.nfa.add_fragment(fragment);
    }

    /// Drops fragments from the top until `len` are left.
    pub fn truncate(&mut self, len: usize)
        requires
            old(self)@.wf(),
            len <= old(self)@.stack.len(),
        ensures
            final(self)@.nfa == old(self)@.nfa,
            final(self)@.stack == old(self)@.stack.take(len as int),
            final(self)@.wf(),
    {
        self.fragment_stack.truncate(len);
    }

    /// The automaton built so far.
    pub fn build(self) -> (nfa: Nfa)
        ensures
            nfa@ == self@.nfa,
    {
        self.nfa
    }

    fn pop(&mut self) -> (fragment: Fragment)
        requires
            old(self)@.stack.len() >= 1,
        ensures
            fragment == old(self)@.top(),
            final(self)@.stack == old(self)@.stack.drop_last(),
            final(self)@.nfa == old(self)@.nfa,
    {
        self.fragment_stack.pop().unwrap()
    }
}

impl Default for Builder {
    /// The builder of an automaton without states.
    fn default() -> (builder: Self)
        ensures
            builder@ == BuilderView::empty(),
    {
        Self::new()
    }
}

} // verus!
