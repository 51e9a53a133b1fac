//! What holds between the stages: the automata of one set of patterns
//! report the same, and the minimized automaton is the least one.

use crate::determinizer::{accepting, ambiguous, determinized, simulates, witnessed, BuildError};
use crate::dfa::{token_bound, Dfa, DfaView, StateId};
use crate::language::{
    is_end, lemma_match_reaches, lemma_recognized, matched, recognizes, Pattern,
};
use crate::minimizer::{image_has, minimizes, quotient};
use crate::nfa;
use crate::nfa::NfaView;
use vstd::prelude::*;

verus! {

/// The automaton that has the dead state only is well formed.
pub proof fn lemma_dead_only()
    ensures
        DfaView::dead_only().wf(),
        DfaView::dead_only().start() == 0,
{
    let only = DfaView::dead_only();
    assert(only.tokens.drop_last() =~= Seq::empty());
    reveal_with_fuel(token_bound, 2);
}

/// A well-formed automaton with one state is the one that has the dead
/// state only.
pub proof fn lemma_one_state(m: DfaView)
    requires
        m.wf(),
        m.state_count() == 1,
    ensures
        m == DfaView::dead_only(),
{
    let only = DfaView::dead_only();
    assert(m.tokens =~= only.tokens);
    assert(m.table =~= only.table);
    assert(m.tokens.drop_last() =~= Seq::empty());
    reveal_with_fuel(token_bound, 2);
}

/// Distinct numbers below `bound` are at most `bound` many.
pub proof fn lemma_distinct_below(s: Seq<int>, bound: int)
    requires
        forall|i: int, j: int| 0 <= i < j < s.len() ==> s[i] != s[j],
        forall|i: int| 0 <= i < s.len() ==> 0 <= (#[trigger] s[i]) < bound,
    ensures
        s.len() <= bound || s.len() == 0,
    decreases bound,
{
    if s.len() == 0 {
    } else if bound <= 0 {
        assert(0 <= s[0] < bound);
    } else {
        let top = bound - 1;
        if s.contains(top) {
            let k = choose|k: int| 0 <= k < s.len() && s[k] == top;
            let rest = s.remove(k);
            assert forall|i: int| 0 <= i < rest.len() implies 0 <= (#[trigger] rest[i]) < bound - 1 by {
                if i < k {
                    assert(rest[i] == s[i]);
                } else {
                    assert(rest[i] == s[i + 1]);
                }
            }
            assert forall|i: int, j: int| 0 <= i < j < rest.len() implies rest[i] != rest[j] by {
                let i2 = if i < k {
                    i
                } else {
                    i + 1
                };
                let j2 = if j < k {
                    j
                } else {
                    j + 1
                };
                assert(rest[i] == s[i2] && rest[j] == s[j2]);
            }
            lemma_distinct_below(rest, bound - 1);
        } else {
            assert forall|i: int| 0 <= i < s.len() implies 0 <= (#[trigger] s[i]) < bound - 1 by {
                assert(s.contains(s[i]));
            }
            lemma_distinct_below(s, bound - 1);
        }
    }
}

/// Where `f` maps `d` onto `m`, running `m` from the image of a state
/// leads to the image of the state to which `d` runs.
pub proof fn lemma_quotient_run(
    m: DfaView,
    d: DfaView,
    f: Seq<StateId>,
    s: int,
    input: Seq<u8>,
)
    requires
        quotient(m, d, f),
        0 <= s < f.len(),
    ensures
        0 <= d.run(s, input) < f.len(),
        m.run(f[s] as int, input) == f[d.run(s, input)],
    decreases input.len(),
{
    d.lemma_run_in_range(s, input);
    if input.len() > 0 {
        lemma_quotient_run(m, d, f, s, input.drop_last());
        let before = d.run(s, input.drop_last());
        assert(m.next(f[before] as int, input.last()) == f[d.next(before, input.last())]);
    }
}

/// The minimized automaton reports after every input what the automaton
/// that it was made from reports.
pub proof fn lemma_minimized_reports_same(m: DfaView, d: DfaView, input: Seq<u8>)
    requires
        d.wf(),
        minimizes(m, d),
    ensures
        m.wf(),
        m.token_after(input) == d.token_after(input),
{
    if d.equivalent(d.start(), 0) {
        lemma_dead_only();
        assert(d.tokens[d.run(d.start(), input)] == d.tokens[d.run(0, input)]);
        d.lemma_dead_absorbs(input);
        m.lemma_dead_absorbs(input);
    } else {
        let f = choose|f: Seq<StateId>| quotient(m, d, f);
        lemma_quotient_run(m, d, f, d.start(), input);
        let end = d.run(d.start(), input);
        assert(m.tokens[f[end] as int] == d.tokens[end]);
    }
}

/// The three automata of one set of patterns accept the same: after an
/// input of at least one byte, the nondeterministic automaton can report
/// a token if and only if the deterministic one reports it, and if and
/// only if the minimized one does.
pub proof fn lemma_acceptance_equivalence(
    nfa: NfaView,
    d: DfaView,
    m: DfaView,
    input: Seq<u8>,
    token: usize,
)
    requires
        d.wf(),
        simulates(d, nfa),
        minimizes(m, d),
        input.len() > 0,
    ensures
        nfa.accepts(input, token) <==> d.token_after(input) == Some(token),
        d.token_after(input) == Some(token) <==> m.token_after(input) == Some(token),
{
    lemma_minimized_reports_same(m, d, input);
    assert(d.token_after(input) == Some(token) <==> nfa.accepts(input, token));
}

/// The automata of a set of patterns report a token after an input of at
/// least one byte if and only if a pattern with that token matches the input.
pub proof fn lemma_compiled_language(
    patterns: Seq<Pattern>,
    nfa: NfaView,
    d: DfaView,
    m: DfaView,
    input: Seq<u8>,
    token: usize,
)
    requires
        recognizes(nfa, patterns),
        d.wf(),
        simulates(d, nfa),
        minimizes(m, d),
        input.len() > 0,
    ensures
        d.token_after(input) == Some(token) <==> matched(patterns, input, token),
        m.token_after(input) == Some(token) <==> matched(patterns, input, token),
{
    lemma_recognized(nfa, patterns, input, token);
    lemma_acceptance_equivalence(nfa, d, m, input, token);
}

/// Some input tells any two states of the minimized automaton apart.
pub proof fn lemma_minimized_states_differ(m: DfaView, d: DfaView, first: int, second: int)
    requires
        d.wf(),
        minimizes(m, d),
        0 <= first < m.state_count(),
        0 <= second < m.state_count(),
        first != second,
    ensures
        !m.equivalent(first, second),
{
    if d.equivalent(d.start(), 0) {
    } else {
        let f = choose|f: Seq<StateId>| quotient(m, d, f);
        assert(image_has(f, first));
        assert(image_has(f, second));
        let s1 = choose|s: int| 0 <= s < f.len() && #[trigger] f[s] == first;
        let s2 = choose|s: int| 0 <= s < f.len() && #[trigger] f[s] == second;
        assert(f[s1] != f[s2]);
        assert(!d.equivalent(s1, s2));
        let input = choose|input: Seq<u8>|
            d.tokens[#[trigger] d.run(s1, input)] != d.tokens[d.run(s2, input)];
        lemma_quotient_run(m, d, f, s1, input);
        lemma_quotient_run(m, d, f, s2, input);
        let e1 = d.run(s1, input);
        let e2 = d.run(s2, input);
        assert(m.tokens[f[e1] as int] == d.tokens[e1]);
        assert(m.tokens[f[e2] as int] == d.tokens[e2]);
        assert(m.tokens[m.run(first, input)] != m.tokens[m.run(second, input)]);
    }
}

/// Where every state from `from` on can be reached, the same holds of the
/// minimized automaton: with `from` 0 of every state, with `from` 1 of
/// every state but the dead one.
pub proof fn lemma_minimized_reachable(m: DfaView, d: DfaView, from: int, state: int)
    requires
        d.wf(),
        minimizes(m, d),
        0 <= from <= 1,
        forall|s: int| from <= s < d.state_count() ==> #[trigger] d.reachable(s),
        from <= state < m.state_count(),
    ensures
        m.reachable(state),
{
    if d.equivalent(d.start(), 0) {
        lemma_dead_only();
        assert(m.run(m.start(), Seq::<u8>::empty()) == 0);
    } else {
        let f = choose|f: Seq<StateId>| quotient(m, d, f);
        assert(image_has(f, state));
        let s = choose|s: int| 0 <= s < f.len() && #[trigger] f[s] == state;
        assert(d.reachable(s));
        let input = choose|input: Seq<u8>| #[trigger] d.run(d.start(), input) == s;
        lemma_quotient_run(m, d, f, d.start(), input);
        assert(m.run(m.start(), input) == state);
    }
}

/// The states of the minimized automaton are the classes of inputs that
/// no continuation tells apart: two inputs lead to the same state if and
/// only if every continuation is reported alike after both.
pub proof fn lemma_minimized_classes(m: DfaView, d: DfaView, first: Seq<u8>, second: Seq<u8>)
    requires
        d.wf(),
        minimizes(m, d),
    ensures
        m.run(m.start(), first) == m.run(m.start(), second) <==> d.alike(first, second),
{
    lemma_minimized_reports_same(m, d, first);
    let e1 = m.run(m.start(), first);
    let e2 = m.run(m.start(), second);
    m.lemma_run_in_range(m.start(), first);
    m.lemma_run_in_range(m.start(), second);
    if e1 == e2 {
        assert forall|more: Seq<u8>|
            #[trigger] d.token_after(first + more) == d.token_after(second + more) by {
            lemma_minimized_reports_same(m, d, first + more);
            lemma_minimized_reports_same(m, d, second + more);
            m.lemma_run_concat(m.start(), first, more);
            m.lemma_run_concat(m.start(), second, more);
        }
    }
    if d.alike(first, second) {
        assert forall|more: Seq<u8>|
            m.tokens[#[trigger] m.run(e1, more)] == m.tokens[m.run(e2, more)] by {
            lemma_minimized_reports_same(m, d, first + more);
            lemma_minimized_reports_same(m, d, second + more);
            m.lemma_run_concat(m.start(), first, more);
            m.lemma_run_concat(m.start(), second, more);
            assert(d.token_after(first + more) == d.token_after(second + more));
        }
        if e1 != e2 {
            lemma_minimized_states_differ(m, d, e1, e2);
        }
    }
}

/// Whether `g` gives the states of `first` new ids under which it is
/// `second`: the dead state and the start state keep their ids, and
/// tokens and transitions are kept.
pub open spec fn renumbers(g: Seq<StateId>, first: DfaView, second: DfaView) -> bool {
    &&& g.len() == first.tokens.len()
    &&& first.tokens.len() == second.tokens.len()
    &&& forall|t: int| 0 <= t < g.len() ==> (#[trigger] g[t]) < second.tokens.len()
    &&& forall|t1: int, t2: int|
        0 <= t1 < g.len() && 0 <= t2 < g.len() && #[trigger] g[t1] == #[trigger] g[t2] ==> t1
            == t2
    &&& g[0] == 0
    &&& g[first.start()] == second.start()
    &&& forall|t: int| 0 <= t < g.len() ==> second.tokens[(#[trigger] g[t]) as int] == first.tokens[t]
    &&& forall|t: int, b: u8|
        0 <= t < g.len() ==> second.next(g[t] as int, b) == g[#[trigger] first.next(t, b)]
}

/// Minimizing a minimized automaton gives it back, but for the ids of its states.
pub proof fn lemma_minimize_idempotent(d: DfaView, once: DfaView, twice: DfaView)
    requires
        d.wf(),
        minimizes(once, d),
        minimizes(twice, once),
    ensures
        exists|g: Seq<StateId>| renumbers(g, once, twice),
{
    lemma_minimized_reports_same(once, d, Seq::empty());
    lemma_dead_only();
    if once.equivalent(once.start(), 0) {
        if once.start() != 0 {
            lemma_minimized_states_differ(once, d, once.start(), 0);
        }
        lemma_one_state(once);
        let g = seq![0usize];
        assert(once.table[0] == 0);
        assert forall|t: int, b: u8| 0 <= t < g.len() implies twice.next(g[t] as int, b)
            == g[#[trigger] once.next(t, b)] by {
            assert(once.table[b as int] == 0);
        }
        assert(renumbers(g, once, twice));
    } else {
        let g = choose|g: Seq<StateId>| quotient(twice, once, g);
        assert forall|t1: int, t2: int|
            0 <= t1 < g.len() && 0 <= t2 < g.len() && #[trigger] g[t1]
                == #[trigger] g[t2] implies t1 == t2 by {
            if t1 != t2 {
                lemma_minimized_states_differ(once, d, t1, t2);
            }
        }
        let images = Seq::new(g.len(), |t: int| g[t] as int);
        lemma_distinct_below(images, twice.tokens.len() as int);
        let origins = Seq::new(
            twice.tokens.len(),
            |u: int| choose|t: int| 0 <= t < g.len() && #[trigger] g[t] == u,
        );
        assert forall|u: int| 0 <= u < origins.len() implies 0 <= (#[trigger] origins[u])
            < g.len() && g[origins[u]] == u by {
            assert(image_has(g, u));
        }
        lemma_distinct_below(origins, g.len() as int);
        assert(renumbers(g, once, twice));
    }
}

/// Where two patterns, whose end states are the only ones that report a
/// token, match one input, the automaton is refused as ambiguous, with the
/// token of the earlier pattern first.
pub proof fn lemma_priority(
    nfa: NfaView,
    result: Result<Dfa, BuildError>,
    input: Seq<u8>,
    first: nfa::StateId,
    second: nfa::StateId,
    a: usize,
    b: usize,
)
    requires
        determinized(nfa, result),
        input.len() > 0,
        first < second,
        nfa.reach(input).contains(first),
        nfa.reach(input).contains(second),
        nfa.reports(first, a),
        nfa.reports(second, b),
        forall|q: nfa::StateId| accepting(nfa, q) ==> q == first || q == second,
    ensures
        result == Err::<Dfa, BuildError>(BuildError::Ambiguous { a, b }),
{
    assert(ambiguous(nfa, input, a, b));
    let error = result->Err_0;
    assert(witnessed(nfa, error));
    let other = choose|other: Seq<u8>| #[trigger] ambiguous(nfa, other, error->a, error->b);
    let (p, q) = choose|p: nfa::StateId, q: nfa::StateId|
        p < q && nfa.reach(other).contains(p) && nfa.reach(other).contains(q) && nfa.reports(
            p,
            error->a,
        ) && nfa.reports(q, error->b);
    assert(accepting(nfa, p) && accepting(nfa, q));
}


/// Where two patterns match one input of at least one byte, their
/// automaton is refused as ambiguous; where they are the only patterns,
/// with the token of the earlier one first.
pub proof fn lemma_pattern_priority(
    patterns: Seq<Pattern>,
    nfa: NfaView,
    result: Result<Dfa, BuildError>,
    k: int,
    l: int,
    input: Seq<u8>,
)
    requires
        recognizes(nfa, patterns),
        determinized(nfa, result),
        0 <= k < l < patterns.len(),
        input.len() > 0,
        patterns[k].tree.matches(input),
        patterns[l].tree.matches(input),
    ensures
        result is Err,
        patterns.len() == 2 ==> result == Err::<Dfa, BuildError>(
            BuildError::Ambiguous { a: patterns[0].token, b: patterns[1].token },
        ),
{
    lemma_match_reaches(nfa, patterns, k, input);
    lemma_match_reaches(nfa, patterns, l, input);
    let first = nfa.fragments[k].end_state_id;
    let second = nfa.fragments[l].end_state_id;
    assert(first < second);
    assert(ambiguous(nfa, input, patterns[k].token, patterns[l].token));
    if patterns.len() == 2 {
        assert forall|q: nfa::StateId| accepting(nfa, q) implies q == first || q == second by {
            assert(nfa.states[q as int].matched_token is Some);
            assert(is_end(nfa, q as int));
        }
        lemma_priority(nfa, result, input, first, second, patterns[0].token, patterns[1].token);
    }
}

/// A prefix of at least one byte is a match for the scanner if and only
/// if a pattern matches it.
pub proof fn lemma_scan_matches(
    patterns: Seq<Pattern>,
    nfa: NfaView,
    d: DfaView,
    m: DfaView,
    input: Seq<u8>,
    n: int,
)
    requires
        recognizes(nfa, patterns),
        d.wf(),
        simulates(d, nfa),
        minimizes(m, d),
        1 <= n <= input.len(),
    ensures
        d.is_match(input, n) <==> exists|token: usize| #[trigger]
            matched(patterns, input.take(n), token),
        m.is_match(input, n) <==> d.is_match(input, n),
{
    let prefix = input.take(n);
    lemma_minimized_reports_same(m, d, prefix);
    if d.is_match(input, n) {
        let token = d.token_after(prefix)->0;
        lemma_compiled_language(patterns, nfa, d, m, prefix, token);
        assert(matched(patterns, prefix, token));
    }
    if exists|token: usize| #[trigger] matched(patterns, prefix, token) {
        let token = choose|token: usize| #[trigger] matched(patterns, prefix, token);
        lemma_compiled_language(patterns, nfa, d, m, prefix, token);
    }
}

} // verus!
