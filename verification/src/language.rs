//! What the automaton of a pattern accepts: the inputs that the tree of the
//! pattern matches.

use crate::nfa::{BuildOp, BuilderView, ByteRange, Fragment, NfaView, StateId, Transition};
use crate::parser::compiled;
use crate::syntax::Regex;
use vstd::prelude::*;
use vstd::utf8::encode_scalar;

verus! {

/// A set of inputs.
pub type Language = spec_fn(Seq<u8>) -> bool;

/// The input `bytes` and no other.
pub open spec fn exactly(bytes: Seq<u8>) -> Language {
    |input: Seq<u8>| input == bytes
}

/// The inputs of `inner`, and the empty input.
pub open spec fn optional(inner: Language) -> Language {
    |input: Seq<u8>| input.len() == 0 || inner(input)
}

/// An input of `first` followed by an input of `second`.
pub open spec fn followed(first: Language, second: Language) -> Language {
    |input: Seq<u8>| splits(first, second, input)
}

/// Whether `input` is an input of `first` followed by an input of `second`.
pub open spec fn splits(first: Language, second: Language, input: Seq<u8>) -> bool {
    exists|k: int| 0 <= k <= input.len() && #[trigger] first(input.take(k)) && second(input.skip(k))
}

/// The inputs of `first` and those of `second`.
pub open spec fn either(first: Language, second: Language) -> Language {
    |input: Seq<u8>| first(input) || second(input)
}

/// Whether `input` consists of `count` inputs of `inner`.
pub open spec fn repeated(inner: Language, input: Seq<u8>, count: nat) -> bool
    decreases count,
{
    if count == 0 {
        input.len() == 0
    } else {
        exists|k: int|
            0 <= k <= input.len() && #[trigger] inner(input.take(k)) && repeated(
                inner,
                input.skip(k),
                (count - 1) as nat,
            )
    }
}

/// Any number of inputs of `inner`, one after the other.
pub open spec fn many(inner: Language) -> Language {
    |input: Seq<u8>| exists|count: nat| #[trigger] repeated(inner, input, count)
}

/// One or more inputs of `inner`, one after the other.
pub open spec fn several(inner: Language) -> Language {
    |input: Seq<u8>| exists|count: nat| count >= 1 && #[trigger] repeated(inner, input, count)
}

impl Regex {
    /// The inputs that the expression matches.
    pub open spec fn language(self) -> Language
        decreases self,
    {
        match self {
            Regex::Char(ch) => exactly(encode_scalar(ch as u32)),
            Regex::ZeroOrOne(inner) => optional(inner.language()),
            Regex::OneOrMore(inner) => several(inner.language()),
            Regex::ZeroOrMore(inner) => many(inner.language()),
            Regex::Concatenate(first, second) => followed(first.language(), second.language()),
            Regex::Alternate(first, second) => either(first.language(), second.language()),
        }
    }

    /// Whether the expression matches `input` as a whole.
    pub open spec fn matches(self, input: Seq<u8>) -> bool {
        (self.language())(input)
    }
}

/// Whether `fragment` stands for `language` in `nfa`: its walks from start
/// to end consume the inputs of `language`; the states of `region`, which
/// are those of the fragment, lead nowhere else and report nothing; and
/// nothing leaves the end.
pub open spec fn denotes(
    nfa: NfaView,
    fragment: Fragment,
    region: Set<StateId>,
    language: Language,
) -> bool {
    &&& region.contains(fragment.start_state_id)
    &&& region.contains(fragment.end_state_id)
    &&& nfa.confines(region)
    &&& forall|x: StateId|
        region.contains(x) ==> x < nfa.states.len() && (
        #[trigger] nfa.states[x as int]).matched_token is None
    &&& nfa.states[fragment.end_state_id as int].transitions.len() == 0
    &&& forall|input: Seq<u8>|
        #[trigger] nfa.walk(fragment.start_state_id, fragment.end_state_id, input) <==> language(
            input,
        )
}

/// The regions and the languages of the fragments on the stack.
pub struct Shape {
    pub regions: Seq<Set<StateId>>,
    pub languages: Seq<Language>,
}

impl Shape {
    pub open spec fn push(self, region: Set<StateId>, language: Language) -> Shape {
        Shape { regions: self.regions.push(region), languages: self.languages.push(language) }
    }

    pub open spec fn drop_last(self) -> Shape {
        Shape { regions: self.regions.drop_last(), languages: self.languages.drop_last() }
    }
}

/// Whether each fragment on the stack stands for its language, in a
/// region of its own.
pub open spec fn shaped(b: BuilderView, shape: Shape) -> bool {
    &&& b.wf()
    &&& shape.regions.len() == b.stack.len()
    &&& shape.languages.len() == b.stack.len()
    &&& forall|k: int|
        0 <= k < b.stack.len() ==> denotes(
            b.nfa,
            #[trigger] b.stack[k],
            shape.regions[k],
            shape.languages[k],
        )
    &&& forall|k: int, l: int, x: StateId|
        0 <= k < l < b.stack.len() ==> !(#[trigger] shape.regions[k].contains(x)
            && #[trigger] shape.regions[l].contains(x))
}

/// A fragment stands for the same language when the automaton has grown
/// without touching its region.
pub proof fn lemma_denotes_frame(
    grown: NfaView,
    nfa: NfaView,
    fragment: Fragment,
    region: Set<StateId>,
    language: Language,
)
    requires
        denotes(nfa, fragment, region, language),
        grown.grows(nfa),
        forall|x: StateId| region.contains(x) ==> grown.states[x as int] == nfa.states[x as int],
    ensures
        denotes(grown, fragment, region, language),
{
    assert forall|x: StateId| region.contains(x) implies grown.agrees(nfa, x) by {
        assert(nfa.states[x as int].matched_token is None);
    }
    assert forall|input: Seq<u8>|
        #[trigger] grown.walk(fragment.start_state_id, fragment.end_state_id, input)
            <==> language(input) by {
        if grown.walk(fragment.start_state_id, fragment.end_state_id, input) {
            let steps = choose|steps: nat|
                #[trigger] grown.walks(
                    fragment.start_state_id,
                    fragment.end_state_id,
                    input,
                    steps,
                );
            grown.lemma_walks_confined(
                nfa,
                region,
                fragment.start_state_id,
                fragment.end_state_id,
                input,
                steps,
            );
            assert(nfa.walk(fragment.start_state_id, fragment.end_state_id, input));
        }
        if language(input) {
            assert(nfa.walk(fragment.start_state_id, fragment.end_state_id, input));
            let steps = choose|steps: nat|
                #[trigger] nfa.walks(fragment.start_state_id, fragment.end_state_id, input, steps);
            grown.lemma_walks_grow(
                nfa,
                fragment.start_state_id,
                fragment.end_state_id,
                input,
                steps,
            );
        }
    }
    assert forall|x: StateId, t: int|
        region.contains(x) && 0 <= t < grown.states[x as int].transitions.len() implies x
        < grown.states.len() && region.contains(
        (#[trigger] grown.states[x as int].transitions[t]).next_state_id,
    ) by {
        assert(nfa.states[x as int].matched_token is None);
        assert(region.contains(nfa.states[x as int].transitions[t].next_state_id));
    }
}

impl NfaView {
    /// Whether transition `t` of state `p` can be taken on `input`.
    pub open spec fn passes(self, p: StateId, t: int, input: Seq<u8>) -> bool {
        match self.states[p as int].transitions[t].byte_range {
            None => true,
            Some(range) => input.len() > 0 && range.spec_contains(input[0]),
        }
    }

    /// The state to which transition `t` of state `p` leads.
    pub open spec fn target(self, p: StateId, t: int) -> StateId {
        self.states[p as int].transitions[t].next_state_id
    }

    /// What transition `t` of state `p` leaves of `input`.
    pub open spec fn rest(self, p: StateId, t: int, input: Seq<u8>) -> Seq<u8> {
        match self.states[p as int].transitions[t].byte_range {
            None => input,
            Some(_) => input.drop_first(),
        }
    }

    /// Whether a walk of `steps` steps leads from `p` to `q` and consumes `input`.
    pub open spec fn walks(self, p: StateId, q: StateId, input: Seq<u8>, steps: nat) -> bool
        decreases steps,
    {
        if steps == 0 {
            p == q && input.len() == 0
        } else {
            p < self.states.len() && exists|t: int|
                0 <= t < self.states[p as int].transitions.len() && #[trigger] self.passes(
                    p,
                    t,
                    input,
                ) && self.walks(self.target(p, t), q, self.rest(p, t, input), (steps - 1) as nat)
        }
    }

    /// Whether a walk leads from `p` to `q` and consumes `input`.
    pub open spec fn walk(self, p: StateId, q: StateId, input: Seq<u8>) -> bool {
        exists|steps: nat| #[trigger] self.walks(p, q, input, steps)
    }

    /// Whether this automaton has every state of `base`, with every
    /// transition of it in its place.
    pub open spec fn grows(self, base: NfaView) -> bool {
        &&& base.states.len() <= self.states.len()
        &&& forall|x: int|
            0 <= x < base.states.len() ==> (#[trigger] base.states[x]).transitions.is_prefix_of(
                self.states[x].transitions,
            )
    }

    /// Whether state `x` has the same transitions here as in `base`.
    pub open spec fn agrees(self, base: NfaView, x: StateId) -> bool {
        x < base.states.len() && x < self.states.len() && self.states[x as int].transitions
            == base.states[x as int].transitions
    }

    /// Whether the transitions of the states of `region` lead to states of `region`.
    pub open spec fn confines(self, region: Set<StateId>) -> bool {
        forall|x: StateId, t: int|
            region.contains(x) && 0 <= t < self.states[x as int].transitions.len()
                ==> x < self.states.len() && region.contains(
                (#[trigger] self.states[x as int].transitions[t]).next_state_id,
            )
    }

    /// A walk is still there when the automaton has grown.
    pub proof fn lemma_walks_grow(
        self,
        base: NfaView,
        p: StateId,
        q: StateId,
        input: Seq<u8>,
        steps: nat,
    )
        requires
            self.grows(base),
            base.walks(p, q, input, steps),
        ensures
            self.walks(p, q, input, steps),
        decreases steps,
    {
        if steps > 0 {
            let t = choose|t: int|
                0 <= t < base.states[p as int].transitions.len() && #[trigger] base.passes(
                    p,
                    t,
                    input,
                ) && base.walks(
                    base.target(p, t),
                    q,
                    base.rest(p, t, input),
                    (steps - 1) as nat,
                );
            assert(base.states[p as int].transitions.is_prefix_of(
                self.states[p as int].transitions,
            ));
            assert(self.states[p as int].transitions[t] == base.states[p as int].transitions[t]);
            self.lemma_walks_grow(
                base,
                base.target(p, t),
                q,
                base.rest(p, t, input),
                (steps - 1) as nat,
            );
            assert(self.passes(p, t, input));
        }
    }

    /// A walk to a state and a walk from it are a walk.
    pub proof fn lemma_walks_append(
        self,
        p: StateId,
        r: StateId,
        q: StateId,
        first: Seq<u8>,
        second: Seq<u8>,
        steps: nat,
        more: nat,
    )
        requires
            self.walks(p, r, first, steps),
            self.walks(r, q, second, more),
        ensures
            self.walks(p, q, first + second, steps + more),
        decreases steps,
    {
        if steps == 0 {
            assert(first + second =~= second);
        } else {
            let t = choose|t: int|
                0 <= t < self.states[p as int].transitions.len() && #[trigger] self.passes(
                    p,
                    t,
                    first,
                ) && self.walks(
                    self.target(p, t),
                    r,
                    self.rest(p, t, first),
                    (steps - 1) as nat,
                );
            self.lemma_walks_append(
                self.target(p, t),
                r,
                q,
                self.rest(p, t, first),
                second,
                (steps - 1) as nat,
                more,
            );
            if self.states[p as int].transitions[t].byte_range is Some {
                assert((first + second).drop_first() =~= first.drop_first() + second);
                assert((first + second)[0] == first[0]);
            }
            assert(self.passes(p, t, first + second));
            assert(self.rest(p, t, first + second) == self.rest(p, t, first) + second);
        }
    }

    /// A walk that begins in a region that confines it, and whose states
    /// are as they were in `base`, ends in the region and was there in `base`.
    pub proof fn lemma_walks_confined(
        self,
        base: NfaView,
        region: Set<StateId>,
        p: StateId,
        q: StateId,
        input: Seq<u8>,
        steps: nat,
    )
        requires
            base.confines(region),
            forall|x: StateId| region.contains(x) ==> self.agrees(base, x),
            region.contains(p),
            self.walks(p, q, input, steps),
        ensures
            region.contains(q),
            base.walks(p, q, input, steps),
        decreases steps,
    {
        if steps > 0 {
            let t = choose|t: int|
                0 <= t < self.states[p as int].transitions.len() && #[trigger] self.passes(
                    p,
                    t,
                    input,
                ) && self.walks(
                    self.target(p, t),
                    q,
                    self.rest(p, t, input),
                    (steps - 1) as nat,
                );
            assert(self.agrees(base, p));
            assert(region.contains(base.states[p as int].transitions[t].next_state_id));
            self.lemma_walks_confined(
                base,
                region,
                self.target(p, t),
                q,
                self.rest(p, t, input),
                (steps - 1) as nat,
            );
            assert(base.passes(p, t, input));
        }
    }

    /// A walk that begins in a region of `base` whose states are as they
    /// were, but for `exit`, either stays in the region, as it did in
    /// `base`, or is a walk of `base` to `exit` and a walk from there.
    pub proof fn lemma_walks_exit(
        self,
        base: NfaView,
        region: Set<StateId>,
        exit: StateId,
        p: StateId,
        q: StateId,
        input: Seq<u8>,
        steps: nat,
    ) -> (split: Option<(Seq<u8>, Seq<u8>, nat, nat)>)
        requires
            base.confines(region),
            forall|x: StateId| region.contains(x) && x != exit ==> self.agrees(base, x),
            region.contains(p),
            self.walks(p, q, input, steps),
        ensures
            match split {
                None => region.contains(q) && base.walks(p, q, input, steps),
                Some((first, second, before, after)) => {
                    &&& input == first + second
                    &&& steps == before + after
                    &&& base.walks(p, exit, first, before)
                    &&& self.walks(exit, q, second, after)
                },
            },
        decreases steps,
    {
        if p == exit {
            assert(Seq::<u8>::empty() + input =~= input);
            Some((Seq::empty(), input, 0, steps))
        } else if steps == 0 {
            None
        } else {
            let t = choose|t: int|
                0 <= t < self.states[p as int].transitions.len() && #[trigger] self.passes(
                    p,
                    t,
                    input,
                ) && self.walks(
                    self.target(p, t),
                    q,
                    self.rest(p, t, input),
                    (steps - 1) as nat,
                );
            assert(self.agrees(base, p));
            assert(region.contains(base.states[p as int].transitions[t].next_state_id));
            let rest = self.lemma_walks_exit(
                base,
                region,
                exit,
                self.target(p, t),
                q,
                self.rest(p, t, input),
                (steps - 1) as nat,
            );
            assert(base.passes(p, t, input));
            match rest {
                None => None,
                Some((first, second, before, after)) => {
                    if base.states[p as int].transitions[t].byte_range is Some {
                        let longer = seq![input[0]] + first;
                        assert(longer.drop_first() =~= first);
                        assert(longer + second =~= input) by {
                            assert(input =~= seq![input[0]] + input.drop_first());
                        }
                        assert(base.passes(p, t, longer));
                        assert(base.rest(p, t, longer) == first);
                        Some((longer, second, before + 1, after))
                    } else {
                        assert(base.passes(p, t, first));
                        Some((first, second, before + 1, after))
                    }
                },
            }
        }
    }
}


/// One byte of `range`.
pub open spec fn one_of(range: ByteRange) -> Language {
    |input: Seq<u8>| input.len() == 1 && range.spec_contains(input[0])
}

/// No walk of one or more steps begins in a state without transitions.
pub proof fn lemma_sink(nfa: NfaView, p: StateId, q: StateId, input: Seq<u8>, steps: nat)
    requires
        nfa.walks(p, q, input, steps),
        p < nfa.states.len() ==> nfa.states[p as int].transitions.len() == 0,
    ensures
        steps == 0,
        p == q,
        input.len() == 0,
{
}

/// A fragment that stands for a language stands for every language with
/// the same inputs.
pub proof fn lemma_denotes_same(
    nfa: NfaView,
    fragment: Fragment,
    region: Set<StateId>,
    language: Language,
    other: Language,
)
    requires
        denotes(nfa, fragment, region, language),
        forall|input: Seq<u8>| #[trigger] language(input) == other(input),
    ensures
        denotes(nfa, fragment, region, other),
{
    assert forall|input: Seq<u8>|
        #[trigger] nfa.walk(fragment.start_state_id, fragment.end_state_id, input) <==> other(
            input,
        ) by {
        assert(language(input) == other(input));
    }
}

/// Pushing a byte range keeps the stack in shape; the new fragment stands
/// for the bytes of the range.
pub proof fn lemma_byte_range(b: BuilderView, shape: Shape, range: ByteRange) -> (region: Set<
    StateId,
>)
    requires
        shaped(b, shape),
        b.nfa.states.len() + 2 <= usize::MAX,
    ensures
        shaped(b.byte_range(range), shape.push(region, one_of(range))),
        b.byte_range(range).nfa.states.len() == b.nfa.states.len() + 2,
        b.byte_range(range).nfa.fragments == b.nfa.fragments,
        region == set![b.fresh().start_state_id, b.fresh().end_state_id],
        forall|x: int| 0 <= x < b.nfa.states.len() ==> b.byte_range(range).nfa.states[x]
            == b.nfa.states[x],
{
    let new = b.fresh();
    let start = new.start_state_id;
    let end = new.end_state_id;
    let n1 = b.nfa.with_state();
    let n2 = n1.with_state();
    let transition = Transition { byte_range: Some(range), next_state_id: end };
    let n3 = n2.with_transition(start, transition);
    let after = b.byte_range(range);
    assert(n1.wf());
    assert(n2.wf());
    assert(n3.wf());
    assert(after.nfa == n3);
    let region = set![start, end];
    let grown = shape.push(region, one_of(range));
    assert(n3.states[start as int].transitions =~= seq![transition]);
    assert(n3.states[end as int].transitions =~= Seq::empty());
    assert(n3.grows(b.nfa));
    assert forall|k: int| 0 <= k < after.stack.len() implies denotes(
        after.nfa,
        #[trigger] after.stack[k],
        grown.regions[k],
        grown.languages[k],
    ) by {
        if k < b.stack.len() {
            assert(after.stack[k] == b.stack[k]);
            assert(denotes(b.nfa, b.stack[k], shape.regions[k], shape.languages[k]));
            lemma_denotes_frame(n3, b.nfa, b.stack[k], shape.regions[k], shape.languages[k]);
        } else {
            assert(after.stack[k] == new);
            assert forall|input: Seq<u8>| #[trigger] n3.walk(start, end, input) <==> one_of(range)(
                input,
            ) by {
                if n3.walk(start, end, input) {
                    let steps = choose|steps: nat| #[trigger] n3.walks(start, end, input, steps);
                    let t = choose|t: int|
                        0 <= t < n3.states[start as int].transitions.len() && #[trigger] n3.passes(
                            start,
                            t,
                            input,
                        ) && n3.walks(
                            n3.target(start, t),
                            end,
                            n3.rest(start, t, input),
                            (steps - 1) as nat,
                        );
                    lemma_sink(n3, end, end, input.drop_first(), (steps - 1) as nat);
                }
                if one_of(range)(input) {
                    assert(n3.passes(start, 0, input));
                    assert(n3.walks(end, end, input.drop_first(), 0));
                    assert(n3.walks(start, end, input, 1));
                }
            }
        }
    }
    assert forall|k: int, l: int, x: StateId| 0 <= k < l < after.stack.len() implies !(
    #[trigger] grown.regions[k].contains(x) && #[trigger] grown.regions[l].contains(x)) by {
        if l == b.stack.len() {
            assert(denotes(b.nfa, b.stack[k], shape.regions[k], shape.languages[k]));
            if shape.regions[k].contains(x) {
                assert(b.nfa.states[x as int].matched_token is None);
            }
        } else {
            assert(!(shape.regions[k].contains(x) && shape.regions[l].contains(x)));
        }
    }
    assert(after.wf()) by {
        assert forall|i: int, j: int| 0 <= i < j < after.stack.len() implies (
        #[trigger] after.stack[i]).end_state_id != (#[trigger] after.stack[j]).end_state_id by {
            if j == b.stack.len() {
                assert(b.stack[i].end_state_id < b.nfa.states.len());
            }
        }
    }
    region
}

/// Concatenating keeps the stack in shape; the new fragment stands for an
/// input of the lower fragment followed by one of the upper.
pub proof fn lemma_concatenate(b: BuilderView, shape: Shape) -> (region: Set<StateId>)
    requires
        shaped(b, shape),
        b.stack.len() >= 2,
    ensures
        shaped(
            b.concatenate(),
            shape.drop_last().drop_last().push(
                region,
                followed(
                    shape.languages[b.stack.len() - 2],
                    shape.languages[b.stack.len() - 1],
                ),
            ),
        ),
        b.concatenate().nfa.states.len() == b.nfa.states.len(),
        b.concatenate().nfa.fragments == b.nfa.fragments,
        region == shape.regions[b.stack.len() - 2] + shape.regions[b.stack.len() - 1],
        forall|x: int|
            0 <= x < b.nfa.states.len() && x != b.below_top().end_state_id
                ==> b.concatenate().nfa.states[x] == b.nfa.states[x],
{
    let count = b.stack.len() as int;
    let first = b.below_top();
    let second = b.top();
    let first_region = shape.regions[count - 2];
    let second_region = shape.regions[count - 1];
    let first_language = shape.languages[count - 2];
    let second_language = shape.languages[count - 1];
    let region = first_region + second_region;
    let language = followed(first_language, second_language);
    let after = b.concatenate();
    let n = b.nfa;
    let m = after.nfa;
    let exit = first.end_state_id;
    let glue = Transition { byte_range: None, next_state_id: second.start_state_id };
    let joined = after.stack[count - 2];
    let grown = shape.drop_last().drop_last().push(region, language);
    assert(b.stack[count - 2] == first && b.stack[count - 1] == second);
    assert(denotes(n, first, first_region, first_language));
    assert(denotes(n, second, second_region, second_language));
    assert(!(first_region.contains(exit) && second_region.contains(exit)));
    assert(m.wf());
    assert(m.grows(n));
    assert(m.states[exit as int].transitions =~= seq![glue]);
    assert forall|k: int| 0 <= k < after.stack.len() implies denotes(
        m,
        #[trigger] after.stack[k],
        grown.regions[k],
        grown.languages[k],
    ) by {
        if k < count - 2 {
            assert(after.stack[k] == b.stack[k]);
            assert(denotes(n, b.stack[k], shape.regions[k], shape.languages[k]));
            assert(!(shape.regions[k].contains(exit) && first_region.contains(exit)));
            lemma_denotes_frame(m, n, b.stack[k], shape.regions[k], shape.languages[k]);
        } else {
            assert forall|x: StateId, t: int|
                region.contains(x) && 0 <= t < m.states[x as int].transitions.len() implies x
                < m.states.len() && region.contains(
                (#[trigger] m.states[x as int].transitions[t]).next_state_id,
            ) by {
                if x != exit {
                    if first_region.contains(x) {
                        assert(first_region.contains(
                            n.states[x as int].transitions[t].next_state_id,
                        ));
                    } else {
                        assert(second_region.contains(
                            n.states[x as int].transitions[t].next_state_id,
                        ));
                    }
                }
            }
            assert forall|x: StateId| region.contains(x) implies x < m.states.len() && (
            #[trigger] m.states[x as int]).matched_token is None by {
                if first_region.contains(x) {
                    assert(n.states[x as int].matched_token is None);
                } else {
                    assert(n.states[x as int].matched_token is None);
                }
            }
            assert forall|input: Seq<u8>|
                #[trigger] m.walk(joined.start_state_id, joined.end_state_id, input) <==> language(
                    input,
                ) by {
                if m.walk(first.start_state_id, second.end_state_id, input) {
                    let steps = choose|steps: nat|
                        #[trigger] m.walks(
                            first.start_state_id,
                            second.end_state_id,
                            input,
                            steps,
                        );
                    let split = m.lemma_walks_exit(
                        n,
                        first_region,
                        exit,
                        first.start_state_id,
                        second.end_state_id,
                        input,
                        steps,
                    );
                    assert(!(first_region.contains(second.end_state_id) && second_region.contains(
                        second.end_state_id,
                    )));
                    let (head, tail, before, then) = split->0;
                    assert(n.walk(first.start_state_id, exit, head));
                    assert(then > 0);
                    let t = choose|t: int|
                        0 <= t < m.states[exit as int].transitions.len() && #[trigger] m.passes(
                            exit,
                            t,
                            tail,
                        ) && m.walks(
                            m.target(exit, t),
                            second.end_state_id,
                            m.rest(exit, t, tail),
                            (then - 1) as nat,
                        );
                    assert forall|x: StateId| second_region.contains(x) implies m.agrees(
                        n,
                        x,
                    ) by {
                        assert(!(first_region.contains(x) && second_region.contains(x)));
                        assert(n.states[x as int].matched_token is None);
                    }
                    m.lemma_walks_confined(
                        n,
                        second_region,
                        second.start_state_id,
                        second.end_state_id,
                        tail,
                        (then - 1) as nat,
                    );
                    assert(n.walk(second.start_state_id, second.end_state_id, tail));
                    assert(input.take(head.len() as int) =~= head);
                    assert(input.skip(head.len() as int) =~= tail);
                    assert(first_language(input.take(head.len() as int)));
                    assert(splits(first_language, second_language, input));
                }
                if language(input) {
                    let k = choose|k: int|
                        0 <= k <= input.len() && #[trigger] first_language(input.take(k))
                            && second_language(input.skip(k));
                    let head = input.take(k);
                    let tail = input.skip(k);
                    assert(n.walk(first.start_state_id, exit, head));
                    assert(n.walk(second.start_state_id, second.end_state_id, tail));
                    let before = choose|steps: nat|
                        #[trigger] n.walks(first.start_state_id, exit, head, steps);
                    let then = choose|steps: nat|
                        #[trigger] n.walks(
                            second.start_state_id,
                            second.end_state_id,
                            tail,
                            steps,
                        );
                    m.lemma_walks_grow(n, first.start_state_id, exit, head, before);
                    m.lemma_walks_grow(n, second.start_state_id, second.end_state_id, tail, then);
                    assert(m.passes(exit, 0, tail));
                    assert(m.walks(exit, second.end_state_id, tail, then + 1));
                    m.lemma_walks_append(
                        first.start_state_id,
                        exit,
                        second.end_state_id,
                        head,
                        tail,
                        before,
                        then + 1,
                    );
                    assert(head + tail =~= input);
                    assert(m.walk(first.start_state_id, second.end_state_id, input));
                }
            }
        }
    }
    assert forall|k: int, l: int, x: StateId| 0 <= k < l < after.stack.len() implies !(
    #[trigger] grown.regions[k].contains(x) && #[trigger] grown.regions[l].contains(x)) by {
        assert(!(shape.regions[k].contains(x) && first_region.contains(x)));
        assert(!(shape.regions[k].contains(x) && second_region.contains(x)));
    }
    assert(after.wf()) by {
        assert forall|i: int, j: int| 0 <= i < j < after.stack.len() implies (
        #[trigger] after.stack[i]).end_state_id != (#[trigger] after.stack[j]).end_state_id by {
            assert(b.stack[i].end_state_id != b.stack[count - 1].end_state_id);
        }
        assert forall|i: int| 0 <= i < after.stack.len() implies {
            &&& (#[trigger] after.stack[i]).start_state_id < after.nfa.states.len()
            &&& after.stack[i].end_state_id < m.states.len()
            &&& m.states[after.stack[i].end_state_id as int].matched_token is None
        } by {
            if i < count - 2 {
                assert(after.stack[i] == b.stack[i]);
            }
        }
    }
    region
}


/// An edge that consumes nothing.
pub open spec fn empty_to(next_state_id: StateId) -> Transition {
    Transition { byte_range: None, next_state_id }
}

/// Whether `grown` has the fragment of `nfa` as it was but for its end,
/// from which it leads to `exit`, and back to the start where `again` holds.
pub open spec fn cycles(
    grown: NfaView,
    nfa: NfaView,
    fragment: Fragment,
    region: Set<StateId>,
    exit: StateId,
    again: bool,
) -> bool {
    &&& grown.grows(nfa)
    &&& forall|x: StateId|
        region.contains(x) && x != fragment.end_state_id ==> grown.agrees(nfa, x)
    &&& !region.contains(exit)
    &&& exit < grown.states.len()
    &&& grown.states[exit as int].transitions.len() == 0
    &&& fragment.end_state_id < grown.states.len()
    &&& forall|t: int|
        0 <= t < grown.states[fragment.end_state_id as int].transitions.len() ==> (
        #[trigger] grown.states[fragment.end_state_id as int].transitions[t]) == empty_to(exit) || (
        again && grown.states[fragment.end_state_id as int].transitions[t] == empty_to(
            fragment.start_state_id,
        ))
    &&& exists|t: int|
        0 <= t < grown.states[fragment.end_state_id as int].transitions.len() && (
        #[trigger] grown.states[fragment.end_state_id as int].transitions[t]) == empty_to(exit)
    &&& again ==> exists|t: int|
        0 <= t < grown.states[fragment.end_state_id as int].transitions.len() && (
        #[trigger] grown.states[fragment.end_state_id as int].transitions[t]) == empty_to(
            fragment.start_state_id,
        )
}

/// One input of a language is the language repeated once.
pub proof fn lemma_repeated_once(language: Language, input: Seq<u8>)
    ensures
        repeated(language, input, 1) <==> language(input),
{
    reveal_with_fuel(repeated, 2);
    if language(input) {
        assert(input.take(input.len() as int) =~= input);
        assert(language(input.take(input.len() as int)));
        assert(input.skip(input.len() as int).len() == 0);
    }
    if repeated(language, input, 1) {
        let k = choose|k: int|
            0 <= k <= input.len() && #[trigger] language(input.take(k)) && repeated(
                language,
                input.skip(k),
                0,
            );
        assert(input.take(k) =~= input);
    }
}

/// A walk through a fragment to the exit consumes inputs of its language,
/// one for each time that it passes the fragment.
pub proof fn lemma_cycle_forward(
    grown: NfaView,
    nfa: NfaView,
    fragment: Fragment,
    region: Set<StateId>,
    language: Language,
    exit: StateId,
    again: bool,
    input: Seq<u8>,
    steps: nat,
) -> (count: nat)
    requires
        denotes(nfa, fragment, region, language),
        cycles(grown, nfa, fragment, region, exit, again),
        grown.walks(fragment.start_state_id, exit, input, steps),
    ensures
        count >= 1,
        repeated(language, input, count),
        !again ==> count == 1,
    decreases steps,
{
    let end = fragment.end_state_id;
    let split = grown.lemma_walks_exit(
        nfa,
        region,
        end,
        fragment.start_state_id,
        exit,
        input,
        steps,
    );
    let (head, tail, _, then) = split->0;
    assert(nfa.walk(fragment.start_state_id, end, head));
    assert(language(head));
    assert(then > 0);
    let t = choose|t: int|
        0 <= t < grown.states[end as int].transitions.len() && #[trigger] grown.passes(
            end,
            t,
            tail,
        ) && grown.walks(grown.target(end, t), exit, grown.rest(end, t, tail), (then - 1) as nat);
    let transition = grown.states[end as int].transitions[t];
    assert(input.take(head.len() as int) =~= head);
    assert(input.skip(head.len() as int) =~= tail);
    if transition == empty_to(exit) {
        lemma_sink(grown, exit, exit, tail, (then - 1) as nat);
        lemma_repeated_once(language, input);
        assert(input =~= head);
        1
    } else {
        let rest = lemma_cycle_forward(
            grown,
            nfa,
            fragment,
            region,
            language,
            exit,
            again,
            tail,
            (then - 1) as nat,
        );
        assert(language(input.take(head.len() as int)));
        rest + 1
    }
}

/// Inputs of the language of a fragment, one after the other, are
/// consumed by a walk through the fragment to the exit.
pub proof fn lemma_cycle_backward(
    grown: NfaView,
    nfa: NfaView,
    fragment: Fragment,
    region: Set<StateId>,
    language: Language,
    exit: StateId,
    again: bool,
    input: Seq<u8>,
    count: nat,
)
    requires
        denotes(nfa, fragment, region, language),
        cycles(grown, nfa, fragment, region, exit, again),
        repeated(language, input, count),
        count >= 1,
        again || count == 1,
    ensures
        grown.walk(fragment.start_state_id, exit, input),
    decreases count,
{
    let end = fragment.end_state_id;
    let k = choose|k: int|
        0 <= k <= input.len() && #[trigger] language(input.take(k)) && repeated(
            language,
            input.skip(k),
            (count - 1) as nat,
        );
    let head = input.take(k);
    let tail = input.skip(k);
    assert(head + tail =~= input);
    assert(nfa.walk(fragment.start_state_id, end, head));
    let before = choose|steps: nat| #[trigger] nfa.walks(fragment.start_state_id, end, head, steps);
    grown.lemma_walks_grow(nfa, fragment.start_state_id, end, head, before);
    if count == 1 {
        let t = choose|t: int|
            0 <= t < grown.states[end as int].transitions.len() && (
            #[trigger] grown.states[end as int].transitions[t]) == empty_to(exit);
        assert(grown.passes(end, t, tail));
        assert(grown.walks(exit, exit, tail, 0));
        assert(grown.walks(end, exit, tail, 1));
        grown.lemma_walks_append(fragment.start_state_id, end, exit, head, tail, before, 1);
    } else {
        lemma_cycle_backward(
            grown,
            nfa,
            fragment,
            region,
            language,
            exit,
            again,
            tail,
            (count - 1) as nat,
        );
        let then = choose|steps: nat|
            #[trigger] grown.walks(fragment.start_state_id, exit, tail, steps);
        let t = choose|t: int|
            0 <= t < grown.states[end as int].transitions.len() && (
            #[trigger] grown.states[end as int].transitions[t]) == empty_to(
                fragment.start_state_id,
            );
        assert(grown.passes(end, t, tail));
        assert(grown.walks(end, exit, tail, then + 1));
        grown.lemma_walks_append(fragment.start_state_id, end, exit, head, tail, before, then + 1);
    }
}


/// The builder after the top was put between two new states, with an edge
/// past it where `skip` holds and an edge back to its start where `again` holds.
pub open spec fn wrapped(b: BuilderView, skip: bool, again: bool) -> BuilderView {
    let inner = b.top();
    let new = b.fresh();
    let entered = b.nfa.with_state().with_state().with_empty(
        new.start_state_id,
        inner.start_state_id,
    );
    let skipped = if skip {
        entered.with_empty(new.start_state_id, new.end_state_id)
    } else {
        entered
    };
    let repeating = if again {
        skipped.with_empty(inner.end_state_id, inner.start_state_id)
    } else {
        skipped
    };
    BuilderView {
        nfa: repeating.with_empty(inner.end_state_id, new.end_state_id),
        stack: b.stack.drop_last().push(new),
    }
}

/// The language of a wrapped fragment.
pub open spec fn wrapping(language: Language, skip: bool, again: bool) -> Language {
    if again {
        if skip {
            many(language)
        } else {
            several(language)
        }
    } else if skip {
        optional(language)
    } else {
        language
    }
}

/// Wrapping the top keeps the stack in shape; the new fragment stands for
/// the wrapped language.
pub proof fn lemma_wrapped(b: BuilderView, shape: Shape, skip: bool, again: bool) -> (region: Set<
    StateId,
>)
    requires
        shaped(b, shape),
        b.stack.len() >= 1,
        b.nfa.states.len() + 2 <= usize::MAX,
    ensures
        shaped(
            wrapped(b, skip, again),
            shape.drop_last().push(
                region,
                wrapping(shape.languages[b.stack.len() - 1], skip, again),
            ),
        ),
        wrapped(b, skip, again).nfa.states.len() == b.nfa.states.len() + 2,
        wrapped(b, skip, again).nfa.fragments == b.nfa.fragments,
        region == shape.regions[b.stack.len() - 1].insert(b.fresh().start_state_id).insert(
            b.fresh().end_state_id,
        ),
        forall|x: int|
            0 <= x < b.nfa.states.len() && x != b.top().end_state_id ==> wrapped(
                b,
                skip,
                again,
            ).nfa.states[x] == b.nfa.states[x],
{
    let count = b.stack.len() as int;
    let inner = b.top();
    let inner_region = shape.regions[count - 1];
    let inner_language = shape.languages[count - 1];
    let new = b.fresh();
    let start = new.start_state_id;
    let end = new.end_state_id;
    let exit = inner.end_state_id;
    let n = b.nfa;
    let after = wrapped(b, skip, again);
    let m = after.nfa;
    let language = wrapping(inner_language, skip, again);
    let region = inner_region.insert(start).insert(end);
    let grown = shape.drop_last().push(region, language);
    assert(b.stack[count - 1] == inner);
    assert(denotes(n, inner, inner_region, inner_language));
    let entered = n.with_state().with_state().with_empty(start, inner.start_state_id);
    let skipped = if skip {
        entered.with_empty(start, end)
    } else {
        entered
    };
    let repeating = if again {
        skipped.with_empty(exit, inner.start_state_id)
    } else {
        skipped
    };
    assert(n.with_state().wf());
    assert(n.with_state().with_state().wf());
    assert(entered.wf());
    assert(skipped.wf());
    assert(repeating.wf());
    assert(m.wf());
    assert(m.grows(n));
    assert(m.states[end as int].transitions =~= Seq::empty());
    assert(m.states[start as int].transitions =~= if skip {
        seq![empty_to(inner.start_state_id), empty_to(end)]
    } else {
        seq![empty_to(inner.start_state_id)]
    });
    assert(m.states[exit as int].transitions =~= if again {
        seq![empty_to(inner.start_state_id), empty_to(end)]
    } else {
        seq![empty_to(end)]
    });
    assert(!inner_region.contains(end)) by {
        if inner_region.contains(end) {
            assert(n.states[end as int].matched_token is None);
        }
    }
    assert(!inner_region.contains(start)) by {
        if inner_region.contains(start) {
            assert(n.states[start as int].matched_token is None);
        }
    }
    assert(cycles(m, n, inner, inner_region, end, again)) by {
        assert forall|x: StateId| inner_region.contains(x) && x != exit implies m.agrees(n, x) by {
            assert(n.states[x as int].matched_token is None);
        }
        let last = m.states[exit as int].transitions.len() - 1;
        assert(m.states[exit as int].transitions[last] == empty_to(end));
        if again {
            assert(m.states[exit as int].transitions[0] == empty_to(inner.start_state_id));
        }
    }
    assert forall|k: int| 0 <= k < after.stack.len() implies denotes(
        m,
        #[trigger] after.stack[k],
        grown.regions[k],
        grown.languages[k],
    ) by {
        if k < count - 1 {
            assert(after.stack[k] == b.stack[k]);
            assert(denotes(n, b.stack[k], shape.regions[k], shape.languages[k]));
            assert forall|x: StateId| shape.regions[k].contains(x) implies m.states[x as int]
                == n.states[x as int] by {
                assert(!(shape.regions[k].contains(x) && inner_region.contains(x)));
                assert(n.states[x as int].matched_token is None);
            }
            lemma_denotes_frame(m, n, b.stack[k], shape.regions[k], shape.languages[k]);
        } else {
            assert(after.stack[k] == new);
            assert forall|x: StateId, t: int|
                region.contains(x) && 0 <= t < m.states[x as int].transitions.len() implies x
                < m.states.len() && region.contains(
                (#[trigger] m.states[x as int].transitions[t]).next_state_id,
            ) by {
                if x != exit && x != start && x != end {
                    assert(n.states[x as int].matched_token is None);
                    assert(inner_region.contains(
                        n.states[x as int].transitions[t].next_state_id,
                    ));
                }
            }
            assert forall|x: StateId| region.contains(x) implies x < m.states.len() && (
            #[trigger] m.states[x as int]).matched_token is None by {
                if inner_region.contains(x) {
                    assert(n.states[x as int].matched_token is None);
                }
            }
            assert forall|input: Seq<u8>| #[trigger] m.walk(start, end, input) <==> language(
                input,
            ) by {
                if m.walk(start, end, input) {
                    let steps = choose|steps: nat| #[trigger] m.walks(start, end, input, steps);
                    let t = choose|t: int|
                        0 <= t < m.states[start as int].transitions.len() && #[trigger] m.passes(
                            start,
                            t,
                            input,
                        ) && m.walks(
                            m.target(start, t),
                            end,
                            m.rest(start, t, input),
                            (steps - 1) as nat,
                        );
                    if m.target(start, t) == end {
                        lemma_sink(m, end, end, input, (steps - 1) as nat);
                        assert(repeated(inner_language, input, 0));
                    } else {
                        let turns = lemma_cycle_forward(
                            m,
                            n,
                            inner,
                            inner_region,
                            inner_language,
                            end,
                            again,
                            input,
                            (steps - 1) as nat,
                        );
                        lemma_repeated_once(inner_language, input);
                    }
                }
                if language(input) {
                    lemma_repeated_once(inner_language, input);
                    let turns: nat = if again {
                        if skip {
                            choose|turns: nat| #[trigger] repeated(inner_language, input, turns)
                        } else {
                            choose|turns: nat|
                                turns >= 1 && #[trigger] repeated(inner_language, input, turns)
                        }
                    } else if skip && !inner_language(input) {
                        0
                    } else {
                        1
                    };
                    assert(repeated(inner_language, input, turns));
                    if turns == 0 {
                        assert(m.passes(start, 1, input));
                        assert(m.walks(end, end, input, 0));
                        assert(m.walks(start, end, input, 1));
                    } else {
                        lemma_cycle_backward(
                            m,
                            n,
                            inner,
                            inner_region,
                            inner_language,
                            end,
                            again,
                            input,
                            turns,
                        );
                        let steps = choose|steps: nat|
                            #[trigger] m.walks(inner.start_state_id, end, input, steps);
                        assert(m.passes(start, 0, input));
                        assert(m.walks(start, end, input, steps + 1));
                    }
                }
            }
        }
    }
    assert forall|k: int, l: int, x: StateId| 0 <= k < l < after.stack.len() implies !(
    #[trigger] grown.regions[k].contains(x) && #[trigger] grown.regions[l].contains(x)) by {
        assert(denotes(n, b.stack[k], shape.regions[k], shape.languages[k]));
        if shape.regions[k].contains(x) {
            assert(n.states[x as int].matched_token is None);
        }
        if l < count - 1 {
            assert(!(shape.regions[k].contains(x) && shape.regions[l].contains(x)));
        } else {
            assert(!(shape.regions[k].contains(x) && inner_region.contains(x)));
        }
    }
    assert(after.wf()) by {
        assert forall|i: int, j: int| 0 <= i < j < after.stack.len() implies (
        #[trigger] after.stack[i]).end_state_id != (#[trigger] after.stack[j]).end_state_id by {
            assert(b.stack[i].end_state_id < n.states.len());
        }
        assert forall|i: int| 0 <= i < after.stack.len() implies {
            &&& (#[trigger] after.stack[i]).start_state_id < m.states.len()
            &&& after.stack[i].end_state_id < m.states.len()
            &&& m.states[after.stack[i].end_state_id as int].matched_token is None
        } by {
            if i < count - 1 {
                assert(after.stack[i] == b.stack[i]);
                assert(b.stack[i].end_state_id != b.stack[count - 1].end_state_id);
            }
        }
    }
    region
}

/// Alternating keeps the stack in shape; the new fragment stands for the
/// inputs of either fragment.
pub proof fn lemma_alternate(b: BuilderView, shape: Shape) -> (region: Set<StateId>)
    requires
        shaped(b, shape),
        b.stack.len() >= 2,
        b.nfa.states.len() + 2 <= usize::MAX,
    ensures
        shaped(
            b.alternate(),
            shape.drop_last().drop_last().push(
                region,
                either(shape.languages[b.stack.len() - 2], shape.languages[b.stack.len() - 1]),
            ),
        ),
        b.alternate().nfa.states.len() == b.nfa.states.len() + 2,
        b.alternate().nfa.fragments == b.nfa.fragments,
        region == (shape.regions[b.stack.len() - 2] + shape.regions[b.stack.len() - 1]).insert(
            b.fresh().start_state_id,
        ).insert(b.fresh().end_state_id),
        forall|x: int|
            0 <= x < b.nfa.states.len() && x != b.below_top().end_state_id && x
                != b.top().end_state_id ==> b.alternate().nfa.states[x] == b.nfa.states[x],
{
    let count = b.stack.len() as int;
    let first = b.below_top();
    let second = b.top();
    let first_region = shape.regions[count - 2];
    let second_region = shape.regions[count - 1];
    let first_language = shape.languages[count - 2];
    let second_language = shape.languages[count - 1];
    let new = b.fresh();
    let start = new.start_state_id;
    let end = new.end_state_id;
    let n = b.nfa;
    let after = b.alternate();
    let m = after.nfa;
    let language = either(first_language, second_language);
    let region = (first_region + second_region).insert(start).insert(end);
    let grown = shape.drop_last().drop_last().push(region, language);
    assert(b.stack[count - 2] == first && b.stack[count - 1] == second);
    assert(denotes(n, first, first_region, first_language));
    assert(denotes(n, second, second_region, second_language));
    assert(first.end_state_id != second.end_state_id);
    let n1 = n.with_state().with_state();
    let n2 = n1.with_empty(start, first.start_state_id);
    let n3 = n2.with_empty(start, second.start_state_id);
    let n4 = n3.with_empty(first.end_state_id, end);
    assert(n.with_state().wf());
    assert(n1.wf());
    assert(n2.wf());
    assert(n3.wf());
    assert(n4.wf());
    assert(m.wf());
    assert(m.grows(n));
    assert(m.states[end as int].transitions =~= Seq::empty());
    assert(m.states[start as int].transitions =~= seq![
        empty_to(first.start_state_id),
        empty_to(second.start_state_id),
    ]);
    assert(m.states[first.end_state_id as int].transitions =~= seq![empty_to(end)]);
    assert(m.states[second.end_state_id as int].transitions =~= seq![empty_to(end)]);
    assert forall|x: StateId| first_region.contains(x) || second_region.contains(x) implies x
        < n.states.len() by {
        assert(n.states[x as int].matched_token is None);
    }
    assert(cycles(m, n, first, first_region, end, false)) by {
        assert forall|x: StateId|
            first_region.contains(x) && x != first.end_state_id implies m.agrees(n, x) by {
            assert(!(first_region.contains(x) && second_region.contains(x)));
        }
        assert(m.states[first.end_state_id as int].transitions[0] == empty_to(end));
    }
    assert(cycles(m, n, second, second_region, end, false)) by {
        assert forall|x: StateId|
            second_region.contains(x) && x != second.end_state_id implies m.agrees(n, x) by {
            assert(!(first_region.contains(x) && second_region.contains(x)));
        }
        assert(m.states[second.end_state_id as int].transitions[0] == empty_to(end));
    }
    assert forall|k: int| 0 <= k < after.stack.len() implies denotes(
        m,
        #[trigger] after.stack[k],
        grown.regions[k],
        grown.languages[k],
    ) by {
        if k < count - 2 {
            assert(after.stack[k] == b.stack[k]);
            assert(denotes(n, b.stack[k], shape.regions[k], shape.languages[k]));
            assert forall|x: StateId| shape.regions[k].contains(x) implies m.states[x as int]
                == n.states[x as int] by {
                assert(!(shape.regions[k].contains(x) && first_region.contains(x)));
                assert(!(shape.regions[k].contains(x) && second_region.contains(x)));
                assert(n.states[x as int].matched_token is None);
            }
            lemma_denotes_frame(m, n, b.stack[k], shape.regions[k], shape.languages[k]);
        } else {
            assert(after.stack[k] == new);
            assert forall|x: StateId, t: int|
                region.contains(x) && 0 <= t < m.states[x as int].transitions.len() implies x
                < m.states.len() && region.contains(
                (#[trigger] m.states[x as int].transitions[t]).next_state_id,
            ) by {
                if x != first.end_state_id && x != second.end_state_id && x != start && x != end {
                    if first_region.contains(x) {
                        assert(first_region.contains(
                            n.states[x as int].transitions[t].next_state_id,
                        ));
                    } else {
                        assert(second_region.contains(
                            n.states[x as int].transitions[t].next_state_id,
                        ));
                    }
                }
            }
            assert forall|x: StateId| region.contains(x) implies x < m.states.len() && (
            #[trigger] m.states[x as int]).matched_token is None by {
                if first_region.contains(x) || second_region.contains(x) {
                    assert(n.states[x as int].matched_token is None);
                }
            }
            assert forall|input: Seq<u8>| #[trigger] m.walk(start, end, input) <==> language(
                input,
            ) by {
                if m.walk(start, end, input) {
                    let steps = choose|steps: nat| #[trigger] m.walks(start, end, input, steps);
                    let t = choose|t: int|
                        0 <= t < m.states[start as int].transitions.len() && #[trigger] m.passes(
                            start,
                            t,
                            input,
                        ) && m.walks(
                            m.target(start, t),
                            end,
                            m.rest(start, t, input),
                            (steps - 1) as nat,
                        );
                    if t == 0 {
                        lemma_cycle_forward(
                            m,
                            n,
                            first,
                            first_region,
                            first_language,
                            end,
                            false,
                            input,
                            (steps - 1) as nat,
                        );
                        lemma_repeated_once(first_language, input);
                    } else {
                        lemma_cycle_forward(
                            m,
                            n,
                            second,
                            second_region,
                            second_language,
                            end,
                            false,
                            input,
                            (steps - 1) as nat,
                        );
                        lemma_repeated_once(second_language, input);
                    }
                }
                if language(input) {
                    if first_language(input) {
                        lemma_repeated_once(first_language, input);
                        lemma_cycle_backward(
                            m,
                            n,
                            first,
                            first_region,
                            first_language,
                            end,
                            false,
                            input,
                            1,
                        );
                        let steps = choose|steps: nat|
                            #[trigger] m.walks(first.start_state_id, end, input, steps);
                        assert(m.passes(start, 0, input));
                        assert(m.walks(start, end, input, steps + 1));
                    } else {
                        lemma_repeated_once(second_language, input);
                        lemma_cycle_backward(
                            m,
                            n,
                            second,
                            second_region,
                            second_language,
                            end,
                            false,
                            input,
                            1,
                        );
                        let steps = choose|steps: nat|
                            #[trigger] m.walks(second.start_state_id, end, input, steps);
                        assert(m.passes(start, 1, input));
                        assert(m.walks(start, end, input, steps + 1));
                    }
                }
            }
        }
    }
    assert forall|k: int, l: int, x: StateId| 0 <= k < l < after.stack.len() implies !(
    #[trigger] grown.regions[k].contains(x) && #[trigger] grown.regions[l].contains(x)) by {
        assert(denotes(n, b.stack[k], shape.regions[k], shape.languages[k]));
        if shape.regions[k].contains(x) {
            assert(n.states[x as int].matched_token is None);
        }
        if l < count - 2 {
            assert(!(shape.regions[k].contains(x) && shape.regions[l].contains(x)));
        } else {
            assert(!(shape.regions[k].contains(x) && first_region.contains(x)));
            assert(!(shape.regions[k].contains(x) && second_region.contains(x)));
        }
    }
    assert(after.wf()) by {
        assert forall|i: int, j: int| 0 <= i < j < after.stack.len() implies (
        #[trigger] after.stack[i]).end_state_id != (#[trigger] after.stack[j]).end_state_id by {
            assert(b.stack[i].end_state_id < n.states.len());
        }
        assert forall|i: int| 0 <= i < after.stack.len() implies {
            &&& (#[trigger] after.stack[i]).start_state_id < m.states.len()
            &&& after.stack[i].end_state_id < m.states.len()
            &&& m.states[after.stack[i].end_state_id as int].matched_token is None
        } by {
            if i < count - 2 {
                assert(after.stack[i] == b.stack[i]);
                assert(b.stack[i].end_state_id != b.stack[count - 1].end_state_id);
                assert(b.stack[i].end_state_id != b.stack[count - 2].end_state_id);
            }
        }
    }
    region
}


/// Whether the states of `region` are those from `from` up to `to`.
pub open spec fn fresh_region(region: Set<StateId>, from: int, to: int) -> bool {
    forall|x: StateId| region.contains(x) <==> from <= x < to
}

/// Whether the builder `after` came from `b` by putting one fragment on
/// the stack, made of new states, that stands for `language`.
pub open spec fn pushed(
    after: BuilderView,
    b: BuilderView,
    shape: Shape,
    region: Set<StateId>,
    language: Language,
) -> bool {
    &&& shaped(after, shape.push(region, language))
    &&& after.stack.drop_last() == b.stack
    &&& after.nfa.fragments == b.nfa.fragments
    &&& b.nfa.states.len() <= after.nfa.states.len()
    &&& fresh_region(region, b.nfa.states.len() as int, after.nfa.states.len() as int)
    &&& forall|x: int| 0 <= x < b.nfa.states.len() ==> after.nfa.states[x] == b.nfa.states[x]
}

/// A literal keeps the stack in shape; the new fragment stands for its bytes.
pub proof fn lemma_literal(b: BuilderView, shape: Shape, bytes: Seq<u8>) -> (region: Set<StateId>)
    requires
        shaped(b, shape),
        bytes.len() >= 1,
        b.nfa.states.len() + 2 * bytes.len() <= usize::MAX,
    ensures
        pushed(b.literal(bytes), b, shape, region, exactly(bytes)),
        b.literal(bytes).nfa.states.len() == b.nfa.states.len() + 2 * bytes.len(),
    decreases bytes.len(),
{
    let last = ByteRange { start: bytes.last(), end: bytes.last() };
    if bytes.len() == 1 {
        let region = lemma_byte_range(b, shape, last);
        let after = b.byte_range(last);
        assert(after.stack.drop_last() =~= b.stack);
        let grown = shape.push(region, one_of(last));
        assert(grown.regions[b.stack.len() as int] == region);
        assert(denotes(after.nfa, after.stack[b.stack.len() as int], region, one_of(last)));
        assert forall|input: Seq<u8>| #[trigger] one_of(last)(input) == exactly(bytes)(input) by {
            if one_of(last)(input) {
                assert(input =~= bytes);
            }
        }
        lemma_denotes_same(
            after.nfa,
            after.stack[b.stack.len() as int],
            region,
            one_of(last),
            exactly(bytes),
        );
        lemma_relabel(after, shape, region, one_of(last), exactly(bytes));
        region
    } else {
        let front = bytes.drop_last();
        let front_region = lemma_literal(b, shape, front);
        let b1 = b.literal(front);
        let shape1 = shape.push(front_region, exactly(front));
        let last_region = lemma_byte_range(b1, shape1, last);
        let b2 = b1.byte_range(last);
        let shape2 = shape1.push(last_region, one_of(last));
        let region = lemma_concatenate(b2, shape2);
        let after = b2.concatenate();
        let count = b.stack.len() as int;
        assert(b2.stack.len() == count + 2);
        assert(shape2.languages[count] == exactly(front));
        assert(shape2.languages[count + 1] == one_of(last));
        assert(shape2.regions[count] == front_region);
        assert(shape2.regions[count + 1] == last_region);
        let language = followed(exactly(front), one_of(last));
        assert(shape2.drop_last().drop_last().regions =~= shape.regions);
        assert(shape2.drop_last().drop_last().languages =~= shape.languages);
        assert(shape2.drop_last().drop_last() == shape);
        assert(b1.stack.drop_last() == b.stack);
        assert(b2.stack.drop_last() =~= b1.stack);
        assert(after.stack.drop_last() =~= b.stack);
        assert forall|input: Seq<u8>| #[trigger] language(input) == exactly(bytes)(input) by {
            if language(input) {
                let k = choose|k: int|
                    0 <= k <= input.len() && #[trigger] exactly(front)(input.take(k)) && one_of(
                        last,
                    )(input.skip(k));
                assert(input =~= input.take(k) + input.skip(k));
                assert(input =~= bytes);
            }
            if input == bytes {
                let k = front.len() as int;
                assert(input.take(k) =~= front);
                assert(exactly(front)(input.take(k)));
                assert(splits(exactly(front), one_of(last), input));
            }
        }
        lemma_relabel(after, shape, region, language, exactly(bytes));
        assert(b1.stack[count].end_state_id >= b.nfa.states.len()) by {
            assert(denotes(b1.nfa, b1.stack[count], shape1.regions[count], shape1.languages[count]));
        }
        assert(b2.below_top() == b1.stack[count]) by {
            assert(b2.stack[count] == b2.stack.drop_last()[count]);
        }
        region
    }
}

/// A stack in shape is in shape under any language with the inputs of
/// that of the top.
pub proof fn lemma_relabel(
    after: BuilderView,
    shape: Shape,
    region: Set<StateId>,
    language: Language,
    other: Language,
)
    requires
        shaped(after, shape.push(region, language)),
        forall|input: Seq<u8>| #[trigger] language(input) == other(input),
    ensures
        shaped(after, shape.push(region, other)),
{
    let before = shape.push(region, language);
    let renamed = shape.push(region, other);
    let top = shape.regions.len() as int;
    assert forall|k: int| 0 <= k < after.stack.len() implies denotes(
        after.nfa,
        #[trigger] after.stack[k],
        renamed.regions[k],
        renamed.languages[k],
    ) by {
        assert(denotes(after.nfa, after.stack[k], before.regions[k], before.languages[k]));
        if k == top {
            lemma_denotes_same(after.nfa, after.stack[k], region, language, other);
        }
    }
    assert forall|k: int, l: int, x: StateId| 0 <= k < l < after.stack.len() implies !(
    #[trigger] renamed.regions[k].contains(x) && #[trigger] renamed.regions[l].contains(x)) by {
        assert(!(before.regions[k].contains(x) && before.regions[l].contains(x)));
    }
}


/// A literal never makes the automaton smaller.
pub proof fn lemma_literal_len(b: BuilderView, bytes: Seq<u8>)
    ensures
        b.literal(bytes).nfa.states.len() >= b.nfa.states.len(),
        bytes.len() >= 1 ==> b.literal(bytes).nfa.states.len() >= b.nfa.states.len() + 2,
    decreases bytes.len(),
{
    if bytes.len() > 1 {
        lemma_literal_len(b, bytes.drop_last());
    }
}

/// A combinator never makes the automaton smaller.
pub proof fn lemma_apply_len(b: BuilderView, op: BuildOp)
    ensures
        b.apply(op).nfa.states.len() >= b.nfa.states.len(),
        op is ZeroOrOne || op is OneOrMore || op is ZeroOrMore || op is Alternate ==> b.apply(
            op,
        ).nfa.states.len() == b.nfa.states.len() + 2,
{
    match op {
        BuildOp::Char(ch) => {
            lemma_literal_len(b, encode_scalar(ch as u32));
        },
        _ => {},
    }
}

/// Combinators never make the automaton smaller.
pub proof fn lemma_run_len(b: BuilderView, ops: Seq<BuildOp>)
    ensures
        b.run(ops).nfa.states.len() >= b.nfa.states.len(),
    decreases ops.len(),
{
    if ops.len() > 0 {
        lemma_run_len(b, ops.drop_last());
        lemma_apply_len(b.run(ops.drop_last()), ops.last());
    }
}

/// Running two sequences of combinators in turn is running both at once.
pub proof fn lemma_run_add(b: BuilderView, first: Seq<BuildOp>, second: Seq<BuildOp>)
    ensures
        b.run(first + second) == b.run(first).run(second),
    decreases second.len(),
{
    if second.len() == 0 {
        assert(first + second =~= first);
    } else {
        assert((first + second).drop_last() =~= first + second.drop_last());
        assert((first + second).last() == second.last());
        lemma_run_add(b, first, second.drop_last());
    }
}

/// The encoding of a character has at least one byte.
pub proof fn lemma_encoded(ch: char)
    ensures
        1 <= encode_scalar(ch as u32).len() <= 4,
{
}

/// The combinators of a tree put one fragment on the stack, which stands
/// for the language of the tree.
pub proof fn lemma_tree(b: BuilderView, shape: Shape, tree: Regex) -> (region: Set<StateId>)
    requires
        shaped(b, shape),
        b.run(tree.flatten()).nfa.states.len() <= usize::MAX,
    ensures
        pushed(b.run(tree.flatten()), b, shape, region, tree.language()),
    decreases tree, 0nat,
{
    let count = b.stack.len() as int;
    match tree {
        Regex::Char(ch) => {
            let bytes = encode_scalar(ch as u32);
            let ops = seq![BuildOp::Char(ch)];
            assert(ops.drop_last() =~= Seq::empty());
            assert(b.run(ops) == b.run(Seq::empty()).apply(BuildOp::Char(ch)));
            assert(b.run(ops) == b.literal(bytes));
            lemma_encoded(ch);
            lemma_literal_count(b, bytes);
            lemma_literal(b, shape, bytes)
        },
        Regex::ZeroOrOne(inner) => {
            lemma_unary(b, shape, *inner, BuildOp::ZeroOrOne, true, false)
        },
        Regex::OneOrMore(inner) => {
            lemma_unary(b, shape, *inner, BuildOp::OneOrMore, false, true)
        },
        Regex::ZeroOrMore(inner) => {
            lemma_unary(b, shape, *inner, BuildOp::ZeroOrMore, true, true)
        },
        Regex::Concatenate(first, second) => {
            let ops = first.flatten() + second.flatten();
            b.lemma_run_push(ops, BuildOp::Concatenate);
            lemma_run_add(b, first.flatten(), second.flatten());
            let b1 = b.run(first.flatten());
            let b2 = b1.run(second.flatten());
            lemma_apply_len(b2, BuildOp::Concatenate);
            lemma_run_len(b1, second.flatten());
            let first_region = lemma_tree(b, shape, *first);
            let shape1 = shape.push(first_region, first.language());
            let second_region = lemma_tree(b1, shape1, *second);
            let shape2 = shape1.push(second_region, second.language());
            let region = lemma_concatenate(b2, shape2);
            let after = b2.concatenate();
            assert(b2.stack.len() == count + 2);
            assert(shape2.drop_last().drop_last().regions =~= shape.regions);
            assert(shape2.drop_last().drop_last().languages =~= shape.languages);
            assert(shape2.drop_last().drop_last() == shape);
            assert(b2.stack.drop_last() == b1.stack);
            assert(after.stack.drop_last() =~= b.stack);
            assert(b2.below_top() == b1.stack[count]) by {
                assert(b2.stack[count] == b2.stack.drop_last()[count]);
            }
            assert(b1.stack[count].end_state_id >= b.nfa.states.len()) by {
                assert(denotes(
                    b1.nfa,
                    b1.stack[count],
                    shape1.regions[count],
                    shape1.languages[count],
                ));
            }
            region
        },
        Regex::Alternate(first, second) => {
            let ops = first.flatten() + second.flatten();
            b.lemma_run_push(ops, BuildOp::Alternate);
            lemma_run_add(b, first.flatten(), second.flatten());
            let b1 = b.run(first.flatten());
            let b2 = b1.run(second.flatten());
            lemma_apply_len(b2, BuildOp::Alternate);
            lemma_run_len(b1, second.flatten());
            let first_region = lemma_tree(b, shape, *first);
            let shape1 = shape.push(first_region, first.language());
            let second_region = lemma_tree(b1, shape1, *second);
            let shape2 = shape1.push(second_region, second.language());
            let region = lemma_alternate(b2, shape2);
            let after = b2.alternate();
            assert(b2.stack.len() == count + 2);
            assert(shape2.drop_last().drop_last().regions =~= shape.regions);
            assert(shape2.drop_last().drop_last().languages =~= shape.languages);
            assert(shape2.drop_last().drop_last() == shape);
            assert(b2.stack.drop_last() == b1.stack);
            assert(after.stack.drop_last() =~= b.stack);
            assert(b2.below_top() == b1.stack[count]) by {
                assert(b2.stack[count] == b2.stack.drop_last()[count]);
            }
            assert(b1.stack[count].end_state_id >= b.nfa.states.len()) by {
                assert(denotes(
                    b1.nfa,
                    b1.stack[count],
                    shape1.regions[count],
                    shape1.languages[count],
                ));
            }
            assert(b2.top().end_state_id >= b.nfa.states.len()) by {
                assert(denotes(
                    b2.nfa,
                    b2.stack[count + 1],
                    shape2.regions[count + 1],
                    shape2.languages[count + 1],
                ));
            }
            region
        },
    }
}

/// A literal adds two states for each byte.
pub proof fn lemma_literal_count(b: BuilderView, bytes: Seq<u8>)
    ensures
        b.literal(bytes).nfa.states.len() == b.nfa.states.len() + 2 * bytes.len(),
    decreases bytes.len(),
{
    if bytes.len() > 1 {
        lemma_literal_count(b, bytes.drop_last());
    }
}

/// The combinators of a tree under a quantifier put one fragment on the
/// stack, which stands for the language of the tree under the quantifier.
pub proof fn lemma_unary(
    b: BuilderView,
    shape: Shape,
    inner: Regex,
    op: BuildOp,
    skip: bool,
    again: bool,
) -> (region: Set<StateId>)
    requires
        shaped(b, shape),
        b.run(inner.flatten().push(op)).nfa.states.len() <= usize::MAX,
        (op == BuildOp::ZeroOrOne && skip && !again) || (op == BuildOp::OneOrMore && !skip
            && again) || (op == BuildOp::ZeroOrMore && skip && again),
    ensures
        pushed(
            b.run(inner.flatten().push(op)),
            b,
            shape,
            region,
            wrapping(inner.language(), skip, again),
        ),
    decreases inner, 1nat,
{
    let count = b.stack.len() as int;
    b.lemma_run_push(inner.flatten(), op);
    let b1 = b.run(inner.flatten());
    lemma_apply_len(b1, op);
    let inner_region = lemma_tree(b, shape, inner);
    let shape1 = shape.push(inner_region, inner.language());
    assert(b1.apply(op) == wrapped(b1, skip, again));
    let region = lemma_wrapped(b1, shape1, skip, again);
    let after = wrapped(b1, skip, again);
    assert(shape1.drop_last().regions =~= shape.regions);
    assert(shape1.drop_last().languages =~= shape.languages);
    assert(shape1.drop_last() == shape);
    assert(after.stack.drop_last() =~= b.stack);
    assert(b1.top().end_state_id >= b.nfa.states.len()) by {
        assert(denotes(b1.nfa, b1.stack[count], shape1.regions[count], shape1.languages[count]));
    }
    region
}


/// A pattern: its tree, and the token that it reports.
pub struct Pattern {
    pub tree: Regex,
    pub token: usize,
}

/// Whether `fragment` is the automaton of a finished pattern: its walks
/// from start to end consume the inputs of `language`; the states of
/// `region` lead nowhere else; and only its end reports a token, `token`.
pub open spec fn sealed(
    nfa: NfaView,
    fragment: Fragment,
    region: Set<StateId>,
    language: Language,
    token: usize,
) -> bool {
    &&& region.contains(fragment.start_state_id)
    &&& region.contains(fragment.end_state_id)
    &&& nfa.confines(region)
    &&& forall|x: StateId|
        region.contains(x) ==> x < nfa.states.len() && ((
        #[trigger] nfa.states[x as int]).matched_token is Some ==> x == fragment.end_state_id)
    &&& nfa.states[fragment.end_state_id as int].matched_token == Some(token)
    &&& forall|input: Seq<u8>|
        #[trigger] nfa.walk(fragment.start_state_id, fragment.end_state_id, input) <==> language(
            input,
        )
}

/// Whether fragment `k` of `nfa` is the automaton of `pattern`.
pub open spec fn holds(nfa: NfaView, k: int, pattern: Pattern) -> bool {
    exists|region: Set<StateId>|
        #[trigger] sealed(nfa, nfa.fragments[k], region, pattern.tree.language(), pattern.token)
}

/// Whether state `x` is the end of a pattern.
pub open spec fn is_end(nfa: NfaView, x: int) -> bool {
    exists|k: int| 0 <= k < nfa.fragments.len() && (#[trigger] nfa.fragments[k]).end_state_id == x
}

/// Whether the fragments of `nfa` are the automata of `patterns`, in this
/// order: each ends after those before it, and only their ends report tokens.
pub open spec fn recognizes(nfa: NfaView, patterns: Seq<Pattern>) -> bool {
    &&& nfa.wf()
    &&& nfa.fragments.len() == patterns.len()
    &&& forall|k: int| 0 <= k < patterns.len() ==> holds(nfa, k, #[trigger] patterns[k])
    &&& forall|k: int, l: int|
        0 <= k < l < nfa.fragments.len() ==> (#[trigger] nfa.fragments[k]).end_state_id < (
        #[trigger] nfa.fragments[l]).end_state_id
    &&& forall|x: int|
        0 <= x < nfa.states.len() && (#[trigger] nfa.states[x]).matched_token is Some ==> is_end(
            nfa,
            x,
        )
}

/// Whether a pattern that reports `token` matches `input`.
pub open spec fn matched(patterns: Seq<Pattern>, input: Seq<u8>, token: usize) -> bool {
    exists|k: int|
        0 <= k < patterns.len() && (#[trigger] patterns[k]).token == token
            && patterns[k].tree.matches(input)
}

/// A finished pattern stays what it is when the automaton grows without
/// touching its region.
pub proof fn lemma_sealed_frame(
    grown: NfaView,
    nfa: NfaView,
    fragment: Fragment,
    region: Set<StateId>,
    language: Language,
    token: usize,
)
    requires
        sealed(nfa, fragment, region, language, token),
        grown.grows(nfa),
        forall|x: StateId| region.contains(x) ==> grown.states[x as int] == nfa.states[x as int],
    ensures
        sealed(grown, fragment, region, language, token),
{
    assert forall|x: StateId| region.contains(x) implies grown.agrees(nfa, x) by {
        assert(nfa.states[x as int].matched_token is Some ==> x == fragment.end_state_id);
    }
    assert forall|input: Seq<u8>|
        #[trigger] grown.walk(fragment.start_state_id, fragment.end_state_id, input)
            <==> language(input) by {
        if grown.walk(fragment.start_state_id, fragment.end_state_id, input) {
            let steps = choose|steps: nat|
                #[trigger] grown.walks(
                    fragment.start_state_id,
                    fragment.end_state_id,
                    input,
                    steps,
                );
            grown.lemma_walks_confined(
                nfa,
                region,
                fragment.start_state_id,
                fragment.end_state_id,
                input,
                steps,
            );
            assert(nfa.walk(fragment.start_state_id, fragment.end_state_id, input));
        }
        if language(input) {
            assert(nfa.walk(fragment.start_state_id, fragment.end_state_id, input));
            let steps = choose|steps: nat|
                #[trigger] nfa.walks(fragment.start_state_id, fragment.end_state_id, input, steps);
            grown.lemma_walks_grow(
                nfa,
                fragment.start_state_id,
                fragment.end_state_id,
                input,
                steps,
            );
        }
    }
    assert forall|x: StateId, t: int|
        region.contains(x) && 0 <= t < grown.states[x as int].transitions.len() implies x
        < grown.states.len() && region.contains(
        (#[trigger] grown.states[x as int].transitions[t]).next_state_id,
    ) by {
        assert(grown.agrees(nfa, x));
        assert(region.contains(nfa.states[x as int].transitions[t].next_state_id));
    }
    assert forall|x: StateId| region.contains(x) implies x < grown.states.len() && ((
    #[trigger] grown.states[x as int]).matched_token is Some ==> x
        == fragment.end_state_id) by {
        assert(nfa.states[x as int].matched_token is Some ==> x == fragment.end_state_id);
    }
}

/// The patterns stay recognized when states are added to the automaton.
pub proof fn lemma_retained(grown: NfaView, nfa: NfaView, patterns: Seq<Pattern>)
    requires
        recognizes(nfa, patterns),
        grown.wf(),
        grown.fragments == nfa.fragments,
        nfa.states.is_prefix_of(grown.states),
        grown.quiet_from(nfa.states.len() as int),
    ensures
        recognizes(grown, patterns),
{
    assert forall|x: int|
        0 <= x < grown.states.len() && (#[trigger] grown.states[x]).matched_token is Some implies is_end(
        grown,
        x,
    ) by {
        assert(grown.states[x] == nfa.states[x]);
        assert(is_end(nfa, x));
    }
    assert(grown.grows(nfa)) by {
        assert forall|x: int| 0 <= x < nfa.states.len() implies (
        #[trigger] nfa.states[x]).transitions.is_prefix_of(grown.states[x].transitions) by {
            assert(grown.states[x] == nfa.states[x]);
        }
    }
    assert forall|k: int| 0 <= k < patterns.len() implies holds(
        grown,
        k,
        #[trigger] patterns[k],
    ) by {
        assert(holds(nfa, k, patterns[k]));
        let region = choose|region: Set<StateId>|
            #[trigger] sealed(
                nfa,
                nfa.fragments[k],
                region,
                patterns[k].tree.language(),
                patterns[k].token,
            );
        assert forall|x: StateId| region.contains(x) implies grown.states[x as int]
            == nfa.states[x as int] by {
            assert(nfa.states[x as int].matched_token is Some ==> x
                == nfa.fragments[k].end_state_id);
        }
        lemma_sealed_frame(
            grown,
            nfa,
            nfa.fragments[k],
            region,
            patterns[k].tree.language(),
            patterns[k].token,
        );
    }
}

/// Adding the automaton of a tree under a token adds its pattern to
/// those that the automaton recognizes.
pub proof fn lemma_compiled(nfa: NfaView, patterns: Seq<Pattern>, tree: Regex, token: usize)
    requires
        recognizes(nfa, patterns),
        token < usize::MAX,
        compiled(nfa, tree, token).states.len() <= usize::MAX,
    ensures
        recognizes(compiled(nfa, tree, token), patterns.push(Pattern { tree, token })),
{
    let b0 = BuilderView { nfa, stack: Seq::empty() };
    let none = Shape { regions: Seq::empty(), languages: Seq::empty() };
    let b1 = b0.run(tree.flatten());
    let after = b1.accept(token);
    let grown = after.nfa;
    let longer = patterns.push(Pattern { tree, token });
    assert(grown == compiled(nfa, tree, token));
    assert(shaped(b0, none));
    assert(grown.states.len() == b1.nfa.states.len());
    let region = lemma_tree(b0, none, tree);
    let top = b1.top();
    let language = tree.language();
    assert(b1.stack.len() == 1);
    assert(none.push(region, language).regions[0] == region);
    assert(none.push(region, language).languages[0] == language);
    assert(denotes(b1.nfa, b1.stack[0], region, language));
    assert(region.contains(top.end_state_id));
    assert(top.end_state_id >= nfa.states.len());
    assert(grown.wf());
    assert(grown.grows(b1.nfa));
    assert(b1.nfa.grows(grown));
    assert(b1.nfa.grows(nfa));
    assert(grown.grows(nfa));
    assert(sealed(grown, top, region, language, token)) by {
        assert forall|input: Seq<u8>|
            #[trigger] grown.walk(top.start_state_id, top.end_state_id, input) <==> language(
                input,
            ) by {
            if grown.walk(top.start_state_id, top.end_state_id, input) {
                let steps = choose|steps: nat|
                    #[trigger] grown.walks(top.start_state_id, top.end_state_id, input, steps);
                b1.nfa.lemma_walks_grow(
                    grown,
                    top.start_state_id,
                    top.end_state_id,
                    input,
                    steps,
                );
                assert(b1.nfa.walk(top.start_state_id, top.end_state_id, input));
            }
            if language(input) {
                assert(b1.nfa.walk(top.start_state_id, top.end_state_id, input));
                let steps = choose|steps: nat|
                    #[trigger] b1.nfa.walks(top.start_state_id, top.end_state_id, input, steps);
                grown.lemma_walks_grow(
                    b1.nfa,
                    top.start_state_id,
                    top.end_state_id,
                    input,
                    steps,
                );
            }
        }
        assert forall|x: StateId, t: int|
            region.contains(x) && 0 <= t < grown.states[x as int].transitions.len() implies x
            < grown.states.len() && region.contains(
            (#[trigger] grown.states[x as int].transitions[t]).next_state_id,
        ) by {
            assert(b1.nfa.states[x as int].matched_token is None);
            assert(region.contains(b1.nfa.states[x as int].transitions[t].next_state_id));
        }
        assert forall|x: StateId| region.contains(x) implies x < grown.states.len() && ((
        #[trigger] grown.states[x as int]).matched_token is Some ==> x == top.end_state_id) by {
            assert(b1.nfa.states[x as int].matched_token is None);
        }
    }
    assert forall|k: int, l: int| 0 <= k < l < grown.fragments.len() implies (
    #[trigger] grown.fragments[k]).end_state_id < (#[trigger] grown.fragments[l]).end_state_id by {
        assert(grown.fragments[k] == nfa.fragments[k]);
        if l < nfa.fragments.len() {
            assert(grown.fragments[l] == nfa.fragments[l]);
        } else {
            assert(grown.fragments[l] == top);
        }
    }
    assert forall|x: int|
        0 <= x < grown.states.len() && (#[trigger] grown.states[x]).matched_token is Some implies is_end(
        grown,
        x,
    ) by {
        if x < nfa.states.len() {
            assert(b1.nfa.states[x] == nfa.states[x]);
            assert(grown.states[x] == nfa.states[x]);
            assert(is_end(nfa, x));
            let k = choose|k: int|
                0 <= k < nfa.fragments.len() && (#[trigger] nfa.fragments[k]).end_state_id == x;
            assert(grown.fragments[k] == nfa.fragments[k]);
        } else {
            assert(region.contains(x as usize));
            assert(b1.nfa.states[x].matched_token is None);
            assert(grown.fragments[patterns.len() as int] == top);
        }
    }
    assert forall|k: int| 0 <= k < longer.len() implies holds(grown, k, #[trigger] longer[k]) by {
        if k < patterns.len() {
            assert(holds(nfa, k, patterns[k]));
            let old_region = choose|region: Set<StateId>|
                #[trigger] sealed(
                    nfa,
                    nfa.fragments[k],
                    region,
                    patterns[k].tree.language(),
                    patterns[k].token,
                );
            assert forall|x: StateId| old_region.contains(x) implies grown.states[x as int]
                == nfa.states[x as int] by {
                assert(nfa.states[x as int].matched_token is Some ==> x
                    == nfa.fragments[k].end_state_id);
                assert(b1.nfa.states[x as int] == nfa.states[x as int]);
            }
            lemma_sealed_frame(
                grown,
                nfa,
                nfa.fragments[k],
                old_region,
                patterns[k].tree.language(),
                patterns[k].token,
            );
            assert(grown.fragments[k] == nfa.fragments[k]);
            assert(longer[k] == patterns[k]);
            assert(sealed(
                grown,
                grown.fragments[k],
                old_region,
                longer[k].tree.language(),
                longer[k].token,
            ));
        } else {
            assert(grown.fragments[k] == top);
            assert(longer[k] == (Pattern { tree, token }));
            assert(sealed(
                grown,
                grown.fragments[k],
                region,
                longer[k].tree.language(),
                longer[k].token,
            ));
        }
    }
}

impl NfaView {
    /// What a state reaches without consuming input, it reaches by a walk
    /// that consumes nothing.
    pub proof fn lemma_path_walks(self, path: Seq<StateId>)
        requires
            self.empty_path(path),
        ensures
            self.walks(path[0], path.last(), Seq::empty(), (path.len() - 1) as nat),
        decreases path.len(),
    {
        if path.len() > 1 {
            self.lemma_path_suffix(path, 1);
            self.lemma_path_walks(path.skip(1));
            assert(self.empty_edge(path[0int], path[0int + 1]));
            let p = path[0];
            let t = choose|t: int|
                0 <= t < self.states[p as int].transitions.len() && (
                #[trigger] self.states[p as int].transitions[t]) == (Transition {
                    byte_range: None,
                    next_state_id: path[1],
                });
            assert(self.passes(p, t, Seq::empty()));
            assert(path.skip(1).len() - 1 == path.len() - 2);
        }
    }

    /// What is reached from a closure without consuming input is in the closure.
    pub proof fn lemma_closure_closed(self, seeds: Set<StateId>)
        ensures
            self.closed(self.closure(seeds)),
    {
        assert forall|p: StateId, q: StateId|
            self.closure(seeds).contains(p) && #[trigger] self.empty_edge(
                p,
                q,
            ) implies self.closure(seeds).contains(q) by {
            let seed = choose|seed: StateId| seeds.contains(seed) && self.empty_reach(seed, p);
            let path = seq![p, q];
            assert(self.empty_path(path));
            assert(path[0] == p && path.last() == q);
            self.lemma_reach_trans(seed, p, q);
        }
    }

    /// The states in which the automaton can be after an input are closed.
    pub proof fn lemma_reach_closed(self, input: Seq<u8>)
        ensures
            self.closed(self.reach(input)),
    {
        if input.len() == 0 {
            self.lemma_closure_closed(self.starts());
        } else {
            self.lemma_closure_closed(self.step(self.reach(input.drop_last()), input.last()));
        }
    }

    /// A walk from a state in which the automaton can be leads to a state
    /// in which it can be after the input of the walk.
    pub proof fn lemma_walk_reach(
        self,
        before: Seq<u8>,
        p: StateId,
        q: StateId,
        input: Seq<u8>,
        steps: nat,
    )
        requires
            self.reach(before).contains(p),
            self.walks(p, q, input, steps),
        ensures
            self.reach(before + input).contains(q),
        decreases steps,
    {
        if steps == 0 {
            assert(before + input =~= before);
        } else {
            let t = choose|t: int|
                0 <= t < self.states[p as int].transitions.len() && #[trigger] self.passes(
                    p,
                    t,
                    input,
                ) && self.walks(self.target(p, t), q, self.rest(p, t, input), (steps - 1) as nat);
            let r = self.target(p, t);
            let transition = self.states[p as int].transitions[t];
            match transition.byte_range {
                None => {
                    assert(transition == (Transition { byte_range: None, next_state_id: r }));
                    assert(self.empty_edge(p, r));
                    self.lemma_reach_closed(before);
                    self.lemma_walk_reach(before, r, q, input, (steps - 1) as nat);
                },
                Some(range) => {
                    let byte = input[0];
                    assert(transition.consumes(byte));
                    assert(self.byte_edge(p, byte, r));
                    let longer = before.push(byte);
                    assert(longer.drop_last() =~= before);
                    assert(longer.last() == byte);
                    assert(self.step(self.reach(before), byte).contains(r));
                    self.lemma_reach_refl(r);
                    assert(self.reach(longer).contains(r));
                    self.lemma_walk_reach(longer, r, q, input.drop_first(), (steps - 1) as nat);
                    assert(longer + input.drop_first() =~= before + input);
                },
            }
        }
    }

    /// A state in which the automaton can be after an input is reached by
    /// a walk from the start of a pattern that consumes the input.
    pub proof fn lemma_reach_walk(self, input: Seq<u8>, q: StateId) -> (found: (int, nat))
        requires
            self.reach(input).contains(q),
        ensures
            0 <= found.0 < self.fragments.len(),
            self.walks(self.fragments[found.0].start_state_id, q, input, found.1),
        decreases input.len(),
    {
        if input.len() == 0 {
            let p = choose|p: StateId| self.starts().contains(p) && self.empty_reach(p, q);
            let k = choose|k: int|
                0 <= k < self.fragments.len() && (#[trigger] self.fragments[k]).start_state_id
                    == p;
            let path = choose|path: Seq<StateId>|
                #[trigger] self.empty_path(path) && path[0] == p && path.last() == q;
            self.lemma_path_walks(path);
            assert(input =~= Seq::empty());
            (k, (path.len() - 1) as nat)
        } else {
            let before = input.drop_last();
            let byte = input.last();
            let r = choose|r: StateId|
                self.step(self.reach(before), byte).contains(r) && self.empty_reach(r, q);
            let p = choose|p: StateId|
                self.reach(before).contains(p) && self.byte_edge(p, byte, r);
            let (k, steps) = self.lemma_reach_walk(before, p);
            let t = choose|t: int|
                0 <= t < self.states[p as int].transitions.len() && (
                #[trigger] self.states[p as int].transitions[t]).consumes(byte)
                    && self.states[p as int].transitions[t].next_state_id == r;
            let one = seq![byte];
            assert(self.passes(p, t, one));
            assert(one.drop_first() =~= Seq::empty());
            assert(self.walks(r, r, one.drop_first(), 0));
            assert(self.walks(p, r, one, 1));
            let path = choose|path: Seq<StateId>|
                #[trigger] self.empty_path(path) && path[0] == r && path.last() == q;
            self.lemma_path_walks(path);
            self.lemma_walks_append(p, r, q, one, Seq::empty(), 1, (path.len() - 1) as nat);
            assert(one + Seq::<u8>::empty() =~= one);
            let start = self.fragments[k].start_state_id;
            self.lemma_walks_append(start, p, q, before, one, steps, (1 + path.len() - 1) as nat);
            assert(before + one =~= input);
            (k, (steps + 1 + path.len() - 1) as nat)
        }
    }
}

/// After an input that a pattern matches, an automaton that recognizes
/// the pattern can be in its end state, which reports its token.
pub proof fn lemma_match_reaches(nfa: NfaView, patterns: Seq<Pattern>, k: int, input: Seq<u8>)
    requires
        recognizes(nfa, patterns),
        0 <= k < patterns.len(),
        patterns[k].tree.matches(input),
    ensures
        nfa.reach(input).contains(nfa.fragments[k].end_state_id),
        nfa.reports(nfa.fragments[k].end_state_id, patterns[k].token),
{
    let fragment = nfa.fragments[k];
    assert(holds(nfa, k, patterns[k]));
    let region = choose|region: Set<StateId>|
        #[trigger] sealed(
            nfa,
            nfa.fragments[k],
            region,
            patterns[k].tree.language(),
            patterns[k].token,
        );
    assert(nfa.walk(fragment.start_state_id, fragment.end_state_id, input));
    let steps = choose|steps: nat|
        #[trigger] nfa.walks(fragment.start_state_id, fragment.end_state_id, input, steps);
    assert(nfa.starts().contains(fragment.start_state_id));
    nfa.lemma_reach_refl(fragment.start_state_id);
    assert(nfa.reach(Seq::empty()).contains(fragment.start_state_id));
    nfa.lemma_walk_reach(
        Seq::empty(),
        fragment.start_state_id,
        fragment.end_state_id,
        input,
        steps,
    );
    assert(Seq::<u8>::empty() + input =~= input);
}

/// An automaton that recognizes patterns can report a token after an
/// input if and only if a pattern that reports the token matches the input.
pub proof fn lemma_recognized(nfa: NfaView, patterns: Seq<Pattern>, input: Seq<u8>, token: usize)
    requires
        recognizes(nfa, patterns),
    ensures
        nfa.accepts(input, token) <==> matched(patterns, input, token),
{
    if nfa.accepts(input, token) {
        let q = choose|q: StateId| nfa.reach(input).contains(q) && nfa.reports(q, token);
        let (k, steps) = nfa.lemma_reach_walk(input, q);
        let fragment = nfa.fragments[k];
        assert(holds(nfa, k, patterns[k]));
        let region = choose|region: Set<StateId>|
            #[trigger] sealed(
                nfa,
                nfa.fragments[k],
                region,
                patterns[k].tree.language(),
                patterns[k].token,
            );
        assert forall|x: StateId| region.contains(x) implies nfa.agrees(nfa, x) by {
            assert(nfa.states[x as int].matched_token is Some ==> x == fragment.end_state_id);
        }
        nfa.lemma_walks_confined(nfa, region, fragment.start_state_id, q, input, steps);
        assert(nfa.states[q as int].matched_token is Some ==> q == fragment.end_state_id);
        assert(nfa.walk(fragment.start_state_id, fragment.end_state_id, input));
        assert(patterns[k].tree.matches(input));
    }
    if matched(patterns, input, token) {
        let k = choose|k: int|
            0 <= k < patterns.len() && (#[trigger] patterns[k]).token == token
                && patterns[k].tree.matches(input);
        lemma_match_reaches(nfa, patterns, k, input);
    }
}

} // verus!
