//! Merging the states of a deterministic automaton that no input tells apart.

use crate::counting::{below, increasing};
use crate::dfa::{dead_state_id, start_state_id, Dfa, DfaView, StateId};
use crate::sparse_set::lemma_distinct_bounded_len;
use crate::vec_set::{difference_of, intersection_of, lemma_filter_increasing, VecSet};
use vstd::prelude::*;

verus! {

pub type PartitionId = usize;

/// The states of `dfa` sorted into blocks: `blocks` lists the members of
/// each block, and `owner` gives the block of each state.
pub struct Refinement {
    pub dfa: DfaView,
    pub blocks: Seq<Seq<StateId>>,
    pub owner: Seq<PartitionId>,
}

/// The blocks that still have to be used to split the others.
pub struct Pending {
    /// The blocks that wait.
    pub worklist: Seq<PartitionId>,
    /// The block in use, for the bytes from `from` on.
    pub current: PartitionId,
    pub from: int,
    /// The members that the block in use had when its turn for byte `at` came.
    pub splitter: Seq<StateId>,
    pub at: int,
}

impl Refinement {
    pub open spec fn state_count(self) -> int {
        self.dfa.tokens.len() as int
    }

    /// Whether `s` is a state.
    pub open spec fn has(self, s: int) -> bool {
        0 <= s < self.owner.len()
    }

    /// Every state is in exactly one block, no block is empty, and the
    /// states of a block report the same.
    pub open spec fn partition(self) -> bool {
        &&& self.dfa.wf()
        &&& self.owner.len() == self.dfa.tokens.len()
        &&& self.owner.len() <= usize::MAX
        &&& forall|k: int|
            0 <= k < self.blocks.len() ==> increasing(#[trigger] self.blocks[k])
                && self.blocks[k].len() > 0
        &&& forall|s: int|
            0 <= s < self.owner.len() ==> (#[trigger] self.owner[s]) < self.blocks.len()
                && self.blocks[self.owner[s] as int].contains(s as usize)
        &&& forall|k: int, s: StateId|
            0 <= k < self.blocks.len() && #[trigger] self.blocks[k].contains(s) ==> s
                < self.owner.len() && self.owner[s as int] == k
        &&& forall|s1: int, s2: int|
            #![trigger self.owner[s1], self.owner[s2]]
            self.has(s1) && self.has(s2) && self.owner[s1] == self.owner[s2]
                ==> self.dfa.tokens[s1] == self.dfa.tokens[s2]
    }

    /// States of different blocks are told apart by some input.
    pub open spec fn apart(self) -> bool {
        forall|s1: int, s2: int|
            #![trigger self.owner[s1], self.owner[s2]]
            self.has(s1) && self.has(s2) && self.owner[s1] != self.owner[s2]
                ==> !self.dfa.equivalent(s1, s2)
    }

    /// Whether byte `b` leads `s1` and `s2` to the same block, or else to
    /// a block that is still pending.
    pub open spec fn settled(self, s1: int, s2: int, b: u8, p: Pending) -> bool {
        let n1 = self.dfa.next(s1, b);
        let n2 = self.dfa.next(s2, b);
        ||| self.owner[n1] == self.owner[n2]
        ||| p.worklist.contains(self.owner[n1])
        ||| p.worklist.contains(self.owner[n2])
        ||| (b >= p.from && (self.owner[n1] == p.current || self.owner[n2] == p.current))
        ||| (b == p.at && p.splitter.contains(n1 as usize) != p.splitter.contains(n2 as usize))
    }

    /// Whether every two states of one block are settled for every byte.
    pub open spec fn all_settled(self, p: Pending) -> bool {
        forall|s1: int, s2: int, b: u8|
            self.has(s1) && self.has(s2) && self.owner[s1] == self.owner[s2]
                ==> #[trigger] self.settled(s1, s2, b, p)
    }

    /// Whether byte `b` leads `s1` and `s2` both into `splitter` or both
    /// out of it.
    pub open spec fn agree(self, s1: int, s2: int, b: u8, splitter: Seq<StateId>) -> bool {
        splitter.contains(self.dfa.next(s1, b) as usize) == splitter.contains(
            self.dfa.next(s2, b) as usize,
        )
    }

    /// Whether the states of each block below `k`, and of each block from
    /// `first_new` on, agree.
    pub open spec fn stable(self, b: u8, splitter: Seq<StateId>, k: int, first_new: int) -> bool {
        forall|s1: int, s2: int|
            self.has(s1) && self.has(s2) && self.owner[s1] == self.owner[s2] && (self.owner[s1]
                < k || self.owner[s1] >= first_new) ==> #[trigger] self.agree(
                s1,
                s2,
                b,
                splitter,
            )
    }

    /// Whether `previous` holds the states that byte `b` leads into `splitter`.
    pub open spec fn leads_into(self, previous: Seq<StateId>, b: u8, splitter: Seq<StateId>) -> bool {
        forall|s: StateId|
            s < self.owner.len() ==> (#[trigger] previous.contains(s) <==> splitter.contains(
                self.dfa.next(s as int, b) as usize,
            ))
    }

    /// Whether no input tells a member of `splitter` from a state outside it.
    pub open spec fn separates(self, splitter: Seq<StateId>) -> bool {
        forall|s1: int, s2: int|
            #![trigger splitter.contains(s1 as usize), splitter.contains(s2 as usize)]
            self.has(s1) && self.has(s2) && splitter.contains(s1 as usize) && !splitter.contains(
                s2 as usize,
            ) ==> !self.dfa.equivalent(s1, s2)
    }

    /// The refinement in which block `k` keeps its members that are in
    /// `previous`, and the others form a new block at the end.
    pub open spec fn split(self, k: int, previous: Seq<StateId>) -> Refinement {
        Refinement {
            dfa: self.dfa,
            blocks: self.blocks.update(k, intersection_of(self.blocks[k], previous)).push(
                difference_of(self.blocks[k], previous),
            ),
            owner: Seq::new(
                self.owner.len(),
                |s: int|
                    if self.owner[s] == k && !previous.contains(s as usize) {
                        self.blocks.len() as usize
                    } else {
                        self.owner[s]
                    },
            ),
        }
    }

    /// A block is among the blocks of states.
    pub proof fn lemma_block_count(self)
        requires
            self.partition(),
        ensures
            self.blocks.len() <= self.state_count(),
    {
        let firsts = Seq::new(self.blocks.len(), |k: int| self.blocks[k][0]);
        assert forall|i: int, j: int| 0 <= i < firsts.len() && 0 <= j < firsts.len() && i
            != j implies firsts[i] != firsts[j] by {
            assert(self.blocks[i].contains(self.blocks[i][0]));
            assert(self.blocks[j].contains(self.blocks[j][0]));
        }
        assert forall|i: int| 0 <= i < firsts.len() implies firsts[i] < self.state_count() by {
            assert(self.blocks[i].contains(self.blocks[i][0]));
        }
        lemma_distinct_bounded_len(firsts, self.state_count() as nat);
    }

    /// The members of a block are its states.
    pub proof fn lemma_member(self, k: int, s: StateId)
        requires
            self.partition(),
            0 <= k < self.blocks.len(),
        ensures
            self.blocks[k].contains(s) <==> s < self.owner.len() && self.owner[s as int] == k,
    {
    }

    /// Splitting a block along `previous` gives a partition again.
    pub proof fn lemma_split_partition(self, k: int, previous: Seq<StateId>)
        requires
            self.partition(),
            0 <= k < self.blocks.len(),
            self.blocks.len() < usize::MAX,
            intersection_of(self.blocks[k], previous).len() > 0,
            difference_of(self.blocks[k], previous).len() > 0,
        ensures
            self.split(k, previous).partition(),
    {
        let new = self.split(k, previous);
        let block = self.blocks[k];
        let m = self.blocks.len() as int;
        lemma_filter_increasing(block, |x: usize| previous.contains(x));
        lemma_filter_increasing(block, |x: usize| !previous.contains(x));
        assert forall|k2: int| 0 <= k2 < new.blocks.len() implies increasing(
            #[trigger] new.blocks[k2],
        ) && new.blocks[k2].len() > 0 by {
            if k2 != k && k2 != m {
                assert(new.blocks[k2] == self.blocks[k2]);
            }
        }
        assert forall|s: int| 0 <= s < new.owner.len() implies (#[trigger] new.owner[s])
            < new.blocks.len() && new.blocks[new.owner[s] as int].contains(s as usize) by {
            assert(self.blocks[self.owner[s] as int].contains(s as usize));
            if self.owner[s] == k {
                assert(block.contains(s as usize));
            } else {
                assert(new.blocks[self.owner[s] as int] == self.blocks[self.owner[s] as int]);
            }
        }
        assert forall|k2: int, s: StateId|
            0 <= k2 < new.blocks.len() && #[trigger] new.blocks[k2].contains(s) implies s
            < new.owner.len() && new.owner[s as int] == k2 by {
            if k2 == k || k2 == m {
                assert(block.contains(s));
            } else {
                assert(new.blocks[k2] == self.blocks[k2]);
                assert(self.blocks[k2].contains(s));
            }
        }
        assert forall|s1: int, s2: int|
            #![trigger new.owner[s1], new.owner[s2]]
            new.has(s1) && new.has(s2) && new.owner[s1] == new.owner[s2] implies new.dfa.tokens[s1]
            == new.dfa.tokens[s2] by {
            assert(self.owner[s1] == self.owner[s2]);
        }
    }

    /// Splitting a block along what leads into `splitter` keeps the blocks apart.
    pub proof fn lemma_split_apart(self, k: int, previous: Seq<StateId>, b: u8, splitter: Seq<StateId>)
        requires
            self.partition(),
            self.apart(),
            self.separates(splitter),
            0 <= k < self.blocks.len(),
            self.blocks.len() < usize::MAX,
            self.leads_into(previous, b, splitter),
        ensures
            self.split(k, previous).apart(),
    {
        let new = self.split(k, previous);
        assert forall|s1: int, s2: int|
            #![trigger new.owner[s1], new.owner[s2]]
            new.has(s1) && new.has(s2) && new.owner[s1] != new.owner[s2] implies !new.dfa.equivalent(
            s1,
            s2,
        ) by {
            if self.owner[s1] == self.owner[s2] {
                let n1 = self.dfa.next(s1, b);
                let n2 = self.dfa.next(s2, b);
                assert(self.dfa.table[256 * s1 + b] < self.dfa.tokens.len());
                assert(self.dfa.table[256 * s2 + b] < self.dfa.tokens.len());
                assert(previous.contains(s1 as usize) != previous.contains(s2 as usize));
                assert(splitter.contains(n1 as usize) != splitter.contains(n2 as usize));
                if self.dfa.equivalent(s1, s2) {
                    self.dfa.lemma_equivalent_step(s1, s2, b);
                    self.lemma_equivalent_symmetric(n1, n2);
                }
            }
        }
    }

    /// Being equivalent does not depend on the order.
    pub proof fn lemma_equivalent_symmetric(self, p: int, q: int)
        requires
            self.dfa.equivalent(p, q),
        ensures
            self.dfa.equivalent(q, p),
    {
        assert forall|input: Seq<u8>|
            self.dfa.tokens[#[trigger] self.dfa.run(q, input)] == self.dfa.tokens[self.dfa.run(
                p,
                input,
            )] by {
            assert(self.dfa.tokens[self.dfa.run(p, input)] == self.dfa.tokens[self.dfa.run(
                q,
                input,
            )]);
        }
    }

    /// Splitting a block and putting the new block on the worklist keeps
    /// every two states of one block settled.
    pub proof fn lemma_split_settled(self, k: int, previous: Seq<StateId>, p: Pending)
        requires
            self.partition(),
            self.all_settled(p),
            0 <= k < self.blocks.len(),
            self.blocks.len() < usize::MAX,
        ensures
            self.split(k, previous).all_settled(
                Pending { worklist: p.worklist.push(self.blocks.len() as usize), ..p },
            ),
    {
        let new = self.split(k, previous);
        let m = self.blocks.len() as usize;
        let q = Pending { worklist: p.worklist.push(m), ..p };
        assert forall|s1: int, s2: int, b: u8|
            new.has(s1) && new.has(s2) && new.owner[s1] == new.owner[s2] implies #[trigger] new.settled(
            s1,
            s2,
            b,
            q,
        ) by {
            broadcast use vstd::seq_lib::lemma_seq_contains_after_push;

            assert(self.owner[s1] == self.owner[s2]);
            assert(self.settled(s1, s2, b, p));
            let n1 = self.dfa.next(s1, b);
            let n2 = self.dfa.next(s2, b);
            assert(self.dfa.table[256 * s1 + b] < self.dfa.tokens.len());
            assert(self.dfa.table[256 * s2 + b] < self.dfa.tokens.len());
            assert(q.worklist.contains(m));
            if new.owner[n1] != new.owner[n2] {
                if new.owner[n1] == m || new.owner[n2] == m {
                } else {
                    assert(new.owner[n1] == self.owner[n1]);
                    assert(new.owner[n2] == self.owner[n2]);
                }
            }
        }
    }

    /// Splitting block `k` along what leads into `splitter` makes its two
    /// halves agree, and leaves the blocks that agreed before as they were.
    pub proof fn lemma_split_stable(
        self,
        k: int,
        previous: Seq<StateId>,
        b: u8,
        splitter: Seq<StateId>,
        first_new: int,
    )
        requires
            self.partition(),
            self.stable(b, splitter, k, first_new),
            0 <= k < first_new <= self.blocks.len(),
            self.blocks.len() < usize::MAX,
            self.leads_into(previous, b, splitter),
        ensures
            self.split(k, previous).stable(b, splitter, k + 1, first_new),
    {
        let new = self.split(k, previous);
        assert forall|s1: int, s2: int|
            new.has(s1) && new.has(s2) && new.owner[s1] == new.owner[s2] && (new.owner[s1] < k
                + 1 || new.owner[s1] >= first_new) implies #[trigger] new.agree(
            s1,
            s2,
            b,
            splitter,
        ) by {
            if self.owner[s1] == k {
                assert(self.owner[s2] == k);
            } else {
                assert(new.owner[s1] == self.owner[s1]);
                assert(self.owner[s1] == self.owner[s2]);
                assert(self.agree(s1, s2, b, splitter));
            }
        }
    }

    /// A block that lies within what leads into `splitter`, or outside it, agrees.
    pub proof fn lemma_whole_stable(
        self,
        k: int,
        previous: Seq<StateId>,
        b: u8,
        splitter: Seq<StateId>,
        first_new: int,
    )
        requires
            self.partition(),
            self.stable(b, splitter, k, first_new),
            0 <= k < self.blocks.len(),
            intersection_of(self.blocks[k], previous).len() == 0 || difference_of(
                self.blocks[k],
                previous,
            ).len() == 0,
            self.leads_into(previous, b, splitter),
        ensures
            self.stable(b, splitter, k + 1, first_new),
    {
        let block = self.blocks[k];
        lemma_filter_increasing(block, |x: usize| previous.contains(x));
        lemma_filter_increasing(block, |x: usize| !previous.contains(x));
        let inside = intersection_of(block, previous);
        let outside = difference_of(block, previous);
        assert forall|s1: int, s2: int|
            self.has(s1) && self.has(s2) && self.owner[s1] == self.owner[s2] && (self.owner[s1] < k
                + 1 || self.owner[s1] >= first_new) implies #[trigger] self.agree(
            s1,
            s2,
            b,
            splitter,
        ) by {
            if self.owner[s1] == k {
                assert(block.contains(s1 as usize));
                assert(block.contains(s2 as usize));
                if inside.len() == 0 {
                    if previous.contains(s1 as usize) {
                        assert(inside.contains(s1 as usize));
                        let i = choose|i: int| 0 <= i < inside.len() && inside[i] == s1 as usize;
                    }
                    if previous.contains(s2 as usize) {
                        assert(inside.contains(s2 as usize));
                        let i = choose|i: int| 0 <= i < inside.len() && inside[i] == s2 as usize;
                    }
                } else {
                    if !previous.contains(s1 as usize) {
                        assert(outside.contains(s1 as usize));
                        let i = choose|i: int|
                            0 <= i < outside.len() && outside[i] == s1 as usize;
                    }
                    if !previous.contains(s2 as usize) {
                        assert(outside.contains(s2 as usize));
                        let i = choose|i: int|
                            0 <= i < outside.len() && outside[i] == s2 as usize;
                    }
                }
            } else {
                assert(self.agree(s1, s2, b, splitter));
            }
        }
    }

    /// When nothing is pending, the states of a block lead to the same
    /// block on every byte, so no input tells them apart.
    pub proof fn lemma_settled_equivalent(self, s1: int, s2: int, input: Seq<u8>)
        requires
            self.partition(),
            self.all_settled(
                Pending { worklist: Seq::empty(), current: 0, from: 256, splitter: Seq::empty(), at: -1 },
            ),
            self.has(s1),
            self.has(s2),
            self.owner[s1] == self.owner[s2],
        ensures
            self.has(self.dfa.run(s1, input)),
            self.has(self.dfa.run(s2, input)),
            self.owner[self.dfa.run(s1, input)] == self.owner[self.dfa.run(s2, input)],
            self.dfa.tokens[self.dfa.run(s1, input)] == self.dfa.tokens[self.dfa.run(s2, input)],
        decreases input.len(),
    {
        let p = Pending { worklist: Seq::empty(), current: 0, from: 256, splitter: Seq::empty(), at: -1 };
        self.dfa.lemma_run_in_range(s1, input);
        self.dfa.lemma_run_in_range(s2, input);
        if input.len() > 0 {
            self.lemma_settled_equivalent(s1, s2, input.drop_last());
            let r1 = self.dfa.run(s1, input.drop_last());
            let r2 = self.dfa.run(s2, input.drop_last());
            assert(self.settled(r1, r2, input.last(), p));
        }
        let e1 = self.dfa.run(s1, input);
        let e2 = self.dfa.run(s2, input);
        assert(self.owner[e1] == self.owner[e2]);
    }
}


impl Pending {
    /// Nothing is in use; `worklist` waits.
    pub open spec fn waiting(worklist: Seq<PartitionId>) -> Pending {
        Pending { worklist, current: 0, from: 256, splitter: Seq::empty(), at: -1 }
    }

    /// Block `current` is in use for the bytes from `from` on.
    pub open spec fn using(worklist: Seq<PartitionId>, current: PartitionId, from: int) -> Pending {
        Pending { worklist, current, from, splitter: Seq::empty(), at: -1 }
    }

    /// Block `current` is being used for byte `at`, with the members `splitter`.
    pub open spec fn splitting(
        worklist: Seq<PartitionId>,
        current: PartitionId,
        splitter: Seq<StateId>,
        at: u8,
    ) -> Pending {
        Pending { worklist, current, from: at + 1, splitter, at: at as int }
    }
}

impl Refinement {
    /// Taking a block off the worklist puts it in use for every byte.
    pub proof fn lemma_take(self, worklist: Seq<PartitionId>)
        requires
            self.partition(),
            worklist.len() > 0,
            self.all_settled(Pending::waiting(worklist)),
        ensures
            self.all_settled(Pending::using(worklist.drop_last(), worklist.last(), 0)),
    {
        let p = Pending::waiting(worklist);
        let q = Pending::using(worklist.drop_last(), worklist.last(), 0);
        assert forall|s1: int, s2: int, b: u8|
            self.has(s1) && self.has(s2) && self.owner[s1] == self.owner[s2] implies #[trigger] self.settled(
            s1,
            s2,
            b,
            q,
        ) by {
            assert(self.settled(s1, s2, b, p));
            let o1 = self.owner[self.dfa.next(s1, b)];
            let o2 = self.owner[self.dfa.next(s2, b)];
            if worklist.contains(o1) {
                let i = choose|i: int| 0 <= i < worklist.len() && worklist[i] == o1;
                if i < worklist.len() - 1 {
                    assert(worklist.drop_last()[i] == o1);
                }
            }
            if worklist.contains(o2) {
                let i = choose|i: int| 0 <= i < worklist.len() && worklist[i] == o2;
                if i < worklist.len() - 1 {
                    assert(worklist.drop_last()[i] == o2);
                }
            }
        }
    }

    /// When the turn of a byte comes, the block in use stands for its
    /// members of that moment.
    pub proof fn lemma_begin(self, worklist: Seq<PartitionId>, current: PartitionId, b: u8)
        requires
            self.partition(),
            current < self.blocks.len(),
            self.all_settled(Pending::using(worklist, current, b as int)),
        ensures
            self.all_settled(Pending::splitting(worklist, current, self.blocks[current as int], b)),
            self.stable(b, self.blocks[current as int], 0, self.blocks.len() as int),
    {
        let p = Pending::using(worklist, current, b as int);
        let q = Pending::splitting(worklist, current, self.blocks[current as int], b);
        assert forall|s1: int, s2: int, b2: u8|
            self.has(s1) && self.has(s2) && self.owner[s1] == self.owner[s2] implies #[trigger] self.settled(
            s1,
            s2,
            b2,
            q,
        ) by {
            assert(self.settled(s1, s2, b2, p));
            let n1 = self.dfa.next(s1, b2);
            let n2 = self.dfa.next(s2, b2);
            assert(self.dfa.table[256 * s1 + b2] < self.dfa.tokens.len());
            assert(self.dfa.table[256 * s2 + b2] < self.dfa.tokens.len());
            self.lemma_member(current as int, n1 as usize);
            self.lemma_member(current as int, n2 as usize);
        }
    }

    /// When every block agrees, the turn of the byte is over.
    pub proof fn lemma_end(
        self,
        worklist: Seq<PartitionId>,
        current: PartitionId,
        splitter: Seq<StateId>,
        b: u8,
        first_new: int,
    )
        requires
            self.partition(),
            self.all_settled(Pending::splitting(worklist, current, splitter, b)),
            self.stable(b, splitter, first_new, first_new),
        ensures
            self.all_settled(Pending::using(worklist, current, b + 1)),
    {
        let p = Pending::splitting(worklist, current, splitter, b);
        let q = Pending::using(worklist, current, b + 1);
        assert forall|s1: int, s2: int, b2: u8|
            self.has(s1) && self.has(s2) && self.owner[s1] == self.owner[s2] implies #[trigger] self.settled(
            s1,
            s2,
            b2,
            q,
        ) by {
            assert(self.settled(s1, s2, b2, p));
            if b2 == b {
                assert(self.agree(s1, s2, b, splitter));
            }
        }
    }

    /// When a block has had its turn for every byte, nothing is in use.
    pub proof fn lemma_finish(self, worklist: Seq<PartitionId>, current: PartitionId)
        requires
            self.all_settled(Pending::using(worklist, current, 256)),
        ensures
            self.all_settled(Pending::waiting(worklist)),
    {
        let p = Pending::using(worklist, current, 256);
        let q = Pending::waiting(worklist);
        assert forall|s1: int, s2: int, b: u8|
            self.has(s1) && self.has(s2) && self.owner[s1] == self.owner[s2] implies #[trigger] self.settled(
            s1,
            s2,
            b,
            q,
        ) by {
            assert(self.settled(s1, s2, b, p));
        }
    }

    /// No input tells a member of a block from a state outside it.
    pub proof fn lemma_block_separates(self, k: int)
        requires
            self.partition(),
            self.apart(),
            0 <= k < self.blocks.len(),
        ensures
            self.separates(self.blocks[k]),
    {
        let block = self.blocks[k];
        assert forall|s1: int, s2: int|
            #![trigger block.contains(s1 as usize), block.contains(s2 as usize)]
            self.has(s1) && self.has(s2) && block.contains(s1 as usize) && !block.contains(
                s2 as usize,
            ) implies !self.dfa.equivalent(s1, s2) by {
            self.lemma_member(k, s1 as usize);
            self.lemma_member(k, s2 as usize);
            assert(self.owner[s1] != self.owner[s2]);
        }
    }

    /// What no input tells apart does not depend on the blocks.
    pub proof fn lemma_separates_after_split(self, k: int, previous: Seq<StateId>, splitter: Seq<StateId>)
        requires
            self.separates(splitter),
        ensures
            self.split(k, previous).separates(splitter),
    {
        let new = self.split(k, previous);
        assert forall|s1: int, s2: int|
            #![trigger splitter.contains(s1 as usize), splitter.contains(s2 as usize)]
            new.has(s1) && new.has(s2) && splitter.contains(s1 as usize) && !splitter.contains(
                s2 as usize,
            ) implies !new.dfa.equivalent(s1, s2) by {
            assert(self.has(s1) && self.has(s2));
        }
    }
}

/// Whether `f` maps some state to `t`.
pub open spec fn image_has(f: Seq<StateId>, t: int) -> bool {
    exists|s: int| 0 <= s < f.len() && #[trigger] f[s] == t
}

/// Whether `f` maps the states of `d` onto the states of `m` so that the
/// dead state and the start state keep their roles, tokens and transitions
/// are kept, and two states have the same image if and only if no input
/// tells them apart.
pub open spec fn quotient(m: DfaView, d: DfaView, f: Seq<StateId>) -> bool {
    &&& m.wf()
    &&& d.wf()
    &&& f.len() == d.tokens.len()
    &&& forall|s: int| 0 <= s < f.len() ==> (#[trigger] f[s]) < m.tokens.len()
    &&& forall|t: int| 0 <= t < m.tokens.len() ==> #[trigger] image_has(f, t)
    &&& f[0] == 0
    &&& f[d.start()] == m.start()
    &&& forall|s: int| 0 <= s < f.len() ==> m.tokens[(#[trigger] f[s]) as int] == d.tokens[s]
    &&& forall|s: int, b: u8|
        0 <= s < f.len() ==> m.next(f[s] as int, b) == f[#[trigger] d.next(s, b)]
    &&& forall|s1: int, s2: int|
        #![trigger f[s1], f[s2]]
        0 <= s1 < f.len() && 0 <= s2 < f.len() ==> (f[s1] == f[s2] <==> d.equivalent(s1, s2))
}

/// What `minimize` owes for `d`: where no input tells the start state of
/// `d` from its dead state, the automaton that has the dead state only;
/// otherwise an automaton whose states are the classes of states of `d`
/// that no input tells apart.
pub open spec fn minimizes(m: DfaView, d: DfaView) -> bool {
    if d.equivalent(d.start(), 0) {
        m == DfaView::dead_only()
    } else {
        exists|f: Seq<StateId>| quotient(m, d, f)
    }
}


/// The place of state `s` and byte `b` in a table with a row for each state.
pub open spec fn slot(s: int, b: u8) -> int {
    256 * s + b
}

/// Whether `incoming` lists, for each state and byte, the states that the
/// byte leads to that state.
pub open spec fn lists_sources(dfa: DfaView, incoming: Seq<Vec<StateId>>) -> bool {
    &&& incoming.len() == dfa.table.len()
    &&& forall|s: int, b: u8, t: StateId|
        0 <= s < dfa.tokens.len() ==> (#[trigger] incoming[slot(s, b)]@.contains(t) <==> t
            < dfa.tokens.len() && dfa.next(t as int, b) == s)
}

/// Whether `bucket` lists in increasing order the states below `upto`
/// that report `token`.
pub open spec fn bucket_of(
    dfa: DfaView,
    bucket: Seq<StateId>,
    token: Option<usize>,
    upto: int,
) -> bool {
    &&& increasing(bucket)
    &&& forall|x: StateId| #[trigger]
        bucket.contains(x) <==> x < upto && x < dfa.tokens.len() && dfa.tokens[x as int] == token
}

/// The views of the blocks.
pub open spec fn views(partitions: Seq<VecSet<StateId>>) -> Seq<Seq<StateId>> {
    partitions.map_values(|block: VecSet<StateId>| block@)
}

/// What holds while the first blocks are put together: block `k` holds
/// the states that report `labels[k]`; the labels differ, and cover the
/// tokens below `token`; and the states so far know their block.
pub open spec fn assembled(
    dfa: DfaView,
    blocks: Seq<Seq<StateId>>,
    owner: Seq<PartitionId>,
    labels: Seq<Option<usize>>,
    token: int,
) -> bool {
    &&& labels.len() == blocks.len()
    &&& owner.len() == dfa.tokens.len()
    &&& blocks.len() >= 1
    &&& labels[0] is None
    &&& forall|k: int|
        1 <= k < labels.len() ==> (#[trigger] labels[k]) is Some && labels[k]->0 < token
    &&& forall|k: int|
        0 <= k < blocks.len() ==> (#[trigger] blocks[k]).len() > 0 && bucket_of(
            dfa,
            blocks[k],
            labels[k],
            dfa.tokens.len() as int,
        )
    &&& forall|k1: int, k2: int|
        0 <= k1 < k2 < labels.len() ==> #[trigger] labels[k1] != #[trigger] labels[k2]
    &&& forall|s: int|
        0 <= s < owner.len() && (dfa.tokens[s] is None || dfa.tokens[s]->0 < token) ==> (
        #[trigger] owner[s]) < blocks.len() && labels[owner[s] as int] == dfa.tokens[s]
}

/// Blocks put together for every token are a partition, and states of
/// different blocks differ in what they report.
pub proof fn lemma_assembled(
    dfa: DfaView,
    blocks: Seq<Seq<StateId>>,
    owner: Seq<PartitionId>,
    labels: Seq<Option<usize>>,
)
    requires
        dfa.wf(),
        dfa.tokens.len() <= usize::MAX,
        assembled(dfa, blocks, owner, labels, dfa.token_count as int),
    ensures
        (Refinement { dfa, blocks, owner }).partition(),
        (Refinement { dfa, blocks, owner }).apart(),
{
    let r = Refinement { dfa, blocks, owner };
    DfaView::lemma_token_bound(dfa.tokens);
    assert forall|s: int| 0 <= s < owner.len() implies (#[trigger] owner[s]) < blocks.len()
        && labels[owner[s] as int] == dfa.tokens[s] && blocks[owner[s] as int].contains(
        s as usize,
    ) by {
        assert(dfa.tokens[s] is Some ==> dfa.tokens[s]->0 < dfa.token_count);
        let k = owner[s] as int;
        assert(bucket_of(dfa, blocks[k], labels[k], dfa.tokens.len() as int));
    }
    assert forall|k: int, s: StateId|
        0 <= k < blocks.len() && #[trigger] blocks[k].contains(s) implies s < owner.len()
        && owner[s as int] == k by {
        assert(bucket_of(dfa, blocks[k], labels[k], dfa.tokens.len() as int));
        let o = owner[s as int] as int;
        assert(labels[o] == dfa.tokens[s as int]);
        if o < k {
            assert(labels[o] != labels[k]);
        } else if k < o {
            assert(labels[k] != labels[o]);
        }
    }
    assert forall|k: int| 0 <= k < blocks.len() implies increasing(#[trigger] blocks[k])
        && blocks[k].len() > 0 by {
        assert(bucket_of(dfa, blocks[k], labels[k], dfa.tokens.len() as int));
    }
    assert forall|s1: int, s2: int|
        #![trigger owner[s1], owner[s2]]
        r.has(s1) && r.has(s2) && owner[s1] != owner[s2] implies !dfa.equivalent(s1, s2) by {
        let o1 = owner[s1] as int;
        let o2 = owner[s2] as int;
        if o1 < o2 {
            assert(labels[o1] != labels[o2]);
        } else {
            assert(labels[o2] != labels[o1]);
        }
        assert(dfa.tokens[s1] != dfa.tokens[s2]);
        assert(dfa.run(s1, Seq::<u8>::empty()) == s1);
        assert(dfa.run(s2, Seq::<u8>::empty()) == s2);
    }
}

fn repeated(value: usize, len: usize) -> (v: Vec<usize>)
    ensures
        v@.len() == len,
        forall|i: int| 0 <= i < len ==> v@[i] == value,
{
    let mut v: Vec<usize> = Vec::new();
    let mut i: usize = 0;
    while i < len
        invariant
            i <= len,
            v@.len() == i,
            forall|k: int| 0 <= k < i ==> v@[k] == value,
        decreases len - i,
    {
        v.push(value);
        i += 1;
    }
    v
}

/// For each state and byte, the states that the byte leads to that state.
fn incoming_transitions(dfa: &Dfa) -> (incoming_transitions: Vec<Vec<StateId>>)
    requires
        dfa@.wf(),
    ensures
        lists_sources(dfa@, incoming_transitions@),
{
    let state_count: usize = dfa.state_count();
    proof {
        dfa.lemma_table_fits();
    }
    let mut incoming_transitions: Vec<Vec<StateId>> = Vec::new();
    let slots: usize = state_count * 256;
    let mut i: usize = 0;
    while i < slots
        invariant
            i <= slots,
            incoming_transitions@.len() == i,
            forall|k: int| 0 <= k < i ==> (#[trigger] incoming_transitions@[k])@.len() == 0,
        decreases slots - i,
    {
        incoming_transitions.push(Vec::new());
        i += 1;
    }
    let mut state_id: usize = 0;
    while state_id < state_count
        invariant
            dfa@.wf(),
            state_count == dfa@.tokens.len(),
            slots == 256 * state_count,
            state_id <= state_count,
            incoming_transitions@.len() == slots,
            forall|s: int, b: u8, t: StateId|
                0 <= s < state_count ==> (#[trigger] incoming_transitions@[slot(s, b)]@.contains(
                    t,
                ) <==> t < state_id && dfa@.next(t as int, b) == s),
        decreases state_count - state_id,
    {
        let mut byte: usize = 0;
        while byte < 256
            invariant
                dfa@.wf(),
                state_count == dfa@.tokens.len(),
                slots == 256 * state_count,
                state_id < state_count,
                byte <= 256,
                incoming_transitions@.len() == slots,
                forall|s: int, b: u8, t: StateId|
                    0 <= s < state_count ==> (
                    #[trigger] incoming_transitions@[slot(s, b)]@.contains(t) <==> (t < state_id
                        || (t == state_id && b < byte)) && dfa@.next(t as int, b) == s),
            decreases 256 - byte,
        {
            let next_state_id = dfa.next_state(state_id, byte as u8);
            let offset: usize = next_state_id * 256 + byte;
            let ghost before = incoming_transitions@;
            let sources = &mut incoming_transitions[offset];
            sources.push(state_id);
            proof {
                broadcast use vstd::seq_lib::lemma_seq_contains_after_push;

                assert(offset == slot(next_state_id as int, byte as u8));
                assert forall|s: int, b: u8, t: StateId| 0 <= s < state_count implies (
                #[trigger] incoming_transitions@[slot(s, b)]@.contains(t) <==> (t < state_id || (t
                    == state_id && b < byte + 1)) && dfa@.next(t as int, b) == s) by {
                    if slot(s, b) == offset {
                        assert(s == next_state_id && b == byte);
                        assert(incoming_transitions@[slot(s, b)]@ == before[slot(s, b)]@.push(
                            state_id,
                        ));
                        assert(before[slot(s, b)]@.contains(t) <==> (t < state_id || (t
                            == state_id && b < byte)) && dfa@.next(t as int, b) == s);
                    } else {
                        assert(incoming_transitions@[slot(s, b)] == before[slot(s, b)]);
                        assert(before[slot(s, b)]@.contains(t) <==> (t < state_id || (t
                            == state_id && b < byte)) && dfa@.next(t as int, b) == s);
                    }
                }
            }
            byte += 1;
        }
        state_id += 1;
    }
    incoming_transitions
}

/// The first blocks: the states that report nothing, then for each token
/// the states that report it; and the block of each state.
fn initial_partitions(dfa: &Dfa) -> (initial: (Vec<VecSet<StateId>>, Vec<PartitionId>))
    requires
        dfa@.wf(),
    ensures
        (Refinement { dfa: dfa@, blocks: views(initial.0@), owner: initial.1@ }).partition(),
        (Refinement { dfa: dfa@, blocks: views(initial.0@), owner: initial.1@ }).apart(),
{
    let state_count: usize = dfa.state_count();
    let token_count: usize = dfa.token_count();
    proof {
        dfa.lemma_table_fits();
    }
    let mut silent: Vec<StateId> = Vec::new();
    let mut reporting: Vec<Vec<StateId>> = Vec::new();
    let mut token: usize = 0;
    while token < token_count
        invariant
            token <= token_count,
            reporting@.len() == token,
            forall|t: int| 0 <= t < token ==> (#[trigger] reporting@[t])@.len() == 0,
        decreases token_count - token,
    {
        reporting.push(Vec::new());
        token += 1;
    }
    proof {
        DfaView::lemma_token_bound(dfa@.tokens);
    }
    let mut state_id: usize = 0;
    while state_id < state_count
        invariant
            dfa@.wf(),
            state_count == dfa@.tokens.len(),
            token_count == dfa@.token_count,
            state_id <= state_count,
            reporting@.len() == token_count,
            forall|s: int|
                0 <= s < dfa@.tokens.len() && (#[trigger] dfa@.tokens[s]) is Some
                    ==> dfa@.tokens[s]->0 < token_count,
            bucket_of(dfa@, silent@, None, state_id as int),
            forall|t: int|
                0 <= t < token_count ==> bucket_of(
                    dfa@,
                    (#[trigger] reporting@[t])@,
                    Some(t as usize),
                    state_id as int,
                ),
        decreases state_count - state_id,
    {
        broadcast use vstd::seq_lib::lemma_seq_contains_after_push;

        match dfa.matched_token(state_id) {
            None => {
                let ghost before = silent@;
                silent.push(state_id);
                proof {
                    assert forall|i: int, j: int| 0 <= i < j < silent@.len() implies silent@[i]
                        < silent@[j] by {
                        if j == before.len() {
                            assert(before.contains(before[i]));
                        }
                    }
                }
            },
            Some(matched_token) => {
                let ghost before = reporting@;
                assert(dfa@.tokens[state_id as int]->0 < token_count);
                let bucket = &mut reporting[matched_token];
                bucket.push(state_id);
                proof {
                    let old_bucket = before[matched_token as int]@;
                    let new_bucket = reporting@[matched_token as int]@;
                    assert(new_bucket == old_bucket.push(state_id));
                    assert(bucket_of(dfa@, old_bucket, Some(matched_token), state_id as int));
                    assert forall|i: int, j: int| 0 <= i < j < new_bucket.len() implies new_bucket[i]
                        < new_bucket[j] by {
                        if j == old_bucket.len() {
                            assert(old_bucket.contains(old_bucket[i]));
                        }
                    }
                    assert forall|t: int| 0 <= t < token_count implies bucket_of(
                        dfa@,
                        (#[trigger] reporting@[t])@,
                        Some(t as usize),
                        state_id + 1,
                    ) by {
                        if t != matched_token {
                            assert(reporting@[t] == before[t]);
                            assert(bucket_of(dfa@, before[t]@, Some(t as usize), state_id as int));
                        }
                    }
                }
            },
        }
        state_id += 1;
    }
    let mut owners: Vec<PartitionId> = repeated(0, state_count);
    let mut partitions: Vec<VecSet<StateId>> = Vec::new();
    let ghost mut labels: Seq<Option<usize>> = seq![None];
    proof {
        assert(silent@.contains(0)) by {
            assert(dfa@.tokens[0] is None);
        }
        let i = choose|i: int| 0 <= i < silent@.len() && silent@[i] == 0;
    }
    partitions.push(VecSet::from_vec_unchecked(silent));
    let mut token: usize = 0;
    proof {
        assert(views(partitions@)[0] == partitions@[0]@);
    }
    while token < token_count
        invariant
            dfa@.wf(),
            state_count == dfa@.tokens.len(),
            token_count == dfa@.token_count,
            token <= token_count,
            reporting@.len() == token_count,
            assembled(dfa@, views(partitions@), owners@, labels, token as int),
            forall|t: int|
                token <= t < token_count ==> bucket_of(
                    dfa@,
                    (#[trigger] reporting@[t])@,
                    Some(t as usize),
                    state_count as int,
                ),
        decreases token_count - token,
    {
        let mut bucket: Vec<StateId> = Vec::new();
        let ghost before = reporting@;
        let taken = &mut reporting[token];
        std::mem::swap(&mut bucket, taken);
        proof {
            assert(bucket@ == before[token as int]@);
            assert(bucket_of(dfa@, bucket@, Some(token), state_count as int));
            assert forall|t: int| token + 1 <= t < token_count implies bucket_of(
                dfa@,
                (#[trigger] reporting@[t])@,
                Some(t as usize),
                state_count as int,
            ) by {
                assert(reporting@[t] == before[t]);
            }
        }
        if bucket.len() > 0 {
            let partition_id: usize = partitions.len();
            let ghost owners_before = owners@;
            let mut i: usize = 0;
            while i < bucket.len()
                invariant
                    i <= bucket@.len(),
                    bucket_of(dfa@, bucket@, Some(token), state_count as int),
                    state_count == dfa@.tokens.len(),
                    owners@.len() == state_count,
                    forall|s: int|
                        0 <= s < owners@.len() ==> #[trigger] owners@[s] == if bucket@.take(
                            i as int,
                        ).contains(s as usize) {
                            partition_id
                        } else {
                            owners_before[s]
                        },
                decreases bucket@.len() - i,
            {
                let member: usize = bucket[i];
                assert(bucket@.contains(member));
                owners.set(member, partition_id);
                proof {
                    assert(bucket@.take(i + 1) =~= bucket@.take(i as int).push(member));
                    broadcast use vstd::seq_lib::lemma_seq_contains_after_push;

                }
                i += 1;
            }
            let ghost blocks_before = views(partitions@);
            let ghost members = bucket@;
            assert(bucket@.take(bucket@.len() as int) =~= bucket@);
            partitions.push(VecSet::from_vec_unchecked(bucket));
            proof {
                let labels_before = labels;
                labels = labels.push(Some(token));
                let blocks = views(partitions@);
                assert(blocks =~= blocks_before.push(members));
                assert forall|k: int| 0 <= k < blocks.len() implies (#[trigger] blocks[k]).len()
                    > 0 && bucket_of(dfa@, blocks[k], labels[k], dfa@.tokens.len() as int) by {
                    if k < blocks_before.len() {
                        assert(blocks[k] == blocks_before[k]);
                        assert(labels[k] == labels_before[k]);
                    }
                }
                assert forall|k1: int, k2: int| 0 <= k1 < k2 < labels.len() implies #[trigger] labels[k1]
                    != #[trigger] labels[k2] by {
                    if k2 < labels_before.len() {
                        assert(labels_before[k1] != labels_before[k2]);
                    } else if k1 >= 1 {
                        assert(labels_before[k1]->0 < token);
                    }
                }
                assert forall|s: int|
                    0 <= s < owners@.len() && (dfa@.tokens[s] is None || dfa@.tokens[s]->0 < token
                        + 1) implies (#[trigger] owners@[s]) < blocks.len()
                    && labels[owners@[s] as int] == dfa@.tokens[s] by {
                    if members.contains(s as usize) {
                    } else {
                        assert(owners@[s] == owners_before[s]);
                        assert(dfa@.tokens[s] != Some(token));
                        assert(labels[owners_before[s] as int] == labels_before[owners_before[s] as int]);
                    }
                }
                assert forall|k: int| 1 <= k < labels.len() implies (#[trigger] labels[k]) is Some
                    && labels[k]->0 < token + 1 by {
                    if k < labels_before.len() {
                        assert(labels_before[k] is Some);
                    }
                }
            }
        } else {
            proof {
                assert forall|s: int|
                    0 <= s < owners@.len() && (dfa@.tokens[s] is None || dfa@.tokens[s]->0 < token
                        + 1) implies (#[trigger] owners@[s]) < views(partitions@).len()
                    && labels[owners@[s] as int] == dfa@.tokens[s] by {
                    if dfa@.tokens[s] == Some(token) {
                        assert(bucket@.contains(s as usize));
                        let i = choose|i: int| 0 <= i < bucket@.len() && bucket@[i] == s as usize;
                    }
                }
                assert forall|k: int| 1 <= k < labels.len() implies (#[trigger] labels[k]) is Some
                    && labels[k]->0 < token + 1 by {
                    assert(labels[k]->0 < token);
                }
            }
        }
        token += 1;
    }
    proof {
        lemma_assembled(dfa@, views(partitions@), owners@, labels);
    }
    (partitions, owners)
}


/// The new ids of the blocks: `order` lists the blocks by new id, the
/// block of the dead state first and that of the start state second, and
/// `new_ids` gives the new id of each block.
pub open spec fn renumbering(r: Refinement, new_ids: Seq<StateId>, order: Seq<PartitionId>) -> bool {
    &&& new_ids.len() == r.blocks.len()
    &&& order.len() >= 2
    &&& order[0] == r.owner[0]
    &&& order[1] == r.owner[1]
    &&& forall|t: int|
        0 <= t < order.len() ==> (#[trigger] order[t]) < r.blocks.len() && new_ids[order[t] as int]
            == t
    &&& forall|k: int|
        0 <= k < new_ids.len() ==> (#[trigger] new_ids[k]) < order.len()
            && order[new_ids[k] as int] == k
}

/// The state that stands for the block with new id `t`.
pub open spec fn representative(r: Refinement, order: Seq<PartitionId>, t: int) -> int {
    r.blocks[order[t] as int][0] as int
}

/// Whether `m` has a state for each new id, which reports what the
/// representative of its block reports and leads where it leads.
pub open spec fn built(
    r: Refinement,
    new_ids: Seq<StateId>,
    order: Seq<PartitionId>,
    m: DfaView,
    states: int,
    rows: int,
) -> bool {
    &&& m.wf()
    &&& m.tokens.len() == states
    &&& forall|t: int|
        1 <= t < states ==> #[trigger] m.tokens[t] == r.dfa.tokens[representative(r, order, t)]
    &&& forall|t: int, b: u8|
        1 <= t < rows ==> #[trigger] m.next(t, b) == new_ids[r.owner[r.dfa.next(
            representative(r, order, t),
            b,
        )] as int]
}

/// The image of each state under the renumbering of its block.
pub open spec fn images(r: Refinement, new_ids: Seq<StateId>) -> Seq<StateId> {
    Seq::new(r.owner.len(), |s: int| new_ids[r.owner[s] as int])
}

/// An automaton built from the blocks of a refinement in which nothing is
/// pending has the classes of equivalent states as its states.
pub proof fn lemma_built_quotient(
    r: Refinement,
    new_ids: Seq<StateId>,
    order: Seq<PartitionId>,
    m: DfaView,
)
    requires
        r.partition(),
        r.apart(),
        r.all_settled(Pending::waiting(Seq::empty())),
        r.owner.len() >= 2,
        r.owner[0] != r.owner[1],
        renumbering(r, new_ids, order),
        built(r, new_ids, order, m, order.len() as int, order.len() as int),
    ensures
        quotient(m, r.dfa, images(r, new_ids)),
{
    let f = images(r, new_ids);
    let d = r.dfa;
    let p = Pending::waiting(Seq::empty());
    assert forall|t: int| 0 <= t < m.tokens.len() implies #[trigger] image_has(f, t) by {
        let s = representative(r, order, t);
        assert(r.blocks[order[t] as int].contains(r.blocks[order[t] as int][0]));
        assert(f[s] == t);
    }
    assert(f[0] == 0) by {
        assert(new_ids[order[0] as int] == 0);
    }
    assert(f[d.start()] == m.start()) by {
        assert(new_ids[order[1] as int] == 1);
    }
    assert forall|s: int| 0 <= s < f.len() implies m.tokens[(#[trigger] f[s]) as int]
        == d.tokens[s] by {
        let t = f[s] as int;
        let rep = representative(r, order, t);
        assert(r.blocks[order[t] as int].contains(r.blocks[order[t] as int][0]));
        assert(order[t] == r.owner[s]);
        assert(r.owner[rep] == r.owner[s]);
        if t == 0 {
            assert(r.owner[0] == r.owner[s]);
        }
    }
    assert forall|s: int, b: u8| 0 <= s < f.len() implies m.next(f[s] as int, b)
        == f[#[trigger] d.next(s, b)] by {
        let t = f[s] as int;
        assert(d.table[256 * s + b] < d.tokens.len());
        assert(order[t] == r.owner[s]);
        if t == 0 {
            assert(r.owner[0] == r.owner[s]);
            assert(r.settled(0, s, b, p));
            assert(d.table[b as int] == 0);
            assert(m.table[b as int] == 0);
        } else {
            let rep = representative(r, order, t);
            assert(r.blocks[order[t] as int].contains(r.blocks[order[t] as int][0]));
            assert(r.owner[rep] == r.owner[s]);
            assert(r.settled(rep, s, b, p));
        }
    }
    assert forall|s1: int, s2: int|
        #![trigger f[s1], f[s2]]
        0 <= s1 < f.len() && 0 <= s2 < f.len() implies (f[s1] == f[s2] <==> d.equivalent(
        s1,
        s2,
    )) by {
        if f[s1] == f[s2] {
            assert(order[f[s1] as int] == r.owner[s1]);
            assert(order[f[s2] as int] == r.owner[s2]);
            assert forall|input: Seq<u8>|
                d.tokens[#[trigger] d.run(s1, input)] == d.tokens[d.run(s2, input)] by {
                r.lemma_settled_equivalent(s1, s2, input);
            }
        }
        if d.equivalent(s1, s2) {
            assert(r.owner[s1] == r.owner[s2]);
        }
    }
}

/// Merges the states of a [`Dfa`] that no input tells apart.
pub struct Minimizer<'a> {
    dfa: &'a Dfa,
    incoming_transitions: Vec<Vec<StateId>>,
    partitions: Vec<VecSet<StateId>>,
    partition_id_stack: Vec<PartitionId>,
    owners: Vec<PartitionId>,
    marks: Vec<bool>,
}

impl<'a> Minimizer<'a> {
    /// The automaton that is being minimized.
    pub closed spec fn dfa(&self) -> DfaView {
        self.dfa@
    }

    /// The blocks, and the block of each state.
    pub closed spec fn model(&self) -> Refinement {
        Refinement { dfa: self.dfa@, blocks: views(self.partitions@), owner: self.owners@ }
    }

    /// The blocks that wait to be used.
    pub closed spec fn worklist(&self) -> Seq<PartitionId> {
        self.partition_id_stack@
    }

    /// The blocks are a partition of the states that never puts together
    /// what some input tells apart, and the tables agree with the automaton.
    pub closed spec fn inv(&self) -> bool {
        &&& self.model().partition()
        &&& self.model().apart()
        &&& lists_sources(self.dfa@, self.incoming_transitions@)
        &&& self.marks@.len() == self.dfa@.tokens.len()
        &&& forall|t: int| 0 <= t < self.marks@.len() ==> !self.marks@[t]
        &&& forall|i: int|
            0 <= i < self.partition_id_stack@.len() ==> (#[trigger] self.partition_id_stack@[i])
                < self.partitions@.len()
    }

    /// Every block waits to be used.
    pub closed spec fn ready(&self) -> bool {
        &&& self.inv()
        &&& self.model().all_settled(Pending::waiting(self.partition_id_stack@))
    }

    pub fn new(dfa: &'a Dfa) -> (minimizer: Self)
        requires
            dfa@.wf(),
        ensures
            minimizer.ready(),
            minimizer.dfa() == dfa@,
    {
        let (partitions, owners) = initial_partitions(dfa);
        let mut partition_id_stack: Vec<PartitionId> = Vec::new();
        let mut partition_id: usize = 0;
        while partition_id < partitions.len()
            invariant
                partition_id <= partitions@.len(),
                partition_id_stack@.len() == partition_id,
                forall|i: int| 0 <= i < partition_id ==> partition_id_stack@[i] == i,
            decreases partitions@.len() - partition_id,
        {
            partition_id_stack.push(partition_id);
            partition_id += 1;
        }
        let mut marks: Vec<bool> = Vec::new();
        let mut state_id: usize = 0;
        while state_id < dfa.state_count()
            invariant
                state_id <= dfa@.tokens.len(),
                marks@.len() == state_id,
                forall|t: int| 0 <= t < state_id ==> !marks@[t],
            decreases dfa@.tokens.len() - state_id,
        {
            marks.push(false);
            state_id += 1;
        }
        let minimizer = Self {
            dfa,
            incoming_transitions: incoming_transitions(dfa),
            partitions,
            partition_id_stack,
            owners,
            marks,
        };
        proof {
            let r = minimizer.model();
            let p = Pending::waiting(minimizer.partition_id_stack@);
            assert forall|s1: int, s2: int, b: u8|
                r.has(s1) && r.has(s2) && r.owner[s1] == r.owner[s2] implies #[trigger] r.settled(
                s1,
                s2,
                b,
                p,
            ) by {
                let n1 = r.dfa.next(s1, b);
                assert(r.dfa.table[256 * s1 + b] < r.dfa.tokens.len());
                let o1 = r.owner[n1];
                assert(p.worklist[o1 as int] == o1);
            }
        }
        minimizer
    }

    /// Replaces the members of `previous_state_id_set` by the states that
    /// `byte` leads into block `partition_id`.
    pub fn previous_states(
        &mut self,
        partition_id: PartitionId,
        byte: u8,
        previous_state_id_set: &mut VecSet<StateId>,
    )
        requires
            old(self).inv(),
            partition_id < old(self).model().blocks.len(),
        ensures
            final(self).inv(),
            final(self).model() == old(self).model(),
            final(self).worklist() == old(self).worklist(),
            final(self).dfa() == old(self).dfa(),
            final(previous_state_id_set).wf(),
            final(self).model().leads_into(
                final(previous_state_id_set)@,
                byte,
                final(self).model().blocks[partition_id as int],
            ),
    {
        let ghost r = self.model();
        let ghost block = r.blocks[partition_id as int];
        let ghost count = self.dfa@.tokens.len();
        proof {
            self.dfa.lemma_table_fits();
        }
        let mut taken = VecSet::new();
        std::mem::swap(previous_state_id_set, &mut taken);
        let mut previous_state_ids = taken.into_vec();
        previous_state_ids.clear();
        let members = &self.partitions[partition_id];
        assert(members@ == block);
        proof {
            assert forall|i: int| 0 <= i < block.len() implies block[i] < count by {
                assert(block.contains(block[i]));
            }
        }
        let mut i: usize = 0;
        while i < members.len()
            invariant
                self.dfa == old(self).dfa,
                self.partitions == old(self).partitions,
                self.owners == old(self).owners,
                self.partition_id_stack == old(self).partition_id_stack,
                self.incoming_transitions == old(self).incoming_transitions,
                self.dfa@.wf(),
                count == self.dfa@.tokens.len(),
                256 * count <= usize::MAX,
                lists_sources(self.dfa@, self.incoming_transitions@),
                members@ == block,
                below(block, count as nat),
                i <= block.len(),
                self.marks@.len() == count,
                forall|t: int|
                    0 <= t < count ==> (#[trigger] self.marks@[t] <==> block.take(i as int).contains(
                        self.dfa@.next(t, byte) as usize,
                    )),
            decreases block.len() - i,
        {
            let state_id: usize = members.get(i);
            assert(block[i as int] < count);
            let offset: usize = state_id * 256 + byte as usize;
            assert(offset == slot(state_id as int, byte));
            let sources = &self.incoming_transitions[offset];
            let mut j: usize = 0;
            while j < sources.len()
                invariant
                    self.dfa == old(self).dfa,
                    self.partitions == old(self).partitions,
                    self.owners == old(self).owners,
                    self.partition_id_stack == old(self).partition_id_stack,
                    self.incoming_transitions == old(self).incoming_transitions,
                    self.dfa@.wf(),
                    count == self.dfa@.tokens.len(),
                    state_id < count,
                    count <= usize::MAX,
                    state_id == block[i as int],
                    i < block.len(),
                    j <= sources@.len(),
                    sources@ == self.incoming_transitions@[slot(state_id as int, byte)]@,
                    lists_sources(self.dfa@, self.incoming_transitions@),
                    self.marks@.len() == count,
                    forall|t: int|
                        0 <= t < count ==> (#[trigger] self.marks@[t] <==> block.take(
                            i as int,
                        ).contains(self.dfa@.next(t, byte) as usize) || sources@.take(
                            j as int,
                        ).contains(t as usize)),
                decreases sources@.len() - j,
            {
                let source: usize = sources[j];
                assert(sources@.contains(source));
                assert(self.incoming_transitions@[slot(state_id as int, byte)]@.contains(source));
                let ghost marks_before = self.marks@;
                self.marks.set(source, true);
                proof {
                    broadcast use vstd::seq_lib::lemma_seq_contains_after_push;

                    assert(sources@.take(j + 1) =~= sources@.take(j as int).push(source));
                    assert forall|t: int| 0 <= t < count implies (#[trigger] self.marks@[t]
                        <==> block.take(i as int).contains(self.dfa@.next(t, byte) as usize)
                        || sources@.take(j + 1).contains(t as usize)) by {
                        if t != source {
                            assert(self.marks@[t] == marks_before[t]);
                        }
                    }
                }
                j += 1;
            }
            proof {
                broadcast use vstd::seq_lib::lemma_seq_contains_after_push;

                assert(sources@.take(j as int) =~= sources@);
                assert(block.take(i + 1) =~= block.take(i as int).push(state_id));
                assert forall|t: int| 0 <= t < count implies (#[trigger] self.marks@[t]
                    <==> block.take(i + 1).contains(self.dfa@.next(t, byte) as usize)) by {
                    assert(self.dfa@.table[256 * t + byte] < count);
                    assert(self.incoming_transitions@[slot(state_id as int, byte)]@.contains(
                        t as usize,
                    ) <==> self.dfa@.next(t, byte) == state_id);
                }
            }
            i += 1;
        }
        assert(block.take(i as int) =~= block);
        let state_count: usize = self.dfa.state_count();
        let mut state_id: usize = 0;
        while state_id < state_count
            invariant
                self.dfa == old(self).dfa,
                self.partitions == old(self).partitions,
                self.owners == old(self).owners,
                self.partition_id_stack == old(self).partition_id_stack,
                self.incoming_transitions == old(self).incoming_transitions,
                state_count == count,
                state_id <= count,
                self.marks@.len() == count,
                increasing(previous_state_ids@),
                below(previous_state_ids@, state_id as nat),
                forall|t: int| 0 <= t < state_id ==> !self.marks@[t],
                forall|t: int|
                    state_id <= t < count ==> (#[trigger] self.marks@[t] <==> block.contains(
                        self.dfa@.next(t, byte) as usize,
                    )),
                forall|t: StateId| #[trigger]
                    previous_state_ids@.contains(t) <==> t < state_id && block.contains(
                        self.dfa@.next(t as int, byte) as usize,
                    ),
            decreases count - state_id,
        {
            broadcast use vstd::seq_lib::lemma_seq_contains_after_push;

            if self.marks[state_id] {
                previous_state_ids.push(state_id);
                self.marks.set(state_id, false);
            }
            state_id += 1;
        }
        *previous_state_id_set = VecSet::from_vec_unchecked(previous_state_ids);
    }

    /// The automaton whose states are the classes of states that no input
    /// tells apart.
    pub fn minimize(self) -> (minimized: Dfa)
        requires
            self.ready(),
        ensures
            minimizes(minimized@, self.dfa()),
    {
        let mut this = self;
        let mut previous_state_id_set = VecSet::new();
        let mut state_id_set_0 = VecSet::new();
        let mut state_id_set_1 = VecSet::new();
        let ghost count = this.dfa@.tokens.len();
        proof {
            this.model().lemma_block_count();
        }
        while this.partition_id_stack.len() > 0
            invariant
                this.inv(),
                this.dfa@ == self.dfa(),
                count == this.dfa@.tokens.len(),
                this.model().all_settled(Pending::waiting(this.partition_id_stack@)),
                this.partitions@.len() <= count,
            decreases count - this.partitions@.len(), this.partition_id_stack@.len(),
        {
            let ghost stack_before = this.partition_id_stack@;
            let ghost len_before = this.partitions@.len();
            proof {
                this.model().lemma_take(stack_before);
            }
            let partition_id = this.partition_id_stack.pop().unwrap();
            assert(stack_before[stack_before.len() - 1] == partition_id);
            let mut byte: usize = 0;
            while byte < 256
                invariant
                    byte <= 256,
                    this.inv(),
                    this.dfa@ == self.dfa(),
                    count == this.dfa@.tokens.len(),
                    partition_id < this.partitions@.len(),
                    len_before <= this.partitions@.len(),
                    this.partitions@.len() > len_before || this.partition_id_stack@.len()
                        == stack_before.len() - 1,
                    this.model().all_settled(
                        Pending::using(this.partition_id_stack@, partition_id, byte as int),
                    ),
                decreases 256 - byte,
            {
                this.previous_states(partition_id, byte as u8, &mut previous_state_id_set);
                let ghost splitter = this.model().blocks[partition_id as int];
                proof {
                    this.model().lemma_begin(this.partition_id_stack@, partition_id, byte as u8);
                    this.model().lemma_block_separates(partition_id as int);
                }
                this.split_blocks(
                    byte as u8,
                    &previous_state_id_set,
                    &mut state_id_set_0,
                    &mut state_id_set_1,
                    Ghost(partition_id),
                    Ghost(splitter),
                );
                byte += 1;
            }
            proof {
                this.model().lemma_finish(this.partition_id_stack@, partition_id);
                this.model().lemma_block_count();
            }
        }
        assert(this.partition_id_stack@ =~= Seq::empty());
        this.build()
    }

    /// Splits every block into its members that are in
    /// `previous_state_id_set` and the others, where both kinds occur, and
    /// puts the new blocks on the worklist.
    fn split_blocks(
        &mut self,
        byte: u8,
        previous_state_id_set: &VecSet<StateId>,
        state_id_set_0: &mut VecSet<StateId>,
        state_id_set_1: &mut VecSet<StateId>,
        Ghost(current): Ghost<PartitionId>,
        Ghost(splitter): Ghost<Seq<StateId>>,
    )
        requires
            old(self).inv(),
            previous_state_id_set.wf(),
            old(self).model().leads_into(previous_state_id_set@, byte, splitter),
            old(self).model().separates(splitter),
            old(self).model().all_settled(
                Pending::splitting(old(self).partition_id_stack@, current, splitter, byte),
            ),
        ensures
            final(self).inv(),
            final(self).dfa == old(self).dfa,
            final(self).partitions@.len() >= old(self).partitions@.len(),
            final(self).partitions@.len() > old(self).partitions@.len()
                || final(self).partition_id_stack@.len() == old(self).partition_id_stack@.len(),
            final(self).model().all_settled(
                Pending::using(final(self).partition_id_stack@, current, byte + 1),
            ),
    {
        let first_new: usize = self.partitions.len();
        let ghost previous = previous_state_id_set@;
        proof {
            self.dfa.lemma_table_fits();
        }
        let mut partition_id: usize = 0;
        while partition_id < first_new
            invariant
                partition_id <= first_new,
                first_new <= self.partitions@.len(),
                self.dfa == old(self).dfa,
                self.inv(),
                256 * self.dfa@.tokens.len() <= usize::MAX,
                previous_state_id_set.wf(),
                previous == previous_state_id_set@,
                self.model().leads_into(previous, byte, splitter),
                self.model().separates(splitter),
                self.model().all_settled(
                    Pending::splitting(self.partition_id_stack@, current, splitter, byte),
                ),
                self.model().stable(byte, splitter, partition_id as int, first_new as int),
                self.partitions@.len() > first_new || self.partition_id_stack@
                    == old(self).partition_id_stack@,
                first_new == old(self).partitions@.len(),
            decreases first_new - partition_id,
        {
            let ghost r = self.model();
            let ghost block = r.blocks[partition_id as int];
            assert(self.partitions@[partition_id as int]@ == block);
            assert(increasing(block));
            self.partitions[partition_id].intersection(previous_state_id_set).into_vec_set(
                state_id_set_0,
            );
            if state_id_set_0.is_empty() {
                proof {
                    r.lemma_whole_stable(
                        partition_id as int,
                        previous,
                        byte,
                        splitter,
                        first_new as int,
                    );
                }
                partition_id += 1;
                continue;
            }
            self.partitions[partition_id].difference(previous_state_id_set).into_vec_set(
                state_id_set_1,
            );
            if state_id_set_1.is_empty() {
                proof {
                    r.lemma_whole_stable(
                        partition_id as int,
                        previous,
                        byte,
                        splitter,
                        first_new as int,
                    );
                }
                partition_id += 1;
                continue;
            }
            let new_partition_id: usize = self.partitions.len();
            let ghost inside = state_id_set_0@;
            let ghost outside = state_id_set_1@;
            proof {
                r.lemma_block_count();
                r.lemma_split_partition(partition_id as int, previous);
                r.lemma_split_apart(partition_id as int, previous, byte, splitter);
                r.lemma_split_settled(
                    partition_id as int,
                    previous,
                    Pending::splitting(self.partition_id_stack@, current, splitter, byte),
                );
                r.lemma_split_stable(
                    partition_id as int,
                    previous,
                    byte,
                    splitter,
                    first_new as int,
                );
                r.lemma_separates_after_split(partition_id as int, previous, splitter);
                lemma_filter_increasing(block, |x: usize| !previous.contains(x));
            }
            let ghost stack_now = self.partition_id_stack@;
            let ghost incoming_now = self.incoming_transitions@;
            let ghost marks_now = self.marks@;
            let kept = &mut self.partitions[partition_id];
            std::mem::swap(kept, state_id_set_0);
            let mut i: usize = 0;
            while i < state_id_set_1.len()
                invariant
                    i <= outside.len(),
                    outside == state_id_set_1@,
                    self.dfa == old(self).dfa,
                    self.partitions@.len() == r.blocks.len(),
                    self.partitions@[partition_id as int]@ == inside,
                    forall|k: int|
                        0 <= k < self.partitions@.len() && k != partition_id
                            ==> (#[trigger] self.partitions@[k])@ == r.blocks[k],
                    self.partition_id_stack@ == stack_now,
                    self.incoming_transitions@ == incoming_now,
                    self.marks@ == marks_now,
                    self.owners@.len() == r.owner.len(),
                    r.owner.len() <= usize::MAX,
                    new_partition_id == r.blocks.len(),
                    forall|x: StateId| #[trigger] outside.contains(x) ==> x < r.owner.len(),
                    forall|s: int|
                        0 <= s < r.owner.len() ==> #[trigger] self.owners@[s] == if outside.take(
                            i as int,
                        ).contains(s as usize) {
                            new_partition_id
                        } else {
                            r.owner[s]
                        },
                decreases outside.len() - i,
            {
                let member: usize = state_id_set_1.get(i);
                assert(outside.contains(member));
                let ghost owners_before = self.owners@;
                self.owners.set(member, new_partition_id);
                proof {
                    broadcast use vstd::seq_lib::lemma_seq_contains_after_push;

                    assert(outside.take(i + 1) =~= outside.take(i as int).push(member));
                    assert forall|s: int| 0 <= s < r.owner.len() implies #[trigger] self.owners@[s]
                        == if outside.take(i + 1).contains(s as usize) {
                        new_partition_id
                    } else {
                        r.owner[s]
                    } by {
                        if s != member {
                            assert(self.owners@[s] == owners_before[s]);
                        }
                    }
                }
                i += 1;
            }
            let mut block_1 = VecSet::new();
            std::mem::swap(&mut block_1, state_id_set_1);
            self.partitions.push(block_1);
            self.partition_id_stack.push(new_partition_id);
            proof {
                let new = r.split(partition_id as int, previous);
                let now = self.model();
                assert(outside.take(outside.len() as int) =~= outside);
                assert(now.blocks =~= new.blocks);
                assert forall|s: int| 0 <= s < r.owner.len() implies now.owner[s]
                    == new.owner[s] by {
                    r.lemma_member(partition_id as int, s as usize);
                }
                assert(now.owner =~= new.owner);
                assert(now == new);
            }
            partition_id += 1;
        }
        proof {
            self.model().lemma_end(
                self.partition_id_stack@,
                current,
                splitter,
                byte,
                first_new as int,
            );
        }
    }

    /// The automaton that has a state for each block.
    fn build(&self) -> (minimized: Dfa)
        requires
            self.inv(),
            self.model().all_settled(Pending::waiting(Seq::empty())),
        ensures
            minimizes(minimized@, self.dfa@),
    {
        let ghost r = self.model();
        let ghost d = self.dfa@;
        let state_count: usize = self.dfa.state_count();
        proof {
            self.dfa.lemma_table_fits();
        }
        if state_count < 2 {
            return Dfa::new();
        }
        let dead_block: usize = self.owners[dead_state_id()];
        let start_block: usize = self.owners[start_state_id()];
        if dead_block == start_block {
            proof {
                assert forall|input: Seq<u8>|
                    d.tokens[#[trigger] d.run(1, input)] == d.tokens[d.run(0, input)] by {
                    r.lemma_settled_equivalent(1, 0, input);
                }
            }
            return Dfa::new();
        }
        assert(r.owner[1] != r.owner[0]);
        let block_count: usize = self.partitions.len();
        let mut new_ids: Vec<StateId> = repeated(0, block_count);
        let mut order: Vec<PartitionId> = Vec::new();
        order.push(dead_block);
        order.push(start_block);
        new_ids.set(start_block, 1);
        let mut partition_id: usize = 0;
        while partition_id < block_count
            invariant
                partition_id <= block_count,
                dead_block != start_block,
                dead_block < block_count,
                start_block < block_count,
                order@.len() >= 2,
                order@[0] == dead_block,
                order@[1] == start_block,
                new_ids@.len() == block_count,
                forall|t: int|
                    0 <= t < order@.len() ==> (#[trigger] order@[t]) < block_count
                        && new_ids@[order@[t] as int] == t,
                forall|t: int| 2 <= t < order@.len() ==> (#[trigger] order@[t]) < partition_id,
                forall|k: int|
                    0 <= k < block_count && (k < partition_id || k == dead_block || k
                        == start_block) ==> (#[trigger] new_ids@[k]) < order@.len()
                        && order@[new_ids@[k] as int] == k,
            decreases block_count - partition_id,
        {
            if partition_id != dead_block && partition_id != start_block {
                let ghost ids_before = new_ids@;
                let ghost order_before = order@;
                new_ids.set(partition_id, order.len());
                order.push(partition_id);
                proof {
                    assert forall|t: int| 0 <= t < order@.len() implies (#[trigger] order@[t])
                        < block_count && new_ids@[order@[t] as int] == t by {
                        if t < order_before.len() {
                            assert(order@[t] == order_before[t]);
                            assert(order_before[t] != partition_id);
                        }
                    }
                    assert forall|k: int|
                        0 <= k < block_count && (k < partition_id + 1 || k == dead_block || k
                            == start_block) implies (#[trigger] new_ids@[k]) < order@.len()
                        && order@[new_ids@[k] as int] == k by {
                        if k != partition_id {
                            assert(new_ids@[k] == ids_before[k]);
                            assert(order@[ids_before[k] as int] == order_before[ids_before[k] as int]);
                        }
                    }
                }
            }
            partition_id += 1;
        }
        assert(renumbering(r, new_ids@, order@));
        let mut minimized = Dfa::new();
        proof {
            DfaView::lemma_token_bound(d.tokens);
        }
        let mut state_id: usize = 1;
        while state_id < order.len()
            invariant
                1 <= state_id <= order@.len(),
                self.inv(),
                r == self.model(),
                d == self.dfa@,
                renumbering(r, new_ids@, order@),
                built(r, new_ids@, order@, minimized@, state_id as int, 1),
                forall|s: int|
                    0 <= s < d.tokens.len() && (#[trigger] d.tokens[s]) is Some ==> d.tokens[s]->0
                        < usize::MAX,
            decreases order@.len() - state_id,
        {
            let partition_id: usize = order[state_id];
            assert(self.partitions@[partition_id as int]@ == r.blocks[partition_id as int]);
            let representative_id: usize = self.partitions[partition_id].get(0);
            assert(r.blocks[partition_id as int].contains(representative_id));
            assert(representative_id == representative(r, order@, state_id as int));
            let matched_token = self.dfa.matched_token(representative_id);
            let ghost before = minimized@;
            minimized.add_state(matched_token);
            proof {
                let now = minimized@;
                assert forall|t: int| 1 <= t < state_id + 1 implies #[trigger] now.tokens[t]
                    == r.dfa.tokens[representative(r, order@, t)] by {
                    if t < state_id {
                        assert(now.tokens[t] == before.tokens[t]);
                    }
                }
            }
            state_id += 1;
        }
        let mut state_id: usize = 1;
        while state_id < order.len()
            invariant
                1 <= state_id <= order@.len(),
                self.inv(),
                r == self.model(),
                d == self.dfa@,
                renumbering(r, new_ids@, order@),
                built(r, new_ids@, order@, minimized@, order@.len() as int, state_id as int),
            decreases order@.len() - state_id,
        {
            let partition_id: usize = order[state_id];
            assert(self.partitions@[partition_id as int]@ == r.blocks[partition_id as int]);
            let representative_id: usize = self.partitions[partition_id].get(0);
            assert(r.blocks[partition_id as int].contains(representative_id));
            assert(representative_id == representative(r, order@, state_id as int));
            let mut byte: usize = 0;
            while byte < 256
                invariant
                    byte <= 256,
                    1 <= state_id < order@.len(),
                    self.inv(),
                    r == self.model(),
                    d == self.dfa@,
                    representative_id < d.tokens.len(),
                    representative_id == representative(r, order@, state_id as int),
                    renumbering(r, new_ids@, order@),
                    built(r, new_ids@, order@, minimized@, order@.len() as int, state_id as int),
                    forall|b: u8|
                        b < byte ==> #[trigger] minimized@.next(state_id as int, b)
                            == new_ids@[r.owner[d.next(representative_id as int, b)] as int],
                decreases 256 - byte,
            {
                let next_state_id = self.dfa.next_state(representative_id, byte as u8);
                let next_partition_id: usize = self.owners[next_state_id];
                assert(r.owner[next_state_id as int] < r.blocks.len());
                let target: usize = new_ids[next_partition_id];
                let ghost before = minimized@;
                minimized.add_transition(state_id, byte as u8, target);
                proof {
                    let now = minimized@;
                    assert forall|t: int, b: u8| 1 <= t < state_id implies #[trigger] now.next(
                        t,
                        b,
                    ) == new_ids@[r.owner[r.dfa.next(representative(r, order@, t), b)] as int] by {
                        assert(now.table[256 * t + b] == before.table[256 * t + b]);
                        assert(before.next(t, b) == new_ids@[r.owner[r.dfa.next(
                            representative(r, order@, t),
                            b,
                        )] as int]);
                    }
                    assert forall|b: u8| b < byte + 1 implies #[trigger] now.next(
                        state_id as int,
                        b,
                    ) == new_ids@[r.owner[d.next(representative_id as int, b)] as int] by {
                        if b < byte {
                            assert(now.table[256 * state_id + b] == before.table[256 * state_id
                                + b]);
                            assert(before.next(state_id as int, b) == new_ids@[r.owner[d.next(
                                representative_id as int,
                                b,
                            )] as int]);
                        }
                    }
                }
                byte += 1;
            }
            state_id += 1;
        }
        proof {
            lemma_built_quotient(r, new_ids@, order@, minimized@);
            assert(!d.equivalent(d.start(), 0));
        }
        minimized
    }
}

} // verus!
