//! A set of small integers with constant-time membership, insertion and clearing.

use vstd::prelude::*;

verus! {

/// A set of integers below a fixed bound, kept in insertion order.
///
/// `dense` lists the members; `sparse[v]` is the position of `v` in `dense`
/// whenever `v` is a member, and is otherwise arbitrary. Clearing therefore
/// only has to empty `dense`.
#[derive(Debug)]
pub struct SparseSet {
    dense: Vec<usize>,
    sparse: Vec<usize>,
}

/// A sequence of distinct numbers below `bound` has at most `bound` entries.
pub proof fn lemma_distinct_bounded_len(s: Seq<usize>, bound: nat)
    requires
        s.no_duplicates(),
        forall|i: int| 0 <= i < s.len() ==> s[i] < bound,
    ensures
        s.len() <= bound,
    decreases bound,
{
    if s.len() == 0 {
    } else if bound == 0 {
        assert(s[0] < bound);
    } else {
        let top = (bound - 1) as usize;
        if s.contains(top) {
            let k = choose|k: int| 0 <= k < s.len() && s[k] == top;
            let rest = s.remove(k);
            assert forall|i: int| 0 <= i < rest.len() implies rest[i] < bound - 1 by {
                if i < k {
                    assert(rest[i] == s[i]);
                } else {
                    assert(rest[i] == s[i + 1]);
                }
            }
            assert(rest.no_duplicates());
            lemma_distinct_bounded_len(rest, (bound - 1) as nat);
        } else {
            assert forall|i: int| 0 <= i < s.len() implies s[i] < bound - 1 by {
                assert(s.contains(s[i]));
            }
            lemma_distinct_bounded_len(s, (bound - 1) as nat);
        }
    }
}

fn zeros(len: usize) -> (v: Vec<usize>)
    ensures
        v@.len() == len,
        forall|i: int| 0 <= i < len ==> v@[i] == 0,
{
    let mut v: Vec<usize> = Vec::new();
    let mut i: usize = 0;
    while i < len
        invariant
            i <= len,
            v@.len() == i,
            forall|k: int| 0 <= k < i ==> v@[k] == 0,
        decreases len - i,
    {
        v.push(0);
        i += 1;
    }
    v
}

impl View for SparseSet {
    type V = Seq<usize>;

    /// The members, in the order in which they were inserted.
    closed spec fn view(&self) -> Seq<usize> {
        self.dense@
    }
}

impl SparseSet {
    /// The bound below which every member lies.
    pub closed spec fn capacity(&self) -> nat {
        self.sparse@.len()
    }

    /// The position table: for a member, its place among the members; for
    /// any other number, whatever was written there last.
    pub closed spec fn positions(&self) -> Seq<usize> {
        self.sparse@
    }

    /// The position table agrees with the member list.
    pub closed spec fn index_consistent(&self) -> bool {
        forall|i: int|
            0 <= i < self.dense@.len() ==> (#[trigger] self.dense@[i]) < self.sparse@.len()
                && self.sparse@[self.dense@[i] as int] == i
    }

    /// Members are distinct and below the capacity.
    pub open spec fn wf(&self) -> bool {
        &&& self.index_consistent()
        &&& self@.no_duplicates()
        &&& self@.len() <= self.capacity()
        &&& forall|i: int| 0 <= i < self@.len() ==> self@[i] < self.capacity()
    }

    /// An empty set over the numbers below `capacity`.
    pub fn new(capacity: usize) -> (set: Self)
        ensures
            set.wf(),
            set@ == Seq::<usize>::empty(),
            set.capacity() == capacity,
    {
        Self { dense: Vec::new(), sparse: zeros(capacity) }
    }

    pub fn is_empty(&self) -> (b: bool)
        ensures
            b == (self@.len() == 0),
    {
        self.dense.len() == 0
    }

    pub fn len(&self) -> (n: usize)
        ensures
            n == self@.len(),
    {
        self.dense.len()
    }

    /// Whether `value` is a member.
    pub fn contains(&self, value: usize) -> (b: bool)
        requires
            self.wf(),
            value < self.capacity(),
        ensures
            b == self@.contains(value),
    {
        let index: usize = self.sparse[value];
        let found = index < self.dense.len() && self.dense[index] == value;
        proof {
            if self@.contains(value) {
                let k = choose|k: int| 0 <= k < self.dense@.len() && self.dense@[k] == value;
                assert(self.sparse@[self.dense@[k] as int] == k);
            }
        }
        found
    }

    /// A cursor over the members in insertion order.
    pub fn iter(&self) -> (iter: Iter<'_>)
        ensures
            iter@ == self@,
    {
        Iter { items: &self.dense, position: 0 }
    }

    /// Adds `value` unless it is already a member; says whether it was added.
    pub fn insert(&mut self, value: usize) -> (added: bool)
        requires
            old(self).wf(),
            value < old(self).capacity(),
        ensures
            final(self).wf(),
            final(self).capacity() == old(self).capacity(),
            added == !old(self)@.contains(value),
            final(self)@ == if added {
                old(self)@.push(value)
            } else {
                old(self)@
            },
            final(self).positions() == if added {
                old(self).positions().update(value as int, old(self)@.len() as usize)
            } else {
                old(self).positions()
            },
    {
        if self.contains(value) {
            return false;
        }
        let index: usize = self.dense.len();
        proof {
            let grown = self.dense@.push(value);
            assert(grown.no_duplicates());
            assert forall|i: int| 0 <= i < grown.len() implies grown[i] < self.sparse@.len() by {
                if i < self.dense@.len() {
                    assert(grown[i] == self@[i]);
                }
            }
            lemma_distinct_bounded_len(grown, self.sparse@.len());
        }
        self.dense.push(value);
        self.sparse.set(value, index);
        proof {
            assert forall|i: int| 0 <= i < self.dense@.len() implies (#[trigger] self.dense@[i])
                < self.sparse@.len() && self.sparse@[self.dense@[i] as int] == i by {
                if i < index {
                    assert(self.dense@[i] == old(self).dense@[i]);
                    assert(old(self)@.contains(old(self).dense@[i]));
                }
            }
        }
        true
    }

    /// Removes every member. The position table is left as it is.
    pub fn clear(&mut self)
        ensures
            final(self).wf(),
            final(self).capacity() == old(self).capacity(),
            final(self).positions() == old(self).positions(),
            final(self)@ == Seq::<usize>::empty(),
    {
        self.dense.clear();
    }
}

/// A cursor over the members of a [`SparseSet`].
pub struct Iter<'a> {
    items: &'a Vec<usize>,
    position: usize,
}

impl<'a> View for Iter<'a> {
    type V = Seq<usize>;

    /// The members still to come.
    closed spec fn view(&self) -> Seq<usize> {
        self.items@.skip(self.position as int)
    }
}

impl<'a> Iter<'a> {
    #[verifier::type_invariant]
    spec fn in_bounds(self) -> bool {
        self.position <= self.items@.len()
    }

    /// The next member, if any is left.
    pub fn next(&mut self) -> (item: Option<usize>)
        ensures
            old(self)@.len() == 0 ==> item.is_none() && final(self)@ == old(self)@,
            old(self)@.len() > 0 ==> item == Some(old(self)@[0]) && final(self)@ == old(
                self,
            )@.drop_first(),
    {
        proof {
            use_type_invariant(&*self);
        }
        if self.position < self.items.len() {
            let item: usize = self.items[self.position];
            self.position += 1;
            assert(self.items@.skip(self.position as int) =~= self.items@.skip(
                self.position - 1,
            ).drop_first());
            Some(item)
        } else {
            None
        }
    }
}

} // verus!
