//! Sets as vectors; sets of state ids as increasing vectors, with lazy
//! intersection and difference.

use crate::counting::increasing;
use vstd::prelude::*;

verus! {

/// The members of `a` that are not in `b`, in the order of `a`.
pub open spec fn difference_of(a: Seq<usize>, b: Seq<usize>) -> Seq<usize> {
    a.filter(|x: usize| !b.contains(x))
}

/// The members of `a` that are in `b` too, in the order of `a`.
pub open spec fn intersection_of(a: Seq<usize>, b: Seq<usize>) -> Seq<usize> {
    a.filter(|x: usize| b.contains(x))
}

/// Two tests that agree on every entry of a sequence keep the same entries.
pub proof fn lemma_filter_agree(
    s: Seq<usize>,
    first: spec_fn(usize) -> bool,
    second: spec_fn(usize) -> bool,
)
    requires
        forall|i: int| 0 <= i < s.len() ==> first(s[i]) == second(s[i]),
    ensures
        s.filter(first) == s.filter(second),
    decreases s.len(),
{
    reveal(Seq::filter);
    if s.len() > 0 {
        assert forall|i: int| 0 <= i < s.drop_last().len() implies first(s.drop_last()[i])
            == second(s.drop_last()[i]) by {
            assert(s.drop_last()[i] == s[i]);
        }
        lemma_filter_agree(s.drop_last(), first, second);
        assert(first(s.last()) == second(s.last()));
    }
}

/// What a test keeps of an increasing sequence is increasing, and its
/// members are the members that pass the test.
pub proof fn lemma_filter_increasing(s: Seq<usize>, test: spec_fn(usize) -> bool)
    requires
        increasing(s),
    ensures
        increasing(s.filter(test)),
        forall|x: usize| #[trigger] s.filter(test).contains(x) <==> s.contains(x) && test(x),
    decreases s.len(),
{
    reveal(Seq::filter);
    let kept = s.filter(test);
    if s.len() > 0 {
        let rest = s.drop_last();
        lemma_filter_increasing(rest, test);
        let before = rest.filter(test);
        assert forall|x: usize| #[trigger] kept.contains(x) <==> s.contains(x) && test(x) by {
            if kept.contains(x) {
                let i = choose|i: int| 0 <= i < kept.len() && kept[i] == x;
                if i < before.len() {
                    assert(before[i] == x);
                    assert(before.contains(x));
                    let j = choose|j: int| 0 <= j < rest.len() && rest[j] == x;
                    assert(s[j] == x);
                } else {
                    assert(x == s.last());
                    assert(s[s.len() - 1] == x);
                }
            }
            if s.contains(x) && test(x) {
                let j = choose|j: int| 0 <= j < s.len() && s[j] == x;
                if j < rest.len() {
                    assert(rest[j] == x);
                    assert(before.contains(x));
                    let i = choose|i: int| 0 <= i < before.len() && before[i] == x;
                    assert(kept[i] == x);
                } else {
                    assert(kept[kept.len() - 1] == x);
                }
            }
        }
        assert forall|i: int, j: int| 0 <= i < j < kept.len() implies kept[i] < kept[j] by {
            if j < before.len() {
                assert(before[i] < before[j]);
            } else {
                assert(kept[i] == before[i]);
                assert(before.contains(before[i]));
                let k = choose|k: int| 0 <= k < rest.len() && rest[k] == before[i];
                assert(s[k] < s[s.len() - 1]);
            }
        }
    } else {
        assert forall|x: usize| #[trigger] kept.contains(x) <==> s.contains(x) && test(x) by {}
    }
}

/// Where the first of `a` is less than everything in `b`, it is the first
/// of the difference.
pub proof fn lemma_difference_less(a: Seq<usize>, b: Seq<usize>)
    requires
        increasing(b),
        a.len() > 0,
        b.len() == 0 || a[0] < b[0],
    ensures
        difference_of(a, b) == seq![a[0]] + difference_of(a.drop_first(), b),
{
    assert(a =~= seq![a[0]] + a.drop_first());
    a.drop_first().lemma_filter_prepend(a[0], |x: usize| !b.contains(x));
    if b.contains(a[0]) {
        let j = choose|j: int| 0 <= j < b.len() && b[j] == a[0];
        if j > 0 {
            assert(b[0] < b[j]);
        }
    }
}

/// Where `a` and `b` begin with the same member, the difference is that
/// of what follows in both.
pub proof fn lemma_difference_equal(a: Seq<usize>, b: Seq<usize>)
    requires
        increasing(a),
        increasing(b),
        a.len() > 0,
        b.len() > 0,
        a[0] == b[0],
    ensures
        difference_of(a, b) == difference_of(a.drop_first(), b.drop_first()),
{
    let rest = a.drop_first();
    assert(a =~= seq![a[0]] + rest);
    rest.lemma_filter_prepend(a[0], |x: usize| !b.contains(x));
    assert(b.contains(a[0])) by {
        assert(b[0] == a[0]);
    }
    assert(seq![]+ rest.filter(|x: usize| !b.contains(x)) =~= rest.filter(
        |x: usize| !b.contains(x),
    ));
    assert forall|i: int| 0 <= i < rest.len() implies (!b.contains(rest[i])) == (
    !b.drop_first().contains(rest[i])) by {
        lemma_drop_first_contains(a, b, rest[i], i + 1);
    }
    lemma_filter_agree(rest, |x: usize| !b.contains(x), |x: usize| !b.drop_first().contains(x));
}

/// A member of `a` after its first is in `b` if and only if it is in `b`
/// without its first, where that first is not above the first of `a`.
pub proof fn lemma_drop_first_contains(a: Seq<usize>, b: Seq<usize>, x: usize, i: int)
    requires
        increasing(a),
        increasing(b),
        b.len() > 0,
        0 < i < a.len(),
        a[i] == x,
        b[0] <= a[0],
    ensures
        b.contains(x) == b.drop_first().contains(x),
{
    assert(a[0] < a[i]);
    if b.contains(x) {
        let j = choose|j: int| 0 <= j < b.len() && b[j] == x;
        assert(j > 0);
        assert(b.drop_first()[j - 1] == x);
    }
    if b.drop_first().contains(x) {
        let j = choose|j: int| 0 <= j < b.drop_first().len() && b.drop_first()[j] == x;
        assert(b[j + 1] == x);
    }
}

/// Where `b` begins below the first of `a`, its first makes no difference.
pub proof fn lemma_difference_greater(a: Seq<usize>, b: Seq<usize>)
    requires
        increasing(a),
        increasing(b),
        a.len() > 0,
        b.len() > 0,
        a[0] > b[0],
    ensures
        difference_of(a, b) == difference_of(a, b.drop_first()),
        intersection_of(a, b) == intersection_of(a, b.drop_first()),
{
    assert forall|i: int| 0 <= i < a.len() implies b.contains(a[i]) == b.drop_first().contains(
        a[i],
    ) by {
        if i == 0 {
            if b.contains(a[0]) {
                let j = choose|j: int| 0 <= j < b.len() && b[j] == a[0];
                assert(j > 0);
                assert(b.drop_first()[j - 1] == a[0]);
            }
            if b.drop_first().contains(a[0]) {
                let j = choose|j: int|
                    0 <= j < b.drop_first().len() && b.drop_first()[j] == a[0];
                assert(b[j + 1] == a[0]);
            }
        } else {
            lemma_drop_first_contains(a, b, a[i], i);
        }
    }
    lemma_filter_agree(a, |x: usize| !b.contains(x), |x: usize| !b.drop_first().contains(x));
    lemma_filter_agree(a, |x: usize| b.contains(x), |x: usize| b.drop_first().contains(x));
}

/// Where the first of `a` is less than everything in `b`, it is not in
/// the intersection.
pub proof fn lemma_intersection_less(a: Seq<usize>, b: Seq<usize>)
    requires
        increasing(b),
        a.len() > 0,
        b.len() == 0 || a[0] < b[0],
    ensures
        intersection_of(a, b) == intersection_of(a.drop_first(), b),
{
    assert(a =~= seq![a[0]] + a.drop_first());
    a.drop_first().lemma_filter_prepend(a[0], |x: usize| b.contains(x));
    if b.contains(a[0]) {
        let j = choose|j: int| 0 <= j < b.len() && b[j] == a[0];
        if j > 0 {
            assert(b[0] < b[j]);
        }
    }
    assert(seq![]+ a.drop_first().filter(|x: usize| b.contains(x)) =~= a.drop_first().filter(
        |x: usize| b.contains(x),
    ));
}

/// Where `a` and `b` begin with the same member, it is the first of the
/// intersection.
pub proof fn lemma_intersection_equal(a: Seq<usize>, b: Seq<usize>)
    requires
        increasing(a),
        increasing(b),
        a.len() > 0,
        b.len() > 0,
        a[0] == b[0],
    ensures
        intersection_of(a, b) == seq![a[0]] + intersection_of(a.drop_first(), b.drop_first()),
{
    let rest = a.drop_first();
    assert(a =~= seq![a[0]] + rest);
    rest.lemma_filter_prepend(a[0], |x: usize| b.contains(x));
    assert(b.contains(a[0])) by {
        assert(b[0] == a[0]);
    }
    assert forall|i: int| 0 <= i < rest.len() implies b.contains(rest[i])
        == b.drop_first().contains(rest[i]) by {
        lemma_drop_first_contains(a, b, rest[i], i + 1);
    }
    lemma_filter_agree(rest, |x: usize| b.contains(x), |x: usize| b.drop_first().contains(x));
}

/// A set, held as a vector; a set of state ids as an increasing vector.
#[derive(Debug)]
pub struct VecSet<T>(Vec<T>);

impl<T> View for VecSet<T> {
    type V = Seq<T>;

    /// The members in the order of the vector.
    closed spec fn view(&self) -> Seq<T> {
        self.0@
    }
}

impl<T> VecSet<T> {
    pub fn new() -> (set: Self)
        ensures
            set@ == Seq::<T>::empty(),
    {
        Self(Vec::new())
    }

    pub fn is_empty(&self) -> (b: bool)
        ensures
            b == (self@.len() == 0),
    {
        self.0.len() == 0
    }

    pub fn len(&self) -> (n: usize)
        ensures
            n == self@.len(),
    {
        self.0.len()
    }

    /// A cursor over the members in the order of the vector.
    pub fn iter(&self) -> (iter: Iter<'_, T>)
        ensures
            iter@ == self@,
    {
        Iter { items: &self.0, position: 0 }
    }

    pub fn into_vec(self) -> (vec: Vec<T>)
        ensures
            vec@ == self@,
    {
        self.0
    }
}

impl VecSet<usize> {
    /// The members increase, so none occurs twice.
    pub open spec fn wf(&self) -> bool {
        increasing(self@)
    }

    /// The set of the entries of an increasing vector.
    pub fn from_vec_unchecked(vec: Vec<usize>) -> (set: Self)
        requires
            increasing(vec@),
        ensures
            set@ == vec@,
            set.wf(),
    {
        Self(vec)
    }

    /// The member at position `index` of the increasing order.
    pub fn get(&self, index: usize) -> (member: usize)
        requires
            index < self@.len(),
        ensures
            member == self@[index as int],
    {
        self.0[index]
    }

    /// A cursor over the members that are not in `other`.
    pub fn difference<'a>(&'a self, other: &'a Self) -> (difference: Difference<'a>)
        requires
            self.wf(),
            other.wf(),
        ensures
            difference.wf(),
            difference@ == difference_of(self@, other@),
    {
        let difference = Difference { items: &self.0, position: 0, others: &other.0, other_position: 0 };
        assert(self.0@.skip(0) =~= self.0@);
        assert(other.0@.skip(0) =~= other.0@);
        difference
    }

    /// A cursor over the members that are in `other` too.
    pub fn intersection<'a>(&'a self, other: &'a Self) -> (intersection: Intersection<'a>)
        requires
            self.wf(),
            other.wf(),
        ensures
            intersection.wf(),
            intersection@ == intersection_of(self@, other@),
    {
        let intersection = Intersection {
            items: &self.0,
            position: 0,
            others: &other.0,
            other_position: 0,
        };
        assert(self.0@.skip(0) =~= self.0@);
        assert(other.0@.skip(0) =~= other.0@);
        intersection
    }
}

/// A cursor over the members of a [`VecSet`].
pub struct Iter<'a, T> {
    items: &'a Vec<T>,
    position: usize,
}

impl<'a, T> View for Iter<'a, T> {
    type V = Seq<T>;

    /// The members still to come.
    closed spec fn view(&self) -> Seq<T> {
        self.items@.skip(self.position as int)
    }
}

impl<'a, T> Iter<'a, T> {
    #[verifier::type_invariant]
    spec fn in_bounds(self) -> bool {
        self.position <= self.items@.len()
    }

    /// The next member, if any is left.
    pub fn next(&mut self) -> (item: Option<&'a T>)
        ensures
            old(self)@.len() == 0 ==> item.is_none() && final(self)@ == old(self)@,
            old(self)@.len() > 0 ==> item == Some(&old(self)@[0]) && final(self)@ == old(
                self,
            )@.drop_first(),
    {
        proof {
            use_type_invariant(&*self);
        }
        if self.position < self.items.len() {
            let item = &self.items[self.position];
            self.position += 1;
            assert(self.items@.skip(self.position as int) =~= self.items@.skip(
                self.position - 1,
            ).drop_first());
            Some(item)
        } else {
            None
        }
    }
}

/// A cursor over the members of one set that are not in another.
pub struct Difference<'a> {
    items: &'a Vec<usize>,
    position: usize,
    others: &'a Vec<usize>,
    other_position: usize,
}

impl<'a> View for Difference<'a> {
    type V = Seq<usize>;

    /// The members still to come.
    closed spec fn view(&self) -> Seq<usize> {
        difference_of(
            self.items@.skip(self.position as int),
            self.others@.skip(self.other_position as int),
        )
    }
}

impl<'a> Difference<'a> {
    /// Both sets increase, and the cursor is within them.
    pub closed spec fn wf(&self) -> bool {
        &&& increasing(self.items@)
        &&& increasing(self.others@)
        &&& self.position <= self.items@.len()
        &&& self.other_position <= self.others@.len()
    }

    /// What is still to come increases.
    pub proof fn lemma_increasing(&self)
        requires
            self.wf(),
        ensures
            increasing(self@),
    {
        let rest = self.items@.skip(self.position as int);
        let others = self.others@.skip(self.other_position as int);
        lemma_filter_increasing(rest, |x: usize| !others.contains(x));
    }

    /// The next member of the first set that is not in the second, if any is left.
    pub fn next(&mut self) -> (item: Option<&'a usize>)
        requires
            old(self).wf(),
        ensures
            final(self).wf(),
            old(self)@.len() == 0 ==> item.is_none() && final(self)@ == old(self)@,
            old(self)@.len() > 0 ==> item == Some(&old(self)@[0]) && final(self)@ == old(
                self,
            )@.drop_first(),
    {
        while self.position < self.items.len()
            invariant
                self.wf(),
                self@ == old(self)@,
                self.items == old(self).items,
                self.others == old(self).others,
            decreases
                    self.items@.len() - self.position + self.others@.len() - self.other_position,
        {
            let ghost rest = self.items@.skip(self.position as int);
            let ghost others = self.others@.skip(self.other_position as int);
            let item = &self.items[self.position];
            proof {
                assert(rest[0] == *item);
                assert(rest.drop_first() =~= self.items@.skip(self.position + 1));
                if self.other_position < self.others@.len() {
                    assert(others.drop_first() =~= self.others@.skip(self.other_position + 1));
                    assert(others[0] == self.others@[self.other_position as int]);
                }
            }
            if self.other_position >= self.others.len() {
                proof {
                    lemma_difference_less(rest, others);
                }
                self.position += 1;
                assert(old(self)@.drop_first() =~= self@);
                return Some(item);
            }
            let other_item = &self.others[self.other_position];
            if *item < *other_item {
                proof {
                    lemma_difference_less(rest, others);
                }
                self.position += 1;
                assert(old(self)@.drop_first() =~= self@);
                return Some(item);
            } else if *item == *other_item {
                proof {
                    lemma_difference_equal(rest, others);
                }
                self.position += 1;
                self.other_position += 1;
            } else {
                proof {
                    lemma_difference_greater(rest, others);
                }
                self.other_position += 1;
            }
        }
        proof {
            reveal(Seq::filter);
            assert(self.items@.skip(self.position as int) =~= Seq::empty());
        }
        None
    }

    /// Replaces the members of `vec_set` by those still to come.
    pub fn into_vec_set(self, vec_set: &mut VecSet<usize>)
        requires
            self.wf(),
        ensures
            final(vec_set)@ == self@,
            final(vec_set).wf(),
    {
        let mut rest = self;
        vec_set.0.clear();
        proof {
            rest.lemma_increasing();
        }
        loop
            invariant
                rest.wf(),
                vec_set.0@ + rest@ == self@,
            ensures
                vec_set.0@ == self@,
            decreases rest@.len(),
        {
            let ghost before = rest@;
            match rest.next() {
                Some(item) => {
                    let ghost grown = vec_set.0@;
                    vec_set.0.push(*item);
                    assert(vec_set.0@ + rest@ =~= grown + before);
                },
                None => {
                    assert(vec_set.0@ + rest@ =~= vec_set.0@);
                    break;
                },
            }
        }
        proof {
            self.lemma_increasing();
        }
    }
}

/// A cursor over the members that two sets share.
pub struct Intersection<'a> {
    items: &'a Vec<usize>,
    position: usize,
    others: &'a Vec<usize>,
    other_position: usize,
}

impl<'a> View for Intersection<'a> {
    type V = Seq<usize>;

    /// The members still to come.
    closed spec fn view(&self) -> Seq<usize> {
        intersection_of(
            self.items@.skip(self.position as int),
            self.others@.skip(self.other_position as int),
        )
    }
}

impl<'a> Intersection<'a> {
    /// Both sets increase, and the cursor is within them.
    pub closed spec fn wf(&self) -> bool {
        &&& increasing(self.items@)
        &&& increasing(self.others@)
        &&& self.position <= self.items@.len()
        &&& self.other_position <= self.others@.len()
    }

    /// What is still to come increases.
    pub proof fn lemma_increasing(&self)
        requires
            self.wf(),
        ensures
            increasing(self@),
    {
        let rest = self.items@.skip(self.position as int);
        let others = self.others@.skip(self.other_position as int);
        lemma_filter_increasing(rest, |x: usize| others.contains(x));
    }

    /// The next member that both sets have, if any is left.
    pub fn next(&mut self) -> (item: Option<&'a usize>)
        requires
            old(self).wf(),
        ensures
            final(self).wf(),
            old(self)@.len() == 0 ==> item.is_none() && final(self)@ == old(self)@,
            old(self)@.len() > 0 ==> item == Some(&old(self)@[0]) && final(self)@ == old(
                self,
            )@.drop_first(),
    {
        while self.position < self.items.len() && self.other_position < self.others.len()
            invariant
                self.wf(),
                self@ == old(self)@,
                self.items == old(self).items,
                self.others == old(self).others,
            decreases
                    self.items@.len() - self.position + self.others@.len() - self.other_position,
        {
            let ghost rest = self.items@.skip(self.position as int);
            let ghost others = self.others@.skip(self.other_position as int);
            let item = &self.items[self.position];
            let other_item = &self.others[self.other_position];
            proof {
                assert(rest[0] == *item);
                assert(others[0] == *other_item);
                assert(rest.drop_first() =~= self.items@.skip(self.position + 1));
                assert(others.drop_first() =~= self.others@.skip(self.other_position + 1));
            }
            if *item < *other_item {
                proof {
                    lemma_intersection_less(rest, others);
                }
                self.position += 1;
            } else if *item == *other_item {
                proof {
                    lemma_intersection_equal(rest, others);
                }
                self.position += 1;
                self.other_position += 1;
                assert(old(self)@.drop_first() =~= self@);
                return Some(item);
            } else {
                proof {
                    lemma_difference_greater(rest, others);
                }
                self.other_position += 1;
            }
        }
        proof {
            let rest = self.items@.skip(self.position as int);
            let others = self.others@.skip(self.other_position as int);
            if rest.len() > 0 {
                assert(others =~= Seq::empty());
                rest.lemma_all_neg_filter_empty(|x: usize| others.contains(x));
            } else {
                reveal(Seq::filter);
                assert(rest =~= Seq::empty());
            }
        }
        None
    }

    /// Replaces the members of `vec_set` by those still to come.
    pub fn into_vec_set(self, vec_set: &mut VecSet<usize>)
        requires
            self.wf(),
        ensures
            final(vec_set)@ == self@,
            final(vec_set).wf(),
    {
        let mut rest = self;
        vec_set.0.clear();
        loop
            invariant
                rest.wf(),
                vec_set.0@ + rest@ == self@,
            ensures
                vec_set.0@ == self@,
            decreases rest@.len(),
        {
            let ghost before = rest@;
            match rest.next() {
                Some(item) => {
                    let ghost grown = vec_set.0@;
                    vec_set.0.push(*item);
                    assert(vec_set.0@ + rest@ =~= grown + before);
                },
                None => {
                    assert(vec_set.0@ + rest@ =~= vec_set.0@);
                    break;
                },
            }
        }
        proof {
            self.lemma_increasing();
        }
    }
}

} // verus!
