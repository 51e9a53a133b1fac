//! How many subsets a bounded range has: the bound that ends the subset
//! construction.

use vstd::prelude::*;
use vstd::relations::injective_on;
use vstd::set_lib::*;

verus! {

/// 2 to the power of `n`.
pub open spec fn pow2(n: nat) -> nat
    decreases n,
{
    if n == 0 {
        1
    } else {
        2 * pow2((n - 1) as nat)
    }
}

/// Whether each entry is larger than the one before.
pub open spec fn increasing(s: Seq<usize>) -> bool {
    forall|i: int, j: int| 0 <= i < j < s.len() ==> s[i] < s[j]
}

/// Whether every entry is less than `bound`.
pub open spec fn below(s: Seq<usize>, bound: nat) -> bool {
    forall|i: int| 0 <= i < s.len() ==> s[i] < bound
}

/// Increasing sequences with the same members are the same.
pub proof fn lemma_increasing_same_set(a: Seq<usize>, b: Seq<usize>)
    requires
        increasing(a),
        increasing(b),
        a.to_set() == b.to_set(),
    ensures
        a == b,
    decreases a.len(),
{
    if a.len() == 0 {
        if b.len() > 0 {
            assert(b.to_set().contains(b[0]));
            assert(a.contains(b[0]));
        }
        assert(a =~= b);
    } else {
        assert(a.to_set().contains(a.last()));
        assert(b.contains(a.last()));
        let j = choose|j: int| 0 <= j < b.len() && b[j] == a.last();
        assert(b.to_set().contains(b.last()));
        assert(a.contains(b.last()));
        let i = choose|i: int| 0 <= i < a.len() && a[i] == b.last();
        assert(a.last() == b.last()) by {
            if j < b.len() - 1 {
                assert(b[j] < b[b.len() - 1]);
            }
            if i < a.len() - 1 {
                assert(a[i] < a[a.len() - 1]);
            }
        }
        let a0 = a.drop_last();
        let b0 = b.drop_last();
        assert forall|x: usize| a0.to_set().contains(x) <==> b0.to_set().contains(x) by {
            if a0.contains(x) {
                let k = choose|k: int| 0 <= k < a0.len() && a0[k] == x;
                assert(a[k] < a[a.len() - 1]);
                assert(a.to_set().contains(a[k]));
                assert(b.contains(x));
                let l = choose|l: int| 0 <= l < b.len() && b[l] == x;
                assert(b0[l] == x);
            }
            if b0.contains(x) {
                let k = choose|k: int| 0 <= k < b0.len() && b0[k] == x;
                assert(b[k] < b[b.len() - 1]);
                assert(b.to_set().contains(b[k]));
                assert(a.contains(x));
                let l = choose|l: int| 0 <= l < a.len() && a[l] == x;
                assert(a0[l] == x);
            }
        }
        assert(a0.to_set() =~= b0.to_set());
        lemma_increasing_same_set(a0, b0);
        assert(a =~= a0.push(a.last()));
        assert(b =~= b0.push(b.last()));
    }
}

/// There are at most `pow2(n)` increasing sequences of numbers below `n`.
pub proof fn lemma_subsets_bound(keys: Set<Seq<usize>>, n: nat)
    requires
        keys.finite(),
        forall|s: Seq<usize>| #[trigger] keys.contains(s) ==> increasing(s) && below(s, n),
    ensures
        keys.len() <= pow2(n),
    decreases n,
{
    if n == 0 {
        let only = set![Seq::<usize>::empty()];
        assert forall|s: Seq<usize>| #[trigger] keys.contains(s) implies only.contains(s) by {
            if s.len() > 0 {
                assert(s[0] < n);
            }
            assert(s =~= Seq::<usize>::empty());
        }
        lemma_len_subset(keys, only);
    } else {
        let ends_in_top = |s: Seq<usize>| s.len() > 0 && s.last() == n - 1;
        let with = keys.filter(ends_in_top);
        let without = keys.filter(|s: Seq<usize>| !ends_in_top(s));
        keys.lemma_len_filter(ends_in_top);
        keys.lemma_len_filter(|s: Seq<usize>| !ends_in_top(s));
        assert(keys =~= with + without);
        assert(with.disjoint(without));
        lemma_set_disjoint_lens(with, without);
        assert forall|s: Seq<usize>| #[trigger] without.contains(s) implies increasing(s) && below(
            s,
            (n - 1) as nat,
        ) by {
            assert(keys.contains(s));
            assert forall|i: int| 0 <= i < s.len() implies s[i] < n - 1 by {
                assert(s[s.len() - 1] < n);
                if i < s.len() - 1 {
                    assert(s[i] < s[s.len() - 1]);
                }
            }
        }
        lemma_subsets_bound(without, (n - 1) as nat);
        let cut = |s: Seq<usize>| s.drop_last();
        let shorter = with.map(cut);
        assert(injective_on(cut, with)) by {
            assert forall|a: Seq<usize>, b: Seq<usize>|
                with.contains(a) && with.contains(b) && #[trigger] cut(a) == #[trigger] cut(
                    b,
                ) implies a == b by {
                assert(a =~= a.drop_last().push(a.last()));
                assert(b =~= b.drop_last().push(b.last()));
            }
        }
        lemma_map_size(with, shorter, cut);
        assert forall|s: Seq<usize>| #[trigger] shorter.contains(s) implies increasing(s) && below(
            s,
            (n - 1) as nat,
        ) by {
            let longer = choose|longer: Seq<usize>| with.contains(longer) && cut(longer) == s;
            assert(keys.contains(longer));
            assert forall|i: int, j: int| 0 <= i < j < s.len() implies s[i] < s[j] by {
                assert(longer[i] < longer[j]);
            }
            assert forall|i: int| 0 <= i < s.len() implies s[i] < n - 1 by {
                assert(longer[i] < longer[longer.len() - 1]);
            }
        }
        lemma_subsets_bound(shorter, (n - 1) as nat);
    }
}

/// A list of different increasing sequences of numbers below `n` has at
/// most `pow2(n)` entries.
pub proof fn lemma_distinct_keys_bound(keys: Seq<Seq<usize>>, n: nat)
    requires
        keys.no_duplicates(),
        forall|i: int| 0 <= i < keys.len() ==> increasing(#[trigger] keys[i]) && below(keys[i], n),
    ensures
        keys.len() <= pow2(n),
{
    keys.unique_seq_to_set();
    vstd::seq_lib::seq_to_set_is_finite(keys);
    assert forall|s: Seq<usize>| #[trigger] keys.to_set().contains(s) implies increasing(s)
        && below(s, n) by {
        let i = choose|i: int| 0 <= i < keys.len() && keys[i] == s;
        assert(increasing(keys[i]));
    }
    lemma_subsets_bound(keys.to_set(), n);
}

} // verus!
