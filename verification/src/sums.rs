//! Sums of sequences of numbers.

use vstd::prelude::*;
use crate::model::total;

verus! {

/// Whether no number of the sequence is negative.
pub open spec fn none_negative(v: Seq<int>) -> bool {
    forall|i: int| 0 <= i < v.len() ==> #[trigger] v[i] >= 0
}

/// The sum of numbers of which none is negative is not negative.
pub proof fn lemma_total_nonnegative(v: Seq<int>)
    requires
        none_negative(v),
    ensures
        0 <= total(v),
    decreases v.len(),
{
    if v.len() > 0 {
        let rest = v.subrange(1, v.len() as int);
        assert forall|j: int| 0 <= j < rest.len() implies #[trigger] rest[j] >= 0 by {
            assert(rest[j] == v[j + 1]);
        }
        lemma_total_nonnegative(rest);
    }
}

/// The sum of numbers of which none is negative is at least each of them.
pub proof fn lemma_total_bounds(v: Seq<int>, i: int)
    requires
        none_negative(v),
        0 <= i < v.len(),
    ensures
        0 <= v[i] <= total(v),
    decreases v.len(),
{
    let rest = v.subrange(1, v.len() as int);
    assert(none_negative(rest)) by {
        assert forall|j: int| 0 <= j < rest.len() implies #[trigger] rest[j] >= 0 by {
            assert(rest[j] == v[j + 1]);
        }
    }
    lemma_total_nonnegative(rest);
    if i > 0 {
        lemma_total_bounds(rest, i - 1);
        assert(rest[i - 1] == v[i]);
    }
}

/// The sum of two sequences laid end to end is the sum of their sums.
pub proof fn lemma_total_concat(a: Seq<int>, b: Seq<int>)
    ensures
        total(a + b) == total(a) + total(b),
    decreases a.len(),
{
    if a.len() == 0 {
        assert(a + b =~= b);
    } else {
        let rest = a.subrange(1, a.len() as int);
        lemma_total_concat(rest, b);
        assert((a + b).subrange(1, (a + b).len() as int) =~= rest + b);
    }
}

/// A number added behind a sequence adds itself to the sum.
pub proof fn lemma_total_push(a: Seq<int>, x: int)
    ensures
        total(a.push(x)) == total(a) + x,
{
    lemma_total_concat(a, seq![x]);
    assert(a.push(x) =~= a + seq![x]);
    assert(seq![x].subrange(1, 1) =~= Seq::<int>::empty());
    assert(total(seq![x]) == x + total(Seq::<int>::empty()));
}

/// A sum is the number at any one place and the sum of the others.
pub proof fn lemma_total_without(a: Seq<int>, j: int)
    requires
        0 <= j < a.len(),
    ensures
        total(a) == a[j] + total(a.remove(j)),
    decreases j,
{
    let rest = a.subrange(1, a.len() as int);
    if j == 0 {
        assert(a.remove(0) =~= rest);
    } else {
        lemma_total_without(rest, j - 1);
        let fewer = a.remove(j);
        assert(fewer.subrange(1, fewer.len() as int) =~= rest.remove(j - 1));
        assert(fewer[0] == a[0]);
    }
}

/// A rearrangement of numbers has the same sum.
pub proof fn lemma_total_rearranged(a: Seq<int>, b: Seq<int>)
    requires
        a.to_multiset() == b.to_multiset(),
    ensures
        total(a) == total(b),
    decreases a.len(),
{
    vstd::seq_lib::to_multiset_len(a);
    vstd::seq_lib::to_multiset_len(b);
    if a.len() > 0 {
        let x = a[0];
        vstd::seq_lib::to_multiset_contains(a, x);
        vstd::seq_lib::to_multiset_contains(b, x);
        assert(a.contains(x));
        let j = choose|j: int| 0 <= j < b.len() && b[j] == x;
        vstd::seq_lib::to_multiset_remove(a, 0);
        vstd::seq_lib::to_multiset_remove(b, j);
        lemma_total_rearranged(a.remove(0), b.remove(j));
        lemma_total_without(a, 0);
        lemma_total_without(b, j);
    }
}

} // verus!
