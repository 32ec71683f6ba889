//! Sums of integer sequences, with the comparison lemmas the engine needs:
//! prefix sums are bounded by the whole, pointwise bounds carry over to sums,
//! and a pointwise bound together with an equal sum forces equality.

use vstd::prelude::*;

verus! {

pub open spec fn seq_sum(s: Seq<u32>) -> int
    decreases s.len(),
{
    if s.len() == 0 {
        0
    } else {
        seq_sum(s.drop_last()) + s.last()
    }
}

pub proof fn lemma_sum_nonneg(s: Seq<u32>)
    ensures
        seq_sum(s) >= 0,
    decreases s.len(),
{
    if s.len() > 0 {
        lemma_sum_nonneg(s.drop_last());
    }
}

pub proof fn lemma_sum_pointwise_le(a: Seq<u32>, b: Seq<u32>)
    requires
        a.len() == b.len(),
        forall|k: int| 0 <= k < a.len() ==> a[k] <= b[k],
    ensures
        seq_sum(a) <= seq_sum(b),
    decreases a.len(),
{
    if a.len() > 0 {
        lemma_sum_pointwise_le(a.drop_last(), b.drop_last());
    }
}

/// With a pointwise bound, sums agree only on equal sequences.
pub proof fn lemma_sum_pointwise_le_equal(a: Seq<u32>, b: Seq<u32>)
    requires
        a.len() == b.len(),
        forall|k: int| 0 <= k < a.len() ==> a[k] <= b[k],
        seq_sum(a) == seq_sum(b),
    ensures
        a == b,
    decreases a.len(),
{
    if a.len() == 0 {
        assert(a =~= b);
    } else {
        lemma_sum_pointwise_le(a.drop_last(), b.drop_last());
        assert(a.last() == b.last());
        lemma_sum_pointwise_le_equal(a.drop_last(), b.drop_last());
        assert(forall|i: int| 0 <= i < a.len() - 1 ==> a[i] == a.drop_last()[i]);
        assert(forall|i: int| 0 <= i < b.len() - 1 ==> b[i] == b.drop_last()[i]);
        assert(a =~= b);
    }
}

/// Extending a prefix by one element adds exactly that element to its sum.
pub proof fn lemma_sum_take_step(s: Seq<u32>, i: int)
    requires
        0 <= i < s.len(),
    ensures
        seq_sum(s.take(i + 1)) == seq_sum(s.take(i)) + s[i],
{
    assert(s.take(i + 1).drop_last() =~= s.take(i));
}

/// Prefix sums never exceed the sum of the whole sequence.
pub proof fn lemma_sum_take_le(s: Seq<u32>, i: int)
    requires
        0 <= i <= s.len(),
    ensures
        seq_sum(s.take(i)) <= seq_sum(s),
    decreases s.len() - i,
{
    if i == s.len() {
        assert(s.take(i) =~= s);
    } else {
        lemma_sum_take_step(s, i);
        lemma_sum_take_le(s, i + 1);
    }
}

} // verus!
