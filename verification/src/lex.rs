//! Lexicographic order on integer sequences, together with a numeric rank
//! that embeds the order into the integers (used for termination measures).

use vstd::prelude::*;
use vstd::arithmetic::power::pow;
use vstd::arithmetic::power::lemma_pow_positive;
use vstd::arithmetic::mul::lemma_mul_inequality;

verus! {

/// Strict lexicographic order, comparing from the front. On sequences of
/// equal length this is the usual dictionary order.
pub open spec fn lex_lt(a: Seq<u32>, b: Seq<u32>) -> bool
    decreases a.len(),
{
    if a.len() == 0 || b.len() == 0 {
        false
    } else if a[0] < b[0] {
        true
    } else if a[0] > b[0] {
        false
    } else {
        lex_lt(a.drop_first(), b.drop_first())
    }
}

pub open spec fn lex_le(a: Seq<u32>, b: Seq<u32>) -> bool {
    a == b || lex_lt(a, b)
}

pub proof fn lemma_lex_irreflexive(a: Seq<u32>)
    ensures
        !lex_lt(a, a),
    decreases a.len(),
{
    if a.len() > 0 {
        lemma_lex_irreflexive(a.drop_first());
    }
}

pub proof fn lemma_lex_transitive(a: Seq<u32>, b: Seq<u32>, c: Seq<u32>)
    requires
        a.len() == b.len(),
        b.len() == c.len(),
        lex_lt(a, b),
        lex_lt(b, c),
    ensures
        lex_lt(a, c),
    decreases a.len(),
{
    if a[0] == b[0] && b[0] == c[0] {
        lemma_lex_transitive(a.drop_first(), b.drop_first(), c.drop_first());
    }
}

/// `lex_le` composed with `lex_lt` is strict.
pub proof fn lemma_lex_le_lt_transitive(a: Seq<u32>, b: Seq<u32>, c: Seq<u32>)
    requires
        a.len() == b.len(),
        b.len() == c.len(),
        lex_le(a, b),
        lex_lt(b, c),
    ensures
        lex_lt(a, c),
{
    if a != b {
        lemma_lex_transitive(a, b, c);
    }
}

/// Equal-length sequences are totally ordered by `lex_lt`.
pub proof fn lemma_lex_trichotomy(a: Seq<u32>, b: Seq<u32>)
    requires
        a.len() == b.len(),
    ensures
        lex_lt(a, b) || lex_lt(b, a) || a == b,
    decreases a.len(),
{
    if a.len() == 0 {
        assert(a =~= b);
    } else if a[0] == b[0] {
        lemma_lex_trichotomy(a.drop_first(), b.drop_first());
        if a.drop_first() == b.drop_first() {
            assert(forall|i: int| 1 <= i < a.len() ==> a[i] == a.drop_first()[i - 1]);
            assert(forall|i: int| 1 <= i < b.len() ==> b[i] == b.drop_first()[i - 1]);
            assert(a =~= b);
        }
    }
}

/// A difference at position `d`, after a common prefix, decides the order.
pub proof fn lemma_lex_from_diff(a: Seq<u32>, b: Seq<u32>, d: int)
    requires
        a.len() == b.len(),
        0 <= d < a.len(),
        forall|k: int| 0 <= k < d ==> a[k] == b[k],
        a[d] < b[d],
    ensures
        lex_lt(a, b),
    decreases d,
{
    if d > 0 {
        assert(forall|k: int| 0 <= k < d - 1 ==> a.drop_first()[k] == b.drop_first()[k]);
        assert(a.drop_first()[d - 1] == a[d]);
        lemma_lex_from_diff(a.drop_first(), b.drop_first(), d - 1);
    }
}

/// Conversely, a strict order exhibits a first position of difference.
pub proof fn lemma_lex_to_diff(a: Seq<u32>, b: Seq<u32>)
    requires
        a.len() == b.len(),
        lex_lt(a, b),
    ensures
        exists|d: int|
            0 <= d < a.len() && a[d] < b[d] && (forall|k: int| 0 <= k < d ==> a[k] == b[k]),
    decreases a.len(),
{
    if a[0] < b[0] {
        assert(0 <= 0 < a.len() && a[0] < b[0] && (forall|k: int| 0 <= k < 0 ==> a[k] == b[k]));
    } else {
        lemma_lex_to_diff(a.drop_first(), b.drop_first());
        let d0 = choose|d0: int|
            0 <= d0 < a.drop_first().len() && a.drop_first()[d0] < b.drop_first()[d0] && (forall|
                k: int,
            | 0 <= k < d0 ==> a.drop_first()[k] == b.drop_first()[k]);
        let d = d0 + 1;
        assert(a[d] < b[d]);
        assert(forall|k: int| 1 <= k < d ==> a[k] == a.drop_first()[k - 1] && b[k]
            == b.drop_first()[k - 1]);
        assert(0 <= d < a.len() && a[d] < b[d] && (forall|k: int| 0 <= k < d ==> a[k] == b[k]));
    }
}

/// A pointwise bound implies the lexicographic one.
pub proof fn lemma_lex_pointwise(a: Seq<u32>, b: Seq<u32>)
    requires
        a.len() == b.len(),
        forall|k: int| 0 <= k < a.len() ==> a[k] <= b[k],
    ensures
        lex_le(a, b),
    decreases a.len(),
{
    if a.len() == 0 {
        assert(a =~= b);
    } else if a[0] == b[0] {
        lemma_lex_pointwise(a.drop_first(), b.drop_first());
        if a.drop_first() == b.drop_first() {
            assert(forall|i: int| 1 <= i < a.len() ==> a[i] == a.drop_first()[i - 1]);
            assert(forall|i: int| 1 <= i < b.len() ==> b[i] == b.drop_first()[i - 1]);
            assert(a =~= b);
        }
    }
}

/// Reads a sequence over `0..base` as the digits of a number, most
/// significant digit first.
pub open spec fn seq_num(s: Seq<u32>, base: int) -> int
    decreases s.len(),
{
    if s.len() == 0 {
        0
    } else {
        s[0] * pow(base, (s.len() - 1) as nat) + seq_num(s.drop_first(), base)
    }
}

pub proof fn lemma_seq_num_bounds(s: Seq<u32>, base: int)
    requires
        base >= 1,
        forall|k: int| 0 <= k < s.len() ==> s[k] < base,
    ensures
        0 <= seq_num(s, base) < pow(base, s.len() as nat),
    decreases s.len(),
{
    reveal(pow);
    if s.len() == 0 {
        assert(pow(base, 0) == 1);
    } else {
        let p = pow(base, (s.len() - 1) as nat);
        lemma_pow_positive(base, (s.len() - 1) as nat);
        lemma_seq_num_bounds(s.drop_first(), base);
        lemma_mul_inequality(s[0] as int, base - 1, p);
        assert((base - 1) * p + p == base * p) by (nonlinear_arith);
        assert(pow(base, s.len() as nat) == base * p);
    }
}

/// The rank respects the lexicographic order, which makes it a strictly
/// decreasing measure for loops that advance a tuple in that order.
pub proof fn lemma_lex_lt_seq_num(a: Seq<u32>, b: Seq<u32>, base: int)
    requires
        a.len() == b.len(),
        base >= 1,
        forall|k: int| 0 <= k < a.len() ==> a[k] < base,
        forall|k: int| 0 <= k < b.len() ==> b[k] < base,
        lex_lt(a, b),
    ensures
        seq_num(a, base) < seq_num(b, base),
    decreases a.len(),
{
    reveal(pow);
    let p = pow(base, (a.len() - 1) as nat);
    if a[0] == b[0] {
        lemma_lex_lt_seq_num(a.drop_first(), b.drop_first(), base);
    } else {
        lemma_seq_num_bounds(a.drop_first(), base);
        lemma_seq_num_bounds(b.drop_first(), base);
        lemma_pow_positive(base, (a.len() - 1) as nat);
        assert(a[0] * p + p == (a[0] + 1) * p) by (nonlinear_arith);
        lemma_mul_inequality(a[0] + 1, b[0] as int, p);
    }
}

} // verus!
