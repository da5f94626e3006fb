//! Exact similarity scores.
//!
//! A Jaccard similarity `count / (n_a + n_b - count)` is kept as the exact
//! pair of the cooccurrence count and the sum `n_a + n_b`, instead of a
//! floating-point quotient. Floating-point scores admit no total order, so
//! top-k selection needs an explicit total-order comparator; over these exact
//! pairs the order is decided by integer cross-multiplication and is proved
//! total and transitive.

use vstd::prelude::*;

verus! {

/// Similarity of an item pair: the value `num / (m - num)` where `num` is
/// the cooccurrence count of the pair and `m` the sum of the two items'
/// interaction counts.
#[derive(Clone, Copy, Debug, PartialEq, Eq, Structural)]
pub struct Score {
    /// Cooccurrence count of the pair.
    pub num: u32,
    /// Sum of the two interaction counts.
    pub m: u64,
}

/// Rank of the sign class of a score's value: negative denominators sort
/// below zero scores, zero scores below positive finite ones, and a zero
/// denominator with a positive count acts as an infinite score on top.
pub open spec fn score_class(s: Score) -> int {
    if s.num == 0 {
        1
    } else if (s.num as int) < (s.m as int) {
        2
    } else if s.num == s.m {
        3
    } else {
        0
    }
}

/// Total order on score values: first by sign class, then by the quotients,
/// compared by cross-multiplication (which decides both the positive and the
/// negative class).
pub open spec fn score_le(a: Score, b: Score) -> bool {
    if score_class(a) != score_class(b) {
        score_class(a) < score_class(b)
    } else if score_class(a) == 1 || score_class(a) == 3 {
        true
    } else {
        a.num * b.m <= b.num * a.m
    }
}

/// The order is total.
pub proof fn lemma_score_le_total(a: Score, b: Score)
    ensures
        score_le(a, b) || score_le(b, a),
{
}

/// The order is transitive.
pub proof fn lemma_score_le_trans(a: Score, b: Score, c: Score)
    requires
        score_le(a, b),
        score_le(b, c),
    ensures
        score_le(a, c),
{
    if score_class(a) == score_class(b) && score_class(b) == score_class(c) && (score_class(a) == 0
        || score_class(a) == 2) {
        assert(a.num * c.m <= c.num * a.m) by (nonlinear_arith)
            requires
                a.num * b.m <= b.num * a.m,
                b.num * c.m <= c.num * b.m,
                a.num >= 1,
                b.num >= 1,
                c.num >= 1,
                a.m >= 0,
                b.m >= 0,
                c.m >= 0,
        {
            if b.m == 0 {
                assert(b.num * c.m <= 0);
                assert(c.m == 0);
            } else {
                assert((a.num * b.m) * c.m <= (b.num * a.m) * c.m);
                assert((b.num * c.m) * a.m <= (c.num * b.m) * a.m);
            }
        }
    }
}

/// Decide `score_le` executably.
pub fn score_le_exec(a: Score, b: Score) -> (r: bool)
    ensures
        r == score_le(a, b),
{
    let ca = score_class_exec(a);
    let cb = score_class_exec(b);
    if ca != cb {
        ca < cb
    } else if ca == 1 || ca == 3 {
        true
    } else {
        proof {
            assert((a.num as u128) * (b.m as u128) <= u128::MAX && (b.num as u128) * (a.m as u128)
                <= u128::MAX) by (nonlinear_arith)
                requires
                    a.num <= u32::MAX,
                    b.num <= u32::MAX,
                    a.m <= u64::MAX,
                    b.m <= u64::MAX;
        }
        (a.num as u128) * (b.m as u128) <= (b.num as u128) * (a.m as u128)
    }
}

/// Sign class of a score.
fn score_class_exec(s: Score) -> (c: u8)
    ensures
        c as int == score_class(s),
{
    if s.num == 0 {
        1
    } else if (s.num as u64) < s.m {
        2
    } else if (s.num as u64) == s.m {
        3
    } else {
        0
    }
}

} // verus!
