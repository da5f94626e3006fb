//! Item-based collaborative filtering with exact unlearning.
//!
//! The model keeps, per item, a sparse row of cooccurrence counts with every
//! other item, the total number of recorded interactions per item, and a
//! cached row of Jaccard similarity scores that is always derivable from the
//! counts. Fitting a batch of user histories increments the counts and
//! rescores exactly the touched items; forgetting a history decrements them,
//! so that the statistics afterwards equal those of a model that never saw
//! the history.

use vstd::prelude::*;

use crate::score::{lemma_score_le_total, lemma_score_le_trans, score_le, score_le_exec, Score};
use crate::ModelError;
use crate::sparse::{
    lemma_row_index, lemma_row_index_unique, lemma_row_opt_has, lemma_row_opt_index, row_distinct,
    row_get, row_has, row_index, row_opt, row_val,
};

verus! {

/// Number of occurrences of `x` in the history `h`.
pub open spec fn occ(h: Seq<u32>, x: u32) -> nat
    decreases h.len(),
{
    if h.len() == 0 {
        0
    } else {
        occ(h.drop_last(), x) + if h.last() == x {
            1nat
        } else {
            0nat
        }
    }
}

/// Contribution of one history to the cooccurrence count of the pair
/// `(a, b)`: the number of ordered occurrence pairs of the two items.
pub open spec fn hist_cooc(h: Seq<u32>, a: u32, b: u32) -> nat {
    if a == b {
        0
    } else {
        occ(h, a) * occ(h, b)
    }
}

/// Total occurrences of `x` across a batch of histories.
pub open spec fn batch_occ(hs: Seq<Seq<u32>>, x: u32) -> nat
    decreases hs.len(),
{
    if hs.len() == 0 {
        0
    } else {
        batch_occ(hs.drop_last(), x) + occ(hs.last(), x)
    }
}

/// Total cooccurrence contribution of a batch to the pair `(a, b)`.
pub open spec fn batch_cooc(hs: Seq<Seq<u32>>, a: u32, b: u32) -> nat
    decreases hs.len(),
{
    if hs.len() == 0 {
        0
    } else {
        batch_cooc(hs.drop_last(), a, b) + hist_cooc(hs.last(), a, b)
    }
}

/// Every item of the history is a valid id.
pub open spec fn ids_ok(h: Seq<u32>, num_items: nat) -> bool {
    forall|i: int| 0 <= i < h.len() ==> (#[trigger] h[i] as nat) < num_items
}

/// Every item of every history of the batch is a valid id.
pub open spec fn batch_ids_ok(hs: Seq<Seq<u32>>, num_items: nat) -> bool {
    forall|i: int| 0 <= i < hs.len() ==> ids_ok(#[trigger] hs[i], num_items)
}

/// The views of a batch of history vectors.
pub open spec fn views(hs: Seq<Vec<u32>>) -> Seq<Seq<u32>> {
    hs.map_values(|h: Vec<u32>| h@)
}

pub proof fn lemma_occ_take_step(h: Seq<u32>, i: int, x: u32)
    requires
        0 <= i < h.len(),
    ensures
        occ(h.take(i + 1), x) == occ(h.take(i), x) + if h[i] == x {
            1nat
        } else {
            0nat
        },
{
    assert(h.take(i + 1).drop_last() =~= h.take(i));
    assert(h.take(i + 1).last() == h[i]);
}

pub proof fn lemma_occ_take_le(h: Seq<u32>, i: int, x: u32)
    requires
        0 <= i <= h.len(),
    ensures
        occ(h.take(i), x) <= occ(h, x),
    decreases h.len() - i,
{
    if i == h.len() {
        assert(h.take(i) =~= h);
    } else {
        lemma_occ_take_step(h, i, x);
        lemma_occ_take_le(h, i + 1, x);
    }
}

pub proof fn lemma_batch_occ_take_step(hs: Seq<Seq<u32>>, i: int, x: u32)
    requires
        0 <= i < hs.len(),
    ensures
        batch_occ(hs.take(i + 1), x) == batch_occ(hs.take(i), x) + occ(hs[i], x),
{
    assert(hs.take(i + 1).drop_last() =~= hs.take(i));
    assert(hs.take(i + 1).last() == hs[i]);
}

pub proof fn lemma_batch_occ_take_le(hs: Seq<Seq<u32>>, i: int, x: u32)
    requires
        0 <= i <= hs.len(),
    ensures
        batch_occ(hs.take(i), x) <= batch_occ(hs, x),
    decreases hs.len() - i,
{
    if i == hs.len() {
        assert(hs.take(i) =~= hs);
    } else {
        lemma_batch_occ_take_step(hs, i, x);
        lemma_batch_occ_take_le(hs, i + 1, x);
    }
}

pub proof fn lemma_batch_cooc_take_step(hs: Seq<Seq<u32>>, i: int, a: u32, b: u32)
    requires
        0 <= i < hs.len(),
    ensures
        batch_cooc(hs.take(i + 1), a, b) == batch_cooc(hs.take(i), a, b) + hist_cooc(hs[i], a, b),
{
    assert(hs.take(i + 1).drop_last() =~= hs.take(i));
    assert(hs.take(i + 1).last() == hs[i]);
}

pub proof fn lemma_batch_cooc_take_le(hs: Seq<Seq<u32>>, i: int, a: u32, b: u32)
    requires
        0 <= i <= hs.len(),
    ensures
        batch_cooc(hs.take(i), a, b) <= batch_cooc(hs, a, b),
    decreases hs.len() - i,
{
    if i == hs.len() {
        assert(hs.take(i) =~= hs);
    } else {
        lemma_batch_cooc_take_step(hs, i, a, b);
        lemma_batch_cooc_take_le(hs, i + 1, a, b);
    }
}

/// An item that occurs in a history is one of its elements.
pub proof fn lemma_occ_pos_mem(h: Seq<u32>, x: u32)
    requires
        occ(h, x) >= 1,
    ensures
        exists|i: int| 0 <= i < h.len() && h[i] == x,
    decreases h.len(),
{
    if h.last() == x {
        assert(h[h.len() - 1] == x);
    } else {
        lemma_occ_pos_mem(h.drop_last(), x);
        let i = choose|i: int| 0 <= i < h.drop_last().len() && h.drop_last()[i] == x;
        assert(h[i] == x);
    }
}

/// The part of one history's interaction counts already applied after `ii`
/// occurrence entries have been processed.
pub open spec fn done_occ(o: Seq<(u32, u32)>, ii: int, x: u32) -> nat {
    if row_has(o, x) && row_index(o, x) < ii {
        row_val(o, x)
    } else {
        0
    }
}

/// The part of one history's pair contributions already applied when the
/// processing stands at occurrence entry `ii` paired with entry `jj < ii`.
pub open spec fn done_pairs(o: Seq<(u32, u32)>, ii: int, jj: int, a: u32, b: u32) -> nat {
    if a != b && row_has(o, a) && row_has(o, b) {
        let pa = row_index(o, a);
        let pb = row_index(o, b);
        let hi = if pa > pb {
            pa
        } else {
            pb
        };
        let lo = if pa > pb {
            pb
        } else {
            pa
        };
        if hi < ii || (hi == ii && lo < jj) {
            (o[hi].1 as nat) * (o[lo].1 as nat)
        } else {
            0
        }
    } else {
        0
    }
}

/// Once every occurrence entry is processed, the applied interaction counts
/// are the history's occurrence counts and the applied pair contributions
/// are the history's cooccurrence contributions.
pub proof fn lemma_done_total(o: Seq<(u32, u32)>, h: Seq<u32>)
    requires
        row_distinct(o),
        forall|x: u32| #[trigger] row_val(o, x) == occ(h, x),
    ensures
        forall|x: u32| #[trigger] done_occ(o, o.len() as int, x) == occ(h, x),
        forall|a: u32, b: u32|
            #[trigger] done_pairs(o, o.len() as int, 0, a, b) == hist_cooc(h, a, b),
{
    assert forall|x: u32| #[trigger] done_occ(o, o.len() as int, x) == occ(h, x) by {
        if row_has(o, x) {
            lemma_row_index(o, x);
        } else {
            lemma_row_opt_has(o, x);
            assert(row_val(o, x) == occ(h, x));
        }
    }
    assert forall|a: u32, b: u32|
        #[trigger] done_pairs(o, o.len() as int, 0, a, b) == hist_cooc(h, a, b) by {
        if a != b {
            if row_has(o, a) && row_has(o, b) {
                lemma_row_index(o, a);
                lemma_row_index(o, b);
                let pa = row_index(o, a);
                let pb = row_index(o, b);
                lemma_row_opt_index(o, pa);
                lemma_row_opt_index(o, pb);
                assert(row_val(o, a) == occ(h, a));
                assert(row_val(o, b) == occ(h, b));
                assert(o[pa].0 == a && o[pb].0 == b);
                assert(row_opt(o, a) == Some(o[pa].1));
                assert(row_opt(o, b) == Some(o[pb].1));
                assert(occ(h, a) == o[pa].1 as nat);
                assert(occ(h, b) == o[pb].1 as nat);
                assert(hist_cooc(h, a, b) == (o[pa].1 as nat) * (o[pb].1 as nat));
                assert(pa != pb);
                if pa > pb {
                    assert(done_pairs(o, o.len() as int, 0, a, b) == (o[pa].1 as nat) * (o[pb].1
                        as nat));
                } else {
                    assert(done_pairs(o, o.len() as int, 0, a, b) == (o[pb].1 as nat) * (o[pa].1
                        as nat));
                    assert((o[pb].1 as nat) * (o[pa].1 as nat) == (o[pa].1 as nat) * (o[pb].1
                        as nat)) by (nonlinear_arith);
                }
                assert(hist_cooc(h, a, b) == (o[pa].1 as nat) * (o[pb].1 as nat));
            } else if !row_has(o, a) {
                lemma_row_opt_has(o, a);
                assert(row_val(o, a) == occ(h, a));
                assert(occ(h, a) == 0);
                assert(hist_cooc(h, a, b) == occ(h, a) * occ(h, b));
                assert(0nat * occ(h, b) == 0) by (nonlinear_arith);
            } else {
                lemma_row_opt_has(o, b);
                assert(row_val(o, b) == occ(h, b));
                assert(occ(h, b) == 0);
                assert(hist_cooc(h, a, b) == occ(h, a) * occ(h, b));
                assert(occ(h, a) * 0nat == 0) by (nonlinear_arith);
            }
        }
    }
}

/// Count the occurrences of each item of a history. Fails only when an item
/// occurs more than `u32::MAX` times.
pub fn occurrences(h: &Vec<u32>) -> (r: Option<Vec<(u32, u32)>>)
    ensures
        match r {
            Some(o) => {
                &&& row_distinct(o@)
                &&& forall|x: u32| #[trigger] row_val(o@, x) == occ(h@, x)
                &&& forall|j: int| 0 <= j < o@.len() ==> (#[trigger] o@[j]).1 >= 1
                &&& forall|j: int|
                    0 <= j < o@.len() ==> occ(h@, (#[trigger] o@[j]).0) == o@[j].1 as nat
            },
            None => exists|x: u32| #[trigger] occ(h@, x) > u32::MAX,
        },
{
    let mut o: Vec<(u32, u32)> = Vec::new();
    let mut i: usize = 0;
    assert(h@.take(0) =~= Seq::<u32>::empty());
    while i < h.len()
        invariant
            i <= h@.len(),
            row_distinct(o@),
            forall|x: u32| #[trigger] row_val(o@, x) == occ(h@.take(i as int), x),
            forall|x: u32| #[trigger] row_has(o@, x) ==> row_val(o@, x) >= 1,
        decreases h@.len() - i,
    {
        let x = h[i];
        let ghost pre = o@;
        proof {
            lemma_occ_take_step(h@, i as int, x);
        }
        let ok = crate::sparse::row_add(&mut o, x, 1);
        if !ok {
            proof {
                assert(row_val(pre, x) == occ(h@.take(i as int), x));
                lemma_occ_take_le(h@, i + 1, x);
            }
            return None;
        }
        proof {
            assert forall|y: u32| #[trigger] row_val(o@, y) == occ(h@.take(i + 1), y) by {
                lemma_occ_take_step(h@, i as int, y);
                if y != x {
                    assert(row_opt(o@, y) == row_opt(pre, y));
                    assert(row_val(pre, y) == occ(h@.take(i as int), y));
                }
            }
            assert forall|y: u32| #[trigger] row_has(o@, y) implies row_val(o@, y) >= 1 by {
                if y != x {
                    assert(row_has(pre, y) ==> row_val(pre, y) >= 1);
                    assert(row_opt(o@, y) == row_opt(pre, y));
                }
            }
        }
        i = i + 1;
    }
    proof {
        assert(h@.take(i as int) =~= h@);
        assert forall|j: int| 0 <= j < o@.len() implies occ(h@, (#[trigger] o@[j]).0) == o@[j].1
            as nat && o@[j].1 >= 1 by {
            lemma_row_opt_index(o@, j);
            let key = o@[j].0;
            assert(row_val(o@, key) == occ(h@, key));
            assert(row_has(o@, key));
        }
    }
    Some(o)
}

/// One history's counts never exceed the whole batch's counts.
pub proof fn lemma_hist_le_batch(hs: Seq<Seq<u32>>, i: int, x: u32, a: u32, b: u32)
    requires
        0 <= i < hs.len(),
    ensures
        occ(hs[i], x) <= batch_occ(hs, x),
        hist_cooc(hs[i], a, b) <= batch_cooc(hs, a, b),
{
    lemma_batch_occ_take_step(hs, i, x);
    lemma_batch_occ_take_le(hs, i + 1, x);
    lemma_batch_cooc_take_step(hs, i, a, b);
    lemma_batch_cooc_take_le(hs, i + 1, a, b);
}

/// Exact effect of fitting a batch of histories: every interaction count
/// grows by the batch's occurrences, every cooccurrence count by the batch's
/// pair contributions, and a pair is stored exactly when it was stored
/// before or the batch contributes to it.
pub open spec fn fit_updated(pre: ItembasedCF, hs: Seq<Seq<u32>>, post: ItembasedCF) -> bool {
    &&& post.num_items() == pre.num_items()
    &&& post.k_of() == pre.k_of()
    &&& forall|x: u32| #[trigger] post.nval(x) == pre.nval(x) + batch_occ(hs, x)
    &&& forall|a: u32, b: u32| #[trigger] post.cval(a, b) == pre.cval(a, b) + batch_cooc(hs, a, b)
    &&& forall|a: u32, b: u32|
        #[trigger] post.chas(a, b) <==> (pre.chas(a, b) || batch_cooc(hs, a, b) >= 1)
}

/// Exact effect of forgetting one history: the mirror image of fitting it,
/// with the stored pair structure kept in place.
pub open spec fn forget_updated(pre: ItembasedCF, h: Seq<u32>, post: ItembasedCF) -> bool {
    &&& post.num_items() == pre.num_items()
    &&& post.k_of() == pre.k_of()
    &&& forall|x: u32| #[trigger] post.nval(x) == pre.nval(x) - occ(h, x)
    &&& forall|a: u32, b: u32| #[trigger] post.cval(a, b) == pre.cval(a, b) - hist_cooc(h, a, b)
    &&& forall|a: u32, b: u32| #[trigger] post.chas(a, b) <==> pre.chas(a, b)
}

/// A batch contributes to a pair only if it contributes occurrences of both
/// items.
pub proof fn lemma_batch_cooc_pos(hs: Seq<Seq<u32>>, a: u32, b: u32)
    requires
        batch_cooc(hs, a, b) >= 1,
    ensures
        batch_occ(hs, a) >= 1,
        batch_occ(hs, b) >= 1,
    decreases hs.len(),
{
    if hist_cooc(hs.last(), a, b) >= 1 {
        if occ(hs.last(), a) == 0 {
            assert(hist_cooc(hs.last(), a, b) == 0nat * occ(hs.last(), b));
        }
        if occ(hs.last(), b) == 0 {
            assert(hist_cooc(hs.last(), a, b) == occ(hs.last(), a) * 0nat);
            assert(occ(hs.last(), a) * 0nat == 0) by (nonlinear_arith);
        }
    } else {
        lemma_batch_cooc_pos(hs.drop_last(), a, b);
    }
}

/// Removing one history from a batch removes exactly its contribution from
/// the batch totals.
pub proof fn lemma_batch_remove(hs: Seq<Seq<u32>>, i: int, x: u32, a: u32, b: u32)
    requires
        0 <= i < hs.len(),
    ensures
        batch_occ(hs, x) == batch_occ(hs.remove(i), x) + occ(hs[i], x),
        batch_cooc(hs, a, b) == batch_cooc(hs.remove(i), a, b) + hist_cooc(hs[i], a, b),
    decreases hs.len(),
{
    if i == hs.len() - 1 {
        assert(hs.remove(i) =~= hs.drop_last());
    } else {
        assert(hs.remove(i).drop_last() =~= hs.drop_last().remove(i));
        assert(hs.remove(i).last() == hs.last());
        assert(hs.drop_last()[i] == hs[i]);
        lemma_batch_remove(hs.drop_last(), i, x, a, b);
    }
}

/// After a batch is fitted, forgetting any one of its histories passes the
/// negative-count check.
pub proof fn lemma_fit_makes_removable(
    pre: ItembasedCF,
    hs: Seq<Seq<u32>>,
    i: int,
    mid: ItembasedCF,
)
    requires
        0 <= i < hs.len(),
        fit_updated(pre, hs, mid),
    ensures
        mid.removable(hs[i]),
{
    assert forall|x: u32| #[trigger] occ(hs[i], x) <= mid.nval(x) by {
        lemma_hist_le_batch(hs, i, x, 0, 0);
        assert(mid.nval(x) == pre.nval(x) + batch_occ(hs, x));
    }
    assert forall|a: u32, b: u32| #[trigger] hist_cooc(hs[i], a, b) <= mid.cval(a, b) by {
        lemma_hist_le_batch(hs, i, 0, a, b);
        assert(mid.cval(a, b) == pre.cval(a, b) + batch_cooc(hs, a, b));
    }
}

/// Exact unlearning: fitting a batch of histories and then forgetting one of
/// them leaves exactly the statistics of fitting the batch without that
/// history. Counts are compared as total mappings, where an absent pair and
/// a stored count of zero are the same thing, and the similarity of every
/// pair — a pure function of the counts — coincides as well.
pub proof fn lemma_exact_unlearning_itembased(
    pre: ItembasedCF,
    hs: Seq<Seq<u32>>,
    i: int,
    mid: ItembasedCF,
    post: ItembasedCF,
    fresh: ItembasedCF,
)
    requires
        0 <= i < hs.len(),
        fit_updated(pre, hs, mid),
        forget_updated(mid, hs[i], post),
        fit_updated(pre, hs.remove(i), fresh),
    ensures
        forall|x: u32| #[trigger] post.nval(x) == fresh.nval(x),
        forall|a: u32, b: u32| #[trigger] post.cval(a, b) == fresh.cval(a, b),
        forall|a: u32, b: u32| #[trigger] post.simval(a, b) == fresh.simval(a, b),
        post.consistent() && fresh.consistent() ==> forall|a: u32, b: u32|
            #[trigger] post.chas(a, b) && #[trigger] fresh.chas(a, b) ==> post.sopt(a, b)
                == fresh.sopt(a, b),
{
    assert forall|x: u32| #[trigger] post.nval(x) == fresh.nval(x) by {
        lemma_batch_remove(hs, i, x, 0, 0);
        assert(mid.nval(x) == pre.nval(x) + batch_occ(hs, x));
        assert(post.nval(x) == mid.nval(x) - occ(hs[i], x));
        assert(fresh.nval(x) == pre.nval(x) + batch_occ(hs.remove(i), x));
    }
    assert forall|a: u32, b: u32| #[trigger] post.cval(a, b) == fresh.cval(a, b) by {
        lemma_batch_remove(hs, i, 0, a, b);
        assert(mid.cval(a, b) == pre.cval(a, b) + batch_cooc(hs, a, b));
        assert(post.cval(a, b) == mid.cval(a, b) - hist_cooc(hs[i], a, b));
        assert(fresh.cval(a, b) == pre.cval(a, b) + batch_cooc(hs.remove(i), a, b));
    }
    assert forall|a: u32, b: u32| #[trigger] post.simval(a, b) == fresh.simval(a, b) by {
        assert(post.cval(a, b) == fresh.cval(a, b));
        assert(post.nval(a) == fresh.nval(a));
        assert(post.nval(b) == fresh.nval(b));
    }
    if post.consistent() && fresh.consistent() {
        assert forall|a: u32, b: u32|
            #[trigger] post.chas(a, b) && #[trigger] fresh.chas(a, b) implies post.sopt(a, b)
            == fresh.sopt(a, b) by {
            assert(post.sopt(a, b) == Some(post.simval(a, b)));
            assert(fresh.sopt(a, b) == Some(fresh.simval(a, b)));
            assert(post.simval(a, b) == fresh.simval(a, b));
        }
    }
}

/// Cooccurrence counts are symmetric, and every count is non-negative, in
/// every well-formed state.
pub proof fn lemma_counts_symmetric_nonnegative(m: ItembasedCF, a: u32, b: u32)
    requires
        m.wf(),
    ensures
        m.cval(a, b) == m.cval(b, a),
        m.cval(a, b) >= 0,
        m.nval(a) >= 0,
{
}

/// Rescoring is idempotent: whenever the similarity cache agrees with the
/// counts, the cache is fully determined by them — a stored pair caches
/// exactly the similarity recomputed from the current counts, and a pair
/// without a cooccurrence entry has no cached similarity — so rescoring an
/// untouched item never changes its stored value.
pub proof fn lemma_rescore_idempotent(m: ItembasedCF, a: u32, b: u32)
    requires
        m.consistent(),
    ensures
        m.sopt(a, b) == (if m.chas(a, b) {
            Some(m.simval(a, b))
        } else {
            None
        }),
{
    m.lemma_sopt_shas(a, b);
}

/// Record the keys of `o` in the accumulator of touched items.
fn merge_touched(touched: &mut Vec<(u32, u32)>, o: &Vec<(u32, u32)>)
    requires
        row_distinct(old(touched)@),
    ensures
        row_distinct(final(touched)@),
        forall|x: u32|
            #[trigger] row_has(final(touched)@, x) <==> row_has(old(touched)@, x) || row_has(
                o@,
                x,
            ),
{
    let len = o.len();
    let mut j: usize = 0;
    while j < len
        invariant
            j <= len,
            len == o@.len(),
            row_distinct(touched@),
            forall|x: u32|
                #[trigger] row_has(touched@, x) <==> row_has(old(touched)@, x) || row_has(
                    o@.take(j as int),
                    x,
                ),
        decreases len - j,
    {
        let ghost t0 = touched@;
        let key = o[j].0;
        crate::sparse::row_set(touched, key, 1);
        proof {
            assert forall|x: u32|
                #[trigger] row_has(touched@, x) <==> row_has(old(touched)@, x) || row_has(
                    o@.take(j + 1),
                    x,
                ) by {
                assert(row_has(touched@, x) <==> row_has(t0, x) || x == key);
                assert(row_has(o@.take(j + 1), x) <==> row_has(o@.take(j as int), x) || x
                    == key) by {
                    if row_has(o@.take(j + 1), x) {
                        let w = choose|w: int|
                            0 <= w < o@.take(j + 1).len() && (#[trigger] o@.take(j + 1)[w]).0 == x;
                        if w < j {
                            assert(o@.take(j as int)[w].0 == x);
                        }
                    }
                    if row_has(o@.take(j as int), x) {
                        let w = choose|w: int|
                            0 <= w < o@.take(j as int).len() && (#[trigger] o@.take(j as int)[w]).0
                                == x;
                        assert(o@.take(j + 1)[w].0 == x);
                    }
                    if x == key {
                        assert(o@.take(j + 1)[j as int].0 == x);
                    }
                }
            }
        }
        j = j + 1;
    }
    proof {
        assert(o@.take(len as int) =~= o@);
    }
}

/// Item-based collaborative-filtering model over `num_items` items,
/// answering top-`k` similar-item queries.
#[derive(Debug)]
#[verifier::ext_equal]
pub struct ItembasedCF {
    k: usize,
    c: Vec<Vec<(u32, u32)>>,
    s: Vec<Vec<(u32, Score)>>,
    n: Vec<u32>,
}

impl ItembasedCF {
    /// Number of items the model was configured with.
    pub closed spec fn num_items(self) -> nat {
        self.n@.len()
    }

    /// The configured neighborhood size for predictions.
    pub closed spec fn k_of(self) -> nat {
        self.k as nat
    }

    /// Interaction count of item `x`; zero for out-of-range ids.
    pub closed spec fn nval(self, x: u32) -> nat {
        if (x as int) < self.n@.len() {
            self.n@[x as int] as nat
        } else {
            0
        }
    }

    /// Cooccurrence count of the pair `(a, b)`; an absent pair counts as
    /// zero.
    pub closed spec fn cval(self, a: u32, b: u32) -> nat {
        if (a as int) < self.c@.len() {
            row_val(self.c@[a as int]@, b)
        } else {
            0
        }
    }

    /// The cooccurrence row of `a` holds an explicit entry for `b`.
    pub closed spec fn chas(self, a: u32, b: u32) -> bool {
        (a as int) < self.c@.len() && row_has(self.c@[a as int]@, b)
    }

    /// The cached similarity entry of the pair `(a, b)`, if present.
    pub closed spec fn sopt(self, a: u32, b: u32) -> Option<Score> {
        if (a as int) < self.s@.len() {
            row_opt(self.s@[a as int]@, b)
        } else {
            None
        }
    }

    /// The similarity cache of `a` holds an entry for `b`.
    pub closed spec fn shas(self, a: u32, b: u32) -> bool {
        (a as int) < self.s@.len() && row_has(self.s@[a as int]@, b)
    }

    /// Number of cached neighbors of item `a`.
    pub closed spec fn neighbor_count(self, a: u32) -> nat {
        if (a as int) < self.s@.len() {
            self.s@[a as int]@.len()
        } else {
            0
        }
    }

    /// The exact Jaccard similarity of the pair `(a, b)`, derived from the
    /// current counts.
    pub open spec fn simval(self, a: u32, b: u32) -> Score {
        Score { num: self.cval(a, b) as u32, m: (self.nval(a) + self.nval(b)) as u64 }
    }

    /// Structural well-formedness: square shape, distinct row keys, valid
    /// and non-reflexive keys, and a symmetric cooccurrence structure.
    pub closed spec fn wf(self) -> bool {
        &&& self.c@.len() == self.n@.len()
        &&& self.s@.len() == self.n@.len()
        &&& forall|a: int| 0 <= a < self.c@.len() ==> row_distinct(#[trigger] self.c@[a]@)
        &&& forall|a: int| 0 <= a < self.s@.len() ==> row_distinct(#[trigger] self.s@[a]@)
        &&& forall|a: int, j: int|
            0 <= a < self.c@.len() && 0 <= j < self.c@[a]@.len() ==> ((#[trigger] self.c@[a]@[j]).0
                as int) < self.n@.len() && (self.c@[a]@[j].0 as int) != a
        &&& forall|a: int, j: int|
            0 <= a < self.s@.len() && 0 <= j < self.s@[a]@.len() ==> ((#[trigger] self.s@[a]@[j]).0
                as int) < self.n@.len() && (self.s@[a]@[j].0 as int) != a
        &&& forall|a: u32, b: u32| #[trigger] self.chas(a, b) ==> self.chas(b, a)
        &&& forall|a: u32, b: u32| #[trigger] self.cval(a, b) == self.cval(b, a)
    }

    /// The similarity cache agrees exactly with the counts: it caches
    /// entries for exactly the stored cooccurrence pairs, and each cached
    /// score is the similarity derived from the current counts.
    pub closed spec fn consistent(self) -> bool {
        &&& forall|a: u32, b: u32| #[trigger] self.shas(a, b) ==> self.chas(a, b)
        &&& forall|a: u32, b: u32|
            #[trigger] self.chas(a, b) ==> self.shas(a, b) && self.sopt(a, b) == Some(
                self.simval(a, b),
            )
    }

    /// The counts after fitting `hs` onto `pre` stay within `u32`.
    pub open spec fn fits_cap(self, hs: Seq<Seq<u32>>) -> bool {
        &&& forall|x: u32| self.nval(x) + #[trigger] batch_occ(hs, x) <= u32::MAX
        &&& forall|a: u32, b: u32| self.cval(a, b) + #[trigger] batch_cooc(hs, a, b) <= u32::MAX
    }

    /// The decrements of forgetting `h` do not drive any count negative:
    /// exactly the negative-count detection that guards `forget`.
    pub open spec fn removable(self, h: Seq<u32>) -> bool {
        &&& forall|x: u32| #[trigger] occ(h, x) <= self.nval(x)
        &&& forall|a: u32, b: u32| #[trigger] hist_cooc(h, a, b) <= self.cval(a, b)
    }

    /// The counts after applying one history onto `self` stay within `u32`.
    pub open spec fn fits_hist(self, h: Seq<u32>) -> bool {
        &&& forall|x: u32| self.nval(x) + #[trigger] occ(h, x) <= u32::MAX
        &&& forall|a: u32, b: u32| self.cval(a, b) + #[trigger] hist_cooc(h, a, b) <= u32::MAX
    }

    /// Apply the interaction and cooccurrence increments of one history,
    /// given its occurrence counts `o`. Fails, possibly after applying part
    /// of the increments, exactly when a count would exceed `u32::MAX`.
    fn add_counts(&mut self, o: &Vec<(u32, u32)>, Ghost(h): Ghost<Seq<u32>>) -> (ok: bool)
        requires
            old(self).wf(),
            row_distinct(o@),
            forall|x: u32| #[trigger] row_val(o@, x) == occ(h, x),
            forall|j: int| 0 <= j < o@.len() ==> (#[trigger] o@[j]).1 >= 1,
            forall|j: int|
                0 <= j < o@.len() ==> ((#[trigger] o@[j]).0 as int) < old(self).num_items(),
        ensures
            final(self).wf(),
            final(self).num_items() == old(self).num_items(),
            final(self).k_of() == old(self).k_of(),
            final(self).s@ == old(self).s@,
            ok ==> forall|x: u32|
                #[trigger] final(self).nval(x) == old(self).nval(x) + occ(h, x),
            ok ==> forall|a: u32, b: u32|
                #[trigger] final(self).cval(a, b) == old(self).cval(a, b) + hist_cooc(h, a, b),
            ok ==> forall|a: u32, b: u32|
                #[trigger] final(self).chas(a, b) <==> (old(self).chas(a, b) || hist_cooc(
                    h,
                    a,
                    b,
                ) >= 1),
            !ok ==> !old(self).fits_hist(h),
    {
        let ghost pre = *self;
        let len = o.len();
        let mut ii: usize = 0;
        while ii < len
            invariant
                ii <= len,
                len == o@.len(),
                pre == *old(self),
                pre.wf(),
                row_distinct(o@),
                forall|x: u32| #[trigger] row_val(o@, x) == occ(h, x),
                forall|j: int| 0 <= j < o@.len() ==> (#[trigger] o@[j]).1 >= 1,
                forall|j: int| 0 <= j < o@.len() ==> ((#[trigger] o@[j]).0 as int) < pre.num_items(),
                self.wf(),
                self.k == pre.k,
                self.c@ == pre.c@,
                self.s@ == pre.s@,
                self.n@.len() == pre.n@.len(),
                forall|x: u32| #[trigger] self.nval(x) == pre.nval(x) + done_occ(o@, ii as int, x),
            decreases len - ii,
        {
            let ghost st0 = *self;
            let a = o[ii].0;
            let oa = o[ii].1;
            proof {
                lemma_row_index_unique(o@, ii as int);
                lemma_row_opt_index(o@, ii as int);
                assert(done_occ(o@, ii as int, a) == 0);
                assert(st0.nval(a) == pre.nval(a) + done_occ(o@, ii as int, a));
            }
            let cur = self.n[a as usize];
            let next64 = cur as u64 + oa as u64;
            if next64 > u32::MAX as u64 {
                proof {
                    assert(row_val(o@, a) == occ(h, a));
                    assert(pre.nval(a) + occ(h, a) > u32::MAX);
                }
                return false;
            }
            self.n[a as usize] = next64 as u32;
            proof {
                assert(self.n@ == st0.n@.update(a as int, (next64 as u32)));
                assert forall|x: u32|
                    #[trigger] self.nval(x) == pre.nval(x) + done_occ(o@, ii + 1, x) by {
                    assert(st0.nval(x) == pre.nval(x) + done_occ(o@, ii as int, x));
                    if x == a {
                        assert(row_has(o@, a));
                        assert(row_index(o@, a) == ii);
                        assert(done_occ(o@, ii + 1, a) == row_val(o@, a));
                    } else {
                        if row_has(o@, x) {
                            lemma_row_index(o@, x);
                            assert(o@[row_index(o@, x)].0 == x);
                            assert(row_index(o@, x) != ii);
                        }
                        assert(done_occ(o@, ii + 1, x) == done_occ(o@, ii as int, x));
                        if (x as int) < st0.n@.len() {
                            assert(self.n@[x as int] == st0.n@[x as int]);
                        }
                    }
                }
                assert(self.wf()) by {
                    assert(self.c@ == st0.c@);
                    assert forall|p: u32, q: u32| #[trigger] self.chas(p, q) implies self.chas(
                        q,
                        p,
                    ) by {
                        assert(self.chas(p, q) == st0.chas(p, q));
                        assert(st0.chas(p, q) ==> st0.chas(q, p));
                        assert(st0.chas(q, p) == self.chas(q, p));
                    }
                    assert forall|p: u32, q: u32| #[trigger]
                        self.cval(p, q) == self.cval(q, p) by {
                        assert(self.cval(p, q) == st0.cval(p, q));
                        assert(st0.cval(p, q) == st0.cval(q, p));
                        assert(st0.cval(q, p) == self.cval(q, p));
                    }
                }
            }
            ii = ii + 1;
        }
        proof {
            lemma_done_total(o@, h);
        }
        let ghost nmid = self.n@;
        let mut ii: usize = 0;
        while ii < len
            invariant
                ii <= len,
                len == o@.len(),
                pre == *old(self),
                pre.wf(),
                row_distinct(o@),
                forall|x: u32| #[trigger] row_val(o@, x) == occ(h, x),
                forall|j: int| 0 <= j < o@.len() ==> (#[trigger] o@[j]).1 >= 1,
                forall|j: int| 0 <= j < o@.len() ==> ((#[trigger] o@[j]).0 as int) < pre.num_items(),
                self.wf(),
                self.k == pre.k,
                self.s@ == pre.s@,
                self.n@ == nmid,
                self.c@.len() == pre.c@.len(),
                forall|x: u32| #[trigger] self.nval(x) == pre.nval(x) + occ(h, x),
                forall|a: u32, b: u32|
                    #[trigger] self.cval(a, b) == pre.cval(a, b) + done_pairs(
                        o@,
                        ii as int,
                        0,
                        a,
                        b,
                    ),
                forall|a: u32, b: u32|
                    #[trigger] self.chas(a, b) <==> (pre.chas(a, b) || done_pairs(
                        o@,
                        ii as int,
                        0,
                        a,
                        b,
                    ) >= 1),
            decreases len - ii,
        {
            let a = o[ii].0;
            let oa = o[ii].1;
            let mut jj: usize = 0;
            while jj < ii
                invariant
                    jj <= ii < len,
                    len == o@.len(),
                    a == o@[ii as int].0,
                    oa == o@[ii as int].1,
                    pre == *old(self),
                    pre.wf(),
                    row_distinct(o@),
                    forall|x: u32| #[trigger] row_val(o@, x) == occ(h, x),
                    forall|j: int| 0 <= j < o@.len() ==> (#[trigger] o@[j]).1 >= 1,
                    forall|j: int|
                        0 <= j < o@.len() ==> ((#[trigger] o@[j]).0 as int) < pre.num_items(),
                    self.wf(),
                    self.k == pre.k,
                    self.s@ == pre.s@,
                    self.n@ == nmid,
                    self.c@.len() == pre.c@.len(),
                    forall|x: u32| #[trigger] self.nval(x) == pre.nval(x) + occ(h, x),
                    forall|p: u32, q: u32|
                        #[trigger] self.cval(p, q) == pre.cval(p, q) + done_pairs(
                            o@,
                            ii as int,
                            jj as int,
                            p,
                            q,
                        ),
                    forall|p: u32, q: u32|
                        #[trigger] self.chas(p, q) <==> (pre.chas(p, q) || done_pairs(
                            o@,
                            ii as int,
                            jj as int,
                            p,
                            q,
                        ) >= 1),
                decreases ii - jj,
            {
                let ghost st0 = *self;
                let b = o[jj].0;
                let ob = o[jj].1;
                proof {
                    lemma_row_index_unique(o@, ii as int);
                    lemma_row_index_unique(o@, jj as int);
                    assert(a != b);
                    assert(row_has(o@, a));
                    assert(row_has(o@, b));
                    assert(done_pairs(o@, ii as int, jj as int, a, b) == 0);
                    assert(done_pairs(o@, ii as int, jj as int, b, a) == 0);
                    assert(st0.cval(a, b) == pre.cval(a, b) + done_pairs(
                        o@,
                        ii as int,
                        jj as int,
                        a,
                        b,
                    ));
                    assert(st0.cval(b, a) == pre.cval(b, a) + done_pairs(
                        o@,
                        ii as int,
                        jj as int,
                        b,
                        a,
                    ));
                    lemma_row_opt_index(o@, ii as int);
                    lemma_row_opt_index(o@, jj as int);
                    assert(row_val(o@, a) == oa as nat);
                    assert(row_val(o@, b) == ob as nat);
                    assert((oa as int) * (ob as int) <= u64::MAX && (oa as int) * (ob as int)
                        >= 1) by (nonlinear_arith)
                        requires
                            1 <= oa <= u32::MAX,
                            1 <= ob <= u32::MAX,
                    ;
                    assert(hist_cooc(h, a, b) == (oa as nat) * (ob as nat));
                    assert(hist_cooc(h, b, a) == (ob as nat) * (oa as nat));
                    assert((ob as nat) * (oa as nat) == (oa as nat) * (ob as nat))
                        by (nonlinear_arith);
                }
                let delta64 = (oa as u64) * (ob as u64);
                if delta64 > u32::MAX as u64 {
                    proof {
                        assert(pre.cval(a, b) + hist_cooc(h, a, b) > u32::MAX);
                    }
                    return false;
                }
                let delta = delta64 as u32;
                let ghost cprev = st0.c@;
                let rowa = &mut self.c[a as usize];
                let ghost rowa_pre = rowa@;
                let ok1 = crate::sparse::row_add(rowa, b, delta);
                if !ok1 {
                    proof {
                        assert(self.c@ =~= cprev);
                        assert(self.c@ == st0.c@);
                        assert(self.n@ == st0.n@);
                        assert(self.s@ == st0.s@);
                        assert(self.wf()) by {
                            assert forall|p: u32, q: u32| #[trigger] self.chas(p, q)
                                implies self.chas(q, p) by {
                                assert(self.chas(p, q) == st0.chas(p, q));
                                assert(st0.chas(p, q) ==> st0.chas(q, p));
                                assert(self.chas(q, p) == st0.chas(q, p));
                            }
                            assert forall|p: u32, q: u32| #[trigger]
                                self.cval(p, q) == self.cval(q, p) by {
                                assert(self.cval(p, q) == st0.cval(p, q));
                                assert(st0.cval(p, q) == st0.cval(q, p));
                                assert(self.cval(q, p) == st0.cval(q, p));
                            }
                        }
                        assert(row_val(rowa_pre, b) + delta > u32::MAX);
                        assert(pre.cval(a, b) + hist_cooc(h, a, b) > u32::MAX);
                    }
                    return false;
                }
                let ghost cmid = self.c@;
                proof {
                    assert(cmid == cprev.update(a as int, cmid[a as int]));
                    assert(row_val(cmid[a as int]@, b) == st0.cval(a, b) + delta);
                    assert(cmid[b as int] == cprev[b as int]);
                    assert(st0.cval(b, a) == st0.cval(a, b));
                    assert(row_val(cmid[b as int]@, a) == st0.cval(b, a));
                    assert(row_val(cmid[b as int]@, a) + delta <= u32::MAX);
                }
                let rowb = &mut self.c[b as usize];
                let ghost rowb_pre = rowb@;
                let ok2 = crate::sparse::row_add(rowb, a, delta);
                proof {
                    assert(ok2);
                }
                proof {
                    let cnow = self.c@;
                    assert(cnow == cmid.update(b as int, cnow[b as int]));
                    assert(cnow[a as int] == cmid[a as int]);
                    assert forall|p: u32, q: u32|
                        #[trigger] self.cval(p, q) == pre.cval(p, q) + done_pairs(
                            o@,
                            ii as int,
                            jj + 1,
                            p,
                            q,
                        ) && (self.chas(p, q) <==> (pre.chas(p, q) || done_pairs(
                            o@,
                            ii as int,
                            jj + 1,
                            p,
                            q,
                        ) >= 1)) by {
                        assert(st0.cval(p, q) == pre.cval(p, q) + done_pairs(
                            o@,
                            ii as int,
                            jj as int,
                            p,
                            q,
                        ));
                        assert(st0.chas(p, q) <==> (pre.chas(p, q) || done_pairs(
                            o@,
                            ii as int,
                            jj as int,
                            p,
                            q,
                        ) >= 1));
                        if p != q && row_has(o@, p) && row_has(o@, q) {
                            lemma_row_index(o@, p);
                            lemma_row_index(o@, q);
                        }
                        if (p == a && q == b) || (p == b && q == a) {
                            assert(done_pairs(o@, ii as int, jj + 1, p, q) == (oa as nat) * (ob
                                as nat));
                        } else {
                            assert(done_pairs(o@, ii as int, jj + 1, p, q) == done_pairs(
                                o@,
                                ii as int,
                                jj as int,
                                p,
                                q,
                            ));
                            if (p as int) < cnow.len() {
                                if p == a {
                                    assert(row_opt(cnow[p as int]@, q) == row_opt(
                                        cprev[p as int]@,
                                        q,
                                    ));
                                    assert(row_has(cnow[p as int]@, q) == row_has(
                                        cprev[p as int]@,
                                        q,
                                    ));
                                } else if p == b {
                                    assert(row_opt(cnow[p as int]@, q) == row_opt(
                                        cprev[p as int]@,
                                        q,
                                    ));
                                    assert(row_has(cnow[p as int]@, q) == row_has(
                                        cprev[p as int]@,
                                        q,
                                    ));
                                } else {
                                    assert(cnow[p as int] == cprev[p as int]);
                                }
                            }
                        }
                    }
                    assert forall|x: u32|
                        #[trigger] self.nval(x) == pre.nval(x) + occ(h, x) by {
                        assert(st0.nval(x) == pre.nval(x) + occ(h, x));
                        assert(self.n@ == st0.n@);
                    }
                    assert forall|p: u32, q: u32|
                        #[trigger] self.chas(p, q) <==> (pre.chas(p, q) || done_pairs(
                            o@,
                            ii as int,
                            jj + 1,
                            p,
                            q,
                        ) >= 1) by {
                        assert(self.cval(p, q) == pre.cval(p, q) + done_pairs(
                            o@,
                            ii as int,
                            jj + 1,
                            p,
                            q,
                        ));
                    }
                    assert(self.wf()) by {
                        assert(self.n@ == nmid);
                        assert(self.s@ == pre.s@);
                        assert(cnow.len() == cprev.len());
                        assert forall|e: int, j: int|
                            0 <= e < cnow.len() && 0 <= j < cnow[e]@.len() implies ((
                        #[trigger] cnow[e]@[j]).0 as int) < self.n@.len() && (cnow[e]@[j].0 as int)
                            != e by {
                            if e == a as int || e == b as int {
                                let key = cnow[e]@[j].0;
                                assert(row_has(cnow[e]@, key));
                                if row_has(cprev[e]@, key) {
                                    lemma_row_index(cprev[e]@, key);
                                    let w = crate::sparse::row_index(cprev[e]@, key);
                                    assert(((st0.c@[e]@[w]).0 as int) < st0.n@.len());
                                } else {
                                    assert(key == (if e == a as int {
                                        b
                                    } else {
                                        a
                                    }));
                                }
                            } else {
                                assert(cnow[e] == cprev[e]);
                                assert(((st0.c@[e]@[j]).0 as int) < st0.n@.len());
                            }
                        }
                        assert forall|p: u32, q: u32| #[trigger] self.chas(p, q) implies self.chas(
                            q,
                            p,
                        ) by {
                            assert(self.cval(p, q) == pre.cval(p, q) + done_pairs(
                                o@,
                                ii as int,
                                jj + 1,
                                p,
                                q,
                            ));
                            assert(self.cval(q, p) == pre.cval(q, p) + done_pairs(
                                o@,
                                ii as int,
                                jj + 1,
                                q,
                                p,
                            ));
                            assert(pre.chas(p, q) ==> pre.chas(q, p));
                            assert(done_pairs(o@, ii as int, jj + 1, p, q) == done_pairs(
                                o@,
                                ii as int,
                                jj + 1,
                                q,
                                p,
                            ));
                        }
                        assert forall|p: u32, q: u32| #[trigger]
                            self.cval(p, q) == self.cval(q, p) by {
                            assert(self.cval(p, q) == pre.cval(p, q) + done_pairs(
                                o@,
                                ii as int,
                                jj + 1,
                                p,
                                q,
                            ));
                            assert(self.cval(q, p) == pre.cval(q, p) + done_pairs(
                                o@,
                                ii as int,
                                jj + 1,
                                q,
                                p,
                            ));
                            assert(pre.cval(p, q) == pre.cval(q, p));
                            assert(done_pairs(o@, ii as int, jj + 1, p, q) == done_pairs(
                                o@,
                                ii as int,
                                jj + 1,
                                q,
                                p,
                            ));
                        }
                    }
                }
                jj = jj + 1;
            }
            proof {
                assert forall|p: u32, q: u32|
                    done_pairs(o@, ii + 1, 0, p, q) == #[trigger] done_pairs(
                        o@,
                        ii as int,
                        ii as int,
                        p,
                        q,
                    ) by {
                    if p != q && row_has(o@, p) && row_has(o@, q) {
                        lemma_row_index(o@, p);
                        lemma_row_index(o@, q);
                        let pp = row_index(o@, p);
                        let pq = row_index(o@, q);
                        assert(o@[pp].0 == p);
                        assert(o@[pq].0 == q);
                        assert(pp != pq);
                    }
                }
                assert forall|p: u32, q: u32|
                    #[trigger] self.cval(p, q) == pre.cval(p, q) + done_pairs(
                        o@,
                        ii + 1,
                        0,
                        p,
                        q,
                    ) by {
                    assert(self.cval(p, q) == pre.cval(p, q) + done_pairs(
                        o@,
                        ii as int,
                        ii as int,
                        p,
                        q,
                    ));
                    assert(done_pairs(o@, ii + 1, 0, p, q) == done_pairs(
                        o@,
                        ii as int,
                        ii as int,
                        p,
                        q,
                    ));
                }
                assert forall|p: u32, q: u32|
                    #[trigger] self.chas(p, q) <==> (pre.chas(p, q) || done_pairs(
                        o@,
                        ii + 1,
                        0,
                        p,
                        q,
                    ) >= 1) by {
                    assert(self.cval(p, q) == pre.cval(p, q) + done_pairs(
                        o@,
                        ii as int,
                        ii as int,
                        p,
                        q,
                    ));
                    assert(done_pairs(o@, ii + 1, 0, p, q) == done_pairs(
                        o@,
                        ii as int,
                        ii as int,
                        p,
                        q,
                    ));
                }
            }
            ii = ii + 1;
        }
        proof {
            assert forall|p: u32, q: u32|
                done_pairs(o@, len as int, 0, p, q) == #[trigger] hist_cooc(h, p, q) by {
                assert(done_pairs(o@, o@.len() as int, 0, p, q) == hist_cooc(h, p, q));
            }
        }
        true
    }

    /// Interaction counts never exceed their machine representation.
    pub proof fn lemma_nval_in_range(self, x: u32)
        ensures
            self.nval(x) <= u32::MAX,
    {
    }

    /// Cooccurrence counts never exceed their machine representation.
    pub proof fn lemma_cval_in_range(self, a: u32, b: u32)
        ensures
            self.cval(a, b) <= u32::MAX,
    {
        if (a as int) < self.c@.len() {
            match row_opt(self.c@[a as int]@, b) {
                Some(v) => {
                    assert(row_val(self.c@[a as int]@, b) == v as nat);
                },
                None => {},
            }
        }
    }

    /// A cached similarity entry exists exactly when `sopt` reports one.
    pub proof fn lemma_sopt_shas(self, a: u32, b: u32)
        ensures
            self.shas(a, b) <==> self.sopt(a, b) is Some,
    {
        if (a as int) < self.s@.len() {
            lemma_row_opt_has(self.s@[a as int]@, b);
        }
    }

    /// Whether forgetting the history with occurrence counts `o` keeps every
    /// count non-negative.
    fn check_removable(&self, o: &Vec<(u32, u32)>, Ghost(h): Ghost<Seq<u32>>) -> (r: bool)
        requires
            self.wf(),
            row_distinct(o@),
            forall|x: u32| #[trigger] row_val(o@, x) == occ(h, x),
            forall|j: int| 0 <= j < o@.len() ==> (#[trigger] o@[j]).1 >= 1,
            forall|j: int| 0 <= j < o@.len() ==> ((#[trigger] o@[j]).0 as int) < self.num_items(),
        ensures
            r == self.removable(h),
    {
        let len = o.len();
        let mut ii: usize = 0;
        while ii < len
            invariant
                ii <= len,
                len == o@.len(),
                self.wf(),
                row_distinct(o@),
                forall|x: u32| #[trigger] row_val(o@, x) == occ(h, x),
                forall|j: int| 0 <= j < o@.len() ==> (#[trigger] o@[j]).1 >= 1,
                forall|j: int|
                    0 <= j < o@.len() ==> ((#[trigger] o@[j]).0 as int) < self.num_items(),
                forall|j: int| 0 <= j < ii ==> ((#[trigger] o@[j]).1 as nat) <= self.nval(o@[j].0),
            decreases len - ii,
        {
            let a = o[ii].0;
            let oa = o[ii].1;
            if oa > self.n[a as usize] {
                proof {
                    lemma_row_opt_index(o@, ii as int);
                    assert(occ(h, a) == row_val(o@, a));
                    assert(occ(h, a) > self.nval(a));
                }
                return false;
            }
            ii = ii + 1;
        }
        let mut ii: usize = 0;
        while ii < len
            invariant
                ii <= len,
                len == o@.len(),
                self.wf(),
                row_distinct(o@),
                forall|x: u32| #[trigger] row_val(o@, x) == occ(h, x),
                forall|j: int| 0 <= j < o@.len() ==> (#[trigger] o@[j]).1 >= 1,
                forall|j: int|
                    0 <= j < o@.len() ==> ((#[trigger] o@[j]).0 as int) < self.num_items(),
                forall|j: int| 0 <= j < o@.len() ==> ((#[trigger] o@[j]).1 as nat) <= self.nval(
                    o@[j].0,
                ),
                forall|i1: int, i2: int|
                    0 <= i2 < i1 < len && i1 < ii ==> ((#[trigger] o@[i1]).1 as nat) * ((
                    #[trigger] o@[i2]).1 as nat) <= self.cval(o@[i1].0, o@[i2].0),
            decreases len - ii,
        {
            let a = o[ii].0;
            let oa = o[ii].1;
            let mut jj: usize = 0;
            while jj < ii
                invariant
                    jj <= ii < len,
                    len == o@.len(),
                    a == o@[ii as int].0,
                    oa == o@[ii as int].1,
                    self.wf(),
                    row_distinct(o@),
                    forall|x: u32| #[trigger] row_val(o@, x) == occ(h, x),
                    forall|j: int| 0 <= j < o@.len() ==> (#[trigger] o@[j]).1 >= 1,
                    forall|j: int|
                        0 <= j < o@.len() ==> ((#[trigger] o@[j]).0 as int) < self.num_items(),
                    forall|j: int| 0 <= j < o@.len() ==> ((#[trigger] o@[j]).1 as nat)
                        <= self.nval(o@[j].0),
                    forall|i1: int, i2: int|
                        0 <= i2 < i1 < len && i1 < ii ==> ((#[trigger] o@[i1]).1 as nat) * ((
                        #[trigger] o@[i2]).1 as nat) <= self.cval(o@[i1].0, o@[i2].0),
                    forall|i2: int|
                        0 <= i2 < jj ==> ((o@[ii as int].1 as nat) * ((#[trigger] o@[i2]).1 as nat)
                            <= self.cval(o@[ii as int].0, o@[i2].0)),
                decreases ii - jj,
            {
                let b = o[jj].0;
                let ob = o[jj].1;
                proof {
                    assert((oa as int) * (ob as int) <= u64::MAX) by (nonlinear_arith)
                        requires
                            oa <= u32::MAX,
                            ob <= u32::MAX,
                    ;
                }
                let delta64 = (oa as u64) * (ob as u64);
                let cur = self.count(a, b);
                if delta64 > cur as u64 {
                    proof {
                        lemma_row_opt_index(o@, ii as int);
                        lemma_row_opt_index(o@, jj as int);
                        assert(a != b);
                        assert(row_val(o@, a) == occ(h, a));
                        assert(row_val(o@, b) == occ(h, b));
                        assert(occ(h, a) == oa as nat);
                        assert(occ(h, b) == ob as nat);
                        assert(hist_cooc(h, a, b) > self.cval(a, b));
                    }
                    return false;
                }
                jj = jj + 1;
            }
            ii = ii + 1;
        }
        proof {
            assert forall|x: u32| #[trigger] occ(h, x) <= self.nval(x) by {
                if row_has(o@, x) {
                    lemma_row_index(o@, x);
                    let w = row_index(o@, x);
                    lemma_row_opt_index(o@, w);
                    assert(row_val(o@, x) == occ(h, x));
                } else {
                    lemma_row_opt_has(o@, x);
                    assert(row_val(o@, x) == occ(h, x));
                }
            }
            assert forall|a: u32, b: u32| #[trigger] hist_cooc(h, a, b) <= self.cval(a, b) by {
                if a != b {
                    if row_has(o@, a) && row_has(o@, b) {
                        lemma_row_index(o@, a);
                        lemma_row_index(o@, b);
                        let pa = row_index(o@, a);
                        let pb = row_index(o@, b);
                        lemma_row_opt_index(o@, pa);
                        lemma_row_opt_index(o@, pb);
                        assert(row_val(o@, a) == occ(h, a));
                        assert(row_val(o@, b) == occ(h, b));
                        assert(pa != pb);
                        if pa > pb {
                            assert((o@[pa].1 as nat) * (o@[pb].1 as nat) <= self.cval(
                                o@[pa].0,
                                o@[pb].0,
                            ));
                        } else {
                            assert((o@[pb].1 as nat) * (o@[pa].1 as nat) <= self.cval(
                                o@[pb].0,
                                o@[pa].0,
                            ));
                            assert((o@[pb].1 as nat) * (o@[pa].1 as nat) == (o@[pa].1 as nat) * (
                            o@[pb].1 as nat)) by (nonlinear_arith);
                            assert(self.cval(b, a) == self.cval(a, b));
                        }
                        assert(hist_cooc(h, a, b) == (o@[pa].1 as nat) * (o@[pb].1 as nat));
                    } else if !row_has(o@, a) {
                        lemma_row_opt_has(o@, a);
                        assert(row_val(o@, a) == occ(h, a));
                        assert(hist_cooc(h, a, b) == occ(h, a) * occ(h, b));
                        assert(0nat * occ(h, b) == 0) by (nonlinear_arith);
                    } else {
                        lemma_row_opt_has(o@, b);
                        assert(row_val(o@, b) == occ(h, b));
                        assert(hist_cooc(h, a, b) == occ(h, a) * occ(h, b));
                        assert(occ(h, a) * 0nat == 0) by (nonlinear_arith);
                    }
                }
            }
        }
        true
    }

    /// Apply the interaction and cooccurrence decrements of one history,
    /// given its occurrence counts `o`. The caller has already checked that
    /// no count goes negative; every entry stays in place, so the pair
    /// structure keeps its keys.
    fn sub_counts(&mut self, o: &Vec<(u32, u32)>, Ghost(h): Ghost<Seq<u32>>)
        requires
            old(self).wf(),
            row_distinct(o@),
            forall|x: u32| #[trigger] row_val(o@, x) == occ(h, x),
            forall|j: int| 0 <= j < o@.len() ==> (#[trigger] o@[j]).1 >= 1,
            forall|j: int|
                0 <= j < o@.len() ==> ((#[trigger] o@[j]).0 as int) < old(self).num_items(),
            old(self).removable(h),
        ensures
            final(self).wf(),
            final(self).num_items() == old(self).num_items(),
            final(self).k_of() == old(self).k_of(),
            final(self).s@ == old(self).s@,
            forall|x: u32| #[trigger] final(self).nval(x) == old(self).nval(x) - occ(h, x),
            forall|a: u32, b: u32|
                #[trigger] final(self).cval(a, b) == old(self).cval(a, b) - hist_cooc(h, a, b),
            forall|a: u32, b: u32|
                #[trigger] final(self).chas(a, b) <==> old(self).chas(a, b),
    {
        let ghost pre = *self;
        let len = o.len();
        let mut ii: usize = 0;
        while ii < len
            invariant
                ii <= len,
                len == o@.len(),
                pre == *old(self),
                pre.wf(),
                pre.removable(h),
                row_distinct(o@),
                forall|x: u32| #[trigger] row_val(o@, x) == occ(h, x),
                forall|j: int| 0 <= j < o@.len() ==> (#[trigger] o@[j]).1 >= 1,
                forall|j: int| 0 <= j < o@.len() ==> ((#[trigger] o@[j]).0 as int) < pre.num_items(),
                self.wf(),
                self.k == pre.k,
                self.c@ == pre.c@,
                self.s@ == pre.s@,
                self.n@.len() == pre.n@.len(),
                forall|x: u32| #[trigger] self.nval(x) == pre.nval(x) - done_occ(o@, ii as int, x),
            decreases len - ii,
        {
            let ghost st0 = *self;
            let a = o[ii].0;
            let oa = o[ii].1;
            proof {
                lemma_row_index_unique(o@, ii as int);
                lemma_row_opt_index(o@, ii as int);
                assert(done_occ(o@, ii as int, a) == 0);
                assert(st0.nval(a) == pre.nval(a) - done_occ(o@, ii as int, a));
                assert(row_val(o@, a) == occ(h, a));
                assert(occ(h, a) <= pre.nval(a));
            }
            let cur = self.n[a as usize];
            self.n[a as usize] = cur - oa;
            proof {
                assert(self.n@ == st0.n@.update(a as int, (cur - oa) as u32));
                assert forall|x: u32|
                    #[trigger] self.nval(x) == pre.nval(x) - done_occ(o@, ii + 1, x) by {
                    assert(st0.nval(x) == pre.nval(x) - done_occ(o@, ii as int, x));
                    if x == a {
                        assert(row_has(o@, a));
                        assert(row_index(o@, a) == ii);
                        assert(done_occ(o@, ii + 1, a) == row_val(o@, a));
                    } else {
                        if row_has(o@, x) {
                            lemma_row_index(o@, x);
                            assert(o@[row_index(o@, x)].0 == x);
                            assert(row_index(o@, x) != ii);
                        }
                        assert(done_occ(o@, ii + 1, x) == done_occ(o@, ii as int, x));
                        if (x as int) < st0.n@.len() {
                            assert(self.n@[x as int] == st0.n@[x as int]);
                        }
                    }
                }
                assert(self.wf()) by {
                    assert(self.c@ == st0.c@);
                    assert forall|p: u32, q: u32| #[trigger] self.chas(p, q) implies self.chas(
                        q,
                        p,
                    ) by {
                        assert(self.chas(p, q) == st0.chas(p, q));
                        assert(st0.chas(p, q) ==> st0.chas(q, p));
                        assert(st0.chas(q, p) == self.chas(q, p));
                    }
                    assert forall|p: u32, q: u32| #[trigger]
                        self.cval(p, q) == self.cval(q, p) by {
                        assert(self.cval(p, q) == st0.cval(p, q));
                        assert(st0.cval(p, q) == st0.cval(q, p));
                        assert(st0.cval(q, p) == self.cval(q, p));
                    }
                }
            }
            ii = ii + 1;
        }
        proof {
            lemma_done_total(o@, h);
        }
        let ghost nmid = self.n@;
        let mut ii: usize = 0;
        while ii < len
            invariant
                ii <= len,
                len == o@.len(),
                pre == *old(self),
                pre.wf(),
                pre.removable(h),
                row_distinct(o@),
                forall|x: u32| #[trigger] row_val(o@, x) == occ(h, x),
                forall|j: int| 0 <= j < o@.len() ==> (#[trigger] o@[j]).1 >= 1,
                forall|j: int| 0 <= j < o@.len() ==> ((#[trigger] o@[j]).0 as int) < pre.num_items(),
                self.wf(),
                self.k == pre.k,
                self.s@ == pre.s@,
                self.n@ == nmid,
                self.c@.len() == pre.c@.len(),
                forall|x: u32| #[trigger] self.nval(x) == pre.nval(x) - occ(h, x),
                forall|a: u32, b: u32|
                    #[trigger] self.cval(a, b) == pre.cval(a, b) - done_pairs(
                        o@,
                        ii as int,
                        0,
                        a,
                        b,
                    ),
                forall|a: u32, b: u32| #[trigger] self.chas(a, b) <==> pre.chas(a, b),
            decreases len - ii,
        {
            let a = o[ii].0;
            let oa = o[ii].1;
            let mut jj: usize = 0;
            while jj < ii
                invariant
                    jj <= ii < len,
                    len == o@.len(),
                    a == o@[ii as int].0,
                    oa == o@[ii as int].1,
                    pre == *old(self),
                    pre.wf(),
                    pre.removable(h),
                    row_distinct(o@),
                    forall|x: u32| #[trigger] row_val(o@, x) == occ(h, x),
                    forall|j: int| 0 <= j < o@.len() ==> (#[trigger] o@[j]).1 >= 1,
                    forall|j: int|
                        0 <= j < o@.len() ==> ((#[trigger] o@[j]).0 as int) < pre.num_items(),
                    self.wf(),
                    self.k == pre.k,
                    self.s@ == pre.s@,
                    self.n@ == nmid,
                    self.c@.len() == pre.c@.len(),
                    forall|x: u32| #[trigger] self.nval(x) == pre.nval(x) - occ(h, x),
                    forall|p: u32, q: u32|
                        #[trigger] self.cval(p, q) == pre.cval(p, q) - done_pairs(
                            o@,
                            ii as int,
                            jj as int,
                            p,
                            q,
                        ),
                    forall|p: u32, q: u32| #[trigger] self.chas(p, q) <==> pre.chas(p, q),
                decreases ii - jj,
            {
                let ghost st0 = *self;
                let b = o[jj].0;
                let ob = o[jj].1;
                proof {
                    lemma_row_index_unique(o@, ii as int);
                    lemma_row_index_unique(o@, jj as int);
                    assert(a != b);
                    assert(row_has(o@, a));
                    assert(row_has(o@, b));
                    assert(done_pairs(o@, ii as int, jj as int, a, b) == 0);
                    assert(done_pairs(o@, ii as int, jj as int, b, a) == 0);
                    assert(st0.cval(a, b) == pre.cval(a, b) - done_pairs(
                        o@,
                        ii as int,
                        jj as int,
                        a,
                        b,
                    ));
                    assert(st0.cval(b, a) == pre.cval(b, a) - done_pairs(
                        o@,
                        ii as int,
                        jj as int,
                        b,
                        a,
                    ));
                    lemma_row_opt_index(o@, ii as int);
                    lemma_row_opt_index(o@, jj as int);
                    assert(row_val(o@, a) == oa as nat);
                    assert(row_val(o@, b) == ob as nat);
                    assert((oa as int) * (ob as int) >= 1) by (nonlinear_arith)
                        requires
                            1 <= oa,
                            1 <= ob,
                    ;
                    assert(hist_cooc(h, a, b) == (oa as nat) * (ob as nat));
                    assert(hist_cooc(h, b, a) == (ob as nat) * (oa as nat));
                    assert((ob as nat) * (oa as nat) == (oa as nat) * (ob as nat))
                        by (nonlinear_arith);
                    assert(hist_cooc(h, a, b) <= pre.cval(a, b));
                    assert(pre.cval(a, b) <= u32::MAX);
                    assert((oa as int) * (ob as int) <= u64::MAX) by (nonlinear_arith)
                        requires
                            oa <= u32::MAX,
                            ob <= u32::MAX,
                    ;
                }
                let delta64 = (oa as u64) * (ob as u64);
                let delta = delta64 as u32;
                let ghost cprev = st0.c@;
                proof {
                    assert(delta64 <= u32::MAX);
                    assert(delta as nat == (oa as nat) * (ob as nat));
                    assert(st0.cval(a, b) == pre.cval(a, b));
                    assert(st0.cval(a, b) >= delta as nat && delta >= 1);
                    assert(st0.wf());
                    assert(row_val(cprev[a as int]@, b) >= 1);
                    lemma_row_opt_has(cprev[a as int]@, b);
                    assert(row_has(cprev[a as int]@, b));
                    assert((a as int) < st0.c@.len());
                    assert(st0.chas(a, b));
                    assert(st0.chas(b, a));
                    lemma_row_opt_has(cprev[b as int]@, a);
                    assert(row_val(cprev[b as int]@, a) == st0.cval(b, a));
                }
                let rowa = &mut self.c[a as usize];
                let ghost rowa_pre = rowa@;
                crate::sparse::row_sub(rowa, b, delta);
                let ghost cmid = self.c@;
                proof {
                    assert(cmid == cprev.update(a as int, cmid[a as int]));
                    assert(row_val(cmid[a as int]@, b) == st0.cval(a, b) - delta);
                    assert(cmid[b as int] == cprev[b as int]);
                    assert(st0.cval(b, a) == st0.cval(a, b));
                    assert(row_val(cmid[b as int]@, a) == st0.cval(b, a));
                    lemma_row_opt_has(cmid[b as int]@, a);
                }
                let rowb = &mut self.c[b as usize];
                let ghost rowb_pre = rowb@;
                crate::sparse::row_sub(rowb, a, delta);
                proof {
                    let cnow = self.c@;
                    assert(cnow == cmid.update(b as int, cnow[b as int]));
                    assert(cnow[a as int] == cmid[a as int]);
                    assert forall|p: u32, q: u32|
                        #[trigger] self.cval(p, q) == pre.cval(p, q) - done_pairs(
                            o@,
                            ii as int,
                            jj + 1,
                            p,
                            q,
                        ) && (self.chas(p, q) <==> st0.chas(p, q)) by {
                        assert(st0.cval(p, q) == pre.cval(p, q) - done_pairs(
                            o@,
                            ii as int,
                            jj as int,
                            p,
                            q,
                        ));
                        if p != q && row_has(o@, p) && row_has(o@, q) {
                            lemma_row_index(o@, p);
                            lemma_row_index(o@, q);
                        }
                        if (p == a && q == b) || (p == b && q == a) {
                            assert(done_pairs(o@, ii as int, jj + 1, p, q) == (oa as nat) * (ob
                                as nat));
                        } else {
                            assert(done_pairs(o@, ii as int, jj + 1, p, q) == done_pairs(
                                o@,
                                ii as int,
                                jj as int,
                                p,
                                q,
                            ));
                            if (p as int) < cnow.len() {
                                if p == a {
                                    assert(row_opt(cnow[p as int]@, q) == row_opt(
                                        cprev[p as int]@,
                                        q,
                                    ));
                                    assert(row_has(cnow[p as int]@, q) == row_has(
                                        cprev[p as int]@,
                                        q,
                                    ));
                                } else if p == b {
                                    assert(row_opt(cnow[p as int]@, q) == row_opt(
                                        cprev[p as int]@,
                                        q,
                                    ));
                                    assert(row_has(cnow[p as int]@, q) == row_has(
                                        cprev[p as int]@,
                                        q,
                                    ));
                                } else {
                                    assert(cnow[p as int] == cprev[p as int]);
                                }
                            }
                        }
                        if p == a || p == b {
                            assert(row_has(cnow[p as int]@, q) == row_has(cprev[p as int]@, q));
                        }
                    }
                    assert forall|x: u32|
                        #[trigger] self.nval(x) == pre.nval(x) - occ(h, x) by {
                        assert(st0.nval(x) == pre.nval(x) - occ(h, x));
                        assert(self.n@ == st0.n@);
                    }
                    assert forall|p: u32, q: u32|
                        #[trigger] self.chas(p, q) <==> pre.chas(p, q) by {
                        assert(self.cval(p, q) == pre.cval(p, q) - done_pairs(
                            o@,
                            ii as int,
                            jj + 1,
                            p,
                            q,
                        ));
                        assert(st0.chas(p, q) <==> pre.chas(p, q));
                    }
                    assert(self.wf()) by {
                        assert(self.n@ == nmid);
                        assert(self.s@ == pre.s@);
                        assert(cnow.len() == cprev.len());
                        assert forall|e: int, j: int|
                            0 <= e < cnow.len() && 0 <= j < cnow[e]@.len() implies ((
                        #[trigger] cnow[e]@[j]).0 as int) < self.n@.len() && (cnow[e]@[j].0 as int)
                            != e by {
                            if e == a as int || e == b as int {
                                let key = cnow[e]@[j].0;
                                assert(row_has(cnow[e]@, key));
                                assert(row_has(cprev[e]@, key));
                                lemma_row_index(cprev[e]@, key);
                                let w = crate::sparse::row_index(cprev[e]@, key);
                                assert(((st0.c@[e]@[w]).0 as int) < st0.n@.len());
                            } else {
                                assert(cnow[e] == cprev[e]);
                                assert(((st0.c@[e]@[j]).0 as int) < st0.n@.len());
                            }
                        }
                        assert forall|p: u32, q: u32| #[trigger] self.chas(p, q) implies self.chas(
                            q,
                            p,
                        ) by {
                            assert(self.chas(p, q) <==> pre.chas(p, q));
                            assert(self.chas(q, p) <==> pre.chas(q, p));
                            assert(pre.chas(p, q) ==> pre.chas(q, p));
                        }
                        assert forall|p: u32, q: u32| #[trigger]
                            self.cval(p, q) == self.cval(q, p) by {
                            assert(self.cval(p, q) == pre.cval(p, q) - done_pairs(
                                o@,
                                ii as int,
                                jj + 1,
                                p,
                                q,
                            ));
                            assert(self.cval(q, p) == pre.cval(q, p) - done_pairs(
                                o@,
                                ii as int,
                                jj + 1,
                                q,
                                p,
                            ));
                            assert(pre.cval(p, q) == pre.cval(q, p));
                            assert(done_pairs(o@, ii as int, jj + 1, p, q) == done_pairs(
                                o@,
                                ii as int,
                                jj + 1,
                                q,
                                p,
                            ));
                        }
                    }
                }
                jj = jj + 1;
            }
            proof {
                assert forall|p: u32, q: u32|
                    done_pairs(o@, ii + 1, 0, p, q) == #[trigger] done_pairs(
                        o@,
                        ii as int,
                        ii as int,
                        p,
                        q,
                    ) by {
                    if p != q && row_has(o@, p) && row_has(o@, q) {
                        lemma_row_index(o@, p);
                        lemma_row_index(o@, q);
                        let pp = row_index(o@, p);
                        let pq = row_index(o@, q);
                        assert(o@[pp].0 == p);
                        assert(o@[pq].0 == q);
                        assert(pp != pq);
                    }
                }
                assert forall|p: u32, q: u32|
                    #[trigger] self.cval(p, q) == pre.cval(p, q) - done_pairs(
                        o@,
                        ii + 1,
                        0,
                        p,
                        q,
                    ) by {
                    assert(self.cval(p, q) == pre.cval(p, q) - done_pairs(
                        o@,
                        ii as int,
                        ii as int,
                        p,
                        q,
                    ));
                    assert(done_pairs(o@, ii + 1, 0, p, q) == done_pairs(
                        o@,
                        ii as int,
                        ii as int,
                        p,
                        q,
                    ));
                }
            }
            ii = ii + 1;
        }
        proof {
            assert forall|p: u32, q: u32|
                done_pairs(o@, len as int, 0, p, q) == #[trigger] hist_cooc(h, p, q) by {
                assert(done_pairs(o@, o@.len() as int, 0, p, q) == hist_cooc(h, p, q));
            }
        }
    }

    /// Recompute the cached similarity rows of every touched item from the
    /// current counts, and mirror each recomputed entry into the neighbor's
    /// row. Entries of pairs with no touched endpoint are left as they are.
    fn rescore(&mut self, touched: &Vec<(u32, u32)>)
        requires
            old(self).wf(),
            row_distinct(touched@),
            forall|j: int|
                0 <= j < touched@.len() ==> ((#[trigger] touched@[j]).0 as int) < old(
                    self,
                ).num_items(),
        ensures
            final(self).wf(),
            final(self).c@ == old(self).c@,
            final(self).n@ == old(self).n@,
            final(self).k_of() == old(self).k_of(),
            final(self).num_items() == old(self).num_items(),
            forall|a: u32, b: u32|
                #[trigger] final(self).chas(a, b) && (row_has(touched@, a) || row_has(
                    touched@,
                    b,
                )) ==> final(self).sopt(a, b) == Some(final(self).simval(a, b)),
            forall|a: u32, b: u32|
                !row_has(touched@, a) && !row_has(touched@, b) ==> #[trigger] final(self).sopt(
                    a,
                    b,
                ) == old(self).sopt(a, b),
            forall|a: u32, b: u32|
                #[trigger] final(self).shas(a, b) ==> old(self).shas(a, b) || final(self).chas(
                    a,
                    b,
                ),
    {
        let ghost pre = *self;
        let tlen = touched.len();
        let mut t: usize = 0;
        while t < tlen
            invariant
                t <= tlen,
                tlen == touched@.len(),
                pre == *old(self),
                pre.wf(),
                row_distinct(touched@),
                forall|j: int|
                    0 <= j < touched@.len() ==> ((#[trigger] touched@[j]).0 as int)
                        < pre.num_items(),
                self.wf(),
                self.c@ == pre.c@,
                self.n@ == pre.n@,
                self.k == pre.k,
                forall|a: u32, b: u32|
                    #[trigger] self.chas(a, b) && (row_has(touched@.take(t as int), a) || row_has(
                        touched@.take(t as int),
                        b,
                    )) ==> self.sopt(a, b) == Some(self.simval(a, b)),
                forall|a: u32, b: u32|
                    !row_has(touched@.take(t as int), a) && !row_has(touched@.take(t as int), b)
                        ==> #[trigger] self.sopt(a, b) == pre.sopt(a, b),
                forall|a: u32, b: u32|
                    #[trigger] self.shas(a, b) ==> pre.shas(a, b) || self.chas(a, b),
            decreases tlen - t,
        {
            let ghost stt = *self;
            let a = touched[t].0;
            let rlen = self.c[a as usize].len();
            let mut j: usize = 0;
            while j < rlen
                invariant
                    j <= rlen,
                    t < tlen,
                    tlen == touched@.len(),
                    a == touched@[t as int].0,
                    rlen == self.c@[a as int]@.len(),
                    pre == *old(self),
                    pre.wf(),
                    row_distinct(touched@),
                    forall|jx: int|
                        0 <= jx < touched@.len() ==> ((#[trigger] touched@[jx]).0 as int)
                            < pre.num_items(),
                    self.wf(),
                    self.c@ == pre.c@,
                    self.n@ == pre.n@,
                    self.k == pre.k,
                    forall|p: u32, q: u32|
                        #[trigger] self.chas(p, q) && (row_has(touched@.take(t as int), p)
                            || row_has(touched@.take(t as int), q)) ==> self.sopt(p, q) == Some(
                            self.simval(p, q),
                        ),
                    forall|p: u32, q: u32|
                        !row_has(touched@.take(t + 1), p) && !row_has(touched@.take(t + 1), q)
                            ==> #[trigger] self.sopt(p, q) == pre.sopt(p, q),
                    forall|p: u32, q: u32|
                        #[trigger] self.shas(p, q) ==> pre.shas(p, q) || self.chas(p, q),
                    forall|q: u32|
                        #[trigger] self.chas(a, q) && row_has(
                            self.c@[a as int]@.take(j as int),
                            q,
                        ) ==> self.sopt(a, q) == Some(self.simval(a, q)) && self.sopt(q, a) == Some(
                            self.simval(q, a),
                        ),
                decreases rlen - j,
            {
                let ghost stj = *self;
                let entry = self.c[a as usize][j];
                let b = entry.0;
                let cnt = entry.1;
                proof {
                    assert(self.c@[a as int]@[j as int] == entry);
                    lemma_row_opt_index(self.c@[a as int]@, j as int);
                    assert(self.cval(a, b) == cnt as nat);
                    assert(self.chas(a, b));
                    assert(self.chas(b, a));
                    assert((b as int) < self.n@.len());
                    assert(b != a);
                }
                let m = (self.n[a as usize] as u64) + (self.n[b as usize] as u64);
                let sc = Score { num: cnt, m };
                proof {
                    assert(sc == self.simval(a, b));
                    assert(self.simval(a, b) == self.simval(b, a));
                }
                let rowa = &mut self.s[a as usize];
                crate::sparse::row_set(rowa, b, sc);
                let ghost smid = self.s@;
                proof {
                    assert(smid == stj.s@.update(a as int, smid[a as int]));
                }
                let rowb = &mut self.s[b as usize];
                crate::sparse::row_set(rowb, a, sc);
                proof {
                    let snow = self.s@;
                    assert(snow == smid.update(b as int, snow[b as int]));
                    assert(snow[a as int] == smid[a as int]);
                    assert(self.c@ == stj.c@ && self.n@ == stj.n@);
                    assert(self.sopt(a, b) == Some(sc));
                    assert(self.sopt(b, a) == Some(sc));
                    assert forall|p: u32, q: u32| #[trigger]
                        self.sopt(p, q) == (if (p == a && q == b) || (p == b && q == a) {
                            Some(sc)
                        } else {
                            stj.sopt(p, q)
                        }) by {
                        if !((p == a && q == b) || (p == b && q == a)) {
                            if (p as int) < snow.len() {
                                if p == a {
                                    assert(row_opt(snow[p as int]@, q) == row_opt(
                                        stj.s@[p as int]@,
                                        q,
                                    ));
                                } else if p == b {
                                    assert(row_opt(snow[p as int]@, q) == row_opt(
                                        stj.s@[p as int]@,
                                        q,
                                    ));
                                } else {
                                    assert(snow[p as int] == stj.s@[p as int]);
                                }
                            }
                        }
                    }
                    assert forall|p: u32, q: u32| #[trigger]
                        self.shas(p, q) <==> (stj.shas(p, q) || (p == a && q == b) || (p == b && q
                            == a)) by {
                        if (p as int) < snow.len() {
                            if p == a {
                                assert(row_has(snow[p as int]@, q) <==> row_has(
                                    stj.s@[p as int]@,
                                    q,
                                ) || q == b);
                            } else if p == b {
                                assert(row_has(snow[p as int]@, q) <==> row_has(
                                    stj.s@[p as int]@,
                                    q,
                                ) || q == a);
                            } else {
                                assert(snow[p as int] == stj.s@[p as int]);
                            }
                        }
                    }
                    assert(self.wf()) by {
                        assert(snow.len() == stj.s@.len());
                        assert forall|e: int, w: int|
                            0 <= e < snow.len() && 0 <= w < snow[e]@.len() implies ((
                        #[trigger] snow[e]@[w]).0 as int) < self.n@.len() && (snow[e]@[w].0 as int)
                            != e by {
                            if e == a as int || e == b as int {
                                let key = snow[e]@[w].0;
                                assert(row_has(snow[e]@, key));
                                if row_has(stj.s@[e]@, key) {
                                    lemma_row_index(stj.s@[e]@, key);
                                    let ww = crate::sparse::row_index(stj.s@[e]@, key);
                                    assert(((stj.s@[e]@[ww]).0 as int) < stj.n@.len());
                                } else {
                                    assert(key == (if e == a as int {
                                        b
                                    } else {
                                        a
                                    }));
                                }
                            } else {
                                assert(snow[e] == stj.s@[e]);
                                assert(((stj.s@[e]@[w]).0 as int) < stj.n@.len());
                            }
                        }
                        assert forall|p: u32, q: u32| #[trigger] self.chas(p, q) implies self.chas(
                            q,
                            p,
                        ) by {
                            assert(self.chas(p, q) == stj.chas(p, q));
                            assert(stj.chas(p, q) ==> stj.chas(q, p));
                            assert(stj.chas(q, p) == self.chas(q, p));
                        }
                        assert forall|p: u32, q: u32| #[trigger]
                            self.cval(p, q) == self.cval(q, p) by {
                            assert(self.cval(p, q) == stj.cval(p, q));
                            assert(stj.cval(p, q) == stj.cval(q, p));
                            assert(stj.cval(q, p) == self.cval(q, p));
                        }
                    }
                    assert(self.c@[a as int]@.take(j + 1).drop_last() =~= self.c@[a as int]@.take(
                        j as int,
                    ));
                    assert forall|q: u32|
                        #[trigger] self.chas(a, q) && row_has(self.c@[a as int]@.take(j + 1), q)
                            implies self.sopt(a, q) == Some(self.simval(a, q)) && self.sopt(q, a)
                            == Some(self.simval(q, a)) by {
                        if q != b {
                            assert(row_has(self.c@[a as int]@.take(j as int), q)) by {
                                let w = choose|w: int|
                                    0 <= w < self.c@[a as int]@.take(j + 1).len() && (
                                    #[trigger] self.c@[a as int]@.take(j + 1)[w]).0 == q;
                                assert(self.c@[a as int]@.take(j as int)[w] == self.c@[a
                                    as int]@.take(j + 1)[w]);
                            }
                            assert(stj.chas(a, q) && row_has(
                                stj.c@[a as int]@.take(j as int),
                                q,
                            ));
                            assert(stj.sopt(a, q) == Some(stj.simval(a, q)) && stj.sopt(q, a)
                                == Some(stj.simval(q, a)));
                            assert(self.sopt(a, q) == stj.sopt(a, q));
                            assert(self.sopt(q, a) == stj.sopt(q, a));
                        }
                    }
                    assert forall|p: u32, q: u32|
                        #[trigger] self.chas(p, q) && (row_has(touched@.take(t as int), p)
                            || row_has(touched@.take(t as int), q)) implies self.sopt(p, q) == Some(
                            self.simval(p, q),
                        ) by {
                        if !((p == a && q == b) || (p == b && q == a)) {
                            assert(stj.chas(p, q));
                            assert(stj.sopt(p, q) == Some(stj.simval(p, q)));
                            assert(self.sopt(p, q) == stj.sopt(p, q));
                        }
                    }
                    assert forall|p: u32, q: u32|
                        !row_has(touched@.take(t + 1), p) && !row_has(touched@.take(t + 1), q)
                            implies #[trigger] self.sopt(p, q) == pre.sopt(p, q) by {
                        assert(row_has(touched@.take(t + 1), a)) by {
                            assert(touched@.take(t + 1)[t as int].0 == a);
                        }
                        assert(!((p == a && q == b) || (p == b && q == a)));
                        assert(self.sopt(p, q) == stj.sopt(p, q));
                        assert(stj.sopt(p, q) == pre.sopt(p, q));
                    }
                    assert forall|p: u32, q: u32| #[trigger] self.shas(p, q) implies pre.shas(
                        p,
                        q,
                    ) || self.chas(p, q) by {
                        if !((p == a && q == b) || (p == b && q == a)) {
                            assert(stj.shas(p, q));
                            assert(stj.shas(p, q) ==> pre.shas(p, q) || stj.chas(p, q));
                        }
                    }
                }
                j = j + 1;
            }
            proof {
                assert(touched@.take(t + 1)[t as int].0 == a);
                assert(row_has(touched@.take(t + 1), a));
                assert forall|p: u32, q: u32|
                    #[trigger] self.chas(p, q) && (row_has(touched@.take(t + 1), p) || row_has(
                        touched@.take(t + 1),
                        q,
                    )) implies self.sopt(p, q) == Some(self.simval(p, q)) by {
                    let tk1 = touched@.take(t + 1);
                    let tk = touched@.take(t as int);
                    assert forall|x: u32| #[trigger] row_has(tk1, x) implies row_has(tk, x) || x
                        == a by {
                        let w = choose|w: int| 0 <= w < tk1.len() && (#[trigger] tk1[w]).0 == x;
                        if w < t {
                            assert(tk[w] == tk1[w]);
                        }
                    }
                    if row_has(tk, p) || row_has(tk, q) {
                    } else if p == a {
                        assert(row_has(self.c@[a as int]@.take(rlen as int), q)) by {
                            assert(self.c@[a as int]@.take(rlen as int) =~= self.c@[a as int]@);
                        }
                        assert(self.sopt(a, q) == Some(self.simval(a, q)));
                    } else {
                        assert(q == a);
                        assert(self.chas(a, p));
                        assert(row_has(self.c@[a as int]@.take(rlen as int), p)) by {
                            assert(self.c@[a as int]@.take(rlen as int) =~= self.c@[a as int]@);
                            lemma_row_opt_has(self.c@[a as int]@, p);
                        }
                        assert(self.sopt(p, a) == Some(self.simval(p, a)));
                    }
                }
            }
            t = t + 1;
        }
        proof {
            assert(touched@.take(tlen as int) =~= touched@);
        }
    }

    /// Create an empty model for `num_items` items and top-`k` queries.
    pub fn new(num_items: usize, k: usize) -> (m: ItembasedCF)
        ensures
            m.wf(),
            m.consistent(),
            m.num_items() == num_items,
            m.k_of() == k,
            forall|x: u32| #[trigger] m.nval(x) == 0,
            forall|a: u32, b: u32| #[trigger] m.cval(a, b) == 0,
            forall|a: u32, b: u32| !#[trigger] m.chas(a, b),
    {
        let mut c: Vec<Vec<(u32, u32)>> = Vec::new();
        let mut s: Vec<Vec<(u32, Score)>> = Vec::new();
        let mut n: Vec<u32> = Vec::new();
        let mut i: usize = 0;
        while i < num_items
            invariant
                i <= num_items,
                c@.len() == i,
                s@.len() == i,
                n@.len() == i,
                forall|a: int| 0 <= a < i ==> (#[trigger] c@[a])@.len() == 0,
                forall|a: int| 0 <= a < i ==> (#[trigger] s@[a])@.len() == 0,
                forall|a: int| 0 <= a < i ==> (#[trigger] n@[a]) == 0,
            decreases num_items - i,
        {
            c.push(Vec::new());
            s.push(Vec::new());
            n.push(0);
            i = i + 1;
        }
        ItembasedCF { k, c, s, n }
    }

    /// Cooccurrence count of the pair `(a, b)`.
    pub fn count(&self, a: u32, b: u32) -> (v: u32)
        requires
            self.wf(),
        ensures
            v as nat == self.cval(a, b),
    {
        if (a as usize) < self.c.len() {
            row_get(&self.c[a as usize], b)
        } else {
            0
        }
    }

    /// Total number of recorded interactions with item `x`.
    pub fn interaction_count(&self, x: u32) -> (v: u32)
        ensures
            v as nat == self.nval(x),
    {
        if (x as usize) < self.n.len() {
            self.n[x as usize]
        } else {
            0
        }
    }

    /// The cached similarity of the pair `(a, b)`, if any.
    pub fn similarity(&self, a: u32, b: u32) -> (r: Option<Score>)
        requires
            self.wf(),
        ensures
            r == self.sopt(a, b),
    {
        if (a as usize) < self.s.len() {
            match crate::sparse::row_find(&self.s[a as usize], b) {
                Some(j) => {
                    proof {
                        lemma_row_opt_index(self.s@[a as int]@, j as int);
                    }
                    Some(self.s[a as usize][j].1)
                },
                None => {
                    proof {
                        lemma_row_opt_has(self.s@[a as int]@, b);
                    }
                    None
                },
            }
        } else {
            None
        }
    }
}

impl crate::IncrementalDecrementalModel<Vec<u32>, u32, Vec<u32>> for ItembasedCF {
    /// Structural well-formedness.
    open spec fn inv(&self) -> bool {
        self.wf()
    }

    /// `partial_fit` rejects invalid item ids before any mutation, reports a
    /// count that would exceed its representation, and otherwise applies
    /// exactly the batch's increments and rescores the touched items.
    open spec fn fit_post(
        pre: Self,
        batch: Seq<Vec<u32>>,
        post: Self,
        r: Result<(), ModelError>,
    ) -> bool {
        match r {
            Ok(()) => {
                &&& batch_ids_ok(views(batch), pre.num_items())
                &&& pre.fits_cap(views(batch))
                &&& fit_updated(pre, views(batch), post)
                &&& (pre.consistent() ==> post.consistent())
            },
            Err(ModelError::DimensionMismatch) => {
                &&& !batch_ids_ok(views(batch), pre.num_items())
                &&& post == pre
            },
            Err(ModelError::CapacityExceeded) => {
                &&& batch_ids_ok(views(batch), pre.num_items())
                &&& !pre.fits_cap(views(batch))
                &&& post.num_items() == pre.num_items()
                &&& post.k_of() == pre.k_of()
                &&& forall|a: u32, b: u32| #[trigger] post.sopt(a, b) == pre.sopt(a, b)
            },
            Err(_) => false,
        }
    }

    /// `forget` rejects invalid ids and removals that would drive a count
    /// negative, both before any mutation; otherwise it applies exactly the
    /// history's decrements and rescores the history's items.
    open spec fn forget_post(pre: Self, unit: Vec<u32>, post: Self, r: Result<(), ModelError>) -> bool {
        match r {
            Ok(()) => {
                &&& ids_ok(unit@, pre.num_items())
                &&& pre.removable(unit@)
                &&& forget_updated(pre, unit@, post)
                &&& (pre.consistent() ==> post.consistent())
            },
            Err(ModelError::DimensionMismatch) => {
                &&& !ids_ok(unit@, pre.num_items())
                &&& post == pre
            },
            Err(ModelError::UnitNotFit) => {
                &&& ids_ok(unit@, pre.num_items())
                &&& !pre.removable(unit@)
                &&& post == pre
            },
            Err(_) => false,
        }
    }

    /// Predictions are answered for valid item ids on a model whose
    /// similarity cache agrees with its counts.
    open spec fn query_ok(&self, q: u32) -> bool {
        (q as nat) < self.num_items() && self.consistent()
    }

    /// `predict` returns the distinct stored neighbors of the item with the
    /// `k` greatest similarity scores: all of them when fewer than `k`
    /// exist, and otherwise `k` neighbors none of which scores below any
    /// excluded neighbor.
    open spec fn predict_post(&self, q: u32, r: Vec<u32>) -> bool {
        &&& r@.len() == (if self.neighbor_count(q) < self.k_of() {
            self.neighbor_count(q)
        } else {
            self.k_of()
        })
        &&& forall|i: int, j: int| 0 <= i < j < r@.len() ==> r@[i] != r@[j]
        &&& forall|i: int| 0 <= i < r@.len() ==> self.chas(q, #[trigger] r@[i])
        &&& (self.neighbor_count(q) <= self.k_of() ==> forall|b: u32|
            #[trigger] self.chas(q, b) <==> r@.contains(b))
        &&& forall|b: u32, i: int|
            #![trigger self.chas(q, b), r@[i]]
            self.chas(q, b) && !r@.contains(b) && 0 <= i < r@.len() ==> score_le(
                self.simval(q, b),
                self.simval(q, r@[i]),
            )
    }

    fn partial_fit(&mut self, data: &[Vec<u32>]) -> (r: Result<(), ModelError>) {
        let ghost hs = views(data@);
        let n_items = self.n.len();
        let dlen = data.len();
        let mut i: usize = 0;
        while i < dlen
            invariant
                i <= dlen,
                dlen == data@.len(),
                hs == views(data@),
                n_items == self.n@.len(),
                *self == *old(self),
                old(self).wf(),
                forall|w: int| 0 <= w < i ==> ids_ok(#[trigger] hs[w], self.num_items()),
            decreases dlen - i,
        {
            let h = &data[i];
            let hl = h.len();
            proof {
                assert(hs[i as int] == data@[i as int]@);
            }
            let mut jj: usize = 0;
            while jj < hl
                invariant
                    jj <= hl,
                    i < dlen,
                    dlen == data@.len(),
                    hs == views(data@),
                    hl == h@.len(),
                    h@ == hs[i as int],
                    n_items == self.n@.len(),
                    *self == *old(self),
                    old(self).wf(),
                    forall|w: int| 0 <= w < jj ==> ((#[trigger] h@[w]) as nat) < self.num_items(),
                decreases hl - jj,
            {
                if h[jj] as usize >= n_items {
                    proof {
                        assert((h@[jj as int] as nat) >= self.num_items());
                        assert(!ids_ok(hs[i as int], self.num_items()));
                        assert(!batch_ids_ok(hs, self.num_items()));
                    }
                    return Err(ModelError::DimensionMismatch);
                }
                jj = jj + 1;
            }
            proof {
                assert(ids_ok(hs[i as int], self.num_items()));
            }
            i = i + 1;
        }
        proof {
            assert(batch_ids_ok(hs, self.num_items()));
            assert(hs.take(0) =~= Seq::<Seq<u32>>::empty());
        }
        let ghost pre = *self;
        let mut touched: Vec<(u32, u32)> = Vec::new();
        let mut hi: usize = 0;
        while hi < dlen
            invariant
                hi <= dlen,
                dlen == data@.len(),
                hs == views(data@),
                pre == *old(self),
                pre.wf(),
                batch_ids_ok(hs, pre.num_items()),
                self.wf(),
                self.k == pre.k,
                self.s@ == pre.s@,
                self.num_items() == pre.num_items(),
                row_distinct(touched@),
                forall|x: u32| #[trigger] row_has(touched@, x) ==> (x as int) < pre.num_items(),
                forall|x: u32|
                    #[trigger] row_has(touched@, x) <==> batch_occ(hs.take(hi as int), x) >= 1,
                forall|x: u32|
                    #[trigger] self.nval(x) == pre.nval(x) + batch_occ(hs.take(hi as int), x),
                forall|a: u32, b: u32|
                    #[trigger] self.cval(a, b) == pre.cval(a, b) + batch_cooc(
                        hs.take(hi as int),
                        a,
                        b,
                    ),
                forall|a: u32, b: u32|
                    #[trigger] self.chas(a, b) <==> (pre.chas(a, b) || batch_cooc(
                        hs.take(hi as int),
                        a,
                        b,
                    ) >= 1),
            decreases dlen - hi,
        {
            let ghost st0 = *self;
            let h = &data[hi];
            let ghost hv = hs[hi as int];
            proof {
                assert(hv == data@[hi as int]@);
                assert(ids_ok(hv, pre.num_items()));
            }
            let o = match occurrences(h) {
                Some(o) => o,
                None => {
                    proof {
                        let x = choose|x: u32| #[trigger] occ(hv, x) > u32::MAX;
                        lemma_hist_le_batch(hs, hi as int, x, 0, 0);
                        assert(pre.nval(x) + batch_occ(hs, x) > u32::MAX);
                        assert(!pre.fits_cap(hs));
                        assert forall|a: u32, b: u32|
                            #[trigger] self.sopt(a, b) == pre.sopt(a, b) by {
                            assert(self.s@ == pre.s@);
                        }
                    }
                    return Err(ModelError::CapacityExceeded);
                },
            };
            proof {
                assert forall|j: int|
                    0 <= j < o@.len() implies ((#[trigger] o@[j]).0 as int) < pre.num_items() by {
                    assert(occ(hv, o@[j].0) == o@[j].1 as nat);
                    lemma_occ_pos_mem(hv, o@[j].0);
                    let w = choose|w: int| 0 <= w < hv.len() && hv[w] == o@[j].0;
                    assert((hv[w] as nat) < pre.num_items());
                }
            }
            let ok = self.add_counts(&o, Ghost(hv));
            if !ok {
                proof {
                    assert(!st0.fits_hist(hv));
                    if !(forall|x: u32| st0.nval(x) + #[trigger] occ(hv, x) <= u32::MAX) {
                        let x = choose|x: u32| !(st0.nval(x) + #[trigger] occ(hv, x) <= u32::MAX);
                        lemma_batch_occ_take_step(hs, hi as int, x);
                        lemma_batch_occ_take_le(hs, hi + 1, x);
                        assert(st0.nval(x) == pre.nval(x) + batch_occ(hs.take(hi as int), x));
                        assert(pre.nval(x) + batch_occ(hs, x) > u32::MAX);
                    } else {
                        let (a, b) = choose|a: u32, b: u32|
                            !(st0.cval(a, b) + #[trigger] hist_cooc(hv, a, b) <= u32::MAX);
                        lemma_batch_cooc_take_step(hs, hi as int, a, b);
                        lemma_batch_cooc_take_le(hs, hi + 1, a, b);
                        assert(st0.cval(a, b) == pre.cval(a, b) + batch_cooc(
                            hs.take(hi as int),
                            a,
                            b,
                        ));
                        assert(pre.cval(a, b) + batch_cooc(hs, a, b) > u32::MAX);
                    }
                    assert(!pre.fits_cap(hs));
                    assert forall|a: u32, b: u32|
                        #[trigger] self.sopt(a, b) == pre.sopt(a, b) by {
                        assert(self.s@ == pre.s@);
                    }
                }
                return Err(ModelError::CapacityExceeded);
            }
            let ghost tprev = touched@;
            merge_touched(&mut touched, &o);
            proof {
                assert forall|x: u32|
                    #[trigger] self.nval(x) == pre.nval(x) + batch_occ(hs.take(hi + 1), x) by {
                    lemma_batch_occ_take_step(hs, hi as int, x);
                    assert(st0.nval(x) == pre.nval(x) + batch_occ(hs.take(hi as int), x));
                    assert(self.nval(x) == st0.nval(x) + occ(hv, x));
                }
                assert forall|a: u32, b: u32|
                    #[trigger] self.cval(a, b) == pre.cval(a, b) + batch_cooc(
                        hs.take(hi + 1),
                        a,
                        b,
                    ) && (self.chas(a, b) <==> (pre.chas(a, b) || batch_cooc(
                        hs.take(hi + 1),
                        a,
                        b,
                    ) >= 1)) by {
                    lemma_batch_cooc_take_step(hs, hi as int, a, b);
                    assert(st0.cval(a, b) == pre.cval(a, b) + batch_cooc(hs.take(hi as int), a, b));
                    assert(self.cval(a, b) == st0.cval(a, b) + hist_cooc(hv, a, b));
                    assert(st0.chas(a, b) <==> (pre.chas(a, b) || batch_cooc(
                        hs.take(hi as int),
                        a,
                        b,
                    ) >= 1));
                    assert(self.chas(a, b) <==> (st0.chas(a, b) || hist_cooc(hv, a, b) >= 1));
                }
                assert forall|a: u32, b: u32|
                    #[trigger] self.chas(a, b) <==> (pre.chas(a, b) || batch_cooc(
                        hs.take(hi + 1),
                        a,
                        b,
                    ) >= 1) by {
                    assert(self.cval(a, b) == pre.cval(a, b) + batch_cooc(hs.take(hi + 1), a, b));
                }
                assert forall|x: u32|
                    #[trigger] row_has(touched@, x) <==> batch_occ(hs.take(hi + 1), x) >= 1 by {
                    lemma_batch_occ_take_step(hs, hi as int, x);
                    assert(row_has(touched@, x) <==> row_has(tprev, x) || row_has(o@, x));
                    assert(row_has(tprev, x) <==> batch_occ(hs.take(hi as int), x) >= 1);
                    assert(row_has(o@, x) <==> occ(hv, x) >= 1) by {
                        lemma_row_opt_has(o@, x);
                        assert(row_val(o@, x) == occ(hv, x));
                        if row_has(o@, x) {
                            lemma_row_index(o@, x);
                            lemma_row_opt_index(o@, row_index(o@, x));
                        }
                    }
                }
                assert forall|x: u32|
                    #[trigger] row_has(touched@, x) implies (x as int) < pre.num_items() by {
                    if row_has(tprev, x) {
                    } else {
                        assert(row_has(o@, x));
                        lemma_row_index(o@, x);
                    }
                }
            }
            hi = hi + 1;
        }
        proof {
            assert(hs.take(dlen as int) =~= hs);
        }
        let ghost mid = *self;
        proof {
            assert forall|j: int|
                0 <= j < touched@.len() implies ((#[trigger] touched@[j]).0 as int)
                < mid.num_items() by {
                assert(row_has(touched@, touched@[j].0));
            }
        }
        self.rescore(&touched);
        proof {
            assert forall|x: u32|
                #[trigger] self.nval(x) == pre.nval(x) + batch_occ(hs, x) by {
                assert(self.n@ == mid.n@);
                assert(mid.nval(x) == pre.nval(x) + batch_occ(hs.take(dlen as int), x));
            }
            assert forall|a: u32, b: u32|
                #[trigger] self.cval(a, b) == pre.cval(a, b) + batch_cooc(hs, a, b) && (self.chas(
                    a,
                    b,
                ) <==> (pre.chas(a, b) || batch_cooc(hs, a, b) >= 1)) by {
                assert(self.c@ == mid.c@);
                assert(mid.cval(a, b) == pre.cval(a, b) + batch_cooc(hs.take(dlen as int), a, b));
                assert(mid.chas(a, b) <==> (pre.chas(a, b) || batch_cooc(
                    hs.take(dlen as int),
                    a,
                    b,
                ) >= 1));
                assert(self.cval(a, b) == mid.cval(a, b));
                assert(self.chas(a, b) == mid.chas(a, b));
            }
            assert(pre.fits_cap(hs)) by {
                assert forall|x: u32| pre.nval(x) + #[trigger] batch_occ(hs, x) <= u32::MAX by {
                    assert(self.nval(x) == pre.nval(x) + batch_occ(hs, x));
                }
                assert forall|a: u32, b: u32|
                    pre.cval(a, b) + #[trigger] batch_cooc(hs, a, b) <= u32::MAX by {
                    assert(self.cval(a, b) == pre.cval(a, b) + batch_cooc(hs, a, b));
                }
            }
            if pre.consistent() {
                assert forall|a: u32, b: u32| #[trigger] self.chas(a, b) implies self.shas(a, b)
                    && self.sopt(a, b) == Some(self.simval(a, b)) by {
                    if row_has(touched@, a) || row_has(touched@, b) {
                        assert(self.sopt(a, b) == Some(self.simval(a, b)));
                        self.lemma_sopt_shas(a, b);
                    } else {
                        assert(self.cval(a, b) == pre.cval(a, b) + batch_cooc(hs, a, b));
                        assert(batch_occ(hs, a) == 0 && batch_occ(hs, b) == 0);
                        if batch_cooc(hs, a, b) >= 1 {
                            lemma_batch_cooc_pos(hs, a, b);
                        }
                        assert(batch_cooc(hs, a, b) == 0);
                        assert(self.cval(a, b) == pre.cval(a, b));
                        assert(self.nval(a) == pre.nval(a));
                        assert(self.nval(b) == pre.nval(b));
                        assert(self.chas(a, b) <==> pre.chas(a, b));
                        assert(pre.sopt(a, b) == Some(pre.simval(a, b)));
                        assert(self.sopt(a, b) == mid.sopt(a, b));
                        assert(mid.sopt(a, b) == pre.sopt(a, b)) by {
                            assert(mid.s@ == pre.s@);
                        }
                        assert(self.simval(a, b) == pre.simval(a, b));
                        self.lemma_sopt_shas(a, b);
                    }
                }
                assert forall|a: u32, b: u32| #[trigger] self.shas(a, b) implies self.chas(
                    a,
                    b,
                ) by {
                    if !self.chas(a, b) {
                        assert(self.cval(a, b) == pre.cval(a, b) + batch_cooc(hs, a, b));
                        assert(mid.shas(a, b) || self.chas(a, b));
                        assert(mid.shas(a, b) <==> pre.shas(a, b)) by {
                            assert(mid.s@ == pre.s@);
                        }
                        assert(pre.chas(a, b));
                        assert(self.chas(a, b) <==> (pre.chas(a, b) || batch_cooc(hs, a, b) >= 1));
                        assert(false);
                    }
                }
                assert(self.consistent());
            }
            assert(self.num_items() == pre.num_items());
            assert(self.k_of() == pre.k_of());
            assert(batch_ids_ok(views(data@), pre.num_items()));
            assert(pre.fits_cap(views(data@)));
            assert forall|a: u32, b: u32|
                #[trigger] self.chas(a, b) <==> (pre.chas(a, b) || batch_cooc(hs, a, b) >= 1) by {
                assert(self.cval(a, b) == pre.cval(a, b) + batch_cooc(hs, a, b));
            }
            assert(fit_updated(pre, views(data@), *self));
            assert(pre == *old(self));
        }
        Ok(())
    }

    fn forget(&mut self, data: &Vec<u32>) -> (r: Result<(), ModelError>) {
        let ghost hv = data@;
        let n_items = self.n.len();
        let hl = data.len();
        let mut jj: usize = 0;
        while jj < hl
            invariant
                jj <= hl,
                hv == data@,
                hl == data@.len(),
                n_items == self.n@.len(),
                *self == *old(self),
                old(self).wf(),
                forall|w: int| 0 <= w < jj ==> ((#[trigger] data@[w]) as nat) < self.num_items(),
            decreases hl - jj,
        {
            if data[jj] as usize >= n_items {
                proof {
                    assert((hv[jj as int] as nat) >= self.num_items());
                    assert(!ids_ok(hv, self.num_items()));
                }
                return Err(ModelError::DimensionMismatch);
            }
            jj = jj + 1;
        }
        proof {
            assert(ids_ok(hv, self.num_items()));
        }
        let ghost pre = *self;
        let o = match occurrences(data) {
            Some(o) => o,
            None => {
                proof {
                    let x = choose|x: u32| #[trigger] occ(hv, x) > u32::MAX;
                    assert(pre.nval(x) <= u32::MAX);
                    assert(!(occ(hv, x) <= pre.nval(x)));
                    assert(!pre.removable(hv));
                }
                return Err(ModelError::UnitNotFit);
            },
        };
        proof {
            assert forall|j: int|
                0 <= j < o@.len() implies ((#[trigger] o@[j]).0 as int) < pre.num_items() by {
                assert(occ(hv, o@[j].0) == o@[j].1 as nat);
                lemma_occ_pos_mem(hv, o@[j].0);
                let w = choose|w: int| 0 <= w < hv.len() && hv[w] == o@[j].0;
                assert((hv[w] as nat) < pre.num_items());
            }
        }
        if !self.check_removable(&o, Ghost(hv)) {
            return Err(ModelError::UnitNotFit);
        }
        self.sub_counts(&o, Ghost(hv));
        let ghost mid = *self;
        self.rescore(&o);
        proof {
            assert forall|x: u32| #[trigger] self.nval(x) == pre.nval(x) - occ(hv, x) by {
                assert(self.n@ == mid.n@);
                assert(mid.nval(x) == pre.nval(x) - occ(hv, x));
            }
            assert forall|a: u32, b: u32|
                #[trigger] self.cval(a, b) == pre.cval(a, b) - hist_cooc(hv, a, b) && (self.chas(
                    a,
                    b,
                ) <==> pre.chas(a, b)) by {
                assert(self.c@ == mid.c@);
                assert(mid.cval(a, b) == pre.cval(a, b) - hist_cooc(hv, a, b));
                assert(mid.chas(a, b) <==> pre.chas(a, b));
                assert(self.cval(a, b) == mid.cval(a, b));
                assert(self.chas(a, b) == mid.chas(a, b));
            }
            if pre.consistent() {
                assert forall|a: u32, b: u32| #[trigger] self.chas(a, b) implies self.shas(a, b)
                    && self.sopt(a, b) == Some(self.simval(a, b)) by {
                    if row_has(o@, a) || row_has(o@, b) {
                        assert(self.sopt(a, b) == Some(self.simval(a, b)));
                        self.lemma_sopt_shas(a, b);
                    } else {
                        assert(self.cval(a, b) == pre.cval(a, b) - hist_cooc(hv, a, b));
                        assert(occ(hv, a) == 0) by {
                            lemma_row_opt_has(o@, a);
                            assert(row_val(o@, a) == occ(hv, a));
                        }
                        assert(occ(hv, b) == 0) by {
                            lemma_row_opt_has(o@, b);
                            assert(row_val(o@, b) == occ(hv, b));
                        }
                        assert(hist_cooc(hv, a, b) == 0) by {
                            if a != b {
                                assert(hist_cooc(hv, a, b) == 0nat * occ(hv, b));
                            }
                        }
                        assert(self.cval(a, b) == pre.cval(a, b));
                        assert(self.nval(a) == pre.nval(a));
                        assert(self.nval(b) == pre.nval(b));
                        assert(pre.chas(a, b));
                        assert(pre.sopt(a, b) == Some(pre.simval(a, b)));
                        assert(self.sopt(a, b) == mid.sopt(a, b));
                        assert(mid.sopt(a, b) == pre.sopt(a, b)) by {
                            assert(mid.s@ == pre.s@);
                        }
                        assert(self.simval(a, b) == pre.simval(a, b));
                        self.lemma_sopt_shas(a, b);
                    }
                }
                assert forall|a: u32, b: u32| #[trigger] self.shas(a, b) implies self.chas(
                    a,
                    b,
                ) by {
                    if !self.chas(a, b) {
                        assert(self.cval(a, b) == pre.cval(a, b) - hist_cooc(hv, a, b));
                        assert(mid.shas(a, b) || self.chas(a, b));
                        assert(mid.shas(a, b) <==> pre.shas(a, b)) by {
                            assert(mid.s@ == pre.s@);
                        }
                        assert(pre.chas(a, b));
                        assert(false);
                    }
                }
                assert(self.consistent());
            }
            assert(self.num_items() == pre.num_items());
            assert(self.k_of() == pre.k_of());
            assert(ids_ok(hv, pre.num_items()));
            assert(pre.removable(hv));
            assert forall|a: u32, b: u32| #[trigger] self.chas(a, b) <==> pre.chas(a, b) by {
                assert(self.cval(a, b) == pre.cval(a, b) - hist_cooc(hv, a, b));
            }
            assert(forget_updated(pre, hv, *self));
            assert(pre == *old(self));
        }
        Ok(())
    }

    #[verifier::rlimit(100)]
    fn predict(&self, data: &u32) -> (r: Vec<u32>) {
        let item = *data;
        let k = self.k;
        let row = &self.s[item as usize];
        let rlen = row.len();
        let ghost rv = self.s@[item as int]@;
        let mut top: Vec<(u32, Score)> = Vec::new();
        let mut j: usize = 0;
        proof {
            assert(rv.take(0) =~= Seq::<(u32, Score)>::empty());
        }
        while j < rlen
            invariant
                j <= rlen,
                self.wf(),
                self.consistent(),
                (item as int) < self.num_items(),
                rv == self.s@[item as int]@,
                rlen == rv.len(),
                k == self.k,
                row_distinct(top@),
                top@.len() == (if j < k {
                    j as int
                } else {
                    k as int
                }),
                forall|w: int|
                    0 <= w < top@.len() ==> self.chas(item, (#[trigger] top@[w]).0) && top@[w].1
                        == self.simval(item, top@[w].0) && row_has(rv.take(j as int), top@[w].0),
                forall|w1: int, w2: int|
                    0 <= w1 <= w2 < top@.len() ==> score_le(
                        (#[trigger] top@[w1]).1,
                        (#[trigger] top@[w2]).1,
                    ),
                k >= 1 ==> forall|q: u32|
                    #[trigger] row_has(rv.take(j as int), q) && !row_has(top@, q) ==> top@.len() > 0
                        && score_le(self.simval(item, q), top@[0].1),
                j <= k ==> forall|q: u32|
                    #[trigger] row_has(rv.take(j as int), q) <==> row_has(top@, q),
            decreases rlen - j,
        {
            let ghost top0 = top@;
            let entry = self.s[item as usize][j];
            let b = entry.0;
            let sc = entry.1;
            proof {
                lemma_row_opt_index(rv, j as int);
                assert(row_has(rv, b)) by {
                    assert(rv[j as int].0 == b);
                }
                assert(self.shas(item, b));
                assert(self.chas(item, b) && self.sopt(item, b) == Some(self.simval(item, b)));
                assert(sc == self.simval(item, b));
                assert(!row_has(rv.take(j as int), b)) by {
                    if row_has(rv.take(j as int), b) {
                        let w = choose|w: int|
                            0 <= w < rv.take(j as int).len() && (#[trigger] rv.take(j as int)[w]).0
                                == b;
                        assert(rv[w].0 == b);
                        assert(rv[w].0 != rv[j as int].0);
                    }
                }
                assert(!row_has(top0, b)) by {
                    if row_has(top0, b) {
                        let w = choose|w: int|
                            0 <= w < top0.len() && (#[trigger] top0[w]).0 == b;
                        assert(row_has(rv.take(j as int), top0[w].0));
                    }
                }
            }
            let mut pos: usize = 0;
            while pos < top.len() && score_le_exec(top[pos].1, sc)
                invariant
                    pos <= top@.len(),
                    top@ == top0,
                    sc == entry.1,
                    forall|w: int| 0 <= w < pos ==> score_le((#[trigger] top@[w]).1, sc),
                decreases top@.len() - pos,
            {
                pos = pos + 1;
            }
            proof {
                if pos < top0.len() {
                    lemma_score_le_total(top0[pos as int].1, sc);
                    assert(score_le(sc, top0[pos as int].1));
                }
            }
            top.insert(pos, (b, sc));
            let ghost topi = top@;
            proof {
                assert(topi == top0.insert(pos as int, (b, sc)));
                assert(forall|w: int| 0 <= w < pos ==> topi[w] == top0[w]);
                assert(topi[pos as int] == (b, sc));
                assert(forall|w: int| pos < w < topi.len() ==> topi[w] == top0[w - 1]);
                assert(row_distinct(topi)) by {
                    assert forall|w1: int, w2: int|
                        0 <= w1 < w2 < topi.len() implies (#[trigger] topi[w1]).0 != (
                    #[trigger] topi[w2]).0 by {
                        if w1 != pos && w2 != pos {
                            let u1: int = if w1 < pos {
                                w1
                            } else {
                                w1 - 1
                            };
                            let u2: int = if w2 < pos {
                                w2
                            } else {
                                w2 - 1
                            };
                            assert(topi[w1] == top0[u1] && topi[w2] == top0[u2]);
                        } else if w1 == pos {
                            assert(topi[w2] == top0[w2 - 1]);
                            assert(row_has(top0, top0[w2 - 1].0)) by {
                                assert(top0[w2 - 1].0 == top0[w2 - 1].0);
                            }
                            assert(topi[w1].0 == b);
                        } else {
                            assert(topi[w1] == top0[w1]);
                            assert(row_has(top0, top0[w1].0));
                            assert(topi[w2].0 == b);
                        }
                    }
                }
                assert forall|w1: int, w2: int|
                    0 <= w1 <= w2 < topi.len() implies score_le(
                        (#[trigger] topi[w1]).1,
                        (#[trigger] topi[w2]).1,
                    ) by {
                    lemma_score_le_total(topi[w1].1, topi[w1].1);
                    if w1 < pos && w2 == pos {
                        assert(score_le(top0[w1].1, sc));
                    } else if w1 == pos && w2 > pos {
                        assert(score_le(sc, top0[pos as int].1));
                        assert(score_le(top0[pos as int].1, top0[w2 - 1].1));
                        lemma_score_le_trans(sc, top0[pos as int].1, top0[w2 - 1].1);
                    } else if w1 < pos && w2 > pos {
                        assert(score_le(top0[w1].1, top0[w2 - 1].1));
                    } else if w1 != pos && w2 != pos {
                        let u1: int = if w1 < pos {
                            w1
                        } else {
                            w1 - 1
                        };
                        let u2: int = if w2 < pos {
                            w2
                        } else {
                            w2 - 1
                        };
                        assert(score_le(top0[u1].1, top0[u2].1));
                    }
                }
            }
            if top.len() > k {
                let dropped = top[0];
                top.remove(0);
                proof {
                    let topn = top@;
                    assert(topn =~= topi.subrange(1, topi.len() as int));
                    assert(forall|w: int| 0 <= w < topn.len() ==> topn[w] == topi[w + 1]);
                    assert(row_distinct(topn));
                    assert(topn.len() == k);
                    assert(j >= k);
                    if k >= 1 {
                    assert forall|q: u32|
                        #[trigger] row_has(rv.take(j + 1), q) && !row_has(topn, q) implies topn.len()
                        > 0 && score_le(self.simval(item, q), topn[0].1) by {
                        assert(topi.len() >= 2);
                        assert(score_le(topi[0].1, topi[1].1));
                        if q == dropped.0 {
                            assert(row_has(topi, q)) by {
                                assert(topi[0].0 == dropped.0);
                            }
                            assert(dropped.1 == self.simval(item, q)) by {
                                if pos == 0 {
                                    assert(topi[0] == (b, sc));
                                } else {
                                    assert(topi[0] == top0[0]);
                                }
                            }
                            assert(score_le(self.simval(item, q), topn[0].1));
                        } else {
                            assert(!row_has(topi, q)) by {
                                if row_has(topi, q) {
                                    let w = choose|w: int|
                                        0 <= w < topi.len() && (#[trigger] topi[w]).0 == q;
                                    assert(w >= 1);
                                    assert(topn[w - 1].0 == q);
                                }
                            }
                            assert(!row_has(top0, q)) by {
                                if row_has(top0, q) {
                                    let w = choose|w: int|
                                        0 <= w < top0.len() && (#[trigger] top0[w]).0 == q;
                                    if w < pos {
                                        assert(topi[w].0 == q);
                                    } else {
                                        assert(topi[w + 1].0 == q);
                                    }
                                }
                            }
                            let qs = self.simval(item, q);
                            if q == b {
                                assert(row_has(topi, b)) by {
                                    assert(topi[pos as int].0 == b);
                                }
                                assert(false);
                            } else {
                                assert(row_has(rv.take(j as int), q)) by {
                                    let w = choose|w: int|
                                        0 <= w < rv.take(j + 1).len() && (#[trigger] rv.take(
                                            j + 1,
                                        )[w]).0 == q;
                                    assert(rv[w].0 == q);
                                    if w == j {
                                        assert(rv[j as int].0 == b);
                                    } else {
                                        assert(rv.take(j as int)[w].0 == q);
                                    }
                                }
                                assert(top0.len() > 0 && score_le(qs, top0[0].1));
                                assert(row_has(topi, top0[0].0)) by {
                                    if pos == 0 {
                                        assert(topi[1] == top0[0]);
                                    } else {
                                        assert(topi[0] == top0[0]);
                                    }
                                }
                                if pos == 0 {
                                    assert(topi[0] == (b, sc));
                                    assert(topi[1] == top0[0]);
                                    assert(topn[0] == top0[0]);
                                    assert(score_le(qs, topn[0].1));
                                } else {
                                    assert(topi[0] == top0[0]);
                                    assert(score_le(topi[0].1, topi[1].1));
                                    lemma_score_le_trans(qs, topi[0].1, topi[1].1);
                                    assert(topn[0] == topi[1]);
                                }
                            }
                        }
                    }
                    }
                    assert forall|w: int|
                        0 <= w < topn.len() implies self.chas(item, (#[trigger] topn[w]).0)
                        && topn[w].1 == self.simval(item, topn[w].0) && row_has(
                        rv.take(j + 1),
                        topn[w].0,
                    ) by {
                        assert(topn[w] == topi[w + 1]);
                        if w + 1 == pos {
                            assert(topi[w + 1] == (b, sc));
                            assert(row_has(rv.take(j + 1), b)) by {
                                assert(rv.take(j + 1)[j as int].0 == b);
                            }
                        } else {
                            let u: int = if w + 1 < pos {
                                w + 1
                            } else {
                                w
                            };
                            assert(topi[w + 1] == top0[u]);
                            assert(row_has(rv.take(j as int), top0[u].0));
                            assert(row_has(rv.take(j + 1), top0[u].0)) by {
                                let ww = choose|ww: int|
                                    0 <= ww < rv.take(j as int).len() && (#[trigger] rv.take(
                                        j as int,
                                    )[ww]).0 == top0[u].0;
                                assert(rv.take(j + 1)[ww].0 == top0[u].0);
                            }
                        }
                    }
                }
            } else {
                proof {
                    let topn = top@;
                    assert(topn == topi);
                    assert(j < k);
                    assert forall|w: int|
                        0 <= w < topn.len() implies self.chas(item, (#[trigger] topn[w]).0)
                        && topn[w].1 == self.simval(item, topn[w].0) && row_has(
                        rv.take(j + 1),
                        topn[w].0,
                    ) by {
                        if w == pos {
                            assert(topi[w] == (b, sc));
                            assert(row_has(rv.take(j + 1), b)) by {
                                assert(rv.take(j + 1)[j as int].0 == b);
                            }
                        } else {
                            let u: int = if w < pos {
                                w
                            } else {
                                w - 1
                            };
                            assert(topi[w] == top0[u]);
                            assert(row_has(rv.take(j as int), top0[u].0));
                            assert(row_has(rv.take(j + 1), top0[u].0)) by {
                                let ww = choose|ww: int|
                                    0 <= ww < rv.take(j as int).len() && (#[trigger] rv.take(
                                        j as int,
                                    )[ww]).0 == top0[u].0;
                                assert(rv.take(j + 1)[ww].0 == top0[u].0);
                            }
                        }
                    }
                    assert(k >= 1);
                    assert forall|q: u32|
                        #[trigger] row_has(rv.take(j + 1), q) && !row_has(topn, q) implies topn.len()
                        > 0 && score_le(self.simval(item, q), topn[0].1) by {
                        assert(!row_has(top0, q)) by {
                            if row_has(top0, q) {
                                let w = choose|w: int|
                                    0 <= w < top0.len() && (#[trigger] top0[w]).0 == q;
                                if w < pos {
                                    assert(topi[w].0 == q);
                                } else {
                                    assert(topi[w + 1].0 == q);
                                }
                            }
                        }
                        assert(q != b) by {
                            assert(topi[pos as int].0 == b);
                        }
                        assert(row_has(rv.take(j as int), q)) by {
                            let w = choose|w: int|
                                0 <= w < rv.take(j + 1).len() && (#[trigger] rv.take(j + 1)[w]).0
                                    == q;
                            assert(rv[w].0 == q);
                            if w == j {
                                assert(rv[j as int].0 == b);
                            } else {
                                assert(rv.take(j as int)[w].0 == q);
                            }
                        }
                        assert(top0.len() > 0 && score_le(self.simval(item, q), top0[0].1));
                        if pos == 0 {
                            assert(topi[0] == (b, sc));
                            assert(topi[1] == top0[0]);
                            lemma_score_le_trans(self.simval(item, q), top0[0].1, top0[0].1);
                            assert(score_le(sc, top0[0].1));
                            lemma_score_le_trans(self.simval(item, q), top0[0].1, topi[1].1);
                            assert(false) by {
                                assert(row_has(rv.take(j as int), q) ==> row_has(top0, q));
                            }
                        } else {
                            assert(topi[0] == top0[0]);
                            assert(score_le(self.simval(item, q), topn[0].1));
                        }
                    }
                    assert(j + 1 <= k ==> forall|q: u32|
                        #[trigger] row_has(rv.take(j + 1), q) <==> row_has(topn, q)) by {
                        if j + 1 <= k {
                            assert forall|q: u32|
                                #[trigger] row_has(rv.take(j + 1), q) <==> row_has(topn, q) by {
                                if row_has(rv.take(j + 1), q) {
                                    let w = choose|w: int|
                                        0 <= w < rv.take(j + 1).len() && (#[trigger] rv.take(
                                            j + 1,
                                        )[w]).0 == q;
                                    if w == j {
                                        assert(rv[j as int].0 == b);
                                        assert(topi[pos as int].0 == b);
                                    } else {
                                        assert(rv.take(j as int)[w].0 == q);
                                        assert(row_has(rv.take(j as int), q));
                                        assert(row_has(top0, q));
                                        let u = choose|u: int|
                                            0 <= u < top0.len() && (#[trigger] top0[u]).0 == q;
                                        if u < pos {
                                            assert(topi[u].0 == q);
                                        } else {
                                            assert(topi[u + 1].0 == q);
                                        }
                                    }
                                }
                                if row_has(topn, q) {
                                    let w = choose|w: int|
                                        0 <= w < topn.len() && (#[trigger] topn[w]).0 == q;
                                    if w == pos {
                                        assert(rv.take(j + 1)[j as int].0 == b);
                                    } else {
                                        let u: int = if w < pos {
                                            w
                                        } else {
                                            w - 1
                                        };
                                        assert(topi[w] == top0[u]);
                                        assert(row_has(rv.take(j as int), top0[u].0));
                                        let ww = choose|ww: int|
                                            0 <= ww < rv.take(j as int).len() && (#[trigger] rv.take(
                                                j as int,
                                            )[ww]).0 == q;
                                        assert(rv.take(j + 1)[ww].0 == q);
                                    }
                                }
                            }
                        }
                    }
                }
            }
            j = j + 1;
        }
        proof {
            assert(rv.take(rlen as int) =~= rv);
        }
        let mut r: Vec<u32> = Vec::new();
        let tlen = top.len();
        let mut w: usize = 0;
        while w < tlen
            invariant
                w <= tlen,
                tlen == top@.len(),
                r@.len() == w,
                forall|i: int| 0 <= i < w ==> (#[trigger] r@[i]) == top@[i].0,
            decreases tlen - w,
        {
            r.push(top[w].0);
            w = w + 1;
        }
        proof {
            assert forall|x: u32| r@.contains(x) <==> #[trigger] row_has(top@, x) by {
                if r@.contains(x) {
                    let i = choose|i: int| 0 <= i < r@.len() && r@[i] == x;
                    assert(top@[i].0 == x);
                }
                if row_has(top@, x) {
                    let i = choose|i: int| 0 <= i < top@.len() && (#[trigger] top@[i]).0 == x;
                    assert(r@[i] == x);
                }
            }
            assert(self.neighbor_count(item) == rlen);
            if rlen <= k {
                assert forall|b: u32| #[trigger] self.chas(item, b) <==> r@.contains(b) by {
                    if self.chas(item, b) {
                        assert(self.shas(item, b));
                        self.lemma_sopt_shas(item, b);
                        assert(row_has(rv, b));
                        assert(row_has(top@, b));
                    }
                    if r@.contains(b) {
                        assert(row_has(top@, b));
                        let i = choose|i: int|
                            0 <= i < top@.len() && (#[trigger] top@[i]).0 == b;
                        assert(self.chas(item, top@[i].0));
                    }
                }
            }
            assert forall|b: u32, i: int|
                #![trigger self.chas(item, b), r@[i]]
                self.chas(item, b) && !r@.contains(b) && 0 <= i < r@.len() implies score_le(
                self.simval(item, b),
                self.simval(item, r@[i]),
            ) by {
                assert(k >= 1);
                assert(self.shas(item, b)) by {
                    self.lemma_sopt_shas(item, b);
                }
                assert(row_has(rv, b));
                assert(!row_has(top@, b));
                assert(score_le(self.simval(item, b), top@[0].1));
                assert(score_le(top@[0].1, top@[i].1));
                lemma_score_le_trans(self.simval(item, b), top@[0].1, top@[i].1);
                assert(top@[i].1 == self.simval(item, top@[i].0));
                assert(r@[i] == top@[i].0);
            }
            assert forall|i1: int, i2: int| 0 <= i1 < i2 < r@.len() implies r@[i1] != r@[i2] by {
                assert(top@[i1].0 != top@[i2].0);
            }
            assert forall|i: int| 0 <= i < r@.len() implies self.chas(item, #[trigger] r@[i]) by {
                assert(self.chas(item, top@[i].0));
            }
        }
        r
    }
}

} // verus!
