//! Count statistics of a multinomial naive-Bayes classifier with exact
//! unlearning.
//!
//! The model keeps, per class label, a sparse row of per-feature counts and
//! the total count of the label. Fitting adds a labeled example's feature
//! counts; forgetting removes exactly the counts a previous fit added,
//! detecting as an error any removal that would drive a count negative. The
//! log-probability scoring that turns these counts into a predicted label is
//! floating-point arithmetic and lives outside the library; the counts it
//! reads are served by the getters.

use vstd::prelude::*;

use crate::itembased::done_occ;
use crate::sparse::{
    lemma_row_index, lemma_row_index_unique, lemma_row_opt_has, lemma_row_opt_index, row_distinct,
    row_get, row_has, row_index, row_opt, row_val,
};
use crate::ModelError;

verus! {

/// The feature counts of one example: pairs of feature index and count.
#[derive(Clone, Debug)]
pub struct MNBFeatures {
    pub features: Vec<(u32, u32)>,
}

impl MNBFeatures {
    /// Package a vector of feature/count pairs.
    pub fn new(features: Vec<(u32, u32)>) -> (f: MNBFeatures)
        ensures
            f.features@ == features@,
    {
        MNBFeatures { features }
    }
}

/// Total count the entry sequence assigns to feature `x`.
pub open spec fn feats_fcount(fs: Seq<(u32, u32)>, x: u32) -> nat
    decreases fs.len(),
{
    if fs.len() == 0 {
        0
    } else {
        feats_fcount(fs.drop_last(), x) + if fs.last().0 == x {
            fs.last().1 as nat
        } else {
            0nat
        }
    }
}

/// Total count of all entries of the sequence.
pub open spec fn feats_total(fs: Seq<(u32, u32)>) -> nat
    decreases fs.len(),
{
    if fs.len() == 0 {
        0
    } else {
        feats_total(fs.drop_last()) + fs.last().1 as nat
    }
}

/// Count that a batch of labeled examples assigns to feature `x` under
/// label `l`.
pub open spec fn batch_fcount(es: Seq<(MNBFeatures, u8)>, l: u8, x: u32) -> nat
    decreases es.len(),
{
    if es.len() == 0 {
        0
    } else {
        batch_fcount(es.drop_last(), l, x) + if es.last().1 == l {
            feats_fcount(es.last().0.features@, x)
        } else {
            0nat
        }
    }
}

/// Total count a batch assigns to label `l`.
pub open spec fn batch_lcount(es: Seq<(MNBFeatures, u8)>, l: u8) -> nat
    decreases es.len(),
{
    if es.len() == 0 {
        0
    } else {
        batch_lcount(es.drop_last(), l) + if es.last().1 == l {
            feats_total(es.last().0.features@)
        } else {
            0nat
        }
    }
}

/// Every label of the batch is a valid label.
pub open spec fn labels_ok(es: Seq<(MNBFeatures, u8)>, num_labels: nat) -> bool {
    forall|i: int| 0 <= i < es.len() ==> ((#[trigger] es[i]).1 as nat) < num_labels
}

pub proof fn lemma_feats_take_step(fs: Seq<(u32, u32)>, j: int, x: u32)
    requires
        0 <= j < fs.len(),
    ensures
        feats_fcount(fs.take(j + 1), x) == feats_fcount(fs.take(j), x) + if fs[j].0 == x {
            fs[j].1 as nat
        } else {
            0nat
        },
        feats_total(fs.take(j + 1)) == feats_total(fs.take(j)) + fs[j].1 as nat,
{
    assert(fs.take(j + 1).drop_last() =~= fs.take(j));
    assert(fs.take(j + 1).last() == fs[j]);
}

pub proof fn lemma_batch_counts_take_step(es: Seq<(MNBFeatures, u8)>, k: int, l: u8, x: u32)
    requires
        0 <= k < es.len(),
    ensures
        batch_fcount(es.take(k + 1), l, x) == batch_fcount(es.take(k), l, x) + if es[k].1 == l {
            feats_fcount(es[k].0.features@, x)
        } else {
            0nat
        },
        batch_lcount(es.take(k + 1), l) == batch_lcount(es.take(k), l) + if es[k].1 == l {
            feats_total(es[k].0.features@)
        } else {
            0nat
        },
{
    assert(es.take(k + 1).drop_last() =~= es.take(k));
    assert(es.take(k + 1).last() == es[k]);
}

pub proof fn lemma_batch_counts_take_le(es: Seq<(MNBFeatures, u8)>, k: int, l: u8, x: u32)
    requires
        0 <= k <= es.len(),
    ensures
        batch_fcount(es.take(k), l, x) <= batch_fcount(es, l, x),
        batch_lcount(es.take(k), l) <= batch_lcount(es, l),
    decreases es.len() - k,
{
    if k == es.len() {
        assert(es.take(k) =~= es);
    } else {
        lemma_batch_counts_take_step(es, k, l, x);
        lemma_batch_counts_take_le(es, k + 1, l, x);
    }
}

/// Aggregate an entry sequence into a row with distinct keys that assigns
/// each feature the sequence's total count for it, together with the grand
/// total. Fails only when a count exceeds `u32::MAX`.
fn aggregate(fs: &Vec<(u32, u32)>) -> (r: Option<(Vec<(u32, u32)>, u64)>)
    ensures
        match r {
            Some(o) => {
                &&& row_distinct(o.0@)
                &&& forall|x: u32| #[trigger] row_val(o.0@, x) == feats_fcount(fs@, x)
                &&& o.1 as nat == feats_total(fs@)
                &&& feats_total(fs@) <= u64::MAX
            },
            None => (exists|x: u32| #[trigger] feats_fcount(fs@, x) > u32::MAX) || feats_total(fs@)
                > u64::MAX,
        },
{
    let mut o: Vec<(u32, u32)> = Vec::new();
    let mut total: u64 = 0;
    let len = fs.len();
    let mut j: usize = 0;
    assert(fs@.take(0) =~= Seq::<(u32, u32)>::empty());
    while j < len
        invariant
            j <= len,
            len == fs@.len(),
            row_distinct(o@),
            forall|x: u32| #[trigger] row_val(o@, x) == feats_fcount(fs@.take(j as int), x),
            total as nat == feats_total(fs@.take(j as int)),
        decreases len - j,
    {
        let (x, c) = fs[j];
        let ghost pre = o@;
        proof {
            lemma_feats_take_step(fs@, j as int, x);
        }
        if c > 0 {
            let ok = crate::sparse::row_add(&mut o, x, c);
            if !ok {
                proof {
                    assert(row_val(pre, x) == feats_fcount(fs@.take(j as int), x));
                    lemma_feats_le(fs@, j + 1, x);
                }
                return None;
            }
        }
        proof {
            assert forall|y: u32| #[trigger] row_val(o@, y) == feats_fcount(
                fs@.take(j + 1),
                y,
            ) by {
                lemma_feats_take_step(fs@, j as int, y);
                if y != x || c == 0 {
                    assert(row_opt(o@, y) == row_opt(pre, y));
                    assert(row_val(pre, y) == feats_fcount(fs@.take(j as int), y));
                }
            }
        }
        let nt = match total.checked_add(c as u64) {
            Some(v) => v,
            None => {
                proof {
                    lemma_feats_total_le(fs@, j + 1);
                }
                return None;
            },
        };
        total = nt;
        j = j + 1;
    }
    proof {
        assert(fs@.take(len as int) =~= fs@);
    }
    Some((o, total))
}

pub proof fn lemma_feats_le(fs: Seq<(u32, u32)>, j: int, x: u32)
    requires
        0 <= j <= fs.len(),
    ensures
        feats_fcount(fs.take(j), x) <= feats_fcount(fs, x),
    decreases fs.len() - j,
{
    if j == fs.len() {
        assert(fs.take(j) =~= fs);
    } else {
        lemma_feats_take_step(fs, j, x);
        lemma_feats_le(fs, j + 1, x);
    }
}

pub proof fn lemma_feats_total_le(fs: Seq<(u32, u32)>, j: int)
    requires
        0 <= j <= fs.len(),
    ensures
        feats_total(fs.take(j)) <= feats_total(fs),
    decreases fs.len() - j,
{
    if j == fs.len() {
        assert(fs.take(j) =~= fs);
    } else {
        lemma_feats_take_step(fs, j, 0);
        lemma_feats_total_le(fs, j + 1);
    }
}

/// Multinomial naive-Bayes count store over `num_labels` classes and
/// `num_features` features.
#[derive(Debug)]
#[verifier::ext_equal]
pub struct MultinomialNaiveBayes {
    num_labels: u8,
    num_features: u32,
    feature_counts_per_label: Vec<Vec<(u32, u32)>>,
    counts_per_label: Vec<u32>,
}

impl MultinomialNaiveBayes {
    /// The configured number of class labels.
    pub closed spec fn labels_spec(self) -> nat {
        self.num_labels as nat
    }

    /// The configured number of features.
    pub closed spec fn features_spec(self) -> nat {
        self.num_features as nat
    }

    /// Count of feature `x` under label `l`; zero out of range.
    pub closed spec fn fcount(self, l: u8, x: u32) -> nat {
        if (l as int) < self.feature_counts_per_label@.len() {
            row_val(self.feature_counts_per_label@[l as int]@, x)
        } else {
            0
        }
    }

    /// Total count of label `l`; zero out of range.
    pub closed spec fn lcount(self, l: u8) -> nat {
        if (l as int) < self.counts_per_label@.len() {
            self.counts_per_label@[l as int] as nat
        } else {
            0
        }
    }

    /// Structural well-formedness.
    pub closed spec fn wf(self) -> bool {
        &&& self.feature_counts_per_label@.len() == self.num_labels as int
        &&& self.counts_per_label@.len() == self.num_labels as int
        &&& forall|l: int|
            0 <= l < self.num_labels as int ==> row_distinct(
                (#[trigger] self.feature_counts_per_label@[l])@,
            )
    }

    /// The counts after fitting `es` stay within `u32`.
    pub open spec fn fits(self, es: Seq<(MNBFeatures, u8)>) -> bool {
        &&& forall|l: u8, x: u32|
            self.fcount(l, x) + #[trigger] batch_fcount(es, l, x) <= u32::MAX
        &&& forall|l: u8| self.lcount(l) + #[trigger] batch_lcount(es, l) <= u32::MAX
    }

    /// The decrements of forgetting `(f, l)` drive no count negative.
    pub open spec fn removable(self, f: MNBFeatures, l: u8) -> bool {
        &&& forall|x: u32| #[trigger] feats_fcount(f.features@, x) <= self.fcount(l, x)
        &&& feats_total(f.features@) <= self.lcount(l)
    }

    /// Create an empty count store.
    pub fn new(num_labels: u8, num_features: u32) -> (m: MultinomialNaiveBayes)
        ensures
            m.wf(),
            m.labels_spec() == num_labels,
            m.features_spec() == num_features,
            forall|l: u8, x: u32| #[trigger] m.fcount(l, x) == 0,
            forall|l: u8| #[trigger] m.lcount(l) == 0,
    {
        let mut feature_counts_per_label: Vec<Vec<(u32, u32)>> = Vec::new();
        let mut counts_per_label: Vec<u32> = Vec::new();
        let mut i: usize = 0;
        let n = num_labels as usize;
        while i < n
            invariant
                i <= n,
                feature_counts_per_label@.len() == i,
                counts_per_label@.len() == i,
                forall|l: int|
                    0 <= l < i ==> (#[trigger] feature_counts_per_label@[l])@.len() == 0,
                forall|l: int| 0 <= l < i ==> (#[trigger] counts_per_label@[l]) == 0,
            decreases n - i,
        {
            feature_counts_per_label.push(Vec::new());
            counts_per_label.push(0);
            i = i + 1;
        }
        MultinomialNaiveBayes { num_labels, num_features, feature_counts_per_label, counts_per_label }
    }

    /// Count of feature `feature` under label `label`.
    pub fn feature_count(&self, label: u8, feature: u32) -> (v: u32)
        requires
            self.wf(),
        ensures
            v as nat == self.fcount(label, feature),
    {
        if (label as usize) < self.feature_counts_per_label.len() {
            row_get(&self.feature_counts_per_label[label as usize], feature)
        } else {
            0
        }
    }

    /// Total count of label `label`.
    pub fn label_count(&self, label: u8) -> (v: u32)
        ensures
            v as nat == self.lcount(label),
    {
        if (label as usize) < self.counts_per_label.len() {
            self.counts_per_label[label as usize]
        } else {
            0
        }
    }

    /// The configured number of class labels.
    pub fn labels(&self) -> (v: u8)
        ensures
            v as nat == self.labels_spec(),
    {
        self.num_labels
    }

    /// The configured number of features.
    pub fn features(&self) -> (v: u32)
        ensures
            v as nat == self.features_spec(),
    {
        self.num_features
    }

    /// Add the counts of every labeled example of `data`. Labels are checked
    /// before any mutation; a count leaving its representation is reported,
    /// possibly after part of the batch was applied, and exactly when the
    /// accumulated counts would not fit.
    pub fn partial_fit(&mut self, data: &[(MNBFeatures, u8)]) -> (r: Result<(), ModelError>)
        requires
            old(self).wf(),
        ensures
            final(self).wf(),
            final(self).labels_spec() == old(self).labels_spec(),
            final(self).features_spec() == old(self).features_spec(),
            match r {
                Ok(()) => {
                    &&& labels_ok(data@, old(self).labels_spec())
                    &&& old(self).fits(data@)
                    &&& forall|l: u8, x: u32|
                        #[trigger] final(self).fcount(l, x) == old(self).fcount(l, x)
                            + batch_fcount(data@, l, x)
                    &&& forall|l: u8|
                        #[trigger] final(self).lcount(l) == old(self).lcount(l) + batch_lcount(
                            data@,
                            l,
                        )
                },
                Err(ModelError::DimensionMismatch) => {
                    &&& !labels_ok(data@, old(self).labels_spec())
                    &&& *final(self) == *old(self)
                },
                Err(ModelError::CapacityExceeded) => {
                    &&& labels_ok(data@, old(self).labels_spec())
                    &&& !old(self).fits(data@)
                },
                Err(_) => false,
            },
    {
        let dlen = data.len();
        let nl = self.num_labels;
        let mut w: usize = 0;
        while w < dlen
            invariant
                w <= dlen,
                dlen == data@.len(),
                nl == self.num_labels,
                *self == *old(self),
                old(self).wf(),
                forall|i: int| 0 <= i < w ==> ((#[trigger] data@[i]).1 as nat) < self.labels_spec(),
            decreases dlen - w,
        {
            if data[w].1 >= nl {
                proof {
                    assert(((data@[w as int]).1 as nat) >= self.labels_spec());
                    assert(!labels_ok(data@, self.labels_spec()));
                }
                return Err(ModelError::DimensionMismatch);
            }
            w = w + 1;
        }
        let ghost pre = *self;
        proof {
            assert(data@.take(0) =~= Seq::<(MNBFeatures, u8)>::empty());
        }
        let mut k: usize = 0;
        while k < dlen
            invariant
                k <= dlen,
                dlen == data@.len(),
                pre == *old(self),
                pre.wf(),
                labels_ok(data@, pre.labels_spec()),
                self.wf(),
                self.num_labels == pre.num_labels,
                self.num_features == pre.num_features,
                forall|l: u8, x: u32|
                    #[trigger] self.fcount(l, x) == pre.fcount(l, x) + batch_fcount(
                        data@.take(k as int),
                        l,
                        x,
                    ),
                forall|l: u8|
                    #[trigger] self.lcount(l) == pre.lcount(l) + batch_lcount(
                        data@.take(k as int),
                        l,
                    ),
            decreases dlen - k,
        {
            let ghost st0 = *self;
            let label = data[k].1;
            let ghost fv = data@[k as int].0.features@;
            let agg = match aggregate(&data[k].0.features) {
                Some(a) => a,
                None => {
                    proof {
                        if exists|x: u32| #[trigger] feats_fcount(fv, x) > u32::MAX {
                            let x = choose|x: u32| #[trigger] feats_fcount(fv, x) > u32::MAX;
                            lemma_batch_counts_take_step(data@, k as int, label, x);
                            lemma_batch_counts_take_le(data@, k + 1, label, x);
                            assert(pre.fcount(label, x) + batch_fcount(data@, label, x)
                                > u32::MAX);
                        } else {
                            lemma_batch_counts_take_step(data@, k as int, label, 0);
                            lemma_batch_counts_take_le(data@, k + 1, label, 0);
                            assert(pre.lcount(label) + batch_lcount(data@, label) > u32::MAX);
                        }
                        assert(!pre.fits(data@));
                    }
                    return Err(ModelError::CapacityExceeded);
                },
            };
            let (o, total) = agg;
            let olen = o.len();
            let mut jj: usize = 0;
            while jj < olen
                invariant
                    jj <= olen,
                    olen == o@.len(),
                    k < dlen,
                    dlen == data@.len(),
                    label == data@[k as int].1,
                    (label as int) < self.feature_counts_per_label@.len(),
                    fv == data@[k as int].0.features@,
                    pre == *old(self),
                    pre.wf(),
                    labels_ok(data@, pre.labels_spec()),
                    row_distinct(o@),
                    forall|x: u32| #[trigger] row_val(o@, x) == feats_fcount(fv, x),
                    self.wf(),
                    self.num_labels == pre.num_labels,
                    self.num_features == pre.num_features,
                    self.counts_per_label@ == st0.counts_per_label@,
                    forall|l: u8, x: u32|
                        #[trigger] st0.fcount(l, x) == pre.fcount(l, x) + batch_fcount(
                            data@.take(k as int),
                            l,
                            x,
                        ),
                    forall|l: u8|
                        #[trigger] st0.lcount(l) == pre.lcount(l) + batch_lcount(
                            data@.take(k as int),
                            l,
                        ),
                    forall|l: u8, x: u32|
                        #[trigger] self.fcount(l, x) == st0.fcount(l, x) + if l == label {
                            done_occ(o@, jj as int, x)
                        } else {
                            0
                        },
                decreases olen - jj,
            {
                let ghost stj = *self;
                let (x, c) = o[jj];
                proof {
                    lemma_row_index_unique(o@, jj as int);
                    lemma_row_opt_index(o@, jj as int);
                    assert(done_occ(o@, jj as int, x) == 0);
                    assert(self.fcount(label, x) == st0.fcount(label, x));
                    assert(row_val(o@, x) == feats_fcount(fv, x));
                }
                let row = &mut self.feature_counts_per_label[label as usize];
                let ghost row_pre = row@;
                let ok;
                if c > 0 {
                    ok = crate::sparse::row_add(row, x, c);
                } else {
                    ok = true;
                }
                if !ok {
                    proof {
                        lemma_batch_counts_take_step(data@, k as int, label, x);
                        lemma_batch_counts_take_le(data@, k + 1, label, x);
                        assert(row_val(row_pre, x) + c > u32::MAX);
                        assert(pre.fcount(label, x) + batch_fcount(data@, label, x) > u32::MAX);
                        assert(!pre.fits(data@));
                        assert(self.wf()) by {
                            assert(self.feature_counts_per_label@ =~= stj.feature_counts_per_label@);
                        }
                    }
                    return Err(ModelError::CapacityExceeded);
                }
                proof {
                    assert(self.feature_counts_per_label@ == stj.feature_counts_per_label@.update(
                        label as int,
                        self.feature_counts_per_label@[label as int],
                    ));
                    assert forall|l: u8, y: u32|
                        #[trigger] self.fcount(l, y) == st0.fcount(l, y) + (if l == label {
                        done_occ(o@, jj + 1, y)
                    } else {
                        0
                    }) by {
                        assert(stj.fcount(l, y) == st0.fcount(l, y) + if l == label {
                            done_occ(o@, jj as int, y)
                        } else {
                            0
                        });
                        if row_has(o@, y) {
                            lemma_row_index(o@, y);
                            if o@[row_index(o@, y)].0 != x {
                                assert(row_index(o@, y) != jj);
                            }
                        }
                        if l != label {
                            if (l as int) < self.feature_counts_per_label@.len() {
                                assert(self.feature_counts_per_label@[l as int]
                                    == stj.feature_counts_per_label@[l as int]);
                            }
                        } else if y == x && c > 0 {
                            assert(row_index(o@, x) == jj);
                            assert(done_occ(o@, jj + 1, x) == row_val(o@, x));
                            assert(row_val(o@, x) == c as nat);
                        } else {
                            assert(done_occ(o@, jj + 1, y) == done_occ(o@, jj as int, y)) by {
                                if y == x {
                                    assert(row_index(o@, x) == jj);
                                    assert(row_val(o@, x) == c as nat);
                                    assert(c == 0);
                                    assert(done_occ(o@, jj as int, y) == 0);
                                    assert(done_occ(o@, jj + 1, y) == row_val(o@, y));
                                }
                            }
                            if c > 0 {
                                assert(row_opt(
                                    self.feature_counts_per_label@[label as int]@,
                                    y,
                                ) == row_opt(row_pre, y));
                            }
                        }
                    }
                    assert(self.wf());
                }
                jj = jj + 1;
            }
            let cur = self.counts_per_label[label as usize];
            let next128 = (cur as u128) + (total as u128);
            if next128 > u32::MAX as u128 {
                proof {
                    lemma_batch_counts_take_step(data@, k as int, label, 0);
                    lemma_batch_counts_take_le(data@, k + 1, label, 0);
                    assert(self.lcount(label) == st0.lcount(label));
                    assert(pre.lcount(label) + batch_lcount(data@, label) > u32::MAX);
                    assert(!pre.fits(data@));
                }
                return Err(ModelError::CapacityExceeded);
            }
            let ghost stc = *self;
            self.counts_per_label[label as usize] = next128 as u32;
            proof {
                assert(self.counts_per_label@ == stc.counts_per_label@.update(
                    label as int,
                    next128 as u32,
                ));
                assert forall|l: u8, x: u32|
                    #[trigger] self.fcount(l, x) == pre.fcount(l, x) + batch_fcount(
                        data@.take(k + 1),
                        l,
                        x,
                    ) by {
                    lemma_batch_counts_take_step(data@, k as int, l, x);
                    assert(self.fcount(l, x) == stc.fcount(l, x));
                    assert(stc.fcount(l, x) == st0.fcount(l, x) + if l == label {
                        done_occ(o@, olen as int, x)
                    } else {
                        0
                    });
                    assert(done_occ(o@, o@.len() as int, x) == if row_has(o@, x) {
                        row_val(o@, x)
                    } else {
                        0
                    }) by {
                        if row_has(o@, x) {
                            lemma_row_index(o@, x);
                        }
                    }
                    if !row_has(o@, x) {
                        lemma_row_opt_has(o@, x);
                        assert(row_val(o@, x) == 0);
                    }
                    assert(row_val(o@, x) == feats_fcount(fv, x));
                }
                assert forall|l: u8|
                    #[trigger] self.lcount(l) == pre.lcount(l) + batch_lcount(
                        data@.take(k + 1),
                        l,
                    ) by {
                    lemma_batch_counts_take_step(data@, k as int, l, 0);
                    if l == label {
                        assert(next128 <= u32::MAX as u128);
                        assert(self.lcount(label) == next128 as nat);
                        assert(next128 as nat == cur + total);
                        assert(stc.lcount(label) == st0.lcount(label));
                        assert(cur as nat == st0.lcount(label));
                        assert(total as nat == feats_total(fv));
                        assert(st0.lcount(label) == pre.lcount(label) + batch_lcount(
                            data@.take(k as int),
                            label,
                        ));
                        assert(self.lcount(label) == cur + total);
                    } else {
                        if (l as int) < self.counts_per_label@.len() {
                            assert(self.counts_per_label@[l as int] == stc.counts_per_label@[l
                                as int]);
                        }
                        assert(stc.lcount(l) == st0.lcount(l));
                    }
                }
                assert(self.wf());
            }
            k = k + 1;
        }
        proof {
            assert(data@.take(dlen as int) =~= data@);
            assert forall|l: u8, x: u32|
                pre.fcount(l, x) + #[trigger] batch_fcount(data@, l, x) <= u32::MAX by {
                assert(self.fcount(l, x) == pre.fcount(l, x) + batch_fcount(data@, l, x));
            }
            assert forall|l: u8| pre.lcount(l) + #[trigger] batch_lcount(data@, l) <= u32::MAX by {
                assert(self.lcount(l) == pre.lcount(l) + batch_lcount(data@, l));
            }
            assert(pre.fits(data@));
        }
        Ok(())
    }

    /// Remove the counts previously added for one labeled example. The label
    /// and every decrement are checked before any mutation: a removal that
    /// would drive a count negative is rejected as a unit that was never
    /// fitted.
    pub fn forget(&mut self, data: &(MNBFeatures, u8)) -> (r: Result<(), ModelError>)
        requires
            old(self).wf(),
        ensures
            final(self).wf(),
            final(self).labels_spec() == old(self).labels_spec(),
            final(self).features_spec() == old(self).features_spec(),
            match r {
                Ok(()) => {
                    &&& (data.1 as nat) < old(self).labels_spec()
                    &&& old(self).removable(data.0, data.1)
                    &&& forall|l: u8, x: u32|
                        #[trigger] final(self).fcount(l, x) == old(self).fcount(l, x) - (if l
                            == data.1 {
                            feats_fcount(data.0.features@, x)
                        } else {
                            0nat
                        })
                    &&& forall|l: u8|
                        #[trigger] final(self).lcount(l) == old(self).lcount(l) - (if l == data.1 {
                            feats_total(data.0.features@)
                        } else {
                            0nat
                        })
                },
                Err(ModelError::DimensionMismatch) => {
                    &&& (data.1 as nat) >= old(self).labels_spec()
                    &&& *final(self) == *old(self)
                },
                Err(ModelError::UnitNotFit) => {
                    &&& (data.1 as nat) < old(self).labels_spec()
                    &&& !old(self).removable(data.0, data.1)
                    &&& *final(self) == *old(self)
                },
                Err(_) => false,
            },
    {
        let label = data.1;
        if label >= self.num_labels {
            return Err(ModelError::DimensionMismatch);
        }
        let ghost pre = *self;
        let ghost fv = data.0.features@;
        let agg = match aggregate(&data.0.features) {
            Some(a) => a,
            None => {
                proof {
                    if exists|x: u32| #[trigger] feats_fcount(fv, x) > u32::MAX {
                        let x = choose|x: u32| #[trigger] feats_fcount(fv, x) > u32::MAX;
                        assert(pre.fcount(label, x) <= u32::MAX);
                        assert(!pre.removable(data.0, label));
                    } else {
                        assert(pre.lcount(label) <= u32::MAX);
                        assert(!pre.removable(data.0, label));
                    }
                }
                return Err(ModelError::UnitNotFit);
            },
        };
        let (o, total) = agg;
        let olen = o.len();
        // Validation pass: no decrement may go negative.
        let mut jj: usize = 0;
        while jj < olen
            invariant
                jj <= olen,
                olen == o@.len(),
                label == data.1,
                (label as nat) < pre.labels_spec(),
                pre == *old(self),
                pre.wf(),
                *self == *old(self),
                row_distinct(o@),
                forall|x: u32| #[trigger] row_val(o@, x) == feats_fcount(fv, x),
                fv == data.0.features@,
                forall|j: int|
                    0 <= j < jj ==> ((#[trigger] o@[j]).1 as nat) <= pre.fcount(label, o@[j].0),
            decreases olen - jj,
        {
            let (x, c) = o[jj];
            let cur = row_get(&self.feature_counts_per_label[label as usize], x);
            if c > cur {
                proof {
                    lemma_row_opt_index(o@, jj as int);
                    assert(row_val(o@, x) == feats_fcount(fv, x));
                    assert(feats_fcount(fv, x) > pre.fcount(label, x));
                    assert(!pre.removable(data.0, label));
                }
                return Err(ModelError::UnitNotFit);
            }
            proof {
                lemma_row_opt_index(o@, jj as int);
            }
            jj = jj + 1;
        }
        let cur_total = self.counts_per_label[label as usize];
        if total > cur_total as u64 {
            proof {
                assert(feats_total(fv) > pre.lcount(label));
                assert(!pre.removable(data.0, label));
            }
            return Err(ModelError::UnitNotFit);
        }
        proof {
            assert(pre.removable(data.0, label)) by {
                assert forall|x: u32|
                    #[trigger] feats_fcount(fv, x) <= pre.fcount(label, x) by {
                    if row_has(o@, x) {
                        lemma_row_index(o@, x);
                        let w = row_index(o@, x);
                        lemma_row_opt_index(o@, w);
                        assert(row_val(o@, x) == feats_fcount(fv, x));
                    } else {
                        lemma_row_opt_has(o@, x);
                        assert(row_val(o@, x) == feats_fcount(fv, x));
                    }
                }
            }
        }
        // Apply the decrements.
        let mut jj: usize = 0;
        while jj < olen
            invariant
                jj <= olen,
                olen == o@.len(),
                label == data.1,
                (label as nat) < pre.labels_spec(),
                pre == *old(self),
                pre.wf(),
                pre.removable(data.0, label),
                row_distinct(o@),
                forall|x: u32| #[trigger] row_val(o@, x) == feats_fcount(fv, x),
                fv == data.0.features@,
                self.wf(),
                self.num_labels == pre.num_labels,
                self.num_features == pre.num_features,
                self.counts_per_label@ == pre.counts_per_label@,
                forall|l: u8, x: u32|
                    #[trigger] self.fcount(l, x) == pre.fcount(l, x) - (if l == label {
                        done_occ(o@, jj as int, x)
                    } else {
                        0nat
                    }),
            decreases olen - jj,
        {
            let ghost stj = *self;
            let (x, c) = o[jj];
            proof {
                lemma_row_index_unique(o@, jj as int);
                lemma_row_opt_index(o@, jj as int);
                assert(done_occ(o@, jj as int, x) == 0);
                assert(self.fcount(label, x) == pre.fcount(label, x));
                assert(row_val(o@, x) == feats_fcount(fv, x));
                assert(feats_fcount(fv, x) <= pre.fcount(label, x));
            }
            if c > 0 {
                let row = &mut self.feature_counts_per_label[label as usize];
                let ghost row_pre = row@;
                proof {
                    assert(row_val(row_pre, x) >= c);
                    lemma_row_opt_has(row_pre, x);
                }
                crate::sparse::row_sub(row, x, c);
            }
            proof {
                assert forall|l: u8, y: u32|
                    #[trigger] self.fcount(l, y) == pre.fcount(l, y) - (if l == label {
                    done_occ(o@, jj + 1, y)
                } else {
                    0nat
                }) by {
                    assert(stj.fcount(l, y) == pre.fcount(l, y) - (if l == label {
                        done_occ(o@, jj as int, y)
                    } else {
                        0nat
                    }));
                    if row_has(o@, y) {
                        lemma_row_index(o@, y);
                        if o@[row_index(o@, y)].0 != x {
                            assert(row_index(o@, y) != jj);
                        }
                    }
                    if l != label {
                        if (l as int) < self.feature_counts_per_label@.len() {
                            assert(self.feature_counts_per_label@[l as int]
                                == stj.feature_counts_per_label@[l as int]);
                        }
                    } else if y == x && c > 0 {
                        assert(row_index(o@, x) == jj);
                        assert(done_occ(o@, jj + 1, x) == row_val(o@, x));
                        assert(row_val(o@, x) == c as nat);
                    } else {
                        assert(done_occ(o@, jj + 1, y) == done_occ(o@, jj as int, y)) by {
                            if y == x {
                                assert(row_index(o@, x) == jj);
                                assert(row_val(o@, x) == c as nat);
                                assert(c == 0);
                                assert(done_occ(o@, jj as int, y) == 0);
                                assert(done_occ(o@, jj + 1, y) == row_val(o@, y));
                            }
                        }
                        if c > 0 {
                            assert(row_opt(self.feature_counts_per_label@[label as int]@, y)
                                == row_opt(stj.feature_counts_per_label@[label as int]@, y));
                        }
                    }
                }
                assert(self.wf());
            }
            jj = jj + 1;
        }
        let ghost stc = *self;
        self.counts_per_label[label as usize] = cur_total - (total as u32);
        proof {
            assert(total <= u32::MAX);
            assert(total as u32 as nat == feats_total(fv));
            assert(self.counts_per_label@ == stc.counts_per_label@.update(
                label as int,
                (cur_total - total as u32) as u32,
            ));
            assert forall|l: u8, x: u32|
                #[trigger] self.fcount(l, x) == pre.fcount(l, x) - (if l == label {
                feats_fcount(fv, x)
            } else {
                0nat
            }) by {
                assert(self.fcount(l, x) == stc.fcount(l, x));
                assert(stc.fcount(l, x) == pre.fcount(l, x) - (if l == label {
                    done_occ(o@, olen as int, x)
                } else {
                    0nat
                }));
                if l == label {
                    assert(done_occ(o@, o@.len() as int, x) == (if row_has(o@, x) {
                        row_val(o@, x)
                    } else {
                        0nat
                    })) by {
                        if row_has(o@, x) {
                            lemma_row_index(o@, x);
                        }
                    }
                    if !row_has(o@, x) {
                        lemma_row_opt_has(o@, x);
                        assert(row_val(o@, x) == 0);
                    }
                    assert(row_val(o@, x) == feats_fcount(fv, x));
                }
            }
            assert forall|l: u8|
                #[trigger] self.lcount(l) == pre.lcount(l) - (if l == label {
                feats_total(fv)
            } else {
                0nat
            }) by {
                if l == label {
                    assert(self.lcount(label) == cur_total - total as u32);
                    assert(cur_total as nat == pre.lcount(label));
                } else {
                    if (l as int) < self.counts_per_label@.len() {
                        assert(self.counts_per_label@[l as int] == stc.counts_per_label@[l
                            as int]);
                    }
                    assert(stc.lcount(l) == pre.lcount(l));
                }
            }
            assert(self.wf());
        }
        Ok(())
    }
}

} // verus!
