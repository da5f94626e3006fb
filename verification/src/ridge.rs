//! Ridge regression over exact integer features with exact unlearning.
//!
//! The engine keeps the Gram matrix `XᵗX` and the target-weighted feature
//! sum `z = Σ yᵢ·xᵢ` as exact integer sums over the currently fitted
//! examples, so that removing an example's contribution restores exactly the
//! statistics of a model that never saw it. Features and targets are
//! fixed-point integers chosen by the caller.
//!
//! The weight vector solving the normal equations `(XᵗX)·w = z` is the
//! sign-normalized Cramer solution: exact cofactor-expansion determinants
//! over the statistics, re-checked against the equations before being
//! reported. Its presence and value are a pure function of the statistics
//! (`resolved`), so unlearning provably restores not only the statistics but
//! the weight vector itself. The equations are solved unpenalized: a
//! regularization strength would enter as a `λ·I` term added to the Gram
//! matrix before solving, and no caller of this engine supplies one.

use vstd::prelude::*;

use crate::ModelError;

verus! {

/// A regression example: a feature vector of fixed dimensionality and a
/// target, both as fixed-point integers.
#[derive(Clone, Debug)]
pub struct Example {
    pub features: Vec<i64>,
    pub target: i64,
}

impl Example {
    /// Package a feature vector and its target.
    pub fn new(features: Vec<i64>, target: i64) -> (e: Example)
        ensures
            e.features@ == features@,
            e.target == target,
    {
        Example { features, target }
    }
}

/// An exact rational number with a positive denominator.
#[derive(Clone, Copy, Debug, PartialEq, Eq, Structural)]
pub struct Frac {
    pub num: i128,
    pub den: i128,
}

/// An exact rational weight vector: component `i` has the value
/// `nums[i] / den`.
#[derive(Clone, Debug)]
pub struct Weights {
    pub nums: Vec<i128>,
    pub den: i128,
}

/// Contribution of one example to the Gram matrix entry `(i, j)`.
pub open spec fn ex_gram(e: Example, i: int, j: int) -> int {
    e.features@[i] * e.features@[j]
}

/// Contribution of one example to component `i` of the target sum.
pub open spec fn ex_zv(e: Example, i: int) -> int {
    e.target * e.features@[i]
}

/// Gram matrix entry `(i, j)` accumulated over a batch of examples.
pub open spec fn batch_gram(es: Seq<Example>, i: int, j: int) -> int
    decreases es.len(),
{
    if es.len() == 0 {
        0
    } else {
        batch_gram(es.drop_last(), i, j) + ex_gram(es.last(), i, j)
    }
}

/// Component `i` of the target sum accumulated over a batch of examples.
pub open spec fn batch_zv(es: Seq<Example>, i: int) -> int
    decreases es.len(),
{
    if es.len() == 0 {
        0
    } else {
        batch_zv(es.drop_last(), i) + ex_zv(es.last(), i)
    }
}

/// Every example of the batch has the configured number of features.
pub open spec fn dims_ok(es: Seq<Example>, p: nat) -> bool {
    forall|i: int| 0 <= i < es.len() ==> (#[trigger] es[i]).features@.len() == p
}

/// A value representable as an `i128`.
pub open spec fn in_i128(v: int) -> bool {
    i128::MIN <= v <= i128::MAX
}

/// Exact dot product of a matrix row and a weight numerator vector over the
/// first `k` components.
pub open spec fn dot_prefix(row: Seq<i128>, w: Seq<i128>, k: int) -> int
    decreases k,
{
    if k <= 0 {
        0
    } else {
        dot_prefix(row, w, k - 1) + row[k - 1] * w[k - 1]
    }
}

/// Exact dot product of an integer query vector and a weight numerator
/// vector over the first `k` components.
pub open spec fn dot_query_prefix(x: Seq<i64>, w: Seq<i128>, k: int) -> int
    decreases k,
{
    if k <= 0 {
        0
    } else {
        dot_query_prefix(x, w, k - 1) + x[k - 1] * w[k - 1]
    }
}

pub proof fn lemma_batch_gram_take_step(es: Seq<Example>, k: int, i: int, j: int)
    requires
        0 <= k < es.len(),
    ensures
        batch_gram(es.take(k + 1), i, j) == batch_gram(es.take(k), i, j) + ex_gram(es[k], i, j),
        batch_zv(es.take(k + 1), i) == batch_zv(es.take(k), i) + ex_zv(es[k], i),
{
    assert(es.take(k + 1).drop_last() =~= es.take(k));
    assert(es.take(k + 1).last() == es[k]);
}

/// The mathematical-integer view of a stored matrix.
pub open spec fn view_m(m: Seq<Vec<i128>>) -> Seq<Seq<int>> {
    m.map_values(|row: Vec<i128>| row@.map_values(|v: i128| v as int))
}

/// The mathematical-integer view of a stored vector.
pub open spec fn view_v(z: Seq<i128>) -> Seq<int> {
    z.map_values(|v: i128| v as int)
}

/// Sign of the cofactor of column `j` in a first-row expansion.
pub open spec fn cof_sign(j: int) -> int {
    if j % 2 == 0 {
        1
    } else {
        -1
    }
}

/// The minor of a matrix: the matrix without its first row and without
/// column `col`.
pub open spec fn minor_m(m: Seq<Seq<int>>, col: int) -> Seq<Seq<int>> {
    Seq::new((m.len() - 1) as nat, |i: int| m[i + 1].remove(col))
}

/// Determinant of a square matrix, by cofactor expansion along the first
/// row; the empty matrix has determinant 1.
pub open spec fn spec_det(m: Seq<Seq<int>>) -> int
    decreases m.len(), m.len() + 1,
{
    if m.len() == 0 {
        1
    } else {
        det_sum(m, m.len() as int)
    }
}

/// The sum of the first `j` cofactor terms of the expansion.
pub open spec fn det_sum(m: Seq<Seq<int>>, j: int) -> int
    decreases m.len(), j,
{
    if j <= 0 || m.len() == 0 {
        0
    } else {
        det_sum(m, j - 1) + cof_sign(j - 1) * (m[0][j - 1] * spec_det(minor_m(m, j - 1)))
    }
}

/// Every intermediate value of the cofactor expansion is representable as
/// an `i128`: this is exactly the condition under which the exact
/// determinant can be computed.
pub open spec fn det_fits(m: Seq<Seq<int>>) -> bool
    decreases m.len(), m.len() + 1,
{
    m.len() == 0 || det_sum_fits(m, m.len() as int)
}

/// The first `j` cofactor terms and their partial sums are representable.
pub open spec fn det_sum_fits(m: Seq<Seq<int>>, j: int) -> bool
    decreases m.len(), j,
{
    if j <= 0 || m.len() == 0 {
        true
    } else {
        &&& det_sum_fits(m, j - 1)
        &&& det_fits(minor_m(m, j - 1))
        &&& in_i128(spec_det(minor_m(m, j - 1)))
        &&& in_i128(m[0][j - 1] * spec_det(minor_m(m, j - 1)))
        &&& in_i128(cof_sign(j - 1) * (m[0][j - 1] * spec_det(minor_m(m, j - 1))))
        &&& in_i128(det_sum(m, j))
    }
}

/// Representability of a longer prefix of the expansion carries over to
/// every shorter one.
pub proof fn lemma_det_sum_fits_prefix(m: Seq<Seq<int>>, j1: int, j2: int)
    requires
        0 <= j1 <= j2,
        det_sum_fits(m, j2),
    ensures
        det_sum_fits(m, j1),
    decreases j2 - j1,
{
    if j1 < j2 {
        lemma_det_sum_fits_prefix(m, j1, j2 - 1);
    }
}

/// The matrix with column `col` replaced by the vector `z`.
pub open spec fn col_replaced(g: Seq<Seq<int>>, z: Seq<int>, col: int) -> Seq<Seq<int>> {
    Seq::new(g.len(), |i: int| g[i].update(col, z[i]))
}

/// Exact dot product over mathematical integers, over the first `k`
/// components.
pub open spec fn dot_int_prefix(row: Seq<int>, w: Seq<int>, k: int) -> int
    decreases k,
{
    if k <= 0 {
        0
    } else {
        dot_int_prefix(row, w, k - 1) + row[k - 1] * w[k - 1]
    }
}

/// The sign-normalized common denominator of the Cramer solution: the
/// absolute value of the Gram determinant.
pub open spec fn cramer_den(g: Seq<Seq<int>>) -> int {
    if spec_det(g) >= 0 {
        spec_det(g)
    } else {
        -spec_det(g)
    }
}

/// The sign-normalized numerator of component `j` of the Cramer solution.
pub open spec fn cramer_num(g: Seq<Seq<int>>, z: Seq<int>, j: int) -> int {
    if spec_det(g) >= 0 {
        spec_det(col_replaced(g, z, j))
    } else {
        -spec_det(col_replaced(g, z, j))
    }
}

/// All numerators of the Cramer solution.
pub open spec fn cramer_nums(g: Seq<Seq<int>>, z: Seq<int>) -> Seq<int> {
    Seq::new(g.len(), |j: int| cramer_num(g, z, j))
}

/// The statistics determine a weight vector: the Gram determinant is
/// nonzero, every value of the exact determinant computations and of the
/// re-check against the normal equations is representable, and the Cramer
/// candidate passes that re-check. The last conjunct restates Cramer's rule
/// for the candidate; the solver validates it against the statistics at run
/// time instead of relying on it.
pub open spec fn solver_ok(g: Seq<Seq<int>>, z: Seq<int>) -> bool {
    &&& spec_det(g) != 0
    &&& det_fits(g)
    &&& in_i128(cramer_den(g))
    &&& forall|j: int| 0 <= j < g.len() ==> det_fits(#[trigger] col_replaced(g, z, j))
    &&& forall|j: int| 0 <= j < g.len() ==> in_i128(#[trigger] cramer_num(g, z, j))
    &&& forall|i: int, k: int|
        0 <= i < g.len() && 0 <= k < g.len() ==> in_i128(
            (#[trigger] g[i][k]) * cramer_num(g, z, k),
        )
    &&& forall|i: int, k: int|
        0 <= i < g.len() && 0 <= k <= g.len() ==> in_i128(
            #[trigger] dot_int_prefix(g[i], cramer_nums(g, z), k),
        )
    &&& forall|i: int| 0 <= i < g.len() ==> in_i128((#[trigger] z[i]) * cramer_den(g))
    &&& forall|i: int|
        0 <= i < g.len() ==> #[trigger] dot_int_prefix(g[i], cramer_nums(g, z), g.len() as int)
            == z[i] * cramer_den(g)
}

/// The weight vector `nums / den` satisfies the normal equations of the
/// statistics `(gram, z)`: for every row, `gram[i]·nums == z[i]·den`.
pub open spec fn solves(gram: Seq<Vec<i128>>, z: Seq<i128>, nums: Seq<i128>, den: i128) -> bool {
    &&& den >= 1
    &&& nums.len() == gram.len()
    &&& forall|i: int|
        0 <= i < gram.len() ==> #[trigger] dot_prefix(gram[i]@, nums, nums.len() as int) == z[i]
            * den
}

/// The rows of the integer view of a square stored matrix.
pub proof fn lemma_view_m_shape(m: Seq<Vec<i128>>)
    ensures
        view_m(m).len() == m.len(),
        forall|i: int| 0 <= i < m.len() ==> (#[trigger] view_m(m)[i]).len() == m[i]@.len(),
        forall|i: int, k: int|
            0 <= i < m.len() && 0 <= k < m[i]@.len() ==> (#[trigger] view_m(m)[i][k]) == m[i]@[k]
                as int,
{
}

/// Build the minor of a square matrix: drop the first row and column `col`.
fn build_minor(m: &Vec<Vec<i128>>, col: usize) -> (r: Vec<Vec<i128>>)
    requires
        m@.len() >= 1,
        forall|i: int| 0 <= i < m@.len() ==> (#[trigger] m@[i])@.len() == m@.len(),
        col < m@.len(),
    ensures
        r@.len() == m@.len() - 1,
        forall|i: int| 0 <= i < r@.len() ==> (#[trigger] r@[i])@.len() == m@.len() - 1,
        view_m(r@) == minor_m(view_m(m@), col as int),
{
    let p = m.len();
    let mut r: Vec<Vec<i128>> = Vec::new();
    let mut i: usize = 1;
    while i < p
        invariant
            1 <= i <= p,
            p == m@.len(),
            col < p,
            forall|w: int| 0 <= w < p ==> (#[trigger] m@[w])@.len() == p,
            r@.len() == i - 1,
            forall|w: int| 0 <= w < i - 1 ==> (#[trigger] r@[w])@.len() == p - 1,
            forall|w: int, k: int|
                0 <= w < i - 1 && 0 <= k < p - 1 ==> (#[trigger] r@[w]@[k]) == (if k < col {
                    m@[w + 1]@[k]
                } else {
                    m@[w + 1]@[k + 1]
                }),
        decreases p - i,
    {
        let row = &m[i];
        let mut nr: Vec<i128> = Vec::new();
        let mut k: usize = 0;
        while k < p
            invariant
                k <= p,
                i < p,
                p == m@.len(),
                col < p,
                row@ == m@[i as int]@,
                row@.len() == p,
                nr@.len() == (if k <= col {
                    k as int
                } else {
                    k - 1
                }),
                forall|w: int| 0 <= w < nr@.len() ==> (#[trigger] nr@[w]) == (if w < col {
                    row@[w]
                } else {
                    row@[w + 1]
                }),
            decreases p - k,
        {
            if k != col {
                nr.push(row[k]);
            }
            k = k + 1;
        }
        r.push(nr);
        i = i + 1;
    }
    proof {
        lemma_view_m_shape(r@);
        lemma_view_m_shape(m@);
        let lhs = view_m(r@);
        let rhs = minor_m(view_m(m@), col as int);
        assert forall|w: int| 0 <= w < p - 1 implies lhs[w] =~= #[trigger] rhs[w] by {
            assert(rhs[w] == view_m(m@)[w + 1].remove(col as int));
            assert forall|k: int| 0 <= k < p - 1 implies lhs[w][k] == rhs[w][k] by {
                assert(lhs[w][k] == r@[w]@[k] as int);
                if k < col {
                    assert(view_m(m@)[w + 1].remove(col as int)[k] == view_m(m@)[w + 1][k]);
                    assert(view_m(m@)[w + 1][k] == m@[w + 1]@[k] as int);
                } else {
                    assert(view_m(m@)[w + 1].remove(col as int)[k] == view_m(m@)[w + 1][k + 1]);
                    assert(view_m(m@)[w + 1][k + 1] == m@[w + 1]@[k + 1] as int);
                }
            }
        }
        assert(lhs =~~= rhs);
    }
    r
}

/// Determinant of a square matrix by exact cofactor expansion with checked
/// arithmetic: the result is exactly the mathematical determinant, and the
/// computation fails exactly when an intermediate value leaves the machine
/// integers.
fn det_exec(m: &Vec<Vec<i128>>) -> (r: Option<i128>)
    requires
        forall|i: int| 0 <= i < m@.len() ==> (#[trigger] m@[i])@.len() == m@.len(),
    ensures
        match r {
            Some(d) => det_fits(view_m(m@)) && d as int == spec_det(view_m(m@)),
            None => !det_fits(view_m(m@)),
        },
    decreases m@.len(),
{
    let p = m.len();
    let ghost mv = view_m(m@);
    proof {
        lemma_view_m_shape(m@);
    }
    if p == 0 {
        return Some(1);
    }
    let mut acc: i128 = 0;
    let mut j: usize = 0;
    while j < p
        invariant
            j <= p,
            p == m@.len(),
            p >= 1,
            mv == view_m(m@),
            forall|i: int| 0 <= i < m@.len() ==> (#[trigger] m@[i])@.len() == m@.len(),
            acc as int == det_sum(mv, j as int),
            det_sum_fits(mv, j as int),
        decreases p - j,
    {
        proof {
            lemma_view_m_shape(m@);
        }
        let mm = build_minor(m, j);
        let ghost mmv = minor_m(mv, j as int);
        proof {
            assert(view_m(mm@) == mmv);
        }
        let sub = match det_exec(&mm) {
            Some(d) => d,
            None => {
                proof {
                    if det_fits(mv) {
                        lemma_det_sum_fits_prefix(mv, j + 1, p as int);
                        assert(det_sum_fits(mv, j + 1));
                        assert(det_fits(mmv));
                    }
                }
                return None;
            },
        };
        proof {
            assert(mv[0][j as int] == m@[0]@[j as int] as int);
        }
        let prod = match m[0][j].checked_mul(sub) {
            Some(v) => v,
            None => {
                proof {
                    if det_fits(mv) {
                        lemma_det_sum_fits_prefix(mv, j + 1, p as int);
                        assert(in_i128(mv[0][j as int] * spec_det(mmv)));
                    }
                }
                return None;
            },
        };
        let term: i128;
        if j % 2 == 0 {
            proof {
                assert(cof_sign(j as int) == 1);
                assert(1 * (mv[0][j as int] * spec_det(mmv)) == mv[0][j as int] * spec_det(mmv));
            }
            term = prod;
        } else {
            if prod == i128::MIN {
                proof {
                    if det_fits(mv) {
                        lemma_det_sum_fits_prefix(mv, j + 1, p as int);
                        assert(cof_sign(j as int) == -1);
                        assert(in_i128(-1 * (mv[0][j as int] * spec_det(mmv))));
                    }
                }
                return None;
            }
            proof {
                assert(cof_sign(j as int) == -1);
            }
            term = -prod;
        }
        proof {
            assert(term as int == cof_sign(j as int) * (mv[0][j as int] * spec_det(mmv)));
        }
        let next = match acc.checked_add(term) {
            Some(v) => v,
            None => {
                proof {
                    if det_fits(mv) {
                        lemma_det_sum_fits_prefix(mv, j + 1, p as int);
                        assert(in_i128(det_sum(mv, j + 1)));
                    }
                }
                return None;
            },
        };
        acc = next;
        proof {
            assert(det_sum(mv, j + 1) == det_sum(mv, j as int) + cof_sign(j as int) * (mv[0][j
                as int] * spec_det(mmv)));
            assert(det_sum_fits(mv, j + 1));
        }
        j = j + 1;
    }
    proof {
        assert(spec_det(mv) == det_sum(mv, p as int));
        assert(det_fits(mv));
    }
    Some(acc)
}

/// Deep copy of a square integer matrix.
fn copy_matrix(m: &Vec<Vec<i128>>) -> (r: Vec<Vec<i128>>)
    ensures
        r@.len() == m@.len(),
        forall|i: int| 0 <= i < m@.len() ==> (#[trigger] r@[i])@ == m@[i]@,
{
    let len = m.len();
    let mut r: Vec<Vec<i128>> = Vec::new();
    let mut i: usize = 0;
    while i < len
        invariant
            i <= len,
            len == m@.len(),
            r@.len() == i,
            forall|w: int| 0 <= w < i ==> (#[trigger] r@[w])@ == m@[w]@,
        decreases len - i,
    {
        let row = &m[i];
        let rlen = row.len();
        let mut nr: Vec<i128> = Vec::new();
        let mut j: usize = 0;
        while j < rlen
            invariant
                j <= rlen,
                i < len,
                len == m@.len(),
                rlen == m@[i as int]@.len(),
                row@ == m@[i as int]@,
                nr@.len() == j,
                forall|w: int| 0 <= w < j ==> (#[trigger] nr@[w]) == m@[i as int]@[w],
            decreases rlen - j,
        {
            nr.push(row[j]);
            j = j + 1;
        }
        proof {
            assert(nr@ =~= m@[i as int]@);
        }
        r.push(nr);
        i = i + 1;
    }
    r
}

/// Build a copy of `gram` with column `col` replaced by `z`.
fn replace_column(gram: &Vec<Vec<i128>>, z: &Vec<i128>, col: usize, p: usize) -> (r: Vec<
    Vec<i128>,
>)
    requires
        gram@.len() == p,
        forall|i: int| 0 <= i < p ==> (#[trigger] gram@[i])@.len() == p,
        z@.len() == p,
        col < p,
    ensures
        r@.len() == p,
        forall|i: int| 0 <= i < p ==> (#[trigger] r@[i])@.len() == p,
        view_m(r@) == col_replaced(view_m(gram@), view_v(z@), col as int),
{
    let mut r = copy_matrix(gram);
    let mut i: usize = 0;
    while i < p
        invariant
            i <= p,
            col < p,
            z@.len() == p,
            gram@.len() == p,
            forall|w: int| 0 <= w < p ==> (#[trigger] gram@[w])@.len() == p,
            r@.len() == p,
            forall|w: int| 0 <= w < p ==> (#[trigger] r@[w])@.len() == p,
            forall|w: int|
                0 <= w < i ==> (#[trigger] r@[w])@ == gram@[w]@.update(col as int, z@[w]),
            forall|w: int| i <= w < p ==> (#[trigger] r@[w])@ == gram@[w]@,
        decreases p - i,
    {
        let v = z[i];
        let rowi = &mut r[i];
        rowi[col] = v;
        proof {
            assert(r@[i as int]@ =~= gram@[i as int]@.update(col as int, z@[i as int]));
        }
        i = i + 1;
    }
    proof {
        lemma_view_m_shape(r@);
        lemma_view_m_shape(gram@);
        let lhs = view_m(r@);
        let rhs = col_replaced(view_m(gram@), view_v(z@), col as int);
        assert forall|w: int| 0 <= w < p implies lhs[w] =~= #[trigger] rhs[w] by {
            assert(rhs[w] == view_m(gram@)[w].update(col as int, view_v(z@)[w]));
            assert(view_m(gram@)[w].len() == p);
            assert forall|k: int| 0 <= k < p implies lhs[w][k] == rhs[w][k] by {
                assert(lhs[w][k] == r@[w]@[k] as int);
                assert(r@[w]@ == gram@[w]@.update(col as int, z@[w]));
                if k == col {
                    assert(r@[w]@[k] == z@[w]);
                    assert(view_v(z@)[w] == z@[w] as int);
                } else {
                    assert(r@[w]@[k] == gram@[w]@[k]);
                    assert(view_m(gram@)[w][k] == gram@[w]@[k] as int);
                }
            }
        }
        assert(lhs =~~= rhs);
    }
    r
}

/// Solve the normal equations `gram·w == z` exactly. The result is present
/// exactly when the statistics determine one (`solver_ok`), and it is then
/// the sign-normalized Cramer solution, accepted only after a verified
/// re-check against the normal equations.
fn solve(gram: &Vec<Vec<i128>>, z: &Vec<i128>, p: usize) -> (r: Option<Weights>)
    requires
        gram@.len() == p,
        forall|i: int| 0 <= i < p ==> (#[trigger] gram@[i])@.len() == p,
        z@.len() == p,
    ensures
        r is Some <==> solver_ok(view_m(gram@), view_v(z@)),
        match r {
            Some(w) => {
                &&& w.nums@.len() == p
                &&& solves(gram@, z@, w.nums@, w.den)
                &&& w.den as int == cramer_den(view_m(gram@))
                &&& forall|j: int|
                    0 <= j < p ==> (#[trigger] w.nums@[j]) as int == cramer_num(
                        view_m(gram@),
                        view_v(z@),
                        j,
                    )
            },
            None => true,
        },
{
    let ghost gv = view_m(gram@);
    let ghost zv = view_v(z@);
    proof {
        lemma_view_m_shape(gram@);
        assert(gv.len() == p);
        assert(zv.len() == p);
        assert(forall|i: int| 0 <= i < p ==> #[trigger] zv[i] == z@[i] as int);
    }
    let det = match det_exec(gram) {
        Some(d) => d,
        None => {
            return None;
        },
    };
    if det == 0 {
        return None;
    }
    let mut raw: Vec<i128> = Vec::new();
    let mut col: usize = 0;
    while col < p
        invariant
            col <= p,
            raw@.len() == col,
            gram@.len() == p,
            forall|i: int| 0 <= i < p ==> (#[trigger] gram@[i])@.len() == p,
            z@.len() == p,
            gv == view_m(gram@),
            zv == view_v(z@),
            det as int == spec_det(gv),
            det != 0,
            det_fits(gv),
            forall|w: int| 0 <= w < col ==> det_fits(#[trigger] col_replaced(gv, zv, w)),
            forall|w: int|
                0 <= w < col ==> (#[trigger] raw@[w]) as int == spec_det(col_replaced(gv, zv, w)),
        decreases p - col,
    {
        let mj = replace_column(gram, z, col, p);
        let dj = match det_exec(&mj) {
            Some(d) => d,
            None => {
                proof {
                    assert(!det_fits(col_replaced(gv, zv, col as int)));
                }
                return None;
            },
        };
        raw.push(dj);
        col = col + 1;
    }
    let den: i128;
    let mut nums: Vec<i128> = Vec::new();
    if det > 0 {
        den = det;
        let mut w: usize = 0;
        while w < p
            invariant
                w <= p,
                gram@.len() == p,
                gv == view_m(gram@),
                raw@.len() == p,
                nums@.len() == w,
                forall|v: int| 0 <= v < w ==> (#[trigger] nums@[v]) == raw@[v],
            decreases p - w,
        {
            nums.push(raw[w]);
            w = w + 1;
        }
    } else {
        if det == i128::MIN {
            proof {
                assert(!in_i128(cramer_den(gv)));
            }
            return None;
        }
        den = -det;
        let mut w: usize = 0;
        while w < p
            invariant
                w <= p,
                det < 0,
                det as int == spec_det(gv),
                gram@.len() == p,
                z@.len() == p,
                gv == view_m(gram@),
                zv == view_v(z@),
                raw@.len() == p,
                nums@.len() == w,
                forall|v: int|
                    0 <= v < p ==> (#[trigger] raw@[v]) as int == spec_det(
                        col_replaced(gv, zv, v),
                    ),
                forall|v: int| 0 <= v < w ==> (#[trigger] nums@[v]) as int == -(raw@[v] as int),
            decreases p - w,
        {
            let v = raw[w];
            if v == i128::MIN {
                proof {
                    assert(gv.len() == p) by {
                        lemma_view_m_shape(gram@);
                    }
                    assert(cramer_num(gv, zv, w as int) == -spec_det(
                        col_replaced(gv, zv, w as int),
                    ));
                    assert(!in_i128(cramer_num(gv, zv, w as int)));
                }
                return None;
            }
            nums.push(-v);
            w = w + 1;
        }
    }
    proof {
        assert(den as int == cramer_den(gv));
        assert(den >= 1);
        assert forall|j: int| 0 <= j < p implies (#[trigger] nums@[j]) as int == cramer_num(
            gv,
            zv,
            j,
        ) by {
            assert(raw@[j] as int == spec_det(col_replaced(gv, zv, j)));
        }
        assert(forall|j: int|
            0 <= j < p ==> #[trigger] cramer_nums(gv, zv)[j] == cramer_num(gv, zv, j));
    }
    // The candidate is accepted only if it satisfies the normal equations.
    let mut i: usize = 0;
    while i < p
        invariant
            i <= p,
            den >= 1,
            den as int == cramer_den(gv),
            nums@.len() == p,
            raw@.len() == p,
            gram@.len() == p,
            forall|w: int| 0 <= w < p ==> (#[trigger] gram@[w])@.len() == p,
            z@.len() == p,
            gv == view_m(gram@),
            zv == view_v(z@),
            det as int == spec_det(gv),
            det != 0,
            det_fits(gv),
            forall|w: int| 0 <= w < p ==> det_fits(#[trigger] col_replaced(gv, zv, w)),
            forall|j: int|
                0 <= j < p ==> (#[trigger] nums@[j]) as int == cramer_num(gv, zv, j),
            forall|w: int|
                0 <= w < i ==> #[trigger] dot_prefix(gram@[w]@, nums@, p as int) == z@[w] * den,
            forall|w: int, k: int|
                0 <= w < i && 0 <= k < p ==> in_i128((#[trigger] gv[w][k]) * cramer_num(gv, zv, k)),
            forall|w: int, k: int|
                0 <= w < i && 0 <= k <= p ==> in_i128(
                    #[trigger] dot_int_prefix(gv[w], cramer_nums(gv, zv), k),
                ),
            forall|w: int| 0 <= w < i ==> in_i128((#[trigger] zv[w]) * cramer_den(gv)),
            forall|w: int|
                0 <= w < i ==> #[trigger] dot_int_prefix(gv[w], cramer_nums(gv, zv), p as int)
                    == zv[w] * cramer_den(gv),
        decreases p - i,
    {
        proof {
            lemma_view_m_shape(gram@);
            assert(forall|j: int|
                0 <= j < p ==> #[trigger] cramer_nums(gv, zv)[j] == cramer_num(gv, zv, j));
            assert(dot_int_prefix(gv[i as int], cramer_nums(gv, zv), 0) == 0);
        }
        let mut acc: i128 = 0;
        let mut j: usize = 0;
        while j < p
            invariant
                j <= p,
                i < p,
                nums@.len() == p,
                gram@.len() == p,
                forall|w: int| 0 <= w < p ==> (#[trigger] gram@[w])@.len() == p,
                z@.len() == p,
                gv == view_m(gram@),
                zv == view_v(z@),
                forall|v: int|
                    0 <= v < p ==> (#[trigger] nums@[v]) as int == cramer_num(gv, zv, v),
                acc as int == dot_prefix(gram@[i as int]@, nums@, j as int),
                acc as int == dot_int_prefix(gv[i as int], cramer_nums(gv, zv), j as int),
                forall|k: int|
                    0 <= k < j ==> in_i128((#[trigger] gv[i as int][k]) * cramer_num(gv, zv, k)),
                forall|k: int|
                    0 <= k <= j ==> in_i128(
                        #[trigger] dot_int_prefix(gv[i as int], cramer_nums(gv, zv), k),
                    ),
            decreases p - j,
        {
            proof {
                lemma_view_m_shape(gram@);
                assert(gv[i as int][j as int] == gram@[i as int]@[j as int] as int);
                assert(cramer_nums(gv, zv)[j as int] == cramer_num(gv, zv, j as int));
                assert(nums@[j as int] as int == cramer_num(gv, zv, j as int));
            }
            let term = match gram[i][j].checked_mul(nums[j]) {
                Some(v) => v,
                None => {
                    proof {
                        assert(!in_i128(
                            gv[i as int][j as int] * cramer_num(gv, zv, j as int),
                        ));
                    }
                    return None;
                },
            };
            let next = match acc.checked_add(term) {
                Some(v) => v,
                None => {
                    proof {
                        assert(!in_i128(dot_int_prefix(gv[i as int], cramer_nums(gv, zv), j + 1)));
                    }
                    return None;
                },
            };
            acc = next;
            j = j + 1;
        }
        let rhs = match z[i].checked_mul(den) {
            Some(v) => v,
            None => {
                proof {
                    assert(zv[i as int] == z@[i as int] as int);
                    assert(!in_i128(zv[i as int] * cramer_den(gv)));
                }
                return None;
            },
        };
        if acc != rhs {
            proof {
                assert(zv[i as int] == z@[i as int] as int);
                assert(dot_int_prefix(gv[i as int], cramer_nums(gv, zv), p as int) != zv[i as int]
                    * cramer_den(gv));
            }
            return None;
        }
        proof {
            assert(zv[i as int] == z@[i as int] as int);
        }
        i = i + 1;
    }
    proof {
        assert(gv.len() == p) by {
            lemma_view_m_shape(gram@);
        }
        assert(spec_det(gv) != 0);
        assert(det_fits(gv));
        assert(in_i128(cramer_den(gv))) by {
            assert(den as int == cramer_den(gv));
        }
        assert forall|j: int| 0 <= j < gv.len() implies in_i128(
            #[trigger] cramer_num(gv, zv, j),
        ) by {
            assert(nums@[j] as int == cramer_num(gv, zv, j));
        }
        assert(solver_ok(gv, zv));
    }
    Some(Weights { nums, den })
}

/// All counts representable when the statistics of a batch-prefix are added
/// onto empty statistics.
pub open spec fn new_fits(es: Seq<Example>, p: nat) -> bool {
    &&& forall|k: int, i: int, j: int|
        0 <= k <= es.len() && 0 <= i < p && 0 <= j < p ==> in_i128(
            #[trigger] batch_gram(es.take(k), i, j),
        )
    &&& forall|k: int, i: int|
        0 <= k <= es.len() && 0 <= i < p ==> in_i128(#[trigger] batch_zv(es.take(k), i))
}

/// Exact effect of fitting a batch of examples on the sufficient statistics.
pub open spec fn ridge_fit_updated(pre: RidgeRegression, es: Seq<Example>, post: RidgeRegression) -> bool {
    &&& post.p_spec() == pre.p_spec()
    &&& forall|i: int, j: int|
        0 <= i < pre.p_spec() && 0 <= j < pre.p_spec() ==> #[trigger] post.gval(i, j) == pre.gval(
            i,
            j,
        ) + batch_gram(es, i, j)
    &&& forall|i: int|
        0 <= i < pre.p_spec() ==> #[trigger] post.zval(i) == pre.zval(i) + batch_zv(es, i)
}

/// Exact effect of forgetting one example on the sufficient statistics.
pub open spec fn ridge_forget_updated(pre: RidgeRegression, e: Example, post: RidgeRegression) -> bool {
    &&& post.p_spec() == pre.p_spec()
    &&& forall|i: int, j: int|
        0 <= i < pre.p_spec() && 0 <= j < pre.p_spec() ==> #[trigger] post.gval(i, j) == pre.gval(
            i,
            j,
        ) - ex_gram(e, i, j)
    &&& forall|i: int|
        0 <= i < pre.p_spec() ==> #[trigger] post.zval(i) == pre.zval(i) - ex_zv(e, i)
}

/// Removing one example from a batch removes exactly its contribution from
/// the accumulated statistics.
pub proof fn lemma_ridge_batch_remove(es: Seq<Example>, w: int, i: int, j: int)
    requires
        0 <= w < es.len(),
    ensures
        batch_gram(es, i, j) == batch_gram(es.remove(w), i, j) + ex_gram(es[w], i, j),
        batch_zv(es, i) == batch_zv(es.remove(w), i) + ex_zv(es[w], i),
    decreases es.len(),
{
    if w == es.len() - 1 {
        assert(es.remove(w) =~= es.drop_last());
    } else {
        assert(es.remove(w).drop_last() =~= es.drop_last().remove(w));
        assert(es.remove(w).last() == es.last());
        assert(es.drop_last()[w] == es[w]);
        lemma_ridge_batch_remove(es.drop_last(), w, i, j);
    }
}

/// The weight vector is a pure function of the sufficient statistics: two
/// models with identical statistics and resolved weight vectors hold
/// weights together, and then the same ones, componentwise and with the
/// same denominator.
pub proof fn lemma_weights_determined(m1: RidgeRegression, m2: RidgeRegression)
    requires
        m1.resolved(),
        m2.resolved(),
        m1.p_spec() == m2.p_spec(),
        forall|i: int, j: int|
            0 <= i < m1.p_spec() && 0 <= j < m1.p_spec() ==> #[trigger] m1.gval(i, j) == m2.gval(
                i,
                j,
            ),
        forall|i: int| 0 <= i < m1.p_spec() ==> #[trigger] m1.zval(i) == m2.zval(i),
    ensures
        m1.wopt() is Some <==> m2.wopt() is Some,
        m1.wopt() is Some && m2.wopt() is Some ==> m1.wopt()->Some_0.den == m2.wopt()->Some_0.den
            && m1.wopt()->Some_0.nums@ == m2.wopt()->Some_0.nums@,
{
    assert forall|i: int| 0 <= i < m1.p_spec() implies m1.stats_matrix()[i] =~= #[trigger] m2.stats_matrix()[i] by {
        assert(forall|j: int|
            0 <= j < m1.p_spec() ==> #[trigger] m1.stats_matrix()[i][j] == m1.gval(i, j));
    }
    assert(m1.stats_matrix() =~~= m2.stats_matrix());
    assert(m1.stats_vector() =~= m2.stats_vector());
    if m1.wopt() is Some && m2.wopt() is Some {
        let w1 = m1.wopt()->Some_0;
        let w2 = m2.wopt()->Some_0;
        assert(solver_ok(m1.stats_matrix(), m1.stats_vector()));
        assert forall|j: int| 0 <= j < w1.nums@.len() implies w1.nums@[j] == w2.nums@[j] by {
            assert(w1.nums@[j] as int == cramer_num(m1.stats_matrix(), m1.stats_vector(), j));
            assert(w2.nums@[j] as int == cramer_num(m2.stats_matrix(), m2.stats_vector(), j));
        }
        assert(w1.nums@ =~= w2.nums@);
    }
}

/// Exact unlearning: fitting a batch of examples and then forgetting one of
/// them restores exactly the sufficient statistics — Gram matrix and
/// target-weighted sum — of fitting the batch without that example; in
/// particular both states determine the same normal equations, and the
/// decrements of that forgetting stay representable.
pub proof fn lemma_exact_unlearning_ridge(
    pre: RidgeRegression,
    es: Seq<Example>,
    w: int,
    mid: RidgeRegression,
    post: RidgeRegression,
    fresh: RidgeRegression,
)
    requires
        0 <= w < es.len(),
        ridge_fit_updated(pre, es, mid),
        ridge_forget_updated(mid, es[w], post),
        ridge_fit_updated(pre, es.remove(w), fresh),
    ensures
        forall|i: int, j: int|
            0 <= i < pre.p_spec() && 0 <= j < pre.p_spec() ==> #[trigger] post.gval(i, j)
                == fresh.gval(i, j),
        forall|i: int| 0 <= i < pre.p_spec() ==> #[trigger] post.zval(i) == fresh.zval(i),
        mid.forget_fits(es[w]),
        post.resolved() && fresh.resolved() ==> {
            &&& (post.wopt() is Some <==> fresh.wopt() is Some)
            &&& (post.wopt() is Some && fresh.wopt() is Some ==> post.wopt()->Some_0.den
                == fresh.wopt()->Some_0.den && post.wopt()->Some_0.nums@
                == fresh.wopt()->Some_0.nums@)
        },
{
    assert forall|i: int, j: int|
        0 <= i < pre.p_spec() && 0 <= j < pre.p_spec() implies #[trigger] post.gval(i, j)
        == fresh.gval(i, j) by {
        lemma_ridge_batch_remove(es, w, i, j);
        assert(mid.gval(i, j) == pre.gval(i, j) + batch_gram(es, i, j));
        assert(post.gval(i, j) == mid.gval(i, j) - ex_gram(es[w], i, j));
        assert(fresh.gval(i, j) == pre.gval(i, j) + batch_gram(es.remove(w), i, j));
    }
    assert forall|i: int| 0 <= i < pre.p_spec() implies #[trigger] post.zval(i) == fresh.zval(
        i,
    ) by {
        lemma_ridge_batch_remove(es, w, i, i);
        assert(mid.zval(i) == pre.zval(i) + batch_zv(es, i));
        assert(post.zval(i) == mid.zval(i) - ex_zv(es[w], i));
        assert(fresh.zval(i) == pre.zval(i) + batch_zv(es.remove(w), i));
    }
    assert forall|i: int, j: int|
        0 <= i < mid.p_spec() && 0 <= j < mid.p_spec() implies in_i128(
        mid.gval(i, j) - #[trigger] ex_gram(es[w], i, j),
    ) by {
        assert(post.gval(i, j) == mid.gval(i, j) - ex_gram(es[w], i, j));
        post.lemma_gval_in_range(i, j);
    }
    assert forall|i: int| 0 <= i < mid.p_spec() implies in_i128(
        mid.zval(i) - #[trigger] ex_zv(es[w], i),
    ) by {
        assert(post.zval(i) == mid.zval(i) - ex_zv(es[w], i));
        post.lemma_zval_in_range(i);
    }
    if post.resolved() && fresh.resolved() {
        lemma_weights_determined(post, fresh);
    }
}

/// Ridge regression model: exact integer sufficient statistics and the
/// exact rational solution of the normal equations they determine.
#[derive(Debug)]
#[verifier::ext_equal]
pub struct RidgeRegression {
    p: usize,
    gram: Vec<Vec<i128>>,
    z: Vec<i128>,
    weights: Option<Weights>,
}

impl RidgeRegression {
    /// The configured number of features.
    pub closed spec fn p_spec(self) -> nat {
        self.p as nat
    }

    /// Gram matrix entry `(i, j)`; zero outside the configured shape.
    pub closed spec fn gval(self, i: int, j: int) -> int {
        if 0 <= i < self.gram@.len() && 0 <= j < self.gram@[i]@.len() {
            self.gram@[i]@[j] as int
        } else {
            0
        }
    }

    /// Component `i` of the accumulated target sum.
    pub closed spec fn zval(self, i: int) -> int {
        if 0 <= i < self.z@.len() {
            self.z@[i] as int
        } else {
            0
        }
    }

    /// The current weight vector, if one is held.
    pub closed spec fn wopt(self) -> Option<Weights> {
        self.weights
    }

    /// Structural well-formedness: a square `p`-by-`p` Gram matrix and a
    /// target sum of length `p`.
    pub closed spec fn wf(self) -> bool {
        &&& self.gram@.len() == self.p
        &&& forall|i: int| 0 <= i < self.p ==> (#[trigger] self.gram@[i])@.len() == self.p
        &&& self.z@.len() == self.p
    }

    /// A held weight vector satisfies the normal equations of the current
    /// statistics.
    pub closed spec fn solved(self) -> bool {
        match self.weights {
            Some(w) => w.nums@.len() == self.p && solves(self.gram@, self.z@, w.nums@, w.den),
            None => true,
        }
    }

    /// The current sufficient statistics as a mathematical matrix.
    pub open spec fn stats_matrix(self) -> Seq<Seq<int>> {
        Seq::new(self.p_spec(), |i: int| Seq::new(self.p_spec(), |j: int| self.gval(i, j)))
    }

    /// The current sufficient statistics as a mathematical vector.
    pub open spec fn stats_vector(self) -> Seq<int> {
        Seq::new(self.p_spec(), |i: int| self.zval(i))
    }

    /// The held weight vector is exactly what the current statistics
    /// determine: the sign-normalized Cramer solution when `solver_ok` holds
    /// of them, and nothing otherwise. This makes the weight vector a pure
    /// function of the statistics.
    pub open spec fn resolved(self) -> bool {
        if solver_ok(self.stats_matrix(), self.stats_vector()) {
            match self.wopt() {
                Some(w) => {
                    &&& w.nums@.len() == self.p_spec()
                    &&& w.den as int == cramer_den(self.stats_matrix())
                    &&& forall|j: int|
                        0 <= j < self.p_spec() ==> (#[trigger] w.nums@[j]) as int == cramer_num(
                            self.stats_matrix(),
                            self.stats_vector(),
                            j,
                        )
                },
                None => false,
            }
        } else {
            self.wopt() is None
        }
    }

    /// The statistics views of a well-formed model coincide with the views
    /// of its stored fields.
    proof fn lemma_stats_views(self)
        requires
            self.wf(),
        ensures
            self.stats_matrix() == view_m(self.gram@),
            self.stats_vector() == view_v(self.z@),
    {
        lemma_view_m_shape(self.gram@);
        assert forall|i: int| 0 <= i < self.p_spec() implies self.stats_matrix()[i] =~= view_m(
            self.gram@,
        )[i] by {
            assert forall|j: int|
                0 <= j < self.p_spec() implies self.stats_matrix()[i][j] == view_m(
                self.gram@,
            )[i][j] by {
                assert(self.gval(i, j) == self.gram@[i]@[j] as int);
            }
        }
        assert(self.stats_matrix() =~~= view_m(self.gram@));
        assert forall|i: int| 0 <= i < self.p_spec() implies self.stats_vector()[i] == view_v(
            self.z@,
        )[i] by {
            assert(self.zval(i) == self.z@[i] as int);
        }
        assert(self.stats_vector() =~= view_v(self.z@));
    }

    /// Stored Gram entries are machine-representable.
    pub proof fn lemma_gval_in_range(self, i: int, j: int)
        ensures
            in_i128(self.gval(i, j)),
    {
    }

    /// Stored target-sum entries are machine-representable.
    pub proof fn lemma_zval_in_range(self, i: int)
        ensures
            in_i128(self.zval(i)),
    {
    }

    /// The increments of fitting `es` onto `self` keep every prefix of the
    /// accumulation representable.
    pub open spec fn fits(self, es: Seq<Example>) -> bool {
        &&& forall|k: int, i: int, j: int|
            0 <= k <= es.len() && 0 <= i < self.p_spec() && 0 <= j < self.p_spec() ==> in_i128(
                self.gval(i, j) + #[trigger] batch_gram(es.take(k), i, j),
            )
        &&& forall|k: int, i: int|
            0 <= k <= es.len() && 0 <= i < self.p_spec() ==> in_i128(
                self.zval(i) + #[trigger] batch_zv(es.take(k), i),
            )
    }

    /// The decrements of forgetting `e` keep every statistic representable.
    pub open spec fn forget_fits(self, e: Example) -> bool {
        &&& forall|i: int, j: int|
            0 <= i < self.p_spec() && 0 <= j < self.p_spec() ==> in_i128(
                self.gval(i, j) - #[trigger] ex_gram(e, i, j),
            )
        &&& forall|i: int|
            0 <= i < self.p_spec() ==> in_i128(self.zval(i) - #[trigger] ex_zv(e, i))
    }

    /// Build a model from an initial set of examples: accumulate their
    /// statistics and resolve the weight vector.
    pub fn new(examples: &[Example], num_features: usize) -> (r: Result<
        RidgeRegression,
        ModelError,
    >)
        ensures
            match r {
                Ok(m) => {
                    &&& m.wf()
                    &&& m.solved()
                    &&& m.resolved()
                    &&& m.p_spec() == num_features
                    &&& dims_ok(examples@, num_features as nat)
                    &&& forall|i: int, j: int|
                        0 <= i < num_features && 0 <= j < num_features ==> #[trigger] m.gval(i, j)
                            == batch_gram(examples@, i, j)
                    &&& forall|i: int|
                        0 <= i < num_features ==> #[trigger] m.zval(i) == batch_zv(examples@, i)
                },
                Err(ModelError::DimensionMismatch) => !dims_ok(examples@, num_features as nat),
                Err(ModelError::CapacityExceeded) => dims_ok(examples@, num_features as nat)
                    && !new_fits(examples@, num_features as nat),
                Err(_) => false,
            },
    {
        let dlen = examples.len();
        let mut w: usize = 0;
        while w < dlen
            invariant
                w <= dlen,
                dlen == examples@.len(),
                forall|i: int|
                    0 <= i < w ==> (#[trigger] examples@[i]).features@.len() == num_features,
            decreases dlen - w,
        {
            if examples[w].features.len() != num_features {
                proof {
                    assert(!dims_ok(examples@, num_features as nat));
                }
                return Err(ModelError::DimensionMismatch);
            }
            w = w + 1;
        }
        let mut gram: Vec<Vec<i128>> = Vec::new();
        let mut z: Vec<i128> = Vec::new();
        let mut i: usize = 0;
        while i < num_features
            invariant
                i <= num_features,
                gram@.len() == i,
                z@.len() == i,
                forall|a: int| 0 <= a < i ==> (#[trigger] gram@[a])@.len() == num_features,
                forall|a: int| 0 <= a < i ==> (#[trigger] gram@[a])@ =~= Seq::new(
                    num_features as nat,
                    |b: int| 0i128,
                ),
                forall|a: int| 0 <= a < i ==> (#[trigger] z@[a]) == 0i128,
            decreases num_features - i,
        {
            let mut row: Vec<i128> = Vec::new();
            let mut j: usize = 0;
            while j < num_features
                invariant
                    j <= num_features,
                    row@.len() == j,
                    forall|b: int| 0 <= b < j ==> (#[trigger] row@[b]) == 0i128,
                decreases num_features - j,
            {
                row.push(0);
                j = j + 1;
            }
            proof {
                assert(row@ =~= Seq::new(num_features as nat, |b: int| 0i128));
            }
            gram.push(row);
            z.push(0);
            i = i + 1;
        }
        let mut m = RidgeRegression { p: num_features, gram, z, weights: None };
        proof {
            assert(m.wf());
            assert forall|a: int, b: int|
                0 <= a < num_features && 0 <= b < num_features implies #[trigger] m.gval(a, b)
                == 0 by {
                assert(m.gval(a, b) == Seq::new(num_features as nat, |w: int| 0i128)[b]);
            }
            assert(forall|a: int| 0 <= a < num_features ==> #[trigger] m.zval(a) == 0);
        }
        let ghost zero = m;
        let ok = m.accumulate(examples);
        if !ok {
            proof {
                assert(!zero.fits(examples@));
                assert(!new_fits(examples@, num_features as nat)) by {
                    if new_fits(examples@, num_features as nat) {
                        assert forall|k: int, i2: int, j2: int|
                            0 <= k <= examples@.len() && 0 <= i2 < zero.p_spec() && 0 <= j2
                                < zero.p_spec() implies in_i128(
                            zero.gval(i2, j2) + #[trigger] batch_gram(examples@.take(k), i2, j2),
                        ) by {
                            assert(zero.gval(i2, j2) == 0);
                        }
                        assert forall|k: int, i2: int|
                            0 <= k <= examples@.len() && 0 <= i2 < zero.p_spec() implies in_i128(
                            zero.zval(i2) + #[trigger] batch_zv(examples@.take(k), i2),
                        ) by {
                            assert(zero.zval(i2) == 0);
                        }
                    }
                }
            }
            return Err(ModelError::CapacityExceeded);
        }
        m.refresh_weights();
        Ok(m)
    }

    /// Add the statistics of every example of `data`. Fails, possibly after
    /// applying part of the batch, exactly when an accumulated value leaves
    /// the range of the machine integers; the weight vector is untouched.
    fn accumulate(&mut self, data: &[Example]) -> (ok: bool)
        requires
            old(self).wf(),
            dims_ok(data@, old(self).p_spec()),
        ensures
            final(self).wf(),
            final(self).p_spec() == old(self).p_spec(),
            final(self).wopt() == old(self).wopt(),
            ok ==> forall|i: int, j: int|
                0 <= i < old(self).p_spec() && 0 <= j < old(self).p_spec()
                    ==> #[trigger] final(self).gval(i, j) == old(self).gval(i, j) + batch_gram(
                    data@,
                    i,
                    j,
                ),
            ok ==> forall|i: int|
                0 <= i < old(self).p_spec() ==> #[trigger] final(self).zval(i) == old(self).zval(i)
                    + batch_zv(data@, i),
            !ok ==> !old(self).fits(data@),
    {
        let ghost pre = *self;
        let p = self.p;
        let dlen = data.len();
        let mut k: usize = 0;
        proof {
            assert(data@.take(0) =~= Seq::<Example>::empty());
        }
        while k < dlen
            invariant
                k <= dlen,
                dlen == data@.len(),
                pre == *old(self),
                pre.wf(),
                dims_ok(data@, pre.p_spec()),
                p == self.p,
                self.wf(),
                self.p == pre.p,
                self.weights == pre.weights,
                forall|i: int, j: int|
                    0 <= i < p && 0 <= j < p ==> #[trigger] self.gval(i, j) == pre.gval(i, j)
                        + batch_gram(data@.take(k as int), i, j),
                forall|i: int|
                    0 <= i < p ==> #[trigger] self.zval(i) == pre.zval(i) + batch_zv(
                        data@.take(k as int),
                        i,
                    ),
            decreases dlen - k,
        {
            let ghost st0 = *self;
            let e = &data[k];
            proof {
                assert(*e == data@[k as int]);
            }
            let mut i: usize = 0;
            while i < p
                invariant
                    i <= p,
                    k < dlen,
                    dlen == data@.len(),
                    *e == data@[k as int],
                    e.features@.len() == p,
                    pre == *old(self),
                    pre.wf(),
                    p == self.p,
                    st0.wf(),
                    st0.p == pre.p,
                    self.wf(),
                    self.p == pre.p,
                    self.gram@ == st0.gram@,
                    self.weights == pre.weights,
                    forall|a: int, b: int|
                        0 <= a < p && 0 <= b < p ==> #[trigger] st0.gval(a, b) == pre.gval(a, b)
                            + batch_gram(data@.take(k as int), a, b),
                    forall|a: int|
                        0 <= a < p ==> #[trigger] st0.zval(a) == pre.zval(a) + batch_zv(
                            data@.take(k as int),
                            a,
                        ),
                    forall|a: int|
                        0 <= a < p ==> #[trigger] self.zval(a) == st0.zval(a) + if a < i {
                            ex_zv(data@[k as int], a)
                        } else {
                            0
                        },
                decreases p - i,
            {
                let ghost stz = *self;
                let xi = e.features[i];
                let y = e.target;
                proof {
                    assert((y as int) * (xi as int) <= i128::MAX && (y as int) * (xi as int)
                        >= i128::MIN) by (nonlinear_arith)
                        requires
                            i64::MIN <= y <= i64::MAX,
                            i64::MIN <= xi <= i64::MAX,
                    ;
                    assert(self.zval(i as int) == st0.zval(i as int));
                }
                let term = (y as i128) * (xi as i128);
                let cur = self.z[i];
                let next = match cur.checked_add(term) {
                    Some(v) => v,
                    None => {
                        proof {
                            lemma_batch_gram_take_step(data@, k as int, i as int, i as int);
                            assert(ex_zv(data@[k as int], i as int) == term);
                            assert(pre.zval(i as int) + batch_zv(data@.take(k + 1), i as int)
                                == cur + term);
                            assert(!pre.fits(data@));
                        }
                        return false;
                    },
                };
                self.z[i] = next;
                proof {
                    assert(self.z@ == stz.z@.update(i as int, next));
                    assert forall|a: int|
                        0 <= a < p implies #[trigger] self.zval(a) == st0.zval(a) + (if a < i + 1 {
                        ex_zv(data@[k as int], a)
                    } else {
                        0
                    }) by {
                        if a != i {
                            assert(self.z@[a] == stz.z@[a]);
                            assert(stz.zval(a) == st0.zval(a) + if a < i {
                                ex_zv(data@[k as int], a)
                            } else {
                                0
                            });
                        } else {
                            assert(ex_zv(data@[k as int], a) == term);
                        }
                    }
                }
                i = i + 1;
            }
            let ghost stg = *self;
            let mut i: usize = 0;
            while i < p
                invariant
                    i <= p,
                    k < dlen,
                    dlen == data@.len(),
                    *e == data@[k as int],
                    e.features@.len() == p,
                    pre == *old(self),
                    pre.wf(),
                    p == self.p,
                    st0.wf(),
                    self.wf(),
                    self.p == pre.p,
                    self.z@ == stg.z@,
                    self.weights == pre.weights,
                    forall|a: int|
                        0 <= a < p ==> #[trigger] stg.zval(a) == st0.zval(a) + ex_zv(
                            data@[k as int],
                            a,
                        ),
                    forall|a: int|
                        0 <= a < p ==> #[trigger] st0.zval(a) == pre.zval(a) + batch_zv(
                            data@.take(k as int),
                            a,
                        ),
                    forall|a: int, b: int|
                        0 <= a < p && 0 <= b < p ==> #[trigger] st0.gval(a, b) == pre.gval(a, b)
                            + batch_gram(data@.take(k as int), a, b),
                    forall|a: int, b: int|
                        0 <= a < p && 0 <= b < p ==> #[trigger] self.gval(a, b) == st0.gval(a, b)
                            + if a < i {
                            ex_gram(data@[k as int], a, b)
                        } else {
                            0
                        },
                decreases p - i,
            {
                let xi = e.features[i];
                let mut j: usize = 0;
                while j < p
                    invariant
                        j <= p,
                        i < p,
                        k < dlen,
                        dlen == data@.len(),
                        *e == data@[k as int],
                        e.features@.len() == p,
                        xi == e.features@[i as int],
                        pre == *old(self),
                        pre.wf(),
                        p == self.p,
                        st0.wf(),
                        self.wf(),
                        self.p == pre.p,
                        self.z@ == stg.z@,
                        self.weights == pre.weights,
                        forall|a: int|
                            0 <= a < p ==> #[trigger] stg.zval(a) == st0.zval(a) + ex_zv(
                                data@[k as int],
                                a,
                            ),
                        forall|a: int|
                            0 <= a < p ==> #[trigger] st0.zval(a) == pre.zval(a) + batch_zv(
                                data@.take(k as int),
                                a,
                            ),
                        forall|a: int, b: int|
                            0 <= a < p && 0 <= b < p ==> #[trigger] st0.gval(a, b) == pre.gval(
                                a,
                                b,
                            ) + batch_gram(data@.take(k as int), a, b),
                        forall|a: int, b: int|
                            0 <= a < p && 0 <= b < p ==> #[trigger] self.gval(a, b) == st0.gval(
                                a,
                                b,
                            ) + if a < i || (a == i && b < j) {
                                ex_gram(data@[k as int], a, b)
                            } else {
                                0
                            },
                    decreases p - j,
                {
                    let ghost stx = *self;
                    let xj = e.features[j];
                    proof {
                        assert((xi as int) * (xj as int) <= i128::MAX && (xi as int) * (xj as int)
                            >= i128::MIN) by (nonlinear_arith)
                            requires
                                i64::MIN <= xi <= i64::MAX,
                                i64::MIN <= xj <= i64::MAX,
                        ;
                        assert(self.gval(i as int, j as int) == st0.gval(i as int, j as int));
                    }
                    let term = (xi as i128) * (xj as i128);
                    let cur = self.gram[i][j];
                    proof {
                        assert(cur == self.gval(i as int, j as int));
                    }
                    let next = match cur.checked_add(term) {
                        Some(v) => v,
                        None => {
                            proof {
                                lemma_batch_gram_take_step(data@, k as int, i as int, j as int);
                                assert(ex_gram(data@[k as int], i as int, j as int) == term);
                                assert(pre.gval(i as int, j as int) + batch_gram(
                                    data@.take(k + 1),
                                    i as int,
                                    j as int,
                                ) == cur + term);
                                assert(!pre.fits(data@));
                            }
                            return false;
                        },
                    };
                    let rowi = &mut self.gram[i];
                    rowi[j] = next;
                    proof {
                        assert(self.gram@ == stx.gram@.update(i as int, self.gram@[i as int]));
                        assert(self.gram@[i as int]@ == stx.gram@[i as int]@.update(
                            j as int,
                            next,
                        ));
                        assert forall|a: int, b: int|
                            0 <= a < p && 0 <= b < p implies #[trigger] self.gval(a, b)
                            == st0.gval(a, b) + (if a < i || (a == i && b < j + 1) {
                            ex_gram(data@[k as int], a, b)
                        } else {
                            0
                        }) by {
                            if a == i && b == j {
                            } else {
                                assert(stx.gval(a, b) == st0.gval(a, b) + if a < i || (a == i && b
                                    < j) {
                                    ex_gram(data@[k as int], a, b)
                                } else {
                                    0
                                });
                                if a == i {
                                    assert(self.gram@[a]@[b] == stx.gram@[a]@[b]);
                                } else {
                                    assert(self.gram@[a] == stx.gram@[a]);
                                }
                            }
                        }
                        assert(self.wf());
                    }
                    j = j + 1;
                }
                i = i + 1;
            }
            proof {
                assert forall|a: int, b: int|
                    0 <= a < p && 0 <= b < p implies #[trigger] self.gval(a, b) == pre.gval(a, b)
                    + batch_gram(data@.take(k + 1), a, b) by {
                    lemma_batch_gram_take_step(data@, k as int, a, b);
                }
                assert forall|a: int|
                    0 <= a < p implies #[trigger] self.zval(a) == pre.zval(a) + batch_zv(
                    data@.take(k + 1),
                    a,
                ) by {
                    lemma_batch_gram_take_step(data@, k as int, a, a);
                    assert(self.zval(a) == stg.zval(a));
                }
            }
            k = k + 1;
        }
        proof {
            assert(data@.take(dlen as int) =~= data@);
        }
        true
    }

    /// The current weight vector, if the statistics determine one.
    pub fn weights(&self) -> (r: &Option<Weights>)
        ensures
            *r == self.wopt(),
    {
        &self.weights
    }

    /// Gram matrix entry `(i, j)`.
    pub fn gram_entry(&self, i: usize, j: usize) -> (v: i128)
        ensures
            v as int == self.gval(i as int, j as int),
    {
        if i < self.gram.len() {
            let row = &self.gram[i];
            if j < row.len() {
                return row[j];
            }
        }
        0
    }

    /// Component `i` of the accumulated target sum.
    pub fn z_entry(&self, i: usize) -> (v: i128)
        ensures
            v as int == self.zval(i as int),
    {
        if i < self.z.len() {
            self.z[i]
        } else {
            0
        }
    }

    /// Resolve the weight vector from the current statistics.
    fn refresh_weights(&mut self)
        requires
            old(self).wf(),
        ensures
            final(self).wf(),
            final(self).solved(),
            final(self).resolved(),
            final(self).p_spec() == old(self).p_spec(),
            forall|i: int, j: int| #[trigger] final(self).gval(i, j) == old(self).gval(i, j),
            forall|i: int| #[trigger] final(self).zval(i) == old(self).zval(i),
    {
        let w = solve(&self.gram, &self.z, self.p);
        self.weights = w;
        proof {
            self.lemma_stats_views();
        }
    }
}

/// Every term and every prefix sum of the prediction dot product stays
/// representable.
pub open spec fn pred_fits(x: Seq<i64>, nums: Seq<i128>) -> bool {
    &&& forall|k: int| 0 <= k < x.len() ==> in_i128(#[trigger] (x[k] * nums[k]))
    &&& forall|k: int| 0 <= k <= x.len() ==> in_i128(#[trigger] dot_query_prefix(x, nums, k))
}

impl crate::IncrementalDecrementalModel<Example, Vec<i64>, Result<Frac, ModelError>> for RidgeRegression {
    /// Structural well-formedness plus a weight vector that satisfies the
    /// current normal equations whenever one is held.
    open spec fn inv(&self) -> bool {
        self.wf() && self.solved()
    }

    /// `partial_fit` rejects examples of the wrong dimensionality before any
    /// mutation, reports a statistic that left the machine range, and
    /// otherwise adds exactly the batch's contributions and resolves the
    /// weight vector; a batch whose accumulation stays in range is never
    /// rejected.
    open spec fn fit_post(
        pre: Self,
        batch: Seq<Example>,
        post: Self,
        r: Result<(), ModelError>,
    ) -> bool {
        &&& match r {
            Ok(()) => {
                &&& dims_ok(batch, pre.p_spec())
                &&& ridge_fit_updated(pre, batch, post)
                &&& post.resolved()
            },
            Err(ModelError::DimensionMismatch) => {
                &&& !dims_ok(batch, pre.p_spec())
                &&& post == pre
            },
            Err(ModelError::CapacityExceeded) => {
                &&& dims_ok(batch, pre.p_spec())
                &&& !pre.fits(batch)
                &&& post.p_spec() == pre.p_spec()
                &&& post.wopt() is None
            },
            Err(_) => false,
        }
        &&& (dims_ok(batch, pre.p_spec()) && pre.fits(batch) ==> r is Ok)
    }

    /// `forget` rejects a wrong dimensionality or a decrement that would
    /// leave the machine range before any mutation; otherwise it removes
    /// exactly the example's contributions and resolves the weight vector.
    open spec fn forget_post(pre: Self, unit: Example, post: Self, r: Result<(), ModelError>) -> bool {
        match r {
            Ok(()) => {
                &&& unit.features@.len() == pre.p_spec()
                &&& pre.forget_fits(unit)
                &&& ridge_forget_updated(pre, unit, post)
                &&& post.resolved()
            },
            Err(ModelError::DimensionMismatch) => {
                &&& unit.features@.len() != pre.p_spec()
                &&& post == pre
            },
            Err(ModelError::CapacityExceeded) => {
                &&& unit.features@.len() == pre.p_spec()
                &&& !pre.forget_fits(unit)
                &&& post == pre
            },
            Err(_) => false,
        }
    }

    /// Predictions are answered for query vectors of the configured
    /// dimensionality.
    open spec fn query_ok(&self, q: Vec<i64>) -> bool {
        q@.len() == self.p_spec()
    }

    /// `predict` returns the exact dot product of the query and the held
    /// weight vector as a rational with the weights' denominator; it reports
    /// a missing weight vector as numerical instability, and a dot product
    /// that leaves the machine range as a capacity failure.
    open spec fn predict_post(&self, q: Vec<i64>, r: Result<Frac, ModelError>) -> bool {
        &&& match r {
            Ok(f) => {
                &&& self.wopt() matches Some(w) && f.den == w.den && f.num as int
                    == dot_query_prefix(q@, w.nums@, q@.len() as int)
            },
            Err(ModelError::NumericalInstability) => self.wopt() is None,
            Err(ModelError::CapacityExceeded) => self.wopt() is Some,
            Err(_) => false,
        }
        &&& (self.wopt() matches Some(w) && pred_fits(q@, w.nums@) ==> r is Ok)
    }

    fn partial_fit(&mut self, data: &[Example]) -> (r: Result<(), ModelError>) {
        let p = self.p;
        let dlen = data.len();
        let mut w: usize = 0;
        while w < dlen
            invariant
                w <= dlen,
                dlen == data@.len(),
                p == self.p,
                *self == *old(self),
                old(self).wf(),
                old(self).solved(),
                forall|i: int| 0 <= i < w ==> (#[trigger] data@[i]).features@.len() == p,
            decreases dlen - w,
        {
            if data[w].features.len() != p {
                proof {
                    assert(!dims_ok(data@, self.p_spec()));
                }
                return Err(ModelError::DimensionMismatch);
            }
            w = w + 1;
        }
        let ghost pre = *self;
        let ok = self.accumulate(data);
        if !ok {
            self.weights = None;
            return Err(ModelError::CapacityExceeded);
        }
        self.refresh_weights();
        proof {
            assert(ridge_fit_updated(pre, data@, *self));
        }
        Ok(())
    }

    fn forget(&mut self, data: &Example) -> (r: Result<(), ModelError>) {
        let p = self.p;
        if data.features.len() != p {
            return Err(ModelError::DimensionMismatch);
        }
        let ghost pre = *self;
        // Validate and stage every decrement before any mutation.
        let mut new_gram: Vec<Vec<i128>> = Vec::new();
        let mut i: usize = 0;
        while i < p
            invariant
                i <= p,
                p == self.p,
                *self == *old(self),
                pre == *old(self),
                old(self).wf(),
                old(self).solved(),
                data.features@.len() == p,
                new_gram@.len() == i,
                forall|a: int| 0 <= a < i ==> (#[trigger] new_gram@[a])@.len() == p,
                forall|a: int, b: int|
                    0 <= a < i && 0 <= b < p ==> (#[trigger] new_gram@[a]@[b]) as int == pre.gval(
                        a,
                        b,
                    ) - ex_gram(*data, a, b),
            decreases p - i,
        {
            let xi = data.features[i];
            let mut row: Vec<i128> = Vec::new();
            let mut j: usize = 0;
            while j < p
                invariant
                    j <= p,
                    i < p,
                    p == self.p,
                    *self == *old(self),
                    pre == *old(self),
                    old(self).wf(),
                    old(self).solved(),
                    data.features@.len() == p,
                    xi == data.features@[i as int],
                    row@.len() == j,
                    forall|b: int|
                        0 <= b < j ==> (#[trigger] row@[b]) as int == pre.gval(i as int, b)
                            - ex_gram(*data, i as int, b),
                decreases p - j,
            {
                let xj = data.features[j];
                proof {
                    assert((xi as int) * (xj as int) <= i128::MAX && (xi as int) * (xj as int)
                        >= i128::MIN) by (nonlinear_arith)
                        requires
                            i64::MIN <= xi <= i64::MAX,
                            i64::MIN <= xj <= i64::MAX,
                    ;
                }
                let term = (xi as i128) * (xj as i128);
                let cur = self.gram[i][j];
                proof {
                    assert(cur == pre.gval(i as int, j as int));
                    assert(term == ex_gram(*data, i as int, j as int));
                }
                let next = match cur.checked_sub(term) {
                    Some(v) => v,
                    None => {
                        proof {
                            assert(!in_i128(
                                pre.gval(i as int, j as int) - ex_gram(*data, i as int, j as int),
                            ));
                            assert(!pre.forget_fits(*data));
                        }
                        return Err(ModelError::CapacityExceeded);
                    },
                };
                row.push(next);
                j = j + 1;
            }
            new_gram.push(row);
            i = i + 1;
        }
        let mut new_z: Vec<i128> = Vec::new();
        let y = data.target;
        let mut i: usize = 0;
        while i < p
            invariant
                i <= p,
                p == self.p,
                *self == *old(self),
                pre == *old(self),
                old(self).wf(),
                old(self).solved(),
                data.features@.len() == p,
                y == data.target,
                new_z@.len() == i,
                forall|a: int|
                    0 <= a < i ==> (#[trigger] new_z@[a]) as int == pre.zval(a) - ex_zv(*data, a),
            decreases p - i,
        {
            let xi = data.features[i];
            proof {
                assert((y as int) * (xi as int) <= i128::MAX && (y as int) * (xi as int)
                    >= i128::MIN) by (nonlinear_arith)
                    requires
                        i64::MIN <= y <= i64::MAX,
                        i64::MIN <= xi <= i64::MAX,
                ;
            }
            let term = (y as i128) * (xi as i128);
            let cur = self.z[i];
            proof {
                assert(cur == pre.zval(i as int));
                assert(term == ex_zv(*data, i as int));
            }
            let next = match cur.checked_sub(term) {
                Some(v) => v,
                None => {
                    proof {
                        assert(!in_i128(pre.zval(i as int) - ex_zv(*data, i as int)));
                        assert(!pre.forget_fits(*data));
                    }
                    return Err(ModelError::CapacityExceeded);
                },
            };
            new_z.push(next);
            i = i + 1;
        }
        self.gram = new_gram;
        self.z = new_z;
        self.refresh_weights();
        proof {
            assert(pre.forget_fits(*data)) by {
                assert forall|a: int, b: int|
                    0 <= a < pre.p_spec() && 0 <= b < pre.p_spec() implies in_i128(
                    pre.gval(a, b) - #[trigger] ex_gram(*data, a, b),
                ) by {
                    assert((new_gram@[a]@[b]) as int == pre.gval(a, b) - ex_gram(*data, a, b));
                }
                assert forall|a: int| 0 <= a < pre.p_spec() implies in_i128(
                    pre.zval(a) - #[trigger] ex_zv(*data, a),
                ) by {
                    assert((new_z@[a]) as int == pre.zval(a) - ex_zv(*data, a));
                }
            }
            assert(ridge_forget_updated(pre, *data, *self));
        }
        Ok(())
    }

    fn predict(&self, data: &Vec<i64>) -> (r: Result<Frac, ModelError>) {
        let den = match &self.weights {
            Some(w) => w.den,
            None => {
                return Err(ModelError::NumericalInstability);
            },
        };
        let p = data.len();
        let mut acc: i128 = 0;
        let mut j: usize = 0;
        let ghost nums = self.wopt()->Some_0.nums@;
        while j < p
            invariant
                j <= p,
                p == data@.len(),
                self.wf(),
                self.solved(),
                data@.len() == self.p_spec(),
                self.wopt() is Some,
                nums == self.wopt()->Some_0.nums@,
                nums.len() == self.p_spec(),
                acc as int == dot_query_prefix(data@, nums, j as int),
            decreases p - j,
        {
            let x = data[j];
            let wn = match &self.weights {
                Some(w) => w.nums[j],
                None => {
                    proof {
                        assert(false);
                    }
                    0
                },
            };
            proof {
                assert(wn == nums[j as int]);
            }
            let term = match (x as i128).checked_mul(wn) {
                Some(v) => v,
                None => {
                    proof {
                        assert(!in_i128(data@[j as int] * nums[j as int]));
                    }
                    return Err(ModelError::CapacityExceeded);
                },
            };
            let next = match acc.checked_add(term) {
                Some(v) => v,
                None => {
                    proof {
                        assert(!in_i128(dot_query_prefix(data@, nums, j + 1)));
                    }
                    return Err(ModelError::CapacityExceeded);
                },
            };
            acc = next;
            j = j + 1;
        }
        Ok(Frac { num: acc, den })
    }
}

} // verus!
