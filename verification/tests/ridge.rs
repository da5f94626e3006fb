use amnesia::ridge::{Example, RidgeRegression};
use amnesia::IncrementalDecrementalModel;
use amnesia::ModelError;

// The design matrix and targets of the two-feature regression scenario,
// scaled by 1e6 so each decimal value is an exact integer.
fn scenario_examples() -> Vec<Example> {
    vec![
        Example::new(vec![130010, -223675], 475747),
        Example::new(vec![-504190, -223675], -84074),
        Example::new(vec![502476, -223675], 228626),
        Example::new(vec![-735723, -1537767], -867025),
        Example::new(vec![1257476, 1090417], 1595389),
    ]
}

#[test]
fn forget_one() {
    let examples = scenario_examples();

    let mut ridge = RidgeRegression::new(&examples, 2).unwrap();

    let example_to_forget = Example::new(vec![1257476, 1090417], 1595389);

    ridge.forget(&example_to_forget).unwrap();

    println!("RIDGE FORGET\n{:?}", ridge.weights());

    let ridge2 = RidgeRegression::new(&examples[0..4], 2).unwrap();

    println!("RIDGE RETRAIN\n{:?}", ridge2.weights());

    for i in 0..2 {
        assert_eq!(ridge.z_entry(i), ridge2.z_entry(i));
        for j in 0..2 {
            assert_eq!(ridge.gram_entry(i, j), ridge2.gram_entry(i, j));
        }
    }

    let w1 = ridge.weights().as_ref().unwrap();
    let w2 = ridge2.weights().as_ref().unwrap();
    assert_eq!(w1.nums, w2.nums);
    assert_eq!(w1.den, w2.den);
}

#[test]
fn weights_satisfy_normal_equations() {
    let examples = scenario_examples();
    let ridge = RidgeRegression::new(&examples, 2).unwrap();
    let w = ridge.weights().as_ref().unwrap();
    assert!(w.den >= 1);
    for i in 0..2 {
        let mut lhs: i128 = 0;
        for j in 0..2 {
            lhs += ridge.gram_entry(i, j) * w.nums[j];
        }
        assert_eq!(lhs, ridge.z_entry(i) * w.den);
    }
}

#[test]
fn predict_is_exact_dot_product() {
    let examples = scenario_examples();
    let ridge = RidgeRegression::new(&examples, 2).unwrap();
    let w = ridge.weights().as_ref().unwrap();
    let den = w.den;
    let n0 = w.nums[0];
    let n1 = w.nums[1];

    let f = ridge.predict(&vec![2, 3]).unwrap();
    assert_eq!(f.num, 2 * n0 + 3 * n1);
    assert_eq!(f.den, den);
}

#[test]
fn fit_rejects_wrong_dimensionality() {
    let r = RidgeRegression::new(&vec![Example::new(vec![1, 2, 3], 4)], 2);
    assert!(matches!(r, Err(ModelError::DimensionMismatch)));

    let mut ridge = RidgeRegression::new(&scenario_examples(), 2).unwrap();
    let r = ridge.partial_fit(&vec![Example::new(vec![5], 6)]);
    assert_eq!(r, Err(ModelError::DimensionMismatch));
    let r = ridge.forget(&Example::new(vec![5], 6));
    assert_eq!(r, Err(ModelError::DimensionMismatch));
}

#[test]
fn degenerate_statistics_give_no_weights() {
    // A single example along one axis leaves the Gram matrix singular.
    let examples = vec![Example::new(vec![1, 0], 1)];
    let ridge = RidgeRegression::new(&examples, 2).unwrap();
    assert!(ridge.weights().is_none());
    let r = ridge.predict(&vec![1, 1]);
    assert_eq!(r, Err(ModelError::NumericalInstability));
}

#[test]
fn fit_reports_overflowing_statistics() {
    // Three maximal squares exceed the 128-bit accumulator.
    let huge = Example::new(vec![i64::MAX], i64::MAX);
    let mut ridge = RidgeRegression::new(&vec![huge.clone(), huge.clone()], 1).unwrap();
    let r = ridge.partial_fit(&vec![huge]);
    assert_eq!(r, Err(ModelError::CapacityExceeded));
    assert!(ridge.weights().is_none());
}

#[test]
fn forget_reports_overflowing_decrement() {
    // Two examples drive the off-diagonal Gram entry close to the lower
    // bound; removing a mirrored example would leave the representable range,
    // and the rejected removal changes nothing.
    let e = Example::new(vec![i64::MAX, -i64::MAX], 0);
    let mut ridge = RidgeRegression::new(&vec![e.clone(), e], 2).unwrap();
    let before = ridge.gram_entry(0, 1);
    let r = ridge.forget(&Example::new(vec![i64::MAX, i64::MAX], 0));
    assert_eq!(r, Err(ModelError::CapacityExceeded));
    assert_eq!(ridge.gram_entry(0, 1), before);
}

#[test]
fn incremental_fit_matches_single_fit() {
    let examples = scenario_examples();
    let mut a = RidgeRegression::new(&examples[0..2], 2).unwrap();
    a.partial_fit(&examples[2..5]).unwrap();
    let b = RidgeRegression::new(&examples, 2).unwrap();
    for i in 0..2 {
        assert_eq!(a.z_entry(i), b.z_entry(i));
        for j in 0..2 {
            assert_eq!(a.gram_entry(i, j), b.gram_entry(i, j));
        }
    }
    assert_eq!(
        a.weights().as_ref().unwrap().nums,
        b.weights().as_ref().unwrap().nums
    );
}
