use amnesia::score::{score_le_exec, Score};

#[test]
fn rational_scores_order_by_value() {
    // 1/3 < 2/3
    let third = Score { num: 1, m: 4 };
    let two_thirds = Score { num: 2, m: 5 };
    assert!(score_le_exec(third, two_thirds));
    assert!(!score_le_exec(two_thirds, third));

    // 2/4 == 1/2
    let half_a = Score { num: 2, m: 6 };
    let half_b = Score { num: 1, m: 3 };
    assert!(score_le_exec(half_a, half_b));
    assert!(score_le_exec(half_b, half_a));
}

#[test]
fn zero_and_unbounded_scores_sort_at_the_ends() {
    let zero = Score { num: 0, m: 9 };
    let finite = Score { num: 3, m: 10 };
    // A pair with count zero sits below every positive similarity.
    assert!(score_le_exec(zero, finite));
    assert!(!score_le_exec(finite, zero));

    // A zero denominator with a positive count dominates everything.
    let unbounded = Score { num: 5, m: 5 };
    assert!(score_le_exec(finite, unbounded));
    assert!(!score_le_exec(unbounded, finite));
}

#[test]
fn sample_records_compare_by_id() {
    let a = amnesia::differential::CategoricalSample::new(7, vec![1, 2], 0);
    let b = amnesia::differential::CategoricalSample::new(7, vec![3], 1);
    let c = amnesia::differential::CategoricalSample::new(8, vec![1, 2], 0);
    assert!(a == b);
    assert!(a != c);
    assert_eq!(a.id, 7);
    assert_eq!(a.features, vec![1, 2]);
    assert_eq!(a.label, 0);
}
