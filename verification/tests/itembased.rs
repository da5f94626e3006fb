use amnesia::itembased::ItembasedCF;
use amnesia::score::Score;
use amnesia::IncrementalDecrementalModel;
use amnesia::ModelError;

#[test]
fn itembased_toy_example() {
    let interactions: Vec<Vec<u32>> = vec![vec![0, 1, 2], vec![0, 2], vec![1, 2]];

    let mut itembased_cf = ItembasedCF::new(3, 2);

    itembased_cf.partial_fit(&interactions).unwrap();
    itembased_cf.forget(&vec![0, 2]).unwrap();

    let interactions2: Vec<Vec<u32>> = vec![vec![0, 1, 2], vec![1, 2]];

    let mut itembased_cf2 = ItembasedCF::new(3, 2);
    itembased_cf2.partial_fit(&interactions2).unwrap();

    for a in 0..3u32 {
        assert_eq!(
            itembased_cf.interaction_count(a),
            itembased_cf2.interaction_count(a)
        );
        for b in 0..3u32 {
            assert_eq!(itembased_cf.count(a, b), itembased_cf2.count(a, b));
            assert_eq!(itembased_cf.similarity(a, b), itembased_cf2.similarity(a, b));
        }
    }
}

#[test]
fn counts_after_fit_and_forget() {
    let interactions: Vec<Vec<u32>> = vec![vec![0, 1, 2], vec![0, 2], vec![1, 2]];
    let mut model = ItembasedCF::new(3, 2);
    model.partial_fit(&interactions).unwrap();

    assert_eq!(model.count(2, 0), 2);
    assert_eq!(model.count(2, 1), 2);
    assert_eq!(model.count(1, 0), 1);

    model.forget(&vec![0, 2]).unwrap();

    assert_eq!(model.count(2, 0), 1);
    assert_eq!(model.count(2, 1), 2);
    assert_eq!(model.count(1, 0), 1);
}

#[test]
fn similarity_is_exact_jaccard() {
    let interactions: Vec<Vec<u32>> = vec![vec![0, 2], vec![0, 2], vec![0, 1]];
    let mut model = ItembasedCF::new(3, 1);
    model.partial_fit(&interactions).unwrap();

    // count(0,2) = 2, n(0) = 3, n(2) = 2: similarity 2 / (3 + 2 - 2).
    assert_eq!(model.similarity(0, 2), Some(Score { num: 2, m: 5 }));
    // count(0,1) = 1, n(0) = 3, n(1) = 1: similarity 1 / (3 + 1 - 1).
    assert_eq!(model.similarity(0, 1), Some(Score { num: 1, m: 4 }));
    assert_eq!(model.similarity(1, 2), None);
}

#[test]
fn predict_returns_top_k() {
    let interactions: Vec<Vec<u32>> = vec![vec![0, 2], vec![0, 2], vec![0, 1]];
    let mut model = ItembasedCF::new(3, 1);
    model.partial_fit(&interactions).unwrap();

    // similarity(0,2) = 2/3 beats similarity(0,1) = 1/3, and k = 1.
    let top = model.predict(&0);
    assert_eq!(top, vec![2]);
}

#[test]
fn predict_returns_all_neighbors_when_fewer_than_k() {
    let interactions: Vec<Vec<u32>> = vec![vec![0, 1, 2]];
    let mut model = ItembasedCF::new(3, 10);
    model.partial_fit(&interactions).unwrap();

    let mut top = model.predict(&0);
    top.sort();
    assert_eq!(top, vec![1, 2]);
}

#[test]
fn fit_rejects_out_of_range_item() {
    let mut model = ItembasedCF::new(3, 2);
    let r = model.partial_fit(&vec![vec![0, 3]]);
    assert_eq!(r, Err(ModelError::DimensionMismatch));
    // Nothing was recorded.
    assert_eq!(model.interaction_count(0), 0);
}

#[test]
fn forget_rejects_out_of_range_item() {
    let mut model = ItembasedCF::new(3, 2);
    model.partial_fit(&vec![vec![0, 1]]).unwrap();
    let r = model.forget(&vec![0, 7]);
    assert_eq!(r, Err(ModelError::DimensionMismatch));
    assert_eq!(model.count(0, 1), 1);
}

#[test]
fn forget_rejects_history_never_fit() {
    let mut model = ItembasedCF::new(3, 2);
    model.partial_fit(&vec![vec![0, 1]]).unwrap();

    let r = model.forget(&vec![0, 2]);
    assert_eq!(r, Err(ModelError::UnitNotFit));
    // The failed removal left the statistics untouched.
    assert_eq!(model.count(0, 1), 1);
    assert_eq!(model.interaction_count(0), 1);
}

#[test]
fn duplicate_items_in_history_round_trip() {
    let mut model = ItembasedCF::new(3, 2);
    model.partial_fit(&vec![vec![2, 2, 1], vec![1, 2]]).unwrap();
    assert_eq!(model.count(2, 1), 3);
    assert_eq!(model.interaction_count(2), 3);

    model.forget(&vec![2, 2, 1]).unwrap();
    assert_eq!(model.count(2, 1), 1);
    assert_eq!(model.interaction_count(2), 1);

    let mut fresh = ItembasedCF::new(3, 2);
    fresh.partial_fit(&vec![vec![1, 2]]).unwrap();
    for a in 0..3u32 {
        assert_eq!(model.interaction_count(a), fresh.interaction_count(a));
        for b in 0..3u32 {
            assert_eq!(model.count(a, b), fresh.count(a, b));
        }
    }
}
