use amnesia::multinomial_nb::{MNBFeatures, MultinomialNaiveBayes};
use amnesia::ModelError;

#[test]
fn counts_accumulate_per_label() {
    let mut model = MultinomialNaiveBayes::new(2, 10);
    let batch = vec![
        (MNBFeatures::new(vec![(1, 2), (3, 1)]), 0u8),
        (MNBFeatures::new(vec![(1, 1)]), 1u8),
        (MNBFeatures::new(vec![(3, 4)]), 0u8),
    ];
    model.partial_fit(&batch).unwrap();

    assert_eq!(model.feature_count(0, 1), 2);
    assert_eq!(model.feature_count(0, 3), 5);
    assert_eq!(model.feature_count(1, 1), 1);
    assert_eq!(model.label_count(0), 7);
    assert_eq!(model.label_count(1), 1);
}

#[test]
fn forget_restores_fresh_fit() {
    let e0 = (MNBFeatures::new(vec![(1, 2), (3, 1)]), 0u8);
    let e1 = (MNBFeatures::new(vec![(1, 1), (2, 5)]), 1u8);
    let e2 = (MNBFeatures::new(vec![(3, 4)]), 0u8);

    let mut model = MultinomialNaiveBayes::new(2, 10);
    model
        .partial_fit(&vec![e0.clone(), e1.clone(), e2.clone()])
        .unwrap();
    model.forget(&e1).unwrap();

    let mut fresh = MultinomialNaiveBayes::new(2, 10);
    fresh.partial_fit(&vec![e0, e2]).unwrap();

    for l in 0..2u8 {
        assert_eq!(model.label_count(l), fresh.label_count(l));
        for x in 0..10u32 {
            assert_eq!(model.feature_count(l, x), fresh.feature_count(l, x));
        }
    }
}

#[test]
fn forget_rejects_example_never_fit() {
    let mut model = MultinomialNaiveBayes::new(2, 10);
    model
        .partial_fit(&vec![(MNBFeatures::new(vec![(1, 2)]), 0u8)])
        .unwrap();

    let r = model.forget(&(MNBFeatures::new(vec![(1, 3)]), 0u8));
    assert_eq!(r, Err(ModelError::UnitNotFit));
    assert_eq!(model.feature_count(0, 1), 2);
}

#[test]
fn fit_rejects_invalid_label() {
    let mut model = MultinomialNaiveBayes::new(2, 10);
    let r = model.partial_fit(&vec![(MNBFeatures::new(vec![(1, 1)]), 2u8)]);
    assert_eq!(r, Err(ModelError::DimensionMismatch));
    assert_eq!(model.label_count(0), 0);
    assert_eq!(model.label_count(1), 0);
}
