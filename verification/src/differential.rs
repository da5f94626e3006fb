//! Sample records for the streaming recomputation of the models' statistics.
//!
//! A categorical sample carries an identifier, the indices of its active
//! binary features, and a class label. Samples are compared by their
//! identifier alone, so re-submitting a record with the same id stands for
//! the same logical sample.

use vstd::prelude::*;

verus! {

/// A sample with categorical (binary) features, identified by `id`.
#[derive(Debug, Clone)]
pub struct CategoricalSample {
    pub id: u64,
    pub features: Vec<u32>,
    pub label: u8,
}

impl CategoricalSample {
    /// Package an identifier, active feature indices and a label.
    pub fn new(id: u64, features: Vec<u32>, label: u8) -> (s: CategoricalSample)
        ensures
            s.id == id,
            s.features@ == features@,
            s.label == label,
    {
        CategoricalSample { id, features, label }
    }
}

impl PartialEq for CategoricalSample {
    /// Samples are the same exactly when their identifiers are.
    fn eq(&self, other: &Self) -> (r: bool) {
        self.id == other.id
    }
}

impl vstd::std_specs::cmp::PartialEqSpecImpl for CategoricalSample {
    open spec fn obeys_eq_spec() -> bool {
        true
    }

    open spec fn eq_spec(&self, other: &Self) -> bool {
        self.id == other.id
    }
}

impl Eq for CategoricalSample {}

} // verus!
