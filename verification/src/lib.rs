//! Exact incremental/decremental ("unlearning") models.
//!
//! Each model maintains sufficient statistics that can be updated when a
//! batch of training units arrives (`partial_fit`) and exactly downdated when
//! a previously fitted unit must be removed (`forget`), so that the state
//! after a removal is identical to the state of a model that never saw the
//! removed unit.

use vstd::prelude::*;

pub mod differential;
pub mod itembased;
pub mod multinomial_nb;
pub mod ridge;
pub mod score;
pub mod sparse;

verus! {

/// Failures of the incremental/decremental models.
#[derive(Clone, Copy, Debug, PartialEq, Eq, Structural)]
pub enum ModelError {
    /// An identifier or vector length disagrees with the configured
    /// dimensionality of the model.
    DimensionMismatch,
    /// A statistic would exceed the range of its machine representation.
    CapacityExceeded,
    /// A removal was requested for a unit whose contribution is not present
    /// in the statistics (detected as a count that would become negative).
    UnitNotFit,
    /// The accumulated statistics do not determine a weight vector that the
    /// exact solver can produce.
    NumericalInstability,
}

/// Shared contract of the incremental/decremental models: fitting a batch of
/// units of type `T`, forgetting a single previously fitted unit, and
/// answering queries of type `I` with results of type `O`.
///
/// Each implementation pins down what the operations do through the spec
/// functions `fit_post`, `forget_post` and `predict_post`.
pub trait IncrementalDecrementalModel<T, I, O>: Sized {
    /// Structural well-formedness of the model state, preserved by every
    /// operation.
    spec fn inv(&self) -> bool;

    /// Exact relation between the state before and after `partial_fit`,
    /// including which result the call returns.
    spec fn fit_post(pre: Self, batch: Seq<T>, post: Self, r: Result<(), ModelError>) -> bool;

    /// Exact relation between the state before and after `forget`,
    /// including which result the call returns.
    spec fn forget_post(pre: Self, unit: T, post: Self, r: Result<(), ModelError>) -> bool;

    /// Which queries `predict` accepts in the current state.
    spec fn query_ok(&self, q: I) -> bool;

    /// Exact characterization of a prediction.
    spec fn predict_post(&self, q: I, r: O) -> bool;

    /// Update the statistics to include every unit of `data`.
    fn partial_fit(&mut self, data: &[T]) -> (r: Result<(), ModelError>)
        requires
            old(self).inv(),
        ensures
            final(self).inv(),
            Self::fit_post(*old(self), data@, *final(self), r),
    ;

    /// Remove the contribution previously added by `partial_fit` for `data`.
    fn forget(&mut self, data: &T) -> (r: Result<(), ModelError>)
        requires
            old(self).inv(),
        ensures
            final(self).inv(),
            Self::forget_post(*old(self), *data, *final(self), r),
    ;

    /// Pure read of the current statistics.
    fn predict(&self, data: &I) -> (r: O)
        requires
            self.inv(),
            self.query_ok(*data),
        ensures
            self.predict_post(*data, r),
    ;
}

} // verus!
