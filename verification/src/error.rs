//! The failures that the store and the engine report.

use vstd::prelude::*;

verus! {

/// Why an operation was refused. A request that cannot be fully served is
/// not a failure: it is reported as a shortfall in the outcome.
#[derive(Clone, Copy, Debug, PartialEq, Eq, Structural)]
pub enum AppError {
    /// The store cannot hold or does not hold valid data: persisted rows are
    /// corrupt, or the store is full.
    PersistenceError,
    /// The lot that was named is not in the store.
    NotFound,
    /// A quantity lies outside the range that keeps every lot positive.
    InvariantViolation,
    /// A lot was no longer as the consumption had read it; nothing was changed.
    ConcurrentModification,
}

} // verus!
