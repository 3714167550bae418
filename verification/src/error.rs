//! The ways in which a planning round can break its own rules.
use vstd::prelude::*;

verus! {

/// An invariant violation met while planning. Each one is fatal to the round
/// in which it occurs.
#[derive(Clone, Copy, Debug, PartialEq, Eq, Structural)]
pub enum PlanError {
    /// A saving index was read that was never written.
    MissingCheckpoint,
    /// A saving index was written a second time.
    DuplicateCheckpoint,
    /// A child was added under an action that already has one.
    ChildAlreadyExists,
    /// A task was assigned while every worker was busy.
    NoIdleWorker,
    /// No action of the node has an unsaturated child.
    NoSelectableChild,
    /// A simulation id was used where the node or registry does not hold it
    /// in the state that the operation needs.
    UnknownTaskId,
    /// A simulation id was recorded or registered a second time.
    DuplicateTaskId,
}

} // verus!
