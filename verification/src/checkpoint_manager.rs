//! The checkpoint store: snapshots of the rewriting engine, by saving index.
use crate::error::PlanError;
use std::collections::HashMap;
use vstd::prelude::*;

verus! {

broadcast use vstd::std_specs::hash::group_hash_axioms;

/// Maps each saving index written in the current round to its snapshot.
/// An index is written at most once between two calls of `clear`.
pub struct CheckpointerManager<S> {
    buffer: HashMap<u32, S>,
}

impl<S> View for CheckpointerManager<S> {
    type V = Map<u32, S>;

    closed spec fn view(&self) -> Map<u32, S> {
        self.buffer@
    }
}

impl<S> CheckpointerManager<S> {
    /// An empty store.
    pub fn new() -> (store: Self)
        ensures
            store@ == Map::<u32, S>::empty(),
    {
        CheckpointerManager { buffer: HashMap::new() }
    }

    /// Forgets every snapshot.
    pub fn clear(&mut self)
        ensures
            final(self)@ == Map::<u32, S>::empty(),
    {
        self.buffer.clear();
    }

    /// Whether `global_saving_idx` has been written.
    pub fn contains(&self, global_saving_idx: u32) -> (held: bool)
        ensures
            held == self@.contains_key(global_saving_idx),
    {
        self.buffer.contains_key(&global_saving_idx)
    }

    /// The number of snapshots held.
    pub fn len(&self) -> (n: usize)
        ensures
            n == self@.len(),
    {
        self.buffer.len()
    }

    /// Writes `snapshot` at `global_saving_idx`. A second write to the same
    /// index is refused and leaves the store as it was.
    pub fn checkpoint_env(&mut self, global_saving_idx: u32, snapshot: S) -> (written: Result<
        (),
        PlanError,
    >)
        ensures
            old(self)@.contains_key(global_saving_idx) ==> written == Err::<(), PlanError>(
                PlanError::DuplicateCheckpoint,
            ) && final(self)@ == old(self)@,
            !old(self)@.contains_key(global_saving_idx) ==> written.is_ok() && final(self)@ == old(
                self,
            )@.insert(global_saving_idx, snapshot),
    {
        if self.buffer.contains_key(&global_saving_idx) {
            return Err(PlanError::DuplicateCheckpoint);
        }
        self.buffer.insert(global_saving_idx, snapshot);
        Ok(())
    }

    /// A copy of the snapshot written at `global_saving_idx`.
    pub fn retrieve(&self, global_saving_idx: u32) -> (found: Result<S, PlanError>) where S: Clone
        ensures
            self@.contains_key(global_saving_idx) ==> found.is_ok() && cloned(
                self@[global_saving_idx],
                found.unwrap(),
            ),
            !self@.contains_key(global_saving_idx) ==> found == Err::<S, PlanError>(
                PlanError::MissingCheckpoint,
            ),
    {
        match self.buffer.get(&global_saving_idx) {
            Some(snapshot) => Ok(snapshot.clone()),
            None => Err(PlanError::MissingCheckpoint),
        }
    }
}

} // verus!
