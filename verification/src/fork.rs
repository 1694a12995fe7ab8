//! The fork: a binary exclusive-hold primitive.
//!
//! A fork is either `Free` or `Occupied`. The only way to occupy it is
//! `pick_up`, a single atomic observe-Free-then-set-Occupied step, so two
//! agents can never both believe they hold the same fork. `put_down` sets
//! it back to `Free` unconditionally.

use vstd::prelude::*;

verus! {

/// The observable status of a fork.
#[derive(Clone, Copy, PartialEq, Eq, Structural, Debug)]
pub enum Status {
    Occupied,
    Free,
}

/// An exclusive-hold resource in the ring, identified by its index.
#[derive(Clone, Copy, PartialEq, Eq, Structural, Debug)]
pub struct Fork {
    pub id: usize,
    pub status: Status,
}

impl Fork {
    /// A fork starts its life free.
    pub fn new(id: usize) -> (f: Fork)
        ensures
            f.id == id,
            f.status == Status::Free,
    {
        Fork { id, status: Status::Free }
    }

    /// Non-mutating snapshot of the status. Never the sole basis for a
    /// mutation decision: acquiring goes through `pick_up` alone.
    pub fn is_free(&self) -> (r: bool)
        ensures
            r == (self.status == Status::Free),
    {
        self.status == Status::Free
    }

    /// Atomic check-and-set acquisition step: succeeds exactly when the fork
    /// was free, and then occupies it; a fork already occupied is left
    /// unchanged. A caller that needs to block retries until this succeeds.
    pub fn pick_up(&mut self) -> (r: bool)
        ensures
            r == (old(self).status == Status::Free),
            final(self).id == old(self).id,
            final(self).status == (if r { Status::Occupied } else { old(self).status }),
    {
        match self.status {
            Status::Free => {
                self.status = Status::Occupied;
                true
            }
            Status::Occupied => false,
        }
    }

    /// Release: the fork becomes free unconditionally, which lets an agent
    /// blocked on `pick_up` succeed on its next attempt.
    pub fn put_down(&mut self)
        ensures
            final(self).id == old(self).id,
            final(self).status == Status::Free,
    {
        self.status = Status::Free;
    }
}

} // verus!
