//! The pollable task.

use vstd::prelude::*;

verus! {

/// A computation in progress that is advanced by polling.
///
/// Each call of [`poll`](SimpleFuture::poll) either answers `None`, "not yet",
/// or completes with `Some` result. Nothing wakes a task up: whoever drives it
/// simply polls it again. Once a task has completed, nothing is promised of
/// further polls, so a driver must not poll it again.
///
/// The three spec functions are the task's model, as a function of its
/// current state. An implementation that vouches for its own completion
/// overrides all three; `poll` is then verified against them. The defaults
/// claim nothing: a task that states no model is not known to complete, and
/// its polls may answer anything.
pub trait SimpleFuture {
    /// The type of the result that the task completes with.
    type Output;

    /// Whether the task is known to complete: the next `pending_polls()`
    /// polls answer "not yet" and the poll after them completes with
    /// `outcome()`.
    open spec fn completes(&self) -> bool {
        false
    }

    /// The number of polls that still answer "not yet" before the poll that
    /// completes. Meaningful where `completes()` holds.
    open spec fn pending_polls(&self) -> nat {
        0
    }

    /// The result that the completing poll hands out. Meaningful where
    /// `completes()` holds.
    open spec fn outcome(&self) -> Self::Output {
        arbitrary()
    }

    /// Advances the task by one step.
    ///
    /// For a task that `completes()`, the poll answers `Some(outcome())`
    /// exactly when no pending polls are left; otherwise it answers `None`,
    /// uses up one pending poll and leaves the outcome as it was.
    fn poll(&mut self) -> (r: Option<Self::Output>)
        ensures
            old(self).completes() && old(self).pending_polls() == 0 ==> r == Some(
                old(self).outcome(),
            ),
            old(self).completes() && old(self).pending_polls() > 0 ==> r is None,
            old(self).completes() && old(self).pending_polls() > 0 ==> final(self).completes(),
            old(self).completes() && old(self).pending_polls() > 0 ==> final(self).pending_polls()
                == old(self).pending_polls() - 1,
            old(self).completes() && old(self).pending_polls() > 0 ==> final(self).outcome() == old(
                self,
            ).outcome(),
    ;
}

} // verus!
