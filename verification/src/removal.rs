//! The removal executor: walks a vetted candidate list one item at a time,
//! never re-discovering, never aborting the batch on a single failure, and
//! accounting for what was removed, skipped or failed. The caller performs
//! the actual filesystem action for each candidate the executor hands out
//! and records the outcome; in dry-run mode the executor hands out nothing.

use vstd::prelude::*;
use crate::{FileItem, cap_u64, sat_add_u64};

verus! {

/// What became of one removal attempt.
#[derive(Debug, Clone, Copy, PartialEq, Eq, Structural)]
pub enum AttemptOutcome {
    /// The candidate was removed.
    Removed,
    /// The safety check skipped the candidate (for example, it had already vanished).
    Skipped,
    /// The removal was attempted and failed; the batch goes on.
    Failed,
}

/// The totals of one removal batch.
#[derive(Debug, Clone, Copy, PartialEq, Eq, Structural)]
pub struct RemovalReport {
    pub attempted: usize,
    pub removed: usize,
    pub skipped: usize,
    pub failed: usize,
    pub freed: u64,
}

/// Sequential executor over a fixed candidate list.
pub struct RemovalExecutor {
    pub candidates: Vec<FileItem>,
    pub dry_run: bool,
    pub next: usize,
    pub removed: usize,
    pub skipped: usize,
    pub failed: usize,
    pub freed: u64,
}

impl RemovalExecutor {
    /// Every processed candidate is accounted for exactly once, and a
    /// dry-run executor never starts processing at all.
    pub open spec fn wf(self) -> bool {
        &&& self.next <= self.candidates@.len()
        &&& self.removed + self.skipped + self.failed == self.next
        &&& (self.dry_run ==> self.next == 0)
    }

    /// Takes ownership of the vetted candidate list; nothing outside it will
    /// ever be handed out for removal.
    pub fn new(candidates: Vec<FileItem>, dry_run: bool) -> (r: Self)
        ensures
            r.wf(),
            r.candidates@ == candidates@,
            r.dry_run == dry_run,
            r.next == 0,
            r.removed == 0,
            r.skipped == 0,
            r.failed == 0,
            r.freed == 0,
    {
        RemovalExecutor {
            candidates,
            dry_run,
            next: 0,
            removed: 0,
            skipped: 0,
            failed: 0,
            freed: 0,
        }
    }

    /// The next candidate to act on, or `None` when the batch is done.
    /// In dry-run mode this is always `None`: a dry run performs zero
    /// filesystem mutations whatever the inventory holds.
    pub fn next_candidate(&self) -> (r: Option<FileItem>)
        requires
            self.wf(),
        ensures
            self.dry_run ==> r is None,
            !self.dry_run && self.next < self.candidates@.len() ==> (r matches Some(it)
                && it@ == self.candidates@[self.next as int]@),
            !self.dry_run && self.next >= self.candidates@.len() ==> r is None,
    {
        if self.dry_run {
            None
        } else if self.next < self.candidates.len() {
            Some(self.candidates[self.next].clone())
        } else {
            None
        }
    }

    /// Records the outcome of acting on the current candidate and moves on
    /// to the next one — whatever the outcome was, so one failure never
    /// prevents the remaining candidates from being attempted.
    pub fn record(&mut self, outcome: AttemptOutcome)
        requires
            old(self).wf(),
            !old(self).dry_run,
            old(self).next < old(self).candidates@.len(),
        ensures
            final(self).wf(),
            final(self).candidates@ == old(self).candidates@,
            final(self).dry_run == old(self).dry_run,
            final(self).next == old(self).next + 1,
            final(self).removed == old(self).removed + (if outcome == AttemptOutcome::Removed {
                1int
            } else {
                0int
            }),
            final(self).skipped == old(self).skipped + (if outcome == AttemptOutcome::Skipped {
                1int
            } else {
                0int
            }),
            final(self).failed == old(self).failed + (if outcome == AttemptOutcome::Failed {
                1int
            } else {
                0int
            }),
            final(self).freed == if outcome == AttemptOutcome::Removed {
                cap_u64(
                    old(self).freed + old(self).candidates@[old(self).next as int].size,
                )
            } else {
                old(self).freed
            },
    {
        let n = self.candidates.len();
        match outcome {
            AttemptOutcome::Removed => {
                self.freed = sat_add_u64(self.freed, self.candidates[self.next].size);
                self.removed = self.removed + 1;
            },
            AttemptOutcome::Skipped => {
                self.skipped = self.skipped + 1;
            },
            AttemptOutcome::Failed => {
                self.failed = self.failed + 1;
            },
        }
        self.next = self.next + 1;
    }

    /// Whether every candidate has been processed (a dry run is complete
    /// from the start).
    pub fn is_complete(&self) -> (r: bool)
        requires
            self.wf(),
        ensures
            r == (self.dry_run || self.next == self.candidates@.len()),
    {
        self.dry_run || self.next == self.candidates.len()
    }

    /// The batch totals so far.
    pub fn report(&self) -> (r: RemovalReport)
        ensures
            r.attempted == self.next,
            r.removed == self.removed,
            r.skipped == self.skipped,
            r.failed == self.failed,
            r.freed == self.freed,
    {
        RemovalReport {
            attempted: self.next,
            removed: self.removed,
            skipped: self.skipped,
            failed: self.failed,
            freed: self.freed,
        }
    }
}

} // verus!
