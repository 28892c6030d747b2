//! Thread-safe-by-discipline outcome tallies.
//!
//! A `CheckResult` is the aggregate of one run: a total and one counter per
//! outcome kind. Workers mutate it one `record` at a time (the enclosing
//! program is responsible for serializing those calls); after the pool joins,
//! it is read without further synchronization because no writer remains.

use vstd::prelude::*;

use crate::outcome::Outcome;

verus! {

/// Aggregate counters for one run, partitioned by outcome kind.
pub struct CheckResult {
    /// Number of items recorded so far.
    pub total: usize,
    /// Items whose outcome was `Success`.
    pub valid: usize,
    /// Items whose outcome was `Skipped(..)` or `Unsupported`.
    pub skipped: usize,
    /// Items whose outcome was `Failed(..)`.
    pub corrupted: usize,
}

/// How many outcomes in `os` count as successes.
pub open spec fn count_success(os: Seq<Outcome>) -> nat
    decreases os.len(),
{
    if os.len() == 0 {
        0
    } else {
        count_success(os.drop_last()) + if os.last().is_success() {
            1nat
        } else {
            0nat
        }
    }
}

/// How many outcomes in `os` count as skips.
pub open spec fn count_skip(os: Seq<Outcome>) -> nat
    decreases os.len(),
{
    if os.len() == 0 {
        0
    } else {
        count_skip(os.drop_last()) + if os.last().is_skip() {
            1nat
        } else {
            0nat
        }
    }
}

/// How many outcomes in `os` count as failures.
pub open spec fn count_failure(os: Seq<Outcome>) -> nat
    decreases os.len(),
{
    if os.len() == 0 {
        0
    } else {
        count_failure(os.drop_last()) + if os.last().is_failure() {
            1nat
        } else {
            0nat
        }
    }
}

/// Every outcome is exactly one of success, skip, failure; so the three
/// counts of any outcome sequence sum to its length.
pub proof fn lemma_counts_partition(os: Seq<Outcome>)
    ensures
        count_success(os) + count_skip(os) + count_failure(os) == os.len(),
    decreases os.len(),
{
    if os.len() > 0 {
        lemma_counts_partition(os.drop_last());
    }
}

impl CheckResult {
    /// The counters of a run are consistent: the per-kind tallies partition
    /// the total.
    pub open spec fn wf(&self) -> bool {
        self.valid + self.skipped + self.corrupted == self.total
    }

    /// These counters are exactly the tally of the outcome sequence `os`.
    pub open spec fn is_tally_of(&self, os: Seq<Outcome>) -> bool {
        &&& self.total == os.len()
        &&& self.valid == count_success(os)
        &&& self.skipped == count_skip(os)
        &&& self.corrupted == count_failure(os)
    }

    /// Empty counters, for the start of a run.
    pub fn new() -> (r: CheckResult)
        ensures
            r.total == 0,
            r.valid == 0,
            r.skipped == 0,
            r.corrupted == 0,
    {
        CheckResult { total: 0, valid: 0, skipped: 0, corrupted: 0 }
    }

    /// Tally one outcome: the matching counter and the total each grow by
    /// one, the other counters are untouched, and consistency is preserved.
    pub fn record(&mut self, outcome: &Outcome)
        requires
            old(self).wf(),
            old(self).total < usize::MAX,
        ensures
            final(self).wf(),
            final(self).total == old(self).total + 1,
            final(self).valid == old(self).valid + if outcome.is_success() {
                1int
            } else {
                0int
            },
            final(self).skipped == old(self).skipped + if outcome.is_skip() {
                1int
            } else {
                0int
            },
            final(self).corrupted == old(self).corrupted + if outcome.is_failure() {
                1int
            } else {
                0int
            },
    {
        match outcome {
            Outcome::Success => {
                self.valid = self.valid + 1;
            },
            Outcome::Skipped(_) => {
                self.skipped = self.skipped + 1;
            },
            Outcome::Failed(_) => {
                self.corrupted = self.corrupted + 1;
            },
            Outcome::Unsupported => {
                self.skipped = self.skipped + 1;
            },
        }
        self.total = self.total + 1;
    }
}

impl Default for CheckResult {
    /// Empty counters; same value as `CheckResult::new`.
    fn default() -> (r: CheckResult)
        ensures
            r.total == 0,
            r.valid == 0,
            r.skipped == 0,
            r.corrupted == 0,
    {
        CheckResult::new()
    }
}

} // verus!
