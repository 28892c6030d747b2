//! Classification outcomes for a single work item.

use vstd::prelude::*;

verus! {

/// The result of classifying one work item.
///
/// `Unsupported` is a reserved kind: no classifier in this crate produces it,
/// but the engine tallies and renders it like any other outcome.
pub enum Outcome {
    /// The item is intact.
    Success,
    /// The item was skipped for a domain-specific, non-fatal reason
    /// (for example, password-protected content).
    Skipped(String),
    /// Processing the item failed; the message describes why.
    Failed(String),
    /// Reserved for items no current classifier produces.
    Unsupported,
}

impl Outcome {
    /// True when this outcome counts toward the `valid` tally.
    pub open spec fn is_success(&self) -> bool {
        self is Success
    }

    /// True when this outcome counts toward the `skipped` tally:
    /// both domain-specific skips and the reserved kind are skips.
    pub open spec fn is_skip(&self) -> bool {
        self is Skipped || self is Unsupported
    }

    /// True when this outcome counts toward the `corrupted` tally.
    pub open spec fn is_failure(&self) -> bool {
        self is Failed
    }
}

} // verus!
