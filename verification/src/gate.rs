//! The post-action gate: one confirmation, then a bounded follow-up action
//! over the flagged items.
//!
//! After the summary, the enclosing program asks exactly one yes/no question
//! and hands the typed answer here together with the follow-up action (for
//! example, deleting a corrupted file). A non-affirmative answer performs
//! nothing. An affirmative one attempts the action once per flagged item,
//! in order; each attempt is independent, so one item's failure never
//! prevents the attempts on the remaining items. This phase is
//! single-threaded to keep its output order deterministic.

use vstd::prelude::*;

use crate::queue::WorkItem;
use crate::strutil::{is_affirmative, spec_affirmative};

verus! {

/// Run the gated follow-up. `answer` is the text of the one interactive
/// response; `action` reports per item whether its attempt succeeded.
/// Returns the per-item results: empty unless the answer was affirmative,
/// and otherwise exactly one result per flagged item, in order.
pub fn confirm_and_act<A: Fn(&WorkItem) -> bool>(
    flagged: &Vec<WorkItem>,
    answer: &str,
    action: A,
) -> (results: Vec<bool>)
    requires
        forall|it: &WorkItem| call_requires(action, (it,)),
    ensures
        !spec_affirmative(answer@) ==> results@.len() == 0,
        spec_affirmative(answer@) ==> results@.len() == flagged@.len() && (forall|j: int|
            0 <= j < flagged@.len() ==> call_ensures(
                action,
                (&flagged@[j],),
                #[trigger] results@[j],
            )),
{
    let mut results: Vec<bool> = Vec::new();
    if !is_affirmative(answer) {
        return results;
    }
    let mut i: usize = 0;
    while i < flagged.len()
        invariant
            forall|it: &WorkItem| call_requires(action, (it,)),
            i <= flagged@.len(),
            results@.len() == i,
            forall|j: int|
                0 <= j < i ==> call_ensures(action, (&flagged@[j],), #[trigger] results@[j]),
        decreases flagged@.len() - i,
    {
        let ok = action(&flagged[i]);
        results.push(ok);
        i += 1;
    }
    results
}

} // verus!
