//! The worker pool, as a verified model of its interleavings.
//!
//! The queue is fully populated before draining starts, so completion needs
//! no producer/consumer handshake: a worker that observes an empty queue
//! terminates, and once the queue is empty it stays empty. `run_pool` takes
//! the worker count and an arbitrary interleaving of worker turns and
//! proves, for every such interleaving, that each collected item is
//! classified exactly once, that the counters tally the outcomes, and that
//! the log holds one line per item. A program that drains the queue from
//! real threads realizes one of these interleavings; its per-item step is
//! `process_popped`, called with the shared state under exclusive access.

use vstd::prelude::*;

use crate::counters::{count_failure, count_skip, count_success, lemma_counts_partition,
    CheckResult};
use crate::log::{spec_line, LogBuffer};
use crate::outcome::Outcome;
use crate::queue::{WorkItem, WorkQueue};
use crate::strutil::spec_rel_path;

verus! {

/// The paths of a sequence of work items, in order.
pub open spec fn paths_of(items: Seq<WorkItem>) -> Seq<Seq<char>> {
    items.map_values(|it: WorkItem| it.path@)
}

/// The paths of the items whose outcome was `Failed`, in processing order.
pub open spec fn spec_failed_paths(paths: Seq<Seq<char>>, os: Seq<Outcome>) -> Seq<Seq<char>>
    recommends
        paths.len() == os.len(),
    decreases os.len(),
{
    if os.len() == 0 || paths.len() != os.len() {
        Seq::empty()
    } else {
        spec_failed_paths(paths.drop_last(), os.drop_last()) + if os.last() is Failed {
            seq![paths.last()]
        } else {
            Seq::empty()
        }
    }
}

/// The worker count to use: the detected hardware concurrency when it is
/// known and positive, and exactly one worker otherwise.
pub fn effective_workers(detected: Option<usize>) -> (w: usize)
    ensures
        w >= 1,
        match detected {
            Option::Some(n) => w == if n >= 1 {
                n
            } else {
                1
            },
            Option::None => w == 1,
        },
{
    match detected {
        Option::Some(n) => if n >= 1 {
            n
        } else {
            1
        },
        Option::None => 1,
    }
}

/// Everything a finished run hands back: the final counters, the log with
/// one line per item, the items in processing order with their outcomes,
/// and the failed items flagged for the post-action gate.
pub struct RunOutput {
    /// Final tallies; consistent, and total equals the number collected.
    pub counters: CheckResult,
    /// One line per processed item, in processing order.
    pub log: LogBuffer,
    /// Every collected item, in the order the pops were serialized.
    pub processed: Vec<WorkItem>,
    /// The outcome of each processed item, aligned with `processed`.
    pub outcomes: Vec<Outcome>,
    /// The items whose outcome was `Failed`, in processing order.
    pub failed: Vec<WorkItem>,
}

/// One worker turn that popped `item`: classify it, tally the outcome,
/// log one line, and flag a failure. The enclosing program must serialize
/// calls that share this state; each call accounts for exactly one item.
pub fn process_popped<F: Fn(&WorkItem) -> Outcome>(
    item: WorkItem,
    base: &str,
    classify: &F,
    processed: &mut Vec<WorkItem>,
    outcomes: &mut Vec<Outcome>,
    counters: &mut CheckResult,
    log: &mut LogBuffer,
    failed: &mut Vec<WorkItem>,
)
    requires
        call_requires(*classify, (&item,)),
        old(outcomes)@.len() == old(processed)@.len(),
        old(counters).is_tally_of(old(outcomes)@),
        old(counters).total < usize::MAX,
    ensures
        final(processed)@ == old(processed)@.push(item),
        final(outcomes)@.len() == old(outcomes)@.len() + 1,
        final(outcomes)@.drop_last() == old(outcomes)@,
        call_ensures(*classify, (&item,), final(outcomes)@.last()),
        final(counters).is_tally_of(final(outcomes)@),
        final(log)@ == old(log)@.push(
            spec_line(spec_rel_path(item.path@, base@), final(outcomes)@.last()),
        ),
        paths_of(final(failed)@) == paths_of(old(failed)@) + if final(outcomes)@.last() is Failed {
            seq![item.path@]
        } else {
            Seq::<Seq<char>>::empty()
        },
{
    let outcome = (*classify)(&item);
    let rel = crate::strutil::rel_path(item.path.as_str(), base);
    let line = crate::log::render_line(rel.as_str(), &outcome);
    proof {
        lemma_counts_partition(old(outcomes)@);
    }
    counters.record(&outcome);
    log.append(line);
    let ghost failed0 = failed@;
    if matches!(outcome, Outcome::Failed(_)) {
        failed.push(item.duplicate());
        proof {
            assert(paths_of(failed@) =~= paths_of(failed0) + seq![item.path@]);
        }
    } else {
        proof {
            assert(paths_of(failed@) =~= paths_of(failed0) + Seq::<Seq<char>>::empty());
        }
    }
    let ghost os0 = outcomes@;
    let ghost o = outcome;
    processed.push(item);
    outcomes.push(outcome);
    proof {
        assert(outcomes@.drop_last() =~= os0);
        assert(count_success(outcomes@) == count_success(os0) + if o.is_success() {
            1int
        } else {
            0int
        });
        assert(count_skip(outcomes@) == count_skip(os0) + if o.is_skip() {
            1int
        } else {
            0int
        });
        assert(count_failure(outcomes@) == count_failure(os0) + if o.is_failure() {
            1int
        } else {
            0int
        });
    }
}

/// Drain the whole queue through `classify` with `workers` workers whose
/// turns are interleaved as `schedule` says (a turn for worker
/// `schedule[s] % workers`; once the schedule runs out, the workers that
/// have not yet observed an empty queue keep taking turns in index order).
/// For every worker count and every interleaving: each collected item is
/// classified exactly once — the processed paths are the queue's contents,
/// most recent first — the counters tally the outcomes and sum to the
/// total, and the log holds exactly one line per item.
pub fn run_pool<F: Fn(&WorkItem) -> Outcome>(
    queue: WorkQueue,
    workers: usize,
    schedule: &Vec<usize>,
    base: &str,
    classify: F,
) -> (r: RunOutput)
    requires
        workers >= 1,
        forall|it: &WorkItem| call_requires(classify, (it,)),
    ensures
        r.counters.wf(),
        r.counters.is_tally_of(r.outcomes@),
        r.counters.total == queue@.len(),
        r.processed@.len() == queue@.len(),
        paths_of(r.processed@) == queue@.reverse(),
        r.outcomes@.len() == queue@.len(),
        r.log@.len() == r.counters.total,
        forall|j: int|
            0 <= j < queue@.len() ==> call_ensures(
                classify,
                (&r.processed@[j],),
                #[trigger] r.outcomes@[j],
            ),
        r.log@.len() == queue@.len(),
        forall|j: int|
            0 <= j < queue@.len() ==> r.log@[j] == spec_line(
                spec_rel_path(r.processed@[j].path@, base@),
                #[trigger] r.outcomes@[j],
            ),
        paths_of(r.failed@) == spec_failed_paths(paths_of(r.processed@), r.outcomes@),
{
    let ghost initial = queue@;
    let mut queue = queue;
    let qlen = queue.len();
    proof {
        assert(initial.len() == qlen);
    }
    let mut terminated: Vec<bool> = Vec::new();
    let mut i: usize = 0;
    while i < workers
        invariant
            i <= workers,
            terminated@.len() == i,
            forall|j: int| 0 <= j < i ==> !terminated@[j],
        decreases workers - i,
    {
        terminated.push(false);
        i += 1;
    }
    let mut processed: Vec<WorkItem> = Vec::new();
    let mut outcomes: Vec<Outcome> = Vec::new();
    let mut counters = CheckResult::new();
    let mut log = LogBuffer::new();
    let mut failed: Vec<WorkItem> = Vec::new();
    proof {
        assert(queue@ =~= initial.take(initial.len() - processed@.len()));
        assert(paths_of(failed@) =~= spec_failed_paths(paths_of(processed@), outcomes@));
    }

    let mut s: usize = 0;
    while s < schedule.len()
        invariant
            forall|it: &WorkItem| call_requires(classify, (it,)),
            workers >= 1,
            terminated@.len() == workers,
            initial.len() <= usize::MAX,
            pool_inv(initial, queue@, processed@, outcomes@, counters, log@, failed@, base@),
            forall|j: int|
                0 <= j < processed@.len() ==> call_ensures(
                    classify,
                    (&processed@[j],),
                    #[trigger] outcomes@[j],
                ),
            (exists|j: int| 0 <= j < workers && terminated@[j]) ==> queue@.len() == 0,
        decreases schedule@.len() - s,
    {
        let wid = schedule[s] % workers;
        if !terminated[wid] {
            let ghost queue0 = queue@;
            match queue.pop() {
                Option::Some(item) => {
                    let ghost processed0 = processed@;
                    let ghost outcomes0 = outcomes@;
                    let ghost counters0 = counters;
                    let ghost log0 = log@;
                    let ghost failed0 = failed@;
                    proof {
                        assert(counters.total < usize::MAX);
                    }
                    process_popped(
                        item,
                        base,
                        &classify,
                        &mut processed,
                        &mut outcomes,
                        &mut counters,
                        &mut log,
                        &mut failed,
                    );
                    proof {
                        lemma_step_preserves_inv(initial, queue0, queue@, processed0, processed@,
                            outcomes0, outcomes@, counters0, counters, log0, log@, failed0,
                            failed@, base@, item);
                        assert forall|j: int| 0 <= j < processed@.len() implies call_ensures(
                            classify,
                            (&processed@[j],),
                            #[trigger] outcomes@[j],
                        ) by {
                            if j < processed0.len() {
                                assert(processed@[j] == processed0[j]);
                                assert(outcomes@[j] == outcomes@.drop_last()[j]);
                                assert(outcomes@[j] == outcomes0[j]);
                            } else {
                                assert(processed@[j] == item);
                                assert(outcomes@[j] == outcomes@.last());
                            }
                        }
                    }
                },
                Option::None => {
                    terminated.set(wid, true);
                },
            }
        }
        s += 1;
    }

    let mut w: usize = 0;
    while w < workers
        invariant
            forall|it: &WorkItem| call_requires(classify, (it,)),
            workers >= 1,
            terminated@.len() == workers,
            initial.len() <= usize::MAX,
            pool_inv(initial, queue@, processed@, outcomes@, counters, log@, failed@, base@),
            forall|j: int|
                0 <= j < processed@.len() ==> call_ensures(
                    classify,
                    (&processed@[j],),
                    #[trigger] outcomes@[j],
                ),
            (exists|j: int| 0 <= j < workers && terminated@[j]) ==> queue@.len() == 0,
            w <= workers,
            forall|j: int| 0 <= j < w ==> terminated@[j],
        decreases workers - w,
    {
        if !terminated[w] {
            let mut done = false;
            while !done
                invariant
                    forall|it: &WorkItem| call_requires(classify, (it,)),
                    workers >= 1,
                    terminated@.len() == workers,
                    initial.len() <= usize::MAX,
                    pool_inv(initial, queue@, processed@, outcomes@, counters, log@, failed@,
                        base@),
                    forall|j: int|
                        0 <= j < processed@.len() ==> call_ensures(
                            classify,
                            (&processed@[j],),
                            #[trigger] outcomes@[j],
                        ),
                    (exists|j: int| 0 <= j < workers && terminated@[j]) ==> queue@.len() == 0,
                    done ==> queue@.len() == 0,
                decreases queue@.len() + if done {
                    0int
                } else {
                    1int
                },
            {
                let ghost queue0 = queue@;
                match queue.pop() {
                    Option::Some(item) => {
                        let ghost processed0 = processed@;
                        let ghost outcomes0 = outcomes@;
                        let ghost counters0 = counters;
                        let ghost log0 = log@;
                        let ghost failed0 = failed@;
                        proof {
                            assert(counters.total < usize::MAX);
                        }
                        process_popped(
                            item,
                            base,
                            &classify,
                            &mut processed,
                            &mut outcomes,
                            &mut counters,
                            &mut log,
                            &mut failed,
                        );
                        proof {
                            lemma_step_preserves_inv(initial, queue0, queue@, processed0,
                                processed@, outcomes0, outcomes@, counters0, counters, log0, log@,
                                failed0, failed@, base@, item);
                            assert forall|j: int| 0 <= j < processed@.len() implies call_ensures(
                                classify,
                                (&processed@[j],),
                                #[trigger] outcomes@[j],
                            ) by {
                                if j < processed0.len() {
                                    assert(processed@[j] == processed0[j]);
                                    assert(outcomes@[j] == outcomes@.drop_last()[j]);
                                    assert(outcomes@[j] == outcomes0[j]);
                                } else {
                                    assert(processed@[j] == item);
                                    assert(outcomes@[j] == outcomes@.last());
                                }
                            }
                        }
                    },
                    Option::None => {
                        done = true;
                    },
                }
            }
            terminated.set(w, true);
        }
        w += 1;
    }

    proof {
        assert(terminated@[0]);
        assert(queue@.len() == 0);
        assert(initial.take(initial.len() - processed@.len()).len() == 0);
        assert(processed@.len() == initial.len());
        assert(paths_of(processed@) =~= initial.reverse());
        lemma_counts_partition(outcomes@);
    }
    RunOutput { counters, log, processed, outcomes, failed }
}

/// One pop-and-classify turn keeps the workers' shared state an instance
/// of `pool_inv`: popping moves the queue's last path to the end of the
/// processed sequence, and the tallies, the log and the failed list each
/// grow by exactly that item's contribution.
proof fn lemma_step_preserves_inv(
    initial: Seq<Seq<char>>,
    queue0: Seq<Seq<char>>,
    queue1: Seq<Seq<char>>,
    processed0: Seq<WorkItem>,
    processed1: Seq<WorkItem>,
    outcomes0: Seq<Outcome>,
    outcomes1: Seq<Outcome>,
    counters0: CheckResult,
    counters1: CheckResult,
    log0: Seq<Seq<char>>,
    log1: Seq<Seq<char>>,
    failed0: Seq<WorkItem>,
    failed1: Seq<WorkItem>,
    base: Seq<char>,
    item: WorkItem,
)
    requires
        pool_inv(initial, queue0, processed0, outcomes0, counters0, log0, failed0, base),
        queue0.len() > 0,
        queue1 == queue0.drop_last(),
        item.path@ == queue0.last(),
        processed1 == processed0.push(item),
        outcomes1.len() == outcomes0.len() + 1,
        outcomes1.drop_last() == outcomes0,
        counters1.is_tally_of(outcomes1),
        log1 == log0.push(spec_line(spec_rel_path(item.path@, base), outcomes1.last())),
        paths_of(failed1) == paths_of(failed0) + if outcomes1.last() is Failed {
            seq![item.path@]
        } else {
            Seq::<Seq<char>>::empty()
        },
    ensures
        pool_inv(initial, queue1, processed1, outcomes1, counters1, log1, failed1, base),
{
    let p = processed0.len() as int;
    assert(queue1 =~= initial.take(initial.len() - processed1.len()));
    assert(item.path@ == initial[initial.len() - 1 - p]);
    assert(forall|j: int|
        0 <= j < processed1.len() ==> processed1[j].path@ == initial[initial.len() - 1 - j]);
    assert forall|j: int| 0 <= j < processed1.len() implies log1[j] == spec_line(
        spec_rel_path(processed1[j].path@, base),
        #[trigger] outcomes1[j],
    ) by {
        if j < processed0.len() {
            assert(log1[j] == log0[j]);
            assert(processed1[j] == processed0[j]);
            assert(outcomes1[j] == outcomes1.drop_last()[j]);
            assert(outcomes1[j] == outcomes0[j]);
        } else {
            assert(log1[j] == log1.last());
            assert(processed1[j] == item);
            assert(outcomes1[j] == outcomes1.last());
        }
    }
    assert(paths_of(processed1).drop_last() =~= paths_of(processed0));
    assert(paths_of(processed1).last() == item.path@);
    assert(spec_failed_paths(paths_of(processed1), outcomes1) == spec_failed_paths(
        paths_of(processed0),
        outcomes0,
    ) + if outcomes1.last() is Failed {
        seq![item.path@]
    } else {
        Seq::<Seq<char>>::empty()
    });
}

/// The state shared by the workers, part way through a drain that started
/// from the fully collected queue `initial`: the remaining queue is the
/// unpopped prefix, the processed items are the popped suffix in pop
/// order, the counters tally the outcomes so far, and the log holds one
/// line per processed item.
pub open spec fn pool_inv(
    initial: Seq<Seq<char>>,
    queue: Seq<Seq<char>>,
    processed: Seq<WorkItem>,
    outcomes: Seq<Outcome>,
    counters: CheckResult,
    log: Seq<Seq<char>>,
    failed: Seq<WorkItem>,
    base: Seq<char>,
) -> bool {
    &&& outcomes.len() == processed.len()
    &&& processed.len() <= initial.len()
    &&& queue == initial.take(initial.len() - processed.len())
    &&& forall|j: int| 0 <= j < processed.len() ==> processed[j].path@ == initial[initial.len() - 1
        - j]
    &&& counters.is_tally_of(outcomes)
    &&& log.len() == processed.len()
    &&& forall|j: int|
        0 <= j < processed.len() ==> log[j] == spec_line(
            spec_rel_path(processed[j].path@, base),
            #[trigger] outcomes[j],
        )
    &&& paths_of(failed) == spec_failed_paths(paths_of(processed), outcomes)
}

} // verus!
