//! The shared work list: items discovered by collection, drained by workers.
//!
//! The queue is fully populated before any worker starts draining it, and a
//! pop is destructive, so each item leaves the queue exactly once. The view
//! of a queue is the sequence of its items' paths, oldest first; `pop` takes
//! the most recently pushed path.

use vstd::prelude::*;

verus! {

/// One discovered path, slated for processing. Immutable once created;
/// ownership moves from the queue to the worker that pops it.
pub struct WorkItem {
    /// The discovered path, as handed to the classifier.
    pub path: String,
}

impl WorkItem {
    /// Wrap a path as a work item.
    pub fn new(path: String) -> (r: WorkItem)
        ensures
            r.path@ == path@,
    {
        WorkItem { path }
    }

    /// A copy of this item holding an equal path.
    pub fn duplicate(&self) -> (r: WorkItem)
        ensures
            r.path@ == self.path@,
    {
        WorkItem { path: self.path.clone() }
    }
}

/// The pending-item store, drained by workers one destructive `pop` at a time.
pub struct WorkQueue {
    items: Vec<WorkItem>,
}

impl View for WorkQueue {
    type V = Seq<Seq<char>>;

    /// The paths of the pending items, oldest first.
    closed spec fn view(&self) -> Seq<Seq<char>> {
        Seq::new(self.items@.len(), |i: int| self.items@[i].path@)
    }
}

impl WorkQueue {
    /// An empty queue.
    pub fn new() -> (r: WorkQueue)
        ensures
            r@ == Seq::<Seq<char>>::empty(),
    {
        let q = WorkQueue { items: Vec::new() };
        proof {
            assert(q@ =~= Seq::<Seq<char>>::empty());
        }
        q
    }

    /// Number of pending items.
    pub fn len(&self) -> (n: usize)
        ensures
            n == self@.len(),
    {
        self.items.len()
    }

    /// True when no item is pending.
    pub fn is_empty(&self) -> (b: bool)
        ensures
            b == (self@.len() == 0),
    {
        self.items.len() == 0
    }

    /// Add one item to the store.
    pub fn push(&mut self, item: WorkItem)
        ensures
            final(self)@ == old(self)@.push(item.path@),
    {
        let ghost p = item.path@;
        self.items.push(item);
        proof {
            assert(self@ =~= old(self)@.push(p));
        }
    }

    /// Remove and return the most recently pushed item, or report the queue
    /// empty. A popped item is gone: no later pop can yield it again.
    pub fn pop(&mut self) -> (r: Option<WorkItem>)
        ensures
            old(self)@.len() == 0 ==> r is None && final(self)@ == old(self)@,
            old(self)@.len() > 0 ==> (r matches Some(item) && item.path@ == old(self)@.last()
                && final(self)@ == old(self)@.drop_last()),
    {
        let r = self.items.pop();
        proof {
            if old(self)@.len() == 0 {
                assert(self@ =~= old(self)@);
            } else {
                assert(self@ =~= old(self)@.drop_last());
            }
        }
        r
    }
}

} // verus!
