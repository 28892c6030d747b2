//! Stack-based collection of work items from a directory tree.
//!
//! The collector is the decision half of the traversal: it owns the explicit
//! stack of directories still to visit (never unbounded recursion) and the
//! queue of items found so far. The enclosing program owns the other half —
//! listing a directory and looking at each entry — and drives the loop: take
//! the next pending directory, list it, and hand every entry back with three
//! facts (symbolic link? directory? does the predicate match?). Unreadable
//! directories are simply never reported, which skips them without failing.
//!
//! Policy, stated in the contracts: a symbolic link is never followed nor
//! collected, so a link back to an ancestor cannot sustain a cycle; an entry
//! the predicate matches becomes a work item and is not descended into; any
//! other directory is descended into only while the depth bound allows, so
//! the stack never holds a directory deeper than `MAX_DEPTH`.
//!
//! `collect_all` runs the whole phase against a snapshot of the tree and
//! pins the run-level result: it terminates on every snapshot; the queue
//! holds exactly the collectable matches of the directories the policy
//! reaches (`reaches`) — nothing missing, nothing else; and on a
//! tree-shaped snapshot each match is collected exactly once.

use vstd::prelude::*;

use crate::queue::{WorkItem, WorkQueue};

verus! {

/// The deepest directory level the traversal will enter; the root is at
/// depth zero. A defense-in-depth guard: skipping symbolic links should
/// already prevent cycles.
pub const MAX_DEPTH: usize = 50;

/// A directory waiting to be listed, with its depth below the root.
pub struct PendingDir {
    /// The directory's path.
    pub path: String,
    /// Its depth below the root of the traversal.
    pub depth: usize,
}

/// The traversal state: directories still to visit and items found so far.
pub struct Collector {
    /// The explicit traversal stack; the last element is visited next.
    pub stack: Vec<PendingDir>,
    /// The work items collected so far.
    pub queue: WorkQueue,
}

impl Collector {
    /// Every pending directory respects the depth bound.
    pub open spec fn wf(&self) -> bool {
        forall|j: int| 0 <= j < self.stack@.len() ==> (#[trigger] self.stack@[j]).depth
            <= MAX_DEPTH
    }

    /// Start a traversal at `root`.
    pub fn new(root: String) -> (c: Collector)
        ensures
            c.wf(),
            c.stack@.len() == 1,
            c.stack@[0].path@ == root@,
            c.stack@[0].depth == 0,
            c.queue@ == Seq::<Seq<char>>::empty(),
    {
        let mut stack: Vec<PendingDir> = Vec::new();
        stack.push(PendingDir { path: root, depth: 0 });
        Collector { stack, queue: WorkQueue::new() }
    }

    /// Take the next directory to list, or report the traversal finished.
    pub fn take_next(&mut self) -> (r: Option<PendingDir>)
        requires
            old(self).wf(),
        ensures
            final(self).wf(),
            final(self).queue@ == old(self).queue@,
            old(self).stack@.len() == 0 ==> r is None && final(self).stack@ == old(self).stack@,
            old(self).stack@.len() > 0 ==> (r matches Some(d) && d.path@
                == old(self).stack@.last().path@ && d.depth == old(self).stack@.last().depth
                && d.depth <= MAX_DEPTH && final(self).stack@ == old(self).stack@.drop_last()),
    {
        let r = self.stack.pop();
        proof {
            if old(self).stack@.len() > 0 {
                assert(old(self).stack@.last().depth <= MAX_DEPTH);
            }
        }
        r
    }

    /// Account for one entry of a directory listed at depth `depth`.
    ///
    /// A symbolic link changes nothing: it is neither followed nor
    /// collected, whatever else it is. A matching entry becomes a work
    /// item and is not descended into. Any other directory is pushed for
    /// descent exactly when the bound allows one more level, so traversal
    /// below the bound is unaffected and deeper directories are dropped.
    /// Anything else is skipped.
    pub fn handle_entry(
        &mut self,
        path: String,
        depth: usize,
        is_symlink: bool,
        is_dir: bool,
        matches_predicate: bool,
    )
        requires
            old(self).wf(),
            depth <= MAX_DEPTH,
        ensures
            final(self).wf(),
            is_symlink ==> final(self).stack@ == old(self).stack@ && final(self).queue@ == old(
                self).queue@,
            !is_symlink && matches_predicate ==> final(self).stack@ == old(self).stack@ && final(
                self).queue@ == old(self).queue@.push(path@),
            !is_symlink && !matches_predicate && is_dir && depth < MAX_DEPTH ==> (final(
                self).stack@.len() == old(self).stack@.len() + 1 && final(self).stack@.drop_last()
                == old(self).stack@ && final(self).stack@.last().path@ == path@ && final(
                self).stack@.last().depth == depth + 1 && final(self).queue@ == old(self).queue@),
            !is_symlink && !matches_predicate && is_dir && depth == MAX_DEPTH ==> final(
                self).stack@ == old(self).stack@ && final(self).queue@ == old(self).queue@,
            !is_symlink && !matches_predicate && !is_dir ==> final(self).stack@ == old(
                self).stack@ && final(self).queue@ == old(self).queue@,
    {
        if is_symlink {
            return ;
        }
        if matches_predicate {
            self.queue.push(WorkItem::new(path));
            return ;
        }
        if is_dir && depth < MAX_DEPTH {
            self.stack.push(PendingDir { path, depth: depth + 1 });
            proof {
                assert(self.stack@.drop_last() =~= old(self).stack@);
            }
        }
    }

    /// True when no directory is left to visit.
    pub fn is_done(&self) -> (b: bool)
        ensures
            b == (self.stack@.len() == 0),
    {
        self.stack.len() == 0
    }

    /// End the traversal, handing the collected items to the pool.
    pub fn finish(self) -> (q: WorkQueue)
        ensures
            q@ == self.queue@,
    {
        self.queue
    }
}

/// One entry of a listed directory, reduced to the three facts the
/// traversal policy reads, plus whether the predicate matches it.
pub struct EntryFacts {
    /// The entry's path.
    pub path: String,
    /// The entry is a symbolic link (of any kind).
    pub is_symlink: bool,
    /// The entry is a directory.
    pub is_dir: bool,
    /// The predicate holds of the entry.
    pub matches_predicate: bool,
}

/// One directory of a tree snapshot: its path and the entries it lists.
/// A directory no snapshot row describes is treated as unreadable and
/// skipped.
pub struct DirListing {
    /// The directory's path.
    pub path: String,
    /// Its entries.
    pub entries: Vec<EntryFacts>,
}

/// The largest number of entries any directory of the snapshot lists.
pub open spec fn max_entries(ls: Seq<DirListing>) -> nat
    decreases ls.len(),
{
    if ls.len() == 0 {
        0
    } else {
        let m = max_entries(ls.drop_last());
        if ls.last().entries@.len() > m {
            ls.last().entries@.len()
        } else {
            m
        }
    }
}

/// Every directory of the snapshot lists at most `max_entries` entries.
proof fn lemma_max_entries_bound(ls: Seq<DirListing>, i: int)
    requires
        0 <= i < ls.len(),
    ensures
        ls[i].entries@.len() <= max_entries(ls),
    decreases ls.len(),
{
    if i < ls.len() - 1 {
        lemma_max_entries_bound(ls.drop_last(), i);
        assert(ls.drop_last()[i] == ls[i]);
    }
}

/// `w` to the power `e`.
pub open spec fn pow_nat(w: nat, e: nat) -> nat
    decreases e,
{
    if e == 0 {
        1
    } else {
        w * pow_nat(w, (e - 1) as nat)
    }
}

/// A power of a positive base is positive.
proof fn lemma_pow_nat_pos(w: nat, e: nat)
    requires
        w >= 1,
    ensures
        pow_nat(w, e) >= 1,
    decreases e,
{
    if e > 0 {
        lemma_pow_nat_pos(w, (e - 1) as nat);
        assert(w * pow_nat(w, (e - 1) as nat) >= 1) by (nonlinear_arith)
            requires
                w >= 1,
                pow_nat(w, (e - 1) as nat) >= 1,
        ;
    }
}

/// The termination measure of a traversal: a directory pending at depth
/// `d` weighs `w^(MAX_DEPTH + 1 - d)`, so one visit — remove the
/// directory, add at most `w - 1` children one level deeper — always
/// shrinks the total.
pub open spec fn stack_measure(stack: Seq<PendingDir>, w: nat) -> nat
    decreases stack.len(),
{
    if stack.len() == 0 {
        0
    } else {
        stack_measure(stack.drop_last(), w) + pow_nat(
            w,
            (MAX_DEPTH + 1 - stack.last().depth) as nat,
        )
    }
}
/// Index of the first snapshot row describing `p`, or -1 when none does
/// — the row the traversal reads when it visits `p`.
pub open spec fn listing_index(ls: Seq<DirListing>, p: Seq<char>) -> int
    decreases ls.len(),
{
    if ls.len() == 0 {
        -1
    } else if ls.first().path@ == p {
        0
    } else {
        let r = listing_index(ls.drop_first(), p);
        if r < 0 {
            -1
        } else {
            r + 1
        }
    }
}

/// With no row describing `p`, `listing_index` reports none.
proof fn lemma_listing_index_none(ls: Seq<DirListing>, p: Seq<char>)
    requires
        forall|j: int| 0 <= j < ls.len() ==> (#[trigger] ls[j]).path@ != p,
    ensures
        listing_index(ls, p) < 0,
    decreases ls.len(),
{
    if ls.len() > 0 {
        assert(forall|j: int|
            0 <= j < ls.drop_first().len() ==> (#[trigger] ls.drop_first()[j]).path@ != p);
        lemma_listing_index_none(ls.drop_first(), p);
    }
}

/// A row for `p` preceded only by rows for other paths is the first.
proof fn lemma_listing_index_at(ls: Seq<DirListing>, p: Seq<char>, i: int)
    requires
        0 <= i < ls.len(),
        forall|j: int| 0 <= j < i ==> (#[trigger] ls[j]).path@ != p,
        ls[i].path@ == p,
    ensures
        listing_index(ls, p) == i,
    decreases ls.len(),
{
    if i > 0 {
        assert(forall|j: int|
            0 <= j < i - 1 ==> (#[trigger] ls.drop_first()[j]).path@ != p);
        assert(ls.drop_first()[i - 1] == ls[i]);
        lemma_listing_index_at(ls.drop_first(), p, i - 1);
    }
}

/// The entries the traversal reads when it visits `p`.
pub open spec fn row_of(ls: Seq<DirListing>, p: Seq<char>) -> Seq<EntryFacts> {
    ls[listing_index(ls, p)].entries@
}

/// An entry the traversal collects: not a link, and matching.
pub open spec fn match_entry(e: EntryFacts) -> bool {
    !e.is_symlink && e.matches_predicate
}

/// An entry the traversal descends into, bound permitting: a non-link,
/// non-matching directory.
pub open spec fn descend_entry(e: EntryFacts) -> bool {
    !e.is_symlink && !e.matches_predicate && e.is_dir
}

/// Entry `k` of `p`'s row is one the traversal collects.
pub open spec fn row_match(ls: Seq<DirListing>, p: Seq<char>, k: int) -> bool {
    listing_index(ls, p) >= 0 && 0 <= k < row_of(ls, p).len() && match_entry(row_of(ls, p)[k])
}

/// Entry `k` of `p`'s row is one the traversal descends into.
pub open spec fn row_descend(ls: Seq<DirListing>, p: Seq<char>, k: int) -> bool {
    listing_index(ls, p) >= 0 && 0 <= k < row_of(ls, p).len() && descend_entry(row_of(ls, p)[k])
}

/// The path entry `k` of `p`'s row names.
pub open spec fn entry_path(ls: Seq<DirListing>, p: Seq<char>, k: int) -> Seq<char> {
    row_of(ls, p)[k].path@
}

/// The traversal, once it visits `a` at depth `da`, goes on to visit `p`
/// at depth `d`: either `p` is `a` itself, or a chain of descend entries
/// leads there, every step leaving from a directory above the depth
/// bound.
pub open spec fn reach_from(
    ls: Seq<DirListing>,
    a: Seq<char>,
    da: nat,
    p: Seq<char>,
    d: nat,
) -> bool
    decreases d,
{
    if d < da {
        false
    } else if d == da {
        p == a
    } else {
        exists|q: Seq<char>, k: int|
            reach_from(ls, a, da, q, (d - 1) as nat) && d - 1 < MAX_DEPTH
                && #[trigger] row_descend(ls, q, k) && entry_path(ls, q, k) == p
    }
}

/// The traversal from `root` visits `p` at depth `d`.
pub open spec fn reaches(ls: Seq<DirListing>, root: Seq<char>, p: Seq<char>, d: nat) -> bool {
    reach_from(ls, root, 0, p, d)
}

/// A directory visited after `a`, other than `a` itself, is visited
/// through one of `a`'s own descend entries.
proof fn lemma_reach_from_step(ls: Seq<DirListing>, a: Seq<char>, da: nat, p: Seq<char>, d: nat)
    requires
        reach_from(ls, a, da, p, d),
        d > da,
    ensures
        da < MAX_DEPTH,
        exists|k0: int|
            #[trigger] row_descend(ls, a, k0) && reach_from(ls, entry_path(ls, a, k0), da + 1, p, d),
    decreases d,
{
    let (q, k) = choose|q: Seq<char>, k: int|
        reach_from(ls, a, da, q, (d - 1) as nat) && d - 1 < MAX_DEPTH && #[trigger] row_descend(
            ls,
            q,
            k,
        ) && entry_path(ls, q, k) == p;
    if d - 1 == da {
        assert(q == a);
        assert(reach_from(ls, entry_path(ls, a, k), da + 1, p, d));
        assert(row_descend(ls, a, k) && reach_from(ls, entry_path(ls, a, k), da + 1, p, d));
    } else {
        lemma_reach_from_step(ls, a, da, q, (d - 1) as nat);
        let k0 = choose|k0: int|
            #[trigger] row_descend(ls, a, k0) && reach_from(
                ls,
                entry_path(ls, a, k0),
                da + 1,
                q,
                (d - 1) as nat,
            );
        assert(reach_from(ls, entry_path(ls, a, k0), da + 1, p, d)) by {
            assert(reach_from(ls, entry_path(ls, a, k0), da + 1, q, (d - 1) as nat) && d - 1
                < MAX_DEPTH && row_descend(ls, q, k) && entry_path(ls, q, k) == p);
        }
        assert(row_descend(ls, a, k0) && reach_from(ls, entry_path(ls, a, k0), da + 1, p, d));
    }
}

/// A directory still pending on the stack will take the traversal to `p`
/// at depth `d`.
pub open spec fn stack_covers(
    ls: Seq<DirListing>,
    stack: Seq<PendingDir>,
    p: Seq<char>,
    d: nat,
) -> bool {
    exists|j: int|
        0 <= j < stack.len() && reach_from(
            ls,
            (#[trigger] stack[j]).path@,
            stack[j].depth as nat,
            p,
            d,
        )
}

/// `pth` names a collectable match of some directory the traversal
/// visits.
pub open spec fn reachable_match(ls: Seq<DirListing>, root: Seq<char>, pth: Seq<char>) -> bool {
    exists|p: Seq<char>, d: nat, k: int|
        #![trigger reaches(ls, root, p, d), row_match(ls, p, k)]
        reaches(ls, root, p, d) && row_match(ls, p, k) && entry_path(ls, p, k) == pth
}

/// The obligation to collect match `k` of a directory `p` visited at
/// depth `d` is discharged by scanning entries `from` onward of the row
/// of `a`, the directory being visited at depth `da`: the match is among
/// those entries, or a descend entry among them leads to `p`.
spec fn pending_from(
    ls: Seq<DirListing>,
    a: Seq<char>,
    da: nat,
    from: int,
    p: Seq<char>,
    d: nat,
    k: int,
) -> bool {
    ||| (p == a && d == da && from <= k)
    ||| (da < MAX_DEPTH && exists|k0: int|
        from <= k0 && #[trigger] row_descend(ls, a, k0) && reach_from(
            ls,
            entry_path(ls, a, k0),
            da + 1,
            p,
            d,
        ))
}

/// Position `k` exists in the row the traversal reads for `p`.
pub open spec fn valid_entry(ls: Seq<DirListing>, p: Seq<char>, k: int) -> bool {
    listing_index(ls, p) >= 0 && 0 <= k < row_of(ls, p).len()
}

/// Two distinct entry positions of the snapshot never name the same
/// path: each path is listed once, under one parent — the shape of a
/// filesystem tree.
pub open spec fn unique_entry_paths(ls: Seq<DirListing>) -> bool {
    forall|p1: Seq<char>, k1: int, p2: Seq<char>, k2: int|
        #![trigger entry_path(ls, p1, k1), entry_path(ls, p2, k2)]
        valid_entry(ls, p1, k1) && valid_entry(ls, p2, k2) && entry_path(ls, p1, k1)
            == entry_path(ls, p2, k2) ==> p1 == p2 && k1 == k2
}

/// No entry of the snapshot names the root: the root has no parent.
pub open spec fn root_not_listed(ls: Seq<DirListing>, root: Seq<char>) -> bool {
    forall|p: Seq<char>, k: int|
        valid_entry(ls, p, k) ==> #[trigger] entry_path(ls, p, k) != root
}

/// The snapshot has the shape of a filesystem tree rooted at `root`.
pub open spec fn tree_shaped(ls: Seq<DirListing>, root: Seq<char>) -> bool {
    unique_entry_paths(ls) && root_not_listed(ls, root)
}

/// `x` is named by an entry of a row the traversal has visited.
spec fn from_visited(ls: Seq<DirListing>, visited: Set<Seq<char>>, x: Seq<char>) -> bool {
    exists|p: Seq<char>, k: int|
        #![trigger entry_path(ls, p, k)]
        visited.contains(p) && valid_entry(ls, p, k) && entry_path(ls, p, k) == x
}

/// `x` is named by an entry of a visited row; an entry of `cur`'s own
/// row only if it lies before position `upto` — the part of the current
/// visit already scanned.
spec fn from_visited_upto(
    ls: Seq<DirListing>,
    visited: Set<Seq<char>>,
    cur: Seq<char>,
    upto: int,
    x: Seq<char>,
) -> bool {
    exists|p: Seq<char>, k: int|
        #![trigger entry_path(ls, p, k)]
        visited.contains(p) && valid_entry(ls, p, k) && entry_path(ls, p, k) == x && (p == cur
            ==> k < upto)
}

/// When the row of `cur` has not been visited, marking it visited adds
/// no origin in it: existing origins all lie before position zero.
proof fn lemma_from_visited_start(
    ls: Seq<DirListing>,
    v: Set<Seq<char>>,
    cur: Seq<char>,
    x: Seq<char>,
)
    requires
        from_visited(ls, v, x),
        !v.contains(cur),
    ensures
        from_visited_upto(ls, v.insert(cur), cur, 0, x),
{
    let (p, k) = choose|p: Seq<char>, k: int|
        v.contains(p) && valid_entry(ls, p, k) && #[trigger] entry_path(ls, p, k) == x;
    assert(v.insert(cur).contains(p) && valid_entry(ls, p, k) && entry_path(ls, p, k) == x && (p
        == cur ==> k < 0));
}

/// Forgetting the scan position weakens an origin claim.
proof fn lemma_from_visited_finish(
    ls: Seq<DirListing>,
    v: Set<Seq<char>>,
    cur: Seq<char>,
    upto: int,
    x: Seq<char>,
)
    requires
        from_visited_upto(ls, v, cur, upto, x),
    ensures
        from_visited(ls, v, x),
{
    let (p, k) = choose|p: Seq<char>, k: int|
        v.contains(p) && valid_entry(ls, p, k) && #[trigger] entry_path(ls, p, k) == x && (p
            == cur ==> k < upto);
    assert(v.contains(p) && valid_entry(ls, p, k) && entry_path(ls, p, k) == x);
}

/// A scanned-position origin survives scanning one more entry.
proof fn lemma_from_visited_bump(
    ls: Seq<DirListing>,
    v: Set<Seq<char>>,
    cur: Seq<char>,
    upto: int,
    x: Seq<char>,
)
    requires
        from_visited_upto(ls, v, cur, upto, x),
    ensures
        from_visited_upto(ls, v, cur, upto + 1, x),
{
    let (p, k) = choose|p: Seq<char>, k: int|
        v.contains(p) && valid_entry(ls, p, k) && #[trigger] entry_path(ls, p, k) == x && (p
            == cur ==> k < upto);
    assert(v.contains(p) && valid_entry(ls, p, k) && entry_path(ls, p, k) == x && (p == cur ==> k
        < upto + 1));
}

/// On a tree-shaped snapshot, the entry at position `k2` of `cur`'s row,
/// not yet scanned, names a path different from the root and from
/// anything an already-scanned entry names.
proof fn lemma_fresh_entry(
    ls: Seq<DirListing>,
    root: Seq<char>,
    v: Set<Seq<char>>,
    cur: Seq<char>,
    k2: int,
    x: Seq<char>,
)
    requires
        tree_shaped(ls, root),
        valid_entry(ls, cur, k2),
        x == root || from_visited_upto(ls, v, cur, k2, x),
    ensures
        entry_path(ls, cur, k2) != x,
{
    if x == root {
        assert(entry_path(ls, cur, k2) != root);
    } else {
        let (p, k) = choose|p: Seq<char>, k: int|
            v.contains(p) && valid_entry(ls, p, k) && #[trigger] entry_path(ls, p, k) == x && (p
                == cur ==> k < k2);
        if entry_path(ls, cur, k2) == x {
            assert(p == cur && k == k2);
        }
    }
}

/// Appending keeps everything a sequence held, and adds the new element.
proof fn lemma_push_contains(s: Seq<Seq<char>>, x: Seq<char>, y: Seq<char>)
    ensures
        s.push(x).contains(x),
        s.contains(y) ==> s.push(x).contains(y),
{
    assert(s.push(x)[s.len() as int] == x);
    if s.contains(y) {
        let i = choose|i: int| 0 <= i < s.len() && s[i] == y;
        assert(s.push(x)[i] == y);
    }
}

/// Find the snapshot row describing `path`, if any.
fn find_listing(listings: &Vec<DirListing>, path: &String) -> (r: Option<usize>)
    ensures
        match r {
            Option::Some(i) => i < listings@.len() && i as int == listing_index(
                listings@,
                path@,
            ),
            Option::None => listing_index(listings@, path@) < 0,
        },
{
    let mut i: usize = 0;
    while i < listings.len()
        invariant
            i <= listings@.len(),
            forall|j: int| 0 <= j < i ==> (#[trigger] listings@[j]).path@ != path@,
        decreases listings@.len() - i,
    {
        if listings[i].path.eq(path) {
            proof {
                lemma_listing_index_at(listings@, path@, i as int);
            }
            return Option::Some(i);
        }
        i += 1;
    }
    proof {
        lemma_listing_index_none(listings@, path@);
    }
    Option::None
}

/// Run the whole collection phase against a snapshot of the tree.
///
/// This function carries the traversal's run-level guarantees. First,
/// termination: Verus accepts its loop only because `stack_measure`
/// strictly shrinks with every visited directory, and that holds for
/// *every* snapshot — one whose symbolic links point back at an ancestor,
/// one whose directories form a loop, one nested far past the depth
/// bound. Second, the collection is exactly what the policy reaches: the
/// returned queue holds every collectable match of every directory the
/// traversal visits (`reaches`), and nothing but such matches. Third, on
/// a tree-shaped snapshot — each path listed at one entry position, none
/// of them the root, as a real filesystem lists them — no path is
/// collected twice: each match is collected exactly once. (On a snapshot
/// that is not a tree, a directory reachable along two chains is visited
/// once per chain, and its matches recur accordingly.)
#[verifier::rlimit(100)]
pub fn collect_all(root: String, listings: &Vec<DirListing>) -> (q: WorkQueue)
    ensures
        forall|t: int| 0 <= t < q@.len() ==> reachable_match(listings@, root@, #[trigger] q@[t]),
        forall|p: Seq<char>, d: nat, k: int|
            #![trigger reaches(listings@, root@, p, d), row_match(listings@, p, k)]
            reaches(listings@, root@, p, d) && row_match(listings@, p, k) ==> q@.contains(
                entry_path(listings@, p, k),
            ),
        tree_shaped(listings@, root@) ==> (forall|t1: int, t2: int|
            #![trigger q@[t1], q@[t2]]
            0 <= t1 < t2 < q@.len() ==> q@[t1] != q@[t2]),
{
    let ghost ls = listings@;
    let ghost root0 = root@;
    let mut collector = Collector::new(root);
    let ghost w: nat = max_entries(ls) + 1;
    let ghost mut visited: Set<Seq<char>> = Set::empty();
    proof {
        assert(reach_from(ls, root0, 0, root0, 0));
        assert forall|p: Seq<char>, d: nat, k: int|
            #![trigger reaches(ls, root0, p, d), row_match(ls, p, k)]
            reaches(ls, root0, p, d) && row_match(ls, p, k) implies collector.queue@.contains(
            entry_path(ls, p, k),
        ) || stack_covers(ls, collector.stack@, p, d) by {
            assert(collector.stack@[0].path@ == root0 && collector.stack@[0].depth == 0);
            assert(reach_from(
                ls,
                collector.stack@[0].path@,
                collector.stack@[0].depth as nat,
                p,
                d,
            ));
            assert(stack_covers(ls, collector.stack@, p, d));
        }
    }
    loop
        invariant
            collector.wf(),
            ls == listings@,
            w == max_entries(ls) + 1,
            forall|j: int|
                0 <= j < collector.stack@.len() ==> reaches(
                    ls,
                    root0,
                    (#[trigger] collector.stack@[j]).path@,
                    collector.stack@[j].depth as nat,
                ),
            forall|t: int|
                0 <= t < collector.queue@.len() ==> reachable_match(
                    ls,
                    root0,
                    #[trigger] collector.queue@[t],
                ),
            forall|p: Seq<char>, d: nat, k: int|
                #![trigger reaches(ls, root0, p, d), row_match(ls, p, k)]
                reaches(ls, root0, p, d) && row_match(ls, p, k) ==> collector.queue@.contains(
                    entry_path(ls, p, k),
                ) || stack_covers(ls, collector.stack@, p, d),
            tree_shaped(ls, root0) ==> (forall|j1: int, j2: int|
                #![trigger collector.stack@[j1], collector.stack@[j2]]
                0 <= j1 < j2 < collector.stack@.len() ==> collector.stack@[j1].path@
                    != collector.stack@[j2].path@),
            tree_shaped(ls, root0) ==> (forall|j: int|
                0 <= j < collector.stack@.len() ==> !visited.contains(
                    (#[trigger] collector.stack@[j]).path@,
                )),
            tree_shaped(ls, root0) ==> (forall|j: int|
                0 <= j < collector.stack@.len() ==> ((#[trigger] collector.stack@[j]).path@
                    == root0 || from_visited(ls, visited, collector.stack@[j].path@))),
            tree_shaped(ls, root0) ==> (forall|x: Seq<char>|
                #[trigger] visited.contains(x) ==> (x == root0 || from_visited(ls, visited, x))),
            tree_shaped(ls, root0) ==> (forall|t1: int, t2: int|
                #![trigger collector.queue@[t1], collector.queue@[t2]]
                0 <= t1 < t2 < collector.queue@.len() ==> collector.queue@[t1]
                    != collector.queue@[t2]),
            tree_shaped(ls, root0) ==> (forall|t: int|
                0 <= t < collector.queue@.len() ==> from_visited(
                    ls,
                    visited,
                    #[trigger] collector.queue@[t],
                )),
        ensures
            ls == listings@,
            forall|t: int|
                0 <= t < collector.queue@.len() ==> reachable_match(
                    ls,
                    root0,
                    #[trigger] collector.queue@[t],
                ),
            forall|p: Seq<char>, d: nat, k: int|
                #![trigger reaches(ls, root0, p, d), row_match(ls, p, k)]
                reaches(ls, root0, p, d) && row_match(ls, p, k) ==> collector.queue@.contains(
                    entry_path(ls, p, k),
                ),
            tree_shaped(ls, root0) ==> (forall|t1: int, t2: int|
                #![trigger collector.queue@[t1], collector.queue@[t2]]
                0 <= t1 < t2 < collector.queue@.len() ==> collector.queue@[t1]
                    != collector.queue@[t2]),
        decreases stack_measure(collector.stack@, w),
    {
        let ghost stack0 = collector.stack@;
        let ghost m0 = stack_measure(stack0, w);
        match collector.take_next() {
            Option::None => {
                proof {
                    assert forall|p: Seq<char>, d: nat, k: int|
                        #![trigger reaches(ls, root0, p, d), row_match(ls, p, k)]
                        reaches(ls, root0, p, d) && row_match(ls, p, k) implies
                        collector.queue@.contains(entry_path(ls, p, k)) by {
                        if !collector.queue@.contains(entry_path(ls, p, k)) {
                            assert(stack_covers(ls, collector.stack@, p, d));
                            let j = choose|j: int|
                                0 <= j < collector.stack@.len() && reach_from(
                                    ls,
                                    (#[trigger] collector.stack@[j]).path@,
                                    collector.stack@[j].depth as nat,
                                    p,
                                    d,
                                );
                            assert(false);
                        }
                    }
                }
                break ;
            },
            Option::Some(dir) => {
                let depth = dir.depth;
                let ghost a = dir.path@;
                let ghost da = depth as nat;
                let ghost pw = pow_nat(w, (MAX_DEPTH - da) as nat);
                proof {
                    assert(stack0[stack0.len() - 1] == stack0.last());
                    assert(reaches(ls, root0, a, da));
                    assert(m0 == stack_measure(collector.stack@, w) + pow_nat(
                        w,
                        (MAX_DEPTH + 1 - da) as nat,
                    ));
                    assert(pow_nat(w, (MAX_DEPTH + 1 - da) as nat) == w * pw);
                    lemma_pow_nat_pos(w, (MAX_DEPTH - da) as nat);
                }
                let ghost visited0 = visited;
                proof {
                    visited = visited.insert(a);
                    if tree_shaped(ls, root0) {
                        assert(!visited0.contains(stack0[stack0.len() - 1].path@));
                        assert forall|j1: int, j2: int|
                            #![trigger collector.stack@[j1], collector.stack@[j2]]
                            0 <= j1 < j2 < collector.stack@.len() implies collector.stack@[
                            j1].path@ != collector.stack@[j2].path@ by {
                            assert(collector.stack@[j1] == stack0[j1] && collector.stack@[j2]
                                == stack0[j2]);
                        }
                        assert forall|j: int|
                            0 <= j < collector.stack@.len() implies !visited.contains(
                            (#[trigger] collector.stack@[j]).path@,
                        ) by {
                            assert(collector.stack@[j] == stack0[j]);
                            assert(stack0[j].path@ != stack0[stack0.len() - 1].path@);
                        }
                        assert forall|j: int|
                            0 <= j < collector.stack@.len() implies ((
                        #[trigger] collector.stack@[j]).path@ == root0 || from_visited_upto(
                            ls,
                            visited,
                            a,
                            0,
                            collector.stack@[j].path@,
                        )) by {
                            assert(collector.stack@[j] == stack0[j]);
                            if stack0[j].path@ != root0 {
                                assert(from_visited(ls, visited0, stack0[j].path@));
                                lemma_from_visited_start(ls, visited0, a, stack0[j].path@);
                            }
                        }
                        assert forall|x: Seq<char>| #[trigger] visited.contains(x) implies (x
                            == root0 || from_visited_upto(ls, visited, a, 0, x)) by {
                            if x != root0 {
                                if x == a {
                                    assert(stack0[stack0.len() - 1].path@ == a);
                                    assert(from_visited(ls, visited0, a));
                                } else {
                                    assert(visited0.contains(x));
                                    assert(from_visited(ls, visited0, x));
                                }
                                lemma_from_visited_start(ls, visited0, a, x);
                            }
                        }
                        assert forall|t: int|
                            0 <= t < collector.queue@.len() implies from_visited_upto(
                            ls,
                            visited,
                            a,
                            0,
                            #[trigger] collector.queue@[t],
                        ) by {
                            assert(from_visited(ls, visited0, collector.queue@[t]));
                            lemma_from_visited_start(ls, visited0, a, collector.queue@[t]);
                        }
                    }
                }
                let ghost base = stack_measure(collector.stack@, w);
                match find_listing(listings, &dir.path) {
                    Option::Some(li) => {
                        proof {
                            assert forall|p: Seq<char>, d: nat, k: int|
                                #![trigger reaches(ls, root0, p, d), row_match(ls, p, k)]
                                reaches(ls, root0, p, d) && row_match(ls, p, k) implies
                                collector.queue@.contains(entry_path(ls, p, k)) || stack_covers(
                                ls,
                                collector.stack@,
                                p,
                                d,
                            ) || pending_from(ls, a, da, 0, p, d, k) by {
                                if !collector.queue@.contains(entry_path(ls, p, k)) {
                                    assert(stack_covers(ls, stack0, p, d));
                                    let j = choose|j: int|
                                        0 <= j < stack0.len() && reach_from(
                                            ls,
                                            (#[trigger] stack0[j]).path@,
                                            stack0[j].depth as nat,
                                            p,
                                            d,
                                        );
                                    if j < stack0.len() - 1 {
                                        assert(collector.stack@[j] == stack0[j]);
                                        assert(stack_covers(ls, collector.stack@, p, d));
                                    } else {
                                        assert(reach_from(ls, a, da, p, d));
                                        if d == da {
                                            assert(pending_from(ls, a, da, 0, p, d, k));
                                        } else {
                                            assert(d > da);
                                            lemma_reach_from_step(ls, a, da, p, d);
                                            let k0 = choose|k0: int|
                                                #[trigger] row_descend(ls, a, k0) && reach_from(
                                                    ls,
                                                    entry_path(ls, a, k0),
                                                    da + 1,
                                                    p,
                                                    d,
                                                );
                                            assert(pending_from(ls, a, da, 0, p, d, k));
                                        }
                                    }
                                }
                            }
                        }
                        let mut k2: usize = 0;
                        while k2 < listings[li].entries.len()
                            invariant
                                collector.wf(),
                                ls == listings@,
                                w == max_entries(ls) + 1,
                                li < listings@.len(),
                                li as int == listing_index(ls, a),
                                k2 <= ls[li as int].entries@.len(),
                                depth <= MAX_DEPTH,
                                da == depth as nat,
                                pw == pow_nat(w, (MAX_DEPTH - da) as nat),
                                reaches(ls, root0, a, da),
                                stack_measure(collector.stack@, w) <= base + k2 * pw,
                                forall|j: int|
                                    0 <= j < collector.stack@.len() ==> reaches(
                                        ls,
                                        root0,
                                        (#[trigger] collector.stack@[j]).path@,
                                        collector.stack@[j].depth as nat,
                                    ),
                                forall|t: int|
                                    0 <= t < collector.queue@.len() ==> reachable_match(
                                        ls,
                                        root0,
                                        #[trigger] collector.queue@[t],
                                    ),
                                forall|p: Seq<char>, d: nat, k: int|
                                    #![trigger reaches(ls, root0, p, d), row_match(ls, p, k)]
                                    reaches(ls, root0, p, d) && row_match(ls, p, k)
                                        ==> collector.queue@.contains(entry_path(ls, p, k))
                                        || stack_covers(ls, collector.stack@, p, d)
                                        || pending_from(ls, a, da, k2 as int, p, d, k),
                                visited.contains(a),
                                tree_shaped(ls, root0) ==> (forall|j1: int, j2: int|
                                    #![trigger collector.stack@[j1], collector.stack@[j2]]
                                    0 <= j1 < j2 < collector.stack@.len()
                                        ==> collector.stack@[j1].path@
                                        != collector.stack@[j2].path@),
                                tree_shaped(ls, root0) ==> (forall|j: int|
                                    0 <= j < collector.stack@.len() ==> !visited.contains(
                                        (#[trigger] collector.stack@[j]).path@,
                                    )),
                                tree_shaped(ls, root0) ==> (forall|j: int|
                                    0 <= j < collector.stack@.len() ==> ((
                                    #[trigger] collector.stack@[j]).path@ == root0
                                        || from_visited_upto(
                                        ls,
                                        visited,
                                        a,
                                        k2 as int,
                                        collector.stack@[j].path@,
                                    ))),
                                tree_shaped(ls, root0) ==> (forall|x: Seq<char>|
                                    #[trigger] visited.contains(x) ==> (x == root0
                                        || from_visited_upto(ls, visited, a, k2 as int, x))),
                                tree_shaped(ls, root0) ==> (forall|t1: int, t2: int|
                                    #![trigger collector.queue@[t1], collector.queue@[t2]]
                                    0 <= t1 < t2 < collector.queue@.len()
                                        ==> collector.queue@[t1] != collector.queue@[t2]),
                                tree_shaped(ls, root0) ==> (forall|t: int|
                                    0 <= t < collector.queue@.len() ==> from_visited_upto(
                                        ls,
                                        visited,
                                        a,
                                        k2 as int,
                                        #[trigger] collector.queue@[t],
                                    )),
                            decreases ls[li as int].entries@.len() - k2,
                        {
                            let entry = &listings[li].entries[k2];
                            let ghost e = ls[li as int].entries@[k2 as int];
                            let ghost sbefore = collector.stack@;
                            let ghost qbefore = collector.queue@;
                            collector.handle_entry(
                                entry.path.clone(),
                                depth,
                                entry.is_symlink,
                                entry.is_dir,
                                entry.matches_predicate,
                            );
                            proof {
                                assert(row_of(ls, a) == ls[li as int].entries@);
                                if !e.is_symlink && !e.matches_predicate && e.is_dir && depth
                                    < MAX_DEPTH {
                                    assert(collector.stack@.drop_last() == sbefore);
                                    assert(stack_measure(collector.stack@, w) == stack_measure(
                                        sbefore,
                                        w,
                                    ) + pow_nat(w, (MAX_DEPTH + 1 - (da + 1)) as nat));
                                    assert((MAX_DEPTH + 1 - (da + 1)) as nat == (MAX_DEPTH
                                        - da) as nat);
                                    assert(row_descend(ls, a, k2 as int));
                                    assert(entry_path(ls, a, k2 as int) == e.path@);
                                    assert(reach_from(ls, root0, 0, e.path@, da + 1)) by {
                                        assert(reach_from(ls, root0, 0, a, da) && da + 1 - 1
                                            < MAX_DEPTH && row_descend(ls, a, k2 as int)
                                            && entry_path(ls, a, k2 as int) == e.path@);
                                    }
                                    assert forall|j: int|
                                        0 <= j < collector.stack@.len() implies reaches(
                                        ls,
                                        root0,
                                        (#[trigger] collector.stack@[j]).path@,
                                        collector.stack@[j].depth as nat,
                                    ) by {
                                        if j < sbefore.len() {
                                            assert(collector.stack@[j] == sbefore[j]);
                                        } else {
                                            assert(collector.stack@[j].path@ == e.path@
                                                && collector.stack@[j].depth == depth + 1);
                                        }
                                    }
                                } else {
                                    assert(collector.stack@ == sbefore);
                                }
                                assert(k2 * pw + pw == (k2 + 1) * pw) by (nonlinear_arith);
                                if !e.is_symlink && e.matches_predicate {
                                    assert(row_match(ls, a, k2 as int));
                                    assert(entry_path(ls, a, k2 as int) == e.path@);
                                    assert(collector.queue@ == qbefore.push(e.path@));
                                    assert(reachable_match(ls, root0, e.path@)) by {
                                        assert(reaches(ls, root0, a, da) && row_match(
                                            ls,
                                            a,
                                            k2 as int,
                                        ) && entry_path(ls, a, k2 as int) == e.path@);
                                    }
                                    assert forall|t: int|
                                        0 <= t < collector.queue@.len() implies reachable_match(
                                        ls,
                                        root0,
                                        #[trigger] collector.queue@[t],
                                    ) by {
                                        if t < qbefore.len() {
                                            assert(collector.queue@[t] == qbefore[t]);
                                        } else {
                                            assert(collector.queue@[t] == e.path@);
                                        }
                                    }
                                }
                                assert forall|p: Seq<char>, d: nat, k: int|
                                    #![trigger reaches(ls, root0, p, d), row_match(ls, p, k)]
                                    reaches(ls, root0, p, d) && row_match(ls, p, k) implies
                                    collector.queue@.contains(entry_path(ls, p, k))
                                        || stack_covers(ls, collector.stack@, p, d)
                                        || pending_from(ls, a, da, k2 as int + 1, p, d, k) by {
                                    if qbefore.contains(entry_path(ls, p, k)) {
                                        if !e.is_symlink && e.matches_predicate {
                                            lemma_push_contains(
                                                qbefore,
                                                e.path@,
                                                entry_path(ls, p, k),
                                            );
                                        }
                                        assert(collector.queue@.contains(entry_path(ls, p, k)));
                                    } else if stack_covers(ls, sbefore, p, d) {
                                        let j = choose|j: int|
                                            0 <= j < sbefore.len() && reach_from(
                                                ls,
                                                (#[trigger] sbefore[j]).path@,
                                                sbefore[j].depth as nat,
                                                p,
                                                d,
                                            );
                                        assert(collector.stack@[j] == sbefore[j]);
                                        assert(stack_covers(ls, collector.stack@, p, d));
                                    } else {
                                        assert(pending_from(ls, a, da, k2 as int, p, d, k));
                                        if p == a && d == da && k2 as int <= k {
                                            if k == k2 as int {
                                                assert(match_entry(e));
                                                lemma_push_contains(qbefore, e.path@, e.path@);
                                                assert(collector.queue@.contains(entry_path(
                                                    ls,
                                                    p,
                                                    k,
                                                )));
                                            } else {
                                                assert(pending_from(
                                                    ls,
                                                    a,
                                                    da,
                                                    k2 as int + 1,
                                                    p,
                                                    d,
                                                    k,
                                                ));
                                            }
                                        } else {
                                            assert(da < MAX_DEPTH);
                                            let k0 = choose|k0: int|
                                                k2 as int <= k0 && #[trigger] row_descend(
                                                    ls,
                                                    a,
                                                    k0,
                                                ) && reach_from(
                                                    ls,
                                                    entry_path(ls, a, k0),
                                                    da + 1,
                                                    p,
                                                    d,
                                                );
                                            if k0 == k2 as int {
                                                assert(descend_entry(e));
                                                assert(entry_path(ls, a, k2 as int) == e.path@);
                                                let jn = collector.stack@.len() - 1;
                                                assert(collector.stack@[jn].path@ == e.path@
                                                    && collector.stack@[jn].depth as nat == da
                                                    + 1);
                                                assert(reach_from(
                                                    ls,
                                                    collector.stack@[jn].path@,
                                                    collector.stack@[jn].depth as nat,
                                                    p,
                                                    d,
                                                ));
                                                assert(stack_covers(ls, collector.stack@, p, d));
                                            } else {
                                                assert(pending_from(
                                                    ls,
                                                    a,
                                                    da,
                                                    k2 as int + 1,
                                                    p,
                                                    d,
                                                    k,
                                                ));
                                            }
                                        }
                                    }
                                }
                                if tree_shaped(ls, root0) {
                                    assert(valid_entry(ls, a, k2 as int));
                                    assert(entry_path(ls, a, k2 as int) == e.path@);
                                    assert forall|x: Seq<char>| #[trigger] visited.contains(
                                        x,
                                    ) implies (x == root0 || from_visited_upto(
                                        ls,
                                        visited,
                                        a,
                                        k2 as int + 1,
                                        x,
                                    )) by {
                                        if x != root0 {
                                            assert(from_visited_upto(ls, visited, a, k2 as int,
                                                x));
                                            lemma_from_visited_bump(ls, visited, a, k2 as int, x);
                                        }
                                    }
                                    if !e.is_symlink && e.matches_predicate {
                                        assert forall|t1: int, t2: int|
                                            #![trigger collector.queue@[t1], collector.queue@[t2]]
                                            0 <= t1 < t2 < collector.queue@.len() implies
                                            collector.queue@[t1] != collector.queue@[t2] by {
                                            if t2 < qbefore.len() {
                                                assert(collector.queue@[t1] == qbefore[t1]
                                                    && collector.queue@[t2] == qbefore[t2]);
                                            } else {
                                                assert(collector.queue@[t2] == e.path@);
                                                assert(collector.queue@[t1] == qbefore[t1]);
                                                assert(from_visited_upto(ls, visited, a,
                                                    k2 as int, qbefore[t1]));
                                                lemma_fresh_entry(ls, root0, visited, a,
                                                    k2 as int, qbefore[t1]);
                                            }
                                        }
                                        assert forall|t: int|
                                            0 <= t < collector.queue@.len() implies
                                            from_visited_upto(
                                            ls,
                                            visited,
                                            a,
                                            k2 as int + 1,
                                            #[trigger] collector.queue@[t],
                                        ) by {
                                            if t < qbefore.len() {
                                                assert(collector.queue@[t] == qbefore[t]);
                                                assert(from_visited_upto(ls, visited, a,
                                                    k2 as int, qbefore[t]));
                                                lemma_from_visited_bump(ls, visited, a,
                                                    k2 as int, qbefore[t]);
                                            } else {
                                                assert(collector.queue@[t] == e.path@);
                                                assert(visited.contains(a) && valid_entry(ls, a,
                                                    k2 as int) && entry_path(ls, a, k2 as int)
                                                    == e.path@);
                                            }
                                        }
                                        assert forall|j: int|
                                            0 <= j < collector.stack@.len() implies ((
                                        #[trigger] collector.stack@[j]).path@ == root0
                                            || from_visited_upto(
                                            ls,
                                            visited,
                                            a,
                                            k2 as int + 1,
                                            collector.stack@[j].path@,
                                        )) by {
                                            if collector.stack@[j].path@ != root0 {
                                                assert(from_visited_upto(ls, visited, a,
                                                    k2 as int, collector.stack@[j].path@));
                                                lemma_from_visited_bump(ls, visited, a,
                                                    k2 as int, collector.stack@[j].path@);
                                            }
                                        }
                                    } else if !e.is_symlink && !e.matches_predicate && e.is_dir
                                        && depth < MAX_DEPTH {
                                        assert forall|t: int|
                                            0 <= t < collector.queue@.len() implies
                                            from_visited_upto(
                                            ls,
                                            visited,
                                            a,
                                            k2 as int + 1,
                                            #[trigger] collector.queue@[t],
                                        ) by {
                                            assert(from_visited_upto(ls, visited, a, k2 as int,
                                                collector.queue@[t]));
                                            lemma_from_visited_bump(ls, visited, a, k2 as int,
                                                collector.queue@[t]);
                                        }
                                        assert(collector.stack@[collector.stack@.len()
                                            - 1].path@ == e.path@);
                                        assert forall|j1: int, j2: int|
                                            #![trigger collector.stack@[j1], collector.stack@[j2]]
                                            0 <= j1 < j2 < collector.stack@.len() implies
                                            collector.stack@[j1].path@ != collector.stack@[
                                            j2].path@ by {
                                            if j2 < sbefore.len() {
                                                assert(collector.stack@[j1] == sbefore[j1]
                                                    && collector.stack@[j2] == sbefore[j2]);
                                            } else {
                                                assert(collector.stack@[j1] == sbefore[j1]);
                                                assert(sbefore[j1].path@ == root0
                                                    || from_visited_upto(ls, visited, a,
                                                    k2 as int, sbefore[j1].path@));
                                                lemma_fresh_entry(ls, root0, visited, a,
                                                    k2 as int, sbefore[j1].path@);
                                            }
                                        }
                                        assert forall|j: int|
                                            0 <= j < collector.stack@.len() implies
                                            !visited.contains(
                                            (#[trigger] collector.stack@[j]).path@,
                                        ) by {
                                            if j < sbefore.len() {
                                                assert(collector.stack@[j] == sbefore[j]);
                                            } else {
                                                assert(collector.stack@[j].path@ == e.path@);
                                                if visited.contains(e.path@) {
                                                    assert(e.path@ == root0
                                                        || from_visited_upto(ls, visited, a,
                                                        k2 as int, e.path@));
                                                    lemma_fresh_entry(ls, root0, visited, a,
                                                        k2 as int, e.path@);
                                                }
                                            }
                                        }
                                        assert forall|j: int|
                                            0 <= j < collector.stack@.len() implies ((
                                        #[trigger] collector.stack@[j]).path@ == root0
                                            || from_visited_upto(
                                            ls,
                                            visited,
                                            a,
                                            k2 as int + 1,
                                            collector.stack@[j].path@,
                                        )) by {
                                            if j < sbefore.len() {
                                                assert(collector.stack@[j] == sbefore[j]);
                                                if sbefore[j].path@ != root0 {
                                                    assert(from_visited_upto(ls, visited, a,
                                                        k2 as int, sbefore[j].path@));
                                                    lemma_from_visited_bump(ls, visited, a,
                                                        k2 as int, sbefore[j].path@);
                                                }
                                            } else {
                                                assert(collector.stack@[j].path@ == e.path@);
                                                assert(visited.contains(a) && valid_entry(ls, a,
                                                    k2 as int) && entry_path(ls, a, k2 as int)
                                                    == e.path@);
                                            }
                                        }
                                    } else {
                                        assert forall|t: int|
                                            0 <= t < collector.queue@.len() implies
                                            from_visited_upto(
                                            ls,
                                            visited,
                                            a,
                                            k2 as int + 1,
                                            #[trigger] collector.queue@[t],
                                        ) by {
                                            assert(from_visited_upto(ls, visited, a, k2 as int,
                                                collector.queue@[t]));
                                            lemma_from_visited_bump(ls, visited, a, k2 as int,
                                                collector.queue@[t]);
                                        }
                                        assert forall|j: int|
                                            0 <= j < collector.stack@.len() implies ((
                                        #[trigger] collector.stack@[j]).path@ == root0
                                            || from_visited_upto(
                                            ls,
                                            visited,
                                            a,
                                            k2 as int + 1,
                                            collector.stack@[j].path@,
                                        )) by {
                                            if collector.stack@[j].path@ != root0 {
                                                assert(from_visited_upto(ls, visited, a,
                                                    k2 as int, collector.stack@[j].path@));
                                                lemma_from_visited_bump(ls, visited, a,
                                                    k2 as int, collector.stack@[j].path@);
                                            }
                                        }
                                    }
                                }
                            }
                            k2 += 1;
                        }
                        proof {
                            let n = ls[li as int].entries@.len() as int;
                            assert forall|p: Seq<char>, d: nat, k: int|
                                #![trigger reaches(ls, root0, p, d), row_match(ls, p, k)]
                                reaches(ls, root0, p, d) && row_match(ls, p, k) implies
                                collector.queue@.contains(entry_path(ls, p, k)) || stack_covers(
                                ls,
                                collector.stack@,
                                p,
                                d,
                            ) by {
                                if !collector.queue@.contains(entry_path(ls, p, k))
                                    && !stack_covers(ls, collector.stack@, p, d) {
                                    assert(pending_from(ls, a, da, n, p, d, k));
                                    if p == a && d == da && n <= k {
                                        assert(k < row_of(ls, a).len());
                                        assert(false);
                                    } else {
                                        let k0 = choose|k0: int|
                                            n <= k0 && #[trigger] row_descend(ls, a, k0)
                                                && reach_from(
                                                ls,
                                                entry_path(ls, a, k0),
                                                da + 1,
                                                p,
                                                d,
                                            );
                                        assert(k0 < row_of(ls, a).len());
                                        assert(false);
                                    }
                                }
                            }
                            let n2 = ls[li as int].entries@.len();
                            lemma_max_entries_bound(ls, li as int);
                            assert(n2 <= w - 1);
                            assert(n2 * pw <= (w - 1) * pw) by (nonlinear_arith)
                                requires
                                    n2 <= w - 1,
                                    0 <= pw,
                                    0 <= n2,
                            ;
                            assert(base + (w - 1) * pw < m0) by (nonlinear_arith)
                                requires
                                    m0 == base + w * pw,
                                    pw >= 1,
                                    w >= 1,
                            ;
                            assert(stack_measure(collector.stack@, w) < m0);
                            if tree_shaped(ls, root0) {
                                let upto = ls[li as int].entries@.len() as int;
                                assert forall|j: int|
                                    0 <= j < collector.stack@.len() implies ((
                                #[trigger] collector.stack@[j]).path@ == root0 || from_visited(
                                    ls,
                                    visited,
                                    collector.stack@[j].path@,
                                )) by {
                                    if collector.stack@[j].path@ != root0 {
                                        assert(from_visited_upto(ls, visited, a, upto,
                                            collector.stack@[j].path@));
                                        lemma_from_visited_finish(ls, visited, a, upto,
                                            collector.stack@[j].path@);
                                    }
                                }
                                assert forall|x: Seq<char>| #[trigger] visited.contains(
                                    x,
                                ) implies (x == root0 || from_visited(ls, visited, x)) by {
                                    if x != root0 {
                                        assert(from_visited_upto(ls, visited, a, upto, x));
                                        lemma_from_visited_finish(ls, visited, a, upto, x);
                                    }
                                }
                                assert forall|t: int|
                                    0 <= t < collector.queue@.len() implies from_visited(
                                    ls,
                                    visited,
                                    #[trigger] collector.queue@[t],
                                ) by {
                                    assert(from_visited_upto(ls, visited, a, upto,
                                        collector.queue@[t]));
                                    lemma_from_visited_finish(ls, visited, a, upto,
                                        collector.queue@[t]);
                                }
                            }
                        }
                    },
                    Option::None => {
                        proof {
                            assert(listing_index(ls, a) < 0);
                            assert forall|p: Seq<char>, d: nat, k: int|
                                #![trigger reaches(ls, root0, p, d), row_match(ls, p, k)]
                                reaches(ls, root0, p, d) && row_match(ls, p, k) implies
                                collector.queue@.contains(entry_path(ls, p, k)) || stack_covers(
                                ls,
                                collector.stack@,
                                p,
                                d,
                            ) by {
                                if !collector.queue@.contains(entry_path(ls, p, k)) {
                                    assert(stack_covers(ls, stack0, p, d));
                                    let j = choose|j: int|
                                        0 <= j < stack0.len() && reach_from(
                                            ls,
                                            (#[trigger] stack0[j]).path@,
                                            stack0[j].depth as nat,
                                            p,
                                            d,
                                        );
                                    if j < stack0.len() - 1 {
                                        assert(collector.stack@[j] == stack0[j]);
                                        assert(stack_covers(ls, collector.stack@, p, d));
                                    } else {
                                        assert(reach_from(ls, a, da, p, d));
                                        if d == da {
                                            assert(row_match(ls, p, k));
                                            assert(false);
                                        } else {
                                            assert(d > da);
                                            lemma_reach_from_step(ls, a, da, p, d);
                                            let k0 = choose|k0: int|
                                                #[trigger] row_descend(ls, a, k0) && reach_from(
                                                    ls,
                                                    entry_path(ls, a, k0),
                                                    da + 1,
                                                    p,
                                                    d,
                                                );
                                            assert(false);
                                        }
                                    }
                                }
                            }
                            assert(base < m0) by (nonlinear_arith)
                                requires
                                    m0 == base + w * pw,
                                    pw >= 1,
                                    w >= 1,
                            ;
                            if tree_shaped(ls, root0) {
                                assert forall|j: int|
                                    0 <= j < collector.stack@.len() implies ((
                                #[trigger] collector.stack@[j]).path@ == root0 || from_visited(
                                    ls,
                                    visited,
                                    collector.stack@[j].path@,
                                )) by {
                                    if collector.stack@[j].path@ != root0 {
                                        assert(from_visited_upto(ls, visited, a, 0,
                                            collector.stack@[j].path@));
                                        lemma_from_visited_finish(ls, visited, a, 0,
                                            collector.stack@[j].path@);
                                    }
                                }
                                assert forall|x: Seq<char>| #[trigger] visited.contains(
                                    x,
                                ) implies (x == root0 || from_visited(ls, visited, x)) by {
                                    if x != root0 {
                                        assert(from_visited_upto(ls, visited, a, 0, x));
                                        lemma_from_visited_finish(ls, visited, a, 0, x);
                                    }
                                }
                                assert forall|t: int|
                                    0 <= t < collector.queue@.len() implies from_visited(
                                    ls,
                                    visited,
                                    #[trigger] collector.queue@[t],
                                ) by {
                                    assert(from_visited_upto(ls, visited, a, 0,
                                        collector.queue@[t]));
                                    lemma_from_visited_finish(ls, visited, a, 0,
                                        collector.queue@[t]);
                                }
                            }
                        }
                    },
                }
            },
        }
    }
    let q = collector.finish();
    proof {
        assert(ls == listings@ && root0 == root@);
    }
    q
}

/// The traversal's reach with the depth guard ignored: what an unbounded
/// traversal from `root` would visit.
pub open spec fn reach_unbounded(
    ls: Seq<DirListing>,
    root: Seq<char>,
    p: Seq<char>,
    d: nat,
) -> bool
    decreases d,
{
    if d == 0 {
        p == root
    } else {
        exists|q: Seq<char>, k: int|
            reach_unbounded(ls, root, q, (d - 1) as nat) && #[trigger] row_descend(ls, q, k)
                && entry_path(ls, q, k) == p
    }
}

/// The guarded traversal never visits more than an unbounded one would.
pub proof fn lemma_guarded_within_unbounded(
    ls: Seq<DirListing>,
    root: Seq<char>,
    p: Seq<char>,
    d: nat,
)
    requires
        reaches(ls, root, p, d),
    ensures
        reach_unbounded(ls, root, p, d),
    decreases d,
{
    if d > 0 {
        let (q, k) = choose|q: Seq<char>, k: int|
            reach_from(ls, root, 0, q, (d - 1) as nat) && d - 1 < MAX_DEPTH
                && #[trigger] row_descend(ls, q, k) && entry_path(ls, q, k) == p;
        lemma_guarded_within_unbounded(ls, root, q, (d - 1) as nat);
        assert(reach_unbounded(ls, root, q, (d - 1) as nat) && row_descend(ls, q, k)
            && entry_path(ls, q, k) == p);
    }
}

/// Law: traversal below the bound is unaffected by the depth guard. On a
/// snapshot none of whose reachable directories lies past the bound, the
/// guard excludes nothing: whatever an unbounded traversal would visit,
/// the guarded traversal visits too, so by `collect_all`'s contract the
/// two collect the same matches.
pub proof fn lemma_shallow_tree_guard_vacuous(
    ls: Seq<DirListing>,
    root: Seq<char>,
    p: Seq<char>,
    d: nat,
)
    requires
        reach_unbounded(ls, root, p, d),
        forall|p2: Seq<char>, d2: nat| #[trigger] reach_unbounded(ls, root, p2, d2) ==> d2
            <= MAX_DEPTH,
    ensures
        reaches(ls, root, p, d),
    decreases d,
{
    if d > 0 {
        let (q, k) = choose|q: Seq<char>, k: int|
            reach_unbounded(ls, root, q, (d - 1) as nat) && #[trigger] row_descend(ls, q, k)
                && entry_path(ls, q, k) == p;
        lemma_shallow_tree_guard_vacuous(ls, root, q, (d - 1) as nat);
        assert(d <= MAX_DEPTH);
        assert(reach_from(ls, root, 0, q, (d - 1) as nat) && d - 1 < MAX_DEPTH && row_descend(
            ls,
            q,
            k,
        ) && entry_path(ls, q, k) == p);
    }
}

} // verus!
