//! Partitioning the rows of a disk index: which work comes next, and what it
//! leaves behind.
use vstd::prelude::*;
use crate::clustering::{size_of, Clustering, MERGE_DIVISOR, MIN_PARTITIONS, NEIGHBOR_PARTITIONS, SPLIT_FACTOR};
use crate::lire::{flagged_rows, lists, rows_of_flagged};
use crate::reassign::{flag_pool, lemma_pool_len, pool_flags};
use crate::upkeep::{partition_count, partitions_for};

verus! {

/// How far partitioning has come.
#[derive(Clone, Copy, PartialEq, Eq, Debug, Structural)]
pub enum Phase {
    /// No partitions yet.
    Bootstrap,
    /// New rows have joined the partitions that there are.
    Joined,
    /// Partitions are repaired; they may still be far from the best ones.
    Drift,
    /// Partitions are settled, their sizes are not.
    Settled,
    /// Partitions that are too large are split.
    Split,
    /// Splitting is over.
    Repair,
    /// Partitions that are too small are dissolved.
    Merge,
    Done,
}

/// What comes next.
#[derive(Clone, Copy, PartialEq, Eq, Debug, Structural)]
pub enum Work {
    /// Cluster all rows around this many centroids.
    Cluster(usize),
    /// Reassign the rows around the changed partitions.
    Reassign,
    /// Cluster a sample anew around this many centroids, and take these over
    /// if they are clearly better.
    TestDrift(usize),
    /// Split a partition in two.
    Split(usize),
    /// Spread the rows of a partition over the others.
    Dissolve(usize),
    Finish,
}

/// A partitioning under way.
pub struct Repartition {
    pub phase: Phase,
    /// Partitions whose membership changed since the last repair.
    pub changed: Vec<bool>,
}

/// Place in the order of phases.
pub open spec fn order_of(p: Phase) -> int {
    match p {
        Phase::Bootstrap => 0,
        Phase::Joined => 1,
        Phase::Drift => 2,
        Phase::Settled => 3,
        Phase::Split => 4,
        Phase::Repair => 5,
        Phase::Merge => 6,
        Phase::Done => 7,
    }
}

/// No partition changed.
pub open spec fn none_changed(nlist: int) -> Seq<bool> {
    Seq::new(nlist as nat, |p: int| false)
}

/// What comes next, and the phase and the changed partitions behind it.
pub open spec fn next_work(phase: Phase, changed: Seq<bool>, c: Clustering, target: u32) -> (
    Work,
    Phase,
    Seq<bool>,
)
    decreases 7 - order_of(phase),
{
    let k = partitions_for(c.assignments@.len() as int, target as int) as usize;
    let repair = c.nlist > 1 && changed.contains(true);
    match phase {
        Phase::Bootstrap => (Work::Cluster(k), Phase::Settled, changed),
        Phase::Joined => if repair {
            (Work::Reassign, Phase::Drift, changed)
        } else {
            next_work(Phase::Drift, changed, c, target)
        },
        Phase::Drift => (Work::TestDrift(k), Phase::Settled, changed),
        Phase::Settled => next_work(Phase::Split, none_changed(c.nlist as int), c, target),
        Phase::Split => match c.first_oversized(target as int) {
            Some(p) => (Work::Split(p as usize), Phase::Split, changed),
            None => next_work(Phase::Repair, changed, c, target),
        },
        Phase::Repair => if repair {
            (Work::Reassign, Phase::Merge, changed)
        } else {
            next_work(Phase::Merge, changed, c, target)
        },
        Phase::Merge => match c.first_undersized(target as int) {
            Some(p) => (Work::Dissolve(p as usize), Phase::Merge, changed),
            None => (Work::Finish, Phase::Done, changed),
        },
        Phase::Done => (Work::Finish, Phase::Done, changed),
    }
}

fn any(flags: &Vec<bool>) -> (r: bool)
    ensures
        r == flags@.contains(true),
{
    let mut i: usize = 0;
    while i < flags.len()
        invariant
            i <= flags@.len(),
            forall|j: int| 0 <= j < i ==> flags@[j] == false,
        decreases flags.len() - i,
    {
        if flags[i] {
            assert(flags@[i as int] == true);
            return true;
        }
        i = i + 1;
    }
    false
}

fn clear_flags(n: usize) -> (flags: Vec<bool>)
    ensures
        flags@ == none_changed(n as int),
{
    let mut flags: Vec<bool> = Vec::new();
    while flags.len() < n
        invariant
            flags@.len() <= n,
            flags@ == none_changed(flags@.len() as int),
        decreases n - flags.len(),
    {
        flags.push(false);
        assert(flags@ =~= none_changed(flags@.len() as int));
    }
    flags
}

impl Repartition {
    /// Partitions there are none.
    pub fn bootstrap() -> (r: Repartition)
        ensures
            r.phase == Phase::Bootstrap,
            r.changed@.len() == 0,
    {
        Repartition { phase: Phase::Bootstrap, changed: Vec::new() }
    }

    /// The partitions there are take up new rows; `changed` are those that did,
    /// and those that lost rows.
    pub fn resume(changed: Vec<bool>) -> (r: Repartition)
        ensures
            r.phase == Phase::Joined,
            r.changed@ == changed@,
    {
        Repartition { phase: Phase::Joined, changed }
    }

    /// What comes next.
    pub fn next(&mut self, c: &Clustering, target: u32) -> (w: Work)
        requires
            c.wf(),
            target > 0,
        ensures
            (w, final(self).phase, final(self).changed@) == next_work(
                old(self).phase,
                old(self).changed@,
                *c,
                target,
            ),
    {
        proof {
            reveal_with_fuel(next_work, 5);
        }
        if self.phase == Phase::Bootstrap {
            self.phase = Phase::Settled;
            return Work::Cluster(partition_count(c.assignments.len(), target));
        }
        if self.phase == Phase::Joined {
            self.phase = Phase::Drift;
            if c.nlist > 1 && any(&self.changed) {
                return Work::Reassign;
            }
        }
        if self.phase == Phase::Drift {
            self.phase = Phase::Settled;
            return Work::TestDrift(partition_count(c.assignments.len(), target));
        }
        if self.phase == Phase::Settled {
            self.phase = Phase::Split;
            self.changed = clear_flags(c.nlist);
        }
        if self.phase == Phase::Split {
            if let Some(p) = c.oversized(target as usize) {
                return Work::Split(p);
            }
            self.phase = Phase::Repair;
        }
        if self.phase == Phase::Repair {
            self.phase = Phase::Merge;
            if c.nlist > 1 && any(&self.changed) {
                return Work::Reassign;
            }
        }
        if self.phase == Phase::Merge {
            if let Some(p) = c.undersized(target as usize) {
                return Work::Dissolve(p);
            }
            self.phase = Phase::Done;
        }
        Work::Finish
    }

    /// The partition `p` was split, or would not come apart. In that case
    /// splitting is over.
    pub fn after_split(&mut self, p: usize, done: bool)
        requires
            p < old(self).changed@.len(),
        ensures
            done ==> final(self).changed@ == old(self).changed@.update(p as int, true).push(true)
                && final(self).phase == old(self).phase,
            !done ==> final(self).changed@ == old(self).changed@ && final(self).phase == Phase::Repair,
    {
        if done {
            self.changed.set(p, true);
            self.changed.push(true);
        } else {
            self.phase = Phase::Repair;
        }
    }
}

impl Clustering {
    /// The rows to test again after a change: the members of the changed
    /// partitions and of the nearest neighbours of each. `distances` holds for
    /// each changed partition the distances of all centroids from its own.
    pub fn repair_rows(&self, changed: &Vec<u32>, distances: &Vec<Vec<u32>>) -> (rows: Vec<usize>)
        requires
            self.wf(),
            distances@.len() == changed@.len(),
            forall|k: int| 0 <= k < changed@.len() ==> #[trigger] changed@[k] < self.nlist,
            forall|k: int| 0 <= k < distances@.len() ==> (#[trigger] distances@[k])@.len() == self.nlist,
        ensures
            lists(
                rows@,
                flagged_rows(
                    self.assignments@,
                    pool_flags(
                        changed@,
                        distances@,
                        NEIGHBOR_PARTITIONS as int,
                        self.nlist as int,
                        changed@.len() as int,
                    ),
                    self.assignments@.len() as int,
                ),
            ),
    {
        let flags: Vec<bool> = flag_pool(changed, distances, NEIGHBOR_PARTITIONS, self.nlist);
        proof {
            lemma_pool_len(
                changed@,
                distances@,
                NEIGHBOR_PARTITIONS as int,
                self.nlist as int,
                changed@.len() as int,
            );
        }
        rows_of_flagged(&self.assignments, &flags)
    }
}

/// Every partition below `n` is at most `limit` large, or the first that is
/// larger is named.
proof fn lemma_above(assignments: Seq<u32>, limit: int, n: int)
    ensures
        match crate::clustering::first_above(assignments, limit, n) {
            Some(p) => 0 <= p < n && size_of(assignments, p) > limit,
            None => forall|p: int| 0 <= p < n ==> #[trigger] size_of(assignments, p) <= limit,
        },
    decreases n,
{
    if n > 0 {
        lemma_above(assignments, limit, n - 1);
    }
}

proof fn lemma_below(assignments: Seq<u32>, limit: int, n: int)
    ensures
        match crate::clustering::first_below(assignments, limit, n) {
            Some(p) => 0 <= p < n && size_of(assignments, p) < limit,
            None => forall|p: int| 0 <= p < n ==> #[trigger] size_of(assignments, p) >= limit,
        },
    decreases n,
{
    if n > 0 {
        lemma_below(assignments, limit, n - 1);
    }
}

/// Only partitions of more than twice the target are split, only partitions of
/// less than a quarter of it are dissolved, and never down to fewer than two.
/// The phase never goes back. Where splitting ends by itself, no partition is
/// larger than twice the target, and when partitioning ends, none is smaller
/// than a quarter of it, or there are but two.
pub proof fn law_sizes_are_bounded(phase: Phase, changed: Seq<bool>, c: Clustering, target: u32)
    requires
        c.wf(),
        target > 0,
        phase != Phase::Done,
    ensures
        ({
            let (w, after, _) = next_work(phase, changed, c, target);
            &&& order_of(after) >= order_of(phase)
            &&& w matches Work::Split(p) ==> p < c.nlist && c.size(p as int) > SPLIT_FACTOR * target
            &&& w matches Work::Dissolve(p) ==> p < c.nlist && c.nlist > MIN_PARTITIONS && c.size(p as int)
                < target as int / MERGE_DIVISOR as int
            &&& phase == Phase::Split && after != Phase::Split ==> forall|p: int|
                0 <= p < c.nlist ==> #[trigger] c.size(p) <= SPLIT_FACTOR * target
            &&& w == Work::Finish ==> c.nlist <= MIN_PARTITIONS || forall|p: int|
                0 <= p < c.nlist ==> #[trigger] c.size(p) >= target as int / MERGE_DIVISOR as int
        }),
    decreases 7 - order_of(phase),
{
    lemma_above(c.assignments@, SPLIT_FACTOR * target as int, c.nlist as int);
    lemma_below(c.assignments@, target as int / MERGE_DIVISOR as int, c.nlist as int);
    let repair = c.nlist > 1 && changed.contains(true);
    if phase == Phase::Joined && !repair {
        law_sizes_are_bounded(Phase::Drift, changed, c, target);
    }
    if phase == Phase::Settled {
        law_sizes_are_bounded(Phase::Split, none_changed(c.nlist as int), c, target);
    }
    if phase == Phase::Split && c.first_oversized(target as int) is None {
        law_sizes_are_bounded(Phase::Repair, changed, c, target);
    }
    if phase == Phase::Repair && !repair {
        law_sizes_are_bounded(Phase::Merge, changed, c, target);
    }
}

} // verus!
