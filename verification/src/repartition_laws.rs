//! What partitioning the rows of a disk index does, and in which order.
use vstd::prelude::*;
use crate::cluster_laws::count_of;
use crate::clustering::Clustering;
use crate::pool_laws::{lemma_partitions_for, of_target_size};
use crate::repartition::{next_work, none_changed, Phase, Work};


verus! {

/// Partition `p` is the first with more than twice the target of rows.
pub open spec fn first_large(c: Clustering, target: int, p: int) -> bool {
    &&& 0 <= p < c.nlist
    &&& count_of(c.assignments@, p) > 2 * target
    &&& forall|q: int| 0 <= q < p ==> #[trigger] count_of(c.assignments@, q) <= 2 * target
}

/// Partition `p` is the first with less than a quarter of the target of rows.
pub open spec fn first_small(c: Clustering, target: int, p: int) -> bool {
    &&& 0 <= p < c.nlist
    &&& count_of(c.assignments@, p) < target / 4
    &&& forall|q: int| 0 <= q < p ==> #[trigger] count_of(c.assignments@, q) >= target / 4
}

/// Some partition has more than twice the target of rows.
pub open spec fn some_large(c: Clustering, target: int) -> bool {
    exists|p: int| 0 <= p < c.nlist && #[trigger] count_of(c.assignments@, p) > 2 * target
}

/// Some partition of more than two has less than a quarter of the target.
pub open spec fn some_small(c: Clustering, target: int) -> bool {
    c.nlist > 2 && exists|p: int| 0 <= p < c.nlist && #[trigger] count_of(c.assignments@, p) < target / 4
}

proof fn lemma_firsts(c: Clustering, target: int)
    requires
        c.wf(),
        target >= 0,
    ensures
        match c.first_oversized(target) {
            Some(p) => first_large(c, target, p),
            None => !some_large(c, target),
        },
        match c.first_undersized(target) {
            Some(p) => c.nlist > 2 && first_small(c, target, p),
            None => !some_small(c, target),
        },
{
    crate::cluster_laws::lemma_above(c.assignments@, 2 * target, c.nlist as int);
    crate::cluster_laws::lemma_below(c.assignments@, target / 4, c.nlist as int);
    assert forall|q: int| 0 <= q < c.nlist implies #[trigger] count_of(c.assignments@, q)
        == crate::clustering::size_of(c.assignments@, q) by {
        crate::cluster_laws::law_size_counts_rows(c.assignments@, q);
    }
}

/// Rows without partitions are clustered first, into as many partitions as
/// whole targets go into them. Partitions that rows joined or left are repaired,
/// if there are several; then the clustering is put to the test; then the first
/// partition that is too large is split as long as there is one, what changed is
/// repaired again, and the first that is too small is dissolved as long as there
/// is one.
pub proof fn law_work_comes_in_order(phase: Phase, changed: Seq<bool>, c: Clustering, target: u32)
    requires
        c.wf(),
        target > 0,
        c.assignments@.len() <= usize::MAX,
    ensures
        ({
            let (w, after, flags) = next_work(phase, changed, c, target);
            let n = c.assignments@.len() as int;
            let t = target as int;
            let dirty = if phase == Phase::Settled {
                none_changed(c.nlist as int)
            } else {
                changed
            };
            let repair = c.nlist > 1 && dirty.contains(true);
            let early = phase == Phase::Joined || phase == Phase::Drift;
            let splits = phase == Phase::Settled || phase == Phase::Split;
            if phase == Phase::Bootstrap {
                &&& w is Cluster
                &&& of_target_size(n, t, w->Cluster_0 as int)
                &&& after == Phase::Settled
            } else if phase == Phase::Joined && repair {
                w == Work::Reassign && after == Phase::Drift && flags == changed
            } else if early {
                &&& w is TestDrift
                &&& of_target_size(n, t, w->TestDrift_0 as int)
                &&& after == Phase::Settled
            } else if splits && some_large(c, t) {
                &&& w is Split
                &&& first_large(c, t, w->Split_0 as int)
                &&& after == Phase::Split
                &&& flags == dirty
            } else if (splits || phase == Phase::Repair) && repair {
                w == Work::Reassign && after == Phase::Merge && flags == dirty
            } else if phase != Phase::Done && some_small(c, t) {
                &&& w is Dissolve
                &&& first_small(c, t, w->Dissolve_0 as int)
                &&& after == Phase::Merge
            } else {
                w == Work::Finish && after == Phase::Done
            }
        }),
{
    lemma_firsts(c, target as int);
    lemma_partitions_for(c.assignments@.len() as int, target as int);
    reveal_with_fuel(next_work, 5);
    let none = none_changed(c.nlist as int);
    assert(!none.contains(true));
    match phase {
        Phase::Settled => {
            assert(next_work(phase, changed, c, target) == next_work(Phase::Split, none, c, target));
        },
        _ => {},
    }
}

/// When splitting starts, no partition counts as changed.
pub proof fn law_splitting_starts_clean(changed: Seq<bool>, c: Clustering, target: u32, p: int)
    requires
        c.wf(),
        target > 0,
        some_large(c, target as int),
        0 <= p < c.nlist,
    ensures
        next_work(Phase::Settled, changed, c, target).2.len() == c.nlist,
        !next_work(Phase::Settled, changed, c, target).2[p],
{
    lemma_firsts(c, target as int);
    reveal_with_fuel(next_work, 3);
}

} // verus!
