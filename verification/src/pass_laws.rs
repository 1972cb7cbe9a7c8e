//! What a maintenance pass does, and in which order.
use vstd::prelude::*;
use crate::fresh::{primaries_before, FreshIndex};
use crate::partition::PartitionState;
use crate::upkeep::{next_step, over_from, under_from, Action, Pass, Stage};

verus! {

/// Live primaries of all partitions.
pub open spec fn live_total(parts: Seq<PartitionState>) -> int {
    parts.fold_left(0int, |sum: int, p: PartitionState| sum + p.live_primary)
}

/// Live primaries, added up one by one.
pub proof fn lemma_live_total(parts: Seq<PartitionState>, k: int)
    requires
        0 <= k <= parts.len(),
    ensures
        primaries_before(parts, k) == live_total(parts.take(k)),
    decreases k,
{
    if k > 0 {
        lemma_live_total(parts, k - 1);
        assert(parts.take(k).drop_last() =~= parts.take(k - 1));
    }
}

/// The total of live primaries adds those of every partition.
pub proof fn law_total_adds_every_partition(x: &FreshIndex, r: u128)
    requires
        FreshIndex::total_primaries.ensures((x,), r),
    ensures
        r == live_total(x.partitions@),
{
    lemma_live_total(x.partitions@, x.partitions@.len() as int);
    assert(x.partitions@.take(x.partitions@.len() as int) =~= x.partitions@);
}

/// A pass over an index without a target size only collects garbage. One over
/// an index that is not clustered yet begins with clustering it exactly if it
/// has rows for two partitions, and else only collects garbage. One over a
/// clustered index begins with splitting, as often as the tuning allows.
pub proof fn law_pass_begins(p: Pass, x: FreshIndex, changed: bool, stale: bool)
    requires
        p.stage == Stage::Start,
    ensures
        ({
            let (a, q) = next_step(p, x, changed, stale);
            let most = x.tuning.max_rewrites_per_flush;
            let budget = if most == 0 {
                usize::MAX
            } else {
                most
            };
            match x.partition_target {
                None => a == Action::CollectGarbage && q.stage == Stage::Done,
                Some(target) => if x.clustered {
                    (a, q) == next_step(Pass { stage: Stage::Split, budget }, x, changed, stale)
                } else {
                    &&& a == Action::Bootstrap <==> live_total(x.partitions@) >= 2 * target
                    &&& a == Action::Bootstrap ==> q == (Pass { stage: Stage::Split, budget })
                    &&& a != Action::Bootstrap ==> a == Action::CollectGarbage && q.stage == Stage::Done
                },
            }
        }),
{
    lemma_live_total(x.partitions@, x.partitions@.len() as int);
    assert(x.partitions@.take(x.partitions@.len() as int) =~= x.partitions@);
}

/// Position `k` is the first whose partition has more than twice the target.
pub open spec fn first_too_large(parts: Seq<PartitionState>, target: int, k: int) -> bool {
    &&& 0 <= k < parts.len()
    &&& parts[k].live_primary > 2 * target
    &&& forall|j: int| 0 <= j < k ==> (#[trigger] parts[j]).live_primary <= 2 * target
}

/// Position `k` is the first whose partition has less than a quarter of the
/// target.
pub open spec fn first_too_small(parts: Seq<PartitionState>, target: int, k: int) -> bool {
    &&& 0 <= k < parts.len()
    &&& parts[k].live_primary < target / 4
    &&& forall|j: int| 0 <= j < k ==> (#[trigger] parts[j]).live_primary >= target / 4
}

/// Some partition has more than twice the target.
pub open spec fn some_too_large(parts: Seq<PartitionState>, target: int) -> bool {
    exists|k: int| 0 <= k < parts.len() && (#[trigger] parts[k]).live_primary > 2 * target
}

/// Some partition has less than a quarter of the target.
pub open spec fn some_too_small(parts: Seq<PartitionState>, target: int) -> bool {
    exists|k: int| 0 <= k < parts.len() && (#[trigger] parts[k]).live_primary < target / 4
}

proof fn lemma_first_over(parts: Seq<PartitionState>, target: int, k: int)
    requires
        0 <= k <= parts.len(),
        forall|j: int| 0 <= j < k ==> (#[trigger] parts[j]).live_primary <= 2 * target,
    ensures
        over_from(parts, 2 * target, k) < parts.len() <==> some_too_large(parts, target),
        k <= over_from(parts, 2 * target, k) <= parts.len(),
        over_from(parts, 2 * target, k) < parts.len() ==> first_too_large(
            parts,
            target,
            over_from(parts, 2 * target, k),
        ),
    decreases parts.len() - k,
{
    if k < parts.len() && parts[k].live_primary <= 2 * target {
        lemma_first_over(parts, target, k + 1);
    }
}

proof fn lemma_first_under(parts: Seq<PartitionState>, target: int, k: int)
    requires
        0 <= k <= parts.len(),
        forall|j: int| 0 <= j < k ==> (#[trigger] parts[j]).live_primary >= target / 4,
    ensures
        under_from(parts, target / 4, k) < parts.len() <==> some_too_small(parts, target),
        k <= under_from(parts, target / 4, k) <= parts.len(),
        under_from(parts, target / 4, k) < parts.len() ==> first_too_small(
            parts,
            target,
            under_from(parts, target / 4, k),
        ),
    decreases parts.len() - k,
{
    if k < parts.len() && parts[k].live_primary >= target / 4 {
        lemma_first_under(parts, target, k + 1);
    }
}

/// A split is due: the stage allows it, and some partition is too large.
pub open spec fn split_due(p: Pass, x: FreshIndex) -> bool {
    &&& p.stage == Stage::Split || p.stage == Stage::Resplit
    &&& x.tuning.split_enabled
    &&& p.budget > 0
    &&& some_too_large(x.partitions@, x.partition_target->0 as int)
}

/// A dissolution is due: the stage allows it, there are more than two
/// partitions, and some is too small.
pub open spec fn dissolve_due(p: Pass, x: FreshIndex) -> bool {
    &&& p.stage == Stage::Split || p.stage == Stage::Dissolve
    &&& x.tuning.dissolve_enabled
    &&& x.partitions@.len() > 2
    &&& some_too_small(x.partitions@, x.partition_target->0 as int)
}

/// Reassignment is due: partitions changed and it has not been done yet.
pub open spec fn reassign_due(p: Pass, x: FreshIndex, changed: bool) -> bool {
    &&& p.stage == Stage::Split || p.stage == Stage::Dissolve || p.stage == Stage::Reassign
    &&& x.tuning.reassign_enabled
    &&& changed
}

/// Replicas are due: rows whose copies changed are replicated, and it has not
/// been done yet.
pub open spec fn replicas_due(p: Pass, x: FreshIndex, stale: bool) -> bool {
    &&& p.stage != Stage::Garbage
    &&& p.stage != Stage::Test
    &&& x.replica_epsilon is Some
    &&& stale
}

/// A pass that has begun takes the first action that is due, of splits,
/// dissolutions, reassignment, replicas, garbage and the test of the
/// clustering; it splits the first partition that is too large and dissolves
/// the first that is too small.
pub proof fn law_pass_takes_the_first_due_action(p: Pass, x: FreshIndex, changed: bool, stale: bool)
    requires
        p.stage != Stage::Start,
        p.stage != Stage::Done,
        x.partition_target is Some,
    ensures
        ({
            let (a, q) = next_step(p, x, changed, stale);
            let target = x.partition_target->0 as int;
            let most = x.tuning.max_rewrites_per_flush;
            if split_due(p, x) {
                &&& a is Split
                &&& first_too_large(x.partitions@, target, a->Split_0 as int)
                &&& q.stage == p.stage
                &&& q.budget == p.budget - 1
            } else if dissolve_due(p, x) {
                &&& a is Dissolve
                &&& first_too_small(x.partitions@, target, a->Dissolve_0 as int)
                &&& q.stage == Stage::Dissolve
                &&& q.budget == p.budget
            } else if reassign_due(p, x, changed) {
                &&& a == Action::Reassign
                &&& x.tuning.resplit_after_reassign ==> q.stage == Stage::Resplit
                &&& !x.tuning.resplit_after_reassign ==> q.stage == Stage::Replicas
                &&& most == 0 ==> q.budget == usize::MAX
                &&& most > 0 ==> q.budget == most
            } else if replicas_due(p, x, stale) {
                a == Action::RefreshReplicas && q.stage == Stage::Garbage
            } else if p.stage != Stage::Test {
                a == Action::CollectGarbage && q.stage == Stage::Test
            } else {
                a == Action::Test && q.stage == Stage::Done
            }
        }),
{
    let target = x.partition_target->0 as int;
    lemma_first_over(x.partitions@, target, 0);
    lemma_first_under(x.partitions@, target, 0);
    assert(x.partitions.len() == x.partitions@.len());
    let at = |stage: Stage| Pass { stage, ..p };
    assert(next_step(at(Stage::Garbage), x, changed, stale) == (Action::CollectGarbage, at(Stage::Test)));
    if !(x.replica_epsilon is Some && stale) {
        assert(next_step(at(Stage::Replicas), x, changed, stale) == next_step(at(Stage::Garbage), x, changed, stale));
    }
    if !(x.tuning.reassign_enabled && changed) {
        assert(next_step(at(Stage::Reassign), x, changed, stale) == next_step(at(Stage::Replicas), x, changed, stale));
    }
    if !dissolve_due(at(Stage::Dissolve), x) {
        assert(next_step(at(Stage::Dissolve), x, changed, stale) == next_step(at(Stage::Reassign), x, changed, stale));
    }
    match p.stage {
        Stage::Split => {
            assert(p == at(Stage::Split));
            if !split_due(p, x) {
                assert(next_step(p, x, changed, stale) == next_step(at(Stage::Dissolve), x, changed, stale));
            }
        },
        Stage::Dissolve => {
            assert(p == at(Stage::Dissolve));
        },
        Stage::Reassign => {
            assert(p == at(Stage::Reassign));
        },
        Stage::Resplit => {
            assert(p == at(Stage::Resplit));
            if !split_due(p, x) {
                assert(next_step(p, x, changed, stale) == next_step(at(Stage::Replicas), x, changed, stale));
            }
        },
        Stage::Replicas => {
            assert(p == at(Stage::Replicas));
        },
        _ => {},
    }
}

/// A pass that is over stays over.
pub proof fn law_pass_ends(p: Pass, x: FreshIndex, changed: bool, stale: bool)
    requires
        p.stage == Stage::Done,
    ensures
        next_step(p, x, changed, stale) == (Action::Stop, p),
{
}

} // verus!
