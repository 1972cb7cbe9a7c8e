//! Every index that the operations lead to is intact.
use vstd::prelude::*;
use crate::batch::{primary_count, sent_to, spread_to, Row, RowBatch};
use crate::bits::marked;
use crate::copies::{newest_first, tables};
use crate::copies_laws::total;
use crate::counting::{primary_at, primary_ids};
use crate::delta::first_invalid;
use crate::disk::lemma_concat_set;
use crate::flush::{memtable_rows, new_entries};
use crate::flush_laws::{all_ids, grown_rows, law_lists_deliver};
use crate::fresh::FreshIndex;
use crate::fresh_write::{memtable_grown, removals, Removed};
use crate::indexed::{batch_ids, delivered, law_lookups_agree_with_rows, stored, stored_ids};
use crate::ingest::{all_appended, entries_upto, runs_after};
use crate::integrity::{
    intact, law_add_keeps_intact, law_compaction_keeps_intact, law_dissolving_keeps_intact,
    law_ingest_keeps_intact, law_new_index_is_intact, law_new_partition_keeps_intact,
    law_reassigning_keeps_intact, law_rebuilding_keeps_intact, law_removing_many, law_reopened_index_is_intact,
    law_replicas_keep_intact, law_sealing_keeps_intact, law_splitting_keeps_intact, law_tier_merge_keeps_intact,
    lemma_grown_index, lemma_joined_entries, lemma_row_limits,
};
use crate::partition::{live_of, PartitionState};
use crate::partition_ops::folded;
use crate::reassign::one_marked;
use crate::restructure::{holds_only, just_made};
use crate::restructure_laws::live_primary_rows;
use crate::runs::RunEntry;

verus! {

/// An index between two operations.
pub struct Stage {
    pub x: FreshIndex,
    /// What the segment files hold.
    pub rows: Seq<Seq<Row>>,
    /// Entries that were collected and are not in a run yet.
    pub pending: Seq<RunEntry>,
    /// The memtable's rows are in the partitions too.
    pub draining: bool,
}

impl Stage {
    /// All entries, those of the runs first.
    pub open spec fn entries(self) -> Seq<RunEntry> {
        newest_first(tables(self.x.runs@)) + self.pending
    }

    /// Nothing is pending.
    pub open spec fn at_rest(self) -> bool {
        self.pending.len() == 0 && !self.draining
    }

    /// The ids in the partitions.
    pub open spec fn stored(self) -> Set<u64> {
        stored_ids(self.x.partitions@, all_ids(self.rows))
    }

    /// The ids in the memtable and in the partitions.
    pub open spec fn ids(self) -> Set<u64> {
        self.x.memtable.ids@.to_set().union(self.stored())
    }

    /// The entries index the rows, and no id of the memtable is in a partition,
    /// but while it is drained: then all are.
    pub open spec fn sound(self) -> bool {
        &&& intact(self.x.partitions@, self.x.next_partition_id, self.rows, self.entries())
        &&& !self.draining ==> self.x.memtable.ids@.to_set().disjoint(self.stored())
        &&& self.draining ==> self.x.memtable.ids@.to_set().subset_of(self.stored())
    }

    /// Runs, memtable, epoch and what is pending are those of `a`, with `more`
    /// entries behind.
    pub open spec fn goes_on(self, a: Stage, more: Seq<RunEntry>) -> bool {
        &&& self.x.runs@ == a.x.runs@
        &&& self.x.memtable.ids@ == a.x.memtable.ids@
        &&& self.x.epoch == a.x.epoch
        &&& self.pending == a.pending + more
        &&& self.draining == a.draining
    }
}

/// One operation, with what it is told and what it makes.
pub enum Step {
    /// Settings, counters, centroids, calibration.
    Other,
    Add { ids: Seq<u64>, vectors: Seq<u32> },
    Remove { ids: Seq<u64>, states: Seq<FreshIndex>, outcomes: Seq<Removed> },
    CreatePartition { p: PartitionState },
    Drain { lists: Seq<Vec<u32>>, batches: Seq<RowBatch> },
    TierMerge { at: int, from: int, len: int },
    Compact { at: int },
    Split { at: int, children: Seq<u32> },
    Dissolve { at: int, places: Seq<u32>, batches: Seq<RowBatch> },
    Reassign {
        at: int,
        mid: Seq<PartitionState>,
        gone: Seq<u64>,
        moved: Seq<Row>,
        places: Seq<u32>,
        batches: Seq<RowBatch>,
    },
    Replicate { batches: Seq<RowBatch> },
    Rebuild { made: Seq<PartitionState>, all: Seq<Row>, lists: Seq<Vec<u32>>, batches: Seq<RowBatch> },
    Seal,
    Reopen,
}

/// Every row goes to some partitions that exist.
pub open spec fn lists_ok(lists: Seq<Vec<u32>>, n: int, nlist: int) -> bool {
    &&& lists.len() >= n
    &&& forall|i: int| 0 <= i < n ==> (#[trigger] lists[i])@.len() > 0
    &&& forall|i: int, d: int| 0 <= i < n && 0 <= d < lists[i]@.len() ==> #[trigger] lists[i]@[d] < nlist
}

/// Every row goes to one partition that exists.
pub open spec fn places_ok(places: Seq<u32>, n: int, nlist: int) -> bool {
    &&& places.len() >= n
    &&& forall|i: int| 0 <= i < n ==> #[trigger] places[i] < nlist
}

/// Only the partition at `at` differs.
pub open spec fn differs_at(a: Seq<PartitionState>, b: Seq<PartitionState>, at: int) -> bool {
    &&& a.len() == b.len()
    &&& 0 <= at < a.len()
    &&& forall|k: int| 0 <= k < a.len() && k != at ==> #[trigger] b[k] == a[k]
}

/// The operation leads from `a` to `b`.
pub open spec fn leads(a: Stage, b: Stage, step: Step) -> bool {
    let p = a.x.partitions@;
    let q = b.x.partitions@;
    let next = a.x.next_partition_id;
    let ng = a.x.ng();
    let width = a.x.stored();
    &&& a.x.wf()
    &&& b.x.wf()
    &&& match step {
        Step::Other => {
            &&& b.goes_on(a, Seq::empty())
            &&& q == p
            &&& b.x.next_partition_id == next
            &&& b.rows == a.rows
        },
        Step::Add { ids, vectors } => {
            &&& a.at_rest()
            &&& b.at_rest()
            &&& memtable_grown(a.x, b.x)
            &&& b.x.memtable.ids@ == a.x.memtable.ids@ + ids
            &&& b.x.memtable.dim is Some
            &&& vectors.len() == ids.len() * b.x.memtable.width()
            &&& first_invalid(vectors) is None
            &&& ids.no_duplicates()
            &&& forall|i: int| 0 <= i < ids.len() ==> !a.x.live().contains(#[trigger] ids[i])
            &&& b.rows == a.rows
        },
        Step::Remove { ids, states, outcomes } => {
            &&& a.at_rest()
            &&& b.at_rest()
            &&& removals(states, ids, outcomes)
            &&& states[0] == a.x
            &&& states.last() == b.x
            &&& b.rows == a.rows
        },
        Step::CreatePartition { p: made } => {
            &&& b.goes_on(a, Seq::empty())
            &&& next < u32::MAX
            &&& just_made(made, next)
            &&& q == p.push(made)
            &&& b.x.next_partition_id == next + 1
            &&& b.rows == a.rows.push(Seq::empty())
        },
        Step::Drain { lists, batches } => {
            &&& !a.draining
            &&& b.draining
            &&& b.x.runs@ == a.x.runs@
            &&& b.x.memtable.ids@ == a.x.memtable.ids@
            &&& b.x.epoch == a.x.epoch
            &&& b.x.next_partition_id == next
            &&& batches.len() == p.len()
            &&& lists_ok(lists, a.x.memtable.ids@.len() as int, p.len() as int)
            &&& forall|k: int|
                0 <= k < batches.len() ==> (#[trigger] batches[k])@ == spread_to(
                    memtable_rows(a.x.memtable, a.x.bit_width as int, a.x.store_vectors),
                    lists,
                    k,
                )
            &&& all_appended(p, q, batches, ng, width)
            &&& b.pending == a.pending + entries_upto(p, batches, p.len() as int)
            &&& b.rows == grown_rows(a.rows, batches)
        },
        Step::TierMerge { at, from, len } => {
            &&& b.goes_on(a, Seq::empty())
            &&& b.x.next_partition_id == next
            &&& differs_at(p, q, at)
            &&& folded(p[at], q[at], from, len)
            &&& b.rows == a.rows
        },
        Step::Compact { at } => {
            let live = live_of(a.rows[at], p[at].dead@, 0, false);
            &&& b.goes_on(a, new_entries(live, p[at].partition_id, q[at].generation, 0))
            &&& b.x.next_partition_id == next
            &&& differs_at(p, q, at)
            &&& q[at].partition_id == p[at].partition_id
            &&& p[at].generation < u32::MAX
            &&& q[at].generation == p[at].generation + 1
            &&& q[at].n_rows == live.len()
            &&& q[at].live_primary == primary_count(live)
            &&& forall|r: int| 0 <= r ==> !#[trigger] marked(q[at].dead@, r)
            &&& b.rows == a.rows.update(at, live)
        },
        Step::Split { at, children } => {
            let prim = live_primary_rows(p[at], a.rows[at]);
            let first = sent_to(prim, children, 0);
            let second = sent_to(prim, children, 1);
            &&& 0 <= at < p.len()
            &&& next < u32::MAX - 1
            &&& b.x.next_partition_id == next + 2
            &&& children.len() == prim.len()
            &&& forall|i: int| 0 <= i < children.len() ==> #[trigger] children[i] < 2
            &&& q.len() == p.len() + 1
            &&& forall|k: int| 0 <= k < p.len() - 1 ==> #[trigger] q[k] == p.remove(at)[k]
            &&& holds_only(q[p.len() - 1], next, first, ng, width)
            &&& holds_only(q[p.len() as int], (next + 1) as u32, second, ng, width)
            &&& b.goes_on(a, new_entries(first, next, 0, 0) + new_entries(second, (next + 1) as u32, 0, 0))
            &&& b.rows == a.rows.remove(at).push(first).push(second)
        },
        Step::Dissolve { at, places, batches } => {
            let prim = live_primary_rows(p[at], a.rows[at]);
            &&& 0 <= at < p.len()
            &&& b.x.next_partition_id == next
            &&& batches.len() == p.len() - 1
            &&& places_ok(places, prim.len() as int, p.len() - 1)
            &&& forall|k: int| 0 <= k < batches.len() ==> (#[trigger] batches[k])@ == sent_to(prim, places, k)
            &&& all_appended(p.remove(at), q, batches, ng, width)
            &&& b.goes_on(a, entries_upto(p.remove(at), batches, p.len() - 1))
            &&& b.rows == grown_rows(a.rows.remove(at), batches)
        },
        Step::Reassign { at, mid, gone, moved, places, batches } => {
            &&& 0 <= at < p.len()
            &&& b.x.next_partition_id == next
            &&& forall|k: int| 0 <= k < mid.len() ==> (#[trigger] mid[k]).wf()
            &&& one_marked(p, mid, at, gone)
            &&& gone.no_duplicates()
            &&& moved.len() == gone.len()
            &&& forall|i: int|
                0 <= i < gone.len() ==> primary_at(p, a.rows, at, (#[trigger] gone[i]) as int)
                    && a.rows[at][gone[i] as int].id == moved[i].id
            &&& places_ok(places, moved.len() as int, p.len() as int)
            &&& batches.len() == p.len()
            &&& forall|k: int| 0 <= k < batches.len() ==> (#[trigger] batches[k])@ == sent_to(moved, places, k)
            &&& all_appended(mid, q, batches, ng, width)
            &&& b.goes_on(a, entries_upto(mid, batches, p.len() as int))
            &&& b.rows == grown_rows(a.rows, batches)
        },
        Step::Replicate { batches } => {
            &&& b.x.next_partition_id == next
            &&& batches.len() == p.len()
            &&& forall|k: int, i: int|
                0 <= k < batches.len() && 0 <= i < batches[k]@.len() ==> (#[trigger] batches[k]@[i]).replica
                    && stored_ids(p, all_ids(a.rows)).contains(batches[k]@[i].id)
            &&& all_appended(p, q, batches, ng, width)
            &&& b.goes_on(a, entries_upto(p, batches, p.len() as int))
            &&& b.rows == grown_rows(a.rows, batches)
        },
        Step::Rebuild { made, all, lists, batches } => {
            &&& next + made.len() <= u32::MAX
            &&& b.x.next_partition_id == next + made.len()
            &&& forall|k: int| 0 <= k < made.len() ==> just_made(#[trigger] made[k], (next + k) as u32)
            &&& forall|k: int| 0 <= k < made.len() ==> (#[trigger] made[k]).wf()
            &&& batch_ids(all) == primary_ids(p, a.rows, p.len() as int)
            &&& batches.len() == made.len()
            &&& lists_ok(lists, all.len() as int, made.len() as int)
            &&& forall|k: int| 0 <= k < batches.len() ==> (#[trigger] batches[k])@ == spread_to(all, lists, k)
            &&& all_appended(made, q, batches, ng, width)
            &&& b.goes_on(a, entries_upto(made, batches, made.len() as int))
            &&& b.rows == grown_rows(Seq::new(made.len(), |k: int| Seq::<Row>::empty()), batches)
        },
        Step::Seal => {
            &&& b.at_rest()
            &&& q == p
            &&& b.x.next_partition_id == next
            &&& total(tables(a.x.runs@)) + a.pending.len() <= u64::MAX
            &&& tables(b.x.runs@) == runs_after(p, tables(a.x.runs@), a.pending)
            &&& b.x.memtable.ids@ == if a.draining {
                Seq::empty()
            } else {
                a.x.memtable.ids@
            }
            &&& b.x.epoch == a.x.epoch + if a.draining {
                1int
            } else {
                0
            }
            &&& b.rows == a.rows
        },
        Step::Reopen => {
            &&& a.at_rest()
            &&& b.at_rest()
            &&& q.len() == p.len()
            &&& forall|j: int| 0 <= j < p.len() ==> (#[trigger] q[j]).same(p[j])
            &&& b.x.next_partition_id == next
            &&& tables(b.x.runs@) == tables(a.x.runs@)
            &&& b.x.epoch == a.x.epoch
            &&& b.x.memtable.ids@.len() == 0
            &&& b.rows == a.rows
        },
    }
}

/// The ids after an operation. A log gives those of the memtable back that an
/// index loses when it is opened again.
pub open spec fn ids_after(a: Stage, step: Step) -> Set<u64> {
    match step {
        Step::Add { ids, vectors } => a.ids().union(ids.to_set()),
        Step::Remove { ids, states, outcomes } => a.ids().difference(ids.to_set()),
        Step::Reopen => a.stored(),
        _ => a.ids(),
    }
}

/// At rest, what holds of a stage is that its index is intact, and its ids are
/// the live ones.
pub proof fn law_rest_is_intact(a: Stage)
    requires
        a.x.wf(),
        a.at_rest(),
    ensures
        a.sound() <==> a.x.intact(a.rows),
        a.sound() ==> a.ids() == a.x.live(),
{
    let s = newest_first(tables(a.x.runs@));
    assert(a.entries() =~= s);
    if intact(a.x.partitions@, a.x.next_partition_id, a.rows, s) {
        lemma_row_limits(a.x);
        law_lookups_agree_with_rows(a.x.partitions@, a.x.next_partition_id, all_ids(a.rows), a.x.runs@);
    }
}

/// More entries behind those that are pending.
proof fn lemma_more_entries(a: Stage, b: Stage, more: Seq<RunEntry>)
    requires
        b.x.runs@ == a.x.runs@,
        b.pending == a.pending + more,
    ensures
        b.entries() == a.entries() + more,
        forall|e: RunEntry| #[trigger] b.entries().contains(e) <==> a.entries().contains(e) || more.contains(e),
{
    assert(b.entries() =~= a.entries() + more);
    lemma_joined_entries(a.entries(), more);
}

/// Calls on an index at rest, and sealing.
proof fn lemma_calls_keep_sound(a: Stage, b: Stage, step: Step)
    requires
        a.sound(),
        leads(a, b, step),
        step is Other || step is Add || step is Remove || step is Seal || step is Reopen,
    ensures
        b.sound(),
        b.ids() == ids_after(a, step),
{
    let p = a.x.partitions@;
    let q = b.x.partitions@;
    let next = a.x.next_partition_id;
    let ng = a.x.ng();
    let width = a.x.stored();
    let s = a.entries();
    let t = b.entries();
    assert forall|k: int| 0 <= k < p.len() implies (#[trigger] p[k]).wf() by {}
    assert forall|k: int| 0 <= k < q.len() implies (#[trigger] q[k]).wf() by {}
    match step {
        Step::Other => {
            lemma_more_entries(a, b, Seq::empty());
            assert(t =~= s);
        },
        Step::Add { ids, vectors } => {
            law_rest_is_intact(a);
            law_rest_is_intact(b);
            law_add_keeps_intact(a.x, b.x, a.rows, ids);
            lemma_concat_set(a.x.memtable.ids@, ids);
            assert(b.ids() =~= a.ids().union(ids.to_set()));
        },
        Step::Remove { ids, states, outcomes } => {
            law_rest_is_intact(a);
            law_rest_is_intact(b);
            law_removing_many(states, ids, outcomes, a.rows);
        },
        Step::Seal => {
            let gone = b.x.memtable.ids@.to_set();
            if a.draining {
                assert(gone =~= Set::<u64>::empty());
            }
            law_sealing_keeps_intact(a.x, b.x, a.rows, a.pending);
            law_rest_is_intact(b);
            assert(b.ids() =~= a.ids());
        },
        Step::Reopen => {
            law_rest_is_intact(a);
            law_rest_is_intact(b);
            law_reopened_index_is_intact(a.x, b.x, a.rows);
            lemma_row_limits(a.x);
            law_lookups_agree_with_rows(p, next, all_ids(a.rows), a.x.runs@);
            assert(a.entries() =~= newest_first(tables(a.x.runs@)));
        },
        _ => {},
    }
}

/// Draining the memtable.
proof fn lemma_drain_keeps_sound(a: Stage, b: Stage, step: Step)
    requires
        a.sound(),
        leads(a, b, step),
        step is Drain,
    ensures
        b.sound(),
        b.ids() == ids_after(a, step),
{
    let p = a.x.partitions@;
    let q = b.x.partitions@;
    let next = a.x.next_partition_id;
    let ng = a.x.ng();
    let width = a.x.stored();
    let s = a.entries();
    let t = b.entries();
    assert forall|k: int| 0 <= k < p.len() implies (#[trigger] p[k]).wf() by {}
    assert forall|k: int| 0 <= k < q.len() implies (#[trigger] q[k]).wf() by {}
    match step {
        Step::Drain { lists, batches } => {
            let m = a.x.memtable;
            let new = memtable_rows(m, a.x.bit_width as int, a.x.store_vectors);
            lemma_more_entries(a, b, entries_upto(p, batches, p.len() as int));
            assert forall|i: int, j: int| 0 <= i < new.len() && 0 <= j < new.len() && i != j implies new[i].id
                != new[j].id by {
                assert(m.ids@[i] != m.ids@[j]);
            }
            assert forall|i: int| 0 <= i < new.len() implies !stored_ids(p, all_ids(a.rows)).contains(
                (#[trigger] new[i]).id,
            ) by {
                assert(m.ids@[i] == new[i].id);
                assert(m.ids@.to_set().contains(new[i].id));
            }
            assert forall|i: int| 0 <= i < new.len() implies (#[trigger] lists[i])@.len() > 0 && lists[i]@[0]
                < batches.len() by {
                assert(lists[i]@[0] < p.len());
            }
            law_ingest_keeps_intact(p, q, next, a.rows, new, lists, batches, ng, width, s, t);
            lemma_grown_index(p, q, next, a.rows, batches, ng, width, s, t);
            assert(batch_ids(new) =~= m.ids@);
            assert forall|id: u64| b.stored().contains(id) <==> a.ids().contains(id) by {
                law_lists_deliver(new, lists, batches, id);
                assert(m.ids@.contains(id) <==> m.ids@.to_set().contains(id));
                assert(stored(q, all_ids(b.rows), id) <==> stored(p, all_ids(a.rows), id) || delivered(batches, id));
            }
            assert(b.ids() =~= a.ids());
        },
        _ => {},
    }
}

/// Work on one partition.
proof fn lemma_rewrites_keep_sound(a: Stage, b: Stage, step: Step)
    requires
        a.sound(),
        leads(a, b, step),
        step is CreatePartition || step is TierMerge || step is Compact || step is Split,
    ensures
        b.sound(),
        b.ids() == ids_after(a, step),
{
    let p = a.x.partitions@;
    let q = b.x.partitions@;
    let next = a.x.next_partition_id;
    let ng = a.x.ng();
    let width = a.x.stored();
    let s = a.entries();
    let t = b.entries();
    assert forall|k: int| 0 <= k < p.len() implies (#[trigger] p[k]).wf() by {}
    assert forall|k: int| 0 <= k < q.len() implies (#[trigger] q[k]).wf() by {}
    match step {
        Step::CreatePartition { p: made } => {
            lemma_more_entries(a, b, Seq::empty());
            assert(t =~= s);
            law_new_partition_keeps_intact(p, next, a.rows, s, made);
        },
        Step::TierMerge { at, from, len } => {
            lemma_more_entries(a, b, Seq::empty());
            assert(t =~= s);
            law_tier_merge_keeps_intact(p, q, next, a.rows, s, at, from, len);
        },
        Step::Compact { at } => {
            let live = live_of(a.rows[at], p[at].dead@, 0, false);
            lemma_more_entries(a, b, new_entries(live, p[at].partition_id, q[at].generation, 0));
            assert(q[at].wf());
            law_compaction_keeps_intact(p, q, next, a.rows, s, t, at);
        },
        Step::Split { at, children } => {
            let prim = live_primary_rows(p[at], a.rows[at]);
            let first = new_entries(sent_to(prim, children, 0), next, 0, 0);
            let second = new_entries(sent_to(prim, children, 1), (next + 1) as u32, 0, 0);
            lemma_more_entries(a, b, first + second);
            assert(t =~= (s + first) + second);
            law_splitting_keeps_intact(p, q, next, a.rows, at, children, ng, width, s, s + first, t);
        },
        _ => {},
    }
}

/// Rows that go to other partitions.
proof fn lemma_moves_keep_sound(a: Stage, b: Stage, step: Step)
    requires
        a.sound(),
        leads(a, b, step),
        step is Dissolve || step is Reassign || step is Replicate || step is Rebuild,
    ensures
        b.sound(),
        b.ids() == ids_after(a, step),
{
    let p = a.x.partitions@;
    let q = b.x.partitions@;
    let next = a.x.next_partition_id;
    let ng = a.x.ng();
    let width = a.x.stored();
    let s = a.entries();
    let t = b.entries();
    assert forall|k: int| 0 <= k < p.len() implies (#[trigger] p[k]).wf() by {}
    assert forall|k: int| 0 <= k < q.len() implies (#[trigger] q[k]).wf() by {}
    match step {
        Step::Dissolve { at, places, batches } => {
            lemma_more_entries(a, b, entries_upto(p.remove(at), batches, p.len() - 1));
            law_dissolving_keeps_intact(p, q, next, a.rows, at, places, batches, ng, width, s, t);
        },
        Step::Reassign { at, mid, gone, moved, places, batches } => {
            lemma_more_entries(a, b, entries_upto(mid, batches, p.len() as int));
            law_reassigning_keeps_intact(
                p,
                mid,
                q,
                next,
                a.rows,
                at,
                gone,
                moved,
                places,
                batches,
                ng,
                width,
                s,
                t,
            );
        },
        Step::Replicate { batches } => {
            lemma_more_entries(a, b, entries_upto(p, batches, p.len() as int));
            law_replicas_keep_intact(p, q, next, a.rows, batches, ng, width, s, t);
        },
        Step::Rebuild { made, all, lists, batches } => {
            lemma_more_entries(a, b, entries_upto(made, batches, made.len() as int));
            law_rebuilding_keeps_intact(p, made, q, next, a.rows, all, lists, batches, ng, width, s, t);
        },
        _ => {},
    }
}

/// Every operation keeps a stage sound. Adding brings in the ids that are
/// added and removing takes out those that are removed; no other operation
/// changes which ids there are.
pub proof fn law_steps_keep_sound(a: Stage, b: Stage, step: Step)
    requires
        a.sound(),
        leads(a, b, step),
    ensures
        b.sound(),
        b.ids() == ids_after(a, step),
{
    match step {
        Step::Drain { lists, batches } => lemma_drain_keeps_sound(a, b, step),
        Step::CreatePartition { p } => lemma_rewrites_keep_sound(a, b, step),
        Step::TierMerge { at, from, len } => lemma_rewrites_keep_sound(a, b, step),
        Step::Compact { at } => lemma_rewrites_keep_sound(a, b, step),
        Step::Split { at, children } => lemma_rewrites_keep_sound(a, b, step),
        Step::Dissolve { at, places, batches } => lemma_moves_keep_sound(a, b, step),
        Step::Reassign { at, mid, gone, moved, places, batches } => lemma_moves_keep_sound(a, b, step),
        Step::Replicate { batches } => lemma_moves_keep_sound(a, b, step),
        Step::Rebuild { made, all, lists, batches } => lemma_moves_keep_sound(a, b, step),
        _ => lemma_calls_keep_sound(a, b, step),
    }
}

/// An index goes through `stages` by `steps`.
pub open spec fn history(stages: Seq<Stage>, steps: Seq<Step>) -> bool {
    &&& stages.len() == steps.len() + 1
    &&& forall|k: int| 0 <= k < steps.len() ==> leads(#[trigger] stages[k], stages[k + 1], steps[k])
}

/// Whatever operations an index that began empty has gone through, it is
/// intact whenever none is under way: what lookups, removals and the length
/// promise of intact indexes holds of every index.
pub proof fn law_every_history_is_intact(stages: Seq<Stage>, steps: Seq<Step>, k: int)
    requires
        history(stages, steps),
        stages[0].x.partitions@.len() == 0,
        stages[0].x.runs@.len() == 0,
        stages[0].x.memtable.ids@.len() == 0,
        stages[0].x.wf(),
        stages[0].at_rest(),
        stages[0].rows == Seq::<Seq<Row>>::empty(),
        0 <= k < stages.len(),
    ensures
        stages[k].sound(),
        stages[k].x.wf(),
        stages[k].at_rest() ==> stages[k].x.intact(stages[k].rows),
    decreases k,
{
    if k == 0 {
        law_new_index_is_intact(stages[0].x);
        law_rest_is_intact(stages[0]);
    } else {
        law_every_history_is_intact(stages, steps, k - 1);
        assert(leads(stages[k - 1], stages[(k - 1) + 1], steps[k - 1]));
        law_steps_keep_sound(stages[k - 1], stages[k], steps[k - 1]);
        if stages[k].at_rest() {
            law_rest_is_intact(stages[k]);
        }
    }
}

/// The operation adds this id.
pub open spec fn adds(step: Step, id: u64) -> bool {
    match step {
        Step::Add { ids, vectors } => ids.contains(id),
        _ => false,
    }
}

/// An id that is not there does not come back unless it is added.
pub proof fn law_removed_id_stays_removed(stages: Seq<Stage>, steps: Seq<Step>, id: u64, n: int)
    requires
        history(stages, steps),
        stages[0].sound(),
        !stages[0].ids().contains(id),
        forall|k: int| 0 <= k < steps.len() ==> !adds(#[trigger] steps[k], id),
        0 <= n < stages.len(),
    ensures
        stages[n].sound(),
        !stages[n].ids().contains(id),
        stages[n].at_rest() && stages[n].x.wf() ==> !stages[n].x.live().contains(id),
    decreases n,
{
    if n > 0 {
        law_removed_id_stays_removed(stages, steps, id, n - 1);
        let a = stages[n - 1];
        let b = stages[n];
        assert(leads(stages[n - 1], stages[(n - 1) + 1], steps[n - 1]));
        law_steps_keep_sound(a, b, steps[n - 1]);
        assert(!adds(steps[n - 1], id));
    }
    if stages[n].at_rest() && stages[n].x.wf() {
        law_rest_is_intact(stages[n]);
    }
}

} // verus!
