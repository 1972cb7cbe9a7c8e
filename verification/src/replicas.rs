//! Replicas that are written behind their primaries.
use vstd::prelude::*;
use crate::batch::{shaped, Row, RowBatch};
use crate::flush::{has_room, ChunkWrite};
use crate::fresh::FreshIndex;
use crate::ingest::{all_appended, entries_upto, stats_upto, writes_of};
use crate::runs::RunEntry;
use crate::tuning::WriteReason;

verus! {

/// The replicas of a row that the first `k` entries of a list send to `p`.
pub open spec fn replicas_of(row: Row, list: Seq<u32>, p: int, k: int) -> Seq<Row>
    decreases k,
{
    if k <= 0 {
        Seq::empty()
    } else if list[k - 1] == p {
        replicas_of(row, list, p, k - 1).push(Row { replica: true, ..row })
    } else {
        replicas_of(row, list, p, k - 1)
    }
}

/// The replicas of rows that `lists` sends to `p`.
pub open spec fn replicas_to(rows: Seq<Row>, lists: Seq<Vec<u32>>, p: int) -> Seq<Row>
    decreases rows.len(),
{
    if rows.len() == 0 {
        Seq::empty()
    } else {
        let list = lists[rows.len() - 1]@;
        replicas_to(rows.drop_last(), lists, p) + replicas_of(rows.last(), list, p, list.len() as int)
    }
}

/// The replicas of the first `i` rows, and of row `i` by the first `d` entries
/// of its list.
spec fn dealt(rows: Seq<Row>, lists: Seq<Vec<u32>>, i: int, d: int, p: int) -> Seq<Row> {
    replicas_to(rows.take(i), lists, p) + replicas_of(rows[i], lists[i]@, p, d)
}

impl RowBatch {
    /// Deals replicas of row `i` out to the places that `list` names.
    fn deal_row(&self, lists: &Vec<Vec<u32>>, i: usize, out: &mut Vec<RowBatch>)
        requires
            self.wf(),
            i < self@.len(),
            i < lists@.len(),
            forall|d: int| 0 <= d < lists@[i as int]@.len() ==> #[trigger] lists@[i as int]@[d] < old(out)@.len(),
            shaped(old(out)@, self.groups, self.width),
            forall|p: int|
                0 <= p < old(out)@.len() ==> (#[trigger] old(out)@[p])@ == replicas_to(
                    self@.take(i as int),
                    lists@,
                    p,
                ),
        ensures
            final(out)@.len() == old(out)@.len(),
            shaped(final(out)@, self.groups, self.width),
            forall|p: int|
                0 <= p < final(out)@.len() ==> (#[trigger] final(out)@[p])@ == replicas_to(
                    self@.take(i + 1),
                    lists@,
                    p,
                ),
    {
        let list: &Vec<u32> = &lists[i];
        let ghost n = out@.len();
        let mut d: usize = 0;
        assert forall|p: int| 0 <= p < n implies (#[trigger] out@[p])@ == dealt(
            self@,
            lists@,
            i as int,
            0,
            p,
        ) by {
            assert(out@[p]@ =~= out@[p]@ + Seq::<Row>::empty());
        }
        while d < list.len()
            invariant
                self.wf(),
                i < self@.len(),
                i < lists@.len(),
                list@ == lists@[i as int]@,
                d <= list@.len(),
                out@.len() == n,
                forall|e: int| 0 <= e < list@.len() ==> #[trigger] list@[e] < n,
                shaped(out@, self.groups, self.width),
                forall|p: int|
                    0 <= p < n ==> (#[trigger] out@[p])@ == dealt(self@, lists@, i as int, d as int, p),
            decreases list.len() - d,
        {
            proof {
                assert(list@[d as int] < n);
                assert(out@[list@[d as int] as int].wf());
            }
            let place: usize = list[d] as usize;
            let ghost before = out@;
            out[place].push_from(self, i, true);
            proof {
                assert forall|p: int| 0 <= p < n implies (#[trigger] out@[p])@ == dealt(
                    self@,
                    lists@,
                    i as int,
                    d + 1,
                    p,
                ) by {
                    assert(before[p]@ == dealt(self@, lists@, i as int, d as int, p));
                    assert(out@[p]@ =~= dealt(self@, lists@, i as int, d + 1, p));
                }
                assert forall|p: int| 0 <= p < out@.len() implies (#[trigger] out@[p]).wf() && out@[p].groups
                    == self.groups && out@[p].width == self.width by {
                    assert(before[p].wf());
                }
            }
            d = d + 1;
        }
        proof {
            assert(self@.take(i + 1).drop_last() =~= self@.take(i as int));
            assert(self@.take(i + 1).last() == self@[i as int]);
            assert forall|p: int| 0 <= p < n implies (#[trigger] out@[p])@ == replicas_to(
                self@.take(i + 1),
                lists@,
                p,
            ) by {
                assert(out@[p]@ == dealt(self@, lists@, i as int, d as int, p));
            }
        }
    }

    /// Replicas of the rows, for each place those that `lists` sends there.
    pub fn distribute_replicas(&self, lists: &Vec<Vec<u32>>, n_places: usize) -> (r: Vec<RowBatch>)
        requires
            self.wf(),
            lists@.len() >= self@.len(),
            forall|i: int, d: int|
                0 <= i < self@.len() && 0 <= d < lists@[i]@.len() ==> #[trigger] lists@[i]@[d] < n_places,
        ensures
            r@.len() == n_places,
            shaped(r@, self.groups, self.width),
            forall|p: int| 0 <= p < n_places ==> (#[trigger] r@[p])@ == replicas_to(self@, lists@, p),
    {
        let mut out: Vec<RowBatch> = crate::batch::empty_batches(n_places, self.groups, self.width);
        let mut i: usize = 0;
        assert(self@.take(0) =~= Seq::<Row>::empty());
        while i < self.ids.len()
            invariant
                self.wf(),
                lists@.len() >= self@.len(),
                forall|k: int, d: int|
                    0 <= k < self@.len() && 0 <= d < lists@[k]@.len() ==> #[trigger] lists@[k]@[d] < n_places,
                i <= self.ids@.len(),
                out@.len() == n_places,
                shaped(out@, self.groups, self.width),
                forall|p: int|
                    0 <= p < n_places ==> (#[trigger] out@[p])@ == replicas_to(
                        self@.take(i as int),
                        lists@,
                        p,
                    ),
            decreases self.ids.len() - i,
        {
            self.deal_row(lists, i, &mut out);
            i = i + 1;
        }
        assert(self@.take(i as int) =~= self@);
        out
    }
}

impl FreshIndex {
    /// Appends replicas of rows to the partitions that `lists` names for each.
    pub fn append_replicas(
        &mut self,
        rows: &RowBatch,
        lists: &Vec<Vec<u32>>,
        entries: &mut Vec<RunEntry>,
    ) -> (writes: Vec<ChunkWrite>)
        requires
            old(self).wf(),
            old(self).memtable.dim is Some,
            rows.wf(),
            rows.groups == old(self).ng(),
            rows.width == old(self).stored(),
            lists@.len() >= rows@.len(),
            forall|i: int, d: int|
                0 <= i < rows@.len() && 0 <= d < lists@[i]@.len() ==> #[trigger] lists@[i]@[d] < old(
                    self,
                ).partitions@.len(),
            forall|k: int|
                0 <= k < old(self).partitions@.len() ==> has_room(
                    #[trigger] old(self).partitions@[k],
                    old(self).ng(),
                    old(self).stored(),
                    replicas_to(rows@, lists@, k).len() as int,
                ),
        ensures
            final(self).wf(),
            exists|batches: Seq<RowBatch>|
                #![trigger shaped(batches, rows.groups, rows.width)]
                {
                    &&& shaped(batches, rows.groups, rows.width)
                    &&& batches.len() == old(self).partitions@.len()
                    &&& forall|k: int|
                        0 <= k < batches.len() ==> (#[trigger] batches[k])@ == replicas_to(rows@, lists@, k)
                    &&& all_appended(
                        old(self).partitions@,
                        final(self).partitions@,
                        batches,
                        old(self).ng(),
                        old(self).stored(),
                    )
                    &&& final(entries)@ == old(entries)@ + entries_upto(
                        old(self).partitions@,
                        batches,
                        batches.len() as int,
                    )
                    &&& writes_of(
                        writes@,
                        old(self).flavor,
                        old(self).partitions@,
                        batches,
                        batches.len() as int,
                    )
                    &&& final(self).stats == stats_upto(
                        old(self).stats,
                        old(self).flavor,
                        WriteReason::Replica,
                        batches,
                        batches.len() as int,
                    )
                },
            *final(self) == (FreshIndex {
                partitions: final(self).partitions,
                stats: final(self).stats,
                ..*old(self)
            }),
    {
        let n: usize = self.partitions.len();
        let batches: Vec<RowBatch> = rows.distribute_replicas(lists, n);
        proof {
            assert forall|k: int| 0 <= k < n implies has_room(
                #[trigger] self.partitions@[k],
                self.ng(),
                self.stored(),
                batches@[k]@.len() as int,
            ) by {
                assert(batches@[k]@ == replicas_to(rows@, lists@, k));
            }
        }
        self.append_batches(&batches, entries, WriteReason::Replica)
    }
}

} // verus!
