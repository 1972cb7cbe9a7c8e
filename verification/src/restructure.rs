//! Splitting, dissolving and rebuilding the partitions of an incrementally
//! updated index.
use vstd::prelude::*;
use crate::batch::{
    law_distribute_keeps_rows, primary_count, sent_to, shaped, spread_to, Row, RowBatch,
};
use crate::bits::marked;
use crate::chunk::{chunk_bytes, chunk_len};
use crate::clustering::{count_ones, degenerate, ones, MERGE_DIVISOR, MIN_PARTITIONS, SPLIT_FACTOR};
use crate::compaction::lemma_chunk_len_order;
use crate::flush::{has_room, new_entries, ChunkWrite};
use crate::fresh::FreshIndex;
use crate::ingest::{all_appended, entries_upto, stats_upto, writes_of};
use crate::pack::n_byte_groups;
use crate::partition::{live_of, ChunkMeta, PartitionState};
use crate::runs::RunEntry;
use crate::tuning::{after_write, count_on, counted, MaintenanceStats, WriteReason};

verus! {

/// What a split did.
pub struct SplitOutcome {
    /// Id and generation of the partition that is gone.
    pub dropped: (u32, u32),
    pub writes: Vec<ChunkWrite>,
    /// Ids of the new partitions.
    pub changed: (u32, u32),
}

/// A new partition that holds exactly `rows`.
pub open spec fn holds_only(p: PartitionState, partition_id: u32, rows: Seq<Row>, ng: int, width: int) -> bool {
    &&& p.partition_id == partition_id
    &&& p.generation == 0
    &&& p.n_rows == rows.len()
    &&& p.live_rows == rows.len()
    &&& p.live_primary == primary_count(rows)
    &&& p.chunks@ == seq![ChunkMeta { offset: 0, n_rows: rows.len() as u32 }]
    &&& p.file_bytes == chunk_len(ng, width, rows.len() as int)
    &&& forall|q: int| 0 <= q ==> !#[trigger] marked(p.dead@, q)
}

/// The counters after a split was tried.
pub open spec fn after_split_try(s: MaintenanceStats, fired: bool, done: bool) -> MaintenanceStats {
    MaintenanceStats {
        splits_attempted: counted(s.splits_attempted, 1),
        balance_fired: if fired {
            counted(s.balance_fired, 1)
        } else {
            s.balance_fired
        },
        splits_degenerate: if done {
            s.splits_degenerate
        } else {
            counted(s.splits_degenerate, 1)
        },
        splits_done: if done {
            counted(s.splits_done, 1)
        } else {
            s.splits_done
        },
        ..s
    }
}

impl FreshIndex {
    /// The first partition that is too large.
    pub fn first_oversized(&self, target: u32) -> (r: Option<usize>)
        ensures
            match r {
                Some(k) => {
                    &&& k < self.partitions@.len()
                    &&& self.partitions@[k as int].live_primary > SPLIT_FACTOR * target
                    &&& forall|j: int|
                        0 <= j < k ==> (#[trigger] self.partitions@[j]).live_primary <= SPLIT_FACTOR * target
                },
                None => forall|j: int|
                    0 <= j < self.partitions@.len() ==> (#[trigger] self.partitions@[j]).live_primary
                        <= SPLIT_FACTOR * target,
            },
    {
        let mut k: usize = 0;
        while k < self.partitions.len()
            invariant
                k <= self.partitions@.len(),
                forall|j: int|
                    0 <= j < k ==> (#[trigger] self.partitions@[j]).live_primary <= SPLIT_FACTOR * target,
            decreases self.partitions.len() - k,
        {
            if self.partitions[k].live_primary > 2 * (target as u64) {
                return Some(k);
            }
            k = k + 1;
        }
        None
    }

    /// The first partition that is too small, while there are more than the
    /// least number.
    pub fn first_undersized(&self, target: u32) -> (r: Option<usize>)
        ensures
            match r {
                Some(k) => {
                    &&& self.partitions@.len() > MIN_PARTITIONS
                    &&& k < self.partitions@.len()
                    &&& self.partitions@[k as int].live_primary < target as int / MERGE_DIVISOR as int
                    &&& forall|j: int|
                        0 <= j < k ==> (#[trigger] self.partitions@[j]).live_primary >= target as int
                            / MERGE_DIVISOR as int
                },
                None => self.partitions@.len() <= MIN_PARTITIONS || forall|j: int|
                    0 <= j < self.partitions@.len() ==> (#[trigger] self.partitions@[j]).live_primary
                        >= target as int / MERGE_DIVISOR as int,
            },
    {
        if self.partitions.len() <= MIN_PARTITIONS {
            return None;
        }
        let mut k: usize = 0;
        while k < self.partitions.len()
            invariant
                k <= self.partitions@.len(),
                self.partitions@.len() > MIN_PARTITIONS,
                forall|j: int|
                    0 <= j < k ==> (#[trigger] self.partitions@[j]).live_primary >= target as int
                        / MERGE_DIVISOR as int,
            decreases self.partitions.len() - k,
        {
            if self.partitions[k].live_primary < (target / 4) as u64 {
                return Some(k);
            }
            k = k + 1;
        }
        None
    }

    /// The rows that a partition's split or dissolution works on: its live
    /// primaries, and the ids of the replicas that it gives up.
    pub fn partition_primaries(&self, position: usize, file: &[u8]) -> (r: (RowBatch, Vec<u64>))
        requires
            self.wf(),
            position < self.partitions@.len(),
            self.partitions@[position as int].file_bytes <= file@.len(),
        ensures
            r.0.wf(),
            r.0.groups == self.ng(),
            r.0.width == self.stored(),
            ({
                let p = self.partitions@[position as int];
                let live = live_of(
                    p.rows(self.flavor, file@, self.ng(), self.stored()),
                    p.dead@,
                    0,
                    false,
                );
                &&& r.0@ == crate::batch::primary_rows(live)
                &&& r.1@ == crate::batch::replica_ids(live)
            }),
    {
        let dim: usize = self.dim();
        let width: usize = if self.store_vectors {
            dim
        } else {
            0
        };
        let ng: usize = n_byte_groups(self.bit_width, dim);
        assert(self.partitions@[position as int].wf());
        let (live, _) = self.partitions[position].read_live(self.flavor, file, ng, width, false);
        live.part_replicas()
    }

    /// Adds a partition that holds `rows`.
    fn add_filled(
        &mut self,
        centroid: &[u32],
        rows: &RowBatch,
        entries: &mut Vec<RunEntry>,
        reason: WriteReason,
    ) -> (w: Option<ChunkWrite>)
        requires
            old(self).wf(),
            old(self).memtable.dim is Some,
            centroid@.len() == old(self).memtable.width(),
            old(self).next_partition_id < u32::MAX,
            rows.wf(),
            rows.groups == old(self).ng(),
            rows.width == old(self).stored(),
            0 < rows@.len() <= u32::MAX,
            chunk_len(old(self).ng(), old(self).stored(), rows@.len() as int) <= usize::MAX,
        ensures
            final(self).wf(),
            w is Some,
            (w->0).partition_id == old(self).next_partition_id,
            (w->0).generation == 0,
            (w->0).offset == 0,
            (w->0).bytes@ == chunk_bytes(old(self).flavor, *rows),
            final(self).partitions@.len() == old(self).partitions@.len() + 1,
            forall|k: int|
                0 <= k < old(self).partitions@.len() ==> #[trigger] final(self).partitions@[k] == old(
                    self,
                ).partitions@[k],
            holds_only(
                final(self).partitions@[old(self).partitions@.len() as int],
                old(self).next_partition_id,
                rows@,
                old(self).ng(),
                old(self).stored(),
            ),
            final(self).centroids@ == old(self).centroids@ + centroid@,
            final(entries)@ == old(entries)@ + new_entries(rows@, old(self).next_partition_id, 0, 0),
            *final(self) == (FreshIndex {
                partitions: final(self).partitions,
                centroids: final(self).centroids,
                centroids_dirty: true,
                next_partition_id: (old(self).next_partition_id + 1) as u32,
                stats: final(self).stats,
                ..*old(self)
            }),
            final(self).stats == after_write(
                old(self).stats,
                reason,
                rows@.len() as u64,
                (w->0).bytes@.len() as u64,
            ),
    {
        let at: usize = self.create_partition(centroid);
        let ghost fresh = self.partitions@[at as int];
        let w: Option<ChunkWrite> = self.append_chunk(at, rows, entries, reason);
        proof {
            let p = self.partitions@[at as int];
            assert(p.chunks@ =~= seq![ChunkMeta { offset: 0, n_rows: rows@.len() as u32 }]);
            assert forall|q: int| 0 <= q implies !#[trigger] marked(p.dead@, q) by {
                assert(marked(p.dead@, q) == marked(fresh.dead@, q));
            }
        }
        w
    }

    /// Adds the two parts of a split.
    #[verifier::rlimit(30)]
    fn add_children(
        &mut self,
        centroids: &[u32],
        first: &RowBatch,
        second: &RowBatch,
        entries: &mut Vec<RunEntry>,
    ) -> (writes: Vec<ChunkWrite>)
        requires
            old(self).wf(),
            old(self).memtable.dim is Some,
            2 * old(self).memtable.width() <= centroids@.len(),
            old(self).next_partition_id < u32::MAX - 1,
            first.wf() && second.wf(),
            first.groups == old(self).ng() && second.groups == old(self).ng(),
            first.width == old(self).stored() && second.width == old(self).stored(),
            0 < first@.len() <= u32::MAX,
            0 < second@.len() <= u32::MAX,
            chunk_len(old(self).ng(), old(self).stored(), first@.len() as int) <= usize::MAX,
            chunk_len(old(self).ng(), old(self).stored(), second@.len() as int) <= usize::MAX,
        ensures
            final(self).wf(),
            ({
                let a = old(self).partitions@;
                let b = final(self).partitions@;
                let n = a.len() as int;
                let dim = old(self).memtable.width();
                let id = old(self).next_partition_id;
                &&& b.len() == n + 2
                &&& forall|k: int| 0 <= k < n ==> #[trigger] b[k] == a[k]
                &&& holds_only(b[n], id, first@, old(self).ng(), old(self).stored())
                &&& holds_only(b[n + 1], (id + 1) as u32, second@, old(self).ng(), old(self).stored())
                &&& final(self).centroids@ == old(self).centroids@ + centroids@.take(dim) + centroids@.subrange(
                    dim,
                    2 * dim,
                )
                &&& final(entries)@ == old(entries)@ + new_entries(first@, id, 0, 0) + new_entries(
                    second@,
                    (id + 1) as u32,
                    0,
                    0,
                )
                &&& writes@.len() == 2
                &&& split_write(writes@[0], old(self).flavor, id, first@, *first)
                &&& split_write(writes@[1], old(self).flavor, (id + 1) as u32, second@, *second)
                &&& *final(self) == (FreshIndex {
                    partitions: final(self).partitions,
                    centroids: final(self).centroids,
                    centroids_dirty: true,
                    next_partition_id: (id + 2) as u32,
                    stats: after_write(
                        after_write(
                            old(self).stats,
                            WriteReason::Split,
                            first@.len() as u64,
                            writes@[0].bytes@.len() as u64,
                        ),
                        WriteReason::Split,
                        second@.len() as u64,
                        writes@[1].bytes@.len() as u64,
                    ),
                    ..*old(self)
                })
            }),
    {
        let dim: usize = self.dim();
        let mut writes: Vec<ChunkWrite> = Vec::new();
        assert(centroids.len() == centroids@.len());
        let c0: &[u32] = vstd::slice::slice_subrange(centroids, 0, dim);
        let c1: &[u32] = vstd::slice::slice_subrange(centroids, dim, 2 * dim);
        assert(c0@ =~= centroids@.take(dim as int));
        let w0: Option<ChunkWrite> = self.add_filled(c0, first, entries, WriteReason::Split);
        let ghost mid = *self;
        let w1: Option<ChunkWrite> = self.add_filled(c1, second, entries, WriteReason::Split);
        if let Some(w) = w0 {
            writes.push(w);
        }
        if let Some(w) = w1 {
            writes.push(w);
        }
        proof {
            let n = old(self).partitions@.len() as int;
            assert(self.partitions@[n] == mid.partitions@[n]);
            lemma_split_write(writes@[0], mid.flavor, *first);
            lemma_split_write(writes@[1], mid.flavor, *second);
        }
        writes
    }

    /// Splits a partition in two: `children` tells for each of its live
    /// primaries which child takes it. A split that would leave a child empty
    /// changes nothing but the counters. `raw_ones` is how many went to the
    /// second child before balancing.
    #[verifier::rlimit(30)]
    pub fn split_partition(
        &mut self,
        position: usize,
        primaries: &RowBatch,
        child_centroids: &[u32],
        children: &Vec<u32>,
        raw_ones: usize,
        entries: &mut Vec<RunEntry>,
    ) -> (r: Option<SplitOutcome>)
        requires
            old(self).wf(),
            position < old(self).partitions@.len(),
            primaries.wf(),
            primaries.groups == old(self).ng(),
            primaries.width == old(self).stored(),
            primaries@.len() <= u32::MAX,
            chunk_len(old(self).ng(), old(self).stored(), primaries@.len() as int) <= usize::MAX,
            old(self).memtable.dim is Some,
            children@.len() == primaries@.len(),
            forall|i: int| 0 <= i < children@.len() ==> #[trigger] children@[i] < 2,
            old(self).next_partition_id < u32::MAX - 1,
        ensures
            final(self).wf(),
            r is None <==> degenerate(
                child_centroids@.len() as int / old(self).memtable.width(),
                children@,
            ),
            r is None ==> *final(self) == (FreshIndex {
                stats: after_split_try(old(self).stats, ones(children@) != raw_ones, false),
                ..*old(self)
            }) && final(entries)@ == old(entries)@,
            r is Some ==> {
                let a = old(self).partitions@.remove(position as int);
                let b = final(self).partitions@;
                let n = a.len() as int;
                let dim = old(self).memtable.width();
                let first = sent_to(primaries@, children@, 0);
                let second = sent_to(primaries@, children@, 1);
                let id = old(self).next_partition_id;
                &&& b.len() == n + 2
                &&& forall|k: int| 0 <= k < n ==> #[trigger] b[k] == a[k]
                &&& holds_only(b[n], id, first, old(self).ng(), old(self).stored())
                &&& holds_only(b[n + 1], (id + 1) as u32, second, old(self).ng(), old(self).stored())
                &&& first.len() + second.len() == primaries@.len()
                &&& first.len() > 0
                &&& second.len() > 0
                &&& final(self).centroids@ == old(self).centroids@.take(position * dim) + old(
                    self,
                ).centroids@.skip((position + 1) * dim) + child_centroids@.take(dim)
                    + child_centroids@.subrange(dim, 2 * dim)
                &&& final(entries)@ == old(entries)@ + new_entries(first, id, 0, 0) + new_entries(
                    second,
                    (id + 1) as u32,
                    0,
                    0,
                )
                &&& (r->0).dropped.0 == old(self).partitions@[position as int].partition_id
                &&& (r->0).dropped.1 == old(self).partitions@[position as int].generation
                &&& (r->0).changed == (id, (id + 1) as u32)
                &&& (r->0).writes@.len() == 2
                &&& split_write((r->0).writes@[0], old(self).flavor, id, first, *primaries)
                &&& split_write((r->0).writes@[1], old(self).flavor, (id + 1) as u32, second, *primaries)
                &&& *final(self) == (FreshIndex {
                    partitions: final(self).partitions,
                    centroids: final(self).centroids,
                    centroids_dirty: true,
                    next_partition_id: (id + 2) as u32,
                    stats: after_write(
                        after_write(
                            after_split_try(old(self).stats, ones(children@) != raw_ones, true),
                            WriteReason::Split,
                            first.len() as u64,
                            (r->0).writes@[0].bytes@.len() as u64,
                        ),
                        WriteReason::Split,
                        second.len() as u64,
                        (r->0).writes@[1].bytes@.len() as u64,
                    ),
                    ..*old(self)
                })
            },
    {
        let dim: usize = self.dim();
        let n: usize = primaries.len();
        let second: usize = count_ones(children);
        self.stats.splits_attempted = count_on(self.stats.splits_attempted, 1);
        if second != raw_ones {
            self.stats.balance_fired = count_on(self.stats.balance_fired, 1);
        }
        if child_centroids.len() / dim < 2 || second == 0 || second == n {
            self.stats.splits_degenerate = count_on(self.stats.splits_degenerate, 1);
            return None;
        }
        self.stats.splits_done = count_on(self.stats.splits_done, 1);
        let batches: Vec<RowBatch> = primaries.distribute(children.as_slice(), 2);
        let ghost first_rows = sent_to(primaries@, children@, 0);
        let ghost second_rows = sent_to(primaries@, children@, 1);
        proof {
            let m = child_centroids@.len() as int;
            vstd::arithmetic::div_mod::lemma_fundamental_div_mod(m, dim as int);
            assert(2 * dim <= m) by (nonlinear_arith)
                requires
                    m == dim * (m / (dim as int)) + m % (dim as int),
                    m / (dim as int) >= 2,
                    0 <= m % (dim as int),
                    0 < dim,
            ;
            law_distribute_keeps_rows(primaries@, children@, 2);
            lemma_received_two(primaries@, children@);
            lemma_sent_ones(primaries@, children@);
            assert(batches@[0]@ == first_rows && batches@[1]@ == second_rows);
            assert(batches@[0].wf() && batches@[1].wf());
            lemma_chunk_len_order(self.ng(), self.stored(), first_rows.len() as int, n as int);
            lemma_chunk_len_order(self.ng(), self.stored(), second_rows.len() as int, n as int);
        }
        let dropped: (u32, u32) = self.drop_partition(position);
        let id: u32 = self.next_partition_id;
        let writes: Vec<ChunkWrite> = self.add_children(child_centroids, &batches[0], &batches[1], entries);
        proof {
            lemma_split_shape(writes@[0], self.flavor, id, first_rows, batches@[0], *primaries);
            lemma_split_shape(writes@[1], self.flavor, (id + 1) as u32, second_rows, batches@[1], *primaries);
        }
        Some(SplitOutcome { dropped, writes, changed: (id, id + 1) })
    }
}

/// The write that fills a child.
#[verifier::opaque]
pub open spec fn split_write(
    w: ChunkWrite,
    flavor: crate::pack::Layout,
    partition_id: u32,
    rows: Seq<Row>,
    shape: RowBatch,
) -> bool {
    &&& w.partition_id == partition_id
    &&& w.generation == 0
    &&& w.offset == 0
    &&& exists|b: RowBatch|
        #![trigger b.wf()]
        b.wf() && b@ == rows && b.groups == shape.groups && b.width == shape.width && w.bytes@
            == chunk_bytes(flavor, b)
}

proof fn lemma_split_write(w: ChunkWrite, flavor: crate::pack::Layout, b: RowBatch)
    requires
        b.wf(),
        w.generation == 0,
        w.offset == 0,
        w.bytes@ == chunk_bytes(flavor, b),
    ensures
        split_write(w, flavor, w.partition_id, b@, b),
{
    reveal(split_write);
}

proof fn lemma_split_shape(
    w: ChunkWrite,
    flavor: crate::pack::Layout,
    partition_id: u32,
    rows: Seq<Row>,
    a: RowBatch,
    b: RowBatch,
)
    requires
        split_write(w, flavor, partition_id, rows, a),
        a.groups == b.groups,
        a.width == b.width,
    ensures
        split_write(w, flavor, partition_id, rows, b),
{
    reveal(split_write);
}

/// Two places receive everything.
proof fn lemma_received_two(rows: Seq<Row>, places: Seq<u32>)
    ensures
        crate::batch::received(rows, places, 2) == sent_to(rows, places, 0).len() + sent_to(
            rows,
            places,
            1,
        ).len(),
{
    assert(crate::batch::received(rows, places, 0) == 0);
    assert(crate::batch::received(rows, places, 1) == sent_to(rows, places, 0).len());
}

/// The second place receives the rows labelled 1.
proof fn lemma_sent_ones(rows: Seq<Row>, places: Seq<u32>)
    requires
        places.len() >= rows.len(),
    ensures
        sent_to(rows, places, 1).len() == ones(places.take(rows.len() as int)),
        places.len() == rows.len() ==> sent_to(rows, places, 1).len() == ones(places),
    decreases rows.len(),
{
    let n = rows.len() as int;
    if n > 0 {
        lemma_sent_ones(rows.drop_last(), places);
        assert(places.take(n).drop_last() =~= places.take(n - 1));
    } else {
        assert(places.take(0) =~= Seq::<u32>::empty());
    }
    if places.len() == n {
        assert(places.take(n) =~= places);
    }
}

/// What dissolving a partition did.
pub struct DissolveOutcome {
    /// Id and generation of the partition that is gone.
    pub dropped: (u32, u32),
    pub writes: Vec<ChunkWrite>,
    /// Id of the partition that each row went to.
    pub changed: Vec<u32>,
}

impl FreshIndex {
    /// Takes a partition out and appends its primaries to others: `places`
    /// gives each row its position among the partitions that stay.
    pub fn dissolve_partition(
        &mut self,
        position: usize,
        primaries: &RowBatch,
        places: &[u32],
        entries: &mut Vec<RunEntry>,
    ) -> (r: DissolveOutcome)
        requires
            old(self).wf(),
            old(self).memtable.dim is Some,
            position < old(self).partitions@.len(),
            primaries.wf(),
            primaries.groups == old(self).ng(),
            primaries.width == old(self).stored(),
            places@.len() == primaries@.len(),
            forall|i: int|
                0 <= i < places@.len() ==> #[trigger] places@[i] < old(self).partitions@.len() - 1,
            forall|k: int|
                0 <= k < old(self).partitions@.len() - 1 ==> has_room(
                    #[trigger] old(self).partitions@.remove(position as int)[k],
                    old(self).ng(),
                    old(self).stored(),
                    sent_to(primaries@, places@, k).len() as int,
                ),
        ensures
            final(self).wf(),
            r.dropped.0 == old(self).partitions@[position as int].partition_id,
            r.dropped.1 == old(self).partitions@[position as int].generation,
            r.changed@ == Seq::new(
                places@.len(),
                |i: int|
                    old(self).partitions@.remove(position as int)[places@[i] as int].partition_id,
            ),
            exists|batches: Seq<RowBatch>|
                #![trigger shaped(batches, primaries.groups, primaries.width)]
                {
                    let stay = old(self).partitions@.remove(position as int);
                    &&& shaped(batches, primaries.groups, primaries.width)
                    &&& batches.len() == stay.len()
                    &&& forall|k: int|
                        0 <= k < batches.len() ==> (#[trigger] batches[k])@ == sent_to(
                            primaries@,
                            places@,
                            k,
                        )
                    &&& all_appended(
                        stay,
                        final(self).partitions@,
                        batches,
                        old(self).ng(),
                        old(self).stored(),
                    )
                    &&& final(entries)@ == old(entries)@ + entries_upto(
                        stay,
                        batches,
                        batches.len() as int,
                    )
                    &&& writes_of(r.writes@, old(self).flavor, stay, batches, batches.len() as int)
                    &&& final(self).stats == (MaintenanceStats {
                        dissolves: counted(old(self).stats.dissolves, 1),
                        ..stats_upto(
                            old(self).stats,
                            old(self).flavor,
                            WriteReason::Ingest,
                            batches,
                            batches.len() as int,
                        )
                    })
                },
            final(self).centroids@ == old(self).centroids@.take(
                position * old(self).memtable.width(),
            ) + old(self).centroids@.skip((position + 1) * old(self).memtable.width()),
            *final(self) == (FreshIndex {
                partitions: final(self).partitions,
                centroids: final(self).centroids,
                centroids_dirty: true,
                stats: final(self).stats,
                ..*old(self)
            }),
    {
        let dissolves: u64 = count_on(self.stats.dissolves, 1);
        let dropped: (u32, u32) = self.drop_partition(position);
        let ghost stay = self.partitions@;
        let mut changed: Vec<u32> = Vec::new();
        let mut i: usize = 0;
        while i < places.len()
            invariant
                i <= places@.len(),
                stay == self.partitions@,
                forall|k: int| 0 <= k < places@.len() ==> #[trigger] places@[k] < stay.len(),
                changed@ == Seq::new(i as nat, |k: int| stay[places@[k] as int].partition_id),
            decreases places.len() - i,
        {
            assert(places@[i as int] < stay.len());
            changed.push(self.partitions[places[i] as usize].partition_id);
            i = i + 1;
            assert(changed@ =~= Seq::new(i as nat, |k: int| stay[places@[k] as int].partition_id));
        }
        let writes: Vec<ChunkWrite> = self.append_batch_single(primaries, places, entries);
        self.stats.dissolves = dissolves;
        DissolveOutcome { dropped, writes, changed }
    }
}

/// A partition that was just made.
pub open spec fn just_made(p: PartitionState, partition_id: u32) -> bool {
    &&& p.partition_id == partition_id
    &&& p.generation == 0
    &&& p.n_rows == 0
    &&& p.live_rows == 0
    &&& p.live_primary == 0
    &&& p.chunks@.len() == 0
    &&& p.dead@.len() == 0
    &&& p.file_bytes == 0
}

/// The names of partitions' files.
pub open spec fn files_of(parts: Seq<PartitionState>) -> Seq<(u32, u32)> {
    Seq::new(parts.len(), |k: int| (parts[k].partition_id, parts[k].generation))
}

impl FreshIndex {
    /// Takes all partitions out. Returns the names of their files.
    fn drop_all(&mut self) -> (dropped: Vec<(u32, u32)>)
        requires
            old(self).wf(),
        ensures
            final(self).wf(),
            final(self).partitions@.len() == 0,
            final(self).centroids@.len() == 0,
            dropped@ == files_of(old(self).partitions@),
            *final(self) == (FreshIndex {
                partitions: final(self).partitions,
                centroids: final(self).centroids,
                centroids_dirty: final(self).centroids_dirty,
                ..*old(self)
            }),
    {
        let mut dropped: Vec<(u32, u32)> = Vec::new();
        let ghost start = self.partitions@;
        let ghost all = files_of(start);
        while self.partitions.len() > 0
            invariant
                self.wf(),
                start == old(self).partitions@,
                all == files_of(start),
                dropped@.len() + self.partitions@.len() == start.len(),
                self.partitions@ == start.skip(dropped@.len() as int),
                dropped@ == all.take(dropped@.len() as int),
                *self == (FreshIndex {
                    partitions: self.partitions,
                    centroids: self.centroids,
                    centroids_dirty: self.centroids_dirty,
                    ..*old(self)
                }),
            decreases self.partitions@.len(),
        {
            let ghost k = dropped@.len() as int;
            let gone: (u32, u32) = self.drop_partition(0);
            dropped.push(gone);
            proof {
                assert(start.skip(k)[0] == start[k]);
                assert(self.partitions@ =~= start.skip(k + 1));
                assert(dropped@ =~= all.take(k + 1));
            }
        }
        assert(dropped@ =~= all);
        proof {
            let d = self.memtable.width();
            assert(0 * d == 0) by (nonlinear_arith);
        }
        dropped
    }

    /// Replaces all partitions: one for each centroid, filled with copies of
    /// `all` as `lists` tells. Returns the names of the files that are gone,
    /// and the writes.
    pub fn rebuild(
        &mut self,
        all: &RowBatch,
        centroids: &[u32],
        nlist: usize,
        lists: &Vec<Vec<u32>>,
        entries: &mut Vec<RunEntry>,
    ) -> (r: (Vec<(u32, u32)>, Vec<ChunkWrite>))
        requires
            old(self).wf(),
            old(self).memtable.dim is Some,
            all.wf(),
            all.groups == old(self).ng(),
            all.width == old(self).stored(),
            centroids@.len() == nlist * old(self).memtable.width(),
            old(self).next_partition_id + nlist <= u32::MAX,
            lists@.len() >= all@.len(),
            forall|i: int, d: int|
                0 <= i < all@.len() && 0 <= d < lists@[i]@.len() ==> #[trigger] lists@[i]@[d] < nlist,
            forall|k: int|
                0 <= k < nlist ==> #[trigger] spread_to(all@, lists@, k).len() <= u32::MAX && chunk_len(
                    old(self).ng(),
                    old(self).stored(),
                    spread_to(all@, lists@, k).len() as int,
                ) <= usize::MAX,
        ensures
            final(self).wf(),
            r.0@ == files_of(old(self).partitions@),
            final(self).partitions@.len() == nlist,
            exists|made: Seq<PartitionState>, batches: Seq<RowBatch>|
                #![trigger all_appended(
                    made,
                    final(self).partitions@,
                    batches,
                    old(self).ng(),
                    old(self).stored(),
                )]
                {
                    &&& made.len() == nlist
                    &&& forall|k: int|
                        0 <= k < nlist ==> just_made(
                            #[trigger] made[k],
                            (old(self).next_partition_id + k) as u32,
                        )
                    &&& batches.len() == nlist
                    &&& shaped(batches, all.groups, all.width)
                    &&& forall|k: int|
                        0 <= k < nlist ==> (#[trigger] batches[k])@ == spread_to(all@, lists@, k)
                    &&& all_appended(
                        made,
                        final(self).partitions@,
                        batches,
                        old(self).ng(),
                        old(self).stored(),
                    )
                    &&& final(entries)@ == old(entries)@ + entries_upto(made, batches, nlist as int)
                    &&& writes_of(r.1@, old(self).flavor, made, batches, nlist as int)
                    &&& final(self).stats == stats_upto(
                        old(self).stats,
                        old(self).flavor,
                        WriteReason::Ingest,
                        batches,
                        nlist as int,
                    )
                },
            final(self).centroids@ == centroids@,
            final(self).clustered,
            final(self).churn_since_check == 0,
            *final(self) == (FreshIndex {
                partitions: final(self).partitions,
                centroids: final(self).centroids,
                centroids_dirty: true,
                next_partition_id: (old(self).next_partition_id + nlist) as u32,
                clustered: true,
                churn_since_check: 0,
                stats: final(self).stats,
                ..*old(self)
            }),
    {
        let dim: usize = self.dim();
        let clen: usize = centroids.len();
        let dropped: Vec<(u32, u32)> = self.drop_all();
        self.centroids_dirty = true;
        let ghost first = self.next_partition_id;
        let mut c: usize = 0;
        proof {
            assert(0 * dim == 0) by (nonlinear_arith);
            assert(centroids@.take(0) =~= self.centroids@);
        }
        while c < nlist
            invariant
                self.wf(),
                dim == self.memtable.width(),
                self.memtable.dim is Some,
                clen == centroids@.len(),
                clen == nlist * dim,
                c <= nlist,
                first + nlist <= u32::MAX,
                first == old(self).next_partition_id,
                self.next_partition_id == first + c,
                self.partitions@.len() == c,
                self.centroids@ == centroids@.take(c * dim),
                forall|k: int| 0 <= k < c ==> just_made(#[trigger] self.partitions@[k], (first + k) as u32),
                *self == (FreshIndex {
                    partitions: self.partitions,
                    centroids: self.centroids,
                    centroids_dirty: true,
                    next_partition_id: self.next_partition_id,
                    ..*old(self)
                }),
            decreases nlist - c,
        {
            proof {
                crate::batch::lemma_row_bounds(c as int, nlist as int, dim as int);
            }
            let at: usize = c * dim;
            let ghost before = self.partitions@;
            self.create_partition(vstd::slice::slice_subrange(centroids, at, at + dim));
            proof {
                assert(centroids@.take(c * dim) + centroids@.subrange(c * dim, c * dim + dim)
                    =~= centroids@.take((c + 1) * dim));
                assert forall|k: int| 0 <= k < c + 1 implies just_made(
                    #[trigger] self.partitions@[k],
                    (first + k) as u32,
                ) by {
                    if k < c {
                        assert(self.partitions@[k] == before[k]);
                    }
                }
            }
            c = c + 1;
        }
        assert(centroids@.take(c * dim) =~= centroids@);
        let ghost made = self.partitions@;
        proof {
            assert forall|k: int| 0 <= k < made.len() implies has_room(
                #[trigger] made[k],
                self.ng(),
                self.stored(),
                spread_to(all@, lists@, k).len() as int,
            ) by {
                assert(just_made(made[k], (first + k) as u32));
            }
        }
        let writes: Vec<ChunkWrite> = self.append_batch(all, lists, entries);
        self.clustered = true;
        self.churn_since_check = 0;
        proof {
            let batches = choose|batches: Seq<RowBatch>|
                #![trigger shaped(batches, all.groups, all.width)]
                {
                    &&& shaped(batches, all.groups, all.width)
                    &&& batches.len() == made.len()
                    &&& forall|k: int|
                        0 <= k < batches.len() ==> (#[trigger] batches[k])@ == spread_to(all@, lists@, k)
                    &&& all_appended(made, self.partitions@, batches, self.ng(), self.stored())
                    &&& entries@ == old(entries)@ + entries_upto(made, batches, batches.len() as int)
                    &&& writes_of(writes@, self.flavor, made, batches, batches.len() as int)
                    &&& self.stats == stats_upto(
                        old(self).stats,
                        self.flavor,
                        WriteReason::Ingest,
                        batches,
                        batches.len() as int,
                    )
                };
            assert(all_appended(made, self.partitions@, batches, old(self).ng(), old(self).stored()));
        }
        (dropped, writes)
    }
}

} // verus!
