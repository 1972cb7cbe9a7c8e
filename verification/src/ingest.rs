//! Distributing rows over partitions, and opening and sealing a flush.
use vstd::prelude::*;
use crate::batch::{sent_to, shaped, spread_to, RowBatch};
use crate::chunk::chunk_bytes;
use crate::copies::{accounted, generations, kept_or_made, lemma_all_kept, lemma_kept_or_made, lemma_one_made, tables, tidied, tier_merge_runs, MAX_RUNS};
use crate::delta::Delta;
use crate::flush::{
    appended, has_room, memtable_rows, new_entries, write_of, ChunkWrite,
};
use crate::fresh::{below, FreshIndex};
use crate::pack::Layout;
use crate::partition::PartitionState;
use crate::restructure::just_made;
use crate::runs::{by_id, RunEntry};
use crate::tuning::{after_write, count_on, counted, flush_started, MaintenanceStats, WriteReason};

verus! {

/// Every partition can take its batch.
pub open spec fn all_have_room(parts: Seq<PartitionState>, batches: Seq<RowBatch>, ng: int, width: int) -> bool {
    &&& batches.len() == parts.len()
    &&& forall|k: int|
        0 <= k < parts.len() ==> has_room(#[trigger] parts[k], ng, width, batches[k]@.len() as int)
}

/// Every partition got its batch.
pub open spec fn all_appended(
    a: Seq<PartitionState>,
    b: Seq<PartitionState>,
    batches: Seq<RowBatch>,
    ng: int,
    width: int,
) -> bool {
    &&& b.len() == a.len()
    &&& forall|k: int| 0 <= k < a.len() ==> appended(#[trigger] a[k], b[k], batches[k]@, ng, width)
}

/// The entries of the batches before `k`.
pub open spec fn entries_upto(parts: Seq<PartitionState>, batches: Seq<RowBatch>, k: int) -> Seq<RunEntry>
    decreases k,
{
    if k <= 0 {
        Seq::empty()
    } else {
        entries_upto(parts, batches, k - 1) + new_entries(
            batches[k - 1]@,
            parts[k - 1].partition_id,
            parts[k - 1].generation,
            parts[k - 1].n_rows as int,
        )
    }
}

/// The positions before `k` with a batch that is not empty.
pub open spec fn filled_upto(batches: Seq<RowBatch>, k: int) -> Seq<int>
    decreases k,
{
    if k <= 0 {
        Seq::empty()
    } else if batches[k - 1]@.len() > 0 {
        filled_upto(batches, k - 1).push(k - 1)
    } else {
        filled_upto(batches, k - 1)
    }
}

/// One write for each batch that is not empty, in order.
pub open spec fn writes_of(
    writes: Seq<ChunkWrite>,
    flavor: Layout,
    parts: Seq<PartitionState>,
    batches: Seq<RowBatch>,
    k: int,
) -> bool {
    &&& writes.len() == filled_upto(batches, k).len()
    &&& forall|j: int|
        0 <= j < writes.len() ==> write_of(
            #[trigger] writes[j],
            flavor,
            parts[filled_upto(batches, k)[j]],
            batches[filled_upto(batches, k)[j]],
        )
}

/// The counters after the first `n` batches are written.
pub open spec fn stats_upto(
    s: MaintenanceStats,
    flavor: Layout,
    reason: WriteReason,
    batches: Seq<RowBatch>,
    n: int,
) -> MaintenanceStats
    decreases n,
{
    if n <= 0 {
        s
    } else {
        let before = stats_upto(s, flavor, reason, batches, n - 1);
        let b = batches[n - 1];
        if b@.len() == 0 {
            before
        } else {
            after_write(before, reason, b@.len() as u64, chunk_bytes(flavor, b).len() as u64)
        }
    }
}

/// Partitions from which on assignment goes through a coarse index.
pub const HIERARCHY_MIN_NLIST: usize = 256;

/// How the rows of a flush find their partitions.
#[derive(Clone, Copy, PartialEq, Eq, Debug, Structural)]
pub enum Routing {
    /// All go to the first one.
    First,
    /// Each goes to the nearest centroid.
    Nearest,
    /// Each goes to the nearest centroid in the nearest groups of centroids.
    Coarse,
}

impl FreshIndex {
    /// One partition takes all rows. Among several the nearest takes a row,
    /// found through a coarse index where there are many and rows have no
    /// replicas.
    pub open spec fn route(self) -> Routing {
        let nlist = self.partitions@.len();
        if !self.clustered || nlist <= 1 {
            Routing::First
        } else if self.replica_epsilon is None && self.tuning.hierarchical_assign && nlist >= HIERARCHY_MIN_NLIST {
            Routing::Coarse
        } else {
            Routing::Nearest
        }
    }
}

impl FreshIndex {
    /// Appends one batch to each partition.
    pub fn append_batches(
        &mut self,
        batches: &Vec<RowBatch>,
        entries: &mut Vec<RunEntry>,
        reason: WriteReason,
    ) -> (writes: Vec<ChunkWrite>)
        requires
            old(self).wf(),
            old(self).memtable.dim is Some,
            all_have_room(old(self).partitions@, batches@, old(self).ng(), old(self).stored()),
            forall|k: int|
                0 <= k < batches@.len() ==> (#[trigger] batches@[k]).wf() && batches@[k].groups == old(
                    self,
                ).ng() && batches@[k].width == old(self).stored(),
        ensures
            final(self).wf(),
            all_appended(
                old(self).partitions@,
                final(self).partitions@,
                batches@,
                old(self).ng(),
                old(self).stored(),
            ),
            final(entries)@ == old(entries)@ + entries_upto(
                old(self).partitions@,
                batches@,
                batches@.len() as int,
            ),
            writes_of(
                writes@,
                old(self).flavor,
                old(self).partitions@,
                batches@,
                batches@.len() as int,
            ),
            *final(self) == (FreshIndex {
                partitions: final(self).partitions,
                stats: stats_upto(
                    old(self).stats,
                    old(self).flavor,
                    reason,
                    batches@,
                    batches@.len() as int,
                ),
                ..*old(self)
            }),
    {
        let ghost start = self.partitions@;
        let ghost first = entries@;
        let ghost ng = self.ng();
        let ghost width = self.stored();
        let mut writes: Vec<ChunkWrite> = Vec::new();
        let mut k: usize = 0;
        let n: usize = batches.len();
        assert(entries@ =~= first + entries_upto(start, batches@, 0));
        while k < n
            invariant
                self.wf(),
                self.memtable.dim is Some,
                n == batches@.len(),
                n == start.len(),
                k <= n,
                start == old(self).partitions@,
                ng == old(self).ng(),
                width == old(self).stored(),
                *self == (FreshIndex { partitions: self.partitions, stats: self.stats, ..*old(self) }),
                all_have_room(start, batches@, ng, width),
                forall|j: int|
                    0 <= j < batches@.len() ==> (#[trigger] batches@[j]).wf() && batches@[j].groups == ng
                        && batches@[j].width == width,
                self.partitions@.len() == n,
                forall|j: int|
                    0 <= j < k ==> appended(#[trigger] start[j], self.partitions@[j], batches@[j]@, ng, width),
                forall|j: int| k <= j < n ==> #[trigger] self.partitions@[j] == start[j],
                entries@ == first + entries_upto(start, batches@, k as int),
                writes_of(writes@, old(self).flavor, start, batches@, k as int),
                self.stats == stats_upto(old(self).stats, old(self).flavor, reason, batches@, k as int),
            decreases n - k,
        {
            assert(batches@[k as int].wf());
            assert(self.partitions@[k as int] == start[k as int]);
            let ghost done = writes@;
            let ghost now = self.partitions@;
            match self.append_chunk(k, &batches[k], entries, reason) {
                Some(w) => {
                    writes.push(w);
                },
                None => {},
            }
            proof {
                assert(entries@ =~= first + entries_upto(start, batches@, k + 1));
                let was = filled_upto(batches@, k as int);
                let is = filled_upto(batches@, k + 1);
                assert forall|j: int| 0 <= j < writes@.len() implies write_of(
                    #[trigger] writes@[j],
                    old(self).flavor,
                    start[is[j]],
                    batches@[is[j]],
                ) by {
                    if j < done.len() {
                        assert(writes@[j] == done[j]);
                        assert(is[j] == was[j]);
                    }
                }
                assert forall|j: int| 0 <= j < k + 1 implies appended(
                    #[trigger] start[j],
                    self.partitions@[j],
                    batches@[j]@,
                    ng,
                    width,
                ) by {
                    if j < k {
                        assert(self.partitions@[j] == now[j]);
                    }
                }
            }
            k = k + 1;
        }
        writes
    }

    /// Appends rows that each go to one partition, as primaries.
    pub fn append_batch_single(
        &mut self,
        batch: &RowBatch,
        places: &[u32],
        entries: &mut Vec<RunEntry>,
    ) -> (writes: Vec<ChunkWrite>)
        requires
            old(self).wf(),
            old(self).memtable.dim is Some,
            batch.wf(),
            batch.groups == old(self).ng(),
            batch.width == old(self).stored(),
            places@.len() >= batch@.len(),
            forall|i: int| 0 <= i < batch@.len() ==> #[trigger] places@[i] < old(self).partitions@.len(),
            forall|k: int|
                0 <= k < old(self).partitions@.len() ==> has_room(
                    #[trigger] old(self).partitions@[k],
                    old(self).ng(),
                    old(self).stored(),
                    sent_to(batch@, places@, k).len() as int,
                ),
        ensures
            final(self).wf(),
            exists|batches: Seq<RowBatch>|
                #![trigger shaped(batches, batch.groups, batch.width)]
                {
                    &&& shaped(batches, batch.groups, batch.width)
                    &&& batches.len() == old(self).partitions@.len()
                    &&& forall|k: int|
                        0 <= k < batches.len() ==> (#[trigger] batches[k])@ == sent_to(batch@, places@, k)
                    &&& all_appended(
                        old(self).partitions@,
                        final(self).partitions@,
                        batches,
                        old(self).ng(),
                        old(self).stored(),
                    )
                    &&& final(entries)@ == old(entries)@ + entries_upto(
                        old(self).partitions@,
                        batches,
                        batches.len() as int,
                    )
                    &&& writes_of(
                        writes@,
                        old(self).flavor,
                        old(self).partitions@,
                        batches,
                        batches.len() as int,
                    )
                    &&& final(self).stats == stats_upto(
                        old(self).stats,
                        old(self).flavor,
                        WriteReason::Ingest,
                        batches,
                        batches.len() as int,
                    )
                },
            *final(self) == (FreshIndex {
                partitions: final(self).partitions,
                stats: final(self).stats,
                ..*old(self)
            }),
    {
        let n: usize = self.partitions.len();
        let batches: Vec<RowBatch> = batch.distribute(places, n);
        proof {
            assert forall|k: int| 0 <= k < n implies has_room(
                #[trigger] self.partitions@[k],
                self.ng(),
                self.stored(),
                batches@[k]@.len() as int,
            ) by {
                assert(batches@[k]@ == sent_to(batch@, places@, k));
            }
        }
        self.append_batches(&batches, entries, WriteReason::Ingest)
    }

    /// Appends copies of rows: the first place of a row's list takes the
    /// primary, the others take replicas.
    pub fn append_batch(
        &mut self,
        batch: &RowBatch,
        lists: &Vec<Vec<u32>>,
        entries: &mut Vec<RunEntry>,
    ) -> (writes: Vec<ChunkWrite>)
        requires
            old(self).wf(),
            old(self).memtable.dim is Some,
            batch.wf(),
            batch.groups == old(self).ng(),
            batch.width == old(self).stored(),
            lists@.len() >= batch@.len(),
            forall|i: int, d: int|
                0 <= i < batch@.len() && 0 <= d < lists@[i]@.len() ==> #[trigger] lists@[i]@[d] < old(
                    self,
                ).partitions@.len(),
            forall|k: int|
                0 <= k < old(self).partitions@.len() ==> has_room(
                    #[trigger] old(self).partitions@[k],
                    old(self).ng(),
                    old(self).stored(),
                    spread_to(batch@, lists@, k).len() as int,
                ),
        ensures
            final(self).wf(),
            exists|batches: Seq<RowBatch>|
                #![trigger shaped(batches, batch.groups, batch.width)]
                {
                    &&& shaped(batches, batch.groups, batch.width)
                    &&& batches.len() == old(self).partitions@.len()
                    &&& forall|k: int|
                        0 <= k < batches.len() ==> (#[trigger] batches[k])@ == spread_to(batch@, lists@, k)
                    &&& all_appended(
                        old(self).partitions@,
                        final(self).partitions@,
                        batches,
                        old(self).ng(),
                        old(self).stored(),
                    )
                    &&& final(entries)@ == old(entries)@ + entries_upto(
                        old(self).partitions@,
                        batches,
                        batches.len() as int,
                    )
                    &&& writes_of(
                        writes@,
                        old(self).flavor,
                        old(self).partitions@,
                        batches,
                        batches.len() as int,
                    )
                    &&& final(self).stats == stats_upto(
                        old(self).stats,
                        old(self).flavor,
                        WriteReason::Ingest,
                        batches,
                        batches.len() as int,
                    )
                },
            *final(self) == (FreshIndex {
                partitions: final(self).partitions,
                stats: final(self).stats,
                ..*old(self)
            }),
    {
        let n: usize = self.partitions.len();
        let batches: Vec<RowBatch> = batch.distribute_copies(lists, n);
        proof {
            assert forall|k: int| 0 <= k < n implies has_room(
                #[trigger] self.partitions@[k],
                self.ng(),
                self.stored(),
                batches@[k]@.len() as int,
            ) by {
                assert(batches@[k]@ == spread_to(batch@, lists@, k));
            }
        }
        self.append_batches(&batches, entries, WriteReason::Ingest)
    }

    /// How the rows of a flush find their partitions.
    pub fn routing(&self) -> (r: Routing)
        ensures
            r == self.route(),
    {
        let nlist: usize = self.partitions.len();
        if !self.clustered || nlist <= 1 {
            Routing::First
        } else if self.replica_epsilon.is_none() && self.tuning.hierarchical_assign && nlist >= HIERARCHY_MIN_NLIST {
            Routing::Coarse
        } else {
            Routing::Nearest
        }
    }

    /// A flush of an index that has no dimensionality yet: only the manifest
    /// and the log start anew.
    pub fn flush_bare(&mut self)
        requires
            old(self).wf(),
            old(self).memtable.dim is None,
            old(self).epoch < u64::MAX,
        ensures
            final(self).wf(),
            *final(self) == (FreshIndex { epoch: (old(self).epoch + 1) as u64, ..*old(self) }),
    {
        self.epoch = self.epoch + 1;
    }

    /// Opens a flush: commits the calibration and, unless rows are held back,
    /// hands out the memtable's rows, sees to it that there is a partition for
    /// them, and counts them as churn.
    pub fn begin_flush(&mut self) -> (r: Option<RowBatch>)
        requires
            old(self).wf(),
            old(self).memtable.dim is Some,
            old(self).next_partition_id < u32::MAX,
            old(self).churn_since_check + old(self).memtable.ids@.len() <= u64::MAX,
        ensures
            final(self).wf(),
            final(self).tqplus_shift@ == old(self).shift_to_commit(),
            final(self).tqplus_scale@ == old(self).scale_to_commit(),
            final(self).tqplus_shift@.len() == old(self).memtable.width(),
            r is Some <==> old(self).tuning.drains_at(old(self).memtable.ids@.len() as int),
            match r {
                None => *final(self) == (FreshIndex {
                    tqplus_shift: final(self).tqplus_shift,
                    tqplus_scale: final(self).tqplus_scale,
                    stats: MaintenanceStats {
                        staged_saves: counted(old(self).stats.staged_saves, 1),
                        ..flush_started(old(self).stats)
                    },
                    ..*old(self)
                }),
                Some(b) => {
                    &&& b.wf()
                    &&& b.groups == final(self).ng()
                    &&& b.width == final(self).stored()
                    &&& b@ == memtable_rows(
                        old(self).memtable,
                        old(self).bit_width as int,
                        old(self).store_vectors,
                    )
                    &&& old(self).partitions@.len() > 0 || b@.len() == 0 ==> *final(self) == (FreshIndex {
                        tqplus_shift: final(self).tqplus_shift,
                        tqplus_scale: final(self).tqplus_scale,
                        churn_since_check: (old(self).churn_since_check + b@.len()) as u64,
                        stats: flush_started(old(self).stats),
                        ..*old(self)
                    })
                    &&& old(self).partitions@.len() == 0 && b@.len() > 0 ==> {
                        &&& final(self).partitions@.len() == 1
                        &&& just_made(final(self).partitions@[0], old(self).next_partition_id)
                        &&& final(self).centroids@ == Seq::new(
                            old(self).memtable.width() as nat,
                            |i: int| 0u32,
                        )
                        &&& *final(self) == (FreshIndex {
                            tqplus_shift: final(self).tqplus_shift,
                            tqplus_scale: final(self).tqplus_scale,
                            partitions: final(self).partitions,
                            centroids: final(self).centroids,
                            centroids_dirty: true,
                            next_partition_id: (old(self).next_partition_id + 1) as u32,
                            churn_since_check: (old(self).churn_since_check + b@.len()) as u64,
                            stats: flush_started(old(self).stats),
                            ..*old(self)
                        })
                    }
                },
            },
    {
        self.commit_calibration();
        self.stats.start_flush();
        if !self.tuning.drains(self.memtable.ids.len()) {
            self.stats.staged_saves = count_on(self.stats.staged_saves, 1);
            return None;
        }
        let batch: RowBatch = self.drain_memtable();
        if batch.len() > 0 && self.partitions.len() == 0 {
            let dim: usize = self.dim();
            let zero: Vec<u32> = crate::flush::filled(dim, 0);
            proof {
                assert(0 * dim == 0) by (nonlinear_arith);
                assert(self.centroids@ + zero@ =~= Seq::new(dim as nat, |i: int| 0u32));
            }
            self.create_partition(zero.as_slice());
        }
        self.churn_since_check = self.churn_since_check + batch.len() as u64;
        Some(batch)
    }

    /// Seals a flush: the collected entries become a run, runs are merged if
    /// there are too many, and if the memtable was distributed the epoch
    /// advances and an empty memtable takes over. Returns the generations of
    /// the runs that are no longer in use.
    pub fn seal_flush(&mut self, entries: &Vec<RunEntry>, drained: bool) -> (dropped: Vec<u64>)
        requires
            old(self).wf(),
            old(self).memtable.dim is Some,
            old(self).tqplus_shift@.len() == old(self).memtable.width(),
            old(self).next_run_generation + old(self).runs@.len() + 2 <= u64::MAX,
            old(self).epoch < u64::MAX,
        ensures
            final(self).wf(),
            final(self).epoch == old(self).epoch + (if drained {
                1int
            } else {
                0
            }),
            !drained ==> final(self).memtable == old(self).memtable,
            drained ==> {
                &&& final(self).memtable.ids@.len() == 0
                &&& final(self).memtable.dim == old(self).memtable.dim
                &&& final(self).memtable.tqplus_shift@ == old(self).tqplus_shift@
                &&& final(self).memtable.tqplus_scale@ == old(self).tqplus_scale@
            },
            tables(final(self).runs@) == runs_after(
                old(self).partitions@,
                tables(old(self).runs@),
                entries@,
            ),
            kept_or_made(old(self).runs@, final(self).runs@),
            accounted(
                generations(old(self).runs@),
                Seq::empty(),
                generations(final(self).runs@),
                dropped@,
                old(self).next_run_generation,
                final(self).next_run_generation - old(self).next_run_generation,
            ),
            final(self).partitions == old(self).partitions,
            *final(self) == (FreshIndex {
                runs: final(self).runs,
                next_run_generation: final(self).next_run_generation,
                stats: MaintenanceStats {
                    run_merges: counted(
                        old(self).stats.run_merges,
                        final(self).next_run_generation - old(self).next_run_generation - (if entries@.len()
                            > 0 {
                            1int
                        } else {
                            0
                        }),
                    ),
                    ..old(self).stats
                },
                epoch: final(self).epoch,
                memtable: final(self).memtable,
                ..*old(self)
            }),
    {
        let ghost gens = generations(self.runs@);
        let ghost first = self.next_run_generation;
        proof {
            lemma_all_kept(self.runs@);
            lemma_nothing_made(gens, first);
        }
        if entries.len() > 0 {
            self.write_run(entries);
            proof {
                lemma_accounted_push(gens, first);
                assert(generations(self.runs@) =~= gens.push(first));
                lemma_one_made(old(self).runs@, self.runs@);
            }
        }
        let ghost had = self.runs@;
        let ghost made = self.next_run_generation - first;
        let ghost then = self.next_run_generation;
        let dropped: Vec<u64> = self.tidy_runs();
        proof {
            lemma_kept_or_made(old(self).runs@, had, self.runs@);
            lemma_accounted_chain(
                gens,
                generations(had),
                generations(self.runs@),
                dropped@,
                first,
                made,
                self.next_run_generation - then,
            );
        }
        if drained {
            self.start_memtable();
        }
        dropped
    }

    /// Merges runs if there are too many. Returns the generations of those that
    /// are no longer in use.
    fn tidy_runs(&mut self) -> (dropped: Vec<u64>)
        requires
            old(self).wf(),
            old(self).next_run_generation + old(self).runs@.len() <= u64::MAX,
        ensures
            final(self).wf(),
            tables(final(self).runs@) == if old(self).runs@.len() > MAX_RUNS {
                tidied(old(self).partitions@, tables(old(self).runs@))
            } else {
                tables(old(self).runs@)
            },
            kept_or_made(old(self).runs@, final(self).runs@),
            old(self).next_run_generation <= final(self).next_run_generation,
            accounted(
                generations(old(self).runs@),
                Seq::empty(),
                generations(final(self).runs@),
                dropped@,
                old(self).next_run_generation,
                final(self).next_run_generation - old(self).next_run_generation,
            ),
            *final(self) == (FreshIndex {
                runs: final(self).runs,
                next_run_generation: final(self).next_run_generation,
                stats: MaintenanceStats {
                    run_merges: counted(
                        old(self).stats.run_merges,
                        final(self).next_run_generation - old(self).next_run_generation,
                    ),
                    ..old(self).stats
                },
                ..*old(self)
            }),
    {
        let mut dropped: Vec<u64> = Vec::new();
        let ghost gens = generations(self.runs@);
        let ghost first = self.next_run_generation;
        proof {
            lemma_all_kept(self.runs@);
            lemma_nothing_made(gens, first);
            assert(dropped@ =~= Seq::<u64>::empty());
        }
        if self.runs.len() > MAX_RUNS {
            let mut next: u64 = self.next_run_generation;
            let merges: u64 = tier_merge_runs(&self.partitions, &mut self.runs, &mut next, &mut dropped);
            proof {
                assert(below(generations(self.runs@), next)) by {
                    lemma_below(gens, first, generations(self.runs@), dropped@, next);
                }
            }
            self.next_run_generation = next;
            self.stats.run_merges = count_on(self.stats.run_merges, merges);
        }
        dropped
    }

    /// An empty memtable takes over, and the epoch advances.
    fn start_memtable(&mut self)
        requires
            old(self).wf(),
            old(self).memtable.dim is Some,
            old(self).tqplus_shift@.len() == old(self).memtable.width(),
            old(self).epoch < u64::MAX,
        ensures
            final(self).wf(),
            final(self).memtable.ids@.len() == 0,
            final(self).memtable.dim == old(self).memtable.dim,
            final(self).memtable.tqplus_shift@ == old(self).tqplus_shift@,
            final(self).memtable.tqplus_scale@ == old(self).tqplus_scale@,
            *final(self) == (FreshIndex {
                epoch: (old(self).epoch + 1) as u64,
                memtable: final(self).memtable,
                ..*old(self)
            }),
    {
        self.epoch = self.epoch + 1;
        let mut shift: Vec<u32> = Vec::new();
        shift.extend_from_slice(self.tqplus_shift.as_slice());
        let mut scale: Vec<u32> = Vec::new();
        scale.extend_from_slice(self.tqplus_scale.as_slice());
        assert(shift@ =~= self.tqplus_shift@);
        assert(scale@ =~= self.tqplus_scale@);
        self.memtable = Delta::empty(self.memtable.dim, shift, scale);
    }
}

/// What a flush makes of the run tables.
pub open spec fn runs_after(
    parts: Seq<PartitionState>,
    all: Seq<Seq<RunEntry>>,
    entries: Seq<RunEntry>,
) -> Seq<Seq<RunEntry>> {
    let grown = if entries.len() > 0 {
        all.push(by_id(entries))
    } else {
        all
    };
    if grown.len() > MAX_RUNS {
        tidied(parts, grown)
    } else {
        grown
    }
}

proof fn lemma_nothing_made(gens: Seq<u64>, first: u64)
    ensures
        accounted(gens, Seq::empty(), gens, Seq::empty(), first, 0),
{
    let none = crate::copies::fresh_generations(first, 0);
    assert(none =~= Seq::<u64>::empty());
    none.to_multiset_ensures();
    assert(gens.to_multiset().add(Seq::<u64>::empty().to_multiset()) =~= gens.to_multiset().add(
        Seq::<u64>::empty().to_multiset(),
    ).add(none.to_multiset()));
}

proof fn lemma_accounted_push(gens: Seq<u64>, first: u64)
    ensures
        accounted(gens, Seq::empty(), gens.push(first), Seq::empty(), first, 1),
{
    let one = seq![first];
    assert(crate::copies::fresh_generations(first, 1) =~= one);
    assert(gens.push(first) =~= gens + one);
    vstd::seq_lib::lemma_multiset_commutative(gens, one);
    assert((gens + one).to_multiset().add(Seq::<u64>::empty().to_multiset()) =~= gens.to_multiset().add(
        Seq::<u64>::empty().to_multiset(),
    ).add(one.to_multiset()));
}

proof fn lemma_accounted_chain(
    gens: Seq<u64>,
    mid: Seq<u64>,
    now: Seq<u64>,
    dropped: Seq<u64>,
    first: u64,
    made: int,
    more: int,
)
    requires
        0 <= made,
        0 <= more,
        first + made + more <= u64::MAX,
        accounted(gens, Seq::empty(), mid, Seq::empty(), first, made),
        accounted(mid, Seq::empty(), now, dropped, (first + made) as u64, more),
    ensures
        accounted(gens, Seq::empty(), now, dropped, first, made + more),
{
    let a = crate::copies::fresh_generations(first, made);
    let b = crate::copies::fresh_generations((first + made) as u64, more);
    assert(crate::copies::fresh_generations(first, made + more) =~= a + b);
    vstd::seq_lib::lemma_multiset_commutative(a, b);
    assert(now.to_multiset().add(dropped.to_multiset()) =~= gens.to_multiset().add(
        Seq::<u64>::empty().to_multiset(),
    ).add((a + b).to_multiset()));
}

/// Generations in use stay below the next one.
proof fn lemma_below(mid: Seq<u64>, first: u64, now: Seq<u64>, dropped: Seq<u64>, next: u64)
    requires
        below(mid, first),
        first <= next,
        accounted(mid, Seq::empty(), now, dropped, first, next - first),
    ensures
        below(now, next),
{
    let made = crate::copies::fresh_generations(first, next - first);
    assert forall|k: int| 0 <= k < now.len() implies #[trigger] now[k] < next by {
        let x = now[k];
        now.to_multiset_ensures();
        mid.to_multiset_ensures();
        made.to_multiset_ensures();
        Seq::<u64>::empty().to_multiset_ensures();
        assert(now.contains(x));
        assert(now.to_multiset().count(x) > 0);
        let sum = mid.to_multiset().add(Seq::<u64>::empty().to_multiset()).add(made.to_multiset());
        assert(now.to_multiset().add(dropped.to_multiset()).count(x) > 0);
        assert(sum.count(x) > 0);
        if mid.to_multiset().count(x) > 0 {
            assert(mid.contains(x));
        } else {
            assert(made.to_multiset().count(x) > 0);
            assert(made.contains(x));
        }
    }
}

} // verus!
