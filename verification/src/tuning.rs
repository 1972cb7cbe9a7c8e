//! Maintenance knobs, and counters of what maintenance did.
use vstd::prelude::*;
use crate::clustering::NEIGHBOR_PARTITIONS;

verus! {

/// Bit pattern of 0.25.
pub const GC_DEAD_RATIO_BITS: u64 = 0x3FD0_0000_0000_0000;

/// Bit pattern of 0.5.
pub const GC_GARBAGE_RATIO_BITS: u64 = 0x3FE0_0000_0000_0000;

/// Chunks beyond which a partition is rewritten even while merging is on.
pub const TIER_MERGE_CHUNK_BACKSTOP: usize = 24;

/// How maintenance runs.
#[derive(Clone, Copy, Debug, PartialEq, Eq, Structural)]
pub struct MaintenanceTuning {
    /// Neighbouring partitions of a changed one whose members are tested
    /// again.
    pub reassign_neighbors: usize,
    /// Even out the two parts of a split.
    pub balanced_split: bool,
    /// Split again after reassignment.
    pub resplit_after_reassign: bool,
    /// Leave out replicas that another replica makes redundant.
    pub replica_prune: bool,
    /// Split partitions that are too large.
    pub split_enabled: bool,
    /// Dissolve partitions that are too small.
    pub dissolve_enabled: bool,
    /// Test the members of changed partitions and of their neighbours again.
    pub reassign_enabled: bool,
    /// Cluster again from scratch when that is clearly better.
    pub rebootstrap_enabled: bool,
    /// Chunks beyond which a partition is rewritten.
    pub gc_max_chunks: usize,
    /// Rows that the memtable holds back across saves; 0 holds back none.
    pub staging_threshold: usize,
    /// Assign through a coarse index over the centroids.
    pub hierarchical_assign: bool,
    /// Merge trailing chunks in place of rewriting partitions.
    pub tier_merge_enabled: bool,
    /// Bit pattern of the share of unreferenced bytes beyond which a partition
    /// is rewritten.
    pub gc_garbage_ratio: u64,
    /// Bit pattern of the share of dead rows beyond which a partition is
    /// rewritten.
    pub gc_dead_ratio: u64,
    /// Leave maintenance out of saves.
    pub defer_maintenance: bool,
    /// Partitions that one pass may test again; 0 for any number.
    pub max_reassign_partitions: usize,
    /// Partitions that one flush may rewrite; 0 for any number.
    pub max_rewrites_per_flush: usize,
}

/// The tuning of a new index, and of one that was just opened.
pub open spec fn default_tuning() -> MaintenanceTuning {
    MaintenanceTuning {
        reassign_neighbors: NEIGHBOR_PARTITIONS,
        balanced_split: false,
        resplit_after_reassign: true,
        replica_prune: true,
        split_enabled: true,
        dissolve_enabled: true,
        reassign_enabled: true,
        rebootstrap_enabled: true,
        gc_max_chunks: 4,
        staging_threshold: 0,
        hierarchical_assign: false,
        tier_merge_enabled: true,
        gc_garbage_ratio: GC_GARBAGE_RATIO_BITS,
        gc_dead_ratio: GC_DEAD_RATIO_BITS,
        defer_maintenance: false,
        max_reassign_partitions: 0,
        max_rewrites_per_flush: 0,
    }
}

impl Default for MaintenanceTuning {
    fn default() -> (t: MaintenanceTuning)
        ensures
            t == default_tuning(),
    {
        MaintenanceTuning {
            reassign_neighbors: NEIGHBOR_PARTITIONS,
            balanced_split: false,
            resplit_after_reassign: true,
            replica_prune: true,
            split_enabled: true,
            dissolve_enabled: true,
            reassign_enabled: true,
            rebootstrap_enabled: true,
            gc_max_chunks: 4,
            staging_threshold: 0,
            hierarchical_assign: false,
            tier_merge_enabled: true,
            gc_garbage_ratio: GC_GARBAGE_RATIO_BITS,
            gc_dead_ratio: GC_DEAD_RATIO_BITS,
            defer_maintenance: false,
            max_reassign_partitions: 0,
            max_rewrites_per_flush: 0,
        }
    }
}

impl MaintenanceTuning {
    /// A save with `staged` rows in the memtable distributes them.
    pub open spec fn drains_at(self, staged: int) -> bool {
        self.staging_threshold == 0 || staged >= self.staging_threshold
    }

    /// Whether a save with `staged` rows in the memtable distributes them.
    pub fn drains(&self, staged: usize) -> (r: bool)
        ensures
            r == self.drains_at(staged as int),
    {
        self.staging_threshold == 0 || staged >= self.staging_threshold
    }

    /// Chunks beyond which a partition is rewritten whole.
    pub fn chunk_ceiling(&self) -> (r: usize)
        ensures
            r == if self.tier_merge_enabled && self.gc_max_chunks < TIER_MERGE_CHUNK_BACKSTOP {
                TIER_MERGE_CHUNK_BACKSTOP
            } else {
                self.gc_max_chunks
            },
    {
        if self.tier_merge_enabled && self.gc_max_chunks < TIER_MERGE_CHUNK_BACKSTOP {
            TIER_MERGE_CHUNK_BACKSTOP
        } else {
            self.gc_max_chunks
        }
    }

    /// Rewrites that one flush may do.
    pub fn rewrite_budget(&self) -> (r: usize)
        ensures
            r == if self.max_rewrites_per_flush == 0 {
                usize::MAX
            } else {
                self.max_rewrites_per_flush
            },
    {
        if self.max_rewrites_per_flush == 0 {
            usize::MAX
        } else {
            self.max_rewrites_per_flush
        }
    }
}

/// Why a chunk is written.
#[derive(Clone, Copy, PartialEq, Eq, Debug, Structural)]
pub enum WriteReason {
    /// New rows.
    Ingest,
    /// A partition rewritten whole.
    Compact,
    /// A part of a split.
    Split,
    /// Replicas of rows stored elsewhere.
    Replica,
    /// Rows of another index.
    Import,
    /// Trailing chunks merged.
    TierMerge,
}

/// What maintenance did over the life of an index. Counters wrap around; the
/// two numbers on assignment are of the latest flush alone.
#[derive(Clone, Copy, Debug)]
pub struct MaintenanceStats {
    pub splits_attempted: u64,
    pub splits_done: u64,
    pub splits_degenerate: u64,
    pub balance_fired: u64,
    pub dissolves: u64,
    pub reassign_passes: u64,
    pub reassign_partitions: u64,
    pub reassign_rows_examined: u64,
    pub reassign_rows_moved: u64,
    pub resplit_passes: u64,
    pub rebootstraps: u64,
    pub compactions: u64,
    pub run_merges: u64,
    pub bytes_ingest: u64,
    pub bytes_compact: u64,
    pub bytes_split: u64,
    pub bytes_replica: u64,
    pub bytes_import: u64,
    pub bytes_tier: u64,
    pub rows_ingest: u64,
    pub rows_compact: u64,
    pub rows_split: u64,
    pub rows_replica: u64,
    pub rows_tier: u64,
    pub chunks_ingest: u64,
    pub chunks_compact: u64,
    pub chunks_split: u64,
    pub chunks_replica: u64,
    pub chunks_tier: u64,
    pub tier_merges: u64,
    pub staged_saves: u64,
    pub coarse_rebuilds: u64,
    /// Rows that the latest flush assigned among several partitions.
    pub assign_rows: u64,
    /// Partitions that it had to choose from.
    pub assign_nlist: u64,
}

impl Default for MaintenanceStats {
    fn default() -> (s: MaintenanceStats)
        ensures
            s == zero_stats(),
    {
        MaintenanceStats {
            splits_attempted: 0,
            splits_done: 0,
            splits_degenerate: 0,
            balance_fired: 0,
            dissolves: 0,
            reassign_passes: 0,
            reassign_partitions: 0,
            reassign_rows_examined: 0,
            reassign_rows_moved: 0,
            resplit_passes: 0,
            rebootstraps: 0,
            compactions: 0,
            run_merges: 0,
            bytes_ingest: 0,
            bytes_compact: 0,
            bytes_split: 0,
            bytes_replica: 0,
            bytes_import: 0,
            bytes_tier: 0,
            rows_ingest: 0,
            rows_compact: 0,
            rows_split: 0,
            rows_replica: 0,
            rows_tier: 0,
            chunks_ingest: 0,
            chunks_compact: 0,
            chunks_split: 0,
            chunks_replica: 0,
            chunks_tier: 0,
            tier_merges: 0,
            staged_saves: 0,
            coarse_rebuilds: 0,
            assign_rows: 0,
            assign_nlist: 0,
        }
    }
}

/// Nothing done yet.
pub open spec fn zero_stats() -> MaintenanceStats {
    MaintenanceStats {
        splits_attempted: 0,
        splits_done: 0,
        splits_degenerate: 0,
        balance_fired: 0,
        dissolves: 0,
        reassign_passes: 0,
        reassign_partitions: 0,
        reassign_rows_examined: 0,
        reassign_rows_moved: 0,
        resplit_passes: 0,
        rebootstraps: 0,
        compactions: 0,
        run_merges: 0,
        bytes_ingest: 0,
        bytes_compact: 0,
        bytes_split: 0,
        bytes_replica: 0,
        bytes_import: 0,
        bytes_tier: 0,
        rows_ingest: 0,
        rows_compact: 0,
        rows_split: 0,
        rows_replica: 0,
        rows_tier: 0,
        chunks_ingest: 0,
        chunks_compact: 0,
        chunks_split: 0,
        chunks_replica: 0,
        chunks_tier: 0,
        tier_merges: 0,
        staged_saves: 0,
        coarse_rebuilds: 0,
        assign_rows: 0,
        assign_nlist: 0,
    }
}

/// The counters when a flush begins: nothing is assigned yet.
pub open spec fn flush_started(s: MaintenanceStats) -> MaintenanceStats {
    MaintenanceStats { assign_rows: 0, assign_nlist: 0, ..s }
}

/// A counter after `n` more.
pub open spec fn counted(c: u64, n: int) -> u64 {
    ((c + n) % 0x1_0000_0000_0000_0000) as u64
}

/// An event that only the counters record.
#[derive(Clone, Copy, PartialEq, Eq, Debug, Structural)]
pub enum Event {
    /// Partitions are split again after reassignment.
    Resplit,
    /// All partitions give way to better ones.
    Rebootstrap,
    /// The coarse index over the centroids is built anew.
    CoarseRebuild,
}

/// `c` counted on by `n`.
pub fn count_on(c: u64, n: u64) -> (r: u64)
    ensures
        r == counted(c, n as int),
{
    c.wrapping_add(n)
}

/// The counters after a chunk of `rows` rows and `bytes` bytes.
#[verifier::opaque]
pub open spec fn after_write(s: MaintenanceStats, reason: WriteReason, rows: u64, bytes: u64) -> MaintenanceStats {
    match reason {
        WriteReason::Ingest => MaintenanceStats {
            bytes_ingest: counted(s.bytes_ingest, bytes as int),
            rows_ingest: counted(s.rows_ingest, rows as int),
            chunks_ingest: counted(s.chunks_ingest, 1),
            ..s
        },
        WriteReason::Compact => MaintenanceStats {
            bytes_compact: counted(s.bytes_compact, bytes as int),
            rows_compact: counted(s.rows_compact, rows as int),
            chunks_compact: counted(s.chunks_compact, 1),
            ..s
        },
        WriteReason::Split => MaintenanceStats {
            bytes_split: counted(s.bytes_split, bytes as int),
            rows_split: counted(s.rows_split, rows as int),
            chunks_split: counted(s.chunks_split, 1),
            ..s
        },
        WriteReason::Replica => MaintenanceStats {
            bytes_replica: counted(s.bytes_replica, bytes as int),
            rows_replica: counted(s.rows_replica, rows as int),
            chunks_replica: counted(s.chunks_replica, 1),
            ..s
        },
        WriteReason::TierMerge => MaintenanceStats {
            bytes_tier: counted(s.bytes_tier, bytes as int),
            rows_tier: counted(s.rows_tier, rows as int),
            chunks_tier: counted(s.chunks_tier, 1),
            ..s
        },
        WriteReason::Import => MaintenanceStats { bytes_import: counted(s.bytes_import, bytes as int), ..s },
    }
}

impl MaintenanceStats {
    /// Forgets the assignment of the flush before.
    pub fn start_flush(&mut self)
        ensures
            *final(self) == flush_started(*old(self)),
    {
        self.assign_rows = 0;
        self.assign_nlist = 0;
    }

    /// Notes that `rows` rows were assigned among `nlist` partitions.
    pub fn record_assignment(&mut self, rows: usize, nlist: usize)
        ensures
            *final(self) == (MaintenanceStats { assign_rows: rows as u64, assign_nlist: nlist as u64, ..*old(self) }),
    {
        self.assign_rows = rows as u64;
        self.assign_nlist = nlist as u64;
    }

    /// Counts an event.
    pub fn record_event(&mut self, event: Event)
        ensures
            *final(self) == match event {
                Event::Resplit => (MaintenanceStats {
                    resplit_passes: counted(old(self).resplit_passes, 1),
                    ..*old(self)
                }),
                Event::Rebootstrap => (MaintenanceStats {
                    rebootstraps: counted(old(self).rebootstraps, 1),
                    ..*old(self)
                }),
                Event::CoarseRebuild => (MaintenanceStats {
                    coarse_rebuilds: counted(old(self).coarse_rebuilds, 1),
                    ..*old(self)
                }),
            },
    {
        match event {
            Event::Resplit => {
                self.resplit_passes = count_on(self.resplit_passes, 1);
            },
            Event::Rebootstrap => {
                self.rebootstraps = count_on(self.rebootstraps, 1);
            },
            Event::CoarseRebuild => {
                self.coarse_rebuilds = count_on(self.coarse_rebuilds, 1);
            },
        }
    }

    /// Counts a chunk of `rows` rows and `bytes` bytes.
    pub fn record_write(&mut self, reason: WriteReason, rows: u64, bytes: u64)
        ensures
            *final(self) == after_write(*old(self), reason, rows, bytes),
    {
        proof {
            reveal(after_write);
        }
        match reason {
            WriteReason::Ingest => {
                self.bytes_ingest = count_on(self.bytes_ingest, bytes);
                self.rows_ingest = count_on(self.rows_ingest, rows);
                self.chunks_ingest = count_on(self.chunks_ingest, 1);
            },
            WriteReason::Compact => {
                self.bytes_compact = count_on(self.bytes_compact, bytes);
                self.rows_compact = count_on(self.rows_compact, rows);
                self.chunks_compact = count_on(self.chunks_compact, 1);
            },
            WriteReason::Split => {
                self.bytes_split = count_on(self.bytes_split, bytes);
                self.rows_split = count_on(self.rows_split, rows);
                self.chunks_split = count_on(self.chunks_split, 1);
            },
            WriteReason::Replica => {
                self.bytes_replica = count_on(self.bytes_replica, bytes);
                self.rows_replica = count_on(self.rows_replica, rows);
                self.chunks_replica = count_on(self.chunks_replica, 1);
            },
            WriteReason::TierMerge => {
                self.bytes_tier = count_on(self.bytes_tier, bytes);
                self.rows_tier = count_on(self.rows_tier, rows);
                self.chunks_tier = count_on(self.chunks_tier, 1);
            },
            WriteReason::Import => {
                self.bytes_import = count_on(self.bytes_import, bytes);
            },
        }
    }
}

} // verus!
