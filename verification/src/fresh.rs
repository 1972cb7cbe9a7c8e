//! An index that is updated in place: a memtable of recent rows, partitions of
//! appended chunks, and runs that find the copies of an id.
use vstd::prelude::*;
use crate::clustering::{MERGE_DIVISOR, MIN_PARTITIONS, SPLIT_FACTOR};
use crate::chunk::stored_width;
use crate::copies::{all_runs, copies_of, generations, live_copies, CopyLocation, Run};
use crate::delta::Delta;
use crate::disk::{construct_error, ConstructError};
use crate::pack::{groups, Layout};
use crate::partition::PartitionState;
use crate::tuning::{default_tuning, zero_stats, MaintenanceStats, MaintenanceTuning};
use crate::tvdm::finite_positive;

verus! {

/// An incrementally updated index. Segment files stand outside; what reads
/// one takes its bytes.
pub struct FreshIndex {
    /// Order of the codes inside a block.
    pub flavor: Layout,
    pub bit_width: usize,
    pub store_vectors: bool,
    pub clustered: bool,
    /// Bit patterns of the committed calibration, empty before it is
    /// committed.
    pub tqplus_shift: Vec<u32>,
    pub tqplus_scale: Vec<u32>,
    /// Bit patterns, `dim` per partition.
    pub centroids: Vec<u32>,
    pub partitions: Vec<PartitionState>,
    /// Oldest first.
    pub runs: Vec<Run>,
    pub memtable: Delta,
    /// Bit pattern.
    pub replica_epsilon: Option<u32>,
    pub partition_target: Option<u32>,
    pub tuning: MaintenanceTuning,
    pub stats: MaintenanceStats,
    pub epoch: u64,
    pub centroids_generation: u64,
    /// The centroids differ from the file that the manifest names.
    pub centroids_dirty: bool,
    pub next_partition_id: u32,
    pub next_run_generation: u64,
    /// Rows added and removed since clustering was last put to the test.
    pub churn_since_check: u64,
}

/// Every partition is in order.
pub open spec fn partitions_ok(parts: Seq<PartitionState>, ng: int, width: int) -> bool {
    forall|k: int| 0 <= k < parts.len() ==> (#[trigger] parts[k]).wf() && parts[k].placed(ng, width)
}

/// Partition ids are distinct and below `next`.
pub open spec fn ids_ok(parts: Seq<PartitionState>, next: u32) -> bool {
    &&& forall|k: int| 0 <= k < parts.len() ==> (#[trigger] parts[k]).partition_id < next
    &&& forall|i: int, j: int|
        0 <= i < j < parts.len() ==> (#[trigger] parts[i]).partition_id != (
        #[trigger] parts[j]).partition_id
}

/// Partitions that were made before there was a dimensionality: they hold
/// nothing, and any dimensionality can follow.
pub open spec fn bare(parts: Seq<PartitionState>) -> bool {
    &&& parts.len() * 0xFFFF_FFFF <= usize::MAX
    &&& forall|k: int| 0 <= k < parts.len() ==> (#[trigger] parts[k]).chunks@.len() == 0
}

/// Generations are below `next`.
pub open spec fn below(s: Seq<u64>, next: u64) -> bool {
    forall|k: int| 0 <= k < s.len() ==> #[trigger] s[k] < next
}

/// The ids of the partitions' live rows.
pub open spec fn base_ids(parts: Seq<PartitionState>, runs: Seq<Run>) -> Set<u64> {
    Set::new(|id: u64| copies_of(parts, runs, id).len() > 0)
}

/// Live primaries of the partitions before `k`.
pub open spec fn primaries_before(parts: Seq<PartitionState>, k: int) -> int
    decreases k,
{
    if k <= 0 {
        0
    } else {
        primaries_before(parts, k - 1) + parts[k - 1].live_primary
    }
}

/// Rows of the partitions before `k`.
pub open spec fn rows_before(parts: Seq<PartitionState>, k: int) -> int
    decreases k,
{
    if k <= 0 {
        0
    } else {
        rows_before(parts, k - 1) + parts[k - 1].n_rows
    }
}

/// Live rows of the partitions before `k`.
pub open spec fn live_before(parts: Seq<PartitionState>, k: int) -> int
    decreases k,
{
    if k <= 0 {
        0
    } else {
        live_before(parts, k - 1) + parts[k - 1].live_rows
    }
}

/// Chunks of the partitions before `k`.
pub open spec fn chunks_before(parts: Seq<PartitionState>, k: int) -> int
    decreases k,
{
    if k <= 0 {
        0
    } else {
        chunks_before(parts, k - 1) + parts[k - 1].chunks@.len()
    }
}

/// Totals do not decrease, and live ones do not exceed the rows.
proof fn lemma_totals(parts: Seq<PartitionState>, j: int, k: int)
    requires
        0 <= j <= k <= parts.len(),
        forall|i: int| 0 <= i < parts.len() ==> (#[trigger] parts[i]).wf(),
    ensures
        0 <= primaries_before(parts, j) <= primaries_before(parts, k),
        0 <= rows_before(parts, j) <= rows_before(parts, k),
        0 <= live_before(parts, j) <= live_before(parts, k),
        0 <= chunks_before(parts, j) <= chunks_before(parts, k),
        primaries_before(parts, k) <= live_before(parts, k) <= rows_before(parts, k),
    decreases k,
{
    if j < k {
        lemma_totals(parts, j, k - 1);
        assert(parts[k - 1].wf());
        crate::bits::lemma_marks_bound(parts[k - 1].dead@, 0, parts[k - 1].n_rows as int);
    } else if j > 0 {
        lemma_totals(parts, j - 1, k - 1);
        assert(parts[k - 1].wf());
        crate::bits::lemma_marks_bound(parts[k - 1].dead@, 0, parts[k - 1].n_rows as int);
    }
}

impl FreshIndex {

    /// Group bytes per row.
    pub open spec fn ng(self) -> int {
        groups(self.bit_width as int, self.memtable.width())
    }

    /// Stored coordinates per row.
    pub open spec fn stored(self) -> int {
        stored_width(self.memtable.width(), self.store_vectors)
    }

    /// The parts fit together.
    pub open spec fn wf(self) -> bool {
        &&& 2 <= self.bit_width <= 4
        &&& self.memtable.wf(self.bit_width as int, self.store_vectors)
        &&& partitions_ok(self.partitions@, self.ng(), self.stored())
        &&& ids_ok(self.partitions@, self.next_partition_id)
        &&& self.memtable.dim is None ==> bare(self.partitions@)
        &&& self.centroids@.len() == self.partitions@.len() * self.memtable.width()
        &&& all_runs(self.runs@)
        &&& below(generations(self.runs@), self.next_run_generation)
        &&& self.tqplus_shift@.len() == self.tqplus_scale@.len()
        &&& self.tqplus_shift@.len() == 0 || self.tqplus_shift@.len() == self.memtable.width()
        &&& self.partition_target is Some ==> self.partition_target->0 > 0
        &&& self.replica_epsilon is Some ==> finite_positive(self.replica_epsilon->0)
        &&& self.tuning.reassign_neighbors > 0
    }

    /// The ids of the live vectors.
    pub open spec fn live(self) -> Set<u64> {
        self.memtable.ids@.to_set().union(base_ids(self.partitions@, self.runs@))
    }

    /// An empty index with no directory yet. Without `dim` the first add
    /// commits one.
    pub fn new(dim: Option<usize>, bit_width: usize, flavor: Layout) -> (r: Result<FreshIndex, ConstructError>)
        ensures
            match r {
                Err(e) => construct_error(dim, bit_width) == Some(e),
                Ok(x) => {
                    &&& construct_error(dim, bit_width) is None
                    &&& x.wf()
                    &&& x.live() == Set::<u64>::empty()
                    &&& x.flavor == flavor
                    &&& x.bit_width == bit_width
                    &&& x.memtable.dim == dim
                    &&& x.memtable.ids@.len() == 0
                    &&& x.partitions@.len() == 0
                    &&& x.runs@.len() == 0
                    &&& x.tqplus_shift@.len() == 0
                    &&& !x.store_vectors
                    &&& !x.clustered
                    &&& x.replica_epsilon is None
                    &&& x.partition_target is None
                    &&& x.epoch == 0
                    &&& x.centroids_generation == 0
                    &&& x.centroids_dirty
                    &&& x.next_partition_id == 0
                    &&& x.next_run_generation == 0
                    &&& x.churn_since_check == 0
                    &&& x.stats == zero_stats()
                    &&& x.tuning == default_tuning()
                },
            },
    {
        if bit_width < 2 || bit_width > 4 {
            return Err(ConstructError::InvalidBitWidth(bit_width));
        }
        if let Some(d) = dim {
            if d == 0 || d > 0xFFFF_FFFF || d % 8 != 0 {
                return Err(ConstructError::InvalidDim(d));
            }
        }
        let x = FreshIndex {
            flavor,
            bit_width,
            store_vectors: false,
            clustered: false,
            tqplus_shift: Vec::new(),
            tqplus_scale: Vec::new(),
            centroids: Vec::new(),
            partitions: Vec::new(),
            runs: Vec::new(),
            memtable: Delta::empty(dim, Vec::new(), Vec::new()),
            replica_epsilon: None,
            partition_target: None,
            tuning: MaintenanceTuning::default(),
            stats: MaintenanceStats::default(),
            epoch: 0,
            centroids_generation: 0,
            centroids_dirty: true,
            next_partition_id: 0,
            next_run_generation: 0,
            churn_since_check: 0,
        };
        proof {
            assert(0 * x.memtable.width() == 0) by (nonlinear_arith);
            assert forall|id: u64| !base_ids(x.partitions@, x.runs@).contains(id) by {
                lemma_no_runs(x.partitions@, x.runs@, id);
            }
            assert(x.live() =~= Set::<u64>::empty());
        }
        Ok(x)
    }

    /// Sets or clears the target partition size.
    pub fn set_partitioning(&mut self, target_partition_size: Option<u32>)
        requires
            target_partition_size != Some(0u32),
            old(self).clustered ==> target_partition_size is Some,
        ensures
            *final(self) == (FreshIndex { partition_target: target_partition_size, ..*old(self) }),
            old(self).wf() ==> final(self).wf(),
    {
        self.partition_target = target_partition_size;
    }

    /// The target partition size.
    pub fn partition_target(&self) -> (r: Option<u32>)
        ensures
            r == self.partition_target,
    {
        self.partition_target
    }

    /// Sets or clears the replica epsilon (bit pattern).
    pub fn set_replication(&mut self, epsilon: Option<u32>)
        requires
            epsilon is Some ==> finite_positive(epsilon->0),
        ensures
            *final(self) == (FreshIndex { replica_epsilon: epsilon, ..*old(self) }),
            old(self).wf() ==> final(self).wf(),
    {
        self.replica_epsilon = epsilon;
    }

    /// The replica epsilon (bit pattern).
    pub fn replica_epsilon(&self) -> (r: Option<u32>)
        ensures
            r == self.replica_epsilon,
    {
        self.replica_epsilon
    }

    /// Sets the maintenance knobs.
    pub fn set_tuning(&mut self, tuning: MaintenanceTuning)
        requires
            tuning.reassign_neighbors > 0,
        ensures
            *final(self) == (FreshIndex { tuning, ..*old(self) }),
            old(self).wf() ==> final(self).wf(),
    {
        self.tuning = tuning;
    }

    /// The maintenance knobs.
    pub fn tuning(&self) -> (r: MaintenanceTuning)
        ensures
            r == self.tuning,
    {
        self.tuning
    }

    /// What maintenance did.
    pub fn maintenance_stats(&self) -> (r: MaintenanceStats)
        ensures
            r == self.stats,
    {
        self.stats
    }

    /// Sets whether vectors are stored; only an empty index can change.
    pub fn set_store_vectors(&mut self, store_vectors: bool)
        requires
            old(self).wf(),
            store_vectors == old(self).store_vectors || (old(self).partitions@.len() == 0 && old(
                self,
            ).memtable.ids@.len() == 0),
        ensures
            *final(self) == (FreshIndex { store_vectors, ..*old(self) }),
            final(self).wf(),
    {
        proof {
            let w = self.memtable.width();
            assert(0 * w == 0) by (nonlinear_arith);
        }
        self.store_vectors = store_vectors;
    }

    /// Whether vectors are stored.
    pub fn stores_vectors(&self) -> (r: bool)
        ensures
            r == self.store_vectors,
    {
        self.store_vectors
    }

    /// The committed dimensionality.
    pub fn dim_opt(&self) -> (d: Option<usize>)
        ensures
            d == self.memtable.dim,
    {
        self.memtable.dim
    }

    /// The committed dimensionality, or 0.
    pub fn dim(&self) -> (d: usize)
        ensures
            d == self.memtable.width(),
    {
        match self.memtable.dim {
            Some(d) => d,
            None => 0,
        }
    }

    /// Bits per code.
    pub fn bit_width(&self) -> (b: usize)
        ensures
            b == self.bit_width,
    {
        self.bit_width
    }

    /// Live primaries of the partitions, and the rows of the memtable.
    pub open spec fn length(self) -> int {
        primaries_before(self.partitions@, self.partitions@.len() as int) + self.memtable.ids@.len()
    }

    /// Live vectors: primaries of the partitions, and the memtable.
    pub fn len(&self) -> (n: usize)
        requires
            self.wf(),
            self.length() <= usize::MAX,
        ensures
            n == self.length(),
    {
        let mut n: usize = 0;
        let mut k: usize = 0;
        while k < self.partitions.len()
            invariant
                self.wf(),
                k <= self.partitions@.len(),
                primaries_before(self.partitions@, self.partitions@.len() as int) <= usize::MAX,
                n == primaries_before(self.partitions@, k as int),
            decreases self.partitions.len() - k,
        {
            proof {
                lemma_totals(self.partitions@, k + 1, self.partitions@.len() as int);
                lemma_totals(self.partitions@, k as int, k as int);
            }
            n = n + self.partitions[k].live_primary as usize;
            k = k + 1;
        }
        n + self.memtable.ids.len()
    }

    /// True if there is no live vector.
    pub fn is_empty(&self) -> (r: bool)
        requires
            self.wf(),
            self.length() <= usize::MAX,
        ensures
            r == (self.length() == 0),
    {
        self.len() == 0
    }

    /// Number of partitions.
    pub fn nlist(&self) -> (n: usize)
        ensures
            n == self.partitions@.len(),
    {
        self.partitions.len()
    }

    /// Rows of the partitions, dead rows and replicas among them.
    pub fn base_len(&self) -> (n: usize)
        requires
            self.wf(),
            rows_before(self.partitions@, self.partitions@.len() as int) <= usize::MAX,
        ensures
            n == rows_before(self.partitions@, self.partitions@.len() as int),
    {
        let mut n: usize = 0;
        let mut k: usize = 0;
        while k < self.partitions.len()
            invariant
                self.wf(),
                k <= self.partitions@.len(),
                rows_before(self.partitions@, self.partitions@.len() as int) <= usize::MAX,
                n == rows_before(self.partitions@, k as int),
            decreases self.partitions.len() - k,
        {
            proof {
                lemma_totals(self.partitions@, k + 1, self.partitions@.len() as int);
                lemma_totals(self.partitions@, k as int, k as int);
            }
            n = n + self.partitions[k].n_rows as usize;
            k = k + 1;
        }
        n
    }

    /// Rows in the memtable.
    pub fn memtable_len(&self) -> (n: usize)
        ensures
            n == self.memtable.ids@.len(),
    {
        self.memtable.ids.len()
    }

    /// Live rows of the partitions.
    pub fn live_len(&self) -> (n: usize)
        requires
            self.wf(),
            rows_before(self.partitions@, self.partitions@.len() as int) <= usize::MAX,
        ensures
            n == live_before(self.partitions@, self.partitions@.len() as int),
    {
        let mut n: usize = 0;
        let mut k: usize = 0;
        while k < self.partitions.len()
            invariant
                self.wf(),
                k <= self.partitions@.len(),
                rows_before(self.partitions@, self.partitions@.len() as int) <= usize::MAX,
                n == live_before(self.partitions@, k as int),
            decreases self.partitions.len() - k,
        {
            proof {
                lemma_totals(self.partitions@, k + 1, self.partitions@.len() as int);
                lemma_totals(self.partitions@, k as int, k as int);
            }
            n = n + self.partitions[k].live_rows as usize;
            k = k + 1;
        }
        n
    }

    /// Dead rows of the partitions.
    pub fn dead_count(&self) -> (n: usize)
        requires
            self.wf(),
            rows_before(self.partitions@, self.partitions@.len() as int) <= usize::MAX,
        ensures
            n == rows_before(self.partitions@, self.partitions@.len() as int) - live_before(
                self.partitions@,
                self.partitions@.len() as int,
            ),
    {
        proof {
            lemma_totals(
                self.partitions@,
                self.partitions@.len() as int,
                self.partitions@.len() as int,
            );
        }
        self.base_len() - self.live_len()
    }

    /// Live replicas of the partitions.
    pub fn replica_count(&self) -> (n: usize)
        requires
            self.wf(),
            rows_before(self.partitions@, self.partitions@.len() as int) + self.memtable.ids@.len()
                <= usize::MAX,
        ensures
            n == live_before(self.partitions@, self.partitions@.len() as int) - primaries_before(
                self.partitions@,
                self.partitions@.len() as int,
            ),
    {
        proof {
            lemma_totals(
                self.partitions@,
                self.partitions@.len() as int,
                self.partitions@.len() as int,
            );
        }
        self.live_len() - (self.len() - self.memtable.ids.len())
    }

    /// Live primaries of each partition.
    pub fn partition_sizes(&self) -> (r: Vec<u64>)
        ensures
            r@ == Seq::new(self.partitions@.len(), |k: int| self.partitions@[k].live_primary),
    {
        let mut r: Vec<u64> = Vec::new();
        let mut k: usize = 0;
        while k < self.partitions.len()
            invariant
                k <= self.partitions@.len(),
                r@ == Seq::new(k as nat, |j: int| self.partitions@[j].live_primary),
            decreases self.partitions.len() - k,
        {
            r.push(self.partitions[k].live_primary);
            k = k + 1;
            assert(r@ =~= Seq::new(k as nat, |j: int| self.partitions@[j].live_primary));
        }
        r
    }

    /// Number of runs.
    pub fn run_count(&self) -> (n: usize)
        ensures
            n == self.runs@.len(),
    {
        self.runs.len()
    }

    /// Chunks of all partitions.
    pub fn chunk_count(&self) -> (n: usize)
        requires
            self.wf(),
            chunks_before(self.partitions@, self.partitions@.len() as int) <= usize::MAX,
        ensures
            n == chunks_before(self.partitions@, self.partitions@.len() as int),
    {
        let mut n: usize = 0;
        let mut k: usize = 0;
        while k < self.partitions.len()
            invariant
                self.wf(),
                k <= self.partitions@.len(),
                chunks_before(self.partitions@, self.partitions@.len() as int) <= usize::MAX,
                n == chunks_before(self.partitions@, k as int),
            decreases self.partitions.len() - k,
        {
            proof {
                lemma_totals(self.partitions@, k + 1, self.partitions@.len() as int);
                lemma_totals(self.partitions@, k as int, k as int);
            }
            n = n + self.partitions[k].chunks.len();
            k = k + 1;
        }
        n
    }

    /// The live copies of `id` in the partitions.
    pub fn live_copies(&self, id: u64) -> (r: Vec<CopyLocation>)
        requires
            self.wf(),
        ensures
            r@ == copies_of(self.partitions@, self.runs@, id),
    {
        live_copies(&self.partitions, &self.runs, id)
    }

    /// True if a vector with this id is live.
    pub fn contains(&self, id: u64) -> (r: bool)
        requires
            self.wf(),
        ensures
            r == self.live().contains(id),
    {
        self.memtable.contains(id) || self.live_copies(id).len() > 0
    }

    /// A partition is too large or too small.
    pub open spec fn unbalanced(self, p: PartitionState, target: u32) -> bool {
        ||| p.live_primary > SPLIT_FACTOR * target
        ||| self.partitions@.len() > MIN_PARTITIONS && p.live_primary < target as int
            / MERGE_DIVISOR as int
    }

    /// True if some partition is out of its size bounds.
    pub fn needs_maintenance(&self) -> (r: bool)
        ensures
            r == (self.partition_target is Some && exists|k: int|
                0 <= k < self.partitions@.len() && self.unbalanced(
                    #[trigger] self.partitions@[k],
                    self.partition_target->0,
                )),
    {
        let target: u32 = match self.partition_target {
            None => {
                return false;
            },
            Some(t) => t,
        };
        let nlist: usize = self.partitions.len();
        let mut k: usize = 0;
        while k < nlist
            invariant
                nlist == self.partitions@.len(),
                k <= nlist,
                self.partition_target == Some(target),
                forall|j: int|
                    0 <= j < k ==> !self.unbalanced(#[trigger] self.partitions@[j], target),
            decreases nlist - k,
        {
            let p: &PartitionState = &self.partitions[k];
            let over: bool = p.live_primary > 2 * (target as u64);
            let under: bool = nlist > MIN_PARTITIONS && p.live_primary < (target / 4) as u64;
            if over || under {
                assert(self.unbalanced(self.partitions@[k as int], target));
                return true;
            }
            k = k + 1;
        }
        false
    }
}

/// Without runs nothing is found.
proof fn lemma_no_runs(parts: Seq<PartitionState>, runs: Seq<Run>, id: u64)
    requires
        runs.len() == 0,
    ensures
        copies_of(parts, runs, id).len() == 0,
{
    let all = crate::copies::tables(runs);
    assert(all.len() == 0);
    assert(crate::copies::newest_first(all).len() == 0);
    assert(crate::runs::of_id(crate::copies::newest_first(all), id).len() == 0);
}

} // verus!
