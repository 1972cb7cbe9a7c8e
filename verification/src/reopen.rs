//! From an index to its manifest and back.
use std::collections::HashSet;
use vstd::prelude::*;
use crate::bits::{is_marked, marked, marks};
use crate::bytes::{lemma_u32s_round_trip, read_u32s, u32s_at, u32s_bytes};
use crate::chunk::{chunk_len, chunk_lens, lemma_chunk_starts, stored_width};
use crate::copies::{all_runs, generations, Run};
use crate::delta::Delta;
use crate::disk::{valid_dim, ConstructError};
use crate::fresh::{bare, below, ids_ok, partitions_ok, FreshIndex};
use crate::manifest::Manifest;
use crate::pack::{groups, n_byte_groups, Layout};
use crate::partition::{rows_upto, ChunkMeta, PartitionState, MAX_ROWS};
use crate::runs::{entries_in, is_run, run_count, run_entry_id};
use crate::sections::{aligned, start_by};
use crate::tuning::{default_tuning, zero_stats, MaintenanceStats, MaintenanceTuning};
use crate::tvdm::finite_positive;

verus! {

broadcast use vstd::std_specs::hash::group_hash_axioms;

/// Why a directory cannot be opened.
#[derive(Clone, Copy, Debug, PartialEq, Eq, Structural)]
pub enum ReopenError {
    /// The manifest's parameters are not those of an index.
    Parameters(ConstructError),
    /// The centroid file has another length than the manifest calls for.
    Centroids { len: usize, want: u128 },
    /// The tables contradict each other.
    Inconsistent,
}

fn copy_u32s(s: &Vec<u32>) -> (r: Vec<u32>)
    ensures
        r@ == s@,
{
    let mut r: Vec<u32> = Vec::new();
    r.extend_from_slice(s.as_slice());
    assert(r@ =~= s@);
    r
}

impl PartitionState {
    /// An equal partition.
    pub fn duplicate(&self) -> (r: PartitionState)
        ensures
            r.same(*self),
    {
        let mut chunks: Vec<ChunkMeta> = Vec::new();
        let mut k: usize = 0;
        while k < self.chunks.len()
            invariant
                k <= self.chunks@.len(),
                chunks@ == self.chunks@.take(k as int),
            decreases self.chunks.len() - k,
        {
            chunks.push(self.chunks[k]);
            k = k + 1;
            assert(chunks@ =~= self.chunks@.take(k as int));
        }
        assert(chunks@ =~= self.chunks@);
        let mut dead: Vec<u8> = Vec::new();
        dead.extend_from_slice(self.dead.as_slice());
        assert(dead@ =~= self.dead@);
        PartitionState {
            partition_id: self.partition_id,
            generation: self.generation,
            n_rows: self.n_rows,
            live_rows: self.live_rows,
            live_primary: self.live_primary,
            chunks,
            dead,
            file_bytes: self.file_bytes,
        }
    }
}

impl FreshIndex {
    /// This is the manifest of the index.
    pub open spec fn recorded(self, m: Manifest) -> bool {
        &&& m.bit_width == self.bit_width
        &&& m.store_vectors == self.store_vectors
        &&& m.clustered == self.clustered
        &&& m.dim == self.memtable.width()
        &&& m.epoch == self.epoch
        &&& m.partition_target == self.partition_target
        &&& m.replica_epsilon == self.replica_epsilon
        &&& m.next_partition_id == self.next_partition_id
        &&& m.next_run_generation == self.next_run_generation
        &&& m.churn_since_check == self.churn_since_check
        &&& m.tqplus_shift@ == self.tqplus_shift@
        &&& m.tqplus_scale@ == self.tqplus_scale@
        &&& m.runs@ == generations(self.runs@)
        &&& m.partitions@.len() == self.partitions@.len()
        &&& forall|j: int|
            0 <= j < self.partitions@.len() ==> (#[trigger] m.partitions@[j]).same(self.partitions@[j])
        &&& m.centroids_generation == self.centroids_generation
    }

    /// The tables are short enough to be recorded.
    pub open spec fn recordable(self) -> bool {
        &&& self.partitions@.len() <= u32::MAX
        &&& self.runs@.len() <= u32::MAX
        &&& forall|j: int|
            0 <= j < self.partitions@.len() ==> (#[trigger] self.partitions@[j]).chunks@.len() <= u32::MAX
    }

    /// The manifest of the index.
    pub fn manifest(&self) -> (m: Manifest)
        requires
            self.wf(),
            self.recordable(),
        ensures
            self.recorded(m),
            m.writable(),
    {
        let mut partitions: Vec<PartitionState> = Vec::new();
        let mut k: usize = 0;
        while k < self.partitions.len()
            invariant
                k <= self.partitions@.len(),
                partitions@.len() == k,
                forall|j: int|
                    0 <= j < k ==> (#[trigger] partitions@[j]).same(self.partitions@[j]),
            decreases self.partitions.len() - k,
        {
            partitions.push(self.partitions[k].duplicate());
            k = k + 1;
        }
        let mut runs: Vec<u64> = Vec::new();
        let mut i: usize = 0;
        while i < self.runs.len()
            invariant
                i <= self.runs@.len(),
                runs@ == generations(self.runs@).take(i as int),
            decreases self.runs.len() - i,
        {
            runs.push(self.runs[i].generation);
            i = i + 1;
            assert(runs@ =~= generations(self.runs@).take(i as int));
        }
        assert(runs@ =~= generations(self.runs@));
        let shift: Vec<u32> = copy_u32s(&self.tqplus_shift);
        let scale: Vec<u32> = copy_u32s(&self.tqplus_scale);
        let m = Manifest {
            bit_width: self.bit_width as u8,
            store_vectors: self.store_vectors,
            clustered: self.clustered,
            dim: self.dim() as u32,
            epoch: self.epoch,
            partition_target: self.partition_target,
            replica_epsilon: self.replica_epsilon,
            next_partition_id: self.next_partition_id,
            next_run_generation: self.next_run_generation,
            churn_since_check: self.churn_since_check,
            tqplus_shift: shift,
            tqplus_scale: scale,
            runs,
            partitions,
            centroids_generation: self.centroids_generation,
        };
        proof {
            assert forall|j: int| 0 <= j < m.partitions@.len() implies (
            #[trigger] m.partitions@[j]).chunks@.len() <= u32::MAX && m.partitions@[j].dead@.len()
                == crate::manifest::bitmap_len(m.partitions@[j].n_rows) by {
                assert(m.partitions@[j].same(self.partitions@[j]));
                assert(self.partitions@[j].wf());
                assert(self.partitions@[j].chunks@.len() <= u32::MAX);
            }
        }
        m
    }

    /// Settles which centroid file the next manifest names. A new one is
    /// needed if the centroids changed or the old file is missing; the
    /// generation that it replaces is returned.
    pub fn renew_centroids(&mut self, present: bool) -> (r: Option<u64>)
        requires
            old(self).centroids_generation < u64::MAX,
        ensures
            r == if old(self).centroids_dirty || !present {
                Some(old(self).centroids_generation)
            } else {
                None
            },
            r is None ==> *final(self) == *old(self),
            r is Some ==> *final(self) == (FreshIndex {
                centroids_generation: (old(self).centroids_generation + 1) as u64,
                centroids_dirty: false,
                ..*old(self)
            }),
            old(self).wf() ==> final(self).wf(),
    {
        if self.centroids_dirty || !present {
            let stale: u64 = self.centroids_generation;
            self.centroids_generation = stale + 1;
            self.centroids_dirty = false;
            Some(stale)
        } else {
            None
        }
    }
}

/// Bytes of a chunk, where they may not fit the machine's words.
pub(crate) fn chunk_len_wide(ng: usize, width: usize, n: u32) -> (r: u128)
    requires
        ng <= 0xFFFF_FFFF,
        width <= 0xFFFF_FFFF,
    ensures
        r == chunk_len(ng as int, width as int, n as int),
{
    let ghost lens = chunk_lens(ng as int, width as int, n as int);
    let blocks: u128 = (n as u128 + 31) / 32;
    proof {
        assert(blocks * (ng * 32) <= 0x800_0000 * (0xFFFF_FFFF * 32)) by (nonlinear_arith)
            requires
                0 <= blocks <= 0x800_0000,
                0 <= ng <= 0xFFFF_FFFF,
        ;
        assert(n * width <= 0xFFFF_FFFF * 0xFFFF_FFFF) by (nonlinear_arith)
            requires
                0 <= n <= 0xFFFF_FFFF,
                0 <= width <= 0xFFFF_FFFF,
        ;
        assert(0 <= n * width && 0 <= blocks * (ng * 32)) by (nonlinear_arith)
            requires
                0 <= n,
                0 <= width,
                0 <= ng,
                0 <= blocks,
        ;
        assert(lens[0] == 64 && lens[1] == blocks * (ng * 32) && lens[2] == 4 * n && lens[3] == 8 * n && lens[4]
            == (n + 7) / 8 && lens[5] == 4 * (n * width));
        assert(start_by(lens, 8, 1) == start_by(lens, 8, 0) + aligned(lens[0], 8));
        assert(start_by(lens, 8, 2) == start_by(lens, 8, 1) + aligned(lens[1], 8));
        assert(start_by(lens, 8, 3) == start_by(lens, 8, 2) + aligned(lens[2], 8));
        assert(start_by(lens, 8, 4) == start_by(lens, 8, 3) + aligned(lens[3], 8));
        assert(start_by(lens, 8, 5) == start_by(lens, 8, 4) + aligned(lens[4], 8));
        assert(start_by(lens, 8, 6) == start_by(lens, 8, 5) + aligned(lens[5], 8));
    }
    let codes: u128 = blocks * (ng as u128 * 32);
    let vectors: u128 = 4 * (n as u128 * width as u128);
    let end: u128 = 64 + (codes + 7) / 8 * 8 + (4 * n as u128 + 7) / 8 * 8 + 8 * n as u128 + ((n as u128 + 7) / 8
        + 7) / 8 * 8 + (vectors + 7) / 8 * 8;
    assert(aligned(8 * n as int, 8) == 8 * n);
    (end + 63) / 64 * 64
}

impl PartitionState {
    /// Whether counts, chunk table and bitmap agree.
    fn counts_agree(&self) -> (r: bool)
        ensures
            r == self.wf(),
    {
        let total: usize = self.chunks.len();
        let mut rows: u128 = 0;
        let mut k: usize = 0;
        while k < self.chunks.len()
            invariant
                k <= self.chunks@.len(),
                total == self.chunks@.len(),
                rows == rows_upto(self.chunks@, k as int),
                rows <= k * 0xFFFF_FFFF,
            decreases self.chunks.len() - k,
        {
            rows = rows + self.chunks[k].n_rows as u128;
            k = k + 1;
        }
        if self.n_rows > MAX_ROWS || rows != self.n_rows as u128 {
            return false;
        }
        let bytes: u64 = (self.n_rows + 7) / 8;
        let dead_len: usize = self.dead.len();
        if dead_len as u64 != bytes {
            return false;
        }
        let dead: u64 = self.count_dead();
        if self.live_rows != self.n_rows - dead || self.live_primary > self.live_rows {
            return false;
        }
        let mut r: u64 = self.n_rows;
        while r < 8 * bytes
            invariant
                self.n_rows <= r <= 8 * bytes,
                self.n_rows <= MAX_ROWS,
                bytes == (self.n_rows + 7) / 8,
                forall|q: int| self.n_rows <= q < r ==> !#[trigger] marked(self.dead@, q),
            decreases 8 * bytes - r,
        {
            if is_marked(&self.dead, r) {
                return false;
            }
            r = r + 1;
        }
        true
    }

    fn count_dead(&self) -> (r: u64)
        requires
            self.n_rows <= MAX_ROWS,
        ensures
            r == marks(self.dead@, 0, self.n_rows as int),
            r <= self.n_rows,
    {
        let mut r: u64 = 0;
        let mut i: u64 = 0;
        while i < self.n_rows
            invariant
                i <= self.n_rows,
                r <= i,
                r == marks(self.dead@, 0, i as int),
            decreases self.n_rows - i,
        {
            if is_marked(&self.dead, i) {
                r = r + 1;
            }
            i = i + 1;
        }
        r
    }

    /// Whether the chunks follow one another inside the file.
    fn chunks_placed(&self, ng: usize, width: usize) -> (r: bool)
        requires
            ng <= 0xFFFF_FFFF,
            width <= 0xFFFF_FFFF,
        ensures
            r == self.placed(ng as int, width as int),
    {
        if self.file_bytes as u128 > usize::MAX as u128 || self.file_bytes % 64 != 0 {
            return false;
        }
        let mut k: usize = 0;
        while k < self.chunks.len()
            invariant
                ng <= 0xFFFF_FFFF,
                width <= 0xFFFF_FFFF,
                k <= self.chunks@.len(),
                forall|j: int|
                    0 <= j < k ==> {
                        &&& (#[trigger] self.chunks@[j]).offset % 64 == 0
                        &&& self.chunks@[j].offset + chunk_len(
                            ng as int,
                            width as int,
                            self.chunks@[j].n_rows as int,
                        ) <= self.limit(j)
                    },
            decreases self.chunks.len() - k,
        {
            let here: ChunkMeta = self.chunks[k];
            let limit: u64 = if k + 1 < self.chunks.len() {
                self.chunks[k + 1].offset
            } else {
                self.file_bytes
            };
            let len: u128 = chunk_len_wide(ng, width, here.n_rows);
            assert(limit == self.limit(k as int));
            assert(here == self.chunks@[k as int]);
            proof {
                lemma_chunk_starts(ng as int, width as int, here.n_rows as int);
            }
            if here.offset % 64 != 0 || len > limit as u128 || here.offset as u128 > limit as u128 - len {
                return false;
            }
            k = k + 1;
        }
        true
    }
}

/// Whether partition ids are distinct and below `next`.
fn check_ids(parts: &Vec<PartitionState>, next: u32) -> (r: bool)
    ensures
        r == ids_ok(parts@, next),
{
    let mut seen: HashSet<u32> = HashSet::new();
    let mut k: usize = 0;
    while k < parts.len()
        invariant
            k <= parts@.len(),
            ids_ok(parts@.take(k as int), next),
            forall|x: u32|
                seen@.contains(x) <==> exists|j: int| 0 <= j < k && (#[trigger] parts@[j]).partition_id == x,
        decreases parts.len() - k,
    {
        let id: u32 = parts[k].partition_id;
        if id >= next || seen.contains(&id) {
            proof {
                if ids_ok(parts@, next) {
                    assert(parts@[k as int].partition_id < next);
                    let j = choose|j: int| 0 <= j < k && (#[trigger] parts@[j]).partition_id == id;
                    assert(parts@[j].partition_id != parts@[k as int].partition_id);
                }
            }
            return false;
        }
        let ghost before = seen@;
        seen.insert(id);
        proof {
            assert forall|x: u32| seen@.contains(x) <==> exists|j: int|
                0 <= j < k + 1 && (#[trigger] parts@[j]).partition_id == x by {
                if before.contains(x) {
                    let j = choose|j: int| 0 <= j < k && (#[trigger] parts@[j]).partition_id == x;
                    assert(0 <= j < k + 1 && parts@[j].partition_id == x);
                }
                assert(parts@[k as int].partition_id == id);
                if exists|j: int| 0 <= j < k + 1 && (#[trigger] parts@[j]).partition_id == x {
                    let j = choose|j: int| 0 <= j < k + 1 && (#[trigger] parts@[j]).partition_id == x;
                    if j < k {
                        assert(before.contains(x));
                    }
                }
            }
            let old_take = parts@.take(k as int);
            let new_take = parts@.take(k + 1);
            assert(ids_ok(new_take, next)) by {
                assert forall|i: int| 0 <= i < new_take.len() implies (#[trigger] new_take[i]).partition_id
                    < next by {
                    if i < k {
                        assert(old_take[i].partition_id < next);
                    }
                }
                assert forall|i: int, j: int| 0 <= i < j < new_take.len() implies (
                #[trigger] new_take[i]).partition_id != (#[trigger] new_take[j]).partition_id by {
                    if j < k {
                        assert(old_take[i].partition_id != old_take[j].partition_id);
                    } else {
                        assert(new_take[i] == parts@[i]);
                        if parts@[i].partition_id == id {
                            assert(before.contains(id));
                        }
                    }
                }
            }
        }
        k = k + 1;
    }
    assert(parts@.take(k as int) =~= parts@);
    true
}

/// Whether a run is complete and sorted.
pub fn check_run(run: &[u8]) -> (r: bool)
    ensures
        r == is_run(run@),
{
    let len: usize = run.len();
    if len < 16 {
        assert(entries_in(run@) =~= Seq::empty());
        return true;
    }
    let n: u64 = crate::bytes::read_u64(run, 8);
    if n == 0 {
        assert(entries_in(run@) =~= Seq::empty());
        return true;
    }
    if ((len - 16) / 24) as u64 <= n && n as u128 * 24 > (len - 16) as u128 {
        return false;
    }
    let count: usize = n as usize;
    let ghost all = entries_in(run@);
    let mut k: usize = 1;
    while k < count
        invariant
            len == run@.len(),
            16 + 24 * count <= len,
            count == run_count(run@),
            all == entries_in(run@),
            1 <= k <= count,
            forall|i: int, j: int| 0 <= i <= j < k ==> all[i].id <= all[j].id,
        decreases count - k,
    {
        let a: u64 = run_entry_id(run, k - 1);
        let b: u64 = run_entry_id(run, k);
        assert(all[k - 1].id == a && all[k as int].id == b);
        if b < a {
            return false;
        }
        k = k + 1;
    }
    true
}

/// The runs and partitions of a manifest agree with one another and with the
/// index's shape.
pub open spec fn tables_agree(m: Manifest, runs: Seq<Run>) -> bool {
    let ng = groups(m.bit_width as int, m.dim as int);
    &&& partitions_ok(m.partitions@, ng, stored_width(m.dim as int, m.store_vectors))
    &&& ids_ok(m.partitions@, m.next_partition_id)
    &&& m.dim == 0 ==> bare(m.partitions@)
    &&& all_runs(runs)
    &&& generations(runs) == m.runs@
    &&& below(m.runs@, m.next_run_generation)
    &&& m.tqplus_shift@.len() == m.tqplus_scale@.len()
    &&& m.tqplus_shift@.len() == 0 || m.tqplus_shift@.len() == m.dim
    &&& m.partition_target is Some ==> m.partition_target->0 > 0
    &&& m.replica_epsilon is Some ==> finite_positive(m.replica_epsilon->0)
}

fn check_runs(m: &Manifest, runs: &Vec<Run>) -> (r: bool)
    ensures
        r == (all_runs(runs@) && generations(runs@) == m.runs@ && below(m.runs@, m.next_run_generation)),
{
    if runs.len() != m.runs.len() {
        assert(generations(runs@).len() != m.runs@.len());
        return false;
    }
    let mut k: usize = 0;
    while k < runs.len()
        invariant
            k <= runs@.len(),
            runs@.len() == m.runs@.len(),
            forall|j: int| 0 <= j < k ==> is_run(#[trigger] runs@[j].bytes@),
            forall|j: int| 0 <= j < k ==> (#[trigger] runs@[j]).generation == m.runs@[j],
            forall|j: int| 0 <= j < k ==> #[trigger] m.runs@[j] < m.next_run_generation,
        decreases runs.len() - k,
    {
        let ok: bool = check_run(runs[k].bytes.as_slice());
        if !ok {
            assert(!is_run(runs@[k as int].bytes@));
            return false;
        }
        if runs[k].generation != m.runs[k] {
            assert(generations(runs@)[k as int] != m.runs@[k as int]);
            return false;
        }
        if m.runs[k] >= m.next_run_generation {
            assert(!(m.runs@[k as int] < m.next_run_generation));
            return false;
        }
        k = k + 1;
    }
    assert(generations(runs@) =~= m.runs@);
    true
}

fn check_bare(partitions: &Vec<PartitionState>) -> (r: bool)
    ensures
        r == bare(partitions@),
{
    let n: usize = partitions.len();
    assert(n * 0xFFFF_FFFF <= 0xFFFF_FFFF_FFFF_FFFF * 0xFFFF_FFFF) by (nonlinear_arith)
        requires
            0 <= n <= 0xFFFF_FFFF_FFFF_FFFF,
    ;
    if n as u128 * 0xFFFF_FFFF > usize::MAX as u128 {
        return false;
    }
    let mut k: usize = 0;
    while k < n
        invariant
            n == partitions@.len(),
            k <= n,
            forall|j: int| 0 <= j < k ==> (#[trigger] partitions@[j]).chunks@.len() == 0,
        decreases n - k,
    {
        if partitions[k].chunks.len() > 0 {
            assert(partitions@[k as int].chunks@.len() != 0);
            return false;
        }
        k = k + 1;
    }
    true
}

fn check_partitions(m: &Manifest, ng: usize, width: usize) -> (r: bool)
    requires
        ng <= 0xFFFF_FFFF,
        width <= 0xFFFF_FFFF,
    ensures
        r == partitions_ok(m.partitions@, ng as int, width as int),
{
    let mut k: usize = 0;
    while k < m.partitions.len()
        invariant
            ng <= 0xFFFF_FFFF,
            width <= 0xFFFF_FFFF,
            k <= m.partitions@.len(),
            forall|j: int|
                0 <= j < k ==> (#[trigger] m.partitions@[j]).wf() && m.partitions@[j].placed(
                    ng as int,
                    width as int,
                ),
        decreases m.partitions.len() - k,
    {
        let agree: bool = m.partitions[k].counts_agree();
        let placed: bool = m.partitions[k].chunks_placed(ng, width);
        if !agree || !placed {
            assert(!(m.partitions@[k as int].wf() && m.partitions@[k as int].placed(ng as int, width as int)));
            return false;
        }
        k = k + 1;
    }
    true
}

/// Whether the tables agree.
fn check_tables(m: &Manifest, runs: &Vec<Run>) -> (r: bool)
    requires
        2 <= m.bit_width <= 4,
    ensures
        r == tables_agree(*m, runs@),
{
    let width: usize = if m.store_vectors {
        m.dim as usize
    } else {
        0
    };
    let ng: usize = n_byte_groups(m.bit_width as usize, m.dim as usize);
    assert(ng <= m.dim);
    if !check_partitions(m, ng, width) || !check_ids(&m.partitions, m.next_partition_id) || !check_runs(
        m,
        runs,
    ) {
        return false;
    }
    if m.dim == 0 && !check_bare(&m.partitions) {
        return false;
    }
    if m.tqplus_shift.len() != m.tqplus_scale.len() {
        return false;
    }
    if m.tqplus_shift.len() != 0 && m.tqplus_shift.len() != m.dim as usize {
        return false;
    }
    if let Some(t) = m.partition_target {
        if t == 0 {
            return false;
        }
    }
    if let Some(e) = m.replica_epsilon {
        if e == 0 || e >= 0x7F80_0000 {
            return false;
        }
    }
    true
}

/// Why a directory cannot be opened, if it cannot.
pub open spec fn reopen_error(m: Manifest, runs: Seq<Run>, centroids: Seq<u8>) -> Option<ReopenError> {
    let want = m.partitions@.len() * m.dim * 4;
    if centroids.len() != want {
        Some(ReopenError::Centroids { len: centroids.len() as usize, want: want as u128 })
    } else if m.dim > 0 && !valid_dim(m.dim as int) {
        Some(ReopenError::Parameters(ConstructError::InvalidDim(m.dim as usize)))
    } else if !tables_agree(m, runs) {
        Some(ReopenError::Inconsistent)
    } else {
        None
    }
}

impl FreshIndex {
    /// The index of a directory: its manifest, its runs, and the centroid file
    /// that the manifest names.
    pub fn reopen(flavor: Layout, m: Manifest, runs: Vec<Run>, centroids: &[u8]) -> (r: Result<
        FreshIndex,
        ReopenError,
    >)
        requires
            2 <= m.bit_width <= 4,
        ensures
            match r {
                Err(e) => reopen_error(m, runs@, centroids@) == Some(e),
                Ok(x) => {
                    &&& reopen_error(m, runs@, centroids@) is None
                    &&& x.wf()
                    &&& x.recorded(m)
                    &&& x.flavor == flavor
                    &&& x.partitions@ == m.partitions@
                    &&& x.runs@ == runs@
                    &&& x.centroids@ == u32s_at(centroids@, 0, (m.partitions@.len() * m.dim) as nat)
                    &&& x.memtable.ids@.len() == 0
                    &&& x.memtable.tqplus_shift@ == x.tqplus_shift@
                    &&& x.memtable.tqplus_scale@ == x.tqplus_scale@
                    &&& !x.centroids_dirty
                    &&& x.tuning == default_tuning()
                    &&& x.stats == zero_stats()
                },
            },
    {
        let nlist: usize = m.partitions.len();
        let dim: usize = m.dim as usize;
        let len: usize = centroids.len();
        proof {
            assert(nlist * dim * 4 <= 0xFFFF_FFFF_FFFF_FFFF * 0xFFFF_FFFF * 4) by (nonlinear_arith)
                requires
                    0 <= nlist <= 0xFFFF_FFFF_FFFF_FFFF,
                    0 <= dim <= 0xFFFF_FFFF,
            ;
            assert(0 <= nlist * dim <= 0xFFFF_FFFF_FFFF_FFFF * 0xFFFF_FFFF) by (nonlinear_arith)
                requires
                    0 <= nlist <= 0xFFFF_FFFF_FFFF_FFFF,
                    0 <= dim <= 0xFFFF_FFFF,
            ;
        }
        let want: u128 = nlist as u128 * dim as u128 * 4;
        if len as u128 != want {
            return Err(ReopenError::Centroids { len, want });
        }
        if dim > 0 && dim % 8 != 0 {
            return Err(ReopenError::Parameters(ConstructError::InvalidDim(dim)));
        }
        if !check_tables(&m, &runs) {
            return Err(ReopenError::Inconsistent);
        }
        let words: Vec<u32> = read_u32s(centroids, 0, nlist * dim);
        let dim_opt: Option<usize> = if dim > 0 {
            Some(dim)
        } else {
            None
        };
        let shift: Vec<u32> = copy_u32s(&m.tqplus_shift);
        let scale: Vec<u32> = copy_u32s(&m.tqplus_scale);
        let memtable: Delta = Delta::empty(dim_opt, shift, scale);
        let x = FreshIndex {
            flavor,
            bit_width: m.bit_width as usize,
            store_vectors: m.store_vectors,
            clustered: m.clustered,
            tqplus_shift: m.tqplus_shift,
            tqplus_scale: m.tqplus_scale,
            centroids: words,
            partitions: m.partitions,
            runs,
            memtable,
            replica_epsilon: m.replica_epsilon,
            partition_target: m.partition_target,
            tuning: MaintenanceTuning::default(),
            stats: MaintenanceStats::default(),
            epoch: m.epoch,
            centroids_generation: m.centroids_generation,
            centroids_dirty: false,
            next_partition_id: m.next_partition_id,
            next_run_generation: m.next_run_generation,
            churn_since_check: m.churn_since_check,
        };
        Ok(x)
    }
}

/// Reopening a directory that was just written gives back the same
/// partitions, runs, counters and settings.
pub proof fn law_reopen_gives_back(x: FreshIndex, m: Manifest, read: Manifest, y: FreshIndex)
    requires
        x.wf(),
        x.recorded(m),
        m.writable(),
        read.holds(m.bytes()),
        y.recorded(read),
    ensures
        y.bit_width == x.bit_width,
        y.store_vectors == x.store_vectors,
        y.clustered == x.clustered,
        y.memtable.width() == x.memtable.width(),
        y.epoch == x.epoch,
        y.partition_target == x.partition_target,
        y.replica_epsilon == x.replica_epsilon,
        y.next_partition_id == x.next_partition_id,
        y.next_run_generation == x.next_run_generation,
        y.churn_since_check == x.churn_since_check,
        y.tqplus_shift@ == x.tqplus_shift@,
        y.tqplus_scale@ == x.tqplus_scale@,
        generations(y.runs@) == generations(x.runs@),
        y.partitions@.len() == x.partitions@.len(),
        forall|j: int|
            0 <= j < x.partitions@.len() ==> (#[trigger] y.partitions@[j]).same(x.partitions@[j]),
        y.centroids_generation == x.centroids_generation,
{
    crate::manifest_laws::law_reading_gives_back(m, read);
    assert forall|j: int| 0 <= j < x.partitions@.len() implies (#[trigger] y.partitions@[j]).same(
        x.partitions@[j],
    ) by {
        assert(m.partitions@[j].same(x.partitions@[j]));
        assert(read.partitions@[j].same(m.partitions@[j]));
        assert(read.partitions@[j].same(y.partitions@[j]));
    }
}

/// A directory that was just written can be opened: its manifest, run files and
/// centroid file are found in order, and the centroids are those written.
pub proof fn law_written_directory_opens(
    x: FreshIndex,
    m: Manifest,
    read: Manifest,
    runs: Seq<Run>,
    centroids: Seq<u8>,
)
    requires
        x.wf(),
        x.recorded(m),
        m.writable(),
        read.holds(m.bytes()),
        runs.len() == x.runs@.len(),
        forall|k: int|
            0 <= k < runs.len() ==> (#[trigger] runs[k]).generation == x.runs@[k].generation && runs[k].bytes@
                == x.runs@[k].bytes@,
        centroids == u32s_bytes(x.centroids@),
    ensures
        2 <= read.bit_width <= 4,
        reopen_error(read, runs, centroids) is None,
        u32s_at(centroids, 0, (read.partitions@.len() * read.dim) as nat) == x.centroids@,
{
    let parts = x.partitions@;
    crate::manifest_laws::law_reading_gives_back(m, read);
    let ng = groups(read.bit_width as int, read.dim as int);
    let width = stored_width(read.dim as int, read.store_vectors);
    assert forall|j: int| 0 <= j < parts.len() implies (#[trigger] read.partitions@[j]).same(parts[j]) by {
        assert(m.partitions@[j].same(parts[j]));
        assert(read.partitions@[j].same(m.partitions@[j]));
    }
    assert(partitions_ok(read.partitions@, ng, width)) by {
        assert forall|j: int| 0 <= j < read.partitions@.len() implies (#[trigger] read.partitions@[j]).wf()
            && read.partitions@[j].placed(ng, width) by {
            assert(read.partitions@[j].same(parts[j]));
            assert(parts[j].wf() && parts[j].placed(x.ng(), x.stored()));
            lemma_same_is_placed(parts[j], read.partitions@[j], ng, width);
        }
    }
    assert(ids_ok(read.partitions@, read.next_partition_id)) by {
        assert forall|k: int| 0 <= k < read.partitions@.len() implies (#[trigger] read.partitions@[k]).partition_id
            < read.next_partition_id by {
            assert(read.partitions@[k].same(parts[k]));
        }
        assert forall|i: int, j: int| 0 <= i < j < read.partitions@.len() implies (
        #[trigger] read.partitions@[i]).partition_id != (#[trigger] read.partitions@[j]).partition_id by {
            assert(read.partitions@[i].same(parts[i]) && read.partitions@[j].same(parts[j]));
            assert(parts[i].partition_id != parts[j].partition_id);
        }
    }
    assert(generations(runs) =~= generations(x.runs@));
    assert(all_runs(runs)) by {
        assert forall|k: int| 0 <= k < runs.len() implies is_run(#[trigger] runs[k].bytes@) by {
            assert(is_run(x.runs@[k].bytes@));
            assert(runs[k].bytes@ == x.runs@[k].bytes@);
        }
    }
    assert(centroids.len() == 4 * x.centroids@.len());
    assert(read.partitions@.len() * read.dim * 4 == 4 * (read.partitions@.len() * read.dim)) by (nonlinear_arith);
    assert(centroids.subrange(0, 4 * x.centroids@.len() as int) =~= centroids);
    lemma_u32s_round_trip(x.centroids@, centroids, 0);
    if x.memtable.dim is None {
        assert(bare(read.partitions@)) by {
            assert forall|k: int| 0 <= k < read.partitions@.len() implies (
            #[trigger] read.partitions@[k]).chunks@.len() == 0 by {
                assert(read.partitions@[k].same(parts[k]));
                assert(parts[k].chunks@.len() == 0);
            }
        }
    }
}

proof fn lemma_same_is_placed(a: PartitionState, b: PartitionState, ng: int, width: int)
    requires
        b.same(a),
        a.wf(),
        a.placed(ng, width),
    ensures
        b.wf(),
        b.placed(ng, width),
{
    assert forall|k: int| 0 <= k < b.chunks@.len() implies {
        &&& (#[trigger] b.chunks@[k]).offset % 64 == 0
        &&& b.chunks@[k].offset + chunk_len(ng, width, b.chunks@[k].n_rows as int) <= b.limit(k)
    } by {
        assert(a.chunks@[k].offset % 64 == 0);
        assert(b.limit(k) == a.limit(k));
    }
}

} // verus!
