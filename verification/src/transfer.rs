//! Moving whole indexes: from a segment file into partitions, and out to plain
//! codes.
use vstd::prelude::*;
use vstd::slice::slice_subrange;
use crate::batch::{lemma_row_bounds, row_of, Row, RowBatch};
use crate::bits::marked;
use crate::chunk::{chunk_len, lemma_chunk_bytes_len, stored_width};
use crate::flush::{new_entries, ChunkWrite};
use crate::fresh::FreshIndex;
use crate::pack::{
    blocked, groups, n_byte_groups, packed_from_group_bytes, planes_of_rows, repack, Layout,
};
use crate::partition::PartitionState;
use crate::restructure::{holds_only, just_made};
use crate::runs::RunEntry;
use crate::segment::{lemma_rows_before_monotone, rows_before, Segment};
use crate::tuning::{after_write, default_tuning, zero_stats, MaintenanceStats, WriteReason};

verus! {

impl RowBatch {
    /// The rows `from..to`.
    pub fn slice(&self, from: usize, to: usize) -> (r: RowBatch)
        requires
            self.wf(),
            from <= to <= self@.len(),
        ensures
            r.wf(),
            r.groups == self.groups,
            r.width == self.width,
            r@ == self@.subrange(from as int, to as int),
    {
        let mut r: RowBatch = RowBatch::new(self.groups, self.width);
        let mut i: usize = from;
        assert(r@ =~= self@.subrange(from as int, from as int));
        while i < to
            invariant
                self.wf(),
                from <= i <= to,
                to <= self@.len(),
                r.wf(),
                r.groups == self.groups,
                r.width == self.width,
                r@ == self@.subrange(from as int, i as int),
            decreases to - i,
        {
            r.push_from(self, i, self.replica[i]);
            i = i + 1;
            assert(r@ =~= self@.subrange(from as int, i as int));
        }
        r
    }

    /// Appends the rows of another batch.
    pub fn extend(&mut self, more: &RowBatch)
        requires
            old(self).wf(),
            more.wf(),
            more.groups == old(self).groups,
            more.width == old(self).width,
        ensures
            final(self).wf(),
            final(self).groups == old(self).groups,
            final(self).width == old(self).width,
            final(self)@ == old(self)@ + more@,
    {
        let ghost start = self@;
        let mut i: usize = 0;
        assert(self@ =~= start + more@.take(0));
        while i < more.ids.len()
            invariant
                self.wf(),
                more.wf(),
                more.groups == self.groups,
                more.width == self.width,
                self.groups == old(self).groups,
                self.width == old(self).width,
                i <= more.ids@.len(),
                self@ == start + more@.take(i as int),
            decreases more.ids.len() - i,
        {
            self.push_from(more, i, more.replica[i]);
            i = i + 1;
            assert(self@ =~= start + more@.take(i as int));
        }
        assert(more@.take(i as int) =~= more@);
    }
}

/// The rows of a segment, in slot order.
pub open spec fn segment_rows(s: Segment) -> Seq<Row> {
    Seq::new(
        s.ids@.len(),
        |i: int|
            Row {
                codes: row_of(s.rows@, i, s.ng()),
                scale: s.scales@[i],
                id: s.ids@[i],
                replica: s.replica@[i],
                vector: row_of(s.vectors@, i, stored_width(s.dim as int, s.has_vectors)),
            },
    )
}

/// The rows of partition `p` of a segment.
pub open spec fn rows_of_partition(s: Segment, p: int) -> Seq<Row> {
    segment_rows(s).subrange(rows_before(s.counts@, p), rows_before(s.counts@, p + 1))
}

fn segment_batch(s: Segment) -> (b: RowBatch)
    requires
        s.shaped(),
    ensures
        b.wf(),
        b.groups == s.ng(),
        b.width == stored_width(s.dim as int, s.has_vectors),
        b@ == segment_rows(s),
{
    let ng: usize = n_byte_groups(s.bit_width, s.dim);
    let width: usize = if s.has_vectors {
        s.dim
    } else {
        0
    };
    let ghost n = s.ids@.len() as int;
    assert(n * 0 == 0) by (nonlinear_arith);
    let ghost rows = segment_rows(s);
    let b = RowBatch {
        groups: ng,
        width,
        group_rows: s.rows,
        scales: s.scales,
        ids: s.ids,
        replica: s.replica,
        vectors: s.vectors,
    };
    assert(b@ =~= rows);
    b
}

/// The entries of the partitions before `p`.
pub open spec fn imported_entries(s: Segment, p: int) -> Seq<RunEntry>
    decreases p,
{
    if p <= 0 {
        Seq::empty()
    } else {
        imported_entries(s, p - 1) + new_entries(rows_of_partition(s, p - 1), (p - 1) as u32, 0, 0)
    }
}

/// A partition that holds rows of a segment, or none.
pub open spec fn imported(p: PartitionState, id: u32, rows: Seq<Row>, ng: int, width: int) -> bool {
    if rows.len() == 0 {
        just_made(p, id)
    } else {
        holds_only(p, id, rows, ng, width)
    }
}

/// The partitions before `k` that hold rows.
pub open spec fn filled_parts(s: Segment, k: int) -> Seq<int>
    decreases k,
{
    if k <= 0 {
        Seq::empty()
    } else if rows_of_partition(s, k - 1).len() > 0 {
        filled_parts(s, k - 1).push(k - 1)
    } else {
        filled_parts(s, k - 1)
    }
}

/// The write that fills the segment file of a partition.
pub open spec fn import_write(w: ChunkWrite, s: Segment, p: int) -> bool {
    &&& w.partition_id == p
    &&& w.generation == 0
    &&& w.offset == 0
    &&& exists|b: RowBatch|
        #![trigger b.wf()]
        b.wf() && b@ == rows_of_partition(s, p) && b.groups == s.ng() && b.width == stored_width(
            s.dim as int,
            s.has_vectors,
        ) && w.bytes@ == crate::chunk::chunk_bytes(s.flavor, b)
}

/// One write for each partition before `k` that holds rows.
pub open spec fn import_writes(writes: Seq<ChunkWrite>, s: Segment, k: int) -> bool {
    &&& writes.len() == filled_parts(s, k).len()
    &&& forall|j: int|
        0 <= j < writes.len() ==> import_write(#[trigger] writes[j], s, filled_parts(s, k)[j])
}

/// A segment whose partitions fit into segment files of their own.
pub open spec fn importable(s: Segment) -> bool {
    &&& s.shaped()
    &&& s.counts@.len() < u32::MAX
    &&& s.dim == 0 ==> s.counts@.len() * 0xFFFF_FFFF <= usize::MAX
    &&& forall|p: int|
        0 <= p < s.counts@.len() ==> (#[trigger] s.counts@[p]) <= u32::MAX && chunk_len(
            s.ng(),
            stored_width(s.dim as int, s.has_vectors),
            s.counts@[p] as int,
        ) <= usize::MAX
}

impl Segment {
    /// Whether the partitions fit into segment files of their own.
    pub fn is_importable(&self) -> (r: bool)
        requires
            self.shaped(),
        ensures
            r == importable(*self),
    {
        let nlist: usize = self.counts.len();
        let ng: usize = n_byte_groups(self.bit_width, self.dim);
        let width: usize = if self.has_vectors {
            self.dim
        } else {
            0
        };
        if nlist >= u32::MAX as usize {
            return false;
        }
        if self.dim == 0 && nlist as u128 * 0xFFFF_FFFF > usize::MAX as u128 {
            return false;
        }
        let mut p: usize = 0;
        while p < nlist
            invariant
                self.shaped(),
                nlist == self.counts@.len(),
                p <= nlist,
                ng == self.ng(),
                width == stored_width(self.dim as int, self.has_vectors),
                width <= 0xFFFF_FFFF,
                ng <= 0xFFFF_FFFF,
                forall|k: int|
                    0 <= k < p ==> (#[trigger] self.counts@[k]) <= u32::MAX && chunk_len(
                        ng as int,
                        width as int,
                        self.counts@[k] as int,
                    ) <= usize::MAX,
            decreases nlist - p,
        {
            let n: u64 = self.counts[p];
            if n > u32::MAX as u64 {
                assert(self.counts@[p as int] > u32::MAX);
                return false;
            }
            if crate::reopen::chunk_len_wide(ng, width, n as u32) > usize::MAX as u128 {
                assert(chunk_len(ng as int, width as int, self.counts@[p as int] as int) > usize::MAX);
                return false;
            }
            p = p + 1;
        }
        true
    }
}

/// The counters after the first `n` partitions of a segment are written.
pub open spec fn import_stats(s: Segment, n: int) -> MaintenanceStats
    decreases n,
{
    if n <= 0 {
        zero_stats()
    } else {
        let before = import_stats(s, n - 1);
        let rows = rows_of_partition(s, n - 1).len();
        if rows == 0 {
            before
        } else {
            after_write(
                before,
                WriteReason::Import,
                rows as u64,
                chunk_len(s.ng(), stored_width(s.dim as int, s.has_vectors), rows as int) as u64,
            )
        }
    }
}

impl FreshIndex {
    /// Appends partition `p` of a segment.
    fn import_partition(
        &mut self,
        centroid: &[u32],
        rows: &RowBatch,
        entries: &mut Vec<RunEntry>,
    ) -> (w: Option<ChunkWrite>)
        requires
            old(self).wf(),
            old(self).memtable.dim is Some,
            centroid@.len() == old(self).memtable.width(),
            old(self).next_partition_id < u32::MAX,
            rows.wf(),
            rows.groups == old(self).ng(),
            rows.width == old(self).stored(),
            rows@.len() <= u32::MAX,
            chunk_len(old(self).ng(), old(self).stored(), rows@.len() as int) <= usize::MAX,
        ensures
            final(self).wf(),
            w is Some <==> rows@.len() > 0,
            w is Some ==> {
                &&& (w->0).partition_id == old(self).next_partition_id
                &&& (w->0).generation == 0
                &&& (w->0).offset == 0
                &&& (w->0).bytes@ == crate::chunk::chunk_bytes(old(self).flavor, *rows)
            },
            final(self).partitions@.len() == old(self).partitions@.len() + 1,
            forall|k: int|
                0 <= k < old(self).partitions@.len() ==> #[trigger] final(self).partitions@[k] == old(
                    self,
                ).partitions@[k],
            imported(
                final(self).partitions@[old(self).partitions@.len() as int],
                old(self).next_partition_id,
                rows@,
                old(self).ng(),
                old(self).stored(),
            ),
            final(self).centroids@ == old(self).centroids@ + centroid@,
            final(entries)@ == old(entries)@ + new_entries(rows@, old(self).next_partition_id, 0, 0),
            *final(self) == (FreshIndex {
                partitions: final(self).partitions,
                centroids: final(self).centroids,
                centroids_dirty: true,
                next_partition_id: (old(self).next_partition_id + 1) as u32,
                stats: if rows@.len() == 0 {
                    old(self).stats
                } else {
                    after_write(
                        old(self).stats,
                        WriteReason::Import,
                        rows@.len() as u64,
                        chunk_len(old(self).ng(), old(self).stored(), rows@.len() as int) as u64,
                    )
                },
                ..*old(self)
            }),
    {
        let at: usize = self.create_partition(centroid);
        let ghost fresh = self.partitions@[at as int];
        let w: Option<ChunkWrite> = self.append_chunk(at, rows, entries, WriteReason::Import);
        proof {
            lemma_chunk_bytes_len(self.flavor, *rows);
            let p = self.partitions@[at as int];
            if rows@.len() > 0 {
                assert(p.chunks@ =~= seq![
                    crate::partition::ChunkMeta { offset: 0, n_rows: rows@.len() as u32 },
                ]);
                assert forall|q: int| 0 <= q implies !#[trigger] marked(p.dead@, q) by {
                    assert(marked(p.dead@, q) == marked(fresh.dead@, q));
                }
            }
        }
        w
    }

    /// The partitions of a segment without a dimensionality.
    fn import_bare(&mut self, n: usize)
        requires
            old(self).wf(),
            old(self).memtable.dim is None,
            old(self).partitions@.len() == 0,
            old(self).next_partition_id == 0,
            n < u32::MAX,
            n * 0xFFFF_FFFF <= usize::MAX,
        ensures
            final(self).wf(),
            final(self).partitions@.len() == n,
            forall|k: int| 0 <= k < n ==> just_made(#[trigger] final(self).partitions@[k], k as u32),
            *final(self) == (FreshIndex {
                partitions: final(self).partitions,
                next_partition_id: n as u32,
                ..*old(self)
            }),
    {
        let mut parts: Vec<PartitionState> = Vec::new();
        let mut k: usize = 0;
        while k < n
            invariant
                n < u32::MAX,
                k <= n,
                parts@.len() == k,
                forall|j: int| 0 <= j < k ==> just_made(#[trigger] parts@[j], j as u32) && parts@[j].wf(),
            decreases n - k,
        {
            parts.push(PartitionState::new(k as u32));
            k = k + 1;
        }
        self.partitions = parts;
        self.next_partition_id = n as u32;
        proof {
            let w = self.memtable.width();
            assert(n * w == 0) by (nonlinear_arith)
                requires
                    w == 0,
            ;
            assert(0 * w == 0) by (nonlinear_arith);
        }
    }

    /// An index over the contents of a segment: codes, scales, calibration,
    /// ids, replicas, stored vectors, centroids and partitioning carry over.
    /// Returns the writes that fill the segment files too.
    pub fn import(s: Segment) -> (r: (FreshIndex, Vec<ChunkWrite>))
        requires
            importable(s),
        ensures
            r.0.wf(),
            r.0.flavor == s.flavor,
            r.0.bit_width == s.bit_width,
            r.0.memtable.width() == s.dim,
            r.0.memtable.ids@.len() == 0,
            r.0.store_vectors == s.has_vectors,
            r.0.replica_epsilon == s.replica_epsilon,
            r.0.partition_target == s.partition_target,
            r.0.tqplus_shift@ == s.tqplus_shift@,
            r.0.tqplus_scale@ == s.tqplus_scale@,
            r.0.clustered == (s.counts@.len() > 1),
            r.0.epoch == 1,
            r.0.tuning == default_tuning(),
            r.0.churn_since_check == 0,
            r.0.centroids_generation == 0,
            r.0.centroids_dirty,
            r.0.next_partition_id == s.counts@.len(),
            r.0.stats == import_stats(s, s.counts@.len() as int),
            r.0.partitions@.len() == s.counts@.len(),
            r.0.centroids@ == s.centroids@,
            forall|p: int|
                0 <= p < s.counts@.len() ==> imported(
                    #[trigger] r.0.partitions@[p],
                    p as u32,
                    rows_of_partition(s, p),
                    r.0.ng(),
                    r.0.stored(),
                ),
            import_writes(r.1@, s, s.counts@.len() as int),
            imported_entries(s, s.counts@.len() as int).len() > 0 ==> {
                &&& r.0.runs@.len() == 1
                &&& r.0.runs@[0].bytes@ == crate::runs::run_bytes(
                    crate::runs::by_id(imported_entries(s, s.counts@.len() as int)),
                )
                &&& crate::runs::entries_in(r.0.runs@[0].bytes@) == crate::runs::by_id(
                    imported_entries(s, s.counts@.len() as int),
                )
            },
            imported_entries(s, s.counts@.len() as int).len() == 0 ==> r.0.runs@.len() == 0,
    {
        let dim: usize = s.dim;
        let flavor: Layout = s.flavor;
        let nlist: usize = s.counts.len();
        let bit_width: usize = s.bit_width;
        let dim_opt: Option<usize> = if dim > 0 {
            Some(dim)
        } else {
            None
        };
        let has_vectors: bool = s.has_vectors;
        let ghost s0 = s;
        let mut shift: Vec<u32> = Vec::new();
        shift.extend_from_slice(s.tqplus_shift.as_slice());
        assert(shift@ =~= s.tqplus_shift@);
        let mut scale: Vec<u32> = Vec::new();
        scale.extend_from_slice(s.tqplus_scale.as_slice());
        assert(scale@ =~= s.tqplus_scale@);
        let mut x = FreshIndex {
            flavor,
            bit_width,
            store_vectors: has_vectors,
            clustered: nlist > 1,
            tqplus_shift: shift,
            tqplus_scale: scale,
            centroids: Vec::new(),
            partitions: Vec::new(),
            runs: Vec::new(),
            memtable: crate::delta::Delta::empty(dim_opt, Vec::new(), Vec::new()),
            replica_epsilon: s.replica_epsilon,
            partition_target: s.partition_target,
            tuning: crate::tuning::MaintenanceTuning::default(),
            stats: crate::tuning::MaintenanceStats::default(),
            epoch: 1,
            centroids_generation: 0,
            centroids_dirty: true,
            next_partition_id: 0,
            next_run_generation: 0,
            churn_since_check: 0,
        };
        let mut writes: Vec<ChunkWrite> = Vec::new();
        let mut entries: Vec<RunEntry> = Vec::new();
        proof {
            let w = x.memtable.width();
            assert(0 * w == 0) by (nonlinear_arith);
            assert(x.wf());
        }
        if dim == 0 {
            x.import_bare(nlist);
            proof {
                lemma_no_rows(s0, nlist as int);
                assert(nlist * dim == 0) by (nonlinear_arith)
                    requires
                        dim == 0,
                ;
                assert(x.centroids@ =~= s0.centroids@);
                assert forall|k: int| 0 <= k < nlist implies imported(
                    #[trigger] x.partitions@[k],
                    k as u32,
                    rows_of_partition(s0, k),
                    x.ng(),
                    x.stored(),
                ) by {
                    lemma_no_rows(s0, k + 1);
                }
            }
            return (x, writes);
        }
        let mut counts: Vec<u64> = Vec::new();
        counts.extend_from_slice(s.counts.as_slice());
        assert(counts@ =~= s.counts@);
        let mut centroids: Vec<u32> = Vec::new();
        centroids.extend_from_slice(s.centroids.as_slice());
        assert(centroids@ =~= s.centroids@);
        let clen: usize = centroids.len();
        let all: RowBatch = segment_batch(s);
        let total: usize = all.len();
        let mut slot: usize = 0;
        let mut p: usize = 0;
        proof {
            assert(0 * dim == 0) by (nonlinear_arith);
            assert(centroids@.take(0) =~= x.centroids@);
            assert(entries@ =~= imported_entries(s0, 0));
        }
        while p < nlist
            invariant
                importable(s0),
                dim > 0,
                s0.dim == dim,
                s0.counts@ == counts@,
                s0.centroids@ == centroids@,
                nlist == counts@.len(),
                clen == centroids@.len(),
                clen == nlist * dim,
                all.wf(),
                all@ == segment_rows(s0),
                total == all@.len(),
                all.groups == x.ng(),
                all.width == x.stored(),
                p <= nlist,
                slot == rows_before(counts@, p as int),
                x.wf(),
                x.memtable.dim == Some(dim),
                x.memtable.ids@.len() == 0,
                x.flavor == s0.flavor,
                x.bit_width == s0.bit_width,
                x.store_vectors == s0.has_vectors,
                x.replica_epsilon == s0.replica_epsilon,
                x.partition_target == s0.partition_target,
                x.tqplus_shift@ == s0.tqplus_shift@,
                x.tqplus_scale@ == s0.tqplus_scale@,
                x.clustered == (nlist > 1),
                x.epoch == 1,
                x.tuning == default_tuning(),
                x.runs@.len() == 0,
                x.next_run_generation == 0,
                x.churn_since_check == 0,
                x.centroids_generation == 0,
                x.centroids_dirty,
                x.next_partition_id == p,
                x.partitions@.len() == p,
                x.centroids@ == centroids@.take(p * dim),
                entries@ == imported_entries(s0, p as int),
                import_writes(writes@, s0, p as int),
                x.stats == import_stats(s0, p as int),
                forall|k: int|
                    0 <= k < p ==> imported(
                        #[trigger] x.partitions@[k],
                        k as u32,
                        rows_of_partition(s0, k),
                        x.ng(),
                        x.stored(),
                    ),
            decreases nlist - p,
        {
            proof {
                lemma_row_bounds(p as int, nlist as int, dim as int);
                lemma_rows_before_monotone(counts@, p as int, p + 1);
                lemma_rows_before_monotone(counts@, p + 1, nlist as int);
                assert(counts@[p as int] <= u32::MAX);
            }
            let n: usize = counts[p] as usize;
            let rows: RowBatch = all.slice(slot, slot + n);
            assert(rows@ == rows_of_partition(s0, p as int));
            let at: usize = p * dim;
            let ghost before = x.partitions@;
            let ghost done = writes@;
            let w: Option<ChunkWrite> = x.import_partition(
                slice_subrange(centroids.as_slice(), at, at + dim),
                &rows,
                &mut entries,
            );
            if let Some(w) = w {
                writes.push(w);
            }
            proof {
                let was = filled_parts(s0, p as int);
                let is = filled_parts(s0, p + 1);
                assert(rows.wf());
                assert forall|j: int| 0 <= j < writes@.len() implies import_write(
                    #[trigger] writes@[j],
                    s0,
                    is[j],
                ) by {
                    if j < done.len() {
                        assert(writes@[j] == done[j] && is[j] == was[j]);
                    }
                }
                assert(centroids@.take(p * dim) + centroids@.subrange(p * dim, p * dim + dim)
                    =~= centroids@.take((p + 1) * dim));
                assert forall|k: int| 0 <= k < p + 1 implies imported(
                    #[trigger] x.partitions@[k],
                    k as u32,
                    rows_of_partition(s0, k),
                    x.ng(),
                    x.stored(),
                ) by {
                    if k < p {
                        assert(x.partitions@[k] == before[k]);
                    }
                }
            }
            slot = slot + n;
            p = p + 1;
        }
        assert(centroids@.take(p * dim) =~= centroids@);
        if entries.len() > 0 {
            x.write_run(&entries);
        }
        (x, writes)
    }
}

/// A segment without a dimensionality has no rows.
proof fn lemma_no_rows(s: Segment, p: int)
    requires
        s.shaped(),
        s.dim == 0,
        0 <= p <= s.counts@.len(),
    ensures
        imported_entries(s, p).len() == 0,
        filled_parts(s, p).len() == 0,
        p > 0 ==> rows_of_partition(s, p - 1).len() == 0,
        import_stats(s, p) == zero_stats(),
    decreases p,
{
    if p > 0 {
        lemma_no_rows(s, p - 1);
        lemma_rows_before_monotone(s.counts@, p - 1, p);
        lemma_rows_before_monotone(s.counts@, p, s.counts@.len() as int);
        lemma_rows_before_monotone(s.counts@, 0, p - 1);
    }
}

/// The codes of rows as blocks of sequential lanes, for a flat file.
pub fn export_codes(rows: &RowBatch, bit_width: usize, dim: usize) -> (codes: Vec<u8>)
    requires
        rows.wf(),
        2 <= bit_width <= 4,
        dim % 8 == 0,
        rows.groups == groups(bit_width as int, dim as int),
        rows@.len() + 63 <= usize::MAX,
        crate::math::ceil_div(rows@.len() as int, 32) * (rows.groups * 32) <= usize::MAX,
    ensures
        codes@ == blocked(
            Layout::Sequential,
            crate::pack::group_rows(
                planes_of_rows(rows.group_rows@, rows@.len() as int, bit_width as int, dim as int),
                rows@.len() as int,
                bit_width as int,
                dim as int,
            ),
            rows@.len() as int,
            groups(bit_width as int, dim as int),
        ),
{
    let n: usize = rows.len();
    let packed: Vec<u8> = packed_from_group_bytes(rows.group_rows.as_slice(), n, bit_width, dim);
    assert(packed.len() == packed@.len());
    proof {
        let w = bit_width * (dim / 8);
        assert(0 <= n * w) by (nonlinear_arith)
            requires
                0 <= n,
                0 <= w,
        ;
    }
    let (codes, blocks) = repack(packed.as_slice(), n, bit_width, dim, Layout::Sequential);
    codes
}

} // verus!
