//! Merging trailing chunks, and rewriting partitions.
use vstd::prelude::*;
use crate::batch::{primary_count, Row, RowBatch};
use crate::bits::marked;
use crate::chunk::{
    chunk_bytes, chunk_len, chunk_lens, encode_chunk, lemma_chunk_bytes_len, lemma_chunk_starts,
};
use crate::flush::{new_entries, ChunkWrite};
use crate::fresh::FreshIndex;
use crate::math::ceil_div;
use crate::pack::n_byte_groups;
use crate::partition::{
    lemma_live_len, lemma_rows_between_len, lemma_rows_upto, live_of, rows_between, rows_upto, PartitionState,
};
use crate::partition_ops::folded;
use crate::runs::RunEntry;
use crate::sections::{aligned, start_by};
use crate::tier::{carry_from, reaches};
use crate::tuning::{after_write, count_on, counted, MaintenanceStats, WriteReason, TIER_MERGE_CHUNK_BACKSTOP};

verus! {

/// A partition can be written once more behind its file's end.
pub open spec fn rewritable(p: PartitionState, ng: int, width: int) -> bool {
    &&& p.n_rows <= u32::MAX
    &&& p.file_bytes + chunk_len(ng, width, p.n_rows as int) <= usize::MAX
}

/// Aligning keeps the order.
proof fn lemma_aligned_order(a: int, b: int, align: int)
    requires
        0 < align,
        a <= b,
    ensures
        aligned(a, align) <= aligned(b, align),
{
    let x = (a + (align - 1)) / align;
    let y = (b + (align - 1)) / align;
    assert(x <= y) by {
        vstd::arithmetic::div_mod::lemma_div_is_ordered(a + (align - 1), b + (align - 1), align);
    }
    assert(x * align <= y * align) by (nonlinear_arith)
        requires
            x <= y,
            0 < align,
    ;
}

/// Fewer rows take no more bytes.
pub proof fn lemma_chunk_len_order(ng: int, width: int, m: int, n: int)
    requires
        0 <= ng,
        0 <= width,
        0 <= m <= n,
    ensures
        chunk_len(ng, width, m) <= chunk_len(ng, width, n),
{
    let a = chunk_lens(ng, width, m);
    let b = chunk_lens(ng, width, n);
    let x = ceil_div(m, 32);
    let y = ceil_div(n, 32);
    assert(x * (ng * 32) <= y * (ng * 32)) by (nonlinear_arith)
        requires
            x <= y,
            0 <= ng,
    ;
    assert(m * width <= n * width) by (nonlinear_arith)
        requires
            m <= n,
            0 <= width,
    ;
    assert(a[0] == b[0] && a[1] <= b[1] && a[2] <= b[2] && a[3] <= b[3] && a[4] <= b[4] && a[5] <= b[5]);
    lemma_starts_order(a, b, 6);
    lemma_aligned_order(start_by(a, 8, 6), start_by(b, 8, 6), 64);
}

proof fn lemma_starts_order(a: Seq<int>, b: Seq<int>, k: int)
    requires
        0 <= k <= a.len(),
        a.len() == b.len(),
        a.len() == 6,
        a[0] <= b[0] && a[1] <= b[1] && a[2] <= b[2] && a[3] <= b[3] && a[4] <= b[4] && a[5] <= b[5],
    ensures
        start_by(a, 8, k) <= start_by(b, 8, k),
    decreases k,
{
    if k > 0 {
        lemma_starts_order(a, b, k - 1);
        assert(a[k - 1] <= b[k - 1]);
        lemma_aligned_order(a[k - 1], b[k - 1], 8);
    }
}

/// The sizes of a partition's chunks.
pub open spec fn chunk_sizes(p: PartitionState) -> Seq<u64> {
    Seq::new(p.chunks@.len(), |k: int| p.chunks@[k].n_rows as u64)
}

impl FreshIndex {
    /// The live rows of a partition's chunks from `from` on.
    pub open spec fn tail_rows(self, position: int, file: Seq<u8>, from: int) -> Seq<Row> {
        let p = self.partitions@[position];
        live_of(
            rows_between(
                self.flavor,
                file,
                p.chunks@,
                self.ng(),
                self.stored(),
                from,
                p.chunks@.len() as int,
            ),
            p.dead@,
            rows_upto(p.chunks@, from),
            false,
        )
    }

    /// Trailing chunks of this partition are to be merged from chunk `from`
    /// on.
    pub open spec fn merges_from(self, position: int, from: int) -> bool {
        let p = self.partitions@[position];
        &&& self.tuning.tier_merge_enabled
        &&& p.chunks@.len() >= 2
        &&& reaches(chunk_sizes(p), from)
        &&& from < p.chunks@.len() - 1
        &&& !(from == 0 && 2 * p.live_rows < p.n_rows)
    }

    /// Whether a partition can be written once more behind its file's end.
    pub fn can_rewrite(&self, position: usize) -> (r: bool)
        requires
            self.wf(),
            position < self.partitions@.len(),
        ensures
            r == rewritable(self.partitions@[position as int], self.ng(), self.stored()),
    {
        let dim: usize = self.dim();
        let width: usize = if self.store_vectors {
            dim
        } else {
            0
        };
        let ng: usize = n_byte_groups(self.bit_width, dim);
        let p: &PartitionState = &self.partitions[position];
        if p.n_rows > 0xFFFF_FFFF {
            return false;
        }
        let len: u128 = crate::reopen::chunk_len_wide(ng, width, p.n_rows as u32);
        proof {
            lemma_chunk_starts(ng as int, width as int, p.n_rows as int);
        }
        len <= usize::MAX as u128 && p.file_bytes as u128 <= usize::MAX as u128 - len
    }

    /// From which chunk on the trailing chunks of a partition are to be
    /// merged, if they are.
    pub fn merge_point(&self, position: usize) -> (r: Option<usize>)
        requires
            self.wf(),
            position < self.partitions@.len(),
        ensures
            match r {
                Some(from) => self.merges_from(position as int, from as int),
                None => forall|from: int| !#[trigger] self.merges_from(position as int, from),
            },
    {
        let p: &PartitionState = &self.partitions[position];
        let n: usize = p.chunks.len();
        if !self.tuning.tier_merge_enabled || n < 2 {
            return None;
        }
        let mut sizes: Vec<u64> = Vec::new();
        let mut k: usize = 0;
        while k < n
            invariant
                n == p.chunks@.len(),
                k <= n,
                sizes@ == chunk_sizes(*p).take(k as int),
            decreases n - k,
        {
            sizes.push(p.chunks[k].n_rows as u64);
            k = k + 1;
            assert(sizes@ =~= chunk_sizes(*p).take(k as int));
        }
        assert(sizes@ =~= chunk_sizes(*p));
        let from: usize = carry_from(&sizes);
        assert(p.wf());
        proof {
            crate::bits::lemma_marks_bound(p.dead@, 0, p.n_rows as int);
            assert forall|f: int| #[trigger] self.merges_from(position as int, f) implies f == from by {
                crate::tier::lemma_reaches_unique(sizes@, f, from as int);
            }
        }
        if from == n - 1 || (from == 0 && p.live_rows * 2 < p.n_rows) {
            return None;
        }
        Some(from)
    }

    /// All rows of a partition's chunks from `from` on.
    pub open spec fn trailing_rows(self, position: int, file: Seq<u8>, from: int) -> Seq<Row> {
        let p = self.partitions@[position];
        rows_between(self.flavor, file, p.chunks@, self.ng(), self.stored(), from, p.chunks@.len() as int)
    }

    /// Merges the trailing chunks of a partition from chunk `from` on: their
    /// rows are written once more as one chunk, and the old chunks stay behind
    /// in the file, where nothing refers to them. Dead rows come along, so that
    /// every row keeps its number and what is known of it stays true.
    pub fn tier_merge(&mut self, position: usize, from: usize, file: &[u8]) -> (w: ChunkWrite)
        requires
            old(self).wf(),
            position < old(self).partitions@.len(),
            old(self).merges_from(position as int, from as int),
            old(self).partitions@[position as int].file_bytes <= file@.len(),
            rewritable(old(self).partitions@[position as int], old(self).ng(), old(self).stored()),
        ensures
            final(self).wf(),
            final(self).partitions@.len() == old(self).partitions@.len(),
            forall|k: int|
                0 <= k < old(self).partitions@.len() && k != position
                    ==> #[trigger] final(self).partitions@[k] == old(self).partitions@[k],
            folded(
                old(self).partitions@[position as int],
                final(self).partitions@[position as int],
                from as int,
                w.bytes@.len() as int,
            ),
            w.partition_id == old(self).partitions@[position as int].partition_id,
            w.generation == old(self).partitions@[position as int].generation,
            w.offset == old(self).partitions@[position as int].file_bytes,
            exists|b: RowBatch|
                #![trigger b.wf()]
                b.wf() && b@ == old(self).trailing_rows(position as int, file@, from as int) && b.groups == old(
                    self,
                ).ng() && b.width == old(self).stored() && w.bytes@ == chunk_bytes(old(self).flavor, b),
            *final(self) == (FreshIndex {
                partitions: final(self).partitions,
                stats: after_write(
                    MaintenanceStats {
                        tier_merges: counted(old(self).stats.tier_merges, 1),
                        ..old(self).stats
                    },
                    WriteReason::TierMerge,
                    old(self).trailing_rows(position as int, file@, from as int).len() as u64,
                    w.bytes@.len() as u64,
                ),
                ..*old(self)
            }),
    {
        let dim: usize = self.dim();
        let width: usize = if self.store_vectors {
            dim
        } else {
            0
        };
        let ng: usize = n_byte_groups(self.bit_width, dim);
        let ghost p0 = self.partitions@[position as int];
        proof {
            assert(p0.wf() && p0.placed(self.ng(), self.stored()));
        }
        let rows: RowBatch = self.partitions[position].read_rows_from(self.flavor, file, ng, width, from);
        let n: usize = rows.len();
        proof {
            let m = p0.chunks@.len() as int;
            lemma_rows_between_len(
                self.flavor,
                file@,
                p0.chunks@,
                self.ng(),
                self.stored(),
                from as int,
                m,
            );
            lemma_rows_upto(p0.chunks@, from as int, m);
            lemma_chunk_len_order(self.ng(), self.stored(), n as int, p0.n_rows as int);
            lemma_chunk_starts(self.ng(), self.stored(), n as int);
            lemma_chunk_bytes_len(self.flavor, rows);
        }
        let partition_id: u32 = self.partitions[position].partition_id;
        let generation: u32 = self.partitions[position].generation;
        let offset: u64 = self.partitions[position].file_bytes;
        let bytes: Vec<u8> = encode_chunk(self.flavor, &rows);
        let len: usize = bytes.len();
        self.stats.tier_merges = count_on(self.stats.tier_merges, 1);
        self.stats.record_write(WriteReason::TierMerge, n as u64, len as u64);
        self.partitions[position].fold(from, len as u64);
        proof {
            let a = old(self).partitions@;
            let b = self.partitions@;
            assert forall|k: int| 0 <= k < b.len() implies (#[trigger] b[k]).wf() && b[k].placed(
                self.ng(),
                self.stored(),
            ) by {
                assert(a[k].wf() && a[k].placed(self.ng(), self.stored()));
            }
            assert forall|k: int| 0 <= k < b.len() implies (#[trigger] b[k]).partition_id
                < self.next_partition_id by {
                assert(a[k].partition_id < self.next_partition_id);
            }
            assert forall|i: int, j: int| 0 <= i < j < b.len() implies (#[trigger] b[i]).partition_id != (
            #[trigger] b[j]).partition_id by {
                assert(a[i].partition_id != a[j].partition_id);
            }
            assert(rows.wf());
        }
        ChunkWrite { partition_id, generation, offset, bytes }
    }

    /// A partition is to be rewritten.
    pub open spec fn is_victim(self, position: int, over_dead: Seq<bool>, over_garbage: Seq<bool>) -> bool {
        let ceiling = if self.tuning.tier_merge_enabled && self.tuning.gc_max_chunks
            < TIER_MERGE_CHUNK_BACKSTOP {
            TIER_MERGE_CHUNK_BACKSTOP
        } else {
            self.tuning.gc_max_chunks
        };
        ||| over_dead[position]
        ||| over_garbage[position]
        ||| self.partitions@[position].chunks@.len() > ceiling
    }

    /// The partitions before `n` that are to be rewritten.
    pub open spec fn victims_upto(self, over_dead: Seq<bool>, over_garbage: Seq<bool>, n: int) -> Seq<usize>
        decreases n,
    {
        if n <= 0 {
            Seq::empty()
        } else if self.is_victim(n - 1, over_dead, over_garbage) {
            self.victims_upto(over_dead, over_garbage, n - 1).push((n - 1) as usize)
        } else {
            self.victims_upto(over_dead, over_garbage, n - 1)
        }
    }

    /// The partitions that one flush rewrites: those with too many dead rows,
    /// too many unreferenced bytes or too many chunks, as far as the budget
    /// goes.
    pub fn garbage_victims(&self, over_dead: &[bool], over_garbage: &[bool]) -> (r: Vec<usize>)
        requires
            over_dead@.len() == self.partitions@.len(),
            over_garbage@.len() == self.partitions@.len(),
        ensures
            ({
                let all = self.victims_upto(
                    over_dead@,
                    over_garbage@,
                    self.partitions@.len() as int,
                );
                let cap = self.tuning.max_rewrites_per_flush as int;
                r@ == if cap == 0 || all.len() <= cap {
                    all
                } else {
                    all.take(cap)
                }
            }),
    {
        let ceiling: usize = self.tuning.chunk_ceiling();
        let mut r: Vec<usize> = Vec::new();
        let mut k: usize = 0;
        while k < self.partitions.len()
            invariant
                over_dead@.len() == self.partitions@.len(),
                over_garbage@.len() == self.partitions@.len(),
                k <= self.partitions@.len(),
                ceiling == (if self.tuning.tier_merge_enabled && self.tuning.gc_max_chunks
                    < TIER_MERGE_CHUNK_BACKSTOP {
                    TIER_MERGE_CHUNK_BACKSTOP
                } else {
                    self.tuning.gc_max_chunks
                }),
                r@ == self.victims_upto(over_dead@, over_garbage@, k as int),
            decreases self.partitions.len() - k,
        {
            if over_dead[k] || over_garbage[k] || self.partitions[k].chunks.len() > ceiling {
                r.push(k);
            }
            k = k + 1;
        }
        let cap: usize = self.tuning.max_rewrites_per_flush;
        if cap > 0 && r.len() > cap {
            r.truncate(cap);
        }
        r
    }

    /// Rewrites the live rows of a partition as one chunk of a new file.
    /// Returns the generation of the old file and the write to the new one.
    pub fn compact(&mut self, position: usize, file: &[u8], entries: &mut Vec<RunEntry>) -> (r: (
        u32,
        Option<ChunkWrite>,
    ))
        requires
            old(self).wf(),
            old(self).memtable.dim is Some,
            position < old(self).partitions@.len(),
            old(self).partitions@[position as int].file_bytes <= file@.len(),
            old(self).partitions@[position as int].generation < u32::MAX,
            rewritable(old(self).partitions@[position as int], old(self).ng(), old(self).stored()),
        ensures
            final(self).wf(),
            r.0 == old(self).partitions@[position as int].generation,
            final(self).partitions@.len() == old(self).partitions@.len(),
            forall|k: int|
                0 <= k < old(self).partitions@.len() && k != position
                    ==> #[trigger] final(self).partitions@[k] == old(self).partitions@[k],
            ({
                let before = old(self).partitions@[position as int];
                let after = final(self).partitions@[position as int];
                let live = old(self).tail_rows(position as int, file@, 0);
                &&& after.partition_id == before.partition_id
                &&& after.generation == before.generation + 1
                &&& after.n_rows == live.len()
                &&& after.live_rows == live.len()
                &&& after.live_primary == primary_count(live)
                &&& forall|q: int| 0 <= q ==> !#[trigger] marked(after.dead@, q)
                &&& live.len() == 0 ==> after.chunks@.len() == 0 && after.file_bytes == 0
                &&& live.len() > 0 ==> after.chunks@.len() == 1 && after.file_bytes == chunk_len(
                    old(self).ng(),
                    old(self).stored(),
                    live.len() as int,
                )
                &&& r.1 is Some <==> live.len() > 0
                &&& final(entries)@ == old(entries)@ + new_entries(
                    live,
                    after.partition_id,
                    after.generation,
                    0,
                )
                &&& r.1 is Some ==> {
                    &&& (r.1->0).partition_id == before.partition_id
                    &&& (r.1->0).generation == before.generation + 1
                    &&& (r.1->0).offset == 0
                    &&& exists|b: RowBatch|
                        #![trigger b.wf()]
                        b.wf() && b@ == live && b.groups == old(self).ng() && b.width == old(self).stored()
                            && (r.1->0).bytes@ == chunk_bytes(old(self).flavor, b)
                }
            }),
            ({
                let s = MaintenanceStats {
                    compactions: counted(old(self).stats.compactions, 1),
                    ..old(self).stats
                };
                final(self).stats == match r.1 {
                    None => s,
                    Some(x) => after_write(
                        s,
                        WriteReason::Compact,
                        old(self).tail_rows(position as int, file@, 0).len() as u64,
                        x.bytes@.len() as u64,
                    ),
                }
            }),
            *final(self) == (FreshIndex {
                partitions: final(self).partitions,
                stats: final(self).stats,
                ..*old(self)
            }),
    {
        let dim: usize = self.dim();
        let width: usize = if self.store_vectors {
            dim
        } else {
            0
        };
        let ng: usize = n_byte_groups(self.bit_width, dim);
        let ghost p0 = self.partitions@[position as int];
        proof {
            assert(p0.wf() && p0.placed(self.ng(), self.stored()));
            assert(rows_upto(p0.chunks@, 0) == 0);
        }
        let (rows, _) = self.partitions[position].read_live_from(
            self.flavor,
            file,
            ng,
            width,
            0,
            false,
        );
        let generation: u32 = self.partitions[position].generation;
        proof {
            let n = p0.chunks@.len() as int;
            let all = rows_between(self.flavor, file@, p0.chunks@, self.ng(), self.stored(), 0, n);
            lemma_rows_between_len(self.flavor, file@, p0.chunks@, self.ng(), self.stored(), 0, n);
            lemma_live_len(all, p0.dead@, 0);
            crate::bits::lemma_marks_bound(p0.dead@, 0, all.len() as int);
            lemma_chunk_len_order(self.ng(), self.stored(), rows@.len() as int, p0.n_rows as int);
        }
        self.partitions[position].restart();
        self.stats.compactions = count_on(self.stats.compactions, 1);
        let ghost mid = self.partitions@[position as int];
        proof {
            let a = old(self).partitions@;
            let b = self.partitions@;
            assert forall|k: int| 0 <= k < b.len() implies (#[trigger] b[k]).wf() && b[k].placed(
                self.ng(),
                self.stored(),
            ) by {
                assert(a[k].wf() && a[k].placed(self.ng(), self.stored()));
            }
            assert forall|k: int| 0 <= k < b.len() implies (#[trigger] b[k]).partition_id
                < self.next_partition_id by {
                assert(a[k].partition_id < self.next_partition_id);
            }
            assert forall|i: int, j: int| 0 <= i < j < b.len() implies (#[trigger] b[i]).partition_id != (
            #[trigger] b[j]).partition_id by {
                assert(a[i].partition_id != a[j].partition_id);
            }
            assert(self.wf());
        }
        let w: Option<ChunkWrite> = self.append_chunk(position, &rows, entries, WriteReason::Compact);
        proof {
            assert(rows.wf());
            assert forall|q: int| 0 <= q implies !#[trigger] marked(
                self.partitions@[position as int].dead@,
                q,
            ) by {
                assert(!marked(mid.dead@, q));
            }
        }
        (generation, w)
    }
}

} // verus!
