//! Writing rows to partitions, and the steps of a flush.
use vstd::prelude::*;
use crate::batch::{primary_count, row_of, Row, RowBatch};
use crate::bits::marked;
use crate::chunk::{chunk_bytes, chunk_len, encode_chunk, lemma_chunk_starts, stored_width};
use crate::copies::{generations, tables, Run};
use crate::delta::Delta;
use crate::fresh::FreshIndex;
use crate::pack::{group_bytes, group_rows, groups, n_byte_groups};
use crate::partition::{ChunkMeta, PartitionState, MAX_ROWS};
use crate::runs::{by_id, encode_run, entries_in, is_run, run_bytes, RunEntry, ENTRY_FLAG_REPLICA};
use crate::tuning::{after_write, WriteReason};
use crate::write::ONE_BITS;

verus! {

/// Bytes that go to a segment file, which ends at `offset` before.
pub struct ChunkWrite {
    pub partition_id: u32,
    pub generation: u32,
    pub offset: u64,
    pub bytes: Vec<u8>,
}

/// The entries of rows that are written from row `base` on.
pub open spec fn new_entries(rows: Seq<Row>, partition_id: u32, generation: u32, base: int) -> Seq<RunEntry> {
    Seq::new(
        rows.len(),
        |i: int|
            RunEntry {
                id: rows[i].id,
                partition_id,
                generation,
                row: (base + i) as u32,
                flags: if rows[i].replica {
                    ENTRY_FLAG_REPLICA
                } else {
                    0
                },
            },
    )
}

/// A partition can take `n` more rows.
pub open spec fn has_room(p: PartitionState, ng: int, width: int, n: int) -> bool {
    &&& p.n_rows + n <= MAX_ROWS
    &&& n <= u32::MAX
    &&& p.file_bytes + chunk_len(ng, width, n) <= usize::MAX
}

/// `b` is `a` with `rows` appended.
pub open spec fn appended(a: PartitionState, b: PartitionState, rows: Seq<Row>, ng: int, width: int) -> bool {
    if rows.len() == 0 {
        b == a
    } else {
        &&& b.partition_id == a.partition_id
        &&& b.generation == a.generation
        &&& b.n_rows == a.n_rows + rows.len()
        &&& b.live_rows == a.live_rows + rows.len()
        &&& b.live_primary == a.live_primary + primary_count(rows)
        &&& b.chunks@ == a.chunks@.push(ChunkMeta { offset: a.file_bytes, n_rows: rows.len() as u32 })
        &&& b.file_bytes == a.file_bytes + chunk_len(ng, width, rows.len() as int)
        &&& forall|r: int| 0 <= r ==> #[trigger] marked(b.dead@, r) == marked(a.dead@, r)
    }
}

/// The write that appends the rows of `b`.
pub open spec fn write_of(w: ChunkWrite, flavor: crate::pack::Layout, p: PartitionState, b: RowBatch) -> bool {
    &&& w.partition_id == p.partition_id
    &&& w.generation == p.generation
    &&& w.offset == p.file_bytes
    &&& w.bytes@ == chunk_bytes(flavor, b)
}

/// Rows that are no replicas.
pub(crate) fn count_primaries(b: &RowBatch) -> (r: u64)
    requires
        b.wf(),
    ensures
        r == primary_count(b@),
        r <= b@.len(),
{
    let mut r: u64 = 0;
    let mut i: usize = 0;
    assert(b@.take(0) =~= Seq::<Row>::empty());
    while i < b.ids.len()
        invariant
            b.wf(),
            i <= b.ids@.len(),
            r <= i,
            r == primary_count(b@.take(i as int)),
        decreases b.ids.len() - i,
    {
        proof {
            assert(b@.take(i + 1).drop_last() =~= b@.take(i as int));
            assert(b@.take(i + 1).last() == b@[i as int]);
        }
        if !b.replica[i] {
            r = r + 1;
        }
        i = i + 1;
    }
    assert(b@.take(i as int) =~= b@);
    r
}

fn push_entries(
    b: &RowBatch,
    partition_id: u32,
    generation: u32,
    base: u64,
    entries: &mut Vec<RunEntry>,
)
    requires
        b.wf(),
        base + b@.len() <= MAX_ROWS,
    ensures
        final(entries)@ == old(entries)@ + new_entries(b@, partition_id, generation, base as int),
{
    let ghost want = new_entries(b@, partition_id, generation, base as int);
    let n: usize = b.ids.len();
    let mut i: usize = 0;
    assert(entries@ =~= old(entries)@ + want.take(0));
    while i < n
        invariant
            b.wf(),
            n == b@.len(),
            base + n <= MAX_ROWS,
            i <= n,
            want == new_entries(b@, partition_id, generation, base as int),
            entries@ == old(entries)@ + want.take(i as int),
        decreases n - i,
    {
        let e = RunEntry {
            id: b.ids[i],
            partition_id,
            generation,
            row: (base + i as u64) as u32,
            flags: if b.replica[i] {
                ENTRY_FLAG_REPLICA
            } else {
                0
            },
        };
        assert(e == want[i as int]);
        entries.push(e);
        i = i + 1;
        assert(entries@ =~= old(entries)@ + want.take(i as int));
    }
    assert(want.take(i as int) =~= want);
}

impl FreshIndex {
    /// Whether partition `position` can take `n` more rows.
    pub fn fits(&self, position: usize, n: usize) -> (r: bool)
        requires
            self.wf(),
            position < self.partitions@.len(),
        ensures
            r == has_room(self.partitions@[position as int], self.ng(), self.stored(), n as int),
    {
        let dim: usize = self.dim();
        let width: usize = if self.store_vectors {
            dim
        } else {
            0
        };
        let ng: usize = n_byte_groups(self.bit_width, dim);
        let p: &PartitionState = &self.partitions[position];
        assert(p.wf());
        if n > 0xFFFF_FFFF || p.n_rows + n as u64 > MAX_ROWS {
            return false;
        }
        let len: u128 = crate::reopen::chunk_len_wide(ng, width, n as u32);
        proof {
            lemma_chunk_starts(ng as int, width as int, n as int);
        }
        len <= usize::MAX as u128 && p.file_bytes as u128 <= usize::MAX as u128 - len
    }

    /// Appends `rows` to a partition as one chunk. The write goes to the end
    /// of its segment file; the entries that find the rows go to `entries`.
    pub fn append_chunk(
        &mut self,
        position: usize,
        rows: &RowBatch,
        entries: &mut Vec<RunEntry>,
        reason: WriteReason,
    ) -> (w: Option<ChunkWrite>)
        requires
            old(self).wf(),
            old(self).memtable.dim is Some,
            position < old(self).partitions@.len(),
            rows.wf(),
            rows.groups == old(self).ng(),
            rows.width == old(self).stored(),
            has_room(
                old(self).partitions@[position as int],
                old(self).ng(),
                old(self).stored(),
                rows@.len() as int,
            ),
        ensures
            final(self).wf(),
            match w {
                None => rows@.len() == 0 && *final(self) == *old(self),
                Some(x) => {
                    &&& rows@.len() > 0
                    &&& write_of(x, old(self).flavor, old(self).partitions@[position as int], *rows)
                    &&& final(self).stats == after_write(
                        old(self).stats,
                        reason,
                        rows@.len() as u64,
                        x.bytes@.len() as u64,
                    )
                },
            },
            final(self).partitions@.len() == old(self).partitions@.len(),
            forall|k: int|
                0 <= k < old(self).partitions@.len() && k != position
                    ==> #[trigger] final(self).partitions@[k] == old(self).partitions@[k],
            appended(
                old(self).partitions@[position as int],
                final(self).partitions@[position as int],
                rows@,
                old(self).ng(),
                old(self).stored(),
            ),
            *final(self) == (FreshIndex {
                partitions: final(self).partitions,
                stats: final(self).stats,
                ..*old(self)
            }),
            final(entries)@ == old(entries)@ + new_entries(
                rows@,
                old(self).partitions@[position as int].partition_id,
                old(self).partitions@[position as int].generation,
                old(self).partitions@[position as int].n_rows as int,
            ),
    {
        let n: usize = rows.ids.len();
        if n == 0 {
            proof {
                let p = self.partitions@[position as int];
                assert(new_entries(rows@, p.partition_id, p.generation, p.n_rows as int) =~= Seq::<
                    RunEntry,
                >::empty());
                assert(entries@ =~= old(entries)@ + Seq::<RunEntry>::empty());
            }
            return None;
        }
        let partition_id: u32 = self.partitions[position].partition_id;
        let generation: u32 = self.partitions[position].generation;
        let base: u64 = self.partitions[position].n_rows;
        let offset: u64 = self.partitions[position].file_bytes;
        proof {
            assert(self.partitions@[position as int].wf());
            lemma_chunk_starts(self.ng(), self.stored(), n as int);
        }
        let bytes: Vec<u8> = encode_chunk(self.flavor, rows);
        let len: usize = bytes.len();
        let primaries: u64 = count_primaries(rows);
        self.stats.record_write(reason, n as u64, len as u64);
        self.partitions[position].book_chunk(n as u32, primaries, len as u64);
        push_entries(rows, partition_id, generation, base, entries);
        proof {
            let a = old(self).partitions@;
            let b = self.partitions@;
            assert forall|k: int| 0 <= k < b.len() implies (#[trigger] b[k]).wf() && b[k].placed(
                self.ng(),
                self.stored(),
            ) by {
                assert(a[k].wf() && a[k].placed(self.ng(), self.stored()));
            }
            assert forall|k: int| 0 <= k < b.len() implies (#[trigger] b[k]).partition_id
                < self.next_partition_id by {
                assert(a[k].partition_id < self.next_partition_id);
            }
            assert forall|i: int, j: int| 0 <= i < j < b.len() implies (#[trigger] b[i]).partition_id != (
            #[trigger] b[j]).partition_id by {
                assert(a[i].partition_id != a[j].partition_id);
            }
        }
        Some(ChunkWrite { partition_id, generation, offset, bytes })
    }

    /// Adds an empty partition. Returns its position.
    pub fn create_partition(&mut self, centroid: &[u32]) -> (position: usize)
        requires
            old(self).wf(),
            old(self).memtable.dim is Some,
            centroid@.len() == old(self).memtable.width(),
            old(self).next_partition_id < u32::MAX,
        ensures
            final(self).wf(),
            position == old(self).partitions@.len(),
            final(self).partitions@.len() == old(self).partitions@.len() + 1,
            forall|k: int|
                0 <= k < old(self).partitions@.len() ==> #[trigger] final(self).partitions@[k] == old(
                    self,
                ).partitions@[k],
            ({
                let p = final(self).partitions@[position as int];
                &&& p.partition_id == old(self).next_partition_id
                &&& p.generation == 0
                &&& p.n_rows == 0
                &&& p.live_rows == 0
                &&& p.live_primary == 0
                &&& p.chunks@.len() == 0
                &&& p.dead@.len() == 0
                &&& p.file_bytes == 0
            }),
            final(self).centroids@ == old(self).centroids@ + centroid@,
            *final(self) == (FreshIndex {
                partitions: final(self).partitions,
                centroids: final(self).centroids,
                centroids_dirty: true,
                next_partition_id: (old(self).next_partition_id + 1) as u32,
                ..*old(self)
            }),
    {
        let position: usize = self.partitions.len();
        let id: u32 = self.next_partition_id;
        self.next_partition_id = id + 1;
        self.partitions.push(PartitionState::new(id));
        self.centroids_dirty = true;
        self.centroids.extend_from_slice(centroid);
        proof {
            assert(self.centroids@ =~= old(self).centroids@ + centroid@);
            let a = old(self).partitions@;
            let b = self.partitions@;
            let d = self.memtable.width();
            assert((position + 1) * d == position * d + d) by (nonlinear_arith);
            assert forall|k: int| 0 <= k < b.len() implies (#[trigger] b[k]).wf() && b[k].placed(
                self.ng(),
                self.stored(),
            ) by {
                if k < position {
                    assert(a[k].wf() && a[k].placed(self.ng(), self.stored()));
                }
            }
            assert forall|k: int| 0 <= k < b.len() implies (#[trigger] b[k]).partition_id
                < self.next_partition_id by {
                if k < position {
                    assert(a[k].partition_id < old(self).next_partition_id);
                }
            }
            assert forall|i: int, j: int| 0 <= i < j < b.len() implies (#[trigger] b[i]).partition_id != (
            #[trigger] b[j]).partition_id by {
                assert(a[i].partition_id < old(self).next_partition_id);
                if j < position {
                    assert(a[i].partition_id != a[j].partition_id);
                }
            }
        }
        position
    }

    /// Takes a partition out. Returns its id and the generation of its file,
    /// which no manifest will name any more.
    pub fn drop_partition(&mut self, position: usize) -> (gone: (u32, u32))
        requires
            old(self).wf(),
            position < old(self).partitions@.len(),
        ensures
            final(self).wf(),
            gone.0 == old(self).partitions@[position as int].partition_id,
            gone.1 == old(self).partitions@[position as int].generation,
            final(self).partitions@ == old(self).partitions@.remove(position as int),
            final(self).centroids@ == old(self).centroids@.take(
                position * old(self).memtable.width(),
            ) + old(self).centroids@.skip((position + 1) * old(self).memtable.width()),
            *final(self) == (FreshIndex {
                partitions: final(self).partitions,
                centroids: final(self).centroids,
                centroids_dirty: true,
                ..*old(self)
            }),
    {
        let dim: usize = self.dim();
        let n: usize = self.partitions.len();
        assert(self.centroids.len() == self.centroids@.len());
        proof {
            crate::batch::lemma_row_bounds(position as int, n as int, dim as int);
            assert((n - 1) * dim == n * dim - dim) by (nonlinear_arith);
        }
        let p: PartitionState = self.partitions.remove(position);
        self.centroids_dirty = true;
        let mut tail: Vec<u32> = self.centroids.split_off((position + 1) * dim);
        self.centroids.truncate(position * dim);
        self.centroids.append(&mut tail);
        proof {
            let a = old(self).partitions@;
            let b = self.partitions@;
            assert(self.centroids@ =~= old(self).centroids@.take(position * dim) + old(
                self,
            ).centroids@.skip((position + 1) * dim));
            assert forall|k: int| 0 <= k < b.len() implies (#[trigger] b[k]).wf() && b[k].placed(
                self.ng(),
                self.stored(),
            ) && b[k].partition_id < self.next_partition_id by {
                let j = if k < position {
                    k
                } else {
                    k + 1
                };
                assert(b[k] == a[j]);
                assert(a[j].wf() && a[j].placed(self.ng(), self.stored()));
                assert(a[j].partition_id < self.next_partition_id);
            }
            assert forall|i: int, j: int| 0 <= i < j < b.len() implies (#[trigger] b[i]).partition_id != (
            #[trigger] b[j]).partition_id by {
                let x = if i < position {
                    i
                } else {
                    i + 1
                };
                let y = if j < position {
                    j
                } else {
                    j + 1
                };
                assert(b[i] == a[x] && b[j] == a[y]);
                assert(a[x].partition_id != a[y].partition_id);
            }
        }
        (p.partition_id, p.generation)
    }

    /// Makes a run of the entries that a flush collected.
    pub fn write_run(&mut self, entries: &Vec<RunEntry>)
        requires
            old(self).wf(),
            old(self).next_run_generation < u64::MAX,
        ensures
            final(self).wf(),
            final(self).runs@.len() == old(self).runs@.len() + 1,
            forall|k: int|
                0 <= k < old(self).runs@.len() ==> #[trigger] final(self).runs@[k] == old(self).runs@[k],
            final(self).runs@.last().generation == old(self).next_run_generation,
            final(self).runs@.last().bytes@ == run_bytes(by_id(entries@)),
            entries_in(final(self).runs@.last().bytes@) == by_id(entries@),
            tables(final(self).runs@) == tables(old(self).runs@).push(by_id(entries@)),
            *final(self) == (FreshIndex {
                runs: final(self).runs,
                next_run_generation: (old(self).next_run_generation + 1) as u64,
                ..*old(self)
            }),
    {
        let generation: u64 = self.next_run_generation;
        let bytes: Vec<u8> = encode_run(entries);
        self.next_run_generation = generation + 1;
        self.runs.push(Run { generation, bytes });
        proof {
            let a = old(self).runs@;
            let b = self.runs@;
            assert forall|k: int| 0 <= k < b.len() implies is_run(#[trigger] b[k].bytes@) by {
                if k < a.len() {
                    assert(is_run(a[k].bytes@));
                }
            }
            assert forall|k: int| 0 <= k < b.len() implies #[trigger] generations(b)[k]
                < self.next_run_generation by {
                if k < a.len() {
                    assert(generations(a)[k] < old(self).next_run_generation);
                }
            }
            assert(tables(b) =~= tables(a).push(by_id(entries@)));
        }
    }

    /// The shifts that rows are encoded with from a flush on.
    pub open spec fn shift_to_commit(self) -> Seq<u32> {
        if self.tqplus_shift@.len() > 0 {
            self.tqplus_shift@
        } else if self.memtable.tqplus_shift@.len() > 0 {
            self.memtable.tqplus_shift@
        } else {
            Seq::new(self.memtable.width() as nat, |i: int| 0u32)
        }
    }

    /// The scales that rows are encoded with from a flush on.
    pub open spec fn scale_to_commit(self) -> Seq<u32> {
        if self.tqplus_shift@.len() > 0 {
            self.tqplus_scale@
        } else if self.memtable.tqplus_shift@.len() > 0 {
            self.memtable.tqplus_scale@
        } else {
            Seq::new(self.memtable.width() as nat, |i: int| ONE_BITS)
        }
    }

    /// Commits the calibration: that of the memtable, or none (no shift, unit
    /// scale).
    pub fn commit_calibration(&mut self)
        requires
            old(self).wf(),
            old(self).memtable.dim is Some,
        ensures
            final(self).wf(),
            final(self).tqplus_shift@ == old(self).shift_to_commit(),
            final(self).tqplus_scale@ == old(self).scale_to_commit(),
            *final(self) == (FreshIndex {
                tqplus_shift: final(self).tqplus_shift,
                tqplus_scale: final(self).tqplus_scale,
                ..*old(self)
            }),
    {
        if self.tqplus_shift.len() > 0 {
            return;
        }
        if self.memtable.tqplus_shift.len() > 0 {
            let mut shift: Vec<u32> = Vec::new();
            shift.extend_from_slice(self.memtable.tqplus_shift.as_slice());
            assert(shift@ =~= self.memtable.tqplus_shift@);
            let mut scale: Vec<u32> = Vec::new();
            scale.extend_from_slice(self.memtable.tqplus_scale.as_slice());
            assert(scale@ =~= self.memtable.tqplus_scale@);
            self.tqplus_shift = shift;
            self.tqplus_scale = scale;
        } else {
            let dim: usize = self.dim();
            let shift: Vec<u32> = filled(dim, 0);
            let scale: Vec<u32> = filled(dim, ONE_BITS);
            self.tqplus_shift = shift;
            self.tqplus_scale = scale;
        }
    }
}

/// `n` times `value`.
pub(crate) fn filled(n: usize, value: u32) -> (r: Vec<u32>)
    ensures
        r@ == Seq::new(n as nat, |i: int| value),
{
    let mut r: Vec<u32> = Vec::new();
    let mut i: usize = 0;
    while i < n
        invariant
            i <= n,
            r@ == Seq::new(i as nat, |j: int| value),
        decreases n - i,
    {
        r.push(value);
        i = i + 1;
        assert(r@ =~= Seq::new(i as nat, |j: int| value));
    }
    r
}

/// The rows of the memtable.
pub open spec fn memtable_rows(m: Delta, bits: int, store: bool) -> Seq<Row> {
    let d = m.width();
    let ng = groups(bits, d);
    let all = group_rows(m.codes@, m.ids@.len() as int, bits, d);
    Seq::new(
        m.ids@.len(),
        |i: int|
            Row {
                codes: row_of(all, i, ng),
                scale: m.scales@[i],
                id: m.ids@[i],
                replica: false,
                vector: row_of(m.vectors@, i, stored_width(d, store)),
            },
    )
}

impl FreshIndex {
    /// The rows of the memtable, as a batch.
    pub fn drain_memtable(&self) -> (b: RowBatch)
        requires
            self.wf(),
        ensures
            b.wf(),
            b.groups == self.ng(),
            b.width == self.stored(),
            b@ == memtable_rows(self.memtable, self.bit_width as int, self.store_vectors),
    {
        let dim: usize = self.dim();
        let n: usize = self.memtable.ids.len();
        let ng: usize = n_byte_groups(self.bit_width, dim);
        let width: usize = if self.store_vectors {
            dim
        } else {
            0
        };
        let rows: Vec<u8> = group_bytes(self.memtable.codes.as_slice(), n, self.bit_width, dim);
        let mut scales: Vec<u32> = Vec::new();
        scales.extend_from_slice(self.memtable.scales.as_slice());
        assert(scales@ =~= self.memtable.scales@);
        let mut ids: Vec<u64> = Vec::new();
        ids.extend_from_slice(self.memtable.ids.as_slice());
        assert(ids@ =~= self.memtable.ids@);
        let mut vectors: Vec<u32> = Vec::new();
        vectors.extend_from_slice(self.memtable.vectors.as_slice());
        assert(vectors@ =~= self.memtable.vectors@);
        let mut replica: Vec<bool> = Vec::new();
        let mut i: usize = 0;
        while i < n
            invariant
                i <= n,
                replica@.len() == i,
                forall|k: int| 0 <= k < i ==> !#[trigger] replica@[k],
            decreases n - i,
        {
            replica.push(false);
            i = i + 1;
        }
        proof {
            assert(n * 0 == 0) by (nonlinear_arith);
            assert(0 <= n * ng) by (nonlinear_arith)
                requires
                    0 <= n,
                    0 <= ng,
            ;
        }
        let b = RowBatch { groups: ng, width, group_rows: rows, scales, ids, replica, vectors };
        assert(b@ =~= memtable_rows(self.memtable, self.bit_width as int, self.store_vectors));
        b
    }
}

} // verus!
