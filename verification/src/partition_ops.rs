//! What changes a partition: appended chunks, dead rows, merged tails and
//! rewrites.
use vstd::prelude::*;
use crate::batch::{lemma_primary_count_add, lemma_primary_count_bound, primary_count, Row, RowBatch};
use crate::bits::{
    cover, lemma_marks_bound, lemma_marks_none, lemma_marks_same, lemma_marks_split, mark, marked, marks,
};
use crate::chunk::{
    chunk_bytes, chunk_len, chunk_lens, chunk_row, chunk_rows, chunk_section, chunk_start, law_chunk_round_trip,
    lemma_chunk_bytes_len, lemma_chunk_starts,
};
use crate::pack::Layout;
use crate::partition::{
    lemma_live_all, lemma_live_len, lemma_live_same, lemma_live_split, lemma_rows_between_len,
    lemma_rows_upto, live_of, live_primaries, rows_between, rows_upto, wanted, ChunkMeta, PartitionState,
    MAX_ROWS,
};

verus! {

/// `x`, or the nearest of `0..=hi`.
pub open spec fn clamped(x: int, hi: int) -> int {
    if x > hi {
        hi
    } else if x < 0 {
        0
    } else {
        x
    }
}

/// Files that agree on a range.
pub open spec fn agree(a: Seq<u8>, b: Seq<u8>, lo: int, hi: int) -> bool {
    &&& hi <= a.len()
    &&& hi <= b.len()
    &&& forall|i: int| lo <= i < hi ==> #[trigger] a[i] == b[i]
}

/// A chunk's rows depend on the chunk's bytes only.
pub proof fn lemma_chunk_rows_frame(flavor: Layout, a: Seq<u8>, b: Seq<u8>, o: int, ng: int, width: int, n: int)
    requires
        0 <= o,
        0 <= ng,
        0 <= width,
        0 <= n,
        agree(a, b, o, o + chunk_len(ng, width, n)),
    ensures
        chunk_rows(flavor, a, o, ng, width, n) == chunk_rows(flavor, b, o, ng, width, n),
{
    lemma_chunk_starts(ng, width, n);
    let lens = chunk_lens(ng, width, n);
    assert forall|k: int| 0 <= k < 6 implies #[trigger] chunk_section(a, o, ng, width, n, k) == chunk_section(
        b,
        o,
        ng,
        width,
        n,
        k,
    ) by {
        assert(chunk_start(ng, width, n, k) + lens[k] <= chunk_len(ng, width, n));
        assert(chunk_section(a, o, ng, width, n, k) =~= chunk_section(b, o, ng, width, n, k));
    }
    assert forall|i: int| 0 <= i < n implies chunk_row(flavor, a, o, ng, width, n, i) == chunk_row(
        flavor,
        b,
        o,
        ng,
        width,
        n,
        i,
    ) by {
        assert(chunk_section(a, o, ng, width, n, 1) == chunk_section(b, o, ng, width, n, 1));
        assert(chunk_section(a, o, ng, width, n, 4) == chunk_section(b, o, ng, width, n, 4));
        assert(chunk_start(ng, width, n, 2) + lens[2] <= chunk_len(ng, width, n));
        assert(chunk_start(ng, width, n, 3) + lens[3] <= chunk_len(ng, width, n));
        assert(chunk_start(ng, width, n, 5) + lens[5] <= chunk_len(ng, width, n));
        assert(lens[2] == 4 * n && lens[3] == 8 * n && lens[5] == 4 * (n * width));
        crate::batch::lemma_row_bounds(i, n, width);
        let v = o + chunk_start(ng, width, n, 5) + 4 * (i * width);
        assert(crate::bytes::u32s_at(a, v, width as nat) =~= crate::bytes::u32s_at(b, v, width as nat));
    }
    assert(chunk_rows(flavor, a, o, ng, width, n) =~= chunk_rows(flavor, b, o, ng, width, n));
}

/// The rows between two chunks depend on the bytes of the file up to its end
/// only, and on the chunks in between.
pub proof fn lemma_rows_between_frame(
    flavor: Layout,
    a: Seq<u8>,
    b: Seq<u8>,
    p: PartitionState,
    chunks: Seq<ChunkMeta>,
    ng: int,
    width: int,
    from: int,
    k: int,
)
    requires
        0 <= ng,
        0 <= width,
        0 <= from <= k <= p.chunks@.len(),
        k <= chunks.len(),
        p.placed(ng, width),
        agree(a, b, 0, p.file_bytes as int),
        forall|i: int| 0 <= i < k ==> #[trigger] chunks[i] == p.chunks@[i],
    ensures
        rows_between(flavor, a, chunks, ng, width, from, k) == rows_between(
            flavor,
            b,
            p.chunks@,
            ng,
            width,
            from,
            k,
        ),
    decreases k - from,
{
    if from < k {
        lemma_rows_between_frame(flavor, a, b, p, chunks, ng, width, from, k - 1);
        p.lemma_limit(ng, width, k - 1);
        let m = p.chunks@[k - 1];
        assert(m.offset % 64 == 0);
        assert(chunks[k - 1] == m);
        lemma_chunk_rows_frame(flavor, a, b, m.offset as int, ng, width, m.n_rows as int);
    }
}

/// Row totals of chunk tables that agree.
pub proof fn lemma_rows_upto_same(a: Seq<ChunkMeta>, b: Seq<ChunkMeta>, k: int)
    requires
        0 <= k <= a.len(),
        k <= b.len(),
        forall|i: int| 0 <= i < k ==> #[trigger] a[i] == b[i],
    ensures
        rows_upto(a, k) == rows_upto(b, k),
    decreases k,
{
    if k > 0 {
        lemma_rows_upto_same(a, b, k - 1);
        assert(a[k - 1] == b[k - 1]);
    }
}

/// `b` is `a` with one chunk of `len` bytes in place of the chunks from `from`
/// on; the rows and their marks are the same.
pub open spec fn folded(a: PartitionState, b: PartitionState, from: int, len: int) -> bool {
    &&& b.chunks@ == a.chunks@.take(from).push(
        ChunkMeta { offset: a.file_bytes, n_rows: (a.n_rows - rows_upto(a.chunks@, from)) as u32 },
    )
    &&& b.file_bytes == a.file_bytes + len
    &&& b == (PartitionState { chunks: b.chunks, file_bytes: b.file_bytes, ..a })
}

proof fn lemma_folded_wf(a: PartitionState, b: PartitionState, from: int, len: int)
    requires
        a.wf(),
        a.n_rows <= u32::MAX,
        0 <= from <= a.chunks@.len(),
        a.file_bytes + len <= usize::MAX,
        folded(a, b, from, len),
    ensures
        b.wf(),
{
    lemma_rows_upto(a.chunks@, from, a.chunks@.len() as int);
    lemma_rows_upto_same(b.chunks@, a.chunks@, from);
    assert(rows_upto(b.chunks@, from + 1) == rows_upto(b.chunks@, from) + b.chunks@[from].n_rows);
}

#[verifier::opaque]
spec fn sits(p: PartitionState, ng: int, width: int) -> bool {
    p.placed(ng, width)
}

proof fn lemma_whole_blocks(p: PartitionState, ng: int, width: int)
    requires
        sits(p, ng, width),
    ensures
        p.file_bytes % 64 == 0,
{
    reveal(sits);
}

proof fn lemma_fitting_chunks_sit(p: PartitionState, ng: int, width: int)
    requires
        p.file_bytes <= usize::MAX,
        p.file_bytes % 64 == 0,
        forall|k: int| 0 <= k < p.chunks@.len() ==> #[trigger] p.fits(ng, width, k),
    ensures
        sits(p, ng, width),
{
    reveal(sits);
    assert forall|k: int| 0 <= k < p.chunks@.len() implies {
        &&& (#[trigger] p.chunks@[k]).offset % 64 == 0
        &&& p.chunks@[k].offset + chunk_len(ng, width, p.chunks@[k].n_rows as int) <= p.limit(k)
    } by {
        assert(p.fits(ng, width, k));
    }
}

proof fn lemma_folded_chunk(
    a: PartitionState,
    b: PartitionState,
    from: int,
    len: int,
    ng: int,
    width: int,
    k: int,
)
    requires
        0 <= ng,
        0 <= width,
        0 <= k < from <= a.chunks@.len(),
        sits(a, ng, width),
        folded(a, b, from, len),
    ensures
        b.fits(ng, width, k),
{
    reveal(sits);
    assert(b.chunks@[k] == a.chunks@[k]);
    assert(a.chunks@[k].offset % 64 == 0);
    a.lemma_limit(ng, width, k);
    if k + 1 < from {
        assert(b.chunks@[k + 1] == a.chunks@[k + 1]);
    }
}

proof fn lemma_folded_tail(a: PartitionState, b: PartitionState, from: int, len: int, ng: int, width: int)
    requires
        a.wf(),
        a.n_rows <= u32::MAX,
        0 <= from <= a.chunks@.len(),
        sits(a, ng, width),
        folded(a, b, from, len),
        len == chunk_len(ng, width, a.n_rows - rows_upto(a.chunks@, from)),
    ensures
        b.fits(ng, width, from),
{
    lemma_whole_blocks(a, ng, width);
    lemma_rows_upto(a.chunks@, from, a.chunks@.len() as int);
}

proof fn lemma_folded_placed(a: PartitionState, b: PartitionState, from: int, len: int, ng: int, width: int)
    requires
        a.wf(),
        a.n_rows <= u32::MAX,
        0 <= ng,
        0 <= width,
        0 <= from <= a.chunks@.len(),
        0 <= len,
        a.file_bytes + len <= usize::MAX,
        len % 64 == 0,
        sits(a, ng, width),
        folded(a, b, from, len),
        len == chunk_len(ng, width, a.n_rows - rows_upto(a.chunks@, from)),
    ensures
        sits(b, ng, width),
{
    assert forall|k: int| 0 <= k < b.chunks@.len() implies #[trigger] b.fits(ng, width, k) by {
        if k < from {
            lemma_folded_chunk(a, b, from, len, ng, width, k);
        } else {
            lemma_folded_tail(a, b, from, len, ng, width);
        }
    }
    lemma_whole_blocks(a, ng, width);
    lemma_fitting_chunks_sit(b, ng, width);
}

impl PartitionState {
    /// Chunk `k` ends where it must.
    spec fn fits(self, ng: int, width: int, k: int) -> bool {
        &&& self.chunks@[k].offset % 64 == 0
        &&& self.chunks@[k].offset + chunk_len(ng, width, self.chunks@[k].n_rows as int) <= self.limit(k)
    }
}

impl PartitionState {
    /// Books a chunk of `n` rows, `primaries` of them primaries and `len`
    /// bytes long, that goes to the end of the file.
    pub fn book_chunk(&mut self, n: u32, primaries: u64, len: u64)
        requires
            old(self).wf(),
            old(self).n_rows + n <= MAX_ROWS,
            (old(self).n_rows + n + 7) / 8 <= usize::MAX,
            primaries <= n,
            old(self).file_bytes + len <= usize::MAX,
            len % 64 == 0,
        ensures
            final(self).wf(),
            final(self).partition_id == old(self).partition_id,
            final(self).generation == old(self).generation,
            final(self).n_rows == old(self).n_rows + n,
            final(self).live_rows == old(self).live_rows + n,
            final(self).live_primary == old(self).live_primary + primaries,
            final(self).chunks@ == old(self).chunks@.push(
                (ChunkMeta { offset: old(self).file_bytes, n_rows: n }),
            ),
            final(self).file_bytes == old(self).file_bytes + len,
            forall|r: int| 0 <= r ==> #[trigger] marked(final(self).dead@, r) == marked(old(self).dead@, r),
            forall|ng: int, width: int|
                0 <= ng && 0 <= width && #[trigger] old(self).placed(ng, width) && len == chunk_len(
                    ng,
                    width,
                    n as int,
                ) ==> final(self).placed(ng, width),
    {
        let base: u64 = self.n_rows;
        proof {
            lemma_marks_bound(self.dead@, 0, self.n_rows as int);
        }
        self.chunks.push(ChunkMeta { offset: self.file_bytes, n_rows: n });
        self.file_bytes = self.file_bytes + len;
        self.n_rows = self.n_rows + n as u64;
        self.live_rows = self.live_rows + n as u64;
        cover(&mut self.dead, self.n_rows);
        self.live_primary = self.live_primary + primaries;
        proof {
            let m = self.chunks@.len() as int;
            lemma_rows_upto_same(self.chunks@, old(self).chunks@, m - 1);
            assert(rows_upto(self.chunks@, m) == rows_upto(self.chunks@, m - 1) + n);
            lemma_marks_same(self.dead@, old(self).dead@, 0, base as int);
            assert forall|r: int| base <= r implies !#[trigger] marked(self.dead@, r) by {
                assert(!marked(old(self).dead@, r));
            }
            lemma_marks_none(self.dead@, base as int, self.n_rows as int);
            lemma_marks_split(self.dead@, 0, base as int, self.n_rows as int);
            assert forall|ng: int, width: int|
                0 <= ng && 0 <= width && #[trigger] old(self).placed(ng, width) && len == chunk_len(
                    ng,
                    width,
                    n as int,
                ) implies self.placed(ng, width) by {
                assert forall|k: int| 0 <= k < m implies {
                    &&& (#[trigger] self.chunks@[k]).offset % 64 == 0
                    &&& self.chunks@[k].offset + chunk_len(ng, width, self.chunks@[k].n_rows as int)
                        <= self.limit(k)
                } by {
                    if k < m - 1 {
                        assert(self.chunks@[k] == old(self).chunks@[k]);
                        assert(old(self).chunks@[k].offset % 64 == 0);
                        if k + 1 < m - 1 {
                            assert(self.chunks@[k + 1] == old(self).chunks@[k + 1]);
                        }
                    }
                }
            }
        }
    }

    /// Marks a row dead. True if it was alive. The number of live primaries
    /// never leaves the range that the live rows allow.
    pub fn mark_dead(&mut self, row: u64, is_replica: bool) -> (r: bool)
        requires
            old(self).wf(),
            row < old(self).n_rows,
        ensures
            final(self).wf(),
            r == !marked(old(self).dead@, row as int),
            final(self).partition_id == old(self).partition_id,
            final(self).generation == old(self).generation,
            final(self).n_rows == old(self).n_rows,
            final(self).chunks@ == old(self).chunks@,
            final(self).file_bytes == old(self).file_bytes,
            forall|q: int|
                0 <= q ==> #[trigger] marked(final(self).dead@, q) == (q == row || marked(
                    old(self).dead@,
                    q,
                )),
            final(self).live_rows == old(self).live_rows - (if r {
                1int
            } else {
                0
            }),
            final(self).live_primary == clamped(
                old(self).live_primary - (if r && !is_replica {
                    1int
                } else {
                    0
                }),
                final(self).live_rows as int,
            ),
    {
        if self.is_dead(row) {
            return false;
        }
        let len: usize = self.dead.len();
        let ghost before = self.dead@;
        proof {
            lemma_marks_split(before, 0, row as int, self.n_rows as int);
            lemma_marks_split(before, row as int, row + 1, self.n_rows as int);
            lemma_marks_bound(before, 0, row as int);
            lemma_marks_bound(before, row + 1, self.n_rows as int);
            assert(marks(before, row as int, row as int) == 0);
        }
        mark(&mut self.dead, row);
        proof {
            lemma_marks_split(self.dead@, 0, row as int, self.n_rows as int);
            lemma_marks_split(self.dead@, row as int, row + 1, self.n_rows as int);
            lemma_marks_same(self.dead@, before, 0, row as int);
            lemma_marks_same(self.dead@, before, row + 1, self.n_rows as int);
            assert(marks(self.dead@, row as int, row as int) == 0);
            assert(marked(self.dead@, row as int));
            assert forall|q: int| self.n_rows <= q implies !#[trigger] marked(self.dead@, q) by {
                assert(!marked(before, q));
            }
        }
        self.live_rows = self.live_rows - 1;
        if !is_replica && self.live_primary > 0 {
            self.live_primary = self.live_primary - 1;
        }
        if self.live_primary > self.live_rows {
            self.live_primary = self.live_rows;
        }
        true
    }

    /// Puts one chunk of `len` bytes at the end of the file in place of the
    /// chunks from `from` on. Rows keep their numbers, dead ones among them.
    pub fn fold(&mut self, from: usize, len: u64)
        requires
            old(self).wf(),
            from <= old(self).chunks@.len(),
            old(self).n_rows <= u32::MAX,
            old(self).file_bytes + len <= usize::MAX,
            len % 64 == 0,
        ensures
            final(self).wf(),
            folded(*old(self), *final(self), from as int, len as int),
            forall|ng: int, width: int|
                0 <= ng && 0 <= width && #[trigger] old(self).placed(ng, width) && len == chunk_len(
                    ng,
                    width,
                    old(self).n_rows - rows_upto(old(self).chunks@, from as int),
                ) ==> final(self).placed(ng, width),
    {
        let mut kept: u64 = 0;
        let mut k: usize = 0;
        while k < from
            invariant
                *self == *old(self),
                self.wf(),
                from <= self.chunks@.len(),
                k <= from,
                kept == rows_upto(self.chunks@, k as int),
                kept <= self.n_rows,
            decreases from - k,
        {
            proof {
                lemma_rows_upto(self.chunks@, k + 1, self.chunks@.len() as int);
            }
            kept = kept + self.chunks[k].n_rows as u64;
            k = k + 1;
        }
        proof {
            lemma_rows_upto(self.chunks@, from as int, self.chunks@.len() as int);
        }
        let n: u32 = (self.n_rows - kept) as u32;
        self.chunks.truncate(from);
        self.chunks.push(ChunkMeta { offset: self.file_bytes, n_rows: n });
        self.file_bytes = self.file_bytes + len;
        proof {
            assert(self.chunks@ =~= old(self).chunks@.take(from as int).push(
                ChunkMeta { offset: old(self).file_bytes, n_rows: n },
            ));
            lemma_folded_wf(*old(self), *self, from as int, len as int);
            assert forall|ng: int, width: int|
                0 <= ng && 0 <= width && #[trigger] old(self).placed(ng, width) && len == chunk_len(
                    ng,
                    width,
                    n as int,
                ) implies self.placed(ng, width) by {
                reveal(sits);
                lemma_folded_placed(*old(self), *self, from as int, len as int, ng, width);
            }
        }
    }

    /// Starts an empty file of the next generation.
    pub fn restart(&mut self)
        requires
            old(self).generation < u32::MAX,
        ensures
            final(self).wf(),
            forall|ng: int, width: int| final(self).placed(ng, width),
            final(self).partition_id == old(self).partition_id,
            final(self).generation == old(self).generation + 1,
            final(self).n_rows == 0,
            final(self).live_rows == 0,
            final(self).live_primary == 0,
            final(self).chunks@.len() == 0,
            final(self).dead@.len() == 0,
            final(self).file_bytes == 0,
    {
        self.generation = self.generation + 1;
        self.n_rows = 0;
        self.live_rows = 0;
        self.live_primary = 0;
        self.chunks.clear();
        self.dead.clear();
        self.file_bytes = 0;
    }
}

/// Booking a chunk and writing it at the end of the file appends its rows,
/// leaves the rows before them as they were, and keeps the live primaries
/// counted.
pub proof fn law_booked_chunk(
    flavor: Layout,
    before: PartitionState,
    after: PartitionState,
    file: Seq<u8>,
    grown: Seq<u8>,
    b: RowBatch,
)
    requires
        before.wf(),
        after.wf(),
        b.wf(),
        before.placed(b.groups as int, b.width as int),
        before.counts(flavor, file, b.groups as int, b.width as int),
        after.chunks@ == before.chunks@.push(
            ChunkMeta { offset: before.file_bytes, n_rows: b@.len() as u32 },
        ),
        b@.len() <= u32::MAX,
        after.file_bytes == before.file_bytes + chunk_bytes(flavor, b).len(),
        after.live_primary == before.live_primary + primary_count(b@),
        forall|r: int| 0 <= r ==> #[trigger] marked(after.dead@, r) == marked(before.dead@, r),
        agree(file, grown, 0, before.file_bytes as int),
        after.file_bytes <= grown.len(),
        grown.subrange(before.file_bytes as int, after.file_bytes as int) == chunk_bytes(flavor, b),
    ensures
        after.rows(flavor, grown, b.groups as int, b.width as int) == before.rows(
            flavor,
            file,
            b.groups as int,
            b.width as int,
        ) + b@,
        after.counts(flavor, grown, b.groups as int, b.width as int),
{
    let ng = b.groups as int;
    let width = b.width as int;
    let m = before.chunks@.len() as int;
    let old_rows = before.rows(flavor, file, ng, width);
    lemma_chunk_bytes_len(flavor, b);
    law_chunk_round_trip(flavor, b, grown, before.file_bytes as int);
    assert(agree(grown, file, 0, before.file_bytes as int));
    lemma_rows_between_frame(flavor, grown, file, before, after.chunks@, ng, width, 0, m);
    lemma_rows_between_len(flavor, file, before.chunks@, ng, width, 0, m);
    assert(rows_upto(before.chunks@, 0) == 0);
    assert(old_rows.len() == before.n_rows);
    lemma_live_split(old_rows, b@, after.dead@, 0, false);
    lemma_live_same(old_rows, after.dead@, before.dead@, 0, false);
    assert forall|r: int| before.n_rows <= r < before.n_rows + b@.len() implies !#[trigger] marked(
        after.dead@,
        r,
    ) by {
        assert(!marked(before.dead@, r));
    }
    lemma_live_all(b@, after.dead@, before.n_rows as int);
    lemma_primary_count_add(live_of(old_rows, before.dead@, 0, false), b@);
}

/// One more dead row takes exactly that row from the live ones.
proof fn lemma_live_less(rows: Seq<Row>, a: Seq<u8>, b: Seq<u8>, base: int, row: int)
    requires
        base <= row < base + rows.len(),
        !marked(a, row),
        forall|q: int| 0 <= q ==> #[trigger] marked(b, q) == (q == row || marked(a, q)),
        0 <= base,
    ensures
        live_primaries(rows, b, base) == live_primaries(rows, a, base) - (if rows[row - base].replica {
            0int
        } else {
            1int
        }),
    decreases rows.len(),
{
    let i = row - base;
    let front = rows.take(i);
    let mid = rows.subrange(i, i + 1);
    let back = rows.skip(i + 1);
    assert(rows =~= front + (mid + back));
    lemma_live_split(front, mid + back, a, base, false);
    lemma_live_split(mid, back, a, row, false);
    lemma_live_split(front, mid + back, b, base, false);
    lemma_live_split(mid, back, b, row, false);
    lemma_live_same(front, a, b, base, false);
    lemma_live_same(back, a, b, row + 1, false);
    let none = mid.drop_last();
    assert(none =~= Seq::<Row>::empty());
    assert(live_of(none, a, row, false) =~= Seq::<Row>::empty());
    assert(live_of(none, b, row, false) =~= Seq::<Row>::empty());
    assert(mid.last() == rows[i]);
    assert(live_of(mid, a, row, false) =~= seq![rows[i]]);
    assert(marked(b, row));
    assert(live_of(mid, b, row, false) =~= Seq::<Row>::empty());
    let f = live_of(front, a, base, false);
    let k = live_of(back, a, row + 1, false);
    lemma_primary_count_add(f, seq![rows[i]] + k);
    lemma_primary_count_add(seq![rows[i]], k);
    lemma_primary_count_add(f, Seq::<Row>::empty() + k);
    assert(Seq::<Row>::empty() + k =~= k);
    let one = seq![rows[i]];
    assert(one.drop_last() =~= Seq::<Row>::empty());
    assert(primary_count(one.drop_last()) == 0);
    assert(one.last() == rows[i]);
}

/// Marking a row dead, told rightly whether it is a replica, keeps the live
/// primaries counted.
pub proof fn law_dead_row_is_counted(
    flavor: Layout,
    before: PartitionState,
    after: PartitionState,
    file: Seq<u8>,
    ng: int,
    width: int,
    row: int,
)
    requires
        before.wf(),
        before.counts(flavor, file, ng, width),
        0 <= row < before.n_rows,
        !marked(before.dead@, row),
        after.chunks@ == before.chunks@,
        after.file_bytes == before.file_bytes,
        forall|q: int| 0 <= q ==> #[trigger] marked(after.dead@, q) == (q == row || marked(before.dead@, q)),
        after.live_rows == before.live_rows - 1,
        after.live_primary == clamped(
            before.live_primary - (if before.rows(flavor, file, ng, width)[row].replica {
                0int
            } else {
                1int
            }),
            after.live_rows as int,
        ),
    ensures
        after.counts(flavor, file, ng, width),
{
    lemma_live_row_counts(flavor, before, file, ng, width, row);
    let rows = before.rows(flavor, file, ng, width);
    lemma_rows_between_len(flavor, file, before.chunks@, ng, width, 0, before.chunks@.len() as int);
    assert(rows_upto(before.chunks@, 0) == 0);
    lemma_live_less(rows, before.dead@, after.dead@, 0, row);
}

/// Where the live primaries of `rows` are counted, they still are after a row
/// is marked dead, told rightly whether it is a replica.
pub proof fn lemma_marked_row_is_counted(
    before: PartitionState,
    after: PartitionState,
    rows: Seq<Row>,
    row: int,
    is_replica: bool,
)
    requires
        before.wf(),
        after.wf(),
        rows.len() == before.n_rows,
        before.live_primary == live_primaries(rows, before.dead@, 0),
        0 <= row < before.n_rows,
        !marked(before.dead@, row) ==> rows[row].replica == is_replica,
        forall|q: int| 0 <= q ==> #[trigger] marked(after.dead@, q) == (q == row || marked(before.dead@, q)),
        after.live_rows == before.live_rows - (if marked(before.dead@, row) {
            0int
        } else {
            1int
        }),
        after.live_primary == clamped(
            before.live_primary - (if !marked(before.dead@, row) && !is_replica {
                1int
            } else {
                0
            }),
            after.live_rows as int,
        ),
    ensures
        after.live_primary == live_primaries(rows, after.dead@, 0),
{
    if marked(before.dead@, row) {
        lemma_live_same(rows, before.dead@, after.dead@, 0, false);
    } else {
        lemma_live_row(before, rows, row);
        lemma_live_less(rows, before.dead@, after.dead@, 0, row);
    }
}

/// A live row is counted among the live rows, and among the live primaries or
/// the others.
proof fn lemma_live_row(p: PartitionState, rows: Seq<Row>, row: int)
    requires
        p.wf(),
        rows.len() == p.n_rows,
        p.live_primary == live_primaries(rows, p.dead@, 0),
        0 <= row < p.n_rows,
        !marked(p.dead@, row),
    ensures
        !rows[row].replica ==> p.live_primary > 0,
        rows[row].replica ==> p.live_primary < p.live_rows,
{
    lemma_live_len(rows, p.dead@, 0);
    crate::partition::lemma_live_at(rows, p.dead@, 0, false);
    let live = live_of(rows, p.dead@, 0, false);
    let at = crate::partition::live_at(rows, p.dead@, 0, false);
    assert(wanted(rows[row], 0 + row, p.dead@, false));
    assert(at.contains(0 + row));
    let j = choose|j: int| 0 <= j < at.len() && at[j] == 0 + row;
    assert(live[j] == rows[row]);
    let front = live.take(j);
    let one = seq![live[j]];
    let back = live.skip(j + 1);
    assert(live =~= front + (one + back));
    lemma_primary_count_add(front, one + back);
    lemma_primary_count_add(one, back);
    lemma_primary_count_bound(front);
    lemma_primary_count_bound(back);
    assert(one.drop_last() =~= Seq::<Row>::empty());
    assert(primary_count(one.drop_last()) == 0);
    assert(one.last() == live[j]);
}

/// A live row is counted among the live rows, and among the live primaries or
/// the others.
pub proof fn lemma_live_row_counts(
    flavor: Layout,
    p: PartitionState,
    file: Seq<u8>,
    ng: int,
    width: int,
    row: int,
)
    requires
        p.wf(),
        p.counts(flavor, file, ng, width),
        0 <= row < p.n_rows,
        !marked(p.dead@, row),
    ensures
        !p.rows(flavor, file, ng, width)[row].replica ==> p.live_primary > 0,
        p.rows(flavor, file, ng, width)[row].replica ==> p.live_primary < p.live_rows,
{
    lemma_rows_between_len(flavor, file, p.chunks@, ng, width, 0, p.chunks@.len() as int);
    assert(rows_upto(p.chunks@, 0) == 0);
    lemma_live_row(p, p.rows(flavor, file, ng, width), row);
}

} // verus!
