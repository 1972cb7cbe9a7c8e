//! A partition of an incrementally updated index: an append-only segment file
//! of chunks, and which of its rows are dead.
use vstd::prelude::*;
use crate::batch::{primary_count, Row, RowBatch};
use crate::bits::{count_marks, is_marked, marked, marks};
use crate::chunk::{
    chunk_len, chunk_replica, chunk_rows, layout_for, lemma_chunk_starts, push_chunk_row, stored_width,
    ChunkLayout,
};
use crate::pack::{groups, Layout};

verus! {

/// Rows that a partition can number.
pub const MAX_ROWS: u64 = 0x1_0000_0000;

/// Where a chunk lies in its segment file, and how many rows it holds.
#[derive(Clone, Copy, PartialEq, Eq, Structural)]
pub struct ChunkMeta {
    pub offset: u64,
    pub n_rows: u32,
}

/// One partition.
pub struct PartitionState {
    pub partition_id: u32,
    /// Version of the segment file.
    pub generation: u32,
    pub n_rows: u64,
    pub live_rows: u64,
    pub live_primary: u64,
    pub chunks: Vec<ChunkMeta>,
    /// Bitmap over rows, set for dead ones.
    pub dead: Vec<u8>,
    /// End of the segment file. Chunks that a merge replaced stay in the file,
    /// so that this may lie behind the last chunk of the table.
    pub file_bytes: u64,
}

/// Rows of the chunks before `k`.
pub open spec fn rows_upto(chunks: Seq<ChunkMeta>, k: int) -> int
    decreases k,
{
    if k <= 0 {
        0
    } else {
        rows_upto(chunks, k - 1) + chunks[k - 1].n_rows
    }
}

/// Bytes of the chunks before `k`.
pub open spec fn bytes_upto(chunks: Seq<ChunkMeta>, ng: int, width: int, k: int) -> int
    decreases k,
{
    if k <= 0 {
        0
    } else {
        bytes_upto(chunks, ng, width, k - 1) + chunk_len(ng, width, chunks[k - 1].n_rows as int)
    }
}

/// The rows of the chunks `from..k` of a segment file.
pub open spec fn rows_between(
    flavor: Layout,
    file: Seq<u8>,
    chunks: Seq<ChunkMeta>,
    ng: int,
    width: int,
    from: int,
    k: int,
) -> Seq<Row>
    decreases k - from,
{
    if k <= from {
        Seq::empty()
    } else {
        rows_between(flavor, file, chunks, ng, width, from, k - 1) + chunk_rows(
            flavor,
            file,
            chunks[k - 1].offset as int,
            ng,
            width,
            chunks[k - 1].n_rows as int,
        )
    }
}

/// The row with number `base + i` is wanted.
pub open spec fn wanted(row: Row, number: int, dead: Seq<u8>, primaries_only: bool) -> bool {
    !marked(dead, number) && !(primaries_only && row.replica)
}

/// The rows that are alive (or alive and primary), where the first of `rows`
/// has number `base`.
pub open spec fn live_of(rows: Seq<Row>, dead: Seq<u8>, base: int, primaries_only: bool) -> Seq<Row>
    decreases rows.len(),
{
    if rows.len() == 0 {
        Seq::empty()
    } else if wanted(rows.last(), base + rows.len() - 1, dead, primaries_only) {
        live_of(rows.drop_last(), dead, base, primaries_only).push(rows.last())
    } else {
        live_of(rows.drop_last(), dead, base, primaries_only)
    }
}

/// The numbers of the rows of [`live_of`].
pub open spec fn live_at(rows: Seq<Row>, dead: Seq<u8>, base: int, primaries_only: bool) -> Seq<int>
    decreases rows.len(),
{
    if rows.len() == 0 {
        Seq::empty()
    } else if wanted(rows.last(), base + rows.len() - 1, dead, primaries_only) {
        live_at(rows.drop_last(), dead, base, primaries_only).push(base + rows.len() - 1)
    } else {
        live_at(rows.drop_last(), dead, base, primaries_only)
    }
}

/// Live primaries of `rows`.
pub open spec fn live_primaries(rows: Seq<Row>, dead: Seq<u8>, base: int) -> int {
    primary_count(live_of(rows, dead, base, false))
}

impl PartitionState {
    /// The counts, the chunk table and the bitmap agree.
    pub open spec fn wf(self) -> bool {
        &&& self.n_rows <= MAX_ROWS
        &&& rows_upto(self.chunks@, self.chunks@.len() as int) == self.n_rows
        &&& self.dead@.len() == (self.n_rows + 7) / 8
        &&& self.live_rows == self.n_rows - marks(self.dead@, 0, self.n_rows as int)
        &&& self.live_primary <= self.live_rows
        &&& forall|r: int| self.n_rows <= r ==> !#[trigger] marked(self.dead@, r)
    }

    /// Where chunk `k` must end.
    pub open spec fn limit(self, k: int) -> int {
        if k + 1 < self.chunks@.len() {
            self.chunks@[k + 1].offset as int
        } else {
            self.file_bytes as int
        }
    }

    /// The chunks follow one another inside the file.
    pub open spec fn placed(self, ng: int, width: int) -> bool {
        &&& self.file_bytes <= usize::MAX
        &&& self.file_bytes % 64 == 0
        &&& forall|k: int|
            0 <= k < self.chunks@.len() ==> {
                &&& (#[trigger] self.chunks@[k]).offset % 64 == 0
                &&& self.chunks@[k].offset + chunk_len(ng, width, self.chunks@[k].n_rows as int)
                    <= self.limit(k)
            }
    }

    /// The rows in a segment file.
    pub open spec fn rows(self, flavor: Layout, file: Seq<u8>, ng: int, width: int) -> Seq<Row> {
        rows_between(flavor, file, self.chunks@, ng, width, 0, self.chunks@.len() as int)
    }

    /// The number of live primaries is that of the segment file.
    pub open spec fn counts(self, flavor: Layout, file: Seq<u8>, ng: int, width: int) -> bool {
        &&& self.file_bytes <= file.len()
        &&& self.live_primary == live_primaries(self.rows(flavor, file, ng, width), self.dead@, 0)
    }

    /// A partition without rows.
    pub fn new(partition_id: u32) -> (p: PartitionState)
        ensures
            p.wf(),
            forall|ng: int, width: int| p.placed(ng, width),
            p.partition_id == partition_id,
            p.generation == 0,
            p.n_rows == 0,
            p.live_rows == 0,
            p.live_primary == 0,
            p.chunks@.len() == 0,
            p.dead@.len() == 0,
            p.file_bytes == 0,
    {
        PartitionState {
            partition_id,
            generation: 0,
            n_rows: 0,
            live_rows: 0,
            live_primary: 0,
            chunks: Vec::new(),
            dead: Vec::new(),
            file_bytes: 0,
        }
    }

    /// True if `row` is dead.
    pub fn is_dead(&self, row: u64) -> (r: bool)
        ensures
            r == marked(self.dead@, row as int),
    {
        is_marked(&self.dead, row)
    }

    /// Dead rows of `base..base + n`.
    pub fn dead_in(&self, base: u64, n: usize) -> (r: usize)
        requires
            base + n <= u64::MAX,
        ensures
            r == marks(self.dead@, base as int, base + n),
            r <= n,
    {
        count_marks(&self.dead, base, n)
    }

    /// Bytes of the segment file that the chunk table refers to.
    pub fn live_bytes(&self, bit_width: usize, dim: usize, has_vectors: bool) -> (r: u64)
        requires
            2 <= bit_width <= 4,
            self.placed(groups(bit_width as int, dim as int), stored_width(dim as int, has_vectors)),
        ensures
            r == bytes_upto(
                self.chunks@,
                groups(bit_width as int, dim as int),
                stored_width(dim as int, has_vectors),
                self.chunks@.len() as int,
            ),
            r <= self.file_bytes,
    {
        let ghost ng = groups(bit_width as int, dim as int);
        let ghost width = stored_width(dim as int, has_vectors);
        let mut r: u64 = 0;
        let mut k: usize = 0;
        while k < self.chunks.len()
            invariant
                2 <= bit_width <= 4,
                ng == groups(bit_width as int, dim as int),
                width == stored_width(dim as int, has_vectors),
                self.placed(ng, width),
                k <= self.chunks@.len(),
                r == bytes_upto(self.chunks@, ng, width, k as int),
            decreases self.chunks.len() - k,
        {
            proof {
                self.lemma_bytes(ng, width, k + 1);
                lemma_chunk_starts(ng, width, self.chunks@[k as int].n_rows as int);
                assert(self.chunks@[k as int].offset % 64 == 0);
                self.lemma_bytes(ng, width, k as int);
                self.lemma_limit(ng, width, k as int);
            }
            let n: usize = self.chunks[k].n_rows as usize;
            r = r + crate::chunk::chunk_layout(bit_width, dim, n, has_vectors).total_len as u64;
            k = k + 1;
        }
        proof {
            self.lemma_bytes(ng, width, k as int);
        }
        r
    }

    /// Bytes of the segment file that no chunk of the table refers to.
    pub fn garbage_bytes(&self, bit_width: usize, dim: usize, has_vectors: bool) -> (r: u64)
        requires
            2 <= bit_width <= 4,
            self.placed(groups(bit_width as int, dim as int), stored_width(dim as int, has_vectors)),
        ensures
            r == self.file_bytes - bytes_upto(
                self.chunks@,
                groups(bit_width as int, dim as int),
                stored_width(dim as int, has_vectors),
                self.chunks@.len() as int,
            ),
    {
        self.file_bytes - self.live_bytes(bit_width, dim, has_vectors)
    }

    /// Every chunk ends inside the file.
    pub proof fn lemma_limit(self, ng: int, width: int, k: int)
        requires
            self.placed(ng, width),
            0 <= ng,
            0 <= width,
            0 <= k < self.chunks@.len(),
        ensures
            self.limit(k) <= self.file_bytes,
        decreases self.chunks@.len() - k,
    {
        if k + 1 < self.chunks@.len() {
            self.lemma_limit(ng, width, k + 1);
            lemma_chunk_starts(ng, width, self.chunks@[k + 1].n_rows as int);
            assert(self.chunks@[k + 1].offset % 64 == 0);
        }
    }

    /// The chunks of the table do not outgrow the file.
    pub proof fn lemma_bytes(self, ng: int, width: int, k: int)
        requires
            self.placed(ng, width),
            0 <= ng,
            0 <= width,
            0 <= k <= self.chunks@.len(),
        ensures
            0 <= bytes_upto(self.chunks@, ng, width, k) <= self.file_bytes,
            k > 0 ==> bytes_upto(self.chunks@, ng, width, k) <= self.limit(k - 1),
        decreases k,
    {
        if k > 0 {
            self.lemma_bytes(ng, width, k - 1);
            self.lemma_limit(ng, width, k - 1);
            lemma_chunk_starts(ng, width, self.chunks@[k - 1].n_rows as int);
            assert(self.chunks@[k - 1].offset % 64 == 0);
        }
    }
}

/// Rows of the chunks before `k` do not decrease.
pub proof fn lemma_rows_upto(chunks: Seq<ChunkMeta>, j: int, k: int)
    requires
        0 <= j <= k <= chunks.len(),
    ensures
        0 <= rows_upto(chunks, j) <= rows_upto(chunks, k),
    decreases k,
{
    if j < k {
        lemma_rows_upto(chunks, j, k - 1);
    } else if j > 0 {
        lemma_rows_upto(chunks, j - 1, k - 1);
    }
}

/// Number of rows between two chunks.
pub proof fn lemma_rows_between_len(
    flavor: Layout,
    file: Seq<u8>,
    chunks: Seq<ChunkMeta>,
    ng: int,
    width: int,
    from: int,
    k: int,
)
    requires
        0 <= from <= k <= chunks.len(),
    ensures
        rows_between(flavor, file, chunks, ng, width, from, k).len() == rows_upto(chunks, k) - rows_upto(
            chunks,
            from,
        ),
    decreases k - from,
{
    if from < k {
        lemma_rows_between_len(flavor, file, chunks, ng, width, from, k - 1);
    }
}

/// The rows before and after a chunk boundary.
pub proof fn lemma_rows_between_split(
    flavor: Layout,
    file: Seq<u8>,
    chunks: Seq<ChunkMeta>,
    ng: int,
    width: int,
    mid: int,
    k: int,
)
    requires
        0 <= mid <= k <= chunks.len(),
    ensures
        rows_between(flavor, file, chunks, ng, width, 0, k) == rows_between(
            flavor,
            file,
            chunks,
            ng,
            width,
            0,
            mid,
        ) + rows_between(flavor, file, chunks, ng, width, mid, k),
    decreases k - mid,
{
    let a = rows_between(flavor, file, chunks, ng, width, 0, mid);
    if mid < k {
        lemma_rows_between_split(flavor, file, chunks, ng, width, mid, k - 1);
        let b = rows_between(flavor, file, chunks, ng, width, mid, k - 1);
        let c = chunk_rows(
            flavor,
            file,
            chunks[k - 1].offset as int,
            ng,
            width,
            chunks[k - 1].n_rows as int,
        );
        assert((a + b) + c =~= a + (b + c));
    } else {
        assert(a + Seq::<Row>::empty() =~= a);
    }
}

/// The rows that are alive, over two parts.
pub proof fn lemma_live_split(a: Seq<Row>, b: Seq<Row>, dead: Seq<u8>, base: int, only: bool)
    ensures
        live_of(a + b, dead, base, only) == live_of(a, dead, base, only) + live_of(
            b,
            dead,
            base + a.len(),
            only,
        ),
        live_at(a + b, dead, base, only) == live_at(a, dead, base, only) + live_at(
            b,
            dead,
            base + a.len(),
            only,
        ),
    decreases b.len(),
{
    if b.len() == 0 {
        assert(a + b =~= a);
        assert(live_of(a, dead, base, only) + Seq::<Row>::empty() =~= live_of(a, dead, base, only));
        assert(live_at(a, dead, base, only) + Seq::<int>::empty() =~= live_at(a, dead, base, only));
    } else {
        assert((a + b).drop_last() =~= a + b.drop_last());
        assert((a + b).last() == b.last());
        lemma_live_split(a, b.drop_last(), dead, base, only);
        assert(live_of(a + b, dead, base, only) =~= live_of(a, dead, base, only) + live_of(
            b,
            dead,
            base + a.len(),
            only,
        ));
        assert(live_at(a + b, dead, base, only) =~= live_at(a, dead, base, only) + live_at(
            b,
            dead,
            base + a.len(),
            only,
        ));
    }
}

/// Bitmaps that agree on the rows leave the same rows alive.
pub proof fn lemma_live_same(rows: Seq<Row>, a: Seq<u8>, b: Seq<u8>, base: int, only: bool)
    requires
        forall|r: int| base <= r < base + rows.len() ==> marked(a, r) == #[trigger] marked(b, r),
    ensures
        live_of(rows, a, base, only) == live_of(rows, b, base, only),
        live_at(rows, a, base, only) == live_at(rows, b, base, only),
    decreases rows.len(),
{
    if rows.len() > 0 {
        assert(marked(a, base + rows.len() - 1) == marked(b, base + rows.len() - 1));
        lemma_live_same(rows.drop_last(), a, b, base, only);
    }
}

/// Without dead rows all rows are alive.
pub proof fn lemma_live_all(rows: Seq<Row>, dead: Seq<u8>, base: int)
    requires
        forall|r: int| base <= r < base + rows.len() ==> !#[trigger] marked(dead, r),
    ensures
        live_of(rows, dead, base, false) == rows,
    decreases rows.len(),
{
    if rows.len() > 0 {
        assert(!marked(dead, base + rows.len() - 1));
        lemma_live_all(rows.drop_last(), dead, base);
        assert(rows.drop_last().push(rows.last()) =~= rows);
    } else {
        assert(live_of(rows, dead, base, false) =~= rows);
    }
}

/// As many rows are alive as are not marked dead.
pub proof fn lemma_live_len(rows: Seq<Row>, dead: Seq<u8>, base: int)
    ensures
        live_of(rows, dead, base, false).len() == rows.len() - marks(dead, base, base + rows.len()),
        forall|only: bool|
            #[trigger] live_of(rows, dead, base, only).len() == live_at(rows, dead, base, only).len(),
    decreases rows.len(),
{
    if rows.len() > 0 {
        lemma_live_len(rows.drop_last(), dead, base);
        assert forall|only: bool| #[trigger] live_of(rows, dead, base, only).len() == live_at(
            rows,
            dead,
            base,
            only,
        ).len() by {
            assert(live_of(rows.drop_last(), dead, base, only).len() == live_at(
                rows.drop_last(),
                dead,
                base,
                only,
            ).len());
        }
    }
}

/// The numbers of the live rows ascend, and the rows stand under them.
pub proof fn lemma_live_at(rows: Seq<Row>, dead: Seq<u8>, base: int, only: bool)
    ensures
        live_at(rows, dead, base, only).len() == live_of(rows, dead, base, only).len(),
        forall|j: int|
            0 <= j < live_at(rows, dead, base, only).len() ==> {
                let r = #[trigger] live_at(rows, dead, base, only)[j];
                &&& base <= r < base + rows.len()
                &&& rows[r - base] == live_of(rows, dead, base, only)[j]
                &&& wanted(rows[r - base], r, dead, only)
            },
        forall|i: int, j: int|
            0 <= i < j < live_at(rows, dead, base, only).len() ==> live_at(rows, dead, base, only)[i]
                < live_at(rows, dead, base, only)[j],
        forall|i: int|
            0 <= i < rows.len() && wanted(#[trigger] rows[i], base + i, dead, only) ==> live_at(
                rows,
                dead,
                base,
                only,
            ).contains(base + i),
    decreases rows.len(),
{
    if rows.len() > 0 {
        let init = rows.drop_last();
        lemma_live_at(init, dead, base, only);
        let at = live_at(rows, dead, base, only);
        let before = live_at(init, dead, base, only);
        assert forall|j: int| 0 <= j < at.len() implies {
            let r = #[trigger] at[j];
            &&& base <= r < base + rows.len()
            &&& rows[r - base] == live_of(rows, dead, base, only)[j]
            &&& wanted(rows[r - base], r, dead, only)
        } by {
            if j < before.len() {
                assert(before[j] == at[j]);
                assert(init[before[j] - base] == rows[at[j] - base]);
            }
        }
        assert forall|i: int| 0 <= i < rows.len() && wanted(#[trigger] rows[i], base + i, dead, only) implies at.contains(
            base + i,
        ) by {
            if i < init.len() {
                assert(init[i] == rows[i]);
                assert(before.contains(base + i));
                let k = choose|k: int| 0 <= k < before.len() && before[k] == base + i;
                assert(at[k] == base + i);
            } else {
                assert(at[at.len() - 1] == base + i);
            }
        }
        assert forall|i: int, j: int| 0 <= i < j < at.len() implies at[i] < at[j] by {
            if j < before.len() {
                assert(before[i] == at[i] && before[j] == at[j]);
            } else {
                assert(before[i] == at[i]);
            }
        }
    }
}

impl PartitionState {
    /// Appends the live rows of one chunk, whose first row has number `row`.
    fn push_live_chunk(
        &self,
        flavor: Layout,
        file: &[u8],
        meta: ChunkMeta,
        row: u64,
        primaries_only: bool,
        batch: &mut RowBatch,
        numbers: &mut Vec<u64>,
        before: Ghost<Seq<Row>>,
        base: Ghost<int>,
    )
        requires
            old(batch).wf(),
            chunk_len(old(batch).groups as int, old(batch).width as int, meta.n_rows as int) <= usize::MAX,
            meta.offset + chunk_len(
                old(batch).groups as int,
                old(batch).width as int,
                meta.n_rows as int,
            ) <= file@.len(),
            row == base@ + before@.len(),
            row + meta.n_rows <= u64::MAX,
            old(batch)@ == live_of(before@, self.dead@, base@, primaries_only),
            old(numbers)@.len() == old(batch)@.len(),
            forall|j: int|
                0 <= j < old(numbers)@.len() ==> #[trigger] old(numbers)@[j] == live_at(
                    before@,
                    self.dead@,
                    base@,
                    primaries_only,
                )[j],
        ensures
            final(batch).wf(),
            final(batch).groups == old(batch).groups,
            final(batch).width == old(batch).width,
            final(batch)@ == live_of(
                before@ + chunk_rows(
                    flavor,
                    file@,
                    meta.offset as int,
                    old(batch).groups as int,
                    old(batch).width as int,
                    meta.n_rows as int,
                ),
                self.dead@,
                base@,
                primaries_only,
            ),
            final(numbers)@.len() == final(batch)@.len(),
            forall|j: int|
                0 <= j < final(numbers)@.len() ==> #[trigger] final(numbers)@[j] == live_at(
                    before@ + chunk_rows(
                        flavor,
                        file@,
                        meta.offset as int,
                        old(batch).groups as int,
                        old(batch).width as int,
                        meta.n_rows as int,
                    ),
                    self.dead@,
                    base@,
                    primaries_only,
                )[j],
    {
        assert(file.len() == file@.len());
        let n: usize = meta.n_rows as usize;
        let groups: usize = batch.groups;
        let width: usize = batch.width;
        let ghost ng = groups as int;
        let ghost w = width as int;
        let ghost here = chunk_rows(flavor, file@, meta.offset as int, ng, w, n as int);
        let layout: ChunkLayout = layout_for(groups, width, n);
        let o: usize = meta.offset as usize;
        let mut i: usize = 0;
        proof {
            assert(before@ + here.take(0) =~= before@);
            lemma_live_at(before@, self.dead@, base@, primaries_only);
        }
        while i < n
            invariant
                ng == groups,
                w == width,
                n == meta.n_rows,
                o == meta.offset,
                i <= n,
                layout.of(ng, w, n as int),
                o + chunk_len(ng, w, n as int) <= file@.len(),
                here == chunk_rows(flavor, file@, o as int, ng, w, n as int),
                row == base@ + before@.len(),
                row + n <= u64::MAX,
                batch.wf(),
                batch.groups == groups,
                batch.width == width,
                batch@ == live_of(before@ + here.take(i as int), self.dead@, base@, primaries_only),
                numbers@.len() == batch@.len(),
                live_at(before@ + here.take(i as int), self.dead@, base@, primaries_only).len()
                    == batch@.len(),
                forall|j: int|
                    0 <= j < numbers@.len() ==> #[trigger] numbers@[j] == live_at(
                        before@ + here.take(i as int),
                        self.dead@,
                        base@,
                        primaries_only,
                    )[j],
            decreases n - i,
        {
            let number: u64 = row + i as u64;
            let ghost next = before@ + here.take(i + 1);
            proof {
                assert(next.drop_last() =~= before@ + here.take(i as int));
                assert(next.last() == here[i as int]);
            }
            let is_replica: bool = chunk_replica(file, o, &layout, n, i, Ghost(ng), Ghost(w));
            assert(is_replica == here[i as int].replica);
            if !self.is_dead(number) && !(primaries_only && is_replica) {
                push_chunk_row(flavor, file, o, &layout, n, i, batch);
                numbers.push(number);
            }
            i = i + 1;
        }
        proof {
            assert(here.take(n as int) =~= here);
        }
    }

    /// All rows of the chunks from `from_chunk` on, dead ones among them.
    pub fn read_rows_from(
        &self,
        flavor: Layout,
        file: &[u8],
        groups: usize,
        width: usize,
        from_chunk: usize,
    ) -> (r: RowBatch)
        requires
            self.wf(),
            self.placed(groups as int, width as int),
            self.file_bytes <= file@.len(),
            from_chunk <= self.chunks@.len(),
        ensures
            r.wf(),
            r.groups == groups,
            r.width == width,
            r@ == rows_between(
                flavor,
                file@,
                self.chunks@,
                groups as int,
                width as int,
                from_chunk as int,
                self.chunks@.len() as int,
            ),
    {
        let ghost ng = groups as int;
        let ghost w = width as int;
        let mut out: RowBatch = RowBatch::new(groups, width);
        let mut k: usize = from_chunk;
        assert(out@ =~= rows_between(flavor, file@, self.chunks@, ng, w, from_chunk as int, k as int));
        while k < self.chunks.len()
            invariant
                self.wf(),
                self.placed(ng, w),
                self.file_bytes <= file@.len(),
                ng == groups,
                w == width,
                from_chunk <= k <= self.chunks@.len(),
                out.wf(),
                out.groups == groups,
                out.width == width,
                out@ == rows_between(flavor, file@, self.chunks@, ng, w, from_chunk as int, k as int),
            decreases self.chunks.len() - k,
        {
            let meta: ChunkMeta = self.chunks[k];
            let n: usize = meta.n_rows as usize;
            let o: usize = meta.offset as usize;
            let ghost before = out@;
            let ghost here = chunk_rows(flavor, file@, meta.offset as int, ng, w, n as int);
            proof {
                assert(file.len() == file@.len());
                assert(self.chunks@[k as int].offset % 64 == 0);
                self.lemma_limit(ng, w, k as int);
                lemma_chunk_starts(ng, w, n as int);
            }
            let layout: ChunkLayout = layout_for(groups, width, n);
            let mut i: usize = 0;
            assert(out@ =~= before + here.take(0));
            while i < n
                invariant
                    ng == groups,
                    w == width,
                    i <= n,
                    layout.of(ng, w, n as int),
                    o + chunk_len(ng, w, n as int) <= file@.len(),
                    here == chunk_rows(flavor, file@, o as int, ng, w, n as int),
                    out.wf(),
                    out.groups == groups,
                    out.width == width,
                    out@ == before + here.take(i as int),
                decreases n - i,
            {
                push_chunk_row(flavor, file, o, &layout, n, i, &mut out);
                i = i + 1;
                assert(out@ =~= before + here.take(i as int));
            }
            assert(here.take(n as int) =~= here);
            k = k + 1;
        }
        out
    }

    /// The live rows of the chunks from `from_chunk` on, and their numbers.
    pub fn read_live_from(
        &self,
        flavor: Layout,
        file: &[u8],
        groups: usize,
        width: usize,
        from_chunk: usize,
        primaries_only: bool,
    ) -> (r: (RowBatch, Vec<u64>))
        requires
            self.wf(),
            self.placed(groups as int, width as int),
            self.file_bytes <= file@.len(),
            from_chunk <= self.chunks@.len(),
        ensures
            r.0.wf(),
            r.0.groups == groups,
            r.0.width == width,
            r.0@ == live_of(
                rows_between(
                    flavor,
                    file@,
                    self.chunks@,
                    groups as int,
                    width as int,
                    from_chunk as int,
                    self.chunks@.len() as int,
                ),
                self.dead@,
                rows_upto(self.chunks@, from_chunk as int),
                primaries_only,
            ),
            r.1@.len() == r.0@.len(),
            forall|j: int|
                0 <= j < r.1@.len() ==> #[trigger] r.1@[j] == live_at(
                    rows_between(
                        flavor,
                        file@,
                        self.chunks@,
                        groups as int,
                        width as int,
                        from_chunk as int,
                        self.chunks@.len() as int,
                    ),
                    self.dead@,
                    rows_upto(self.chunks@, from_chunk as int),
                    primaries_only,
                )[j],
    {
        let ghost ng = groups as int;
        let ghost w = width as int;
        let ghost from = from_chunk as int;
        let ghost chunks = self.chunks@;
        let flen: usize = file.len();
        let mut batch: RowBatch = RowBatch::new(groups, width);
        let mut numbers: Vec<u64> = Vec::new();
        let mut row: u64 = 0;
        let mut k: usize = 0;
        while k < from_chunk
            invariant
                self.wf(),
                from_chunk <= self.chunks@.len(),
                k <= from_chunk,
                row == rows_upto(self.chunks@, k as int),
            decreases from_chunk - k,
        {
            proof {
                lemma_rows_upto(self.chunks@, k + 1, self.chunks@.len() as int);
            }
            row = row + self.chunks[k].n_rows as u64;
            k = k + 1;
        }
        let ghost base = rows_upto(chunks, from);
        while k < self.chunks.len()
            invariant
                self.wf(),
                self.placed(ng, w),
                self.file_bytes <= flen,
                flen == file@.len(),
                ng == groups,
                w == width,
                chunks == self.chunks@,
                from_chunk <= k <= self.chunks@.len(),
                from == from_chunk,
                base == rows_upto(chunks, from),
                row == rows_upto(self.chunks@, k as int),
                batch.wf(),
                batch.groups == groups,
                batch.width == width,
                batch@ == live_of(
                    rows_between(flavor, file@, chunks, ng, w, from, k as int),
                    self.dead@,
                    base,
                    primaries_only,
                ),
                numbers@.len() == batch@.len(),
                forall|j: int|
                    0 <= j < numbers@.len() ==> #[trigger] numbers@[j] == live_at(
                        rows_between(flavor, file@, chunks, ng, w, from, k as int),
                        self.dead@,
                        base,
                        primaries_only,
                    )[j],
            decreases self.chunks.len() - k,
        {
            let meta: ChunkMeta = self.chunks[k];
            let n: usize = meta.n_rows as usize;
            let ghost before = rows_between(flavor, file@, chunks, ng, w, from, k as int);
            let ghost here = chunk_rows(flavor, file@, meta.offset as int, ng, w, n as int);
            proof {
                assert(chunks[k as int].offset % 64 == 0);
                self.lemma_limit(ng, w, k as int);
                lemma_chunk_starts(ng, w, n as int);
                lemma_rows_between_len(flavor, file@, chunks, ng, w, from, k as int);
                lemma_rows_upto(chunks, k + 1, chunks.len() as int);
            }
            self.push_live_chunk(
                flavor,
                file,
                meta,
                row,
                primaries_only,
                &mut batch,
                &mut numbers,
                Ghost(before),
                Ghost(base),
            );
            proof {
                assert(rows_between(flavor, file@, chunks, ng, w, from, k + 1) == before + here);
            }
            row = row + n as u64;
            k = k + 1;
        }
        (batch, numbers)
    }

    /// The live rows and their numbers.
    pub fn read_live(
        &self,
        flavor: Layout,
        file: &[u8],
        groups: usize,
        width: usize,
        primaries_only: bool,
    ) -> (r: (RowBatch, Vec<u64>))
        requires
            self.wf(),
            self.placed(groups as int, width as int),
            self.file_bytes <= file@.len(),
        ensures
            r.0.wf(),
            r.0.groups == groups,
            r.0.width == width,
            r.0@ == live_of(
                self.rows(flavor, file@, groups as int, width as int),
                self.dead@,
                0,
                primaries_only,
            ),
            r.1@.len() == r.0@.len(),
            forall|j: int|
                0 <= j < r.1@.len() ==> #[trigger] r.1@[j] == live_at(
                    self.rows(flavor, file@, groups as int, width as int),
                    self.dead@,
                    0,
                    primaries_only,
                )[j],
    {
        self.read_live_from(flavor, file, groups, width, 0, primaries_only)
    }
}

} // verus!
