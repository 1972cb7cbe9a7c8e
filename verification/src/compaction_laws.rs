//! Merging and rewriting lose no live row.
use vstd::prelude::*;
use crate::batch::{Row, RowBatch};
use crate::bits::marked;
use crate::chunk::{chunk_bytes, lemma_chunk_bytes_len};
use crate::flush::appended;
use crate::pack::Layout;
use crate::partition::{
    lemma_live_all, lemma_live_same, lemma_live_split, lemma_rows_between_len, lemma_rows_between_split,
    lemma_rows_upto, live_of, rows_between, rows_upto, ChunkMeta, PartitionState,
};
use crate::partition_ops::{agree, folded, law_booked_chunk, lemma_rows_between_frame};

verus! {

/// The live rows of a partition, in order.
pub open spec fn live_rows_of(p: PartitionState, flavor: Layout, file: Seq<u8>, ng: int, width: int) -> Seq<Row> {
    live_of(p.rows(flavor, file, ng, width), p.dead@, 0, false)
}

/// Appending a chunk appends its rows to the live ones.
pub proof fn law_append_adds_rows(
    flavor: Layout,
    before: PartitionState,
    after: PartitionState,
    file: Seq<u8>,
    grown: Seq<u8>,
    b: RowBatch,
)
    requires
        before.wf(),
        after.wf(),
        b.wf(),
        b@.len() > 0,
        b@.len() <= u32::MAX,
        before.placed(b.groups as int, b.width as int),
        before.counts(flavor, file, b.groups as int, b.width as int),
        appended(before, after, b@, b.groups as int, b.width as int),
        agree(file, grown, 0, before.file_bytes as int),
        after.file_bytes <= grown.len(),
        grown.subrange(before.file_bytes as int, after.file_bytes as int) == chunk_bytes(flavor, b),
    ensures
        live_rows_of(after, flavor, grown, b.groups as int, b.width as int) == live_rows_of(
            before,
            flavor,
            file,
            b.groups as int,
            b.width as int,
        ) + b@,
        after.counts(flavor, grown, b.groups as int, b.width as int),
{
    let ng = b.groups as int;
    let width = b.width as int;
    lemma_chunk_bytes_len(flavor, b);
    law_booked_chunk(flavor, before, after, file, grown, b);
    let rows = before.rows(flavor, file, ng, width);
    lemma_rows_between_len(flavor, file, before.chunks@, ng, width, 0, before.chunks@.len() as int);
    assert(rows_upto(before.chunks@, 0) == 0);
    lemma_live_split(rows, b@, after.dead@, 0, false);
    lemma_live_same(rows, after.dead@, before.dead@, 0, false);
    assert forall|r: int| before.n_rows <= r < before.n_rows + b@.len() implies !#[trigger] marked(
        after.dead@,
        r,
    ) by {
        assert(!marked(before.dead@, r));
    }
    lemma_live_all(b@, after.dead@, before.n_rows as int);
}

/// Merging trailing chunks keeps every row at its number, with its mark.
pub proof fn law_tier_merge_keeps_rows(
    flavor: Layout,
    before: PartitionState,
    after: PartitionState,
    file: Seq<u8>,
    grown: Seq<u8>,
    b: RowBatch,
    from: int,
)
    requires
        before.wf(),
        after.wf(),
        b.wf(),
        before.n_rows <= u32::MAX,
        before.placed(b.groups as int, b.width as int),
        before.counts(flavor, file, b.groups as int, b.width as int),
        0 <= from <= before.chunks@.len(),
        b@ == rows_between(
            flavor,
            file,
            before.chunks@,
            b.groups as int,
            b.width as int,
            from,
            before.chunks@.len() as int,
        ),
        folded(before, after, from, chunk_bytes(flavor, b).len() as int),
        agree(file, grown, 0, before.file_bytes as int),
        after.file_bytes <= grown.len(),
        grown.subrange(before.file_bytes as int, after.file_bytes as int) == chunk_bytes(flavor, b),
    ensures
        after.rows(flavor, grown, b.groups as int, b.width as int) == before.rows(
            flavor,
            file,
            b.groups as int,
            b.width as int,
        ),
        after.dead@ == before.dead@,
        live_rows_of(after, flavor, grown, b.groups as int, b.width as int) == live_rows_of(
            before,
            flavor,
            file,
            b.groups as int,
            b.width as int,
        ),
        after.counts(flavor, grown, b.groups as int, b.width as int),
{
    let ng = b.groups as int;
    let width = b.width as int;
    let m = before.chunks@.len() as int;
    lemma_rows_between_split(flavor, file, before.chunks@, ng, width, from, m);
    lemma_rows_between_len(flavor, file, before.chunks@, ng, width, from, m);
    lemma_rows_upto(before.chunks@, from, m);
    lemma_chunk_bytes_len(flavor, b);
    crate::chunk::law_chunk_round_trip(flavor, b, grown, before.file_bytes as int);
    assert(agree(grown, file, 0, before.file_bytes as int));
    lemma_rows_between_frame(flavor, grown, file, before, after.chunks@, ng, width, 0, from);
    assert(after.chunks@.len() == from + 1);
    assert(after.rows(flavor, grown, ng, width) == rows_between(flavor, grown, after.chunks@, ng, width, 0, from)
        + b@);
}

/// A partition that was just rewritten holds exactly the rows that were
/// written, all alive.
pub proof fn law_compaction_keeps_rows(
    flavor: Layout,
    after: PartitionState,
    file: Seq<u8>,
    b: RowBatch,
)
    requires
        b.wf(),
        after.wf(),
        b@.len() > 0,
        after.chunks@ == seq![ChunkMeta { offset: 0, n_rows: b@.len() as u32 }],
        b@.len() <= u32::MAX,
        forall|q: int| 0 <= q ==> !#[trigger] marked(after.dead@, q),
        chunk_bytes(flavor, b).len() <= file.len(),
        file.subrange(0, chunk_bytes(flavor, b).len() as int) == chunk_bytes(flavor, b),
    ensures
        live_rows_of(after, flavor, file, b.groups as int, b.width as int) == b@,
{
    let ng = b.groups as int;
    let width = b.width as int;
    crate::chunk::law_chunk_round_trip(flavor, b, file, 0);
    let rows = after.rows(flavor, file, ng, width);
    let none = rows_between(flavor, file, after.chunks@, ng, width, 0, 0);
    assert(none =~= Seq::<Row>::empty());
    assert(rows == none + crate::chunk::chunk_rows(flavor, file, 0, ng, width, b@.len() as int));
    assert(rows =~= b@);
    lemma_live_all(rows, after.dead@, 0);
}

} // verus!
