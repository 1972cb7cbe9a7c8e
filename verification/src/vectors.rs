//! Stored vectors are given back as they were added.
use vstd::prelude::*;
use crate::batch::{lemma_row_bounds, spread_to, Row, RowBatch};
use crate::bits::marked;
use crate::copies::{
    copies_of, current, lemma_place, live_copies, newest_first, partition_position, place, surviving, tables,
    CopyLocation,
};
use crate::copies_laws::{lemma_surviving, total};
use crate::delta::Delta;
use crate::disk::{row_of, DiskIndex};
use crate::flush::{appended, memtable_rows};
use crate::flush_laws::{all_copies, all_ids, copies_row, grown_rows, is_copy, law_lists_deliver};
use crate::fresh::FreshIndex;
use crate::fresh_write::{copy_at, marked_from, memtable_grown, removal, Removed};
use crate::indexed::{alive, batch_ids, delivered, ids_for, stored, stored_ids};
use crate::ingest::{all_appended, entries_upto, runs_after};
use crate::integrity::law_flush_keeps_intact;
use crate::partition::{lemma_live_at, live_at, wanted, PartitionState};
use crate::primaries::lemma_primaries_only;
use crate::restructure::holds_only;
use crate::restructure_laws::live_primary_rows;
use crate::runs::of_id;

verus! {

/// `v` is the vector of `id` among rows in RAM.
pub open spec fn row_vector(d: Delta, id: u64, v: Seq<u32>) -> bool {
    exists|i: int|
        0 <= i < d.ids@.len() && #[trigger] d.ids@[i] == id && v == row_of(d.vectors@, d.width(), i)
}

/// Rows that are appended are found, and the others stay what they were.
pub proof fn lemma_appended_vectors(
    a: Delta,
    b: Delta,
    bits: int,
    dim: usize,
    ids: Seq<u64>,
    codes: Seq<u8>,
    scales: Seq<u32>,
    vectors: Seq<u32>,
)
    requires
        a.wf(bits, true),
        b.wf(bits, true),
        b.with_rows(a, dim, ids, codes, scales, vectors, true),
        a.dim is Some ==> a.dim == Some(dim),
    ensures
        forall|i: int, v: Seq<u32>|
            0 <= i < ids.len() ==> (#[trigger] row_vector(b, ids[i], v) <==> v == row_of(vectors, dim as int, i)),
        forall|id: u64, v: Seq<u32>|
            a.ids@.contains(id) ==> (#[trigger] row_vector(b, id, v) <==> row_vector(a, id, v)),
{
    let n = a.ids@.len() as int;
    let d = dim as int;
    assert forall|i: int, v: Seq<u32>| 0 <= i < ids.len() implies (#[trigger] row_vector(b, ids[i], v) <==> v == row_of(
        vectors,
        d,
        i,
    )) by {
        lemma_row_bounds(i, ids.len() as int, d);
        lemma_row_bounds(n + i, n + ids.len(), d);
        assert((n + i) * d == n * d + i * d && (n + ids.len()) * d == n * d + ids.len() * d) by (nonlinear_arith);
        if a.dim is None {
            assert(n * d == 0 && n * a.width() == 0) by (nonlinear_arith)
                requires
                    n == 0,
            ;
        }
        assert(a.vectors@.len() == n * d);
        assert(b.ids@[n + i] == ids[i]);
        assert(row_of(b.vectors@, d, n + i) =~= row_of(vectors, d, i));
        if row_vector(b, ids[i], v) {
            let k = choose|k: int|
                0 <= k < b.ids@.len() && #[trigger] b.ids@[k] == ids[i] && v == row_of(b.vectors@, b.width(), k);
            assert(b.ids@[k] == b.ids@[n + i]);
        }
    }
    assert forall|id: u64, v: Seq<u32>| a.ids@.contains(id) implies (#[trigger] row_vector(b, id, v)
        <==> row_vector(a, id, v)) by {
        let k = choose|k: int| 0 <= k < a.ids@.len() && a.ids@[k] == id;
        assert(b.ids@[k] == a.ids@[k]);
        lemma_row_bounds(k, n, d);
        assert(row_of(b.vectors@, d, k) =~= row_of(a.vectors@, d, k));
        if row_vector(b, id, v) {
            let j = choose|j: int|
                0 <= j < b.ids@.len() && #[trigger] b.ids@[j] == id && v == row_of(b.vectors@, b.width(), j);
            assert(b.ids@[j] == b.ids@[k]);
            assert(a.ids@[k] == id && v == row_of(a.vectors@, a.width(), k));
        }
        if row_vector(a, id, v) {
            let j = choose|j: int|
                0 <= j < a.ids@.len() && #[trigger] a.ids@[j] == id && v == row_of(a.vectors@, a.width(), j);
            assert(a.ids@[j] == a.ids@[k]);
            assert(b.ids@[k] == id && v == row_of(b.vectors@, b.width(), k));
        }
    }
}

/// A row that leaves takes no other row's vector along.
pub proof fn lemma_removed_vectors(a: Delta, b: Delta, bits: int, at: int)
    requires
        a.wf(bits, true),
        b.wf(bits, true),
        b.without_row(a, bits, true, at),
    ensures
        forall|id: u64, v: Seq<u32>|
            a.ids@.contains(id) && id != a.ids@[at] ==> (#[trigger] row_vector(b, id, v) <==> row_vector(a, id, v)),
        forall|id: u64| #[trigger] b.ids@.contains(id) <==> a.ids@.contains(id) && id != a.ids@[at],
{
    let n = a.ids@.len() as int;
    let d = a.width();
    assert forall|id: u64| a.ids@.contains(id) && id != a.ids@[at] implies #[trigger] b.ids@.contains(id) by {
        let k = choose|k: int| 0 <= k < n && a.ids@[k] == id;
        if k == n - 1 {
            assert(b.ids@[at] == id);
        } else {
            assert(b.ids@[k] == id);
        }
    }
    assert forall|id: u64| #[trigger] b.ids@.contains(id) implies a.ids@.contains(id) && id != a.ids@[at] by {
        let k = choose|k: int| 0 <= k < n - 1 && b.ids@[k] == id;
        if k == at {
            assert(a.ids@[n - 1] == id);
        } else {
            assert(a.ids@[k] == id);
        }
    }
    assert forall|k: int| 0 <= k < n - 1 implies #[trigger] row_of(b.vectors@, d, k) == row_of(
        a.vectors@,
        d,
        if k == at {
            n - 1
        } else {
            k
        },
    ) by {
        let from = if k == at {
            n - 1
        } else {
            k
        };
        lemma_row_bounds(k, n - 1, d);
        lemma_row_bounds(from, n, d);
        assert((n - 1) * d + d == n * d) by (nonlinear_arith);
        let x = row_of(b.vectors@, d, k);
        let y = row_of(a.vectors@, d, from);
        assert forall|j: int| 0 <= j < d implies x[j] == y[j] by {
            crate::math::lemma_flat_index(k, j, d);
        }
        assert(x =~= y);
    }
    assert forall|id: u64, v: Seq<u32>| a.ids@.contains(id) && id != a.ids@[at] implies (#[trigger] row_vector(b, id, v)
        <==> row_vector(a, id, v)) by {
        assert(b.ids@.contains(id));
        let k = choose|k: int| 0 <= k < b.ids@.len() && b.ids@[k] == id;
        let from = if k == at {
            n - 1
        } else {
            k
        };
        assert(a.ids@[from] == id);
        assert(row_of(b.vectors@, d, k) == row_of(a.vectors@, d, from));
        if row_vector(b, id, v) {
            let j = choose|j: int|
                0 <= j < b.ids@.len() && #[trigger] b.ids@[j] == id && v == row_of(b.vectors@, b.width(), j);
            assert(b.ids@[j] == b.ids@[k]);
            assert(a.ids@[from] == id && v == row_of(a.vectors@, a.width(), from));
        }
        if row_vector(a, id, v) {
            let j = choose|j: int|
                0 <= j < a.ids@.len() && #[trigger] a.ids@[j] == id && v == row_of(a.vectors@, a.width(), j);
            assert(a.ids@[j] == a.ids@[from]);
            assert(b.ids@[k] == id && v == row_of(b.vectors@, b.width(), k));
        }
    }
}

/// After vectors are added, each new id has its vector and each earlier id the
/// one it had.
pub proof fn law_add_keeps_vectors(
    x: DiskIndex,
    y: DiskIndex,
    file: Seq<u8>,
    dim: usize,
    ids: Seq<u64>,
    codes: Seq<u8>,
    scales: Seq<u32>,
    vectors: Seq<u32>,
)
    requires
        x.wf(file),
        y.wf(file),
        x.store_vectors,
        y == (DiskIndex { delta: y.delta, ..x }),
        y.delta.with_rows(x.delta, dim, ids, codes, scales, vectors, true),
        x.delta.dim is Some ==> x.delta.dim == Some(dim),
    ensures
        forall|i: int, v: Seq<u32>|
            0 <= i < ids.len() ==> (#[trigger] y.is_vector_of(file, ids[i], v) <==> v == row_of(
                vectors,
                dim as int,
                i,
            )),
        forall|id: u64, v: Seq<u32>|
            x.live(file).contains(id) ==> (#[trigger] y.is_vector_of(file, id, v) <==> x.is_vector_of(file, id, v)),
{
    lemma_appended_vectors(x.delta, y.delta, x.bit_width as int, dim, ids, codes, scales, vectors);
    let n = x.delta.ids@.len() as int;
    assert forall|i: int, v: Seq<u32>| 0 <= i < ids.len() implies (#[trigger] y.is_vector_of(file, ids[i], v)
        <==> v == row_of(vectors, dim as int, i)) by {
        assert(y.delta.ids@[n + i] == ids[i]);
        assert(row_vector(y.delta, ids[i], v) <==> v == row_of(vectors, dim as int, i));
    }
    assert forall|id: u64, v: Seq<u32>| x.live(file).contains(id) implies (#[trigger] y.is_vector_of(file, id, v)
        <==> x.is_vector_of(file, id, v)) by {
        if x.delta.ids@.contains(id) {
            let k = choose|k: int| 0 <= k < n && x.delta.ids@[k] == id;
            assert(y.delta.ids@[k] == id);
            assert(row_vector(y.delta, id, v) <==> row_vector(x.delta, id, v));
        } else {
            assert(x.base_live(file).contains(id));
            assert(!y.delta.ids@.contains(id)) by {
                if y.delta.ids@.contains(id) {
                    let k = choose|k: int| 0 <= k < y.delta.ids@.len() && y.delta.ids@[k] == id;
                    assert(!y.base_live(file).contains(y.delta.ids@[k]));
                }
            }
        }
    }
}

/// After an id is removed, every other id has the vector it had.
pub proof fn law_remove_keeps_vectors(x: DiskIndex, y: DiskIndex, file: Seq<u8>, id: u64)
    requires
        x.wf(file),
        y.wf(file),
        x.store_vectors,
        y == (DiskIndex { delta: y.delta, tombstones: y.tombstones, ..x }),
        !x.delta.ids@.contains(id) ==> y.delta == x.delta,
        x.delta.ids@.contains(id) ==> exists|i: int|
            #[trigger] y.delta.without_row(x.delta, x.bit_width as int, true, i) && x.delta.ids@[i] == id,
    ensures
        forall|other: u64, v: Seq<u32>|
            x.live(file).contains(other) && other != id ==> (#[trigger] y.is_vector_of(file, other, v)
                <==> x.is_vector_of(file, other, v)),
{
    if x.delta.ids@.contains(id) {
        let i = choose|i: int|
            #[trigger] y.delta.without_row(x.delta, x.bit_width as int, true, i) && x.delta.ids@[i] == id;
        lemma_removed_vectors(x.delta, y.delta, x.bit_width as int, i);
        assert forall|other: u64, v: Seq<u32>| x.live(file).contains(other) && other != id implies (
        #[trigger] y.is_vector_of(file, other, v) <==> x.is_vector_of(file, other, v)) by {
            assert(y.delta.ids@.contains(other) <==> x.delta.ids@.contains(other));
            if x.delta.ids@.contains(other) {
                assert(row_vector(y.delta, other, v) <==> row_vector(x.delta, other, v));
            }
        }
    }
}

/// The bytes of each file.
pub open spec fn contents_of(files: Seq<&[u8]>) -> Seq<Seq<u8>> {
    Seq::new(files.len(), |k: int| files[k]@)
}

impl FreshIndex {
    /// There is a segment file for every partition, long enough for its rows.
    pub open spec fn reads(self, files: Seq<Seq<u8>>) -> bool {
        &&& files.len() == self.partitions@.len()
        &&& forall|k: int| 0 <= k < files.len() ==> self.partitions@[k].file_bytes <= (#[trigger] files[k]).len()
    }

    /// The rows in the segment files.
    pub open spec fn all_rows(self, files: Seq<Seq<u8>>) -> Seq<Seq<Row>> {
        Seq::new(
            self.partitions@.len(),
            |k: int| self.partitions@[k].rows(self.flavor, files[k], self.ng(), self.stored()),
        )
    }

    /// `v` is the vector that the index stores for `id`: the memtable's, or
    /// else that of the first live copy.
    pub open spec fn is_vector_of(self, files: Seq<Seq<u8>>, id: u64, v: Seq<u32>) -> bool {
        if self.memtable.ids@.contains(id) {
            row_vector(self.memtable, id, v)
        } else {
            let copies = copies_of(self.partitions@, self.runs@, id);
            let at = place(self.partitions@, copies[0].partition_id);
            copies.len() > 0 && v == self.all_rows(files)[at][copies[0].row as int].vector
        }
    }

    /// The stored vector of `id` (bit patterns), if it is live. `files` are the
    /// segment files, partition by partition.
    pub fn get_vector(&self, files: &Vec<&[u8]>, id: u64) -> (r: Option<Vec<u32>>)
        requires
            self.wf(),
            self.store_vectors,
            self.reads(contents_of(files@)),
        ensures
            r is Some <==> self.live().contains(id),
            r is Some ==> self.is_vector_of(contents_of(files@), id, r->0@),
    {
        if let Some(v) = self.memtable_vector(id) {
            proof {
                let i = choose|i: int|
                    0 <= i < self.memtable.ids@.len() && self.memtable.ids@[i] == id && v@
                        == #[trigger] crate::batch::row_of(self.memtable.vectors@, i, self.memtable.width());
                assert(self.memtable.ids@[i] == id);
                lemma_row_bounds(i, self.memtable.ids@.len() as int, self.memtable.width());
                assert(v@ == row_of(self.memtable.vectors@, self.memtable.width(), i));
                assert(self.memtable.ids@.to_set().contains(id));
            }
            return Some(v);
        }
        assert(!self.memtable.ids@.to_set().contains(id));
        let copies: Vec<CopyLocation> = live_copies(&self.partitions, &self.runs, id);
        if copies.len() == 0 {
            return None;
        }
        let copy: CopyLocation = copies[0];
        proof {
            lemma_first_copy(self.partitions@, *self, id);
            lemma_place(self.partitions@, copy.partition_id, 0);
        }
        match partition_position(&self.partitions, copy.partition_id) {
            None => None,
            Some(p) => {
                assert(contents_of(files@)[p as int] == files@[p as int]@);
                match self.copy_row_data(copy, files[p]) {
                    None => None,
                    Some(b) => {
                        proof {
                            assert(b@.len() == 1);
                            let row = self.all_rows(contents_of(files@))[p as int][copy.row as int];
                            assert(b@[0] == row);
                            assert(b.vectors@ =~= row.vector);
                        }
                        Some(b.vectors)
                    },
                }
            },
        }
    }
}

/// The first copy names a row that exists.
proof fn lemma_first_copy(parts: Seq<PartitionState>, x: FreshIndex, id: u64)
    requires
        parts == x.partitions@,
        copies_of(parts, x.runs@, id).len() > 0,
    ensures
        ({
            let c = copies_of(parts, x.runs@, id)[0];
            let p = place(parts, c.partition_id);
            0 <= p < parts.len() && c.row < parts[p].n_rows
        }),
{
    let mine = of_id(newest_first(tables(x.runs@)), id);
    let kept = surviving(parts, mine);
    lemma_surviving(parts, mine);
    assert(current(parts, kept[0]));
    lemma_place(parts, kept[0].partition_id, 0);
}

/// Some live row has this id and this vector.
pub open spec fn stores(parts: Seq<PartitionState>, rows: Seq<Seq<Row>>, id: u64, v: Seq<u32>) -> bool {
    exists|k: int, r: int|
        0 <= k < parts.len() && #[trigger] alive(parts[k], r) && rows[k][r].id == id && rows[k][r].vector == v
}

/// All live copies of an id have the same vector.
pub open spec fn same_vectors(parts: Seq<PartitionState>, rows: Seq<Seq<Row>>) -> bool {
    forall|id: u64, v: Seq<u32>, w: Seq<u32>|
        #[trigger] stores(parts, rows, id, v) && #[trigger] stores(parts, rows, id, w) ==> v == w
}

/// Every live row of `b` has id and vector of a live row of `a`.
pub open spec fn drawn_from(
    a: Seq<PartitionState>,
    ra: Seq<Seq<Row>>,
    b: Seq<PartitionState>,
    rb: Seq<Seq<Row>>,
) -> bool {
    forall|k: int, r: int|
        0 <= k < b.len() && #[trigger] alive(b[k], r) ==> stores(a, ra, rb[k][r].id, rb[k][r].vector)
}

/// Where rows only move and are copied, and no id is lost, every id keeps its
/// vector.
pub proof fn law_moved_rows_keep_vectors(
    a: Seq<PartitionState>,
    ra: Seq<Seq<Row>>,
    b: Seq<PartitionState>,
    rb: Seq<Seq<Row>>,
)
    requires
        same_vectors(a, ra),
        drawn_from(a, ra, b, rb),
        stored_ids(a, all_ids(ra)) == stored_ids(b, all_ids(rb)),
        ids_for(a, all_ids(ra)),
        ids_for(b, all_ids(rb)),
    ensures
        same_vectors(b, rb),
        forall|id: u64, v: Seq<u32>| #[trigger] stores(b, rb, id, v) <==> stores(a, ra, id, v),
{
    assert forall|id: u64, v: Seq<u32>| #[trigger] stores(b, rb, id, v) implies stores(a, ra, id, v) by {
        let (k, r) = choose|k: int, r: int|
            0 <= k < b.len() && #[trigger] alive(b[k], r) && rb[k][r].id == id && rb[k][r].vector == v;
        assert(stores(a, ra, rb[k][r].id, rb[k][r].vector));
    }
    assert forall|id: u64, v: Seq<u32>| #[trigger] stores(a, ra, id, v) implies stores(b, rb, id, v) by {
        let (j, q) = choose|j: int, q: int|
            0 <= j < a.len() && #[trigger] alive(a[j], q) && ra[j][q].id == id && ra[j][q].vector == v;
        assert(all_ids(ra)[j].len() == a[j].n_rows);
        assert(alive(a[j], q) && all_ids(ra)[j][q] == id);
        assert(stored(a, all_ids(ra), id));
        assert(stored_ids(b, all_ids(rb)).contains(id));
        let (k, r) = choose|k: int, r: int| 0 <= k < b.len() && #[trigger] alive(b[k], r) && all_ids(rb)[k][r] == id;
        assert(all_ids(rb)[k].len() == b[k].n_rows);
        assert(rb[k][r].id == id);
        let w = rb[k][r].vector;
        assert(stores(b, rb, id, w));
        assert(stores(a, ra, id, w));
        assert(v == w);
    }
}

/// Rows that are appended as copies of live rows are drawn from those, and so
/// are the rows that were there.
pub proof fn law_appended_copies_are_drawn(
    a: Seq<PartitionState>,
    ra: Seq<Seq<Row>>,
    rest: Seq<PartitionState>,
    kept: Seq<Seq<Row>>,
    b: Seq<PartitionState>,
    batches: Seq<RowBatch>,
    ng: int,
    width: int,
)
    requires
        drawn_from(a, ra, rest, kept),
        ids_for(rest, all_ids(kept)),
        batches.len() == rest.len(),
        all_appended(rest, b, batches, ng, width),
        forall|k: int, i: int|
            0 <= k < batches.len() && 0 <= i < batches[k]@.len() ==> stores(
                a,
                ra,
                (#[trigger] batches[k]@[i]).id,
                batches[k]@[i].vector,
            ),
    ensures
        drawn_from(a, ra, b, grown_rows(kept, batches)),
{
    let rb = grown_rows(kept, batches);
    assert forall|k: int, r: int| 0 <= k < b.len() && #[trigger] alive(b[k], r) implies stores(
        a,
        ra,
        rb[k][r].id,
        rb[k][r].vector,
    ) by {
        assert(appended(rest[k], b[k], batches[k]@, ng, width));
        assert(all_ids(kept)[k].len() == rest[k].n_rows);
        if r < rest[k].n_rows {
            if batches[k]@.len() > 0 {
                assert(marked(b[k].dead@, r) == marked(rest[k].dead@, r));
            }
            assert(alive(rest[k], r));
        } else {
            let i = r - rest[k].n_rows;
            assert(rb[k][r] == batches[k]@[i]);
        }
    }
}

/// Splitting a partition keeps every id's vector.
pub proof fn law_split_rows_are_drawn(
    a: Seq<PartitionState>,
    b: Seq<PartitionState>,
    rows: Seq<Seq<Row>>,
    at: int,
    first: Seq<Row>,
    second: Seq<Row>,
    id0: u32,
    id1: u32,
    ng: int,
    width: int,
)
    requires
        0 <= at < a.len(),
        rows.len() == a.len(),
        b.len() == a.len() + 1,
        forall|k: int| 0 <= k < a.len() - 1 ==> #[trigger] b[k] == a.remove(at)[k],
        holds_only(b[a.len() - 1], id0, first, ng, width),
        holds_only(b[a.len() as int], id1, second, ng, width),
        forall|i: int| 0 <= i < first.len() ==> stores(a, rows, (#[trigger] first[i]).id, first[i].vector),
        forall|i: int| 0 <= i < second.len() ==> stores(a, rows, (#[trigger] second[i]).id, second[i].vector),
    ensures
        drawn_from(a, rows, b, rows.remove(at).push(first).push(second)),
{
    let n = a.len() - 1;
    let rb = rows.remove(at).push(first).push(second);
    assert forall|k: int, r: int| 0 <= k < b.len() && #[trigger] alive(b[k], r) implies stores(
        a,
        rows,
        rb[k][r].id,
        rb[k][r].vector,
    ) by {
        if k < n {
            let j = if k < at {
                k
            } else {
                k + 1
            };
            assert(b[k] == a[j] && rb[k] == rows[j]);
            assert(alive(a[j], r));
        } else if k == n {
            assert(rb[k] == first);
            assert(rb[k][r] == first[r]);
        } else {
            assert(rb[k] == second);
            assert(rb[k][r] == second[r]);
        }
    }
}

/// The live primaries of a partition are live rows.
pub proof fn law_primaries_are_stored(parts: Seq<PartitionState>, rows: Seq<Seq<Row>>, at: int, i: int)
    requires
        0 <= at < parts.len(),
        rows[at].len() == parts[at].n_rows,
        0 <= i < live_primary_rows(parts[at], rows[at]).len(),
    ensures
        stores(
            parts,
            rows,
            live_primary_rows(parts[at], rows[at])[i].id,
            live_primary_rows(parts[at], rows[at])[i].vector,
        ),
{
    let dead = parts[at].dead@;
    let prim = live_primary_rows(parts[at], rows[at]);
    let list = live_at(rows[at], dead, 0, true);
    lemma_primaries_only(rows[at], dead, 0);
    lemma_live_at(rows[at], dead, 0, true);
    assert(wanted(rows[at][list[i] - 0], list[i], dead, true));
    assert(alive(parts[at], list[i]) && rows[at][list[i]] == prim[i]);
}

/// Of an id that is in a partition, the index gives the vector of its live
/// rows.
pub proof fn law_lookup_gives_stored_vector(x: FreshIndex, files: Seq<Seq<u8>>, id: u64, v: Seq<u32>)
    requires
        x.wf(),
        x.intact(x.all_rows(files)),
        same_vectors(x.partitions@, x.all_rows(files)),
        !x.memtable.ids@.contains(id),
    ensures
        x.is_vector_of(files, id, v) <==> stores(x.partitions@, x.all_rows(files), id, v),
{
    let parts = x.partitions@;
    let rows = x.all_rows(files);
    let copies = copies_of(parts, x.runs@, id);
    crate::integrity::lemma_copies(x, rows, id);
    if copies.len() > 0 {
        lemma_first_copy(parts, x, id);
        let at = place(parts, copies[0].partition_id);
        let r = copies[0].row as int;
        crate::integrity::lemma_copy_is_live(x, rows, id, 0);
        assert(alive(parts[at], r) && rows[at][r].id == id);
        assert(stores(parts, rows, id, rows[at][r].vector));
    }
    if stores(parts, rows, id, v) {
        let (k, r) = choose|k: int, r: int|
            0 <= k < parts.len() && #[trigger] alive(parts[k], r) && rows[k][r].id == id && rows[k][r].vector == v;
        assert(copy_at(parts, copies, copies.len() as int, k, r));
        assert(copies.len() > 0);
    }
}

/// After vectors are added, each new id has its vector and each earlier id the
/// one it had.
pub proof fn law_fresh_add_keeps_vectors(
    x: FreshIndex,
    y: FreshIndex,
    files: Seq<Seq<u8>>,
    dim: usize,
    ids: Seq<u64>,
    codes: Seq<u8>,
    scales: Seq<u32>,
    vectors: Seq<u32>,
)
    requires
        x.wf(),
        y.wf(),
        x.store_vectors,
        memtable_grown(x, y),
        y.memtable.with_rows(x.memtable, dim, ids, codes, scales, vectors, true),
        x.memtable.dim is Some ==> x.memtable.dim == Some(dim),
        forall|i: int| 0 <= i < ids.len() ==> !x.live().contains(#[trigger] ids[i]),
    ensures
        forall|i: int, v: Seq<u32>|
            0 <= i < ids.len() ==> (#[trigger] y.is_vector_of(files, ids[i], v) <==> v == row_of(
                vectors,
                dim as int,
                i,
            )),
        forall|id: u64, v: Seq<u32>|
            x.live().contains(id) ==> (#[trigger] y.is_vector_of(files, id, v) <==> x.is_vector_of(files, id, v)),
{
    lemma_appended_vectors(x.memtable, y.memtable, x.bit_width as int, dim, ids, codes, scales, vectors);
    let n = x.memtable.ids@.len() as int;
    assert forall|i: int, v: Seq<u32>| 0 <= i < ids.len() implies (#[trigger] y.is_vector_of(files, ids[i], v)
        <==> v == row_of(vectors, dim as int, i)) by {
        assert(y.memtable.ids@[n + i] == ids[i]);
        assert(row_vector(y.memtable, ids[i], v) <==> v == row_of(vectors, dim as int, i));
    }
    assert forall|id: u64, v: Seq<u32>| x.live().contains(id) implies (#[trigger] y.is_vector_of(files, id, v)
        <==> x.is_vector_of(files, id, v)) by {
        if x.memtable.ids@.contains(id) {
            let k = choose|k: int| 0 <= k < n && x.memtable.ids@[k] == id;
            assert(y.memtable.ids@[k] == id);
            assert(row_vector(y.memtable, id, v) <==> row_vector(x.memtable, id, v));
        } else {
            assert(!y.memtable.ids@.contains(id)) by {
                if y.memtable.ids@.contains(id) {
                    let k = choose|k: int| 0 <= k < y.memtable.ids@.len() && y.memtable.ids@[k] == id;
                    assert(ids[k - n] == id);
                }
            }
            if x.memtable.dim is Some {
                assert(y.ng() == x.ng() && y.stored() == x.stored());
                assert(y.all_rows(files) =~= x.all_rows(files));
            } else {
                assert(!x.memtable.ids@.to_set().contains(id));
                let copies = copies_of(x.partitions@, x.runs@, id);
                assert(copies.len() > 0);
                lemma_first_copy(x.partitions@, x, id);
                let at = place(x.partitions@, copies[0].partition_id);
                assert(x.partitions@[at].wf());
                assert(x.partitions@[at].chunks@.len() == 0);
            }
        }
    }
}

/// After an id is removed, every other id has the vector it had.
pub proof fn law_fresh_removal_keeps_vectors(
    x: FreshIndex,
    y: FreshIndex,
    files: Seq<Seq<u8>>,
    id: u64,
    r: Removed,
    other: u64,
    v: Seq<u32>,
)
    requires
        x.wf(),
        y.wf(),
        x.store_vectors,
        x.intact(x.all_rows(files)),
        same_vectors(x.partitions@, x.all_rows(files)),
        removal(x, y, id, r),
        other != id,
        x.live().contains(other),
    ensures
        y.all_rows(files) == x.all_rows(files),
        y.is_vector_of(files, other, v) <==> x.is_vector_of(files, other, v),
        same_vectors(y.partitions@, y.all_rows(files)),
{
    let a = x.partitions@;
    let b = y.partitions@;
    let rows = x.all_rows(files);
    let copies = copies_of(a, x.runs@, id);
    assert(y.memtable.dim == x.memtable.dim);
    if r == Removed::Partitions {
        assert forall|k: int| 0 <= k < a.len() implies #[trigger] y.all_rows(files)[k] == rows[k] by {
            assert(marked_from(a[k], b[k]));
        }
        assert(y.all_rows(files) =~= rows);
        crate::integrity::law_removal_keeps_intact(x, y, rows, id, r);
        crate::integrity::lemma_copies(x, rows, id);
        assert forall|k: int, q: int| 0 <= k < a.len() implies (#[trigger] alive(b[k], q) <==> alive(a[k], q)
            && rows[k][q].id != id) by {
            assert(marked_from(a[k], b[k]));
            if 0 <= q {
                assert(marked(b[k].dead@, q) == (marked(a[k].dead@, q) || copy_at(
                    a,
                    copies,
                    copies.len() as int,
                    k,
                    q,
                )));
            }
            if alive(a[k], q) {
                assert(rows[k][q].id == id <==> copy_at(a, copies, copies.len() as int, k, q));
            }
        }
        assert forall|i: u64, w: Seq<u32>| #[trigger] stores(b, rows, i, w) <==> stores(a, rows, i, w) && i != id by {
            if stores(b, rows, i, w) {
                let (k, q) = choose|k: int, q: int|
                    0 <= k < b.len() && #[trigger] alive(b[k], q) && rows[k][q].id == i && rows[k][q].vector == w;
                assert(alive(a[k], q));
            }
            if stores(a, rows, i, w) && i != id {
                let (k, q) = choose|k: int, q: int|
                    0 <= k < a.len() && #[trigger] alive(a[k], q) && rows[k][q].id == i && rows[k][q].vector == w;
                assert(alive(b[k], q));
            }
        }
        assert(same_vectors(b, rows));
        if !x.memtable.ids@.contains(other) {
            law_lookup_gives_stored_vector(x, files, other, v);
            law_lookup_gives_stored_vector(y, files, other, v);
        }
    } else {
        assert(y.all_rows(files) =~= rows);
        if r == Removed::Memtable {
            let i = choose|i: int|
                #[trigger] y.memtable.without_row(x.memtable, x.bit_width as int, x.store_vectors, i)
                    && x.memtable.ids@[i] == id;
            lemma_removed_vectors(x.memtable, y.memtable, x.bit_width as int, i);
            assert(y.memtable.ids@.contains(other) <==> x.memtable.ids@.contains(other));
            if x.memtable.ids@.contains(other) {
                assert(row_vector(y.memtable, other, v) <==> row_vector(x.memtable, other, v));
            }
        }
    }
}

/// What rows are live after a flush: those that were, and copies of the
/// memtable's.
pub proof fn lemma_flushed_vectors(
    x: FreshIndex,
    b: Seq<PartitionState>,
    rows: Seq<Seq<Row>>,
    lists: Seq<Vec<u32>>,
    batches: Seq<RowBatch>,
    id: u64,
    v: Seq<u32>,
)
    requires
        x.wf(),
        x.store_vectors,
        ids_for(x.partitions@, all_ids(rows)),
        forall|k: int| 0 <= k < b.len() ==> (#[trigger] b[k]).wf(),
        batches.len() == x.partitions@.len(),
        lists.len() >= x.memtable.ids@.len(),
        forall|i: int| 0 <= i < x.memtable.ids@.len() ==> (#[trigger] lists[i])@.len() > 0,
        forall|i: int, d: int|
            0 <= i < x.memtable.ids@.len() && 0 <= d < lists[i]@.len() ==> #[trigger] lists[i]@[d] < batches.len(),
        forall|k: int|
            0 <= k < batches.len() ==> (#[trigger] batches[k])@ == spread_to(
                memtable_rows(x.memtable, x.bit_width as int, true),
                lists,
                k,
            ),
        all_appended(x.partitions@, b, batches, x.ng(), x.stored()),
    ensures
        stores(b, grown_rows(rows, batches), id, v) <==> stores(x.partitions@, rows, id, v) || row_vector(
            x.memtable,
            id,
            v,
        ),
{
    let a = x.partitions@;
    let m = x.memtable;
    let new = memtable_rows(m, x.bit_width as int, true);
    let now = grown_rows(rows, batches);
    let d = m.width();
    assert forall|k: int| 0 <= k < a.len() implies appended(a[k], #[trigger] b[k], batches[k]@, x.ng(), x.stored())
        && rows[k].len() == a[k].n_rows && now[k] == rows[k] + batches[k]@ by {
        assert(appended(a[k], b[k], batches[k]@, x.ng(), x.stored()));
        assert(all_ids(rows)[k].len() == a[k].n_rows);
    }
    assert forall|i: int| 0 <= i < m.ids@.len() implies (#[trigger] new[i]).id == m.ids@[i] && new[i].vector == row_of(
        m.vectors@,
        d,
        i,
    ) by {
        lemma_row_bounds(i, m.ids@.len() as int, d);
    }
    law_lists_deliver(new, lists, batches, id);
    assert(batch_ids(new) =~= m.ids@);
    if stores(b, now, id, v) {
        let (k, r) = choose|k: int, r: int|
            0 <= k < b.len() && #[trigger] alive(b[k], r) && now[k][r].id == id && now[k][r].vector == v;
        assert(appended(a[k], b[k], batches[k]@, x.ng(), x.stored()));
        if r < a[k].n_rows {
            if batches[k]@.len() > 0 {
                assert(marked(b[k].dead@, r) == marked(a[k].dead@, r));
            }
            assert(alive(a[k], r));
        } else {
            let i = r - a[k].n_rows;
            assert(now[k][r] == batches[k]@[i]);
            assert(all_copies(batches[k]@, new));
            assert(is_copy(batches[k]@[i], new));
            let q = choose|q: int| 0 <= q < new.len() && copies_row(batches[k]@[i], #[trigger] new[q]);
            assert(m.ids@[q] == id && v == row_of(m.vectors@, d, q));
        }
    }
    if stores(a, rows, id, v) {
        let (k, r) = choose|k: int, r: int|
            0 <= k < a.len() && #[trigger] alive(a[k], r) && rows[k][r].id == id && rows[k][r].vector == v;
        assert(appended(a[k], b[k], batches[k]@, x.ng(), x.stored()));
        if batches[k]@.len() > 0 {
            assert(marked(b[k].dead@, r) == marked(a[k].dead@, r));
        }
        assert(alive(b[k], r) && now[k][r] == rows[k][r]);
    }
    if row_vector(m, id, v) {
        let q = choose|q: int| 0 <= q < m.ids@.len() && #[trigger] m.ids@[q] == id && v == row_of(m.vectors@, d, q);
        assert(batch_ids(new)[q] == id);
        assert(delivered(batches, id));
        let (k, i) = choose|k: int, i: int|
            0 <= k < batches.len() && 0 <= i < batches[k]@.len() && #[trigger] batches[k]@[i].id == id;
        assert(all_copies(batches[k]@, new));
        assert(is_copy(batches[k]@[i], new));
        let z = choose|z: int| 0 <= z < new.len() && copies_row(batches[k]@[i], #[trigger] new[z]);
        assert(m.ids@[z] == m.ids@[q]);
        assert(appended(a[k], b[k], batches[k]@, x.ng(), x.stored()));
        assert(a[k].wf() && b[k].wf());
        let r = a[k].n_rows + i;
        assert(!marked(a[k].dead@, r));
        assert(marked(b[k].dead@, r) == marked(a[k].dead@, r));
        assert(alive(b[k], r) && now[k][r] == batches[k]@[i]);
    }
}

/// After a flush every live id has the vector it had, and all its copies have
/// it. `after` are the segment files with the memtable's rows appended.
pub proof fn law_flush_keeps_vectors(
    x: FreshIndex,
    placed: FreshIndex,
    y: FreshIndex,
    files: Seq<Seq<u8>>,
    after: Seq<Seq<u8>>,
    lists: Seq<Vec<u32>>,
    batches: Seq<RowBatch>,
    id: u64,
    v: Seq<u32>,
)
    requires
        x.wf(),
        placed.wf(),
        y.wf(),
        x.store_vectors,
        x.intact(x.all_rows(files)),
        same_vectors(x.partitions@, x.all_rows(files)),
        placed.runs@ == x.runs@,
        placed.next_partition_id == x.next_partition_id,
        batches.len() == x.partitions@.len(),
        lists.len() >= x.memtable.ids@.len(),
        forall|i: int|
            0 <= i < x.memtable.ids@.len() ==> (#[trigger] lists[i])@.len() > 0 && (forall|d: int|
                0 <= d < lists[i]@.len() ==> #[trigger] lists[i]@[d] < batches.len()),
        forall|k: int|
            0 <= k < batches.len() ==> (#[trigger] batches[k])@ == spread_to(
                memtable_rows(x.memtable, x.bit_width as int, x.store_vectors),
                lists,
                k,
            ),
        all_appended(x.partitions@, placed.partitions@, batches, x.ng(), x.stored()),
        total(tables(x.runs@)) + entries_upto(x.partitions@, batches, batches.len() as int).len() <= u64::MAX,
        y.partitions@ == placed.partitions@,
        y.next_partition_id == x.next_partition_id,
        y.memtable.ids@.len() == 0,
        tables(y.runs@) == runs_after(
            placed.partitions@,
            tables(x.runs@),
            entries_upto(x.partitions@, batches, batches.len() as int),
        ),
        y.all_rows(after) == grown_rows(x.all_rows(files), batches),
        x.live().contains(id),
    ensures
        y.is_vector_of(after, id, v) <==> x.is_vector_of(files, id, v),
        same_vectors(y.partitions@, y.all_rows(after)),
        y.intact(y.all_rows(after)),
{
    let a = x.partitions@;
    let b = y.partitions@;
    let rows = x.all_rows(files);
    let now = grown_rows(rows, batches);
    let m = x.memtable;
    law_flush_keeps_intact(x, placed, y, rows, lists, batches);
    assert forall|k: int| 0 <= k < b.len() implies (#[trigger] b[k]).wf() by {}
    assert forall|i: int, d: int| 0 <= i < m.ids@.len() && 0 <= d < lists[i]@.len() implies #[trigger] lists[i]@[d]
        < batches.len() by {
        assert(lists[i]@.len() > 0);
    }
    assert forall|i: u64, w: Seq<u32>| #[trigger] stores(b, now, i, w) <==> stores(a, rows, i, w) || row_vector(
        m,
        i,
        w,
    ) by {
        lemma_flushed_vectors(x, b, rows, lists, batches, i, w);
    }
    assert forall|i: u64, w: Seq<u32>, u: Seq<u32>|
        stores(a, rows, i, w) && row_vector(m, i, u) implies false by {
        let q = choose|q: int| 0 <= q < m.ids@.len() && #[trigger] m.ids@[q] == i && u == row_of(m.vectors@, m.width(), q);
        assert(m.ids@.to_set().contains(i));
        crate::integrity::lemma_stored_is_found(x, rows, i, w);
    }
    assert forall|i: u64, w: Seq<u32>, u: Seq<u32>|
        #[trigger] row_vector(m, i, w) && #[trigger] row_vector(m, i, u) implies w == u by {
        let q = choose|q: int| 0 <= q < m.ids@.len() && #[trigger] m.ids@[q] == i && w == row_of(m.vectors@, m.width(), q);
        let z = choose|z: int| 0 <= z < m.ids@.len() && #[trigger] m.ids@[z] == i && u == row_of(m.vectors@, m.width(), z);
        assert(m.ids@[q] == m.ids@[z]);
    }
    assert(same_vectors(b, now));
    assert(!y.memtable.ids@.contains(id));
    law_lookup_gives_stored_vector(y, after, id, v);
    if m.ids@.contains(id) {
        assert(m.ids@.to_set().contains(id));
        if stores(a, rows, id, v) {
            crate::integrity::lemma_stored_is_found(x, rows, id, v);
        }
    } else {
        law_lookup_gives_stored_vector(x, files, id, v);
        if row_vector(m, id, v) {
            let q = choose|q: int| 0 <= q < m.ids@.len() && #[trigger] m.ids@[q] == id && v == row_of(m.vectors@, m.width(), q);
            assert(m.ids@.contains(m.ids@[q]));
        }
    }
}

} // verus!
