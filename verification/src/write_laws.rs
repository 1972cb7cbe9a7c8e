//! What a written file gives back.
use vstd::prelude::*;
use crate::compact::{
    law_every_row_has_a_primary, picked, rows_of, slots_of, GatheredRows, Placement, SegmentParams,
};
use crate::contents::{ids_in, vectors_in};
use crate::disk::{holds_slot, row_of, DiskIndex};
use crate::gather::{at_slots, lemma_survivors, rows_at_slots};
use crate::segment::{firsts, id_slots, seconds, Segment};
use crate::segment_laws::{lemma_file_values, lemma_id_tables, lemma_sorted_ids};
use crate::sort::{lemma_same_elements, lemma_sorted_pairs, sorted_pairs};
use crate::tvdm::{hdr_dim, hdr_slots, u64_section, BaseSegment};
use crate::write::{
    consistent, law_write_keeps_ids, law_written_file_is_consistent, lemma_gathered_ids, lemma_gathered_wf,
};

verus! {

/// The id table lists every slot under its id, and all copies of an id hold
/// the same vector.
pub open spec fn faithful(file: Seq<u8>) -> bool {
    &&& forall|i: int|
        0 <= i < hdr_slots(file) ==> (#[trigger] u64_section(file, 9)[i]) < hdr_slots(file) && u64_section(
            file,
            7,
        )[u64_section(file, 9)[i] as int] == u64_section(file, 8)[i]
    &&& forall|a: int| 0 <= a < hdr_slots(file) ==> holds_slot(file, #[trigger] u64_section(file, 7)[a], a)
    &&& file[7] == 1 ==> forall|a: int, b: int|
        0 <= a < hdr_slots(file) && 0 <= b < hdr_slots(file) && #[trigger] u64_section(file, 7)[a]
            == #[trigger] u64_section(file, 7)[b] ==> row_of(vectors_in(file), hdr_dim(file) as int, a)
            == row_of(vectors_in(file), hdr_dim(file) as int, b)
}

/// A picked row is the row that was picked.
pub proof fn lemma_picked_row<T>(src: Seq<T>, w: int, idx: Seq<usize>, n: int, j: int)
    requires
        0 <= w,
        src.len() == n * w,
        0 <= j < idx.len(),
        idx[j] < n,
    ensures
        row_of(picked(src, w, idx), w, j) == row_of(src, w, idx[j] as int),
{
    let i = idx[j] as int;
    assert((j + 1) * w == j * w + w && (i + 1) * w == i * w + w) by (nonlinear_arith);
    assert(0 <= j * w && (j + 1) * w <= idx.len() * w) by (nonlinear_arith)
        requires
            0 <= j < idx.len(),
            0 <= w,
    ;
    assert(0 <= i * w && (i + 1) * w <= n * w) by (nonlinear_arith)
        requires
            0 <= i < n,
            0 <= w,
    ;
    let got = row_of(picked(src, w, idx), w, j);
    let want = row_of(src, w, i);
    assert forall|q: int| 0 <= q < w implies #[trigger] got[q] == want[q] by {
        vstd::arithmetic::div_mod::lemma_fundamental_div_mod_converse(j * w + q, w, j, q);
        assert(picked(src, w, idx)[j * w + q] == src[i * w + q]);
    }
    assert(got =~= want);
}

/// The row of a kept slot is the slot's row.
proof fn lemma_slot_row<T>(src: Seq<T>, w: int, slots: Seq<int>, n: int, j: int)
    requires
        0 <= w,
        src.len() == n * w,
        0 <= j < slots.len(),
        0 <= slots[j] < n,
    ensures
        row_of(rows_at_slots(src, w, slots), w, j) == row_of(src, w, slots[j]),
{
    let i = slots[j];
    assert((j + 1) * w == j * w + w && (i + 1) * w == i * w + w) by (nonlinear_arith);
    assert(0 <= j * w && (j + 1) * w <= slots.len() * w) by (nonlinear_arith)
        requires
            0 <= j < slots.len(),
            0 <= w,
    ;
    assert(0 <= i * w && (i + 1) * w <= n * w) by (nonlinear_arith)
        requires
            0 <= i < n,
            0 <= w,
    ;
    let got = row_of(rows_at_slots(src, w, slots), w, j);
    let want = row_of(src, w, i);
    assert forall|q: int| 0 <= q < w implies #[trigger] got[q] == want[q] by {
        vstd::arithmetic::div_mod::lemma_fundamental_div_mod_converse(j * w + q, w, j, q);
        assert(rows_at_slots(src, w, slots)[j * w + q] == src[i * w + q]);
    }
    assert(got =~= want);
}

/// Rows in front of others, and behind them.
proof fn lemma_row_of_concat<T>(a: Seq<T>, b: Seq<T>, w: int, k: int, m: int, j: int)
    requires
        0 <= w,
        a.len() == k * w,
        b.len() == m * w,
        0 <= j < k + m,
    ensures
        j < k ==> row_of(a + b, w, j) == row_of(a, w, j),
        j >= k ==> row_of(a + b, w, j) == row_of(b, w, j - k),
{
    assert((j + 1) * w == j * w + w) by (nonlinear_arith);
    assert(0 <= j * w) by (nonlinear_arith)
        requires
            0 <= j,
            0 <= w,
    ;
    if j < k {
        assert((j + 1) * w <= k * w) by (nonlinear_arith)
            requires
                j + 1 <= k,
                0 <= w,
        ;
        assert(row_of(a + b, w, j) =~= row_of(a, w, j));
    } else {
        let i = j - k;
        assert(j * w == k * w + i * w && (i + 1) * w == i * w + w) by (nonlinear_arith)
            requires
                j == k + i,
        ;
        assert((i + 1) * w <= m * w && 0 <= i * w) by (nonlinear_arith)
            requires
                0 <= i,
                i + 1 <= m,
                0 <= w,
        ;
        assert(row_of(a + b, w, j) =~= row_of(b, w, i));
    }
}

/// What a slot of a written file holds: the id and the vector of its row.
pub proof fn lemma_slot_of_written(s: Segment, params: SegmentParams, g: GatheredRows, p: Placement, a: int)
    requires
        s.wf(),
        s.places(params, g, p),
        g.wf(params),
        p.wf(g.ids@.len() as int, params.dim as int),
        0 <= a < s.ids@.len(),
    ensures
        s.ids@.len() == slots_of(p).len(),
        slots_of(p)[a].row < g.ids@.len(),
        u64_section(s.file(), 7)[a] == g.ids@[slots_of(p)[a].row as int],
        params.has_vectors ==> row_of(vectors_in(s.file()), hdr_dim(s.file()) as int, a) == row_of(
            g.vectors@,
            params.dim as int,
            slots_of(p)[a].row as int,
        ),
{
    let n = g.ids@.len() as int;
    let e = slots_of(p);
    lemma_file_values(s);
    lemma_id_tables(s);
    lemma_sorted_pairs(crate::compact::entry_keys(crate::compact::listed(p.assignments@, p.replicas@, n)));
    assert(s.ids@.len() == e.len());
    assert(g.ids.len() == g.ids@.len());
    crate::segment::lemma_slot_headroom(s);
    crate::compact::lemma_slots(p, n, params.dim as int);
    assert(e[a].row < n);
    assert(rows_of(e)[a] == e[a].row);
    if params.has_vectors {
        crate::contents::lemma_words_written(s, 11, s.vectors@);
        let dim = params.dim as int;
        assert(s.vectors@.len() == s.ids@.len() * dim);
        assert(vectors_in(s.file()) == s.vectors@);
        lemma_picked_row(g.vectors@, dim, rows_of(e), n, a);
    }
}

/// The id table of a written file lists every slot under its id.
proof fn lemma_id_table_lists(s: Segment, a: int)
    requires
        s.wf(),
        0 <= a < s.ids@.len(),
    ensures
        holds_slot(s.file(), s.ids@[a], a),
{
    let pairs = id_slots(s.ids@);
    let sorted = sorted_pairs(pairs);
    lemma_file_values(s);
    lemma_id_tables(s);
    crate::segment::lemma_slot_headroom(s);
    lemma_sorted_ids(s.ids@);
    lemma_sorted_pairs(pairs);
    lemma_same_elements(sorted, pairs);
    assert(pairs.contains(pairs[a]));
    assert(sorted.contains(pairs[a]));
    let i = choose|i: int| 0 <= i < sorted.len() && sorted[i] == pairs[a];
    assert(firsts(sorted)[i] == s.ids@[a] && seconds(sorted)[i] == a);
    assert(u64_section(s.file(), 8)[i] == s.ids@[a]);
}

/// A file with the rows of a placement lists every slot under its id, and
/// repeats in every copy of an id the same vector.
pub proof fn law_written_file_is_faithful(s: Segment, params: SegmentParams, g: GatheredRows, p: Placement)
    requires
        s.wf(),
        s.places(params, g, p),
        g.wf(params),
        p.wf(g.ids@.len() as int, params.dim as int),
    ensures
        faithful(s.file()),
{
    let file = s.file();
    lemma_file_values(s);
    lemma_id_tables(s);
    crate::segment::lemma_slot_headroom(s);
    lemma_sorted_ids(s.ids@);
    assert forall|a: int| 0 <= a < hdr_slots(file) implies holds_slot(
        file,
        #[trigger] u64_section(file, 7)[a],
        a,
    ) by {
        lemma_id_table_lists(s, a);
    }
    if file[7] == 1 {
        assert forall|a: int, b: int|
            0 <= a < hdr_slots(file) && 0 <= b < hdr_slots(file) && #[trigger] u64_section(file, 7)[a]
                == #[trigger] u64_section(file, 7)[b] implies row_of(vectors_in(file), hdr_dim(file) as int, a)
            == row_of(vectors_in(file), hdr_dim(file) as int, b) by {
            lemma_slot_of_written(s, params, g, p, a);
            lemma_slot_of_written(s, params, g, p, b);
        }
    }
}

/// The gathered row of an id has the id's vector.
proof fn lemma_gathered_vector(x: DiskIndex, file: Seq<u8>, g: GatheredRows, i: int, v: Seq<u32>)
    requires
        x.wf(file),
        x.store_vectors,
        x.base is Some ==> consistent(file) && faithful(file),
        x.gathers(file, g),
        0 <= i < g.ids@.len(),
    ensures
        x.is_vector_of(file, g.ids@[i], v) <==> v == row_of(g.vectors@, x.delta.width(), i),
{
    let slots = x.kept_slots(file);
    let dim = x.delta.width();
    let k = slots.len() as int;
    let m = x.delta.ids@.len() as int;
    let id = g.ids@[i];
    let base = rows_at_slots(vectors_in(file), dim, slots);
    let ids = at_slots(u64_section(file, 7), slots);
    assert(g.vectors@ == base + x.delta.vectors@);
    assert(0 <= k * dim) by (nonlinear_arith)
        requires
            0 <= k,
            0 <= dim,
    ;
    lemma_row_of_concat(base, x.delta.vectors@, dim, k, m, i);
    lemma_gathered_ids(x, file, g);
    if i >= k {
        assert(x.delta.ids@[i - k] == id);
        assert(x.delta.ids@.contains(id));
        assert forall|j: int| 0 <= j < m && #[trigger] x.delta.ids@[j] == id implies j == i - k by {
            assert(g.ids@[k + j] == g.ids@[i]);
        }
    } else {
        let n = hdr_slots(file) as int;
        lemma_survivors(file, x.tombstones@, n);
        let slot = slots[i];
        assert(ids[i] == id);
        assert(u64_section(file, 7)[slot] == id);
        if x.delta.ids@.contains(id) {
            let j = choose|j: int| 0 <= j < m && x.delta.ids@[j] == id;
            assert(g.ids@[k + j] == g.ids@[i]);
        }
        x.base->0.lemma_describes(file);
        assert(hdr_dim(file) == dim);
        assert(vectors_in(file).len() == n * dim);
        lemma_slot_row(vectors_in(file), dim, slots, n, i);
        assert(holds_slot(file, u64_section(file, 7)[slot], slot));
        assert forall|other: int| #[trigger] holds_slot(file, id, other) implies row_of(
            vectors_in(file),
            dim,
            other,
        ) == row_of(vectors_in(file), dim, slot) by {
            let t = choose|t: int|
                0 <= t < hdr_slots(file) && #[trigger] u64_section(file, 8)[t] == id && u64_section(file, 9)[t]
                    == other;
            assert(u64_section(file, 9)[t] < hdr_slots(file));
            assert(u64_section(file, 7)[other] == u64_section(file, 7)[slot]);
        }
    }
}

/// Row `i` has a slot in the file, listed under its id, with its vector.
proof fn lemma_row_is_listed(s: Segment, params: SegmentParams, g: GatheredRows, p: Placement, i: int) -> (j: int)
    requires
        s.wf(),
        s.places(params, g, p),
        g.wf(params),
        params.has_vectors,
        p.wf(g.ids@.len() as int, params.dim as int),
        0 <= i < g.ids@.len(),
    ensures
        0 <= j < s.ids@.len(),
        holds_slot(s.file(), g.ids@[i], j),
        u64_section(s.file(), 7)[j] == g.ids@[i],
        row_of(vectors_in(s.file()), hdr_dim(s.file()) as int, j) == row_of(g.vectors@, params.dim as int, i),
{
    let n = g.ids@.len() as int;
    assert(g.ids.len() == n);
    lemma_sorted_pairs(crate::compact::entry_keys(crate::compact::listed(p.assignments@, p.replicas@, n)));
    crate::segment::lemma_slot_headroom(s);
    assert(s.ids@.len() == slots_of(p).len());
    law_every_row_has_a_primary(p, n, params.dim as int, i);
    let j = choose|j: int|
        0 <= j < slots_of(p).len() && (#[trigger] slots_of(p)[j]).row == i && !slots_of(p)[j].replica
            && slots_of(p)[j].partition == p.assignments@[i];
    lemma_slot_of_written(s, params, g, p, j);
    lemma_id_tables(s);
    lemma_id_table_lists(s, j);
    j
}

/// In a faithful file every slot that is listed under an id holds the same
/// vector.
pub proof fn lemma_listed_vectors_agree(file: Seq<u8>, id: u64, a: int, b: int)
    requires
        faithful(file),
        file[7] == 1,
        holds_slot(file, id, a),
        holds_slot(file, id, b),
    ensures
        row_of(vectors_in(file), hdr_dim(file) as int, a) == row_of(vectors_in(file), hdr_dim(file) as int, b),
{
    let t = choose|t: int|
        0 <= t < hdr_slots(file) && #[trigger] u64_section(file, 8)[t] == id && u64_section(file, 9)[t] == a;
    let u = choose|u: int|
        0 <= u < hdr_slots(file) && #[trigger] u64_section(file, 8)[u] == id && u64_section(file, 9)[u] == b;
    assert(u64_section(file, 9)[t] < hdr_slots(file));
    assert(u64_section(file, 9)[u] < hdr_slots(file));
    assert(u64_section(file, 7)[a] == u64_section(file, 7)[b]);
}

/// Writing an index and going on from the file gives back every stored vector:
/// a vector is read for an id afterwards exactly if it was before.
pub proof fn law_write_keeps_vectors(
    x: DiskIndex,
    file: Seq<u8>,
    g: GatheredRows,
    p: Placement,
    s: Segment,
    y: DiskIndex,
    id: u64,
    v: Seq<u32>,
)
    requires
        x.wf(file),
        x.store_vectors,
        x.base is Some ==> consistent(file) && faithful(file),
        x.gathers(file, g),
        p.wf(g.ids@.len() as int, x.delta.width()),
        s.wf(),
        s.places(x.segment_params(), g, p),
        y.delta.ids@.len() == 0,
        x.live(file).contains(id),
    ensures
        y.is_vector_of(s.file(), id, v) <==> x.is_vector_of(file, id, v),
        faithful(s.file()),
{
    let params = x.segment_params();
    lemma_gathered_ids(x, file, g);
    lemma_gathered_wf(x, file, g);
    law_written_file_is_faithful(s, params, g, p);
    lemma_file_values(s);
    assert(g.ids@.to_set().contains(id));
    let i = choose|i: int| 0 <= i < g.ids@.len() && g.ids@[i] == id;
    lemma_gathered_vector(x, file, g, i, v);
    let j = lemma_row_is_listed(s, params, g, p, i);
    assert forall|slot: int| #[trigger] holds_slot(s.file(), id, slot) implies row_of(
        vectors_in(s.file()),
        hdr_dim(s.file()) as int,
        slot,
    ) == row_of(g.vectors@, x.delta.width(), i) by {
        lemma_listed_vectors_agree(s.file(), id, slot, j);
    }
    assert(!y.delta.ids@.contains(id));
}

/// An index that is opened from a written file agrees with the one that wrote
/// it: dimensionality, code width, stored vectors, partitioning, replication,
/// the live ids and so the length.
pub proof fn law_reopened_file_agrees(
    x: DiskIndex,
    file: Seq<u8>,
    g: GatheredRows,
    p: Placement,
    s: Segment,
    seg: BaseSegment,
    y: DiskIndex,
)
    requires
        x.wf(file),
        x.base is Some ==> consistent(file),
        x.gathers(file, g),
        p.wf(g.ids@.len() as int, x.delta.width()),
        s.wf(),
        s.places(x.segment_params(), g, p),
        seg.describes(s.file()),
        y.wf(s.file()),
        y.base == Some(seg),
        y.bit_width == seg.bit_width,
        y.delta.dim == (if seg.dim == 0 {
            None
        } else {
            Some(seg.dim)
        }),
        y.live(s.file()) == ids_in(s.file()),
        y.store_vectors == seg.has_vectors,
        y.partition_target == (if seg.file_partition_target == 0 {
            None
        } else {
            Some(seg.file_partition_target as u32)
        }),
        y.replica_epsilon == seg.file_replica_epsilon,
    ensures
        y.bit_width == x.bit_width,
        y.delta.dim == x.delta.dim,
        y.store_vectors == x.store_vectors,
        y.partition_target == x.partition_target,
        y.replica_epsilon == x.replica_epsilon,
        y.live(s.file()) == x.live(file),
        consistent(s.file()),
{
    law_write_keeps_ids(x, file, g, p, s);
    lemma_gathered_ids(x, file, g);
    lemma_gathered_wf(x, file, g);
    law_written_file_is_consistent(s, x.segment_params(), g, p);
    seg.lemma_describes(s.file());
    lemma_file_values(s);
}

} // verus!
