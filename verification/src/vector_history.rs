//! A stored vector outlives whatever else happens to an index.
use vstd::prelude::*;
use crate::batch::{sent_to, Row, RowBatch};
use crate::bits::marked;
use crate::copies::copies_of;
use crate::disk::row_of;
use crate::flush_laws::{all_copies, all_ids, copies_row, is_copy, law_lists_deliver};
use crate::fresh::FreshIndex;
use crate::fresh_write::{copy_at, marked_from, removal, removals, Removed};
use crate::history::{law_steps_keep_sound, leads, Stage, Step};
use crate::indexed::{alive, ids_for, stored};
use crate::partition::{lemma_live_at, live_at, live_of, wanted, PartitionState};
use crate::primaries::{lemma_sent_at, sent_at};
use crate::restructure::just_made;
use crate::restructure_laws::live_primary_rows;
use crate::vectors::{
    drawn_from, law_appended_copies_are_drawn, law_primaries_are_stored, law_split_rows_are_drawn,
    lemma_appended_vectors, lemma_flushed_vectors, lemma_removed_vectors, row_vector, stores,
};

verus! {

/// Some row of the memtable or of a partition has this id and this vector.
pub open spec fn holds_vector(a: Stage, id: u64, v: Seq<u32>) -> bool {
    row_vector(a.x.memtable, id, v) || stores(a.x.partitions@, a.rows, id, v)
}

/// Vectors are stored, one for an id.
pub open spec fn clear(a: Stage) -> bool {
    &&& a.sound()
    &&& a.x.store_vectors
    &&& forall|id: u64, v: Seq<u32>, w: Seq<u32>|
        #[trigger] holds_vector(a, id, v) && #[trigger] holds_vector(a, id, w) ==> v == w
}

/// The rows are live ones.
pub open spec fn all_stored(a: Stage, rows: Seq<Row>) -> bool {
    forall|i: int|
        0 <= i < rows.len() ==> stores(a.x.partitions@, a.rows, (#[trigger] rows[i]).id, rows[i].vector)
}

/// The rows of all batches are live ones.
pub open spec fn batches_stored(a: Stage, batches: Seq<RowBatch>) -> bool {
    forall|k: int| 0 <= k < batches.len() ==> all_stored(a, (#[trigger] batches[k])@)
}

/// The operation leads from `a` to `b` and takes vectors along: what moves or
/// is copied is a live row, and what is added comes with its vectors.
pub open spec fn carries(a: Stage, b: Stage, step: Step) -> bool {
    &&& leads(a, b, step)
    &&& b.x.store_vectors
    &&& match step {
        Step::Add { ids, vectors } => exists|dim: usize, codes: Seq<u8>, scales: Seq<u32>| #[trigger]
            b.x.memtable.with_rows(a.x.memtable, dim, ids, codes, scales, vectors, true) && (a.x.memtable.dim is Some
                ==> a.x.memtable.dim == Some(dim)),
        Step::Remove { ids, states, outcomes } => true,
        Step::Reassign { at, mid, gone, moved, places, batches } => {
            b.x.memtable == a.x.memtable && all_stored(a, moved)
        },
        Step::Replicate { batches } => b.x.memtable == a.x.memtable && batches_stored(a, batches),
        Step::Rebuild { made, all, lists, batches } => b.x.memtable == a.x.memtable && all_stored(a, all),
        Step::Seal => !a.draining ==> b.x.memtable == a.x.memtable,
        Step::Reopen => true,
        _ => b.x.memtable == a.x.memtable,
    }
}

/// Every vector of `b` is one of `a`.
spec fn nothing_new(a: Stage, b: Stage) -> bool {
    forall|id: u64, v: Seq<u32>| #[trigger] holds_vector(b, id, v) ==> holds_vector(a, id, v)
}

/// Live rows that are live rows of `a` bring in nothing.
proof fn lemma_drawn(a: Stage, b: Stage)
    requires
        drawn_from(a.x.partitions@, a.rows, b.x.partitions@, b.rows),
        forall|id: u64, v: Seq<u32>| #[trigger] row_vector(b.x.memtable, id, v) ==> row_vector(a.x.memtable, id, v),
    ensures
        nothing_new(a, b),
{
    assert forall|id: u64, v: Seq<u32>| #[trigger] holds_vector(b, id, v) implies holds_vector(a, id, v) by {
        if stores(b.x.partitions@, b.rows, id, v) {
            let (k, r) = choose|k: int, r: int|
                0 <= k < b.x.partitions@.len() && #[trigger] alive(b.x.partitions@[k], r) && b.rows[k][r].id == id
                    && b.rows[k][r].vector == v;
            assert(stores(a.x.partitions@, a.rows, b.rows[k][r].id, b.rows[k][r].vector));
        }
    }
}

/// Where live rows are the same, they are drawn from each other.
proof fn lemma_fewer_rows(a: Stage, b: Stage)
    requires
        forall|k: int, r: int|
            0 <= k < b.x.partitions@.len() && #[trigger] alive(b.x.partitions@[k], r) ==> k < a.x.partitions@.len()
                && alive(a.x.partitions@[k], r) && b.rows[k][r] == a.rows[k][r],
    ensures
        drawn_from(a.x.partitions@, a.rows, b.x.partitions@, b.rows),
{
    let p = a.x.partitions@;
    assert forall|k: int, r: int| 0 <= k < b.x.partitions@.len() && #[trigger] alive(
        b.x.partitions@[k],
        r,
    ) implies stores(p, a.rows, b.rows[k][r].id, b.rows[k][r].vector) by {
        assert(alive(p[k], r));
    }
}

/// Rows that are sent somewhere are live if they were.
proof fn lemma_sent_stored(a: Stage, rows: Seq<Row>, places: Seq<u32>, k: int)
    requires
        all_stored(a, rows),
    ensures
        all_stored(a, sent_to(rows, places, k)),
{
    lemma_sent_at(rows, places, k);
    let out = sent_to(rows, places, k);
    assert forall|i: int| 0 <= i < out.len() implies stores(
        a.x.partitions@,
        a.rows,
        (#[trigger] out[i]).id,
        out[i].vector,
    ) by {
        let x = sent_at(rows, places, k)[i];
        assert(stores(a.x.partitions@, a.rows, rows[x].id, rows[x].vector));
    }
}

proof fn lemma_primaries_stored(a: Stage, at: int)
    requires
        0 <= at < a.x.partitions@.len(),
        ids_for(a.x.partitions@, all_ids(a.rows)),
    ensures
        all_stored(a, live_primary_rows(a.x.partitions@[at], a.rows[at])),
{
    let prim = live_primary_rows(a.x.partitions@[at], a.rows[at]);
    assert(all_ids(a.rows)[at].len() == a.x.partitions@[at].n_rows);
    assert forall|i: int| 0 <= i < prim.len() implies stores(
        a.x.partitions@,
        a.rows,
        (#[trigger] prim[i]).id,
        prim[i].vector,
    ) by {
        law_primaries_are_stored(a.x.partitions@, a.rows, at, i);
    }
}

/// Work on one partition brings in no vector.
proof fn lemma_rewrites_bring_nothing(a: Stage, b: Stage, step: Step)
    requires
        clear(a),
        carries(a, b, step),
        step is Other || step is CreatePartition || step is TierMerge || step is Compact || step is Split,
    ensures
        nothing_new(a, b),
{
    let p = a.x.partitions@;
    let q = b.x.partitions@;
    match step {
        Step::TierMerge { at, from, len } => {
            assert forall|k: int, r: int| 0 <= k < q.len() && #[trigger] alive(q[k], r) implies k < p.len() && alive(
                p[k],
                r,
            ) && b.rows[k][r] == a.rows[k][r] by {
                if k != at {
                    assert(q[k] == p[k]);
                }
            }
            lemma_fewer_rows(a, b);
        },
        Step::Compact { at } => {
            let dead = p[at].dead@;
            let live = live_of(a.rows[at], dead, 0, false);
            let list = live_at(a.rows[at], dead, 0, false);
            assert(all_ids(a.rows)[at].len() == p[at].n_rows);
            lemma_live_at(a.rows[at], dead, 0, false);
            assert forall|k: int, r: int| 0 <= k < q.len() && #[trigger] alive(q[k], r) implies stores(
                p,
                a.rows,
                b.rows[k][r].id,
                b.rows[k][r].vector,
            ) by {
                if k == at {
                    assert(wanted(a.rows[at][list[r] - 0], list[r], dead, false));
                    assert(alive(p[at], list[r]) && a.rows[at][list[r]] == live[r]);
                } else {
                    assert(q[k] == p[k]);
                    assert(alive(p[k], r));
                }
            }
        },
        Step::Split { at, children } => {
            let prim = live_primary_rows(p[at], a.rows[at]);
            lemma_primaries_stored(a, at);
            lemma_sent_stored(a, prim, children, 0);
            lemma_sent_stored(a, prim, children, 1);
            law_split_rows_are_drawn(
                p,
                q,
                a.rows,
                at,
                sent_to(prim, children, 0),
                sent_to(prim, children, 1),
                a.x.next_partition_id,
                (a.x.next_partition_id + 1) as u32,
                a.x.ng(),
                a.x.stored(),
            );
        },
        Step::CreatePartition { p: made } => {
            lemma_fewer_rows(a, b);
        },
        _ => {
            lemma_fewer_rows(a, b);
        },
    }
    lemma_drawn(a, b);
}

/// The partitions without one hold live rows of all.
proof fn lemma_others_drawn(p: Seq<PartitionState>, rows: Seq<Seq<Row>>, at: int)
    requires
        0 <= at < p.len(),
        ids_for(p, all_ids(rows)),
    ensures
        drawn_from(p, rows, p.remove(at), rows.remove(at)),
        ids_for(p.remove(at), all_ids(rows.remove(at))),
{
    let rest = p.remove(at);
    let kept = rows.remove(at);
    assert forall|k: int| 0 <= k < rest.len() implies (#[trigger] all_ids(kept)[k]).len() == rest[k].n_rows by {
        let j = if k < at {
            k
        } else {
            k + 1
        };
        assert(all_ids(rows)[j].len() == p[j].n_rows);
    }
    assert forall|k: int, r: int| 0 <= k < rest.len() && #[trigger] alive(rest[k], r) implies stores(
        p,
        rows,
        kept[k][r].id,
        kept[k][r].vector,
    ) by {
        let j = if k < at {
            k
        } else {
            k + 1
        };
        assert(alive(p[j], r));
    }
}

/// The rows that a dissolved partition sends away are live ones.
proof fn lemma_sent_batches(a: Stage, at: int, places: Seq<u32>, batches: Seq<RowBatch>)
    requires
        0 <= at < a.x.partitions@.len(),
        ids_for(a.x.partitions@, all_ids(a.rows)),
        forall|k: int|
            0 <= k < batches.len() ==> (#[trigger] batches[k])@ == sent_to(
                live_primary_rows(a.x.partitions@[at], a.rows[at]),
                places,
                k,
            ),
    ensures
        forall|k: int, i: int|
            0 <= k < batches.len() && 0 <= i < batches[k]@.len() ==> stores(
                a.x.partitions@,
                a.rows,
                (#[trigger] batches[k]@[i]).id,
                batches[k]@[i].vector,
            ),
{
    lemma_primaries_stored(a, at);
    assert forall|k: int, i: int| 0 <= k < batches.len() && 0 <= i < batches[k]@.len() implies stores(
        a.x.partitions@,
        a.rows,
        (#[trigger] batches[k]@[i]).id,
        batches[k]@[i].vector,
    ) by {
        lemma_sent_stored(a, live_primary_rows(a.x.partitions@[at], a.rows[at]), places, k);
    }
}

/// Dissolving a partition brings in no vector.
proof fn lemma_dissolving_brings_nothing(
    a: Stage,
    b: Stage,
    at: int,
    places: Seq<u32>,
    batches: Seq<RowBatch>,
)
    requires
        clear(a),
        carries(a, b, Step::Dissolve { at, places, batches }),
    ensures
        nothing_new(a, b),
{
    let p = a.x.partitions@;
    lemma_others_drawn(p, a.rows, at);
    lemma_sent_batches(a, at, places, batches);
    law_appended_copies_are_drawn(
        p,
        a.rows,
        p.remove(at),
        a.rows.remove(at),
        b.x.partitions@,
        batches,
        a.x.ng(),
        a.x.stored(),
    );
    lemma_drawn(a, b);
}

/// Reassigning rows brings in no vector.
proof fn lemma_reassigning_brings_nothing(a: Stage, b: Stage, step: Step)
    requires
        clear(a),
        carries(a, b, step),
        step is Reassign,
    ensures
        nothing_new(a, b),
{
    let p = a.x.partitions@;
    let q = b.x.partitions@;
    let ng = a.x.ng();
    let width = a.x.stored();
    match step {
        Step::Reassign { at, mid, gone, moved, places, batches } => {
            assert forall|k: int, r: int| 0 <= k < mid.len() && #[trigger] alive(mid[k], r) implies stores(
                p,
                a.rows,
                a.rows[k][r].id,
                a.rows[k][r].vector,
            ) by {
                if k != at {
                    assert(mid[k] == p[k]);
                } else {
                    assert(marked_from(p[at], mid[at]));
                    assert(marked(mid[at].dead@, r) == (marked(p[at].dead@, r) || (r <= u64::MAX && gone.contains(
                        r as u64,
                    ))));
                }
                assert(alive(p[k], r));
            }
            assert forall|k: int| 0 <= k < mid.len() implies (#[trigger] all_ids(a.rows)[k]).len() == mid[k].n_rows by {
                assert(all_ids(a.rows)[k].len() == p[k].n_rows);
                if k != at {
                    assert(mid[k] == p[k]);
                }
            }
            assert forall|k: int, i: int| 0 <= k < batches.len() && 0 <= i < batches[k]@.len() implies stores(
                p,
                a.rows,
                (#[trigger] batches[k]@[i]).id,
                batches[k]@[i].vector,
            ) by {
                lemma_sent_stored(a, moved, places, k);
            }
            law_appended_copies_are_drawn(p, a.rows, mid, a.rows, q, batches, ng, width);
        },
        _ => {},
    }
    lemma_drawn(a, b);
}

/// Further copies bring in no vector.
proof fn lemma_replicas_bring_nothing(a: Stage, b: Stage, step: Step)
    requires
        clear(a),
        carries(a, b, step),
        step is Replicate,
    ensures
        nothing_new(a, b),
{
    let p = a.x.partitions@;
    let q = b.x.partitions@;
    let ng = a.x.ng();
    let width = a.x.stored();
    match step {
        Step::Replicate { batches } => {
            assert forall|k: int, r: int| 0 <= k < p.len() && #[trigger] alive(p[k], r) implies stores(
                p,
                a.rows,
                a.rows[k][r].id,
                a.rows[k][r].vector,
            ) by {}
            assert forall|k: int, i: int| 0 <= k < batches.len() && 0 <= i < batches[k]@.len() implies stores(
                p,
                a.rows,
                (#[trigger] batches[k]@[i]).id,
                batches[k]@[i].vector,
            ) by {
                assert(all_stored(a, batches[k]@));
            }
            law_appended_copies_are_drawn(p, a.rows, p, a.rows, q, batches, ng, width);
        },
        _ => {},
    }
    lemma_drawn(a, b);
}

/// Building anew, draining, sealing and opening again bring in no vector.
proof fn lemma_rest_brings_nothing(a: Stage, b: Stage, step: Step)
    requires
        clear(a),
        carries(a, b, step),
        step is Rebuild || step is Drain || step is Seal || step is Reopen,
    ensures
        nothing_new(a, b),
{
    let p = a.x.partitions@;
    let q = b.x.partitions@;
    let ng = a.x.ng();
    let width = a.x.stored();
    match step {
        Step::Rebuild { made, all, lists, batches } => {
            let none = Seq::new(made.len(), |k: int| Seq::<Row>::empty());
            assert forall|k: int, r: int| 0 <= k < made.len() && #[trigger] alive(made[k], r) implies stores(
                p,
                a.rows,
                none[k][r].id,
                none[k][r].vector,
            ) by {
                assert(just_made(made[k], (a.x.next_partition_id + k) as u32));
            }
            assert forall|k: int| 0 <= k < made.len() implies (#[trigger] all_ids(none)[k]).len() == made[k].n_rows by {
                assert(just_made(made[k], (a.x.next_partition_id + k) as u32));
            }
            assert forall|k: int, i: int| 0 <= k < batches.len() && 0 <= i < batches[k]@.len() implies stores(
                p,
                a.rows,
                (#[trigger] batches[k]@[i]).id,
                batches[k]@[i].vector,
            ) by {
                law_lists_deliver(all, lists, batches, 0);
                assert(all_copies(batches[k]@, all));
                assert(is_copy(batches[k]@[i], all));
                let z = choose|z: int| 0 <= z < all.len() && copies_row(batches[k]@[i], #[trigger] all[z]);
                assert(stores(p, a.rows, all[z].id, all[z].vector));
            }
            law_appended_copies_are_drawn(p, a.rows, made, none, q, batches, ng, width);
            lemma_drawn(a, b);
        },
        Step::Drain { lists, batches } => {
            assert forall|k: int| 0 <= k < q.len() implies (#[trigger] q[k]).wf() by {}
            assert forall|id: u64, v: Seq<u32>| #[trigger] holds_vector(b, id, v) implies holds_vector(a, id, v) by {
                lemma_flushed_vectors(a.x, q, a.rows, lists, batches, id, v);
            }
        },
        Step::Seal => {
            lemma_fewer_rows(a, b);
            lemma_drawn(a, b);
        },
        _ => {
            assert forall|k: int, r: int| 0 <= k < q.len() && #[trigger] alive(q[k], r) implies k < p.len() && alive(
                p[k],
                r,
            ) && b.rows[k][r] == a.rows[k][r] by {
                assert(q[k].same(p[k]));
            }
            lemma_fewer_rows(a, b);
            lemma_drawn(a, b);
        },
    }
}

/// The rows and vectors of an index in these states, over the same files.
spec fn over(x: FreshIndex, rows: Seq<Seq<Row>>) -> Stage {
    Stage { x, rows, pending: Seq::empty(), draining: false }
}

proof fn lemma_removal_brings_nothing(x: FreshIndex, y: FreshIndex, rows: Seq<Seq<Row>>, id: u64, r: Removed)
    requires
        x.wf(),
        y.wf(),
        x.store_vectors,
        removal(x, y, id, r),
    ensures
        nothing_new(over(x, rows), over(y, rows)),
        y.store_vectors,
{
    let a = over(x, rows);
    let b = over(y, rows);
    let p = x.partitions@;
    let q = y.partitions@;
    assert forall|k: int, i: int| 0 <= k < q.len() && #[trigger] alive(q[k], i) implies k < p.len() && alive(p[k], i)
        && b.rows[k][i] == a.rows[k][i] by {
        if r == Removed::Partitions {
            assert(marked_from(p[k], q[k]));
            assert(marked(q[k].dead@, i) == (marked(p[k].dead@, i) || copy_at(
                p,
                copies_of(p, x.runs@, id),
                copies_of(p, x.runs@, id).len() as int,
                k,
                i,
            )));
        }
    }
    lemma_fewer_rows(a, b);
    assert forall|i: u64, v: Seq<u32>| #[trigger] row_vector(y.memtable, i, v) implies row_vector(x.memtable, i, v) by {
        if r == Removed::Memtable {
            let at = choose|at: int|
                #[trigger] y.memtable.without_row(x.memtable, x.bit_width as int, x.store_vectors, at)
                    && x.memtable.ids@[at] == id;
            lemma_removed_vectors(x.memtable, y.memtable, x.bit_width as int, at);
            let z = choose|z: int|
                0 <= z < y.memtable.ids@.len() && #[trigger] y.memtable.ids@[z] == i && v == row_of(
                    y.memtable.vectors@,
                    y.memtable.width(),
                    z,
                );
            assert(y.memtable.ids@.contains(y.memtable.ids@[z]));
            assert(row_vector(y.memtable, i, v) <==> row_vector(x.memtable, i, v));
        }
    }
    lemma_drawn(a, b);
}

proof fn lemma_removals_bring_nothing(states: Seq<FreshIndex>, ids: Seq<u64>, outcomes: Seq<Removed>, rows: Seq<Seq<Row>>, n: int)
    requires
        removals(states, ids, outcomes),
        states[0].store_vectors,
        0 <= n < states.len(),
    ensures
        nothing_new(over(states[0], rows), over(states[n], rows)),
        states[n].store_vectors,
    decreases n,
{
    if n > 0 {
        lemma_removals_bring_nothing(states, ids, outcomes, rows, n - 1);
        assert(states[n - 1].wf() && states[n].wf());
        assert(removal(states[n - 1], states[(n - 1) + 1], ids[n - 1], outcomes[n - 1]));
        lemma_removal_brings_nothing(states[n - 1], states[n], rows, ids[n - 1], outcomes[n - 1]);
        assert forall|id: u64, v: Seq<u32>| #[trigger] holds_vector(over(states[n], rows), id, v) implies holds_vector(
            over(states[0], rows),
            id,
            v,
        ) by {
            assert(holds_vector(over(states[n - 1], rows), id, v));
        }
    }
}

/// An id that is there has a vector.
proof fn lemma_some_vector(a: Stage, id: u64) -> (v: Seq<u32>)
    requires
        a.sound(),
        a.ids().contains(id),
    ensures
        holds_vector(a, id, v),
{
    let m = a.x.memtable;
    let p = a.x.partitions@;
    if m.ids@.to_set().contains(id) {
        let i = choose|i: int| 0 <= i < m.ids@.len() && m.ids@[i] == id;
        let v = row_of(m.vectors@, m.width(), i);
        assert(m.ids@[i] == id && v == row_of(m.vectors@, m.width(), i));
        v
    } else {
        assert(stored(p, all_ids(a.rows), id));
        let (k, r) = choose|k: int, r: int| 0 <= k < p.len() && #[trigger] alive(p[k], r) && all_ids(a.rows)[k][r] == id;
        assert(all_ids(a.rows)[k].len() == p[k].n_rows);
        let v = a.rows[k][r].vector;
        assert(alive(p[k], r) && a.rows[k][r].id == id && a.rows[k][r].vector == v);
        v
    }
}

/// Where nothing new comes in, every id that stays keeps its vector.
proof fn lemma_kept(a: Stage, b: Stage)
    requires
        clear(a),
        b.sound(),
        b.x.store_vectors,
        nothing_new(a, b),
    ensures
        clear(b),
        forall|id: u64, v: Seq<u32>|
            b.ids().contains(id) && #[trigger] holds_vector(a, id, v) ==> holds_vector(b, id, v),
{
    assert forall|id: u64, v: Seq<u32>| b.ids().contains(id) && #[trigger] holds_vector(a, id, v) implies holds_vector(
        b,
        id,
        v,
    ) by {
        let w = lemma_some_vector(b, id);
        assert(holds_vector(a, id, w));
    }
}

/// Whatever is done to an index, an id that stays keeps its vector, and every
/// id has one.
pub proof fn law_steps_keep_vectors(a: Stage, b: Stage, step: Step)
    requires
        clear(a),
        carries(a, b, step),
    ensures
        clear(b),
        forall|id: u64, v: Seq<u32>|
            b.ids().contains(id) && #[trigger] holds_vector(a, id, v) ==> holds_vector(b, id, v),
{
    law_steps_keep_sound(a, b, step);
    match step {
        Step::Add { ids, vectors } => lemma_add_keeps(a, b, ids, vectors),
        Step::Remove { ids, states, outcomes } => {
            lemma_removals_bring_nothing(states, ids, outcomes, a.rows, states.len() - 1);
            assert(nothing_new(a, b)) by {
                assert forall|id: u64, v: Seq<u32>| #[trigger] holds_vector(b, id, v) implies holds_vector(a, id, v) by {
                    assert(holds_vector(over(b.x, a.rows), id, v));
                    assert(holds_vector(over(a.x, a.rows), id, v));
                }
            }
            lemma_kept(a, b);
        },
        Step::Dissolve { at, places, batches } => {
            lemma_dissolving_brings_nothing(a, b, at, places, batches);
            lemma_kept(a, b);
        },
        Step::Reassign { at, mid, gone, moved, places, batches } => {
            lemma_reassigning_brings_nothing(a, b, step);
            lemma_kept(a, b);
        },
        Step::Replicate { batches } => {
            lemma_replicas_bring_nothing(a, b, step);
            lemma_kept(a, b);
        },
        Step::Rebuild { made, all, lists, batches } => {
            lemma_rest_brings_nothing(a, b, step);
            lemma_kept(a, b);
        },
        Step::Drain { lists, batches } => {
            lemma_rest_brings_nothing(a, b, step);
            lemma_kept(a, b);
        },
        Step::Seal => {
            lemma_rest_brings_nothing(a, b, step);
            lemma_kept(a, b);
        },
        Step::Reopen => {
            lemma_rest_brings_nothing(a, b, step);
            lemma_kept(a, b);
        },
        _ => {
            lemma_rewrites_bring_nothing(a, b, step);
            lemma_kept(a, b);
        },
    }
}

/// Adding keeps the vectors of the others.
proof fn lemma_add_keeps(a: Stage, b: Stage, ids: Seq<u64>, vectors: Seq<u32>)
    requires
        clear(a),
        b.sound(),
        carries(a, b, Step::Add { ids, vectors }),
    ensures
        clear(b),
        forall|id: u64, v: Seq<u32>| #[trigger] holds_vector(a, id, v) ==> holds_vector(b, id, v),
{
    let m = a.x.memtable;
    let n = b.x.memtable;
    let (dim, codes, scales) = choose|dim: usize, codes: Seq<u8>, scales: Seq<u32>| #[trigger]
        n.with_rows(m, dim, ids, codes, scales, vectors, true) && (m.dim is Some ==> m.dim == Some(dim));
    lemma_appended_vectors(m, n, a.x.bit_width as int, dim, ids, codes, scales, vectors);
    assert forall|id: u64, v: Seq<u32>| #[trigger] row_vector(n, id, v) implies row_vector(m, id, v)
        || ids.contains(id) by {
        let z = choose|z: int| 0 <= z < n.ids@.len() && #[trigger] n.ids@[z] == id && v == row_of(n.vectors@, n.width(), z);
        if z < m.ids@.len() {
            assert(m.ids@[z] == id);
            assert(m.ids@.contains(id));
        } else {
            assert(ids[z - m.ids@.len()] == id);
        }
    }
    assert forall|id: u64, v: Seq<u32>| #[trigger] holds_vector(a, id, v) implies holds_vector(b, id, v) by {
        if row_vector(m, id, v) {
            let z = choose|z: int| 0 <= z < m.ids@.len() && #[trigger] m.ids@[z] == id && v == row_of(m.vectors@, m.width(), z);
            assert(m.ids@.contains(m.ids@[z]));
            assert(row_vector(n, id, v));
        }
    }
    assert forall|id: u64, v: Seq<u32>, w: Seq<u32>|
        #[trigger] holds_vector(b, id, v) && #[trigger] holds_vector(b, id, w) implies v == w by {
        if ids.contains(id) {
            let i = choose|i: int| 0 <= i < ids.len() && ids[i] == id;
            assert(n.ids@[m.ids@.len() + i] == id);
            assert(n.ids@.to_set().contains(id));
            assert(!stores(b.x.partitions@, b.rows, id, v) && !stores(b.x.partitions@, b.rows, id, w)) by {
                if stores(b.x.partitions@, b.rows, id, v) {
                    lemma_stores_id(b, id, v);
                }
                if stores(b.x.partitions@, b.rows, id, w) {
                    lemma_stores_id(b, id, w);
                }
            }
            assert(row_vector(n, ids[i], v) && row_vector(n, ids[i], w));
        } else {
            assert(holds_vector(a, id, v) && holds_vector(a, id, w));
        }
    }
}

proof fn lemma_stores_id(a: Stage, id: u64, v: Seq<u32>)
    requires
        a.sound(),
        stores(a.x.partitions@, a.rows, id, v),
    ensures
        a.stored().contains(id),
{
    let p = a.x.partitions@;
    let (k, r) = choose|k: int, r: int|
        0 <= k < p.len() && #[trigger] alive(p[k], r) && a.rows[k][r].id == id && a.rows[k][r].vector == v;
    assert(all_ids(a.rows)[k].len() == p[k].n_rows);
    assert(alive(p[k], r) && all_ids(a.rows)[k][r] == id);
}

} // verus!
