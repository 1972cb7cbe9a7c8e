//! Splitting, dissolving and reassigning lose no id.
use vstd::prelude::*;
use crate::batch::{primary_rows, sent_to, Row, RowBatch};
use crate::bits::marked;
use crate::counting::{has_primary, one_primary, primary_at};
use crate::flush_laws::{all_ids, grown_rows, law_places_deliver};
use crate::indexed::{
    alive, batch_ids, delivered, grown_ids, ids_for, indexed, law_append_keeps_index, law_dead_rows_keep_index,
    law_dropped_partition_keeps_index, stored, stored_ids,
};
use crate::ingest::{all_appended, entries_upto};
use crate::partition::{lemma_live_at, live_at, live_of, wanted, PartitionState};
use crate::reassign::one_marked;
use crate::restructure::holds_only;
use crate::runs::RunEntry;

verus! {

/// The live primaries of a partition that holds `rows`.
pub open spec fn live_primary_rows(p: PartitionState, rows: Seq<Row>) -> Seq<Row> {
    primary_rows(live_of(rows, p.dead@, 0, false))
}

/// A primary is among the primaries, and what is among them is one.
proof fn lemma_primary_rows(rows: Seq<Row>)
    ensures
        forall|i: int|
            0 <= i < primary_rows(rows).len() ==> rows.contains(#[trigger] primary_rows(rows)[i]) && !primary_rows(
                rows,
            )[i].replica,
        forall|i: int|
            0 <= i < rows.len() && !(#[trigger] rows[i]).replica ==> primary_rows(rows).contains(rows[i]),
    decreases rows.len(),
{
    if rows.len() > 0 {
        let init = rows.drop_last();
        let a = primary_rows(init);
        let b = primary_rows(rows);
        lemma_primary_rows(init);
        assert forall|i: int| 0 <= i < b.len() implies rows.contains(#[trigger] b[i]) && !b[i].replica by {
            if i < a.len() {
                assert(b[i] == a[i]);
                assert(init.contains(a[i]));
                let j = choose|j: int| 0 <= j < init.len() && init[j] == a[i];
                assert(rows[j] == b[i]);
            } else {
                assert(rows[rows.len() - 1] == b[i]);
            }
        }
        assert forall|i: int| 0 <= i < rows.len() && !(#[trigger] rows[i]).replica implies b.contains(rows[i]) by {
            if i < init.len() {
                assert(init[i] == rows[i]);
                assert(a.contains(init[i]));
                let j = choose|j: int| 0 <= j < a.len() && a[j] == init[i];
                assert(b[j] == a[j]);
            } else {
                assert(b[b.len() - 1] == rows[i]);
            }
        }
    }
}

/// The ids of the live primaries of a partition are those of its rows that are
/// alive and no replicas.
proof fn lemma_live_primaries(p: PartitionState, rows: Seq<Row>, id: u64)
    requires
        rows.len() == p.n_rows,
    ensures
        batch_ids(live_primary_rows(p, rows)).contains(id) <==> exists|r: int| #[trigger]
            alive(p, r) && !rows[r].replica && rows[r].id == id,
{
    let live = live_of(rows, p.dead@, 0, false);
    let at = live_at(rows, p.dead@, 0, false);
    let prim = live_primary_rows(p, rows);
    lemma_live_at(rows, p.dead@, 0, false);
    lemma_primary_rows(live);
    if batch_ids(prim).contains(id) {
        let i = choose|i: int| 0 <= i < prim.len() && batch_ids(prim)[i] == id;
        assert(live.contains(prim[i]));
        let j = choose|j: int| 0 <= j < live.len() && live[j] == prim[i];
        let r = at[j];
        assert(rows[r] == live[j]);
        assert(wanted(rows[r - 0], r, p.dead@, false));
        assert(alive(p, r) && !rows[r].replica && rows[r].id == id);
    }
    if exists|r: int| #[trigger] alive(p, r) && !rows[r].replica && rows[r].id == id {
        let r = choose|r: int| #[trigger] alive(p, r) && !rows[r].replica && rows[r].id == id;
        assert(wanted(rows[r], 0 + r, p.dead@, false));
        assert(at.contains(r));
        let j = choose|j: int| 0 <= j < at.len() && at[j] == r;
        assert(live[j] == rows[r]);
        assert(prim.contains(live[j]));
        let i = choose|i: int| 0 <= i < prim.len() && prim[i] == live[j];
        assert(batch_ids(prim)[i] == id);
    }
}

/// Taking a partition out and keeping the ids of its primaries keeps all ids.
proof fn lemma_rehomed(parts: Seq<PartitionState>, rows: Seq<Seq<Row>>, at: int, id: u64)
    requires
        ids_for(parts, all_ids(rows)),
        one_primary(parts, rows),
        0 <= at < parts.len(),
    ensures
        stored(parts, all_ids(rows), id) <==> stored(parts.remove(at), all_ids(rows.remove(at)), id) || batch_ids(
            live_primary_rows(parts[at], rows[at]),
        ).contains(id),
{
    let ids = all_ids(rows);
    let b = parts.remove(at);
    let rest = rows.remove(at);
    assert(ids[at].len() == parts[at].n_rows);
    lemma_live_primaries(parts[at], rows[at], id);
    if stored(parts, ids, id) {
        let (k, r) = choose|k: int, r: int| 0 <= k < parts.len() && #[trigger] alive(parts[k], r) && ids[k][r] == id;
        assert(ids[k].len() == parts[k].n_rows);
        assert(has_primary(parts, rows, rows[k][r].id));
        let (j, q) = choose|j: int, q: int| #[trigger] primary_at(parts, rows, j, q) && rows[j][q].id == id;
        assert(ids[j].len() == parts[j].n_rows);
        if j == at {
            assert(alive(parts[at], q));
        } else {
            let n = if j < at {
                j
            } else {
                j - 1
            };
            assert(b[n] == parts[j] && rest[n] == rows[j]);
            assert(alive(b[n], q) && all_ids(rest)[n][q] == id);
        }
    }
    if stored(b, all_ids(rest), id) {
        let (n, r) = choose|n: int, r: int| 0 <= n < b.len() && #[trigger] alive(b[n], r) && all_ids(rest)[n][r] == id;
        let k = if n < at {
            n
        } else {
            n + 1
        };
        assert(b[n] == parts[k] && rest[n] == rows[k]);
        assert(ids[k].len() == parts[k].n_rows);
        assert(alive(parts[k], r) && ids[k][r] == id);
    }
    if exists|r: int| #[trigger] alive(parts[at], r) && !rows[at][r].replica && rows[at][r].id == id {
        let r = choose|r: int| #[trigger] alive(parts[at], r) && !rows[at][r].replica && rows[at][r].id == id;
        assert(alive(parts[at], r) && ids[at][r] == id);
    }
}

/// Dissolving a partition keeps the stored ids, and keeps the index in step
/// with the rows.
pub proof fn law_dissolving_keeps_ids(
    a: Seq<PartitionState>,
    b: Seq<PartitionState>,
    next: u32,
    rows: Seq<Seq<Row>>,
    at: int,
    places: Seq<u32>,
    batches: Seq<RowBatch>,
    ng: int,
    width: int,
    s: Seq<RunEntry>,
    t: Seq<RunEntry>,
)
    requires
        indexed(a, next, all_ids(rows), s),
        one_primary(a, rows),
        0 <= at < a.len(),
        forall|k: int| 0 <= k < a.len() ==> (#[trigger] a[k]).wf(),
        forall|k: int| 0 <= k < b.len() ==> (#[trigger] b[k]).wf(),
        batches.len() == a.len() - 1,
        places.len() >= live_primary_rows(a[at], rows[at]).len(),
        forall|i: int| 0 <= i < live_primary_rows(a[at], rows[at]).len() ==> #[trigger] places[i] < batches.len(),
        forall|k: int|
            0 <= k < batches.len() ==> (#[trigger] batches[k])@ == sent_to(
                live_primary_rows(a[at], rows[at]),
                places,
                k,
            ),
        all_appended(a.remove(at), b, batches, ng, width),
        forall|e: RunEntry| #[trigger]
            t.contains(e) <==> s.contains(e) || entries_upto(a.remove(at), batches, a.len() - 1).contains(e),
    ensures
        stored_ids(b, all_ids(grown_rows(rows.remove(at), batches))) == stored_ids(a, all_ids(rows)),
        indexed(b, next, all_ids(grown_rows(rows.remove(at), batches)), t),
{
    let rest = a.remove(at);
    let ids = all_ids(rows);
    let kept = rows.remove(at);
    let now = all_ids(grown_rows(kept, batches));
    law_dropped_partition_keeps_index(a, next, ids, s, at);
    assert(ids.remove(at) =~= all_ids(kept));
    assert forall|k: int| 0 <= k < rest.len() implies (#[trigger] rest[k]).wf() by {
        let j = if k < at {
            k
        } else {
            k + 1
        };
        assert(rest[k] == a[j]);
        assert(a[j].wf());
    }
    assert(now =~= grown_ids(all_ids(kept), batches)) by {
        assert forall|k: int| 0 <= k < now.len() implies now[k] == #[trigger] grown_ids(all_ids(kept), batches)[k] by {
            assert(now[k] =~= grown_ids(all_ids(kept), batches)[k]);
        }
    }
    law_append_keeps_index(rest, b, next, all_ids(kept), batches, ng, width, s, t);
    assert forall|id: u64| stored(b, now, id) <==> stored(a, ids, id) by {
        law_places_deliver(live_primary_rows(a[at], rows[at]), places, batches, id);
        lemma_rehomed(a, rows, at, id);
    }
    assert(stored_ids(b, now) =~= stored_ids(a, ids));
}

/// Splitting a partition keeps the stored ids.
pub proof fn law_splitting_keeps_ids(
    a: Seq<PartitionState>,
    b: Seq<PartitionState>,
    rows: Seq<Seq<Row>>,
    at: int,
    children: Seq<u32>,
    id0: u32,
    id1: u32,
    ng: int,
    width: int,
)
    requires
        ids_for(a, all_ids(rows)),
        one_primary(a, rows),
        0 <= at < a.len(),
        children.len() == live_primary_rows(a[at], rows[at]).len(),
        forall|i: int| 0 <= i < children.len() ==> #[trigger] children[i] < 2,
        b.len() == a.len() + 1,
        forall|k: int| 0 <= k < a.len() - 1 ==> #[trigger] b[k] == a.remove(at)[k],
        holds_only(b[a.len() - 1], id0, sent_to(live_primary_rows(a[at], rows[at]), children, 0), ng, width),
        holds_only(b[a.len() as int], id1, sent_to(live_primary_rows(a[at], rows[at]), children, 1), ng, width),
    ensures
        stored_ids(
            b,
            all_ids(
                rows.remove(at).push(sent_to(live_primary_rows(a[at], rows[at]), children, 0)).push(
                    sent_to(live_primary_rows(a[at], rows[at]), children, 1),
                ),
            ),
        ) == stored_ids(a, all_ids(rows)),
{
    let prim = live_primary_rows(a[at], rows[at]);
    let first = sent_to(prim, children, 0);
    let second = sent_to(prim, children, 1);
    let kept = rows.remove(at);
    let rest = a.remove(at);
    let after = kept.push(first).push(second);
    let now = all_ids(after);
    let n = rest.len() as int;
    assert forall|id: u64| stored(b, now, id) <==> stored(a, all_ids(rows), id) by {
        lemma_rehomed(a, rows, at, id);
        lemma_two_children(prim, children, id);
        if stored(b, now, id) {
            let (k, r) = choose|k: int, r: int| 0 <= k < b.len() && #[trigger] alive(b[k], r) && now[k][r] == id;
            if k < n {
                assert(b[k] == rest[k] && after[k] == kept[k]);
                assert(alive(rest[k], r) && all_ids(kept)[k][r] == id);
            } else if k == n {
                assert(batch_ids(first)[r] == id);
            } else {
                assert(batch_ids(second)[r] == id);
            }
        }
        if stored(rest, all_ids(kept), id) {
            let (k, r) = choose|k: int, r: int|
                0 <= k < rest.len() && #[trigger] alive(rest[k], r) && all_ids(kept)[k][r] == id;
            assert(b[k] == rest[k] && after[k] == kept[k]);
            assert(alive(b[k], r) && now[k][r] == id);
        }
        if batch_ids(first).contains(id) {
            let r = choose|r: int| 0 <= r < first.len() && batch_ids(first)[r] == id;
            assert(!marked(b[n].dead@, r));
            assert(alive(b[n], r) && now[n][r] == id);
        }
        if batch_ids(second).contains(id) {
            let r = choose|r: int| 0 <= r < second.len() && batch_ids(second)[r] == id;
            assert(!marked(b[n + 1].dead@, r));
            assert(alive(b[n + 1], r) && now[n + 1][r] == id);
        }
    }
    assert(stored_ids(b, now) =~= stored_ids(a, all_ids(rows)));
}

/// Two children take every row.
proof fn lemma_two_children(rows: Seq<Row>, children: Seq<u32>, id: u64)
    requires
        children.len() >= rows.len(),
        forall|i: int| 0 <= i < rows.len() ==> #[trigger] children[i] < 2,
    ensures
        batch_ids(rows).contains(id) <==> batch_ids(sent_to(rows, children, 0)).contains(id) || batch_ids(
            sent_to(rows, children, 1),
        ).contains(id),
    decreases rows.len(),
{
    let a = sent_to(rows, children, 0);
    let b = sent_to(rows, children, 1);
    if rows.len() == 0 {
    } else {
        let n = rows.len() - 1;
        let init = rows.drop_last();
        let a0 = sent_to(init, children, 0);
        let b0 = sent_to(init, children, 1);
        assert forall|i: int| 0 <= i < init.len() implies #[trigger] children[i] < 2 by {}
        lemma_two_children(init, children, id);
        assert(children[n] < 2);
        assert(batch_ids(rows) =~= batch_ids(init).push(rows[n].id));
        lemma_push_has(batch_ids(init), rows[n].id, id);
        if children[n] == 0 {
            assert(batch_ids(a) =~= batch_ids(a0).push(rows[n].id));
            lemma_push_has(batch_ids(a0), rows[n].id, id);
            assert(b == b0);
        } else {
            assert(batch_ids(b) =~= batch_ids(b0).push(rows[n].id));
            lemma_push_has(batch_ids(b0), rows[n].id, id);
            assert(a == a0);
        }
    }
}

proof fn lemma_push_has(s: Seq<u64>, x: u64, id: u64)
    ensures
        s.push(x).contains(id) <==> s.contains(id) || x == id,
{
    if s.contains(id) {
        let i = choose|i: int| 0 <= i < s.len() && s[i] == id;
        assert(s.push(x)[i] == id);
    }
    if x == id {
        assert(s.push(x)[s.len() as int] == id);
    }
    if s.push(x).contains(id) && x != id {
        let i = choose|i: int| 0 <= i < s.len() + 1 && s.push(x)[i] == id;
        assert(s[i] == id);
    }
}

/// Reassigning rows keeps the stored ids, and keeps the index in step with the
/// rows: what is marked dead in one partition is appended to others.
pub proof fn law_reassigning_keeps_ids(
    a: Seq<PartitionState>,
    mid: Seq<PartitionState>,
    b: Seq<PartitionState>,
    next: u32,
    rows: Seq<Seq<Row>>,
    at: int,
    gone: Seq<u64>,
    batches: Seq<RowBatch>,
    ng: int,
    width: int,
    s: Seq<RunEntry>,
    t: Seq<RunEntry>,
)
    requires
        indexed(a, next, all_ids(rows), s),
        0 <= at < a.len(),
        forall|k: int| 0 <= k < mid.len() ==> (#[trigger] mid[k]).wf(),
        forall|k: int| 0 <= k < b.len() ==> (#[trigger] b[k]).wf(),
        one_marked(a, mid, at, gone),
        forall|i: int| 0 <= i < gone.len() ==> alive(a[at], (#[trigger] gone[i]) as int),
        batches.len() == a.len(),
        forall|id: u64| #[trigger]
            delivered(batches, id) <==> exists|i: int|
                0 <= i < gone.len() && rows[at][(#[trigger] gone[i]) as int].id == id,
        all_appended(mid, b, batches, ng, width),
        forall|e: RunEntry| #[trigger]
            t.contains(e) <==> s.contains(e) || entries_upto(mid, batches, a.len() as int).contains(e),
    ensures
        stored_ids(b, all_ids(grown_rows(rows, batches))) == stored_ids(a, all_ids(rows)),
        indexed(b, next, all_ids(grown_rows(rows, batches)), t),
{
    let ids = all_ids(rows);
    let now = all_ids(grown_rows(rows, batches));
    assert(now =~= grown_ids(ids, batches)) by {
        assert forall|k: int| 0 <= k < now.len() implies now[k] == #[trigger] grown_ids(ids, batches)[k] by {
            assert(now[k] =~= grown_ids(ids, batches)[k]);
        }
    }
    assert forall|k: int| 0 <= k < a.len() implies (#[trigger] mid[k]).partition_id == a[k].partition_id
        && mid[k].generation == a[k].generation && mid[k].n_rows == a[k].n_rows by {
        if k != at {
            assert(mid[k] == a[k]);
        }
    }
    assert forall|k: int, r: int| 0 <= k < a.len() && 0 <= r && marked(a[k].dead@, r) implies #[trigger] marked(
        mid[k].dead@,
        r,
    ) by {
        if k != at {
            assert(mid[k] == a[k]);
        }
    }
    law_dead_rows_keep_index(a, mid, next, ids, s);
    law_append_keeps_index(mid, b, next, ids, batches, ng, width, s, t);
    assert(ids[at].len() == a[at].n_rows);
    assert forall|id: u64| stored(b, now, id) <==> stored(a, ids, id) by {
        if stored(b, now, id) && !stored(mid, ids, id) {
            assert(delivered(batches, id));
            let i = choose|i: int| 0 <= i < gone.len() && rows[at][(#[trigger] gone[i]) as int].id == id;
            assert(alive(a[at], gone[i] as int) && ids[at][gone[i] as int] == id);
        }
        if stored(mid, ids, id) {
            assert(stored_ids(mid, ids).contains(id));
            assert(stored_ids(a, ids).contains(id));
        }
        if stored(a, ids, id) {
            let (k, r) = choose|k: int, r: int| 0 <= k < a.len() && #[trigger] alive(a[k], r) && ids[k][r] == id;
            if alive(mid[k], r) {
                assert(stored(mid, ids, id));
            } else {
                if k != at {
                    assert(mid[k] == a[k]);
                }
                assert(marked(mid[at].dead@, r));
                assert(gone.contains(r as u64));
                let i = choose|i: int| 0 <= i < gone.len() && gone[i] == r as u64;
                assert(rows[at][gone[i] as int].id == id);
                assert(delivered(batches, id));
            }
        }
    }
    assert(stored_ids(b, now) =~= stored_ids(a, ids));
}

} // verus!
