//! Every stored id keeps one live first copy.
use vstd::prelude::*;
use crate::batch::{copies_to, primary_rows, sent_to, spread_to, Row, RowBatch};
use crate::bits::marked;
use crate::counting::{has_primary, one_primary, primary_at};
use crate::flush::appended;
use crate::flush_laws::{all_ids, grown_rows};
use crate::indexed::{alive, ids_for, stored, stored_ids};
use crate::ingest::all_appended;
use crate::partition::{lemma_live_at, live_at, live_of, wanted, PartitionState};
use crate::reassign::one_marked;
use crate::restructure::holds_only;
use crate::restructure_laws::live_primary_rows;

verus! {

/// The rows of `b` are rows of `a`, each partition's up to `base` from the
/// partition at `sel`, and new rows behind them.
spec fn mixed(
    a: Seq<PartitionState>,
    ra: Seq<Seq<Row>>,
    b: Seq<PartitionState>,
    rb: Seq<Seq<Row>>,
    sel: Seq<int>,
    base: Seq<int>,
    fresh: Seq<Seq<Row>>,
) -> bool {
    &&& rb.len() == b.len() && sel.len() == b.len() && base.len() == b.len() && fresh.len() == b.len()
    &&& forall|k: int| 0 <= k < b.len() ==> ends_at(#[trigger] b[k], base[k], fresh[k], sel[k], a.len() as int)
    &&& forall|k: int, r: int|
        0 <= k < b.len() && #[trigger] alive(b[k], r) ==> if r < base[k] {
            alive(a[sel[k]], r) && rb[k][r] == ra[sel[k]][r]
        } else {
            rb[k][r] == fresh[k][r - base[k]]
        }
    &&& forall|k: int, j: int|
        0 <= k < b.len() && 0 <= j < b.len() && base[k] > 0 && base[j] > 0 && #[trigger] sel[k] == #[trigger] sel[j]
            ==> k == j
}

spec fn ends_at(p: PartitionState, base: int, fresh: Seq<Row>, sel: int, n: int) -> bool {
    &&& 0 <= base
    &&& p.n_rows == base + fresh.len()
    &&& base > 0 ==> 0 <= sel < n
    &&& forall|r: int| base <= r < p.n_rows ==> #[trigger] alive(p, r)
}

/// No two of the new first copies have the same id.
spec fn distinct_primaries(fresh: Seq<Seq<Row>>) -> bool {
    forall|k: int, i: int, j: int, q: int|
        #![trigger fresh[k][i], fresh[j][q]]
        0 <= k < fresh.len() && 0 <= j < fresh.len() && 0 <= i < fresh[k].len() && 0 <= q < fresh[j].len()
            && !fresh[k][i].replica && !fresh[j][q].replica && fresh[k][i].id == fresh[j][q].id ==> k == j && i == q
}

/// An id has a first copy among the new rows.
spec fn fresh_primary(fresh: Seq<Seq<Row>>, id: u64) -> bool {
    exists|k: int, i: int|
        0 <= k < fresh.len() && 0 <= i < fresh[k].len() && !(#[trigger] fresh[k][i]).replica && fresh[k][i].id == id
}

/// First copies stay unique where the new ones are, and no id that gets one
/// keeps another.
proof fn lemma_mixed(
    a: Seq<PartitionState>,
    ra: Seq<Seq<Row>>,
    b: Seq<PartitionState>,
    rb: Seq<Seq<Row>>,
    sel: Seq<int>,
    base: Seq<int>,
    fresh: Seq<Seq<Row>>,
)
    requires
        mixed(a, ra, b, rb, sel, base, fresh),
        one_primary(a, ra),
        distinct_primaries(fresh),
        forall|k: int, r: int|
            #[trigger] primary_at(b, rb, k, r) && r < base[k] ==> !fresh_primary(fresh, rb[k][r].id),
        forall|k: int, r: int|
            0 <= k < b.len() && #[trigger] alive(b[k], r) ==> has_primary(b, rb, rb[k][r].id),
    ensures
        one_primary(b, rb),
{
    assert forall|k: int, r: int, j: int, q: int|
        #[trigger] primary_at(b, rb, k, r) && #[trigger] primary_at(b, rb, j, q) && rb[k][r].id
            == rb[j][q].id implies k == j && r == q by {
        assert(ends_at(b[k], base[k], fresh[k], sel[k], a.len() as int));
        assert(ends_at(b[j], base[j], fresh[j], sel[j], a.len() as int));
        assert(alive(b[k], r) && alive(b[j], q));
        if r < base[k] && q < base[j] {
            assert(primary_at(a, ra, sel[k], r) && primary_at(a, ra, sel[j], q));
            assert(sel[k] == sel[j]);
        } else if r < base[k] {
            assert(!fresh[j][q - base[j]].replica);
            assert(fresh_primary(fresh, rb[k][r].id));
        } else if q < base[j] {
            assert(!fresh[k][r - base[k]].replica);
            assert(fresh_primary(fresh, rb[j][q].id));
        } else {
            assert(!fresh[k][r - base[k]].replica && !fresh[j][q - base[j]].replica);
            assert(k == j && r - base[k] == q - base[j]);
        }
    }
}

/// A new first copy is one in the outcome.
proof fn lemma_fresh_has_primary(
    a: Seq<PartitionState>,
    ra: Seq<Seq<Row>>,
    b: Seq<PartitionState>,
    rb: Seq<Seq<Row>>,
    sel: Seq<int>,
    base: Seq<int>,
    fresh: Seq<Seq<Row>>,
    id: u64,
)
    requires
        mixed(a, ra, b, rb, sel, base, fresh),
        fresh_primary(fresh, id),
    ensures
        has_primary(b, rb, id),
{
    let (k, i) = choose|k: int, i: int|
        0 <= k < fresh.len() && 0 <= i < fresh[k].len() && !(#[trigger] fresh[k][i]).replica && fresh[k][i].id == id;
    assert(ends_at(b[k], base[k], fresh[k], sel[k], a.len() as int));
    assert(alive(b[k], base[k] + i));
    assert(primary_at(b, rb, k, base[k] + i) && rb[k][base[k] + i].id == id);
}

/// Where the rows that `places` sends to `p` stand among `rows`.
pub open spec fn sent_at(rows: Seq<Row>, places: Seq<u32>, p: int) -> Seq<int>
    decreases rows.len(),
{
    if rows.len() == 0 {
        Seq::empty()
    } else if places[rows.len() - 1] == p {
        sent_at(rows.drop_last(), places, p).push(rows.len() - 1)
    } else {
        sent_at(rows.drop_last(), places, p)
    }
}

/// What is sent somewhere, and where it stood.
pub proof fn lemma_sent_at(rows: Seq<Row>, places: Seq<u32>, p: int)
    ensures
        sent_at(rows, places, p).len() == sent_to(rows, places, p).len(),
        forall|i: int|
            0 <= i < sent_at(rows, places, p).len() ==> {
                let x = #[trigger] sent_at(rows, places, p)[i];
                &&& 0 <= x < rows.len()
                &&& places[x] == p
                &&& sent_to(rows, places, p)[i] == (Row { replica: false, ..rows[x] })
            },
        forall|i: int, j: int|
            0 <= i < j < sent_at(rows, places, p).len() ==> #[trigger] sent_at(rows, places, p)[i]
                < #[trigger] sent_at(rows, places, p)[j],
        forall|x: int|
            0 <= x < rows.len() && places[x] == p ==> #[trigger] sent_at(rows, places, p).contains(x),
    decreases rows.len(),
{
    if rows.len() > 0 {
        let init = rows.drop_last();
        let was = sent_at(init, places, p);
        let now = sent_at(rows, places, p);
        lemma_sent_at(init, places, p);
        assert forall|i: int| 0 <= i < now.len() implies {
            let x = #[trigger] now[i];
            &&& 0 <= x < rows.len()
            &&& places[x] == p
            &&& sent_to(rows, places, p)[i] == (Row { replica: false, ..rows[x] })
        } by {
            if i < was.len() {
                assert(now[i] == was[i]);
                assert(init[was[i]] == rows[was[i]]);
            }
        }
        assert forall|i: int, j: int| 0 <= i < j < now.len() implies #[trigger] now[i] < #[trigger] now[j] by {
            assert(now[i] == was[i]);
            if j < was.len() {
                assert(now[j] == was[j]);
            }
        }
        assert forall|x: int| 0 <= x < rows.len() && places[x] == p implies #[trigger] now.contains(x) by {
            if x < init.len() {
                assert(was.contains(x));
                let i = choose|i: int| 0 <= i < was.len() && was[i] == x;
                assert(now[i] == x);
            } else {
                assert(now[now.len() - 1] == x);
            }
        }
    }
}

/// The batches' rows.
spec fn rows_in(batches: Seq<RowBatch>) -> Seq<Seq<Row>> {
    Seq::new(batches.len(), |k: int| batches[k]@)
}

/// Rows with different ids stay so when they are sent to their places.
proof fn lemma_sent_distinct(rows: Seq<Row>, places: Seq<u32>, fresh: Seq<Seq<Row>>)
    requires
        places.len() >= rows.len(),
        forall|i: int| 0 <= i < rows.len() ==> #[trigger] places[i] < fresh.len(),
        forall|i: int, j: int| 0 <= i < rows.len() && 0 <= j < rows.len() && i != j ==> rows[i].id != rows[j].id,
        forall|k: int| 0 <= k < fresh.len() ==> #[trigger] fresh[k] == sent_to(rows, places, k),
    ensures
        distinct_primaries(fresh),
        forall|id: u64| #[trigger]
            fresh_primary(fresh, id) <==> exists|x: int| 0 <= x < rows.len() && (#[trigger] rows[x]).id == id,
{
    assert forall|k: int, i: int, j: int, q: int|
        #![trigger fresh[k][i], fresh[j][q]]
        0 <= k < fresh.len() && 0 <= j < fresh.len() && 0 <= i < fresh[k].len() && 0 <= q < fresh[j].len()
            && !fresh[k][i].replica && !fresh[j][q].replica && fresh[k][i].id == fresh[j][q].id implies k == j
        && i == q by {
        lemma_sent_at(rows, places, k);
        lemma_sent_at(rows, places, j);
        let x = sent_at(rows, places, k)[i];
        let y = sent_at(rows, places, j)[q];
        assert(rows[x].id == rows[y].id);
        assert(x == y);
    }
    assert forall|id: u64| #[trigger] fresh_primary(fresh, id) <==> exists|x: int|
        0 <= x < rows.len() && (#[trigger] rows[x]).id == id by {
        if fresh_primary(fresh, id) {
            let (k, i) = choose|k: int, i: int|
                0 <= k < fresh.len() && 0 <= i < fresh[k].len() && !(#[trigger] fresh[k][i]).replica
                    && fresh[k][i].id == id;
            lemma_sent_at(rows, places, k);
            let x = sent_at(rows, places, k)[i];
            assert(rows[x].id == id);
        }
        if exists|x: int| 0 <= x < rows.len() && (#[trigger] rows[x]).id == id {
            let x = choose|x: int| 0 <= x < rows.len() && (#[trigger] rows[x]).id == id;
            let k = places[x] as int;
            assert(places[x] < fresh.len());
            lemma_sent_at(rows, places, k);
            assert(sent_at(rows, places, k).contains(x));
            let i = choose|i: int| 0 <= i < sent_at(rows, places, k).len() && sent_at(rows, places, k)[i] == x;
            assert(fresh[k] == sent_to(rows, places, k));
            assert(!fresh[k][i].replica && fresh[k][i].id == id);
        }
    }
}

/// Picking the primaries among live rows, or reading them only.
pub proof fn lemma_primaries_only(rows: Seq<Row>, dead: Seq<u8>, base: int)
    ensures
        primary_rows(live_of(rows, dead, base, false)) == live_of(rows, dead, base, true),
    decreases rows.len(),
{
    if rows.len() > 0 {
        let init = rows.drop_last();
        lemma_primaries_only(init, dead, base);
        let a = live_of(init, dead, base, false);
        let b = live_of(rows, dead, base, false);
        if wanted(rows.last(), base + rows.len() - 1, dead, false) {
            assert(b.drop_last() =~= a);
            assert(b.last() == rows.last());
        }
    }
}

/// A row is a live primary of the partition at `at`.
spec fn is_primary(parts: Seq<PartitionState>, rows: Seq<Seq<Row>>, at: int, row: Row) -> bool {
    exists|r: int| #[trigger] primary_at(parts, rows, at, r) && rows[at][r] == row
}

/// The live primaries of a partition, and where they stand.
proof fn lemma_primary_places(
    parts: Seq<PartitionState>,
    rows: Seq<Seq<Row>>,
    at: int,
)
    requires
        0 <= at < parts.len(),
        rows[at].len() == parts[at].n_rows,
        one_primary(parts, rows),
    ensures
        ({
            let prim = live_primary_rows(parts[at], rows[at]);
            &&& forall|i: int, j: int|
                0 <= i < prim.len() && 0 <= j < prim.len() && i != j ==> prim[i].id != prim[j].id
            &&& forall|i: int|
                0 <= i < prim.len() ==> is_primary(parts, rows, at, #[trigger] prim[i])
            &&& forall|r: int| #[trigger] primary_at(parts, rows, at, r) ==> prim.contains(rows[at][r])
        }),
{
    let dead = parts[at].dead@;
    let prim = live_primary_rows(parts[at], rows[at]);
    let list = live_at(rows[at], dead, 0, true);
    lemma_primaries_only(rows[at], dead, 0);
    lemma_live_at(rows[at], dead, 0, true);
    assert forall|i: int| 0 <= i < prim.len() implies primary_at(parts, rows, at, #[trigger] list[i])
        && rows[at][list[i]] == prim[i] by {
        assert(wanted(rows[at][list[i] - 0], list[i], dead, true));
    }
    assert forall|i: int, j: int| 0 <= i < prim.len() && 0 <= j < prim.len() && i != j implies prim[i].id
        != prim[j].id by {
        assert(primary_at(parts, rows, at, list[i]) && primary_at(parts, rows, at, list[j]));
        if i < j {
            assert(list[i] < list[j]);
        } else {
            assert(list[j] < list[i]);
        }
    }
    assert forall|i: int| 0 <= i < prim.len() implies is_primary(parts, rows, at, #[trigger] prim[i]) by {
        assert(primary_at(parts, rows, at, list[i]));
    }
    assert forall|r: int| #[trigger] primary_at(parts, rows, at, r) implies prim.contains(rows[at][r]) by {
        assert(wanted(rows[at][r], 0 + r, dead, true));
        assert(list.contains(r));
        let i = choose|i: int| 0 <= i < list.len() && list[i] == r;
        assert(prim[i] == rows[at][r]);
    }
}

/// Which partition of the whole the `k`-th of the others is.
spec fn other(at: int, k: int) -> int {
    if k < at {
        k
    } else {
        k + 1
    }
}

/// A live row of a partition that rows are appended to.
proof fn lemma_appended_alive(a: PartitionState, b: PartitionState, rows: Seq<Row>, ng: int, width: int)
    requires
        appended(a, b, rows, ng, width),
        b.wf(),
        a.wf(),
    ensures
        b.n_rows == a.n_rows + rows.len(),
        forall|r: int| r < a.n_rows ==> (#[trigger] alive(b, r) <==> alive(a, r)),
        forall|r: int| a.n_rows <= r < b.n_rows ==> #[trigger] alive(b, r),
{
    assert forall|r: int| a.n_rows <= r < b.n_rows implies #[trigger] alive(b, r) by {
        assert(!marked(a.dead@, r));
        assert(marked(b.dead@, r) == marked(a.dead@, r));
    }
}

/// Dissolving a partition keeps one live first copy of every id.
pub proof fn law_dissolving_keeps_primaries(
    a: Seq<PartitionState>,
    b: Seq<PartitionState>,
    rows: Seq<Seq<Row>>,
    at: int,
    places: Seq<u32>,
    batches: Seq<RowBatch>,
    ng: int,
    width: int,
)
    requires
        ids_for(a, all_ids(rows)),
        one_primary(a, rows),
        0 <= at < a.len(),
        forall|k: int| 0 <= k < a.len() ==> (#[trigger] a[k]).wf(),
        forall|k: int| 0 <= k < b.len() ==> (#[trigger] b[k]).wf(),
        batches.len() == a.len() - 1,
        places.len() >= live_primary_rows(a[at], rows[at]).len(),
        forall|i: int| 0 <= i < live_primary_rows(a[at], rows[at]).len() ==> #[trigger] places[i] < batches.len(),
        forall|k: int|
            0 <= k < batches.len() ==> (#[trigger] batches[k])@ == sent_to(
                live_primary_rows(a[at], rows[at]),
                places,
                k,
            ),
        all_appended(a.remove(at), b, batches, ng, width),
    ensures
        one_primary(b, grown_rows(rows.remove(at), batches)),
{
    let rest = a.remove(at);
    let prim = live_primary_rows(a[at], rows[at]);
    let rb = grown_rows(rows.remove(at), batches);
    let fresh = rows_in(batches);
    let sel = Seq::new(b.len(), |k: int| other(at, k));
    let base = Seq::new(b.len(), |k: int| rest[k].n_rows as int);
    assert(all_ids(rows)[at].len() == a[at].n_rows);
    lemma_primary_places(a, rows, at);
    lemma_sent_distinct(prim, places, fresh);
    assert forall|k: int| 0 <= k < b.len() implies ends_at(#[trigger] b[k], base[k], fresh[k], sel[k], a.len() as int)
        && rest[k] == a[sel[k]] && rb[k] == rows[sel[k]] + fresh[k] && rows[sel[k]].len() == rest[k].n_rows && (forall|
        r: int,
    |
        r < rest[k].n_rows ==> (#[trigger] alive(b[k], r) <==> alive(a[sel[k]], r))) by {
        assert(appended(rest[k], b[k], batches[k]@, ng, width));
        assert(a[sel[k]].wf());
        lemma_appended_alive(rest[k], b[k], batches[k]@, ng, width);
        assert(all_ids(rows)[sel[k]].len() == a[sel[k]].n_rows);
    }
    assert(mixed(a, rows, b, rb, sel, base, fresh)) by {
        assert forall|k: int, r: int| 0 <= k < b.len() && #[trigger] alive(b[k], r) implies if r < base[k] {
            alive(a[sel[k]], r) && rb[k][r] == rows[sel[k]][r]
        } else {
            rb[k][r] == fresh[k][r - base[k]]
        } by {
            assert(ends_at(b[k], base[k], fresh[k], sel[k], a.len() as int));
        }
    }
    assert forall|k: int, r: int| #[trigger] primary_at(b, rb, k, r) && r < base[k] implies !fresh_primary(
        fresh,
        rb[k][r].id,
    ) by {
        if fresh_primary(fresh, rb[k][r].id) {
            let x = choose|x: int| 0 <= x < prim.len() && (#[trigger] prim[x]).id == rb[k][r].id;
            assert(is_primary(a, rows, at, prim[x]));
            let q = choose|q: int| #[trigger] primary_at(a, rows, at, q) && rows[at][q] == prim[x];
            assert(alive(b[k], r));
            assert(primary_at(a, rows, sel[k], r));
        }
    }
    assert forall|k: int, r: int| 0 <= k < b.len() && #[trigger] alive(b[k], r) implies has_primary(
        b,
        rb,
        rb[k][r].id,
    ) by {
        let id = rb[k][r].id;
        if r < base[k] {
            assert(alive(a[sel[k]], r));
            assert(has_primary(a, rows, rows[sel[k]][r].id));
            let (j, q) = choose|j: int, q: int| #[trigger] primary_at(a, rows, j, q) && rows[j][q].id == id;
            if j == at {
                let i = choose|i: int| 0 <= i < prim.len() && prim[i] == rows[at][q];
                assert(prim[i].id == id);
                assert(fresh_primary(fresh, id));
                lemma_fresh_has_primary(a, rows, b, rb, sel, base, fresh, id);
            } else {
                let n = if j < at {
                    j
                } else {
                    j - 1
                };
                assert(sel[n] == j);
                assert(ends_at(b[n], base[n], fresh[n], sel[n], a.len() as int));
                assert(alive(b[n], q));
                assert(primary_at(b, rb, n, q) && rb[n][q].id == id);
            }
        } else {
            lemma_sent_at(prim, places, k);
            assert(fresh[k] == sent_to(prim, places, k));
            assert(ends_at(b[k], base[k], fresh[k], sel[k], a.len() as int));
            let i = r - base[k];
            let x = sent_at(prim, places, k)[i];
            assert(!fresh[k][i].replica);
            assert(fresh_primary(fresh, id));
            lemma_fresh_has_primary(a, rows, b, rb, sel, base, fresh, id);
        }
    }
    lemma_mixed(a, rows, b, rb, sel, base, fresh);
}

/// Splitting a partition keeps one live first copy of every id.
pub proof fn law_splitting_keeps_primaries(
    a: Seq<PartitionState>,
    b: Seq<PartitionState>,
    rows: Seq<Seq<Row>>,
    at: int,
    children: Seq<u32>,
    id0: u32,
    id1: u32,
    ng: int,
    width: int,
)
    requires
        ids_for(a, all_ids(rows)),
        one_primary(a, rows),
        0 <= at < a.len(),
        children.len() == live_primary_rows(a[at], rows[at]).len(),
        forall|i: int| 0 <= i < children.len() ==> #[trigger] children[i] < 2,
        b.len() == a.len() + 1,
        forall|k: int| 0 <= k < a.len() - 1 ==> #[trigger] b[k] == a.remove(at)[k],
        holds_only(b[a.len() - 1], id0, sent_to(live_primary_rows(a[at], rows[at]), children, 0), ng, width),
        holds_only(b[a.len() as int], id1, sent_to(live_primary_rows(a[at], rows[at]), children, 1), ng, width),
    ensures
        one_primary(
            b,
            rows.remove(at).push(sent_to(live_primary_rows(a[at], rows[at]), children, 0)).push(
                sent_to(live_primary_rows(a[at], rows[at]), children, 1),
            ),
        ),
{
    let n = a.len() - 1;
    let rest = a.remove(at);
    let prim = live_primary_rows(a[at], rows[at]);
    let first = sent_to(prim, children, 0);
    let second = sent_to(prim, children, 1);
    let rb = rows.remove(at).push(first).push(second);
    let fresh = Seq::new(
        b.len(),
        |k: int|
            if k == n {
                first
            } else if k == n + 1 {
                second
            } else {
                Seq::<Row>::empty()
            },
    );
    let sel = Seq::new(b.len(), |k: int| other(at, k));
    let base = Seq::new(
        b.len(),
        |k: int|
            if k < n {
                rest[k].n_rows as int
            } else {
                0
            },
    );
    assert(all_ids(rows)[at].len() == a[at].n_rows);
    lemma_primary_places(a, rows, at);
    lemma_split_distinct(prim, children, fresh, n);
    assert forall|k: int| 0 <= k < b.len() implies ends_at(#[trigger] b[k], base[k], fresh[k], sel[k], a.len() as int)
        && (k < n ==> b[k] == a[sel[k]] && rb[k] == rows[sel[k]]) && (k >= n ==> rb[k] == fresh[k]) by {
        if k < n {
            assert(b[k] == rest[k]);
        }
    }
    assert(mixed(a, rows, b, rb, sel, base, fresh)) by {
        assert forall|k: int, r: int| 0 <= k < b.len() && #[trigger] alive(b[k], r) implies if r < base[k] {
            alive(a[sel[k]], r) && rb[k][r] == rows[sel[k]][r]
        } else {
            rb[k][r] == fresh[k][r - base[k]]
        } by {
            assert(ends_at(b[k], base[k], fresh[k], sel[k], a.len() as int));
        }
    }
    assert forall|k: int, r: int| #[trigger] primary_at(b, rb, k, r) && r < base[k] implies !fresh_primary(
        fresh,
        rb[k][r].id,
    ) by {
        if fresh_primary(fresh, rb[k][r].id) {
            let x = choose|x: int| 0 <= x < prim.len() && (#[trigger] prim[x]).id == rb[k][r].id;
            assert(is_primary(a, rows, at, prim[x]));
            let q = choose|q: int| #[trigger] primary_at(a, rows, at, q) && rows[at][q] == prim[x];
            assert(ends_at(b[k], base[k], fresh[k], sel[k], a.len() as int));
            assert(primary_at(a, rows, sel[k], r));
        }
    }
    assert forall|k: int, r: int| 0 <= k < b.len() && #[trigger] alive(b[k], r) implies has_primary(
        b,
        rb,
        rb[k][r].id,
    ) by {
        let id = rb[k][r].id;
        assert(ends_at(b[k], base[k], fresh[k], sel[k], a.len() as int));
        if r < base[k] {
            assert(alive(a[sel[k]], r));
            assert(has_primary(a, rows, rows[sel[k]][r].id));
            let (j, q) = choose|j: int, q: int| #[trigger] primary_at(a, rows, j, q) && rows[j][q].id == id;
            if j == at {
                assert(prim.contains(rows[at][q]));
                let i = choose|i: int| 0 <= i < prim.len() && prim[i] == rows[at][q];
                assert(prim[i].id == id);
                assert(fresh_primary(fresh, id));
                lemma_fresh_has_primary(a, rows, b, rb, sel, base, fresh, id);
            } else {
                let m = if j < at {
                    j
                } else {
                    j - 1
                };
                assert(sel[m] == j);
                assert(ends_at(b[m], base[m], fresh[m], sel[m], a.len() as int));
                assert(primary_at(b, rb, m, q) && rb[m][q].id == id);
            }
        } else {
            lemma_sent_at(prim, children, k - n);
            assert(fresh[k] == sent_to(prim, children, k - n));
            let x = sent_at(prim, children, k - n)[r];
            assert(!fresh[k][r].replica);
            assert(fresh_primary(fresh, id));
            lemma_fresh_has_primary(a, rows, b, rb, sel, base, fresh, id);
        }
    }
    lemma_mixed(a, rows, b, rb, sel, base, fresh);
}

/// Rows with different ids stay so when two new partitions take them.
proof fn lemma_split_distinct(rows: Seq<Row>, children: Seq<u32>, fresh: Seq<Seq<Row>>, n: int)
    requires
        0 <= n,
        children.len() == rows.len(),
        forall|i: int| 0 <= i < rows.len() ==> #[trigger] children[i] < 2,
        forall|i: int, j: int| 0 <= i < rows.len() && 0 <= j < rows.len() && i != j ==> rows[i].id != rows[j].id,
        fresh.len() == n + 2,
        forall|k: int| 0 <= k < n ==> (#[trigger] fresh[k]).len() == 0,
        fresh[n] == sent_to(rows, children, 0),
        fresh[n + 1] == sent_to(rows, children, 1),
    ensures
        distinct_primaries(fresh),
        forall|id: u64| #[trigger]
            fresh_primary(fresh, id) <==> exists|x: int| 0 <= x < rows.len() && (#[trigger] rows[x]).id == id,
{
    let two = seq![fresh[n], fresh[n + 1]];
    assert forall|k: int| 0 <= k < 2 implies #[trigger] two[k] == sent_to(rows, children, k) by {}
    lemma_sent_distinct(rows, children, two);
    assert forall|k: int, i: int, j: int, q: int|
        #![trigger fresh[k][i], fresh[j][q]]
        0 <= k < fresh.len() && 0 <= j < fresh.len() && 0 <= i < fresh[k].len() && 0 <= q < fresh[j].len()
            && !fresh[k][i].replica && !fresh[j][q].replica && fresh[k][i].id == fresh[j][q].id implies k == j
        && i == q by {
        assert(k >= n && j >= n);
        assert(two[k - n][i] == fresh[k][i] && two[j - n][q] == fresh[j][q]);
    }
    assert forall|id: u64| #[trigger] fresh_primary(fresh, id) <==> fresh_primary(two, id) by {
        if fresh_primary(fresh, id) {
            let (k, i) = choose|k: int, i: int|
                0 <= k < fresh.len() && 0 <= i < fresh[k].len() && !(#[trigger] fresh[k][i]).replica
                    && fresh[k][i].id == id;
            assert(k >= n);
            assert(!two[k - n][i].replica && two[k - n][i].id == id);
        }
        if fresh_primary(two, id) {
            let (k, i) = choose|k: int, i: int|
                0 <= k < two.len() && 0 <= i < two[k].len() && !(#[trigger] two[k][i]).replica && two[k][i].id == id;
            assert(!fresh[n + k][i].replica && fresh[n + k][i].id == id);
        }
    }
}

/// Appending rows keeps one live first copy of every id, if every new row's id
/// has one, old or new, and no two.
proof fn lemma_appended_primaries(
    a: Seq<PartitionState>,
    ra: Seq<Seq<Row>>,
    mid: Seq<PartitionState>,
    b: Seq<PartitionState>,
    batches: Seq<RowBatch>,
    ng: int,
    width: int,
)
    requires
        ids_for(a, all_ids(ra)),
        one_primary(a, ra),
        mid.len() == a.len(),
        forall|k: int| 0 <= k < a.len() ==> (#[trigger] mid[k]).n_rows == a[k].n_rows,
        forall|k: int, r: int| 0 <= k < a.len() && #[trigger] alive(mid[k], r) ==> alive(a[k], r),
        forall|k: int| 0 <= k < mid.len() ==> (#[trigger] mid[k]).wf(),
        forall|k: int| 0 <= k < b.len() ==> (#[trigger] b[k]).wf(),
        batches.len() == a.len(),
        all_appended(mid, b, batches, ng, width),
        distinct_primaries(rows_in(batches)),
        forall|k: int, r: int|
            #[trigger] primary_at(mid, ra, k, r) ==> !fresh_primary(rows_in(batches), ra[k][r].id),
        forall|k: int, r: int|
            #[trigger] primary_at(a, ra, k, r) ==> primary_at(mid, ra, k, r) || fresh_primary(
                rows_in(batches),
                ra[k][r].id,
            ),
        forall|k: int, i: int|
            0 <= k < batches.len() && 0 <= i < batches[k]@.len() ==> has_primary(
                a,
                ra,
                (#[trigger] batches[k]@[i]).id,
            ) || fresh_primary(rows_in(batches), batches[k]@[i].id),
    ensures
        one_primary(b, grown_rows(ra, batches)),
{
    let rb = grown_rows(ra, batches);
    let fresh = rows_in(batches);
    let sel = Seq::new(b.len(), |k: int| k);
    let base = Seq::new(b.len(), |k: int| a[k].n_rows as int);
    assert forall|k: int| 0 <= k < b.len() implies ends_at(#[trigger] b[k], base[k], fresh[k], sel[k], a.len() as int)
        && rb[k] == ra[k] + fresh[k] && ra[k].len() == a[k].n_rows && (forall|r: int|
        r < base[k] ==> (#[trigger] alive(b[k], r) <==> alive(mid[k], r))) by {
        assert(appended(mid[k], b[k], batches[k]@, ng, width));
        assert(mid[k].wf());
        lemma_appended_alive(mid[k], b[k], batches[k]@, ng, width);
        assert(all_ids(ra)[k].len() == a[k].n_rows);
    }
    assert(mixed(a, ra, b, rb, sel, base, fresh)) by {
        assert forall|k: int, r: int| 0 <= k < b.len() && #[trigger] alive(b[k], r) implies if r < base[k] {
            alive(a[sel[k]], r) && rb[k][r] == ra[sel[k]][r]
        } else {
            rb[k][r] == fresh[k][r - base[k]]
        } by {
            assert(ends_at(b[k], base[k], fresh[k], sel[k], a.len() as int));
            if r < base[k] {
                assert(alive(mid[k], r));
            }
        }
    }
    assert forall|k: int, r: int| #[trigger] primary_at(b, rb, k, r) && r < base[k] implies !fresh_primary(
        fresh,
        rb[k][r].id,
    ) by {
        assert(ends_at(b[k], base[k], fresh[k], sel[k], a.len() as int));
        assert(alive(b[k], r));
        assert(primary_at(mid, ra, k, r));
    }
    assert forall|id: u64| #[trigger] has_primary(a, ra, id) implies has_primary(b, rb, id) by {
        let (j, q) = choose|j: int, q: int| #[trigger] primary_at(a, ra, j, q) && ra[j][q].id == id;
        if fresh_primary(fresh, id) {
            lemma_fresh_has_primary(a, ra, b, rb, sel, base, fresh, id);
        } else {
            assert(primary_at(mid, ra, j, q));
            assert(ends_at(b[j], base[j], fresh[j], sel[j], a.len() as int));
            assert(alive(b[j], q));
            assert(primary_at(b, rb, j, q) && rb[j][q].id == id);
        }
    }
    assert forall|k: int, r: int| 0 <= k < b.len() && #[trigger] alive(b[k], r) implies has_primary(
        b,
        rb,
        rb[k][r].id,
    ) by {
        assert(ends_at(b[k], base[k], fresh[k], sel[k], a.len() as int));
        if r < base[k] {
            assert(alive(a[k], r));
            assert(has_primary(a, ra, ra[k][r].id));
        } else {
            let i = r - base[k];
            assert(rb[k][r] == batches[k]@[i]);
            if fresh_primary(fresh, batches[k]@[i].id) {
                lemma_fresh_has_primary(a, ra, b, rb, sel, base, fresh, batches[k]@[i].id);
            }
        }
    }
    lemma_mixed(a, ra, b, rb, sel, base, fresh);
}

/// Moving live first copies to other partitions keeps one of every id.
pub proof fn law_reassigning_keeps_primaries(
    a: Seq<PartitionState>,
    mid: Seq<PartitionState>,
    b: Seq<PartitionState>,
    rows: Seq<Seq<Row>>,
    at: int,
    gone: Seq<u64>,
    moved: Seq<Row>,
    places: Seq<u32>,
    batches: Seq<RowBatch>,
    ng: int,
    width: int,
)
    requires
        ids_for(a, all_ids(rows)),
        one_primary(a, rows),
        0 <= at < a.len(),
        forall|k: int| 0 <= k < mid.len() ==> (#[trigger] mid[k]).wf(),
        forall|k: int| 0 <= k < b.len() ==> (#[trigger] b[k]).wf(),
        one_marked(a, mid, at, gone),
        gone.no_duplicates(),
        moved.len() == gone.len(),
        forall|i: int|
            0 <= i < gone.len() ==> primary_at(a, rows, at, (#[trigger] gone[i]) as int) && rows[at][gone[i] as int].id
                == moved[i].id,
        places.len() >= moved.len(),
        forall|i: int| 0 <= i < moved.len() ==> #[trigger] places[i] < batches.len(),
        batches.len() == a.len(),
        forall|k: int| 0 <= k < batches.len() ==> (#[trigger] batches[k])@ == sent_to(moved, places, k),
        all_appended(mid, b, batches, ng, width),
    ensures
        one_primary(b, grown_rows(rows, batches)),
{
    let fresh = rows_in(batches);
    assert(all_ids(rows)[at].len() == a[at].n_rows);
    assert forall|i: int, j: int| 0 <= i < moved.len() && 0 <= j < moved.len() && i != j implies moved[i].id
        != moved[j].id by {
        assert(primary_at(a, rows, at, gone[i] as int) && primary_at(a, rows, at, gone[j] as int));
        assert(gone[i] != gone[j]);
    }
    lemma_sent_distinct(moved, places, fresh);
    assert forall|k: int| 0 <= k < a.len() implies (#[trigger] mid[k]).n_rows == a[k].n_rows by {
        if k != at {
            assert(mid[k] == a[k]);
        }
    }
    assert forall|k: int, r: int| 0 <= k < a.len() && #[trigger] alive(mid[k], r) implies alive(a[k], r) by {
        if k != at {
            assert(mid[k] == a[k]);
        } else {
            assert(marked(mid[at].dead@, r) == (marked(a[at].dead@, r) || (r <= u64::MAX && gone.contains(r as u64))));
        }
    }
    assert forall|k: int, r: int| #[trigger] primary_at(mid, rows, k, r) implies !fresh_primary(
        fresh,
        rows[k][r].id,
    ) by {
        if fresh_primary(fresh, rows[k][r].id) {
            let x = choose|x: int| 0 <= x < moved.len() && (#[trigger] moved[x]).id == rows[k][r].id;
            assert(alive(mid[k], r));
            assert(primary_at(a, rows, k, r) && primary_at(a, rows, at, gone[x] as int));
            assert(k == at && r == gone[x]);
            assert(gone.contains(gone[x]));
            assert(marked(mid[at].dead@, r));
        }
    }
    assert forall|k: int, r: int| #[trigger] primary_at(a, rows, k, r) implies primary_at(mid, rows, k, r)
        || fresh_primary(fresh, rows[k][r].id) by {
        if k != at {
            assert(mid[k] == a[k]);
        } else if r <= u64::MAX && gone.contains(r as u64) {
            let x = choose|x: int| 0 <= x < gone.len() && gone[x] == r as u64;
            assert(gone[x] as int == r);
            assert(moved[x].id == rows[k][r].id);
        } else {
            assert(marked(mid[at].dead@, r) == marked(a[at].dead@, r));
        }
    }
    assert forall|k: int, i: int| 0 <= k < batches.len() && 0 <= i < batches[k]@.len() implies has_primary(
        a,
        rows,
        (#[trigger] batches[k]@[i]).id,
    ) || fresh_primary(fresh, batches[k]@[i].id) by {
        lemma_sent_at(moved, places, k);
        let x = sent_at(moved, places, k)[i];
        assert(batches[k]@ == sent_to(moved, places, k));
        assert(moved[x].id == batches[k]@[i].id);
    }
    lemma_appended_primaries(a, rows, mid, b, batches, ng, width);
}

proof fn lemma_copies_to_primary(row: Row, list: Seq<u32>, p: int, k: int)
    requires
        0 <= k <= list.len(),
    ensures
        forall|i: int|
            0 <= i < copies_to(row, list, p, k).len() ==> (#[trigger] copies_to(row, list, p, k)[i]).id == row.id,
        forall|i: int|
            0 <= i < copies_to(row, list, p, k).len() && !(#[trigger] copies_to(row, list, p, k)[i]).replica ==> i == 0
                && list[0] == p,
        k > 0 && list[0] == p ==> copies_to(row, list, p, k).len() > 0 && !copies_to(row, list, p, k)[0].replica,
    decreases k,
{
    if k > 0 {
        lemma_copies_to_primary(row, list, p, k - 1);
        let was = copies_to(row, list, p, k - 1);
        let now = copies_to(row, list, p, k);
        assert forall|i: int| 0 <= i < now.len() implies (#[trigger] now[i]).id == row.id && (!now[i].replica ==> i
            == 0 && list[0] == p) by {
            if i < was.len() {
                assert(now[i] == was[i]);
            } else if k == 1 {
                assert(was.len() == 0);
            }
        }
    }
}

/// Some row has this id.
spec fn has_id(rows: Seq<Row>, id: u64) -> bool {
    exists|x: int| 0 <= x < rows.len() && (#[trigger] rows[x]).id == id
}

/// Copies of rows with different ids hold one first copy of each.
proof fn lemma_spread_distinct(rows: Seq<Row>, lists: Seq<Vec<u32>>, fresh: Seq<Seq<Row>>)
    requires
        lists.len() >= rows.len(),
        forall|i: int| 0 <= i < rows.len() ==> (#[trigger] lists[i])@.len() > 0 && lists[i]@[0] < fresh.len(),
        forall|i: int, j: int| 0 <= i < rows.len() && 0 <= j < rows.len() && i != j ==> rows[i].id != rows[j].id,
        forall|k: int| 0 <= k < fresh.len() ==> #[trigger] fresh[k] == spread_to(rows, lists, k),
    ensures
        distinct_primaries(fresh),
        forall|id: u64| #[trigger] fresh_primary(fresh, id) <==> has_id(rows, id),
        forall|k: int, i: int| 0 <= k < fresh.len() && 0 <= i < fresh[k].len() ==> has_id(rows, (#[trigger] fresh[k][i]).id),
    decreases rows.len(),
{
    if rows.len() == 0 {
    } else {
        let init = rows.drop_last();
        let row = rows.last();
        let n = rows.len() - 1;
        let list = lists[n]@;
        let was = Seq::new(fresh.len(), |k: int| spread_to(init, lists, k));
        assert(lists[n]@.len() > 0);
        assert forall|i: int, j: int| 0 <= i < init.len() && 0 <= j < init.len() && i != j implies init[i].id
            != init[j].id by {
            assert(rows[i].id != rows[j].id);
        }
        lemma_spread_distinct(init, lists, was);
        assert forall|k: int| 0 <= k < fresh.len() implies #[trigger] fresh[k] == was[k] + copies_to(
            row,
            list,
            k,
            list.len() as int,
        ) by {}
        assert(!has_id(init, row.id)) by {
            if has_id(init, row.id) {
                let x = choose|x: int| 0 <= x < init.len() && (#[trigger] init[x]).id == row.id;
                assert(rows[x].id != rows[n].id);
            }
        }
        assert forall|k: int, i: int| 0 <= k < fresh.len() && 0 <= i < fresh[k].len() implies {
            &&& i < was[k].len() ==> fresh[k][i] == was[k][i] && has_id(init, fresh[k][i].id)
            &&& i >= was[k].len() ==> (#[trigger] fresh[k][i]).id == row.id && (!fresh[k][i].replica ==> i
                == was[k].len() && list[0] == k)
        } by {
            lemma_copies_to_primary(row, list, k, list.len() as int);
            assert(fresh[k] == was[k] + copies_to(row, list, k, list.len() as int));
            if i < was[k].len() {
                assert(has_id(init, was[k][i].id));
            } else {
                assert(fresh[k][i] == copies_to(row, list, k, list.len() as int)[i - was[k].len()]);
            }
        }
        assert forall|id: u64| has_id(init, id) implies #[trigger] has_id(rows, id) by {
            let x = choose|x: int| 0 <= x < init.len() && (#[trigger] init[x]).id == id;
            assert(rows[x].id == id);
        }
        assert(has_id(rows, row.id)) by {
            assert(rows[n].id == row.id);
        }
        assert forall|k: int, i: int, j: int, q: int|
            #![trigger fresh[k][i], fresh[j][q]]
            0 <= k < fresh.len() && 0 <= j < fresh.len() && 0 <= i < fresh[k].len() && 0 <= q < fresh[j].len()
                && !fresh[k][i].replica && !fresh[j][q].replica && fresh[k][i].id == fresh[j][q].id implies k == j
            && i == q by {
            if i < was[k].len() && q < was[j].len() {
                assert(was[k][i] == fresh[k][i] && was[j][q] == fresh[j][q]);
            }
        }
        assert forall|id: u64| #[trigger] fresh_primary(fresh, id) <==> has_id(rows, id) by {
            if fresh_primary(fresh, id) {
                let (k, i) = choose|k: int, i: int|
                    0 <= k < fresh.len() && 0 <= i < fresh[k].len() && !(#[trigger] fresh[k][i]).replica
                        && fresh[k][i].id == id;
                assert(i < was[k].len() ==> has_id(init, id));
            }
            if has_id(rows, id) {
                let x = choose|x: int| 0 <= x < rows.len() && (#[trigger] rows[x]).id == id;
                if x < n {
                    assert(init[x].id == id);
                    assert(fresh_primary(was, id));
                    let (k, i) = choose|k: int, i: int|
                        0 <= k < was.len() && 0 <= i < was[k].len() && !(#[trigger] was[k][i]).replica
                            && was[k][i].id == id;
                    assert(fresh[k] == was[k] + copies_to(row, list, k, list.len() as int));
                    assert(fresh[k][i] == was[k][i]);
                } else {
                    let k = list[0] as int;
                    assert(lists[n]@[0] < fresh.len());
                    lemma_copies_to_primary(row, list, k, list.len() as int);
                    let i = was[k].len() as int;
                    assert(fresh[k] == was[k] + copies_to(row, list, k, list.len() as int));
                    assert(fresh[k][i] == copies_to(row, list, k, list.len() as int)[0]);
                    assert(!fresh[k][i].replica && fresh[k][i].id == id);
                }
            }
        }
    }
}

/// Appending new rows, each to its own partitions, keeps one live first copy
/// of every id: the first of a row's partitions takes it.
pub proof fn law_ingest_keeps_primaries(
    a: Seq<PartitionState>,
    b: Seq<PartitionState>,
    rows: Seq<Seq<Row>>,
    new: Seq<Row>,
    lists: Seq<Vec<u32>>,
    batches: Seq<RowBatch>,
    ng: int,
    width: int,
)
    requires
        ids_for(a, all_ids(rows)),
        one_primary(a, rows),
        forall|k: int| 0 <= k < a.len() ==> (#[trigger] a[k]).wf(),
        forall|k: int| 0 <= k < b.len() ==> (#[trigger] b[k]).wf(),
        batches.len() == a.len(),
        lists.len() >= new.len(),
        forall|i: int| 0 <= i < new.len() ==> (#[trigger] lists[i])@.len() > 0 && lists[i]@[0] < batches.len(),
        forall|i: int, j: int| 0 <= i < new.len() && 0 <= j < new.len() && i != j ==> new[i].id != new[j].id,
        forall|i: int| 0 <= i < new.len() ==> !stored_ids(a, all_ids(rows)).contains((#[trigger] new[i]).id),
        forall|k: int| 0 <= k < batches.len() ==> (#[trigger] batches[k])@ == spread_to(new, lists, k),
        all_appended(a, b, batches, ng, width),
    ensures
        one_primary(b, grown_rows(rows, batches)),
{
    let fresh = rows_in(batches);
    lemma_spread_distinct(new, lists, fresh);
    lemma_new_rows(a, b, rows, new, batches, ng, width);
}

/// Appending new rows, each to one partition, keeps one live first copy of
/// every id.
pub proof fn law_placing_keeps_primaries(
    a: Seq<PartitionState>,
    b: Seq<PartitionState>,
    rows: Seq<Seq<Row>>,
    new: Seq<Row>,
    places: Seq<u32>,
    batches: Seq<RowBatch>,
    ng: int,
    width: int,
)
    requires
        ids_for(a, all_ids(rows)),
        one_primary(a, rows),
        forall|k: int| 0 <= k < a.len() ==> (#[trigger] a[k]).wf(),
        forall|k: int| 0 <= k < b.len() ==> (#[trigger] b[k]).wf(),
        batches.len() == a.len(),
        places.len() >= new.len(),
        forall|i: int| 0 <= i < new.len() ==> #[trigger] places[i] < batches.len(),
        forall|i: int, j: int| 0 <= i < new.len() && 0 <= j < new.len() && i != j ==> new[i].id != new[j].id,
        forall|i: int| 0 <= i < new.len() ==> !stored_ids(a, all_ids(rows)).contains((#[trigger] new[i]).id),
        forall|k: int| 0 <= k < batches.len() ==> (#[trigger] batches[k])@ == sent_to(new, places, k),
        all_appended(a, b, batches, ng, width),
    ensures
        one_primary(b, grown_rows(rows, batches)),
{
    let fresh = rows_in(batches);
    lemma_sent_distinct(new, places, fresh);
    assert forall|id: u64| #[trigger] fresh_primary(fresh, id) <==> has_id(new, id) by {}
    assert forall|k: int, i: int| 0 <= k < fresh.len() && 0 <= i < fresh[k].len() implies has_id(
        new,
        (#[trigger] fresh[k][i]).id,
    ) by {
        lemma_sent_at(new, places, k);
        let x = sent_at(new, places, k)[i];
        assert(fresh[k] == sent_to(new, places, k));
        assert(new[x].id == fresh[k][i].id);
    }
    lemma_new_rows(a, b, rows, new, batches, ng, width);
}

proof fn lemma_new_rows(
    a: Seq<PartitionState>,
    b: Seq<PartitionState>,
    rows: Seq<Seq<Row>>,
    new: Seq<Row>,
    batches: Seq<RowBatch>,
    ng: int,
    width: int,
)
    requires
        ids_for(a, all_ids(rows)),
        one_primary(a, rows),
        forall|k: int| 0 <= k < a.len() ==> (#[trigger] a[k]).wf(),
        forall|k: int| 0 <= k < b.len() ==> (#[trigger] b[k]).wf(),
        batches.len() == a.len(),
        forall|i: int| 0 <= i < new.len() ==> !stored_ids(a, all_ids(rows)).contains((#[trigger] new[i]).id),
        all_appended(a, b, batches, ng, width),
        distinct_primaries(rows_in(batches)),
        forall|id: u64| #[trigger] fresh_primary(rows_in(batches), id) <==> has_id(new, id),
        forall|k: int, i: int|
            0 <= k < batches.len() && 0 <= i < rows_in(batches)[k].len() ==> has_id(
                new,
                (#[trigger] rows_in(batches)[k][i]).id,
            ),
    ensures
        one_primary(b, grown_rows(rows, batches)),
{
    let fresh = rows_in(batches);
    assert forall|k: int, r: int| #[trigger] primary_at(a, rows, k, r) implies !fresh_primary(fresh, rows[k][r].id) by {
        if has_id(new, rows[k][r].id) {
            let x = choose|x: int| 0 <= x < new.len() && (#[trigger] new[x]).id == rows[k][r].id;
            assert(all_ids(rows)[k].len() == a[k].n_rows);
            assert(alive(a[k], r) && all_ids(rows)[k][r] == new[x].id);
            assert(stored(a, all_ids(rows), new[x].id));
        }
    }
    assert forall|k: int, i: int| 0 <= k < batches.len() && 0 <= i < batches[k]@.len() implies has_primary(
        a,
        rows,
        (#[trigger] batches[k]@[i]).id,
    ) || fresh_primary(fresh, batches[k]@[i].id) by {
        assert(fresh[k][i] == batches[k]@[i]);
    }
    lemma_appended_primaries(a, rows, a, b, batches, ng, width);
}

/// Appending further copies of stored vectors keeps one live first copy of
/// every id.
pub proof fn law_replicas_keep_primaries(
    a: Seq<PartitionState>,
    b: Seq<PartitionState>,
    rows: Seq<Seq<Row>>,
    batches: Seq<RowBatch>,
    ng: int,
    width: int,
)
    requires
        ids_for(a, all_ids(rows)),
        one_primary(a, rows),
        forall|k: int| 0 <= k < a.len() ==> (#[trigger] a[k]).wf(),
        forall|k: int| 0 <= k < b.len() ==> (#[trigger] b[k]).wf(),
        batches.len() == a.len(),
        forall|k: int, i: int|
            0 <= k < batches.len() && 0 <= i < batches[k]@.len() ==> (#[trigger] batches[k]@[i]).replica && stored_ids(
                a,
                all_ids(rows),
            ).contains(batches[k]@[i].id),
        all_appended(a, b, batches, ng, width),
    ensures
        one_primary(b, grown_rows(rows, batches)),
{
    let fresh = rows_in(batches);
    assert forall|k: int, i: int| 0 <= k < fresh.len() && 0 <= i < fresh[k].len() implies (#[trigger] fresh[k][i]).replica by {
        assert(batches[k]@[i].replica);
    }
    assert forall|k: int, i: int| 0 <= k < batches.len() && 0 <= i < batches[k]@.len() implies has_primary(
        a,
        rows,
        (#[trigger] batches[k]@[i]).id,
    ) || fresh_primary(fresh, batches[k]@[i].id) by {
        let id = batches[k]@[i].id;
        assert(stored(a, all_ids(rows), id));
        let (j, r) = choose|j: int, r: int| 0 <= j < a.len() && #[trigger] alive(a[j], r) && all_ids(rows)[j][r] == id;
        assert(all_ids(rows)[j].len() == a[j].n_rows);
        assert(has_primary(a, rows, rows[j][r].id));
    }
    lemma_appended_primaries(a, rows, a, b, batches, ng, width);
}

} // verus!
