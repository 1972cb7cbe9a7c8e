//! Which rows a partition gives back, and which copies of rows go where.
use vstd::prelude::*;
use crate::batch::{
    copies_to, primary_rows, replica_ids, row_of, sent_to, spread_to, Row, RowBatch,
};
use crate::bits::{marked, marks};
use crate::fresh::FreshIndex;
use crate::move_laws::increasing;
use crate::pack::{groups, plane_code, row_code, Layout};
use crate::partition::{live_at, live_of, PartitionState};
use crate::replicas::{replicas_of, replicas_to};

verus! {

/// A row number that is alive, and a primary where only these are asked for.
pub open spec fn asked_for(rows: Seq<Row>, dead: Seq<u8>, primaries_only: bool, i: int) -> bool {
    0 <= i < rows.len() && !marked(dead, i) && (primaries_only ==> !rows[i].replica)
}

proof fn lemma_live(rows: Seq<Row>, dead: Seq<u8>, primaries_only: bool)
    ensures
        ({
            let at = live_at(rows, dead, 0, primaries_only);
            let live = live_of(rows, dead, 0, primaries_only);
            &&& live.len() == at.len()
            &&& increasing(at)
            &&& forall|k: int| 0 <= k < at.len() ==> 0 <= #[trigger] at[k] < rows.len() && live[k] == rows[at[k]]
            &&& forall|i: int| #[trigger] at.contains(i) <==> asked_for(rows, dead, primaries_only, i)
        }),
    decreases rows.len(),
{
    if rows.len() > 0 {
        let init = rows.drop_last();
        lemma_live(init, dead, primaries_only);
        let a = live_at(init, dead, 0, primaries_only);
        let at = live_at(rows, dead, 0, primaries_only);
        let n = rows.len() - 1;
        assert forall|k: int| 0 <= k < at.len() implies 0 <= #[trigger] at[k] < rows.len() && live_of(
            rows,
            dead,
            0,
            primaries_only,
        )[k] == rows[at[k]] by {
            if k < a.len() {
                assert(at[k] == a[k]);
                assert(init[a[k]] == rows[a[k]]);
            }
        }
        assert forall|i: int| #[trigger] at.contains(i) <==> asked_for(rows, dead, primaries_only, i) by {
            assert(a.contains(i) <==> asked_for(init, dead, primaries_only, i));
            if a.contains(i) {
                let k = choose|k: int| 0 <= k < a.len() && a[k] == i;
                assert(at[k] == i);
                assert(init[i] == rows[i]);
            }
            if asked_for(rows, dead, primaries_only, i) {
                if i < n {
                    assert(init[i] == rows[i]);
                } else {
                    assert(at[a.len() as int] == i);
                }
            }
            if at.contains(i) && !a.contains(i) {
                let k = choose|k: int| 0 <= k < at.len() && at[k] == i;
                if k < a.len() {
                    assert(a[k] == i);
                }
            }
        }
    }
}

/// A partition gives back exactly the rows that are alive, or alive and
/// primary, each once, in order and with its number.
pub proof fn law_live_rows_are_read(
    p: &PartitionState,
    flavor: Layout,
    file: &[u8],
    ng: usize,
    width: usize,
    primaries_only: bool,
    r: (RowBatch, Vec<u64>),
)
    requires
        PartitionState::read_live.ensures((p, flavor, file, ng, width, primaries_only), r),
        p.rows(flavor, file@, ng as int, width as int).len() <= u64::MAX,
    ensures
        r.1@.len() == r.0@.len(),
        forall|i: int, k: int| 0 <= i < k < r.1@.len() ==> #[trigger] r.1@[i] < #[trigger] r.1@[k],
        ({
            let rows = p.rows(flavor, file@, ng as int, width as int);
            &&& forall|k: int|
                0 <= k < r.1@.len() ==> #[trigger] r.1@[k] < rows.len() && r.0@[k] == rows[r.1@[k] as int]
            &&& forall|i: u64| #[trigger] r.1@.contains(i) <==> asked_for(rows, p.dead@, primaries_only, i as int)
        }),
{
    let rows = p.rows(flavor, file@, ng as int, width as int);
    let at = live_at(rows, p.dead@, 0, primaries_only);
    lemma_live(rows, p.dead@, primaries_only);
    assert forall|i: int, k: int| 0 <= i < k < r.1@.len() implies #[trigger] r.1@[i] < #[trigger] r.1@[k] by {
        assert(at[i] < at[k]);
    }
    assert forall|i: u64| #[trigger] r.1@.contains(i) <==> asked_for(rows, p.dead@, primaries_only, i as int) by {
        assert(at.contains(i as int) <==> asked_for(rows, p.dead@, primaries_only, i as int));
        if r.1@.contains(i) {
            let k = choose|k: int| 0 <= k < r.1@.len() && r.1@[k] == i;
            assert(at[k] == i);
        }
        if at.contains(i as int) {
            let k = choose|k: int| 0 <= k < at.len() && at[k] == i;
            assert(r.1@[k] == i);
        }
    }
}

/// The places of rows that are replicas, or that are not.
proof fn lemma_parted(rows: Seq<Row>) -> (at: (Seq<int>, Seq<int>))
    ensures
        increasing(at.0),
        increasing(at.1),
        primary_rows(rows).len() == at.0.len(),
        replica_ids(rows).len() == at.1.len(),
        forall|k: int| 0 <= k < at.0.len() ==> 0 <= #[trigger] at.0[k] < rows.len() && primary_rows(rows)[k] == rows[at.0[k]],
        forall|k: int| 0 <= k < at.1.len() ==> 0 <= #[trigger] at.1[k] < rows.len() && replica_ids(rows)[k] == rows[at.1[k]].id,
        forall|i: int| #[trigger] at.0.contains(i) <==> 0 <= i < rows.len() && !rows[i].replica,
        forall|i: int| #[trigger] at.1.contains(i) <==> 0 <= i < rows.len() && rows[i].replica,
    decreases rows.len(),
{
    if rows.len() == 0 {
        (Seq::empty(), Seq::empty())
    } else {
        let init = rows.drop_last();
        let n = rows.len() - 1;
        let a = lemma_parted(init);
        let at = if rows[n].replica {
            (a.0, a.1.push(n))
        } else {
            (a.0.push(n), a.1)
        };
        lemma_contains_push(a.0, n);
        lemma_contains_push(a.1, n);
        assert forall|i: int| #[trigger] at.0.contains(i) <==> 0 <= i < rows.len() && !rows[i].replica by {
            assert(a.0.contains(i) <==> 0 <= i < init.len() && !init[i].replica);
        }
        assert forall|i: int| #[trigger] at.1.contains(i) <==> 0 <= i < rows.len() && rows[i].replica by {
            assert(a.1.contains(i) <==> 0 <= i < init.len() && init[i].replica);
        }
        at
    }
}

proof fn lemma_contains_push<A>(s: Seq<A>, x: A)
    ensures
        forall|y: A| #[trigger] s.push(x).contains(y) <==> s.contains(y) || y == x,
{
    assert forall|y: A| #[trigger] s.push(x).contains(y) <==> s.contains(y) || y == x by {
        if s.contains(y) {
            let k = choose|k: int| 0 <= k < s.len() && s[k] == y;
            assert(s.push(x)[k] == y);
        }
        if y == x {
            assert(s.push(x)[s.len() as int] == y);
        }
        if s.push(x).contains(y) && y != x {
            let k = choose|k: int| 0 <= k < s.push(x).len() && s.push(x)[k] == y;
            assert(s[k] == y);
        }
    }
}

/// Parting a batch gives all rows that are no replicas, and the ids of all that
/// are, in order.
pub proof fn law_replicas_are_parted(b: &RowBatch, r: (RowBatch, Vec<u64>))
    requires
        RowBatch::part_replicas.ensures((b,), r),
    ensures
        exists|at: Seq<int>|
            #![trigger increasing(at)]
            {
                &&& increasing(at)
                &&& at.len() == r.0@.len()
                &&& forall|k: int| 0 <= k < at.len() ==> r.0@[k] == b@[#[trigger] at[k]]
                &&& forall|i: int| #[trigger] at.contains(i) <==> 0 <= i < b@.len() && !b@[i].replica
            },
        exists|at: Seq<int>|
            #![trigger increasing(at)]
            {
                &&& increasing(at)
                &&& at.len() == r.1@.len()
                &&& forall|k: int| 0 <= k < at.len() ==> r.1@[k] == b@[#[trigger] at[k]].id
                &&& forall|i: int| #[trigger] at.contains(i) <==> 0 <= i < b@.len() && b@[i].replica
            },
{
    let at = lemma_parted(b@);
    assert(increasing(at.0));
    assert(increasing(at.1));
}

proof fn lemma_sent(rows: Seq<Row>, places: Seq<u32>, p: int) -> (at: Seq<int>)
    ensures
        increasing(at),
        sent_to(rows, places, p).len() == at.len(),
        forall|k: int|
            0 <= k < at.len() ==> 0 <= #[trigger] at[k] < rows.len() && sent_to(rows, places, p)[k] == (Row {
                replica: false,
                ..rows[at[k]]
            }),
        forall|i: int| #[trigger] at.contains(i) <==> 0 <= i < rows.len() && places[i] == p,
    decreases rows.len(),
{
    if rows.len() == 0 {
        Seq::empty()
    } else {
        let init = rows.drop_last();
        let n = rows.len() - 1;
        let a = lemma_sent(init, places, p);
        lemma_contains_push(a, n);
        let at = if places[n] == p {
            a.push(n)
        } else {
            a
        };
        assert forall|i: int| #[trigger] at.contains(i) <==> 0 <= i < rows.len() && places[i] == p by {
            assert(a.contains(i) <==> 0 <= i < init.len() && places[i] == p);
        }
        at
    }
}

/// A place receives exactly the rows that are sent there, each once, in order
/// and as a primary.
pub proof fn law_places_receive_their_rows(b: &RowBatch, places: &[u32], n_places: usize, r: Vec<RowBatch>, p: int)
    requires
        RowBatch::distribute.ensures((b, places, n_places), r),
        0 <= p < n_places,
    ensures
        r@.len() == n_places,
        exists|at: Seq<int>|
            #![trigger increasing(at)]
            {
                &&& increasing(at)
                &&& at.len() == r@[p]@.len()
                &&& forall|k: int|
                    0 <= k < at.len() ==> r@[p]@[k] == (Row { replica: false, ..b@[#[trigger] at[k]] })
                &&& forall|i: int| #[trigger] at.contains(i) <==> 0 <= i < b@.len() && places@[i] == p
            },
{
    let at = lemma_sent(b@, places@, p);
    assert(increasing(at));
    assert(r@[p]@ == sent_to(b@, places@, p));
}

/// Row by row, and for each row place by place.
pub open spec fn row_by_row(at: Seq<(int, int)>) -> bool {
    forall|i: int, k: int|
        0 <= i < k < at.len() ==> (#[trigger] at[i]).0 < (#[trigger] at[k]).0 || (at[i].0 == at[k].0 && at[i].1 < at[k].1)
}

/// Entry `d` of the list of row `i` is `p`.
pub open spec fn listed_at(lists: Seq<Vec<u32>>, n: int, p: int, i: int, d: int) -> bool {
    0 <= i < n && 0 <= d < lists[i]@.len() && lists[i]@[d] == p
}

proof fn lemma_copies(row: Row, list: Seq<u32>, p: int, n: int) -> (at: Seq<int>)
    requires
        0 <= n <= list.len(),
    ensures
        increasing(at),
        copies_to(row, list, p, n).len() == at.len(),
        replicas_of(row, list, p, n).len() == at.len(),
        forall|k: int|
            0 <= k < at.len() ==> 0 <= #[trigger] at[k] < n && copies_to(row, list, p, n)[k] == (Row {
                replica: at[k] > 0,
                ..row
            }) && replicas_of(row, list, p, n)[k] == (Row { replica: true, ..row }),
        forall|d: int| #[trigger] at.contains(d) <==> 0 <= d < n && list[d] == p,
    decreases n,
{
    if n == 0 {
        Seq::empty()
    } else {
        let a = lemma_copies(row, list, p, n - 1);
        lemma_contains_push(a, n - 1);
        let at = if list[n - 1] == p {
            a.push(n - 1)
        } else {
            a
        };
        assert forall|d: int| #[trigger] at.contains(d) <==> 0 <= d < n && list[d] == p by {
            assert(a.contains(d) <==> 0 <= d < n - 1 && list[d] == p);
        }
        at
    }
}

/// The list entries that send copies to `p`, in order.
proof fn lemma_spread(rows: Seq<Row>, lists: Seq<Vec<u32>>, p: int) -> (at: Seq<(int, int)>)
    requires
        lists.len() >= rows.len(),
    ensures
        row_by_row(at),
        spread_to(rows, lists, p).len() == at.len(),
        replicas_to(rows, lists, p).len() == at.len(),
        forall|k: int|
            0 <= k < at.len() ==> listed_at(lists, rows.len() as int, p, (#[trigger] at[k]).0, at[k].1) && spread_to(
                rows,
                lists,
                p,
            )[k] == (Row { replica: at[k].1 > 0, ..rows[at[k].0] }) && replicas_to(rows, lists, p)[k] == (Row {
                replica: true,
                ..rows[at[k].0]
            }),
        forall|i: int, d: int|
            listed_at(lists, rows.len() as int, p, i, d) ==> #[trigger] at.contains((i, d)),
    decreases rows.len(),
{
    if rows.len() == 0 {
        Seq::empty()
    } else {
        let init = rows.drop_last();
        let n = rows.len() - 1;
        let list = lists[n]@;
        let a = lemma_spread(init, lists, p);
        let c = lemma_copies(rows[n], list, p, list.len() as int);
        let more = Seq::new(c.len(), |k: int| (n, c[k]));
        let at = a + more;
        assert forall|k: int| 0 <= k < at.len() implies listed_at(
            lists,
            rows.len() as int,
            p,
            (#[trigger] at[k]).0,
            at[k].1,
        ) && spread_to(rows, lists, p)[k] == (Row { replica: at[k].1 > 0, ..rows[at[k].0] }) && replicas_to(
            rows,
            lists,
            p,
        )[k] == (Row { replica: true, ..rows[at[k].0] }) by {
            if k < a.len() {
                assert(at[k] == a[k]);
                assert(init[a[k].0] == rows[a[k].0]);
            } else {
                let j = k - a.len();
                assert(at[k] == (n, c[j]));
                assert(c.contains(c[j]));
            }
        }
        assert forall|i: int, d: int| listed_at(lists, rows.len() as int, p, i, d) implies #[trigger] at.contains(
            (i, d),
        ) by {
            if i < n {
                assert(a.contains((i, d)));
                let k = choose|k: int| 0 <= k < a.len() && a[k] == (i, d);
                assert(at[k] == (i, d));
            } else {
                assert(c.contains(d));
                let k = choose|k: int| 0 <= k < c.len() && c[k] == d;
                assert(at[a.len() + k] == (i, d));
            }
        }
        assert forall|i: int, k: int| 0 <= i < k < at.len() implies (#[trigger] at[i]).0 < (#[trigger] at[k]).0 || (
        at[i].0 == at[k].0 && at[i].1 < at[k].1) by {
            if k < a.len() {
                assert(at[i] == a[i] && at[k] == a[k]);
            } else if i < a.len() {
                assert(at[i] == a[i]);
                assert(listed_at(lists, init.len() as int, p, a[i].0, a[i].1));
            } else {
                assert(c[i - a.len()] < c[k - a.len()]);
            }
        }
        at
    }
}

/// A row goes to every place of its list, to the first as its primary and to
/// the others as replicas, and nowhere else.
pub proof fn law_rows_go_to_every_listed_place(
    b: &RowBatch,
    lists: &Vec<Vec<u32>>,
    n_places: usize,
    r: Vec<RowBatch>,
    p: int,
)
    requires
        RowBatch::distribute_copies.ensures((b, lists, n_places), r),
        lists@.len() >= b@.len(),
        0 <= p < n_places,
    ensures
        r@.len() == n_places,
        exists|at: Seq<(int, int)>|
            #![trigger row_by_row(at)]
            {
                &&& row_by_row(at)
                &&& at.len() == r@[p]@.len()
                &&& forall|k: int|
                    0 <= k < at.len() ==> r@[p]@[k] == (Row { replica: (#[trigger] at[k]).1 > 0, ..b@[at[k].0] })
                &&& forall|k: int|
                    0 <= k < at.len() ==> listed_at(lists@, b@.len() as int, p, (#[trigger] at[k]).0, at[k].1)
                &&& forall|i: int, d: int|
                    listed_at(lists@, b@.len() as int, p, i, d) ==> #[trigger] at.contains((i, d))
            },
{
    let at = lemma_spread(b@, lists@, p);
    assert(row_by_row(at));
    assert(r@[p]@ == spread_to(b@, lists@, p));
}

/// A replica of a row goes to every place of its list, and nowhere else.
pub proof fn law_replicas_go_to_every_listed_place(
    b: &RowBatch,
    lists: &Vec<Vec<u32>>,
    n_places: usize,
    r: Vec<RowBatch>,
    p: int,
)
    requires
        RowBatch::distribute_replicas.ensures((b, lists, n_places), r),
        lists@.len() >= b@.len(),
        0 <= p < n_places,
    ensures
        r@.len() == n_places,
        exists|at: Seq<(int, int)>|
            #![trigger row_by_row(at)]
            {
                &&& row_by_row(at)
                &&& at.len() == r@[p]@.len()
                &&& forall|k: int|
                    0 <= k < at.len() ==> r@[p]@[k] == (Row { replica: true, ..b@[(#[trigger] at[k]).0] })
                &&& forall|k: int|
                    0 <= k < at.len() ==> listed_at(lists@, b@.len() as int, p, (#[trigger] at[k]).0, at[k].1)
                &&& forall|i: int, d: int|
                    listed_at(lists@, b@.len() as int, p, i, d) ==> #[trigger] at.contains((i, d))
            },
{
    let at = lemma_spread(b@, lists@, p);
    assert(row_by_row(at));
    assert(r@[p]@ == replicas_to(b@, lists@, p));
}

/// Draining the memtable gives all its rows in order, as primaries, with their
/// ids, scales, codes and vectors.
pub proof fn law_drained_rows_are_those_added(x: &FreshIndex, b: RowBatch, i: int, j: int)
    requires
        x.wf(),
        FreshIndex::drain_memtable.ensures((x,), b),
        0 <= i < x.memtable.ids@.len(),
        0 <= j < x.memtable.width(),
    ensures
        b@.len() == x.memtable.ids@.len(),
        b@[i].id == x.memtable.ids@[i],
        b@[i].scale == x.memtable.scales@[i],
        !b@[i].replica,
        x.store_vectors ==> b@[i].vector == row_of(x.memtable.vectors@, i, x.memtable.width()),
        row_code(b@[i].codes, 0, j, x.bit_width as int, x.memtable.width()) == plane_code(
            x.memtable.codes@,
            i,
            j,
            x.bit_width as int,
            x.memtable.width(),
        ),
{
    let bits = x.bit_width as int;
    let d = x.memtable.width();
    let n = x.memtable.ids@.len() as int;
    let ng = groups(bits, d);
    let all = crate::pack::group_rows(x.memtable.codes@, n, bits, d);
    let m = crate::pack::codes_per_byte(bits);
    crate::pack::law_group_rows_keep_codes(x.memtable.codes@, n, i, j, bits, d);
    let g = j / m;
    assert(0 <= g < ng);
    crate::math::lemma_flat_bound(i, g, n, ng);
    assert(0 * ng == 0) by (nonlinear_arith);
    assert(row_of(all, i, ng)[g] == all[i * ng + g]);
}

/// The marks of a range are how many of its rows are marked: one more row adds
/// one exactly if it is marked.
pub proof fn law_marks_count_marked_rows(map: Seq<u8>, lo: int, hi: int)
    requires
        lo <= hi,
    ensures
        marks(map, lo, hi) == Seq::new((hi - lo) as nat, |k: int| lo + k).filter(|r: int| marked(map, r)).len(),
    decreases hi - lo,
{
    reveal(Seq::filter);
    let s = Seq::new((hi - lo) as nat, |k: int| lo + k);
    if lo < hi {
        law_marks_count_marked_rows(map, lo, hi - 1);
        let t = Seq::new((hi - 1 - lo) as nat, |k: int| lo + k);
        assert(s.drop_last() =~= t);
        assert(s.last() == hi - 1);
        let f = |r: int| marked(map, r);
        assert(s.filter(f).len() == t.filter(f).len() + if marked(map, hi - 1) {
            1nat
        } else {
            0nat
        });
    }
}

} // verus!
