//! The length of an index is the number of its ids.
use vstd::prelude::*;
use crate::batch::{primary_count, Row};
use crate::copies::{newest_first, tables};
use crate::flush_laws::all_ids;
use crate::fresh::{base_ids, primaries_before, FreshIndex};
use crate::indexed::{alive, batch_ids, ids_for, indexed, law_lookups_agree_with_rows, stored, stored_ids};
use crate::partition::{lemma_live_at, live_at, live_of, wanted, PartitionState, MAX_ROWS};

verus! {

/// Row `r` of partition `k` is alive and the first copy of its vector.
pub open spec fn primary_at(parts: Seq<PartitionState>, rows: Seq<Seq<Row>>, k: int, r: int) -> bool {
    0 <= k < parts.len() && alive(parts[k], r) && !rows[k][r].replica
}

/// Every live row has one live first copy.
pub open spec fn one_primary(parts: Seq<PartitionState>, rows: Seq<Seq<Row>>) -> bool {
    &&& forall|k: int, r: int, j: int, q: int|
        #[trigger] primary_at(parts, rows, k, r) && #[trigger] primary_at(parts, rows, j, q) && rows[k][r].id
            == rows[j][q].id ==> k == j && r == q
    &&& forall|k: int, r: int|
        0 <= k < parts.len() && #[trigger] alive(parts[k], r) ==> has_primary(parts, rows, rows[k][r].id)
}

/// Some live row is the first copy of this id.
pub open spec fn has_primary(parts: Seq<PartitionState>, rows: Seq<Seq<Row>>, id: u64) -> bool {
    exists|j: int, q: int| #[trigger] primary_at(parts, rows, j, q) && rows[j][q].id == id
}

/// The ids of the live first copies of the first `n` partitions.
pub open spec fn primary_ids(parts: Seq<PartitionState>, rows: Seq<Seq<Row>>, n: int) -> Seq<u64>
    decreases n,
{
    if n <= 0 {
        Seq::empty()
    } else {
        primary_ids(parts, rows, n - 1) + batch_ids(live_of(rows[n - 1], parts[n - 1].dead@, 0, true))
    }
}

/// Counting primaries among live rows, or reading them only.
proof fn lemma_primaries_len(rows: Seq<Row>, dead: Seq<u8>, base: int)
    ensures
        live_of(rows, dead, base, true).len() == primary_count(live_of(rows, dead, base, false)),
    decreases rows.len(),
{
    if rows.len() > 0 {
        let init = rows.drop_last();
        let a = live_of(init, dead, base, false);
        let b = live_of(rows, dead, base, false);
        lemma_primaries_len(init, dead, base);
        if wanted(rows.last(), base + rows.len() - 1, dead, false) {
            assert(b.drop_last() =~= a);
            assert(b.last() == rows.last());
        }
    }
}

/// What the list of primaries holds.
pub proof fn lemma_primary_ids(parts: Seq<PartitionState>, rows: Seq<Seq<Row>>, n: int)
    requires
        0 <= n <= parts.len(),
        rows.len() == parts.len(),
        forall|k: int| 0 <= k < parts.len() ==> (#[trigger] rows[k]).len() == parts[k].n_rows,
        forall|k: int|
            0 <= k < parts.len() ==> (#[trigger] parts[k]).live_primary == primary_count(
                live_of(rows[k], parts[k].dead@, 0, false),
            ),
        one_primary(parts, rows),
    ensures
        primary_ids(parts, rows, n).len() == primaries_before(parts, n),
        primary_ids(parts, rows, n).no_duplicates(),
        forall|i: int|
            0 <= i < primary_ids(parts, rows, n).len() ==> listed_before(
                parts,
                rows,
                n,
                #[trigger] primary_ids(parts, rows, n)[i],
            ),
        forall|k: int, r: int|
            #[trigger] primary_at(parts, rows, k, r) && k < n ==> primary_ids(parts, rows, n).contains(
                rows[k][r].id,
            ),
    decreases n,
{
    if n > 0 {
        let k = n - 1;
        let dead = parts[k].dead@;
        let mine = live_of(rows[k], dead, 0, true);
        let at = live_at(rows[k], dead, 0, true);
        let a = primary_ids(parts, rows, k);
        let b = primary_ids(parts, rows, n);
        lemma_primary_ids(parts, rows, k);
        lemma_primaries_len(rows[k], dead, 0);
        lemma_live_at(rows[k], dead, 0, true);
        assert(parts[k].live_primary == primary_count(live_of(rows[k], dead, 0, false)));
        assert(rows[k].len() == parts[k].n_rows);
        assert forall|j: int| 0 <= j < mine.len() implies primary_at(parts, rows, k, #[trigger] at[j]) && rows[k][at[j]]
            == mine[j] by {
            assert(wanted(rows[k][at[j] - 0], at[j], dead, true));
        }
        assert forall|i: int| 0 <= i < b.len() implies listed_before(parts, rows, n, #[trigger] b[i]) by {
            if i < a.len() {
                assert(b[i] == a[i]);
                let (j, q) = choose|j: int, q: int|
                    #[trigger] primary_at(parts, rows, j, q) && j < k && rows[j][q].id == a[i];
                assert(primary_at(parts, rows, j, q) && j < n && rows[j][q].id == b[i]);
            } else {
                let j = i - a.len();
                assert(b[i] == batch_ids(mine)[j]);
                assert(primary_at(parts, rows, k, at[j]) && rows[k][at[j]].id == b[i]);
            }
        }
        assert forall|i: int, j: int| 0 <= i < b.len() && 0 <= j < b.len() && i != j implies b[i] != b[j] by {
            let la = a.len() as int;
            if i < la && j < la {
                assert(b[i] == a[i] && b[j] == a[j]);
            } else if i < la {
                lemma_apart(parts, rows, k, a, at, mine, i, j - la);
                assert(b[i] == a[i] && b[j] == mine[j - la].id);
            } else if j < la {
                lemma_apart(parts, rows, k, a, at, mine, j, i - la);
                assert(b[j] == a[j] && b[i] == mine[i - la].id);
            } else {
                assert(primary_at(parts, rows, k, at[i - la]) && primary_at(parts, rows, k, at[j - la]));
                assert(b[i] == mine[i - la].id && b[j] == mine[j - la].id);
                if i < j {
                    assert(at[i - la] < at[j - la]);
                } else {
                    assert(at[j - la] < at[i - la]);
                }
            }
        }
        assert forall|j: int, r: int| #[trigger] primary_at(parts, rows, j, r) && j < n implies b.contains(
            rows[j][r].id,
        ) by {
            if j < k {
                assert(a.contains(rows[j][r].id));
                let i = choose|i: int| 0 <= i < a.len() && a[i] == rows[j][r].id;
                assert(b[i] == a[i]);
            } else {
                assert(wanted(rows[k][r], 0 + r, dead, true));
                assert(at.contains(r));
                let i = choose|i: int| 0 <= i < at.len() && at[i] == r;
                assert(b[a.len() + i] == mine[i].id);
            }
        }
    }
}

/// Some live first copy in front of partition `n` has this id.
pub open spec fn listed_before(parts: Seq<PartitionState>, rows: Seq<Seq<Row>>, n: int, id: u64) -> bool {
    exists|j: int, q: int| #[trigger] primary_at(parts, rows, j, q) && j < n && rows[j][q].id == id
}

/// First copies in different partitions have different ids.
proof fn lemma_apart(
    parts: Seq<PartitionState>,
    rows: Seq<Seq<Row>>,
    k: int,
    a: Seq<u64>,
    at: Seq<int>,
    mine: Seq<Row>,
    i: int,
    j: int,
)
    requires
        one_primary(parts, rows),
        0 <= i < a.len(),
        0 <= j < mine.len(),
        listed_before(parts, rows, k, a[i]),
        primary_at(parts, rows, k, at[j]),
        rows[k][at[j]] == mine[j],
    ensures
        a[i] != mine[j].id,
{
    let (p, q) = choose|p: int, q: int| #[trigger] primary_at(parts, rows, p, q) && p < k && rows[p][q].id == a[i];
    assert(primary_at(parts, rows, p, q));
}

/// Where every live row has one live first copy, and the partitions count
/// theirs, the counts add up to the number of stored ids.
pub proof fn law_primaries_count_ids(parts: Seq<PartitionState>, rows: Seq<Seq<Row>>)
    requires
        ids_for(parts, all_ids(rows)),
        forall|k: int|
            0 <= k < parts.len() ==> (#[trigger] parts[k]).live_primary == primary_count(
                live_of(rows[k], parts[k].dead@, 0, false),
            ),
        one_primary(parts, rows),
    ensures
        stored_ids(parts, all_ids(rows)).finite(),
        stored_ids(parts, all_ids(rows)).len() == primaries_before(parts, parts.len() as int),
{
    let n = parts.len() as int;
    let list = primary_ids(parts, rows, n);
    let ids = all_ids(rows);
    assert forall|k: int| 0 <= k < parts.len() implies (#[trigger] rows[k]).len() == parts[k].n_rows by {
        assert(ids[k].len() == parts[k].n_rows);
    }
    lemma_primary_ids(parts, rows, n);
    assert forall|id: u64| list.to_set().contains(id) <==> stored_ids(parts, ids).contains(id) by {
        if list.contains(id) {
            let i = choose|i: int| 0 <= i < list.len() && list[i] == id;
            assert(listed_before(parts, rows, n, list[i]));
            let (j, q) = choose|j: int, q: int| #[trigger] primary_at(parts, rows, j, q) && j < n && rows[j][q].id == id;
            assert(alive(parts[j], q) && ids[j][q] == id);
            assert(stored(parts, ids, id));
        }
        if stored(parts, ids, id) {
            let (k, r) = choose|k: int, r: int|
                0 <= k < parts.len() && #[trigger] alive(parts[k], r) && ids[k][r] == id;
            assert(has_primary(parts, rows, rows[k][r].id));
            let (j, q) = choose|j: int, q: int| #[trigger] primary_at(parts, rows, j, q) && rows[j][q].id == id;
            assert(list.contains(rows[j][q].id));
        }
    }
    assert(list.to_set() =~= stored_ids(parts, ids));
    list.unique_seq_to_set();
}

/// The length of an index is the number of its live ids.
pub proof fn law_length_counts_ids(x: FreshIndex, rows: Seq<Seq<Row>>)
    requires
        x.wf(),
        indexed(x.partitions@, x.next_partition_id, all_ids(rows), newest_first(tables(x.runs@))),
        forall|k: int|
            0 <= k < x.partitions@.len() ==> (#[trigger] x.partitions@[k]).live_primary == primary_count(
                live_of(rows[k], x.partitions@[k].dead@, 0, false),
            ),
        one_primary(x.partitions@, rows),
        x.memtable.ids@.to_set().disjoint(base_ids(x.partitions@, x.runs@)),
    ensures
        x.live().finite(),
        x.live().len() == primaries_before(x.partitions@, x.partitions@.len() as int) + x.memtable.ids@.len(),
{
    let parts = x.partitions@;
    assert forall|k: int| 0 <= k < parts.len() implies (#[trigger] parts[k]).n_rows <= MAX_ROWS by {
        assert(parts[k].wf());
    }
    law_lookups_agree_with_rows(parts, x.next_partition_id, all_ids(rows), x.runs@);
    law_primaries_count_ids(parts, rows);
    assert(x.memtable.ids@.no_duplicates());
    x.memtable.ids@.unique_seq_to_set();
    vstd::set_lib::lemma_set_disjoint_lens(x.memtable.ids@.to_set(), base_ids(parts, x.runs@));
}

} // verus!
