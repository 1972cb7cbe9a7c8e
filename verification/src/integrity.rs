//! What every operation keeps: lookups find the live rows and no others, each
//! stored id has one first copy, and the counts are right.
use vstd::prelude::*;
use crate::batch::{lemma_primary_count_add, primary_count, sent_to, spread_to, Row, RowBatch};
use crate::bits::marked;
use crate::contents::{ids_in, replicas_in};
use crate::copies::{
    copies_of, current, lemma_place, lemma_place_is, newest_first, place, surviving, tables, tidied,
    CopyLocation, MAX_RUNS,
};
use crate::copies_laws::{
    has_copy, law_lookup_finds_all_copies, lemma_of_id, lemma_surviving, lemma_tier_merged_copies, total,
};
use crate::counting::{
    has_primary, law_length_counts_ids, lemma_primary_ids, listed_before, one_primary, primary_at, primary_ids,
};
use crate::flush::{appended, memtable_rows, new_entries};
use crate::flush_laws::{
    all_ids, grown_rows, law_lists_deliver, law_places_deliver, lemma_pushed_run, lemma_total_push,
};
use crate::fresh::{base_ids, ids_ok, FreshIndex};
use crate::fresh_write::{
    all_counted, copy_at, counts_rows, marked_from, memtable_grown, removal, removals, removed_ids, told,
    told_one, Removed,
};
use crate::indexed::{
    alive, batch_ids, covered, delivered, grown_ids, indexed, law_append_keeps_index, law_compaction_keeps_ids,
    law_dead_rows_keep_index, law_dropped_partition_keeps_index, law_indexed_entries_agree,
    law_lookups_agree_with_rows, law_new_partition_keeps_index, law_tidying_keeps_index,
    law_tier_merge_keeps_index, lemma_collected, lemma_tidied_subset, names, settled, stored, stored_ids,
    truthful,
};
use crate::ingest::{all_appended, entries_upto, runs_after};
use crate::partition::{
    lemma_live_all, lemma_live_at, lemma_live_same, lemma_live_split, live_at, live_of, wanted, PartitionState,
    MAX_ROWS,
};
use crate::partition_ops::folded;
use crate::primaries::{
    law_dissolving_keeps_primaries, law_ingest_keeps_primaries, law_placing_keeps_primaries,
    law_reassigning_keeps_primaries, law_replicas_keep_primaries, law_splitting_keeps_primaries,
};
use crate::reassign::{all_primary, lemma_movers, movers, one_marked};
use crate::restructure::{holds_only, just_made};
use crate::restructure_laws::{
    law_dissolving_keeps_ids, law_reassigning_keeps_ids, law_splitting_keeps_ids, live_primary_rows,
};
use crate::runs::{by_id, entries_in, of_id, RunEntry, ENTRY_FLAG_REPLICA};
use crate::segment::{lemma_rows_before_monotone, lemma_slot_headroom, rows_before, Segment};
use crate::segment_laws::{lemma_bitmap_bit, lemma_file_values, lemma_id_tables, lemma_sorted_ids};
use crate::transfer::{importable, imported, imported_entries, rows_of_partition};
use crate::vectors::stores;
use crate::write::{consistent, is_primary};

verus! {

/// An entry that names a live row says rightly whether it is a replica.
pub open spec fn flagged(parts: Seq<PartitionState>, rows: Seq<Seq<Row>>, s: Seq<RunEntry>) -> bool {
    forall|i: int, k: int|
        0 <= i < s.len() && 0 <= k < parts.len() && names(
            #[trigger] s[i],
            #[trigger] parts[k],
            s[i].row as int,
        ) && alive(parts[k], s[i].row as int) ==> rows[k][s[i].row as int].replica == (s[i].flags % 2
            == ENTRY_FLAG_REPLICA)
}

/// The entries `s` index the rows of the partitions, the counts are those of
/// the rows, and every live row's id has one live first copy.
pub open spec fn intact(parts: Seq<PartitionState>, next: u32, rows: Seq<Seq<Row>>, s: Seq<RunEntry>) -> bool {
    &&& indexed(parts, next, all_ids(rows), s)
    &&& flagged(parts, rows, s)
    &&& all_counted(parts, rows)
    &&& one_primary(parts, rows)
}

impl FreshIndex {
    /// The partitions hold `rows`, the runs index them, and no id of the
    /// memtable is in a partition.
    pub open spec fn intact(self, rows: Seq<Seq<Row>>) -> bool {
        &&& intact(self.partitions@, self.next_partition_id, rows, newest_first(tables(self.runs@)))
        &&& self.memtable.ids@.to_set().disjoint(base_ids(self.partitions@, self.runs@))
    }
}

/// A new index is intact.
pub proof fn law_new_index_is_intact(x: FreshIndex)
    requires
        x.partitions@.len() == 0,
        x.runs@.len() == 0,
        x.memtable.ids@.len() == 0,
    ensures
        x.intact(Seq::empty()),
{
    assert(tables(x.runs@) =~= Seq::<Seq<RunEntry>>::empty());
    assert(newest_first(tables(x.runs@)) =~= Seq::<RunEntry>::empty());
    assert(x.memtable.ids@.to_set() =~= Set::<u64>::empty());
}

/// The length of an intact index is the number of its live ids.
pub proof fn law_length(x: FreshIndex, rows: Seq<Seq<Row>>)
    requires
        x.wf(),
        x.intact(rows),
    ensures
        x.live().finite(),
        x.live().len() == x.length(),
{
    assert forall|k: int| 0 <= k < x.partitions@.len() implies (#[trigger] x.partitions@[k]).live_primary
        == primary_count(live_of(rows[k], x.partitions@[k].dead@, 0, false)) by {
        assert(counts_rows(x.partitions@[k], rows[k]));
    }
    law_length_counts_ids(x, rows);
}

/// Adding ids that are not live keeps an index intact.
pub proof fn law_add_keeps_intact(x: FreshIndex, y: FreshIndex, rows: Seq<Seq<Row>>, ids: Seq<u64>)
    requires
        x.intact(rows),
        memtable_grown(x, y),
        y.memtable.ids@ == x.memtable.ids@ + ids,
        forall|i: int| 0 <= i < ids.len() ==> !x.live().contains(#[trigger] ids[i]),
    ensures
        y.intact(rows),
{
    let base = base_ids(x.partitions@, x.runs@);
    assert forall|id: u64| y.memtable.ids@.to_set().contains(id) && base.contains(id) implies false by {
        let i = choose|i: int| 0 <= i < y.memtable.ids@.len() && y.memtable.ids@[i] == id;
        if i < x.memtable.ids@.len() {
            assert(x.memtable.ids@[i] == id);
            assert(x.memtable.ids@.to_set().contains(id));
        } else {
            assert(!x.live().contains(ids[i - x.memtable.ids@.len()]));
        }
    }
}

/// A live copy names a live row with that id, and says rightly whether it is a
/// replica; every live row with the id has a copy.
pub proof fn lemma_copies(x: FreshIndex, rows: Seq<Seq<Row>>, id: u64)
    requires
        x.wf(),
        x.intact(rows),
    ensures
        ({
            let parts = x.partitions@;
            let copies = copies_of(parts, x.runs@, id);
            &&& told(parts, rows, copies)
            &&& forall|k: int, r: int|
                0 <= k < parts.len() && #[trigger] alive(parts[k], r) ==> (rows[k][r].id == id <==> copy_at(
                    parts,
                    copies,
                    copies.len() as int,
                    k,
                    r,
                ))
        }),
{
    let parts = x.partitions@;
    let next = x.next_partition_id;
    let s = newest_first(tables(x.runs@));
    let copies = copies_of(parts, x.runs@, id);
    let mine = of_id(s, id);
    let kept = surviving(parts, mine);
    lemma_surviving(parts, mine);
    law_lookup_finds_all_copies(parts, x.runs@, id);
    assert forall|c: int| 0 <= c < copies.len() implies names_live(parts, rows, id, #[trigger] copies[c]) by {
        let e = kept[c];
        assert(mine.contains(e) && current(parts, e));
        lemma_of_id(s, id, e);
        let i = choose|i: int| 0 <= i < s.len() && s[i] == e;
        lemma_place(parts, e.partition_id, 0);
        let k = place(parts, e.partition_id);
        assert(names(s[i], parts[k], s[i].row as int));
        assert(alive(parts[k], s[i].row as int));
        assert(all_ids(rows)[k].len() == parts[k].n_rows);
        assert(all_ids(rows)[k][s[i].row as int] == s[i].id);
    }
    assert(told(parts, rows, copies)) by {
        assert forall|c: int| 0 <= c < copies.len() implies told_one(parts, rows, #[trigger] copies[c]) by {
            assert(names_live(parts, rows, id, copies[c]));
        }
    }
    assert forall|k: int, r: int| 0 <= k < parts.len() && #[trigger] alive(parts[k], r) implies (rows[k][r].id == id
        <==> copy_at(parts, copies, copies.len() as int, k, r)) by {
        assert(all_ids(rows)[k].len() == parts[k].n_rows);
        if rows[k][r].id == id {
            assert(covered(s, parts[k], r));
            let i = choose|i: int| 0 <= i < s.len() && names(#[trigger] s[i], parts[k], r);
            assert(all_ids(rows)[k][s[i].row as int] == s[i].id);
            assert forall|j: int| 0 <= j < k implies (#[trigger] parts[j]).partition_id != parts[k].partition_id by {}
            lemma_place_is(parts, parts[k].partition_id, k);
            assert(current(parts, s[i]));
            assert(has_copy(parts, s, id, s[i].partition_id, s[i].row));
            let c = choose|c: int|
                0 <= c < copies.len() && (#[trigger] copies[c]).partition_id == s[i].partition_id && copies[c].row
                    == s[i].row;
            assert(place(parts, copies[c].partition_id) == k && copies[c].row == r);
        }
        if copy_at(parts, copies, copies.len() as int, k, r) {
            let c = choose|c: int|
                0 <= c < copies.len() && place(parts, (#[trigger] copies[c]).partition_id) == k && copies[c].row == r;
            assert(names_live(parts, rows, id, copies[c]));
        }
    }
}

/// An id of a live row is in the partitions.
pub proof fn lemma_stored_is_found(x: FreshIndex, rows: Seq<Seq<Row>>, id: u64, v: Seq<u32>)
    requires
        x.wf(),
        x.intact(rows),
        stores(x.partitions@, rows, id, v),
    ensures
        base_ids(x.partitions@, x.runs@).contains(id),
{
    let parts = x.partitions@;
    let (k, r) = choose|k: int, r: int|
        0 <= k < parts.len() && #[trigger] alive(parts[k], r) && rows[k][r].id == id && rows[k][r].vector == v;
    lemma_copies(x, rows, id);
    let copies = copies_of(parts, x.runs@, id);
    assert(copy_at(parts, copies, copies.len() as int, k, r));
    assert(copies.len() > 0);
}

/// A live copy names a live row with that id.
pub proof fn lemma_copy_is_live(x: FreshIndex, rows: Seq<Seq<Row>>, id: u64, c: int)
    requires
        x.wf(),
        x.intact(rows),
        0 <= c < copies_of(x.partitions@, x.runs@, id).len(),
    ensures
        ({
            let copy = copies_of(x.partitions@, x.runs@, id)[c];
            let k = place(x.partitions@, copy.partition_id);
            &&& 0 <= k < x.partitions@.len()
            &&& alive(x.partitions@[k], copy.row as int)
            &&& rows[k][copy.row as int].id == id
        }),
{
    let parts = x.partitions@;
    let s = newest_first(tables(x.runs@));
    let mine = of_id(s, id);
    let e = surviving(parts, mine)[c];
    lemma_surviving(parts, mine);
    assert(mine.contains(e) && current(parts, e));
    lemma_of_id(s, id, e);
    let i = choose|i: int| 0 <= i < s.len() && s[i] == e;
    lemma_place(parts, e.partition_id, 0);
    let k = place(parts, e.partition_id);
    assert(names(s[i], parts[k], s[i].row as int));
    assert(alive(parts[k], s[i].row as int));
    assert(all_ids(rows)[k].len() == parts[k].n_rows);
    assert(all_ids(rows)[k][s[i].row as int] == s[i].id);
}

/// A copy names a live row with this id, and says rightly whether it is a
/// replica.
spec fn names_live(parts: Seq<PartitionState>, rows: Seq<Seq<Row>>, id: u64, copy: CopyLocation) -> bool {
    let k = place(parts, copy.partition_id);
    &&& 0 <= k < parts.len()
    &&& alive(parts[k], copy.row as int)
    &&& rows[k][copy.row as int].id == id
    &&& rows[k][copy.row as int].replica == copy.is_replica
}

/// Fewer live rows, all of the ids that are left, keep what holds of entries
/// and first copies.
proof fn lemma_fewer(
    a: Seq<PartitionState>,
    b: Seq<PartitionState>,
    next: u32,
    rows: Seq<Seq<Row>>,
    s: Seq<RunEntry>,
    id: u64,
)
    requires
        intact(a, next, rows, s),
        b.len() == a.len(),
        forall|k: int| 0 <= k < a.len() ==> marked_from(a[k], #[trigger] b[k]),
        forall|k: int, r: int|
            0 <= k < a.len() ==> (#[trigger] alive(b[k], r) <==> alive(a[k], r) && rows[k][r].id != id),
        forall|k: int, r: int|
            0 <= k < a.len() && 0 <= r && marked(a[k].dead@, r) ==> #[trigger] marked(b[k].dead@, r),
        all_counted(b, rows),
    ensures
        intact(b, next, rows, s),
        stored_ids(b, all_ids(rows)) == stored_ids(a, all_ids(rows)).remove(id),
{
    let ids = all_ids(rows);
    assert forall|k: int| 0 <= k < a.len() implies (#[trigger] b[k]).partition_id == a[k].partition_id
        && b[k].generation == a[k].generation && b[k].n_rows == a[k].n_rows by {
        assert(marked_from(a[k], b[k]));
    }
    law_dead_rows_keep_index(a, b, next, ids, s);
    assert(flagged(b, rows, s)) by {
        assert forall|i: int, k: int|
            0 <= i < s.len() && 0 <= k < b.len() && names(
                #[trigger] s[i],
                #[trigger] b[k],
                s[i].row as int,
            ) && alive(b[k], s[i].row as int) implies rows[k][s[i].row as int].replica == (s[i].flags % 2
            == ENTRY_FLAG_REPLICA) by {
            assert(names(s[i], a[k], s[i].row as int) && alive(a[k], s[i].row as int));
        }
    }
    assert(one_primary(b, rows)) by {
        assert forall|k: int, r: int, j: int, q: int|
            #[trigger] primary_at(b, rows, k, r) && #[trigger] primary_at(b, rows, j, q) && rows[k][r].id
                == rows[j][q].id implies k == j && r == q by {
            assert(alive(b[k], r) && alive(b[j], q));
            assert(primary_at(a, rows, k, r) && primary_at(a, rows, j, q));
        }
        assert forall|k: int, r: int| 0 <= k < b.len() && #[trigger] alive(b[k], r) implies has_primary(
            b,
            rows,
            rows[k][r].id,
        ) by {
            assert(alive(a[k], r));
            assert(has_primary(a, rows, rows[k][r].id));
            let (j, q) = choose|j: int, q: int|
                #[trigger] primary_at(a, rows, j, q) && rows[j][q].id == rows[k][r].id;
            assert(alive(b[j], q));
            assert(primary_at(b, rows, j, q));
        }
    }
    assert forall|x: u64| stored(b, ids, x) <==> stored(a, ids, x) && x != id by {
        if stored(b, ids, x) {
            let (k, r) = choose|k: int, r: int| 0 <= k < b.len() && #[trigger] alive(b[k], r) && ids[k][r] == x;
            assert(ids[k].len() == a[k].n_rows);
            assert(alive(a[k], r) && ids[k][r] == x);
        }
        if stored(a, ids, x) && x != id {
            let (k, r) = choose|k: int, r: int| 0 <= k < a.len() && #[trigger] alive(a[k], r) && ids[k][r] == x;
            assert(ids[k].len() == a[k].n_rows);
            assert(alive(b[k], r) && ids[k][r] == x);
        }
    }
    assert(stored_ids(b, ids) =~= stored_ids(a, ids).remove(id));
}

/// Removing an id keeps an index intact, and makes that id not live and no
/// other.
pub proof fn law_removal_keeps_intact(x: FreshIndex, y: FreshIndex, rows: Seq<Seq<Row>>, id: u64, r: Removed)
    requires
        x.wf(),
        y.wf(),
        x.intact(rows),
        removal(x, y, id, r),
    ensures
        y.intact(rows),
        y.live() == x.live().remove(id),
        (r != Removed::No) == x.live().contains(id),
{
    let a = x.partitions@;
    let b = y.partitions@;
    let next = x.next_partition_id;
    let s = newest_first(tables(x.runs@));
    let copies = copies_of(a, x.runs@, id);
    assert(x.memtable.ids@.contains(id) <==> x.memtable.ids@.to_set().contains(id));
    assert(base_ids(a, x.runs@).contains(id) <==> copies.len() > 0);
    if r == Removed::Partitions {
        lemma_copies(x, rows, id);
        assert(all_counted(b, rows));
        assert forall|k: int, q: int| 0 <= k < a.len() implies (#[trigger] alive(b[k], q) <==> alive(a[k], q)
            && rows[k][q].id != id) by {
            assert(marked_from(a[k], b[k]));
            if 0 <= q {
                assert(marked(b[k].dead@, q) == (marked(a[k].dead@, q) || copy_at(
                    a,
                    copies,
                    copies.len() as int,
                    k,
                    q,
                )));
            }
            if alive(a[k], q) {
                assert(rows[k][q].id == id <==> copy_at(a, copies, copies.len() as int, k, q));
            }
        }
        lemma_fewer(a, b, next, rows, s, id);
        lemma_row_limits(x);
        lemma_row_limits(y);
        law_lookups_agree_with_rows(a, next, all_ids(rows), x.runs@);
        law_lookups_agree_with_rows(b, next, all_ids(rows), y.runs@);
        assert(y.live() =~= x.live().remove(id));
    } else if r == Removed::Memtable {
        assert(y.live() =~= x.live().remove(id));
    } else {
        assert(y.live() =~= x.live().remove(id));
    }
}

/// Row numbers are bounded.
pub proof fn lemma_row_limits(x: FreshIndex)
    requires
        x.wf(),
    ensures
        forall|k: int| 0 <= k < x.partitions@.len() ==> (#[trigger] x.partitions@[k]).n_rows <= MAX_ROWS,
{
    assert forall|k: int| 0 <= k < x.partitions@.len() implies (#[trigger] x.partitions@[k]).n_rows <= MAX_ROWS by {
        assert(x.partitions@[k].wf());
    }
}

/// Removing ids keeps an index intact. The ids that were live are given back
/// once each, they are not live any more, every other id is live as before,
/// and the length drops by their number.
pub proof fn law_removing_many(
    states: Seq<FreshIndex>,
    ids: Seq<u64>,
    outcomes: Seq<Removed>,
    rows: Seq<Seq<Row>>,
)
    requires
        removals(states, ids, outcomes),
        states[0].intact(rows),
    ensures
        states.last().intact(rows),
        states.last().live() == states[0].live().difference(ids.to_set()),
        removed_ids(ids, outcomes).to_set() == states[0].live().intersect(ids.to_set()),
        removed_ids(ids, outcomes).no_duplicates(),
        states.last().length() == states[0].length() - removed_ids(ids, outcomes).len(),
    decreases ids.len(),
{
    let n = ids.len() as int;
    let x = states[0];
    let gone = removed_ids(ids, outcomes);
    if n == 0 {
        assert(ids.to_set() =~= Set::<u64>::empty());
        assert(gone.to_set() =~= Set::<u64>::empty());
        assert(x.live().difference(ids.to_set()) =~= x.live());
        assert(x.live().intersect(ids.to_set()) =~= gone.to_set());
    } else {
        let before = states.drop_last();
        let some = ids.drop_last();
        let first = outcomes.drop_last();
        assert forall|k: int| 0 <= k < some.len() implies removal(
            #[trigger] before[k],
            before[k + 1],
            some[k],
            first[k],
        ) by {
            assert(removal(states[k], states[k + 1], ids[k], outcomes[k]));
        }
        assert forall|k: int| 0 <= k < before.len() implies (#[trigger] before[k]).wf() by {
            assert(states[k].wf());
        }
        law_removing_many(before, some, first, rows);
        crate::fresh_write::lemma_removed_ids(some, first, outcomes);
        let y = states[n - 1];
        let z = states[n];
        assert(before.last() == y);
        assert(states[n - 1].wf() && states[n].wf());
        assert(removal(states[n - 1], states[n], ids[n - 1], outcomes[n - 1]));
        law_removal_keeps_intact(y, z, rows, ids[n - 1], outcomes[n - 1]);
        let was = removed_ids(some, outcomes);
        crate::delta::lemma_push_set(some, ids[n - 1]);
        assert(some.push(ids[n - 1]) =~= ids);
        crate::delta::lemma_push_set(was, ids[n - 1]);
        assert(z.live() =~= x.live().difference(ids.to_set()));
        assert(gone.to_set() =~= x.live().intersect(ids.to_set()));
        if outcomes[n - 1] != Removed::No {
            assert(!was.to_set().contains(ids[n - 1]));
            assert(!was.contains(ids[n - 1]));
        }
        law_length(y, rows);
        law_length(z, rows);
        if y.live().contains(ids[n - 1]) {
            assert(y.live().remove(ids[n - 1]).len() == y.live().len() - 1);
        } else {
            assert(y.live().remove(ids[n - 1]) =~= y.live());
        }
    }
}

/// Removing one id among many is removing it.
pub proof fn law_removing_one(states: Seq<FreshIndex>, id: u64, outcomes: Seq<Removed>)
    requires
        removals(states, seq![id], outcomes),
    ensures
        removed_ids(seq![id], outcomes).len() == (if states[0].live().contains(id) {
            1int
        } else {
            0
        }),
{
    let x = states[0];
    let one = seq![id];
    assert(removal(states[0], states[1], one[0], outcomes[0]));
    assert(x.memtable.ids@.contains(id) <==> x.memtable.ids@.to_set().contains(id));
    assert(base_ids(x.partitions@, x.runs@).contains(id) <==> copies_of(x.partitions@, x.runs@, id).len() > 0);
    assert(one.drop_last() =~= Seq::<u64>::empty());
    assert(removed_ids(one.drop_last(), outcomes) =~= Seq::<u64>::empty());
}

/// Appended rows are counted, and their entries say rightly which are
/// replicas.
proof fn lemma_appended(
    a: Seq<PartitionState>,
    b: Seq<PartitionState>,
    next: u32,
    rows: Seq<Seq<Row>>,
    batches: Seq<RowBatch>,
    ng: int,
    width: int,
    s: Seq<RunEntry>,
    t: Seq<RunEntry>,
)
    requires
        ids_ok(a, next),
        settled(a, next, s),
        flagged(a, rows, s),
        all_counted(a, rows),
        forall|k: int| 0 <= k < a.len() ==> (#[trigger] a[k]).wf(),
        forall|k: int| 0 <= k < b.len() ==> (#[trigger] b[k]).wf(),
        batches.len() == a.len(),
        all_appended(a, b, batches, ng, width),
        forall|e: RunEntry| #[trigger]
            t.contains(e) <==> s.contains(e) || entries_upto(a, batches, a.len() as int).contains(e),
    ensures
        flagged(b, grown_rows(rows, batches), t),
        all_counted(b, grown_rows(rows, batches)),
{
    let now = grown_rows(rows, batches);
    assert forall|k: int| 0 <= k < b.len() implies counts_rows(#[trigger] b[k], now[k]) by {
        assert(counts_rows(a[k], rows[k]));
        assert(appended(a[k], b[k], batches[k]@, ng, width));
        assert(a[k].wf() && b[k].wf());
        lemma_appended_counts(a[k], b[k], rows[k], batches[k]@, ng, width);
    }
    assert forall|i: int, k: int|
        0 <= i < t.len() && 0 <= k < b.len() && names(
            #[trigger] t[i],
            #[trigger] b[k],
            t[i].row as int,
        ) && alive(b[k], t[i].row as int) implies now[k][t[i].row as int].replica == (t[i].flags % 2
        == ENTRY_FLAG_REPLICA) by {
        assert(t.contains(t[i]));
        assert(appended(a[k], b[k], batches[k]@, ng, width));
        assert(counts_rows(a[k], rows[k]));
        assert(b[k].wf());
        let e = t[i];
        let r = e.row as int;
        if s.contains(e) {
            let j = choose|j: int| 0 <= j < s.len() && s[j] == e;
            assert(s[j].partition_id == a[k].partition_id);
            assert(r < a[k].n_rows);
            assert(marked(b[k].dead@, r) == marked(a[k].dead@, r));
            assert(names(s[j], a[k], s[j].row as int) && alive(a[k], r));
            assert(now[k][r] == rows[k][r]);
        } else {
            let (j, q) = lemma_collected(a, batches, a.len() as int, e);
            if j < k {
                assert(a[j].partition_id != a[k].partition_id);
            } else if k < j {
                assert(a[k].partition_id != a[j].partition_id);
            }
            assert(r == a[k].n_rows + q);
            assert(now[k][r] == batches[k]@[q]);
        }
    }
}

proof fn lemma_appended_counts(a: PartitionState, b: PartitionState, rows: Seq<Row>, more: Seq<Row>, ng: int, width: int)
    requires
        a.wf(),
        b.wf(),
        counts_rows(a, rows),
        appended(a, b, more, ng, width),
    ensures
        counts_rows(b, rows + more),
{
    let n = rows.len() as int;
    if more.len() == 0 {
        assert(rows + more =~= rows);
    } else {
        assert forall|r: int| n <= r < n + more.len() implies !#[trigger] marked(b.dead@, r) by {
            assert(!marked(a.dead@, r));
        }
        lemma_live_split(rows, more, b.dead@, 0, false);
        lemma_live_all(more, b.dead@, n);
        lemma_live_same(rows, a.dead@, b.dead@, 0, false);
        lemma_primary_count_add(live_of(rows, b.dead@, 0, false), more);
    }
}

/// Dropping a partition keeps what holds of the others.
proof fn lemma_dropped(
    a: Seq<PartitionState>,
    next: u32,
    rows: Seq<Seq<Row>>,
    s: Seq<RunEntry>,
    at: int,
)
    requires
        flagged(a, rows, s),
        all_counted(a, rows),
        0 <= at < a.len(),
    ensures
        flagged(a.remove(at), rows.remove(at), s),
        all_counted(a.remove(at), rows.remove(at)),
{
    let b = a.remove(at);
    let rest = rows.remove(at);
    assert forall|k: int| 0 <= k < b.len() implies counts_rows(#[trigger] b[k], rest[k]) by {
        let j = if k < at {
            k
        } else {
            k + 1
        };
        assert(b[k] == a[j] && rest[k] == rows[j]);
        assert(counts_rows(a[j], rows[j]));
    }
    assert forall|i: int, k: int|
        0 <= i < s.len() && 0 <= k < b.len() && names(
            #[trigger] s[i],
            #[trigger] b[k],
            s[i].row as int,
        ) && alive(b[k], s[i].row as int) implies rest[k][s[i].row as int].replica == (s[i].flags % 2
        == ENTRY_FLAG_REPLICA) by {
        let j = if k < at {
            k
        } else {
            k + 1
        };
        assert(b[k] == a[j] && rest[k] == rows[j]);
        assert(names(s[i], a[j], s[i].row as int));
    }
}

/// Dissolving a partition keeps an index intact, and every stored id.
pub proof fn law_dissolving_keeps_intact(
    a: Seq<PartitionState>,
    b: Seq<PartitionState>,
    next: u32,
    rows: Seq<Seq<Row>>,
    at: int,
    places: Seq<u32>,
    batches: Seq<RowBatch>,
    ng: int,
    width: int,
    s: Seq<RunEntry>,
    t: Seq<RunEntry>,
)
    requires
        intact(a, next, rows, s),
        0 <= at < a.len(),
        forall|k: int| 0 <= k < a.len() ==> (#[trigger] a[k]).wf(),
        forall|k: int| 0 <= k < b.len() ==> (#[trigger] b[k]).wf(),
        batches.len() == a.len() - 1,
        places.len() >= live_primary_rows(a[at], rows[at]).len(),
        forall|i: int| 0 <= i < live_primary_rows(a[at], rows[at]).len() ==> #[trigger] places[i] < batches.len(),
        forall|k: int|
            0 <= k < batches.len() ==> (#[trigger] batches[k])@ == sent_to(
                live_primary_rows(a[at], rows[at]),
                places,
                k,
            ),
        all_appended(a.remove(at), b, batches, ng, width),
        forall|e: RunEntry| #[trigger]
            t.contains(e) <==> s.contains(e) || entries_upto(a.remove(at), batches, a.len() - 1).contains(e),
    ensures
        intact(b, next, grown_rows(rows.remove(at), batches), t),
        stored_ids(b, all_ids(grown_rows(rows.remove(at), batches))) == stored_ids(a, all_ids(rows)),
{
    let rest = a.remove(at);
    let kept = rows.remove(at);
    law_dissolving_keeps_ids(a, b, next, rows, at, places, batches, ng, width, s, t);
    law_dissolving_keeps_primaries(a, b, rows, at, places, batches, ng, width);
    lemma_dropped(a, next, rows, s, at);
    law_dropped_partition_keeps_index(a, next, all_ids(rows), s, at);
    assert forall|k: int| 0 <= k < rest.len() implies (#[trigger] rest[k]).wf() by {
        assert(rest[k] == a[if k < at {
            k
        } else {
            k + 1
        }]);
    }
    lemma_appended(rest, b, next, kept, batches, ng, width, s, t);
}

/// Moving live first copies to other partitions keeps an index intact, and
/// every stored id.
pub proof fn law_reassigning_keeps_intact(
    a: Seq<PartitionState>,
    mid: Seq<PartitionState>,
    b: Seq<PartitionState>,
    next: u32,
    rows: Seq<Seq<Row>>,
    at: int,
    gone: Seq<u64>,
    moved: Seq<Row>,
    places: Seq<u32>,
    batches: Seq<RowBatch>,
    ng: int,
    width: int,
    s: Seq<RunEntry>,
    t: Seq<RunEntry>,
)
    requires
        intact(a, next, rows, s),
        0 <= at < a.len(),
        forall|k: int| 0 <= k < mid.len() ==> (#[trigger] mid[k]).wf(),
        forall|k: int| 0 <= k < b.len() ==> (#[trigger] b[k]).wf(),
        one_marked(a, mid, at, gone),
        gone.no_duplicates(),
        moved.len() == gone.len(),
        forall|i: int|
            0 <= i < gone.len() ==> primary_at(a, rows, at, (#[trigger] gone[i]) as int) && rows[at][gone[i] as int].id
                == moved[i].id,
        places.len() >= moved.len(),
        forall|i: int| 0 <= i < moved.len() ==> #[trigger] places[i] < batches.len(),
        batches.len() == a.len(),
        forall|k: int| 0 <= k < batches.len() ==> (#[trigger] batches[k])@ == sent_to(moved, places, k),
        all_appended(mid, b, batches, ng, width),
        forall|e: RunEntry| #[trigger]
            t.contains(e) <==> s.contains(e) || entries_upto(mid, batches, a.len() as int).contains(e),
    ensures
        intact(b, next, grown_rows(rows, batches), t),
        stored_ids(b, all_ids(grown_rows(rows, batches))) == stored_ids(a, all_ids(rows)),
{
    assert(all_ids(rows)[at].len() == a[at].n_rows);
    assert forall|id: u64| #[trigger] delivered(batches, id) <==> exists|i: int|
        0 <= i < gone.len() && rows[at][(#[trigger] gone[i]) as int].id == id by {
        law_places_deliver(moved, places, batches, id);
        if batch_ids(moved).contains(id) {
            let i = choose|i: int| 0 <= i < moved.len() && batch_ids(moved)[i] == id;
            assert(rows[at][gone[i] as int].id == id);
        }
        if exists|i: int| 0 <= i < gone.len() && rows[at][(#[trigger] gone[i]) as int].id == id {
            let i = choose|i: int| 0 <= i < gone.len() && rows[at][(#[trigger] gone[i]) as int].id == id;
            assert(batch_ids(moved)[i] == id);
        }
    }
    assert forall|i: int| 0 <= i < gone.len() implies alive(a[at], (#[trigger] gone[i]) as int) by {
        assert(primary_at(a, rows, at, gone[i] as int));
    }
    law_reassigning_keeps_ids(a, mid, b, next, rows, at, gone, batches, ng, width, s, t);
    law_reassigning_keeps_primaries(a, mid, b, rows, at, gone, moved, places, batches, ng, width);
    assert forall|k: int| 0 <= k < a.len() implies marked_from(a[k], #[trigger] mid[k]) by {
        if k != at {
            assert(mid[k] == a[k]);
        }
    }
    assert forall|k: int, r: int| 0 <= k < a.len() && 0 <= r && marked(a[k].dead@, r) implies #[trigger] marked(
        mid[k].dead@,
        r,
    ) by {
        if k != at {
            assert(mid[k] == a[k]);
        }
    }
    assert forall|k: int| 0 <= k < a.len() implies (#[trigger] mid[k]).partition_id == a[k].partition_id
        && mid[k].generation == a[k].generation && mid[k].n_rows == a[k].n_rows by {
        assert(marked_from(a[k], mid[k]));
    }
    law_dead_rows_keep_index(a, mid, next, all_ids(rows), s);
    assert(flagged(mid, rows, s)) by {
        assert forall|i: int, k: int|
            0 <= i < s.len() && 0 <= k < mid.len() && names(
                #[trigger] s[i],
                #[trigger] mid[k],
                s[i].row as int,
            ) && alive(mid[k], s[i].row as int) implies rows[k][s[i].row as int].replica == (s[i].flags % 2
            == ENTRY_FLAG_REPLICA) by {
            assert(names(s[i], a[k], s[i].row as int));
            assert(!marked(mid[k].dead@, s[i].row as int));
            assert(alive(a[k], s[i].row as int));
        }
    }
    assert(all_counted(mid, rows)) by {
        assert forall|k: int| 0 <= k < mid.len() implies counts_rows(#[trigger] mid[k], rows[k]) by {
            assert(counts_rows(a[k], rows[k]));
            if k != at {
                assert(mid[k] == a[k]);
            } else {
                assert(all_primary(a[at], rows[at], gone)) by {
                    assert forall|i: int|
                        0 <= i < gone.len() && !marked(a[at].dead@, #[trigger] gone[i] as int) implies !rows[at][gone[i] as int].replica by {
                        assert(primary_at(a, rows, at, gone[i] as int));
                    }
                }
            }
        }
    }
    lemma_appended(mid, b, next, rows, batches, ng, width, s, t);
}

/// Appending new rows, each to its own partitions, keeps an index intact.
pub proof fn law_ingest_keeps_intact(
    a: Seq<PartitionState>,
    b: Seq<PartitionState>,
    next: u32,
    rows: Seq<Seq<Row>>,
    new: Seq<Row>,
    lists: Seq<Vec<u32>>,
    batches: Seq<RowBatch>,
    ng: int,
    width: int,
    s: Seq<RunEntry>,
    t: Seq<RunEntry>,
)
    requires
        intact(a, next, rows, s),
        forall|k: int| 0 <= k < a.len() ==> (#[trigger] a[k]).wf(),
        forall|k: int| 0 <= k < b.len() ==> (#[trigger] b[k]).wf(),
        batches.len() == a.len(),
        lists.len() >= new.len(),
        forall|i: int| 0 <= i < new.len() ==> (#[trigger] lists[i])@.len() > 0 && lists[i]@[0] < batches.len(),
        forall|i: int, j: int| 0 <= i < new.len() && 0 <= j < new.len() && i != j ==> new[i].id != new[j].id,
        forall|i: int| 0 <= i < new.len() ==> !stored_ids(a, all_ids(rows)).contains((#[trigger] new[i]).id),
        forall|k: int| 0 <= k < batches.len() ==> (#[trigger] batches[k])@ == spread_to(new, lists, k),
        all_appended(a, b, batches, ng, width),
        forall|e: RunEntry| #[trigger]
            t.contains(e) <==> s.contains(e) || entries_upto(a, batches, a.len() as int).contains(e),
    ensures
        intact(b, next, grown_rows(rows, batches), t),
{
    lemma_grown_index(a, b, next, rows, batches, ng, width, s, t);
    law_ingest_keeps_primaries(a, b, rows, new, lists, batches, ng, width);
}

/// Appending new rows, each to one partition, keeps an index intact.
pub proof fn law_placing_keeps_intact(
    a: Seq<PartitionState>,
    b: Seq<PartitionState>,
    next: u32,
    rows: Seq<Seq<Row>>,
    new: Seq<Row>,
    places: Seq<u32>,
    batches: Seq<RowBatch>,
    ng: int,
    width: int,
    s: Seq<RunEntry>,
    t: Seq<RunEntry>,
)
    requires
        intact(a, next, rows, s),
        forall|k: int| 0 <= k < a.len() ==> (#[trigger] a[k]).wf(),
        forall|k: int| 0 <= k < b.len() ==> (#[trigger] b[k]).wf(),
        batches.len() == a.len(),
        places.len() >= new.len(),
        forall|i: int| 0 <= i < new.len() ==> #[trigger] places[i] < batches.len(),
        forall|i: int, j: int| 0 <= i < new.len() && 0 <= j < new.len() && i != j ==> new[i].id != new[j].id,
        forall|i: int| 0 <= i < new.len() ==> !stored_ids(a, all_ids(rows)).contains((#[trigger] new[i]).id),
        forall|k: int| 0 <= k < batches.len() ==> (#[trigger] batches[k])@ == sent_to(new, places, k),
        all_appended(a, b, batches, ng, width),
        forall|e: RunEntry| #[trigger]
            t.contains(e) <==> s.contains(e) || entries_upto(a, batches, a.len() as int).contains(e),
    ensures
        intact(b, next, grown_rows(rows, batches), t),
{
    lemma_grown_index(a, b, next, rows, batches, ng, width, s, t);
    law_placing_keeps_primaries(a, b, rows, new, places, batches, ng, width);
}

/// Appending further copies of stored vectors keeps an index intact, and every
/// stored id.
pub proof fn law_replicas_keep_intact(
    a: Seq<PartitionState>,
    b: Seq<PartitionState>,
    next: u32,
    rows: Seq<Seq<Row>>,
    batches: Seq<RowBatch>,
    ng: int,
    width: int,
    s: Seq<RunEntry>,
    t: Seq<RunEntry>,
)
    requires
        intact(a, next, rows, s),
        forall|k: int| 0 <= k < a.len() ==> (#[trigger] a[k]).wf(),
        forall|k: int| 0 <= k < b.len() ==> (#[trigger] b[k]).wf(),
        batches.len() == a.len(),
        forall|k: int, i: int|
            0 <= k < batches.len() && 0 <= i < batches[k]@.len() ==> (#[trigger] batches[k]@[i]).replica && stored_ids(
                a,
                all_ids(rows),
            ).contains(batches[k]@[i].id),
        all_appended(a, b, batches, ng, width),
        forall|e: RunEntry| #[trigger]
            t.contains(e) <==> s.contains(e) || entries_upto(a, batches, a.len() as int).contains(e),
    ensures
        intact(b, next, grown_rows(rows, batches), t),
        stored_ids(b, all_ids(grown_rows(rows, batches))) == stored_ids(a, all_ids(rows)),
{
    lemma_grown_index(a, b, next, rows, batches, ng, width, s, t);
    law_replicas_keep_primaries(a, b, rows, batches, ng, width);
    assert forall|id: u64| delivered(batches, id) implies stored(a, all_ids(rows), id) by {
        let (k, i) = choose|k: int, i: int|
            0 <= k < batches.len() && 0 <= i < batches[k]@.len() && #[trigger] batches[k]@[i].id == id;
        assert(stored_ids(a, all_ids(rows)).contains(batches[k]@[i].id));
    }
    assert(stored_ids(b, all_ids(grown_rows(rows, batches))) =~= stored_ids(a, all_ids(rows)));
}

/// Appending keeps the index in step, the flags and the counts.
pub proof fn lemma_grown_index(
    a: Seq<PartitionState>,
    b: Seq<PartitionState>,
    next: u32,
    rows: Seq<Seq<Row>>,
    batches: Seq<RowBatch>,
    ng: int,
    width: int,
    s: Seq<RunEntry>,
    t: Seq<RunEntry>,
)
    requires
        intact(a, next, rows, s),
        forall|k: int| 0 <= k < a.len() ==> (#[trigger] a[k]).wf(),
        forall|k: int| 0 <= k < b.len() ==> (#[trigger] b[k]).wf(),
        batches.len() == a.len(),
        all_appended(a, b, batches, ng, width),
        forall|e: RunEntry| #[trigger]
            t.contains(e) <==> s.contains(e) || entries_upto(a, batches, a.len() as int).contains(e),
    ensures
        indexed(b, next, all_ids(grown_rows(rows, batches)), t),
        flagged(b, grown_rows(rows, batches), t),
        all_counted(b, grown_rows(rows, batches)),
        forall|id: u64| #[trigger]
            stored(b, all_ids(grown_rows(rows, batches)), id) <==> stored(a, all_ids(rows), id) || delivered(
                batches,
                id,
            ),
{
    let ids = all_ids(rows);
    let now = all_ids(grown_rows(rows, batches));
    assert(now =~= grown_ids(ids, batches)) by {
        assert forall|k: int| 0 <= k < now.len() implies now[k] == #[trigger] grown_ids(ids, batches)[k] by {
            assert(now[k] =~= grown_ids(ids, batches)[k]);
        }
    }
    law_append_keeps_index(a, b, next, ids, batches, ng, width, s, t);
    lemma_appended(a, b, next, rows, batches, ng, width, s, t);
}

/// Merging trailing chunks keeps an index intact.
pub proof fn law_tier_merge_keeps_intact(
    a: Seq<PartitionState>,
    b: Seq<PartitionState>,
    next: u32,
    rows: Seq<Seq<Row>>,
    s: Seq<RunEntry>,
    at: int,
    from: int,
    len: int,
)
    requires
        intact(a, next, rows, s),
        a.len() == b.len(),
        0 <= at < a.len(),
        forall|k: int| 0 <= k < a.len() && k != at ==> #[trigger] b[k] == a[k],
        folded(a[at], b[at], from, len),
    ensures
        intact(b, next, rows, s),
        stored_ids(b, all_ids(rows)) == stored_ids(a, all_ids(rows)),
{
    law_tier_merge_keeps_index(a, b, next, all_ids(rows), s, at, from, len);
    assert forall|k: int| 0 <= k < a.len() implies same_rows(a[k], #[trigger] b[k]) by {
        if k != at {
            assert(b[k] == a[k]);
        }
    }
    lemma_same_rows(a, b, rows, s);
}

/// Two states of a partition with the same rows, dead and alive.
spec fn same_rows(a: PartitionState, b: PartitionState) -> bool {
    &&& b.partition_id == a.partition_id
    &&& b.generation == a.generation
    &&& b.n_rows == a.n_rows
    &&& b.dead@ == a.dead@
    &&& b.live_primary == a.live_primary
}

proof fn lemma_same_rows(a: Seq<PartitionState>, b: Seq<PartitionState>, rows: Seq<Seq<Row>>, s: Seq<RunEntry>)
    requires
        a.len() == b.len(),
        forall|k: int| 0 <= k < a.len() ==> same_rows(a[k], #[trigger] b[k]),
        flagged(a, rows, s),
        all_counted(a, rows),
        one_primary(a, rows),
    ensures
        flagged(b, rows, s),
        all_counted(b, rows),
        one_primary(b, rows),
{
    assert forall|k: int| 0 <= k < b.len() implies counts_rows(#[trigger] b[k], rows[k]) by {
        assert(same_rows(a[k], b[k]));
        assert(counts_rows(a[k], rows[k]));
    }
    assert forall|i: int, k: int|
        0 <= i < s.len() && 0 <= k < b.len() && names(
            #[trigger] s[i],
            #[trigger] b[k],
            s[i].row as int,
        ) && alive(b[k], s[i].row as int) implies rows[k][s[i].row as int].replica == (s[i].flags % 2
        == ENTRY_FLAG_REPLICA) by {
        assert(same_rows(a[k], b[k]));
        assert(names(s[i], a[k], s[i].row as int) && alive(a[k], s[i].row as int));
    }
    assert forall|k: int, r: int| #[trigger] primary_at(b, rows, k, r) <==> primary_at(a, rows, k, r) by {
        if 0 <= k < b.len() {
            assert(same_rows(a[k], b[k]));
        }
    }
    assert forall|k: int, r: int| 0 <= k < b.len() && #[trigger] alive(b[k], r) implies has_primary(
        b,
        rows,
        rows[k][r].id,
    ) by {
        assert(same_rows(a[k], b[k]));
        assert(alive(a[k], r));
        assert(has_primary(a, rows, rows[k][r].id));
        let (j, q) = choose|j: int, q: int| #[trigger] primary_at(a, rows, j, q) && rows[j][q].id == rows[k][r].id;
        assert(primary_at(b, rows, j, q));
    }
}

/// The entries of rows that fill a new version of a partition.
proof fn lemma_new_entry(rows: Seq<Row>, partition_id: u32, generation: u32, e: RunEntry) -> (q: int)
    requires
        new_entries(rows, partition_id, generation, 0).contains(e),
        rows.len() <= MAX_ROWS,
    ensures
        0 <= q < rows.len(),
        e.partition_id == partition_id,
        e.generation == generation,
        e.row == q,
        e.id == rows[q].id,
        rows[q].replica == (e.flags % 2 == ENTRY_FLAG_REPLICA),
{
    let all = new_entries(rows, partition_id, generation, 0);
    choose|q: int| 0 <= q < all.len() && all[q] == e
}

/// Every row that fills a new version of a partition has its entry.
proof fn lemma_entry_of(rows: Seq<Row>, partition_id: u32, generation: u32, q: int) -> (e: RunEntry)
    requires
        0 <= q < rows.len(),
        rows.len() <= MAX_ROWS,
    ensures
        new_entries(rows, partition_id, generation, 0).contains(e),
        e.partition_id == partition_id,
        e.generation == generation,
        e.row == q,
{
    let all = new_entries(rows, partition_id, generation, 0);
    assert(all[q] == all[q]);
    all[q]
}

/// A first version of a partition that holds exactly `rows`.
spec fn filled(p: PartitionState, partition_id: u32, rows: Seq<Row>) -> bool {
    &&& p.partition_id == partition_id
    &&& p.generation == 0
    &&& p.n_rows == rows.len()
    &&& p.live_primary == primary_count(rows)
    &&& forall|q: int| 0 <= q ==> !#[trigger] marked(p.dead@, q)
}

/// Adding a partition that holds exactly `more` keeps what holds of entries
/// and counts.
proof fn lemma_filled_partition(
    a: Seq<PartitionState>,
    next: u32,
    rows: Seq<Seq<Row>>,
    s: Seq<RunEntry>,
    t: Seq<RunEntry>,
    p: PartitionState,
    more: Seq<Row>,
)
    requires
        indexed(a, next, all_ids(rows), s),
        flagged(a, rows, s),
        all_counted(a, rows),
        next < u32::MAX,
        p.wf(),
        filled(p, next, more),
        forall|e: RunEntry| #[trigger] t.contains(e) <==> s.contains(e) || new_entries(more, next, 0, 0).contains(e),
    ensures
        indexed(a.push(p), (next + 1) as u32, all_ids(rows.push(more)), t),
        flagged(a.push(p), rows.push(more), t),
        all_counted(a.push(p), rows.push(more)),
{
    let b = a.push(p);
    let now = rows.push(more);
    let ids = all_ids(rows);
    let n = a.len() as int;
    assert(all_ids(now) =~= ids.push(batch_ids(more))) by {
        assert(all_ids(now)[n] =~= batch_ids(more));
    }
    assert forall|k: int| 0 <= k < b.len() implies (#[trigger] all_ids(now)[k]).len() == b[k].n_rows by {
        if k < n {
            assert(ids[k].len() == a[k].n_rows);
        }
    }
    assert forall|k: int| 0 <= k < b.len() implies (#[trigger] b[k]).partition_id < (next + 1) as u32 by {
        if k < n {
            assert(a[k].partition_id < next);
        }
    }
    assert forall|i: int, j: int| 0 <= i < j < b.len() implies (#[trigger] b[i]).partition_id != (
    #[trigger] b[j]).partition_id by {
        assert(a[i].partition_id < next);
        if j < n {
            assert(a[i].partition_id != a[j].partition_id);
        }
    }
    assert forall|i: int| 0 <= i < t.len() implies entry_fits(a, rows, s, p, more, #[trigger] t[i]) by {
        assert(t.contains(t[i]));
        if s.contains(t[i]) {
        } else {
            let q = lemma_new_entry(more, next, 0, t[i]);
        }
    }
    assert forall|i: int| 0 <= i < t.len() implies (#[trigger] t[i]).partition_id < (next + 1) as u32 by {
        assert(entry_fits(a, rows, s, p, more, t[i]));
        if s.contains(t[i]) {
            let j = choose|j: int| 0 <= j < s.len() && s[j] == t[i];
            assert(s[j].partition_id < next);
        }
    }
    assert forall|i: int, k: int|
        0 <= i < t.len() && 0 <= k < b.len() && (#[trigger] t[i]).partition_id == (
        #[trigger] b[k]).partition_id implies t[i].generation <= b[k].generation && (t[i].generation
        == b[k].generation ==> t[i].row < b[k].n_rows) by {
        assert(entry_fits(a, rows, s, p, more, t[i]));
        if s.contains(t[i]) {
            let j = choose|j: int| 0 <= j < s.len() && s[j] == t[i];
            assert(s[j].partition_id < next);
            assert(k < n);
            assert(s[j].partition_id == a[k].partition_id);
        } else if k < n {
            assert(a[k].partition_id < next);
        }
    }
    assert forall|i: int, k: int|
        0 <= i < t.len() && 0 <= k < b.len() && names(
            #[trigger] t[i],
            #[trigger] b[k],
            t[i].row as int,
        ) && alive(b[k], t[i].row as int) implies all_ids(now)[k][t[i].row as int] == t[i].id && now[k][t[i].row as int].replica
        == (t[i].flags % 2 == ENTRY_FLAG_REPLICA) by {
        assert(entry_fits(a, rows, s, p, more, t[i]));
        if s.contains(t[i]) {
            let j = choose|j: int| 0 <= j < s.len() && s[j] == t[i];
            assert(s[j].partition_id < next);
            assert(k < n);
            assert(ids[k].len() == a[k].n_rows);
            assert(names(s[j], a[k], s[j].row as int) && alive(a[k], s[j].row as int));
        } else if k < n {
            assert(a[k].partition_id < next);
        }
    }
    assert forall|k: int, r: int| 0 <= k < b.len() && #[trigger] alive(b[k], r) implies covered(t, b[k], r) by {
        if k < n {
            assert(alive(a[k], r));
            assert(covered(s, a[k], r));
            let i = choose|i: int| 0 <= i < s.len() && names(#[trigger] s[i], a[k], r);
            assert(s.contains(s[i]));
            assert(t.contains(s[i]));
            let j = choose|j: int| 0 <= j < t.len() && t[j] == s[i];
            assert(names(t[j], b[k], r));
        } else {
            let e = lemma_entry_of(more, next, 0, r);
            assert(t.contains(e));
            let j = choose|j: int| 0 <= j < t.len() && t[j] == e;
            assert(names(t[j], b[k], r));
        }
    }
    assert forall|k: int| 0 <= k < b.len() implies counts_rows(#[trigger] b[k], now[k]) by {
        if k < n {
            assert(counts_rows(a[k], rows[k]));
        } else {
            lemma_live_all(more, p.dead@, 0);
        }
    }
}

/// An entry is an old one, or that of a row of the new partition.
spec fn entry_fits(
    a: Seq<PartitionState>,
    rows: Seq<Seq<Row>>,
    s: Seq<RunEntry>,
    p: PartitionState,
    more: Seq<Row>,
    e: RunEntry,
) -> bool {
    s.contains(e) || {
        &&& e.partition_id == p.partition_id
        &&& e.generation == 0
        &&& e.row < more.len()
        &&& e.id == more[e.row as int].id
        &&& more[e.row as int].replica == (e.flags % 2 == ENTRY_FLAG_REPLICA)
    }
}

/// Splitting a partition keeps an index intact, and every stored id.
pub proof fn law_splitting_keeps_intact(
    a: Seq<PartitionState>,
    b: Seq<PartitionState>,
    next: u32,
    rows: Seq<Seq<Row>>,
    at: int,
    children: Seq<u32>,
    ng: int,
    width: int,
    s: Seq<RunEntry>,
    mid: Seq<RunEntry>,
    t: Seq<RunEntry>,
)
    requires
        intact(a, next, rows, s),
        0 <= at < a.len(),
        next < u32::MAX - 1,
        children.len() == live_primary_rows(a[at], rows[at]).len(),
        forall|i: int| 0 <= i < children.len() ==> #[trigger] children[i] < 2,
        b.len() == a.len() + 1,
        forall|k: int| 0 <= k < b.len() ==> (#[trigger] b[k]).wf(),
        forall|k: int| 0 <= k < a.len() - 1 ==> #[trigger] b[k] == a.remove(at)[k],
        holds_only(b[a.len() - 1], next, sent_to(live_primary_rows(a[at], rows[at]), children, 0), ng, width),
        holds_only(
            b[a.len() as int],
            (next + 1) as u32,
            sent_to(live_primary_rows(a[at], rows[at]), children, 1),
            ng,
            width,
        ),
        mid == s + new_entries(sent_to(live_primary_rows(a[at], rows[at]), children, 0), next, 0, 0),
        t == mid + new_entries(sent_to(live_primary_rows(a[at], rows[at]), children, 1), (next + 1) as u32, 0, 0),
    ensures
        ({
            let after = rows.remove(at).push(sent_to(live_primary_rows(a[at], rows[at]), children, 0)).push(
                sent_to(live_primary_rows(a[at], rows[at]), children, 1),
            );
            &&& intact(b, (next + 2) as u32, after, t)
            &&& stored_ids(b, all_ids(after)) == stored_ids(a, all_ids(rows))
        }),
{
    let n = a.len() - 1;
    let rest = a.remove(at);
    let kept = rows.remove(at);
    let prim = live_primary_rows(a[at], rows[at]);
    let first = sent_to(prim, children, 0);
    let second = sent_to(prim, children, 1);
    law_splitting_keeps_ids(a, b, rows, at, children, next, (next + 1) as u32, ng, width);
    law_splitting_keeps_primaries(a, b, rows, at, children, next, (next + 1) as u32, ng, width);
    law_dropped_partition_keeps_index(a, next, all_ids(rows), s, at);
    assert(all_ids(rows).remove(at) =~= all_ids(kept));
    lemma_dropped(a, next, rows, s, at);
    lemma_joined_entries(s, new_entries(first, next, 0, 0));
    lemma_joined_entries(mid, new_entries(second, (next + 1) as u32, 0, 0));
    assert(b[n].wf() && b[n + 1].wf());
    lemma_filled_partition(rest, next, kept, s, mid, b[n], first);
    let some = rest.push(b[n]);
    lemma_filled_partition(some, (next + 1) as u32, kept.push(first), mid, t, b[n + 1], second);
    assert(some.push(b[n + 1]) =~= b);
}

/// What two lists of entries hold together.
pub proof fn lemma_joined_entries(a: Seq<RunEntry>, b: Seq<RunEntry>)
    ensures
        forall|e: RunEntry| #[trigger] (a + b).contains(e) <==> a.contains(e) || b.contains(e),
{
    assert forall|e: RunEntry| #[trigger] (a + b).contains(e) <==> a.contains(e) || b.contains(e) by {
        if a.contains(e) {
            let i = choose|i: int| 0 <= i < a.len() && a[i] == e;
            assert((a + b)[i] == e);
        }
        if b.contains(e) {
            let i = choose|i: int| 0 <= i < b.len() && b[i] == e;
            assert((a + b)[a.len() + i] == e);
        }
    }
}

/// Rewriting a partition without its dead rows keeps an index intact, and
/// every stored id.
pub proof fn law_compaction_keeps_intact(
    a: Seq<PartitionState>,
    b: Seq<PartitionState>,
    next: u32,
    rows: Seq<Seq<Row>>,
    s: Seq<RunEntry>,
    t: Seq<RunEntry>,
    at: int,
)
    requires
        intact(a, next, rows, s),
        a.len() == b.len(),
        0 <= at < a.len(),
        forall|k: int| 0 <= k < a.len() && k != at ==> #[trigger] b[k] == a[k],
        b[at].partition_id == a[at].partition_id,
        a[at].generation < u32::MAX,
        b[at].generation == a[at].generation + 1,
        b[at].n_rows == live_of(rows[at], a[at].dead@, 0, false).len(),
        b[at].n_rows <= MAX_ROWS,
        b[at].live_primary == primary_count(live_of(rows[at], a[at].dead@, 0, false)),
        forall|q: int| 0 <= q ==> !#[trigger] marked(b[at].dead@, q),
        forall|e: RunEntry| #[trigger]
            t.contains(e) <==> s.contains(e) || new_entries(
                live_of(rows[at], a[at].dead@, 0, false),
                a[at].partition_id,
                b[at].generation,
                0,
            ).contains(e),
    ensures
        intact(b, next, rows.update(at, live_of(rows[at], a[at].dead@, 0, false)), t),
        stored_ids(b, all_ids(rows.update(at, live_of(rows[at], a[at].dead@, 0, false)))) == stored_ids(
            a,
            all_ids(rows),
        ),
{
    let live = live_of(rows[at], a[at].dead@, 0, false);
    let list = live_at(rows[at], a[at].dead@, 0, false);
    let now = rows.update(at, live);
    let ids = all_ids(rows);
    assert(ids[at].len() == a[at].n_rows);
    assert(batch_ids(rows[at]) =~= ids[at]);
    law_compaction_keeps_ids(a, b, next, ids, s, t, at, rows[at]);
    assert(all_ids(now) =~= ids.update(at, batch_ids(live))) by {
        assert(all_ids(now)[at] =~= batch_ids(live));
    }
    lemma_live_at(rows[at], a[at].dead@, 0, false);
    assert forall|r: int| 0 <= r < live.len() implies alive(a[at], #[trigger] list[r]) && rows[at][list[r]] == live[r] by {
        assert(wanted(rows[at][list[r] - 0], list[r], a[at].dead@, false));
    }
    assert forall|k: int| 0 <= k < b.len() implies counts_rows(#[trigger] b[k], now[k]) by {
        assert(counts_rows(a[k], rows[k]));
        if k == at {
            lemma_live_all(live, b[at].dead@, 0);
        }
    }
    assert(flagged(b, now, t)) by {
        assert forall|i: int, k: int|
            0 <= i < t.len() && 0 <= k < b.len() && names(
                #[trigger] t[i],
                #[trigger] b[k],
                t[i].row as int,
            ) && alive(b[k], t[i].row as int) implies now[k][t[i].row as int].replica == (t[i].flags % 2
            == ENTRY_FLAG_REPLICA) by {
            assert(t.contains(t[i]));
            if s.contains(t[i]) {
                let j = choose|j: int| 0 <= j < s.len() && s[j] == t[i];
                if k == at {
                    assert(s[j].partition_id == a[at].partition_id);
                    assert(s[j].generation <= a[at].generation);
                } else {
                    assert(names(s[j], a[k], s[j].row as int));
                }
            } else {
                let q = lemma_new_entry(live, a[at].partition_id, b[at].generation, t[i]);
                if k < at {
                    assert(a[k].partition_id != a[at].partition_id);
                } else if at < k {
                    assert(a[at].partition_id != a[k].partition_id);
                }
            }
        }
    }
    assert(one_primary(b, now)) by {
        assert forall|k: int, r: int| #[trigger] primary_at(b, now, k, r) implies primary_at(
            a,
            rows,
            k,
            if k == at {
                list[r]
            } else {
                r
            },
        ) by {}
        assert forall|k: int, r: int, j: int, q: int|
            #[trigger] primary_at(b, now, k, r) && #[trigger] primary_at(b, now, j, q) && now[k][r].id
                == now[j][q].id implies k == j && r == q by {
            let r0 = if k == at {
                list[r]
            } else {
                r
            };
            let q0 = if j == at {
                list[q]
            } else {
                q
            };
            assert(primary_at(a, rows, k, r0) && primary_at(a, rows, j, q0));
            assert(k == j && r0 == q0);
            if k == at {
                if r < q {
                    assert(list[r] < list[q]);
                } else if q < r {
                    assert(list[q] < list[r]);
                }
            }
        }
        assert forall|k: int, r: int| 0 <= k < b.len() && #[trigger] alive(b[k], r) implies has_primary(
            b,
            now,
            now[k][r].id,
        ) by {
            let r0 = if k == at {
                list[r]
            } else {
                r
            };
            assert(alive(a[k], r0));
            assert(has_primary(a, rows, rows[k][r0].id));
            let (j, q) = choose|j: int, q: int| #[trigger] primary_at(a, rows, j, q) && rows[j][q].id == rows[k][r0].id;
            if j == at {
                assert(wanted(rows[at][q], 0 + q, a[at].dead@, false));
                assert(list.contains(q));
                let i = choose|i: int| 0 <= i < list.len() && list[i] == q;
                assert(live[i] == rows[at][q]);
                assert(primary_at(b, now, at, i) && now[at][i].id == now[k][r].id);
            } else {
                assert(primary_at(b, now, j, q) && now[j][q].id == now[k][r].id);
            }
        }
    }
}

/// It does not matter in what order entries stand.
proof fn lemma_same_entries(
    parts: Seq<PartitionState>,
    next: u32,
    rows: Seq<Seq<Row>>,
    s: Seq<RunEntry>,
    t: Seq<RunEntry>,
)
    requires
        intact(parts, next, rows, s),
        forall|e: RunEntry| #[trigger] t.contains(e) <==> s.contains(e),
    ensures
        intact(parts, next, rows, t),
{
    assert forall|i: int| 0 <= i < t.len() implies s.contains(#[trigger] t[i]) by {
        assert(t.contains(t[i]));
    }
    lemma_fewer_entries(parts, next, rows, s, t);
    assert forall|k: int, r: int| 0 <= k < parts.len() && #[trigger] alive(parts[k], r) implies covered(
        t,
        parts[k],
        r,
    ) by {
        assert(covered(s, parts[k], r));
        let i = choose|i: int| 0 <= i < s.len() && names(#[trigger] s[i], parts[k], r);
        assert(s.contains(s[i]));
        assert(t.contains(s[i]));
        let j = choose|j: int| 0 <= j < t.len() && t[j] == s[i];
        assert(names(t[j], parts[k], r));
    }
}

/// What holds of all entries holds of some of them.
proof fn lemma_fewer_entries(
    parts: Seq<PartitionState>,
    next: u32,
    rows: Seq<Seq<Row>>,
    s: Seq<RunEntry>,
    t: Seq<RunEntry>,
)
    requires
        settled(parts, next, s),
        truthful(parts, all_ids(rows), s),
        flagged(parts, rows, s),
        forall|i: int| 0 <= i < t.len() ==> s.contains(#[trigger] t[i]),
    ensures
        settled(parts, next, t),
        truthful(parts, all_ids(rows), t),
        flagged(parts, rows, t),
{
    assert forall|i: int| 0 <= i < t.len() implies (#[trigger] t[i]).partition_id < next by {
        assert(s.contains(t[i]));
        let j = choose|j: int| 0 <= j < s.len() && s[j] == t[i];
        assert(s[j].partition_id < next);
    }
    assert forall|i: int, k: int|
        #![trigger t[i], parts[k]]
        0 <= i < t.len() && 0 <= k < parts.len() && t[i].partition_id == parts[k].partition_id implies t[i].generation
        <= parts[k].generation && (t[i].generation == parts[k].generation ==> t[i].row < parts[k].n_rows) && (names(
        t[i],
        parts[k],
        t[i].row as int,
    ) && alive(parts[k], t[i].row as int) ==> all_ids(rows)[k][t[i].row as int] == t[i].id
        && rows[k][t[i].row as int].replica == (t[i].flags % 2 == ENTRY_FLAG_REPLICA)) by {
        assert(s.contains(t[i]));
        let j = choose|j: int| 0 <= j < s.len() && s[j] == t[i];
        assert(s[j].partition_id == parts[k].partition_id);
        if names(t[i], parts[k], t[i].row as int) {
            assert(names(s[j], parts[k], s[j].row as int));
        }
    }
}

/// Sealing the entries that were collected as a run keeps an index intact: what
/// held with them at hand holds of the runs.
pub proof fn law_sealing_keeps_intact(x: FreshIndex, y: FreshIndex, rows: Seq<Seq<Row>>, entries: Seq<RunEntry>)
    requires
        x.wf(),
        intact(x.partitions@, x.next_partition_id, rows, newest_first(tables(x.runs@)) + entries),
        total(tables(x.runs@)) + entries.len() <= u64::MAX,
        y.partitions@ == x.partitions@,
        y.next_partition_id == x.next_partition_id,
        tables(y.runs@) == runs_after(x.partitions@, tables(x.runs@), entries),
        y.memtable.ids@.to_set().disjoint(stored_ids(x.partitions@, all_ids(rows))),
    ensures
        y.intact(rows),
        base_ids(y.partitions@, y.runs@) == stored_ids(x.partitions@, all_ids(rows)),
{
    let parts = x.partitions@;
    let next = x.next_partition_id;
    let all = tables(x.runs@);
    let s = newest_first(all) + entries;
    let grown = if entries.len() > 0 {
        all.push(by_id(entries))
    } else {
        all
    };
    lemma_total_push(all, entries);
    lemma_joined_entries(newest_first(all), entries);
    assert forall|e: RunEntry| #[trigger] newest_first(grown).contains(e) <==> s.contains(e) by {
        lemma_pushed_run(all, entries, e);
        assert(s.contains(e) <==> newest_first(all).contains(e) || entries.contains(e));
    }
    lemma_same_entries(parts, next, rows, s, newest_first(grown));
    if grown.len() > MAX_RUNS {
        let t = newest_first(tidied(parts, grown));
        law_tidying_keeps_index(parts, next, all_ids(rows), grown);
        law_indexed_entries_agree(parts, next, all_ids(rows), newest_first(grown));
        lemma_tier_merged_copies(parts, grown);
        assert forall|i: int| 0 <= i < t.len() implies newest_first(grown).contains(#[trigger] t[i]) by {
            assert(t.contains(t[i]));
            lemma_tidied_subset(parts, grown, t[i]);
        }
        lemma_fewer_entries(parts, next, rows, newest_first(grown), t);
    }
    lemma_row_limits(x);
    law_lookups_agree_with_rows(parts, next, all_ids(rows), y.runs@);
}

/// Flushing new rows keeps an index intact, every live id live, and the length:
/// the memtable's rows are appended, each to its own partitions, and their
/// entries sealed.
pub proof fn law_flush_keeps_intact(
    x: FreshIndex,
    placed: FreshIndex,
    y: FreshIndex,
    rows: Seq<Seq<Row>>,
    lists: Seq<Vec<u32>>,
    batches: Seq<RowBatch>,
)
    requires
        x.wf(),
        placed.wf(),
        y.wf(),
        x.intact(rows),
        placed.runs@ == x.runs@,
        placed.next_partition_id == x.next_partition_id,
        batches.len() == x.partitions@.len(),
        lists.len() >= x.memtable.ids@.len(),
        forall|i: int|
            0 <= i < x.memtable.ids@.len() ==> (#[trigger] lists[i])@.len() > 0 && (forall|d: int|
                0 <= d < lists[i]@.len() ==> #[trigger] lists[i]@[d] < batches.len()),
        forall|k: int|
            0 <= k < batches.len() ==> (#[trigger] batches[k])@ == spread_to(
                memtable_rows(x.memtable, x.bit_width as int, x.store_vectors),
                lists,
                k,
            ),
        all_appended(x.partitions@, placed.partitions@, batches, x.ng(), x.stored()),
        total(tables(x.runs@)) + entries_upto(x.partitions@, batches, batches.len() as int).len() <= u64::MAX,
        y.partitions@ == placed.partitions@,
        y.next_partition_id == x.next_partition_id,
        y.memtable.ids@.len() == 0,
        tables(y.runs@) == runs_after(
            placed.partitions@,
            tables(x.runs@),
            entries_upto(x.partitions@, batches, batches.len() as int),
        ),
    ensures
        y.intact(grown_rows(rows, batches)),
        y.live() == x.live(),
        y.length() == x.length(),
{
    let a = x.partitions@;
    let b = placed.partitions@;
    let next = x.next_partition_id;
    let new = memtable_rows(x.memtable, x.bit_width as int, x.store_vectors);
    let s = newest_first(tables(x.runs@));
    let entries = entries_upto(a, batches, batches.len() as int);
    let now = grown_rows(rows, batches);
    lemma_row_limits(x);
    law_lookups_agree_with_rows(a, next, all_ids(rows), x.runs@);
    lemma_joined_entries(s, entries);
    assert forall|k: int| 0 <= k < a.len() implies (#[trigger] a[k]).wf() by {}
    assert forall|k: int| 0 <= k < b.len() implies (#[trigger] b[k]).wf() by {}
    assert forall|i: int| 0 <= i < new.len() implies !stored_ids(a, all_ids(rows)).contains((#[trigger] new[i]).id) by {
        assert(x.memtable.ids@[i] == new[i].id);
        assert(x.memtable.ids@.to_set().contains(new[i].id));
    }
    assert forall|i: int, j: int| 0 <= i < new.len() && 0 <= j < new.len() && i != j implies new[i].id != new[j].id by {
        assert(x.memtable.ids@[i] != x.memtable.ids@[j]);
    }
    assert forall|i: int| 0 <= i < new.len() implies (#[trigger] lists[i])@.len() > 0 && lists[i]@[0] < batches.len() by {
        assert(lists[i]@[0] < batches.len());
    }
    law_ingest_keeps_intact(a, b, next, rows, new, lists, batches, x.ng(), x.stored(), s, s + entries);
    assert(y.memtable.ids@.to_set() =~= Set::<u64>::empty());
    law_sealing_keeps_intact(placed, y, now, entries);
    lemma_grown_index(a, b, next, rows, batches, x.ng(), x.stored(), s, s + entries);
    assert forall|id: u64| stored(b, all_ids(now), id) <==> x.live().contains(id) by {
        law_lists_deliver(new, lists, batches, id);
        assert(batch_ids(new) =~= x.memtable.ids@);
        assert(stored_ids(a, all_ids(rows)).contains(id) <==> stored(a, all_ids(rows), id));
    }
    assert(y.live() =~= x.live());
    law_length(x, rows);
    law_length(y, now);
}

/// Upkeep that keeps the stored ids keeps the live ids and the length.
pub proof fn law_same_ids_same_length(x: FreshIndex, y: FreshIndex, rows: Seq<Seq<Row>>, now: Seq<Seq<Row>>)
    requires
        x.wf(),
        y.wf(),
        x.intact(rows),
        y.intact(now),
        y.memtable.ids@ == x.memtable.ids@,
        stored_ids(y.partitions@, all_ids(now)) == stored_ids(x.partitions@, all_ids(rows)),
    ensures
        y.live() == x.live(),
        y.length() == x.length(),
{
    lemma_row_limits(x);
    lemma_row_limits(y);
    law_lookups_agree_with_rows(x.partitions@, x.next_partition_id, all_ids(rows), x.runs@);
    law_lookups_agree_with_rows(y.partitions@, y.next_partition_id, all_ids(now), y.runs@);
    law_length(x, rows);
    law_length(y, now);
}

/// An index that was opened from what an intact index wrote is intact, with
/// the same rows.
pub proof fn law_reopened_index_is_intact(x: FreshIndex, y: FreshIndex, rows: Seq<Seq<Row>>)
    requires
        x.wf(),
        x.intact(rows),
        y.partitions@.len() == x.partitions@.len(),
        forall|j: int| 0 <= j < x.partitions@.len() ==> (#[trigger] y.partitions@[j]).same(x.partitions@[j]),
        y.next_partition_id == x.next_partition_id,
        tables(y.runs@) == tables(x.runs@),
        y.memtable.ids@.len() == 0,
    ensures
        y.intact(rows),
        y.live() == base_ids(x.partitions@, x.runs@),
{
    let a = x.partitions@;
    let b = y.partitions@;
    let next = x.next_partition_id;
    let s = newest_first(tables(x.runs@));
    assert forall|k: int| 0 <= k < a.len() implies same_rows(a[k], #[trigger] b[k]) by {
        assert(b[k].same(a[k]));
    }
    assert forall|k: int| 0 <= k < a.len() implies (#[trigger] b[k]).partition_id == a[k].partition_id
        && b[k].generation == a[k].generation && b[k].n_rows == a[k].n_rows by {
        assert(same_rows(a[k], b[k]));
    }
    assert forall|k: int, r: int| 0 <= k < a.len() && 0 <= r && marked(a[k].dead@, r) implies #[trigger] marked(
        b[k].dead@,
        r,
    ) by {
        assert(same_rows(a[k], b[k]));
    }
    law_dead_rows_keep_index(a, b, next, all_ids(rows), s);
    lemma_same_rows(a, b, rows, s);
    assert(y.memtable.ids@.to_set() =~= Set::<u64>::empty());
    crate::recovery::law_reopen_keeps_ids(x, y);
}

/// A new partition without rows keeps an index intact, and every stored id.
pub proof fn law_new_partition_keeps_intact(
    a: Seq<PartitionState>,
    next: u32,
    rows: Seq<Seq<Row>>,
    s: Seq<RunEntry>,
    p: PartitionState,
)
    requires
        intact(a, next, rows, s),
        next < u32::MAX,
        just_made(p, next),
    ensures
        intact(a.push(p), (next + 1) as u32, rows.push(Seq::empty()), s),
        stored_ids(a.push(p), all_ids(rows.push(Seq::empty()))) == stored_ids(a, all_ids(rows)),
{
    let b = a.push(p);
    let now = rows.push(Seq::empty());
    let n = a.len() as int;
    law_new_partition_keeps_index(a, next, all_ids(rows), s, p);
    assert(all_ids(now) =~= all_ids(rows).push(Seq::empty())) by {
        assert(all_ids(now)[n] =~= Seq::<u64>::empty());
    }
    assert forall|k: int| 0 <= k < b.len() implies counts_rows(#[trigger] b[k], now[k]) by {
        if k < n {
            assert(counts_rows(a[k], rows[k]));
        } else {
            lemma_live_all(now[k], p.dead@, 0);
        }
    }
    assert forall|i: int, k: int|
        0 <= i < s.len() && 0 <= k < b.len() && names(
            #[trigger] s[i],
            #[trigger] b[k],
            s[i].row as int,
        ) && alive(b[k], s[i].row as int) implies now[k][s[i].row as int].replica == (s[i].flags % 2
        == ENTRY_FLAG_REPLICA) by {
        assert(k < n);
        assert(names(s[i], a[k], s[i].row as int));
    }
    assert forall|k: int, r: int| #[trigger] primary_at(b, now, k, r) implies primary_at(a, rows, k, r) by {}
    assert forall|k: int, r: int| 0 <= k < b.len() && #[trigger] alive(b[k], r) implies has_primary(
        b,
        now,
        now[k][r].id,
    ) by {
        assert(k < n);
        assert(alive(a[k], r));
        assert(has_primary(a, rows, rows[k][r].id));
        let (j, q) = choose|j: int, q: int| #[trigger] primary_at(a, rows, j, q) && rows[j][q].id == rows[k][r].id;
        assert(primary_at(b, now, j, q));
    }
}

proof fn lemma_movers_ascend(best: Seq<u32>, closer: Seq<bool>, position: int, n: int)
    ensures
        forall|i: int, j: int|
            0 <= i < j < movers(best, closer, position, n).len() ==> #[trigger] movers(best, closer, position, n)[i]
                < #[trigger] movers(best, closer, position, n)[j],
    decreases n,
{
    if n > 0 {
        lemma_movers_ascend(best, closer, position, n - 1);
        lemma_movers(best, closer, position, n - 1);
        let all = movers(best, closer, position, n);
        let init = movers(best, closer, position, n - 1);
        assert forall|i: int, j: int| 0 <= i < j < all.len() implies #[trigger] all[i] < #[trigger] all[j] by {
            assert(all[i] == init[i]);
            if j < init.len() {
                assert(all[j] == init[j]);
            }
        }
    }
}

/// The rows that a plan moves out of a partition are live first copies there,
/// none of them twice.
pub proof fn law_planned_moves_are_primaries(
    parts: Seq<PartitionState>,
    rows: Seq<Seq<Row>>,
    at: int,
    live: Seq<Row>,
    numbers: Seq<u64>,
    best: Seq<u32>,
    closer: Seq<bool>,
    position: int,
    moved: Seq<Row>,
    gone: Seq<u64>,
)
    requires
        0 <= at < parts.len(),
        rows[at].len() == parts[at].n_rows,
        live == live_of(rows[at], parts[at].dead@, 0, true),
        numbers.len() == live.len(),
        forall|i: int|
            0 <= i < numbers.len() ==> #[trigger] numbers[i] == live_at(rows[at], parts[at].dead@, 0, true)[i],
        ({
            let m = movers(best, closer, position, live.len() as int);
            &&& moved == Seq::new(m.len(), |j: int| Row { replica: false, ..live[m[j]] })
            &&& gone == Seq::new(m.len(), |j: int| numbers[m[j]])
        }),
    ensures
        gone.no_duplicates(),
        moved.len() == gone.len(),
        forall|i: int|
            0 <= i < gone.len() ==> primary_at(parts, rows, at, (#[trigger] gone[i]) as int)
                && rows[at][gone[i] as int].id == moved[i].id,
{
    let dead = parts[at].dead@;
    let n = live.len() as int;
    let m = movers(best, closer, position, n);
    let list = live_at(rows[at], dead, 0, true);
    lemma_live_at(rows[at], dead, 0, true);
    lemma_movers(best, closer, position, n);
    lemma_movers_ascend(best, closer, position, n);
    assert forall|i: int| 0 <= i < gone.len() implies primary_at(parts, rows, at, (#[trigger] gone[i]) as int)
        && rows[at][gone[i] as int].id == moved[i].id && gone[i] == list[m[i]] by {
        assert(0 <= m[i] < n);
        assert(numbers[m[i]] == list[m[i]]);
        assert(wanted(rows[at][list[m[i]] - 0], list[m[i]], dead, true));
    }
    assert forall|i: int, j: int| 0 <= i < gone.len() && 0 <= j < gone.len() && i != j implies gone[i] != gone[j] by {
        assert(gone[i] == list[m[i]] && gone[j] == list[m[j]]);
        if i < j {
            assert(m[i] < m[j]);
            assert(list[m[i]] < list[m[j]]);
        } else {
            assert(m[j] < m[i]);
            assert(list[m[j]] < list[m[i]]);
        }
    }
}

/// New partitions without rows.
proof fn lemma_made(made: Seq<PartitionState>, first: u32, next: u32, rows: Seq<Seq<Row>>, s: Seq<RunEntry>)
    requires
        first + made.len() == next,
        forall|k: int| 0 <= k < made.len() ==> just_made(#[trigger] made[k], (first + k) as u32),
        forall|i: int| 0 <= i < s.len() ==> (#[trigger] s[i]).partition_id < first,
        rows.len() == made.len(),
        forall|k: int| 0 <= k < rows.len() ==> (#[trigger] rows[k]).len() == 0,
    ensures
        intact(made, next, rows, s),
        stored_ids(made, all_ids(rows)) == Set::<u64>::empty(),
{
    assert forall|k: int| 0 <= k < made.len() implies (#[trigger] all_ids(rows)[k]).len() == made[k].n_rows by {
        assert(just_made(made[k], (first + k) as u32));
        assert(rows[k].len() == 0);
    }
    assert forall|k: int| 0 <= k < made.len() implies (#[trigger] made[k]).partition_id < next by {
        assert(just_made(made[k], (first + k) as u32));
    }
    assert forall|i: int, j: int| 0 <= i < j < made.len() implies (#[trigger] made[i]).partition_id != (
    #[trigger] made[j]).partition_id by {
        assert(just_made(made[i], (first + i) as u32) && just_made(made[j], (first + j) as u32));
    }
    assert forall|i: int, k: int|
        0 <= i < s.len() && 0 <= k < made.len() implies (#[trigger] s[i]).partition_id != (
        #[trigger] made[k]).partition_id by {
        assert(just_made(made[k], (first + k) as u32));
    }
    assert forall|k: int, r: int| 0 <= k < made.len() implies !#[trigger] alive(made[k], r) by {
        assert(just_made(made[k], (first + k) as u32));
    }
    assert forall|k: int| 0 <= k < made.len() implies counts_rows(#[trigger] made[k], rows[k]) by {
        assert(just_made(made[k], (first + k) as u32));
        assert(rows[k].len() == 0);
        lemma_live_all(rows[k], made[k].dead@, 0);
    }
    assert(stored_ids(made, all_ids(rows)) =~= Set::<u64>::empty());
}

/// Building all partitions anew out of the live first copies keeps an index
/// intact, and every stored id.
pub proof fn law_rebuilding_keeps_intact(
    a: Seq<PartitionState>,
    made: Seq<PartitionState>,
    b: Seq<PartitionState>,
    next: u32,
    rows: Seq<Seq<Row>>,
    all: Seq<Row>,
    lists: Seq<Vec<u32>>,
    batches: Seq<RowBatch>,
    ng: int,
    width: int,
    s: Seq<RunEntry>,
    t: Seq<RunEntry>,
)
    requires
        intact(a, next, rows, s),
        next + made.len() <= u32::MAX,
        forall|k: int| 0 <= k < made.len() ==> just_made(#[trigger] made[k], (next + k) as u32),
        forall|k: int| 0 <= k < made.len() ==> (#[trigger] made[k]).wf(),
        forall|k: int| 0 <= k < b.len() ==> (#[trigger] b[k]).wf(),
        batch_ids(all) == primary_ids(a, rows, a.len() as int),
        batches.len() == made.len(),
        lists.len() >= all.len(),
        forall|i: int| 0 <= i < all.len() ==> (#[trigger] lists[i])@.len() > 0,
        forall|i: int, d: int|
            0 <= i < all.len() && 0 <= d < lists[i]@.len() ==> #[trigger] lists[i]@[d] < batches.len(),
        forall|k: int| 0 <= k < batches.len() ==> (#[trigger] batches[k])@ == spread_to(all, lists, k),
        all_appended(made, b, batches, ng, width),
        forall|e: RunEntry| #[trigger]
            t.contains(e) <==> s.contains(e) || entries_upto(made, batches, made.len() as int).contains(e),
    ensures
        ({
            let now = grown_rows(Seq::new(made.len(), |k: int| Seq::<Row>::empty()), batches);
            &&& intact(b, (next + made.len()) as u32, now, t)
            &&& stored_ids(b, all_ids(now)) == stored_ids(a, all_ids(rows))
        }),
{
    let none = Seq::new(made.len(), |k: int| Seq::<Row>::empty());
    let now = grown_rows(none, batches);
    let after = (next + made.len()) as u32;
    let list = primary_ids(a, rows, a.len() as int);
    lemma_made(made, next, after, none, s);
    assert forall|k: int| 0 <= k < a.len() implies (#[trigger] rows[k]).len() == a[k].n_rows && a[k].live_primary
        == primary_count(live_of(rows[k], a[k].dead@, 0, false)) by {
        assert(counts_rows(a[k], rows[k]));
    }
    assert forall|k: int| 0 <= k < a.len() implies (#[trigger] a[k]).live_primary == primary_count(
        live_of(rows[k], a[k].dead@, 0, false),
    ) by {
        assert(counts_rows(a[k], rows[k]));
    }
    lemma_primary_ids(a, rows, a.len() as int);
    assert forall|i: int, j: int| 0 <= i < all.len() && 0 <= j < all.len() && i != j implies all[i].id != all[j].id by {
        assert(batch_ids(all)[i] == all[i].id && batch_ids(all)[j] == all[j].id);
        assert(list.len() == all.len());
        assert(list[i] != list[j]);
    }
    assert forall|i: int| 0 <= i < all.len() implies (#[trigger] lists[i])@.len() > 0 && lists[i]@[0]
        < batches.len() by {
        assert(lists[i]@[0] < batches.len());
    }
    law_ingest_keeps_intact(made, b, after, none, all, lists, batches, ng, width, s, t);
    lemma_grown_index(made, b, after, none, batches, ng, width, s, t);
    assert forall|id: u64| stored(b, all_ids(now), id) <==> stored(a, all_ids(rows), id) by {
        law_lists_deliver(all, lists, batches, id);
        assert(stored_ids(made, all_ids(none)).contains(id) <==> stored(made, all_ids(none), id));
        if batch_ids(all).contains(id) {
            let i = choose|i: int| 0 <= i < list.len() && list[i] == id;
            assert(listed_before(a, rows, a.len() as int, list[i]));
            let (j, q) = choose|j: int, q: int|
                #[trigger] primary_at(a, rows, j, q) && j < a.len() && rows[j][q].id == id;
            assert(alive(a[j], q) && all_ids(rows)[j][q] == id);
        }
        if stored(a, all_ids(rows), id) {
            let (k, r) = choose|k: int, r: int|
                0 <= k < a.len() && #[trigger] alive(a[k], r) && all_ids(rows)[k][r] == id;
            assert(all_ids(rows)[k].len() == a[k].n_rows);
            assert(has_primary(a, rows, rows[k][r].id));
            let (j, q) = choose|j: int, q: int| #[trigger] primary_at(a, rows, j, q) && rows[j][q].id == id;
            assert(list.contains(rows[j][q].id));
        }
    }
    assert(stored_ids(b, all_ids(now)) =~= stored_ids(a, all_ids(rows)));
}

/// No id has two first copies in a segment, and every id has one.
pub open spec fn one_home(s: Segment) -> bool {
    &&& forall|i: int, j: int|
        0 <= i < s.ids@.len() && 0 <= j < s.ids@.len() && !s.replica@[i] && !s.replica@[j] && (#[trigger] s.ids@[i])
            == (#[trigger] s.ids@[j]) ==> i == j
    &&& forall|i: int| 0 <= i < s.ids@.len() ==> first_copy_of(s, #[trigger] s.ids@[i])
}

/// Some slot holds the first copy of this id.
pub open spec fn first_copy_of(s: Segment, id: u64) -> bool {
    exists|j: int| 0 <= j < s.ids@.len() && !s.replica@[j] && #[trigger] s.ids@[j] == id
}

/// The rows of each partition of a segment.
pub open spec fn rows_by_partition(s: Segment) -> Seq<Seq<Row>> {
    Seq::new(s.counts@.len(), |p: int| rows_of_partition(s, p))
}

/// The partition that a slot belongs to.
proof fn lemma_slot_home(s: Segment, slot: int, k: int) -> (p: int)
    requires
        s.shaped(),
        0 <= k <= s.counts@.len(),
        0 <= slot < rows_before(s.counts@, k),
    ensures
        0 <= p < k,
        rows_before(s.counts@, p) <= slot < rows_before(s.counts@, p + 1),
    decreases k,
{
    if slot >= rows_before(s.counts@, k - 1) {
        k - 1
    } else {
        lemma_slot_home(s, slot, k - 1)
    }
}

/// The first partitions of an import, and their entries.
proof fn lemma_imported(s: Segment, parts: Seq<PartitionState>, ng: int, width: int, n: int)
    requires
        importable(s),
        0 <= n <= s.counts@.len(),
        parts.len() == s.counts@.len(),
        forall|p: int| 0 <= p < parts.len() ==> (#[trigger] parts[p]).wf(),
        forall|p: int|
            0 <= p < parts.len() ==> imported(#[trigger] parts[p], p as u32, rows_of_partition(s, p), ng, width),
    ensures
        indexed(parts.take(n), n as u32, all_ids(rows_by_partition(s).take(n)), imported_entries(s, n)),
        flagged(parts.take(n), rows_by_partition(s).take(n), imported_entries(s, n)),
        all_counted(parts.take(n), rows_by_partition(s).take(n)),
    decreases n,
{
    let rows = rows_by_partition(s);
    if n == 0 {
        assert(parts.take(0) =~= Seq::<PartitionState>::empty());
        assert(imported_entries(s, 0) =~= Seq::<RunEntry>::empty());
    } else {
        let k = n - 1;
        let p = parts[k];
        let more = rows_of_partition(s, k);
        lemma_imported(s, parts, ng, width, k);
        assert(parts.take(n) =~= parts.take(k).push(p));
        assert(rows.take(n) =~= rows.take(k).push(more));
        assert(imported(parts[k], k as u32, rows_of_partition(s, k), ng, width));
        assert(filled(p, k as u32, more)) by {
            if more.len() == 0 {
                assert(p.dead@.len() == 0);
                assert(primary_count(more) == 0);
            }
        }
        assert(parts[k].wf());
        lemma_joined_entries(imported_entries(s, k), new_entries(more, k as u32, 0, 0));
        lemma_filled_partition(
            parts.take(k),
            k as u32,
            rows.take(k),
            imported_entries(s, k),
            imported_entries(s, n),
            p,
            more,
        );
    }
}

/// Row `r` of partition `k` of an import is that of a slot.
proof fn lemma_imported_row(s: Segment, parts: Seq<PartitionState>, ng: int, width: int, k: int, r: int)
    requires
        importable(s),
        parts.len() == s.counts@.len(),
        forall|p: int|
            0 <= p < parts.len() ==> imported(#[trigger] parts[p], p as u32, rows_of_partition(s, p), ng, width),
        0 <= k < parts.len(),
        0 <= r < rows_before(s.counts@, k + 1) - rows_before(s.counts@, k),
    ensures
        0 <= rows_before(s.counts@, k) + r < s.ids@.len(),
        r < parts[k].n_rows,
        alive(parts[k], r),
        rows_by_partition(s)[k][r].id == s.ids@[rows_before(s.counts@, k) + r],
        rows_by_partition(s)[k][r].replica == s.replica@[rows_before(s.counts@, k) + r],
{
    let n = s.counts@.len() as int;
    assert(imported(parts[k], k as u32, rows_of_partition(s, k), ng, width));
    lemma_rows_before_monotone(s.counts@, 0, k);
    lemma_rows_before_monotone(s.counts@, k + 1, n);
    assert(rows_of_partition(s, k).len() == rows_before(s.counts@, k + 1) - rows_before(s.counts@, k));
    assert(!marked(parts[k].dead@, r));
}

/// The number of rows of a partition of an import.
proof fn lemma_imported_len(s: Segment, parts: Seq<PartitionState>, ng: int, width: int, k: int)
    requires
        importable(s),
        parts.len() == s.counts@.len(),
        forall|p: int|
            0 <= p < parts.len() ==> imported(#[trigger] parts[p], p as u32, rows_of_partition(s, p), ng, width),
        0 <= k < parts.len(),
    ensures
        parts[k].n_rows == rows_before(s.counts@, k + 1) - rows_before(s.counts@, k),
{
    let n = s.counts@.len() as int;
    assert(imported(parts[k], k as u32, rows_of_partition(s, k), ng, width));
    lemma_rows_before_monotone(s.counts@, 0, k);
    lemma_rows_before_monotone(s.counts@, k, k + 1);
    lemma_rows_before_monotone(s.counts@, k + 1, n);
}

/// First copies of one id in an import are the same row.
proof fn lemma_imported_apart(
    s: Segment,
    parts: Seq<PartitionState>,
    ng: int,
    width: int,
    k: int,
    r: int,
    j: int,
    q: int,
)
    requires
        importable(s),
        parts.len() == s.counts@.len(),
        forall|p: int|
            0 <= p < parts.len() ==> imported(#[trigger] parts[p], p as u32, rows_of_partition(s, p), ng, width),
        one_home(s),
        primary_at(parts, rows_by_partition(s), k, r),
        primary_at(parts, rows_by_partition(s), j, q),
        rows_by_partition(s)[k][r].id == rows_by_partition(s)[j][q].id,
    ensures
        k == j,
        r == q,
{
    lemma_imported_len(s, parts, ng, width, k);
    lemma_imported_len(s, parts, ng, width, j);
    lemma_imported_row(s, parts, ng, width, k, r);
    lemma_imported_row(s, parts, ng, width, j, q);
    let a = rows_before(s.counts@, k) + r;
    let b = rows_before(s.counts@, j) + q;
    assert(s.ids@[a] == s.ids@[b]);
    assert(a == b);
    if k < j {
        lemma_rows_before_monotone(s.counts@, k + 1, j);
    } else if j < k {
        lemma_rows_before_monotone(s.counts@, j + 1, k);
    }
}

/// The id of a row of an import has a first copy.
proof fn lemma_imported_home(s: Segment, parts: Seq<PartitionState>, ng: int, width: int, k: int, r: int)
    requires
        importable(s),
        parts.len() == s.counts@.len(),
        forall|p: int|
            0 <= p < parts.len() ==> imported(#[trigger] parts[p], p as u32, rows_of_partition(s, p), ng, width),
        one_home(s),
        0 <= k < parts.len(),
        alive(parts[k], r),
    ensures
        has_primary(parts, rows_by_partition(s), rows_by_partition(s)[k][r].id),
{
    let n = s.counts@.len() as int;
    lemma_imported_len(s, parts, ng, width, k);
    lemma_imported_row(s, parts, ng, width, k, r);
    let a = rows_before(s.counts@, k) + r;
    assert(first_copy_of(s, s.ids@[a]));
    let slot = choose|slot: int| 0 <= slot < s.ids@.len() && !s.replica@[slot] && #[trigger] s.ids@[slot] == s.ids@[a];
    let j = lemma_slot_home(s, slot, n);
    let q = slot - rows_before(s.counts@, j);
    lemma_imported_row(s, parts, ng, width, j, q);
    assert(primary_at(parts, rows_by_partition(s), j, q));
}

/// An index that was made from the contents of a segment is intact, with the
/// segment's rows, if no id has two first copies there and every id has one.
pub proof fn law_imported_index_is_intact(s: Segment, x: FreshIndex)
    requires
        importable(s),
        one_home(s),
        x.wf(),
        x.partitions@.len() == s.counts@.len(),
        forall|p: int|
            0 <= p < s.counts@.len() ==> imported(
                #[trigger] x.partitions@[p],
                p as u32,
                rows_of_partition(s, p),
                x.ng(),
                x.stored(),
            ),
        x.next_partition_id == s.counts@.len(),
        x.memtable.ids@.len() == 0,
        imported_entries(s, s.counts@.len() as int).len() <= u64::MAX,
        imported_entries(s, s.counts@.len() as int).len() > 0 ==> x.runs@.len() == 1 && entries_in(
            x.runs@[0].bytes@,
        ) == by_id(imported_entries(s, s.counts@.len() as int)),
        imported_entries(s, s.counts@.len() as int).len() == 0 ==> x.runs@.len() == 0,
    ensures
        x.intact(rows_by_partition(s)),
{
    let n = s.counts@.len() as int;
    let parts = x.partitions@;
    let rows = rows_by_partition(s);
    let entries = imported_entries(s, n);
    let t = newest_first(tables(x.runs@));
    assert forall|p: int| 0 <= p < parts.len() implies (#[trigger] parts[p]).wf() by {}
    lemma_imported(s, parts, x.ng(), x.stored(), n);
    assert(parts.take(n) =~= parts);
    assert(rows.take(n) =~= rows);
    assert(one_primary(parts, rows)) by {
        assert forall|k: int, r: int, j: int, q: int|
            #[trigger] primary_at(parts, rows, k, r) && #[trigger] primary_at(parts, rows, j, q) && rows[k][r].id
                == rows[j][q].id implies k == j && r == q by {
            lemma_imported_apart(s, parts, x.ng(), x.stored(), k, r, j, q);
        }
        assert forall|k: int, r: int| 0 <= k < parts.len() && #[trigger] alive(parts[k], r) implies has_primary(
            parts,
            rows,
            rows[k][r].id,
        ) by {
            lemma_imported_home(s, parts, x.ng(), x.stored(), k, r);
        }
    }
    assert forall|e: RunEntry| #[trigger] t.contains(e) <==> entries.contains(e) by {
        let none = Seq::<Seq<RunEntry>>::empty();
        assert(newest_first(none) =~= Seq::<RunEntry>::empty());
        if entries.len() > 0 {
            assert(tables(x.runs@) =~= none.push(by_id(entries)));
            lemma_pushed_run(none, entries, e);
        } else {
            assert(tables(x.runs@) =~= none);
        }
    }
    lemma_same_entries(parts, x.next_partition_id, rows, entries, t);
    assert(x.memtable.ids@.to_set() =~= Set::<u64>::empty());
}

/// In a segment whose written file is consistent no id has two first copies,
/// and every id has one.
pub proof fn law_consistent_segment_has_one_home(s: Segment)
    requires
        s.wf(),
        consistent(s.file()),
    ensures
        one_home(s),
{
    let file = s.file();
    lemma_file_values(s);
    lemma_id_tables(s);
    lemma_slot_headroom(s);
    lemma_sorted_ids(s.ids@);
    assert forall|i: int| 0 <= i < s.ids@.len() implies #[trigger] replicas_in(file)[i] == s.replica@[i] by {
        lemma_bitmap_bit(s.replica@, i);
    }
    assert forall|i: int, j: int|
        0 <= i < s.ids@.len() && 0 <= j < s.ids@.len() && !s.replica@[i] && !s.replica@[j] && (#[trigger] s.ids@[i])
            == (#[trigger] s.ids@[j]) implies i == j by {
        assert(replicas_in(file)[i] == s.replica@[i] && replicas_in(file)[j] == s.replica@[j]);
        assert(is_primary(file, i, s.ids@[i]) && is_primary(file, j, s.ids@[i]));
    }
    assert forall|i: int| 0 <= i < s.ids@.len() implies first_copy_of(s, #[trigger] s.ids@[i]) by {
        assert(s.ids@.contains(s.ids@[i]));
        assert(s.ids@.to_set().contains(s.ids@[i]));
        assert(ids_in(file).contains(s.ids@[i]));
        let a = choose|a: int| #[trigger] is_primary(file, a, s.ids@[i]);
        assert(replicas_in(file)[a] == s.replica@[a]);
        assert(s.ids@[a] == s.ids@[i]);
    }
}

} // verus!
