//! A flush moves rows without losing any id.
use vstd::prelude::*;
use crate::batch::{copies_to, law_distribute_keeps_rows, sent_to, spread_to, Row, RowBatch};
use crate::bits::marked;
use crate::copies::{copies_of, current, lemma_place, newest_first, place, tables, CopyLocation, MAX_RUNS};
use crate::copies_laws::{has_copy, law_lookup_finds_all_copies, lemma_newest_first, total};
use crate::flush::{appended, memtable_rows, new_entries};
use crate::fresh::{base_ids, ids_ok, FreshIndex};
use crate::indexed::{
    alive, batch_ids, delivered, grown_ids, indexed, law_append_keeps_index, law_lookups_agree_with_rows,
    law_tidying_keeps_index, names, stored, stored_ids,
};
use crate::ingest::{all_appended, entries_upto, runs_after};
use crate::partition::{PartitionState, MAX_ROWS};
use crate::runs::{by_id, law_by_id, RunEntry};

verus! {

/// Appending leaves every place.
proof fn lemma_appended_place(
    a: Seq<PartitionState>,
    b: Seq<PartitionState>,
    batches: Seq<RowBatch>,
    ng: int,
    width: int,
    partition_id: u32,
)
    requires
        all_appended(a, b, batches, ng, width),
    ensures
        place(a, partition_id) == place(b, partition_id),
{
    assert forall|i: int| 0 <= i < a.len() implies (#[trigger] a[i]).partition_id == b[i].partition_id by {
        assert(appended(a[i], b[i], batches[i]@, ng, width));
    }
    crate::copies_laws::lemma_place_same(a, b, partition_id, 0);
}

/// Rows that were there are still there after rows are appended.
pub proof fn law_appending_keeps_rows(
    a: Seq<PartitionState>,
    b: Seq<PartitionState>,
    batches: Seq<RowBatch>,
    ng: int,
    width: int,
    e: RunEntry,
)
    requires
        all_appended(a, b, batches, ng, width),
        current(a, e),
    ensures
        current(b, e),
{
    lemma_appended_place(a, b, batches, ng, width, e.partition_id);
    lemma_place(a, e.partition_id, 0);
    let p = place(a, e.partition_id);
    assert(appended(a[p], b[p], batches[p]@, ng, width));
    if batches[p]@.len() > 0 {
        assert(marked(b[p].dead@, e.row as int) == marked(a[p].dead@, e.row as int));
    }
}

/// The entry of row `i` of batch `k` is among the collected ones.
pub proof fn lemma_entry_collected(
    parts: Seq<PartitionState>,
    batches: Seq<RowBatch>,
    n: int,
    k: int,
    i: int,
)
    requires
        0 <= k < n,
        0 <= i < batches[k]@.len(),
    ensures
        entries_upto(parts, batches, n).contains(
            new_entries(
                batches[k]@,
                parts[k].partition_id,
                parts[k].generation,
                parts[k].n_rows as int,
            )[i],
        ),
    decreases n,
{
    let want = new_entries(batches[k]@, parts[k].partition_id, parts[k].generation, parts[k].n_rows as int)[i];
    let init = entries_upto(parts, batches, n - 1);
    let all = entries_upto(parts, batches, n);
    if k < n - 1 {
        lemma_entry_collected(parts, batches, n - 1, k, i);
        let j = choose|j: int| 0 <= j < init.len() && init[j] == want;
        assert(all[j] == want);
    } else {
        assert(all[init.len() + i] == want);
    }
}

/// A row that was just written is found by its entry.
pub proof fn law_written_rows_are_current(
    a: Seq<PartitionState>,
    b: Seq<PartitionState>,
    batches: Seq<RowBatch>,
    ng: int,
    width: int,
    next: u32,
    k: int,
    i: int,
)
    requires
        ids_ok(a, next),
        forall|j: int| 0 <= j < a.len() ==> (#[trigger] a[j]).wf(),
        forall|j: int| 0 <= j < b.len() ==> (#[trigger] b[j]).wf(),
        all_appended(a, b, batches, ng, width),
        0 <= k < a.len(),
        0 <= i < batches[k]@.len(),
    ensures
        current(
            b,
            new_entries(batches[k]@, a[k].partition_id, a[k].generation, a[k].n_rows as int)[i],
        ),
{
    let e = new_entries(batches[k]@, a[k].partition_id, a[k].generation, a[k].n_rows as int)[i];
    assert(appended(a[k], b[k], batches[k]@, ng, width));
    lemma_appended_place(a, b, batches, ng, width, e.partition_id);
    assert forall|j: int| 0 <= j < k implies (#[trigger] a[j]).partition_id != e.partition_id by {
        assert(a[j].partition_id != a[k].partition_id);
    }
    crate::copies::lemma_place_is(a, e.partition_id, k);
    assert(a[k].wf() && b[k].wf());
    let row = a[k].n_rows + i;
    assert(row < b[k].n_rows && b[k].n_rows <= MAX_ROWS);
    assert(e.row == row);
    assert(!marked(a[k].dead@, row));
    assert(marked(b[k].dead@, row) == marked(a[k].dead@, row));
}

/// One more run finds what it names, and what the others found.
pub proof fn lemma_pushed_run(all: Seq<Seq<RunEntry>>, entries: Seq<RunEntry>, e: RunEntry)
    requires
        entries.len() <= u64::MAX,
    ensures
        newest_first(all.push(by_id(entries))).contains(e) <==> newest_first(all).contains(e) || entries.contains(e),
{
    let grown = all.push(by_id(entries));
    lemma_newest_first(all, e);
    lemma_newest_first(grown, e);
    law_by_id(entries);
    if newest_first(grown).contains(e) {
        let t = choose|t: int| 0 <= t < grown.len() && (#[trigger] grown[t]).contains(e);
        if t < all.len() {
            assert(grown[t] == all[t]);
        } else {
            let i = choose|i: int| 0 <= i < by_id(entries).len() && by_id(entries)[i] == e;
            assert(entries.contains(by_id(entries)[i]));
        }
    }
    if newest_first(all).contains(e) {
        let t = choose|t: int| 0 <= t < all.len() && (#[trigger] all[t]).contains(e);
        assert(grown[t] == all[t]);
    }
    if entries.contains(e) {
        let i = choose|i: int| 0 <= i < entries.len() && entries[i] == e;
        assert(by_id(entries).contains(entries[i]));
        assert(grown[all.len() as int] == by_id(entries));
        assert(grown[all.len() as int].contains(e));
    }
}

/// The row is `of`, perhaps as a replica.
pub open spec fn copies_row(row: Row, of: Row) -> bool {
    row == (Row { replica: row.replica, ..of })
}

/// Every row is a copy of one of `of`.
pub open spec fn all_copies(rows: Seq<Row>, of: Seq<Row>) -> bool {
    forall|i: int| 0 <= i < rows.len() ==> is_copy(#[trigger] rows[i], of)
}

/// The row is a copy of one of `of`.
pub open spec fn is_copy(row: Row, of: Seq<Row>) -> bool {
    exists|x: int| 0 <= x < of.len() && copies_row(row, #[trigger] of[x])
}

proof fn lemma_copy_of_more(row: Row, of: Seq<Row>)
    requires
        of.len() > 0,
        is_copy(row, of.drop_last()),
    ensures
        is_copy(row, of),
{
    let x = choose|x: int| 0 <= x < of.drop_last().len() && copies_row(row, #[trigger] of.drop_last()[x]);
    assert(copies_row(row, of[x]));
}

/// Rows that are sent out are copies.
proof fn lemma_sent_copies(rows: Seq<Row>, places: Seq<u32>, k: int)
    ensures
        all_copies(sent_to(rows, places, k), rows),
    decreases rows.len(),
{
    if rows.len() > 0 {
        let n = rows.len() - 1;
        let init = rows.drop_last();
        let a = sent_to(init, places, k);
        let b = sent_to(rows, places, k);
        lemma_sent_copies(init, places, k);
        assert forall|i: int| 0 <= i < b.len() implies is_copy(#[trigger] b[i], rows) by {
            if i < a.len() {
                assert(b[i] == a[i]);
                lemma_copy_of_more(a[i], rows);
            } else {
                assert(copies_row(b[i], rows[n]));
            }
        }
    }
}

/// Where every row has a place, the batches hold copies of the rows and deliver
/// all their ids.
pub proof fn law_places_deliver(rows: Seq<Row>, places: Seq<u32>, batches: Seq<RowBatch>, id: u64)
    requires
        places.len() >= rows.len(),
        forall|i: int| 0 <= i < rows.len() ==> #[trigger] places[i] < batches.len(),
        forall|k: int| 0 <= k < batches.len() ==> (#[trigger] batches[k])@ == sent_to(rows, places, k),
    ensures
        delivered(batches, id) <==> batch_ids(rows).contains(id),
        forall|k: int| 0 <= k < batches.len() ==> all_copies((#[trigger] batches[k])@, rows),
{
    assert forall|k: int| 0 <= k < batches.len() implies all_copies((#[trigger] batches[k])@, rows) by {
        lemma_sent_copies(rows, places, k);
    }
    if delivered(batches, id) {
        let (k, i) = choose|k: int, i: int|
            0 <= k < batches.len() && 0 <= i < batches[k]@.len() && #[trigger] batches[k]@[i].id == id;
        assert(all_copies(batches[k]@, rows));
        assert(is_copy(batches[k]@[i], rows));
        let x = choose|x: int| 0 <= x < rows.len() && copies_row(batches[k]@[i], #[trigger] rows[x]);
        assert(batch_ids(rows)[x] == id);
    }
    if batch_ids(rows).contains(id) {
        let x = choose|x: int| 0 <= x < rows.len() && batch_ids(rows)[x] == id;
        law_distribute_keeps_rows(rows, places, batches.len() as int);
        let k = places[x] as int;
        assert(places[x] < batches.len());
        let row = Row { replica: false, ..rows[x] };
        assert(sent_to(rows, places, k).contains(row));
        assert(batches[k]@ == sent_to(rows, places, k));
        let i = choose|i: int| 0 <= i < batches[k]@.len() && batches[k]@[i] == row;
        assert(batches[k]@[i].id == id);
    }
}

proof fn lemma_list_copies(row: Row, list: Seq<u32>, p: int, n: int)
    requires
        0 <= n <= list.len(),
    ensures
        forall|i: int|
            0 <= i < copies_to(row, list, p, n).len() ==> copies_row(#[trigger] copies_to(row, list, p, n)[i], row),
        forall|d: int| 0 <= d < n && #[trigger] list[d] == p ==> copies_to(row, list, p, n).len() > 0,
    decreases n,
{
    if n > 0 {
        let a = copies_to(row, list, p, n - 1);
        let b = copies_to(row, list, p, n);
        lemma_list_copies(row, list, p, n - 1);
        assert forall|i: int| 0 <= i < b.len() implies copies_row(#[trigger] b[i], row) by {
            if i < a.len() {
                assert(b[i] == a[i]);
            }
        }
    }
}

/// Rows that are spread out are copies, and every row is spread.
proof fn lemma_spread_copies(rows: Seq<Row>, lists: Seq<Vec<u32>>, p: int)
    requires
        lists.len() >= rows.len(),
    ensures
        all_copies(spread_to(rows, lists, p), rows),
        forall|x: int, d: int|
            0 <= x < rows.len() && 0 <= d < lists[x]@.len() && #[trigger] lists[x]@[d] == p ==> exists|i: int|
                0 <= i < spread_to(rows, lists, p).len() && (#[trigger] spread_to(rows, lists, p)[i]).id
                    == rows[x].id,
    decreases rows.len(),
{
    if rows.len() > 0 {
        let n = rows.len() - 1;
        let init = rows.drop_last();
        let list = lists[n]@;
        let a = spread_to(init, lists, p);
        let c = copies_to(rows.last(), list, p, list.len() as int);
        let b = spread_to(rows, lists, p);
        lemma_spread_copies(init, lists, p);
        lemma_list_copies(rows.last(), list, p, list.len() as int);
        assert(b == a + c);
        assert forall|i: int| 0 <= i < b.len() implies is_copy(#[trigger] b[i], rows) by {
            if i < a.len() {
                assert(b[i] == a[i]);
                lemma_copy_of_more(a[i], rows);
            } else {
                assert(b[i] == c[i - a.len()]);
                assert(copies_row(b[i], rows[n]));
            }
        }
        assert forall|x: int, d: int|
            0 <= x < rows.len() && 0 <= d < lists[x]@.len() && #[trigger] lists[x]@[d] == p implies exists|i: int|
            0 <= i < b.len() && (#[trigger] b[i]).id == rows[x].id by {
            if x < n {
                let i = choose|i: int| 0 <= i < a.len() && (#[trigger] a[i]).id == init[x].id;
                assert(b[i] == a[i]);
            } else {
                assert(c.len() > 0);
                assert(b[a.len() as int] == c[0]);
            }
        }
    }
}

/// Where every row has at least one place, the batches hold copies of the rows
/// and deliver all their ids.
pub proof fn law_lists_deliver(rows: Seq<Row>, lists: Seq<Vec<u32>>, batches: Seq<RowBatch>, id: u64)
    requires
        lists.len() >= rows.len(),
        forall|i: int| 0 <= i < rows.len() ==> (#[trigger] lists[i])@.len() > 0,
        forall|i: int, d: int|
            0 <= i < rows.len() && 0 <= d < lists[i]@.len() ==> #[trigger] lists[i]@[d] < batches.len(),
        forall|k: int| 0 <= k < batches.len() ==> (#[trigger] batches[k])@ == spread_to(rows, lists, k),
    ensures
        delivered(batches, id) <==> batch_ids(rows).contains(id),
        forall|k: int| 0 <= k < batches.len() ==> all_copies((#[trigger] batches[k])@, rows),
{
    assert forall|k: int| 0 <= k < batches.len() implies all_copies((#[trigger] batches[k])@, rows) by {
        lemma_spread_copies(rows, lists, k);
    }
    if delivered(batches, id) {
        let (k, i) = choose|k: int, i: int|
            0 <= k < batches.len() && 0 <= i < batches[k]@.len() && #[trigger] batches[k]@[i].id == id;
        assert(all_copies(batches[k]@, rows));
        assert(is_copy(batches[k]@[i], rows));
        let x = choose|x: int| 0 <= x < rows.len() && copies_row(batches[k]@[i], #[trigger] rows[x]);
        assert(batch_ids(rows)[x] == id);
    }
    if batch_ids(rows).contains(id) {
        let x = choose|x: int| 0 <= x < rows.len() && batch_ids(rows)[x] == id;
        assert(lists[x]@.len() > 0);
        let k = lists[x]@[0] as int;
        assert(lists[x]@[0] < batches.len());
        lemma_spread_copies(rows, lists, k);
        let i = choose|i: int|
            0 <= i < spread_to(rows, lists, k).len() && (#[trigger] spread_to(rows, lists, k)[i]).id == rows[x].id;
        assert(batches[k]@ == spread_to(rows, lists, k));
        assert(batches[k]@[i].id == id);
    }
}

/// Distributing the memtable over the partitions and sealing the flush keeps
/// the live ids: the lookups of the new state find exactly what was live
/// before, and stay in step with the rows.
pub proof fn law_flush_keeps_ids(
    before: FreshIndex,
    placed: FreshIndex,
    after: FreshIndex,
    ids: Seq<Seq<u64>>,
    batches: Seq<RowBatch>,
)
    requires
        before.wf(),
        placed.wf(),
        indexed(before.partitions@, before.next_partition_id, ids, newest_first(tables(before.runs@))),
        batches.len() == before.partitions@.len(),
        forall|id: u64| #[trigger] delivered(batches, id) <==> before.memtable.ids@.contains(id),
        all_appended(
            before.partitions@,
            placed.partitions@,
            batches,
            before.ng(),
            before.stored(),
        ),
        after.partitions@ == placed.partitions@,
        tables(after.runs@) == runs_after(
            placed.partitions@,
            tables(before.runs@),
            entries_upto(before.partitions@, batches, batches.len() as int),
        ),
        total(tables(before.runs@)) + entries_upto(
            before.partitions@,
            batches,
            batches.len() as int,
        ).len() <= u64::MAX,
    ensures
        base_ids(after.partitions@, after.runs@) == before.live(),
        indexed(
            after.partitions@,
            before.next_partition_id,
            grown_ids(ids, batches),
            newest_first(tables(after.runs@)),
        ),
{
    let a = before.partitions@;
    let b = placed.partitions@;
    let next = before.next_partition_id;
    let n = batches.len() as int;
    let entries = entries_upto(a, batches, n);
    let all = tables(before.runs@);
    let grown = if entries.len() > 0 {
        all.push(by_id(entries))
    } else {
        all
    };
    let now = grown_ids(ids, batches);
    lemma_total_push(all, entries);
    assert forall|e: RunEntry| #[trigger] newest_first(grown).contains(e) <==> newest_first(all).contains(e)
        || entries.contains(e) by {
        lemma_pushed_run(all, entries, e);
    }
    law_append_keeps_index(
        a,
        b,
        next,
        ids,
        batches,
        before.ng(),
        before.stored(),
        newest_first(all),
        newest_first(grown),
    );
    if grown.len() > MAX_RUNS {
        law_tidying_keeps_index(b, next, now, grown);
    }
    assert forall|k: int| 0 <= k < a.len() implies (#[trigger] a[k]).n_rows <= MAX_ROWS by {
        assert(a[k].wf());
    }
    assert forall|k: int| 0 <= k < b.len() implies (#[trigger] b[k]).n_rows <= MAX_ROWS by {
        assert(b[k].wf());
    }
    law_lookups_agree_with_rows(a, next, ids, before.runs@);
    law_lookups_agree_with_rows(b, next, now, after.runs@);
    assert forall|id: u64| base_ids(b, after.runs@).contains(id) <==> before.live().contains(id) by {
        assert(stored_ids(b, now).contains(id) <==> stored(b, now, id));
        assert(stored_ids(a, ids).contains(id) <==> stored(a, ids, id));
        assert(delivered(batches, id) <==> before.memtable.ids@.contains(id));
    }
    assert(base_ids(after.partitions@, after.runs@) =~= before.live());
}

/// The rows after each partition got its batch.
pub open spec fn grown_rows(rows: Seq<Seq<Row>>, batches: Seq<RowBatch>) -> Seq<Seq<Row>> {
    Seq::new(rows.len(), |k: int| rows[k] + batches[k]@)
}

/// The ids of all rows.
pub open spec fn all_ids(rows: Seq<Seq<Row>>) -> Seq<Seq<u64>> {
    Seq::new(rows.len(), |k: int| batch_ids(rows[k]))
}

/// After a flush, a lookup of an id that was in the memtable leads to the
/// memtable's row: its codes, its scale and its vector.
pub proof fn law_flush_keeps_rows(
    before: FreshIndex,
    placed: FreshIndex,
    after: FreshIndex,
    rows: Seq<Seq<Row>>,
    batches: Seq<RowBatch>,
    x: int,
    c: CopyLocation,
)
    requires
        before.wf(),
        placed.wf(),
        before.memtable.ids@.to_set().disjoint(base_ids(before.partitions@, before.runs@)),
        indexed(
            before.partitions@,
            before.next_partition_id,
            all_ids(rows),
            newest_first(tables(before.runs@)),
        ),
        batches.len() == before.partitions@.len(),
        forall|id: u64| #[trigger] delivered(batches, id) <==> before.memtable.ids@.contains(id),
        forall|k: int|
            0 <= k < batches.len() ==> all_copies(
                (#[trigger] batches[k])@,
                memtable_rows(before.memtable, before.bit_width as int, before.store_vectors),
            ),
        all_appended(
            before.partitions@,
            placed.partitions@,
            batches,
            before.ng(),
            before.stored(),
        ),
        after.partitions@ == placed.partitions@,
        tables(after.runs@) == runs_after(
            placed.partitions@,
            tables(before.runs@),
            entries_upto(before.partitions@, batches, batches.len() as int),
        ),
        total(tables(before.runs@)) + entries_upto(
            before.partitions@,
            batches,
            batches.len() as int,
        ).len() <= u64::MAX,
        0 <= x < before.memtable.ids@.len(),
        copies_of(after.partitions@, after.runs@, before.memtable.ids@[x]).contains(c),
    ensures
        ({
            let k = place(after.partitions@, c.partition_id);
            &&& 0 <= k < after.partitions@.len()
            &&& c.row < grown_rows(rows, batches)[k].len()
            &&& copies_row(
                grown_rows(rows, batches)[k][c.row as int],
                memtable_rows(before.memtable, before.bit_width as int, before.store_vectors)[x],
            )
        }),
{
    let a = before.partitions@;
    let b = placed.partitions@;
    let next = before.next_partition_id;
    let ids = all_ids(rows);
    let id = before.memtable.ids@[x];
    let mine = memtable_rows(before.memtable, before.bit_width as int, before.store_vectors);
    let s = newest_first(tables(after.runs@));
    law_flush_keeps_ids(before, placed, after, ids, batches);
    law_lookup_finds_all_copies(b, after.runs@, id);
    let copies = copies_of(b, after.runs@, id);
    let n = choose|n: int| 0 <= n < copies.len() && copies[n] == c;
    assert(copies[n].partition_id == c.partition_id && copies[n].row == c.row);
    assert(has_copy(b, s, id, c.partition_id, c.row));
    let i = choose|i: int|
        0 <= i < s.len() && (#[trigger] s[i]).id == id && s[i].partition_id == c.partition_id && s[i].row == c.row
            && current(b, s[i]);
    let k = place(b, c.partition_id);
    lemma_place(b, c.partition_id, 0);
    assert(names(s[i], b[k], s[i].row as int));
    assert(alive(b[k], s[i].row as int));
    let now = grown_ids(ids, batches);
    let r = c.row as int;
    assert(now[k][r] == id);
    assert(appended(a[k], b[k], batches[k]@, before.ng(), before.stored()));
    assert(ids[k].len() == a[k].n_rows);
    assert(rows[k].len() == a[k].n_rows);
    if r < a[k].n_rows {
        assert(marked(b[k].dead@, r) == marked(a[k].dead@, r));
        assert(alive(a[k], r) && ids[k][r] == id);
        assert(stored(a, ids, id));
        assert forall|j: int| 0 <= j < a.len() implies (#[trigger] a[j]).n_rows <= MAX_ROWS by {
            assert(a[j].wf());
        }
        law_lookups_agree_with_rows(a, next, ids, before.runs@);
        assert(stored_ids(a, ids).contains(id));
        assert(before.memtable.ids@.contains(id));
        assert(before.memtable.ids@.to_set().contains(id));
    } else {
        let q = r - a[k].n_rows;
        assert(batch_ids(batches[k]@)[q] == id);
        assert(all_copies(batches[k]@, mine));
        assert(is_copy(batches[k]@[q], mine));
        let y = choose|y: int| 0 <= y < mine.len() && copies_row(batches[k]@[q], #[trigger] mine[y]);
        assert(mine[y].id == id && before.memtable.ids@[y] == before.memtable.ids@[x]);
        assert(before.memtable.ids@.no_duplicates());
        assert(y == x);
        assert(grown_rows(rows, batches)[k][r] == batches[k]@[q]);
    }
}

/// The number of entries after a run is pushed.
pub proof fn lemma_total_push(all: Seq<Seq<RunEntry>>, entries: Seq<RunEntry>)
    requires
        entries.len() <= u64::MAX,
    ensures
        total(all.push(by_id(entries))) == total(all) + entries.len(),
{
    let one = seq![by_id(entries)];
    law_by_id(entries);
    assert(all.push(by_id(entries)) =~= all + one);
    crate::copies_laws::lemma_total_add(all, one);
    assert(one.drop_first() =~= Seq::<Seq<RunEntry>>::empty());
    assert(newest_first(one.drop_first()).len() == 0);
    assert(total(one) == one[0].len());
}

} // verus!
