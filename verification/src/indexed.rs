//! Lookups by id agree with the rows that the partitions hold.
use vstd::prelude::*;
use crate::batch::{Row, RowBatch};
use crate::bits::marked;
use crate::copies::{
    carry, copies_of, current, lemma_place, lemma_place_is, merged_range, newest_first, place, surviving,
    tables, tidied, tier_merged, Run, RUN_TIER_BACKSTOP,
};
use crate::copies_laws::{
    agreeing, has_copy, law_lookup_finds_all_copies, law_tidying_keeps_copies, lemma_newest_first,
    lemma_surviving, total,
};
use crate::flush::{appended, new_entries};
use crate::fresh::{base_ids, ids_ok};
use crate::ingest::{all_appended, entries_upto};
use crate::partition::{lemma_live_at, live_at, live_of, wanted, PartitionState, MAX_ROWS};
use crate::partition_ops::folded;
use crate::runs::{by_id, law_by_id, RunEntry};

verus! {

/// The entry names row `r` of this version of the partition.
pub open spec fn names(e: RunEntry, p: PartitionState, r: int) -> bool {
    e.partition_id == p.partition_id && e.generation == p.generation && e.row == r
}

/// Some entry names row `r` of this version of the partition.
pub open spec fn covered(s: Seq<RunEntry>, p: PartitionState, r: int) -> bool {
    exists|i: int| 0 <= i < s.len() && names(#[trigger] s[i], p, r)
}

/// Row `r` exists and is alive.
pub open spec fn alive(p: PartitionState, r: int) -> bool {
    0 <= r < p.n_rows && !marked(p.dead@, r)
}

/// No entry names a row, a version or a partition that is still to come.
pub open spec fn settled(parts: Seq<PartitionState>, next: u32, s: Seq<RunEntry>) -> bool {
    &&& forall|i: int| 0 <= i < s.len() ==> (#[trigger] s[i]).partition_id < next
    &&& forall|i: int, k: int|
        0 <= i < s.len() && 0 <= k < parts.len() && (#[trigger] s[i]).partition_id == (
        #[trigger] parts[k]).partition_id ==> s[i].generation <= parts[k].generation && (s[i].generation
            == parts[k].generation ==> s[i].row < parts[k].n_rows)
}

/// An entry that names a live row gives that row's id.
pub open spec fn truthful(parts: Seq<PartitionState>, ids: Seq<Seq<u64>>, s: Seq<RunEntry>) -> bool {
    forall|i: int, k: int|
        0 <= i < s.len() && 0 <= k < parts.len() && names(
            #[trigger] s[i],
            #[trigger] parts[k],
            s[i].row as int,
        ) && alive(parts[k], s[i].row as int) ==> ids[k][s[i].row as int] == s[i].id
}

/// Every live row is named.
pub open spec fn covering(parts: Seq<PartitionState>, s: Seq<RunEntry>) -> bool {
    forall|k: int, r: int|
        0 <= k < parts.len() && #[trigger] alive(parts[k], r) ==> covered(s, parts[k], r)
}

/// There is an id for every row of every partition.
pub open spec fn ids_for(parts: Seq<PartitionState>, ids: Seq<Seq<u64>>) -> bool {
    &&& ids.len() == parts.len()
    &&& forall|k: int| 0 <= k < parts.len() ==> (#[trigger] ids[k]).len() == parts[k].n_rows
}

/// The entries `s` index the rows of the partitions, whose ids are `ids`.
pub open spec fn indexed(parts: Seq<PartitionState>, next: u32, ids: Seq<Seq<u64>>, s: Seq<RunEntry>) -> bool {
    &&& ids_ok(parts, next)
    &&& ids_for(parts, ids)
    &&& settled(parts, next, s)
    &&& truthful(parts, ids, s)
    &&& covering(parts, s)
}

/// Some live row has this id.
pub open spec fn stored(parts: Seq<PartitionState>, ids: Seq<Seq<u64>>, id: u64) -> bool {
    exists|k: int, r: int| 0 <= k < parts.len() && #[trigger] alive(parts[k], r) && ids[k][r] == id
}

/// The ids of the live rows.
pub open spec fn stored_ids(parts: Seq<PartitionState>, ids: Seq<Seq<u64>>) -> Set<u64> {
    Set::new(|id: u64| stored(parts, ids, id))
}

/// Where partition ids are distinct, each stands at its own place.
proof fn lemma_own_place(parts: Seq<PartitionState>, next: u32, k: int)
    requires
        ids_ok(parts, next),
        0 <= k < parts.len(),
    ensures
        place(parts, parts[k].partition_id) == k,
{
    assert forall|j: int| 0 <= j < k implies (#[trigger] parts[j]).partition_id != parts[k].partition_id by {}
    lemma_place_is(parts, parts[k].partition_id, k);
}

/// A current entry names a live row, and the other way round.
proof fn lemma_current(parts: Seq<PartitionState>, next: u32, e: RunEntry)
    requires
        ids_ok(parts, next),
    ensures
        current(parts, e) ==> {
            let k = place(parts, e.partition_id);
            0 <= k < parts.len() && names(e, parts[k], e.row as int) && alive(parts[k], e.row as int)
        },
        forall|k: int|
            0 <= k < parts.len() && names(e, #[trigger] parts[k], e.row as int) && alive(
                parts[k],
                e.row as int,
            ) ==> current(parts, e) && place(parts, e.partition_id) == k,
{
    lemma_place(parts, e.partition_id, 0);
    assert forall|k: int|
        0 <= k < parts.len() && names(e, #[trigger] parts[k], e.row as int) && alive(
            parts[k],
            e.row as int,
        ) implies current(parts, e) && place(parts, e.partition_id) == k by {
        lemma_own_place(parts, next, k);
    }
}

/// Entries that index rows do not contradict each other.
pub proof fn law_indexed_entries_agree(
    parts: Seq<PartitionState>,
    next: u32,
    ids: Seq<Seq<u64>>,
    s: Seq<RunEntry>,
)
    requires
        indexed(parts, next, ids, s),
    ensures
        agreeing(parts, s),
{
    assert forall|i: int, j: int|
        0 <= i < s.len() && 0 <= j < s.len() && current(parts, #[trigger] s[i]) && current(
            parts,
            #[trigger] s[j],
        ) && s[i].partition_id == s[j].partition_id && s[i].row == s[j].row implies s[i].id == s[j].id by {
        lemma_current(parts, next, s[i]);
        lemma_current(parts, next, s[j]);
        let k = place(parts, s[i].partition_id);
        assert(names(s[i], parts[k], s[i].row as int));
        assert(names(s[j], parts[k], s[j].row as int));
    }
}

/// A lookup finds an id exactly where a live row has it.
pub proof fn law_lookups_agree_with_rows(
    parts: Seq<PartitionState>,
    next: u32,
    ids: Seq<Seq<u64>>,
    runs: Seq<Run>,
)
    requires
        indexed(parts, next, ids, newest_first(tables(runs))),
        forall|k: int| 0 <= k < parts.len() ==> (#[trigger] parts[k]).n_rows <= MAX_ROWS,
    ensures
        base_ids(parts, runs) == stored_ids(parts, ids),
{
    let s = newest_first(tables(runs));
    assert forall|id: u64| base_ids(parts, runs).contains(id) <==> stored_ids(parts, ids).contains(id) by {
        law_lookup_finds_all_copies(parts, runs, id);
        let c = copies_of(parts, runs, id);
        if c.len() > 0 {
            assert(c[0].partition_id == c[0].partition_id);
            assert(has_copy(parts, s, id, c[0].partition_id, c[0].row));
            let i = choose|i: int|
                0 <= i < s.len() && (#[trigger] s[i]).id == id && s[i].partition_id == c[0].partition_id
                    && s[i].row == c[0].row && current(parts, s[i]);
            lemma_current(parts, next, s[i]);
            let k = place(parts, s[i].partition_id);
            assert(names(s[i], parts[k], s[i].row as int));
            assert(alive(parts[k], s[i].row as int) && ids[k][s[i].row as int] == id);
        }
        if stored(parts, ids, id) {
            let (k, r) = choose|k: int, r: int|
                0 <= k < parts.len() && #[trigger] alive(parts[k], r) && ids[k][r] == id;
            assert(covered(s, parts[k], r));
            let i = choose|i: int| 0 <= i < s.len() && names(#[trigger] s[i], parts[k], r);
            lemma_current(parts, next, s[i]);
            assert(names(s[i], parts[k], s[i].row as int));
            assert(s[i].id == id);
            assert(has_copy(parts, s, id, s[i].partition_id, s[i].row));
            assert(c.len() > 0);
        }
    }
    assert(base_ids(parts, runs) =~= stored_ids(parts, ids));
}

/// The ids after each partition got its batch.
pub open spec fn grown_ids(ids: Seq<Seq<u64>>, batches: Seq<RowBatch>) -> Seq<Seq<u64>> {
    Seq::new(ids.len(), |k: int| ids[k] + batch_ids(batches[k]@))
}

/// The ids of rows.
pub open spec fn batch_ids(rows: Seq<Row>) -> Seq<u64> {
    Seq::new(rows.len(), |i: int| rows[i].id)
}

/// Some batch has a row with this id.
pub open spec fn delivered(batches: Seq<RowBatch>, id: u64) -> bool {
    exists|k: int, i: int| 0 <= k < batches.len() && 0 <= i < batches[k]@.len() && #[trigger] batches[k]@[i].id == id
}

/// A collected entry is that of some row of some batch.
pub proof fn lemma_collected(parts: Seq<PartitionState>, batches: Seq<RowBatch>, n: int, e: RunEntry) -> (at: (int, int))
    requires
        entries_upto(parts, batches, n).contains(e),
    ensures
        0 <= at.0 < n,
        0 <= at.1 < batches[at.0]@.len(),
        e == new_entries(
            batches[at.0]@,
            parts[at.0].partition_id,
            parts[at.0].generation,
            parts[at.0].n_rows as int,
        )[at.1],
    decreases n,
{
    let all = entries_upto(parts, batches, n);
    let j = choose|j: int| 0 <= j < all.len() && all[j] == e;
    let init = entries_upto(parts, batches, n - 1);
    if j < init.len() {
        assert(init[j] == e);
        lemma_collected(parts, batches, n - 1, e)
    } else {
        (n - 1, j - init.len())
    }
}

/// The partitions after an append.
proof fn lemma_appended_facts(
    a: Seq<PartitionState>,
    b: Seq<PartitionState>,
    batches: Seq<RowBatch>,
    ng: int,
    width: int,
    k: int,
)
    requires
        all_appended(a, b, batches, ng, width),
        0 <= k < a.len(),
    ensures
        b[k].partition_id == a[k].partition_id,
        b[k].generation == a[k].generation,
        b[k].n_rows == a[k].n_rows + batches[k]@.len(),
        forall|r: int| 0 <= r ==> marked(b[k].dead@, r) == marked(a[k].dead@, r),
{
    assert(appended(a[k], b[k], batches[k]@, ng, width));
}

/// Appending rows and collecting their entries keeps an index in step, and
/// adds the ids of those rows and no others.
pub proof fn law_append_keeps_index(
    a: Seq<PartitionState>,
    b: Seq<PartitionState>,
    next: u32,
    ids: Seq<Seq<u64>>,
    batches: Seq<RowBatch>,
    ng: int,
    width: int,
    s: Seq<RunEntry>,
    t: Seq<RunEntry>,
)
    requires
        indexed(a, next, ids, s),
        forall|k: int| 0 <= k < a.len() ==> (#[trigger] a[k]).wf(),
        forall|k: int| 0 <= k < b.len() ==> (#[trigger] b[k]).wf(),
        batches.len() == a.len(),
        all_appended(a, b, batches, ng, width),
        forall|e: RunEntry| #[trigger]
            t.contains(e) <==> s.contains(e) || entries_upto(a, batches, a.len() as int).contains(e),
    ensures
        indexed(b, next, grown_ids(ids, batches), t),
        forall|id: u64| #[trigger]
            stored(b, grown_ids(ids, batches), id) <==> stored(a, ids, id) || delivered(batches, id),
{
    let now = grown_ids(ids, batches);
    let n = a.len() as int;
    assert forall|k: int| 0 <= k < b.len() implies (#[trigger] now[k]).len() == b[k].n_rows by {
        lemma_appended_facts(a, b, batches, ng, width, k);
        assert(ids[k].len() == a[k].n_rows);
    }
    assert(ids_ok(b, next)) by {
        assert forall|k: int| 0 <= k < b.len() implies (#[trigger] b[k]).partition_id < next by {
            lemma_appended_facts(a, b, batches, ng, width, k);
            assert(a[k].partition_id < next);
        }
        assert forall|i: int, j: int| 0 <= i < j < b.len() implies (#[trigger] b[i]).partition_id != (
        #[trigger] b[j]).partition_id by {
            lemma_appended_facts(a, b, batches, ng, width, i);
            lemma_appended_facts(a, b, batches, ng, width, j);
            assert(a[i].partition_id != a[j].partition_id);
        }
    }
    assert forall|i: int| 0 <= i < t.len() implies (#[trigger] t[i]).partition_id < next by {
        assert(t.contains(t[i]));
        lemma_appended_entry(a, next, batches, s, t[i]);
    }
    assert forall|i: int, k: int|
        0 <= i < t.len() && 0 <= k < b.len() && (#[trigger] t[i]).partition_id == (
        #[trigger] b[k]).partition_id implies t[i].generation <= b[k].generation && (t[i].generation
        == b[k].generation ==> t[i].row < b[k].n_rows) by {
        assert(t.contains(t[i]));
        lemma_appended_facts(a, b, batches, ng, width, k);
        lemma_entry_at(a, b, next, ids, batches, ng, width, s, t[i], k);
    }
    assert(truthful(b, now, t)) by {
        assert forall|i: int, k: int|
            0 <= i < t.len() && 0 <= k < b.len() && names(
                #[trigger] t[i],
                #[trigger] b[k],
                t[i].row as int,
            ) && alive(b[k], t[i].row as int) implies now[k][t[i].row as int] == t[i].id by {
            assert(t.contains(t[i]));
            lemma_appended_facts(a, b, batches, ng, width, k);
            lemma_entry_at(a, b, next, ids, batches, ng, width, s, t[i], k);
        }
    }
    assert(covering(b, t)) by {
        assert forall|k: int, r: int| 0 <= k < b.len() && #[trigger] alive(b[k], r) implies covered(t, b[k], r) by {
            lemma_appended_facts(a, b, batches, ng, width, k);
            lemma_covered_after(a, b, next, ids, batches, ng, width, s, t, k, r);
        }
    }
    assert forall|id: u64| #[trigger] stored(b, now, id) <==> stored(a, ids, id) || delivered(batches, id) by {
        if stored(b, now, id) {
            let (k, r) = choose|k: int, r: int| 0 <= k < b.len() && #[trigger] alive(b[k], r) && now[k][r] == id;
            lemma_appended_facts(a, b, batches, ng, width, k);
            assert(ids[k].len() == a[k].n_rows);
            if r < a[k].n_rows {
                assert(alive(a[k], r) && ids[k][r] == id);
            } else {
                let i = r - a[k].n_rows;
                assert(batches[k]@[i].id == id);
            }
        }
        if stored(a, ids, id) {
            let (k, r) = choose|k: int, r: int| 0 <= k < a.len() && #[trigger] alive(a[k], r) && ids[k][r] == id;
            lemma_appended_facts(a, b, batches, ng, width, k);
            assert(ids[k].len() == a[k].n_rows);
            assert(alive(b[k], r) && now[k][r] == id);
        }
        if delivered(batches, id) {
            let (k, i) = choose|k: int, i: int|
                0 <= k < batches.len() && 0 <= i < batches[k]@.len() && #[trigger] batches[k]@[i].id == id;
            lemma_appended_facts(a, b, batches, ng, width, k);
            let r = a[k].n_rows + i;
            assert(ids[k].len() == a[k].n_rows);
            assert(a[k].wf() && b[k].wf());
            assert(!marked(a[k].dead@, r));
            assert(alive(b[k], r) && now[k][r] == id);
        }
    }
}

/// Old and new entries name known partitions.
proof fn lemma_appended_entry(
    a: Seq<PartitionState>,
    next: u32,
    batches: Seq<RowBatch>,
    s: Seq<RunEntry>,
    e: RunEntry,
)
    requires
        ids_ok(a, next),
        settled(a, next, s),
        s.contains(e) || entries_upto(a, batches, a.len() as int).contains(e),
    ensures
        e.partition_id < next,
{
    if s.contains(e) {
        let i = choose|i: int| 0 <= i < s.len() && s[i] == e;
        assert(s[i].partition_id < next);
    } else {
        let (k, i) = lemma_collected(a, batches, a.len() as int, e);
        assert(a[k].partition_id < next);
    }
}

/// What an entry says of a partition after an append.
proof fn lemma_entry_at(
    a: Seq<PartitionState>,
    b: Seq<PartitionState>,
    next: u32,
    ids: Seq<Seq<u64>>,
    batches: Seq<RowBatch>,
    ng: int,
    width: int,
    s: Seq<RunEntry>,
    e: RunEntry,
    k: int,
)
    requires
        indexed(a, next, ids, s),
        forall|j: int| 0 <= j < b.len() ==> (#[trigger] b[j]).wf(),
        batches.len() == a.len(),
        all_appended(a, b, batches, ng, width),
        s.contains(e) || entries_upto(a, batches, a.len() as int).contains(e),
        0 <= k < a.len(),
        e.partition_id == a[k].partition_id,
    ensures
        e.generation <= b[k].generation,
        e.generation == b[k].generation ==> e.row < b[k].n_rows,
        e.generation == b[k].generation && alive(b[k], e.row as int) ==> grown_ids(ids, batches)[k][e.row as int]
            == e.id,
{
    lemma_appended_facts(a, b, batches, ng, width, k);
    assert(ids[k].len() == a[k].n_rows);
    if s.contains(e) {
        let i = choose|i: int| 0 <= i < s.len() && s[i] == e;
        assert(s[i].partition_id == a[k].partition_id);
        if e.generation == a[k].generation && alive(b[k], e.row as int) {
            assert(names(s[i], a[k], s[i].row as int));
            assert(alive(a[k], e.row as int));
        }
    } else {
        let (j, i) = lemma_collected(a, batches, a.len() as int, e);
        if j < k {
            assert(a[j].partition_id != a[k].partition_id);
        }
        if k < j {
            assert(a[k].partition_id != a[j].partition_id);
        }
        assert(b[k].wf());
        assert(b[k].n_rows <= MAX_ROWS);
        assert(e.row == a[k].n_rows + i);
    }
}

/// A row that is alive after an append is named.
proof fn lemma_covered_after(
    a: Seq<PartitionState>,
    b: Seq<PartitionState>,
    next: u32,
    ids: Seq<Seq<u64>>,
    batches: Seq<RowBatch>,
    ng: int,
    width: int,
    s: Seq<RunEntry>,
    t: Seq<RunEntry>,
    k: int,
    r: int,
)
    requires
        indexed(a, next, ids, s),
        forall|j: int| 0 <= j < b.len() ==> (#[trigger] b[j]).wf(),
        batches.len() == a.len(),
        all_appended(a, b, batches, ng, width),
        forall|e: RunEntry| #[trigger]
            t.contains(e) <==> s.contains(e) || entries_upto(a, batches, a.len() as int).contains(e),
        0 <= k < a.len(),
        alive(b[k], r),
    ensures
        covered(t, b[k], r),
{
    lemma_appended_facts(a, b, batches, ng, width, k);
    if r < a[k].n_rows {
        assert(alive(a[k], r));
        let i = choose|i: int| 0 <= i < s.len() && names(#[trigger] s[i], a[k], r);
        assert(s.contains(s[i]));
        assert(t.contains(s[i]));
        let j = choose|j: int| 0 <= j < t.len() && t[j] == s[i];
        assert(names(t[j], b[k], r));
    } else {
        let i = r - a[k].n_rows;
        let e = new_entries(batches[k]@, a[k].partition_id, a[k].generation, a[k].n_rows as int)[i];
        crate::flush_laws::lemma_entry_collected(a, batches, a.len() as int, k, i);
        assert(t.contains(e));
        assert(b[k].wf());
        assert(b[k].n_rows <= MAX_ROWS);
        let j = choose|j: int| 0 <= j < t.len() && t[j] == e;
        assert(names(t[j], b[k], r));
    }
}

/// A new, empty partition keeps an index in step.
pub proof fn law_new_partition_keeps_index(
    parts: Seq<PartitionState>,
    next: u32,
    ids: Seq<Seq<u64>>,
    s: Seq<RunEntry>,
    p: PartitionState,
)
    requires
        indexed(parts, next, ids, s),
        next < u32::MAX,
        p.partition_id == next,
        p.n_rows == 0,
    ensures
        indexed(parts.push(p), (next + 1) as u32, ids.push(Seq::empty()), s),
        stored_ids(parts.push(p), ids.push(Seq::empty())) == stored_ids(parts, ids),
{
    let b = parts.push(p);
    let now = ids.push(Seq::empty());
    let n = parts.len() as int;
    assert forall|k: int| 0 <= k < b.len() implies (#[trigger] b[k]).partition_id < next + 1 by {
        if k < n {
            assert(parts[k].partition_id < next);
        }
    }
    assert forall|i: int, j: int| 0 <= i < j < b.len() implies (#[trigger] b[i]).partition_id != (
    #[trigger] b[j]).partition_id by {
        assert(parts[i].partition_id < next);
    }
    assert forall|k: int| 0 <= k < b.len() implies (#[trigger] now[k]).len() == b[k].n_rows by {
        if k < n {
            assert(ids[k].len() == parts[k].n_rows);
        }
    }
    assert forall|i: int, k: int|
        0 <= i < s.len() && 0 <= k < b.len() && (#[trigger] s[i]).partition_id == (
        #[trigger] b[k]).partition_id implies s[i].generation <= b[k].generation && (s[i].generation
        == b[k].generation ==> s[i].row < b[k].n_rows) by {
        assert(s[i].partition_id < next);
        assert(b[k] == parts[k]);
    }
    assert forall|i: int, k: int|
        0 <= i < s.len() && 0 <= k < b.len() && names(#[trigger] s[i], #[trigger] b[k], s[i].row as int) && alive(
            b[k],
            s[i].row as int,
        ) implies now[k][s[i].row as int] == s[i].id by {
        assert(b[k] == parts[k]);
    }
    assert forall|k: int, r: int| 0 <= k < b.len() && #[trigger] alive(b[k], r) implies covered(s, b[k], r) by {
        assert(b[k] == parts[k]);
    }
    assert forall|id: u64| stored(b, now, id) <==> stored(parts, ids, id) by {
        if stored(b, now, id) {
            let (k, r) = choose|k: int, r: int| 0 <= k < b.len() && #[trigger] alive(b[k], r) && now[k][r] == id;
            assert(b[k] == parts[k]);
            assert(alive(parts[k], r) && ids[k][r] == id);
        }
        if stored(parts, ids, id) {
            let (k, r) = choose|k: int, r: int|
                0 <= k < parts.len() && #[trigger] alive(parts[k], r) && ids[k][r] == id;
            assert(alive(b[k], r) && now[k][r] == id);
        }
    }
    assert(stored_ids(b, now) =~= stored_ids(parts, ids));
}

/// Taking a partition out keeps an index in step.
pub proof fn law_dropped_partition_keeps_index(
    parts: Seq<PartitionState>,
    next: u32,
    ids: Seq<Seq<u64>>,
    s: Seq<RunEntry>,
    at: int,
)
    requires
        indexed(parts, next, ids, s),
        0 <= at < parts.len(),
    ensures
        indexed(parts.remove(at), next, ids.remove(at), s),
{
    let b = parts.remove(at);
    let now = ids.remove(at);
    let from = |k: int| if k < at {
        k
    } else {
        k + 1
    };
    assert forall|k: int| 0 <= k < b.len() implies #[trigger] b[k] == parts[from(k)] && now[k] == ids[from(k)] by {}
    assert forall|k: int| 0 <= k < b.len() implies (#[trigger] b[k]).partition_id < next by {
        assert(parts[from(k)].partition_id < next);
    }
    assert forall|i: int, j: int| 0 <= i < j < b.len() implies (#[trigger] b[i]).partition_id != (
    #[trigger] b[j]).partition_id by {
        assert(parts[from(i)].partition_id != parts[from(j)].partition_id);
    }
    assert forall|k: int| 0 <= k < b.len() implies (#[trigger] now[k]).len() == b[k].n_rows by {
        assert(ids[from(k)].len() == parts[from(k)].n_rows);
    }
    assert forall|i: int, k: int|
        0 <= i < s.len() && 0 <= k < b.len() && (#[trigger] s[i]).partition_id == (
        #[trigger] b[k]).partition_id implies s[i].generation <= b[k].generation && (s[i].generation
        == b[k].generation ==> s[i].row < b[k].n_rows) by {
        assert(s[i].partition_id == parts[from(k)].partition_id);
    }
    assert forall|i: int, k: int|
        0 <= i < s.len() && 0 <= k < b.len() && names(#[trigger] s[i], #[trigger] b[k], s[i].row as int) && alive(
            b[k],
            s[i].row as int,
        ) implies now[k][s[i].row as int] == s[i].id by {
        assert(names(s[i], parts[from(k)], s[i].row as int));
    }
    assert forall|k: int, r: int| 0 <= k < b.len() && #[trigger] alive(b[k], r) implies covered(s, b[k], r) by {
        assert(alive(parts[from(k)], r));
    }
}

/// Marking rows dead keeps an index in step.
pub proof fn law_dead_rows_keep_index(
    a: Seq<PartitionState>,
    b: Seq<PartitionState>,
    next: u32,
    ids: Seq<Seq<u64>>,
    s: Seq<RunEntry>,
)
    requires
        indexed(a, next, ids, s),
        a.len() == b.len(),
        forall|k: int|
            0 <= k < a.len() ==> (#[trigger] b[k]).partition_id == a[k].partition_id && b[k].generation
                == a[k].generation && b[k].n_rows == a[k].n_rows,
        forall|k: int, r: int|
            0 <= k < a.len() && 0 <= r && marked(a[k].dead@, r) ==> #[trigger] marked(b[k].dead@, r),
    ensures
        indexed(b, next, ids, s),
        stored_ids(b, ids).subset_of(stored_ids(a, ids)),
{
    assert forall|k: int| 0 <= k < b.len() implies (#[trigger] b[k]).partition_id < next by {
        assert(a[k].partition_id < next);
    }
    assert forall|i: int, j: int| 0 <= i < j < b.len() implies (#[trigger] b[i]).partition_id != (
    #[trigger] b[j]).partition_id by {
        assert(a[i].partition_id != a[j].partition_id);
    }
    assert forall|k: int| 0 <= k < b.len() implies (#[trigger] ids[k]).len() == b[k].n_rows by {
        assert(b[k].n_rows == a[k].n_rows);
    }
    assert forall|k: int, r: int| 0 <= k < b.len() && #[trigger] alive(b[k], r) implies alive(a[k], r) by {
        assert(b[k].n_rows == a[k].n_rows);
        if marked(a[k].dead@, r) {
            assert(marked(b[k].dead@, r));
        }
    }
    assert forall|i: int, k: int|
        0 <= i < s.len() && 0 <= k < b.len() && (#[trigger] s[i]).partition_id == (
        #[trigger] b[k]).partition_id implies s[i].generation <= b[k].generation && (s[i].generation
        == b[k].generation ==> s[i].row < b[k].n_rows) by {
        assert(s[i].partition_id == a[k].partition_id);
    }
    assert forall|i: int, k: int|
        0 <= i < s.len() && 0 <= k < b.len() && names(#[trigger] s[i], #[trigger] b[k], s[i].row as int) && alive(
            b[k],
            s[i].row as int,
        ) implies ids[k][s[i].row as int] == s[i].id by {
        assert(names(s[i], a[k], s[i].row as int));
        assert(alive(a[k], s[i].row as int));
    }
    assert forall|k: int, r: int| 0 <= k < b.len() && #[trigger] alive(b[k], r) implies covered(s, b[k], r) by {
        assert(alive(a[k], r));
        assert(covered(s, a[k], r));
        let i = choose|i: int| 0 <= i < s.len() && names(#[trigger] s[i], a[k], r);
        assert(names(s[i], b[k], r));
    }
    assert forall|id: u64| stored(b, ids, id) implies stored(a, ids, id) by {
        let (k, r) = choose|k: int, r: int| 0 <= k < b.len() && #[trigger] alive(b[k], r) && ids[k][r] == id;
        assert(alive(a[k], r));
    }
}

/// Rewriting a partition as its next version, with `rows` in it, keeps an index
/// in step.
pub proof fn law_rewrite_keeps_index(
    a: Seq<PartitionState>,
    b: Seq<PartitionState>,
    next: u32,
    ids: Seq<Seq<u64>>,
    s: Seq<RunEntry>,
    t: Seq<RunEntry>,
    at: int,
    rows: Seq<Row>,
)
    requires
        indexed(a, next, ids, s),
        a.len() == b.len(),
        0 <= at < a.len(),
        forall|k: int| 0 <= k < a.len() && k != at ==> #[trigger] b[k] == a[k],
        b[at].partition_id == a[at].partition_id,
        a[at].generation < u32::MAX,
        b[at].generation == a[at].generation + 1,
        b[at].n_rows == rows.len(),
        rows.len() <= MAX_ROWS,
        forall|e: RunEntry| #[trigger]
            t.contains(e) <==> s.contains(e) || new_entries(
                rows,
                a[at].partition_id,
                b[at].generation,
                0,
            ).contains(e),
    ensures
        indexed(b, next, ids.update(at, batch_ids(rows)), t),
{
    let now = ids.update(at, batch_ids(rows));
    let fresh = new_entries(rows, a[at].partition_id, b[at].generation, 0);
    assert forall|k: int| 0 <= k < b.len() implies (#[trigger] b[k]).partition_id == a[k].partition_id by {
        if k != at {
            assert(b[k] == a[k]);
        }
    }
    assert forall|k: int| 0 <= k < b.len() implies (#[trigger] b[k]).partition_id < next by {
        assert(a[k].partition_id < next);
    }
    assert forall|i: int, j: int| 0 <= i < j < b.len() implies (#[trigger] b[i]).partition_id != (
    #[trigger] b[j]).partition_id by {
        assert(a[i].partition_id != a[j].partition_id);
    }
    assert forall|k: int| 0 <= k < b.len() implies (#[trigger] now[k]).len() == b[k].n_rows by {
        if k != at {
            assert(ids[k].len() == a[k].n_rows && b[k] == a[k]);
        }
    }
    assert forall|i: int, k: int|
        #![trigger t[i], b[k]]
        0 <= i < t.len() && 0 <= k < b.len() && t[i].partition_id == b[k].partition_id implies t[i].generation
        <= b[k].generation && (t[i].generation == b[k].generation ==> t[i].row < b[k].n_rows) && (names(
        t[i],
        b[k],
        t[i].row as int,
    ) && alive(b[k], t[i].row as int) ==> now[k][t[i].row as int] == t[i].id) by {
        let e = t[i];
        assert(t.contains(e));
        if s.contains(e) {
            let j = choose|j: int| 0 <= j < s.len() && s[j] == e;
            assert(s[j].partition_id == a[k].partition_id);
            if k != at {
                assert(b[k] == a[k]);
                if names(e, b[k], e.row as int) && alive(b[k], e.row as int) {
                    assert(names(s[j], a[k], s[j].row as int));
                }
            }
        } else {
            let j = choose|j: int| 0 <= j < fresh.len() && fresh[j] == e;
            if k < at {
                assert(a[k].partition_id != a[at].partition_id);
            }
            if at < k {
                assert(a[at].partition_id != a[k].partition_id);
            }
        }
    }
    assert forall|i: int| 0 <= i < t.len() implies (#[trigger] t[i]).partition_id < next by {
        assert(t.contains(t[i]));
        if s.contains(t[i]) {
            let j = choose|j: int| 0 <= j < s.len() && s[j] == t[i];
            assert(s[j].partition_id < next);
        } else {
            assert(a[at].partition_id < next);
        }
    }
    assert forall|k: int, r: int| 0 <= k < b.len() && #[trigger] alive(b[k], r) implies covered(t, b[k], r) by {
        if k == at {
            let e = fresh[r];
            assert(fresh.contains(e));
            assert(t.contains(e));
            let j = choose|j: int| 0 <= j < t.len() && t[j] == e;
            assert(names(t[j], b[k], r));
        } else {
            assert(b[k] == a[k]);
            assert(alive(a[k], r));
            let i = choose|i: int| 0 <= i < s.len() && names(#[trigger] s[i], a[k], r);
            assert(s.contains(s[i]));
            assert(t.contains(s[i]));
            let j = choose|j: int| 0 <= j < t.len() && t[j] == s[i];
            assert(names(t[j], b[k], r));
        }
    }
}

/// Rewriting a partition with its live rows changes no lookup: the same ids are
/// found before and after.
pub proof fn law_compaction_keeps_ids(
    a: Seq<PartitionState>,
    b: Seq<PartitionState>,
    next: u32,
    ids: Seq<Seq<u64>>,
    s: Seq<RunEntry>,
    t: Seq<RunEntry>,
    at: int,
    held: Seq<Row>,
)
    requires
        indexed(a, next, ids, s),
        a.len() == b.len(),
        0 <= at < a.len(),
        forall|k: int| 0 <= k < a.len() && k != at ==> #[trigger] b[k] == a[k],
        held.len() == a[at].n_rows,
        batch_ids(held) == ids[at],
        b[at].partition_id == a[at].partition_id,
        a[at].generation < u32::MAX,
        b[at].generation == a[at].generation + 1,
        b[at].n_rows == live_of(held, a[at].dead@, 0, false).len(),
        b[at].n_rows <= MAX_ROWS,
        forall|q: int| 0 <= q ==> !#[trigger] marked(b[at].dead@, q),
        forall|e: RunEntry| #[trigger]
            t.contains(e) <==> s.contains(e) || new_entries(
                live_of(held, a[at].dead@, 0, false),
                a[at].partition_id,
                b[at].generation,
                0,
            ).contains(e),
    ensures
        indexed(b, next, ids.update(at, batch_ids(live_of(held, a[at].dead@, 0, false))), t),
        stored_ids(b, ids.update(at, batch_ids(live_of(held, a[at].dead@, 0, false)))) == stored_ids(a, ids),
{
    let rows = live_of(held, a[at].dead@, 0, false);
    let now = ids.update(at, batch_ids(rows));
    let from = live_at(held, a[at].dead@, 0, false);
    law_rewrite_keeps_index(a, b, next, ids, s, t, at, rows);
    lemma_live_at(held, a[at].dead@, 0, false);
    assert forall|id: u64| stored(b, now, id) <==> stored(a, ids, id) by {
        if stored(b, now, id) {
            let (k, r) = choose|k: int, r: int| 0 <= k < b.len() && #[trigger] alive(b[k], r) && now[k][r] == id;
            if k == at {
                let q = from[r];
                assert(held[q] == rows[r]);
                assert(batch_ids(held)[q] == id);
                assert(alive(a[at], q) && ids[at][q] == id);
            } else {
                assert(b[k] == a[k]);
                assert(alive(a[k], r) && ids[k][r] == id);
            }
        }
        if stored(a, ids, id) {
            let (k, r) = choose|k: int, r: int| 0 <= k < a.len() && #[trigger] alive(a[k], r) && ids[k][r] == id;
            if k == at {
                assert(batch_ids(held)[r] == id);
                assert(wanted(held[r], 0 + r, a[at].dead@, false));
                assert(from.contains(r));
                let j = choose|j: int| 0 <= j < from.len() && from[j] == r;
                assert(rows[j] == held[r]);
                assert(!marked(b[at].dead@, j));
                assert(alive(b[at], j) && now[at][j] == id);
            } else {
                assert(b[k] == a[k]);
                assert(alive(b[k], r) && now[k][r] == id);
            }
        }
    }
    assert(stored_ids(b, now) =~= stored_ids(a, ids));
}

/// Merging trailing chunks keeps an index in step, and changes no stored id: the
/// rows keep their numbers and their marks, and no entry is needed for them.
pub proof fn law_tier_merge_keeps_index(
    a: Seq<PartitionState>,
    b: Seq<PartitionState>,
    next: u32,
    ids: Seq<Seq<u64>>,
    s: Seq<RunEntry>,
    at: int,
    from: int,
    len: int,
)
    requires
        indexed(a, next, ids, s),
        a.len() == b.len(),
        0 <= at < a.len(),
        forall|k: int| 0 <= k < a.len() && k != at ==> #[trigger] b[k] == a[k],
        folded(a[at], b[at], from, len),
    ensures
        indexed(b, next, ids, s),
        stored_ids(b, ids) == stored_ids(a, ids),
{
    assert forall|k: int| 0 <= k < a.len() implies (#[trigger] b[k]).partition_id == a[k].partition_id
        && b[k].generation == a[k].generation && b[k].n_rows == a[k].n_rows && b[k].dead == a[k].dead by {
        if k != at {
            assert(b[k] == a[k]);
        }
    }
    law_dead_rows_keep_index(a, b, next, ids, s);
    law_dead_rows_keep_index(b, a, next, ids, s);
    assert(stored_ids(b, ids) =~= stored_ids(a, ids));
}

/// Merging runs brings in no entry.
proof fn lemma_merged_subset(
    parts: Seq<PartitionState>,
    all: Seq<Seq<RunEntry>>,
    from: int,
    to: int,
    e: RunEntry,
)
    requires
        0 <= from <= to <= all.len(),
        total(all) <= u64::MAX,
        newest_first(merged_range(parts, all, from, to)).contains(e),
    ensures
        newest_first(all).contains(e),
{
    let m = merged_range(parts, all, from, to);
    let sub = all.subrange(from, to);
    let kept = surviving(parts, newest_first(sub));
    lemma_newest_first(m, e);
    lemma_newest_first(all, e);
    let t = choose|t: int| 0 <= t < m.len() && (#[trigger] m[t]).contains(e);
    if t < from {
        assert(m[t] == all[t]);
    } else if t > from {
        assert(m[t] == all[to + (t - from - 1)]);
    } else {
        assert(m[t] == by_id(kept));
        crate::copies_laws::lemma_total_range(all, from, to);
        crate::copies::lemma_surviving_len(parts, newest_first(sub));
        law_by_id(kept);
        let j = choose|j: int| 0 <= j < by_id(kept).len() && by_id(kept)[j] == e;
        assert(kept.contains(by_id(kept)[j]));
        lemma_surviving(parts, newest_first(sub));
        let i = choose|i: int| 0 <= i < kept.len() && kept[i] == e;
        assert(newest_first(sub).contains(kept[i]));
        lemma_newest_first(sub, e);
        let u = choose|u: int| 0 <= u < sub.len() && (#[trigger] sub[u]).contains(e);
        assert(sub[u] == all[from + u]);
    }
}

proof fn lemma_tier_merged_subset(parts: Seq<PartitionState>, all: Seq<Seq<RunEntry>>, e: RunEntry)
    requires
        total(all) <= u64::MAX,
        newest_first(tier_merged(parts, all)).contains(e),
    ensures
        newest_first(all).contains(e),
        total(tier_merged(parts, all)) <= u64::MAX,
    decreases all.len(),
{
    let from = carry(all);
    if all.len() < 2 || from < 0 || from >= all.len() - 1 {
    } else {
        let n = all.len() as int;
        crate::copies_laws::lemma_total_range(all, from, n);
        crate::copies_laws::lemma_total_merged(parts, all, from, n);
        lemma_tier_merged_subset(parts, merged_range(parts, all, from, n), e);
        lemma_merged_subset(parts, all, from, n, e);
    }
}

/// Tidying brings in no entry.
pub proof fn lemma_tidied_subset(parts: Seq<PartitionState>, all: Seq<Seq<RunEntry>>, e: RunEntry)
    requires
        total(all) <= u64::MAX,
        total(tier_merged(parts, all)) <= u64::MAX,
        newest_first(tidied(parts, all)).contains(e),
    ensures
        newest_first(all).contains(e),
{
    let t = tier_merged(parts, all);
    if t.len() > RUN_TIER_BACKSTOP {
        lemma_merged_subset(parts, t, 0, t.len() as int, e);
    }
    lemma_tier_merged_subset(parts, all, e);
}

/// Tidying the runs keeps an index in step.
pub proof fn law_tidying_keeps_index(
    parts: Seq<PartitionState>,
    next: u32,
    ids: Seq<Seq<u64>>,
    all: Seq<Seq<RunEntry>>,
)
    requires
        indexed(parts, next, ids, newest_first(all)),
        total(all) <= u64::MAX,
    ensures
        indexed(parts, next, ids, newest_first(tidied(parts, all))),
{
    let s = newest_first(all);
    let t = newest_first(tidied(parts, all));
    law_indexed_entries_agree(parts, next, ids, s);
    law_tidying_keeps_copies(parts, all);
    crate::copies_laws::lemma_tier_merged_copies(parts, all);
    assert forall|i: int| 0 <= i < t.len() implies s.contains(#[trigger] t[i]) by {
        assert(t.contains(t[i]));
        lemma_tidied_subset(parts, all, t[i]);
    }
    assert forall|i: int, k: int|
        #![trigger t[i], parts[k]]
        0 <= i < t.len() && 0 <= k < parts.len() && t[i].partition_id == parts[k].partition_id
        implies t[i].generation <= parts[k].generation && (t[i].generation == parts[k].generation ==> t[i].row
        < parts[k].n_rows) && (names(t[i], parts[k], t[i].row as int) && alive(parts[k], t[i].row as int)
        ==> ids[k][t[i].row as int] == t[i].id) by {
        assert(s.contains(t[i]));
        let j = choose|j: int| 0 <= j < s.len() && s[j] == t[i];
        assert(s[j].partition_id == parts[k].partition_id);
        if names(t[i], parts[k], t[i].row as int) {
            assert(names(s[j], parts[k], s[j].row as int));
        }
    }
    assert forall|i: int| 0 <= i < t.len() implies (#[trigger] t[i]).partition_id < next by {
        assert(s.contains(t[i]));
        let j = choose|j: int| 0 <= j < s.len() && s[j] == t[i];
        assert(s[j].partition_id < next);
    }
    assert forall|k: int, r: int| 0 <= k < parts.len() && #[trigger] alive(parts[k], r) implies covered(
        t,
        parts[k],
        r,
    ) by {
        assert(covered(s, parts[k], r));
        let i = choose|i: int| 0 <= i < s.len() && names(#[trigger] s[i], parts[k], r);
        let e = s[i];
        lemma_current(parts, next, e);
        assert(names(e, parts[k], e.row as int));
        assert(has_copy(parts, s, e.id, e.partition_id, e.row));
        assert(has_copy(parts, t, e.id, e.partition_id, e.row));
        let j = choose|j: int|
            0 <= j < t.len() && (#[trigger] t[j]).id == e.id && t[j].partition_id == e.partition_id && t[j].row
                == e.row && current(parts, t[j]);
        lemma_current(parts, next, t[j]);
        lemma_own_place(parts, next, k);
        assert(names(t[j], parts[k], r));
    }
}

} // verus!
