//! What lookups find, and what merging, removing and appending do to it.
use vstd::prelude::*;
use crate::bits::marked;
use crate::copies::{
    carry, copies_of, copy_of, current, lemma_place, merged_range, names_row, newest_first, place, place_from,
    surviving, tables, tidied, tier_merged, Run, RUN_TIER_BACKSTOP,
};
use crate::partition::PartitionState;
use crate::runs::{by_id, law_by_id, of_id, RunEntry};

verus! {

/// A current entry puts a copy of `id` at this row.
pub open spec fn has_copy(
    parts: Seq<PartitionState>,
    entries: Seq<RunEntry>,
    id: u64,
    partition_id: u32,
    row: u32,
) -> bool {
    exists|k: int|
        0 <= k < entries.len() && (#[trigger] entries[k]).id == id && entries[k].partition_id
            == partition_id && entries[k].row == row && current(parts, entries[k])
}

/// Current entries that name the same row name the same id.
pub open spec fn agreeing(parts: Seq<PartitionState>, entries: Seq<RunEntry>) -> bool {
    forall|i: int, j: int|
        0 <= i < entries.len() && 0 <= j < entries.len() && current(parts, #[trigger] entries[i])
            && current(parts, #[trigger] entries[j]) && entries[i].partition_id
            == entries[j].partition_id && entries[i].row == entries[j].row ==> entries[i].id
            == entries[j].id
}

/// What survives: current entries, each row once, and no row lost.
pub proof fn lemma_surviving(parts: Seq<PartitionState>, s: Seq<RunEntry>)
    ensures
        forall|k: int|
            0 <= k < surviving(parts, s).len() ==> s.contains(#[trigger] surviving(parts, s)[k]) && current(
                parts,
                surviving(parts, s)[k],
            ),
        forall|k: int|
            0 <= k < s.len() && current(parts, #[trigger] s[k]) ==> names_row(
                surviving(parts, s),
                s[k].partition_id,
                s[k].row,
            ),
        forall|i: int, j: int|
            0 <= i < j < surviving(parts, s).len() ==> !(surviving(parts, s)[i].partition_id == surviving(
                parts,
                s,
            )[j].partition_id && surviving(parts, s)[i].row == surviving(parts, s)[j].row),
        surviving(parts, s).len() <= s.len(),
    decreases s.len(),
{
    if s.len() > 0 {
        let init = s.drop_last();
        let e = s.last();
        lemma_surviving(parts, init);
        let kept = surviving(parts, init);
        let out = surviving(parts, s);
        assert forall|k: int| 0 <= k < out.len() implies s.contains(#[trigger] out[k]) && current(
            parts,
            out[k],
        ) by {
            if k < kept.len() {
                assert(kept[k] == out[k]);
                assert(init.contains(kept[k]));
                let i = choose|i: int| 0 <= i < init.len() && init[i] == kept[k];
                assert(s[i] == out[k]);
            } else {
                assert(s[s.len() - 1] == e);
            }
        }
        assert forall|k: int| 0 <= k < s.len() && current(parts, #[trigger] s[k]) implies names_row(
            out,
            s[k].partition_id,
            s[k].row,
        ) by {
            if k < init.len() {
                assert(init[k] == s[k]);
                assert(names_row(kept, s[k].partition_id, s[k].row));
                lemma_names_row_grows(kept, out, s[k].partition_id, s[k].row);
            } else if names_row(kept, e.partition_id, e.row) {
                lemma_names_row_grows(kept, out, e.partition_id, e.row);
            } else {
                assert(out[out.len() - 1] == e);
            }
        }
        assert forall|i: int, j: int| 0 <= i < j < out.len() implies !(out[i].partition_id
            == out[j].partition_id && out[i].row == out[j].row) by {
            if j < kept.len() {
                assert(kept[i] == out[i] && kept[j] == out[j]);
            } else {
                assert(kept[i] == out[i]);
                if out[i].partition_id == e.partition_id && out[i].row == e.row {
                    assert(names_row(kept, e.partition_id, e.row));
                }
            }
        }
    }
}

proof fn lemma_names_row_grows(a: Seq<RunEntry>, b: Seq<RunEntry>, p: u32, r: u32)
    requires
        names_row(a, p, r),
        a.len() <= b.len(),
        forall|i: int| 0 <= i < a.len() ==> a[i] == #[trigger] b[i],
    ensures
        names_row(b, p, r),
{
    let i = choose|i: int| 0 <= i < a.len() && (#[trigger] a[i]).partition_id == p && a[i].row == r;
    assert(b[i] == a[i]);
}

/// The entries of all tables are those of each.
pub proof fn lemma_newest_first(all: Seq<Seq<RunEntry>>, e: RunEntry)
    ensures
        newest_first(all).contains(e) <==> exists|t: int| 0 <= t < all.len() && (#[trigger] all[t]).contains(e),
    decreases all.len(),
{
    if all.len() > 0 {
        let rest = all.drop_first();
        let newer = newest_first(rest);
        lemma_newest_first(rest, e);
        let s = newest_first(all);
        if s.contains(e) {
            let k = choose|k: int| 0 <= k < s.len() && s[k] == e;
            if k < newer.len() {
                assert(newer[k] == e);
                let t = choose|t: int| 0 <= t < rest.len() && (#[trigger] rest[t]).contains(e);
                assert(all[t + 1] == rest[t]);
            } else {
                assert(all[0][k - newer.len()] == e);
                assert(all[0].contains(e));
            }
        }
        if exists|t: int| 0 <= t < all.len() && (#[trigger] all[t]).contains(e) {
            let t = choose|t: int| 0 <= t < all.len() && (#[trigger] all[t]).contains(e);
            if t == 0 {
                let k = choose|k: int| 0 <= k < all[0].len() && all[0][k] == e;
                assert(s[newer.len() + k] == e);
            } else {
                assert(rest[t - 1] == all[t]);
                let k = choose|k: int| 0 <= k < newer.len() && newer[k] == e;
                assert(s[k] == e);
            }
        }
    }
}

/// The entries of an id are the entries with that id.
pub proof fn lemma_of_id(s: Seq<RunEntry>, id: u64, e: RunEntry)
    ensures
        of_id(s, id).contains(e) <==> s.contains(e) && e.id == id,
    decreases s.len(),
{
    if s.len() > 0 {
        let init = s.drop_last();
        lemma_of_id(init, id, e);
        let a = of_id(init, id);
        let b = of_id(s, id);
        if b.contains(e) {
            let k = choose|k: int| 0 <= k < b.len() && b[k] == e;
            if k < a.len() {
                assert(a[k] == e);
                let i = choose|i: int| 0 <= i < init.len() && init[i] == e;
                assert(s[i] == e);
            } else {
                assert(s[s.len() - 1] == e);
            }
        }
        if s.contains(e) && e.id == id {
            let i = choose|i: int| 0 <= i < s.len() && s[i] == e;
            if i < init.len() {
                assert(init[i] == e);
                let k = choose|k: int| 0 <= k < a.len() && a[k] == e;
                assert(b[k] == e);
            } else {
                assert(b[b.len() - 1] == e);
            }
        }
    }
}

/// A lookup finds exactly the rows that current entries give the id, each of
/// them once.
pub proof fn law_lookup_finds_all_copies(parts: Seq<PartitionState>, runs: Seq<Run>, id: u64)
    ensures
        forall|p: u32, r: u32|
            #[trigger] has_copy(parts, newest_first(tables(runs)), id, p, r) <==> (exists|k: int|
                0 <= k < copies_of(parts, runs, id).len() && (#[trigger] copies_of(
                    parts,
                    runs,
                    id,
                )[k]).partition_id == p && copies_of(parts, runs, id)[k].row == r),
        forall|i: int, j: int|
            0 <= i < j < copies_of(parts, runs, id).len() ==> !(copies_of(parts, runs, id)[i].partition_id
                == copies_of(parts, runs, id)[j].partition_id && copies_of(parts, runs, id)[i].row
                == copies_of(parts, runs, id)[j].row),
{
    let s = newest_first(tables(runs));
    let mine = of_id(s, id);
    let kept = surviving(parts, mine);
    let out = copies_of(parts, runs, id);
    lemma_surviving(parts, mine);
    assert forall|p: u32, r: u32| #[trigger] has_copy(parts, s, id, p, r) <==> (exists|k: int|
        0 <= k < out.len() && (#[trigger] out[k]).partition_id == p && out[k].row == r) by {
        if has_copy(parts, s, id, p, r) {
            let k = choose|k: int|
                0 <= k < s.len() && (#[trigger] s[k]).id == id && s[k].partition_id == p && s[k].row == r
                    && current(parts, s[k]);
            lemma_of_id(s, id, s[k]);
            assert(s.contains(s[k]));
            let i = choose|i: int| 0 <= i < mine.len() && mine[i] == s[k];
            assert(names_row(kept, mine[i].partition_id, mine[i].row));
            let j = choose|j: int|
                0 <= j < kept.len() && (#[trigger] kept[j]).partition_id == p && kept[j].row == r;
            assert(out[j] == copy_of(kept[j]));
        }
        if exists|k: int| 0 <= k < out.len() && (#[trigger] out[k]).partition_id == p && out[k].row == r {
            let k = choose|k: int| 0 <= k < out.len() && (#[trigger] out[k]).partition_id == p && out[k].row == r;
            assert(out[k] == copy_of(kept[k]));
            assert(mine.contains(kept[k]));
            lemma_of_id(s, id, kept[k]);
            let i = choose|i: int| 0 <= i < s.len() && s[i] == kept[k];
            assert(s[i].id == id);
        }
    }
    assert forall|i: int, j: int| 0 <= i < j < out.len() implies !(out[i].partition_id == out[j].partition_id
        && out[i].row == out[j].row) by {
        assert(out[i] == copy_of(kept[i]) && out[j] == copy_of(kept[j]));
    }
}

/// A copy by membership.
proof fn lemma_has_copy(parts: Seq<PartitionState>, s: Seq<RunEntry>, e: RunEntry)
    requires
        s.contains(e),
        current(parts, e),
    ensures
        has_copy(parts, s, e.id, e.partition_id, e.row),
{
    let k = choose|k: int| 0 <= k < s.len() && s[k] == e;
    assert(s[k].id == e.id);
}

/// Where every entry of the new tables is an old one, and every current row of
/// the old ones is named in the new ones, lookups find the same.
proof fn lemma_same_copies(parts: Seq<PartitionState>, a: Seq<RunEntry>, b: Seq<RunEntry>)
    requires
        agreeing(parts, a),
        forall|k: int| 0 <= k < b.len() ==> a.contains(#[trigger] b[k]),
        forall|k: int|
            0 <= k < a.len() && current(parts, #[trigger] a[k]) ==> exists|j: int|
                0 <= j < b.len() && (#[trigger] b[j]).partition_id == a[k].partition_id && b[j].row
                    == a[k].row && current(parts, b[j]),
    ensures
        agreeing(parts, b),
        forall|id: u64, p: u32, r: u32|
            #[trigger] has_copy(parts, b, id, p, r) <==> has_copy(parts, a, id, p, r),
{
    assert forall|i: int, j: int|
        0 <= i < b.len() && 0 <= j < b.len() && current(parts, #[trigger] b[i]) && current(
            parts,
            #[trigger] b[j],
        ) && b[i].partition_id == b[j].partition_id && b[i].row == b[j].row implies b[i].id == b[j].id by {
        assert(a.contains(b[i]) && a.contains(b[j]));
        let x = choose|x: int| 0 <= x < a.len() && a[x] == b[i];
        let y = choose|y: int| 0 <= y < a.len() && a[y] == b[j];
        assert(current(parts, a[x]) && current(parts, a[y]));
    }
    assert forall|id: u64, p: u32, r: u32| #[trigger] has_copy(parts, b, id, p, r) <==> has_copy(
        parts,
        a,
        id,
        p,
        r,
    ) by {
        if has_copy(parts, b, id, p, r) {
            let k = choose|k: int|
                0 <= k < b.len() && (#[trigger] b[k]).id == id && b[k].partition_id == p && b[k].row == r
                    && current(parts, b[k]);
            assert(a.contains(b[k]));
            lemma_has_copy(parts, a, b[k]);
        }
        if has_copy(parts, a, id, p, r) {
            let k = choose|k: int|
                0 <= k < a.len() && (#[trigger] a[k]).id == id && a[k].partition_id == p && a[k].row == r
                    && current(parts, a[k]);
            let j = choose|j: int|
                0 <= j < b.len() && (#[trigger] b[j]).partition_id == a[k].partition_id && b[j].row
                    == a[k].row && current(parts, b[j]);
            assert(a.contains(b[j]));
            let x = choose|x: int| 0 <= x < a.len() && a[x] == b[j];
            assert(current(parts, a[x]) && current(parts, a[k]));
            assert(a[x].id == a[k].id);
            assert(b[j].id == id);
        }
    }
}

/// Merging neighbouring runs changes no lookup.
pub proof fn law_merge_keeps_copies(
    parts: Seq<PartitionState>,
    all: Seq<Seq<RunEntry>>,
    from: int,
    to: int,
)
    requires
        0 <= from <= to <= all.len(),
        agreeing(parts, newest_first(all)),
        newest_first(all.subrange(from, to)).len() <= u64::MAX,
    ensures
        agreeing(parts, newest_first(merged_range(parts, all, from, to))),
        forall|id: u64, p: u32, r: u32|
            #[trigger] has_copy(parts, newest_first(merged_range(parts, all, from, to)), id, p, r)
                <==> has_copy(parts, newest_first(all), id, p, r),
{
    let range = all.subrange(from, to);
    let s = newest_first(range);
    let kept = surviving(parts, s);
    let merged = by_id(kept);
    let now = merged_range(parts, all, from, to);
    let a = newest_first(all);
    let b = newest_first(now);
    lemma_surviving(parts, s);
    law_by_id(kept);
    assert forall|k: int| 0 <= k < b.len() implies a.contains(#[trigger] b[k]) by {
        let e = b[k];
        lemma_newest_first(now, e);
        lemma_newest_first(all, e);
        lemma_newest_first(range, e);
        assert(b.contains(e));
        let t = choose|t: int| 0 <= t < now.len() && (#[trigger] now[t]).contains(e);
        if t < from {
            assert(all[t] == now[t]);
        } else if t == from {
            assert(now[t] == merged);
            let j = choose|j: int| 0 <= j < merged.len() && merged[j] == e;
            assert(kept.contains(merged[j]));
            let i = choose|i: int| 0 <= i < kept.len() && kept[i] == e;
            assert(s.contains(kept[i]));
            let x = choose|x: int| 0 <= x < range.len() && (#[trigger] range[x]).contains(e);
            assert(all[from + x] == range[x]);
        } else {
            assert(now[t] == all[to + (t - from - 1)]);
            assert(all[to + (t - from - 1)].contains(e));
        }
    }
    assert forall|k: int| 0 <= k < a.len() && current(parts, #[trigger] a[k]) implies exists|j: int|
        0 <= j < b.len() && (#[trigger] b[j]).partition_id == a[k].partition_id && b[j].row == a[k].row
            && current(parts, b[j]) by {
        let e = a[k];
        lemma_newest_first(all, e);
        assert(a.contains(e));
        let t = choose|t: int| 0 <= t < all.len() && (#[trigger] all[t]).contains(e);
        if t < from {
            assert(now[t] == all[t]);
            lemma_newest_first(now, e);
            let j = choose|j: int| 0 <= j < b.len() && b[j] == e;
            assert(current(parts, b[j]));
        } else if t < to {
            lemma_newest_first(range, e);
            assert(range[t - from] == all[t]);
            let i = choose|i: int| 0 <= i < s.len() && s[i] == e;
            assert(names_row(kept, s[i].partition_id, s[i].row));
            let x = choose|x: int|
                0 <= x < kept.len() && (#[trigger] kept[x]).partition_id == e.partition_id && kept[x].row
                    == e.row;
            assert(merged.contains(kept[x]));
            assert(now[from] == merged);
            lemma_newest_first(now, kept[x]);
            let j = choose|j: int| 0 <= j < b.len() && b[j] == kept[x];
            assert(current(parts, kept[x]));
            assert(current(parts, b[j]));
        } else {
            assert(now[from + 1 + (t - to)] == all[t]);
            lemma_newest_first(now, e);
            let j = choose|j: int| 0 <= j < b.len() && b[j] == e;
            assert(current(parts, b[j]));
        }
    }
    lemma_same_copies(parts, a, b);
}

/// Total number of entries.
pub open spec fn total(all: Seq<Seq<RunEntry>>) -> int {
    newest_first(all).len() as int
}

/// A range has no more entries than the whole.
pub proof fn lemma_total_range(all: Seq<Seq<RunEntry>>, from: int, to: int)
    requires
        0 <= from <= to <= all.len(),
    ensures
        total(all.subrange(from, to)) <= total(all),
    decreases all.len(),
{
    if all.len() > 0 {
        let rest = all.drop_first();
        if from > 0 {
            lemma_total_range(rest, from - 1, to - 1);
            assert(rest.subrange(from - 1, to - 1) =~= all.subrange(from, to));
        } else if to > 0 {
            lemma_total_range(rest, 0, to - 1);
            assert(all.subrange(0, to).drop_first() =~= rest.subrange(0, to - 1));
        } else {
            assert(all.subrange(0, 0) =~= Seq::<Seq<RunEntry>>::empty());
        }
    } else {
        assert(all.subrange(from, to) =~= all);
    }
}

/// Number of entries over two parts.
pub proof fn lemma_total_add(a: Seq<Seq<RunEntry>>, b: Seq<Seq<RunEntry>>)
    ensures
        total(a + b) == total(a) + total(b),
    decreases a.len(),
{
    if a.len() == 0 {
        assert(a + b =~= b);
    } else {
        assert((a + b).drop_first() =~= a.drop_first() + b);
        lemma_total_add(a.drop_first(), b);
    }
}

/// Merging makes no entries.
pub proof fn lemma_total_merged(parts: Seq<PartitionState>, all: Seq<Seq<RunEntry>>, from: int, to: int)
    requires
        0 <= from <= to <= all.len(),
        total(all) <= u64::MAX,
    ensures
        total(merged_range(parts, all, from, to)) <= total(all),
{
    let a = all.take(from);
    let b = all.subrange(from, to);
    let c = all.skip(to);
    let kept = surviving(parts, newest_first(b));
    let one = seq![by_id(kept)];
    assert(all =~= a + (b + c));
    lemma_total_add(a, b + c);
    lemma_total_add(b, c);
    lemma_surviving(parts, newest_first(b));
    law_by_id(kept);
    let now = merged_range(parts, all, from, to);
    assert(now =~= a + (one + c));
    lemma_total_add(a, one + c);
    lemma_total_add(one, c);
    assert(one.drop_first() =~= Seq::<Seq<RunEntry>>::empty());
    assert(newest_first(one.drop_first()).len() == 0);
    assert(total(one) == one[0].len());
}

/// Merging in tiers changes no lookup.
pub proof fn lemma_tier_merged_copies(parts: Seq<PartitionState>, all: Seq<Seq<RunEntry>>)
    requires
        agreeing(parts, newest_first(all)),
        total(all) <= u64::MAX,
    ensures
        agreeing(parts, newest_first(tier_merged(parts, all))),
        total(tier_merged(parts, all)) <= u64::MAX,
        forall|id: u64, p: u32, r: u32|
            #[trigger] has_copy(parts, newest_first(tier_merged(parts, all)), id, p, r) <==> has_copy(
                parts,
                newest_first(all),
                id,
                p,
                r,
            ),
    decreases all.len(),
{
    let from = carry(all);
    if all.len() < 2 || from < 0 || from >= all.len() - 1 {
    } else {
        let n = all.len() as int;
        let next = merged_range(parts, all, from, n);
        lemma_total_range(all, from, n);
        law_merge_keeps_copies(parts, all, from, n);
        lemma_total_merged(parts, all, from, n);
        lemma_tier_merged_copies(parts, next);
        assert forall|id: u64, p: u32, r: u32| #[trigger] has_copy(
            parts,
            newest_first(tier_merged(parts, all)),
            id,
            p,
            r,
        ) <==> has_copy(parts, newest_first(all), id, p, r) by {
            assert(has_copy(parts, newest_first(next), id, p, r) <==> has_copy(
                parts,
                newest_first(all),
                id,
                p,
                r,
            ));
        }
    }
}

/// Tidying the runs changes no lookup.
pub proof fn law_tidying_keeps_copies(parts: Seq<PartitionState>, all: Seq<Seq<RunEntry>>)
    requires
        agreeing(parts, newest_first(all)),
        total(all) <= u64::MAX,
    ensures
        agreeing(parts, newest_first(tidied(parts, all))),
        forall|id: u64, p: u32, r: u32|
            #[trigger] has_copy(parts, newest_first(tidied(parts, all)), id, p, r) <==> has_copy(
                parts,
                newest_first(all),
                id,
                p,
                r,
            ),
{
    let t = tier_merged(parts, all);
    lemma_tier_merged_copies(parts, all);
    if t.len() > RUN_TIER_BACKSTOP {
        let n = t.len() as int;
        lemma_total_range(t, 0, n);
        law_merge_keeps_copies(parts, t, 0, n);
        assert forall|id: u64, p: u32, r: u32| #[trigger] has_copy(
            parts,
            newest_first(tidied(parts, all)),
            id,
            p,
            r,
        ) <==> has_copy(parts, newest_first(all), id, p, r) by {
            assert(has_copy(parts, newest_first(t), id, p, r) <==> has_copy(
                parts,
                newest_first(all),
                id,
                p,
                r,
            ));
        }
    }
}

/// Partitions with the same ids have the same places.
pub proof fn lemma_place_same(a: Seq<PartitionState>, b: Seq<PartitionState>, partition_id: u32, k: int)
    requires
        a.len() == b.len(),
        forall|i: int| 0 <= i < a.len() ==> (#[trigger] a[i]).partition_id == b[i].partition_id,
        0 <= k <= a.len(),
    ensures
        place_from(a, partition_id, k) == place_from(b, partition_id, k),
    decreases a.len() - k,
{
    if k < a.len() {
        assert(a[k].partition_id == b[k].partition_id);
        lemma_place_same(a, b, partition_id, k + 1);
    }
}

/// `b` is `a` with row `row` of partition `at` marked dead.
pub open spec fn one_more_dead(
    a: Seq<PartitionState>,
    b: Seq<PartitionState>,
    at: int,
    row: int,
) -> bool {
    &&& a.len() == b.len()
    &&& 0 <= at < a.len()
    &&& forall|i: int| 0 <= i < a.len() && i != at ==> #[trigger] b[i] == a[i]
    &&& b[at].partition_id == a[at].partition_id
    &&& b[at].generation == a[at].generation
    &&& b[at].n_rows == a[at].n_rows
    &&& forall|q: int| 0 <= q ==> #[trigger] marked(b[at].dead@, q) == (q == row || marked(a[at].dead@, q))
}

/// Marking a row dead takes exactly that row out of the lookups.
pub proof fn law_dead_row_is_not_found(
    a: Seq<PartitionState>,
    b: Seq<PartitionState>,
    entries: Seq<RunEntry>,
    partition_id: u32,
    row: u32,
)
    requires
        one_more_dead(a, b, place(a, partition_id), row as int),
    ensures
        forall|id: u64, p: u32, r: u32|
            #[trigger] has_copy(b, entries, id, p, r) <==> has_copy(a, entries, id, p, r) && !(p
                == partition_id && r == row),
        agreeing(a, entries) ==> agreeing(b, entries),
{
    let at = place(a, partition_id);
    lemma_place(a, partition_id, 0);
    assert forall|i: int| 0 <= i < a.len() implies (#[trigger] a[i]).partition_id == b[i].partition_id by {
        if i != at {
            assert(b[i] == a[i]);
        }
    }
    assert forall|k: int| 0 <= k < entries.len() implies current(b, #[trigger] entries[k]) == (current(
        a,
        entries[k],
    ) && !(entries[k].partition_id == partition_id && entries[k].row == row)) by {
        let e = entries[k];
        lemma_place_same(a, b, e.partition_id, 0);
        lemma_place(a, e.partition_id, 0);
        let p = place(a, e.partition_id);
        if p < a.len() {
            if p != at {
                assert(b[p] == a[p]);
            } else {
                assert(marked(b[at].dead@, e.row as int) == (e.row == row || marked(
                    a[at].dead@,
                    e.row as int,
                )));
            }
        }
    }
    assert forall|id: u64, p: u32, r: u32| #[trigger] has_copy(b, entries, id, p, r) <==> has_copy(
        a,
        entries,
        id,
        p,
        r,
    ) && !(p == partition_id && r == row) by {
        if has_copy(b, entries, id, p, r) {
            let k = choose|k: int|
                0 <= k < entries.len() && (#[trigger] entries[k]).id == id && entries[k].partition_id == p
                    && entries[k].row == r && current(b, entries[k]);
            assert(current(a, entries[k]));
        }
        if has_copy(a, entries, id, p, r) && !(p == partition_id && r == row) {
            let k = choose|k: int|
                0 <= k < entries.len() && (#[trigger] entries[k]).id == id && entries[k].partition_id == p
                    && entries[k].row == r && current(a, entries[k]);
            assert(current(b, entries[k]));
        }
    }
}

} // verus!
