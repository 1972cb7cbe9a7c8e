//! What search results owe the rows of an index.
use vstd::prelude::*;
use crate::answer::Scan;
use crate::bits::{marked, marks};
use crate::bytes::u64_at;
use crate::chunk::chunk_start;
use crate::contents::ids_in;
use crate::disk::{holds_slot, DiskIndex};
use crate::fresh_search::{chunk_candidates, law_dead_rows_displace_none};
use crate::indexed::alive;
use crate::pack::Layout;
use crate::partition::{
    lemma_rows_between_len, lemma_rows_upto, rows_between, rows_upto, ChunkMeta, PartitionState,
};
use crate::rank::{law_top_candidates, represented, score_rank, top_candidates};
use crate::search::{least, scanned, zipped};
use crate::tvdm::{hdr_slots, slots_before, table_of, u64_section};
use crate::write_laws::faithful;

verus! {

/// The ids of candidates.
pub open spec fn ids_of(s: Seq<(u32, u64)>) -> Seq<u64> {
    Seq::new(s.len(), |i: int| s[i].1)
}

/// A row that `m` candidates with distinct ids equal or beat is represented in
/// a list of the best `m`: the list is then full of candidates that are no
/// worse than the row.
pub proof fn law_beaten_row_is_represented(s: Seq<(u32, u64)>, m: int, chosen: Seq<(u32, u64)>, row: (u32, u64))
    requires
        0 <= m,
        chosen.len() == m,
        ids_of(chosen).no_duplicates(),
        forall|i: int| 0 <= i < m ==> s.contains(#[trigger] chosen[i]) && score_rank(chosen[i].0) <= score_rank(row.0),
    ensures
        represented(top_candidates(s, m), m, row),
{
    let top = top_candidates(s, m);
    law_top_candidates(s, m);
    if !represented(top, m, row) {
        // All entries but one that is worse than the row hold the `m` ids.
        let bad = if top.len() == m {
            choose|i: int| 0 <= i < m && score_rank((#[trigger] top[i]).0) > score_rank(row.0)
        } else {
            -1
        };
        let kept = Set::new(|i: int| 0 <= i < top.len() && i != bad);
        let places = Seq::new(m as nat, |i: int| place_in(top, chosen[i]));
        assert forall|i: int| 0 <= i < m implies kept.contains(#[trigger] places[i]) && top[places[i]].1
            == chosen[i].1 by {
            assert(s.contains(chosen[i]));
            let q = choose|q: int| 0 <= q < s.len() && s[q] == chosen[i];
            assert(represented(top, m, s[q]));
            if top.len() == m {
                assert(score_rank(top[bad].0) > score_rank(chosen[i].0));
            }
            let p = choose|p: int|
                0 <= p < top.len() && (#[trigger] top[p]).1 == chosen[i].1 && score_rank(top[p].0) <= score_rank(
                    chosen[i].0,
                );
            assert(top[place_in(top, chosen[i])].1 == chosen[i].1);
        }
        assert(places.no_duplicates()) by {
            assert forall|i: int, j: int| 0 <= i < m && 0 <= j < m && i != j implies places[i] != places[j] by {
                assert(ids_of(chosen)[i] != ids_of(chosen)[j]);
                assert(top[places[i]].1 == chosen[i].1 && top[places[j]].1 == chosen[j].1);
            }
        }
        places.unique_seq_to_set();
        lemma_all_but(top.len() as int, bad);
        assert forall|p: int| places.to_set().contains(p) implies kept.contains(p) by {
            let i = choose|i: int| 0 <= i < places.len() && places[i] == p;
            assert(kept.contains(places[i]));
        }
        vstd::set_lib::lemma_len_subset(places.to_set(), kept);
    }
}

/// Where a list holds the id of `c` with no worse score.
spec fn place_in(top: Seq<(u32, u64)>, c: (u32, u64)) -> int {
    choose|p: int| 0 <= p < top.len() && (#[trigger] top[p]).1 == c.1 && score_rank(top[p].0) <= score_rank(c.0)
}

/// There are `n` numbers below `n`, and one less without one of them.
proof fn lemma_all_but(n: int, bad: int)
    requires
        0 <= n,
        -1 <= bad < n,
    ensures
        Set::new(|i: int| 0 <= i < n && i != bad).finite(),
        Set::new(|i: int| 0 <= i < n && i != bad).len() == if bad >= 0 {
            n - 1
        } else {
            n
        },
    decreases n,
{
    let s = Set::new(|i: int| 0 <= i < n && i != bad);
    if n == 0 {
        assert(s =~= Set::<int>::empty());
    } else if bad == n - 1 {
        lemma_all_but(n - 1, -1);
        assert(s =~= Set::new(|i: int| 0 <= i < n - 1 && i != -1));
    } else {
        lemma_all_but(n - 1, bad);
        let t = Set::new(|i: int| 0 <= i < n - 1 && i != bad);
        assert(s =~= t.insert(n - 1));
        assert(!t.contains(n - 1));
    }
}

/// The id of a row of a chunk.
pub open spec fn row_id(file: Seq<u8>, ids_at: int, slot: int) -> u64 {
    u64_at(file, ids_at + 8 * slot)
}

/// `c` is the candidate of scanned row `j`.
spec fn is_row(c: (u32, u64), file: Seq<u8>, ids_at: int, scores: Seq<u32>, slots: Seq<usize>, j: int) -> bool {
    c == (scores[j], row_id(file, ids_at, slots[j] as int))
}

/// `c` is the candidate of some scanned row that is alive.
spec fn is_live_row(
    c: (u32, u64),
    file: Seq<u8>,
    ids_at: int,
    dead: Seq<u8>,
    base: int,
    scores: Seq<u32>,
    slots: Seq<usize>,
) -> bool {
    exists|j: int|
        0 <= j < slots.len() && !marked(dead, base + slots[j]) && #[trigger] is_row(
            c,
            file,
            ids_at,
            scores,
            slots,
            j,
        )
}

/// The candidates of a chunk are its scanned rows that are alive.
proof fn lemma_chunk_candidates(
    file: Seq<u8>,
    ids_at: int,
    dead: Seq<u8>,
    base: int,
    scores: Seq<u32>,
    slots: Seq<usize>,
)
    requires
        forall|i: int, j: int|
            0 <= i < j < slots.len() ==> row_id(file, ids_at, #[trigger] slots[i] as int) != row_id(
                file,
                ids_at,
                #[trigger] slots[j] as int,
            ),
    ensures
        ({
            let c = chunk_candidates(file, ids_at, dead, base, scores, slots);
            &&& forall|i: int|
                0 <= i < c.len() ==> is_live_row(#[trigger] c[i], file, ids_at, dead, base, scores, slots)
            &&& forall|j: int|
                0 <= j < slots.len() && !marked(dead, base + #[trigger] slots[j]) ==> c.contains(
                    (scores[j], row_id(file, ids_at, slots[j] as int)),
                )
            &&& ids_of(c).no_duplicates()
        }),
    decreases slots.len(),
{
    if slots.len() > 0 {
        let init = slots.drop_last();
        let n = slots.len() - 1;
        assert forall|i: int, j: int| 0 <= i < j < init.len() implies row_id(
            file,
            ids_at,
            #[trigger] init[i] as int,
        ) != row_id(file, ids_at, #[trigger] init[j] as int) by {
            assert(init[i] == slots[i] && init[j] == slots[j]);
        }
        lemma_chunk_candidates(file, ids_at, dead, base, scores, init);
        let a = chunk_candidates(file, ids_at, dead, base, scores, init);
        let c = chunk_candidates(file, ids_at, dead, base, scores, slots);
        let last = (scores[n], row_id(file, ids_at, slots[n] as int));
        assert(slots[n] == slots.last());
        assert forall|i: int| 0 <= i < a.len() implies (#[trigger] a[i]).1 != last.1 && is_live_row(
            a[i],
            file,
            ids_at,
            dead,
            base,
            scores,
            slots,
        ) by {
            let j = choose|j: int|
                0 <= j < init.len() && !marked(dead, base + init[j]) && #[trigger] is_row(
                    a[i],
                    file,
                    ids_at,
                    scores,
                    init,
                    j,
                );
            assert(init[j] == slots[j]);
            assert(is_row(a[i], file, ids_at, scores, slots, j));
        }
        assert forall|i: int| 0 <= i < c.len() implies is_live_row(
            #[trigger] c[i],
            file,
            ids_at,
            dead,
            base,
            scores,
            slots,
        ) by {
            if i < a.len() {
                assert(c[i] == a[i]);
            } else {
                assert(is_row(c[i], file, ids_at, scores, slots, n));
            }
        }
        assert forall|j: int| 0 <= j < slots.len() && !marked(dead, base + #[trigger] slots[j]) implies c.contains(
            (scores[j], row_id(file, ids_at, slots[j] as int)),
        ) by {
            let want = (scores[j], row_id(file, ids_at, slots[j] as int));
            if j < n {
                assert(init[j] == slots[j]);
                assert(a.contains(want));
                let i = choose|i: int| 0 <= i < a.len() && a[i] == want;
                assert(c[i] == want);
            } else {
                assert(c[a.len() as int] == last);
            }
        }
        assert forall|i: int, k: int| 0 <= i < c.len() && 0 <= k < c.len() && i != k implies ids_of(c)[i] != ids_of(
            c,
        )[k] by {
            if i < a.len() && k < a.len() {
                assert(ids_of(a)[i] != ids_of(a)[k]);
            } else if i < a.len() {
                assert(a[i].1 != last.1);
            } else {
                assert(a[k].1 != last.1);
            }
        }
    }
}

/// A chunk that is scanned for as many rows as planned, best first, hides no
/// live row: each is in the merged result, or the result is full of rows that
/// are no worse.
pub proof fn law_scanned_chunk_is_represented(
    file: Seq<u8>,
    ids_at: int,
    dead: Seq<u8>,
    base: int,
    n: int,
    fetch_k: int,
    all_scores: Seq<u32>,
    slots: Seq<usize>,
    candidates: Seq<(u32, u64)>,
    q: int,
)
    requires
        0 <= base,
        0 <= fetch_k,
        all_scores.len() == n,
        slots.no_duplicates(),
        forall|j: int| 0 <= j < slots.len() ==> #[trigger] slots[j] < n,
        slots.len() == least(fetch_k + marks(dead, base, base + n), n),
        forall|j: int, r: int|
            0 <= j < slots.len() && 0 <= r < n && !slots.contains(r as usize) ==> score_rank(
                all_scores[#[trigger] slots[j] as int],
            ) <= score_rank(#[trigger] all_scores[r]),
        forall|i: int, j: int|
            0 <= i < j < n ==> #[trigger] row_id(file, ids_at, i) != #[trigger] row_id(file, ids_at, j),
        n <= usize::MAX,
        forall|c: (u32, u64)|
            chunk_candidates(file, ids_at, dead, base, picked_scores(all_scores, slots), slots).contains(c)
                ==> #[trigger] candidates.contains(c),
        0 <= q < n,
        !marked(dead, base + q),
    ensures
        represented(
            top_candidates(candidates, fetch_k),
            fetch_k,
            (all_scores[q], row_id(file, ids_at, q)),
        ),
{
    let scores = picked_scores(all_scores, slots);
    let c = chunk_candidates(file, ids_at, dead, base, scores, slots);
    let row = (all_scores[q], row_id(file, ids_at, q));
    assert forall|i: int, j: int| 0 <= i < j < slots.len() implies row_id(
        file,
        ids_at,
        #[trigger] slots[i] as int,
    ) != row_id(file, ids_at, #[trigger] slots[j] as int) by {
        assert(slots[i] != slots[j]);
        if slots[i] < slots[j] {
            assert(row_id(file, ids_at, slots[i] as int) != row_id(file, ids_at, slots[j] as int));
        } else {
            assert(row_id(file, ids_at, slots[j] as int) != row_id(file, ids_at, slots[i] as int));
        }
    }
    lemma_chunk_candidates(file, ids_at, dead, base, scores, slots);
    if slots.contains(q as usize) {
        let j = choose|j: int| 0 <= j < slots.len() && slots[j] == q as usize;
        assert(c.contains((scores[j], row_id(file, ids_at, slots[j] as int))));
        assert(candidates.contains(row));
        let i = choose|i: int| 0 <= i < candidates.len() && candidates[i] == row;
        law_top_candidates(candidates, fetch_k);
        assert(represented(top_candidates(candidates, fetch_k), fetch_k, candidates[i]));
    } else {
        lemma_not_all(slots, n, q);
        law_dead_rows_displace_none(file, ids_at, dead, base, n, fetch_k, scores, slots);
        crate::bits::lemma_marks_bound(dead, base, base + n);
        let chosen = c.take(fetch_k);
        assert forall|i: int| 0 <= i < fetch_k implies candidates.contains(#[trigger] chosen[i]) && score_rank(
            chosen[i].0,
        ) <= score_rank(row.0) by {
            assert(chosen[i] == c[i]);
            assert(c.contains(c[i]));
            assert(is_live_row(c[i], file, ids_at, dead, base, scores, slots));
            let j = choose|j: int|
                0 <= j < slots.len() && !marked(dead, base + slots[j]) && #[trigger] is_row(
                    c[i],
                    file,
                    ids_at,
                    scores,
                    slots,
                    j,
                );
            assert(score_rank(all_scores[slots[j] as int]) <= score_rank(all_scores[q]));
        }
        assert(ids_of(chosen).no_duplicates()) by {
            assert forall|i: int, k: int| 0 <= i < chosen.len() && 0 <= k < chosen.len() && i != k implies ids_of(
                chosen,
            )[i] != ids_of(chosen)[k] by {
                assert(ids_of(c)[i] != ids_of(c)[k]);
            }
        }
        law_beaten_row_is_represented(candidates, fetch_k, chosen, row);
    }
}

/// The scores of scanned rows.
pub open spec fn picked_scores(all_scores: Seq<u32>, slots: Seq<usize>) -> Seq<u32> {
    Seq::new(slots.len(), |j: int| all_scores[slots[j] as int])
}

/// Slots that leave one out are fewer than all.
proof fn lemma_not_all(slots: Seq<usize>, n: int, q: int)
    requires
        slots.no_duplicates(),
        forall|j: int| 0 <= j < slots.len() ==> #[trigger] slots[j] < n,
        0 <= q < n <= usize::MAX,
        !slots.contains(q as usize),
    ensures
        slots.len() < n,
{
    let rows = Seq::new(slots.len(), |j: int| slots[j] as int);
    let others = Set::new(|i: int| 0 <= i < n && i != q);
    assert(rows.no_duplicates()) by {
        assert forall|i: int, j: int| 0 <= i < rows.len() && 0 <= j < rows.len() && i != j implies rows[i]
            != rows[j] by {
            assert(slots[i] != slots[j]);
        }
    }
    rows.unique_seq_to_set();
    lemma_all_but(n, q);
    assert forall|r: int| rows.to_set().contains(r) implies others.contains(r) by {
        let j = choose|j: int| 0 <= j < rows.len() && rows[j] == r;
        assert(slots[j] < n);
        assert(slots.contains(slots[j]));
    }
    vstd::set_lib::lemma_len_subset(rows.to_set(), others);
}

/// The scan of a base partition gives live ids only.
pub proof fn law_scan_gives_live_ids(
    x: DiskIndex,
    file: Seq<u8>,
    first: int,
    scores: Seq<u32>,
    slots: Seq<usize>,
    i: int,
)
    requires
        x.base is Some,
        faithful(file),
        0 <= first,
        forall|j: int| 0 <= j < slots.len() ==> first + #[trigger] slots[j] < hdr_slots(file),
        0 <= i < scanned(file, x.tombstones@, first, scores, slots).len(),
    ensures
        x.live(file).contains(scanned(file, x.tombstones@, first, scores, slots)[i].1),
    decreases slots.len(),
{
    let init = slots.drop_last();
    let a = scanned(file, x.tombstones@, first, scores, init);
    let c = scanned(file, x.tombstones@, first, scores, slots);
    if slots.len() > 0 {
        assert forall|j: int| 0 <= j < init.len() implies first + #[trigger] init[j] < hdr_slots(file) by {
            assert(init[j] == slots[j]);
        }
        if i < a.len() {
            law_scan_gives_live_ids(x, file, first, scores, init, i);
            assert(c[i] == a[i]);
        } else {
            let slot = first + slots[slots.len() - 1];
            let id = u64_section(file, 7)[slot];
            assert(holds_slot(file, u64_section(file, 7)[slot], slot));
            let t = choose|t: int|
                0 <= t < hdr_slots(file) && #[trigger] u64_section(file, 8)[t] == id && u64_section(file, 9)[t]
                    == slot;
            assert(u64_section(file, 8).contains(id));
            assert(ids_in(file).contains(id));
        }
    }
}

/// The id in a slot.
pub open spec fn slot_id(file: Seq<u8>, first: int, slot: int) -> u64 {
    u64_section(file, 7)[first + slot]
}

/// The removed ids among scanned slots.
pub open spec fn removed_among(file: Seq<u8>, removed: Set<u64>, first: int, slots: Seq<usize>) -> Set<u64>
    decreases slots.len(),
{
    if slots.len() == 0 {
        Set::empty()
    } else {
        let id = slot_id(file, first, slots.last() as int);
        let before = removed_among(file, removed, first, slots.drop_last());
        if removed.contains(id) {
            before.insert(id)
        } else {
            before
        }
    }
}

/// The candidates of a partition are its scanned rows that are not removed.
pub proof fn lemma_scanned(file: Seq<u8>, removed: Set<u64>, first: int, scores: Seq<u32>, slots: Seq<usize>)
    requires
        forall|i: int, j: int|
            0 <= i < j < slots.len() ==> slot_id(file, first, #[trigger] slots[i] as int) != slot_id(
                file,
                first,
                #[trigger] slots[j] as int,
            ),
    ensures
        ({
            let c = scanned(file, removed, first, scores, slots);
            let gone = removed_among(file, removed, first, slots);
            &&& forall|i: int|
                0 <= i < c.len() ==> exists|j: int|
                    0 <= j < slots.len() && #[trigger] c[i] == (
                        scores[j],
                        slot_id(file, first, #[trigger] slots[j] as int),
                    )
            &&& forall|j: int|
                0 <= j < slots.len() && !removed.contains(slot_id(file, first, #[trigger] slots[j] as int))
                    ==> c.contains((scores[j], slot_id(file, first, slots[j] as int)))
            &&& ids_of(c).no_duplicates()
            &&& gone.finite()
            &&& gone.subset_of(removed)
            &&& c.len() + gone.len() == slots.len()
            &&& forall|id: u64|
                #[trigger] gone.contains(id) ==> exists|j: int|
                    0 <= j < slots.len() && slot_id(file, first, #[trigger] slots[j] as int) == id
        }),
    decreases slots.len(),
{
    if slots.len() > 0 {
        let init = slots.drop_last();
        let n = slots.len() - 1;
        assert forall|i: int, j: int| 0 <= i < j < init.len() implies slot_id(
            file,
            first,
            #[trigger] init[i] as int,
        ) != slot_id(file, first, #[trigger] init[j] as int) by {
            assert(init[i] == slots[i] && init[j] == slots[j]);
        }
        lemma_scanned(file, removed, first, scores, init);
        let a = scanned(file, removed, first, scores, init);
        let c = scanned(file, removed, first, scores, slots);
        let before = removed_among(file, removed, first, init);
        let gone = removed_among(file, removed, first, slots);
        let id = slot_id(file, first, slots[n] as int);
        assert(slots[n] == slots.last());
        assert forall|i: int| 0 <= i < a.len() implies (#[trigger] a[i]).1 != id by {
            let j = choose|j: int|
                0 <= j < init.len() && a[i] == (scores[j], slot_id(file, first, #[trigger] init[j] as int));
            assert(init[j] == slots[j]);
        }
        if before.contains(id) {
            let j = choose|j: int| 0 <= j < init.len() && slot_id(file, first, #[trigger] init[j] as int) == id;
            assert(init[j] == slots[j]);
        }
        assert forall|i: int| 0 <= i < c.len() implies exists|j: int|
            0 <= j < slots.len() && #[trigger] c[i] == (
                scores[j],
                slot_id(file, first, #[trigger] slots[j] as int),
            ) by {
            if i < a.len() {
                assert(c[i] == a[i]);
                let j = choose|j: int|
                    0 <= j < init.len() && a[i] == (scores[j], slot_id(file, first, #[trigger] init[j] as int));
                assert(slots[j] == init[j]);
            }
        }
        assert forall|j: int|
            0 <= j < slots.len() && !removed.contains(slot_id(file, first, #[trigger] slots[j] as int))
            implies c.contains((scores[j], slot_id(file, first, slots[j] as int))) by {
            let want = (scores[j], slot_id(file, first, slots[j] as int));
            if j < n {
                assert(init[j] == slots[j]);
                assert(a.contains(want));
                let i = choose|i: int| 0 <= i < a.len() && a[i] == want;
                assert(c[i] == want);
            } else {
                assert(c[a.len() as int] == want);
            }
        }
        assert forall|i: int, k: int| 0 <= i < c.len() && 0 <= k < c.len() && i != k implies ids_of(c)[i] != ids_of(
            c,
        )[k] by {
            if i < a.len() && k < a.len() {
                assert(ids_of(a)[i] != ids_of(a)[k]);
            } else if i < a.len() {
                assert(a[i].1 != id);
            } else {
                assert(a[k].1 != id);
            }
        }
        assert forall|x: u64| #[trigger] gone.contains(x) implies exists|j: int|
            0 <= j < slots.len() && slot_id(file, first, #[trigger] slots[j] as int) == x by {
            if before.contains(x) {
                let j = choose|j: int| 0 <= j < init.len() && slot_id(file, first, #[trigger] init[j] as int) == x;
                assert(init[j] == slots[j]);
            }
        }
    }
}

/// A base partition that is scanned for as many rows as planned, best first,
/// hides no live row, however many ids are removed.
pub proof fn law_scanned_partition_is_represented(
    file: Seq<u8>,
    removed: Set<u64>,
    first: int,
    n: int,
    fetch_k: int,
    all_scores: Seq<u32>,
    slots: Seq<usize>,
    candidates: Seq<(u32, u64)>,
    q: int,
)
    requires
        removed.finite(),
        0 <= fetch_k,
        all_scores.len() == n,
        slots.no_duplicates(),
        forall|j: int| 0 <= j < slots.len() ==> #[trigger] slots[j] < n,
        slots.len() == least(fetch_k + removed.len(), n),
        forall|j: int, r: int|
            0 <= j < slots.len() && 0 <= r < n && !slots.contains(r as usize) ==> score_rank(
                all_scores[#[trigger] slots[j] as int],
            ) <= score_rank(#[trigger] all_scores[r]),
        forall|i: int, j: int|
            0 <= i < j < n ==> #[trigger] slot_id(file, first, i) != #[trigger] slot_id(file, first, j),
        n <= usize::MAX,
        forall|c: (u32, u64)|
            scanned(file, removed, first, picked_scores(all_scores, slots), slots).contains(c)
                ==> #[trigger] candidates.contains(c),
        0 <= q < n,
        !removed.contains(slot_id(file, first, q)),
    ensures
        represented(
            top_candidates(candidates, fetch_k),
            fetch_k,
            (all_scores[q], slot_id(file, first, q)),
        ),
{
    let scores = picked_scores(all_scores, slots);
    let c = scanned(file, removed, first, scores, slots);
    let row = (all_scores[q], slot_id(file, first, q));
    assert forall|i: int, j: int| 0 <= i < j < slots.len() implies slot_id(
        file,
        first,
        #[trigger] slots[i] as int,
    ) != slot_id(file, first, #[trigger] slots[j] as int) by {
        assert(slots[i] != slots[j]);
        if slots[i] < slots[j] {
            assert(slot_id(file, first, slots[i] as int) != slot_id(file, first, slots[j] as int));
        } else {
            assert(slot_id(file, first, slots[j] as int) != slot_id(file, first, slots[i] as int));
        }
    }
    lemma_scanned(file, removed, first, scores, slots);
    if slots.contains(q as usize) {
        let j = choose|j: int| 0 <= j < slots.len() && slots[j] == q as usize;
        assert(c.contains((scores[j], slot_id(file, first, slots[j] as int))));
        assert(candidates.contains(row));
        let i = choose|i: int| 0 <= i < candidates.len() && candidates[i] == row;
        law_top_candidates(candidates, fetch_k);
        assert(represented(top_candidates(candidates, fetch_k), fetch_k, candidates[i]));
    } else {
        lemma_not_all(slots, n, q);
        vstd::set_lib::lemma_len_subset(removed_among(file, removed, first, slots), removed);
        let chosen = c.take(fetch_k);
        assert forall|i: int| 0 <= i < fetch_k implies candidates.contains(#[trigger] chosen[i]) && score_rank(
            chosen[i].0,
        ) <= score_rank(row.0) by {
            assert(chosen[i] == c[i]);
            assert(c.contains(c[i]));
            let j = choose|j: int|
                0 <= j < slots.len() && c[i] == (scores[j], slot_id(file, first, #[trigger] slots[j] as int));
            assert(score_rank(all_scores[slots[j] as int]) <= score_rank(all_scores[q]));
        }
        assert(ids_of(chosen).no_duplicates()) by {
            assert forall|i: int, k: int| 0 <= i < chosen.len() && 0 <= k < chosen.len() && i != k implies ids_of(
                chosen,
            )[i] != ids_of(chosen)[k] by {
                assert(ids_of(c)[i] != ids_of(c)[k]);
            }
        }
        law_beaten_row_is_represented(candidates, fetch_k, chosen, row);
    }
}

/// Every merged result comes from a candidate: where all candidates are live,
/// so are the results.
pub proof fn law_results_are_live(s: Seq<(u32, u64)>, m: int, live: Set<u64>)
    requires
        0 <= m,
        forall|i: int| 0 <= i < s.len() ==> live.contains((#[trigger] s[i]).1),
    ensures
        forall|i: int| 0 <= i < top_candidates(s, m).len() ==> live.contains((#[trigger] top_candidates(s, m)[i]).1),
{
    let top = top_candidates(s, m);
    law_top_candidates(s, m);
    assert forall|i: int| 0 <= i < top.len() implies live.contains((#[trigger] top[i]).1) by {
        assert(s.contains(top[i]));
        let q = choose|q: int| 0 <= q < s.len() && s[q] == top[i];
        assert(live.contains(s[q].1));
    }
}

/// The candidates that scans of a base file give are live.
proof fn lemma_scan_candidates_live(x: DiskIndex, file: Seq<u8>, scans: Seq<Scan>, n: int, i: int)
    requires
        x.wf(file),
        faithful(file),
        0 <= n <= scans.len(),
        forall|k: int| 0 <= k < scans.len() ==> x.scans(#[trigger] scans[k]),
        0 <= i < x.scan_candidates(file, scans, n).len(),
    ensures
        x.live(file).contains(x.scan_candidates(file, scans, n)[i].1),
    decreases n,
{
    if n > 0 {
        let s = scans[n - 1];
        let a = x.scan_candidates(file, scans, n - 1);
        let first = slots_before(table_of(file), s.partition as int);
        let c = scanned(file, x.tombstones@, first, s.scores@, s.slots@);
        assert(x.scans(scans[n - 1]));
        if i < a.len() {
            lemma_scan_candidates_live(x, file, scans, n - 1, i);
        } else {
            x.base->0.lemma_describes(file);
            crate::contents::lemma_partition_codes(file, x.base->0.flavor, s.partition as int);
            assert forall|j: int| 0 <= j < s.slots@.len() implies first + #[trigger] s.slots@[j] < hdr_slots(file) by {
                assert(s.slots@[j] < x.base->0.partitions@[s.partition as int].n);
            }
            law_scan_gives_live_ids(x, file, first, s.scores@, s.slots@, i - a.len());
            assert(x.scan_candidates(file, scans, n)[i] == c[i - a.len()]);
        }
    }
}

/// What a query is answered is live, and no id is answered twice.
pub proof fn law_answers_are_live(
    x: DiskIndex,
    file: Seq<u8>,
    scans: Seq<Scan>,
    scores: Seq<u32>,
    ids: Seq<u64>,
    m: int,
    i: int,
)
    requires
        x.wf(file),
        faithful(file),
        forall|k: int| 0 <= k < scans.len() ==> x.scans(#[trigger] scans[k]),
        scores.len() == ids.len(),
        forall|j: int| 0 <= j < ids.len() ==> x.delta.ids@.contains(#[trigger] ids[j]),
        0 <= m,
        0 <= i < top_candidates(x.scan_candidates(file, scans, scans.len() as int) + zipped(scores, ids), m).len(),
    ensures
        x.live(file).contains(
            top_candidates(x.scan_candidates(file, scans, scans.len() as int) + zipped(scores, ids), m)[i].1,
        ),
        forall|j: int|
            0 <= j < i ==> top_candidates(
                x.scan_candidates(file, scans, scans.len() as int) + zipped(scores, ids),
                m,
            )[j].1 != top_candidates(
                x.scan_candidates(file, scans, scans.len() as int) + zipped(scores, ids),
                m,
            )[i].1,
{
    let n = scans.len() as int;
    let base = x.scan_candidates(file, scans, n);
    let all = base + zipped(scores, ids);
    assert forall|q: int| 0 <= q < all.len() implies x.live(file).contains((#[trigger] all[q]).1) by {
        if q < base.len() {
            lemma_scan_candidates_live(x, file, scans, n, q);
        } else {
            assert(all[q].1 == ids[q - base.len()]);
            assert(x.delta.ids@.to_set().contains(ids[q - base.len()]));
        }
    }
    law_results_are_live(all, m, x.live(file));
    law_top_candidates(all, m);
}

/// Row `slot` of chunk `k` is the partition's row of that number.
proof fn lemma_row_of_chunk(
    flavor: Layout,
    file: Seq<u8>,
    chunks: Seq<ChunkMeta>,
    ng: int,
    width: int,
    k: int,
    n: int,
    slot: int,
)
    requires
        0 <= k < n <= chunks.len(),
        0 <= slot < chunks[k].n_rows,
    ensures
        rows_between(flavor, file, chunks, ng, width, 0, n).len() == rows_upto(chunks, n),
        rows_upto(chunks, k) + slot < rows_upto(chunks, n),
        rows_between(flavor, file, chunks, ng, width, 0, n)[rows_upto(chunks, k) + slot].id == row_id(
            file,
            chunks[k].offset + chunk_start(ng, width, chunks[k].n_rows as int, 3),
            slot,
        ),
    decreases n,
{
    lemma_rows_between_len(flavor, file, chunks, ng, width, 0, n);
    lemma_rows_between_len(flavor, file, chunks, ng, width, 0, n - 1);
    assert(rows_upto(chunks, 0) == 0);
    lemma_rows_upto(chunks, 0, k);
    if k < n - 1 {
        lemma_row_of_chunk(flavor, file, chunks, ng, width, k, n - 1, slot);
        let a = rows_between(flavor, file, chunks, ng, width, 0, n - 1);
        let b = rows_between(flavor, file, chunks, ng, width, 0, n);
        assert(b[rows_upto(chunks, k) + slot] == a[rows_upto(chunks, k) + slot]);
    }
}

/// The candidates of a chunk are live rows of the partition.
pub proof fn law_chunk_candidates_are_alive(
    flavor: Layout,
    p: PartitionState,
    file: Seq<u8>,
    ng: int,
    width: int,
    k: int,
    scores: Seq<u32>,
    slots: Seq<usize>,
    i: int,
)
    requires
        p.wf(),
        0 <= k < p.chunks@.len(),
        forall|j: int| 0 <= j < slots.len() ==> #[trigger] slots[j] < p.chunks@[k].n_rows,
        0 <= i < chunk_candidates(
            file,
            p.chunks@[k].offset + chunk_start(ng, width, p.chunks@[k].n_rows as int, 3),
            p.dead@,
            rows_upto(p.chunks@, k),
            scores,
            slots,
        ).len(),
    ensures
        exists|r: int| #[trigger]
            alive(p, r) && p.rows(flavor, file, ng, width)[r].id == chunk_candidates(
                file,
                p.chunks@[k].offset + chunk_start(ng, width, p.chunks@[k].n_rows as int, 3),
                p.dead@,
                rows_upto(p.chunks@, k),
                scores,
                slots,
            )[i].1,
    decreases slots.len(),
{
    let ids_at = p.chunks@[k].offset + chunk_start(ng, width, p.chunks@[k].n_rows as int, 3);
    let base = rows_upto(p.chunks@, k);
    let c = chunk_candidates(file, ids_at, p.dead@, base, scores, slots);
    if slots.len() > 0 {
        let init = slots.drop_last();
        let a = chunk_candidates(file, ids_at, p.dead@, base, scores, init);
        assert forall|j: int| 0 <= j < init.len() implies #[trigger] init[j] < p.chunks@[k].n_rows by {
            assert(init[j] == slots[j]);
        }
        if i < a.len() {
            law_chunk_candidates_are_alive(flavor, p, file, ng, width, k, scores, init, i);
            assert(c[i] == a[i]);
        } else {
            let slot = slots[slots.len() - 1] as int;
            lemma_row_of_chunk(flavor, file, p.chunks@, ng, width, k, p.chunks@.len() as int, slot);
            lemma_rows_upto(p.chunks@, 0, k);
            assert(rows_upto(p.chunks@, 0) == 0);
            assert(alive(p, base + slot));
        }
    }
}

} // verus!
