//! A search that re-ranks as many candidates as there are ids is exact.
use vstd::prelude::*;
use crate::rank::{
    has_id, law_ranked, law_top_candidates, padded_row, ranked, represented, rescored, result_row, score_rank,
    top_candidates,
};
use crate::search::{least, scanned, SearchOptions, SearchPlan};
use crate::search_laws::{lemma_scanned, picked_scores, slot_id};
use crate::sort::lemma_same_elements;

verus! {

/// Ids of candidates, as a list.
spec fn id_list(s: Seq<(u32, u64)>) -> Seq<u64> {
    Seq::new(s.len(), |i: int| s[i].1)
}

/// Merging keeps every id where there is room for all.
proof fn lemma_all_merged(s: Seq<(u32, u64)>, live: Set<u64>, m: int)
    requires
        live.finite(),
        m == live.len(),
        forall|i: int| 0 <= i < s.len() ==> live.contains((#[trigger] s[i]).1),
        forall|id: u64| live.contains(id) ==> #[trigger] has_id(s, id),
    ensures
        top_candidates(s, m).len() == m,
        id_list(top_candidates(s, m)).no_duplicates(),
        id_list(top_candidates(s, m)).to_set() == live,
{
    let top = top_candidates(s, m);
    let list = id_list(top);
    law_top_candidates(s, m);
    assert forall|i: int, j: int| 0 <= i < list.len() && 0 <= j < list.len() && i != j implies list[i] != list[j] by {
        if i < j {
            assert(top[i].1 != top[j].1);
        } else {
            assert(top[j].1 != top[i].1);
        }
    }
    list.unique_seq_to_set();
    assert forall|id: u64| list.to_set().contains(id) implies live.contains(id) by {
        let i = choose|i: int| 0 <= i < list.len() && list[i] == id;
        assert(s.contains(top[i]));
        let q = choose|q: int| 0 <= q < s.len() && s[q] == top[i];
        assert(live.contains(s[q].1));
    }
    vstd::seq_lib::seq_to_set_is_finite(list);
    if top.len() == m {
        vstd::set_lib::lemma_subset_equality(list.to_set(), live);
    } else {
        assert forall|id: u64| live.contains(id) implies list.to_set().contains(id) by {
            assert(has_id(s, id));
            let q = choose|q: int| 0 <= q < s.len() && (#[trigger] s[q]).1 == id;
            assert(represented(top, m, s[q]));
            let i = choose|i: int|
                0 <= i < top.len() && (#[trigger] top[i]).1 == s[q].1 && score_rank(top[i].0) <= score_rank(s[q].0);
            assert(list[i] == id);
        }
        assert(list.to_set() =~= live);
    }
}

/// Where every live id and no other was scanned, and the re-rank depth covers
/// the index, a query is answered with the ids of the best exact scores, best
/// first: no id that is left out has a better one.
pub proof fn law_full_depth_is_exact(
    live: Set<u64>,
    candidates: Seq<(u32, u64)>,
    plan: SearchPlan,
    removed: int,
    nlist: int,
    k: int,
    options: SearchOptions,
    exact: spec_fn(u64) -> u32,
    scores: Seq<u32>,
)
    requires
        live.finite(),
        0 <= k,
        plan.is_for(live.len() as int, removed, nlist, true, k, options),
        options.rescore_k is Some,
        options.rescore_k->0 >= live.len(),
        options.rescore_k->0 > 0,
        forall|i: int| 0 <= i < candidates.len() ==> live.contains((#[trigger] candidates[i]).1),
        forall|id: u64| live.contains(id) ==> #[trigger] has_id(candidates, id),
        scores.len() == top_candidates(candidates, plan.fetch_k as int).len(),
        forall|i: int|
            0 <= i < scores.len() ==> #[trigger] scores[i] == exact(
                top_candidates(candidates, plan.fetch_k as int)[i].1,
            ),
    ensures
        ({
            let merged = top_candidates(candidates, plan.fetch_k as int);
            let r = result_row(merged, Some(scores), plan.k_eff as int);
            &&& r.len() == least(k, live.len() as int)
            &&& forall|i: int| 0 <= i < r.len() ==> live.contains((#[trigger] r[i]).1) && r[i].0 == exact(r[i].1)
            &&& forall|i: int, j: int| 0 <= i < j < r.len() ==> (#[trigger] r[i]).1 != (#[trigger] r[j]).1
            &&& forall|i: int, j: int|
                0 <= i < j < r.len() ==> score_rank((#[trigger] r[i]).0) <= score_rank((#[trigger] r[j]).0)
            &&& forall|id: u64, i: int|
                live.contains(id) && !has_id(r, id) && 0 <= i < r.len() ==> score_rank((#[trigger] r[i]).0)
                    <= score_rank(#[trigger] exact(id))
        }),
{
    let m = plan.fetch_k as int;
    let merged = top_candidates(candidates, m);
    let again = rescored(merged, scores);
    let all = ranked(again);
    let w = plan.k_eff as int;
    let r = result_row(merged, Some(scores), w);
    assert(m == live.len());
    lemma_all_merged(candidates, live, m);
    law_ranked(again);
    lemma_same_elements(all, again);
    assert(r == padded_row(all, w));
    assert forall|i: int| 0 <= i < all.len() implies live.contains((#[trigger] all[i]).1) && all[i].0 == exact(
        all[i].1,
    ) by {
        assert(all.contains(all[i]));
        assert(again.contains(all[i]));
        let j = choose|j: int| 0 <= j < again.len() && again[j] == all[i];
        assert(again[j] == (scores[j], merged[j].1));
        assert(id_list(merged)[j] == all[i].1);
        assert(id_list(merged).to_set().contains(all[i].1));
    }
    assert forall|id: u64| live.contains(id) implies #[trigger] has_id(all, id) by {
        assert(id_list(merged).to_set().contains(id));
        let j = choose|j: int| 0 <= j < id_list(merged).len() && id_list(merged)[j] == id;
        assert(again[j].1 == id);
        assert(again.contains(again[j]));
        assert(all.contains(again[j]));
        let i = choose|i: int| 0 <= i < all.len() && all[i] == again[j];
        assert(all[i].1 == id);
    }
    lemma_distinct(all, live);
    assert forall|id: u64, i: int| live.contains(id) && !has_id(r, id) && 0 <= i < r.len() implies score_rank(
        (#[trigger] r[i]).0,
    ) <= score_rank(#[trigger] exact(id)) by {
        assert(has_id(all, id));
        let j = choose|j: int| 0 <= j < all.len() && (#[trigger] all[j]).1 == id;
        if j < w {
            assert(r[j].1 == id);
        }
        assert(r[i] == all[i]);
        assert(i < j);
        assert(all[j].0 == exact(all[j].1));
    }
}

/// A list of all ids that is no longer than their number names none twice.
proof fn lemma_distinct(s: Seq<(u32, u64)>, live: Set<u64>)
    requires
        live.finite(),
        s.len() == live.len(),
        forall|id: u64| live.contains(id) ==> #[trigger] has_id(s, id),
        forall|i: int| 0 <= i < s.len() ==> live.contains((#[trigger] s[i]).1),
    ensures
        forall|i: int, j: int| 0 <= i < j < s.len() ==> (#[trigger] s[i]).1 != (#[trigger] s[j]).1,
{
    let list = id_list(s);
    assert(list.to_set() =~= live) by {
        assert forall|id: u64| list.to_set().contains(id) <==> live.contains(id) by {
            if live.contains(id) {
                assert(has_id(s, id));
                let i = choose|i: int| 0 <= i < s.len() && (#[trigger] s[i]).1 == id;
                assert(list[i] == id);
            }
            if list.contains(id) {
                let i = choose|i: int| 0 <= i < list.len() && list[i] == id;
                assert(live.contains(s[i].1));
            }
        }
    }
    list.lemma_no_dup_set_cardinality();
    assert forall|i: int, j: int| 0 <= i < j < s.len() implies (#[trigger] s[i]).1 != (#[trigger] s[j]).1 by {
        assert(list[i] != list[j]);
    }
}

/// As many different places as there are places are all of them.
proof fn lemma_every_slot(slots: Seq<usize>, n: int, q: int)
    requires
        slots.no_duplicates(),
        slots.len() == n,
        n <= usize::MAX,
        forall|j: int| 0 <= j < slots.len() ==> #[trigger] slots[j] < n,
        0 <= q < n,
    ensures
        slots.contains(q as usize),
{
    let ints = Seq::new(slots.len(), |j: int| slots[j] as int);
    let all = vstd::set_lib::set_int_range(0, n);
    vstd::set_lib::lemma_int_range(0, n);
    assert(ints.no_duplicates()) by {
        assert forall|i: int, j: int| 0 <= i < ints.len() && 0 <= j < ints.len() && i != j implies ints[i] != ints[j] by {
            assert(slots[i] != slots[j]);
        }
    }
    ints.unique_seq_to_set();
    vstd::seq_lib::seq_to_set_is_finite(ints);
    assert(ints.to_set().subset_of(all)) by {
        assert forall|v: int| ints.to_set().contains(v) implies all.contains(v) by {
            let j = choose|j: int| 0 <= j < ints.len() && ints[j] == v;
            assert(slots[j] < n);
        }
    }
    vstd::set_lib::lemma_subset_equality(ints.to_set(), all);
    assert(ints.to_set().contains(q));
    let j = choose|j: int| 0 <= j < ints.len() && ints[j] == q;
    assert(slots[j] == q as usize);
}

/// With as many candidates to fetch as there are ids, the scan of a partition
/// gives every row of it that is not removed.
pub proof fn law_full_depth_scans_every_row(
    file: Seq<u8>,
    live: Set<u64>,
    removed: Set<u64>,
    first: int,
    n: int,
    fetch_k: int,
    all_scores: Seq<u32>,
    slots: Seq<usize>,
    q: int,
)
    requires
        live.finite(),
        removed.finite(),
        fetch_k >= live.len(),
        0 <= n <= usize::MAX,
        all_scores.len() == n,
        slots.no_duplicates(),
        forall|j: int| 0 <= j < slots.len() ==> #[trigger] slots[j] < n,
        slots.len() == least(fetch_k + removed.len(), n),
        forall|i: int, j: int|
            0 <= i < j < n ==> #[trigger] slot_id(file, first, i) != #[trigger] slot_id(file, first, j),
        forall|i: int|
            0 <= i < n ==> live.contains(#[trigger] slot_id(file, first, i)) || removed.contains(
                slot_id(file, first, i),
            ),
        0 <= q < n,
        !removed.contains(slot_id(file, first, q)),
    ensures
        has_id(
            scanned(file, removed, first, picked_scores(all_scores, slots), slots),
            slot_id(file, first, q),
        ),
{
    let ids = Seq::new(n as nat, |i: int| slot_id(file, first, i));
    let both = live.union(removed);
    let scores = picked_scores(all_scores, slots);
    let c = scanned(file, removed, first, scores, slots);
    assert(ids.no_duplicates()) by {
        assert forall|i: int, j: int| 0 <= i < ids.len() && 0 <= j < ids.len() && i != j implies ids[i] != ids[j] by {
            if i < j {
                assert(slot_id(file, first, i) != slot_id(file, first, j));
            } else {
                assert(slot_id(file, first, j) != slot_id(file, first, i));
            }
        }
    }
    ids.unique_seq_to_set();
    assert(ids.to_set().subset_of(both)) by {
        assert forall|id: u64| ids.to_set().contains(id) implies both.contains(id) by {
            let i = choose|i: int| 0 <= i < ids.len() && ids[i] == id;
            assert(slot_id(file, first, i) == id);
        }
    }
    vstd::set_lib::lemma_len_subset(ids.to_set(), both);
    vstd::set_lib::lemma_len_union(live, removed);
    assert(n <= live.len() + removed.len());
    lemma_every_slot(slots, n, q);
    assert forall|i: int, j: int| 0 <= i < j < slots.len() implies slot_id(
        file,
        first,
        #[trigger] slots[i] as int,
    ) != slot_id(file, first, #[trigger] slots[j] as int) by {
        assert(slots[i] != slots[j]);
        if slots[i] < slots[j] {
            assert(slot_id(file, first, slots[i] as int) != slot_id(file, first, slots[j] as int));
        } else {
            assert(slot_id(file, first, slots[j] as int) != slot_id(file, first, slots[i] as int));
        }
    }
    lemma_scanned(file, removed, first, scores, slots);
    let j = choose|j: int| 0 <= j < slots.len() && slots[j] == q as usize;
    let hit = (scores[j], slot_id(file, first, slots[j] as int));
    assert(c.contains(hit));
    let i = choose|i: int| 0 <= i < c.len() && c[i] == hit;
    assert(c[i].1 == slot_id(file, first, q));
}

} // verus!
