//! What the results of a search hold.
use vstd::prelude::*;
use crate::bits::marked;
use crate::bytes::u64_at;
use crate::fresh_search::chunk_candidates;
use crate::rank::{law_ranked, ranked, rescored, score_rank};
use crate::search::{finish_query, flat_results, flatten_results, scanned, SearchPlan};
use crate::tvdm::u64_section;

verus! {

/// The number with bit pattern `a` is greater than that with `b`: signs and
/// magnitudes compared.
pub open spec fn greater(a: u32, b: u32) -> bool {
    if a < 0x8000_0000 {
        b >= 0x8000_0000 || a > b
    } else {
        b >= 0x8000_0000 && a < b
    }
}

/// Greater scores rank before lesser ones, and no two scores rank alike.
pub proof fn law_greater_scores_rank_first(a: u32, b: u32)
    ensures
        score_rank(a) < score_rank(b) <==> greater(a, b),
        score_rank(a) == score_rank(b) <==> a == b,
{
}

/// Without exact scores a result row is the merged candidates, cut at its
/// width; where there are too few, entries of negative infinity follow.
pub proof fn law_row_is_cut_or_padded(plan: SearchPlan, merged: &Vec<(u32, u64)>, r: Vec<(u32, u64)>)
    requires
        finish_query.ensures((plan, merged, None), r),
    ensures
        r@.len() == plan.k_eff,
        forall|i: int| 0 <= i < r@.len() && i < merged@.len() ==> #[trigger] r@[i] == merged@[i],
        forall|i: int| merged@.len() <= i < r@.len() ==> #[trigger] r@[i] == (0xFF80_0000u32, 0u64),
{
}

/// With exact scores a result row holds the candidates with those scores, the
/// greatest first: every entry is one of them, and a candidate that is left out
/// has no greater score than any entry.
pub proof fn law_row_is_ranked_by_exact_scores(
    plan: SearchPlan,
    merged: &Vec<(u32, u64)>,
    exact: Vec<u32>,
    r: Vec<(u32, u64)>,
)
    requires
        exact@.len() == merged@.len(),
        finish_query.ensures((plan, merged, Some(exact)), r),
    ensures
        r@.len() == plan.k_eff,
        forall|i: int, k: int|
            0 <= i < k < r@.len() && k < merged@.len() ==> !greater((#[trigger] r@[k]).0, (#[trigger] r@[i]).0),
        forall|i: int|
            0 <= i < r@.len() && i < merged@.len() ==> rescored_entry(merged@, exact@, #[trigger] r@[i]),
        forall|i: int| merged@.len() <= i < r@.len() ==> #[trigger] r@[i] == (0xFF80_0000u32, 0u64),
        forall|j: int|
            0 <= j < merged@.len() ==> #[trigger] stands_or_is_beaten(r@, (exact@[j], merged@[j].1)),
{
    let s = rescored(merged@, exact@);
    let t = ranked(s);
    law_ranked(s);
    crate::rank::law_ranked(s);
    s.to_multiset_ensures();
    t.to_multiset_ensures();
    assert forall|i: int, k: int| 0 <= i < k < r@.len() && k < merged@.len() implies !greater(
        (#[trigger] r@[k]).0,
        (#[trigger] r@[i]).0,
    ) by {
        assert(r@[i] == t[i] && r@[k] == t[k]);
        law_greater_scores_rank_first(t[k].0, t[i].0);
    }
    assert forall|i: int| 0 <= i < r@.len() && i < merged@.len() implies rescored_entry(
        merged@,
        exact@,
        #[trigger] r@[i],
    ) by {
        assert(r@[i] == t[i]);
        assert(t.contains(t[i]));
        assert(t.to_multiset().count(t[i]) > 0);
        assert(s.contains(t[i]));
        let j = choose|j: int| 0 <= j < s.len() && s[j] == t[i];
        assert(merged@[j].1 == r@[i].1);
    }
    assert forall|j: int| 0 <= j < merged@.len() implies #[trigger] stands_or_is_beaten(
        r@,
        (exact@[j], merged@[j].1),
    ) by {
        assert(s.contains(s[j]));
        assert(s.to_multiset().count(s[j]) > 0);
        assert(t.contains(s[j]));
        let k = choose|k: int| 0 <= k < t.len() && t[k] == s[j];
        if k < r@.len() {
            assert(r@[k] == s[j]);
        } else {
            assert forall|i: int| 0 <= i < r@.len() implies !greater(s[j].0, (#[trigger] r@[i]).0) by {
                assert(r@[i] == t[i]);
                law_greater_scores_rank_first(t[k].0, t[i].0);
            }
        }
    }
}

/// The entry is a candidate with its exact score.
pub open spec fn rescored_entry(merged: Seq<(u32, u64)>, exact: Seq<u32>, e: (u32, u64)) -> bool {
    exists|j: int| 0 <= j < merged.len() && (#[trigger] merged[j]).1 == e.1 && exact[j] == e.0
}

/// The candidate is in the row, or no entry of the row has a lesser score.
pub open spec fn stands_or_is_beaten(r: Seq<(u32, u64)>, c: (u32, u64)) -> bool {
    r.contains(c) || forall|i: int| 0 <= i < r.len() ==> !greater(c.0, (#[trigger] r[i]).0)
}

proof fn lemma_flat(rows: Seq<Vec<(u32, u64)>>, n: int, k: int)
    requires
        0 <= n <= rows.len(),
        forall|q: int| 0 <= q < rows.len() ==> (#[trigger] rows[q])@.len() == k,
    ensures
        flat_results(rows, n).0.len() == n * k,
        flat_results(rows, n).1.len() == n * k,
        forall|q: int, j: int|
            0 <= q < n && 0 <= j < k ==> flat_results(rows, n).0[q * k + j] == (#[trigger] rows[q]@[j]).0
                && flat_results(rows, n).1[q * k + j] == rows[q]@[j].1,
    decreases n,
{
    if n > 0 {
        lemma_flat(rows, n - 1, k);
        assert(rows[n - 1]@.len() == k);
        assert(n * k == (n - 1) * k + k) by (nonlinear_arith);
        assert forall|q: int, j: int| 0 <= q < n && 0 <= j < k implies flat_results(rows, n).0[q * k + j] == (
        #[trigger] rows[q]@[j]).0 && flat_results(rows, n).1[q * k + j] == rows[q]@[j].1 by {
            if q < n - 1 {
                crate::math::lemma_flat_bound(q, j, n - 1, k);
                assert(rows[q]@[j].0 == flat_results(rows, n - 1).0[q * k + j]);
            }
        }
    } else {
        assert(0 * k == 0) by (nonlinear_arith);
    }
}

/// Flat results hold entry `j` of query `q` at place `q * k + j`.
pub proof fn law_results_come_row_by_row(
    rows: &Vec<Vec<(u32, u64)>>,
    r: (Vec<u32>, Vec<u64>),
    k: int,
    q: int,
    j: int,
)
    requires
        flatten_results.ensures((rows,), r),
        forall|q: int| 0 <= q < rows@.len() ==> (#[trigger] rows@[q])@.len() == k,
        0 <= q < rows@.len(),
        0 <= j < k,
    ensures
        r.0@.len() == rows@.len() * k,
        r.1@.len() == rows@.len() * k,
        r.0@[q * k + j] == rows@[q]@[j].0,
        r.1@[q * k + j] == rows@[q]@[j].1,
{
    lemma_flat(rows@, rows@.len() as int, k);
    assert(rows@[q]@[j].0 == r.0@[q * k + j]);
}

/// The scanned rows of a partition are candidates exactly if they are not
/// removed, each with its score and id.
pub proof fn law_scanned_rows_are_candidates(
    file: Seq<u8>,
    removed: Set<u64>,
    first: int,
    scores: Seq<u32>,
    slots: Seq<usize>,
    c: (u32, u64),
)
    requires
        scores.len() >= slots.len(),
    ensures
        scanned(file, removed, first, scores, slots).contains(c) <==> !removed.contains(c.1) && exists|k: int|
            0 <= k < slots.len() && c == (scores[k], u64_section(file, 7)[first + #[trigger] slots[k]]),
    decreases slots.len(),
{
    let s = scanned(file, removed, first, scores, slots);
    if slots.len() > 0 {
        let init = slots.drop_last();
        law_scanned_rows_are_candidates(file, removed, first, scores, init, c);
        let a = scanned(file, removed, first, scores, init);
        let n = slots.len() - 1;
        let new = (scores[n], u64_section(file, 7)[first + slots[n]]);
        if a.contains(c) {
            let k = choose|k: int| 0 <= k < a.len() && a[k] == c;
            assert(s[k] == c);
            let j = choose|j: int|
                0 <= j < init.len() && c == (scores[j], u64_section(file, 7)[first + #[trigger] init[j]]);
            assert(slots[j] == init[j]);
        }
        if !removed.contains(c.1) && c == new {
            assert(s[a.len() as int] == c);
        }
        if s.contains(c) && !a.contains(c) {
            let k = choose|k: int| 0 <= k < s.len() && s[k] == c;
            if k < a.len() {
                assert(a[k] == c);
            }
            assert(c == (scores[n], u64_section(file, 7)[first + slots[n]]));
        }
        if exists|k: int| 0 <= k < slots.len() && c == (scores[k], u64_section(file, 7)[first + #[trigger] slots[k]]) {
            let k = choose|k: int|
                0 <= k < slots.len() && c == (scores[k], u64_section(file, 7)[first + #[trigger] slots[k]]);
            if k < n {
                assert(init[k] == slots[k]);
            }
        }
    }
}

/// The scanned rows of a chunk are candidates exactly if they are alive, each
/// with its score and id.
pub proof fn law_live_chunk_rows_are_candidates(
    file: Seq<u8>,
    ids_at: int,
    dead: Seq<u8>,
    base: int,
    scores: Seq<u32>,
    slots: Seq<usize>,
    c: (u32, u64),
)
    requires
        scores.len() >= slots.len(),
    ensures
        chunk_candidates(file, ids_at, dead, base, scores, slots).contains(c) <==> exists|k: int|
            0 <= k < slots.len() && !marked(dead, base + #[trigger] slots[k]) && c == (
                scores[k],
                u64_at(file, ids_at + 8 * slots[k]),
            ),
    decreases slots.len(),
{
    let s = chunk_candidates(file, ids_at, dead, base, scores, slots);
    if slots.len() > 0 {
        let init = slots.drop_last();
        law_live_chunk_rows_are_candidates(file, ids_at, dead, base, scores, init, c);
        let a = chunk_candidates(file, ids_at, dead, base, scores, init);
        let n = slots.len() - 1;
        if a.contains(c) {
            let k = choose|k: int| 0 <= k < a.len() && a[k] == c;
            assert(s[k] == c);
            let j = choose|j: int|
                0 <= j < init.len() && !marked(dead, base + #[trigger] init[j]) && c == (
                    scores[j],
                    u64_at(file, ids_at + 8 * init[j]),
                );
            assert(slots[j] == init[j]);
        }
        if !marked(dead, base + slots[n]) {
            assert(s[a.len() as int] == (scores[n], u64_at(file, ids_at + 8 * slots[n])));
        }
        if s.contains(c) && !a.contains(c) {
            let k = choose|k: int| 0 <= k < s.len() && s[k] == c;
            if k < a.len() {
                assert(a[k] == c);
            }
            assert(!marked(dead, base + slots[n]));
        }
        if exists|k: int|
            0 <= k < slots.len() && !marked(dead, base + #[trigger] slots[k]) && c == (
                scores[k],
                u64_at(file, ids_at + 8 * slots[k]),
            ) {
            let k = choose|k: int|
                0 <= k < slots.len() && !marked(dead, base + #[trigger] slots[k]) && c == (
                    scores[k],
                    u64_at(file, ids_at + 8 * slots[k]),
                );
            if k < n {
                assert(init[k] == slots[k]);
            }
        }
    }
}

} // verus!
