//! Boundary multi-assignment: the partitions beside its own that hold a copy
//! of a row.
use vstd::prelude::*;
use crate::lire::{others, MAX_ASSIGNMENT_COPIES};
use crate::math::{lemma_flat_bound, lemma_flat_index};
use crate::search::{distance_pairs, nearest_first, within};
use crate::sort::{lemma_same_elements, lemma_sorted_pairs, sort_pairs};

verus! {

/// The partitions within `bound`, nearest first, without the row's own.
pub open spec fn in_reach(distances: Seq<u32>, bound: u32, primary: u32) -> Seq<u32> {
    let ranked = nearest_first(distances);
    others(ranked.take(within(ranked, bound)), primary as u64)
}

/// The partitions within `bound` of a row, nearest first, without its own.
pub fn closure_candidates(distances: &Vec<u32>, bound: u32, primary: u32) -> (r: Vec<u32>)
    requires
        distances@.len() <= 0xFFFF_FFFF,
    ensures
        r@ == in_reach(distances@, bound, primary),
{
    let mut pairs: Vec<(u64, u64)> = Vec::new();
    let mut c: usize = 0;
    while c < distances.len()
        invariant
            c <= distances.len(),
            pairs@ == distance_pairs(distances@).take(c as int),
        decreases distances.len() - c,
    {
        pairs.push((distances[c] as u64, c as u64));
        c = c + 1;
        assert(pairs@ =~= distance_pairs(distances@).take(c as int));
    }
    assert(pairs@ =~= distance_pairs(distances@));
    let ranked: Vec<(u64, u64)> = sort_pairs(&pairs);
    proof {
        lemma_sorted_pairs(pairs@);
    }
    let mut count: usize = 0;
    let mut i: usize = 0;
    assert(ranked@.take(0) =~= Seq::<(u64, u64)>::empty());
    while i < ranked.len()
        invariant
            i <= ranked.len(),
            count <= i,
            count == within(ranked@.take(i as int), bound),
        decreases ranked.len() - i,
    {
        assert(ranked@.take(i + 1).drop_last() =~= ranked@.take(i as int));
        if ranked[i].0 <= bound as u64 {
            count = count + 1;
        }
        i = i + 1;
    }
    assert(ranked@.take(i as int) =~= ranked@);
    let mut r: Vec<u32> = Vec::new();
    let mut j: usize = 0;
    while j < count
        invariant
            j <= count <= ranked@.len(),
            r@ == others(ranked@.take(j as int), primary as u64),
        decreases count - j,
    {
        assert(ranked@.take(j + 1).drop_last() =~= ranked@.take(j as int));
        if ranked[j].1 != primary as u64 {
            r.push(ranked[j].1 as u32);
        }
        j = j + 1;
    }
    r
}

/// Distance between candidates `a` and `b`; candidate 0 is the row's own
/// partition.
pub open spec fn between(pairwise: Seq<u32>, m: int, a: int, b: int) -> u32 {
    pairwise[a * (m + 1) + b]
}

/// Candidate `j` is closer to a chosen partition than to the row.
pub open spec fn redundant(pairwise: Seq<u32>, distances: Seq<u32>, m: int, chosen: Seq<int>, j: int) -> bool {
    ||| between(pairwise, m, j + 1, 0) < distances[j]
    ||| exists|k: int|
        0 <= k < chosen.len() && between(pairwise, m, j + 1, #[trigger] chosen[k] + 1) < distances[j]
}

/// The candidates that are chosen among the first `n`, nearest first, at most
/// one less than the most copies.
pub open spec fn picks(pairwise: Seq<u32>, distances: Seq<u32>, m: int, prune: bool, n: int) -> Seq<int>
    decreases n,
{
    if n <= 0 {
        Seq::empty()
    } else {
        let s = picks(pairwise, distances, m, prune, n - 1);
        if s.len() + 1 >= MAX_ASSIGNMENT_COPIES || (prune && redundant(pairwise, distances, m, s, n - 1)) {
            s
        } else {
            s.push(n - 1)
        }
    }
}

/// Chosen candidates by position.
pub open spec fn picked_partitions(candidates: Seq<u32>, picks: Seq<int>) -> Seq<u32> {
    Seq::new(picks.len(), |k: int| candidates[picks[k]])
}

/// Chooses the partitions that hold a further copy of a row. `distances` are
/// the candidates' distances from the row; `pairwise` holds the distances
/// between the row's own partition (first) and the candidates.
pub fn select_replicas(candidates: &Vec<u32>, distances: &Vec<u32>, pairwise: &Vec<u32>, prune: bool) -> (r: Vec<
    u32,
>)
    requires
        distances@.len() == candidates@.len(),
        pairwise@.len() == (candidates@.len() + 1) * (candidates@.len() + 1),
        candidates@.len() < usize::MAX,
    ensures
        r@ == picked_partitions(
            candidates@,
            picks(pairwise@, distances@, candidates@.len() as int, prune, candidates@.len() as int),
        ),
        r@.len() < MAX_ASSIGNMENT_COPIES,
{
    let m: usize = candidates.len();
    let total: usize = pairwise.len();
    let mut chosen: Vec<usize> = Vec::new();
    let mut r: Vec<u32> = Vec::new();
    let mut j: usize = 0;
    while j < m
        invariant
            j <= m,
            m == candidates@.len(),
            m < usize::MAX,
            distances@.len() == m,
            total == pairwise@.len(),
            total == (m + 1) * (m + 1),
            crate::lire::lists(
                chosen@,
                picks(pairwise@, distances@, m as int, prune, j as int),
            ),
            forall|k: int| 0 <= k < chosen@.len() ==> (#[trigger] chosen@[k]) < j,
            chosen@.len() < MAX_ASSIGNMENT_COPIES,
            r@ == picked_partitions(candidates@, picks(pairwise@, distances@, m as int, prune, j as int)),
        decreases m - j,
    {
        let ghost s = picks(pairwise@, distances@, m as int, prune, j as int);
        if chosen.len() + 1 < MAX_ASSIGNMENT_COPIES {
            let covered: bool = prune && is_redundant(pairwise, distances, m, &chosen, j);
            assert(covered == (prune && redundant(pairwise@, distances@, m as int, s, j as int))) by {
                if prune {
                    lemma_redundant_same(pairwise@, distances@, m as int, chosen@, s, j as int);
                }
            }
            if !covered {
                chosen.push(j);
                r.push(candidates[j]);
            }
        }
        j = j + 1;
        assert(r@ =~= picked_partitions(candidates@, picks(pairwise@, distances@, m as int, prune, j as int)));
    }
    r
}

/// Candidate positions as numbers.
pub open spec fn as_positions(v: Seq<usize>) -> Seq<int> {
    Seq::new(v.len(), |k: int| v[k] as int)
}

proof fn lemma_redundant_same(
    pairwise: Seq<u32>,
    distances: Seq<u32>,
    m: int,
    v: Seq<usize>,
    s: Seq<int>,
    j: int,
)
    requires
        crate::lire::lists(v, s),
    ensures
        redundant(pairwise, distances, m, as_positions(v), j) == redundant(pairwise, distances, m, s, j),
{
    assert(as_positions(v) =~= s) by {
        assert forall|k: int| 0 <= k < v.len() implies as_positions(v)[k] == s[k] by {
            assert(v[k] == s[k]);
        }
    }
}

fn is_redundant(pairwise: &Vec<u32>, distances: &Vec<u32>, m: usize, chosen: &Vec<usize>, j: usize) -> (r: bool)
    requires
        j < m,
        m < usize::MAX,
        distances@.len() == m,
        pairwise@.len() == (m + 1) * (m + 1),
        forall|k: int| 0 <= k < chosen@.len() ==> (#[trigger] chosen@[k]) < j,
    ensures
        r == redundant(pairwise@, distances@, m as int, as_positions(chosen@), j as int),
{
    let total: usize = pairwise.len();
    let w: usize = m + 1;
    proof {
        lemma_flat_bound(j + 1, 0, w as int, w as int);
        lemma_flat_index(j + 1, 0, w as int);
    }
    let start: usize = (j + 1) * w;
    if pairwise[start] < distances[j] {
        return true;
    }
    let mut k: usize = 0;
    while k < chosen.len()
        invariant
            k <= chosen.len(),
            j < m,
            w == m + 1,
            m < usize::MAX,
            distances@.len() == m,
            total == pairwise@.len(),
            total == w * w,
            start == (j + 1) * w,
            start + w <= total,
            forall|i: int| 0 <= i < chosen@.len() ==> (#[trigger] chosen@[i]) < j,
            pairwise@[start as int] >= distances@[j as int],
            forall|i: int|
                0 <= i < k ==> between(
                    pairwise@,
                    m as int,
                    j + 1,
                    #[trigger] as_positions(chosen@)[i] + 1,
                ) >= distances@[j as int],
        decreases chosen.len() - k,
    {
        assert(chosen@[k as int] < j);
        if pairwise[start + chosen[k] + 1] < distances[j] {
            assert(between(pairwise@, m as int, j + 1, as_positions(chosen@)[k as int] + 1)
                < distances@[j as int]);
            return true;
        }
        assert(between(pairwise@, m as int, j + 1, as_positions(chosen@)[k as int] + 1)
            >= distances@[j as int]);
        k = k + 1;
    }
    false
}

/// A row has at most seven further copies, none in its own partition, no two
/// in one partition, and every one within the bound.
pub proof fn law_replicas(
    distances: Seq<u32>,
    bound: u32,
    primary: u32,
    pairwise: Seq<u32>,
    cand_distances: Seq<u32>,
    prune: bool,
)
    requires
        distances.len() <= 0xFFFF_FFFF,
        primary < distances.len(),
    ensures
        ({
            let c = in_reach(distances, bound, primary);
            let m = c.len() as int;
            let r = picked_partitions(c, picks(pairwise, cand_distances, m, prune, m));
            &&& r.len() < MAX_ASSIGNMENT_COPIES
            &&& forall|k: int|
                0 <= k < r.len() ==> {
                    &&& #[trigger] r[k] != primary
                    &&& r[k] < distances.len()
                    &&& distances[r[k] as int] <= bound
                }
            &&& forall|i: int, k: int| 0 <= i < k < r.len() ==> #[trigger] r[i] != #[trigger] r[k]
        }),
{
    let c = in_reach(distances, bound, primary);
    let m = c.len() as int;
    let s = picks(pairwise, cand_distances, m, prune, m);
    let r = picked_partitions(c, s);
    lemma_picks(pairwise, cand_distances, m, prune, m);
    lemma_in_reach(distances, bound, primary);
    assert forall|k: int| 0 <= k < r.len() implies #[trigger] r[k] != primary && r[k] < distances.len()
        && distances[r[k] as int] <= bound by {
        assert(0 <= s[k] < m);
        assert(c[s[k]] == r[k]);
    }
    assert forall|i: int, k: int| 0 <= i < k < r.len() implies #[trigger] r[i] != #[trigger] r[k] by {
        assert(s[i] < s[k]);
        assert(0 <= s[i] < m && 0 <= s[k] < m);
    }
}

proof fn lemma_picks(pairwise: Seq<u32>, distances: Seq<u32>, m: int, prune: bool, n: int)
    requires
        0 <= n,
    ensures
        picks(pairwise, distances, m, prune, n).len() < MAX_ASSIGNMENT_COPIES,
        forall|k: int|
            0 <= k < picks(pairwise, distances, m, prune, n).len() ==> 0 <= #[trigger] picks(
                pairwise,
                distances,
                m,
                prune,
                n,
            )[k] < n,
        forall|i: int, k: int|
            0 <= i < k < picks(pairwise, distances, m, prune, n).len() ==> #[trigger] picks(
                pairwise,
                distances,
                m,
                prune,
                n,
            )[i] < #[trigger] picks(pairwise, distances, m, prune, n)[k],
    decreases n,
{
    if n > 0 {
        lemma_picks(pairwise, distances, m, prune, n - 1);
    }
}

/// What being in reach means.
proof fn lemma_in_reach(distances: Seq<u32>, bound: u32, primary: u32)
    requires
        distances.len() <= 0xFFFF_FFFF,
    ensures
        forall|k: int|
            0 <= k < in_reach(distances, bound, primary).len() ==> {
                &&& #[trigger] in_reach(distances, bound, primary)[k] != primary
                &&& in_reach(distances, bound, primary)[k] < distances.len()
                &&& distances[in_reach(distances, bound, primary)[k] as int] <= bound
            },
        forall|i: int, k: int|
            0 <= i < in_reach(distances, bound, primary).len() && 0 <= k < in_reach(
                distances,
                bound,
                primary,
            ).len() && i != k ==> #[trigger] in_reach(distances, bound, primary)[i] != #[trigger] in_reach(
                distances,
                bound,
                primary,
            )[k],
{
    let pairs = distance_pairs(distances);
    let ranked = nearest_first(distances);
    lemma_sorted_pairs(pairs);
    lemma_same_elements(ranked, pairs);
    crate::search::lemma_within_bound(ranked, bound);
    let t = ranked.take(within(ranked, bound));
    assert(pairs.no_duplicates()) by {
        assert forall|i: int, j: int| 0 <= i < pairs.len() && 0 <= j < pairs.len() && i != j implies pairs[i]
            != pairs[j] by {
            assert(pairs[i].1 == i && pairs[j].1 == j);
        }
    }
    pairs.lemma_multiset_has_no_duplicates();
    ranked.lemma_multiset_has_no_duplicates_conv();
    assert forall|i: int| 0 <= i < t.len() implies (#[trigger] t[i]).1 < distances.len() && t[i].0
        == distances[t[i].1 as int] && t[i].0 <= bound by {
        assert(ranked.contains(ranked[i]));
        assert(pairs.contains(ranked[i]));
        let a = choose|a: int| 0 <= a < pairs.len() && pairs[a] == ranked[i];
        assert(pairs[a] == (distances[a] as u64, a as u64));
        crate::search::lemma_within_prefix(ranked, bound, i);
    }
    assert forall|i: int, j: int| 0 <= i < t.len() && 0 <= j < t.len() && i != j implies (#[trigger] t[i]).1 != (
    #[trigger] t[j]).1 by {
        assert(ranked[i] != ranked[j]);
        assert(t[i].0 == distances[t[i].1 as int] && t[j].0 == distances[t[j].1 as int]);
    }
    lemma_others(t, primary, distances.len() as int);
}

/// Leaving one partition out keeps the rest distinct and in order.
proof fn lemma_others(t: Seq<(u64, u64)>, primary: u32, n: int)
    requires
        n <= 0xFFFF_FFFF,
        forall|i: int| 0 <= i < t.len() ==> (#[trigger] t[i]).1 < n,
        forall|i: int, j: int|
            0 <= i < t.len() && 0 <= j < t.len() && i != j ==> (#[trigger] t[i]).1 != (#[trigger] t[j]).1,
    ensures
        forall|k: int|
            0 <= k < others(t, primary as u64).len() ==> exists|i: int|
                0 <= i < t.len() && (#[trigger] t[i]).1 == #[trigger] others(t, primary as u64)[k]
                    && t[i].1 != primary,
        forall|i: int, k: int|
            0 <= i < others(t, primary as u64).len() && 0 <= k < others(t, primary as u64).len() && i != k
                ==> #[trigger] others(t, primary as u64)[i] != #[trigger] others(t, primary as u64)[k],
    decreases t.len(),
{
    if t.len() > 0 {
        let a = t.drop_last();
        let o = others(t, primary as u64);
        let u = others(a, primary as u64);
        assert(forall|i: int| 0 <= i < a.len() ==> #[trigger] a[i] == t[i]);
        lemma_others(a, primary, n);
        assert forall|k: int| 0 <= k < o.len() implies exists|i: int|
            0 <= i < t.len() && (#[trigger] t[i]).1 == #[trigger] o[k] && t[i].1 != primary by {
            if k < u.len() {
                assert(o[k] == u[k]);
                let i = choose|i: int| 0 <= i < a.len() && (#[trigger] a[i]).1 == u[k] && a[i].1 != primary;
                assert(t[i] == a[i]);
            } else {
                assert(t[t.len() - 1].1 < n);
            }
        }
        assert forall|i: int, k: int| 0 <= i < o.len() && 0 <= k < o.len() && i != k implies #[trigger] o[i]
            != #[trigger] o[k] by {
            let x = t.len() - 1;
            if i < u.len() && k < u.len() {
                assert(o[i] == u[i] && o[k] == u[k]);
            } else if i < u.len() {
                assert(o[i] == u[i]);
                let j = choose|j: int| 0 <= j < a.len() && (#[trigger] a[j]).1 == u[i] && a[j].1 != primary;
                assert(t[j].1 != t[x].1);
                assert(t[x].1 < n);
            } else {
                assert(o[k] == u[k]);
                let j = choose|j: int| 0 <= j < a.len() && (#[trigger] a[j]).1 == u[k] && a[j].1 != primary;
                assert(t[j].1 != t[x].1);
                assert(t[x].1 < n);
            }
        }
    }
}

} // verus!
