//! Which partitions hold a further copy of a row.
use vstd::prelude::*;
use crate::lire::others;
use crate::move_laws::increasing;
use crate::probe_laws::{has_partition, in_order, lemma_beyond_bound, lemma_nearest_first};
use crate::replicate::{between, closure_candidates, picks, redundant, select_replicas};
use crate::search::{lemma_within_bound, lemma_within_prefix, nearest_first, within};
use crate::sort::pair_leq;

verus! {

/// What is left without one partition is in order, and is all the rest.
pub proof fn lemma_others_in_order(distances: Seq<u32>, primary: u32, n: int)
    requires
        distances.len() <= 0xFFFF_FFFF,
        0 <= n <= distances.len(),
    ensures
        ({
            let s = nearest_first(distances);
            let r = others(s.take(n), primary as u64);
            &&& in_order(distances, r)
            &&& forall|c: int|
                0 <= c < distances.len() ==> (#[trigger] r.contains(c as u32) <==> c != primary && exists|i: int|
                    0 <= i < n && (#[trigger] s[i]).1 == c)
            &&& forall|k: int, j: int|
                0 <= k < r.len() && n <= j < s.len() ==> distances[#[trigger] r[k] as int] < (#[trigger] s[j]).0 || (
                distances[r[k] as int] == s[j].0 && r[k] < s[j].1)
        }),
    decreases n,
{
    let s = nearest_first(distances);
    lemma_nearest_first(distances);
    if n == 0 {
        assert(s.take(0) =~= Seq::<(u64, u64)>::empty());
    } else {
        lemma_others_in_order(distances, primary, n - 1);
        let a = others(s.take(n - 1), primary as u64);
        let r = others(s.take(n), primary as u64);
        assert(s.take(n).drop_last() =~= s.take(n - 1));
        let last = s[n - 1];
        assert forall|j: int| n <= j < s.len() implies last.0 < (#[trigger] s[j]).0 || (last.0 == s[j].0 && last.1
            < s[j].1) by {
            assert(pair_leq(s[n - 1], s[j]));
            assert(s[n - 1].1 != s[j].1);
        }
        assert forall|i: int, k: int| 0 <= i < k < r.len() implies distances[#[trigger] r[i] as int] < distances[
        #[trigger] r[k] as int] || (distances[r[i] as int] == distances[r[k] as int] && r[i] < r[k]) by {
            assert(r[i] == a[i]);
            if k < a.len() {
                assert(r[k] == a[k]);
            }
        }
        assert forall|c: int| 0 <= c < distances.len() implies (#[trigger] r.contains(c as u32) <==> c != primary
            && exists|i: int| 0 <= i < n && (#[trigger] s[i]).1 == c) by {
            if r.contains(c as u32) {
                let k = choose|k: int| 0 <= k < r.len() && r[k] == c as u32;
                if k < a.len() {
                    assert(a[k] == c as u32);
                    assert(a.contains(c as u32));
                } else {
                    assert(s[n - 1].1 == c);
                }
            }
            if a.contains(c as u32) {
                let k = choose|k: int| 0 <= k < a.len() && a[k] == c as u32;
                assert(r[k] == c as u32);
            }
            if c != primary && exists|i: int| 0 <= i < n && (#[trigger] s[i]).1 == c {
                let i = choose|i: int| 0 <= i < n && (#[trigger] s[i]).1 == c;
                if i == n - 1 {
                    assert(r[a.len() as int] == c as u32);
                }
            }
        }
        assert forall|k: int, j: int| 0 <= k < r.len() && n <= j < s.len() implies distances[
        #[trigger] r[k] as int] < (#[trigger] s[j]).0 || (distances[r[k] as int] == s[j].0 && r[k] < s[j].1) by {
            if k < a.len() {
                assert(r[k] == a[k]);
            }
        }
    }
}

/// The candidates for a further copy are exactly the partitions within the
/// bound but for the row's own, nearest first.
pub proof fn law_candidates_lie_within_the_bound(distances: &Vec<u32>, bound: u32, primary: u32, r: Vec<u32>)
    requires
        distances@.len() <= 0xFFFF_FFFF,
        closure_candidates.ensures((distances, bound, primary), r),
    ensures
        in_order(distances@, r@),
        forall|c: int|
            0 <= c < distances@.len() ==> (#[trigger] r@.contains(c as u32) <==> c != primary && distances@[c]
                <= bound),
{
    let d = distances@;
    let s = nearest_first(d);
    let w = within(s, bound);
    lemma_nearest_first(d);
    lemma_within_bound(s, bound);
    lemma_others_in_order(d, primary, w);
    assert forall|c: int| 0 <= c < d.len() implies (#[trigger] r@.contains(c as u32) <==> c != primary && d[c]
        <= bound) by {
        assert(has_partition(s, c));
        let i = choose|i: int| 0 <= i < s.len() && (#[trigger] s[i]).1 == c;
        if i < w {
            lemma_within_prefix(s, bound, i);
        } else {
            lemma_beyond_bound(s, bound, i);
            assert forall|k: int| 0 <= k < w implies (#[trigger] s[k]).1 != c by {
                assert(s[k].1 != s[i].1);
            }
        }
    }
}

/// Distance between the partitions `a` and `b` of a square table of `m + 1`;
/// the row's own partition has number 0, candidate `j` number `j + 1`.
pub open spec fn apart(pairwise: Seq<u32>, m: int, a: int, b: int) -> u32 {
    pairwise[a * (m + 1) + b]
}

/// Candidate `j` is closer to the row's own partition, or to a partition chosen
/// before it, than to the row.
pub open spec fn covered_before(pairwise: Seq<u32>, distances: Seq<u32>, m: int, at: Seq<int>, j: int) -> bool {
    ||| apart(pairwise, m, j + 1, 0) < distances[j]
    ||| exists|i: int|
        0 <= i < at.len() && #[trigger] at[i] < j && apart(pairwise, m, j + 1, at[i] + 1) < distances[j]
}

/// Seven copies were placed before candidate `j`.
pub open spec fn full_before(at: Seq<int>, j: int) -> bool {
    at.len() == 7 && at[6] < j
}

proof fn lemma_picks_are_all(pairwise: Seq<u32>, distances: Seq<u32>, m: int, prune: bool, n: int)
    requires
        0 <= n,
    ensures
        ({
            let at = picks(pairwise, distances, m, prune, n);
            &&& increasing(at)
            &&& at.len() <= 7
            &&& forall|k: int| 0 <= k < at.len() ==> 0 <= #[trigger] at[k] < n
            &&& forall|j: int|
                0 <= j < n ==> (#[trigger] at.contains(j) <==> !full_before(at, j) && !(prune && covered_before(
                    pairwise,
                    distances,
                    m,
                    at,
                    j,
                )))
        }),
    decreases n,
{
    if n > 0 {
        lemma_picks_are_all(pairwise, distances, m, prune, n - 1);
        let a = picks(pairwise, distances, m, prune, n - 1);
        let b = picks(pairwise, distances, m, prune, n);
        let c = n - 1;
        assert(redundant(pairwise, distances, m, a, c) == covered_before(pairwise, distances, m, a, c)) by {
            if redundant(pairwise, distances, m, a, c) && between(pairwise, m, c + 1, 0) >= distances[c] {
                let k = choose|k: int|
                    0 <= k < a.len() && between(pairwise, m, c + 1, #[trigger] a[k] + 1) < distances[c];
                assert(a[k] < c);
                assert(apart(pairwise, m, c + 1, a[k] + 1) < distances[c]);
            }
            if covered_before(pairwise, distances, m, a, c) && apart(pairwise, m, c + 1, 0) >= distances[c] {
                let i = choose|i: int|
                    0 <= i < a.len() && #[trigger] a[i] < c && apart(pairwise, m, c + 1, a[i] + 1) < distances[c];
                assert(between(pairwise, m, c + 1, a[i] + 1) < distances[c]);
            }
        }
        assert forall|j: int| 0 <= j < n implies (#[trigger] b.contains(j) <==> !full_before(b, j) && !(prune
            && covered_before(pairwise, distances, m, b, j))) by {
            assert(covered_before(pairwise, distances, m, b, j) == covered_before(pairwise, distances, m, a, j)) by {
                if covered_before(pairwise, distances, m, b, j) && apart(pairwise, m, j + 1, 0) >= distances[j] {
                    let i = choose|i: int|
                        0 <= i < b.len() && #[trigger] b[i] < j && apart(pairwise, m, j + 1, b[i] + 1) < distances[j];
                    assert(i < a.len());
                    assert(a[i] == b[i]);
                }
                if covered_before(pairwise, distances, m, a, j) && apart(pairwise, m, j + 1, 0) >= distances[j] {
                    let i = choose|i: int|
                        0 <= i < a.len() && #[trigger] a[i] < j && apart(pairwise, m, j + 1, a[i] + 1) < distances[j];
                    assert(b[i] == a[i]);
                }
            }
            if b.contains(j) {
                let k = choose|k: int| 0 <= k < b.len() && b[k] == j;
                if k < a.len() {
                    assert(a[k] == j);
                    assert(a.contains(j));
                }
            }
            if a.contains(j) {
                let k = choose|k: int| 0 <= k < a.len() && a[k] == j;
                assert(b[k] == j);
            }
            if j == c {
                if b.len() > a.len() {
                    assert(b[a.len() as int] == c);
                }
                if a.contains(j) {
                    let k = choose|k: int| 0 <= k < a.len() && a[k] == j;
                    assert(a[k] < c);
                }
            } else if b.len() == 7 && a.len() == 6 {
                assert(b[6] == c);
            }
        }
    }
}

/// A candidate gets a copy exactly if there are not seven copies before it and,
/// with pruning, its centroid is no closer to that of the row's own partition,
/// or of a partition chosen before it, than to the row.
pub proof fn law_copies_cover_the_row(
    candidates: &Vec<u32>,
    distances: &Vec<u32>,
    pairwise: &Vec<u32>,
    prune: bool,
    r: Vec<u32>,
)
    requires
        distances@.len() == candidates@.len(),
        pairwise@.len() == (candidates@.len() + 1) * (candidates@.len() + 1),
        select_replicas.ensures((candidates, distances, pairwise, prune), r),
    ensures
        r@.len() <= 7,
        exists|at: Seq<int>|
            #![trigger increasing(at)]
            {
                &&& at.len() == r@.len()
                &&& increasing(at)
                &&& forall|k: int|
                    0 <= k < at.len() ==> 0 <= #[trigger] at[k] < candidates@.len() && r@[k] == candidates@[at[k]]
                &&& forall|j: int|
                    0 <= j < candidates@.len() ==> (#[trigger] at.contains(j) <==> !full_before(at, j) && !(prune
                        && covered_before(pairwise@, distances@, candidates@.len() as int, at, j)))
            },
{
    let m = candidates@.len() as int;
    let at = picks(pairwise@, distances@, m, prune, m);
    lemma_picks_are_all(pairwise@, distances@, m, prune, m);
    assert(increasing(at));
}

} // verus!
