//! Ranking of scored candidates.
//!
//! A score is carried as the bit pattern of its 32-bit float. [`score_rank`]
//! maps a pattern to its place in the descending order of scores, so ranking
//! needs no floating-point comparison. Equal scores are ordered by id.
use std::collections::HashSet;
use vstd::prelude::*;
use crate::sort::{lemma_map_multiset, lemma_sorted_pairs, mapped, pair_leq, sort_pairs, sorted_pairs};

verus! {

broadcast use vstd::std_specs::hash::group_hash_axioms;

/// Bit pattern of negative infinity, the score of a padding entry.
pub const NEG_INFINITY_BITS: u32 = 0xFF80_0000;

/// The place of a score in descending order: greater scores come first.
pub open spec fn score_rank(bits: u32) -> u64 {
    if bits < 0x8000_0000 {
        (0x7FFF_FFFF - bits) as u64
    } else {
        bits as u64
    }
}

/// The score at a place.
pub open spec fn rank_score(rank: u64) -> u32 {
    if rank < 0x8000_0000 {
        (0x7FFF_FFFF - rank) as u32
    } else {
        rank as u32
    }
}

/// Candidates as sortable pairs.
pub open spec fn rank_pairs(s: Seq<(u32, u64)>) -> Seq<(u64, u64)> {
    Seq::new(s.len(), |i: int| (score_rank(s[i].0), s[i].1))
}

/// Sortable pairs as candidates.
pub open spec fn unrank_pairs(s: Seq<(u64, u64)>) -> Seq<(u32, u64)> {
    Seq::new(s.len(), |i: int| (rank_score(s[i].0), s[i].1))
}

/// The candidates, best score first.
pub open spec fn ranked(s: Seq<(u32, u64)>) -> Seq<(u32, u64)> {
    unrank_pairs(sorted_pairs(rank_pairs(s)))
}

/// Whether some candidate has this id.
pub open spec fn has_id(s: Seq<(u32, u64)>, id: u64) -> bool {
    exists|i: int| 0 <= i < s.len() && (#[trigger] s[i]).1 == id
}

/// The first candidate of each id.
pub open spec fn keep_first(s: Seq<(u32, u64)>) -> Seq<(u32, u64)>
    decreases s.len(),
{
    if s.len() == 0 {
        Seq::empty()
    } else if has_id(s.drop_last(), s.last().1) {
        keep_first(s.drop_last())
    } else {
        keep_first(s.drop_last()).push(s.last())
    }
}

/// The first `m` elements, or all of them.
pub open spec fn prefix(s: Seq<(u32, u64)>, m: int) -> Seq<(u32, u64)> {
    if m < s.len() {
        s.take(m)
    } else {
        s
    }
}

/// The best candidate of each id, best first, at most `m` of them.
pub open spec fn top_candidates(s: Seq<(u32, u64)>, m: int) -> Seq<(u32, u64)> {
    prefix(keep_first(ranked(s)), m)
}

/// `row` cut or padded to width `k`.
pub open spec fn padded_row(row: Seq<(u32, u64)>, k: int) -> Seq<(u32, u64)> {
    Seq::new(
        k as nat,
        |i: int|
            if i < row.len() {
                row[i]
            } else {
                (NEG_INFINITY_BITS, 0u64)
            },
    )
}

fn rank_of(bits: u32) -> (r: u64)
    ensures
        r == score_rank(bits),
{
    if bits < 0x8000_0000 {
        (0x7FFF_FFFF - bits) as u64
    } else {
        bits as u64
    }
}

fn score_of(rank: u64) -> (b: u32)
    requires
        rank <= 0xFFFF_FFFF,
    ensures
        b == rank_score(rank),
{
    if rank < 0x8000_0000 {
        (0x7FFF_FFFF - rank) as u32
    } else {
        rank as u32
    }
}

/// A rank stands for its score.
pub proof fn lemma_rank_inverse(bits: u32)
    ensures
        rank_score(score_rank(bits)) == bits,
        score_rank(bits) <= 0xFFFF_FFFF,
{
}

/// Sorted pairs come from candidates.
proof fn lemma_ranked_source(s: Seq<(u32, u64)>, i: int)
    requires
        0 <= i < s.len(),
    ensures
        sorted_pairs(rank_pairs(s)).len() == s.len(),
        exists|j: int|
            0 <= j < s.len() && sorted_pairs(rank_pairs(s))[i] == (score_rank((#[trigger] s[j]).0), s[j].1),
        sorted_pairs(rank_pairs(s))[i].0 <= 0xFFFF_FFFF,
{
    let p = rank_pairs(s);
    let t = sorted_pairs(p);
    lemma_sorted_pairs(p);
    p.to_multiset_ensures();
    t.to_multiset_ensures();
    assert(t.contains(t[i]));
    assert(t.to_multiset().count(t[i]) > 0);
    assert(p.contains(t[i]));
    let j = choose|j: int| 0 <= j < p.len() && p[j] == t[i];
    assert(t[i] == (score_rank(s[j].0), s[j].1));
    lemma_rank_inverse(s[j].0);
}

/// Ranks candidates, best score first.
pub fn rank(candidates: &Vec<(u32, u64)>) -> (out: Vec<(u32, u64)>)
    ensures
        out@ == ranked(candidates@),
        out@.len() == candidates@.len(),
{
    let mut pairs: Vec<(u64, u64)> = Vec::new();
    let mut i: usize = 0;
    while i < candidates.len()
        invariant
            i <= candidates.len(),
            pairs@ == rank_pairs(candidates@).take(i as int),
        decreases candidates.len() - i,
    {
        pairs.push((rank_of(candidates[i].0), candidates[i].1));
        i = i + 1;
        assert(pairs@ =~= rank_pairs(candidates@).take(i as int));
    }
    assert(pairs@ =~= rank_pairs(candidates@));
    let sorted: Vec<(u64, u64)> = sort_pairs(&pairs);
    proof {
        lemma_sorted_pairs(pairs@);
    }
    let mut out: Vec<(u32, u64)> = Vec::new();
    let mut j: usize = 0;
    while j < sorted.len()
        invariant
            j <= sorted.len(),
            sorted@ == sorted_pairs(rank_pairs(candidates@)),
            sorted@.len() == candidates@.len(),
            out@ == ranked(candidates@).take(j as int),
        decreases sorted.len() - j,
    {
        proof {
            lemma_ranked_source(candidates@, j as int);
        }
        out.push((score_of(sorted[j].0), sorted[j].1));
        j = j + 1;
        assert(out@ =~= ranked(candidates@).take(j as int));
    }
    assert(out@ =~= ranked(candidates@));
    out
}

/// The set of ids of some candidates.
pub open spec fn id_set(s: Seq<(u32, u64)>) -> Set<u64> {
    Set::new(|id: u64| has_id(s, id))
}

/// Keeps the first candidate of each id.
pub fn dedup_by_id(candidates: &Vec<(u32, u64)>) -> (out: Vec<(u32, u64)>)
    ensures
        out@ == keep_first(candidates@),
{
    let mut seen: HashSet<u64> = HashSet::new();
    let mut out: Vec<(u32, u64)> = Vec::new();
    let mut i: usize = 0;
    assert(candidates@.take(0) =~= Seq::<(u32, u64)>::empty());
    assert(seen@ =~= id_set(candidates@.take(0)));
    while i < candidates.len()
        invariant
            i <= candidates.len(),
            seen@ == id_set(candidates@.take(i as int)),
            out@ == keep_first(candidates@.take(i as int)),
        decreases candidates.len() - i,
    {
        let c: (u32, u64) = candidates[i];
        let ghost before = candidates@.take(i as int);
        let ghost after = candidates@.take(i + 1);
        let fresh: bool = seen.insert(c.1);
        proof {
            assert(after.drop_last() =~= before);
            assert(after.last() == c);
            assert forall|id: u64| has_id(after, id) <==> has_id(before, id) || id == c.1 by {
                if has_id(before, id) {
                    let k = choose|k: int| 0 <= k < before.len() && (#[trigger] before[k]).1 == id;
                    assert(after[k] == before[k]);
                }
                if id == c.1 {
                    assert(after[i as int].1 == id);
                }
                if has_id(after, id) {
                    let k = choose|k: int| 0 <= k < after.len() && (#[trigger] after[k]).1 == id;
                    if k < i {
                        assert(before[k] == after[k]);
                    }
                }
            }
            assert(id_set(after) =~= id_set(before).insert(c.1));
        }
        if fresh {
            out.push(c);
        }
        i = i + 1;
    }
    assert(candidates@.take(i as int) =~= candidates@);
    out
}

/// The best candidate of each id, best first, at most `m` of them.
pub fn merge_candidates(candidates: &Vec<(u32, u64)>, m: usize) -> (out: Vec<(u32, u64)>)
    ensures
        out@ == top_candidates(candidates@, m as int),
{
    let sorted: Vec<(u32, u64)> = rank(candidates);
    let mut out: Vec<(u32, u64)> = dedup_by_id(&sorted);
    if m < out.len() {
        out.truncate(m);
    }
    out
}

/// The candidates with new scores.
pub open spec fn rescored(s: Seq<(u32, u64)>, scores: Seq<u32>) -> Seq<(u32, u64)> {
    Seq::new(s.len(), |i: int| (scores[i], s[i].1))
}

/// One result row: the merged candidates, re-ranked by `exact` scores where
/// given, and cut or padded to width `k`.
pub open spec fn result_row(s: Seq<(u32, u64)>, exact: Option<Seq<u32>>, k: int) -> Seq<(u32, u64)> {
    match exact {
        Some(scores) => padded_row(ranked(rescored(s, scores)), k),
        None => padded_row(s, k),
    }
}

/// Builds one result row of width `k` out of merged candidates.
pub fn finish_row(merged: &Vec<(u32, u64)>, exact: Option<Vec<u32>>, k: usize) -> (out: Vec<(u32, u64)>)
    requires
        exact is Some ==> exact->0@.len() == merged@.len(),
    ensures
        out@ == result_row(
            merged@,
            match exact {
                Some(v) => Some(v@),
                None => None,
            },
            k as int,
        ),
        out@.len() == k,
{
    match exact {
        None => pad_row(merged, k),
        Some(scores) => {
            let mut again: Vec<(u32, u64)> = Vec::new();
            let mut i: usize = 0;
            while i < merged.len()
                invariant
                    i <= merged.len(),
                    scores@.len() == merged@.len(),
                    again@ == rescored(merged@, scores@).take(i as int),
                decreases merged.len() - i,
            {
                again.push((scores[i], merged[i].1));
                i = i + 1;
                assert(again@ =~= rescored(merged@, scores@).take(i as int));
            }
            assert(again@ =~= rescored(merged@, scores@));
            let sorted: Vec<(u32, u64)> = rank(&again);
            pad_row(&sorted, k)
        },
    }
}

fn pad_row(row: &Vec<(u32, u64)>, k: usize) -> (out: Vec<(u32, u64)>)
    ensures
        out@ == padded_row(row@, k as int),
{
    let mut out: Vec<(u32, u64)> = Vec::new();
    let mut i: usize = 0;
    while i < k
        invariant
            i <= k,
            out@ == padded_row(row@, k as int).take(i as int),
        decreases k - i,
    {
        if i < row.len() {
            out.push(row[i]);
        } else {
            out.push((NEG_INFINITY_BITS, 0));
        }
        i = i + 1;
        assert(out@ =~= padded_row(row@, k as int).take(i as int));
    }
    assert(out@ =~= padded_row(row@, k as int));
    out
}

/// Ranking keeps every candidate and puts better scores first.
pub proof fn law_ranked(s: Seq<(u32, u64)>)
    ensures
        ranked(s).len() == s.len(),
        ranked(s).to_multiset() == s.to_multiset(),
        forall|i: int, j: int|
            0 <= i < j < s.len() ==> score_rank((#[trigger] ranked(s)[i]).0) <= score_rank(
                (#[trigger] ranked(s)[j]).0,
            ),
{
    let t = sorted_pairs(rank_pairs(s));
    lemma_sorted_pairs(rank_pairs(s));
    assert forall|i: int, j: int| 0 <= i < j < s.len() implies score_rank((#[trigger] ranked(s)[i]).0)
        <= score_rank((#[trigger] ranked(s)[j]).0) by {
        lemma_ranked_source(s, i);
        lemma_ranked_source(s, j);
        let a = choose|a: int| 0 <= a < s.len() && t[i] == (score_rank((#[trigger] s[a]).0), s[a].1);
        let b = choose|b: int| 0 <= b < s.len() && t[j] == (score_rank((#[trigger] s[b]).0), s[b].1);
        lemma_rank_inverse(s[a].0);
        lemma_rank_inverse(s[b].0);
        assert(pair_leq(t[i], t[j]));
    }
    let f = |p: (u64, u64)| (rank_score(p.0), p.1);
    lemma_map_multiset(rank_pairs(s), t, f);
    assert(mapped(rank_pairs(s), f) =~= s);
    assert(mapped(t, f) =~= ranked(s));
}

/// Every id survives the removal of later duplicates, exactly once, and the
/// survivors keep their order.
pub proof fn law_keep_first(s: Seq<(u32, u64)>)
    ensures
        keep_first(s).len() <= s.len(),
        forall|id: u64| has_id(keep_first(s), id) <==> has_id(s, id),
        forall|i: int, j: int|
            0 <= i < j < keep_first(s).len() ==> (#[trigger] keep_first(s)[i]).1 != (#[trigger] keep_first(
                s,
            )[j]).1,
        forall|i: int|
            0 <= i < keep_first(s).len() ==> exists|k: int|
                i <= k < s.len() && #[trigger] s[k] == #[trigger] keep_first(s)[i] && !has_id(
                    s.take(k),
                    s[k].1,
                ),
    decreases s.len(),
{
    if s.len() > 0 {
        let a = s.drop_last();
        let x = s.last();
        law_keep_first(a);
        let t = keep_first(s);
        let u = keep_first(a);
        assert forall|id: u64| has_id(s, id) <==> has_id(a, id) || id == x.1 by {
            if has_id(a, id) {
                let k = choose|k: int| 0 <= k < a.len() && (#[trigger] a[k]).1 == id;
                assert(s[k] == a[k]);
            }
            if id == x.1 {
                assert(s[s.len() - 1].1 == id);
            }
            if has_id(s, id) {
                let k = choose|k: int| 0 <= k < s.len() && (#[trigger] s[k]).1 == id;
                if k < a.len() {
                    assert(a[k] == s[k]);
                }
            }
        }
        if has_id(a, x.1) {
            assert(t == u);
        } else {
            assert(t == u.push(x));
            assert forall|id: u64| has_id(t, id) <==> has_id(u, id) || id == x.1 by {
                if has_id(u, id) {
                    let k = choose|k: int| 0 <= k < u.len() && (#[trigger] u[k]).1 == id;
                    assert(t[k] == u[k]);
                }
                if id == x.1 {
                    assert(t[u.len() as int].1 == id);
                }
                if has_id(t, id) {
                    let k = choose|k: int| 0 <= k < t.len() && (#[trigger] t[k]).1 == id;
                    if k < u.len() {
                        assert(u[k] == t[k]);
                    }
                }
            }
            assert forall|i: int, j: int| 0 <= i < j < t.len() implies (#[trigger] t[i]).1 != (#[trigger] t[j]).1 by {
                if j == u.len() {
                    assert(u[i] == t[i]);
                    assert(has_id(u, t[i].1));
                }
            }
        }
        assert forall|i: int| 0 <= i < t.len() implies exists|k: int|
            i <= k < s.len() && #[trigger] s[k] == #[trigger] t[i] && !has_id(s.take(k), s[k].1) by {
            if i < u.len() {
                assert(t[i] == u[i]);
                let k = choose|k: int|
                    i <= k < a.len() && #[trigger] a[k] == u[i] && !has_id(a.take(k), a[k].1);
                assert(s[k] == a[k]);
                assert(s.take(k) =~= a.take(k));
            } else {
                let k = s.len() - 1;
                assert(s[k] == t[i]);
                assert(s.take(k) =~= a);
            }
        }
    }
}

/// Better scores first.
pub open spec fn best_first(s: Seq<(u32, u64)>) -> bool {
    forall|i: int, j: int|
        0 <= i < j < s.len() ==> score_rank((#[trigger] s[i]).0) <= score_rank((#[trigger] s[j]).0)
}

/// Dropping later duplicates keeps the order.
proof fn lemma_keep_first_order(s: Seq<(u32, u64)>)
    requires
        best_first(s),
    ensures
        best_first(keep_first(s)),
    decreases s.len(),
{
    if s.len() > 0 {
        let a = s.drop_last();
        lemma_keep_first_order(a);
        law_keep_first(a);
        let u = keep_first(a);
        let t = keep_first(s);
        if !has_id(a, s.last().1) {
            assert forall|i: int, j: int| 0 <= i < j < t.len() implies score_rank((#[trigger] t[i]).0)
                <= score_rank((#[trigger] t[j]).0) by {
                assert(t[i] == u[i]);
                if j == u.len() {
                    let k = choose|k: int|
                        i <= k < a.len() && #[trigger] a[k] == u[i] && !has_id(a.take(k), a[k].1);
                    assert(s[k] == a[k]);
                    assert(s[s.len() - 1] == t[j]);
                } else {
                    assert(t[j] == u[j]);
                }
            }
        }
    }
}

/// The first occurrence of an id is kept.
proof fn lemma_first_kept(s: Seq<(u32, u64)>, q: int) -> (i: int)
    requires
        best_first(s),
        0 <= q < s.len(),
    ensures
        0 <= i < keep_first(s).len(),
        keep_first(s)[i].1 == s[q].1,
        score_rank(keep_first(s)[i].0) <= score_rank(s[q].0),
    decreases s.len(),
{
    let a = s.drop_last();
    let u = keep_first(a);
    if q < a.len() {
        let i = lemma_first_kept(a, q);
        assert(a[q] == s[q]);
        assert(keep_first(s)[i] == u[i]);
        i
    } else if has_id(a, s.last().1) {
        let k = choose|k: int| 0 <= k < a.len() && (#[trigger] a[k]).1 == s.last().1;
        let i = lemma_first_kept(a, k);
        assert(s[k] == a[k]);
        i
    } else {
        u.len() as int
    }
}

/// The list holds the id of `c` with no worse score, or is full of candidates
/// that are no worse.
pub open spec fn represented(top: Seq<(u32, u64)>, m: int, c: (u32, u64)) -> bool {
    ||| exists|i: int|
        0 <= i < top.len() && (#[trigger] top[i]).1 == c.1 && score_rank(top[i].0) <= score_rank(c.0)
    ||| top.len() == m && forall|i: int|
        0 <= i < m ==> score_rank((#[trigger] top[i]).0) <= score_rank(c.0)
}

/// The merged list holds the best candidates: at most `m`, distinct ids, best
/// first, each a candidate; and every other candidate either repeats an id of
/// the list with no better score, or the list is full and beats it.
pub proof fn law_top_candidates(s: Seq<(u32, u64)>, m: int)
    requires
        0 <= m,
    ensures
        top_candidates(s, m).len() <= m,
        best_first(top_candidates(s, m)),
        forall|i: int, j: int|
            0 <= i < j < top_candidates(s, m).len() ==> (#[trigger] top_candidates(s, m)[i]).1 != (
            #[trigger] top_candidates(s, m)[j]).1,
        forall|i: int|
            0 <= i < top_candidates(s, m).len() ==> s.contains(#[trigger] top_candidates(s, m)[i]),
        forall|q: int| 0 <= q < s.len() ==> represented(top_candidates(s, m), m, #[trigger] s[q]),
{
    let r = ranked(s);
    let t = keep_first(r);
    let top = top_candidates(s, m);
    law_ranked(s);
    assert(best_first(r));
    law_keep_first(r);
    lemma_keep_first_order(r);
    s.to_multiset_ensures();
    r.to_multiset_ensures();
    assert forall|i: int| 0 <= i < top.len() implies s.contains(#[trigger] top[i]) by {
        assert(top[i] == t[i]);
        let k = choose|k: int| i <= k < r.len() && #[trigger] r[k] == t[i] && !has_id(r.take(k), r[k].1);
        assert(r.contains(r[k]));
        assert(r.to_multiset().count(r[k]) > 0);
        assert(s.contains(r[k]));
    }
    assert forall|q: int| 0 <= q < s.len() implies represented(top, m, #[trigger] s[q]) by {
        assert(s.contains(s[q]));
        assert(s.to_multiset().count(s[q]) > 0);
        assert(r.contains(s[q]));
        let k = choose|k: int| 0 <= k < r.len() && r[k] == s[q];
        let i = lemma_first_kept(r, k);
        if i < top.len() {
            assert(top[i] == t[i]);
        } else {
            assert(top.len() == m);
            assert forall|x: int| 0 <= x < m implies score_rank((#[trigger] top[x]).0) <= score_rank(s[q].0) by {
                assert(top[x] == t[x]);
                assert(score_rank(t[x].0) <= score_rank(t[i].0));
            }
        }
    }
}

} // verus!
