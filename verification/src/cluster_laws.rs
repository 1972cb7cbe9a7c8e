//! What clusterings hold after each change, and which rows a change looks at
//! again.
use vstd::prelude::*;
use crate::clustering::{
    after_dissolve, after_split, assigned, clustering_sample, degenerate, first_above, first_below, lemma_members,
    lemma_sample_step, members_of, ones, place, sample_size, sample_step, size_of, split_centroids, wanted_step,
    Clustering,
};
use crate::compact::NO_PARTITION;
use crate::lire::{
    flag_shrunk, flagged_rows, holdout_positions, moved, nearest_others, neighbors_of, others,
    rows_of_flagged, split_sample,
};
use crate::probe_laws::{has_partition, in_order, lemma_nearest_first};
use crate::replica_laws::lemma_others_in_order;
use crate::search::nearest_first;

verus! {

/// Each number is below the next.
pub open spec fn rising(v: Seq<usize>) -> bool {
    forall|i: int, k: int| 0 <= i < k < v.len() ==> #[trigger] v[i] < #[trigger] v[k]
}

/// How often a partition occurs.
pub open spec fn count_of(assignments: Seq<u32>, p: int) -> nat {
    assignments.to_multiset().count(p as u32)
}

/// The size of a partition is how often it occurs among the assignments.
pub proof fn law_size_counts_rows(assignments: Seq<u32>, p: int)
    requires
        0 <= p <= 0xFFFF_FFFF,
    ensures
        size_of(assignments, p) == count_of(assignments, p),
    decreases assignments.len(),
{
    broadcast use vstd::seq_lib::group_to_multiset_ensures;

    if assignments.len() > 0 {
        let init = assignments.drop_last();
        law_size_counts_rows(init, p);
        assert(assignments =~= init.push(assignments.last()));
    }
}

proof fn lemma_holdout(n: int, held: bool)
    requires
        0 <= n,
    ensures
        ({
            let s = holdout_positions(n, held);
            &&& forall|k: int| 0 <= k < s.len() ==> 0 <= #[trigger] s[k] < n && (s[k] % 4 == 0) == held
            &&& forall|i: int, k: int| 0 <= i < k < s.len() ==> #[trigger] s[i] < #[trigger] s[k]
            &&& forall|j: int| 0 <= j < n && (j % 4 == 0) == held ==> #[trigger] s.contains(j)
        }),
    decreases n,
{
    if n > 0 {
        lemma_holdout(n - 1, held);
        let a = holdout_positions(n - 1, held);
        let s = holdout_positions(n, held);
        assert forall|j: int| 0 <= j < n && (j % 4 == 0) == held implies #[trigger] s.contains(j) by {
            if j < n - 1 {
                assert(a.contains(j));
                let k = choose|k: int| 0 <= k < a.len() && a[k] == j;
                assert(s[k] == j);
            } else {
                assert(s[a.len() as int] == j);
            }
        }
    }
}

/// Every fourth row of a sample, from the first on, is held out, and all others
/// are there to fit on.
pub proof fn law_every_fourth_row_is_held_out(n: usize, r: (Vec<usize>, Vec<usize>))
    requires
        split_sample.ensures((n,), r),
    ensures
        rising(r.0@),
        rising(r.1@),
        forall|k: int| 0 <= k < r.0@.len() ==> #[trigger] r.0@[k] < n && r.0@[k] % 4 != 0,
        forall|k: int| 0 <= k < r.1@.len() ==> #[trigger] r.1@[k] < n && r.1@[k] % 4 == 0,
        forall|j: usize| j < n && j % 4 != 0 ==> #[trigger] r.0@.contains(j),
        forall|j: usize| j < n && j % 4 == 0 ==> #[trigger] r.1@.contains(j),
{
    let f = holdout_positions(n as int, false);
    let h = holdout_positions(n as int, true);
    lemma_holdout(n as int, false);
    lemma_holdout(n as int, true);
    assert forall|j: usize| j < n && j % 4 != 0 implies #[trigger] r.0@.contains(j) by {
        assert(f.contains(j as int));
        let k = choose|k: int| 0 <= k < f.len() && f[k] == j;
        assert(r.0@[k] == j);
    }
    assert forall|j: usize| j < n && j % 4 == 0 implies #[trigger] r.1@.contains(j) by {
        assert(h.contains(j as int));
        let k = choose|k: int| 0 <= k < h.len() && h[k] == j;
        assert(r.1@[k] == j);
    }
}

proof fn lemma_neighbors(distances: Seq<u32>, p: u32, m: int)
    requires
        distances.len() <= 0xFFFF_FFFF,
        0 <= m,
    ensures
        ({
            let r = neighbors_of(distances, p as u64, m);
            &&& in_order(distances, r)
            &&& !r.contains(p)
            &&& r.len() <= m
            &&& r.len() < m ==> forall|c: int|
                0 <= c < distances.len() && c != p ==> #[trigger] r.contains(c as u32)
            &&& forall|c: int, k: int|
                0 <= c < distances.len() && c != p && !r.contains(c as u32) && 0 <= k < r.len() ==> distances[
                #[trigger] r[k] as int] <= #[trigger] distances[c]
        }),
{
    let s = nearest_first(distances);
    let n = distances.len() as int;
    lemma_nearest_first(distances);
    lemma_others_in_order(distances, p, n);
    assert(s.take(n) =~= s);
    let all = others(s, p as u64);
    let r = neighbors_of(distances, p as u64, m);
    assert forall|c: int| 0 <= c < n && c != p implies #[trigger] all.contains(c as u32) by {
        assert(has_partition(s, c));
    }
    if r.contains(p) {
        let k = choose|k: int| 0 <= k < r.len() && r[k] == p;
        assert(all[k] == p);
        assert(all[k] < distances.len());
        assert(all.contains(p as int as u32));
    }
    if r.len() < m {
        assert(r =~= all);
    }
    assert forall|c: int, k: int|
        0 <= c < n && c != p && !r.contains(c as u32) && 0 <= k < r.len() implies distances[#[trigger] r[k] as int]
        <= #[trigger] distances[c] by {
        assert(all.contains(c as u32));
        let j = choose|j: int| 0 <= j < all.len() && all[j] == c as u32;
        if j < r.len() {
            assert(r[j] == c as u32);
        }
        assert(all[k] == r[k]);
    }
}

/// The neighbours of a partition are the nearest others, nearest first, and all
/// of them where there are not enough.
pub proof fn law_neighbours_are_nearest(distances: &Vec<u32>, p: u32, m: usize, r: Vec<u32>)
    requires
        distances@.len() <= 0xFFFF_FFFF,
        nearest_others.ensures((distances, p, m), r),
    ensures
        in_order(distances@, r@),
        !r@.contains(p),
        r@.len() <= m,
        r@.len() < m ==> forall|c: int| 0 <= c < distances@.len() && c != p ==> #[trigger] r@.contains(c as u32),
        forall|c: int, k: int|
            0 <= c < distances@.len() && c != p && !r@.contains(c as u32) && 0 <= k < r@.len() ==> distances@[
            #[trigger] r@[k] as int] <= #[trigger] distances@[c],
{
    lemma_neighbors(distances@, p, m as int);
}

proof fn lemma_flagged_rows(assignments: Seq<u32>, flags: Seq<bool>, n: int)
    requires
        0 <= n <= assignments.len(),
    ensures
        ({
            let s = flagged_rows(assignments, flags, n);
            &&& forall|k: int| 0 <= k < s.len() ==> 0 <= #[trigger] s[k] < n && flags[assignments[s[k]] as int]
            &&& forall|i: int, k: int| 0 <= i < k < s.len() ==> #[trigger] s[i] < #[trigger] s[k]
            &&& forall|i: int| 0 <= i < n && flags[assignments[i] as int] ==> #[trigger] s.contains(i)
        }),
    decreases n,
{
    if n > 0 {
        lemma_flagged_rows(assignments, flags, n - 1);
        let a = flagged_rows(assignments, flags, n - 1);
        let s = flagged_rows(assignments, flags, n);
        assert forall|i: int| 0 <= i < n && flags[assignments[i] as int] implies #[trigger] s.contains(i) by {
            if i < n - 1 {
                assert(a.contains(i));
                let k = choose|k: int| 0 <= k < a.len() && a[k] == i;
                assert(s[k] == i);
            } else {
                assert(s[a.len() as int] == i);
            }
        }
    }
}

/// The rows of flagged partitions are all rows whose partition is flagged, in
/// order.
pub proof fn law_flagged_rows_are_all(assignments: &Vec<u32>, flags: &Vec<bool>, rows: Vec<usize>)
    requires
        rows_of_flagged.ensures((assignments, flags), rows),
    ensures
        rising(rows@),
        forall|k: int|
            0 <= k < rows@.len() ==> #[trigger] rows@[k] < assignments@.len() && flags@[assignments@[rows@[k] as int] as int],
        forall|i: usize|
            i < assignments@.len() && flags@[assignments@[i as int] as int] ==> #[trigger] rows@.contains(i),
{
    let s = flagged_rows(assignments@, flags@, assignments@.len() as int);
    lemma_flagged_rows(assignments@, flags@, assignments@.len() as int);
    assert forall|i: usize|
        i < assignments@.len() && flags@[assignments@[i as int] as int] implies #[trigger] rows@.contains(i) by {
        assert(s.contains(i as int));
        let k = choose|k: int| 0 <= k < s.len() && s[k] == i;
        assert(rows@[k] == i);
    }
}

/// The members of a partition are all rows that are assigned to it, in order.
pub proof fn law_members_are_all(c: &Clustering, p: u32, m: Vec<usize>)
    requires
        Clustering::members.ensures((c, p), m),
    ensures
        rising(m@),
        forall|k: int| 0 <= k < m@.len() ==> #[trigger] m@[k] < c.assignments@.len() && c.assignments@[m@[k] as int] == p,
        forall|i: usize| i < c.assignments@.len() && c.assignments@[i as int] == p ==> #[trigger] m@.contains(i),
{
    let n = c.assignments@.len() as int;
    let s = members_of(c.assignments@, p as int, n);
    lemma_members(c.assignments@, p as int, n);
    assert forall|k: int| 0 <= k < m@.len() implies #[trigger] m@[k] < c.assignments@.len() && c.assignments@[m@[k] as int]
        == p by {
        assert(m@[k] == s[k]);
    }
    assert forall|i: int, k: int| 0 <= i < k < m@.len() implies #[trigger] m@[i] < #[trigger] m@[k] by {
        assert(s[i] < s[k]);
    }
    assert forall|i: usize| i < n && c.assignments@[i as int] == p implies #[trigger] m@.contains(i) by {
        assert(s.contains(i as int));
        let k = choose|k: int| 0 <= k < s.len() && s[k] == i;
        assert(m@[k] == i);
    }
}

/// The first partition above a limit is the first of all that are.
pub proof fn lemma_above(assignments: Seq<u32>, limit: int, n: int)
    ensures
        match first_above(assignments, limit, n) {
            Some(p) => 0 <= p < n && size_of(assignments, p) > limit && forall|q: int|
                0 <= q < p ==> #[trigger] size_of(assignments, q) <= limit,
            None => forall|q: int| 0 <= q < n ==> #[trigger] size_of(assignments, q) <= limit,
        },
    decreases n,
{
    if n > 0 {
        lemma_above(assignments, limit, n - 1);
    }
}

/// The first partition below a limit is the first of all that are.
pub proof fn lemma_below(assignments: Seq<u32>, limit: int, n: int)
    ensures
        match first_below(assignments, limit, n) {
            Some(p) => 0 <= p < n && size_of(assignments, p) < limit && forall|q: int|
                0 <= q < p ==> #[trigger] size_of(assignments, q) >= limit,
            None => forall|q: int| 0 <= q < n ==> #[trigger] size_of(assignments, q) >= limit,
        },
    decreases n,
{
    if n > 0 {
        lemma_below(assignments, limit, n - 1);
    }
}

/// The partition to split is the first with more than twice the target of
/// rows, if there is any.
pub proof fn law_first_oversized_is_split(c: &Clustering, target: usize, r: Option<usize>)
    requires
        c.wf(),
        Clustering::oversized.ensures((c, target), r),
    ensures
        match r {
            Some(p) => p < c.nlist && count_of(c.assignments@, p as int) > 2 * target && forall|q: int|
                0 <= q < p ==> #[trigger] count_of(c.assignments@, q) <= 2 * target,
            None => forall|q: int| 0 <= q < c.nlist ==> #[trigger] count_of(c.assignments@, q) <= 2 * target,
        },
{
    lemma_above(c.assignments@, 2 * target, c.nlist as int);
    assert forall|q: int| 0 <= q < c.nlist implies #[trigger] count_of(c.assignments@, q) == size_of(
        c.assignments@,
        q,
    ) by {
        law_size_counts_rows(c.assignments@, q);
    }
}

/// The partition to dissolve is the first with less than a quarter of the
/// target of rows, if there are any and more than two partitions.
pub proof fn law_first_undersized_is_dissolved(c: &Clustering, target: usize, r: Option<usize>)
    requires
        c.wf(),
        Clustering::undersized.ensures((c, target), r),
    ensures
        match r {
            Some(p) => c.nlist > 2 && p < c.nlist && count_of(c.assignments@, p as int) < target / 4 && forall|q: int|
                0 <= q < p ==> #[trigger] count_of(c.assignments@, q) >= target / 4,
            None => c.nlist <= 2 || forall|q: int|
                0 <= q < c.nlist ==> #[trigger] count_of(c.assignments@, q) >= target / 4,
        },
{
    lemma_below(c.assignments@, target as int / 4, c.nlist as int);
    assert forall|q: int| 0 <= q < c.nlist implies #[trigger] count_of(c.assignments@, q) == size_of(
        c.assignments@,
        q,
    ) by {
        law_size_counts_rows(c.assignments@, q);
    }
}

proof fn lemma_place_of_member(assignments: Seq<u32>, p: int, n: int, k: int)
    requires
        0 <= n <= assignments.len(),
        0 <= k < members_of(assignments, p, n).len(),
    ensures
        place(assignments, p, members_of(assignments, p, n)[k]) == k,
    decreases n,
{
    if n > 0 {
        let a = members_of(assignments, p, n - 1);
        if k < a.len() {
            lemma_place_of_member(assignments, p, n - 1, k);
        }
    }
}

/// Of a partition that is split, the members labelled 1 go to the new partition
/// and the others stay, and no other row moves.
pub proof fn law_split_moves_labelled_members(
    c: &Clustering,
    p: u32,
    m: Vec<usize>,
    fresh: int,
    child: Seq<u32>,
)
    requires
        Clustering::members.ensures((c, p), m),
        child.len() == m@.len(),
        0 <= fresh <= 0xFFFF_FFFF,
    ensures
        ({
            let after = after_split(c.assignments@, p as int, fresh, child);
            &&& after.len() == c.assignments@.len()
            &&& forall|k: int|
                0 <= k < m@.len() ==> after[#[trigger] m@[k] as int] == if child[k] == 1 {
                    fresh
                } else {
                    p as int
                }
            &&& forall|i: int|
                0 <= i < after.len() && c.assignments@[i] != p ==> #[trigger] after[i] == c.assignments@[i]
        }),
{
    let n = c.assignments@.len() as int;
    let s = members_of(c.assignments@, p as int, n);
    lemma_members(c.assignments@, p as int, n);
    let after = after_split(c.assignments@, p as int, fresh, child);
    assert forall|k: int| 0 <= k < m@.len() implies after[#[trigger] m@[k] as int] == (if child[k] == 1 {
        fresh
    } else {
        p as int
    }) by {
        assert(m@[k] == s[k]);
        lemma_place_of_member(c.assignments@, p as int, n, k);
    }
}

/// The members of a partition that is dissolved go, in order, where the choice
/// says; the last partition takes over the number, and no other row moves.
pub proof fn law_dissolve_spreads_members(c: &Clustering, p: u32, m: Vec<usize>, last: int, chosen: Seq<u32>)
    requires
        Clustering::members.ensures((c, p), m),
        chosen.len() == m@.len(),
        p <= last <= 0xFFFF_FFFF,
    ensures
        ({
            let after = after_dissolve(c.assignments@, p as int, last, chosen);
            &&& after.len() == c.assignments@.len()
            &&& forall|k: int| 0 <= k < m@.len() ==> after[#[trigger] m@[k] as int] == chosen[k]
            &&& forall|i: int|
                0 <= i < after.len() && c.assignments@[i] != p && c.assignments@[i] != last ==> #[trigger] after[i]
                    == c.assignments@[i]
            &&& forall|i: int|
                0 <= i < after.len() && c.assignments@[i] != p && c.assignments@[i] == last ==> #[trigger] after[i]
                    == p
        }),
{
    let n = c.assignments@.len() as int;
    let s = members_of(c.assignments@, p as int, n);
    lemma_members(c.assignments@, p as int, n);
    let after = after_dissolve(c.assignments@, p as int, last, chosen);
    assert forall|k: int| 0 <= k < m@.len() implies after[#[trigger] m@[k] as int] == chosen[k] by {
        assert(m@[k] == s[k]);
        lemma_place_of_member(c.assignments@, p as int, n, k);
    }
}

/// A split fails exactly if there are not two centroids or one part would be
/// empty.
pub proof fn law_empty_parts_fail_a_split(child_centroids: int, child: Seq<u32>)
    ensures
        degenerate(child_centroids, child) <==> {
            ||| child_centroids < 2
            ||| forall|i: int| 0 <= i < child.len() ==> #[trigger] child[i] != 1
            ||| forall|i: int| 0 <= i < child.len() ==> #[trigger] child[i] == 1
        },
{
    lemma_ones(child);
}

proof fn lemma_ones(child: Seq<u32>)
    ensures
        0 <= ones(child) <= child.len(),
        ones(child) == 0 <==> forall|i: int| 0 <= i < child.len() ==> #[trigger] child[i] != 1,
        ones(child) == child.len() <==> forall|i: int| 0 <= i < child.len() ==> #[trigger] child[i] == 1,
    decreases child.len(),
{
    if child.len() > 0 {
        let init = child.drop_last();
        let n = child.len() - 1;
        lemma_ones(init);
        assert forall|i: int| 0 <= i < init.len() implies #[trigger] init[i] == child[i] by {}
        if forall|i: int| 0 <= i < child.len() ==> #[trigger] child[i] != 1 {
            assert forall|i: int| 0 <= i < init.len() implies #[trigger] init[i] != 1 by {
                assert(child[i] != 1);
            }
            assert(child[n] != 1);
        }
        if forall|i: int| 0 <= i < child.len() ==> #[trigger] child[i] == 1 {
            assert forall|i: int| 0 <= i < init.len() implies #[trigger] init[i] == 1 by {
                assert(child[i] == 1);
            }
            assert(child[n] == 1);
        }
        if ones(child) == 0 {
            assert forall|i: int| 0 <= i < child.len() implies #[trigger] child[i] != 1 by {
                if i < n {
                    assert(init[i] != 1);
                }
            }
        }
        if ones(child) == child.len() {
            assert forall|i: int| 0 <= i < child.len() implies #[trigger] child[i] == 1 by {
                if i < n {
                    assert(init[i] == 1);
                }
            }
        }
    }
}

/// Centroid `p` of row-major centroids.
pub open spec fn centroid(all: Seq<u32>, dim: int, p: int) -> Seq<u32> {
    all.subrange(p * dim, p * dim + dim)
}

/// A split puts the first child's centroid in the place of the parent's and the
/// second child's behind all others, which stay.
pub proof fn law_split_places_centroids(centroids: Seq<u32>, dim: int, nlist: int, p: int, children: Seq<u32>, q: int)
    requires
        1 <= dim,
        0 <= p < nlist,
        0 <= q < nlist,
        centroids.len() == nlist * dim,
        children.len() == 2 * dim,
    ensures
        ({
            let after = split_centroids(centroids, dim, p, children);
            &&& after.len() == (nlist + 1) * dim
            &&& centroid(after, dim, p) == children.take(dim)
            &&& centroid(after, dim, nlist) == children.skip(dim)
            &&& q != p ==> centroid(after, dim, q) == centroid(centroids, dim, q)
        }),
{
    let after = split_centroids(centroids, dim, p, children);
    crate::math::lemma_flat_bound(p, 0, nlist, dim);
    crate::math::lemma_flat_bound(q, 0, nlist, dim);
    assert((nlist + 1) * dim == nlist * dim + dim) by (nonlinear_arith);
    assert(centroid(after, dim, p) =~= children.take(dim));
    assert(centroid(after, dim, nlist) =~= children.skip(dim));
    if q != p {
        lemma_rows_apart(p, q, dim);
        assert(centroid(after, dim, q) =~= centroid(centroids, dim, q));
    }
}

proof fn lemma_rows_apart(p: int, q: int, dim: int)
    requires
        p != q,
        1 <= dim,
    ensures
        p * dim + dim <= q * dim || q * dim + dim <= p * dim,
{
    assert(p * dim + dim <= q * dim || q * dim + dim <= p * dim) by (nonlinear_arith)
        requires
            p != q,
            1 <= dim,
    ;
}

/// Without a partition, the last centroid takes the place of its centroid, and
/// all others stay.
pub proof fn law_dissolve_drops_a_centroid(c: &Clustering, p: usize, out: Vec<u32>, q: int)
    requires
        c.wf(),
        p < c.nlist,
        0 <= q < c.nlist - 1,
        Clustering::centroids_without.ensures((c, p), out),
    ensures
        out@.len() == (c.nlist - 1) * c.dim,
        centroid(out@, c.dim as int, q) == centroid(
            c.centroids@,
            c.dim as int,
            if q == p {
                c.nlist - 1
            } else {
                q
            },
        ),
{
    let dim = c.dim as int;
    let last = c.nlist - 1;
    crate::math::lemma_flat_bound(q, 0, last, dim);
    crate::math::lemma_flat_bound(q, 0, c.nlist as int, dim);
    crate::math::lemma_flat_bound(last, 0, c.nlist as int, dim);
    assert((p + 1) * dim == p * dim + dim) by (nonlinear_arith);
    if q == p {
        assert(centroid(out@, dim, q) =~= centroid(c.centroids@, dim, last));
    } else {
        lemma_rows_apart(p as int, q, dim);
        assert(centroid(out@, dim, q) =~= centroid(c.centroids@, dim, q));
    }
}

/// Entry `k` moves its row: the proposal is another partition, and closer.
pub open spec fn moves(assignments: Seq<u32>, rows: Seq<usize>, proposed: Seq<u32>, closer: Seq<bool>, k: int) -> bool {
    proposed[k] != assignments[rows[k] as int] && closer[k]
}

/// A partition that one of the first `n` moves leaves or enters.
pub open spec fn touched(
    assignments: Seq<u32>,
    rows: Seq<usize>,
    proposed: Seq<u32>,
    closer: Seq<bool>,
    n: int,
    p: int,
) -> bool {
    exists|k: int|
        0 <= k < n && #[trigger] moves(assignments, rows, proposed, closer, k) && (proposed[k] == p
            || assignments[rows[k] as int] == p)
}

/// A row moves exactly if its proposal is another partition and strictly
/// closer; no other row moves, and exactly the partitions that a row left or
/// entered are flagged beside those that were.
pub proof fn law_closer_rows_move(
    assignments: Seq<u32>,
    flags: Seq<bool>,
    rows: Seq<usize>,
    proposed: Seq<u32>,
    closer: Seq<bool>,
    n: int,
)
    requires
        rows.no_duplicates(),
        0 <= n <= rows.len(),
        rows.len() == proposed.len(),
        rows.len() == closer.len(),
        forall|k: int| 0 <= k < rows.len() ==> #[trigger] rows[k] < assignments.len(),
        forall|k: int| 0 <= k < rows.len() ==> #[trigger] proposed[k] < flags.len(),
        forall|i: int| 0 <= i < assignments.len() ==> #[trigger] assignments[i] < flags.len(),
    ensures
        ({
            let (a, f) = moved(assignments, flags, rows, proposed, closer, n);
            &&& a.len() == assignments.len()
            &&& f.len() == flags.len()
            &&& forall|k: int|
                0 <= k < n ==> a[#[trigger] rows[k] as int] == if moves(assignments, rows, proposed, closer, k) {
                    proposed[k]
                } else {
                    assignments[rows[k] as int]
                }
            &&& forall|i: int|
                0 <= i < a.len() && !rows.take(n).contains(i as usize) && i <= usize::MAX ==> #[trigger] a[i]
                    == assignments[i]
            &&& forall|p: int|
                0 <= p < f.len() ==> (#[trigger] f[p] <==> flags[p] || touched(
                    assignments,
                    rows,
                    proposed,
                    closer,
                    n,
                    p,
                ))
        }),
    decreases n,
{
    if n > 0 {
        law_closer_rows_move(assignments, flags, rows, proposed, closer, n - 1);
        let (b, g) = moved(assignments, flags, rows, proposed, closer, n - 1);
        let (a, f) = moved(assignments, flags, rows, proposed, closer, n);
        let i = rows[n - 1] as int;
        assert(rows[n - 1] < assignments.len() && proposed[n - 1] < flags.len());
        assert(assignments[i] < flags.len());
        assert(!rows.take(n - 1).contains(rows[n - 1])) by {
            let t = rows.take(n - 1);
            if t.contains(rows[n - 1]) {
                let k = choose|k: int| 0 <= k < t.len() && t[k] == rows[n - 1];
                assert(rows[k] == rows[n - 1]);
            }
        }
        assert(b[i] == assignments[i]);
        assert forall|k: int| 0 <= k < n implies a[#[trigger] rows[k] as int] == (if moves(
            assignments,
            rows,
            proposed,
            closer,
            k,
        ) {
            proposed[k]
        } else {
            assignments[rows[k] as int]
        }) by {
            if k < n - 1 {
                assert(rows[k] != rows[n - 1]);
                assert(rows[k] < assignments.len());
            }
        }
        assert forall|j: int| 0 <= j < a.len() && !rows.take(n).contains(j as usize) && j <= usize::MAX implies
            #[trigger] a[j] == assignments[j] by {
            assert(rows.take(n)[n - 1] == rows[n - 1]);
            let t = rows.take(n - 1);
            if t.contains(j as usize) {
                let k = choose|k: int| 0 <= k < t.len() && t[k] == j as usize;
                assert(rows.take(n)[k] == j as usize);
            }
            assert(b[j] == assignments[j]);
        }
        assert forall|p: int| 0 <= p < f.len() implies (#[trigger] f[p] <==> flags[p] || touched(
            assignments,
            rows,
            proposed,
            closer,
            n,
            p,
        )) by {
            assert(g[p] <==> flags[p] || touched(assignments, rows, proposed, closer, n - 1, p));
            if touched(assignments, rows, proposed, closer, n - 1, p) {
                let k = choose|k: int|
                    0 <= k < n - 1 && #[trigger] moves(assignments, rows, proposed, closer, k) && (proposed[k] == p
                        || assignments[rows[k] as int] == p);
                assert(moves(assignments, rows, proposed, closer, k));
            }
            if moves(assignments, rows, proposed, closer, n - 1) && (proposed[n - 1] == p || assignments[i] == p) {
                assert(touched(assignments, rows, proposed, closer, n, p));
            }
        }
    }
}

/// Listed rows get the partitions that are listed with them, and no other row
/// moves.
pub proof fn law_listed_rows_are_assigned(
    assignments: Seq<u32>,
    rows: Seq<usize>,
    partitions: Seq<u32>,
    n: int,
    i: int,
)
    requires
        rows.no_duplicates(),
        0 <= n <= rows.len(),
        rows.len() == partitions.len(),
        forall|k: int| 0 <= k < rows.len() ==> #[trigger] rows[k] < assignments.len(),
        0 <= i < assignments.len(),
    ensures
        assigned(assignments, rows, partitions, n).len() == assignments.len(),
        forall|k: int| 0 <= k < n && #[trigger] rows[k] == i ==> assigned(assignments, rows, partitions, n)[i] == partitions[k],
        (forall|k: int| 0 <= k < n ==> #[trigger] rows[k] != i) ==> assigned(assignments, rows, partitions, n)[i]
            == assignments[i],
    decreases n,
{
    if n > 0 {
        law_listed_rows_are_assigned(assignments, rows, partitions, n - 1, i);
        assert(rows[n - 1] < assignments.len());
        assert forall|k: int| 0 <= k < n && #[trigger] rows[k] == i implies assigned(
            assignments,
            rows,
            partitions,
            n,
        )[i] == partitions[k] by {
            if k < n - 1 {
                assert(rows[k] != rows[n - 1]);
            }
        }
    }
}

/// A row that came from a partition stays there, and the rows that came from
/// none go, in order, where the choice says.
pub proof fn law_known_rows_keep_their_partition(
    dim: usize,
    nlist: usize,
    centroids: Vec<u32>,
    sources: &Vec<u32>,
    chosen: &Vec<u32>,
    c: Clustering,
    s: &Clustering,
    fresh: Vec<usize>,
)
    requires
        Clustering::from_sources.ensures((dim, nlist, centroids, sources, chosen), c),
        s.assignments@ == sources@,
        Clustering::members.ensures((s, NO_PARTITION), fresh),
        chosen@.len() == fresh@.len(),
    ensures
        c.assignments@.len() == sources@.len(),
        forall|i: int|
            0 <= i < sources@.len() && sources@[i] != NO_PARTITION ==> #[trigger] c.assignments@[i] == sources@[i],
        forall|k: int| 0 <= k < fresh@.len() ==> c.assignments@[#[trigger] fresh@[k] as int] == chosen@[k],
        c.centroids@ == centroids@,
        c.nlist == nlist,
        c.dim == dim,
{
    law_dissolve_spreads_members(s, NO_PARTITION, fresh, NO_PARTITION as int, chosen@);
}

/// A partition is flagged exactly if fewer rows come from it than it had.
pub proof fn law_shrunk_partitions_are_flagged(sources: &Vec<u32>, primaries: &Vec<usize>, flags: Vec<bool>, p: int)
    requires
        flag_shrunk.ensures((sources, primaries), flags),
        primaries@.len() < 0xFFFF_FFFF,
        0 <= p < primaries@.len(),
    ensures
        flags@.len() == primaries@.len(),
        flags@[p] <==> count_of(sources@, p) < primaries@[p],
{
    law_size_counts_rows(sources@, p);
}

/// Rows from 0 on, `step` apart, up to the last such one below `n`.
pub open spec fn evenly(rows: Seq<usize>, n: int, step: int) -> bool {
    &&& step >= 1
    &&& forall|i: int| 0 <= i < rows.len() ==> #[trigger] rows[i] == i * step && rows[i] < n
    &&& rows.len() * step >= n
}

/// `want` is 64 rows for each centroid, but at least 65536, at most 524288, and
/// no more than there are.
pub open spec fn sample_wanted(n: int, k: int, want: int) -> bool {
    &&& 64 * k <= 65_536 ==> want == 65_536 || want == n
    &&& 65_536 <= 64 * k <= 524_288 ==> want == 64 * k || want == n
    &&& 524_288 <= 64 * k ==> want == 524_288 || want == n
    &&& want <= n
    &&& want == n ==> n <= 65_536 || n <= 64 * k
    &&& want <= 524_288
}

/// A sample takes rows at even steps from the first row to the last: the
/// greatest step that gives as many rows as are wanted or, where that would be
/// more than 524288, the least step that does not.
pub proof fn law_sample_is_spread_evenly(n: usize, k: usize, rows: Vec<usize>, want: int)
    requires
        clustering_sample.ensures((n, k), rows),
        n > 0,
        sample_wanted(n as int, k as int, want),
    ensures
        rows@.len() <= 524_288,
        n <= 65_536 ==> rows@.len() == n,
        exists|step: int| #[trigger]
            evenly(rows@, n as int, step) && {
                ||| rows@.len() >= want && want * step <= n < want * (step + 1)
                ||| 524_288 * (step - 1) < n <= 524_288 * step
            },
{
    let step = sample_step(n as int, k as int);
    let s = sample_size(n as int, k as int);
    assert(s == want);
    lemma_sample_step(n as int, k as int);
    assert(evenly(rows@, n as int, step));
    if step == wanted_step(n as int, k as int) {
        vstd::arithmetic::div_mod::lemma_fundamental_div_mod(n as int, want);
        assert(want * step <= n < want * (step + 1)) by (nonlinear_arith)
            requires
                n == want * step + n as int % want,
                0 <= n as int % want < want,
        ;
    } else {
        let cap = 524_288int;
        vstd::arithmetic::div_mod::lemma_fundamental_div_mod(n + cap - 1, cap);
        assert(step == (n + cap - 1) / cap);
    }
}

} // verus!
