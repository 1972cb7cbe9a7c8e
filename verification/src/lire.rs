//! Local maintenance of a clustering: which rows are re-checked after a
//! change, which of them move, and where boundary rows get further copies.
use vstd::prelude::*;
use crate::clustering::{Clustering, HOLDOUT_STRIDE};
use crate::compact::NO_PARTITION;
use crate::search::{least, nearest_first};
use crate::sort::sort_pairs;

verus! {

/// Most copies of one vector.
pub const MAX_ASSIGNMENT_COPIES: usize = 8;

/// The positions below `n` that are held out, or the others.
pub open spec fn holdout_positions(n: int, held: bool) -> Seq<int>
    decreases n,
{
    if n <= 0 {
        Seq::empty()
    } else if ((n - 1) % HOLDOUT_STRIDE as int == 0) == held {
        holdout_positions(n - 1, held).push(n - 1)
    } else {
        holdout_positions(n - 1, held)
    }
}

/// Positions equal a sequence of numbers.
pub open spec fn lists(v: Seq<usize>, s: Seq<int>) -> bool {
    v.len() == s.len() && forall|k: int| 0 <= k < v.len() ==> #[trigger] v[k] == s[k]
}

/// Splits sample positions into those to fit on and those held out.
pub fn split_sample(n: usize) -> (r: (Vec<usize>, Vec<usize>))
    ensures
        lists(r.0@, holdout_positions(n as int, false)),
        lists(r.1@, holdout_positions(n as int, true)),
{
    let mut fit: Vec<usize> = Vec::new();
    let mut held: Vec<usize> = Vec::new();
    let mut j: usize = 0;
    while j < n
        invariant
            j <= n,
            lists(fit@, holdout_positions(j as int, false)),
            lists(held@, holdout_positions(j as int, true)),
        decreases n - j,
    {
        if j % HOLDOUT_STRIDE == 0 {
            held.push(j);
        } else {
            fit.push(j);
        }
        j = j + 1;
    }
    (fit, held)
}

/// Ranked partitions other than `p`.
pub open spec fn others(ranked: Seq<(u64, u64)>, p: u64) -> Seq<u32>
    decreases ranked.len(),
{
    if ranked.len() == 0 {
        Seq::empty()
    } else if ranked.last().1 == p {
        others(ranked.drop_last(), p)
    } else {
        others(ranked.drop_last(), p).push(ranked.last().1 as u32)
    }
}

/// The `m` partitions nearest to `p`, nearest first, without `p`.
pub open spec fn neighbors_of(distances: Seq<u32>, p: u64, m: int) -> Seq<u32> {
    let all = others(nearest_first(distances), p);
    all.take(least(m, all.len() as int))
}

/// The `m` partitions nearest to `p`, nearest first, without `p`. `distances`
/// are the distances of all centroids from that of `p`.
pub fn nearest_others(distances: &Vec<u32>, p: u32, m: usize) -> (r: Vec<u32>)
    requires
        distances@.len() <= 0xFFFF_FFFF,
    ensures
        r@ == neighbors_of(distances@, p as u64, m as int),
{
    let mut pairs: Vec<(u64, u64)> = Vec::new();
    let mut c: usize = 0;
    while c < distances.len()
        invariant
            c <= distances.len(),
            pairs@ == crate::search::distance_pairs(distances@).take(c as int),
        decreases distances.len() - c,
    {
        pairs.push((distances[c] as u64, c as u64));
        c = c + 1;
        assert(pairs@ =~= crate::search::distance_pairs(distances@).take(c as int));
    }
    assert(pairs@ =~= crate::search::distance_pairs(distances@));
    let ranked: Vec<(u64, u64)> = sort_pairs(&pairs);
    let mut r: Vec<u32> = Vec::new();
    let mut i: usize = 0;
    assert(ranked@.take(0) =~= Seq::<(u64, u64)>::empty());
    while i < ranked.len()
        invariant
            i <= ranked.len(),
            r@ == others(ranked@.take(i as int), p as u64),
        decreases ranked.len() - i,
    {
        assert(ranked@.take(i + 1).drop_last() =~= ranked@.take(i as int));
        if ranked[i].1 != p as u64 {
            r.push(ranked[i].1 as u32);
        }
        i = i + 1;
    }
    assert(ranked@.take(i as int) =~= ranked@);
    if m < r.len() {
        r.truncate(m);
    } else {
        assert(r@.take(r@.len() as int) =~= r@);
    }
    r
}

/// The first `n` rows whose partition is flagged.
pub open spec fn flagged_rows(assignments: Seq<u32>, flags: Seq<bool>, n: int) -> Seq<int>
    decreases n,
{
    if n <= 0 {
        Seq::empty()
    } else if flags[assignments[n - 1] as int] {
        flagged_rows(assignments, flags, n - 1).push(n - 1)
    } else {
        flagged_rows(assignments, flags, n - 1)
    }
}

/// Whether a flagged partition list contains `p`.
pub open spec fn flags_union(flags: Seq<bool>, more: Seq<u32>) -> Seq<bool> {
    Seq::new(flags.len(), |p: int| flags[p] || more.contains(p as u32))
}

/// Flags every listed partition.
pub fn flag_all(flags: &mut Vec<bool>, more: &Vec<u32>)
    requires
        old(flags)@.len() <= 0xFFFF_FFFF,
        forall|k: int| 0 <= k < more@.len() ==> (#[trigger] more@[k]) < old(flags)@.len(),
    ensures
        final(flags)@ == flags_union(old(flags)@, more@),
{
    let ghost start = flags@;
    let mut k: usize = 0;
    assert(flags@ =~= flags_union(start, more@.take(0)));
    while k < more.len()
        invariant
            k <= more.len(),
            flags@.len() == start.len(),
            start.len() <= 0xFFFF_FFFF,
            forall|i: int| 0 <= i < more@.len() ==> (#[trigger] more@[i]) < start.len(),
            flags@ == flags_union(start, more@.take(k as int)),
        decreases more.len() - k,
    {
        assert(more@[k as int] < start.len());
        flags.set(more[k] as usize, true);
        proof {
            let a = more@.take(k as int);
            let b = more@.take(k + 1);
            assert forall|p: int| 0 <= p < start.len() implies #[trigger] flags_union(start, b)[p] == (
            flags_union(start, a)[p] || p == more@[k as int]) by {
                if a.contains(p as u32) {
                    let i = choose|i: int| 0 <= i < a.len() && a[i] == p as u32;
                    assert(b[i] == p as u32);
                }
                if p == more@[k as int] {
                    assert(b[k as int] == p as u32);
                }
                if b.contains(p as u32) {
                    let i = choose|i: int| 0 <= i < b.len() && b[i] == p as u32;
                    if i < k {
                        assert(a[i] == p as u32);
                    }
                }
            }
        }
        k = k + 1;
        assert(flags@ =~= flags_union(start, more@.take(k as int)));
    }
    assert(more@.take(k as int) =~= more@);
}

/// The rows of flagged partitions, in order.
pub fn rows_of_flagged(assignments: &Vec<u32>, flags: &Vec<bool>) -> (rows: Vec<usize>)
    requires
        forall|i: int| 0 <= i < assignments@.len() ==> (#[trigger] assignments@[i]) < flags@.len(),
    ensures
        lists(rows@, flagged_rows(assignments@, flags@, assignments@.len() as int)),
{
    let mut rows: Vec<usize> = Vec::new();
    let mut i: usize = 0;
    while i < assignments.len()
        invariant
            i <= assignments.len(),
            forall|k: int| 0 <= k < assignments@.len() ==> (#[trigger] assignments@[k]) < flags@.len(),
            lists(rows@, flagged_rows(assignments@, flags@, i as int)),
        decreases assignments.len() - i,
    {
        assert(assignments@[i as int] < flags@.len());
        if flags[assignments[i] as usize] {
            rows.push(i);
        }
        i = i + 1;
    }
    rows
}

/// Assignments and flags after the first `n` proposals: a row moves if its
/// proposal differs and is strictly closer, and both partitions are flagged.
pub open spec fn moved(
    assignments: Seq<u32>,
    flags: Seq<bool>,
    rows: Seq<usize>,
    proposed: Seq<u32>,
    closer: Seq<bool>,
    n: int,
) -> (Seq<u32>, Seq<bool>)
    decreases n,
{
    if n <= 0 {
        (assignments, flags)
    } else {
        let (a, f) = moved(assignments, flags, rows, proposed, closer, n - 1);
        let i = rows[n - 1] as int;
        let to = proposed[n - 1];
        if to != a[i] && closer[n - 1] {
            (a.update(i, to), f.update(a[i] as int, true).update(to as int, true))
        } else {
            (a, f)
        }
    }
}

impl Clustering {
    /// Moves the listed rows to their proposed partition where it differs and
    /// is strictly closer; flags every partition whose membership changed.
    pub fn apply_moves(
        &mut self,
        rows: &Vec<usize>,
        proposed: &Vec<u32>,
        closer: &Vec<bool>,
        changed: &mut Vec<bool>,
    )
        requires
            old(self).wf(),
            old(changed)@.len() == old(self).nlist,
            rows@.len() == proposed@.len(),
            rows@.len() == closer@.len(),
            forall|k: int| 0 <= k < rows@.len() ==> (#[trigger] rows@[k]) < old(self).assignments@.len(),
            forall|k: int| 0 <= k < proposed@.len() ==> (#[trigger] proposed@[k]) < old(self).nlist,
        ensures
            final(self).wf(),
            final(self).nlist == old(self).nlist,
            final(self).dim == old(self).dim,
            final(self).centroids@ == old(self).centroids@,
            (final(self).assignments@, final(changed)@) == moved(
                old(self).assignments@,
                old(changed)@,
                rows@,
                proposed@,
                closer@,
                rows@.len() as int,
            ),
    {
        let ghost a0 = self.assignments@;
        let ghost f0 = changed@;
        let mut k: usize = 0;
        while k < rows.len()
            invariant
                k <= rows.len(),
                self.wf(),
                self.nlist == old(self).nlist,
                self.dim == old(self).dim,
                self.centroids@ == old(self).centroids@,
                self.assignments@.len() == a0.len(),
                changed@.len() == self.nlist,
                rows@.len() == proposed@.len(),
                rows@.len() == closer@.len(),
                forall|j: int| 0 <= j < rows@.len() ==> (#[trigger] rows@[j]) < a0.len(),
                forall|j: int| 0 <= j < proposed@.len() ==> (#[trigger] proposed@[j]) < self.nlist,
                (self.assignments@, changed@) == moved(a0, f0, rows@, proposed@, closer@, k as int),
            decreases rows.len() - k,
        {
            let i: usize = rows[k];
            let to: u32 = proposed[k];
            assert(rows@[k as int] < a0.len() && proposed@[k as int] < self.nlist);
            let from: u32 = self.assignments[i];
            assert(self.assignments@[i as int] < self.nlist);
            if to != from && closer[k] {
                self.assignments.set(i, to);
                changed.set(from as usize, true);
                changed.set(to as usize, true);
            }
            k = k + 1;
        }
    }

    /// A clustering that keeps the partition each row came from and puts the
    /// other rows where `chosen` says.
    pub fn from_sources(dim: usize, nlist: usize, centroids: Vec<u32>, sources: &Vec<u32>, chosen: &Vec<u32>) -> (c:
        Clustering)
        requires
            1 <= dim,
            1 <= nlist < 0xFFFF_FFFF,
            centroids@.len() == nlist * dim,
            forall|i: int|
                0 <= i < sources@.len() ==> (#[trigger] sources@[i]) < nlist || sources@[i] == NO_PARTITION,
            chosen@.len() == crate::clustering::members_of(
                sources@,
                NO_PARTITION as int,
                sources@.len() as int,
            ).len(),
            forall|k: int| 0 <= k < chosen@.len() ==> (#[trigger] chosen@[k]) < nlist,
        ensures
            c.wf(),
            c.dim == dim,
            c.nlist == nlist,
            c.centroids@ == centroids@,
            c.assignments@ == crate::clustering::after_dissolve(
                sources@,
                NO_PARTITION as int,
                NO_PARTITION as int,
                chosen@,
            ),
    {
        let ghost p = NO_PARTITION as int;
        let n: usize = sources.len();
        let mut assignments: Vec<u32> = Vec::new();
        let mut k: usize = 0;
        let mut i: usize = 0;
        while i < n
            invariant
                i <= n,
                n == sources@.len(),
                p == NO_PARTITION,
                k <= i,
                k == crate::clustering::members_of(sources@, p, i as int).len(),
                chosen@.len() == crate::clustering::members_of(sources@, p, n as int).len(),
                assignments@ == crate::clustering::after_dissolve(sources@, p, p, chosen@).take(i as int),
            decreases n - i,
        {
            proof {
                crate::clustering::lemma_place_bound(sources@, p, i as int, n as int);
            }
            if sources[i] == NO_PARTITION {
                assignments.push(chosen[k]);
                k = k + 1;
            } else {
                assignments.push(sources[i]);
            }
            i = i + 1;
            assert(assignments@ =~= crate::clustering::after_dissolve(sources@, p, p, chosen@).take(i as int));
        }
        assert(assignments@ =~= crate::clustering::after_dissolve(sources@, p, p, chosen@));
        proof {
            assert forall|j: int| 0 <= j < assignments@.len() implies (#[trigger] assignments@[j]) < nlist by {
                crate::clustering::lemma_place_bound(sources@, p, j, n as int);
                assert(sources@[j] < nlist || sources@[j] == NO_PARTITION);
            }
        }
        Clustering { dim, nlist, centroids, assignments }
    }
}

/// Whether partition `p` lost rows: fewer rows survive than it had.
pub open spec fn shrunk(sources: Seq<u32>, primaries: Seq<usize>) -> Seq<bool> {
    Seq::new(primaries.len(), |p: int| crate::clustering::size_of(sources, p) < primaries[p])
}

/// Flags the partitions that lost rows since they were written.
pub fn flag_shrunk(sources: &Vec<u32>, primaries: &Vec<usize>) -> (flags: Vec<bool>)
    requires
        primaries@.len() < 0xFFFF_FFFF,
        forall|i: int|
            0 <= i < sources@.len() ==> (#[trigger] sources@[i]) < primaries@.len() || sources@[i]
                == NO_PARTITION,
    ensures
        flags@ == shrunk(sources@, primaries@),
{
    let mut flags: Vec<bool> = Vec::new();
    let counts: Vec<usize> = count_known(sources, primaries.len());
    let mut p: usize = 0;
    while p < primaries.len()
        invariant
            p <= primaries.len(),
            counts@.len() == primaries@.len(),
            forall|q: int|
                0 <= q < primaries@.len() ==> #[trigger] counts@[q] == crate::clustering::size_of(sources@, q),
            flags@ == shrunk(sources@, primaries@).take(p as int),
        decreases primaries.len() - p,
    {
        flags.push(counts[p] < primaries[p]);
        p = p + 1;
        assert(flags@ =~= shrunk(sources@, primaries@).take(p as int));
    }
    assert(flags@ =~= shrunk(sources@, primaries@));
    flags
}

/// Rows that came from each partition; rows that came from none are skipped.
fn count_known(sources: &Vec<u32>, nlist: usize) -> (counts: Vec<usize>)
    requires
        nlist < 0xFFFF_FFFF,
        forall|i: int|
            0 <= i < sources@.len() ==> (#[trigger] sources@[i]) < nlist || sources@[i] == NO_PARTITION,
    ensures
        counts@.len() == nlist,
        forall|p: int| 0 <= p < nlist ==> #[trigger] counts@[p] == crate::clustering::size_of(sources@, p),
{
    let mut counts: Vec<usize> = Vec::new();
    let mut p: usize = 0;
    assert(sources@.take(0) =~= Seq::<u32>::empty());
    while p < nlist
        invariant
            p <= nlist,
            counts@.len() == p,
            forall|i: int| 0 <= i < p ==> #[trigger] counts@[i] == 0,
        decreases nlist - p,
    {
        counts.push(0);
        p = p + 1;
    }
    let mut i: usize = 0;
    while i < sources.len()
        invariant
            i <= sources.len(),
            nlist < 0xFFFF_FFFF,
            counts@.len() == nlist,
            forall|k: int|
                0 <= k < sources@.len() ==> (#[trigger] sources@[k]) < nlist || sources@[k] == NO_PARTITION,
            forall|q: int|
                0 <= q < nlist ==> #[trigger] counts@[q] == crate::clustering::size_of(
                    sources@.take(i as int),
                    q,
                ),
        decreases sources.len() - i,
    {
        let a: u32 = sources[i];
        proof {
            assert(sources@[i as int] < nlist || sources@[i as int] == NO_PARTITION);
            assert(sources@.take(i + 1).drop_last() =~= sources@.take(i as int));
            crate::clustering::lemma_size_bound(sources@.take(i as int), a as int);
        }
        if a != NO_PARTITION {
            let c: usize = counts[a as usize];
            counts.set(a as usize, c + 1);
        }
        i = i + 1;
    }
    assert(sources@.take(i as int) =~= sources@);
    counts
}

} // verus!
