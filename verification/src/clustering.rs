//! Decisions of incremental clustering: which partitions to split or
//! dissolve, who moves where, and which rows are sampled. Distances and
//! centroid arithmetic are the caller's; centroids are carried as bit patterns.
use vstd::prelude::*;
use crate::math::{ceil_div, lemma_flat_bound};

verus! {

/// Split a partition once it exceeds this many targets.
pub const SPLIT_FACTOR: usize = 2;

/// Dissolve a partition once it falls below this fraction of the target.
pub const MERGE_DIVISOR: usize = 4;

/// Fewest partitions that dissolving leaves.
pub const MIN_PARTITIONS: usize = 2;

/// Neighbours of a changed partition whose members are re-checked.
pub const NEIGHBOR_PARTITIONS: usize = 8;

/// Rows clustered at a time, and least sample size.
pub const CLUSTERING_CHUNK: usize = 65_536;

/// Sample rows per centroid.
pub const MIN_SAMPLES_PER_CENTROID: usize = 64;

/// Greatest sample.
pub const MAX_BOOTSTRAP_SAMPLE: usize = 524_288;

/// Every this many sample rows one is held out.
pub const HOLDOUT_STRIDE: usize = 4;

/// Rows that are assigned to partition `p`.
pub open spec fn size_of(assignments: Seq<u32>, p: int) -> int
    decreases assignments.len(),
{
    if assignments.len() == 0 {
        0
    } else {
        size_of(assignments.drop_last(), p) + (if assignments.last() == p {
            1int
        } else {
            0int
        })
    }
}

/// The rows of partition `p` among the first `n`, in order.
pub open spec fn members_of(assignments: Seq<u32>, p: int, n: int) -> Seq<int>
    decreases n,
{
    if n <= 0 {
        Seq::empty()
    } else if assignments[n - 1] == p {
        members_of(assignments, p, n - 1).push(n - 1)
    } else {
        members_of(assignments, p, n - 1)
    }
}

/// A partition is as large as its member list.
pub proof fn lemma_members(assignments: Seq<u32>, p: int, n: int)
    requires
        0 <= n <= assignments.len(),
    ensures
        members_of(assignments, p, n).len() == size_of(assignments.take(n), p),
        members_of(assignments, p, n).len() <= n,
        forall|k: int|
            0 <= k < members_of(assignments, p, n).len() ==> 0 <= #[trigger] members_of(
                assignments,
                p,
                n,
            )[k] < n && assignments[members_of(assignments, p, n)[k]] == p,
        forall|k: int, m: int|
            0 <= k < m < members_of(assignments, p, n).len() ==> #[trigger] members_of(assignments, p, n)[k]
                < #[trigger] members_of(assignments, p, n)[m],
        forall|i: int|
            0 <= i < n && assignments[i] == p ==> #[trigger] members_of(assignments, p, n).contains(i),
    decreases n,
{
    if n > 0 {
        lemma_members(assignments, p, n - 1);
        assert(assignments.take(n).drop_last() =~= assignments.take(n - 1));
        let a = members_of(assignments, p, n - 1);
        let b = members_of(assignments, p, n);
        assert forall|i: int| 0 <= i < n && assignments[i] == p implies #[trigger] b.contains(i) by {
            if i < n - 1 {
                assert(a.contains(i));
                let k = choose|k: int| 0 <= k < a.len() && a[k] == i;
                assert(b[k] == i);
            } else {
                assert(b[a.len() as int] == i);
            }
        }
    }
}

/// Rows assigned to partitions.
pub struct Clustering {
    pub dim: usize,
    pub nlist: usize,
    /// Bit patterns, `nlist * dim`.
    pub centroids: Vec<u32>,
    pub assignments: Vec<u32>,
}

impl Clustering {
    /// Every row is in a partition that exists.
    pub open spec fn wf(self) -> bool {
        &&& 1 <= self.dim
        &&& 1 <= self.nlist < 0xFFFF_FFFF
        &&& self.centroids@.len() == self.nlist * self.dim
        &&& forall|i: int| 0 <= i < self.assignments@.len() ==> (#[trigger] self.assignments@[i]) < self.nlist
    }

    /// Rows of partition `p`.
    pub open spec fn size(self, p: int) -> int {
        size_of(self.assignments@, p)
    }

    /// Rows of each partition.
    pub fn counts(&self) -> (counts: Vec<usize>)
        requires
            self.wf(),
        ensures
            counts@.len() == self.nlist,
            forall|p: int| 0 <= p < self.nlist ==> #[trigger] counts@[p] == self.size(p),
    {
        count_sizes(&self.assignments, self.nlist)
    }

    /// The rows of partition `p`, in order.
    pub fn members(&self, p: u32) -> (m: Vec<usize>)
        ensures
            m@.len() == members_of(self.assignments@, p as int, self.assignments@.len() as int).len(),
            forall|k: int|
                0 <= k < m@.len() ==> #[trigger] m@[k] == members_of(
                    self.assignments@,
                    p as int,
                    self.assignments@.len() as int,
                )[k],
    {
        let mut m: Vec<usize> = Vec::new();
        let mut i: usize = 0;
        while i < self.assignments.len()
            invariant
                i <= self.assignments.len(),
                m@.len() == members_of(self.assignments@, p as int, i as int).len(),
                forall|k: int|
                    0 <= k < m@.len() ==> #[trigger] m@[k] == members_of(
                        self.assignments@,
                        p as int,
                        i as int,
                    )[k],
            decreases self.assignments.len() - i,
        {
            if self.assignments[i] == p {
                m.push(i);
            }
            i = i + 1;
        }
        m
    }

    /// The first partition above twice the target.
    pub open spec fn first_oversized(self, target: int) -> Option<int> {
        first_above(self.assignments@, SPLIT_FACTOR * target, self.nlist as int)
    }

    /// The first partition above twice the target.
    pub fn oversized(&self, target: usize) -> (r: Option<usize>)
        requires
            self.wf(),
        ensures
            match r {
                Some(p) => self.first_oversized(target as int) == Some(p as int) && p < self.nlist,
                None => self.first_oversized(target as int) is None,
            },
    {
        let counts: Vec<usize> = self.counts();
        let mut p: usize = 0;
        while p < self.nlist
            invariant
                p <= self.nlist,
                counts@.len() == self.nlist,
                forall|i: int| 0 <= i < self.nlist ==> #[trigger] counts@[i] == self.size(i),
                first_above(self.assignments@, SPLIT_FACTOR * target, p as int) is None,
            decreases self.nlist - p,
        {
            if counts[p] as u128 > 2 * (target as u128) {
                proof {
                    lemma_first_above(self.assignments@, SPLIT_FACTOR * target, p + 1, self.nlist as int);
                }
                return Some(p);
            }
            p = p + 1;
        }
        None
    }

    /// The first partition below a quarter of the target, unless too few are
    /// left.
    pub open spec fn first_undersized(self, target: int) -> Option<int> {
        if self.nlist <= MIN_PARTITIONS {
            None
        } else {
            first_below(self.assignments@, target / MERGE_DIVISOR as int, self.nlist as int)
        }
    }

    /// The first partition below a quarter of the target, unless too few are
    /// left.
    pub fn undersized(&self, target: usize) -> (r: Option<usize>)
        requires
            self.wf(),
        ensures
            match r {
                Some(p) => self.first_undersized(target as int) == Some(p as int) && p < self.nlist
                    && self.nlist > MIN_PARTITIONS,
                None => self.first_undersized(target as int) is None,
            },
    {
        if self.nlist <= MIN_PARTITIONS {
            return None;
        }
        let least: usize = target / MERGE_DIVISOR;
        let counts: Vec<usize> = self.counts();
        let mut p: usize = 0;
        while p < self.nlist
            invariant
                p <= self.nlist,
                counts@.len() == self.nlist,
                least == target as int / 4,
                self.nlist > MIN_PARTITIONS,
                forall|i: int| 0 <= i < self.nlist ==> #[trigger] counts@[i] == self.size(i),
                first_below(self.assignments@, least as int, p as int) is None,
            decreases self.nlist - p,
        {
            if counts[p] < least {
                proof {
                    lemma_first_below(self.assignments@, least as int, p + 1, self.nlist as int);
                }
                return Some(p);
            }
            p = p + 1;
        }
        None
    }
}

/// The first of the first `n` partitions with more than `limit` rows.
pub open spec fn first_above(assignments: Seq<u32>, limit: int, n: int) -> Option<int>
    decreases n,
{
    if n <= 0 {
        None
    } else if first_above(assignments, limit, n - 1) is Some {
        first_above(assignments, limit, n - 1)
    } else if size_of(assignments, n - 1) > limit {
        Some(n - 1)
    } else {
        None
    }
}

/// The first of the first `n` partitions with fewer than `limit` rows.
pub open spec fn first_below(assignments: Seq<u32>, limit: int, n: int) -> Option<int>
    decreases n,
{
    if n <= 0 {
        None
    } else if first_below(assignments, limit, n - 1) is Some {
        first_below(assignments, limit, n - 1)
    } else if size_of(assignments, n - 1) < limit {
        Some(n - 1)
    } else {
        None
    }
}

proof fn lemma_first_above(assignments: Seq<u32>, limit: int, n: int, m: int)
    requires
        0 <= n <= m,
        first_above(assignments, limit, n) is Some,
    ensures
        first_above(assignments, limit, m) == first_above(assignments, limit, n),
    decreases m,
{
    if n < m {
        lemma_first_above(assignments, limit, n, m - 1);
    }
}

proof fn lemma_first_below(assignments: Seq<u32>, limit: int, n: int, m: int)
    requires
        0 <= n <= m,
        first_below(assignments, limit, n) is Some,
    ensures
        first_below(assignments, limit, m) == first_below(assignments, limit, n),
    decreases m,
{
    if n < m {
        lemma_first_below(assignments, limit, n, m - 1);
    }
}

/// A cluster is no larger than the number of rows.
pub proof fn lemma_size_bound(assignments: Seq<u32>, p: int)
    ensures
        0 <= size_of(assignments, p) <= assignments.len(),
    decreases assignments.len(),
{
    if assignments.len() > 0 {
        lemma_size_bound(assignments.drop_last(), p);
    }
}

/// Rows of each of `nlist` partitions.
pub fn count_sizes(assignments: &Vec<u32>, nlist: usize) -> (counts: Vec<usize>)
    requires
        forall|i: int| 0 <= i < assignments@.len() ==> (#[trigger] assignments@[i]) < nlist,
    ensures
        counts@.len() == nlist,
        forall|p: int| 0 <= p < nlist ==> #[trigger] counts@[p] == size_of(assignments@, p),
{
    let mut counts: Vec<usize> = Vec::new();
    let mut p: usize = 0;
    assert(assignments@.take(0) =~= Seq::<u32>::empty());
    while p < nlist
        invariant
            p <= nlist,
            counts@.len() == p,
            forall|i: int| 0 <= i < p ==> #[trigger] counts@[i] == 0,
        decreases nlist - p,
    {
        counts.push(0);
        p = p + 1;
    }
    let mut i: usize = 0;
    while i < assignments.len()
        invariant
            i <= assignments.len(),
            counts@.len() == nlist,
            forall|k: int| 0 <= k < assignments@.len() ==> (#[trigger] assignments@[k]) < nlist,
            forall|q: int|
                0 <= q < nlist ==> #[trigger] counts@[q] == size_of(assignments@.take(i as int), q),
        decreases assignments.len() - i,
    {
        let a: usize = assignments[i] as usize;
        proof {
            assert(assignments@[i as int] < nlist);
            assert(assignments@.take(i + 1).drop_last() =~= assignments@.take(i as int));
            lemma_size_bound(assignments@.take(i as int), a as int);
        }
        let c: usize = counts[a];
        counts.set(a, c + 1);
        i = i + 1;
    }
    assert(assignments@.take(i as int) =~= assignments@);
    counts
}

/// Ones among child labels.
pub open spec fn ones(child: Seq<u32>) -> int {
    size_of(child, 1)
}

/// A two-way split that leaves one side empty changes nothing.
pub open spec fn degenerate(child_centroids: int, child: Seq<u32>) -> bool {
    child_centroids < 2 || ones(child) == 0 || ones(child) == child.len()
}

/// The place of row `i` among the rows of its partition.
pub open spec fn place(assignments: Seq<u32>, p: int, i: int) -> int {
    members_of(assignments, p, i).len() as int
}

/// Assignments after partition `p` was split: members labelled 1 move to the
/// new partition `fresh`.
pub open spec fn after_split(assignments: Seq<u32>, p: int, fresh: int, child: Seq<u32>) -> Seq<u32> {
    Seq::new(
        assignments.len(),
        |i: int|
            if assignments[i] == p && child[place(assignments, p, i)] == 1 {
                fresh as u32
            } else {
                assignments[i]
            },
    )
}

/// Centroids after a split: the first child replaces the parent, the second
/// is appended.
pub open spec fn split_centroids(centroids: Seq<u32>, dim: int, p: int, children: Seq<u32>) -> Seq<u32> {
    Seq::new(
        centroids.len(),
        |q: int|
            if p * dim <= q < (p + 1) * dim {
                children[q - p * dim]
            } else {
                centroids[q]
            },
    ) + children.subrange(dim, 2 * dim)
}

/// Assignments after partition `p` was dissolved: its members go where
/// `chosen` says, and the last partition takes its number.
pub open spec fn after_dissolve(assignments: Seq<u32>, p: int, last: int, chosen: Seq<u32>) -> Seq<u32> {
    Seq::new(
        assignments.len(),
        |i: int|
            if assignments[i] == p {
                chosen[place(assignments, p, i)]
            } else if assignments[i] == last {
                p as u32
            } else {
                assignments[i]
            },
    )
}

/// Centroids without row `p`; the last row takes its place.
pub open spec fn dissolved_centroids(centroids: Seq<u32>, dim: int, p: int, last: int) -> Seq<u32> {
    Seq::new(
        (last * dim) as nat,
        |q: int|
            if p * dim <= q < (p + 1) * dim {
                centroids[last * dim + (q - p * dim)]
            } else {
                centroids[q]
            },
    )
}

impl Clustering {
    /// Splits partition `p` into two children; false and no change if the
    /// split is degenerate. `child` labels the members in order.
    pub fn split(&mut self, p: usize, child_centroids: &Vec<u32>, child: &Vec<u32>) -> (done: bool)
        requires
            old(self).wf(),
            old(self).nlist < 0xFFFF_FFFE,
            p < old(self).nlist,
            child@.len() == members_of(
                old(self).assignments@,
                p as int,
                old(self).assignments@.len() as int,
            ).len(),
            child_centroids@.len() == 2 * old(self).dim || child_centroids@.len() == old(self).dim,
        ensures
            final(self).wf(),
            final(self).dim == old(self).dim,
            done == !degenerate(child_centroids@.len() as int / old(self).dim as int, child@),
            !done ==> *final(self) == *old(self),
            done ==> {
                &&& final(self).nlist == old(self).nlist + 1
                &&& final(self).assignments@ == after_split(
                    old(self).assignments@,
                    p as int,
                    old(self).nlist as int,
                    child@,
                )
                &&& final(self).centroids@ == split_centroids(
                    old(self).centroids@,
                    old(self).dim as int,
                    p as int,
                    child_centroids@,
                )
            },
    {
        let one_count: usize = count_ones(child);
        proof {
            let d = self.dim as int;
            assert((2 * d) / d == 2 && d / d == 1) by (nonlinear_arith)
                requires
                    d >= 1,
            ;
        }
        if child_centroids.len() / self.dim < 2 || one_count == 0 || one_count == child.len() {
            return false;
        }
        let fresh: u32 = self.nlist as u32;
        let n: usize = self.assignments.len();
        let ghost before = self.assignments@;
        let mut next: Vec<u32> = Vec::new();
        let mut k: usize = 0;
        let mut i: usize = 0;
        while i < n
            invariant
                i <= n,
                n == self.assignments@.len(),
                before == self.assignments@,
                k <= i,
                k == members_of(before, p as int, i as int).len(),
                child@.len() == members_of(before, p as int, n as int).len(),
                fresh == self.nlist,
                next@ == after_split(before, p as int, fresh as int, child@).take(i as int),
            decreases n - i,
        {
            proof {
                lemma_place_bound(before, p as int, i as int, n as int);
            }
            let a: u32 = self.assignments[i];
            if a as usize == p {
                if child[k] == 1 {
                    next.push(fresh);
                } else {
                    next.push(a);
                }
                k = k + 1;
            } else {
                next.push(a);
            }
            i = i + 1;
            assert(next@ =~= after_split(before, p as int, fresh as int, child@).take(i as int));
        }
        assert(next@ =~= after_split(before, p as int, fresh as int, child@));
        let dim: usize = self.dim;
        let total: usize = self.centroids.len();
        proof {
            lemma_flat_bound(p as int, 0, self.nlist as int, dim as int);
            assert((self.nlist + 1) * dim == self.nlist * dim + dim) by (nonlinear_arith);
        }
        let ghost c0 = self.centroids@;
        let mut d: usize = 0;
        while d < dim
            invariant
                d <= dim,
                dim == self.dim,
                child_centroids@.len() == 2 * dim,
                total == c0.len(),
                p * dim + dim <= total,
                0 <= p * dim,
                self.centroids@.len() == total,
                forall|q: int|
                    0 <= q < total ==> self.centroids@[q] == (if p * dim <= q < p * dim + d {
                        child_centroids@[q - p * dim]
                    } else {
                        c0[q]
                    }),
                self.nlist == old(self).nlist,
                self.assignments == old(self).assignments,
                self.dim == old(self).dim,
            decreases dim - d,
        {
            self.centroids.set(p * dim + d, child_centroids[d]);
            d = d + 1;
        }
        let ghost c1 = self.centroids@;
        let both: usize = child_centroids.len();
        d = 0;
        while d < dim
            invariant
                d <= dim,
                dim == self.dim,
                both == 2 * dim,
                child_centroids@.len() == both,
                self.centroids@ == c1 + child_centroids@.subrange(dim as int, dim + d),
                self.nlist == old(self).nlist,
                self.assignments == old(self).assignments,
                self.dim == old(self).dim,
            decreases dim - d,
        {
            self.centroids.push(child_centroids[dim + d]);
            d = d + 1;
            assert(self.centroids@ =~= c1 + child_centroids@.subrange(dim as int, dim + d));
        }
        assert(self.centroids@ =~= split_centroids(c0, dim as int, p as int, child_centroids@));
        self.assignments = next;
        self.nlist = self.nlist + 1;
        true
    }

    /// The centroids that are left when partition `p` is dissolved.
    pub fn centroids_without(&self, p: usize) -> (out: Vec<u32>)
        requires
            self.wf(),
            p < self.nlist,
        ensures
            out@ == dissolved_centroids(self.centroids@, self.dim as int, p as int, self.nlist - 1),
            out@.len() == (self.nlist - 1) * self.dim,
    {
        let dim: usize = self.dim;
        let total: usize = self.centroids.len();
        let ghost last = self.nlist - 1;
        proof {
            lemma_flat_bound(p as int, 0, self.nlist as int, dim as int);
            lemma_flat_bound(last, 0, self.nlist as int, dim as int);
            assert(p * dim <= last * dim) by (nonlinear_arith)
                requires
                    p <= last,
                    0 <= dim,
            ;
        }
        let end: usize = (self.nlist - 1) * dim;
        let start: usize = p * dim;
        let mut out: Vec<u32> = Vec::new();
        let mut q: usize = 0;
        while q < end
            invariant
                q <= end,
                end == last * dim,
                last == self.nlist - 1,
                start == p * dim,
                start + dim <= total,
                end + dim <= total,
                total == self.centroids@.len(),
                out@ == dissolved_centroids(self.centroids@, dim as int, p as int, last).take(q as int),
            decreases end - q,
        {
            proof {
                assert((p + 1) * dim == p * dim + dim) by (nonlinear_arith);
            }
            if start <= q && q < start + dim {
                out.push(self.centroids[end + (q - start)]);
            } else {
                out.push(self.centroids[q]);
            }
            q = q + 1;
            assert(out@ =~= dissolved_centroids(self.centroids@, dim as int, p as int, last).take(q as int));
        }
        assert(out@ =~= dissolved_centroids(self.centroids@, dim as int, p as int, last));
        out
    }

    /// Dissolves partition `p`: its members, in order, go where `chosen` says
    /// (numbered after the removal).
    pub fn dissolve(&mut self, p: usize, chosen: &Vec<u32>)
        requires
            old(self).wf(),
            old(self).nlist >= 2,
            p < old(self).nlist,
            chosen@.len() == members_of(
                old(self).assignments@,
                p as int,
                old(self).assignments@.len() as int,
            ).len(),
            forall|k: int| 0 <= k < chosen@.len() ==> (#[trigger] chosen@[k]) < old(self).nlist - 1,
        ensures
            final(self).wf(),
            final(self).dim == old(self).dim,
            final(self).nlist == old(self).nlist - 1,
            final(self).assignments@ == after_dissolve(
                old(self).assignments@,
                p as int,
                old(self).nlist - 1,
                chosen@,
            ),
            final(self).centroids@ == dissolved_centroids(
                old(self).centroids@,
                old(self).dim as int,
                p as int,
                old(self).nlist - 1,
            ),
    {
        let centroids: Vec<u32> = self.centroids_without(p);
        let last: u32 = (self.nlist - 1) as u32;
        let n: usize = self.assignments.len();
        let ghost before = self.assignments@;
        let mut next: Vec<u32> = Vec::new();
        let mut k: usize = 0;
        let mut i: usize = 0;
        while i < n
            invariant
                i <= n,
                n == self.assignments@.len(),
                before == self.assignments@,
                p <= last,
                k <= i,
                k == members_of(before, p as int, i as int).len(),
                chosen@.len() == members_of(before, p as int, n as int).len(),
                next@ == after_dissolve(before, p as int, last as int, chosen@).take(i as int),
            decreases n - i,
        {
            proof {
                lemma_place_bound(before, p as int, i as int, n as int);
            }
            let a: u32 = self.assignments[i];
            if a as usize == p {
                next.push(chosen[k]);
                k = k + 1;
            } else if a == last {
                next.push(p as u32);
            } else {
                next.push(a);
            }
            i = i + 1;
            assert(next@ =~= after_dissolve(before, p as int, last as int, chosen@).take(i as int));
        }
        assert(next@ =~= after_dissolve(before, p as int, last as int, chosen@));
        proof {
            assert forall|j: int| 0 <= j < next@.len() implies (#[trigger] next@[j]) < self.nlist - 1 by {
                lemma_place_bound(before, p as int, j, n as int);
                assert(before[j] < self.nlist);
            }
        }
        self.assignments = next;
        self.centroids = centroids;
        self.nlist = self.nlist - 1;
    }

    /// Assigns each listed row.
    pub fn assign(&mut self, rows: &Vec<usize>, partitions: &Vec<u32>)
        requires
            old(self).wf(),
            rows@.len() == partitions@.len(),
            forall|k: int| 0 <= k < rows@.len() ==> (#[trigger] rows@[k]) < old(self).assignments@.len(),
            forall|k: int| 0 <= k < partitions@.len() ==> (#[trigger] partitions@[k]) < old(self).nlist,
        ensures
            final(self).wf(),
            final(self).dim == old(self).dim,
            final(self).nlist == old(self).nlist,
            final(self).centroids@ == old(self).centroids@,
            final(self).assignments@ == assigned(
                old(self).assignments@,
                rows@,
                partitions@,
                rows@.len() as int,
            ),
    {
        let ghost start = self.assignments@;
        let mut k: usize = 0;
        while k < rows.len()
            invariant
                k <= rows.len(),
                self.wf(),
                rows@.len() == partitions@.len(),
                forall|j: int| 0 <= j < rows@.len() ==> (#[trigger] rows@[j]) < start.len(),
                forall|j: int| 0 <= j < partitions@.len() ==> (#[trigger] partitions@[j]) < self.nlist,
                self.assignments@.len() == start.len(),
                self.assignments@ == assigned(start, rows@, partitions@, k as int),
                self.dim == old(self).dim,
                self.nlist == old(self).nlist,
                self.centroids@ == old(self).centroids@,
            decreases rows.len() - k,
        {
            assert(rows@[k as int] < start.len());
            assert(partitions@[k as int] < self.nlist);
            self.assignments.set(rows[k], partitions[k]);
            k = k + 1;
        }
    }
}

/// Assignments after the first `n` listed rows got their partition.
pub open spec fn assigned(assignments: Seq<u32>, rows: Seq<usize>, partitions: Seq<u32>, n: int) -> Seq<u32>
    decreases n,
{
    if n <= 0 {
        assignments
    } else {
        assigned(assignments, rows, partitions, n - 1).update(rows[n - 1] as int, partitions[n - 1])
    }
}

/// The rows that go to the second part of a split.
pub(crate) fn count_ones(child: &Vec<u32>) -> (c: usize)
    ensures
        c == ones(child@),
        c <= child@.len(),
{
    let mut c: usize = 0;
    let mut i: usize = 0;
    assert(child@.take(0) =~= Seq::<u32>::empty());
    while i < child.len()
        invariant
            i <= child.len(),
            c <= i,
            c == ones(child@.take(i as int)),
        decreases child.len() - i,
    {
        assert(child@.take(i + 1).drop_last() =~= child@.take(i as int));
        if child[i] == 1 {
            c = c + 1;
        }
        i = i + 1;
    }
    assert(child@.take(i as int) =~= child@);
    c
}

/// The place of a member is below the number of members.
pub proof fn lemma_place_bound(assignments: Seq<u32>, p: int, i: int, n: int)
    requires
        0 <= i < n <= assignments.len(),
    ensures
        members_of(assignments, p, i).len() <= members_of(assignments, p, n).len(),
        assignments[i] == p ==> place(assignments, p, i) < members_of(assignments, p, n).len(),
    decreases n,
{
    if i < n - 1 {
        lemma_place_bound(assignments, p, i, n - 1);
    }
}

/// The sizes of the two halves of a split add up to the size of the whole,
/// and both are smaller.
pub proof fn law_split_sizes(assignments: Seq<u32>, p: int, fresh: int, child: Seq<u32>)
    requires
        0 <= p < fresh <= 0xFFFF_FFFF,
        forall|i: int| 0 <= i < assignments.len() ==> (#[trigger] assignments[i]) < fresh,
        child.len() == members_of(assignments, p, assignments.len() as int).len(),
        !degenerate(2, child),
    ensures
        size_of(after_split(assignments, p, fresh, child), fresh) == ones(child),
        size_of(after_split(assignments, p, fresh, child), p) == size_of(assignments, p) - ones(child),
        0 < size_of(after_split(assignments, p, fresh, child), p) < size_of(assignments, p),
        0 < size_of(after_split(assignments, p, fresh, child), fresh) < size_of(assignments, p),
{
    let n = assignments.len() as int;
    lemma_split_sizes(assignments, p, fresh, child, n);
    lemma_members(assignments, p, n);
    assert(assignments.take(n) =~= assignments);
    assert(after_split(assignments, p, fresh, child).take(n) =~= after_split(assignments, p, fresh, child));
    assert(child.take(child.len() as int) =~= child);
    lemma_size_bound(child, 1);
}

proof fn lemma_split_sizes(assignments: Seq<u32>, p: int, fresh: int, child: Seq<u32>, n: int)
    requires
        0 <= p < fresh <= 0xFFFF_FFFF,
        0 <= n <= assignments.len(),
        forall|i: int| 0 <= i < assignments.len() ==> (#[trigger] assignments[i]) < fresh,
        child.len() == members_of(assignments, p, assignments.len() as int).len(),
    ensures
        members_of(assignments, p, n).len() <= child.len(),
        size_of(after_split(assignments, p, fresh, child).take(n), fresh) == ones(
            child.take(members_of(assignments, p, n).len() as int),
        ),
        size_of(after_split(assignments, p, fresh, child).take(n), p) == members_of(assignments, p, n).len()
            - ones(child.take(members_of(assignments, p, n).len() as int)),
    decreases n,
{
    let s = after_split(assignments, p, fresh, child);
    let total = assignments.len() as int;
    if n > 0 {
        lemma_split_sizes(assignments, p, fresh, child, n - 1);
        assert(s.take(n).drop_last() =~= s.take(n - 1));
        assert(assignments[n - 1] < fresh);
        lemma_place_bound(assignments, p, n - 1, total);
        let k = members_of(assignments, p, n - 1).len() as int;
        if assignments[n - 1] == p {
            assert(child.take(k + 1).drop_last() =~= child.take(k));
        }
    } else {
        assert(s.take(0) =~= Seq::<u32>::empty());
        assert(child.take(0) =~= Seq::<u32>::empty());
    }
}

/// How many of `n` rows `k` centroids need at least: 64 per centroid, within
/// the least and greatest sample size, and no more than there are.
pub open spec fn sample_size(n: int, k: int) -> int {
    crate::search::least(
        crate::search::least(
            crate::search::most(MIN_SAMPLES_PER_CENTROID * k, CLUSTERING_CHUNK as int),
            MAX_BOOTSTRAP_SAMPLE as int,
        ),
        n,
    )
}

/// The greatest stride that gives as many rows as are needed.
pub open spec fn wanted_step(n: int, k: int) -> int {
    if n <= 0 {
        1
    } else {
        n / sample_size(n, k)
    }
}

/// The stride of the sample: a greater one only where the sample would exceed
/// [`MAX_BOOTSTRAP_SAMPLE`].
pub open spec fn sample_step(n: int, k: int) -> int {
    if ceil_div(n, wanted_step(n, k)) <= MAX_BOOTSTRAP_SAMPLE {
        wanted_step(n, k)
    } else {
        ceil_div(n, MAX_BOOTSTRAP_SAMPLE as int)
    }
}

/// The rows of the sample: all multiples of the stride.
pub open spec fn sample_rows(n: int, k: int) -> Seq<usize> {
    Seq::new(ceil_div(n, sample_step(n, k)) as nat, |i: int| (i * sample_step(n, k)) as usize)
}

/// How many multiples of `step` there are below `n`.
proof fn lemma_multiples(n: int, step: int, i: int)
    requires
        0 <= n,
        1 <= step,
    ensures
        0 <= ceil_div(n, step) <= n,
        0 <= i < ceil_div(n, step) <==> 0 <= i * step < n,
{
    let m = ceil_div(n, step);
    vstd::arithmetic::div_mod::lemma_fundamental_div_mod(n + step - 1, step);
    assert(n <= m * step <= n + step - 1) by (nonlinear_arith)
        requires
            n + step - 1 == step * m + (n + step - 1) % step,
            0 <= (n + step - 1) % step < step,
    ;
    assert(0 <= m <= n) by (nonlinear_arith)
        requires
            n <= m * step <= n + step - 1,
            0 <= n,
            1 <= step,
    ;
    if 0 <= i < m {
        assert(0 <= i * step <= (m - 1) * step) by (nonlinear_arith)
            requires
                0 <= i <= m - 1,
                1 <= step,
        ;
        assert((m - 1) * step == m * step - step) by (nonlinear_arith);
    }
    if 0 <= i * step < n {
        assert(0 <= i < m) by (nonlinear_arith)
            requires
                0 <= i * step < n,
                n <= m * step,
                1 <= step,
        ;
    }
}

/// The stride of a sample is one that fits.
pub proof fn lemma_sample_step(n: int, k: int)
    requires
        0 <= n,
        0 <= k,
    ensures
        1 <= wanted_step(n, k),
        1 <= sample_step(n, k),
        n > 0 ==> wanted_step(n, k) <= n && sample_step(n, k) <= n,
        ceil_div(n, sample_step(n, k)) <= MAX_BOOTSTRAP_SAMPLE,
        ceil_div(n, wanted_step(n, k)) >= sample_size(n, k),
        n <= CLUSTERING_CHUNK ==> sample_step(n, k) == 1,
{
    let w = sample_size(n, k);
    let cap = MAX_BOOTSTRAP_SAMPLE as int;
    if n > 0 {
        let step = n / w;
        vstd::arithmetic::div_mod::lemma_fundamental_div_mod(n, w);
        assert(1 <= step <= n && step * w <= n) by (nonlinear_arith)
            requires
                1 <= w <= n,
                n == w * step + n % w,
                0 <= n % w < w,
        ;
        lemma_multiples(n, step, w - 1);
        assert((w - 1) * step < n) by (nonlinear_arith)
            requires
                step * w <= n,
                1 <= step,
        ;
        assert(0 <= (w - 1) * step) by (nonlinear_arith)
            requires
                1 <= w,
                1 <= step,
        ;
        if n <= CLUSTERING_CHUNK {
            assert(w == n);
            assert(step == 1) by (nonlinear_arith)
                requires
                    1 <= step,
                    step * n <= n,
                    0 < n,
            ;
        }
        if ceil_div(n, step) > cap {
            let big = ceil_div(n, cap);
            vstd::arithmetic::div_mod::lemma_fundamental_div_mod(n + cap - 1, cap);
            assert(n <= cap * big);
            lemma_multiples(n, step, 0);
            lemma_multiples(n, big, cap);
            assert(cap * big == big * cap) by (nonlinear_arith);
        }
    }
}

/// The rows to cluster `k` centroids of `n` rows from, ascending: every one up
/// to the least sample size, and else evenly spread over all.
pub fn clustering_sample(n: usize, k: usize) -> (rows: Vec<usize>)
    ensures
        rows@ == sample_rows(n as int, k as int),
        rows@.len() <= MAX_BOOTSTRAP_SAMPLE,
        forall|i: int| 0 <= i < rows@.len() ==> (#[trigger] rows@[i]) < n,
        forall|i: int| 0 <= i < rows@.len() ==> #[trigger] rows@[i] == i * sample_step(n as int, k as int),
        rows@.len() * sample_step(n as int, k as int) >= n,
        sample_step(n as int, k as int) == wanted_step(n as int, k as int) ==> rows@.len() >= sample_size(
            n as int,
            k as int,
        ),
        n <= CLUSTERING_CHUNK ==> rows@.len() == n,
{
    proof {
        lemma_sample_step(n as int, k as int);
    }
    let per: u128 = 64 * (k as u128);
    let clamped: usize = if per < 65_536 {
        65_536
    } else if per > 524_288 {
        524_288
    } else {
        per as usize
    };
    let wanted: usize = if clamped < n {
        clamped
    } else {
        n
    };
    let base: usize = if n == 0 {
        1
    } else {
        n / wanted
    };
    let fits: bool = (n as u128 + (base as u128 - 1)) / (base as u128) <= 524_288;
    let step: usize = if fits {
        base
    } else {
        ((n as u128 + 524_287) / 524_288) as usize
    };
    assert(step == sample_step(n as int, k as int));
    let ghost m = ceil_div(n as int, step as int);
    proof {
        lemma_multiples(n as int, step as int, m);
    }
    let count: usize = ((n as u128 + (step as u128 - 1)) / (step as u128)) as usize;
    assert(count == m);
    let mut rows: Vec<usize> = Vec::new();
    let mut i: usize = 0;
    while i < count
        invariant
            1 <= step,
            step == sample_step(n as int, k as int),
            count == ceil_div(n as int, step as int),
            i <= count,
            rows@ =~= sample_rows(n as int, k as int).take(i as int),
            forall|j: int| 0 <= j < i ==> (#[trigger] rows@[j]) < n,
            forall|j: int| 0 <= j < i ==> #[trigger] rows@[j] == j * step,
        decreases count - i,
    {
        proof {
            lemma_multiples(n as int, step as int, i as int);
        }
        rows.push(i * step);
        i = i + 1;
    }
    proof {
        assert(m * step >= n) by {
            if m * step < n {
                assert(0 <= m * step) by (nonlinear_arith)
                    requires
                        0 <= m,
                        1 <= step,
                ;
            }
        }
        if step == 1 {
            vstd::arithmetic::div_mod::lemma_div_basics(n as int);
            assert(ceil_div(n as int, 1) == n);
        }
    }
    rows
}

} // verus!
