//! The order of maintenance, evened-out splits, replica upkeep and the test of
//! the clustering.
use vstd::prelude::*;
use crate::batch::RowBatch;
use crate::chunk::{chunk_rows, layout_for, lemma_chunk_starts, push_chunk_row, ChunkLayout};
use crate::clustering::{size_of, MIN_PARTITIONS, SPLIT_FACTOR};
use crate::copies::{partition_position, place, CopyLocation};
use crate::fresh::{primaries_before, FreshIndex};
use crate::pack::{n_byte_groups, Layout};
use crate::partition::{
    lemma_rows_between_len, lemma_rows_between_split, lemma_rows_upto, rows_between, rows_upto, ChunkMeta,
    PartitionState,
};

verus! {

impl PartitionState {
    /// Reads one row.
    pub fn read_row(&self, flavor: Layout, file: &[u8], groups: usize, width: usize, row: u64) -> (r: Option<
        RowBatch,
    >)
        requires
            self.wf(),
            self.placed(groups as int, width as int),
            self.file_bytes <= file@.len(),
        ensures
            match r {
                Some(b) => {
                    &&& row < self.n_rows
                    &&& b.wf()
                    &&& b.groups == groups
                    &&& b.width == width
                    &&& b@ == seq![
                        self.rows(flavor, file@, groups as int, width as int)[row as int],
                    ]
                },
                None => row >= self.n_rows,
            },
    {
        let flen: usize = file.len();
        let ghost ng = groups as int;
        let ghost w = width as int;
        let ghost m = self.chunks@.len() as int;
        let mut base: u64 = 0;
        let mut k: usize = 0;
        while k < self.chunks.len()
            invariant
                self.wf(),
                self.placed(ng, w),
                self.file_bytes <= flen,
                flen == file@.len(),
                ng == groups,
                w == width,
                m == self.chunks@.len(),
                k <= m,
                base == rows_upto(self.chunks@, k as int),
                base <= row,
            decreases self.chunks.len() - k,
        {
            let meta: ChunkMeta = self.chunks[k];
            proof {
                lemma_rows_upto(self.chunks@, k + 1, m);
                assert(self.chunks@[k as int].offset % 64 == 0);
                self.lemma_limit(ng, w, k as int);
                lemma_chunk_starts(ng, w, meta.n_rows as int);
            }
            if row - base < meta.n_rows as u64 {
                let i: usize = (row - base) as usize;
                let n: usize = meta.n_rows as usize;
                let layout: ChunkLayout = layout_for(groups, width, n);
                let mut out: RowBatch = RowBatch::new(groups, width);
                push_chunk_row(flavor, file, meta.offset as usize, &layout, n, i, &mut out);
                proof {
                    let rows = self.rows(flavor, file@, ng, w);
                    let before = rows_between(flavor, file@, self.chunks@, ng, w, 0, k as int);
                    let here = chunk_rows(flavor, file@, meta.offset as int, ng, w, n as int);
                    let after = rows_between(flavor, file@, self.chunks@, ng, w, k + 1, m);
                    lemma_rows_between_split(flavor, file@, self.chunks@, ng, w, k + 1, m);
                    lemma_rows_between_len(flavor, file@, self.chunks@, ng, w, 0, k as int);
                    assert(rows_upto(self.chunks@, 0) == 0);
                    assert(rows == before + here + after);
                    assert(rows[row as int] == here[i as int]);
                    assert(out@ =~= seq![rows[row as int]]);
                }
                return Some(out);
            }
            base = base + meta.n_rows as u64;
            k = k + 1;
        }
        None
    }
}

impl FreshIndex {
    /// The row of a copy: codes, scale and stored vector.
    pub fn copy_row_data(&self, copy: CopyLocation, file: &[u8]) -> (r: Option<RowBatch>)
        requires
            self.wf(),
            place(self.partitions@, copy.partition_id) < self.partitions@.len() ==> self.partitions@[place(
                self.partitions@,
                copy.partition_id,
            )].file_bytes <= file@.len(),
        ensures
            ({
                let at = place(self.partitions@, copy.partition_id);
                match r {
                    Some(b) => {
                        &&& at < self.partitions@.len()
                        &&& copy.row < self.partitions@[at].n_rows
                        &&& b.wf()
                        &&& b.groups == self.ng()
                        &&& b.width == self.stored()
                        &&& b@ == seq![
                            self.partitions@[at].rows(
                                self.flavor,
                                file@,
                                self.ng(),
                                self.stored(),
                            )[copy.row as int],
                        ]
                    },
                    None => at == self.partitions@.len() || copy.row >= self.partitions@[at].n_rows,
                }
            }),
    {
        proof {
            crate::copies::lemma_place(self.partitions@, copy.partition_id, 0);
        }
        match partition_position(&self.partitions, copy.partition_id) {
            None => None,
            Some(p) => {
                let dim: usize = self.dim();
                let width: usize = if self.store_vectors {
                    dim
                } else {
                    0
                };
                let ng: usize = n_byte_groups(self.bit_width, dim);
                assert(self.partitions@[p as int].wf());
                self.partitions[p].read_row(self.flavor, file, ng, width, copy.row as u64)
            },
        }
    }

    /// The stored vector of a row in the memtable.
    pub fn memtable_vector(&self, id: u64) -> (r: Option<Vec<u32>>)
        requires
            self.wf(),
            self.store_vectors,
        ensures
            match r {
                Some(v) => exists|i: int|
                    0 <= i < self.memtable.ids@.len() && self.memtable.ids@[i] == id && v@
                        == #[trigger] crate::batch::row_of(
                        self.memtable.vectors@,
                        i,
                        self.memtable.width(),
                    ),
                None => !self.memtable.ids@.contains(id),
            },
    {
        match self.memtable.position(id) {
            None => None,
            Some(i) => {
                let dim: usize = self.dim();
                assert(self.memtable.vectors.len() == self.memtable.vectors@.len());
                proof {
                    crate::batch::lemma_row_bounds(
                        i as int,
                        self.memtable.ids@.len() as int,
                        dim as int,
                    );
                }
                let at: usize = i * dim;
                let mut v: Vec<u32> = Vec::new();
                v.extend_from_slice(
                    vstd::slice::slice_subrange(self.memtable.vectors.as_slice(), at, at + dim),
                );
                assert(v@ =~= crate::batch::row_of(self.memtable.vectors@, i as int, dim as int));
                Some(v)
            },
        }
    }
}

/// The first of `copies[k..]` that is a primary.
pub open spec fn primary_from(copies: Seq<CopyLocation>, k: int) -> Option<int>
    decreases copies.len() - k,
{
    if k >= copies.len() {
        None
    } else if !copies[k].is_replica {
        Some(k)
    } else {
        primary_from(copies, k + 1)
    }
}

/// The first copy that is a primary.
pub fn primary_copy(copies: &Vec<CopyLocation>) -> (r: Option<CopyLocation>)
    ensures
        match primary_from(copies@, 0) {
            Some(k) => 0 <= k < copies@.len() && r == Some(copies@[k]),
            None => r is None,
        },
{
    let mut k: usize = 0;
    while k < copies.len()
        invariant
            k <= copies@.len(),
            primary_from(copies@, 0) == primary_from(copies@, k as int),
        decreases copies.len() - k,
    {
        if !copies[k].is_replica {
            return Some(copies[k]);
        }
        k = k + 1;
    }
    None
}

impl FreshIndex {
    /// Some copy lies in the partition at `position`.
    pub open spec fn covered(self, copies: Seq<CopyLocation>, position: u32) -> bool {
        exists|c: int|
            0 <= c < copies.len() && place(
                self.partitions@,
                (#[trigger] copies[c]).partition_id,
            ) == position
    }

    /// The positions of a closure that no copy covers yet.
    pub open spec fn uncovered(self, copies: Seq<CopyLocation>, closure: Seq<u32>) -> Seq<u32>
        decreases closure.len(),
    {
        if closure.len() == 0 {
            Seq::empty()
        } else if self.covered(copies, closure.last()) {
            self.uncovered(copies, closure.drop_last())
        } else {
            self.uncovered(copies, closure.drop_last()).push(closure.last())
        }
    }

    /// The partitions of a row's closure that lack a copy of it.
    pub fn missing_replicas(&self, copies: &Vec<CopyLocation>, closure: &Vec<u32>) -> (r: Vec<u32>)
        requires
            forall|i: int| 0 <= i < closure@.len() ==> #[trigger] closure@[i] < self.partitions@.len(),
        ensures
            r@ == self.uncovered(copies@, closure@),
    {
        let mut r: Vec<u32> = Vec::new();
        let mut i: usize = 0;
        assert(closure@.take(0) =~= Seq::<u32>::empty());
        while i < closure.len()
            invariant
                forall|k: int|
                    0 <= k < closure@.len() ==> #[trigger] closure@[k] < self.partitions@.len(),
                i <= closure@.len(),
                r@ == self.uncovered(copies@, closure@.take(i as int)),
            decreases closure.len() - i,
        {
            assert(closure@.take(i + 1).drop_last() =~= closure@.take(i as int));
            assert(closure@[i as int] < self.partitions@.len());
            let target: u32 = closure[i];
            let mut found: bool = false;
            let mut c: usize = 0;
            while c < copies.len()
                invariant
                    c <= copies@.len(),
                    target < self.partitions@.len(),
                    found <==> exists|j: int|
                        0 <= j < c && place(
                            self.partitions@,
                            (#[trigger] copies@[j]).partition_id,
                        ) == target,
                decreases copies.len() - c,
            {
                let here: bool = match partition_position(&self.partitions, copies[c].partition_id) {
                    Some(p) => p == target as usize,
                    None => false,
                };
                assert(here == (place(self.partitions@, copies@[c as int].partition_id) == target));
                if here {
                    found = true;
                }
                c = c + 1;
            }
            if !found {
                r.push(target);
            }
            i = i + 1;
        }
        assert(closure@.take(i as int) =~= closure@);
        r
    }
}

/// How many rows move from the larger to the smaller side of a split with
/// these sizes; 0 if the larger is at most one and a half times the smaller,
/// or has no two rows.
pub open spec fn balance_moves(zeros: int, ones: int) -> int {
    let big = if zeros > ones {
        zeros
    } else {
        ones
    };
    let small = zeros + ones - big;
    if (small > 0 && 2 * big <= 3 * small) || big < 2 {
        0
    } else if (big - small) / 2 < 1 {
        1
    } else if (big - small) / 2 > big - 1 {
        big - 1
    } else {
        (big - small) / 2
    }
}

/// How many rows move from the larger to the smaller side of a split.
pub fn count_balance_moves(zeros: usize, ones: usize) -> (r: usize)
    ensures
        r == balance_moves(zeros as int, ones as int),
{
    let big: usize = if zeros > ones {
        zeros
    } else {
        ones
    };
    let small: usize = if zeros > ones {
        ones
    } else {
        zeros
    };
    if (small > 0 && 2 * (big as u128) <= 3 * (small as u128)) || big < 2 {
        return 0;
    }
    let half: usize = (big - small) / 2;
    if half < 1 {
        1
    } else if half > big - 1 {
        big - 1
    } else {
        half
    }
}

/// One round evens out a split as far as whole rows allow.
pub proof fn law_balance_evens_out(zeros: int, ones: int)
    requires
        0 <= zeros,
        0 <= ones,
        balance_moves(zeros, ones) > 0,
    ensures
        ({
            let m = balance_moves(zeros, ones);
            let (a, b) = if zeros > ones {
                (zeros - m, ones + m)
            } else {
                (zeros + m, ones - m)
            };
            &&& 0 <= a
            &&& 0 <= b
            &&& a + b == zeros + ones
            &&& -1 <= a - b <= 1
        }),
{
}

/// Children after the rows `ranked[..m]` went to `small`.
pub open spec fn evened(children: Seq<u32>, ranked: Seq<usize>, m: int, small: u32) -> Seq<u32>
    decreases m,
{
    if m <= 0 {
        children
    } else {
        evened(children, ranked, m - 1, small).update(ranked[m - 1] as int, small)
    }
}

/// One round of evening out a split: of the rows of the larger side, ranked
/// least committed first, as many as needed change sides. False if the split
/// is even enough already.
pub fn balance_round(children: &mut Vec<u32>, ranked: &Vec<usize>) -> (r: bool)
    requires
        forall|k: int| 0 <= k < ranked@.len() ==> #[trigger] ranked@[k] < old(children)@.len(),
        ({
            let ones = size_of(old(children)@, 1);
            let zeros = old(children)@.len() - ones;
            ranked@.len() == if zeros > ones {
                zeros
            } else {
                ones
            }
        }),
    ensures
        ({
            let ones = size_of(old(children)@, 1);
            let zeros = old(children)@.len() - ones;
            let m = balance_moves(zeros, ones);
            &&& r == (m > 0)
            &&& final(children)@ == evened(
                old(children)@,
                ranked@,
                m,
                if zeros > ones {
                    1u32
                } else {
                    0u32
                },
            )
        }),
{
    let n: usize = children.len();
    let ones: usize = crate::clustering::count_ones(children);
    let zeros: usize = n - ones;
    let m: usize = count_balance_moves(zeros, ones);
    let small: u32 = if zeros > ones {
        1
    } else {
        0
    };
    let ghost start = children@;
    let mut k: usize = 0;
    while k < m
        invariant
            k <= m,
            m <= ranked@.len(),
            children@.len() == n,
            n == start.len(),
            forall|j: int| 0 <= j < ranked@.len() ==> #[trigger] ranked@[j] < n,
            children@ == evened(start, ranked@, k as int, small),
        decreases m - k,
    {
        assert(ranked@[k as int] < n);
        children.set(ranked[k], small);
        k = k + 1;
    }
    m > 0
}

impl FreshIndex {
    /// Enough rows were added and removed to put the clustering to the test.
    pub open spec fn test_is_due(self) -> bool {
        let total = primaries_before(self.partitions@, self.partitions@.len() as int);
        self.tuning.rebootstrap_enabled && total > 0 && 4 * self.churn_since_check >= total
    }

    /// Whether the clustering is to be put to the test; if so, counting of
    /// changes starts over.
    pub fn rebootstrap_due(&mut self) -> (r: bool)
        ensures
            r == old(self).test_is_due(),
            r ==> *final(self) == (FreshIndex { churn_since_check: 0, ..*old(self) }),
            !r ==> *final(self) == *old(self),
    {
        if !self.tuning.rebootstrap_enabled {
            return false;
        }
        let total: u128 = self.total_primaries();
        if total == 0 || 4 * (self.churn_since_check as u128) < total {
            return false;
        }
        self.churn_since_check = 0;
        true
    }

    /// Live primaries of all partitions.
    pub fn total_primaries(&self) -> (r: u128)
        ensures
            r == primaries_before(self.partitions@, self.partitions@.len() as int),
    {
        let n: usize = self.partitions.len();
        let mut r: u128 = 0;
        let mut k: usize = 0;
        while k < n
            invariant
                n == self.partitions@.len(),
                k <= n,
                r == primaries_before(self.partitions@, k as int),
                r <= k * 0xFFFF_FFFF_FFFF_FFFF,
            decreases n - k,
        {
            assert(k * 0xFFFF_FFFF_FFFF_FFFF <= 0xFFFF_FFFF_FFFF_FFFF * 0xFFFF_FFFF_FFFF_FFFF)
                by (nonlinear_arith)
                requires
                    k <= 0xFFFF_FFFF_FFFF_FFFF,
            ;
            r = r + self.partitions[k].live_primary as u128;
            k = k + 1;
        }
        r
    }
}

/// Centroids with that of `position` replaced.
pub open spec fn with_centroid(all: Seq<u32>, position: int, centroid: Seq<u32>) -> Seq<u32> {
    let d = centroid.len();
    all.take(position * d) + centroid + all.skip((position + 1) * d)
}

impl FreshIndex {
    /// Replaces a partition's centroid, after its members have changed.
    pub fn set_centroid(&mut self, position: usize, centroid: &[u32])
        requires
            old(self).wf(),
            position < old(self).partitions@.len(),
            centroid@.len() == old(self).memtable.width(),
        ensures
            final(self).wf(),
            final(self).centroids@ == with_centroid(old(self).centroids@, position as int, centroid@),
            *final(self) == (FreshIndex {
                centroids: final(self).centroids,
                centroids_dirty: true,
                ..*old(self)
            }),
    {
        let d: usize = centroid.len();
        let total: usize = self.centroids.len();
        let ghost start = self.centroids@;
        let ghost n = self.partitions@.len() as int;
        proof {
            crate::batch::lemma_row_bounds(position as int, n, d as int);
            assert((position + 1) * d == position * d + d) by (nonlinear_arith);
        }
        let at: usize = position * d;
        let mut j: usize = 0;
        while j < d
            invariant
                j <= d,
                d == centroid@.len(),
                at == position * d,
                at + d <= total,
                total == start.len(),
                self.centroids@.len() == start.len(),
                forall|i: int|
                    0 <= i < start.len() ==> #[trigger] self.centroids@[i] == if at <= i < at + j {
                        centroid@[i - at]
                    } else {
                        start[i]
                    },
                *self == (FreshIndex { centroids: self.centroids, ..*old(self) }),
            decreases d - j,
        {
            self.centroids.set(at + j, centroid[j]);
            j = j + 1;
        }
        self.centroids_dirty = true;
        assert(self.centroids@ =~= with_centroid(start, position as int, centroid@));
    }
}

/// Partitions that a clustering of `total` rows has.
pub open spec fn partitions_for(total: int, target: int) -> int {
    if total / target < MIN_PARTITIONS {
        MIN_PARTITIONS as int
    } else {
        total / target
    }
}

/// Partitions that a clustering of `total` rows has.
pub fn partition_count(total: usize, target: u32) -> (r: usize)
    requires
        target > 0,
    ensures
        r == partitions_for(total as int, target as int),
{
    if (total as u64) / (target as u64) < MIN_PARTITIONS as u64 {
        MIN_PARTITIONS
    } else {
        (total as u64 / target as u64) as usize
    }
}

/// The members of `sample` in `base..base + n`, from `base` on.
pub open spec fn sampled_in(sample: Seq<usize>, base: int, n: int) -> Seq<int>
    decreases sample.len(),
{
    if sample.len() == 0 {
        Seq::empty()
    } else if base <= sample.last() < base + n {
        sampled_in(sample.drop_last(), base, n).push(sample.last() - base)
    } else {
        sampled_in(sample.drop_last(), base, n)
    }
}

/// Which rows of a partition, whose first row has number `base`, a sample
/// holds.
pub fn sampled_rows(sample: &Vec<usize>, base: usize, n: usize) -> (r: Vec<usize>)
    requires
        base + n <= usize::MAX,
    ensures
        crate::lire::lists(r@, sampled_in(sample@, base as int, n as int)),
{
    let mut r: Vec<usize> = Vec::new();
    let mut i: usize = 0;
    assert(sample@.take(0) =~= Seq::<usize>::empty());
    while i < sample.len()
        invariant
            base + n <= usize::MAX,
            i <= sample@.len(),
            crate::lire::lists(r@, sampled_in(sample@.take(i as int), base as int, n as int)),
        decreases sample.len() - i,
    {
        assert(sample@.take(i + 1).drop_last() =~= sample@.take(i as int));
        let s: usize = sample[i];
        if base <= s && s < base + n {
            r.push(s - base);
        }
        i = i + 1;
    }
    assert(sample@.take(i as int) =~= sample@);
    r
}

/// Where a maintenance pass stands.
#[derive(Clone, Copy, PartialEq, Eq, Debug, Structural)]
pub enum Stage {
    Start,
    Split,
    Dissolve,
    Reassign,
    Resplit,
    Replicas,
    Garbage,
    Test,
    Done,
}

/// What a maintenance pass does next.
#[derive(Clone, Copy, PartialEq, Eq, Debug, Structural)]
pub enum Action {
    /// Cluster the whole index.
    Bootstrap,
    /// Split the partition at this position.
    Split(usize),
    /// Dissolve the partition at this position.
    Dissolve(usize),
    /// Test the members of changed partitions again.
    Reassign,
    /// Complete the replicas of rows whose copies changed.
    RefreshReplicas,
    /// Merge chunks and rewrite partitions.
    CollectGarbage,
    /// Put the clustering to the test.
    Test,
    /// Nothing is left to do.
    Stop,
}

/// A maintenance pass.
pub struct Pass {
    pub stage: Stage,
    /// Splits that are still allowed in this stage.
    pub budget: usize,
}

/// The first partition from `k` on with more than `limit` live primaries, or
/// their number.
pub open spec fn over_from(parts: Seq<PartitionState>, limit: int, k: int) -> int
    decreases parts.len() - k,
{
    if k >= parts.len() {
        parts.len() as int
    } else if parts[k].live_primary > limit {
        k
    } else {
        over_from(parts, limit, k + 1)
    }
}

/// The first partition from `k` on with fewer than `limit` live primaries, or
/// their number.
pub open spec fn under_from(parts: Seq<PartitionState>, limit: int, k: int) -> int
    decreases parts.len() - k,
{
    if k >= parts.len() {
        parts.len() as int
    } else if parts[k].live_primary < limit {
        k
    } else {
        under_from(parts, limit, k + 1)
    }
}

proof fn lemma_over(parts: Seq<PartitionState>, limit: int, k: int, p: int)
    requires
        0 <= k <= p <= parts.len(),
        p < parts.len() ==> parts[p].live_primary > limit,
        forall|j: int| k <= j < p ==> (#[trigger] parts[j]).live_primary <= limit,
    ensures
        over_from(parts, limit, k) == p,
    decreases p - k,
{
    if k < p {
        assert(parts[k].live_primary <= limit);
        lemma_over(parts, limit, k + 1, p);
    }
}

proof fn lemma_under(parts: Seq<PartitionState>, limit: int, k: int, p: int)
    requires
        0 <= k <= p <= parts.len(),
        p < parts.len() ==> parts[p].live_primary < limit,
        forall|j: int| k <= j < p ==> (#[trigger] parts[j]).live_primary >= limit,
    ensures
        under_from(parts, limit, k) == p,
    decreases p - k,
{
    if k < p {
        assert(parts[k].live_primary >= limit);
        lemma_under(parts, limit, k + 1, p);
    }
}

/// The index is large enough to be clustered.
pub open spec fn clusterable(x: FreshIndex) -> bool {
    primaries_before(x.partitions@, x.partitions@.len() as int) >= MIN_PARTITIONS
        * x.partition_target->0
}

/// Splits that a stage may start with.
pub open spec fn full_budget(x: FreshIndex) -> usize {
    if x.tuning.max_rewrites_per_flush == 0 {
        usize::MAX
    } else {
        x.tuning.max_rewrites_per_flush
    }
}

/// The next action of a pass, and where it stands then: splits to the limit,
/// then dissolutions, reassignment around what changed, splits again,
/// replicas, garbage and the test of the clustering. An index without a target
/// size, or too small to be clustered, has its garbage collected only.
pub open spec fn next_step(p: Pass, x: FreshIndex, changed: bool, stale: bool) -> (Action, Pass)
    decreases 9 - rank_of(p.stage),
{
    let parts = x.partitions@;
    let over = over_from(parts, SPLIT_FACTOR * x.partition_target->0, 0);
    let under = under_from(parts, x.partition_target->0 as int / 4, 0);
    match p.stage {
        Stage::Done => (Action::Stop, p),
        _ => if x.partition_target is None {
            (Action::CollectGarbage, Pass { stage: Stage::Done, ..p })
        } else {
            match p.stage {
                Stage::Start => if x.clustered {
                    next_step(
                        Pass { stage: Stage::Split, budget: full_budget(x) },
                        x,
                        changed,
                        stale,
                    )
                } else if clusterable(x) {
                    (Action::Bootstrap, Pass { stage: Stage::Split, budget: full_budget(x) })
                } else {
                    (Action::CollectGarbage, Pass { stage: Stage::Done, budget: full_budget(x) })
                },
                Stage::Split => if x.tuning.split_enabled && p.budget > 0 && over < parts.len() {
                    (Action::Split(over as usize), Pass { budget: (p.budget - 1) as usize, ..p })
                } else {
                    next_step(Pass { stage: Stage::Dissolve, ..p }, x, changed, stale)
                },
                Stage::Dissolve => if x.tuning.dissolve_enabled && parts.len() > MIN_PARTITIONS && under
                    < parts.len() {
                    (Action::Dissolve(under as usize), p)
                } else {
                    next_step(Pass { stage: Stage::Reassign, ..p }, x, changed, stale)
                },
                Stage::Reassign => if x.tuning.reassign_enabled && changed {
                    (
                        Action::Reassign,
                        Pass {
                            stage: if x.tuning.resplit_after_reassign {
                                Stage::Resplit
                            } else {
                                Stage::Replicas
                            },
                            budget: full_budget(x),
                        },
                    )
                } else {
                    next_step(Pass { stage: Stage::Replicas, ..p }, x, changed, stale)
                },
                Stage::Resplit => if x.tuning.split_enabled && p.budget > 0 && over < parts.len() {
                    (Action::Split(over as usize), Pass { budget: (p.budget - 1) as usize, ..p })
                } else {
                    next_step(Pass { stage: Stage::Replicas, ..p }, x, changed, stale)
                },
                Stage::Replicas => if x.replica_epsilon is Some && stale {
                    (Action::RefreshReplicas, Pass { stage: Stage::Garbage, ..p })
                } else {
                    next_step(Pass { stage: Stage::Garbage, ..p }, x, changed, stale)
                },
                Stage::Garbage => (Action::CollectGarbage, Pass { stage: Stage::Test, ..p }),
                _ => (Action::Test, Pass { stage: Stage::Done, ..p }),
            }
        },
    }
}

impl Pass {
    /// A pass that is about to start.
    pub fn new() -> (p: Pass)
        ensures
            p.stage == Stage::Start,
            p.budget == 0,
    {
        Pass { stage: Stage::Start, budget: 0 }
    }

    /// The last split left one side empty: this stage is over.
    pub fn stop_splitting(&mut self)
        ensures
            final(self).budget == 0,
            final(self).stage == old(self).stage,
    {
        self.budget = 0;
    }

    fn next_split(&self, x: &FreshIndex, target: u32) -> (r: Option<usize>)
        requires
            x.partition_target == Some(target),
        ensures
            ({
                let over = over_from(x.partitions@, SPLIT_FACTOR * target, 0);
                match r {
                    Some(p) => x.tuning.split_enabled && self.budget > 0 && p == over && over
                        < x.partitions@.len(),
                    None => !(x.tuning.split_enabled && self.budget > 0 && over < x.partitions@.len()),
                }
            }),
    {
        let r: Option<usize> = x.first_oversized(target);
        proof {
            let at = match r {
                Some(p) => p as int,
                None => x.partitions@.len() as int,
            };
            lemma_over(x.partitions@, SPLIT_FACTOR * target, 0, at);
        }
        if x.tuning.split_enabled && self.budget > 0 {
            r
        } else {
            None
        }
    }

    fn next_dissolve(&self, x: &FreshIndex, target: u32) -> (r: Option<usize>)
        requires
            x.partition_target == Some(target),
        ensures
            ({
                let under = under_from(x.partitions@, target as int / 4, 0);
                let some = x.tuning.dissolve_enabled && x.partitions@.len() > MIN_PARTITIONS && under
                    < x.partitions@.len();
                match r {
                    Some(p) => some && p == under,
                    None => !some,
                }
            }),
    {
        if !x.tuning.dissolve_enabled || x.partitions.len() <= MIN_PARTITIONS {
            return None;
        }
        let r: Option<usize> = x.first_undersized(target);
        proof {
            let at = match r {
                Some(p) => p as int,
                None => x.partitions@.len() as int,
            };
            lemma_under(x.partitions@, target as int / 4, 0, at);
        }
        r
    }

    /// What comes next. `changed` is whether any partition changed in this
    /// pass, `stale` whether any row's copies did.
    pub fn next(&mut self, x: &FreshIndex, changed: bool, stale: bool) -> (a: Action)
        ensures
            (a, *final(self)) == next_step(*old(self), *x, changed, stale),
    {
        if self.stage == Stage::Done {
            return Action::Stop;
        }
        let target: u32 = match x.partition_target {
            Some(t) => t,
            None => {
                self.stage = Stage::Done;
                return Action::CollectGarbage;
            },
        };
        if self.stage == Stage::Start {
            self.budget = x.tuning.rewrite_budget();
            if !x.clustered {
                if x.total_primaries() < 2 * (target as u128) {
                    self.stage = Stage::Done;
                    return Action::CollectGarbage;
                }
                self.stage = Stage::Split;
                return Action::Bootstrap;
            }
            self.stage = Stage::Split;
        }
        assert(next_step(*old(self), *x, changed, stale) == next_step(*self, *x, changed, stale));
        if self.stage == Stage::Split {
            if let Some(p) = self.next_split(x, target) {
                self.budget = self.budget - 1;
                return Action::Split(p);
            }
            self.stage = Stage::Dissolve;
        }
        assert(next_step(*old(self), *x, changed, stale) == next_step(*self, *x, changed, stale));
        if self.stage == Stage::Dissolve {
            if let Some(p) = self.next_dissolve(x, target) {
                return Action::Dissolve(p);
            }
            self.stage = Stage::Reassign;
        }
        assert(next_step(*old(self), *x, changed, stale) == next_step(*self, *x, changed, stale));
        if self.stage == Stage::Reassign {
            if x.tuning.reassign_enabled && changed {
                self.budget = x.tuning.rewrite_budget();
                self.stage = if x.tuning.resplit_after_reassign {
                    Stage::Resplit
                } else {
                    Stage::Replicas
                };
                return Action::Reassign;
            }
            self.stage = Stage::Replicas;
        }
        assert(next_step(*old(self), *x, changed, stale) == next_step(*self, *x, changed, stale));
        if self.stage == Stage::Resplit {
            if let Some(p) = self.next_split(x, target) {
                self.budget = self.budget - 1;
                return Action::Split(p);
            }
            self.stage = Stage::Replicas;
        }
        assert(next_step(*old(self), *x, changed, stale) == next_step(*self, *x, changed, stale));
        if self.stage == Stage::Replicas {
            self.stage = Stage::Garbage;
            if x.replica_epsilon.is_some() && stale {
                return Action::RefreshReplicas;
            }
        }
        assert(next_step(*old(self), *x, changed, stale) == next_step(*self, *x, changed, stale));
        if self.stage == Stage::Garbage {
            self.stage = Stage::Test;
            return Action::CollectGarbage;
        }
        self.stage = Stage::Done;
        Action::Test
    }
}

/// The order of the stages.
pub open spec fn rank_of(s: Stage) -> int {
    match s {
        Stage::Start => 0,
        Stage::Split => 1,
        Stage::Dissolve => 2,
        Stage::Reassign => 3,
        Stage::Resplit => 4,
        Stage::Replicas => 5,
        Stage::Garbage => 6,
        Stage::Test => 7,
        Stage::Done => 8,
    }
}

/// A pass never goes back, and where it stays in a stage, its budget or the
/// number of partitions bounds how often.
pub proof fn law_pass_moves_on(p: Pass, x: FreshIndex, changed: bool, stale: bool)
    ensures
        ({
            let (a, q) = next_step(p, x, changed, stale);
            &&& rank_of(q.stage) >= rank_of(p.stage)
            &&& rank_of(q.stage) == rank_of(p.stage) ==> (a is Split && q.budget < p.budget) || (
            a is Dissolve && x.partitions@.len() > MIN_PARTITIONS) || a == Action::Stop
        }),
    decreases 9 - rank_of(p.stage),
{
    if x.partition_target is Some {
        match p.stage {
            Stage::Start => {
                law_pass_moves_on(
                    Pass { stage: Stage::Split, budget: full_budget(x) },
                    x,
                    changed,
                    stale,
                );
            },
            Stage::Split => {
                law_pass_moves_on(Pass { stage: Stage::Dissolve, ..p }, x, changed, stale);
            },
            Stage::Dissolve => {
                law_pass_moves_on(Pass { stage: Stage::Reassign, ..p }, x, changed, stale);
            },
            Stage::Reassign => {
                law_pass_moves_on(Pass { stage: Stage::Replicas, ..p }, x, changed, stale);
            },
            Stage::Resplit => {
                law_pass_moves_on(Pass { stage: Stage::Replicas, ..p }, x, changed, stale);
            },
            Stage::Replicas => {
                law_pass_moves_on(Pass { stage: Stage::Garbage, ..p }, x, changed, stale);
            },
            _ => {},
        }
    }
}

} // verus!
