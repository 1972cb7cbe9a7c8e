//! What the counts of an index count, and what its tuning decides.
use vstd::prelude::*;
use crate::cluster_laws::rising;
use crate::compaction::chunk_sizes;
use crate::fresh::{chunks_before, live_before, rows_before, FreshIndex};
use crate::ingest::Routing;
use crate::partition::{bytes_upto, ChunkMeta, PartitionState};
use crate::pass_laws::{lemma_live_total, live_total};
use crate::reassign::Reassignment;
use crate::tier::{carry_from, sum_from};
use crate::tuning::{after_write, counted, MaintenanceStats, MaintenanceTuning, WriteReason};

verus! {

/// Rows of all partitions.
pub open spec fn row_total(parts: Seq<PartitionState>) -> int {
    parts.fold_left(0int, |sum: int, p: PartitionState| sum + p.n_rows)
}

/// Live rows of all partitions.
pub open spec fn live_row_total(parts: Seq<PartitionState>) -> int {
    parts.fold_left(0int, |sum: int, p: PartitionState| sum + p.live_rows)
}

/// Chunks of all partitions.
pub open spec fn chunk_total(parts: Seq<PartitionState>) -> int {
    parts.fold_left(0int, |sum: int, p: PartitionState| sum + p.chunks@.len())
}

proof fn lemma_totals(parts: Seq<PartitionState>, k: int)
    requires
        0 <= k <= parts.len(),
    ensures
        rows_before(parts, k) == row_total(parts.take(k)),
        live_before(parts, k) == live_row_total(parts.take(k)),
        chunks_before(parts, k) == chunk_total(parts.take(k)),
    decreases k,
{
    if k > 0 {
        lemma_totals(parts, k - 1);
        assert(parts.take(k).drop_last() =~= parts.take(k - 1));
    }
}

/// The length of an index is the live primaries of all partitions and the rows
/// of the memtable.
pub proof fn law_length_adds_up(x: &FreshIndex, n: usize)
    requires
        FreshIndex::len.ensures((x,), n),
    ensures
        n == live_total(x.partitions@) + x.memtable.ids@.len(),
{
    lemma_live_total(x.partitions@, x.partitions@.len() as int);
    assert(x.partitions@.take(x.partitions@.len() as int) =~= x.partitions@);
}

/// The other counts add up over all partitions.
pub proof fn law_counts_add_up(x: &FreshIndex, rows: usize, live: usize, dead: usize, replicas: usize, chunks: usize)
    requires
        FreshIndex::base_len.ensures((x,), rows),
        FreshIndex::live_len.ensures((x,), live),
        FreshIndex::dead_count.ensures((x,), dead),
        FreshIndex::replica_count.ensures((x,), replicas),
        FreshIndex::chunk_count.ensures((x,), chunks),
    ensures
        rows == row_total(x.partitions@),
        live == live_row_total(x.partitions@),
        dead == rows - live,
        replicas == live - live_total(x.partitions@),
        chunks == chunk_total(x.partitions@),
{
    let n = x.partitions@.len() as int;
    lemma_totals(x.partitions@, n);
    lemma_live_total(x.partitions@, n);
    assert(x.partitions@.take(n) =~= x.partitions@);
}

/// Upkeep is needed exactly if some partition has more than twice the target of
/// live primaries or, of more than two, less than a quarter of it.
pub proof fn law_sizes_call_for_upkeep(x: &FreshIndex, r: bool)
    requires
        FreshIndex::needs_maintenance.ensures((x,), r),
    ensures
        x.partition_target is None ==> !r,
        x.partition_target is Some ==> (r <==> exists|k: int|
            0 <= k < x.partitions@.len() && ((#[trigger] x.partitions@[k]).live_primary > 2 * x.partition_target->0 || (
            x.partitions@.len() > 2 && x.partitions@[k].live_primary < x.partition_target->0 / 4))),
{
    if x.partition_target is Some {
        let t = x.partition_target->0;
        if r {
            let k = choose|k: int|
                0 <= k < x.partitions@.len() && x.unbalanced(#[trigger] x.partitions@[k], t);
            assert(x.partitions@[k].live_primary > 2 * t || (x.partitions@.len() > 2 && x.partitions@[k].live_primary < t
                / 4));
        }
        if exists|k: int|
            0 <= k < x.partitions@.len() && ((#[trigger] x.partitions@[k]).live_primary > 2 * t || (x.partitions@.len()
                > 2 && x.partitions@[k].live_primary < t / 4)) {
            let k = choose|k: int|
                0 <= k < x.partitions@.len() && ((#[trigger] x.partitions@[k]).live_primary > 2 * t || (
                x.partitions@.len() > 2 && x.partitions@[k].live_primary < t / 4));
            assert(x.unbalanced(x.partitions@[k], t));
        }
    }
}

/// Rows go to the first partition where there is no choice, through groups of
/// centroids where that is tuned, there are 256 partitions at least and no
/// replicas, and else to the nearest centroid.
pub proof fn law_rows_are_routed(x: &FreshIndex, r: Routing)
    requires
        FreshIndex::routing.ensures((x,), r),
    ensures
        r == Routing::First <==> !x.clustered || x.partitions@.len() < 2,
        r == Routing::Coarse <==> {
            &&& x.clustered
            &&& x.partitions@.len() >= 256
            &&& x.tuning.hierarchical_assign
            &&& x.replica_epsilon is None
        },
{
}

/// The memtable is drained exactly if no rows are held back or enough are
/// there; a flush may rewrite as many partitions as the tuning says, or any
/// number; and a partition may have as many chunks as the tuning says or, where
/// chunks are merged, 24 if that is more.
pub proof fn law_tuning_decides(t: &MaintenanceTuning, staged: usize, drains: bool, budget: usize, ceiling: usize)
    requires
        MaintenanceTuning::drains.ensures((t, staged), drains),
        MaintenanceTuning::rewrite_budget.ensures((t,), budget),
        MaintenanceTuning::chunk_ceiling.ensures((t,), ceiling),
    ensures
        !drains <==> staged < t.staging_threshold,
        forall|n: int| #[trigger] t.drains_at(n) <==> t.staging_threshold <= n || t.staging_threshold == 0,
        t.max_rewrites_per_flush > 0 ==> budget == t.max_rewrites_per_flush,
        t.max_rewrites_per_flush == 0 ==> budget == usize::MAX,
        ceiling >= t.gc_max_chunks,
        !t.tier_merge_enabled ==> ceiling == t.gc_max_chunks,
        t.tier_merge_enabled ==> ceiling >= 24 && (ceiling == 24 || ceiling == t.gc_max_chunks),
{
}

/// The tuning of a new index: eight neighbours, four chunks, a quarter of dead
/// rows, half of unreferenced bytes, no rows held back, and no limits.
pub proof fn law_default_tuning(t: MaintenanceTuning)
    requires
        t == crate::tuning::default_tuning(),
    ensures
        t.reassign_neighbors == 8,
        t.gc_max_chunks == 4,
        t.gc_dead_ratio == 0x3FD0_0000_0000_0000u64,
        t.gc_garbage_ratio == 0x3FE0_0000_0000_0000u64,
        t.staging_threshold == 0,
        t.max_reassign_partitions == 0,
        t.max_rewrites_per_flush == 0,
        t.split_enabled && t.dissolve_enabled && t.reassign_enabled && t.rebootstrap_enabled,
        t.resplit_after_reassign && t.replica_prune && t.tier_merge_enabled,
        !t.balanced_split && !t.hierarchical_assign && !t.defer_maintenance,
{
}

/// Partition `k` is to be rewritten: too many dead rows, too many unreferenced
/// bytes, or too many chunks.
pub open spec fn due_for_rewrite(x: FreshIndex, over_dead: Seq<bool>, over_garbage: Seq<bool>, k: int) -> bool {
    ||| over_dead[k]
    ||| over_garbage[k]
    ||| x.partitions@[k].chunks@.len() > x.tuning.gc_max_chunks && (x.tuning.tier_merge_enabled
        ==> x.partitions@[k].chunks@.len() > 24)
}

proof fn lemma_victims(x: FreshIndex, over_dead: Seq<bool>, over_garbage: Seq<bool>, n: int)
    requires
        0 <= n <= x.partitions@.len(),
        x.partitions@.len() <= usize::MAX,
    ensures
        ({
            let v = x.victims_upto(over_dead, over_garbage, n);
            &&& rising(v)
            &&& forall|k: int|
                0 <= k < v.len() ==> #[trigger] v[k] < n && due_for_rewrite(x, over_dead, over_garbage, v[k] as int)
            &&& forall|k: usize|
                k < n && due_for_rewrite(x, over_dead, over_garbage, k as int) ==> #[trigger] v.contains(k)
        }),
    decreases n,
{
    if n > 0 {
        lemma_victims(x, over_dead, over_garbage, n - 1);
        let a = x.victims_upto(over_dead, over_garbage, n - 1);
        let v = x.victims_upto(over_dead, over_garbage, n);
        assert forall|k: usize| k < n && due_for_rewrite(x, over_dead, over_garbage, k as int) implies
            #[trigger] v.contains(k) by {
            if k < n - 1 {
                assert(a.contains(k));
                let j = choose|j: int| 0 <= j < a.len() && a[j] == k;
                assert(v[j] == k);
            } else {
                assert(v[a.len() as int] == k);
            }
        }
    }
}

/// A flush rewrites the partitions that are due, the first ones where the
/// tuning limits their number.
pub proof fn law_due_partitions_are_rewritten(x: &FreshIndex, over_dead: &[bool], over_garbage: &[bool], r: Vec<usize>)
    requires
        FreshIndex::garbage_victims.ensures((x, over_dead, over_garbage), r),
    ensures
        rising(r@),
        forall|k: int|
            0 <= k < r@.len() ==> #[trigger] r@[k] < x.partitions@.len() && due_for_rewrite(
                *x,
                over_dead@,
                over_garbage@,
                r@[k] as int,
            ),
        ({
            let cap = x.tuning.max_rewrites_per_flush;
            &&& cap > 0 ==> r@.len() <= cap
            &&& forall|k: usize|
                k < x.partitions@.len() && due_for_rewrite(*x, over_dead@, over_garbage@, k as int)
                    ==> #[trigger] r@.contains(k) || (cap > 0 && r@.len() == cap && r@.last() < k)
        }),
{
    let n = x.partitions@.len() as int;
    assert(x.partitions.len() == n);
    let v = x.victims_upto(over_dead@, over_garbage@, n);
    lemma_victims(*x, over_dead@, over_garbage@, n);
    let cap = x.tuning.max_rewrites_per_flush;
    assert forall|k: usize| k < n && due_for_rewrite(*x, over_dead@, over_garbage@, k as int) implies
        #[trigger] r@.contains(k) || (cap > 0 && r@.len() == cap && r@.last() < k) by {
        assert(v.contains(k));
        let j = choose|j: int| 0 <= j < v.len() && v[j] == k;
        if j < r@.len() {
            assert(r@[j] == k);
        } else {
            assert(v[cap - 1] < v[j]);
        }
    }
}

/// A merge takes in a piece exactly if all newer pieces together are at least
/// as large as it.
pub proof fn law_merges_carry(sizes: &Vec<u64>, r: usize)
    requires
        sizes@.len() > 0,
        carry_from.ensures((sizes,), r),
    ensures
        r < sizes@.len(),
        forall|j: int| r <= j < sizes@.len() - 1 ==> newer_sum(sizes@, j + 1) >= #[trigger] sizes@[j],
        r > 0 ==> newer_sum(sizes@, r as int) < sizes@[r - 1],
{
    lemma_carried(sizes@, r as int);
}

/// The sizes from `j` on, added up.
pub open spec fn newer_sum(sizes: Seq<u64>, j: int) -> int {
    sizes.skip(j).fold_right(|x: u64, sum: int| sum + x, 0int)
}

proof fn lemma_newer_sum(sizes: Seq<u64>, j: int)
    requires
        0 <= j <= sizes.len(),
    ensures
        sum_from(sizes, j) == newer_sum(sizes, j),
    decreases sizes.len() - j,
{
    let f = |x: u64, sum: int| sum + x;
    let s = sizes.skip(j);
    if j < sizes.len() {
        lemma_newer_sum(sizes, j + 1);
        s.lemma_fold_right_alt(f, 0int);
        sizes.skip(j + 1).lemma_fold_right_alt(f, 0int);
        assert(s.drop_first() =~= sizes.skip(j + 1));
        assert(s.first() == sizes[j]);
    }
}

/// Trailing chunks are merged exactly if that is tuned, there are two at least
/// and the newest is not smaller than the one in front of it; but not all of
/// them while most rows are dead.
pub proof fn law_chunks_are_merged(x: FreshIndex, position: usize, r: Option<usize>)
    requires
        position < x.partitions@.len(),
        match r {
            Some(from) => x.merges_from(position as int, from as int),
            None => forall|from: int| !#[trigger] x.merges_from(position as int, from),
        },
    ensures
        ({
            let p = x.partitions@[position as int];
            let n = p.chunks@.len() as int;
            &&& r is Some ==> {
                &&& x.tuning.tier_merge_enabled
                &&& r->0 < n - 1
                &&& forall|j: int|
                    r->0 <= j < n - 1 ==> newer_sum(chunk_sizes(p), j + 1) >= (#[trigger] p.chunks@[j]).n_rows
                &&& r->0 > 0 ==> newer_sum(chunk_sizes(p), r->0 as int) < p.chunks@[r->0 - 1].n_rows
                &&& r->0 == 0 ==> 2 * p.live_rows >= p.n_rows
            }
            &&& r is None && x.tuning.tier_merge_enabled && n >= 2 && 2 * p.live_rows >= p.n_rows ==> p.chunks@[n
                - 1].n_rows < p.chunks@[n - 2].n_rows
        }),
{
    let p = x.partitions@[position as int];
    let n = p.chunks@.len() as int;
    let sizes = chunk_sizes(p);
    if r is Some {
        lemma_carried(sizes, r->0 as int);
        assert forall|j: int| r->0 <= j < n - 1 implies newer_sum(sizes, j + 1) >= (#[trigger] p.chunks@[j]).n_rows by {
            assert(sizes[j] == p.chunks@[j].n_rows);
        }
    } else if x.tuning.tier_merge_enabled && n >= 2 && 2 * p.live_rows >= p.n_rows {
        if p.chunks@[n - 1].n_rows >= p.chunks@[n - 2].n_rows {
            lemma_newest_reaches(sizes);
            let from = choose|from: int| 0 <= from <= n - 2 && #[trigger] crate::tier::reaches(sizes, from);
            assert(x.merges_from(position as int, from));
        }
    }
}

proof fn lemma_newest_reaches(sizes: Seq<u64>)
    requires
        sizes.len() >= 2,
        sizes[sizes.len() - 1] >= sizes[sizes.len() - 2],
    ensures
        exists|from: int| 0 <= from <= sizes.len() - 2 && #[trigger] crate::tier::reaches(sizes, from),
{
    let n = sizes.len() as int;
    assert(sum_from(sizes, n) == 0);
    assert(sum_from(sizes, n - 1) == sizes[n - 1] + sum_from(sizes, n));
    lemma_reach(sizes, n - 2);
}

proof fn lemma_carried(sizes: Seq<u64>, from: int)
    requires
        crate::tier::reaches(sizes, from),
    ensures
        forall|j: int| from <= j < sizes.len() - 1 ==> newer_sum(sizes, j + 1) >= #[trigger] sizes[j],
        from > 0 ==> newer_sum(sizes, from) < sizes[from - 1],
{
    assert forall|j: int| from <= j < sizes.len() - 1 implies newer_sum(sizes, j + 1) >= #[trigger] sizes[j] by {
        lemma_newer_sum(sizes, j + 1);
        assert(sum_from(sizes, j + 1) >= sizes[j + 1 - 1]);
    }
    lemma_newer_sum(sizes, from);
}

/// Some place is reached.
pub proof fn lemma_reach(sizes: Seq<u64>, k: int)
    requires
        0 <= k < sizes.len(),
        forall|j: int| k < j < sizes.len() ==> #[trigger] sum_from(sizes, j) >= sizes[j - 1],
    ensures
        exists|from: int| 0 <= from <= k && #[trigger] crate::tier::reaches(sizes, from),
    decreases k,
{
    if k == 0 || sum_from(sizes, k) < sizes[k - 1] {
        assert(crate::tier::reaches(sizes, k));
    } else {
        lemma_reach(sizes, k - 1);
    }
}

/// Every written chunk counts under its reason alone: its rows and bytes are
/// added there, and one chunk; an import counts its bytes only.
pub proof fn law_writes_are_counted_by_reason(s: MaintenanceStats, reason: WriteReason, rows: u64, bytes: u64)
    ensures
        ({
            let t = after_write(s, reason, rows, bytes);
            let of = |r: WriteReason, n: u64| if reason == r {
                n as int
            } else {
                0
            };
            &&& t.bytes_ingest == counted(s.bytes_ingest, of(WriteReason::Ingest, bytes))
            &&& t.bytes_compact == counted(s.bytes_compact, of(WriteReason::Compact, bytes))
            &&& t.bytes_split == counted(s.bytes_split, of(WriteReason::Split, bytes))
            &&& t.bytes_replica == counted(s.bytes_replica, of(WriteReason::Replica, bytes))
            &&& t.bytes_import == counted(s.bytes_import, of(WriteReason::Import, bytes))
            &&& t.bytes_tier == counted(s.bytes_tier, of(WriteReason::TierMerge, bytes))
            &&& t.rows_ingest == counted(s.rows_ingest, of(WriteReason::Ingest, rows))
            &&& t.rows_compact == counted(s.rows_compact, of(WriteReason::Compact, rows))
            &&& t.rows_split == counted(s.rows_split, of(WriteReason::Split, rows))
            &&& t.rows_replica == counted(s.rows_replica, of(WriteReason::Replica, rows))
            &&& t.rows_tier == counted(s.rows_tier, of(WriteReason::TierMerge, rows))
            &&& t.chunks_ingest == counted(s.chunks_ingest, of(WriteReason::Ingest, 1))
            &&& t.chunks_compact == counted(s.chunks_compact, of(WriteReason::Compact, 1))
            &&& t.chunks_split == counted(s.chunks_split, of(WriteReason::Split, 1))
            &&& t.chunks_replica == counted(s.chunks_replica, of(WriteReason::Replica, 1))
            &&& t.chunks_tier == counted(s.chunks_tier, of(WriteReason::TierMerge, 1))
        }),
{
    reveal(after_write);
    assert forall|c: u64| #[trigger] counted(c, 0) == c by {}
    match reason {
        WriteReason::Ingest => {},
        WriteReason::Compact => {},
        WriteReason::Split => {},
        WriteReason::Replica => {},
        WriteReason::Import => {},
        WriteReason::TierMerge => {},
    }
}

/// A counter goes up by what is counted, as long as it does not wrap around.
pub proof fn law_counters_count(c: u64, n: int)
    requires
        0 <= n,
        c + n <= u64::MAX,
    ensures
        counted(c, n) == c + n,
{
}

/// The bytes of chunks that a table lists and those that nothing refers to make
/// up a segment file.
pub proof fn law_file_is_live_and_garbage(
    p: &PartitionState,
    bit_width: usize,
    dim: usize,
    has_vectors: bool,
    live: u64,
    garbage: u64,
)
    requires
        PartitionState::live_bytes.ensures((p, bit_width, dim, has_vectors), live),
        PartitionState::garbage_bytes.ensures((p, bit_width, dim, has_vectors), garbage),
    ensures
        live + garbage == p.file_bytes,
        live == p.chunks@.fold_left(
            0int,
            |sum: int, c: ChunkMeta|
                sum + crate::chunk::chunk_len(
                    crate::pack::groups(bit_width as int, dim as int),
                    crate::chunk::stored_width(dim as int, has_vectors),
                    c.n_rows as int,
                ),
        ),
{
    let ng = crate::pack::groups(bit_width as int, dim as int);
    let width = crate::chunk::stored_width(dim as int, has_vectors);
    let f = |sum: int, c: ChunkMeta|
        sum + crate::chunk::chunk_len(
            crate::pack::groups(bit_width as int, dim as int),
            crate::chunk::stored_width(dim as int, has_vectors),
            c.n_rows as int,
        );
    lemma_bytes(p.chunks@, ng, width, p.chunks@.len() as int, f);
    assert(p.chunks@.take(p.chunks@.len() as int) =~= p.chunks@);
}

proof fn lemma_bytes(chunks: Seq<ChunkMeta>, ng: int, width: int, k: int, f: spec_fn(int, ChunkMeta) -> int)
    requires
        0 <= k <= chunks.len(),
        forall|sum: int, c: ChunkMeta| #[trigger] f(sum, c) == sum + crate::chunk::chunk_len(ng, width, c.n_rows as int),
    ensures
        bytes_upto(chunks, ng, width, k) == chunks.take(k).fold_left(0int, f),
    decreases k,
{
    if k > 0 {
        lemma_bytes(chunks, ng, width, k - 1, f);
        assert(chunks.take(k).drop_last() =~= chunks.take(k - 1));
    }
}

/// The centroids to renew are those of the partitions that changed and of those
/// that a row left or entered.
pub proof fn law_renewed_centroids_lost_or_gained_rows(
    x: &FreshIndex,
    changed: &Vec<u32>,
    plans: &Vec<(usize, Reassignment)>,
    r: Vec<usize>,
    p: usize,
)
    requires
        FreshIndex::refreshed.ensures((x, changed, plans), r),
        x.partitions@.len() <= 0xFFFF_FFFF,
        p < x.partitions@.len(),
    ensures
        r@.contains(p) <==> changed@.contains(p as u32) || exists|j: int|
            0 <= j < plans@.len() && (#[trigger] plans@[j]).1.destinations@.len() > 0 && (plans@[j].0 == p
                || plans@[j].1.destinations@.contains(p as u32)),
{
    assert(r@.contains(p as int as usize) <==> crate::refresh::follows(changed@, plans@, p as int));
    if crate::refresh::touched(plans@, plans@.len() as int, p as int) {
        let j = choose|j: int| 0 <= j < plans@.len() && crate::refresh::touched_by(#[trigger] plans@[j], p as int);
        assert(plans@[j].1.destinations@.len() > 0);
    }
    if exists|j: int|
        0 <= j < plans@.len() && (#[trigger] plans@[j]).1.destinations@.len() > 0 && (plans@[j].0 == p
            || plans@[j].1.destinations@.contains(p as u32)) {
        let j = choose|j: int|
            0 <= j < plans@.len() && (#[trigger] plans@[j]).1.destinations@.len() > 0 && (plans@[j].0 == p
                || plans@[j].1.destinations@.contains(p as u32));
        assert(crate::refresh::touched_by(plans@[j], p as int));
    }
}

} // verus!
