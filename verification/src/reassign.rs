//! Moving rows to closer partitions, keeping replicas where they belong, and
//! evening out splits.
use vstd::prelude::*;
use crate::batch::{sent_to, shaped, Row, RowBatch};
use crate::bits::marked;
use crate::chunk::chunk_len;
use crate::copies::{partition_position, place};
use crate::flush::{has_room, ChunkWrite};
use crate::fresh::FreshIndex;
use crate::fresh_write::{counts_rows, marked_from};
use crate::ingest::{all_appended, entries_upto, stats_upto, writes_of};
use crate::lire::{flag_all, flags_union, nearest_others, neighbors_of};
use crate::partition::PartitionState;
use crate::partition_ops::lemma_marked_row_is_counted;
use crate::runs::RunEntry;
use crate::tuning::{count_on, counted, MaintenanceStats, WriteReason};

verus! {

/// Rows that move to another partition.
pub struct Reassignment {
    /// Rows that were tested.
    pub examined: u64,
    pub moved: RowBatch,
    /// Where each row goes.
    pub destinations: Vec<u32>,
    /// Where each row was.
    pub source_rows: Vec<u64>,
    pub ids: Vec<u64>,
}

/// The first `n` rows that move: those whose nearest partition is another
/// than `position`, and strictly closer.
pub open spec fn movers(best: Seq<u32>, closer: Seq<bool>, position: int, n: int) -> Seq<int>
    decreases n,
{
    if n <= 0 {
        Seq::empty()
    } else if best[n - 1] != position && closer[n - 1] {
        movers(best, closer, position, n - 1).push(n - 1)
    } else {
        movers(best, closer, position, n - 1)
    }
}

/// Movers are among the rows.
pub proof fn lemma_movers(best: Seq<u32>, closer: Seq<bool>, position: int, n: int)
    ensures
        forall|j: int|
            0 <= j < movers(best, closer, position, n).len() ==> 0 <= #[trigger] movers(
                best,
                closer,
                position,
                n,
            )[j] < n && best[movers(best, closer, position, n)[j]] != position && closer[movers(
                best,
                closer,
                position,
                n,
            )[j]],
    decreases n,
{
    if n > 0 {
        lemma_movers(best, closer, position, n - 1);
        let all = movers(best, closer, position, n);
        let init = movers(best, closer, position, n - 1);
        assert forall|j: int| 0 <= j < all.len() implies 0 <= #[trigger] all[j] < n && best[all[j]] != position
            && closer[all[j]] by {
            if j < init.len() {
                assert(all[j] == init[j]);
            }
        }
    }
}

/// The rows of a partition that move: `best` is each row's nearest partition,
/// and `closer` whether it is strictly closer than this one.
pub fn plan_moves(position: u32, live: &RowBatch, numbers: &Vec<u64>, best: &[u32], closer: &[bool]) -> (r:
    Reassignment)
    requires
        live.wf(),
        numbers@.len() == live@.len(),
        best@.len() == live@.len(),
        closer@.len() == live@.len(),
    ensures
        r.examined == live@.len(),
        r.moved.wf(),
        r.moved.groups == live.groups,
        r.moved.width == live.width,
        ({
            let at = movers(best@, closer@, position as int, live@.len() as int);
            &&& r.moved@ == Seq::new(at.len(), |j: int| Row { replica: false, ..live@[at[j]] })
            &&& r.destinations@ == Seq::new(at.len(), |j: int| best@[at[j]])
            &&& r.source_rows@ == Seq::new(at.len(), |j: int| numbers@[at[j]])
            &&& r.ids@ == Seq::new(at.len(), |j: int| live@[at[j]].id)
        }),
{
    let n: usize = live.len();
    let mut moved: RowBatch = RowBatch::new(live.groups, live.width);
    let mut destinations: Vec<u32> = Vec::new();
    let mut source_rows: Vec<u64> = Vec::new();
    let mut ids: Vec<u64> = Vec::new();
    let mut i: usize = 0;
    proof {
        let at = movers(best@, closer@, position as int, 0);
        assert(moved@ =~= Seq::new(at.len(), |j: int| Row { replica: false, ..live@[at[j]] }));
        assert(destinations@ =~= Seq::new(at.len(), |j: int| best@[at[j]]));
        assert(source_rows@ =~= Seq::new(at.len(), |j: int| numbers@[at[j]]));
        assert(ids@ =~= Seq::new(at.len(), |j: int| live@[at[j]].id));
    }
    while i < n
        invariant
            live.wf(),
            n == live@.len(),
            numbers@.len() == n,
            best@.len() == n,
            closer@.len() == n,
            i <= n,
            moved.wf(),
            moved.groups == live.groups,
            moved.width == live.width,
            ({
                let at = movers(best@, closer@, position as int, i as int);
                &&& moved@ == Seq::new(at.len(), |j: int| Row { replica: false, ..live@[at[j]] })
                &&& destinations@ == Seq::new(at.len(), |j: int| best@[at[j]])
                &&& source_rows@ == Seq::new(at.len(), |j: int| numbers@[at[j]])
                &&& ids@ == Seq::new(at.len(), |j: int| live@[at[j]].id)
            }),
        decreases n - i,
    {
        if best[i] != position && closer[i] {
            moved.push_from(live, i, false);
            destinations.push(best[i]);
            source_rows.push(numbers[i]);
            ids.push(live.ids[i]);
        }
        proof {
            let at = movers(best@, closer@, position as int, i + 1);
            assert(moved@ =~= Seq::new(at.len(), |j: int| Row { replica: false, ..live@[at[j]] }));
            assert(destinations@ =~= Seq::new(at.len(), |j: int| best@[at[j]]));
            assert(source_rows@ =~= Seq::new(at.len(), |j: int| numbers@[at[j]]));
            assert(ids@ =~= Seq::new(at.len(), |j: int| live@[at[j]].id));
        }
        i = i + 1;
    }
    Reassignment { examined: n as u64, moved, destinations, source_rows, ids }
}

/// `b` is `a` with `rows` marked dead.
pub open spec fn rows_marked(a: PartitionState, b: PartitionState, rows: Seq<u64>) -> bool {
    &&& marked_from(a, b)
    &&& forall|q: int|
        0 <= q ==> #[trigger] marked(b.dead@, q) == (marked(a.dead@, q) || (q <= u64::MAX && rows.contains(
            q as u64,
        )))
    &&& forall|held: Seq<Row>| #[trigger]
        counts_rows(a, held) && all_primary(a, held, rows) ==> counts_rows(b, held)
}

/// Those of `rows` that are alive are primaries.
pub open spec fn all_primary(p: PartitionState, held: Seq<Row>, rows: Seq<u64>) -> bool {
    forall|i: int|
        0 <= i < rows.len() && !marked(p.dead@, #[trigger] rows[i] as int) ==> !held[rows[i] as int].replica
}

/// `b` is `a` but for partition `position`, where `rows` are marked dead.
pub open spec fn one_marked(
    a: Seq<PartitionState>,
    b: Seq<PartitionState>,
    position: int,
    rows: Seq<u64>,
) -> bool {
    &&& b.len() == a.len()
    &&& forall|k: int| 0 <= k < a.len() && k != position ==> #[trigger] b[k] == a[k]
    &&& rows_marked(a[position], b[position], rows)
}

/// A row list with one more row.
proof fn lemma_push_contains(x: Seq<u64>, row: u64, q: int)
    requires
        0 <= q <= u64::MAX,
    ensures
        x.push(row).contains(q as u64) <==> x.contains(q as u64) || q == row,
{
    if x.contains(q as u64) {
        let j = choose|j: int| 0 <= j < x.len() && x[j] == q as u64;
        assert(x.push(row)[j] == q as u64);
    }
    assert(x.push(row)[x.len() as int] == row);
    if x.push(row).contains(q as u64) {
        let j = choose|j: int| 0 <= j < x.len() + 1 && x.push(row)[j] == q as u64;
        if j < x.len() {
            assert(x[j] == q as u64);
        }
    }
}

impl PartitionState {
    /// Marks rows, primaries all of them, dead.
    pub fn mark_rows(&mut self, rows: &Vec<u64>)
        requires
            old(self).wf(),
            forall|k: int| 0 <= k < rows@.len() ==> #[trigger] rows@[k] < old(self).n_rows,
        ensures
            final(self).wf(),
            rows_marked(*old(self), *final(self), rows@),
    {
        let ghost a = *self;
        let mut k: usize = 0;
        proof {
            assert(forall|q: u64| !rows@.take(0).contains(q));
        }
        while k < rows.len()
            invariant
                self.wf(),
                k <= rows@.len(),
                a == *old(self),
                forall|j: int| 0 <= j < rows@.len() ==> #[trigger] rows@[j] < a.n_rows,
                rows_marked(a, *self, rows@.take(k as int)),
            decreases rows.len() - k,
        {
            let row: u64 = rows[k];
            let ghost before = self.dead@;
            let ghost was = *self;
            assert(rows@[k as int] < a.n_rows);
            self.mark_dead(row, false);
            proof {
                let x = rows@.take(k as int);
                assert forall|held: Seq<Row>| #[trigger]
                    counts_rows(a, held) && all_primary(a, held, rows@.take(k + 1)) implies counts_rows(*self, held) by {
                    assert(rows@.take(k + 1)[k as int] == row);
                    assert forall|i: int| 0 <= i < x.len() && !marked(a.dead@, #[trigger] x[i] as int) implies !held[x[i] as int].replica by {
                        assert(rows@.take(k + 1)[i] == x[i]);
                    }
                    assert(all_primary(a, held, x));
                    assert(counts_rows(was, held));
                    assert(marked(before, row as int) == (marked(a.dead@, row as int) || x.contains(row)));
                    lemma_marked_row_is_counted(was, *self, held, row as int, false);
                }
                assert(rows@.take(k + 1) =~= x.push(row));
                assert forall|q: int| 0 <= q implies #[trigger] marked(self.dead@, q) == (marked(a.dead@, q) || (
                q <= u64::MAX && rows@.take(k + 1).contains(q as u64))) by {
                    assert(marked(self.dead@, q) == (q == row || marked(before, q)));
                    assert(marked(before, q) == (marked(a.dead@, q) || (q <= u64::MAX && x.contains(
                        q as u64,
                    ))));
                    if q <= u64::MAX {
                        lemma_push_contains(x, row, q);
                    }
                }
            }
            k = k + 1;
        }
        assert(rows@.take(k as int) =~= rows@);
    }
}

impl FreshIndex {
    /// Marks rows of one partition, primaries all of them, dead.
    fn mark_rows(&mut self, position: usize, rows: &Vec<u64>)
        requires
            old(self).wf(),
            position < old(self).partitions@.len(),
            forall|k: int|
                0 <= k < rows@.len() ==> #[trigger] rows@[k] < old(self).partitions@[position as int].n_rows,
        ensures
            final(self).wf(),
            one_marked(old(self).partitions@, final(self).partitions@, position as int, rows@),
            *final(self) == (FreshIndex { partitions: final(self).partitions, ..*old(self) }),
    {
        let ghost a = self.partitions@;
        assert(a[position as int].wf());
        self.partitions[position].mark_rows(rows);
        proof {
            lemma_marked_wf(*old(self), *self, a, self.partitions@, position as int);
        }
    }

    /// Moves rows: marks them dead where they were and appends them where
    /// they go.
    pub fn apply_reassignment(
        &mut self,
        position: usize,
        plan: &Reassignment,
        entries: &mut Vec<RunEntry>,
    ) -> (writes: Vec<ChunkWrite>)
        requires
            old(self).wf(),
            old(self).memtable.dim is Some,
            position < old(self).partitions@.len(),
            plan.moved.wf(),
            plan.moved.groups == old(self).ng(),
            plan.moved.width == old(self).stored(),
            plan.destinations@.len() == plan.moved@.len(),
            forall|i: int|
                0 <= i < plan.destinations@.len() ==> #[trigger] plan.destinations@[i] < old(
                    self,
                ).partitions@.len(),
            forall|k: int|
                0 <= k < plan.source_rows@.len() ==> #[trigger] plan.source_rows@[k] < old(
                    self,
                ).partitions@[position as int].n_rows,
            forall|k: int|
                0 <= k < old(self).partitions@.len() ==> has_room(
                    #[trigger] old(self).partitions@[k],
                    old(self).ng(),
                    old(self).stored(),
                    sent_to(plan.moved@, plan.destinations@, k).len() as int,
                ),
        ensures
            final(self).wf(),
            exists|mid: Seq<PartitionState>, batches: Seq<RowBatch>|
                #![trigger all_appended(
                    mid,
                    final(self).partitions@,
                    batches,
                    old(self).ng(),
                    old(self).stored(),
                )]
                {
                    &&& one_marked(old(self).partitions@, mid, position as int, plan.source_rows@)
                    &&& shaped(batches, plan.moved.groups, plan.moved.width)
                    &&& batches.len() == mid.len()
                    &&& forall|k: int|
                        0 <= k < batches.len() ==> (#[trigger] batches[k])@ == sent_to(
                            plan.moved@,
                            plan.destinations@,
                            k,
                        )
                    &&& all_appended(
                        mid,
                        final(self).partitions@,
                        batches,
                        old(self).ng(),
                        old(self).stored(),
                    )
                    &&& final(entries)@ == old(entries)@ + entries_upto(mid, batches, mid.len() as int)
                    &&& writes_of(writes@, old(self).flavor, mid, batches, mid.len() as int)
                    &&& final(self).stats == (MaintenanceStats {
                        reassign_rows_examined: counted(
                            old(self).stats.reassign_rows_examined,
                            plan.examined as int,
                        ),
                        reassign_rows_moved: counted(
                            old(self).stats.reassign_rows_moved,
                            plan.source_rows@.len() as int,
                        ),
                        ..stats_upto(
                            old(self).stats,
                            old(self).flavor,
                            WriteReason::Ingest,
                            batches,
                            mid.len() as int,
                        )
                    })
                },
            *final(self) == (FreshIndex {
                partitions: final(self).partitions,
                stats: final(self).stats,
                ..*old(self)
            }),
    {
        let examined: u64 = count_on(self.stats.reassign_rows_examined, plan.examined);
        let moved: u64 = count_on(self.stats.reassign_rows_moved, plan.source_rows.len() as u64);
        self.mark_rows(position, &plan.source_rows);
        let ghost mid = self.partitions@;
        proof {
            assert forall|k: int| 0 <= k < mid.len() implies has_room(
                #[trigger] mid[k],
                self.ng(),
                self.stored(),
                sent_to(plan.moved@, plan.destinations@, k).len() as int,
            ) by {
                assert(has_room(
                    old(self).partitions@[k],
                    self.ng(),
                    self.stored(),
                    sent_to(plan.moved@, plan.destinations@, k).len() as int,
                ));
                if k != position {
                    assert(mid[k] == old(self).partitions@[k]);
                }
            }
        }
        let writes: Vec<ChunkWrite> = self.append_batch_single(
            &plan.moved,
            plan.destinations.as_slice(),
            entries,
        );
        proof {
            let batches = choose|batches: Seq<RowBatch>|
                #![trigger shaped(batches, plan.moved.groups, plan.moved.width)]
                {
                    &&& shaped(batches, plan.moved.groups, plan.moved.width)
                    &&& batches.len() == mid.len()
                    &&& forall|k: int|
                        0 <= k < batches.len() ==> (#[trigger] batches[k])@ == sent_to(
                            plan.moved@,
                            plan.destinations@,
                            k,
                        )
                    &&& all_appended(mid, self.partitions@, batches, self.ng(), self.stored())
                    &&& entries@ == old(entries)@ + entries_upto(mid, batches, batches.len() as int)
                    &&& writes_of(writes@, self.flavor, mid, batches, batches.len() as int)
                    &&& self.stats == stats_upto(
                        old(self).stats,
                        self.flavor,
                        WriteReason::Ingest,
                        batches,
                        batches.len() as int,
                    )
                };
            assert(all_appended(mid, self.partitions@, batches, old(self).ng(), old(self).stored()));
        }
        self.stats.reassign_rows_examined = examined;
        self.stats.reassign_rows_moved = moved;
        writes
    }
}

/// Marking rows keeps an index in order.
proof fn lemma_marked_wf(
    start: FreshIndex,
    now: FreshIndex,
    a: Seq<PartitionState>,
    b: Seq<PartitionState>,
    p: int,
)
    requires
        start.wf(),
        start.partitions@ == a,
        now.partitions@ == b,
        now == (FreshIndex { partitions: now.partitions, ..start }),
        0 <= p < a.len(),
        b.len() == a.len(),
        forall|k: int| 0 <= k < a.len() && k != p ==> #[trigger] b[k] == a[k],
        marked_from(a[p], b[p]),
        b[p].wf(),
    ensures
        now.wf(),
{
    assert forall|k: int| 0 <= k < b.len() implies (#[trigger] b[k]).wf() && b[k].placed(
        start.ng(),
        start.stored(),
    ) by {
        assert(a[k].wf() && a[k].placed(start.ng(), start.stored()));
        if k == p {
            assert forall|j: int| 0 <= j < b[k].chunks@.len() implies {
                &&& (#[trigger] b[k].chunks@[j]).offset % 64 == 0
                &&& b[k].chunks@[j].offset + chunk_len(
                    start.ng(),
                    start.stored(),
                    b[k].chunks@[j].n_rows as int,
                ) <= b[k].limit(j)
            } by {
                assert(a[k].chunks@[j].offset % 64 == 0);
            }
        }
    }
    assert forall|k: int| 0 <= k < b.len() implies (#[trigger] b[k]).partition_id < now.next_partition_id by {
        assert(a[k].partition_id < now.next_partition_id);
    }
    assert forall|i: int, j: int| 0 <= i < j < b.len() implies (#[trigger] b[i]).partition_id != (
    #[trigger] b[j]).partition_id by {
        assert(a[i].partition_id != a[j].partition_id);
    }
}

/// The flagged positions before `n`, in order.
pub open spec fn flagged(flags: Seq<bool>, n: int) -> Seq<usize>
    decreases n,
{
    if n <= 0 {
        Seq::empty()
    } else if flags[n - 1] {
        flagged(flags, n - 1).push((n - 1) as usize)
    } else {
        flagged(flags, n - 1)
    }
}

/// Flags of the first `k` changed partitions and of their neighbours.
pub open spec fn pool_flags(changed: Seq<u32>, distances: Seq<Vec<u32>>, m: int, nlist: int, k: int) -> Seq<
    bool,
>
    decreases k,
{
    if k <= 0 {
        Seq::new(nlist as nat, |p: int| false)
    } else {
        flags_union(
            flags_union(pool_flags(changed, distances, m, nlist, k - 1), seq![changed[k - 1]]),
            neighbors_of(distances[k - 1]@, changed[k - 1] as u64, m),
        )
    }
}

/// There is a flag for each partition.
pub proof fn lemma_pool_len(changed: Seq<u32>, distances: Seq<Vec<u32>>, m: int, nlist: int, k: int)
    requires
        0 <= nlist,
    ensures
        pool_flags(changed, distances, m, nlist, k).len() == nlist,
    decreases k,
{
    if k > 0 {
        lemma_pool_len(changed, distances, m, nlist, k - 1);
    }
}

/// Neighbours are partitions.
proof fn lemma_neighbors_below(distances: Seq<u32>, p: u64, m: int)
    requires
        distances.len() <= 0xFFFF_FFFF,
        0 <= m,
    ensures
        forall|k: int|
            0 <= k < neighbors_of(distances, p, m).len() ==> (#[trigger] neighbors_of(distances, p, m)[k])
                < distances.len(),
{
    let ranked = crate::search::nearest_first(distances);
    let pairs = crate::search::distance_pairs(distances);
    crate::sort::lemma_sorted_pairs(pairs);
    crate::sort::lemma_same_elements(ranked, pairs);
    assert forall|i: int| 0 <= i < ranked.len() implies (#[trigger] ranked[i]).1 < distances.len() by {
        assert(ranked.contains(ranked[i]));
        assert(pairs.contains(ranked[i]));
    }
    lemma_others_below(ranked, p, distances.len() as int);
}

proof fn lemma_others_below(ranked: Seq<(u64, u64)>, p: u64, n: int)
    requires
        forall|i: int| 0 <= i < ranked.len() ==> (#[trigger] ranked[i]).1 < n,
        n <= 0xFFFF_FFFF,
    ensures
        forall|k: int|
            0 <= k < crate::lire::others(ranked, p).len() ==> (#[trigger] crate::lire::others(ranked, p)[k])
                < n,
    decreases ranked.len(),
{
    if ranked.len() > 0 {
        let init = ranked.drop_last();
        assert forall|i: int| 0 <= i < init.len() implies (#[trigger] init[i]).1 < n by {
            assert(init[i] == ranked[i]);
        }
        lemma_others_below(init, p, n);
        assert(ranked[ranked.len() - 1].1 < n);
        let all = crate::lire::others(ranked, p);
        let part = crate::lire::others(init, p);
        assert forall|k: int| 0 <= k < all.len() implies (#[trigger] all[k]) < n by {
            if k < part.len() {
                assert(all[k] == part[k]);
            }
        }
    }
}

/// Flags the changed partitions, of `n`, and the `m` nearest neighbours of
/// each. `distances` holds for each changed partition the distances of all
/// centroids from its own.
pub fn flag_pool(changed: &Vec<u32>, distances: &Vec<Vec<u32>>, m: usize, n: usize) -> (flags: Vec<bool>)
    requires
        n <= 0xFFFF_FFFF,
        distances@.len() == changed@.len(),
        forall|k: int| 0 <= k < changed@.len() ==> #[trigger] changed@[k] < n,
        forall|k: int| 0 <= k < distances@.len() ==> (#[trigger] distances@[k])@.len() == n,
    ensures
        flags@ == pool_flags(changed@, distances@, m as int, n as int, changed@.len() as int),
{
    let mut flags: Vec<bool> = Vec::new();
    let mut p: usize = 0;
    while p < n
        invariant
            p <= n,
            flags@ == Seq::new(p as nat, |i: int| false),
        decreases n - p,
    {
        flags.push(false);
        p = p + 1;
        assert(flags@ =~= Seq::new(p as nat, |i: int| false));
    }
    let mut k: usize = 0;
    while k < changed.len()
        invariant
            n <= 0xFFFF_FFFF,
            k <= changed@.len(),
            distances@.len() == changed@.len(),
            forall|i: int| 0 <= i < changed@.len() ==> #[trigger] changed@[i] < n,
            forall|i: int| 0 <= i < distances@.len() ==> (#[trigger] distances@[i])@.len() == n,
            flags@ == pool_flags(changed@, distances@, m as int, n as int, k as int),
            flags@.len() == n,
        decreases changed.len() - k,
    {
        assert(changed@[k as int] < n);
        assert(distances@[k as int]@.len() == n);
        let mut own: Vec<u32> = Vec::new();
        own.push(changed[k]);
        assert(own@ =~= seq![changed@[k as int]]);
        flag_all(&mut flags, &own);
        let near: Vec<u32> = nearest_others(&distances[k], changed[k], m);
        proof {
            lemma_neighbors_below(distances@[k as int]@, changed@[k as int] as u64, m as int);
        }
        flag_all(&mut flags, &near);
        k = k + 1;
    }
    flags
}

impl FreshIndex {
    /// The positions of those of `changed` that still exist, in order.
    pub open spec fn existing(self, changed: Seq<u32>) -> Seq<u32>
        decreases changed.len(),
    {
        if changed.len() == 0 {
            Seq::empty()
        } else {
            let p = place(self.partitions@, changed.last());
            if p < self.partitions@.len() {
                self.existing(changed.drop_last()).push(p as u32)
            } else {
                self.existing(changed.drop_last())
            }
        }
    }

    /// The positions of those of the changed partitions that still exist.
    pub fn changed_positions(&self, changed: &Vec<u32>) -> (r: Vec<u32>)
        requires
            self.partitions@.len() <= 0xFFFF_FFFF,
        ensures
            r@ == self.existing(changed@),
            forall|k: int| 0 <= k < r@.len() ==> #[trigger] r@[k] < self.partitions@.len(),
    {
        let mut r: Vec<u32> = Vec::new();
        let mut i: usize = 0;
        assert(changed@.take(0) =~= Seq::<u32>::empty());
        while i < changed.len()
            invariant
                self.partitions@.len() <= 0xFFFF_FFFF,
                i <= changed@.len(),
                r@ == self.existing(changed@.take(i as int)),
                forall|k: int| 0 <= k < r@.len() ==> #[trigger] r@[k] < self.partitions@.len(),
            decreases changed.len() - i,
        {
            assert(changed@.take(i + 1).drop_last() =~= changed@.take(i as int));
            match partition_position(&self.partitions, changed[i]) {
                Some(p) => {
                    r.push(p as u32);
                },
                None => {},
            }
            i = i + 1;
        }
        assert(changed@.take(i as int) =~= changed@);
        r
    }

    /// The partitions whose members are tested again: the changed ones and
    /// the nearest neighbours of each, in order, as far as the cap goes.
    /// `distances` holds for each changed partition the distances of all
    /// centroids from its own.
    pub fn reassign_pool(&mut self, changed: &Vec<u32>, distances: &Vec<Vec<u32>>) -> (r: Vec<usize>)
        requires
            old(self).partitions@.len() <= 0xFFFF_FFFF,
            distances@.len() == changed@.len(),
            forall|k: int|
                0 <= k < changed@.len() ==> #[trigger] changed@[k] < old(self).partitions@.len(),
            forall|k: int|
                0 <= k < distances@.len() ==> (#[trigger] distances@[k])@.len() == old(
                    self,
                ).partitions@.len(),
        ensures
            ({
                let n = old(self).partitions@.len() as int;
                let all = flagged(
                    pool_flags(
                        changed@,
                        distances@,
                        old(self).tuning.reassign_neighbors as int,
                        n,
                        changed@.len() as int,
                    ),
                    n,
                );
                let cap = old(self).tuning.max_reassign_partitions as int;
                r@ == if cap == 0 || all.len() <= cap {
                    all
                } else {
                    all.take(cap)
                }
            }),
            *final(self) == (FreshIndex {
                stats: MaintenanceStats {
                    reassign_passes: counted(old(self).stats.reassign_passes, 1),
                    reassign_partitions: counted(
                        old(self).stats.reassign_partitions,
                        r@.len() as int,
                    ),
                    ..old(self).stats
                },
                ..*old(self)
            }),
    {
        let n: usize = self.partitions.len();
        let m: usize = self.tuning.reassign_neighbors;
        let flags: Vec<bool> = flag_pool(changed, distances, m, n);
        proof {
            lemma_pool_len(changed@, distances@, m as int, n as int, changed@.len() as int);
        }
        let mut r: Vec<usize> = Vec::new();
        let mut i: usize = 0;
        while i < n
            invariant
                i <= n,
                n == flags@.len(),
                r@ == flagged(flags@, i as int),
            decreases n - i,
        {
            if flags[i] {
                r.push(i);
            }
            i = i + 1;
        }
        let cap: usize = self.tuning.max_reassign_partitions;
        if cap > 0 && r.len() > cap {
            r.truncate(cap);
        }
        self.stats.reassign_passes = count_on(self.stats.reassign_passes, 1);
        self.stats.reassign_partitions = count_on(self.stats.reassign_partitions, r.len() as u64);
        r
    }
}

} // verus!
