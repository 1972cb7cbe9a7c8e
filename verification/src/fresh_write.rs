//! Adding to and removing from an incrementally updated index.
use vstd::prelude::*;
use crate::batch::Row;
use crate::bits::marked;
use crate::copies::{
    copies_of, current, lemma_place, live_copies, newest_first, partition_position, place, surviving, tables,
    CopyLocation, Run,
};
use crate::copies_laws::{
    agreeing, has_copy, law_dead_row_is_not_found, law_lookup_finds_all_copies, lemma_surviving, one_more_dead,
};
use crate::delta::{
    first_taken, lemma_first_repeat_none, lemma_first_taken_none, lemma_first_taken_prefix, plane_row_bytes,
};
use crate::disk::{add_error, check_rows, lemma_concat_set, AddError};
use crate::fresh::{base_ids, FreshIndex};
use crate::partition::{live_primaries, PartitionState};
use crate::partition_ops::lemma_marked_row_is_counted;
use crate::runs::of_id;

verus! {

/// What a removal changed.
#[derive(Clone, Copy, PartialEq, Eq, Debug, Structural)]
pub enum Removed {
    /// The id was not live.
    No,
    /// A row of the memtable.
    Memtable,
    /// Rows of partitions.
    Partitions,
}

/// `b` is `a` with more in the memtable. Partitions that were made before there
/// was a dimensionality get centroids of zeros with the first rows.
pub open spec fn memtable_grown(a: FreshIndex, b: FreshIndex) -> bool {
    &&& b == (FreshIndex {
        memtable: b.memtable,
        centroids: b.centroids,
        centroids_dirty: b.centroids_dirty,
        ..a
    })
    &&& if a.memtable.dim is None && a.partitions@.len() > 0 {
        &&& b.centroids@ == Seq::new((a.partitions@.len() * b.memtable.width()) as nat, |i: int| 0u32)
        &&& b.centroids_dirty
    } else {
        &&& b.centroids == a.centroids
        &&& b.centroids_dirty == a.centroids_dirty
    }
}

/// Centroids of zeros.
pub fn zero_centroids(n: usize, dim: usize) -> (r: Vec<u32>)
    requires
        n * 0xFFFF_FFFF <= usize::MAX,
        dim <= 0xFFFF_FFFF,
    ensures
        r@ == Seq::new((n * dim) as nat, |i: int| 0u32),
{
    assert(0 <= n * dim <= n * 0xFFFF_FFFF) by (nonlinear_arith)
        requires
            0 <= n,
            0 <= dim <= 0xFFFF_FFFF,
    ;
    let len: usize = n * dim;
    let mut r: Vec<u32> = Vec::new();
    while r.len() < len
        invariant
            r@.len() <= len,
            r@ =~= Seq::new(r@.len(), |i: int| 0u32),
        decreases len - r@.len(),
    {
        r.push(0);
    }
    r
}

/// More rows in the memtable keep the parts together.
pub proof fn lemma_grown_wf(a: FreshIndex, b: FreshIndex, dim: usize)
    requires
        a.wf(),
        memtable_grown(a, b),
        b.memtable.wf(b.bit_width as int, b.store_vectors),
        b.memtable.dim == Some(dim),
        a.memtable.dim is Some ==> a.memtable.dim == Some(dim),
        a.tqplus_shift@.len() == 0 || a.memtable.dim is Some,
    ensures
        b.wf(),
{
    if a.memtable.dim is None {
        let p = a.partitions@;
        let n = p.len() as int;
        assert(0 * dim == 0) by (nonlinear_arith);
        assert(0 <= n * dim) by (nonlinear_arith)
            requires
                0 <= n,
                0 <= dim,
        ;
        let w = a.memtable.width();
        assert(n * w == 0) by (nonlinear_arith)
            requires
                w == 0,
        ;
        assert forall|k: int| 0 <= k < n implies (#[trigger] p[k]).wf() && p[k].placed(b.ng(), b.stored()) by {
            assert(p[k].wf() && p[k].placed(a.ng(), a.stored()));
            assert(p[k].chunks@.len() == 0);
        }
    }
}

impl FreshIndex {
    /// The ids that the partitions hold and the memtable does not.
    pub open spec fn base_only(self) -> Set<u64> {
        base_ids(self.partitions@, self.runs@).difference(self.memtable.ids@.to_set())
    }

    fn first_in_base(&self, ids: &[u64]) -> (r: Option<u64>)
        requires
            self.wf(),
        ensures
            r == first_taken(ids@, self.base_only()),
    {
        let ghost taken = self.base_only();
        let mut i: usize = 0;
        assert(ids@.take(0) =~= Seq::<u64>::empty());
        while i < ids.len()
            invariant
                i <= ids.len(),
                self.wf(),
                taken == self.base_only(),
                first_taken(ids@.take(i as int), taken) is None,
            decreases ids.len() - i,
        {
            assert(ids@.take(i + 1).drop_last() =~= ids@.take(i as int));
            let id: u64 = ids[i];
            let hit: bool = !self.memtable.contains(id) && self.live_copies(id).len() > 0;
            assert(hit == taken.contains(id));
            if hit {
                proof {
                    lemma_first_taken_prefix(ids@, taken, i + 1);
                }
                return Some(id);
            }
            i = i + 1;
        }
        assert(ids@.take(i as int) =~= ids@);
        None
    }

    /// Checks rows before they are encoded.
    pub fn check_add(&self, vectors: &[u32], dim: usize, ids: &[u64]) -> (r: Option<AddError>)
        requires
            self.wf(),
        ensures
            r == add_error(self.base_only(), self.memtable, vectors@, dim, ids@),
    {
        if let Some(id) = self.first_in_base(ids) {
            return Some(AddError::IdAlreadyPresent(id));
        }
        check_rows(&self.memtable, vectors, dim, ids)
    }

    /// Adds vectors (bit patterns, `dim` each) with their encoded rows to the
    /// memtable. A refused call changes nothing.
    pub fn add_with_ids_2d(
        &mut self,
        vectors: &[u32],
        dim: usize,
        ids: &[u64],
        codes: &[u8],
        scales: &[u32],
    ) -> (r: Result<(), AddError>)
        requires
            old(self).wf(),
            add_error(old(self).base_only(), old(self).memtable, vectors@, dim, ids@) is None ==> {
                &&& codes@.len() == ids@.len() * plane_row_bytes(old(self).bit_width as int, dim as int)
                &&& scales@.len() == ids@.len()
            },
        ensures
            final(self).wf(),
            match r {
                Err(e) => {
                    &&& add_error(old(self).base_only(), old(self).memtable, vectors@, dim, ids@) == Some(e)
                    &&& *final(self) == *old(self)
                },
                Ok(_) => {
                    &&& add_error(old(self).base_only(), old(self).memtable, vectors@, dim, ids@) is None
                    &&& final(self).live() == old(self).live().union(ids@.to_set())
                    &&& final(self).memtable.with_rows(
                        old(self).memtable,
                        dim,
                        ids@,
                        codes@,
                        scales@,
                        vectors@,
                        old(self).store_vectors,
                    )
                    &&& memtable_grown(*old(self), *final(self))
                    &&& forall|rows: Seq<Seq<Row>>| #[trigger]
                        old(self).intact(rows) ==> final(self).intact(rows) && final(self).length() == old(
                            self,
                        ).length() + ids@.len()
                },
            },
    {
        if let Some(e) = self.check_add(vectors, dim, ids) {
            return Err(e);
        }
        proof {
            lemma_first_taken_none(ids@, self.base_only());
            lemma_first_taken_none(ids@, self.memtable.ids@.to_set());
            lemma_first_repeat_none(ids@);
            assert forall|i: int| 0 <= i < ids@.len() implies !self.memtable.ids@.contains(
                #[trigger] ids@[i],
            ) by {
                assert(!self.memtable.ids@.to_set().contains(ids@[i]));
            }
            vstd::arithmetic::div_mod::lemma_fundamental_div_mod(vectors@.len() as int, dim as int);
            assert(vectors@.len() == ids@.len() * dim) by (nonlinear_arith)
                requires
                    vectors@.len() == dim * (vectors@.len() / (dim as nat)) + vectors@.len() % (dim as nat),
                    vectors@.len() % (dim as nat) == 0,
                    vectors@.len() / (dim as nat) == ids@.len(),
            ;
        }
        let first: bool = self.memtable.dim.is_none() && self.partitions.len() > 0;
        self.memtable.append(dim, ids, codes, scales, vectors, self.bit_width, self.store_vectors);
        if first {
            self.centroids = zero_centroids(self.partitions.len(), dim);
            self.centroids_dirty = true;
        }
        proof {
            lemma_concat_set(old(self).memtable.ids@, ids@);
            lemma_grown_wf(*old(self), *self, dim);
            assert(self.live() =~= old(self).live().union(ids@.to_set()));
            assert forall|i: int| 0 <= i < ids@.len() implies !old(self).live().contains(#[trigger] ids@[i]) by {
                assert(!old(self).memtable.ids@.contains(ids@[i]));
                assert(!old(self).memtable.ids@.to_set().contains(ids@[i]));
                assert(!old(self).base_only().contains(ids@[i]));
            }
            assert forall|rows: Seq<Seq<Row>>| #[trigger] old(self).intact(rows) implies self.intact(rows) by {
                crate::integrity::law_add_keeps_intact(*old(self), *self, rows, ids@);
            }
        }
        Ok(())
    }

    /// [`FreshIndex::add_with_ids_2d`] with the committed dimensionality.
    pub fn add_with_ids(&mut self, vectors: &[u32], ids: &[u64], codes: &[u8], scales: &[u32]) -> (r: Result<
        (),
        AddError,
    >)
        requires
            old(self).wf(),
            old(self).memtable.dim is Some,
            add_error(
                old(self).base_only(),
                old(self).memtable,
                vectors@,
                old(self).memtable.dim->0,
                ids@,
            ) is None ==> {
                &&& codes@.len() == ids@.len() * plane_row_bytes(
                    old(self).bit_width as int,
                    old(self).memtable.width(),
                )
                &&& scales@.len() == ids@.len()
            },
        ensures
            final(self).wf(),
            match r {
                Err(e) => {
                    &&& add_error(
                        old(self).base_only(),
                        old(self).memtable,
                        vectors@,
                        old(self).memtable.dim->0,
                        ids@,
                    ) == Some(e)
                    &&& *final(self) == *old(self)
                },
                Ok(_) => {
                    &&& add_error(
                        old(self).base_only(),
                        old(self).memtable,
                        vectors@,
                        old(self).memtable.dim->0,
                        ids@,
                    ) is None
                    &&& final(self).live() == old(self).live().union(ids@.to_set())
                    &&& final(self).memtable.with_rows(
                        old(self).memtable,
                        old(self).memtable.dim->0,
                        ids@,
                        codes@,
                        scales@,
                        vectors@,
                        old(self).store_vectors,
                    )
                    &&& memtable_grown(*old(self), *final(self))
                    &&& forall|rows: Seq<Seq<Row>>| #[trigger]
                        old(self).intact(rows) ==> final(self).intact(rows) && final(self).length() == old(
                            self,
                        ).length() + ids@.len()
                },
            },
    {
        let dim: usize = self.dim();
        self.add_with_ids_2d(vectors, dim, ids, codes, scales)
    }
}

/// The two partitions differ in dead rows and live counts only.
pub open spec fn marked_from(a: PartitionState, b: PartitionState) -> bool {
    &&& b.partition_id == a.partition_id
    &&& b.generation == a.generation
    &&& b.n_rows == a.n_rows
    &&& b.chunks@ == a.chunks@
    &&& b.file_bytes == a.file_bytes
}

/// Some of the first `n` copies lies at row `q` of partition `k`.
pub open spec fn copy_at(
    parts: Seq<PartitionState>,
    copies: Seq<CopyLocation>,
    n: int,
    k: int,
    q: int,
) -> bool {
    exists|c: int|
        0 <= c < n && place(parts, (#[trigger] copies[c]).partition_id) == k && copies[c].row == q
}

/// Every partition counts its live primaries, which are among `rows`.
pub open spec fn all_counted(parts: Seq<PartitionState>, rows: Seq<Seq<Row>>) -> bool {
    &&& rows.len() == parts.len()
    &&& forall|k: int| 0 <= k < parts.len() ==> counts_rows(#[trigger] parts[k], rows[k])
}

/// A partition counts its live primaries, which are among `rows`.
pub open spec fn counts_rows(p: PartitionState, rows: Seq<Row>) -> bool {
    &&& rows.len() == p.n_rows
    &&& p.live_primary == live_primaries(rows, p.dead@, 0)
}

/// The copies of live rows say rightly whether they are replicas.
pub open spec fn told(parts: Seq<PartitionState>, rows: Seq<Seq<Row>>, copies: Seq<CopyLocation>) -> bool {
    forall|c: int| 0 <= c < copies.len() ==> told_one(parts, rows, #[trigger] copies[c])
}

/// A copy says rightly whether it is a replica, if it is live.
pub open spec fn told_one(parts: Seq<PartitionState>, rows: Seq<Seq<Row>>, copy: CopyLocation) -> bool {
    let k = place(parts, copy.partition_id);
    0 <= k < parts.len() && copy.row < parts[k].n_rows && !marked(parts[k].dead@, copy.row as int)
        ==> rows[k][copy.row as int].replica == copy.is_replica
}

/// `b` is `a` with the rows of `copies` marked dead.
pub open spec fn copies_marked(
    a: Seq<PartitionState>,
    b: Seq<PartitionState>,
    copies: Seq<CopyLocation>,
) -> bool {
    &&& b.len() == a.len()
    &&& forall|k: int| 0 <= k < a.len() ==> marked_from(a[k], #[trigger] b[k])
    &&& forall|k: int, q: int|
        0 <= k < a.len() && 0 <= q ==> #[trigger] marked(b[k].dead@, q) == (marked(a[k].dead@, q) || copy_at(
            a,
            copies,
            copies.len() as int,
            k,
            q,
        ))
    &&& forall|rows: Seq<Seq<Row>>| #[trigger] all_counted(a, rows) && told(a, rows, copies) ==> all_counted(b, rows)
}

/// The copies name rows that exist.
proof fn lemma_copies_exist(parts: Seq<PartitionState>, runs: Seq<Run>, id: u64)
    ensures
        forall|c: int|
            0 <= c < copies_of(parts, runs, id).len() ==> {
                let p = place(parts, (#[trigger] copies_of(parts, runs, id)[c]).partition_id);
                0 <= p < parts.len() && copies_of(parts, runs, id)[c].row < parts[p].n_rows
            },
{
    let mine = of_id(newest_first(tables(runs)), id);
    let kept = surviving(parts, mine);
    lemma_surviving(parts, mine);
    assert forall|c: int| 0 <= c < copies_of(parts, runs, id).len() implies {
        let p = place(parts, (#[trigger] copies_of(parts, runs, id)[c]).partition_id);
        0 <= p < parts.len() && copies_of(parts, runs, id)[c].row < parts[p].n_rows
    } by {
        assert(current(parts, kept[c]));
        lemma_place(parts, kept[c].partition_id, 0);
    }
}

/// The partitions after the first `n` copies are marked dead.
spec fn upto_marked(
    a: Seq<PartitionState>,
    b: Seq<PartitionState>,
    copies: Seq<CopyLocation>,
    n: int,
) -> bool {
    &&& b.len() == a.len()
    &&& forall|k: int| 0 <= k < a.len() ==> marked_from(a[k], #[trigger] b[k])
    &&& forall|k: int, q: int|
        0 <= k < a.len() && 0 <= q ==> #[trigger] marked(b[k].dead@, q) == (marked(a[k].dead@, q) || copy_at(
            a,
            copies,
            n,
            k,
            q,
        ))
}

/// Some of the first `n` copies names this row.
spec fn named(copies: Seq<CopyLocation>, n: int, p: u32, r: u32) -> bool {
    exists|c: int| 0 <= c < n && (#[trigger] copies[c]).partition_id == p && copies[c].row == r
}

proof fn lemma_named_step(copies: Seq<CopyLocation>, n: int, p: u32, r: u32)
    requires
        0 <= n < copies.len(),
    ensures
        named(copies, n + 1, p, r) <==> named(copies, n, p, r) || (copies[n].partition_id == p && copies[n].row
            == r),
{
    if named(copies, n, p, r) {
        let c = choose|c: int| 0 <= c < n && (#[trigger] copies[c]).partition_id == p && copies[c].row == r;
        assert(0 <= c < n + 1 && copies[c].partition_id == p);
    }
    if named(copies, n + 1, p, r) {
        let c = choose|c: int| 0 <= c < n + 1 && (#[trigger] copies[c]).partition_id == p && copies[c].row == r;
        if c < n {
            assert(named(copies, n, p, r));
        }
    }
}

proof fn lemma_copy_at_step(
    parts: Seq<PartitionState>,
    copies: Seq<CopyLocation>,
    n: int,
    k: int,
    q: int,
)
    requires
        0 <= n < copies.len(),
    ensures
        copy_at(parts, copies, n + 1, k, q) <==> copy_at(parts, copies, n, k, q) || (place(
            parts,
            copies[n].partition_id,
        ) == k && copies[n].row == q),
{
    if copy_at(parts, copies, n, k, q) {
        let c = choose|c: int|
            0 <= c < n && place(parts, (#[trigger] copies[c]).partition_id) == k && copies[c].row == q;
        assert(0 <= c < n + 1 && place(parts, copies[c].partition_id) == k);
    }
    if copy_at(parts, copies, n + 1, k, q) {
        let c = choose|c: int|
            0 <= c < n + 1 && place(parts, (#[trigger] copies[c]).partition_id) == k && copies[c].row == q;
        if c < n {
            assert(copy_at(parts, copies, n, k, q));
        }
    }
}

/// Marking all copies of an id dead takes that id, and no other, out of the
/// lookups.
proof fn lemma_removed(
    a: Seq<PartitionState>,
    b: Seq<PartitionState>,
    runs: Seq<Run>,
    id: u64,
)
    requires
        agreeing(a, newest_first(tables(runs))),
        forall|x: u64, p: u32, r: u32|
            #[trigger] has_copy(b, newest_first(tables(runs)), x, p, r) <==> has_copy(
                a,
                newest_first(tables(runs)),
                x,
                p,
                r,
            ) && !named(copies_of(a, runs, id), copies_of(a, runs, id).len() as int, p, r),
    ensures
        base_ids(b, runs) == base_ids(a, runs).remove(id),
{
    let s = newest_first(tables(runs));
    let copies = copies_of(a, runs, id);
    let n = copies.len() as int;
    law_lookup_finds_all_copies(a, runs, id);
    assert forall|x: u64| base_ids(b, runs).contains(x) <==> base_ids(a, runs).remove(id).contains(x) by {
        law_lookup_finds_all_copies(a, runs, x);
        law_lookup_finds_all_copies(b, runs, x);
        let in_a = copies_of(a, runs, x);
        let in_b = copies_of(b, runs, x);
        if in_b.len() > 0 {
            let (p, r) = (in_b[0].partition_id, in_b[0].row);
            assert(has_copy(b, s, x, p, r));
            assert(has_copy(a, s, x, p, r));
            let k = choose|k: int| 0 <= k < in_a.len() && (#[trigger] in_a[k]).partition_id == p && in_a[k].row
                == r;
            if x == id {
                assert(has_copy(a, s, id, p, r));
                assert(named(copies, n, p, r));
            }
        }
        if in_a.len() > 0 && x != id {
            let (p, r) = (in_a[0].partition_id, in_a[0].row);
            assert(has_copy(a, s, x, p, r));
            if named(copies, n, p, r) {
                let c = choose|c: int| 0 <= c < n && (#[trigger] copies[c]).partition_id == p && copies[c].row
                    == r;
                assert(has_copy(a, s, id, p, r));
                let i = choose|i: int|
                    0 <= i < s.len() && (#[trigger] s[i]).id == id && s[i].partition_id == p && s[i].row == r
                        && current(a, s[i]);
                let j = choose|j: int|
                    0 <= j < s.len() && (#[trigger] s[j]).id == x && s[j].partition_id == p && s[j].row == r
                        && current(a, s[j]);
                assert(s[i].id == s[j].id);
            }
            assert(has_copy(b, s, x, p, r));
            let k = choose|k: int| 0 <= k < in_b.len() && (#[trigger] in_b[k]).partition_id == p && in_b[k].row
                == r;
        }
    }
    assert(base_ids(b, runs) =~= base_ids(a, runs).remove(id));
}

/// `b` is `a` after the removal of `id`, with outcome `r`.
pub open spec fn removal(a: FreshIndex, b: FreshIndex, id: u64, r: Removed) -> bool {
    &&& r == if a.memtable.ids@.contains(id) {
        Removed::Memtable
    } else if copies_of(a.partitions@, a.runs@, id).len() > 0 {
        Removed::Partitions
    } else {
        Removed::No
    }
    &&& r == Removed::No ==> b == a
    &&& r == Removed::Memtable ==> {
        &&& b == (FreshIndex { memtable: b.memtable, ..a })
        &&& exists|i: int|
            #[trigger] b.memtable.without_row(a.memtable, a.bit_width as int, a.store_vectors, i)
                && a.memtable.ids@[i] == id
        &&& b.memtable.ids@.to_set() == a.memtable.ids@.to_set().remove(id)
    }
    &&& r == Removed::Partitions ==> {
        &&& b == (FreshIndex {
            partitions: b.partitions,
            churn_since_check: (a.churn_since_check + 1) as u64,
            ..a
        })
        &&& copies_marked(a.partitions@, b.partitions@, copies_of(a.partitions@, a.runs@, id))
    }
}

/// The ids whose removal had an effect.
pub open spec fn removed_ids(ids: Seq<u64>, outcomes: Seq<Removed>) -> Seq<u64>
    decreases ids.len(),
{
    if ids.len() == 0 {
        Seq::empty()
    } else if outcomes[ids.len() - 1] != Removed::No {
        removed_ids(ids.drop_last(), outcomes).push(ids.last())
    } else {
        removed_ids(ids.drop_last(), outcomes)
    }
}

/// The index goes through `states` as `ids` are removed one after the other.
pub open spec fn removals(states: Seq<FreshIndex>, ids: Seq<u64>, outcomes: Seq<Removed>) -> bool {
    &&& states.len() == ids.len() + 1
    &&& outcomes.len() == ids.len()
    &&& forall|k: int| 0 <= k < states.len() ==> (#[trigger] states[k]).wf()
    &&& forall|k: int|
        0 <= k < ids.len() ==> removal(#[trigger] states[k], states[k + 1], ids[k], outcomes[k])
}

/// Outcomes beyond the ids do not count.
pub proof fn lemma_removed_ids(ids: Seq<u64>, a: Seq<Removed>, b: Seq<Removed>)
    requires
        forall|k: int| 0 <= k < ids.len() ==> #[trigger] a[k] == b[k],
    ensures
        removed_ids(ids, a) == removed_ids(ids, b),
    decreases ids.len(),
{
    if ids.len() > 0 {
        assert(a[ids.len() - 1] == b[ids.len() - 1]);
        lemma_removed_ids(ids.drop_last(), a, b);
    }
}

impl FreshIndex {
    /// Marks a copy dead.
    fn dead_mark(&mut self, copy: CopyLocation)
        requires
            old(self).wf(),
            place(old(self).partitions@, copy.partition_id) < old(self).partitions@.len(),
            copy.row < old(self).partitions@[place(old(self).partitions@, copy.partition_id)].n_rows,
        ensures
            final(self).wf(),
            *final(self) == (FreshIndex { partitions: final(self).partitions, ..*old(self) }),
            one_more_dead(
                old(self).partitions@,
                final(self).partitions@,
                place(old(self).partitions@, copy.partition_id),
                copy.row as int,
            ),
            forall|k: int|
                0 <= k < old(self).partitions@.len() ==> marked_from(
                    old(self).partitions@[k],
                    #[trigger] final(self).partitions@[k],
                ),
            forall|rows: Seq<Seq<Row>>| #[trigger]
                all_counted(old(self).partitions@, rows) && told_one(old(self).partitions@, rows, copy) ==> all_counted(
                    final(self).partitions@,
                    rows,
                ),
    {
        proof {
            lemma_place(self.partitions@, copy.partition_id, 0);
        }
        if let Some(p) = partition_position(&self.partitions, copy.partition_id) {
            assert(self.partitions@[p as int].wf());
            self.partitions[p].mark_dead(copy.row as u64, copy.is_replica);
            proof {
                let a = old(self).partitions@;
                let b = self.partitions@;
                assert forall|k: int| 0 <= k < b.len() implies (#[trigger] b[k]).wf() && b[k].placed(
                    self.ng(),
                    self.stored(),
                ) by {
                    assert(a[k].wf() && a[k].placed(self.ng(), self.stored()));
                    if k == p {
                        assert forall|j: int| 0 <= j < b[k].chunks@.len() implies {
                            &&& (#[trigger] b[k].chunks@[j]).offset % 64 == 0
                            &&& b[k].chunks@[j].offset + crate::chunk::chunk_len(
                                self.ng(),
                                self.stored(),
                                b[k].chunks@[j].n_rows as int,
                            ) <= b[k].limit(j)
                        } by {
                            assert(a[k].chunks@[j].offset % 64 == 0);
                        }
                    }
                }
                assert forall|k: int| 0 <= k < b.len() implies (#[trigger] b[k]).partition_id
                    < self.next_partition_id by {
                    assert(a[k].partition_id < self.next_partition_id);
                }
                assert forall|i: int, j: int| 0 <= i < j < b.len() implies (#[trigger] b[i]).partition_id != (
                #[trigger] b[j]).partition_id by {
                    assert(a[i].partition_id != a[j].partition_id);
                }
                assert forall|rows: Seq<Seq<Row>>| #[trigger] all_counted(a, rows) && told_one(a, rows, copy) implies all_counted(
                    b,
                    rows,
                ) by {
                    assert forall|k: int| 0 <= k < b.len() implies counts_rows(#[trigger] b[k], rows[k]) by {
                        assert(counts_rows(a[k], rows[k]));
                        if k == p {
                            lemma_marked_row_is_counted(a[k], b[k], rows[k], copy.row as int, copy.is_replica);
                        }
                    }
                }
            }
        }
    }

    /// Removes an id from the memtable, or marks its copies in the partitions
    /// dead.
    pub fn remove_internal(&mut self, id: u64) -> (r: Removed)
        requires
            old(self).wf(),
            old(self).churn_since_check < u64::MAX,
        ensures
            final(self).wf(),
            removal(*old(self), *final(self), id, r),
            r == Removed::Partitions && agreeing(
                old(self).partitions@,
                newest_first(tables(old(self).runs@)),
            ) ==> base_ids(final(self).partitions@, final(self).runs@) == base_ids(
                old(self).partitions@,
                old(self).runs@,
            ).remove(id) && final(self).live() == old(self).live().remove(id),
            agreeing(old(self).partitions@, newest_first(tables(old(self).runs@))) ==> agreeing(
                final(self).partitions@,
                newest_first(tables(final(self).runs@)),
            ),
    {
        if self.memtable.contains(id) {
            self.memtable.remove(id, self.bit_width, self.store_vectors);
            return Removed::Memtable;
        }
        let copies: Vec<CopyLocation> = self.live_copies(id);
        if copies.len() == 0 {
            return Removed::No;
        }
        let ghost start = self.partitions@;
        let ghost s = newest_first(tables(self.runs@));
        proof {
            lemma_copies_exist(self.partitions@, self.runs@, id);
        }
        let mut c: usize = 0;
        while c < copies.len()
            invariant
                self.wf(),
                c <= copies@.len(),
                copies@ == copies_of(start, old(self).runs@, id),
                start == old(self).partitions@,
                *self == (FreshIndex { partitions: self.partitions, ..*old(self) }),
                s == newest_first(tables(old(self).runs@)),
                upto_marked(start, self.partitions@, copies@, c as int),
                forall|rows: Seq<Seq<Row>>| #[trigger]
                    all_counted(start, rows) && told(start, rows, copies@) ==> all_counted(self.partitions@, rows),
                forall|j: int|
                    0 <= j < copies@.len() ==> {
                        let p = place(start, (#[trigger] copies@[j]).partition_id);
                        0 <= p < start.len() && copies@[j].row < start[p].n_rows
                    },
                forall|x: u64, p: u32, r: u32|
                    #[trigger] has_copy(self.partitions@, s, x, p, r) <==> has_copy(start, s, x, p, r)
                        && !named(copies@, c as int, p, r),
                agreeing(start, s) ==> agreeing(self.partitions@, s),
            decreases copies.len() - c,
        {
            let copy: CopyLocation = copies[c];
            let ghost before = self.partitions@;
            let ghost at = place(start, copy.partition_id);
            proof {
                assert(copies@[c as int] == copy);
                assert forall|i: int| 0 <= i < start.len() implies (#[trigger] start[i]).partition_id
                    == before[i].partition_id by {
                    assert(marked_from(start[i], before[i]));
                }
                crate::copies_laws::lemma_place_same(start, before, copy.partition_id, 0);
                assert(marked_from(start[at], before[at]));
            }
            proof {
                assert forall|rows: Seq<Seq<Row>>| #[trigger] told(start, rows, copies@) implies told_one(
                    before,
                    rows,
                    copy,
                ) by {
                    assert(told_one(start, rows, copies@[c as int]));
                    assert(marked(before[at].dead@, copy.row as int) == (marked(start[at].dead@, copy.row as int)
                        || copy_at(start, copies@, c as int, at, copy.row as int)));
                }
            }
            self.dead_mark(copy);
            proof {
                let now = self.partitions@;
                law_dead_row_is_not_found(before, now, s, copy.partition_id, copy.row);
                assert forall|x: u64, p: u32, r: u32| #[trigger] has_copy(now, s, x, p, r) <==> has_copy(
                    start,
                    s,
                    x,
                    p,
                    r,
                ) && !named(copies@, c + 1, p, r) by {
                    lemma_named_step(copies@, c as int, p, r);
                    assert(has_copy(before, s, x, p, r) <==> has_copy(start, s, x, p, r) && !named(
                        copies@,
                        c as int,
                        p,
                        r,
                    ));
                }
                assert forall|k: int, q: int| 0 <= k < start.len() && 0 <= q implies #[trigger] marked(
                    now[k].dead@,
                    q,
                ) == (marked(start[k].dead@, q) || copy_at(start, copies@, c + 1, k, q)) by {
                    lemma_copy_at_step(start, copies@, c as int, k, q);
                    assert(marked(before[k].dead@, q) == (marked(start[k].dead@, q) || copy_at(
                        start,
                        copies@,
                        c as int,
                        k,
                        q,
                    )));
                    if k == at {
                        assert(marked(now[at].dead@, q) == (q == copy.row || marked(before[at].dead@, q)));
                    } else {
                        assert(now[k] == before[k]);
                    }
                }
                assert forall|k: int| 0 <= k < start.len() implies marked_from(start[k], #[trigger] now[k]) by {
                    assert(marked_from(start[k], before[k]));
                    assert(marked_from(before[k], now[k]));
                }
            }
            c = c + 1;
        }
        proof {
            if agreeing(start, s) {
                lemma_removed(start, self.partitions@, old(self).runs@, id);
                assert(!old(self).memtable.ids@.to_set().contains(id));
                assert(old(self).memtable.ids@.to_set().union(base_ids(start, old(self).runs@).remove(id))
                    =~= old(self).live().remove(id));
            }
        }
        self.churn_since_check = self.churn_since_check + 1;
        Removed::Partitions
    }

    /// Removes ids. Returns the ids that were live, which the log is to
    /// record, and whether partitions changed, so that readers need a new
    /// snapshot.
    pub fn remove_many(&mut self, ids: &[u64]) -> (r: (Vec<u64>, bool))
        requires
            old(self).wf(),
            old(self).churn_since_check + ids@.len() <= u64::MAX,
        ensures
            final(self).wf(),
            exists|states: Seq<FreshIndex>, outcomes: Seq<Removed>| #[trigger]
                removals(states, ids@, outcomes) && states[0] == *old(self) && states.last() == *final(self)
                    && r.0@ == removed_ids(ids@, outcomes) && r.1 == outcomes.contains(
                    Removed::Partitions,
                ),
            agreeing(old(self).partitions@, newest_first(tables(old(self).runs@))) ==> agreeing(
                final(self).partitions@,
                newest_first(tables(final(self).runs@)),
            ),
            agreeing(old(self).partitions@, newest_first(tables(old(self).runs@))) && old(
                self,
            ).memtable.ids@.to_set().disjoint(base_ids(old(self).partitions@, old(self).runs@)) ==> {
                &&& final(self).live() == old(self).live().difference(ids@.to_set())
                &&& r.0@.to_set() == old(self).live().intersect(ids@.to_set())
                &&& r.0@.no_duplicates()
            },
            forall|rows: Seq<Seq<Row>>| #[trigger]
                old(self).intact(rows) ==> {
                    &&& final(self).intact(rows)
                    &&& final(self).live() == old(self).live().difference(ids@.to_set())
                    &&& r.0@.to_set() == old(self).live().intersect(ids@.to_set())
                    &&& r.0@.no_duplicates()
                    &&& final(self).length() == old(self).length() - r.0@.len()
                },
    {
        let mut gone: Vec<u64> = Vec::new();
        let mut touched: bool = false;
        let mut i: usize = 0;
        let ghost mut states: Seq<FreshIndex> = seq![*self];
        let ghost mut outcomes: Seq<Removed> = Seq::empty();
        let ghost tidy = agreeing(old(self).partitions@, newest_first(tables(old(self).runs@))) && old(
            self,
        ).memtable.ids@.to_set().disjoint(base_ids(old(self).partitions@, old(self).runs@));
        proof {
            assert(ids@.take(0) =~= Seq::<u64>::empty());
            assert(self.live().difference(ids@.take(0).to_set()) =~= self.live());
            assert(gone@.to_set() =~= self.live().intersect(ids@.take(0).to_set()));
        }
        while i < ids.len()
            invariant
                self.wf(),
                i <= ids@.len(),
                self.churn_since_check + (ids@.len() - i) <= u64::MAX,
                removals(states, ids@.take(i as int), outcomes),
                states[0] == *old(self),
                states.last() == *self,
                gone@ == removed_ids(ids@.take(i as int), outcomes),
                touched == outcomes.contains(Removed::Partitions),
                self.runs == old(self).runs,
                agreeing(old(self).partitions@, newest_first(tables(old(self).runs@))) ==> agreeing(
                    self.partitions@,
                    newest_first(tables(self.runs@)),
                ),
                tidy == (agreeing(old(self).partitions@, newest_first(tables(old(self).runs@))) && old(
                    self,
                ).memtable.ids@.to_set().disjoint(base_ids(old(self).partitions@, old(self).runs@))),
                tidy ==> {
                    &&& self.live() == old(self).live().difference(ids@.take(i as int).to_set())
                    &&& gone@.to_set() == old(self).live().intersect(ids@.take(i as int).to_set())
                    &&& gone@.no_duplicates()
                    &&& self.memtable.ids@.to_set().disjoint(base_ids(self.partitions@, self.runs@))
                },
            decreases ids.len() - i,
        {
            let id: u64 = ids[i];
            let ghost before = *self;
            let ghost gone_before = gone@;
            proof {
                assert(ids@.contains(ids@[i as int]));
                crate::delta::lemma_push_set(ids@.take(i as int), id);
                assert(ids@.take(i + 1) =~= ids@.take(i as int).push(id));
                crate::delta::lemma_push_set(gone@, id);
            }
            let outcome: Removed = self.remove_internal(id);
            if outcome != Removed::No {
                gone.push(id);
            }
            if outcome == Removed::Partitions {
                touched = true;
            }
            proof {
                let was = outcomes;
                let n = i as int;
                outcomes = outcomes.push(outcome);
                states = states.push(*self);
                assert(ids@.take(n + 1).drop_last() =~= ids@.take(n));
                lemma_removed_ids(ids@.take(n), was, outcomes);
                assert(outcomes[n] == outcome);
                assert forall|k: int| 0 <= k < n + 1 implies removal(
                    #[trigger] states[k],
                    states[k + 1],
                    ids@.take(n + 1)[k],
                    outcomes[k],
                ) by {
                    if k < n {
                        assert(ids@.take(n + 1)[k] == ids@.take(n)[k]);
                    }
                }
                if was.contains(Removed::Partitions) {
                    let k = choose|k: int| 0 <= k < was.len() && was[k] == Removed::Partitions;
                    assert(outcomes[k] == Removed::Partitions);
                }
                if outcomes.contains(Removed::Partitions) && outcome != Removed::Partitions {
                    let k = choose|k: int| 0 <= k < outcomes.len() && outcomes[k] == Removed::Partitions;
                    assert(was[k] == Removed::Partitions);
                }
                if tidy {
                    lemma_removal_step(
                        *old(self),
                        before,
                        *self,
                        ids@,
                        i as int,
                        gone_before,
                        gone@,
                        outcome,
                    );
                }
            }
            i = i + 1;
        }
        assert(ids@.take(i as int) =~= ids@);
        assert(removals(states, ids@, outcomes));
        proof {
            assert forall|rows: Seq<Seq<Row>>| #[trigger] old(self).intact(rows) implies {
                &&& self.intact(rows)
                &&& self.live() == old(self).live().difference(ids@.to_set())
                &&& gone@.to_set() == old(self).live().intersect(ids@.to_set())
                &&& gone@.no_duplicates()
                &&& self.length() == old(self).length() - gone@.len()
            } by {
                crate::integrity::law_removing_many(states, ids@, outcomes, rows);
            }
        }
        (gone, touched)
    }

    /// Removes one id. True if it was live.
    pub fn remove(&mut self, id: u64) -> (r: bool)
        requires
            old(self).wf(),
            old(self).churn_since_check < u64::MAX,
        ensures
            final(self).wf(),
            r == old(self).live().contains(id),
            exists|outcome: Removed|
                #[trigger] removal(*old(self), *final(self), id, outcome) && r == (outcome != Removed::No),
            agreeing(old(self).partitions@, newest_first(tables(old(self).runs@))) && old(
                self,
            ).memtable.ids@.to_set().disjoint(base_ids(old(self).partitions@, old(self).runs@))
                ==> final(self).live() == old(self).live().remove(id),
            forall|rows: Seq<Seq<Row>>| #[trigger]
                old(self).intact(rows) ==> {
                    &&& final(self).intact(rows)
                    &&& final(self).live() == old(self).live().remove(id)
                    &&& final(self).length() == old(self).length() - (if r {
                        1int
                    } else {
                        0
                    })
                },
    {
        let outcome: Removed = self.remove_internal(id);
        proof {
            if old(self).memtable.ids@.contains(id) {
                assert(old(self).memtable.ids@.to_set().contains(id));
                if old(self).memtable.ids@.to_set().disjoint(
                    base_ids(old(self).partitions@, old(self).runs@),
                ) {
                    assert(self.live() =~= old(self).live().remove(id));
                }
            } else {
                assert(!old(self).memtable.ids@.to_set().contains(id));
                if outcome == Removed::No {
                    assert(self.live() =~= old(self).live().remove(id));
                }
            }
        }
        proof {
            assert forall|rows: Seq<Seq<Row>>| #[trigger] old(self).intact(rows) implies {
                &&& self.intact(rows)
                &&& self.live() == old(self).live().remove(id)
                &&& self.length() == old(self).length() - (if outcome != Removed::No {
                    1int
                } else {
                    0
                })
            } by {
                crate::integrity::law_removal_keeps_intact(*old(self), *self, rows, id, outcome);
                crate::integrity::law_length(*old(self), rows);
                crate::integrity::law_length(*self, rows);
                if outcome == Removed::No {
                    assert(old(self).live().remove(id) =~= old(self).live());
                }
            }
        }
        outcome != Removed::No
    }
}

/// One step of a removal of many.
proof fn lemma_removal_step(
    start: FreshIndex,
    before: FreshIndex,
    now: FreshIndex,
    ids: Seq<u64>,
    i: int,
    gone: Seq<u64>,
    gone_now: Seq<u64>,
    outcome: Removed,
)
    requires
        0 <= i < ids.len(),
        before.live() == start.live().difference(ids.take(i).to_set()),
        gone.to_set() == start.live().intersect(ids.take(i).to_set()),
        gone.no_duplicates(),
        before.memtable.ids@.to_set().disjoint(base_ids(before.partitions@, before.runs@)),
        ids.take(i + 1).to_set() == ids.take(i).to_set().insert(ids[i]),
        gone.push(ids[i]).to_set() == gone.to_set().insert(ids[i]),
        gone_now == (if outcome == Removed::No {
            gone
        } else {
            gone.push(ids[i])
        }),
        outcome == (if before.memtable.ids@.contains(ids[i]) {
            Removed::Memtable
        } else if copies_of(before.partitions@, before.runs@, ids[i]).len() > 0 {
            Removed::Partitions
        } else {
            Removed::No
        }),
        outcome == Removed::No ==> now == before,
        outcome == Removed::Memtable ==> {
            &&& now.partitions@ == before.partitions@
            &&& now.runs@ == before.runs@
            &&& now.memtable.ids@.to_set() == before.memtable.ids@.to_set().remove(ids[i])
        },
        outcome == Removed::Partitions ==> {
            &&& now.live() == before.live().remove(ids[i])
            &&& now.memtable == before.memtable
            &&& base_ids(now.partitions@, now.runs@) == base_ids(before.partitions@, before.runs@).remove(
                ids[i],
            )
        },
    ensures
        now.live() == start.live().difference(ids.take(i + 1).to_set()),
        gone_now.to_set() == start.live().intersect(ids.take(i + 1).to_set()),
        gone_now.no_duplicates(),
        now.memtable.ids@.to_set().disjoint(base_ids(now.partitions@, now.runs@)),
{
    let id = ids[i];
    let base = base_ids(before.partitions@, before.runs@);
    assert(before.memtable.ids@.contains(id) <==> before.memtable.ids@.to_set().contains(id));
    assert(base.contains(id) <==> copies_of(before.partitions@, before.runs@, id).len() > 0);
    if outcome == Removed::Memtable {
        assert(!base.contains(id));
        assert(now.live() =~= before.live().remove(id));
    } else if outcome == Removed::No {
        assert(!before.live().contains(id));
        assert(now.live() =~= before.live().remove(id));
    } else {
        assert(before.live().contains(id));
    }
    assert(now.live() =~= start.live().difference(ids.take(i + 1).to_set()));
    assert(before.live().contains(id) <==> outcome != Removed::No);
    assert forall|x: u64| gone_now.to_set().contains(x) <==> start.live().intersect(
        ids.take(i + 1).to_set(),
    ).contains(x) by {
        assert(gone.to_set().contains(x) <==> start.live().contains(x) && ids.take(i).to_set().contains(x));
        assert(before.live().contains(id) <==> start.live().contains(id) && !ids.take(i).to_set().contains(
            id,
        ));
        assert(ids.take(i + 1).to_set().contains(x) <==> x == id || ids.take(i).to_set().contains(x));
        if outcome != Removed::No {
            assert(gone_now.to_set().contains(x) <==> x == id || gone.to_set().contains(x));
        }
    }
    assert(gone_now.to_set() =~= start.live().intersect(ids.take(i + 1).to_set()));
    if outcome != Removed::No {
        assert(before.live().contains(id));
        assert(!ids.take(i).to_set().contains(id));
        assert(!gone.to_set().contains(id));
        assert(!gone.contains(id));
    }
}

} // verus!
