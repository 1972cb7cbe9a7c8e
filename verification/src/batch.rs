//! Rows in transit: flushes, moves, splits and compactions.
use vstd::prelude::*;
use vstd::slice::slice_subrange;

verus! {

/// One stored row.
pub struct Row {
    /// Group bytes.
    pub codes: Seq<u8>,
    /// Bit pattern.
    pub scale: u32,
    pub id: u64,
    /// A further copy of a vector whose first copy lies elsewhere.
    pub replica: bool,
    /// Bit patterns; empty unless vectors are stored.
    pub vector: Seq<u32>,
}

/// Rows, column by column.
pub struct RowBatch {
    /// Group bytes per row.
    pub groups: usize,
    /// Coordinates per stored vector, 0 if none are stored.
    pub width: usize,
    pub group_rows: Vec<u8>,
    pub scales: Vec<u32>,
    pub ids: Vec<u64>,
    pub replica: Vec<bool>,
    pub vectors: Vec<u32>,
}

/// Row `i` of a table with `w` columns.
pub open spec fn row_of<T>(s: Seq<T>, i: int, w: int) -> Seq<T> {
    s.subrange(i * w, i * w + w)
}

impl View for RowBatch {
    type V = Seq<Row>;

    open spec fn view(&self) -> Seq<Row> {
        Seq::new(
            self.ids@.len(),
            |i: int|
                Row {
                    codes: row_of(self.group_rows@, i, self.groups as int),
                    scale: self.scales@[i],
                    id: self.ids@[i],
                    replica: self.replica@[i],
                    vector: row_of(self.vectors@, i, self.width as int),
                },
        )
    }
}

/// Appending a row leaves the rows before it.
proof fn lemma_row_append<T>(s: Seq<T>, t: Seq<T>, w: int, n: int)
    requires
        0 <= w,
        0 <= n,
        s.len() == n * w,
        t.len() == w,
    ensures
        (s + t).len() == (n + 1) * w,
        row_of(s + t, n, w) == t,
        forall|i: int| 0 <= i < n ==> #[trigger] row_of(s + t, i, w) == row_of(s, i, w),
{
    assert((n + 1) * w == n * w + w) by (nonlinear_arith);
    assert(row_of(s + t, n, w) =~= t);
    assert forall|i: int| 0 <= i < n implies #[trigger] row_of(s + t, i, w) == row_of(s, i, w) by {
        assert(0 <= i * w && i * w + w <= n * w) by (nonlinear_arith)
            requires
                0 <= i < n,
                0 <= w,
        ;
        assert(row_of(s + t, i, w) =~= row_of(s, i, w));
    }
}

/// The row of a table that lies inside it.
pub proof fn lemma_row_bounds(i: int, n: int, w: int)
    requires
        0 <= i < n,
        0 <= w,
    ensures
        0 <= i * w,
        i * w + w <= n * w,
        (i + 1) * w == i * w + w,
{
    assert((i + 1) * w == i * w + w) by (nonlinear_arith);
    assert(0 <= i * w && i * w + w <= n * w) by (nonlinear_arith)
        requires
            0 <= i < n,
            0 <= w,
    ;
}

impl RowBatch {
    /// The columns agree.
    pub open spec fn wf(self) -> bool {
        let n = self.ids@.len();
        &&& self.group_rows@.len() == n * self.groups
        &&& self.scales@.len() == n
        &&& self.replica@.len() == n
        &&& self.vectors@.len() == n * self.width
    }

    /// No rows.
    pub fn new(groups: usize, width: usize) -> (b: RowBatch)
        ensures
            b.wf(),
            b@ == Seq::<Row>::empty(),
            b.groups == groups,
            b.width == width,
    {
        let b = RowBatch {
            groups,
            width,
            group_rows: Vec::new(),
            scales: Vec::new(),
            ids: Vec::new(),
            replica: Vec::new(),
            vectors: Vec::new(),
        };
        assert(0 * groups == 0 && 0 * width == 0) by (nonlinear_arith);
        assert(b@ =~= Seq::<Row>::empty());
        b
    }

    /// Number of rows.
    pub fn len(&self) -> (n: usize)
        ensures
            n == self@.len(),
    {
        self.ids.len()
    }

    /// True if there are no rows.
    pub fn is_empty(&self) -> (r: bool)
        ensures
            r == (self@.len() == 0),
    {
        self.ids.len() == 0
    }

    /// Appends a row.
    pub fn push_row(&mut self, group_row: &[u8], scale: u32, id: u64, is_replica: bool, vector: &[u32])
        requires
            old(self).wf(),
            group_row@.len() == old(self).groups,
            vector@.len() == old(self).width,
        ensures
            final(self).wf(),
            final(self).groups == old(self).groups,
            final(self).width == old(self).width,
            final(self)@ == old(self)@.push(
                (Row { codes: group_row@, scale, id, replica: is_replica, vector: vector@ }),
            ),
    {
        let ghost n = self.ids@.len() as int;
        proof {
            lemma_row_append(self.group_rows@, group_row@, self.groups as int, n);
            lemma_row_append(self.vectors@, vector@, self.width as int, n);
        }
        self.group_rows.extend_from_slice(group_row);
        self.scales.push(scale);
        self.ids.push(id);
        self.replica.push(is_replica);
        self.vectors.extend_from_slice(vector);
        proof {
            let row = Row { codes: group_row@, scale, id, replica: is_replica, vector: vector@ };
            let want = old(self)@.push(row);
            assert(self.group_rows@ =~= old(self).group_rows@ + group_row@);
            assert(self.vectors@ =~= old(self).vectors@ + vector@);
            assert forall|i: int| 0 <= i < n + 1 implies self@[i] == want[i] by {
                if i < n {
                    assert(row_of(self.group_rows@, i, self.groups as int) == row_of(
                        old(self).group_rows@,
                        i,
                        self.groups as int,
                    ));
                    assert(row_of(self.vectors@, i, self.width as int) == row_of(
                        old(self).vectors@,
                        i,
                        self.width as int,
                    ));
                }
            }
            assert(self@ =~= want);
        }
    }

    /// The group bytes of row `i`.
    pub fn group_row(&self, i: usize) -> (r: &[u8])
        requires
            self.wf(),
            i < self@.len(),
        ensures
            r@ == self@[i as int].codes,
            r@.len() == self.groups,
    {
        assert(self.group_rows.len() == self.group_rows@.len());
        proof {
            lemma_row_bounds(i as int, self.ids@.len() as int, self.groups as int);
        }
        let at: usize = i * self.groups;
        slice_subrange(self.group_rows.as_slice(), at, at + self.groups)
    }

    /// The stored vector of row `i`, empty if vectors are not stored.
    pub fn vector(&self, i: usize) -> (r: &[u32])
        requires
            self.wf(),
            i < self@.len(),
        ensures
            r@ == self@[i as int].vector,
            r@.len() == self.width,
    {
        assert(self.vectors.len() == self.vectors@.len());
        proof {
            lemma_row_bounds(i as int, self.ids@.len() as int, self.width as int);
        }
        let at: usize = i * self.width;
        slice_subrange(self.vectors.as_slice(), at, at + self.width)
    }

    /// Appends row `i` of `from`, as a primary or a replica.
    pub fn push_from(&mut self, from: &RowBatch, i: usize, is_replica: bool)
        requires
            old(self).wf(),
            from.wf(),
            from.groups == old(self).groups,
            from.width == old(self).width,
            i < from@.len(),
        ensures
            final(self).wf(),
            final(self).groups == old(self).groups,
            final(self).width == old(self).width,
            final(self)@ == old(self)@.push((Row { replica: is_replica, ..from@[i as int] })),
    {
        self.push_row(from.group_row(i), from.scales[i], from.ids[i], is_replica, from.vector(i));
    }
}

/// Rows that hold the first copy of their vector.
pub open spec fn primary_count(rows: Seq<Row>) -> int
    decreases rows.len(),
{
    if rows.len() == 0 {
        0
    } else {
        primary_count(rows.drop_last()) + (if rows.last().replica {
            0int
        } else {
            1int
        })
    }
}

/// There are no more primaries than rows.
pub proof fn lemma_primary_count_bound(rows: Seq<Row>)
    ensures
        0 <= primary_count(rows) <= rows.len(),
    decreases rows.len(),
{
    if rows.len() > 0 {
        lemma_primary_count_bound(rows.drop_last());
    }
}

/// Primaries of consecutive rows add up.
pub proof fn lemma_primary_count_add(a: Seq<Row>, b: Seq<Row>)
    ensures
        primary_count(a + b) == primary_count(a) + primary_count(b),
    decreases b.len(),
{
    if b.len() == 0 {
        assert(a + b =~= a);
    } else {
        assert((a + b).drop_last() =~= a + b.drop_last());
        lemma_primary_count_add(a, b.drop_last());
    }
}

/// The primaries of `rows`, in order.
pub open spec fn primary_rows(rows: Seq<Row>) -> Seq<Row>
    decreases rows.len(),
{
    if rows.len() == 0 {
        Seq::empty()
    } else if rows.last().replica {
        primary_rows(rows.drop_last())
    } else {
        primary_rows(rows.drop_last()).push(rows.last())
    }
}

/// The ids of the replicas of `rows`, in order.
pub open spec fn replica_ids(rows: Seq<Row>) -> Seq<u64>
    decreases rows.len(),
{
    if rows.len() == 0 {
        Seq::empty()
    } else if rows.last().replica {
        replica_ids(rows.drop_last()).push(rows.last().id)
    } else {
        replica_ids(rows.drop_last())
    }
}

impl RowBatch {
    /// Parts primaries from replicas: the primaries' rows, and the replicas'
    /// ids.
    pub fn part_replicas(&self) -> (r: (RowBatch, Vec<u64>))
        requires
            self.wf(),
        ensures
            r.0.wf(),
            r.0.groups == self.groups,
            r.0.width == self.width,
            r.0@ == primary_rows(self@),
            r.1@ == replica_ids(self@),
    {
        let mut primaries: RowBatch = RowBatch::new(self.groups, self.width);
        let mut refresh: Vec<u64> = Vec::new();
        let mut i: usize = 0;
        assert(self@.take(0) =~= Seq::<Row>::empty());
        while i < self.ids.len()
            invariant
                self.wf(),
                i <= self.ids@.len(),
                primaries.wf(),
                primaries.groups == self.groups,
                primaries.width == self.width,
                primaries@ == primary_rows(self@.take(i as int)),
                refresh@ == replica_ids(self@.take(i as int)),
            decreases self.ids.len() - i,
        {
            proof {
                assert(self@.take(i + 1).drop_last() =~= self@.take(i as int));
                assert(self@.take(i + 1).last() == self@[i as int]);
            }
            if self.replica[i] {
                refresh.push(self.ids[i]);
            } else {
                primaries.push_from(self, i, false);
            }
            i = i + 1;
        }
        assert(self@.take(i as int) =~= self@);
        (primaries, refresh)
    }
}

/// The rows of `rows` that `places` sends to `p`, as primaries.
pub open spec fn sent_to(rows: Seq<Row>, places: Seq<u32>, p: int) -> Seq<Row>
    decreases rows.len(),
{
    if rows.len() == 0 {
        Seq::empty()
    } else if places[rows.len() - 1] == p {
        sent_to(rows.drop_last(), places, p).push(Row { replica: false, ..rows.last() })
    } else {
        sent_to(rows.drop_last(), places, p)
    }
}

/// The copies among `list[..k]` that go to `p`: the first entry of a list
/// takes the primary, the others take replicas.
pub open spec fn copies_to(row: Row, list: Seq<u32>, p: int, k: int) -> Seq<Row>
    decreases k,
{
    if k <= 0 {
        Seq::empty()
    } else if list[k - 1] == p {
        copies_to(row, list, p, k - 1).push(Row { replica: k > 1, ..row })
    } else {
        copies_to(row, list, p, k - 1)
    }
}

/// The copies of `rows` that `lists` sends to `p`.
pub open spec fn spread_to(rows: Seq<Row>, lists: Seq<Vec<u32>>, p: int) -> Seq<Row>
    decreases rows.len(),
{
    if rows.len() == 0 {
        Seq::empty()
    } else {
        let list = lists[rows.len() - 1]@;
        spread_to(rows.drop_last(), lists, p) + copies_to(rows.last(), list, p, list.len() as int)
    }
}

/// Batches of the same shape.
pub open spec fn shaped(batches: Seq<RowBatch>, groups: usize, width: usize) -> bool {
    forall|p: int|
        0 <= p < batches.len() ==> (#[trigger] batches[p]).wf() && batches[p].groups == groups
            && batches[p].width == width
}

/// `n` batches without rows.
pub(crate) fn empty_batches(n: usize, groups: usize, width: usize) -> (r: Vec<RowBatch>)
    ensures
        r@.len() == n,
        shaped(r@, groups, width),
        forall|p: int| 0 <= p < n ==> (#[trigger] r@[p])@ == Seq::<Row>::empty(),
{
    let mut r: Vec<RowBatch> = Vec::new();
    let mut p: usize = 0;
    while p < n
        invariant
            p <= n,
            r@.len() == p,
            shaped(r@, groups, width),
            forall|k: int| 0 <= k < p ==> (#[trigger] r@[k])@ == Seq::<Row>::empty(),
        decreases n - p,
    {
        r.push(RowBatch::new(groups, width));
        p = p + 1;
    }
    r
}

impl RowBatch {
    /// Groups the rows by the place that `places` gives each, as primaries.
    pub fn distribute(&self, places: &[u32], n_places: usize) -> (r: Vec<RowBatch>)
        requires
            self.wf(),
            places@.len() >= self@.len(),
            forall|i: int| 0 <= i < self@.len() ==> #[trigger] places@[i] < n_places,
        ensures
            r@.len() == n_places,
            shaped(r@, self.groups, self.width),
            forall|p: int| 0 <= p < n_places ==> (#[trigger] r@[p])@ == sent_to(self@, places@, p),
    {
        let mut out: Vec<RowBatch> = empty_batches(n_places, self.groups, self.width);
        let mut i: usize = 0;
        assert(self@.take(0) =~= Seq::<Row>::empty());
        while i < self.ids.len()
            invariant
                self.wf(),
                places@.len() >= self@.len(),
                forall|k: int| 0 <= k < self@.len() ==> #[trigger] places@[k] < n_places,
                i <= self.ids@.len(),
                out@.len() == n_places,
                shaped(out@, self.groups, self.width),
                forall|p: int|
                    0 <= p < n_places ==> (#[trigger] out@[p])@ == sent_to(
                        self@.take(i as int),
                        places@,
                        p,
                    ),
            decreases self.ids.len() - i,
        {
            proof {
                assert(self@.take(i + 1).drop_last() =~= self@.take(i as int));
                assert(self@.take(i + 1).last() == self@[i as int]);
                assert(places@[i as int] < n_places);
                assert(out@[places@[i as int] as int].wf());
            }
            let p: usize = places[i] as usize;
            let ghost before = out@;
            out[p].push_from(self, i, false);
            proof {
                assert forall|q: int| 0 <= q < n_places implies (#[trigger] out@[q])@ == sent_to(
                    self@.take(i + 1),
                    places@,
                    q,
                ) by {
                    assert(before[q]@ == sent_to(self@.take(i as int), places@, q));
                }
                assert(shaped(out@, self.groups, self.width)) by {
                    assert forall|q: int| 0 <= q < out@.len() implies (#[trigger] out@[q]).wf()
                        && out@[q].groups == self.groups && out@[q].width == self.width by {
                        assert(before[q].wf());
                    }
                }
            }
            i = i + 1;
        }
        assert(self@.take(i as int) =~= self@);
        out
    }

    /// Groups copies of the rows by the places that `lists` gives each: the
    /// first place of a list takes the primary, the others take replicas.
    pub fn distribute_copies(&self, lists: &Vec<Vec<u32>>, n_places: usize) -> (r: Vec<RowBatch>)
        requires
            self.wf(),
            lists@.len() >= self@.len(),
            forall|i: int, d: int|
                0 <= i < self@.len() && 0 <= d < lists@[i]@.len() ==> #[trigger] lists@[i]@[d]
                    < n_places,
        ensures
            r@.len() == n_places,
            shaped(r@, self.groups, self.width),
            forall|p: int| 0 <= p < n_places ==> (#[trigger] r@[p])@ == spread_to(self@, lists@, p),
    {
        let mut out: Vec<RowBatch> = empty_batches(n_places, self.groups, self.width);
        let mut i: usize = 0;
        assert(self@.take(0) =~= Seq::<Row>::empty());
        while i < self.ids.len()
            invariant
                self.wf(),
                lists@.len() >= self@.len(),
                forall|k: int, d: int|
                    0 <= k < self@.len() && 0 <= d < lists@[k]@.len() ==> #[trigger] lists@[k]@[d]
                        < n_places,
                i <= self.ids@.len(),
                out@.len() == n_places,
                shaped(out@, self.groups, self.width),
                forall|p: int|
                    0 <= p < n_places ==> (#[trigger] out@[p])@ == spread_to(
                        self@.take(i as int),
                        lists@,
                        p,
                    ),
            decreases self.ids.len() - i,
        {
            let list: &Vec<u32> = &lists[i];
            let mut d: usize = 0;
            assert forall|p: int| 0 <= p < n_places implies (#[trigger] out@[p])@ == spread_to(
                self@.take(i as int),
                lists@,
                p,
            ) + copies_to(self@[i as int], list@, p, 0) by {
                assert(out@[p]@ =~= out@[p]@ + Seq::<Row>::empty());
            }
            while d < list.len()
                invariant
                    self.wf(),
                    lists@.len() >= self@.len(),
                    i < self.ids@.len(),
                    list@ == lists@[i as int]@,
                    forall|k: int, e: int|
                        0 <= k < self@.len() && 0 <= e < lists@[k]@.len()
                            ==> #[trigger] lists@[k]@[e] < n_places,
                    d <= list@.len(),
                    out@.len() == n_places,
                    shaped(out@, self.groups, self.width),
                    forall|p: int|
                        0 <= p < n_places ==> (#[trigger] out@[p])@ == spread_to(
                            self@.take(i as int),
                            lists@,
                            p,
                        ) + copies_to(self@[i as int], list@, p, d as int),
                decreases list.len() - d,
            {
                proof {
                    assert(lists@[i as int]@[d as int] < n_places);
                    assert(out@[list@[d as int] as int].wf());
                }
                let p: usize = list[d] as usize;
                let ghost before = out@;
                out[p].push_from(self, i, d > 0);
                proof {
                    assert forall|q: int| 0 <= q < n_places implies (#[trigger] out@[q])@ == spread_to(
                        self@.take(i as int),
                        lists@,
                        q,
                    ) + copies_to(self@[i as int], list@, q, d + 1) by {
                        assert(before[q]@ == spread_to(self@.take(i as int), lists@, q) + copies_to(
                            self@[i as int],
                            list@,
                            q,
                            d as int,
                        ));
                        assert(out@[q]@ =~= spread_to(self@.take(i as int), lists@, q) + copies_to(
                            self@[i as int],
                            list@,
                            q,
                            d + 1,
                        ));
                    }
                    assert(shaped(out@, self.groups, self.width)) by {
                        assert forall|q: int| 0 <= q < out@.len() implies (#[trigger] out@[q]).wf()
                            && out@[q].groups == self.groups && out@[q].width == self.width by {
                            assert(before[q].wf());
                        }
                    }
                }
                d = d + 1;
            }
            proof {
                assert(self@.take(i + 1).drop_last() =~= self@.take(i as int));
                assert(self@.take(i + 1).last() == self@[i as int]);
            }
            i = i + 1;
        }
        assert(self@.take(i as int) =~= self@);
        out
    }
}

/// Rows that the first `m` places receive.
pub open spec fn received(rows: Seq<Row>, places: Seq<u32>, m: int) -> int
    decreases m,
{
    if m <= 0 {
        0
    } else {
        received(rows, places, m - 1) + sent_to(rows, places, m - 1).len()
    }
}

proof fn lemma_received_step(rows: Seq<Row>, places: Seq<u32>, m: int)
    requires
        rows.len() > 0,
    ensures
        received(rows, places, m) == received(rows.drop_last(), places, m) + (if places[rows.len() - 1] < m {
            1int
        } else {
            0int
        }),
    decreases m,
{
    if m > 0 {
        lemma_received_step(rows, places, m - 1);
    }
}

/// Distribution keeps every row exactly once.
pub proof fn law_distribute_keeps_rows(rows: Seq<Row>, places: Seq<u32>, m: int)
    requires
        0 <= m,
        places.len() >= rows.len(),
        forall|i: int| 0 <= i < rows.len() ==> #[trigger] places[i] < m,
    ensures
        received(rows, places, m) == rows.len(),
        forall|i: int|
            0 <= i < rows.len() ==> sent_to(rows, places, places[i] as int).contains(
                Row { replica: false, ..#[trigger] rows[i] },
            ),
    decreases rows.len(),
{
    if rows.len() == 0 {
        lemma_received_none(rows, places, m);
    } else {
        let init = rows.drop_last();
        law_distribute_keeps_rows(init, places, m);
        lemma_received_step(rows, places, m);
        assert(places[rows.len() - 1] < m);
        assert forall|i: int| 0 <= i < rows.len() implies sent_to(rows, places, places[i] as int).contains(
            Row { replica: false, ..#[trigger] rows[i] },
        ) by {
            let want = Row { replica: false, ..rows[i] };
            let all = sent_to(rows, places, places[i] as int);
            if i == rows.len() - 1 {
                assert(all[all.len() - 1] == want);
            } else {
                assert(init[i] == rows[i]);
                let part = sent_to(init, places, places[i] as int);
                let k = choose|k: int| 0 <= k < part.len() && part[k] == want;
                assert(all[k] == want);
            }
        }
    }
}

proof fn lemma_received_none(rows: Seq<Row>, places: Seq<u32>, m: int)
    requires
        rows.len() == 0,
    ensures
        received(rows, places, m) == 0,
    decreases m,
{
    if m > 0 {
        lemma_received_none(rows, places, m - 1);
    }
}

} // verus!
