//! Laying out gathered rows as a partitioned segment.
use vstd::prelude::*;
use crate::lire::MAX_ASSIGNMENT_COPIES;
use crate::math::{ceil_div, lemma_flat_bound, lemma_flat_index};
use crate::pack::{groups, n_byte_groups, Layout};
use crate::sections::section_start;
use crate::segment::{count_blocks_before, lemma_rows_before_monotone, primaries, rows_before, Segment};
use crate::sort::{
    lemma_map_multiset, lemma_same_elements, lemma_sorted_pairs, mapped, pair_leq, sort_pairs, sorted_pairs,
};
use crate::tvdm::{finite_positive, section_layout, Shape};

verus! {

/// One stored copy of a row.
#[derive(Clone, Copy, Debug, PartialEq, Eq, Structural)]
pub struct Entry {
    pub partition: u32,
    pub row: usize,
    pub replica: bool,
}

/// Which partition each row goes to, and where its further copies go.
pub struct Placement {
    /// Bit patterns, `nlist * dim`.
    pub centroids: Vec<u32>,
    pub nlist: usize,
    pub assignments: Vec<u32>,
    pub replicas: Vec<Vec<u32>>,
}

/// Further copies lie in different partitions, apart from the first copy's.
pub open spec fn spread(replicas: Seq<u32>, primary: u32) -> bool {
    &&& replicas.len() < MAX_ASSIGNMENT_COPIES
    &&& replicas.no_duplicates()
    &&& !replicas.contains(primary)
}

impl Placement {
    /// Every partition named exists, and the copies of a row lie in different
    /// ones, no more than [`MAX_ASSIGNMENT_COPIES`] in all.
    pub open spec fn wf(self, n: int, dim: int) -> bool {
        &&& 1 <= self.nlist <= 0xFFFF_FFFF
        &&& self.centroids@.len() == self.nlist * dim
        &&& self.assignments@.len() == n
        &&& self.replicas@.len() == n
        &&& forall|i: int| 0 <= i < n ==> (#[trigger] self.assignments@[i]) < self.nlist
        &&& forall|i: int, k: int|
            0 <= i < n && 0 <= k < self.replicas@[i]@.len() ==> (#[trigger] self.replicas@[i]@[k])
                < self.nlist
        &&& forall|i: int|
            0 <= i < n ==> spread((#[trigger] self.replicas@[i])@, self.assignments@[i])
    }
}

/// The further copies of row `i`.
pub open spec fn replica_entries(targets: Seq<u32>, i: int) -> Seq<Entry> {
    Seq::new(targets.len(), |k: int| Entry { partition: targets[k], row: i as usize, replica: true })
}

/// All copies of the first `n` rows: each row's first copy, then its further
/// copies.
pub open spec fn listed(assignments: Seq<u32>, replicas: Seq<Vec<u32>>, n: int) -> Seq<Entry>
    decreases n,
{
    if n <= 0 {
        Seq::empty()
    } else {
        listed(assignments, replicas, n - 1).push(
            Entry { partition: assignments[n - 1], row: (n - 1) as usize, replica: false },
        ) + replica_entries(replicas[n - 1]@, n - 1)
    }
}

/// The listed copies of one row lie in different partitions.
pub proof fn law_copies_lie_apart(p: Placement, n: int, dim: int, i: int, j: int)
    requires
        p.wf(n, dim),
        0 <= i < j < listed(p.assignments@, p.replicas@, n).len(),
        listed(p.assignments@, p.replicas@, n)[i].row == listed(p.assignments@, p.replicas@, n)[j].row,
        n <= usize::MAX,
    ensures
        listed(p.assignments@, p.replicas@, n)[i].partition != listed(p.assignments@, p.replicas@, n)[j].partition,
{
    lemma_listed_apart(p.assignments@, p.replicas@, n);
}

proof fn lemma_listed_apart(assignments: Seq<u32>, replicas: Seq<Vec<u32>>, n: int)
    requires
        0 <= n <= assignments.len(),
        n <= usize::MAX,
        replicas.len() == assignments.len(),
        forall|i: int| 0 <= i < n ==> spread((#[trigger] replicas[i])@, assignments[i]),
    ensures
        forall|i: int|
            0 <= i < listed(assignments, replicas, n).len() ==> 0 <= (#[trigger] listed(
                assignments,
                replicas,
                n,
            )[i]).row < n,
        forall|i: int, j: int|
            0 <= i < j < listed(assignments, replicas, n).len() && (#[trigger] listed(
                assignments,
                replicas,
                n,
            )[i]).row == (#[trigger] listed(assignments, replicas, n)[j]).row ==> listed(
                assignments,
                replicas,
                n,
            )[i].partition != listed(assignments, replicas, n)[j].partition,
    decreases n,
{
    if n > 0 {
        lemma_listed_apart(assignments, replicas, n - 1);
        let before = listed(assignments, replicas, n - 1);
        let r = replicas[n - 1]@;
        let l = listed(assignments, replicas, n);
        let m = before.len() as int;
        assert(spread(r, assignments[n - 1]));
        assert(l == before.push(Entry { partition: assignments[n - 1], row: (n - 1) as usize, replica: false })
            + replica_entries(r, n - 1));
        assert forall|i: int| 0 <= i < l.len() implies 0 <= (#[trigger] l[i]).row < n && (i >= m ==> l[i].row
            == n - 1) by {
            if i < m {
                assert(l[i] == before[i]);
            }
        }
        assert forall|i: int, j: int| 0 <= i < j < l.len() && (#[trigger] l[i]).row == (
        #[trigger] l[j]).row implies l[i].partition != l[j].partition by {
            if j < m {
                assert(l[i] == before[i] && l[j] == before[j]);
            } else if i < m {
                assert(l[i] == before[i]);
            } else if i == m {
                assert(l[j].partition == r[j - m - 1]);
                assert(r.contains(r[j - m - 1]));
            } else {
                assert(l[i].partition == r[i - m - 1] && l[j].partition == r[j - m - 1]);
            }
        }
    }
}

/// The listed copies of row `i`.
pub open spec fn copy_count(list: Seq<Entry>, i: int) -> int
    decreases list.len(),
{
    if list.len() == 0 {
        0
    } else {
        copy_count(list.drop_last(), i) + (if list.last().row == i {
            1int
        } else {
            0int
        })
    }
}

proof fn lemma_copy_count_add(a: Seq<Entry>, b: Seq<Entry>, i: int)
    ensures
        copy_count(a + b, i) == copy_count(a, i) + copy_count(b, i),
    decreases b.len(),
{
    if b.len() == 0 {
        assert(a + b =~= a);
    } else {
        assert((a + b).drop_last() =~= a + b.drop_last());
        lemma_copy_count_add(a, b.drop_last(), i);
    }
}

proof fn lemma_copy_count_same(list: Seq<Entry>, row: usize, i: int)
    requires
        forall|k: int| 0 <= k < list.len() ==> (#[trigger] list[k]).row == row,
    ensures
        copy_count(list, i) == if row == i {
            list.len() as int
        } else {
            0
        },
    decreases list.len(),
{
    if list.len() > 0 {
        let init = list.drop_last();
        assert forall|k: int| 0 <= k < init.len() implies (#[trigger] init[k]).row == row by {
            assert(init[k] == list[k]);
        }
        lemma_copy_count_same(init, row, i);
        assert(list[list.len() - 1].row == row);
    }
}

proof fn lemma_copy_count(assignments: Seq<u32>, replicas: Seq<Vec<u32>>, n: int, i: int)
    requires
        0 <= n <= usize::MAX,
        0 <= i,
    ensures
        copy_count(listed(assignments, replicas, n), i) == if i < n {
            1 + replicas[i]@.len()
        } else {
            0
        },
    decreases n,
{
    if n > 0 {
        lemma_copy_count(assignments, replicas, n - 1, i);
        let before = listed(assignments, replicas, n - 1);
        let first = Entry { partition: assignments[n - 1], row: (n - 1) as usize, replica: false };
        let more = replica_entries(replicas[n - 1]@, n - 1);
        lemma_copy_count_add(before.push(first), more, i);
        assert(before.push(first).drop_last() =~= before);
        lemma_copy_count_same(more, (n - 1) as usize, i);
    }
}

/// A row has at least one copy and at most [`MAX_ASSIGNMENT_COPIES`].
pub proof fn law_copies_are_bounded(p: Placement, n: int, dim: int, i: int)
    requires
        p.wf(n, dim),
        0 <= i < n <= usize::MAX,
    ensures
        1 <= copy_count(listed(p.assignments@, p.replicas@, n), i) <= MAX_ASSIGNMENT_COPIES,
{
    lemma_copy_count(p.assignments@, p.replicas@, n, i);
    assert(spread(p.replicas@[i]@, p.assignments@[i]));
}

/// Partition and place of every listed copy.
pub open spec fn entry_keys(list: Seq<Entry>) -> Seq<(u64, u64)> {
    Seq::new(list.len(), |j: int| (list[j].partition as u64, j as u64))
}

/// The copies in slot order: by partition, and within one in listing order.
pub open spec fn emission(list: Seq<Entry>) -> Seq<Entry> {
    mapped(sorted_pairs(entry_keys(list)), |k: (u64, u64)| list[k.1 as int])
}

/// Copies that go to partition `p`.
pub open spec fn count_in(list: Seq<Entry>, p: int) -> int
    decreases list.len(),
{
    if list.len() == 0 {
        0
    } else {
        count_in(list.drop_last(), p) + (if list.last().partition == p {
            1int
        } else {
            0int
        })
    }
}

/// The copies of every partition, counted.
pub open spec fn counts_of(list: Seq<Entry>, nlist: int) -> Seq<u64> {
    Seq::new(nlist as nat, |p: int| count_in(list, p) as u64)
}

/// Every copy goes to a partition that exists.
pub open spec fn in_range(list: Seq<Entry>, nlist: int, n: int) -> bool {
    forall|j: int| 0 <= j < list.len() ==> (#[trigger] list[j]).partition < nlist && list[j].row < n
}

/// Row indices of a list of copies.
pub open spec fn rows_of(list: Seq<Entry>) -> Seq<usize> {
    Seq::new(list.len(), |j: int| list[j].row)
}

/// Replica marks of a list of copies.
pub open spec fn marks_of(list: Seq<Entry>) -> Seq<bool> {
    Seq::new(list.len(), |j: int| list[j].replica)
}

/// Rows of width `w`, picked by index.
pub open spec fn picked<T>(src: Seq<T>, w: int, idx: Seq<usize>) -> Seq<T> {
    Seq::new((idx.len() * w) as nat, |q: int| src[idx[q / w] * w + q % w])
}

/// Picks rows of width `w` by index.
pub fn pick_rows<T: Copy>(src: &Vec<T>, w: usize, idx: &Vec<usize>, n: usize) -> (out: Vec<T>)
    requires
        src@.len() == n * w,
        forall|j: int| 0 <= j < idx@.len() ==> (#[trigger] idx@[j]) < n,
    ensures
        out@ == picked(src@, w as int, idx@),
{
    let total: usize = src.len();
    let mut out: Vec<T> = Vec::new();
    let mut j: usize = 0;
    assert(0 * w == 0) by (nonlinear_arith);
    while j < idx.len()
        invariant
            j <= idx.len(),
            total == src@.len(),
            src@.len() == n * w,
            forall|i: int| 0 <= i < idx@.len() ==> (#[trigger] idx@[i]) < n,
            out@.len() == j * w,
            forall|q: int| 0 <= q < j * w ==> out@[q] == src@[idx@[q / w as int] * w + q % w as int],
        decreases idx.len() - j,
    {
        let row: usize = idx[j];
        let mut k: usize = 0;
        while k < w
            invariant
                j < idx.len(),
                k <= w,
                row == idx@[j as int],
                row < n,
                total == src@.len(),
                src@.len() == n * w,
                out@.len() == j * w + k,
                forall|q: int|
                    0 <= q < j * w + k ==> out@[q] == src@[idx@[q / w as int] * w + q % w as int],
            decreases w - k,
        {
            proof {
                lemma_flat_bound(row as int, k as int, n as int, w as int);
                lemma_flat_index(row as int, k as int, w as int);
                lemma_flat_index(j as int, k as int, w as int);
            }
            out.push(src[row * w + k]);
            k = k + 1;
        }
        proof {
            assert((j + 1) * w == j * w + w) by (nonlinear_arith);
        }
        j = j + 1;
    }
    assert(out@ =~= picked(src@, w as int, idx@));
    out
}

/// Lists all copies.
fn list_entries(assignments: &Vec<u32>, replicas: &Vec<Vec<u32>>) -> (list: Vec<Entry>)
    requires
        assignments@.len() == replicas@.len(),
    ensures
        list@ == listed(assignments@, replicas@, assignments@.len() as int),
{
    let mut list: Vec<Entry> = Vec::new();
    let mut i: usize = 0;
    while i < assignments.len()
        invariant
            i <= assignments.len(),
            assignments@.len() == replicas@.len(),
            list@ == listed(assignments@, replicas@, i as int),
        decreases assignments.len() - i,
    {
        list.push(Entry { partition: assignments[i], row: i, replica: false });
        let ghost before = list@;
        let mut k: usize = 0;
        assert(list@ =~= before + replica_entries(replicas@[i as int]@, i as int).take(0));
        while k < replicas[i].len()
            invariant
                i < replicas@.len(),
                k <= replicas@[i as int]@.len(),
                list@ == before + replica_entries(replicas@[i as int]@, i as int).take(k as int),
            decreases replicas@[i as int]@.len() - k,
        {
            list.push(Entry { partition: replicas[i][k], row: i, replica: true });
            k = k + 1;
            assert(list@ =~= before + replica_entries(replicas@[i as int]@, i as int).take(k as int));
        }
        assert(replica_entries(replicas@[i as int]@, i as int).take(k as int) =~= replica_entries(
            replicas@[i as int]@,
            i as int,
        ));
        i = i + 1;
    }
    list
}

/// Sorts the copies into slot order.
fn emit(list: &Vec<Entry>) -> (out: Vec<Entry>)
    ensures
        out@ == emission(list@),
        out@.len() == list@.len(),
{
    let mut keys: Vec<(u64, u64)> = Vec::new();
    let mut j: usize = 0;
    while j < list.len()
        invariant
            j <= list.len(),
            keys@ == entry_keys(list@).take(j as int),
        decreases list.len() - j,
    {
        keys.push((list[j].partition as u64, j as u64));
        j = j + 1;
        assert(keys@ =~= entry_keys(list@).take(j as int));
    }
    assert(keys@ =~= entry_keys(list@));
    let order: Vec<(u64, u64)> = sort_pairs(&keys);
    let len: usize = list.len();
    let mut out: Vec<Entry> = Vec::new();
    let mut k: usize = 0;
    proof {
        lemma_sorted_pairs(keys@);
        lemma_emission_source(list@);
    }
    while k < order.len()
        invariant
            k <= order.len(),
            order@ == sorted_pairs(entry_keys(list@)),
            order@.len() == list@.len(),
            forall|i: int| 0 <= i < order@.len() ==> (#[trigger] order@[i]).1 < list@.len(),
            out@ == emission(list@).take(k as int),
        decreases order.len() - k,
    {
        assert(order@[k as int].1 < list@.len());
        out.push(list[order[k].1 as usize]);
        k = k + 1;
        assert(out@ =~= emission(list@).take(k as int));
    }
    assert(out@ =~= emission(list@));
    out
}

/// Sorted keys point into the list.
proof fn lemma_emission_source(list: Seq<Entry>)
    requires
        list.len() <= u64::MAX,
    ensures
        sorted_pairs(entry_keys(list)).len() == list.len(),
        emission(list).len() == list.len(),
        forall|i: int|
            0 <= i < list.len() ==> {
                &&& (#[trigger] sorted_pairs(entry_keys(list))[i]).1 < list.len()
                &&& list[sorted_pairs(entry_keys(list))[i].1 as int].partition == sorted_pairs(
                    entry_keys(list),
                )[i].0
                &&& emission(list)[i] == list[sorted_pairs(entry_keys(list))[i].1 as int]
            },
{
    let keys = entry_keys(list);
    let order = sorted_pairs(keys);
    lemma_sorted_pairs(keys);
    lemma_same_elements(order, keys);
    assert forall|i: int| 0 <= i < list.len() implies {
        &&& (#[trigger] order[i]).1 < list.len()
        &&& list[order[i].1 as int].partition == order[i].0
        &&& emission(list)[i] == list[order[i].1 as int]
    } by {
        assert(order.contains(order[i]));
        assert(keys.contains(order[i]));
        let j = choose|j: int| 0 <= j < keys.len() && keys[j] == order[i];
        assert(keys[j] == (list[j].partition as u64, j as u64));
    }
}

/// Slot order rearranges the listed copies, and puts lower partitions first.
pub proof fn law_emission(list: Seq<Entry>)
    requires
        list.len() <= u64::MAX,
    ensures
        emission(list).len() == list.len(),
        emission(list).to_multiset() == list.to_multiset(),
        forall|i: int, j: int|
            0 <= i < j < list.len() ==> (#[trigger] emission(list)[i]).partition <= (#[trigger] emission(
                list,
            )[j]).partition,
{
    let keys = entry_keys(list);
    let order = sorted_pairs(keys);
    lemma_emission_source(list);
    lemma_sorted_pairs(keys);
    let f = |k: (u64, u64)| list[k.1 as int];
    lemma_map_multiset(order, keys, f);
    assert(mapped(keys, f) =~= list);
    assert(mapped(order, f) =~= emission(list));
    assert forall|i: int, j: int| 0 <= i < j < list.len() implies (#[trigger] emission(list)[i]).partition
        <= (#[trigger] emission(list)[j]).partition by {
        assert(pair_leq(order[i], order[j]));
    }
}

proof fn lemma_count_bound(list: Seq<Entry>, p: int)
    ensures
        0 <= count_in(list, p) <= list.len(),
    decreases list.len(),
{
    if list.len() > 0 {
        lemma_count_bound(list.drop_last(), p);
    }
}

/// Copies that go to a partition below `p`.
pub open spec fn count_below(list: Seq<Entry>, p: int) -> int
    decreases list.len(),
{
    if list.len() == 0 {
        0
    } else {
        count_below(list.drop_last(), p) + (if list.last().partition < p {
            1int
        } else {
            0int
        })
    }
}

/// The counts before a partition add up to the copies below it.
proof fn lemma_counts_below(list: Seq<Entry>, nlist: int, p: int)
    requires
        0 <= p <= nlist,
        list.len() <= u64::MAX,
    ensures
        rows_before(counts_of(list, nlist), p) == count_below(list, p),
    decreases p,
{
    if p > 0 {
        lemma_counts_below(list, nlist, p - 1);
        lemma_count_bound(list, p - 1);
        lemma_below_step(list, p - 1);
    } else {
        lemma_below_zero(list);
    }
}

proof fn lemma_below_step(list: Seq<Entry>, p: int)
    ensures
        count_below(list, p + 1) == count_below(list, p) + count_in(list, p),
    decreases list.len(),
{
    if list.len() > 0 {
        lemma_below_step(list.drop_last(), p);
    }
}

proof fn lemma_below_zero(list: Seq<Entry>)
    ensures
        count_below(list, 0) == 0,
    decreases list.len(),
{
    if list.len() > 0 {
        lemma_below_zero(list.drop_last());
    }
}

/// All copies are below the number of partitions.
proof fn lemma_below_all(list: Seq<Entry>, nlist: int)
    requires
        forall|j: int| 0 <= j < list.len() ==> (#[trigger] list[j]).partition < nlist,
    ensures
        count_below(list, nlist) == list.len(),
    decreases list.len(),
{
    if list.len() > 0 {
        let a = list.drop_last();
        assert forall|j: int| 0 <= j < a.len() implies (#[trigger] a[j]).partition < nlist by {
            assert(a[j] == list[j]);
        }
        assert(list[list.len() - 1].partition < nlist);
        lemma_below_all(a, nlist);
    }
}

/// In a list that is sorted by partition, the copies below `p` come first.
proof fn lemma_below_is_prefix(list: Seq<Entry>, p: int, j: int)
    requires
        forall|i: int, k: int|
            0 <= i < k < list.len() ==> (#[trigger] list[i]).partition <= (#[trigger] list[k]).partition,
        0 <= j < list.len(),
    ensures
        list[j].partition < p <==> j < count_below(list, p),
        0 <= count_below(list, p) <= list.len(),
    decreases list.len(),
{
    let a = list.drop_last();
    let n = list.len() - 1;
    assert forall|i: int, k: int| 0 <= i < k < a.len() implies (#[trigger] a[i]).partition <= (#[trigger] a[k]).partition by {
        assert(a[i] == list[i] && a[k] == list[k]);
    }
    if n > 0 {
        let m = if j < n {
            j
        } else {
            n - 1
        };
        lemma_below_is_prefix(a, p, m);
        lemma_below_is_prefix(a, p, n - 1);
        assert(a[m] == list[m]);
        assert(a[n - 1] == list[n - 1]);
        assert(list[n - 1].partition <= list[n].partition);
        if j < n {
            assert(list[j].partition <= list[n].partition);
        }
    }
    assert(list.last() == list[n]);
}

/// Counting does not depend on the order.
proof fn lemma_count_below_multiset(a: Seq<Entry>, b: Seq<Entry>, p: int)
    requires
        a.to_multiset() == b.to_multiset(),
    ensures
        count_below(a, p) == count_below(b, p),
{
    let f = |e: Entry| e.partition < p;
    lemma_map_multiset(a, b, f);
    lemma_count_below_as_count(a, p);
    lemma_count_below_as_count(b, p);
}

proof fn lemma_count_below_as_count(a: Seq<Entry>, p: int)
    ensures
        count_below(a, p) == mapped(a, |e: Entry| e.partition < p).to_multiset().count(true),
    decreases a.len(),
{
    let f = |e: Entry| e.partition < p;
    let m = mapped(a, f);
    if a.len() == 0 {
        m.to_multiset_ensures();
        assert(!m.contains(true));
        assert(m.to_multiset().count(true) == 0);
    } else {
        let c = mapped(a.drop_last(), f);
        lemma_count_below_as_count(a.drop_last(), p);
        assert(m =~= c.push(f(a.last())));
        c.to_multiset_ensures();
        assert(m.to_multiset() =~= c.to_multiset().insert(f(a.last())));
    }
}

/// Partition `p` occupies exactly the slots between the counts before it and
/// the counts through it.
pub proof fn law_partition_slots(list: Seq<Entry>, nlist: int, j: int)
    requires
        list.len() <= u64::MAX,
        0 <= j < list.len(),
        forall|k: int| 0 <= k < list.len() ==> (#[trigger] list[k]).partition < nlist,
    ensures
        ({
            let p = emission(list)[j].partition as int;
            let counts = counts_of(list, nlist);
            &&& 0 <= p < nlist
            &&& rows_before(counts, p) <= j < rows_before(counts, p + 1)
        }),
{
    let e = emission(list);
    let p = e[j].partition as int;
    law_emission(list);
    lemma_emission_source(list);
    assert(sorted_pairs(entry_keys(list))[j].1 < list.len());
    lemma_counts_below(list, nlist, p);
    lemma_counts_below(list, nlist, p + 1);
    lemma_count_below_multiset(e, list, p);
    lemma_count_below_multiset(e, list, p + 1);
    lemma_below_is_prefix(e, p, j);
    lemma_below_is_prefix(e, p + 1, j);
}

/// Counts the copies of every partition.
fn count_entries(list: &Vec<Entry>, nlist: usize) -> (counts: Vec<u64>)
    requires
        forall|j: int| 0 <= j < list@.len() ==> (#[trigger] list@[j]).partition < nlist,
    ensures
        counts@ == counts_of(list@, nlist as int),
{
    let len: usize = list.len();
    let mut counts: Vec<u64> = Vec::new();
    let mut p: usize = 0;
    while p < nlist
        invariant
            p <= nlist,
            counts@ == counts_of(list@.take(0), p as int),
        decreases nlist - p,
    {
        counts.push(0);
        p = p + 1;
        assert(counts@ =~= counts_of(list@.take(0), p as int));
    }
    let mut j: usize = 0;
    while j < list.len()
        invariant
            j <= list.len(),
            len == list@.len(),
            forall|i: int| 0 <= i < list@.len() ==> (#[trigger] list@[i]).partition < nlist,
            counts@ == counts_of(list@.take(j as int), nlist as int),
        decreases list.len() - j,
    {
        let ghost before = list@.take(j as int);
        let ghost after = list@.take(j + 1);
        let q: usize = list[j].partition as usize;
        proof {
            assert(list@[j as int].partition < nlist);
            lemma_count_bound(before, q as int);
            assert(after.drop_last() =~= before);
        }
        let c: u64 = counts[q];
        counts.set(q, c + 1);
        j = j + 1;
        proof {
            assert forall|i: int| 0 <= i < nlist implies counts@[i] == counts_of(after, nlist as int)[i] by {
                lemma_count_bound(before, i);
            }
            assert(counts@ =~= counts_of(after, nlist as int));
        }
    }
    assert(list@.take(j as int) =~= list@);
    counts
}

/// Row indices and marks of a list of copies.
fn split_entries(list: &Vec<Entry>) -> (r: (Vec<usize>, Vec<bool>))
    ensures
        r.0@ == rows_of(list@),
        r.1@ == marks_of(list@),
{
    let mut rows: Vec<usize> = Vec::new();
    let mut marks: Vec<bool> = Vec::new();
    let mut j: usize = 0;
    while j < list.len()
        invariant
            j <= list.len(),
            rows@ == rows_of(list@).take(j as int),
            marks@ == marks_of(list@).take(j as int),
        decreases list.len() - j,
    {
        rows.push(list[j].row);
        marks.push(list[j].replica);
        j = j + 1;
        assert(rows@ =~= rows_of(list@).take(j as int));
        assert(marks@ =~= marks_of(list@).take(j as int));
    }
    assert(rows@ =~= rows_of(list@));
    assert(marks@ =~= marks_of(list@));
    (rows, marks)
}

/// What listing gives: entries in range, one first copy per row.
proof fn lemma_listed(assignments: Seq<u32>, replicas: Seq<Vec<u32>>, n: int, nlist: int)
    requires
        0 <= n <= assignments.len(),
        assignments.len() == replicas.len(),
        assignments.len() <= usize::MAX,
        forall|i: int| 0 <= i < assignments.len() ==> (#[trigger] assignments[i]) < nlist,
        forall|i: int, k: int|
            0 <= i < assignments.len() && 0 <= k < replicas[i]@.len() ==> (#[trigger] replicas[i]@[k]) < nlist,
    ensures
        in_range(listed(assignments, replicas, n), nlist, n),
        primaries(marks_of(listed(assignments, replicas, n))) == n,
        forall|i: int| 0 <= i < n ==> rows_of(listed(assignments, replicas, n)).contains(#[trigger] as_row(i)),
        n <= listed(assignments, replicas, n).len(),
    decreases n,
{
    let all = listed(assignments, replicas, n);
    if n > 0 {
        let a = listed(assignments, replicas, n - 1);
        let e = Entry { partition: assignments[n - 1], row: (n - 1) as usize, replica: false };
        let r = replica_entries(replicas[n - 1]@, n - 1);
        lemma_listed(assignments, replicas, n - 1, nlist);
        assert forall|j: int| 0 <= j < all.len() implies (#[trigger] all[j]).partition < nlist && all[j].row < n by {
            if j < a.len() {
                assert(all[j] == a[j]);
            } else if j == a.len() {
                assert(all[j] == e);
            } else {
                assert(all[j] == r[j - a.len() - 1]);
                assert(replicas[n - 1]@[j - a.len() - 1] < nlist);
            }
        }
        assert(marks_of(all) =~= marks_of(a).push(false) + marks_of(r));
        assert(marks_of(a).push(false).drop_last() =~= marks_of(a));
        lemma_primaries_replicas(marks_of(a).push(false), marks_of(r));
        assert forall|i: int| 0 <= i < n implies rows_of(all).contains(#[trigger] as_row(i)) by {
            if i < n - 1 {
                let j = choose|j: int| 0 <= j < rows_of(a).len() && rows_of(a)[j] == as_row(i);
                assert(rows_of(all)[j] == rows_of(a)[j]);
            } else {
                assert(rows_of(all)[a.len() as int] == as_row(i));
            }
        }
    }
}

/// `i` as a row index.
pub open spec fn as_row(i: int) -> usize {
    i as usize
}

/// Replicas are no primaries.
proof fn lemma_primaries_replicas(a: Seq<bool>, r: Seq<bool>)
    requires
        forall|k: int| 0 <= k < r.len() ==> #[trigger] r[k],
    ensures
        primaries(a + r) == primaries(a),
    decreases r.len(),
{
    if r.len() > 0 {
        lemma_primaries_replicas(a, r.drop_last());
        assert((a + r).drop_last() =~= a + r.drop_last());
        assert(r[r.len() - 1]);
    } else {
        assert(a + r =~= a);
    }
}

/// Primaries are counted in any order.
proof fn lemma_primaries_count(a: Seq<bool>)
    ensures
        primaries(a) == a.to_multiset().count(false),
    decreases a.len(),
{
    a.to_multiset_ensures();
    if a.len() == 0 {
        assert(!a.contains(false));
        assert(a.to_multiset().count(false) == 0);
    } else {
        let c = a.drop_last();
        lemma_primaries_count(c);
        c.to_multiset_ensures();
        assert(a =~= c.push(a.last()));
        assert(a.to_multiset() =~= c.to_multiset().insert(a.last()));
    }
}

/// Elements picked by index.
pub open spec fn chosen<T>(src: Seq<T>, idx: Seq<usize>) -> Seq<T> {
    Seq::new(idx.len(), |j: int| src[idx[j] as int])
}

/// Picks elements by index.
pub fn choose_each<T: Copy>(src: &Vec<T>, idx: &Vec<usize>) -> (out: Vec<T>)
    requires
        forall|j: int| 0 <= j < idx@.len() ==> (#[trigger] idx@[j]) < src@.len(),
    ensures
        out@ == chosen(src@, idx@),
{
    let mut out: Vec<T> = Vec::new();
    let mut j: usize = 0;
    while j < idx.len()
        invariant
            j <= idx.len(),
            forall|i: int| 0 <= i < idx@.len() ==> (#[trigger] idx@[i]) < src@.len(),
            out@ == chosen(src@, idx@).take(j as int),
        decreases idx.len() - j,
    {
        assert(idx@[j as int] < src@.len());
        out.push(src[idx[j]]);
        j = j + 1;
        assert(out@ =~= chosen(src@, idx@).take(j as int));
    }
    assert(out@ =~= chosen(src@, idx@));
    out
}

/// What a segment is written with, beside its rows.
#[derive(Clone, Copy, Debug, PartialEq, Eq, Structural)]
pub struct SegmentParams {
    pub flavor: Layout,
    pub bit_width: usize,
    pub dim: usize,
    pub partition_target: Option<u32>,
    /// Bit pattern of the replica epsilon.
    pub replica_epsilon: Option<u32>,
    pub has_vectors: bool,
}

impl SegmentParams {
    /// The parameters are ones that a file can record.
    pub open spec fn wf(self) -> bool {
        &&& 2 <= self.bit_width <= 4
        &&& self.dim % 8 == 0
        &&& self.dim <= 0xFFFF_FFFF
        &&& self.replica_epsilon is Some ==> finite_positive(self.replica_epsilon->0)
        &&& self.partition_target is Some ==> self.partition_target->0 > 0
    }
}

/// All live rows of an index, gathered for compaction: each id once.
pub struct GatheredRows {
    /// Group bytes, row-major.
    pub rows: Vec<u8>,
    /// Bit patterns, one per row.
    pub scales: Vec<u32>,
    pub ids: Vec<u64>,
    /// Bit patterns, `dim` per row, if the index stores vectors.
    pub vectors: Vec<u32>,
    /// The partition a row came from, [`NO_PARTITION`] for added rows.
    pub source_partition: Vec<u32>,
    /// The slot a row came from, [`NO_SLOT`] for added rows.
    pub base_slot: Vec<u64>,
}

/// Marks a row that has no partition yet.
pub const NO_PARTITION: u32 = 0xFFFF_FFFF;

/// Marks a row that is not in the base segment.
pub const NO_SLOT: u64 = 0xFFFF_FFFF_FFFF_FFFF;

impl GatheredRows {
    /// The columns agree, and no id occurs twice.
    pub open spec fn wf(self, params: SegmentParams) -> bool {
        let n = self.ids@.len();
        &&& self.rows@.len() == n * groups(params.bit_width as int, params.dim as int)
        &&& self.scales@.len() == n
        &&& self.vectors@.len() == if params.has_vectors {
            n * params.dim
        } else {
            0
        }
        &&& self.source_partition@.len() == n
        &&& self.base_slot@.len() == n
        &&& self.ids@.no_duplicates()
        &&& params.dim == 0 ==> n == 0
    }
}

/// The stored copies in slot order.
pub open spec fn slots_of(p: Placement) -> Seq<Entry> {
    emission(listed(p.assignments@, p.replicas@, p.assignments@.len() as int))
}

/// The section lengths of the segment that a placement gives.
pub open spec fn lens_of_placement(params: SegmentParams, p: Placement) -> Seq<int> {
    let list = listed(p.assignments@, p.replicas@, p.assignments@.len() as int);
    crate::tvdm::section_lens(
        params.bit_width as int,
        params.dim as int,
        list.len() as int,
        if list.len() > 0 {
            params.dim as int
        } else {
            0
        },
        p.nlist as int,
        count_blocks_before(counts_of(list, p.nlist as int), p.nlist as int),
        params.has_vectors,
    )
}

impl Segment {
    /// This segment holds the gathered rows, each in its partition, with
    /// every further copy repeating its row.
    pub open spec fn places(self, params: SegmentParams, g: GatheredRows, p: Placement) -> bool {
        let e = slots_of(p);
        let list = listed(p.assignments@, p.replicas@, p.assignments@.len() as int);
        &&& self.flavor == params.flavor
        &&& self.bit_width == params.bit_width
        &&& self.dim == params.dim
        &&& self.partition_target == params.partition_target
        &&& self.replica_epsilon == params.replica_epsilon
        &&& self.has_vectors == params.has_vectors
        &&& self.counts@ == counts_of(list, p.nlist as int)
        &&& self.centroids@ == p.centroids@
        &&& self.rows@ == picked(g.rows@, groups(params.bit_width as int, params.dim as int), rows_of(e))
        &&& self.scales@ == chosen(g.scales@, rows_of(e))
        &&& self.ids@ == chosen(g.ids@, rows_of(e))
        &&& self.replica@ == marks_of(e)
        &&& self.vectors@ == if params.has_vectors {
            picked(g.vectors@, params.dim as int, rows_of(e))
        } else {
            Seq::empty()
        }
    }
}

/// Slot order keeps what listing gives.
pub proof fn lemma_slots(p: Placement, n: int, dim: int)
    requires
        p.wf(n, dim),
        n <= usize::MAX,
        listed(p.assignments@, p.replicas@, n).len() <= usize::MAX,
    ensures
        slots_of(p).len() == listed(p.assignments@, p.replicas@, n).len(),
        in_range(listed(p.assignments@, p.replicas@, n), p.nlist as int, n),
        in_range(slots_of(p), p.nlist as int, n),
        primaries(marks_of(slots_of(p))) == n,
        forall|i: int| 0 <= i < n ==> rows_of(slots_of(p)).contains(#[trigger] as_row(i)),
        rows_before(counts_of(listed(p.assignments@, p.replicas@, n), p.nlist as int), p.nlist as int)
            == slots_of(p).len(),
        n == 0 ==> slots_of(p).len() == 0,
        n <= slots_of(p).len(),
{
    let list = listed(p.assignments@, p.replicas@, n);
    let e = slots_of(p);
    lemma_listed(p.assignments@, p.replicas@, n, p.nlist as int);
    law_emission(list);
    lemma_same_elements(e, list);
    assert forall|j: int| 0 <= j < e.len() implies (#[trigger] e[j]).partition < p.nlist && e[j].row < n by {
        assert(e.contains(e[j]));
        assert(list.contains(e[j]));
        let k = choose|k: int| 0 <= k < list.len() && list[k] == e[j];
        assert(list[k].partition < p.nlist);
    }
    let f = |x: Entry| x.replica;
    lemma_map_multiset(e, list, f);
    assert(mapped(e, f) =~= marks_of(e));
    assert(mapped(list, f) =~= marks_of(list));
    lemma_primaries_count(marks_of(e));
    lemma_primaries_count(marks_of(list));
    let h = |x: Entry| x.row;
    lemma_map_multiset(e, list, h);
    assert(mapped(e, h) =~= rows_of(e));
    assert(mapped(list, h) =~= rows_of(list));
    lemma_same_elements(rows_of(e), rows_of(list));
    lemma_counts_below(list, p.nlist as int, p.nlist as int);
    lemma_below_all(list, p.nlist as int);
}

/// The ids of all copies are the gathered ids.
pub proof fn lemma_ids_of_slots(ids: Seq<u64>, idx: Seq<usize>)
    requires
        ids.no_duplicates(),
        ids.len() <= usize::MAX,
        forall|j: int| 0 <= j < idx.len() ==> (#[trigger] idx[j]) < ids.len(),
        forall|i: int| 0 <= i < ids.len() ==> idx.contains(#[trigger] as_row(i)),
    ensures
        chosen(ids, idx).to_set() == ids.to_set(),
        chosen(ids, idx).to_set().len() == ids.len(),
{
    let c = chosen(ids, idx);
    assert forall|x: u64| c.to_set().contains(x) <==> ids.to_set().contains(x) by {
        if c.contains(x) {
            let j = choose|j: int| 0 <= j < c.len() && c[j] == x;
            assert(idx[j] < ids.len());
            assert(ids[idx[j] as int] == x);
        }
        if ids.contains(x) {
            let i = choose|i: int| 0 <= i < ids.len() && ids[i] == x;
            assert(idx.contains(as_row(i)));
            let j = choose|j: int| 0 <= j < idx.len() && idx[j] == as_row(i);
            assert(c[j] == x);
        }
    }
    assert(c.to_set() =~= ids.to_set());
    ids.unique_seq_to_set();
}

/// Lays the gathered rows out as a segment; `None` if its file would not fit
/// the address space.
pub fn build_segment(
    params: SegmentParams,
    g: &GatheredRows,
    placement: Placement,
    tqplus_shift: Vec<u32>,
    tqplus_scale: Vec<u32>,
) -> (r: Option<Segment>)
    requires
        params.wf(),
        g.wf(params),
        placement.wf(g.ids@.len() as int, params.dim as int),
        tqplus_shift@.len() == (if g.ids@.len() > 0 {
            params.dim as int
        } else {
            0
        }),
        tqplus_scale@.len() == tqplus_shift@.len(),
    ensures
        r is Some <==> section_start(lens_of_placement(params, placement), 12) <= usize::MAX,
        r is Some ==> {
            &&& r->0.wf()
            &&& r->0.places(params, *g, placement)
            &&& r->0.tqplus_shift@ == tqplus_shift@
            &&& r->0.tqplus_scale@ == tqplus_scale@
        },
{
    let n: usize = g.ids.len();
    let list: Vec<Entry> = list_entries(&placement.assignments, &placement.replicas);
    let n_slots: usize = list.len();
    proof {
        lemma_slots(placement, n as int, params.dim as int);
    }
    let slots: Vec<Entry> = emit(&list);
    let counts: Vec<u64> = count_entries(&list, placement.nlist);
    let (idx, replica) = split_entries(&slots);
    let ng: usize = n_byte_groups(params.bit_width, params.dim);
    assert forall|j: int| 0 <= j < idx@.len() implies (#[trigger] idx@[j]) < n by {
        assert(slots@[j].row < n);
    }
    let blocks: usize = count_blocks(&counts, n_slots);
    let calib: usize = if n > 0 {
        params.dim
    } else {
        0
    };
    let shape: Shape = Shape {
        bit_width: params.bit_width,
        dim: params.dim,
        n_slots,
        n_calib: calib,
        nlist: placement.nlist,
        total_blocks: blocks,
        has_vectors: params.has_vectors,
    };
    assert(shape.lens() == lens_of_placement(params, placement));
    if section_layout(shape).is_none() {
        return None;
    }
    let rows: Vec<u8> = pick_rows(&g.rows, ng, &idx, n);
    let scales: Vec<u32> = choose_each(&g.scales, &idx);
    let ids: Vec<u64> = choose_each(&g.ids, &idx);
    let vectors: Vec<u32> = if params.has_vectors {
        pick_rows(&g.vectors, params.dim, &idx, n)
    } else {
        Vec::new()
    };
    proof {
        lemma_ids_of_slots(g.ids@, idx@);
        lemma_picked_len(n_slots as int, ng as int);
        lemma_picked_len(n_slots as int, params.dim as int);
        assert(vectors@ =~= if params.has_vectors {
            picked(g.vectors@, params.dim as int, idx@)
        } else {
            Seq::empty()
        });
    }
    Some(
        Segment {
            flavor: params.flavor,
            bit_width: params.bit_width,
            dim: params.dim,
            partition_target: params.partition_target,
            replica_epsilon: params.replica_epsilon,
            has_vectors: params.has_vectors,
            counts,
            centroids: placement.centroids,
            rows,
            scales,
            tqplus_shift,
            tqplus_scale,
            ids,
            replica,
            vectors,
        },
    )
}

proof fn lemma_picked_len(n: int, w: int)
    requires
        0 <= n,
        0 <= w,
    ensures
        0 <= n * w,
{
    assert(0 <= n * w) by (nonlinear_arith)
        requires
            0 <= n,
            0 <= w,
    ;
}

/// Blocks of all partitions.
fn count_blocks(counts: &Vec<u64>, n: usize) -> (blocks: usize)
    requires
        rows_before(counts@, counts@.len() as int) == n,
    ensures
        blocks == count_blocks_before(counts@, counts@.len() as int),
{
    let mut blocks: usize = 0;
    let mut p: usize = 0;
    let ghost nlist = counts@.len() as int;
    while p < counts.len()
        invariant
            p <= counts.len(),
            nlist == counts@.len(),
            rows_before(counts@, nlist) == n,
            blocks == count_blocks_before(counts@, p as int),
        decreases counts.len() - p,
    {
        proof {
            lemma_rows_before_monotone(counts@, p as int, p + 1);
            lemma_rows_before_monotone(counts@, p + 1, nlist);
            assert(rows_before(counts@, p + 1) <= n);
        }
        let c: u64 = counts[p];
        let b: u64 = c / 32 + (if c % 32 == 0 {
            0
        } else {
            1
        });
        assert(b == ceil_div(c as int, 32));
        blocks = blocks + b as usize;
        p = p + 1;
    }
    blocks
}

/// Two first copies in slot order belong to different rows.
pub proof fn law_one_primary_per_row(p: Placement, n: int, dim: int, a: int, b: int)
    requires
        p.wf(n, dim),
        n <= usize::MAX,
        listed(p.assignments@, p.replicas@, n).len() <= usize::MAX,
        0 <= a < slots_of(p).len(),
        0 <= b < slots_of(p).len(),
        a != b,
        !slots_of(p)[a].replica,
        !slots_of(p)[b].replica,
    ensures
        slots_of(p)[a].row != slots_of(p)[b].row,
{
    let list = listed(p.assignments@, p.replicas@, n);
    let keys = entry_keys(list);
    let order = sorted_pairs(keys);
    lemma_emission_source(list);
    lemma_sorted_pairs(keys);
    assert(keys.no_duplicates()) by {
        assert forall|i: int, j: int| 0 <= i < keys.len() && 0 <= j < keys.len() && i != j implies keys[i]
            != keys[j] by {
            assert(keys[i].1 == i && keys[j].1 == j);
        }
    }
    keys.lemma_multiset_has_no_duplicates();
    order.lemma_multiset_has_no_duplicates_conv();
    assert(order[a] != order[b]);
    let x = order[a].1 as int;
    let y = order[b].1 as int;
    if x < y {
        lemma_primaries_in_order(p.assignments@, p.replicas@, n, x, y);
    } else if y < x {
        lemma_primaries_in_order(p.assignments@, p.replicas@, n, y, x);
    }
}

/// First copies are listed in row order.
proof fn lemma_primaries_in_order(assignments: Seq<u32>, replicas: Seq<Vec<u32>>, n: int, x: int, y: int)
    requires
        0 <= n <= usize::MAX,
        0 <= x < y < listed(assignments, replicas, n).len(),
        !listed(assignments, replicas, n)[x].replica,
        !listed(assignments, replicas, n)[y].replica,
    ensures
        listed(assignments, replicas, n)[x].row < listed(assignments, replicas, n)[y].row,
    decreases n,
{
    if n > 0 {
        let a = listed(assignments, replicas, n - 1);
        let all = listed(assignments, replicas, n);
        let r = replica_entries(replicas[n - 1]@, n - 1);
        if y < a.len() {
            assert(all[x] == a[x] && all[y] == a[y]);
            lemma_primaries_in_order(assignments, replicas, n - 1, x, y);
        } else if y == a.len() {
            assert(all[x] == a[x]);
            lemma_listed_rows(assignments, replicas, n - 1, x);
        } else {
            assert(all[y] == r[y - a.len() - 1]);
        }
    }
}

proof fn lemma_listed_rows(assignments: Seq<u32>, replicas: Seq<Vec<u32>>, n: int, x: int)
    requires
        0 <= n <= usize::MAX,
        0 <= x < listed(assignments, replicas, n).len(),
    ensures
        listed(assignments, replicas, n)[x].row < n,
    decreases n,
{
    if n > 0 {
        let a = listed(assignments, replicas, n - 1);
        let all = listed(assignments, replicas, n);
        if x < a.len() {
            assert(all[x] == a[x]);
            lemma_listed_rows(assignments, replicas, n - 1, x);
        } else if x > a.len() {
            assert(all[x] == replica_entries(replicas[n - 1]@, n - 1)[x - a.len() - 1]);
        }
    }
}

/// The slots that hold copies of one row lie in different partitions.
pub proof fn law_slots_lie_apart(p: Placement, n: int, dim: int, a: int, b: int)
    requires
        p.wf(n, dim),
        n <= usize::MAX,
        listed(p.assignments@, p.replicas@, n).len() <= usize::MAX,
        0 <= a < b < slots_of(p).len(),
        slots_of(p)[a].row == slots_of(p)[b].row,
    ensures
        slots_of(p)[a].partition != slots_of(p)[b].partition,
{
    let list = listed(p.assignments@, p.replicas@, n);
    let keys = entry_keys(list);
    let order = sorted_pairs(keys);
    lemma_emission_source(list);
    lemma_sorted_pairs(keys);
    lemma_same_elements(order, keys);
    let i = order[a].1 as int;
    let j = order[b].1 as int;
    if i == j {
        assert(order.contains(order[a]) && order.contains(order[b]));
        lemma_order_distinct(list, a, b);
    }
    if i < j {
        law_copies_lie_apart(p, n, dim, i, j);
    } else {
        law_copies_lie_apart(p, n, dim, j, i);
    }
}

/// Two slots do not come from one listed copy.
proof fn lemma_order_distinct(list: Seq<Entry>, a: int, b: int)
    requires
        list.len() <= usize::MAX,
        0 <= a < b < list.len(),
    ensures
        sorted_pairs(entry_keys(list))[a].1 != sorted_pairs(entry_keys(list))[b].1,
{
    let keys = entry_keys(list);
    let order = sorted_pairs(keys);
    lemma_emission_source(list);
    lemma_sorted_pairs(keys);
    lemma_same_elements(order, keys);
    assert(keys.no_duplicates()) by {
        assert forall|i: int, j: int| 0 <= i < keys.len() && 0 <= j < keys.len() && i != j implies keys[i]
            != keys[j] by {
            assert(keys[i].1 == i && keys[j].1 == j);
        }
    }
    keys.lemma_multiset_has_no_duplicates();
    order.lemma_multiset_has_no_duplicates_conv();
    assert(order[a] != order[b]);
    assert(order.contains(order[a]) && order.contains(order[b]));
    let i = choose|i: int| 0 <= i < keys.len() && keys[i] == order[a];
    let j = choose|j: int| 0 <= j < keys.len() && keys[j] == order[b];
    assert(keys.contains(order[a]) && keys.contains(order[b]));
    assert(keys[i].1 == i && keys[j].1 == j);
}

/// Every row has a first copy in slot order.
pub proof fn law_every_row_has_a_primary(p: Placement, n: int, dim: int, i: int)
    requires
        p.wf(n, dim),
        n <= usize::MAX,
        listed(p.assignments@, p.replicas@, n).len() <= usize::MAX,
        0 <= i < n,
    ensures
        exists|j: int|
            0 <= j < slots_of(p).len() && (#[trigger] slots_of(p)[j]).row == i && !slots_of(p)[j].replica
                && slots_of(p)[j].partition == p.assignments@[i],
{
    let list = listed(p.assignments@, p.replicas@, n);
    let e = slots_of(p);
    law_emission(list);
    lemma_same_elements(e, list);
    let x = Entry { partition: p.assignments@[i], row: i as usize, replica: false };
    lemma_listed_primary(p.assignments@, p.replicas@, n, i);
    assert(e.contains(x));
    let j = choose|j: int| 0 <= j < e.len() && e[j] == x;
    assert(e[j].row == i);
}

proof fn lemma_listed_primary(assignments: Seq<u32>, replicas: Seq<Vec<u32>>, n: int, i: int)
    requires
        0 <= i < n <= usize::MAX,
    ensures
        listed(assignments, replicas, n).contains(
            (Entry { partition: assignments[i], row: i as usize, replica: false }),
        ),
    decreases n,
{
    let a = listed(assignments, replicas, n - 1);
    let all = listed(assignments, replicas, n);
    let x = Entry { partition: assignments[i], row: i as usize, replica: false };
    if i < n - 1 {
        lemma_listed_primary(assignments, replicas, n - 1, i);
        let k = choose|k: int| 0 <= k < a.len() && a[k] == x;
        assert(all[k] == x);
    } else {
        assert(all[a.len() as int] == x);
    }
}

} // verus!
