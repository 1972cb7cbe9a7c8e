//! What upkeep looks at: the partitions around a change, the copies that are
//! missing, the rows of a sample and the sides of a split.
use vstd::prelude::*;
use crate::cluster_laws::rising;
use crate::copies::{lemma_place, lemma_place_is, partition_position, place, CopyLocation};
use crate::fresh::FreshIndex;
use crate::lire::neighbors_of;
use crate::partition::PartitionState;
use crate::pass_laws::live_total;
use crate::reassign::{flag_pool, flagged, lemma_pool_len, pool_flags};
use crate::upkeep::{
    balance_moves, evened, partition_count, partitions_for, primary_copy, primary_from, sampled_in, sampled_rows, with_centroid,
};

verus! {

/// Partition `p` is a changed one, or among the `m` nearest others of one.
pub open spec fn around(changed: Seq<u32>, distances: Seq<Vec<u32>>, m: int, n: int, p: int) -> bool {
    exists|k: int|
        0 <= k < n && (#[trigger] changed[k] == p || neighbors_of(distances[k]@, changed[k] as u64, m).contains(
            p as u32,
        ))
}

proof fn lemma_pool(changed: Seq<u32>, distances: Seq<Vec<u32>>, m: int, nlist: int, n: int, p: int)
    requires
        0 <= n <= changed.len(),
        0 <= p < nlist <= 0xFFFF_FFFF,
    ensures
        pool_flags(changed, distances, m, nlist, n).len() == nlist,
        pool_flags(changed, distances, m, nlist, n)[p] <==> around(changed, distances, m, n, p),
    decreases n,
{
    lemma_pool_len(changed, distances, m, nlist, n);
    if n > 0 {
        lemma_pool(changed, distances, m, nlist, n - 1, p);
        lemma_pool_len(changed, distances, m, nlist, n - 1);
        let own = seq![changed[n - 1]];
        assert(own.contains(p as u32) <==> changed[n - 1] == p) by {
            if own.contains(p as u32) {
                let k = choose|k: int| 0 <= k < own.len() && own[k] == p as u32;
                assert(own[k] == changed[n - 1]);
            }
            assert(own[0] == changed[n - 1]);
        }
        if around(changed, distances, m, n - 1, p) {
            let k = choose|k: int|
                0 <= k < n - 1 && (#[trigger] changed[k] == p || neighbors_of(
                    distances[k]@,
                    changed[k] as u64,
                    m,
                ).contains(p as u32));
            assert(0 <= k < n && (changed[k] == p || neighbors_of(distances[k]@, changed[k] as u64, m).contains(
                p as u32,
            )));
        }
    }
}

/// A partition is looked at again exactly if it changed or is one of the
/// nearest neighbours of one that did.
pub proof fn law_pool_is_around_changes(
    changed: &Vec<u32>,
    distances: &Vec<Vec<u32>>,
    m: usize,
    n: usize,
    flags: Vec<bool>,
    p: int,
)
    requires
        flag_pool.ensures((changed, distances, m, n), flags),
        0 <= p < n <= 0xFFFF_FFFF,
    ensures
        flags@.len() == n,
        flags@[p] <==> around(changed@, distances@, m as int, changed@.len() as int, p),
{
    lemma_pool(changed@, distances@, m as int, n as int, changed@.len() as int, p);
}

/// The list of flagged positions holds each of them once, in order.
pub proof fn law_flagged_positions_are_all(flags: Seq<bool>, n: int)
    requires
        0 <= n <= flags.len(),
        n <= usize::MAX,
    ensures
        rising(flagged(flags, n)),
        forall|k: int|
            0 <= k < flagged(flags, n).len() ==> #[trigger] flagged(flags, n)[k] < n && flags[flagged(
                flags,
                n,
            )[k] as int],
        forall|p: usize| p < n && flags[p as int] ==> #[trigger] flagged(flags, n).contains(p),
    decreases n,
{
    if n > 0 {
        law_flagged_positions_are_all(flags, n - 1);
        let a = flagged(flags, n - 1);
        let s = flagged(flags, n);
        assert forall|p: usize| p < n && flags[p as int] implies #[trigger] s.contains(p) by {
            if p < n - 1 {
                assert(a.contains(p));
                let k = choose|k: int| 0 <= k < a.len() && a[k] == p;
                assert(s[k] == p);
            } else {
                assert(s[a.len() as int] == p);
            }
        }
    }
}

/// A partition is at its position if and only if it has the id.
pub proof fn law_position_has_the_id(parts: &Vec<PartitionState>, partition_id: u32, r: Option<usize>)
    requires
        partition_position.ensures((parts, partition_id), r),
    ensures
        match r {
            Some(p) => p < parts@.len() && parts@[p as int].partition_id == partition_id,
            None => forall|j: int| 0 <= j < parts@.len() ==> (#[trigger] parts@[j]).partition_id != partition_id,
        },
{
    lemma_place(parts@, partition_id, 0);
}

proof fn lemma_existing(x: FreshIndex, changed: Seq<u32>)
    requires
        x.wf(),
        x.partitions@.len() <= 0xFFFF_FFFF,
    ensures
        forall|p: int|
            0 <= p < x.partitions@.len() ==> (#[trigger] x.existing(changed).contains(p as u32) <==> changed.contains(
                x.partitions@[p].partition_id,
            )),
    decreases changed.len(),
{
    if changed.len() > 0 {
        let init = changed.drop_last();
        let last = changed.last();
        lemma_existing(x, init);
        lemma_place(x.partitions@, last, 0);
        let a = x.existing(init);
        let s = x.existing(changed);
        let at = place(x.partitions@, last);
        assert forall|p: int| 0 <= p < x.partitions@.len() implies (#[trigger] s.contains(p as u32) <==> changed.contains(
            x.partitions@[p].partition_id,
        )) by {
            let id = x.partitions@[p].partition_id;
            assert(id == last <==> p == at) by {
                if id == last && p != at {
                    if at < p {
                        assert(x.partitions@[at].partition_id != x.partitions@[p].partition_id);
                    } else {
                        assert(x.partitions@[p].partition_id != last);
                    }
                }
            }
            assert(changed.contains(id) <==> init.contains(id) || id == last) by {
                if init.contains(id) {
                    let k = choose|k: int| 0 <= k < init.len() && init[k] == id;
                    assert(changed[k] == id);
                }
                if id == last {
                    assert(changed[changed.len() - 1] == id);
                }
                if changed.contains(id) && id != last {
                    let k = choose|k: int| 0 <= k < changed.len() && changed[k] == id;
                    assert(init[k] == id);
                }
            }
            assert(s.contains(p as u32) <==> a.contains(p as u32) || p == at) by {
                if a.contains(p as u32) {
                    let k = choose|k: int| 0 <= k < a.len() && a[k] == p as u32;
                    assert(s[k] == p as u32);
                }
                if p == at {
                    assert(s[a.len() as int] == p as u32);
                }
                if s.contains(p as u32) && !a.contains(p as u32) {
                    let k = choose|k: int| 0 <= k < s.len() && s[k] == p as u32;
                    if k < a.len() {
                        assert(a[k] == p as u32);
                    }
                }
            }
        }
    }
}

/// The positions of changed partitions are those of all partitions whose id is
/// among the changed ones.
pub proof fn law_changed_partitions_are_found(x: &FreshIndex, changed: &Vec<u32>, r: Vec<u32>, p: int)
    requires
        x.wf(),
        x.partitions@.len() <= 0xFFFF_FFFF,
        FreshIndex::changed_positions.ensures((x, changed), r),
        0 <= p < x.partitions@.len(),
    ensures
        r@.contains(p as u32) <==> changed@.contains(x.partitions@[p].partition_id),
{
    lemma_existing(*x, changed@);
}

/// One of the copies lies in this partition.
pub open spec fn some_copy_in(copies: Seq<CopyLocation>, partition_id: u32) -> bool {
    exists|c: int| 0 <= c < copies.len() && (#[trigger] copies[c]).partition_id == partition_id
}

proof fn lemma_covered(x: FreshIndex, copies: Seq<CopyLocation>, p: u32)
    requires
        x.wf(),
        p < x.partitions@.len(),
    ensures
        x.covered(copies, p) == some_copy_in(copies, x.partitions@[p as int].partition_id),
{
    let parts = x.partitions@;
    let id = parts[p as int].partition_id;
    assert forall|j: int| 0 <= j < p implies (#[trigger] parts[j]).partition_id != id by {
        assert(parts[j].partition_id != parts[p as int].partition_id);
    }
    lemma_place_is(parts, id, p as int);
    if x.covered(copies, p) {
        let c = choose|c: int| 0 <= c < copies.len() && place(parts, (#[trigger] copies[c]).partition_id) == p;
        lemma_place(parts, copies[c].partition_id, 0);
        assert(copies[c].partition_id == id);
    }
    if some_copy_in(copies, id) {
        let c = choose|c: int| 0 <= c < copies.len() && (#[trigger] copies[c]).partition_id == id;
        assert(place(parts, copies[c].partition_id) == p);
    }
}

proof fn lemma_uncovered(x: FreshIndex, copies: Seq<CopyLocation>, closure: Seq<u32>)
    ensures
        forall|p: u32|
            #[trigger] x.uncovered(copies, closure).contains(p) <==> closure.contains(p) && !x.covered(copies, p),
        closure.no_duplicates() ==> x.uncovered(copies, closure).no_duplicates(),
    decreases closure.len(),
{
    let s = x.uncovered(copies, closure);
    if closure.len() > 0 {
        let init = closure.drop_last();
        let last = closure.last();
        lemma_uncovered(x, copies, init);
        let a = x.uncovered(copies, init);
        assert forall|p: u32| #[trigger] s.contains(p) <==> closure.contains(p) && !x.covered(copies, p) by {
            assert(closure.contains(p) <==> init.contains(p) || p == last) by {
                if init.contains(p) {
                    let k = choose|k: int| 0 <= k < init.len() && init[k] == p;
                    assert(closure[k] == p);
                }
                if p == last {
                    assert(closure[closure.len() - 1] == p);
                }
                if closure.contains(p) && p != last {
                    let k = choose|k: int| 0 <= k < closure.len() && closure[k] == p;
                    assert(init[k] == p);
                }
            }
            assert(a.contains(p) <==> init.contains(p) && !x.covered(copies, p));
            if a.contains(p) {
                let k = choose|k: int| 0 <= k < a.len() && a[k] == p;
                assert(s[k] == p);
            }
            if p == last && !x.covered(copies, p) {
                assert(s[a.len() as int] == p);
            }
            if s.contains(p) && !a.contains(p) {
                let k = choose|k: int| 0 <= k < s.len() && s[k] == p;
                if k < a.len() {
                    assert(a[k] == p);
                }
            }
        }
        if closure.no_duplicates() {
            assert(init.no_duplicates()) by {
                assert forall|i: int, k: int| 0 <= i < init.len() && 0 <= k < init.len() && i != k implies init[i]
                    != init[k] by {
                    assert(closure[i] != closure[k]);
                }
            }
            assert(!init.contains(last)) by {
                if init.contains(last) {
                    let k = choose|k: int| 0 <= k < init.len() && init[k] == last;
                    assert(closure[k] != closure[closure.len() - 1]);
                }
            }
            assert(!a.contains(last)) by {
                assert(a.contains(last) <==> init.contains(last) && !x.covered(copies, last));
            }
            assert forall|i: int, k: int| 0 <= i < s.len() && 0 <= k < s.len() && i != k implies s[i] != s[k] by {
                if i < a.len() && k < a.len() {
                    assert(s[i] == a[i] && s[k] == a[k]);
                } else if i < a.len() {
                    assert(s[i] == a[i] && a.contains(a[i]));
                } else if k < a.len() {
                    assert(s[k] == a[k] && a.contains(a[k]));
                }
            }
        }
    }
}

/// A row lacks a copy in exactly those partitions of its closure that hold none
/// of its copies.
pub proof fn law_missing_copies_are_all(
    x: &FreshIndex,
    copies: &Vec<CopyLocation>,
    closure: &Vec<u32>,
    r: Vec<u32>,
    p: u32,
)
    requires
        x.wf(),
        p < x.partitions@.len(),
        FreshIndex::missing_replicas.ensures((x, copies, closure), r),
    ensures
        r@.contains(p) <==> closure@.contains(p) && !some_copy_in(copies@, x.partitions@[p as int].partition_id),
        closure@.no_duplicates() ==> r@.no_duplicates(),
{
    lemma_uncovered(*x, copies@, closure@);
    lemma_covered(*x, copies@, p);
    assert(x.uncovered(copies@, closure@).contains(p) <==> closure@.contains(p) && !x.covered(copies@, p));
}

proof fn lemma_primary_from(copies: Seq<CopyLocation>, k: int)
    requires
        0 <= k,
        forall|j: int| 0 <= j < k && j < copies.len() ==> (#[trigger] copies[j]).is_replica,
    ensures
        match primary_from(copies, k) {
            Some(i) => 0 <= i < copies.len() && !copies[i].is_replica && forall|j: int|
                0 <= j < i ==> (#[trigger] copies[j]).is_replica,
            None => forall|j: int| 0 <= j < copies.len() ==> (#[trigger] copies[j]).is_replica,
        },
    decreases copies.len() - k,
{
    if k < copies.len() && copies[k].is_replica {
        lemma_primary_from(copies, k + 1);
    }
}

/// The primary copy is the first that is no replica, if there is one.
pub proof fn law_primary_is_no_replica(copies: &Vec<CopyLocation>, r: Option<CopyLocation>)
    requires
        primary_copy.ensures((copies,), r),
    ensures
        match r {
            Some(c) => !c.is_replica && exists|i: int|
                0 <= i < copies@.len() && #[trigger] copies@[i] == c && forall|j: int|
                    0 <= j < i ==> (#[trigger] copies@[j]).is_replica,
            None => forall|j: int| 0 <= j < copies@.len() ==> (#[trigger] copies@[j]).is_replica,
        },
{
    lemma_primary_from(copies@, 0);
}

proof fn lemma_sampled(sample: Seq<usize>, base: int, n: int)
    ensures
        forall|i: int|
            #[trigger] sampled_in(sample, base, n).contains(i) <==> 0 <= i < n && exists|k: int|
                0 <= k < sample.len() && #[trigger] sample[k] == base + i,
        sampled_in(sample, base, n).len() <= sample.len(),
        rising(sample) ==> crate::move_laws::increasing(sampled_in(sample, base, n)),
        forall|k: int|
            0 <= k < sampled_in(sample, base, n).len() ==> exists|j: int|
                0 <= j < sample.len() && #[trigger] sample[j] == base + #[trigger] sampled_in(sample, base, n)[k],
    decreases sample.len(),
{
    let s = sampled_in(sample, base, n);
    if sample.len() > 0 {
        let init = sample.drop_last();
        lemma_sampled(init, base, n);
        let a = sampled_in(init, base, n);
        let last = sample.last() as int;
        assert forall|i: int| #[trigger] s.contains(i) <==> 0 <= i < n && exists|k: int|
            0 <= k < sample.len() && #[trigger] sample[k] == base + i by {
            assert(a.contains(i) <==> 0 <= i < n && exists|k: int|
                0 <= k < init.len() && #[trigger] init[k] == base + i);
            if a.contains(i) {
                let k = choose|k: int| 0 <= k < a.len() && a[k] == i;
                assert(s[k] == i);
                let j = choose|j: int| 0 <= j < init.len() && #[trigger] init[j] == base + i;
                assert(sample[j] == base + i);
            }
            if 0 <= i < n && exists|k: int| 0 <= k < sample.len() && #[trigger] sample[k] == base + i {
                let k = choose|k: int| 0 <= k < sample.len() && #[trigger] sample[k] == base + i;
                if k < init.len() {
                    assert(init[k] == base + i);
                } else {
                    assert(s[a.len() as int] == i);
                }
            }
            if s.contains(i) && !a.contains(i) {
                let k = choose|k: int| 0 <= k < s.len() && s[k] == i;
                if k < a.len() {
                    assert(a[k] == i);
                }
                assert(sample[sample.len() - 1] == base + i);
            }
        }
        assert forall|k: int| 0 <= k < s.len() implies exists|j: int|
            0 <= j < sample.len() && #[trigger] sample[j] == base + #[trigger] s[k] by {
            if k < a.len() {
                assert(s[k] == a[k]);
                let j = choose|j: int| 0 <= j < init.len() && #[trigger] init[j] == base + a[k];
                assert(sample[j] == base + s[k]);
            } else {
                assert(sample[sample.len() - 1] == base + s[k]);
            }
        }
        if rising(sample) {
            assert(rising(init)) by {
                assert forall|i: int, k: int| 0 <= i < k < init.len() implies #[trigger] init[i] < #[trigger] init[k] by {
                    assert(sample[i] < sample[k]);
                }
            }
            assert forall|i: int, k: int| 0 <= i < k < s.len() implies #[trigger] s[i] < #[trigger] s[k] by {
                assert(s[i] == a[i]);
                if k < a.len() {
                    assert(s[k] == a[k]);
                } else {
                    let j = choose|j: int| 0 <= j < init.len() && #[trigger] init[j] == base + a[i];
                    assert(sample[j] < sample[sample.len() - 1]);
                }
            }
        }
    }
}

/// A partition whose rows have the numbers from `base` on holds of a sample
/// exactly the rows whose numbers are in it.
pub proof fn law_sampled_rows_are_all(sample: &Vec<usize>, base: usize, n: usize, r: Vec<usize>)
    requires
        rising(sample@),
        base + n <= usize::MAX,
        sampled_rows.ensures((sample, base, n), r),
    ensures
        rising(r@),
        forall|i: usize| #[trigger] r@.contains(i) <==> i < n && sample@.contains((base + i) as usize),
{
    let s = sampled_in(sample@, base as int, n as int);
    lemma_sampled(sample@, base as int, n as int);
    assert forall|i: int, k: int| 0 <= i < k < r@.len() implies #[trigger] r@[i] < #[trigger] r@[k] by {
        assert(s[i] < s[k]);
    }
    assert forall|i: usize| #[trigger] r@.contains(i) <==> i < n && sample@.contains((base + i) as usize) by {
        if r@.contains(i) {
            let k = choose|k: int| 0 <= k < r@.len() && r@[k] == i;
            assert(s[k] == i);
            assert(s.contains(i as int));
            let j = choose|j: int| 0 <= j < sample@.len() && #[trigger] sample@[j] == base + i;
            assert(sample@[j] == (base + i) as usize);
        }
        if i < n && sample@.contains((base + i) as usize) {
            let j = choose|j: int| 0 <= j < sample@.len() && sample@[j] == (base + i) as usize;
            assert(sample@[j] == base + i);
            assert(s.contains(i as int));
            let k = choose|k: int| 0 <= k < s.len() && s[k] == i;
            assert(r@[k] == i);
        }
    }
}

/// As many partitions as whole targets go into the rows, but two at least.
pub open spec fn of_target_size(total: int, target: int, r: int) -> bool {
    &&& r >= 2
    &&& r > 2 ==> r * target <= total
    &&& total < (r + 1) * target
}

/// What the number of partitions is.
pub proof fn lemma_partitions_for(total: int, target: int)
    requires
        target > 0,
        total >= 0,
    ensures
        of_target_size(total, target, partitions_for(total, target)),
        partitions_for(total, target) <= total || partitions_for(total, target) == 2,
{
    let r = partitions_for(total, target);
    vstd::arithmetic::div_mod::lemma_fundamental_div_mod(total, target);
    let q = total / target;
    assert(q * target <= total < (q + 1) * target && q <= total) by (nonlinear_arith)
        requires
            total == target * q + total % target,
            0 <= total % target < target,
            total >= 0,
    ;
    assert((q + 1) * target <= (r + 1) * target) by (nonlinear_arith)
        requires
            q <= r,
            0 < target,
    ;
}

/// There are as many partitions as whole targets go into the rows, but two at
/// least.
pub proof fn law_partitions_have_the_target_size(total: usize, target: u32, r: usize)
    requires
        target > 0,
        partition_count.ensures((total, target), r),
    ensures
        of_target_size(total as int, target as int, r as int),
{
    lemma_partitions_for(total as int, target as int);
}

/// The clustering is put to the test when that is enabled and, of an index that
/// is not empty, a quarter has changed.
pub proof fn law_test_after_a_quarter(x: FreshIndex)
    ensures
        x.test_is_due() <==> x.tuning.rebootstrap_enabled && live_total(x.partitions@) > 0 && 4 * x.churn_since_check
            >= live_total(x.partitions@),
{
    crate::pass_laws::lemma_live_total(x.partitions@, x.partitions@.len() as int);
    assert(x.partitions@.take(x.partitions@.len() as int) =~= x.partitions@);
}

/// A replaced centroid is the new one, and all others stay.
pub proof fn law_other_centroids_are_kept(all: Seq<u32>, n: int, position: int, centroid: Seq<u32>, q: int)
    requires
        0 <= position < n,
        0 <= q < n,
        all.len() == n * centroid.len(),
        centroid.len() > 0,
    ensures
        ({
            let d = centroid.len() as int;
            let after = with_centroid(all, position, centroid);
            &&& after.len() == all.len()
            &&& q == position ==> after.subrange(q * d, q * d + d) == centroid
            &&& q != position ==> after.subrange(q * d, q * d + d) == all.subrange(q * d, q * d + d)
        }),
{
    let d = centroid.len() as int;
    let after = with_centroid(all, position, centroid);
    crate::math::lemma_flat_bound(position, 0, n, d);
    crate::math::lemma_flat_bound(q, 0, n, d);
    if q == position {
        assert(after.subrange(q * d, q * d + d) =~= centroid);
    } else {
        assert(position * d + d <= q * d || q * d + d <= position * d) by (nonlinear_arith)
            requires
                position != q,
                1 <= d,
        ;
        assert(after.subrange(q * d, q * d + d) =~= all.subrange(q * d, q * d + d));
    }
}

/// Of the rows of the larger side, listed once each, the first `m` change sides
/// and no other row does.
pub proof fn law_listed_rows_change_sides(children: Seq<u32>, ranked: Seq<usize>, m: int, small: u32, i: int)
    requires
        0 <= m <= ranked.len(),
        ranked.no_duplicates(),
        forall|k: int| 0 <= k < ranked.len() ==> #[trigger] ranked[k] < children.len(),
        0 <= i < children.len(),
        i <= usize::MAX,
    ensures
        evened(children, ranked, m, small).len() == children.len(),
        evened(children, ranked, m, small)[i] == if ranked.take(m).contains(i as usize) {
            small
        } else {
            children[i]
        },
    decreases m,
{
    if m > 0 {
        law_listed_rows_change_sides(children, ranked, m - 1, small, i);
        assert(ranked[m - 1] < children.len());
        let a = ranked.take(m - 1);
        let b = ranked.take(m);
        if a.contains(i as usize) {
            let k = choose|k: int| 0 <= k < a.len() && a[k] == i as usize;
            assert(b[k] == i as usize);
        }
        if ranked[m - 1] == i {
            assert(b[m - 1] == i as usize);
        }
        if b.contains(i as usize) && ranked[m - 1] != i {
            let k = choose|k: int| 0 <= k < b.len() && b[k] == i as usize;
            assert(a[k] == i as usize);
        }
    }
}

/// Rows change sides exactly if one side has two rows at least and more than
/// half again as many as the other.
pub proof fn law_uneven_splits_are_evened(zeros: int, ones: int)
    requires
        0 <= zeros,
        0 <= ones,
    ensures
        balance_moves(zeros, ones) > 0 <==> {
            ||| zeros >= 2 && 2 * zeros > 3 * ones
            ||| ones >= 2 && 2 * ones > 3 * zeros
        },
        0 <= balance_moves(zeros, ones),
{
}

} // verus!
