//! Which centroids follow their rows after some of them moved.
use vstd::prelude::*;
use crate::batch::{lemma_row_bounds, row_of};
use crate::fresh::FreshIndex;
use crate::reassign::Reassignment;
use crate::upkeep::with_centroid;

verus! {

/// Rows went out of partition `p` or into it by this plan.
pub open spec fn touched_by(plan: (usize, Reassignment), p: int) -> bool {
    plan.1.destinations@.len() > 0 && (plan.0 == p || plan.1.destinations@.contains(p as u32))
}

/// Some of the first `n` plans moved rows out of partition `p` or into it.
pub open spec fn touched(plans: Seq<(usize, Reassignment)>, n: int, p: int) -> bool {
    exists|j: int| 0 <= j < n && touched_by(#[trigger] plans[j], p)
}

/// Partition `p` changed, or lost or gained a row.
pub open spec fn follows(changed: Seq<u32>, plans: Seq<(usize, Reassignment)>, p: int) -> bool {
    changed.contains(p as u32) || touched(plans, plans.len() as int, p)
}

/// The new centroids of `positions` are in place, where there is one, and all
/// others stay.
pub open spec fn refreshes(x: FreshIndex, y: FreshIndex, positions: Seq<usize>, means: Seq<Option<Vec<u32>>>) -> bool {
    let d = x.memtable.width();
    &&& y.centroids@.len() == x.centroids@.len()
    &&& forall|i: int|
        0 <= i < positions.len() ==> #[trigger] row_of(y.centroids@, positions[i] as int, d) == match means[i] {
            Some(mean) => mean@,
            None => row_of(x.centroids@, positions[i] as int, d),
        }
    &&& forall|p: int|
        0 <= p < x.partitions@.len() && !positions.contains(p as usize) ==> #[trigger] row_of(y.centroids@, p, d)
            == row_of(x.centroids@, p, d)
}

proof fn lemma_touched_step(plans: Seq<(usize, Reassignment)>, n: int, p: int)
    requires
        0 <= n < plans.len(),
    ensures
        touched(plans, n + 1, p) <==> touched(plans, n, p) || touched_by(plans[n], p),
{
    if touched(plans, n, p) {
        let j = choose|j: int| 0 <= j < n && touched_by(#[trigger] plans[j], p);
        assert(0 <= j < n + 1 && touched_by(plans[j], p));
    }
    if touched(plans, n + 1, p) {
        let j = choose|j: int| 0 <= j < n + 1 && touched_by(#[trigger] plans[j], p);
        if j < n {
            assert(touched(plans, n, p));
        }
    }
}

/// One centroid is replaced, the others stay.
proof fn lemma_one_centroid(c: Seq<u32>, n: int, d: int, at: int, v: Seq<u32>, p: int)
    requires
        0 <= at < n,
        0 <= p < n,
        v.len() == d,
        c.len() == n * d,
    ensures
        row_of(with_centroid(c, at, v), p, d) == if p == at {
            v
        } else {
            row_of(c, p, d)
        },
        with_centroid(c, at, v).len() == c.len(),
{
    lemma_row_bounds(at, n, d);
    lemma_row_bounds(p, n, d);
    if p < at {
        assert(p * d + d <= at * d) by (nonlinear_arith)
            requires
                p + 1 <= at,
                0 <= d,
        ;
    } else if at < p {
        assert(at * d + d <= p * d) by (nonlinear_arith)
            requires
                at + 1 <= p,
                0 <= d,
        ;
    }
    assert(row_of(with_centroid(c, at, v), p, d) =~= if p == at {
        v
    } else {
        row_of(c, p, d)
    });
}

impl FreshIndex {
    /// The partitions whose centroids follow their rows after a pass: those at
    /// the positions `changed`, and those that a plan moved rows out of or into.
    pub fn refreshed(&self, changed: &Vec<u32>, plans: &Vec<(usize, Reassignment)>) -> (r: Vec<usize>)
        requires
            self.partitions@.len() <= 0xFFFF_FFFF,
            forall|k: int| 0 <= k < changed@.len() ==> #[trigger] changed@[k] < self.partitions@.len(),
            forall|j: int| 0 <= j < plans@.len() ==> (#[trigger] plans@[j]).0 < self.partitions@.len(),
            forall|j: int, k: int|
                0 <= j < plans@.len() && 0 <= k < plans@[j].1.destinations@.len()
                    ==> #[trigger] plans@[j].1.destinations@[k] < self.partitions@.len(),
        ensures
            forall|i: int| 0 < i < r@.len() ==> r@[i - 1] < #[trigger] r@[i],
            forall|i: int| 0 <= i < r@.len() ==> #[trigger] r@[i] < self.partitions@.len(),
            forall|p: int|
                0 <= p < self.partitions@.len() ==> (#[trigger] r@.contains(p as usize) <==> follows(
                    changed@,
                    plans@,
                    p,
                )),
    {
        let n: usize = self.partitions.len();
        let mut flags: Vec<bool> = Vec::new();
        while flags.len() < n
            invariant
                flags@.len() <= n,
                forall|p: int| 0 <= p < flags@.len() ==> !#[trigger] flags@[p],
            decreases n - flags@.len(),
        {
            flags.push(false);
        }
        let mut k: usize = 0;
        while k < changed.len()
            invariant
                n == self.partitions@.len(),
                n <= 0xFFFF_FFFF,
                flags@.len() == n,
                k <= changed@.len(),
                forall|i: int| 0 <= i < changed@.len() ==> #[trigger] changed@[i] < self.partitions@.len(),
                forall|p: int|
                    0 <= p < n ==> #[trigger] flags@[p] == changed@.take(k as int).contains(p as u32),
            decreases changed.len() - k,
        {
            let c: u32 = changed[k];
            assert(changed@[k as int] < n);
            let ghost before = flags@;
            flags.set(c as usize, true);
            proof {
                let a = changed@.take(k as int);
                assert(changed@.take(k + 1) =~= a.push(c));
                assert forall|p: int| 0 <= p < n implies #[trigger] flags@[p] == a.push(c).contains(p as u32) by {
                    lemma_push_contains(a, c, p as u32);
                    assert(before[p] == a.contains(p as u32));
                }
            }
            k = k + 1;
        }
        assert(changed@.take(k as int) =~= changed@);
        let mut j: usize = 0;
        while j < plans.len()
            invariant
                n == self.partitions@.len(),
                n <= 0xFFFF_FFFF,
                flags@.len() == n,
                j <= plans@.len(),
                forall|i: int| 0 <= i < plans@.len() ==> (#[trigger] plans@[i]).0 < self.partitions@.len(),
                forall|i: int, q: int|
                    0 <= i < plans@.len() && 0 <= q < plans@[i].1.destinations@.len()
                        ==> #[trigger] plans@[i].1.destinations@[q] < self.partitions@.len(),
                forall|p: int|
                    0 <= p < n ==> #[trigger] flags@[p] == (changed@.contains(p as u32) || touched(
                        plans@,
                        j as int,
                        p,
                    )),
            decreases plans.len() - j,
        {
            let ghost before = flags@;
            assert(plans@[j as int].0 < n);
            self.flag_plan(&plans[j], &mut flags);
            proof {
                assert forall|p: int| 0 <= p < n implies #[trigger] flags@[p] == (changed@.contains(p as u32)
                    || touched(plans@, j + 1, p)) by {
                    lemma_touched_step(plans@, j as int, p);
                    assert(before[p] == (changed@.contains(p as u32) || touched(plans@, j as int, p)));
                }
            }
            j = j + 1;
        }
        let mut r: Vec<usize> = Vec::new();
        let mut p: usize = 0;
        while p < n
            invariant
                n == self.partitions@.len(),
                flags@.len() == n,
                p <= n,
                forall|i: int| 0 < i < r@.len() ==> r@[i - 1] < #[trigger] r@[i],
                forall|i: int| 0 <= i < r@.len() ==> #[trigger] r@[i] < p,
                forall|q: int| 0 <= q < p ==> (#[trigger] r@.contains(q as usize) <==> flags@[q]),
            decreases n - p,
        {
            let ghost before = r@;
            if flags[p] {
                r.push(p);
            }
            proof {
                assert forall|q: int| 0 <= q < p + 1 implies (#[trigger] r@.contains(q as usize) <==> flags@[q]) by {
                    if flags@[p as int] {
                        lemma_push_contains(before, p, q as usize);
                    }
                    if q == p && before.contains(p) {
                        let i = choose|i: int| 0 <= i < before.len() && before[i] == p;
                        assert(before[i] < p);
                    }
                    if q < p {
                        assert(before.contains(q as usize) <==> flags@[q]);
                    }
                }
            }
            p = p + 1;
        }
        r
    }

    /// Flags the partitions that a plan moves rows out of or into.
    fn flag_plan(&self, plan: &(usize, Reassignment), flags: &mut Vec<bool>)
        requires
            old(flags)@.len() <= 0xFFFF_FFFF,
            plan.0 < old(flags)@.len(),
            forall|k: int|
                0 <= k < plan.1.destinations@.len() ==> #[trigger] plan.1.destinations@[k] < old(flags)@.len(),
        ensures
            final(flags)@.len() == old(flags)@.len(),
            forall|p: int|
                0 <= p < old(flags)@.len() ==> #[trigger] final(flags)@[p] == (old(flags)@[p] || touched_by(
                    *plan,
                    p,
                )),
    {
        let to: &Vec<u32> = &plan.1.destinations;
        if to.len() == 0 {
            return;
        }
        let ghost start = flags@;
        flags.set(plan.0, true);
        let mut k: usize = 0;
        while k < to.len()
            invariant
                to@ == plan.1.destinations@,
                start.len() <= 0xFFFF_FFFF,
                plan.0 < start.len(),
                flags@.len() == start.len(),
                k <= to@.len(),
                forall|i: int| 0 <= i < to@.len() ==> #[trigger] to@[i] < start.len(),
                forall|p: int|
                    0 <= p < start.len() ==> #[trigger] flags@[p] == (start[p] || plan.0 == p || to@.take(
                        k as int,
                    ).contains(p as u32)),
            decreases to.len() - k,
        {
            let c: u32 = to[k];
            assert(to@[k as int] < start.len());
            let ghost before = flags@;
            flags.set(c as usize, true);
            proof {
                let a = to@.take(k as int);
                assert(to@.take(k + 1) =~= a.push(c));
                assert forall|p: int| 0 <= p < start.len() implies #[trigger] flags@[p] == (start[p] || plan.0 == p
                    || a.push(c).contains(p as u32)) by {
                    lemma_push_contains(a, c, p as u32);
                    assert(before[p] == (start[p] || plan.0 == p || a.contains(p as u32)));
                }
            }
            k = k + 1;
        }
        assert(to@.take(k as int) =~= to@);
    }

    /// Puts new centroids in place: `means` are those of `positions`, none for
    /// a partition without live first copies.
    pub fn refresh_centroids(&mut self, positions: &Vec<usize>, means: &Vec<Option<Vec<u32>>>)
        requires
            old(self).wf(),
            means@.len() == positions@.len(),
            forall|i: int| 0 <= i < positions@.len() ==> #[trigger] positions@[i] < old(self).partitions@.len(),
            forall|i: int| 0 < i < positions@.len() ==> positions@[i - 1] < #[trigger] positions@[i],
            forall|i: int|
                0 <= i < means@.len() && (#[trigger] means@[i]) is Some ==> means@[i]->0@.len() == old(
                    self,
                ).memtable.width(),
        ensures
            final(self).wf(),
            refreshes(*old(self), *final(self), positions@, means@),
            final(self).centroids_dirty == (old(self).centroids_dirty || exists|i: int|
                0 <= i < means@.len() && (#[trigger] means@[i]) is Some),
            *final(self) == (FreshIndex {
                centroids: final(self).centroids,
                centroids_dirty: final(self).centroids_dirty,
                ..*old(self)
            }),
    {
        let ghost x = *self;
        let ghost d = self.memtable.width();
        let ghost n = self.partitions@.len() as int;
        let mut i: usize = 0;
        while i < positions.len()
            invariant
                i <= positions@.len(),
                x == *old(self),
                self.wf(),
                d == x.memtable.width(),
                n == x.partitions@.len(),
                means@.len() == positions@.len(),
                forall|k: int| 0 <= k < positions@.len() ==> #[trigger] positions@[k] < n,
                forall|k: int| 0 < k < positions@.len() ==> positions@[k - 1] < #[trigger] positions@[k],
                forall|k: int|
                    0 <= k < means@.len() && (#[trigger] means@[k]) is Some ==> means@[k]->0@.len() == d,
                *self == (FreshIndex {
                    centroids: self.centroids,
                    centroids_dirty: self.centroids_dirty,
                    ..x
                }),
                refreshes(x, *self, positions@.take(i as int), means@.take(i as int)),
                self.centroids_dirty == (x.centroids_dirty || exists|k: int|
                    0 <= k < i && (#[trigger] means@[k]) is Some),
            decreases positions.len() - i,
        {
            let ghost before = *self;
            let at: usize = positions[i];
            assert(positions@[i as int] < n);
            if let Some(mean) = &means[i] {
                assert(means@[i as int] is Some);
                self.set_centroid(at, mean.as_slice());
            }
            proof {
                lemma_refresh_step(x, before, *self, positions@, means@, i as int);
            }
            i = i + 1;
        }
        assert(positions@.take(i as int) =~= positions@);
        assert(means@.take(i as int) =~= means@);
    }
}

proof fn lemma_push_contains<T>(s: Seq<T>, x: T, y: T)
    ensures
        s.push(x).contains(y) <==> s.contains(y) || x == y,
{
    if s.contains(y) {
        let i = choose|i: int| 0 <= i < s.len() && s[i] == y;
        assert(s.push(x)[i] == y);
    }
    assert(s.push(x)[s.len() as int] == x);
    if s.push(x).contains(y) {
        let i = choose|i: int| 0 <= i < s.len() + 1 && s.push(x)[i] == y;
        if i < s.len() {
            assert(s[i] == y);
        }
    }
}

proof fn lemma_ascending(positions: Seq<usize>, i: int, k: int)
    requires
        forall|j: int| 0 < j < positions.len() ==> positions[j - 1] < #[trigger] positions[j],
        0 <= i < k < positions.len(),
    ensures
        positions[i] < positions[k],
    decreases k - i,
{
    if i < k - 1 {
        lemma_ascending(positions, i, k - 1);
    }
    assert(positions[k - 1] < positions[k]);
}

proof fn lemma_refresh_step(
    x: FreshIndex,
    a: FreshIndex,
    b: FreshIndex,
    positions: Seq<usize>,
    means: Seq<Option<Vec<u32>>>,
    i: int,
)
    requires
        x.wf(),
        0 <= i < positions.len(),
        means.len() == positions.len(),
        forall|k: int| 0 <= k < positions.len() ==> #[trigger] positions[k] < x.partitions@.len(),
        forall|k: int| 0 < k < positions.len() ==> positions[k - 1] < #[trigger] positions[k],
        means[i] is Some ==> means[i]->0@.len() == x.memtable.width(),
        refreshes(x, a, positions.take(i), means.take(i)),
        b.centroids@ == match means[i] {
            Some(mean) => with_centroid(a.centroids@, positions[i] as int, mean@),
            None => a.centroids@,
        },
    ensures
        refreshes(x, b, positions.take(i + 1), means.take(i + 1)),
{
    let d = x.memtable.width();
    let n = x.partitions@.len() as int;
    let at = positions[i] as int;
    let was = positions.take(i);
    let now = positions.take(i + 1);
    assert(now =~= was.push(positions[i]));
    assert(positions[i] < n);
    if was.contains(positions[i]) {
        let k = choose|k: int| 0 <= k < was.len() && was[k] == positions[i];
        lemma_ascending(positions, k, i);
    }
    assert forall|p: int| 0 <= p < n implies #[trigger] row_of(b.centroids@, p, d) == if p == at && means[i] is Some {
        means[i]->0@
    } else {
        row_of(a.centroids@, p, d)
    } by {
        if means[i] is Some {
            lemma_one_centroid(a.centroids@, n, d, at, means[i]->0@, p);
        }
    }
    assert(b.centroids@.len() == x.centroids@.len()) by {
        if means[i] is Some {
            lemma_one_centroid(a.centroids@, n, d, at, means[i]->0@, at);
        }
    }
    assert forall|k: int| 0 <= k < now.len() implies #[trigger] row_of(b.centroids@, now[k] as int, d) == match means.take(
        i + 1,
    )[k] {
        Some(mean) => mean@,
        None => row_of(x.centroids@, now[k] as int, d),
    } by {
        assert(positions[k] < n);
        if k < i {
            lemma_ascending(positions, k, i);
            assert(was[k] == now[k]);
            assert(row_of(a.centroids@, was[k] as int, d) == match means.take(i)[k] {
                Some(mean) => mean@,
                None => row_of(x.centroids@, was[k] as int, d),
            });
        } else {
            assert(!was.contains(at as usize));
            assert(row_of(a.centroids@, at, d) == row_of(x.centroids@, at, d));
        }
    }
    assert forall|p: int| 0 <= p < n && !now.contains(p as usize) implies #[trigger] row_of(b.centroids@, p, d)
        == row_of(x.centroids@, p, d) by {
        lemma_push_contains(was, positions[i], p as usize);
        assert(row_of(a.centroids@, p, d) == row_of(x.centroids@, p, d));
    }
}

/// After a pass the centroid of a partition that neither changed nor lost nor
/// gained a row is what it was.
pub proof fn law_other_centroids_stay(
    x: FreshIndex,
    y: FreshIndex,
    changed: Seq<u32>,
    plans: Seq<(usize, Reassignment)>,
    positions: Seq<usize>,
    means: Seq<Option<Vec<u32>>>,
    p: int,
)
    requires
        refreshes(x, y, positions, means),
        0 <= p < x.partitions@.len(),
        positions.contains(p as usize) <==> follows(changed, plans, p),
        !follows(changed, plans, p),
    ensures
        row_of(y.centroids@, p, x.memtable.width()) == row_of(x.centroids@, p, x.memtable.width()),
{
}

} // verus!
