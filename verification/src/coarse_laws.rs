//! What a coarse index holds: every centroid once, in the group that it likes
//! best among those with room.
use vstd::prelude::*;
use crate::cluster_laws::{count_of, law_size_counts_rows};
use crate::clustering::{lemma_members, members_of, size_of};
use crate::coarse::{
    choices, first_open, group_capacity, group_count, grouped, initial_rows, is_root, is_stale,
    lemma_choices_len, order_by_group, visited, visits, within, CoarseIndex,
};
use crate::sort::{lemma_same_elements, lemma_sorted_pairs, pair_leq};

verus! {

/// A clustering starts from as many different rows as it has clusters: as many
/// as are asked for, but one at least and no more than there are.
pub proof fn law_clusters_start_from_different_rows(n: usize, k: usize, seed: u64, r: Vec<usize>)
    requires
        n > 0,
        k < n || n <= 0xFFFF_FFFF,
        initial_rows.ensures((n, k, seed), r),
    ensures
        r@.no_duplicates(),
        forall|i: int| 0 <= i < r@.len() ==> #[trigger] r@[i] < n,
        1 <= k <= n ==> r@.len() == k,
        k == 0 ==> r@.len() == 1,
        k >= n ==> r@.len() == n,
{
}

/// There are as many groups as the root of centroids times visits, rounded up,
/// but no more than centroids.
pub proof fn law_groups_balance_both_levels(probe: usize, nlist: usize, r: usize)
    requires
        1 <= nlist <= 0xFFFF_FFFF,
        group_count.ensures((probe, nlist), r),
    ensures
        1 <= r <= nlist,
        ({
            let x = if probe == 0 {
                nlist as int
            } else {
                probe * nlist
            };
            &&& (r - 1) * (r - 1) < x
            &&& r == nlist || x <= r * r
        }),
{
    let x = visited(probe as int, nlist as int);
    let root = choose|root: int| #[trigger] is_root(root, x) && r == within(root, nlist as int);
    assert(x >= 1) by (nonlinear_arith)
        requires
            x == (if probe < 1 {
                nlist as int
            } else {
                probe * nlist
            }),
            nlist >= 1,
            probe >= 0,
    ;
    assert(root >= 1) by (nonlinear_arith)
        requires
            1 <= x <= root * root,
            0 <= root,
    ;
    assert((r - 1) * (r - 1) < x) by (nonlinear_arith)
        requires
            1 <= r <= root,
            (root - 1) * (root - 1) < x,
    ;
}

/// Groups are out of date exactly if there are none, or if the greater of the
/// two numbers of centroids is more than six fifths of the lesser.
pub proof fn law_groups_get_stale(built_for: Option<usize>, nlist: usize, r: bool)
    requires
        is_stale.ensures((built_for, nlist), r),
        nlist >= 1,
        built_for is Some ==> built_for->0 >= 1,
    ensures
        built_for is None ==> r,
        built_for is Some ==> (r <==> 5 * nlist > 6 * built_for->0 || 5 * built_for->0 > 6 * nlist),
{
}

proof fn lemma_first_open_is_first(prefs: Seq<u32>, owners: Seq<u32>, cap: int, k: int)
    requires
        0 <= k <= prefs.len(),
        prefs.len() > 0,
        forall|j: int| 0 <= j < k ==> size_of(owners, #[trigger] prefs[j] as int) >= cap,
    ensures
        takes_first_open(prefs, owners, cap, first_open(prefs, owners, cap, k)),
    decreases prefs.len() - k,
{
    if k < prefs.len() && size_of(owners, prefs[k] as int) >= cap {
        lemma_first_open_is_first(prefs, owners, cap, k + 1);
    } else if k < prefs.len() {
        law_size_counts_rows(owners, prefs[k] as int);
        assert forall|j: int| 0 <= j < k implies count_of(owners, #[trigger] prefs[j] as int) >= cap by {
            law_size_counts_rows(owners, prefs[j] as int);
        }
        assert(prefs[k] == first_open(prefs, owners, cap, k));
    } else {
        assert forall|j: int| 0 <= j < prefs.len() implies count_of(owners, #[trigger] prefs[j] as int) >= cap by {
            law_size_counts_rows(owners, prefs[j] as int);
        }
    }
}

/// `g` is the first of the preferred groups that fewer than `cap` of `owners`
/// have chosen, or the most preferred one if there is none.
pub open spec fn takes_first_open(prefs: Seq<u32>, owners: Seq<u32>, cap: int, g: u32) -> bool {
    ||| exists|k: int|
        0 <= k < prefs.len() && #[trigger] prefs[k] == g && count_of(owners, g as int) < cap && forall|j: int|
            0 <= j < k ==> count_of(owners, #[trigger] prefs[j] as int) >= cap
    ||| g == prefs[0] && forall|j: int|
        0 <= j < prefs.len() ==> count_of(owners, #[trigger] prefs[j] as int) >= cap
}

/// The owners of the first `n` centroids in the order of choosing.
pub open spec fn chosen_before(owner: Seq<u32>, order: Seq<u32>, n: int) -> Seq<u32> {
    Seq::new(n as nat, |i: int| owner[order[i] as int])
}

/// One after the other, each centroid takes the first of its preferred groups
/// that has room.
pub proof fn law_centroids_take_the_first_open_group(
    prefs: Seq<Vec<u32>>,
    order: Seq<u32>,
    cap: int,
    owner: Seq<u32>,
    i: int,
)
    requires
        owner.len() == prefs.len(),
        forall|i: int|
            0 <= i < order.len() ==> owner[#[trigger] order[i] as int] == choices(
                prefs,
                order,
                cap,
                order.len() as int,
            )[i],
        order.len() == prefs.len(),
        0 <= i < order.len(),
        forall|i: int| 0 <= i < order.len() ==> #[trigger] order[i] < prefs.len(),
        prefs[order[i] as int]@.len() > 0,
    ensures
        takes_first_open(
            prefs[order[i] as int]@,
            chosen_before(owner, order, i),
            cap,
            owner[order[i] as int],
        ),
{
    let n = order.len() as int;
    let before = choices(prefs, order, cap, i);
    lemma_choices_len(prefs, order, cap, i);
    assert forall|j: int| 0 <= j < i implies before[j] == owner[#[trigger] order[j] as int] by {
        lemma_choices_agree(prefs, order, cap, i, n, j);
    }
    assert(before =~= chosen_before(owner, order, i));
    lemma_choices_agree(prefs, order, cap, i + 1, n, i);
    lemma_choices_len(prefs, order, cap, i + 1);
    assert(owner[order[i] as int] == first_open(prefs[order[i] as int]@, before, cap, 0));
    lemma_first_open_is_first(prefs[order[i] as int]@, before, cap, 0);
}

proof fn lemma_choices_agree(prefs: Seq<Vec<u32>>, order: Seq<u32>, cap: int, m: int, n: int, j: int)
    requires
        0 <= j < m <= n,
    ensures
        choices(prefs, order, cap, m)[j] == choices(prefs, order, cap, n)[j],
    decreases n,
{
    lemma_choices_len(prefs, order, cap, n - 1);
    if m < n {
        lemma_choices_agree(prefs, order, cap, m, n - 1, j);
    }
}

/// A group holds at most three halves of an even share, rounded up.
pub proof fn law_group_capacity(nlist: usize, n_groups: usize, r: usize)
    requires
        1 <= n_groups,
        1 <= nlist,
        group_capacity.ensures((nlist, n_groups), r),
    ensures
        3 * nlist <= 2 * n_groups * r,
        2 * n_groups * (r - 1) < 3 * nlist,
{
    let a = 3 * nlist as int;
    let b = 2 * n_groups as int;
    vstd::arithmetic::div_mod::lemma_fundamental_div_mod(a + b - 1, b);
    assert(a <= b * r && b * (r - 1) < a) by (nonlinear_arith)
        requires
            a + b - 1 == b * r + (a + b - 1) % b,
            0 <= (a + b - 1) % b < b,
    ;
}

/// Centroid `c` is listed in group `s`.
pub open spec fn in_group(x: CoarseIndex, s: int, c: u32) -> bool {
    exists|k: int| x.member_offsets@[s] <= k < x.member_offsets@[s + 1] && #[trigger] x.members@[k] == c
}

proof fn lemma_grouped_prefix(owner: Seq<u32>, s: int, t: int)
    requires
        0 <= s <= t,
    ensures
        grouped(owner, s).len() <= grouped(owner, t).len(),
        grouped(owner, t).take(grouped(owner, s).len() as int) == grouped(owner, s),
    decreases t,
{
    if s < t {
        lemma_grouped_prefix(owner, s, t - 1);
        let a = grouped(owner, t - 1);
        let b = grouped(owner, t);
        assert(b.take(grouped(owner, s).len() as int) =~= a.take(grouped(owner, s).len() as int));
    } else {
        assert(grouped(owner, t).take(grouped(owner, t).len() as int) =~= grouped(owner, t));
    }
}

/// A group lists exactly the centroids that it owns.
pub proof fn law_groups_list_their_centroids(owner: &Vec<u32>, n_super: usize, x: CoarseIndex, s: int, c: u32)
    requires
        owner@.len() <= 0xFFFF_FFFF,
        CoarseIndex::build.ensures((owner, n_super), x),
        0 <= s < n_super,
        c < owner@.len(),
    ensures
        x.n_super == n_super,
        x.built_for == owner@.len(),
        in_group(x, s, c) <==> owner@[c as int] == s,
{
    let n = owner@.len() as int;
    let list = members_of(owner@, s, n);
    let a = grouped(owner@, s);
    let b = grouped(owner@, s + 1);
    lemma_members(owner@, s, n);
    lemma_grouped_prefix(owner@, s + 1, n_super as int);
    assert(x.member_offsets@[s] == a.len());
    assert(x.member_offsets@[s + 1] == b.len());
    assert forall|k: int| 0 <= k < list.len() implies x.members@[a.len() + k] == #[trigger] list[k] by {
        assert(x.members@.take(b.len() as int)[a.len() + k] == b[a.len() + k]);
    }
    if in_group(x, s, c) {
        let k = choose|k: int| x.member_offsets@[s] <= k < x.member_offsets@[s + 1] && #[trigger] x.members@[k] == c;
        assert(x.members@[a.len() + (k - a.len())] == list[k - a.len()]);
        assert(owner@[list[k - a.len()]] == s);
    }
    if owner@[c as int] == s {
        assert(list.contains(c as int));
        let k = choose|k: int| 0 <= k < list.len() && list[k] == c;
        assert(x.members@[a.len() + k] == c);
    }
}

/// The visits of one round come group by group, each row once with its group.
pub proof fn law_visits_come_group_by_group(groups: &Vec<u32>, r: Vec<(u64, u64)>)
    requires
        order_by_group.ensures((groups,), r),
        groups@.len() <= u64::MAX,
    ensures
        r@.len() == groups@.len(),
        forall|i: int, k: int| 0 <= i < k < r@.len() ==> (#[trigger] r@[i]).0 <= (#[trigger] r@[k]).0,
        forall|i: int| 0 <= i < r@.len() ==> (#[trigger] r@[i]).1 < groups@.len() && r@[i].0 == groups@[r@[i].1 as int],
        forall|v: int| 0 <= v < groups@.len() ==> #[trigger] r@.contains((groups@[v] as u64, v as u64)),
{
    let v = visits(groups@);
    lemma_sorted_pairs(v);
    lemma_same_elements(r@, v);
    assert forall|i: int, k: int| 0 <= i < k < r@.len() implies (#[trigger] r@[i]).0 <= (#[trigger] r@[k]).0 by {
        assert(pair_leq(r@[i], r@[k]));
    }
    assert forall|i: int| 0 <= i < r@.len() implies (#[trigger] r@[i]).1 < groups@.len() && r@[i].0
        == groups@[r@[i].1 as int] by {
        assert(r@.contains(r@[i]));
        assert(v.contains(r@[i]));
    }
    assert forall|q: int| 0 <= q < groups@.len() implies #[trigger] r@.contains((groups@[q] as u64, q as u64)) by {
        assert(v.contains(v[q]));
    }
}

} // verus!
