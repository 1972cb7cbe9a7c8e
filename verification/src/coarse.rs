//! Two-level assignment, and the seeds of a clustering.
use rand::SeedableRng;
use vstd::prelude::*;
use crate::clustering::{lemma_members, members_of, size_of};
use crate::math::ceil_div;
use crate::sort::{sort_pairs, sorted_pairs};

verus! {

/// The rows that a sampler seeded with `seed` draws, `k` out of `n`.
pub uninterp spec fn drawn(seed: u64, n: usize, k: usize) -> Seq<usize>;

/// `rand::seq::index::sample`, drawing from `rand_chacha::ChaCha8Rng` seeded by
/// `seed_from_u64`: exactly `k` distinct indices below `n`, which depend on
/// the seed and on the two numbers only. It panics if `k` exceeds `n`, and is
/// not made to draw all of more than 2^32 - 1.
#[verifier::external_body]
fn sample_indices(seed: u64, n: usize, k: usize) -> (r: Vec<usize>)
    requires
        k <= n,
        k < n || n <= 0xFFFF_FFFF,
    ensures
        r@ == drawn(seed, n, k),
        r@.len() == k,
        r@.no_duplicates(),
        forall|i: int| 0 <= i < r@.len() ==> #[trigger] r@[i] < n,
{
    rand::seq::index::sample(&mut rand_chacha::ChaCha8Rng::seed_from_u64(seed), n, k).into_vec()
}

/// `k`, but at least 1 and at most `n`.
pub open spec fn cluster_count(n: int, k: int) -> int {
    if k < 1 {
        1
    } else if k > n {
        n
    } else {
        k
    }
}

/// The rows that a clustering of `n` rows into `k` clusters starts from.
pub fn initial_rows(n: usize, k: usize, seed: u64) -> (r: Vec<usize>)
    requires
        n > 0,
        k < n || n <= 0xFFFF_FFFF,
    ensures
        r@ == drawn(seed, n, cluster_count(n as int, k as int) as usize),
        r@.len() == cluster_count(n as int, k as int),
        r@.no_duplicates(),
        forall|i: int| 0 <= i < r@.len() ==> #[trigger] r@[i] < n,
{
    let k: usize = if k < 1 {
        1
    } else if k > n {
        n
    } else {
        k
    };
    sample_indices(seed, n, k)
}

/// The row that lies farthest from its centroid, the last of several; 0 if
/// there are none. Distances are bit patterns of numbers that are not
/// negative.
pub fn farthest(distances: &Vec<u32>) -> (r: usize)
    ensures
        distances@.len() == 0 ==> r == 0,
        distances@.len() > 0 ==> {
            &&& r < distances@.len()
            &&& forall|i: int| 0 <= i <= r ==> #[trigger] distances@[i] <= distances@[r as int]
            &&& forall|i: int| r < i < distances@.len() ==> #[trigger] distances@[i] < distances@[r as int]
        },
{
    let mut r: usize = 0;
    let mut i: usize = 0;
    while i < distances.len()
        invariant
            i <= distances@.len(),
            i == 0 ==> r == 0,
            i > 0 ==> {
                &&& r < i
                &&& forall|k: int| 0 <= k <= r ==> #[trigger] distances@[k] <= distances@[r as int]
                &&& forall|k: int| r < k < i ==> #[trigger] distances@[k] < distances@[r as int]
            },
        decreases distances.len() - i,
    {
        if distances[i] >= distances[r] {
            r = i;
        }
        i = i + 1;
    }
    r
}

/// The least number whose square is not below `x`.
pub open spec fn is_root(r: int, x: int) -> bool {
    &&& 0 <= r
    &&& x <= r * r
    &&& r > 0 ==> (r - 1) * (r - 1) < x
}

/// Groups that rows visit, at least one each, times the centroids.
pub open spec fn visited(probe: int, nlist: int) -> int {
    if probe < 1 {
        nlist
    } else {
        probe * nlist
    }
}

/// `root`, but at least 1 and at most `nlist`.
pub open spec fn within(root: int, nlist: int) -> int {
    if root > nlist {
        nlist
    } else if root < 1 && nlist >= 1 {
        1
    } else {
        root
    }
}

/// Number of groups over `nlist` centroids for rows that each visit `probe`
/// groups: the root of their product, but at least 1 and at most `nlist`.
pub fn group_count(probe: usize, nlist: usize) -> (r: usize)
    requires
        nlist <= 0xFFFF_FFFF,
    ensures
        exists|root: int| #[trigger]
            is_root(root, visited(probe as int, nlist as int)) && r == within(root, nlist as int),
{
    let p: usize = if probe < 1 {
        1
    } else {
        probe
    };
    let ghost x = visited(probe as int, nlist as int);
    assert(x == p * nlist) by (nonlinear_arith)
        requires
            x == (if probe < 1 {
                nlist as int
            } else {
                probe * nlist
            }),
            p == (if probe < 1 {
                1int
            } else {
                probe as int
            }),
    ;
    if nlist == 0 {
        assert(p * 0 == 0) by (nonlinear_arith);
        assert(is_root(0, x));
        return 0;
    }
    if p >= nlist {
        proof {
            lemma_root_exists(x);
            let root = choose|root: int| is_root(root, x);
            assert(root >= nlist) by (nonlinear_arith)
                requires
                    x == p * nlist,
                    p >= nlist,
                    nlist >= 1,
                    x <= root * root,
                    0 <= root,
            ;
            assert(is_root(root, x));
        }
        return nlist;
    }
    assert(p * nlist <= 0xFFFF_FFFF * 0xFFFF_FFFF) by (nonlinear_arith)
        requires
            p < nlist,
            nlist <= 0xFFFF_FFFF,
    ;
    let product: u64 = p as u64 * nlist as u64;
    let mut lo: u64 = 0;
    let mut hi: u64 = nlist as u64;
    assert(x <= hi * hi) by (nonlinear_arith)
        requires
            x == p * nlist,
            p < nlist,
            hi == nlist,
    ;
    assert(0 * 0 < x) by (nonlinear_arith)
        requires
            x == p * nlist,
            p >= 1,
            nlist >= 1,
    ;
    while hi - lo > 1
        invariant
            lo < hi <= nlist,
            nlist <= 0xFFFF_FFFF,
            product == x,
            lo * lo < x <= hi * hi,
        decreases hi - lo,
    {
        let mid: u64 = lo + (hi - lo) / 2;
        assert(mid * mid <= 0xFFFF_FFFF * 0xFFFF_FFFF) by (nonlinear_arith)
            requires
                mid <= 0xFFFF_FFFF,
        ;
        if mid * mid < product {
            lo = mid;
        } else {
            hi = mid;
        }
    }
    assert(is_root(hi as int, x));
    hi as usize
}

proof fn lemma_root_exists(x: int)
    requires
        0 <= x,
    ensures
        exists|r: int| is_root(r, x),
{
    lemma_root_below(x, 0);
}

proof fn lemma_root_below(x: int, lo: int)
    requires
        0 <= lo,
        lo == 0 || (lo - 1) * (lo - 1) < x,
    ensures
        exists|r: int| is_root(r, x),
    decreases (if x - lo > 0 {
        x - lo
    } else {
        0
    }),
{
    if x <= lo * lo {
        assert(is_root(lo, x));
    } else {
        assert(lo < x) by (nonlinear_arith)
            requires
                lo * lo < x,
                0 <= lo,
        ;
        lemma_root_below(x, lo + 1);
    }
}

/// Whether groups over `built_for` centroids are out of date for `nlist`: the
/// numbers are more than a fifth apart.
pub fn is_stale(built_for: Option<usize>, nlist: usize) -> (r: bool)
    ensures
        match built_for {
            None => r,
            Some(b) => {
                let grown = if nlist > b {
                    nlist as int
                } else {
                    b as int
                };
                let shrunk = nlist + b - grown;
                r == (5 * grown > 6 * (if shrunk > 1 {
                    shrunk
                } else {
                    1
                }))
            },
        },
{
    match built_for {
        None => true,
        Some(b) => {
            let grown: u128 = if nlist > b {
                nlist as u128
            } else {
                b as u128
            };
            let shrunk: u128 = if nlist > b {
                b as u128
            } else {
                nlist as u128
            };
            5 * grown > 6 * (if shrunk > 1 {
                shrunk
            } else {
                1
            })
        },
    }
}

/// The first of `prefs` from `k` on that is below its capacity, else the first
/// of all.
pub open spec fn first_open(prefs: Seq<u32>, owners: Seq<u32>, cap: int, k: int) -> u32
    decreases prefs.len() - k,
{
    if k >= prefs.len() {
        prefs[0]
    } else if size_of(owners, prefs[k] as int) < cap {
        prefs[k]
    } else {
        first_open(prefs, owners, cap, k + 1)
    }
}

/// The choices of the first `n` in `order`, one after the other.
pub open spec fn choices(prefs: Seq<Vec<u32>>, order: Seq<u32>, cap: int, n: int) -> Seq<u32>
    decreases n,
{
    if n <= 0 {
        Seq::empty()
    } else {
        let before = choices(prefs, order, cap, n - 1);
        before.push(first_open(prefs[order[n - 1] as int]@, before, cap, 0))
    }
}

/// As many choices as choosers.
pub proof fn lemma_choices_len(prefs: Seq<Vec<u32>>, order: Seq<u32>, cap: int, n: int)
    requires
        0 <= n,
    ensures
        choices(prefs, order, cap, n).len() == n,
    decreases n,
{
    if n > 0 {
        lemma_choices_len(prefs, order, cap, n - 1);
    }
}

/// Every list names groups only, and some group.
pub open spec fn valid_prefs(prefs: Seq<Vec<u32>>, n_groups: int) -> bool {
    forall|c: int|
        0 <= c < prefs.len() ==> (#[trigger] prefs[c])@.len() > 0 && forall|k: int|
            0 <= k < prefs[c]@.len() ==> #[trigger] prefs[c]@[k] < n_groups
}

proof fn lemma_first_open(prefs: Seq<u32>, owners: Seq<u32>, cap: int, k: int, n_groups: int)
    requires
        0 <= k <= prefs.len(),
        prefs.len() > 0,
        forall|j: int| 0 <= j < prefs.len() ==> #[trigger] prefs[j] < n_groups,
    ensures
        first_open(prefs, owners, cap, k) < n_groups,
    decreases prefs.len() - k,
{
    if k < prefs.len() {
        assert(prefs[k] < n_groups);
        lemma_first_open(prefs, owners, cap, k + 1, n_groups);
    } else {
        assert(prefs[0] < n_groups);
    }
}

/// Gives each centroid a group: in `order`, each takes the first of its
/// preferred groups that has fewer than `cap` members.
pub fn balanced_owners(prefs: &Vec<Vec<u32>>, order: &Vec<u32>, n_groups: usize, cap: usize) -> (owner: Vec<u32>)
    requires
        n_groups <= 0xFFFF_FFFF,
        prefs@.len() <= 0xFFFF_FFFF,
        valid_prefs(prefs@, n_groups as int),
        order@.len() == prefs@.len(),
        order@.no_duplicates(),
        forall|i: int| 0 <= i < order@.len() ==> #[trigger] order@[i] < prefs@.len(),
    ensures
        owner@.len() == prefs@.len(),
        forall|i: int|
            0 <= i < order@.len() ==> owner@[#[trigger] order@[i] as int] == choices(
                prefs@,
                order@,
                cap as int,
                order@.len() as int,
            )[i],
        forall|i: int| 0 <= i < owner@.len() ==> #[trigger] owner@[i] < n_groups,
{
    let n: usize = prefs.len();
    let mut owner: Vec<u32> = Vec::new();
    let mut c: usize = 0;
    while c < n
        invariant
            n == prefs@.len(),
            valid_prefs(prefs@, n_groups as int),
            c <= n,
            owner@.len() == c,
            forall|k: int| 0 <= k < c ==> #[trigger] owner@[k] < n_groups,
        decreases n - c,
    {
        assert(prefs@[c as int]@.len() > 0 && prefs@[c as int]@[0] < n_groups);
        owner.push(0);
        c = c + 1;
    }
    let mut counts: Vec<usize> = Vec::new();
    let mut g: usize = 0;
    while g < n_groups
        invariant
            g <= n_groups,
            counts@.len() == g,
            forall|s: int| 0 <= s < g ==> #[trigger] counts@[s] == 0,
        decreases n_groups - g,
    {
        counts.push(0);
        g = g + 1;
    }
    let ghost mut made: Seq<u32> = Seq::empty();
    let mut i: usize = 0;
    while i < n
        invariant
            n == prefs@.len(),
            n == order@.len(),
            n <= 0xFFFF_FFFF,
            n_groups <= 0xFFFF_FFFF,
            valid_prefs(prefs@, n_groups as int),
            order@.no_duplicates(),
            forall|k: int| 0 <= k < order@.len() ==> #[trigger] order@[k] < prefs@.len(),
            i <= n,
            owner@.len() == n,
            forall|k: int| 0 <= k < n ==> #[trigger] owner@[k] < n_groups,
            counts@.len() == n_groups,
            made == choices(prefs@, order@, cap as int, i as int),
            made.len() == i,
            forall|s: int| 0 <= s < n_groups ==> #[trigger] counts@[s] == size_of(made, s),
            forall|k: int| 0 <= k < i ==> owner@[#[trigger] order@[k] as int] == made[k],
        decreases n - i,
    {
        assert(order@[i as int] < prefs@.len());
        let c: usize = order[i] as usize;
        let list: &Vec<u32> = &prefs[c];
        assert(prefs@[c as int]@.len() > 0);
        let mut k: usize = 0;
        let mut choice: u32 = list[0];
        let mut found: bool = false;
        while k < list.len() && !found
            invariant
                list@ == prefs@[c as int]@,
                c < prefs@.len(),
                valid_prefs(prefs@, n_groups as int),
                k <= list@.len(),
                list@.len() > 0,
                counts@.len() == n_groups,
                forall|s: int| 0 <= s < n_groups ==> #[trigger] counts@[s] == size_of(made, s),
                found ==> choice == first_open(list@, made, cap as int, 0),
                !found ==> choice == list@[0] && first_open(list@, made, cap as int, 0) == first_open(
                    list@,
                    made,
                    cap as int,
                    k as int,
                ),
            decreases list.len() - k,
        {
            assert(prefs@[c as int]@[k as int] < n_groups);
            let s: u32 = list[k];
            assert(counts@[s as int] == size_of(made, s as int));
            if counts[s as usize] < cap {
                choice = s;
                found = true;
            }
            k = k + 1;
        }
        assert(choice == first_open(list@, made, cap as int, 0));
        proof {
            lemma_first_open(list@, made, cap as int, 0, n_groups as int);
            crate::clustering::lemma_size_bound(made, choice as int);
        }
        let at: usize = choice as usize;
        assert(counts@[at as int] == size_of(made, at as int));
        let count: usize = counts[at];
        counts.set(at, count + 1);
        let ghost before = owner@;
        owner.set(c, choice);
        proof {
            let was = made;
            made = made.push(choice);
            assert(made.drop_last() =~= was);
            assert forall|s: int| 0 <= s < n_groups implies #[trigger] counts@[s] == size_of(made, s) by {
                assert(size_of(made, s) == size_of(was, s) + (if choice == s {
                    1int
                } else {
                    0int
                }));
            }
            assert forall|k: int| 0 <= k < i + 1 implies owner@[#[trigger] order@[k] as int] == made[k] by {
                if k < i {
                    assert(order@[k] != order@[i as int]);
                    assert(before[order@[k] as int] == was[k]);
                }
            }
        }
        i = i + 1;
    }
    owner
}

proof fn lemma_open_found(prefs: Seq<u32>, owners: Seq<u32>, cap: int, k: int, s: int)
    requires
        0 <= k <= s < prefs.len(),
        size_of(owners, prefs[s] as int) < cap,
    ensures
        size_of(owners, first_open(prefs, owners, cap, k) as int) < cap,
    decreases s - k,
{
    if k < s && size_of(owners, prefs[k] as int) >= cap {
        lemma_open_found(prefs, owners, cap, k + 1, s);
    }
}

/// Members of the groups before `m`.
spec fn members_below(owners: Seq<u32>, m: int) -> int
    decreases m,
{
    if m <= 0 {
        0
    } else {
        members_below(owners, m - 1) + size_of(owners, m - 1)
    }
}

proof fn lemma_members_below(owners: Seq<u32>, m: int)
    requires
        0 <= m,
    ensures
        members_below(owners, m) <= owners.len(),
    decreases owners.len(),
{
    if owners.len() > 0 {
        lemma_members_below(owners.drop_last(), m);
        lemma_members_step(owners, m);
    } else {
        lemma_members_none(owners, m);
    }
}

proof fn lemma_members_none(owners: Seq<u32>, m: int)
    requires
        owners.len() == 0,
    ensures
        members_below(owners, m) == 0,
    decreases m,
{
    if m > 0 {
        lemma_members_none(owners, m - 1);
    }
}

proof fn lemma_members_step(owners: Seq<u32>, m: int)
    requires
        owners.len() > 0,
    ensures
        members_below(owners, m) <= members_below(owners.drop_last(), m) + 1,
        owners.last() >= m ==> members_below(owners, m) == members_below(owners.drop_last(), m),
    decreases m,
{
    if m > 0 {
        lemma_members_step(owners, m - 1);
    }
}

proof fn lemma_full(owners: Seq<u32>, cap: int, m: int)
    requires
        0 <= m,
        forall|s: int| 0 <= s < m ==> #[trigger] size_of(owners, s) >= cap,
    ensures
        members_below(owners, m) >= m * cap,
    decreases m,
{
    if m > 0 {
        lemma_full(owners, cap, m - 1);
        assert(size_of(owners, m - 1) >= cap);
        assert(m * cap == (m - 1) * cap + cap) by (nonlinear_arith);
    } else {
        assert(0 * cap == 0) by (nonlinear_arith);
    }
}

/// Where every list names all groups and the groups together have room for
/// all centroids, no group gets more than its capacity.
pub proof fn law_owners_are_balanced(
    prefs: Seq<Vec<u32>>,
    order: Seq<u32>,
    cap: int,
    n_groups: int,
    n: int,
    s: int,
)
    requires
        0 <= n <= order.len(),
        1 <= n_groups <= 0xFFFF_FFFF,
        order.len() <= n_groups * cap,
        forall|i: int| 0 <= i < order.len() ==> #[trigger] order[i] < prefs.len(),
        forall|c: int, g: u32|
            0 <= c < prefs.len() && g < n_groups ==> #[trigger] prefs[c]@.contains(g),
        valid_prefs(prefs, n_groups),
    ensures
        size_of(choices(prefs, order, cap, n), s) <= cap,
    decreases n,
{
    lemma_choices_len(prefs, order, cap, n);
    if n == 0 {
        assert(0 <= cap) by (nonlinear_arith)
            requires
                0 <= order.len(),
                order.len() <= n_groups * cap,
                1 <= n_groups,
        ;
    } else {
        let before = choices(prefs, order, cap, n - 1);
        law_owners_are_balanced(prefs, order, cap, n_groups, n - 1, s);
        let list = prefs[order[n - 1] as int]@;
        assert(order[n - 1] < prefs.len());
        assert(choices(prefs, order, cap, n).drop_last() =~= before);
        if forall|g: int| 0 <= g < n_groups ==> #[trigger] size_of(before, g) >= cap {
            lemma_full(before, cap, n_groups);
            lemma_members_below(before, n_groups);
            lemma_choices_len(prefs, order, cap, n - 1);
        }
        let g = choose|g: int| 0 <= g < n_groups && #[trigger] size_of(before, g) < cap;
        assert(prefs[order[n - 1] as int]@.contains(g as u32));
        let k = choose|k: int| 0 <= k < list.len() && list[k] == g as u32;
        lemma_open_found(list, before, cap, 0, k);
    }
}

/// The greatest number of members of a group: three halves of an even share,
/// rounded up.
pub open spec fn capacity(nlist: int, n_groups: int) -> int {
    ceil_div(3 * nlist, 2 * n_groups)
}

/// The greatest number of members of a group.
pub fn group_capacity(nlist: usize, n_groups: usize) -> (r: usize)
    requires
        1 <= n_groups,
        1 <= nlist,
        3 * nlist <= usize::MAX,
    ensures
        r == capacity(nlist as int, n_groups as int),
        1 <= r,
        nlist <= n_groups * r,
{
    let a: u128 = 3 * (nlist as u128);
    let b: u128 = 2 * (n_groups as u128);
    let r: u128 = (a + (b - 1)) / b;
    proof {
        let q = r as int;
        vstd::arithmetic::div_mod::lemma_fundamental_div_mod(a + (b - 1), b as int);
        assert(a <= b * q <= a + (b - 1)) by (nonlinear_arith)
            requires
                a + (b - 1) == b * q + (a + (b - 1)) % (b as int),
                0 <= (a + (b - 1)) % (b as int) < b,
        ;
        assert(1 <= q <= a) by (nonlinear_arith)
            requires
                a <= b * q <= a + (b - 1),
                1 <= a,
                2 <= b,
        ;
        assert(nlist <= n_groups * q) by (nonlinear_arith)
            requires
                3 * nlist <= 2 * n_groups * q,
                0 <= nlist,
        ;
    }
    r as usize
}

proof fn lemma_members_all(owners: Seq<u32>, m: int)
    requires
        0 <= m,
        forall|i: int| 0 <= i < owners.len() ==> #[trigger] owners[i] < m,
    ensures
        members_below(owners, m) == owners.len(),
    decreases owners.len(),
{
    if owners.len() > 0 {
        let before = owners.drop_last();
        assert forall|i: int| 0 <= i < before.len() implies #[trigger] before[i] < m by {
            assert(before[i] == owners[i]);
        }
        lemma_members_all(before, m);
        lemma_members_more(owners, m);
    } else {
        lemma_members_none(owners, m);
    }
}

proof fn lemma_members_more(owners: Seq<u32>, m: int)
    requires
        owners.len() > 0,
        owners.last() < m,
    ensures
        members_below(owners, m) == members_below(owners.drop_last(), m) + 1,
    decreases m,
{
    if owners.last() < m - 1 {
        lemma_members_more(owners, m - 1);
    } else {
        lemma_members_step(owners, m - 1);
    }
}

proof fn lemma_size_update(a: Seq<u32>, at: int, v: u32, s: int)
    requires
        0 <= at < a.len(),
        a[at] == s,
        v != s,
    ensures
        size_of(a.update(at, v), s) == size_of(a, s) - 1,
    decreases a.len(),
{
    let b = a.update(at, v);
    if at == a.len() - 1 {
        assert(b.drop_last() =~= a.drop_last());
    } else {
        lemma_size_update(a.drop_last(), at, v, s);
        assert(b.drop_last() =~= a.drop_last().update(at, v));
    }
}

/// What is picked out of a list at different places is in the list as often at
/// least.
proof fn lemma_size_picked(a: Seq<u32>, order: Seq<u32>, m: int, s: int, picked: Seq<u32>)
    requires
        0 <= m <= order.len(),
        order.no_duplicates(),
        forall|i: int| 0 <= i < order.len() ==> #[trigger] order[i] < a.len(),
        picked.len() == m,
        forall|i: int| 0 <= i < m ==> #[trigger] picked[i] == a[order[i] as int],
    ensures
        size_of(picked, s) <= size_of(a, s),
    decreases m,
{
    if m == 0 {
        crate::clustering::lemma_size_bound(a, s);
    } else {
        let before = picked.drop_last();
        let at = order[m - 1] as int;
        assert(picked[m - 1] == a[at]);
        if picked.last() == s {
            let v: u32 = if s == 0 {
                1
            } else {
                0
            };
            let b = a.update(at, v);
            lemma_size_update(a, at, v, s);
            assert forall|i: int| 0 <= i < m - 1 implies #[trigger] before[i] == b[order[i] as int] by {
                assert(before[i] == picked[i]);
                assert(order[i] != order[m - 1]);
            }
            lemma_size_picked(b, order, m - 1, s, before);
        } else {
            assert forall|i: int| 0 <= i < m - 1 implies #[trigger] before[i] == a[order[i] as int] by {
                assert(before[i] == picked[i]);
            }
            lemma_size_picked(a, order, m - 1, s, before);
        }
    }
}

/// Where no group is smaller and the totals are the same, the sizes are.
proof fn lemma_sizes_agree(a: Seq<u32>, b: Seq<u32>, m: int, s: int)
    requires
        0 <= s < m,
        forall|g: int| 0 <= g < m ==> #[trigger] size_of(a, g) <= size_of(b, g),
        members_below(a, m) >= members_below(b, m),
    ensures
        size_of(a, s) == size_of(b, s),
    decreases m,
{
    assert(size_of(a, m - 1) <= size_of(b, m - 1));
    lemma_members_least(a, b, m - 1);
    if s < m - 1 {
        lemma_sizes_agree(a, b, m - 1, s);
    }
}

proof fn lemma_members_least(a: Seq<u32>, b: Seq<u32>, m: int)
    requires
        forall|g: int| 0 <= g < m ==> #[trigger] size_of(a, g) <= size_of(b, g),
    ensures
        members_below(a, m) <= members_below(b, m),
    decreases m,
{
    if m > 0 {
        assert(size_of(a, m - 1) <= size_of(b, m - 1));
        lemma_members_least(a, b, m - 1);
    }
}

/// The members of the groups before `s`, group after group.
pub open spec fn grouped(owner: Seq<u32>, s: int) -> Seq<u32>
    decreases s,
{
    if s <= 0 {
        Seq::empty()
    } else {
        grouped(owner, s - 1) + Seq::new(
            members_of(owner, s - 1, owner.len() as int).len(),
            |k: int| members_of(owner, s - 1, owner.len() as int)[k] as u32,
        )
    }
}

proof fn lemma_grouped_len(owner: Seq<u32>, s: int)
    requires
        0 <= s,
    ensures
        grouped(owner, s).len() == members_below(owner, s),
    decreases s,
{
    if s > 0 {
        lemma_grouped_len(owner, s - 1);
        lemma_members(owner, s - 1, owner.len() as int);
        assert(owner.take(owner.len() as int) =~= owner);
    }
}

/// Groups over centroids.
pub struct CoarseIndex {
    /// Number of centroids that the groups were made for.
    pub built_for: usize,
    pub n_super: usize,
    /// Where each group's members start, and where the last ends.
    pub member_offsets: Vec<usize>,
    /// Centroids, group after group.
    pub members: Vec<u32>,
}

impl CoarseIndex {
    /// The member tables are those of `owner`.
    pub open spec fn lists(self, owner: Seq<u32>) -> bool {
        &&& self.built_for == owner.len()
        &&& self.member_offsets@.len() == self.n_super + 1
        &&& self.members@ == grouped(owner, self.n_super as int)
        &&& forall|s: int|
            0 <= s <= self.n_super ==> #[trigger] self.member_offsets@[s] == grouped(owner, s).len()
    }

    /// Groups in which no group holds more than three halves of an even share:
    /// in `order`, each centroid takes the first of its preferred groups that
    /// has room.
    pub fn group(prefs: &Vec<Vec<u32>>, order: &Vec<u32>, n_super: usize) -> (r: CoarseIndex)
        requires
            1 <= n_super <= 0xFFFF_FFFF,
            n_super < usize::MAX,
            1 <= prefs@.len() <= 0xFFFF_FFFF,
            3 * prefs@.len() <= usize::MAX,
            valid_prefs(prefs@, n_super as int),
            forall|c: int, g: u32| 0 <= c < prefs@.len() && g < n_super ==> #[trigger] prefs@[c]@.contains(g),
            order@.len() == prefs@.len(),
            order@.no_duplicates(),
            forall|i: int| 0 <= i < order@.len() ==> #[trigger] order@[i] < prefs@.len(),
        ensures
            r.n_super == n_super,
            r.built_for == prefs@.len(),
            exists|owner: Seq<u32>| #[trigger]
                r.lists(owner) && forall|i: int|
                    0 <= i < order@.len() ==> owner[#[trigger] order@[i] as int] == choices(
                        prefs@,
                        order@,
                        capacity(prefs@.len() as int, n_super as int),
                        order@.len() as int,
                    )[i],
            r.members@.len() == prefs@.len(),
            r.member_offsets@.len() == n_super + 1,
            r.member_offsets@[0] == 0,
            r.member_offsets@[n_super as int] == prefs@.len(),
            forall|s: int|
                0 <= s < n_super ==> 0 <= #[trigger] r.member_offsets@[s + 1] - r.member_offsets@[s] <= capacity(
                    prefs@.len() as int,
                    n_super as int,
                ),
    {
        let n: usize = prefs.len();
        let cap: usize = group_capacity(n, n_super);
        let owner: Vec<u32> = balanced_owners(prefs, order, n_super, cap);
        let r: CoarseIndex = CoarseIndex::build(&owner, n_super);
        proof {
            let made = choices(prefs@, order@, cap as int, n as int);
            let m = n_super as int;
            lemma_choices_len(prefs@, order@, cap as int, n as int);
            assert forall|i: int| 0 <= i < n implies #[trigger] made[i] == owner@[order@[i] as int] by {
                assert(owner@[order@[i] as int] == made[i]);
            }
            assert forall|i: int| 0 <= i < made.len() implies #[trigger] made[i] < m by {
                assert(made[i] == owner@[order@[i] as int]);
                assert(order@[i] < prefs@.len());
            }
            assert forall|g: int| 0 <= g < m implies #[trigger] size_of(made, g) <= size_of(owner@, g) by {
                lemma_size_picked(owner@, order@, n as int, g, made);
            }
            lemma_members_all(made, m);
            lemma_members_all(owner@, m);
            lemma_grouped_len(owner@, m);
            assert(n <= m * cap);
            assert forall|s: int| 0 <= s < n_super implies 0 <= #[trigger] r.member_offsets@[s + 1]
                - r.member_offsets@[s] <= cap by {
                lemma_sizes_agree(made, owner@, m, s);
                law_owners_are_balanced(prefs@, order@, cap as int, m, n as int, s);
                lemma_members(owner@, s, n as int);
                assert(owner@.take(n as int) =~= owner@);
                assert(r.member_offsets@[s] == grouped(owner@, s).len());
                assert(r.member_offsets@[s + 1] == grouped(owner@, s + 1).len());
            }
            assert(r.member_offsets@[0] == grouped(owner@, 0).len());
            assert(r.member_offsets@[m] == grouped(owner@, m).len());
        }
        r
    }

    /// Groups from the owner of each centroid.
    pub fn build(owner: &Vec<u32>, n_super: usize) -> (r: CoarseIndex)
        requires
            owner@.len() <= 0xFFFF_FFFF,
            n_super < usize::MAX,
            forall|i: int| 0 <= i < owner@.len() ==> #[trigger] owner@[i] < n_super,
        ensures
            r.lists(owner@),
            r.n_super == n_super,
    {
        let n: usize = owner.len();
        let mut buckets: Vec<Vec<u32>> = Vec::new();
        let mut s: usize = 0;
        while s < n_super
            invariant
                s <= n_super,
                buckets@.len() == s,
                forall|g: int| 0 <= g < s ==> (#[trigger] buckets@[g])@.len() == 0,
            decreases n_super - s,
        {
            buckets.push(Vec::new());
            s = s + 1;
        }
        let mut c: usize = 0;
        while c < n
            invariant
                n == owner@.len(),
                n <= 0xFFFF_FFFF,
                c <= n,
                buckets@.len() == n_super,
                forall|i: int| 0 <= i < owner@.len() ==> #[trigger] owner@[i] < n_super,
                forall|g: int|
                    0 <= g < n_super ==> same_list((#[trigger] buckets@[g])@, members_of(owner@, g, c as int)),
            decreases n - c,
        {
            assert(owner@[c as int] < n_super);
            let g: usize = owner[c] as usize;
            let ghost before = buckets@;
            buckets[g].push(c as u32);
            proof {
                assert forall|h: int| 0 <= h < n_super implies same_list(
                    (#[trigger] buckets@[h])@,
                    members_of(owner@, h, c + 1),
                ) by {
                    assert(same_list(before[h]@, members_of(owner@, h, c as int)));
                }
            }
            c = c + 1;
        }
        let mut members: Vec<u32> = Vec::new();
        let mut offsets: Vec<usize> = Vec::new();
        offsets.push(0);
        let mut g: usize = 0;
        while g < n_super
            invariant
                n == owner@.len(),
                n_super < usize::MAX,
                g <= n_super,
                buckets@.len() == n_super,
                forall|h: int|
                    0 <= h < n_super ==> same_list((#[trigger] buckets@[h])@, members_of(owner@, h, n as int)),
                members@ == grouped(owner@, g as int),
                offsets@.len() == g + 1,
                forall|h: int| 0 <= h <= g ==> #[trigger] offsets@[h] == grouped(owner@, h).len(),
            decreases n_super - g,
        {
            assert(same_list(buckets@[g as int]@, members_of(owner@, g as int, n as int)));
            members.extend_from_slice(buckets[g].as_slice());
            proof {
                let list = members_of(owner@, g as int, n as int);
                assert(members@ =~= grouped(owner@, g as int) + Seq::new(list.len(), |k: int| list[k] as u32));
            }
            offsets.push(members.len());
            g = g + 1;
        }
        CoarseIndex { built_for: n, n_super, member_offsets: offsets, members }
    }

    /// Number of members of each group.
    pub fn member_counts(&self) -> (r: Vec<usize>)
        requires
            exists|owner: Seq<u32>| self.lists(owner),
        ensures
            r@.len() == self.n_super,
            forall|s: int|
                0 <= s < self.n_super ==> #[trigger] r@[s] == self.member_offsets@[s + 1]
                    - self.member_offsets@[s],
            forall|owner: Seq<u32>, s: int|
                self.lists(owner) && 0 <= s < self.n_super ==> r@[s] == #[trigger] members_of(
                    owner,
                    s,
                    owner.len() as int,
                ).len(),
    {
        let ghost owner = choose|owner: Seq<u32>| self.lists(owner);
        let mut r: Vec<usize> = Vec::new();
        let mut s: usize = 0;
        while s < self.n_super
            invariant
                self.lists(owner),
                s <= self.n_super,
                r@.len() == s,
                forall|g: int|
                    0 <= g < s ==> #[trigger] r@[g] == self.member_offsets@[g + 1] - self.member_offsets@[g],
            decreases self.n_super - s,
        {
            assert(self.member_offsets@[s as int] == grouped(owner, s as int).len());
            assert(self.member_offsets@[s + 1] == grouped(owner, s + 1).len());
            r.push(self.member_offsets[s + 1] - self.member_offsets[s]);
            s = s + 1;
        }
        proof {
            assert forall|o: Seq<u32>, g: int| self.lists(o) && 0 <= g < self.n_super implies r@[g]
                == #[trigger] members_of(o, g, o.len() as int).len() by {
                assert(self.member_offsets@[g] == grouped(o, g).len());
                assert(self.member_offsets@[g + 1] == grouped(o, g + 1).len());
            }
        }
        r
    }
}

/// The same numbers.
pub open spec fn same_list(a: Seq<u32>, b: Seq<int>) -> bool {
    &&& a.len() == b.len()
    &&& forall|k: int| 0 <= k < a.len() ==> #[trigger] a[k] == b[k]
}

/// Rows with the group that each visits, sortable.
pub open spec fn visits(groups: Seq<u32>) -> Seq<(u64, u64)> {
    Seq::new(groups.len(), |i: int| (groups[i] as u64, i as u64))
}

/// The rows of one round, ordered by the group that each visits, so that those
/// of a group stand together.
pub fn order_by_group(groups: &Vec<u32>) -> (r: Vec<(u64, u64)>)
    ensures
        r@ == sorted_pairs(visits(groups@)),
{
    let mut pairs: Vec<(u64, u64)> = Vec::new();
    let mut i: usize = 0;
    while i < groups.len()
        invariant
            i <= groups@.len(),
            pairs@ == visits(groups@).take(i as int),
        decreases groups.len() - i,
    {
        pairs.push((groups[i] as u64, i as u64));
        i = i + 1;
        assert(pairs@ =~= visits(groups@).take(i as int));
    }
    assert(pairs@ =~= visits(groups@));
    sort_pairs(&pairs)
}

} // verus!
