//! Which partitions a query probes, and how much it fetches.
use vstd::prelude::*;
use crate::fresh::FreshIndex;
use crate::search::{
    distance_pairs, least, lemma_within_bound, lemma_within_prefix, nearest_first, nprobe_cap, plan_search,
    route_query, within, SearchOptions, SearchPlan,
};
use crate::sort::{ascending, lemma_same_elements, lemma_sorted_pairs, pair_leq};

verus! {

/// Partitions in the order of their distances; of two that are as far, the one
/// with the lesser number comes first.
pub open spec fn in_order(distances: Seq<u32>, r: Seq<u32>) -> bool {
    &&& forall|i: int| 0 <= i < r.len() ==> #[trigger] r[i] < distances.len()
    &&& forall|i: int, k: int|
        0 <= i < k < r.len() ==> distances[#[trigger] r[i] as int] < distances[#[trigger] r[k] as int] || (
        distances[r[i] as int] == distances[r[k] as int] && r[i] < r[k])
}

/// A query that asks for a number of partitions probes that many, or all if
/// there are fewer, and always one. Without a wish it probes an eighth of them,
/// or half of them under a distance bound, but four at least where there are as
/// many.
pub open spec fn as_asked(options: SearchOptions, nlist: int, n: int) -> bool {
    match options.nprobe {
        Some(k) => {
            &&& 1 <= k <= nlist ==> n == k
            &&& k >= nlist ==> n == nlist
            &&& k == 0 && nlist >= 1 ==> n == 1
        },
        None => {
            &&& nlist <= 4 ==> n == nlist
            &&& options.probe_epsilon is None && 4 <= nlist < 32 ==> n == 4
            &&& options.probe_epsilon is None && nlist >= 32 ==> 8 * n <= nlist < 8 * n + 8
            &&& options.probe_epsilon is Some && 4 <= nlist < 8 ==> n == 4
            &&& options.probe_epsilon is Some && nlist >= 8 ==> 2 * n <= nlist < 2 * n + 2
        },
    }
}

/// As many partitions are probed as the options ask for.
pub proof fn law_probes_are_as_asked(options: SearchOptions, nlist: usize, n: usize)
    requires
        nprobe_cap.ensures((options, nlist), n),
    ensures
        as_asked(options, nlist as int, n as int),
{
}

/// A plan returns as many rows as are asked for and there, keeps more
/// candidates only for exact scores, and lets removed rows displace none.
pub proof fn law_plan(
    len: usize,
    removed: usize,
    nlist: usize,
    stores_vectors: bool,
    k: usize,
    options: SearchOptions,
    p: SearchPlan,
)
    requires
        len + removed <= usize::MAX,
        plan_search.ensures((len, removed, nlist, stores_vectors, k, options), p),
    ensures
        p.k_eff <= k && p.k_eff <= len && (p.k_eff == k || p.k_eff == len),
        p.k_eff <= p.fetch_k <= len,
        p.k_base - p.fetch_k == removed,
        as_asked(options, nlist as int, p.nprobe as int),
        options.rescore_k == Some(0usize) ==> !p.rescore,
        options.rescore_k is Some && options.rescore_k->0 > 0 ==> p.rescore,
        options.rescore_k is None ==> p.rescore == stores_vectors,
        !p.rescore ==> p.fetch_k == p.k_eff,
        p.rescore && options.rescore_k is Some ==> {
            let d = options.rescore_k->0;
            &&& d >= len ==> p.fetch_k == len
            &&& p.k_eff <= d <= len ==> p.fetch_k == d
            &&& d < p.k_eff ==> p.fetch_k == p.k_eff
        },
        p.rescore && options.rescore_k is None ==> {
            &&& 4 * p.k_eff <= len ==> p.fetch_k == 4 * p.k_eff
            &&& 4 * p.k_eff > len ==> p.fetch_k == len
        },
{
}

/// Partition `c` is among those of `s`.
pub open spec fn has_partition(s: Seq<(u64, u64)>, c: int) -> bool {
    exists|i: int| 0 <= i < s.len() && (#[trigger] s[i]).1 == c
}

/// The partitions, nearest first: each is there once, with its distance.
pub proof fn lemma_nearest_first(distances: Seq<u32>)
    requires
        distances.len() <= 0xFFFF_FFFF,
    ensures
        ({
            let s = nearest_first(distances);
            &&& s.len() == distances.len()
            &&& ascending(s)
            &&& forall|i: int| 0 <= i < s.len() ==> (#[trigger] s[i]).1 < distances.len() && s[i].0 == distances[s[i].1 as int]
            &&& forall|i: int, k: int| 0 <= i < k < s.len() ==> (#[trigger] s[i]).1 != (#[trigger] s[k]).1
            &&& forall|c: int| 0 <= c < distances.len() ==> #[trigger] has_partition(s, c)
        }),
{
    let pairs = distance_pairs(distances);
    let s = nearest_first(distances);
    lemma_sorted_pairs(pairs);
    lemma_same_elements(s, pairs);
    assert(pairs.no_duplicates()) by {
        assert forall|i: int, j: int| 0 <= i < pairs.len() && 0 <= j < pairs.len() && i != j implies pairs[i]
            != pairs[j] by {
            assert(pairs[i].1 == i && pairs[j].1 == j);
        }
    }
    pairs.lemma_multiset_has_no_duplicates();
    s.lemma_multiset_has_no_duplicates_conv();
    assert forall|i: int| 0 <= i < s.len() implies (#[trigger] s[i]).1 < distances.len() && s[i].0
        == distances[s[i].1 as int] by {
        assert(s.contains(s[i]));
        assert(pairs.contains(s[i]));
        let a = choose|a: int| 0 <= a < pairs.len() && pairs[a] == s[i];
        assert(pairs[a] == (distances[a] as u64, a as u64));
    }
    assert forall|i: int, k: int| 0 <= i < k < s.len() implies (#[trigger] s[i]).1 != (#[trigger] s[k]).1 by {
        assert(s[i] != s[k]);
    }
    assert forall|c: int| 0 <= c < distances.len() implies #[trigger] has_partition(s, c) by {
        assert(pairs.contains(pairs[c]));
        assert(s.contains(pairs[c]));
        let i = choose|i: int| 0 <= i < s.len() && s[i] == pairs[c];
        assert(s[i].1 == c);
    }
}

/// Behind those within the bound, none is.
pub proof fn lemma_beyond_bound(s: Seq<(u64, u64)>, bound: u32, i: int)
    requires
        ascending(s),
        within(s, bound) <= i < s.len(),
    ensures
        s[i].0 > bound,
    decreases s.len(),
{
    let a = s.drop_last();
    assert(ascending(a)) by {
        assert forall|x: int, y: int| 0 <= x < y < a.len() implies pair_leq(#[trigger] a[x], #[trigger] a[y]) by {
            assert(a[x] == s[x] && a[y] == s[y]);
        }
    }
    lemma_within_bound(a, bound);
    if s.last().0 <= bound {
        if within(a, bound) < a.len() {
            lemma_beyond_bound(a, bound, within(a, bound));
            assert(pair_leq(s[within(a, bound)], s[s.len() - 1]));
        }
    } else if i < a.len() {
        lemma_beyond_bound(a, bound, i);
    }
}

/// The first partitions of the order are in order.
pub proof fn lemma_prefix_in_order(distances: Seq<u32>, r: Seq<u32>)
    requires
        distances.len() <= 0xFFFF_FFFF,
        r.len() <= distances.len(),
        forall|i: int| 0 <= i < r.len() ==> #[trigger] r[i] == nearest_first(distances)[i].1 as u32,
    ensures
        in_order(distances, r),
{
    let s = nearest_first(distances);
    lemma_nearest_first(distances);
    assert forall|i: int, k: int| 0 <= i < k < r.len() implies distances[#[trigger] r[i] as int] < distances[
    #[trigger] r[k] as int] || (distances[r[i] as int] == distances[r[k] as int] && r[i] < r[k]) by {
        assert(pair_leq(s[i], s[k]));
        assert(s[i].1 != s[k].1);
    }
}

/// A query probes the nearest partitions, nearest first: as many as it may, or
/// under a bound those of them that lie within it, and always the nearest.
pub proof fn law_nearest_partitions_are_probed(
    distances: &Vec<u32>,
    nprobe: usize,
    bound: Option<u32>,
    r: Vec<u32>,
)
    requires
        1 <= nprobe,
        1 <= distances@.len() <= 0xFFFF_FFFF,
        route_query.ensures((distances, nprobe, bound), r),
    ensures
        in_order(distances@, r@),
        1 <= r@.len() <= nprobe,
        r@.len() <= distances@.len(),
        forall|c: int, i: int|
            0 <= c < distances@.len() && !r@.contains(c as u32) && 0 <= i < r@.len() ==> distances@[
            #[trigger] r@[i] as int] <= #[trigger] distances@[c],
        bound is None ==> r@.len() == nprobe || r@.len() == distances@.len(),
        bound is Some ==> {
            &&& forall|i: int| 0 < i < r@.len() ==> distances@[#[trigger] r@[i] as int] <= bound->0
            &&& r@.len() < nprobe ==> forall|c: int|
                0 <= c < distances@.len() && !r@.contains(c as u32) ==> #[trigger] distances@[c] > bound->0
        },
{
    let d = distances@;
    let s = nearest_first(d);
    let cap = least(nprobe as int, d.len() as int);
    lemma_nearest_first(d);
    lemma_prefix_in_order(d, r@);
    let t = s.take(cap);
    assert(ascending(t)) by {
        assert forall|x: int, y: int| 0 <= x < y < t.len() implies pair_leq(#[trigger] t[x], #[trigger] t[y]) by {
            assert(t[x] == s[x] && t[y] == s[y]);
        }
    }
    assert forall|c: int| 0 <= c < d.len() && !r@.contains(c as u32) implies {
        &&& forall|i: int| 0 <= i < r@.len() ==> d[#[trigger] r@[i] as int] <= d[c]
        &&& bound is Some && r@.len() < nprobe ==> d[c] > bound->0
    } by {
        assert(has_partition(s, c));
        let k = choose|k: int| 0 <= k < s.len() && (#[trigger] s[k]).1 == c;
        if k < r@.len() {
            assert(r@[k] == c as u32);
        }
        assert forall|i: int| 0 <= i < r@.len() implies d[#[trigger] r@[i] as int] <= d[c] by {
            assert(pair_leq(s[i], s[k]));
        }
        if bound is Some && r@.len() < nprobe {
            lemma_within_bound(t, bound->0);
            let w = within(t, bound->0);
            if w < cap {
                lemma_beyond_bound(t, bound->0, w);
                assert(t[w] == s[w]);
                if w < k {
                    assert(pair_leq(s[w], s[k]));
                }
            }
        }
    }
    if bound is Some {
        lemma_within_bound(t, bound->0);
        assert forall|i: int| 0 < i < r@.len() implies d[#[trigger] r@[i] as int] <= bound->0 by {
            lemma_within_prefix(t, bound->0, i);
            assert(t[i] == s[i]);
        }
    }
}

/// The plan of a search over an incrementally updated index: as many rows as are
/// asked for and there, and partitions as asked for.
pub proof fn law_fresh_plan(x: &FreshIndex, k: usize, options: SearchOptions, p: SearchPlan)
    requires
        FreshIndex::plan.ensures((x, k, options), p),
        x.length() <= usize::MAX,
        0 <= x.length(),
    ensures
        p.k_eff <= k && p.k_eff <= x.length() && (p.k_eff == k || p.k_eff == x.length()),
        p.k_eff <= p.fetch_k <= x.length(),
        p.k_base == p.fetch_k,
        as_asked(options, x.partitions@.len() as int, p.nprobe as int),
        options.rescore_k is None ==> p.rescore == x.store_vectors,
        options.rescore_k is Some ==> p.rescore == (options.rescore_k->0 > 0),
        !p.rescore ==> p.fetch_k == p.k_eff,
{
}

/// An index that is not clustered is scanned whole; a clustered one as the
/// nearest partitions say.
pub proof fn law_unclustered_indexes_are_scanned_whole(
    x: &FreshIndex,
    distances: &Vec<u32>,
    nprobe: usize,
    bound: Option<u32>,
    r: Vec<u32>,
)
    requires
        FreshIndex::probe.ensures((x, distances, nprobe, bound), r),
        x.partitions@.len() <= 0xFFFF_FFFF,
        !x.clustered || x.partitions@.len() <= 1,
    ensures
        r@.len() == x.partitions@.len(),
        forall|p: int| 0 <= p < r@.len() ==> #[trigger] r@[p] == p,
{
}

} // verus!
