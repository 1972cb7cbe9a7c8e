//! Search decisions: how much to fetch, which partitions to probe, and how
//! scanned candidates become result rows.
use vstd::prelude::*;
use crate::delta::{first_invalid, first_invalid_coord};
use crate::disk::DiskIndex;
use crate::rank::{finish_row, merge_candidates, result_row, top_candidates};
use crate::sort::{lemma_sorted_pairs, sort_pairs, sorted_pairs};
use crate::tvdm::{finite_non_negative, hdr_slots, slots_before, table_of, u64_section};

verus! {

broadcast use vstd::std_specs::hash::group_hash_axioms;

/// Exact-rescore depth as a multiple of `k` where none is asked for.
pub const DEFAULT_RESCORE_MULTIPLIER: usize = 4;

/// Least default probe count.
pub const DEFAULT_NPROBE_MIN: usize = 4;

/// Default probe count as a fraction of the partitions.
pub const DEFAULT_NPROBE_DIVISOR: usize = 8;

/// The same where probing is bounded by distance.
pub const DEFAULT_EPSILON_NPROBE_DIVISOR: usize = 2;

/// Per-search tuning knobs.
#[derive(Clone, Copy, Debug, PartialEq, Eq, Structural)]
pub struct SearchOptions {
    /// Most partitions a query scans.
    pub nprobe: Option<usize>,
    /// Bit pattern of the distance bound for adaptive probing.
    pub probe_epsilon: Option<u32>,
    /// Candidates re-ranked by exact score; `Some(0)` for none.
    pub rescore_k: Option<usize>,
}

impl Default for SearchOptions {
    fn default() -> (o: SearchOptions)
        ensures
            o == (SearchOptions { nprobe: None, probe_epsilon: None, rescore_k: None }),
    {
        SearchOptions { nprobe: None, probe_epsilon: None, rescore_k: None }
    }
}

/// The lesser of two numbers.
pub open spec fn least(a: int, b: int) -> int {
    if a < b {
        a
    } else {
        b
    }
}

/// The greater of two numbers.
pub open spec fn most(a: int, b: int) -> int {
    if a < b {
        b
    } else {
        a
    }
}

/// How many candidates are re-ranked by exact score.
pub open spec fn rescore_depth(rescore_k: Option<usize>, stores_vectors: bool, k_eff: int) -> Option<int> {
    match rescore_k {
        Some(depth) => if depth == 0 {
            None
        } else {
            Some(most(depth as int, k_eff))
        },
        None => if stores_vectors {
            Some(DEFAULT_RESCORE_MULTIPLIER * k_eff)
        } else {
            None
        },
    }
}

/// Partitions that a query scans by default.
pub open spec fn default_probes(nlist: int) -> int {
    least(most(nlist / DEFAULT_NPROBE_DIVISOR as int, DEFAULT_NPROBE_MIN as int), nlist)
}

/// Most partitions that a query scans.
pub open spec fn probe_cap(options: SearchOptions, nlist: int) -> int {
    let wanted = match options.nprobe {
        Some(n) => n as int,
        None => if options.probe_epsilon is Some {
            most(nlist / DEFAULT_EPSILON_NPROBE_DIVISOR as int, DEFAULT_NPROBE_MIN as int)
        } else {
            default_probes(nlist)
        },
    };
    least(most(wanted, 1), nlist)
}

/// What a search fetches and returns.
#[derive(Clone, Copy, Debug, PartialEq, Eq, Structural)]
pub struct SearchPlan {
    /// Width of a result row.
    pub k_eff: usize,
    /// Re-rank the merged candidates by exact score.
    pub rescore: bool,
    /// Candidates kept per query before the final cut.
    pub fetch_k: usize,
    /// Candidates to pull from every base partition, so that removed rows
    /// cannot displace live ones.
    pub k_base: usize,
    /// Most partitions a query scans.
    pub nprobe: usize,
}

impl SearchPlan {
    /// The plan for an index of `len` ids, `removed` of them hidden, over
    /// `nlist` partitions.
    pub open spec fn is_for(
        self,
        len: int,
        removed: int,
        nlist: int,
        stores_vectors: bool,
        k: int,
        options: SearchOptions,
    ) -> bool {
        let depth = rescore_depth(options.rescore_k, stores_vectors, least(k, len));
        &&& self.k_eff == least(k, len)
        &&& self.rescore == (depth is Some)
        &&& self.fetch_k == match depth {
            Some(d) => least(d, len),
            None => least(k, len),
        }
        &&& self.k_base == self.fetch_k + removed
        &&& self.nprobe == probe_cap(options, nlist)
    }
}

/// Partitions that a query scans by default.
pub fn default_nprobe(nlist: usize) -> (n: usize)
    ensures
        n == default_probes(nlist as int),
{
    let part: usize = nlist / DEFAULT_NPROBE_DIVISOR;
    let wanted: usize = if part < DEFAULT_NPROBE_MIN {
        DEFAULT_NPROBE_MIN
    } else {
        part
    };
    if wanted < nlist {
        wanted
    } else {
        nlist
    }
}

/// Most partitions that a query scans.
pub fn nprobe_cap(options: SearchOptions, nlist: usize) -> (n: usize)
    ensures
        n == probe_cap(options, nlist as int),
{
    let wanted: usize = match options.nprobe {
        Some(n) => n,
        None => if options.probe_epsilon.is_some() {
            let part: usize = nlist / DEFAULT_EPSILON_NPROBE_DIVISOR;
            if part < DEFAULT_NPROBE_MIN {
                DEFAULT_NPROBE_MIN
            } else {
                part
            }
        } else {
            default_nprobe(nlist)
        },
    };
    let at_least: usize = if wanted < 1 {
        1
    } else {
        wanted
    };
    if at_least < nlist {
        at_least
    } else {
        nlist
    }
}

/// Why a search is refused.
#[derive(Clone, Copy, Debug, PartialEq, Eq, Structural)]
pub enum QueryError {
    /// The coordinates do not make whole queries.
    Length,
    /// A coordinate is not finite, or too large.
    Coord { query: usize, coord: usize },
    /// The distance bound is negative or not finite.
    ProbeEpsilon,
    /// Exact scores need stored vectors.
    RescoreNeedsVectors,
}

/// What becomes of a search request over an index of `len` ids: refused,
/// without results, or so many queries to run. Without a committed
/// dimensionality there is nothing to find and nothing is looked at.
pub open spec fn search_outcome(
    queries: Seq<u32>,
    dim: Option<usize>,
    len: int,
    stores_vectors: bool,
    k: int,
    options: SearchOptions,
) -> Result<Option<usize>, QueryError> {
    if dim is None {
        Ok(None)
    } else {
        let d = dim->0 as int;
        if queries.len() as int % d != 0 {
            Err(QueryError::Length)
        } else if first_invalid(queries) is Some {
            let at = first_invalid(queries)->0;
            Err(QueryError::Coord { query: (at / d) as usize, coord: (at % d) as usize })
        } else if options.probe_epsilon is Some && !finite_non_negative(options.probe_epsilon->0) {
            Err(QueryError::ProbeEpsilon)
        } else if options.rescore_k is Some && options.rescore_k->0 > 0 && !stores_vectors {
            Err(QueryError::RescoreNeedsVectors)
        } else if queries.len() == 0 || least(k, len) == 0 {
            Ok(None)
        } else {
            Ok(Some((queries.len() as int / d) as usize))
        }
    }
}

/// Checks a search request (queries as bit patterns). Where there are queries
/// to run, their number, and a search can be planned.
pub fn begin_search(
    queries: &[u32],
    dim: Option<usize>,
    len: usize,
    stores_vectors: bool,
    k: usize,
    options: SearchOptions,
) -> (r: Result<Option<usize>, QueryError>)
    requires
        dim is Some ==> dim->0 > 0,
    ensures
        r == search_outcome(queries@, dim, len as int, stores_vectors, k as int, options),
{
    let d: usize = match dim {
        None => {
            return Ok(None);
        },
        Some(d) => d,
    };
    assert(queries.len() == queries@.len());
    if queries.len() % d != 0 {
        return Err(QueryError::Length);
    }
    if let Some((query, coord)) = first_invalid_coord(queries, d) {
        proof {
            vstd::arithmetic::div_mod::lemma_fundamental_div_mod_converse(
                query * d + coord,
                d as int,
                query as int,
                coord as int,
            );
        }
        return Err(QueryError::Coord { query, coord });
    }
    if let Some(e) = options.probe_epsilon {
        if !(e < 0x7F80_0000 || e == 0x8000_0000) {
            return Err(QueryError::ProbeEpsilon);
        }
    }
    if let Some(depth) = options.rescore_k {
        if depth > 0 && !stores_vectors {
            return Err(QueryError::RescoreNeedsVectors);
        }
    }
    if queries.len() == 0 || k == 0 || len == 0 {
        return Ok(None);
    }
    Ok(Some(queries.len() / d))
}

impl DiskIndex {
    /// Checks a search request (queries as bit patterns): refused, without
    /// results, or so many queries to run.
    pub fn begin_search(&self, file: &[u8], queries: &[u32], k: usize, options: SearchOptions) -> (r: Result<
        Option<usize>,
        QueryError,
    >)
        requires
            self.wf(file@),
        ensures
            r == search_outcome(
                queries@,
                self.delta.dim,
                self.live(file@).len() as int,
                self.store_vectors,
                k as int,
                options,
            ),
    {
        begin_search(queries, self.delta.dim, self.len(file), self.store_vectors, k, options)
    }
}

/// Plans a search.
pub fn plan_search(
    len: usize,
    removed: usize,
    nlist: usize,
    stores_vectors: bool,
    k: usize,
    options: SearchOptions,
) -> (p: SearchPlan)
    requires
        len + removed <= usize::MAX,
        options.probe_epsilon is Some ==> finite_non_negative(options.probe_epsilon->0),
        options.rescore_k is Some && options.rescore_k->0 > 0 ==> stores_vectors,
    ensures
        p.is_for(len as int, removed as int, nlist as int, stores_vectors, k as int, options),
{
    let k_eff: usize = if k < len {
        k
    } else {
        len
    };
    let (rescore, fetch_k): (bool, usize) = match options.rescore_k {
        Some(depth) => if depth == 0 {
            (false, k_eff)
        } else {
            let d: usize = if depth < k_eff {
                k_eff
            } else {
                depth
            };
            (true, if d < len {
                d
            } else {
                len
            })
        },
        None => if stores_vectors {
            let d: u128 = 4 * (k_eff as u128);
            (true, if d < len as u128 {
                d as usize
            } else {
                len
            })
        } else {
            (false, k_eff)
        },
    };
    SearchPlan { k_eff, rescore, fetch_k, k_base: fetch_k + removed, nprobe: nprobe_cap(options, nlist) }
}

/// Partitions with their distances, sortable.
pub open spec fn distance_pairs(distances: Seq<u32>) -> Seq<(u64, u64)> {
    Seq::new(distances.len(), |c: int| (distances[c] as u64, c as u64))
}

/// Partitions, nearest first. Distances are bit patterns of floats that are
/// not negative, whose order is the order of the patterns.
pub open spec fn nearest_first(distances: Seq<u32>) -> Seq<(u64, u64)> {
    sorted_pairs(distance_pairs(distances))
}

/// How many of the nearest partitions lie within `bound`.
pub open spec fn within(ranked: Seq<(u64, u64)>, bound: u32) -> int
    decreases ranked.len(),
{
    if ranked.len() == 0 {
        0
    } else {
        within(ranked.drop_last(), bound) + (if ranked.last().0 <= bound {
            1int
        } else {
            0int
        })
    }
}

/// How many partitions a query probes.
pub open spec fn probes(distances: Seq<u32>, nprobe: int, bound: Option<u32>) -> int {
    let cap = least(nprobe, distances.len() as int);
    match bound {
        None => cap,
        Some(b) => most(within(nearest_first(distances).take(cap), b), 1),
    }
}

/// The partitions a query probes, nearest first.
pub open spec fn route(distances: Seq<u32>, nprobe: int, bound: Option<u32>) -> Seq<u32> {
    Seq::new(probes(distances, nprobe, bound) as nat, |i: int| nearest_first(distances)[i].1 as u32)
}

/// The partitions a query probes: the `nprobe` nearest, cut where a distance
/// exceeds `bound`, at least one.
pub fn route_query(distances: &Vec<u32>, nprobe: usize, bound: Option<u32>) -> (r: Vec<u32>)
    requires
        1 <= nprobe,
        1 <= distances@.len() <= 0xFFFF_FFFF,
    ensures
        r@ == route(distances@, nprobe as int, bound),
        1 <= r@.len() <= distances@.len(),
        r@.len() <= nprobe,
{
    let mut pairs: Vec<(u64, u64)> = Vec::new();
    let mut c: usize = 0;
    while c < distances.len()
        invariant
            c <= distances.len(),
            pairs@ == distance_pairs(distances@).take(c as int),
        decreases distances.len() - c,
    {
        pairs.push((distances[c] as u64, c as u64));
        c = c + 1;
        assert(pairs@ =~= distance_pairs(distances@).take(c as int));
    }
    assert(pairs@ =~= distance_pairs(distances@));
    let ranked: Vec<(u64, u64)> = sort_pairs(&pairs);
    proof {
        lemma_sorted_pairs(pairs@);
    }
    let cap: usize = if nprobe < distances.len() {
        nprobe
    } else {
        distances.len()
    };
    let m: usize = match bound {
        None => cap,
        Some(b) => {
            let mut i: usize = 0;
            let mut count: usize = 0;
            assert(ranked@.take(0) =~= Seq::<(u64, u64)>::empty());
            while i < cap
                invariant
                    i <= cap <= ranked@.len(),
                    count <= i,
                    count == within(ranked@.take(i as int), b),
                decreases cap - i,
            {
                assert(ranked@.take(i + 1).drop_last() =~= ranked@.take(i as int));
                if ranked[i].0 <= b as u64 {
                    count = count + 1;
                }
                i = i + 1;
            }
            if count < 1 {
                1
            } else {
                count
            }
        },
    };
    let mut r: Vec<u32> = Vec::new();
    let mut i: usize = 0;
    while i < m
        invariant
            i <= m <= ranked@.len(),
            ranked@ == nearest_first(distances@),
            m == probes(distances@, nprobe as int, bound),
            r@ == route(distances@, nprobe as int, bound).take(i as int),
        decreases m - i,
    {
        r.push(ranked[i].1 as u32);
        i = i + 1;
        assert(r@ =~= route(distances@, nprobe as int, bound).take(i as int));
    }
    assert(r@ =~= route(distances@, nprobe as int, bound));
    r
}

/// Probing takes the nearest partitions: every probed partition is at most as
/// far as every other one, and with a bound each but the nearest is within it.
pub proof fn law_route(distances: Seq<u32>, nprobe: int, bound: Option<u32>, i: int, c: int)
    requires
        1 <= nprobe,
        1 <= distances.len() <= 0xFFFF_FFFF,
        0 <= i < route(distances, nprobe, bound).len(),
        0 <= c < distances.len(),
        !route(distances, nprobe, bound).contains(c as u32),
    ensures
        route(distances, nprobe, bound)[i] < distances.len(),
        distances[route(distances, nprobe, bound)[i] as int] <= distances[c],
        bound is Some && i > 0 ==> distances[route(distances, nprobe, bound)[i] as int] <= bound->0,
{
    let pairs = distance_pairs(distances);
    let s = nearest_first(distances);
    let r = route(distances, nprobe, bound);
    lemma_sorted_pairs(pairs);
    crate::sort::lemma_same_elements(s, pairs);
    lemma_probes_bound(distances, nprobe, bound);
    assert(s.contains(s[i]));
    assert(pairs.contains(s[i]));
    let a = choose|a: int| 0 <= a < pairs.len() && pairs[a] == s[i];
    assert(pairs[a] == (distances[a] as u64, a as u64));
    assert(pairs.contains(pairs[c]));
    assert(s.contains(pairs[c]));
    let k = choose|k: int| 0 <= k < s.len() && s[k] == pairs[c];
    if k < r.len() {
        assert(r[k] == c as u32);
        assert(r.contains(c as u32));
    }
    assert(crate::sort::pair_leq(s[i], s[k]));
    if bound is Some && i > 0 {
        let cap = least(nprobe, distances.len() as int);
        let t = s.take(cap);
        lemma_within_bound(t, bound->0);
        assert forall|x: int, y: int| 0 <= x < y < t.len() implies crate::sort::pair_leq(
            #[trigger] t[x],
            #[trigger] t[y],
        ) by {
            assert(t[x] == s[x] && t[y] == s[y]);
        }
        lemma_within_prefix(t, bound->0, i);
        assert(t[i] == s[i]);
    }
}

proof fn lemma_probes_bound(distances: Seq<u32>, nprobe: int, bound: Option<u32>)
    requires
        1 <= nprobe,
        1 <= distances.len(),
    ensures
        1 <= probes(distances, nprobe, bound) <= distances.len(),
        nearest_first(distances).len() == distances.len(),
{
    lemma_sorted_pairs(distance_pairs(distances));
    let cap = least(nprobe, distances.len() as int);
    if bound is Some {
        lemma_within_bound(nearest_first(distances).take(cap), bound->0);
    }
}

/// No more lie within the bound than there are.
pub proof fn lemma_within_bound(s: Seq<(u64, u64)>, bound: u32)
    ensures
        0 <= within(s, bound) <= s.len(),
    decreases s.len(),
{
    if s.len() > 0 {
        lemma_within_bound(s.drop_last(), bound);
    }
}

/// In ascending order, those within the bound come first.
pub proof fn lemma_within_prefix(s: Seq<(u64, u64)>, bound: u32, i: int)
    requires
        crate::sort::ascending(s),
        0 <= i < within(s, bound),
        i < s.len(),
    ensures
        s[i].0 <= bound,
    decreases s.len(),
{
    let a = s.drop_last();
    assert(crate::sort::ascending(a)) by {
        assert forall|x: int, y: int| 0 <= x < y < a.len() implies crate::sort::pair_leq(
            #[trigger] a[x],
            #[trigger] a[y],
        ) by {
            assert(a[x] == s[x] && a[y] == s[y]);
        }
    }
    lemma_within_bound(a, bound);
    if s.last().0 <= bound {
        if i < s.len() - 1 {
            assert(crate::sort::pair_leq(s[i], s[s.len() - 1]));
        }
    } else {
        assert(i < a.len());
        lemma_within_prefix(a, bound, i);
        assert(a[i] == s[i]);
    }
}

/// Scanned rows of one partition as candidates: `slots` are counted from the
/// partition's first slot, and removed ids are left out.
pub open spec fn scanned(
    file: Seq<u8>,
    removed: Set<u64>,
    first: int,
    scores: Seq<u32>,
    slots: Seq<usize>,
) -> Seq<(u32, u64)>
    decreases slots.len(),
{
    if slots.len() == 0 {
        Seq::empty()
    } else {
        let before = scanned(file, removed, first, scores, slots.drop_last());
        let id = u64_section(file, 7)[first + slots.last()];
        if removed.contains(id) {
            before
        } else {
            before.push((scores[slots.len() - 1], id))
        }
    }
}

impl DiskIndex {
    /// Appends the scanned rows of partition `p` to a query's candidates.
    pub fn collect_partition(
        &self,
        file: &[u8],
        p: usize,
        scores: &Vec<u32>,
        slots: &Vec<usize>,
        out: &mut Vec<(u32, u64)>,
    )
        requires
            self.wf(file@),
            self.base is Some,
            p < self.base->0.partitions@.len(),
            scores@.len() == slots@.len(),
            forall|j: int|
                0 <= j < slots@.len() ==> (#[trigger] slots@[j]) < self.base->0.partitions@[p as int].n,
        ensures
            final(out)@ == old(out)@ + scanned(
                file@,
                self.tombstones@,
                slots_before(table_of(file@), p as int),
                scores@,
                slots@,
            ),
    {
        let ghost start = out@;
        let ghost first = slots_before(table_of(file@), p as int);
        match &self.base {
            None => {},
            Some(seg) => {
                proof {
                    seg.lemma_describes(file@);
                    crate::contents::lemma_partition_codes(file@, seg.flavor, p as int);
                }
                let base: usize = seg.partitions[p].slot_base as usize;
                let mut j: usize = 0;
                assert(slots@.take(0) =~= Seq::<usize>::empty());
                assert(out@ =~= start + scanned(file@, self.tombstones@, first, scores@, slots@.take(0)));
                while j < slots.len()
                    invariant
                        j <= slots.len(),
                        scores@.len() == slots@.len(),
                        seg.describes(file@),
                        seg.n == hdr_slots(file@),
                        seg.partitions@ == table_of(file@),
                        p < seg.partitions@.len(),
                        base == first,
                        first + seg.partitions@[p as int].n <= seg.n,
                        forall|i: int|
                            0 <= i < slots@.len() ==> (#[trigger] slots@[i]) < seg.partitions@[p as int].n,
                        out@ == start + scanned(
                            file@,
                            self.tombstones@,
                            first,
                            scores@,
                            slots@.take(j as int),
                        ),
                    decreases slots.len() - j,
                {
                    let ghost now = slots@.take(j + 1);
                    assert(now.drop_last() =~= slots@.take(j as int));
                    assert(slots@[j as int] < seg.partitions@[p as int].n);
                    let id: u64 = seg.id_at(file, base + slots[j]);
                    if !self.tombstones.contains(&id) {
                        out.push((scores[j], id));
                    }
                    j = j + 1;
                    assert(out@ =~= start + scanned(file@, self.tombstones@, first, scores@, now));
                }
                assert(slots@.take(j as int) =~= slots@);
            },
        }
    }
}

/// Scores and ids side by side.
pub open spec fn zipped(scores: Seq<u32>, ids: Seq<u64>) -> Seq<(u32, u64)> {
    Seq::new(ids.len(), |j: int| (scores[j], ids[j]))
}

/// Merges the candidates that the base gave a query with those that the rows
/// in RAM gave it.
pub fn merge_query(plan: SearchPlan, base: Vec<(u32, u64)>, scores: &Vec<u32>, ids: &Vec<u64>) -> (r: Vec<
    (u32, u64),
>)
    requires
        scores@.len() == ids@.len(),
    ensures
        r@ == top_candidates(base@ + zipped(scores@, ids@), plan.fetch_k as int),
{
    let ghost start = base@;
    let mut all: Vec<(u32, u64)> = base;
    let mut j: usize = 0;
    assert(all@ =~= start + zipped(scores@, ids@).take(0));
    while j < ids.len()
        invariant
            j <= ids.len(),
            scores@.len() == ids@.len(),
            all@ == start + zipped(scores@, ids@).take(j as int),
        decreases ids.len() - j,
    {
        all.push((scores[j], ids[j]));
        j = j + 1;
        assert(all@ =~= start + zipped(scores@, ids@).take(j as int));
    }
    assert(zipped(scores@, ids@).take(j as int) =~= zipped(scores@, ids@));
    merge_candidates(&all, plan.fetch_k)
}

/// The result row of a query: re-ranked by exact scores where the plan asks
/// for it, cut or padded to the plan's width.
pub fn finish_query(plan: SearchPlan, merged: &Vec<(u32, u64)>, exact: Option<Vec<u32>>) -> (r: Vec<(u32, u64)>)
    requires
        plan.rescore == (exact is Some),
        exact is Some ==> exact->0@.len() == merged@.len(),
    ensures
        r@ == result_row(
            merged@,
            match exact {
                Some(v) => Some(v@),
                None => None,
            },
            plan.k_eff as int,
        ),
        r@.len() == plan.k_eff,
{
    finish_row(merged, exact, plan.k_eff)
}

/// Scores and ids of all result rows, row after row.
pub open spec fn flat_results(rows: Seq<Vec<(u32, u64)>>, n: int) -> (Seq<u32>, Seq<u64>)
    decreases n,
{
    if n <= 0 {
        (Seq::empty(), Seq::empty())
    } else {
        let (s, i) = flat_results(rows, n - 1);
        let row = rows[n - 1]@;
        (
            s + Seq::new(row.len(), |j: int| row[j].0),
            i + Seq::new(row.len(), |j: int| row[j].1),
        )
    }
}

/// Flattens result rows into scores and ids.
pub fn flatten_results(rows: &Vec<Vec<(u32, u64)>>) -> (r: (Vec<u32>, Vec<u64>))
    ensures
        (r.0@, r.1@) == flat_results(rows@, rows@.len() as int),
{
    let mut scores: Vec<u32> = Vec::new();
    let mut ids: Vec<u64> = Vec::new();
    let mut q: usize = 0;
    while q < rows.len()
        invariant
            q <= rows.len(),
            (scores@, ids@) == flat_results(rows@, q as int),
        decreases rows.len() - q,
    {
        let ghost s0 = scores@;
        let ghost i0 = ids@;
        let ghost row = rows@[q as int]@;
        let ghost rs = Seq::new(row.len(), |j: int| row[j].0);
        let ghost ri = Seq::new(row.len(), |j: int| row[j].1);
        let mut j: usize = 0;
        assert(scores@ =~= s0 + rs.take(0));
        assert(ids@ =~= i0 + ri.take(0));
        while j < rows[q].len()
            invariant
                q < rows.len(),
                row == rows@[q as int]@,
                rs == Seq::new(row.len(), |j: int| row[j].0),
                ri == Seq::new(row.len(), |j: int| row[j].1),
                j <= row.len(),
                scores@ == s0 + rs.take(j as int),
                ids@ == i0 + ri.take(j as int),
            decreases row.len() - j,
        {
            scores.push(rows[q][j].0);
            ids.push(rows[q][j].1);
            j = j + 1;
            assert(scores@ =~= s0 + rs.take(j as int));
            assert(ids@ =~= i0 + ri.take(j as int));
        }
        assert(rs.take(j as int) =~= rs);
        assert(ri.take(j as int) =~= ri);
        q = q + 1;
    }
    (scores, ids)
}

} // verus!
