//! Searching an incrementally updated index.
use vstd::prelude::*;
use crate::bits::{marked, marks};
use crate::bytes::{read_u64, u64_at};
use crate::chunk::{chunk_len, chunk_lens, chunk_start, layout_for, lemma_chunk_starts, ChunkLayout};
use crate::fresh::FreshIndex;
use crate::pack::n_byte_groups;
use crate::partition::{lemma_rows_upto, rows_upto, ChunkMeta, PartitionState};
use crate::search::{
    begin_search, least, plan_search, route, route_query, search_outcome, QueryError, SearchOptions, SearchPlan,
};
use crate::tvdm::finite_non_negative;

verus! {

/// Scanned rows of a chunk as candidates: `slots` are counted from the chunk's
/// first row, which has number `base`, and dead rows are left out.
pub open spec fn chunk_candidates(
    file: Seq<u8>,
    ids_at: int,
    dead: Seq<u8>,
    base: int,
    scores: Seq<u32>,
    slots: Seq<usize>,
) -> Seq<(u32, u64)>
    decreases slots.len(),
{
    if slots.len() == 0 {
        Seq::empty()
    } else {
        let before = chunk_candidates(file, ids_at, dead, base, scores, slots.drop_last());
        if marked(dead, base + slots.last()) {
            before
        } else {
            before.push((scores[slots.len() - 1], u64_at(file, ids_at + 8 * slots.last())))
        }
    }
}

impl FreshIndex {
    /// Checks a search request (queries as bit patterns): refused, without
    /// results, or so many queries to run.
    pub fn begin_search(&self, queries: &[u32], k: usize, options: SearchOptions) -> (r: Result<
        Option<usize>,
        QueryError,
    >)
        requires
            self.wf(),
            self.length() <= usize::MAX,
        ensures
            r == search_outcome(
                queries@,
                self.memtable.dim,
                self.length(),
                self.store_vectors,
                k as int,
                options,
            ),
    {
        begin_search(queries, self.memtable.dim, self.len(), self.store_vectors, k, options)
    }

    /// Plans a search.
    pub fn plan(&self, k: usize, options: SearchOptions) -> (p: SearchPlan)
        requires
            self.wf(),
            self.length() <= usize::MAX,
            options.probe_epsilon is Some ==> finite_non_negative(options.probe_epsilon->0),
            options.rescore_k is Some && options.rescore_k->0 > 0 ==> self.store_vectors,
        ensures
            p.is_for(
                self.length(),
                0,
                self.partitions@.len() as int,
                self.store_vectors,
                k as int,
                options,
            ),
    {
        plan_search(self.len(), 0, self.partitions.len(), self.store_vectors, k, options)
    }

    /// The partitions that a query scans: the nearest ones of a clustered
    /// index, else all.
    pub fn probe(&self, distances: &Vec<u32>, nprobe: usize, bound: Option<u32>) -> (r: Vec<u32>)
        requires
            self.partitions@.len() <= 0xFFFF_FFFF,
            self.clustered && self.partitions@.len() > 1 ==> distances@.len() == self.partitions@.len(),
            nprobe <= self.partitions@.len(),
            self.clustered && self.partitions@.len() > 1 ==> nprobe >= 1,
        ensures
            r@ == if self.clustered && self.partitions@.len() > 1 {
                route(distances@, nprobe as int, bound)
            } else {
                Seq::new(self.partitions@.len(), |p: int| p as u32)
            },
    {
        let n: usize = self.partitions.len();
        if self.clustered && n > 1 {
            return route_query(distances, nprobe, bound);
        }
        let mut r: Vec<u32> = Vec::new();
        let mut p: usize = 0;
        while p < n
            invariant
                n <= 0xFFFF_FFFF,
                p <= n,
                r@ == Seq::new(p as nat, |i: int| i as u32),
            decreases n - p,
        {
            r.push(p as u32);
            p = p + 1;
            assert(r@ =~= Seq::new(p as nat, |i: int| i as u32));
        }
        r
    }

    /// How many candidates the scan of a chunk fetches, so that the rows that
    /// are dead in it cannot displace live ones; and the number of its first
    /// row.
    pub fn chunk_fetch(&self, position: usize, chunk: usize, fetch_k: usize) -> (r: (usize, u64))
        requires
            self.wf(),
            position < self.partitions@.len(),
            chunk < self.partitions@[position as int].chunks@.len(),
        ensures
            ({
                let p = self.partitions@[position as int];
                let n = p.chunks@[chunk as int].n_rows as int;
                let base = rows_upto(p.chunks@, chunk as int);
                &&& r.1 == base
                &&& r.0 == least(fetch_k + marks(p.dead@, base, base + n), n)
            }),
    {
        let p: &PartitionState = &self.partitions[position];
        assert(p.wf());
        let mut base: u64 = 0;
        let mut k: usize = 0;
        while k < chunk
            invariant
                p.wf(),
                chunk < p.chunks@.len(),
                k <= chunk,
                base == rows_upto(p.chunks@, k as int),
            decreases chunk - k,
        {
            proof {
                lemma_rows_upto(p.chunks@, k + 1, p.chunks@.len() as int);
            }
            base = base + p.chunks[k].n_rows as u64;
            k = k + 1;
        }
        let n: usize = p.chunks[chunk].n_rows as usize;
        proof {
            lemma_rows_upto(p.chunks@, chunk + 1, p.chunks@.len() as int);
        }
        let dead: usize = p.dead_in(base, n);
        if fetch_k >= n - dead {
            (n, base)
        } else {
            (fetch_k + dead, base)
        }
    }

    /// Appends the scanned live rows of a chunk, whose first row has number
    /// `base`, to a query's candidates.
    pub fn collect_chunk(
        &self,
        position: usize,
        chunk: usize,
        base: u64,
        file: &[u8],
        scores: &Vec<u32>,
        slots: &Vec<usize>,
        out: &mut Vec<(u32, u64)>,
    )
        requires
            self.wf(),
            position < self.partitions@.len(),
            chunk < self.partitions@[position as int].chunks@.len(),
            base == rows_upto(self.partitions@[position as int].chunks@, chunk as int),
            self.partitions@[position as int].file_bytes <= file@.len(),
            scores@.len() == slots@.len(),
            forall|j: int|
                0 <= j < slots@.len() ==> #[trigger] slots@[j]
                    < self.partitions@[position as int].chunks@[chunk as int].n_rows,
        ensures
            ({
                let p = self.partitions@[position as int];
                let m = p.chunks@[chunk as int];
                final(out)@ == old(out)@ + chunk_candidates(
                    file@,
                    m.offset + chunk_start(self.ng(), self.stored(), m.n_rows as int, 3),
                    p.dead@,
                    base as int,
                    scores@,
                    slots@,
                )
            }),
    {
        let flen: usize = file.len();
        let p: &PartitionState = &self.partitions[position];
        let dim: usize = self.dim();
        let width: usize = if self.store_vectors {
            dim
        } else {
            0
        };
        let ng: usize = n_byte_groups(self.bit_width, dim);
        let m: ChunkMeta = p.chunks[chunk];
        let n: usize = m.n_rows as usize;
        let ghost lens = chunk_lens(ng as int, width as int, n as int);
        proof {
            assert(p.wf() && p.placed(ng as int, width as int));
            assert(p.chunks@[chunk as int].offset % 64 == 0);
            p.lemma_limit(ng as int, width as int, chunk as int);
            lemma_chunk_starts(ng as int, width as int, n as int);
            lemma_rows_upto(p.chunks@, chunk + 1, p.chunks@.len() as int);
            assert(chunk_start(ng as int, width as int, n as int, 3) + lens[3] <= chunk_len(
                ng as int,
                width as int,
                n as int,
            ));
            assert(lens[3] == 8 * n);
        }
        let layout: ChunkLayout = layout_for(ng, width, n);
        let ids_at: usize = m.offset as usize + layout.ids.0;
        let ghost start = out@;
        let mut j: usize = 0;
        assert(slots@.take(0) =~= Seq::<usize>::empty());
        assert(out@ =~= start + chunk_candidates(
            file@,
            ids_at as int,
            p.dead@,
            base as int,
            scores@,
            slots@.take(0),
        ));
        while j < slots.len()
            invariant
                p.wf(),
                j <= slots@.len(),
                scores@.len() == slots@.len(),
                flen == file@.len(),
                ids_at + 8 * n <= flen,
                base + n <= p.n_rows,
                forall|i: int| 0 <= i < slots@.len() ==> #[trigger] slots@[i] < n,
                out@ == start + chunk_candidates(
                    file@,
                    ids_at as int,
                    p.dead@,
                    base as int,
                    scores@,
                    slots@.take(j as int),
                ),
            decreases slots.len() - j,
        {
            let ghost now = slots@.take(j + 1);
            assert(now.drop_last() =~= slots@.take(j as int));
            assert(slots@[j as int] < n);
            let slot: usize = slots[j];
            if !p.is_dead(base + slot as u64) {
                out.push((scores[j], read_u64(file, ids_at + 8 * slot)));
            }
            j = j + 1;
            assert(out@ =~= start + chunk_candidates(
                file@,
                ids_at as int,
                p.dead@,
                base as int,
                scores@,
                now,
            ));
        }
        assert(slots@.take(j as int) =~= slots@);
    }
}

/// The marked rows of a range.
spec fn marked_set(map: Seq<u8>, lo: int, hi: int) -> Set<int>
    decreases hi - lo,
{
    if hi <= lo {
        Set::empty()
    } else if marked(map, hi - 1) {
        marked_set(map, lo, hi - 1).insert(hi - 1)
    } else {
        marked_set(map, lo, hi - 1)
    }
}

proof fn lemma_marked_set(map: Seq<u8>, lo: int, hi: int)
    requires
        lo <= hi,
    ensures
        marked_set(map, lo, hi).finite(),
        marked_set(map, lo, hi).len() == marks(map, lo, hi),
        forall|r: int| #[trigger] marked_set(map, lo, hi).contains(r) <==> lo <= r < hi && marked(map, r),
    decreases hi - lo,
{
    if lo < hi {
        lemma_marked_set(map, lo, hi - 1);
    }
}

/// The dead ones among scanned rows.
spec fn dead_among(dead: Seq<u8>, base: int, slots: Seq<usize>) -> Set<int>
    decreases slots.len(),
{
    if slots.len() == 0 {
        Set::empty()
    } else if marked(dead, base + slots.last()) {
        dead_among(dead, base, slots.drop_last()).insert(base + slots.last())
    } else {
        dead_among(dead, base, slots.drop_last())
    }
}

proof fn lemma_dead_among(
    file: Seq<u8>,
    ids_at: int,
    dead: Seq<u8>,
    base: int,
    n: int,
    scores: Seq<u32>,
    slots: Seq<usize>,
)
    requires
        slots.no_duplicates(),
        forall|j: int| 0 <= j < slots.len() ==> #[trigger] slots[j] < n,
    ensures
        dead_among(dead, base, slots).finite(),
        chunk_candidates(file, ids_at, dead, base, scores, slots).len() + dead_among(dead, base, slots).len()
            == slots.len(),
        forall|r: int|
            #[trigger] dead_among(dead, base, slots).contains(r) ==> marked(dead, r) && exists|j: int|
                0 <= j < slots.len() && base + #[trigger] slots[j] == r,
    decreases slots.len(),
{
    if slots.len() > 0 {
        let init = slots.drop_last();
        assert forall|j: int| 0 <= j < init.len() implies #[trigger] init[j] < n by {
            assert(init[j] == slots[j]);
        }
        assert(init.no_duplicates()) by {
            assert forall|i: int, j: int| 0 <= i < init.len() && 0 <= j < init.len() && i != j implies init[i]
                != init[j] by {
                assert(slots[i] != slots[j]);
            }
        }
        lemma_dead_among(file, ids_at, dead, base, n, scores, init);
        let s = dead_among(dead, base, init);
        let r = base + slots.last();
        if s.contains(r) {
            let j = choose|j: int| 0 <= j < init.len() && base + #[trigger] init[j] == r;
            assert(slots[j] != slots[slots.len() - 1]);
        }
        assert forall|q: int| #[trigger] dead_among(dead, base, slots).contains(q) implies marked(dead, q)
            && exists|j: int| 0 <= j < slots.len() && base + #[trigger] slots[j] == q by {
            if q == r && marked(dead, r) {
                assert(base + slots[slots.len() - 1] == q);
            } else {
                assert(s.contains(q));
                let j = choose|j: int| 0 <= j < init.len() && base + #[trigger] init[j] == q;
                assert(base + slots[j] == q);
            }
        }
    }
}

/// A scan that fetches as many rows as planned gives a full share of live
/// candidates, whatever rows of the chunk are dead.
pub proof fn law_dead_rows_displace_none(
    file: Seq<u8>,
    ids_at: int,
    dead: Seq<u8>,
    base: int,
    n: int,
    fetch_k: int,
    scores: Seq<u32>,
    slots: Seq<usize>,
)
    requires
        0 <= base,
        0 <= n,
        0 <= fetch_k,
        slots.no_duplicates(),
        forall|j: int| 0 <= j < slots.len() ==> #[trigger] slots[j] < n,
        slots.len() == least(fetch_k + marks(dead, base, base + n), n),
    ensures
        chunk_candidates(file, ids_at, dead, base, scores, slots).len() >= least(
            fetch_k,
            n - marks(dead, base, base + n),
        ),
{
    lemma_dead_among(file, ids_at, dead, base, n, scores, slots);
    lemma_marked_set(dead, base, base + n);
    let a = dead_among(dead, base, slots);
    let b = marked_set(dead, base, base + n);
    assert forall|r: int| a.contains(r) implies b.contains(r) by {
        let j = choose|j: int| 0 <= j < slots.len() && base + #[trigger] slots[j] == r;
        assert(slots[j] < n);
    }
    vstd::set_lib::lemma_len_subset(a, b);
}

} // verus!
