//! What merging gives a query, how much its scans fetch, and what it reads.
use vstd::prelude::*;
use crate::bits::marks;
use crate::contents::ids_in;
use crate::disk::DiskIndex;
use crate::fresh::FreshIndex;
use crate::fresh_search::{chunk_candidates, law_dead_rows_displace_none};
use crate::partition::ChunkMeta;
use crate::pass_laws::{first_too_large, first_too_small, some_too_large, some_too_small};
use crate::prefetch::{codes_range, codes_to_read, segments_to_read};
use crate::rank::{law_top_candidates, merge_candidates};
use crate::result_laws::{greater, law_greater_scores_rank_first};
use crate::search::default_nprobe;
use crate::tvdm::{hdr_nlist, table_of, BaseSegment};

verus! {

/// An entry of `r` has this id and no lesser score.
pub open spec fn has_as_good(r: Seq<(u32, u64)>, c: (u32, u64)) -> bool {
    exists|i: int| 0 <= i < r.len() && (#[trigger] r[i]).1 == c.1 && !greater(c.0, r[i].0)
}

/// `m` entries are there, and none has a lesser score.
pub open spec fn full_of_better(r: Seq<(u32, u64)>, m: int, c: (u32, u64)) -> bool {
    r.len() == m && forall|i: int| 0 <= i < m ==> !greater(c.0, (#[trigger] r[i]).0)
}

/// Merging keeps the best candidate of each id, the greatest score first, and
/// of these the best `m`.
pub proof fn law_best_candidates_are_merged(candidates: &Vec<(u32, u64)>, m: usize, r: Vec<(u32, u64)>)
    requires
        merge_candidates.ensures((candidates, m), r),
    ensures
        r@.len() <= m,
        forall|i: int, k: int| 0 <= i < k < r@.len() ==> !greater((#[trigger] r@[k]).0, (#[trigger] r@[i]).0),
        forall|i: int, k: int| 0 <= i < k < r@.len() ==> (#[trigger] r@[i]).1 != (#[trigger] r@[k]).1,
        forall|i: int| 0 <= i < r@.len() ==> candidates@.contains(#[trigger] r@[i]),
        forall|q: int|
            0 <= q < candidates@.len() ==> has_as_good(r@, #[trigger] candidates@[q]) || full_of_better(
                r@,
                m as int,
                candidates@[q],
            ),
{
    law_top_candidates(candidates@, m as int);
    assert forall|i: int, k: int| 0 <= i < k < r@.len() implies !greater((#[trigger] r@[k]).0, (#[trigger] r@[i]).0) by {
        law_greater_scores_rank_first(r@[k].0, r@[i].0);
    }
    assert forall|q: int| 0 <= q < candidates@.len() implies has_as_good(r@, #[trigger] candidates@[q])
        || full_of_better(r@, m as int, candidates@[q]) by {
        let c = candidates@[q];
        assert(crate::rank::represented(r@, m as int, c));
        if exists|i: int|
            0 <= i < r@.len() && (#[trigger] r@[i]).1 == c.1 && crate::rank::score_rank(r@[i].0)
                <= crate::rank::score_rank(c.0) {
            let i = choose|i: int|
                0 <= i < r@.len() && (#[trigger] r@[i]).1 == c.1 && crate::rank::score_rank(r@[i].0)
                    <= crate::rank::score_rank(c.0);
            law_greater_scores_rank_first(c.0, r@[i].0);
        } else {
            assert forall|i: int| 0 <= i < m implies !greater(c.0, (#[trigger] r@[i]).0) by {
                law_greater_scores_rank_first(c.0, r@[i].0);
            }
        }
    }
}

/// Rows of the first `k` chunks.
pub open spec fn rows_in_front(chunks: Seq<ChunkMeta>, k: int) -> int {
    chunks.take(k).fold_left(0int, |sum: int, c: ChunkMeta| sum + c.n_rows)
}

proof fn lemma_rows_in_front(chunks: Seq<ChunkMeta>, k: int)
    requires
        0 <= k <= chunks.len(),
    ensures
        crate::partition::rows_upto(chunks, k) == rows_in_front(chunks, k),
    decreases k,
{
    if k > 0 {
        lemma_rows_in_front(chunks, k - 1);
        assert(chunks.take(k).drop_last() =~= chunks.take(k - 1));
    }
}

/// A scan of a chunk fetches so many rows that as many live ones are among them
/// as are wanted, or all that there are; and the chunk's rows are numbered
/// behind those of the chunks in front of it.
pub proof fn law_scans_fetch_enough(
    x: &FreshIndex,
    position: usize,
    chunk: usize,
    fetch_k: usize,
    r: (usize, u64),
    file: Seq<u8>,
    ids_at: int,
    scores: Seq<u32>,
    slots: Seq<usize>,
)
    requires
        x.wf(),
        position < x.partitions@.len(),
        chunk < x.partitions@[position as int].chunks@.len(),
        FreshIndex::chunk_fetch.ensures((x, position, chunk, fetch_k), r),
        slots.len() == r.0,
        slots.no_duplicates(),
        forall|j: int|
            0 <= j < slots.len() ==> #[trigger] slots[j] < x.partitions@[position as int].chunks@[chunk as int].n_rows,
    ensures
        ({
            let p = x.partitions@[position as int];
            let n = p.chunks@[chunk as int].n_rows as int;
            let base = r.1 as int;
            let dead = marks(p.dead@, base, base + n);
            let found = chunk_candidates(file, ids_at, p.dead@, base, scores, slots).len();
            &&& base == rows_in_front(p.chunks@, chunk as int)
            &&& r.0 <= n
            &&& r.0 <= fetch_k + dead
            &&& found >= fetch_k || found >= n - dead
        }),
{
    let p = x.partitions@[position as int];
    lemma_rows_in_front(p.chunks@, chunk as int);
    law_dead_rows_displace_none(
        file,
        ids_at,
        p.dead@,
        r.1 as int,
        p.chunks@[chunk as int].n_rows as int,
        fetch_k as int,
        scores,
        slots,
    );
}

/// By default a query probes an eighth of the partitions, four at least where
/// there are as many.
pub proof fn law_default_probe_count(nlist: usize, n: usize)
    requires
        default_nprobe.ensures((nlist,), n),
    ensures
        nlist <= 4 ==> n == nlist,
        4 <= nlist < 32 ==> n == 4,
        nlist >= 32 ==> 8 * n <= nlist < 8 * n + 8,
{
}

proof fn lemma_segments_to_read(x: FreshIndex, positions: Seq<u32>, n: int, e: (usize, u64))
    requires
        0 <= n <= positions.len(),
        x.partitions@.len() <= usize::MAX,
    ensures
        segments_to_read(x, positions, n).contains(e) <==> exists|i: int|
            0 <= i < n && #[trigger] positions[i] == e.0 && e.0 < x.partitions@.len()
                && x.partitions@[e.0 as int].live_rows > 0 && e.1 == x.partitions@[e.0 as int].file_bytes,
    decreases n,
{
    let s = segments_to_read(x, positions, n);
    if n > 0 {
        lemma_segments_to_read(x, positions, n - 1, e);
        let a = segments_to_read(x, positions, n - 1);
        let p = positions[n - 1] as int;
        if a.contains(e) {
            let k = choose|k: int| 0 <= k < a.len() && a[k] == e;
            assert(s[k] == e);
        }
        if p < x.partitions@.len() && x.partitions@[p].live_rows > 0 {
            assert(s[a.len() as int] == (p as usize, x.partitions@[p].file_bytes));
        }
        if s.contains(e) && !a.contains(e) {
            let k = choose|k: int| 0 <= k < s.len() && s[k] == e;
            if k < a.len() {
                assert(a[k] == e);
            }
            assert(positions[n - 1] == e.0);
        }
    }
}

/// Before a scan of several partitions, the files of exactly those with live
/// rows are announced, up to the length that the index knows.
pub proof fn law_scanned_files_are_announced(x: &FreshIndex, positions: &Vec<u32>, r: Vec<(usize, u64)>, e: (usize, u64))
    requires
        FreshIndex::prefetch.ensures((x, positions), r),
    ensures
        positions@.len() < 2 ==> r@.len() == 0,
        positions@.len() >= 2 ==> (r@.contains(e) <==> exists|i: int|
            0 <= i < positions@.len() && #[trigger] positions@[i] == e.0 && e.0 < x.partitions@.len()
                && x.partitions@[e.0 as int].live_rows > 0 && e.1 == x.partitions@[e.0 as int].file_bytes),
{
    assert(x.partitions.len() == x.partitions@.len());
    lemma_segments_to_read(*x, positions@, positions@.len() as int, e);
}

proof fn lemma_codes_to_read(b: Seq<u8>, ids: Seq<u32>, n: int, p: u32)
    requires
        0 <= n <= ids.len(),
        p < hdr_nlist(b),
        table_of(b)[p as int].n > 0,
        ids.take(n).contains(p),
    ensures
        codes_to_read(b, ids, n).contains((codes_range(b, p as int).0 as usize, codes_range(b, p as int).1 as usize)),
    decreases n,
{
    let e = (codes_range(b, p as int).0 as usize, codes_range(b, p as int).1 as usize);
    let t = ids.take(n);
    let k = choose|k: int| 0 <= k < t.len() && t[k] == p;
    let s = codes_to_read(b, ids, n);
    let a = codes_to_read(b, ids, n - 1);
    if k == n - 1 {
        assert(s[a.len() as int] == e);
    } else {
        assert(ids.take(n - 1)[k] == p);
        lemma_codes_to_read(b, ids, n - 1, p);
        let i = choose|i: int| 0 <= i < a.len() && a[i] == e;
        assert(s[i] == e);
    }
}

/// Before a scan of several partitions of a file, the codes of every one with
/// rows are announced.
pub proof fn law_scanned_codes_are_announced(
    seg: &BaseSegment,
    file: &[u8],
    ids: &Vec<u32>,
    r: Vec<(usize, usize)>,
    p: u32,
)
    requires
        BaseSegment::prefetch.ensures((seg, file, ids), r),
    ensures
        ids@.len() < 2 ==> r@.len() == 0,
        ids@.len() >= 2 && ids@.contains(p) && p < hdr_nlist(file@) && table_of(file@)[p as int].n > 0 ==> r@.contains(
            (codes_range(file@, p as int).0 as usize, codes_range(file@, p as int).1 as usize),
        ),
{
    if ids@.len() >= 2 && ids@.contains(p) && p < hdr_nlist(file@) && table_of(file@)[p as int].n > 0 {
        assert(ids@.take(ids@.len() as int) =~= ids@);
        lemma_codes_to_read(file@, ids@, ids@.len() as int, p);
    }
}

/// An id is in a disk index exactly if it was added or is in the file and not
/// removed.
pub proof fn law_membership(x: &DiskIndex, file: &[u8], id: u64, r: bool)
    requires
        DiskIndex::contains.ensures((x, file, id), r),
    ensures
        r <==> x.delta.ids@.contains(id) || (x.base is Some && ids_in(file@).contains(id) && !x.tombstones@.contains(id)),
{
}

/// The partition that an index splits is the first that is too large, and the
/// one that it dissolves the first that is too small, while there are more than
/// two.
pub proof fn law_first_misfits_are_found(x: &FreshIndex, target: u32, large: Option<usize>, small: Option<usize>)
    requires
        FreshIndex::first_oversized.ensures((x, target), large),
        FreshIndex::first_undersized.ensures((x, target), small),
    ensures
        match large {
            Some(k) => first_too_large(x.partitions@, target as int, k as int),
            None => !some_too_large(x.partitions@, target as int),
        },
        match small {
            Some(k) => x.partitions@.len() > 2 && first_too_small(x.partitions@, target as int, k as int),
            None => x.partitions@.len() <= 2 || !some_too_small(x.partitions@, target as int),
        },
{
}

} // verus!
