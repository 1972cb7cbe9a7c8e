//! From the scans of one query to its best candidates.
use vstd::prelude::*;
use crate::chunk::chunk_start;
use crate::disk::DiskIndex;
use crate::fresh::FreshIndex;
use crate::fresh_search::chunk_candidates;
use crate::partition::rows_upto;
use crate::rank::top_candidates;
use crate::search::{merge_query, scanned, zipped, SearchPlan};
use crate::tvdm::{slots_before, table_of};

verus! {

/// What the scan of a base partition gave a query: the best slots, counted from
/// the partition's first, and their scores (bit patterns).
pub struct Scan {
    pub partition: usize,
    pub scores: Vec<u32>,
    pub slots: Vec<usize>,
}

/// What the scan of a chunk gave a query: the best rows, counted from the
/// chunk's first, and their scores (bit patterns).
pub struct ChunkScan {
    pub position: usize,
    pub chunk: usize,
    pub scores: Vec<u32>,
    pub slots: Vec<usize>,
}

impl DiskIndex {
    /// The scan is one of this index.
    pub open spec fn scans(self, s: Scan) -> bool {
        &&& self.base is Some
        &&& s.partition < self.base->0.partitions@.len()
        &&& s.scores@.len() == s.slots@.len()
        &&& forall|j: int|
            0 <= j < s.slots@.len() ==> (#[trigger] s.slots@[j]) < self.base->0.partitions@[s.partition as int].n
    }

    /// The candidates of the first `n` scans.
    pub open spec fn scan_candidates(self, file: Seq<u8>, scans: Seq<Scan>, n: int) -> Seq<(u32, u64)>
        decreases n,
    {
        if n <= 0 {
            Seq::empty()
        } else {
            let s = scans[n - 1];
            self.scan_candidates(file, scans, n - 1) + scanned(
                file,
                self.tombstones@,
                slots_before(table_of(file), s.partition as int),
                s.scores@,
                s.slots@,
            )
        }
    }

    /// The best candidates for a query: the rows that its scans found and that
    /// are not removed, and the added rows `ids` with their `scores`.
    pub fn answer(
        &self,
        file: &[u8],
        plan: SearchPlan,
        scans: &Vec<Scan>,
        scores: &Vec<u32>,
        ids: &Vec<u64>,
    ) -> (r: Vec<(u32, u64)>)
        requires
            self.wf(file@),
            forall|i: int| 0 <= i < scans@.len() ==> self.scans(#[trigger] scans@[i]),
            scores@.len() == ids@.len(),
        ensures
            r@ == top_candidates(
                self.scan_candidates(file@, scans@, scans@.len() as int) + zipped(scores@, ids@),
                plan.fetch_k as int,
            ),
    {
        let mut out: Vec<(u32, u64)> = Vec::new();
        let mut i: usize = 0;
        while i < scans.len()
            invariant
                self.wf(file@),
                i <= scans@.len(),
                forall|k: int| 0 <= k < scans@.len() ==> self.scans(#[trigger] scans@[k]),
                out@ == self.scan_candidates(file@, scans@, i as int),
            decreases scans.len() - i,
        {
            let s: &Scan = &scans[i];
            assert(self.scans(scans@[i as int]));
            self.collect_partition(file, s.partition, &s.scores, &s.slots, &mut out);
            i = i + 1;
        }
        merge_query(plan, out, scores, ids)
    }
}

impl FreshIndex {
    /// The scan is one of this index, whose segment files are `files`.
    pub open spec fn scans(self, files: Seq<Vec<u8>>, s: ChunkScan) -> bool {
        &&& s.position < self.partitions@.len()
        &&& s.chunk < self.partitions@[s.position as int].chunks@.len()
        &&& self.partitions@[s.position as int].file_bytes <= files[s.position as int]@.len()
        &&& s.scores@.len() == s.slots@.len()
        &&& forall|j: int|
            0 <= j < s.slots@.len() ==> #[trigger] s.slots@[j]
                < self.partitions@[s.position as int].chunks@[s.chunk as int].n_rows
    }

    /// The candidates of the first `n` scans.
    pub open spec fn scan_candidates(self, files: Seq<Vec<u8>>, scans: Seq<ChunkScan>, n: int) -> Seq<(u32, u64)>
        decreases n,
    {
        if n <= 0 {
            Seq::empty()
        } else {
            let s = scans[n - 1];
            let p = self.partitions@[s.position as int];
            let m = p.chunks@[s.chunk as int];
            self.scan_candidates(files, scans, n - 1) + chunk_candidates(
                files[s.position as int]@,
                m.offset + chunk_start(self.ng(), self.stored(), m.n_rows as int, 3),
                p.dead@,
                rows_upto(p.chunks@, s.chunk as int),
                s.scores@,
                s.slots@,
            )
        }
    }

    /// The best candidates for a query: the rows that its scans found and that
    /// are alive, and the memtable's rows `ids` with their `scores`. `files`
    /// holds the segment file of every partition that was scanned.
    pub fn answer(
        &self,
        files: &Vec<Vec<u8>>,
        plan: SearchPlan,
        scans: &Vec<ChunkScan>,
        scores: &Vec<u32>,
        ids: &Vec<u64>,
    ) -> (r: Vec<(u32, u64)>)
        requires
            self.wf(),
            files@.len() == self.partitions@.len(),
            forall|i: int| 0 <= i < scans@.len() ==> self.scans(files@, #[trigger] scans@[i]),
            scores@.len() == ids@.len(),
        ensures
            r@ == top_candidates(
                self.scan_candidates(files@, scans@, scans@.len() as int) + zipped(scores@, ids@),
                plan.fetch_k as int,
            ),
    {
        let mut out: Vec<(u32, u64)> = Vec::new();
        let mut i: usize = 0;
        while i < scans.len()
            invariant
                self.wf(),
                files@.len() == self.partitions@.len(),
                i <= scans@.len(),
                forall|k: int| 0 <= k < scans@.len() ==> self.scans(files@, #[trigger] scans@[k]),
                out@ == self.scan_candidates(files@, scans@, i as int),
            decreases scans.len() - i,
        {
            let s: &ChunkScan = &scans[i];
            assert(self.scans(files@, scans@[i as int]));
            let (_, base) = self.chunk_fetch(s.position, s.chunk, 0);
            self.collect_chunk(
                s.position,
                s.chunk,
                base,
                files[s.position].as_slice(),
                &s.scores,
                &s.slots,
                &mut out,
            );
            i = i + 1;
        }
        merge_query(plan, out, scores, ids)
    }
}

} // verus!
