//! What a query will read, known before it reads anything.
use vstd::prelude::*;
use crate::contents::lemma_partition_codes;
use crate::fresh::FreshIndex;
use crate::pack::n_byte_groups;
use crate::sections::section_start;
use crate::tvdm::{block_bytes, blocks_before, hdr_dim, hdr_nlist, lens_in, table_of, BaseSegment, PartitionMeta};

verus! {

/// Where the codes of a partition of a segment file start, and their length.
pub open spec fn codes_range(b: Seq<u8>, p: int) -> (int, int) {
    let bb = block_bytes(b[5] as int, hdr_dim(b) as int);
    (section_start(lens_in(b), 3) + blocks_before(table_of(b), p) * bb, table_of(b)[p].blocks() * bb)
}

/// The codes of those of the first `n` partitions `ids` that hold rows.
pub open spec fn codes_to_read(b: Seq<u8>, ids: Seq<u32>, n: int) -> Seq<(usize, usize)>
    decreases n,
{
    if n <= 0 {
        Seq::empty()
    } else {
        let before = codes_to_read(b, ids, n - 1);
        let p = ids[n - 1] as int;
        if p < hdr_nlist(b) && table_of(b)[p].n > 0 {
            before.push((codes_range(b, p).0 as usize, codes_range(b, p).1 as usize))
        } else {
            before
        }
    }
}

impl BaseSegment {
    /// The parts of the file that a scan of partitions `ids` reads; none for
    /// fewer than two, whose reads have nothing to overlap with.
    pub fn prefetch(&self, file: &[u8], ids: &Vec<u32>) -> (r: Vec<(usize, usize)>)
        requires
            self.describes(file@),
        ensures
            r@ == if ids@.len() < 2 {
                Seq::empty()
            } else {
                codes_to_read(file@, ids@, ids@.len() as int)
            },
            forall|i: int| 0 <= i < r@.len() ==> (#[trigger] r@[i]).0 + r@[i].1 <= file@.len(),
    {
        proof {
            self.lemma_describes(file@);
        }
        let mut r: Vec<(usize, usize)> = Vec::new();
        if ids.len() < 2 {
            return r;
        }
        assert(file.len() == file@.len());
        let bb: u64 = n_byte_groups(self.bit_width, self.dim) as u64 * 32;
        let mut i: usize = 0;
        while i < ids.len()
            invariant
                self.describes(file@),
                file@.len() <= usize::MAX,
                i <= ids@.len(),
                bb == block_bytes(self.bit_width as int, self.dim as int),
                r@ == codes_to_read(file@, ids@, i as int),
                forall|k: int| 0 <= k < r@.len() ==> (#[trigger] r@[k]).0 + r@[k].1 <= file@.len(),
            decreases ids.len() - i,
        {
            proof {
                self.lemma_describes(file@);
            }
            let p: usize = ids[i] as usize;
            if p < self.partitions.len() {
                let meta: PartitionMeta = self.partitions[p];
                proof {
                    lemma_partition_codes(file@, self.flavor, p as int);
                }
                if meta.n > 0 {
                    let start: usize = self.layout.codes.0 + meta.codes_offset as usize;
                    let len: usize = (meta.n_blocks() * bb) as usize;
                    r.push((start, len));
                }
            }
            i = i + 1;
        }
        r
    }
}

/// Those of the first `n` positions whose partition has live rows, with the
/// bytes of its segment file.
pub open spec fn segments_to_read(x: FreshIndex, positions: Seq<u32>, n: int) -> Seq<(usize, u64)>
    decreases n,
{
    if n <= 0 {
        Seq::empty()
    } else {
        let before = segments_to_read(x, positions, n - 1);
        let p = positions[n - 1] as int;
        if p < x.partitions@.len() && x.partitions@[p].live_rows > 0 {
            before.push((p as usize, x.partitions@[p].file_bytes))
        } else {
            before
        }
    }
}

impl FreshIndex {
    /// The segment files that a scan of the partitions at `positions` reads;
    /// none for fewer than two, whose reads have nothing to overlap with.
    pub fn prefetch(&self, positions: &Vec<u32>) -> (r: Vec<(usize, u64)>)
        ensures
            r@ == if positions@.len() < 2 {
                Seq::empty()
            } else {
                segments_to_read(*self, positions@, positions@.len() as int)
            },
    {
        let mut r: Vec<(usize, u64)> = Vec::new();
        if positions.len() < 2 {
            return r;
        }
        let mut i: usize = 0;
        while i < positions.len()
            invariant
                i <= positions@.len(),
                r@ == segments_to_read(*self, positions@, i as int),
            decreases positions.len() - i,
        {
            let p: usize = positions[i] as usize;
            if p < self.partitions.len() && self.partitions[p].live_rows > 0 {
                r.push((p, self.partitions[p].file_bytes));
            }
            i = i + 1;
        }
        r
    }
}

} // verus!
