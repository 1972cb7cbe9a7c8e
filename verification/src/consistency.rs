//! Whether every id of a segment file has exactly one first copy.
use std::collections::HashSet;
use vstd::prelude::*;
use crate::bytes::read_u64;
use crate::compact::GatheredRows;
use crate::contents::ids_in;
use crate::disk::DiskIndex;
use crate::pack::{groups, packed_from_group_bytes, planes_of_rows};
use crate::sections::section_start;
use crate::tvdm::{hdr_slots, lemma_lens_in, lemma_sections_fit, lens_in, u64_section, BaseSegment};
use crate::write::{consistent, is_primary};

verus! {

broadcast use vstd::std_specs::hash::group_hash_axioms;

/// The ids whose first copy lies before `n`.
spec fn primary_ids(file: Seq<u8>, seen: Set<u64>, n: int) -> bool {
    forall|id: u64|
        #[trigger] seen.contains(id) <==> exists|a: int| #[trigger] is_primary(file, a, id) && a < n
}

/// Some slot holds the first copy of `id`.
spec fn has_primary(file: Seq<u8>, id: u64) -> bool {
    exists|a: int| #[trigger] is_primary(file, a, id)
}

/// An id is listed exactly if some entry of the sorted table is it.
proof fn lemma_listed(file: Seq<u8>, id: u64)
    ensures
        ids_in(file).contains(id) <==> exists|i: int|
            0 <= i < u64_section(file, 8).len() && #[trigger] u64_section(file, 8)[i] == id,
{
    let s = u64_section(file, 8);
    if ids_in(file).contains(id) {
        assert(s.contains(id));
    }
}

impl BaseSegment {
    /// Whether every listed id has exactly one first copy, and first copies
    /// have listed ids.
    pub fn is_consistent(&self, file: &[u8]) -> (r: bool)
        requires
            self.describes(file@),
        ensures
            r == consistent(file@),
    {
        let flen: usize = file.len();
        proof {
            self.lemma_describes(file@);
            lemma_lens_in(file@);
            lemma_sections_fit(file@, self.flavor);
            assert(section_start(lens_in(file@), 8) + lens_in(file@)[8] <= file@.len());
        }
        let mut seen: HashSet<u64> = HashSet::new();
        let mut slot: usize = 0;
        while slot < self.n
            invariant
                self.describes(file@),
                self.n == hdr_slots(file@),
                slot <= self.n,
                primary_ids(file@, seen@, slot as int),
                forall|a: int, b: int, id: u64|
                    #[trigger] is_primary(file@, a, id) && #[trigger] is_primary(file@, b, id) && a < slot
                        && b < slot ==> a == b,
                forall|a: int, id: u64|
                    #[trigger] is_primary(file@, a, id) && a < slot ==> ids_in(file@).contains(id),
            decreases self.n - slot,
        {
            if !self.is_replica(file, slot) {
                let id: u64 = self.id_at(file, slot);
                assert(is_primary(file@, slot as int, id));
                if seen.contains(&id) {
                    proof {
                        let a = choose|a: int| #[trigger] is_primary(file@, a, id) && a < slot;
                        assert(is_primary(file@, a, id) && is_primary(file@, slot as int, id));
                    }
                    return false;
                }
                if self.slot_of(file, id).is_none() {
                    assert(!ids_in(file@).contains(id));
                    return false;
                }
                let ghost before = seen@;
                seen.insert(id);
                proof {
                    assert forall|x: u64| #[trigger] seen@.contains(x) <==> exists|a: int| #[trigger]
                        is_primary(file@, a, x) && a < slot + 1 by {
                        if before.contains(x) {
                            let a = choose|a: int| #[trigger] is_primary(file@, a, x) && a < slot;
                            assert(is_primary(file@, a, x) && a < slot + 1);
                        }
                        if exists|a: int| #[trigger] is_primary(file@, a, x) && a < slot + 1 {
                            let a = choose|a: int| #[trigger] is_primary(file@, a, x) && a < slot + 1;
                            if a < slot {
                                assert(before.contains(x));
                            }
                        }
                    }
                    assert forall|a: int, b: int, x: u64|
                        #[trigger] is_primary(file@, a, x) && #[trigger] is_primary(file@, b, x) && a < slot + 1
                            && b < slot + 1 implies a == b by {
                        if a == slot && b < slot {
                            assert(before.contains(x));
                        }
                        if b == slot && a < slot {
                            assert(before.contains(x));
                        }
                    }
                }
            } else {
                assert forall|a: int, x: u64| #[trigger] is_primary(file@, a, x) && a < slot + 1 implies a < slot by {}
            }
            slot = slot + 1;
        }
        let base: usize = self.layout.sorted_ids.0;
        let ghost ids = u64_section(file@, 8);
        let mut i: usize = 0;
        while i < self.n
            invariant
                i <= self.n,
                self.n == hdr_slots(file@),
                ids == u64_section(file@, 8),
                ids.len() == self.n,
                base == section_start(lens_in(file@), 8),
                base + 8 * self.n <= flen,
                flen == file@.len(),
                primary_ids(file@, seen@, self.n as int),
                forall|k: int| 0 <= k < i ==> has_primary(file@, #[trigger] ids[k]),
            decreases self.n - i,
        {
            let id: u64 = read_u64(file, base + 8 * i);
            assert(ids[i as int] == id);
            if !seen.contains(&id) {
                proof {
                    lemma_listed(file@, id);
                    assert(ids_in(file@).contains(id));
                    if consistent(file@) {
                        let a = choose|a: int| #[trigger] is_primary(file@, a, id);
                        assert(is_primary(file@, a, id) && a < self.n);
                    }
                }
                return false;
            }
            proof {
                let a = choose|a: int| #[trigger] is_primary(file@, a, id) && a < self.n;
                assert(has_primary(file@, ids[i as int]));
            }
            i = i + 1;
        }
        proof {
            assert forall|id: u64| #[trigger] ids_in(file@).contains(id) implies exists|a: int| #[trigger]
                is_primary(file@, a, id) by {
                lemma_listed(file@, id);
                let k = choose|k: int| 0 <= k < ids.len() && #[trigger] ids[k] == id;
                assert(has_primary(file@, ids[k]));
            }
        }
        true
    }
}

/// Rows without partitions.
pub struct FlatRows {
    /// Bit planes, row-major.
    pub packed: Vec<u8>,
    /// Bit patterns.
    pub scales: Vec<u32>,
    pub ids: Vec<u64>,
}

impl DiskIndex {
    /// The live rows as bit planes with their scales and ids: what an index
    /// without partitions, replicas and stored vectors keeps.
    pub fn flat_rows(&self, file: &[u8]) -> (r: FlatRows)
        requires
            self.wf(file@),
        ensures
            exists|g: GatheredRows|
                #![trigger self.gathers(file@, g)]
                {
                    &&& self.gathers(file@, g)
                    &&& r.packed@ == planes_of_rows(
                        g.rows@,
                        g.ids@.len() as int,
                        self.bit_width as int,
                        self.delta.width(),
                    )
                    &&& r.scales@ == g.scales@
                    &&& r.ids@ == g.ids@
                },
    {
        let g: GatheredRows = self.gather_rows(file);
        let dim: usize = self.dim();
        proof {
            let k = self.kept_slots(file@).len() as int;
            let m = self.delta.ids@.len() as int;
            let ng = groups(self.bit_width as int, dim as int);
            assert((k + m) * ng == k * ng + m * ng) by (nonlinear_arith);
            assert(0 <= k * ng && 0 <= m * ng) by (nonlinear_arith)
                requires
                    0 <= k,
                    0 <= m,
                    0 <= ng,
            ;
        }
        let packed: Vec<u8> = packed_from_group_bytes(g.rows.as_slice(), g.ids.len(), self.bit_width, dim);
        let ghost g0 = g;
        let r = FlatRows { packed, scales: g.scales, ids: g.ids };
        assert(self.gathers(file@, g0));
        r
    }
}

} // verus!
