//! From a flat file of codes and ids to an index over one segment, and back.
use vstd::prelude::*;
use crate::compact::{emission, entry_keys, listed, rows_of, slots_of, Entry, GatheredRows, Placement};
use crate::contents::{lemma_rows_round_trip, lemma_words_written, replicas_in, rows_in, u32_section};
use crate::delta::{find_repeat, first_repeat, lemma_first_repeat_none, plane_row_bytes, Delta};
use crate::disk::{valid_dim, DiskIndex};
use crate::gather::{at_slots, lemma_survivors, rows_at_slots, survivors};
use crate::pack::{
    canonical_byte, group_rows, groups, law_group_rows_round_trip, law_planes_round_trip,
    packed_from_group_bytes, planes_of_rows, Layout,
};
use crate::segment::Segment;
use crate::segment_laws::{lemma_bitmap_bit, lemma_file_values, lemma_id_tables};
use crate::sort::{ascending, lemma_sorted_pairs_unique, pair_leq};
use crate::tvdm::{hdr_calib, hdr_nlist, hdr_slots, u64_section};
use crate::write::flat_placement;

verus! {

/// What a flat file of codes and ids holds.
pub struct IdMapRows {
    pub bit_width: usize,
    /// 0 before one is committed.
    pub dim: usize,
    /// Bit planes, vector after vector.
    pub codes: Vec<u8>,
    /// Bit patterns.
    pub scales: Vec<u32>,
    pub ids: Vec<u64>,
    /// Bit patterns of the calibration, empty or one per coordinate.
    pub tqplus_shift: Vec<u32>,
    pub tqplus_scale: Vec<u32>,
}

impl IdMapRows {
    /// The columns agree.
    pub open spec fn wf(self) -> bool {
        let n = self.ids@.len();
        &&& 2 <= self.bit_width <= 4
        &&& self.dim > 0 ==> valid_dim(self.dim as int)
        &&& self.dim == 0 ==> n == 0
        &&& self.codes@.len() == n * plane_row_bytes(self.bit_width as int, self.dim as int)
        &&& self.scales@.len() == n
        &&& self.tqplus_shift@.len() == self.tqplus_scale@.len()
        &&& self.tqplus_shift@.len() == 0 || self.tqplus_shift@.len() == self.dim
    }

    /// Whether the columns agree.
    pub fn check(&self) -> (r: bool)
        ensures
            r == self.wf(),
    {
        if self.bit_width < 2 || self.bit_width > 4 {
            return false;
        }
        let n: usize = self.ids.len();
        if self.dim == 0 {
            proof {
                let w = plane_row_bytes(self.bit_width as int, 0);
                assert(0 * w == 0) by (nonlinear_arith);
            }
            return n == 0 && self.codes.len() == 0 && self.scales.len() == 0 && self.tqplus_shift.len() == 0
                && self.tqplus_scale.len() == 0;
        }
        if self.dim > 0xFFFF_FFFF || self.dim % 8 != 0 {
            return false;
        }
        proof {
            let w = self.bit_width * (self.dim / 8);
            assert(0 <= w <= 4 * 0xFFFF_FFFF) by (nonlinear_arith)
                requires
                    w == self.bit_width * (self.dim / 8),
                    0 <= self.bit_width <= 4,
                    0 <= self.dim / 8 <= 0xFFFF_FFFF,
            ;
            assert(0 <= n * w <= 0xFFFF_FFFF_FFFF_FFFF * (4 * 0xFFFF_FFFF)) by (nonlinear_arith)
                requires
                    0 <= n <= 0xFFFF_FFFF_FFFF_FFFF,
                    0 <= w <= 4 * 0xFFFF_FFFF,
            ;
        }
        let w: u128 = self.bit_width as u128 * (self.dim / 8) as u128;
        self.codes.len() as u128 == n as u128 * w && self.scales.len() == n && self.tqplus_shift.len()
            == self.tqplus_scale.len() && (self.tqplus_shift.len() == 0 || self.tqplus_shift.len() == self.dim)
    }

    /// The same contents.
    pub open spec fn same(self, o: IdMapRows) -> bool {
        &&& self.bit_width == o.bit_width
        &&& self.dim == o.dim
        &&& self.codes@ == o.codes@
        &&& self.scales@ == o.scales@
        &&& self.ids@ == o.ids@
        &&& self.tqplus_shift@ == o.tqplus_shift@
        &&& self.tqplus_scale@ == o.tqplus_scale@
    }
}

impl DiskIndex {
    /// The index holds these rows in RAM and nothing else.
    pub open spec fn holds_rows(self, r: IdMapRows) -> bool {
        &&& self.bit_width == r.bit_width
        &&& self.base is None
        &&& self.tombstones@ == Set::<u64>::empty()
        &&& self.partition_target is None
        &&& self.replica_epsilon is None
        &&& !self.store_vectors
        &&& self.delta.dim == (if r.dim > 0 {
            Some(r.dim)
        } else {
            None
        })
        &&& self.delta.ids@ == r.ids@
        &&& self.delta.codes@ == r.codes@
        &&& self.delta.scales@ == r.scales@
        &&& self.delta.vectors@.len() == 0
        &&& self.delta.tqplus_shift@ == r.tqplus_shift@
        &&& self.delta.tqplus_scale@ == r.tqplus_scale@
    }

    /// An index over the rows of a flat file, to be written; an id that comes
    /// twice is refused.
    pub fn from_id_map(r: IdMapRows, flavor: Layout) -> (x: Result<DiskIndex, u64>)
        requires
            r.wf(),
        ensures
            match x {
                Err(id) => first_repeat(r.ids@) == Some(id),
                Ok(x) => {
                    &&& first_repeat(r.ids@) is None
                    &&& forall|file: Seq<u8>| #[trigger] x.wf(file)
                    &&& forall|file: Seq<u8>| #[trigger] x.live(file) == r.ids@.to_set()
                    &&& x.holds_rows(r)
                    &&& x.flavor == flavor
                },
            },
    {
        if let Some(id) = find_repeat(r.ids.as_slice()) {
            return Err(id);
        }
        proof {
            lemma_first_repeat_none(r.ids@);
        }
        let ghost r0 = r;
        let dim: Option<usize> = if r.dim > 0 {
            Some(r.dim)
        } else {
            None
        };
        let bits: usize = r.bit_width;
        let mut delta: Delta = Delta::empty(dim, r.tqplus_shift, r.tqplus_scale);
        let none: Vec<u32> = Vec::new();
        proof {
            let w = plane_row_bytes(bits as int, delta.width());
            let d = delta.width();
            assert(0 * w == 0 && 0 * d == 0) by (nonlinear_arith);
            assert(delta.wf(bits as int, false));
            assert(delta.codes@ =~= Seq::<u8>::empty());
            assert(delta.scales@ =~= Seq::<u32>::empty());
        }
        if r.dim > 0 {
            delta.append(
                r.dim,
                r.ids.as_slice(),
                r.codes.as_slice(),
                r.scales.as_slice(),
                none.as_slice(),
                bits,
                false,
            );
        }
        proof {
            let w = plane_row_bytes(bits as int, 0);
            assert(0 * w == 0) by (nonlinear_arith);
            assert(delta.ids@ =~= r0.ids@);
            assert(delta.codes@ =~= r0.codes@);
            assert(delta.scales@ =~= r0.scales@);
        }
        let x: DiskIndex = DiskIndex {
            flavor,
            bit_width: bits,
            base: None,
            delta,
            tombstones: std::collections::HashSet::new(),
            partition_target: None,
            replica_epsilon: None,
            replica_prune: true,
            store_vectors: false,
        };
        assert forall|file: Seq<u8>| #[trigger] x.live(file) == r0.ids@.to_set() by {
            assert(x.live(file) =~= r0.ids@.to_set());
        }
        assert forall|file: Seq<u8>| #[trigger] x.wf(file) by {}
        Ok(x)
    }

    /// The rows of a flat file that a segment file gives: the first copy of
    /// each row in slot order. Stored vectors, partitions and further copies
    /// have no place there.
    pub open spec fn gives_rows(self, file: Seq<u8>, r: IdMapRows) -> bool {
        let slots = self.kept_slots(file);
        let dim = self.delta.width();
        let bits = self.bit_width as int;
        &&& r.bit_width == self.bit_width
        &&& r.dim == dim
        &&& r.ids@ == at_slots(u64_section(file, 7), slots)
        &&& r.scales@ == at_slots(u32_section(file, 4, hdr_slots(file) as int), slots)
        &&& r.codes@ == planes_of_rows(
            rows_at_slots(rows_in(file, self.flavor, hdr_nlist(file) as int), groups(bits, dim), slots),
            slots.len() as int,
            bits,
            dim,
        )
        &&& r.tqplus_shift@ == self.delta.tqplus_shift@
        &&& r.tqplus_scale@ == self.delta.tqplus_scale@
    }

    /// The rows of a flat file for an index that was just opened.
    pub fn to_id_map(&self, file: &[u8]) -> (r: IdMapRows)
        requires
            self.wf(file@),
            self.base is Some,
            self.delta.ids@.len() == 0,
        ensures
            r.wf(),
            self.gives_rows(file@, r),
    {
        let g: GatheredRows = self.gather_rows(file);
        let dim: usize = self.dim();
        let n: usize = g.ids.len();
        let ghost slots = self.kept_slots(file@);
        proof {
            let bits = self.bit_width as int;
            let ng = groups(bits, dim as int);
            let k = slots.len() as int;
            assert(0 * ng == 0) by (nonlinear_arith);
            assert(0 <= k * ng) by (nonlinear_arith)
                requires
                    0 <= k,
                    0 <= ng,
            ;
            assert(group_rows(self.delta.codes@, 0, bits, dim as int) =~= Seq::<u8>::empty());
            assert(g.ids@ =~= at_slots(u64_section(file@, 7), slots));
            assert(g.scales@ =~= at_slots(u32_section(file@, 4, hdr_slots(file@) as int), slots));
            assert(g.rows@ =~= rows_at_slots(rows_in(file@, self.flavor, hdr_nlist(file@) as int), ng, slots));
            let w = plane_row_bytes(bits, dim as int);
            assert(0 <= k * w) by (nonlinear_arith)
                requires
                    0 <= k,
                    0 <= w,
            ;
            self.base->0.lemma_describes(file@);
            lemma_survivors(file@, self.tombstones@, hdr_slots(file@) as int);
        }
        let codes: Vec<u8> = packed_from_group_bytes(g.rows.as_slice(), n, self.bit_width, dim);
        let mut shift: Vec<u32> = Vec::new();
        shift.extend_from_slice(self.delta.tqplus_shift.as_slice());
        assert(shift@ =~= self.delta.tqplus_shift@);
        let mut scale: Vec<u32> = Vec::new();
        scale.extend_from_slice(self.delta.tqplus_scale.as_slice());
        assert(scale@ =~= self.delta.tqplus_scale@);
        IdMapRows {
            bit_width: self.bit_width,
            dim,
            codes,
            scales: g.scales,
            ids: g.ids,
            tqplus_shift: shift,
            tqplus_scale: scale,
        }
    }
}

/// In one partition, rows stand in the order in which they were gathered.
proof fn lemma_flat_slots(p: Placement, n: int, dim: int)
    requires
        0 <= n <= usize::MAX,
        flat_placement(p, n, dim),
    ensures
        slots_of(p).len() == n,
        forall|i: int| 0 <= i < n ==> #[trigger] slots_of(p)[i] == (Entry { partition: 0, row: i as usize, replica: false }),
{
    let list = listed(p.assignments@, p.replicas@, n);
    lemma_flat_list(p, n, dim, n);
    let keys = entry_keys(list);
    assert(ascending(keys)) by {
        assert forall|i: int, j: int| 0 <= i < j < keys.len() implies pair_leq(#[trigger] keys[i], #[trigger] keys[j]) by {
            assert(list[i].partition == 0 && list[j].partition == 0);
        }
    }
    lemma_sorted_pairs_unique(keys, keys);
    assert(emission(list) =~= list);
}

proof fn lemma_flat_list(p: Placement, n: int, dim: int, k: int)
    requires
        0 <= k <= n <= usize::MAX,
        flat_placement(p, n, dim),
    ensures
        listed(p.assignments@, p.replicas@, k).len() == k,
        forall|i: int|
            0 <= i < k ==> #[trigger] listed(p.assignments@, p.replicas@, k)[i] == (Entry {
                partition: 0,
                row: i as usize,
                replica: false,
            }),
    decreases k,
{
    if k > 0 {
        lemma_flat_list(p, n, dim, k - 1);
        assert(p.replicas@[k - 1]@.len() == 0);
    }
}

/// Without replicas and removed ids every slot survives.
proof fn lemma_all_survive(file: Seq<u8>, n: int)
    requires
        0 <= n,
        forall|i: int| 0 <= i < n ==> !#[trigger] replicas_in(file)[i],
    ensures
        survivors(file, Set::empty(), n).len() == n,
        forall|i: int| 0 <= i < n ==> #[trigger] survivors(file, Set::empty(), n)[i] == i,
    decreases n,
{
    if n > 0 {
        lemma_all_survive(file, n - 1);
        assert(!replicas_in(file)[n - 1]);
    }
}

/// Converting rows into a segment file and that file back gives the rows that
/// they were. A calibration goes along with rows: of an empty index none is
/// written, and for rows without one the identity is.
pub proof fn law_conversions_are_inverse(
    r: IdMapRows,
    x: DiskIndex,
    none: Seq<u8>,
    g: GatheredRows,
    p: Placement,
    s: Segment,
    y: DiskIndex,
    back: IdMapRows,
)
    requires
        r.wf(),
        r.ids@.len() <= usize::MAX,
        x.holds_rows(r),
        x.gathers(none, g),
        flat_placement(p, r.ids@.len() as int, r.dim as int),
        s.wf(),
        s.places(x.segment_params(), g, p),
        s.tqplus_shift@ == r.tqplus_shift@,
        s.tqplus_scale@ == r.tqplus_scale@,
        y.base is Some,
        y.flavor == s.flavor,
        y.bit_width == s.bit_width,
        y.tombstones@ == Set::<u64>::empty(),
        y.delta.width() == s.dim,
        y.delta.tqplus_shift@ == u32_section(s.file(), 5, hdr_calib(s.file()) as int),
        y.delta.tqplus_scale@ == u32_section(s.file(), 6, hdr_calib(s.file()) as int),
        y.gives_rows(s.file(), back),
    ensures
        back.same(r),
{
    let file = s.file();
    let n = r.ids@.len() as int;
    let bits = r.bit_width as int;
    let dim = r.dim as int;
    let ng = groups(bits, dim);
    assert(x.delta.width() == dim);
    assert(0 * ng == 0) by (nonlinear_arith);
    assert(g.ids@ =~= r.ids@);
    assert(g.scales@ =~= r.scales@);
    assert(g.rows@ =~= group_rows(r.codes@, n, bits, dim));
    lemma_flat_slots(p, n, dim);
    assert(s.ids@ =~= r.ids@);
    assert(s.scales@ =~= r.scales@);
    assert(0 <= n * ng) by (nonlinear_arith)
        requires
            0 <= n,
            0 <= ng,
    ;
    assert(s.rows@ =~= g.rows@) by {
        let idx = rows_of(slots_of(p));
        assert forall|q: int| 0 <= q < n * ng implies s.rows@[q] == g.rows@[q] by {
            assert(0 < ng) by (nonlinear_arith)
                requires
                    0 <= q < n * ng,
                    0 <= ng,
            ;
            crate::math::lemma_flat_row(q, n, ng);
            assert(idx[q / ng] == slots_of(p)[q / ng].row);
            vstd::arithmetic::div_mod::lemma_fundamental_div_mod(q, ng);
            assert(q / ng * ng == ng * (q / ng)) by (nonlinear_arith);
        }
    }
    lemma_file_values(s);
    lemma_id_tables(s);
    lemma_rows_round_trip(s, s.counts@.len() as int);
    lemma_words_written(s, 4, s.scales@);
    lemma_words_written(s, 5, s.tqplus_shift@);
    lemma_words_written(s, 6, s.tqplus_scale@);
    assert forall|i: int| 0 <= i < n implies !#[trigger] replicas_in(file)[i] by {
        lemma_bitmap_bit(s.replica@, i);
        assert(s.replica@[i] == slots_of(p)[i].replica);
    }
    lemma_all_survive(file, n);
    let slots = y.kept_slots(file);
    assert(slots.len() == n);
    assert(back.ids@ =~= r.ids@);
    assert(back.scales@ =~= r.scales@);
    let rows = rows_in(file, s.flavor, s.counts@.len() as int);
    assert(rows_at_slots(rows, ng, slots) =~= g.rows@) by {
        assert forall|q: int| 0 <= q < n * ng implies rows_at_slots(rows, ng, slots)[q] == g.rows@[q] by {
            assert(0 < ng) by (nonlinear_arith)
                requires
                    0 <= q < n * ng,
                    0 <= ng,
            ;
            crate::math::lemma_flat_row(q, n, ng);
            assert(slots[q / ng] == q / ng);
            vstd::arithmetic::div_mod::lemma_fundamental_div_mod(q, ng);
            assert(q / ng * ng == ng * (q / ng)) by (nonlinear_arith);
            assert(s.rows@.take(n * ng)[q] == s.rows@[q]);
        }
    }
    law_planes_round_trip(r.codes@, n, bits, dim);
}

/// Converting a segment file into rows and those back gives an index that
/// gathers the same ids, scales and codes, as long as the code bytes hold
/// nothing beside their codes.
pub proof fn law_rows_come_back(
    y: DiskIndex,
    file: Seq<u8>,
    r: IdMapRows,
    x: DiskIndex,
    none: Seq<u8>,
    g: GatheredRows,
)
    requires
        r.wf(),
        2 <= y.bit_width <= 4,
        y.gives_rows(file, r),
        x.holds_rows(r),
        x.gathers(none, g),
        y.delta.dim == x.delta.dim,
        ({
            let dim = y.delta.width();
            let bits = y.bit_width as int;
            let slots = y.kept_slots(file);
            let rows = rows_at_slots(rows_in(file, y.flavor, hdr_nlist(file) as int), groups(bits, dim), slots);
            forall|q: int| 0 <= q < rows.len() ==> canonical_byte(#[trigger] rows[q], bits)
        }),
    ensures
        ({
            let dim = y.delta.width();
            let bits = y.bit_width as int;
            let slots = y.kept_slots(file);
            &&& g.ids@ == at_slots(u64_section(file, 7), slots)
            &&& g.scales@ == at_slots(u32_section(file, 4, hdr_slots(file) as int), slots)
            &&& g.rows@ == rows_at_slots(
                rows_in(file, y.flavor, hdr_nlist(file) as int),
                groups(bits, dim),
                slots,
            )
        }),
{
    let dim = y.delta.width();
    let bits = y.bit_width as int;
    let slots = y.kept_slots(file);
    let n = slots.len() as int;
    let ng = groups(bits, dim);
    let rows = rows_at_slots(rows_in(file, y.flavor, hdr_nlist(file) as int), ng, slots);
    assert(0 * ng == 0) by (nonlinear_arith);
    assert(0 <= n * ng) by (nonlinear_arith)
        requires
            0 <= n,
            0 <= ng,
    ;
    law_group_rows_round_trip(rows, n, bits, dim);
    assert(g.ids@ =~= r.ids@);
    assert(g.scales@ =~= r.scales@);
    assert(g.rows@ =~= group_rows(r.codes@, n, bits, dim));
}

} // verus!
