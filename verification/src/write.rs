//! Writing an index as a new segment file.
use vstd::prelude::*;
use crate::bytes::read_u32s;
use crate::compact::{
    build_segment, entry_keys, law_every_row_has_a_primary, law_one_primary_per_row, lemma_ids_of_slots,
    lens_of_placement, listed, rows_of, slots_of, GatheredRows, Placement, SegmentParams,
};
use crate::contents::{ids_in, replicas_in, u32_section};
use crate::disk::{lemma_concat_set, DiskIndex};
use crate::gather::{at_slots, lemma_survivors};
use crate::pack::groups;
use crate::sections::section_start;
use crate::segment::Segment;
use crate::segment_laws::{lemma_bitmap_bit, lemma_file_values, lemma_id_tables, lemma_sorted_ids};
use crate::sort::lemma_sorted_pairs;
use crate::tvdm::{hdr_calib, hdr_slots, lemma_lens_in, lemma_sections_fit, lens_in, u64_section, BaseSegment};

verus! {

broadcast use vstd::std_specs::hash::group_hash_axioms;

/// Bit pattern of 1.0.
pub const ONE_BITS: u32 = 0x3F80_0000;

/// `slot` holds the first copy of `id`.
pub open spec fn is_primary(file: Seq<u8>, slot: int, id: u64) -> bool {
    0 <= slot < hdr_slots(file) && !replicas_in(file)[slot] && u64_section(file, 7)[slot] == id
}

/// Every listed id has exactly one first copy, and first copies have listed
/// ids.
pub open spec fn consistent(file: Seq<u8>) -> bool {
    &&& forall|a: int, b: int, id: u64|
        #[trigger] is_primary(file, a, id) && #[trigger] is_primary(file, b, id) ==> a == b
    &&& forall|a: int, id: u64| #[trigger] is_primary(file, a, id) ==> ids_in(file).contains(id)
    &&& forall|id: u64|
        #[trigger] ids_in(file).contains(id) ==> exists|a: int| #[trigger] is_primary(file, a, id)
}

/// A file with the rows of a placement is consistent.
pub proof fn law_written_file_is_consistent(s: Segment, params: SegmentParams, g: GatheredRows, p: Placement)
    requires
        s.wf(),
        s.places(params, g, p),
        g.wf(params),
        p.wf(g.ids@.len() as int, params.dim as int),
    ensures
        consistent(s.file()),
        ids_in(s.file()) == g.ids@.to_set(),
{
    let file = s.file();
    let n = g.ids@.len() as int;
    let e = slots_of(p);
    lemma_file_values(s);
    lemma_id_tables(s);
    crate::segment::lemma_slot_headroom(s);
    lemma_sorted_ids(s.ids@);
    assert(s.ids@.len() == e.len());
    lemma_sorted_pairs(entry_keys(listed(p.assignments@, p.replicas@, n)));
    lemma_gathered_bound(g, p, params);
    crate::compact::lemma_slots(p, n, params.dim as int);
    assert forall|j: int| 0 <= j < rows_of(e).len() implies (#[trigger] rows_of(e)[j]) < n by {
        assert(e[j].row < n);
    }
    lemma_ids_of_slots(g.ids@, rows_of(e));
    assert(ids_in(file) == g.ids@.to_set());
    assert forall|slot: int| 0 <= slot < e.len() implies #[trigger] replicas_in(file)[slot] == e[slot].replica by {
        lemma_bitmap_bit(s.replica@, slot);
    }
    assert forall|slot: int, id: u64| #[trigger] is_primary(file, slot, id) implies 0 <= slot < e.len()
        && !e[slot].replica && g.ids@[e[slot].row as int] == id && e[slot].row < n by {
        assert(replicas_in(file)[slot] == e[slot].replica);
        assert(rows_of(e)[slot] < n);
    }
    assert forall|a: int, b: int, id: u64| #[trigger] is_primary(file, a, id) && #[trigger] is_primary(
        file,
        b,
        id,
    ) implies a == b by {
        if a != b {
            law_one_primary_per_row(p, n, params.dim as int, a, b);
        }
    }
    assert forall|a: int, id: u64| #[trigger] is_primary(file, a, id) implies ids_in(file).contains(id) by {
        assert(g.ids@[e[a].row as int] == id);
    }
    assert forall|id: u64| #[trigger] ids_in(file).contains(id) implies exists|a: int|
        #[trigger] is_primary(file, a, id) by {
        let i = choose|i: int| 0 <= i < n && g.ids@[i] == id;
        law_every_row_has_a_primary(p, n, params.dim as int, i);
        let j = choose|j: int|
            0 <= j < slots_of(p).len() && (#[trigger] slots_of(p)[j]).row == i && !slots_of(p)[j].replica
                && slots_of(p)[j].partition == p.assignments@[i];
        assert(replicas_in(file)[j] == e[j].replica);
        assert(is_primary(file, j, id));
    }
}

/// Row counts fit the machine.
proof fn lemma_gathered_bound(g: GatheredRows, p: Placement, params: SegmentParams)
    requires
        g.wf(params),
        p.wf(g.ids@.len() as int, params.dim as int),
    ensures
        g.ids@.len() <= usize::MAX,
{
    assert(g.ids.len() == g.ids@.len());
}

/// Gathered ids are the live ids, each once.
pub proof fn lemma_gathered_ids(x: DiskIndex, file: Seq<u8>, g: GatheredRows)
    requires
        x.wf(file),
        x.base is Some ==> consistent(file),
        x.gathers(file, g),
    ensures
        g.ids@.no_duplicates(),
        g.ids@.to_set() == x.live(file),
{
    let slots = x.kept_slots(file);
    let base = at_slots(u64_section(file, 7), slots);
    let added = x.delta.ids@;
    if x.base is Some {
        let n = hdr_slots(file) as int;
        lemma_survivors(file, x.tombstones@, n);
        assert forall|k: int| 0 <= k < slots.len() implies is_primary(file, slots[k], #[trigger] base[k]) by {
            assert(0 <= slots[k] < n);
        }
        assert forall|id: u64| base.to_set().contains(id) <==> x.base_live(file).contains(id) by {
            if base.contains(id) {
                let k = choose|k: int| 0 <= k < base.len() && base[k] == id;
                assert(is_primary(file, slots[k], base[k]));
                assert(0 <= slots[k] < n);
            }
            if x.base_live(file).contains(id) {
                assert(ids_in(file).contains(id));
                let a = choose|a: int| #[trigger] is_primary(file, a, id);
                assert(!x.tombstones@.contains(u64_section(file, 7)[a]));
                assert(slots.contains(a));
                let k = choose|k: int| 0 <= k < slots.len() && slots[k] == a;
                assert(base[k] == id);
            }
        }
        assert forall|i: int, j: int| 0 <= i < base.len() && 0 <= j < base.len() && i != j implies base[i]
            != base[j] by {
            assert(is_primary(file, slots[i], base[i]));
            assert(is_primary(file, slots[j], base[j]));
            if i < j {
                assert(slots[i] < slots[j]);
            } else {
                assert(slots[j] < slots[i]);
            }
        }
    }
    assert(base.to_set() =~= x.base_live(file));
    lemma_concat_set(base, added);
    assert forall|i: int, j: int| 0 <= i < g.ids@.len() && 0 <= j < g.ids@.len() && i != j implies g.ids@[i]
        != g.ids@[j] by {
        if i < base.len() && j >= base.len() {
            assert(base.contains(base[i]));
            assert(!x.base_live(file).contains(added[j - base.len()]));
        } else if j < base.len() && i >= base.len() {
            assert(base.contains(base[j]));
            assert(!x.base_live(file).contains(added[i - base.len()]));
        }
    }
}

impl DiskIndex {
    /// What a file written now records.
    pub open spec fn segment_params(self) -> SegmentParams {
        SegmentParams {
            flavor: self.flavor,
            bit_width: self.bit_width,
            dim: self.delta.width() as usize,
            partition_target: self.partition_target,
            replica_epsilon: self.replica_epsilon,
            has_vectors: self.store_vectors,
        }
    }

    /// The calibration that stored rows are encoded with: the base segment's,
    /// else the added rows', else the identity.
    pub open spec fn calibration(self, file: Seq<u8>) -> (Seq<u32>, Seq<u32>) {
        if self.base is Some && self.base->0.n_calib > 0 {
            (u32_section(file, 5, hdr_calib(file) as int), u32_section(file, 6, hdr_calib(file) as int))
        } else if self.delta.tqplus_shift@.len() > 0 {
            (self.delta.tqplus_shift@, self.delta.tqplus_scale@)
        } else {
            (
                Seq::new(self.delta.width() as nat, |i: int| 0u32),
                Seq::new(self.delta.width() as nat, |i: int| ONE_BITS),
            )
        }
    }

    /// [`DiskIndex::calibration`], read out.
    pub fn calibration_for_write(&self, file: &[u8]) -> (r: (Vec<u32>, Vec<u32>))
        requires
            self.wf(file@),
        ensures
            (r.0@, r.1@) == self.calibration(file@),
            r.0@.len() == self.delta.width(),
            r.1@.len() == self.delta.width(),
    {
        if let Some(seg) = &self.base {
            proof {
                seg.lemma_describes(file@);
                lemma_lens_in(file@);
                lemma_sections_fit(file@, seg.flavor);
                assert(section_start(lens_in(file@), 5) + lens_in(file@)[5] <= file@.len());
                assert(section_start(lens_in(file@), 6) + lens_in(file@)[6] <= file@.len());
            }
            if seg.n_calib > 0 {
                let shift: Vec<u32> = read_u32s(file, seg.layout.tqplus_shift.0, seg.n_calib);
                let scale: Vec<u32> = read_u32s(file, seg.layout.tqplus_scale.0, seg.n_calib);
                return (shift, scale);
            }
        }
        if self.delta.tqplus_shift.len() > 0 {
            return (copy_words(&self.delta.tqplus_shift), copy_words(&self.delta.tqplus_scale));
        }
        let dim: usize = self.dim();
        (fill(dim, 0), fill(dim, ONE_BITS))
    }
}

fn copy_words(v: &Vec<u32>) -> (out: Vec<u32>)
    ensures
        out@ == v@,
{
    let mut out: Vec<u32> = Vec::new();
    out.extend_from_slice(v.as_slice());
    assert(out@ =~= v@);
    out
}

fn fill(n: usize, value: u32) -> (out: Vec<u32>)
    ensures
        out@ == Seq::new(n as nat, |i: int| value),
{
    let mut out: Vec<u32> = Vec::new();
    let mut i: usize = 0;
    while i < n
        invariant
            i <= n,
            out@ == Seq::new(i as nat, |k: int| value),
        decreases n - i,
    {
        out.push(value);
        i = i + 1;
        assert(out@ =~= Seq::new(i as nat, |k: int| value));
    }
    assert(out@ =~= Seq::new(n as nat, |i: int| value));
    out
}

/// Everything in one partition with a zero centroid.
pub open spec fn flat_placement(p: Placement, n: int, dim: int) -> bool {
    &&& p.nlist == 1
    &&& p.centroids@ == Seq::new(dim as nat, |i: int| 0u32)
    &&& p.assignments@ == Seq::new(n as nat, |i: int| 0u32)
    &&& p.replicas@.len() == n
    &&& forall|i: int| 0 <= i < n ==> (#[trigger] p.replicas@[i])@.len() == 0
}

/// Places `n` rows in one partition.
pub fn place_flat(n: usize, dim: usize) -> (p: Placement)
    ensures
        flat_placement(p, n as int, dim as int),
        p.wf(n as int, dim as int),
{
    let mut replicas: Vec<Vec<u32>> = Vec::new();
    let mut i: usize = 0;
    while i < n
        invariant
            i <= n,
            replicas@.len() == i,
            forall|k: int| 0 <= k < i ==> (#[trigger] replicas@[k])@.len() == 0,
        decreases n - i,
    {
        replicas.push(Vec::new());
        i = i + 1;
    }
    Placement { centroids: fill(dim, 0), nlist: 1, assignments: fill(n, 0), replicas }
}

/// Whether a write with `n` rows partitions them.
pub open spec fn partitions_at(target: Option<u32>, n: int) -> bool {
    target is Some && n >= 2 * target->0
}

/// Whether a write with `n` rows partitions them.
pub fn partitioning_active(target: Option<u32>, n: usize) -> (r: bool)
    ensures
        r == partitions_at(target, n as int),
{
    match target {
        Some(t) => n as u128 >= 2 * (t as u128),
        None => false,
    }
}

impl DiskIndex {
    /// Lays the gathered rows out as the segment to write; `None` if its file
    /// would not fit the address space.
    pub fn write_compacted(&self, file: &[u8], g: &GatheredRows, placement: Placement) -> (r: Option<Segment>)
        requires
            self.wf(file@),
            self.base is Some ==> consistent(file@),
            self.gathers(file@, *g),
            placement.wf(g.ids@.len() as int, self.delta.width()),
        ensures
            r is Some <==> section_start(lens_of_placement(self.segment_params(), placement), 12)
                <= usize::MAX,
            r is Some ==> {
                &&& r->0.wf()
                &&& r->0.places(self.segment_params(), *g, placement)
                &&& g.ids@.len() > 0 ==> (r->0.tqplus_shift@, r->0.tqplus_scale@) == self.calibration(file@)
                &&& consistent(r->0.file())
                &&& ids_in(r->0.file()) == self.live(file@)
            },
    {
        proof {
            lemma_gathered_ids(*self, file@, *g);
            lemma_gathered_wf(*self, file@, *g);
        }
        let params: SegmentParams = SegmentParams {
            flavor: self.flavor,
            bit_width: self.bit_width,
            dim: self.dim(),
            partition_target: self.partition_target,
            replica_epsilon: self.replica_epsilon,
            has_vectors: self.store_vectors,
        };
        let (shift, scale) = if g.ids.len() > 0 {
            self.calibration_for_write(file)
        } else {
            (Vec::new(), Vec::new())
        };
        let ghost placed = placement;
        let r: Option<Segment> = build_segment(params, g, placement, shift, scale);
        proof {
            if r is Some {
                law_written_file_is_consistent(r->0, params, *g, placed);
            }
        }
        r
    }

    /// Makes a newly written file the base segment; added rows and tombstones
    /// are part of it now.
    pub fn install(&mut self, seg: BaseSegment, file: &[u8])
        requires
            seg.describes(file@),
            seg.flavor == old(self).flavor,
            seg.bit_width == old(self).bit_width,
            seg.has_vectors == old(self).store_vectors,
            old(self).partition_target is Some ==> old(self).partition_target->0 > 0,
            old(self).replica_epsilon is Some ==> crate::tvdm::finite_positive(old(self).replica_epsilon->0),
        ensures
            final(self).wf(file@),
            final(self).live(file@) == ids_in(file@),
            *final(self) == (DiskIndex {
                base: Some(seg),
                delta: final(self).delta,
                tombstones: final(self).tombstones,
                ..*old(self)
            }),
            final(self).delta.ids@.len() == 0,
            final(self).delta.dim == (if seg.dim == 0 {
                None
            } else {
                Some(seg.dim)
            }),
            final(self).delta.tqplus_shift@ == u32_section(file@, 5, seg.n_calib as int),
            final(self).delta.tqplus_scale@ == u32_section(file@, 6, seg.n_calib as int),
            final(self).tombstones@ == Set::<u64>::empty(),
    {
        let fresh: DiskIndex = DiskIndex::open(seg, file);
        self.base = fresh.base;
        self.delta = fresh.delta;
        self.tombstones = fresh.tombstones;
        assert(self.live(file@) =~= ids_in(file@));
    }
}

/// What gathering gives has agreeing columns.
pub proof fn lemma_gathered_wf(x: DiskIndex, file: Seq<u8>, g: GatheredRows)
    requires
        x.wf(file),
        x.gathers(file, g),
        g.ids@.no_duplicates(),
    ensures
        g.wf(x.segment_params()),
        x.segment_params().wf(),
{
    let slots = x.kept_slots(file);
    let dim = x.delta.width();
    let ng = groups(x.bit_width as int, dim);
    let m = x.delta.ids@.len() as int;
    let k = slots.len() as int;
    assert((k + m) * ng == k * ng + m * ng) by (nonlinear_arith);
    assert((k + m) * dim == k * dim + m * dim) by (nonlinear_arith);
    assert(0 <= k * ng && 0 <= m * ng && 0 <= k * dim) by (nonlinear_arith)
        requires
            0 <= k,
            0 <= m,
            0 <= ng,
            0 <= dim,
    ;
    if dim == 0 && x.base is Some {
        x.base->0.lemma_describes(file);
        lemma_survivors(file, x.tombstones@, hdr_slots(file) as int);
    }
}

/// Writing an index and opening the file keeps the set of ids.
pub proof fn law_write_keeps_ids(x: DiskIndex, file: Seq<u8>, g: GatheredRows, p: Placement, s: Segment)
    requires
        x.wf(file),
        x.base is Some ==> consistent(file),
        x.gathers(file, g),
        p.wf(g.ids@.len() as int, x.delta.width()),
        s.wf(),
        s.places(x.segment_params(), g, p),
    ensures
        ids_in(s.file()) == x.live(file),
        consistent(s.file()),
        crate::tvdm::open_error(s.file(), x.flavor) is None,
{
    lemma_gathered_ids(x, file, g);
    lemma_gathered_wf(x, file, g);
    law_written_file_is_consistent(s, x.segment_params(), g, p);
    crate::segment_laws::law_written_file_opens(s);
}

} // verus!
