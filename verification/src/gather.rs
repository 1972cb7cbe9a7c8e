//! Gathering the live rows of an index, and writing them as a new segment.
use vstd::prelude::*;
use crate::compact::{chosen, GatheredRows, NO_PARTITION, NO_SLOT};
use crate::contents::{replicas_in, rows_in, u32_section, vectors_in};
use crate::disk::DiskIndex;
use crate::math::lemma_flat_row;
use crate::pack::{group_bytes, group_rows, groups, n_byte_groups};
use crate::segment::Segment;
use crate::tvdm::{hdr_nlist, hdr_slots, slots_before, table_of, u64_section, BaseSegment};

verus! {

broadcast use vstd::std_specs::hash::group_hash_axioms;

/// The slots below `n` that hold the first copy of an id that is not removed.
pub open spec fn survivors(file: Seq<u8>, removed: Set<u64>, n: int) -> Seq<int>
    decreases n,
{
    if n <= 0 {
        Seq::empty()
    } else if replicas_in(file)[n - 1] || removed.contains(u64_section(file, 7)[n - 1]) {
        survivors(file, removed, n - 1)
    } else {
        survivors(file, removed, n - 1).push(n - 1)
    }
}

/// The elements of `src` at `slots`.
pub open spec fn at_slots<T>(src: Seq<T>, slots: Seq<int>) -> Seq<T> {
    Seq::new(slots.len(), |k: int| src[slots[k]])
}

/// The rows (of width `w`) of `src` at `slots`.
pub open spec fn rows_at_slots<T>(src: Seq<T>, w: int, slots: Seq<int>) -> Seq<T> {
    Seq::new((slots.len() * w) as nat, |q: int| src[slots[q / w] * w + q % w])
}

/// `slot` belongs to partition `p`.
pub open spec fn slot_in_partition(file: Seq<u8>, slot: int, p: int) -> bool {
    slots_before(table_of(file), p) <= slot < slots_before(table_of(file), p + 1)
}

impl DiskIndex {
    /// The base slots whose rows survive.
    pub open spec fn kept_slots(self, file: Seq<u8>) -> Seq<int> {
        if self.base is Some {
            survivors(file, self.tombstones@, hdr_slots(file) as int)
        } else {
            Seq::empty()
        }
    }

    /// `g` holds every live row: the surviving base rows in slot order, then
    /// the added rows.
    pub open spec fn gathers(self, file: Seq<u8>, g: GatheredRows) -> bool {
        let slots = self.kept_slots(file);
        let bits = self.bit_width as int;
        let dim = self.delta.width();
        let ng = groups(bits, dim);
        let m = self.delta.ids@.len() as int;
        &&& g.ids@ == at_slots(u64_section(file, 7), slots) + self.delta.ids@
        &&& g.scales@ == at_slots(u32_section(file, 4, hdr_slots(file) as int), slots) + self.delta.scales@
        &&& g.rows@ == rows_at_slots(rows_in(file, self.flavor, hdr_nlist(file) as int), ng, slots)
            + group_rows(self.delta.codes@, m, bits, dim)
        &&& g.vectors@ == if self.store_vectors {
            rows_at_slots(vectors_in(file), dim, slots) + self.delta.vectors@
        } else {
            Seq::empty()
        }
        &&& origins(file, slots, m, g.base_slot@, g.source_partition@)
    }
}

/// Where gathered rows come from: base rows name their slot and partition,
/// the `m` added rows have neither.
pub open spec fn origins(file: Seq<u8>, slots: Seq<int>, m: int, base_slot: Seq<u64>, source: Seq<u32>) -> bool {
    &&& source.len() == slots.len() + m
    &&& base_slot.len() == slots.len() + m
    &&& forall|k: int|
        0 <= k < slots.len() ==> #[trigger] base_slot[k] == slots[k] && slot_in_partition(
            file,
            slots[k],
            source[k] as int,
        )
    &&& forall|k: int|
        slots.len() <= k < slots.len() + m ==> #[trigger] base_slot[k] == NO_SLOT && source[k] == NO_PARTITION
}

/// Surviving slots are slots, in order.
pub proof fn lemma_survivors(file: Seq<u8>, removed: Set<u64>, n: int)
    requires
        0 <= n,
    ensures
        survivors(file, removed, n).len() <= n,
        forall|k: int|
            0 <= k < survivors(file, removed, n).len() ==> {
                &&& 0 <= #[trigger] survivors(file, removed, n)[k] < n
                &&& !replicas_in(file)[survivors(file, removed, n)[k]]
                &&& !removed.contains(u64_section(file, 7)[survivors(file, removed, n)[k]])
            },
        forall|i: int, j: int|
            0 <= i < j < survivors(file, removed, n).len() ==> #[trigger] survivors(file, removed, n)[i]
                < #[trigger] survivors(file, removed, n)[j],
        forall|slot: int|
            0 <= slot < n && !replicas_in(file)[slot] && !removed.contains(
                #[trigger] u64_section(file, 7)[slot],
            ) ==> survivors(file, removed, n).contains(slot),
    decreases n,
{
    if n > 0 {
        lemma_survivors(file, removed, n - 1);
        let a = survivors(file, removed, n - 1);
        let s = survivors(file, removed, n);
        assert forall|slot: int| 0 <= slot < n && !replicas_in(file)[slot] && !removed.contains(
            #[trigger] u64_section(file, 7)[slot],
        ) implies s.contains(slot) by {
            if slot < n - 1 {
                assert(a.contains(slot));
                let k = choose|k: int| 0 <= k < a.len() && a[k] == slot;
                assert(s[k] == slot);
            } else {
                assert(s[a.len() as int] == slot);
            }
        }
    }
}

/// The surviving slots of a segment and the partition of each.
fn keep(seg: &BaseSegment, file: &[u8], tombstones: &std::collections::HashSet<u64>) -> (r: (
    Vec<usize>,
    Vec<u32>,
))
    requires
        seg.describes(file@),
    ensures
        r.0@.len() == survivors(file@, tombstones@, seg.n as int).len(),
        r.1@.len() == r.0@.len(),
        forall|k: int|
            0 <= k < r.0@.len() ==> #[trigger] r.0@[k] == survivors(file@, tombstones@, seg.n as int)[k],
        forall|k: int|
            0 <= k < r.0@.len() ==> slot_in_partition(file@, r.0@[k] as int, #[trigger] r.1@[k] as int),
{
    let mut slots: Vec<usize> = Vec::new();
    let mut parts: Vec<u32> = Vec::new();
    let mut slot: usize = 0;
    let mut p: usize = 0;
    let ghost t = table_of(file@);
    let nlist: usize = seg.partitions.len();
    proof {
        seg.lemma_describes(file@);
    }
    while p < nlist
        invariant
            p <= nlist,
            nlist <= 0xFFFF_FFFF,
            seg.describes(file@),
            seg.partitions@ == t,
            t == table_of(file@),
            nlist == t.len(),
            slots_before(t, nlist as int) == seg.n,
            slot == slots_before(t, p as int),
            slots@.len() == survivors(file@, tombstones@, slot as int).len(),
            parts@.len() == slots@.len(),
            forall|k: int|
                0 <= k < slots@.len() ==> #[trigger] slots@[k] == survivors(file@, tombstones@, slot as int)[k],
            forall|k: int|
                0 <= k < slots@.len() ==> slot_in_partition(file@, slots@[k] as int, #[trigger] parts@[k] as int),
        decreases nlist - p,
    {
        proof {
            crate::tvdm::lemma_before_monotone(t, p + 1, nlist as int);
            crate::tvdm::lemma_before_bounds(t, p as int);
        }
        let end: usize = slot + seg.partitions[p].n as usize;
        while slot < end
            invariant
                p < nlist,
                nlist <= 0xFFFF_FFFF,
                seg.describes(file@),
                t == table_of(file@),
                slots_before(t, p as int) <= slot <= end,
                end == slots_before(t, p + 1),
                end <= seg.n,
                slots@.len() == survivors(file@, tombstones@, slot as int).len(),
                parts@.len() == slots@.len(),
                forall|k: int|
                    0 <= k < slots@.len() ==> #[trigger] slots@[k] == survivors(
                        file@,
                        tombstones@,
                        slot as int,
                    )[k],
                forall|k: int|
                    0 <= k < slots@.len() ==> slot_in_partition(
                        file@,
                        slots@[k] as int,
                        #[trigger] parts@[k] as int,
                    ),
            decreases end - slot,
        {
            if !seg.is_replica(file, slot) && !tombstones.contains(&seg.id_at(file, slot)) {
                slots.push(slot);
                parts.push(p as u32);
            }
            slot = slot + 1;
        }
        p = p + 1;
    }
    (slots, parts)
}

/// Picking by `usize` indices is picking by slots.
proof fn lemma_picked_at<T>(src: Seq<T>, w: int, idx: Seq<usize>, slots: Seq<int>)
    requires
        idx.len() == slots.len(),
        forall|k: int| 0 <= k < idx.len() ==> #[trigger] idx[k] == slots[k],
        0 <= w,
    ensures
        crate::compact::picked(src, w, idx) == rows_at_slots(src, w, slots),
        chosen(src, idx) == at_slots(src, slots),
        rows_at_slots(src, w, slots).len() == slots.len() * w,
{
    assert(0 <= slots.len() * w) by (nonlinear_arith)
        requires
            0 <= w,
    ;
    let a = crate::compact::picked(src, w, idx);
    let b = rows_at_slots(src, w, slots);
    assert forall|q: int| 0 <= q < a.len() implies a[q] == b[q] by {
        assert(0 < w) by (nonlinear_arith)
            requires
                0 <= q < idx.len() * w,
                0 <= w,
        ;
        lemma_flat_row(q, idx.len() as int, w);
        assert(idx[q / w] == slots[q / w]);
    }
    assert(a =~= b);
    assert(chosen(src, idx) =~= at_slots(src, slots));
}

/// The surviving rows of the base segment.
fn gather_base(seg: &BaseSegment, file: &[u8], tombstones: &std::collections::HashSet<u64>) -> (g: GatheredRows)
    requires
        seg.describes(file@),
    ensures
        ({
            let slots = survivors(file@, tombstones@, seg.n as int);
            let ng = groups(seg.bit_width as int, seg.dim as int);
            &&& g.ids@ == at_slots(u64_section(file@, 7), slots)
            &&& g.scales@ == at_slots(u32_section(file@, 4, seg.n as int), slots)
            &&& g.rows@ == rows_at_slots(rows_in(file@, seg.flavor, hdr_nlist(file@) as int), ng, slots)
            &&& g.vectors@ == if seg.has_vectors {
                rows_at_slots(vectors_in(file@), seg.dim as int, slots)
            } else {
                Seq::empty()
            }
            &&& g.source_partition@.len() == slots.len()
            &&& g.base_slot@.len() == slots.len()
            &&& forall|k: int|
                0 <= k < slots.len() ==> #[trigger] g.base_slot@[k] == slots[k] && slot_in_partition(
                    file@,
                    slots[k],
                    g.source_partition@[k] as int,
                )
        }),
{
    let (idx, parts) = keep(seg, file, tombstones);
    let ghost slots = survivors(file@, tombstones@, seg.n as int);
    let content: Segment = seg.contents(file);
    proof {
        seg.lemma_describes(file@);
    }
    let ng: usize = n_byte_groups(seg.bit_width, seg.dim);
    proof {
        seg.lemma_describes(file@);
        lemma_survivors(file@, tombstones@, seg.n as int);
        crate::contents::lemma_rows_in_len(file@, seg.flavor, hdr_nlist(file@) as int);
        assert forall|j: int| 0 <= j < idx@.len() implies (#[trigger] idx@[j]) < seg.n by {
            assert(idx@[j] == slots[j]);
        }
        lemma_picked_at(content.rows@, ng as int, idx@, slots);
        lemma_picked_at(content.vectors@, seg.dim as int, idx@, slots);
        lemma_picked_at(content.ids@, 1, idx@, slots);
        lemma_picked_at(content.scales@, 1, idx@, slots);
        assert(0 <= seg.n * seg.dim) by (nonlinear_arith);
    }
    let vectors: Vec<u32> = if seg.has_vectors {
        crate::compact::pick_rows(&content.vectors, seg.dim, &idx, seg.n)
    } else {
        Vec::new()
    };
    assert(!seg.has_vectors ==> vectors@ =~= Seq::<u32>::empty());
    let mut base_slot: Vec<u64> = Vec::new();
    let mut k: usize = 0;
    while k < idx.len()
        invariant
            k <= idx.len(),
            base_slot@.len() == k,
            forall|i: int| 0 <= i < k ==> #[trigger] base_slot@[i] == idx@[i],
        decreases idx.len() - k,
    {
        base_slot.push(idx[k] as u64);
        k = k + 1;
    }
    let g: GatheredRows = GatheredRows {
        rows: crate::compact::pick_rows(&content.rows, ng, &idx, seg.n),
        scales: crate::compact::choose_each(&content.scales, &idx),
        ids: crate::compact::choose_each(&content.ids, &idx),
        vectors,
        source_partition: parts,
        base_slot,
    };
    assert forall|j: int| 0 <= j < slots.len() implies #[trigger] g.base_slot@[j] == slots[j]
        && slot_in_partition(file@, slots[j], g.source_partition@[j] as int) by {
        assert(idx@[j] == slots[j]);
        assert(slot_in_partition(file@, idx@[j] as int, parts@[j] as int));
    }
    g
}

impl DiskIndex {
    /// Gathers every live row: surviving base rows in slot order, then the
    /// added rows.
    pub fn gather_rows(&self, file: &[u8]) -> (g: GatheredRows)
        requires
            self.wf(file@),
        ensures
            self.gathers(file@, g),
    {
        let dim: usize = self.dim();
        let m: usize = self.delta.ids.len();
        let ghost slots = self.kept_slots(file@);
        let mut g: GatheredRows = match &self.base {
            Some(seg) => {
                proof {
                    seg.lemma_describes(file@);
                    lemma_survivors(file@, self.tombstones@, seg.n as int);
                }
                gather_base(seg, file, &self.tombstones)
            },
            None => GatheredRows {
                rows: Vec::new(),
                scales: Vec::new(),
                ids: Vec::new(),
                vectors: Vec::new(),
                source_partition: Vec::new(),
                base_slot: Vec::new(),
            },
        };
        let ghost ng = groups(self.bit_width as int, dim as int);
        proof {
            if slots.len() == 0 {
                assert(0 * ng == 0) by (nonlinear_arith);
                assert(0 * dim == 0) by (nonlinear_arith);
                let src = rows_in(file@, self.flavor, hdr_nlist(file@) as int);
                assert(rows_at_slots(src, ng, slots) =~= Seq::<u8>::empty());
                assert(rows_at_slots(vectors_in(file@), dim as int, slots) =~= Seq::<u32>::empty());
                assert(at_slots(u64_section(file@, 7), slots) =~= Seq::<u64>::empty());
                assert(at_slots(u32_section(file@, 4, hdr_slots(file@) as int), slots) =~= Seq::<u32>::empty());
                if self.base is Some {
                    let w = groups(self.base->0.bit_width as int, self.base->0.dim as int);
                    let dd = self.base->0.dim as int;
                    assert(0 * w == 0) by (nonlinear_arith);
                    assert(0 * dd == 0) by (nonlinear_arith);
                    assert(rows_at_slots(src, w, slots) =~= Seq::<u8>::empty());
                    assert(rows_at_slots(vectors_in(file@), dd, slots) =~= Seq::<u32>::empty());
                }
            }
        }
        let added: Vec<u8> = group_bytes(self.delta.codes.as_slice(), m, self.bit_width, dim);
        g.rows.extend_from_slice(added.as_slice());
        g.scales.extend_from_slice(self.delta.scales.as_slice());
        g.ids.extend_from_slice(self.delta.ids.as_slice());
        g.vectors.extend_from_slice(self.delta.vectors.as_slice());
        let ghost full = g;
        let mut k: usize = 0;
        while k < m
            invariant
                k <= m,
                g.rows == full.rows,
                g.scales == full.scales,
                g.ids == full.ids,
                g.vectors == full.vectors,
                g.source_partition@.len() == slots.len() + k,
                g.base_slot@.len() == slots.len() + k,
                forall|j: int|
                    0 <= j < slots.len() ==> #[trigger] g.base_slot@[j] == slots[j] && slot_in_partition(
                        file@,
                        slots[j],
                        g.source_partition@[j] as int,
                    ),
                forall|j: int|
                    slots.len() <= j < slots.len() + k ==> #[trigger] g.base_slot@[j] == NO_SLOT
                        && g.source_partition@[j] == NO_PARTITION,
            decreases m - k,
        {
            g.source_partition.push(NO_PARTITION);
            g.base_slot.push(NO_SLOT);
            k = k + 1;
        }
        proof {
            assert(g.rows@ =~= rows_at_slots(rows_in(file@, self.flavor, hdr_nlist(file@) as int), ng, slots)
                + group_rows(self.delta.codes@, m as int, self.bit_width as int, dim as int));
            assert(g.vectors@ =~= if self.store_vectors {
                rows_at_slots(vectors_in(file@), dim as int, slots) + self.delta.vectors@
            } else {
                Seq::empty()
            });
            assert(g.ids@ =~= at_slots(u64_section(file@, 7), slots) + self.delta.ids@);
            assert(g.scales@ =~= at_slots(u32_section(file@, 4, hdr_slots(file@) as int), slots)
                + self.delta.scales@);
            assert(origins(file@, slots, m as int, g.base_slot@, g.source_partition@));
        }
        g
    }
}

} // verus!
