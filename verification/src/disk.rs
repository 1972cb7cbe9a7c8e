//! The disk-primary index: an immutable base segment in a file, rows added in
//! RAM since the last write, and tombstones for base rows removed since then.
//!
//! The file's bytes are not part of the index: every operation that looks into
//! the base segment takes them, so a caller can keep them memory-mapped.
use std::collections::HashSet;
use vstd::prelude::*;
use crate::bytes::read_u32s;
use crate::contents::{ids_in, u32_section, vectors_in};
use crate::delta::{
    first_invalid, first_invalid_coord, first_repeat, first_taken, find_repeat, lemma_first_repeat_none,
    lemma_first_taken_none, lemma_first_taken_prefix, plane_row_bytes, slots_match, Delta,
};
use crate::math::lemma_flat_bound;
use crate::pack::Layout;
use crate::sections::section_start;
use crate::tvdm::{
    finite_positive, hdr_dim, hdr_slots, lemma_lens_in, lemma_sections_fit, lens_in, u64_section,
    BaseSegment,
};

verus! {

broadcast use vstd::std_specs::hash::group_hash_axioms;

/// Why an index cannot be built.
#[derive(Clone, Copy, Debug, PartialEq, Eq, Structural)]
pub enum ConstructError {
    /// Not 2, 3 or 4.
    InvalidBitWidth(usize),
    /// Not a positive multiple of 8 that a file can record.
    InvalidDim(usize),
}

/// Why rows cannot be added.
#[derive(Clone, Copy, Debug, PartialEq, Eq, Structural)]
pub enum AddError {
    IdAlreadyPresent(u64),
    InvalidDim(usize),
    VectorBufferNotMultipleOfDim { len: usize, dim: usize },
    IdCountMismatch { vectors: usize, ids: usize },
    DimMismatch { existing: usize, got: usize },
    InvalidValue { vector: usize, coord: usize },
    IdRepeated(u64),
}

/// A dimensionality that an index can have.
pub open spec fn valid_dim(dim: int) -> bool {
    0 < dim <= 0xFFFF_FFFF && dim % 8 == 0
}

/// What is wrong with the parameters of a new index.
pub open spec fn construct_error(dim: Option<usize>, bit_width: usize) -> Option<ConstructError> {
    if !(2 <= bit_width <= 4) {
        Some(ConstructError::InvalidBitWidth(bit_width))
    } else if dim is Some && !valid_dim(dim->0 as int) {
        Some(ConstructError::InvalidDim(dim->0))
    } else {
        None
    }
}

/// The disk-primary index.
pub struct DiskIndex {
    pub flavor: Layout,
    pub bit_width: usize,
    pub base: Option<BaseSegment>,
    /// Rows added since the last write.
    pub delta: Delta,
    /// Ids removed from the base segment since the last write.
    pub tombstones: HashSet<u64>,
    /// Target partition size; `None` for one flat segment.
    pub partition_target: Option<u32>,
    /// Bit pattern of the replica epsilon; `None` for one copy per vector.
    pub replica_epsilon: Option<u32>,
    /// Prune replica targets that a chosen one already covers.
    pub replica_prune: bool,
    /// Keep full-precision vectors.
    pub store_vectors: bool,
}

impl DiskIndex {
    /// The ids of the base segment that are not removed.
    pub open spec fn base_live(self, file: Seq<u8>) -> Set<u64> {
        if self.base is Some {
            ids_in(file).difference(self.tombstones@)
        } else {
            Set::empty()
        }
    }

    /// The ids in the index.
    pub open spec fn live(self, file: Seq<u8>) -> Set<u64> {
        self.base_live(file).union(self.delta.ids@.to_set())
    }

    /// The base segment is the file's, removed ids are in it, and no id is
    /// live twice.
    pub open spec fn wf(self, file: Seq<u8>) -> bool {
        &&& 2 <= self.bit_width <= 4
        &&& self.delta.wf(self.bit_width as int, self.store_vectors)
        &&& match self.base {
            Some(seg) => {
                &&& seg.describes(file)
                &&& seg.flavor == self.flavor
                &&& seg.bit_width == self.bit_width
                &&& seg.has_vectors == self.store_vectors
                &&& seg.dim > 0 ==> self.delta.dim == Some(seg.dim)
                &&& self.tombstones@.subset_of(ids_in(file))
            },
            None => self.tombstones@ == Set::<u64>::empty(),
        }
        &&& forall|i: int|
            0 <= i < self.delta.ids@.len() ==> !self.base_live(file).contains(#[trigger] self.delta.ids@[i])
        &&& self.partition_target is Some ==> self.partition_target->0 > 0
        &&& self.replica_epsilon is Some ==> finite_positive(self.replica_epsilon->0)
    }

    /// An empty index with no file yet. Without `dim` the first add commits
    /// one.
    pub fn new(dim: Option<usize>, bit_width: usize, flavor: Layout) -> (r: Result<DiskIndex, ConstructError>)
        ensures
            match r {
                Err(e) => construct_error(dim, bit_width) == Some(e),
                Ok(x) => {
                    &&& construct_error(dim, bit_width) is None
                    &&& forall|file: Seq<u8>| #[trigger] x.wf(file)
                    &&& forall|file: Seq<u8>| #[trigger] x.live(file) == Set::<u64>::empty()
                    &&& x.bit_width == bit_width
                    &&& x.flavor == flavor
                    &&& x.delta.dim == dim
                    &&& x.base is None
                    &&& x.partition_target is None
                    &&& x.replica_epsilon is None
                    &&& x.replica_prune
                    &&& !x.store_vectors
                },
            },
    {
        if bit_width < 2 || bit_width > 4 {
            return Err(ConstructError::InvalidBitWidth(bit_width));
        }
        if let Some(d) = dim {
            if d == 0 || d > 0xFFFF_FFFF || d % 8 != 0 {
                return Err(ConstructError::InvalidDim(d));
            }
        }
        let x: DiskIndex = DiskIndex {
            flavor,
            bit_width,
            base: None,
            delta: Delta::empty(dim, Vec::new(), Vec::new()),
            tombstones: HashSet::new(),
            partition_target: None,
            replica_epsilon: None,
            replica_prune: true,
            store_vectors: false,
        };
        assert forall|file: Seq<u8>| #[trigger] x.live(file) == Set::<u64>::empty() by {
            assert(x.live(file) =~= Set::<u64>::empty());
        }
        assert forall|file: Seq<u8>| #[trigger] x.wf(file) by {}
        Ok(x)
    }

    /// The index over a parsed file. What the file records of partitioning,
    /// replication and stored vectors carries over.
    pub fn open(seg: BaseSegment, file: &[u8]) -> (x: DiskIndex)
        requires
            seg.describes(file@),
        ensures
            x.wf(file@),
            x.base == Some(seg),
            x.live(file@) == ids_in(file@),
            x.flavor == seg.flavor,
            x.bit_width == seg.bit_width,
            x.delta.ids@.len() == 0,
            x.delta.dim == (if seg.dim == 0 {
                None
            } else {
                Some(seg.dim)
            }),
            x.delta.tqplus_shift@ == u32_section(file@, 5, seg.n_calib as int),
            x.delta.tqplus_scale@ == u32_section(file@, 6, seg.n_calib as int),
            x.tombstones@ == Set::<u64>::empty(),
            x.partition_target == (if seg.file_partition_target == 0 {
                None
            } else {
                Some(seg.file_partition_target as u32)
            }),
            x.replica_epsilon == seg.file_replica_epsilon,
            x.replica_prune,
            x.store_vectors == seg.has_vectors,
    {
        let (shift, scale) = calibration_of(&seg, file);
        proof {
            seg.lemma_describes(file@);
        }
        let dim: Option<usize> = if seg.dim == 0 {
            None
        } else {
            Some(seg.dim)
        };
        let x: DiskIndex = DiskIndex {
            flavor: seg.flavor,
            bit_width: seg.bit_width,
            delta: Delta::empty(dim, shift, scale),
            tombstones: HashSet::new(),
            partition_target: if seg.file_partition_target == 0 {
                None
            } else {
                Some(seg.file_partition_target as u32)
            },
            replica_epsilon: seg.file_replica_epsilon,
            replica_prune: true,
            store_vectors: seg.has_vectors,
            base: Some(seg),
        };
        assert(x.live(file@) =~= ids_in(file@));
        x
    }
}

/// The calibration recorded in a file.
fn calibration_of(seg: &BaseSegment, file: &[u8]) -> (r: (Vec<u32>, Vec<u32>))
    requires
        seg.describes(file@),
    ensures
        r.0@ == u32_section(file@, 5, seg.n_calib as int),
        r.1@ == u32_section(file@, 6, seg.n_calib as int),
        r.0@.len() == seg.n_calib,
        r.1@.len() == seg.n_calib,
{
    proof {
        seg.lemma_describes(file@);
        lemma_lens_in(file@);
        lemma_sections_fit(file@, seg.flavor);
        assert(section_start(lens_in(file@), 5) + lens_in(file@)[5] <= file@.len());
        assert(section_start(lens_in(file@), 6) + lens_in(file@)[6] <= file@.len());
    }
    let shift: Vec<u32> = read_u32s(file, seg.layout.tqplus_shift.0, seg.n_calib);
    let scale: Vec<u32> = read_u32s(file, seg.layout.tqplus_scale.0, seg.n_calib);
    (shift, scale)
}

/// What is wrong with rows to add.
pub open spec fn add_error(
    base_live: Set<u64>,
    delta: Delta,
    vectors: Seq<u32>,
    dim: usize,
    ids: Seq<u64>,
) -> Option<AddError> {
    if first_taken(ids, base_live) is Some {
        Some(AddError::IdAlreadyPresent(first_taken(ids, base_live)->0))
    } else {
        rows_error(delta, vectors, dim, ids)
    }
}

/// What is wrong with rows to append to `delta`.
pub open spec fn rows_error(delta: Delta, vectors: Seq<u32>, dim: usize, ids: Seq<u64>) -> Option<AddError> {
    if !valid_dim(dim as int) {
        Some(AddError::InvalidDim(dim))
    } else if vectors.len() % (dim as nat) != 0 {
        Some(AddError::VectorBufferNotMultipleOfDim { len: vectors.len() as usize, dim })
    } else if vectors.len() / (dim as nat) != ids.len() {
        Some(
            AddError::IdCountMismatch {
                vectors: (vectors.len() / (dim as nat)) as usize,
                ids: ids.len() as usize,
            },
        )
    } else if delta.dim is Some && delta.dim->0 != dim {
        Some(AddError::DimMismatch { existing: delta.dim->0, got: dim })
    } else if first_invalid(vectors) is Some {
        Some(
            AddError::InvalidValue {
                vector: (first_invalid(vectors)->0 / dim as int) as usize,
                coord: (first_invalid(vectors)->0 % dim as int) as usize,
            },
        )
    } else if first_taken(ids, delta.ids@.to_set()) is Some {
        Some(AddError::IdAlreadyPresent(first_taken(ids, delta.ids@.to_set())->0))
    } else if first_repeat(ids) is Some {
        Some(AddError::IdRepeated(first_repeat(ids)->0))
    } else {
        None
    }
}

/// The first of `ids` that is in `delta`.
fn first_in_delta(delta: &Delta, ids: &[u64]) -> (r: Option<u64>)
    requires
        slots_match(delta.ids@, delta.slots@),
    ensures
        r == first_taken(ids@, delta.ids@.to_set()),
{
    let ghost taken = delta.ids@.to_set();
    let mut i: usize = 0;
    assert(ids@.take(0) =~= Seq::<u64>::empty());
    while i < ids.len()
        invariant
            i <= ids.len(),
            slots_match(delta.ids@, delta.slots@),
            taken == delta.ids@.to_set(),
            first_taken(ids@.take(i as int), taken) is None,
        decreases ids.len() - i,
    {
        assert(ids@.take(i + 1).drop_last() =~= ids@.take(i as int));
        if delta.contains(ids[i]) {
            proof {
                lemma_first_taken_prefix(ids@, taken, i + 1);
            }
            return Some(ids[i]);
        }
        i = i + 1;
    }
    assert(ids@.take(i as int) =~= ids@);
    None
}

/// Checks rows to append to `delta`.
pub fn check_rows(delta: &Delta, vectors: &[u32], dim: usize, ids: &[u64]) -> (r: Option<AddError>)
    requires
        slots_match(delta.ids@, delta.slots@),
    ensures
        r == rows_error(*delta, vectors@, dim, ids@),
{
    if dim == 0 || dim > 0xFFFF_FFFF || dim % 8 != 0 {
        return Some(AddError::InvalidDim(dim));
    }
    if vectors.len() % dim != 0 {
        return Some(AddError::VectorBufferNotMultipleOfDim { len: vectors.len(), dim });
    }
    if vectors.len() / dim != ids.len() {
        return Some(AddError::IdCountMismatch { vectors: vectors.len() / dim, ids: ids.len() });
    }
    if let Some(existing) = delta.dim {
        if existing != dim {
            return Some(AddError::DimMismatch { existing, got: dim });
        }
    }
    if let Some((vector, coord)) = first_invalid_coord(vectors, dim) {
        proof {
            crate::math::lemma_flat_index(vector as int, coord as int, dim as int);
        }
        return Some(AddError::InvalidValue { vector, coord });
    }
    if let Some(id) = first_in_delta(delta, ids) {
        return Some(AddError::IdAlreadyPresent(id));
    }
    if let Some(id) = find_repeat(ids) {
        return Some(AddError::IdRepeated(id));
    }
    None
}

impl DiskIndex {
    /// Sets or clears the target partition size; takes effect at the next
    /// write.
    pub fn set_partitioning(&mut self, target_partition_size: Option<u32>)
        requires
            target_partition_size != Some(0u32),
        ensures
            *final(self) == (DiskIndex { partition_target: target_partition_size, ..*old(self) }),
            forall|file: Seq<u8>| old(self).wf(file) ==> #[trigger] final(self).wf(file),
    {
        self.partition_target = target_partition_size;
    }

    /// The target partition size.
    pub fn partition_target(&self) -> (r: Option<u32>)
        ensures
            r == self.partition_target,
    {
        self.partition_target
    }

    /// Sets or clears the replica epsilon (a bit pattern); takes effect at the
    /// next write.
    pub fn set_replication(&mut self, epsilon: Option<u32>)
        requires
            epsilon is Some ==> finite_positive(epsilon->0),
        ensures
            *final(self) == (DiskIndex { replica_epsilon: epsilon, ..*old(self) }),
            forall|file: Seq<u8>| old(self).wf(file) ==> #[trigger] final(self).wf(file),
    {
        self.replica_epsilon = epsilon;
    }

    /// The replica epsilon, as a bit pattern.
    pub fn replica_epsilon(&self) -> (r: Option<u32>)
        ensures
            r == self.replica_epsilon,
    {
        self.replica_epsilon
    }

    /// Turns the pruning of replica targets on or off.
    pub fn set_replica_prune(&mut self, prune: bool)
        ensures
            *final(self) == (DiskIndex { replica_prune: prune, ..*old(self) }),
            forall|file: Seq<u8>| old(self).wf(file) ==> #[trigger] final(self).wf(file),
    {
        self.replica_prune = prune;
    }

    /// Whether replica targets are pruned.
    pub fn replica_prune(&self) -> (r: bool)
        ensures
            r == self.replica_prune,
    {
        self.replica_prune
    }

    /// Keeps full-precision vectors, or not. Only an index that never held a
    /// row can change its mind.
    pub fn set_store_vectors(&mut self, store_vectors: bool)
        requires
            store_vectors == old(self).store_vectors || (old(self).base is None && old(
                self,
            ).delta.ids@.len() == 0),
        ensures
            *final(self) == (DiskIndex { store_vectors, ..*old(self) }),
            forall|file: Seq<u8>| old(self).wf(file) ==> #[trigger] final(self).wf(file),
    {
        self.store_vectors = store_vectors;
        proof {
            assert(0 * self.delta.width() == 0) by (nonlinear_arith);
        }
    }

    /// Whether the index keeps full-precision vectors.
    pub fn stores_vectors(&self) -> (r: bool)
        ensures
            r == self.store_vectors,
    {
        self.store_vectors
    }

    /// Partitions of the base segment; 1 without one.
    pub fn nlist(&self) -> (n: usize)
        ensures
            n == match self.base {
                Some(seg) => seg.partitions@.len() as int,
                None => 1,
            },
    {
        match &self.base {
            Some(seg) => seg.partitions.len(),
            None => 1,
        }
    }

    /// The bit width of the codes.
    pub fn bit_width(&self) -> (b: usize)
        ensures
            b == self.bit_width,
    {
        self.bit_width
    }

    /// The committed dimensionality.
    pub fn dim_opt(&self) -> (d: Option<usize>)
        ensures
            d == self.delta.dim,
    {
        self.delta.dim
    }

    /// The committed dimensionality, or 0.
    pub fn dim(&self) -> (d: usize)
        ensures
            d == self.delta.width(),
    {
        match self.delta.dim {
            Some(d) => d,
            None => 0,
        }
    }

    /// Physical rows of the base segment, removed ones and replicas included.
    pub fn base_len(&self) -> (n: usize)
        ensures
            n == match self.base {
                Some(seg) => seg.n,
                None => 0,
            },
    {
        match &self.base {
            Some(seg) => seg.n,
            None => 0,
        }
    }

    /// Replica rows of the base segment.
    pub fn base_replica_count(&self, file: &[u8]) -> (n: usize)
        requires
            self.wf(file@),
        ensures
            n == match self.base {
                Some(seg) => seg.n - seg.n_unique,
                None => 0,
            },
    {
        match &self.base {
            Some(seg) => {
                proof {
                    seg.lemma_describes(file@);
                }
                seg.n - seg.n_unique
            },
            None => 0,
        }
    }

    /// Rows added since the last write.
    pub fn delta_len(&self) -> (n: usize)
        ensures
            n == self.delta.ids@.len(),
    {
        self.delta.ids.len()
    }

    /// Base ids hidden by tombstones.
    pub fn tombstone_count(&self) -> (n: usize)
        ensures
            n == self.tombstones@.len(),
    {
        self.tombstones.len()
    }

    /// Number of ids in the index.
    pub fn len(&self, file: &[u8]) -> (n: usize)
        requires
            self.wf(file@),
        ensures
            n == self.live(file@).len(),
            n == (match self.base {
                Some(seg) => seg.n_unique as int,
                None => 0,
            }) - self.tombstones@.len() + self.delta.ids@.len(),
            self.live(file@).finite(),
    {
        assert(file.len() == file@.len());
        let clen: usize = self.delta.codes.len();
        proof {
            lemma_live_len(*self, file@);
            lemma_delta_headroom(self.delta, self.bit_width as int, self.store_vectors, clen);
            if self.base is Some {
                lemma_unique_headroom(self.base->0, file@);
            }
        }
        match &self.base {
            Some(seg) => seg.n_unique - self.tombstones.len() + self.delta.ids.len(),
            None => self.delta.ids.len(),
        }
    }

    /// Whether the index holds no id.
    pub fn is_empty(&self, file: &[u8]) -> (r: bool)
        requires
            self.wf(file@),
        ensures
            r == (self.live(file@) == Set::<u64>::empty()),
    {
        let n: usize = self.len(file);
        proof {
            if n == 0 {
                assert(self.live(file@) =~= Set::<u64>::empty()) by {
                    self.live(file@).lemma_len0_is_empty();
                }
            }
        }
        n == 0
    }

    /// Whether `id` is in the index.
    pub fn contains(&self, file: &[u8], id: u64) -> (r: bool)
        requires
            self.wf(file@),
        ensures
            r == self.live(file@).contains(id),
    {
        if self.delta.contains(id) {
            return true;
        }
        if self.tombstones.contains(&id) {
            return false;
        }
        match &self.base {
            Some(seg) => seg.slot_of(file, id).is_some(),
            None => false,
        }
    }

    /// Removes `id`. True if it was in the index. A base row is hidden by a
    /// tombstone until the next write drops it.
    pub fn remove(&mut self, file: &[u8], id: u64) -> (r: bool)
        requires
            old(self).wf(file@),
        ensures
            final(self).wf(file@),
            r == old(self).live(file@).contains(id),
            final(self).live(file@) == old(self).live(file@).remove(id),
            !r ==> *final(self) == *old(self),
            *final(self) == (DiskIndex {
                delta: final(self).delta,
                tombstones: final(self).tombstones,
                ..*old(self)
            }),
            final(self).tombstones@ == (if old(self).delta.ids@.contains(id) || !r {
                old(self).tombstones@
            } else {
                old(self).tombstones@.insert(id)
            }),
            !old(self).delta.ids@.contains(id) ==> final(self).delta == old(self).delta,
            old(self).delta.ids@.contains(id) ==> exists|i: int|
                #[trigger] final(self).delta.without_row(
                    old(self).delta,
                    old(self).bit_width as int,
                    old(self).store_vectors,
                    i,
                ) && old(self).delta.ids@[i] == id,
            final(self).delta.dim == old(self).delta.dim,
            final(self).delta.tqplus_shift@ == old(self).delta.tqplus_shift@,
            final(self).delta.tqplus_scale@ == old(self).delta.tqplus_scale@,
    {
        let ghost before = self.live(file@);
        if self.delta.remove(id, self.bit_width, self.store_vectors) {
            proof {
                let b = self.base_live(file@);
                assert(!b.contains(id)) by {
                    let k = choose|k: int| 0 <= k < old(self).delta.ids@.len() && old(self).delta.ids@[k] == id;
                    assert(!old(self).base_live(file@).contains(old(self).delta.ids@[k]));
                }
                assert forall|i: int| 0 <= i < self.delta.ids@.len() implies !b.contains(
                    #[trigger] self.delta.ids@[i],
                ) by {
                    assert(self.delta.ids@.to_set().contains(self.delta.ids@[i]));
                    let x = self.delta.ids@[i];
                    assert(old(self).delta.ids@.to_set().contains(x));
                    let k = choose|k: int| 0 <= k < old(self).delta.ids@.len() && old(self).delta.ids@[k] == x;
                    assert(!old(self).base_live(file@).contains(old(self).delta.ids@[k]));
                }
                assert(self.live(file@) =~= before.remove(id));
            }
            return true;
        }
        if self.tombstones.contains(&id) {
            assert(self.live(file@) =~= before.remove(id));
            return false;
        }
        let in_base: bool = match &self.base {
            Some(seg) => seg.slot_of(file, id).is_some(),
            None => false,
        };
        if in_base {
            self.tombstones.insert(id);
            assert(self.live(file@) =~= before.remove(id));
            assert forall|i: int| 0 <= i < self.delta.ids@.len() implies !self.base_live(file@).contains(
                #[trigger] self.delta.ids@[i],
            ) by {
                assert(!old(self).base_live(file@).contains(old(self).delta.ids@[i]));
            }
        } else {
            assert(self.live(file@) =~= before.remove(id));
        }
        in_base
    }
}

/// Live ids: the base's that are not removed, and the added ones.
proof fn lemma_live_len(x: DiskIndex, file: Seq<u8>)
    requires
        x.wf(file),
    ensures
        x.live(file).finite(),
        x.live(file).len() == (match x.base {
            Some(seg) => seg.n_unique as int,
            None => 0,
        }) - x.tombstones@.len() + x.delta.ids@.len(),
        x.base is Some ==> x.tombstones@.len() <= x.base->0.n_unique,
{
    let d = x.delta.ids@.to_set();
    x.delta.ids@.unique_seq_to_set();
    vstd::seq_lib::seq_to_set_is_finite(x.delta.ids@);
    let b = x.base_live(file);
    if x.base is Some {
        x.base->0.lemma_describes(file);
        let ids = ids_in(file);
        vstd::seq_lib::seq_to_set_is_finite(u64_section(file, 8));
        vstd::set_lib::lemma_len_subset(x.tombstones@, ids);
        let t = x.tombstones@;
        vstd::set_lib::lemma_set_disjoint_lens(b, t);
        assert(b.union(t) =~= ids);
    }
    assert(b.disjoint(d)) by {
        assert forall|y: u64| b.contains(y) && d.contains(y) implies false by {
            let k = choose|k: int| 0 <= k < x.delta.ids@.len() && x.delta.ids@[k] == y;
            assert(!b.contains(x.delta.ids@[k]));
        }
    }
    vstd::set_lib::lemma_set_disjoint_lens(b, d);
    assert(x.live(file) == b.union(d));
}

/// The rows in RAM are at most half of what a `usize` counts.
proof fn lemma_delta_headroom(d: Delta, bits: int, store: bool, codes_len: usize)
    requires
        d.wf(bits, store),
        2 <= bits <= 4,
        codes_len == d.codes@.len(),
    ensures
        2 * d.ids@.len() <= usize::MAX,
{
    let n = d.ids@.len() as int;
    if n > 0 {
        let w = plane_row_bytes(bits, d.width());
        assert(2 <= w) by (nonlinear_arith)
            requires
                w == bits * (d.width() / 8),
                2 <= bits,
                1 <= d.width() / 8,
        ;
        assert(2 * n <= n * w) by (nonlinear_arith)
            requires
                2 <= w,
                0 <= n,
        ;
    }
}

/// The ids of a file are at most an eighth of what a `usize` counts.
proof fn lemma_unique_headroom(seg: BaseSegment, file: Seq<u8>)
    requires
        seg.describes(file),
        file.len() <= usize::MAX,
    ensures
        8 * seg.n_unique <= usize::MAX,
{
    seg.lemma_describes(file);
    lemma_lens_in(file);
    lemma_sections_fit(file, seg.flavor);
    assert(section_start(lens_in(file), 8) + lens_in(file)[8] <= file.len());
}

/// Row `i` of rows of width `w`.
pub open spec fn row_of<T>(s: Seq<T>, w: int, i: int) -> Seq<T> {
    s.subrange(i * w, (i + 1) * w)
}

impl DiskIndex {
    /// The first of `ids` that is live in the base segment.
    fn first_base_live(&self, file: &[u8], ids: &[u64]) -> (r: Option<u64>)
        requires
            self.wf(file@),
        ensures
            r == first_taken(ids@, self.base_live(file@)),
    {
        let ghost taken = self.base_live(file@);
        let mut i: usize = 0;
        assert(ids@.take(0) =~= Seq::<u64>::empty());
        while i < ids.len()
            invariant
                i <= ids.len(),
                self.wf(file@),
                taken == self.base_live(file@),
                first_taken(ids@.take(i as int), taken) is None,
            decreases ids.len() - i,
        {
            assert(ids@.take(i + 1).drop_last() =~= ids@.take(i as int));
            let id: u64 = ids[i];
            let hit: bool = match &self.base {
                Some(seg) => !self.tombstones.contains(&id) && seg.slot_of(file, id).is_some(),
                None => false,
            };
            assert(hit == taken.contains(id));
            if hit {
                proof {
                    lemma_first_taken_prefix(ids@, taken, i + 1);
                }
                return Some(id);
            }
            i = i + 1;
        }
        assert(ids@.take(i as int) =~= ids@);
        None
    }

    /// Checks rows before they are encoded.
    pub fn check_add(&self, file: &[u8], vectors: &[u32], dim: usize, ids: &[u64]) -> (r: Option<AddError>)
        requires
            self.wf(file@),
        ensures
            r == add_error(self.base_live(file@), self.delta, vectors@, dim, ids@),
    {
        if let Some(id) = self.first_base_live(file, ids) {
            return Some(AddError::IdAlreadyPresent(id));
        }
        check_rows(&self.delta, vectors, dim, ids)
    }

    /// Adds vectors (bit patterns, `dim` each) with their encoded rows. A
    /// refused call changes nothing.
    pub fn add_with_ids_2d(
        &mut self,
        file: &[u8],
        vectors: &[u32],
        dim: usize,
        ids: &[u64],
        codes: &[u8],
        scales: &[u32],
    ) -> (r: Result<(), AddError>)
        requires
            old(self).wf(file@),
            add_error(old(self).base_live(file@), old(self).delta, vectors@, dim, ids@) is None ==> {
                &&& codes@.len() == ids@.len() * plane_row_bytes(old(self).bit_width as int, dim as int)
                &&& scales@.len() == ids@.len()
            },
        ensures
            final(self).wf(file@),
            match r {
                Err(e) => {
                    &&& add_error(old(self).base_live(file@), old(self).delta, vectors@, dim, ids@) == Some(
                        e,
                    )
                    &&& *final(self) == *old(self)
                },
                Ok(_) => {
                    &&& add_error(old(self).base_live(file@), old(self).delta, vectors@, dim, ids@) is None
                    &&& final(self).live(file@) == old(self).live(file@).union(ids@.to_set())
                    &&& final(self).delta.with_rows(
                        old(self).delta,
                        dim,
                        ids@,
                        codes@,
                        scales@,
                        vectors@,
                        old(self).store_vectors,
                    )
                    &&& *final(self) == (DiskIndex { delta: final(self).delta, ..*old(self) })
                },
            },
    {
        if let Some(e) = self.check_add(file, vectors, dim, ids) {
            return Err(e);
        }
        proof {
            lemma_first_taken_none(ids@, self.base_live(file@));
            lemma_first_taken_none(ids@, self.delta.ids@.to_set());
            lemma_first_repeat_none(ids@);
            assert forall|i: int| 0 <= i < ids@.len() implies !self.delta.ids@.contains(#[trigger] ids@[i]) by {
                assert(!self.delta.ids@.to_set().contains(ids@[i]));
            }
            vstd::arithmetic::div_mod::lemma_fundamental_div_mod(vectors@.len() as int, dim as int);
            assert(vectors@.len() == ids@.len() * dim) by (nonlinear_arith)
                requires
                    vectors@.len() == dim * (vectors@.len() / (dim as nat)) + vectors@.len() % (dim as nat),
                    vectors@.len() % (dim as nat) == 0,
                    vectors@.len() / (dim as nat) == ids@.len(),
            ;
        }
        self.delta.append(dim, ids, codes, scales, vectors, self.bit_width, self.store_vectors);
        proof {
            let a = old(self).delta.ids@;
            let b = self.delta.ids@;
            assert forall|i: int| 0 <= i < b.len() implies !self.base_live(file@).contains(#[trigger] b[i]) by {
                if i < a.len() {
                    assert(b[i] == a[i]);
                    assert(!old(self).base_live(file@).contains(a[i]));
                } else {
                    assert(b[i] == ids@[i - a.len()]);
                    assert(!old(self).base_live(file@).contains(ids@[i - a.len()]));
                }
            }
            lemma_concat_set(a, ids@);
            assert(self.live(file@) =~= old(self).live(file@).union(ids@.to_set()));
        }
        Ok(())
    }

    /// [`DiskIndex::add_with_ids_2d`] with the committed dimensionality.
    pub fn add_with_ids(
        &mut self,
        file: &[u8],
        vectors: &[u32],
        ids: &[u64],
        codes: &[u8],
        scales: &[u32],
    ) -> (r: Result<(), AddError>)
        requires
            old(self).wf(file@),
            old(self).delta.dim is Some,
            add_error(
                old(self).base_live(file@),
                old(self).delta,
                vectors@,
                old(self).delta.dim->0,
                ids@,
            ) is None ==> {
                &&& codes@.len() == ids@.len() * plane_row_bytes(
                    old(self).bit_width as int,
                    old(self).delta.width(),
                )
                &&& scales@.len() == ids@.len()
            },
        ensures
            final(self).wf(file@),
            match r {
                Err(e) => {
                    &&& add_error(
                        old(self).base_live(file@),
                        old(self).delta,
                        vectors@,
                        old(self).delta.dim->0,
                        ids@,
                    ) == Some(e)
                    &&& *final(self) == *old(self)
                },
                Ok(_) => {
                    &&& add_error(
                        old(self).base_live(file@),
                        old(self).delta,
                        vectors@,
                        old(self).delta.dim->0,
                        ids@,
                    ) is None
                    &&& final(self).live(file@) == old(self).live(file@).union(ids@.to_set())
                    &&& final(self).delta.with_rows(
                        old(self).delta,
                        old(self).delta.dim->0,
                        ids@,
                        codes@,
                        scales@,
                        vectors@,
                        old(self).store_vectors,
                    )
                    &&& *final(self) == (DiskIndex { delta: final(self).delta, ..*old(self) })
                },
            },
    {
        let dim: usize = self.dim();
        self.add_with_ids_2d(file, vectors, dim, ids, codes, scales)
    }

    /// The stored vector of `id` (bit patterns), if it is in the index.
    pub fn get_vector(&self, file: &[u8], id: u64) -> (r: Option<Vec<u32>>)
        requires
            self.wf(file@),
            self.store_vectors,
        ensures
            r is Some <==> self.live(file@).contains(id),
            r is Some ==> self.is_vector_of(file@, id, r->0@),
    {
        if let Some(i) = self.delta.position(id) {
            let d: usize = self.dim();
            let n: usize = self.delta.ids.len();
            assert(self.delta.vectors.len() == self.delta.vectors@.len());
            proof {
                lemma_flat_bound(i as int, 0, n as int, d as int);
            }
            let v: Vec<u32> = copy_range(&self.delta.vectors, i * d, d);
            assert(v@ =~= row_of(self.delta.vectors@, d as int, i as int));
            return Some(v);
        }
        if self.tombstones.contains(&id) {
            return None;
        }
        match &self.base {
            None => None,
            Some(seg) => match seg.slot_of(file, id) {
                None => None,
                Some(slot) => {
                    let v: Vec<u32> = base_vector(seg, file, slot);
                    proof {
                        seg.lemma_describes(file@);
                        let i = choose|i: int|
                            0 <= i < seg.n && #[trigger] u64_section(file@, 8)[i] == id && u64_section(
                                file@,
                                9,
                            )[i] == slot;
                        assert(holds_slot(file@, id, slot as int));
                    }
                    Some(v)
                },
            },
        }
    }

    /// `v` is the vector that the index stores for `id`: the added row's, or
    /// else a base row's.
    pub open spec fn is_vector_of(self, file: Seq<u8>, id: u64, v: Seq<u32>) -> bool {
        if self.delta.ids@.contains(id) {
            exists|i: int|
                0 <= i < self.delta.ids@.len() && #[trigger] self.delta.ids@[i] == id && v == row_of(
                    self.delta.vectors@,
                    self.delta.width(),
                    i,
                )
        } else {
            exists|slot: int|
                #[trigger] holds_slot(file, id, slot) && v == row_of(
                    vectors_in(file),
                    hdr_dim(file) as int,
                    slot,
                )
        }
    }
}

/// The id table sends `id` to `slot`.
pub open spec fn holds_slot(file: Seq<u8>, id: u64, slot: int) -> bool {
    exists|i: int|
        0 <= i < hdr_slots(file) && #[trigger] u64_section(file, 8)[i] == id && u64_section(file, 9)[i] == slot
}

/// The vector stored at `slot`.
fn base_vector(seg: &BaseSegment, file: &[u8], slot: usize) -> (v: Vec<u32>)
    requires
        seg.describes(file@),
        seg.has_vectors,
        slot < seg.n,
    ensures
        v@ == row_of(vectors_in(file@), hdr_dim(file@) as int, slot as int),
{
    assert(file.len() == file@.len());
    proof {
        seg.lemma_describes(file@);
        lemma_lens_in(file@);
        lemma_sections_fit(file@, seg.flavor);
        assert(section_start(lens_in(file@), 11) + lens_in(file@)[11] <= file@.len());
        lemma_flat_bound(slot as int, 0, seg.n as int, seg.dim as int);
    }
    let v: Vec<u32> = read_u32s(file, seg.layout.vectors.0 + 4 * (slot * seg.dim), seg.dim);
    proof {
        let d = seg.dim as int;
        let all = vectors_in(file@);
        let want = row_of(all, d, slot as int);
        assert(want.len() == d);
        assert forall|k: int| 0 <= k < d implies v@[k] == want[k] by {
            assert(want[k] == all[slot * d + k]);
        }
        assert(v@ =~= want);
    }
    v
}

/// Copies `len` elements from `start` on.
fn copy_range(s: &Vec<u32>, start: usize, len: usize) -> (out: Vec<u32>)
    requires
        start + len <= s@.len(),
    ensures
        out@ == s@.subrange(start as int, start + len),
{
    let total: usize = s.len();
    let mut out: Vec<u32> = Vec::new();
    let mut k: usize = 0;
    while k < len
        invariant
            k <= len,
            total == s@.len(),
            start + len <= total,
            out@ == s@.subrange(start as int, start + k),
        decreases len - k,
    {
        out.push(s[start + k]);
        k = k + 1;
        assert(out@ =~= s@.subrange(start as int, start + k));
    }
    out
}

/// The elements of a concatenation.
pub proof fn lemma_concat_set(a: Seq<u64>, b: Seq<u64>)
    ensures
        (a + b).to_set() == a.to_set().union(b.to_set()),
{
    let c = a + b;
    assert forall|x: u64| c.to_set().contains(x) <==> a.to_set().union(b.to_set()).contains(x) by {
        if c.contains(x) {
            let k = choose|k: int| 0 <= k < c.len() && c[k] == x;
            if k < a.len() {
                assert(a[k] == x);
            } else {
                assert(b[k - a.len()] == x);
            }
        }
        if a.contains(x) {
            let k = choose|k: int| 0 <= k < a.len() && a[k] == x;
            assert(c[k] == x);
        }
        if b.contains(x) {
            let k = choose|k: int| 0 <= k < b.len() && b[k] == x;
            assert(c[a.len() + k] == x);
        }
    }
    assert(c.to_set() =~= a.to_set().union(b.to_set()));
}

} // verus!
