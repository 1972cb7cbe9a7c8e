//! The `.tvdm` segment file.
//!
//! A 64-byte header followed by 64-byte-aligned sections:
//!
//! ```text
//! header:   magic "TVDM" | version u8 | bit_width u8 | layout u8 | flags u8
//!           dim u32 | n_calib u32 | n_slots u64 | nlist u32 |
//!           target_partition_size u32 | n_unique u64 |
//!           replica_epsilon f32 | zero pad to 64
//! sections: partition table     (nlist * { n u64, slot_base u64, codes_off u64 })
//!           partition centroids (f32 * nlist * dim)
//!           blocked codes       (per-partition segments, each padded to BLOCK)
//!           scales              (f32 * n_slots, in partition order)
//!           tqplus_shift        (f32 * n_calib)
//!           tqplus_scale        (f32 * n_calib)
//!           slot_to_id          (u64 * n_slots, in partition order)
//!           sorted_ids          (u64 * n_slots, non-decreasing)
//!           sorted_slots        (u64 * n_slots, slot of sorted_ids[i])
//!           replica_flags       (bitmap, ceil(n_slots / 8) bytes)
//!           vectors             (f32 * n_slots * dim; only with flags bit 0)
//! ```
//!
//! `n_slots` counts physical rows (primaries plus replicas); `n_unique` counts
//! distinct external ids. Floating-point values are carried as their bit
//! patterns.
use vstd::prelude::*;
use crate::bytes::{read_u32, read_u64, u32_at, u64_at, u64s_at};
use crate::math::ceil_div;
use crate::pack::{bit_of, groups, n_byte_groups, read_bit, Layout};
use crate::sections::{aligned, law_sections_are_disjoint, lemma_aligned, lemma_sections_within, section_start};

verus! {

/// Format version written and accepted.
pub const TVDM_VERSION: u8 = 3;

/// Header flag bit: the file carries a full-precision `vectors` section.
pub const FLAG_HAS_VECTORS: u8 = 1;

/// The first four bytes of a file.
pub open spec fn magic() -> Seq<u8> {
    seq![0x54u8, 0x56u8, 0x44u8, 0x4Du8]
}

/// The quantities that fix where every section stands.
#[derive(Clone, Copy, Debug, PartialEq, Eq, Structural)]
pub struct Shape {
    pub bit_width: usize,
    pub dim: usize,
    pub n_slots: usize,
    pub n_calib: usize,
    pub nlist: usize,
    pub total_blocks: usize,
    pub has_vectors: bool,
}

/// Bytes of one block of codes.
pub open spec fn block_bytes(bit_width: int, dim: int) -> int {
    groups(bit_width, dim) * 32
}

/// The lengths of the header and of the eleven sections.
#[verifier::opaque]
pub open spec fn section_lens(
    bit_width: int,
    dim: int,
    n_slots: int,
    n_calib: int,
    nlist: int,
    total_blocks: int,
    has_vectors: bool,
) -> Seq<int> {
    seq![
        64,
        24 * nlist,
        4 * (nlist * dim),
        total_blocks * block_bytes(bit_width, dim),
        4 * n_slots,
        4 * n_calib,
        4 * n_calib,
        8 * n_slots,
        8 * n_slots,
        8 * n_slots,
        (n_slots + 7) / 8,
        if has_vectors {
            4 * (n_slots * dim)
        } else {
            0
        },
    ]
}

/// The section lengths, one by one.
pub proof fn lemma_section_lens(
    bit_width: int,
    dim: int,
    n_slots: int,
    n_calib: int,
    nlist: int,
    total_blocks: int,
    has_vectors: bool,
)
    ensures
        ({
            let lens = section_lens(bit_width, dim, n_slots, n_calib, nlist, total_blocks, has_vectors);
            &&& lens.len() == 12
            &&& lens[0] == 64
            &&& lens[1] == 24 * nlist
            &&& lens[2] == 4 * (nlist * dim)
            &&& lens[3] == total_blocks * block_bytes(bit_width, dim)
            &&& lens[4] == 4 * n_slots
            &&& lens[5] == 4 * n_calib
            &&& lens[6] == 4 * n_calib
            &&& lens[7] == 8 * n_slots
            &&& lens[8] == 8 * n_slots
            &&& lens[9] == 8 * n_slots
            &&& lens[10] == (n_slots + 7) / 8
            &&& lens[11] == if has_vectors {
                4 * (n_slots * dim)
            } else {
                0
            }
        }),
{
    reveal(section_lens);
}

impl Shape {
    /// [`lemma_section_lens`] for this shape.
    pub proof fn lemma_lens(self)
        ensures
            self.lens().len() == 12,
            self.lens()[0] == 64,
            self.lens()[1] == 24 * self.nlist,
            self.lens()[2] == 4 * (self.nlist * self.dim),
            self.lens()[3] == self.total_blocks * block_bytes(self.bit_width as int, self.dim as int),
            self.lens()[4] == 4 * self.n_slots,
            self.lens()[5] == 4 * self.n_calib,
            self.lens()[6] == 4 * self.n_calib,
            self.lens()[7] == 8 * self.n_slots,
            self.lens()[8] == 8 * self.n_slots,
            self.lens()[9] == 8 * self.n_slots,
            self.lens()[10] == (self.n_slots + 7) / 8,
            self.lens()[11] == if self.has_vectors {
                4 * (self.n_slots * self.dim)
            } else {
                0
            },
    {
        reveal(section_lens);
    }

    /// The lengths of the header and of the eleven sections.
    pub open spec fn lens(self) -> Seq<int> {
        section_lens(
            self.bit_width as int,
            self.dim as int,
            self.n_slots as int,
            self.n_calib as int,
            self.nlist as int,
            self.total_blocks as int,
            self.has_vectors,
        )
    }

    /// The length of the file.
    pub open spec fn file_len(self) -> int {
        section_start(self.lens(), 12)
    }
}

/// Offset and length of every section.
#[derive(Clone, Copy, Debug)]
pub struct SectionLayout {
    pub partition_table: (usize, usize),
    pub centroids: (usize, usize),
    pub codes: (usize, usize),
    pub scales: (usize, usize),
    pub tqplus_shift: (usize, usize),
    pub tqplus_scale: (usize, usize),
    pub slot_to_id: (usize, usize),
    pub sorted_ids: (usize, usize),
    pub sorted_slots: (usize, usize),
    pub replica_flags: (usize, usize),
    pub vectors: (usize, usize),
    pub total_len: usize,
}

/// Section `k` of the layout given by `lens`.
pub open spec fn section_at(s: (usize, usize), lens: Seq<int>, k: int) -> bool {
    s.0 == section_start(lens, k) && s.1 == lens[k]
}

impl SectionLayout {
    /// Every section stands where the lengths put it.
    pub open spec fn follows(self, lens: Seq<int>) -> bool {
        &&& section_at(self.partition_table, lens, 1)
        &&& section_at(self.centroids, lens, 2)
        &&& section_at(self.codes, lens, 3)
        &&& section_at(self.scales, lens, 4)
        &&& section_at(self.tqplus_shift, lens, 5)
        &&& section_at(self.tqplus_scale, lens, 6)
        &&& section_at(self.slot_to_id, lens, 7)
        &&& section_at(self.sorted_ids, lens, 8)
        &&& section_at(self.sorted_slots, lens, 9)
        &&& section_at(self.replica_flags, lens, 10)
        &&& section_at(self.vectors, lens, 11)
        &&& self.total_len == section_start(lens, 12)
    }
}

/// One section of length `len` at `offset`, and the offset of the next.
fn next_section(offset: u128, len: u128) -> (r: u128)
    requires
        offset < 0x100_0000_0000_0000_0000_0000_0000_0000,
        len < 0x1_0000_0000_0000_0000_0000_0000_0000,
    ensures
        r == offset + aligned(len as int, 64),
        offset + len <= r <= offset + len + 63,
{
    proof {
        lemma_aligned(len as int, 64);
    }
    offset + (len + 63) / 64 * 64
}

/// The section lengths, far below the range of `u128`.
proof fn lemma_lens_bounds(s: Shape)
    requires
        2 <= s.bit_width <= 4,
        s.dim <= 0xFFFF_FFFF,
        s.nlist <= 0xFFFF_FFFF,
        s.n_slots <= u64::MAX,
        s.n_calib <= u64::MAX,
        s.total_blocks <= u64::MAX,
    ensures
        forall|k: int|
            0 <= k < 12 ==> 0 <= #[trigger] s.lens()[k] < 0x1_0000_0000_0000_0000_0000_0000_0000,
        0 <= block_bytes(s.bit_width as int, s.dim as int) <= 0x10_0000_0000,
        0 <= s.total_blocks * block_bytes(s.bit_width as int, s.dim as int),
        0 <= s.nlist * s.dim,
        0 <= s.n_slots * s.dim,
{
    s.lemma_lens();
    let bb = block_bytes(s.bit_width as int, s.dim as int);
    assert(0 <= bb <= 0x10_0000_0000);
    assert(0 <= s.nlist * s.dim <= 0xFFFF_FFFF * 0xFFFF_FFFF) by (nonlinear_arith)
        requires
            0 <= s.nlist <= 0xFFFF_FFFF,
            0 <= s.dim <= 0xFFFF_FFFF,
    ;
    assert(0 <= s.total_blocks * bb <= u64::MAX * 0x10_0000_0000) by (nonlinear_arith)
        requires
            0 <= s.total_blocks <= u64::MAX,
            0 <= bb <= 0x10_0000_0000,
    ;
    assert(0 <= s.n_slots * s.dim <= u64::MAX * 0xFFFF_FFFF) by (nonlinear_arith)
        requires
            0 <= s.n_slots <= u64::MAX,
            0 <= s.dim <= 0xFFFF_FFFF,
    ;
}

/// Where every section stands, or `None` if the file would not fit the
/// address space.
pub fn section_layout(s: Shape) -> (r: Option<SectionLayout>)
    requires
        2 <= s.bit_width <= 4,
        s.dim <= 0xFFFF_FFFF,
        s.nlist <= 0xFFFF_FFFF,
        s.n_slots <= u64::MAX,
        s.n_calib <= u64::MAX,
        s.total_blocks <= u64::MAX,
    ensures
        r is Some <==> s.file_len() <= usize::MAX,
        r is Some ==> r->0.follows(s.lens()),
{
    let ghost lens = s.lens();
    proof {
        lemma_lens_bounds(s);
        s.lemma_lens();
        assert(0 <= lens[1] && 0 <= lens[2] && 0 <= lens[3] && 0 <= lens[11]);
        assert(section_start(lens, 0) == 0);
        assert(section_start(lens, 1) == 64);
    }
    let bb: u128 = n_byte_groups(s.bit_width, s.dim) as u128 * 32;
    let nlist: u128 = s.nlist as u128;
    let dim: u128 = s.dim as u128;
    let n: u128 = s.n_slots as u128;
    let calib: u128 = s.n_calib as u128;
    let l1: u128 = 24 * nlist;
    let l2: u128 = 4 * (nlist * dim);
    let l3: u128 = s.total_blocks as u128 * bb;
    let l4: u128 = 4 * n;
    let l5: u128 = 4 * calib;
    let l7: u128 = 8 * n;
    let l10: u128 = (n + 7) / 8;
    let l11: u128 = if s.has_vectors {
        4 * (n * dim)
    } else {
        0
    };
    assert(l1 == lens[1] && l2 == lens[2] && l3 == lens[3] && l4 == lens[4] && l5 == lens[5] && l5 == lens[6]);
    assert(l7 == lens[7] && l7 == lens[8] && l7 == lens[9] && l10 == lens[10] && l11 == lens[11]);
    let o1: u128 = 64;
    let o2: u128 = next_section(o1, l1);
    let o3: u128 = next_section(o2, l2);
    let o4: u128 = next_section(o3, l3);
    let o5: u128 = next_section(o4, l4);
    let o6: u128 = next_section(o5, l5);
    let o7: u128 = next_section(o6, l5);
    let o8: u128 = next_section(o7, l7);
    let o9: u128 = next_section(o8, l7);
    let o10: u128 = next_section(o9, l7);
    let o11: u128 = next_section(o10, l10);
    let end: u128 = next_section(o11, l11);
    assert(o2 == section_start(lens, 2));
    assert(o3 == section_start(lens, 3));
    assert(o4 == section_start(lens, 4));
    assert(o5 == section_start(lens, 5));
    assert(o6 == section_start(lens, 6));
    assert(o7 == section_start(lens, 7));
    assert(o8 == section_start(lens, 8));
    assert(o9 == section_start(lens, 9));
    assert(o10 == section_start(lens, 10));
    assert(o11 == section_start(lens, 11));
    assert(end == section_start(lens, 12));
    if end > usize::MAX as u128 {
        return None;
    }
    Some(
        SectionLayout {
            partition_table: (o1 as usize, l1 as usize),
            centroids: (o2 as usize, l2 as usize),
            codes: (o3 as usize, l3 as usize),
            scales: (o4 as usize, l4 as usize),
            tqplus_shift: (o5 as usize, l5 as usize),
            tqplus_scale: (o6 as usize, l5 as usize),
            slot_to_id: (o7 as usize, l7 as usize),
            sorted_ids: (o8 as usize, l7 as usize),
            sorted_slots: (o9 as usize, l7 as usize),
            replica_flags: (o10 as usize, l10 as usize),
            vectors: (o11 as usize, l11 as usize),
            total_len: end as usize,
        },
    )
}

/// One record of the partition table.
#[derive(Clone, Copy, Debug, PartialEq, Eq, Structural)]
pub struct PartitionMeta {
    /// Rows of the partition.
    pub n: u64,
    /// Slot of its first row.
    pub slot_base: u64,
    /// Byte offset of its blocks within the codes section.
    pub codes_offset: u64,
}

impl PartitionMeta {
    /// Blocks that the rows take.
    pub open spec fn blocks(self) -> int {
        ceil_div(self.n as int, 32)
    }

    /// Blocks that the rows take.
    pub fn n_blocks(&self) -> (b: u64)
        ensures
            b == self.blocks(),
    {
        self.n / 32 + (if self.n % 32 == 0 {
            0
        } else {
            1
        })
    }
}

/// Rows of the partitions before `p`.
pub open spec fn slots_before(t: Seq<PartitionMeta>, p: int) -> int
    decreases p,
{
    if p <= 0 {
        0
    } else {
        slots_before(t, p - 1) + t[p - 1].n
    }
}

/// Blocks of the partitions before `p`.
pub open spec fn blocks_before(t: Seq<PartitionMeta>, p: int) -> int
    decreases p,
{
    if p <= 0 {
        0
    } else {
        blocks_before(t, p - 1) + t[p - 1].blocks()
    }
}

/// Partitions tile the slots in order, and their blocks tile the codes.
pub open spec fn tiles(t: Seq<PartitionMeta>, bytes_per_block: int) -> bool {
    forall|p: int|
        0 <= p < t.len() ==> (#[trigger] t[p]).slot_base == slots_before(t, p) && t[p].codes_offset
            == blocks_before(t, p) * bytes_per_block
}

/// Blocks and slots in front of a partition are bounded.
pub proof fn lemma_before_bounds(t: Seq<PartitionMeta>, p: int)
    requires
        0 <= p <= t.len(),
    ensures
        0 <= blocks_before(t, p) <= slots_before(t, p) <= p * u64::MAX,
    decreases p,
{
    if p > 0 {
        lemma_before_bounds(t, p - 1);
    }
}

/// Why a file is refused.
#[derive(Clone, Copy, Debug, PartialEq, Eq, Structural)]
pub enum OpenError {
    TooShort,
    WrongMagic,
    UnsupportedVersion(u8),
    InvalidBitWidth(u8),
    ForeignLayout(u8),
    UnknownFlags(u8),
    InvalidReplicaEpsilon(u32),
    UniqueExceedsSlots,
    LazyWithRows,
    InvalidDim(u32),
    InvalidCalibration,
    NoPartitions,
    TruncatedTable,
    TableNotContiguous,
    PartitionSumMismatch,
    LengthMismatch,
    IdsNotSorted,
    DistinctIdsMismatch,
    SlotOutOfRange,
    PrimaryCountMismatch,
}

/// Dimensions.
pub open spec fn hdr_dim(b: Seq<u8>) -> u32 {
    u32_at(b, 8)
}

/// Entries of each calibration section.
pub open spec fn hdr_calib(b: Seq<u8>) -> u32 {
    u32_at(b, 12)
}

/// Physical rows.
pub open spec fn hdr_slots(b: Seq<u8>) -> u64 {
    u64_at(b, 16)
}

/// Partitions.
pub open spec fn hdr_nlist(b: Seq<u8>) -> u32 {
    u32_at(b, 24)
}

/// Target partition size, 0 for none.
pub open spec fn hdr_target(b: Seq<u8>) -> u32 {
    u32_at(b, 28)
}

/// Distinct ids.
pub open spec fn hdr_unique(b: Seq<u8>) -> u64 {
    u64_at(b, 32)
}

/// Bit pattern of the replica epsilon.
pub open spec fn hdr_epsilon(b: Seq<u8>) -> u32 {
    u32_at(b, 40)
}

/// The bit pattern of a finite number that is not negative.
pub open spec fn finite_non_negative(bits: u32) -> bool {
    bits < 0x7F80_0000 || bits == 0x8000_0000
}

/// The bit pattern of a finite number above zero.
pub open spec fn finite_positive(bits: u32) -> bool {
    0 < bits < 0x7F80_0000
}

/// The epsilon that a bit pattern stands for; zero means off.
pub open spec fn epsilon_of(bits: u32) -> Option<u32> {
    if finite_positive(bits) {
        Some(bits)
    } else {
        None
    }
}

/// What is wrong with the header.
#[verifier::opaque]
pub open spec fn header_error(b: Seq<u8>, flavor: Layout) -> Option<OpenError> {
    if b.len() < 64 {
        Some(OpenError::TooShort)
    } else if b.take(4) != magic() {
        Some(OpenError::WrongMagic)
    } else if b[4] != TVDM_VERSION {
        Some(OpenError::UnsupportedVersion(b[4]))
    } else if !(2 <= b[5] <= 4) {
        Some(OpenError::InvalidBitWidth(b[5]))
    } else if b[6] != flavor.tag_byte() {
        Some(OpenError::ForeignLayout(b[6]))
    } else if b[7] > FLAG_HAS_VECTORS {
        Some(OpenError::UnknownFlags(b[7]))
    } else if !finite_non_negative(hdr_epsilon(b)) {
        Some(OpenError::InvalidReplicaEpsilon(hdr_epsilon(b)))
    } else if hdr_unique(b) > hdr_slots(b) {
        Some(OpenError::UniqueExceedsSlots)
    } else if hdr_dim(b) == 0 && (hdr_slots(b) != 0 || hdr_calib(b) != 0) {
        Some(OpenError::LazyWithRows)
    } else if hdr_dim(b) % 8 != 0 {
        Some(OpenError::InvalidDim(hdr_dim(b)))
    } else if hdr_calib(b) != (if hdr_slots(b) > 0 {
        hdr_dim(b)
    } else {
        0
    }) {
        Some(OpenError::InvalidCalibration)
    } else if hdr_nlist(b) == 0 {
        Some(OpenError::NoPartitions)
    } else {
        None
    }
}

/// What a header in order gives.
pub proof fn lemma_header(b: Seq<u8>, flavor: Layout)
    requires
        header_error(b, flavor) is None,
    ensures
        b.len() >= 64,
        2 <= b[5] <= 4,
        b[6] == flavor.tag_byte(),
        b[7] <= FLAG_HAS_VECTORS,
        hdr_unique(b) <= hdr_slots(b),
        hdr_dim(b) % 8 == 0,
        hdr_dim(b) == 0 ==> hdr_slots(b) == 0,
        hdr_calib(b) == if hdr_slots(b) > 0 {
            hdr_dim(b)
        } else {
            0
        },
        hdr_nlist(b) > 0,
{
    reveal(header_error);
}

/// The partition table.
pub open spec fn table_of(b: Seq<u8>) -> Seq<PartitionMeta> {
    Seq::new(
        hdr_nlist(b) as nat,
        |p: int|
            PartitionMeta {
                n: u64_at(b, 64 + 24 * p),
                slot_base: u64_at(b, 64 + 24 * p + 8),
                codes_offset: u64_at(b, 64 + 24 * p + 16),
            },
    )
}

/// The section lengths that header and table give.
pub open spec fn lens_in(b: Seq<u8>) -> Seq<int> {
    section_lens(
        b[5] as int,
        hdr_dim(b) as int,
        hdr_slots(b) as int,
        hdr_calib(b) as int,
        hdr_nlist(b) as int,
        blocks_before(table_of(b), hdr_nlist(b) as int),
        b[7] == FLAG_HAS_VECTORS,
    )
}

/// What is wrong with the partition table or the length of the file.
#[verifier::opaque]
pub open spec fn table_error(b: Seq<u8>) -> Option<OpenError> {
    if b.len() < 64 + 24 * hdr_nlist(b) {
        Some(OpenError::TruncatedTable)
    } else if !tiles(table_of(b), block_bytes(b[5] as int, hdr_dim(b) as int)) {
        Some(OpenError::TableNotContiguous)
    } else if slots_before(table_of(b), hdr_nlist(b) as int) != hdr_slots(b) {
        Some(OpenError::PartitionSumMismatch)
    } else if b.len() != section_start(lens_in(b), 12) {
        Some(OpenError::LengthMismatch)
    } else {
        None
    }
}

/// Section `k` as `n` double words.
pub open spec fn u64_section(b: Seq<u8>, k: int) -> Seq<u64> {
    u64s_at(b, section_start(lens_in(b), k), hdr_slots(b) as nat)
}

/// The replica bitmap.
pub open spec fn flags_in(b: Seq<u8>) -> Seq<u8> {
    b.subrange(
        section_start(lens_in(b), 10),
        section_start(lens_in(b), 10) + (hdr_slots(b) + 7) / 8,
    )
}

/// Bit `slot` of a bitmap.
pub open spec fn bitmap_bit(flags: Seq<u8>, slot: int) -> bool {
    bit_of(flags[slot / 8] as int, slot % 8) == 1
}

/// Slots of `lo..hi` whose bit is clear.
pub open spec fn clear_bits(flags: Seq<u8>, lo: int, hi: int) -> int
    decreases hi - lo,
{
    if hi <= lo {
        0
    } else {
        clear_bits(flags, lo, hi - 1) + (if bitmap_bit(flags, hi - 1) {
            0int
        } else {
            1int
        })
    }
}

/// Values in non-decreasing order.
pub open spec fn non_decreasing(s: Seq<u64>) -> bool {
    forall|i: int, j: int| 0 <= i <= j < s.len() ==> s[i] <= s[j]
}

/// What is wrong with the id tables or the replica bitmap.
#[verifier::opaque]
pub open spec fn content_error(b: Seq<u8>) -> Option<OpenError> {
    if !non_decreasing(u64_section(b, 8)) {
        Some(OpenError::IdsNotSorted)
    } else if u64_section(b, 8).to_set().len() != hdr_unique(b) {
        Some(OpenError::DistinctIdsMismatch)
    } else if exists|i: int| 0 <= i < hdr_slots(b) && (#[trigger] u64_section(b, 9)[i]) >= hdr_slots(b) {
        Some(OpenError::SlotOutOfRange)
    } else if clear_bits(flags_in(b), 0, hdr_slots(b) as int) != hdr_unique(b) {
        Some(OpenError::PrimaryCountMismatch)
    } else {
        None
    }
}

/// The first thing wrong with a file, if anything is.
pub open spec fn open_error(b: Seq<u8>, flavor: Layout) -> Option<OpenError> {
    if header_error(b, flavor) is Some {
        header_error(b, flavor)
    } else if table_error(b) is Some {
        table_error(b)
    } else {
        content_error(b)
    }
}

fn check_header(bytes: &[u8], flavor: Layout) -> (e: Option<OpenError>)
    ensures
        e == header_error(bytes@, flavor),
{
    reveal(header_error);
    if bytes.len() < 64 {
        return Some(OpenError::TooShort);
    }
    if bytes[0] != 0x54 || bytes[1] != 0x56 || bytes[2] != 0x44 || bytes[3] != 0x4D {
        proof {
            let m = bytes@.take(4);
            assert(m[0] == bytes@[0] && m[1] == bytes@[1] && m[2] == bytes@[2] && m[3] == bytes@[3]);
            assert(magic()[0] == 0x54 && magic()[1] == 0x56 && magic()[2] == 0x44 && magic()[3] == 0x4D);
        }
        return Some(OpenError::WrongMagic);
    }
    assert(bytes@.take(4) =~= magic());
    if bytes[4] != TVDM_VERSION {
        return Some(OpenError::UnsupportedVersion(bytes[4]));
    }
    if bytes[5] < 2 || bytes[5] > 4 {
        return Some(OpenError::InvalidBitWidth(bytes[5]));
    }
    if bytes[6] != flavor.tag() {
        return Some(OpenError::ForeignLayout(bytes[6]));
    }
    if bytes[7] > FLAG_HAS_VECTORS {
        return Some(OpenError::UnknownFlags(bytes[7]));
    }
    let epsilon: u32 = read_u32(bytes, 40);
    if !(epsilon < 0x7F80_0000 || epsilon == 0x8000_0000) {
        return Some(OpenError::InvalidReplicaEpsilon(epsilon));
    }
    let dim: u32 = read_u32(bytes, 8);
    let n_calib: u32 = read_u32(bytes, 12);
    let n: u64 = read_u64(bytes, 16);
    if read_u64(bytes, 32) > n {
        return Some(OpenError::UniqueExceedsSlots);
    }
    if dim == 0 && (n != 0 || n_calib != 0) {
        return Some(OpenError::LazyWithRows);
    }
    if dim % 8 != 0 {
        return Some(OpenError::InvalidDim(dim));
    }
    if n_calib != (if n > 0 { dim } else { 0 }) {
        return Some(OpenError::InvalidCalibration);
    }
    if read_u32(bytes, 24) == 0 {
        return Some(OpenError::NoPartitions);
    }
    None
}

/// Reads the partition table.
fn read_table(bytes: &[u8], nlist: usize) -> (t: Vec<PartitionMeta>)
    requires
        64 + 24 * nlist <= bytes.len(),
        nlist == hdr_nlist(bytes@),
    ensures
        t@ == table_of(bytes@),
{
    let mut t: Vec<PartitionMeta> = Vec::new();
    let mut p: usize = 0;
    while p < nlist
        invariant
            p <= nlist,
            64 + 24 * nlist <= bytes.len(),
            nlist == hdr_nlist(bytes@),
            t@ == table_of(bytes@).take(p as int),
        decreases nlist - p,
    {
        let record: usize = 64 + 24 * p;
        let n: u64 = read_u64(bytes, record);
        let slot_base: u64 = read_u64(bytes, record + 8);
        let codes_offset: u64 = read_u64(bytes, record + 16);
        t.push(PartitionMeta { n, slot_base, codes_offset });
        p = p + 1;
        assert(t@ =~= table_of(bytes@).take(p as int));
    }
    assert(table_of(bytes@).take(p as int) =~= table_of(bytes@));
    t
}

/// Checks that the partitions tile; returns their rows and blocks, or `None`.
fn check_tiles(t: &Vec<PartitionMeta>, bytes_per_block: u128) -> (r: Option<(u128, u128)>)
    requires
        t.len() <= 0xFFFF_FFFF,
        bytes_per_block <= 0x10_0000_0000,
    ensures
        r is Some <==> tiles(t@, bytes_per_block as int),
        r is Some ==> (r->0).0 == slots_before(t@, t.len() as int) && (r->0).1 == blocks_before(
            t@,
            t.len() as int,
        ),
{
    let mut slots: u128 = 0;
    let mut blocks: u128 = 0;
    let mut p: usize = 0;
    while p < t.len()
        invariant
            p <= t.len(),
            t.len() <= 0xFFFF_FFFF,
            bytes_per_block <= 0x10_0000_0000,
            slots == slots_before(t@, p as int),
            blocks == blocks_before(t@, p as int),
            blocks <= p * 0x800_0000_0000_0000,
            forall|i: int|
                0 <= i < p ==> (#[trigger] t@[i]).slot_base == slots_before(t@, i) && t@[i].codes_offset
                    == blocks_before(t@, i) * bytes_per_block,
        decreases t.len() - p,
    {
        proof {
            lemma_before_bounds(t@, p as int);
            assert(0 <= blocks * bytes_per_block <= (0xFFFF_FFFF * 0x800_0000_0000_0000) * 0x10_0000_0000)
                by (nonlinear_arith)
                requires
                    0 <= blocks <= 0xFFFF_FFFF * 0x800_0000_0000_0000,
                    0 <= bytes_per_block <= 0x10_0000_0000,
            ;
        }
        let meta: PartitionMeta = t[p];
        if meta.slot_base as u128 != slots || meta.codes_offset as u128 != blocks * bytes_per_block {
            assert(t@[p as int] == meta);
            return None;
        }
        slots = slots + meta.n as u128;
        blocks = blocks + meta.n_blocks() as u128;
        p = p + 1;
    }
    Some((slots, blocks))
}

/// Whether the `n` double words at `o` are in non-decreasing order.
fn check_sorted(bytes: &[u8], o: usize, n: usize) -> (r: bool)
    requires
        o + 8 * n <= bytes.len(),
    ensures
        r == non_decreasing(u64s_at(bytes@, o as int, n as nat)),
{
    let ghost s = u64s_at(bytes@, o as int, n as nat);
    let mut i: usize = 1;
    while i < n
        invariant
            1 <= i,
            i <= n || n == 0,
            o + 8 * n <= bytes.len(),
            s == u64s_at(bytes@, o as int, n as nat),
            forall|a: int, b: int| 0 <= a <= b < i && b < n ==> s[a] <= s[b],
        decreases n - i,
    {
        let prev: u64 = read_u64(bytes, o + 8 * (i - 1));
        let next: u64 = read_u64(bytes, o + 8 * i);
        assert(s[i - 1] == prev && s[i as int] == next);
        if prev > next {
            return false;
        }
        i = i + 1;
    }
    true
}

/// One more value of a non-decreasing sequence is new exactly when it differs
/// from the one before it.
proof fn lemma_distinct_step(s: Seq<u64>, i: int)
    requires
        non_decreasing(s),
        0 <= i < s.len(),
    ensures
        s.take(i).to_set().finite(),
        s.take(i + 1).to_set().len() == s.take(i).to_set().len() + (if i == 0 || s[i - 1] != s[i] {
            1int
        } else {
            0int
        }),
{
    let a = s.take(i).to_set();
    let b = s.take(i + 1).to_set();
    vstd::seq_lib::seq_to_set_is_finite(s.take(i));
    assert(b =~= a.insert(s[i])) by {
        assert forall|x: u64| b.contains(x) <==> a.insert(s[i]).contains(x) by {
            if b.contains(x) {
                let k = choose|k: int| 0 <= k < i + 1 && #[trigger] s.take(i + 1)[k] == x;
                if k < i {
                    assert(s.take(i)[k] == x);
                }
            }
            if a.contains(x) {
                let k = choose|k: int| 0 <= k < i && #[trigger] s.take(i)[k] == x;
                assert(s.take(i + 1)[k] == x);
            }
            assert(s.take(i + 1)[i] == s[i]);
        }
    }
    if i > 0 && s[i - 1] == s[i] {
        assert(s.take(i)[i - 1] == s[i]);
        assert(a.contains(s[i]));
    } else {
        if a.contains(s[i]) {
            let k = choose|k: int| 0 <= k < i && #[trigger] s.take(i)[k] == s[i];
            assert(s[k] <= s[i - 1] && s[i - 1] <= s[i]);
        }
    }
}

/// The number of distinct values among the `n` double words at `o`.
fn count_distinct(bytes: &[u8], o: usize, n: usize) -> (r: usize)
    requires
        o + 8 * n <= bytes.len(),
        non_decreasing(u64s_at(bytes@, o as int, n as nat)),
    ensures
        r == u64s_at(bytes@, o as int, n as nat).to_set().len(),
{
    let ghost s = u64s_at(bytes@, o as int, n as nat);
    let mut i: usize = 0;
    let mut distinct: usize = 0;
    assert(s.take(0).to_set() =~= Set::<u64>::empty());
    while i < n
        invariant
            i <= n,
            o + 8 * n <= bytes.len(),
            s == u64s_at(bytes@, o as int, n as nat),
            non_decreasing(s),
            distinct <= i,
            distinct == s.take(i as int).to_set().len(),
        decreases n - i,
    {
        proof {
            lemma_distinct_step(s, i as int);
        }
        let fresh: bool = if i == 0 {
            true
        } else {
            read_u64(bytes, o + 8 * (i - 1)) != read_u64(bytes, o + 8 * i)
        };
        if fresh {
            distinct = distinct + 1;
        }
        i = i + 1;
    }
    assert(s.take(i as int) =~= s);
    distinct
}

/// Whether every one of the `n` double words at `o` is below `bound`.
fn check_below(bytes: &[u8], o: usize, n: usize, bound: u64) -> (r: bool)
    requires
        o + 8 * n <= bytes.len(),
    ensures
        r == !(exists|i: int| 0 <= i < n && (#[trigger] u64s_at(bytes@, o as int, n as nat)[i]) >= bound),
{
    let mut i: usize = 0;
    while i < n
        invariant
            i <= n,
            o + 8 * n <= bytes.len(),
            forall|k: int| 0 <= k < i ==> u64s_at(bytes@, o as int, n as nat)[k] < bound,
        decreases n - i,
    {
        let v: u64 = read_u64(bytes, o + 8 * i);
        assert(u64s_at(bytes@, o as int, n as nat)[i as int] == v);
        if v >= bound {
            return false;
        }
        i = i + 1;
    }
    true
}

/// Bit `slot` of the bitmap of `len` bytes at `o`.
fn read_bitmap_bit(bytes: &[u8], o: usize, len: usize, slot: usize) -> (r: bool)
    requires
        o + len <= bytes.len(),
        slot / 8 < len,
    ensures
        r == bitmap_bit(bytes@.subrange(o as int, o + len), slot as int),
{
    read_bit(bytes[o + slot / 8], slot % 8) == 1
}

/// Clear bits of `lo..hi` of the bitmap of `len` bytes at `o`.
fn count_clear(bytes: &[u8], o: usize, len: usize, lo: usize, hi: usize) -> (r: usize)
    requires
        o + len <= bytes.len(),
        lo <= hi,
        hi <= 8 * len,
    ensures
        r == clear_bits(bytes@.subrange(o as int, o + len), lo as int, hi as int),
        r <= hi - lo,
{
    let mut i: usize = lo;
    let mut count: usize = 0;
    while i < hi
        invariant
            lo <= i <= hi,
            o + len <= bytes.len(),
            hi <= 8 * len,
            count <= i - lo,
            count == clear_bits(bytes@.subrange(o as int, o + len), lo as int, i as int),
        decreases hi - i,
    {
        if !read_bitmap_bit(bytes, o, len, i) {
            count = count + 1;
        }
        i = i + 1;
    }
    count
}

/// Clear bits of adjoining ranges add up.
pub proof fn lemma_clear_bits_split(flags: Seq<u8>, lo: int, mid: int, hi: int)
    requires
        lo <= mid <= hi,
    ensures
        clear_bits(flags, lo, hi) == clear_bits(flags, lo, mid) + clear_bits(flags, mid, hi),
    decreases hi - mid,
{
    if mid < hi {
        lemma_clear_bits_split(flags, lo, mid, hi - 1);
    }
}

/// A parsed `.tvdm` file. The sections stay in the file's bytes, which every
/// accessor takes again.
pub struct BaseSegment {
    pub flavor: Layout,
    pub bit_width: usize,
    /// 0 means that no dimensionality was ever committed (then `n == 0`).
    pub dim: usize,
    /// Physical rows (primaries plus replicas).
    pub n: usize,
    /// Distinct external ids.
    pub n_unique: usize,
    pub n_calib: usize,
    /// Per-partition metadata, in slot order.
    pub partitions: Vec<PartitionMeta>,
    /// Target partition size recorded in the file; 0 means unpartitioned.
    pub file_partition_target: usize,
    /// Bit pattern of the replica epsilon recorded in the file.
    pub file_replica_epsilon: Option<u32>,
    /// The file carries full-precision vectors.
    pub has_vectors: bool,
    /// Primary rows per partition.
    pub primary_counts: Vec<usize>,
    pub layout: SectionLayout,
}

impl BaseSegment {
    /// This is what the bytes of a valid file hold.
    #[verifier::opaque]
    pub open spec fn describes(self, b: Seq<u8>) -> bool {
        &&& open_error(b, self.flavor) is None
        &&& self.bit_width == b[5]
        &&& self.dim == hdr_dim(b)
        &&& self.n == hdr_slots(b)
        &&& self.n_unique == hdr_unique(b)
        &&& self.n_calib == hdr_calib(b)
        &&& self.partitions@ == table_of(b)
        &&& self.file_partition_target == hdr_target(b)
        &&& self.file_replica_epsilon == epsilon_of(hdr_epsilon(b))
        &&& self.has_vectors == (b[7] == FLAG_HAS_VECTORS)
        &&& self.layout.follows(lens_in(b))
        &&& self.primary_counts@.len() == self.partitions@.len()
        &&& forall|p: int|
            0 <= p < self.partitions@.len() ==> #[trigger] self.primary_counts@[p] == clear_bits(
                flags_in(b),
                slots_before(table_of(b), p),
                slots_before(table_of(b), p + 1),
            )
    }

    /// What is known of a segment and its file.
    pub proof fn lemma_describes(self, b: Seq<u8>)
        requires
            self.describes(b),
        ensures
            open_error(b, self.flavor) is None,
            2 <= self.bit_width <= 4,
            self.bit_width == b[5],
            self.dim == hdr_dim(b),
            self.dim % 8 == 0,
            self.n == hdr_slots(b),
            self.dim == 0 ==> self.n == 0,
            self.n_unique == hdr_unique(b),
            self.n_unique <= self.n,
            self.n_calib == hdr_calib(b),
            self.n_calib == if self.n > 0 {
                self.dim
            } else {
                0
            },
            self.partitions@ == table_of(b),
            self.partitions@.len() == hdr_nlist(b),
            self.partitions@.len() > 0,
            self.file_partition_target == hdr_target(b),
            self.file_replica_epsilon == epsilon_of(hdr_epsilon(b)),
            self.has_vectors == (b[7] == FLAG_HAS_VECTORS),
            b[6] == self.flavor.tag_byte(),
            self.layout.follows(lens_in(b)),
            self.primary_counts@.len() == self.partitions@.len(),
            non_decreasing(u64_section(b, 8)),
            u64_section(b, 8).to_set().len() == hdr_unique(b),
            forall|i: int| 0 <= i < self.n ==> (#[trigger] u64_section(b, 9)[i]) < self.n,
            clear_bits(flags_in(b), 0, self.n as int) == self.n_unique,
            slots_before(table_of(b), hdr_nlist(b) as int) == self.n,
    {
        reveal(BaseSegment::describes);
        reveal(content_error);
        reveal(table_error);
        lemma_header(b, self.flavor);
    }

    /// Parses and validates a file.
    pub fn open(bytes: &[u8], flavor: Layout) -> (r: Result<BaseSegment, OpenError>)
        ensures
            match r {
                Ok(seg) => seg.describes(bytes@) && seg.flavor == flavor && open_error(bytes@, flavor) is None,
                Err(e) => open_error(bytes@, flavor) == Some(e),
            },
    {
        if let Some(e) = check_header(bytes, flavor) {
            return Err(e);
        }
        proof {
            lemma_header(bytes@, flavor);
        }
        let (partitions, layout) = match open_table(bytes, flavor) {
            Ok(v) => v,
            Err(e) => return Err(e),
        };
        let bit_width: usize = bytes[5] as usize;
        let dim: usize = read_u32(bytes, 8) as usize;
        let n_calib: usize = read_u32(bytes, 12) as usize;
        let n: usize = read_u64(bytes, 16) as usize;
        let file_partition_target: usize = read_u32(bytes, 28) as usize;
        let unique: u64 = read_u64(bytes, 32);
        let epsilon: u32 = read_u32(bytes, 40);
        proof {
            lemma_sections_fit(bytes@, flavor);
            lemma_lens_in(bytes@);
            let lens = lens_in(bytes@);
            assert(section_start(lens, 8) + lens[8] <= bytes@.len());
            assert(section_start(lens, 9) + lens[9] <= bytes@.len());
            assert(section_start(lens, 10) + lens[10] <= bytes@.len());
        }
        if let Some(e) = check_content(bytes, &layout, n, unique) {
            return Err(e);
        }
        reveal(table_error);
        reveal(BaseSegment::describes);
        let primary_counts: Vec<usize> = count_primaries(bytes, &partitions, layout.replica_flags, n);
        Ok(
            BaseSegment {
                flavor,
                bit_width,
                dim,
                n,
                n_unique: unique as usize,
                n_calib,
                partitions,
                file_partition_target,
                file_replica_epsilon: if 0 < epsilon && epsilon < 0x7F80_0000 {
                    Some(epsilon)
                } else {
                    None
                },
                has_vectors: bytes[7] == FLAG_HAS_VECTORS,
                primary_counts,
                layout,
            },
        )
    }
}

/// Checks the id tables and the replica bitmap.
fn check_content(bytes: &[u8], layout: &SectionLayout, n: usize, unique: u64) -> (e: Option<OpenError>)
    requires
        n == hdr_slots(bytes@),
        unique == hdr_unique(bytes@),
        layout.sorted_ids.0 == section_start(lens_in(bytes@), 8),
        layout.sorted_slots.0 == section_start(lens_in(bytes@), 9),
        layout.replica_flags.0 == section_start(lens_in(bytes@), 10),
        layout.replica_flags.1 == (n + 7) / 8,
        layout.sorted_ids.0 + 8 * n <= bytes.len(),
        layout.sorted_slots.0 + 8 * n <= bytes.len(),
        layout.replica_flags.0 + layout.replica_flags.1 <= bytes.len(),
    ensures
        e == content_error(bytes@),
{
    reveal(content_error);
    if !check_sorted(bytes, layout.sorted_ids.0, n) {
        return Some(OpenError::IdsNotSorted);
    }
    if count_distinct(bytes, layout.sorted_ids.0, n) as u64 != unique {
        return Some(OpenError::DistinctIdsMismatch);
    }
    let ghost slots = u64_section(bytes@, 9);
    assert(slots == u64s_at(bytes@, layout.sorted_slots.0 as int, n as nat));
    if !check_below(bytes, layout.sorted_slots.0, n, n as u64) {
        proof {
            let i = choose|i: int| 0 <= i < n && (#[trigger] slots[i]) >= n;
            assert(u64_section(bytes@, 9)[i] >= hdr_slots(bytes@));
        }
        return Some(OpenError::SlotOutOfRange);
    }
    let total: usize = count_clear(bytes, layout.replica_flags.0, layout.replica_flags.1, 0, n);
    if total as u64 != unique {
        return Some(OpenError::PrimaryCountMismatch);
    }
    None
}

/// Section lengths of a file whose header and table are in order.
pub proof fn lemma_sections_fit(b: Seq<u8>, flavor: Layout)
    requires
        header_error(b, flavor) is None,
        table_error(b) is None,
    ensures
        forall|k: int|
            0 <= k < 12 ==> 0 <= #[trigger] section_start(lens_in(b), k) && section_start(lens_in(b), k)
                + lens_in(b)[k] <= b.len(),
        forall|k: int| 0 <= k < 12 ==> 0 <= #[trigger] lens_in(b)[k],
{
    reveal(table_error);
    lemma_header(b, flavor);
    lemma_lens_in_non_negative(b);
    lemma_sections_within(lens_in(b));
}

/// Primary rows per partition.
fn count_primaries(bytes: &[u8], t: &Vec<PartitionMeta>, flags: (usize, usize), n: usize) -> (counts: Vec<
    usize,
>)
    requires
        flags.0 + flags.1 <= bytes.len(),
        n <= 8 * flags.1,
        slots_before(t@, t.len() as int) == n,
        forall|p: int| 0 <= p < t.len() ==> (#[trigger] t@[p]).slot_base == slots_before(t@, p),
    ensures
        counts@.len() == t@.len(),
        forall|p: int|
            0 <= p < t@.len() ==> #[trigger] counts@[p] == clear_bits(
                bytes@.subrange(flags.0 as int, flags.0 + flags.1),
                slots_before(t@, p),
                slots_before(t@, p + 1),
            ),
{
    let mut counts: Vec<usize> = Vec::new();
    let mut p: usize = 0;
    while p < t.len()
        invariant
            p <= t.len(),
            flags.0 + flags.1 <= bytes.len(),
            n <= 8 * flags.1,
            slots_before(t@, t.len() as int) == n,
            forall|i: int| 0 <= i < t.len() ==> (#[trigger] t@[i]).slot_base == slots_before(t@, i),
            counts@.len() == p,
            forall|i: int|
                0 <= i < p ==> #[trigger] counts@[i] == clear_bits(
                    bytes@.subrange(flags.0 as int, flags.0 + flags.1),
                    slots_before(t@, i),
                    slots_before(t@, i + 1),
                ),
        decreases t.len() - p,
    {
        proof {
            lemma_before_monotone(t@, p + 1, t.len() as int);
            lemma_before_bounds(t@, p as int);
            assert(t@[p as int].slot_base == slots_before(t@, p as int));
        }
        let lo: usize = t[p].slot_base as usize;
        let hi: usize = lo + t[p].n as usize;
        counts.push(count_clear(bytes, flags.0, flags.1, lo, hi));
        p = p + 1;
    }
    counts
}

/// Block and slot counts grow from partition to partition.
pub proof fn lemma_before_monotone(t: Seq<PartitionMeta>, p: int, q: int)
    requires
        0 <= p <= q <= t.len(),
    ensures
        slots_before(t, p) <= slots_before(t, q),
        blocks_before(t, p) <= blocks_before(t, q),
    decreases q,
{
    if p < q {
        lemma_before_monotone(t, p, q - 1);
    }
}

/// Parses the partition table and checks the length of the file.
fn open_table(bytes: &[u8], flavor: Layout) -> (r: Result<(Vec<PartitionMeta>, SectionLayout), OpenError>)
    requires
        header_error(bytes@, flavor) is None,
    ensures
        match r {
            Ok(v) => table_error(bytes@) is None && v.0@ == table_of(bytes@) && v.1.follows(lens_in(bytes@)),
            Err(e) => table_error(bytes@) == Some(e),
        },
{
    reveal(table_error);
    proof {
        lemma_header(bytes@, flavor);
    }
    let bit_width: usize = bytes[5] as usize;
    let dim: usize = read_u32(bytes, 8) as usize;
    let slots: u64 = read_u64(bytes, 16);
    let nlist: usize = read_u32(bytes, 24) as usize;
    if (bytes.len() as u128) < 64 + 24 * (nlist as u128) {
        return Err(OpenError::TruncatedTable);
    }
    let partitions: Vec<PartitionMeta> = read_table(bytes, nlist);
    let bb: u128 = n_byte_groups(bit_width, dim) as u128 * 32;
    let (n, blocks) = match check_tiles(&partitions, bb) {
        Some(v) => v,
        None => return Err(OpenError::TableNotContiguous),
    };
    if n != slots as u128 {
        return Err(OpenError::PartitionSumMismatch);
    }
    match layout_of_file(bytes, flavor, n, blocks) {
        None => Err(OpenError::LengthMismatch),
        Some(layout) => Ok((partitions, layout)),
    }
}

/// The layout of a file, or `None` if the file has another length.
fn layout_of_file(bytes: &[u8], flavor: Layout, n: u128, blocks: u128) -> (r: Option<SectionLayout>)
    requires
        header_error(bytes@, flavor) is None,
        n == hdr_slots(bytes@),
        slots_before(table_of(bytes@), hdr_nlist(bytes@) as int) == n,
        blocks == blocks_before(table_of(bytes@), hdr_nlist(bytes@) as int),
    ensures
        r is Some <==> bytes@.len() == section_start(lens_in(bytes@), 12),
        r is Some ==> r->0.follows(lens_in(bytes@)),
{
    let ghost lens = lens_in(bytes@);
    let file_len: usize = bytes.len();
    proof {
        lemma_header(bytes@, flavor);
        lemma_before_bounds(table_of(bytes@), hdr_nlist(bytes@) as int);
        lemma_lens_in_non_negative(bytes@);
        lemma_lens_in(bytes@);
        law_sections_are_disjoint(lens, 4, 12);
        assert(lens[4] == 4 * n);
    }
    if n > usize::MAX as u128 {
        return None;
    }
    let shape: Shape = Shape {
        bit_width: bytes[5] as usize,
        dim: read_u32(bytes, 8) as usize,
        n_slots: n as usize,
        n_calib: read_u32(bytes, 12) as usize,
        nlist: read_u32(bytes, 24) as usize,
        total_blocks: blocks as usize,
        has_vectors: bytes[7] == FLAG_HAS_VECTORS,
    };
    assert(shape.lens() == lens);
    match section_layout(shape) {
        None => None,
        Some(layout) => if file_len == layout.total_len {
            Some(layout)
        } else {
            None
        },
    }
}

/// [`lemma_section_lens`] for the lengths that a file gives.
pub proof fn lemma_lens_in(b: Seq<u8>)
    ensures
        lens_in(b).len() == 12,
        lens_in(b)[0] == 64,
        lens_in(b)[1] == 24 * hdr_nlist(b),
        lens_in(b)[2] == 4 * (hdr_nlist(b) * hdr_dim(b)),
        lens_in(b)[3] == blocks_before(table_of(b), hdr_nlist(b) as int) * block_bytes(
            b[5] as int,
            hdr_dim(b) as int,
        ),
        lens_in(b)[4] == 4 * hdr_slots(b),
        lens_in(b)[5] == 4 * hdr_calib(b),
        lens_in(b)[6] == 4 * hdr_calib(b),
        lens_in(b)[7] == 8 * hdr_slots(b),
        lens_in(b)[8] == 8 * hdr_slots(b),
        lens_in(b)[9] == 8 * hdr_slots(b),
        lens_in(b)[10] == (hdr_slots(b) + 7) / 8,
        lens_in(b)[11] == if b[7] == FLAG_HAS_VECTORS {
            4 * (hdr_slots(b) * hdr_dim(b))
        } else {
            0
        },
{
    reveal(section_lens);
}

proof fn lemma_lens_in_non_negative(b: Seq<u8>)
    requires
        2 <= b[5] <= 4,
    ensures
        forall|k: int| 0 <= k < 12 ==> 0 <= #[trigger] lens_in(b)[k],
        lens_in(b).len() == 12,
{
    let t = table_of(b);
    lemma_before_bounds(t, hdr_nlist(b) as int);
    lemma_lens_in(b);
    let bb = block_bytes(b[5] as int, hdr_dim(b) as int);
    let dim = hdr_dim(b) as int;
    let nlist = hdr_nlist(b) as int;
    let n = hdr_slots(b) as int;
    let blocks = blocks_before(t, nlist);
    assert(0 <= nlist * dim && 0 <= n * dim && 0 <= blocks * bb) by (nonlinear_arith)
        requires
            0 <= nlist,
            0 <= dim,
            0 <= n,
            0 <= blocks,
            0 <= bb,
    ;
}

} // verus!
