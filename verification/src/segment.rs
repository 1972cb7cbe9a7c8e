//! Writing a `.tvdm` segment, and reading its rows back.
use vstd::prelude::*;
use vstd::slice::slice_subrange;
use crate::bytes::{push_u32, push_u32s, push_u64, push_u64s, u32_bytes, u32s_bytes, u64_bytes, u64s_bytes};
use crate::math::ceil_div;
use crate::pack::{blocked, groups, n_byte_groups, push_blocked, Layout};
use crate::sections::{close_section, image, lens_of, section_start, zeros};
use crate::sort::{sort_pairs, sorted_pairs};
use crate::tvdm::{block_bytes, blocks_before, finite_positive, magic, slots_before, PartitionMeta};

verus! {

/// Everything a segment file holds, in slot order.
pub struct Segment {
    pub flavor: Layout,
    pub bit_width: usize,
    /// 0 while no dimensionality is committed.
    pub dim: usize,
    /// Target partition size, if partitioned.
    pub partition_target: Option<u32>,
    /// Bit pattern of the replica epsilon, if replicated.
    pub replica_epsilon: Option<u32>,
    pub has_vectors: bool,
    /// Rows of each partition.
    pub counts: Vec<u64>,
    /// Bit patterns, `counts.len() * dim`.
    pub centroids: Vec<u32>,
    /// Group bytes, row-major.
    pub rows: Vec<u8>,
    /// Bit patterns, one per slot.
    pub scales: Vec<u32>,
    pub tqplus_shift: Vec<u32>,
    pub tqplus_scale: Vec<u32>,
    /// External ids, one per slot.
    pub ids: Vec<u64>,
    /// Slots that hold a further copy of a vector.
    pub replica: Vec<bool>,
    /// Bit patterns, `dim` per slot, if stored.
    pub vectors: Vec<u32>,
}

/// Rows of the partitions before `p`.
pub open spec fn rows_before(counts: Seq<u64>, p: int) -> int
    decreases p,
{
    if p <= 0 {
        0
    } else {
        rows_before(counts, p - 1) + counts[p - 1]
    }
}

/// Blocks of the partitions before `p`.
pub open spec fn count_blocks_before(counts: Seq<u64>, p: int) -> int
    decreases p,
{
    if p <= 0 {
        0
    } else {
        count_blocks_before(counts, p - 1) + ceil_div(counts[p - 1] as int, 32)
    }
}

/// Slots that hold the first copy of their vector.
pub open spec fn primaries(replica: Seq<bool>) -> int
    decreases replica.len(),
{
    if replica.len() == 0 {
        0
    } else {
        primaries(replica.drop_last()) + (if replica.last() {
            0int
        } else {
            1int
        })
    }
}

/// The value that stands for `None` in a header is zero.
pub open spec fn or_zero(v: Option<u32>) -> u32 {
    match v {
        Some(x) => x,
        None => 0,
    }
}

/// Byte `i` of the bitmap of `flags`.
pub open spec fn bitmap_byte(flags: Seq<bool>, i: int, k: int) -> int
    decreases k,
{
    if k <= 0 {
        0
    } else {
        bitmap_byte(flags, i, k - 1) + (if 8 * i + k - 1 < flags.len() && flags[8 * i + k - 1] {
            crate::pack::two_to(k - 1)
        } else {
            0
        })
    }
}

/// `flags` as a bitmap, lowest bit first.
pub open spec fn bitmap_of(flags: Seq<bool>) -> Seq<u8> {
    Seq::new(((flags.len() + 7) / 8) as nat, |i: int| bitmap_byte(flags, i, 8) as u8)
}

/// Ids with their slots.
pub open spec fn id_slots(ids: Seq<u64>) -> Seq<(u64, u64)> {
    Seq::new(ids.len(), |i: int| (ids[i], i as u64))
}

/// First components.
pub open spec fn firsts(s: Seq<(u64, u64)>) -> Seq<u64> {
    Seq::new(s.len(), |i: int| s[i].0)
}

/// Second components.
pub open spec fn seconds(s: Seq<(u64, u64)>) -> Seq<u64> {
    Seq::new(s.len(), |i: int| s[i].1)
}

/// The blocks of the partitions before `p`.
pub open spec fn codes_upto(flavor: Layout, rows: Seq<u8>, counts: Seq<u64>, ng: int, p: int) -> Seq<u8>
    decreases p,
{
    if p <= 0 {
        Seq::empty()
    } else {
        codes_upto(flavor, rows, counts, ng, p - 1) + blocked(
            flavor,
            partition_rows(rows, counts, ng, p - 1),
            counts[p - 1] as int,
            ng,
        )
    }
}

/// The group bytes of partition `p`.
pub open spec fn partition_rows(rows: Seq<u8>, counts: Seq<u64>, ng: int, p: int) -> Seq<u8> {
    rows.subrange(rows_before(counts, p) * ng, rows_before(counts, p + 1) * ng)
}

impl Segment {
    /// Group bytes per row.
    pub open spec fn ng(self) -> int {
        groups(self.bit_width as int, self.dim as int)
    }

    /// Entries of each calibration section.
    pub open spec fn calib(self) -> int {
        if self.ids@.len() > 0 {
            self.dim as int
        } else {
            0
        }
    }

    /// The partition table.
    pub open spec fn table(self) -> Seq<PartitionMeta> {
        Seq::new(
            self.counts@.len(),
            |p: int|
                PartitionMeta {
                    n: self.counts@[p],
                    slot_base: rows_before(self.counts@, p) as u64,
                    codes_offset: (count_blocks_before(self.counts@, p) * block_bytes(
                        self.bit_width as int,
                        self.dim as int,
                    )) as u64,
                },
        )
    }

    /// The shape that fixes the section layout.
    pub open spec fn lens(self) -> Seq<int> {
        crate::tvdm::section_lens(
            self.bit_width as int,
            self.dim as int,
            self.ids@.len() as int,
            self.calib(),
            self.counts@.len() as int,
            count_blocks_before(self.counts@, self.counts@.len() as int),
            self.has_vectors,
        )
    }

    /// The parts have the right lengths.
    pub open spec fn shaped(self) -> bool {
        let n = self.ids@.len() as int;
        let nlist = self.counts@.len() as int;
        &&& 2 <= self.bit_width <= 4
        &&& self.dim % 8 == 0
        &&& self.dim <= 0xFFFF_FFFF
        &&& 1 <= nlist <= 0xFFFF_FFFF
        &&& self.dim == 0 ==> n == 0
        &&& rows_before(self.counts@, nlist) == n
        &&& self.centroids@.len() == nlist * self.dim
        &&& self.rows@.len() == n * self.ng()
        &&& self.scales@.len() == n
        &&& self.replica@.len() == n
        &&& self.tqplus_shift@.len() == self.calib()
        &&& self.tqplus_scale@.len() == self.calib()
        &&& self.vectors@.len() == if self.has_vectors {
            n * self.dim
        } else {
            0
        }
        &&& self.replica_epsilon is Some ==> finite_positive(self.replica_epsilon->0)
        &&& self.partition_target is Some ==> self.partition_target->0 > 0
    }

    /// The parts fit together: there are as many first copies as ids, and the
    /// file has an end.
    pub open spec fn wf(self) -> bool {
        &&& self.shaped()
        &&& self.ids@.to_set().len() == primaries(self.replica@)
        &&& section_start(self.lens(), 12) <= usize::MAX
    }

    /// The header.
    #[verifier::opaque]
    pub open spec fn header(self) -> Seq<u8> {
        magic() + seq![
            3u8,
            self.bit_width as u8,
            self.flavor.tag_byte(),
            if self.has_vectors {
                1u8
            } else {
                0u8
            },
        ] + u32_bytes(self.dim as u32) + u32_bytes(self.calib() as u32) + u64_bytes(
            self.ids@.len() as u64,
        ) + u32_bytes(self.counts@.len() as u32) + u32_bytes(or_zero(self.partition_target)) + u64_bytes(
            primaries(self.replica@) as u64,
        ) + u32_bytes(or_zero(self.replica_epsilon)) + zeros(20)
    }

    /// The partition table as double words.
    pub open spec fn table_words(self) -> Seq<u64> {
        Seq::new(
            (3 * self.counts@.len()) as nat,
            |i: int|
                if i % 3 == 0 {
                    self.table()[i / 3].n
                } else if i % 3 == 1 {
                    self.table()[i / 3].slot_base
                } else {
                    self.table()[i / 3].codes_offset
                },
        )
    }

    /// Header and sections.
    pub open spec fn sections(self) -> Seq<Seq<u8>> {
        seq![
            self.header(),
            u64s_bytes(self.table_words()),
            u32s_bytes(self.centroids@),
            codes_upto(self.flavor, self.rows@, self.counts@, self.ng(), self.counts@.len() as int),
            u32s_bytes(self.scales@),
            u32s_bytes(self.tqplus_shift@),
            u32s_bytes(self.tqplus_scale@),
            u64s_bytes(self.ids@),
            u64s_bytes(firsts(sorted_pairs(id_slots(self.ids@)))),
            u64s_bytes(seconds(sorted_pairs(id_slots(self.ids@)))),
            bitmap_of(self.replica@),
            u32s_bytes(self.vectors@),
        ]
    }

    /// The file.
    pub open spec fn file(self) -> Seq<u8> {
        image(self.sections())
    }
}

/// Sums over counts and over the table agree.
pub proof fn lemma_table_sums(s: Segment, p: int)
    requires
        0 <= p <= s.counts@.len(),
    ensures
        slots_before(s.table(), p) == rows_before(s.counts@, p),
        blocks_before(s.table(), p) == count_blocks_before(s.counts@, p),
        0 <= count_blocks_before(s.counts@, p) <= rows_before(s.counts@, p),
    decreases p,
{
    if p > 0 {
        lemma_table_sums(s, p - 1);
    }
}

/// Row and block counts grow from partition to partition.
pub proof fn lemma_rows_before_monotone(counts: Seq<u64>, p: int, q: int)
    requires
        0 <= p <= q <= counts.len(),
    ensures
        0 <= rows_before(counts, p) <= rows_before(counts, q),
        0 <= count_blocks_before(counts, p) <= count_blocks_before(counts, q),
        count_blocks_before(counts, q) <= rows_before(counts, q),
    decreases q,
{
    if p < q {
        lemma_rows_before_monotone(counts, p, q - 1);
    } else if q > 0 {
        lemma_rows_before_monotone(counts, p - 1, q - 1);
    }
}

/// The blocks of the first partitions fill whole blocks.
pub proof fn lemma_codes_len(flavor: Layout, rows: Seq<u8>, counts: Seq<u64>, ng: int, p: int)
    requires
        0 <= p <= counts.len(),
        0 <= ng,
    ensures
        codes_upto(flavor, rows, counts, ng, p).len() == count_blocks_before(counts, p) * (ng * 32),
    decreases p,
{
    if p > 0 {
        lemma_codes_len(flavor, rows, counts, ng, p - 1);
        let a = count_blocks_before(counts, p - 1);
        let b = ceil_div(counts[p - 1] as int, 32);
        assert((a + b) * (ng * 32) == a * (ng * 32) + b * (ng * 32)) by (nonlinear_arith);
        assert(0 <= b * (ng * 32)) by (nonlinear_arith)
            requires
                0 <= b,
                0 <= ng,
        ;
    } else {
        assert(0 * (ng * 32) == 0) by (nonlinear_arith);
    }
}

/// The sections have the lengths that the layout gives them.
pub proof fn lemma_section_lengths(s: Segment)
    requires
        s.wf(),
    ensures
        lens_of(s.sections()) == s.lens(),
{
    crate::tvdm::lemma_section_lens(
        s.bit_width as int,
        s.dim as int,
        s.ids@.len() as int,
        s.calib(),
        s.counts@.len() as int,
        count_blocks_before(s.counts@, s.counts@.len() as int),
        s.has_vectors,
    );
    reveal(Segment::header);
    crate::sort::lemma_sorted_pairs(id_slots(s.ids@));
    lemma_codes_len(s.flavor, s.rows@, s.counts@, s.ng(), s.counts@.len() as int);
    assert(lens_of(s.sections()) =~= s.lens());
}

/// Slots that hold the first copy of their vector.
pub fn count_primary(replica: &Vec<bool>) -> (c: usize)
    ensures
        c == primaries(replica@),
        c <= replica@.len(),
{
    let mut c: usize = 0;
    let mut i: usize = 0;
    assert(replica@.take(0) =~= Seq::<bool>::empty());
    while i < replica.len()
        invariant
            i <= replica.len(),
            c <= i,
            c == primaries(replica@.take(i as int)),
        decreases replica.len() - i,
    {
        assert(replica@.take(i + 1).drop_last() =~= replica@.take(i as int));
        if !replica[i] {
            c = c + 1;
        }
        i = i + 1;
    }
    assert(replica@.take(i as int) =~= replica@);
    c
}

fn header_bytes(s: &Segment) -> (out: Vec<u8>)
    requires
        s.wf(),
    ensures
        out@ == s.header(),
{
    reveal(Segment::header);
    let mut out: Vec<u8> = Vec::new();
    let flags: u8 = if s.has_vectors {
        1
    } else {
        0
    };
    let n_calib: u32 = if s.ids.len() > 0 {
        s.dim as u32
    } else {
        0
    };
    let target: u32 = match s.partition_target {
        Some(t) => t,
        None => 0,
    };
    let epsilon: u32 = match s.replica_epsilon {
        Some(e) => e,
        None => 0,
    };
    let unique: usize = count_primary(&s.replica);
    out.push(0x54);
    out.push(0x56);
    out.push(0x44);
    out.push(0x4D);
    out.push(3);
    out.push(s.bit_width as u8);
    out.push(s.flavor.tag());
    out.push(flags);
    assert(out@ =~= magic() + seq![3u8, s.bit_width as u8, s.flavor.tag_byte(), flags]);
    push_u32(&mut out, s.dim as u32);
    push_u32(&mut out, n_calib);
    push_u64(&mut out, s.ids.len() as u64);
    push_u32(&mut out, s.counts.len() as u32);
    push_u32(&mut out, target);
    push_u64(&mut out, unique as u64);
    push_u32(&mut out, epsilon);
    push_zeros(&mut out, 20);
    out
}

/// Appends `n` zero bytes.
pub fn push_zeros(out: &mut Vec<u8>, n: usize)
    ensures
        final(out)@ == old(out)@ + zeros(n as int),
{
    let ghost start = out@;
    let mut i: usize = 0;
    assert(out@ =~= start + zeros(0));
    while i < n
        invariant
            i <= n,
            out@ == start + zeros(i as int),
        decreases n - i,
    {
        out.push(0);
        i = i + 1;
        assert(out@ =~= start + zeros(i as int));
    }
}

/// One more record of the partition table.
proof fn lemma_table_words_step(s: Segment, p: int)
    requires
        0 <= p < s.counts@.len(),
    ensures
        s.table_words().take(3 * p + 3) == s.table_words().take(3 * p).push(s.table()[p].n).push(
            s.table()[p].slot_base,
        ).push(s.table()[p].codes_offset),
{
    let w = s.table_words();
    assert((3 * p) / 3 == p && (3 * p) % 3 == 0);
    assert((3 * p + 1) / 3 == p && (3 * p + 1) % 3 == 1);
    assert((3 * p + 2) / 3 == p && (3 * p + 2) % 3 == 2);
    assert(w.take(3 * p + 3) =~= w.take(3 * p).push(s.table()[p].n).push(s.table()[p].slot_base).push(
        s.table()[p].codes_offset,
    ));
}

fn push_table(s: &Segment, out: &mut Vec<u8>)
    requires
        s.wf(),
    ensures
        final(out)@ == old(out)@ + u64s_bytes(s.table_words()),
{
    let bb: u64 = n_byte_groups(s.bit_width, s.dim) as u64 * 32;
    let mut words: Vec<u64> = Vec::new();
    let mut slot_base: u64 = 0;
    let mut codes_offset: u64 = 0;
    let mut p: usize = 0;
    let total: usize = s.ids.len();
    let ghost nlist = s.counts@.len() as int;
    assert(0 * bb == 0) by (nonlinear_arith);
    while p < s.counts.len()
        invariant
            s.wf(),
            p <= s.counts.len(),
            nlist == s.counts@.len(),
            total == s.ids@.len(),
            bb == block_bytes(s.bit_width as int, s.dim as int),
            slot_base == rows_before(s.counts@, p as int),
            codes_offset == count_blocks_before(s.counts@, p as int) * bb,
            words@ == s.table_words().take(3 * p),
        decreases s.counts.len() - p,
    {
        proof {
            lemma_codes_fit(*s, p + 1);
            lemma_rows_before_monotone(s.counts@, p as int, p + 1);
            lemma_rows_before_monotone(s.counts@, p + 1, nlist);
            lemma_table_words_step(*s, p as int);
        }
        let n: u64 = s.counts[p];
        words.push(n);
        words.push(slot_base);
        words.push(codes_offset);
        assert(words@ =~= s.table_words().take(3 * p + 3));
        slot_base = slot_base + n;
        let blocks: u64 = n / 32 + (if n % 32 == 0 {
            0
        } else {
            1
        });
        proof {
            let a = count_blocks_before(s.counts@, p as int);
            let b = ceil_div(n as int, 32);
            assert(blocks == b);
            assert((a + b) * bb == a * bb + b * bb) by (nonlinear_arith);
            assert(0 <= a * bb && 0 <= b * bb) by (nonlinear_arith)
                requires
                    0 <= a,
                    0 <= b,
                    0 <= bb,
            ;
        }
        codes_offset = codes_offset + blocks * bb;
        p = p + 1;
    }
    assert(words@ =~= s.table_words());
    push_u64s(out, words.as_slice());
}

/// Code offsets stay below the length of the file.
pub proof fn lemma_codes_fit(s: Segment, p: int)
    requires
        s.wf(),
        0 <= p <= s.counts@.len(),
    ensures
        0 <= count_blocks_before(s.counts@, p) * block_bytes(s.bit_width as int, s.dim as int)
            <= usize::MAX,
        0 <= count_blocks_before(s.counts@, s.counts@.len() as int) * block_bytes(
            s.bit_width as int,
            s.dim as int,
        ) <= usize::MAX,
{
    let nlist = s.counts@.len() as int;
    let bb = block_bytes(s.bit_width as int, s.dim as int);
    let a = count_blocks_before(s.counts@, p);
    let b = count_blocks_before(s.counts@, nlist);
    lemma_rows_before_monotone(s.counts@, p, nlist);
    assert(0 <= a * bb <= b * bb) by (nonlinear_arith)
        requires
            0 <= a <= b,
            0 <= bb,
    ;
    lemma_lens_non_negative(s);
    crate::sections::law_sections_are_disjoint(s.lens(), 3, 12);
}

/// There are twelve sections, none of negative length.
pub proof fn lemma_lens_non_negative(s: Segment)
    requires
        2 <= s.bit_width <= 4,
    ensures
        s.lens().len() == 12,
        forall|k: int| 0 <= k < 12 ==> 0 <= #[trigger] s.lens()[k],
        s.lens()[3] == count_blocks_before(s.counts@, s.counts@.len() as int) * block_bytes(
            s.bit_width as int,
            s.dim as int,
        ),
{
    let nlist = s.counts@.len() as int;
    let bb = block_bytes(s.bit_width as int, s.dim as int);
    let n = s.ids@.len() as int;
    let dim = s.dim as int;
    let blocks = count_blocks_before(s.counts@, nlist);
    lemma_rows_before_monotone(s.counts@, 0, nlist);
    crate::tvdm::lemma_section_lens(s.bit_width as int, dim, n, s.calib(), nlist, blocks, s.has_vectors);
    assert(0 <= nlist * dim && 0 <= n * dim && 0 <= blocks * bb) by (nonlinear_arith)
        requires
            0 <= nlist,
            0 <= dim,
            0 <= n,
            0 <= blocks,
            0 <= bb,
    ;
}

fn push_codes(s: &Segment, out: &mut Vec<u8>)
    requires
        s.wf(),
    ensures
        final(out)@ == old(out)@ + codes_upto(
            s.flavor,
            s.rows@,
            s.counts@,
            s.ng(),
            s.counts@.len() as int,
        ),
{
    let ng: usize = n_byte_groups(s.bit_width, s.dim);
    let ghost start = out@;
    let ghost nlist = s.counts@.len() as int;
    let total: usize = s.rows.len();
    let mut slot: usize = 0;
    let mut p: usize = 0;
    assert(out@ =~= start + codes_upto(s.flavor, s.rows@, s.counts@, s.ng(), 0));
    while p < s.counts.len()
        invariant
            s.wf(),
            p <= s.counts.len(),
            nlist == s.counts@.len(),
            total == s.rows@.len(),
            ng == s.ng(),
            slot == rows_before(s.counts@, p as int),
            out@ == start + codes_upto(s.flavor, s.rows@, s.counts@, s.ng(), p as int),
        decreases s.counts.len() - p,
    {
        proof {
            lemma_rows_before_monotone(s.counts@, p as int, p + 1);
            lemma_rows_before_monotone(s.counts@, p + 1, nlist);
            lemma_codes_fit(*s, p + 1);
            let n = s.ids@.len() as int;
            let a = slot as int;
            let b = rows_before(s.counts@, p + 1);
            assert(0 <= a * ng <= b * ng && b * ng <= n * ng) by (nonlinear_arith)
                requires
                    0 <= a <= b <= n,
                    0 <= ng,
            ;
            let x = count_blocks_before(s.counts@, p as int);
            let y = ceil_div(s.counts@[p as int] as int, 32);
            assert((x + y) * (ng * 32) >= y * (ng * 32)) by (nonlinear_arith)
                requires
                    0 <= x,
                    0 <= ng,
            ;
            assert(b * ng - a * ng == (b - a) * ng) by (nonlinear_arith);
            lemma_slot_headroom(*s);
        }
        let n: usize = s.counts[p] as usize;
        let part: &[u8] = slice_subrange(s.rows.as_slice(), slot * ng, (slot + n) * ng);
        push_blocked(s.flavor, part, n, ng, out);
        slot = slot + n;
        p = p + 1;
        assert(out@ =~= start + codes_upto(s.flavor, s.rows@, s.counts@, s.ng(), p as int));
    }
}

/// A file that fits leaves room above its slot count.
pub proof fn lemma_slot_headroom(s: Segment)
    requires
        s.wf(),
    ensures
        s.ids@.len() + 63 <= usize::MAX,
{
    lemma_lens_non_negative(s);
    crate::tvdm::lemma_section_lens(
        s.bit_width as int,
        s.dim as int,
        s.ids@.len() as int,
        s.calib(),
        s.counts@.len() as int,
        count_blocks_before(s.counts@, s.counts@.len() as int),
        s.has_vectors,
    );
    crate::sections::law_sections_are_disjoint(s.lens(), 7, 12);
    crate::sections::law_sections_are_disjoint(s.lens(), 0, 7);
}

/// Appends flags, eight to a byte, the first in the lowest bit.
pub fn push_bitmap(flags: &Vec<bool>, out: &mut Vec<u8>)
    requires
        flags.len() + 7 <= usize::MAX,
    ensures
        final(out)@ == old(out)@ + bitmap_of(flags@),
{
    let ghost start = out@;
    let len: usize = (flags.len() + 7) / 8;
    let mut i: usize = 0;
    assert(start + bitmap_of(flags@).take(0) =~= start);
    while i < len
        invariant
            i <= len,
            flags.len() + 7 <= usize::MAX,
            len == (flags.len() + 7) / 8,
            out@ == start + bitmap_of(flags@).take(i as int),
        decreases len - i,
    {
        let mut byte: u32 = 0;
        let mut weight: u32 = 1;
        let mut k: usize = 0;
        while k < 8
            invariant
                k <= 8,
                i < len,
                flags.len() + 7 <= usize::MAX,
                len == (flags.len() + 7) / 8,
                weight == crate::pack::two_to(k as int),
                byte == bitmap_byte(flags@, i as int, k as int),
                byte < weight,
            decreases 8 - k,
        {
            if 8 * i + k < flags.len() && flags[8 * i + k] {
                byte = byte + weight;
            }
            weight = weight * 2;
            k = k + 1;
        }
        out.push(byte as u8);
        i = i + 1;
        assert(out@ =~= start + bitmap_of(flags@).take(i as int));
    }
    assert(bitmap_of(flags@).take(i as int) =~= bitmap_of(flags@));
}

/// The ids in ascending order, and the slot of each.
fn sorted_ids(ids: &Vec<u64>) -> (r: (Vec<u64>, Vec<u64>))
    ensures
        r.0@ == firsts(sorted_pairs(id_slots(ids@))),
        r.1@ == seconds(sorted_pairs(id_slots(ids@))),
{
    let mut pairs: Vec<(u64, u64)> = Vec::new();
    let mut i: usize = 0;
    while i < ids.len()
        invariant
            i <= ids.len(),
            pairs@ == id_slots(ids@).take(i as int),
        decreases ids.len() - i,
    {
        pairs.push((ids[i], i as u64));
        i = i + 1;
        assert(pairs@ =~= id_slots(ids@).take(i as int));
    }
    assert(pairs@ =~= id_slots(ids@));
    let sorted: Vec<(u64, u64)> = sort_pairs(&pairs);
    let mut a: Vec<u64> = Vec::new();
    let mut b: Vec<u64> = Vec::new();
    let mut j: usize = 0;
    while j < sorted.len()
        invariant
            j <= sorted.len(),
            a@ == firsts(sorted@).take(j as int),
            b@ == seconds(sorted@).take(j as int),
        decreases sorted.len() - j,
    {
        a.push(sorted[j].0);
        b.push(sorted[j].1);
        j = j + 1;
        assert(a@ =~= firsts(sorted@).take(j as int));
        assert(b@ =~= seconds(sorted@).take(j as int));
    }
    assert(a@ =~= firsts(sorted@));
    assert(b@ =~= seconds(sorted@));
    (a, b)
}

impl Segment {
    /// The bytes of the file that holds this segment.
    pub fn encode(&self) -> (out: Vec<u8>)
        requires
            self.wf(),
        ensures
            out@ == self.file(),
    {
        let mut out: Vec<u8> = header_bytes(self);
        let ghost all = self.sections();
        assert(all.take(0) =~= Seq::<Seq<u8>>::empty());
        let (ids, slots) = sorted_ids(&self.ids);
        assert(out@ =~= image(all.take(0)) + all[0]);
        close_section(&mut out, Ghost(all.take(0)), Ghost(all[0]));
        assert(all.take(0).push(all[0]) =~= all.take(1));
        push_table(self, &mut out);
        close_section(&mut out, Ghost(all.take(1)), Ghost(all[1]));
        assert(all.take(1).push(all[1]) =~= all.take(2));
        push_u32s(&mut out, self.centroids.as_slice());
        close_section(&mut out, Ghost(all.take(2)), Ghost(all[2]));
        assert(all.take(2).push(all[2]) =~= all.take(3));
        push_codes(self, &mut out);
        close_section(&mut out, Ghost(all.take(3)), Ghost(all[3]));
        assert(all.take(3).push(all[3]) =~= all.take(4));
        push_u32s(&mut out, self.scales.as_slice());
        close_section(&mut out, Ghost(all.take(4)), Ghost(all[4]));
        assert(all.take(4).push(all[4]) =~= all.take(5));
        push_u32s(&mut out, self.tqplus_shift.as_slice());
        close_section(&mut out, Ghost(all.take(5)), Ghost(all[5]));
        assert(all.take(5).push(all[5]) =~= all.take(6));
        push_u32s(&mut out, self.tqplus_scale.as_slice());
        close_section(&mut out, Ghost(all.take(6)), Ghost(all[6]));
        assert(all.take(6).push(all[6]) =~= all.take(7));
        push_u64s(&mut out, self.ids.as_slice());
        close_section(&mut out, Ghost(all.take(7)), Ghost(all[7]));
        assert(all.take(7).push(all[7]) =~= all.take(8));
        push_u64s(&mut out, ids.as_slice());
        close_section(&mut out, Ghost(all.take(8)), Ghost(all[8]));
        assert(all.take(8).push(all[8]) =~= all.take(9));
        push_u64s(&mut out, slots.as_slice());
        close_section(&mut out, Ghost(all.take(9)), Ghost(all[9]));
        assert(all.take(9).push(all[9]) =~= all.take(10));
        proof {
            lemma_slot_headroom(*self);
        }
        push_bitmap(&self.replica, &mut out);
        close_section(&mut out, Ghost(all.take(10)), Ghost(all[10]));
        assert(all.take(10).push(all[10]) =~= all.take(11));
        push_u32s(&mut out, self.vectors.as_slice());
        close_section(&mut out, Ghost(all.take(11)), Ghost(all[11]));
        assert(all.take(11).push(all[11]) =~= all);
        out
    }
}

} // verus!
