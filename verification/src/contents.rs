//! Reading a segment file: lookups, rows, and whole contents.
use vstd::prelude::*;
use vstd::slice::slice_subrange;
use crate::bytes::{lemma_u32s_round_trip, read_u32s, read_u64, read_u64s, u32s_at, u32s_bytes};
use crate::math::ceil_div;
use crate::pack::{
    blocked, groups, law_blocks_round_trip, n_byte_groups, push_unblocked_row, read_bit, unblocked, Layout,
};
use crate::sections::section_start;
use crate::segment::{
    codes_upto, count_blocks_before, lemma_codes_len, lemma_rows_before_monotone, lemma_table_sums,
    partition_rows, rows_before, Segment,
};
use crate::segment_laws::{lemma_bitmap_bit, lemma_file_values, lemma_id_tables, lemma_section_in_file};
use crate::tvdm::{
    bitmap_bit, block_bytes, blocks_before, epsilon_of, flags_in, hdr_calib, hdr_dim, hdr_epsilon,
    hdr_nlist, hdr_slots, hdr_target, lemma_before_bounds, lemma_before_monotone, lemma_header,
    lemma_lens_in, lemma_sections_fit, lens_in, non_decreasing, open_error, slots_before, table_error,
    table_of, u64_section, BaseSegment, PartitionMeta,
};

verus! {

/// Section `k` as `n` words.
pub open spec fn u32_section(b: Seq<u8>, k: int, n: int) -> Seq<u32> {
    u32s_at(b, section_start(lens_in(b), k), n as nat)
}

/// The blocks of partition `p`.
pub open spec fn partition_codes_in(b: Seq<u8>, p: int) -> Seq<u8> {
    let bb = block_bytes(b[5] as int, hdr_dim(b) as int);
    let lo = section_start(lens_in(b), 3) + blocks_before(table_of(b), p) * bb;
    let hi = section_start(lens_in(b), 3) + blocks_before(table_of(b), p + 1) * bb;
    b.subrange(lo, hi)
}

/// The group bytes of the partitions before `p`.
pub open spec fn rows_in(b: Seq<u8>, flavor: Layout, p: int) -> Seq<u8>
    decreases p,
{
    if p <= 0 {
        Seq::empty()
    } else {
        rows_in(b, flavor, p - 1) + unblocked(
            flavor,
            partition_codes_in(b, p - 1),
            table_of(b)[p - 1].n as int,
            groups(b[5] as int, hdr_dim(b) as int),
        )
    }
}

/// Whether each slot holds a replica.
pub open spec fn replicas_in(b: Seq<u8>) -> Seq<bool> {
    Seq::new(hdr_slots(b) as nat, |i: int| bitmap_bit(flags_in(b), i))
}

/// The ids that the file holds.
pub open spec fn ids_in(b: Seq<u8>) -> Set<u64> {
    u64_section(b, 8).to_set()
}

/// The full-precision vectors, if stored.
pub open spec fn vectors_in(b: Seq<u8>) -> Seq<u32> {
    if b[7] == 1 {
        u32_section(b, 11, hdr_slots(b) * hdr_dim(b))
    } else {
        Seq::empty()
    }
}

impl Segment {
    /// This is everything the file holds.
    pub open spec fn holds(self, b: Seq<u8>) -> bool {
        &&& self.flavor.tag_byte() == b[6]
        &&& self.bit_width == b[5]
        &&& self.dim == hdr_dim(b)
        &&& self.partition_target == (if hdr_target(b) == 0 {
            None
        } else {
            Some(hdr_target(b))
        })
        &&& self.replica_epsilon == epsilon_of(hdr_epsilon(b))
        &&& self.has_vectors == (b[7] == 1)
        &&& self.counts@ == Seq::new(hdr_nlist(b) as nat, |p: int| table_of(b)[p].n)
        &&& self.centroids@ == u32_section(b, 2, hdr_nlist(b) * hdr_dim(b))
        &&& self.rows@ == rows_in(b, self.flavor, hdr_nlist(b) as int)
        &&& self.scales@ == u32_section(b, 4, hdr_slots(b) as int)
        &&& self.tqplus_shift@ == u32_section(b, 5, hdr_calib(b) as int)
        &&& self.tqplus_scale@ == u32_section(b, 6, hdr_calib(b) as int)
        &&& self.ids@ == u64_section(b, 7)
        &&& self.replica@ == replicas_in(b)
        &&& self.vectors@ == vectors_in(b)
    }

    /// The same contents, value for value.
    pub open spec fn same(self, o: Segment) -> bool {
        &&& self.flavor == o.flavor
        &&& self.bit_width == o.bit_width
        &&& self.dim == o.dim
        &&& self.partition_target == o.partition_target
        &&& self.replica_epsilon == o.replica_epsilon
        &&& self.has_vectors == o.has_vectors
        &&& self.counts@ == o.counts@
        &&& self.centroids@ == o.centroids@
        &&& self.rows@ == o.rows@
        &&& self.scales@ == o.scales@
        &&& self.tqplus_shift@ == o.tqplus_shift@
        &&& self.tqplus_scale@ == o.tqplus_scale@
        &&& self.ids@ == o.ids@
        &&& self.replica@ == o.replica@
        &&& self.vectors@ == o.vectors@
    }
}

/// Where the blocks of a partition lie in an accepted file.
pub proof fn lemma_partition_codes(b: Seq<u8>, flavor: Layout, p: int)
    requires
        open_error(b, flavor) is None,
        0 <= p < hdr_nlist(b),
    ensures
        ({
            let bb = block_bytes(b[5] as int, hdr_dim(b) as int);
            let o = section_start(lens_in(b), 3);
            let t = table_of(b);
            &&& 0 <= o
            &&& 0 <= blocks_before(t, p) * bb <= blocks_before(t, p + 1) * bb
            &&& blocks_before(t, p + 1) * bb == blocks_before(t, p) * bb + t[p].blocks() * bb
            &&& o + blocks_before(t, p + 1) * bb <= b.len()
            &&& t[p].codes_offset == blocks_before(t, p) * bb
            &&& t[p].slot_base == slots_before(t, p)
            &&& 0 <= slots_before(t, p)
            &&& slots_before(t, p) + t[p].n == slots_before(t, p + 1)
            &&& slots_before(t, p + 1) <= hdr_slots(b)
            &&& 0 <= t[p].blocks() * bb
        }),
{
    reveal(table_error);
    let t = table_of(b);
    let nlist = hdr_nlist(b) as int;
    let bb = block_bytes(b[5] as int, hdr_dim(b) as int);
    lemma_header(b, flavor);
    lemma_sections_fit(b, flavor);
    lemma_lens_in(b);
    lemma_before_bounds(t, p);
    lemma_before_monotone(t, p, p + 1);
    lemma_before_monotone(t, p + 1, nlist);
    let x = blocks_before(t, p);
    let y = blocks_before(t, p + 1);
    let z = blocks_before(t, nlist);
    let m = t[p].blocks();
    assert(y == x + m);
    assert((x + m) * bb == x * bb + m * bb) by (nonlinear_arith);
    assert(0 <= x * bb && 0 <= m * bb && y * bb <= z * bb) by (nonlinear_arith)
        requires
            0 <= x,
            0 <= m,
            y <= z,
            0 <= bb,
    ;
    assert(section_start(lens_in(b), 3) + lens_in(b)[3] <= b.len());
    assert(t[p].slot_base == slots_before(t, p));
}

impl BaseSegment {
    /// The blocks of partition `p`.
    pub fn partition_codes<'a>(&self, file: &'a [u8], p: usize) -> (codes: &'a [u8])
        requires
            self.describes(file@),
            p < self.partitions@.len(),
        ensures
            codes@ == partition_codes_in(file@, p as int),
            codes@.len() == self.partitions@[p as int].blocks() * block_bytes(
                self.bit_width as int,
                self.dim as int,
            ),
    {
        proof {
            self.lemma_describes(file@);
            lemma_partition_codes(file@, self.flavor, p as int);
        }
        assert(file.len() == file@.len());
        let meta: PartitionMeta = self.partitions[p];
        let bb: u64 = n_byte_groups(self.bit_width, self.dim) as u64 * 32;
        let start: usize = self.layout.codes.0 + meta.codes_offset as usize;
        let len: usize = (meta.n_blocks() * bb) as usize;
        slice_subrange(file, start, start + len)
    }

    /// True if `slot` holds a further copy of a vector.
    pub fn is_replica(&self, file: &[u8], slot: usize) -> (r: bool)
        requires
            self.describes(file@),
            slot < self.n,
        ensures
            r == replicas_in(file@)[slot as int],
    {
        proof {
            self.lemma_describes(file@);
            lemma_lens_in(file@);
            lemma_sections_fit(file@, self.flavor);
            assert(section_start(lens_in(file@), 10) + lens_in(file@)[10] <= file@.len());
        }
        let o: usize = self.layout.replica_flags.0;
        assert(flags_in(file@)[slot as int / 8] == file@[o + slot as int / 8]);
        read_bit(file[o + slot / 8], slot % 8) == 1
    }

    /// The id of `slot`.
    pub fn id_at(&self, file: &[u8], slot: usize) -> (id: u64)
        requires
            self.describes(file@),
            slot < self.n,
        ensures
            id == u64_section(file@, 7)[slot as int],
    {
        proof {
            self.lemma_describes(file@);
            lemma_lens_in(file@);
            lemma_sections_fit(file@, self.flavor);
            assert(section_start(lens_in(file@), 7) + lens_in(file@)[7] <= file@.len());
        }
        read_u64(file, self.layout.slot_to_id.0 + 8 * slot)
    }

    /// A slot of `id`, by binary search over the sorted ids. An id may occupy
    /// several slots that hold identical data; any of them may be returned.
    pub fn slot_of(&self, file: &[u8], id: u64) -> (r: Option<usize>)
        requires
            self.describes(file@),
        ensures
            match r {
                Some(slot) => {
                    &&& slot < self.n
                    &&& exists|i: int|
                        0 <= i < self.n && #[trigger] u64_section(file@, 8)[i] == id && u64_section(
                            file@,
                            9,
                        )[i] == slot
                },
                None => !ids_in(file@).contains(id),
            },
            r is Some <==> ids_in(file@).contains(id),
    {
        proof {
            self.lemma_describes(file@);
            lemma_lens_in(file@);
            lemma_sections_fit(file@, self.flavor);
            assert(section_start(lens_in(file@), 8) + lens_in(file@)[8] <= file@.len());
            assert(section_start(lens_in(file@), 9) + lens_in(file@)[9] <= file@.len());
        }
        let flen: usize = file.len();
        let ghost ids = u64_section(file@, 8);
        let base: usize = self.layout.sorted_ids.0;
        let mut lo: usize = 0;
        let mut hi: usize = self.n;
        while lo < hi
            invariant
                lo <= hi <= self.n,
                ids == u64_section(file@, 8),
                ids.len() == self.n,
                non_decreasing(ids),
                base == section_start(lens_in(file@), 8),
                base + 8 * self.n <= flen,
                flen == file@.len(),
                forall|i: int| 0 <= i < lo ==> ids[i] < id,
                forall|i: int| hi <= i < self.n ==> ids[i] >= id,
            decreases hi - lo,
        {
            let mid: usize = lo + (hi - lo) / 2;
            let v: u64 = read_u64(file, base + 8 * mid);
            assert(ids[mid as int] == v);
            if v < id {
                lo = mid + 1;
            } else {
                hi = mid;
            }
        }
        if lo < self.n && read_u64(file, base + 8 * lo) == id {
            assert(ids[lo as int] == id);
            let slot: u64 = read_u64(file, self.layout.sorted_slots.0 + 8 * lo);
            assert(u64_section(file@, 9)[lo as int] == slot);
            return Some(slot as usize);
        }
        assert(!ids.contains(id)) by {
            if ids.contains(id) {
                let i = choose|i: int| 0 <= i < ids.len() && ids[i] == id;
                assert(ids[lo as int] <= ids[i]);
            }
        }
        None
    }
}

/// A section of words lies in the file.
proof fn lemma_u32_section(b: Seq<u8>, flavor: Layout, k: int, n: int)
    requires
        open_error(b, flavor) is None,
        0 <= k < 12,
        lens_in(b)[k] == 4 * n,
    ensures
        section_start(lens_in(b), k) + 4 * n <= b.len(),
        0 <= section_start(lens_in(b), k),
{
    lemma_sections_fit(b, flavor);
    assert(section_start(lens_in(b), k) + lens_in(b)[k] <= b.len());
}

/// Reads the rows of one partition.
fn push_partition_rows(flavor: Layout, codes: &[u8], n: usize, ng: usize, out: &mut Vec<u8>)
    requires
        codes@.len() == ceil_div(n as int, 32) * (ng * 32),
    ensures
        final(out)@ == old(out)@ + unblocked(flavor, codes@, n as int, ng as int),
{
    let mut part: Vec<u8> = Vec::new();
    let mut i: usize = 0;
    assert(0 * ng == 0) by (nonlinear_arith);
    assert(part@ =~= unblocked(flavor, codes@, 0, ng as int));
    while i < n
        invariant
            i <= n,
            codes@.len() == ceil_div(n as int, 32) * (ng * 32),
            part@ == unblocked(flavor, codes@, i as int, ng as int),
        decreases n - i,
    {
        proof {
            let b = i as int / 32 + 1;
            let nb = ceil_div(n as int, 32);
            assert(b <= nb);
            assert(b * (ng * 32) <= nb * (ng * 32)) by (nonlinear_arith)
                requires
                    b <= nb,
                    0 <= ng,
            ;
        }
        push_unblocked_row(flavor, codes, ng, i, &mut part);
        i = i + 1;
    }
    out.append(&mut part);
}

impl BaseSegment {
    /// The group bytes of all rows, in slot order.
    pub fn all_rows(&self, file: &[u8]) -> (rows: Vec<u8>)
        requires
            self.describes(file@),
        ensures
            rows@ == rows_in(file@, self.flavor, self.partitions@.len() as int),
    {
        proof {
            self.lemma_describes(file@);
        }
        let ng: usize = n_byte_groups(self.bit_width, self.dim);
        let mut rows: Vec<u8> = Vec::new();
        let mut p: usize = 0;
        while p < self.partitions.len()
            invariant
                p <= self.partitions.len(),
                self.describes(file@),
                self.partitions@ == table_of(file@),
                open_error(file@, self.flavor) is None,
                self.partitions@.len() == hdr_nlist(file@),
                self.n == hdr_slots(file@),
                self.bit_width == file@[5],
                self.dim == hdr_dim(file@),
                ng == groups(file@[5] as int, hdr_dim(file@) as int),
                rows@ == rows_in(file@, self.flavor, p as int),
            decreases self.partitions.len() - p,
        {
            let codes: &[u8] = self.partition_codes(file, p);
            proof {
                lemma_partition_codes(file@, self.flavor, p as int);
            }
            let n: usize = self.partitions[p].n as usize;
            push_partition_rows(self.flavor, codes, n, ng, &mut rows);
            p = p + 1;
        }
        rows
    }

    /// Reads everything the file holds.
    pub fn contents(&self, file: &[u8]) -> (s: Segment)
        requires
            self.describes(file@),
        ensures
            s.holds(file@),
            s.flavor == self.flavor,
            s.shaped(),
    {
        let ghost b = file@;
        proof {
            self.lemma_describes(b);
            lemma_lens_in(b);
            let nlist = hdr_nlist(b) as int;
            let dim = hdr_dim(b) as int;
            let n = hdr_slots(b) as int;
            assert(0 <= nlist * dim && 0 <= n * dim) by (nonlinear_arith)
                requires
                    0 <= nlist,
                    0 <= dim,
                    0 <= n,
            ;
            lemma_u32_section(b, self.flavor, 2, nlist * dim);
            lemma_u32_section(b, self.flavor, 4, n);
            lemma_u32_section(b, self.flavor, 5, hdr_calib(b) as int);
            lemma_u32_section(b, self.flavor, 6, hdr_calib(b) as int);
            lemma_u32_section(b, self.flavor, 7, 2 * n);
            if self.has_vectors {
                lemma_u32_section(b, self.flavor, 11, n * dim);
            }
        }
        assert(file.len() == file@.len());
        let mut counts: Vec<u64> = Vec::new();
        let mut p: usize = 0;
        while p < self.partitions.len()
            invariant
                p <= self.partitions.len(),
                self.partitions@ == table_of(b),
                counts@ == Seq::new(p as nat, |i: int| table_of(b)[i].n),
            decreases self.partitions.len() - p,
        {
            counts.push(self.partitions[p].n);
            p = p + 1;
            assert(counts@ =~= Seq::new(p as nat, |i: int| table_of(b)[i].n));
        }
        let mut replica: Vec<bool> = Vec::new();
        let mut i: usize = 0;
        while i < self.n
            invariant
                i <= self.n,
                b == file@,
                self.describes(file@),
                self.n == hdr_slots(b),
                replica@ == replicas_in(b).take(i as int),
            decreases self.n - i,
        {
            replica.push(self.is_replica(file, i));
            i = i + 1;
            assert(replica@ =~= replicas_in(b).take(i as int));
        }
        assert(replica@ =~= replicas_in(b));
        let l = &self.layout;
        let vectors: Vec<u32> = if self.has_vectors {
            read_u32s(file, l.vectors.0, self.n * self.dim)
        } else {
            Vec::new()
        };
        assert(vectors@ =~= vectors_in(b));
        let s = Segment {
            flavor: self.flavor,
            bit_width: self.bit_width,
            dim: self.dim,
            partition_target: if self.file_partition_target == 0 {
                None
            } else {
                Some(self.file_partition_target as u32)
            },
            replica_epsilon: self.file_replica_epsilon,
            has_vectors: self.has_vectors,
            counts,
            centroids: read_u32s(file, l.centroids.0, self.partitions.len() * self.dim),
            rows: self.all_rows(file),
            scales: read_u32s(file, l.scales.0, self.n),
            tqplus_shift: read_u32s(file, l.tqplus_shift.0, self.n_calib),
            tqplus_scale: read_u32s(file, l.tqplus_scale.0, self.n_calib),
            ids: read_u64s(file, l.slot_to_id.0, self.n),
            replica,
            vectors,
        };
        proof {
            lemma_contents_shaped(s, b);
        }
        s
    }
}

proof fn lemma_slots_of_counts(b: Seq<u8>, counts: Seq<u64>, p: int)
    requires
        counts == Seq::new(hdr_nlist(b) as nat, |p: int| table_of(b)[p].n),
        0 <= p <= hdr_nlist(b),
    ensures
        rows_before(counts, p) == slots_before(table_of(b), p),
    decreases p,
{
    if p > 0 {
        lemma_slots_of_counts(b, counts, p - 1);
    }
}

/// The contents of a file that opens have the right lengths.
pub proof fn lemma_contents_shaped(s: Segment, b: Seq<u8>)
    requires
        open_error(b, s.flavor) is None,
        s.holds(b),
    ensures
        s.shaped(),
{
    reveal(table_error);
    lemma_header(b, s.flavor);
    lemma_slots_of_counts(b, s.counts@, hdr_nlist(b) as int);
    lemma_rows_in_len(b, s.flavor, hdr_nlist(b) as int);
    let nlist = hdr_nlist(b) as int;
    let dim = hdr_dim(b) as int;
    let n = hdr_slots(b) as int;
    assert(0 <= nlist * dim && 0 <= n * dim) by (nonlinear_arith)
        requires
            0 <= nlist,
            0 <= dim,
            0 <= n,
    ;
}

/// The rows that a written file gives back are the rows that were written.
#[verifier::rlimit(20)]
pub proof fn lemma_rows_round_trip(s: Segment, p: int)
    requires
        s.wf(),
        0 <= p <= s.counts@.len(),
    ensures
        rows_in(s.file(), s.flavor, p) == s.rows@.take(rows_before(s.counts@, p) * s.ng()),
    decreases p,
{
    let ng = s.ng();
    let nlist = s.counts@.len() as int;
    lemma_file_values(s);
    if p > 0 {
        let q = p - 1;
        lemma_rows_round_trip(s, q);
        lemma_partition_written(s, q);
        let part = partition_rows(s.rows@, s.counts@, ng, q);
        let x = rows_before(s.counts@, q);
        let y = rows_before(s.counts@, p);
        let n = s.ids@.len() as int;
        lemma_rows_before_monotone(s.counts@, q, p);
        lemma_rows_before_monotone(s.counts@, p, nlist);
        assert(0 <= x * ng <= y * ng && y * ng <= n * ng) by (nonlinear_arith)
            requires
                0 <= x <= y <= n,
                0 <= ng,
        ;
        assert(y * ng - x * ng == (y - x) * ng) by (nonlinear_arith);
        law_blocks_round_trip(s.flavor, part, s.counts@[q] as int, ng);
        assert(s.rows@.take(y * ng) =~= s.rows@.take(x * ng) + part);
    } else {
        assert(0 * ng == 0) by (nonlinear_arith);
        assert(s.rows@.take(0) =~= Seq::<u8>::empty());
    }
}

/// The blocks of one partition of a written file.
proof fn lemma_partition_written(s: Segment, p: int)
    requires
        s.wf(),
        0 <= p < s.counts@.len(),
    ensures
        partition_codes_in(s.file(), p) == blocked(
            s.flavor,
            partition_rows(s.rows@, s.counts@, s.ng(), p),
            s.counts@[p] as int,
            s.ng(),
        ),
{
    let b = s.file();
    let ng = s.ng();
    let nlist = s.counts@.len() as int;
    let bb = ng * 32;
    let all = codes_upto(s.flavor, s.rows@, s.counts@, ng, nlist);
    let x = count_blocks_before(s.counts@, p) * bb;
    let y = count_blocks_before(s.counts@, p + 1) * bb;
    lemma_codes_part(s.flavor, s.rows@, s.counts@, ng, p);
    let o = section_start(s.lens(), 3);
    assert(partition_codes_in(b, p) == b.subrange(o + x, o + y)) by {
        lemma_file_values(s);
        lemma_table_sums(s, p);
        lemma_table_sums(s, p + 1);
    }
    assert(s.sections()[3] == all);
    assert(b.subrange(o, o + all.len()) == all && 0 <= o && o + all.len() <= b.len()) by {
        lemma_section_in_file(s, 3);
    }
    lemma_subrange_within(b, all, o, x, y);
}

/// A part of a part of a file.
proof fn lemma_subrange_within(b: Seq<u8>, all: Seq<u8>, o: int, x: int, y: int)
    requires
        0 <= o,
        o + all.len() <= b.len(),
        b.subrange(o, o + all.len()) == all,
        0 <= x <= y <= all.len(),
    ensures
        b.subrange(o + x, o + y) == all.subrange(x, y),
{
    assert forall|i: int| 0 <= i < y - x implies #[trigger] b.subrange(o + x, o + y)[i] == all.subrange(x, y)[i] by {
        assert(b.subrange(o, o + all.len())[x + i] == b[o + x + i]);
    }
    assert(b.subrange(o + x, o + y) =~= all.subrange(x, y));
}

/// The blocks of one partition among all blocks.
proof fn lemma_codes_part(flavor: Layout, rows: Seq<u8>, counts: Seq<u64>, ng: int, p: int)
    requires
        0 <= p < counts.len(),
        0 <= ng,
    ensures
        ({
            let all = codes_upto(flavor, rows, counts, ng, counts.len() as int);
            let x = count_blocks_before(counts, p) * (ng * 32);
            let y = count_blocks_before(counts, p + 1) * (ng * 32);
            &&& 0 <= x <= y <= all.len()
            &&& all.subrange(x, y) == blocked(
                flavor,
                partition_rows(rows, counts, ng, p),
                counts[p] as int,
                ng,
            )
        }),
{
    let nlist = counts.len() as int;
    let all = codes_upto(flavor, rows, counts, ng, nlist);
    lemma_codes_prefix(flavor, rows, counts, ng, p + 1, nlist);
    lemma_codes_len(flavor, rows, counts, ng, p);
    lemma_codes_len(flavor, rows, counts, ng, p + 1);
    let a = codes_upto(flavor, rows, counts, ng, p);
    let c = codes_upto(flavor, rows, counts, ng, p + 1);
    let part = blocked(flavor, partition_rows(rows, counts, ng, p), counts[p] as int, ng);
    assert(c == a + part);
    assert(c == all.take(c.len() as int));
    assert(part =~= c.subrange(a.len() as int, c.len() as int));
    assert(c.subrange(a.len() as int, c.len() as int) =~= all.subrange(a.len() as int, c.len() as int));
}

/// Blocks of the first partitions come first.
proof fn lemma_codes_prefix(flavor: Layout, rows: Seq<u8>, counts: Seq<u64>, ng: int, p: int, q: int)
    requires
        0 <= p <= q,
    ensures
        codes_upto(flavor, rows, counts, ng, p).len() <= codes_upto(flavor, rows, counts, ng, q).len(),
        codes_upto(flavor, rows, counts, ng, p) == codes_upto(flavor, rows, counts, ng, q).take(
            codes_upto(flavor, rows, counts, ng, p).len() as int,
        ),
    decreases q,
{
    if p < q {
        lemma_codes_prefix(flavor, rows, counts, ng, p, q - 1);
        let a = codes_upto(flavor, rows, counts, ng, p);
        let m = codes_upto(flavor, rows, counts, ng, q - 1);
        let c = codes_upto(flavor, rows, counts, ng, q);
        assert(c.take(a.len() as int) =~= m.take(a.len() as int));
    } else {
        let a = codes_upto(flavor, rows, counts, ng, p);
        assert(a.take(a.len() as int) =~= a);
    }
}

/// Reading a written file gives back, value for value, what was written.
pub proof fn law_segment_round_trip(s: Segment, back: Segment)
    requires
        s.wf(),
        back.flavor == s.flavor,
        back.holds(s.file()),
    ensures
        back.same(s),
{
    let b = s.file();
    let n = s.ids@.len() as int;
    let nlist = s.counts@.len() as int;
    lemma_file_values(s);
    lemma_id_tables(s);
    lemma_rows_round_trip(s, nlist);
    assert(s.rows@.take(n * s.ng()) =~= s.rows@);
    lemma_words_written(s, 2, s.centroids@);
    lemma_words_written(s, 4, s.scales@);
    lemma_words_written(s, 5, s.tqplus_shift@);
    lemma_words_written(s, 6, s.tqplus_scale@);
    lemma_words_written(s, 11, s.vectors@);
    assert(back.counts@ =~= s.counts@);
    assert forall|i: int| 0 <= i < n implies replicas_in(b)[i] == s.replica@[i] by {
        lemma_bitmap_bit(s.replica@, i);
    }
    assert(back.replica@ =~= s.replica@);
    assert(back.vectors@ =~= s.vectors@);
}

/// A section of words holds them.
pub proof fn lemma_words_written(s: Segment, k: int, values: Seq<u32>)
    requires
        s.wf(),
        0 <= k < 12,
        s.sections()[k] == u32s_bytes(values),
    ensures
        u32_section(s.file(), k, values.len() as int) == values,
{
    lemma_file_values(s);
    lemma_section_in_file(s, k);
    lemma_u32s_round_trip(values, s.file(), section_start(s.lens(), k));
}

/// Rows come one after the other, `groups` bytes each.
pub proof fn lemma_rows_in_len(b: Seq<u8>, flavor: Layout, p: int)
    requires
        0 <= p <= hdr_nlist(b),
    ensures
        rows_in(b, flavor, p).len() == slots_before(table_of(b), p) * groups(b[5] as int, hdr_dim(b) as int),
    decreases p,
{
    let ng = groups(b[5] as int, hdr_dim(b) as int);
    if p > 0 {
        lemma_rows_in_len(b, flavor, p - 1);
        let x = slots_before(table_of(b), p - 1);
        let n = table_of(b)[p - 1].n as int;
        assert((x + n) * ng == x * ng + n * ng) by (nonlinear_arith);
        assert(0 <= n * ng) by (nonlinear_arith)
            requires
                0 <= n,
                0 <= ng,
        ;
    } else {
        assert(0 * ng == 0) by (nonlinear_arith);
    }
}

} // verus!
