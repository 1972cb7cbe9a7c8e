//! Where the values of a log, a run and a segment file lie in its bytes, and
//! where the bits of a code lie in bit planes.
use vstd::prelude::*;
use crate::bytes::{
    lemma_u32_round_trip, lemma_u32s_round_trip, lemma_u64_round_trip, u32_at, u32_bytes, u32s_at, u32s_bytes, u64_at,
    u64_bytes,
};
use crate::crc::crc_of;
use crate::math::{ceil_div, lemma_flat_bound, lemma_flat_index};
use crate::pack::{
    bit_of, code_low, lemma_code_bit, lemma_code_bound, low_group_byte, plane_bit, plane_code, repack_3bit, Layout,
};
use crate::runs::{by_id, encode_run, entry_at, run_count, RunEntry};
use crate::tvdm::{header_error, hdr_calib, hdr_dim, hdr_nlist, hdr_slots, hdr_unique, BaseSegment, OpenError};
use crate::wal::{record_bytes, wal_header, wal_record};

verus! {

/// The header of a log: its mark and version, then the dimensionality at byte 8
/// and the epoch at byte 16.
pub proof fn law_log_header_layout(dim: u32, epoch: u64, out: Vec<u8>)
    requires
        wal_header.ensures((dim, epoch), out),
    ensures
        out@.len() == 24,
        out@[0] == 0x54 && out@[1] == 0x56 && out@[2] == 0x46 && out@[3] == 0x57,
        out@[4] == 3,
        u32_at(out@, 8) == dim,
        u64_at(out@, 16) == epoch,
{
    assert(out@.subrange(8, 12) =~= u32_bytes(dim));
    assert(out@.subrange(16, 24) =~= u64_bytes(epoch));
    lemma_u32_round_trip(dim, out@, 8);
    lemma_u64_round_trip(epoch, out@, 16);
}

/// A record of a log: its kind, the checksum of kind, id and vector at byte 4,
/// the id at byte 8 and the vector from byte 16 on.
pub proof fn law_log_record_layout(kind: u8, id: u64, vector: &[u32], out: Vec<u8>)
    requires
        wal_record.ensures((kind, id, vector), out),
    ensures
        out@.len() == 16 + 4 * vector@.len(),
        out@[0] == kind,
        u32_at(out@, 4) == crc_of(seq![kind] + out@.skip(8)),
        u64_at(out@, 8) == id,
        u32s_at(out@, 16, vector@.len()) == vector@,
{
    reveal(record_bytes);
    let n = vector@.len() as int;
    let crc = crc_of(crate::wal::covered(kind, u64_bytes(id), u32s_bytes(vector@)));
    assert(u32s_bytes(vector@).len() == 4 * n);
    assert(out@.subrange(4, 8) =~= u32_bytes(crc));
    assert(out@.subrange(8, 16) =~= u64_bytes(id));
    assert(out@.subrange(16, 16 + 4 * n) =~= u32s_bytes(vector@));
    assert(seq![kind] + out@.skip(8) =~= crate::wal::covered(kind, u64_bytes(id), u32s_bytes(vector@)));
    lemma_u32_round_trip(crc, out@, 4);
    lemma_u64_round_trip(id, out@, 8);
    lemma_u32s_round_trip(vector@, out@, 16);
}

/// A run: its mark and version, the number of entries at byte 8, and from byte
/// 16 on 24 bytes for each entry: id, partition, generation, row and flags.
pub proof fn law_run_layout(entries: &Vec<RunEntry>, out: Vec<u8>, k: int)
    requires
        encode_run.ensures((entries,), out),
        entries@.len() <= u64::MAX,
        0 <= k < entries@.len(),
    ensures
        out@.len() == 16 + 24 * entries@.len(),
        out@[0] == 0x54 && out@[1] == 0x56 && out@[2] == 0x46 && out@[3] == 0x52 && out@[4] == 3,
        u64_at(out@, 8) == entries@.len(),
        ({
            let e = by_id(entries@)[k];
            &&& u64_at(out@, 16 + 24 * k) == e.id
            &&& u32_at(out@, 16 + 24 * k + 8) == e.partition_id
            &&& u32_at(out@, 16 + 24 * k + 12) == e.generation
            &&& u32_at(out@, 16 + 24 * k + 16) == e.row
            &&& u32_at(out@, 16 + 24 * k + 20) == e.flags
        }),
{
    crate::runs::law_by_id(entries@);
    lemma_run_layout(by_id(entries@), k);
}

proof fn lemma_run_layout(s: Seq<RunEntry>, k: int)
    requires
        s.len() <= u64::MAX,
        0 <= k < s.len(),
    ensures
        ({
            let out = crate::runs::run_bytes(s);
            &&& out.len() == 16 + 24 * s.len()
            &&& out[0] == 0x54 && out[1] == 0x56 && out[2] == 0x46 && out[3] == 0x52 && out[4] == 3
            &&& u64_at(out, 8) == s.len()
            &&& entry_at(out, k) == s[k]
        }),
{
    let out = crate::runs::run_bytes(s);
    lemma_run_header(s);
    crate::runs::law_run_round_trip(s);
    assert(run_count(out) == s.len());
    assert(crate::runs::entries_in(out)[k] == entry_at(out, k));
}

proof fn lemma_run_header(s: Seq<RunEntry>)
    requires
        s.len() <= u64::MAX,
    ensures
        ({
            let out = crate::runs::run_bytes(s);
            &&& out.len() == 16 + 24 * s.len()
            &&& out[0] == 0x54 && out[1] == 0x56 && out[2] == 0x46 && out[3] == 0x52 && out[4] == 3
            &&& u64_at(out, 8) == s.len()
        }),
{
    let out = crate::runs::run_bytes(s);
    let h = crate::runs::run_header(s.len() as u64);
    let e = crate::runs::entries_bytes(s);
    crate::runs::lemma_entries_len(s);
    assert(h.len() == 16);
    assert(h.subrange(8, 16) =~= u64_bytes(s.len() as u64));
    assert(out == h + e);
    assert(out.subrange(8, 16) =~= h.subrange(8, 16));
    lemma_u64_round_trip(s.len() as u64, out, 8);
}

/// A segment file opens only with its mark, version 3, a code width of two to
/// four bits, the layout of this machine, a known flag, and a header whose
/// numbers fit together.
pub proof fn law_opened_file_has_a_sound_header(bytes: &[u8], flavor: Layout, r: Result<BaseSegment, OpenError>)
    requires
        BaseSegment::open.ensures((bytes, flavor), r),
        r is Ok,
    ensures
        bytes@.len() >= 64,
        bytes@[0] == 0x54 && bytes@[1] == 0x56 && bytes@[2] == 0x44 && bytes@[3] == 0x4D,
        bytes@[4] == 3,
        2 <= bytes@[5] <= 4,
        bytes@[6] == (if flavor == Layout::Sequential {
            0u8
        } else {
            1u8
        }),
        bytes@[7] <= 1,
        hdr_dim(bytes@) == u32_at(bytes@, 8) && u32_at(bytes@, 8) % 8 == 0,
        hdr_calib(bytes@) == u32_at(bytes@, 12),
        hdr_slots(bytes@) == u64_at(bytes@, 16),
        hdr_nlist(bytes@) == u32_at(bytes@, 24) && u32_at(bytes@, 24) > 0,
        hdr_unique(bytes@) == u64_at(bytes@, 32) && u64_at(bytes@, 32) <= u64_at(bytes@, 16),
        u64_at(bytes@, 16) > 0 ==> u32_at(bytes@, 12) == u32_at(bytes@, 8) && u32_at(bytes@, 8) > 0,
        u64_at(bytes@, 16) == 0 ==> u32_at(bytes@, 12) == 0,
        u32_at(bytes@, 40) < 0x7F80_0000 || u32_at(bytes@, 40) == 0x8000_0000,
{
    reveal(header_error);
    let b = bytes@;
    assert(b.take(4)[0] == b[0] && b.take(4)[1] == b[1] && b.take(4)[2] == b[2] && b.take(4)[3] == b[3]);
}

/// Bit `p` of the code of coordinate `j` lies in plane `p` of its vector, in the
/// byte of every eight coordinates, the first coordinate highest.
pub proof fn law_code_bits_lie_in_planes(packed: Seq<u8>, v: int, j: int, bits: int, dim: int, p: int)
    requires
        0 <= p < bits <= 4,
        0 <= j < dim,
    ensures
        ({
            let byte = packed[v * (bits * (dim / 8)) + p * (dim / 8) + j / 8] as int;
            let code = plane_code(packed, v, j, bits, dim);
            let bit = if j % 8 == 0 {
                byte / 128 % 2
            } else if j % 8 == 1 {
                byte / 64 % 2
            } else if j % 8 == 2 {
                byte / 32 % 2
            } else if j % 8 == 3 {
                byte / 16 % 2
            } else if j % 8 == 4 {
                byte / 8 % 2
            } else if j % 8 == 5 {
                byte / 4 % 2
            } else if j % 8 == 6 {
                byte / 2 % 2
            } else {
                byte % 2
            };
            &&& p == 0 ==> code % 2 == bit
            &&& p == 1 ==> code / 2 % 2 == bit
            &&& p == 2 ==> code / 4 % 2 == bit
            &&& p == 3 ==> code / 8 % 2 == bit
        }),
{
    lemma_code_bit(packed, v, j, bits, dim, bits as nat, p);
    lemma_weights(packed[v * (bits * (dim / 8)) + p * (dim / 8) + j / 8] as int, 7 - j % 8);
    lemma_weights(plane_code(packed, v, j, bits, dim), p);
}

proof fn lemma_weights(x: int, k: int)
    requires
        0 <= k <= 7,
    ensures
        k == 0 ==> bit_of(x, k) == x % 2,
        k == 1 ==> bit_of(x, k) == x / 2 % 2,
        k == 2 ==> bit_of(x, k) == x / 4 % 2,
        k == 3 ==> bit_of(x, k) == x / 8 % 2,
        k == 4 ==> bit_of(x, k) == x / 16 % 2,
        k == 5 ==> bit_of(x, k) == x / 32 % 2,
        k == 6 ==> bit_of(x, k) == x / 64 % 2,
        k == 7 ==> bit_of(x, k) == x / 128 % 2,
{
    assert(x / 1 == x);
}

/// Where a lane of a byte lies in blocks of 32 vectors with `w` bytes each.
pub open spec fn lane_place(v: int, w: int, at: int) -> int {
    v / 32 * (w * 32) + (at * 32 + v % 32)
}

proof fn lemma_lane_place(v: int, n: int, w: int, at: int)
    requires
        0 <= v < n,
        0 <= at < w,
    ensures
        0 <= lane_place(v, w, at) < ceil_div(n, 32) * (w * 32),
        lane_place(v, w, at) / (w * 32) == v / 32,
        lane_place(v, w, at) % (w * 32) == at * 32 + v % 32,
        lane_place(v, w, at) % 32 == v % 32,
        lane_place(v, w, at) % (w * 32) / 32 == at,
{
    let b = v / 32;
    let c = at * 32 + v % 32;
    assert(b < ceil_div(n, 32));
    lemma_flat_bound(b, c, ceil_div(n, 32), w * 32);
    lemma_flat_index(b, c, w * 32);
    assert(b * (w * 32) + c == (b * w + at) * 32 + v % 32) by (nonlinear_arith)
        requires
            c == at * 32 + v % 32,
    ;
    lemma_flat_index(b * w + at, v % 32, 32);
}

proof fn lemma_low_and_high(c: int, b: int)
    requires
        0 <= c < 4,
        0 <= b <= 1,
    ensures
        (c + 4 * b) % 4 == c,
        (c + 4 * b) / 4 == b,
{
}

proof fn lemma_four_digits(a: int, b: int, c: int, d: int)
    requires
        0 <= a < 4,
        0 <= b < 4,
        0 <= c < 4,
        0 <= d < 4,
    ensures
        (64 * a + 16 * b + 4 * c + d) / 64 == a,
        (64 * a + 16 * b + 4 * c + d) / 16 % 4 == b,
        (64 * a + 16 * b + 4 * c + d) / 4 % 4 == c,
        (64 * a + 16 * b + 4 * c + d) % 4 == d,
{
}

/// Codes of three bits repacked in two parts: the low bits of four coordinates
/// to a byte, the first one highest, and the third bits of eight.
pub proof fn law_three_bit_codes_are_parted(packed: &[u8], n: usize, dim: usize, r: (Vec<u8>, Vec<u8>, usize), v: int, j: int)
    requires
        dim % 8 == 0,
        repack_3bit.ensures((packed, n, dim), r),
        0 <= v < n,
        0 <= j < dim,
    ensures
        ({
            let low = r.0@[lane_place(v, dim as int / 4, j / 4)] as int;
            let high = r.1@[lane_place(v, dim as int / 8, j / 8)] as int;
            let code = plane_code(packed@, v, j, 3, dim as int);
            &&& code % 4 == (if j % 4 == 0 {
                low / 64
            } else if j % 4 == 1 {
                low / 16 % 4
            } else if j % 4 == 2 {
                low / 4 % 4
            } else {
                low % 4
            })
            &&& code / 4 == bit_of(high, 7 - j % 8)
            &&& 0 <= code < 8
        }),
{
    let d = dim as int;
    let p = packed@;
    let g = j / 4;
    lemma_lane_place(v, n as int, d / 4, g);
    lemma_lane_place(v, n as int, d / 8, j / 8);
    lemma_code_bound(p, v, 4 * g, 3, d, 2);
    lemma_code_bound(p, v, 4 * g + 1, 3, d, 2);
    lemma_code_bound(p, v, 4 * g + 2, 3, d, 2);
    lemma_code_bound(p, v, 4 * g + 3, 3, d, 2);
    lemma_code_bound(p, v, j, 3, d, 3);
    let low = r.0@[lane_place(v, d / 4, g)] as int;
    assert(low == low_group_byte(p, v, g, d));
    assert(plane_code(p, v, j, 3, d) == code_low(p, v, j, 3, d, 2) + 4 * plane_bit(p, v, 2, j, 3, d));
    assert(j == 4 * g + j % 4);
    let c = code_low(p, v, j, 3, d, 2);
    let b = plane_bit(p, v, 2, j, 3, d);
    assert(0 <= c < 4 && 0 <= b <= 1);
    lemma_low_and_high(c, b);
    let high = r.1@[lane_place(v, d / 8, j / 8)];
    assert(high == p[v * (3 * (d / 8)) + 2 * (d / 8) + j / 8]);
    let c0 = code_low(p, v, 4 * g, 3, d, 2);
    let c1 = code_low(p, v, 4 * g + 1, 3, d, 2);
    let c2 = code_low(p, v, 4 * g + 2, 3, d, 2);
    let c3 = code_low(p, v, 4 * g + 3, 3, d, 2);
    assert(low == 64 * c0 + 16 * c1 + 4 * c2 + c3);
    lemma_four_digits(c0, c1, c2, c3);
}

} // verus!
