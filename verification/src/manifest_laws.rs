//! A manifest gives back what was written, and damage is seen.
use vstd::prelude::*;
use crate::bytes::{
    lemma_u32_round_trip, lemma_u32s_round_trip, lemma_u64_round_trip, lemma_u64s_round_trip, u32_at, u32_bytes,
    u32s_at, u32s_bytes, u64_at, u64_bytes, u64s_at, u64s_bytes,
};
use crate::crc::{crc_of, law_one_changed_byte_is_seen};
use crate::manifest::{
    bitmap_len, chunk_meta_at, chunk_metas_bytes, flags_byte, is_complete, manifest_error, part_bytes,
    part_end, part_head, part_total, partition_is, parts_bytes, parts_end, parts_fit, parts_start, Manifest,
};
use crate::partition::{ChunkMeta, PartitionState};
use crate::segment::or_zero;

verus! {

/// The fields of the fixed part.
proof fn lemma_head(m: Manifest)
    ensures
        m.head().len() == 64,
        m.head()[0] == 0x54 && m.head()[1] == 0x56 && m.head()[2] == 0x46 && m.head()[3] == 0x4D,
        m.head()[4] == 3 && m.head()[5] == m.bit_width,
        m.head()[6] == flags_byte(m.store_vectors, m.clustered),
        m.head().subrange(8, 12) == u32_bytes(m.dim),
        m.head().subrange(12, 16) == u32_bytes(m.tqplus_shift@.len() as u32),
        m.head().subrange(16, 24) == u64_bytes(m.epoch),
        m.head().subrange(24, 28) == u32_bytes(or_zero(m.partition_target)),
        m.head().subrange(28, 32) == u32_bytes(or_zero(m.replica_epsilon)),
        m.head().subrange(32, 36) == u32_bytes(m.next_partition_id),
        m.head().subrange(36, 40) == u32_bytes(m.partitions@.len() as u32),
        m.head().subrange(40, 48) == u64_bytes(m.next_run_generation),
        m.head().subrange(48, 56) == u64_bytes(m.churn_since_check),
        m.head().subrange(56, 60) == u32_bytes(m.runs@.len() as u32),
{
    reveal(Manifest::head);
    let h = m.head();
    assert(h.subrange(8, 12) =~= u32_bytes(m.dim));
    assert(h.subrange(12, 16) =~= u32_bytes(m.tqplus_shift@.len() as u32));
    assert(h.subrange(16, 24) =~= u64_bytes(m.epoch));
    assert(h.subrange(24, 28) =~= u32_bytes(or_zero(m.partition_target)));
    assert(h.subrange(28, 32) =~= u32_bytes(or_zero(m.replica_epsilon)));
    assert(h.subrange(32, 36) =~= u32_bytes(m.next_partition_id));
    assert(h.subrange(36, 40) =~= u32_bytes(m.partitions@.len() as u32));
    assert(h.subrange(40, 48) =~= u64_bytes(m.next_run_generation));
    assert(h.subrange(48, 56) =~= u64_bytes(m.churn_since_check));
    assert(h.subrange(56, 60) =~= u32_bytes(m.runs@.len() as u32));
}

/// A field of a prefix is a field of the whole.
proof fn lemma_field_u32(s: Seq<u8>, h: Seq<u8>, o: int, v: u32)
    requires
        0 <= o,
        o + 4 <= h.len() <= s.len(),
        s.take(h.len() as int) == h,
        h.subrange(o, o + 4) == u32_bytes(v),
    ensures
        u32_at(s, o) == v,
{
    assert(s.subrange(o, o + 4) =~= s.take(h.len() as int).subrange(o, o + 4));
    lemma_u32_round_trip(v, s, o);
}

proof fn lemma_field_u64(s: Seq<u8>, h: Seq<u8>, o: int, v: u64)
    requires
        0 <= o,
        o + 8 <= h.len() <= s.len(),
        s.take(h.len() as int) == h,
        h.subrange(o, o + 8) == u64_bytes(v),
    ensures
        u64_at(s, o) == v,
{
    assert(s.subrange(o, o + 8) =~= s.take(h.len() as int).subrange(o, o + 8));
    lemma_u64_round_trip(v, s, o);
}

/// What the fixed part says, read from a whole that starts with it.
proof fn lemma_head_fields(m: Manifest, s: Seq<u8>)
    requires
        m.head().len() <= s.len(),
        s.take(m.head().len() as int) == m.head(),
    ensures
        s.len() >= 64,
        s[0] == 0x54 && s[1] == 0x56 && s[2] == 0x46 && s[3] == 0x4D && s[4] == 3,
        s[5] == m.bit_width,
        s[6] == flags_byte(m.store_vectors, m.clustered),
        u32_at(s, 8) == m.dim,
        u32_at(s, 12) == m.tqplus_shift@.len() as u32,
        u64_at(s, 16) == m.epoch,
        u32_at(s, 24) == or_zero(m.partition_target),
        u32_at(s, 28) == or_zero(m.replica_epsilon),
        u32_at(s, 32) == m.next_partition_id,
        u32_at(s, 36) == m.partitions@.len() as u32,
        u64_at(s, 40) == m.next_run_generation,
        u64_at(s, 48) == m.churn_since_check,
        u32_at(s, 56) == m.runs@.len() as u32,
{
    lemma_head(m);
    let h = m.head();
    let t = s.take(64);
    assert(t[0] == s[0] && t[1] == s[1] && t[2] == s[2] && t[3] == s[3] && t[4] == s[4] && t[5] == s[5] && t[6]
        == s[6]);
    lemma_field_u32(s, h, 8, m.dim);
    lemma_field_u32(s, h, 12, m.tqplus_shift@.len() as u32);
    lemma_field_u64(s, h, 16, m.epoch);
    lemma_field_u32(s, h, 24, or_zero(m.partition_target));
    lemma_field_u32(s, h, 28, or_zero(m.replica_epsilon));
    lemma_field_u32(s, h, 32, m.next_partition_id);
    lemma_field_u32(s, h, 36, m.partitions@.len() as u32);
    lemma_field_u64(s, h, 40, m.next_run_generation);
    lemma_field_u64(s, h, 48, m.churn_since_check);
    lemma_field_u32(s, h, 56, m.runs@.len() as u32);
}

proof fn lemma_metas_len(chunks: Seq<ChunkMeta>)
    ensures
        chunk_metas_bytes(chunks).len() == 16 * chunks.len(),
    decreases chunks.len(),
{
    if chunks.len() > 0 {
        lemma_metas_len(chunks.drop_last());
    }
}

/// Where a chunk record lies.
proof fn lemma_meta_within(chunks: Seq<ChunkMeta>, k: int)
    requires
        0 <= k < chunks.len(),
    ensures
        16 * k + 16 <= chunk_metas_bytes(chunks).len(),
        chunk_metas_bytes(chunks).subrange(16 * k, 16 * k + 8) == u64_bytes(chunks[k].offset),
        chunk_metas_bytes(chunks).subrange(16 * k + 8, 16 * k + 12) == u32_bytes(chunks[k].n_rows),
    decreases chunks.len(),
{
    let init = chunks.drop_last();
    let all = chunk_metas_bytes(chunks);
    lemma_metas_len(chunks);
    lemma_metas_len(init);
    if k < init.len() {
        lemma_meta_within(init, k);
        let part = chunk_metas_bytes(init);
        assert(all.subrange(16 * k, 16 * k + 8) =~= part.subrange(16 * k, 16 * k + 8));
        assert(all.subrange(16 * k + 8, 16 * k + 12) =~= part.subrange(16 * k + 8, 16 * k + 12));
    } else {
        assert(all.subrange(16 * k, 16 * k + 8) =~= u64_bytes(chunks.last().offset));
        assert(all.subrange(16 * k + 8, 16 * k + 12) =~= u32_bytes(chunks.last().n_rows));
    }
}

/// The fields of a partition record's fixed part.
proof fn lemma_part_head(p: PartitionState)
    ensures
        part_head(p).len() == 48,
        part_head(p).subrange(0, 4) == u32_bytes(p.partition_id),
        part_head(p).subrange(4, 8) == u32_bytes(p.generation),
        part_head(p).subrange(8, 16) == u64_bytes(p.n_rows),
        part_head(p).subrange(16, 24) == u64_bytes(p.live_rows),
        part_head(p).subrange(24, 32) == u64_bytes(p.live_primary),
        part_head(p).subrange(32, 40) == u64_bytes(p.file_bytes),
        part_head(p).subrange(40, 44) == u32_bytes(p.chunks@.len() as u32),
{
    reveal(part_head);
    let h = part_head(p);
    assert(h.subrange(0, 4) =~= u32_bytes(p.partition_id));
    assert(h.subrange(4, 8) =~= u32_bytes(p.generation));
    assert(h.subrange(8, 16) =~= u64_bytes(p.n_rows));
    assert(h.subrange(16, 24) =~= u64_bytes(p.live_rows));
    assert(h.subrange(24, 32) =~= u64_bytes(p.live_primary));
    assert(h.subrange(32, 40) =~= u64_bytes(p.file_bytes));
    assert(h.subrange(40, 44) =~= u32_bytes(p.chunks@.len() as u32));
}

/// A piece of a piece.
proof fn lemma_sub(s: Seq<u8>, b: Seq<u8>, o: int, x: int, y: int)
    requires
        0 <= o,
        o + b.len() <= s.len(),
        s.subrange(o, o + b.len()) == b,
        0 <= x <= y <= b.len(),
    ensures
        s.subrange(o + x, o + y) == b.subrange(x, y),
{
    assert(s.subrange(o + x, o + y) =~= s.subrange(o, o + b.len()).subrange(x, y));
}

/// What the fixed part of a record says.
proof fn lemma_part_fixed(s: Seq<u8>, o: int, p: PartitionState)
    requires
        0 <= o,
        o + 48 <= s.len(),
        s.subrange(o, o + 48) == part_head(p),
    ensures
        u32_at(s, o) == p.partition_id,
        u32_at(s, o + 4) == p.generation,
        u64_at(s, o + 8) == p.n_rows,
        u64_at(s, o + 16) == p.live_rows,
        u64_at(s, o + 24) == p.live_primary,
        u64_at(s, o + 32) == p.file_bytes,
        u32_at(s, o + 40) == p.chunks@.len() as u32,
{
    let h = part_head(p);
    lemma_part_head(p);
    lemma_sub(s, h, o, 0, 4);
    lemma_u32_round_trip(p.partition_id, s, o);
    lemma_sub(s, h, o, 4, 8);
    lemma_u32_round_trip(p.generation, s, o + 4);
    lemma_sub(s, h, o, 8, 16);
    lemma_u64_round_trip(p.n_rows, s, o + 8);
    lemma_sub(s, h, o, 16, 24);
    lemma_u64_round_trip(p.live_rows, s, o + 16);
    lemma_sub(s, h, o, 24, 32);
    lemma_u64_round_trip(p.live_primary, s, o + 24);
    lemma_sub(s, h, o, 32, 40);
    lemma_u64_round_trip(p.file_bytes, s, o + 32);
    lemma_sub(s, h, o, 40, 44);
    lemma_u32_round_trip(p.chunks@.len() as u32, s, o + 40);
}

/// Chunk records give back the chunks.
proof fn lemma_metas(s: Seq<u8>, o: int, chunks: Seq<ChunkMeta>)
    requires
        0 <= o,
        o + 16 * chunks.len() <= s.len(),
        s.subrange(o, o + 16 * chunks.len()) == chunk_metas_bytes(chunks),
    ensures
        forall|k: int| 0 <= k < chunks.len() ==> chunk_meta_at(s, o + 16 * k) == #[trigger] chunks[k],
{
    let b = chunk_metas_bytes(chunks);
    lemma_metas_len(chunks);
    assert forall|k: int| 0 <= k < chunks.len() implies chunk_meta_at(s, o + 16 * k) == #[trigger] chunks[k] by {
        lemma_meta_within(chunks, k);
        lemma_sub(s, b, o, 16 * k, 16 * k + 8);
        lemma_sub(s, b, o, 16 * k + 8, 16 * k + 12);
        lemma_u64_round_trip(chunks[k].offset, s, o + 16 * k);
        lemma_u32_round_trip(chunks[k].n_rows, s, o + 16 * k + 8);
    }
}

/// Three pieces side by side.
proof fn lemma_three(s: Seq<u8>, o: int, a: Seq<u8>, b: Seq<u8>, c: Seq<u8>)
    requires
        0 <= o,
        o + a.len() + b.len() + c.len() <= s.len(),
        s.subrange(o, o + a.len() + b.len() + c.len()) == a + b + c,
    ensures
        s.subrange(o, o + a.len()) == a,
        s.subrange(o + a.len(), o + a.len() + b.len()) == b,
        s.subrange(o + a.len() + b.len(), o + a.len() + b.len() + c.len()) == c,
{
    let w = a + b + c;
    let (x, y, z) = (a.len() as int, a.len() + b.len(), a.len() + b.len() + c.len());
    lemma_sub(s, w, o, 0, x);
    lemma_sub(s, w, o, x, y as int);
    lemma_sub(s, w, o, y as int, z as int);
    assert(w.subrange(0, x) =~= a);
    assert(w.subrange(x, y as int) =~= b);
    assert(w.subrange(y as int, z as int) =~= c);
}

/// A partition record gives back its partition.
proof fn lemma_part_record(s: Seq<u8>, o: int, p: PartitionState)
    requires
        p.chunks@.len() <= u32::MAX,
        p.dead@.len() == bitmap_len(p.n_rows),
        0 <= o,
        o + part_bytes(p).len() <= s.len(),
        s.subrange(o, o + part_bytes(p).len()) == part_bytes(p),
    ensures
        part_end(s, o) == o + part_bytes(p).len(),
        o + 48 <= part_end(s, o),
        partition_is(p, s, o),
{
    lemma_part_head(p);
    lemma_metas_len(p.chunks@);
    lemma_three(s, o, part_head(p), chunk_metas_bytes(p.chunks@), p.dead@);
    lemma_part_fixed(s, o, p);
    lemma_metas(s, o + 48, p.chunks@);
    let got = Seq::new(u32_at(s, o + 40) as nat, |k: int| chunk_meta_at(s, o + 48 + 16 * k));
    assert(got =~= p.chunks@);
}

/// Records before a record do not reach beyond it.
proof fn lemma_parts_bytes_prefix(parts: Seq<PartitionState>, j: int, k: int)
    requires
        0 <= j < k <= parts.len(),
    ensures
        parts_bytes(parts, j).len() + part_bytes(parts[j]).len() <= parts_bytes(parts, k).len(),
        parts_bytes(parts, k).subrange(
            parts_bytes(parts, j).len() as int,
            (parts_bytes(parts, j).len() + part_bytes(parts[j]).len()) as int,
        ) == part_bytes(parts[j]),
    decreases k,
{
    let a = parts_bytes(parts, j).len() as int;
    let b = a + part_bytes(parts[j]).len();
    let all = parts_bytes(parts, k);
    if j == k - 1 {
        assert(all.subrange(a, b) =~= part_bytes(parts[j]));
    } else {
        lemma_parts_bytes_prefix(parts, j, k - 1);
        assert(all.subrange(a, b) =~= parts_bytes(parts, k - 1).subrange(a, b));
    }
}

/// The partition records give back the partitions.
proof fn lemma_parts(s: Seq<u8>, o: int, parts: Seq<PartitionState>, k: int)
    requires
        0 <= k <= parts.len(),
        forall|j: int|
            0 <= j < parts.len() ==> (#[trigger] parts[j]).chunks@.len() <= u32::MAX && parts[j].dead@.len()
                == bitmap_len(parts[j].n_rows),
        0 <= o,
        o + parts_bytes(parts, parts.len() as int).len() <= s.len(),
        s.subrange(o, o + parts_bytes(parts, parts.len() as int).len()) == parts_bytes(
            parts,
            parts.len() as int,
        ),
    ensures
        parts_end(s, o, k) == o + parts_bytes(parts, k).len(),
        forall|j: int|
            0 <= j < k ==> {
                &&& partition_is(#[trigger] parts[j], s, parts_end(s, o, j))
                &&& parts_end(s, o, j) + 48 <= part_end(s, parts_end(s, o, j))
                &&& part_end(s, parts_end(s, o, j)) <= o + parts_bytes(parts, parts.len() as int).len()
            },
    decreases k,
{
    if k > 0 {
        let n = parts.len() as int;
        let all = parts_bytes(parts, n);
        lemma_parts(s, o, parts, k - 1);
        lemma_parts_bytes_prefix(parts, k - 1, n);
        let a = parts_bytes(parts, k - 1).len() as int;
        let b = a + part_bytes(parts[k - 1]).len();
        let w = s.subrange(o, o + all.len());
        assert(s.subrange(o + a, o + b) =~= w.subrange(a, b));
        assert(parts[k - 1].chunks@.len() <= u32::MAX);
        lemma_part_record(s, o + a, parts[k - 1]);
    }
}

/// Seven pieces side by side.
proof fn lemma_seven(
    a: Seq<u8>,
    b: Seq<u8>,
    c: Seq<u8>,
    d: Seq<u8>,
    e: Seq<u8>,
    f: Seq<u8>,
    g: Seq<u8>,
    s: Seq<u8>,
)
    requires
        s == a + b + c + d + e + f + g,
    ensures
        ({
            let x1 = a.len() as int;
            let x2 = x1 + b.len();
            let x3 = x2 + c.len();
            let x4 = x3 + d.len();
            let x5 = x4 + e.len();
            let x6 = x5 + f.len();
            &&& s.len() == x6 + g.len()
            &&& s.take(x1) == a
            &&& s.subrange(x1, x2) == b
            &&& s.subrange(x2, x3) == c
            &&& s.subrange(x3, x4) == d
            &&& s.subrange(x4, x5) == e
            &&& s.subrange(x5, x6) == f
            &&& s.subrange(x6, x6 + g.len()) == g
            &&& s.take(x6) == a + b + c + d + e + f
        }),
{
    let x1 = a.len() as int;
    let x2 = x1 + b.len();
    let x3 = x2 + c.len();
    let x4 = x3 + d.len();
    let x5 = x4 + e.len();
    let x6 = x5 + f.len();
    assert(s.take(x1) =~= a);
    assert(s.subrange(x1, x2) =~= b);
    assert(s.subrange(x2, x3) =~= c);
    assert(s.subrange(x3, x4) =~= d);
    assert(s.subrange(x4, x5) =~= e);
    assert(s.subrange(x5, x6) =~= f);
    assert(s.subrange(x6, x6 + g.len()) =~= g);
    assert(s.take(x6) =~= a + b + c + d + e + f);
}

/// Where the pieces of a written manifest lie.
proof fn lemma_pieces(m: Manifest)
    requires
        m.writable(),
    ensures
        ({
            let s = m.bytes();
            let c = m.tqplus_shift@.len() as int;
            let r0 = 64 + 8 * c;
            let p0 = r0 + 8 * m.runs@.len();
            let stop = p0 + parts_bytes(m.partitions@, m.partitions@.len() as int).len();
            &&& s.len() == stop + 12
            &&& s.take(64) == m.head()
            &&& s.subrange(64, 64 + 4 * c) == u32s_bytes(m.tqplus_shift@)
            &&& s.subrange(64 + 4 * c, r0) == u32s_bytes(m.tqplus_scale@)
            &&& s.subrange(r0, p0) == u64s_bytes(m.runs@)
            &&& s.subrange(p0, stop) == parts_bytes(m.partitions@, m.partitions@.len() as int)
            &&& s.subrange(stop, stop + 8) == u64_bytes(m.centroids_generation)
            &&& s.subrange(stop + 8, stop + 12) == u32_bytes(crc_of(m.body()))
            &&& s.take(s.len() - 4) == m.body()
        }),
{
    let parts = parts_bytes(m.partitions@, m.partitions@.len() as int);
    assert(m.head().len() == 64) by {
        lemma_head(m);
    }
    lemma_seven(
        m.head(),
        u32s_bytes(m.tqplus_shift@),
        u32s_bytes(m.tqplus_scale@),
        u64s_bytes(m.runs@),
        parts,
        u64_bytes(m.centroids_generation),
        u32_bytes(crc_of(m.body())),
        m.bytes(),
    );
}

/// What numbers at known places say.
proof fn lemma_tables_at(
    s: Seq<u8>,
    shift: Seq<u32>,
    scale: Seq<u32>,
    runs: Seq<u64>,
    generation: u64,
    crc: u32,
    stop: int,
)
    requires
        scale.len() == shift.len(),
        64 + 8 * shift.len() as int + 8 * runs.len() as int <= stop,
        s.len() == stop + 12,
        s.subrange(64, 64 + 4 * shift.len() as int) == u32s_bytes(shift),
        s.subrange(64 + 4 * shift.len() as int, 64 + 8 * shift.len() as int) == u32s_bytes(scale),
        s.subrange(64 + 8 * shift.len() as int, 64 + 8 * shift.len() as int + 8 * runs.len() as int) == u64s_bytes(runs),
        s.subrange(stop, stop + 8) == u64_bytes(generation),
        s.subrange(stop + 8, stop + 12) == u32_bytes(crc),
    ensures
        u32s_at(s, 64, shift.len()) == shift,
        u32s_at(s, 64 + 4 * shift.len() as int, shift.len()) == scale,
        u64s_at(s, 64 + 8 * shift.len() as int, runs.len()) == runs,
        u64_at(s, stop) == generation,
        u32_at(s, stop + 8) == crc,
{
    let c = shift.len() as int;
    assert(u32s_at(s, 64, shift.len()) == shift) by {
        lemma_u32s_round_trip(shift, s, 64);
    }
    assert(u32s_at(s, 64 + 4 * c, shift.len()) == scale) by {
        lemma_u32s_round_trip(scale, s, 64 + 4 * c);
    }
    assert(u64s_at(s, 64 + 8 * c, runs.len()) == runs) by {
        lemma_u64s_round_trip(runs, s, 64 + 8 * c);
    }
    assert(u64_at(s, stop) == generation) by {
        lemma_u64_round_trip(generation, s, stop);
    }
    assert(u32_at(s, stop + 8) == crc) by {
        lemma_u32_round_trip(crc, s, stop + 8);
    }
}

/// Where the tables of a written manifest lie, and what they say.
proof fn lemma_tables(m: Manifest)
    requires
        m.writable(),
    ensures
        ({
            let s = m.bytes();
            let c = m.tqplus_shift@.len() as int;
            let r0 = 64 + 8 * c;
            let p0 = r0 + 8 * m.runs@.len();
            let stop = p0 + parts_bytes(m.partitions@, m.partitions@.len() as int).len();
            &&& s.len() == stop + 12
            &&& s.take(64) == m.head()
            &&& s.take(s.len() - 4) == m.body()
            &&& u32_at(s, s.len() - 4) == crc_of(m.body())
            &&& u32s_at(s, 64, c as nat) == m.tqplus_shift@
            &&& u32s_at(s, 64 + 4 * c, c as nat) == m.tqplus_scale@
            &&& u64s_at(s, r0, m.runs@.len()) == m.runs@
            &&& s.subrange(p0, stop) == parts_bytes(m.partitions@, m.partitions@.len() as int)
            &&& u64_at(s, stop) == m.centroids_generation
        }),
{
    let parts = parts_bytes(m.partitions@, m.partitions@.len() as int);
    let stop = 64 + 8 * m.tqplus_shift@.len() as int + 8 * m.runs@.len() as int + parts.len() as int;
    lemma_pieces(m);
    lemma_tables_at(
        m.bytes(),
        m.tqplus_shift@,
        m.tqplus_scale@,
        m.runs@,
        m.centroids_generation,
        crc_of(m.body()),
        stop,
    );
}

/// A file with these tables is accepted and says what the manifest says.
proof fn lemma_says(m: Manifest, s: Seq<u8>, body: Seq<u8>, parts: Seq<u8>, p0: int)
    requires
        m.writable(),
        parts == parts_bytes(m.partitions@, m.partitions@.len() as int),
        p0 == 64 + 8 * m.tqplus_shift@.len() + 8 * m.runs@.len(),
        s.len() == p0 + parts.len() + 12,
        s.take(64) == m.head(),
        s.take(s.len() - 4) == body,
        u32_at(s, s.len() - 4) == crc_of(body),
        u32s_at(s, 64, m.tqplus_shift@.len()) == m.tqplus_shift@,
        u32s_at(s, 64 + 4 * m.tqplus_shift@.len() as int, m.tqplus_shift@.len()) == m.tqplus_scale@,
        u64s_at(s, 64 + 8 * m.tqplus_shift@.len() as int, m.runs@.len()) == m.runs@,
        s.subrange(p0, p0 + parts.len()) == parts,
        u64_at(s, p0 + parts.len()) == m.centroids_generation,
    ensures
        manifest_error(s) is None,
        m.holds(s),
{
    let n = m.partitions@.len() as int;
    lemma_head(m);
    lemma_head_fields(m, s);
    assert(parts_start(s) == p0);
    assert(part_total(s) == n);
    lemma_parts(s, p0, m.partitions@, n);
    assert(parts_fit(s, p0, n, s.len() - 4)) by {
        assert forall|j: int| 0 <= j < n implies #[trigger] parts_end(s, p0, j) + 48 <= s.len() - 4 && part_end(
            s,
            parts_end(s, p0, j),
        ) <= s.len() - 4 by {
            assert(partition_is(m.partitions@[j], s, parts_end(s, p0, j)));
        }
    }
    assert(is_complete(s));
    assert(s[6] % 2 == 1 <==> m.store_vectors);
    assert(s[6] / 2 % 2 == 1 <==> m.clustered);
}

/// A written manifest is accepted and says what was written.
pub proof fn law_manifest_round_trip(m: Manifest)
    requires
        m.writable(),
    ensures
        manifest_error(m.bytes()) is None,
        m.holds(m.bytes()),
{
    let parts = parts_bytes(m.partitions@, m.partitions@.len() as int);
    let p0 = 64 + 8 * m.tqplus_shift@.len() + 8 * m.runs@.len();
    lemma_tables(m);
    lemma_says(m, m.bytes(), m.body(), parts, p0 as int);
}

impl Manifest {
    /// The same state, value for value.
    pub open spec fn same(self, o: Manifest) -> bool {
        &&& self.bit_width == o.bit_width
        &&& self.store_vectors == o.store_vectors
        &&& self.clustered == o.clustered
        &&& self.dim == o.dim
        &&& self.epoch == o.epoch
        &&& self.partition_target == o.partition_target
        &&& self.replica_epsilon == o.replica_epsilon
        &&& self.next_partition_id == o.next_partition_id
        &&& self.next_run_generation == o.next_run_generation
        &&& self.churn_since_check == o.churn_since_check
        &&& self.tqplus_shift@ == o.tqplus_shift@
        &&& self.tqplus_scale@ == o.tqplus_scale@
        &&& self.runs@ == o.runs@
        &&& self.partitions@.len() == o.partitions@.len()
        &&& forall|j: int|
            0 <= j < self.partitions@.len() ==> (#[trigger] self.partitions@[j]).same(o.partitions@[j])
        &&& self.centroids_generation == o.centroids_generation
    }
}

impl PartitionState {
    /// The same partition, value for value.
    pub open spec fn same(self, o: PartitionState) -> bool {
        &&& self.partition_id == o.partition_id
        &&& self.generation == o.generation
        &&& self.n_rows == o.n_rows
        &&& self.live_rows == o.live_rows
        &&& self.live_primary == o.live_primary
        &&& self.chunks@ == o.chunks@
        &&& self.dead@ == o.dead@
        &&& self.file_bytes == o.file_bytes
    }
}

/// What is read from a written manifest is the state that was written.
pub proof fn law_reading_gives_back(written: Manifest, read: Manifest)
    requires
        written.writable(),
        read.holds(written.bytes()),
    ensures
        read.same(written),
{
    law_manifest_round_trip(written);
    let s = written.bytes();
    assert forall|j: int| 0 <= j < read.partitions@.len() implies (#[trigger] read.partitions@[j]).same(
        written.partitions@[j],
    ) by {
        assert(partition_is(read.partitions@[j], s, parts_end(s, parts_start(s), j)));
        assert(partition_is(written.partitions@[j], s, parts_end(s, parts_start(s), j)));
    }
}

/// A manifest with one byte changed is refused.
pub proof fn law_damaged_manifest_is_refused(s: Seq<u8>, p: int, v: u8)
    requires
        manifest_error(s) is None,
        0 <= p < s.len(),
        v != s[p],
    ensures
        manifest_error(s.update(p, v)) is Some,
{
    let t = s.update(p, v);
    let end = s.len() - 4;
    if p >= 5 {
        if p < end {
            law_one_changed_byte_is_seen(s.take(end), t.take(end), p);
            assert(u32_at(t, end) == u32_at(s, end));
        } else {
            assert(s.take(end) =~= t.take(end));
            let (a, b, c, d) = (s[end], s[end + 1], s[end + 2], s[end + 3]);
            let (e, f, g, h) = (t[end], t[end + 1], t[end + 2], t[end + 3]);
            assert(u32_at(s, end) == a + 0x100 * b + 0x1_0000 * c + 0x100_0000 * d);
            assert(u32_at(t, end) == e + 0x100 * f + 0x1_0000 * g + 0x100_0000 * h);
            assert(p == end || p == end + 1 || p == end + 2 || p == end + 3);
            assert(u32_at(s, end) != u32_at(t, end));
        }
    }
}

} // verus!
