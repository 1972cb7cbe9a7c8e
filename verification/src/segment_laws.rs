//! A segment file holds what was written into it.
use vstd::prelude::*;
use crate::bytes::{
    lemma_u32_round_trip, lemma_u64_round_trip, lemma_u64s_round_trip, u32_at, u32_bytes, u64_at, u64_bytes,
    u64s_at, u64s_bytes,
};
use crate::pack::{bit_of, two_to};
use crate::sections::{lemma_image, lens_of, section_start, zeros};
use crate::segment::{
    bitmap_byte, bitmap_of, count_blocks_before, firsts, id_slots, lemma_rows_before_monotone,
    lemma_section_lengths, lemma_slot_headroom, lemma_table_sums, or_zero, primaries, seconds, Segment,
};
use crate::sort::{lemma_sorted_pairs, pair_leq, sorted_pairs};
use crate::tvdm::{
    bitmap_bit, block_bytes, blocks_before, clear_bits, content_error, flags_in, hdr_calib, hdr_dim,
    hdr_epsilon, hdr_nlist, hdr_slots, hdr_target, hdr_unique, header_error, lens_in, magic, non_decreasing,
    open_error, slots_before, table_error, table_of, tiles, u64_section,
};

verus! {

/// Section `k` stands in the file where the layout puts it.
pub proof fn lemma_section_in_file(s: Segment, k: int)
    requires
        s.wf(),
        0 <= k < 12,
    ensures
        s.file().len() == section_start(s.lens(), 12),
        0 <= section_start(s.lens(), k),
        section_start(s.lens(), k) + s.sections()[k].len() <= s.file().len(),
        s.file().subrange(
            section_start(s.lens(), k),
            section_start(s.lens(), k) + s.sections()[k].len(),
        ) == s.sections()[k],
        s.sections()[k].len() == s.lens()[k],
{
    lemma_section_lengths(s);
    lemma_image(s.sections());
    assert(lens_of(s.sections())[k] == s.sections()[k].len());
    assert(0 <= section_start(lens_of(s.sections()), k));
}

/// The pieces of a header.
proof fn lemma_header_parts(s: Segment)
    requires
        s.wf(),
    ensures
        s.header().len() == 64,
        s.header().subrange(0, 4) == magic(),
        s.header()[4] == 3,
        s.header()[5] == s.bit_width,
        s.header()[6] == s.flavor.tag_byte(),
        s.header()[7] == if s.has_vectors {
            1
        } else {
            0int
        },
        s.header().subrange(8, 12) == u32_bytes(s.dim as u32),
        s.header().subrange(12, 16) == u32_bytes(s.calib() as u32),
        s.header().subrange(16, 24) == u64_bytes(s.ids@.len() as u64),
        s.header().subrange(24, 28) == u32_bytes(s.counts@.len() as u32),
        s.header().subrange(28, 32) == u32_bytes(or_zero(s.partition_target)),
        s.header().subrange(32, 40) == u64_bytes(primaries(s.replica@) as u64),
        s.header().subrange(40, 44) == u32_bytes(or_zero(s.replica_epsilon)),
{
    reveal(Segment::header);
    let h0 = magic() + seq![
        3u8,
        s.bit_width as u8,
        s.flavor.tag_byte(),
        if s.has_vectors {
            1u8
        } else {
            0u8
        },
    ];
    let h1 = h0 + u32_bytes(s.dim as u32);
    let h2 = h1 + u32_bytes(s.calib() as u32);
    let h3 = h2 + u64_bytes(s.ids@.len() as u64);
    let h4 = h3 + u32_bytes(s.counts@.len() as u32);
    let h5 = h4 + u32_bytes(or_zero(s.partition_target));
    let h6 = h5 + u64_bytes(primaries(s.replica@) as u64);
    let h7 = h6 + u32_bytes(or_zero(s.replica_epsilon));
    let h = h7 + zeros(20);
    assert(h == s.header());
    assert(h0.len() == 8 && h1.len() == 12 && h2.len() == 16 && h3.len() == 24 && h4.len() == 28);
    assert(h5.len() == 32 && h6.len() == 40 && h7.len() == 44);
    assert(h.take(44) =~= h7);
    assert(h7.take(40) =~= h6);
    assert(h6.take(32) =~= h5);
    assert(h5.take(28) =~= h4);
    assert(h4.take(24) =~= h3);
    assert(h3.take(16) =~= h2);
    assert(h2.take(12) =~= h1);
    assert(h1.take(8) =~= h0);
    assert forall|i: int| 0 <= i < 8 implies #[trigger] h[i] == h0[i] by {
        assert(h[i] == h7[i] && h7[i] == h6[i] && h6[i] == h5[i] && h5[i] == h4[i]);
        assert(h4[i] == h3[i] && h3[i] == h2[i] && h2[i] == h1[i] && h1[i] == h0[i]);
    }
    assert(h.subrange(0, 4) =~= magic());
    assert(h.subrange(40, 44) =~= h7.subrange(40, 44));
    assert(h7.subrange(40, 44) =~= u32_bytes(or_zero(s.replica_epsilon)));
    assert(h.subrange(32, 40) =~= h6.subrange(32, 40)) by {
        assert(h6.subrange(32, 40) =~= h7.subrange(32, 40));
    }
    assert(h6.subrange(32, 40) =~= u64_bytes(primaries(s.replica@) as u64));
    assert(h.subrange(28, 32) =~= h5.subrange(28, 32)) by {
        assert(h5.subrange(28, 32) =~= h6.subrange(28, 32));
        assert(h6.subrange(28, 32) =~= h7.subrange(28, 32));
    }
    assert(h5.subrange(28, 32) =~= u32_bytes(or_zero(s.partition_target)));
    assert(h.subrange(24, 28) =~= h4.subrange(24, 28)) by {
        assert(h4.subrange(24, 28) =~= h5.subrange(24, 28));
        assert(h5.subrange(24, 28) =~= h6.subrange(24, 28));
        assert(h6.subrange(24, 28) =~= h7.subrange(24, 28));
    }
    assert(h4.subrange(24, 28) =~= u32_bytes(s.counts@.len() as u32));
    assert(h.subrange(16, 24) =~= h3.subrange(16, 24)) by {
        assert(h3.subrange(16, 24) =~= h4.subrange(16, 24));
        assert(h4.subrange(16, 24) =~= h5.subrange(16, 24));
        assert(h5.subrange(16, 24) =~= h6.subrange(16, 24));
        assert(h6.subrange(16, 24) =~= h7.subrange(16, 24));
    }
    assert(h3.subrange(16, 24) =~= u64_bytes(s.ids@.len() as u64));
    assert(h.subrange(12, 16) =~= h2.subrange(12, 16)) by {
        assert(h2.subrange(12, 16) =~= h3.subrange(12, 16));
        assert(h3.subrange(12, 16) =~= h4.subrange(12, 16));
        assert(h4.subrange(12, 16) =~= h5.subrange(12, 16));
        assert(h5.subrange(12, 16) =~= h6.subrange(12, 16));
        assert(h6.subrange(12, 16) =~= h7.subrange(12, 16));
    }
    assert(h2.subrange(12, 16) =~= u32_bytes(s.calib() as u32));
    assert(h.subrange(8, 12) =~= h1.subrange(8, 12)) by {
        assert(h1.subrange(8, 12) =~= h2.subrange(8, 12));
        assert(h2.subrange(8, 12) =~= h3.subrange(8, 12));
        assert(h3.subrange(8, 12) =~= h4.subrange(8, 12));
        assert(h4.subrange(8, 12) =~= h5.subrange(8, 12));
        assert(h5.subrange(8, 12) =~= h6.subrange(8, 12));
        assert(h6.subrange(8, 12) =~= h7.subrange(8, 12));
    }
    assert(h1.subrange(8, 12) =~= u32_bytes(s.dim as u32));
}

/// A prefix of a file reads like the file.
proof fn lemma_subrange_of_prefix(b: Seq<u8>, h: Seq<u8>, lo: int, hi: int)
    requires
        0 <= lo <= hi <= h.len() <= b.len(),
        b.subrange(0, h.len() as int) == h,
    ensures
        b.subrange(lo, hi) == h.subrange(lo, hi),
{
    assert forall|i: int| 0 <= i < hi - lo implies b.subrange(lo, hi)[i] == h.subrange(lo, hi)[i] by {
        assert(b.subrange(0, h.len() as int)[lo + i] == b[lo + i]);
    }
    assert(b.subrange(lo, hi) =~= h.subrange(lo, hi));
}

/// The header reads back.
proof fn lemma_header_values(s: Segment)
    requires
        s.wf(),
    ensures
        s.file().len() >= 64,
        s.file().take(4) == magic(),
        s.file()[4] == 3,
        s.file()[5] == s.bit_width,
        s.file()[6] == s.flavor.tag_byte(),
        s.file()[7] == if s.has_vectors {
            1
        } else {
            0int
        },
        hdr_dim(s.file()) == s.dim,
        hdr_calib(s.file()) == s.calib(),
        hdr_slots(s.file()) == s.ids@.len(),
        hdr_nlist(s.file()) == s.counts@.len(),
        hdr_target(s.file()) == or_zero(s.partition_target),
        hdr_unique(s.file()) == primaries(s.replica@),
        hdr_epsilon(s.file()) == or_zero(s.replica_epsilon),
{
    let b = s.file();
    let h = s.header();
    lemma_section_in_file(s, 0);
    lemma_header_parts(s);
    lemma_primaries_bound(s.replica@);
    lemma_slot_headroom(s);
    assert(b.subrange(0, 64) == h);
    assert(b.take(4) =~= b.subrange(0, 4));
    lemma_subrange_of_prefix(b, h, 0, 4);
    assert forall|i: int| 0 <= i < 64 implies #[trigger] b[i] == h[i] by {
        assert(b.subrange(0, 64)[i] == b[i]);
    }
    lemma_u32_field(b, h, 8, s.dim as u32);
    lemma_u32_field(b, h, 12, s.calib() as u32);
    lemma_u64_field(b, h, 16, s.ids@.len() as u64);
    lemma_u32_field(b, h, 24, s.counts@.len() as u32);
    lemma_u32_field(b, h, 28, or_zero(s.partition_target));
    lemma_u64_field(b, h, 32, primaries(s.replica@) as u64);
    lemma_u32_field(b, h, 40, or_zero(s.replica_epsilon));
}

proof fn lemma_u32_field(b: Seq<u8>, h: Seq<u8>, o: int, v: u32)
    requires
        0 <= o,
        o + 4 <= h.len() <= b.len(),
        b.subrange(0, h.len() as int) == h,
        h.subrange(o, o + 4) == u32_bytes(v),
    ensures
        u32_at(b, o) == v,
{
    lemma_subrange_of_prefix(b, h, o, o + 4);
    lemma_u32_round_trip(v, b, o);
}

proof fn lemma_u64_field(b: Seq<u8>, h: Seq<u8>, o: int, v: u64)
    requires
        0 <= o,
        o + 8 <= h.len() <= b.len(),
        b.subrange(0, h.len() as int) == h,
        h.subrange(o, o + 8) == u64_bytes(v),
    ensures
        u64_at(b, o) == v,
{
    lemma_subrange_of_prefix(b, h, o, o + 8);
    lemma_u64_round_trip(v, b, o);
}

proof fn lemma_primaries_bound(replica: Seq<bool>)
    ensures
        0 <= primaries(replica) <= replica.len(),
    decreases replica.len(),
{
    if replica.len() > 0 {
        lemma_primaries_bound(replica.drop_last());
    }
}

/// The partition table reads back.
proof fn lemma_table_values(s: Segment)
    requires
        s.wf(),
    ensures
        table_of(s.file()) == s.table(),
        s.file().len() >= 64 + 24 * s.counts@.len(),
{
    let b = s.file();
    let w = s.table_words();
    lemma_header_values(s);
    lemma_section_in_file(s, 1);
    lemma_lens_values(s);
    assert(section_start(s.lens(), 0) == 0);
    assert(section_start(s.lens(), 1) == 64);
    lemma_u64s_round_trip(w, b, 64);
    assert forall|p: int| 0 <= p < s.counts@.len() implies #[trigger] table_of(b)[p] == s.table()[p] by {
        let r = u64s_at(b, 64, w.len());
        assert(r[3 * p] == w[3 * p] && r[3 * p + 1] == w[3 * p + 1] && r[3 * p + 2] == w[3 * p + 2]);
        assert(64 + 8 * (3 * p) == 64 + 24 * p);
        assert(64 + 8 * (3 * p + 1) == 64 + 24 * p + 8);
        assert(64 + 8 * (3 * p + 2) == 64 + 24 * p + 16);
        assert((3 * p) / 3 == p && (3 * p) % 3 == 0);
        assert((3 * p + 1) / 3 == p && (3 * p + 1) % 3 == 1);
        assert((3 * p + 2) / 3 == p && (3 * p + 2) % 3 == 2);
    }
    assert(table_of(b) =~= s.table());
}

/// The section lengths of a segment, one by one.
proof fn lemma_lens_values(s: Segment)
    ensures
        s.lens().len() == 12,
        s.lens()[0] == 64,
        s.lens()[1] == 24 * s.counts@.len(),
        s.lens()[2] == 4 * (s.counts@.len() * s.dim),
        s.lens()[4] == 4 * s.ids@.len(),
        s.lens()[5] == 4 * s.calib(),
        s.lens()[6] == 4 * s.calib(),
        s.lens()[7] == 8 * s.ids@.len(),
        s.lens()[8] == 8 * s.ids@.len(),
        s.lens()[9] == 8 * s.ids@.len(),
        s.lens()[10] == (s.ids@.len() + 7) / 8,
        s.lens()[11] == if s.has_vectors {
            4 * (s.ids@.len() * s.dim)
        } else {
            0
        },
{
    crate::tvdm::lemma_section_lens(
        s.bit_width as int,
        s.dim as int,
        s.ids@.len() as int,
        s.calib(),
        s.counts@.len() as int,
        count_blocks_before(s.counts@, s.counts@.len() as int),
        s.has_vectors,
    );
}

/// The layout that the file's header gives is the layout it was written with.
proof fn lemma_lens_agree(s: Segment)
    requires
        s.wf(),
    ensures
        lens_in(s.file()) == s.lens(),
        header_error(s.file(), s.flavor) is None,
        table_error(s.file()) is None,
{
    let b = s.file();
    let nlist = s.counts@.len() as int;
    let bb = block_bytes(s.bit_width as int, s.dim as int);
    lemma_header_values(s);
    lemma_table_values(s);
    lemma_table_sums(s, nlist);
    lemma_primaries_bound(s.replica@);
    lemma_section_in_file(s, 0);
    lemma_slot_headroom(s);
    reveal(header_error);
    reveal(table_error);
    assert forall|p: int| 0 <= p < nlist implies (#[trigger] s.table()[p]).slot_base == slots_before(
        s.table(),
        p,
    ) && s.table()[p].codes_offset == blocks_before(s.table(), p) * bb by {
        lemma_table_sums(s, p);
        lemma_rows_before_monotone(s.counts@, p, nlist);
        crate::segment::lemma_codes_fit(s, p);
    }
    assert(tiles(table_of(b), bb));
}

/// Bit `k` of a bitmap byte is the flag it was made from.
proof fn lemma_bitmap_byte(flags: Seq<bool>, i: int, m: int, k: int)
    requires
        0 <= i,
        0 <= m <= 8,
    ensures
        0 <= bitmap_byte(flags, i, m) < two_to(m),
        0 <= k < m ==> bit_of(bitmap_byte(flags, i, m), k) == (if 8 * i + k < flags.len() && flags[8 * i
            + k] {
            1int
        } else {
            0int
        }),
    decreases m,
{
    if m > 0 {
        lemma_bitmap_byte(flags, i, m - 1, k);
        let lo = bitmap_byte(flags, i, m - 1);
        let x = if 8 * i + m - 1 < flags.len() && flags[8 * i + m - 1] {
            1int
        } else {
            0int
        };
        assert(two_to(m - 1) * x == if x == 1 { two_to(m - 1) } else { 0 }) by (nonlinear_arith)
            requires
                x == 0 || x == 1,
        ;
        if 0 <= k < m {
            crate::pack::lemma_bit_of_sum(lo, x, m - 1, k);
        }
    }
}

/// A bitmap reads back.
pub proof fn lemma_bitmap_bit(flags: Seq<bool>, slot: int)
    requires
        0 <= slot < flags.len(),
    ensures
        bitmap_bit(bitmap_of(flags), slot) == flags[slot],
{
    lemma_bitmap_byte(flags, slot / 8, 8, slot % 8);
    assert(8 * (slot / 8) + slot % 8 == slot);
    assert(slot / 8 < (flags.len() + 7) / 8);
}

/// The clear bits of a bitmap are the primaries.
proof fn lemma_clear_bits(flags: Seq<bool>, n: int)
    requires
        0 <= n <= flags.len(),
    ensures
        clear_bits(bitmap_of(flags), 0, n) == primaries(flags.take(n)),
    decreases n,
{
    if n > 0 {
        lemma_clear_bits(flags, n - 1);
        lemma_bitmap_bit(flags, n - 1);
        assert(flags.take(n).drop_last() =~= flags.take(n - 1));
    } else {
        assert(flags.take(0) =~= Seq::<bool>::empty());
    }
}

/// Sorting the ids keeps the set of ids, and every slot is in range.
pub proof fn lemma_sorted_ids(ids: Seq<u64>)
    requires
        ids.len() <= u64::MAX,
    ensures
        firsts(sorted_pairs(id_slots(ids))).to_set() == ids.to_set(),
        non_decreasing(firsts(sorted_pairs(id_slots(ids)))),
        firsts(sorted_pairs(id_slots(ids))).len() == ids.len(),
        seconds(sorted_pairs(id_slots(ids))).len() == ids.len(),
        forall|i: int|
            0 <= i < ids.len() ==> {
                &&& (#[trigger] seconds(sorted_pairs(id_slots(ids)))[i]) < ids.len()
                &&& ids[seconds(sorted_pairs(id_slots(ids)))[i] as int] == firsts(sorted_pairs(id_slots(ids)))[i]
            },
{
    let pairs = id_slots(ids);
    let sorted = sorted_pairs(pairs);
    lemma_sorted_pairs(pairs);
    sorted.to_multiset_ensures();
    pairs.to_multiset_ensures();
    let f = firsts(sorted);
    assert forall|x: u64| f.to_set().contains(x) <==> ids.to_set().contains(x) by {
        if f.contains(x) {
            let i = choose|i: int| 0 <= i < f.len() && f[i] == x;
            assert(sorted.contains(sorted[i]));
            assert(sorted.to_multiset().count(sorted[i]) > 0);
            assert(pairs.contains(sorted[i]));
            let j = choose|j: int| 0 <= j < pairs.len() && pairs[j] == sorted[i];
            assert(ids[j] == x);
        }
        if ids.contains(x) {
            let i = choose|i: int| 0 <= i < ids.len() && ids[i] == x;
            assert(pairs.contains(pairs[i]));
            assert(pairs.to_multiset().count(pairs[i]) > 0);
            assert(sorted.contains(pairs[i]));
            let j = choose|j: int| 0 <= j < sorted.len() && sorted[j] == pairs[i];
            assert(f[j] == x);
        }
    }
    assert(f.to_set() =~= ids.to_set());
    assert forall|i: int, j: int| 0 <= i <= j < f.len() implies f[i] <= f[j] by {
        if i < j {
            assert(pair_leq(sorted[i], sorted[j]));
        }
    }
    assert forall|i: int| 0 <= i < ids.len() implies {
        &&& (#[trigger] seconds(sorted)[i]) < ids.len()
        &&& ids[seconds(sorted)[i] as int] == f[i]
    } by {
        assert(sorted.contains(sorted[i]));
        assert(sorted.to_multiset().count(sorted[i]) > 0);
        assert(pairs.contains(sorted[i]));
        let j = choose|j: int| 0 <= j < pairs.len() && pairs[j] == sorted[i];
        assert(pairs[j] == (ids[j], j as u64));
    }
}

/// Every written file is accepted.
pub proof fn law_written_file_opens(s: Segment)
    requires
        s.wf(),
    ensures
        open_error(s.file(), s.flavor) is None,
{
    let b = s.file();
    let n = s.ids@.len();
    lemma_header_values(s);
    lemma_lens_agree(s);
    lemma_lens_values(s);
    lemma_slot_headroom(s);
    lemma_sorted_ids(s.ids@);
    lemma_id_tables(s);
    reveal(content_error);
    assert(flags_in(b) == bitmap_of(s.replica@));
    lemma_clear_bits(s.replica@, n as int);
    assert(s.replica@.take(n as int) =~= s.replica@);
    assert forall|i: int| 0 <= i < hdr_slots(b) implies (#[trigger] u64_section(b, 9)[i]) < hdr_slots(b) by {
        assert(seconds(sorted_pairs(id_slots(s.ids@)))[i] < n);
    }
}

/// The id tables and the bitmap read back.
pub proof fn lemma_id_tables(s: Segment)
    requires
        s.wf(),
    ensures
        u64_section(s.file(), 7) == s.ids@,
        u64_section(s.file(), 8) == firsts(sorted_pairs(id_slots(s.ids@))),
        u64_section(s.file(), 9) == seconds(sorted_pairs(id_slots(s.ids@))),
        flags_in(s.file()) == bitmap_of(s.replica@),
{
    lemma_slot_headroom(s);
    lemma_sorted_ids(s.ids@);
    lemma_u64_section(s, 7, s.ids@);
    lemma_u64_section(s, 8, firsts(sorted_pairs(id_slots(s.ids@))));
    lemma_u64_section(s, 9, seconds(sorted_pairs(id_slots(s.ids@))));
    lemma_flags_section(s);
}

proof fn lemma_flags_section(s: Segment)
    requires
        s.wf(),
    ensures
        flags_in(s.file()) == bitmap_of(s.replica@),
{
    let b = s.file();
    let n = s.ids@.len();
    assert(hdr_slots(b) == n && lens_in(b) == s.lens()) by {
        lemma_header_values(s);
        lemma_lens_agree(s);
    }
    let bits = bitmap_of(s.replica@);
    assert(bits.len() == (n + 7) / 8);
    assert(s.sections()[10] == bits);
    let o = section_start(s.lens(), 10);
    assert(b.subrange(o, o + bits.len()) == bits) by {
        lemma_section_in_file(s, 10);
    }
}

proof fn lemma_u64_section(s: Segment, k: int, values: Seq<u64>)
    requires
        s.wf(),
        0 <= k < 12,
        s.sections()[k] == u64s_bytes(values),
        values.len() == s.ids@.len(),
    ensures
        u64_section(s.file(), k) == values,
{
    lemma_header_values(s);
    lemma_lens_agree(s);
    lemma_section_in_file(s, k);
    lemma_u64s_round_trip(values, s.file(), section_start(s.lens(), k));
}

/// Header values, table and layout of a written file.
pub proof fn lemma_file_values(s: Segment)
    requires
        s.wf(),
    ensures
        s.file()[5] == s.bit_width,
        s.file()[6] == s.flavor.tag_byte(),
        s.file()[7] == if s.has_vectors {
            1
        } else {
            0int
        },
        hdr_dim(s.file()) == s.dim,
        hdr_calib(s.file()) == s.calib(),
        hdr_slots(s.file()) == s.ids@.len(),
        hdr_nlist(s.file()) == s.counts@.len(),
        hdr_target(s.file()) == or_zero(s.partition_target),
        hdr_unique(s.file()) == primaries(s.replica@),
        hdr_epsilon(s.file()) == or_zero(s.replica_epsilon),
        table_of(s.file()) == s.table(),
        lens_in(s.file()) == s.lens(),
{
    lemma_header_values(s);
    lemma_table_values(s);
    lemma_lens_agree(s);
}

} // verus!
