//! Chunks: the pieces that a partition's segment file is appended in.
use vstd::prelude::*;
use vstd::slice::slice_subrange;
use crate::batch::{lemma_row_bounds, row_of, Row, RowBatch};
use crate::bytes::{
    lemma_u32s_round_trip, lemma_u64s_round_trip, push_u32, push_u32s, push_u64s, read_u32, read_u32s,
    read_u64, u32_at, u32_bytes, u32s_at, u32s_bytes, u64_at, u64s_at, u64s_bytes,
};
use crate::math::ceil_div;
use crate::pack::{
    blocked, groups, law_unblock_inverts_block, n_byte_groups, push_blocked, push_unblocked_row, read_bit,
    unblocked_row, Layout,
};
use crate::sections::{
    align_up, aligned, close_by, image_by, lemma_aligned, lemma_image_by, lemma_starts_are_disjoint, lens_of,
    pad_to, start_by, zeros,
};
use crate::segment::{bitmap_of, push_bitmap, push_zeros};
use crate::segment_laws::lemma_bitmap_bit;
use crate::tvdm::bitmap_bit;

verus! {

/// Where the sections of a chunk lie, from the start of the chunk on, as
/// start and length.
pub struct ChunkLayout {
    pub codes: (usize, usize),
    pub scales: (usize, usize),
    pub ids: (usize, usize),
    pub replica_bits: (usize, usize),
    pub vectors: (usize, usize),
    pub total_len: usize,
}

/// Lengths of the header and the sections of a chunk of `n` rows with `ng`
/// group bytes and `width` stored coordinates each.
pub open spec fn chunk_lens(ng: int, width: int, n: int) -> Seq<int> {
    seq![64, ceil_div(n, 32) * (ng * 32), 4 * n, 8 * n, (n + 7) / 8, 4 * (n * width)]
}

/// Where section `k` of a chunk starts.
pub open spec fn chunk_start(ng: int, width: int, n: int, k: int) -> int {
    start_by(chunk_lens(ng, width, n), 8, k)
}

/// Bytes of a chunk.
pub open spec fn chunk_len(ng: int, width: int, n: int) -> int {
    aligned(chunk_start(ng, width, n, 6), 64)
}

/// Sections follow one another inside the chunk.
pub proof fn lemma_chunk_starts(ng: int, width: int, n: int)
    requires
        0 <= ng,
        0 <= width,
        0 <= n,
    ensures
        chunk_start(ng, width, n, 1) == 64,
        forall|k: int|
            0 <= k < 6 ==> 0 <= #[trigger] chunk_start(ng, width, n, k) && chunk_start(ng, width, n, k)
                + chunk_lens(ng, width, n)[k] <= chunk_start(ng, width, n, k + 1),
        chunk_start(ng, width, n, 6) <= chunk_len(ng, width, n),
        chunk_len(ng, width, n) < chunk_start(ng, width, n, 6) + 64,
        chunk_len(ng, width, n) % 64 == 0,
        forall|k: int| 0 <= k < 6 ==> 0 <= #[trigger] chunk_lens(ng, width, n)[k],
        forall|k: int|
            0 <= k < 6 ==> 0 <= #[trigger] chunk_start(ng, width, n, k) && chunk_start(ng, width, n, k)
                + chunk_lens(ng, width, n)[k] <= chunk_len(ng, width, n),
        8 * n + 64 <= chunk_len(ng, width, n),
{
    let lens = chunk_lens(ng, width, n);
    assert(0 <= ceil_div(n, 32) * (ng * 32)) by (nonlinear_arith)
        requires
            0 <= n,
            0 <= ng,
    ;
    assert(0 <= n * width) by (nonlinear_arith)
        requires
            0 <= n,
            0 <= width,
    ;
    assert forall|k: int| 0 <= k < 6 implies 0 <= #[trigger] lens[k] by {
        assert(k == 0 || k == 1 || k == 2 || k == 3 || k == 4 || k == 5);
    }
    assert(start_by(lens, 8, 1) == start_by(lens, 8, 0) + aligned(lens[0], 8));
    assert forall|k: int| 0 <= k < 6 implies 0 <= #[trigger] chunk_start(ng, width, n, k) && chunk_start(
        ng,
        width,
        n,
        k,
    ) + lens[k] <= chunk_start(ng, width, n, k + 1) by {
        lemma_starts_are_disjoint(lens, 8, k, k + 1);
    }
    lemma_aligned(chunk_start(ng, width, n, 6), 64);
    assert forall|k: int| 0 <= k < 6 implies 0 <= #[trigger] chunk_start(ng, width, n, k) && chunk_start(
        ng,
        width,
        n,
        k,
    ) + lens[k] <= chunk_len(ng, width, n) by {
        lemma_starts_are_disjoint(lens, 8, k, 6);
    }
    lemma_starts_are_disjoint(lens, 8, 3, 6);
    lemma_starts_are_disjoint(lens, 8, 0, 3);
    assert(lens[3] == 8 * n);
}

/// The layout of a chunk of `n_rows` rows.
pub fn layout_for(ng: usize, width: usize, n_rows: usize) -> (l: ChunkLayout)
    requires
        chunk_len(ng as int, width as int, n_rows as int) <= usize::MAX,
    ensures
        l.codes.0 == chunk_start(ng as int, width as int, n_rows as int, 1),
        l.codes.1 == chunk_lens(ng as int, width as int, n_rows as int)[1],
        l.scales.0 == chunk_start(ng as int, width as int, n_rows as int, 2),
        l.scales.1 == 4 * n_rows,
        l.ids.0 == chunk_start(ng as int, width as int, n_rows as int, 3),
        l.ids.1 == 8 * n_rows,
        l.replica_bits.0 == chunk_start(ng as int, width as int, n_rows as int, 4),
        l.replica_bits.1 == (n_rows + 7) / 8,
        l.vectors.0 == chunk_start(ng as int, width as int, n_rows as int, 5),
        l.vectors.1 == 4 * (n_rows * width),
        l.total_len == chunk_len(ng as int, width as int, n_rows as int),
{
    let ghost lens = chunk_lens(ng as int, width as int, n_rows as int);
    let ghost total = chunk_len(ng as int, width as int, n_rows as int);
    proof {
        lemma_chunk_starts(ng as int, width as int, n_rows as int);
        assert(usize::MAX % 64 == 63);
        assert(total + 63 <= usize::MAX);
        assert(chunk_start(ng as int, width as int, n_rows as int, 1) + lens[1] <= total);
        assert(chunk_start(ng as int, width as int, n_rows as int, 2) + lens[2] <= total);
        assert(chunk_start(ng as int, width as int, n_rows as int, 3) + lens[3] <= total);
        assert(chunk_start(ng as int, width as int, n_rows as int, 4) + lens[4] <= total);
        assert(chunk_start(ng as int, width as int, n_rows as int, 5) + lens[5] <= total);
        assert(lens[1] == ceil_div(n_rows as int, 32) * (ng * 32));
        assert(lens[5] == 4 * (n_rows * width));
        assert(ceil_div(n_rows as int, 32) > 0 ==> ng * 32 <= ceil_div(n_rows as int, 32) * (ng * 32))
            by (nonlinear_arith);
        lemma_step(lens, 1);
        lemma_step(lens, 2);
        lemma_step(lens, 3);
        lemma_step(lens, 4);
        lemma_step(lens, 5);
    }
    let n_blocks: usize = (n_rows + 31) / 32;
    let codes_len: usize = if n_blocks == 0 {
        assert(0 * (ng * 32) == 0) by (nonlinear_arith);
        0
    } else {
        n_blocks * (ng * 32)
    };
    let vectors_len: usize = 4 * (n_rows * width);
    let scales: usize = align_up(64 + codes_len, 8);
    let ids: usize = align_up(scales + 4 * n_rows, 8);
    let bits: usize = align_up(ids + 8 * n_rows, 8);
    let vectors: usize = align_up(bits + (n_rows + 7) / 8, 8);
    let end: usize = align_up(vectors + vectors_len, 8);
    ChunkLayout {
        codes: (64, codes_len),
        scales: (scales, 4 * n_rows),
        ids: (ids, 8 * n_rows),
        replica_bits: (bits, (n_rows + 7) / 8),
        vectors: (vectors, vectors_len),
        total_len: align_up(end, 64),
    }
}

/// The next section starts on the alignment behind the one before.
proof fn lemma_step(lens: Seq<int>, k: int)
    requires
        0 <= k < lens.len(),
        forall|i: int| 0 <= i < lens.len() ==> 0 <= #[trigger] lens[i],
    ensures
        start_by(lens, 8, k + 1) == aligned(start_by(lens, 8, k) + lens[k], 8),
{
    lemma_starts_are_disjoint(lens, 8, k, k + 1);
    crate::sections::lemma_aligned_shift(start_by(lens, 8, k), lens[k], 8);
}

/// The layout of a chunk of `n_rows` rows of `dim` codes.
pub fn chunk_layout(bit_width: usize, dim: usize, n_rows: usize, has_vectors: bool) -> (l: ChunkLayout)
    requires
        2 <= bit_width <= 4,
        chunk_len(
            groups(bit_width as int, dim as int),
            stored_width(dim as int, has_vectors),
            n_rows as int,
        ) <= usize::MAX,
    ensures
        ({
            let ng = groups(bit_width as int, dim as int);
            let width = stored_width(dim as int, has_vectors);
            &&& l.codes.0 == chunk_start(ng, width, n_rows as int, 1)
            &&& l.codes.1 == chunk_lens(ng, width, n_rows as int)[1]
            &&& l.scales.0 == chunk_start(ng, width, n_rows as int, 2)
            &&& l.scales.1 == 4 * n_rows
            &&& l.ids.0 == chunk_start(ng, width, n_rows as int, 3)
            &&& l.ids.1 == 8 * n_rows
            &&& l.replica_bits.0 == chunk_start(ng, width, n_rows as int, 4)
            &&& l.replica_bits.1 == (n_rows + 7) / 8
            &&& l.vectors.0 == chunk_start(ng, width, n_rows as int, 5)
            &&& l.vectors.1 == 4 * (n_rows * width)
            &&& l.total_len == chunk_len(ng, width, n_rows as int)
        }),
{
    let width: usize = if has_vectors {
        dim
    } else {
        0
    };
    layout_for(n_byte_groups(bit_width, dim), width, n_rows)
}

/// Coordinates per row that are stored.
pub open spec fn stored_width(dim: int, store: bool) -> int {
    if store {
        dim
    } else {
        0
    }
}

/// The header of a chunk of `n` rows.
pub open spec fn chunk_header(n: int) -> Seq<u8> {
    seq![0x54u8, 0x56u8, 0x46u8, 0x43u8] + u32_bytes(n as u32) + u32_bytes(ceil_div(n, 32) as u32) + zeros(
        52,
    )
}

/// Header and sections of the chunk that holds `b`.
pub open spec fn chunk_sections(flavor: Layout, b: RowBatch) -> Seq<Seq<u8>> {
    seq![
        chunk_header(b.ids@.len() as int),
        blocked(flavor, b.group_rows@, b.ids@.len() as int, b.groups as int),
        u32s_bytes(b.scales@),
        u64s_bytes(b.ids@),
        bitmap_of(b.replica@),
        u32s_bytes(b.vectors@),
    ]
}

/// The chunk that holds `b`.
pub open spec fn chunk_bytes(flavor: Layout, b: RowBatch) -> Seq<u8> {
    let s = image_by(chunk_sections(flavor, b), 8);
    s + zeros(aligned(s.len() as int, 64) - s.len())
}

/// The sections have the lengths that the layout gives them.
proof fn lemma_chunk_lens(flavor: Layout, b: RowBatch)
    requires
        b.wf(),
    ensures
        lens_of(chunk_sections(flavor, b)) == chunk_lens(
            b.groups as int,
            b.width as int,
            b.ids@.len() as int,
        ),
{
    let n = b.ids@.len() as int;
    assert(0 <= ceil_div(n, 32) * (b.groups * 32)) by (nonlinear_arith)
        requires
            0 <= n,
    ;
    assert(lens_of(chunk_sections(flavor, b)) =~= chunk_lens(b.groups as int, b.width as int, n));
}

/// A chunk is as long as its layout says.
pub proof fn lemma_chunk_bytes_len(flavor: Layout, b: RowBatch)
    requires
        b.wf(),
    ensures
        chunk_bytes(flavor, b).len() == chunk_len(b.groups as int, b.width as int, b.ids@.len() as int),
{
    lemma_chunk_lens(flavor, b);
    lemma_image_by(chunk_sections(flavor, b), 8);
    lemma_chunk_starts(b.groups as int, b.width as int, b.ids@.len() as int);
}

/// The bytes of the chunk that holds `b`.
pub fn encode_chunk(flavor: Layout, b: &RowBatch) -> (out: Vec<u8>)
    requires
        b.wf(),
        b@.len() <= 0xFFFF_FFFF,
        chunk_len(b.groups as int, b.width as int, b@.len() as int) <= usize::MAX,
    ensures
        out@ == chunk_bytes(flavor, *b),
        out@.len() == chunk_len(b.groups as int, b.width as int, b@.len() as int),
{
    let n: usize = b.ids.len();
    let ghost all = chunk_sections(flavor, *b);
    proof {
        lemma_chunk_bytes_len(flavor, *b);
        lemma_chunk_starts(b.groups as int, b.width as int, n as int);
        assert(usize::MAX % 64 == 63);
        assert(chunk_lens(b.groups as int, b.width as int, n as int)[1] == ceil_div(n as int, 32) * (
        b.groups * 32));
        assert(chunk_start(b.groups as int, b.width as int, n as int, 1) + chunk_lens(
            b.groups as int,
            b.width as int,
            n as int,
        )[1] <= chunk_len(b.groups as int, b.width as int, n as int));
    }
    let mut out: Vec<u8> = Vec::new();
    out.push(0x54);
    out.push(0x56);
    out.push(0x46);
    out.push(0x43);
    assert(out@ =~= seq![0x54u8, 0x56u8, 0x46u8, 0x43u8]);
    push_u32(&mut out, n as u32);
    push_u32(&mut out, ((n + 31) / 32) as u32);
    push_zeros(&mut out, 52);
    assert(all.take(0) =~= Seq::<Seq<u8>>::empty());
    assert(out@ =~= image_by(all.take(0), 8) + all[0]);
    close_by(&mut out, 8, Ghost(all.take(0)), Ghost(all[0]));
    assert(all.take(0).push(all[0]) =~= all.take(1));
    push_blocked(flavor, b.group_rows.as_slice(), n, b.groups, &mut out);
    close_by(&mut out, 8, Ghost(all.take(1)), Ghost(all[1]));
    assert(all.take(1).push(all[1]) =~= all.take(2));
    push_u32s(&mut out, b.scales.as_slice());
    close_by(&mut out, 8, Ghost(all.take(2)), Ghost(all[2]));
    assert(all.take(2).push(all[2]) =~= all.take(3));
    push_u64s(&mut out, b.ids.as_slice());
    close_by(&mut out, 8, Ghost(all.take(3)), Ghost(all[3]));
    assert(all.take(3).push(all[3]) =~= all.take(4));
    push_bitmap(&b.replica, &mut out);
    close_by(&mut out, 8, Ghost(all.take(4)), Ghost(all[4]));
    assert(all.take(4).push(all[4]) =~= all.take(5));
    push_u32s(&mut out, b.vectors.as_slice());
    close_by(&mut out, 8, Ghost(all.take(5)), Ghost(all[5]));
    assert(all.take(5).push(all[5]) =~= all);
    pad_to(&mut out, 64);
    out
}

/// Section `k` of the chunk of `n` rows at `o`.
pub open spec fn chunk_section(file: Seq<u8>, o: int, ng: int, width: int, n: int, k: int) -> Seq<u8> {
    file.subrange(
        o + chunk_start(ng, width, n, k),
        o + chunk_start(ng, width, n, k) + chunk_lens(ng, width, n)[k],
    )
}

/// Row `i` of the chunk of `n` rows at `o`.
pub open spec fn chunk_row(
    flavor: Layout,
    file: Seq<u8>,
    o: int,
    ng: int,
    width: int,
    n: int,
    i: int,
) -> Row {
    Row {
        codes: unblocked_row(flavor, chunk_section(file, o, ng, width, n, 1), i, ng),
        scale: u32_at(file, o + chunk_start(ng, width, n, 2) + 4 * i),
        id: u64_at(file, o + chunk_start(ng, width, n, 3) + 8 * i),
        replica: bitmap_bit(chunk_section(file, o, ng, width, n, 4), i),
        vector: u32s_at(file, o + chunk_start(ng, width, n, 5) + 4 * (i * width), width as nat),
    }
}

/// The rows of the chunk of `n` rows at `o`.
pub open spec fn chunk_rows(
    flavor: Layout,
    file: Seq<u8>,
    o: int,
    ng: int,
    width: int,
    n: int,
) -> Seq<Row> {
    Seq::new(n as nat, |i: int| chunk_row(flavor, file, o, ng, width, n, i))
}

/// A word inside a section of words.
proof fn lemma_word(s: Seq<u8>, o: int, n: int, i: int)
    requires
        0 <= i < n,
    ensures
        u32s_at(s, o, n as nat)[i] == u32_at(s, o + 4 * i),
        u64s_at(s, o, n as nat)[i] == u64_at(s, o + 8 * i),
{
}

/// A section of a chunk lies inside it.
proof fn lemma_section_inside(flavor: Layout, b: RowBatch, k: int)
    requires
        b.wf(),
        0 <= k < 6,
    ensures
        ({
            let a = chunk_start(b.groups as int, b.width as int, b.ids@.len() as int, k);
            let l = chunk_lens(b.groups as int, b.width as int, b.ids@.len() as int)[k];
            &&& 0 <= a
            &&& l == chunk_sections(flavor, b)[k].len()
            &&& a + l <= chunk_bytes(flavor, b).len()
            &&& chunk_bytes(flavor, b).subrange(a, a + l) == chunk_sections(flavor, b)[k]
        }),
{
    let n = b.ids@.len() as int;
    let ng = b.groups as int;
    let width = b.width as int;
    let all = chunk_sections(flavor, b);
    let img = image_by(all, 8);
    let a = chunk_start(ng, width, n, k);
    let l = chunk_lens(ng, width, n)[k];
    lemma_chunk_lens(flavor, b);
    lemma_image_by(all, 8);
    assert(a == start_by(lens_of(all), 8, k));
    assert(l == all[k].len()) by {
        assert(lens_of(all)[k] == all[k].len());
    }
    assert(img.subrange(a, a + l) == all[k]);
    assert(chunk_bytes(flavor, b).subrange(a, a + l) =~= img.subrange(a, a + l));
}

/// A chunk in a file holds its sections.
proof fn lemma_section_in_file(flavor: Layout, b: RowBatch, file: Seq<u8>, o: int, k: int)
    requires
        b.wf(),
        0 <= o,
        0 <= k < 6,
        o + chunk_bytes(flavor, b).len() <= file.len(),
        file.subrange(o, o + chunk_bytes(flavor, b).len()) == chunk_bytes(flavor, b),
    ensures
        ({
            let ng = b.groups as int;
            let width = b.width as int;
            let n = b.ids@.len() as int;
            &&& chunk_section(file, o, ng, width, n, k) == chunk_sections(flavor, b)[k]
            &&& 0 <= chunk_start(ng, width, n, k)
            &&& o + chunk_start(ng, width, n, k) + chunk_lens(ng, width, n)[k] <= file.len()
            &&& chunk_lens(ng, width, n)[k] == chunk_sections(flavor, b)[k].len()
        }),
{
    let a = chunk_start(b.groups as int, b.width as int, b.ids@.len() as int, k);
    let l = chunk_lens(b.groups as int, b.width as int, b.ids@.len() as int)[k];
    let t = file.subrange(o, o + chunk_bytes(flavor, b).len());
    lemma_section_inside(flavor, b, k);
    assert(file.subrange(o + a, o + a + l) =~= t.subrange(a, a + l));
}

/// Row `i` of a chunk whose sections are those of `b`.
proof fn lemma_row_in_file(flavor: Layout, b: RowBatch, file: Seq<u8>, o: int, i: int)
    requires
        b.wf(),
        0 <= i < b@.len(),
        ({
            let ng = b.groups as int;
            let width = b.width as int;
            let n = b.ids@.len() as int;
            &&& chunk_section(file, o, ng, width, n, 1) == blocked(flavor, b.group_rows@, n, ng)
            &&& u32s_at(file, o + chunk_start(ng, width, n, 2), n as nat) == b.scales@
            &&& u64s_at(file, o + chunk_start(ng, width, n, 3), n as nat) == b.ids@
            &&& chunk_section(file, o, ng, width, n, 4) == bitmap_of(b.replica@)
            &&& u32s_at(file, o + chunk_start(ng, width, n, 5), (n * width) as nat) == b.vectors@
        }),
    ensures
        chunk_row(flavor, file, o, b.groups as int, b.width as int, b@.len() as int, i) == b@[i],
{
    let n = b.ids@.len() as int;
    let ng = b.groups as int;
    let width = b.width as int;
    lemma_row_bounds(i, n, ng);
    lemma_row_bounds(i, n, width);
    let codes = unblocked_row(flavor, blocked(flavor, b.group_rows@, n, ng), i, ng);
    assert forall|g: int| 0 <= g < ng implies codes[g] == row_of(b.group_rows@, i, ng)[g] by {
        law_unblock_inverts_block(flavor, b.group_rows@, n, ng, i, g);
    }
    assert(codes =~= row_of(b.group_rows@, i, ng));
    lemma_word(file, o + chunk_start(ng, width, n, 2), n, i);
    lemma_word(file, o + chunk_start(ng, width, n, 3), n, i);
    lemma_bitmap_bit(b.replica@, i);
    let v5 = o + chunk_start(ng, width, n, 5);
    assert forall|j: int| 0 <= j < width implies u32s_at(file, v5 + 4 * (i * width), width as nat)[j] == row_of(
        b.vectors@,
        i,
        width,
    )[j] by {
        lemma_word(file, v5, n * width, i * width + j);
        assert(4 * (i * width) + 4 * j == 4 * (i * width + j));
    }
    assert(u32s_at(file, v5 + 4 * (i * width), width as nat) =~= row_of(b.vectors@, i, width));
}

/// A chunk gives back the rows that were written to it.
pub proof fn law_chunk_round_trip(flavor: Layout, b: RowBatch, file: Seq<u8>, o: int)
    requires
        b.wf(),
        0 <= o,
        o + chunk_bytes(flavor, b).len() <= file.len(),
        file.subrange(o, o + chunk_bytes(flavor, b).len()) == chunk_bytes(flavor, b),
    ensures
        chunk_rows(flavor, file, o, b.groups as int, b.width as int, b@.len() as int) == b@,
{
    let n = b.ids@.len() as int;
    let ng = b.groups as int;
    let width = b.width as int;
    lemma_section_in_file(flavor, b, file, o, 1);
    lemma_section_in_file(flavor, b, file, o, 2);
    lemma_section_in_file(flavor, b, file, o, 3);
    lemma_section_in_file(flavor, b, file, o, 4);
    lemma_section_in_file(flavor, b, file, o, 5);
    assert(b.vectors@.len() == n * width);
    lemma_u32s_round_trip(b.scales@, file, o + chunk_start(ng, width, n, 2));
    lemma_u64s_round_trip(b.ids@, file, o + chunk_start(ng, width, n, 3));
    lemma_u32s_round_trip(b.vectors@, file, o + chunk_start(ng, width, n, 5));
    let got = chunk_rows(flavor, file, o, ng, width, n);
    assert forall|i: int| 0 <= i < n implies got[i] == b@[i] by {
        lemma_row_in_file(flavor, b, file, o, i);
    }
    assert(got =~= b@);
}

/// Appends row `i` of the chunk of `n` rows at `o`.
pub fn push_chunk_row(
    flavor: Layout,
    file: &[u8],
    o: usize,
    layout: &ChunkLayout,
    n: usize,
    i: usize,
    out: &mut RowBatch,
)
    requires
        old(out).wf(),
        i < n,
        layout.of(old(out).groups as int, old(out).width as int, n as int),
        o + chunk_len(old(out).groups as int, old(out).width as int, n as int) <= file@.len(),
    ensures
        final(out).wf(),
        final(out).groups == old(out).groups,
        final(out).width == old(out).width,
        final(out)@ == old(out)@.push(
            chunk_row(
                flavor,
                file@,
                o as int,
                old(out).groups as int,
                old(out).width as int,
                n as int,
                i as int,
            ),
        ),
{
    assert(file.len() == file@.len());
    let ng: usize = out.groups;
    let width: usize = out.width;
    proof {
        lemma_chunk_starts(ng as int, width as int, n as int);
        let lens = chunk_lens(ng as int, width as int, n as int);
        assert(chunk_start(ng as int, width as int, n as int, 1) + lens[1] <= chunk_len(
            ng as int,
            width as int,
            n as int,
        ));
        assert(chunk_start(ng as int, width as int, n as int, 2) + lens[2] <= chunk_len(
            ng as int,
            width as int,
            n as int,
        ));
        assert(chunk_start(ng as int, width as int, n as int, 3) + lens[3] <= chunk_len(
            ng as int,
            width as int,
            n as int,
        ));
        assert(chunk_start(ng as int, width as int, n as int, 4) + lens[4] <= chunk_len(
            ng as int,
            width as int,
            n as int,
        ));
        assert(chunk_start(ng as int, width as int, n as int, 5) + lens[5] <= chunk_len(
            ng as int,
            width as int,
            n as int,
        ));
        lemma_row_bounds(i as int, n as int, width as int);
        assert((i as int / 32 + 1) * (ng * 32) <= ceil_div(n as int, 32) * (ng * 32)) by (nonlinear_arith)
            requires
                i as int / 32 + 1 <= ceil_div(n as int, 32),
                0 <= ng,
        ;
    }
    let codes: &[u8] = slice_subrange(file, o + layout.codes.0, o + layout.codes.0 + layout.codes.1);
    let mut row: Vec<u8> = Vec::new();
    push_unblocked_row(flavor, codes, ng, i, &mut row);
    assert(row@ =~= unblocked_row(flavor, codes@, i as int, ng as int));
    let scale: u32 = read_u32(file, o + layout.scales.0 + 4 * i);
    let id: u64 = read_u64(file, o + layout.ids.0 + 8 * i);
    let is_replica: bool = chunk_replica(file, o, layout, n, i, Ghost(ng as int), Ghost(width as int));
    let vector: Vec<u32> = read_u32s(file, o + layout.vectors.0 + 4 * (i * width), width);
    out.push_row(row.as_slice(), scale, id, is_replica, vector.as_slice());
}

impl ChunkLayout {
    /// The layout of a chunk of `n` rows.
    pub open spec fn of(self, ng: int, width: int, n: int) -> bool {
        &&& self.codes.0 == chunk_start(ng, width, n, 1)
        &&& self.codes.1 == chunk_lens(ng, width, n)[1]
        &&& self.scales.0 == chunk_start(ng, width, n, 2)
        &&& self.ids.0 == chunk_start(ng, width, n, 3)
        &&& self.replica_bits.0 == chunk_start(ng, width, n, 4)
        &&& self.vectors.0 == chunk_start(ng, width, n, 5)
        &&& self.total_len == chunk_len(ng, width, n)
    }
}

/// Whether row `i` of a chunk is a replica.
pub(crate) fn chunk_replica(
    file: &[u8],
    o: usize,
    layout: &ChunkLayout,
    n: usize,
    i: usize,
    ng: Ghost<int>,
    width: Ghost<int>,
) -> (r: bool)
    requires
        i < n,
        0 <= ng@,
        0 <= width@,
        layout.of(ng@, width@, n as int),
        o + chunk_len(ng@, width@, n as int) <= file@.len(),
    ensures
        r == bitmap_bit(chunk_section(file@, o as int, ng@, width@, n as int, 4), i as int),
{
    assert(file.len() == file@.len());
    proof {
        lemma_chunk_starts(ng@, width@, n as int);
        assert(chunk_start(ng@, width@, n as int, 4) + chunk_lens(ng@, width@, n as int)[4] <= chunk_len(
            ng@,
            width@,
            n as int,
        ));
        assert(chunk_lens(ng@, width@, n as int)[4] == (n + 7) / 8);
    }
    read_bit(file[o + layout.replica_bits.0 + i / 8], i % 8) == 1
}

} // verus!
