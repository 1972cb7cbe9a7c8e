//! What the sum of a row over a query's table means: every coordinate adds the
//! entry for its code.
use vstd::prelude::*;
use crate::math::{ceil_div, lemma_flat_bound, lemma_flat_index};
use crate::pack::{
    blocked, group_rows, groups, law_unblock_inverts_block, lemma_code_bound, plane_code, repack,
    unblocked_byte, Layout,
};
use crate::result_laws::{greater, law_greater_scores_rank_first};
use crate::scan::{block_sums, lane_sum, lut_entries, lut_scale, row_sum, score_rows, span};

verus! {

/// What the first `n` coordinates of vector `v` add, each by its code.
pub open spec fn coordinate_sum(
    entry: spec_fn(int, int) -> int,
    packed: Seq<u8>,
    v: int,
    bits: int,
    dim: int,
    n: int,
) -> int
    decreases n,
{
    if n <= 0 {
        0
    } else {
        coordinate_sum(entry, packed, v, bits, dim, n - 1) + entry(
            n - 1,
            plane_code(packed, v, n - 1, bits, dim),
        )
    }
}

/// Entry `x` of the `k`-th table of sixteen.
pub open spec fn half_entry(luts: Seq<u8>, k: int, x: int) -> int {
    luts[16 * k + x] as int
}

/// A table over half bytes made of entries for single coordinates: a half byte
/// holds one code of three or four bits, or two codes of two bits, the first
/// one higher.
pub open spec fn tabulates(luts: Seq<u8>, entry: spec_fn(int, int) -> int, bits: int, dim: int) -> bool {
    if bits == 2 {
        forall|k: int, x: int|
            0 <= k < dim / 2 && 0 <= x < 16 ==> #[trigger] half_entry(luts, k, x) == entry(2 * k, x / 4) + entry(
                2 * k + 1,
                x % 4,
            )
    } else {
        forall|j: int, c: int|
            0 <= j < dim && 0 <= c < (if bits == 3 {
                8int
            } else {
                16
            }) ==> #[trigger] half_entry(luts, j, c) == entry(j, c)
    }
}

proof fn lemma_group_counts(bits: int, dim: int)
    requires
        2 <= bits <= 4,
        dim % 8 == 0,
    ensures
        bits == 2 ==> 4 * groups(bits, dim) == dim,
        bits != 2 ==> 2 * groups(bits, dim) == dim,
{
    if bits == 2 {
        assert(crate::pack::codes_per_byte(bits) == 4);
        assert(4 * (dim / 4) == dim);
    } else {
        assert(crate::pack::codes_per_byte(bits) == 2);
        assert(2 * (dim / 2) == dim);
    }
}

/// The codes of one group, as its byte holds them.
proof fn lemma_group_codes(packed: Seq<u8>, n: int, bits: int, dim: int, i: int, g: int)
    requires
        2 <= bits <= 4,
        dim % 8 == 0,
        0 <= i < n,
        0 <= g < groups(bits, dim),
    ensures
        ({
            let b = group_rows(packed, n, bits, dim)[i * groups(bits, dim) + g] as int;
            let code = |j: int| plane_code(packed, i, j, bits, dim);
            if bits == 2 {
                &&& b / 16 == 4 * code(4 * g) + code(4 * g + 1)
                &&& b % 16 == 4 * code(4 * g + 2) + code(4 * g + 3)
                &&& 0 <= code(4 * g) < 4
                &&& 0 <= code(4 * g + 1) < 4
                &&& 0 <= code(4 * g + 2) < 4
                &&& 0 <= code(4 * g + 3) < 4
            } else {
                &&& b / 16 == code(2 * g)
                &&& b % 16 == code(2 * g + 1)
                &&& 0 <= code(2 * g) < (if bits == 3 {
                    8int
                } else {
                    16
                })
                &&& 0 <= code(2 * g + 1) < (if bits == 3 {
                    8int
                } else {
                    16
                })
            }
        }),
{
    let ng = groups(bits, dim);
    lemma_flat_bound(i, g, n, ng);
    lemma_flat_index(i, g, ng);
    let b = group_rows(packed, n, bits, dim)[i * ng + g] as int;
    reveal_with_fuel(crate::pack::group_high, 5);
    assert(b == crate::pack::group_byte(packed, i, g, bits, dim) as u8);
    let code = |j: int| plane_code(packed, i, j, bits, dim);
    if bits == 2 {
        lemma_code_bound(packed, i, 4 * g, bits, dim, bits as nat);
        lemma_code_bound(packed, i, 4 * g + 1, bits, dim, bits as nat);
        lemma_code_bound(packed, i, 4 * g + 2, bits, dim, bits as nat);
        lemma_code_bound(packed, i, 4 * g + 3, bits, dim, bits as nat);
        let w = crate::pack::two_to(crate::pack::code_stride(bits));
        assert(w == 4);
        let h1 = crate::pack::group_high(packed, i, g, bits, dim, 1);
        let h2 = crate::pack::group_high(packed, i, g, bits, dim, 2);
        let h3 = crate::pack::group_high(packed, i, g, bits, dim, 3);
        assert(0 * w == 0 && h1 * w == 4 * h1 && h2 * w == 4 * h2 && h3 * w == 4 * h3) by (nonlinear_arith)
            requires
                w == 4,
        ;
        assert(h1 == code(4 * g));
        assert(h2 == 4 * h1 + code(4 * g + 1));
        assert(h3 == 4 * h2 + code(4 * g + 2));
        assert(crate::pack::group_byte(packed, i, g, bits, dim) == 4 * h3 + code(4 * g + 3));
    } else {
        lemma_code_bound(packed, i, 2 * g, bits, dim, bits as nat);
        lemma_code_bound(packed, i, 2 * g + 1, bits, dim, bits as nat);
        let h = crate::pack::group_high(packed, i, g, bits, dim, 1);
        let w = crate::pack::two_to(crate::pack::code_stride(bits));
        assert(h * w == 16 * h) by (nonlinear_arith)
            requires
                w == 16,
        ;
        assert(0 * w == 0) by (nonlinear_arith);
        assert(h == code(2 * g));
        assert(crate::pack::group_byte(packed, i, g, bits, dim) == 16 * code(2 * g) + code(2 * g + 1));
    }
}

proof fn lemma_groups_add_codes(
    layout: Layout,
    packed: Seq<u8>,
    n: int,
    bits: int,
    dim: int,
    luts: Seq<u8>,
    entry: spec_fn(int, int) -> int,
    i: int,
    g: int,
)
    requires
        2 <= bits <= 4,
        dim % 8 == 0,
        0 <= i < n,
        0 <= g <= groups(bits, dim),
        tabulates(luts, entry, bits, dim),
    ensures
        ({
            let ng = groups(bits, dim);
            let codes = blocked(layout, group_rows(packed, n, bits, dim), n, ng);
            lane_sum(layout, codes, luts, (i / 32) * (ng * 32), i % 32, g) == coordinate_sum(
                entry,
                packed,
                i,
                bits,
                dim,
                if bits == 2 {
                    4 * g
                } else {
                    2 * g
                },
            )
        }),
    decreases g,
{
    let ng = groups(bits, dim);
    let rows = group_rows(packed, n, bits, dim);
    let codes = blocked(layout, rows, n, ng);
    let code = |j: int| plane_code(packed, i, j, bits, dim);
    lemma_group_counts(bits, dim);
    if g > 0 {
        lemma_groups_add_codes(layout, packed, n, bits, dim, luts, entry, i, g - 1);
        lemma_group_codes(packed, n, bits, dim, i, g - 1);
        assert(i < ceil_div(n, 32) * 32);
        law_unblock_inverts_block(layout, rows, n, ng, i, g - 1);
        lemma_flat_bound(i, g - 1, n, ng);
        let b = unblocked_byte(layout, codes, ng, i, g - 1) as int;
        assert(b == rows[i * ng + (g - 1)]);
        let o = (i / 32) * (ng * 32);
        assert(lane_sum(layout, codes, luts, o, i % 32, g) == lane_sum(layout, codes, luts, o, i % 32, g - 1)
            + half_entry(luts, 2 * (g - 1), b / 16) + half_entry(luts, 2 * (g - 1) + 1, b % 16));
        reveal_with_fuel(coordinate_sum, 5);
        if bits == 2 {
            let x = 4 * (g - 1);
            assert(coordinate_sum(entry, packed, i, bits, dim, x + 4) == coordinate_sum(entry, packed, i, bits, dim, x) + entry(x, code(x))
                + entry(x + 1, code(x + 1)) + entry(x + 2, code(x + 2)) + entry(x + 3, code(x + 3)));
            let y = 2 * (g - 1);
            assert(0 <= y && y + 1 < dim / 2);
            assert(half_entry(luts, y, b / 16) == entry(2 * y, b / 16 / 4) + entry(2 * y + 1, b / 16 % 4));
            assert(half_entry(luts, y + 1, b % 16) == entry(2 * (y + 1), b % 16 / 4) + entry(
                2 * (y + 1) + 1,
                b % 16 % 4,
            ));
            assert(b / 16 / 4 == code(x) && b / 16 % 4 == code(x + 1));
            assert(b % 16 / 4 == code(x + 2) && b % 16 % 4 == code(x + 3));
        } else {
            let x = 2 * (g - 1);
            assert(coordinate_sum(entry, packed, i, bits, dim, x + 2) == coordinate_sum(entry, packed, i, bits, dim, x) + entry(x, code(x))
                + entry(x + 1, code(x + 1)));
            assert(0 <= x && x + 1 < dim);
            assert(half_entry(luts, x, b / 16) == entry(x, b / 16));
            assert(half_entry(luts, x + 1, b % 16) == entry(x + 1, b % 16));
        }
    }
}

/// The sum of a row of repacked codes is the sum, over all coordinates, of the
/// entry that the coordinate has for the row's code.
pub proof fn law_row_sum_adds_every_coordinate(
    layout: Layout,
    packed: &[u8],
    n: usize,
    bits: usize,
    dim: usize,
    blocks: (Vec<u8>, usize),
    luts: Seq<u8>,
    entry: spec_fn(int, int) -> int,
    i: int,
)
    requires
        2 <= bits <= 4,
        dim % 8 == 0,
        n * (bits * (dim / 8)) <= packed@.len(),
        repack.ensures((packed, n, bits, dim, layout), blocks),
        tabulates(luts, entry, bits as int, dim as int),
        0 <= i < n,
    ensures
        row_sum(layout, blocks.0@, luts, groups(bits as int, dim as int), i) == coordinate_sum(
            entry,
            packed@,
            i,
            bits as int,
            dim as int,
            dim as int,
        ),
{
    let ng = groups(bits as int, dim as int);
    lemma_group_counts(bits as int, dim as int);
    lemma_groups_add_codes(layout, packed@, n as int, bits as int, dim as int, luts, entry, i, ng);
}

/// The sums of a block are those of its rows, each over all coordinates, and
/// lanes past the last row have none.
pub proof fn law_block_sums_add_every_coordinate(
    layout: Layout,
    packed: &[u8],
    n: usize,
    bits: usize,
    dim: usize,
    blocks: (Vec<u8>, usize),
    codes: &[u8],
    luts: &[u8],
    entry: spec_fn(int, int) -> int,
    block: usize,
    ng: usize,
    r: Vec<Option<u32>>,
)
    requires
        2 <= bits <= 4,
        dim % 8 == 0,
        n * (bits * (dim / 8)) <= packed@.len(),
        repack.ensures((packed, n, bits, dim, layout), blocks),
        codes@ == blocks.0@,
        ng == groups(bits as int, dim as int),
        tabulates(luts@, entry, bits as int, dim as int),
        luts@.len() >= ng * 32,
        (block + 1) * (ng * 32) <= codes@.len(),
        ng <= 0x7F_FFFF,
        block_sums.ensures((layout, codes, luts, block, ng, n), r),
    ensures
        r@.len() == 32,
        forall|l: int|
            0 <= l < 32 ==> match #[trigger] r@[l] {
                Some(sum) => block * 32 + l < n && sum == coordinate_sum(
                    entry,
                    packed@,
                    block * 32 + l,
                    bits as int,
                    dim as int,
                    dim as int,
                ),
                None => block * 32 + l >= n,
            },
{
    assert forall|l: int| 0 <= l < 32 implies match #[trigger] r@[l] {
        Some(sum) => block * 32 + l < n && sum == coordinate_sum(
            entry,
            packed@,
            block * 32 + l,
            bits as int,
            dim as int,
            dim as int,
        ),
        None => block * 32 + l >= n,
    } by {
        let i = block * 32 + l;
        if i < n {
            assert(i / 32 == block && i % 32 == l);
            law_row_sum_adds_every_coordinate(layout, packed, n, bits, dim, blocks, luts@, entry, i);
            crate::scan::lemma_lane_sum(layout, codes@, luts@, block * (ng * 32), l, ng as int);
        }
    }
}

/// The scores of rows are what the scoring function gives for their sums over
/// all coordinates, row by row.
pub proof fn law_scores_follow_the_codes<F: Fn(u32, usize) -> u32>(
    layout: Layout,
    packed: &[u8],
    n: usize,
    bits: usize,
    dim: usize,
    blocks: (Vec<u8>, usize),
    codes: &[u8],
    luts: &[u8],
    entry: spec_fn(int, int) -> int,
    ng: usize,
    score: &F,
    r: Vec<u32>,
    i: int,
)
    requires
        2 <= bits <= 4,
        dim % 8 == 0,
        n * (bits * (dim / 8)) <= packed@.len(),
        repack.ensures((packed, n, bits, dim, layout), blocks),
        codes@ == blocks.0@,
        ng == groups(bits as int, dim as int),
        tabulates(luts@, entry, bits as int, dim as int),
        score_rows::<F>.ensures((layout, codes, luts, ng, n, score), r),
        0 <= i < n,
    ensures
        r@.len() == n,
        score.ensures(
            (coordinate_sum(entry, packed@, i, bits as int, dim as int, dim as int) as u32, i as usize),
            r@[i],
        ),
{
    law_row_sum_adds_every_coordinate(layout, packed, n, bits, dim, blocks, luts@, entry, i);
}

/// An entry of a table is the level that it stands for, but 127 at most; and
/// the width of a level is the step, or 1 where that is no positive number.
pub proof fn law_levels_are_capped(levels: &[u32], r: Vec<u8>, i: int, step: u32, scale: u32)
    requires
        lut_entries.ensures((levels,), r),
        lut_scale.ensures((step,), scale),
        0 <= i < levels@.len(),
    ensures
        r@.len() == levels@.len(),
        levels@[i] <= 127 ==> r@[i] == levels@[i],
        levels@[i] >= 127 ==> r@[i] == 127,
        0 < step < 0x7F80_0000 ==> scale == step,
        !(0 < step < 0x7F80_0000) ==> scale == 0x3F80_0000,
{
}

/// The span of numbers is from one that none is less than to one that none
/// exceeds.
pub proof fn law_span_holds_all(values: &[u32], r: (u32, u32), i: int)
    requires
        span.ensures((values,), r),
        0 <= i < values@.len(),
    ensures
        !greater(r.0, values@[i]),
        !greater(values@[i], r.1),
        values@.contains(r.0),
        values@.contains(r.1),
{
    law_greater_scores_rank_first(r.0, values@[i]);
    law_greater_scores_rank_first(values@[i], r.1);
}

} // verus!
