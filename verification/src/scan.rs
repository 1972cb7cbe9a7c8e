//! Scoring of blocked codes through look-up tables.
//!
//! The products of a query are quantized to a table of bytes; a row's sum over
//! the table is an integer. The arithmetic on the numbers themselves is the
//! caller's, handed in as functions on bit patterns.
use vstd::prelude::*;
use crate::math::ceil_div;
use crate::pack::{group_lane, read_blocked, Layout};
use crate::rank::{score_rank, NEG_INFINITY_BITS};
use crate::tvdm::finite_positive;
use crate::write::ONE_BITS;

verus! {

/// Largest entry of a look-up table: two of them add up within a byte.
pub const LUT_MAX: u8 = 127;

/// A table of levels, each capped at [`LUT_MAX`].
pub fn lut_entries(levels: &[u32]) -> (r: Vec<u8>)
    ensures
        r@.len() == levels@.len(),
        forall|i: int|
            0 <= i < levels@.len() ==> #[trigger] r@[i] == entry_of(levels@[i]),
        in_range(r@),
{
    let mut r: Vec<u8> = Vec::new();
    let mut i: usize = 0;
    while i < levels.len()
        invariant
            i <= levels@.len(),
            r@.len() == i,
            forall|k: int|
                0 <= k < i ==> #[trigger] r@[k] == entry_of(levels@[k]),
        decreases levels.len() - i,
    {
        let level: u32 = levels[i];
        r.push(
            if level < LUT_MAX as u32 {
                level as u8
            } else {
                LUT_MAX
            },
        );
        i = i + 1;
    }
    r
}

/// No entry exceeds [`LUT_MAX`].
pub open spec fn in_range(luts: Seq<u8>) -> bool {
    forall|i: int| 0 <= i < luts.len() ==> #[trigger] luts[i] <= LUT_MAX
}

/// Two entries add up within a byte.
pub proof fn law_pairs_fit_a_byte(luts: Seq<u8>, i: int, j: int)
    requires
        in_range(luts),
        0 <= i < luts.len(),
        0 <= j < luts.len(),
    ensures
        luts[i] + luts[j] <= 255,
{
}

/// Bit pattern of the width of a level: `step`, or 1 where the values to
/// quantize have no span and the step is not a positive number.
pub fn lut_scale(step: u32) -> (r: u32)
    ensures
        r == scale_of(step),
        finite_positive(r),
{
    if 0 < step && step < 0x7F80_0000 {
        step
    } else {
        ONE_BITS
    }
}

/// A query's table: the quantized products, the width of a level and the
/// product that level 0 stands for.
pub struct QueryLut {
    pub entries: Vec<u8>,
    /// Bit pattern.
    pub scale: u32,
    /// Bit pattern.
    pub least: u32,
}

/// `m` is one of `values`, and none is less.
pub open spec fn is_least(values: Seq<u32>, m: u32) -> bool {
    &&& values.contains(m)
    &&& forall|i: int| 0 <= i < values.len() ==> score_rank(#[trigger] values[i]) <= score_rank(m)
}

/// `m` is one of `values`, and none is greater.
pub open spec fn is_most(values: Seq<u32>, m: u32) -> bool {
    &&& values.contains(m)
    &&& forall|i: int| 0 <= i < values.len() ==> score_rank(m) <= score_rank(#[trigger] values[i])
}

/// A level as an entry of a table.
pub open spec fn entry_of(level: u32) -> u8 {
    if level < LUT_MAX {
        level as u8
    } else {
        LUT_MAX
    }
}

/// The width of a level, from the step between two.
pub open spec fn scale_of(step: u32) -> u32 {
    if finite_positive(step) {
        step
    } else {
        ONE_BITS
    }
}

/// `e` is the entry of a level that `level` gives for `p` above `least`.
pub open spec fn quantized<L: Fn(u32, u32, u32) -> u32>(level: L, p: u32, least: u32, scale: u32, e: u8) -> bool {
    exists|v: u32| #[trigger] level.ensures((p, least, scale), v) && e == entry_of(v)
}

/// `scale` is the width of a level for products from `least` to the greatest.
pub open spec fn stepped<S: Fn(u32, u32) -> u32>(step: S, products: Seq<u32>, least: u32, scale: u32) -> bool {
    exists|most: u32, v: u32|
        is_most(products, most) && #[trigger] step.ensures((least, most), v) && scale == scale_of(v)
}

fn rank_of(bits: u32) -> (r: u64)
    ensures
        r == score_rank(bits),
{
    if bits < 0x8000_0000 {
        (0x7FFF_FFFF - bits) as u64
    } else {
        bits as u64
    }
}

/// The least and the greatest of some numbers (bit patterns).
pub fn span(values: &[u32]) -> (r: (u32, u32))
    requires
        values@.len() > 0,
    ensures
        is_least(values@, r.0),
        is_most(values@, r.1),
{
    let mut least: u32 = values[0];
    let mut most: u32 = values[0];
    let mut i: usize = 1;
    assert(values@.contains(least));
    while i < values.len()
        invariant
            1 <= i <= values@.len(),
            values@.contains(least),
            values@.contains(most),
            forall|k: int| 0 <= k < i ==> score_rank(#[trigger] values@[k]) <= score_rank(least),
            forall|k: int| 0 <= k < i ==> score_rank(most) <= score_rank(#[trigger] values@[k]),
        decreases values.len() - i,
    {
        let v: u32 = values[i];
        assert(values@.contains(v));
        if rank_of(v) > rank_of(least) {
            least = v;
        }
        if rank_of(v) < rank_of(most) {
            most = v;
        }
        i = i + 1;
    }
    (least, most)
}

/// Quantizes the products of a query (bit patterns). `step` gives the width of
/// a level between the least and the greatest product, and `level` the level
/// of a product above the least at a width.
pub fn build_lut<S: Fn(u32, u32) -> u32, L: Fn(u32, u32, u32) -> u32>(products: &[u32], step: &S, level: &L) -> (r:
    QueryLut)
    requires
        products@.len() > 0,
        forall|a: u32, b: u32| step.requires((a, b)),
        forall|a: u32, b: u32, c: u32| level.requires((a, b, c)),
    ensures
        is_least(products@, r.least),
        stepped(*step, products@, r.least, r.scale),
        finite_positive(r.scale),
        r.entries@.len() == products@.len(),
        forall|i: int|
            0 <= i < products@.len() ==> quantized(*level, products@[i], r.least, r.scale, #[trigger] r.entries@[i]),
        in_range(r.entries@),
{
    let (least, most) = span(products);
    let width: u32 = step(least, most);
    let scale: u32 = lut_scale(width);
    let mut levels: Vec<u32> = Vec::new();
    while levels.len() < products.len()
        invariant
            levels@.len() <= products@.len(),
            forall|a: u32, b: u32, c: u32| level.requires((a, b, c)),
            forall|i: int|
                0 <= i < levels@.len() ==> level.ensures((products@[i], least, scale), #[trigger] levels@[i]),
        decreases products.len() - levels.len(),
    {
        let v: u32 = level(products[levels.len()], least, scale);
        levels.push(v);
    }
    let entries: Vec<u8> = lut_entries(levels.as_slice());
    assert forall|i: int| 0 <= i < products@.len() implies quantized(
        *level,
        products@[i],
        least,
        scale,
        #[trigger] entries@[i],
    ) by {
        assert(level.ensures((products@[i], least, scale), levels@[i]));
    }
    QueryLut { entries, scale, least }
}

/// The sum of lane `l` over the first `g` groups: each group byte looks up its
/// high and its low half.
pub open spec fn lane_sum(layout: Layout, codes: Seq<u8>, luts: Seq<u8>, o: int, l: int, g: int) -> int
    decreases g,
{
    if g <= 0 {
        0
    } else {
        let byte = group_lane(layout, codes, o + (g - 1) * 32, l);
        lane_sum(layout, codes, luts, o, l, g - 1) + luts[(g - 1) * 32 + byte as int / 16] + luts[(g - 1) * 32
            + 16 + byte as int % 16]
    }
}

/// A sum over groups stays small.
pub proof fn lemma_lane_sum(layout: Layout, codes: Seq<u8>, luts: Seq<u8>, o: int, l: int, g: int)
    requires
        0 <= g,
    ensures
        0 <= lane_sum(layout, codes, luts, o, l, g) <= 510 * g,
    decreases g,
{
    if g > 0 {
        lemma_lane_sum(layout, codes, luts, o, l, g - 1);
    }
}

/// The sums of the 32 lanes of block `block`, whose first vector is `32 *
/// block`; lanes past the last of `n_vectors` have none.
pub fn block_sums(layout: Layout, codes: &[u8], luts: &[u8], block: usize, ng: usize, n_vectors: usize) -> (r: Vec<
    Option<u32>,
>)
    requires
        ng <= 0x7F_FFFF,
        luts@.len() >= ng * 32,
        (block + 1) * (ng * 32) <= codes@.len(),
        block * 32 + 32 <= usize::MAX,
    ensures
        r@.len() == 32,
        forall|l: int|
            0 <= l < 32 ==> #[trigger] r@[l] == if block * 32 + l < n_vectors {
                Some(lane_sum(layout, codes@, luts@, block * (ng * 32), l, ng as int) as u32)
            } else {
                None
            },
{
    let clen: usize = codes.len();
    let mut r: Vec<Option<u32>> = Vec::new();
    let ghost o = block * (ng * 32);
    let mut l: usize = 0;
    while l < 32
        invariant
            l <= 32,
            ng <= 0x7F_FFFF,
            luts@.len() >= ng * 32,
            (block + 1) * (ng * 32) <= codes@.len(),
            clen == codes@.len(),
            block * 32 + 32 <= usize::MAX,
            o == block * (ng * 32),
            r@.len() == l,
            forall|k: int|
                0 <= k < l ==> #[trigger] r@[k] == if block * 32 + k < n_vectors {
                    Some(lane_sum(layout, codes@, luts@, o, k, ng as int) as u32)
                } else {
                    None
                },
        decreases 32 - l,
    {
        let i: usize = block * 32 + l;
        if i < n_vectors {
            let mut sum: u32 = 0;
            let mut g: usize = 0;
            while g < ng
                invariant
                    g <= ng,
                    ng <= 0x7F_FFFF,
                    luts@.len() >= ng * 32,
                    (block + 1) * (ng * 32) <= codes@.len(),
                    clen == codes@.len(),
                    o == block * (ng * 32),
                    i == block * 32 + l,
                    l < 32,
                    sum == lane_sum(layout, codes@, luts@, o, l as int, g as int),
                    sum <= 510 * g,
                decreases ng - g,
            {
                assert(i as int / 32 == block && i as int % 32 == l);
                let byte: u8 = read_blocked(layout, codes, ng, i, g);
                assert(byte == group_lane(layout, codes@, o + g * 32, l as int));
                let hi: usize = (byte / 16) as usize;
                let lo: usize = (byte % 16) as usize;
                sum = sum + luts[g * 32 + hi] as u32 + luts[g * 32 + 16 + lo] as u32;
                g = g + 1;
            }
            r.push(Some(sum));
        } else {
            r.push(None);
        }
        l = l + 1;
    }
    r
}

/// The sum of row `i` of blocked codes.
pub open spec fn row_sum(layout: Layout, codes: Seq<u8>, luts: Seq<u8>, ng: int, i: int) -> int {
    lane_sum(layout, codes, luts, (i / 32) * (ng * 32), i % 32, ng)
}

/// The scores (bit patterns) of the 32 lanes of block `block`. `score` turns
/// the sum of a row and its number into its score; a lane past the last of
/// `n_vectors` scores negative infinity.
pub fn score_block<F: Fn(u32, usize) -> u32>(
    layout: Layout,
    codes: &[u8],
    luts: &[u8],
    block: usize,
    ng: usize,
    n_vectors: usize,
    score: &F,
) -> (r: Vec<u32>)
    requires
        ng <= 0x7F_FFFF,
        luts@.len() >= ng * 32,
        (block + 1) * (ng * 32) <= codes@.len(),
        block * 32 + 32 <= usize::MAX,
        forall|s: u32, i: usize| i < n_vectors ==> score.requires((s, i)),
    ensures
        r@.len() == 32,
        forall|l: int|
            0 <= l < 32 ==> if block * 32 + l < n_vectors {
                score.ensures(
                    (
                        row_sum(layout, codes@, luts@, ng as int, block * 32 + l) as u32,
                        (block * 32 + l) as usize,
                    ),
                    #[trigger] r@[l],
                )
            } else {
                r@[l] == NEG_INFINITY_BITS
            },
{
    let sums: Vec<Option<u32>> = block_sums(layout, codes, luts, block, ng, n_vectors);
    let mut r: Vec<u32> = Vec::new();
    let mut l: usize = 0;
    while l < 32
        invariant
            l <= 32,
            r@.len() == l,
            sums@.len() == 32,
            block * 32 + 32 <= usize::MAX,
            forall|s: u32, i: usize| i < n_vectors ==> score.requires((s, i)),
            forall|k: int|
                0 <= k < 32 ==> #[trigger] sums@[k] == if block * 32 + k < n_vectors {
                    Some(lane_sum(layout, codes@, luts@, block * (ng * 32), k, ng as int) as u32)
                } else {
                    None
                },
            forall|k: int|
                0 <= k < l ==> if block * 32 + k < n_vectors {
                    score.ensures(
                        (
                            row_sum(layout, codes@, luts@, ng as int, block * 32 + k) as u32,
                            (block * 32 + k) as usize,
                        ),
                        #[trigger] r@[k],
                    )
                } else {
                    r@[k] == NEG_INFINITY_BITS
                },
        decreases 32 - l,
    {
        let i: usize = block * 32 + l;
        assert(i as int / 32 == block && i as int % 32 == l);
        let v: u32 = match sums[l] {
            Some(sum) => score(sum, i),
            None => NEG_INFINITY_BITS,
        };
        r.push(v);
        l = l + 1;
    }
    r
}

/// The scores (bit patterns) of the first `n_vectors` rows of blocked codes.
/// `score` turns the sum of a row and its number into its score.
pub fn score_rows<F: Fn(u32, usize) -> u32>(
    layout: Layout,
    codes: &[u8],
    luts: &[u8],
    ng: usize,
    n_vectors: usize,
    score: &F,
) -> (r: Vec<u32>)
    requires
        ng <= 0x7F_FFFF,
        luts@.len() >= ng * 32,
        ceil_div(n_vectors as int, 32) * (ng * 32) <= codes@.len(),
        n_vectors + 31 <= usize::MAX,
        forall|s: u32, i: usize| i < n_vectors ==> score.requires((s, i)),
    ensures
        r@.len() == n_vectors,
        forall|i: int|
            0 <= i < n_vectors ==> score.ensures(
                (row_sum(layout, codes@, luts@, ng as int, i) as u32, i as usize),
                #[trigger] r@[i],
            ),
{
    let mut r: Vec<u32> = Vec::new();
    let mut block: usize = 0;
    while block * 32 < n_vectors
        invariant
            ng <= 0x7F_FFFF,
            luts@.len() >= ng * 32,
            ceil_div(n_vectors as int, 32) * (ng * 32) <= codes@.len(),
            n_vectors + 31 <= usize::MAX,
            forall|s: u32, i: usize| i < n_vectors ==> score.requires((s, i)),
            block * 32 <= n_vectors + 31,
            r@.len() == if block * 32 < n_vectors {
                block * 32
            } else {
                n_vectors as int
            },
            forall|i: int|
                0 <= i < r@.len() ==> score.ensures(
                    (row_sum(layout, codes@, luts@, ng as int, i) as u32, i as usize),
                    #[trigger] r@[i],
                ),
        decreases n_vectors + 32 - block * 32,
    {
        proof {
            let blocks = ceil_div(n_vectors as int, 32);
            assert(block + 1 <= blocks);
            assert((block + 1) * (ng * 32) <= blocks * (ng * 32)) by (nonlinear_arith)
                requires
                    block + 1 <= blocks,
                    0 <= ng,
            ;
        }
        let lanes: Vec<u32> = score_block(layout, codes, luts, block, ng, n_vectors, score);
        let ghost done = r@;
        let mut l: usize = 0;
        while l < 32 && block * 32 + l < n_vectors
            invariant
                l <= 32,
                lanes@.len() == 32,
                n_vectors + 31 <= usize::MAX,
                block * 32 < n_vectors,
                done.len() == block * 32,
                block * 32 + l <= n_vectors,
                r@ == done + lanes@.take(l as int),
            decreases 32 - l,
        {
            r.push(lanes[l]);
            l = l + 1;
            assert(r@ =~= done + lanes@.take(l as int));
        }
        assert forall|i: int| 0 <= i < r@.len() implies score.ensures(
            (row_sum(layout, codes@, luts@, ng as int, i) as u32, i as usize),
            #[trigger] r@[i],
        ) by {
            if i < done.len() {
                assert(r@[i] == done[i]);
            } else {
                let k = i - done.len();
                assert(r@[i] == lanes@[k]);
            }
        }
        block = block + 1;
    }
    r
}

} // verus!
