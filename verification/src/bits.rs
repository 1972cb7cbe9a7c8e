//! Single bits of bytes and bitmaps.
use vstd::prelude::*;
use crate::pack::bit_of;
use crate::tvdm::bitmap_bit;

verus! {

/// A bit by division is the bit by shifting.
pub proof fn lemma_bit_is_shift(v: u8, k: u8)
    requires
        k < 8,
    ensures
        bit_of(v as int, k as int) == (v >> k) & 1,
{
    assert(v / 1 % 2 == (v >> 0u8) & 1 && v / 2 % 2 == (v >> 1u8) & 1 && v / 4 % 2 == (v >> 2u8) & 1 && v
        / 8 % 2 == (v >> 3u8) & 1 && v / 16 % 2 == (v >> 4u8) & 1 && v / 32 % 2 == (v >> 5u8) & 1 && v / 64
        % 2 == (v >> 6u8) & 1 && v / 128 % 2 == (v >> 7u8) & 1) by (bit_vector);
    assert(k == 0 || k == 1 || k == 2 || k == 3 || k == 4 || k == 5 || k == 6 || k == 7);
}

/// `byte` with bit `k` set.
pub fn set_bit(byte: u8, k: u8) -> (r: u8)
    requires
        k < 8,
    ensures
        forall|j: int|
            0 <= j < 8 ==> #[trigger] bit_of(r as int, j) == if j == k {
                1
            } else {
                bit_of(byte as int, j)
            },
{
    let r: u8 = byte | (1u8 << k);
    proof {
        assert forall|j: int| 0 <= j < 8 implies #[trigger] bit_of(r as int, j) == if j == k {
            1
        } else {
            bit_of(byte as int, j)
        } by {
            let i = j as u8;
            lemma_bit_is_shift(r, i);
            lemma_bit_is_shift(byte, i);
            assert(((byte | (1u8 << k)) >> i) & 1 == (if i == k {
                1u8
            } else {
                (byte >> i) & 1
            })) by (bit_vector)
                requires
                    k < 8,
                    i < 8,
            ;
        }
    }
    r
}

/// Row `r` is marked in the bitmap.
pub open spec fn marked(map: Seq<u8>, r: int) -> bool {
    r / 8 < map.len() && bitmap_bit(map, r)
}

/// Marked rows of `lo..hi`.
pub open spec fn marks(map: Seq<u8>, lo: int, hi: int) -> int
    decreases hi - lo,
{
    if hi <= lo {
        0
    } else {
        marks(map, lo, hi - 1) + (if marked(map, hi - 1) {
            1int
        } else {
            0int
        })
    }
}

/// Bounds of a count of marks.
pub proof fn lemma_marks_bound(map: Seq<u8>, lo: int, hi: int)
    requires
        lo <= hi,
    ensures
        0 <= marks(map, lo, hi) <= hi - lo,
    decreases hi - lo,
{
    if lo < hi {
        lemma_marks_bound(map, lo, hi - 1);
    }
}

/// Marks of adjoining ranges add up.
pub proof fn lemma_marks_split(map: Seq<u8>, lo: int, mid: int, hi: int)
    requires
        lo <= mid <= hi,
    ensures
        marks(map, lo, hi) == marks(map, lo, mid) + marks(map, mid, hi),
    decreases hi - mid,
{
    if mid < hi {
        lemma_marks_split(map, lo, mid, hi - 1);
    }
}

/// Bitmaps that agree on a range have the same marks there.
pub proof fn lemma_marks_same(a: Seq<u8>, b: Seq<u8>, lo: int, hi: int)
    requires
        forall|r: int| lo <= r < hi ==> marked(a, r) == #[trigger] marked(b, r),
    ensures
        marks(a, lo, hi) == marks(b, lo, hi),
    decreases hi - lo,
{
    if lo < hi {
        assert(marked(a, hi - 1) == marked(b, hi - 1));
        lemma_marks_same(a, b, lo, hi - 1);
    }
}

/// No marks on a clear range.
pub proof fn lemma_marks_none(map: Seq<u8>, lo: int, hi: int)
    requires
        forall|r: int| lo <= r < hi ==> !#[trigger] marked(map, r),
    ensures
        marks(map, lo, hi) == 0,
    decreases hi - lo,
{
    if lo < hi {
        assert(!marked(map, hi - 1));
        lemma_marks_none(map, lo, hi - 1);
    }
}

/// Whether row `r` is marked.
pub fn is_marked(map: &Vec<u8>, r: u64) -> (m: bool)
    ensures
        m == marked(map@, r as int),
{
    let len: usize = map.len();
    r / 8 < len as u64 && crate::pack::read_bit(map[(r / 8) as usize], (r % 8) as usize) == 1
}

/// Marks row `r`.
pub fn mark(map: &mut Vec<u8>, r: u64)
    requires
        r as int / 8 < old(map)@.len(),
    ensures
        final(map)@.len() == old(map)@.len(),
        forall|q: int|
            0 <= q ==> #[trigger] marked(final(map)@, q) == (q == r || marked(old(map)@, q)),
{
    let len: usize = map.len();
    let i: usize = (r / 8) as usize;
    let byte: u8 = set_bit(map[i], (r % 8) as u8);
    map.set(i, byte);
    proof {
        assert forall|q: int| 0 <= q implies #[trigger] marked(map@, q) == (q == r || marked(old(map)@, q)) by {
            if q / 8 == i {
                assert(q % 8 == r % 8 ==> q == r);
                assert(bit_of(byte as int, q % 8) == if q % 8 == r % 8 {
                    1
                } else {
                    bit_of(old(map)@[i as int] as int, q % 8)
                });
            }
        }
    }
}

/// Extends the bitmap with clear bytes so that it covers `rows` rows.
pub fn cover(map: &mut Vec<u8>, rows: u64)
    requires
        old(map)@.len() <= (rows + 7) / 8,
        (rows + 7) / 8 <= usize::MAX,
        rows + 7 <= u64::MAX,
    ensures
        final(map)@.len() == (rows + 7) / 8,
        forall|q: int| 0 <= q ==> #[trigger] marked(final(map)@, q) == marked(old(map)@, q),
{
    let want: usize = ((rows + 7) / 8) as usize;
    while map.len() < want
        invariant
            old(map)@.len() <= map@.len() <= want,
            forall|q: int| 0 <= q ==> #[trigger] marked(map@, q) == marked(old(map)@, q),
        decreases want - map.len(),
    {
        let ghost before = map@;
        map.push(0);
        proof {
            assert forall|q: int| 0 <= q implies #[trigger] marked(map@, q) == marked(old(map)@, q) by {
                assert(marked(before, q) == marked(old(map)@, q));
                if q / 8 == before.len() {
                    let k = q % 8;
                    assert(k == 0 || k == 1 || k == 2 || k == 3 || k == 4 || k == 5 || k == 6 || k == 7);
                    assert(bit_of(0, k) == 0);
                }
            }
        }
    }
}

/// Marked rows of `base..base + n`.
pub fn count_marks(map: &Vec<u8>, base: u64, n: usize) -> (r: usize)
    requires
        base + n <= u64::MAX,
    ensures
        r == marks(map@, base as int, base + n),
        r <= n,
{
    let len: usize = map.len();
    let mut r: usize = 0;
    let mut i: usize = 0;
    while i < n
        invariant
            i <= n,
            base + n <= u64::MAX,
            len == map@.len(),
            r <= i,
            r == marks(map@, base as int, base + i),
        decreases n - i,
    {
        let row: u64 = base + i as u64;
        if row % 8 == 0 && n - i >= 8 && (row / 8 >= len as u64 || map[(row / 8) as usize] == 0) {
            proof {
                lemma_clear_byte(map@, row as int);
                lemma_marks_split(map@, base as int, row as int, row + 8);
            }
            i = i + 8;
        } else {
            if is_marked(map, row) {
                r = r + 1;
            }
            i = i + 1;
        }
    }
    r
}

/// A byte that is zero or missing marks none of its rows.
proof fn lemma_clear_byte(map: Seq<u8>, row: int)
    requires
        0 <= row,
        row % 8 == 0,
        row / 8 >= map.len() || map[row / 8] == 0,
    ensures
        marks(map, row, row + 8) == 0,
{
    assert forall|q: int| row <= q < row + 8 implies !#[trigger] marked(map, q) by {
        assert(q / 8 == row / 8);
        let k = q % 8;
        assert(k == 0 || k == 1 || k == 2 || k == 3 || k == 4 || k == 5 || k == 6 || k == 7);
        assert(bit_of(0, k) == 0);
    }
    lemma_marks_none(map, row, row + 8);
}

} // verus!
