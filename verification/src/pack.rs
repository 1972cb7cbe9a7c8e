//! Code layouts: bit planes, nibble-packed group bytes, and SIMD blocks.
//!
//! A quantized vector has one code of `bits` bits per dimension. Three
//! layouts hold the same codes:
//!
//! * **bit planes** (`packed`): per vector, `bits` planes of `dim / 8` bytes;
//!   bit `7 - j % 8` of byte `j / 8` of plane `p` is bit `p` of code `j`;
//! * **group bytes** (`rows`): per vector, `8 / bits` codes to a byte, the
//!   first code in the highest bits (3-bit codes sit on 4-bit boundaries);
//! * **blocks**: the group bytes of [`BLOCK`] vectors, transposed so that one
//!   group of all of them is contiguous.
use vstd::prelude::*;
use vstd::arithmetic::div_mod::{
    lemma_div_denominator, lemma_hoist_over_denominator, lemma_mod_breakdown, lemma_small_mod,
};
use crate::math::{ceil_div, lemma_flat_bound, lemma_flat_index, lemma_flat_row, lemma_flat_split};

verus! {

/// Vectors per block.
pub const BLOCK: usize = 32;

/// Order in which a block stores the bytes of one group.
#[derive(Clone, Copy, Debug, PartialEq, Eq, Structural)]
pub enum Layout {
    /// One byte per vector, vectors in order.
    Sequential,
    /// High nibbles of two vectors share a byte, then the low nibbles, with
    /// the vectors interleaved so that two 128-bit halves line up.
    Interleaved,
}

impl Layout {
    /// The byte that names this layout in a file header.
    pub open spec fn tag_byte(self) -> u8 {
        match self {
            Layout::Sequential => 0,
            Layout::Interleaved => 1,
        }
    }

    /// The byte that names this layout in a file header.
    pub fn tag(self) -> (t: u8)
        ensures
            t == self.tag_byte(),
    {
        match self {
            Layout::Sequential => 0,
            Layout::Interleaved => 1,
        }
    }
}

/// `2^k` for the exponents that occur inside one byte.
pub open spec fn two_to(k: int) -> int {
    if k <= 0 {
        1
    } else if k == 1 {
        2
    } else if k == 2 {
        4
    } else if k == 3 {
        8
    } else if k == 4 {
        16
    } else if k == 5 {
        32
    } else if k == 6 {
        64
    } else if k == 7 {
        128
    } else {
        256
    }
}

/// Bits that one code takes inside a group byte.
pub open spec fn code_stride(bits: int) -> int {
    if bits == 3 {
        4
    } else {
        bits
    }
}

/// Codes per group byte: `8 / bits`.
pub open spec fn codes_per_byte(bits: int) -> int {
    if bits <= 1 {
        8
    } else if bits == 2 {
        4
    } else if bits <= 4 {
        2
    } else {
        1
    }
}

/// Group bytes per vector.
pub open spec fn groups(bits: int, dim: int) -> int {
    dim / codes_per_byte(bits)
}

/// Group bytes per vector.
pub fn n_byte_groups(bits: usize, dim: usize) -> (n: usize)
    requires
        1 <= bits <= 8,
    ensures
        n == groups(bits as int, dim as int),
{
    dim / codes_per_byte_exec(bits)
}

fn codes_per_byte_exec(bits: usize) -> (m: usize)
    requires
        1 <= bits <= 8,
    ensures
        m == codes_per_byte(bits as int),
        1 <= m <= 8,
{
    if bits == 1 {
        8
    } else if bits == 2 {
        4
    } else if bits <= 4 {
        2
    } else {
        1
    }
}

fn two_to_exec(k: usize) -> (r: u32)
    requires
        k <= 8,
    ensures
        r == two_to(k as int),
{
    if k == 0 {
        1
    } else if k == 1 {
        2
    } else if k == 2 {
        4
    } else if k == 3 {
        8
    } else if k == 4 {
        16
    } else if k == 5 {
        32
    } else if k == 6 {
        64
    } else if k == 7 {
        128
    } else {
        256
    }
}

/// Bit `k` of `v`, as 0 or 1.
pub open spec fn bit_of(v: int, k: int) -> int {
    v / two_to(k) % 2
}

/// Bit `p` of the code of dimension `j` of vector `v`.
pub open spec fn plane_bit(packed: Seq<u8>, v: int, p: int, j: int, bits: int, dim: int) -> int {
    bit_of(packed[v * (bits * (dim / 8)) + p * (dim / 8) + j / 8] as int, 7 - j % 8)
}

/// The value of the lowest `p` bits of the code of dimension `j` of vector `v`.
pub open spec fn code_low(packed: Seq<u8>, v: int, j: int, bits: int, dim: int, p: nat) -> int
    decreases p,
{
    if p == 0 {
        0
    } else {
        code_low(packed, v, j, bits, dim, (p - 1) as nat) + two_to(p - 1) * plane_bit(
            packed,
            v,
            p - 1,
            j,
            bits,
            dim,
        )
    }
}

/// The code of dimension `j` of vector `v`.
pub open spec fn plane_code(packed: Seq<u8>, v: int, j: int, bits: int, dim: int) -> int {
    code_low(packed, v, j, bits, dim, bits as nat)
}

/// The first `c` codes of group `g`, first code highest.
pub open spec fn group_high(packed: Seq<u8>, v: int, g: int, bits: int, dim: int, c: nat) -> int
    decreases c,
{
    if c == 0 {
        0
    } else {
        group_high(packed, v, g, bits, dim, (c - 1) as nat) * two_to(code_stride(bits)) + plane_code(
            packed,
            v,
            g * codes_per_byte(bits) + c - 1,
            bits,
            dim,
        )
    }
}

/// Group byte `g` of vector `v`.
pub open spec fn group_byte(packed: Seq<u8>, v: int, g: int, bits: int, dim: int) -> int {
    group_high(packed, v, g, bits, dim, codes_per_byte(bits) as nat)
}

/// The group bytes of `n` vectors, row-major.
pub open spec fn group_rows(packed: Seq<u8>, n: int, bits: int, dim: int) -> Seq<u8> {
    Seq::new(
        (n * groups(bits, dim)) as nat,
        |q: int| group_byte(packed, q / groups(bits, dim), q % groups(bits, dim), bits, dim) as u8,
    )
}

/// Code `c` of a group byte.
pub open spec fn code_in_group(byte: u8, c: int, bits: int) -> int {
    byte as int / two_to((codes_per_byte(bits) - 1 - c) * code_stride(bits)) % two_to(bits)
}

/// The code of dimension `j` of vector `v` of group-byte rows.
pub open spec fn row_code(rows: Seq<u8>, v: int, j: int, bits: int, dim: int) -> int {
    code_in_group(
        rows[v * groups(bits, dim) + j / codes_per_byte(bits)],
        j % codes_per_byte(bits),
        bits,
    )
}

/// Plane byte `b` of plane `p` of vector `v`: bit `p` of eight codes.
pub open spec fn plane_high(rows: Seq<u8>, v: int, p: int, b: int, bits: int, dim: int, k: nat) -> int
    decreases k,
{
    if k == 0 {
        0
    } else {
        plane_high(rows, v, p, b, bits, dim, (k - 1) as nat) * 2 + bit_of(
            row_code(rows, v, 8 * b + k - 1, bits, dim),
            p,
        )
    }
}

/// The bit planes that hold the codes of `n` group-byte rows.
pub open spec fn planes_of_rows(rows: Seq<u8>, n: int, bits: int, dim: int) -> Seq<u8> {
    Seq::new(
        (n * (bits * (dim / 8))) as nat,
        |q: int|
            plane_high(
                rows,
                q / (bits * (dim / 8)),
                q % (bits * (dim / 8)) / (dim / 8),
                q % (bits * (dim / 8)) % (dim / 8),
                bits,
                dim,
                8,
            ) as u8,
    )
}

/// A code has no more bits than there are planes.
pub proof fn lemma_code_bound(packed: Seq<u8>, v: int, j: int, bits: int, dim: int, p: nat)
    requires
        p <= 8,
    ensures
        0 <= code_low(packed, v, j, bits, dim, p) < two_to(p as int),
    decreases p,
{
    if p > 0 {
        lemma_code_bound(packed, v, j, bits, dim, (p - 1) as nat);
        let b = plane_bit(packed, v, p - 1, j, bits, dim);
        assert(b == 0 || b == 1);
        assert(two_to(p - 1) * b == if b == 0 { 0 } else { two_to(p - 1) }) by (nonlinear_arith)
            requires
                b == 0 || b == 1,
        ;
    }
}

/// Reads one bit of a byte, counted from the lowest.
pub fn read_bit(byte: u8, k: usize) -> (b: u32)
    requires
        k <= 7,
    ensures
        b == bit_of(byte as int, k as int),
        b <= 1,
{
    let byte: u32 = byte as u32;
    if k == 0 {
        byte % 2
    } else if k == 1 {
        byte / 2 % 2
    } else if k == 2 {
        byte / 4 % 2
    } else if k == 3 {
        byte / 8 % 2
    } else if k == 4 {
        byte / 16 % 2
    } else if k == 5 {
        byte / 32 % 2
    } else if k == 6 {
        byte / 64 % 2
    } else {
        byte / 128 % 2
    }
}

/// Byte `b` of plane `p` of vector `v` lies inside the planes of `n` vectors.
proof fn lemma_plane_index(v: int, p: int, b: int, n: int, bits: int, plane: int)
    requires
        0 <= v < n,
        0 <= p < bits,
        0 <= b < plane,
    ensures
        0 <= p * plane + b < bits * plane,
        0 <= v * (bits * plane) + p * plane + b < n * (bits * plane),
        0 <= v * (bits * plane),
        0 <= p * plane,
{
    lemma_flat_bound(p, b, bits, plane);
    lemma_flat_bound(v, p * plane + b, n, bits * plane);
    lemma_flat_index(v, p * plane + b, bits * plane);
    lemma_flat_index(p, b, plane);
}

/// The code of dimension `j` of vector `v`.
pub fn read_plane_code(packed: &[u8], v: usize, j: usize, bits: usize, dim: usize, n: usize) -> (code: u32)
    requires
        1 <= bits <= 8,
        dim % 8 == 0,
        j < dim,
        v < n,
        n * (bits * (dim / 8)) <= packed.len(),
    ensures
        code == plane_code(packed@, v as int, j as int, bits as int, dim as int),
        code < two_to(bits as int),
{
    let plane: usize = dim / 8;
    let mut code: u32 = 0;
    let mut p: usize = 0;
    while p < bits
        invariant
            1 <= bits <= 8,
            p <= bits,
            plane == dim / 8,
            dim % 8 == 0,
            j < dim,
            v < n,
            n * (bits * (dim / 8)) <= packed.len(),
            code == code_low(packed@, v as int, j as int, bits as int, dim as int, p as nat),
            code < two_to(p as int),
        decreases bits - p,
    {
        proof {
            lemma_plane_index(v as int, p as int, j as int / 8, n as int, bits as int, plane as int);
            assert(0 <= bits * plane <= packed.len()) by (nonlinear_arith)
                requires
                    n * (bits * plane) <= packed.len(),
                    0 < n,
                    0 <= bits * plane,
                    0 <= v * (bits * plane) < n * (bits * plane),
            ;
            lemma_code_bound(packed@, v as int, j as int, bits as int, dim as int, (p + 1) as nat);
        }
        let byte: u8 = packed[v * (bits * plane) + p * plane + j / 8];
        let bit: u32 = read_bit(byte, 7 - j % 8);
        let weight: u32 = two_to_exec(p);
        assert(weight * bit == if bit == 0 { 0 } else { weight as int }) by (nonlinear_arith)
            requires
                bit == 0 || bit == 1,
        ;
        code = code + weight * bit;
        p = p + 1;
    }
    code
}

/// Each further code of a group takes another `code_stride` bits.
proof fn lemma_stride_step(bits: int, c: int)
    requires
        1 <= bits <= 8,
        1 <= c <= codes_per_byte(bits),
    ensures
        two_to(c * code_stride(bits)) == two_to((c - 1) * code_stride(bits)) * two_to(code_stride(bits)),
        two_to(bits) <= two_to(code_stride(bits)),
        0 <= c * code_stride(bits) <= 8,
        (c - 1) * code_stride(bits) == c * code_stride(bits) - code_stride(bits),
{
    let s = code_stride(bits);
    assert(bits == 1 || bits == 2 || bits == 3 || bits == 4 || bits == 5 || bits == 6 || bits == 7 || bits == 8);
    assert(c == 1 || c == 2 || c == 3 || c == 4 || c == 5 || c == 6 || c == 7 || c == 8);
    assert((c - 1) * s == c * s - s) by (nonlinear_arith);
    let lo = two_to(c * s - s);
    let base = two_to(s);
    let all = two_to(c * s);
    if bits == 1 {
        assert(base == 2 && all == 2 * lo);
        assert(lo * base == 2 * lo) by (nonlinear_arith) requires base == 2;
    } else if bits == 2 {
        assert(base == 4 && all == 4 * lo);
        assert(lo * base == 4 * lo) by (nonlinear_arith) requires base == 4;
    } else if bits <= 4 {
        assert(base == 16 && all == 16 * lo);
        assert(lo * base == 16 * lo) by (nonlinear_arith) requires base == 16;
    } else {
        assert(lo == 1 && all == base);
        assert(lo * base == base) by (nonlinear_arith) requires lo == 1;
    }
}

/// The first codes of a group never outgrow a byte.
proof fn lemma_group_bound(packed: Seq<u8>, v: int, g: int, bits: int, dim: int, c: nat)
    requires
        1 <= bits <= 8,
        c <= codes_per_byte(bits),
    ensures
        0 <= group_high(packed, v, g, bits, dim, c) < two_to(c * code_stride(bits)),
        two_to(c * code_stride(bits)) <= 256,
    decreases c,
{
    if c > 0 {
        lemma_group_bound(packed, v, g, bits, dim, (c - 1) as nat);
        lemma_code_bound(packed, v, g * codes_per_byte(bits) + c - 1, bits, dim, bits as nat);
        lemma_stride_step(bits, c as int);
        let h = group_high(packed, v, g, bits, dim, (c - 1) as nat);
        let top = two_to((c - 1) * code_stride(bits));
        let base = two_to(code_stride(bits));
        let code = plane_code(packed, v, g * codes_per_byte(bits) + c - 1, bits, dim);
        assert(0 <= h * base + code < top * base) by (nonlinear_arith)
            requires
                0 <= h < top,
                0 <= code < base,
        ;
    }
}

/// Extracts per-vector group bytes from bit-plane packed codes.
pub fn group_bytes(packed: &[u8], n_vectors: usize, bits: usize, dim: usize) -> (rows: Vec<u8>)
    requires
        1 <= bits <= 8,
        dim % 8 == 0,
        n_vectors * (bits * (dim / 8)) <= packed.len(),
    ensures
        rows@ == group_rows(packed@, n_vectors as int, bits as int, dim as int),
{
    let ng: usize = n_byte_groups(bits, dim);
    let per_byte: usize = codes_per_byte_exec(bits);
    let stride: usize = if bits == 3 { 4 } else { bits };
    let base: u32 = two_to_exec(stride);
    let mut rows: Vec<u8> = Vec::new();
    let mut v: usize = 0;
    while v < n_vectors
        invariant
            1 <= bits <= 8,
            dim % 8 == 0,
            v <= n_vectors,
            ng == groups(bits as int, dim as int),
            per_byte == codes_per_byte(bits as int),
            base == two_to(code_stride(bits as int)),
            n_vectors * (bits * (dim / 8)) <= packed.len(),
            rows@ == group_rows(packed@, v as int, bits as int, dim as int),
        decreases n_vectors - v,
    {
        let mut g: usize = 0;
        while g < ng
            invariant
                1 <= bits <= 8,
                dim % 8 == 0,
                v < n_vectors,
                g <= ng,
                ng == groups(bits as int, dim as int),
                per_byte == codes_per_byte(bits as int),
                base == two_to(code_stride(bits as int)),
                n_vectors * (bits * (dim / 8)) <= packed.len(),
                    rows@.len() == v * ng + g,
                forall|q: int|
                    0 <= q < v * ng + g ==> rows@[q] == group_byte(
                        packed@,
                        q / ng as int,
                        q % ng as int,
                        bits as int,
                        dim as int,
                    ) as u8,
            decreases ng - g,
        {
            let mut byte: u32 = 0;
            let mut c: usize = 0;
            proof {
                lemma_groups_cover(bits as int, dim as int, g as int);
            }
            while c < per_byte
                invariant
                    1 <= bits <= 8,
                    dim % 8 == 0,
                    v < n_vectors,
                    g < ng,
                    c <= per_byte,
                    per_byte == codes_per_byte(bits as int),
                    g * per_byte + per_byte <= dim,
                    base == two_to(code_stride(bits as int)),
                    n_vectors * (bits * (dim / 8)) <= packed.len(),
                    byte == group_high(packed@, v as int, g as int, bits as int, dim as int, c as nat),
                    byte < two_to(c * code_stride(bits as int)),
                decreases per_byte - c,
            {
                proof {
                    lemma_group_bound(packed@, v as int, g as int, bits as int, dim as int, c as nat);
                    lemma_group_bound(packed@, v as int, g as int, bits as int, dim as int, (c + 1) as nat);
                    assert(byte * base <= 256 * 256) by (nonlinear_arith)
                        requires
                            0 <= byte <= 256,
                            0 <= base <= 256,
                    ;
                    assert(0 <= g * per_byte) by (nonlinear_arith);
                }
                let code: u32 = read_plane_code(packed, v, g * per_byte + c, bits, dim, n_vectors);
                byte = byte * base + code;
                c = c + 1;
            }
            proof {
                lemma_group_bound(packed@, v as int, g as int, bits as int, dim as int, per_byte as nat);
                lemma_flat_index(v as int, g as int, ng as int);
            }
            rows.push(byte as u8);
            g = g + 1;
        }
        proof {
            lemma_flat_bound(v as int, 0, n_vectors as int, if ng == 0 { 1 } else { ng as int });
            assert((v + 1) * ng == v * ng + ng) by (nonlinear_arith);
            assert(0 <= v * ng) by (nonlinear_arith);
        }
        v = v + 1;
        assert(rows@ =~= group_rows(packed@, v as int, bits as int, dim as int));
    }
    rows
}

/// Every code of a group belongs to a dimension.
proof fn lemma_groups_cover(bits: int, dim: int, g: int)
    requires
        1 <= bits <= 8,
        0 <= g < groups(bits, dim),
        0 <= dim,
    ensures
        g * codes_per_byte(bits) + codes_per_byte(bits) <= dim,
{
    let m = codes_per_byte(bits);
    assert(g * m + m <= dim) by (nonlinear_arith)
        requires
            g < dim / m,
            1 <= m,
            0 <= dim,
    ;
}

/// Codes per byte divides eight, so the group of a dimension exists.
proof fn lemma_group_of(bits: int, dim: int, j: int)
    requires
        1 <= bits <= 8,
        dim % 8 == 0,
        0 <= j < dim,
    ensures
        0 <= j / codes_per_byte(bits) < groups(bits, dim),
        0 <= j % codes_per_byte(bits) < codes_per_byte(bits),
        j == j / codes_per_byte(bits) * codes_per_byte(bits) + j % codes_per_byte(bits),
        groups(bits, dim) * codes_per_byte(bits) == dim,
{
    let m = codes_per_byte(bits);
    assert(dim % m == 0) by {
        if m == 8 {
        } else if m == 4 {
            assert(dim % 4 == 0);
        } else if m == 2 {
            assert(dim % 2 == 0);
        } else {
            assert(dim % 1 == 0);
        }
    }
    lemma_flat_split(dim, m);
    lemma_flat_row(j, dim / m, m);
}

/// The code of dimension `j` of row `v`.
pub fn read_row_code(rows: &[u8], v: usize, j: usize, bits: usize, dim: usize, n: usize) -> (code: u32)
    requires
        1 <= bits <= 8,
        dim % 8 == 0,
        j < dim,
        v < n,
        n * groups(bits as int, dim as int) <= rows.len(),
    ensures
        code == row_code(rows@, v as int, j as int, bits as int, dim as int),
        code < two_to(bits as int),
{
    let per_byte: usize = codes_per_byte_exec(bits);
    let ng: usize = n_byte_groups(bits, dim);
    let stride: usize = if bits == 3 { 4 } else { bits };
    proof {
        lemma_group_of(bits as int, dim as int, j as int);
        lemma_flat_bound(v as int, j as int / per_byte as int, n as int, ng as int);
        lemma_flat_index(v as int, j as int / per_byte as int, ng as int);
        lemma_stride_step(bits as int, per_byte as int - j as int % per_byte as int);
    }
    let byte: u32 = rows[v * ng + j / per_byte] as u32;
    let shift: usize = (per_byte - 1 - j % per_byte) * stride;
    byte / two_to_exec(shift) % two_to_exec(bits)
}

/// Eight bits make a byte.
proof fn lemma_plane_high_bound(rows: Seq<u8>, v: int, p: int, b: int, bits: int, dim: int, k: nat)
    requires
        k <= 8,
    ensures
        0 <= plane_high(rows, v, p, b, bits, dim, k) < two_to(k as int),
    decreases k,
{
    if k > 0 {
        lemma_plane_high_bound(rows, v, p, b, bits, dim, (k - 1) as nat);
    }
}

/// Bit `p` of eight consecutive codes of row `v`.
fn read_plane_byte(rows: &[u8], v: usize, p: usize, b: usize, bits: usize, dim: usize, n: usize) -> (byte: u8)
    requires
        1 <= bits <= 8,
        dim % 8 == 0,
        p < bits,
        b < dim / 8,
        v < n,
        n * groups(bits as int, dim as int) <= rows.len(),
    ensures
        byte == plane_high(rows@, v as int, p as int, b as int, bits as int, dim as int, 8),
{
    let mut byte: u32 = 0;
    let mut k: usize = 0;
    while k < 8
        invariant
            k <= 8,
            1 <= bits <= 8,
            dim % 8 == 0,
            p < bits,
            b < dim / 8,
            v < n,
            n * groups(bits as int, dim as int) <= rows.len(),
            byte == plane_high(rows@, v as int, p as int, b as int, bits as int, dim as int, k as nat),
            byte < two_to(k as int),
        decreases 8 - k,
    {
        let code: u32 = read_row_code(rows, v, 8 * b + k, bits, dim, n);
        proof {
            lemma_plane_high_bound(rows@, v as int, p as int, b as int, bits as int, dim as int, (k + 1) as nat);
        }
        byte = byte * 2 + code / two_to_exec(p) % 2;
        k = k + 1;
    }
    byte as u8
}

/// The planes of the first vectors do not depend on the later ones.
proof fn lemma_planes_grow(rows: Seq<u8>, v: int, bits: int, dim: int)
    requires
        0 <= v,
        0 <= bits,
        0 <= dim,
    ensures
        planes_of_rows(rows, v, bits, dim).len() == v * (bits * (dim / 8)),
        forall|q: int|
            0 <= q < v * (bits * (dim / 8)) ==> planes_of_rows(rows, v, bits, dim)[q] == planes_of_rows(
                rows,
                v + 1,
                bits,
                dim,
            )[q],
{
    let width = bits * (dim / 8);
    assert(0 <= width) by (nonlinear_arith)
        requires
            0 <= bits,
            0 <= dim,
            width == bits * (dim / 8),
    ;
    assert(0 <= v * width <= (v + 1) * width) by (nonlinear_arith)
        requires
            0 <= v,
            0 <= width,
    ;
}

/// Rebuilds bit-plane packed codes from group-byte rows.
pub fn packed_from_group_bytes(rows: &[u8], n_vectors: usize, bits: usize, dim: usize) -> (packed: Vec<u8>)
    requires
        1 <= bits <= 8,
        dim % 8 == 0,
        rows.len() == n_vectors * groups(bits as int, dim as int),
    ensures
        packed@ == planes_of_rows(rows@, n_vectors as int, bits as int, dim as int),
{
    let plane: usize = dim / 8;
    let ghost width = bits * plane;
    let mut packed: Vec<u8> = Vec::new();
    let mut v: usize = 0;
    while v < n_vectors
        invariant
            1 <= bits <= 8,
            dim % 8 == 0,
            plane == dim / 8,
            width == bits * plane,
            v <= n_vectors,
            rows.len() == n_vectors * groups(bits as int, dim as int),
            packed@ == planes_of_rows(rows@, v as int, bits as int, dim as int),
        decreases n_vectors - v,
    {
        proof {
            lemma_planes_grow(rows@, v as int, bits as int, dim as int);
        }
        let ghost base = v * width;
        let mut p: usize = 0;
        assert(packed@.len() == base) by {
            assert(0 <= v * width) by (nonlinear_arith)
                requires
                    0 <= v,
                    0 <= width,
            ;
        }
        while p < bits
            invariant
                1 <= bits <= 8,
                dim % 8 == 0,
                plane == dim / 8,
                width == bits * plane,
                base == v * width,
                v < n_vectors,
                p <= bits,
                rows.len() == n_vectors * groups(bits as int, dim as int),
                packed@.len() == base + p * plane,
                forall|q: int|
                    0 <= q < packed@.len() ==> packed@[q] == planes_of_rows(
                        rows@,
                        v + 1,
                        bits as int,
                        dim as int,
                    )[q],
            decreases bits - p,
        {
            let mut b: usize = 0;
            while b < plane
                invariant
                    1 <= bits <= 8,
                    dim % 8 == 0,
                    plane == dim / 8,
                    width == bits * plane,
                    base == v * width,
                    v < n_vectors,
                    p < bits,
                    b <= plane,
                    rows.len() == n_vectors * groups(bits as int, dim as int),
                    packed@.len() == base + p * plane + b,
                    forall|q: int|
                        0 <= q < packed@.len() ==> packed@[q] == planes_of_rows(
                            rows@,
                            v + 1,
                            bits as int,
                            dim as int,
                        )[q],
                decreases plane - b,
            {
                let byte: u8 = read_plane_byte(rows, v, p, b, bits, dim, n_vectors);
                proof {
                    lemma_plane_index(v as int, p as int, b as int, v + 1, bits as int, plane as int);
                    lemma_flat_index(v as int, p * plane + b, width);
                    lemma_flat_index(p as int, b as int, plane as int);
                }
                packed.push(byte);
                b = b + 1;
            }
            proof {
                assert((p + 1) * plane == p * plane + plane) by (nonlinear_arith);
            }
            p = p + 1;
        }
        proof {
            assert((v + 1) * width == v * width + width) by (nonlinear_arith);
        }
        v = v + 1;
        assert(packed@ =~= planes_of_rows(rows@, v as int, bits as int, dim as int));
    }
    packed
}

/// Group byte `g` of vector `i`, zero past the last vector.
pub open spec fn lane_byte(rows: Seq<u8>, n: int, ng: int, i: int, g: int) -> u8 {
    if i < n {
        rows[i * ng + g]
    } else {
        0
    }
}

/// The vector, of the first sixteen, that position `j` of an interleaved
/// group belongs to: 0, 8, 1, 9, 2, 10, ...
pub open spec fn lane_at(j: int) -> int {
    j / 2 + 8 * (j % 2)
}

/// The position of lane `l` in an interleaved group.
pub open spec fn position_of_lane(l: int) -> int {
    if l < 8 {
        2 * l
    } else {
        2 * (l - 8) + 1
    }
}

/// Byte `q` of the block whose first vector is `base`.
pub open spec fn block_byte(layout: Layout, rows: Seq<u8>, n: int, ng: int, base: int, q: int) -> u8 {
    let g = q / 32;
    let j = q % 32;
    match layout {
        Layout::Sequential => lane_byte(rows, n, ng, base + j, g),
        Layout::Interleaved => if j < 16 {
            let a = lane_byte(rows, n, ng, base + lane_at(j), g);
            let b = lane_byte(rows, n, ng, base + lane_at(j) + 16, g);
            (a / 16 + 16 * (b / 16)) as u8
        } else {
            let a = lane_byte(rows, n, ng, base + lane_at(j - 16), g);
            let b = lane_byte(rows, n, ng, base + lane_at(j - 16) + 16, g);
            (a % 16 + 16 * (b % 16)) as u8
        },
    }
}

/// The block whose first vector is `base`; missing lanes are zero.
pub open spec fn block_of(layout: Layout, rows: Seq<u8>, n: int, ng: int, base: int) -> Seq<u8> {
    Seq::new((ng * 32) as nat, |q: int| block_byte(layout, rows, n, ng, base, q))
}

/// All blocks of `n` rows, one after the other.
pub open spec fn blocked(layout: Layout, rows: Seq<u8>, n: int, ng: int) -> Seq<u8> {
    Seq::new(
        (ceil_div(n, 32) * (ng * 32)) as nat,
        |q: int| block_byte(layout, rows, n, ng, q / (ng * 32) * 32, q % (ng * 32)),
    )
}

/// The byte of lane `l` in the 32 bytes of one group that start at `o`.
pub open spec fn group_lane(layout: Layout, codes: Seq<u8>, o: int, l: int) -> u8 {
    match layout {
        Layout::Sequential => codes[o + l],
        Layout::Interleaved => {
            let hi = codes[o + position_of_lane(l % 16)];
            let lo = codes[o + 16 + position_of_lane(l % 16)];
            if l < 16 {
                (hi % 16 * 16 + lo % 16) as u8
            } else {
                (hi / 16 * 16 + lo / 16) as u8
            }
        },
    }
}

/// Group byte `g` of vector `i`, read out of blocked codes.
pub open spec fn unblocked_byte(layout: Layout, codes: Seq<u8>, ng: int, i: int, g: int) -> u8 {
    group_lane(layout, codes, i / 32 * (ng * 32) + g * 32, i % 32)
}

/// The first `n` rows of blocked codes.
pub open spec fn unblocked(layout: Layout, codes: Seq<u8>, n: int, ng: int) -> Seq<u8> {
    Seq::new((n * ng) as nat, |r: int| unblocked_byte(layout, codes, ng, r / ng, r % ng))
}

/// Appends the block whose first vector is `base`.
pub fn push_block(layout: Layout, rows: &[u8], n_rows: usize, ng: usize, base: usize, out: &mut Vec<u8>)
    requires
        rows.len() == n_rows * ng,
        base + 32 <= usize::MAX,
        ng * 32 <= usize::MAX,
    ensures
        final(out)@ == old(out)@ + block_of(layout, rows@, n_rows as int, ng as int, base as int),
{
    let mut g: usize = 0;
    assert(old(out)@ + block_of(layout, rows@, n_rows as int, ng as int, base as int).take(0) =~= old(
        out,
    )@);
    while g < ng
        invariant
            g <= ng,
            rows.len() == n_rows * ng,
            base + 32 <= usize::MAX,
            out@ == old(out)@ + block_of(layout, rows@, n_rows as int, ng as int, base as int).take(
                g * 32,
            ),
        decreases ng - g,
    {
        let ghost before = out@;
        let ghost whole = block_of(layout, rows@, n_rows as int, ng as int, base as int);
        let mut j: usize = 0;
        while j < 32
            invariant
                g < ng,
                j <= 32,
                rows.len() == n_rows * ng,
                base + 32 <= usize::MAX,
                whole == block_of(layout, rows@, n_rows as int, ng as int, base as int),
                out@ == before + whole.subrange(g * 32, g * 32 + j),
            decreases 32 - j,
        {
            let byte: u8 = match layout {
                Layout::Sequential => read_lane(rows, n_rows, ng, base + j, g),
                Layout::Interleaved => {
                    let half: usize = j % 16;
                    let lane: usize = half / 2 + 8 * (half % 2);
                    let a: u8 = read_lane(rows, n_rows, ng, base + lane, g);
                    let b: u8 = read_lane(rows, n_rows, ng, base + lane + 16, g);
                    if j < 16 {
                        a / 16 + 16 * (b / 16)
                    } else {
                        a % 16 + 16 * (b % 16)
                    }
                },
            };
            proof {
                assert((g * 32 + j) / 32 == g && (g * 32 + j) % 32 == j);
                assert(whole[g * 32 + j] == byte);
            }
            out.push(byte);
            j = j + 1;
            assert(out@ =~= before + whole.subrange(g * 32, g * 32 + j));
        }
        g = g + 1;
        assert(out@ =~= old(out)@ + whole.take(g * 32));
    }
    assert(block_of(layout, rows@, n_rows as int, ng as int, base as int).take(g * 32) =~= block_of(
        layout,
        rows@,
        n_rows as int,
        ng as int,
        base as int,
    ));
}

/// Group byte `g` of vector `i`, zero past the last vector.
fn read_lane(rows: &[u8], n_rows: usize, ng: usize, i: usize, g: usize) -> (byte: u8)
    requires
        rows.len() == n_rows * ng,
        g < ng,
    ensures
        byte == lane_byte(rows@, n_rows as int, ng as int, i as int, g as int),
{
    if i < n_rows {
        proof {
            lemma_flat_bound(i as int, g as int, n_rows as int, ng as int);
            lemma_flat_index(i as int, g as int, ng as int);
        }
        rows[i * ng + g]
    } else {
        0
    }
}

/// Packs up to [`BLOCK`] row-major group-byte rows into one block. `out` is
/// fully overwritten; missing lanes pack as zero.
pub fn pack_block_rows(layout: Layout, rows: &[u8], n_rows: usize, n_byte_groups: usize, out: &mut Vec<u8>)
    requires
        n_rows <= BLOCK,
        rows.len() == n_rows * n_byte_groups,
        old(out).len() == n_byte_groups * BLOCK,
    ensures
        final(out)@ == block_of(layout, rows@, n_rows as int, n_byte_groups as int, 0),
{
    out.clear();
    push_block(layout, rows, n_rows, n_byte_groups, 0, out);
    assert(out@ =~= block_of(layout, rows@, n_rows as int, n_byte_groups as int, 0));
}

/// Reads one group byte of vector `i` out of blocked codes.
pub fn read_blocked(layout: Layout, codes: &[u8], ng: usize, i: usize, g: usize) -> (byte: u8)
    requires
        g < ng,
        (i as int / 32 + 1) * (ng * 32) <= codes.len(),
    ensures
        byte == unblocked_byte(layout, codes@, ng as int, i as int, g as int),
{
    proof {
        let b = i as int / 32;
        assert(b * (ng * 32) + ng * 32 == (b + 1) * (ng * 32)) by (nonlinear_arith);
        assert(0 <= b * (ng * 32)) by (nonlinear_arith)
            requires
                0 <= b,
        ;
    }
    let o: usize = i / 32 * (ng * 32) + g * 32;
    let l: usize = i % 32;
    match layout {
        Layout::Sequential => codes[o + l],
        Layout::Interleaved => {
            let half: usize = l % 16;
            let position: usize = if half < 8 {
                2 * half
            } else {
                2 * (half - 8) + 1
            };
            let hi: u8 = codes[o + position];
            let lo: u8 = codes[o + 16 + position];
            if l < 16 {
                hi % 16 * 16 + lo % 16
            } else {
                hi / 16 * 16 + lo / 16
            }
        },
    }
}

/// Extracts the [`BLOCK`] row-major group-byte rows of one block. `out` is
/// fully overwritten.
pub fn unpack_block_rows(layout: Layout, block: &[u8], n_byte_groups: usize, out: &mut Vec<u8>)
    requires
        block.len() == n_byte_groups * BLOCK,
        old(out).len() == BLOCK * n_byte_groups,
    ensures
        final(out)@ == unblocked(layout, block@, BLOCK as int, n_byte_groups as int),
{
    out.clear();
    let mut lane: usize = 0;
    while lane < 32
        invariant
            lane <= 32,
            block.len() == n_byte_groups * 32,
            out@ == unblocked(layout, block@, lane as int, n_byte_groups as int),
        decreases 32 - lane,
    {
        assert((lane as int / 32 + 1) * (n_byte_groups * 32) == n_byte_groups * 32) by (nonlinear_arith)
            requires
                0 <= lane < 32,
        ;
        push_unblocked_row(layout, block, n_byte_groups, lane, out);
        lane = lane + 1;
    }
}

/// Appends row `i` of blocked codes.
pub fn push_unblocked_row(layout: Layout, codes: &[u8], ng: usize, i: usize, out: &mut Vec<u8>)
    requires
        (i as int / 32 + 1) * (ng * 32) <= codes.len(),
    ensures
        final(out)@ == old(out)@ + unblocked_row(layout, codes@, i as int, ng as int),
        old(out)@ == unblocked(layout, codes@, i as int, ng as int) ==> final(out)@ == unblocked(
            layout,
            codes@,
            i + 1,
            ng as int,
        ),
{
    let mut g: usize = 0;
    while g < ng
        invariant
            g <= ng,
            (i as int / 32 + 1) * (ng * 32) <= codes.len(),
            out@ == old(out)@ + unblocked_row(layout, codes@, i as int, ng as int).take(g as int),
        decreases ng - g,
    {
        let byte: u8 = read_blocked(layout, codes, ng, i, g);
        out.push(byte);
        g = g + 1;
        assert(out@ =~= old(out)@ + unblocked_row(layout, codes@, i as int, ng as int).take(g as int));
    }
    proof {
        lemma_unblocked_step(layout, codes@, i as int, ng as int);
    }
    assert(out@ =~= old(out)@ + unblocked_row(layout, codes@, i as int, ng as int));
}

/// Row `i` of blocked codes.
pub open spec fn unblocked_row(layout: Layout, codes: Seq<u8>, i: int, ng: int) -> Seq<u8> {
    Seq::new(ng as nat, |g: int| unblocked_byte(layout, codes, ng, i, g))
}

/// Rows are stored one after the other.
proof fn lemma_unblocked_step(layout: Layout, codes: Seq<u8>, i: int, ng: int)
    requires
        0 <= i,
        0 <= ng,
    ensures
        unblocked(layout, codes, i + 1, ng) == unblocked(layout, codes, i, ng) + unblocked_row(
            layout,
            codes,
            i,
            ng,
        ),
{
    assert((i + 1) * ng == i * ng + ng) by (nonlinear_arith);
    assert(0 <= i * ng) by (nonlinear_arith)
        requires
            0 <= i,
            0 <= ng,
    ;
    assert forall|r: int| i * ng <= r < (i + 1) * ng implies #[trigger] unblocked(layout, codes, i + 1, ng)[r]
        == unblocked_row(layout, codes, i, ng)[r - i * ng] by {
        lemma_flat_index(i, r - i * ng, ng);
    }
    assert(unblocked(layout, codes, i + 1, ng) =~= unblocked(layout, codes, i, ng) + unblocked_row(
        layout,
        codes,
        i,
        ng,
    ));
}

/// Blocks cover every vector.
proof fn lemma_blocks_cover(n: int, ng: int)
    requires
        0 <= n,
        0 <= ng,
    ensures
        n <= ceil_div(n, 32) * 32,
        0 <= n * ng <= ceil_div(n, 32) * (ng * 32),
{
    let b = ceil_div(n, 32);
    assert(0 <= n * ng <= b * (ng * 32)) by (nonlinear_arith)
        requires
            0 <= n <= b * 32,
            0 <= ng,
    ;
}

/// Blocks are stored one after the other.
proof fn lemma_blocked_prefix(layout: Layout, rows: Seq<u8>, n: int, ng: int, b: int)
    requires
        0 <= ng,
        0 <= b < ceil_div(n, 32),
    ensures
        blocked(layout, rows, n, ng).take((b + 1) * (ng * 32)) == blocked(layout, rows, n, ng).take(
            b * (ng * 32),
        ) + block_of(layout, rows, n, ng, b * 32),
        0 <= b * (ng * 32) <= (b + 1) * (ng * 32) <= blocked(layout, rows, n, ng).len(),
{
    let w = ng * 32;
    let all = blocked(layout, rows, n, ng);
    let nb = ceil_div(n, 32);
    assert((b + 1) * w == b * w + w) by (nonlinear_arith);
    assert(0 <= b * w && (b + 1) * w <= nb * w) by (nonlinear_arith)
        requires
            0 <= b < nb,
            0 <= w,
    ;
    assert forall|q: int| b * w <= q < (b + 1) * w implies #[trigger] all[q] == block_of(
        layout,
        rows,
        n,
        ng,
        b * 32,
    )[q - b * w] by {
        lemma_flat_index(b, q - b * w, w);
    }
    assert(all.take((b + 1) * w) =~= all.take(b * w) + block_of(layout, rows, n, ng, b * 32));
}

/// Appends the blocks of `n_rows` group-byte rows.
pub fn push_blocked(layout: Layout, rows: &[u8], n_rows: usize, ng: usize, out: &mut Vec<u8>)
    requires
        rows.len() == n_rows * ng,
        n_rows + 63 <= usize::MAX,
        ceil_div(n_rows as int, 32) * (ng * 32) <= usize::MAX,
    ensures
        final(out)@ == old(out)@ + blocked(layout, rows@, n_rows as int, ng as int),
{
    let n_blocks: usize = (n_rows + 31) / 32;
    let ghost all = blocked(layout, rows@, n_rows as int, ng as int);
    let mut b: usize = 0;
    assert(old(out)@ + all.take(0) =~= old(out)@);
    assert(0 * (ng * 32) == 0) by (nonlinear_arith);
    while b < n_blocks
        invariant
            b <= n_blocks,
            n_blocks == ceil_div(n_rows as int, 32),
            rows.len() == n_rows * ng,
            n_rows + 63 <= usize::MAX,
            n_blocks * (ng * 32) <= usize::MAX,
            all == blocked(layout, rows@, n_rows as int, ng as int),
            out@ == old(out)@ + all.take(b * (ng * 32)),
        decreases n_blocks - b,
    {
        proof {
            lemma_blocked_prefix(layout, rows@, n_rows as int, ng as int, b as int);
            assert(ng * 32 <= n_blocks * (ng * 32)) by (nonlinear_arith)
                requires
                    1 <= n_blocks,
                    0 <= ng,
            ;
        }
        push_block(layout, rows, n_rows, ng, b * 32, out);
        b = b + 1;
        assert(out@ =~= old(out)@ + all.take(b * (ng * 32)));
    }
    assert(all.take(b * (ng * 32)) =~= all);
}

/// Repacks bit-plane codes into blocks. Returns the blocks and their number.
pub fn repack(packed_codes: &[u8], n_vectors: usize, bits: usize, dim: usize, layout: Layout) -> (r: (
    Vec<u8>,
    usize,
))
    requires
        1 <= bits <= 8,
        dim % 8 == 0,
        n_vectors * (bits * (dim / 8)) <= packed_codes.len(),
        n_vectors + 63 <= usize::MAX,
        ceil_div(n_vectors as int, 32) * (groups(bits as int, dim as int) * 32) <= usize::MAX,
    ensures
        r.0@ == blocked(
            layout,
            group_rows(packed_codes@, n_vectors as int, bits as int, dim as int),
            n_vectors as int,
            groups(bits as int, dim as int),
        ),
        r.1 == ceil_div(n_vectors as int, 32),
{
    let ng: usize = n_byte_groups(bits, dim);
    proof {
        lemma_blocks_cover(n_vectors as int, ng as int);
    }
    let rows: Vec<u8> = group_bytes(packed_codes, n_vectors, bits, dim);
    let mut blocks: Vec<u8> = Vec::new();
    push_blocked(layout, rows.as_slice(), n_vectors, ng, &mut blocks);
    assert(blocks@ =~= blocked(layout, rows@, n_vectors as int, ng as int));
    (blocks, (n_vectors + 31) / 32)
}

/// Group byte `g` of the low two bits of 3-bit codes, four codes to a byte.
pub open spec fn low_group_byte(packed: Seq<u8>, v: int, g: int, dim: int) -> int {
    64 * code_low(packed, v, 4 * g, 3, dim, 2) + 16 * code_low(packed, v, 4 * g + 1, 3, dim, 2) + 4
        * code_low(packed, v, 4 * g + 2, 3, dim, 2) + code_low(packed, v, 4 * g + 3, 3, dim, 2)
}

/// The low two bits of 3-bit codes, group by group, 32 vectors to a group.
pub open spec fn low_groups_blocked(packed: Seq<u8>, n: int, dim: int) -> Seq<u8> {
    Seq::new(
        (ceil_div(n, 32) * (dim / 4 * 32)) as nat,
        |q: int|
            {
                let v = q / (dim / 4 * 32) * 32 + q % 32;
                if v < n {
                    low_group_byte(packed, v, q % (dim / 4 * 32) / 32, dim) as u8
                } else {
                    0
                }
            },
    )
}

/// The third bit plane of 3-bit codes, byte by byte, 32 vectors to a byte.
pub open spec fn high_plane_blocked(packed: Seq<u8>, n: int, dim: int) -> Seq<u8> {
    Seq::new(
        (ceil_div(n, 32) * (dim / 8 * 32)) as nat,
        |q: int|
            {
                let v = q / (dim / 8 * 32) * 32 + q % 32;
                if v < n {
                    packed[v * (3 * (dim / 8)) + 2 * (dim / 8) + q % (dim / 8 * 32) / 32]
                } else {
                    0
                }
            },
    )
}

/// The low two bits of one 3-bit code.
fn read_code_low(packed: &[u8], v: usize, j: usize, dim: usize, n: usize) -> (code: u32)
    requires
        dim % 8 == 0,
        j < dim,
        v < n,
        n * (3 * (dim / 8)) <= packed.len(),
    ensures
        code == code_low(packed@, v as int, j as int, 3, dim as int, 2),
        code < 4,
{
    let plane: usize = dim / 8;
    proof {
        lemma_plane_index(v as int, 0, j as int / 8, n as int, 3, plane as int);
        lemma_plane_index(v as int, 1, j as int / 8, n as int, 3, plane as int);
        reveal_with_fuel(code_low, 3);
    }
    let low: u32 = read_bit(packed[v * (3 * plane) + j / 8], 7 - j % 8);
    let high: u32 = read_bit(packed[v * (3 * plane) + plane + j / 8], 7 - j % 8);
    low + 2 * high
}

fn low_groups(packed: &[u8], n_vectors: usize, dim: usize) -> (out: Vec<u8>)
    requires
        dim % 8 == 0,
        n_vectors * (3 * (dim / 8)) <= packed.len(),
        n_vectors + 63 <= usize::MAX,
        ceil_div(n_vectors as int, 32) * (dim / 4 * 32) <= usize::MAX,
    ensures
        out@ == low_groups_blocked(packed@, n_vectors as int, dim as int),
{
    let n_blocks: usize = (n_vectors + 31) / 32;
    let mut out: Vec<u8> = Vec::new();
    if n_blocks == 0 || dim == 0 {
        assert(n_blocks * (dim / 4 * 32) == 0) by (nonlinear_arith)
            requires
                n_blocks == 0 || dim == 0,
        ;
        assert(out@ =~= low_groups_blocked(packed@, n_vectors as int, dim as int));
        return out;
    }
    proof {
        assert(dim / 4 * 32 <= n_blocks * (dim / 4 * 32)) by (nonlinear_arith)
            requires
                1 <= n_blocks,
                0 <= dim,
        ;
    }
    let width: usize = dim / 4 * 32;
    let total: usize = n_blocks * width;
    let mut q: usize = 0;
    while q < total
        invariant
            q <= total,
            dim % 8 == 0,
            0 < width,
            width == dim / 4 * 32,
            total == n_blocks * width,
            n_blocks == ceil_div(n_vectors as int, 32),
            n_vectors + 63 <= usize::MAX,
            n_vectors * (3 * (dim / 8)) <= packed.len(),
            out@ == low_groups_blocked(packed@, n_vectors as int, dim as int).take(q as int),
        decreases total - q,
    {
        proof {
            lemma_flat_row(q as int, n_blocks as int, width as int);
        }
        let v: usize = q / width * 32 + q % 32;
        let g: usize = q % width / 32;
        let byte: u8 = if v < n_vectors {
            let c0: u32 = read_code_low(packed, v, 4 * g, dim, n_vectors);
            let c1: u32 = read_code_low(packed, v, 4 * g + 1, dim, n_vectors);
            let c2: u32 = read_code_low(packed, v, 4 * g + 2, dim, n_vectors);
            let c3: u32 = read_code_low(packed, v, 4 * g + 3, dim, n_vectors);
            (64 * c0 + 16 * c1 + 4 * c2 + c3) as u8
        } else {
            0
        };
        out.push(byte);
        q = q + 1;
        assert(out@ =~= low_groups_blocked(packed@, n_vectors as int, dim as int).take(q as int));
    }
    assert(low_groups_blocked(packed@, n_vectors as int, dim as int).take(q as int)
        =~= low_groups_blocked(packed@, n_vectors as int, dim as int));
    out
}

fn high_plane(packed: &[u8], n_vectors: usize, dim: usize) -> (out: Vec<u8>)
    requires
        dim % 8 == 0,
        n_vectors * (3 * (dim / 8)) <= packed.len(),
        n_vectors + 63 <= usize::MAX,
        ceil_div(n_vectors as int, 32) * (dim / 8 * 32) <= usize::MAX,
    ensures
        out@ == high_plane_blocked(packed@, n_vectors as int, dim as int),
{
    let n_blocks: usize = (n_vectors + 31) / 32;
    let mut out: Vec<u8> = Vec::new();
    if n_blocks == 0 || dim == 0 {
        assert(n_blocks * (dim / 8 * 32) == 0) by (nonlinear_arith)
            requires
                n_blocks == 0 || dim == 0,
        ;
        assert(out@ =~= high_plane_blocked(packed@, n_vectors as int, dim as int));
        return out;
    }
    proof {
        assert(dim / 8 * 32 <= n_blocks * (dim / 8 * 32)) by (nonlinear_arith)
            requires
                1 <= n_blocks,
                0 <= dim,
        ;
    }
    let plane: usize = dim / 8;
    let width: usize = plane * 32;
    let total: usize = n_blocks * width;
    let mut q: usize = 0;
    while q < total
        invariant
            q <= total,
            dim % 8 == 0,
            0 < width,
            plane == dim / 8,
            width == plane * 32,
            total == n_blocks * width,
            n_blocks == ceil_div(n_vectors as int, 32),
            n_vectors + 63 <= usize::MAX,
            n_vectors * (3 * (dim / 8)) <= packed.len(),
            out@ == high_plane_blocked(packed@, n_vectors as int, dim as int).take(q as int),
        decreases total - q,
    {
        proof {
            lemma_flat_row(q as int, n_blocks as int, width as int);
        }
        let v: usize = q / width * 32 + q % 32;
        let g: usize = q % width / 32;
        let byte: u8 = if v < n_vectors {
            proof {
                lemma_plane_index(v as int, 2, g as int, n_vectors as int, 3, plane as int);
            }
            packed[v * (3 * plane) + 2 * plane + g]
        } else {
            0
        };
        out.push(byte);
        q = q + 1;
        assert(out@ =~= high_plane_blocked(packed@, n_vectors as int, dim as int).take(q as int));
    }
    assert(high_plane_blocked(packed@, n_vectors as int, dim as int).take(q as int)
        =~= high_plane_blocked(packed@, n_vectors as int, dim as int));
    out
}

/// Repacks 3-bit codes into two blocked arrays: the low two bits of every
/// code, and the third plane. Returns both and the number of blocks.
pub fn repack_3bit(packed_codes: &[u8], n_vectors: usize, dim: usize) -> (r: (Vec<u8>, Vec<u8>, usize))
    requires
        dim % 8 == 0,
        n_vectors * (3 * (dim / 8)) <= packed_codes.len(),
        n_vectors + 63 <= usize::MAX,
        ceil_div(n_vectors as int, 32) * (dim / 4 * 32) <= usize::MAX,
    ensures
        r.0@ == low_groups_blocked(packed_codes@, n_vectors as int, dim as int),
        r.1@ == high_plane_blocked(packed_codes@, n_vectors as int, dim as int),
        r.2 == ceil_div(n_vectors as int, 32),
{
    proof {
        let nb = ceil_div(n_vectors as int, 32);
        assert(nb * (dim / 8 * 32) <= nb * (dim / 4 * 32)) by (nonlinear_arith)
            requires
                0 <= nb,
                0 <= dim,
        ;
    }
    let sub_codes: Vec<u8> = low_groups(packed_codes, n_vectors, dim);
    let plane2: Vec<u8> = high_plane(packed_codes, n_vectors, dim);
    (sub_codes, plane2, (n_vectors + 31) / 32)
}

/// Two bytes survive the exchange of their nibbles.
proof fn lemma_nibbles(a: u8, b: u8)
    ensures
        ((a / 16 + 16 * (b / 16)) as u8) % 16 * 16 + ((a % 16 + 16 * (b % 16)) as u8) % 16 == a,
        ((a / 16 + 16 * (b / 16)) as u8) / 16 * 16 + ((a % 16 + 16 * (b % 16)) as u8) / 16 == b,
{
}

/// Reading a lane of one packed group gives the byte that was packed.
proof fn lemma_group_lane(
    layout: Layout,
    codes: Seq<u8>,
    o: int,
    rows: Seq<u8>,
    n: int,
    ng: int,
    base: int,
    g: int,
    l: int,
)
    requires
        0 <= g,
        0 <= l < 32,
        forall|k: int|
            0 <= k < 32 ==> codes[o + k] == #[trigger] block_byte(layout, rows, n, ng, base, g * 32 + k),
    ensures
        group_lane(layout, codes, o, l) == lane_byte(rows, n, ng, base + l, g),
{
    match layout {
        Layout::Sequential => {
            assert(codes[o + l] == block_byte(layout, rows, n, ng, base, g * 32 + l));
            assert((g * 32 + l) / 32 == g && (g * 32 + l) % 32 == l);
        },
        Layout::Interleaved => {
            let m = l % 16;
            let s = position_of_lane(m);
            assert(0 <= s < 16 && lane_at(s) == m);
            assert(codes[o + s] == block_byte(layout, rows, n, ng, base, g * 32 + s));
            assert(codes[o + (16 + s)] == block_byte(layout, rows, n, ng, base, g * 32 + (16 + s)));
            assert((g * 32 + s) / 32 == g && (g * 32 + s) % 32 == s);
            assert((g * 32 + (16 + s)) / 32 == g && (g * 32 + (16 + s)) % 32 == 16 + s);
            lemma_nibbles(lane_byte(rows, n, ng, base + m, g), lane_byte(rows, n, ng, base + m + 16, g));
        },
    }
}

/// Reading a lane of packed blocks gives back the group byte that was packed,
/// and zero for the lanes past the last vector.
pub proof fn law_unblock_inverts_block(layout: Layout, rows: Seq<u8>, n: int, ng: int, i: int, g: int)
    requires
        0 <= n,
        0 <= i < ceil_div(n, 32) * 32,
        0 <= g < ng,
    ensures
        unblocked_byte(layout, blocked(layout, rows, n, ng), ng, i, g) == lane_byte(rows, n, ng, i, g),
{
    let all = blocked(layout, rows, n, ng);
    let w = ng * 32;
    let b = i / 32;
    assert forall|k: int| 0 <= k < 32 implies all[b * w + g * 32 + k] == #[trigger] block_byte(
        layout,
        rows,
        n,
        ng,
        b * 32,
        g * 32 + k,
    ) by {
        lemma_flat_bound(b, g * 32 + k, ceil_div(n, 32), w);
        lemma_flat_index(b, g * 32 + k, w);
    }
    lemma_group_lane(layout, all, b * w + g * 32, rows, n, ng, b * 32, g, i % 32);
}

/// Unpacking the blocks of `n` rows gives the rows back.
pub proof fn law_blocks_round_trip(layout: Layout, rows: Seq<u8>, n: int, ng: int)
    requires
        0 <= n,
        0 <= ng,
        rows.len() == n * ng,
    ensures
        unblocked(layout, blocked(layout, rows, n, ng), n, ng) == rows,
{
    let back = unblocked(layout, blocked(layout, rows, n, ng), n, ng);
    assert(0 <= n * ng) by (nonlinear_arith)
        requires
            0 <= n,
            0 <= ng,
    ;
    assert forall|r: int| 0 <= r < n * ng implies back[r] == rows[r] by {
        assert(0 < ng) by (nonlinear_arith)
            requires
                0 <= r < n * ng,
                0 <= ng,
        ;
        lemma_flat_row(r, n, ng);
        law_unblock_inverts_block(layout, rows, n, ng, r / ng, r % ng);
    }
    assert(back =~= rows);
}

/// Block `i` of packed rows unpacks, lane by lane, to the rows that it was
/// packed from; lanes past the last row are zero.
pub proof fn law_blocks_give_rows_back(layout: Layout, rows: Seq<u8>, n: int, ng: int, i: int, l: int)
    requires
        0 <= n,
        0 <= ng,
        rows.len() == n * ng,
        0 <= i < ceil_div(n, 32),
        0 <= l < 32,
    ensures
        blocked(layout, rows, n, ng).len() == ceil_div(n, 32) * (ng * 32),
        0 <= i * (ng * 32) <= (i + 1) * (ng * 32) <= blocked(layout, rows, n, ng).len(),
        ({
            let block = blocked(layout, rows, n, ng).subrange(i * (ng * 32), (i + 1) * (ng * 32));
            unblocked(layout, block, 32, ng).subrange(l * ng, (l + 1) * ng) == if 32 * i + l < n {
                rows.subrange((32 * i + l) * ng, (32 * i + l + 1) * ng)
            } else {
                Seq::new(ng as nat, |g: int| 0u8)
            }
        }),
{
    let w = ng * 32;
    let nb = ceil_div(n, 32);
    let all = blocked(layout, rows, n, ng);
    let v = 32 * i + l;
    assert(0 <= i * w && i * w + w <= nb * w && (i + 1) * w == i * w + w) by (nonlinear_arith)
        requires
            0 <= i < nb,
            0 <= w,
    ;
    let block = all.subrange(i * w, (i + 1) * w);
    let back = unblocked(layout, block, 32, ng);
    assert(0 <= l * ng && l * ng + ng <= 32 * ng && (l + 1) * ng == l * ng + ng) by (nonlinear_arith)
        requires
            0 <= l < 32,
            0 <= ng,
    ;
    if v < n {
        assert(0 <= v * ng && v * ng + ng <= n * ng && (v + 1) * ng == v * ng + ng) by (nonlinear_arith)
            requires
                0 <= v < n,
                0 <= ng,
        ;
    }
    let want = if v < n {
        rows.subrange(v * ng, (v + 1) * ng)
    } else {
        Seq::new(ng as nat, |g: int| 0u8)
    };
    assert forall|g: int| 0 <= g < ng implies back[l * ng + g] == want[g] by {
        assert forall|k: int| 0 <= k < 32 implies block[g * 32 + k] == #[trigger] block_byte(
            layout,
            rows,
            n,
            ng,
            i * 32,
            g * 32 + k,
        ) by {
            lemma_flat_index(i, g * 32 + k, w);
        }
        lemma_group_lane(layout, block, g * 32, rows, n, ng, i * 32, g, l);
        lemma_flat_index(l, g, ng);
        assert(l / 32 * w == 0) by (nonlinear_arith)
            requires
                0 <= l < 32,
        ;
    }
    assert(back.subrange(l * ng, (l + 1) * ng) =~= want);
}

proof fn lemma_halved(x: int, m: int)
    requires
        0 <= x,
        0 < m,
    ensures
        x / m == 2 * (x / (2 * m)) + x / m % 2,
{
    vstd::arithmetic::div_mod::lemma_div_denominator(x, m, 2);
    assert(m * 2 == 2 * m);
    vstd::arithmetic::div_mod::lemma_fundamental_div_mod(x / m, 2);
}

proof fn lemma_bits_tell_byte(a: u8, b: u8)
    requires
        forall|k: int| 0 <= k < 8 ==> #[trigger] bit_of(a as int, k) == bit_of(b as int, k),
    ensures
        a == b,
{
    let x = a as int;
    let y = b as int;
    assert(two_to(0) == 1 && two_to(1) == 2 && two_to(2) == 4 && two_to(3) == 8 && two_to(4) == 16 && two_to(5) == 32
        && two_to(6) == 64 && two_to(7) == 128);
    assert(x / 128 == y / 128) by {
        assert(bit_of(x, 7) == bit_of(y, 7));
    }
    assert(x / 64 == y / 64) by {
        assert(bit_of(x, 6) == bit_of(y, 6));
        lemma_halved(x, 64);
        lemma_halved(y, 64);
    }
    assert(x / 32 == y / 32) by {
        assert(bit_of(x, 5) == bit_of(y, 5));
        lemma_halved(x, 32);
        lemma_halved(y, 32);
    }
    assert(x / 16 == y / 16) by {
        assert(bit_of(x, 4) == bit_of(y, 4));
        lemma_halved(x, 16);
        lemma_halved(y, 16);
    }
    assert(x / 8 == y / 8) by {
        assert(bit_of(x, 3) == bit_of(y, 3));
        lemma_halved(x, 8);
        lemma_halved(y, 8);
    }
    assert(x / 4 == y / 4) by {
        assert(bit_of(x, 2) == bit_of(y, 2));
        lemma_halved(x, 4);
        lemma_halved(y, 4);
    }
    assert(x / 2 == y / 2) by {
        assert(bit_of(x, 1) == bit_of(y, 1));
        lemma_halved(x, 2);
        lemma_halved(y, 2);
    }
    assert(x / 1 == y / 1) by {
        assert(bit_of(x, 0) == bit_of(y, 0));
        lemma_halved(x, 1);
        lemma_halved(y, 1);
    }
}

/// The low two bits of a code are below four, and tell the two bits.
proof fn lemma_low_pair(packed: Seq<u8>, v: int, j: int, dim: int)
    ensures
        code_low(packed, v, j, 3, dim, 2) == plane_bit(packed, v, 0, j, 3, dim) + 2 * plane_bit(
            packed,
            v,
            1,
            j,
            3,
            dim,
        ),
        0 <= plane_bit(packed, v, 0, j, 3, dim) <= 1,
        0 <= plane_bit(packed, v, 1, j, 3, dim) <= 1,
{
    reveal_with_fuel(code_low, 3);
}

/// Four digits below four are told by the byte that they make.
proof fn lemma_four_codes(a: int, b: int, c: int, d: int, e: int, f: int, g: int, h: int)
    requires
        0 <= a < 4,
        0 <= b < 4,
        0 <= c < 4,
        0 <= d < 4,
        0 <= e < 4,
        0 <= f < 4,
        0 <= g < 4,
        0 <= h < 4,
        (64 * a + 16 * b + 4 * c + d) as u8 == (64 * e + 16 * f + 4 * g + h) as u8,
    ensures
        a == e,
        b == f,
        c == g,
        d == h,
{
    let x = 64 * a + 16 * b + 4 * c + d;
    let y = 64 * e + 16 * f + 4 * g + h;
    assert(0 <= x <= 255 && 0 <= y <= 255);
    assert(x == y);
    assert(a == e);
    assert(b == f);
    assert(c == g);
}

proof fn lemma_two_bits(a: int, b: int, c: int, d: int)
    requires
        0 <= a <= 1,
        0 <= b <= 1,
        0 <= c <= 1,
        0 <= d <= 1,
        a + 2 * b == c + 2 * d,
    ensures
        a == c,
        b == d,
{
}

/// Equal bytes of four codes come from equal codes.
proof fn lemma_low_byte_tells(a: Seq<u8>, b: Seq<u8>, v: int, g: int, dim: int, c: int)
    requires
        low_group_byte(a, v, g, dim) as u8 == low_group_byte(b, v, g, dim) as u8,
        0 <= c < 4,
    ensures
        plane_bit(a, v, 0, 4 * g + c, 3, dim) == plane_bit(b, v, 0, 4 * g + c, 3, dim),
        plane_bit(a, v, 1, 4 * g + c, 3, dim) == plane_bit(b, v, 1, 4 * g + c, 3, dim),
{
    lemma_low_pair(a, v, 4 * g, dim);
    lemma_low_pair(a, v, 4 * g + 1, dim);
    lemma_low_pair(a, v, 4 * g + 2, dim);
    lemma_low_pair(a, v, 4 * g + 3, dim);
    lemma_low_pair(b, v, 4 * g, dim);
    lemma_low_pair(b, v, 4 * g + 1, dim);
    lemma_low_pair(b, v, 4 * g + 2, dim);
    lemma_low_pair(b, v, 4 * g + 3, dim);
    lemma_four_codes(
        code_low(a, v, 4 * g, 3, dim, 2),
        code_low(a, v, 4 * g + 1, 3, dim, 2),
        code_low(a, v, 4 * g + 2, 3, dim, 2),
        code_low(a, v, 4 * g + 3, 3, dim, 2),
        code_low(b, v, 4 * g, 3, dim, 2),
        code_low(b, v, 4 * g + 1, 3, dim, 2),
        code_low(b, v, 4 * g + 2, 3, dim, 2),
        code_low(b, v, 4 * g + 3, 3, dim, 2),
    );
    let j = 4 * g + c;
    assert(j == 4 * g || j == 4 * g + 1 || j == 4 * g + 2 || j == 4 * g + 3);
    assert(code_low(a, v, j, 3, dim, 2) == code_low(b, v, j, 3, dim, 2));
    lemma_two_bits(
        plane_bit(a, v, 0, j, 3, dim),
        plane_bit(a, v, 1, j, 3, dim),
        plane_bit(b, v, 0, j, 3, dim),
        plane_bit(b, v, 1, j, 3, dim),
    );
}

/// Equal outcomes of splitting 3-bit codes come from equal codes.
pub proof fn law_three_bit_blocks_tell_codes(a: Seq<u8>, b: Seq<u8>, n: int, dim: int)
    requires
        0 <= n,
        0 <= dim,
        dim % 8 == 0,
        a.len() == n * (3 * (dim / 8)),
        b.len() == n * (3 * (dim / 8)),
        low_groups_blocked(a, n, dim) == low_groups_blocked(b, n, dim),
        high_plane_blocked(a, n, dim) == high_plane_blocked(b, n, dim),
    ensures
        a == b,
{
    let plane = dim / 8;
    let width = 3 * plane;
    assert forall|q: int| 0 <= q < a.len() implies a[q] == b[q] by {
        assert(0 < plane) by {
            if plane == 0 {
                assert(n * (3 * plane) == 0) by (nonlinear_arith)
                    requires
                        plane == 0,
                ;
            }
        }
        lemma_flat_row(q, n, width);
        lemma_flat_row(q % width, 3, plane);
        let v = q / width;
        let p = q % width / plane;
        let at = q % width % plane;
        assert(q == v * width + p * plane + at);
        if p == 2 {
            lemma_high_byte_tells(a, b, n, dim, v, at);
        } else {
            assert forall|k: int| 0 <= k < 8 implies #[trigger] bit_of(a[q] as int, k) == bit_of(
                b[q] as int,
                k,
            ) by {
                let j = 8 * at + 7 - k;
                lemma_low_groups_tell(a, b, n, dim, v, j / 4);
                lemma_low_byte_tells(a, b, v, j / 4, dim, j % 4);
                assert(4 * (j / 4) + j % 4 == j);
                assert(j / 8 == at && 7 - j % 8 == k);
                assert(plane_bit(a, v, p, j, 3, dim) == plane_bit(b, v, p, j, 3, dim));
            }
            lemma_bits_tell_byte(a[q], b[q]);
        }
    }
    assert(a =~= b);
}

proof fn lemma_high_byte_tells(a: Seq<u8>, b: Seq<u8>, n: int, dim: int, v: int, at: int)
    requires
        0 <= v < n,
        0 <= at < dim / 8,
        high_plane_blocked(a, n, dim) == high_plane_blocked(b, n, dim),
    ensures
        a[v * (3 * (dim / 8)) + 2 * (dim / 8) + at] == b[v * (3 * (dim / 8)) + 2 * (dim / 8) + at],
{
    let w = dim / 8 * 32;
    let r = at * 32 + v % 32;
    let q = v / 32 * w + r;
    lemma_flat_bound(v / 32, r, ceil_div(n, 32), w);
    lemma_flat_index(v / 32, r, w);
    assert(q % 32 == v % 32) by {
        assert(q == 32 * (v / 32 * (dim / 8) + at) + v % 32) by (nonlinear_arith)
            requires
                q == v / 32 * w + r,
                w == dim / 8 * 32,
                r == at * 32 + v % 32,
        ;
    }
    assert(r / 32 == at);
    assert(q / w * 32 + q % 32 == v);
    assert(0 <= q < high_plane_blocked(a, n, dim).len());
    assert(high_plane_blocked(a, n, dim)[q] == a[v * (3 * (dim / 8)) + 2 * (dim / 8) + q % w / 32]);
    assert(high_plane_blocked(b, n, dim)[q] == b[v * (3 * (dim / 8)) + 2 * (dim / 8) + q % w / 32]);
    assert(high_plane_blocked(a, n, dim)[q] == high_plane_blocked(b, n, dim)[q]);
}

proof fn lemma_low_groups_tell(a: Seq<u8>, b: Seq<u8>, n: int, dim: int, v: int, g: int)
    requires
        0 <= v < n,
        0 <= g < dim / 4,
        low_groups_blocked(a, n, dim) == low_groups_blocked(b, n, dim),
    ensures
        low_group_byte(a, v, g, dim) as u8 == low_group_byte(b, v, g, dim) as u8,
{
    let w = dim / 4 * 32;
    let r = g * 32 + v % 32;
    let q = v / 32 * w + r;
    lemma_flat_bound(v / 32, r, ceil_div(n, 32), w);
    lemma_flat_index(v / 32, r, w);
    assert(q % 32 == v % 32) by {
        assert(q == 32 * (v / 32 * (dim / 4) + g) + v % 32) by (nonlinear_arith)
            requires
                q == v / 32 * w + r,
                w == dim / 4 * 32,
                r == g * 32 + v % 32,
        ;
    }
    assert(r / 32 == g);
    assert(q / w * 32 + q % 32 == v);
    assert(0 <= q < low_groups_blocked(a, n, dim).len());
    assert(low_groups_blocked(a, n, dim)[q] == low_group_byte(a, v, q % w / 32, dim) as u8);
    assert(low_groups_blocked(b, n, dim)[q] == low_group_byte(b, v, q % w / 32, dim) as u8);
    assert(low_groups_blocked(a, n, dim)[q] == low_groups_blocked(b, n, dim)[q]);
}

/// One block packs up to 32 rows and unpacks to those rows followed by zero
/// rows.
pub proof fn law_block_round_trip(layout: Layout, rows: Seq<u8>, n: int, ng: int)
    requires
        0 <= n <= 32,
        0 <= ng,
        rows.len() == n * ng,
    ensures
        unblocked(layout, block_of(layout, rows, n, ng, 0), 32, ng) == rows + Seq::new(
            (32 * ng - n * ng) as nat,
            |q: int| 0u8,
        ),
{
    let block = block_of(layout, rows, n, ng, 0);
    let back = unblocked(layout, block, 32, ng);
    let want = rows + Seq::new((32 * ng - n * ng) as nat, |q: int| 0u8);
    assert(0 <= n * ng <= 32 * ng) by (nonlinear_arith)
        requires
            0 <= n <= 32,
            0 <= ng,
    ;
    assert forall|r: int| 0 <= r < 32 * ng implies back[r] == want[r] by {
        lemma_flat_row(r, 32, ng);
        let i = r / ng;
        let g = r % ng;
        lemma_group_lane(layout, block, g * 32, rows, n, ng, 0, g, i);
        assert(i / 32 * (ng * 32) == 0) by (nonlinear_arith)
            requires
                0 <= i < 32,
        ;
        if i < n {
            lemma_flat_bound(i, g, n, ng);
        } else {
            assert(n * ng <= i * ng) by (nonlinear_arith)
                requires
                    n <= i,
                    0 <= ng,
            ;
        }
    }
    assert(back =~= want);
}

/// The low bits of a number, one bit at a time.
proof fn lemma_low_bits(code: int, m: int)
    requires
        0 <= code,
        0 <= m < 8,
    ensures
        code % two_to(m + 1) == code % two_to(m) + two_to(m) * bit_of(code, m),
        bit_of(code, m) == 0 || bit_of(code, m) == 1,
{
    lemma_two_to_double(m);
    lemma_mod_breakdown(code, two_to(m), 2);
}

proof fn lemma_two_to_double(m: int)
    requires
        0 <= m < 8,
    ensures
        two_to(m + 1) == 2 * two_to(m),
        two_to(m + 1) == two_to(m) * 2,
        two_to(m) > 0,
{
}

/// Appending a low bit moves every other bit up by one.
proof fn lemma_append_bit(h: int, x: int, i: int)
    requires
        0 <= h,
        0 <= x <= 1,
        0 <= i < 8,
    ensures
        bit_of(2 * h + x, 0) == x,
        i < 7 ==> bit_of(2 * h + x, i + 1) == bit_of(h, i),
{
    assert((2 * h + x) / 1 == 2 * h + x);
    if i < 7 {
        lemma_two_to_double(i);
        lemma_div_denominator(2 * h + x, 2, two_to(i));
        assert((2 * h + x) / 2 == h);
    }
}

/// Bit `m - 1 - k` of a number built from `m` bits is the `k`-th of them.
proof fn lemma_plane_high_bit(rows: Seq<u8>, v: int, p: int, b: int, bits: int, dim: int, m: nat, k: int)
    requires
        0 <= k < m <= 8,
    ensures
        bit_of(plane_high(rows, v, p, b, bits, dim, m), m - 1 - k) == bit_of(
            row_code(rows, v, 8 * b + k, bits, dim),
            p,
        ),
    decreases m,
{
    let h = plane_high(rows, v, p, b, bits, dim, (m - 1) as nat);
    let x = bit_of(row_code(rows, v, 8 * b + m - 1, bits, dim), p);
    lemma_plane_high_bound(rows, v, p, b, bits, dim, (m - 1) as nat);
    if k == m - 1 {
        lemma_append_bit(h, x, 0);
    } else {
        lemma_plane_high_bit(rows, v, p, b, bits, dim, (m - 1) as nat, k);
        lemma_append_bit(h, x, m - 2 - k);
    }
}

/// Bit `7 - k` of a byte built from eight bits is the `k`-th of them.
proof fn lemma_plane_byte_bit(rows: Seq<u8>, v: int, p: int, b: int, bits: int, dim: int, k: int)
    requires
        0 <= k < 8,
    ensures
        bit_of(plane_high(rows, v, p, b, bits, dim, 8), 7 - k) == bit_of(
            row_code(rows, v, 8 * b + k, bits, dim),
            p,
        ),
        0 <= plane_high(rows, v, p, b, bits, dim, 8) < 256,
{
    lemma_plane_high_bit(rows, v, p, b, bits, dim, 8, k);
    lemma_plane_high_bound(rows, v, p, b, bits, dim, 8);
}

/// A plane bit of rebuilt planes is a bit of the row's code.
proof fn lemma_rebuilt_bit(rows: Seq<u8>, n: int, v: int, p: int, j: int, bits: int, dim: int)
    requires
        1 <= bits <= 8,
        dim % 8 == 0,
        0 <= v < n,
        0 <= p < bits,
        0 <= j < dim,
    ensures
        plane_bit(planes_of_rows(rows, n, bits, dim), v, p, j, bits, dim) == bit_of(
            row_code(rows, v, j, bits, dim),
            p,
        ),
{
    let plane = dim / 8;
    let width = bits * plane;
    let b = j / 8;
    lemma_plane_index(v, p, b, n, bits, plane);
    lemma_flat_index(v, p * plane + b, width);
    lemma_flat_index(p, b, plane);
    lemma_plane_byte_bit(rows, v, p, b, bits, dim, j % 8);
    assert(8 * b + j % 8 == j);
}

/// The codes that rebuilt planes hold are the codes of the rows.
proof fn lemma_rebuilt_code(rows: Seq<u8>, n: int, v: int, j: int, bits: int, dim: int, p: nat)
    requires
        1 <= bits <= 8,
        p <= bits,
        dim % 8 == 0,
        0 <= v < n,
        0 <= j < dim,
    ensures
        code_low(planes_of_rows(rows, n, bits, dim), v, j, bits, dim, p) == row_code(
            rows,
            v,
            j,
            bits,
            dim,
        ) % two_to(p as int),
    decreases p,
{
    if p > 0 {
        lemma_rebuilt_code(rows, n, v, j, bits, dim, (p - 1) as nat);
        lemma_rebuilt_bit(rows, n, v, p - 1, j, bits, dim);
        lemma_row_code_bound(rows, v, j, bits, dim);
        lemma_low_bits(row_code(rows, v, j, bits, dim), p - 1);
    }
}

proof fn lemma_row_code_bound(rows: Seq<u8>, v: int, j: int, bits: int, dim: int)
    requires
        1 <= bits <= 8,
    ensures
        0 <= row_code(rows, v, j, bits, dim) < two_to(bits),
{
}

/// Reading a code out of the rebuilt planes, or straight out of the row, is
/// the same.
pub proof fn law_codes_agree(rows: Seq<u8>, n: int, v: int, j: int, bits: int, dim: int)
    requires
        1 <= bits <= 8,
        dim % 8 == 0,
        0 <= v < n,
        0 <= j < dim,
    ensures
        plane_code(planes_of_rows(rows, n, bits, dim), v, j, bits, dim) == row_code(
            rows,
            v,
            j,
            bits,
            dim,
        ),
{
    lemma_rebuilt_code(rows, n, v, j, bits, dim, bits as nat);
    lemma_row_code_bound(rows, v, j, bits, dim);
    lemma_small_mod(row_code(rows, v, j, bits, dim) as nat, two_to(bits) as nat);
}

/// The first `m` codes of a group, read back.
proof fn lemma_group_high_code(packed: Seq<u8>, v: int, g: int, bits: int, dim: int, m: nat, c: int)
    requires
        1 <= bits <= 8,
        0 <= c < m <= codes_per_byte(bits),
    ensures
        group_high(packed, v, g, bits, dim, m) / two_to((m - 1 - c) * code_stride(bits)) % two_to(bits)
            == plane_code(packed, v, g * codes_per_byte(bits) + c, bits, dim),
    decreases m,
{
    let stride = code_stride(bits);
    let base = two_to(stride);
    let h = group_high(packed, v, g, bits, dim, (m - 1) as nat);
    let x = plane_code(packed, v, g * codes_per_byte(bits) + m - 1, bits, dim);
    lemma_group_bound(packed, v, g, bits, dim, (m - 1) as nat);
    lemma_code_bound(packed, v, g * codes_per_byte(bits) + m - 1, bits, dim, bits as nat);
    assert(0 <= x < two_to(bits) <= base);
    assert(0 <= h * base) by (nonlinear_arith)
        requires
            0 <= h,
            0 < base,
    ;
    if c == m - 1 {
        assert((m - 1 - c) * stride == 0) by (nonlinear_arith)
            requires
                m - 1 - c == 0,
        ;
        assert((h * base + x) / 1 == h * base + x);
        lemma_mod_of_multiple(h, x, bits);
    } else {
        lemma_group_high_code(packed, v, g, bits, dim, (m - 1) as nat, c);
        lemma_stride_step(bits, m - 1 - c);
        let d = two_to((m - 2 - c) * stride);
        assert(two_to((m - 1 - c) * stride) == d * base);
        assert(d * base == base * d) by (nonlinear_arith);
        lemma_div_denominator(h * base + x, base, d);
        lemma_flat_index(h, x, base);
    }
}

/// A code appended below others is what remains modulo its range.
proof fn lemma_mod_of_multiple(h: int, x: int, bits: int)
    requires
        1 <= bits <= 8,
        0 <= h,
        0 <= x < two_to(bits),
    ensures
        (h * two_to(code_stride(bits)) + x) % two_to(bits) == x,
{
    let m = two_to(bits);
    assert(1 <= m) by {
        lemma_powers();
    }
    if bits == 3 {
        lemma_powers();
        assert(h * two_to(code_stride(bits)) == (2 * h) * m) by (nonlinear_arith)
            requires
                two_to(code_stride(bits)) == 16,
                m == 8,
        ;
        lemma_flat_index(2 * h, x, m);
    } else {
        lemma_flat_index(h, x, m);
    }
}

proof fn lemma_powers()
    ensures
        two_to(1) == 2 && two_to(2) == 4 && two_to(3) == 8 && two_to(4) == 16,
        two_to(5) == 32 && two_to(6) == 64 && two_to(7) == 128 && two_to(8) == 256,
{
}

/// Codes survive the trip from bit planes to group bytes.
pub proof fn law_group_rows_keep_codes(packed: Seq<u8>, n: int, v: int, j: int, bits: int, dim: int)
    requires
        1 <= bits <= 8,
        dim % 8 == 0,
        0 <= v < n,
        0 <= j < dim,
    ensures
        row_code(group_rows(packed, n, bits, dim), v, j, bits, dim) == plane_code(
            packed,
            v,
            j,
            bits,
            dim,
        ),
{
    let m = codes_per_byte(bits);
    let ng = groups(bits, dim);
    lemma_group_of(bits, dim, j);
    lemma_flat_index(v, j / m, ng);
    lemma_flat_bound(v, j / m, n, ng);
    lemma_group_bound(packed, v, j / m, bits, dim, m as nat);
    lemma_group_high_code(packed, v, j / m, bits, dim, m as nat, j % m);
}

proof fn lemma_two_to_split(m: int, p: int)
    requires
        0 <= p < m <= 8,
    ensures
        two_to(m) == two_to(p) * (2 * two_to(m - 1 - p)),
        two_to(p) > 0,
        two_to(m - 1 - p) > 0,
{
    let a = two_to(p);
    let b = 2 * two_to(m - 1 - p);
    if p == 0 {
        assert(a * b == b) by (nonlinear_arith) requires a == 1;
    } else if p == 1 {
        assert(a * b == 2 * b) by (nonlinear_arith) requires a == 2;
    } else if p == 2 {
        assert(a * b == 4 * b) by (nonlinear_arith) requires a == 4;
    } else if p == 3 {
        assert(a * b == 8 * b) by (nonlinear_arith) requires a == 8;
    } else if p == 4 {
        assert(a * b == 16 * b) by (nonlinear_arith) requires a == 16;
    } else if p == 5 {
        assert(a * b == 32 * b) by (nonlinear_arith) requires a == 32;
    } else if p == 6 {
        assert(a * b == 64 * b) by (nonlinear_arith) requires a == 64;
    } else {
        assert(a * b == 128 * b) by (nonlinear_arith) requires a == 128;
    }
}

/// Adding a bit above the others leaves the others alone.
pub proof fn lemma_bit_of_sum(lo: int, x: int, m: int, p: int)
    requires
        0 <= p <= m < 8,
        0 <= lo < two_to(m),
        0 <= x <= 1,
    ensures
        bit_of(lo + two_to(m) * x, p) == if p == m {
            x
        } else {
            bit_of(lo, p)
        },
{
    let top = two_to(m);
    assert(top * x == if x == 0 { 0 } else { top }) by (nonlinear_arith)
        requires
            0 <= x <= 1,
    ;
    if p == m {
        assert(top * x == x * top) by (nonlinear_arith);
        lemma_flat_index(x, lo, top);
    } else if x == 1 {
        lemma_two_to_split(m, p);
        let k = two_to(m - 1 - p);
        let d = two_to(p);
        assert(top == (2 * k) * d) by (nonlinear_arith)
            requires
                top == d * (2 * k),
        ;
        lemma_hoist_over_denominator(lo, 2 * k, d as nat);
        assert((lo / d + 2 * k) % 2 == lo / d % 2);
    }
}

/// The bits of a code are its plane bits.
pub proof fn lemma_code_bit(packed: Seq<u8>, v: int, j: int, bits: int, dim: int, m: nat, p: int)
    requires
        0 <= p < m <= 8,
    ensures
        bit_of(code_low(packed, v, j, bits, dim, m), p) == plane_bit(packed, v, p, j, bits, dim),
    decreases m,
{
    let lo = code_low(packed, v, j, bits, dim, (m - 1) as nat);
    lemma_code_bound(packed, v, j, bits, dim, (m - 1) as nat);
    lemma_bit_of_sum(lo, plane_bit(packed, v, m - 1, j, bits, dim), m - 1, p);
    if p < m - 1 {
        lemma_code_bit(packed, v, j, bits, dim, (m - 1) as nat, p);
    }
}

/// The leading bits of a byte, one bit at a time.
proof fn lemma_leading_bits(byte: int, k: int)
    requires
        0 <= byte < 256,
        1 <= k <= 8,
    ensures
        byte / two_to(8 - k) == byte / two_to(9 - k) * 2 + bit_of(byte, 8 - k),
{
    let d = two_to(8 - k);
    lemma_two_to_double(8 - k);
    lemma_div_denominator(byte, d, 2);
    assert(d * 2 == two_to(9 - k));
}

/// The planes rebuilt from a row's group bytes hold the bytes they came from.
proof fn lemma_rebuilt_byte(packed: Seq<u8>, n: int, v: int, p: int, b: int, bits: int, dim: int, k: nat)
    requires
        1 <= bits <= 8,
        dim % 8 == 0,
        0 <= v < n,
        0 <= p < bits,
        0 <= b < dim / 8,
        k <= 8,
    ensures
        plane_high(group_rows(packed, n, bits, dim), v, p, b, bits, dim, k) == packed[v * (bits * (dim
            / 8)) + p * (dim / 8) + b] as int / two_to(8 - k),
    decreases k,
{
    let byte = packed[v * (bits * (dim / 8)) + p * (dim / 8) + b] as int;
    if k > 0 {
        lemma_rebuilt_byte(packed, n, v, p, b, bits, dim, (k - 1) as nat);
        law_group_rows_keep_codes(packed, n, v, 8 * b + k - 1, bits, dim);
        lemma_code_bit(packed, v, 8 * b + k - 1, bits, dim, bits as nat, p);
        assert((8 * b + k - 1) / 8 == b && (8 * b + k - 1) % 8 == k - 1);
        lemma_leading_bits(byte, k as int);
    }
}

/// Bit planes survive the trip to group bytes and back.
pub proof fn law_planes_round_trip(packed: Seq<u8>, n: int, bits: int, dim: int)
    requires
        1 <= bits <= 8,
        dim % 8 == 0,
        0 <= dim,
        0 <= n,
        packed.len() == n * (bits * (dim / 8)),
    ensures
        planes_of_rows(group_rows(packed, n, bits, dim), n, bits, dim) == packed,
{
    let plane = dim / 8;
    let width = bits * plane;
    let back = planes_of_rows(group_rows(packed, n, bits, dim), n, bits, dim);
    assert forall|q: int| 0 <= q < packed.len() implies back[q] == packed[q] by {
        assert(0 < plane) by {
            if plane == 0 {
                assert(n * (bits * plane) == 0) by (nonlinear_arith)
                    requires
                        plane == 0,
                ;
            }
        }
        assert(0 < width) by (nonlinear_arith)
            requires
                0 < plane,
                1 <= bits,
                width == bits * plane,
        ;
        lemma_flat_row(q, n, width);
        lemma_flat_row(q % width, bits, plane);
        lemma_rebuilt_byte(packed, n, q / width, q % width / plane, q % width % plane, bits, dim, 8);
    }
    assert(back =~= packed);
}

/// A group byte holds nothing beside its codes.
pub open spec fn canonical_byte(byte: u8, bits: int) -> bool {
    &&& bits == 3 ==> byte % 16 < 8 && byte / 16 < 8
    &&& bits >= 5 ==> byte < two_to(bits)
}

/// The leading codes of a canonical byte, one code at a time.
proof fn lemma_leading_codes(byte: u8, bits: int, c: int)
    requires
        1 <= bits <= 8,
        1 <= c <= codes_per_byte(bits),
        canonical_byte(byte, bits),
    ensures
        byte as int / two_to((codes_per_byte(bits) - c) * code_stride(bits)) == byte as int / two_to(
            (codes_per_byte(bits) - c + 1) * code_stride(bits),
        ) * two_to(code_stride(bits)) + code_in_group(byte, c - 1, bits),
{
    let m = codes_per_byte(bits);
    let stride = code_stride(bits);
    let base = two_to(stride);
    let d = two_to((m - c) * stride);
    let x = byte as int;
    lemma_stride_step(bits, m - c + 1);
    assert(0 < d && 0 < base);
    lemma_div_denominator(x, d, base);
    lemma_flat_split(x / d, base);
    assert(x / d % base == x / d % two_to(bits)) by {
        if bits == 3 {
            if c == 1 {
                assert((m - c) * stride == 4) by (nonlinear_arith)
                    requires
                        m == 2,
                        c == 1,
                        stride == 4,
                ;
            } else {
                assert((m - c) * stride == 0) by (nonlinear_arith)
                    requires
                        m == 2,
                        c == 2,
                ;
            }
        }
    }
}

/// The group byte that rebuilt planes give.
proof fn lemma_regrouped(rows: Seq<u8>, n: int, v: int, g: int, bits: int, dim: int, c: nat)
    requires
        1 <= bits <= 8,
        dim % 8 == 0,
        0 <= dim,
        0 <= v < n,
        0 <= g < groups(bits, dim),
        c <= codes_per_byte(bits),
        canonical_byte(rows[v * groups(bits, dim) + g], bits),
    ensures
        group_high(planes_of_rows(rows, n, bits, dim), v, g, bits, dim, c) == rows[v * groups(bits, dim)
            + g] as int / two_to((codes_per_byte(bits) - c) * code_stride(bits)),
    decreases c,
{
    let m = codes_per_byte(bits);
    let byte = rows[v * groups(bits, dim) + g];
    lemma_groups_cover(bits, dim, g);
    if c > 0 {
        let j = g * m + c - 1;
        lemma_regrouped(rows, n, v, g, bits, dim, (c - 1) as nat);
        assert(0 <= g * m) by (nonlinear_arith)
            requires
                0 <= g,
                0 <= m,
        ;
        law_codes_agree(rows, n, v, j, bits, dim);
        lemma_flat_index(g, c - 1, m);
        lemma_leading_codes(byte, bits, c as int);
    } else {
        assert(bits == 1 || bits == 2 || bits == 3 || bits == 4 || bits == 5 || bits == 6 || bits == 7
            || bits == 8);
        assert((m - 0) * code_stride(bits) == m * code_stride(bits));
        if bits <= 4 {
            assert(m * code_stride(bits) == 8) by (nonlinear_arith)
                requires
                    m == 8 && code_stride(bits) == 1 || m == 4 && code_stride(bits) == 2 || m == 2
                        && code_stride(bits) == 4,
            ;
        } else {
            assert(m * code_stride(bits) == bits) by (nonlinear_arith)
                requires
                    m == 1,
                    code_stride(bits) == bits,
            ;
        }
        assert(0 <= byte as int);
        lemma_small_div(byte as int, two_to(m * code_stride(bits)));
    }
}

proof fn lemma_small_div(x: int, d: int)
    requires
        0 <= x < d,
    ensures
        x / d == 0,
{
    lemma_flat_index(0, x, d);
}

/// Group bytes survive the trip to bit planes and back, as long as they hold
/// nothing beside their codes.
pub proof fn law_group_rows_round_trip(rows: Seq<u8>, n: int, bits: int, dim: int)
    requires
        1 <= bits <= 8,
        dim % 8 == 0,
        0 <= dim,
        0 <= n,
        rows.len() == n * groups(bits, dim),
        forall|q: int| 0 <= q < rows.len() ==> canonical_byte(#[trigger] rows[q], bits),
    ensures
        group_rows(planes_of_rows(rows, n, bits, dim), n, bits, dim) == rows,
{
    let ng = groups(bits, dim);
    let m = codes_per_byte(bits);
    let back = group_rows(planes_of_rows(rows, n, bits, dim), n, bits, dim);
    assert forall|q: int| 0 <= q < rows.len() implies back[q] == rows[q] by {
        assert(0 < ng) by {
            if ng <= 0 {
                assert(n * ng <= 0) by (nonlinear_arith)
                    requires
                        0 <= n,
                        ng <= 0,
                ;
            }
        }
        lemma_flat_row(q, n, ng);
        lemma_regrouped(rows, n, q / ng, q % ng, bits, dim, m as nat);
        assert((m - m) * code_stride(bits) == 0) by (nonlinear_arith);
        assert(rows[q] as int / 1 == rows[q]);
    }
    assert(back =~= rows);
}

} // verus!
