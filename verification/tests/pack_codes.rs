use turbovec::pack::{
    group_bytes, n_byte_groups, pack_block_rows, packed_from_group_bytes, read_plane_code, read_row_code, repack,
    repack_3bit, unpack_block_rows, Layout, BLOCK,
};
use turbovec::stream::BlockStreamer;

const LAYOUTS: [Layout; 2] = [Layout::Sequential, Layout::Interleaved];

/// Deterministic pseudo-random bytes (xorshift).
fn pseudo_random_bytes(len: usize, mut state: u64) -> Vec<u8> {
    (0..len)
        .map(|_| {
            state ^= state << 13;
            state ^= state >> 7;
            state ^= state << 17;
            (state & 0xFF) as u8
        })
        .collect()
}

#[test]
fn pack_then_unpack_block_rows_is_identity() {
    for layout in LAYOUTS {
        for &(n_rows, n_byte_groups) in &[(BLOCK, 16usize), (BLOCK, 384), (7, 16), (1, 4)] {
            let rows = pseudo_random_bytes(n_rows * n_byte_groups, 42);
            let mut block = vec![0u8; n_byte_groups * BLOCK];
            pack_block_rows(layout, &rows, n_rows, n_byte_groups, &mut block);

            let mut out = vec![0u8; BLOCK * n_byte_groups];
            unpack_block_rows(layout, &block, n_byte_groups, &mut out);

            assert_eq!(&out[..n_rows * n_byte_groups], rows.as_slice());
            // Padding lanes must come back as zero rows.
            assert!(out[n_rows * n_byte_groups..].iter().all(|&b| b == 0));
        }
    }
}

#[test]
fn unpack_inverts_repack_blocks() {
    // repack() and the per-block helpers must agree: unpacking every
    // block of repack's output reproduces group_bytes' rows.
    for layout in LAYOUTS {
        let bits = 4;
        let dim = 64;
        let n_vectors = 70; // 2 full blocks + 1 partial
        let packed = pseudo_random_bytes(n_vectors * dim * bits / 8, 7);

        let rows = group_bytes(&packed, n_vectors, bits, dim);
        let (blocked, n_blocks) = repack(&packed, n_vectors, bits, dim, layout);
        let n_byte_groups = n_byte_groups(bits, dim);
        let block_bytes = n_byte_groups * BLOCK;
        assert_eq!(blocked.len(), n_blocks * block_bytes);

        let mut out = vec![0u8; BLOCK * n_byte_groups];
        for block_idx in 0..n_blocks {
            unpack_block_rows(
                layout,
                &blocked[block_idx * block_bytes..(block_idx + 1) * block_bytes],
                n_byte_groups,
                &mut out,
            );
            let base_vec = block_idx * BLOCK;
            let lanes = (n_vectors - base_vec).min(BLOCK);
            assert_eq!(
                &out[..lanes * n_byte_groups],
                &rows[base_vec * n_byte_groups..(base_vec + lanes) * n_byte_groups],
            );
        }
    }
}

/// Every bit width, including the 3-bit case whose codes sit on 4-bit
/// boundaries: group bytes and bit planes hold the same codes.
#[test]
fn planes_and_group_bytes_hold_the_same_codes() {
    for &dim in &[256usize, 768] {
        for &bits in &[2usize, 3, 4] {
            let n = 97;
            let n_byte_groups = n_byte_groups(bits, dim);
            let mut rows = vec![0u8; n * n_byte_groups];
            let mut x = 0xDEADBEEFCAFEBABEu64 ^ (dim as u64) ^ ((bits as u64) << 32);
            for b in rows.iter_mut() {
                x ^= x << 13;
                x ^= x >> 7;
                x ^= x << 17;
                *b = (x >> 24) as u8;
            }
            let packed = packed_from_group_bytes(&rows, n, bits, dim);
            for v in 0..n {
                for j in 0..dim {
                    assert_eq!(
                        read_plane_code(&packed, v, j, bits, dim, n),
                        read_row_code(&rows, v, j, bits, dim, n),
                        "dim {dim} bits {bits} row {v} code {j}",
                    );
                }
            }
        }
    }
}

#[test]
fn group_bytes_hold_the_high_code_first() {
    // One vector of eight 4-bit codes, all planes clear but the lowest of the
    // first code and the highest of the second.
    let packed = [0b1000_0000u8, 0, 0, 0b0100_0000];
    assert_eq!(group_bytes(&packed, 1, 4, 8), vec![0x18, 0, 0, 0]);
    assert_eq!(packed_from_group_bytes(&[0x18, 0, 0, 0], 1, 4, 8), packed.to_vec());
}

#[test]
fn groups_per_vector() {
    assert_eq!(n_byte_groups(2, 64), 16);
    assert_eq!(n_byte_groups(3, 64), 32);
    assert_eq!(n_byte_groups(4, 64), 32);
}

#[test]
fn sequential_blocks_keep_lanes_side_by_side() {
    let rows = [1u8, 2, 3, 4];
    let mut block = vec![0u8; 2 * BLOCK];
    pack_block_rows(Layout::Sequential, &rows, 2, 2, &mut block);
    assert_eq!((block[0], block[1], block[32], block[33]), (1, 3, 2, 4));
    assert_eq!(block.iter().filter(|&&b| b != 0).count(), 4);
}

#[test]
fn interleaved_blocks_part_the_halves_of_a_byte() {
    // Lane 0 holds 0xAB and lane 16 holds 0xCD: their high halves share byte
    // 0, their low halves byte 16.
    let mut rows = vec![0u8; 32];
    rows[0] = 0xAB;
    rows[16] = 0xCD;
    let mut block = vec![0u8; BLOCK];
    pack_block_rows(Layout::Interleaved, &rows, 32, 1, &mut block);
    assert_eq!((block[0], block[16]), (0xCA, 0xDB));
}

#[test]
fn three_bit_codes_split_into_low_groups_and_a_plane() {
    let n = 40;
    let dim = 16;
    let packed = pseudo_random_bytes(n * 3 * dim / 8, 11);
    let (low, high, blocks) = repack_3bit(&packed, n, dim);
    assert_eq!(blocks, 2);
    assert_eq!(low.len(), blocks * (dim / 4) * BLOCK);
    assert_eq!(high.len(), blocks * (dim / 8) * BLOCK);
    for v in 0..n {
        for j in 0..dim {
            let code = read_plane_code(&packed, v, j, 3, dim, n);
            let l = low[v / 32 * (dim / 4) * 32 + j / 4 * 32 + v % 32];
            let h = high[v / 32 * (dim / 8) * 32 + j / 8 * 32 + v % 32];
            assert_eq!(code % 4, (l >> (2 * (3 - j % 4)) & 3) as u32);
            assert_eq!(code / 4, (h >> (7 - j % 8) & 1) as u32);
        }
    }
}

#[test]
fn streamed_rows_give_the_same_blocks() {
    for layout in LAYOUTS {
        let ng = 4;
        let n = 70;
        let rows = pseudo_random_bytes(n * ng, 3);
        let mut s = BlockStreamer::new(layout, ng);
        for row in rows.chunks(ng) {
            s.push_row(row);
        }
        let streamed = s.finish();
        let mut want = Vec::new();
        turbovec::pack::push_blocked(layout, &rows, n, ng, &mut want);
        assert_eq!(streamed, want);
        assert_eq!(BlockStreamer::new(layout, ng).finish(), Vec::<u8>::new());
    }
}

/// Every lane of every block gives its row back, and the lanes past the last
/// row are zero.
#[test]
fn lanes_of_repacked_blocks_are_the_rows() {
    for layout in LAYOUTS {
        for &bits in &[2usize, 3, 4] {
            let (n, dim) = (45usize, 16usize);
            let ng = n_byte_groups(bits, dim);
            let packed = pseudo_random_bytes(n * bits * dim / 8, 11);
            let rows = group_bytes(&packed, n, bits, dim);
            let (blocks, nb) = repack(&packed, n, bits, dim, layout);
            assert_eq!((nb, blocks.len()), (2, 2 * BLOCK * ng));
            for i in 0..nb {
                let mut out = vec![0u8; BLOCK * ng];
                unpack_block_rows(layout, &blocks[i * BLOCK * ng..(i + 1) * BLOCK * ng], ng, &mut out);
                for l in 0..BLOCK {
                    let lane = &out[l * ng..(l + 1) * ng];
                    let v = BLOCK * i + l;
                    if v < n {
                        assert_eq!(lane, &rows[v * ng..(v + 1) * ng]);
                    } else {
                        assert!(lane.iter().all(|&b| b == 0));
                    }
                }
            }
        }
    }
}

#[test]
fn one_changed_bit_changes_split_codes() {
    let (n, dim) = (33usize, 8usize);
    let packed = pseudo_random_bytes(n * 3 * dim / 8, 5);
    let whole = repack_3bit(&packed, n, dim);
    for at in 0..packed.len() {
        for bit in 0..8 {
            let mut other = packed.clone();
            other[at] ^= 1 << bit;
            let got = repack_3bit(&other, n, dim);
            assert!(got.0 != whole.0 || got.1 != whole.1);
            assert_eq!(got.2, whole.2);
        }
    }
}

#[test]
fn every_thirty_second_row_sends_a_block_out() {
    let mut s = BlockStreamer::new(Layout::Interleaved, 4);
    for i in 0..100usize {
        s.push_row(&[i as u8; 4]);
        assert_eq!(s.out.len(), (i + 1) / BLOCK * BLOCK * 4);
        assert_eq!(s.rows_accumulated, (i + 1) % BLOCK);
    }
}
