use turbovec::pack::{n_byte_groups, Layout, BLOCK};
use turbovec::scan::{
    block_sums, build_lut, lut_entries, lut_scale, score_block, score_rows, span, LUT_MAX,
};

/// A final partial block holds scores for its vectors and none for the rest.
#[test]
fn partial_block_pads_with_neg_infinity() {
    let n_byte_groups = 4;
    let n_vectors = 20;
    assert!(n_vectors % BLOCK != 0, "test needs a partial final block");

    let codes: Vec<u8> = (0..n_byte_groups * BLOCK).map(|i| (i * 37 % 256) as u8).collect();
    let luts: Vec<u8> = (0..n_byte_groups * 32).map(|i| (i * 13 % 128) as u8).collect();
    let vec_scales: Vec<f32> = (0..n_vectors).map(|i| 1.0 + i as f32 * 0.01).collect();

    let score = |sum: u32, i: usize| ((sum as f32 * 0.01 + -1.0) * vec_scales[i]).to_bits();
    let bits = score_block(Layout::Sequential, &codes, &luts, 0, n_byte_groups, n_vectors, &score);
    assert_eq!(bits.len(), BLOCK);
    let out: Vec<f32> = bits.iter().map(|&b| f32::from_bits(b)).collect();

    for (lane, &v) in out.iter().enumerate() {
        if lane < n_vectors {
            assert!(v.is_finite(), "lane {lane} should hold a real score, got {v}");
        } else {
            assert_eq!(
                v,
                f32::NEG_INFINITY,
                "pad lane {lane} past n_vectors={n_vectors} must be NEG_INFINITY"
            );
        }
    }
}

fn step(least: u32, most: u32) -> u32 {
    ((f32::from_bits(most) - f32::from_bits(least)) / LUT_MAX as f32).to_bits()
}

fn level(p: u32, least: u32, scale: u32) -> u32 {
    ((f32::from_bits(p) - f32::from_bits(least)) / f32::from_bits(scale)).round() as u32
}

/// A query without span quantizes to zeros, under a scale that is a positive
/// number.
#[test]
fn zero_span_query_yields_finite_scale() {
    let (dim, bits) = (256usize, 4usize);
    let query = vec![0.0f32; dim];
    // Whatever the levels are, zeros have only zeros for products.
    let products: Vec<u32> = query
        .iter()
        .flat_map(|&q| (0..1usize << bits).map(move |c| (q * (c as f32 - 7.5)).to_bits()))
        .collect();
    let lut = build_lut(&products, &step, &level);
    let scale = f32::from_bits(lut.scale);
    let bias = f32::from_bits(lut.least) * dim as f32;
    assert_eq!(lut.entries.len(), n_byte_groups(bits, dim) * 32);
    assert!(lut.entries.iter().all(|&b| b == 0));
    assert!(scale.is_finite() && scale > 0.0);
    assert!(bias.is_finite());
}

#[test]
fn products_are_quantized_over_their_span() {
    let products: Vec<u32> = [-2.0f32, 0.0, 1.0, 10.7, -0.5].iter().map(|v| v.to_bits()).collect();
    let lut = build_lut(&products, &step, &level);
    assert_eq!(f32::from_bits(lut.least), -2.0);
    assert_eq!(f32::from_bits(lut.scale), (10.7f32 - -2.0) / 127.0);
    assert_eq!(lut.entries, vec![0, 20, 30, 127, 15]);
    assert_eq!(span(&products), ((-2.0f32).to_bits(), 10.7f32.to_bits()));
}

#[test]
fn all_rows_of_several_blocks_are_scored() {
    // Row `i` holds the byte `i`: one group, sequential lanes.
    let n = 40;
    let codes: Vec<u8> = (0..64u8).collect();
    let mut luts: Vec<u8> = (0..16).collect();
    luts.extend((0..16u8).map(|i| 2 * i));
    let got = score_rows(Layout::Sequential, &codes, &luts, 1, n, &|sum, i| sum + 1000 * i as u32);
    let sums: Vec<u32> = (0..n as u32).map(|i| i / 16 + 2 * (i % 16) + 1000 * i).collect();
    assert_eq!(got, sums);
    assert!(score_rows(Layout::Sequential, &[], &luts, 1, 0, &|sum, _| sum).is_empty());
}

#[test]
fn table_entries_add_up_within_a_byte() {
    let levels: Vec<u32> = (0..300).collect();
    let entries = lut_entries(&levels);
    assert_eq!(entries[5], 5);
    assert_eq!(entries[127], 127);
    assert_eq!(entries[128], 127);
    assert_eq!(entries[299], 127);
    for &a in &entries {
        for &b in &entries {
            assert!(a as u16 + b as u16 <= 255);
        }
    }
}

#[test]
fn scales_that_are_no_numbers_become_one() {
    assert_eq!(lut_scale(0), 1.0f32.to_bits());
    assert_eq!(lut_scale(f32::INFINITY.to_bits()), 1.0f32.to_bits());
    assert_eq!(lut_scale(f32::NAN.to_bits()), 1.0f32.to_bits());
    assert_eq!(lut_scale(0.25f32.to_bits()), 0.25f32.to_bits());
}

#[test]
fn sums_look_up_both_halves() {
    // One group; lane 0 holds 0x21: entry 2 of the high table, entry 1 of the
    // low one.
    let mut codes = vec![0u8; BLOCK];
    codes[0] = 0x21;
    let mut luts = vec![0u8; 32];
    luts[2] = 40;
    luts[16 + 1] = 7;
    luts[0] = 1;
    let sums = block_sums(Layout::Sequential, &codes, &luts, 0, 1, 2);
    assert_eq!(sums[0], Some(47));
    assert_eq!(sums[1], Some(1));
    assert_eq!(sums[2], None);
    assert_eq!(sums.len(), 32);
}
