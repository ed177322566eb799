use basisu::color::{clamp_i32_u8, etc_5_to_8, inten_table};
use basisu::fastenc::etc1_block::{
    etc1_flat_route, etc1_route, Etc1FlatRoute, Etc1Route, etc1_gray_is_solid, etc1_gray_pixels, etc1_half_sums, etc1_is_solid, etc1_low_chroma,
    etc1_subsets,
};
use basisu::fastenc::etc1f::{
    build_etc1_tables, clamp255, corr_round_444, corr_round_555, dequant_d3, expand4_i,
    expand5_i, get_709_luma, get_block_colors, get_block_colors_y, pack_etc1_solid_subblocks,
    pack_etc1_solid_with, q4_floor, q5_floor, squarei, PackEtc1State, Rgba,
};

/// Decode texel (x, y) of an ETC1 block.
fn decode(block: &[u8; 8], x: usize, y: usize) -> [u8; 3] {
    let colors = get_block_colors(block);
    let flip = block[3] & 1 != 0;
    let sb = if flip { usize::from(y >= 2) } else { usize::from(x >= 2) };
    let bit = x * 4 + y;
    let lsb = (u16::from(block[6]) << 8 | u16::from(block[7])) >> bit & 1;
    let msb = (u16::from(block[4]) << 8 | u16::from(block[5])) >> bit & 1;
    // Selector codes 0, 1, 2, 3 are modifiers +small, +large, -small, -large.
    let idx = [2usize, 3, 1, 0][usize::from(msb << 1 | lsb)];
    colors[sb][idx]
}

#[test]
fn expansion_and_quantization_values() {
    assert_eq!(expand5_i(31), 255);
    assert_eq!(expand5_i(16), 132);
    assert_eq!(expand4_i(1), 17);
    assert_eq!(etc_5_to_8(1), 8);
    assert_eq!(dequant_d3(3), 3);
    assert_eq!(dequant_d3(4), -4);
    assert_eq!(dequant_d3(7), -1);
    assert_eq!((clamp255(-5), clamp255(300), clamp255(77)), (0, 255, 77));
    assert_eq!(clamp_i32_u8(-1), 0);
    assert_eq!((q5_floor(255), q5_floor(100), q4_floor(100)), (31, 12, 5));
    assert_eq!(squarei(-7), 49);
    assert_eq!(inten_table(0, 0), -8);
    assert_eq!(inten_table(7, 3), 183);
}

#[test]
fn luma_values() {
    assert_eq!(get_709_luma([255, 255, 255, 0]), 255);
    assert_eq!(get_709_luma([100, 0, 0, 255]), 21);
    assert_eq!(get_709_luma([0, 0, 0, 255]), 0);
}

#[test]
fn corrected_rounding() {
    assert_eq!(corr_round_555(255, 255, 255), [31, 31, 31]);
    assert_eq!(corr_round_555(100, 100, 100), [12, 12, 12]);
    assert_eq!(corr_round_444(255, 0, 255), [15, 0, 15]);
}

#[test]
fn block_colors_of_differential_block() {
    let block = [0x80u8, 0x80, 0x80, 0x02, 0, 0, 0, 0];
    let c = get_block_colors(&block);
    assert_eq!(c[0], [[124, 124, 124], [130, 130, 130], [134, 134, 134], [140, 140, 140]]);
    assert_eq!(c[1], c[0]);
    let y = get_block_colors_y(&block);
    assert_eq!(y[0], [124, 130, 134, 140]);
}

#[test]
fn solid_blocks_and_memo() {
    let t = build_etc1_tables();
    let mut state = PackEtc1State::new();
    let color: Rgba = [200, 100, 50, 255];
    let mut a = [0u8; 8];
    pack_etc1_solid_with(&t, &mut a, color, &mut state, false);
    let mut b = [0u8; 8];
    pack_etc1_solid_with(&t, &mut b, color, &mut state, false);
    assert_eq!(a, b);
    for y in 0..4 {
        for x in 0..4 {
            let d = decode(&a, x, y);
            for c in 0..3 {
                assert!((i32::from(d[c]) - i32::from(color[c])).abs() <= 4, "{d:?}");
            }
        }
    }
    // A gray color comes from the precomputed grayscale blocks.
    let mut g = [0u8; 8];
    pack_etc1_solid_with(&t, &mut g, [128, 128, 128, 7], &mut state, false);
    assert_eq!(g, t.gray_block(128));
    assert_eq!(decode(&g, 1, 2), decode(&g, 3, 0));
}

#[test]
fn flat_subblocks_pack_each_mean() {
    let t = build_etc1_tables();
    let mut block = [0u8; 8];
    pack_etc1_solid_subblocks(&t, &mut block, [[40, 40, 40, 255], [200, 200, 200, 255]], 0);
    assert_eq!(block[3] & 1, 0);
    let left = decode(&block, 0, 0);
    let right = decode(&block, 3, 3);
    assert!(left[0] <= 48 && left[0] >= 32, "{left:?}");
    assert!(right[0] <= 208 && right[0] >= 192, "{right:?}");
}

#[test]
fn block_statistics() {
    let mut px = [[10u8, 20, 30, 255]; 16];
    assert!(etc1_is_solid(&px));
    px[5] = [10, 20, 31, 0];
    assert!(!etc1_is_solid(&px));
    // Alpha is ignored.
    let mut pa = [[10u8, 20, 30, 255]; 16];
    pa[3][3] = 0;
    assert!(etc1_is_solid(&pa));

    let gray = [[50u8, 50, 50, 255]; 16];
    let sums = etc1_half_sums(&gray);
    assert_eq!(sums.total_c2, 0);
    assert_eq!(sums.accum_y, [400, 400, 400, 400]);
    assert_eq!(sums.accum_y2, [20000, 20000, 20000, 20000]);
    assert!(etc1_low_chroma(&sums));
    let y = etc1_gray_pixels(&gray, sums.total_c2);
    assert_eq!(y, [50u8; 16]);
    assert!(etc1_gray_is_solid(&y));

    let red = [[255u8, 0, 0, 255]; 16];
    let s = etc1_half_sums(&red);
    // (r - g)^2 + (b - g)^2 per texel.
    assert_eq!(s.max_c2, 65025);
    assert!(!etc1_low_chroma(&s));
    assert_eq!(etc1_gray_pixels(&red, s.total_c2)[0], 54);
}

#[test]
fn subsets_of_split_block() {
    let mut px = [[0u8; 4]; 16];
    for i in 0..16 {
        let v: u8 = if i % 4 < 2 { 40 } else { 200 };
        px[i] = [v, v, v, 255];
    }
    let s = etc1_subsets(&px, 0);
    assert!(s.is_flat());
    assert_eq!(s.flat_means(), [[40, 40, 40, 255], [200, 200, 200, 255]]);
    assert_eq!(s.var8_y(), [0, 0]);
    let s = etc1_subsets(&px, 1);
    assert!(!s.is_flat());
    assert_eq!(s.half_span(), [80, 80]);
}

#[test]
fn black_solid_block() {
    let t = build_etc1_tables();
    let mut state = PackEtc1State::new();
    let mut block = [0u8; 8];
    pack_etc1_solid_with(&t, &mut block, [0, 0, 0, 255], &mut state, false);
    assert_eq!(block, [0x00, 0x00, 0x00, 0x02, 0xFF, 0xFF, 0xFF, 0xFF]);
    // The gray path left the memo empty: a later colour is searched afresh
    // and gives the same block as from a new state.
    let mut a = [0u8; 8];
    pack_etc1_solid_with(&t, &mut a, [10, 20, 30, 255], &mut state, false);
    let mut b = [0u8; 8];
    pack_etc1_solid_with(&t, &mut b, [10, 20, 30, 255], &mut PackEtc1State::new(), false);
    assert_eq!(a, b);
}

#[test]
fn etc1_routing() {
    assert!(matches!(etc1_route(&[[9, 8, 7, 0]; 16]), Etc1Route::Solid([9, 8, 7, 0])));
    let mut gray = [[100u8, 100, 100, 255]; 16];
    gray[3] = [140, 140, 140, 255];
    assert!(matches!(etc1_route(&gray), Etc1Route::Gray(_)));
    let mut colour = [[200u8, 20, 20, 255]; 16];
    colour[0] = [20, 20, 200, 255];
    match etc1_route(&colour) {
        Etc1Route::Color(a) => assert!(a.total_c2 >= 300 || a.max_c2 >= 32),
        _ => panic!("expected a coloured block"),
    }
}

#[test]
fn etc1_flat_routing() {
    let mut px = [[200u8, 20, 20, 255]; 16];
    for y in 0..4 {
        for x in 2..4 {
            px[y * 4 + x] = [20, 20, 20, 255];
        }
    }
    // Split left/right: each subblock is one colour.
    match etc1_flat_route(&etc1_subsets(&px, 0)) {
        Etc1FlatRoute::TwoColors(m) => assert_ne!(m[0], m[1]),
        _ => panic!("expected two flat subblocks"),
    }
    // Split top/bottom: each subblock mixes both colours.
    assert!(matches!(etc1_flat_route(&etc1_subsets(&px, 1)), Etc1FlatRoute::Textured));
    let one = [[60u8, 70, 80, 255]; 16];
    assert!(matches!(etc1_flat_route(&etc1_subsets(&one, 0)), Etc1FlatRoute::OneColor(_)));
}
