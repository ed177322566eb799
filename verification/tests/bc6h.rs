use basisu::fastenc::bc6h_enc::{
    bc6h_best_2subset_pattern, bc6h_block_stats, bc6h_classify, bc6h_convert_to_half,
    bc6h_delta_encode, bc6h_deltas_fit, bc6h_dequant_endpoints, bc6h_dequantize, bc6h_flip_anchor,
    bc6h_flip_anchors_2subsets, bc6h_nearest_2subset_patterns, bc6h_simple_endpoints,
    Bc6hBlockKind, FastBc6hParams,
};

#[test]
fn default_params() {
    let p = FastBc6hParams::default();
    assert_eq!(p.num_diff_endpoint_modes_to_try, 2);
    assert_eq!(p.max_2subset_pats_to_try, 1);
    assert!(p.hq_ls);
    assert!(!p.brute_force_weight4_assignment);
}

#[test]
fn dequantize_values() {
    assert_eq!(bc6h_dequantize(0, 10), 0);
    assert_eq!(bc6h_dequantize(1023, 10), 0xFFFF);
    assert_eq!(bc6h_dequantize(1, 10), (65536 + 0x8000) / 1024);
    assert_eq!(bc6h_dequantize(512, 10), (512 * 65536 + 0x8000) / 1024);
    assert_eq!(bc6h_dequantize(12345, 16), 12345);
    assert_eq!(bc6h_dequantize(3, 2), 0xFFFF);
}

#[test]
fn half_conversion() {
    assert_eq!(bc6h_convert_to_half(0xFFFF), 0xFFFF * 31 / 64);
    assert_eq!(bc6h_convert_to_half(64), 31);
    assert_eq!(bc6h_convert_to_half(1), 0);
}

#[test]
fn endpoints_dequantized_in_place() {
    let b = [0u32, 1, 2, 100, 127, 64];
    let mut h = [9u32; 6];
    bc6h_dequant_endpoints(&b, &mut h, 7);
    for i in 0..6 {
        let v = bc6h_dequantize(b[i] as i32, 7);
        assert_eq!(h[i], bc6h_convert_to_half(v));
    }
    assert_eq!(h[0], 0);
    assert_eq!(h[4], 0xFFFF * 31 / 64);
}

fn gradient_block() -> [u16; 48] {
    let mut px = [0u16; 48];
    for i in 0..16 {
        px[i * 3] = (100 * i) as u16;
        px[i * 3 + 1] = (200 + (i % 4) * 10) as u16;
        px[i * 3 + 2] = (3 * i * i) as u16;
    }
    px
}

#[test]
fn block_stats_of_gradient() {
    let s = bc6h_block_stats(&gradient_block());
    assert_eq!(s.omin, [0, 200, 0]);
    assert_eq!(s.omax, [1500, 230, 675]);
    assert_eq!(s.totals, [12000, 3440, 3720]);
    assert_eq!(s.mean, [750, 215, 233]);
    assert_eq!(s.icov, [3400000, 20000, 1530000, 2000, 9000, 739912]);
    assert_eq!(s.block_max_var, 3400000);
    assert_eq!(bc6h_classify(&s), Bc6hBlockKind::Complex);
}

#[test]
fn block_classes() {
    let solid = [0x3C00u16; 48];
    let s = bc6h_block_stats(&solid);
    assert_eq!(s.icov, [0; 6]);
    assert_eq!(bc6h_classify(&s), Bc6hBlockKind::Solid);

    let mut narrow = [0x3C00u16; 48];
    narrow[0] = 0x3C10;
    narrow[47] = 0x3BF0;
    let s = bc6h_block_stats(&narrow);
    assert_eq!(bc6h_classify(&s), Bc6hBlockKind::Simple);
}

#[test]
fn simple_endpoints_pull_in_the_range() {
    let s = bc6h_block_stats(&gradient_block());
    assert_eq!(bc6h_simple_endpoints(&s), [46, 200, 21, 1453, 229, 653]);
}

#[test]
fn flip_anchor_mirrors_high_anchor() {
    let mut w = [9u8, 0, 15, 7, 8, 1, 2, 3, 4, 5, 6, 10, 11, 12, 13, 14];
    let mut e = [[10u32, 20, 30, 40], [1, 2, 3, 4], [100, 200, 300, 400]];
    bc6h_flip_anchor(&mut w, &mut e);
    assert_eq!(w, [6, 15, 0, 8, 7, 14, 13, 12, 11, 10, 9, 5, 4, 3, 2, 1]);
    assert_eq!(e, [[20, 10, 30, 40], [2, 1, 3, 4], [200, 100, 300, 400]]);

    let mut w2 = [7u8; 16];
    let mut e2 = [[5u32, 6, 7, 8]; 3];
    bc6h_flip_anchor(&mut w2, &mut e2);
    assert_eq!(w2, [7u8; 16]);
    assert_eq!(e2, [[5u32, 6, 7, 8]; 3]);
}

#[test]
fn best_pattern_is_nearest_either_way_round() {
    let mut pats = [0x3333u32; 32];
    pats[0] = 0xFFFF;
    pats[1] = 0x0F0F;
    pats[2] = 0xFF00;
    pats[3] = 0x00F0;
    pats[4] = 0x0001;
    // 0xFF00 is 0x00FF with the subsets swapped: distance 0.
    assert_eq!(bc6h_best_2subset_pattern(0x00FF, &pats), 2);
    // An exact match at a higher index loses to nothing; ties go low.
    let same = [0x0F0Fu32; 32];
    assert_eq!(bc6h_best_2subset_pattern(0x0F0F, &same), 0);
}

#[test]
fn flip_anchors_of_two_subsets() {
    let mut w = [5u8, 1, 2, 3, 4, 5, 6, 7, 6, 0, 1, 2, 3, 4, 5, 7];
    let mut e = [[10u32, 20, 30, 40], [1, 2, 3, 4], [100, 200, 300, 400]];
    bc6h_flip_anchors_2subsets(&mut w, &mut e, 0xFF00, 8);
    assert_eq!(w, [2, 6, 5, 4, 3, 2, 1, 0, 1, 7, 6, 5, 4, 3, 2, 0]);
    assert_eq!(e, [[20, 10, 40, 30], [2, 1, 4, 3], [200, 100, 400, 300]]);

    // Only subset 1's anchor has its top bit set.
    let mut w = [3u8; 16];
    w[12] = 4;
    let mut e = [[10u32, 20, 30, 40]; 3];
    bc6h_flip_anchors_2subsets(&mut w, &mut e, 0xF000, 12);
    assert_eq!(w, [3, 3, 3, 3, 3, 3, 3, 3, 3, 3, 3, 3, 3, 4, 4, 4]);
    assert_eq!(e, [[10, 20, 40, 30]; 3]);
}

#[test]
fn deltas_fit_difference_modes() {
    let e = [[100u32, 110, 90, 105], [7, 7, 7, 7], [0, 15, 15, 0]];
    // 90 - 110 = -20 is outside +-15.
    assert!(!bc6h_deltas_fit(&e, &[5, 5, 5]));
    assert!(bc6h_deltas_fit(&e, &[6, 5, 5]));
    // 15 fits five bits, not four.
    assert!(!bc6h_deltas_fit(&e, &[6, 5, 4]));
}

#[test]
fn nearest_patterns_in_rank_order() {
    let mut pats = [0x3333u32; 32];
    pats[0] = 0xFFFF;
    pats[1] = 0x0F0F;
    pats[2] = 0xFF00;
    pats[3] = 0x00F0;
    pats[4] = 0x0001;
    assert_eq!(bc6h_nearest_2subset_patterns(0x00FF, &pats, 6), vec![2, 3, 4, 0, 1, 5]);
    assert_eq!(bc6h_nearest_2subset_patterns(0x00FF, &pats, 0), Vec::<u32>::new());
    let all = bc6h_nearest_2subset_patterns(0x00FF, &pats, 32);
    let mut expected = vec![2u32, 3, 4, 0, 1];
    expected.extend(5..32u32);
    assert_eq!(all, expected);
    // The first of the list is the single best pattern.
    assert_eq!(all[0], bc6h_best_2subset_pattern(0x00FF, &pats));
}

#[test]
fn delta_encoding_wraps_negative_differences() {
    let mut e = [[100u32, 110, 90, 105], [7, 7, 7, 7], [0, 15, 15, 0]];
    bc6h_delta_encode(&mut e, &[6, 5, 5]);
    // -10 in six bits is 54.
    assert_eq!(e, [[100, 10, 54, 5], [7, 0, 0, 0], [0, 15, 15, 0]]);
}
