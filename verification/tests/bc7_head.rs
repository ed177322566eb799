use basisu::fastenc::bc7_head::{
    bc7_best_2subset_pattern, subset_stats,
    axis_extremes, bc7_pipeline_for_opaque, bc7_pipeline_for, is_solid_block,
    pick_rgb_candidate, pick_rgba_candidate, rgb_block_stats, rgba_block_stats, swap_dual_plane_channel,
    trivial_mode6_endpoints, trivial_mode6_extremes, Bc7Pipeline, RgbCandidate, RgbaCandidate,
};
use basisu::fastenc::bc7f::flags;

fn test_block() -> [[u8; 4]; 16] {
    let mut px = [[0u8; 4]; 16];
    for i in 0..16 {
        px[i] = [
            ((17 * i) % 256) as u8,
            ((3 * i + 40) % 256) as u8,
            (255 - 8 * i) as u8,
            if i == 5 { 100 } else { 255 },
        ];
    }
    px
}

#[test]
fn pipeline_routes() {
    assert_eq!(bc7_pipeline_for_opaque(flags::DEFAULT), Bc7Pipeline::RgbAnalytical);
    assert_eq!(
        bc7_pipeline_for_opaque(flags::DEFAULT_PARTIALLY_ANALYTICAL),
        Bc7Pipeline::RgbPartiallyAnalytical
    );
    let opaque = [[10u8, 20, 30, 255]; 16];
    assert_eq!(bc7_pipeline_for(&opaque, flags::DEFAULT), Bc7Pipeline::RgbAnalytical);
    assert_eq!(
        bc7_pipeline_for(&opaque, flags::PARTIALLY_ANALYTICAL_RGB),
        Bc7Pipeline::RgbPartiallyAnalytical
    );
    let px = test_block();
    assert_eq!(bc7_pipeline_for(&px, flags::DEFAULT), Bc7Pipeline::RgbaAnalytical);
    assert_eq!(
        bc7_pipeline_for(&px, flags::DEFAULT_PARTIALLY_ANALYTICAL),
        Bc7Pipeline::RgbaPartiallyAnalytical
    );
    // Only the opaque-side flag set: a translucent block still takes the
    // plain alpha pipeline.
    assert_eq!(
        bc7_pipeline_for(&px, flags::PARTIALLY_ANALYTICAL_RGB),
        Bc7Pipeline::RgbaAnalytical
    );
    let mut last = opaque;
    last[15][3] = 254;
    assert_eq!(bc7_pipeline_for(&last, 0), Bc7Pipeline::RgbaAnalytical);
}

#[test]
fn flag_sets() {
    assert_eq!(flags::DEFAULT, 255);
    assert_eq!(flags::DEFAULT_PARTIALLY_ANALYTICAL, 1023);
}

#[test]
fn solid_block_test() {
    let solid = [[1u8, 2, 3, 4]; 16];
    assert!(is_solid_block(&solid));
    let mut alpha_differs = solid;
    alpha_differs[9][3] = 5;
    assert!(!is_solid_block(&alpha_differs));
    assert!(!is_solid_block(&test_block()));
}

#[test]
fn rgb_stats_values() {
    let s = rgb_block_stats(&test_block());
    assert_eq!(s.total, [2040, 1000, 3120]);
    assert_eq!(s.min, [0, 40, 135]);
    assert_eq!(s.max, [255, 85, 255]);
    assert_eq!(s.mean, [128, 63, 195]);
    assert_eq!(s.icov, [98264, 17344, -46240, 3064, -8160, 21760]);
    assert_eq!(s.block_max_var, 98264);
}

#[test]
fn rgba_stats_values() {
    let s = rgba_block_stats(&test_block());
    assert_eq!(s.total, [2040, 1000, 3120, 3925]);
    assert_eq!(s.min, [0, 40, 135, 100]);
    assert_eq!(s.max, [255, 85, 255, 255]);
    assert_eq!(s.mean, [128, 63, 195, 245]);
    assert_eq!(s.icov, [98264, 17344, -46240, 6585, 3064, -8160, 1160, 21760, -3100, 22525]);
    assert_eq!(s.block_max_var, 98264);
}

#[test]
fn solid_block_has_no_variance() {
    let s = rgba_block_stats(&[[7u8, 8, 9, 10]; 16]);
    assert_eq!(s.icov, [0; 10]);
    assert_eq!(s.block_max_var, 0);
    assert_eq!(s.mean, [7, 8, 9, 10]);
}

#[test]
fn trivial_mode6_ends() {
    let px = test_block();
    assert_eq!(trivial_mode6_extremes(&px, false), (0, 15));
    assert_eq!(trivial_mode6_extremes(&px, true), (5, 15));
    let e = trivial_mode6_endpoints(&px, 0, 15, false);
    assert_eq!(e.low, [0, 20, 127, 127]);
    assert_eq!(e.high, [127, 42, 67, 127]);
    assert_eq!((e.p0, e.p1), (1, 1));
    let e = trivial_mode6_endpoints(&px, 5, 15, true);
    assert_eq!(e.low, [43, 28, 108, 50]);
    assert_eq!(e.high, [127, 42, 67, 127]);
    assert_eq!((e.p0, e.p1), (0, 1));
}

#[test]
fn trivial_extremes_break_ties_by_index() {
    let grey = [[50u8, 50, 50, 255]; 16];
    assert_eq!(trivial_mode6_extremes(&grey, true), (0, 15));
}

#[test]
fn extremes_along_axes() {
    let px = test_block();
    let subsets = [0u8, 1, 2, 0, 1, 2, 0, 1, 2, 0, 1, 2, 0, 1, 0, 0];
    let axes = [[306, 601, 117, 0], [-100, 50, 2048, -2048], [0, 0, 0, 1]];
    assert_eq!(axis_extremes(&px, &subsets, &axes), ([0, 13, 5], [15, 1, 11]));
}

#[test]
fn extremes_of_empty_subsets() {
    let px = test_block();
    let axes = [[306, 601, 117, 0]; 3];
    // Subsets 1 and 2 hold no texel: their ends are the sentinels' low bits.
    assert_eq!(axis_extremes(&px, &[0u8; 16], &axes), ([0, 15, 15], [15, 0, 0]));
}

#[test]
fn candidate_picks() {
    let max = u32::MAX;
    assert_eq!(pick_rgb_candidate(100, max, max, max), (RgbCandidate::Mode6, 100));
    assert_eq!(pick_rgb_candidate(100, 90, 80, 95), (RgbCandidate::Mode13, 80));
    // Ties: dual plane first, then the three-subset candidate, then mode 6.
    assert_eq!(pick_rgb_candidate(80, 80, 80, 80), (RgbCandidate::Mode45, 80));
    assert_eq!(pick_rgb_candidate(80, 80, 80, 81), (RgbCandidate::Mode02, 80));
    assert_eq!(pick_rgb_candidate(70, 80, 80, 81), (RgbCandidate::Mode6, 70));
    assert_eq!(pick_rgba_candidate(50, max, 49), (RgbaCandidate::Mode7, 49));
    assert_eq!(pick_rgba_candidate(50, 50, 50), (RgbaCandidate::Mode45, 50));
    assert_eq!(pick_rgba_candidate(50, max, max), (RgbaCandidate::Mode6, 50));
}

#[test]
fn variance_vanishes_only_on_one_colour() {
    let mut px = [[40u8, 80, 120, 255]; 16];
    px[3][3] = 0;
    // One RGB colour, two alphas: no RGB variance, some RGBA variance.
    assert_eq!(rgb_block_stats(&px).block_max_var, 0);
    assert!(rgba_block_stats(&px).block_max_var > 0);
    assert!(!is_solid_block(&px));
    px[3][3] = 255;
    assert_eq!(rgba_block_stats(&px).block_max_var, 0);
    assert!(is_solid_block(&px));
    px[7][1] = 81;
    assert!(rgb_block_stats(&px).block_max_var > 0);
}

#[test]
fn dual_plane_channel_swap() {
    let px = test_block();
    let g = swap_dual_plane_channel(&px, 1);
    assert_eq!(g[5], [85, 100, 215, 55]);
    assert_eq!(g[0], [0, 255, 255, 40]);
    assert_eq!(swap_dual_plane_channel(&g, 1), px);
    assert_eq!(swap_dual_plane_channel(&px, 3), px);
}

#[test]
fn subset_statistics() {
    let st = subset_stats(&test_block(), 0xCCCC);
    assert_eq!(st.count, [8, 8]);
    assert_eq!(st.total, [[884, 476, 1624, 1885], [1156, 524, 1496, 2040]]);
    assert_eq!(st.mean, [[111, 60, 203, 236], [145, 66, 187, 255]]);
    assert_eq!(st.icov[0], [46820, 8264, -22032, 3954, 1460, -3888, 699, 10368, -1860, 21023]);
    assert_eq!(st.icov[1], [46820, 8264, -22032, 0, 1460, -3888, 0, 10368, 0, 0]);
}

#[test]
fn bc7_two_subset_pattern_choice() {
    let mut masks = [0x0F0Fu16; 64];
    masks[3] = 0xF00F;
    masks[10] = 0xFF00;
    masks[40] = 0x00FF;
    // 0xFF00 matches 0x00FF with the subsets swapped and comes first.
    assert_eq!(bc7_best_2subset_pattern(0x00FF, &masks), 10);
    assert_eq!(bc7_best_2subset_pattern(0x0F0F, &masks), 0);
}

