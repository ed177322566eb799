use basisu::fastenc::bc7_patterns::{
    determine_3subsets, part2_bitmasks, part3_bitmasks, pick_3subset_pat_index,
};
use basisu::fastenc::bc7f::Bc7Partitions;

/// Three-subset pattern `p` splits the texels at `b1(p)` and `b2(p)`.
fn bounds(p: usize) -> (usize, usize) {
    let b1 = 1 + p % 7;
    (b1, b1 + 1 + (p / 7) % 7)
}

fn varied_parts() -> Bc7Partitions {
    let mut part2 = vec![0u8; 1024];
    let mut part3 = vec![0u8; 1024];
    let mut a2 = vec![0u8; 64];
    let mut a31 = vec![0u8; 64];
    let mut a32 = vec![0u8; 64];
    for p in 0..64 {
        let cut = 1 + p % 15;
        let (b1, b2) = bounds(p);
        for i in 0..16 {
            part2[p * 16 + i] = u8::from(i >= cut);
            part3[p * 16 + i] = if i < b1 { 0 } else if i < b2 { 1 } else { 2 };
        }
        a2[p] = cut as u8;
        a31[p] = b1 as u8;
        a32[p] = b2 as u8;
    }
    Bc7Partitions::new(part2, part3, a2, a31, a32).unwrap()
}

fn subset3(p: usize, i: usize) -> usize {
    let (b1, b2) = bounds(p);
    if i < b1 {
        0
    } else if i < b2 {
        1
    } else {
        2
    }
}

/// The score by brute force over the six pairings.
fn score(d: &[u8; 16], p: usize) -> i32 {
    let perms = [[0, 1, 2], [0, 2, 1], [1, 0, 2], [1, 2, 0], [2, 0, 1], [2, 1, 0]];
    perms
        .iter()
        .map(|s| (0..16).filter(|&i| s[d[i] as usize] == subset3(p, i)).count() as i32)
        .max()
        .unwrap()
}

fn first_best(d: &[u8; 16], n: usize) -> usize {
    let mut best = 0;
    for p in 1..n {
        if score(d, p) > score(d, best) {
            best = p;
        }
    }
    best
}

#[test]
fn masks_hold_the_patterns() {
    let t = varied_parts();
    let m3 = part3_bitmasks(&t);
    let m2 = part2_bitmasks(&t);
    // Pattern 20 splits at texels 7 and 10.
    assert_eq!(m3[20] & 0xFFFF, 0b0000_0000_0111_1111);
    assert_eq!(m3[20] >> 16, 0b0000_0011_1000_0000);
    // Two-subset pattern 4 puts texels 5.. in the second subset.
    assert_eq!(m2[4], 0xFFE0);
}

#[test]
fn exact_pattern_is_found() {
    let t = varied_parts();
    let masks = part3_bitmasks(&t);
    let mut d = [0u8; 16];
    // Pattern 20 with the subsets renamed: the pairing search sees through it.
    for i in 0..16 {
        d[i] = [2, 0, 1][subset3(20, i)];
    }
    let mut first16 = 99;
    let best = pick_3subset_pat_index(&d, &t, &masks, &mut first16);
    assert_eq!(best, 20);
    assert_eq!(first16 as usize, first_best(&d, 16));
    assert_eq!(score(&d, 20), 16);
}

#[test]
fn best_match_by_score() {
    let t = varied_parts();
    let masks = part3_bitmasks(&t);
    let d: [u8; 16] = [0, 1, 0, 0, 2, 1, 1, 1, 2, 2, 0, 2, 2, 1, 2, 2];
    let mut first16 = 0;
    let best = pick_3subset_pat_index(&d, &t, &masks, &mut first16);
    assert_eq!(best as usize, first_best(&d, 64));
    assert_eq!(first16 as usize, first_best(&d, 16));
}

#[test]
fn refine_split_into_three_subsets() {
    let mut px = [[10u8, 10, 10, 255]; 16];
    let mut halves = [false; 16];
    for k in 8..16 {
        let v = 100 + 10 * (k as u8 - 8);
        px[k] = [v, v, v, 255];
        halves[k] = true;
    }
    let mut out = [9u8; 16];
    assert!(determine_3subsets(&mut out, &px, &halves));
    assert_eq!(out, [2, 2, 2, 2, 2, 2, 2, 2, 1, 1, 1, 1, 0, 0, 0, 0]);
}

#[test]
fn refine_split_refusals() {
    let px = [[10u8, 20, 30, 255]; 16];
    let mut out = [9u8; 16];
    // One half is empty.
    assert!(!determine_3subsets(&mut out, &px, &[false; 16]));
    assert_eq!(out, [9u8; 16]);
    // Both halves are flat, so the first (one texel) is the one to split.
    let mut px2 = [[255u8, 255, 255, 255]; 16];
    px2[0] = [0, 0, 0, 255];
    let mut halves = [true; 16];
    halves[0] = false;
    assert!(!determine_3subsets(&mut out, &px2, &halves));
    assert_eq!(out, [9u8; 16]);
}
