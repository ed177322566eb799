use basisu::pvrtc::{total_bits, Pvrtc1Image};
use basisu::pvrtc::swizzle::swizzle;
use basisu::pvrtc::tables::{level, quant_ceil, quant_floor};
use basisu::color::Color32;
use basisu::pvrtc::encode_pvrtc1_raw;

#[test]
fn total_bits_matches_reference() {
    assert_eq!(total_bits(0), 0);
    assert_eq!(total_bits(1), 1);
    assert_eq!(total_bits(0b1111), 4);
    assert_eq!(total_bits(0b1000_0000), 8);
}

#[test]
fn pow2_guard_rejects_non_pow2() {
    // 3 blocks => 12 px wide, not pow2.
    assert!(Pvrtc1Image::new(3, 2, false).is_none());
    // 2 blocks => 8 px, pow2.
    assert!(Pvrtc1Image::new(2, 2, false).is_some());
}

#[test]
fn swizzle_interleaves_low_bits() {
    assert_eq!(swizzle(1, 0, 4), 2);
    assert_eq!(swizzle(0, 1, 4), 1);
    assert_eq!(swizzle(3, 3, 2), 15);
    // Past the shorter side, the longer side's high bits sit above.
    assert_eq!(swizzle(5, 0, 1), 10);
}

#[test]
fn field_levels_and_quantizers() {
    assert_eq!(level(5, 31), 255);
    assert_eq!(level(5, 12), 99);
    assert_eq!(level(4, 15), 255);
    assert_eq!(level(3, 7), 255);
    assert_eq!(level(0, 8), 255);
    assert_eq!(level(0, 3), 102);
    assert_eq!(quant_floor(5, 100), 12);
    assert_eq!(quant_ceil(5, 100), 13);
    assert_eq!(quant_floor(5, 99), 12);
    assert_eq!(quant_ceil(5, 99), 12);
}

#[test]
fn raw_encode_checks_sizes() {
    let px = Color32 { r: 10, g: 200, b: 30, a: 255 };
    let blocks = vec![[px; 16]; 4];
    let mut out = vec![0u8; 32];
    assert!(encode_pvrtc1_raw(2, 2, false, false, &blocks, &mut out).is_some());
    assert!(out.iter().any(|&b| b != 0));
    // Wrong output size, too few blocks, or a side that is not a power of two.
    let mut short = vec![7u8; 31];
    assert!(encode_pvrtc1_raw(2, 2, false, false, &blocks, &mut short).is_none());
    assert_eq!(short, vec![7u8; 31]);
    assert!(encode_pvrtc1_raw(2, 2, false, false, &blocks[..3], &mut out).is_none());
    let mut out3 = vec![0u8; 48];
    assert!(encode_pvrtc1_raw(3, 2, false, false, &vec![[px; 16]; 6], &mut out3).is_none());
}

#[test]
fn same_color_everywhere_gives_same_blocks() {
    let px = Color32 { r: 128, g: 64, b: 32, a: 255 };
    let blocks = vec![[px; 16]; 4];
    let mut out = vec![0u8; 32];
    encode_pvrtc1_raw(2, 2, false, false, &blocks, &mut out).unwrap();
    for b in 1..4 {
        assert_eq!(out[b * 8..b * 8 + 8], out[0..8]);
    }
}
