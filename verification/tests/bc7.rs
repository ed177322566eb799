use basisu::fastenc::bc7f::{
    bc7_sse_1, bc7_sse_3, bc7_sse_4, bc7u_dequant, bc7u_dequant_p, bc7u_interp, calc_sse, dist3,
    encode_mode0_rgb_block, encode_mode1_rgb_block, encode_mode2_rgb_block,
    encode_mode3_rgb_block, encode_mode4_rgba_block, encode_mode5_rgba_block,
    encode_mode6_rgba_block, encode_mode7_rgba_block, from_4_p, from_5, from_5_p, from_6,
    from_6_p, from_7, from_7_p, pack_mode5_solid, to_5_int, to_5_int_p, to_6_int, to_6_int_p,
    to_7_int, to_7_int_p, unpack_bc7, Bc7Partitions,
};

const W2: [u32; 4] = [0, 21, 43, 64];
const W3: [u32; 8] = [0, 9, 18, 27, 37, 46, 55, 64];
const W4: [u32; 16] = [0, 4, 9, 13, 17, 21, 26, 30, 34, 38, 43, 47, 51, 55, 60, 64];

/// Partition tables shaped like the real ones: in every partition the second
/// subset starts at texel 8 (two subsets) or the subsets are texels 0..6,
/// 6..11 and 11..16 (three subsets), anchored at their first texel past 0.
fn parts() -> Bc7Partitions {
    let mut part2 = vec![0u8; 1024];
    let mut part3 = vec![0u8; 1024];
    for p in 0..64 {
        for i in 0..16 {
            part2[p * 16 + i] = u8::from(i >= 8);
            part3[p * 16 + i] = if i < 6 { 0 } else if i < 11 { 1 } else { 2 };
        }
    }
    Bc7Partitions::new(part2, part3, vec![8u8; 64], vec![6u8; 64], vec![11u8; 64]).unwrap()
}

fn widen(v: u32, bits: u32) -> u32 {
    let v = v << (8 - bits);
    v | (v >> bits)
}

fn interp(l: u32, h: u32, w: u32) -> u8 {
    ((l * (64 - w) + h * w + 32) >> 6) as u8
}

fn subset2(i: usize) -> usize {
    usize::from(i >= 8)
}

fn subset3(i: usize) -> usize {
    if i < 6 {
        0
    } else if i < 11 {
        1
    } else {
        2
    }
}

fn decode(block: &[u8; 16]) -> [[u8; 4]; 16] {
    let mut px = [[0u8; 4]; 16];
    assert!(unpack_bc7(block, &parts(), &mut px));
    px
}

#[test]
fn partition_tables_are_checked() {
    // An anchor outside its subset is refused.
    let part2 = vec![0u8; 1024];
    let part3 = vec![0u8; 1024];
    assert!(Bc7Partitions::new(part2, part3, vec![8u8; 64], vec![6u8; 64], vec![11u8; 64]).is_none());
    // Short tables are refused.
    assert!(Bc7Partitions::new(vec![0u8; 10], vec![0u8; 1024], vec![8u8; 64], vec![6u8; 64], vec![11u8; 64]).is_none());
}

#[test]
fn dequant_and_interp_values() {
    assert_eq!(bc7u_dequant(5, 5), 41);
    assert_eq!(bc7u_dequant(31, 5), 255);
    assert_eq!(bc7u_dequant_p(5, 1, 5), 44);
    assert_eq!(bc7u_dequant_p(127, 1, 7), 255);
    assert_eq!(bc7u_interp(0, 255, 1, 2), 84);
    assert_eq!(bc7u_interp(10, 200, 0, 3), 10);
    assert_eq!(bc7u_interp(10, 200, 7, 3), 200);
}

#[test]
fn mode7_roundtrip() {
    let (olr, olg, olb, ola) = ([3u32, 10], [5u32, 20], [7u32, 30], [31u32, 0]);
    let (ohr, ohg, ohb, oha) = ([28u32, 1], [2u32, 17], [9u32, 11], [0u32, 31]);
    let op = [1u32, 0, 0, 1];
    // Texel 0's index has its top bit set, so subset 0 is stored turned around.
    let w: [u8; 16] = [3, 1, 2, 0, 1, 2, 3, 0, 1, 1, 0, 3, 1, 2, 3, 1];
    let (mut lr, mut lg, mut lb, mut la) = (olr, olg, olb, ola);
    let (mut hr, mut hg, mut hb, mut ha) = (ohr, ohg, ohb, oha);
    let mut p = op;
    let mut block = [0u8; 16];
    encode_mode7_rgba_block(
        &mut block, &parts(), 5, &mut lr, &mut lg, &mut lb, &mut la, &mut hr, &mut hg, &mut hb,
        &mut ha, &mut p, &w,
    );
    assert_eq!(block[0], 0x80);
    // Subset 0 was turned around in the caller's arrays.
    assert_eq!((lr[0], hr[0], p[0], p[1]), (28, 3, 0, 1));
    assert_eq!((lr[1], hr[1], p[2], p[3]), (10, 1, 0, 1));
    let px = decode(&block);
    for i in 0..16 {
        let s = subset2(i);
        let lo = [olr[s], olg[s], olb[s], ola[s]];
        let hi = [ohr[s], ohg[s], ohb[s], oha[s]];
        for c in 0..4 {
            let l = widen(2 * lo[c] + op[2 * s], 6);
            let h = widen(2 * hi[c] + op[2 * s + 1], 6);
            assert_eq!(px[i][c], interp(l, h, W2[w[i] as usize]), "texel {i} channel {c}");
        }
    }
}

#[test]
fn mode1_roundtrip() {
    let (olr, olg, olb) = ([63u32, 0], [10u32, 40], [33u32, 7]);
    let (ohr, ohg, ohb) = ([0u32, 50], [60u32, 1], [2u32, 62]);
    // Texel 8 anchors subset 1 and has its top bit set.
    let w: [u8; 16] = [2, 7, 0, 5, 1, 3, 6, 4, 6, 1, 2, 7, 0, 3, 5, 4];
    let (mut lr, mut lg, mut lb, mut hr, mut hg, mut hb) = (olr, olg, olb, ohr, ohg, ohb);
    let mut block = [0u8; 16];
    encode_mode1_rgb_block(&mut block, &parts(), 33, &mut lr, &mut lg, &mut lb, &mut hr, &mut hg, &mut hb, 1, 0, &w);
    assert_eq!(block[0] & 3, 2);
    assert_eq!((lr[1], hr[1]), (50, 0));
    let px = decode(&block);
    let pb = [1u32, 0];
    for i in 0..16 {
        let s = subset2(i);
        let lo = [olr[s], olg[s], olb[s]];
        let hi = [ohr[s], ohg[s], ohb[s]];
        for c in 0..3 {
            let l = widen(2 * lo[c] + pb[s], 7);
            let h = widen(2 * hi[c] + pb[s], 7);
            assert_eq!(px[i][c], interp(l, h, W3[w[i] as usize]), "texel {i} channel {c}");
        }
        assert_eq!(px[i][3], 255);
    }
}

#[test]
fn mode0_roundtrip() {
    let (olr, olg, olb) = ([1u32, 15, 7], [2u32, 14, 8], [3u32, 13, 9]);
    let (ohr, ohg, ohb) = ([14u32, 0, 3], [12u32, 1, 4], [10u32, 2, 5]);
    let op = [0u32, 1, 1, 0, 1, 1];
    let w: [u8; 16] = [5, 1, 2, 3, 4, 5, 6, 7, 0, 1, 2, 4, 3, 2, 1, 0];
    let (mut lr, mut lg, mut lb, mut hr, mut hg, mut hb) = (olr, olg, olb, ohr, ohg, ohb);
    let mut p = op;
    let mut block = [0u8; 16];
    encode_mode0_rgb_block(&mut block, &parts(), 9, &mut lr, &mut lg, &mut lb, &mut hr, &mut hg, &mut hb, &mut p, &w);
    assert_eq!(block[0] & 1, 1);
    let px = decode(&block);
    for i in 0..16 {
        let s = subset3(i);
        let lo = [olr[s], olg[s], olb[s]];
        let hi = [ohr[s], ohg[s], ohb[s]];
        for c in 0..3 {
            let l = widen(2 * lo[c] + op[2 * s], 5);
            let h = widen(2 * hi[c] + op[2 * s + 1], 5);
            assert_eq!(px[i][c], interp(l, h, W3[w[i] as usize]), "texel {i} channel {c}");
        }
        assert_eq!(px[i][3], 255);
    }
}

#[test]
fn mode2_roundtrip() {
    let (olr, olg, olb) = ([0u32, 31, 16], [4u32, 8, 12], [30u32, 20, 10]);
    let (ohr, ohg, ohb) = ([31u32, 0, 1], [28u32, 24, 20], [1u32, 2, 3]);
    let w: [u8; 16] = [0, 1, 2, 3, 3, 2, 3, 1, 0, 2, 1, 2, 3, 0, 1, 2];
    let (mut lr, mut lg, mut lb, mut hr, mut hg, mut hb) = (olr, olg, olb, ohr, ohg, ohb);
    let mut block = [0u8; 16];
    encode_mode2_rgb_block(&mut block, &parts(), 63, &mut lr, &mut lg, &mut lb, &mut hr, &mut hg, &mut hb, &w);
    assert_eq!(block[0] & 7, 4);
    let px = decode(&block);
    for i in 0..16 {
        let s = subset3(i);
        let lo = [olr[s], olg[s], olb[s]];
        let hi = [ohr[s], ohg[s], ohb[s]];
        for c in 0..3 {
            assert_eq!(px[i][c], interp(widen(lo[c], 5), widen(hi[c], 5), W2[w[i] as usize]), "texel {i} channel {c}");
        }
    }
}

#[test]
fn mode3_roundtrip() {
    let (olr, olg, olb) = ([127u32, 64], [0u32, 99], [45u32, 3]);
    let (ohr, ohg, ohb) = ([1u32, 126], [127u32, 5], [80u32, 100]);
    let op = [1u32, 1, 0, 1];
    let w: [u8; 16] = [1, 3, 0, 2, 2, 1, 0, 3, 2, 0, 1, 3, 3, 2, 1, 0];
    let (mut lr, mut lg, mut lb, mut hr, mut hg, mut hb) = (olr, olg, olb, ohr, ohg, ohb);
    let mut p = op;
    let mut block = [0u8; 16];
    encode_mode3_rgb_block(&mut block, &parts(), 17, &mut lr, &mut lg, &mut lb, &mut hr, &mut hg, &mut hb, &mut p, &w);
    assert_eq!(block[0] & 15, 8);
    let px = decode(&block);
    for i in 0..16 {
        let s = subset2(i);
        let lo = [olr[s], olg[s], olb[s]];
        let hi = [ohr[s], ohg[s], ohb[s]];
        for c in 0..3 {
            let l = 2 * lo[c] + op[2 * s];
            let h = 2 * hi[c] + op[2 * s + 1];
            assert_eq!(px[i][c], interp(l, h, W2[w[i] as usize]), "texel {i} channel {c}");
        }
    }
}

#[test]
fn mode6_roundtrip() {
    let w: [u8; 16] = [9, 0, 15, 3, 4, 5, 6, 7, 8, 10, 11, 12, 13, 14, 1, 2];
    let mut block = [0u8; 16];
    encode_mode6_rgba_block(&mut block, 10, 20, 30, 127, 1, 100, 90, 80, 0, 0, &w);
    let px = decode(&block);
    let lo = [10u32, 20, 30, 127];
    let hi = [100u32, 90, 80, 0];
    for i in 0..16 {
        for c in 0..4 {
            assert_eq!(px[i][c], interp(2 * lo[c] + 1, 2 * hi[c], W4[w[i] as usize]));
        }
    }
}

#[test]
fn mode5_roundtrip_with_rotation() {
    let cw: [u8; 16] = [2, 0, 1, 3, 3, 2, 1, 0, 0, 1, 2, 3, 1, 1, 2, 2];
    let aw: [u8; 16] = [1, 3, 3, 2, 0, 1, 2, 3, 0, 0, 1, 1, 2, 2, 3, 3];
    let mut block = [0u8; 16];
    // Rotation 1 swaps alpha and red in the decoded texels.
    encode_mode5_rgba_block(&mut block, 12, 34, 56, 200, 120, 100, 80, 7, &cw, &aw, 1);
    let px = decode(&block);
    let lo = [12u32, 34, 56];
    let hi = [120u32, 100, 80];
    for i in 0..16 {
        let rgb: Vec<u8> = (0..3).map(|c| interp(widen(lo[c], 7), widen(hi[c], 7), W2[cw[i] as usize])).collect();
        let a = interp(200, 7, W2[aw[i] as usize]);
        assert_eq!(px[i], [a, rgb[1], rgb[2], rgb[0]], "texel {i}");
    }
}

#[test]
fn unpack_rejects_zero_mode_byte() {
    let block = [0u8; 16];
    let mut px = [[7u8; 4]; 16];
    assert!(!unpack_bc7(&block, &parts(), &mut px));
    assert_eq!(px, [[7u8; 4]; 16]);
}

#[test]
fn calc_sse_scores_decoded_block() {
    let w = [0u8; 16];
    let mut block = [0u8; 16];
    encode_mode6_rgba_block(&mut block, 10, 20, 30, 127, 1, 100, 90, 80, 0, 0, &w);
    // Every texel decodes to the low endpoint (21, 41, 61, 255).
    let exact = [[21u8, 41, 61, 255]; 16];
    assert_eq!(calc_sse(&block, &parts(), &exact), 0);
    let off = [[20u8, 43, 61, 250]; 16];
    assert_eq!(calc_sse(&block, &parts(), &off), 16 * (1 + 4 + 0 + 25));
    assert_eq!(calc_sse(&[0u8; 16], &parts(), &exact), u32::MAX);
}

#[test]
fn mode4_roundtrip_both_index_selections() {
    let lo = [3u32, 17, 30, 60];
    let hi = [28u32, 2, 9, 5];
    for flag in 0..2u32 {
        // weights0 drives color: 2 bits, or 3 bits when the flag is set.
        let (cmax, amax) = if flag == 1 { (8u8, 4u8) } else { (4u8, 8u8) };
        let mut cw = [0u8; 16];
        let mut aw = [0u8; 16];
        for i in 0..16 {
            cw[i] = ((i as u8) * 3 + 1) % cmax;
            aw[i] = ((i as u8) * 5 + 3) % amax;
        }
        let mut block = [0u8; 16];
        encode_mode4_rgba_block(&mut block, lo[0], lo[1], lo[2], lo[3], hi[0], hi[1], hi[2], hi[3], &cw, &aw, 0, flag);
        assert_eq!(block[0] & 0x1F, 0x10);
        assert_eq!(u32::from(block[0] >> 7), flag);
        let px = decode(&block);
        let (cwt, awt): (&[u32], &[u32]) = if flag == 1 { (&W3, &W2) } else { (&W2, &W3) };
        for i in 0..16 {
            for c in 0..3 {
                assert_eq!(px[i][c], interp(widen(lo[c], 5), widen(hi[c], 5), cwt[cw[i] as usize]), "flag {flag} texel {i} channel {c}");
            }
            assert_eq!(px[i][3], interp(widen(lo[3], 6), widen(hi[3], 6), awt[aw[i] as usize]), "flag {flag} texel {i} alpha");
        }
    }
}

#[test]
fn mode5_solid_color() {
    let mut opt = [[0u8; 2]; 256];
    for v in 0..256 {
        opt[v] = [(v >> 1) as u8, (v >> 1) as u8];
    }
    let mut block = [0u8; 16];
    pack_mode5_solid(&mut block, [100, 40, 254, 77], &opt);
    assert_eq!(block[0], 0x20);
    assert_eq!(&block[9..12], &[0xAA, 0xAA, 0xAA]);
    assert_eq!(&block[12..16], &[0, 0, 0, 0]);
    let px = decode(&block);
    for i in 0..16 {
        assert_eq!(px[i], [100, 40, 255, 77]);
    }
}

#[test]
fn endpoint_quantizers() {
    assert_eq!((from_7(127), from_7(64)), (255, 129));
    assert_eq!(from_7_p(100, 1), 201);
    assert_eq!((to_7_int_p(255, 0), to_7_int_p(100, 1)), (127, 50));
    assert_eq!((to_7_int(255), to_7_int(128)), (127, 64));
    assert_eq!((to_5_int(255), to_5_int(128)), (31, 16));
    assert_eq!(to_6_int(128), 32);
    assert_eq!((to_6_int_p(128, 0), to_6_int_p(128, 1)), (32, 31));
    assert_eq!((to_5_int_p(128, 0), to_5_int_p(128, 1)), (16, 15));
    assert_eq!(from_6_p(10, 1), 42);
    assert_eq!(from_4_p(3, 1), 57);
    assert_eq!(from_5(16), 132);
    assert_eq!(from_5_p(5, 1), 44);
    assert_eq!(from_6(63), 255);
}

#[test]
fn squared_errors() {
    assert_eq!(bc7_sse_1(100, 50, 100, 32), 0);
    assert_eq!(bc7_sse_1(10, 0, 64, 64), 2916);
    assert_eq!(bc7_sse_3(10, 10, 10, 0, 0, 0, 64, 64, 64, 64), 3 * 2916);
    assert_eq!(bc7_sse_4(10, 10, 10, 10, 0, 0, 0, 0, 64, 64, 64, 0, 64), 3 * 2916 + 100);
    assert_eq!(dist3(0, 0, 0, 3, 4, 12), 169);
}
