use basisu::api::AstcBlock;
use basisu::ktx2::{BasisFormat, Ktx2Header};

const MAGIC: [u8; 12] = [0xAB, 0x4B, 0x54, 0x58, 0x20, 0x32, 0x30, 0xBB, 0x0D, 0x0A, 0x1A, 0x0A];

fn put32(d: &mut [u8], at: usize, v: u32) {
    d[at..at + 4].copy_from_slice(&v.to_le_bytes());
}

fn put64(d: &mut [u8], at: usize, v: u64) {
    d[at..at + 8].copy_from_slice(&v.to_le_bytes());
}

/// A one-level 8x8 file whose DFD (44 bytes at 104) names `model`, the
/// transfer function and block size, and `channel0` as its first channel.
fn file(vk: u32, model: u32, transfer: u32, bw: u32, bh: u32, channel0: u32) -> Vec<u8> {
    let mut d = vec![0u8; 148];
    d[0..12].copy_from_slice(&MAGIC);
    put32(&mut d, 12, vk);
    put32(&mut d, 16, 1);
    put32(&mut d, 20, 8);
    put32(&mut d, 24, 8);
    put32(&mut d, 28, 0);
    put32(&mut d, 32, 0);
    put32(&mut d, 36, 1);
    put32(&mut d, 40, 1);
    put32(&mut d, 44, 0);
    put32(&mut d, 48, 104);
    put32(&mut d, 52, 44);
    put32(&mut d, 56, 0);
    put32(&mut d, 60, 0);
    put64(&mut d, 64, 0);
    put64(&mut d, 72, 0);
    // Level 0.
    put64(&mut d, 80, 148);
    put64(&mut d, 88, 16);
    put64(&mut d, 96, 0);
    // DFD.
    put32(&mut d, 104 + 12, model | (transfer << 16));
    put32(&mut d, 104 + 16, (bw - 1) | ((bh - 1) << 8));
    put32(&mut d, 104 + 28, channel0 << 24);
    d
}

fn uastc_file() -> Vec<u8> {
    file(0, 166, 1, 4, 4, 0)
}

#[test]
fn parses_uastc_header() {
    let h = Ktx2Header::parse(&uastc_file()).expect("valid file");
    assert_eq!((h.width, h.height, h.level_count, h.face_count), (8, 8, 1, 1));
    assert!(matches!(h.format, BasisFormat::Uastc));
    assert!(h.is_uastc());
    assert!(!h.has_alpha);
    assert_eq!(h.levels.len(), 1);
    assert_eq!((h.levels[0].byte_offset, h.levels[0].byte_length), (148, 16));
    assert!(!h.has_anim_key);
    assert_eq!(h.format.block_dims(), (4, 4));
}

#[test]
fn uastc_rgba_channel_has_alpha() {
    let h = Ktx2Header::parse(&file(0, 166, 1, 4, 4, 3)).unwrap();
    assert!(h.has_alpha);
}

#[test]
fn parses_etc1s_alpha_from_dfd_length() {
    let mut d = file(0, 163, 2, 4, 4, 0);
    let h = Ktx2Header::parse(&d).unwrap();
    assert!(matches!(h.format, BasisFormat::Etc1s));
    assert!(!h.has_alpha);
    // A 60-byte DFD holds a second sample: the alpha slice.
    d.resize(164, 0);
    put32(&mut d, 52, 60);
    let h = Ktx2Header::parse(&d).unwrap();
    assert!(h.has_alpha);
}

#[test]
fn parses_astc_ldr_srgb() {
    // 166 is the sRGB twin of 165, ASTC 6x6 UNORM.
    let h = Ktx2Header::parse(&file(166, 162, 2, 6, 6, 0)).unwrap();
    assert!(matches!(h.format, BasisFormat::AstcLdr(AstcBlock::B6x6)));
    assert!(h.astc_is_srgb);
    assert_eq!(h.format.block_dims(), (6, 6));
    // The DFD's block size must match the vkFormat's.
    assert!(Ktx2Header::parse(&file(166, 162, 2, 4, 4, 0)).is_none());
}

#[test]
fn rejects_bad_headers() {
    let mut bad_magic = uastc_file();
    bad_magic[1] = 0;
    assert!(Ktx2Header::parse(&bad_magic).is_none());
    assert!(Ktx2Header::parse(&uastc_file()[..79]).is_none());

    let mut bad_type_size = uastc_file();
    put32(&mut bad_type_size, 16, 2);
    assert!(Ktx2Header::parse(&bad_type_size).is_none());

    let mut no_levels = uastc_file();
    put32(&mut no_levels, 40, 0);
    assert!(Ktx2Header::parse(&no_levels).is_none());

    let mut cube_not_square = uastc_file();
    put32(&mut cube_not_square, 36, 6);
    put32(&mut cube_not_square, 24, 4);
    assert!(Ktx2Header::parse(&cube_not_square).is_none());

    let mut bad_scheme = uastc_file();
    put32(&mut bad_scheme, 44, 3);
    assert!(Ktx2Header::parse(&bad_scheme).is_none());

    // Zstandard levels must record their uncompressed size.
    let mut zstd = uastc_file();
    put32(&mut zstd, 44, 2);
    assert!(Ktx2Header::parse(&zstd).is_none());
    put64(&mut zstd, 96, 64);
    assert!(Ktx2Header::parse(&zstd).is_some());

    let mut bad_dfd_len = uastc_file();
    put32(&mut bad_dfd_len, 52, 50);
    assert!(Ktx2Header::parse(&bad_dfd_len).is_none());

    assert!(Ktx2Header::parse(&file(0, 166, 3, 4, 4, 0)).is_none());
    assert!(Ktx2Header::parse(&file(0, 170, 1, 4, 4, 0)).is_none());
    // UASTC LDR carries no vkFormat.
    assert!(Ktx2Header::parse(&file(37, 166, 1, 4, 4, 0)).is_none());
}

#[test]
fn finds_anim_key() {
    let mut d = uastc_file();
    let key = b"KTXanimData\0";
    let mut kvd = Vec::new();
    kvd.extend_from_slice(&(key.len() as u32 + 4).to_le_bytes());
    kvd.extend_from_slice(key);
    kvd.extend_from_slice(&[1, 0, 0, 0]);
    let at = d.len() as u32;
    put32(&mut d, 56, at);
    put32(&mut d, 60, kvd.len() as u32);
    d.extend_from_slice(&kvd);
    let h = Ktx2Header::parse(&d).unwrap();
    assert!(h.has_anim_key);
    assert_eq!(h.kvd_byte_offset, at);
}
