use basisu::api::{AstcBlock, SourceFormat, TargetFormat};
use basisu::support::{is_format_supported, BuildConfig};
use basisu::tables::lazy::{embedded_bundle, install, TableFamily, TableRegistry, SOLUTION_LEN};
use basisu::tables::solution::Etc1ToSolution;

fn full() -> BuildConfig {
    BuildConfig {
        hdr: true,
        astc_ldr: true,
        xuastc: true,
        etc: true,
        bc: true,
        eac: true,
        astc: true,
        pvrtc1: true,
        pvrtc2: true,
        atc: true,
        fxt1: true,
        packed: true,
    }
}

fn reg_with_all() -> TableRegistry {
    let t = vec![Etc1ToSolution { m_lo: 0, m_hi: 0, m_err: 0 }; SOLUTION_LEN];
    let mut reg = TableRegistry::new();
    install(&mut reg, &embedded_bundle(TableFamily::Astc, &[t.clone(), t.clone()])).unwrap();
    install(&mut reg, &embedded_bundle(TableFamily::Bc, &[t.clone(), t.clone(), t])).unwrap();
    reg
}

#[test]
fn hdr_targets_need_hdr_sources() {
    let c = full();
    let reg = reg_with_all();
    assert!(is_format_supported(&c, &reg, TargetFormat::Bc6h, SourceFormat::UastcHdr4x4));
    assert!(!is_format_supported(&c, &reg, TargetFormat::Bc6h, SourceFormat::Etc1s));
    assert!(!is_format_supported(&c, &reg, TargetFormat::Bc7Rgba, SourceFormat::UastcHdr4x4));
    assert!(is_format_supported(&c, &reg, TargetFormat::AstcHdr6x6Rgba, SourceFormat::UastcHdr6x6));
}

#[test]
fn etc1s_needs_installed_tables() {
    let c = full();
    let empty = TableRegistry::new();
    assert!(!is_format_supported(&c, &empty, TargetFormat::Bc7Rgba, SourceFormat::Etc1s));
    assert!(is_format_supported(&c, &empty, TargetFormat::Etc1Rgb, SourceFormat::Etc1s));
    assert!(is_format_supported(&c, &empty, TargetFormat::Bc7Rgba, SourceFormat::UastcLdr));
    assert!(is_format_supported(&c, &reg_with_all(), TargetFormat::Bc7Rgba, SourceFormat::Etc1s));
}

#[test]
fn astc_passthrough_and_xuastc() {
    let c = full();
    let reg = reg_with_all();
    let b = AstcBlock::B8x8;
    assert!(is_format_supported(&c, &reg, TargetFormat::AstcLdr8x8Rgba, SourceFormat::AstcLdr(b)));
    assert!(!is_format_supported(&c, &reg, TargetFormat::AstcLdr6x6Rgba, SourceFormat::AstcLdr(b)));
    // XUASTC LDR reaches exactly the targets raw ASTC LDR of its size reaches.
    assert!(is_format_supported(&c, &reg, TargetFormat::AstcLdr8x8Rgba, SourceFormat::XuastcLdr(b)));
    assert!(is_format_supported(&c, &reg, TargetFormat::Bc7Rgba, SourceFormat::XuastcLdr(b)));
    assert!(!is_format_supported(&c, &reg, TargetFormat::AtcRgb, SourceFormat::XuastcLdr(b)));
    // UASTC LDR has no PVRTC2, ATC or FXT1 encoder.
    assert!(!is_format_supported(&c, &reg, TargetFormat::Fxt1Rgb, SourceFormat::UastcLdr));
    assert!(is_format_supported(&c, &reg, TargetFormat::Fxt1Rgb, SourceFormat::Etc1s));
}

#[test]
fn build_config_switches_off_codecs() {
    let reg = reg_with_all();
    let mut c = full();
    c.bc = false;
    assert!(!is_format_supported(&c, &reg, TargetFormat::Bc1Rgb, SourceFormat::UastcLdr));
    assert!(is_format_supported(&c, &reg, TargetFormat::Rgba32, SourceFormat::UastcLdr));
    c.hdr = false;
    assert!(!is_format_supported(&c, &reg, TargetFormat::Bc6h, SourceFormat::UastcHdr4x4));
    c.astc_ldr = false;
    // The pass-through target needs no encoder, but the source decoder is off.
    assert!(!is_format_supported(&c, &reg, TargetFormat::AstcLdr8x8Rgba, SourceFormat::AstcLdr(AstcBlock::B8x8)));
}
