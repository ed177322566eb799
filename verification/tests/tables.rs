use basisu::api::{SourceFormat, TargetFormat};
use basisu::tables::bc1::{build, Bc1MatchEntry, Bc1MatchTables};
use basisu::tables::dxt5a::Etc1GToDxt5aConversion;
use basisu::tables::lazy::{
    astc_tables, bc7_m5_color, bundle_family, decode_bundle, dxt_tables, embedded_bundle,
    install, installed, ready_for, TableFamily, TableRegistry, TablesError, HEADER_BYTES,
    SOLUTION_LEN, TABLE_BYTES,
};
use basisu::tables::solution::{as_bytes, Etc1ToSolution};

fn table(seed: u32) -> Vec<Etc1ToSolution> {
    (0..SOLUTION_LEN as u32)
        .map(|k| Etc1ToSolution {
            m_lo: ((k + seed) % 251) as u8,
            m_hi: ((k * 7 + seed) % 256) as u8,
            m_err: ((k * 31 + seed) % 65536) as u16,
        })
        .collect()
}

fn astc_bundle() -> Vec<u8> {
    embedded_bundle(TableFamily::Astc, &[table(1), table(2)])
}

fn bc_bundle() -> Vec<u8> {
    embedded_bundle(TableFamily::Bc, &[table(3), table(4), table(5)])
}

#[test]
fn family_facts() {
    assert_eq!(TableFamily::Astc.id(), 0);
    assert_eq!(TableFamily::from_id(1), Some(TableFamily::Bc));
    assert_eq!(TableFamily::from_id(2), None);
    assert_eq!(TableFamily::Astc.table_count(), 2);
    assert_eq!(TableFamily::Bc.table_count(), 3);
    assert_eq!(TableFamily::Bc.bundle_len(), HEADER_BYTES + 3 * TABLE_BYTES);
    assert_eq!(TableFamily::for_target(TargetFormat::Astc4x4Rgba), Some(TableFamily::Astc));
    assert_eq!(TableFamily::for_target(TargetFormat::Bc7Rgba), Some(TableFamily::Bc));
    assert_eq!(TableFamily::for_target(TargetFormat::Etc1Rgb), None);
}

#[test]
fn bundle_roundtrip() {
    let bytes = astc_bundle();
    assert_eq!(bytes.len(), TableFamily::Astc.bundle_len());
    assert_eq!(&bytes[..6], &[0x42, 0x53, 0x55, 0x31, 0, 2]);
    let (family, tables) = decode_bundle(&bytes).unwrap();
    assert_eq!(family, TableFamily::Astc);
    assert_eq!(tables, vec![table(1), table(2)]);
    assert_eq!(bundle_family(&bc_bundle()), Ok(TableFamily::Bc));
}

#[test]
fn bundle_errors() {
    let mut bad_magic = astc_bundle();
    bad_magic[0] = b'X';
    assert_eq!(bundle_family(&bad_magic), Err(TablesError::BadMagic));
    assert_eq!(bundle_family(&[0x42, 0x53]), Err(TablesError::BadMagic));
    let mut unknown = astc_bundle();
    unknown[4] = 7;
    assert_eq!(bundle_family(&unknown), Err(TablesError::UnknownFamily(7)));
    let mut count = astc_bundle();
    count[5] = 3;
    assert_eq!(
        bundle_family(&count),
        Err(TablesError::BadTableCount { family: TableFamily::Astc, count: 3 })
    );
    let mut short = astc_bundle();
    short.pop();
    assert_eq!(
        decode_bundle(&short).map(|(f, _)| f),
        Err(TablesError::BadLength { expected: HEADER_BYTES + 2 * TABLE_BYTES, actual: HEADER_BYTES + 2 * TABLE_BYTES - 1 })
    );
}

#[test]
fn install_makes_tables_readable() {
    let mut reg = TableRegistry::new();
    assert!(!installed(&reg, TableFamily::Astc));
    assert!(!ready_for(&reg, TargetFormat::Astc4x4Rgba, SourceFormat::Etc1s));
    // Targets that need no tables, and non-ETC1S sources, are always ready.
    assert!(ready_for(&reg, TargetFormat::Etc1Rgb, SourceFormat::Etc1s));
    assert!(ready_for(&reg, TargetFormat::Astc4x4Rgba, SourceFormat::UastcLdr));
    assert_eq!(install(&mut reg, &astc_bundle()), Ok(TableFamily::Astc));
    assert!(installed(&reg, TableFamily::Astc));
    assert!(!installed(&reg, TableFamily::Bc));
    assert!(ready_for(&reg, TargetFormat::Astc4x4Rgba, SourceFormat::Etc1s));
    let (t47, t255) = astc_tables(&reg);
    assert_eq!(t47, &table(1)[..]);
    assert_eq!(t255, &table(2)[..]);
    assert_eq!(install(&mut reg, &bc_bundle()), Ok(TableFamily::Bc));
    assert_eq!(bc7_m5_color(&reg), &table(3)[..]);
    let (d5, d6) = dxt_tables(&reg);
    assert_eq!((d5, d6), (&table(4)[..], &table(5)[..]));
}

#[test]
fn install_keeps_first_and_refusal_changes_nothing() {
    let mut reg = TableRegistry::new();
    install(&mut reg, &astc_bundle()).unwrap();
    let other = embedded_bundle(TableFamily::Astc, &[table(9), table(10)]);
    assert_eq!(install(&mut reg, &other), Ok(TableFamily::Astc));
    assert_eq!(astc_tables(&reg).0, &table(1)[..]);
    let mut bad = bc_bundle();
    bad[5] = 2;
    assert!(install(&mut reg, &bad).is_err());
    assert!(!installed(&reg, TableFamily::Bc));
}

#[test]
fn solution_bytes_are_little_endian() {
    let t = [
        Etc1ToSolution { m_lo: 1, m_hi: 2, m_err: 0x0304 },
        Etc1ToSolution { m_lo: 0xFF, m_hi: 0, m_err: 0xABCD },
    ];
    assert_eq!(as_bytes(&t), vec![1, 2, 0x04, 0x03, 0xFF, 0, 0xCD, 0xAB]);
}

#[test]
fn bc1_tables_pick_best_pairs() {
    let t: Bc1MatchTables = build();
    assert_eq!(t.match5_equals_0[255], Bc1MatchEntry { m_hi: 31, m_lo: 0 });
    assert_eq!(t.match5_equals_0[0], Bc1MatchEntry { m_hi: 0, m_lo: 0 });
    assert_eq!(t.match6_equals_0[128], Bc1MatchEntry { m_hi: 32, m_lo: 0 });
    assert_eq!(t.match5_equals_1[0], Bc1MatchEntry { m_hi: 0, m_lo: 0 });
    let bytes = Bc1MatchTables::table_bytes(&t.match5_equals_0);
    assert_eq!(bytes.len(), 512);
    assert_eq!(&bytes[510..], &[31, 0]);
}

#[test]
fn dxt5a_selector_translation() {
    let e = Etc1GToDxt5aConversion { m_lo: 0, m_hi: 255, m_trans: 0b111_010_001_000 };
    assert_eq!((e.translate(0), e.translate(1), e.translate(2), e.translate(3)), (0, 1, 2, 7));
}
