//! The ETC1S single-color solution tables behind the ASTC and BC targets: five
//! tables of 15 360 four-byte entries. A consumer downloads a family's bundle
//! and installs it once into a [`TableRegistry`]; every reader takes the table
//! from the slot filled there. Until a family is installed its targets are
//! unsupported for ETC1S sources, so a caller falls back instead of failing.
//!
//! Bundle layout (little-endian): `b"BSU1"`, family id, table count, two
//! reserved bytes, then the tables in family order, each entry `m_lo`, `m_hi`,
//! `m_err` (u16 LE). The families and their table order are part of the
//! format: ASTC = `[0, 47]` range, `[0, 255]` range; BC = BC7 mode-5 color,
//! DXT 5-bit, DXT 6-bit.

use super::solution::{solution_bytes, Etc1ToSolution};
use crate::api::{SourceFormat, TargetFormat};
use vstd::prelude::*;

verus! {

/// Entries per solution table.
pub const SOLUTION_LEN: usize = 15360;
/// Bytes per serialized entry.
pub const ENTRY_BYTES: usize = 4;
/// Bytes per serialized table.
pub const TABLE_BYTES: usize = 61440;
/// Bytes of the bundle header.
pub const HEADER_BYTES: usize = 8;

/// A family of tables, downloaded and installed together: the set one GPU
/// target needs.
#[derive(Clone, Copy, PartialEq, Eq, Debug, Structural)]
pub enum TableFamily {
    /// ETC1S to ASTC 4x4: the `[0, 47]` and `[0, 255]` range tables.
    Astc,
    /// ETC1S to BC1/BC3/BC7: BC7 mode-5 color, DXT 5-bit and DXT 6-bit.
    Bc,
}

/// The family's id in a bundle header.
pub open spec fn family_id(f: TableFamily) -> u8 {
    match f {
        TableFamily::Astc => 0,
        TableFamily::Bc => 1,
    }
}

/// The family with a bundle-header id.
pub open spec fn family_of_id(id: u8) -> Option<TableFamily> {
    if id == 0 { Some(TableFamily::Astc) } else if id == 1 { Some(TableFamily::Bc) } else { None }
}

/// Tables in a family.
pub open spec fn family_table_count(f: TableFamily) -> nat {
    match f {
        TableFamily::Astc => 2,
        TableFamily::Bc => 3,
    }
}

/// Exact byte length of a family's bundle.
pub open spec fn family_bundle_len(f: TableFamily) -> nat {
    (HEADER_BYTES + family_table_count(f) * TABLE_BYTES) as nat
}

/// The registry slot of a family's first table (slots 0..2 ASTC, 2..5 BC).
pub open spec fn family_slot_base(f: TableFamily) -> int {
    match f {
        TableFamily::Astc => 0,
        TableFamily::Bc => 2,
    }
}

/// The family an ETC1S transcode to `target` reads from, if any.
pub open spec fn family_for_target(target: TargetFormat) -> Option<TableFamily> {
    match target {
        TargetFormat::Astc4x4Rgba => Some(TableFamily::Astc),
        TargetFormat::Bc1Rgb | TargetFormat::Bc3Rgba | TargetFormat::Bc7Rgba => Some(TableFamily::Bc),
        _ => None,
    }
}

impl TableFamily {
    /// The family's id in a bundle header.
    pub fn id(self) -> (r: u8)
        ensures
            r == family_id(self),
    {
        match self {
            TableFamily::Astc => 0,
            TableFamily::Bc => 1,
        }
    }

    /// The family with the given bundle-header id.
    pub fn from_id(id: u8) -> (r: Option<Self>)
        ensures
            r == family_of_id(id),
    {
        match id {
            0 => Some(TableFamily::Astc),
            1 => Some(TableFamily::Bc),
            _ => None,
        }
    }

    /// Tables in the family, in bundle order.
    pub fn table_count(self) -> (r: usize)
        ensures
            r == family_table_count(self),
    {
        match self {
            TableFamily::Astc => 2,
            TableFamily::Bc => 3,
        }
    }

    /// Exact byte length of the family's bundle.
    pub fn bundle_len(self) -> (r: usize)
        ensures
            r == family_bundle_len(self),
    {
        HEADER_BYTES + self.table_count() * TABLE_BYTES
    }

    /// The family an ETC1S transcode to `target` reads from, if any.
    pub fn for_target(target: TargetFormat) -> (r: Option<Self>)
        ensures
            r == family_for_target(target),
    {
        match target {
            TargetFormat::Astc4x4Rgba => Some(TableFamily::Astc),
            TargetFormat::Bc1Rgb | TargetFormat::Bc3Rgba | TargetFormat::Bc7Rgba => Some(TableFamily::Bc),
            _ => None,
        }
    }
}

/// Why a bundle was refused.
#[derive(Clone, Copy, PartialEq, Eq, Debug, Structural)]
pub enum TablesError {
    /// Not a table bundle (wrong magic).
    BadMagic,
    /// A family id this build does not know.
    UnknownFamily(u8),
    /// The table count does not match the family.
    BadTableCount { family: TableFamily, count: u8 },
    /// The bundle is not exactly the family's length.
    BadLength { expected: usize, actual: usize },
}

/// The bundle magic `b"BSU1"`.
pub open spec fn bundle_magic() -> Seq<u8> {
    seq![0x42u8, 0x53u8, 0x55u8, 0x31u8]
}

/// What [`bundle_family`] answers for a byte string.
pub open spec fn bundle_family_spec(b: Seq<u8>) -> Result<TableFamily, TablesError> {
    if b.len() < HEADER_BYTES || b.take(4) != bundle_magic() {
        Err(TablesError::BadMagic)
    } else {
        match family_of_id(b[4]) {
            None => Err(TablesError::UnknownFamily(b[4])),
            Some(f) => if b[5] != family_table_count(f) {
                Err(TablesError::BadTableCount { family: f, count: b[5] })
            } else if b.len() != family_bundle_len(f) {
                Err(TablesError::BadLength { expected: family_bundle_len(f) as usize, actual: b.len() as usize })
            } else {
                Ok(f)
            },
        }
    }
}

/// Entry `k` of the table serialized at byte offset `start`.
pub open spec fn entry_at(b: Seq<u8>, start: int, k: int) -> Etc1ToSolution {
    Etc1ToSolution {
        m_lo: b[start + 4 * k],
        m_hi: b[start + 4 * k + 1],
        m_err: (b[start + 4 * k + 2] + 256 * b[start + 4 * k + 3]) as u16,
    }
}

/// Table `t` of a bundle.
pub open spec fn bundle_table(b: Seq<u8>, t: int) -> Seq<Etc1ToSolution> {
    Seq::new(SOLUTION_LEN as nat, |k: int| entry_at(b, HEADER_BYTES + t * TABLE_BYTES, k))
}

/// Parse the header of a bundle without installing it.
pub fn bundle_family(bytes: &[u8]) -> (r: Result<TableFamily, TablesError>)
    ensures
        r == bundle_family_spec(bytes@),
{
    if bytes.len() < HEADER_BYTES || !(bytes[0] == 0x42 && bytes[1] == 0x53 && bytes[2] == 0x55 && bytes[3]
        == 0x31) {
        proof {
            if bytes@.len() >= HEADER_BYTES && bytes@.take(4) == bundle_magic() {
                assert(bytes@.take(4)[0] == bytes@[0]);
                assert(bytes@.take(4)[1] == bytes@[1]);
                assert(bytes@.take(4)[2] == bytes@[2]);
                assert(bytes@.take(4)[3] == bytes@[3]);
            }
        }
        return Err(TablesError::BadMagic);
    }
    proof {
        assert(bytes@.take(4) =~= bundle_magic());
    }
    let family = match TableFamily::from_id(bytes[4]) {
        Some(f) => f,
        None => return Err(TablesError::UnknownFamily(bytes[4])),
    };
    if bytes[5] as usize != family.table_count() {
        return Err(TablesError::BadTableCount { family, count: bytes[5] });
    }
    if bytes.len() != family.bundle_len() {
        return Err(TablesError::BadLength { expected: family.bundle_len(), actual: bytes.len() });
    }
    Ok(family)
}

/// Decode one serialized table of `SOLUTION_LEN` entries at `start`.
fn parse_table(bytes: &[u8], start: usize) -> (t: Vec<Etc1ToSolution>)
    requires
        start + TABLE_BYTES <= bytes.len(),
    ensures
        t@ == Seq::new(SOLUTION_LEN as nat, |k: int| entry_at(bytes@, start as int, k)),
{
    let mut t: Vec<Etc1ToSolution> = Vec::with_capacity(SOLUTION_LEN);
    let mut k: usize = 0;
    while k < SOLUTION_LEN
        invariant
            k <= SOLUTION_LEN,
            start + TABLE_BYTES <= bytes.len(),
            t@ == Seq::new(k as nat, |j: int| entry_at(bytes@, start as int, j)),
        decreases SOLUTION_LEN - k,
    {
        let o = start + 4 * k;
        let e = Etc1ToSolution {
            m_lo: bytes[o],
            m_hi: bytes[o + 1],
            m_err: (bytes[o + 2] as u16) + 256 * (bytes[o + 3] as u16),
        };
        t.push(e);
        proof {
            assert(t@ =~= Seq::new((k + 1) as nat, |j: int| entry_at(bytes@, start as int, j)));
        }
        k = k + 1;
    }
    t
}

/// Decode a bundle into its tables without installing anything: the parity
/// check a consumer runs against a reference copy of the tables.
pub fn decode_bundle(bytes: &[u8]) -> (r: Result<(TableFamily, Vec<Vec<Etc1ToSolution>>), TablesError>)
    ensures
        match (r, bundle_family_spec(bytes@)) {
            (Err(e), Err(e2)) => e == e2,
            (Ok((f, tables)), Ok(f2)) => {
                &&& f == f2
                &&& tables@.len() == family_table_count(f)
                &&& forall|t: int| 0 <= t < tables@.len() ==> (#[trigger] tables@[t])@ == bundle_table(bytes@, t)
            },
            _ => false,
        },
{
    let family = match bundle_family(bytes) {
        Ok(f) => f,
        Err(e) => return Err(e),
    };
    let count = family.table_count();
    let mut tables: Vec<Vec<Etc1ToSolution>> = Vec::new();
    let mut index: usize = 0;
    while index < count
        invariant
            bundle_family_spec(bytes@) == Ok::<TableFamily, TablesError>(family),
            count == family_table_count(family),
            index <= count,
            tables@.len() == index,
            forall|t: int| 0 <= t < index ==> (#[trigger] tables@[t])@ == bundle_table(bytes@, t),
        decreases count - index,
    {
        let start = HEADER_BYTES + index * TABLE_BYTES;
        let t = parse_table(bytes, start);
        tables.push(t);
        index = index + 1;
    }
    Ok((family, tables))
}

/// The serialized bundle of a family's tables.
pub open spec fn bundle_bytes(f: TableFamily, tables: Seq<Seq<Etc1ToSolution>>) -> Seq<u8> {
    bundle_magic() + seq![family_id(f), family_table_count(f) as u8, 0u8, 0u8]
        + Seq::new((family_table_count(f) * TABLE_BYTES) as nat, |i: int|
            solution_bytes(tables[i / TABLE_BYTES as int][(i % TABLE_BYTES as int) / 4])[i % 4])
}

/// Whether `tables` has the family's shape: one full table per slot.
pub open spec fn tables_fit(f: TableFamily, tables: Seq<Seq<Etc1ToSolution>>) -> bool {
    &&& tables.len() == family_table_count(f)
    &&& forall|t: int| 0 <= t < tables.len() ==> (#[trigger] tables[t]).len() == SOLUTION_LEN
}

/// Serialize a family's tables as the bundle [`install`] accepts: how a
/// consumer produces the files it ships next to its binary.
pub fn embedded_bundle(family: TableFamily, tables: &[Vec<Etc1ToSolution>]) -> (out: Vec<u8>)
    requires
        tables_fit(family, tables@.map(|i: int, v: Vec<Etc1ToSolution>| v@)),
    ensures
        out@ == bundle_bytes(family, tables@.map(|i: int, v: Vec<Etc1ToSolution>| v@)),
{
    let ghost ts = tables@.map(|i: int, v: Vec<Etc1ToSolution>| v@);
    let mut out: Vec<u8> = Vec::with_capacity(family.bundle_len());
    out.push(0x42);
    out.push(0x53);
    out.push(0x55);
    out.push(0x31);
    out.push(family.id());
    out.push(family.table_count() as u8);
    out.push(0);
    out.push(0);
    let ghost body = Seq::new((family_table_count(family) * TABLE_BYTES) as nat, |i: int|
        solution_bytes(ts[i / TABLE_BYTES as int][(i % TABLE_BYTES as int) / 4])[i % 4]);
    proof {
        assert(out@ =~= bundle_magic() + seq![family_id(family), family_table_count(family) as u8, 0u8, 0u8]);
    }
    let ghost head = out@;
    let count = family.table_count();
    let mut t: usize = 0;
    while t < count
        invariant
            ts == tables@.map(|i: int, v: Vec<Etc1ToSolution>| v@),
            tables_fit(family, ts),
            count == family_table_count(family),
            body == Seq::new((family_table_count(family) * TABLE_BYTES) as nat, |i: int|
                solution_bytes(ts[i / TABLE_BYTES as int][(i % TABLE_BYTES as int) / 4])[i % 4]),
            head.len() == HEADER_BYTES,
            t <= count,
            out@.len() == HEADER_BYTES + t * TABLE_BYTES,
            out@.take(HEADER_BYTES as int) == head,
            forall|i: int| 0 <= i < t * TABLE_BYTES ==> out@[HEADER_BYTES + i] == #[trigger] body[i],
        decreases count - t,
    {
        let table = &tables[t];
        proof {
            assert(table@ == ts[t as int]);
        }
        let mut k: usize = 0;
        while k < SOLUTION_LEN
            invariant
                ts == tables@.map(|i: int, v: Vec<Etc1ToSolution>| v@),
                tables_fit(family, ts),
                count == family_table_count(family),
                body == Seq::new((family_table_count(family) * TABLE_BYTES) as nat, |i: int|
                solution_bytes(ts[i / TABLE_BYTES as int][(i % TABLE_BYTES as int) / 4])[i % 4]),
                t < count,
                table@ == ts[t as int],
                table@.len() == SOLUTION_LEN,
                head.len() == HEADER_BYTES,
                k <= SOLUTION_LEN,
                out@.len() == HEADER_BYTES + t * TABLE_BYTES + 4 * k,
                out@.take(HEADER_BYTES as int) == head,
                forall|i: int| 0 <= i < t * TABLE_BYTES + 4 * k ==> out@[HEADER_BYTES + i] == #[trigger] body[i],
            decreases SOLUTION_LEN - k,
        {
            let e = table[k];
            let ghost before = out@;
            out.push(e.m_lo);
            out.push(e.m_hi);
            out.push((e.m_err % 0x100) as u8);
            out.push((e.m_err / 0x100) as u8);
            proof {
                assert(out@.take(HEADER_BYTES as int) =~= before.take(HEADER_BYTES as int));
                assert forall|i: int| 0 <= i < t * TABLE_BYTES + 4 * (k + 1) implies out@[HEADER_BYTES + i] == #[trigger] body[i] by {
                    if i >= t * TABLE_BYTES + 4 * k {
                        let r = i - t * TABLE_BYTES;
                        assert(i / (TABLE_BYTES as int) == t) by (nonlinear_arith)
                            requires
                                i == t * 61440 + r,
                                4 * k <= r < 4 * k + 4,
                                k < 15360,
                        ;
                        assert(i % (TABLE_BYTES as int) == r) by (nonlinear_arith)
                            requires
                                i == t * 61440 + r,
                                0 <= r < 61440,
                        ;
                        assert(r / 4 == k);
                        assert(i % 4 == r % 4) by (nonlinear_arith)
                            requires
                                i == t * 61440 + r,
                        ;
                    } else {
                        assert(out@[HEADER_BYTES + i] == before[HEADER_BYTES + i]);
                    }
                }
            }
            k = k + 1;
        }
        proof {
            assert((t + 1) * TABLE_BYTES == t * TABLE_BYTES + 4 * SOLUTION_LEN) by (nonlinear_arith);
        }
        t = t + 1;
    }
    proof {
        assert(out@ =~= head + body) by {
            assert forall|i: int| 0 <= i < out@.len() implies out@[i] == (head + body)[i] by {
                if i < HEADER_BYTES {
                    assert(out@.take(HEADER_BYTES as int)[i] == out@[i]);
                } else {
                    assert(out@[HEADER_BYTES + (i - HEADER_BYTES)] == body[i - HEADER_BYTES]);
                }
            }
        }
    }
    out
}

/// Serializing a family's tables and reading the bundle back gives the
/// family and the same tables: the bundle a consumer ships is the bundle
/// [`install`] and [`decode_bundle`] accept.
pub proof fn lemma_bundle_roundtrip(f: TableFamily, ts: Seq<Seq<Etc1ToSolution>>)
    requires
        tables_fit(f, ts),
    ensures
        bundle_family_spec(bundle_bytes(f, ts)) == Ok::<TableFamily, TablesError>(f),
        forall|t: int| 0 <= t < family_table_count(f) ==> #[trigger] bundle_table(bundle_bytes(f, ts), t) == ts[t],
{
    let b = bundle_bytes(f, ts);
    let head = bundle_magic() + seq![family_id(f), family_table_count(f) as u8, 0u8, 0u8];
    assert(b.take(4) =~= bundle_magic());
    assert(b[4] == family_id(f));
    assert(b[5] == family_table_count(f) as u8);
    assert forall|t: int| 0 <= t < family_table_count(f) implies #[trigger] bundle_table(b, t) == ts[t] by {
        assert forall|k: int| 0 <= k < SOLUTION_LEN implies #[trigger] bundle_table(b, t)[k] == ts[t][k] by {
            let base = t * 61440 + 4 * k;
            assert(0 <= base && base + 3 < family_table_count(f) * 61440) by (nonlinear_arith)
                requires
                    base == t * 61440 + 4 * k,
                    0 <= t < family_table_count(f),
                    0 <= k < 15360,
            ;
            assert forall|j: int| 0 <= j < 4 implies #[trigger] b[8 + base + j] == solution_bytes(ts[t][k])[j] by {
                let i = base + j;
                assert(i / 61440 == t) by (nonlinear_arith)
                    requires
                        i == t * 61440 + 4 * k + j,
                        0 <= k < 15360,
                        0 <= j < 4,
                ;
                assert(i % 61440 == 4 * k + j) by (nonlinear_arith)
                    requires
                        i == t * 61440 + 4 * k + j,
                        0 <= k < 15360,
                        0 <= j < 4,
                ;
                assert(i % 4 == j) by (nonlinear_arith)
                    requires
                        i == t * 61440 + 4 * k + j,
                        0 <= j < 4,
                ;
                assert((4 * k + j) / 4 == k);
            }
            let e = ts[t][k];
            assert(b[8 + base] == e.m_lo);
            assert(b[8 + base + 1] == e.m_hi);
            assert(b[8 + base + 2] == (e.m_err % 0x100) as u8);
            assert(b[8 + base + 3] == (e.m_err / 0x100) as u8);
        }
        assert(bundle_table(b, t) =~= ts[t]);
    }
}

/// A registry of installed solution tables: five slots (ASTC `[0, 47]`,
/// ASTC `[0, 255]`, BC7 mode-5 color, DXT 5-bit, DXT 6-bit), each empty until
/// its family is installed.
pub struct TableRegistry {
    slots: [Option<Vec<Etc1ToSolution>>; 5],
}

impl TableRegistry {
    /// The slots' contents.
    pub closed spec fn slots_view(&self) -> Seq<Option<Seq<Etc1ToSolution>>> {
        self.slots@.map(|i: int, o: Option<Vec<Etc1ToSolution>>|
            match o {
                Some(v) => Some(v@),
                None => None,
            })
    }

    /// A registry with every slot empty.
    pub fn new() -> (r: TableRegistry)
        ensures
            r.slots_view() == Seq::new(5, |i: int| None::<Seq<Etc1ToSolution>>),
    {
        let r = TableRegistry { slots: [None, None, None, None, None] };
        proof {
            assert(r.slots_view() =~= Seq::new(5, |i: int| None::<Seq<Etc1ToSolution>>));
        }
        r
    }
}

/// Whether every table of `f` is in the registry.
pub open spec fn family_installed(v: Seq<Option<Seq<Etc1ToSolution>>>, f: TableFamily) -> bool {
    forall|t: int| 0 <= t < family_table_count(f) ==> (#[trigger] v[family_slot_base(f) + t]) is Some
}

/// The registry after installing `bytes`: a valid bundle fills its family's
/// empty slots with its tables and keeps filled ones; a refused bundle
/// changes nothing.
pub open spec fn install_spec(v: Seq<Option<Seq<Etc1ToSolution>>>, bytes: Seq<u8>) -> Seq<Option<Seq<Etc1ToSolution>>> {
    match bundle_family_spec(bytes) {
        Ok(f) => Seq::new(v.len(), |s: int|
            if family_slot_base(f) <= s < family_slot_base(f) + family_table_count(f) && v[s] is None {
                Some(bundle_table(bytes, s - family_slot_base(f)))
            } else {
                v[s]
            }),
        Err(_) => v,
    }
}

/// Whether an ETC1S transcode to `target` has its tables; targets that read
/// none, and every other source, are unaffected.
pub open spec fn ready_spec(v: Seq<Option<Seq<Etc1ToSolution>>>, target: TargetFormat, source: SourceFormat) -> bool {
    match (source, family_for_target(target)) {
        (SourceFormat::Etc1s, Some(f)) => family_installed(v, f),
        _ => true,
    }
}

/// Install a family's bundle. Idempotent: a family installed twice keeps the
/// first tables.
pub fn install(reg: &mut TableRegistry, bytes: &[u8]) -> (r: Result<TableFamily, TablesError>)
    ensures
        old(reg).slots_view().len() == 5,
        r == bundle_family_spec(bytes@),
        final(reg).slots_view() == install_spec(old(reg).slots_view(), bytes@),
{
    let family = match bundle_family(bytes) {
        Ok(f) => f,
        Err(e) => return Err(e),
    };
    let base: usize = match family {
        TableFamily::Astc => 0,
        TableFamily::Bc => 2,
    };
    let count = family.table_count();
    let ghost v0 = reg.slots_view();
    let mut index: usize = 0;
    while index < count
        invariant
            bundle_family_spec(bytes@) == Ok::<TableFamily, TablesError>(family),
            base == family_slot_base(family),
            count == family_table_count(family),
            index <= count,
            v0.len() == 5,
            reg.slots_view().len() == 5,
            forall|s: int| 0 <= s < 5 ==> #[trigger] reg.slots_view()[s] == (
                if base <= s < base + index && v0[s] is None {
                    Some(bundle_table(bytes@, s - base))
                } else {
                    v0[s]
                }),
        decreases count - index,
    {
        let slot = base + index;
        if reg.slots[slot].is_none() {
            let t = parse_table(bytes, HEADER_BYTES + index * TABLE_BYTES);
            let ghost before = reg.slots_view();
            reg.slots[slot] = Some(t);
            proof {
                assert forall|s: int| 0 <= s < 5 implies #[trigger] reg.slots_view()[s] == (
                    if base <= s < base + index + 1 && v0[s] is None {
                        Some(bundle_table(bytes@, s - base))
                    } else {
                        v0[s]
                    }) by {
                    if s == slot {
                        assert(t@ =~= bundle_table(bytes@, s - base));
                    } else {
                        assert(reg.slots_view()[s] == before[s]);
                    }
                }
            }
        }
        index = index + 1;
    }
    proof {
        assert(reg.slots_view() =~= install_spec(v0, bytes@));
    }
    Ok(family)
}

/// Whether every table of `family` is available.
pub fn installed(reg: &TableRegistry, family: TableFamily) -> (r: bool)
    ensures
        r == family_installed(reg.slots_view(), family),
{
    let ghost v = reg.slots_view();
    proof {
        assert forall|k: int| 0 <= k < 5 implies (#[trigger] v[k] is Some) == (reg.slots@[k] is Some) by {}
        assert(v[0int + 0int] == v[0]);
        assert(v[0int + 1int] == v[1]);
        assert(v[2int + 0int] == v[2]);
        assert(v[2int + 1int] == v[3]);
        assert(v[2int + 2int] == v[4]);
    }
    match family {
        TableFamily::Astc => reg.slots[0].is_some() && reg.slots[1].is_some(),
        TableFamily::Bc => reg.slots[2].is_some() && reg.slots[3].is_some() && reg.slots[4].is_some(),
    }
}

/// Whether an ETC1S transcode to `target` has its tables; targets that read
/// none, and every other source, are unaffected.
pub fn ready_for(reg: &TableRegistry, target: TargetFormat, source: SourceFormat) -> (r: bool)
    ensures
        r == ready_spec(reg.slots_view(), target, source),
{
    match (source, TableFamily::for_target(target)) {
        (SourceFormat::Etc1s, Some(family)) => installed(reg, family),
        _ => true,
    }
}

/// The table in registry slot `slot`, which must be filled.
fn slot_table(reg: &TableRegistry, slot: usize) -> (t: &[Etc1ToSolution])
    requires
        slot < 5,
        reg.slots_view()[slot as int] is Some,
    ensures
        t@ == reg.slots_view()[slot as int].unwrap(),
{
    reg.slots[slot].as_ref().unwrap().as_slice()
}

/// The ASTC family: `([0, 47] table, [0, 255] table)`. Readers only run once
/// the family is installed.
pub fn astc_tables(reg: &TableRegistry) -> (r: (&[Etc1ToSolution], &[Etc1ToSolution]))
    requires
        family_installed(reg.slots_view(), TableFamily::Astc),
    ensures
        r.0@ == reg.slots_view()[0].unwrap(),
        r.1@ == reg.slots_view()[1].unwrap(),
{
    proof {
        assert(reg.slots_view()[0int + 0int] is Some);
        assert(reg.slots_view()[0int + 1int] is Some);
    }
    (slot_table(reg, 0), slot_table(reg, 1))
}

/// The BC7 mode-5 color table. Readers only run once the BC family is
/// installed.
pub fn bc7_m5_color(reg: &TableRegistry) -> (r: &[Etc1ToSolution])
    requires
        family_installed(reg.slots_view(), TableFamily::Bc),
    ensures
        r@ == reg.slots_view()[2].unwrap(),
{
    proof {
        assert(reg.slots_view()[2int + 0int] is Some);
    }
    slot_table(reg, 2)
}

/// The DXT family: `(5-bit table, 6-bit table)`. Readers only run once the
/// BC family is installed.
pub fn dxt_tables(reg: &TableRegistry) -> (r: (&[Etc1ToSolution], &[Etc1ToSolution]))
    requires
        family_installed(reg.slots_view(), TableFamily::Bc),
    ensures
        r.0@ == reg.slots_view()[3].unwrap(),
        r.1@ == reg.slots_view()[4].unwrap(),
{
    proof {
        assert(reg.slots_view()[2int + 1int] is Some);
        assert(reg.slots_view()[2int + 2int] is Some);
    }
    (slot_table(reg, 3), slot_table(reg, 4))
}

/// After a bundle is installed its family is available.
pub proof fn lemma_install_makes_installed(v: Seq<Option<Seq<Etc1ToSolution>>>, bytes: Seq<u8>, f: TableFamily)
    requires
        v.len() == 5,
        bundle_family_spec(bytes) == Ok::<TableFamily, TablesError>(f),
    ensures
        family_installed(install_spec(v, bytes), f),
{
    assert forall|t: int| 0 <= t < family_table_count(f) implies (#[trigger] install_spec(v, bytes)[family_slot_base(f) + t]) is Some by {
    }
}

/// Installing is idempotent: once a family is installed, installing any
/// bundle of that family again leaves every table as it was.
pub proof fn lemma_install_keeps_first(v: Seq<Option<Seq<Etc1ToSolution>>>, b1: Seq<u8>, b2: Seq<u8>, f: TableFamily)
    requires
        v.len() == 5,
        bundle_family_spec(b1) == Ok::<TableFamily, TablesError>(f),
        bundle_family_spec(b2) == Ok::<TableFamily, TablesError>(f),
    ensures
        install_spec(install_spec(v, b1), b2) == install_spec(v, b1),
{
    assert(install_spec(install_spec(v, b1), b2) =~= install_spec(v, b1));
}

/// A refused bundle changes nothing.
pub proof fn lemma_refused_install_changes_nothing(v: Seq<Option<Seq<Etc1ToSolution>>>, bytes: Seq<u8>)
    requires
        bundle_family_spec(bytes) is Err,
    ensures
        install_spec(v, bytes) == v,
{
}

/// Which transcodes wait for runtime tables: from ETC1S, the ASTC 4x4 target
/// needs the ASTC family installed and the BC1, BC3 and BC7 targets the BC
/// family; every other pair needs none.
pub proof fn lemma_ready_needs_family(v: Seq<Option<Seq<Etc1ToSolution>>>, target: TargetFormat, source: SourceFormat)
    ensures
        ready_spec(v, target, source) == (
            source != SourceFormat::Etc1s
            || (target != TargetFormat::Astc4x4Rgba && target != TargetFormat::Bc1Rgb
                && target != TargetFormat::Bc3Rgba && target != TargetFormat::Bc7Rgba)
            || (target == TargetFormat::Astc4x4Rgba && family_installed(v, TableFamily::Astc))
            || ((target == TargetFormat::Bc1Rgb || target == TargetFormat::Bc3Rgba || target == TargetFormat::Bc7Rgba)
                && family_installed(v, TableFamily::Bc))
        ),
{
}

} // verus!
