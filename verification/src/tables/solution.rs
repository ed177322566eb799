//! The shared ETC1S-to-target "solution" table entry. The dxt1, bc7 mode-5
//! color, astc, atc, and pvrtc2 single-color match tables all use the same
//! `{ m_lo, m_hi, m_err }` entry shape.

use vstd::prelude::*;

verus! {

/// One single-color match candidate: the (lo, hi) endpoint pair and its error.
#[derive(Clone, Copy, PartialEq, Eq, Debug, Structural)]
pub struct Etc1ToSolution {
    pub m_lo: u8,
    pub m_hi: u8,
    pub m_err: u16,
}

/// The four little-endian bytes of an entry: `m_lo`, `m_hi`, `m_err`.
pub open spec fn solution_bytes(e: Etc1ToSolution) -> Seq<u8> {
    seq![e.m_lo, e.m_hi, (e.m_err % 0x100) as u8, (e.m_err / 0x100) as u8]
}

/// The raw bytes of a solution table, four per entry in field order with
/// `m_err` little-endian.
pub open spec fn table_bytes_spec(table: Seq<Etc1ToSolution>) -> Seq<u8> {
    Seq::new(table.len() * 4, |i: int| solution_bytes(table[i / 4])[i % 4])
}

/// View a solution table as its bytes: `m_lo`, `m_hi`, then `m_err`
/// little-endian, per entry.
pub fn as_bytes(table: &[Etc1ToSolution]) -> (r: Vec<u8>)
    requires
        table@.len() * 4 <= usize::MAX,
    ensures
        r@ == table_bytes_spec(table@),
{
    let mut out: Vec<u8> = Vec::new();
    let mut i: usize = 0;
    while i < table.len()
        invariant
            i <= table@.len(),
            table@.len() * 4 <= usize::MAX,
            out@.len() == i * 4,
            forall|j: int| 0 <= j < i * 4 ==> out@[j] == #[trigger] solution_bytes(table@[j / 4])[j % 4],
        decreases table@.len() - i,
    {
        let e = table[i];
        out.push(e.m_lo);
        out.push(e.m_hi);
        out.push((e.m_err % 0x100) as u8);
        out.push((e.m_err / 0x100) as u8);
        proof {
            assert forall|j: int| 0 <= j < (i + 1) * 4 implies out@[j] == #[trigger] solution_bytes(table@[j / 4])[j % 4] by {
                if j >= i * 4 {
                    assert(j / 4 == i);
                }
            }
        }
        i = i + 1;
    }
    proof {
        assert(out@ =~= table_bytes_spec(table@));
    }
    out
}

} // verus!
