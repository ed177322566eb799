//! BC1 single-color match tables.
//!
//! Four 256-entry tables map an 8-bit target channel value to the BC1 5-bit or
//! 6-bit endpoint pair that best reproduces it as a single color, one table per
//! (endpoint width, selector) combination. They are brute-forced in code rather
//! than shipped as static data.

use crate::color::expand5;
use vstd::prelude::*;

verus! {

/// One match-table entry: the winning (hi, lo) endpoint pair for one target
/// value.
#[derive(Clone, Copy, PartialEq, Eq, Debug, Structural)]
pub struct Bc1MatchEntry {
    pub m_hi: u8,
    pub m_lo: u8,
}

/// The four BC1 single-color match tables.
pub struct Bc1MatchTables {
    /// 5-bit endpoints, selector 1.
    pub match5_equals_1: [Bc1MatchEntry; 256],
    /// 6-bit endpoints, selector 1.
    pub match6_equals_1: [Bc1MatchEntry; 256],
    /// 5-bit endpoints, selector 0.
    pub match5_equals_0: [Bc1MatchEntry; 256],
    /// 6-bit endpoints, selector 0.
    pub match6_equals_0: [Bc1MatchEntry; 256],
}

/// Integer absolute value.
pub open spec fn abs(x: int) -> int {
    if x < 0 { -x } else { x }
}

/// Integer absolute value.
fn iabs(x: i32) -> (r: i32)
    requires
        x != i32::MIN,
    ensures
        r == abs(x as int),
{
    if x < 0 { -x } else { x }
}

/// The error of reproducing value `i` with the decoded endpoints `lo_e`,
/// `hi_e` under the selector model: selector 1 decodes the 2:1 interpolated
/// color plus a small tie-break penalty proportional to the endpoint spread;
/// selector 0 decodes the hi endpoint itself.
pub open spec fn match_err(lo_e: int, hi_e: int, i: int, sel: int) -> int {
    if sel == 1 {
        abs((hi_e * 2 + lo_e) / 3 - i) + (abs(hi_e - lo_e) * 3) / 100
    } else {
        abs(hi_e - i)
    }
}

/// Whether `(lo, hi)` is the first pair, in (lo, hi) lexicographic order over
/// `lo < size0`, `hi < size1`, of smallest error for value `i`.
pub open spec fn is_best_match(expand: Seq<u8>, size0: int, size1: int, sel: int, i: int, lo: int, hi: int) -> bool {
    let best = match_err(expand[lo] as int, expand[hi] as int, i, sel);
    &&& 0 <= lo < size0
    &&& 0 <= hi < size1
    &&& forall|l: int, h: int| 0 <= l < size0 && 0 <= h < size1 ==> best <= #[trigger] match_err(expand[l] as int, expand[h] as int, i, sel)
    &&& forall|l: int, h: int| 0 <= l < size0 && 0 <= h < size1 && (l < lo || (l == lo && h < hi)) ==>
        best < #[trigger] match_err(expand[l] as int, expand[h] as int, i, sel)
}

/// Whether every entry of a table is its value's best match.
pub open spec fn table_is_best(t: Seq<Bc1MatchEntry>, expand: Seq<u8>, size0: int, size1: int, sel: int) -> bool {
    &&& t.len() == 256
    &&& forall|i: int| 0 <= i < 256 ==> is_best_match(expand, size0, size1, sel, i, #[trigger] t[i].m_lo as int, t[i].m_hi as int)
}

/// Fill one 256-entry match table: for each target value `i`, brute-force the
/// (lo, hi) endpoint pair over the `expand` decode table whose decoded single
/// color is closest under the selector model. `size0`/`size1` bound the lo/hi
/// search; the selector-0 tables pass `size0 == 1` to pin lo at 0.
fn prepare(table: &mut [Bc1MatchEntry; 256], expand: &[u8], size0: i32, size1: i32, sel: i32)
    requires
        1 <= size0 <= expand@.len(),
        1 <= size1 <= expand@.len(),
        expand@.len() <= 256,
        sel == 0 || sel == 1,
    ensures
        table_is_best(final(table)@, expand@, size0 as int, size1 as int, sel as int),
{
    let mut i: i32 = 0;
    while i < 256
        invariant
            0 <= i <= 256,
            1 <= size0 <= expand@.len(),
            1 <= size1 <= expand@.len(),
            expand@.len() <= 256,
            sel == 0 || sel == 1,
            forall|j: int| 0 <= j < i ==> is_best_match(expand@, size0 as int, size1 as int, sel as int, j, #[trigger] table@[j].m_lo as int, table@[j].m_hi as int),
        decreases 256 - i,
    {
        let mut lowest_e: i32 = 256;
        let mut best_lo: i32 = 0;
        let mut best_hi: i32 = 0;
        let mut lo: i32 = 0;
        while lo < size0
            invariant
                0 <= i < 256,
                0 <= lo <= size0,
                1 <= size0 <= expand@.len(),
                1 <= size1 <= expand@.len(),
                expand@.len() <= 256,
                sel == 0 || sel == 1,
                lo == 0 ==> lowest_e == 256,
                lo > 0 ==> 0 <= best_lo < lo && 0 <= best_hi < size1
                    && lowest_e == match_err(expand@[best_lo as int] as int, expand@[best_hi as int] as int, i as int, sel as int),
                forall|l: int, h: int| 0 <= l < lo && 0 <= h < size1 ==> lowest_e <= #[trigger] match_err(expand@[l] as int, expand@[h] as int, i as int, sel as int),
                forall|l: int, h: int| 0 <= l < lo && 0 <= h < size1 && (l < best_lo || (l == best_lo && h < best_hi)) ==>
                    lowest_e < #[trigger] match_err(expand@[l] as int, expand@[h] as int, i as int, sel as int),
            decreases size0 - lo,
        {
            let mut hi: i32 = 0;
            while hi < size1
                invariant
                    0 <= i < 256,
                    0 <= lo < size0,
                    0 <= hi <= size1,
                    1 <= size0 <= expand@.len(),
                    1 <= size1 <= expand@.len(),
                    expand@.len() <= 256,
                    sel == 0 || sel == 1,
                    lo == 0 && hi == 0 ==> lowest_e == 256,
                    lo > 0 || hi > 0 ==> 0 <= best_lo <= lo && 0 <= best_hi < size1 && (best_lo < lo || best_hi < hi)
                        && lowest_e == match_err(expand@[best_lo as int] as int, expand@[best_hi as int] as int, i as int, sel as int),
                    forall|l: int, h: int| 0 <= h < size1 && (0 <= l < lo || (l == lo && 0 <= h < hi)) ==> lowest_e <= #[trigger] match_err(expand@[l] as int, expand@[h] as int, i as int, sel as int),
                    forall|l: int, h: int| 0 <= h < size1 && (0 <= l < lo || (l == lo && 0 <= h < hi)) && (l < best_lo || (l == best_lo && h < best_hi)) ==>
                        lowest_e < #[trigger] match_err(expand@[l] as int, expand@[h] as int, i as int, sel as int),
                decreases size1 - hi,
            {
                let lo_e = expand[lo as usize] as i32;
                let hi_e = expand[hi as usize] as i32;
                let e = if sel == 1 {
                    // Selector 1: the 2:1 interpolated endpoint, plus a small
                    // tie-break penalty proportional to endpoint spread.
                    let mut e = iabs(((hi_e * 2 + lo_e) / 3) - i);
                    e += (iabs(hi_e - lo_e) * 3) / 100;
                    e
                } else {
                    // Selector 0: the hi endpoint itself.
                    iabs(hi_e - i)
                };
                if e < lowest_e {
                    best_hi = hi;
                    best_lo = lo;
                    lowest_e = e;
                }
                hi = hi + 1;
            }
            lo = lo + 1;
        }
        proof {
            // The very first candidate always beats the initial bound.
            assert(lowest_e < 256) by {
                assert(lowest_e <= match_err(expand@[0] as int, expand@[0] as int, i as int, sel as int));
            }
        }
        table[i as usize] = Bc1MatchEntry { m_hi: best_hi as u8, m_lo: best_lo as u8 };
        i = i + 1;
    }
}

/// The BC1 5-bit component expansion.
pub open spec fn bc1_expand5() -> Seq<u8> {
    Seq::new(32, |i: int| expand5(i) as u8)
}

/// The BC1 6-bit component expansion.
pub open spec fn bc1_expand6() -> Seq<u8> {
    Seq::new(64, |i: int| (i * 4 + i / 16) as u8)
}

/// Build all four tables from the standard BC1 5-bit and 6-bit component
/// expansions.
pub fn build() -> (t: Bc1MatchTables)
    ensures
        table_is_best(t.match5_equals_1@, bc1_expand5(), 32, 32, 1),
        table_is_best(t.match5_equals_0@, bc1_expand5(), 1, 32, 0),
        table_is_best(t.match6_equals_1@, bc1_expand6(), 64, 64, 1),
        table_is_best(t.match6_equals_0@, bc1_expand6(), 1, 64, 0),
{
    // bc1_expand5[i] = (i << 3) | (i >> 2); bc1_expand6[i] = (i << 2) | (i >> 4).
    let mut e5: Vec<u8> = Vec::new();
    let mut i: usize = 0;
    while i < 32
        invariant
            i <= 32,
            e5@ == bc1_expand5().take(i as int),
        decreases 32 - i,
    {
        proof {
            assert((i << 3usize) | (i >> 2usize) == i * 8 + i / 4) by (bit_vector)
                requires
                    i < 32,
            ;
        }
        e5.push(((i << 3) | (i >> 2)) as u8);
        proof {
            assert(e5@ =~= bc1_expand5().take(i + 1));
        }
        i = i + 1;
    }
    let mut e6: Vec<u8> = Vec::new();
    let mut i: usize = 0;
    while i < 64
        invariant
            i <= 64,
            e6@ == bc1_expand6().take(i as int),
        decreases 64 - i,
    {
        proof {
            assert((i << 2usize) | (i >> 4usize) == i * 4 + i / 16) by (bit_vector)
                requires
                    i < 64,
            ;
        }
        e6.push(((i << 2) | (i >> 4)) as u8);
        proof {
            assert(e6@ =~= bc1_expand6().take(i + 1));
        }
        i = i + 1;
    }
    proof {
        assert(e5@ =~= bc1_expand5());
        assert(e6@ =~= bc1_expand6());
    }
    let empty = Bc1MatchEntry { m_hi: 0, m_lo: 0 };
    let mut t = Bc1MatchTables {
        match5_equals_1: [empty; 256],
        match6_equals_1: [empty; 256],
        match5_equals_0: [empty; 256],
        match6_equals_0: [empty; 256],
    };
    prepare(&mut t.match5_equals_1, e5.as_slice(), 32, 32, 1);
    prepare(&mut t.match5_equals_0, e5.as_slice(), 1, 32, 0);
    prepare(&mut t.match6_equals_1, e6.as_slice(), 64, 64, 1);
    prepare(&mut t.match6_equals_0, e6.as_slice(), 1, 64, 0);
    t
}

/// The raw bytes of a table: `m_hi` then `m_lo`, per entry.
pub open spec fn match_table_bytes(t: Seq<Bc1MatchEntry>) -> Seq<u8> {
    Seq::new(t.len() * 2, |k: int| if k % 2 == 0 { t[k / 2].m_hi } else { t[k / 2].m_lo })
}

impl Bc1MatchTables {
    /// The raw bytes of one table, two bytes per entry in field order (`m_hi`
    /// then `m_lo`).
    pub fn table_bytes(table: &[Bc1MatchEntry; 256]) -> (out: Vec<u8>)
        ensures
            out@ == match_table_bytes(table@),
    {
        let mut out: Vec<u8> = Vec::with_capacity(512);
        let mut i: usize = 0;
        while i < 256
            invariant
                i <= 256,
                out@.len() == 2 * i,
                forall|k: int| 0 <= k < 2 * i ==> #[trigger] out@[k] == match_table_bytes(table@)[k],
            decreases 256 - i,
        {
            let e = table[i];
            out.push(e.m_hi);
            out.push(e.m_lo);
            proof {
                assert forall|k: int| 0 <= k < 2 * (i + 1) implies #[trigger] out@[k] == match_table_bytes(table@)[k] by {
                    if k >= 2 * i {
                        assert(k / 2 == i);
                    }
                }
            }
            i = i + 1;
        }
        proof {
            assert(out@ =~= match_table_bytes(table@));
        }
        out
    }
}

/// Entry `k` of a BC1 four-colour palette with endpoints `c0` (color0) and
/// `c1` (color1), one channel: the two endpoints, then the colours one third
/// and two thirds of the way from `c0` to `c1`.
pub open spec fn bc1_palette(c0: int, c1: int, k: int) -> int {
    if k == 0 { c0 } else if k == 1 { c1 } else if k == 2 { (2 * c0 + c1) / 3 } else { (c0 + 2 * c1) / 3 }
}

/// The tables' error model against a BC1 decoder: with `hi` as color0 and
/// `lo` as color1, the selector-1 tables score a value by its distance from
/// palette entry 2 (two thirds `hi`, one third `lo`) plus three hundredths of
/// the endpoint spread, and the selector-0 tables by its distance from `hi`.
pub proof fn lemma_match_err_is_bc1_decode(lo_e: int, hi_e: int, i: int)
    requires
        0 <= lo_e <= 255,
        0 <= hi_e <= 255,
    ensures
        match_err(lo_e, hi_e, i, 1) == ({
            let d = bc1_palette(hi_e, lo_e, 2) - i;
            let spread = hi_e - lo_e;
            (if d < 0 { -d } else { d }) + ((if spread < 0 { -spread } else { spread }) * 3) / 100
        }),
        match_err(lo_e, hi_e, i, 0) == ({
            let d = bc1_palette(hi_e, lo_e, 0) - i;
            if d < 0 { -d } else { d }
        }),
{
}

/// An entry of a selector-1 table decodes, in a BC1 block with `m_hi` as
/// color0 and `m_lo` as color1 and every selector 2, to a colour no farther
/// from the target than any other endpoint pair's palette entry 2 is, up to
/// the spread penalty: the best-match property read through the decoder.
pub proof fn lemma_table_entry_decodes_near(t: Seq<Bc1MatchEntry>, expand: Seq<u8>, size0: int, size1: int, i: int, l: int, h: int)
    requires
        table_is_best(t, expand, size0, size1, 1),
        0 <= i < 256,
        0 <= l < size0,
        0 <= h < size1,
        size0 <= expand.len(),
        size1 <= expand.len(),
    ensures
        ({
            let lo = expand[t[i].m_lo as int] as int;
            let hi = expand[t[i].m_hi as int] as int;
            let d = bc1_palette(hi, lo, 2) - i;
            let s = hi - lo;
            let d2 = bc1_palette(expand[h] as int, expand[l] as int, 2) - i;
            let s2 = expand[h] as int - expand[l] as int;
            (if d < 0 { -d } else { d }) + ((if s < 0 { -s } else { s }) * 3) / 100
                <= (if d2 < 0 { -d2 } else { d2 }) + ((if s2 < 0 { -s2 } else { s2 }) * 3) / 100
        }),
{
    assert(is_best_match(expand, size0, size1, 1, i, t[i].m_lo as int, t[i].m_hi as int));
    let lo = expand[t[i].m_lo as int] as int;
    let hi = expand[t[i].m_hi as int] as int;
    assert(match_err(lo, hi, i, 1) <= match_err(expand[l] as int, expand[h] as int, i, 1));
    lemma_match_err_is_bc1_decode(lo, hi, i);
    lemma_match_err_is_bc1_decode(expand[l] as int, expand[h] as int, i);
}

/// The endpoint expansions are BC1's bit replication: a 5-bit code `i`
/// becomes the byte whose top five bits are `i` and whose low three bits
/// repeat the top three of `i`; a 6-bit code, the byte whose top six bits are
/// `i` and whose low two bits repeat the top two of `i`.
pub proof fn lemma_bc1_expansions_replicate(i: int)
    ensures
        0 <= i < 32 ==> bc1_expand5()[i] / 8 == i && bc1_expand5()[i] % 8 == i / 4,
        0 <= i < 64 ==> bc1_expand6()[i] / 4 == i && bc1_expand6()[i] % 4 == i / 16,
{
}

} // verus!
