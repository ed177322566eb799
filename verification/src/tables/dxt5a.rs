//! ETC1S grayscale to DXT5A (BC4) conversion entry.

use vstd::prelude::*;

verus! {

/// One DXT5A conversion entry: the two BC4 alpha endpoints and the selector
/// remap, packed as 3-bit fields indexed by the source ETC1 selector value.
#[derive(Clone, Copy)]
pub struct Etc1GToDxt5aConversion {
    /// Low BC4 alpha endpoint.
    pub m_lo: u8,
    /// High BC4 alpha endpoint.
    pub m_hi: u8,
    /// Selector remap: field `s` is `(m_trans >> (s * 3)) & 7`.
    pub m_trans: u16,
}

impl Etc1GToDxt5aConversion {
    /// The BC4 selector the ETC1 selector `s` (0..4) maps to.
    pub fn translate(&self, s: u32) -> (r: u32)
        requires
            s < 4,
        ensures
            r == (self.m_trans as int / (if s == 0 { 1int } else if s == 1 { 8 } else if s == 2 { 64 } else { 512 })) % 8,
    {
        let t = self.m_trans as u32;
        let sh = s * 3;
        proof {
            lemma_selector_fields(t, sh);
        }
        (t >> sh) & 7
    }
}

/// The four 3-bit fields of a selector translation word.
proof fn lemma_selector_fields(t: u32, sh: u32)
    by (bit_vector)
    ensures
        sh == 0 ==> (t >> sh) & 7 == t % 8,
        sh == 3 ==> (t >> sh) & 7 == (t / 8) % 8,
        sh == 6 ==> (t >> sh) & 7 == (t / 64) % 8,
        sh == 9 ==> (t >> sh) & 7 == (t / 512) % 8,
{
}

} // verus!
