//! PVRTC1 endpoint quantization: the decode ramps of the 5-, 4- and 3-bit color
//! fields and the 3-bit alpha field, and the floor/ceil quantizers that pick
//! the field value whose decoded level lies just below or just above a byte.

use crate::color::expand5;
use vstd::prelude::*;

verus! {

/// Decoded 8-bit level of a 5-bit PVRTC color field.
pub open spec fn pvrtc5(q: int) -> int {
    expand5(q)
}

/// Decoded 8-bit level of a 4-bit PVRTC color field (widened to 5 bits).
pub open spec fn pvrtc4(q: int) -> int {
    expand5(q * 2 + q / 8)
}

/// Decoded 8-bit level of a 3-bit PVRTC color field (widened to 5 bits).
pub open spec fn pvrtc3(q: int) -> int {
    expand5(q * 4 + q / 2)
}

/// Decoded 8-bit alpha of a 3-bit PVRTC alpha field; 8 stands for opaque.
pub open spec fn pvrtc_alpha(q: int) -> int {
    if q >= 8 { 255 } else { q * 34 }
}

/// The decoded level of field kind `bits` (3, 4 or 5 color bits; 0 for alpha).
pub open spec fn pvrtc_level(bits: int, q: int) -> int {
    if bits == 5 { pvrtc5(q) } else if bits == 4 { pvrtc4(q) } else if bits == 3 { pvrtc3(q) } else { pvrtc_alpha(q) }
}

/// The largest field value of a kind.
pub open spec fn pvrtc_max(bits: int) -> int {
    if bits == 5 { 31 } else if bits == 4 { 15 } else if bits == 3 { 7 } else { 8 }
}

/// `q` is the largest field value whose level does not exceed `v`.
pub open spec fn is_floor(bits: int, v: int, q: int) -> bool {
    &&& 0 <= q <= pvrtc_max(bits)
    &&& pvrtc_level(bits, q) <= v
    &&& (q == pvrtc_max(bits) || pvrtc_level(bits, q + 1) > v)
}

/// `q` is the smallest field value whose level is not below `v`.
pub open spec fn is_ceil(bits: int, v: int, q: int) -> bool {
    &&& 0 <= q <= pvrtc_max(bits)
    &&& pvrtc_level(bits, q) >= v
    &&& (q == 0 || pvrtc_level(bits, q - 1) < v)
}

/// The floor quantization of `v` for a field kind.
pub open spec fn qfloor(bits: int, v: int) -> int {
    choose|q: int| is_floor(bits, v, q)
}

/// The ceil quantization of `v` for a field kind.
pub open spec fn qceil(bits: int, v: int) -> int {
    choose|q: int| is_ceil(bits, v, q)
}

/// The decode ramps strictly increase.
pub proof fn lemma_level_increases(bits: int, q1: int, q2: int)
    requires
        bits == 0 || bits == 3 || bits == 4 || bits == 5,
        0 <= q1 < q2 <= pvrtc_max(bits),
    ensures
        pvrtc_level(bits, q1) < pvrtc_level(bits, q2),
{
}

/// A floor (or ceil) quantization is unique, so it is the one [`qfloor`]
/// (or [`qceil`]) names.
pub proof fn lemma_quant_unique(bits: int, v: int, q: int)
    requires
        bits == 0 || bits == 3 || bits == 4 || bits == 5,
    ensures
        is_floor(bits, v, q) ==> qfloor(bits, v) == q,
        is_ceil(bits, v, q) ==> qceil(bits, v) == q,
{
    if is_floor(bits, v, q) {
        let c = qfloor(bits, v);
        assert(is_floor(bits, v, c));
        if c < q {
            if c + 1 < q {
                lemma_level_increases(bits, c + 1, q);
            }
        } else if q < c {
            if q + 1 < c {
                lemma_level_increases(bits, q + 1, c);
            }
        }
    }
    if is_ceil(bits, v, q) {
        let c = qceil(bits, v);
        assert(is_ceil(bits, v, c));
        if c < q {
            if c < q - 1 {
                lemma_level_increases(bits, c, q - 1);
            }
        } else if q < c {
            if q < c - 1 {
                lemma_level_increases(bits, q, c - 1);
            }
        }
    }
}

/// Decoded level of field kind `bits` for value `q`.
pub fn level(bits: u32, q: u32) -> (r: u32)
    requires
        bits == 0 || bits == 3 || bits == 4 || bits == 5,
        q <= pvrtc_max(bits as int),
    ensures
        r == pvrtc_level(bits as int, q as int),
        r <= 255,
{
    if bits == 5 {
        q * 8 + q / 4
    } else if bits == 4 {
        let f = q * 2 + q / 8;
        f * 8 + f / 4
    } else if bits == 3 {
        let f = q * 4 + q / 2;
        f * 8 + f / 4
    } else if q >= 8 {
        255
    } else {
        q * 34
    }
}

/// The floor quantizer: the largest field value whose level is at most `v`.
pub fn quant_floor(bits: u32, v: u8) -> (r: u32)
    requires
        bits == 0 || bits == 3 || bits == 4 || bits == 5,
    ensures
        is_floor(bits as int, v as int, r as int),
        r == qfloor(bits as int, v as int),
        r <= pvrtc_max(bits as int),
{
    let max: u32 = if bits == 5 { 31 } else if bits == 4 { 15 } else if bits == 3 { 7 } else { 8 };
    let mut q: u32 = 0;
    while q < max && level(bits, q + 1) <= v as u32
        invariant
            bits == 0 || bits == 3 || bits == 4 || bits == 5,
            max == pvrtc_max(bits as int),
            q <= max,
            pvrtc_level(bits as int, q as int) <= v,
        decreases max - q,
    {
        q = q + 1;
    }
    proof {
        lemma_quant_unique(bits as int, v as int, q as int);
    }
    q
}

/// The ceil quantizer: the smallest field value whose level is at least `v`.
pub fn quant_ceil(bits: u32, v: u8) -> (r: u32)
    requires
        bits == 0 || bits == 3 || bits == 4 || bits == 5,
    ensures
        is_ceil(bits as int, v as int, r as int),
        r == qceil(bits as int, v as int),
        r <= pvrtc_max(bits as int),
{
    let max: u32 = if bits == 5 { 31 } else if bits == 4 { 15 } else if bits == 3 { 7 } else { 8 };
    let mut q: u32 = max;
    proof {
        assert(pvrtc_level(bits as int, max as int) == 255);
    }
    while q > 0 && level(bits, q - 1) >= v as u32
        invariant
            bits == 0 || bits == 3 || bits == 4 || bits == 5,
            max == pvrtc_max(bits as int),
            q <= max,
            pvrtc_level(bits as int, q as int) >= v,
        decreases q,
    {
        q = q - 1;
    }
    proof {
        lemma_quant_unique(bits as int, v as int, q as int);
    }
    q
}

} // verus!
