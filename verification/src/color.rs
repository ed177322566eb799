//! RGBA8 colors and the ETC1 constants every codec shares: the intensity
//! modifier tables, the 5-bit to 8-bit expansion, and the ETC1S codebook entry
//! shapes.

use vstd::prelude::*;

verus! {

/// An RGBA color with 8 bits per channel.
#[derive(Clone, Copy, PartialEq, Eq, Debug, Structural)]
pub struct Color32 {
    pub r: u8,
    pub g: u8,
    pub b: u8,
    pub a: u8,
}

/// Clamp an integer to the byte range.
pub open spec fn clamp_u8(v: int) -> u8 {
    if v < 0 { 0 } else if v > 255 { 255 } else { v as u8 }
}

/// The smaller of two bytes.
pub open spec fn min_u8(a: u8, b: u8) -> u8 {
    if a <= b { a } else { b }
}

/// The larger of two bytes.
pub open spec fn max_u8(a: u8, b: u8) -> u8 {
    if a >= b { a } else { b }
}

impl Color32 {
    /// A color from four channel values, each at most 255.
    pub fn new(r: u32, g: u32, b: u32, a: u32) -> (c: Color32)
        requires
            r <= 255,
            g <= 255,
            b <= 255,
            a <= 255,
        ensures
            c.r == r,
            c.g == g,
            c.b == b,
            c.a == a,
    {
        Color32 { r: r as u8, g: g as u8, b: b as u8, a: a as u8 }
    }

    /// A color from four signed channel values, each clamped to 0..=255.
    pub fn new_clamped(r: i32, g: i32, b: i32, a: i32) -> (c: Color32)
        ensures
            c.r == clamp_u8(r as int),
            c.g == clamp_u8(g as int),
            c.b == clamp_u8(b as int),
            c.a == clamp_u8(a as int),
    {
        Color32 { r: clamp_i32_u8(r), g: clamp_i32_u8(g), b: clamp_i32_u8(b), a: clamp_i32_u8(a) }
    }

    /// Red channel.
    pub fn r(&self) -> (v: u8)
        ensures
            v == self.r,
    {
        self.r
    }

    /// Green channel.
    pub fn g(&self) -> (v: u8)
        ensures
            v == self.g,
    {
        self.g
    }

    /// Blue channel.
    pub fn b(&self) -> (v: u8)
        ensures
            v == self.b,
    {
        self.b
    }

    /// Alpha channel.
    pub fn a(&self) -> (v: u8)
        ensures
            v == self.a,
    {
        self.a
    }

    /// Component-wise minimum.
    pub fn comp_min(x: Color32, y: Color32) -> (c: Color32)
        ensures
            c.r == min_u8(x.r, y.r),
            c.g == min_u8(x.g, y.g),
            c.b == min_u8(x.b, y.b),
            c.a == min_u8(x.a, y.a),
    {
        Color32 {
            r: if x.r <= y.r { x.r } else { y.r },
            g: if x.g <= y.g { x.g } else { y.g },
            b: if x.b <= y.b { x.b } else { y.b },
            a: if x.a <= y.a { x.a } else { y.a },
        }
    }

    /// Component-wise maximum.
    pub fn comp_max(x: Color32, y: Color32) -> (c: Color32)
        ensures
            c.r == max_u8(x.r, y.r),
            c.g == max_u8(x.g, y.g),
            c.b == max_u8(x.b, y.b),
            c.a == max_u8(x.a, y.a),
    {
        Color32 {
            r: if x.r >= y.r { x.r } else { y.r },
            g: if x.g >= y.g { x.g } else { y.g },
            b: if x.b >= y.b { x.b } else { y.b },
            a: if x.a >= y.a { x.a } else { y.a },
        }
    }
}

/// Clamp a signed value to the byte range.
pub fn clamp_i32_u8(v: i32) -> (r: u8)
    ensures
        r == clamp_u8(v as int),
{
    if v < 0 {
        0
    } else if v > 255 {
        255
    } else {
        v as u8
    }
}

/// The ETC1 intensity modifier for table `t` and modifier index `s`.
pub open spec fn inten(t: int, s: int) -> int {
    let m: (int, int) = if t == 0 { (2, 8) }
        else if t == 1 { (5, 17) }
        else if t == 2 { (9, 29) }
        else if t == 3 { (13, 42) }
        else if t == 4 { (18, 60) }
        else if t == 5 { (24, 80) }
        else if t == 6 { (33, 106) }
        else { (47, 183) };
    if s == 0 { -m.1 } else if s == 1 { -m.0 } else if s == 2 { m.0 } else { m.1 }
}

/// The ETC1 intensity modifier for table `t` (0..8) and modifier index `s`
/// (0..4, from most negative to most positive).
pub fn inten_table(t: usize, s: usize) -> (r: i32)
    requires
        t < 8,
        s < 4,
    ensures
        r == inten(t as int, s as int),
        -183 <= r <= 183,
{
    let (small, large) = match t {
        0 => (2i32, 8i32),
        1 => (5, 17),
        2 => (9, 29),
        3 => (13, 42),
        4 => (18, 60),
        5 => (24, 80),
        6 => (33, 106),
        _ => (47, 183),
    };
    match s {
        0 => -large,
        1 => -small,
        2 => small,
        _ => large,
    }
}

/// Expand a 5-bit value to 8 bits by replicating its top 3 bits.
pub open spec fn expand5(v: int) -> int {
    v * 8 + v / 4
}

/// Expand a 4-bit value to 8 bits by nibble replication.
pub open spec fn expand4(v: int) -> int {
    v * 17
}

/// The 5-bit to 8-bit ETC channel expansion.
pub fn etc_5_to_8(v: u8) -> (r: i32)
    requires
        v < 32,
    ensures
        r == expand5(v as int),
        0 <= r <= 255,
{
    (v as i32) * 8 + (v as i32) / 4
}

/// The ETC1 selector code (msb<<1 | lsb) of a modifier index.
pub open spec fn selector_index_to_etc1(s: int) -> int {
    if s == 0 { 3 } else if s == 1 { 2 } else if s == 2 { 0 } else { 1 }
}

/// An ETC1S color codebook entry: a 5:5:5 base color and an intensity table.
#[derive(Clone, Copy, Debug)]
pub struct Endpoint {
    pub color5: Color32,
    pub inten5: u8,
}

/// Whether an endpoint's fields are in range.
pub open spec fn endpoint_wf(e: Endpoint) -> bool {
    e.color5.r < 32 && e.color5.g < 32 && e.color5.b < 32 && e.inten5 < 8
}

/// An ETC1S selector codebook entry: 2-bit modifier indices per row
/// (`selectors[y] >> (2 * x) & 3`), the same selectors packed as the four ETC1
/// selector bytes, and the lowest and highest index used.
#[derive(Clone, Copy, Debug)]
pub struct Selector {
    pub selectors: [u8; 4],
    pub bytes: [u8; 4],
    pub lo_selector: u8,
    pub hi_selector: u8,
}

/// Whether a selector's used-range fields are in range.
pub open spec fn selector_wf(s: Selector) -> bool {
    s.lo_selector < 4 && s.hi_selector < 4
}

} // verus!
