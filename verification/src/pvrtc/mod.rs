//! PVRTC1 4bpp transcode (RGB and RGBA), the image-global path.
//!
//! Unlike the per-block targets, PVRTC1 endpoints are not independent per block:
//! each block's low/high endpoints come from the block's bounding box, then a
//! whole-image apply/modulation pass resolves every 8-byte output block from its
//! neighbors' endpoints (with wrap). The prep stage records per-block endpoints
//! and per-texel luma; the apply stage bilinearly blends neighboring endpoint
//! lumas at each texel to pick its 2-bit modulation level.

pub mod swizzle;
pub mod tables;

use crate::color::{
    clamp_u8, endpoint_wf, etc_5_to_8, expand5, inten, inten_table, max_u8, min_u8, selector_wf,
    Color32, Endpoint, Selector,
};
use swizzle::{lemma_p2_divides, lemma_p2_pos, lemma_pow2_bit_len, lemma_swz_in_range_and_distinct, swizzle, swz};
use tables::{level, pvrtc3, pvrtc4, pvrtc5, pvrtc_alpha, pvrtc_level, qceil, qfloor, quant_ceil, quant_floor};
use vstd::prelude::*;

verus! {

/// The number of bits needed to represent `v` (0 for `v == 0`).
pub open spec fn bit_len(v: nat) -> nat
    decreases v,
{
    if v == 0 { 0 } else { 1 + bit_len(v / 2) }
}

/// Two to the power `k`.
pub open spec fn p2(k: nat) -> nat
    decreases k,
{
    if k == 0 { 1 } else { 2 * p2((k - 1) as nat) }
}

/// Whether `n` is a nonzero power of two.
pub open spec fn is_pow2(n: int) -> bool
    decreases n,
{
    if n <= 0 { false } else if n == 1 { true } else { n % 2 == 0 && is_pow2(n / 2) }
}

/// A value below `2^k` needs at most `k` bits.
pub proof fn lemma_bit_len_bound(v: nat, k: nat)
    requires
        v < p2(k),
    ensures
        bit_len(v) <= k,
    decreases k,
{
    if v > 0 {
        lemma_bit_len_bound(v / 2, (k - 1) as nat);
    }
}

/// Number of bits needed to represent `v` (0 for `v == 0`): the position of
/// the highest set bit plus one.
pub fn total_bits(v: u32) -> (l: u32)
    ensures
        l == bit_len(v as nat),
        l <= 32,
{
    let ghost v0 = v;
    proof {
        reveal_with_fuel(p2, 33);
        assert(p2(32) == 0x1_0000_0000);
        lemma_bit_len_bound(v as nat, 32);
    }
    let mut v = v;
    let mut l: u32 = 0;
    while v > 0
        invariant
            l + bit_len(v as nat) == bit_len(v0 as nat),
            bit_len(v0 as nat) <= 32,
        decreases v,
    {
        v = v / 2;
        l = l + 1;
    }
    l
}

/// Endpoint 0 as opaque 554 (`1RRRRRGGGGGBBBBM`, M = 0) from floor quantization.
pub open spec fn opaque0_word(c: Color32) -> int {
    0x8000 + qfloor(5, c.r as int) * 1024 + qfloor(5, c.g as int) * 32 + qfloor(4, c.b as int) * 2
}

/// Endpoint 1 as opaque 555 (`1RRRRRGGGGGBBBBB`) from ceil quantization.
pub open spec fn opaque1_word(c: Color32) -> int {
    0x8000 + qceil(5, c.r as int) * 1024 + qceil(5, c.g as int) * 32 + qceil(5, c.b as int)
}

/// The opaque endpoints word of an RGB bounding box.
pub open spec fn endpoints_word(low: Color32, high: Color32) -> int {
    opaque0_word(low) + opaque1_word(high) * 0x10000
}

/// Pack endpoint 0 as opaque 554 by floor-quantizing `c`; the 16-bit low half
/// of the endpoints word, with the modulation-mode bit cleared.
fn pack_opaque_endpoint0_floor(c: Color32) -> (r: u32)
    ensures
        r == opaque0_word(c),
        r < 0x10000,
{
    let r = quant_floor(5, c.r());
    let g = quant_floor(5, c.g());
    let b = quant_floor(4, c.b()) * 2;
    proof {
        assert((0x8000u32 | (r << 10u32) | (g << 5u32) | b) & !1u32 == 0x8000 + r * 1024 + g * 32 + b)
            by (bit_vector)
            requires
                r < 32,
                g < 32,
                b < 32,
                b % 2 == 0,
        ;
    }
    (0x8000 | (r << 10) | (g << 5) | b) & !1
}

/// Pack endpoint 1 as opaque 555 by ceil-quantizing `c`; the 16-bit high half
/// of the endpoints word.
fn pack_opaque_endpoint1_ceil(c: Color32) -> (r: u32)
    ensures
        r == opaque1_word(c),
        r < 0x10000,
{
    let r = quant_ceil(5, c.r());
    let g = quant_ceil(5, c.g());
    let b = quant_ceil(5, c.b());
    proof {
        assert(0x8000u32 | (r << 10u32) | (g << 5u32) | b == 0x8000 + r * 1024 + g * 32 + b)
            by (bit_vector)
            requires
                r < 32,
                g < 32,
                b < 32,
        ;
    }
    0x8000 | (r << 10) | (g << 5) | b
}

/// Endpoints word from a block's RGB bounding box `[low, high]`.
fn pack_endpoints(low: Color32, high: Color32) -> (r: u32)
    ensures
        r == endpoints_word(low, high),
{
    let lo = pack_opaque_endpoint0_floor(low);
    let hi = pack_opaque_endpoint1_ceil(high);
    proof {
        assert(lo | (hi << 16u32) == lo + hi * 0x10000) by (bit_vector)
            requires
                lo < 0x10000,
                hi < 0x10000,
        ;
    }
    lo | (hi << 16)
}

/// One endpoint half: opaque 554/555 or translucent 3443/3444.
pub open spec fn raw_endpoint(endpoint_index: int, r: int, g: int, b: int, a: int, opaque: bool, m: int) -> int {
    if opaque {
        if endpoint_index == 0 {
            0x8000 + r * 1024 + g * 32 + b * 2 + m
        } else {
            0x8000 + r * 1024 + g * 32 + b
        }
    } else if endpoint_index == 0 {
        a * 4096 + r * 256 + g * 16 + b * 2 + m
    } else {
        a * 4096 + r * 256 + g * 16 + b
    }
}

/// The field ranges of an endpoint half's layout.
pub open spec fn raw_endpoint_fields_ok(endpoint_index: u32, r: u32, g: u32, b: u32, a: u32, opaque: bool, m: u32) -> bool {
    &&& m < 2
    &&& if opaque {
        r < 32 && g < 32 && (if endpoint_index == 0 { b < 16 } else { b < 32 })
    } else {
        a < 8 && r < 16 && g < 16 && (if endpoint_index == 0 { b < 8 } else { b < 16 })
    }
}

/// Pack one opaque or translucent endpoint into its 16-bit half. `m` is the
/// modulation-mode bit, which only exists in endpoint 0's layout.
fn pack_endpoint_raw(endpoint_index: u32, r: u32, g: u32, b: u32, a: u32, opaque: bool, m: u32) -> (w: u32)
    requires
        raw_endpoint_fields_ok(endpoint_index, r, g, b, a, opaque, m),
    ensures
        w == raw_endpoint(endpoint_index as int, r as int, g as int, b as int, a as int, opaque, m as int),
        w < 0x10000,
{
    if opaque {
        if endpoint_index == 0 {
            // 554: 1RRRRRGGGGGBBBBM
            proof {
                assert((0x8000u32 | (r << 10u32) | (g << 5u32) | (b << 1u32) | m) & 0xFFFFu32 == 0x8000 + r
                    * 1024 + g * 32 + b * 2 + m) by (bit_vector)
                    requires
                        r < 32,
                        g < 32,
                        b < 16,
                        m < 2,
                ;
            }
            (0x8000 | (r << 10) | (g << 5) | (b << 1) | m) & 0xFFFF
        } else {
            // 555: 1RRRRRGGGGGBBBBB
            proof {
                assert((0x8000u32 | (r << 10u32) | (g << 5u32) | b) & 0xFFFFu32 == 0x8000 + r * 1024 + g
                    * 32 + b) by (bit_vector)
                    requires
                        r < 32,
                        g < 32,
                        b < 32,
                ;
            }
            (0x8000 | (r << 10) | (g << 5) | b) & 0xFFFF
        }
    } else if endpoint_index == 0 {
        // 3443: 0AAA RRRR GGGG BBBM
        proof {
            assert(((a << 12u32) | (r << 8u32) | (g << 4u32) | (b << 1u32) | m) & 0xFFFFu32 == a * 4096 + r
                * 256 + g * 16 + b * 2 + m) by (bit_vector)
                requires
                    a < 8,
                    r < 16,
                    g < 16,
                    b < 8,
                    m < 2,
            ;
        }
        ((a << 12) | (r << 8) | (g << 4) | (b << 1) | m) & 0xFFFF
    } else {
        // 3444: 0AAA RRRR GGGG BBBB
        proof {
            assert(((a << 12u32) | (r << 8u32) | (g << 4u32) | b) & 0xFFFFu32 == a * 4096 + r * 256 + g
                * 16 + b) by (bit_vector)
                requires
                    a < 8,
                    r < 16,
                    g < 16,
                    b < 16,
            ;
        }
        ((a << 12) | (r << 8) | (g << 4) | b) & 0xFFFF
    }
}

/// Alpha-aware floor pack of endpoint 0: opaque 554 if the floored alpha is
/// opaque, else translucent 3443.
pub open spec fn rgba0_word(c: Color32) -> int {
    let a = qfloor(0, c.a as int);
    if a == 8 {
        raw_endpoint(0, qfloor(5, c.r as int), qfloor(5, c.g as int), qfloor(4, c.b as int), a, true, 0)
    } else {
        raw_endpoint(0, qfloor(4, c.r as int), qfloor(4, c.g as int), qfloor(3, c.b as int), a, false, 0)
    }
}

/// Alpha-aware ceil pack of endpoint 1: opaque 555 if the ceiled alpha is
/// opaque, else translucent 3444.
pub open spec fn rgba1_word(c: Color32) -> int {
    let a = qceil(0, c.a as int);
    if a == 8 {
        raw_endpoint(1, qceil(5, c.r as int), qceil(5, c.g as int), qceil(5, c.b as int), a, true, 0)
    } else {
        raw_endpoint(1, qceil(4, c.r as int), qceil(4, c.g as int), qceil(4, c.b as int), a, false, 0)
    }
}

/// The alpha-aware endpoints word of an RGBA bounding box.
pub open spec fn endpoints_word_rgba(low: Color32, high: Color32) -> int {
    rgba0_word(low) + rgba1_word(high) * 0x10000
}

/// Alpha-aware floor pack of endpoint 0; the 16-bit low half.
fn pack_endpoint0_floor_rgba(c: Color32) -> (w: u32)
    ensures
        w == rgba0_word(c),
        w < 0x10000,
{
    let a = quant_floor(0, c.a());
    if a == 8 {
        let r = quant_floor(5, c.r());
        let g = quant_floor(5, c.g());
        let b = quant_floor(4, c.b());
        pack_endpoint_raw(0, r, g, b, a, true, 0)
    } else {
        let r = quant_floor(4, c.r());
        let g = quant_floor(4, c.g());
        let b = quant_floor(3, c.b());
        pack_endpoint_raw(0, r, g, b, a, false, 0)
    }
}

/// Alpha-aware ceil pack of endpoint 1; the 16-bit high half.
fn pack_endpoint1_ceil_rgba(c: Color32) -> (w: u32)
    ensures
        w == rgba1_word(c),
        w < 0x10000,
{
    let a = quant_ceil(0, c.a());
    if a == 8 {
        let r = quant_ceil(5, c.r());
        let g = quant_ceil(5, c.g());
        let b = quant_ceil(5, c.b());
        pack_endpoint_raw(1, r, g, b, a, true, 0)
    } else {
        let r = quant_ceil(4, c.r());
        let g = quant_ceil(4, c.g());
        let b = quant_ceil(4, c.b());
        pack_endpoint_raw(1, r, g, b, a, false, 0)
    }
}

/// Endpoints word from a block's RGBA bounding box `[low, high]`.
fn pack_endpoints_rgba(low: Color32, high: Color32) -> (r: u32)
    ensures
        r == endpoints_word_rgba(low, high),
{
    let lo = pack_endpoint0_floor_rgba(low);
    let hi = pack_endpoint1_ceil_rgba(high);
    proof {
        assert(lo | (hi << 16u32) == lo + hi * 0x10000) by (bit_vector)
            requires
                lo < 0x10000,
                hi < 0x10000,
        ;
    }
    lo | (hi << 16)
}

/// The 16-bit half of an endpoints word; endpoint 0 drops its
/// modulation-mode bit.
pub open spec fn endpoint_half(e: u32, endpoint_index: int) -> int {
    if endpoint_index == 0 { (e as int % 0x10000) - (e as int % 2) } else { e as int / 0x10000 }
}

/// The dequantized `r + g + b + a` of one packed endpoint: the
/// sliding-window luma of the RGBA apply pass.
pub open spec fn endpoint_l8_spec(e: u32, endpoint_index: int) -> int {
    let p = endpoint_half(e, endpoint_index);
    if p >= 0x8000 {
        let r = pvrtc5((p / 1024) % 32);
        let g = pvrtc5((p / 32) % 32);
        let b = if endpoint_index == 0 { pvrtc4((p % 32) / 2) } else { pvrtc5(p % 32) };
        r + g + b + 255
    } else {
        let r = pvrtc4((p / 256) % 16);
        let g = pvrtc4((p / 16) % 16);
        let b = if endpoint_index == 0 { pvrtc3((p % 16) / 2) } else { pvrtc4(p % 16) };
        let a = pvrtc_alpha((p / 4096) % 8);
        r + g + b + a
    }
}

/// The bit fields of a packed PVRTC endpoint word, as integer arithmetic.
proof fn lemma_u32_endpoint_fields(x: u32)
    by (bit_vector)
    ensures
        x >> 0u32 == x,
        x & 0xFFFEu32 == (x % 0x10000) - (x % 2),
        x >> 16u32 == x / 0x10000,
        (x >> 16u32) & 0xFFFFu32 == x / 0x10000,
        x & 0xFFFEu32 < 0x10000,
        (x >> 16u32) & 0xFFFFu32 < 0x10000,
        x < 0x10000 ==> (x & 0x8000u32 != 0 <==> x >= 0x8000),
        (x >> 10u32) & 31u32 == (x / 1024) % 32,
        (x >> 5u32) & 31u32 == (x / 32) % 32,
        (x & 31u32) >> 1u32 == (x % 32) / 2,
        x & 31u32 == x % 32,
        x & 30u32 == x % 32 - x % 2,
        (x >> 8u32) & 0xFu32 == (x / 256) % 16,
        (x >> 4u32) & 0xFu32 == (x / 16) % 16,
        (x & 0xFu32) >> 1u32 == (x % 16) / 2,
        x & 0xFu32 == x % 16,
        (x >> 12u32) & 7u32 == (x / 4096) % 8,
        (x < 32 && x % 2 == 0) ==> x | (x >> 4u32) == x + x / 16,
{
}

/// Dequantize one packed endpoint to RGBA8 and sum `r + g + b + a`.
fn endpoint_l8(endpoints: u32, endpoint_index: u32) -> (l: i32)
    requires
        endpoint_index < 2,
    ensures
        l == endpoint_l8_spec(endpoints, endpoint_index as int),
        0 <= l <= 1020,
{
    let mask = if endpoint_index == 0 { 0xFFFEu32 } else { 0xFFFFu32 };
    let shift: u32 = if endpoint_index != 0 { 16 } else { 0 };
    let packed = (endpoints >> shift) & mask;
    proof {
        lemma_u32_endpoint_fields(endpoints);
        lemma_u32_endpoint_fields(packed);
        assert(packed < 0x10000);
    }
    if packed & 0x8000 != 0 {
        // opaque 554 / 555
        let r = level(5, (packed >> 10) & 31) as i32;
        let g = level(5, (packed >> 5) & 31) as i32;
        let b = if endpoint_index == 0 {
            level(4, (packed & 31) >> 1) as i32
        } else {
            level(5, packed & 31) as i32
        };
        r + g + b + 255
    } else {
        // translucent 3443 / 3444
        let r = level(4, (packed >> 8) & 0xF) as i32;
        let g = level(4, (packed >> 4) & 0xF) as i32;
        let b = if endpoint_index == 0 {
            level(3, (packed & 0xF) >> 1) as i32
        } else {
            level(4, packed & 0xF) as i32
        };
        let a = level(0, (packed >> 12) & 7) as i32;
        r + g + b + a
    }
}

/// Luma of the low (554) endpoint as the sum of its three 5-bit components,
/// the 4-bit blue widened to 5 bits.
pub open spec fn opaque_l0_spec(e: u32) -> int {
    let b0 = e as int % 32 - e as int % 2;
    (e as int / 1024) % 32 + (e as int / 32) % 32 + b0 + b0 / 16
}

/// Luma of the high (555) endpoint, in the same 5-bit-sum units.
pub open spec fn opaque_l1_spec(e: u32) -> int {
    let p = e as int / 0x10000;
    (p / 1024) % 32 + (p / 32) % 32 + p % 32
}

/// Luma of the low (554) endpoint: the sum of its three 5-bit components.
fn opaque_endpoint_l0(endpoints: u32) -> (l: u32)
    ensures
        l == opaque_l0_spec(endpoints),
        l <= 93,
{
    let packed = endpoints;
    let r = (packed >> 10) & 31;
    let g = (packed >> 5) & 31;
    let mut b = packed & 30;
    proof {
        lemma_u32_endpoint_fields(packed);
        lemma_u32_endpoint_fields(b);
    }
    b = b | (b >> 4);
    r + g + b
}

/// Luma of the high (555) endpoint, in the same 5-bit-sum units.
fn opaque_endpoint_l1(endpoints: u32) -> (l: u32)
    ensures
        l == opaque_l1_spec(endpoints),
        l <= 93,
{
    let packed = endpoints >> 16;
    let r = (packed >> 10) & 31;
    let g = (packed >> 5) & 31;
    let b = packed & 31;
    proof {
        lemma_u32_endpoint_fields(endpoints);
        lemma_u32_endpoint_fields(packed);
    }
    r + g + b
}

/// `v & (v - 1)` clears the lowest set bit, so it is zero exactly for powers
/// of two.
proof fn lemma_pow2_bit_trick(v: u32)
    requires
        v > 0,
    ensures
        (v & ((v - 1) as u32)) == 0 <==> is_pow2(v as int),
    decreases v,
{
    if v % 2 == 1 {
        assert((v & ((v - 1) as u32)) == 0 <==> v == 1) by (bit_vector)
            requires
                v % 2 == 1,
        ;
    } else {
        let h = v / 2;
        assert((v & ((v - 1) as u32)) == (h & ((h - 1) as u32)) * 2) by (bit_vector)
            requires
                v % 2 == 0,
                v > 0,
                h == v / 2,
        ;
        lemma_pow2_bit_trick(h);
    }
}

/// Whether `v` is a nonzero power of two.
fn is_pow2_u32(v: u32) -> (r: bool)
    ensures
        r == is_pow2(v as int),
{
    if v == 0 {
        return false;
    }
    proof {
        lemma_pow2_bit_trick(v);
    }
    (v & (v - 1)) == 0
}

/// A power of two times four is a power of two, and back.
proof fn lemma_pow2_times4(n: int)
    requires
        n > 0,
    ensures
        is_pow2(4 * n) == is_pow2(n),
{
    assert(is_pow2(4 * n) == is_pow2(2 * n));
    assert(is_pow2(2 * n) == is_pow2(n));
}

/// The largest luma magnitude the prep stage stores.
pub open spec fn luma_max() -> int {
    0x8000
}

/// The block counts PVRTC1 accepts: power-of-two pixel dimensions.
pub open spec fn pvrtc_dims_ok(nbx: u32, nby: u32) -> bool {
    nbx > 0 && nby > 0 && is_pow2(4 * nbx) && is_pow2(4 * nby)
}

/// The block counts this encoder can address: each side at most 65536
/// blocks, and the block count fits a `u32`.
pub open spec fn pvrtc_dims_in_range(nbx: u32, nby: u32) -> bool {
    nbx <= 0x10000 && nby <= 0x10000 && nbx * nby <= u32::MAX
}

/// Image-global PVRTC1 builder: a prep stage (per-block endpoints + per-block
/// luma source) then a whole-image `apply` emitting the final
/// `num_blocks * 8` buffer.
pub struct Pvrtc1Image {
    /// Image width in 4x4 blocks.
    num_blocks_x: u32,
    /// Image height in 4x4 blocks.
    num_blocks_y: u32,
    /// Per-block packed PVRTC endpoints word (block order `x + y*nbx`).
    endpoints: Vec<u32>,
    /// Per-block per-texel luma source: `(r+g+b) * 16` (RGB path) or
    /// `(r+g+b+a) * 16` (RGBA path).
    luma16: Vec<[i32; 16]>,
    /// Whether this is the RGBA (alpha-aware) path.
    rgba: bool,
}

/// The RGB bounding box of an ETC1S endpoint evaluated at modifier indices
/// `l` and `h` (the block's lowest and highest used selectors).
pub open spec fn bounds5(base: Color32, t: int, l: int, h: int) -> (Color32, Color32) {
    let br = expand5(base.r as int);
    let bg = expand5(base.g as int);
    let bb = expand5(base.b as int);
    (
        Color32 { r: clamp_u8(br + inten(t, l)), g: clamp_u8(bg + inten(t, l)), b: clamp_u8(bb + inten(t, l)), a: 255 },
        Color32 { r: clamp_u8(br + inten(t, h)), g: clamp_u8(bg + inten(t, h)), b: clamp_u8(bb + inten(t, h)), a: 255 },
    )
}

/// The RGB bounding box of an ETC1S endpoint evaluated at the block's low
/// and high used selectors.
fn block_colors5_bounds(base_color5: Color32, inten_table_index: u32, l: u32, h: u32) -> (r: (Color32, Color32))
    requires
        base_color5.r < 32,
        base_color5.g < 32,
        base_color5.b < 32,
        inten_table_index < 8,
        l < 4,
        h < 4,
    ensures
        r == bounds5(base_color5, inten_table_index as int, l as int, h as int),
{
    let br = etc_5_to_8(base_color5.r());
    let bg = etc_5_to_8(base_color5.g());
    let bb = etc_5_to_8(base_color5.b());
    let il = inten_table(inten_table_index as usize, l as usize);
    let ih = inten_table(inten_table_index as usize, h as usize);
    let lo = Color32::new_clamped(br + il, bg + il, bb + il, 255);
    let hi = Color32::new_clamped(br + ih, bg + ih, bb + ih, 255);
    (lo, hi)
}

/// The raw ETC1 selector code (`msb << 1 | lsb`) of texel `(lx, ly)` from the
/// four selector bytes of an ETC1 block (bytes 4..8): the LSB plane lives in
/// bytes 6..8, the MSB plane in bytes 4..6, texel `(x, y)` at bit `4x + y`
/// counted from the last byte.
pub open spec fn etc1_raw_code(bytes: [u8; 4], lx: int, ly: int) -> int {
    let sh = ((lx % 2) * 4 + ly) as u8;
    let lsb = (bytes[3 - lx / 2] >> sh) & 1;
    let msb = (bytes[1 - lx / 2] >> sh) & 1;
    lsb as int + 2 * msb as int
}

/// The modifier index a raw ETC1 selector code stands for.
pub open spec fn etc1_code_to_index(code: int) -> int {
    if code == 0 { 2 } else if code == 1 { 3 } else if code == 2 { 1 } else { 0 }
}

/// The `(r+g+b)*16` luma of one ETC1S texel (unclamped).
pub open spec fn etc1s_texel_luma(ep: Endpoint, sel: Selector, k: int) -> int {
    let by = (expand5(ep.color5.r as int) + expand5(ep.color5.g as int) + expand5(ep.color5.b as int)) * 16;
    by + inten(ep.inten5 as int, etc1_code_to_index(etc1_raw_code(sel.bytes, k % 4, k / 4))) * 48
}

/// Clamp to `[lo, hi]`.
pub open spec fn clampi(v: int, lo: int, hi: int) -> int {
    if v < lo { lo } else if v > hi { hi } else { v }
}

/// The alpha endpoint bounds (at the alpha selector's used range) merged into
/// the color bounding box.
pub open spec fn bounds_rgba_etc1s(ep: Endpoint, sel: Selector, aep: Endpoint, asel: Selector) -> (Color32, Color32) {
    let (lo, hi) = bounds5(ep.color5, ep.inten5 as int, sel.lo_selector as int, sel.hi_selector as int);
    let ag = expand5(aep.color5.g as int);
    let alo = clampi(ag + inten(aep.inten5 as int, asel.lo_selector as int), 0, 255);
    let ahi = clampi(ag + inten(aep.inten5 as int, asel.hi_selector as int), 0, 255);
    (Color32 { a: alo as u8, ..lo }, Color32 { a: ahi as u8, ..hi })
}

/// The combined color + alpha luma of one ETC1S texel on the RGBA path:
/// `clamp(by + inten48[s], 0, 48*255) + clamp(ag*16 + inten16[as], 0, 16*255)`
/// with `s`, `as` the texel's 2-bit modifier indices.
pub open spec fn etc1s_rgba_texel_luma(ep: Endpoint, sel: Selector, aep: Endpoint, asel: Selector, k: int) -> int {
    let lx = k % 4;
    let ly = k / 4;
    let by = (expand5(ep.color5.r as int) + expand5(ep.color5.g as int) + expand5(ep.color5.b as int)) * 16;
    let cs = ((sel.selectors[ly] >> ((lx * 2) as u8)) & 3) as int;
    let as_ = ((asel.selectors[ly] >> ((lx * 2) as u8)) & 3) as int;
    let ag16 = expand5(aep.color5.g as int) * 16;
    clampi(by + inten(ep.inten5 as int, cs) * 48, 0, 12240) + clampi(ag16 + inten(aep.inten5 as int, as_) * 16, 0, 4080)
}

/// The component-wise minimum of `px[0..k]` and opaque white.
pub open spec fn bbox_lo(px: Seq<Color32>, k: int) -> Color32
    decreases k,
{
    if k <= 0 {
        Color32 { r: 255, g: 255, b: 255, a: 255 }
    } else {
        let c = bbox_lo(px, k - 1);
        Color32 {
            r: min_u8(c.r, px[k - 1].r),
            g: min_u8(c.g, px[k - 1].g),
            b: min_u8(c.b, px[k - 1].b),
            a: min_u8(c.a, px[k - 1].a),
        }
    }
}

/// The component-wise maximum of `px[0..k]` and transparent black.
pub open spec fn bbox_hi(px: Seq<Color32>, k: int) -> Color32
    decreases k,
{
    if k <= 0 {
        Color32 { r: 0, g: 0, b: 0, a: 0 }
    } else {
        let c = bbox_hi(px, k - 1);
        Color32 {
            r: max_u8(c.r, px[k - 1].r),
            g: max_u8(c.g, px[k - 1].g),
            b: max_u8(c.b, px[k - 1].b),
            a: max_u8(c.a, px[k - 1].a),
        }
    }
}

/// The bounding box of 16 pixels.
fn pixel_bounds(pixels: &[Color32; 16]) -> (r: (Color32, Color32))
    ensures
        r.0 == bbox_lo(pixels@, 16),
        r.1 == bbox_hi(pixels@, 16),
{
    let mut low = Color32::new(255, 255, 255, 255);
    let mut high = Color32::new(0, 0, 0, 0);
    let mut i: usize = 0;
    while i < 16
        invariant
            i <= 16,
            low == bbox_lo(pixels@, i as int),
            high == bbox_hi(pixels@, i as int),
        decreases 16 - i,
    {
        low = Color32::comp_min(low, pixels[i]);
        high = Color32::comp_max(high, pixels[i]);
        i = i + 1;
    }
    (low, high)
}

/// The alpha-aware endpoints word of an ETC1S color + alpha block.
fn etc1s_rgba_endpoints(ep: &Endpoint, sel: &Selector, alpha_ep: &Endpoint, alpha_sel: &Selector) -> (r: u32)
    requires
        endpoint_wf(*ep),
        selector_wf(*sel),
        endpoint_wf(*alpha_ep),
        selector_wf(*alpha_sel),
    ensures
        r == ({
            let (lo, hi) = bounds_rgba_etc1s(*ep, *sel, *alpha_ep, *alpha_sel);
            endpoints_word_rgba(lo, hi)
        }),
{
    let (low, high) = block_colors5_bounds(
        ep.color5,
        ep.inten5 as u32,
        sel.lo_selector as u32,
        sel.hi_selector as u32,
    );
    let ag = etc_5_to_8(alpha_ep.color5.g());
    let at = alpha_ep.inten5 as usize;
    let alo = clamp_i32(ag + inten_table(at, alpha_sel.lo_selector as usize), 0, 255);
    let ahi = clamp_i32(ag + inten_table(at, alpha_sel.hi_selector as usize), 0, 255);
    let low = Color32::new(low.r() as u32, low.g() as u32, low.b() as u32, alo as u32);
    let high = Color32::new(high.r() as u32, high.g() as u32, high.b() as u32, ahi as u32);
    pack_endpoints_rgba(low, high)
}

/// The per-texel combined color + alpha luma of an ETC1S color + alpha block.
fn etc1s_rgba_luma(ep: &Endpoint, sel: &Selector, alpha_ep: &Endpoint, alpha_sel: &Selector) -> (luma: [i32; 16])
    requires
        endpoint_wf(*ep),
        selector_wf(*sel),
        endpoint_wf(*alpha_ep),
        selector_wf(*alpha_sel),
    ensures
        forall|j: int| 0 <= j < 16 ==> #[trigger] luma[j] == etc1s_rgba_texel_luma(*ep, *sel, *alpha_ep, *alpha_sel, j),
        forall|j: int| 0 <= j < 16 ==> -luma_max() <= #[trigger] luma[j] <= luma_max(),
{
    let ag = etc_5_to_8(alpha_ep.color5.g());
    let at = alpha_ep.inten5 as usize;
    let base_r = etc_5_to_8(ep.color5.r());
    let base_g = etc_5_to_8(ep.color5.g());
    let base_b = etc_5_to_8(ep.color5.b());
    let t = ep.inten5 as usize;
    let by = (base_r + base_g + base_b) * 16;
    let color_y = [
        clamp_i32(by + inten_table(t, 0) * 48, 0, 12240),
        clamp_i32(by + inten_table(t, 1) * 48, 0, 12240),
        clamp_i32(by + inten_table(t, 2) * 48, 0, 12240),
        clamp_i32(by + inten_table(t, 3) * 48, 0, 12240),
    ];
    let alpha_base_g = ag * 16;
    let alpha_y = [
        clamp_i32(alpha_base_g + inten_table(at, 0) * 16, 0, 4080),
        clamp_i32(alpha_base_g + inten_table(at, 1) * 16, 0, 4080),
        clamp_i32(alpha_base_g + inten_table(at, 2) * 16, 0, 4080),
        clamp_i32(alpha_base_g + inten_table(at, 3) * 16, 0, 4080),
    ];
    let mut luma = [0i32; 16];
    let mut k: usize = 0;
    while k < 16
        invariant
            k <= 16,
            t == ep.inten5,
            at == alpha_ep.inten5,
            by == (expand5(ep.color5.r as int) + expand5(ep.color5.g as int) + expand5(ep.color5.b as int)) * 16,
            alpha_base_g == expand5(alpha_ep.color5.g as int) * 16,
            forall|c: int| 0 <= c < 4 ==> #[trigger] color_y[c] == clampi(by + inten(t as int, c) * 48, 0, 12240),
            forall|c: int| 0 <= c < 4 ==> #[trigger] alpha_y[c] == clampi(alpha_base_g + inten(at as int, c) * 16, 0, 4080),
            forall|j: int| 0 <= j < k ==> #[trigger] luma[j] == etc1s_rgba_texel_luma(*ep, *sel, *alpha_ep, *alpha_sel, j),
            forall|j: int| 0 <= j < 16 ==> 0 <= #[trigger] luma[j] <= 16320,
        decreases 16 - k,
    {
        let lx = k % 4;
        let ly = k / 4;
        let crow = sel.selectors[ly];
        let arow = alpha_sel.selectors[ly];
        let sh = (lx * 2) as u8;
        let cs = ((crow >> sh) & 3) as usize;
        let as_ = ((arow >> sh) & 3) as usize;
        proof {
            assert((crow >> sh) & 3 < 4) by (bit_vector);
            assert((arow >> sh) & 3 < 4) by (bit_vector);
        }
        luma[k] = color_y[cs] + alpha_y[as_];
        k = k + 1;
    }
    luma
}

/// The bilinear weight tuple `(lx, ly, w0, w1, w2, w3)` of texel entry `i`:
/// the texel position and the weights of the four window cells, listed
/// sub-quadrant by sub-quadrant.
pub open spec fn do_pix(i: int) -> (int, int, int, int, int, int) {
    if i == 0 { (0, 0, 4, 4, 4, 4) }
    else if i == 1 { (1, 0, 2, 6, 2, 6) }
    else if i == 2 { (0, 1, 2, 2, 6, 6) }
    else if i == 3 { (1, 1, 1, 3, 3, 9) }
    else if i == 4 { (2, 0, 8, 0, 8, 0) }
    else if i == 5 { (3, 0, 6, 2, 6, 2) }
    else if i == 6 { (2, 1, 4, 0, 12, 0) }
    else if i == 7 { (3, 1, 3, 1, 9, 3) }
    else if i == 8 { (0, 2, 8, 8, 0, 0) }
    else if i == 9 { (1, 2, 4, 12, 0, 0) }
    else if i == 10 { (0, 3, 6, 6, 2, 2) }
    else if i == 11 { (1, 3, 3, 9, 1, 3) }
    else if i == 12 { (2, 2, 16, 0, 0, 0) }
    else if i == 13 { (3, 2, 12, 4, 0, 0) }
    else if i == 14 { (2, 3, 12, 0, 4, 0) }
    else { (3, 3, 9, 3, 3, 1) }
}

/// The `(ex, ey)` sub-quadrant of texel entry `i` (groups of four).
pub open spec fn do_pix_quad(i: int) -> (int, int) {
    if i / 4 == 0 { (0, 0) } else if i / 4 == 1 { (1, 0) } else if i / 4 == 2 { (0, 1) } else { (1, 1) }
}

/// The bilinear weight tuple of texel entry `i`.
fn do_pix_entry(i: usize) -> (r: (u32, u32, i32, i32, i32, i32))
    requires
        i < 16,
    ensures
        (r.0 as int, r.1 as int, r.2 as int, r.3 as int, r.4 as int, r.5 as int) == do_pix(i as int),
        r.0 < 4 && r.1 < 4,
        0 <= r.2 && 0 <= r.3 && 0 <= r.4 && 0 <= r.5 && r.2 + r.3 + r.4 + r.5 == 16,
{
    match i {
        0 => (0, 0, 4, 4, 4, 4),
        1 => (1, 0, 2, 6, 2, 6),
        2 => (0, 1, 2, 2, 6, 6),
        3 => (1, 1, 1, 3, 3, 9),
        4 => (2, 0, 8, 0, 8, 0),
        5 => (3, 0, 6, 2, 6, 2),
        6 => (2, 1, 4, 0, 12, 0),
        7 => (3, 1, 3, 1, 9, 3),
        8 => (0, 2, 8, 8, 0, 0),
        9 => (1, 2, 4, 12, 0, 0),
        10 => (0, 3, 6, 6, 2, 2),
        11 => (1, 3, 3, 9, 1, 3),
        12 => (2, 2, 16, 0, 0, 0),
        13 => (3, 2, 12, 4, 0, 0),
        14 => (2, 3, 12, 0, 4, 0),
        _ => (3, 3, 9, 3, 3, 1),
    }
}

/// Map a texel entry index to its `(ex, ey)` sub-quadrant.
fn do_pix_sub_quadrant(i: usize) -> (r: (usize, usize))
    ensures
        (r.0 as int, r.1 as int) == do_pix_quad(i as int),
        r.0 < 2 && r.1 < 2,
{
    match i / 4 {
        0 => (0, 0),
        1 => (1, 0),
        2 => (0, 1),
        _ => (1, 1),
    }
}

/// The bilinear blend of a 3x3 window (cell `(ex, ey)` at `ex * 3 + ey`) at
/// texel entry `i`.
pub open spec fn blend(w: Seq<i32>, i: int) -> int {
    let (lx, ly, w0, w1, w2, w3) = do_pix(i);
    let (ex, ey) = do_pix_quad(i);
    w[ex * 3 + ey] * w0 + w[(ex + 1) * 3 + ey] * w1 + w[ex * 3 + ey + 1] * w2 + w[(ex + 1) * 3 + ey + 1] * w3
}

/// The 2-bit modulation level of a texel with luma `cl` between the blended
/// endpoint lumas `ca` (low) and `cb` (high): thresholds at 3/16, 8/16 and
/// 13/16 of the way.
pub open spec fn mod_level(ca: int, cb: int, cl: int) -> int {
    let dl0 = cb - ca;
    let p0 = (cl - ca) * 16;
    let p = if ca > cb { -p0 } else { p0 };
    let dl = if ca > cb { -dl0 } else { dl0 };
    if p > 13 * dl { 3 } else if p > 8 * dl { 2 } else if p > 3 * dl { 1 } else { 0 }
}

/// The bit position of texel entry `i`'s 2-bit modulation field.
pub open spec fn texel_shift(i: int) -> int {
    do_pix(i).1 * 8 + do_pix(i).0 * 2
}

/// The modulation word over the first `k` texel entries.
pub open spec fn mod_word(w0: Seq<i32>, w1: Seq<i32>, luma: Seq<i32>, k: int) -> u32
    decreases k,
{
    if k <= 0 {
        0
    } else {
        let i = k - 1;
        let (lx, ly, a, b, c, d) = do_pix(i);
        mod_word(w0, w1, luma, i) | ((mod_level(blend(w0, i), blend(w1, i), luma[ly * 4 + lx] as int) as u32)
            << (texel_shift(i) as u32))
    }
}

/// The 2-bit modulation level of one texel.
fn modulation_level(ca: i32, cb: i32, cl: i32) -> (m: u32)
    requires
        0 <= ca <= 16320,
        0 <= cb <= 16320,
        -0x8000 <= cl <= 0x8000,
    ensures
        m == mod_level(ca as int, cb as int, cl as int),
        m < 4,
{
    let mut dl = cb - ca;
    let vl = cl - ca;
    let mut p = vl * 16;
    if ca > cb {
        p = -p;
        dl = -dl;
    }
    let mut m = 0u32;
    if p > 3 * dl {
        m = 1;
    }
    if p > 8 * dl {
        m = 2;
    }
    if p > 13 * dl {
        m = 3;
    }
    m
}

/// The modulation word of one block from its low/high endpoint-luma windows
/// and its per-texel luma.
fn block_modulation(e0: &[i32; 9], e1: &[i32; 9], luma: &[i32; 16]) -> (r: u32)
    requires
        forall|j: int| 0 <= j < 9 ==> 0 <= #[trigger] e0[j] <= 1020,
        forall|j: int| 0 <= j < 9 ==> 0 <= #[trigger] e1[j] <= 1020,
        forall|j: int| 0 <= j < 16 ==> -0x8000 <= #[trigger] luma[j] <= 0x8000,
    ensures
        r == mod_word(e0@, e1@, luma@, 16),
{
    let mut modulation = 0u32;
    let mut i: usize = 0;
    while i < 16
        invariant
            i <= 16,
            forall|j: int| 0 <= j < 9 ==> 0 <= #[trigger] e0[j] <= 1020,
            forall|j: int| 0 <= j < 9 ==> 0 <= #[trigger] e1[j] <= 1020,
            forall|j: int| 0 <= j < 16 ==> -0x8000 <= #[trigger] luma[j] <= 0x8000,
            modulation == mod_word(e0@, e1@, luma@, i as int),
        decreases 16 - i,
    {
        let (lx, ly, w0, w1, w2, w3) = do_pix_entry(i);
        let (ex, ey) = do_pix_sub_quadrant(i);
        let a0 = e0[ex * 3 + ey];
        let a1 = e0[(ex + 1) * 3 + ey];
        let a2 = e0[ex * 3 + ey + 1];
        let a3 = e0[(ex + 1) * 3 + ey + 1];
        let b0 = e1[ex * 3 + ey];
        let b1 = e1[(ex + 1) * 3 + ey];
        let b2 = e1[ex * 3 + ey + 1];
        let b3 = e1[(ex + 1) * 3 + ey + 1];
        proof {
            assert(0 <= a0 * w0 + a1 * w1 + a2 * w2 + a3 * w3 <= 16320) by (nonlinear_arith)
                requires
                    0 <= a0 <= 1020,
                    0 <= a1 <= 1020,
                    0 <= a2 <= 1020,
                    0 <= a3 <= 1020,
                    0 <= w0,
                    0 <= w1,
                    0 <= w2,
                    0 <= w3,
                    w0 + w1 + w2 + w3 == 16,
            ;
            assert(0 <= b0 * w0 + b1 * w1 + b2 * w2 + b3 * w3 <= 16320) by (nonlinear_arith)
                requires
                    0 <= b0 <= 1020,
                    0 <= b1 <= 1020,
                    0 <= b2 <= 1020,
                    0 <= b3 <= 1020,
                    0 <= w0,
                    0 <= w1,
                    0 <= w2,
                    0 <= w3,
                    w0 + w1 + w2 + w3 == 16,
            ;
        }
        let ca_l = a0 * w0 + a1 * w1 + a2 * w2 + a3 * w3;
        let cb_l = b0 * w0 + b1 * w1 + b2 * w2 + b3 * w3;
        let cl = luma[(ly * 4 + lx) as usize];
        let shift = ly * 8 + lx * 2;
        let m = modulation_level(ca_l, cb_l, cl) << shift;
        modulation = modulation | m;
        i = i + 1;
    }
    modulation
}

/// Endpoint-luma of an endpoints word in the sliding window: the opaque
/// 5-bit-sum luma scaled by 255/31 (RGB), or the 4-component sum (RGBA).
pub open spec fn window_lum(e: u32, rgba: bool, endpoint_index: int) -> int {
    if rgba {
        endpoint_l8_spec(e, endpoint_index)
    } else if endpoint_index == 0 {
        opaque_l0_spec(e) * 255 / 31
    } else {
        opaque_l1_spec(e) * 255 / 31
    }
}

/// Window luma of one endpoints word.
fn win_lum(e: u32, rgba: bool, endpoint_index: u32) -> (r: i32)
    requires
        endpoint_index < 2,
    ensures
        r == window_lum(e, rgba, endpoint_index as int),
        0 <= r <= 1020,
{
    if rgba {
        endpoint_l8(e, endpoint_index)
    } else if endpoint_index == 0 {
        (opaque_endpoint_l0(e) * 255 / 31) as i32
    } else {
        (opaque_endpoint_l1(e) * 255 / 31) as i32
    }
}

/// The index of the block at `(x + ex - 1, y + ey - 1)`, wrapping around the
/// image edges.
pub open spec fn neighbor(nbx: int, nby: int, x: int, y: int, ex: int, ey: int) -> int {
    ((y + ey + nby - 1) % nby) * nbx + (x + ex + nbx - 1) % nbx
}

/// The 3x3 window of endpoint lumas around block `(x, y)`, cell `(ex, ey)`
/// at `ex * 3 + ey`.
#[verifier::opaque]
pub open spec fn window(ep: Seq<u32>, rgba: bool, nbx: int, nby: int, x: int, y: int, endpoint_index: int) -> Seq<i32> {
    Seq::new(9, |j: int| window_lum(ep[neighbor(nbx, nby, x, y, j / 3, j % 3)], rgba, endpoint_index) as i32)
}

/// Byte `k` (0..4) of `v` in little-endian order.
pub open spec fn le_byte(v: u32, k: int) -> u8 {
    if k == 0 {
        (v % 0x100) as u8
    } else if k == 1 {
        ((v / 0x100) % 0x100) as u8
    } else if k == 2 {
        ((v / 0x10000) % 0x100) as u8
    } else {
        (v / 0x1000000) as u8
    }
}

/// The shorter image side's bit count: `2^m` is the smaller block count.
pub open spec fn min_side_bits(nbx: int, nby: int) -> nat {
    bit_len(((if nbx <= nby { nbx } else { nby }) - 1) as nat)
}

/// The modulation word PVRTC1 stores for block `(x, y)`.
#[verifier::opaque]
pub open spec fn block_mod_word(ep: Seq<u32>, luma: Seq<Seq<i32>>, rgba: bool, nbx: int, nby: int, x: int, y: int) -> u32 {
    mod_word(window(ep, rgba, nbx, nby, x, y, 0), window(ep, rgba, nbx, nby, x, y, 1), luma[y * nbx + x], 16)
}

/// Block `(x, y)`'s 8 output bytes sit at its twiddled slot: the modulation
/// word, then its endpoints word, both little-endian.
#[verifier::opaque]
pub open spec fn block_written(out: Seq<u8>, ep: Seq<u32>, luma: Seq<Seq<i32>>, rgba: bool, nbx: int, nby: int, x: int, y: int) -> bool {
    let d = 8 * swz(x as nat, y as nat, min_side_bits(nbx, nby));
    let mw = block_mod_word(ep, luma, rgba, nbx, nby, x, y);
    let e = ep[y * nbx + x];
    forall|k: int| 0 <= k < 4 ==> out[d + k] == le_byte(mw, k) && out[d + 4 + k] == le_byte(e, k)
}

/// The whole PVRTC1 image: `nbx * nby` 8-byte blocks, every block at its
/// twiddled slot.
pub open spec fn pvrtc_output(out: Seq<u8>, ep: Seq<u32>, luma: Seq<Seq<i32>>, rgba: bool, nbx: int, nby: int) -> bool {
    &&& out.len() == nbx * nby * 8
    &&& forall|x: int, y: int| 0 <= x < nbx && 0 <= y < nby ==> #[trigger] block_written(out, ep, luma, rgba, nbx, nby, x, y)
}

/// Block `(x, y)`'s index lies below the block count.
proof fn lemma_block_index_in_range(nbx: int, nby: int, x: int, y: int)
    requires
        0 <= x < nbx,
        0 <= y < nby,
    ensures
        y * nbx + x < nbx * nby,
        0 <= y * nbx + x,
{
    assert(y * nbx + x < nbx * nby) by (nonlinear_arith)
        requires
            0 <= x < nbx,
            0 <= y < nby,
    ;
    assert(0 <= y * nbx) by (nonlinear_arith)
        requires
            0 <= x < nbx,
            0 <= y,
    ;
}

/// A written block stays written when only another block's 8 bytes change.
proof fn lemma_block_kept(before: Seq<u8>, after: Seq<u8>, ep: Seq<u32>, luma: Seq<Seq<i32>>, rgba: bool, nbx: int, nby: int, x: int, y: int, d: int)
    requires
        block_written(before, ep, luma, rgba, nbx, nby, x, y),
        after.len() == before.len(),
        d % 8 == 0,
        d != 8 * swz(x as nat, y as nat, min_side_bits(nbx, nby)),
        8 * swz(x as nat, y as nat, min_side_bits(nbx, nby)) + 8 <= before.len(),
        forall|i: int| 0 <= i < before.len() && !(d <= i < d + 8) ==> after[i] == before[i],
    ensures
        block_written(after, ep, luma, rgba, nbx, nby, x, y),
{
    reveal(block_written);
    let e = 8 * swz(x as nat, y as nat, min_side_bits(nbx, nby));
    assert forall|k: int| 0 <= k < 8 implies #[trigger] after[e + k] == before[e + k] by {
        assert(!(d <= e + k < d + 8));
    }
    assert forall|k: int| 0 <= k < 4 implies #[trigger] after[e + 4 + k] == before[e + 4 + k] by {
        assert(after[e + (4 + k)] == before[e + (4 + k)]);
    }
}

/// Writing block `(x, y)`'s words at its twiddled slot writes the block.
proof fn lemma_block_emitted(before: Seq<u8>, after: Seq<u8>, ep: Seq<u32>, luma: Seq<Seq<i32>>, rgba: bool, nbx: int, nby: int,
    x: int, y: int, dst: int, mw: u32, e: u32)
    requires
        dst == 8 * swz(x as nat, y as nat, min_side_bits(nbx, nby)),
        mw == block_mod_word(ep, luma, rgba, nbx, nby, x, y),
        e == ep[y * nbx + x],
        forall|k: int| 0 <= k < 4 ==> after[dst + k] == le_byte(mw, k) && after[dst + 4 + k] == le_byte(e, k),
    ensures
        block_written(after, ep, luma, rgba, nbx, nby, x, y),
{
    reveal(block_written);
}

/// Moving one block right shifts the window one column left.
proof fn lemma_window_shift(ep: Seq<u32>, rgba: bool, nbx: int, nby: int, x: int, y: int, endpoint_index: int, j: int)
    requires
        0 <= j < 6,
    ensures
        window(ep, rgba, nbx, nby, x + 1, y, endpoint_index)[j] == window(ep, rgba, nbx, nby, x, y, endpoint_index)[j + 3],
{
    reveal(window);
    assert((j + 3) / 3 == j / 3 + 1 && (j + 3) % 3 == j % 3);
}

/// Slide a 3x3 window one column left (cells `3..9` move to `0..6`).
fn slide_window(w: &mut [i32; 9])
    ensures
        forall|j: int| 0 <= j < 6 ==> final(w)[j] == old(w)[j + 3],
        forall|j: int| 6 <= j < 9 ==> final(w)[j] == old(w)[j],
{
    w[0] = w[3];
    w[1] = w[4];
    w[2] = w[5];
    w[3] = w[6];
    w[4] = w[7];
    w[5] = w[8];
}

/// Write one block's 8 bytes at `dst`.
fn write_block(out: &mut [u8], dst: usize, mw: u32, e: u32)
    requires
        dst + 8 <= old(out)@.len(),
    ensures
        final(out)@.len() == old(out)@.len(),
        forall|i: int| 0 <= i < old(out)@.len() && !(dst <= i < dst + 8) ==> final(out)@[i] == old(out)@[i],
        forall|k: int| 0 <= k < 4 ==> final(out)@[dst + k] == le_byte(mw, k) && final(out)@[dst + 4 + k] == le_byte(e, k),
{
    out[dst] = (mw % 0x100) as u8;
    out[dst + 1] = ((mw / 0x100) % 0x100) as u8;
    out[dst + 2] = ((mw / 0x10000) % 0x100) as u8;
    out[dst + 3] = (mw / 0x1000000) as u8;
    out[dst + 4] = (e % 0x100) as u8;
    out[dst + 5] = ((e / 0x100) % 0x100) as u8;
    out[dst + 6] = ((e / 0x10000) % 0x100) as u8;
    out[dst + 7] = (e / 0x1000000) as u8;
}

impl Pvrtc1Image {
    /// The image invariant: power-of-two block counts and one endpoints word
    /// and one bounded luma block per block.
    pub closed spec fn wf(&self) -> bool {
        let n = self.num_blocks_x * self.num_blocks_y;
        &&& pvrtc_dims_ok(self.num_blocks_x, self.num_blocks_y)
        &&& pvrtc_dims_in_range(self.num_blocks_x, self.num_blocks_y)
        &&& self.endpoints@.len() == n
        &&& self.luma16@.len() == n
        &&& forall|b: int, k: int| 0 <= b < n && 0 <= k < 16 ==> -luma_max() <= #[trigger] self.luma16@[b][k] <= luma_max()
    }

    /// Width in blocks.
    pub closed spec fn nbx(&self) -> u32 {
        self.num_blocks_x
    }

    /// Height in blocks.
    pub closed spec fn nby(&self) -> u32 {
        self.num_blocks_y
    }

    /// Whether this is the RGBA path.
    pub closed spec fn is_rgba(&self) -> bool {
        self.rgba
    }

    /// Per-block endpoints words.
    pub closed spec fn endpoint_words(&self) -> Seq<u32> {
        self.endpoints@
    }

    /// Per-block luma blocks.
    pub closed spec fn luma_blocks(&self) -> Seq<[i32; 16]> {
        self.luma16@
    }

    /// PVRTC1 requires power-of-two pixel dimensions; returns `None` otherwise
    /// (and for a zero block count).
    pub fn new(num_blocks_x: u32, num_blocks_y: u32, rgba: bool) -> (r: Option<Self>)
        requires
            pvrtc_dims_in_range(num_blocks_x, num_blocks_y),
        ensures
            r is Some <==> pvrtc_dims_ok(num_blocks_x, num_blocks_y),
            r matches Some(img) ==> {
                &&& img.wf()
                &&& img.nbx() == num_blocks_x
                &&& img.nby() == num_blocks_y
                &&& img.is_rgba() == rgba
                &&& forall|b: int| 0 <= b < img.endpoint_words().len() ==> img.endpoint_words()[b] == 0
                &&& forall|b: int, k: int| 0 <= b < img.luma_blocks().len() && 0 <= k < 16 ==> #[trigger] img.luma_blocks()[b][k] == 0
            },
    {
        if num_blocks_x == 0 || num_blocks_y == 0 {
            return None;
        }
        if !is_pow2_u32(num_blocks_x * 4) || !is_pow2_u32(num_blocks_y * 4) {
            return None;
        }
        let n = (num_blocks_x * num_blocks_y) as usize;
        let mut endpoints: Vec<u32> = Vec::new();
        let mut luma16: Vec<[i32; 16]> = Vec::new();
        let mut i: usize = 0;
        while i < n
            invariant
                i <= n,
                endpoints@.len() == i,
                luma16@.len() == i,
                forall|b: int| 0 <= b < i ==> endpoints@[b] == 0,
                forall|b: int, k: int| 0 <= b < i && 0 <= k < 16 ==> #[trigger] luma16@[b][k] == 0,
            decreases n - i,
        {
            endpoints.push(0u32);
            luma16.push([0i32; 16]);
            i = i + 1;
        }
        Some(Self { num_blocks_x, num_blocks_y, endpoints, luma16, rgba })
    }

    /// Per-block luma blocks as sequences.
    pub closed spec fn luma_seq(&self) -> Seq<Seq<i32>> {
        self.luma16@.map(|b: int, a: [i32; 16]| a@)
    }

    /// The endpoints word of block `(xw, yw)`.
    fn block_at(&self, xw: u32, yw: u32) -> (e: u32)
        requires
            self.wf(),
            xw < self.nbx(),
            yw < self.nby(),
        ensures
            e == self.endpoint_words()[yw * self.nbx() + xw],
    {
        proof {
            lemma_block_index_in_range(self.num_blocks_x as int, self.num_blocks_y as int, xw as int, yw as int);
        }
        self.endpoints[yw as usize * self.num_blocks_x as usize + xw as usize]
    }

    /// Refill window column `ex` (cells `3ex..3ex+3`) for block `(x, y)`.
    fn fill_column(&self, e0: &mut [i32; 9], e1: &mut [i32; 9], x: u32, y: u32, ex: u32)
        requires
            self.wf(),
            x < self.nbx(),
            y < self.nby(),
            ex < 3,
            forall|j: int| 0 <= j < 9 ==> 0 <= #[trigger] old(e0)[j] <= 1020,
            forall|j: int| 0 <= j < 9 ==> 0 <= #[trigger] old(e1)[j] <= 1020,
        ensures
            forall|j: int| 0 <= j < 9 ==> 0 <= #[trigger] final(e0)[j] <= 1020,
            forall|j: int| 0 <= j < 9 ==> 0 <= #[trigger] final(e1)[j] <= 1020,
            forall|j: int| 0 <= j < 9 && j / 3 != ex ==> final(e0)[j] == old(e0)[j],
            forall|j: int| 0 <= j < 9 && j / 3 != ex ==> final(e1)[j] == old(e1)[j],
            forall|j: int| 0 <= j < 9 && j / 3 == ex ==> final(e0)[j] == #[trigger] window(self.endpoint_words(), self.is_rgba(), self.nbx() as int, self.nby() as int, x as int, y as int, 0)[j],
            forall|j: int| 0 <= j < 9 && j / 3 == ex ==> final(e1)[j] == #[trigger] window(self.endpoint_words(), self.is_rgba(), self.nbx() as int, self.nby() as int, x as int, y as int, 1)[j],
    {
        reveal(window);
        let nbx = self.num_blocks_x;
        let nby = self.num_blocks_y;
        let xw = (x + ex + nbx - 1) % nbx;
        let mut ey: u32 = 0;
        while ey < 3
            invariant
                self.wf(),
                nbx == self.num_blocks_x,
                nby == self.num_blocks_y,
                x < nbx,
                y < nby,
                ex < 3,
                xw == (x + ex + nbx - 1) % (nbx as int),
                ey <= 3,
                forall|j: int| 0 <= j < 9 ==> 0 <= #[trigger] e0[j] <= 1020,
                forall|j: int| 0 <= j < 9 ==> 0 <= #[trigger] e1[j] <= 1020,
                forall|j: int| 0 <= j < 9 && (j / 3 != ex || j % 3 >= ey) ==> e0[j] == old(e0)[j],
                forall|j: int| 0 <= j < 9 && (j / 3 != ex || j % 3 >= ey) ==> e1[j] == old(e1)[j],
                forall|j: int| 0 <= j < 9 && j / 3 == ex && j % 3 < ey ==> e0[j] == #[trigger] window(self.endpoint_words(), self.is_rgba(), nbx as int, nby as int, x as int, y as int, 0)[j],
                forall|j: int| 0 <= j < 9 && j / 3 == ex && j % 3 < ey ==> e1[j] == #[trigger] window(self.endpoint_words(), self.is_rgba(), nbx as int, nby as int, x as int, y as int, 1)[j],
            decreases 3 - ey,
        {
            let yw = (y + ey + nby - 1) % nby;
            let e = self.block_at(xw, yw);
            let j = (ex * 3 + ey) as usize;
            proof {
                reveal(window);
                assert(j / 3 == ex && j % 3 == ey);
                assert(neighbor(nbx as int, nby as int, x as int, y as int, ex as int, ey as int) == yw * nbx + xw);
            }
            e0[j] = win_lum(e, self.rgba, 0);
            e1[j] = win_lum(e, self.rgba, 1);
            ey = ey + 1;
        }
    }

    /// The modulation word of block `(x, y)` (index `block_index`) from its
    /// full windows.
    fn block_word(&self, x: u32, y: u32, block_index: usize, e0: &[i32; 9], e1: &[i32; 9]) -> (mw: u32)
        requires
            self.wf(),
            x < self.nbx(),
            y < self.nby(),
            block_index == y * self.nbx() + x,
            e0@ == window(self.endpoint_words(), self.is_rgba(), self.nbx() as int, self.nby() as int, x as int, y as int, 0),
            e1@ == window(self.endpoint_words(), self.is_rgba(), self.nbx() as int, self.nby() as int, x as int, y as int, 1),
            forall|j: int| 0 <= j < 9 ==> 0 <= #[trigger] e0[j] <= 1020,
            forall|j: int| 0 <= j < 9 ==> 0 <= #[trigger] e1[j] <= 1020,
        ensures
            mw == block_mod_word(self.endpoint_words(), self.luma_seq(), self.is_rgba(), self.nbx() as int, self.nby() as int, x as int, y as int),
    {
        proof {
            lemma_block_index_in_range(self.num_blocks_x as int, self.num_blocks_y as int, x as int, y as int);
        }
        let lb = &self.luma16[block_index];
        proof {
            assert(lb@ == self.luma_seq()[block_index as int]);
            assert forall|j: int| 0 <= j < 16 implies -0x8000 <= #[trigger] lb[j] <= 0x8000 by {
                assert(lb[j] == self.luma16@[block_index as int][j]);
            }
        }
        proof {
            reveal(block_mod_word);
        }
        block_modulation(e0, e1, lb)
    }

    /// Emit block `(x, y)` (index `block_index`) from its full windows.
    fn emit_block(&self, out: &mut [u8], x: u32, y: u32, block_index: usize, min_bits: u32, e0: &[i32; 9], e1: &[i32; 9])
        requires
            self.wf(),
            x < self.nbx(),
            y < self.nby(),
            block_index == y * self.nbx() + x,
            min_bits == min_side_bits(self.nbx() as int, self.nby() as int),
            min_bits <= 16,
            p2(min_bits as nat) == (if self.nbx() <= self.nby() { self.nbx() } else { self.nby() }),
            self.nbx() as nat % p2(min_bits as nat) == 0,
            self.nby() as nat % p2(min_bits as nat) == 0,
            old(out)@.len() == self.nbx() * self.nby() * 8,
            e0@ == window(self.endpoint_words(), self.is_rgba(), self.nbx() as int, self.nby() as int, x as int, y as int, 0),
            e1@ == window(self.endpoint_words(), self.is_rgba(), self.nbx() as int, self.nby() as int, x as int, y as int, 1),
            forall|j: int| 0 <= j < 9 ==> 0 <= #[trigger] e0[j] <= 1020,
            forall|j: int| 0 <= j < 9 ==> 0 <= #[trigger] e1[j] <= 1020,
        ensures
            final(out)@.len() == old(out)@.len(),
            block_written(final(out)@, self.endpoint_words(), self.luma_seq(), self.is_rgba(), self.nbx() as int, self.nby() as int, x as int, y as int),
            forall|i: int| 0 <= i < old(out)@.len() && !(8 * swz(x as nat, y as nat, min_bits as nat) <= i < 8 * swz(x as nat, y as nat, min_bits as nat) + 8)
                ==> final(out)@[i] == old(out)@[i],
    {
        let mw = self.block_word(x, y, block_index, e0, e1);
        let endpoints_word = self.block_at(x, y);
        let sw = swizzle(x, y, min_bits);
        proof {
            lemma_swz_in_range_and_distinct(self.num_blocks_x as nat, self.num_blocks_y as nat, min_bits as nat, x as nat, y as nat, x as nat, y as nat);
        }
        let olen = out.len();
        proof {
            assert(sw < self.nbx() * self.nby());
            assert(sw * 8 + 8 <= olen);
        }
        let dst = (sw * 8) as usize;
        let ghost before = out@;
        write_block(out, dst, mw, endpoints_word);
        proof {
            assert(dst == 8 * swz(x as nat, y as nat, min_bits as nat));
        }
        proof {
            lemma_block_emitted(before, out@, self.endpoint_words(), self.luma_seq(), self.is_rgba(),
                self.nbx() as int, self.nby() as int, x as int, y as int, dst as int, mw, endpoints_word);
        }
    }

    /// The whole-image apply/modulation pass: for each block, bilinearly blend
    /// the 3x3 neighborhood's endpoint lumas at every texel and pick its 2-bit
    /// modulation level. Writes the final `num_blocks * 8` twiddled buffer
    /// into `out`; `None` (with `out` untouched) when `out` has another size.
    pub fn apply(&self, out: &mut [u8]) -> (r: Option<()>)
        requires
            self.wf(),
        ensures
            r is Some <==> old(out)@.len() == self.nbx() * self.nby() * 8,
            r is None ==> final(out)@ == old(out)@,
            r is Some ==> pvrtc_output(final(out)@, self.endpoint_words(), self.luma_seq(), self.is_rgba(),
                self.nbx() as int, self.nby() as int),
    {
        let nbx = self.num_blocks_x;
        let nby = self.num_blocks_y;
        let n = (nbx * nby) as usize;
        if out.len() as u64 != (n as u64) * 8 {
            return None;
        }
        let x_bits = total_bits(nbx - 1);
        let y_bits = total_bits(nby - 1);
        let min_bits = if x_bits < y_bits { x_bits } else { y_bits };
        let ghost mb = min_side_bits(nbx as int, nby as int);
        proof {
            lemma_pow2_times4(nbx as int);
            lemma_pow2_times4(nby as int);
            lemma_pow2_bit_len(nbx as int);
            lemma_pow2_bit_len(nby as int);
            if x_bits < y_bits {
                lemma_p2_divides(x_bits as nat, y_bits as nat);
                swizzle::lemma_p2_mono((x_bits + 1) as nat, y_bits as nat);
            } else {
                lemma_p2_divides(y_bits as nat, x_bits as nat);
                if x_bits > y_bits {
                    swizzle::lemma_p2_mono((y_bits + 1) as nat, x_bits as nat);
                }
            }
            assert(min_bits == mb);
            assert(min_bits <= 16) by {
                reveal_with_fuel(p2, 18);
                if min_bits > 16 {
                    swizzle::lemma_p2_mono(17, min_bits as nat);
                }
            }
        }
        let ghost ep = self.endpoint_words();
        let ghost luma = self.luma_seq();
        let ghost rgba = self.is_rgba();

        // Every output block is overwritten below; start from zero.
        let mut i: usize = 0;
        while i < out.len()
            invariant
                out@.len() == n * 8,
            decreases out@.len() - i,
        {
            out[i] = 0;
            i = i + 1;
        }

        let mut e0 = [0i32; 9];
        let mut e1 = [0i32; 9];
        let mut block_index: usize = 0;
        let mut y: u32 = 0;
        while y < nby
            invariant
                self.wf(),
                nbx == self.num_blocks_x,
                nby == self.num_blocks_y,
                n == nbx * nby,
                ep == self.endpoints@,
                luma == self.luma_seq(),
                rgba == self.rgba,
                min_bits == mb,
                mb == min_side_bits(nbx as int, nby as int),
                min_bits <= 16,
                p2(mb) == (if nbx <= nby { nbx } else { nby }),
                nbx as nat % p2(mb) == 0,
                nby as nat % p2(mb) == 0,
                out@.len() == n * 8,
                y <= nby,
                block_index == y * nbx,
                forall|j: int| 0 <= j < 9 ==> 0 <= #[trigger] e0[j] <= 1020,
                forall|j: int| 0 <= j < 9 ==> 0 <= #[trigger] e1[j] <= 1020,
                forall|xx: int, yy: int| 0 <= xx < nbx && 0 <= yy < y ==> #[trigger] block_written(out@, ep, luma, rgba, nbx as int, nby as int, xx, yy),
            decreases nby - y,
        {
            // Seed the window columns ex = 0 and ex = 1 at the row start.
            self.fill_column(&mut e0, &mut e1, 0, y, 0);
            let ghost f0 = e0@;
            let ghost f1 = e1@;
            self.fill_column(&mut e0, &mut e1, 0, y, 1);
            proof {
                assert forall|j: int| 0 <= j < 6 implies e0[j] == #[trigger] window(ep, rgba, nbx as int, nby as int, 0, y as int, 0)[j] by {
                    if j / 3 == 0 {
                        assert(e0[j] == f0[j]);
                        assert(f0[j] == window(self.endpoint_words(), self.is_rgba(), self.nbx() as int, self.nby() as int, 0, y as int, 0)[j]);
                    } else {
                        assert(e0[j] == window(self.endpoint_words(), self.is_rgba(), self.nbx() as int, self.nby() as int, 0, y as int, 0)[j]);
                    }
                }
                assert forall|j: int| 0 <= j < 6 implies e1[j] == #[trigger] window(ep, rgba, nbx as int, nby as int, 0, y as int, 1)[j] by {
                    if j / 3 == 0 {
                        assert(e1[j] == f1[j]);
                        assert(f1[j] == window(self.endpoint_words(), self.is_rgba(), self.nbx() as int, self.nby() as int, 0, y as int, 1)[j]);
                    } else {
                        assert(e1[j] == window(self.endpoint_words(), self.is_rgba(), self.nbx() as int, self.nby() as int, 0, y as int, 1)[j]);
                    }
                }
            }

            let mut x: u32 = 0;
            while x < nbx
                invariant
                    self.wf(),
                    nbx == self.num_blocks_x,
                    nby == self.num_blocks_y,
                    n == nbx * nby,
                    ep == self.endpoints@,
                    luma == self.luma_seq(),
                    rgba == self.rgba,
                    min_bits == mb,
                    mb == min_side_bits(nbx as int, nby as int),
                    min_bits <= 16,
                    p2(mb) == (if nbx <= nby { nbx } else { nby }),
                    nbx as nat % p2(mb) == 0,
                    nby as nat % p2(mb) == 0,
                    out@.len() == n * 8,
                    y < nby,
                    x <= nbx,
                    block_index == y * nbx + x,
                    forall|j: int| 0 <= j < 6 ==> e0[j] == #[trigger] window(ep, rgba, nbx as int, nby as int, x as int, y as int, 0)[j],
                    forall|j: int| 0 <= j < 6 ==> e1[j] == #[trigger] window(ep, rgba, nbx as int, nby as int, x as int, y as int, 1)[j],
                    forall|j: int| 0 <= j < 9 ==> 0 <= #[trigger] e0[j] <= 1020,
                    forall|j: int| 0 <= j < 9 ==> 0 <= #[trigger] e1[j] <= 1020,
                    forall|xx: int, yy: int| 0 <= xx < nbx && 0 <= yy < nby && (yy < y || (yy == y && xx < x)) ==> #[trigger] block_written(out@, ep, luma, rgba, nbx as int, nby as int, xx, yy),
                decreases nbx - x,
            {
                // Fill the trailing column (ex = 2) of the sliding window.
                let ghost g0 = e0@;
                let ghost g1 = e1@;
                self.fill_column(&mut e0, &mut e1, x, y, 2);
                proof {
                    assert forall|j: int| 0 <= j < 9 implies e0@[j] == #[trigger] window(ep, rgba, nbx as int, nby as int, x as int, y as int, 0)[j] by {
                        if j / 3 != 2 {
                            assert(e0[j] == g0[j]);
                        } else {
                            assert(e0[j] == window(self.endpoint_words(), self.is_rgba(), self.nbx() as int, self.nby() as int, x as int, y as int, 0)[j]);
                        }
                    }
                    assert forall|j: int| 0 <= j < 9 implies e1@[j] == #[trigger] window(ep, rgba, nbx as int, nby as int, x as int, y as int, 1)[j] by {
                        if j / 3 != 2 {
                            assert(e1[j] == g1[j]);
                        } else {
                            assert(e1[j] == window(self.endpoint_words(), self.is_rgba(), self.nbx() as int, self.nby() as int, x as int, y as int, 1)[j]);
                        }
                    }
                    reveal(window);
                    assert(e0@ =~= window(ep, rgba, nbx as int, nby as int, x as int, y as int, 0));
                    assert(e1@ =~= window(ep, rgba, nbx as int, nby as int, x as int, y as int, 1));
                }
                let ghost before = out@;
                proof {
                    assert(min_side_bits(self.nbx() as int, self.nby() as int) == mb);
                }
                self.emit_block(out, x, y, block_index, min_bits, &e0, &e1);
                proof {
                    assert forall|xx: int, yy: int| 0 <= xx < nbx && 0 <= yy < nby && (yy < y || (yy == y && xx < x + 1))
                        implies #[trigger] block_written(out@, ep, luma, rgba, nbx as int, nby as int, xx, yy) by {
                        if xx != x || yy != y {
                            lemma_swz_in_range_and_distinct(nbx as nat, nby as nat, mb, xx as nat, yy as nat, x as nat, y as nat);
                            lemma_block_kept(before, out@, ep, luma, rgba, nbx as int, nby as int, xx, yy, (8 * swz(x as nat, y as nat, mb)) as int);
                        }
                    }
                }

                // Slide the window left by one column.
                let ghost w0_old = e0@;
                let ghost w1_old = e1@;
                slide_window(&mut e0);
                slide_window(&mut e1);
                proof {
                    assert forall|j: int| 0 <= j < 6 implies e0[j] == #[trigger] window(ep, rgba, nbx as int, nby as int, x + 1, y as int, 0)[j] by {
                        lemma_window_shift(ep, rgba, nbx as int, nby as int, x as int, y as int, 0, j);
                    }
                    assert forall|j: int| 0 <= j < 6 implies e1[j] == #[trigger] window(ep, rgba, nbx as int, nby as int, x + 1, y as int, 1)[j] by {
                        lemma_window_shift(ep, rgba, nbx as int, nby as int, x as int, y as int, 1, j);
                    }
                }
                proof {
                    lemma_block_index_in_range(nbx as int, nby as int, x as int, y as int);
                }
                x = x + 1;
                block_index = block_index + 1;
            }
            proof {
                assert(block_index == (y + 1) * nbx) by (nonlinear_arith)
                    requires
                        block_index == y * nbx + x,
                        x == nbx,
                ;
            }
            y = y + 1;
        }
        Some(())
    }

    /// The block `b`'s endpoints word and luma were replaced, nothing else.
    pub closed spec fn set_block(&self, old: &Pvrtc1Image, b: int, ew: int, luma: spec_fn(int) -> int) -> bool {
        &&& self.wf()
        &&& self.num_blocks_x == old.num_blocks_x
        &&& self.num_blocks_y == old.num_blocks_y
        &&& self.rgba == old.rgba
        &&& self.endpoints@ == old.endpoints@.update(b, ew as u32)
        &&& self.luma16@.len() == old.luma16@.len()
        &&& forall|c: int| 0 <= c < self.luma16@.len() && c != b ==> self.luma16@[c] == old.luma16@[c]
        &&& forall|k: int| 0 <= k < 16 ==> #[trigger] self.luma16@[b][k] == luma(k)
    }

    /// Store block `b`'s endpoints word and luma.
    fn store_block(&mut self, b: usize, ew: u32, luma: [i32; 16])
        requires
            old(self).wf(),
            b < old(self).endpoints@.len(),
            forall|k: int| 0 <= k < 16 ==> -luma_max() <= #[trigger] luma[k] <= luma_max(),
        ensures
            final(self).set_block(old(self), b as int, ew as int, |k: int| luma[k] as int),
    {
        self.endpoints.set(b, ew);
        self.luma16.set(b, luma);
        proof {
            let n = self.num_blocks_x * self.num_blocks_y;
            assert forall|c: int, k: int| 0 <= c < n && 0 <= k < 16 implies -luma_max() <= #[trigger] self.luma16@[c][k] <= luma_max() by {
                if c != b {
                    assert(self.luma16@[c] == old(self).luma16@[c]);
                }
            }
        }
    }

    /// Prep one ETC1S block: stash its bounding-box endpoints and the per-texel
    /// luma recovered from the block's ETC1-encoded selector bytes.
    fn prep_etc1s(&mut self, block_index: usize, ep: &Endpoint, sel: &Selector)
        requires
            old(self).wf(),
            block_index < old(self).endpoint_words().len(),
            endpoint_wf(*ep),
            selector_wf(*sel),
        ensures
            final(self).set_block(
                old(self),
                block_index as int,
                ({
                    let (lo, hi) = bounds5(ep.color5, ep.inten5 as int, sel.lo_selector as int, sel.hi_selector as int);
                    endpoints_word(lo, hi)
                }),
                |k: int| etc1s_texel_luma(*ep, *sel, k),
            ),
    {
        let (low, high) = block_colors5_bounds(
            ep.color5,
            ep.inten5 as u32,
            sel.lo_selector as u32,
            sel.hi_selector as u32,
        );
        let ew = pack_endpoints(low, high);

        // The four candidate lumas, one per raw ETC1 selector code: the base
        // luma plus the intensity modifier scaled by 48 (3 channels times the
        // *16 luma scale), in raw-code order {2, 3, 1, 0}.
        let base_r = etc_5_to_8(ep.color5.r());
        let base_g = etc_5_to_8(ep.color5.g());
        let base_b = etc_5_to_8(ep.color5.b());
        let t = ep.inten5 as usize;
        let by = (base_r + base_g + base_b) * 16;
        let block_colors_y_x16 = [
            by + inten_table(t, 2) * 48,
            by + inten_table(t, 3) * 48,
            by + inten_table(t, 1) * 48,
            by + inten_table(t, 0) * 48,
        ];
        let bytes = sel.bytes;
        let mut luma = [0i32; 16];
        let mut k: usize = 0;
        while k < 16
            invariant
                k <= 16,
                bytes == sel.bytes,
                by == (expand5(ep.color5.r as int) + expand5(ep.color5.g as int) + expand5(ep.color5.b as int)) * 16,
                forall|c: int| 0 <= c < 4 ==> #[trigger] block_colors_y_x16[c] == by + inten(t as int, etc1_code_to_index(c)) * 48,
                forall|c: int| 0 <= c < 4 ==> -8784 <= #[trigger] block_colors_y_x16[c] <= 21024,
                t == ep.inten5,
                t < 8,
                forall|j: int| 0 <= j < k ==> #[trigger] luma[j] == etc1s_texel_luma(*ep, *sel, j),
                forall|j: int| 0 <= j < 16 ==> -luma_max() <= #[trigger] luma[j] <= luma_max(),
            decreases 16 - k,
        {
            let lx = k % 4;
            let ly = k / 4;
            proof {
                assert(lx & 1 == lx % 2) by (bit_vector);
            }
            let sh = ((lx & 1) * 4 + ly) as u8;
            let bl = bytes[3 - lx / 2];
            let bm = bytes[1 - lx / 2];
            let lsb = (bl >> sh) & 1;
            let msb = (bm >> sh) & 1;
            proof {
                assert((bl >> sh) & 1 <= 1) by (bit_vector);
                assert((bm >> sh) & 1 <= 1) by (bit_vector);
            }
            let code = (lsb as usize) + 2 * (msb as usize);
            luma[k] = block_colors_y_x16[code];
            k = k + 1;
        }
        self.store_block(block_index, ew, luma);
    }

    /// Prep one UASTC block from its 16 unpacked RGBA pixels: bounding-box
    /// endpoints + per-texel `(r+g+b)*16` luma.
    fn prep_uastc(&mut self, block_index: usize, pixels: &[Color32; 16])
        requires
            old(self).wf(),
            block_index < old(self).endpoint_words().len(),
        ensures
            final(self).set_block(
                old(self),
                block_index as int,
                endpoints_word(bbox_lo(pixels@, 16), bbox_hi(pixels@, 16)),
                |k: int| (pixels[k].r + pixels[k].g + pixels[k].b) * 16,
            ),
    {
        let (low, high) = pixel_bounds(pixels);
        let ew = pack_endpoints(low, high);
        let mut luma = [0i32; 16];
        let mut i: usize = 0;
        while i < 16
            invariant
                i <= 16,
                forall|j: int| 0 <= j < i ==> #[trigger] luma[j] == (pixels[j].r + pixels[j].g + pixels[j].b) * 16,
                forall|j: int| 0 <= j < 16 ==> 0 <= #[trigger] luma[j] <= 12240,
            decreases 16 - i,
        {
            let p = pixels[i];
            luma[i] = (p.r() as i32 + p.g() as i32 + p.b() as i32) * 16;
            i = i + 1;
        }
        self.store_block(block_index, ew, luma);
    }

    /// Prep one ETC1S block for the RGBA path: alpha-aware bounding-box
    /// endpoints (RGB box from the color codebook + alpha box from the alpha
    /// codebook's green channel), then the per-texel combined luma.
    fn prep_etc1s_rgba(
        &mut self,
        block_index: usize,
        ep: &Endpoint,
        sel: &Selector,
        alpha_ep: &Endpoint,
        alpha_sel: &Selector,
    )
        requires
            old(self).wf(),
            block_index < old(self).endpoint_words().len(),
            endpoint_wf(*ep),
            selector_wf(*sel),
            endpoint_wf(*alpha_ep),
            selector_wf(*alpha_sel),
        ensures
            final(self).set_block(
                old(self),
                block_index as int,
                ({
                    let (lo, hi) = bounds_rgba_etc1s(*ep, *sel, *alpha_ep, *alpha_sel);
                    endpoints_word_rgba(lo, hi)
                }),
                |k: int| etc1s_rgba_texel_luma(*ep, *sel, *alpha_ep, *alpha_sel, k),
            ),
    {
        let ew = etc1s_rgba_endpoints(ep, sel, alpha_ep, alpha_sel);
        let luma = etc1s_rgba_luma(ep, sel, alpha_ep, alpha_sel);
        self.store_block(block_index, ew, luma);
    }

    /// Prep one UASTC block for the RGBA path: bounding-box RGBA endpoints
    /// (alpha-aware floor/ceil) + per-texel `(r+g+b+a)*16` luma.
    fn prep_uastc_rgba(&mut self, block_index: usize, pixels: &[Color32; 16])
        requires
            old(self).wf(),
            block_index < old(self).endpoint_words().len(),
        ensures
            final(self).set_block(
                old(self),
                block_index as int,
                endpoints_word_rgba(bbox_lo(pixels@, 16), bbox_hi(pixels@, 16)),
                |k: int| (pixels[k].r + pixels[k].g + pixels[k].b + pixels[k].a) * 16,
            ),
    {
        let (low, high) = pixel_bounds(pixels);
        let ew = pack_endpoints_rgba(low, high);
        let mut luma = [0i32; 16];
        let mut i: usize = 0;
        while i < 16
            invariant
                i <= 16,
                forall|j: int| 0 <= j < i ==> #[trigger] luma[j] == (pixels[j].r + pixels[j].g + pixels[j].b + pixels[j].a) * 16,
                forall|j: int| 0 <= j < 16 ==> 0 <= #[trigger] luma[j] <= 16320,
            decreases 16 - i,
        {
            let p = pixels[i];
            luma[i] = (p.r() as i32 + p.g() as i32 + p.b() as i32 + p.a() as i32) * 16;
            i = i + 1;
        }
        self.store_block(block_index, ew, luma);
    }
}

/// Clamp a signed value to `[lo, hi]`.
fn clamp_i32(v: i32, lo: i32, hi: i32) -> (r: i32)
    requires
        lo <= hi,
    ensures
        r == clampi(v as int, lo as int, hi as int),
{
    if v < lo {
        lo
    } else if v > hi {
        hi
    } else {
        v
    }
}

/// The endpoints words of an ETC1S RGB image: block `b` from its
/// `(endpoint, selector)` indices; blocks past the index list stay zero.
pub open spec fn etc1s_rgb_image_endpoints(indices: Seq<(u16, u16)>, endpoints: Seq<Endpoint>, selectors: Seq<Selector>, n: int) -> Seq<u32> {
    Seq::new(n as nat, |b: int|
        if b < indices.len() {
            let ep = endpoints[indices[b].0 as int];
            let sel = selectors[indices[b].1 as int];
            let (lo, hi) = bounds5(ep.color5, ep.inten5 as int, sel.lo_selector as int, sel.hi_selector as int);
            endpoints_word(lo, hi) as u32
        } else {
            0u32
        })
}

/// The per-texel luma of an ETC1S RGB image.
pub open spec fn etc1s_rgb_image_luma(indices: Seq<(u16, u16)>, endpoints: Seq<Endpoint>, selectors: Seq<Selector>, n: int) -> Seq<Seq<i32>> {
    Seq::new(n as nat, |b: int|
        Seq::new(16, |k: int|
            if b < indices.len() {
                etc1s_texel_luma(endpoints[indices[b].0 as int], selectors[indices[b].1 as int], k) as i32
            } else {
                0i32
            }))
}

/// The endpoints words of an ETC1S RGBA image (color and alpha indices).
pub open spec fn etc1s_rgba_image_endpoints(ci: Seq<(u16, u16)>, ai: Seq<(u16, u16)>, endpoints: Seq<Endpoint>, selectors: Seq<Selector>, n: int) -> Seq<u32> {
    Seq::new(n as nat, |b: int|
        if b < ci.len() {
            let (lo, hi) = bounds_rgba_etc1s(endpoints[ci[b].0 as int], selectors[ci[b].1 as int], endpoints[ai[b].0 as int], selectors[ai[b].1 as int]);
            endpoints_word_rgba(lo, hi) as u32
        } else {
            0u32
        })
}

/// The per-texel color + alpha luma of an ETC1S RGBA image.
pub open spec fn etc1s_rgba_image_luma(ci: Seq<(u16, u16)>, ai: Seq<(u16, u16)>, endpoints: Seq<Endpoint>, selectors: Seq<Selector>, n: int) -> Seq<Seq<i32>> {
    Seq::new(n as nat, |b: int|
        Seq::new(16, |k: int|
            if b < ci.len() {
                etc1s_rgba_texel_luma(endpoints[ci[b].0 as int], selectors[ci[b].1 as int], endpoints[ai[b].0 as int], selectors[ai[b].1 as int], k) as i32
            } else {
                0i32
            }))
}

/// A texel with its alpha broadcast to RGB (and opaque alpha).
pub open spec fn alpha_as_gray(p: Color32) -> Color32 {
    Color32 { r: p.a, g: p.a, b: p.a, a: 255 }
}

/// The pixels a block is encoded from: as given, or with alpha broadcast
/// to RGB (the RGB target's `from_alpha` mode).
pub open spec fn source_pixels(px: [Color32; 16], from_alpha: bool) -> Seq<Color32> {
    if from_alpha { px@.map(|i: int, p: Color32| alpha_as_gray(p)) } else { px@ }
}

/// The endpoints words of an image of decoded pixel blocks (block order
/// `x + y * nbx`).
pub open spec fn pixel_endpoints(blocks: Seq<[Color32; 16]>, rgba: bool, from_alpha: bool, n: int) -> Seq<u32> {
    Seq::new(n as nat, |b: int| {
        let px = source_pixels(blocks[b], from_alpha && !rgba);
        if rgba {
            endpoints_word_rgba(bbox_lo(px, 16), bbox_hi(px, 16)) as u32
        } else {
            endpoints_word(bbox_lo(px, 16), bbox_hi(px, 16)) as u32
        }
    })
}

/// The per-texel luma of an image of decoded pixel blocks: `(r+g+b)*16`, or
/// `(r+g+b+a)*16` on the RGBA path.
pub open spec fn pixel_luma(blocks: Seq<[Color32; 16]>, rgba: bool, from_alpha: bool, n: int) -> Seq<Seq<i32>> {
    Seq::new(n as nat, |b: int| {
        let px = source_pixels(blocks[b], from_alpha && !rgba);
        Seq::new(16, |k: int|
            if rgba {
                ((px[k].r + px[k].g + px[k].b + px[k].a) * 16) as i32
            } else {
                ((px[k].r + px[k].g + px[k].b) * 16) as i32
            })
    })
}

/// Whether an ETC1S image's block indices fit the image and name valid
/// codebook entries.
pub open spec fn etc1s_indices_ok(indices: Seq<(u16, u16)>, endpoints: Seq<Endpoint>, selectors: Seq<Selector>, n: int) -> bool {
    &&& indices.len() <= n
    &&& forall|b: int| 0 <= b < indices.len() ==> {
        &&& (#[trigger] indices[b]).0 < endpoints.len()
        &&& indices[b].1 < selectors.len()
        &&& endpoint_wf(endpoints[indices[b].0 as int])
        &&& selector_wf(selectors[indices[b].1 as int])
    }
}

/// Build the whole PVRTC1_4_RGB image from ETC1S per-block
/// `(endpoint, selector)` indices, written into `out`. `None` for non-pow2
/// dimensions or an output of the wrong size.
pub fn transcode_etc1s_pvrtc1_4_rgb(
    indices: &[(u16, u16)],
    endpoints: &[Endpoint],
    selectors: &[Selector],
    num_blocks_x: u32,
    num_blocks_y: u32,
    out: &mut [u8],
) -> (r: Option<()>)
    requires
        pvrtc_dims_in_range(num_blocks_x, num_blocks_y),
        pvrtc_dims_ok(num_blocks_x, num_blocks_y) ==> etc1s_indices_ok(indices@, endpoints@, selectors@, num_blocks_x * num_blocks_y),
    ensures
        r is Some <==> pvrtc_dims_ok(num_blocks_x, num_blocks_y) && old(out)@.len() == num_blocks_x * num_blocks_y * 8,
        r is None ==> final(out)@ == old(out)@,
        r is Some ==> pvrtc_output(final(out)@,
            etc1s_rgb_image_endpoints(indices@, endpoints@, selectors@, num_blocks_x * num_blocks_y),
            etc1s_rgb_image_luma(indices@, endpoints@, selectors@, num_blocks_x * num_blocks_y),
            false, num_blocks_x as int, num_blocks_y as int),
{
    let mut img = match Pvrtc1Image::new(num_blocks_x, num_blocks_y, false) {
        Some(img) => img,
        None => return None,
    };
    let ghost n = num_blocks_x * num_blocks_y;
    proof {
        assert forall|c: int| 0 <= c < n implies #[trigger] img.endpoints@[c] == 0u32 by {
            assert(img.endpoint_words()[c] == 0);
        }
        assert forall|c: int, k: int| 0 <= c < n && 0 <= k < 16 implies #[trigger] img.luma16@[c][k] == 0i32 by {
            assert(img.luma_blocks()[c][k] == 0);
        }
    }
    let mut b: usize = 0;
    while b < indices.len()
        invariant
            img.wf(),
            img.num_blocks_x == num_blocks_x,
            img.num_blocks_y == num_blocks_y,
            !img.rgba,
            n == num_blocks_x * num_blocks_y,
            etc1s_indices_ok(indices@, endpoints@, selectors@, n),
            b <= indices.len(),
            forall|c: int| 0 <= c < n ==> #[trigger] img.endpoints@[c] == (if c < b { etc1s_rgb_image_endpoints(indices@, endpoints@, selectors@, n)[c] } else { 0u32 }),
            forall|c: int, k: int| 0 <= c < n && 0 <= k < 16 ==> #[trigger] img.luma16@[c][k] == (if c < b { etc1s_rgb_image_luma(indices@, endpoints@, selectors@, n)[c][k] } else { 0i32 }),
        decreases indices.len() - b,
    {
        let (ei, si) = indices[b];
        proof {
            assert(indices@[b as int] == (ei, si));
        }
        img.prep_etc1s(b, &endpoints[ei as usize], &selectors[si as usize]);
        b = b + 1;
    }
    proof {
        assert(img.endpoints@ =~= etc1s_rgb_image_endpoints(indices@, endpoints@, selectors@, n));
        assert(img.luma_seq() =~~= etc1s_rgb_image_luma(indices@, endpoints@, selectors@, n));
    }
    img.apply(out)
}

/// Build the whole PVRTC1_4_RGBA image from ETC1S color + alpha per-block
/// `(endpoint, selector)` indices. The color indices give the RGB box; the
/// alpha indices give the alpha box and per-texel alpha. `None` for non-pow2
/// dimensions, index lists of different lengths, or an output of the wrong
/// size.
pub fn transcode_etc1s_pvrtc1_4_rgba(
    color_indices: &[(u16, u16)],
    alpha_indices: &[(u16, u16)],
    endpoints: &[Endpoint],
    selectors: &[Selector],
    num_blocks_x: u32,
    num_blocks_y: u32,
    out: &mut [u8],
) -> (r: Option<()>)
    requires
        pvrtc_dims_in_range(num_blocks_x, num_blocks_y),
        pvrtc_dims_ok(num_blocks_x, num_blocks_y) && alpha_indices@.len() == color_indices@.len() ==> {
            &&& etc1s_indices_ok(color_indices@, endpoints@, selectors@, num_blocks_x * num_blocks_y)
            &&& etc1s_indices_ok(alpha_indices@, endpoints@, selectors@, num_blocks_x * num_blocks_y)
        },
    ensures
        r is Some <==> pvrtc_dims_ok(num_blocks_x, num_blocks_y) && alpha_indices@.len() == color_indices@.len()
            && old(out)@.len() == num_blocks_x * num_blocks_y * 8,
        r is None ==> final(out)@ == old(out)@,
        r is Some ==> pvrtc_output(final(out)@,
            etc1s_rgba_image_endpoints(color_indices@, alpha_indices@, endpoints@, selectors@, num_blocks_x * num_blocks_y),
            etc1s_rgba_image_luma(color_indices@, alpha_indices@, endpoints@, selectors@, num_blocks_x * num_blocks_y),
            true, num_blocks_x as int, num_blocks_y as int),
{
    let mut img = match Pvrtc1Image::new(num_blocks_x, num_blocks_y, true) {
        Some(img) => img,
        None => return None,
    };
    if alpha_indices.len() != color_indices.len() {
        return None;
    }
    let ghost n = num_blocks_x * num_blocks_y;
    proof {
        assert forall|c: int| 0 <= c < n implies #[trigger] img.endpoints@[c] == 0u32 by {
            assert(img.endpoint_words()[c] == 0);
        }
        assert forall|c: int, k: int| 0 <= c < n && 0 <= k < 16 implies #[trigger] img.luma16@[c][k] == 0i32 by {
            assert(img.luma_blocks()[c][k] == 0);
        }
    }
    let mut b: usize = 0;
    while b < color_indices.len()
        invariant
            img.wf(),
            img.num_blocks_x == num_blocks_x,
            img.num_blocks_y == num_blocks_y,
            img.rgba,
            n == num_blocks_x * num_blocks_y,
            alpha_indices@.len() == color_indices@.len(),
            etc1s_indices_ok(color_indices@, endpoints@, selectors@, n),
            etc1s_indices_ok(alpha_indices@, endpoints@, selectors@, n),
            b <= color_indices.len(),
            forall|c: int| 0 <= c < n ==> #[trigger] img.endpoints@[c] == (if c < b { etc1s_rgba_image_endpoints(color_indices@, alpha_indices@, endpoints@, selectors@, n)[c] } else { 0u32 }),
            forall|c: int, k: int| 0 <= c < n && 0 <= k < 16 ==> #[trigger] img.luma16@[c][k] == (if c < b { etc1s_rgba_image_luma(color_indices@, alpha_indices@, endpoints@, selectors@, n)[c][k] } else { 0i32 }),
        decreases color_indices.len() - b,
    {
        let (ei, si) = color_indices[b];
        let (aei, asi) = alpha_indices[b];
        proof {
            assert(color_indices@[b as int] == (ei, si));
            assert(alpha_indices@[b as int] == (aei, asi));
        }
        img.prep_etc1s_rgba(
            b,
            &endpoints[ei as usize],
            &selectors[si as usize],
            &endpoints[aei as usize],
            &selectors[asi as usize],
        );
        b = b + 1;
    }
    proof {
        assert(img.endpoints@ =~= etc1s_rgba_image_endpoints(color_indices@, alpha_indices@, endpoints@, selectors@, n));
        assert(img.luma_seq() =~~= etc1s_rgba_image_luma(color_indices@, alpha_indices@, endpoints@, selectors@, n));
    }
    img.apply(out)
}

/// A block with each texel's alpha broadcast to RGB (opaque).
fn alpha_broadcast(px: &[Color32; 16]) -> (r: [Color32; 16])
    ensures
        r@ == source_pixels(*px, true),
{
    let mut r = *px;
    let mut i: usize = 0;
    while i < 16
        invariant
            i <= 16,
            forall|j: int| 0 <= j < i ==> #[trigger] r[j] == alpha_as_gray(px[j]),
        decreases 16 - i,
    {
        let a = px[i].a() as u32;
        r[i] = Color32::new(a, a, a, 255);
        i = i + 1;
    }
    proof {
        assert(r@ =~= source_pixels(*px, true));
    }
    r
}

/// Encode an image of decoded pixel blocks (block order `x + y * nbx`) as
/// PVRTC1: per-block bounding-box endpoints, then the shared modulation
/// pass. The RGB target with `from_alpha` broadcasts each pixel's alpha to
/// RGB first. `None` for non-pow2 dimensions, fewer blocks than the image
/// has, or an output of the wrong size.
pub fn encode_pvrtc1_raw(
    num_blocks_x: u32,
    num_blocks_y: u32,
    rgba: bool,
    from_alpha: bool,
    blocks: &[[Color32; 16]],
    out: &mut [u8],
) -> (r: Option<()>)
    requires
        pvrtc_dims_in_range(num_blocks_x, num_blocks_y),
    ensures
        r is Some <==> pvrtc_dims_ok(num_blocks_x, num_blocks_y) && blocks@.len() >= num_blocks_x * num_blocks_y
            && old(out)@.len() == num_blocks_x * num_blocks_y * 8,
        r is None ==> final(out)@ == old(out)@,
        r is Some ==> pvrtc_output(final(out)@,
            pixel_endpoints(blocks@, rgba, from_alpha, num_blocks_x * num_blocks_y),
            pixel_luma(blocks@, rgba, from_alpha, num_blocks_x * num_blocks_y),
            rgba, num_blocks_x as int, num_blocks_y as int),
{
    let mut img = match Pvrtc1Image::new(num_blocks_x, num_blocks_y, rgba) {
        Some(img) => img,
        None => return None,
    };
    let n = (num_blocks_x * num_blocks_y) as usize;
    if blocks.len() < n {
        return None;
    }
    let mut b: usize = 0;
    while b < n
        invariant
            img.wf(),
            img.num_blocks_x == num_blocks_x,
            img.num_blocks_y == num_blocks_y,
            img.rgba == rgba,
            n == num_blocks_x * num_blocks_y,
            blocks@.len() >= n,
            b <= n,
            forall|c: int| 0 <= c < b ==> #[trigger] img.endpoints@[c] == pixel_endpoints(blocks@, rgba, from_alpha, n as int)[c],
            forall|c: int, k: int| 0 <= c < b && 0 <= k < 16 ==> #[trigger] img.luma16@[c][k] == pixel_luma(blocks@, rgba, from_alpha, n as int)[c][k],
        decreases n - b,
    {
        let px = if !rgba && from_alpha { alpha_broadcast(&blocks[b]) } else { blocks[b] };
        proof {
            assert(px@ == source_pixels(blocks@[b as int], from_alpha && !rgba));
        }
        if rgba {
            img.prep_uastc_rgba(b, &px);
        } else {
            img.prep_uastc(b, &px);
        }
        b = b + 1;
    }
    proof {
        assert(img.endpoints@ =~= pixel_endpoints(blocks@, rgba, from_alpha, n as int));
        assert(img.luma_seq() =~~= pixel_luma(blocks@, rgba, from_alpha, n as int));
    }
    img.apply(out)
}

/// Build the whole PVRTC1_4_RGB image from decoded UASTC blocks (16 RGBA
/// pixels each, block order `x + y * nbx`), written into `out`. `None` for
/// non-pow2 dimensions, fewer blocks than the image has, or an output of the
/// wrong size.
pub fn transcode_uastc_pvrtc1_4_rgb(
    pixel_blocks: &[[Color32; 16]],
    num_blocks_x: u32,
    num_blocks_y: u32,
    out: &mut [u8],
) -> (r: Option<()>)
    requires
        pvrtc_dims_in_range(num_blocks_x, num_blocks_y),
    ensures
        r is Some <==> pvrtc_dims_ok(num_blocks_x, num_blocks_y) && pixel_blocks@.len() >= num_blocks_x * num_blocks_y
            && old(out)@.len() == num_blocks_x * num_blocks_y * 8,
        r is None ==> final(out)@ == old(out)@,
        r is Some ==> pvrtc_output(final(out)@,
            pixel_endpoints(pixel_blocks@, false, false, num_blocks_x * num_blocks_y),
            pixel_luma(pixel_blocks@, false, false, num_blocks_x * num_blocks_y),
            false, num_blocks_x as int, num_blocks_y as int),
{
    encode_pvrtc1_raw(num_blocks_x, num_blocks_y, false, false, pixel_blocks, out)
}

/// Build the whole PVRTC1_4_RGBA image from decoded UASTC blocks, written
/// into `out`. `None` for non-pow2 dimensions, fewer blocks than the image
/// has, or an output of the wrong size.
pub fn transcode_uastc_pvrtc1_4_rgba(
    pixel_blocks: &[[Color32; 16]],
    num_blocks_x: u32,
    num_blocks_y: u32,
    out: &mut [u8],
) -> (r: Option<()>)
    requires
        pvrtc_dims_in_range(num_blocks_x, num_blocks_y),
    ensures
        r is Some <==> pvrtc_dims_ok(num_blocks_x, num_blocks_y) && pixel_blocks@.len() >= num_blocks_x * num_blocks_y
            && old(out)@.len() == num_blocks_x * num_blocks_y * 8,
        r is None ==> final(out)@ == old(out)@,
        r is Some ==> pvrtc_output(final(out)@,
            pixel_endpoints(pixel_blocks@, true, false, num_blocks_x * num_blocks_y),
            pixel_luma(pixel_blocks@, true, false, num_blocks_x * num_blocks_y),
            true, num_blocks_x as int, num_blocks_y as int),
{
    encode_pvrtc1_raw(num_blocks_x, num_blocks_y, true, false, pixel_blocks, out)
}

/// The modulation level `mod_word` chooses for texel entry `i`.
pub open spec fn entry_level(w0: Seq<i32>, w1: Seq<i32>, luma: Seq<i32>, i: int) -> u32 {
    mod_level(blend(w0, i), blend(w1, i), luma[4 * do_pix(i).1 + do_pix(i).0] as int) as u32
}

/// The texel entry at bit position `p` of the PVRTC1 modulation layout
/// (texel `(x, y)` at `2x + 8y`).
pub open spec fn entry_at(p: int) -> int {
    if p == 0 { 0 } else if p == 2 { 1 } else if p == 8 { 2 } else if p == 10 { 3 }
    else if p == 4 { 4 } else if p == 6 { 5 } else if p == 12 { 6 } else if p == 14 { 7 }
    else if p == 16 { 8 } else if p == 18 { 9 } else if p == 24 { 10 } else if p == 26 { 11 }
    else if p == 20 { 12 } else if p == 22 { 13 } else if p == 28 { 14 } else { 15 }
}

/// The sixteen texel entries cover the sixteen texels of the block, each
/// once.
pub proof fn lemma_do_pix_positions()
    ensures
        forall|i: int| 0 <= i < 16 ==> 0 <= #[trigger] do_pix(i).0 < 4 && 0 <= do_pix(i).1 < 4,
        forall|i: int| 0 <= i < 16 ==> #[trigger] entry_at(2 * do_pix(i).0 + 8 * do_pix(i).1) == i,
        forall|i: int, j: int| 0 <= i < 16 && 0 <= j < 16 && i != j ==>
            (#[trigger] do_pix(i).0, do_pix(i).1) != (#[trigger] do_pix(j).0, do_pix(j).1),
{
    assert forall|i: int| 0 <= i < 16 implies #[trigger] entry_at(2 * do_pix(i).0 + 8 * do_pix(i).1) == i by {
        assert(i == 0 || i == 1 || i == 2 || i == 3 || i == 4 || i == 5 || i == 6 || i == 7 || i == 8 || i == 9
            || i == 10 || i == 11 || i == 12 || i == 13 || i == 14 || i == 15);
    }
    assert forall|i: int, j: int| 0 <= i < 16 && 0 <= j < 16 && i != j implies
        (#[trigger] do_pix(i).0, do_pix(i).1) != (#[trigger] do_pix(j).0, do_pix(j).1) by {
        if do_pix(i).0 == do_pix(j).0 && do_pix(i).1 == do_pix(j).1 {
            assert(entry_at(2 * do_pix(i).0 + 8 * do_pix(i).1) == i);
            assert(entry_at(2 * do_pix(j).0 + 8 * do_pix(j).1) == j);
        }
    }
}

proof fn lemma_field_or(w: u32, l: u32, s: u32, t: u32)
    by (bit_vector)
    requires
        l < 4,
        s < 32,
        t < 32,
        s % 2 == 0,
        t % 2 == 0,
    ensures
        ((w | (l << s)) >> t) & 3 == (if s == t { ((w >> t) & 3) | l } else { (w >> t) & 3 }),
        (0u32 >> t) & 3 == 0,
        0u32 | l == l,
{
}

/// The level entry `i` holds after the first `k` entries are written.
pub open spec fn level_after(w0: Seq<i32>, w1: Seq<i32>, luma: Seq<i32>, k: int, i: int) -> u32 {
    if i < k { entry_level(w0, w1, luma, i) } else { 0 }
}

proof fn lemma_mod_word_fields(w0: Seq<i32>, w1: Seq<i32>, luma: Seq<i32>, k: int)
    requires
        0 <= k <= 16,
    ensures
        forall|i: int| 0 <= i < 16 ==> ((mod_word(w0, w1, luma, k) >> ((2 * do_pix(i).0 + 8 * do_pix(i).1) as u32)) & 3)
            == #[trigger] level_after(w0, w1, luma, k, i),
    decreases k,
{
    lemma_do_pix_positions();
    if k == 0 {
        assert forall|i: int| 0 <= i < 16 implies ((mod_word(w0, w1, luma, k) >> ((2 * do_pix(i).0 + 8 * do_pix(i).1) as u32)) & 3)
            == #[trigger] level_after(w0, w1, luma, k, i) by {
            let t = (2 * do_pix(i).0 + 8 * do_pix(i).1) as u32;
            lemma_field_or(0, 0, 0, t);
        }
    } else {
        lemma_mod_word_fields(w0, w1, luma, k - 1);
        let j = k - 1;
        let s = texel_shift(j) as u32;
        let l = entry_level(w0, w1, luma, j);
        let w = mod_word(w0, w1, luma, j);
        assert(mod_word(w0, w1, luma, k) == w | (l << s));
        assert forall|i: int| 0 <= i < 16 implies ((mod_word(w0, w1, luma, k) >> ((2 * do_pix(i).0 + 8 * do_pix(i).1) as u32)) & 3)
            == #[trigger] level_after(w0, w1, luma, k, i) by {
            let t = (2 * do_pix(i).0 + 8 * do_pix(i).1) as u32;
            assert(do_pix(i).0 < 4 && do_pix(i).1 < 4 && do_pix(j).0 < 4 && do_pix(j).1 < 4);
            lemma_field_or(w, l, s, t);
            if i != j {
                assert(entry_at(2 * do_pix(i).0 + 8 * do_pix(i).1) == i);
                assert(entry_at(2 * do_pix(j).0 + 8 * do_pix(j).1) == j);
                assert(s != t);
            }
            assert(((w >> t) & 3) == level_after(w0, w1, luma, j, i));
        }
    }
}

/// The modulation word of a block puts each texel's level where a PVRTC1
/// decoder reads it: for the texel at `(x, y)` of the block, the two bits at
/// `2x + 8y` hold the level chosen from its blended endpoint lumas and its
/// own luma `luma[4y + x]`.
pub proof fn lemma_mod_word_decodes(w0: Seq<i32>, w1: Seq<i32>, luma: Seq<i32>)
    ensures
        forall|i: int| 0 <= i < 16 ==> ((mod_word(w0, w1, luma, 16) >> ((2 * do_pix(i).0 + 8 * do_pix(i).1) as u32)) & 3)
            == mod_level(#[trigger] blend(w0, i), blend(w1, i), luma[4 * do_pix(i).1 + do_pix(i).0] as int) as u32,
{
    lemma_mod_word_fields(w0, w1, luma, 16);
    assert forall|i: int| 0 <= i < 16 implies ((mod_word(w0, w1, luma, 16) >> ((2 * do_pix(i).0 + 8 * do_pix(i).1) as u32)) & 3)
        == mod_level(#[trigger] blend(w0, i), blend(w1, i), luma[4 * do_pix(i).1 + do_pix(i).0] as int) as u32 by {
        assert(((mod_word(w0, w1, luma, 16) >> ((2 * do_pix(i).0 + 8 * do_pix(i).1) as u32)) & 3)
            == level_after(w0, w1, luma, 16, i));
    }
}

} // verus!
