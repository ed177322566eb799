//! Real-time ETC1 packing of decoded pixels: the integer half of the packer.
//! The per-slice state memoizes the previous solid block; the tables hold the
//! nearest 5- and 4-bit codes of every byte, the best base code for each byte
//! under each of the first four intensity tables and selectors, and the packed
//! block of every gray level. The flip and intensity-table heuristics, which
//! work in floating point, stay with the caller.

use vstd::prelude::*;
use crate::bitfield::lemma_etc_byte_fields;
use crate::color::{inten, inten_table, expand5, expand4, selector_index_to_etc1};

verus! {

/// One decoded texel, RGBA byte order.
pub type Rgba = [u8; 4];

/// Only the first four intensity tables are searched for solid blocks.
pub const NUM_SOLID_MODS: usize = 4;

/// Expand a 5-bit value to 8 bits, replicating its top 3 bits into the new low
/// bits.
pub fn expand5_i(v: i32) -> (r: i32)
    requires
        0 <= v < 32,
    ensures
        r == expand5(v as int),
        0 <= r <= 255,
{
    proof {
        lemma_etc_byte_fields(v, 0);
    }
    (v << 3) | (v >> 2)
}

/// Expand a 4-bit value to 8 bits by nibble replication.
pub fn expand4_i(v: i32) -> (r: i32)
    requires
        0 <= v < 16,
    ensures
        r == expand4(v as int),
        0 <= r <= 255,
{
    proof {
        lemma_etc_byte_fields(v, 0);
    }
    (v << 4) | v
}

/// Dequantize a 5-bit ETC1 channel to 8 bits (bit replication, the same math
/// as [`expand5_i`]).
pub fn dequant5(v: i32) -> (r: i32)
    requires
        0 <= v < 32,
    ensures
        r == expand5(v as int),
        0 <= r <= 255,
{
    proof {
        lemma_etc_byte_fields(v, 0);
    }
    (v << 3) | (v >> 2)
}

/// Dequantize a 4-bit ETC1 channel to 8 bits by nibble replication.
pub fn dequant4(v: i32) -> (r: i32)
    requires
        0 <= v < 16,
    ensures
        r == expand4(v as int),
        0 <= r <= 255,
{
    proof {
        lemma_etc_byte_fields(v, 0);
    }
    (v << 4) | v
}

/// The signed value of a 3-bit two's-complement delta.
pub open spec fn delta3(v: int) -> int {
    if v < 4 { v } else { v - 8 }
}

/// Sign-extend a 3-bit ETC1 differential delta.
pub fn dequant_d3(v: i32) -> (r: i32)
    requires
        0 <= v < 8,
    ensures
        r == delta3(v as int),
{
    proof {
        lemma_etc_byte_fields(0, v as i8);
    }
    ((v as i8) << 5 >> 5) as i32
}

/// A signed value clamped to 0..=255.
pub open spec fn clamp255_spec(v: int) -> int {
    if v < 0 { 0 } else if v > 255 { 255 } else { v }
}

/// Clamp a signed value to the 0..=255 byte range.
pub fn clamp255(v: i32) -> (r: u8)
    ensures
        r == clamp255_spec(v as int),
{
    if v < 0 {
        0
    } else if v > 255 {
        255
    } else {
        v as u8
    }
}

/// The 8-bit base color of subblock `sb` (0 or 1), channel byte `b`, of a
/// block in differential mode (`diff`) or individual mode.
pub open spec fn etc1_base8(b: int, diff: bool, sb: int) -> int {
    if diff {
        if sb == 0 {
            expand5(b / 8)
        } else {
            expand5(clamp_int(b / 8 + delta3(b % 8), 0, 31))
        }
    } else {
        if sb == 0 { expand4(b / 16) } else { expand4(b % 16) }
    }
}

/// `v` clamped to `lo..=hi`.
pub open spec fn clamp_int(v: int, lo: int, hi: int) -> int {
    if v < lo { lo } else if v > hi { hi } else { v }
}

/// The intensity table of subblock `sb` named by control byte `b3`.
pub open spec fn etc1_table(b3: int, sb: int) -> int {
    if sb == 0 { b3 / 32 } else { (b3 / 4) % 8 }
}

/// Whether control byte `b3` selects differential mode.
pub open spec fn etc1_diff(b3: int) -> bool {
    (b3 / 2) % 2 == 1
}

/// Candidate color `i` (modifier index, most negative first), channel `c`, of
/// subblock `sb` of an ETC1 block.
pub open spec fn etc1_color(block: [u8; 8], sb: int, i: int, c: int) -> int {
    clamp255_spec(
        etc1_base8(block[c] as int, etc1_diff(block[3] as int), sb) + inten(
            etc1_table(block[3] as int, sb),
            i,
        ),
    )
}

/// One channel's 8-bit base color of both subblocks.
fn base8_pair(b: i32, diff: bool) -> (r: [i32; 2])
    requires
        0 <= b < 256,
    ensures
        r[0] == etc1_base8(b as int, diff, 0),
        r[1] == etc1_base8(b as int, diff, 1),
        0 <= r[0] <= 255,
        0 <= r[1] <= 255,
{
    proof {
        lemma_etc_byte_fields(b, 0);
    }
    if diff {
        let d = dequant_d3(b & 7);
        let v = (b >> 3) + d;
        let v = if v < 0 {
            0
        } else if v > 31 {
            31
        } else {
            v
        };
        [dequant5(b >> 3), dequant5(v)]
    } else {
        [dequant4(b >> 4), dequant4(b & 15)]
    }
}

/// Decode both subblocks' four candidate colors from a packed ETC1 block; only
/// RGB is produced.
pub fn get_block_colors(block: &[u8; 8]) -> (out: [[[u8; 3]; 4]; 2])
    ensures
        forall|sb: int, i: int, c: int|
            0 <= sb < 2 && 0 <= i < 4 && 0 <= c < 3 ==> out[sb][i][c] as int == etc1_color(
                *block,
                sb,
                i,
                c,
            ),
{
    let b3 = block[3] as i32;
    proof {
        lemma_etc_byte_fields(b3, 0);
    }
    let diff = b3 & 2 != 0;
    let base_r = base8_pair(block[0] as i32, diff);
    let base_g = base8_pair(block[1] as i32, diff);
    let base_b = base8_pair(block[2] as i32, diff);
    let tabs: [usize; 2] = [(b3 >> 5) as usize, ((b3 >> 2) & 7) as usize];
    let mut out = [[[0u8; 3]; 4]; 2];
    let mut sb: usize = 0;
    while sb < 2
        invariant
            sb <= 2,
            diff == etc1_diff(block[3] as int),
            tabs[0] == etc1_table(block[3] as int, 0) && tabs[1] == etc1_table(block[3] as int, 1),
            tabs[0] < 8 && tabs[1] < 8,
            forall|s: int| 0 <= s < 2 ==> base_r[s] == etc1_base8(block[0] as int, diff, s),
            forall|s: int| 0 <= s < 2 ==> base_g[s] == etc1_base8(block[1] as int, diff, s),
            forall|s: int| 0 <= s < 2 ==> base_b[s] == etc1_base8(block[2] as int, diff, s),
            0 <= base_r[0] <= 255 && 0 <= base_g[0] <= 255 && 0 <= base_b[0] <= 255,
            0 <= base_r[1] <= 255 && 0 <= base_g[1] <= 255 && 0 <= base_b[1] <= 255,
            forall|s: int, i: int, c: int|
                0 <= s < sb && 0 <= i < 4 && 0 <= c < 3 ==> out[s][i][c] as int == etc1_color(
                    *block,
                    s,
                    i,
                    c,
                ),
        decreases 2 - sb,
    {
        let mut row = [[0u8; 3]; 4];
        let mut i: usize = 0;
        while i < 4
            invariant
                sb < 2,
                i <= 4,
                diff == etc1_diff(block[3] as int),
                tabs[0] == etc1_table(block[3] as int, 0) && tabs[1] == etc1_table(block[3] as int, 1),
                tabs[0] < 8 && tabs[1] < 8,
                forall|s: int| 0 <= s < 2 ==> base_r[s] == etc1_base8(block[0] as int, diff, s),
                forall|s: int| 0 <= s < 2 ==> base_g[s] == etc1_base8(block[1] as int, diff, s),
                forall|s: int| 0 <= s < 2 ==> base_b[s] == etc1_base8(block[2] as int, diff, s),
                0 <= base_r[0] <= 255 && 0 <= base_g[0] <= 255 && 0 <= base_b[0] <= 255,
            0 <= base_r[1] <= 255 && 0 <= base_g[1] <= 255 && 0 <= base_b[1] <= 255,
                forall|k: int, c: int|
                    0 <= k < i && 0 <= c < 3 ==> row[k][c] as int == etc1_color(*block, sb as int, k, c),
            decreases 4 - i,
        {
            let d = inten_table(tabs[sb], i);
            row[i] = [
                clamp255(base_r[sb] + d),
                clamp255(base_g[sb] + d),
                clamp255(base_b[sb] + d),
            ];
            i = i + 1;
        }
        out[sb] = row;
        sb = sb + 1;
    }
    out
}

/// Candidate luma `i` of subblock `sb` of a grayscale ETC1 block (the red
/// channel).
pub open spec fn etc1_luma(block: [u8; 8], sb: int, i: int) -> int {
    etc1_color(block, sb, i, 0)
}

/// Grayscale variant of [`get_block_colors`]: only the red (luma) channel.
pub fn get_block_colors_y(block: &[u8; 8]) -> (out: [[u8; 4]; 2])
    ensures
        forall|sb: int, i: int|
            0 <= sb < 2 && 0 <= i < 4 ==> out[sb][i] as int == etc1_luma(*block, sb, i),
{
    let b3 = block[3] as i32;
    proof {
        lemma_etc_byte_fields(b3, 0);
    }
    let diff = b3 & 2 != 0;
    let base8_y = base8_pair(block[0] as i32, diff);
    let tabs: [usize; 2] = [(b3 >> 5) as usize, ((b3 >> 2) & 7) as usize];
    let mut out = [[0u8; 4]; 2];
    let mut sb: usize = 0;
    while sb < 2
        invariant
            sb <= 2,
            diff == etc1_diff(block[3] as int),
            tabs[0] == etc1_table(block[3] as int, 0) && tabs[1] == etc1_table(block[3] as int, 1),
            tabs[0] < 8 && tabs[1] < 8,
            forall|s: int| 0 <= s < 2 ==> base8_y[s] == etc1_base8(block[0] as int, diff, s),
            0 <= base8_y[0] <= 255 && 0 <= base8_y[1] <= 255,
            forall|s: int, i: int|
                0 <= s < sb && 0 <= i < 4 ==> out[s][i] as int == etc1_luma(*block, s, i),
        decreases 2 - sb,
    {
        let mut i: usize = 0;
        while i < 4
            invariant
                sb < 2,
                i <= 4,
                diff == etc1_diff(block[3] as int),
                tabs[0] == etc1_table(block[3] as int, 0) && tabs[1] == etc1_table(block[3] as int, 1),
                tabs[0] < 8 && tabs[1] < 8,
                forall|s: int| 0 <= s < 2 ==> base8_y[s] == etc1_base8(block[0] as int, diff, s),
                0 <= base8_y[0] <= 255 && 0 <= base8_y[1] <= 255,
                forall|s: int, k: int|
                    0 <= s < sb && 0 <= k < 4 ==> out[s][k] as int == etc1_luma(*block, s, k),
                forall|k: int| 0 <= k < i ==> out[sb as int][k] as int == etc1_luma(*block, sb as int, k),
            decreases 4 - i,
        {
            out[sb][i] = clamp255(base8_y[sb] + inten_table(tabs[sb], i));
            i = i + 1;
        }
        sb = sb + 1;
    }
    out
}

/// Floor-quantize an 8-bit value to a 5-bit code.
pub fn q5_floor(x: i32) -> (r: i32)
    requires
        0 <= x <= 255,
    ensures
        r == x * 31 / 255,
        0 <= r <= 31,
{
    (x * 31) / 255
}

/// Floor-quantize an 8-bit value to a 4-bit code.
pub fn q4_floor(x: i32) -> (r: i32)
    requires
        0 <= x <= 255,
    ensures
        r == x * 15 / 255,
        0 <= r <= 15,
{
    (x * 15) / 255
}

/// `x` squared.
pub fn squarei(x: i32) -> (r: i32)
    requires
        -46340 <= x <= 46340,
    ensures
        r == x * x,
        0 <= r,
        -510 <= x <= 510 ==> r <= 260100,
{
    proof {
        assert(-510 <= x <= 510 ==> x * x <= 260100) by (nonlinear_arith);
        assert(x * x <= 46340 * 46340) by (nonlinear_arith)
            requires
                -46340 <= x <= 46340,
        ;
        assert(x * x >= 0) by (nonlinear_arith);
    }
    x * x
}

/// BT.709 luma of an RGBA texel, rounded half-up.
pub fn get_709_luma(c: Rgba) -> (r: u32)
    ensures
        r == (13938 * c[0] + 46869 * c[1] + 4729 * c[2] + 32768) / 65536,
        r <= 255,
{
    let s = 13938 * c[0] as u32 + 46869 * c[1] as u32 + 4729 * c[2] as u32 + 32768;
    proof {
        vstd::bits::lemma_u32_shr_is_div(s, 16);
        vstd::arithmetic::power2::lemma2_to64();
    }
    s >> 16
}

/// The 8-bit value of a 5-bit (`four` false) or 4-bit (`four` true) code.
pub open spec fn dequant_spec(b: int, four: bool) -> int {
    if four { expand4(b) } else { expand5(b) }
}

/// How far base code `b` under intensity table `m`, selector `sel` lands from
/// the byte `d`.
pub open spec fn solid_dist(d: int, m: int, sel: int, b: int, four: bool) -> int {
    let v = clamp255_spec(dequant_spec(b, four) + inten(m, sel));
    if v >= d { v - d } else { d - v }
}

/// Number of base codes: 32 for 5-bit, 16 for 4-bit.
pub open spec fn code_count(four: bool) -> int {
    if four { 16 } else { 32 }
}

/// `b` is the first base code at the least distance from `d`.
pub open spec fn is_best_base(d: int, m: int, sel: int, four: bool, b: int) -> bool {
    &&& 0 <= b < code_count(four)
    &&& forall|k: int| 0 <= k < code_count(four) ==> #[trigger] solid_dist(d, m, sel, k, four) >= solid_dist(d, m, sel, b, four)
    &&& forall|k: int| 0 <= k < b ==> #[trigger] solid_dist(d, m, sel, k, four) > solid_dist(d, m, sel, b, four)
}

/// How far the expansion of code `k` lands from the byte `i`.
pub open spec fn code_dist(i: int, k: int, four: bool) -> int {
    let v = dequant_spec(k, four);
    if v >= i { v - i } else { i - v }
}

/// `s` is the first code whose expansion is nearest the byte `i`.
pub open spec fn is_nearest_code(i: int, four: bool, s: int) -> bool {
    &&& 0 <= s < code_count(four)
    &&& forall|k: int| 0 <= k < code_count(four) ==> #[trigger] code_dist(i, k, four) >= code_dist(i, s, four)
    &&& forall|k: int| 0 <= k < s ==> #[trigger] code_dist(i, k, four) > code_dist(i, s, four)
}

/// Slot of `[byte][table][selector]` in a flattened solid table.
pub open spec fn solid_slot(d: int, m: int, sel: int) -> int {
    d * 16 + m * 4 + sel
}

/// The ETC1 packing tables: nearest 5- and 4-bit codes per byte, the best
/// 5- and 4-bit base code and its squared error (capped at 255) per byte,
/// intensity table and selector, and the packed solid block of every gray
/// level.
pub struct Etc1Tables {
    nearest5: Vec<u8>,
    nearest4: Vec<u8>,
    solid5_base: Vec<u8>,
    solid5_err: Vec<u8>,
    solid4_base: Vec<u8>,
    solid4_err: Vec<u8>,
    gray_blocks: Vec<[u8; 8]>,
}

impl Etc1Tables {
    /// The best base code table for 4-bit (`four`) or 5-bit codes.
    pub closed spec fn base_table(&self, four: bool) -> Seq<u8> {
        if four { self.solid4_base@ } else { self.solid5_base@ }
    }

    /// The capped squared-error table for 4-bit (`four`) or 5-bit codes.
    pub closed spec fn err_table(&self, four: bool) -> Seq<u8> {
        if four { self.solid4_err@ } else { self.solid5_err@ }
    }

    /// The nearest-code table for 4-bit (`four`) or 5-bit codes.
    pub closed spec fn nearest_table(&self, four: bool) -> Seq<u8> {
        if four { self.nearest4@ } else { self.nearest5@ }
    }

    /// The packed solid block of every gray level.
    pub closed spec fn gray_table(&self) -> Seq<[u8; 8]> {
        self.gray_blocks@
    }

    /// The nearest 5-bit code of byte `i`.
    pub fn nearest5_at(&self, i: usize) -> (r: u8)
        requires
            self.wf(),
            i < 256,
        ensures
            r == self.nearest_table(false)[i as int],
            is_nearest_code(i as int, false, r as int),
    {
        self.nearest5[i]
    }

    /// The nearest 4-bit code of byte `i`.
    pub fn nearest4_at(&self, i: usize) -> (r: u8)
        requires
            self.wf(),
            i < 256,
        ensures
            r == self.nearest_table(true)[i as int],
            is_nearest_code(i as int, true, r as int),
    {
        self.nearest4[i]
    }

    /// The packed solid block of gray level `i`.
    pub fn gray_block(&self, i: usize) -> (r: [u8; 8])
        requires
            self.wf(),
            i < 256,
        ensures
            is_best_solid_block(*self, [i as u8, i as u8, i as u8, 255], r),
    {
        self.gray_blocks[i]
    }

    /// The per-byte solid tables hold their best entries.
    pub open spec fn solid_wf(&self) -> bool {
        &&& self.base_table(false).len() == 4096
        &&& self.base_table(true).len() == 4096
        &&& self.err_table(false).len() == 4096
        &&& self.err_table(true).len() == 4096
        &&& forall|d: int, m: int, sel: int, four: bool|
            0 <= d < 256 && 0 <= m < 4 && 0 <= sel < 4 ==> {
                let b = #[trigger] self.base_table(four)[solid_slot(d, m, sel)] as int;
                let e = solid_dist(d, m, sel, b, four);
                &&& is_best_base(d, m, sel, four, b)
                &&& self.err_table(four)[solid_slot(d, m, sel)] as int == (if e * e < 255 { e * e } else { 255 })
            }
    }

    /// Every table holds its defining entries.
    pub open spec fn wf(&self) -> bool {
        &&& self.solid_wf()
        &&& self.nearest_table(false).len() == 256
        &&& self.nearest_table(true).len() == 256
        &&& forall|i: int, four: bool| 0 <= i < 256 ==> is_nearest_code(i, four, #[trigger] self.nearest_table(four)[i] as int)
        &&& self.gray_table().len() == 256
        &&& forall|i: int| 0 <= i < 256 ==> is_best_solid_block(*self, [i as u8, i as u8, i as u8, 255], #[trigger] self.gray_table()[i])
    }
}

/// Intensity table of solid candidate `q`.
pub open spec fn cand_mod(q: int) -> int {
    q / 8
}

/// Selector of solid candidate `q`.
pub open spec fn cand_sel(q: int) -> int {
    (q / 2) % 4
}

/// Whether solid candidate `q` uses 4-bit base codes (individual mode).
pub open spec fn cand_four(q: int) -> bool {
    q % 2 == 1
}

/// Weighted table error of solid candidate `q` for color `(r, g, b)`: red
/// counts twice, green four times, blue once.
pub open spec fn solid_cost(t: Etc1Tables, r: int, g: int, b: int, q: int) -> int {
    let m = cand_mod(q);
    let sel = cand_sel(q);
    let e = t.err_table(cand_four(q));
    2 * e[solid_slot(r, m, sel)] + 4 * e[solid_slot(g, m, sel)] + e[solid_slot(b, m, sel)]
}

/// `q` is the first of the 32 solid candidates at the least cost: tables in
/// order, selectors in order, the 5-bit candidate before the 4-bit one.
pub open spec fn is_best_candidate(t: Etc1Tables, r: int, g: int, b: int, q: int) -> bool {
    &&& 0 <= q < 32
    &&& forall|k: int| 0 <= k < 32 ==> #[trigger] solid_cost(t, r, g, b, k) >= solid_cost(t, r, g, b, q)
    &&& forall|k: int| 0 <= k < q ==> #[trigger] solid_cost(t, r, g, b, k) > solid_cost(t, r, g, b, q)
}

/// The ETC1 block of solid candidate `q` for color `(r, g, b)`: both
/// subblocks share the base color and table, every texel the selector.
pub open spec fn solid_bytes(t: Etc1Tables, r: int, g: int, b: int, q: int) -> Seq<u8> {
    let m = cand_mod(q);
    let sel = cand_sel(q);
    let four = cand_four(q);
    let bt = t.base_table(four);
    let code = |v: int| if four { bt[solid_slot(v, m, sel)] * 17 } else { bt[solid_slot(v, m, sel)] * 8 };
    let s = selector_index_to_etc1(sel);
    let lo: u8 = if s >= 2 { 255 } else { 0 };
    let hi: u8 = if s % 2 == 1 { 255 } else { 0 };
    seq![
        code(r) as u8,
        code(g) as u8,
        code(b) as u8,
        ((if four { 0int } else { 2 }) + 36 * m) as u8,
        lo,
        lo,
        hi,
        hi,
    ]
}

/// `block` is the solid block of the best candidate for color `c`.
pub open spec fn is_best_solid_block(t: Etc1Tables, c: Rgba, block: [u8; 8]) -> bool {
    exists|q: int|
        is_best_candidate(t, c[0] as int, c[1] as int, c[2] as int, q) && block@ == solid_bytes(
            t,
            c[0] as int,
            c[1] as int,
            c[2] as int,
            q,
        )
}

/// Per-slice packer state: the previously packed solid color and its block,
/// reused when consecutive blocks are the same solid color.
pub struct PackEtc1State {
    prev_solid_block: [u8; 8],
    prev_solid_r8: i32,
    prev_solid_g8: i32,
    prev_solid_b8: i32,
}

impl PackEtc1State {
    /// The remembered block is the best solid block of the remembered color,
    /// when a color is remembered.
    pub closed spec fn memo_ok(&self, t: Etc1Tables) -> bool {
        self.prev_solid_r8 >= 0 ==> {
            &&& 0 <= self.prev_solid_r8 < 256
            &&& 0 <= self.prev_solid_g8 < 256
            &&& 0 <= self.prev_solid_b8 < 256
            &&& is_best_solid_block(
                t,
                [self.prev_solid_r8 as u8, self.prev_solid_g8 as u8, self.prev_solid_b8 as u8, 255],
                self.prev_solid_block,
            )
        }
    }

    /// Whether the state remembers the solid colour `(r, g, b)`.
    pub closed spec fn remembers(&self, r: int, g: int, b: int) -> bool {
        self.prev_solid_r8 == r && self.prev_solid_g8 == g && self.prev_solid_b8 == b
    }

    /// The block remembered with the colour.
    pub closed spec fn remembered_block(&self) -> [u8; 8] {
        self.prev_solid_block
    }

    /// A cleared state (no previous solid block).
    pub fn new() -> (s: Self)
        ensures
            forall|t: Etc1Tables| s.memo_ok(t),
            forall|r: int, g: int, b: int| 0 <= r < 256 ==> !#[trigger] s.remembers(r, g, b),
    {
        Self { prev_solid_block: [0;8], prev_solid_r8: -1, prev_solid_g8: -1, prev_solid_b8: -1 }
    }
}

impl Default for PackEtc1State {
    /// A cleared state, the same as [`PackEtc1State::new`].
    fn default() -> (s: Self)
        ensures
            forall|t: Etc1Tables| s.memo_ok(t),
            forall|r: int, g: int, b: int| 0 <= r < 256 ==> !#[trigger] s.remembers(r, g, b),
    {
        Self::new()
    }
}

/// Weight of red in the solid-color error.
const SOLID_RW: u32 = 2;
/// Weight of green in the solid-color error.
const SOLID_GW: u32 = 4;

/// The ETC1 selector code (msb << 1 | lsb) of a modifier index.
fn selector_to_etc1(s: usize) -> (r: u8)
    requires
        s < 4,
    ensures
        r == selector_index_to_etc1(s as int),
{
    match s {
        0 => 3,
        1 => 2,
        2 => 0,
        _ => 1,
    }
}

/// Pack one solid-color ETC1 block: gray levels come from the gray table,
/// a repeat of the remembered color reuses its block, and otherwise the first
/// best of the 32 (table, selector, 5- or 4-bit) candidates is written and
/// remembered. `init_flag` skips both lookups, while the tables themselves
/// are being built. Whichever way, the block is the best solid block; the
/// two lookups leave the state as it was, and the search leaves it
/// remembering the colour and the block it wrote.
#[verifier::spinoff_prover]
#[verifier::rlimit(40)]
pub fn pack_etc1_solid_with(
    t: &Etc1Tables,
    block: &mut [u8; 8],
    color: Rgba,
    state: &mut PackEtc1State,
    init_flag: bool,
)
    requires
        t.solid_wf(),
        !init_flag ==> t.wf(),
        old(state).memo_ok(*t),
    ensures
        is_best_solid_block(*t, [color[0], color[1], color[2], 255], *final(block)),
        final(state).memo_ok(*t),
        !init_flag && color[0] == color[1] && color[1] == color[2] ==> {
            &&& *final(state) == *old(state)
            &&& *final(block) == t.gray_table()[color[0] as int]
        },
        !init_flag && !(color[0] == color[1] && color[1] == color[2])
            && old(state).remembers(color[0] as int, color[1] as int, color[2] as int) ==> {
            &&& *final(state) == *old(state)
            &&& *final(block) == old(state).remembered_block()
        },
        (init_flag || (!(color[0] == color[1] && color[1] == color[2])
            && !old(state).remembers(color[0] as int, color[1] as int, color[2] as int))) ==> {
            &&& final(state).remembers(color[0] as int, color[1] as int, color[2] as int)
            &&& final(state).remembered_block() == *final(block)
        },
{
    let r8 = color[0] as usize;
    let g8 = color[1] as usize;
    let b8 = color[2] as usize;
    let ghost key: Rgba = [color[0], color[1], color[2], 255];
    if !init_flag {
        if r8 == g8 && r8 == b8 {
            *block = t.gray_blocks[r8];
            proof {
                assert(t.gray_table()[r8 as int] == t.gray_blocks@[r8 as int]);
                assert(key == [r8 as u8, r8 as u8, r8 as u8, 255u8]);
            }
            return;
        }
        if state.prev_solid_r8 == r8 as i32 && state.prev_solid_g8 == g8 as i32
            && state.prev_solid_b8 == b8 as i32 {
            *block = state.prev_solid_block;
            proof {
                assert(key == [state.prev_solid_r8 as u8, state.prev_solid_g8 as u8, state.prev_solid_b8 as u8, 255u8]);
            }
            return;
        }
    }
    let (best_mod, best_sel, best4_flag) = solid_search(t, r8, g8, b8);
    let ghost q = (best_mod * 8 + best_sel * 2 + if best4_flag { 1int } else { 0 }) as int;
    assert(cand_mod(q) == best_mod && cand_sel(q) == best_sel && cand_four(q) == best4_flag);
    proof {
        vstd::arithmetic::power2::lemma2_to64();
    }
    if best4_flag {
        let r4 = t.solid4_base[r8 * 16 + best_mod * 4 + best_sel] as u32;
        let g4 = t.solid4_base[g8 * 16 + best_mod * 4 + best_sel] as u32;
        let b4 = t.solid4_base[b8 * 16 + best_mod * 4 + best_sel] as u32;
        proof {
            assert(t.base_table(true) == t.solid4_base@);
            assert(t.base_table(true)[solid_slot(r8 as int, best_mod as int, best_sel as int)] == r4);
            assert(t.base_table(true)[solid_slot(g8 as int, best_mod as int, best_sel as int)] == g4);
            assert(t.base_table(true)[solid_slot(b8 as int, best_mod as int, best_sel as int)] == b4);
            crate::bitfield::lemma_u32_or_shl(r4, r4, 4);
            crate::bitfield::lemma_u32_or_shl(g4, g4, 4);
            crate::bitfield::lemma_u32_or_shl(b4, b4, 4);
        }
        block[0] = (r4 | (r4 << 4)) as u8;
        block[1] = (g4 | (g4 << 4)) as u8;
        block[2] = (b4 | (b4 << 4)) as u8;
    } else {
        let r5 = t.solid5_base[r8 * 16 + best_mod * 4 + best_sel];
        let g5 = t.solid5_base[g8 * 16 + best_mod * 4 + best_sel];
        let b5 = t.solid5_base[b8 * 16 + best_mod * 4 + best_sel];
        proof {
            assert(t.base_table(false) == t.solid5_base@);
            assert(t.base_table(false)[solid_slot(r8 as int, best_mod as int, best_sel as int)] == r5);
            assert(t.base_table(false)[solid_slot(g8 as int, best_mod as int, best_sel as int)] == g5);
            assert(t.base_table(false)[solid_slot(b8 as int, best_mod as int, best_sel as int)] == b5);
            vstd::bits::lemma_u8_shl_is_mul(r5, 3);
            vstd::bits::lemma_u8_shl_is_mul(g5, 3);
            vstd::bits::lemma_u8_shl_is_mul(b5, 3);
        }
        block[0] = r5 << 3;
        block[1] = g5 << 3;
        block[2] = b5 << 3;
    }
    let flip = 0u32;
    let diff = if best4_flag { 0u32 } else { 1u32 };
    proof {
        crate::bitfield::lemma_etc1_control(flip, diff, best_mod as u32, best_mod as u32);
    }
    block[3] = (flip | (diff << 1) | ((best_mod as u32) << 5) | ((best_mod as u32) << 2)) as u8;
    let etc1_sels = selector_to_etc1(best_sel);
    proof {
        crate::bitfield::lemma_index_mirror(etc1_sels);
    }
    let lb: u8 = if etc1_sels & 2 != 0 { 0xFF } else { 0 };
    block[4] = lb;
    block[5] = lb;
    let hb: u8 = if etc1_sels & 1 != 0 { 0xFF } else { 0 };
    block[6] = hb;
    block[7] = hb;
    state.prev_solid_r8 = r8 as i32;
    state.prev_solid_g8 = g8 as i32;
    state.prev_solid_b8 = b8 as i32;
    state.prev_solid_block = *block;
    proof {
        assert(block@ =~= solid_bytes(*t, r8 as int, g8 as int, b8 as int, q));
        assert(key == [state.prev_solid_r8 as u8, state.prev_solid_g8 as u8, state.prev_solid_b8 as u8, 255u8]);
    }
}

/// The first best solid candidate for color `(r8, g8, b8)`, as its table,
/// selector and whether it uses 4-bit base codes.
#[verifier::spinoff_prover]
#[verifier::rlimit(40)]
fn solid_search(t: &Etc1Tables, r8: usize, g8: usize, b8: usize) -> (res: (usize, usize, bool))
    requires
        t.solid_wf(),
        r8 < 256 && g8 < 256 && b8 < 256,
    ensures
        res.0 < 4,
        res.1 < 4,
        is_best_candidate(
            *t,
            r8 as int,
            g8 as int,
            b8 as int,
            res.0 * 8 + res.1 * 2 + if res.2 { 1int } else { 0 },
        ),
{
    let mut best_err = u32::MAX;
    let mut best_mod: usize = 0;
    let mut best_sel: usize = 0;
    let mut best4_flag = false;
    let mut done = false;
    let mut m: usize = 0;
    while m < NUM_SOLID_MODS && !done
        invariant
            t.solid_wf(),
            r8 < 256 && g8 < 256 && b8 < 256,
            m <= 4,
            best_mod < 4 && best_sel < 4,
            done ==> best_err == 0,
            m == 0 && !done ==> best_err == u32::MAX,
            (m > 0 || done) ==> best_err == solid_cost(*t, r8 as int, g8 as int, b8 as int, best_mod * 8 + best_sel * 2 + if best4_flag { 1int } else { 0 }),
            forall|k: int| 0 <= k < 8 * m ==> #[trigger] solid_cost(*t, r8 as int, g8 as int, b8 as int, k) >= best_err,
            forall|k: int| 0 <= k < best_mod * 8 + best_sel * 2 + (if best4_flag { 1int } else { 0 }) ==> #[trigger] solid_cost(*t, r8 as int, g8 as int, b8 as int, k) > best_err,
            (m > 0 || done) ==> best_mod * 8 + best_sel * 2 + (if best4_flag { 1int } else { 0 }) < 8 * m + (if done { 8int } else { 0 }),
        decreases 4 - m, if done { 0int } else { 1 },
    {
        let mut sel: usize = 0;
        while sel < 4 && !done
            invariant
                t.solid_wf(),
                r8 < 256 && g8 < 256 && b8 < 256,
                m < 4,
                sel <= 4,
                best_mod < 4 && best_sel < 4,
                done ==> best_err == 0,
                m == 0 && sel == 0 && !done ==> best_err == u32::MAX,
                (m > 0 || sel > 0 || done) ==> best_err == solid_cost(*t, r8 as int, g8 as int, b8 as int, best_mod * 8 + best_sel * 2 + if best4_flag { 1int } else { 0 }),
                forall|k: int| 0 <= k < 8 * m + 2 * sel ==> #[trigger] solid_cost(*t, r8 as int, g8 as int, b8 as int, k) >= best_err,
                forall|k: int| 0 <= k < best_mod * 8 + best_sel * 2 + (if best4_flag { 1int } else { 0 }) ==> #[trigger] solid_cost(*t, r8 as int, g8 as int, b8 as int, k) > best_err,
                (m > 0 || sel > 0 || done) ==> best_mod * 8 + best_sel * 2 + (if best4_flag { 1int } else { 0 }) < 8 * m + 2 * sel + (if done { 2int } else { 0 }),
                done ==> sel < 4,
            decreases 4 - sel, if done { 0int } else { 1 },
        {
            let ghost q5 = (m * 8 + sel * 2) as int;
            let e5r = t.solid5_err[r8 * 16 + m * 4 + sel] as u32;
            let e5g = t.solid5_err[g8 * 16 + m * 4 + sel] as u32;
            let e5b = t.solid5_err[b8 * 16 + m * 4 + sel] as u32;
            proof {
                assert(t.err_table(false) == t.solid5_err@);
                assert(t.err_table(true) == t.solid4_err@);
                assert(cand_mod(q5) == m && cand_sel(q5) == sel && !cand_four(q5));
                assert(cand_mod(q5 + 1) == m && cand_sel(q5 + 1) == sel && cand_four(q5 + 1));
            }
            let total_err5 = SOLID_RW * e5r + SOLID_GW * e5g + e5b;
            assert(total_err5 == solid_cost(*t, r8 as int, g8 as int, b8 as int, q5));
            if total_err5 < best_err {
                best_err = total_err5;
                best_mod = m;
                best_sel = sel;
                best4_flag = false;
                if best_err == 0 {
                    done = true;
                }
            }
            if !done {
                let e4r = t.solid4_err[r8 * 16 + m * 4 + sel] as u32;
                let e4g = t.solid4_err[g8 * 16 + m * 4 + sel] as u32;
                let e4b = t.solid4_err[b8 * 16 + m * 4 + sel] as u32;
                let total_err4 = SOLID_RW * e4r + SOLID_GW * e4g + e4b;
                assert(total_err4 == solid_cost(*t, r8 as int, g8 as int, b8 as int, q5 + 1));
                if total_err4 < best_err {
                    best_err = total_err4;
                    best_mod = m;
                    best_sel = sel;
                    best4_flag = true;
                }
                sel = sel + 1;
            }
        }
        if !done {
            m = m + 1;
        }
    }
    proof {
        let q = best_mod * 8 + best_sel * 2 + if best4_flag { 1int } else { 0 };
        assert forall|k: int| 0 <= k < 32 implies #[trigger] solid_cost(*t, r8 as int, g8 as int, b8 as int, k) >= solid_cost(*t, r8 as int, g8 as int, b8 as int, q) by {
            if done {
                let kk = k;
                let m_ = cand_mod(kk);
                let sel_ = cand_sel(kk);
                let e = t.err_table(cand_four(kk));
                assert(0 <= solid_slot(r8 as int, m_, sel_) < 4096);
                assert(0 <= solid_slot(g8 as int, m_, sel_) < 4096);
                assert(0 <= solid_slot(b8 as int, m_, sel_) < 4096);
            }
        }
    }
    (best_mod, best_sel, best4_flag)
}

/// The first base code at the least distance from `d` under table `m` and
/// selector `sel`, and that distance.
fn best_solid_base(d: i32, m: usize, sel: usize, four: bool) -> (res: (u8, i32))
    requires
        0 <= d < 256,
        m < 4,
        sel < 4,
    ensures
        is_best_base(d as int, m as int, sel as int, four, res.0 as int),
        res.1 == solid_dist(d as int, m as int, sel as int, res.0 as int, four),
        0 <= res.1 <= 255,
{
    let n: i32 = if four { 16 } else { 32 };
    let modv = inten_table(m, sel);
    let mut best_err = i32::MAX;
    let mut best_base: i32 = 0;
    let mut b: i32 = 0;
    while b < n
        invariant_except_break
            0 <= b <= n,
            b == 0 ==> best_err == i32::MAX,
            b > 0 ==> best_base < b && best_err == solid_dist(d as int, m as int, sel as int, best_base as int, four),
            forall|k: int| 0 <= k < b ==> #[trigger] solid_dist(d as int, m as int, sel as int, k, four) >= best_err,
        invariant
            0 <= d < 256,
            m < 4 && sel < 4,
            n == code_count(four),
            modv == inten(m as int, sel as int),
            0 <= best_base < n,
            forall|k: int| 0 <= k < best_base ==> #[trigger] solid_dist(d as int, m as int, sel as int, k, four) > best_err,
        ensures
            0 <= best_base < n,
            best_err == solid_dist(d as int, m as int, sel as int, best_base as int, four),
            forall|k: int| 0 <= k < n ==> #[trigger] solid_dist(d as int, m as int, sel as int, k, four) >= best_err,
            forall|k: int| 0 <= k < best_base ==> #[trigger] solid_dist(d as int, m as int, sel as int, k, four) > best_err,
        decreases n - b,
    {
        let base = if four { dequant4(b) } else { dequant5(b) };
        let val = clamp255(base + modv) as i32;
        let err = if val >= d { val - d } else { d - val };
        assert(err == solid_dist(d as int, m as int, sel as int, b as int, four));
        if err < best_err {
            best_err = err;
            best_base = b;
            if best_err == 0 {
                break;
            }
        }
        b = b + 1;
    }
    (best_base as u8, best_err)
}

/// Whether flattened solid-table slot `j` holds the best base code and its
/// capped squared error.
pub open spec fn solid_entry_ok(base: Seq<u8>, err: Seq<u8>, four: bool, j: int) -> bool {
    let d = j / 16;
    let m = (j / 4) % 4;
    let sel = j % 4;
    let b = base[j] as int;
    let e = solid_dist(d, m, sel, b, four);
    &&& is_best_base(d, m, sel, four, b)
    &&& err[j] as int == (if e * e < 255 { e * e } else { 255 })
}

/// The first code whose expansion is nearest the byte `i`.
fn nearest_code(i: i32, four: bool) -> (s: u8)
    requires
        0 <= i < 256,
    ensures
        is_nearest_code(i as int, four, s as int),
{
    let n: i32 = if four { 16 } else { 32 };
    let mut best_e = i32::MAX;
    let mut best_idx: i32 = 0;
    let mut k: i32 = 0;
    while k < n
        invariant
            0 <= i < 256,
            n == code_count(four),
            0 <= k <= n,
            0 <= best_idx < n,
            k == 0 ==> best_e == i32::MAX,
            k > 0 ==> best_idx < k && best_e == code_dist(i as int, best_idx as int, four),
            forall|j: int| 0 <= j < k ==> #[trigger] code_dist(i as int, j, four) >= best_e,
            forall|j: int| 0 <= j < best_idx ==> #[trigger] code_dist(i as int, j, four) > best_e,
        decreases n - k,
    {
        let recovered = if four { expand4_i(k) } else { expand5_i(k) };
        let e = if recovered >= i { recovered - i } else { i - recovered };
        assert(e == code_dist(i as int, k as int, four));
        if e < best_e {
            best_e = e;
            best_idx = k;
        }
        k = k + 1;
    }
    best_idx as u8
}

/// Build the ETC1 packing tables.
#[verifier::spinoff_prover]
#[verifier::rlimit(40)]
pub fn build_etc1_tables() -> (t: Etc1Tables)
    ensures
        t.wf(),
{
    let mut nearest5: Vec<u8> = Vec::new();
    let mut nearest4: Vec<u8> = Vec::new();
    let mut i: i32 = 0;
    while i < 256
        invariant
            0 <= i <= 256,
            nearest5.len() == i && nearest4.len() == i,
            forall|j: int| 0 <= j < i ==> is_nearest_code(j, false, #[trigger] nearest5@[j] as int),
            forall|j: int| 0 <= j < i ==> is_nearest_code(j, true, #[trigger] nearest4@[j] as int),
        decreases 256 - i,
    {
        nearest5.push(nearest_code(i, false));
        nearest4.push(nearest_code(i, true));
        i = i + 1;
    }
    let mut solid5_base: Vec<u8> = Vec::new();
    let mut solid5_err: Vec<u8> = Vec::new();
    let mut solid4_base: Vec<u8> = Vec::new();
    let mut solid4_err: Vec<u8> = Vec::new();
    let mut d: i32 = 0;
    while d < 256
        invariant
            0 <= d <= 256,
            solid5_base.len() == 16 * d && solid5_err.len() == 16 * d,
            solid4_base.len() == 16 * d && solid4_err.len() == 16 * d,
            forall|j: int| 0 <= j < 16 * d ==> #[trigger] solid_entry_ok(solid5_base@, solid5_err@, false, j),
            forall|j: int| 0 <= j < 16 * d ==> #[trigger] solid_entry_ok(solid4_base@, solid4_err@, true, j),
        decreases 256 - d,
    {
        let mut m: usize = 0;
        while m < NUM_SOLID_MODS
            invariant
                0 <= d < 256,
                m <= 4,
                solid5_base.len() == 16 * d + 4 * m && solid5_err.len() == 16 * d + 4 * m,
                solid4_base.len() == 16 * d + 4 * m && solid4_err.len() == 16 * d + 4 * m,
                forall|j: int| 0 <= j < 16 * d + 4 * m ==> #[trigger] solid_entry_ok(solid5_base@, solid5_err@, false, j),
                forall|j: int| 0 <= j < 16 * d + 4 * m ==> #[trigger] solid_entry_ok(solid4_base@, solid4_err@, true, j),
            decreases 4 - m,
        {
            let mut sel: usize = 0;
            while sel < 4
                invariant
                    0 <= d < 256,
                    m < 4,
                    sel <= 4,
                    solid5_base.len() == 16 * d + 4 * m + sel && solid5_err.len() == 16 * d + 4 * m + sel,
                    solid4_base.len() == 16 * d + 4 * m + sel && solid4_err.len() == 16 * d + 4 * m + sel,
                    forall|j: int| 0 <= j < 16 * d + 4 * m + sel ==> #[trigger] solid_entry_ok(solid5_base@, solid5_err@, false, j),
                    forall|j: int| 0 <= j < 16 * d + 4 * m + sel ==> #[trigger] solid_entry_ok(solid4_base@, solid4_err@, true, j),
                decreases 4 - sel,
            {
                let ghost j = 16 * d + 4 * m + sel;
                assert(j / 16 == d && (j / 4) % 4 == m && j % 4 == sel);
                let ghost (s5b, s5e, s4b, s4e) = (solid5_base@, solid5_err@, solid4_base@, solid4_err@);
                let (b5, e5) = best_solid_base(d, m, sel, false);
                proof {
                    assert(e5 * e5 <= 65025) by (nonlinear_arith)
                        requires
                            0 <= e5 <= 255,
                    ;
                }
                let sq5 = e5 * e5;
                solid5_base.push(b5);
                solid5_err.push(if sq5 < 255 { sq5 as u8 } else { 255 });
                let (b4, e4) = best_solid_base(d, m, sel, true);
                proof {
                    assert(e4 * e4 <= 65025) by (nonlinear_arith)
                        requires
                            0 <= e4 <= 255,
                    ;
                }
                let sq4 = e4 * e4;
                solid4_base.push(b4);
                solid4_err.push(if sq4 < 255 { sq4 as u8 } else { 255 });
                proof {
                    assert forall|k: int| 0 <= k < j + 1 implies #[trigger] solid_entry_ok(solid5_base@, solid5_err@, false, k) by {
                        if k < j {
                            assert(solid_entry_ok(s5b, s5e, false, k));
                        }
                    }
                    assert forall|k: int| 0 <= k < j + 1 implies #[trigger] solid_entry_ok(solid4_base@, solid4_err@, true, k) by {
                        if k < j {
                            assert(solid_entry_ok(s4b, s4e, true, k));
                        }
                    }
                }
                sel = sel + 1;
            }
            m = m + 1;
        }
        d = d + 1;
    }
    let mut t = Etc1Tables {
        nearest5,
        nearest4,
        solid5_base,
        solid5_err,
        solid4_base,
        solid4_err,
        gray_blocks: Vec::new(),
    };
    proof {
        lemma_solid_entries_wf(t);
    }
    let mut state = PackEtc1State::new();
    let mut gray: Vec<[u8; 8]> = Vec::new();
    let mut g: u32 = 0;
    while g < 256
        invariant
            t.solid_wf(),
            g <= 256,
            gray.len() == g,
            state.memo_ok(t),
            forall|k: int| 0 <= k < g ==> is_best_solid_block(t, [k as u8, k as u8, k as u8, 255], #[trigger] gray@[k]),
        decreases 256 - g,
    {
        let mut blk = [0u8; 8];
        pack_etc1_solid_with(&t, &mut blk, [g as u8, g as u8, g as u8, 255], &mut state, true);
        gray.push(blk);
        g = g + 1;
    }
    let ghost t0 = t;
    t.gray_blocks = gray;
    proof {
        assert forall|k: int| 0 <= k < 256 implies is_best_solid_block(t, [k as u8, k as u8, k as u8, 255], #[trigger] t.gray_table()[k]) by {
            lemma_solid_tables_agree(t0, t, [k as u8, k as u8, k as u8, 255], gray@[k]);
        }
    }
    t
}

/// Turning the flattened-slot form of the solid entries into the table form.
proof fn lemma_solid_entries_wf(t: Etc1Tables)
    requires
        t.base_table(false).len() == 4096,
        t.base_table(true).len() == 4096,
        t.err_table(false).len() == 4096,
        t.err_table(true).len() == 4096,
        forall|j: int| 0 <= j < 4096 ==> #[trigger] solid_entry_ok(t.base_table(false), t.err_table(false), false, j),
        forall|j: int| 0 <= j < 4096 ==> #[trigger] solid_entry_ok(t.base_table(true), t.err_table(true), true, j),
    ensures
        t.solid_wf(),
{
    assert forall|d: int, m: int, sel: int, four: bool|
        0 <= d < 256 && 0 <= m < 4 && 0 <= sel < 4 implies {
            let b = #[trigger] t.base_table(four)[solid_slot(d, m, sel)] as int;
            let e = solid_dist(d, m, sel, b, four);
            &&& is_best_base(d, m, sel, four, b)
            &&& t.err_table(four)[solid_slot(d, m, sel)] as int == (if e * e < 255 { e * e } else { 255 })
        } by {
        let j = solid_slot(d, m, sel);
        assert(j / 16 == d && (j / 4) % 4 == m && j % 4 == sel);
        assert(solid_entry_ok(t.base_table(four), t.err_table(four), four, j));
    }
}

/// Two table sets with the same solid tables agree on which block is the
/// best solid block of a color.
proof fn lemma_solid_tables_agree(t1: Etc1Tables, t2: Etc1Tables, c: Rgba, block: [u8; 8])
    requires
        t1.base_table(false) == t2.base_table(false),
        t1.base_table(true) == t2.base_table(true),
        t1.err_table(false) == t2.err_table(false),
        t1.err_table(true) == t2.err_table(true),
        is_best_solid_block(t1, c, block),
    ensures
        is_best_solid_block(t2, c, block),
{
    let r = c[0] as int;
    let g = c[1] as int;
    let b = c[2] as int;
    let q = choose|q: int| is_best_candidate(t1, r, g, b, q) && block@ == solid_bytes(t1, r, g, b, q);
    assert forall|k: int| #[trigger] solid_cost(t2, r, g, b, k) == solid_cost(t1, r, g, b, k) by {}
    assert(solid_bytes(t2, r, g, b, q) == solid_bytes(t1, r, g, b, q));
    assert(is_best_candidate(t2, r, g, b, q));
}

/// Weighted table error of a flat subblock of mean `(r, g, b)` under table
/// `m`, selector `sel` (luma alone for a grayscale block).
pub open spec fn sub_cost(t: Etc1Tables, r: int, g: int, b: int, four: bool, gray: bool, m: int, sel: int) -> int {
    let e = t.err_table(four);
    if gray {
        e[solid_slot(r, m, sel) ] as int
    } else {
        2 * e[solid_slot(r, m, sel)] + 4 * e[solid_slot(g, m, sel)] + e[solid_slot(b, m, sel)]
    }
}

/// The search key of a subblock candidate: its error above five bits that
/// name the table and selector, so the least key is the least error, ties
/// going to the earlier candidate.
pub open spec fn sub_key(t: Etc1Tables, r: int, g: int, b: int, four: bool, gray: bool, m: int, sel: int) -> int {
    sub_cost(t, r, g, b, four, gray, m, sel) * 32 + 4 * m + sel
}

/// `(m, sel)` has the least search key among the sixteen candidates.
pub open spec fn is_min_key(t: Etc1Tables, r: int, g: int, b: int, four: bool, gray: bool, m: int, sel: int) -> bool {
    &&& 0 <= m < 4
    &&& 0 <= sel < 4
    &&& forall|m2: int, s2: int|
        0 <= m2 < 4 && 0 <= s2 < 4 ==> #[trigger] sub_key(t, r, g, b, four, gray, m2, s2) >= sub_key(t, r, g, b, four, gray, m, sel)
}

/// The least search key of a flat subblock of mean `(r8, g8, b8)`.
#[verifier::spinoff_prover]
#[verifier::rlimit(40)]
fn sub_min_key(t: &Etc1Tables, r8: usize, g8: usize, b8: usize, four: bool, gray: bool) -> (k: u32)
    requires
        t.solid_wf(),
        r8 < 256 && g8 < 256 && b8 < 256,
    ensures
        is_min_key(*t, r8 as int, g8 as int, b8 as int, four, gray, (k as int / 4) % 8, k as int % 4),
        k as int == sub_key(*t, r8 as int, g8 as int, b8 as int, four, gray, (k as int / 4) % 8, k as int % 4),
{
    let mut best = u32::MAX;
    let ghost mut bm: int = 0;
    let ghost mut bs: int = 0;
    let mut m: usize = 0;
    while m < NUM_SOLID_MODS
        invariant
            t.solid_wf(),
            r8 < 256 && g8 < 256 && b8 < 256,
            m <= 4,
            m == 0 ==> best == u32::MAX,
            m > 0 ==> 0 <= bm < 4 && 0 <= bs < 4 && best == sub_key(*t, r8 as int, g8 as int, b8 as int, four, gray, bm, bs),
            forall|m2: int, s2: int|
                0 <= m2 < m && 0 <= s2 < 4 ==> #[trigger] sub_key(*t, r8 as int, g8 as int, b8 as int, four, gray, m2, s2) >= best,
        decreases 4 - m,
    {
        let mod4 = (m as u32) * 4;
        let mut sel: usize = 0;
        while sel < 4
            invariant
                t.solid_wf(),
                r8 < 256 && g8 < 256 && b8 < 256,
                m < 4,
                sel <= 4,
                mod4 == 4 * m,
                m == 0 && sel == 0 ==> best == u32::MAX,
                (m > 0 || sel > 0) ==> 0 <= bm < 4 && 0 <= bs < 4 && best == sub_key(*t, r8 as int, g8 as int, b8 as int, four, gray, bm, bs),
                forall|m2: int, s2: int|
                    (0 <= m2 < m && 0 <= s2 < 4) || (m2 == m && 0 <= s2 < sel) ==> #[trigger] sub_key(*t, r8 as int, g8 as int, b8 as int, four, gray, m2, s2) >= best,
            decreases 4 - sel,
        {
            let e = if four { &t.solid4_err } else { &t.solid5_err };
            proof {
                assert(t.err_table(four) == e@);
            }
            let er = e[r8 * 16 + m * 4 + sel] as u32;
            let cost = if gray {
                er
            } else {
                let eg = e[g8 * 16 + m * 4 + sel] as u32;
                let eb = e[b8 * 16 + m * 4 + sel] as u32;
                SOLID_RW * er + SOLID_GW * eg + eb
            };
            proof {
                vstd::arithmetic::power2::lemma2_to64();
                vstd::bits::lemma_u32_shl_is_mul(cost, 5);
            }
            let key = (cost << 5) + (mod4 + sel as u32);
            assert(key == sub_key(*t, r8 as int, g8 as int, b8 as int, four, gray, m as int, sel as int));
            if key < best {
                best = key;
                proof {
                    bm = m as int;
                    bs = sel as int;
                }
            }
            sel = sel + 1;
        }
        m = m + 1;
    }
    proof {
        let c = sub_cost(*t, r8 as int, g8 as int, b8 as int, four, gray, bm, bs);
        assert(best as int == c * 32 + 4 * bm + bs);
        assert((best as int / 4) % 8 == bm && best as int % 4 == bs) by (nonlinear_arith)
            requires
                best as int == c * 32 + 4 * bm + bs,
                c >= 0,
                0 <= bm < 4,
                0 <= bs < 4,
        ;
    }
    best
}

/// Low (`hi` false) or high selector bit of modifier index `sel`.
pub open spec fn sel_bit(sel: int, hi: bool) -> int {
    let s = selector_index_to_etc1(sel);
    if hi { s / 2 } else { s % 2 }
}

/// The texels of subblock `sb` as a 16-bit ETC1 selector mask (texel bit
/// `x * 4 + y`): two columns for `flip` 0, two rows for `flip` 1.
pub open spec fn sub_region(flip: int, sb: int) -> int {
    if flip == 0 {
        if sb == 0 { 0xff } else { 0xff00 }
    } else {
        if sb == 0 { 0x3333 } else { 0xcccc }
    }
}

/// The selector bytes 4..8 of a block whose subblocks use selectors `s0`, `s1`
/// throughout.
pub open spec fn uniform_sel_bytes(flip: int, s0: int, s1: int) -> Seq<u8> {
    let l = sel_bit(s0, false) * sub_region(flip, 0) + sel_bit(s1, false) * sub_region(flip, 1);
    let h = sel_bit(s0, true) * sub_region(flip, 0) + sel_bit(s1, true) * sub_region(flip, 1);
    seq![(h / 256) as u8, (h % 256) as u8, (l / 256) as u8, (l % 256) as u8]
}

/// The `(low, high)` selector masks of subblock `sb` at flip `flip` when every
/// texel of it uses modifier index `sel`; `idx` is `flip * 8 + sb * 4 + sel`.
#[verifier::spinoff_prover]
fn sel_bitmasks(idx: usize) -> (r: (u16, u16))
    requires
        idx < 16,
    ensures
        r.0 == sel_bit((idx % 4) as int, false) * sub_region((idx / 8) as int, ((idx / 4) % 2) as int),
        r.1 == sel_bit((idx % 4) as int, true) * sub_region((idx / 8) as int, ((idx / 4) % 2) as int),
{
    match idx {
        0 => (0xff, 0xff),
        1 => (0x0, 0xff),
        2 => (0x0, 0x0),
        3 => (0xff, 0x0),
        4 => (0xff00, 0xff00),
        5 => (0x0, 0xff00),
        6 => (0x0, 0x0),
        7 => (0xff00, 0x0),
        8 => (0x3333, 0x3333),
        9 => (0x0, 0x3333),
        10 => (0x0, 0x0),
        11 => (0x3333, 0x0),
        12 => (0xcccc, 0xcccc),
        13 => (0x0, 0xcccc),
        14 => (0x0, 0x0),
        _ => (0xcccc, 0x0),
    }
}

/// Write the selector bytes of a block whose two subblocks each use one
/// modifier index throughout.
fn write_uniform_selectors(block: &mut [u8; 8], flip: u32, s0: usize, s1: usize)
    requires
        flip < 2,
        s0 < 4,
        s1 < 4,
    ensures
        forall|k: int| 0 <= k < 4 ==> #[trigger] final(block)[k] == old(block)[k],
        final(block)@.subrange(4, 8) == uniform_sel_bytes(flip as int, s0 as int, s1 as int),
{
    let (l0, h0) = sel_bitmasks((flip as usize) * 8 + s0);
    let (l1, h1) = sel_bitmasks((flip as usize) * 8 + 4 + s1);
    let mut l_bitmask = 0u16;
    let mut h_bitmask = 0u16;
    proof {
        crate::bitfield::lemma_etc1_masks(l0, l1, 0);
        crate::bitfield::lemma_etc1_masks(h0, h1, 0);
    }
    l_bitmask = l_bitmask | l0;
    h_bitmask = h_bitmask | h0;
    l_bitmask = l_bitmask | l1;
    h_bitmask = h_bitmask | h1;
    proof {
        crate::bitfield::lemma_etc1_masks(0, 0, l_bitmask);
        crate::bitfield::lemma_etc1_masks(0, 0, h_bitmask);
    }
    let ghost l = sel_bit(s0 as int, false) * sub_region(flip as int, 0) + sel_bit(s1 as int, false) * sub_region(flip as int, 1);
    let ghost h = sel_bit(s0 as int, true) * sub_region(flip as int, 0) + sel_bit(s1 as int, true) * sub_region(flip as int, 1);
    assert(l_bitmask as int == l);
    assert(h_bitmask as int == h);
    block[7] = l_bitmask as u8;
    block[6] = (l_bitmask >> 8) as u8;
    block[5] = h_bitmask as u8;
    block[4] = (h_bitmask >> 8) as u8;
    assert(block[7] as int == l % 256);
    assert(block[6] as int == l / 256);
    assert(block[5] as int == h % 256);
    assert(block[4] as int == h / 256);
    assert(block@.subrange(4, 8) =~= uniform_sel_bytes(flip as int, s0 as int, s1 as int));
}

/// Table of a subblock search key.
pub open spec fn key_mod(k: int) -> int {
    (k / 4) % 8
}

/// Selector of a subblock search key.
pub open spec fn key_sel(k: int) -> int {
    k % 4
}

/// `k` is the least search key of a flat subblock of mean `(r, g, b)`.
pub open spec fn is_sub_best(t: Etc1Tables, r: int, g: int, b: int, four: bool, gray: bool, k: int) -> bool {
    &&& is_min_key(t, r, g, b, four, gray, key_mod(k), key_sel(k))
    &&& k == sub_key(t, r, g, b, four, gray, key_mod(k), key_sel(k))
}

/// The base code of channel value `v` for subblock key `k`.
pub open spec fn key_base(t: Etc1Tables, four: bool, v: int, k: int) -> int {
    t.base_table(four)[solid_slot(v, key_mod(k), key_sel(k))] as int
}

/// The block of two flat subblocks from each subblock's best 5-bit and
/// 4-bit candidates: base codes `b5`, `b4` (subblock-major, three channels
/// each), tables `m5`, `m4`, selectors `s5`, `s4` and errors `e5`, `e4`.
/// Differential mode when its total error is no worse and every base delta
/// fits in three bits, individual mode otherwise.
pub open spec fn pair_bytes(
    flip: int,
    b5: Seq<int>,
    b4: Seq<int>,
    m5: Seq<int>,
    s5: Seq<int>,
    m4: Seq<int>,
    s4: Seq<int>,
    e5: Seq<int>,
    e4: Seq<int>,
) -> Seq<u8> {
    let delta = |c: int| b5[3 + c] - b5[c];
    let fits = |c: int| -4 <= delta(c) <= 3;
    let use_abs = e4[0] + e4[1] < e5[0] + e5[1] || !(fits(0) && fits(1) && fits(2));
    let color = |c: int|
        if use_abs { (b4[3 + c] + 16 * b4[c]) as u8 } else { ((delta(c) + 8) % 8 + 8 * b5[c]) as u8 };
    let ctrl: u8 = if use_abs {
        (flip + 32 * m4[0] + 4 * m4[1]) as u8
    } else {
        (flip + 2 + 32 * m5[0] + 4 * m5[1]) as u8
    };
    let sels = if use_abs { uniform_sel_bytes(flip, s4[0], s4[1]) } else {
        uniform_sel_bytes(flip, s5[0], s5[1])
    };
    seq![color(0), color(1), color(2), ctrl] + sels
}

/// The block of two flat subblocks with channel values `v(sb, c)` and least
/// search keys `k5` (5-bit bases) and `k4` (4-bit bases).
pub open spec fn flat_pair_bytes(
    t: Etc1Tables,
    v: spec_fn(int, int) -> int,
    flip: int,
    k5: Seq<int>,
    k4: Seq<int>,
) -> Seq<u8> {
    pair_bytes(
        flip,
        Seq::new(6, |i: int| key_base(t, false, v(i / 3, i % 3), k5[i / 3])),
        Seq::new(6, |i: int| key_base(t, true, v(i / 3, i % 3), k4[i / 3])),
        Seq::new(2, |sb: int| key_mod(k5[sb])),
        Seq::new(2, |sb: int| key_sel(k5[sb])),
        Seq::new(2, |sb: int| key_mod(k4[sb])),
        Seq::new(2, |sb: int| key_sel(k4[sb])),
        Seq::new(2, |sb: int| k5[sb] / 32),
        Seq::new(2, |sb: int| k4[sb] / 32),
    )
}

/// Write the block of two flat subblocks from their chosen candidates.
fn write_flat_pair(
    block: &mut [u8; 8],
    flip: u32,
    base5: [[u32; 3]; 2],
    base4: [[u32; 3]; 2],
    mod5: [usize; 2],
    sel5: [usize; 2],
    mod4: [usize; 2],
    sel4: [usize; 2],
    err5: [u32; 2],
    err4: [u32; 2],
)
    requires
        flip < 2,
        forall|j: int, c: int| 0 <= j < 2 && 0 <= c < 3 ==> base5[j][c] < 32 && base4[j][c] < 16,
        forall|j: int| 0 <= j < 2 ==> mod5[j] < 4 && sel5[j] < 4 && mod4[j] < 4 && sel4[j] < 4,
        forall|j: int| 0 <= j < 2 ==> err5[j] <= 1785 && err4[j] <= 1785,
    ensures
        final(block)@ == pair_bytes(
            flip as int,
            Seq::new(6, |i: int| base5[i / 3][i % 3] as int),
            Seq::new(6, |i: int| base4[i / 3][i % 3] as int),
            Seq::new(2, |j: int| mod5[j] as int),
            Seq::new(2, |j: int| sel5[j] as int),
            Seq::new(2, |j: int| mod4[j] as int),
            Seq::new(2, |j: int| sel4[j] as int),
            Seq::new(2, |j: int| err5[j] as int),
            Seq::new(2, |j: int| err4[j] as int),
        ),
{
    let total_err4 = err4[0] + err4[1];
    let total_err5 = err5[0] + err5[1];
    let mut use_abs = total_err4 < total_err5;
    if !use_abs {
        let dr = base5[1][0] as i32 - base5[0][0] as i32;
        let dg = base5[1][1] as i32 - base5[0][1] as i32;
        let db = base5[1][2] as i32 - base5[0][2] as i32;
        if !(-4 <= dr && dr <= 3) || !(-4 <= dg && dg <= 3) || !(-4 <= db && db <= 3) {
            use_abs = true;
        }
    }
    let (s0, s1) = if use_abs {
        let mut c: usize = 0;
        while c < 3
            invariant
                c <= 3,
                forall|j: int, cc: int| 0 <= j < 2 && 0 <= cc < 3 ==> base4[j][cc] < 16,
                forall|cc: int| #![trigger block[cc]] 0 <= cc < c ==> block[cc] == (base4[1][cc] + 16 * base4[0][cc]) as u8,
            decreases 3 - c,
        {
            proof {
                vstd::arithmetic::power2::lemma2_to64();
                crate::bitfield::lemma_u32_or_shl(base4[1][c as int], base4[0][c as int], 4);
            }
            block[c] = (base4[1][c] | (base4[0][c] << 4)) as u8;
            c = c + 1;
        }
        let diff = 0u32;
        proof {
            crate::bitfield::lemma_etc1_control(flip, diff, mod4[0] as u32, mod4[1] as u32);
        }
        block[3] = (flip | (diff << 1) | ((mod4[0] as u32) << 5) | ((mod4[1] as u32) << 2)) as u8;
        (sel4[0], sel4[1])
    } else {
        let mut c: usize = 0;
        while c < 3
            invariant
                c <= 3,
                forall|j: int, cc: int| 0 <= j < 2 && 0 <= cc < 3 ==> base5[j][cc] < 32,
                forall|cc: int| #![trigger base5[1][cc]] 0 <= cc < 3 ==> -4 <= base5[1][cc] - base5[0][cc] <= 3,
                forall|cc: int| #![trigger block[cc]] 0 <= cc < c ==> block[cc] == (((base5[1][cc] - base5[0][cc]) + 8) % 8 + 8 * base5[0][cc]) as u8,
            decreases 3 - c,
        {
            let delta = (base5[1][c] as i32 - base5[0][c] as i32) & 7;
            proof {
                crate::bitfield::lemma_word_bits(0, 0, (base5[1][c as int] as i32 - base5[0][c as int] as i32) as i32);
                vstd::arithmetic::power2::lemma2_to64();
                crate::bitfield::lemma_u32_or_shl(delta as u32, base5[0][c as int], 3);
            }
            block[c] = (delta as u32 | (base5[0][c] << 3)) as u8;
            c = c + 1;
        }
        let diff = 1u32;
        proof {
            crate::bitfield::lemma_etc1_control(flip, diff, mod5[0] as u32, mod5[1] as u32);
        }
        block[3] = (flip | (diff << 1) | ((mod5[0] as u32) << 5) | ((mod5[1] as u32) << 2)) as u8;
        (sel5[0], sel5[1])
    };
    write_uniform_selectors(block, flip, s0, s1);
    assert(block@ =~= pair_bytes(
        flip as int,
        Seq::new(6, |i: int| base5[i / 3][i % 3] as int),
        Seq::new(6, |i: int| base4[i / 3][i % 3] as int),
        Seq::new(2, |j: int| mod5[j] as int),
        Seq::new(2, |j: int| sel5[j] as int),
        Seq::new(2, |j: int| mod4[j] as int),
        Seq::new(2, |j: int| sel4[j] as int),
        Seq::new(2, |j: int| err5[j] as int),
        Seq::new(2, |j: int| err4[j] as int),
    ));
}

/// Table, selector and error of a subblock search key.
fn split_key(k: u32) -> (r: (usize, usize, u32))
    ensures
        r.0 as int == key_mod(k as int),
        r.1 as int == key_sel(k as int),
        r.2 as int == k as int / 32,
{
    proof {
        vstd::arithmetic::power2::lemma2_to64();
        crate::bitfield::lemma_u32_shr_mask(k, 2, 3, 7);
        assert(k >> 0u32 == k) by {
            vstd::bits::lemma_u32_shr_is_div(k, 0);
        }
        crate::bitfield::lemma_u32_shr_mask(k, 0, 2, 3);
        vstd::bits::lemma_u32_shr_is_div(k, 5);
    }
    (((k >> 2) & 7) as usize, (k & 3) as usize, k >> 5)
}

/// Pack a block of two flat subblocks: each subblock is one solid color with
/// one selector throughout. Each subblock takes its least-key 5-bit and 4-bit
/// candidates; the block is differential unless the 4-bit pair has less total
/// error or a base delta does not fit.
#[verifier::spinoff_prover]
#[verifier::rlimit(40)]
pub fn pack_etc1_solid_subblocks(t: &Etc1Tables, block: &mut [u8; 8], means: [[u8; 4]; 2], flip: u32)
    requires
        t.solid_wf(),
        flip < 2,
    ensures
        exists|k5: Seq<int>, k4: Seq<int>|
            k5.len() == 2 && k4.len() == 2
            && (forall|sb: int| 0 <= sb < 2 ==> is_sub_best(*t, means[sb][0] as int, means[sb][1] as int, means[sb][2] as int, false, false, #[trigger] k5[sb]))
            && (forall|sb: int| 0 <= sb < 2 ==> is_sub_best(*t, means[sb][0] as int, means[sb][1] as int, means[sb][2] as int, true, false, #[trigger] k4[sb]))
            && final(block)@ == flat_pair_bytes(*t, |sb: int, c: int| means[sb][c] as int, flip as int, k5, k4),
{
    let mut best_mod5 = [0usize; 2];
    let mut best_sel5 = [0usize; 2];
    let mut best_base5 = [[0u32; 3]; 2];
    let mut best_err5 = [0u32; 2];
    let mut best_mod4 = [0usize; 2];
    let mut best_sel4 = [0usize; 2];
    let mut best_base4 = [[0u32; 3]; 2];
    let mut best_err4 = [0u32; 2];
    let ghost mut k5: Seq<int> = seq![0, 0];
    let ghost mut k4: Seq<int> = seq![0, 0];
    let ghost v = |sb: int, c: int| means[sb][c] as int;
    let mut sb: usize = 0;
    while sb < 2
        invariant
            t.solid_wf(),
            sb <= 2,
            k5.len() == 2 && k4.len() == 2,
            v == (|sb: int, c: int| means[sb][c] as int),
            forall|j: int| 0 <= j < sb ==> is_sub_best(*t, means[j][0] as int, means[j][1] as int, means[j][2] as int, false, false, #[trigger] k5[j]),
            forall|j: int| 0 <= j < sb ==> is_sub_best(*t, means[j][0] as int, means[j][1] as int, means[j][2] as int, true, false, #[trigger] k4[j]),
            forall|j: int| #![trigger k5[j]] 0 <= j < sb ==> best_mod5[j] == key_mod(k5[j]) && best_sel5[j] == key_sel(k5[j]) && best_err5[j] == k5[j] / 32,
            forall|j: int| #![trigger k4[j]] 0 <= j < sb ==> best_mod4[j] == key_mod(k4[j]) && best_sel4[j] == key_sel(k4[j]) && best_err4[j] == k4[j] / 32,
            forall|j: int, c: int| 0 <= j < sb && 0 <= c < 3 ==> #[trigger] best_base5[j][c] == key_base(*t, false, v(j, c), k5[j]),
            forall|j: int, c: int| 0 <= j < sb && 0 <= c < 3 ==> #[trigger] best_base4[j][c] == key_base(*t, true, v(j, c), k4[j]),
            forall|j: int, c: int| 0 <= j < sb && 0 <= c < 3 ==> best_base5[j][c] < 32 && best_base4[j][c] < 16,
            forall|j: int| 0 <= j < sb ==> best_mod5[j] < 4 && best_sel5[j] < 4 && best_mod4[j] < 4 && best_sel4[j] < 4,
            forall|j: int| 0 <= j < sb ==> best_err5[j] <= 1785 && best_err4[j] <= 1785,
        decreases 2 - sb,
    {
        let r8 = means[sb][0] as usize;
        let g8 = means[sb][1] as usize;
        let b8 = means[sb][2] as usize;
        let e5 = sub_min_key(t, r8, g8, b8, false, false);
        let e4 = sub_min_key(t, r8, g8, b8, true, false);
        let (m5, s5, err5) = split_key(e5);
        let (m4, s4, err4) = split_key(e4);
        proof {
            k5 = k5.update(sb as int, e5 as int);
            k4 = k4.update(sb as int, e4 as int);
        }
        best_mod5[sb] = m5;
        best_sel5[sb] = s5;
        best_err5[sb] = err5;
        best_mod4[sb] = m4;
        best_sel4[sb] = s4;
        best_err4[sb] = err4;
        proof {
            assert(t.base_table(false) == t.solid5_base@);
            assert(t.base_table(true) == t.solid4_base@);
            assert(m5 < 4 && s5 < 4 && m4 < 4 && s4 < 4);
            let _ = t.base_table(false)[solid_slot(r8 as int, m5 as int, s5 as int)];
            let _ = t.base_table(false)[solid_slot(g8 as int, m5 as int, s5 as int)];
            let _ = t.base_table(false)[solid_slot(b8 as int, m5 as int, s5 as int)];
            let _ = t.base_table(true)[solid_slot(r8 as int, m4 as int, s4 as int)];
            let _ = t.base_table(true)[solid_slot(g8 as int, m4 as int, s4 as int)];
            let _ = t.base_table(true)[solid_slot(b8 as int, m4 as int, s4 as int)];
        }
        best_base5[sb] = [
            t.solid5_base[r8 * 16 + m5 * 4 + s5] as u32,
            t.solid5_base[g8 * 16 + m5 * 4 + s5] as u32,
            t.solid5_base[b8 * 16 + m5 * 4 + s5] as u32,
        ];
        best_base4[sb] = [
            t.solid4_base[r8 * 16 + m4 * 4 + s4] as u32,
            t.solid4_base[g8 * 16 + m4 * 4 + s4] as u32,
            t.solid4_base[b8 * 16 + m4 * 4 + s4] as u32,
        ];
        sb = sb + 1;
    }

    write_flat_pair(block, flip, best_base5, best_base4, best_mod5, best_sel5, best_mod4, best_sel4, best_err5, best_err4);
    proof {
        let b5 = Seq::new(6, |i: int| best_base5[i / 3][i % 3] as int);
        let b4 = Seq::new(6, |i: int| best_base4[i / 3][i % 3] as int);
        assert(b5 =~= Seq::new(6, |i: int| key_base(*t, false, v(i / 3, i % 3), k5[i / 3])));
        assert(b4 =~= Seq::new(6, |i: int| key_base(*t, true, v(i / 3, i % 3), k4[i / 3])));
        assert(Seq::new(2, |j: int| best_mod5[j] as int) =~= Seq::new(2, |sb: int| key_mod(k5[sb])));
        assert(Seq::new(2, |j: int| best_sel5[j] as int) =~= Seq::new(2, |sb: int| key_sel(k5[sb])));
        assert(Seq::new(2, |j: int| best_mod4[j] as int) =~= Seq::new(2, |sb: int| key_mod(k4[sb])));
        assert(Seq::new(2, |j: int| best_sel4[j] as int) =~= Seq::new(2, |sb: int| key_sel(k4[sb])));
        assert(Seq::new(2, |j: int| best_err5[j] as int) =~= Seq::new(2, |sb: int| k5[sb] / 32));
        assert(Seq::new(2, |j: int| best_err4[j] as int) =~= Seq::new(2, |sb: int| k4[sb] / 32));
    }
}

/// Grayscale twin of [`pack_etc1_solid_subblocks`]: each subblock is one gray
/// level, searched on its luma error alone.
#[verifier::spinoff_prover]
#[verifier::rlimit(40)]
pub fn pack_etc1_grayscale_solid_subblocks(t: &Etc1Tables, block: &mut [u8; 8], means: [u8; 2], flip: u32)
    requires
        t.solid_wf(),
        flip < 2,
    ensures
        exists|k5: Seq<int>, k4: Seq<int>|
            k5.len() == 2 && k4.len() == 2
            && (forall|sb: int| 0 <= sb < 2 ==> is_sub_best(*t, means[sb] as int, means[sb] as int, means[sb] as int, false, true, #[trigger] k5[sb]))
            && (forall|sb: int| 0 <= sb < 2 ==> is_sub_best(*t, means[sb] as int, means[sb] as int, means[sb] as int, true, true, #[trigger] k4[sb]))
            && final(block)@ == flat_pair_bytes(*t, |sb: int, c: int| means[sb] as int, flip as int, k5, k4),
{
    let mut best_mod5 = [0usize; 2];
    let mut best_sel5 = [0usize; 2];
    let mut best_base5 = [[0u32; 3]; 2];
    let mut best_err5 = [0u32; 2];
    let mut best_mod4 = [0usize; 2];
    let mut best_sel4 = [0usize; 2];
    let mut best_base4 = [[0u32; 3]; 2];
    let mut best_err4 = [0u32; 2];
    let ghost mut k5: Seq<int> = seq![0, 0];
    let ghost mut k4: Seq<int> = seq![0, 0];
    let ghost v = |sb: int, c: int| means[sb] as int;
    let mut sb: usize = 0;
    while sb < 2
        invariant
            t.solid_wf(),
            sb <= 2,
            k5.len() == 2 && k4.len() == 2,
            v == (|sb: int, c: int| means[sb] as int),
            forall|j: int| 0 <= j < sb ==> is_sub_best(*t, means[j] as int, means[j] as int, means[j] as int, false, true, #[trigger] k5[j]),
            forall|j: int| 0 <= j < sb ==> is_sub_best(*t, means[j] as int, means[j] as int, means[j] as int, true, true, #[trigger] k4[j]),
            forall|j: int| #![trigger k5[j]] 0 <= j < sb ==> best_mod5[j] == key_mod(k5[j]) && best_sel5[j] == key_sel(k5[j]) && best_err5[j] == k5[j] / 32,
            forall|j: int| #![trigger k4[j]] 0 <= j < sb ==> best_mod4[j] == key_mod(k4[j]) && best_sel4[j] == key_sel(k4[j]) && best_err4[j] == k4[j] / 32,
            forall|j: int, c: int| 0 <= j < sb && 0 <= c < 3 ==> #[trigger] best_base5[j][c] == key_base(*t, false, v(j, c), k5[j]),
            forall|j: int, c: int| 0 <= j < sb && 0 <= c < 3 ==> #[trigger] best_base4[j][c] == key_base(*t, true, v(j, c), k4[j]),
            forall|j: int, c: int| 0 <= j < sb && 0 <= c < 3 ==> best_base5[j][c] < 32 && best_base4[j][c] < 16,
            forall|j: int| 0 <= j < sb ==> best_mod5[j] < 4 && best_sel5[j] < 4 && best_mod4[j] < 4 && best_sel4[j] < 4,
            forall|j: int| 0 <= j < sb ==> best_err5[j] <= 1785 && best_err4[j] <= 1785,
        decreases 2 - sb,
    {
        let y8 = means[sb] as usize;
        let e5 = sub_min_key(t, y8, y8, y8, false, true);
        let e4 = sub_min_key(t, y8, y8, y8, true, true);
        let (m5, s5, err5) = split_key(e5);
        let (m4, s4, err4) = split_key(e4);
        proof {
            k5 = k5.update(sb as int, e5 as int);
            k4 = k4.update(sb as int, e4 as int);
        }
        best_mod5[sb] = m5;
        best_sel5[sb] = s5;
        best_err5[sb] = err5;
        best_mod4[sb] = m4;
        best_sel4[sb] = s4;
        best_err4[sb] = err4;
        proof {
            assert(t.base_table(false) == t.solid5_base@);
            assert(t.base_table(true) == t.solid4_base@);
            assert(m5 < 4 && s5 < 4 && m4 < 4 && s4 < 4);
            let _ = t.base_table(false)[solid_slot(y8 as int, m5 as int, s5 as int)];
            let _ = t.base_table(true)[solid_slot(y8 as int, m4 as int, s4 as int)];
        }
        let b5 = t.solid5_base[y8 * 16 + m5 * 4 + s5] as u32;
        let b4 = t.solid4_base[y8 * 16 + m4 * 4 + s4] as u32;
        best_base5[sb] = [b5, b5, b5];
        best_base4[sb] = [b4, b4, b4];
        sb = sb + 1;
    }
    write_flat_pair(block, flip, best_base5, best_base4, best_mod5, best_sel5, best_mod4, best_sel4, best_err5, best_err4);
    proof {
        let b5 = Seq::new(6, |i: int| best_base5[i / 3][i % 3] as int);
        let b4 = Seq::new(6, |i: int| best_base4[i / 3][i % 3] as int);
        assert(b5 =~= Seq::new(6, |i: int| key_base(*t, false, v(i / 3, i % 3), k5[i / 3])));
        assert(b4 =~= Seq::new(6, |i: int| key_base(*t, true, v(i / 3, i % 3), k4[i / 3])));
        assert(Seq::new(2, |j: int| best_mod5[j] as int) =~= Seq::new(2, |sb: int| key_mod(k5[sb])));
        assert(Seq::new(2, |j: int| best_sel5[j] as int) =~= Seq::new(2, |sb: int| key_sel(k5[sb])));
        assert(Seq::new(2, |j: int| best_mod4[j] as int) =~= Seq::new(2, |sb: int| key_mod(k4[sb])));
        assert(Seq::new(2, |j: int| best_sel4[j] as int) =~= Seq::new(2, |sb: int| key_sel(k4[sb])));
        assert(Seq::new(2, |j: int| best_err5[j] as int) =~= Seq::new(2, |sb: int| k5[sb] / 32));
        assert(Seq::new(2, |j: int| best_err4[j] as int) =~= Seq::new(2, |sb: int| k4[sb] / 32));
    }
}

/// Chroma energy of an RGB error: the squared pairwise channel differences.
pub open spec fn chroma_energy(er: int, eg: int, eb: int) -> int {
    (er - eg) * (er - eg) + (eg - eb) * (eg - eb) + (eb - er) * (eb - er)
}

/// Code of channel `c` for floor/ceil combination `m`: bit `c` of `m` picks
/// the ceiling code.
pub open spec fn combo_code(m: int, c: int, lo: int, hi: int) -> int {
    let bit = if c == 0 { m % 2 } else if c == 1 { (m / 2) % 2 } else { (m / 4) % 2 };
    if bit == 1 { hi } else { lo }
}

/// Chroma energy of floor/ceil combination `m` for an RGB mean quantized to
/// `bits`-bit codes with floors `lo` and ceilings `hi`.
pub open spec fn combo_energy(rgb: Seq<int>, lo: Seq<int>, hi: Seq<int>, four: bool, m: int) -> int {
    chroma_energy(
        rgb[0] - dequant_spec(combo_code(m, 0, lo[0], hi[0]), four),
        rgb[1] - dequant_spec(combo_code(m, 1, lo[1], hi[1]), four),
        rgb[2] - dequant_spec(combo_code(m, 2, lo[2], hi[2]), four),
    )
}

/// `m` is the first of the eight floor/ceil combinations at the least chroma
/// energy.
pub open spec fn is_best_combo(rgb: Seq<int>, lo: Seq<int>, hi: Seq<int>, four: bool, m: int) -> bool {
    &&& 0 <= m < 8
    &&& forall|k: int| 0 <= k < 8 ==> #[trigger] combo_energy(rgb, lo, hi, four, k) >= combo_energy(rgb, lo, hi, four, m)
    &&& forall|k: int| 0 <= k < m ==> #[trigger] combo_energy(rgb, lo, hi, four, k) > combo_energy(rgb, lo, hi, four, m)
}

/// Floor codes of an RGB mean: `v * 31 / 255`, or `v * 15 / 255` for 4 bits.
pub open spec fn floor_codes(r: int, g: int, b: int, four: bool) -> Seq<int> {
    if four {
        seq![r * 15 / 255, g * 15 / 255, b * 15 / 255]
    } else {
        seq![r * 31 / 255, g * 31 / 255, b * 31 / 255]
    }
}

/// Ceiling codes: one above each floor code, capped at the top code.
pub open spec fn ceil_codes(r: int, g: int, b: int, four: bool) -> Seq<int> {
    let lo = floor_codes(r, g, b, four);
    let top = if four { 15int } else { 31 };
    Seq::new(3, |c: int| if lo[c] + 1 < top { lo[c] + 1 } else { top })
}

/// An RGB mean as a sequence.
pub open spec fn mean_seq(r: int, g: int, b: int) -> Seq<int> {
    seq![r, g, b]
}

/// `out` is the correlated rounding of the RGB mean `(r, g, b)`: the codes of
/// the first floor/ceil combination at the least chroma energy.
pub open spec fn is_corr_rounding(r: int, g: int, b: int, four: bool, out: [i32; 3]) -> bool {
    exists|m: int|
        #[trigger] is_best_combo(mean_seq(r, g, b), floor_codes(r, g, b, four), ceil_codes(r, g, b, four), four, m)
        && out[0] == combo_code(m, 0, floor_codes(r, g, b, four)[0], ceil_codes(r, g, b, four)[0])
        && out[1] == combo_code(m, 1, floor_codes(r, g, b, four)[1], ceil_codes(r, g, b, four)[1])
        && out[2] == combo_code(m, 2, floor_codes(r, g, b, four)[2], ceil_codes(r, g, b, four)[2])
}

/// Quantize an RGB mean to 5:5:5 (or 4:4:4 for `four`) by choosing, over the
/// eight floor/ceil combinations of the channel codes, the first at the least
/// chroma energy.
#[verifier::spinoff_prover]
#[verifier::rlimit(40)]
fn corr_round(r: i32, g: i32, b: i32, four: bool) -> (out: [i32; 3])
    requires
        0 <= r <= 255 && 0 <= g <= 255 && 0 <= b <= 255,
    ensures
        is_corr_rounding(r as int, g as int, b as int, four, out),
{
    let (rl, gl, bl) = if four { (q4_floor(r), q4_floor(g), q4_floor(b)) } else { (q5_floor(r), q5_floor(g), q5_floor(b)) };
    let top: i32 = if four { 15 } else { 31 };
    let rh = if rl + 1 < top { rl + 1 } else { top };
    let gh = if gl + 1 < top { gl + 1 } else { top };
    let bh = if bl + 1 < top { bl + 1 } else { top };
    let lo_codes: [i32; 3] = [rl, gl, bl];
    let hi_codes: [i32; 3] = [rh, gh, bh];
    let ghost rgb = seq![r as int, g as int, b as int];
    let ghost lo = seq![rl as int, gl as int, bl as int];
    let ghost hi = seq![rh as int, gh as int, bh as int];
    let mut best = [rl, gl, bl];
    let mut best_j: i32 = 0;
    let mut best_m: usize = 0;
    let mut m: usize = 0;
    while m < 8
        invariant
            0 <= r <= 255 && 0 <= g <= 255 && 0 <= b <= 255,
            rgb == seq![r as int, g as int, b as int],
            lo == seq![lo_codes[0] as int, lo_codes[1] as int, lo_codes[2] as int],
            hi == seq![hi_codes[0] as int, hi_codes[1] as int, hi_codes[2] as int],
            forall|c: int| 0 <= c < 3 ==> 0 <= #[trigger] lo_codes[c] < code_count(four) && 0 <= hi_codes[c] < code_count(four),
            m <= 8,
            best_m < 8,
            m > 0 ==> best_m < m && best_j == combo_energy(rgb, lo, hi, four, best_m as int),
            forall|c: int| 0 <= c < 3 ==> #[trigger] best[c] == combo_code(best_m as int, c, lo[c], hi[c]),
            forall|k: int| 0 <= k < m ==> #[trigger] combo_energy(rgb, lo, hi, four, k) >= best_j,
            forall|k: int| 0 <= k < best_m ==> #[trigger] combo_energy(rgb, lo, hi, four, k) > best_j,
        decreases 8 - m,
    {
        let ghost mm = m as int;
        proof {
            assert(m & 1 == m % 2 && (m >> 1) & 1 == (m / 2) % 2 && (m >> 2) & 1 == (m / 4) % 2) by (bit_vector)
                requires
                    m < 8,
            ;
        }
        let tr = if m & 1 != 0 { hi_codes[0] } else { lo_codes[0] };
        let tg = if (m >> 1) & 1 != 0 { hi_codes[1] } else { lo_codes[1] };
        let tb = if (m >> 2) & 1 != 0 { hi_codes[2] } else { lo_codes[2] };
        let d8r = if four { dequant4(tr) } else { dequant5(tr) };
        let d8g = if four { dequant4(tg) } else { dequant5(tg) };
        let d8b = if four { dequant4(tb) } else { dequant5(tb) };
        let er = r - d8r;
        let eg = g - d8g;
        let eb = b - d8b;
        let j = squarei(er - eg) + squarei(eg - eb) + squarei(eb - er);
        assert(j == combo_energy(rgb, lo, hi, four, mm));
        if m == 0 || j < best_j {
            best_j = j;
            best = [tr, tg, tb];
            best_m = m;
        }
        m = m + 1;
    }
    proof {
        assert(rgb =~= mean_seq(r as int, g as int, b as int));
        assert(lo =~= floor_codes(r as int, g as int, b as int, four));
        assert(hi =~= ceil_codes(r as int, g as int, b as int, four));
        assert(is_best_combo(rgb, lo, hi, four, best_m as int));
        assert(best[0] == combo_code(best_m as int, 0, lo[0], hi[0]));
        assert(best[1] == combo_code(best_m as int, 1, lo[1], hi[1]));
        assert(best[2] == combo_code(best_m as int, 2, lo[2], hi[2]));
    }
    best
}

/// Quantize an RGB mean to 5:5:5, minimizing the chroma (channel-difference)
/// energy over the eight floor/ceil combinations.
pub fn corr_round_555(r: i32, g: i32, b: i32) -> (out: [i32; 3])
    requires
        0 <= r <= 255 && 0 <= g <= 255 && 0 <= b <= 255,
    ensures
        is_corr_rounding(r as int, g as int, b as int, false, out),
{
    corr_round(r, g, b, false)
}

/// The 4:4:4 twin of [`corr_round_555`].
pub fn corr_round_444(r: i32, g: i32, b: i32) -> (out: [i32; 3])
    requires
        0 <= r <= 255 && 0 <= g <= 255 && 0 <= b <= 255,
    ensures
        is_corr_rounding(r as int, g as int, b as int, true, out),
{
    corr_round(r, g, b, true)
}

/// The correlated rounding of a mean is unique: two roundings of the same
/// mean have the same codes.
pub proof fn lemma_corr_rounding_unique(r: int, g: int, b: int, four: bool, o1: [i32; 3], o2: [i32; 3])
    requires
        is_corr_rounding(r, g, b, four, o1),
        is_corr_rounding(r, g, b, four, o2),
    ensures
        o1 == o2,
{
    let rgb = mean_seq(r, g, b);
    let lo = floor_codes(r, g, b, four);
    let hi = ceil_codes(r, g, b, four);
    let m1 = choose|m: int| #[trigger] is_best_combo(rgb, lo, hi, four, m)
        && o1[0] == combo_code(m, 0, lo[0], hi[0])
        && o1[1] == combo_code(m, 1, lo[1], hi[1])
        && o1[2] == combo_code(m, 2, lo[2], hi[2]);
    let m2 = choose|m: int| #[trigger] is_best_combo(rgb, lo, hi, four, m)
        && o2[0] == combo_code(m, 0, lo[0], hi[0])
        && o2[1] == combo_code(m, 1, lo[1], hi[1])
        && o2[2] == combo_code(m, 2, lo[2], hi[2]);
    if m1 < m2 {
        assert(combo_energy(rgb, lo, hi, four, m1) > combo_energy(rgb, lo, hi, four, m2));
        assert(combo_energy(rgb, lo, hi, four, m2) >= combo_energy(rgb, lo, hi, four, m1));
    } else if m2 < m1 {
        assert(combo_energy(rgb, lo, hi, four, m2) > combo_energy(rgb, lo, hi, four, m1));
        assert(combo_energy(rgb, lo, hi, four, m1) >= combo_energy(rgb, lo, hi, four, m2));
    }
    assert(o1 =~= o2);
}

/// A correlated rounding's codes are in range.
pub proof fn lemma_corr_range(r: int, g: int, b: int, four: bool, out: [i32; 3])
    requires
        0 <= r <= 255 && 0 <= g <= 255 && 0 <= b <= 255,
        is_corr_rounding(r, g, b, four, out),
    ensures
        forall|c: int| 0 <= c < 3 ==> 0 <= #[trigger] out[c] < code_count(four),
{
    let m = choose|m: int|
        #[trigger] is_best_combo(mean_seq(r, g, b), floor_codes(r, g, b, four), ceil_codes(r, g, b, four), four, m)
        && out[0] == combo_code(m, 0, floor_codes(r, g, b, four)[0], ceil_codes(r, g, b, four)[0])
        && out[1] == combo_code(m, 1, floor_codes(r, g, b, four)[1], ceil_codes(r, g, b, four)[1])
        && out[2] == combo_code(m, 2, floor_codes(r, g, b, four)[2], ceil_codes(r, g, b, four)[2]);
    let lo = floor_codes(r, g, b, four);
    let hi = ceil_codes(r, g, b, four);
    assert(0 <= lo[0] < code_count(four) && 0 <= lo[1] < code_count(four) && 0 <= lo[2] < code_count(four));
    assert(0 <= hi[0] < code_count(four) && 0 <= hi[1] < code_count(four) && 0 <= hi[2] < code_count(four));
}

} // verus!
