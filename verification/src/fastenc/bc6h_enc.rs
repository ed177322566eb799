//! BC6H encoder settings and the integer steps of the real-time encoder: the
//! analysis of a block of sixteen RGB half-floats (channel ranges, means and
//! the covariance, and the block class they give), the simple-block
//! endpoints, the two-subset patterns nearest a desired split (the nearest
//! one, or the first `n` in order), the test that endpoint codes fit a
//! difference mode and their delta encoding (which sign extension undoes),
//! the anchor normalisation of one- and two-subset blocks (which leaves every
//! texel as it decodes), and the endpoint dequantizers: a
//! `bits`-wide BC6H endpoint code back to a 16-bit value, and that value into
//! the half-float domain.

use vstd::prelude::*;
use vstd::arithmetic::power2::{pow2, lemma2_to64, lemma_pow2_pos, lemma_pow2_strictly_increases};
use crate::bitfield::{nat_field, lemma_u32_or_shl, lemma_u32_shr_mask};
use crate::fastenc::bc7_patterns::{popcount, popcount16};
use crate::fastenc::bc7f::{weight3, weight4, lemma_ramp_symmetric};

verus! {

/// Encoder configuration. The 6x6 transcode path only varies
/// `max_2subset_pats_to_try` (0, or 1 under high quality); the other fields
/// keep their defaults.
pub struct FastBc6hParams {
    /// How many of the 2-subset difference-endpoint modes to fit before falling
    /// back to the absolute-endpoint mode (0 skips them entirely).
    pub num_diff_endpoint_modes_to_try: u32,
    /// Number of 2-subset partition patterns to fit (0 disables the 2-subset
    /// search).
    pub max_2subset_pats_to_try: u32,
    /// Run a second least-squares refinement pass on the 1-subset endpoints.
    pub hq_ls: bool,
    /// Assign 4-bit weights by testing all 16 ramp entries per texel.
    pub brute_force_weight4_assignment: bool,
}

impl Default for FastBc6hParams {
    /// The settings the 6x6 transcode path starts from: two difference-endpoint
    /// modes, one 2-subset pattern, the refinement pass on, projection-based
    /// weights.
    fn default() -> (p: Self)
        ensures
            p.hq_ls,
            p.num_diff_endpoint_modes_to_try == 2,
            p.max_2subset_pats_to_try == 1,
            !p.brute_force_weight4_assignment,
    {
        Self {
            hq_ls: true,
            num_diff_endpoint_modes_to_try: 2,
            max_2subset_pats_to_try: 1,
            brute_force_weight4_assignment: false,
        }
    }
}

/// The 16-bit value of a `bits`-wide BC6H endpoint code: codes of 15 bits or
/// more are already values; otherwise 0 and the top code map to the ends of
/// the range and every other code to the middle of its interval.
pub open spec fn bc6h_dequant_spec(val: int, bits: nat) -> int {
    if bits >= 15 {
        val
    } else if val == 0 {
        0
    } else if val == pow2(bits) - 1 {
        0xFFFF
    } else {
        (val * 65536 + 0x8000) / pow2(bits) as int
    }
}

/// Dequantize a `bits`-wide BC6H endpoint code to a 16-bit value.
pub fn bc6h_dequantize(val: i32, bits: u32) -> (r: i32)
    requires
        1 <= bits <= 16,
        0 <= val,
        bits < 15 ==> val < pow2(bits as nat),
    ensures
        r == bc6h_dequant_spec(val as int, bits as nat),
        bits < 15 ==> 0 <= r <= 0xFFFF,
{
    if bits >= 15 {
        val
    } else {
        proof {
            lemma2_to64();
            vstd::bits::lemma_u32_shl_is_mul(1, bits);
            lemma_pow2_strictly_increases(bits as nat, 15);
        }
        if val == 0 {
            0
        } else if val as u32 == (1u32 << bits) - 1 {
            0xFFFF
        } else {
            proof {
                vstd::bits::lemma_u32_shl_is_mul(val as u32, 16);
            }
            let wide = ((val as u32) << 16) + 0x8000;
            proof {
                vstd::bits::lemma_u32_shr_is_div(wide, bits);
                lemma_pow2_pos(bits as nat);
                assert(val * 65536 + 0x8000 < 65536 * pow2(bits as nat)) by (nonlinear_arith)
                    requires
                        val < pow2(bits as nat) - 1,
                ;
                vstd::arithmetic::div_mod::lemma_multiply_divide_lt(
                    (val * 65536 + 0x8000) as int,
                    pow2(bits as nat) as int,
                    65536,
                );
                vstd::arithmetic::mul::lemma_mul_is_commutative(65536, pow2(bits as nat) as int);
            }
            (wide >> bits) as i32
        }
    }
}

/// Scale a dequantized BC6H value into the half-float domain (times 31/64,
/// rounded down).
pub fn bc6h_convert_to_half(val: i32) -> (r: u32)
    requires
        0 <= val <= 0xFFFF,
    ensures
        r == val * 31 / 64,
        r <= 0x7BFF,
{
    let x = val * 31;
    proof {
        crate::bitfield::lemma_word_bits(0, 0, x);
        vstd::arithmetic::div_mod::lemma_fundamental_div_mod_converse(
            x as int,
            64,
            (x >> 6i32) as int,
            x - 64 * (x >> 6i32),
        );
    }
    (x >> 6) as u32
}

/// Dequantize six `bits`-wide endpoint codes back to half-float values.
pub fn bc6h_dequant_endpoints(b: &[u32; 6], h: &mut [u32; 6], bits: u32)
    requires
        1 <= bits < 15,
        forall|i: int| 0 <= i < 6 ==> b[i] < pow2(bits as nat),
    ensures
        forall|i: int|
            0 <= i < 6 ==> #[trigger] final(h)[i] == bc6h_dequant_spec(b[i] as int, bits as nat) * 31 / 64,
{
    let mut i: usize = 0;
    while i < 6
        invariant
            1 <= bits < 15,
            i <= 6,
            forall|k: int| 0 <= k < 6 ==> b[k] < pow2(bits as nat),
            forall|k: int| 0 <= k < i ==> #[trigger] h[k] == bc6h_dequant_spec(b[k] as int, bits as nat) * 31 / 64,
        decreases 6 - i,
    {
        proof {
            lemma2_to64();
            lemma_pow2_strictly_increases(bits as nat, 15);
        }
        h[i] = bc6h_convert_to_half(bc6h_dequantize(b[i] as i32, bits));
        i = i + 1;
    }
}

/// Channel `c` of texel `i` of a block of 48 halves in raster order.
pub open spec fn htexel(px: [u16; 48], i: int, c: int) -> int {
    px[3 * i + c] as int
}

/// The sum of channel `c` over the first `n` texels.
pub open spec fn hsum(px: [u16; 48], c: int, n: nat) -> int
    decreases n,
{
    if n == 0 { 0 } else { hsum(px, c, (n - 1) as nat) + htexel(px, n - 1, c) }
}

/// The least value of channel `c` over the first `n` texels (`u32::MAX` for
/// none).
pub open spec fn hmin(px: [u16; 48], c: int, n: nat) -> int
    decreases n,
{
    if n == 0 {
        0xFFFF_FFFF
    } else {
        let m = hmin(px, c, (n - 1) as nat);
        if htexel(px, n - 1, c) < m { htexel(px, n - 1, c) } else { m }
    }
}

/// The greatest value of channel `c` over the first `n` texels (0 for none).
pub open spec fn hmax(px: [u16; 48], c: int, n: nat) -> int
    decreases n,
{
    if n == 0 {
        0
    } else {
        let m = hmax(px, c, (n - 1) as nat);
        if htexel(px, n - 1, c) > m { htexel(px, n - 1, c) } else { m }
    }
}

/// The sum over the first `n` texels of the product of channel `a` less
/// `ma` and channel `b` less `mb`.
pub open spec fn hcross(px: [u16; 48], a: int, ma: int, b: int, mb: int, n: nat) -> int
    decreases n,
{
    if n == 0 {
        0
    } else {
        hcross(px, a, ma, b, mb, (n - 1) as nat) + (htexel(px, n - 1, a) - ma) * (htexel(px, n - 1, b) - mb)
    }
}

/// The channel pair of covariance entry `k`: RR, RG, RB, GG, GB, BB.
pub open spec fn cov_pair(k: int) -> (int, int) {
    if k == 0 { (0, 0) }
    else if k == 1 { (0, 1) }
    else if k == 2 { (0, 2) }
    else if k == 3 { (1, 1) }
    else if k == 4 { (1, 2) }
    else { (2, 2) }
}

/// The integer statistics of one block: per-channel least, greatest and
/// total value, the rounded mean, the six distinct entries of the
/// (unnormalised) covariance about that mean, and the largest channel
/// variance.
pub struct Bc6hBlockStats {
    pub omin: [u32; 3],
    pub omax: [u32; 3],
    pub totals: [u32; 3],
    pub mean: [i32; 3],
    pub icov: [i64; 6],
    pub block_max_var: i64,
}

/// Whether `s` holds the statistics of the block `px`.
pub open spec fn bc6h_stats_of(px: [u16; 48], s: Bc6hBlockStats) -> bool {
    &&& forall|c: int| 0 <= c < 3 ==> {
        &&& #[trigger] s.omin[c] == hmin(px, c, 16)
        &&& s.omax[c] == hmax(px, c, 16)
        &&& s.totals[c] == hsum(px, c, 16)
        &&& s.mean[c] == (hsum(px, c, 16) + 8) / 16
    }
    &&& forall|k: int| 0 <= k < 6 ==> #[trigger] s.icov[k] == {
        let (a, b) = cov_pair(k);
        hcross(px, a, s.mean[a] as int, b, s.mean[b] as int, 16)
    }
    &&& s.block_max_var == max2(max2(s.icov[0] as int, s.icov[3] as int), s.icov[5] as int)
}

/// The larger of two integers.
pub open spec fn max2(a: int, b: int) -> int {
    if b > a { b } else { a }
}

proof fn lemma_hrange(px: [u16; 48], c: int, n: nat, bound: int)
    requires
        0 <= c < 3,
        1 <= n <= 16,
        forall|i: int| 0 <= i < 48 ==> px[i] <= bound,
    ensures
        0 <= hmin(px, c, n) <= hmax(px, c, n) <= bound,
        0 <= hsum(px, c, n) <= n * bound,
        forall|i: int| 0 <= i < n ==> hmin(px, c, n) <= #[trigger] htexel(px, i, c) <= hmax(px, c, n),
    decreases n,
{
    let j = 3 * (n - 1) + c;
    assert(0 <= j < 48);
    assert(px[j] <= bound);
    if n == 1 {
        assert(hmin(px, c, 0) == 0xFFFF_FFFF);
        assert(hmax(px, c, 0) == 0);
        assert(hsum(px, c, 0) == 0);
    } else {
        lemma_hrange(px, c, (n - 1) as nat, bound);
        assert((n - 1) * bound + bound == n * bound) by (nonlinear_arith);
    }
}

/// The running least, greatest and total of channel `c` over the block.
fn channel_range(pixels: &[u16; 48], c: usize) -> (r: (u32, u32, u32))
    requires
        c < 3,
        forall|i: int| 0 <= i < 48 ==> pixels[i] <= 46340,
    ensures
        r.0 == hmin(*pixels, c as int, 16),
        r.1 == hmax(*pixels, c as int, 16),
        r.2 == hsum(*pixels, c as int, 16),
{
    let mut lo: u32 = 0xFFFF_FFFF;
    let mut hi: u32 = 0;
    let mut total: u32 = 0;
    let mut i: usize = 0;
    while i < 16
        invariant
            c < 3,
            i <= 16,
            forall|k: int| 0 <= k < 48 ==> pixels[k] <= 46340,
            lo == hmin(*pixels, c as int, i as nat),
            hi == hmax(*pixels, c as int, i as nat),
            total == hsum(*pixels, c as int, i as nat),
        decreases 16 - i,
    {
        proof {
            if i > 0 {
                lemma_hrange(*pixels, c as int, i as nat, 46340);
            }
        }
        let v = pixels[i * 3 + c] as u32;
        total = total + v;
        if v < lo {
            lo = v;
        }
        if v > hi {
            hi = v;
        }
        i = i + 1;
    }
    (lo, hi, total)
}

proof fn lemma_product_bound(x: int, y: int)
    requires
        -46340 <= x <= 46340,
        -46340 <= y <= 46340,
    ensures
        -2147395600 <= x * y <= 2147395600,
{
    assert(-2147395600 <= x * y <= 2147395600) by (nonlinear_arith)
        requires
            -46340 <= x <= 46340,
            -46340 <= y <= 46340,
    ;
}

/// The sum over the block of (channel `a` less `ma`) times (channel `b` less
/// `mb`), in the original's order: each product in `i32`, summed in `i64`.
fn cross_sum(pixels: &[u16; 48], a: usize, ma: i32, b: usize, mb: i32) -> (r: i64)
    requires
        a < 3,
        b < 3,
        0 <= ma <= 46340,
        0 <= mb <= 46340,
        forall|i: int| 0 <= i < 48 ==> pixels[i] <= 46340,
    ensures
        r == hcross(*pixels, a as int, ma as int, b as int, mb as int, 16),
{
    let mut acc: i64 = 0;
    let mut i: usize = 0;
    while i < 16
        invariant
            a < 3,
            b < 3,
            0 <= ma <= 46340,
            0 <= mb <= 46340,
            i <= 16,
            forall|k: int| 0 <= k < 48 ==> pixels[k] <= 46340,
            acc == hcross(*pixels, a as int, ma as int, b as int, mb as int, i as nat),
            -(i * 2147395600) <= acc <= i * 2147395600,
        decreases 16 - i,
    {
        let x: i32 = pixels[i * 3 + a] as i32 - ma;
        let y: i32 = pixels[i * 3 + b] as i32 - mb;
        proof {
            lemma_product_bound(x as int, y as int);
        }
        acc = acc + (x * y) as i64;
        i = i + 1;
    }
    acc
}

/// The statistics the encoder classifies a block by: per-channel range and
/// total, the mean rounded to nearest, the covariance about that mean, and
/// the largest of the three channel variances. Every half is at most 46340,
/// so that each centred product fits the `i32` the encoder forms it in.
pub fn bc6h_block_stats(pixels: &[u16; 48]) -> (s: Bc6hBlockStats)
    requires
        forall|i: int| 0 <= i < 48 ==> pixels[i] <= 46340,
    ensures
        bc6h_stats_of(*pixels, s),
        forall|c: int| 0 <= c < 3 ==> s.omin[c] <= #[trigger] s.omax[c] <= 46340,
{
    let (lo_r, hi_r, tot_r) = channel_range(pixels, 0);
    let (lo_g, hi_g, tot_g) = channel_range(pixels, 1);
    let (lo_b, hi_b, tot_b) = channel_range(pixels, 2);
    proof {
        lemma_hrange(*pixels, 0, 16, 46340);
        lemma_hrange(*pixels, 1, 16, 46340);
        lemma_hrange(*pixels, 2, 16, 46340);
    }
    let mean_r = ((tot_r + 8) / 16) as i32;
    let mean_g = ((tot_g + 8) / 16) as i32;
    let mean_b = ((tot_b + 8) / 16) as i32;
    let icov: [i64; 6] = [
        cross_sum(pixels, 0, mean_r, 0, mean_r),
        cross_sum(pixels, 0, mean_r, 1, mean_g),
        cross_sum(pixels, 0, mean_r, 2, mean_b),
        cross_sum(pixels, 1, mean_g, 1, mean_g),
        cross_sum(pixels, 1, mean_g, 2, mean_b),
        cross_sum(pixels, 2, mean_b, 2, mean_b),
    ];
    let mut block_max_var = icov[0];
    if icov[3] > block_max_var {
        block_max_var = icov[3];
    }
    if icov[5] > block_max_var {
        block_max_var = icov[5];
    }
    let s = Bc6hBlockStats {
        omin: [lo_r, lo_g, lo_b],
        omax: [hi_r, hi_g, hi_b],
        totals: [tot_r, tot_g, tot_b],
        mean: [mean_r, mean_g, mean_b],
        icov,
        block_max_var,
    };
    proof {
        assert forall|k: int| 0 <= k < 6 implies #[trigger] s.icov[k] == {
            let (a, b) = cov_pair(k);
            hcross(*pixels, a, s.mean[a] as int, b, s.mean[b] as int, 16)
        } by {
            assert(0 <= k < 6);
        }
    }
    s
}

/// How a block is encoded: one colour (a solid block), a narrow spread
/// (endpoints pulled in from the channel ranges), or an edge or gradient
/// (endpoints fitted along the principal axis).
#[derive(PartialEq, Eq, Structural, Clone, Copy, Debug)]
pub enum Bc6hBlockKind {
    Solid,
    Simple,
    Complex,
}

/// The largest channel variance, summed over the block, below which a block
/// takes the simple endpoints: a standard deviation of 256 per texel.
pub const FAST_BC6H_SIMPLE_VAR_LIMIT: i64 = 1048576;

/// The class of a block with statistics `s`: solid when every channel's
/// range is empty, simple when no channel varies by as much as
/// `FAST_BC6H_SIMPLE_VAR_LIMIT`, complex otherwise.
pub open spec fn bc6h_kind_of(s: Bc6hBlockStats) -> Bc6hBlockKind {
    if s.omin[0] == s.omax[0] && s.omin[1] == s.omax[1] && s.omin[2] == s.omax[2] {
        Bc6hBlockKind::Solid
    } else if s.block_max_var < FAST_BC6H_SIMPLE_VAR_LIMIT {
        Bc6hBlockKind::Simple
    } else {
        Bc6hBlockKind::Complex
    }
}

/// Classify a block by its statistics.
pub fn bc6h_classify(s: &Bc6hBlockStats) -> (k: Bc6hBlockKind)
    ensures
        k == bc6h_kind_of(*s),
{
    if s.omin[0] == s.omax[0] && s.omin[1] == s.omax[1] && s.omin[2] == s.omax[2] {
        Bc6hBlockKind::Solid
    } else if s.block_max_var < FAST_BC6H_SIMPLE_VAR_LIMIT {
        Bc6hBlockKind::Simple
    } else {
        Bc6hBlockKind::Complex
    }
}

/// A block is solid exactly when all sixteen texels have the same colour.
pub proof fn lemma_bc6h_solid_iff_uniform(px: [u16; 48], s: Bc6hBlockStats)
    requires
        bc6h_stats_of(px, s),
    ensures
        (bc6h_kind_of(s) == Bc6hBlockKind::Solid) <==> (forall|i: int, c: int|
            0 <= i < 16 && 0 <= c < 3 ==> #[trigger] htexel(px, i, c) == htexel(px, 0, c)),
{
    assert(s.omin[0] == hmin(px, 0, 16));
    assert(s.omin[1] == hmin(px, 1, 16));
    assert(s.omin[2] == hmin(px, 2, 16));
    lemma_hrange(px, 0, 16, 0xFFFF);
    lemma_hrange(px, 1, 16, 0xFFFF);
    lemma_hrange(px, 2, 16, 0xFFFF);
    lemma_extremes_attained(px, 0, 16);
    lemma_extremes_attained(px, 1, 16);
    lemma_extremes_attained(px, 2, 16);
    if forall|i: int, c: int| 0 <= i < 16 && 0 <= c < 3 ==> #[trigger] htexel(px, i, c) == htexel(px, 0, c) {
        assert forall|c: int| 0 <= c < 3 implies hmin(px, c, 16) == hmax(px, c, 16) by {
            let a = choose|i: int| 0 <= i < 16 && htexel(px, i, c) == hmin(px, c, 16);
            let b = choose|i: int| 0 <= i < 16 && htexel(px, i, c) == hmax(px, c, 16);
            assert(htexel(px, a, c) == htexel(px, 0, c));
            assert(htexel(px, b, c) == htexel(px, 0, c));
        }
    }
}

proof fn lemma_extremes_attained(px: [u16; 48], c: int, n: nat)
    requires
        0 <= c < 3,
        1 <= n <= 16,
    ensures
        exists|i: int| 0 <= i < n && #[trigger] htexel(px, i, c) == hmin(px, c, n),
        exists|i: int| 0 <= i < n && #[trigger] htexel(px, i, c) == hmax(px, c, n),
    decreases n,
{
    let j = 3 * (n - 1) + c;
    assert(0 <= j < 48);
    if n == 1 {
        assert(hmin(px, c, 0) == 0xFFFF_FFFF);
        assert(hmax(px, c, 0) == 0);
        assert(htexel(px, 0, c) == hmin(px, c, 1));
        assert(htexel(px, 0, c) == hmax(px, c, 1));
    } else {
        lemma_extremes_attained(px, c, (n - 1) as nat);
        let a = choose|i: int| 0 <= i < n - 1 && htexel(px, i, c) == hmin(px, c, (n - 1) as nat);
        let b = choose|i: int| 0 <= i < n - 1 && htexel(px, i, c) == hmax(px, c, (n - 1) as nat);
        if htexel(px, n - 1, c) < hmin(px, c, (n - 1) as nat) {
            assert(htexel(px, n - 1, c) == hmin(px, c, n));
        } else {
            assert(htexel(px, a, c) == hmin(px, c, n));
        }
        if htexel(px, n - 1, c) > hmax(px, c, (n - 1) as nat) {
            assert(htexel(px, n - 1, c) == hmax(px, c, n));
        } else {
            assert(htexel(px, b, c) == hmax(px, c, n));
        }
    }
}

/// The endpoints of a simple block, before quantisation: each channel's
/// range pulled in by a thirty-second from either end, low endpoint in
/// `e[0..3]`, high in `e[3..6]`.
pub fn bc6h_simple_endpoints(s: &Bc6hBlockStats) -> (e: [u32; 6])
    requires
        forall|c: int| 0 <= c < 3 ==> s.omin[c] <= #[trigger] s.omax[c] <= 0xFFFF,
    ensures
        forall|c: int| 0 <= c < 3 ==> {
            &&& #[trigger] e[c] == (s.omax[c] - s.omin[c]) / 32 + s.omin[c]
            &&& e[c + 3] == (s.omax[c] - s.omin[c]) * 31 / 32 + s.omin[c]
        },
{
    let e: [u32; 6] = [
        (s.omax[0] - s.omin[0]) / 32 + s.omin[0],
        (s.omax[1] - s.omin[1]) / 32 + s.omin[1],
        (s.omax[2] - s.omin[2]) / 32 + s.omin[2],
        ((s.omax[0] - s.omin[0]) * 31) / 32 + s.omin[0],
        ((s.omax[1] - s.omin[1]) * 31) / 32 + s.omin[1],
        ((s.omax[2] - s.omin[2]) * 31) / 32 + s.omin[2],
    ];
    proof {
        assert forall|c: int| 0 <= c < 3 implies {
            &&& #[trigger] e[c] == (s.omax[c] - s.omin[c]) / 32 + s.omin[c]
            &&& e[c + 3] == (s.omax[c] - s.omin[c]) * 31 / 32 + s.omin[c]
        } by {
            assert(0 <= c < 3);
        }
    }
    e
}

/// A texel interpolated between unquantised endpoints `a` and `b` at index
/// `w` of the 4-bit ramp, rounded to nearest.
pub open spec fn bc6h_interp4(a: int, b: int, w: nat) -> int {
    (a * (64 - weight4(w)) + b * weight4(w) + 32) / 64
}

/// Interpolating from the other end with the mirrored index gives the same
/// texel.
pub proof fn lemma_bc6h_interp4_mirror(a: int, b: int, w: nat)
    requires
        w < 16,
    ensures
        bc6h_interp4(b, a, (15 - w) as nat) == bc6h_interp4(a, b, w),
{
    lemma2_to64();
    lemma_ramp_symmetric(4, w);
    let ww = weight4(w) as int;
    assert(b * (64 - (64 - ww)) + a * (64 - ww) == a * (64 - ww) + b * ww) by (nonlinear_arith);
}

/// Whether `w`, `e` is the one-subset block `w0`, `e0` read from its other
/// end: every weight mirrored and each channel's first two endpoints swapped.
pub open spec fn bc6h_flipped(w0: [u8; 16], e0: [[u32; 4]; 3], w: [u8; 16], e: [[u32; 4]; 3]) -> bool {
    &&& forall|i: int| 0 <= i < 16 ==> #[trigger] w[i] == 15 - w0[i]
    &&& forall|c: int| 0 <= c < 3 ==> #[trigger] e[c] == [e0[c][1], e0[c][0], e0[c][2], e0[c][3]]
}

proof fn lemma_anchor_bit(w: u8)
    by (bit_vector)
    ensures
        w < 16 ==> ((w & 8u8 != 0) <==> w >= 8),
{
}

/// Give a one-subset block an anchor texel whose top index bit is clear, as
/// the format stores it without that bit: when texel 0's index has it set,
/// mirror every index and swap each channel's endpoints; otherwise change
/// nothing. Every texel decodes as before.
pub fn bc6h_flip_anchor(weights: &mut [u8; 16], endpoints: &mut [[u32; 4]; 3])
    requires
        forall|i: int| 0 <= i < 16 ==> old(weights)[i] < 16,
    ensures
        final(weights)[0] < 8,
        forall|i: int| 0 <= i < 16 ==> final(weights)[i] < 16,
        old(weights)[0] >= 8 ==> bc6h_flipped(*old(weights), *old(endpoints), *final(weights), *final(endpoints)),
        old(weights)[0] < 8 ==> *final(weights) == *old(weights) && *final(endpoints) == *old(endpoints),
        forall|i: int, c: int| #![trigger final(weights)[i], final(endpoints)[c]] 0 <= i < 16 && 0 <= c < 3 ==>
            bc6h_interp4(final(endpoints)[c][0] as int, final(endpoints)[c][1] as int, final(weights)[i] as nat)
            == bc6h_interp4(old(endpoints)[c][0] as int, old(endpoints)[c][1] as int, old(weights)[i] as nat),
{
    proof {
        lemma_anchor_bit(weights[0]);
    }
    if weights[0] & 8 != 0 {
        let mut i: usize = 0;
        while i < 16
            invariant
                i <= 16,
                forall|k: int| 0 <= k < 16 ==> old(weights)[k] < 16,
                forall|k: int| 0 <= k < i ==> #[trigger] weights[k] == 15 - old(weights)[k],
                forall|k: int| i <= k < 16 ==> #[trigger] weights[k] == old(weights)[k],
            decreases 16 - i,
        {
            weights[i] = 15 - weights[i];
            i = i + 1;
        }
        let mut c: usize = 0;
        while c < 3
            invariant
                c <= 3,
                forall|k: int| 0 <= k < c ==> #[trigger] endpoints[k] == [old(endpoints)[k][1], old(endpoints)[k][0], old(endpoints)[k][2], old(endpoints)[k][3]],
                forall|k: int| c <= k < 3 ==> #[trigger] endpoints[k] == old(endpoints)[k],
            decreases 3 - c,
        {
            let lo = endpoints[c][0];
            endpoints[c][0] = endpoints[c][1];
            endpoints[c][1] = lo;
            c = c + 1;
        }
        proof {
            assert forall|i: int, c: int| #![trigger weights[i], endpoints[c]] 0 <= i < 16 && 0 <= c < 3 implies
                bc6h_interp4(endpoints[c][0] as int, endpoints[c][1] as int, weights[i] as nat)
                == bc6h_interp4(old(endpoints)[c][0] as int, old(endpoints)[c][1] as int, old(weights)[i] as nat) by {
                lemma_bc6h_interp4_mirror(old(endpoints)[c][0] as int, old(endpoints)[c][1] as int, old(weights)[i] as nat);
            }
        }
    }
}

/// How far a pattern's split of the block is from the desired split, either
/// way round: the texels on which the two masks disagree, or agree, whichever
/// is fewer.
pub open spec fn pattern_distance(desired: u32, pat: u32) -> nat {
    let d = popcount((pat ^ desired) as nat, 16);
    if d <= 16 - d { d } else { (16 - d) as nat }
}

/// The rank of pattern `p`: its distance, ties going to the lower index.
pub open spec fn pattern_rank(desired: u32, pats: [u32; 32], p: int) -> nat {
    pattern_distance(desired, pats[p]) * 256 + p as nat
}

pub proof fn lemma_xor16(a: u32, b: u32)
    by (bit_vector)
    requires
        a < 0x10000,
        b < 0x10000,
    ensures
        a ^ b < 0x10000,
{
}

/// The two-subset pattern whose split is closest to the desired split of
/// the block (bit `i` of `desired` set for texel `i` on the positive side
/// of the principal axis), the lower index winning a tie. Both the desired
/// mask and every pattern mask are 16-bit texel masks.
pub fn bc6h_best_2subset_pattern(desired: u32, pats: &[u32; 32]) -> (best: u32)
    requires
        desired < 0x10000,
        forall|k: int| 0 <= k < 32 ==> pats[k] < 0x10000,
    ensures
        best < 32,
        forall|k: int| 0 <= k < 32 ==> pattern_rank(desired, *pats, best as int) <= #[trigger] pattern_rank(desired, *pats, k),
{
    let mut best_diff: u32 = 0xFFFF_FFFF;
    let mut p: usize = 0;
    proof {
        lemma2_to64();
    }
    while p < 32
        invariant
            p <= 32,
            desired < 0x10000,
            forall|k: int| 0 <= k < 32 ==> pats[k] < 0x10000,
            pow2(8) == 256,
            pow2(16) == 65536,
            p == 0 ==> best_diff == 0xFFFF_FFFF,
            p > 0 ==> exists|b: int| 0 <= b < p && best_diff == #[trigger] pattern_rank(desired, *pats, b),
            forall|k: int| 0 <= k < p ==> best_diff <= #[trigger] pattern_rank(desired, *pats, k),
        decreases 32 - p,
    {
        let pat_bits = pats[p];
        proof {
            lemma_xor16(pat_bits, desired);
        }
        let x = pat_bits ^ desired;
        let diff: i32 = popcount16(x as u64);
        let diff_inv: i32 = 16 - diff;
        let m: i32 = if diff < diff_inv { diff } else { diff_inv };
        proof {
            lemma_u32_or_shl(p as u32, m as u32, 8);
        }
        let min_diff = ((m as u32) << 8) | p as u32;
        assert(min_diff == pattern_rank(desired, *pats, p as int));
        if min_diff < best_diff {
            best_diff = min_diff;
        }
        p = p + 1;
    }
    let ghost b = choose|b: int| 0 <= b < 32 && best_diff == pattern_rank(desired, *pats, b);
    proof {
        lemma_u32_shr_mask(best_diff, 0, 8, 0xFF);
        vstd::bits::lemma_u32_shr_is_div(best_diff, 0);
        assert(nat_field(best_diff as nat, 0, 8) == b) by {
            vstd::arithmetic::div_mod::lemma_fundamental_div_mod_converse(
                best_diff as int, 256, pattern_distance(desired, pats[b]) as int, b);
            assert(nat_field(best_diff as nat, 0, 8) == (best_diff as nat / pow2(0)) % pow2(8));
        }
    }
    best_diff & 0xFF
}

/// A texel interpolated between unquantised endpoints `a` and `b` at index
/// `w` of the 3-bit ramp, rounded to nearest.
pub open spec fn bc6h_interp3(a: int, b: int, w: nat) -> int {
    (a * (64 - weight3(w)) + b * weight3(w) + 32) / 64
}

/// Interpolating from the other end with the mirrored 3-bit index gives the
/// same texel.
pub proof fn lemma_bc6h_interp3_mirror(a: int, b: int, w: nat)
    requires
        w < 8,
    ensures
        bc6h_interp3(b, a, (7 - w) as nat) == bc6h_interp3(a, b, w),
{
    lemma2_to64();
    lemma_ramp_symmetric(3, w);
    let ww = weight3(w) as int;
    assert(b * (64 - (64 - ww)) + a * (64 - ww) == a * (64 - ww) + b * ww) by (nonlinear_arith);
}

/// The subset of texel `i` in a two-subset pattern mask: bit `i`.
pub open spec fn pat_subset(pat: u32, i: int) -> int {
    nat_field(pat as nat, i as nat, 1) as int
}

/// Whether the two-subset block `w`, `e` is `w0`, `e0` with the subsets for
/// which `flip0` and `flip1` hold read from their other ends: that subset's
/// indices mirrored and its two endpoints swapped.
pub open spec fn bc6h_flipped2(
    pat: u32,
    flip0: bool,
    flip1: bool,
    w0: [u8; 16],
    e0: [[u32; 4]; 3],
    w: [u8; 16],
    e: [[u32; 4]; 3],
) -> bool {
    &&& forall|i: int| 0 <= i < 16 ==> #[trigger] w[i] == (if (pat_subset(pat, i) == 0 && flip0) || (pat_subset(pat, i) == 1 && flip1) {
        7 - w0[i]
    } else {
        w0[i] as int
    })
    &&& forall|c: int| 0 <= c < 3 ==> #[trigger] e[c] == [
        if flip0 { e0[c][1] } else { e0[c][0] },
        if flip0 { e0[c][0] } else { e0[c][1] },
        if flip1 { e0[c][3] } else { e0[c][2] },
        if flip1 { e0[c][2] } else { e0[c][3] },
    ]
}

proof fn lemma_anchor_bit3(w: u8)
    by (bit_vector)
    ensures
        w < 8 ==> ((w & 4u8 != 0) <==> w >= 4),
{
}

/// Mirror the indices of every texel of subset `s` and swap that subset's
/// endpoints.
fn flip_subset(weights: &mut [u8; 16], endpoints: &mut [[u32; 4]; 3], pat_bits: u32, s: u32)
    requires
        s < 2,
        forall|i: int| 0 <= i < 16 ==> old(weights)[i] < 8,
    ensures
        forall|i: int| 0 <= i < 16 ==> #[trigger] final(weights)[i] == (if pat_subset(pat_bits, i) == s {
            7 - old(weights)[i]
        } else {
            old(weights)[i] as int
        }),
        forall|i: int| 0 <= i < 16 ==> final(weights)[i] < 8,
        forall|c: int| 0 <= c < 3 ==> #[trigger] final(endpoints)[c] == (if s == 0 {
            [old(endpoints)[c][1], old(endpoints)[c][0], old(endpoints)[c][2], old(endpoints)[c][3]]
        } else {
            [old(endpoints)[c][0], old(endpoints)[c][1], old(endpoints)[c][3], old(endpoints)[c][2]]
        }),
{
    let lo: usize = if s == 0 { 0 } else { 2 };
    let mut c: usize = 0;
    while c < 3
        invariant
            s < 2,
            lo == (if s == 0 { 0usize } else { 2 }),
            c <= 3,
            forall|k: int| 0 <= k < c ==> #[trigger] endpoints[k] == (if s == 0 {
                [old(endpoints)[k][1], old(endpoints)[k][0], old(endpoints)[k][2], old(endpoints)[k][3]]
            } else {
                [old(endpoints)[k][0], old(endpoints)[k][1], old(endpoints)[k][3], old(endpoints)[k][2]]
            }),
            forall|k: int| c <= k < 3 ==> #[trigger] endpoints[k] == old(endpoints)[k],
        decreases 3 - c,
    {
        let a = endpoints[c][lo];
        endpoints[c][lo] = endpoints[c][lo + 1];
        endpoints[c][lo + 1] = a;
        c = c + 1;
    }
    let mut i: usize = 0;
    while i < 16
        invariant
            s < 2,
            i <= 16,
            forall|k: int| 0 <= k < 16 ==> old(weights)[k] < 8,
            forall|k: int| 0 <= k < i ==> #[trigger] weights[k] == (if pat_subset(pat_bits, k) == s {
                7 - old(weights)[k]
            } else {
                old(weights)[k] as int
            }),
            forall|k: int| i <= k < 16 ==> #[trigger] weights[k] == old(weights)[k],
        decreases 16 - i,
    {
        proof {
            lemma2_to64();
            lemma_u32_shr_mask(pat_bits, i as u32, 1, 1);
        }
        if (pat_bits >> i as u32) & 1 == s {
            weights[i] = 7 - weights[i];
        }
        i = i + 1;
    }
}

/// Give each subset of a two-subset block an anchor texel whose top index
/// bit is clear, as the format stores the anchors without it: texel 0 for
/// subset 0 and `anchor2` for subset 1. A subset whose anchor has the bit
/// set has its indices mirrored and its endpoints swapped (subset 0 first,
/// then subset 1, judged after the first step). Every texel decodes as
/// before.
pub fn bc6h_flip_anchors_2subsets(weights: &mut [u8; 16], endpoints: &mut [[u32; 4]; 3], pat_bits: u32, anchor2: usize)
    requires
        anchor2 < 16,
        forall|i: int| 0 <= i < 16 ==> old(weights)[i] < 8,
    ensures
        ({
            let flip0 = old(weights)[0] >= 4;
            let mid = if pat_subset(pat_bits, anchor2 as int) == 0 && flip0 { 7 - old(weights)[anchor2 as int] } else { old(weights)[anchor2 as int] as int };
            bc6h_flipped2(pat_bits, flip0, mid >= 4, *old(weights), *old(endpoints), *final(weights), *final(endpoints))
        }),
        forall|i: int| 0 <= i < 16 ==> final(weights)[i] < 8,
        pat_subset(pat_bits, 0) == 0 && pat_subset(pat_bits, anchor2 as int) == 1 ==> final(weights)[0] < 4 && final(weights)[anchor2 as int] < 4,
        forall|i: int, c: int| #![trigger final(weights)[i], final(endpoints)[c]] 0 <= i < 16 && 0 <= c < 3 ==> {
            let k = 2 * pat_subset(pat_bits, i);
            bc6h_interp3(final(endpoints)[c][k] as int, final(endpoints)[c][k + 1] as int, final(weights)[i] as nat)
                == bc6h_interp3(old(endpoints)[c][k] as int, old(endpoints)[c][k + 1] as int, old(weights)[i] as nat)
        },
{
    let ghost w0 = *weights;
    let ghost e0 = *endpoints;
    proof {
        lemma_anchor_bit3(weights[0]);
    }
    let flip0 = weights[0] & 4 != 0;
    if flip0 {
        flip_subset(weights, endpoints, pat_bits, 0);
    }
    let ghost w1 = *weights;
    let ghost e1 = *endpoints;
    proof {
        lemma_anchor_bit3(weights[anchor2 as int]);
    }
    let flip1 = weights[anchor2] & 4 != 0;
    if flip1 {
        flip_subset(weights, endpoints, pat_bits, 1);
    }
    proof {
        assert forall|i: int| 0 <= i < 16 implies pat_subset(pat_bits, i) == 0 || pat_subset(pat_bits, i) == 1 by {
            lemma2_to64();
            assert(nat_field(pat_bits as nat, i as nat, 1) < 2);
        }
        let mid = if pat_subset(pat_bits, anchor2 as int) == 0 && flip0 { 7 - w0[anchor2 as int] } else { w0[anchor2 as int] as int };
        assert(flip1 == (mid >= 4));
        assert forall|i: int| 0 <= i < 16 implies #[trigger] weights[i] == (if (pat_subset(pat_bits, i) == 0 && flip0) || (pat_subset(pat_bits, i) == 1 && flip1) {
            7 - w0[i]
        } else {
            w0[i] as int
        }) by {
            assert(w1[i] == (if pat_subset(pat_bits, i) == 0 && flip0 { 7 - w0[i] } else { w0[i] as int }));
        }
        assert forall|c: int| 0 <= c < 3 implies #[trigger] endpoints[c] == [
            if flip0 { e0[c][1] } else { e0[c][0] },
            if flip0 { e0[c][0] } else { e0[c][1] },
            if flip1 { e0[c][3] } else { e0[c][2] },
            if flip1 { e0[c][2] } else { e0[c][3] },
        ] by {
            assert(e1[c] == (if flip0 { [e0[c][1], e0[c][0], e0[c][2], e0[c][3]] } else { e0[c] }));
        }
        assert forall|i: int, c: int| #![trigger weights[i], endpoints[c]] 0 <= i < 16 && 0 <= c < 3 implies {
            let k = 2 * pat_subset(pat_bits, i);
            bc6h_interp3(endpoints[c][k] as int, endpoints[c][k + 1] as int, weights[i] as nat)
                == bc6h_interp3(e0[c][k] as int, e0[c][k + 1] as int, w0[i] as nat)
        } by {
            let k = 2 * pat_subset(pat_bits, i);
            assert(pat_subset(pat_bits, i) == 0 || pat_subset(pat_bits, i) == 1);
            lemma_bc6h_interp3_mirror(e0[c][k] as int, e0[c][k + 1] as int, w0[i] as nat);
        }
    }
}

/// Whether the endpoints of one channel of a two-subset block (subset 0 low
/// and high, subset 1 low and high) fit a difference mode with `bits`-bit
/// deltas: each endpoint differs from each earlier one of the first three by
/// at most `2^(bits-1) - 1` either way, a limit that holds whichever way the
/// endpoints are later swapped.
pub open spec fn deltas_within(e: [u32; 4], bits: nat) -> bool {
    let m = pow2((bits - 1) as nat) - 1;
    &&& -m <= e[1] - e[0] <= m
    &&& -m <= e[2] - e[0] <= m
    &&& -m <= e[3] - e[0] <= m
    &&& -m <= e[2] - e[1] <= m
    &&& -m <= e[3] - e[1] <= m
}

/// Whether a two-subset block's endpoint codes fit a difference mode whose
/// deltas have `delta_bits[c]` bits in channel `c`.
pub fn bc6h_deltas_fit(endpoints: &[[u32; 4]; 3], delta_bits: &[u32; 3]) -> (ok: bool)
    requires
        forall|c: int| 0 <= c < 3 ==> 1 <= #[trigger] delta_bits[c] <= 31,
        forall|c: int, k: int| 0 <= c < 3 && 0 <= k < 4 ==> #[trigger] endpoints[c][k] < 0x8000_0000,
    ensures
        ok == forall|c: int| 0 <= c < 3 ==> #[trigger] deltas_within(endpoints[c], delta_bits[c] as nat),
{
    let mut c: usize = 0;
    while c < 3
        invariant
            c <= 3,
            forall|d: int| 0 <= d < 3 ==> 1 <= #[trigger] delta_bits[d] <= 31,
            forall|d: int, k: int| 0 <= d < 3 && 0 <= k < 4 ==> #[trigger] endpoints[d][k] < 0x8000_0000,
            forall|d: int| 0 <= d < c ==> #[trigger] deltas_within(endpoints[d], delta_bits[d] as nat),
        decreases 3 - c,
    {
        let bits = delta_bits[c];
        proof {
            lemma2_to64();
            if bits < 32 {
                vstd::arithmetic::power2::lemma_pow2_strictly_increases((bits - 1) as nat, 31);
            }
            lemma_pow2_pos((bits - 1) as nat);
            vstd::bits::lemma_u32_shl_is_mul(1, (bits - 1) as u32);
        }
        let max_delta = ((1u32 << (bits - 1)) - 1) as i32;
        let min_delta = -max_delta;
        let e = endpoints[c];
        let d0 = e[1] as i32 - e[0] as i32;
        let d1 = e[2] as i32 - e[0] as i32;
        let d2 = e[3] as i32 - e[0] as i32;
        let d3 = e[2] as i32 - e[1] as i32;
        let d4 = e[3] as i32 - e[1] as i32;
        if d0 < min_delta || d0 > max_delta || d1 < min_delta || d1 > max_delta || d2 < min_delta
            || d2 > max_delta || d3 < min_delta || d3 > max_delta || d4 < min_delta || d4 > max_delta
        {
            assert(!deltas_within(endpoints[c as int], delta_bits[c as int] as nat));
            return false;
        }
        c = c + 1;
    }
    true
}

/// How many of the first `n` patterns are marked.
pub open spec fn marked_count(picked: Seq<bool>, n: nat) -> nat
    decreases n,
{
    if n == 0 { 0 } else { marked_count(picked, (n - 1) as nat) + if picked[n - 1] { 1nat } else { 0 } }
}

proof fn lemma_marked_count_all(picked: Seq<bool>, n: nat)
    requires
        n <= picked.len(),
        forall|p: int| 0 <= p < n ==> #[trigger] picked[p],
    ensures
        marked_count(picked, n) == n,
    decreases n,
{
    if n > 0 {
        lemma_marked_count_all(picked, (n - 1) as nat);
    }
}

proof fn lemma_marked_count_none(picked: Seq<bool>, n: nat)
    requires
        n <= picked.len(),
        forall|p: int| 0 <= p < n ==> !#[trigger] picked[p],
    ensures
        marked_count(picked, n) == 0,
    decreases n,
{
    if n > 0 {
        lemma_marked_count_none(picked, (n - 1) as nat);
    }
}

proof fn lemma_marked_count_set(picked: Seq<bool>, q: int, n: nat)
    requires
        n <= picked.len(),
        0 <= q < picked.len(),
        !picked[q],
    ensures
        marked_count(picked.update(q, true), n) == marked_count(picked, n) + (if q < n { 1nat } else { 0 }),
    decreases n,
{
    if n > 0 {
        lemma_marked_count_set(picked, q, (n - 1) as nat);
    }
}

/// Whether pattern `p` is in the list `out`.
pub open spec fn listed(out: Seq<u32>, p: int) -> bool {
    exists|i: int| 0 <= i < out.len() && out[i] == p
}

/// The first `n` two-subset patterns in order of their distance from the
/// desired split, ties going to the lower index: each listed pattern ranks
/// below the next, and every pattern left out ranks above all listed ones.
pub fn bc6h_nearest_2subset_patterns(desired: u32, pats: &[u32; 32], n: u32) -> (out: Vec<u32>)
    requires
        desired < 0x10000,
        forall|k: int| 0 <= k < 32 ==> pats[k] < 0x10000,
        n <= 32,
    ensures
        out.len() == n,
        forall|j: int| 0 <= j < n ==> #[trigger] out[j] < 32,
        forall|j: int, k: int| 0 <= j < k < n ==>
            pattern_rank(desired, *pats, #[trigger] out[j] as int) < pattern_rank(desired, *pats, #[trigger] out[k] as int),
        forall|p: int, j: int| #![trigger pattern_rank(desired, *pats, p), out[j]]
            0 <= p < 32 && 0 <= j < n && !listed(out@, p) ==>
            pattern_rank(desired, *pats, out[j] as int) < pattern_rank(desired, *pats, p),
{
    let mut keys: [u32; 32] = [0; 32];
    let mut p: usize = 0;
    proof {
        lemma2_to64();
    }
    while p < 32
        invariant
            p <= 32,
            desired < 0x10000,
            forall|k: int| 0 <= k < 32 ==> pats[k] < 0x10000,
            pow2(8) == 256,
            pow2(16) == 65536,
            forall|k: int| 0 <= k < p ==> #[trigger] keys[k] == pattern_rank(desired, *pats, k),
        decreases 32 - p,
    {
        proof {
            lemma_xor16(pats[p as int], desired);
        }
        let diff: i32 = popcount16((pats[p] ^ desired) as u64);
        let diff_inv: i32 = 16 - diff;
        let m: i32 = if diff < diff_inv { diff } else { diff_inv };
        proof {
            lemma_u32_or_shl(p as u32, m as u32, 8);
        }
        keys[p] = ((m as u32) << 8) | p as u32;
        p = p + 1;
    }
    let mut picked: [bool; 32] = [false; 32];
    let mut out: Vec<u32> = Vec::new();
    proof {
        lemma_marked_count_none(picked@, 32);
    }
    let mut j: u32 = 0;
    while j < n
        invariant
            j <= n <= 32,
            out.len() == j,
            marked_count(picked@, 32) == j,
            forall|k: int| 0 <= k < 32 ==> #[trigger] keys[k] == pattern_rank(desired, *pats, k),
            forall|i: int| 0 <= i < j ==> #[trigger] out[i] < 32 && picked[out[i] as int],
            forall|q: int| 0 <= q < 32 && #[trigger] picked[q] ==> listed(out@, q),
            forall|i: int, k: int| 0 <= i < k < j ==>
                pattern_rank(desired, *pats, #[trigger] out[i] as int) < pattern_rank(desired, *pats, #[trigger] out[k] as int),
            forall|q: int, i: int| #![trigger pattern_rank(desired, *pats, q), out[i]]
                0 <= q < 32 && 0 <= i < j && !picked[q] ==>
                pattern_rank(desired, *pats, out[i] as int) < pattern_rank(desired, *pats, q),
        decreases n - j,
    {
        proof {
            if forall|q: int| 0 <= q < 32 ==> #[trigger] picked[q] {
                lemma_marked_count_all(picked@, 32);
            }
        }
        let ghost some_free = choose|q: int| 0 <= q < 32 && !picked[q];
        let mut best: usize = 32;
        let mut q: usize = 0;
        while q < 32
            invariant
                q <= 32,
                best <= 32,
                0 <= some_free < 32,
                !picked[some_free],
                forall|k: int| 0 <= k < 32 ==> #[trigger] keys[k] == pattern_rank(desired, *pats, k),
                best == 32 ==> forall|k: int| 0 <= k < q ==> #[trigger] picked[k],
                best < 32 ==> best < q && !picked[best as int],
                best < 32 ==> forall|k: int| 0 <= k < q && !picked[k] ==> keys[best as int] <= #[trigger] keys[k],
            decreases 32 - q,
        {
            if !picked[q] && (best == 32 || keys[q] < keys[best]) {
                best = q;
            }
            q = q + 1;
        }
        assert(best < 32) by {
            if best == 32 {
                assert(picked[some_free]);
            }
        }
        proof {
            lemma_marked_count_set(picked@, best as int, 32);
            assert forall|k: int| 0 <= k < 32 && !picked[k] && k != best implies
                pattern_rank(desired, *pats, best as int) < #[trigger] pattern_rank(desired, *pats, k) by {
                assert(keys[best as int] <= keys[k]);
            }
        }
        let ghost before = picked@;
        let ghost old_out = out@;
        picked[best] = true;
        out.push(best as u32);
        proof {
            assert(picked@ == before.update(best as int, true));
            assert(out[j as int] == best);
            assert forall|qq: int| 0 <= qq < 32 && #[trigger] picked[qq] implies listed(out@, qq) by {
                if qq != best as int {
                    assert(before[qq]);
                    let i = choose|i: int| 0 <= i < j && old_out[i] == qq;
                    assert(out[i] == qq);
                } else {
                    assert(out[j as int] == qq);
                }
            }
        }
        j = j + 1;
    }
    proof {
        assert forall|pp: int, i: int| #![trigger pattern_rank(desired, *pats, pp), out[i]]
            0 <= pp < 32 && 0 <= i < n && !listed(out@, pp) implies
            pattern_rank(desired, *pats, out[i] as int) < pattern_rank(desired, *pats, pp) by {
            if picked[pp] {
                assert(listed(out@, pp));
            }
        }
    }
    out
}

/// The signed value of a `bits`-wide two's-complement delta code.
pub open spec fn sign_extend(v: int, bits: nat) -> int {
    if v >= pow2((bits - 1) as nat) { v - pow2(bits) } else { v }
}

/// The mask of the low `bits` bits.
pub open spec fn low_mask(bits: u32) -> u32 {
    ((1u32 << bits) - 1) as u32
}

/// The `bits`-wide code the encoder stores for delta `d`: its low `bits`
/// bits in two's complement.
pub open spec fn delta_code(d: i32, bits: u32) -> u32 {
    (d as u32) & low_mask(bits)
}

proof fn lemma_delta_code_bits(d: i32, b: u32, m: u32, h: u32, v: u32)
    by (bit_vector)
    requires
        1 <= b <= 31,
        m == ((1u32 << b) - 1) as u32,
        h == 1u32 << ((b - 1) as u32),
        v == (d as u32) & m,
        -((h as i32) - 1) <= d <= (h as i32) - 1,
    ensures
        v < h ==> v as i64 == d as i64,
        v >= h ==> (v as i64) - 2 * (h as i64) == d as i64,
{
}

/// A delta within the symmetric limit of `bits`-bit codes is given back by
/// sign-extending its code.
pub proof fn lemma_delta_code_roundtrip(d: i32, bits: u32)
    requires
        1 <= bits <= 31,
        -(pow2((bits - 1) as nat) - 1) <= d <= pow2((bits - 1) as nat) - 1,
    ensures
        sign_extend(delta_code(d, bits) as int, bits as nat) == d,
{
    lemma2_to64();
    let hb = (bits - 1) as u32;
    if hb < 30 {
        lemma_pow2_strictly_increases(hb as nat, 30);
    }
    vstd::bits::lemma_u32_shl_is_mul(1, hb);
    let h = 1u32 << hb;
    let m = low_mask(bits);
    let v = delta_code(d, bits);
    lemma_delta_code_bits(d, bits, m, h, v);
    vstd::arithmetic::power2::lemma_pow2_adds(1, hb as nat);
    assert(pow2(bits as nat) == 2 * pow2(hb as nat));
}

/// Store a difference-mode block's endpoint codes as the format does: each
/// channel's first endpoint as it is, the other three as `delta_bits[c]`-bit
/// two's-complement differences from it. Where the endpoints fit the mode,
/// sign-extending each stored difference and adding the first endpoint
/// gives the endpoint back.
pub fn bc6h_delta_encode(endpoints: &mut [[u32; 4]; 3], delta_bits: &[u32; 3])
    requires
        forall|c: int| 0 <= c < 3 ==> 1 <= #[trigger] delta_bits[c] <= 31,
        forall|c: int, k: int| 0 <= c < 3 && 0 <= k < 4 ==> #[trigger] old(endpoints)[c][k] < 0x8000_0000,
    ensures
        forall|c: int| 0 <= c < 3 ==> #[trigger] final(endpoints)[c][0] == old(endpoints)[c][0],
        forall|c: int, k: int| 0 <= c < 3 && 1 <= k < 4 ==> #[trigger] final(endpoints)[c][k]
            == delta_code((old(endpoints)[c][k] - old(endpoints)[c][0]) as i32, delta_bits[c]),
        forall|c: int, k: int| 0 <= c < 3 && 1 <= k < 4 && deltas_within(old(endpoints)[c], delta_bits[c] as nat) ==>
            sign_extend(#[trigger] final(endpoints)[c][k] as int, delta_bits[c] as nat) + old(endpoints)[c][0] == old(endpoints)[c][k],
{
    let mut c: usize = 0;
    while c < 3
        invariant
            c <= 3,
            forall|d: int| 0 <= d < 3 ==> 1 <= #[trigger] delta_bits[d] <= 31,
            forall|d: int, k: int| 0 <= d < 3 && 0 <= k < 4 ==> #[trigger] old(endpoints)[d][k] < 0x8000_0000,
            forall|d: int| c <= d < 3 ==> #[trigger] endpoints[d] == old(endpoints)[d],
            forall|d: int| 0 <= d < c ==> #[trigger] endpoints[d][0] == old(endpoints)[d][0],
            forall|d: int, k: int| 0 <= d < c && 1 <= k < 4 ==> #[trigger] endpoints[d][k]
                == delta_code((old(endpoints)[d][k] - old(endpoints)[d][0]) as i32, delta_bits[d]),
        decreases 3 - c,
    {
        let bits = delta_bits[c];
        proof {
            lemma2_to64();
            if bits < 31 {
                lemma_pow2_strictly_increases(bits as nat, 31);
            }
            lemma_pow2_pos(bits as nat);
            vstd::bits::lemma_u32_shl_is_mul(1, bits);
        }
        let delta_bitmask = (1u32 << bits) - 1;
        let e = endpoints[c];
        let delta0 = e[1] as i32 - e[0] as i32;
        let delta1 = e[2] as i32 - e[0] as i32;
        let delta2 = e[3] as i32 - e[0] as i32;
        endpoints[c][1] = delta0 as u32 & delta_bitmask;
        endpoints[c][2] = delta1 as u32 & delta_bitmask;
        endpoints[c][3] = delta2 as u32 & delta_bitmask;
        c = c + 1;
    }
    proof {
        assert forall|c: int, k: int| 0 <= c < 3 && 1 <= k < 4 && deltas_within(old(endpoints)[c], delta_bits[c] as nat) implies
            sign_extend(#[trigger] endpoints[c][k] as int, delta_bits[c] as nat) + old(endpoints)[c][0] == old(endpoints)[c][k] by {
            let d = (old(endpoints)[c][k] - old(endpoints)[c][0]) as i32;
            lemma_delta_code_roundtrip(d, delta_bits[c]);
        }
    }
}

/// A block of sixteen RGB halves is classed by its channel variances: it is
/// simple exactly when it is not one colour and every channel's sum of
/// squared deviations from its rounded mean stays below 256 * 256 * 16 (a
/// standard deviation of 256 per texel); complex when some channel's reaches
/// it.
pub proof fn lemma_bc6h_kind_by_variance(px: [u16; 48], s: Bc6hBlockStats)
    requires
        bc6h_stats_of(px, s),
    ensures
        bc6h_kind_of(s) == Bc6hBlockKind::Simple <==> (
            !(forall|i: int, c: int| 0 <= i < 16 && 0 <= c < 3 ==> #[trigger] htexel(px, i, c) == htexel(px, 0, c))
            && forall|c: int| 0 <= c < 3 ==>
                #[trigger] hcross(px, c, (hsum(px, c, 16) + 8) / 16, c, (hsum(px, c, 16) + 8) / 16, 16) < 256 * 256 * 16
        ),
        bc6h_kind_of(s) == Bc6hBlockKind::Complex <==> (
            !(forall|i: int, c: int| 0 <= i < 16 && 0 <= c < 3 ==> #[trigger] htexel(px, i, c) == htexel(px, 0, c))
            && exists|c: int| 0 <= c < 3 &&
                #[trigger] hcross(px, c, (hsum(px, c, 16) + 8) / 16, c, (hsum(px, c, 16) + 8) / 16, 16) >= 256 * 256 * 16
        ),
{
    lemma_bc6h_solid_iff_uniform(px, s);
    assert(s.mean[0] == (hsum(px, 0, 16) + 8) / 16);
    assert(s.mean[1] == (hsum(px, 1, 16) + 8) / 16);
    assert(s.mean[2] == (hsum(px, 2, 16) + 8) / 16);
    assert(s.icov[0] == hcross(px, 0, s.mean[0] as int, 0, s.mean[0] as int, 16));
    assert(s.icov[3] == hcross(px, 1, s.mean[1] as int, 1, s.mean[1] as int, 16));
    assert(s.icov[5] == hcross(px, 2, s.mean[2] as int, 2, s.mean[2] as int, 16));
    let v0 = hcross(px, 0, (hsum(px, 0, 16) + 8) / 16, 0, (hsum(px, 0, 16) + 8) / 16, 16);
    let v1 = hcross(px, 1, (hsum(px, 1, 16) + 8) / 16, 1, (hsum(px, 1, 16) + 8) / 16, 16);
    let v2 = hcross(px, 2, (hsum(px, 2, 16) + 8) / 16, 2, (hsum(px, 2, 16) + 8) / 16, 16);
    if exists|c: int| 0 <= c < 3 &&
        #[trigger] hcross(px, c, (hsum(px, c, 16) + 8) / 16, c, (hsum(px, c, 16) + 8) / 16, 16) >= 256 * 256 * 16 {
        let c = choose|c: int| 0 <= c < 3 &&
            #[trigger] hcross(px, c, (hsum(px, c, 16) + 8) / 16, c, (hsum(px, c, 16) + 8) / 16, 16) >= 256 * 256 * 16;
        assert(c == 0 || c == 1 || c == 2);
    }
    if v0 < 256 * 256 * 16 && v1 < 256 * 256 * 16 && v2 < 256 * 256 * 16 {
        assert forall|c: int| 0 <= c < 3 implies
            #[trigger] hcross(px, c, (hsum(px, c, 16) + 8) / 16, c, (hsum(px, c, 16) + 8) / 16, 16) < 256 * 256 * 16 by {
            assert(c == 0 || c == 1 || c == 2);
        }
    } else {
        if v0 >= 256 * 256 * 16 {
            assert(hcross(px, 0, (hsum(px, 0, 16) + 8) / 16, 0, (hsum(px, 0, 16) + 8) / 16, 16) >= 256 * 256 * 16);
        } else if v1 >= 256 * 256 * 16 {
            assert(hcross(px, 1, (hsum(px, 1, 16) + 8) / 16, 1, (hsum(px, 1, 16) + 8) / 16, 16) >= 256 * 256 * 16);
        } else {
            assert(hcross(px, 2, (hsum(px, 2, 16) + 8) / 16, 2, (hsum(px, 2, 16) + 8) / 16, 16) >= 256 * 256 * 16);
        }
    }
}

} // verus!
