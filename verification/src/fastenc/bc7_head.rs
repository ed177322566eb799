//! The integer front of the real-time BC7 encoder: which pipeline a block
//! goes to, the solid-block test, the channel statistics and covariance the
//! pipelines classify a block by, and the extreme texels and quantised
//! endpoints of the trivial mode-6 encoding, the two-subset pattern nearest a
//! desired split and the statistics of each subset of a pattern. The
//! pipelines themselves fit endpoints in floating point and are not part of
//! this crate.

use vstd::prelude::*;
use crate::fastenc::bc7f::{Rgba, to_7_int_p};
use crate::fastenc::bc7f::flags::{PARTIALLY_ANALYTICAL_RGB, PARTIALLY_ANALYTICAL_RGBA};
use crate::fastenc::bc6h_enc::{pattern_distance, lemma_xor16};
use crate::fastenc::bc7_patterns::popcount16;
use crate::bitfield::{nat_field, lemma_u32_or_shl, lemma_u32_shr_mask};
use vstd::arithmetic::power2::{pow2, lemma2_to64};

verus! {

/// The encoding pipelines of the real-time BC7 encoder.
#[derive(PartialEq, Eq, Structural, Clone, Copy, Debug)]
pub enum Bc7Pipeline {
    /// Opaque blocks, endpoints fitted analytically.
    RgbAnalytical,
    /// Opaque blocks, analytical fit followed by a search over candidates.
    RgbPartiallyAnalytical,
    /// Blocks with alpha, endpoints fitted analytically.
    RgbaAnalytical,
    /// Blocks with alpha, analytical fit followed by a search over candidates.
    RgbaPartiallyAnalytical,
}

/// The pipeline for a block, given whether any of its texels is translucent
/// and the encoder flags.
pub open spec fn pipeline_for(translucent: bool, fl: u32) -> Bc7Pipeline {
    if translucent {
        if fl & PARTIALLY_ANALYTICAL_RGBA != 0 {
            Bc7Pipeline::RgbaPartiallyAnalytical
        } else {
            Bc7Pipeline::RgbaAnalytical
        }
    } else if fl & PARTIALLY_ANALYTICAL_RGB != 0 {
        Bc7Pipeline::RgbPartiallyAnalytical
    } else {
        Bc7Pipeline::RgbAnalytical
    }
}

/// Whether some texel's alpha is below 255.
pub open spec fn translucent(px: [Rgba; 16]) -> bool {
    exists|i: int| 0 <= i < 16 && #[trigger] px[i][3] < 255
}

/// The pipeline for a block known to be opaque: the flags alone choose
/// between the analytical and the partially analytical one.
pub fn bc7_pipeline_for_opaque(fl: u32) -> (p: Bc7Pipeline)
    ensures
        p == pipeline_for(false, fl),
{
    if fl & PARTIALLY_ANALYTICAL_RGB != 0 {
        Bc7Pipeline::RgbPartiallyAnalytical
    } else {
        Bc7Pipeline::RgbAnalytical
    }
}

/// The pipeline for any block: the alpha pipelines when a texel is
/// translucent, the opaque ones otherwise, the flags choosing between
/// analytical and partially analytical.
pub fn bc7_pipeline_for(pixels: &[Rgba; 16], fl: u32) -> (p: Bc7Pipeline)
    ensures
        p == pipeline_for(translucent(*pixels), fl),
{
    let mut i: usize = 0;
    while i < 16
        invariant
            i <= 16,
            i % 4 == 0,
            forall|k: int| 0 <= k < i ==> #[trigger] pixels[k][3] == 255,
        decreases 16 - i,
    {
        if pixels[i][3] < 255 || pixels[i + 1][3] < 255 || pixels[i + 2][3] < 255 || pixels[i + 3][3] < 255 {
            if fl & PARTIALLY_ANALYTICAL_RGBA != 0 {
                return Bc7Pipeline::RgbaPartiallyAnalytical;
            }
            return Bc7Pipeline::RgbaAnalytical;
        }
        i = i + 4;
    }
    bc7_pipeline_for_opaque(fl)
}

/// Whether all sixteen texels are the same colour, alpha included.
pub fn is_solid_block(pixels: &[Rgba; 16]) -> (r: bool)
    ensures
        r == (forall|i: int| 0 <= i < 16 ==> #[trigger] pixels[i] == pixels[0]),
{
    let first = pixels[0];
    let mut i: usize = 1;
    while i < 16
        invariant
            1 <= i <= 16,
            first == pixels[0],
            forall|k: int| 0 <= k < i ==> #[trigger] pixels[k] == pixels[0],
        decreases 16 - i,
    {
        let p = pixels[i];
        if p[0] != first[0] || p[1] != first[1] || p[2] != first[2] || p[3] != first[3] {
            assert(pixels[i as int] != pixels[0]);
            return false;
        }
        assert(pixels[i as int] =~= pixels[0]);
        i = i + 1;
    }
    true
}

/// The sum of channel `c` over the first `n` texels.
pub open spec fn csum(px: [Rgba; 16], c: int, n: nat) -> int
    decreases n,
{
    if n == 0 { 0 } else { csum(px, c, (n - 1) as nat) + px[n - 1][c] }
}

/// The least value of channel `c` over the first `n` texels (255 for none).
pub open spec fn cmin(px: [Rgba; 16], c: int, n: nat) -> int
    decreases n,
{
    if n == 0 {
        255
    } else {
        let m = cmin(px, c, (n - 1) as nat);
        if (px[n - 1][c] as int) < m { px[n - 1][c] as int } else { m }
    }
}

/// The greatest value of channel `c` over the first `n` texels (0 for none).
pub open spec fn cmax(px: [Rgba; 16], c: int, n: nat) -> int
    decreases n,
{
    if n == 0 {
        0
    } else {
        let m = cmax(px, c, (n - 1) as nat);
        if (px[n - 1][c] as int) > m { px[n - 1][c] as int } else { m }
    }
}

/// The sum over the first `n` texels of (channel `a` less `ma`) times
/// (channel `b` less `mb`).
pub open spec fn ccross(px: [Rgba; 16], a: int, ma: int, b: int, mb: int, n: nat) -> int
    decreases n,
{
    if n == 0 {
        0
    } else {
        ccross(px, a, ma, b, mb, (n - 1) as nat) + (px[n - 1][a] - ma) * (px[n - 1][b] - mb)
    }
}

/// The mean of sixteen values summing to `total`, rounded to nearest.
pub open spec fn mean16(total: int) -> int {
    (total + 8) / 16
}

/// The channel pair of entry `k` of the three-channel covariance: RR, RG,
/// RB, GG, GB, BB.
pub open spec fn rgb_pair(k: int) -> (int, int) {
    if k == 0 { (0, 0) }
    else if k == 1 { (0, 1) }
    else if k == 2 { (0, 2) }
    else if k == 3 { (1, 1) }
    else if k == 4 { (1, 2) }
    else { (2, 2) }
}

/// The channel pair of entry `k` of the four-channel covariance: RR, RG,
/// RB, RA, GG, GB, GA, BB, BA, AA.
pub open spec fn rgba_pair(k: int) -> (int, int) {
    if k == 0 { (0, 0) }
    else if k == 1 { (0, 1) }
    else if k == 2 { (0, 2) }
    else if k == 3 { (0, 3) }
    else if k == 4 { (1, 1) }
    else if k == 5 { (1, 2) }
    else if k == 6 { (1, 3) }
    else if k == 7 { (2, 2) }
    else if k == 8 { (2, 3) }
    else { (3, 3) }
}

/// The larger of two integers.
pub open spec fn larger(a: int, b: int) -> int {
    if b > a { b } else { a }
}

/// The statistics of an opaque block: per-channel total, least and greatest
/// value and rounded mean of R, G and B, the six distinct entries of the
/// (unnormalised) covariance about the mean, and the largest channel
/// variance.
pub struct RgbStats {
    pub total: [i32; 3],
    pub min: [i32; 3],
    pub max: [i32; 3],
    pub mean: [i32; 3],
    pub icov: [i32; 6],
    pub block_max_var: i32,
}

/// The same statistics over all four channels, with the ten distinct
/// covariance entries.
pub struct RgbaStats {
    pub total: [i32; 4],
    pub min: [i32; 4],
    pub max: [i32; 4],
    pub mean: [i32; 4],
    pub icov: [i32; 10],
    pub block_max_var: i32,
}

/// Whether `s` holds the R, G, B statistics of `px`.
pub open spec fn rgb_stats_of(px: [Rgba; 16], s: RgbStats) -> bool {
    &&& forall|c: int| 0 <= c < 3 ==> {
        &&& #[trigger] s.total[c] == csum(px, c, 16)
        &&& s.min[c] == cmin(px, c, 16)
        &&& s.max[c] == cmax(px, c, 16)
        &&& s.mean[c] == mean16(csum(px, c, 16))
    }
    &&& forall|k: int| 0 <= k < 6 ==> #[trigger] s.icov[k] == {
        let (a, b) = rgb_pair(k);
        ccross(px, a, s.mean[a] as int, b, s.mean[b] as int, 16)
    }
    &&& s.block_max_var == larger(larger(s.icov[0] as int, s.icov[3] as int), s.icov[5] as int)
}

/// Whether `s` holds the R, G, B, A statistics of `px`.
pub open spec fn rgba_stats_of(px: [Rgba; 16], s: RgbaStats) -> bool {
    &&& forall|c: int| 0 <= c < 4 ==> {
        &&& #[trigger] s.total[c] == csum(px, c, 16)
        &&& s.min[c] == cmin(px, c, 16)
        &&& s.max[c] == cmax(px, c, 16)
        &&& s.mean[c] == mean16(csum(px, c, 16))
    }
    &&& forall|k: int| 0 <= k < 10 ==> #[trigger] s.icov[k] == {
        let (a, b) = rgba_pair(k);
        ccross(px, a, s.mean[a] as int, b, s.mean[b] as int, 16)
    }
    &&& s.block_max_var == larger(
        larger(larger(s.icov[0] as int, s.icov[4] as int), s.icov[7] as int),
        s.icov[9] as int,
    )
}

proof fn lemma_crange(px: [Rgba; 16], c: int, n: nat)
    requires
        0 <= c < 4,
        n <= 16,
    ensures
        0 <= cmin(px, c, n) <= 255,
        0 <= cmax(px, c, n) <= 255,
        0 <= csum(px, c, n) <= 255 * n,
        forall|i: int| 0 <= i < n ==> cmin(px, c, n) <= #[trigger] px[i][c] <= cmax(px, c, n),
    decreases n,
{
    if n > 0 {
        lemma_crange(px, c, (n - 1) as nat);
    }
}

/// The least, greatest and total value of channel `c`.
fn channel_range(pixels: &[Rgba; 16], c: usize) -> (r: (i32, i32, i32))
    requires
        c < 4,
    ensures
        r.0 == cmin(*pixels, c as int, 16),
        r.1 == cmax(*pixels, c as int, 16),
        r.2 == csum(*pixels, c as int, 16),
{
    let mut lo: i32 = 255;
    let mut hi: i32 = 0;
    let mut total: i32 = 0;
    let mut i: usize = 0;
    while i < 16
        invariant
            c < 4,
            i <= 16,
            lo == cmin(*pixels, c as int, i as nat),
            hi == cmax(*pixels, c as int, i as nat),
            total == csum(*pixels, c as int, i as nat),
        decreases 16 - i,
    {
        proof {
            lemma_crange(*pixels, c as int, i as nat);
        }
        let v = pixels[i][c] as i32;
        total = total + v;
        if v < lo {
            lo = v;
        }
        if v > hi {
            hi = v;
        }
        i = i + 1;
    }
    (lo, hi, total)
}

proof fn lemma_centred_product(x: int, y: int)
    requires
        -255 <= x <= 255,
        -255 <= y <= 255,
    ensures
        -65025 <= x * y <= 65025,
{
    assert(-65025 <= x * y <= 65025) by (nonlinear_arith)
        requires
            -255 <= x <= 255,
            -255 <= y <= 255,
    ;
}

/// The sum over the block of (channel `a` less `ma`) times (channel `b` less
/// `mb`).
fn cross_sum(pixels: &[Rgba; 16], a: usize, ma: i32, b: usize, mb: i32) -> (r: i32)
    requires
        a < 4,
        b < 4,
        0 <= ma <= 255,
        0 <= mb <= 255,
    ensures
        r == ccross(*pixels, a as int, ma as int, b as int, mb as int, 16),
{
    let mut acc: i32 = 0;
    let mut i: usize = 0;
    while i < 16
        invariant
            a < 4,
            b < 4,
            0 <= ma <= 255,
            0 <= mb <= 255,
            i <= 16,
            acc == ccross(*pixels, a as int, ma as int, b as int, mb as int, i as nat),
            -(i * 65025) <= acc <= i * 65025,
        decreases 16 - i,
    {
        let x: i32 = pixels[i][a] as i32 - ma;
        let y: i32 = pixels[i][b] as i32 - mb;
        proof {
            lemma_centred_product(x as int, y as int);
        }
        acc = acc + x * y;
        i = i + 1;
    }
    acc
}

/// The R, G, B statistics an opaque block is classified by.
pub fn rgb_block_stats(pixels: &[Rgba; 16]) -> (s: RgbStats)
    ensures
        rgb_stats_of(*pixels, s),
{
    let (lo_r, hi_r, tot_r) = channel_range(pixels, 0);
    let (lo_g, hi_g, tot_g) = channel_range(pixels, 1);
    let (lo_b, hi_b, tot_b) = channel_range(pixels, 2);
    proof {
        lemma_crange(*pixels, 0, 16);
        lemma_crange(*pixels, 1, 16);
        lemma_crange(*pixels, 2, 16);
    }
    let mean_r = (tot_r + 8) / 16;
    let mean_g = (tot_g + 8) / 16;
    let mean_b = (tot_b + 8) / 16;
    let icov: [i32; 6] = [
        cross_sum(pixels, 0, mean_r, 0, mean_r),
        cross_sum(pixels, 0, mean_r, 1, mean_g),
        cross_sum(pixels, 0, mean_r, 2, mean_b),
        cross_sum(pixels, 1, mean_g, 1, mean_g),
        cross_sum(pixels, 1, mean_g, 2, mean_b),
        cross_sum(pixels, 2, mean_b, 2, mean_b),
    ];
    let mut block_max_var = icov[0];
    if icov[3] > block_max_var {
        block_max_var = icov[3];
    }
    if icov[5] > block_max_var {
        block_max_var = icov[5];
    }
    let s = RgbStats {
        total: [tot_r, tot_g, tot_b],
        min: [lo_r, lo_g, lo_b],
        max: [hi_r, hi_g, hi_b],
        mean: [mean_r, mean_g, mean_b],
        icov,
        block_max_var,
    };
    proof {
        assert forall|k: int| 0 <= k < 6 implies #[trigger] s.icov[k] == {
            let (a, b) = rgb_pair(k);
            ccross(*pixels, a, s.mean[a] as int, b, s.mean[b] as int, 16)
        } by {
            assert(0 <= k < 6);
        }
    }
    s
}

/// The R, G, B, A statistics a block with alpha is classified by.
pub fn rgba_block_stats(pixels: &[Rgba; 16]) -> (s: RgbaStats)
    ensures
        rgba_stats_of(*pixels, s),
{
    let (lo_r, hi_r, tot_r) = channel_range(pixels, 0);
    let (lo_g, hi_g, tot_g) = channel_range(pixels, 1);
    let (lo_b, hi_b, tot_b) = channel_range(pixels, 2);
    let (lo_a, hi_a, tot_a) = channel_range(pixels, 3);
    proof {
        lemma_crange(*pixels, 0, 16);
        lemma_crange(*pixels, 1, 16);
        lemma_crange(*pixels, 2, 16);
        lemma_crange(*pixels, 3, 16);
    }
    let mean_r = (tot_r + 8) / 16;
    let mean_g = (tot_g + 8) / 16;
    let mean_b = (tot_b + 8) / 16;
    let mean_a = (tot_a + 8) / 16;
    let icov: [i32; 10] = [
        cross_sum(pixels, 0, mean_r, 0, mean_r),
        cross_sum(pixels, 0, mean_r, 1, mean_g),
        cross_sum(pixels, 0, mean_r, 2, mean_b),
        cross_sum(pixels, 0, mean_r, 3, mean_a),
        cross_sum(pixels, 1, mean_g, 1, mean_g),
        cross_sum(pixels, 1, mean_g, 2, mean_b),
        cross_sum(pixels, 1, mean_g, 3, mean_a),
        cross_sum(pixels, 2, mean_b, 2, mean_b),
        cross_sum(pixels, 2, mean_b, 3, mean_a),
        cross_sum(pixels, 3, mean_a, 3, mean_a),
    ];
    let mut block_max_var = icov[0];
    if icov[4] > block_max_var {
        block_max_var = icov[4];
    }
    if icov[7] > block_max_var {
        block_max_var = icov[7];
    }
    if icov[9] > block_max_var {
        block_max_var = icov[9];
    }
    let s = RgbaStats {
        total: [tot_r, tot_g, tot_b, tot_a],
        min: [lo_r, lo_g, lo_b, lo_a],
        max: [hi_r, hi_g, hi_b, hi_a],
        mean: [mean_r, mean_g, mean_b, mean_a],
        icov,
        block_max_var,
    };
    proof {
        assert forall|k: int| 0 <= k < 10 implies #[trigger] s.icov[k] == {
            let (a, b) = rgba_pair(k);
            ccross(*pixels, a, s.mean[a] as int, b, s.mean[b] as int, 16)
        } by {
            assert(0 <= k < 10);
        }
    }
    s
}

/// A channel's squared deviations sum to at least zero, and to zero only
/// when every texel has the value the deviations are taken from.
proof fn lemma_square_sum(px: [Rgba; 16], c: int, m: int, n: nat)
    requires
        0 <= c < 4,
        n <= 16,
    ensures
        ccross(px, c, m, c, m, n) >= 0,
        ccross(px, c, m, c, m, n) == 0 ==> forall|i: int| 0 <= i < n ==> #[trigger] px[i][c] == m,
    decreases n,
{
    if n > 0 {
        lemma_square_sum(px, c, m, (n - 1) as nat);
        let d = px[n - 1][c] - m;
        assert(d * d >= 0) by (nonlinear_arith);
        assert(d * d == 0 ==> d == 0) by (nonlinear_arith);
    }
}

/// Squared deviations from a value every texel has sum to zero.
proof fn lemma_square_sum_uniform(px: [Rgba; 16], c: int, n: nat)
    requires
        0 <= c < 4,
        n <= 16,
        forall|i: int| 0 <= i < n ==> #[trigger] px[i][c] == px[0][c],
    ensures
        ccross(px, c, px[0][c] as int, c, px[0][c] as int, n) == 0,
        csum(px, c, n) == n * px[0][c],
    decreases n,
{
    if n > 0 {
        lemma_square_sum_uniform(px, c, (n - 1) as nat);
        assert(px[n - 1][c] == px[0][c]);
        let v = px[0][c] as int;
        assert((n - 1) * v + v == n * v) by (nonlinear_arith);
    }
}

/// The largest channel variance of an opaque block is zero exactly when its
/// sixteen texels have one R, G, B colour: such a block is packed as solid.
pub proof fn lemma_rgb_no_variance_iff_uniform(px: [Rgba; 16], s: RgbStats)
    requires
        rgb_stats_of(px, s),
    ensures
        (s.block_max_var == 0) <==> (forall|i: int, c: int| 0 <= i < 16 && 0 <= c < 3 ==> #[trigger] px[i][c] == px[0][c]),
{
    assert(s.icov[0] == ccross(px, 0, s.mean[0] as int, 0, s.mean[0] as int, 16));
    assert(s.icov[3] == ccross(px, 1, s.mean[1] as int, 1, s.mean[1] as int, 16));
    assert(s.icov[5] == ccross(px, 2, s.mean[2] as int, 2, s.mean[2] as int, 16));
    lemma_square_sum(px, 0, s.mean[0] as int, 16);
    lemma_square_sum(px, 1, s.mean[1] as int, 16);
    lemma_square_sum(px, 2, s.mean[2] as int, 16);
    if s.block_max_var == 0 {
        assert forall|i: int, c: int| 0 <= i < 16 && 0 <= c < 3 implies #[trigger] px[i][c] == px[0][c] by {
            assert(px[i][c] == s.mean[c]);
            assert(px[0][c] == s.mean[c]);
        }
    }
    if forall|i: int, c: int| 0 <= i < 16 && 0 <= c < 3 ==> #[trigger] px[i][c] == px[0][c] {
        assert forall|c: int| 0 <= c < 3 implies s.mean[c] == px[0][c] && #[trigger] s.icov[rgb_index(c)] == 0 by {
            assert forall|i: int| 0 <= i < 16 implies #[trigger] px[i][c] == px[0][c] by {
                assert(px[i][c] == px[0][c]);
            }
            lemma_square_sum_uniform(px, c, 16);
            assert(s.total[c] == csum(px, c, 16));
        }
        assert(s.icov[rgb_index(0)] == 0);
        assert(s.icov[rgb_index(1)] == 0);
        assert(s.icov[rgb_index(2)] == 0);
    }
}

/// The covariance entry of channel `c`'s variance in the three-channel
/// layout.
pub open spec fn rgb_index(c: int) -> int {
    if c == 0 { 0 } else if c == 1 { 3 } else { 5 }
}

/// The covariance entry of channel `c`'s variance in the four-channel
/// layout.
pub open spec fn rgba_index(c: int) -> int {
    if c == 0 { 0 } else if c == 1 { 4 } else if c == 2 { 7 } else { 9 }
}

/// The largest channel variance of a block with alpha is zero exactly when
/// its sixteen texels are one RGBA colour.
pub proof fn lemma_rgba_no_variance_iff_uniform(px: [Rgba; 16], s: RgbaStats)
    requires
        rgba_stats_of(px, s),
    ensures
        (s.block_max_var == 0) <==> (forall|i: int, c: int| 0 <= i < 16 && 0 <= c < 4 ==> #[trigger] px[i][c] == px[0][c]),
{
    assert(s.icov[0] == ccross(px, 0, s.mean[0] as int, 0, s.mean[0] as int, 16));
    assert(s.icov[4] == ccross(px, 1, s.mean[1] as int, 1, s.mean[1] as int, 16));
    assert(s.icov[7] == ccross(px, 2, s.mean[2] as int, 2, s.mean[2] as int, 16));
    assert(s.icov[9] == ccross(px, 3, s.mean[3] as int, 3, s.mean[3] as int, 16));
    lemma_square_sum(px, 0, s.mean[0] as int, 16);
    lemma_square_sum(px, 1, s.mean[1] as int, 16);
    lemma_square_sum(px, 2, s.mean[2] as int, 16);
    lemma_square_sum(px, 3, s.mean[3] as int, 16);
    if s.block_max_var == 0 {
        assert forall|i: int, c: int| 0 <= i < 16 && 0 <= c < 4 implies #[trigger] px[i][c] == px[0][c] by {
            assert(px[i][c] == s.mean[c]);
            assert(px[0][c] == s.mean[c]);
        }
    }
    if forall|i: int, c: int| 0 <= i < 16 && 0 <= c < 4 ==> #[trigger] px[i][c] == px[0][c] {
        assert forall|c: int| 0 <= c < 4 implies s.mean[c] == px[0][c] && #[trigger] s.icov[rgba_index(c)] == 0 by {
            assert forall|i: int| 0 <= i < 16 implies #[trigger] px[i][c] == px[0][c] by {
                assert(px[i][c] == px[0][c]);
            }
            lemma_square_sum_uniform(px, c, 16);
            assert(s.total[c] == csum(px, c, 16));
        }
        assert(s.icov[rgba_index(0)] == 0);
        assert(s.icov[rgba_index(1)] == 0);
        assert(s.icov[rgba_index(2)] == 0);
        assert(s.icov[rgba_index(3)] == 0);
    }
}

/// The key the trivial mode-6 encoding orders texels by: a luma-like
/// weighting of the channels (alpha too when `with_alpha`), times sixteen,
/// plus the texel's index, so that no two texels tie.
pub open spec fn trivial_key(px: [Rgba; 16], with_alpha: bool, k: int) -> int {
    32 * px[k][0] + 64 * px[k][1] + 16 * px[k][2] + (if with_alpha { 64 * px[k][3] } else { 0 }) + k
}

proof fn lemma_low_nibble(x: i32)
    by (bit_vector)
    requires
        x >= 0,
    ensures
        x & 0xF == x % 16,
{
}

/// The texels with the smallest and the largest key: the two ends of the
/// trivial mode-6 encoding.
pub fn trivial_mode6_extremes(pixels: &[Rgba; 16], with_alpha: bool) -> (r: (usize, usize))
    ensures
        r.0 < 16,
        r.1 < 16,
        forall|k: int| 0 <= k < 16 ==> {
            &&& trivial_key(*pixels, with_alpha, r.0 as int) <= #[trigger] trivial_key(*pixels, with_alpha, k)
            &&& trivial_key(*pixels, with_alpha, k) <= trivial_key(*pixels, with_alpha, r.1 as int)
        },
{
    let mut low_c: i32 = i32::MAX;
    let mut high_c: i32 = 0;
    let ghost mut lo: int = 0;
    let ghost mut hi: int = 0;
    let mut i: usize = 0;
    while i < 16
        invariant
            i <= 16,
            i == 0 ==> low_c == i32::MAX && high_c == 0 && hi == 0,
            i > 0 ==> 0 <= lo < i && low_c == trivial_key(*pixels, with_alpha, lo),
            i > 0 ==> 0 <= hi < i && high_c == trivial_key(*pixels, with_alpha, hi),
            forall|j: int| 0 <= j < i ==> low_c <= #[trigger] trivial_key(*pixels, with_alpha, j) <= high_c,
            0 <= high_c,
        decreases 16 - i,
    {
        let mut y: i32 = 32 * pixels[i][0] as i32 + 64 * pixels[i][1] as i32 + 16 * pixels[i][2] as i32;
        if with_alpha {
            y = y + 64 * pixels[i][3] as i32;
        }
        y = y + i as i32;
        assert(y == trivial_key(*pixels, with_alpha, i as int));
        if y < low_c {
            low_c = y;
            proof {
                lo = i as int;
            }
        }
        if y > high_c {
            high_c = y;
            proof {
                hi = i as int;
            }
        }
        i = i + 1;
    }
    proof {
        lemma_low_nibble(low_c);
        lemma_low_nibble(high_c);
        let base_lo = 2 * pixels[lo][0] + 4 * pixels[lo][1] + pixels[lo][2] + (if with_alpha { 4 * pixels[lo][3] } else { 0 });
        let base_hi = 2 * pixels[hi][0] + 4 * pixels[hi][1] + pixels[hi][2] + (if with_alpha { 4 * pixels[hi][3] } else { 0 });
        vstd::arithmetic::div_mod::lemma_fundamental_div_mod_converse(low_c as int, 16, base_lo, lo);
        vstd::arithmetic::div_mod::lemma_fundamental_div_mod_converse(high_c as int, 16, base_hi, hi);
    }
    ((low_c & 0xF) as usize, (high_c & 0xF) as usize)
}

/// A 7-bit mode-6 endpoint channel for byte `c8` under p-bit `p`: the
/// nearest code whose expansion with that p-bit does not undershoot, capped
/// at 127.
pub open spec fn q7(c8: int, p: int) -> int {
    if (c8 + 1 - p) / 2 < 127 { (c8 + 1 - p) / 2 } else { 127 }
}

/// The endpoints of a trivial mode-6 block: 7-bit RGBA codes of the low and
/// the high end, with the p-bit of each.
pub struct Mode6Endpoints {
    pub low: [i32; 4],
    pub high: [i32; 4],
    pub p0: i32,
    pub p1: i32,
}

/// The trivial mode-6 endpoints taken straight from the extreme texels
/// `low_c` and `high_c`: with alpha, each end's p-bit is whether its texel's
/// alpha is above 128 and all four channels are quantised under it; without,
/// both p-bits are 1, R, G, B are quantised and alpha is the top code.
pub fn trivial_mode6_endpoints(pixels: &[Rgba; 16], low_c: usize, high_c: usize, with_alpha: bool) -> (e: Mode6Endpoints)
    requires
        low_c < 16,
        high_c < 16,
    ensures
        e.p0 == (if with_alpha && pixels[low_c as int][3] > 128 { 1int } else if with_alpha { 0 } else { 1 }),
        e.p1 == (if with_alpha && pixels[high_c as int][3] > 128 { 1int } else if with_alpha { 0 } else { 1 }),
        forall|c: int| 0 <= c < 3 ==> {
            &&& #[trigger] e.low[c] == q7(pixels[low_c as int][c] as int, e.p0 as int)
            &&& e.high[c] == q7(pixels[high_c as int][c] as int, e.p1 as int)
        },
        e.low[3] == (if with_alpha { q7(pixels[low_c as int][3] as int, e.p0 as int) } else { 127 }),
        e.high[3] == (if with_alpha { q7(pixels[high_c as int][3] as int, e.p1 as int) } else { 127 }),
        forall|c: int| 0 <= c < 4 ==> 0 <= #[trigger] e.low[c] <= 127 && 0 <= e.high[c] <= 127,
{
    let lo = pixels[low_c];
    let hi = pixels[high_c];
    let (p0, p1): (i32, i32) = if with_alpha {
        ((if lo[3] > 128 { 1 } else { 0 }), (if hi[3] > 128 { 1 } else { 0 }))
    } else {
        (1, 1)
    };
    let la: i32 = if with_alpha { to_7_int_p(lo[3] as i32, p0) } else { 127 };
    let ha: i32 = if with_alpha { to_7_int_p(hi[3] as i32, p1) } else { 127 };
    let e = Mode6Endpoints {
        low: [
            to_7_int_p(lo[0] as i32, p0),
            to_7_int_p(lo[1] as i32, p0),
            to_7_int_p(lo[2] as i32, p0),
            la,
        ],
        high: [
            to_7_int_p(hi[0] as i32, p1),
            to_7_int_p(hi[1] as i32, p1),
            to_7_int_p(hi[2] as i32, p1),
            ha,
        ],
        p0,
        p1,
    };
    proof {
        assert forall|c: int| 0 <= c < 3 implies {
            &&& #[trigger] e.low[c] == q7(pixels[low_c as int][c] as int, e.p0 as int)
            &&& e.high[c] == q7(pixels[high_c as int][c] as int, e.p1 as int)
        } by {
            assert(0 <= c < 3);
        }
        assert forall|c: int| 0 <= c < 4 implies 0 <= #[trigger] e.low[c] <= 127 && 0 <= e.high[c] <= 127 by {
            assert(0 <= c < 4);
        }
    }
    e
}

/// The ordering key of texel `i` along integer axis `a`: sixteen times the
/// dot product of its RGBA with `a`, plus `i`.
pub open spec fn axis_key(px: [Rgba; 16], a: [i32; 4], i: int) -> int {
    16 * (px[i][0] * a[0] + px[i][1] * a[1] + px[i][2] * a[2] + px[i][3] * a[3]) + i
}

/// Whether `lo` and `hi` are the extreme texels of subset `s` along axis `a`:
/// members of the subset with the smallest and the largest key, or 15 and 0
/// when the subset is empty.
pub open spec fn subset_extremes(px: [Rgba; 16], subsets: [u8; 16], s: int, a: [i32; 4], lo: int, hi: int) -> bool {
    if exists|k: int| 0 <= k < 16 && #[trigger] subsets[k] == s {
        &&& 0 <= lo < 16
        &&& 0 <= hi < 16
        &&& subsets[lo] == s
        &&& subsets[hi] == s
        &&& forall|k: int| 0 <= k < 16 && subsets[k] == s ==>
            axis_key(px, a, lo) <= #[trigger] axis_key(px, a, k) <= axis_key(px, a, hi)
    } else {
        lo == 15 && hi == 0
    }
}

proof fn lemma_axis_scale(a: i32)
    by (bit_vector)
    requires
        -2048 <= a <= 2048,
    ensures
        ((a as u32) << 4u32) as i32 == a * 16,
{
}

proof fn lemma_nibble(x: i32)
    by (bit_vector)
    ensures
        x == 16 * (x >> 4i32) + (x & 15i32),
        0 <= x & 15i32 < 16,
{
}

/// Each channel's dot-product term along an axis of magnitude at most 2048.
proof fn lemma_axis_term(v: int, a: int)
    requires
        0 <= v <= 255,
        -2048 <= a <= 2048,
    ensures
        -522240 <= v * a <= 522240,
{
    assert(-522240 <= v * a <= 522240) by (nonlinear_arith)
        requires
            0 <= v <= 255,
            -2048 <= a <= 2048,
    ;
}

/// The running state of the extremes search for subset `u` after the first
/// `n` texels: `low`/`high` are the smallest and largest key seen in the
/// subset, at texels `lo`/`hi`, or the starting sentinels when none was seen.
pub open spec fn extremes_so_far(px: [Rgba; 16], subsets: [u8; 16], a: [i32; 4], u: int, n: int, lo: int, hi: int, low: int, high: int) -> bool {
    &&& (exists|k: int| 0 <= k < n && #[trigger] subsets[k] == u) ==> {
        &&& 0 <= lo < n
        &&& 0 <= hi < n
        &&& subsets[lo] == u
        &&& subsets[hi] == u
        &&& low == axis_key(px, a, lo)
        &&& high == axis_key(px, a, hi)
    }
    &&& !(exists|k: int| 0 <= k < n && #[trigger] subsets[k] == u) ==> low == i32::MAX && high == i32::MIN
    &&& forall|k: int| 0 <= k < n && subsets[k] == u ==> low <= #[trigger] axis_key(px, a, k) <= high
}

/// A key along an axis within 2048 in magnitude stays well inside `i32`.
proof fn lemma_axis_key_bound(px: [Rgba; 16], a: [i32; 4], n: int)
    requires
        0 <= n < 16,
        forall|c: int| 0 <= c < 4 ==> -2048 <= #[trigger] a[c] <= 2048,
    ensures
        -33423360 <= axis_key(px, a, n) <= 33423375,
{
    lemma_axis_term(px[n][0] as int, a[0] as int);
    lemma_axis_term(px[n][1] as int, a[1] as int);
    lemma_axis_term(px[n][2] as int, a[2] as int);
    lemma_axis_term(px[n][3] as int, a[3] as int);
}

/// One texel more: a member of subset `u` lowers the low end or raises the
/// high end when its key goes past it; any other texel changes nothing.
proof fn lemma_extremes_step(px: [Rgba; 16], subsets: [u8; 16], a: [i32; 4], u: int, n: int, lo: int, hi: int, low: int, high: int)
    requires
        0 <= n < 16,
        i32::MIN < axis_key(px, a, n) < i32::MAX,
        extremes_so_far(px, subsets, a, u, n, lo, hi, low, high),
    ensures
        ({
            let key = axis_key(px, a, n);
            let in_u = subsets[n] == u;
            extremes_so_far(px, subsets, a, u, n + 1,
                if in_u && key < low { n } else { lo },
                if in_u && key > high { n } else { hi },
                if in_u && key < low { key } else { low },
                if in_u && key > high { key } else { high })
        }),
{
    if subsets[n] == u {
        if !(exists|k: int| 0 <= k < n && #[trigger] subsets[k] == u) {
            assert forall|k: int| 0 <= k < n + 1 && subsets[k] == u implies k == n by {
                if k < n {
                    assert(subsets[k] == u);
                }
            }
        }
    } else {
        if exists|k: int| 0 <= k < n + 1 && #[trigger] subsets[k] == u {
            let k = choose|k: int| 0 <= k < n + 1 && #[trigger] subsets[k] == u;
            assert(k < n);
        }
    }
}

/// For every subset `s` of up to three, the texels of that subset at the two
/// ends of its axis `axes[s]` (each component within 2048 in magnitude, as
/// the encoder scales its float axes): the smallest and the largest
/// `axis_key`, ties impossible since the key carries the texel index.
pub fn axis_extremes(pixels: &[Rgba; 16], subsets: &[u8; 16], axes: &[[i32; 4]; 3]) -> (r: ([usize; 3], [usize; 3]))
    requires
        forall|i: int| 0 <= i < 16 ==> #[trigger] subsets[i] < 3,
        forall|s: int, c: int| 0 <= s < 3 && 0 <= c < 4 ==> -2048 <= #[trigger] axes[s][c] <= 2048,
    ensures
        forall|s: int| 0 <= s < 3 ==> #[trigger] subset_extremes(*pixels, *subsets, s, axes[s], r.0[s] as int, r.1[s] as int),
{
    let mut scaled: [[i32; 4]; 3] = [[0; 4]; 3];
    let mut s: usize = 0;
    while s < 3
        invariant
            s <= 3,
            forall|t: int, c: int| 0 <= t < 3 && 0 <= c < 4 ==> -2048 <= #[trigger] axes[t][c] <= 2048,
            forall|t: int, c: int| 0 <= t < s && 0 <= c < 4 ==> #[trigger] scaled[t][c] == axes[t][c] * 16,
        decreases 3 - s,
    {
        let mut c: usize = 0;
        while c < 4
            invariant
                s < 3,
                c <= 4,
                forall|t: int, d: int| 0 <= t < 3 && 0 <= d < 4 ==> -2048 <= #[trigger] axes[t][d] <= 2048,
                forall|t: int, d: int| 0 <= t < s && 0 <= d < 4 ==> #[trigger] scaled[t][d] == axes[t][d] * 16,
                forall|d: int| 0 <= d < c ==> #[trigger] scaled[s as int][d] == axes[s as int][d] * 16,
            decreases 4 - c,
        {
            let a = axes[s][c];
            proof {
                lemma_axis_scale(a);
            }
            scaled[s][c] = ((a as u32) << 4) as i32;
            c = c + 1;
        }
        s = s + 1;
    }
    let mut low_dot: [i32; 3] = [i32::MAX; 3];
    let mut high_dot: [i32; 3] = [i32::MIN; 3];
    let ghost mut lo: Seq<int> = seq![0int, 0, 0];
    let ghost mut hi: Seq<int> = seq![0int, 0, 0];
    let mut i: usize = 0;
    while i < 16
        invariant
            i <= 16,
            lo.len() == 3,
            hi.len() == 3,
            forall|k: int| 0 <= k < 16 ==> #[trigger] subsets[k] < 3,
            forall|t: int, c: int| 0 <= t < 3 && 0 <= c < 4 ==> -2048 <= #[trigger] axes[t][c] <= 2048,
            forall|t: int, c: int| 0 <= t < 3 && 0 <= c < 4 ==> #[trigger] scaled[t][c] == axes[t][c] * 16,
            forall|t: int| 0 <= t < 3 ==> #[trigger] extremes_so_far(*pixels, *subsets, axes[t], t, i as int, lo[t], hi[t], low_dot[t] as int, high_dot[t] as int),
        decreases 16 - i,
    {
        let t = subsets[i] as usize;
        let p = pixels[i];
        let a = scaled[t];
        proof {
            lemma_axis_term(p[0] as int, axes[t as int][0] as int);
            lemma_axis_term(p[1] as int, axes[t as int][1] as int);
            lemma_axis_term(p[2] as int, axes[t as int][2] as int);
            lemma_axis_term(p[3] as int, axes[t as int][3] as int);
            assert(p[0] as int * a[0] == 16 * (p[0] as int * axes[t as int][0])) by (nonlinear_arith)
                requires a[0] == axes[t as int][0] * 16;
            assert(p[1] as int * a[1] == 16 * (p[1] as int * axes[t as int][1])) by (nonlinear_arith)
                requires a[1] == axes[t as int][1] * 16;
            assert(p[2] as int * a[2] == 16 * (p[2] as int * axes[t as int][2])) by (nonlinear_arith)
                requires a[2] == axes[t as int][2] * 16;
            assert(p[3] as int * a[3] == 16 * (p[3] as int * axes[t as int][3])) by (nonlinear_arith)
                requires a[3] == axes[t as int][3] * 16;
        }
        let dot: i32 = p[0] as i32 * a[0] + p[1] as i32 * a[1] + p[2] as i32 * a[2] + p[3] as i32 * a[3] + i as i32;
        assert(dot == axis_key(*pixels, axes[t as int], i as int));
        let ghost old_low = low_dot;
        let ghost old_high = high_dot;
        let ghost old_lo = lo;
        let ghost old_hi = hi;
        if dot < low_dot[t] {
            low_dot[t] = dot;
            proof {
                lo = lo.update(t as int, i as int);
            }
        }
        if dot > high_dot[t] {
            high_dot[t] = dot;
            proof {
                hi = hi.update(t as int, i as int);
            }
        }
        proof {
            assert forall|u: int| 0 <= u < 3 implies #[trigger] extremes_so_far(*pixels, *subsets, axes[u], u, i + 1, lo[u], hi[u], low_dot[u] as int, high_dot[u] as int) by {
                assert(extremes_so_far(*pixels, *subsets, axes[u], u, i as int, old_lo[u], old_hi[u], old_low[u] as int, old_high[u] as int));
                lemma_axis_key_bound(*pixels, axes[u], i as int);
                lemma_extremes_step(*pixels, *subsets, axes[u], u, i as int, old_lo[u], old_hi[u], old_low[u] as int, old_high[u] as int);
            }
        }
        i = i + 1;
    }
    let r = (
        [(low_dot[0] & 15) as usize, (low_dot[1] & 15) as usize, (low_dot[2] & 15) as usize],
        [(high_dot[0] & 15) as usize, (high_dot[1] & 15) as usize, (high_dot[2] & 15) as usize],
    );
    proof {
        assert forall|s: int| 0 <= s < 3 implies #[trigger] subset_extremes(*pixels, *subsets, s, axes[s], r.0[s] as int, r.1[s] as int) by {
            assert(extremes_so_far(*pixels, *subsets, axes[s], s, 16, lo[s], hi[s], low_dot[s] as int, high_dot[s] as int));
            lemma_nibble(low_dot[s]);
            lemma_nibble(high_dot[s]);
            assert(i32::MAX & 15i32 == 15i32) by (bit_vector);
            assert(i32::MIN & 15i32 == 0i32) by (bit_vector);
            if exists|k: int| 0 <= k < 16 && #[trigger] subsets[k] == s {
                let l = lo[s];
                let h = hi[s];
                let dl = pixels[l][0] * axes[s][0] + pixels[l][1] * axes[s][1] + pixels[l][2] * axes[s][2] + pixels[l][3] * axes[s][3];
                let dh = pixels[h][0] * axes[s][0] + pixels[h][1] * axes[s][1] + pixels[h][2] * axes[s][2] + pixels[h][3] * axes[s][3];
                assert(low_dot[s] == 16 * dl + l);
                assert(high_dot[s] == 16 * dh + h);
            }
        }
    }
    r
}

/// The candidate a block of the opaque partially analytical pipeline ends
/// with.
#[derive(PartialEq, Eq, Structural, Clone, Copy, Debug)]
pub enum RgbCandidate {
    Mode45,
    Mode02,
    Mode13,
    Mode6,
}

/// The candidate a block of the alpha partially analytical pipeline ends
/// with.
#[derive(PartialEq, Eq, Structural, Clone, Copy, Debug)]
pub enum RgbaCandidate {
    Mode45,
    Mode7,
    Mode6,
}

/// The smaller of two errors.
pub open spec fn min_sse(a: u32, b: u32) -> u32 {
    if b < a { b } else { a }
}

/// The error of each opaque candidate.
pub open spec fn rgb_candidate_sse(c: RgbCandidate, sse6: u32, sse02: u32, sse13: u32, sse45: u32) -> u32 {
    match c {
        RgbCandidate::Mode45 => sse45,
        RgbCandidate::Mode02 => sse02,
        RgbCandidate::Mode13 => sse13,
        RgbCandidate::Mode6 => sse6,
    }
}

/// Pick the opaque block with the least error among the mode-6 block and the
/// candidates that were tried (an untried candidate has error `u32::MAX`):
/// on a tie the dual-plane candidate wins, then the three-subset, then the
/// two-subset one, then mode 6. The picked block's error is the least.
pub fn pick_rgb_candidate(sse6: u32, sse02: u32, sse13: u32, sse45: u32) -> (r: (RgbCandidate, u32))
    ensures
        r.1 == min_sse(min_sse(min_sse(sse6, sse02), sse13), sse45),
        r.0 == (if sse45 != u32::MAX && r.1 == sse45 {
            RgbCandidate::Mode45
        } else if sse02 != u32::MAX && r.1 == sse02 {
            RgbCandidate::Mode02
        } else if sse13 != u32::MAX && r.1 == sse13 {
            RgbCandidate::Mode13
        } else {
            RgbCandidate::Mode6
        }),
        rgb_candidate_sse(r.0, sse6, sse02, sse13, sse45) == r.1,
{
    let mut best = sse6;
    if sse02 < best {
        best = sse02;
    }
    if sse13 < best {
        best = sse13;
    }
    if sse45 < best {
        best = sse45;
    }
    let c = if sse45 != u32::MAX && best == sse45 {
        RgbCandidate::Mode45
    } else if sse02 != u32::MAX && best == sse02 {
        RgbCandidate::Mode02
    } else if sse13 != u32::MAX && best == sse13 {
        RgbCandidate::Mode13
    } else {
        RgbCandidate::Mode6
    };
    (c, best)
}

/// The error of each alpha candidate.
pub open spec fn rgba_candidate_sse(c: RgbaCandidate, sse6: u32, sse45: u32, sse7: u32) -> u32 {
    match c {
        RgbaCandidate::Mode45 => sse45,
        RgbaCandidate::Mode7 => sse7,
        RgbaCandidate::Mode6 => sse6,
    }
}

/// Pick the block with alpha with the least error among the mode-6 block and
/// the candidates that were tried: on a tie the dual-plane candidate wins,
/// then mode 7, then mode 6. The picked block's error is the least.
pub fn pick_rgba_candidate(sse6: u32, sse45: u32, sse7: u32) -> (r: (RgbaCandidate, u32))
    ensures
        r.1 == min_sse(min_sse(sse6, sse45), sse7),
        r.0 == (if sse45 != u32::MAX && r.1 == sse45 {
            RgbaCandidate::Mode45
        } else if sse7 != u32::MAX && r.1 == sse7 {
            RgbaCandidate::Mode7
        } else {
            RgbaCandidate::Mode6
        }),
        rgba_candidate_sse(r.0, sse6, sse45, sse7) == r.1,
{
    let mut best = sse6;
    if sse45 < best {
        best = sse45;
    }
    if sse7 < best {
        best = sse7;
    }
    let c = if sse45 != u32::MAX && best == sse45 {
        RgbaCandidate::Mode45
    } else if sse7 != u32::MAX && best == sse7 {
        RgbaCandidate::Mode7
    } else {
        RgbaCandidate::Mode6
    };
    (c, best)
}

/// The block with channel `dp` and alpha exchanged in every texel, the form
/// the dual-plane modes encode a block in when `dp` is the channel that gets
/// its own index plane (nothing changes when `dp` is alpha itself).
pub fn swap_dual_plane_channel(pixels: &[Rgba; 16], dp: usize) -> (out: [Rgba; 16])
    requires
        dp < 4,
    ensures
        forall|i: int, c: int| 0 <= i < 16 && 0 <= c < 4 ==> #[trigger] out[i][c] == pixels[i][
            if c == dp as int { 3 } else if c == 3 { dp as int } else { c }
        ],
{
    let mut out = *pixels;
    if dp != 3 {
        let mut i: usize = 0;
        while i < 16
            invariant
                dp < 3,
                i <= 16,
                forall|k: int, c: int| 0 <= k < i && 0 <= c < 4 ==> #[trigger] out[k][c] == pixels[k][
                    if c == dp as int { 3 } else if c == 3 { dp as int } else { c }
                ],
                forall|k: int| i <= k < 16 ==> #[trigger] out[k] == pixels[k],
            decreases 16 - i,
        {
            let a = out[i][3];
            out[i][3] = out[i][dp];
            out[i][dp] = a;
            i = i + 1;
        }
    }
    out
}

/// The rank of two-subset pattern `p` against the desired split: its
/// distance (mismatching texels, either way round), ties going to the lower
/// index.
pub open spec fn mask_rank(desired: u32, masks: [u16; 64], p: int) -> nat {
    pattern_distance(desired, masks[p] as u32) * 256 + p as nat
}

/// The two-subset partition whose split is nearest the desired split of the
/// block (bit `i` of `desired` set for texel `i` on the positive side of the
/// principal axis) among the 64 pattern masks, the lower index winning a tie.
pub fn bc7_best_2subset_pattern(desired: u32, masks: &[u16; 64]) -> (best: u32)
    requires
        desired < 0x10000,
    ensures
        best < 64,
        forall|k: int| 0 <= k < 64 ==> mask_rank(desired, *masks, best as int) <= #[trigger] mask_rank(desired, *masks, k),
{
    let mut best_diff: u32 = 0xFFFF_FFFF;
    let mut p: usize = 0;
    proof {
        lemma2_to64();
    }
    while p < 64
        invariant
            p <= 64,
            desired < 0x10000,
            pow2(8) == 256,
            pow2(16) == 65536,
            p == 0 ==> best_diff == 0xFFFF_FFFF,
            p > 0 ==> exists|b: int| 0 <= b < p && best_diff == #[trigger] mask_rank(desired, *masks, b),
            forall|k: int| 0 <= k < p ==> best_diff <= #[trigger] mask_rank(desired, *masks, k),
        decreases 64 - p,
    {
        let pat_bits = masks[p] as u32;
        proof {
            lemma_xor16(pat_bits, desired);
        }
        let diff: i32 = popcount16((pat_bits ^ desired) as u64);
        let diff_inv: i32 = 16 - diff;
        let m: i32 = if diff < diff_inv { diff } else { diff_inv };
        proof {
            lemma_u32_or_shl(p as u32, m as u32, 8);
        }
        let min_diff = ((m as u32) << 8) | p as u32;
        assert(min_diff == mask_rank(desired, *masks, p as int));
        if min_diff < best_diff {
            best_diff = min_diff;
        }
        p = p + 1;
    }
    let ghost b = choose|b: int| 0 <= b < 64 && best_diff == mask_rank(desired, *masks, b);
    proof {
        lemma_u32_shr_mask(best_diff, 0, 8, 0xFF);
        vstd::bits::lemma_u32_shr_is_div(best_diff, 0);
        assert(nat_field(best_diff as nat, 0, 8) == b) by {
            vstd::arithmetic::div_mod::lemma_fundamental_div_mod_converse(
                best_diff as int, 256, pattern_distance(desired, masks[b] as u32) as int, b);
        }
    }
    best_diff & 0xFF
}

/// Whether texel `i` lies in subset `s` of the two-subset mask `mask`.
pub open spec fn in_subset(mask: u32, s: int, i: int) -> bool {
    nat_field(mask as nat, i as nat, 1) == s
}

/// How many of the first `n` texels lie in subset `s`.
pub open spec fn sub_count(mask: u32, s: int, n: nat) -> int
    decreases n,
{
    if n == 0 { 0 } else { sub_count(mask, s, (n - 1) as nat) + if in_subset(mask, s, n - 1) { 1int } else { 0 } }
}

/// The sum of channel `c` over the texels of subset `s` among the first `n`.
pub open spec fn sub_sum(px: [Rgba; 16], mask: u32, s: int, c: int, n: nat) -> int
    decreases n,
{
    if n == 0 { 0 } else { sub_sum(px, mask, s, c, (n - 1) as nat) + if in_subset(mask, s, n - 1) { px[n - 1][c] as int } else { 0 } }
}

/// The sum over the texels of subset `s` among the first `n` of (channel `a`
/// less `ma`) times (channel `b` less `mb`).
pub open spec fn sub_cross(px: [Rgba; 16], mask: u32, s: int, a: int, ma: int, b: int, mb: int, n: nat) -> int
    decreases n,
{
    if n == 0 {
        0
    } else {
        sub_cross(px, mask, s, a, ma, b, mb, (n - 1) as nat)
            + if in_subset(mask, s, n - 1) { (px[n - 1][a] - ma) * (px[n - 1][b] - mb) } else { 0 }
    }
}

/// The mean of `count` values summing to `total`, rounded to nearest.
pub open spec fn rounded_mean(total: int, count: int) -> int {
    (total + count / 2) / count
}

/// The statistics of each subset of a two-subset pattern: channel totals,
/// texel count, rounded channel means, and the ten distinct covariance
/// entries about the means in the order of `rgba_pair` (the R, G, B entries
/// an opaque block uses are 0, 1, 2, 4, 5 and 7).
pub struct SubsetStats {
    pub total: [[i32; 4]; 2],
    pub count: [i32; 2],
    pub mean: [[i32; 4]; 2],
    pub icov: [[i32; 10]; 2],
}

/// Whether `st` holds the statistics of the subsets of `mask` in `px`.
pub open spec fn subset_stats_of(px: [Rgba; 16], mask: u32, st: SubsetStats) -> bool {
    &&& forall|s: int| 0 <= s < 2 ==> #[trigger] st.count[s] == sub_count(mask, s, 16)
    &&& forall|s: int, c: int| 0 <= s < 2 && 0 <= c < 4 ==> {
        &&& #[trigger] st.total[s][c] == sub_sum(px, mask, s, c, 16)
        &&& st.mean[s][c] == rounded_mean(sub_sum(px, mask, s, c, 16), sub_count(mask, s, 16))
    }
    &&& forall|s: int, k: int| 0 <= s < 2 && 0 <= k < 10 ==> #[trigger] st.icov[s][k] == {
        let (a, b) = rgba_pair(k);
        sub_cross(px, mask, s, a, st.mean[s][a] as int, b, st.mean[s][b] as int, 16)
    }
}

proof fn lemma_sub_bounds(px: [Rgba; 16], mask: u32, s: int, c: int, n: nat)
    requires
        0 <= c < 4,
        n <= 16,
    ensures
        0 <= sub_count(mask, s, n) <= n,
        0 <= sub_sum(px, mask, s, c, n) <= 255 * sub_count(mask, s, n),
        (exists|i: int| 0 <= i < n && #[trigger] in_subset(mask, s, i)) ==> sub_count(mask, s, n) >= 1,
    decreases n,
{
    if n > 0 {
        lemma_sub_bounds(px, mask, s, c, (n - 1) as nat);
        if exists|i: int| 0 <= i < n && #[trigger] in_subset(mask, s, i) {
            if !in_subset(mask, s, n - 1) {
                let i = choose|i: int| 0 <= i < n && #[trigger] in_subset(mask, s, i);
                assert(i < n - 1);
            }
        }
    }
}

/// Whether texel `i` is in subset `s`, read from the mask's bit.
fn subset_bit(mask: u32, i: usize) -> (r: u32)
    requires
        i < 16,
    ensures
        r < 2,
        in_subset(mask, r as int, i as int),
        forall|s: int| #[trigger] in_subset(mask, s, i as int) ==> s == r,
{
    proof {
        lemma2_to64();
        lemma_u32_shr_mask(mask, i as u32, 1, 1);
    }
    (mask >> i as u32) & 1
}

/// Channel `c`'s total and the texel count of subset `s`.
fn subset_total(pixels: &[Rgba; 16], mask: u32, s: u32, c: usize) -> (r: (i32, i32))
    requires
        s < 2,
        c < 4,
    ensures
        r.0 == sub_sum(*pixels, mask, s as int, c as int, 16),
        r.1 == sub_count(mask, s as int, 16),
{
    let mut total: i32 = 0;
    let mut count: i32 = 0;
    let mut i: usize = 0;
    while i < 16
        invariant
            s < 2,
            c < 4,
            i <= 16,
            total == sub_sum(*pixels, mask, s as int, c as int, i as nat),
            count == sub_count(mask, s as int, i as nat),
        decreases 16 - i,
    {
        proof {
            lemma_sub_bounds(*pixels, mask, s as int, c as int, i as nat);
        }
        if subset_bit(mask, i) == s {
            total = total + pixels[i][c] as i32;
            count = count + 1;
        }
        i = i + 1;
    }
    (total, count)
}

/// The cross sum of channels `a` and `b` about `ma`, `mb` over subset `s`.
fn subset_cross(pixels: &[Rgba; 16], mask: u32, s: u32, a: usize, ma: i32, b: usize, mb: i32) -> (r: i32)
    requires
        s < 2,
        a < 4,
        b < 4,
        0 <= ma <= 255,
        0 <= mb <= 255,
    ensures
        r == sub_cross(*pixels, mask, s as int, a as int, ma as int, b as int, mb as int, 16),
{
    let mut acc: i32 = 0;
    let mut i: usize = 0;
    while i < 16
        invariant
            s < 2,
            a < 4,
            b < 4,
            0 <= ma <= 255,
            0 <= mb <= 255,
            i <= 16,
            acc == sub_cross(*pixels, mask, s as int, a as int, ma as int, b as int, mb as int, i as nat),
            -(i * 65025) <= acc <= i * 65025,
        decreases 16 - i,
    {
        if subset_bit(mask, i) == s {
            let x: i32 = pixels[i][a] as i32 - ma;
            let y: i32 = pixels[i][b] as i32 - mb;
            proof {
                lemma_centred_product(x as int, y as int);
            }
            acc = acc + x * y;
        }
        i = i + 1;
    }
    acc
}

proof fn lemma_rounded_mean_bound(total: int, count: int)
    requires
        1 <= count <= 16,
        0 <= total <= 255 * count,
    ensures
        0 <= rounded_mean(total, count) <= 255,
{
    assert(0 <= (total + count / 2) / count <= 255) by (nonlinear_arith)
        requires
            1 <= count <= 16,
            0 <= total <= 255 * count,
            0 <= count / 2 < count,
    ;
}

/// The statistics of both subsets of the two-subset pattern `mask` (bit `i`
/// set for texel `i` in subset 1): each subset's channel totals and count,
/// its means rounded to nearest, and its covariance about them. Both subsets
/// hold a texel, as every partition pattern's do.
pub fn subset_stats(pixels: &[Rgba; 16], mask: u32) -> (st: SubsetStats)
    requires
        exists|i: int| 0 <= i < 16 && #[trigger] in_subset(mask, 0, i),
        exists|i: int| 0 <= i < 16 && #[trigger] in_subset(mask, 1, i),
    ensures
        subset_stats_of(*pixels, mask, st),
{
    let mut st = SubsetStats { total: [[0; 4]; 2], count: [0; 2], mean: [[0; 4]; 2], icov: [[0; 10]; 2] };
    let mut s: u32 = 0;
    while s < 2
        invariant
            s <= 2,
            exists|i: int| 0 <= i < 16 && #[trigger] in_subset(mask, 0, i),
            exists|i: int| 0 <= i < 16 && #[trigger] in_subset(mask, 1, i),
            forall|t: int| 0 <= t < s ==> #[trigger] st.count[t] == sub_count(mask, t, 16),
            forall|t: int, c: int| 0 <= t < s && 0 <= c < 4 ==> {
                &&& #[trigger] st.total[t][c] == sub_sum(*pixels, mask, t, c, 16)
                &&& st.mean[t][c] == rounded_mean(sub_sum(*pixels, mask, t, c, 16), sub_count(mask, t, 16))
            },
            forall|t: int, k: int| 0 <= t < s && 0 <= k < 10 ==> #[trigger] st.icov[t][k] == {
                let (a, b) = rgba_pair(k);
                sub_cross(*pixels, mask, t, a, st.mean[t][a] as int, b, st.mean[t][b] as int, 16)
            },
        decreases 2 - s,
    {
        let mut tot: [i32; 4] = [0; 4];
        let mut mean: [i32; 4] = [0; 4];
        let mut count: i32 = 0;
        let mut c: usize = 0;
        while c < 4
            invariant
                s < 2,
                c <= 4,
                exists|i: int| 0 <= i < 16 && #[trigger] in_subset(mask, 0, i),
                exists|i: int| 0 <= i < 16 && #[trigger] in_subset(mask, 1, i),
                c > 0 ==> count == sub_count(mask, s as int, 16),
                forall|d: int| 0 <= d < c ==> {
                    &&& #[trigger] tot[d] == sub_sum(*pixels, mask, s as int, d, 16)
                    &&& mean[d] == rounded_mean(sub_sum(*pixels, mask, s as int, d, 16), sub_count(mask, s as int, 16))
                    &&& 0 <= mean[d] <= 255
                },
            decreases 4 - c,
        {
            let (t, n) = subset_total(pixels, mask, s, c);
            proof {
                lemma_sub_bounds(*pixels, mask, s as int, c as int, 16);
                lemma_rounded_mean_bound(t as int, n as int);
            }
            tot[c] = t;
            count = n;
            let h = n >> 1;
            proof {
                assert(h == n / 2) by (bit_vector)
                    requires h == n >> 1, n >= 0;
            }
            mean[c] = (t + h) / n;
            c = c + 1;
        }
        assert forall|d: int| 0 <= d < 4 implies 0 <= #[trigger] mean[d] <= 255 by {
            assert(tot[d] == sub_sum(*pixels, mask, s as int, d, 16));
        }
        let mut icov: [i32; 10] = [0; 10];
        let mut k: usize = 0;
        while k < 10
            invariant
                s < 2,
                k <= 10,
                forall|d: int| 0 <= d < 4 ==> 0 <= #[trigger] mean[d] <= 255,
                forall|j: int| 0 <= j < k ==> #[trigger] icov[j] == {
                    let (a, b) = rgba_pair(j);
                    sub_cross(*pixels, mask, s as int, a, mean[a] as int, b, mean[b] as int, 16)
                },
            decreases 10 - k,
        {
            let (a, b): (usize, usize) = if k == 0 { (0, 0) } else if k == 1 { (0, 1) } else if k == 2 { (0, 2) }
                else if k == 3 { (0, 3) } else if k == 4 { (1, 1) } else if k == 5 { (1, 2) } else if k == 6 { (1, 3) }
                else if k == 7 { (2, 2) } else if k == 8 { (2, 3) } else { (3, 3) };
            assert(rgba_pair(k as int) == (a as int, b as int));
            icov[k] = subset_cross(pixels, mask, s, a, mean[a], b, mean[b]);
            k = k + 1;
        }
        st.total[s as usize] = tot;
        st.count[s as usize] = count;
        st.mean[s as usize] = mean;
        st.icov[s as usize] = icov;
        proof {
            assert forall|t: int, c: int| 0 <= t < s + 1 && 0 <= c < 4 implies {
                &&& #[trigger] st.total[t][c] == sub_sum(*pixels, mask, t, c, 16)
                &&& st.mean[t][c] == rounded_mean(sub_sum(*pixels, mask, t, c, 16), sub_count(mask, t, 16))
            } by {
                if t == s as int {
                    assert(tot[c] == sub_sum(*pixels, mask, s as int, c, 16));
                }
            }
            assert forall|t: int, kk: int| 0 <= t < s + 1 && 0 <= kk < 10 implies #[trigger] st.icov[t][kk] == {
                let (a, b) = rgba_pair(kk);
                sub_cross(*pixels, mask, t, a, st.mean[t][a] as int, b, st.mean[t][b] as int, 16)
            } by {
                if t == s as int {
                    assert(icov[kk] == {
                        let (a, b) = rgba_pair(kk);
                        sub_cross(*pixels, mask, s as int, a, mean[a] as int, b, mean[b] as int, 16)
                    });
                }
            }
        }
        s = s + 1;
    }
    st
}

} // verus!
