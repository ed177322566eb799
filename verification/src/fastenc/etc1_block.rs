//! The integer stages of packing one 4x4 block as ETC1: the solid-block test,
//! the per-half luma and chroma sums that the flip heuristic reads, the
//! per-subblock statistics, the flat-subblock shortcut, the base colors and
//! control byte, and the per-texel selector choice. Between them the caller
//! makes the two floating-point choices: the flip and each subblock's
//! intensity table.

use vstd::prelude::*;
use crate::color::{inten, selector_index_to_etc1};
use crate::fastenc::etc1f::{
    Rgba, Etc1Tables, corr_round_555, corr_round_444, is_corr_rounding, get_block_colors,
    get_block_colors_y, etc1_color, etc1_luma, get_709_luma, is_nearest_code,
};

verus! {

/// Whether texel `i` lies in half `s` of the block: 0 left, 1 right, 2 top,
/// 3 bottom. Subblock `sb` of flip `f` is half `2 * f + sb`.
pub open spec fn in_half(s: int, i: int) -> bool {
    if s == 0 {
        i % 4 < 2
    } else if s == 1 {
        i % 4 >= 2
    } else if s == 2 {
        i < 8
    } else {
        i >= 8
    }
}

/// The rounded mean of a texel's red, green and blue.
pub open spec fn texel_y(p: Rgba) -> int {
    (p[0] + p[1] + p[2] + 1) / 3
}

/// A texel's chroma energy: the squares of red minus green and blue minus
/// green.
pub open spec fn texel_c2(p: Rgba) -> int {
    (p[0] - p[1]) * (p[0] - p[1]) + (p[2] - p[1]) * (p[2] - p[1])
}

/// Statistic `k` of a texel: 0 luma, 1 luma squared, 2 chroma energy, 3..6
/// red, green, blue.
pub open spec fn texel_stat(p: Rgba, k: int) -> int {
    if k == 0 {
        texel_y(p)
    } else if k == 1 {
        texel_y(p) * texel_y(p)
    } else if k == 2 {
        texel_c2(p)
    } else if k == 3 {
        p[0] as int
    } else if k == 4 {
        p[1] as int
    } else {
        p[2] as int
    }
}

/// Sum of statistic `k` over the first `n` texels that lie in half `s`.
pub open spec fn half_sum(px: Seq<Rgba>, s: int, k: int, n: int) -> int
    decreases n,
{
    if n <= 0 {
        0
    } else {
        half_sum(px, s, k, n - 1) + if in_half(s, n - 1) { texel_stat(px[n - 1], k) } else { 0 }
    }
}

/// Sum of statistic `k` over the first `n` texels.
pub open spec fn all_sum(px: Seq<Rgba>, k: int, n: int) -> int
    decreases n,
{
    if n <= 0 { 0 } else { all_sum(px, k, n - 1) + texel_stat(px[n - 1], k) }
}

/// Largest chroma energy of the first `n` texels (0 for none).
pub open spec fn max_c2(px: Seq<Rgba>, n: int) -> int
    decreases n,
{
    if n <= 0 {
        0
    } else {
        let m = max_c2(px, n - 1);
        let c = texel_c2(px[n - 1]);
        if c > m { c } else { m }
    }
}

/// Whether every texel has the red, green and blue of texel 0.
pub open spec fn is_solid_rgb(px: Seq<Rgba>) -> bool {
    forall|i: int| #![trigger px[i]] 0 <= i < 16 ==> px[i][0] == px[0][0] && px[i][1] == px[0][1] && px[i][2] == px[0][2]
}

/// Whether all sixteen texels share one RGB color (alpha ignored).
pub fn etc1_is_solid(pixels: &[Rgba; 16]) -> (r: bool)
    ensures
        r == is_solid_rgb(pixels@),
{
    let mut i: usize = 1;
    while i < 16
        invariant
            1 <= i <= 16,
            forall|j: int| #![trigger pixels[j]] 0 <= j < i ==> pixels[j][0] == pixels[0][0] && pixels[j][1] == pixels[0][1] && pixels[j][2] == pixels[0][2],
        decreases 16 - i,
    {
        if pixels[i][0] != pixels[0][0] || pixels[i][1] != pixels[0][1] || pixels[i][2] != pixels[0][2] {
            return false;
        }
        i = i + 1;
    }
    true
}

/// The luma and chroma sums of the four halves that the flip choice reads.
pub struct Etc1HalfSums {
    /// Luma sum per half (left, right, top, bottom).
    pub accum_y: [i32; 4],
    /// Squared-luma sum per half.
    pub accum_y2: [i32; 4],
    /// Chroma-energy sum per half.
    pub accum_c2: [i32; 4],
    /// Chroma energy of the whole block.
    pub total_c2: i32,
    /// Largest chroma energy of one texel.
    pub max_c2: i32,
}

/// Bounds of one texel's statistics.
proof fn lemma_texel_stat_bounds(p: Rgba)
    ensures
        0 <= texel_y(p) <= 255,
        0 <= texel_y(p) * texel_y(p) <= 65025,
        0 <= texel_c2(p) <= 130050,
{
    let y = texel_y(p);
    assert(0 <= y * y <= 65025) by (nonlinear_arith)
        requires
            0 <= y <= 255,
    ;
    let a = p[0] - p[1];
    let b = p[2] - p[1];
    assert(0 <= a * a + b * b <= 130050) by (nonlinear_arith)
        requires
            -255 <= a <= 255,
            -255 <= b <= 255,
    ;
}

/// Sums over a prefix grow by at most the per-texel bound each step.
proof fn lemma_sums_bounded(px: Seq<Rgba>, n: int)
    requires
        px.len() == 16,
        0 <= n <= 16,
    ensures
        forall|s: int| 0 <= #[trigger] half_sum(px, s, 0, n) <= 255 * n,
        forall|s: int| 0 <= #[trigger] half_sum(px, s, 1, n) <= 65025 * n,
        forall|s: int| 0 <= #[trigger] half_sum(px, s, 2, n) <= 130050 * n,
        0 <= all_sum(px, 2, n) <= 130050 * n,
        0 <= max_c2(px, n) <= 130050,
    decreases n,
{
    if n > 0 {
        lemma_sums_bounded(px, n - 1);
        lemma_texel_stat_bounds(px[n - 1]);
        assert forall|s: int| 0 <= #[trigger] half_sum(px, s, 0, n) <= 255 * n by {
            assert(half_sum(px, s, 0, n - 1) <= 255 * (n - 1));
        }
        assert forall|s: int| 0 <= #[trigger] half_sum(px, s, 1, n) <= 65025 * n by {
            assert(half_sum(px, s, 1, n - 1) <= 65025 * (n - 1));
        }
        assert forall|s: int| 0 <= #[trigger] half_sum(px, s, 2, n) <= 130050 * n by {
            assert(half_sum(px, s, 2, n - 1) <= 130050 * (n - 1));
        }
    }
}

/// The luma and chroma sums of the four halves, the block's chroma energy and
/// its largest texel chroma energy.
pub fn etc1_half_sums(pixels: &[Rgba; 16]) -> (a: Etc1HalfSums)
    ensures
        forall|s: int| 0 <= s < 4 ==> #[trigger] a.accum_y[s] == half_sum(pixels@, s, 0, 16),
        forall|s: int| 0 <= s < 4 ==> #[trigger] a.accum_y2[s] == half_sum(pixels@, s, 1, 16),
        forall|s: int| 0 <= s < 4 ==> #[trigger] a.accum_c2[s] == half_sum(pixels@, s, 2, 16),
        a.total_c2 == all_sum(pixels@, 2, 16),
        a.max_c2 == max_c2(pixels@, 16),
{
    let mut accum_y = [0i32; 4];
    let mut accum_y2 = [0i32; 4];
    let mut accum_c2 = [0i32; 4];
    let mut total_c2 = 0i32;
    let mut max_c2_v = 0i32;
    let mut i: usize = 0;
    while i < 16
        invariant
            i <= 16,
            forall|s: int| 0 <= s < 4 ==> #[trigger] accum_y[s] == half_sum(pixels@, s, 0, i as int),
            forall|s: int| 0 <= s < 4 ==> #[trigger] accum_y2[s] == half_sum(pixels@, s, 1, i as int),
            forall|s: int| 0 <= s < 4 ==> #[trigger] accum_c2[s] == half_sum(pixels@, s, 2, i as int),
            total_c2 == all_sum(pixels@, 2, i as int),
            max_c2_v == max_c2(pixels@, i as int),
        decreases 16 - i,
    {
        proof {
            lemma_sums_bounded(pixels@, i as int);
            lemma_texel_stat_bounds(pixels[i as int]);
        }
        let r = pixels[i][0] as i32;
        let g = pixels[i][1] as i32;
        let b = pixels[i][2] as i32;
        let rg = r - g;
        let bg = b - g;
        let y = (r + g + b + 1) / 3;
        let y2 = y * y;
        proof {
            assert(rg * rg <= 65025 && bg * bg <= 65025 && rg * rg >= 0 && bg * bg >= 0) by (nonlinear_arith)
                requires
                    -255 <= rg <= 255,
                    -255 <= bg <= 255,
            ;
            assert(y * y <= 65025) by (nonlinear_arith)
                requires
                    0 <= y <= 255,
            ;
        }
        let c2 = rg * rg + bg * bg;
        assert(y == texel_y(pixels[i as int]) && c2 == texel_c2(pixels[i as int]));
        total_c2 = total_c2 + c2;
        max_c2_v = if c2 > max_c2_v { c2 } else { max_c2_v };
        let v = if i % 4 < 2 { 0usize } else { 1usize };
        let h = if i < 8 { 2usize } else { 3usize };
        accum_y[v] = accum_y[v] + y;
        accum_y2[v] = accum_y2[v] + y2;
        accum_c2[v] = accum_c2[v] + c2;
        accum_y[h] = accum_y[h] + y;
        accum_y2[h] = accum_y2[h] + y2;
        accum_c2[h] = accum_c2[h] + c2;
        i = i + 1;
    }
    Etc1HalfSums { accum_y, accum_y2, accum_c2, total_c2, max_c2: max_c2_v }
}

/// A block this low in chroma is packed as grayscale.
pub fn etc1_low_chroma(a: &Etc1HalfSums) -> (r: bool)
    ensures
        r == (a.total_c2 < 300 && a.max_c2 < 32),
{
    a.total_c2 < 300 && a.max_c2 < 32
}

/// The gray levels of a low-chroma block: red itself when no texel has any
/// chroma, else the BT.709 luma.
pub fn etc1_gray_pixels(pixels: &[Rgba; 16], total_c2: i32) -> (y: [u8; 16])
    ensures
        forall|i: int| 0 <= i < 16 ==> #[trigger] y[i] as int == (if total_c2 == 0 {
            pixels[i][0] as int
        } else {
            (13938 * pixels[i][0] + 46869 * pixels[i][1] + 4729 * pixels[i][2] + 32768) / 65536
        }),
{
    let mut y = [0u8; 16];
    let mut i: usize = 0;
    while i < 16
        invariant
            i <= 16,
            forall|k: int| 0 <= k < i ==> #[trigger] y[k] as int == (if total_c2 == 0 {
                pixels[k][0] as int
            } else {
                (13938 * pixels[k][0] + 46869 * pixels[k][1] + 4729 * pixels[k][2] + 32768) / 65536
            }),
        decreases 16 - i,
    {
        y[i] = if total_c2 == 0 { pixels[i][0] } else { get_709_luma(pixels[i]) as u8 };
        i = i + 1;
    }
    y
}

/// Smallest luma of the first `n` texels of half `s` (`i32::MAX` for none).
pub open spec fn half_min_y(px: Seq<Rgba>, s: int, n: int) -> int
    decreases n,
{
    if n <= 0 {
        i32::MAX as int
    } else {
        let m = half_min_y(px, s, n - 1);
        if in_half(s, n - 1) && texel_y(px[n - 1]) < m { texel_y(px[n - 1]) } else { m }
    }
}

/// Largest luma of the first `n` texels of half `s` (`i32::MIN` for none).
pub open spec fn half_max_y(px: Seq<Rgba>, s: int, n: int) -> int
    decreases n,
{
    if n <= 0 {
        i32::MIN as int
    } else {
        let m = half_max_y(px, s, n - 1);
        if in_half(s, n - 1) && texel_y(px[n - 1]) > m { texel_y(px[n - 1]) } else { m }
    }
}

/// The per-subblock sums and luma range of a block split at flip `flip`.
pub struct Etc1SubsetStats {
    /// Squared-luma sum per subblock.
    pub var8_y: [i32; 2],
    /// Luma sum per subblock.
    pub mean8_y: [i32; 2],
    /// Red sum per subblock.
    pub mean8_r: [i32; 2],
    /// Green sum per subblock.
    pub mean8_g: [i32; 2],
    /// Blue sum per subblock.
    pub mean8_b: [i32; 2],
    /// Smallest luma per subblock.
    pub min_y: [i32; 2],
    /// Largest luma per subblock.
    pub max_y: [i32; 2],
}

/// What `etc1_subset_stats` computes for subblock `sb` of flip `flip`.
pub open spec fn subset_stats_ok(st: Etc1SubsetStats, px: Seq<Rgba>, flip: int, sb: int) -> bool {
    let h = 2 * flip + sb;
    &&& st.var8_y[sb] == half_sum(px, h, 1, 16)
    &&& st.mean8_y[sb] == half_sum(px, h, 0, 16)
    &&& st.mean8_r[sb] == half_sum(px, h, 3, 16)
    &&& st.mean8_g[sb] == half_sum(px, h, 4, 16)
    &&& st.mean8_b[sb] == half_sum(px, h, 5, 16)
    &&& st.min_y[sb] == half_min_y(px, h, 16)
    &&& st.max_y[sb] == half_max_y(px, h, 16)
}

/// Channel sums over a prefix are bounded.
proof fn lemma_channel_sums_bounded(px: Seq<Rgba>, n: int)
    requires
        px.len() == 16,
        0 <= n <= 16,
    ensures
        forall|s: int, k: int| 3 <= k <= 5 ==> 0 <= #[trigger] half_sum(px, s, k, n) <= 255 * n,
    decreases n,
{
    if n > 0 {
        lemma_channel_sums_bounded(px, n - 1);
        assert forall|s: int, k: int| 3 <= k <= 5 implies 0 <= #[trigger] half_sum(px, s, k, n) <= 255 * n by {
            assert(half_sum(px, s, k, n - 1) <= 255 * (n - 1));
        }
    }
}

/// The per-subblock sums and luma ranges of a block split at flip `flip`.
pub fn etc1_subset_stats(pixels: &[Rgba; 16], flip: u32) -> (st: Etc1SubsetStats)
    requires
        flip < 2,
    ensures
        subset_stats_ok(st, pixels@, flip as int, 0),
        subset_stats_ok(st, pixels@, flip as int, 1),
{
    let mut var8_y = [0i32; 2];
    let mut mean8_y = [0i32; 2];
    let mut mean8_r = [0i32; 2];
    let mut mean8_g = [0i32; 2];
    let mut mean8_b = [0i32; 2];
    let mut min_y = [i32::MAX; 2];
    let mut max_y = [i32::MIN; 2];
    let mut i: usize = 0;
    while i < 16
        invariant
            i <= 16,
            flip < 2,
            forall|sb: int| 0 <= sb < 2 ==> #[trigger] var8_y[sb] == half_sum(pixels@, 2 * flip + sb, 1, i as int),
            forall|sb: int| 0 <= sb < 2 ==> #[trigger] mean8_y[sb] == half_sum(pixels@, 2 * flip + sb, 0, i as int),
            forall|sb: int| 0 <= sb < 2 ==> #[trigger] mean8_r[sb] == half_sum(pixels@, 2 * flip + sb, 3, i as int),
            forall|sb: int| 0 <= sb < 2 ==> #[trigger] mean8_g[sb] == half_sum(pixels@, 2 * flip + sb, 4, i as int),
            forall|sb: int| 0 <= sb < 2 ==> #[trigger] mean8_b[sb] == half_sum(pixels@, 2 * flip + sb, 5, i as int),
            forall|sb: int| 0 <= sb < 2 ==> #[trigger] min_y[sb] == half_min_y(pixels@, 2 * flip + sb, i as int),
            forall|sb: int| 0 <= sb < 2 ==> #[trigger] max_y[sb] == half_max_y(pixels@, 2 * flip + sb, i as int),
        decreases 16 - i,
    {
        proof {
            lemma_sums_bounded(pixels@, i as int);
            lemma_channel_sums_bounded(pixels@, i as int);
            lemma_texel_stat_bounds(pixels[i as int]);
        }
        let r = pixels[i][0] as i32;
        let g = pixels[i][1] as i32;
        let b = pixels[i][2] as i32;
        let y = (r + g + b + 1) / 3;
        proof {
            assert(y * y <= 65025) by (nonlinear_arith)
                requires
                    0 <= y <= 255,
            ;
        }
        let s = if flip == 0 {
            if i % 4 < 2 { 0usize } else { 1usize }
        } else {
            if i < 8 { 0usize } else { 1usize }
        };
        assert(in_half(2 * flip + s, i as int));
        assert(!in_half(2 * flip + (1 - s), i as int));
        var8_y[s] = var8_y[s] + y * y;
        mean8_y[s] = mean8_y[s] + y;
        mean8_r[s] = mean8_r[s] + r;
        mean8_g[s] = mean8_g[s] + g;
        mean8_b[s] = mean8_b[s] + b;
        min_y[s] = if y < min_y[s] { y } else { min_y[s] };
        max_y[s] = if y > max_y[s] { y } else { max_y[s] };
        i = i + 1;
    }
    Etc1SubsetStats { var8_y, mean8_y, mean8_r, mean8_g, mean8_b, min_y, max_y }
}

/// Number of the first `n` texels in half `s`.
pub open spec fn half_count(s: int, n: int) -> int
    decreases n,
{
    if n <= 0 { 0 } else { half_count(s, n - 1) + if in_half(s, n - 1) { 1int } else { 0 } }
}

/// Each half holds eight texels, so its channel and luma sums are at most
/// eight bytes' worth, and its luma range is a byte range.
proof fn lemma_half_bounds(px: Seq<Rgba>, s: int, n: int)
    requires
        px.len() == 16,
        0 <= n <= 16,
        0 <= s < 4,
    ensures
        forall|k: int| (k == 0 || 3 <= k <= 5) ==> 0 <= #[trigger] half_sum(px, s, k, n) <= 255 * half_count(s, n),
        0 <= half_sum(px, s, 1, n) <= 65025 * half_count(s, n),
        half_count(s, n) == 0 ==> half_min_y(px, s, n) == i32::MAX && half_max_y(px, s, n) == i32::MIN,
        half_count(s, n) > 0 ==> 0 <= half_min_y(px, s, n) <= half_max_y(px, s, n) <= 255,
    decreases n,
{
    if n > 0 {
        lemma_half_bounds(px, s, n - 1);
        lemma_texel_stat_bounds(px[n - 1]);
        let c = half_count(s, n - 1);
        let y = texel_y(px[n - 1]);
        let lo = half_min_y(px, s, n - 1);
        let hi = half_max_y(px, s, n - 1);
        assert forall|k: int| (k == 0 || 3 <= k <= 5) implies 0 <= #[trigger] half_sum(px, s, k, n) <= 255 * half_count(s, n) by {
            assert(half_sum(px, s, k, n - 1) <= 255 * c);
        }
    }
}

/// Every half holds eight texels.
proof fn lemma_half_count(s: int)
    requires
        0 <= s < 4,
    ensures
        half_count(s, 16) == 8,
{
    reveal_with_fuel(half_count, 17);
}

/// A byte sum over a subblock's eight texels, rounded to its mean.
pub open spec fn mean_of8(sum: int) -> int {
    (sum + 4) / 8
}

/// The integer facts about each subblock of a block split at flip `flip` that
/// the rest of the packer reads.
pub struct Etc1Subsets {
    flat: bool,
    flat_means: [[u8; 4]; 2],
    var8_y: [i32; 2],
    mean_r: [i32; 2],
    mean_g: [i32; 2],
    mean_b: [i32; 2],
    half_span: [i32; 2],
}

impl Etc1Subsets {
    /// Whether both subblocks span less than 8 luma levels.
    pub closed spec fn spec_flat(&self) -> bool {
        self.flat
    }

    /// The rounded mean color of each subblock, alpha 255.
    pub closed spec fn spec_flat_means(&self) -> [[u8; 4]; 2] {
        self.flat_means
    }

    /// Eight times each subblock's luma variance times eight (never negative).
    pub closed spec fn spec_var8_y(&self) -> [i32; 2] {
        self.var8_y
    }

    /// How far each subblock's luma reaches from its rounded mean luma.
    pub closed spec fn spec_half_span(&self) -> [i32; 2] {
        self.half_span
    }

    /// The rounded mean red, green and blue of subblock `sb`.
    pub closed spec fn spec_mean(&self, sb: int) -> (int, int, int) {
        (self.mean_r[sb] as int, self.mean_g[sb] as int, self.mean_b[sb] as int)
    }

    /// The rounded means are bytes.
    pub closed spec fn wf(&self) -> bool {
        forall|sb: int| 0 <= sb < 2 ==> 0 <= #[trigger] self.mean_r[sb] <= 255 && 0 <= self.mean_g[sb] <= 255 && 0 <= self.mean_b[sb] <= 255
    }

    /// Whether both subblocks span less than 8 luma levels, so each is packed
    /// flat at its mean color.
    pub fn is_flat(&self) -> (r: bool)
        ensures
            r == self.spec_flat(),
    {
        self.flat
    }

    /// The rounded mean color of each subblock, alpha 255.
    pub fn flat_means(&self) -> (r: [[u8; 4]; 2])
        ensures
            r == self.spec_flat_means(),
    {
        self.flat_means
    }

    /// Eight times each subblock's luma sum of squares, less its luma sum
    /// squared, floored at 0: 64 times the luma variance.
    pub fn var8_y(&self) -> (r: [i32; 2])
        ensures
            r == self.spec_var8_y(),
    {
        self.var8_y
    }

    /// How far each subblock's luma reaches from its rounded mean luma.
    pub fn half_span(&self) -> (r: [i32; 2])
        ensures
            r == self.spec_half_span(),
    {
        self.half_span
    }
}

/// The per-subblock facts of `pixels` split at flip `flip`.
pub open spec fn subsets_ok(s: Etc1Subsets, px: Seq<Rgba>, flip: int) -> bool {
    &&& s.wf()
    &&& s.spec_flat() == (forall|sb: int| 0 <= sb < 2 ==> #[trigger] half_max_y(px, 2 * flip + sb, 16) - half_min_y(px, 2 * flip + sb, 16) < 8)
    &&& forall|sb: int, c: int| 0 <= sb < 2 && 0 <= c < 3 ==> #[trigger] s.spec_flat_means()[sb][c] as int == mean_of8(half_sum(px, 2 * flip + sb, 3 + c, 16))
    &&& forall|sb: int| 0 <= sb < 2 ==> #[trigger] s.spec_flat_means()[sb][3] == 255
    &&& forall|sb: int| 0 <= sb < 2 ==> #[trigger] s.spec_mean(sb) == (
        mean_of8(half_sum(px, 2 * flip + sb, 3, 16)),
        mean_of8(half_sum(px, 2 * flip + sb, 4, 16)),
        mean_of8(half_sum(px, 2 * flip + sb, 5, 16)),
    )
    &&& forall|sb: int| 0 <= sb < 2 ==> {
        let h = 2 * flip + sb;
        let v = 8 * half_sum(px, h, 1, 16) - half_sum(px, h, 0, 16) * half_sum(px, h, 0, 16);
        #[trigger] s.spec_var8_y()[sb] == (if v > 0 { v } else { 0 })
    }
    &&& forall|sb: int| 0 <= sb < 2 ==> {
        let h = 2 * flip + sb;
        let m = mean_of8(half_sum(px, h, 0, 16));
        let up = half_max_y(px, h, 16) - m;
        let down = m - half_min_y(px, h, 16);
        #[trigger] s.spec_half_span()[sb] == (if up > down { up } else { down })
    }
}

/// The per-subblock facts of a block split at flip `flip`: whether both
/// subblocks are flat and their mean colors, the luma variance, the rounded
/// means and the luma half span of each.
pub fn etc1_subsets(pixels: &[Rgba; 16], flip: u32) -> (s: Etc1Subsets)
    requires
        flip < 2,
    ensures
        subsets_ok(s, pixels@, flip as int),
{
    let st = etc1_subset_stats(pixels, flip);
    proof {
        lemma_half_bounds(pixels@, 2 * flip as int, 16);
        lemma_half_bounds(pixels@, 2 * flip + 1, 16);
        lemma_half_count(2 * flip as int);
        lemma_half_count(2 * flip + 1);
    }
    let flat = st.max_y[0] - st.min_y[0] < 8 && st.max_y[1] - st.min_y[1] < 8;
    let flat_means = [
        [
            ((st.mean8_r[0] + 4) / 8) as u8,
            ((st.mean8_g[0] + 4) / 8) as u8,
            ((st.mean8_b[0] + 4) / 8) as u8,
            255,
        ],
        [
            ((st.mean8_r[1] + 4) / 8) as u8,
            ((st.mean8_g[1] + 4) / 8) as u8,
            ((st.mean8_b[1] + 4) / 8) as u8,
            255,
        ],
    ];
    let mut var8_y = [0i32; 2];
    let mut mean_y = [0i32; 2];
    let mut mean_r = [0i32; 2];
    let mut mean_g = [0i32; 2];
    let mut mean_b = [0i32; 2];
    let mut half_span = [0i32; 2];
    let mut i: usize = 0;
    while i < 2
        invariant
            i <= 2,
            flip < 2,
            subset_stats_ok(st, pixels@, flip as int, 0),
            subset_stats_ok(st, pixels@, flip as int, 1),
            forall|sb: int| 0 <= sb < 2 ==> 0 <= #[trigger] st.mean8_y[sb] <= 2040 && 0 <= st.mean8_r[sb] <= 2040 && 0 <= st.mean8_g[sb] <= 2040 && 0 <= st.mean8_b[sb] <= 2040,
            forall|sb: int| 0 <= sb < 2 ==> 0 <= #[trigger] st.var8_y[sb] <= 520200,
            forall|sb: int| 0 <= sb < 2 ==> 0 <= #[trigger] st.min_y[sb] <= 255 && 0 <= st.max_y[sb] <= 255,
            forall|sb: int| 0 <= sb < i ==> #[trigger] var8_y[sb] == (if 8 * st.var8_y[sb] - st.mean8_y[sb] * st.mean8_y[sb] > 0 { 8 * st.var8_y[sb] - st.mean8_y[sb] * st.mean8_y[sb] } else { 0 }),
            forall|sb: int| 0 <= sb < i ==> #[trigger] mean_y[sb] == mean_of8(st.mean8_y[sb] as int),
            forall|sb: int| 0 <= sb < i ==> #[trigger] mean_r[sb] == mean_of8(st.mean8_r[sb] as int),
            forall|sb: int| 0 <= sb < i ==> #[trigger] mean_g[sb] == mean_of8(st.mean8_g[sb] as int),
            forall|sb: int| 0 <= sb < i ==> #[trigger] mean_b[sb] == mean_of8(st.mean8_b[sb] as int),
            forall|sb: int| 0 <= sb < i ==> 0 <= #[trigger] mean_r[sb] <= 255,
            forall|sb: int| 0 <= sb < i ==> 0 <= #[trigger] mean_g[sb] <= 255,
            forall|sb: int| 0 <= sb < i ==> 0 <= #[trigger] mean_b[sb] <= 255,
            forall|sb: int| 0 <= sb < i ==> #[trigger] half_span[sb] == (if st.max_y[sb] - mean_y[sb] > mean_y[sb] - st.min_y[sb] { st.max_y[sb] - mean_y[sb] } else { mean_y[sb] - st.min_y[sb] }),
        decreases 2 - i,
    {
        proof {
            let m = st.mean8_y[i as int];
            assert(0 <= m * m <= 2040 * 2040) by (nonlinear_arith)
                requires
                    0 <= m <= 2040,
            ;
            crate::bitfield::lemma_i32_shift3(st.var8_y[i as int]);
            crate::bitfield::lemma_i32_shift3((st.mean8_y[i as int] + 4) as i32);
            crate::bitfield::lemma_i32_shift3((st.mean8_r[i as int] + 4) as i32);
            crate::bitfield::lemma_i32_shift3((st.mean8_g[i as int] + 4) as i32);
            crate::bitfield::lemma_i32_shift3((st.mean8_b[i as int] + 4) as i32);
        }
        let sq = st.mean8_y[i] * st.mean8_y[i];
        let v = (st.var8_y[i] << 3) - sq;
        var8_y[i] = if v > 0 { v } else { 0 };
        mean_y[i] = (st.mean8_y[i] + 4) >> 3;
        mean_r[i] = (st.mean8_r[i] + 4) >> 3;
        mean_g[i] = (st.mean8_g[i] + 4) >> 3;
        mean_b[i] = (st.mean8_b[i] + 4) >> 3;
        let up = st.max_y[i] - mean_y[i];
        let down = mean_y[i] - st.min_y[i];
        half_span[i] = if up > down { up } else { down };
        i = i + 1;
    }
    Etc1Subsets { flat, flat_means, var8_y, mean_r, mean_g, mean_b, half_span }
}

/// Whether every 5-bit base delta between the subblocks fits in three bits.
pub open spec fn deltas_fit(c5: [[i32; 3]; 2]) -> bool {
    forall|c: int| 0 <= c < 3 ==> -4 <= #[trigger] c5[1][c] - c5[0][c] <= 3
}

/// The color bytes of a differential block: 3-bit deltas under the first
/// subblock's 5-bit codes, then the control byte.
pub open spec fn diff_color_bytes(flip: int, mod_tab: [u32; 2], c5: [[i32; 3]; 2]) -> Seq<u8> {
    let byte = |c: int| (((c5[1][c] - c5[0][c]) + 8) % 8 + 8 * c5[0][c]) as u8;
    seq![byte(0), byte(1), byte(2), (flip + 2 + 32 * mod_tab[0] + 4 * mod_tab[1]) as u8]
}

/// The color bytes of an individual-mode block: both subblocks' 4-bit codes,
/// then the control byte.
pub open spec fn abs_color_bytes(flip: int, mod_tab: [u32; 2], c4: [[i32; 3]; 2]) -> Seq<u8> {
    let byte = |c: int| (c4[1][c] + 16 * c4[0][c]) as u8;
    seq![byte(0), byte(1), byte(2), (flip + 32 * mod_tab[0] + 4 * mod_tab[1]) as u8]
}

/// Write the base colors and control byte of a block whose subblocks have the
/// rounded means in `s`: the correlated 5:5:5 roundings when their deltas fit
/// (differential mode), otherwise the correlated 4:4:4 roundings.
pub fn etc1_write_colors(block: &mut [u8; 8], s: &Etc1Subsets, flip: u32, mod_tab: [u32; 2])
    requires
        s.wf(),
        flip < 2,
        mod_tab[0] < 8 && mod_tab[1] < 8,
    ensures
        forall|k: int| 4 <= k < 8 ==> #[trigger] final(block)[k] == old(block)[k],
        exists|c5: [[i32; 3]; 2]| {
            &&& #[trigger] is_corr_rounding(s.spec_mean(0).0, s.spec_mean(0).1, s.spec_mean(0).2, false, c5[0])
            &&& is_corr_rounding(s.spec_mean(1).0, s.spec_mean(1).1, s.spec_mean(1).2, false, c5[1])
            &&& deltas_fit(c5) ==> final(block)@.subrange(0, 4) == diff_color_bytes(flip as int, mod_tab, c5)
            &&& !deltas_fit(c5) ==> exists|c4: [[i32; 3]; 2]| {
                &&& #[trigger] is_corr_rounding(s.spec_mean(0).0, s.spec_mean(0).1, s.spec_mean(0).2, true, c4[0])
                &&& is_corr_rounding(s.spec_mean(1).0, s.spec_mean(1).1, s.spec_mean(1).2, true, c4[1])
                &&& final(block)@.subrange(0, 4) == abs_color_bytes(flip as int, mod_tab, c4)
            }
        },
{
    let mean5: [[i32; 3]; 2] = [
        corr_round_555(s.mean_r[0], s.mean_g[0], s.mean_b[0]),
        corr_round_555(s.mean_r[1], s.mean_g[1], s.mean_b[1]),
    ];
    proof {
        assert(s.spec_mean(0) == (s.mean_r[0] as int, s.mean_g[0] as int, s.mean_b[0] as int));
        assert(s.spec_mean(1) == (s.mean_r[1] as int, s.mean_g[1] as int, s.mean_b[1] as int));
        crate::fastenc::etc1f::lemma_corr_range(s.mean_r[0] as int, s.mean_g[0] as int, s.mean_b[0] as int, false, mean5[0]);
        crate::fastenc::etc1f::lemma_corr_range(s.mean_r[1] as int, s.mean_g[1] as int, s.mean_b[1] as int, false, mean5[1]);
    }
    let delta5: [i32; 3] = [
        mean5[1][0] - mean5[0][0],
        mean5[1][1] - mean5[0][1],
        mean5[1][2] - mean5[0][2],
    ];
    proof {
        crate::bitfield::lemma_delta_or((delta5[0] + 4) as i32, (delta5[1] + 4) as i32, (delta5[2] + 4) as i32);
    }
    let z = ((delta5[0] + 4) | (delta5[1] + 4) | (delta5[2] + 4)) as u32;
    let use_abs_colors4 = z > 7;
    assert(use_abs_colors4 == !deltas_fit(mean5));
    proof {
        vstd::arithmetic::power2::lemma2_to64();
    }
    if use_abs_colors4 {
        let mean4: [[i32; 3]; 2] = [
            corr_round_444(s.mean_r[0], s.mean_g[0], s.mean_b[0]),
            corr_round_444(s.mean_r[1], s.mean_g[1], s.mean_b[1]),
        ];
        proof {
            crate::fastenc::etc1f::lemma_corr_range(s.mean_r[0] as int, s.mean_g[0] as int, s.mean_b[0] as int, true, mean4[0]);
            crate::fastenc::etc1f::lemma_corr_range(s.mean_r[1] as int, s.mean_g[1] as int, s.mean_b[1] as int, true, mean4[1]);
        }
        let mut c: usize = 0;
        while c < 3
            invariant
                c <= 3,
                forall|j: int, cc: int| 0 <= j < 2 && 0 <= cc < 3 ==> 0 <= #[trigger] mean4[j][cc] < 16,
                forall|k: int| 4 <= k < 8 ==> #[trigger] block[k] == old(block)[k],
                forall|cc: int| #![trigger block[cc]] 0 <= cc < c ==> block[cc] == (mean4[1][cc] + 16 * mean4[0][cc]) as u8,
            decreases 3 - c,
        {
            proof {
                vstd::arithmetic::power2::lemma2_to64();
                crate::bitfield::lemma_u32_or_shl(mean4[1][c as int] as u32, mean4[0][c as int] as u32, 4);
            }
            block[c] = ((mean4[1][c] as u32) | ((mean4[0][c] as u32) << 4)) as u8;
            c = c + 1;
        }
        let diff = 0u32;
        proof {
            crate::bitfield::lemma_etc1_control(flip, diff, mod_tab[0], mod_tab[1]);
        }
        block[3] = (flip | (diff << 1) | (mod_tab[0] << 5) | (mod_tab[1] << 2)) as u8;
        assert(block@.subrange(0, 4) =~= abs_color_bytes(flip as int, mod_tab, mean4));
        assert(is_corr_rounding(s.spec_mean(0).0, s.spec_mean(0).1, s.spec_mean(0).2, true, mean4[0]));
        assert(is_corr_rounding(s.spec_mean(1).0, s.spec_mean(1).1, s.spec_mean(1).2, true, mean4[1]));
        assert(is_corr_rounding(s.spec_mean(0).0, s.spec_mean(0).1, s.spec_mean(0).2, false, mean5[0]));
        assert(is_corr_rounding(s.spec_mean(1).0, s.spec_mean(1).1, s.spec_mean(1).2, false, mean5[1]));
    } else {
        let mut c: usize = 0;
        while c < 3
            invariant
                c <= 3,
                forall|j: int, cc: int| 0 <= j < 2 && 0 <= cc < 3 ==> 0 <= #[trigger] mean5[j][cc] < 32,
                deltas_fit(mean5),
                delta5[0] == mean5[1][0] - mean5[0][0],
                delta5[1] == mean5[1][1] - mean5[0][1],
                delta5[2] == mean5[1][2] - mean5[0][2],
                forall|k: int| 4 <= k < 8 ==> #[trigger] block[k] == old(block)[k],
                forall|cc: int| #![trigger block[cc]] 0 <= cc < c ==> block[cc] == (((mean5[1][cc] - mean5[0][cc]) + 8) % 8 + 8 * mean5[0][cc]) as u8,
            decreases 3 - c,
        {
            proof {
                assert(-4 <= mean5[1][c as int] - mean5[0][c as int] <= 3);
                crate::bitfield::lemma_word_bits(0, 0, delta5[c as int]);
                vstd::arithmetic::power2::lemma2_to64();
                crate::bitfield::lemma_u32_or_shl((delta5[c as int] & 7) as u32, mean5[0][c as int] as u32, 3);
            }
            block[c] = (((delta5[c] & 7) as u32) | ((mean5[0][c] as u32) << 3)) as u8;
            c = c + 1;
        }
        let diff = 1u32;
        proof {
            crate::bitfield::lemma_etc1_control(flip, diff, mod_tab[0], mod_tab[1]);
        }
        block[3] = (flip | (diff << 1) | (mod_tab[0] << 5) | (mod_tab[1] << 2)) as u8;
        assert(block@.subrange(0, 4) =~= diff_color_bytes(flip as int, mod_tab, mean5));
        assert(is_corr_rounding(s.spec_mean(0).0, s.spec_mean(0).1, s.spec_mean(0).2, false, mean5[0]));
        assert(is_corr_rounding(s.spec_mean(1).0, s.spec_mean(1).1, s.spec_mean(1).2, false, mean5[1]));
    }
}

/// Subblock of texel `i` at flip `flip`: top/bottom rows for flip 1,
/// left/right columns for flip 0.
pub open spec fn texel_subblock(flip: int, i: int) -> int {
    if flip == 1 {
        if i < 8 { 0 } else { 1 }
    } else {
        if i % 4 < 2 { 0 } else { 1 }
    }
}

/// ETC1 selector bit of texel `i` (row-major index): column times four plus
/// row. The map is its own inverse.
pub open spec fn texel_bit(i: int) -> int {
    (i % 4) * 4 + i / 4
}

/// One of the two 16-bit ETC1 selector planes of a block: the high bits
/// (bytes 4 and 5) or the low bits (bytes 6 and 7).
pub open spec fn sel_plane(block: [u8; 8], hi: bool) -> u16 {
    if hi {
        ((block[4] as u16) << 8u16) | (block[5] as u16)
    } else {
        ((block[6] as u16) << 8u16) | (block[7] as u16)
    }
}

/// The ETC1 selector of modifier rank `n` (how many of the three midpoints
/// between neighboring candidates lie above the texel).
pub open spec fn rank_code(n: int) -> int {
    if n == 0 { 1 } else if n == 1 { 0 } else if n == 2 { 2 } else { 3 }
}

/// How many of the three midpoints between consecutive candidate levels `y`
/// (summed in pairs) lie above the texel level `l`.
pub open spec fn midpoint_rank(l: int, y: spec_fn(int) -> int) -> int {
    (if l < y(0) + y(1) { 1int } else { 0 }) + (if l < y(1) + y(2) { 1int } else { 0 }) + (if l < y(2) + y(3) { 1int } else { 0 })
}

/// Weighted luma of candidate `k` of subblock `sb` (54, 183, 19).
pub open spec fn cand_luma(block: [u8; 8], sb: int, k: int) -> int {
    54 * etc1_color(block, sb, k, 0) + 183 * etc1_color(block, sb, k, 1) + 19 * etc1_color(block, sb, k, 2)
}

/// The selector an RGB texel gets: its doubled weighted luma ranked against
/// the midpoints of its subblock's candidate lumas.
pub open spec fn rgb_selector(block: [u8; 8], p: Rgba, sb: int) -> int {
    rank_code(midpoint_rank(108 * p[0] + 366 * p[1] + 38 * p[2], |k: int| cand_luma(block, sb, k)))
}

/// The rank code of three threshold tests.
fn rank_to_code(n: usize) -> (r: u16)
    requires
        n < 4,
    ensures
        r as int == rank_code(n as int),
{
    match n {
        0 => 1,
        1 => 0,
        2 => 2,
        _ => 3,
    }
}

/// Set the selector bits of texel `i` in both planes.
fn set_selector(l_mask: u16, h_mask: u16, i: usize, code: u16) -> (r: (u16, u16))
    requires
        i < 16,
        code < 4,
        (l_mask >> (texel_bit(i as int) as u16)) & 1 == 0,
        (h_mask >> (texel_bit(i as int) as u16)) & 1 == 0,
    ensures
        forall|q: u16| q < 16 ==> #[trigger] ((r.0 >> q) & 1) == (if q as int == texel_bit(i as int) { code % 2 } else { (l_mask >> q) & 1 }),
        forall|q: u16| q < 16 ==> #[trigger] ((r.1 >> q) & 1) == (if q as int == texel_bit(i as int) { code / 2 } else { (h_mask >> q) & 1 }),
{
    let ofs = ((i % 4) * 4 + i / 4) as u16;
    let lo = code & 1;
    let hi = code >> 1;
    proof {
        crate::bitfield::lemma_u16_set_bit(code, 0, 0, 0);
        assert forall|q: u16| q < 16 implies #[trigger] (((l_mask | (lo << ofs)) >> q) & 1) == (if q as int == texel_bit(i as int) { code % 2 } else { (l_mask >> q) & 1 }) by {
            crate::bitfield::lemma_u16_set_bit(l_mask, lo, ofs, q);
        }
        assert forall|q: u16| q < 16 implies #[trigger] (((h_mask | (hi << ofs)) >> q) & 1) == (if q as int == texel_bit(i as int) { code / 2 } else { (h_mask >> q) & 1 }) by {
            crate::bitfield::lemma_u16_set_bit(h_mask, hi, ofs, q);
        }
    }
    (l_mask | (lo << ofs), h_mask | (hi << ofs))
}

/// The three midpoint thresholds (sums of neighboring candidate lumas) of
/// subblock `sb`, from its four candidate colors.
#[verifier::spinoff_prover]
fn subblock_thresholds(block: &[u8; 8], colors: &[[[u8; 3]; 4]; 2], sb: usize) -> (t: [u32; 3])
    requires
        sb < 2,
        forall|s: int, k: int, c: int|
            0 <= s < 2 && 0 <= k < 4 && 0 <= c < 3 ==> colors[s][k][c] as int == etc1_color(*block, s, k, c),
    ensures
        t[0] == cand_luma(*block, sb as int, 0) + cand_luma(*block, sb as int, 1),
        t[1] == cand_luma(*block, sb as int, 1) + cand_luma(*block, sb as int, 2),
        t[2] == cand_luma(*block, sb as int, 2) + cand_luma(*block, sb as int, 3),
{
    let bc = colors[sb];
    let y0 = bc[0][0] as u32 * 54 + bc[0][1] as u32 * 183 + bc[0][2] as u32 * 19;
    let y1 = bc[1][0] as u32 * 54 + bc[1][1] as u32 * 183 + bc[1][2] as u32 * 19;
    let y2 = bc[2][0] as u32 * 54 + bc[2][1] as u32 * 183 + bc[2][2] as u32 * 19;
    let y3 = bc[3][0] as u32 * 54 + bc[3][1] as u32 * 183 + bc[3][2] as u32 * 19;
    assert(y0 == cand_luma(*block, sb as int, 0));
    assert(y1 == cand_luma(*block, sb as int, 1));
    assert(y2 == cand_luma(*block, sb as int, 2));
    assert(y3 == cand_luma(*block, sb as int, 3));
    [y0 + y1, y1 + y2, y2 + y3]
}

/// The three midpoint thresholds of each subblock of an RGB block.
fn rgb_thresholds(block: &[u8; 8]) -> (t: [[u32; 3]; 2])
    ensures
        forall|s: int| 0 <= s < 2 ==> {
            &&& #[trigger] t[s][0] == cand_luma(*block, s, 0) + cand_luma(*block, s, 1)
            &&& t[s][1] == cand_luma(*block, s, 1) + cand_luma(*block, s, 2)
            &&& t[s][2] == cand_luma(*block, s, 2) + cand_luma(*block, s, 3)
        },
{
    let colors = get_block_colors(block);
    let t0 = subblock_thresholds(block, &colors, 0);
    let t1 = subblock_thresholds(block, &colors, 1);
    let t = [t0, t1];
    assert(t[0] == t0 && t[1] == t1);
    t
}

/// The selector of one RGB texel in subblock `s`.
fn rgb_texel_selector(block: &[u8; 8], thresholds: &[[u32; 3]; 2], c: Rgba, s: usize) -> (code: u16)
    requires
        s < 2,
        forall|k: int| 0 <= k < 2 ==> {
            &&& #[trigger] thresholds[k][0] == cand_luma(*block, k, 0) + cand_luma(*block, k, 1)
            &&& thresholds[k][1] == cand_luma(*block, k, 1) + cand_luma(*block, k, 2)
            &&& thresholds[k][2] == cand_luma(*block, k, 2) + cand_luma(*block, k, 3)
        },
    ensures
        code as int == rgb_selector(*block, c, s as int),
        code < 4,
{
    let l = c[0] as u32 * 108 + c[1] as u32 * 366 + c[2] as u32 * 38;
    let n = (if l < thresholds[s][0] { 1usize } else { 0usize }) + (if l < thresholds[s][1] { 1usize } else { 0usize }) + (if l < thresholds[s][2] { 1usize } else { 0usize });
    assert(thresholds[s as int][0] == cand_luma(*block, s as int, 0) + cand_luma(*block, s as int, 1));
    rank_to_code(n)
}

/// Write the selector planes of an RGB block: each texel gets the selector of
/// its subblock's candidate nearest its luma (by midpoints).
#[verifier::spinoff_prover]
#[verifier::rlimit(60)]
pub fn etc1_assign_selectors(block: &mut [u8; 8], pixels: &[Rgba; 16], flip: u32)
    requires
        flip < 2,
    ensures
        forall|k: int| 0 <= k < 4 ==> #[trigger] final(block)[k] == old(block)[k],
        forall|i: int|
            0 <= i < 16 ==> {
                let code = rgb_selector(*old(block), #[trigger] pixels[i], texel_subblock(flip as int, i));
                &&& (sel_plane(*final(block), false) >> (texel_bit(i) as u16)) & 1 == code % 2
                &&& (sel_plane(*final(block), true) >> (texel_bit(i) as u16)) & 1 == code / 2
            },
{
    let thresholds = rgb_thresholds(block);
    let mut l_bitmask = 0u16;
    let mut h_bitmask = 0u16;
    let mut i: usize = 0;
    proof {
        assert forall|q: u16| q < 16 implies (0u16 >> q) & 1 == 0 by {
            crate::bitfield::lemma_u16_set_bit(0, 0, 0, q);
        }
    }
    while i < 16
        invariant
            i <= 16,
            flip < 2,
            *block == *old(block),
            forall|s: int| 0 <= s < 2 ==> {
                &&& #[trigger] thresholds[s][0] == cand_luma(*block, s, 0) + cand_luma(*block, s, 1)
                &&& thresholds[s][1] == cand_luma(*block, s, 1) + cand_luma(*block, s, 2)
                &&& thresholds[s][2] == cand_luma(*block, s, 2) + cand_luma(*block, s, 3)
            },
            forall|q: u16| q < 16 ==> {
                let t = texel_bit(q as int);
                &&& #[trigger] ((l_bitmask >> q) & 1) == (if t < i { (rgb_selector(*block, pixels[t], texel_subblock(flip as int, t)) % 2) as u16 } else { 0u16 })
                &&& ((h_bitmask >> q) & 1) == (if t < i { (rgb_selector(*block, pixels[t], texel_subblock(flip as int, t)) / 2) as u16 } else { 0u16 })
            },
        decreases 16 - i,
    {
        let s = if flip != 0 { if i < 8 { 0usize } else { 1usize } } else { if i % 4 < 2 { 0usize } else { 1usize } };
        let code = rgb_texel_selector(block, &thresholds, pixels[i], s);
        let ghost bit = texel_bit(i as int);
        proof {
            assert(texel_bit(bit) == i);
            assert(((l_bitmask >> (bit as u16)) & 1) == 0);
            assert(((h_bitmask >> (bit as u16)) & 1) == 0);
        }
        let (nl, nh) = set_selector(l_bitmask, h_bitmask, i, code);
        proof {
            assert forall|q: u16| q < 16 implies {
                let t = texel_bit(q as int);
                &&& #[trigger] ((nl >> q) & 1) == (if t < i + 1 { (rgb_selector(*block, pixels[t], texel_subblock(flip as int, t)) % 2) as u16 } else { 0u16 })
                &&& ((nh >> q) & 1) == (if t < i + 1 { (rgb_selector(*block, pixels[t], texel_subblock(flip as int, t)) / 2) as u16 } else { 0u16 })
            } by {
                assert(texel_bit(texel_bit(q as int)) == q);
            }
        }
        l_bitmask = nl;
        h_bitmask = nh;
        i = i + 1;
    }
    let ghost b0 = *block;
    block[7] = l_bitmask as u8;
    block[6] = (l_bitmask >> 8) as u8;
    block[5] = h_bitmask as u8;
    block[4] = (h_bitmask >> 8) as u8;
    proof {
        crate::bitfield::lemma_u16_set_bit(l_bitmask, 0, 0, 0);
        crate::bitfield::lemma_u16_set_bit(h_bitmask, 0, 0, 0);
        assert(sel_plane(*block, false) == l_bitmask);
        assert(sel_plane(*block, true) == h_bitmask);
        assert forall|i: int| 0 <= i < 16 implies {
            let code = rgb_selector(*old(block), #[trigger] pixels[i], texel_subblock(flip as int, i));
            &&& (sel_plane(*block, false) >> (texel_bit(i) as u16)) & 1 == code % 2
            &&& (sel_plane(*block, true) >> (texel_bit(i) as u16)) & 1 == code / 2
        } by {
            let q = texel_bit(i) as u16;
            assert(texel_bit(q as int) == i);
            assert(((l_bitmask >> q) & 1) == 0 || ((l_bitmask >> q) & 1) == 1);
        }
    }
}

/// Gray levels as opaque RGBA texels.
pub open spec fn gray_texels(y: [u8; 16]) -> Seq<Rgba> {
    Seq::new(16, |i: int| [y[i], y[i], y[i], 255u8])
}

/// Gray levels as opaque RGBA texels.
fn expand_gray(pixels: &[u8; 16]) -> (px: [Rgba; 16])
    ensures
        px@ == gray_texels(*pixels),
{
    let mut px = [[0u8; 4]; 16];
    let mut i: usize = 0;
    while i < 16
        invariant
            i <= 16,
            forall|k: int| 0 <= k < i ==> #[trigger] px[k] == [pixels[k], pixels[k], pixels[k], 255u8],
        decreases 16 - i,
    {
        px[i] = [pixels[i], pixels[i], pixels[i], 255];
        i = i + 1;
    }
    assert(px@ =~= gray_texels(*pixels));
    px
}

/// Whether all sixteen gray levels are equal.
pub fn etc1_gray_is_solid(pixels: &[u8; 16]) -> (r: bool)
    ensures
        r == (forall|i: int| 0 <= i < 16 ==> #[trigger] pixels[i] == pixels[0]),
{
    let mut i: usize = 1;
    while i < 16
        invariant
            1 <= i <= 16,
            forall|j: int| 0 <= j < i ==> #[trigger] pixels[j] == pixels[0],
        decreases 16 - i,
    {
        if pixels[i] != pixels[0] {
            return false;
        }
        i = i + 1;
    }
    true
}

/// The luma sums of the four halves of a grayscale block (its chroma is
/// zero).
pub fn etc1_gray_half_sums(pixels: &[u8; 16]) -> (a: Etc1HalfSums)
    ensures
        forall|s: int| 0 <= s < 4 ==> #[trigger] a.accum_y[s] == half_sum(gray_texels(*pixels), s, 0, 16),
        forall|s: int| 0 <= s < 4 ==> #[trigger] a.accum_y2[s] == half_sum(gray_texels(*pixels), s, 1, 16),
{
    let px = expand_gray(pixels);
    etc1_half_sums(&px)
}

/// The per-subblock facts of a grayscale block split at flip `flip`.
pub fn etc1_gray_subsets(pixels: &[u8; 16], flip: u32) -> (s: Etc1Subsets)
    requires
        flip < 2,
    ensures
        subsets_ok(s, gray_texels(*pixels), flip as int),
{
    let px = expand_gray(pixels);
    etc1_subsets(&px, flip)
}

/// The gray-level bytes and control byte of a grayscale block with subblock
/// mean levels `m`: differential from the nearest 5-bit codes when their
/// delta fits in three bits, else individual from the nearest 4-bit codes.
pub open spec fn gray_color_bytes(t: Etc1Tables, m: [int; 2], flip: int, mod_tab: [u32; 2]) -> Seq<u8> {
    let n5 = t.nearest_table(false);
    let n4 = t.nearest_table(true);
    let d = n5[m[1]] - n5[m[0]];
    let v: u8 = if d < -4 || d > 3 {
        (n4[m[1]] + 16 * n4[m[0]]) as u8
    } else {
        ((d + 8) % 8 + 8 * n5[m[0]]) as u8
    };
    let ctrl: u8 = if d < -4 || d > 3 {
        (flip + 32 * mod_tab[0] + 4 * mod_tab[1]) as u8
    } else {
        (flip + 2 + 32 * mod_tab[0] + 4 * mod_tab[1]) as u8
    };
    seq![v, v, v, ctrl]
}

/// Write the gray-level bytes and control byte of a grayscale block whose
/// subblocks have the rounded mean levels in `s`.
pub fn etc1_gray_write_colors(t: &Etc1Tables, block: &mut [u8; 8], s: &Etc1Subsets, flip: u32, mod_tab: [u32; 2])
    requires
        t.wf(),
        s.wf(),
        flip < 2,
        mod_tab[0] < 8 && mod_tab[1] < 8,
    ensures
        forall|k: int| 4 <= k < 8 ==> #[trigger] final(block)[k] == old(block)[k],
        final(block)@.subrange(0, 4) == gray_color_bytes(*t, [s.spec_mean(0).0, s.spec_mean(1).0], flip as int, mod_tab),
{
    let m0 = s.mean_r[0] as usize;
    let m1 = s.mean_r[1] as usize;
    proof {
        assert(s.spec_mean(0).0 == m0 && s.spec_mean(1).0 == m1);
        assert(t.nearest_table(false)[m0 as int] < 32 && t.nearest_table(false)[m1 as int] < 32);
        assert(t.nearest_table(true)[m0 as int] < 16 && t.nearest_table(true)[m1 as int] < 16);
        vstd::arithmetic::power2::lemma2_to64();
    }
    let n5 = t.nearest5_at(m0) as i32;
    let n5b = t.nearest5_at(m1) as i32;
    let delta5_y = n5b - n5;
    proof {
        crate::bitfield::lemma_delta_or((delta5_y + 4) as i32, 0, 0);
    }
    let use_abs_colors4 = (delta5_y + 4) as u32 > 7;
    if use_abs_colors4 {
        let a = t.nearest4_at(m0) as u32;
        let b = t.nearest4_at(m1) as u32;
        proof {
            crate::bitfield::lemma_u32_or_shl(b, a, 4);
        }
        let v = (b | (a << 4)) as u8;
        block[0] = v;
        block[1] = v;
        block[2] = v;
        let diff = 0u32;
        proof {
            crate::bitfield::lemma_etc1_control(flip, diff, mod_tab[0], mod_tab[1]);
        }
        block[3] = (flip | (diff << 1) | (mod_tab[0] << 5) | (mod_tab[1] << 2)) as u8;
    } else {
        proof {
            crate::bitfield::lemma_word_bits(0, 0, delta5_y);
            crate::bitfield::lemma_u32_or_shl((delta5_y & 7) as u32, n5 as u32, 3);
        }
        let v = (((delta5_y & 7) as u32) | ((n5 as u32) << 3)) as u8;
        block[0] = v;
        block[1] = v;
        block[2] = v;
        let diff = 1u32;
        proof {
            crate::bitfield::lemma_etc1_control(flip, diff, mod_tab[0], mod_tab[1]);
        }
        block[3] = (flip | (diff << 1) | (mod_tab[0] << 5) | (mod_tab[1] << 2)) as u8;
    }
    assert(block@.subrange(0, 4) =~= gray_color_bytes(*t, [s.spec_mean(0).0, s.spec_mean(1).0], flip as int, mod_tab));
}

/// The selector a gray level gets: its doubled level ranked against the
/// midpoints of its subblock's candidate levels.
pub open spec fn gray_selector(block: [u8; 8], y: u8, sb: int) -> int {
    rank_code(midpoint_rank(2 * y, |k: int| etc1_luma(block, sb, k)))
}

/// Write the selector planes of a grayscale block: each texel gets the
/// selector of its subblock's candidate level nearest its own (by
/// midpoints).
#[verifier::spinoff_prover]
#[verifier::rlimit(60)]
pub fn etc1_gray_assign_selectors(block: &mut [u8; 8], pixels: &[u8; 16], flip: u32)
    requires
        flip < 2,
    ensures
        forall|k: int| 0 <= k < 4 ==> #[trigger] final(block)[k] == old(block)[k],
        forall|i: int|
            0 <= i < 16 ==> {
                let code = gray_selector(*old(block), #[trigger] pixels[i], texel_subblock(flip as int, i));
                &&& (sel_plane(*final(block), false) >> (texel_bit(i) as u16)) & 1 == code % 2
                &&& (sel_plane(*final(block), true) >> (texel_bit(i) as u16)) & 1 == code / 2
            },
{
    let by = get_block_colors_y(block);
    let mut l_bitmask = 0u16;
    let mut h_bitmask = 0u16;
    let mut i: usize = 0;
    proof {
        assert forall|q: u16| q < 16 implies (0u16 >> q) & 1 == 0 by {
            crate::bitfield::lemma_u16_set_bit(0, 0, 0, q);
        }
    }
    while i < 16
        invariant
            i <= 16,
            flip < 2,
            *block == *old(block),
            forall|sb: int, k: int| 0 <= sb < 2 && 0 <= k < 4 ==> #[trigger] by[sb][k] as int == etc1_luma(*block, sb, k),
            forall|q: u16| q < 16 ==> {
                let t = texel_bit(q as int);
                &&& #[trigger] ((l_bitmask >> q) & 1) == (if t < i { (gray_selector(*block, pixels[t], texel_subblock(flip as int, t)) % 2) as u16 } else { 0u16 })
                &&& ((h_bitmask >> q) & 1) == (if t < i { (gray_selector(*block, pixels[t], texel_subblock(flip as int, t)) / 2) as u16 } else { 0u16 })
            },
        decreases 16 - i,
    {
        let s = if flip != 0 { if i < 8 { 0usize } else { 1usize } } else { if i % 4 < 2 { 0usize } else { 1usize } };
        let y01 = by[s][0] as u32 + by[s][1] as u32;
        let y12 = by[s][1] as u32 + by[s][2] as u32;
        let y23 = by[s][2] as u32 + by[s][3] as u32;
        let l = pixels[i] as u32 * 2;
        let n = (if l < y01 { 1usize } else { 0usize }) + (if l < y12 { 1usize } else { 0usize }) + (if l < y23 { 1usize } else { 0usize });
        let code = rank_to_code(n);
        let ghost bit = texel_bit(i as int);
        proof {
            assert(code as int == gray_selector(*block, pixels[i as int], s as int));
            assert(texel_bit(bit) == i);
            assert(((l_bitmask >> (bit as u16)) & 1) == 0);
            assert(((h_bitmask >> (bit as u16)) & 1) == 0);
        }
        let (nl, nh) = set_selector(l_bitmask, h_bitmask, i, code);
        proof {
            assert forall|q: u16| q < 16 implies {
                let t = texel_bit(q as int);
                &&& #[trigger] ((nl >> q) & 1) == (if t < i + 1 { (gray_selector(*block, pixels[t], texel_subblock(flip as int, t)) % 2) as u16 } else { 0u16 })
                &&& ((nh >> q) & 1) == (if t < i + 1 { (gray_selector(*block, pixels[t], texel_subblock(flip as int, t)) / 2) as u16 } else { 0u16 })
            } by {
                assert(texel_bit(texel_bit(q as int)) == q);
            }
        }
        l_bitmask = nl;
        h_bitmask = nh;
        i = i + 1;
    }
    block[7] = l_bitmask as u8;
    block[6] = (l_bitmask >> 8) as u8;
    block[5] = h_bitmask as u8;
    block[4] = (h_bitmask >> 8) as u8;
    proof {
        crate::bitfield::lemma_u16_set_bit(l_bitmask, 0, 0, 0);
        crate::bitfield::lemma_u16_set_bit(h_bitmask, 0, 0, 0);
        assert(sel_plane(*block, false) == l_bitmask);
        assert(sel_plane(*block, true) == h_bitmask);
        assert forall|i: int| 0 <= i < 16 implies {
            let code = gray_selector(*old(block), #[trigger] pixels[i], texel_subblock(flip as int, i));
            &&& (sel_plane(*block, false) >> (texel_bit(i) as u16)) & 1 == code % 2
            &&& (sel_plane(*block, true) >> (texel_bit(i) as u16)) & 1 == code / 2
        } by {
            let q = texel_bit(i) as u16;
            assert(texel_bit(q as int) == i);
            assert(((l_bitmask >> q) & 1) == 0 || ((l_bitmask >> q) & 1) == 1);
        }
    }
}

/// Whether `a` holds the half sums of `px`.
pub open spec fn half_sums_of(px: Seq<Rgba>, a: Etc1HalfSums) -> bool {
    &&& forall|s: int| 0 <= s < 4 ==> #[trigger] a.accum_y[s] == half_sum(px, s, 0, 16)
    &&& forall|s: int| 0 <= s < 4 ==> #[trigger] a.accum_y2[s] == half_sum(px, s, 1, 16)
    &&& forall|s: int| 0 <= s < 4 ==> #[trigger] a.accum_c2[s] == half_sum(px, s, 2, 16)
    &&& a.total_c2 == all_sum(px, 2, 16)
    &&& a.max_c2 == max_c2(px, 16)
}

/// The first decision of the ETC1 packer.
pub enum Etc1Route {
    /// One RGB colour: pack it as a solid block.
    Solid(Rgba),
    /// Little chroma: pack the block's gray levels.
    Gray(Etc1HalfSums),
    /// A coloured block: choose a split from these half sums.
    Color(Etc1HalfSums),
}

/// Route a block: solid when its texels share one RGB colour (that of texel
/// 0), gray when its chroma energy is low (under 300 in all and under 32 in
/// every texel), coloured otherwise; the last two carry the half sums.
pub fn etc1_route(pixels: &[Rgba; 16]) -> (r: Etc1Route)
    ensures
        is_solid_rgb(pixels@) <==> r is Solid,
        r matches Etc1Route::Solid(c) ==> c == pixels[0],
        r matches Etc1Route::Gray(a) ==> half_sums_of(pixels@, a) && all_sum(pixels@, 2, 16) < 300 && max_c2(pixels@, 16) < 32,
        r matches Etc1Route::Color(a) ==> half_sums_of(pixels@, a) && !(all_sum(pixels@, 2, 16) < 300 && max_c2(pixels@, 16) < 32),
{
    if etc1_is_solid(pixels) {
        return Etc1Route::Solid(pixels[0]);
    }
    let sums = etc1_half_sums(pixels);
    if etc1_low_chroma(&sums) {
        Etc1Route::Gray(sums)
    } else {
        Etc1Route::Color(sums)
    }
}

/// What a coloured block's split leaves to pack.
pub enum Etc1FlatRoute {
    /// Both subblocks are flat with one mean: pack that colour as solid.
    OneColor(Rgba),
    /// Both subblocks are flat with different means: pack each mean.
    TwoColors([Rgba; 2]),
    /// Some subblock varies: fit modifier tables and selectors.
    Textured,
}

/// Route a split block by its subblocks: flat with one mean, flat with two,
/// or textured.
pub fn etc1_flat_route(s: &Etc1Subsets) -> (r: Etc1FlatRoute)
    ensures
        !s.spec_flat() <==> r is Textured,
        r matches Etc1FlatRoute::OneColor(c) ==> s.spec_flat() && s.spec_flat_means()[0] == s.spec_flat_means()[1] && c == s.spec_flat_means()[0],
        r matches Etc1FlatRoute::TwoColors(m) ==> s.spec_flat() && s.spec_flat_means()[0] != s.spec_flat_means()[1] && m == s.spec_flat_means(),
{
    if !s.is_flat() {
        return Etc1FlatRoute::Textured;
    }
    let means = s.flat_means();
    if means[0][0] == means[1][0] && means[0][1] == means[1][1] && means[0][2] == means[1][2] && means[0][3] == means[1][3] {
        assert(means[0] =~= means[1]);
        Etc1FlatRoute::OneColor(means[0])
    } else {
        Etc1FlatRoute::TwoColors(means)
    }
}

} // verus!
