//! Matching a desired split of a block into three subsets to the BC7
//! partition pattern that agrees with it on the most texels, with subsets
//! paired up in whichever way suits best. Patterns and splits are held as
//! 16-bit texel masks and compared by counting the bits they share.

use vstd::prelude::*;
use vstd::arithmetic::power2::{pow2, lemma2_to64};
use vstd::bits::lemma_u64_shr_is_div;
use crate::bitfield::{nat_field, lemma_u64_append, lemma_u64_shr_mask, lemma_field_truncate, lemma_field_shift};
use crate::fastenc::bc7f::{Bc7Partitions, Rgba, dist3};

verus! {

/// How many of the low `n` bits of `x` are set.
pub open spec fn popcount(x: nat, n: nat) -> nat
    decreases n,
{
    if n == 0 { 0 } else { popcount(x, (n - 1) as nat) + nat_field(x, (n - 1) as nat, 1) }
}

/// 1 when texel `k` wants subset `i` and lies in subset `j` of three-subset
/// pattern `p`.
pub open spec fn hit(d: [u8; 16], t: Bc7Partitions, p: int, i: nat, j: nat, k: int) -> nat {
    if d[k] == i && t.subset(3, p, k) == j { 1 } else { 0 }
}

/// How many of the first `n` texels want subset `i` and lie in subset `j` of
/// pattern `p`.
pub open spec fn overlap(d: [u8; 16], t: Bc7Partitions, p: int, i: nat, j: nat, n: nat) -> nat
    decreases n,
{
    if n == 0 { 0 } else { overlap(d, t, p, i, j, (n - 1) as nat) + hit(d, t, p, i, j, n - 1) }
}

/// The larger of two integers.
pub open spec fn max2(a: int, b: int) -> int {
    if b > a { b } else { a }
}

/// How many texels pattern `p` puts where `d` wants them, under the best
/// pairing of desired subsets with pattern subsets.
pub open spec fn pattern_score(d: [u8; 16], t: Bc7Partitions, p: int) -> int {
    let c00 = overlap(d, t, p, 0, 0, 16) as int;
    let c01 = overlap(d, t, p, 0, 1, 16) as int;
    let c02 = overlap(d, t, p, 0, 2, 16) as int;
    let c10 = overlap(d, t, p, 1, 0, 16) as int;
    let c11 = overlap(d, t, p, 1, 1, 16) as int;
    let c12 = overlap(d, t, p, 1, 2, 16) as int;
    let c20 = overlap(d, t, p, 2, 0, 16) as int;
    let c21 = overlap(d, t, p, 2, 1, 16) as int;
    let c22 = overlap(d, t, p, 2, 2, 16) as int;
    max2(
        max2(max2(max2(max2(c00 + c11 + c22, c00 + c12 + c21), c01 + c10 + c22), c01 + c12 + c20), c02 + c10 + c21),
        c02 + c11 + c20,
    )
}

/// The first of patterns `0..n` with the highest score.
pub open spec fn best_pattern(d: [u8; 16], t: Bc7Partitions, n: nat) -> nat
    decreases n,
{
    if n <= 1 {
        0
    } else {
        let b = best_pattern(d, t, (n - 1) as nat);
        if pattern_score(d, t, (n - 1) as int) > pattern_score(d, t, b as int) { (n - 1) as nat } else { b }
    }
}

/// Whether `masks[p]` holds pattern `p`'s first subset in its low 16 bits and
/// its second subset in its high 16 bits.
pub open spec fn masks_of(t: Bc7Partitions, masks: [u32; 64]) -> bool {
    forall|p: int, k: nat|
        0 <= p < 64 && k < 16 ==> {
            &&& #[trigger] nat_field(masks[p] as nat, k, 1) == (if t.subset(3, p, k as int) == 0 { 1nat } else { 0 })
            &&& nat_field(masks[p] as nat, 16 + k, 1) == (if t.subset(3, p, k as int) == 1 { 1nat } else { 0 })
        }
}

/// Bit `k` of an AND is the product of the operands' bits.
proof fn lemma_and_bit(a: u64, b: u64, k: u64)
    by (bit_vector)
    requires
        k < 64,
    ensures
        ((a & b) >> k) & 1 == ((a >> k) & 1) * ((b >> k) & 1),
        a & b <= a,
{
}

/// The 16-bit mask of the texels whose flag in `bits` is 1.
fn mask_of_bits(bits: &[u64; 16]) -> (m: u64)
    requires
        forall|k: int| 0 <= k < 16 ==> bits[k] < 2,
    ensures
        m < pow2(16),
        forall|k: nat| k < 16 ==> #[trigger] nat_field(m as nat, k, 1) == bits[k as int],
{
    proof {
        lemma2_to64();
    }
    let mut m: u64 = 0;
    let mut k: u64 = 0;
    while k < 16
        invariant
            k <= 16,
            forall|j: int| 0 <= j < 16 ==> bits[j] < 2,
            m < pow2(k as nat),
            forall|j: nat| j < k ==> #[trigger] nat_field(m as nat, j, 1) == bits[j as int],
        decreases 16 - k,
    {
        proof {
            lemma2_to64();
            lemma_u64_append(m, bits[k as int], k, 1);
        }
        m = m | (bits[k as usize] << k);
        k = k + 1;
    }
    m
}

/// The pattern masks of the two-subset partitions: bit `k` set when texel
/// `k` is in the second subset.
pub fn part2_bitmasks(t: &Bc7Partitions) -> (masks: [u16; 64])
    requires
        t.wf(),
    ensures
        forall|p: int, k: nat| 0 <= p < 64 && k < 16 ==> #[trigger] nat_field(masks[p] as nat, k, 1) == t.subset(2, p, k as int),
{
    let mut masks = [0u16; 64];
    let mut p: usize = 0;
    while p < 64
        invariant
            t.wf(),
            p <= 64,
            forall|q: int, k: nat| 0 <= q < p && k < 16 ==> #[trigger] nat_field(masks[q] as nat, k, 1) == t.subset(2, q, k as int),
        decreases 64 - p,
    {
        let mut bits = [0u64; 16];
        let mut k: usize = 0;
        while k < 16
            invariant
                t.wf(),
                p < 64,
                k <= 16,
                forall|j: int| 0 <= j < 16 ==> bits[j] < 2,
                forall|j: int| 0 <= j < k ==> #[trigger] bits[j] == t.subset(2, p as int, j),
            decreases 16 - k,
        {
            proof {
                t.lemma_ranges();
            }
            bits[k] = t.subset_at(2, p, k) as u64;
            k = k + 1;
        }
        let m = mask_of_bits(&bits);
        proof {
            vstd::arithmetic::power2::lemma2_to64();
        }
        masks[p] = m as u16;
        p = p + 1;
    }
    masks
}

/// The pattern masks of the three-subset partitions: bit `k` set when texel
/// `k` is in the first subset, bit `16 + k` when it is in the second.
pub fn part3_bitmasks(t: &Bc7Partitions) -> (masks: [u32; 64])
    requires
        t.wf(),
    ensures
        masks_of(*t, masks),
{
    let mut masks = [0u32; 64];
    let mut p: usize = 0;
    while p < 64
        invariant
            t.wf(),
            p <= 64,
            forall|q: int, k: nat|
                0 <= q < p && k < 16 ==> {
                    &&& #[trigger] nat_field(masks[q] as nat, k, 1) == (if t.subset(3, q, k as int) == 0 { 1nat } else { 0 })
                    &&& nat_field(masks[q] as nat, 16 + k, 1) == (if t.subset(3, q, k as int) == 1 { 1nat } else { 0 })
                },
        decreases 64 - p,
    {
        let mut in0 = [0u64; 16];
        let mut in1 = [0u64; 16];
        let mut k: usize = 0;
        while k < 16
            invariant
                t.wf(),
                p < 64,
                k <= 16,
                forall|j: int| 0 <= j < 16 ==> in0[j] < 2 && in1[j] < 2,
                forall|j: int| 0 <= j < k ==> #[trigger] in0[j] == (if t.subset(3, p as int, j) == 0 { 1u64 } else { 0 }),
                forall|j: int| 0 <= j < k ==> #[trigger] in1[j] == (if t.subset(3, p as int, j) == 1 { 1u64 } else { 0 }),
            decreases 16 - k,
        {
            let s = t.subset_at(3, p, k);
            in0[k] = if s == 0 { 1 } else { 0 };
            in1[k] = if s == 1 { 1 } else { 0 };
            k = k + 1;
        }
        let lo = mask_of_bits(&in0);
        let hi = mask_of_bits(&in1);
        proof {
            lemma2_to64();
            lemma_u64_append(lo, hi, 16, 16);
        }
        let m = lo | (hi << 16);
        proof {
            assert forall|j: nat| j < 16 implies #[trigger] nat_field(m as nat, j, 1) == (if t.subset(3, p as int, j as int) == 0 { 1nat } else { 0 })
                && nat_field(m as nat, 16 + j, 1) == (if t.subset(3, p as int, j as int) == 1 { 1nat } else { 0 }) by {
                lemma_field_shift(m as nat, 16, j, 1);
                lemma_field_truncate(m as nat / pow2(16), 16, j, 1);
            }
        }
        masks[p] = m as u32;
        p = p + 1;
    }
    masks
}


/// The masks of the texels that want each of the three subsets.
fn desired_masks(d: &[u8; 16]) -> (m: [u64; 3])
    requires
        forall|k: int| 0 <= k < 16 ==> d[k] < 3,
    ensures
        forall|i: int| 0 <= i < 3 ==> #[trigger] m[i] < pow2(16),
        forall|i: int, k: nat| 0 <= i < 3 && k < 16 ==> #[trigger] nat_field(m[i] as nat, k, 1) == (if d[k as int] == i { 1nat } else { 0 }),
{
    let mut m = [0u64; 3];
    let mut i: usize = 0;
    while i < 3
        invariant
            i <= 3,
            forall|q: int| 0 <= q < i ==> #[trigger] m[q] < pow2(16),
            forall|q: int, k: nat| 0 <= q < i && k < 16 ==> #[trigger] nat_field(m[q] as nat, k, 1) == (if d[k as int] == q { 1nat } else { 0 }),
        decreases 3 - i,
    {
        let mut bits = [0u64; 16];
        let mut k: usize = 0;
        while k < 16
            invariant
                i < 3,
                k <= 16,
                forall|j: int| 0 <= j < 16 ==> bits[j] < 2,
                forall|j: int| 0 <= j < k ==> #[trigger] bits[j] == (if d[j] == i { 1u64 } else { 0 }),
            decreases 16 - k,
        {
            bits[k] = if d[k] as usize == i { 1 } else { 0 };
            k = k + 1;
        }
        m[i] = mask_of_bits(&bits);
        i = i + 1;
    }
    m
}

/// The number of set bits of a 16-bit mask.
pub(crate) fn popcount16(x: u64) -> (r: i32)
    requires
        x < pow2(16),
    ensures
        r == popcount(x as nat, 16),
        0 <= r <= 16,
{
    let mut r: i32 = 0;
    let mut k: u64 = 0;
    while k < 16
        invariant
            k <= 16,
            r == popcount(x as nat, k as nat),
            0 <= r <= k,
        decreases 16 - k,
    {
        proof {
            lemma2_to64();
            lemma_u64_shr_mask(x, k, 1, 1);
            assert(nat_field(x as nat, k as nat, 1) < 2) by {
                vstd::arithmetic::div_mod::lemma_mod_bound((x as nat / pow2(k as nat)) as int, 2);
            }
        }
        r = r + ((x >> k) & 1) as i32;
        k = k + 1;
    }
    r
}

/// Counting the shared bits of a split mask and a pattern mask counts the
/// texels the split and the pattern put in those subsets.
proof fn lemma_popcount_and(a: u64, b: u64, d: [u8; 16], t: Bc7Partitions, p: int, i: nat, j: nat, n: nat)
    requires
        n <= 16,
        forall|k: nat| k < 16 ==> #[trigger] nat_field(a as nat, k, 1) == (if d[k as int] == i { 1nat } else { 0 }),
        forall|k: nat| k < 16 ==> #[trigger] nat_field(b as nat, k, 1) == (if t.subset(3, p, k as int) == j { 1nat } else { 0 }),
    ensures
        popcount((a & b) as nat, n) == overlap(d, t, p, i, j, n),
    decreases n,
{
    if n > 0 {
        let k = (n - 1) as nat;
        lemma_popcount_and(a, b, d, t, p, i, j, k);
        lemma2_to64();
        let kk: u64 = k as u64;
        assert(kk as nat == k);
        let ab: u64 = a & b;
        lemma_and_bit(a, b, kk);
        lemma_u64_shr_mask(ab, kk, 1, 1);
        lemma_u64_shr_mask(a, kk, 1, 1);
        lemma_u64_shr_mask(b, kk, 1, 1);
        let fa = (a >> kk) & 1;
        let fb = (b >> kk) & 1;
        assert(fa as nat == nat_field(a as nat, k, 1));
        assert(fb as nat == nat_field(b as nat, k, 1));
        assert((ab >> kk) & 1 == fa * fb);
        assert(nat_field(ab as nat, k, 1) == fa * fb);
        if d[k as int] == i && t.subset(3, p, k as int) == j {
            assert(fa * fb == 1) by (nonlinear_arith)
                requires
                    fa == 1,
                    fb == 1,
            ;
        } else if d[k as int] == i {
            assert(fa * fb == 0) by (nonlinear_arith)
                requires
                    fb == 0,
            ;
        } else {
            assert(fa * fb == 0) by (nonlinear_arith)
                requires
                    fa == 0,
            ;
        }
        assert(hit(d, t, p, i, j, k as int) == nat_field(ab as nat, k, 1));
        assert(popcount(ab as nat, n) == popcount(ab as nat, k) + nat_field(ab as nat, k, 1));
        assert(overlap(d, t, p, i, j, n) == overlap(d, t, p, i, j, k) + hit(d, t, p, i, j, k as int));
    }
}

/// The texels that want subset `i` fall in one of the pattern's three subsets.
proof fn lemma_popcount_members(a: u64, d: [u8; 16], t: Bc7Partitions, p: int, i: nat, n: nat)
    requires
        t.wf(),
        0 <= p < 64,
        n <= 16,
        forall|k: nat| k < 16 ==> #[trigger] nat_field(a as nat, k, 1) == (if d[k as int] == i { 1nat } else { 0 }),
    ensures
        popcount(a as nat, n) == overlap(d, t, p, i, 0, n) + overlap(d, t, p, i, 1, n) + overlap(d, t, p, i, 2, n),
    decreases n,
{
    if n > 0 {
        let k = (n - 1) as nat;
        lemma_popcount_members(a, d, t, p, i, k);
        t.lemma_ranges();
        assert(t.subset(3, p, k as int) < 3);
        assert(nat_field(a as nat, k, 1) == (if d[k as int] == i { 1nat } else { 0 }));
    }
}

/// The three desired subsets are disjoint, so any pairing matches at most
/// one texel per texel.
proof fn lemma_overlap_sum_bound(d: [u8; 16], t: Bc7Partitions, p: int, a: nat, b: nat, c: nat, n: nat)
    ensures
        overlap(d, t, p, 0, a, n) + overlap(d, t, p, 1, b, n) + overlap(d, t, p, 2, c, n) <= n,
    decreases n,
{
    if n > 0 {
        lemma_overlap_sum_bound(d, t, p, a, b, c, (n - 1) as nat);
    }
}

/// No pattern scores more than the sixteen texels.
proof fn lemma_score_bound(d: [u8; 16], t: Bc7Partitions, p: int)
    ensures
        pattern_score(d, t, p) <= 16,
{
    lemma_overlap_sum_bound(d, t, p, 0, 1, 2, 16);
    lemma_overlap_sum_bound(d, t, p, 0, 2, 1, 16);
    lemma_overlap_sum_bound(d, t, p, 1, 0, 2, 16);
    lemma_overlap_sum_bound(d, t, p, 1, 2, 0, 16);
    lemma_overlap_sum_bound(d, t, p, 2, 0, 1, 16);
    lemma_overlap_sum_bound(d, t, p, 2, 1, 0, 16);
}

/// Once a pattern matches every texel, no later pattern displaces it.
proof fn lemma_best_stays(d: [u8; 16], t: Bc7Partitions, p: nat, n: nat)
    requires
        p < n,
        best_pattern(d, t, p + 1) == p,
        pattern_score(d, t, p as int) == 16,
    ensures
        best_pattern(d, t, n) == p,
    decreases n,
{
    if n > p + 1 {
        lemma_best_stays(d, t, p, (n - 1) as nat);
        lemma_score_bound(d, t, (n - 1) as int);
    }
}

/// The first of the sixty-four three-subset patterns that agrees with the
/// desired split on the most texels; the first of the first sixteen patterns
/// (the ones mode 0 can name) goes to `best_pat_index_first16`.
pub fn pick_3subset_pat_index(
    desired_subsets: &[u8; 16],
    t: &Bc7Partitions,
    masks: &[u32; 64],
    best_pat_index_first16: &mut u32,
) -> (best: i32)
    requires
        t.wf(),
        masks_of(*t, *masks),
        forall|k: int| 0 <= k < 16 ==> desired_subsets[k] < 3,
    ensures
        best == best_pattern(*desired_subsets, *t, 64),
        *final(best_pat_index_first16) == best_pattern(*desired_subsets, *t, 16),
{
    let ghost d = *desired_subsets;
    *best_pat_index_first16 = 0;
    let m = desired_masks(desired_subsets);
    let n0 = popcount16(m[0]);
    let n1 = popcount16(m[1]);
    let n2 = 16 - n0 - n1;
    proof {
        lemma_popcount_members(m[0], d, *t, 0, 0, 16);
    }
    let mut best_score: i32 = -1;
    let mut best_pat: i32 = 0;
    let mut p: usize = 0;
    while p < 64
        invariant
            t.wf(),
            masks_of(*t, *masks),
            d == *desired_subsets,
            forall|k: int| 0 <= k < 16 ==> d[k] < 3,
            forall|i: int| 0 <= i < 3 ==> #[trigger] m[i] < pow2(16),
            forall|i: int, k: nat| 0 <= i < 3 && k < 16 ==> #[trigger] nat_field(m[i] as nat, k, 1) == (if d[k as int] == i { 1nat } else { 0 }),
            n0 == popcount(m[0] as nat, 16),
            n1 == popcount(m[1] as nat, 16),
            n2 == 16 - n0 - n1,
            0 <= n0 <= 16,
            0 <= n1 <= 16,
            p <= 64,
            p == 0 ==> best_score == -1 && best_pat == 0,
            p >= 1 ==> best_pat == best_pattern(d, *t, p as nat) && best_score == pattern_score(d, *t, best_pat as int),
            p >= 1 ==> best_score < 16,
            0 <= best_pat < 64,
            p > 15 ==> *best_pat_index_first16 == best_pattern(d, *t, 16),
        decreases 64 - p,
    {
        proof {
            lemma2_to64();
        }
        let s = score_pattern(desired_subsets, t, masks, p, &m, n0, n1, n2);
        proof {
            lemma_score_bound(d, *t, p as int);
        }

        if s > best_score {
            best_score = s;
            best_pat = p as i32;
            if s == 16 {
                proof {
                    lemma_best_stays(d, *t, p as nat, 64);
                    if p <= 15 {
                        lemma_best_stays(d, *t, p as nat, 16);
                    }
                }
                if p <= 15 {
                    *best_pat_index_first16 = best_pat as u32;
                }
                return best_pat;
            }
        }
        if p == 15 {
            *best_pat_index_first16 = best_pat as u32;
        }
        p = p + 1;
    }
    best_pat
}

/// The score of pattern `p` against the split whose masks are `m`, with
/// `n0`, `n1`, `n2` texels wanting each subset.
#[verifier::spinoff_prover]
#[verifier::rlimit(40)]
fn score_pattern(
    desired_subsets: &[u8; 16],
    t: &Bc7Partitions,
    masks: &[u32; 64],
    p: usize,
    m: &[u64; 3],
    n0: i32,
    n1: i32,
    n2: i32,
) -> (s: i32)
    requires
        t.wf(),
        masks_of(*t, *masks),
        p < 64,
        forall|k: int| 0 <= k < 16 ==> desired_subsets[k] < 3,
        forall|i: int| 0 <= i < 3 ==> #[trigger] m[i] < pow2(16),
        forall|i: int, k: nat| 0 <= i < 3 && k < 16 ==> #[trigger] nat_field(m[i] as nat, k, 1) == (if desired_subsets[k as int] == i { 1nat } else { 0 }),
        n0 == popcount(m[0] as nat, 16),
        n1 == popcount(m[1] as nat, 16),
        n2 == 16 - n0 - n1,
    ensures
        s == pattern_score(*desired_subsets, *t, p as int),
{
    let ghost d = *desired_subsets;
    proof {
        lemma2_to64();
    }
    let mk = masks[p] as u64;
    proof {
        lemma_u64_shr_is_div(mk, 0);
        lemma_u64_shr_mask(mk, 0, 16, 0xFFFF);
        lemma_u64_shr_is_div(mk, 16);
        crate::bitfield::lemma_div_pow2_bound(mk as nat, 16, 16);
    }
    let s0 = mk & 0xFFFF;
    let s1 = mk >> 16;
    proof {
        assert forall|k: nat| k < 16 implies #[trigger] nat_field(s0 as nat, k, 1) == (if t.subset(3, p as int, k as int) == 0 { 1nat } else { 0 }) by {
            lemma_field_truncate(mk as nat, 16, k, 1);
            assert(nat_field(masks[p as int] as nat, k, 1) == (if t.subset(3, p as int, k as int) == 0 { 1nat } else { 0 }));
        }
        assert forall|k: nat| k < 16 implies #[trigger] nat_field(s1 as nat, k, 1) == (if t.subset(3, p as int, k as int) == 1 { 1nat } else { 0 }) by {
            lemma_field_shift(mk as nat, 16, k, 1);
            assert(nat_field(masks[p as int] as nat, k, 1) == (if t.subset(3, p as int, k as int) == 0 { 1nat } else { 0 }));
        }
        lemma_and_bit(m[0], s0, 0);
        lemma_and_bit(m[0], s1, 0);
        lemma_and_bit(m[1], s0, 0);
        lemma_and_bit(m[1], s1, 0);
        lemma_and_bit(m[2], s0, 0);
        lemma_and_bit(m[2], s1, 0);
        lemma_popcount_and(m[0], s0, d, *t, p as int, 0, 0, 16);
        lemma_popcount_and(m[0], s1, d, *t, p as int, 0, 1, 16);
        lemma_popcount_and(m[1], s0, d, *t, p as int, 1, 0, 16);
        lemma_popcount_and(m[1], s1, d, *t, p as int, 1, 1, 16);
        lemma_popcount_and(m[2], s0, d, *t, p as int, 2, 0, 16);
        lemma_popcount_and(m[2], s1, d, *t, p as int, 2, 1, 16);
        lemma_popcount_members(m[0], d, *t, p as int, 0, 16);
        lemma_popcount_members(m[1], d, *t, p as int, 1, 16);
        lemma_popcount_members(m[2], d, *t, p as int, 2, 16);
        lemma_overlap_sum_bound(d, *t, p as int, 0, 0, 0, 16);
        lemma_overlap_sum_bound(d, *t, p as int, 1, 1, 1, 16);
        lemma_overlap_sum_bound(d, *t, p as int, 2, 2, 2, 16);
        lemma_members_total(d, m[0], m[1], m[2], 16);
    }
    let c00 = popcount16(m[0] & s0);
    let c01 = popcount16(m[0] & s1);
    let c02 = n0 - c00 - c01;
    let c10 = popcount16(m[1] & s0);
    let c11 = popcount16(m[1] & s1);
    let c12 = n1 - c10 - c11;
    let c20 = popcount16(m[2] & s0);
    let c21 = popcount16(m[2] & s1);
    let c22 = n2 - c20 - c21;
    let mut s = c00 + c11 + c22;
    if c00 + c12 + c21 > s {
        s = c00 + c12 + c21;
    }
    if c01 + c10 + c22 > s {
        s = c01 + c10 + c22;
    }
    if c01 + c12 + c20 > s {
        s = c01 + c12 + c20;
    }
    if c02 + c10 + c21 > s {
        s = c02 + c10 + c21;
    }
    if c02 + c11 + c20 > s {
        s = c02 + c11 + c20;
    }
    s
}

/// Every texel wants exactly one of the three subsets.
proof fn lemma_members_total(d: [u8; 16], m0: u64, m1: u64, m2: u64, n: nat)
    requires
        n <= 16,
        forall|k: int| 0 <= k < 16 ==> d[k] < 3,
        forall|k: nat| k < 16 ==> #[trigger] nat_field(m0 as nat, k, 1) == (if d[k as int] == 0 { 1nat } else { 0 }),
        forall|k: nat| k < 16 ==> #[trigger] nat_field(m1 as nat, k, 1) == (if d[k as int] == 1 { 1nat } else { 0 }),
        forall|k: nat| k < 16 ==> #[trigger] nat_field(m2 as nat, k, 1) == (if d[k as int] == 2 { 1nat } else { 0 }),
    ensures
        popcount(m0 as nat, n) + popcount(m1 as nat, n) + popcount(m2 as nat, n) == n,
    decreases n,
{
    if n > 0 {
        let k = (n - 1) as nat;
        lemma_members_total(d, m0, m1, m2, k);
        assert(nat_field(m0 as nat, k, 1) == (if d[k as int] == 0 { 1nat } else { 0 }));
        assert(nat_field(m1 as nat, k, 1) == (if d[k as int] == 1 { 1nat } else { 0 }));
        assert(nat_field(m2 as nat, k, 1) == (if d[k as int] == 2 { 1nat } else { 0 }));
    }
}


/// How many of the first `n` texels are in half `s` of a two-way split.
pub open spec fn half_count(h: [bool; 16], s: bool, n: nat) -> nat
    decreases n,
{
    if n == 0 { 0 } else { half_count(h, s, (n - 1) as nat) + if h[n - 1] == s { 1nat } else { 0 } }
}

/// The sum of channel `c` over the first `n` texels in half `s`.
pub open spec fn half_channel_sum(px: [Rgba; 16], h: [bool; 16], s: bool, c: int, n: nat) -> nat
    decreases n,
{
    if n == 0 { 0 } else { half_channel_sum(px, h, s, c, (n - 1) as nat) + if h[n - 1] == s { px[n - 1][c] as nat } else { 0 } }
}

/// The rounded mean of channel `c` over half `s`.
pub open spec fn half_mean(px: [Rgba; 16], h: [bool; 16], s: bool, c: int) -> int {
    let t = half_count(h, s, 16);
    ((half_channel_sum(px, h, s, c, 16) + t / 2) / t) as int
}

/// The squared RGB distance between two colors.
pub open spec fn sq_dist(r0: int, g0: int, b0: int, r1: int, g1: int, b1: int) -> int {
    (r1 - r0) * (r1 - r0) + (g1 - g0) * (g1 - g0) + (b1 - b0) * (b1 - b0)
}

/// The squared distance of texel `k` from the mean color of half `s`.
pub open spec fn mean_dist(px: [Rgba; 16], h: [bool; 16], s: bool, k: int) -> int {
    sq_dist(px[k][0] as int, px[k][1] as int, px[k][2] as int, half_mean(px, h, s, 0), half_mean(px, h, s, 1), half_mean(px, h, s, 2))
}

/// The squared error of the first `n` texels of half `s` about that half's
/// mean color.
pub open spec fn half_sse(px: [Rgba; 16], h: [bool; 16], s: bool, n: nat) -> int
    decreases n,
{
    if n == 0 { 0 } else { half_sse(px, h, s, (n - 1) as nat) + if h[n - 1] == s { mean_dist(px, h, s, n - 1) } else { 0 } }
}

/// The ordering key of texel `k`: sixteen times its channel sum, plus `k`.
pub open spec fn luma_key(px: [Rgba; 16], k: int) -> int {
    16 * (px[k][0] + px[k][1] + px[k][2]) + k
}

/// The smallest key among the first `n` texels of half `s` (`i32::MAX` if
/// none).
pub open spec fn low_key(px: [Rgba; 16], h: [bool; 16], s: bool, n: nat) -> int
    decreases n,
{
    if n == 0 {
        i32::MAX as int
    } else {
        let p = low_key(px, h, s, (n - 1) as nat);
        if h[n - 1] == s && luma_key(px, n - 1) < p { luma_key(px, n - 1) } else { p }
    }
}

/// The largest key among the first `n` texels of half `s` (0 if none).
pub open spec fn high_key(px: [Rgba; 16], h: [bool; 16], s: bool, n: nat) -> int
    decreases n,
{
    if n == 0 {
        0
    } else {
        let p = high_key(px, h, s, (n - 1) as nat);
        if h[n - 1] == s && luma_key(px, n - 1) > p { luma_key(px, n - 1) } else { p }
    }
}

/// The half that gets split again: the one with the larger error, the second
/// on a tie.
pub open spec fn split_half(px: [Rgba; 16], h: [bool; 16]) -> bool {
    half_sse(px, h, true, 16) > half_sse(px, h, false, 16)
}

/// Whether a two-way split can be refined into three subsets: both halves
/// are used and the half to split has two texels.
pub open spec fn three_subsets_ok(px: [Rgba; 16], h: [bool; 16]) -> bool {
    &&& half_count(h, false, 16) > 0
    &&& half_count(h, true, 16) > 0
    &&& half_count(h, split_half(px, h), 16) >= 2
}

/// The subset of texel `i` after refining: the other half is subset 2; the
/// split half goes to subset 1 where its texel is nearer its darkest texel
/// than its brightest, else to subset 0.
pub open spec fn third_subset(px: [Rgba; 16], h: [bool; 16], i: int) -> u8 {
    let s = split_half(px, h);
    if h[i] == s {
        let lo = low_key(px, h, s, 16) % 16;
        let hi = high_key(px, h, s, 16) % 16;
        let d0 = sq_dist(px[lo][0] as int, px[lo][1] as int, px[lo][2] as int, px[i][0] as int, px[i][1] as int, px[i][2] as int);
        let d1 = sq_dist(px[hi][0] as int, px[hi][1] as int, px[hi][2] as int, px[i][0] as int, px[i][1] as int, px[i][2] as int);
        if d1 > d0 { 1 } else { 0 }
    } else {
        2
    }
}

/// The smallest key is a member's key and no member's key is smaller; the
/// same for the largest key.
proof fn lemma_key_extremes(px: [Rgba; 16], h: [bool; 16], s: bool, n: nat)
    requires
        n <= 16,
    ensures
        forall|k: int| 0 <= k < n && h[k] == s ==> low_key(px, h, s, n) <= #[trigger] luma_key(px, k) <= high_key(px, h, s, n),
        half_count(h, s, n) >= 1 ==> exists|k: int| 0 <= k < n && h[k] == s && luma_key(px, k) == low_key(px, h, s, n),
        half_count(h, s, n) >= 1 ==> exists|k: int| 0 <= k < n && h[k] == s && luma_key(px, k) == high_key(px, h, s, n),
        half_count(h, s, n) == 0 ==> low_key(px, h, s, n) == i32::MAX && high_key(px, h, s, n) == 0,
        0 <= high_key(px, h, s, n),
    decreases n,
{
    if n > 0 {
        let m = (n - 1) as nat;
        lemma_key_extremes(px, h, s, m);
        let k = n - 1;
        assert(0 <= luma_key(px, k) <= 16 * 765 + 15);
        if half_count(h, s, n) >= 1 {
            if half_count(h, s, m) == 0 {
                assert(h[k] == s);
                assert(luma_key(px, k) == low_key(px, h, s, n));
                assert(luma_key(px, k) == high_key(px, h, s, n));
            } else {
                let a = choose|a: int| 0 <= a < m && h[a] == s && luma_key(px, a) == low_key(px, h, s, m);
                let b = choose|b: int| 0 <= b < m && h[b] == s && luma_key(px, b) == high_key(px, h, s, m);
                if h[k] == s && luma_key(px, k) < low_key(px, h, s, m) {
                    assert(luma_key(px, k) == low_key(px, h, s, n));
                } else {
                    assert(luma_key(px, a) == low_key(px, h, s, n));
                }
                if h[k] == s && luma_key(px, k) > high_key(px, h, s, m) {
                    assert(luma_key(px, k) == high_key(px, h, s, n));
                } else {
                    assert(luma_key(px, b) == high_key(px, h, s, n));
                }
            }
        }
    }
}

/// No texel of an empty half.
proof fn lemma_count_zero(h: [bool; 16], s: bool, n: nat)
    requires
        n <= 16,
        half_count(h, s, n) == 0,
    ensures
        forall|j: int| 0 <= j < n ==> h[j] != s,
    decreases n,
{
    if n > 0 {
        lemma_count_zero(h, s, (n - 1) as nat);
    }
}

/// A half of two or more texels holds two different texels.
proof fn lemma_two_members(h: [bool; 16], s: bool, n: nat)
    requires
        n <= 16,
        half_count(h, s, n) >= 2,
    ensures
        exists|a: int, b: int| 0 <= a < b < n && h[a] == s && h[b] == s,
    decreases n,
{
    if half_count(h, s, (n - 1) as nat) >= 2 {
        lemma_two_members(h, s, (n - 1) as nat);
        let (a, b) = choose|a: int, b: int| 0 <= a < b < n - 1 && h[a] == s && h[b] == s;
        assert(0 <= a < b < n && h[a] == s && h[b] == s);
    } else {
        assert(h[n - 1] == s);
        lemma_one_member(h, s, (n - 1) as nat);
        let a = choose|a: int| 0 <= a < n - 1 && h[a] == s;
        assert(0 <= a < n - 1 < n && h[a] == s && h[n - 1] == s);
    }
}

/// A half of one texel or more holds a texel.
proof fn lemma_one_member(h: [bool; 16], s: bool, n: nat)
    requires
        n <= 16,
        half_count(h, s, n) >= 1,
    ensures
        exists|a: int| 0 <= a < n && h[a] == s,
    decreases n,
{
    if half_count(h, s, (n - 1) as nat) >= 1 {
        lemma_one_member(h, s, (n - 1) as nat);
        let a = choose|a: int| 0 <= a < n - 1 && h[a] == s;
        assert(0 <= a < n && h[a] == s);
    } else {
        assert(h[n - 1] == s);
    }
}

/// A texel's key holds its index in the low four bits.
proof fn lemma_key_index(px: [Rgba; 16], k: int)
    requires
        0 <= k < 16,
    ensures
        luma_key(px, k) % 16 == k,
{
    let sum = (px[k][0] + px[k][1] + px[k][2]) as int;
    vstd::arithmetic::div_mod::lemma_fundamental_div_mod_converse(luma_key(px, k), 16, sum, k);
}

/// In a half of two or more texels the darkest and brightest texels differ.
#[verifier::spinoff_prover]
proof fn lemma_extremes_differ(px: [Rgba; 16], h: [bool; 16], s: bool)
    requires
        half_count(h, s, 16) >= 2,
    ensures
        low_key(px, h, s, 16) % 16 != high_key(px, h, s, 16) % 16,
{
    lemma_key_extremes(px, h, s, 16);
    lemma_two_members(h, s, 16);
    let (a, b) = choose|a: int, b: int| 0 <= a < b < 16 && h[a] == s && h[b] == s;
    lemma_key_index(px, a);
    lemma_key_index(px, b);
    let k1 = choose|k: int| 0 <= k < 16 && h[k] == s && luma_key(px, k) == low_key(px, h, s, 16);
    let k2 = choose|k: int| 0 <= k < 16 && h[k] == s && luma_key(px, k) == high_key(px, h, s, 16);
    assert(low_key(px, h, s, 16) <= luma_key(px, a) && luma_key(px, b) <= high_key(px, h, s, 16));
    assert(low_key(px, h, s, 16) <= luma_key(px, b) && luma_key(px, a) <= high_key(px, h, s, 16));
    assert(low_key(px, h, s, 16) < high_key(px, h, s, 16));
    lemma_key_index(px, k1);
    lemma_key_index(px, k2);
}

/// A half's channel sum is at most 255 per texel in it.
proof fn lemma_half_sum_bound(px: [Rgba; 16], h: [bool; 16], s: bool, c: int, n: nat)
    requires
        0 <= c < 4,
        n <= 16,
    ensures
        half_channel_sum(px, h, s, c, n) <= 255 * half_count(h, s, n),
    decreases n,
{
    if n > 0 {
        lemma_half_sum_bound(px, h, s, c, (n - 1) as nat);
    }
}

/// Refine a two-way split of a block (`halves`, from the sign of each texel
/// along the block's principal axis) into three subsets: the half with the
/// larger error about its mean is split again between its darkest and its
/// brightest texel. False, with `final_3subsets` untouched, when the split
/// cannot be refined.
#[verifier::spinoff_prover]
#[verifier::rlimit(40)]
pub fn determine_3subsets(final_3subsets: &mut [u8; 16], pixels: &[Rgba; 16], halves: &[bool; 16]) -> (ok: bool)
    ensures
        ok == three_subsets_ok(*pixels, *halves),
        ok ==> forall|i: int| 0 <= i < 16 ==> #[trigger] final(final_3subsets)[i] == third_subset(*pixels, *halves, i),
        !ok ==> *final(final_3subsets) == *old(final_3subsets),
{
    let ghost px = *pixels;
    let ghost h = *halves;
    // Per-half counts and channel sums.
    let mut sums = [[0u32; 3]; 2];
    let mut total = [0u32; 2];
    let mut i: usize = 0;
    while i < 16
        invariant
            px == *pixels,
            h == *halves,
            i <= 16,
            total[0] == half_count(h, false, i as nat) && total[1] == half_count(h, true, i as nat),
            forall|c: int| 0 <= c < 3 ==> #[trigger] sums[0][c] == half_channel_sum(px, h, false, c, i as nat),
            forall|c: int| 0 <= c < 3 ==> #[trigger] sums[1][c] == half_channel_sum(px, h, true, c, i as nat),
            total[0] + total[1] == i,
            forall|c: int| 0 <= c < 3 ==> sums[0][c] <= 255 * i && sums[1][c] <= 255 * i,
        decreases 16 - i,
    {
        let s: usize = if halves[i] { 1 } else { 0 };
        let mut c: usize = 0;
        while c < 3
            invariant
                px == *pixels,
                h == *halves,
                i < 16,
                s == (if h[i as int] { 1usize } else { 0 }),
                c <= 3,
                total[0] == half_count(h, false, i as nat) && total[1] == half_count(h, true, i as nat),
                total[0] + total[1] == i,
                forall|cc: int| 0 <= cc < c ==> #[trigger] sums[0][cc] == half_channel_sum(px, h, false, cc, (i + 1) as nat),
                forall|cc: int| 0 <= cc < c ==> #[trigger] sums[1][cc] == half_channel_sum(px, h, true, cc, (i + 1) as nat),
                forall|cc: int| c <= cc < 3 ==> #[trigger] sums[0][cc] == half_channel_sum(px, h, false, cc, i as nat),
                forall|cc: int| c <= cc < 3 ==> #[trigger] sums[1][cc] == half_channel_sum(px, h, true, cc, i as nat),
                forall|cc: int| 0 <= cc < c ==> sums[0][cc] <= 255 * (i + 1) && sums[1][cc] <= 255 * (i + 1),
                forall|cc: int| c <= cc < 3 ==> sums[0][cc] <= 255 * i && sums[1][cc] <= 255 * i,
            decreases 3 - c,
        {
            sums[s][c] = sums[s][c] + pixels[i][c] as u32;
            c = c + 1;
        }
        total[s] = total[s] + 1;
        i = i + 1;
    }
    if total[0] == 0 || total[1] == 0 {
        return false;
    }
    proof {
        assert forall|c: int| 0 <= c < 3 implies sums[0][c] <= 255 * total[0] && sums[1][c] <= 255 * total[1] by {
            lemma_half_sum_bound(px, h, false, c, 16);
            lemma_half_sum_bound(px, h, true, c, 16);
        }
    }
    // Rounded means.
    let mut means = [[0i32; 3]; 2];
    let mut s: usize = 0;
    while s < 2
        invariant
            px == *pixels,
            h == *halves,
            s <= 2,
            total[0] == half_count(h, false, 16) && total[1] == half_count(h, true, 16),
            total[0] + total[1] == 16,
            total[0] > 0 && total[1] > 0,
            forall|c: int| 0 <= c < 3 ==> #[trigger] sums[0][c] == half_channel_sum(px, h, false, c, 16),
            forall|c: int| 0 <= c < 3 ==> #[trigger] sums[1][c] == half_channel_sum(px, h, true, c, 16),
            forall|c: int| 0 <= c < 3 ==> sums[0][c] <= 255 * total[0] && sums[1][c] <= 255 * total[1],
            forall|ss: int, c: int| 0 <= ss < s && 0 <= c < 3 ==> #[trigger] means[ss][c] == half_mean(px, h, ss == 1, c),
            forall|ss: int, c: int| 0 <= ss < s && 0 <= c < 3 ==> 0 <= #[trigger] means[ss][c] <= 255,
        decreases 2 - s,
    {
        let t = total[s];
        let mut c: usize = 0;
        while c < 3
            invariant
                px == *pixels,
                h == *halves,
                s < 2,
                t == total[s as int],
                t > 0,
                total[0] + total[1] == 16,
                total[0] == half_count(h, false, 16) && total[1] == half_count(h, true, 16),
                forall|c: int| 0 <= c < 3 ==> #[trigger] sums[0][c] == half_channel_sum(px, h, false, c, 16),
                forall|c: int| 0 <= c < 3 ==> #[trigger] sums[1][c] == half_channel_sum(px, h, true, c, 16),
                forall|c: int| 0 <= c < 3 ==> sums[0][c] <= 255 * total[0] && sums[1][c] <= 255 * total[1],
                c <= 3,
                forall|ss: int, cc: int| 0 <= ss < s && 0 <= cc < 3 ==> #[trigger] means[ss][cc] == half_mean(px, h, ss == 1, cc),
                forall|ss: int, cc: int| 0 <= ss < s && 0 <= cc < 3 ==> 0 <= #[trigger] means[ss][cc] <= 255,
                forall|cc: int| 0 <= cc < c ==> #[trigger] means[s as int][cc] == half_mean(px, h, s == 1, cc),
                forall|cc: int| 0 <= cc < c ==> 0 <= #[trigger] means[s as int][cc] <= 255,
            decreases 3 - c,
        {
            let sum = sums[s][c];
            proof {
                let si: int = sum as int;
                let ti: int = t as int;
                assert((si + ti / 2) / ti <= 255) by (nonlinear_arith)
                    requires
                        si <= 255 * ti,
                        ti > 0,
                ;
            }
            means[s][c] = ((sum + t / 2) / t) as i32;
            c = c + 1;
        }
        s = s + 1;
    }
    // Squared error of each half about its mean.
    let mut sse = [0i32; 2];
    let mut k: usize = 0;
    while k < 16
        invariant
            px == *pixels,
            h == *halves,
            k <= 16,
            forall|ss: int, c: int| 0 <= ss < 2 && 0 <= c < 3 ==> #[trigger] means[ss][c] == half_mean(px, h, ss == 1, c),
            forall|ss: int, c: int| 0 <= ss < 2 && 0 <= c < 3 ==> 0 <= #[trigger] means[ss][c] <= 255,
            sse[0] == half_sse(px, h, false, k as nat),
            sse[1] == half_sse(px, h, true, k as nat),
            0 <= sse[0] <= 195075 * k,
            0 <= sse[1] <= 195075 * k,
        decreases 16 - k,
    {
        let s: usize = if halves[k] { 1 } else { 0 };
        let d = dist3(
            pixels[k][0] as i32,
            pixels[k][1] as i32,
            pixels[k][2] as i32,
            means[s][0],
            means[s][1],
            means[s][2],
        );
        proof {
            assert(d == mean_dist(px, h, s == 1, k as int));
            assert(0 <= d <= 195075) by (nonlinear_arith)
                requires
                    d == (means[s as int][0] - px[k as int][0]) * (means[s as int][0] - px[k as int][0])
                        + (means[s as int][1] - px[k as int][1]) * (means[s as int][1] - px[k as int][1])
                        + (means[s as int][2] - px[k as int][2]) * (means[s as int][2] - px[k as int][2]),
                    0 <= means[s as int][0] <= 255,
                    0 <= means[s as int][1] <= 255,
                    0 <= means[s as int][2] <= 255,
                    0 <= px[k as int][0] <= 255,
                    0 <= px[k as int][1] <= 255,
                    0 <= px[k as int][2] <= 255,
            ;
        }
        sse[s] = sse[s] + d;
        k = k + 1;
    }
    let split = sse[1] > sse[0];
    let si: usize = if split { 1 } else { 0 };
    if total[si] < 2 {
        return false;
    }
    // Darkest and brightest texel of the half to split.
    let mut lo_y: i32 = i32::MAX;
    let mut hi_y: i32 = 0;
    let mut k: usize = 0;
    while k < 16
        invariant
            px == *pixels,
            h == *halves,
            k <= 16,
            lo_y == low_key(px, h, split, k as nat),
            hi_y == high_key(px, h, split, k as nat),
            0 <= hi_y <= 12255,
            0 <= lo_y,
        decreases 16 - k,
    {
        if halves[k] == split {
            let y = (pixels[k][0] as i32 + pixels[k][1] as i32 + pixels[k][2] as i32) * 16 + k as i32;
            if y < lo_y {
                lo_y = y;
            }
            if y > hi_y {
                hi_y = y;
            }
        }
        k = k + 1;
    }
    let lo = (lo_y % 16) as usize;
    let hi = (hi_y % 16) as usize;
    proof {
        lemma_extremes_differ(px, h, split);
    }
    if lo == hi {
        return false;
    }
    let mut out = [2u8; 16];
    let mut k: usize = 0;
    while k < 16
        invariant
            px == *pixels,
            h == *halves,
            k <= 16,
            split == split_half(px, h),
            lo as int == low_key(px, h, split, 16) % 16,
            hi as int == high_key(px, h, split, 16) % 16,
            lo < 16 && hi < 16,
            forall|j: int| 0 <= j < k ==> #[trigger] out[j] == third_subset(px, h, j),
            forall|j: int| k <= j < 16 ==> #[trigger] out[j] == 2,
        decreases 16 - k,
    {
        if halves[k] == split {
            let d0 = dist3(
                pixels[lo][0] as i32,
                pixels[lo][1] as i32,
                pixels[lo][2] as i32,
                pixels[k][0] as i32,
                pixels[k][1] as i32,
                pixels[k][2] as i32,
            );
            let d1 = dist3(
                pixels[hi][0] as i32,
                pixels[hi][1] as i32,
                pixels[hi][2] as i32,
                pixels[k][0] as i32,
                pixels[k][1] as i32,
                pixels[k][2] as i32,
            );
            out[k] = if d1 > d0 { 1 } else { 0 };
        }
        k = k + 1;
    }
    *final_3subsets = out;
    true
}

} // verus!
