//! PVRTC1 block addressing: blocks are stored in Morton (twiddled) order. The
//! low `m` bits of the block coordinates are interleaved (y in the even bits,
//! x in the odd bits), where `2^m` is the shorter image side in blocks; the
//! remaining high bits of the longer side's coordinate follow above them.

use super::{bit_len, is_pow2, p2};
use vstd::arithmetic::div_mod::{
    lemma_basic_div, lemma_div_denominator, lemma_div_is_ordered_by_denominator,
    lemma_fundamental_div_mod, lemma_fundamental_div_mod_converse, lemma_mod_bound,
    lemma_mod_breakdown, lemma_small_mod,
};
use vstd::prelude::*;

verus! {

/// Interleave the low `m` bits of `x` and `y`: bit `k` of `y` lands at bit
/// `2k`, bit `k` of `x` at bit `2k + 1`.
pub open spec fn interleave(x: nat, y: nat, m: nat) -> nat
    decreases m,
{
    if m == 0 {
        0
    } else {
        y % 2 + 2 * (x % 2) + 4 * interleave(x / 2, y / 2, (m - 1) as nat)
    }
}

/// The twiddled index of block `(x, y)` when the shorter side is `2^m`
/// blocks: the interleaved low bits, then the longer side's high bits.
pub closed spec fn swz(x: nat, y: nat, m: nat) -> nat {
    interleave(x, y, m) + (x / p2(m) + y / p2(m)) * (p2(m) * p2(m))
}

/// Powers of two are positive.
pub proof fn lemma_p2_pos(m: nat)
    ensures
        p2(m) >= 1,
    decreases m,
{
    if m > 0 {
        lemma_p2_pos((m - 1) as nat);
    }
}

/// A power of two is `2^bit_len(n - 1)`.
pub proof fn lemma_pow2_bit_len(n: int)
    requires
        is_pow2(n),
    ensures
        p2(bit_len((n - 1) as nat)) == n,
    decreases n,
{
    if n != 1 {
        lemma_pow2_bit_len(n / 2);
        assert((n - 1) / 2 == n / 2 - 1);
    }
}

/// `2^a` divides `2^b` for `a <= b`.
pub proof fn lemma_p2_divides(a: nat, b: nat)
    requires
        a <= b,
    ensures
        p2(b) % p2(a) == 0,
        p2(b) == p2(a) * (p2(b) / p2(a)),
    decreases b,
{
    lemma_p2_pos(a);
    if a < b {
        lemma_p2_divides(a, (b - 1) as nat);
        let q = p2((b - 1) as nat) / p2(a);
        assert(p2(b) == p2(a) * (2 * q)) by (nonlinear_arith)
            requires
                p2(b) == 2 * p2((b - 1) as nat),
                p2((b - 1) as nat) == p2(a) * q,
        ;
        lemma_fundamental_div_mod_converse(p2(b) as int, p2(a) as int, (2 * q) as int, 0);
    } else {
        assert(p2(b) == p2(a) * 1);
        lemma_fundamental_div_mod_converse(p2(b) as int, p2(a) as int, 1, 0);
    }
}

/// The interleaved value has `2m` bits.
pub proof fn lemma_interleave_bound(x: nat, y: nat, m: nat)
    ensures
        interleave(x, y, m) < p2(m) * p2(m),
    decreases m,
{
    if m > 0 {
        let m1 = (m - 1) as nat;
        lemma_interleave_bound(x / 2, y / 2, m1);
        let i1 = interleave(x / 2, y / 2, m1);
        let pm = p2(m);
        let pm1 = p2(m1);
        let v = interleave(x, y, m);
        assert(pm == 2 * pm1);
        assert(v == y % 2 + 2 * (x % 2) + 4 * i1);
        assert(v < pm * pm) by (nonlinear_arith)
            requires
                v == y % 2 + 2 * (x % 2) + 4 * i1,
                y % 2 <= 1,
                x % 2 <= 1,
                i1 + 1 <= pm1 * pm1,
                pm == 2 * pm1,
        ;
        assert(interleave(x, y, m) < p2(m) * p2(m));
    } else {
        assert(p2(0) == 1);
        assert(interleave(x, y, 0) == 0);
        let pm = p2(m);
        assert(pm * pm == 1) by (nonlinear_arith)
            requires
                pm == 1,
        ;
    }
}

/// Only the low `m` bits of each coordinate take part in the interleave.
pub proof fn lemma_interleave_low(x: nat, y: nat, m: nat)
    ensures
        interleave(x, y, m) == interleave(x % p2(m), y % p2(m), m),
    decreases m,
{
    if m > 0 {
        let m1 = (m - 1) as nat;
        lemma_p2_pos(m1);
        lemma_interleave_low(x / 2, y / 2, m1);
        lemma_interleave_low(x % p2(m) / 2, y % p2(m) / 2, m1);
        assert(p2(m) == 2 * p2(m1));
        lemma_mod_breakdown(x as int, 2, p2(m1) as int);
        lemma_mod_breakdown(y as int, 2, p2(m1) as int);
        let xr = x % p2(m);
        let yr = y % p2(m);
        assert(xr == 2 * ((x / 2) % p2(m1)) + x % 2);
        assert(yr == 2 * ((y / 2) % p2(m1)) + y % 2);
        assert(xr % 2 == x % 2 && xr / 2 == (x / 2) % p2(m1)) by {
            lemma_fundamental_div_mod_converse(xr as int, 2, ((x / 2) % p2(m1)) as int, (x % 2) as int);
        }
        assert(yr % 2 == y % 2 && yr / 2 == (y / 2) % p2(m1)) by {
            lemma_fundamental_div_mod_converse(yr as int, 2, ((y / 2) % p2(m1)) as int, (y % 2) as int);
        }
        lemma_mod_bound((x / 2) as int, p2(m1) as int);
        lemma_mod_bound((y / 2) as int, p2(m1) as int);
        lemma_small_mod((x / 2) % p2(m1), p2(m1));
        lemma_small_mod((y / 2) % p2(m1), p2(m1));
    }
}

/// Interleaving is injective on `m`-bit coordinates.
pub proof fn lemma_interleave_injective(x1: nat, y1: nat, x2: nat, y2: nat, m: nat)
    requires
        x1 < p2(m),
        y1 < p2(m),
        x2 < p2(m),
        y2 < p2(m),
        interleave(x1, y1, m) == interleave(x2, y2, m),
    ensures
        x1 == x2,
        y1 == y2,
    decreases m,
{
    if m > 0 {
        let m1 = (m - 1) as nat;
        let l1 = y1 % 2 + 2 * (x1 % 2);
        let l2 = y2 % 2 + 2 * (x2 % 2);
        let i1 = interleave(x1 / 2, y1 / 2, m1);
        let i2 = interleave(x2 / 2, y2 / 2, m1);
        lemma_fundamental_div_mod_converse((l1 + 4 * i1) as int, 4, i1 as int, l1 as int);
        lemma_fundamental_div_mod_converse((l2 + 4 * i2) as int, 4, i2 as int, l2 as int);
        assert(l1 == l2 && i1 == i2);
        lemma_interleave_injective(x1 / 2, y1 / 2, x2 / 2, y2 / 2, m1);
    }
}

/// The twiddled index of every block of an `nbx x nby` image lies below
/// `nbx * nby`, and distinct blocks get distinct indices.
pub proof fn lemma_swz_in_range_and_distinct(nbx: nat, nby: nat, m: nat, x1: nat, y1: nat, x2: nat, y2: nat)
    requires
        p2(m) == if nbx <= nby { nbx } else { nby },
        nbx % p2(m) == 0,
        nby % p2(m) == 0,
        x1 < nbx,
        y1 < nby,
        x2 < nbx,
        y2 < nby,
    ensures
        swz(x1, y1, m) < nbx * nby,
        swz(x1, y1, m) == swz(x2, y2, m) ==> x1 == x2 && y1 == y2,
{
    let pm = p2(m);
    lemma_p2_pos(m);
    let s = pm * pm;
    assert(s > 0) by (nonlinear_arith)
        requires
            pm >= 1,
            s == pm * pm,
    ;
    lemma_interleave_bound(x1, y1, m);
    lemma_interleave_bound(x2, y2, m);
    let q1 = x1 / pm + y1 / pm;
    let q2 = x2 / pm + y2 / pm;
    let i1 = interleave(x1, y1, m);
    let i2 = interleave(x2, y2, m);
    // Range: the long side contributes at most (side / pm - 1) whole squares.
    if nbx <= nby {
        lemma_basic_div(x1 as int, pm as int);
        let a = nby / pm;
        lemma_fundamental_div_mod(nby as int, pm as int);
        assert(y1 / pm <= a - 1) by {
            lemma_fundamental_div_mod(y1 as int, pm as int);
            assert(pm * (y1 / pm) <= y1) by (nonlinear_arith)
                requires
                    y1 == pm * (y1 / pm) + y1 % pm,
                    y1 % pm >= 0,
            ;
            assert(y1 / pm < a) by (nonlinear_arith)
                requires
                    pm * (y1 / pm) <= y1,
                    y1 < nby,
                    nby == pm * a,
                    pm >= 1,
            ;
        }
        assert(i1 + q1 * s < nbx * nby) by (nonlinear_arith)
            requires
                i1 < s,
                q1 <= a - 1,
                q1 >= 0,
                s == pm * pm,
                nbx == pm,
                nby == pm * a,
        ;
    } else {
        lemma_basic_div(y1 as int, pm as int);
        let a = nbx / pm;
        lemma_fundamental_div_mod(nbx as int, pm as int);
        assert(x1 / pm <= a - 1) by {
            lemma_fundamental_div_mod(x1 as int, pm as int);
            assert(pm * (x1 / pm) <= x1) by (nonlinear_arith)
                requires
                    x1 == pm * (x1 / pm) + x1 % pm,
                    x1 % pm >= 0,
            ;
            assert(x1 / pm < a) by (nonlinear_arith)
                requires
                    pm * (x1 / pm) <= x1,
                    x1 < nbx,
                    nbx == pm * a,
                    pm >= 1,
            ;
        }
        assert(i1 + q1 * s < nbx * nby) by (nonlinear_arith)
            requires
                i1 < s,
                q1 <= a - 1,
                q1 >= 0,
                s == pm * pm,
                nby == pm,
                nbx == pm * a,
        ;
    }
    // Distinctness: quotient and remainder by pm*pm identify the parts.
    if swz(x1, y1, m) == swz(x2, y2, m) {
        lemma_fundamental_div_mod_converse((q1 * s + i1) as int, s as int, q1 as int, i1 as int);
        lemma_fundamental_div_mod_converse((q2 * s + i2) as int, s as int, q2 as int, i2 as int);
        assert(q1 == q2 && i1 == i2);
        lemma_interleave_low(x1, y1, m);
        lemma_interleave_low(x2, y2, m);
        lemma_interleave_injective(x1 % pm, y1 % pm, x2 % pm, y2 % pm, m);
        lemma_fundamental_div_mod(x1 as int, pm as int);
        lemma_fundamental_div_mod(x2 as int, pm as int);
        lemma_fundamental_div_mod(y1 as int, pm as int);
        lemma_fundamental_div_mod(y2 as int, pm as int);
        if nbx <= nby {
            lemma_basic_div(x1 as int, pm as int);
            lemma_basic_div(x2 as int, pm as int);
            lemma_small_mod(x1, pm);
            lemma_small_mod(x2, pm);
        } else {
            lemma_basic_div(y1 as int, pm as int);
            lemma_basic_div(y2 as int, pm as int);
            lemma_small_mod(y1, pm);
            lemma_small_mod(y2, pm);
        }
    }
}

/// The twiddled block index of `(x, y)` with `2^m` the shorter side.
pub fn swizzle(x: u32, y: u32, m: u32) -> (r: u64)
    requires
        m <= 16,
        x <= 0x10000,
        y <= 0x10000,
    ensures
        r == swz(x as nat, y as nat, m as nat),
{
    let mut xs: u64 = x as u64;
    let mut ys: u64 = y as u64;
    let mut scale: u64 = 1;
    let mut bit: u64 = 1;
    let mut r: u64 = 0;
    let mut k: u32 = 0;
    proof {
        reveal_with_fuel(p2, 17);
    }
    while k < m
        invariant
            k <= m,
            m <= 16,
            x <= 0x10000,
            y <= 0x10000,
            bit == p2(k as nat),
            scale == p2(k as nat) * p2(k as nat),
            xs == x as nat / p2(k as nat),
            ys == y as nat / p2(k as nat),
            r + scale * interleave(xs as nat, ys as nat, (m - k) as nat) == interleave(x as nat, y as nat, m as nat),
            r < scale,
            bit <= 0x10000,
        decreases m - k,
    {
        let ghost i_next = interleave(xs as nat / 2, ys as nat / 2, (m - k - 1) as nat);
        proof {
            lemma_p2_pos(k as nat);
            lemma_div_denominator(x as int, p2(k as nat) as int, 2);
            lemma_div_denominator(y as int, p2(k as nat) as int, 2);
            assert(p2((k + 1) as nat) == 2 * p2(k as nat));
            assert(scale * interleave(xs as nat, ys as nat, (m - k) as nat) == scale * (ys % 2) + 2 * scale
                * (xs % 2) + 4 * scale * i_next) by (nonlinear_arith)
                requires
                    interleave(xs as nat, ys as nat, (m - k) as nat) == ys % 2 + 2 * (xs % 2) + 4 * i_next,
            ;
            assert(4 * scale == p2((k + 1) as nat) * p2((k + 1) as nat)) by (nonlinear_arith)
                requires
                    scale == p2(k as nat) * p2(k as nat),
                    p2((k + 1) as nat) == 2 * p2(k as nat),
            ;
            assert(k + 1 <= 16);
            assert(p2((k + 1) as nat) <= 0x10000) by {
                reveal_with_fuel(p2, 17);
                lemma_p2_mono((k + 1) as nat, 16);
            }
            assert(4 * scale <= 0x1_0000_0000) by (nonlinear_arith)
                requires
                    4 * scale == p2((k + 1) as nat) * p2((k + 1) as nat),
                    p2((k + 1) as nat) <= 0x10000,
            ;
        }
        proof {
            assert(r + (ys % 2) * scale + (xs % 2) * 2 * scale < 4 * scale) by (nonlinear_arith)
                requires
                    r < scale,
                    ys % 2 <= 1,
                    xs % 2 <= 1,
            ;
        }
        let ghost r0 = r;
        let ghost s0 = scale;
        let ghost xs0 = xs;
        let ghost ys0 = ys;
        r = r + (ys % 2) * scale + (xs % 2) * 2 * scale;
        xs = xs / 2;
        ys = ys / 2;
        scale = scale * 4;
        bit = bit * 2;
        k = k + 1;
        proof {
            assert(r + scale * i_next == r0 + s0 * interleave(xs0 as nat, ys0 as nat, (m - k + 1) as nat))
                by (nonlinear_arith)
                requires
                    r == r0 + (ys0 % 2) * s0 + (xs0 % 2) * 2 * s0,
                    scale == s0 * 4,
                    s0 * interleave(xs0 as nat, ys0 as nat, (m - k + 1) as nat) == s0 * (ys0 % 2) + 2 * s0
                        * (xs0 % 2) + 4 * s0 * i_next,
            ;
            assert(xs as nat == xs0 as nat / 2 && ys as nat == ys0 as nat / 2);
        }
    }
    proof {
        let iz = interleave(xs as nat, ys as nat, (m - k) as nat);
        assert(iz == 0);
        let full = interleave(x as nat, y as nat, m as nat);
        assert(r == full) by (nonlinear_arith)
            requires
                r + scale * iz == full,
                iz == 0,
        ;
        assert(scale <= 0x1_0000_0000) by (nonlinear_arith)
            requires
                bit <= 0x10000,
                scale == bit * bit,
        ;
        assert(xs <= 0x10000 && ys <= 0x10000) by {
            lemma_p2_pos(k as nat);
            lemma_div_is_ordered_by_denominator(x as int, 1, p2(k as nat) as int);
            lemma_div_is_ordered_by_denominator(y as int, 1, p2(k as nat) as int);
        }
        assert((xs + ys) * scale <= 0x20000 * 0x1_0000_0000) by (nonlinear_arith)
            requires
                xs + ys <= 0x20000,
                scale <= 0x1_0000_0000,
        ;
    }
    r + (xs + ys) * scale
}

/// Powers of two grow with the exponent.
pub proof fn lemma_p2_mono(a: nat, b: nat)
    requires
        a <= b,
    ensures
        p2(a) <= p2(b),
    decreases b,
{
    lemma_p2_pos(b);
    if a < b {
        lemma_p2_mono(a, (b - 1) as nat);
    }
}

/// Morton order bit by bit: for each `k < m`, bit `2k` of the interleaved
/// index is bit `k` of `y` and bit `2k + 1` is bit `k` of `x`.
pub proof fn lemma_interleave_bits(x: nat, y: nat, m: nat, k: nat)
    requires
        k < m,
    ensures
        (interleave(x, y, m) / p2(2 * k)) % 2 == (y / p2(k)) % 2,
        (interleave(x, y, m) / p2(2 * k + 1)) % 2 == (x / p2(k)) % 2,
    decreases m,
{
    let m1 = (m - 1) as nat;
    let r = interleave(x / 2, y / 2, m1);
    let low = y % 2 + 2 * (x % 2);
    assert(interleave(x, y, m) == low + 4 * r);
    if k == 0 {
        assert(p2(0) == 1);
        assert(p2(1) == 2);
        lemma_fundamental_div_mod_converse((low + 4 * r) as int, 2, (x % 2 + 2 * r) as int, (y % 2) as int);
        lemma_fundamental_div_mod_converse((x % 2 + 2 * r) as int, 2, r as int, (x % 2) as int);
        assert(interleave(x, y, m) / p2(0) == interleave(x, y, m));
        assert(y / p2(0) == y);
        assert((low + 4 * r) % 2 == y % 2);
    } else {
        let k1 = (k - 1) as nat;
        lemma_interleave_bits(x / 2, y / 2, m1, k1);
        lemma_p2_pos(2 * k1);
        lemma_p2_pos(2 * k1 + 1);
        lemma_p2_pos(k1);
        assert(p2(2 * k) == 4 * p2(2 * k1)) by {
            assert(p2(2 * k) == 2 * p2((2 * k - 1) as nat));
            assert(p2((2 * k - 1) as nat) == 2 * p2(2 * k1));
        }
        assert(p2(2 * k + 1) == 4 * p2(2 * k1 + 1)) by {
            assert(p2(2 * k + 1) == 2 * p2(2 * k));
            assert(p2(2 * k1 + 1) == 2 * p2(2 * k1));
        }
        assert(p2(k) == 2 * p2(k1));
        lemma_fundamental_div_mod_converse((low + 4 * r) as int, 4, r as int, low as int);
        lemma_div_denominator((low + 4 * r) as int, 4, p2(2 * k1) as int);
        lemma_div_denominator((low + 4 * r) as int, 4, p2(2 * k1 + 1) as int);
        lemma_div_denominator(y as int, 2, p2(k1) as int);
        lemma_div_denominator(x as int, 2, p2(k1) as int);
        assert((low + 4 * r) / 4 == r);
        assert(interleave(x, y, m) / p2(2 * k) == r / p2(2 * k1));
        assert(interleave(x, y, m) / p2(2 * k + 1) == r / p2(2 * k1 + 1));
        assert(y / p2(k) == (y / 2) / p2(k1));
        assert(x / p2(k) == (x / 2) / p2(k1));
    }
}

/// Within the square of side `2^m` the twiddled index is the plain bit
/// interleave of the coordinates (y in the even bits, x in the odd bits).
pub proof fn lemma_swz_square(x: nat, y: nat, m: nat)
    requires
        x < p2(m),
        y < p2(m),
    ensures
        swz(x, y, m) == interleave(x, y, m),
{
    lemma_p2_pos(m);
    lemma_basic_div(x as int, p2(m) as int);
    lemma_basic_div(y as int, p2(m) as int);
    assert(x / p2(m) == 0 && y / p2(m) == 0);
    let q = (x / p2(m) + y / p2(m)) as int;
    let pp = (p2(m) * p2(m)) as int;
    assert(q * pp == 0) by (nonlinear_arith)
        requires q == 0;
}

} // verus!
