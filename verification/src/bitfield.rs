//! Little-endian bit strings: the integer a byte sequence spells when read
//! least significant byte first, the bit fields of such an integer, and the
//! arithmetic facts that tie shifts, masks and byte stores to them.

use vstd::prelude::*;
use vstd::arithmetic::power2::{
    pow2, lemma_pow2_adds, lemma_pow2_pos, lemma2_to64, lemma_pow2_strictly_increases,
};
use vstd::arithmetic::div_mod::{
    lemma_fundamental_div_mod_converse, lemma_fundamental_div_mod, lemma_div_denominator, lemma_mod_breakdown,
    lemma_mod_multiples_vanish, lemma_div_pos_is_pos, lemma_small_mod, lemma_multiply_divide_lt,
};
use vstd::bits::{
    low_bits_mask, lemma_u32_shr_is_div, lemma_u32_low_bits_mask_is_mod, lemma_u32_shl_is_mul,
    lemma_u32_pow2_no_overflow, lemma_u64_shr_is_div, lemma_u64_low_bits_mask_is_mod,
    lemma_u64_shl_is_mul, lemma_u64_pow2_no_overflow,
};
use vstd::arithmetic::mul::{
    lemma_mul_inequality, lemma_mul_is_associative, lemma_mul_is_distributive_add,
    lemma_mul_is_distributive_add_other_way,
    lemma_mul_is_commutative, lemma_mul_nonnegative,
};

verus! {

/// The integer spelled by `b` read as a little-endian number.
pub open spec fn le_value(b: Seq<u8>) -> nat
    decreases b.len(),
{
    if b.len() == 0 {
        0
    } else {
        le_value(b.drop_last()) + (b.last() as nat) * pow2((8 * (b.len() - 1)) as nat)
    }
}

/// The `len`-bit field of `x` that starts at bit `off`.
pub open spec fn nat_field(x: nat, off: nat, len: nat) -> nat {
    (x / pow2(off)) % pow2(len)
}

/// A little-endian value of `n` bytes is below `2^(8n)`.
pub proof fn lemma_le_value_bound(b: Seq<u8>)
    ensures
        le_value(b) < pow2(8 * b.len()),
    decreases b.len(),
{
    if b.len() == 0 {
        lemma2_to64();
    } else {
        let n = (b.len() - 1) as nat;
        let d = b.drop_last();
        lemma_le_value_bound(d);
        let p = pow2(8 * n);
        lemma_pow2_adds(8 * n, 8);
        lemma2_to64();
        assert(8 * b.len() == 8 * n + 8);
        lemma_mul_inequality(b.last() as int, 255, p as int);
        lemma_mul_is_commutative(256, p as int);
    }
}

/// Splitting a byte string splits its value: the low `k` bytes, plus the rest
/// scaled by `2^(8k)`.
pub proof fn lemma_le_value_split(b: Seq<u8>, k: nat)
    requires
        k <= b.len(),
    ensures
        le_value(b) == le_value(b.take(k as int)) + pow2(8 * k) * le_value(b.skip(k as int)),
    decreases b.len(),
{
    if k == b.len() {
        assert(b.take(k as int) =~= b);
        assert(b.skip(k as int).len() == 0);
        assert(le_value(b.skip(k as int)) == 0);
        assert(pow2(8 * k) * 0 == 0);
    } else {
        let n = b.len();
        let d = b.drop_last();
        lemma_le_value_split(d, k);
        assert(d.take(k as int) =~= b.take(k as int));
        let s = b.skip(k as int);
        assert(s.drop_last() =~= d.skip(k as int));
        assert(s.last() == b.last());
        let pk = pow2(8 * k);
        let pr = pow2((8 * (s.len() - 1)) as nat);
        lemma_pow2_adds(8 * k, (8 * (s.len() - 1)) as nat);
        assert(8 * k + 8 * (s.len() - 1) == 8 * (n - 1));
        let l = b.last() as int;
        assert(le_value(s) == le_value(d.skip(k as int)) + l * pr);
        assert(pow2((8 * (n - 1)) as nat) == pk * pr);
        assert(le_value(b) == le_value(d) + l * (pk * pr));
        lemma_mul_is_associative(l, pk as int, pr as int);
        lemma_mul_is_commutative(l, pk as int);
        lemma_mul_is_associative(pk as int, l, pr as int);
        lemma_mul_is_distributive_add(pk as int, le_value(d.skip(k as int)) as int, l * pr);
        assert(l * (pk * pr) == pk * (l * pr));
        assert(le_value(b) == le_value(b.take(k as int)) + pk * le_value(s));
    }
}

/// Byte `k` of a little-endian string is its `k`-th 8-bit field.
pub proof fn lemma_le_value_byte(b: Seq<u8>, k: nat)
    requires
        k < b.len(),
    ensures
        nat_field(le_value(b), 8 * k, 8) == b[k as int],
{
    lemma_le_value_split(b, k);
    lemma_le_value_bound(b.take(k as int));
    let s = b.skip(k as int);
    lemma_le_value_split(s, 1);
    let t = s.take(1);
    assert(t.drop_last().len() == 0);
    assert(le_value(t.drop_last()) == 0);
    assert(le_value(t) == t[0] as nat * pow2(0));
    lemma2_to64();
    assert(pow2(0) == 1);
    assert(t[0] as nat * 1 == t[0] as nat);
    assert(t[0] == s[0]);
    assert(s[0] == b[k as int]);
    assert(le_value(t) == b[k as int]);
    let rest = le_value(s.skip(1));
    let p = pow2(8 * k);
    lemma_pow2_pos(8 * k);
    assert(le_value(b) == le_value(b.take(k as int)) + p * (b[k as int] + 256 * rest));
    lemma_mul_is_commutative(p as int, (b[k as int] + 256 * rest) as int);
    lemma_fundamental_div_mod_converse(
        le_value(b) as int,
        p as int,
        (b[k as int] + 256 * rest) as int,
        le_value(b.take(k as int)) as int,
    );
    lemma_fundamental_div_mod_converse(
        (b[k as int] + 256 * rest) as int,
        256,
        rest as int,
        b[k as int] as int,
    );
}

/// Two adjacent fields concatenate: the low `t` bits, then the next `r` bits.
pub proof fn lemma_field_concat(x: nat, o: nat, t: nat, r: nat)
    ensures
        nat_field(x, o, t + r) == nat_field(x, o, t) + nat_field(x, o + t, r) * pow2(t),
{
    lemma_pow2_pos(o);
    lemma_pow2_pos(t);
    lemma_pow2_pos(r);
    let y = x / pow2(o);
    lemma_div_pos_is_pos(x as int, pow2(o) as int);
    lemma_pow2_adds(t, r);
    lemma_mod_breakdown(y as int, pow2(t) as int, pow2(r) as int);
    lemma_div_denominator(x as int, pow2(o) as int, pow2(t) as int);
    lemma_pow2_adds(o, t);
    lemma_mul_is_commutative(pow2(t) as int, ((y / pow2(t)) % pow2(r)) as int);
}

/// Dropping the low `a` bits first moves every field down by `a`.
pub proof fn lemma_field_shift(x: nat, a: nat, o: nat, l: nat)
    ensures
        nat_field(x, a + o, l) == nat_field(x / pow2(a), o, l),
{
    lemma_pow2_pos(a);
    lemma_pow2_pos(o);
    lemma_div_denominator(x as int, pow2(a) as int, pow2(o) as int);
    lemma_pow2_adds(a, o);
}

/// A field that ends at or below bit `w` does not see the bits above `w`.
pub proof fn lemma_field_truncate(x: nat, w: nat, o: nat, l: nat)
    requires
        o + l <= w,
    ensures
        nat_field(x % pow2(w), o, l) == nat_field(x, o, l),
{
    lemma_pow2_pos(w);
    lemma_pow2_pos(o);
    lemma_pow2_pos(l);
    let pw = pow2(w);
    let po = pow2(o);
    let pl = pow2(l);
    let q = x / pw;
    let m = x % pw;
    let hi = pow2((w - o) as nat);
    let h2 = pow2((w - o - l) as nat);
    lemma_pow2_pos((w - o) as nat);
    lemma_pow2_adds(o, (w - o) as nat);
    lemma_pow2_adds(l, (w - o - l) as nat);
    lemma_fundamental_div_mod(x as int, pw as int);
    let mq = m / po;
    let mr = m % po;
    lemma_fundamental_div_mod(m as int, po as int);
    lemma_div_pos_is_pos(x as int, pw as int);
    lemma_div_pos_is_pos(m as int, po as int);
    // x = po * (hi * q + mq) + mr
    assert(pw == po * hi);
    lemma_mul_is_associative(po as int, hi as int, q as int);
    lemma_mul_is_distributive_add(po as int, (hi * q) as int, mq as int);
    lemma_mul_nonnegative(hi as int, q as int);
    lemma_mul_is_commutative(po as int, (hi * q + mq) as int);
    lemma_fundamental_div_mod_converse(x as int, po as int, (hi * q + mq) as int, mr as int);
    // hi * q is a multiple of pl
    lemma_mul_is_associative(pl as int, h2 as int, q as int);
    lemma_mul_nonnegative(h2 as int, q as int);
    lemma_mod_multiples_vanish((h2 * q) as int, mq as int, pl as int);
}

/// A field inside one byte: the byte at `k`, then the bits `s..s + r` of it.
pub proof fn lemma_field_in_byte(x: nat, k: nat, s: nat, r: nat)
    requires
        s + r <= 8,
    ensures
        nat_field(x, 8 * k + s, r) == nat_field(nat_field(x, 8 * k, 8), s, r),
{
    lemma_field_shift(x, 8 * k, s, r);
    lemma_field_truncate(x / pow2(8 * k), 8, s, r);
}

/// The value of bytes that hold `x` one byte at a time: `x` modulo `2^(8n)`.
pub proof fn lemma_le_value_of_bytes(b: Seq<u8>, x: nat)
    requires
        forall|i: int| 0 <= i < b.len() ==> b[i] == nat_field(x, (8 * i) as nat, 8),
    ensures
        le_value(b) == x % pow2(8 * b.len()),
    decreases b.len(),
{
    lemma2_to64();
    if b.len() == 0 {
    } else {
        let n = (b.len() - 1) as nat;
        let d = b.drop_last();
        assert forall|i: int| 0 <= i < d.len() implies d[i] == nat_field(
            x,
            (8 * i) as nat,
            8,
        ) by {
            assert(d[i] == b[i]);
        }
        lemma_le_value_of_bytes(d, x);
        let p = pow2(8 * n);
        lemma_pow2_pos(8 * n);
        lemma_pow2_adds(8 * n, 8);
        assert(8 * b.len() == 8 * n + 8);
        lemma_mod_breakdown(x as int, p as int, 256);
        assert(b.last() == nat_field(x, 8 * n, 8));
        lemma_mul_is_commutative(p as int, ((x / p) % 256) as int);
    }
}

/// OR-ing bits above an accumulator adds them (u32).
proof fn lemma_u32_or_disjoint(a: u32, v: u32, k: u32)
    by (bit_vector)
    requires
        k < 32,
        a < (1u32 << k),
    ensures
        a | (v << k) == a + (v << k),
        (v << k) | a == a + (v << k),
{
}

/// OR-ing bits above an accumulator adds them (u64).
proof fn lemma_u64_or_disjoint(a: u64, v: u64, k: u64)
    by (bit_vector)
    requires
        k < 64,
        a < (1u64 << k),
    ensures
        a | (v << k) == a + (v << k),
        (v << k) | a == a + (v << k),
{
}

/// `acc | (v << k)` is `acc + v * 2^k` when `acc` fits below bit `k` and the
/// shifted value does not overflow (u32).
pub proof fn lemma_u32_or_shl(acc: u32, v: u32, k: u32)
    requires
        k < 32,
        acc < pow2(k as nat),
        v * pow2(k as nat) <= u32::MAX,
    ensures
        acc | (v << k) == acc + v * pow2(k as nat),
        (v << k) | acc == acc + v * pow2(k as nat),
        v << k == v * pow2(k as nat),
{
    lemma_u32_pow2_no_overflow(k as nat);
    lemma_u32_shl_is_mul(1, k);
    lemma_u32_shl_is_mul(v, k);
    lemma_u32_or_disjoint(acc, v, k);
}

/// `acc | (v << k)` is `acc + v * 2^k` when `acc` fits below bit `k` and the
/// shifted value does not overflow (u64).
pub proof fn lemma_u64_or_shl(acc: u64, v: u64, k: u64)
    requires
        k < 64,
        acc < pow2(k as nat),
        v * pow2(k as nat) <= u64::MAX,
    ensures
        acc | (v << k) == acc + v * pow2(k as nat),
        (v << k) | acc == acc + v * pow2(k as nat),
        v << k == v * pow2(k as nat),
{
    lemma_u64_pow2_no_overflow(k as nat);
    lemma_u64_shl_is_mul(1, k);
    lemma_u64_shl_is_mul(v, k);
    lemma_u64_or_disjoint(acc, v, k);
}

/// Shift then mask reads a field (u32): `(x >> s) & (2^n - 1)`.
pub proof fn lemma_u32_shr_mask(x: u32, s: u32, n: nat, m: u32)
    requires
        s < 32,
        n < 32,
        m == pow2(n) - 1,
    ensures
        (x >> s) & m == nat_field(x as nat, s as nat, n),
{
    lemma_u32_shr_is_div(x, s);
    lemma_u32_pow2_no_overflow(n);
    lemma_u32_low_bits_mask_is_mod(x >> s, n);
}

/// Shift then mask reads a field (u64): `(x >> s) & (2^n - 1)`.
pub proof fn lemma_u64_shr_mask(x: u64, s: u64, n: nat, m: u64)
    requires
        s < 64,
        n < 64,
        m == pow2(n) - 1,
    ensures
        (x >> s) & m == nat_field(x as nat, s as nat, n),
{
    lemma_u64_shr_is_div(x, s);
    lemma_u64_pow2_no_overflow(n);
    lemma_u64_low_bits_mask_is_mod(x >> s, n);
}

/// Extracting a field from a sum laid out as `low + f * 2^o + high * 2^(o+l)`.
pub proof fn lemma_field_of_sum(low: nat, f: nat, high: nat, o: nat, l: nat)
    requires
        low < pow2(o),
        f < pow2(l),
    ensures
        nat_field(low + f * pow2(o) + high * pow2(o + l), o, l) == f,
{
    lemma_pow2_pos(o);
    lemma_pow2_pos(l);
    lemma_pow2_adds(o, l);
    let po = pow2(o);
    let pl = pow2(l);
    let x = low + f * po + high * (po * pl);
    lemma_mul_is_associative(high as int, po as int, pl as int);
    lemma_mul_is_commutative((high * pl) as int, po as int);
    lemma_mul_is_commutative(f as int, po as int);
    lemma_mul_is_distributive_add(po as int, f as int, (high * pl) as int);
    lemma_mul_nonnegative(high as int, pl as int);
    assert(po * (high * pl) == high * (po * pl)) by {
        lemma_mul_is_associative(po as int, high as int, pl as int);
        lemma_mul_is_commutative(po as int, high as int);
    }
    lemma_mul_is_commutative((f + high * pl) as int, po as int);
    assert(x == (f + high * pl) * po + low);
    lemma_fundamental_div_mod_converse(x as int, po as int, (f + high * pl) as int, low as int);
    lemma_mul_is_commutative(high as int, pl as int);
    lemma_fundamental_div_mod_converse((f + high * pl) as int, pl as int, high as int, f as int);
}

/// Appending a field above an accumulator: the new field reads back, and the
/// fields already below it are untouched.
pub proof fn lemma_field_append(acc: nat, v: nat, ofs: nat, len: nat)
    requires
        acc < pow2(ofs),
        v < pow2(len),
    ensures
        acc + v * pow2(ofs) < pow2(ofs + len),
        nat_field(acc + v * pow2(ofs), ofs, len) == v,
        forall|o: nat, l: nat|
            o + l <= ofs ==> #[trigger] nat_field(acc + v * pow2(ofs), o, l) == nat_field(
                acc,
                o,
                l,
            ),
{
    lemma_pow2_pos(ofs);
    lemma_pow2_pos(len);
    lemma_pow2_adds(ofs, len);
    lemma_field_of_sum(acc, v, 0, ofs, len);
    let y = acc + v * pow2(ofs);
    lemma_mul_inequality(v as int, (pow2(len) - 1) as int, pow2(ofs) as int);
    lemma_mul_is_distributive_add(pow2(ofs) as int, (pow2(len) - 1) as int, 1);
    lemma_mul_is_commutative(pow2(ofs) as int, pow2(len) as int);
    lemma_mul_is_commutative(pow2(ofs) as int, (pow2(len) - 1) as int);
    lemma_mul_is_commutative(v as int, pow2(ofs) as int);
    lemma_mod_multiples_vanish(v as int, acc as int, pow2(ofs) as int);
    lemma_small_mod(acc, pow2(ofs));
    assert forall|o: nat, l: nat| o + l <= ofs implies #[trigger] nat_field(y, o, l) == nat_field(
        acc,
        o,
        l,
    ) by {
        lemma_field_truncate(y, ofs, o, l);
    }
}

/// A sixteen-byte string is two little-endian words: the low eight bytes and
/// the high eight bytes.
pub proof fn lemma_le_value_words(b: Seq<u8>)
    requires
        b.len() == 16,
    ensures
        le_value(b) == le_value(b.take(8)) + pow2(64) * le_value(b.skip(8)),
        le_value(b.take(8)) < pow2(64),
        le_value(b.skip(8)) < pow2(64),
        forall|o: nat, l: nat|
            o + l <= 64 ==> #[trigger] nat_field(le_value(b), o, l) == nat_field(
                le_value(b.take(8)),
                o,
                l,
            ),
        forall|o: nat, l: nat|
            o >= 64 ==> #[trigger] nat_field(le_value(b), o, l) == nat_field(
                le_value(b.skip(8)),
                (o - 64) as nat,
                l,
            ),
{
    lemma_le_value_split(b, 8);
    lemma_le_value_bound(b.take(8));
    lemma_le_value_bound(b.skip(8));
    let lo = le_value(b.take(8));
    let hi = le_value(b.skip(8));
    let x = le_value(b);
    lemma_pow2_pos(64);
    lemma_mul_is_commutative(pow2(64) as int, hi as int);
    lemma_fundamental_div_mod_converse(x as int, pow2(64) as int, hi as int, lo as int);
    assert forall|o: nat, l: nat| o + l <= 64 implies #[trigger] nat_field(x, o, l) == nat_field(
        lo,
        o,
        l,
    ) by {
        lemma_field_truncate(x, 64, o, l);
    }
    assert forall|o: nat, l: nat| o >= 64 implies #[trigger] nat_field(x, o, l) == nat_field(
        hi,
        (o - 64) as nat,
        l,
    ) by {
        lemma_field_shift(x, 64, (o - 64) as nat, l);
    }
}

/// A value below `2^(a+b)` divided by `2^a` is below `2^b`.
pub proof fn lemma_div_pow2_bound(x: nat, a: nat, b: nat)
    requires
        x < pow2(a + b),
    ensures
        x / pow2(a) < pow2(b),
{
    lemma_pow2_pos(a);
    lemma_pow2_adds(a, b);
    lemma_multiply_divide_lt(x as int, pow2(a) as int, pow2(b) as int);
}

/// Exclusive-or with an all-ones index mask mirrors the index, and the top
/// bit of an index is its upper half.
pub proof fn lemma_index_mirror(w: u8)
    by (bit_vector)
    ensures
        w ^ 0u8 == w,
        w < 4 ==> w ^ 3u8 == 3 - w,
        w < 8 ==> w ^ 7u8 == 7 - w,
        w < 16 ==> w ^ 15u8 == 15 - w,
        w < 4 ==> (w & 2u8 != 0 <==> w >= 2),
        w < 8 ==> (w & 4u8 != 0 <==> w >= 4),
        w < 16 ==> (w & 8u8 != 0 <==> w >= 8),
        w & 1u8 == w % 2,
{
}

/// Powers of two up to `2^64` bound a u64 from above.
pub proof fn lemma_u64_pow2_le(n: nat)
    requires
        n <= 64,
    ensures
        pow2(n) <= pow2(64),
        pow2(64) == u64::MAX + 1,
{
    lemma2_to64();
    if n < 64 {
        lemma_pow2_strictly_increases(n, 64);
    }
}

/// Appending a `len`-bit field at bit `k` of a u64 accumulator with `|` and
/// `<<`: the sum it makes, its new bound, and its fields old and new.
pub proof fn lemma_u64_append(acc: u64, v: u64, k: u64, len: nat)
    requires
        k + len <= 64,
        k < 64,
        acc < pow2(k as nat),
        v < pow2(len),
    ensures
        acc | (v << k) == acc + v * pow2(k as nat),
        (acc | (v << k)) < pow2((k + len) as nat),
        nat_field((acc | (v << k)) as nat, k as nat, len) == v,
        forall|o: nat, l: nat|
            o + l <= k ==> #[trigger] nat_field((acc | (v << k)) as nat, o, l) == nat_field(
                acc as nat,
                o,
                l,
            ),
{
    lemma_field_append(acc as nat, v as nat, k as nat, len);
    lemma_u64_pow2_le((k + len) as nat);
    lemma_u64_or_shl(acc, v, k);
}

/// Small bit facts on signed and unsigned words: flipping a single bit, the
/// low bit and half of a non-negative value, and the arithmetic right shift by
/// six as a floor division.
pub proof fn lemma_word_bits(p: u32, q: i32, x: i32)
    by (bit_vector)
    ensures
        p < 2 ==> p ^ 1u32 == 1 - p,
        q >= 0 ==> (q & 1i32 == 0 || q & 1i32 == 1) && (q >> 1i32) * 2 + (q & 1i32) == q,
        64 * (x >> 6i32) <= x,
        x < 64 * (x >> 6i32) + 64,
        (-8 <= x < 0) ==> x & 7i32 == x + 8,
        (0 <= x < 8) ==> x & 7i32 == x,
{
}

/// Shifts and masks of a byte held in a signed word, and the ETC1 3-bit delta
/// sign extension, in the bit-vector solver's terms.
proof fn lemma_etc_byte_bits(b: i32, u: i8)
    by (bit_vector)
    requires
        0 <= b < 256,
        0 <= u < 8,
    ensures
        2 * (b >> 1i32) <= b < 2 * (b >> 1i32) + 2,
        4 * (b >> 2i32) <= b < 4 * (b >> 2i32) + 4,
        8 * (b >> 3i32) <= b < 8 * (b >> 3i32) + 8,
        16 * (b >> 4i32) <= b < 16 * (b >> 4i32) + 16,
        32 * (b >> 5i32) <= b < 32 * (b >> 5i32) + 32,
        b & 7i32 == b - 8 * (b >> 3i32),
        b & 15i32 == b - 16 * (b >> 4i32),
        (b >> 2i32) & 7i32 == (b >> 2i32) - 8 * (b >> 5i32),
        (b & 2i32 != 0) == ((b >> 1i32) - 2 * (b >> 2i32) == 1),
        b < 32 ==> (b << 3i32) | (b >> 2i32) == b * 8 + (b >> 2i32),
        b < 16 ==> (b << 4i32) | b == b * 17,
        u < 4 ==> (u << 5i8) >> 5i8 == u,
        u >= 4 ==> ((u << 5i8) >> 5i8) + 8 == u,
{
}

/// The bit fields of a byte held in a signed word, and the ETC1 channel
/// expansions and 3-bit delta sign extension written with shifts.
pub proof fn lemma_etc_byte_fields(b: i32, u: i8)
    requires
        0 <= b < 256,
        0 <= u < 8,
    ensures
        b >> 3i32 == b / 8,
        b & 7i32 == b % 8,
        b >> 4i32 == b / 16,
        b & 15i32 == b % 16,
        b >> 5i32 == b / 32,
        (b >> 2i32) & 7i32 == (b / 4) % 8,
        (b & 2i32 != 0) == ((b / 2) % 2 == 1),
        b < 32 ==> (b << 3i32) | (b >> 2i32) == b * 8 + b / 4,
        b < 16 ==> (b << 4i32) | b == b * 17,
        u < 4 ==> (u << 5i8) >> 5i8 == u,
        u >= 4 ==> ((u << 5i8) >> 5i8) + 8 == u,
{
    lemma_etc_byte_bits(b, u);
    let b1 = b >> 1i32;
    let b2 = b >> 2i32;
    let b3 = b >> 3i32;
    let b4 = b >> 4i32;
    let b5 = b >> 5i32;
    lemma_fundamental_div_mod_converse(b as int, 2, b1 as int, b - 2 * b1);
    lemma_fundamental_div_mod_converse(b as int, 4, b2 as int, b - 4 * b2);
    lemma_fundamental_div_mod_converse(b as int, 8, b3 as int, b - 8 * b3);
    lemma_fundamental_div_mod_converse(b as int, 16, b4 as int, b - 16 * b4);
    lemma_fundamental_div_mod_converse(b as int, 32, b5 as int, b - 32 * b5);
    lemma_fundamental_div_mod_converse(b2 as int, 8, b5 as int, b2 - 8 * b5);
    lemma_fundamental_div_mod_converse(b1 as int, 2, b2 as int, b1 - 2 * b2);
}

/// The ETC1 control byte: flip bit, differential bit and the two 3-bit
/// intensity table indices.
pub proof fn lemma_etc1_control(flip: u32, diff: u32, m0: u32, m1: u32)
    by (bit_vector)
    requires
        flip < 2,
        diff < 2,
        m0 < 8,
        m1 < 8,
    ensures
        flip | (diff << 1u32) | (m0 << 5u32) | (m1 << 2u32) == flip + 2 * diff + 32 * m0 + 4 * m1,
{
}

/// The ETC1 selector masks of the two subblocks occupy disjoint bits, and a
/// 16-bit mask splits into its two bytes.
pub proof fn lemma_etc1_masks(a: u16, b: u16, x: u16)
    by (bit_vector)
    ensures
        ((a == 0 || a == 0xff) && (b == 0 || b == 0xff00)) ==> a | b == a + b,
        ((a == 0 || a == 0x3333) && (b == 0 || b == 0xcccc)) ==> a | b == a + b,
        0u16 | a == a,
        x as u8 == x % 256,
        (x >> 8u16) as u8 == x / 256,
{
}

/// A byte shifted to bit 58 of a u64 keeps only its low six bits.
pub proof fn lemma_u64_shl58(v: u64)
    by (bit_vector)
    ensures
        v << 58u64 == (v & 63u64) << 58u64,
{
}

/// A sixteen-byte block holding the words `lo` and `hi` one byte at a time:
/// its fields below bit 64 are those of `lo`, the rest those of `hi`.
pub proof fn lemma_block_of_words(b: Seq<u8>, lo: nat, hi: nat)
    requires
        b.len() == 16,
        lo < pow2(64),
        hi < pow2(64),
        forall|k: int| 0 <= k < 8 ==> b[k] == nat_field(lo, (8 * k) as nat, 8),
        forall|k: int| 8 <= k < 16 ==> b[k] == nat_field(hi, (8 * (k - 8)) as nat, 8),
    ensures
        le_value(b) == lo + pow2(64) * hi,
        forall|o: nat, l: nat| o + l <= 64 ==> #[trigger] nat_field(le_value(b), o, l) == nat_field(lo, o, l),
        forall|o: nat, l: nat|
            o >= 64 ==> #[trigger] nat_field(le_value(b), o, l) == nat_field(hi, (o - 64) as nat, l),
{
    lemma2_to64();
    assert forall|k: int| 0 <= k < 8 implies b.take(8)[k] == nat_field(lo, (8 * k) as nat, 8) by {}
    lemma_le_value_of_bytes(b.take(8), lo);
    lemma_small_mod(lo, pow2(64));
    assert forall|k: int| 0 <= k < 8 implies b.skip(8)[k] == nat_field(hi, (8 * k) as nat, 8) by {
        assert(b.skip(8)[k] == b[k + 8]);
    }
    lemma_le_value_of_bytes(b.skip(8), hi);
    lemma_small_mod(hi, pow2(64));
    lemma_le_value_words(b);
}

/// Setting one bit of a 16-bit selector mask, and splitting the mask into
/// bytes and back.
pub proof fn lemma_u16_set_bit(acc: u16, b: u16, p: u16, q: u16)
    by (bit_vector)
    requires
        p < 16,
        q < 16,
        b < 2,
    ensures
        (acc >> p) & 1u16 == 0 ==> ((acc | (b << p)) >> q) & 1u16 == (if q == p { b } else { (acc >> q) & 1u16 }),
        (0u16 >> q) & 1u16 == 0,
        acc < 4 ==> acc & 1u16 == acc % 2 && acc >> 1u16 == acc / 2,
        ((((acc >> 8u16) as u8) as u16) << 8u16) | ((acc as u8) as u16) == acc,
{
}

/// Whether the ETC1 base-color deltas `d + 4` of three channels all fit in
/// 0..=7, tested with one OR of the signed values.
pub proof fn lemma_delta_or(a: i32, b: i32, c: i32)
    by (bit_vector)
    requires
        -64 <= a <= 64,
        -64 <= b <= 64,
        -64 <= c <= 64,
    ensures
        ((a | b | c) as u32 > 7u32) == !(0 <= a <= 7 && 0 <= b <= 7 && 0 <= c <= 7),
        (a as u32 > 7u32) == !(0 <= a <= 7),
{
}

/// Shifting a non-negative signed word by three: times and floor-over eight.
pub proof fn lemma_i32_shift3(z: i32)
    by (bit_vector)
    requires
        0 <= z < 0x1000_0000,
    ensures
        z << 3i32 == z * 8,
        8 * (z >> 3i32) <= z,
        z < 8 * (z >> 3i32) + 8,
{
}

/// A block value laid out as `head` below bit `p`, then `mid` up to bit `q`,
/// then `top`: each part's fields read back at its offset.
pub proof fn lemma_three_parts(head: nat, mid: nat, top: nat, p: nat, q: nat)
    requires
        p < q,
        head < pow2(p),
        mid < pow2((q - p) as nat),
    ensures
        forall|o: nat, l: nat| o + l <= p ==> #[trigger] nat_field(head + mid * pow2(p) + top * pow2(q), o, l) == nat_field(head, o, l),
        forall|o: nat, l: nat| o + l <= q - p ==> #[trigger] nat_field(head + mid * pow2(p) + top * pow2(q), p + o, l) == nat_field(mid, o, l),
        forall|o: nat, l: nat| #[trigger] nat_field(head + mid * pow2(p) + top * pow2(q), q + o, l) == nat_field(top, o, l),
{
    let d = (q - p) as nat;
    lemma_pow2_pos(p);
    lemma_pow2_pos(d);
    lemma_pow2_adds(p, d);
    let low = head + mid * pow2(p);
    lemma_field_append(head, mid, p, d);
    let x = low + top * pow2(q);
    // x = head + (mid + top * 2^d) * 2^p
    assert(top * pow2(q) == (top * pow2(d)) * pow2(p)) by {
        lemma_mul_is_associative(top as int, pow2(d) as int, pow2(p) as int);
        lemma_mul_is_commutative(pow2(d) as int, pow2(p) as int);
    }
    assert(x == head + (mid + top * pow2(d)) * pow2(p)) by {
        lemma_mul_is_distributive_add_other_way(pow2(p) as int, mid as int, (top * pow2(d)) as int);
    }
    assert forall|o: nat, l: nat| o + l <= p implies #[trigger] nat_field(x, o, l) == nat_field(head, o, l) by {
        lemma_field_truncate(x, q, o, l);
        lemma_field_truncate(low, q, o, l);
        lemma_mod_multiples_vanish(top as int, low as int, pow2(q) as int);
        lemma_mul_is_commutative(top as int, pow2(q) as int);
        lemma_small_mod(low, pow2(q));
    }
    let y = mid + top * pow2(d);
    lemma_fundamental_div_mod_converse(x as int, pow2(p) as int, y as int, head as int);
    lemma_mul_is_commutative(y as int, pow2(p) as int);
    assert forall|o: nat, l: nat| o + l <= q - p implies #[trigger] nat_field(x, p + o, l) == nat_field(mid, o, l) by {
        lemma_field_shift(x, p, o, l);
        lemma_field_truncate(y, d, o, l);
        lemma_mod_multiples_vanish(top as int, mid as int, pow2(d) as int);
        lemma_mul_is_commutative(top as int, pow2(d) as int);
        lemma_small_mod(mid, pow2(d));
    }
    assert(low < pow2(q));
    lemma_fundamental_div_mod_converse(x as int, pow2(q) as int, top as int, low as int);
    lemma_mul_is_commutative(top as int, pow2(q) as int);
    assert forall|o: nat, l: nat| #[trigger] nat_field(x, q + o, l) == nat_field(top, o, l) by {
        lemma_field_shift(x, q, o, l);
    }
}

} // verus!
