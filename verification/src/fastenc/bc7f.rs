//! BC7 block packing and unpacking: the endpoint quantizers, the squared-error
//! helpers, a writer for every one of the eight modes, and the decoder that
//! scores candidate blocks. A block is sixteen bytes read as one 128-bit
//! little-endian integer; each writer states the fields it lays out and each
//! reader the fields it reads, so a write followed by a read gives back the
//! texels the writer meant. The partitioned modes (0, 1, 2, 3 and 7) read
//! their subset layouts from a checked set of partition tables.

pub mod flags;

use vstd::prelude::*;
use vstd::arithmetic::power2::{
    pow2, lemma2_to64, lemma_pow2_pos, lemma_pow2_adds, lemma_pow2_strictly_increases,
};
use vstd::arithmetic::mul::{lemma_mul_inequality, lemma_mul_is_commutative};
use vstd::arithmetic::div_mod::lemma_small_mod;
use vstd::bits::{lemma_u32_shr_is_div, lemma_u64_shr_is_div, lemma_u32_shl_is_mul, lemma_u64_shl_is_mul};
use crate::bitfield::{
    le_value, nat_field, lemma_le_value_byte, lemma_field_concat, lemma_field_in_byte,
    lemma_u32_or_shl, lemma_u32_shr_mask, lemma_u64_or_shl, lemma_u64_shr_mask,
    lemma_field_append, lemma_le_value_words, lemma_le_value_of_bytes, lemma_div_pow2_bound,
    lemma_le_value_bound, lemma_index_mirror, lemma_u64_pow2_le, lemma_u64_append, lemma_word_bits,
    lemma_block_of_words, lemma_three_parts,
};

verus! {

/// One decoded texel, RGBA byte order.
pub type Rgba = [u8; 4];

/// The BC7 interpolation weight for index `w` of the 2-bit ramp.
pub open spec fn weight2(w: nat) -> nat {
    if w == 0 { 0 } else if w == 1 { 21 } else if w == 2 { 43 } else { 64 }
}

/// The BC7 interpolation weight for index `w` of the 3-bit ramp.
pub open spec fn weight3(w: nat) -> nat {
    if w == 0 { 0 }
    else if w == 1 { 9 }
    else if w == 2 { 18 }
    else if w == 3 { 27 }
    else if w == 4 { 37 }
    else if w == 5 { 46 }
    else if w == 6 { 55 }
    else { 64 }
}

/// The BC7 interpolation weight for index `w` of the 4-bit ramp.
pub open spec fn weight4(w: nat) -> nat {
    if w == 0 { 0 }
    else if w == 1 { 4 }
    else if w == 2 { 9 }
    else if w == 3 { 13 }
    else if w == 4 { 17 }
    else if w == 5 { 21 }
    else if w == 6 { 26 }
    else if w == 7 { 30 }
    else if w == 8 { 34 }
    else if w == 9 { 38 }
    else if w == 10 { 43 }
    else if w == 11 { 47 }
    else if w == 12 { 51 }
    else if w == 13 { 55 }
    else if w == 14 { 60 }
    else { 64 }
}

/// The weight of index `w` on the `bits`-bit ramp (2, 3 or 4 bits).
pub open spec fn ramp_weight(bits: nat, w: nat) -> nat {
    if bits == 2 { weight2(w) } else if bits == 3 { weight3(w) } else { weight4(w) }
}

/// Each ramp is symmetric: index `2^bits - 1 - w` weighs `64 - weight(w)`.
pub proof fn lemma_ramp_symmetric(bits: nat, w: nat)
    requires
        2 <= bits <= 4,
        w < pow2(bits),
    ensures
        ramp_weight(bits, (pow2(bits) - 1 - w) as nat) == 64 - ramp_weight(bits, w),
        ramp_weight(bits, w) <= 64,
{
    lemma2_to64();
}

/// The BC7 weight ramp of `bits` bits (2, 3 or 4) at index `w`.
fn ramp(bits: u32, w: u32) -> (r: u32)
    requires
        2 <= bits <= 4,
        w < pow2(bits as nat),
    ensures
        r == ramp_weight(bits as nat, w as nat),
        r <= 64,
{
    proof {
        lemma2_to64();
    }
    if bits == 2 {
        match w {
            0 => 0,
            1 => 21,
            2 => 43,
            _ => 64,
        }
    } else if bits == 3 {
        match w {
            0 => 0,
            1 => 9,
            2 => 18,
            3 => 27,
            4 => 37,
            5 => 46,
            6 => 55,
            _ => 64,
        }
    } else {
        match w {
            0 => 0,
            1 => 4,
            2 => 9,
            3 => 13,
            4 => 17,
            5 => 21,
            6 => 26,
            7 => 30,
            8 => 34,
            9 => 38,
            10 => 43,
            11 => 47,
            12 => 51,
            13 => 55,
            14 => 60,
            _ => 64,
        }
    }
}

/// Linear interpolation between two endpoint components at ramp weight `r`
/// (out of 64), rounded.
pub open spec fn interp(l: nat, h: nat, r: nat) -> nat {
    ((l * (64 - r) + h * r + 32) / 64) as nat
}

/// The BC7 decoder's interpolation: `l` and `h` blended by the weight of index
/// `w` on the `bits`-bit ramp; 0 for a ramp width other than 2, 3 or 4.
pub fn bc7u_interp(l: u32, h: u32, w: u32, bits: u32) -> (r: u32)
    requires
        l < 0x400_0000,
        h < 0x400_0000,
        2 <= bits <= 4 ==> w < pow2(bits as nat),
    ensures
        r == (if 2 <= bits <= 4 {
            interp(l as nat, h as nat, ramp_weight(bits as nat, w as nat))
        } else {
            0
        }),
{
    if bits < 2 || bits > 4 {
        return 0;
    }
    let rw = ramp(bits, w);
    proof {
        assert(l * (64 - rw) + h * rw <= 0x3ff_ffff * 64) by (nonlinear_arith)
            requires
                l <= 0x3ff_ffff,
                h <= 0x3ff_ffff,
                rw <= 64,
        ;
        assert(0 <= l * (64 - rw)) by (nonlinear_arith)
            requires
                rw <= 64,
        ;
        assert(0 <= h * rw) by (nonlinear_arith);
    }
    let sum = l * (64 - rw) + h * rw + 32;
    proof {
        lemma_u32_shr_is_div(sum, 6);
        lemma2_to64();
    }
    sum >> 6
}

/// An `n`-bit endpoint code widened to 8 bits: shifted to the top of the byte,
/// with its high bits copied into the low bits left empty.
pub open spec fn replicate8(x: nat, n: nat) -> nat {
    x * pow2((8 - n) as nat) + (x * pow2((8 - n) as nat)) / pow2(n)
}

/// The widened value of an `n`-bit code is a byte.
proof fn lemma_replicate8_bound(x: nat, n: nat)
    requires
        1 <= n <= 8,
        x < pow2(n),
    ensures
        x * pow2((8 - n) as nat) < 256,
        x * pow2((8 - n) as nat) / pow2(n) < pow2((8 - n) as nat),
        replicate8(x, n) < 256,
{
    lemma2_to64();
    lemma_pow2_pos((8 - n) as nat);
    lemma_pow2_adds(n, (8 - n) as nat);
    assert(n + (8 - n) as nat == 8);
    assert(pow2(n) * pow2((8 - n) as nat) == 256);
    let p = pow2((8 - n) as nat);
    let q = pow2(n);
    assert(x * p <= 256 - p) by (nonlinear_arith)
        requires
            x < q,
            q * p == 256,
            p > 0,
    ;
    assert(8 == n + (8 - n) as nat);
    lemma_div_pow2_bound(x * pow2((8 - n) as nat), n, (8 - n) as nat);
}

/// Widen a `val_bits`-bit endpoint code to 8 bits by bit replication.
pub fn bc7u_dequant(val: u32, val_bits: u32) -> (r: u32)
    requires
        1 <= val_bits <= 8,
        val < pow2(val_bits as nat),
    ensures
        r == replicate8(val as nat, val_bits as nat),
        r < 256,
{
    proof {
        lemma_replicate8_bound(val as nat, val_bits as nat);
        lemma_u32_shl_is_mul(val, (8 - val_bits) as u32);
    }
    let mut v = val << (8 - val_bits);
    proof {
        lemma_u32_shr_is_div(v, val_bits);
        lemma_u32_or_shl(v >> val_bits, val, (8 - val_bits) as u32);
    }
    v = v | (v >> val_bits);
    v
}

/// Widen a `val_bits`-bit endpoint code with its p-bit appended (a
/// `val_bits + 1`-bit code) to 8 bits by bit replication.
pub fn bc7u_dequant_p(val: u32, pbit: u32, val_bits: u32) -> (r: u32)
    requires
        1 <= val_bits <= 7,
        val < pow2(val_bits as nat),
        pbit < 2,
    ensures
        r == replicate8((2 * val + pbit) as nat, (val_bits + 1) as nat),
        r < 256,
{
    let total_bits = val_bits + 1;
    proof {
        lemma2_to64();
        lemma_pow2_adds(val_bits as nat, 1);
        lemma_u32_or_shl(pbit, val, 1);
    }
    let mut v = (val << 1) | pbit;
    proof {
        lemma_replicate8_bound(v as nat, total_bits as nat);
        lemma_u32_shl_is_mul(v, (8 - total_bits) as u32);
    }
    let ghost x = v;
    v = v << (8 - total_bits);
    proof {
        lemma_u32_shr_is_div(v, total_bits);
        lemma_u32_or_shl(v >> total_bits, x, (8 - total_bits) as u32);
    }
    v = v | (v >> total_bits);
    v
}

/// Read `codesize` bits of `buf` starting at bit `*bit_offset`, least
/// significant first, and advance the offset past them.
fn read_bits32(buf: &[u8; 16], bit_offset: &mut u32, codesize: u32) -> (r: u32)
    requires
        codesize <= 32,
        *old(bit_offset) + codesize <= 128,
    ensures
        *final(bit_offset) == *old(bit_offset) + codesize,
        r == nat_field(le_value(buf@), *old(bit_offset) as nat, codesize as nat),
{
    let ghost start = *bit_offset;
    let ghost x = le_value(buf@);
    let mut bits = 0u32;
    let mut total_bits = 0u32;
    proof {
        lemma2_to64();
    }
    while total_bits < codesize
        invariant
            codesize <= 32,
            start + codesize <= 128,
            total_bits <= codesize,
            *bit_offset == start + total_bits,
            bits == nat_field(x, start as nat, total_bits as nat),
            x == le_value(buf@),
        decreases codesize - total_bits,
    {
        proof {
            lemma2_to64();
            assert(*bit_offset >> 0u32 == *bit_offset) by {
                lemma_u32_shr_is_div(*bit_offset, 0);
            }
            lemma_u32_shr_mask(*bit_offset, 0, 3, 7);
            lemma_u32_shr_is_div(*bit_offset, 3);
        }
        let byte_bit_offset = *bit_offset & 7;
        let remaining = codesize - total_bits;
        let room = 8 - byte_bit_offset;
        let bits_to_read = if remaining < room { remaining } else { room };
        let k = *bit_offset >> 3;
        let byte = buf[k as usize] as u32;
        proof {
            lemma_u32_shl_is_mul(1, bits_to_read);
        }
        let mask = (1u32 << bits_to_read) - 1;
        let byte_bits = (byte >> byte_bit_offset) & mask;
        proof {
            lemma_u32_shr_mask(byte, byte_bit_offset, bits_to_read as nat, mask);
            lemma_le_value_byte(buf@, k as nat);
            lemma_field_in_byte(x, k as nat, byte_bit_offset as nat, bits_to_read as nat);
            assert(8 * k + byte_bit_offset == *bit_offset);
            lemma_field_concat(x, start as nat, total_bits as nat, bits_to_read as nat);
            lemma_pow2_pos(total_bits as nat);
            lemma_pow2_adds(total_bits as nat, bits_to_read as nat);
            lemma_mul_inequality(
                byte_bits as int,
                (pow2(bits_to_read as nat) - 1) as int,
                pow2(total_bits as nat) as int,
            );
            lemma_mul_is_commutative(pow2(bits_to_read as nat) as int, pow2(total_bits as nat) as int);
            if total_bits + bits_to_read < 32 {
                lemma_pow2_strictly_increases((total_bits + bits_to_read) as nat, 32);
            }
            lemma_u32_or_shl(bits, byte_bits, total_bits);
        }
        bits = bits | (byte_bits << total_bits);
        total_bits = total_bits + bits_to_read;
        *bit_offset = *bit_offset + bits_to_read;
    }
    bits
}

/// The bits of a BC7 block, read as one 128-bit little-endian integer.
pub open spec fn block_bits(block: [u8; 16]) -> nat {
    le_value(block@)
}

/// Load eight bytes of `block` from `start` as a little-endian word.
fn load_u64_le(block: &[u8; 16], start: usize) -> (r: u64)
    requires
        start + 8 <= 16,
    ensures
        r == le_value(block@.subrange(start as int, start + 8)),
{
    let mut r: u64 = 0;
    let mut i: usize = 0;
    proof {
        lemma2_to64();
    }
    while i < 8
        invariant
            start + 8 <= 16,
            i <= 8,
            r == le_value(block@.subrange(start as int, start + i)),
            r < pow2(8 * i as nat),
        decreases 8 - i,
    {
        let ghost sub = block@.subrange(start as int, start + i + 1);
        proof {
            assert(sub.drop_last() =~= block@.subrange(start as int, start + i));
            assert(sub.last() == block[start + i]);
            lemma_le_value_bound(sub);
            lemma2_to64();
            lemma_pow2_adds(8 * i as nat, 8);
            lemma_u64_pow2_le((8 * i + 8) as nat);
            lemma_mul_inequality(
                block[start + i] as int,
                255,
                pow2(8 * i as nat) as int,
            );
            lemma_u64_or_shl(r, block[start + i] as u64, (8 * i) as u64);
        }
        r = r | ((block[start + i] as u64) << ((8 * i) as u64));
        i = i + 1;
    }
    r
}

/// Store the low `n` bytes of `x` into `block` from `start`, least significant
/// first.
fn store_u64_le(block: &mut [u8; 16], start: usize, x: u64, n: usize)
    requires
        n <= 8,
        start + n <= 16,
    ensures
        forall|k: int|
            0 <= k < 16 ==> #[trigger] final(block)[k] == (if start <= k < start + n {
                nat_field(x as nat, (8 * (k - start)) as nat, 8) as u8
            } else {
                old(block)[k]
            }),
{
    let mut i: usize = 0;
    while i < n
        invariant
            n <= 8,
            start + n <= 16,
            i <= n,
            forall|k: int|
                0 <= k < 16 ==> #[trigger] block[k] == (if start <= k < start + i {
                    nat_field(x as nat, (8 * (k - start)) as nat, 8) as u8
                } else {
                    old(block)[k]
                }),
        decreases n - i,
    {
        proof {
            lemma2_to64();
            lemma_u64_shr_mask(x, (8 * i) as u64, 8, 255);
        }
        block[start + i] = ((x >> ((8 * i) as u64)) & 255) as u8;
        i = i + 1;
    }
}

/// A mode 6 block starts with the mode bits `1000000` (bit 6 set).
pub open spec fn is_mode6(x: nat) -> bool {
    nat_field(x, 0, 7) == 64
}

/// Mode 6 endpoint `e` (0 low, 1 high), channel `c` (RGBA): a 7-bit code and
/// the endpoint's p-bit, eight bits in all.
pub open spec fn mode6_endpoint(x: nat, c: nat, e: nat) -> nat {
    2 * nat_field(x, 7 + 14 * c + 7 * e, 7) + nat_field(x, 63 + e, 1)
}

/// Bit offset of texel `i`'s mode 6 index: the anchor texel 0 has three bits
/// at 65, every other texel four bits at `64 + 4i`.
pub open spec fn mode6_index_offset(i: nat) -> nat {
    if i == 0 { 65 } else { 64 + 4 * i }
}

/// Width of texel `i`'s mode 6 index.
pub open spec fn mode6_index_bits(i: nat) -> nat {
    if i == 0 { 3 } else { 4 }
}

/// Texel `i`'s mode 6 index into the 4-bit ramp.
pub open spec fn mode6_index(x: nat, i: nat) -> nat {
    nat_field(x, mode6_index_offset(i), mode6_index_bits(i))
}

/// Channel `c` of texel `i` of a mode 6 block.
pub open spec fn mode6_texel(x: nat, i: nat, c: nat) -> nat {
    interp(mode6_endpoint(x, c, 0), mode6_endpoint(x, c, 1), weight4(mode6_index(x, i)))
}

/// The interpolated value of two bytes is a byte.
proof fn lemma_interp_byte(l: nat, h: nat, r: nat)
    requires
        l < 256,
        h < 256,
        r <= 64,
    ensures
        interp(l, h, r) < 256,
        l * (64 - r) + h * r + 32 < 64 * 256,
{
    assert(l * (64 - r) + h * r <= 255 * 64) by (nonlinear_arith)
        requires
            l < 256,
            h < 256,
            r <= 64,
    ;
}

/// One channel of a 7-bit code with its p-bit: `(code << 1) | pbit`.
fn code_with_pbit(code: u32, pbit: u32) -> (r: u32)
    requires
        code < 128,
        pbit < 2,
    ensures
        r == 2 * code + pbit,
{
    proof {
        lemma2_to64();
        lemma_u32_or_shl(pbit, code, 1);
    }
    (code << 1) | pbit
}

/// The 7-bit field of a word at bit `ofs`.
fn field7(lo: u64, ofs: u64) -> (r: u32)
    requires
        ofs < 64,
    ensures
        r == nat_field(lo as nat, ofs as nat, 7),
        r < 128,
{
    proof {
        lemma2_to64();
        lemma_u64_shr_mask(lo, ofs, 7, 0x7F);
    }
    ((lo >> ofs) & 0x7F) as u32
}

/// Decode a mode 6 block: false, with `pixels` untouched, unless the block
/// holds mode 6; otherwise every texel interpolated from the two 8-bit RGBA
/// endpoints at its 4-bit index.
#[verifier::spinoff_prover]
pub fn unpack_bc7_mode6(block: &[u8; 16], pixels: &mut [Rgba; 16]) -> (ok: bool)
    ensures
        ok == is_mode6(block_bits(*block)),
        ok ==> forall|i: int, c: int|
            0 <= i < 16 && 0 <= c < 4 ==> final(pixels)[i][c] as nat == mode6_texel(
                block_bits(*block),
                i as nat,
                c as nat,
            ),
        !ok ==> *final(pixels) == *old(pixels),
{
    let ghost x = block_bits(*block);
    let lo = load_u64_le(block, 0);
    let hi = load_u64_le(block, 8);
    proof {
        assert(block@.subrange(0, 8) =~= block@.take(8));
        assert(block@.subrange(8, 16) =~= block@.skip(8));
        lemma_le_value_words(block@);
        lemma2_to64();
        assert(lo >> 0u64 == lo) by {
            lemma_u64_shr_is_div(lo, 0);
        }
        lemma_u64_shr_mask(lo, 0, 7, 0x7F);
        assert(nat_field(x, 0, 7) == nat_field(lo as nat, 0, 7));
    }
    if (lo & 0x7F) as u32 != 0x40 {
        return false;
    }
    let p0 = ((lo >> 63) & 1) as u32;
    proof {
        lemma_u64_shr_mask(lo, 63, 1, 1);
        assert(hi >> 0u64 == hi) by {
            lemma_u64_shr_is_div(hi, 0);
        }
        lemma_u64_shr_mask(hi, 0, 1, 1);
        assert(nat_field(x, 63, 1) == nat_field(lo as nat, 63, 1));
        assert(nat_field(x, 64, 1) == nat_field(hi as nat, 0, 1));
    }
    let p1 = (hi & 1) as u32;
    let r0 = code_with_pbit(field7(lo, 7), p0);
    let g0 = code_with_pbit(field7(lo, 21), p0);
    let b0 = code_with_pbit(field7(lo, 35), p0);
    let a0 = code_with_pbit(field7(lo, 49), p0);
    let r1 = code_with_pbit(field7(lo, 14), p1);
    let g1 = code_with_pbit(field7(lo, 28), p1);
    let b1 = code_with_pbit(field7(lo, 42), p1);
    let a1 = code_with_pbit(field7(lo, 56), p1);
    proof {
        assert(nat_field(x, 7, 7) == nat_field(lo as nat, 7, 7));
        assert(nat_field(x, 21, 7) == nat_field(lo as nat, 21, 7));
        assert(nat_field(x, 35, 7) == nat_field(lo as nat, 35, 7));
        assert(nat_field(x, 49, 7) == nat_field(lo as nat, 49, 7));
        assert(nat_field(x, 14, 7) == nat_field(lo as nat, 14, 7));
        assert(nat_field(x, 28, 7) == nat_field(lo as nat, 28, 7));
        assert(nat_field(x, 42, 7) == nat_field(lo as nat, 42, 7));
        assert(nat_field(x, 56, 7) == nat_field(lo as nat, 56, 7));
    }
    let e0: [u32; 4] = [r0, g0, b0, a0];
    let e1: [u32; 4] = [r1, g1, b1, a1];
    assert(forall|c: int| 0 <= c < 4 ==> e0[c] as nat == mode6_endpoint(x, c as nat, 0));
    assert(forall|c: int| 0 <= c < 4 ==> e1[c] as nat == mode6_endpoint(x, c as nat, 1));

    let mut vals = [[0u8; 4]; 16];
    let mut s: u32 = 0;
    while s < 16
        invariant
            s <= 16,
            forall|c: int| 0 <= c < 4 ==> e0[c] < 256 && e1[c] < 256,
            forall|j: int, c: int|
                0 <= j < s && 0 <= c < 4 ==> vals[j][c] as nat == interp(
                    e0[c] as nat,
                    e1[c] as nat,
                    weight4(j as nat),
                ),
        decreases 16 - s,
    {
        proof {
            lemma2_to64();
        }
        let w = ramp(4, s);
        let iw = 64 - w;
        let mut v = [0u8; 4];
        let mut c: usize = 0;
        while c < 4
            invariant
                c <= 4,
                w <= 64,
                iw == 64 - w,
                w == weight4(s as nat),
                forall|k: int| 0 <= k < 4 ==> e0[k] < 256 && e1[k] < 256,
                forall|k: int|
                    0 <= k < c ==> v[k] as nat == interp(e0[k] as nat, e1[k] as nat, w as nat),
            decreases 4 - c,
        {
            proof {
                lemma_interp_byte(e0[c as int] as nat, e1[c as int] as nat, w as nat);
                lemma2_to64();
            }
            let sum = e0[c] * iw + e1[c] * w + 32;
            proof {
                lemma_u32_shr_is_div(sum, 6);
            }
            v[c] = (sum >> 6) as u8;
            c = c + 1;
        }
        vals[s as usize] = v;
        s = s + 1;
    }

    let mut ofs: u64 = 1;
    let mut i: usize = 0;
    while i < 16
        invariant
            i <= 16,
            ofs == (if i == 0 { 1 } else { 4 * i }),
            hi as nat == le_value(block@.skip(8)),
            x == block_bits(*block),
            forall|o: nat, l: nat|
                o >= 64 ==> #[trigger] nat_field(x, o, l) == nat_field(
                    le_value(block@.skip(8)),
                    (o - 64) as nat,
                    l,
                ),
            forall|j: int, c: int|
                0 <= j < 16 && 0 <= c < 4 ==> vals[j][c] as nat == interp(
                    e0[c] as nat,
                    e1[c] as nat,
                    weight4(j as nat),
                ),
            forall|j: int| 0 <= j < i ==> #[trigger] pixels[j] == vals[mode6_index(x, j as nat) as int],
        decreases 16 - i,
    {
        let bits: u64 = if i == 0 { 3 } else { 4 };
        proof {
            lemma2_to64();
            lemma_u64_shl_is_mul(1, bits);
            assert(nat_field(x, mode6_index_offset(i as nat), bits as nat) == nat_field(
                hi as nat,
                ofs as nat,
                bits as nat,
            ));
        }
        let mask = (1u64 << bits) - 1;
        proof {
            lemma_u64_shr_mask(hi, ofs, bits as nat, mask);
        }
        let sel = ((hi >> ofs) & mask) as usize;
        pixels[i] = vals[sel];
        ofs = ofs + bits;
        i = i + 1;
    }
    true
}

/// An index mirrored when `flip` holds: `max - w`, else `w`.
pub open spec fn mirror(w: nat, max: nat, flip: bool) -> nat {
    if flip { (max - w) as nat } else { w }
}

/// The fields of a mode 6 block written for low endpoint `l` and high
/// endpoint `h` (7-bit RGBA codes), p-bits `p0`, `p1` and 4-bit indices `w`.
/// Texel 0's index is stored in three bits, so when its top bit is set the
/// endpoints and p-bits trade places and every index is mirrored.
pub open spec fn mode6_layout(
    x: nat,
    l: Seq<nat>,
    h: Seq<nat>,
    p0: nat,
    p1: nat,
    w: Seq<nat>,
) -> bool {
    let flip = w[0] >= 8;
    &&& is_mode6(x)
    &&& forall|c: nat|
        c < 4 ==> #[trigger] nat_field(x, 7 + 14 * c, 7) == (if flip { h[c as int] } else { l[c as int] })
    &&& forall|c: nat|
        c < 4 ==> #[trigger] nat_field(x, 14 + 14 * c, 7) == (if flip { l[c as int] } else { h[c as int] })
    &&& nat_field(x, 63, 1) == (if flip { p1 } else { p0 })
    &&& nat_field(x, 64, 1) == (if flip { p0 } else { p1 })
    &&& forall|i: nat| i < 16 ==> #[trigger] mode6_index(x, i) == mirror(w[i as int], 15, flip)
}

/// The bit offset, within the high word, of texel `i`'s mode 6 index.
pub open spec fn mode6_word_offset(i: nat) -> nat {
    if i == 0 { 1 } else { 4 * i }
}

/// The low word of a mode 6 block below the p-bit: the mode bits, then each
/// channel's low and high 7-bit codes, red first.
#[verifier::spinoff_prover]
fn mode6_low_word(lr: u32, hr: u32, lg: u32, hg: u32, lb: u32, hb: u32, la: u32, ha: u32) -> (x: u64)
    requires
        lr < 128 && lg < 128 && lb < 128 && la < 128,
        hr < 128 && hg < 128 && hb < 128 && ha < 128,
    ensures
        x < pow2(63),
        nat_field(x as nat, 0, 7) == 64,
        nat_field(x as nat, 7, 7) == lr,
        nat_field(x as nat, 14, 7) == hr,
        nat_field(x as nat, 21, 7) == lg,
        nat_field(x as nat, 28, 7) == hg,
        nat_field(x as nat, 35, 7) == lb,
        nat_field(x as nat, 42, 7) == hb,
        nat_field(x as nat, 49, 7) == la,
        nat_field(x as nat, 56, 7) == ha,
{
    proof {
        lemma2_to64();
    }
    let x0: u64 = 0x40;
    assert(nat_field(x0 as nat, 0, 7) == 64);
    proof { lemma_u64_append(x0, lr as u64, 7, 7); }
    let x1 = x0 | ((lr as u64) << 7);
    proof { lemma_u64_append(x1, hr as u64, 14, 7); }
    let x2 = x1 | ((hr as u64) << 14);
    proof { lemma_u64_append(x2, lg as u64, 21, 7); }
    let x3 = x2 | ((lg as u64) << 21);
    proof { lemma_u64_append(x3, hg as u64, 28, 7); }
    let x4 = x3 | ((hg as u64) << 28);
    proof { lemma_u64_append(x4, lb as u64, 35, 7); }
    let x5 = x4 | ((lb as u64) << 35);
    proof { lemma_u64_append(x5, hb as u64, 42, 7); }
    let x6 = x5 | ((hb as u64) << 42);
    proof { lemma_u64_append(x6, la as u64, 49, 7); }
    let x7 = x6 | ((la as u64) << 49);
    proof { lemma_u64_append(x7, ha as u64, 56, 7); }
    x7 | ((ha as u64) << 56)
}

/// The high word of a mode 6 block: `p1`, then each texel's index mirrored
/// by `weight_inv`, three bits for texel 0 and four for the rest.
#[verifier::spinoff_prover]
fn mode6_index_word(p1: u32, weights: &[u8; 16], weight_inv: u8, flip: Ghost<bool>) -> (y: u64)
    requires
        p1 < 2,
        forall|j: int| 0 <= j < 16 ==> weights[j] < 16,
        flip@ == (weights[0] >= 8),
        weight_inv == (if flip@ { 15u8 } else { 0u8 }),
    ensures
        nat_field(y as nat, 0, 1) == p1,
        forall|j: nat|
            j < 16 ==> #[trigger] nat_field(y as nat, mode6_word_offset(j), mode6_index_bits(j))
                == mirror(weights[j as int] as nat, 15, flip@),
{
    proof {
        lemma2_to64();
    }
    let mut y: u64 = p1 as u64;
    let mut ofs: u64 = 1;
    let mut i: usize = 0;
    assert(nat_field(y as nat, 0, 1) == p1);
    while i < 16
        invariant
            i <= 16,
            p1 < 2,
            forall|j: int| 0 <= j < 16 ==> weights[j] < 16,
            flip@ == (weights[0] >= 8),
            weight_inv == (if flip@ { 15u8 } else { 0u8 }),
            ofs == mode6_word_offset(i as nat),
            y < pow2(ofs as nat),
            nat_field(y as nat, 0, 1) == p1,
            forall|j: nat|
                j < i ==> #[trigger] nat_field(y as nat, mode6_word_offset(j), mode6_index_bits(j))
                    == mirror(weights[j as int] as nat, 15, flip@),
        decreases 16 - i,
    {
        proof {
            lemma_index_mirror(weights[i as int]);
            lemma_index_mirror(weights[0]);
            lemma2_to64();
        }
        let w = (weights[i] ^ weight_inv) as u64;
        let bits: u64 = if i == 0 { 3 } else { 4 };
        proof {
            lemma_u64_append(y, w, ofs, bits as nat);
        }
        y = y | (w << ofs);
        ofs = ofs + if i > 0 { 4 } else { 3 };
        i = i + 1;
    }
    y
}

/// A block whose low eight bytes hold `xl` with `p0` at bit 63 and whose high
/// eight bytes hold `y`: its fields are theirs.
#[verifier::spinoff_prover]
proof fn lemma_two_word_block(b: Seq<u8>, xl: nat, p0: nat, y: nat)
    requires
        b.len() == 16,
        xl < pow2(63),
        p0 < 2,
        y < pow2(64),
        forall|k: int| 0 <= k < 8 ==> b[k] == nat_field(xl + p0 * pow2(63), (8 * k) as nat, 8),
        forall|k: int| 8 <= k < 16 ==> b[k] == nat_field(y, (8 * (k - 8)) as nat, 8),
    ensures
        forall|o: nat, l: nat| o + l <= 63 ==> #[trigger] nat_field(le_value(b), o, l) == nat_field(xl, o, l),
        nat_field(le_value(b), 63, 1) == p0,
        forall|o: nat, l: nat|
            o >= 64 ==> #[trigger] nat_field(le_value(b), o, l) == nat_field(y, (o - 64) as nat, l),
{
    let xw = xl + p0 * pow2(63);
    lemma2_to64();
    lemma_field_append(xl, p0, 63, 1);
    assert forall|k: int| 0 <= k < 8 implies b.take(8)[k] == nat_field(xw, (8 * k) as nat, 8) by {}
    lemma_le_value_of_bytes(b.take(8), xw);
    lemma_small_mod(xw, pow2(64));
    assert forall|k: int| 0 <= k < 8 implies b.skip(8)[k] == nat_field(y, (8 * k) as nat, 8) by {
        assert(b.skip(8)[k] == b[k + 8]);
    }
    lemma_le_value_of_bytes(b.skip(8), y);
    lemma_small_mod(y, pow2(64));
    lemma_le_value_words(b);
    assert forall|o: nat, l: nat| o + l <= 63 implies #[trigger] nat_field(le_value(b), o, l) == nat_field(
        xl,
        o,
        l,
    ) by {
        assert(nat_field(le_value(b), o, l) == nat_field(xw, o, l));
    }
}

/// Write a mode 6 block: single subset, 7-bit RGBA endpoints, one p-bit per
/// endpoint, 4-bit indices.
#[verifier::spinoff_prover]
#[verifier::rlimit(40)]
pub fn encode_mode6_rgba_block(
    block: &mut [u8; 16],
    lr: u32,
    lg: u32,
    lb: u32,
    la: u32,
    p0: u32,
    hr: u32,
    hg: u32,
    hb: u32,
    ha: u32,
    p1: u32,
    weights: &[u8; 16],
)
    requires
        lr < 128 && lg < 128 && lb < 128 && la < 128,
        hr < 128 && hg < 128 && hb < 128 && ha < 128,
        p0 < 2 && p1 < 2,
        forall|i: int| 0 <= i < 16 ==> weights[i] < 16,
    ensures
        mode6_layout(
            block_bits(*final(block)),
            seq![lr as nat, lg as nat, lb as nat, la as nat],
            seq![hr as nat, hg as nat, hb as nat, ha as nat],
            p0 as nat,
            p1 as nat,
            weights@.map_values(|v: u8| v as nat),
        ),
{
    let ghost (olr, olg, olb, ola, op0) = (lr, lg, lb, la, p0);
    let ghost (ohr, ohg, ohb, oha, op1) = (hr, hg, hb, ha, p1);
    let mut lr = lr;
    let mut lg = lg;
    let mut lb = lb;
    let mut la = la;
    let mut p0 = p0;
    let mut hr = hr;
    let mut hg = hg;
    let mut hb = hb;
    let mut ha = ha;
    let mut p1 = p1;
    proof {
        lemma_index_mirror(weights[0]);
    }
    let mut weight_inv = 0u8;
    if weights[0] & 8 != 0 {
        core::mem::swap(&mut lr, &mut hr);
        core::mem::swap(&mut lg, &mut hg);
        core::mem::swap(&mut lb, &mut hb);
        core::mem::swap(&mut la, &mut ha);
        core::mem::swap(&mut p0, &mut p1);
        weight_inv = 15;
    }
    let ghost flip = weights[0] >= 8;
    let x = mode6_low_word(lr, hr, lg, hg, lb, hb, la, ha);
    store_u64_le(block, 0, x, 7);
    let top = x >> 56;
    let ghost xw: nat = x as nat + p0 as nat * pow2(63);
    proof {
        lemma2_to64();
        lemma_field_append(x as nat, p0 as nat, 63, 1);
        lemma_u64_shr_is_div(x, 56);
        lemma_div_pow2_bound(x as nat, 56, 7);
        assert(pow2(7) == 128);
        lemma_u64_or_shl(top, p0 as u64, 7);
        lemma_field_concat(xw, 56, 7, 1);
        lemma_small_mod(top as nat, pow2(7));
        assert(nat_field(x as nat, 56, 7) == top);
    }
    block[7] = (top | ((p0 as u64) << 7)) as u8;
    let y = mode6_index_word(p1, weights, weight_inv, Ghost(flip));
    store_u64_le(block, 8, y, 8);
    proof {
        let b = block@;
        assert forall|k: int| 0 <= k < 8 implies b[k] == nat_field(xw, (8 * k) as nat, 8) by {
            if k < 7 {
                assert(b[k] == nat_field(x as nat, (8 * k) as nat, 8));
                assert(8 * k + 8 <= 63);
            }
        }
        lemma_two_word_block(b, x as nat, p0 as nat, y as nat);
        let xb = le_value(b);
        let lseq = seq![olr as nat, olg as nat, olb as nat, ola as nat];
        let hseq = seq![ohr as nat, ohg as nat, ohb as nat, oha as nat];
        let ws = weights@.map_values(|v: u8| v as nat);
        assert(ws[0] == weights[0]);
        assert(nat_field(xb, 0, 7) == nat_field(x as nat, 0, 7));
        assert forall|c: nat| c < 4 implies #[trigger] nat_field(xb, 7 + 14 * c, 7) == (if flip {
            hseq[c as int]
        } else {
            lseq[c as int]
        }) by {
            assert(nat_field(xb, 7 + 14 * c, 7) == nat_field(x as nat, 7 + 14 * c, 7));
        }
        assert forall|c: nat| c < 4 implies #[trigger] nat_field(xb, 14 + 14 * c, 7) == (if flip {
            lseq[c as int]
        } else {
            hseq[c as int]
        }) by {
            assert(nat_field(xb, 14 + 14 * c, 7) == nat_field(x as nat, 14 + 14 * c, 7));
        }
        assert(nat_field(xb, 64, 1) == nat_field(y as nat, 0, 1));
        assert forall|i: nat| i < 16 implies #[trigger] mode6_index(xb, i) == mirror(
            ws[i as int],
            15,
            flip,
        ) by {
            assert(mode6_index_offset(i) >= 64);
            assert((mode6_index_offset(i) - 64) as nat == mode6_word_offset(i));
            assert(ws[i as int] == weights[i as int]);
        }
    }
}

/// Interpolating from the other end with the complementary weight gives the
/// same value.
pub proof fn lemma_interp_swap(a: nat, b: nat, r: nat)
    requires
        r <= 64,
    ensures
        interp(a, b, (64 - r) as nat) == interp(b, a, r),
{
    assert(a * (64 - (64 - r)) == a * r);
    lemma_mul_is_commutative(a as int, r as int);
}

/// Reading back a mode 6 block: for every texel and channel, the decoder's
/// value is the interpolation between the endpoints the writer was given
/// (each 7-bit code with its p-bit) at the texel's own index, whichever way
/// the writer oriented the endpoints.
#[verifier::spinoff_prover]
pub proof fn lemma_mode6_roundtrip(
    x: nat,
    l: Seq<nat>,
    h: Seq<nat>,
    p0: nat,
    p1: nat,
    w: Seq<nat>,
)
    requires
        l.len() == 4,
        h.len() == 4,
        w.len() == 16,
        forall|c: int| 0 <= c < 4 ==> l[c] < 128 && h[c] < 128,
        p0 < 2,
        p1 < 2,
        forall|i: int| 0 <= i < 16 ==> w[i] < 16,
        mode6_layout(x, l, h, p0, p1, w),
    ensures
        is_mode6(x),
        forall|i: nat, c: nat|
            i < 16 && c < 4 ==> #[trigger] mode6_texel(x, i, c) == interp(
                2 * l[c as int] + p0,
                2 * h[c as int] + p1,
                weight4(w[i as int]),
            ),
{
    let flip = w[0] >= 8;
    assert forall|i: nat, c: nat| i < 16 && c < 4 implies #[trigger] mode6_texel(x, i, c) == interp(
        2 * l[c as int] + p0,
        2 * h[c as int] + p1,
        weight4(w[i as int]),
    ) by {
        assert(nat_field(x, 7 + 14 * c, 7) == (if flip { h[c as int] } else { l[c as int] }));
        assert(nat_field(x, 14 + 14 * c, 7) == (if flip { l[c as int] } else { h[c as int] }));
        assert(mode6_endpoint(x, c, 0) == 2 * nat_field(x, 7 + 14 * c, 7) + nat_field(x, 63, 1));
        assert(mode6_endpoint(x, c, 1) == 2 * nat_field(x, 14 + 14 * c, 7) + nat_field(x, 64, 1));
        assert(mode6_index(x, i) == mirror(w[i as int], 15, flip));
        lemma2_to64();
        lemma_ramp_symmetric(4, w[i as int]);
        if flip {
            lemma_interp_swap(
                2 * l[c as int] + p0,
                2 * h[c as int] + p1,
                weight4(w[i as int]),
            );
        }
    }
}

/// `(v << (8 - n)) | (v >> (2n - 8))` widens an `n`-bit code by replication,
/// for 5-, 6- and 7-bit codes.
proof fn lemma_widen(v: u32, n: u32)
    requires
        5 <= n <= 7,
        v < pow2(n as nat),
    ensures
        (v << ((8 - n) as u32)) | (v >> ((2 * n - 8) as u32)) == replicate8(v as nat, n as nat),
        replicate8(v as nat, n as nat) < 256,
{
    let k = (8 - n) as u32;
    let m = (2 * n - 8) as u32;
    lemma2_to64();
    lemma_replicate8_bound(v as nat, n as nat);
    lemma_u32_shl_is_mul(v, k);
    lemma_u32_shr_is_div(v, m);
    assert(m + k == n);
    lemma_div_pow2_bound(v as nat, m as nat, k as nat);
    lemma_u32_or_shl(v >> m, v, k);
    // (v * 2^k) / 2^n == v / 2^m
    lemma_pow2_pos(k as nat);
    lemma_pow2_pos(m as nat);
    lemma_pow2_adds(k as nat, m as nat);
    assert(k + m == n);
    vstd::arithmetic::div_mod::lemma_div_denominator(
        (v * pow2(k as nat)) as int,
        pow2(k as nat) as int,
        pow2(m as nat) as int,
    );
    vstd::arithmetic::div_mod::lemma_div_multiples_vanish(v as int, pow2(k as nat) as int);
    lemma_mul_is_commutative(v as int, pow2(k as nat) as int);
}

/// Expand a 7-bit endpoint code to 8 bits, copying its high bit into the new
/// low bit.
pub fn from_7(v: u32) -> (r: u32)
    requires
        v < 128,
    ensures
        r == replicate8(v as nat, 7),
        r < 256,
{
    proof {
        lemma2_to64();
        lemma_widen(v, 7);
    }
    (v << 1) | (v >> 6)
}

/// A 7-bit code with p-bit `p` appended: the full 8-bit endpoint.
pub fn from_7_p(v: u32, p: u32) -> (r: u32)
    requires
        v < 128,
        p < 2,
    ensures
        r == 2 * v + p,
        r < 256,
{
    proof {
        lemma2_to64();
        lemma_u32_or_shl(p, v, 1);
    }
    (v << 1) | p
}

/// Quantize an 8-bit component to a 7-bit code whose p-bit will be `pbit`.
pub fn to_7_int_p(c8: i32, pbit: i32) -> (r: i32)
    requires
        0 <= c8 <= 255,
        0 <= pbit <= 1,
    ensures
        r == (if (c8 + 1 - pbit) / 2 < 127 { (c8 + 1 - pbit) / 2 } else { 127 }),
        0 <= r <= 127,
{
    proof {
        lemma_word_bits(pbit as u32, 0, 0);
        lemma_u32_shr_is_div(((c8 as u32) + ((pbit as u32) ^ 1)) as u32, 1);
        lemma2_to64();
    }
    let e = ((c8 as u32) + ((pbit as u32) ^ 1)) >> 1;
    (if e < 127 { e } else { 127 }) as i32
}

/// Quantize an 8-bit component to 7 bits, rounded.
pub fn to_7_int(c8: i32) -> (r: i32)
    requires
        0 <= c8 <= 255,
    ensures
        r == (c8 * 127 + 127) / 255,
        0 <= r <= 127,
{
    (c8 * 127 + 127) / 255
}

/// Quantize an 8-bit component to 5 bits, rounded.
pub fn to_5_int(c8: i32) -> (r: i32)
    requires
        0 <= c8 <= 255,
    ensures
        r == (c8 * 31 + 127) / 255,
        0 <= r <= 31,
{
    (c8 * 31 + 127) / 255
}

/// Quantize an 8-bit component to 6 bits, rounded.
pub fn to_6_int(c8: i32) -> (r: i32)
    requires
        0 <= c8 <= 255,
    ensures
        r == (c8 * 63 + 127) / 255,
        0 <= r <= 63,
{
    (c8 * 63 + 127) / 255
}

/// A rounded code `q` (of `scale` steps over 0..=255, at most `max`) moved by
/// one step to parity `pbit` when its parity differs: toward the exact value
/// `c8 * scale / 255`, or away from a bound it sits on.
pub open spec fn nudge_parity(q: int, c8: int, scale: int, max: int, pbit: int) -> int {
    if q % 2 != pbit {
        if c8 * scale >= 255 * q {
            if q < max { q + 1 } else { q - 1 }
        } else {
            if q > 0 { q - 1 } else { q + 1 }
        }
    } else {
        q
    }
}

/// The parity nudge of a rounded code: its value, parity and range.
proof fn lemma_nudge_parity(q: int, c8: int, scale: int, max: int, pbit: int)
    requires
        0 <= q <= max,
        max % 2 == 1,
        0 <= pbit <= 1,
    ensures
        nudge_parity(q, c8, scale, max, pbit) % 2 == pbit,
        0 <= nudge_parity(q, c8, scale, max, pbit) <= max,
        q - 1 <= nudge_parity(q, c8, scale, max, pbit) <= q + 1,
{
}

/// Quantize an 8-bit component to 6 bits plus `pbit`: the rounded 7-bit code
/// nudged to parity `pbit`, then halved.
pub fn to_6_int_p(c8: i32, pbit: i32) -> (r: i32)
    requires
        0 <= c8 <= 255,
        0 <= pbit <= 1,
    ensures
        r == nudge_parity((c8 * 127 + 127) / 255, c8 as int, 127, 127, pbit as int) / 2,
        0 <= r <= 63,
        (2 * r + pbit) as int == nudge_parity((c8 * 127 + 127) / 255, c8 as int, 127, 127, pbit as int),
{
    let mut q7 = (c8 * 127 + 127) / 255;
    let ghost q0 = q7;
    proof {
        lemma_word_bits(0, q7, 0);
        lemma_nudge_parity(q0 as int, c8 as int, 127, 127, pbit as int);
    }
    if (q7 & 1) != pbit {
        let lhs = c8 * 127;
        let rhs = 255 * q7;
        if lhs >= rhs {
            q7 = if q7 < 127 { q7 + 1 } else { q7 - 1 };
        } else {
            q7 = if q7 > 0 { q7 - 1 } else { q7 + 1 };
        }
    }
    proof {
        lemma_word_bits(0, q7, 0);
    }
    q7 >> 1
}

/// Quantize an 8-bit component to 5 bits plus `pbit`: the rounded 6-bit code
/// nudged to parity `pbit`, then halved.
pub fn to_5_int_p(c8: i32, pbit: i32) -> (r: i32)
    requires
        0 <= c8 <= 255,
        0 <= pbit <= 1,
    ensures
        r == nudge_parity((c8 * 63 + 127) / 255, c8 as int, 63, 63, pbit as int) / 2,
        0 <= r <= 31,
        (2 * r + pbit) as int == nudge_parity((c8 * 63 + 127) / 255, c8 as int, 63, 63, pbit as int),
{
    let mut q6 = (c8 * 63 + 127) / 255;
    let ghost q0 = q6;
    proof {
        lemma_word_bits(0, q6, 0);
        lemma_nudge_parity(q0 as int, c8 as int, 63, 63, pbit as int);
    }
    if (q6 & 1) != pbit {
        let lhs = c8 * 63;
        let rhs = 255 * q6;
        if lhs >= rhs {
            q6 = if q6 < 63 { q6 + 1 } else { q6 - 1 };
        } else {
            q6 = if q6 > 0 { q6 - 1 } else { q6 + 1 };
        }
    }
    proof {
        lemma_word_bits(0, q6, 0);
    }
    q6 >> 1
}

/// A 6-bit code with p-bit `p` appended, widened from 7 bits to 8.
pub fn from_6_p(v: u32, p: u32) -> (r: u32)
    requires
        v < 64,
        p < 2,
    ensures
        r == replicate8((2 * v + p) as nat, 7),
        r < 256,
{
    proof {
        lemma2_to64();
        lemma_u32_or_shl(p, v, 1);
    }
    let v = (v << 1) | p;
    proof {
        lemma_widen(v, 7);
    }
    (v << 1) | (v >> 6)
}

/// A 4-bit code with p-bit `p` appended, widened from 5 bits to 8.
pub fn from_4_p(v: u32, p: u32) -> (r: u32)
    requires
        v < 16,
        p < 2,
    ensures
        r == replicate8((2 * v + p) as nat, 5),
        r < 256,
{
    proof {
        lemma2_to64();
        lemma_u32_or_shl(p, v, 1);
    }
    let v = (v << 1) | p;
    proof {
        lemma_widen(v, 5);
    }
    (v << 3) | (v >> 2)
}

/// Expand a 5-bit endpoint code to 8 bits by replication.
pub fn from_5(v: u32) -> (r: u32)
    requires
        v < 32,
    ensures
        r == replicate8(v as nat, 5),
        r < 256,
{
    proof {
        lemma2_to64();
        lemma_widen(v, 5);
    }
    (v << 3) | (v >> 2)
}

/// A 5-bit code with p-bit `p` appended, widened from 6 bits to 8.
pub fn from_5_p(v: u32, p: u32) -> (r: u32)
    requires
        v < 32,
        p < 2,
    ensures
        r == replicate8((2 * v + p) as nat, 6),
        r < 256,
{
    proof {
        lemma2_to64();
        lemma_u32_or_shl(p, v, 1);
    }
    let v = (v << 1) | p;
    proof {
        lemma_widen(v, 6);
    }
    (v << 2) | (v >> 4)
}

/// Expand a 6-bit endpoint code to 8 bits by replication.
pub fn from_6(v: u32) -> (r: u32)
    requires
        v < 64,
    ensures
        r == replicate8(v as nat, 6),
        r < 256,
{
    proof {
        lemma2_to64();
        lemma_widen(v, 6);
    }
    (v << 2) | (v >> 4)
}

/// The squared error of one channel: pixel `p` against the value interpolated
/// from low endpoint `l` with delta `d` at ramp weight `w`.
pub open spec fn channel_sse(p: int, l: int, d: int, w: int) -> int {
    let e = p - (l + (d * w + 32) / 64);
    e * e
}

/// The squared error of one channel of a texel at ramp weight `w`.
pub fn bc7_sse_1(pr: i32, lr: i32, dr: i32, w: i32) -> (r: u32)
    requires
        0 <= pr <= 255,
        0 <= lr <= 255,
        -255 <= dr <= 255,
        0 <= w <= 64,
    ensures
        r == channel_sse(pr as int, lr as int, dr as int, w as int),
{
    proof {
        lemma_shr6_floor(dr, w);
    }
    let re = pr - (lr + ((dr * w + 32) >> 6));
    proof {
        lemma_square_bound(re);
    }
    (re * re) as u32
}

/// `(d * w + 32) >> 6` is the floor of `(d * w + 32) / 64`, and stays within
/// the channel range.
proof fn lemma_shr6_floor(d: i32, w: i32)
    requires
        -255 <= d <= 255,
        0 <= w <= 64,
    ensures
        -16320 <= d * w <= 16320,
        ((d * w + 32) as i32) >> 6i32 == (d * w + 32) / 64,
        -255 <= (d * w + 32) / 64 <= 255,
{
    assert(-16320 <= d * w <= 16320) by (nonlinear_arith)
        requires
            -255 <= d <= 255,
            0 <= w <= 64,
    ;
    let x = (d * w + 32) as i32;
    lemma_word_bits(0, 0, x);
    vstd::arithmetic::div_mod::lemma_fundamental_div_mod_converse(
        x as int,
        64,
        (x >> 6i32) as int,
        x - 64 * (x >> 6i32),
    );
}

/// The squared error of an RGB texel at ramp weight `w`.
pub fn bc7_sse_3(
    pr: i32,
    pg: i32,
    pb: i32,
    lr: i32,
    lg: i32,
    lb: i32,
    dr: i32,
    dg: i32,
    db: i32,
    w: i32,
) -> (r: u32)
    requires
        0 <= pr <= 255 && 0 <= pg <= 255 && 0 <= pb <= 255,
        0 <= lr <= 255 && 0 <= lg <= 255 && 0 <= lb <= 255,
        -255 <= dr <= 255 && -255 <= dg <= 255 && -255 <= db <= 255,
        0 <= w <= 64,
    ensures
        r == channel_sse(pr as int, lr as int, dr as int, w as int) + channel_sse(
            pg as int,
            lg as int,
            dg as int,
            w as int,
        ) + channel_sse(pb as int, lb as int, db as int, w as int),
{
    proof {
        lemma_shr6_floor(dr, w);
        lemma_shr6_floor(dg, w);
        lemma_shr6_floor(db, w);
    }
    let re = pr - (lr + ((dr * w + 32) >> 6));
    let ge = pg - (lg + ((dg * w + 32) >> 6));
    let be = pb - (lb + ((db * w + 32) >> 6));
    proof {
        lemma_square_bound(re);
        lemma_square_bound(ge);
        lemma_square_bound(be);
    }
    (re * re + ge * ge + be * be) as u32
}

/// The square of a channel error is small and non-negative.
proof fn lemma_square_bound(e: i32)
    requires
        -510 <= e <= 510,
    ensures
        0 <= e * e <= 260100,
{
    assert(0 <= e * e <= 260100) by (nonlinear_arith)
        requires
            -510 <= e <= 510,
    ;
}

/// The squared error of an RGBA texel at ramp weight `w`.
pub fn bc7_sse_4(
    pr: i32,
    pg: i32,
    pb: i32,
    pa: i32,
    lr: i32,
    lg: i32,
    lb: i32,
    la: i32,
    dr: i32,
    dg: i32,
    db: i32,
    da: i32,
    w: i32,
) -> (r: u32)
    requires
        0 <= pr <= 255 && 0 <= pg <= 255 && 0 <= pb <= 255 && 0 <= pa <= 255,
        0 <= lr <= 255 && 0 <= lg <= 255 && 0 <= lb <= 255 && 0 <= la <= 255,
        -255 <= dr <= 255 && -255 <= dg <= 255 && -255 <= db <= 255 && -255 <= da <= 255,
        0 <= w <= 64,
    ensures
        r == channel_sse(pr as int, lr as int, dr as int, w as int) + channel_sse(
            pg as int,
            lg as int,
            dg as int,
            w as int,
        ) + channel_sse(pb as int, lb as int, db as int, w as int) + channel_sse(
            pa as int,
            la as int,
            da as int,
            w as int,
        ),
{
    proof {
        lemma_shr6_floor(dr, w);
        lemma_shr6_floor(dg, w);
        lemma_shr6_floor(db, w);
        lemma_shr6_floor(da, w);
    }
    let re = pr - (lr + ((dr * w + 32) >> 6));
    let ge = pg - (lg + ((dg * w + 32) >> 6));
    let be = pb - (lb + ((db * w + 32) >> 6));
    let ae = pa - (la + ((da * w + 32) >> 6));
    proof {
        lemma_square_bound(re);
        lemma_square_bound(ge);
        lemma_square_bound(be);
        lemma_square_bound(ae);
    }
    (re * re + ge * ge + be * be + ae * ae) as u32
}

/// The squared RGB distance between two colors.
pub fn dist3(lr: i32, lg: i32, lb: i32, hr: i32, hg: i32, hb: i32) -> (r: i32)
    requires
        0 <= lr <= 255 && 0 <= lg <= 255 && 0 <= lb <= 255,
        0 <= hr <= 255 && 0 <= hg <= 255 && 0 <= hb <= 255,
    ensures
        r == (hr - lr) * (hr - lr) + (hg - lg) * (hg - lg) + (hb - lb) * (hb - lb),
{
    let dr = hr - lr;
    let dg = hg - lg;
    let db = hb - lb;
    proof {
        lemma_square_bound(dr);
        lemma_square_bound(dg);
        lemma_square_bound(db);
    }
    dr * dr + dg * dg + db * db
}

/// Endpoint code width of color channels in mode 4 (5) or mode 5 (7).
pub open spec fn m45_color_bits(mode: nat) -> nat {
    if mode == 4 { 5 } else { 7 }
}

/// Endpoint code width of alpha in mode 4 (6) or mode 5 (8).
pub open spec fn m45_alpha_bits(mode: nat) -> nat {
    if mode == 4 { 6 } else { 8 }
}

/// Width of the second index set: 3 bits in mode 4, 2 in mode 5 (the first
/// set is 2 bits in both).
pub open spec fn m45_second_bits(mode: nat) -> nat {
    if mode == 4 { 3 } else { 2 }
}

/// A mode 4 or 5 block starts with `mode` zero bits and a one.
pub open spec fn is_mode45(x: nat, mode: nat) -> bool {
    nat_field(x, 0, mode + 1) == pow2(mode)
}

/// The channel rotation: 0 none, `r` swaps alpha with channel `r - 1`.
pub open spec fn m45_rotation(x: nat, mode: nat) -> nat {
    nat_field(x, mode + 1, 2)
}

/// The index-selection bit of mode 4 (0 in mode 5): set, the second index
/// set drives color and the first drives alpha.
pub open spec fn m45_index_mode(x: nat, mode: nat) -> nat {
    if mode == 4 { nat_field(x, 7, 1) } else { 0 }
}

/// Bit offset of the code of endpoint `e`, channel `c`.
pub open spec fn m45_endpoint_offset(mode: nat, c: nat, e: nat) -> nat {
    if c < 3 {
        8 + (2 * c + e) * m45_color_bits(mode)
    } else {
        8 + 6 * m45_color_bits(mode) + e * m45_alpha_bits(mode)
    }
}

/// Width of the code of channel `c`.
pub open spec fn m45_endpoint_bits(mode: nat, c: nat) -> nat {
    if c < 3 { m45_color_bits(mode) } else { m45_alpha_bits(mode) }
}

/// Endpoint `e`, channel `c`, widened to 8 bits.
pub open spec fn m45_endpoint(x: nat, mode: nat, c: nat, e: nat) -> nat {
    replicate8(
        nat_field(x, m45_endpoint_offset(mode, c, e), m45_endpoint_bits(mode, c)),
        m45_endpoint_bits(mode, c),
    )
}

/// Bit offset where the index sets start.
pub open spec fn m45_index_start(mode: nat) -> nat {
    8 + 6 * m45_color_bits(mode) + 2 * m45_alpha_bits(mode)
}

/// Bit offset of texel `i`'s index in a set of `bits`-bit indices starting
/// at `start`: texel 0 first, with one bit less than the rest.
pub open spec fn set_offset(start: nat, bits: nat, i: nat) -> nat {
    if i == 0 { start } else { (start + bits * i - 1) as nat }
}

/// Width of texel `i`'s index in a set of `bits`-bit indices.
pub open spec fn set_width(bits: nat, i: nat) -> nat {
    if i == 0 { (bits - 1) as nat } else { bits }
}

/// Texel `i`'s index in a set of `bits`-bit indices starting at `start`.
pub open spec fn set_index(x: nat, start: nat, bits: nat, i: nat) -> nat {
    nat_field(x, set_offset(start, bits, i), set_width(bits, i))
}

/// Earlier indices of a set end before later ones start.
proof fn lemma_set_offsets(start: nat, bits: nat, k: nat, i: nat)
    requires
        1 <= bits,
        k < i,
    ensures
        set_offset(start, bits, k) + set_width(bits, k) <= set_offset(start, bits, i),
        set_offset(start, bits, k) + set_width(bits, k) == start + bits * (k + 1) - 1,
{
    let bk = bits * k;
    let bi = bits * i;
    let bk1 = bits * (k + 1);
    assert(bk1 == bk + bits) by (nonlinear_arith)
        requires
            bk1 == bits * (k + 1),
            bk == bits * k,
    ;
    assert(bk1 <= bi) by (nonlinear_arith)
        requires
            k < i,
            1 <= bits,
            bk1 == bits * (k + 1),
            bi == bits * i,
    ;
    assert(bk >= 0) by (nonlinear_arith)
        requires
            bk == bits * k,
    ;
    if k == 0 {
        assert(bk == 0) by (nonlinear_arith)
            requires
                bk == bits * k,
                k == 0,
        ;
        assert(set_offset(start, bits, k) == start);
        assert(set_width(bits, k) == bits - 1);
    } else {
        assert(bk >= bits) by (nonlinear_arith)
            requires
                bk == bits * k,
                k >= 1,
        ;
        assert(set_offset(start, bits, k) == start + bk - 1);
        assert(set_width(bits, k) == bits);
    }
    assert(bi >= bits) by (nonlinear_arith)
        requires
            bi == bits * i,
            i >= 1,
    ;
    assert(set_offset(start, bits, i) == start + bi - 1);
}

/// Texel `i`'s index in the first set.
pub open spec fn m45_first_index(x: nat, mode: nat, i: nat) -> nat {
    set_index(x, m45_index_start(mode), 2, i)
}

/// Texel `i`'s index in the second set.
pub open spec fn m45_second_index(x: nat, mode: nat, i: nat) -> nat {
    set_index(x, m45_index_start(mode) + 31, m45_second_bits(mode), i)
}

/// Channel `c` of texel `i` before rotation: color from the color index set
/// on its ramp, alpha from the alpha index set on its ramp.
pub open spec fn m45_texel_unrotated(x: nat, mode: nat, i: nat, c: nat) -> nat {
    let swap = m45_index_mode(x, mode) == 1;
    let (idx, bits) = if c < 3 {
        if swap { (m45_second_index(x, mode, i), m45_second_bits(mode)) } else { (m45_first_index(x, mode, i), 2nat) }
    } else {
        if swap { (m45_first_index(x, mode, i), 2nat) } else { (m45_second_index(x, mode, i), m45_second_bits(mode)) }
    };
    interp(m45_endpoint(x, mode, c, 0), m45_endpoint(x, mode, c, 1), ramp_weight(bits, idx))
}

/// Channel `c` of texel `i` of a mode 4 or 5 block, after the rotation.
pub open spec fn m45_texel(x: nat, mode: nat, i: nat, c: nat) -> nat {
    let rot = m45_rotation(x, mode);
    let src = if rot >= 1 && c == 3 { (rot - 1) as nat } else if rot >= 1 && c == rot - 1 { 3 } else { c };
    m45_texel_unrotated(x, mode, i, src)
}

/// Read the sixteen indices of one index set: `bits` bits each, one less for
/// texel 0.
fn read_index_set(block: &[u8; 16], bit_offset: &mut u32, bits: u32) -> (w: [u32; 16])
    requires
        2 <= bits <= 3,
        *old(bit_offset) + 16 * bits - 1 <= 128,
    ensures
        *final(bit_offset) == *old(bit_offset) + 16 * bits - 1,
        forall|i: int| 0 <= i < 16 ==> #[trigger] w[i] as nat == set_index(
            block_bits(*block),
            *old(bit_offset) as nat,
            bits as nat,
            i as nat,
        ),
        forall|i: int| 0 <= i < 16 ==> #[trigger] w[i] < pow2(bits as nat),
{
    let ghost start = *bit_offset;
    let mut w = [0u32; 16];
    let mut i: usize = 0;
    while i < 16
        invariant
            2 <= bits <= 3,
            start + 16 * bits - 1 <= 128,
            i <= 16,
            *bit_offset == (if i == 0 { start as int } else { start + bits * i - 1 }),
            forall|k: int| 0 <= k < i ==> #[trigger] w[k] as nat == set_index(
                block_bits(*block),
                start as nat,
                bits as nat,
                k as nat,
            ),
            forall|k: int| 0 <= k < i ==> #[trigger] w[k] < pow2(bits as nat),
        decreases 16 - i,
    {
        let n = bits - if i == 0 { 1u32 } else { 0u32 };
        proof {
            vstd::arithmetic::mul::lemma_mul_inequality(i as int, 15, bits as int);
            vstd::arithmetic::mul::lemma_mul_is_distributive_add(bits as int, i as int, 1);
            vstd::arithmetic::mul::lemma_mul_is_commutative(bits as int, i as int);
            vstd::arithmetic::mul::lemma_mul_is_commutative(bits as int, (i + 1) as int);
        }
        let v = read_bits32(block, bit_offset, n);
        proof {
            lemma2_to64();
            vstd::arithmetic::div_mod::lemma_mod_bound(
                (le_value(block@) / pow2((*bit_offset - n) as nat)) as int,
                pow2(n as nat) as int,
            );
            lemma_pow2_pos(n as nat);
            if n < bits {
                lemma_pow2_strictly_increases(n as nat, bits as nat);
            }
        }
        w[i] = v;
        i = i + 1;
    }
    w
}

/// Decode a mode 4 or 5 block (`mode` 4 or 5): false, with `pixels`
/// untouched, unless the block holds that mode; otherwise every texel's color
/// and alpha interpolated at its own indices, then the channel rotation.
#[verifier::spinoff_prover]
pub fn unpack_bc7_mode4_5(mode: u32, block: &[u8; 16], pixels: &mut [Rgba; 16]) -> (ok: bool)
    requires
        mode == 4 || mode == 5,
    ensures
        ok == is_mode45(block_bits(*block), mode as nat),
        ok ==> forall|i: int, c: int|
            0 <= i < 16 && 0 <= c < 4 ==> #[trigger] final(pixels)[i][c] as nat == m45_texel(
                block_bits(*block),
                mode as nat,
                i as nat,
                c as nat,
            ),
        !ok ==> *final(pixels) == *old(pixels),
{
    let ghost x = block_bits(*block);
    let weight_bits: u32 = 2;
    let a_weight_bits: u32 = if mode == 4 { 3 } else { 2 };
    let endpoint_bits: u32 = if mode == 4 { 5 } else { 7 };
    let a_endpoint_bits: u32 = if mode == 4 { 6 } else { 8 };
    proof {
        lemma2_to64();
        lemma_u32_shl_is_mul(1, mode);
    }
    let mut bit_offset = 0u32;
    if read_bits32(block, &mut bit_offset, mode + 1) != (1 << mode) {
        return false;
    }
    let comp_rot = read_bits32(block, &mut bit_offset, 2) as usize;
    let index_mode = if mode == 4 { read_bits32(block, &mut bit_offset, 1) as usize } else { 0 };
    proof {
        vstd::arithmetic::div_mod::lemma_mod_bound((x / pow2(mode as nat + 1)) as int, pow2(2) as int);
        vstd::arithmetic::div_mod::lemma_mod_bound((x / pow2(7)) as int, pow2(1) as int);
        assert(comp_rot as nat == m45_rotation(x, mode as nat));
        assert(index_mode as nat == m45_index_mode(x, mode as nat));
        assert(bit_offset == 8);
    }
    let mut endpoints = [[0u32; 4]; 2];
    let mut c: usize = 0;
    while c < 4
        invariant
            mode == 4 || mode == 5,
            x == block_bits(*block),
            endpoint_bits as nat == m45_color_bits(mode as nat),
            a_endpoint_bits as nat == m45_alpha_bits(mode as nat),
            c <= 4,
            bit_offset as nat == (if c < 4 { m45_endpoint_offset(mode as nat, c as nat, 0) } else { m45_index_start(mode as nat) }),
            forall|cc: int, e: int|
                0 <= cc < c && 0 <= e < 2 ==> #[trigger] endpoints[e][cc] as nat == nat_field(
                    x,
                    m45_endpoint_offset(mode as nat, cc as nat, e as nat),
                    m45_endpoint_bits(mode as nat, cc as nat),
                ),
        decreases 4 - c,
    {
        let bits = if c == 3 { a_endpoint_bits } else { endpoint_bits };
        let v0 = read_bits32(block, &mut bit_offset, bits);
        let v1 = read_bits32(block, &mut bit_offset, bits);
        endpoints[0][c] = v0;
        endpoints[1][c] = v1;
        c = c + 1;
    }
    let wb: [u32; 2] = [
        if index_mode != 0 { a_weight_bits } else { weight_bits },
        if index_mode != 0 { weight_bits } else { a_weight_bits },
    ];
    let ghost start = bit_offset;
    let first = read_index_set(block, &mut bit_offset, wb[index_mode]);
    let second = read_index_set(block, &mut bit_offset, wb[1 - index_mode]);
    let (weights, a_weights) = if index_mode != 0 { (second, first) } else { (first, second) };
    proof {
        assert(start as nat == m45_index_start(mode as nat));
        assert(wb[index_mode as int] == 2);
        assert(wb[1 - index_mode] as nat == m45_second_bits(mode as nat));
    }

    let mut ep = [[0u32; 4]; 2];
    let mut e: usize = 0;
    while e < 2
        invariant
            mode == 4 || mode == 5,
            x == block_bits(*block),
            endpoint_bits as nat == m45_color_bits(mode as nat),
            a_endpoint_bits as nat == m45_alpha_bits(mode as nat),
            e <= 2,
            forall|cc: int, ee: int|
                0 <= cc < 4 && 0 <= ee < 2 ==> #[trigger] endpoints[ee][cc] as nat == nat_field(
                    x,
                    m45_endpoint_offset(mode as nat, cc as nat, ee as nat),
                    m45_endpoint_bits(mode as nat, cc as nat),
                ),
            forall|cc: int, ee: int|
                0 <= cc < 4 && 0 <= ee < e ==> #[trigger] ep[ee][cc] as nat == m45_endpoint(x, mode as nat, cc as nat, ee as nat),
            forall|cc: int, ee: int| 0 <= cc < 4 && 0 <= ee < e ==> #[trigger] ep[ee][cc] < 256,
        decreases 2 - e,
    {
        let mut cc: usize = 0;
        while cc < 4
            invariant
                mode == 4 || mode == 5,
                x == block_bits(*block),
                endpoint_bits as nat == m45_color_bits(mode as nat),
                a_endpoint_bits as nat == m45_alpha_bits(mode as nat),
                e < 2,
                cc <= 4,
                forall|c2: int, ee: int|
                    0 <= c2 < 4 && 0 <= ee < 2 ==> #[trigger] endpoints[ee][c2] as nat == nat_field(
                        x,
                        m45_endpoint_offset(mode as nat, c2 as nat, ee as nat),
                        m45_endpoint_bits(mode as nat, c2 as nat),
                    ),
                forall|c2: int, ee: int|
                    0 <= c2 < 4 && 0 <= ee < e ==> #[trigger] ep[ee][c2] as nat == m45_endpoint(x, mode as nat, c2 as nat, ee as nat),
                forall|c2: int, ee: int| 0 <= c2 < 4 && 0 <= ee < e ==> #[trigger] ep[ee][c2] < 256,
                forall|c2: int| 0 <= c2 < cc ==> #[trigger] ep[e as int][c2] as nat == m45_endpoint(x, mode as nat, c2 as nat, e as nat),
                forall|c2: int| 0 <= c2 < cc ==> #[trigger] ep[e as int][c2] < 256,
            decreases 4 - cc,
        {
            let bits = if cc == 3 { a_endpoint_bits } else { endpoint_bits };
            proof {
                lemma2_to64();
                vstd::arithmetic::div_mod::lemma_mod_bound(
                    (x / pow2(m45_endpoint_offset(mode as nat, cc as nat, e as nat))) as int,
                    pow2(bits as nat) as int,
                );
            }
            ep[e][cc] = bc7u_dequant(endpoints[e][cc], bits);
            cc = cc + 1;
        }
        e = e + 1;
    }
    let colors = m45_block_colors(ep, wb[0], wb[1]);
    proof {
        assert(forall|k: int| 0 <= k < 16 ==> #[trigger] weights[k] < pow2(wb[0] as nat));
        assert(forall|k: int| 0 <= k < 16 ==> #[trigger] a_weights[k] < pow2(wb[1] as nat));
    }
    let mut i: usize = 0;
    while i < 16
        invariant
            i <= 16,
            comp_rot < 4,
            2 <= wb[0] <= 3 && 2 <= wb[1] <= 3,
            forall|k: int| 0 <= k < 16 ==> #[trigger] weights[k] < pow2(wb[0] as nat),
            forall|k: int| 0 <= k < 16 ==> #[trigger] a_weights[k] < pow2(wb[1] as nat),
            forall|k: int, ch: int|
                0 <= k < i && 0 <= ch < 4 ==> #[trigger] pixels[k][ch] == rotated(colors, weights[k] as int, a_weights[k] as int, comp_rot as int, ch),
        decreases 16 - i,
    {
        proof {
            lemma2_to64();
        }
        let mut px = colors[weights[i] as usize];
        px[3] = colors[a_weights[i] as usize][3];
        if comp_rot >= 1 {
            let t = px[3];
            px[3] = px[comp_rot - 1];
            px[comp_rot - 1] = t;
        }
        pixels[i] = px;
        i = i + 1;
    }
    proof {
        assert forall|k: int, ch: int| 0 <= k < 16 && 0 <= ch < 4 implies #[trigger] pixels[k][ch] as nat == m45_texel(
            x,
            mode as nat,
            k as nat,
            ch as nat,
        ) by {
            let rot = comp_rot as int;
            let src = if rot >= 1 && ch == 3 { rot - 1 } else if rot >= 1 && ch == rot - 1 { 3 } else { ch };
            assert(m45_rotation(x, mode as nat) == rot);
            assert(weights[k] as nat == (if index_mode == 1 { m45_second_index(x, mode as nat, k as nat) } else { m45_first_index(x, mode as nat, k as nat) }));
            assert(a_weights[k] as nat == (if index_mode == 1 { m45_first_index(x, mode as nat, k as nat) } else { m45_second_index(x, mode as nat, k as nat) }));
        }
    }
    true
}

/// Texel channel `ch` from the palette `colors`: color channels at index
/// `w`, alpha at index `aw`, then alpha swapped with channel `rot - 1` when
/// `rot` is nonzero.
pub open spec fn rotated(colors: [[u8; 4]; 8], w: int, aw: int, rot: int, ch: int) -> u8 {
    let src = if rot >= 1 && ch == 3 { rot - 1 } else if rot >= 1 && ch == rot - 1 { 3 } else { ch };
    if src == 3 { colors[aw][3] } else { colors[w][src] }
}

/// The palette of a mode 4 or 5 block: color channels interpolated on the
/// `cbits`-bit ramp, alpha on the `abits`-bit ramp, from the 8-bit endpoints
/// `ep[e][c]`.
fn m45_block_colors(ep: [[u32; 4]; 2], cbits: u32, abits: u32) -> (colors: [[u8; 4]; 8])
    requires
        2 <= cbits <= 3,
        2 <= abits <= 3,
        forall|c: int, e: int| 0 <= c < 4 && 0 <= e < 2 ==> #[trigger] ep[e][c] < 256,
    ensures
        forall|i: int, c: int|
            0 <= i < pow2(cbits as nat) && 0 <= c < 3 ==> #[trigger] colors[i][c] as nat == interp(
                ep[0][c] as nat,
                ep[1][c] as nat,
                ramp_weight(cbits as nat, i as nat),
            ),
        forall|i: int|
            0 <= i < pow2(abits as nat) ==> #[trigger] colors[i][3] as nat == interp(
                ep[0][3] as nat,
                ep[1][3] as nat,
                ramp_weight(abits as nat, i as nat),
            ),
{
    let mut colors = [[0u8; 4]; 8];
    proof {
        lemma2_to64();
    }
    let nc: u32 = 1 << cbits;
    let na: u32 = 1 << abits;
    proof {
        lemma_u32_shl_is_mul(1, cbits);
        lemma_u32_shl_is_mul(1, abits);
    }
    let mut i: u32 = 0;
    while i < nc
        invariant
            2 <= cbits <= 3,
            nc == pow2(cbits as nat),
            nc <= 8,
            i <= nc,
            forall|c: int, e: int| 0 <= c < 4 && 0 <= e < 2 ==> #[trigger] ep[e][c] < 256,
            forall|k: int, c: int|
                0 <= k < i && 0 <= c < 3 ==> #[trigger] colors[k][c] as nat == interp(
                    ep[0][c] as nat,
                    ep[1][c] as nat,
                    ramp_weight(cbits as nat, k as nat),
                ),
        decreases nc - i,
    {
        let mut c: usize = 0;
        while c < 3
            invariant
                2 <= cbits <= 3,
                nc == pow2(cbits as nat),
                nc <= 8,
                i < nc,
                c <= 3,
                forall|cc: int, e: int| 0 <= cc < 4 && 0 <= e < 2 ==> #[trigger] ep[e][cc] < 256,
                forall|k: int, cc: int|
                    0 <= k < i && 0 <= cc < 3 ==> #[trigger] colors[k][cc] as nat == interp(
                        ep[0][cc] as nat,
                        ep[1][cc] as nat,
                        ramp_weight(cbits as nat, k as nat),
                    ),
                forall|cc: int|
                    0 <= cc < c ==> #[trigger] colors[i as int][cc] as nat == interp(
                        ep[0][cc] as nat,
                        ep[1][cc] as nat,
                        ramp_weight(cbits as nat, i as nat),
                    ),
            decreases 3 - c,
        {
            let v = bc7u_interp(ep[0][c], ep[1][c], i, cbits);
            proof {
                lemma_ramp_symmetric(cbits as nat, i as nat);
                lemma_interp_byte(ep[0][c as int] as nat, ep[1][c as int] as nat, ramp_weight(cbits as nat, i as nat));
            }
            colors[i as usize][c] = v as u8;
            c = c + 1;
        }
        i = i + 1;
    }
    let mut i: u32 = 0;
    while i < na
        invariant
            2 <= abits <= 3,
            2 <= cbits <= 3,
            pow2(cbits as nat) <= 8,
            na == pow2(abits as nat),
            na <= 8,
            i <= na,
            forall|c: int, e: int| 0 <= c < 4 && 0 <= e < 2 ==> #[trigger] ep[e][c] < 256,
            forall|k: int, c: int|
                0 <= k < pow2(cbits as nat) && 0 <= c < 3 ==> #[trigger] colors[k][c] as nat == interp(
                    ep[0][c] as nat,
                    ep[1][c] as nat,
                    ramp_weight(cbits as nat, k as nat),
                ),
            forall|k: int|
                0 <= k < i ==> #[trigger] colors[k][3] as nat == interp(
                    ep[0][3] as nat,
                    ep[1][3] as nat,
                    ramp_weight(abits as nat, k as nat),
                ),
        decreases na - i,
    {
        let v = bc7u_interp(ep[0][3], ep[1][3], i, abits);
        proof {
            lemma_ramp_symmetric(abits as nat, i as nat);
            lemma_interp_byte(ep[0][3] as nat, ep[1][3] as nat, ramp_weight(abits as nat, i as nat));
        }
        colors[i as usize][3] = v as u8;
        i = i + 1;
    }
    colors
}

/// Append an index set above the first `ofs` bits of a word: sixteen indices
/// of `bits` bits (one less for texel 0), each mirrored by `inv`.
#[verifier::spinoff_prover]
fn append_index_set(y: u64, ofs: u64, weights: &[u8; 16], inv: u8, bits: u64, flip: Ghost<bool>) -> (r: (u64, u64))
    requires
        2 <= bits <= 3,
        ofs + 16 * bits - 1 <= 64,
        y < pow2(ofs as nat),
        forall|i: int| 0 <= i < 16 ==> weights[i] < pow2(bits as nat),
        flip@ == (weights[0] >= pow2((bits - 1) as nat)),
        inv == (if flip@ { (pow2(bits as nat) - 1) as u8 } else { 0u8 }),
    ensures
        r.1 == ofs + 16 * bits - 1,
        r.0 < pow2(r.1 as nat),
        forall|o: nat, l: nat| o + l <= ofs ==> #[trigger] nat_field(r.0 as nat, o, l) == nat_field(y as nat, o, l),
        forall|k: nat|
            k < 16 ==> #[trigger] set_index(r.0 as nat, ofs as nat, bits as nat, k) == mirror(
                weights[k as int] as nat,
                (pow2(bits as nat) - 1) as nat,
                flip@,
            ),
{
    let mut acc = y;
    let mut pos = ofs;
    let mut i: usize = 0;
    proof {
        lemma2_to64();
    }
    while i < 16
        invariant
            2 <= bits <= 3,
            ofs + 16 * bits - 1 <= 64,
            forall|k: int| 0 <= k < 16 ==> weights[k] < pow2(bits as nat),
            flip@ == (weights[0] >= pow2((bits - 1) as nat)),
            inv == (if flip@ { (pow2(bits as nat) - 1) as u8 } else { 0u8 }),
            i <= 16,
            i < 16 ==> pos as nat == set_offset(ofs as nat, bits as nat, i as nat),
            i == 16 ==> pos == ofs + 16 * bits - 1,
            ofs <= pos,
            acc < pow2(pos as nat),
            forall|o: nat, l: nat| o + l <= ofs ==> #[trigger] nat_field(acc as nat, o, l) == nat_field(y as nat, o, l),
            forall|k: nat|
                k < i ==> #[trigger] set_index(acc as nat, ofs as nat, bits as nat, k) == mirror(
                    weights[k as int] as nat,
                    (pow2(bits as nat) - 1) as nat,
                    flip@,
                ),
        decreases 16 - i,
    {
        proof {
            lemma2_to64();
            lemma_index_mirror(weights[i as int]);
            lemma_index_mirror(weights[0]);
            lemma_set_offsets(ofs as nat, bits as nat, i as nat, 16);
            lemma_set_offsets(ofs as nat, bits as nat, i as nat, (i + 1) as nat);
            assert(bits * 16 <= 48) by (nonlinear_arith)
                requires
                    bits <= 3,
            ;
        }
        let w = (weights[i] ^ inv) as u64;
        let n: u64 = bits - if i == 0 { 1u64 } else { 0u64 };
        proof {
            lemma_u64_append(acc, w, pos, n as nat);
            assert forall|k: nat| k < i implies #[trigger] set_index((acc | (w << pos)) as nat, ofs as nat, bits as nat, k) == set_index(acc as nat, ofs as nat, bits as nat, k) by {
                lemma_set_offsets(ofs as nat, bits as nat, k, i as nat);
            }
        }
        acc = acc | (w << pos);
        pos = pos + n;
        i = i + 1;
    }
    (acc, pos)
}

/// The fields of a mode 5 block written for low endpoint `l` and high
/// endpoint `h` (7-bit color codes, 8-bit alpha), rotation `rot` and the
/// 2-bit color and alpha indices `cw`, `aw`. Texel 0's indices are stored in
/// one bit, so when one has its top bit set, that plane's endpoints trade
/// places and its indices are mirrored.
pub open spec fn mode5_layout(
    x: nat,
    l: Seq<nat>,
    h: Seq<nat>,
    rot: nat,
    cw: Seq<nat>,
    aw: Seq<nat>,
) -> bool {
    let cflip = cw[0] >= 2;
    let aflip = aw[0] >= 2;
    &&& is_mode45(x, 5)
    &&& m45_rotation(x, 5) == rot
    &&& forall|c: nat| c < 3 ==> #[trigger] nat_field(x, m45_endpoint_offset(5, c, 0), 7) == (if cflip { h[c as int] } else { l[c as int] })
    &&& forall|c: nat| c < 3 ==> #[trigger] nat_field(x, m45_endpoint_offset(5, c, 1), 7) == (if cflip { l[c as int] } else { h[c as int] })
    &&& nat_field(x, m45_endpoint_offset(5, 3, 0), 8) == (if aflip { h[3] } else { l[3] })
    &&& nat_field(x, m45_endpoint_offset(5, 3, 1), 8) == (if aflip { l[3] } else { h[3] })
    &&& forall|i: nat| i < 16 ==> #[trigger] m45_first_index(x, 5, i) == mirror(cw[i as int], 3, cflip)
    &&& forall|i: nat| i < 16 ==> #[trigger] m45_second_index(x, 5, i) == mirror(aw[i as int], 3, aflip)
}

/// The low word of a mode 5 block: mode bits, rotation, the color codes and
/// the alpha endpoints, the high alpha endpoint's top two bits falling off the
/// word's end.
#[verifier::spinoff_prover]
fn mode5_low_word(rot: u32, lr: u32, hr: u32, lg: u32, hg: u32, lb: u32, hb: u32, la: u32, ha: u32) -> (x: u64)
    requires
        rot < 4,
        lr < 128 && lg < 128 && lb < 128 && hr < 128 && hg < 128 && hb < 128,
        la < 256 && ha < 256,
    ensures
        nat_field(x as nat, 0, 6) == 32,
        nat_field(x as nat, 6, 2) == rot,
        nat_field(x as nat, 8, 7) == lr,
        nat_field(x as nat, 15, 7) == hr,
        nat_field(x as nat, 22, 7) == lg,
        nat_field(x as nat, 29, 7) == hg,
        nat_field(x as nat, 36, 7) == lb,
        nat_field(x as nat, 43, 7) == hb,
        nat_field(x as nat, 50, 8) == la,
        nat_field(x as nat, 58, 6) == ha % 64,
{
    proof {
        lemma2_to64();
    }
    let x0: u64 = 0x20;
    assert(nat_field(x0 as nat, 0, 6) == 32);
    proof { lemma_u64_append(x0, rot as u64, 6, 2); }
    let x1 = x0 | ((rot as u64) << 6);
    proof { lemma_u64_append(x1, lr as u64, 8, 7); }
    let x2 = x1 | ((lr as u64) << 8);
    proof { lemma_u64_append(x2, hr as u64, 15, 7); }
    let x3 = x2 | ((hr as u64) << 15);
    proof { lemma_u64_append(x3, lg as u64, 22, 7); }
    let x4 = x3 | ((lg as u64) << 22);
    proof { lemma_u64_append(x4, hg as u64, 29, 7); }
    let x5 = x4 | ((hg as u64) << 29);
    proof { lemma_u64_append(x5, lb as u64, 36, 7); }
    let x6 = x5 | ((lb as u64) << 36);
    proof { lemma_u64_append(x6, hb as u64, 43, 7); }
    let x7 = x6 | ((hb as u64) << 43);
    proof { lemma_u64_append(x7, la as u64, 50, 8); }
    let x8 = x7 | ((la as u64) << 50);
    proof {
        crate::bitfield::lemma_u64_shl58(ha as u64);
        vstd::bits::lemma_u64_low_bits_mask_is_mod(ha as u64, 6);
        vstd::bits::lemma_low_bits_mask_values();
        lemma_u64_append(x8, (ha as u64) & 63, 58, 6);
    }
    x8 | ((ha as u64) << 58)
}

/// Write a mode 5 block: single subset, 7-bit color and 8-bit alpha
/// endpoints, 2-bit color and alpha indices, channel rotation `rot_index`.
#[verifier::spinoff_prover]
#[verifier::rlimit(60)]
pub fn encode_mode5_rgba_block(
    block: &mut [u8; 16],
    lr: u32,
    lg: u32,
    lb: u32,
    la: u32,
    hr: u32,
    hg: u32,
    hb: u32,
    ha: u32,
    color_weights: &[u8; 16],
    alpha_weights: &[u8; 16],
    rot_index: u32,
)
    requires
        lr < 128 && lg < 128 && lb < 128 && hr < 128 && hg < 128 && hb < 128,
        la < 256 && ha < 256,
        rot_index < 4,
        forall|i: int| 0 <= i < 16 ==> color_weights[i] < 4 && alpha_weights[i] < 4,
    ensures
        mode5_layout(
            block_bits(*final(block)),
            seq![lr as nat, lg as nat, lb as nat, la as nat],
            seq![hr as nat, hg as nat, hb as nat, ha as nat],
            rot_index as nat,
            color_weights@.map_values(|v: u8| v as nat),
            alpha_weights@.map_values(|v: u8| v as nat),
        ),
{
    let ghost (olr, olg, olb, ola) = (lr, lg, lb, la);
    let ghost (ohr, ohg, ohb, oha) = (hr, hg, hb, ha);
    let mut lr = lr;
    let mut lg = lg;
    let mut lb = lb;
    let mut la = la;
    let mut hr = hr;
    let mut hg = hg;
    let mut hb = hb;
    let mut ha = ha;
    proof {
        lemma_index_mirror(color_weights[0]);
        lemma_index_mirror(alpha_weights[0]);
        lemma2_to64();
    }
    let mut color_inv = 0u8;
    let mut alpha_inv = 0u8;
    if color_weights[0] & 2 != 0 {
        core::mem::swap(&mut lr, &mut hr);
        core::mem::swap(&mut lg, &mut hg);
        core::mem::swap(&mut lb, &mut hb);
        color_inv = 3;
    }
    if alpha_weights[0] & 2 != 0 {
        core::mem::swap(&mut la, &mut ha);
        alpha_inv = 3;
    }
    let ghost cflip = color_weights[0] >= 2;
    let ghost aflip = alpha_weights[0] >= 2;
    let low = mode5_low_word(rot_index, lr, hr, lg, hg, lb, hb, la, ha);
    store_u64_le(block, 0, low, 8);
    proof {
        lemma_u64_shr_mask(ha as u64, 6, 2, 3);
    }
    let high0: u64 = ((ha as u64 >> 6) & 3) as u64;
    let (high1, ofs1) = append_index_set(high0, 2, color_weights, color_inv, 2, Ghost(cflip));
    let (high, ofs2) = append_index_set(high1, ofs1, alpha_weights, alpha_inv, 2, Ghost(aflip));
    store_u64_le(block, 8, high, 8);
    proof {
        let b = block@;
        lemma_block_of_words(b, low as nat, high as nat);
        let xb = le_value(b);
        let lseq = seq![olr as nat, olg as nat, olb as nat, ola as nat];
        let hseq = seq![ohr as nat, ohg as nat, ohb as nat, oha as nat];
        let cws = color_weights@.map_values(|v: u8| v as nat);
        let aws = alpha_weights@.map_values(|v: u8| v as nat);
        assert(cws[0] == color_weights[0]);
        assert(aws[0] == alpha_weights[0]);
        assert(nat_field(xb, 0, 6) == nat_field(low as nat, 0, 6));
        assert(nat_field(xb, 6, 2) == nat_field(low as nat, 6, 2));
        assert forall|c: nat| c < 3 implies #[trigger] nat_field(xb, m45_endpoint_offset(5, c, 0), 7) == (if cflip { hseq[c as int] } else { lseq[c as int] }) by {
            assert(nat_field(xb, m45_endpoint_offset(5, c, 0), 7) == nat_field(low as nat, m45_endpoint_offset(5, c, 0), 7));
        }
        assert forall|c: nat| c < 3 implies #[trigger] nat_field(xb, m45_endpoint_offset(5, c, 1), 7) == (if cflip { lseq[c as int] } else { hseq[c as int] }) by {
            assert(nat_field(xb, m45_endpoint_offset(5, c, 1), 7) == nat_field(low as nat, m45_endpoint_offset(5, c, 1), 7));
        }
        assert(nat_field(xb, 50, 8) == nat_field(low as nat, 50, 8));
        // the high alpha endpoint straddles the two words
        crate::bitfield::lemma_field_concat(xb, 58, 6, 2);
        assert(nat_field(xb, 58, 6) == nat_field(low as nat, 58, 6));
        assert(nat_field(xb, 64, 2) == nat_field(high as nat, 0, 2));
        assert(nat_field(high as nat, 0, 2) == nat_field(high0 as nat, 0, 2));
        vstd::arithmetic::div_mod::lemma_fundamental_div_mod(ha as int, 64);
        assert(nat_field(xb, 58, 8) == ha);
        assert forall|i: nat| i < 16 implies #[trigger] m45_first_index(xb, 5, i) == mirror(cws[i as int], 3, cflip) by {
            assert(set_offset(66, 2, i) >= 64);
            assert(set_index(xb, 66, 2, i) == set_index(high as nat, 2, 2, i));
            assert(set_index(high as nat, 2, 2, i) == set_index(high1 as nat, 2, 2, i)) by {
                lemma_set_offsets(2, 2, i, 16);
            }
        }
        assert forall|i: nat| i < 16 implies #[trigger] m45_second_index(xb, 5, i) == mirror(aws[i as int], 3, aflip) by {
            assert(set_offset(97, 2, i) >= 64);
            assert(set_index(xb, 97, 2, i) == set_index(high as nat, 33, 2, i));
        }
    }
}

/// Channel `s` of texel `i` that a mode 5 block written from `l`, `h`, `cw`,
/// `aw` should decode to before rotation: color between the widened 7-bit
/// endpoint codes at the texel's color index, alpha between the 8-bit alpha
/// endpoints at its alpha index.
pub open spec fn mode5_expected(l: Seq<nat>, h: Seq<nat>, cw: Seq<nat>, aw: Seq<nat>, i: nat, s: nat) -> nat {
    if s < 3 {
        interp(replicate8(l[s as int], 7), replicate8(h[s as int], 7), weight2(cw[i as int]))
    } else {
        interp(l[3], h[3], weight2(aw[i as int]))
    }
}

/// Reading back a mode 5 block: for every texel and channel, the decoder's
/// value is the rotated interpolation between the endpoints the writer was
/// given, at the texel's own color and alpha indices, whichever way the
/// writer oriented each plane.
#[verifier::spinoff_prover]
pub proof fn lemma_mode5_roundtrip(
    x: nat,
    l: Seq<nat>,
    h: Seq<nat>,
    rot: nat,
    cw: Seq<nat>,
    aw: Seq<nat>,
)
    requires
        l.len() == 4,
        h.len() == 4,
        cw.len() == 16,
        aw.len() == 16,
        forall|c: int| 0 <= c < 3 ==> l[c] < 128 && h[c] < 128,
        l[3] < 256,
        h[3] < 256,
        rot < 4,
        forall|i: int| 0 <= i < 16 ==> cw[i] < 4 && aw[i] < 4,
        mode5_layout(x, l, h, rot, cw, aw),
    ensures
        is_mode45(x, 5),
        forall|i: nat, c: nat|
            i < 16 && c < 4 ==> #[trigger] m45_texel(x, 5, i, c) == mode5_expected(
                l,
                h,
                cw,
                aw,
                i,
                if rot >= 1 && c == 3 { (rot - 1) as nat } else if rot >= 1 && c == rot - 1 { 3 } else { c },
            ),
{
    let cflip = cw[0] >= 2;
    let aflip = aw[0] >= 2;
    lemma2_to64();
    assert forall|i: nat, s: nat| i < 16 && s < 4 implies #[trigger] m45_texel_unrotated(x, 5, i, s) == mode5_expected(l, h, cw, aw, i, s) by {
        assert(m45_index_mode(x, 5) == 0);
        assert(m45_second_bits(5) == 2);
        lemma_ramp_symmetric(2, cw[i as int]);
        lemma_ramp_symmetric(2, aw[i as int]);
        assert(m45_first_index(x, 5, i) == mirror(cw[i as int], 3, cflip));
        assert(m45_second_index(x, 5, i) == mirror(aw[i as int], 3, aflip));
        if s < 3 {
            assert(nat_field(x, m45_endpoint_offset(5, s, 0), 7) == (if cflip { h[s as int] } else { l[s as int] }));
            assert(nat_field(x, m45_endpoint_offset(5, s, 1), 7) == (if cflip { l[s as int] } else { h[s as int] }));
            if cflip {
                lemma_interp_swap(
                    replicate8(l[s as int], 7),
                    replicate8(h[s as int], 7),
                    weight2(cw[i as int]),
                );
            }
        } else {
            assert(pow2((8 - 8) as nat) == 1);
            assert(l[3] * 1 == l[3] && h[3] * 1 == h[3]);
            assert(l[3] / pow2(8) == 0 && h[3] / pow2(8) == 0);
            assert(replicate8(l[3], 8) == l[3]);
            assert(replicate8(h[3], 8) == h[3]);
            if aflip {
                lemma_interp_swap(l[3], h[3], weight2(aw[i as int]));
            }
        }
    }
    assert forall|i: nat, c: nat| i < 16 && c < 4 implies #[trigger] m45_texel(x, 5, i, c) == mode5_expected(
        l,
        h,
        cw,
        aw,
        i,
        if rot >= 1 && c == 3 { (rot - 1) as nat } else if rot >= 1 && c == rot - 1 { 3 } else { c },
    ) by {
        let src: nat = if rot >= 1 && c == 3 { (rot - 1) as nat } else if rot >= 1 && c == rot - 1 { 3 } else { c };
        assert(m45_texel_unrotated(x, 5, i, src) == mode5_expected(l, h, cw, aw, i, src));
    }
}

/// The BC7 partition tables: which subset each texel of each of the 64
/// 2-subset and 3-subset partitions belongs to, and the anchor texel of every
/// subset after the first.
/// Partition `j`'s anchors sit in their own subsets: texel 0 in subset 0,
/// the second subset's anchor in subset 1, the third's in subset 2.
pub open spec fn anchors_in_place(part2: Seq<u8>, part3: Seq<u8>, j: int, a: u8, b: u8, c: u8) -> bool {
    &&& part2[j * 16] == 0
    &&& part2[j * 16 + a] == 1
    &&& part3[j * 16] == 0
    &&& part3[j * 16 + b] == 1
    &&& part3[j * 16 + c] == 2
}

pub struct Bc7Partitions {
    part2: Vec<u8>,
    part3: Vec<u8>,
    anchor_second: Vec<u8>,
    anchor_third_1: Vec<u8>,
    anchor_third_2: Vec<u8>,
}

impl Bc7Partitions {
    /// Subset of texel `i` in partition `p` with `ns` subsets (2 or 3).
    pub closed spec fn subset(&self, ns: nat, p: int, i: int) -> nat {
        if ns == 2 { self.part2@[p * 16 + i] as nat } else { self.part3@[p * 16 + i] as nat }
    }

    /// Anchor texel `k` (0 the second subset's, 1 the third's) of partition
    /// `p` with `ns` subsets.
    pub closed spec fn anchor(&self, ns: nat, p: int, k: int) -> nat {
        if ns == 2 {
            self.anchor_second@[p] as nat
        } else if k == 0 {
            self.anchor_third_1@[p] as nat
        } else {
            self.anchor_third_2@[p] as nat
        }
    }

    /// Every table has its size, every entry is in range, and the anchors of a
    /// partition are distinct texels other than texel 0.
    pub closed spec fn wf(&self) -> bool {
        &&& self.part2@.len() == 1024
        &&& self.part3@.len() == 1024
        &&& self.anchor_second@.len() == 64
        &&& self.anchor_third_1@.len() == 64
        &&& self.anchor_third_2@.len() == 64
        &&& forall|j: int| 0 <= j < 1024 ==> #[trigger] self.part2@[j] < 2
        &&& forall|j: int| 0 <= j < 1024 ==> #[trigger] self.part3@[j] < 3
        &&& forall|j: int| 0 <= j < 64 ==> #[trigger] self.anchor_second@[j] < 16
        &&& forall|j: int| 0 <= j < 64 ==> #[trigger] self.anchor_third_1@[j] < 16
        &&& forall|j: int| 0 <= j < 64 ==> #[trigger] self.anchor_third_2@[j] < 16
        &&& forall|j: int| 0 <= j < 64 ==> #[trigger] self.anchor_second@[j] != 0
        &&& forall|j: int|
            #![trigger self.anchor_third_1@[j]]
            #![trigger self.anchor_third_2@[j]]
            0 <= j < 64 ==> self.anchor_third_1@[j] != 0 && self.anchor_third_2@[j] != 0 && self.anchor_third_1@[j] != self.anchor_third_2@[j]
        &&& forall|j: int| 0 <= j < 64 ==> #[trigger] anchors_in_place(self.part2@, self.part3@, j, self.anchor_second@[j], self.anchor_third_1@[j], self.anchor_third_2@[j])
    }

    /// The facts of a well-formed table set its users need.
    pub proof fn lemma_ranges(&self)
        requires
            self.wf(),
        ensures
            forall|ns: nat, p: int, i: int| 2 <= ns <= 3 && 0 <= p < 64 && 0 <= i < 16 ==> #[trigger] self.subset(ns, p, i) < ns,
            forall|ns: nat, p: int, k: int| 2 <= ns <= 3 && 0 <= p < 64 && 0 <= k < 2 ==> #[trigger] self.anchor(ns, p, k) < 16,
            forall|ns: nat, p: int, k: int| 2 <= ns <= 3 && 0 <= p < 64 && 0 <= k < 2 ==> #[trigger] self.anchor(ns, p, k) != 0,
            forall|p: int| 0 <= p < 64 ==> #[trigger] self.anchor(3, p, 0) != self.anchor(3, p, 1),
            forall|ns: nat, p: int| 2 <= ns <= 3 && 0 <= p < 64 ==> #[trigger] self.subset(ns, p, 0) == 0,
            forall|ns: nat, p: int, k: int|
                2 <= ns <= 3 && 0 <= p < 64 && 0 <= k < ns - 1 ==> #[trigger] self.subset(ns, p, self.anchor(ns, p, k) as int) == k + 1,
    {
        assert forall|ns: nat, p: int| 2 <= ns <= 3 && 0 <= p < 64 implies #[trigger] self.subset(ns, p, 0) == 0 by {
            assert(anchors_in_place(self.part2@, self.part3@, p, self.anchor_second@[p], self.anchor_third_1@[p], self.anchor_third_2@[p]));
        }
        assert forall|ns: nat, p: int, k: int|
            2 <= ns <= 3 && 0 <= p < 64 && 0 <= k < ns - 1 implies #[trigger] self.subset(ns, p, self.anchor(ns, p, k) as int) == k + 1 by {
            assert(anchors_in_place(self.part2@, self.part3@, p, self.anchor_second@[p], self.anchor_third_1@[p], self.anchor_third_2@[p]));
        }
        assert forall|ns: nat, p: int, i: int| 2 <= ns <= 3 && 0 <= p < 64 && 0 <= i < 16 implies #[trigger] self.subset(ns, p, i) < ns by {
            assert(0 <= p * 16 + i < 1024) by (nonlinear_arith)
                requires
                    0 <= p < 64,
                    0 <= i < 16,
            ;
        }
    }

    /// Tables from their rows, checked: `None` unless there are 1024 subset
    /// entries per family, 64 anchors per list, every entry is in range, and
    /// each partition's anchors are distinct texels other than texel 0.
    #[verifier::spinoff_prover]
    #[verifier::rlimit(30)]
    pub fn new(
        part2: Vec<u8>,
        part3: Vec<u8>,
        anchor_second: Vec<u8>,
        anchor_third_1: Vec<u8>,
        anchor_third_2: Vec<u8>,
    ) -> (r: Option<Self>)
        ensures
            r is Some <==> (part2@.len() == 1024 && part3@.len() == 1024 && anchor_second@.len() == 64
                && anchor_third_1@.len() == 64 && anchor_third_2@.len() == 64
                && (forall|j: int| 0 <= j < 1024 ==> #[trigger] part2@[j] < 2)
                && (forall|j: int| 0 <= j < 1024 ==> #[trigger] part3@[j] < 3)
                && (forall|j: int| 0 <= j < 64 ==> #[trigger] anchor_second@[j] < 16)
                && (forall|j: int| 0 <= j < 64 ==> #[trigger] anchor_third_1@[j] < 16)
                && (forall|j: int| 0 <= j < 64 ==> #[trigger] anchor_third_2@[j] < 16)
                && (forall|j: int| 0 <= j < 64 ==> #[trigger] anchor_second@[j] != 0)
                && (forall|j: int| 0 <= j < 64 ==> #[trigger] anchor_third_1@[j] != 0 && anchor_third_2@[j] != 0 && anchor_third_1@[j] != anchor_third_2@[j])
                && (forall|j: int| 0 <= j < 64 ==> #[trigger] anchors_in_place(part2@, part3@, j, anchor_second@[j], anchor_third_1@[j], anchor_third_2@[j]))),
            r matches Some(t) ==> t.wf(),
            r matches Some(t) ==> forall|p: int, i: int| 0 <= p < 64 && 0 <= i < 16 ==> #[trigger] t.subset(2, p, i) == part2@[p * 16 + i] && t.subset(3, p, i) == part3@[p * 16 + i],
            r matches Some(t) ==> forall|p: int| 0 <= p < 64 ==> #[trigger] t.anchor(2, p, 0) == anchor_second@[p] && t.anchor(3, p, 0) == anchor_third_1@[p] && t.anchor(3, p, 1) == anchor_third_2@[p],
    {
        if part2.len() != 1024 || part3.len() != 1024 || anchor_second.len() != 64 || anchor_third_1.len() != 64 || anchor_third_2.len() != 64 {
            return None;
        }
        if !all_below(&part2, 2) || !all_below(&part3, 3) || !all_below(&anchor_second, 16) || !all_below(&anchor_third_1, 16) || !all_below(&anchor_third_2, 16) {
            return None;
        }
        let mut k: usize = 0;
        while k < 64
            invariant
                k <= 64,
                part2@.len() == 1024 && part3@.len() == 1024,
                anchor_second@.len() == 64 && anchor_third_1@.len() == 64 && anchor_third_2@.len() == 64,
                forall|j: int| 0 <= j < 64 ==> #[trigger] anchor_second@[j] < 16,
                forall|j: int| 0 <= j < 64 ==> #[trigger] anchor_third_1@[j] < 16,
                forall|j: int| 0 <= j < 64 ==> #[trigger] anchor_third_2@[j] < 16,
                forall|j: int| 0 <= j < k ==> #[trigger] anchor_second@[j] != 0,
                forall|j: int| 0 <= j < k ==> #[trigger] anchor_third_1@[j] != 0 && anchor_third_2@[j] != 0 && anchor_third_1@[j] != anchor_third_2@[j],
                forall|j: int| 0 <= j < k ==> #[trigger] anchors_in_place(part2@, part3@, j, anchor_second@[j], anchor_third_1@[j], anchor_third_2@[j]),
            decreases 64 - k,
        {
            if anchor_second[k] == 0 || anchor_third_1[k] == 0 || anchor_third_2[k] == 0 || anchor_third_1[k] == anchor_third_2[k] {
                return None;
            }
            let row = k * 16;
            if part2[row] != 0 || part2[row + anchor_second[k] as usize] != 1 || part3[row] != 0
                || part3[row + anchor_third_1[k] as usize] != 1 || part3[row + anchor_third_2[k] as usize] != 2 {
                assert(!anchors_in_place(part2@, part3@, k as int, anchor_second@[k as int], anchor_third_1@[k as int], anchor_third_2@[k as int]));
                return None;
            }
            k = k + 1;
        }
        Some(Bc7Partitions { part2, part3, anchor_second, anchor_third_1, anchor_third_2 })
    }

    /// Subset of texel `i` in partition `p` with `ns` subsets.
    pub fn subset_at(&self, ns: u32, p: usize, i: usize) -> (r: u8)
        requires
            self.wf(),
            2 <= ns <= 3,
            p < 64,
            i < 16,
        ensures
            r as nat == self.subset(ns as nat, p as int, i as int),
            (r as nat) < ns,
    {
        proof {
            self.lemma_ranges();
        }
        if ns == 2 { self.part2[p * 16 + i] } else { self.part3[p * 16 + i] }
    }

    /// Anchor texel `k` of partition `p` with `ns` subsets.
    fn anchor_at(&self, ns: u32, p: usize, k: usize) -> (r: usize)
        requires
            self.wf(),
            2 <= ns <= 3,
            p < 64,
            k < 2,
        ensures
            r as nat == self.anchor(ns as nat, p as int, k as int),
            r < 16,
    {
        proof {
            self.lemma_ranges();
        }
        if ns == 2 {
            self.anchor_second[p] as usize
        } else if k == 0 {
            self.anchor_third_1[p] as usize
        } else {
            self.anchor_third_2[p] as usize
        }
    }
}

/// Whether every entry of `v` is below `bound`.
fn all_below(v: &Vec<u8>, bound: u8) -> (r: bool)
    ensures
        r == (forall|j: int| 0 <= j < v@.len() ==> #[trigger] v@[j] < bound),
{
    let mut i: usize = 0;
    while i < v.len()
        invariant
            i <= v@.len(),
            forall|j: int| 0 <= j < i ==> #[trigger] v@[j] < bound,
        decreases v@.len() - i,
    {
        if v[i] >= bound {
            return false;
        }
        i = i + 1;
    }
    true
}

/// Whether texel `i` is an anchor of partition `p` with `ns` subsets: texel
/// 0, or the anchor of a later subset. Anchors store one index bit less.
pub open spec fn is_anchor(t: Bc7Partitions, ns: nat, p: int, i: int) -> bool {
    i == 0 || i == t.anchor(ns, p, 0) || (ns == 3 && i == t.anchor(ns, p, 1))
}

/// Width of texel `i`'s index in a partitioned block.
pub open spec fn anchored_width(t: Bc7Partitions, ns: nat, p: int, bits: nat, i: int) -> nat {
    if is_anchor(t, ns, p, i) { (bits - 1) as nat } else { bits }
}

/// Bit offset of texel `i`'s index in a partitioned block whose indices
/// start at `start`.
pub open spec fn anchored_offset(t: Bc7Partitions, ns: nat, p: int, start: nat, bits: nat, i: int) -> nat
    decreases i,
{
    if i <= 0 {
        start
    } else {
        anchored_offset(t, ns, p, start, bits, i - 1) + anchored_width(t, ns, p, bits, i - 1)
    }
}

/// Texel `i`'s index in a partitioned block.
pub open spec fn anchored_index(x: nat, t: Bc7Partitions, ns: nat, p: int, start: nat, bits: nat, i: int) -> nat {
    nat_field(x, anchored_offset(t, ns, p, start, bits, i), anchored_width(t, ns, p, bits, i))
}

/// How many of the first `i` texels are anchors.
pub open spec fn anchor_count(t: Bc7Partitions, ns: nat, p: int, i: int) -> nat
    decreases i,
{
    if i <= 0 { 0 } else { anchor_count(t, ns, p, i - 1) + if is_anchor(t, ns, p, i - 1) { 1nat } else { 0 } }
}

/// The index offsets of a partitioned block: `bits` per texel less one per
/// anchor so far, and the sixteen texels hold exactly `ns` anchors.
#[verifier::spinoff_prover]
#[verifier::rlimit(30)]
proof fn lemma_anchored_offsets(t: Bc7Partitions, ns: nat, p: int, start: nat, bits: nat, i: int)
    requires
        t.wf(),
        2 <= ns <= 3,
        0 <= p < 64,
        1 <= bits,
        0 <= i <= 16,
    ensures
        anchored_offset(t, ns, p, start, bits, i) + anchor_count(t, ns, p, i) == start + bits * i,
        anchor_count(t, ns, p, i) <= i,
        anchor_count(t, ns, p, 16) == ns,
        anchor_count(t, ns, p, 16) - anchor_count(t, ns, p, i) <= 16 - i,
    decreases i,
{
    t.lemma_ranges();
    if i > 0 {
        lemma_anchored_offsets(t, ns, p, start, bits, i - 1);
        assert(bits * i == bits * (i - 1) + bits) by (nonlinear_arith);
    }
    lemma_anchor_count_step(t, ns, p, i);
    reveal_with_fuel(anchor_count, 17);
}

/// Anchors between texel `i` and the end are at most the texels left.
proof fn lemma_anchor_count_step(t: Bc7Partitions, ns: nat, p: int, i: int)
    requires
        0 <= i <= 16,
    ensures
        anchor_count(t, ns, p, 16) - anchor_count(t, ns, p, i) <= 16 - i,
        anchor_count(t, ns, p, i) <= i,
    decreases 16 - i,
{
    if i < 16 {
        lemma_anchor_count_step(t, ns, p, i + 1);
    }
    lemma_anchor_count_le(t, ns, p, i);
}

/// At most `i` of the first `i` texels are anchors.
proof fn lemma_anchor_count_le(t: Bc7Partitions, ns: nat, p: int, i: int)
    requires
        0 <= i,
    ensures
        anchor_count(t, ns, p, i) <= i,
    decreases i,
{
    if i > 0 {
        lemma_anchor_count_le(t, ns, p, i - 1);
    }
}

/// Read the sixteen indices of a partitioned block: `bits` bits each, one
/// less for every anchor texel.
#[verifier::spinoff_prover]
fn read_anchored_set(
    block: &[u8; 16],
    bit_offset: &mut u32,
    t: &Bc7Partitions,
    ns: u32,
    part: usize,
    bits: u32,
) -> (w: [u32; 16])
    requires
        t.wf(),
        2 <= ns <= 3,
        part < 64,
        2 <= bits <= 3,
        *old(bit_offset) + 16 * bits - ns <= 128,
    ensures
        *final(bit_offset) == *old(bit_offset) + 16 * bits - ns,
        forall|i: int| 0 <= i < 16 ==> #[trigger] w[i] as nat == anchored_index(
            block_bits(*block),
            *t,
            ns as nat,
            part as int,
            *old(bit_offset) as nat,
            bits as nat,
            i,
        ),
        forall|i: int| 0 <= i < 16 ==> #[trigger] w[i] < pow2(bits as nat),
{
    let ghost start = *bit_offset;
    let a0 = t.anchor_at(ns, part, 0);
    let a1 = if ns == 3 { t.anchor_at(ns, part, 1) } else { 0 };
    let mut w = [0u32; 16];
    let mut i: usize = 0;
    while i < 16
        invariant
            t.wf(),
            2 <= ns <= 3,
            part < 64,
            2 <= bits <= 3,
            start + 16 * bits - ns <= 128,
            a0 as nat == t.anchor(ns as nat, part as int, 0),
            ns == 3 ==> a1 as nat == t.anchor(ns as nat, part as int, 1),
            i <= 16,
            *bit_offset as nat == anchored_offset(*t, ns as nat, part as int, start as nat, bits as nat, i as int),
            forall|k: int| 0 <= k < i ==> #[trigger] w[k] as nat == anchored_index(
                block_bits(*block),
                *t,
                ns as nat,
                part as int,
                start as nat,
                bits as nat,
                k,
            ),
            forall|k: int| 0 <= k < i ==> #[trigger] w[k] < pow2(bits as nat),
        decreases 16 - i,
    {
        let anchored = i == 0 || i == a0 || (ns == 3 && i == a1);
        let n = if anchored { bits - 1 } else { bits };
        proof {
            lemma_anchored_offsets(*t, ns as nat, part as int, start as nat, bits as nat, i as int);
            lemma_anchored_offsets(*t, ns as nat, part as int, start as nat, bits as nat, (i + 1) as int);
            assert(anchored == is_anchor(*t, ns as nat, part as int, i as int));
            assert(bits * 16 <= 48) by (nonlinear_arith)
                requires
                    bits <= 3,
            ;
            assert(bits * 16 - bits * (i + 1) >= 16 - (i + 1)) by (nonlinear_arith)
                requires
                    i < 16,
                    bits >= 1,
            ;
            assert(anchored_offset(*t, ns as nat, part as int, start as nat, bits as nat, (i + 1) as int)
                == anchored_offset(*t, ns as nat, part as int, start as nat, bits as nat, i as int) + n);
            lemma2_to64();
        }
        let v = read_bits32(block, bit_offset, n);
        proof {
            vstd::arithmetic::div_mod::lemma_mod_bound(
                (le_value(block@) / pow2(anchored_offset(*t, ns as nat, part as int, start as nat, bits as nat, i as int))) as int,
                pow2(n as nat) as int,
            );
            if n < bits {
                lemma_pow2_strictly_increases(n as nat, bits as nat);
            }
        }
        w[i] = v;
        i = i + 1;
    }
    proof {
        lemma_anchored_offsets(*t, ns as nat, part as int, start as nat, bits as nat, 16);
    }
    w
}

/// Subsets of partitioned mode `m`: three in modes 0 and 2, two in 1, 3, 7.
pub open spec fn pm_subsets(m: nat) -> nat {
    if m == 0 || m == 2 { 3 } else { 2 }
}

/// Width of the partition number.
pub open spec fn pm_part_bits(m: nat) -> nat {
    if m == 0 { 4 } else { 6 }
}

/// Channels stored per endpoint: RGBA in mode 7, RGB otherwise.
pub open spec fn pm_comps(m: nat) -> nat {
    if m == 7 { 4 } else { 3 }
}

/// Width of an endpoint code.
pub open spec fn pm_ebits(m: nat) -> nat {
    if m == 0 { 4 } else if m == 1 { 6 } else if m == 2 { 5 } else if m == 3 { 7 } else { 5 }
}

/// Number of p-bits: per endpoint in modes 0, 3, 7, per subset in mode 1,
/// none in mode 2.
pub open spec fn pm_pcount(m: nat) -> nat {
    if m == 0 { 6 } else if m == 1 { 2 } else if m == 2 { 0 } else { 4 }
}

/// Width of an index.
pub open spec fn pm_wbits(m: nat) -> nat {
    if m <= 1 { 3 } else { 2 }
}

/// Bit offset of the first endpoint code.
pub open spec fn pm_code_start(m: nat) -> nat {
    m + 1 + pm_part_bits(m)
}

/// The partition number of a block of mode `m`.
pub open spec fn pm_part(x: nat, m: nat) -> nat {
    nat_field(x, m + 1, pm_part_bits(m))
}

/// Code of endpoint `e`, channel `c`: channel-major, endpoints in order.
pub open spec fn pm_code(x: nat, m: nat, c: nat, e: nat) -> nat {
    nat_field(x, pm_code_start(m) + (c * (2 * pm_subsets(m)) + e) * pm_ebits(m), pm_ebits(m))
}

/// Bit offset of the first p-bit.
pub open spec fn pm_pbit_start(m: nat) -> nat {
    pm_code_start(m) + pm_comps(m) * (2 * pm_subsets(m)) * pm_ebits(m)
}

/// Which p-bit endpoint `e` uses: mode 1 shares one per subset.
pub open spec fn pm_pbit_slot(m: nat, e: nat) -> nat {
    if m == 1 { e / 2 } else { e }
}

/// The p-bit of endpoint `e`.
pub open spec fn pm_pbit(x: nat, m: nat, e: nat) -> nat {
    nat_field(x, pm_pbit_start(m) + pm_pbit_slot(m, e), 1)
}

/// Bit offset of the first index.
pub open spec fn pm_index_start(m: nat) -> nat {
    pm_pbit_start(m) + pm_pcount(m)
}

/// Endpoint `e`, channel `c`, widened to 8 bits; 255 for a channel the mode
/// does not store.
pub open spec fn pm_endpoint(x: nat, m: nat, c: nat, e: nat) -> nat {
    if c >= pm_comps(m) {
        255
    } else if pm_pcount(m) > 0 {
        replicate8(2 * pm_code(x, m, c, e) + pm_pbit(x, m, e), pm_ebits(m) + 1)
    } else {
        replicate8(pm_code(x, m, c, e), pm_ebits(m))
    }
}

/// Channel `c` of texel `i` of a partitioned block of mode `m`: interpolated
/// between its subset's endpoints at its index; 255 for a channel the mode
/// does not store.
pub open spec fn pm_texel(x: nat, t: Bc7Partitions, m: nat, i: nat, c: nat) -> nat {
    let p = pm_part(x, m);
    let s = t.subset(pm_subsets(m), p as int, i as int);
    let w = anchored_index(x, t, pm_subsets(m), p as int, pm_index_start(m), pm_wbits(m), i as int);
    if c >= pm_comps(m) {
        255
    } else {
        interp(pm_endpoint(x, m, c, 2 * s), pm_endpoint(x, m, c, 2 * s + 1), ramp_weight(pm_wbits(m), w))
    }
}

/// A block of mode `m` starts with `m` zero bits and a one.
pub open spec fn is_mode(x: nat, m: nat) -> bool {
    nat_field(x, 0, m + 1) == pow2(m)
}

/// Read the endpoint codes, channel-major: `comps` channels of `nend`
/// endpoints, `ebits` bits each.
#[verifier::spinoff_prover]
fn read_codes(block: &[u8; 16], bit_offset: &mut u32, comps: usize, nend: usize, ebits: u32) -> (codes: [[u32; 4]; 6])
    requires
        1 <= comps <= 4,
        1 <= nend <= 6,
        1 <= ebits <= 8,
        *old(bit_offset) + comps * nend * ebits <= 128,
    ensures
        *final(bit_offset) == *old(bit_offset) + comps * nend * ebits,
        forall|c: int, e: int|
            0 <= c < comps && 0 <= e < nend ==> #[trigger] codes[e][c] as nat == nat_field(
                block_bits(*block),
                (*old(bit_offset) + (c * nend + e) * ebits) as nat,
                ebits as nat,
            ),
        forall|c: int, e: int| 0 <= c < comps && 0 <= e < nend ==> #[trigger] codes[e][c] < pow2(ebits as nat),
{
    let ghost start = *bit_offset;
    let mut codes = [[0u32; 4]; 6];
    let mut c: usize = 0;
    while c < comps
        invariant
            1 <= comps <= 4,
            1 <= nend <= 6,
            1 <= ebits <= 8,
            start + comps * nend * ebits <= 128,
            c <= comps,
            *bit_offset == start + c * nend * ebits,
            forall|cc: int, e: int|
                0 <= cc < c && 0 <= e < nend ==> #[trigger] codes[e][cc] as nat == nat_field(
                    block_bits(*block),
                    (start + (cc * nend + e) * ebits) as nat,
                    ebits as nat,
                ),
            forall|cc: int, e: int| 0 <= cc < c && 0 <= e < nend ==> #[trigger] codes[e][cc] < pow2(ebits as nat),
        decreases comps - c,
    {
        let mut e: usize = 0;
        while e < nend
            invariant
                1 <= comps <= 4,
                1 <= nend <= 6,
                1 <= ebits <= 8,
                start + comps * nend * ebits <= 128,
                c < comps,
                e <= nend,
                *bit_offset == start + (c * nend + e) * ebits,
                forall|cc: int, ee: int|
                    0 <= cc < c && 0 <= ee < nend ==> #[trigger] codes[ee][cc] as nat == nat_field(
                        block_bits(*block),
                        (start + (cc * nend + ee) * ebits) as nat,
                        ebits as nat,
                    ),
                forall|cc: int, ee: int| 0 <= cc < c && 0 <= ee < nend ==> #[trigger] codes[ee][cc] < pow2(ebits as nat),
                forall|ee: int|
                    0 <= ee < e ==> #[trigger] codes[ee][c as int] as nat == nat_field(
                        block_bits(*block),
                        (start + (c * nend + ee) * ebits) as nat,
                        ebits as nat,
                    ),
                forall|ee: int| 0 <= ee < e ==> #[trigger] codes[ee][c as int] < pow2(ebits as nat),
            decreases nend - e,
        {
            proof {
                assert((c * nend + e + 1) * ebits <= comps * nend * ebits) by (nonlinear_arith)
                    requires
                        c < comps,
                        e < nend,
                        ebits >= 1,
                ;
                assert((c * nend + e + 1) * ebits == (c * nend + e) * ebits + ebits) by (nonlinear_arith);
                lemma2_to64();
            }
            let v = read_bits32(block, bit_offset, ebits);
            proof {
                vstd::arithmetic::div_mod::lemma_mod_bound(
                    (le_value(block@) / pow2((start + (c * nend + e) * ebits) as nat)) as int,
                    pow2(ebits as nat) as int,
                );
                lemma_pow2_pos(ebits as nat);
            }
            codes[e][c] = v;
            e = e + 1;
        }
        proof {
            assert((c * nend + nend) * ebits == (c + 1) * nend * ebits) by (nonlinear_arith);
        }
        c = c + 1;
    }
    codes
}

/// Read `count` single p-bits.
fn read_pbits(block: &[u8; 16], bit_offset: &mut u32, count: usize) -> (pbits: [u32; 6])
    requires
        count <= 6,
        *old(bit_offset) + count <= 128,
    ensures
        *final(bit_offset) == *old(bit_offset) + count,
        forall|p: int| 0 <= p < count ==> #[trigger] pbits[p] as nat == nat_field(block_bits(*block), (*old(bit_offset) + p) as nat, 1),
        forall|p: int| 0 <= p < 6 ==> #[trigger] pbits[p] < 2,
{
    let ghost start = *bit_offset;
    let mut pbits = [0u32; 6];
    let mut p: usize = 0;
    while p < count
        invariant
            count <= 6,
            start + count <= 128,
            p <= count,
            *bit_offset == start + p,
            forall|q: int| 0 <= q < p ==> #[trigger] pbits[q] as nat == nat_field(block_bits(*block), (start + q) as nat, 1),
            forall|q: int| 0 <= q < 6 ==> #[trigger] pbits[q] < 2,
        decreases count - p,
    {
        let v = read_bits32(block, bit_offset, 1);
        proof {
            lemma2_to64();
            vstd::arithmetic::div_mod::lemma_mod_bound(
                (le_value(block@) / pow2((start + p) as nat)) as int,
                pow2(1) as int,
            );
        }
        pbits[p] = v;
        p = p + 1;
    }
    pbits
}

/// The palette of a partitioned block: for each of `nsub` subsets and each
/// index on the `wbits`-bit ramp, the first `comps` channels interpolated
/// between the subset's two endpoints, the rest 255.
#[verifier::spinoff_prover]
fn partition_palette(ep: [[u32; 4]; 6], nsub: usize, comps: usize, wbits: u32) -> (colors: [[[u8; 4]; 8]; 3])
    requires
        2 <= nsub <= 3,
        3 <= comps <= 4,
        2 <= wbits <= 3,
        forall|e: int, c: int| 0 <= e < 6 && 0 <= c < 4 ==> #[trigger] ep[e][c] < 256,
    ensures
        forall|s: int, i: int, c: int|
            0 <= s < nsub && 0 <= i < pow2(wbits as nat) && 0 <= c < 4 ==> #[trigger] colors[s][i][c] as nat == (if c < comps {
                interp(ep[2 * s][c] as nat, ep[2 * s + 1][c] as nat, ramp_weight(wbits as nat, i as nat))
            } else {
                255
            }),
{
    let mut colors = [[[0u8; 4]; 8]; 3];
    proof {
        lemma2_to64();
        lemma_u32_shl_is_mul(1, wbits);
    }
    let nw: u32 = 1 << wbits;
    let mut s: usize = 0;
    while s < nsub
        invariant
            2 <= nsub <= 3,
            3 <= comps <= 4,
            2 <= wbits <= 3,
            nw == pow2(wbits as nat),
            nw <= 8,
            s <= nsub,
            forall|e: int, c: int| 0 <= e < 6 && 0 <= c < 4 ==> #[trigger] ep[e][c] < 256,
            forall|ss: int, i: int, c: int|
                0 <= ss < s && 0 <= i < nw && 0 <= c < 4 ==> #[trigger] colors[ss][i][c] as nat == (if c < comps {
                    interp(ep[2 * ss][c] as nat, ep[2 * ss + 1][c] as nat, ramp_weight(wbits as nat, i as nat))
                } else {
                    255
                }),
        decreases nsub - s,
    {
        let mut row = [[0u8; 4]; 8];
        let mut i: u32 = 0;
        while i < nw
            invariant
                2 <= nsub <= 3,
                3 <= comps <= 4,
                2 <= wbits <= 3,
                nw == pow2(wbits as nat),
                nw <= 8,
                s < nsub,
                i <= nw,
                forall|e: int, c: int| 0 <= e < 6 && 0 <= c < 4 ==> #[trigger] ep[e][c] < 256,
                forall|k: int, c: int|
                    0 <= k < i && 0 <= c < 4 ==> #[trigger] row[k][c] as nat == (if c < comps {
                        interp(ep[2 * s][c] as nat, ep[2 * s + 1][c] as nat, ramp_weight(wbits as nat, k as nat))
                    } else {
                        255
                    }),
            decreases nw - i,
        {
            let mut px = [255u8; 4];
            let mut c: usize = 0;
            while c < comps
                invariant
                    3 <= comps <= 4,
                    2 <= wbits <= 3,
                    nw == pow2(wbits as nat),
                    s < nsub,
                    nsub <= 3,
                    i < nw,
                    c <= comps,
                    forall|e: int, cc: int| 0 <= e < 6 && 0 <= cc < 4 ==> #[trigger] ep[e][cc] < 256,
                    forall|cc: int| 0 <= cc < c ==> #[trigger] px[cc] as nat == interp(ep[2 * s][cc] as nat, ep[2 * s + 1][cc] as nat, ramp_weight(wbits as nat, i as nat)),
                    forall|cc: int| c <= cc < 4 ==> #[trigger] px[cc] == 255,
                decreases comps - c,
            {
                let v = bc7u_interp(ep[s * 2][c], ep[s * 2 + 1][c], i, wbits);
                proof {
                    lemma_ramp_symmetric(wbits as nat, i as nat);
                    lemma_interp_byte(ep[2 * s as int][c as int] as nat, ep[2 * s + 1][c as int] as nat, ramp_weight(wbits as nat, i as nat));
                }
                px[c] = v as u8;
                c = c + 1;
            }
            row[i as usize] = px;
            i = i + 1;
        }
        colors[s] = row;
        s = s + 1;
    }
    colors
}

/// Widen the endpoint codes of a partitioned block of mode `mode` to 8 bits:
/// with each endpoint's p-bit where the mode has them (one per subset in mode
/// 1), and 255 for a channel the mode does not store.
#[verifier::spinoff_prover]
fn pm_dequant(
    mode: u32,
    codes: [[u32; 4]; 6],
    pbits: [u32; 6],
    x: Ghost<nat>,
) -> (ep: [[u32; 4]; 6])
    requires
        mode == 0 || mode == 1 || mode == 2 || mode == 3 || mode == 7,
        forall|c: int, e: int|
            0 <= c < pm_comps(mode as nat) && 0 <= e < 2 * pm_subsets(mode as nat) ==> #[trigger] codes[e][c] as nat == pm_code(x@, mode as nat, c as nat, e as nat),
        forall|c: int, e: int| 0 <= c < pm_comps(mode as nat) && 0 <= e < 2 * pm_subsets(mode as nat) ==> #[trigger] codes[e][c] < pow2(pm_ebits(mode as nat)),
        forall|e: int| 0 < pm_pcount(mode as nat) && 0 <= e < 2 * pm_subsets(mode as nat) ==> #[trigger] pbits[pm_pbit_slot(mode as nat, e as nat) as int] as nat == pm_pbit(x@, mode as nat, e as nat),
        forall|p: int| 0 <= p < 6 ==> #[trigger] pbits[p] < 2,
    ensures
        forall|c: int, e: int|
            0 <= c < 4 && 0 <= e < 2 * pm_subsets(mode as nat) ==> #[trigger] ep[e][c] as nat == pm_endpoint(x@, mode as nat, c as nat, e as nat),
        forall|e: int, c: int| 0 <= e < 6 && 0 <= c < 4 ==> #[trigger] ep[e][c] < 256,
{
    let nend: usize = if mode == 0 || mode == 2 { 6 } else { 4 };
    let comps: usize = if mode == 7 { 4 } else { 3 };
    let endpoint_bits: u32 = if mode == 0 { 4 } else if mode == 1 { 6 } else if mode == 2 { 5 } else if mode == 3 { 7 } else { 5 };
    let pbit_count: usize = if mode == 0 { 6 } else if mode == 1 { 2 } else if mode == 2 { 0 } else { 4 };
    let mut ep = [[0u32; 4]; 6];
    let mut e: usize = 0;
    while e < nend
        invariant
            mode == 0 || mode == 1 || mode == 2 || mode == 3 || mode == 7,
            nend == 2 * pm_subsets(mode as nat),
            comps == pm_comps(mode as nat),
            endpoint_bits == pm_ebits(mode as nat),
            pbit_count == pm_pcount(mode as nat),
            e <= nend,
            forall|c: int, e: int|
                0 <= c < pm_comps(mode as nat) && 0 <= e < 2 * pm_subsets(mode as nat) ==> #[trigger] codes[e][c] as nat == pm_code(x@, mode as nat, c as nat, e as nat),
            forall|c: int, e: int| 0 <= c < pm_comps(mode as nat) && 0 <= e < 2 * pm_subsets(mode as nat) ==> #[trigger] codes[e][c] < pow2(pm_ebits(mode as nat)),
            forall|e: int| 0 < pm_pcount(mode as nat) && 0 <= e < 2 * pm_subsets(mode as nat) ==> #[trigger] pbits[pm_pbit_slot(mode as nat, e as nat) as int] as nat == pm_pbit(x@, mode as nat, e as nat),
            forall|p: int| 0 <= p < 6 ==> #[trigger] pbits[p] < 2,
            forall|c: int, ee: int| 0 <= c < 4 && 0 <= ee < e ==> #[trigger] ep[ee][c] as nat == pm_endpoint(x@, mode as nat, c as nat, ee as nat),
            forall|ee: int, c: int| 0 <= ee < 6 && 0 <= c < 4 ==> #[trigger] ep[ee][c] < 256,
        decreases nend - e,
    {
        let mut c: usize = 0;
        while c < 4
            invariant
                mode == 0 || mode == 1 || mode == 2 || mode == 3 || mode == 7,
                nend == 2 * pm_subsets(mode as nat),
                comps == pm_comps(mode as nat),
                endpoint_bits == pm_ebits(mode as nat),
                pbit_count == pm_pcount(mode as nat),
                e < nend,
                c <= 4,
                forall|c: int, e: int|
                    0 <= c < pm_comps(mode as nat) && 0 <= e < 2 * pm_subsets(mode as nat) ==> #[trigger] codes[e][c] as nat == pm_code(x@, mode as nat, c as nat, e as nat),
                forall|c: int, e: int| 0 <= c < pm_comps(mode as nat) && 0 <= e < 2 * pm_subsets(mode as nat) ==> #[trigger] codes[e][c] < pow2(pm_ebits(mode as nat)),
                forall|e: int| 0 < pm_pcount(mode as nat) && 0 <= e < 2 * pm_subsets(mode as nat) ==> #[trigger] pbits[pm_pbit_slot(mode as nat, e as nat) as int] as nat == pm_pbit(x@, mode as nat, e as nat),
                forall|p: int| 0 <= p < 6 ==> #[trigger] pbits[p] < 2,
                forall|cc: int, ee: int| 0 <= cc < 4 && 0 <= ee < e ==> #[trigger] ep[ee][cc] as nat == pm_endpoint(x@, mode as nat, cc as nat, ee as nat),
                forall|cc: int| 0 <= cc < c ==> #[trigger] ep[e as int][cc] as nat == pm_endpoint(x@, mode as nat, cc as nat, e as nat),
                forall|ee: int, cc: int| 0 <= ee < 6 && 0 <= cc < 4 ==> #[trigger] ep[ee][cc] < 256,
            decreases 4 - c,
        {
            proof {
                lemma2_to64();
            }
            let v = if c >= comps {
                255
            } else if pbit_count != 0 {
                let pi = if mode == 1 { e / 2 } else { e };
                proof {
                    let ei: int = e as int;
                    assert(pbits[pm_pbit_slot(mode as nat, ei as nat) as int] as nat == pm_pbit(x@, mode as nat, ei as nat));
                }
                bc7u_dequant_p(codes[e][c], pbits[pi], endpoint_bits)
            } else {
                bc7u_dequant(codes[e][c], endpoint_bits)
            };
            ep[e][c] = v;
            c = c + 1;
        }
        e = e + 1;
    }
    ep
}


/// Look each texel of a partitioned block up in its subset's palette.
#[verifier::spinoff_prover]
fn partition_pixels(
    colors: &[[[u8; 4]; 8]; 3],
    w: &[u32; 16],
    t: &Bc7Partitions,
    ns: u32,
    part: usize,
    wbits: u32,
) -> (px: [Rgba; 16])
    requires
        t.wf(),
        2 <= ns <= 3,
        part < 64,
        2 <= wbits <= 3,
        forall|i: int| 0 <= i < 16 ==> #[trigger] w[i] < pow2(wbits as nat),
    ensures
        forall|i: int, c: int|
            0 <= i < 16 && 0 <= c < 4 ==> #[trigger] px[i][c] == colors[t.subset(ns as nat, part as int, i) as int][w[i] as int][c],
{
    proof {
        lemma2_to64();
    }
    let mut px = [[0u8; 4]; 16];
    let mut i: usize = 0;
    while i < 16
        invariant
            t.wf(),
            2 <= ns <= 3,
            part < 64,
            2 <= wbits <= 3,
            pow2(wbits as nat) <= 8,
            i <= 16,
            forall|k: int| 0 <= k < 16 ==> #[trigger] w[k] < pow2(wbits as nat),
            forall|k: int, c: int|
                0 <= k < i && 0 <= c < 4 ==> #[trigger] px[k][c] == colors[t.subset(ns as nat, part as int, k) as int][w[k] as int][c],
        decreases 16 - i,
    {
        let sub = t.subset_at(ns, part, i) as usize;
        px[i] = colors[sub][w[i] as usize];
        i = i + 1;
    }
    px
}

/// Decode a block of mode 0 or 2: three subsets, RGB, opaque.
#[verifier::spinoff_prover]
pub fn unpack_bc7_mode0_2(mode: u32, block: &[u8; 16], t: &Bc7Partitions, pixels: &mut [Rgba; 16]) -> (ok: bool)
    requires
        mode == 0 || mode == 2,
        t.wf(),
    ensures
        ok == is_mode(block_bits(*block), mode as nat),
        ok ==> forall|i: int, c: int|
            0 <= i < 16 && 0 <= c < 4 ==> #[trigger] final(pixels)[i][c] as nat == pm_texel(
                block_bits(*block),
                *t,
                mode as nat,
                i as nat,
                c as nat,
            ),
        !ok ==> *final(pixels) == *old(pixels),
{
    let ghost x = block_bits(*block);
    let weight_bits: u32 = if mode == 0 { 3 } else { 2 };
    let endpoint_bits: u32 = if mode == 0 { 4 } else { 5 };
    let pbit_count: usize = if mode == 0 { 6 } else { 0 };
    let part_bits: u32 = if mode == 0 { 4 } else { 6 };
    proof {
        lemma2_to64();
        lemma_u32_shl_is_mul(1, mode);
    }
    let mut bit_offset = 0u32;
    if read_bits32(block, &mut bit_offset, mode + 1) != (1 << mode) {
        return false;
    }
    let part = read_bits32(block, &mut bit_offset, part_bits) as usize;
    proof {
        vstd::arithmetic::div_mod::lemma_mod_bound((x / pow2(mode as nat + 1)) as int, pow2(part_bits as nat) as int);
    }
    let codes = read_codes(block, &mut bit_offset, 3, 6, endpoint_bits);
    let pbits = read_pbits(block, &mut bit_offset, pbit_count);
    let weights = read_anchored_set(block, &mut bit_offset, t, 3, part, weight_bits);
    let ep = pm_dequant(mode, codes, pbits, Ghost(x));
    let colors = partition_palette(ep, 3, 3, weight_bits);
    let px = partition_pixels(&colors, &weights, t, 3, part, weight_bits);
    proof {
        t.lemma_ranges();
        assert forall|i: int, c: int| 0 <= i < 16 && 0 <= c < 4 implies #[trigger] px[i][c] as nat == pm_texel(x, *t, mode as nat, i as nat, c as nat) by {
            let sub = t.subset(3, part as int, i);
            assert(sub < 3);
        }
    }
    *pixels = px;
    true
}

/// Decode a block of mode 1, 3 or 7: two subsets, RGB in modes 1 and 3,
/// RGBA in mode 7.
#[verifier::spinoff_prover]
pub fn unpack_bc7_mode1_3_7(mode: u32, block: &[u8; 16], t: &Bc7Partitions, pixels: &mut [Rgba; 16]) -> (ok: bool)
    requires
        mode == 1 || mode == 3 || mode == 7,
        t.wf(),
    ensures
        ok == is_mode(block_bits(*block), mode as nat),
        ok ==> forall|i: int, c: int|
            0 <= i < 16 && 0 <= c < 4 ==> #[trigger] final(pixels)[i][c] as nat == pm_texel(
                block_bits(*block),
                *t,
                mode as nat,
                i as nat,
                c as nat,
            ),
        !ok ==> *final(pixels) == *old(pixels),
{
    let ghost x = block_bits(*block);
    let comps: usize = if mode == 7 { 4 } else { 3 };
    let weight_bits: u32 = if mode == 1 { 3 } else { 2 };
    let endpoint_bits: u32 = if mode == 7 { 5 } else if mode == 1 { 6 } else { 7 };
    let pbit_count: usize = if mode == 1 { 2 } else { 4 };
    proof {
        lemma2_to64();
        lemma_u32_shl_is_mul(1, mode);
    }
    let mut bit_offset = 0u32;
    if read_bits32(block, &mut bit_offset, mode + 1) != (1 << mode) {
        return false;
    }
    let part = read_bits32(block, &mut bit_offset, 6) as usize;
    proof {
        vstd::arithmetic::div_mod::lemma_mod_bound((x / pow2(mode as nat + 1)) as int, pow2(6) as int);
    }
    let codes = read_codes(block, &mut bit_offset, comps, 4, endpoint_bits);
    let pbits = read_pbits(block, &mut bit_offset, pbit_count);
    let weights = read_anchored_set(block, &mut bit_offset, t, 2, part, weight_bits);
    let ep = pm_dequant(mode, codes, pbits, Ghost(x));
    let colors = partition_palette(ep, 2, comps, weight_bits);
    let px = partition_pixels(&colors, &weights, t, 2, part, weight_bits);
    proof {
        t.lemma_ranges();
        assert forall|i: int, c: int| 0 <= i < 16 && 0 <= c < 4 implies #[trigger] px[i][c] as nat == pm_texel(x, *t, mode as nat, i as nat, c as nat) by {
            let sub = t.subset(2, part as int, i);
            assert(sub < 2);
        }
    }
    *pixels = px;
    true
}


/// A block of mode `m`: its first byte's lowest set bit is bit `m`.
pub open spec fn bc7_mode(x: nat, m: nat) -> bool {
    m < 8 && is_mode(x, m)
}

/// Channel `c` of texel `i` of a block of mode `m`.
pub open spec fn bc7_texel(x: nat, t: Bc7Partitions, m: nat, i: nat, c: nat) -> nat {
    if m == 6 {
        mode6_texel(x, i, c)
    } else if m == 4 || m == 5 {
        m45_texel(x, m, i, c)
    } else {
        pm_texel(x, t, m, i, c)
    }
}

/// The mode test on the first byte: walking up from bit 0, a clear bit keeps
/// the low bits clear, and the first set bit is the only mode the byte has.
proof fn lemma_lowest_set_bit(b: u32, m: u32, m1: u32, k: u32, k1: u32)
    by (bit_vector)
    requires
        b < 256,
        m < 8,
        k < 8,
        m1 == m + 1,
        k1 == k + 1,
        b % (1u32 << m) == 0,
    ensures
        (b & (1u32 << m)) == 0 ==> b % (1u32 << m1) == 0,
        (b & (1u32 << m)) != 0 ==> b % (1u32 << m1) == (1u32 << m),
        ((b & (1u32 << m)) != 0 && k != m) ==> b % (1u32 << k1) != (1u32 << k),
        b % 256 == 0 ==> b % (1u32 << k1) != (1u32 << k),
{
}

/// The mode test of a block reads the low bits of its first byte.
proof fn lemma_mode_in_first_byte(block: [u8; 16], m: nat)
    requires
        m < 8,
    ensures
        is_mode(block_bits(block), m) == ((block[0] as nat) % pow2(m + 1) == pow2(m)),
{
    let x = block_bits(block);
    lemma_field_in_byte(x, 0, 0, m + 1);
    lemma_le_value_byte(block@, 0);
    lemma2_to64();
    assert(nat_field(x, 0, 8) == block[0]);
    let b = block[0] as nat;
    assert(b / 1 == b) by (nonlinear_arith);
    assert(b / pow2(0) == b);
    assert(nat_field(b, 0, m + 1) == b % pow2(m + 1));
}

/// Decode any BC7 block: the lowest set bit of the first byte picks the mode.
/// False, with `pixels` untouched, when the first byte is zero.
#[verifier::spinoff_prover]
pub fn unpack_bc7(block: &[u8; 16], t: &Bc7Partitions, pixels: &mut [Rgba; 16]) -> (ok: bool)
    requires
        t.wf(),
    ensures
        ok == (exists|m: nat| bc7_mode(block_bits(*block), m)),
        forall|m: nat| #[trigger] bc7_mode(block_bits(*block), m) ==> forall|i: int, c: int|
            0 <= i < 16 && 0 <= c < 4 ==> #[trigger] final(pixels)[i][c] as nat == bc7_texel(
                block_bits(*block),
                *t,
                m,
                i as nat,
                c as nat,
            ),
        !ok ==> *final(pixels) == *old(pixels),
{
    let ghost x = block_bits(*block);
    let first_byte = block[0] as u32;
    let mut mode: u32 = 0;
    proof {
        lemma2_to64();
        assert(first_byte % 1 == 0);
    }
    while mode < 8
        invariant
            t.wf(),
            x == block_bits(*block),
            first_byte == block[0],
            first_byte < 256,
            mode <= 8,
            first_byte as nat % pow2(mode as nat) == 0,
            forall|k: nat| k < mode ==> !#[trigger] is_mode(x, k),
            *pixels == *old(pixels),
        decreases 8 - mode,
    {
        proof {
            lemma2_to64();
            lemma_pow2_pos(mode as nat);
            lemma_pow2_strictly_increases(mode as nat, 8);
            lemma_pow2_strictly_increases(mode as nat + 1, 9);
            lemma_u32_shl_is_mul(1, mode);
            lemma_u32_shl_is_mul(1, (mode + 1) as u32);
        }
        if first_byte & (1 << mode) != 0 {
            proof {
                lemma_mode_in_first_byte(*block, mode as nat);
                assert forall|k: nat| #[trigger] bc7_mode(x, k) implies k == mode by {
                    if k != mode {
                        lemma_pow2_strictly_increases(k, 8);
                        lemma_pow2_strictly_increases(k + 1, 9);
                        lemma_u32_shl_is_mul(1, k as u32);
                        lemma_u32_shl_is_mul(1, (k + 1) as u32);
                        lemma_lowest_set_bit(first_byte, mode, (mode + 1) as u32, k as u32, (k + 1) as u32);
                        lemma_mode_in_first_byte(*block, k);
                    }
                }
                lemma_lowest_set_bit(first_byte, mode, (mode + 1) as u32, 0, 1);
                assert(bc7_mode(x, mode as nat));
            }
            let ok = if mode == 0 || mode == 2 {
                unpack_bc7_mode0_2(mode, block, t, pixels)
            } else if mode == 4 || mode == 5 {
                unpack_bc7_mode4_5(mode, block, pixels)
            } else if mode == 6 {
                unpack_bc7_mode6(block, pixels)
            } else {
                unpack_bc7_mode1_3_7(mode, block, t, pixels)
            };
            return ok;
        }
        proof {
            lemma_lowest_set_bit(first_byte, mode, (mode + 1) as u32, 0, 1);
            lemma_mode_in_first_byte(*block, mode as nat);
        }
        mode = mode + 1;
    }
    proof {
        assert forall|k: nat| !#[trigger] bc7_mode(x, k) by {
            if k < 8 {
                assert(!is_mode(x, k));
            }
        }
    }
    false
}


/// Squared error of texel `i` of `src` against texel `i` of a block of mode
/// `m`, over all four channels.
pub open spec fn texel_sq_err(src: [Rgba; 16], x: nat, t: Bc7Partitions, m: nat, i: int) -> int {
    let d0 = src[i][0] - bc7_texel(x, t, m, i as nat, 0);
    let d1 = src[i][1] - bc7_texel(x, t, m, i as nat, 1);
    let d2 = src[i][2] - bc7_texel(x, t, m, i as nat, 2);
    let d3 = src[i][3] - bc7_texel(x, t, m, i as nat, 3);
    d0 * d0 + d1 * d1 + d2 * d2 + d3 * d3
}

/// Squared error of the first `n` texels of `src` against a block of mode `m`.
pub open spec fn decoded_sse(src: [Rgba; 16], x: nat, t: Bc7Partitions, m: nat, n: int) -> int
    decreases n,
{
    if n <= 0 { 0 } else { decoded_sse(src, x, t, m, n - 1) + texel_sq_err(src, x, t, m, n - 1) }
}

/// Squared difference of two bytes.
fn byte_sq_err(a: u8, b: u8) -> (r: u32)
    ensures
        r as int == (a - b) * (a - b),
        r <= 65025,
{
    let d = a as i32 - b as i32;
    assert(d * d <= 65025 && d * d >= 0) by (nonlinear_arith)
        requires
            -255 <= d <= 255,
    ;
    (d * d) as u32
}

/// The RGBA squared error of a candidate block against the source texels;
/// `u32::MAX` for a block that is no BC7 mode.
#[verifier::spinoff_prover]
pub fn calc_sse(block: &[u8; 16], t: &Bc7Partitions, pixels: &[Rgba; 16]) -> (r: u32)
    requires
        t.wf(),
    ensures
        !(exists|m: nat| bc7_mode(block_bits(*block), m)) ==> r == u32::MAX,
        forall|m: nat| #[trigger] bc7_mode(block_bits(*block), m) ==> r as int == decoded_sse(
            *pixels,
            block_bits(*block),
            *t,
            m,
            16,
        ),
{
    let ghost x = block_bits(*block);
    let mut unpacked = [[0u8; 4]; 16];
    if !unpack_bc7(block, t, &mut unpacked) {
        return u32::MAX;
    }
    let ghost m = choose|m: nat| bc7_mode(x, m);
    let mut sse = 0u32;
    let mut i: usize = 0;
    while i < 16
        invariant
            bc7_mode(x, m),
            i <= 16,
            forall|k: int, c: int|
                0 <= k < 16 && 0 <= c < 4 ==> #[trigger] unpacked[k][c] as nat == bc7_texel(x, *t, m, k as nat, c as nat),
            sse as int == decoded_sse(*pixels, x, *t, m, i as int),
            sse <= 260100 * i,
        decreases 16 - i,
    {
        let e0 = byte_sq_err(pixels[i][0], unpacked[i][0]);
        let e1 = byte_sq_err(pixels[i][1], unpacked[i][1]);
        let e2 = byte_sq_err(pixels[i][2], unpacked[i][2]);
        let e3 = byte_sq_err(pixels[i][3], unpacked[i][3]);
        sse = sse + e0 + e1 + e2 + e3;
        i = i + 1;
    }
    proof {
        assert forall|mm: nat| #[trigger] bc7_mode(x, mm) implies mm == m by {
            if mm != m {
                lemma_mode_unique(x, m, mm);
            }
        }
    }
    sse
}

/// A block has at most one mode.
proof fn lemma_mode_unique(x: nat, a: nat, b: nat)
    requires
        is_mode(x, a),
        is_mode(x, b),
    ensures
        a == b,
{
    if a < b {
        lemma_mode_below(x, a, b);
    } else if b < a {
        lemma_mode_below(x, b, a);
    }
}

/// If bit `a` is the lowest set bit, no higher mode test passes.
#[verifier::spinoff_prover]
proof fn lemma_mode_below(x: nat, a: nat, b: nat)
    requires
        a < b,
        is_mode(x, a),
    ensures
        !is_mode(x, b),
{
    if is_mode(x, b) {
        // the low a+1 bits of the low b+1 bits are the low a+1 bits of x
        lemma_field_concat(x, 0, a + 1, (b - a) as nat);
        lemma_pow2_pos(a + 1);
        lemma_pow2_pos(a);
        lemma_pow2_adds(a + 1, (b - a - 1) as nat);
        // pow2(b) is a multiple of pow2(a + 1) and so has no bits below a + 1
        let hi = nat_field(x, a + 1, (b - a) as nat);
        assert(pow2(b) == pow2(a + 1) * pow2((b - a - 1) as nat));
        assert(nat_field(x, 0, b + 1) == pow2(a) + hi * pow2(a + 1));
        assert(pow2(a + 1) * pow2((b - a - 1) as nat) == pow2(a) + hi * pow2(a + 1));
        assert(pow2(a + 1) == 2 * pow2(a)) by {
            lemma_pow2_adds(1, a);
            lemma2_to64();
        }
        vstd::arithmetic::div_mod::lemma_mod_multiples_basic(pow2((b - a - 1) as nat) as int, pow2(a + 1) as int);
        vstd::arithmetic::div_mod::lemma_mod_multiples_vanish(hi as int, pow2(a) as int, pow2(a + 1) as int);
        lemma_mul_is_commutative(hi as int, pow2(a + 1) as int);
        lemma_mul_is_commutative(pow2((b - a - 1) as nat) as int, pow2(a + 1) as int);
        lemma_small_mod(pow2(a), pow2(a + 1));
        assert(false);
    }
}


/// The texel that anchors subset `s`: texel 0 for the first subset, the
/// table's anchor for the others.
pub open spec fn pm_anchor_texel(t: Bc7Partitions, ns: nat, p: int, s: nat) -> nat {
    if s == 0 { 0 } else { t.anchor(ns, p, s - 1) }
}

/// Whether a writer turns subset `s` around: its anchor's index has the top
/// bit set, which the anchor's one-bit-shorter field cannot hold.
pub open spec fn pm_flip(t: Bc7Partitions, ns: nat, p: int, wbits: nat, w: Seq<nat>, s: nat) -> bool {
    w[pm_anchor_texel(t, ns, p, s) as int] >= pow2((wbits - 1) as nat)
}

/// An endpoint channel widened to 8 bits from its code and p-bit, the way
/// mode `m` reads it.
pub open spec fn pm_value(m: nat, code: nat, p: nat) -> nat {
    if pm_pcount(m) > 0 {
        replicate8(2 * code + p, pm_ebits(m) + 1)
    } else {
        replicate8(code, pm_ebits(m))
    }
}

/// Whether stored endpoint `e` of a partitioned block holds its subset's low
/// endpoint: the first of the pair, unless the subset is turned around.
pub open spec fn pm_holds_low(t: Bc7Partitions, m: nat, p: int, w: Seq<nat>, e: nat) -> bool {
    (e % 2 == 0) != pm_flip(t, pm_subsets(m), p, pm_wbits(m), w, e / 2)
}

/// The fields of a partitioned block of mode `m` written for partition
/// `part`, low and high endpoint codes `l[s][c]` and `h[s][c]`, p-bits
/// `pl[s]` and `ph[s]` and indices `w`. A subset whose anchor index has its
/// top bit set is stored turned around: endpoints and p-bits trade places and
/// its indices are mirrored.
pub open spec fn pm_layout(
    x: nat,
    t: Bc7Partitions,
    m: nat,
    part: nat,
    l: Seq<Seq<nat>>,
    h: Seq<Seq<nat>>,
    pl: Seq<nat>,
    ph: Seq<nat>,
    w: Seq<nat>,
) -> bool {
    let ns = pm_subsets(m);
    let wb = pm_wbits(m);
    &&& is_mode(x, m)
    &&& pm_part(x, m) == part
    &&& forall|c: nat, e: nat|
        c < pm_comps(m) && e < 2 * ns ==> #[trigger] pm_code(x, m, c, e) == (if pm_holds_low(t, m, part as int, w, e) {
            l[(e / 2) as int][c as int]
        } else {
            h[(e / 2) as int][c as int]
        })
    &&& pm_pcount(m) > 0 ==> forall|e: nat|
        e < 2 * ns ==> #[trigger] pm_pbit(x, m, e) == (if pm_holds_low(t, m, part as int, w, e) {
            pl[(e / 2) as int]
        } else {
            ph[(e / 2) as int]
        })
    &&& forall|i: nat|
        i < 16 ==> #[trigger] anchored_index(x, t, ns, part as int, pm_index_start(m), wb, i as int) == mirror(
            w[i as int],
            (pow2(wb) - 1) as nat,
            pm_flip(t, ns, part as int, wb, w, t.subset(ns, part as int, i as int)),
        )
}

/// Reading back a partitioned block (modes 0, 1, 2, 3 and 7): for every
/// texel and channel the decoder's value is the interpolation, at the
/// texel's own index, between the endpoints of its subset that the writer was
/// given, whichever way the writer oriented each subset.
#[verifier::spinoff_prover]
pub proof fn lemma_partitioned_roundtrip(
    x: nat,
    t: Bc7Partitions,
    m: nat,
    part: nat,
    l: Seq<Seq<nat>>,
    h: Seq<Seq<nat>>,
    pl: Seq<nat>,
    ph: Seq<nat>,
    w: Seq<nat>,
)
    requires
        t.wf(),
        m == 0 || m == 1 || m == 2 || m == 3 || m == 7,
        part < 64,
        l.len() == pm_subsets(m),
        h.len() == pm_subsets(m),
        pl.len() == pm_subsets(m),
        ph.len() == pm_subsets(m),
        w.len() == 16,
        forall|i: int| 0 <= i < 16 ==> w[i] < pow2(pm_wbits(m)),
        pm_layout(x, t, m, part, l, h, pl, ph, w),
    ensures
        is_mode(x, m),
        forall|i: nat, c: nat|
            i < 16 && c < 4 ==> #[trigger] pm_texel(x, t, m, i, c) == (if c >= pm_comps(m) {
                255
            } else {
                let s = t.subset(pm_subsets(m), part as int, i as int);
                interp(
                    pm_value(m, l[s as int][c as int], pl[s as int]),
                    pm_value(m, h[s as int][c as int], ph[s as int]),
                    ramp_weight(pm_wbits(m), w[i as int]),
                )
            }),
{
    let ns = pm_subsets(m);
    let wb = pm_wbits(m);
    t.lemma_ranges();
    lemma2_to64();
    assert forall|i: nat, c: nat| i < 16 && c < 4 implies #[trigger] pm_texel(x, t, m, i, c) == (if c >= pm_comps(m) {
        255
    } else {
        let s = t.subset(pm_subsets(m), part as int, i as int);
        interp(
            pm_value(m, l[s as int][c as int], pl[s as int]),
            pm_value(m, h[s as int][c as int], ph[s as int]),
            ramp_weight(pm_wbits(m), w[i as int]),
        )
    }) by {
        if c < pm_comps(m) {
            let s = t.subset(ns, part as int, i as int);
            assert(s < ns);
            let flip = pm_flip(t, ns, part as int, wb, w, s);
            assert((2 * s) / 2 == s && (2 * s) % 2 == 0);
            assert((2 * s + 1) / 2 == s && (2 * s + 1) % 2 == 1);
            assert(pm_code(x, m, c, 2 * s) == (if pm_holds_low(t, m, part as int, w, 2 * s) { l[s as int][c as int] } else { h[s as int][c as int] }));
            assert(pm_code(x, m, c, 2 * s + 1) == (if pm_holds_low(t, m, part as int, w, 2 * s + 1) { l[s as int][c as int] } else { h[s as int][c as int] }));
            if pm_pcount(m) > 0 {
                assert(pm_pbit(x, m, 2 * s) == (if pm_holds_low(t, m, part as int, w, 2 * s) { pl[s as int] } else { ph[s as int] }));
                assert(pm_pbit(x, m, 2 * s + 1) == (if pm_holds_low(t, m, part as int, w, 2 * s + 1) { pl[s as int] } else { ph[s as int] }));
            }
            let vl = pm_value(m, l[s as int][c as int], pl[s as int]);
            let vh = pm_value(m, h[s as int][c as int], ph[s as int]);
            assert(pm_endpoint(x, m, c, 2 * s) == (if flip { vh } else { vl }));
            assert(pm_endpoint(x, m, c, 2 * s + 1) == (if flip { vl } else { vh }));
            assert(pm_part(x, m) == part);
            assert(anchored_index(x, t, ns, part as int, pm_index_start(m), wb, i as int) == mirror(w[i as int], (pow2(wb) - 1) as nat, flip));
            lemma_ramp_symmetric(wb, w[i as int]);
            if flip {
                lemma_interp_swap(vh, vl, ramp_weight(wb, w[i as int]));
            }
        }
    }
}


/// An earlier texel's index field ends at or before a later texel's begins.
proof fn lemma_anchored_offset_mono(t: Bc7Partitions, ns: nat, p: int, start: nat, bits: nat, k: int, i: int)
    requires
        0 <= k < i,
    ensures
        anchored_offset(t, ns, p, start, bits, k) + anchored_width(t, ns, p, bits, k) <= anchored_offset(t, ns, p, start, bits, i),
    decreases i - k,
{
    if k + 1 < i {
        lemma_anchored_offset_mono(t, ns, p, start, bits, k + 1, i);
    }
}

/// Append the sixteen indices of a partitioned block at bit `ofs` of `y`,
/// each mirrored by its subset's `inv` and one bit shorter at an anchor
/// texel.
#[verifier::spinoff_prover]
fn append_anchored_set(
    y: u64,
    ofs: u64,
    weights: &[u8; 16],
    inv: &[u8; 3],
    t: &Bc7Partitions,
    ns: u32,
    part: usize,
    bits: u64,
    w: Ghost<Seq<nat>>,
) -> (r: (u64, u64))
    requires
        t.wf(),
        2 <= ns <= 3,
        part < 64,
        2 <= bits <= 3,
        ofs + 16 * bits - ns <= 64,
        y < pow2(ofs as nat),
        w@.len() == 16,
        forall|i: int| 0 <= i < 16 ==> #[trigger] w@[i] == weights[i] as nat,
        forall|i: int| 0 <= i < 16 ==> weights[i] < pow2(bits as nat),
        forall|s: int|
            0 <= s < ns ==> #[trigger] inv[s] == (if pm_flip(*t, ns as nat, part as int, bits as nat, w@, s as nat) {
                (pow2(bits as nat) - 1) as u8
            } else {
                0u8
            }),
    ensures
        r.1 == ofs + 16 * bits - ns,
        r.0 < pow2(r.1 as nat),
        forall|o: nat, l: nat| o + l <= ofs ==> #[trigger] nat_field(r.0 as nat, o, l) == nat_field(y as nat, o, l),
        forall|i: int|
            0 <= i < 16 ==> #[trigger] anchored_index(r.0 as nat, *t, ns as nat, part as int, ofs as nat, bits as nat, i) == mirror(
                w@[i],
                (pow2(bits as nat) - 1) as nat,
                pm_flip(*t, ns as nat, part as int, bits as nat, w@, t.subset(ns as nat, part as int, i)),
            ),
{
    let a0 = t.anchor_at(ns, part, 0);
    let a1 = if ns == 3 { t.anchor_at(ns, part, 1) } else { 0 };
    let mut acc = y;
    let mut pos = ofs;
    let mut i: usize = 0;
    proof {
        lemma2_to64();
        t.lemma_ranges();
    }
    while i < 16
        invariant
            t.wf(),
            2 <= ns <= 3,
            part < 64,
            2 <= bits <= 3,
            ofs + 16 * bits - ns <= 64,
            w@.len() == 16,
            forall|k: int| 0 <= k < 16 ==> #[trigger] w@[k] == weights[k] as nat,
            forall|k: int| 0 <= k < 16 ==> weights[k] < pow2(bits as nat),
            forall|s: int|
                0 <= s < ns ==> #[trigger] inv[s] == (if pm_flip(*t, ns as nat, part as int, bits as nat, w@, s as nat) {
                    (pow2(bits as nat) - 1) as u8
                } else {
                    0u8
                }),
            a0 as nat == t.anchor(ns as nat, part as int, 0),
            ns == 3 ==> a1 as nat == t.anchor(ns as nat, part as int, 1),
            i <= 16,
            pos as nat == anchored_offset(*t, ns as nat, part as int, ofs as nat, bits as nat, i as int),
            ofs <= pos,
            acc < pow2(pos as nat),
            forall|o: nat, l: nat| o + l <= ofs ==> #[trigger] nat_field(acc as nat, o, l) == nat_field(y as nat, o, l),
            forall|k: int|
                0 <= k < i ==> #[trigger] anchored_index(acc as nat, *t, ns as nat, part as int, ofs as nat, bits as nat, k) == mirror(
                    w@[k],
                    (pow2(bits as nat) - 1) as nat,
                    pm_flip(*t, ns as nat, part as int, bits as nat, w@, t.subset(ns as nat, part as int, k)),
                ),
        decreases 16 - i,
    {
        proof {
            lemma2_to64();
            t.lemma_ranges();
            lemma_anchored_offsets(*t, ns as nat, part as int, ofs as nat, bits as nat, i as int);
            lemma_anchored_offsets(*t, ns as nat, part as int, ofs as nat, bits as nat, (i + 1) as int);
            lemma_index_mirror(weights[i as int]);
            assert(bits * 16 <= 48) by (nonlinear_arith)
                requires
                    bits <= 3,
            ;
            assert(bits * 16 - bits * (i + 1) >= 16 - (i + 1)) by (nonlinear_arith)
                requires
                    i < 16,
                    bits >= 1,
            ;
        }
        let sub = t.subset_at(ns, part, i) as usize;
        let anchored = i == 0 || i == a0 || (ns == 3 && i == a1);
        let ghost flip = pm_flip(*t, ns as nat, part as int, bits as nat, w@, sub as nat);
        proof {
            assert(anchored == is_anchor(*t, ns as nat, part as int, i as int));
            if anchored {
                // an anchor texel anchors its own subset
                if i == 0 {
                    assert(sub == 0);
                } else if i == a0 {
                    assert(sub == 1);
                } else {
                    assert(sub == 2);
                }
                assert(pm_anchor_texel(*t, ns as nat, part as int, sub as nat) == i);
            }
        }
        let w_i = weights[i] ^ inv[sub];
        let n: u64 = if anchored { bits - 1 } else { bits };
        proof {
            assert(w_i as nat == mirror(w@[i as int], (pow2(bits as nat) - 1) as nat, flip));
            assert(n as nat == anchored_width(*t, ns as nat, part as int, bits as nat, i as int));
            assert(w_i < pow2(n as nat));
            assert(anchored_offset(*t, ns as nat, part as int, ofs as nat, bits as nat, (i + 1) as int)
                == anchored_offset(*t, ns as nat, part as int, ofs as nat, bits as nat, i as int) + n);
            lemma_u64_append(acc, w_i as u64, pos, n as nat);
            assert forall|k: int| 0 <= k < i implies #[trigger] anchored_index((acc | ((w_i as u64) << pos)) as nat, *t, ns as nat, part as int, ofs as nat, bits as nat, k)
                == anchored_index(acc as nat, *t, ns as nat, part as int, ofs as nat, bits as nat, k) by {
                lemma_anchored_offset_mono(*t, ns as nat, part as int, ofs as nat, bits as nat, k, i as int);
            }
        }
        acc = acc | ((w_i as u64) << pos);
        pos = pos + n;
        i = i + 1;
    }
    proof {
        lemma_anchored_offsets(*t, ns as nat, part as int, ofs as nat, bits as nat, 16);
        assert(bits * 16 == 16 * bits) by (nonlinear_arith);
    }
    (acc, pos)
}


/// The indices of a block as numbers.
pub open spec fn index_seq(w: [u8; 16]) -> Seq<nat> {
    w@.map_values(|v: u8| v as nat)
}

/// `b` when `flip` holds, else `a`.
pub open spec fn pick(flip: bool, a: u32, b: u32) -> u32 {
    if flip { b } else { a }
}

/// Which subsets of a partitioned block of mode `m` a writer turns around.
pub open spec fn pm_flips(t: Bc7Partitions, m: nat, p: int, w: Seq<nat>) -> Seq<bool> {
    Seq::new(pm_subsets(m), |s: int| pm_flip(t, pm_subsets(m), p, pm_wbits(m), w, s as nat))
}

/// Low and high endpoint arrays after turning around the subsets in `flips`.
pub open spec fn oriented<const N: usize>(fl: [u32; N], fh: [u32; N], ol: [u32; N], oh: [u32; N], flips: Seq<bool>) -> bool {
    &&& forall|s: int| 0 <= s < N ==> #[trigger] fl[s] == pick(flips[s], ol[s], oh[s])
    &&& forall|s: int| 0 <= s < N ==> #[trigger] fh[s] == pick(flips[s], oh[s], ol[s])
}

/// The other endpoint of endpoint `e`'s subset.
pub open spec fn partner(e: int) -> int {
    if e % 2 == 0 { e + 1 } else { e - 1 }
}

/// Per-endpoint p-bits after turning around the subsets in `flips`.
pub open spec fn pbits_oriented<const N: usize>(fp: [u32; N], op: [u32; N], flips: Seq<bool>) -> bool {
    forall|e: int| 0 <= e < N ==> #[trigger] fp[e] == pick(flips[e / 2], op[e], op[partner(e)])
}

/// Exchange entry `s` of two endpoint arrays.
fn swap_entry<const N: usize>(a: &mut [u32; N], b: &mut [u32; N], s: usize)
    requires
        s < N,
    ensures
        final(a)@ == old(a)@.update(s as int, old(b)@[s as int]),
        final(b)@ == old(b)@.update(s as int, old(a)@[s as int]),
{
    let t = a[s];
    a[s] = b[s];
    b[s] = t;
}

/// The low word of a mode 7 block: mode bit, partition, then the red, green
/// and first blue codes, endpoints in order within each channel.
#[verifier::spinoff_prover]
fn mode7_low_word(part: u32, lr: &[u32; 2], hr: &[u32; 2], lg: &[u32; 2], hg: &[u32; 2], lb0: u32, hb0: u32) -> (x: u64)
    requires
        part < 64,
        lr[0] < 32 && lr[1] < 32 && hr[0] < 32 && hr[1] < 32,
        lg[0] < 32 && lg[1] < 32 && hg[0] < 32 && hg[1] < 32,
        lb0 < 32 && hb0 < 32,
    ensures
        nat_field(x as nat, 0, 8) == 128,
        nat_field(x as nat, 8, 6) == part,
        nat_field(x as nat, 14, 5) == lr[0],
        nat_field(x as nat, 19, 5) == hr[0],
        nat_field(x as nat, 24, 5) == lr[1],
        nat_field(x as nat, 29, 5) == hr[1],
        nat_field(x as nat, 34, 5) == lg[0],
        nat_field(x as nat, 39, 5) == hg[0],
        nat_field(x as nat, 44, 5) == lg[1],
        nat_field(x as nat, 49, 5) == hg[1],
        nat_field(x as nat, 54, 5) == lb0,
        nat_field(x as nat, 59, 5) == hb0,
{
    proof {
        lemma2_to64();
    }
    let x0: u64 = 0x80;
    assert(nat_field(x0 as nat, 0, 8) == 128);
    proof { lemma_u64_append(x0, part as u64, 8, 6); }
    let x1 = x0 | ((part as u64) << 8);
    proof { lemma_u64_append(x1, lr[0] as u64, 14, 5); }
    let x2 = x1 | ((lr[0] as u64) << 14);
    proof { lemma_u64_append(x2, hr[0] as u64, 19, 5); }
    let x3 = x2 | ((hr[0] as u64) << 19);
    proof { lemma_u64_append(x3, lr[1] as u64, 24, 5); }
    let x4 = x3 | ((lr[1] as u64) << 24);
    proof { lemma_u64_append(x4, hr[1] as u64, 29, 5); }
    let x5 = x4 | ((hr[1] as u64) << 29);
    proof { lemma_u64_append(x5, lg[0] as u64, 34, 5); }
    let x6 = x5 | ((lg[0] as u64) << 34);
    proof { lemma_u64_append(x6, hg[0] as u64, 39, 5); }
    let x7 = x6 | ((hg[0] as u64) << 39);
    proof { lemma_u64_append(x7, lg[1] as u64, 44, 5); }
    let x8 = x7 | ((lg[1] as u64) << 44);
    proof { lemma_u64_append(x8, hg[1] as u64, 49, 5); }
    let x9 = x8 | ((hg[1] as u64) << 49);
    proof { lemma_u64_append(x9, lb0 as u64, 54, 5); }
    let x10 = x9 | ((lb0 as u64) << 54);
    proof { lemma_u64_append(x10, hb0 as u64, 59, 5); }
    x10 | ((hb0 as u64) << 59)
}

/// The fixed start of a mode 7 high word: the second blue codes, the alpha
/// codes, then the four p-bits.
#[verifier::spinoff_prover]
fn mode7_high_head(lb1: u32, hb1: u32, la: &[u32; 2], ha: &[u32; 2], p: &[u32; 4]) -> (y: u64)
    requires
        lb1 < 32 && hb1 < 32,
        la[0] < 32 && la[1] < 32 && ha[0] < 32 && ha[1] < 32,
        p[0] < 2 && p[1] < 2 && p[2] < 2 && p[3] < 2,
    ensures
        y < pow2(34),
        nat_field(y as nat, 0, 5) == lb1,
        nat_field(y as nat, 5, 5) == hb1,
        nat_field(y as nat, 10, 5) == la[0],
        nat_field(y as nat, 15, 5) == ha[0],
        nat_field(y as nat, 20, 5) == la[1],
        nat_field(y as nat, 25, 5) == ha[1],
        nat_field(y as nat, 30, 1) == p[0],
        nat_field(y as nat, 31, 1) == p[1],
        nat_field(y as nat, 32, 1) == p[2],
        nat_field(y as nat, 33, 1) == p[3],
{
    proof {
        lemma2_to64();
    }
    let y0: u64 = lb1 as u64;
    assert(nat_field(y0 as nat, 0, 5) == lb1) by {
        lemma_small_mod(y0 as nat, pow2(5));
    }
    proof { lemma_u64_append(y0, hb1 as u64, 5, 5); }
    let y1 = y0 | ((hb1 as u64) << 5);
    proof { lemma_u64_append(y1, la[0] as u64, 10, 5); }
    let y2 = y1 | ((la[0] as u64) << 10);
    proof { lemma_u64_append(y2, ha[0] as u64, 15, 5); }
    let y3 = y2 | ((ha[0] as u64) << 15);
    proof { lemma_u64_append(y3, la[1] as u64, 20, 5); }
    let y4 = y3 | ((la[1] as u64) << 20);
    proof { lemma_u64_append(y4, ha[1] as u64, 25, 5); }
    let y5 = y4 | ((ha[1] as u64) << 25);
    proof { lemma_u64_append(y5, p[0] as u64, 30, 1); }
    let y6 = y5 | ((p[0] as u64) << 30);
    proof { lemma_u64_append(y6, p[1] as u64, 31, 1); }
    let y7 = y6 | ((p[1] as u64) << 31);
    proof { lemma_u64_append(y7, p[2] as u64, 32, 1); }
    let y8 = y7 | ((p[2] as u64) << 32);
    proof { lemma_u64_append(y8, p[3] as u64, 33, 1); }
    y8 | ((p[3] as u64) << 33)
}


/// Write a mode 7 block: two subsets of partition `part_id`, 5-bit RGBA
/// endpoints, a p-bit per endpoint, 2-bit indices. A subset whose anchor
/// index has its top bit set is turned around first: its endpoints and
/// p-bits trade places in the arrays, and its indices are stored mirrored.
#[verifier::spinoff_prover]
#[verifier::rlimit(60)]
pub fn encode_mode7_rgba_block(
    block: &mut [u8; 16],
    t: &Bc7Partitions,
    part_id: u32,
    lr: &mut [u32; 2],
    lg: &mut [u32; 2],
    lb: &mut [u32; 2],
    la: &mut [u32; 2],
    hr: &mut [u32; 2],
    hg: &mut [u32; 2],
    hb: &mut [u32; 2],
    ha: &mut [u32; 2],
    p: &mut [u32; 4],
    weights: &[u8; 16],
)
    requires
        t.wf(),
        part_id < 64,
        forall|s: int| 0 <= s < 2 ==> old(lr)[s] < 32 && old(lg)[s] < 32 && old(lb)[s] < 32 && old(la)[s] < 32,
        forall|s: int| 0 <= s < 2 ==> old(hr)[s] < 32 && old(hg)[s] < 32 && old(hb)[s] < 32 && old(ha)[s] < 32,
        forall|e: int| 0 <= e < 4 ==> old(p)[e] < 2,
        forall|i: int| 0 <= i < 16 ==> weights[i] < 4,
    ensures
        pm_layout(
            block_bits(*final(block)),
            *t,
            7,
            part_id as nat,
            seq![
                seq![old(lr)[0] as nat, old(lg)[0] as nat, old(lb)[0] as nat, old(la)[0] as nat],
                seq![old(lr)[1] as nat, old(lg)[1] as nat, old(lb)[1] as nat, old(la)[1] as nat],
            ],
            seq![
                seq![old(hr)[0] as nat, old(hg)[0] as nat, old(hb)[0] as nat, old(ha)[0] as nat],
                seq![old(hr)[1] as nat, old(hg)[1] as nat, old(hb)[1] as nat, old(ha)[1] as nat],
            ],
            seq![old(p)[0] as nat, old(p)[2] as nat],
            seq![old(p)[1] as nat, old(p)[3] as nat],
            index_seq(*weights),
        ),
        oriented(*final(lr), *final(hr), *old(lr), *old(hr), pm_flips(*t, 7, part_id as int, index_seq(*weights))),
        oriented(*final(lg), *final(hg), *old(lg), *old(hg), pm_flips(*t, 7, part_id as int, index_seq(*weights))),
        oriented(*final(lb), *final(hb), *old(lb), *old(hb), pm_flips(*t, 7, part_id as int, index_seq(*weights))),
        oriented(*final(la), *final(ha), *old(la), *old(ha), pm_flips(*t, 7, part_id as int, index_seq(*weights))),
        pbits_oriented(*final(p), *old(p), pm_flips(*t, 7, part_id as int, index_seq(*weights))),
{
    let ghost w = index_seq(*weights);
    let ghost (olr, olg, olb, ola, ohr, ohg, ohb, oha, op) = (*lr, *lg, *lb, *la, *hr, *hg, *hb, *ha, *p);
    let anchor_index = t.anchor_at(2, part_id as usize, 0);
    proof {
        lemma2_to64();
        t.lemma_ranges();
        lemma_index_mirror(weights[0]);
        lemma_index_mirror(weights[anchor_index as int]);
        assert(w[0] == weights[0]);
        assert(w[anchor_index as int] == weights[anchor_index as int]);
    }
    let ghost f0 = pm_flip(*t, 2, part_id as int, 2, w, 0);
    let ghost f1 = pm_flip(*t, 2, part_id as int, 2, w, 1);
    let mut weight_inv = [0u8; 3];
    if weights[0] & 2 != 0 {
        swap_entry(lr, hr, 0);
        swap_entry(lg, hg, 0);
        swap_entry(lb, hb, 0);
        swap_entry(la, ha, 0);
        let t0 = p[0];
        p[0] = p[1];
        p[1] = t0;
        weight_inv[0] = 3;
    }
    if weights[anchor_index] & 2 != 0 {
        swap_entry(lr, hr, 1);
        swap_entry(lg, hg, 1);
        swap_entry(lb, hb, 1);
        swap_entry(la, ha, 1);
        let t2 = p[2];
        p[2] = p[3];
        p[3] = t2;
        weight_inv[1] = 3;
    }
    assert(f0 == (weights[0] >= 2));
    assert(f1 == (weights[anchor_index as int] >= 2));
    let lo = mode7_low_word(part_id, lr, hr, lg, hg, lb[0], hb[0]);
    let head = mode7_high_head(lb[1], hb[1], la, ha, p);
    let (hi, _end) = append_anchored_set(head, 34, weights, &weight_inv, t, 2, part_id as usize, 2, Ghost(w));
    store_u64_le(block, 0, lo, 8);
    store_u64_le(block, 8, hi, 8);
    proof {
        let b = block@;
        lemma_u64_pow2_le(64);
        lemma_block_of_words(b, lo as nat, hi as nat);
        let xb = le_value(b);
        let stored = seq![
            seq![lr[0] as nat, lg[0] as nat, lb[0] as nat, la[0] as nat],
            seq![hr[0] as nat, hg[0] as nat, hb[0] as nat, ha[0] as nat],
            seq![lr[1] as nat, lg[1] as nat, lb[1] as nat, la[1] as nat],
            seq![hr[1] as nat, hg[1] as nat, hb[1] as nat, ha[1] as nat],
        ];
        let sp = seq![p[0] as nat, p[1] as nat, p[2] as nat, p[3] as nat];
        lemma_mode7_fields(xb, lo as nat, hi as nat, stored, sp);
        assert forall|i: int| 0 <= i < 16 implies #[trigger] anchored_index(xb, *t, 2, part_id as int, pm_index_start(7), 2, i) == anchored_index(
            hi as nat,
            *t,
            2,
            part_id as int,
            34,
            2,
            i,
        ) by {
            lemma_anchored_offsets(*t, 2, part_id as int, 34, 2, i);
            lemma_anchored_offset_shift(*t, 2, part_id as int, 34, 64, 2, i);
        }
        let l = seq![
            seq![olr[0] as nat, olg[0] as nat, olb[0] as nat, ola[0] as nat],
            seq![olr[1] as nat, olg[1] as nat, olb[1] as nat, ola[1] as nat],
        ];
        let h = seq![
            seq![ohr[0] as nat, ohg[0] as nat, ohb[0] as nat, oha[0] as nat],
            seq![ohr[1] as nat, ohg[1] as nat, ohb[1] as nat, oha[1] as nat],
        ];
        lemma_pm_layout_from_stored(xb, *t, 7, part_id as nat, stored, sp, l, h, seq![op[0] as nat, op[2] as nat], seq![op[1] as nat, op[3] as nat], w);
    }
}

/// Moving the start of the index fields moves every field by the same amount.
proof fn lemma_anchored_offset_shift(t: Bc7Partitions, ns: nat, p: int, start: nat, d: nat, bits: nat, i: int)
    ensures
        anchored_offset(t, ns, p, start + d, bits, i) == anchored_offset(t, ns, p, start, bits, i) + d,
    decreases i,
{
    if i > 0 {
        lemma_anchored_offset_shift(t, ns, p, start, d, bits, i - 1);
    }
}


/// The endpoint codes and p-bits stored in a partitioned block of mode `m`,
/// endpoint by endpoint: `codes[e][c]` and `pbits[e]`.
pub open spec fn pm_stored(x: nat, m: nat, codes: Seq<Seq<nat>>, pbits: Seq<nat>) -> bool {
    &&& forall|c: nat, e: nat| c < pm_comps(m) && e < 2 * pm_subsets(m) ==> #[trigger] pm_code(x, m, c, e) == codes[e as int][c as int]
    &&& pm_pcount(m) > 0 ==> forall|e: nat| e < 2 * pm_subsets(m) ==> #[trigger] pm_pbit(x, m, e) == pbits[e as int]
}

/// A partitioned block whose stored endpoints are the given ones, each subset
/// turned around where its anchor index asks for it, has the layout of those
/// endpoints.
#[verifier::spinoff_prover]
proof fn lemma_pm_layout_from_stored(
    x: nat,
    t: Bc7Partitions,
    m: nat,
    part: nat,
    codes: Seq<Seq<nat>>,
    pbits: Seq<nat>,
    l: Seq<Seq<nat>>,
    h: Seq<Seq<nat>>,
    pl: Seq<nat>,
    ph: Seq<nat>,
    w: Seq<nat>,
)
    requires
        is_mode(x, m),
        pm_part(x, m) == part,
        pm_stored(x, m, codes, pbits),
        forall|e: nat, c: nat| e < 2 * pm_subsets(m) && c < pm_comps(m) ==> #[trigger] codes[e as int][c as int] == (if pm_holds_low(t, m, part as int, w, e) {
            l[(e / 2) as int][c as int]
        } else {
            h[(e / 2) as int][c as int]
        }),
        pm_pcount(m) > 0 ==> forall|e: nat| e < 2 * pm_subsets(m) ==> #[trigger] pbits[e as int] == (if pm_holds_low(t, m, part as int, w, e) {
            pl[(e / 2) as int]
        } else {
            ph[(e / 2) as int]
        }),
        forall|i: int| 0 <= i < 16 ==> #[trigger] anchored_index(x, t, pm_subsets(m), part as int, pm_index_start(m), pm_wbits(m), i) == mirror(
            w[i],
            (pow2(pm_wbits(m)) - 1) as nat,
            pm_flip(t, pm_subsets(m), part as int, pm_wbits(m), w, t.subset(pm_subsets(m), part as int, i)),
        ),
    ensures
        pm_layout(x, t, m, part, l, h, pl, ph, w),
{
    assert forall|i: nat| i < 16 implies #[trigger] anchored_index(x, t, pm_subsets(m), part as int, pm_index_start(m), pm_wbits(m), i as int) == mirror(
        w[i as int],
        (pow2(pm_wbits(m)) - 1) as nat,
        pm_flip(t, pm_subsets(m), part as int, pm_wbits(m), w, t.subset(pm_subsets(m), part as int, i as int)),
    ) by {}
}

/// The fields of a mode 7 block built from its two words.
#[verifier::spinoff_prover]
proof fn lemma_mode7_fields(x: nat, lo: nat, hi: nat, codes: Seq<Seq<nat>>, pbits: Seq<nat>)
    requires
        forall|o: nat, l: nat| o + l <= 64 ==> #[trigger] nat_field(x, o, l) == nat_field(lo, o, l),
        forall|o: nat, l: nat| o >= 64 ==> #[trigger] nat_field(x, o, l) == nat_field(hi, (o - 64) as nat, l),
        codes.len() == 4,
        forall|e: int| 0 <= e < 4 ==> #[trigger] codes[e].len() == 4,
        nat_field(lo, 14, 5) == codes[0][0],
        nat_field(lo, 19, 5) == codes[1][0],
        nat_field(lo, 24, 5) == codes[2][0],
        nat_field(lo, 29, 5) == codes[3][0],
        nat_field(lo, 34, 5) == codes[0][1],
        nat_field(lo, 39, 5) == codes[1][1],
        nat_field(lo, 44, 5) == codes[2][1],
        nat_field(lo, 49, 5) == codes[3][1],
        nat_field(lo, 54, 5) == codes[0][2],
        nat_field(lo, 59, 5) == codes[1][2],
        nat_field(hi, 0, 5) == codes[2][2],
        nat_field(hi, 5, 5) == codes[3][2],
        nat_field(hi, 10, 5) == codes[0][3],
        nat_field(hi, 15, 5) == codes[1][3],
        nat_field(hi, 20, 5) == codes[2][3],
        nat_field(hi, 25, 5) == codes[3][3],
        nat_field(hi, 30, 1) == pbits[0],
        nat_field(hi, 31, 1) == pbits[1],
        nat_field(hi, 32, 1) == pbits[2],
        nat_field(hi, 33, 1) == pbits[3],
    ensures
        pm_stored(x, 7, codes, pbits),
{
    assert forall|c: nat, e: nat| c < 4 && e < 4 implies #[trigger] pm_code(x, 7, c, e) == codes[e as int][c as int] by {
        assert(pm_code(x, 7, c, e) == nat_field(x, 14 + (4 * c + e) * 5, 5));
        if c == 0 {
            assert(nat_field(x, 14 + (4 * c + e) * 5, 5) == nat_field(lo, 14 + 5 * e, 5));
        } else if c == 1 {
            assert(nat_field(x, 14 + (4 * c + e) * 5, 5) == nat_field(lo, 34 + 5 * e, 5));
        } else if c == 2 {
            if e < 2 {
                assert(nat_field(x, 14 + (4 * c + e) * 5, 5) == nat_field(lo, 54 + 5 * e, 5));
            } else {
                assert(nat_field(x, 14 + (4 * c + e) * 5, 5) == nat_field(hi, (5 * e - 10) as nat, 5));
            }
        } else {
            assert(nat_field(x, 14 + (4 * c + e) * 5, 5) == nat_field(hi, 10 + 5 * e, 5));
        }
    }
    assert forall|e: nat| e < 4 implies #[trigger] pm_pbit(x, 7, e) == pbits[e as int] by {
        assert(pm_pbit(x, 7, e) == nat_field(hi, 30 + e, 1));
    }
}








/// Turn around the subsets in `flips`: their low and high endpoints trade
/// places.
fn orient<const N: usize>(l: &mut [u32; N], h: &mut [u32; N], flips: &[bool; N])
    ensures
        oriented(*final(l), *final(h), *old(l), *old(h), flips@),
{
    let ghost ol = *l;
    let ghost oh = *h;
    let mut s: usize = 0;
    while s < N
        invariant
            s <= N,
            forall|k: int| 0 <= k < s ==> #[trigger] l[k] == pick(flips[k], ol[k], oh[k]),
            forall|k: int| 0 <= k < s ==> #[trigger] h[k] == pick(flips[k], oh[k], ol[k]),
            forall|k: int| s <= k < N ==> #[trigger] l[k] == ol[k],
            forall|k: int| s <= k < N ==> #[trigger] h[k] == oh[k],
        decreases N - s,
    {
        if flips[s] {
            let a = l[s];
            let b = h[s];
            l[s] = b;
            h[s] = a;
        }
        s = s + 1;
    }
}

/// Turn around the p-bits of the subsets in `flips`: each pair trades places.
fn orient_pbits<const N: usize, const M: usize>(p: &mut [u32; N], flips: &[bool; M])
    requires
        N == 2 * M,
    ensures
        pbits_oriented(*final(p), *old(p), flips@),
{
    let ghost op = *p;
    let mut s: usize = 0;
    while s < M
        invariant
            N == 2 * M,
            s <= M,
            forall|e: int| 0 <= e < 2 * s ==> #[trigger] p[e] == pick(flips[e / 2], op[e], op[partner(e)]),
            forall|e: int| 2 * s <= e < N ==> #[trigger] p[e] == op[e],
        decreases M - s,
    {
        if flips[s] {
            let a = p[2 * s];
            p[2 * s] = p[2 * s + 1];
            p[2 * s + 1] = a;
        }
        s = s + 1;
    }
}

/// The low word of a mode 3 block: mode bits, partition, then endpoint codes channel by channel.
#[verifier::spinoff_prover]
fn mode3_low_word(part: u32, lr0: u32, hr0: u32, lr1: u32, hr1: u32, lg0: u32, hg0: u32, lg1: u32, hg1_lo: u32) -> (x: u64)
    requires
        part < 64,
        lr0 < 128,
        hr0 < 128,
        lr1 < 128,
        hr1 < 128,
        lg0 < 128,
        hg0 < 128,
        lg1 < 128,
        hg1_lo < 32,
    ensures
        nat_field(x as nat, 0, 4) == 8,
        nat_field(x as nat, 4, 6) == part,
        nat_field(x as nat, 10, 7) == lr0,
        nat_field(x as nat, 17, 7) == hr0,
        nat_field(x as nat, 24, 7) == lr1,
        nat_field(x as nat, 31, 7) == hr1,
        nat_field(x as nat, 38, 7) == lg0,
        nat_field(x as nat, 45, 7) == hg0,
        nat_field(x as nat, 52, 7) == lg1,
        nat_field(x as nat, 59, 5) == hg1_lo,
{
    proof {
        lemma2_to64();
    }
    let x0: u64 = 8;
    assert(nat_field(x0 as nat, 0, 4) == 8) by {
        lemma_small_mod(x0 as nat, pow2(4));
    }
    proof { lemma_u64_append(x0, part as u64, 4, 6); }
    let x1 = x0 | ((part as u64) << 4);
    proof { lemma_u64_append(x1, lr0 as u64, 10, 7); }
    let x2 = x1 | ((lr0 as u64) << 10);
    proof { lemma_u64_append(x2, hr0 as u64, 17, 7); }
    let x3 = x2 | ((hr0 as u64) << 17);
    proof { lemma_u64_append(x3, lr1 as u64, 24, 7); }
    let x4 = x3 | ((lr1 as u64) << 24);
    proof { lemma_u64_append(x4, hr1 as u64, 31, 7); }
    let x5 = x4 | ((hr1 as u64) << 31);
    proof { lemma_u64_append(x5, lg0 as u64, 38, 7); }
    let x6 = x5 | ((lg0 as u64) << 38);
    proof { lemma_u64_append(x6, hg0 as u64, 45, 7); }
    let x7 = x6 | ((hg0 as u64) << 45);
    proof { lemma_u64_append(x7, lg1 as u64, 52, 7); }
    let x8 = x7 | ((lg1 as u64) << 52);
    proof { lemma_u64_append(x8, hg1_lo as u64, 59, 5); }
    x8 | ((hg1_lo as u64) << 59)
}

/// The fixed start of a mode 3 high word, below its indices.
#[verifier::spinoff_prover]
fn mode3_high_head(hg1_hi: u32, lb0: u32, hb0: u32, lb1: u32, hb1: u32, p0: u32, p1: u32, p2: u32, p3: u32) -> (x: u64)
    requires
        hg1_hi < 4,
        lb0 < 128,
        hb0 < 128,
        lb1 < 128,
        hb1 < 128,
        p0 < 2,
        p1 < 2,
        p2 < 2,
        p3 < 2,
    ensures
        x < pow2(34),
        nat_field(x as nat, 0, 2) == hg1_hi,
        nat_field(x as nat, 2, 7) == lb0,
        nat_field(x as nat, 9, 7) == hb0,
        nat_field(x as nat, 16, 7) == lb1,
        nat_field(x as nat, 23, 7) == hb1,
        nat_field(x as nat, 30, 1) == p0,
        nat_field(x as nat, 31, 1) == p1,
        nat_field(x as nat, 32, 1) == p2,
        nat_field(x as nat, 33, 1) == p3,
{
    proof {
        lemma2_to64();
    }
    let x0: u64 = hg1_hi as u64;
    assert(nat_field(x0 as nat, 0, 2) == hg1_hi) by {
        lemma_small_mod(x0 as nat, pow2(2));
    }
    proof { lemma_u64_append(x0, lb0 as u64, 2, 7); }
    let x1 = x0 | ((lb0 as u64) << 2);
    proof { lemma_u64_append(x1, hb0 as u64, 9, 7); }
    let x2 = x1 | ((hb0 as u64) << 9);
    proof { lemma_u64_append(x2, lb1 as u64, 16, 7); }
    let x3 = x2 | ((lb1 as u64) << 16);
    proof { lemma_u64_append(x3, hb1 as u64, 23, 7); }
    let x4 = x3 | ((hb1 as u64) << 23);
    proof { lemma_u64_append(x4, p0 as u64, 30, 1); }
    let x5 = x4 | ((p0 as u64) << 30);
    proof { lemma_u64_append(x5, p1 as u64, 31, 1); }
    let x6 = x5 | ((p1 as u64) << 31);
    proof { lemma_u64_append(x6, p2 as u64, 32, 1); }
    let x7 = x6 | ((p2 as u64) << 32);
    proof { lemma_u64_append(x7, p3 as u64, 33, 1); }
    x7 | ((p3 as u64) << 33)
}

/// The fields of a mode 3 block built from its two words.
#[verifier::spinoff_prover]
proof fn lemma_mode3_fields(x: nat, lo: nat, hi: nat, part: nat, codes: Seq<Seq<nat>>, pbits: Seq<nat>)
    requires
        forall|o: nat, l: nat| o + l <= 64 ==> #[trigger] nat_field(x, o, l) == nat_field(lo, o, l),
        forall|o: nat, l: nat| o >= 64 ==> #[trigger] nat_field(x, o, l) == nat_field(hi, (o - 64) as nat, l),
        codes.len() == 4,
        forall|e: int| 0 <= e < 4 ==> #[trigger] codes[e].len() == 3,
        forall|e: int, c: int| 0 <= e < 4 && 0 <= c < 3 ==> #[trigger] codes[e][c] < pow2(7),
        nat_field(lo, 0, 4) == 8,
        nat_field(lo, 4, 6) == part,
        nat_field(lo, 10, 7) == codes[0][0],
        nat_field(lo, 17, 7) == codes[1][0],
        nat_field(lo, 24, 7) == codes[2][0],
        nat_field(lo, 31, 7) == codes[3][0],
        nat_field(lo, 38, 7) == codes[0][1],
        nat_field(lo, 45, 7) == codes[1][1],
        nat_field(lo, 52, 7) == codes[2][1],
        nat_field(lo, 59, 5) == codes[3][1] % pow2(5),
        nat_field(hi, 0, 2) == codes[3][1] / pow2(5),
        nat_field(hi, 2, 7) == codes[0][2],
        nat_field(hi, 9, 7) == codes[1][2],
        nat_field(hi, 16, 7) == codes[2][2],
        nat_field(hi, 23, 7) == codes[3][2],
        nat_field(hi, 30, 1) == pbits[0],
        nat_field(hi, 31, 1) == pbits[1],
        nat_field(hi, 32, 1) == pbits[2],
        nat_field(hi, 33, 1) == pbits[3],
    ensures
        is_mode(x, 3),
        pm_part(x, 3) == part,
        pm_stored(x, 3, codes, pbits),
{
    assert(nat_field(x, 0, 4) == nat_field(lo, 0, 4));
    lemma2_to64();
    assert(nat_field(x, 4, 6) == nat_field(lo, 4, 6));
    assert forall|c: nat, e: nat| c < 3 && e < 4 implies #[trigger] pm_code(x, 3, c, e) == codes[e as int][c as int] by {
        assert(pm_code(x, 3, c, e) == nat_field(x, 10 + (4 * c + e) * 7, 7));
        if c == 0 && e == 0 {
            assert(nat_field(x, 10, 7) == nat_field(lo, 10, 7));
        } else if c == 0 && e == 1 {
            assert(nat_field(x, 17, 7) == nat_field(lo, 17, 7));
        } else if c == 0 && e == 2 {
            assert(nat_field(x, 24, 7) == nat_field(lo, 24, 7));
        } else if c == 0 && e == 3 {
            assert(nat_field(x, 31, 7) == nat_field(lo, 31, 7));
        } else if c == 1 && e == 0 {
            assert(nat_field(x, 38, 7) == nat_field(lo, 38, 7));
        } else if c == 1 && e == 1 {
            assert(nat_field(x, 45, 7) == nat_field(lo, 45, 7));
        } else if c == 1 && e == 2 {
            assert(nat_field(x, 52, 7) == nat_field(lo, 52, 7));
        } else if c == 1 && e == 3 {
            lemma_field_concat(x, 59, 5, 2);
            assert(nat_field(x, 59, 5) == nat_field(lo, 59, 5));
            assert(nat_field(x, 64, 2) == nat_field(hi, 0, 2));
            vstd::arithmetic::div_mod::lemma_fundamental_div_mod(codes[3][1] as int, pow2(5) as int);
            lemma_mul_is_commutative((codes[3][1] / pow2(5)) as int, pow2(5) as int);
        } else if c == 2 && e == 0 {
            assert(nat_field(x, 66, 7) == nat_field(hi, 2, 7));
        } else if c == 2 && e == 1 {
            assert(nat_field(x, 73, 7) == nat_field(hi, 9, 7));
        } else if c == 2 && e == 2 {
            assert(nat_field(x, 80, 7) == nat_field(hi, 16, 7));
        } else if c == 2 && e == 3 {
            assert(nat_field(x, 87, 7) == nat_field(hi, 23, 7));
        }
    }
    assert forall|e: nat| e < 4 implies #[trigger] pm_pbit(x, 3, e) == pbits[e as int] by {
        assert(pm_pbit(x, 3, e) == nat_field(hi, 30 + e, 1));
    }
}

/// Write a mode 3 block: two subsets of partition `part_id`, 7-bit RGB
/// endpoints, a p-bit per endpoint, 2-bit indices. A subset whose anchor
/// index has its top bit set is turned around first: its endpoints and p-bits
/// trade places in the arrays, and its indices are stored mirrored.
#[verifier::spinoff_prover]
#[verifier::rlimit(60)]
pub fn encode_mode3_rgb_block(
    block: &mut [u8; 16],
    t: &Bc7Partitions,
    part_id: u32,
    lr: &mut [u32; 2],
    lg: &mut [u32; 2],
    lb: &mut [u32; 2],
    hr: &mut [u32; 2],
    hg: &mut [u32; 2],
    hb: &mut [u32; 2],
    p: &mut [u32; 4],
    weights: &[u8; 16],
)
    requires
        t.wf(),
        part_id < 64,
        forall|s: int| 0 <= s < 2 ==> old(lr)[s] < 128 && old(lg)[s] < 128 && old(lb)[s] < 128,
        forall|s: int| 0 <= s < 2 ==> old(hr)[s] < 128 && old(hg)[s] < 128 && old(hb)[s] < 128,
        forall|e: int| 0 <= e < 4 ==> old(p)[e] < 2,
        forall|i: int| 0 <= i < 16 ==> weights[i] < 4,
    ensures
        pm_layout(
            block_bits(*final(block)),
            *t,
            3,
            part_id as nat,
            seq![seq![old(lr)[0] as nat, old(lg)[0] as nat, old(lb)[0] as nat], seq![old(lr)[1] as nat, old(lg)[1] as nat, old(lb)[1] as nat]],
            seq![seq![old(hr)[0] as nat, old(hg)[0] as nat, old(hb)[0] as nat], seq![old(hr)[1] as nat, old(hg)[1] as nat, old(hb)[1] as nat]],
            seq![old(p)[0] as nat, old(p)[2] as nat],
            seq![old(p)[1] as nat, old(p)[3] as nat],
            index_seq(*weights),
        ),
        oriented(*final(lr), *final(hr), *old(lr), *old(hr), pm_flips(*t, 3, part_id as int, index_seq(*weights))),
        oriented(*final(lg), *final(hg), *old(lg), *old(hg), pm_flips(*t, 3, part_id as int, index_seq(*weights))),
        oriented(*final(lb), *final(hb), *old(lb), *old(hb), pm_flips(*t, 3, part_id as int, index_seq(*weights))),
        pbits_oriented(*final(p), *old(p), pm_flips(*t, 3, part_id as int, index_seq(*weights))),
{
    let ghost w = index_seq(*weights);
    let ghost (olr, olg, olb, ohr, ohg, ohb) = (*lr, *lg, *lb, *hr, *hg, *hb);
    let ghost op = *p;
    let anchor_index0 = t.anchor_at(2, part_id as usize, 0);
    proof {
        lemma2_to64();
        t.lemma_ranges();
        lemma_index_mirror(weights[0]);
        lemma_index_mirror(weights[anchor_index0 as int]);
        assert(w[0] == weights[0]);
        assert(w[anchor_index0 as int] == weights[anchor_index0 as int]);
    }
    let flips = [weights[0] & 2 != 0, weights[anchor_index0] & 2 != 0];
    let mut weight_inv = [0u8; 3];
    if flips[0] {
        weight_inv[0] = 3;
    }
    if flips[1] {
        weight_inv[1] = 3;
    }
    proof {
        assert(pm_flip(*t, 2, part_id as int, 2, w, 0) == (weights[0] >= 2));
        assert(pm_flip(*t, 2, part_id as int, 2, w, 1) == (weights[anchor_index0 as int] >= 2));
        assert(flips@ =~= pm_flips(*t, 3, part_id as int, w));
    }
    orient(lr, hr, &flips);
    orient(lg, hg, &flips);
    orient(lb, hb, &flips);
    orient_pbits(p, &flips);
    let lo = mode3_low_word(part_id, lr[0], hr[0], lr[1], hr[1], lg[0], hg[0], lg[1], hg[1] % 32);
    let head = mode3_high_head(hg[1] / 32, lb[0], hb[0], lb[1], hb[1], p[0], p[1], p[2], p[3]);
    let (hi, _end) = append_anchored_set(head, 34, weights, &weight_inv, t, 2, part_id as usize, 2, Ghost(w));
    store_u64_le(block, 0, lo, 8);
    store_u64_le(block, 8, hi, 8);
    proof {
        let b = block@;
        lemma_u64_pow2_le(64);
        lemma_block_of_words(b, lo as nat, hi as nat);
        let xb = le_value(b);
        let stored = seq![seq![lr[0] as nat, lg[0] as nat, lb[0] as nat], seq![hr[0] as nat, hg[0] as nat, hb[0] as nat], seq![lr[1] as nat, lg[1] as nat, lb[1] as nat], seq![hr[1] as nat, hg[1] as nat, hb[1] as nat]];
        let sp = seq![p[0] as nat, p[1] as nat, p[2] as nat, p[3] as nat];
        lemma_mode3_fields(xb, lo as nat, hi as nat, part_id as nat, stored, sp);
        assert forall|i: int| 0 <= i < 16 implies #[trigger] anchored_index(xb, *t, 2, part_id as int, pm_index_start(3), 2, i) == anchored_index(
            hi as nat, *t, 2, part_id as int, 34, 2, i,
        ) by {
            lemma_anchored_offsets(*t, 2, part_id as int, 34, 2, i);
            lemma_anchored_offset_shift(*t, 2, part_id as int, 34, 64, 2, i);
        }
        lemma_pm_layout_from_stored(xb, *t, 3, part_id as nat, stored, sp, seq![seq![olr[0] as nat, olg[0] as nat, olb[0] as nat], seq![olr[1] as nat, olg[1] as nat, olb[1] as nat]], seq![seq![ohr[0] as nat, ohg[0] as nat, ohb[0] as nat], seq![ohr[1] as nat, ohg[1] as nat, ohb[1] as nat]], seq![op[0] as nat, op[2] as nat], seq![op[1] as nat, op[3] as nat], w);
    }
}

/// The low word of a mode 0 block: mode bits, partition, then endpoint codes channel by channel.
#[verifier::spinoff_prover]
fn mode0_low_word(part: u32, lr0: u32, hr0: u32, lr1: u32, hr1: u32, lr2: u32, hr2: u32, lg0: u32, hg0: u32, lg1: u32, hg1: u32, lg2: u32, hg2: u32, lb0: u32, hb0: u32, lb1_lo: u32) -> (x: u64)
    requires
        part < 16,
        lr0 < 16,
        hr0 < 16,
        lr1 < 16,
        hr1 < 16,
        lr2 < 16,
        hr2 < 16,
        lg0 < 16,
        hg0 < 16,
        lg1 < 16,
        hg1 < 16,
        lg2 < 16,
        hg2 < 16,
        lb0 < 16,
        hb0 < 16,
        lb1_lo < 8,
    ensures
        nat_field(x as nat, 0, 1) == 1,
        nat_field(x as nat, 1, 4) == part,
        nat_field(x as nat, 5, 4) == lr0,
        nat_field(x as nat, 9, 4) == hr0,
        nat_field(x as nat, 13, 4) == lr1,
        nat_field(x as nat, 17, 4) == hr1,
        nat_field(x as nat, 21, 4) == lr2,
        nat_field(x as nat, 25, 4) == hr2,
        nat_field(x as nat, 29, 4) == lg0,
        nat_field(x as nat, 33, 4) == hg0,
        nat_field(x as nat, 37, 4) == lg1,
        nat_field(x as nat, 41, 4) == hg1,
        nat_field(x as nat, 45, 4) == lg2,
        nat_field(x as nat, 49, 4) == hg2,
        nat_field(x as nat, 53, 4) == lb0,
        nat_field(x as nat, 57, 4) == hb0,
        nat_field(x as nat, 61, 3) == lb1_lo,
{
    proof {
        lemma2_to64();
    }
    let x0: u64 = 1;
    assert(nat_field(x0 as nat, 0, 1) == 1) by {
        lemma_small_mod(x0 as nat, pow2(1));
    }
    proof { lemma_u64_append(x0, part as u64, 1, 4); }
    let x1 = x0 | ((part as u64) << 1);
    proof { lemma_u64_append(x1, lr0 as u64, 5, 4); }
    let x2 = x1 | ((lr0 as u64) << 5);
    proof { lemma_u64_append(x2, hr0 as u64, 9, 4); }
    let x3 = x2 | ((hr0 as u64) << 9);
    proof { lemma_u64_append(x3, lr1 as u64, 13, 4); }
    let x4 = x3 | ((lr1 as u64) << 13);
    proof { lemma_u64_append(x4, hr1 as u64, 17, 4); }
    let x5 = x4 | ((hr1 as u64) << 17);
    proof { lemma_u64_append(x5, lr2 as u64, 21, 4); }
    let x6 = x5 | ((lr2 as u64) << 21);
    proof { lemma_u64_append(x6, hr2 as u64, 25, 4); }
    let x7 = x6 | ((hr2 as u64) << 25);
    proof { lemma_u64_append(x7, lg0 as u64, 29, 4); }
    let x8 = x7 | ((lg0 as u64) << 29);
    proof { lemma_u64_append(x8, hg0 as u64, 33, 4); }
    let x9 = x8 | ((hg0 as u64) << 33);
    proof { lemma_u64_append(x9, lg1 as u64, 37, 4); }
    let x10 = x9 | ((lg1 as u64) << 37);
    proof { lemma_u64_append(x10, hg1 as u64, 41, 4); }
    let x11 = x10 | ((hg1 as u64) << 41);
    proof { lemma_u64_append(x11, lg2 as u64, 45, 4); }
    let x12 = x11 | ((lg2 as u64) << 45);
    proof { lemma_u64_append(x12, hg2 as u64, 49, 4); }
    let x13 = x12 | ((hg2 as u64) << 49);
    proof { lemma_u64_append(x13, lb0 as u64, 53, 4); }
    let x14 = x13 | ((lb0 as u64) << 53);
    proof { lemma_u64_append(x14, hb0 as u64, 57, 4); }
    let x15 = x14 | ((hb0 as u64) << 57);
    proof { lemma_u64_append(x15, lb1_lo as u64, 61, 3); }
    x15 | ((lb1_lo as u64) << 61)
}

/// The fixed start of a mode 0 high word, below its indices.
#[verifier::spinoff_prover]
fn mode0_high_head(lb1_hi: u32, hb1: u32, lb2: u32, hb2: u32, p0: u32, p1: u32, p2: u32, p3: u32, p4: u32, p5: u32) -> (x: u64)
    requires
        lb1_hi < 2,
        hb1 < 16,
        lb2 < 16,
        hb2 < 16,
        p0 < 2,
        p1 < 2,
        p2 < 2,
        p3 < 2,
        p4 < 2,
        p5 < 2,
    ensures
        x < pow2(19),
        nat_field(x as nat, 0, 1) == lb1_hi,
        nat_field(x as nat, 1, 4) == hb1,
        nat_field(x as nat, 5, 4) == lb2,
        nat_field(x as nat, 9, 4) == hb2,
        nat_field(x as nat, 13, 1) == p0,
        nat_field(x as nat, 14, 1) == p1,
        nat_field(x as nat, 15, 1) == p2,
        nat_field(x as nat, 16, 1) == p3,
        nat_field(x as nat, 17, 1) == p4,
        nat_field(x as nat, 18, 1) == p5,
{
    proof {
        lemma2_to64();
    }
    let x0: u64 = lb1_hi as u64;
    assert(nat_field(x0 as nat, 0, 1) == lb1_hi) by {
        lemma_small_mod(x0 as nat, pow2(1));
    }
    proof { lemma_u64_append(x0, hb1 as u64, 1, 4); }
    let x1 = x0 | ((hb1 as u64) << 1);
    proof { lemma_u64_append(x1, lb2 as u64, 5, 4); }
    let x2 = x1 | ((lb2 as u64) << 5);
    proof { lemma_u64_append(x2, hb2 as u64, 9, 4); }
    let x3 = x2 | ((hb2 as u64) << 9);
    proof { lemma_u64_append(x3, p0 as u64, 13, 1); }
    let x4 = x3 | ((p0 as u64) << 13);
    proof { lemma_u64_append(x4, p1 as u64, 14, 1); }
    let x5 = x4 | ((p1 as u64) << 14);
    proof { lemma_u64_append(x5, p2 as u64, 15, 1); }
    let x6 = x5 | ((p2 as u64) << 15);
    proof { lemma_u64_append(x6, p3 as u64, 16, 1); }
    let x7 = x6 | ((p3 as u64) << 16);
    proof { lemma_u64_append(x7, p4 as u64, 17, 1); }
    let x8 = x7 | ((p4 as u64) << 17);
    proof { lemma_u64_append(x8, p5 as u64, 18, 1); }
    x8 | ((p5 as u64) << 18)
}

/// The fields of a mode 0 block built from its two words.
#[verifier::spinoff_prover]
proof fn lemma_mode0_fields(x: nat, lo: nat, hi: nat, part: nat, codes: Seq<Seq<nat>>, pbits: Seq<nat>)
    requires
        forall|o: nat, l: nat| o + l <= 64 ==> #[trigger] nat_field(x, o, l) == nat_field(lo, o, l),
        forall|o: nat, l: nat| o >= 64 ==> #[trigger] nat_field(x, o, l) == nat_field(hi, (o - 64) as nat, l),
        codes.len() == 6,
        forall|e: int| 0 <= e < 6 ==> #[trigger] codes[e].len() == 3,
        forall|e: int, c: int| 0 <= e < 6 && 0 <= c < 3 ==> #[trigger] codes[e][c] < pow2(4),
        nat_field(lo, 0, 1) == 1,
        nat_field(lo, 1, 4) == part,
        nat_field(lo, 5, 4) == codes[0][0],
        nat_field(lo, 9, 4) == codes[1][0],
        nat_field(lo, 13, 4) == codes[2][0],
        nat_field(lo, 17, 4) == codes[3][0],
        nat_field(lo, 21, 4) == codes[4][0],
        nat_field(lo, 25, 4) == codes[5][0],
        nat_field(lo, 29, 4) == codes[0][1],
        nat_field(lo, 33, 4) == codes[1][1],
        nat_field(lo, 37, 4) == codes[2][1],
        nat_field(lo, 41, 4) == codes[3][1],
        nat_field(lo, 45, 4) == codes[4][1],
        nat_field(lo, 49, 4) == codes[5][1],
        nat_field(lo, 53, 4) == codes[0][2],
        nat_field(lo, 57, 4) == codes[1][2],
        nat_field(lo, 61, 3) == codes[2][2] % pow2(3),
        nat_field(hi, 0, 1) == codes[2][2] / pow2(3),
        nat_field(hi, 1, 4) == codes[3][2],
        nat_field(hi, 5, 4) == codes[4][2],
        nat_field(hi, 9, 4) == codes[5][2],
        nat_field(hi, 13, 1) == pbits[0],
        nat_field(hi, 14, 1) == pbits[1],
        nat_field(hi, 15, 1) == pbits[2],
        nat_field(hi, 16, 1) == pbits[3],
        nat_field(hi, 17, 1) == pbits[4],
        nat_field(hi, 18, 1) == pbits[5],
    ensures
        is_mode(x, 0),
        pm_part(x, 0) == part,
        pm_stored(x, 0, codes, pbits),
{
    assert(nat_field(x, 0, 1) == nat_field(lo, 0, 1));
    lemma2_to64();
    assert(nat_field(x, 1, 4) == nat_field(lo, 1, 4));
    assert forall|c: nat, e: nat| c < 3 && e < 6 implies #[trigger] pm_code(x, 0, c, e) == codes[e as int][c as int] by {
        assert(pm_code(x, 0, c, e) == nat_field(x, 5 + (6 * c + e) * 4, 4));
        if c == 0 && e == 0 {
            assert(nat_field(x, 5, 4) == nat_field(lo, 5, 4));
        } else if c == 0 && e == 1 {
            assert(nat_field(x, 9, 4) == nat_field(lo, 9, 4));
        } else if c == 0 && e == 2 {
            assert(nat_field(x, 13, 4) == nat_field(lo, 13, 4));
        } else if c == 0 && e == 3 {
            assert(nat_field(x, 17, 4) == nat_field(lo, 17, 4));
        } else if c == 0 && e == 4 {
            assert(nat_field(x, 21, 4) == nat_field(lo, 21, 4));
        } else if c == 0 && e == 5 {
            assert(nat_field(x, 25, 4) == nat_field(lo, 25, 4));
        } else if c == 1 && e == 0 {
            assert(nat_field(x, 29, 4) == nat_field(lo, 29, 4));
        } else if c == 1 && e == 1 {
            assert(nat_field(x, 33, 4) == nat_field(lo, 33, 4));
        } else if c == 1 && e == 2 {
            assert(nat_field(x, 37, 4) == nat_field(lo, 37, 4));
        } else if c == 1 && e == 3 {
            assert(nat_field(x, 41, 4) == nat_field(lo, 41, 4));
        } else if c == 1 && e == 4 {
            assert(nat_field(x, 45, 4) == nat_field(lo, 45, 4));
        } else if c == 1 && e == 5 {
            assert(nat_field(x, 49, 4) == nat_field(lo, 49, 4));
        } else if c == 2 && e == 0 {
            assert(nat_field(x, 53, 4) == nat_field(lo, 53, 4));
        } else if c == 2 && e == 1 {
            assert(nat_field(x, 57, 4) == nat_field(lo, 57, 4));
        } else if c == 2 && e == 2 {
            lemma_field_concat(x, 61, 3, 1);
            assert(nat_field(x, 61, 3) == nat_field(lo, 61, 3));
            assert(nat_field(x, 64, 1) == nat_field(hi, 0, 1));
            vstd::arithmetic::div_mod::lemma_fundamental_div_mod(codes[2][2] as int, pow2(3) as int);
            lemma_mul_is_commutative((codes[2][2] / pow2(3)) as int, pow2(3) as int);
        } else if c == 2 && e == 3 {
            assert(nat_field(x, 65, 4) == nat_field(hi, 1, 4));
        } else if c == 2 && e == 4 {
            assert(nat_field(x, 69, 4) == nat_field(hi, 5, 4));
        } else if c == 2 && e == 5 {
            assert(nat_field(x, 73, 4) == nat_field(hi, 9, 4));
        }
    }
    assert forall|e: nat| e < 6 implies #[trigger] pm_pbit(x, 0, e) == pbits[e as int] by {
        assert(pm_pbit(x, 0, e) == nat_field(hi, 13 + e, 1));
    }
}

/// The words of a mode 0 block whose endpoints are already oriented: the
/// stored codes and p-bits are the given ones, the indices mirrored by
/// `weight_inv`.
#[verifier::spinoff_prover]
#[verifier::rlimit(60)]
fn write_mode0_block(
    block: &mut [u8; 16],
    t: &Bc7Partitions,
    part_id: u32,
    lr: &[u32; 3],
    lg: &[u32; 3],
    lb: &[u32; 3],
    hr: &[u32; 3],
    hg: &[u32; 3],
    hb: &[u32; 3],
    p: &[u32; 6],
    weights: &[u8; 16],
    weight_inv: &[u8; 3],
    w: Ghost<Seq<nat>>,
)
    requires
        t.wf(),
        part_id < 16,
        forall|s: int| 0 <= s < 3 ==> lr[s] < 16 && lg[s] < 16 && lb[s] < 16,
        forall|s: int| 0 <= s < 3 ==> hr[s] < 16 && hg[s] < 16 && hb[s] < 16,
        forall|e: int| 0 <= e < 6 ==> p[e] < 2,
        forall|i: int| 0 <= i < 16 ==> weights[i] < 8,
        w@.len() == 16,
        forall|i: int| 0 <= i < 16 ==> #[trigger] w@[i] == weights[i] as nat,
        forall|s: int|
            0 <= s < 3 ==> #[trigger] weight_inv[s] == (if pm_flip(*t, 3, part_id as int, 3, w@, s as nat) { 7u8 } else { 0u8 }),
    ensures
        is_mode(block_bits(*final(block)), 0),
        pm_part(block_bits(*final(block)), 0) == part_id,
        pm_stored(
            block_bits(*final(block)),
            0,
            seq![seq![lr[0] as nat, lg[0] as nat, lb[0] as nat], seq![hr[0] as nat, hg[0] as nat, hb[0] as nat], seq![lr[1] as nat, lg[1] as nat, lb[1] as nat], seq![hr[1] as nat, hg[1] as nat, hb[1] as nat], seq![lr[2] as nat, lg[2] as nat, lb[2] as nat], seq![hr[2] as nat, hg[2] as nat, hb[2] as nat]],
            seq![p[0] as nat, p[1] as nat, p[2] as nat, p[3] as nat, p[4] as nat, p[5] as nat],
        ),
        forall|i: int|
            0 <= i < 16 ==> #[trigger] anchored_index(block_bits(*final(block)), *t, 3, part_id as int, pm_index_start(0), 3, i) == mirror(
                w@[i],
                7,
                pm_flip(*t, 3, part_id as int, 3, w@, t.subset(3, part_id as int, i)),
            ),
{
    proof {
        lemma2_to64();
    }
    let lo = mode0_low_word(part_id, lr[0], hr[0], lr[1], hr[1], lr[2], hr[2], lg[0], hg[0], lg[1], hg[1], lg[2], hg[2], lb[0], hb[0], lb[1] % 8);
    let head = mode0_high_head(lb[1] / 8, hb[1], lb[2], hb[2], p[0], p[1], p[2], p[3], p[4], p[5]);
    let (hi, _end) = append_anchored_set(head, 19, weights, weight_inv, t, 3, part_id as usize, 3, w);
    store_u64_le(block, 0, lo, 8);
    store_u64_le(block, 8, hi, 8);
    proof {
        let b = block@;
        lemma_u64_pow2_le(64);
        lemma_block_of_words(b, lo as nat, hi as nat);
        let xb = le_value(b);
        let stored = seq![seq![lr[0] as nat, lg[0] as nat, lb[0] as nat], seq![hr[0] as nat, hg[0] as nat, hb[0] as nat], seq![lr[1] as nat, lg[1] as nat, lb[1] as nat], seq![hr[1] as nat, hg[1] as nat, hb[1] as nat], seq![lr[2] as nat, lg[2] as nat, lb[2] as nat], seq![hr[2] as nat, hg[2] as nat, hb[2] as nat]];
        let sp = seq![p[0] as nat, p[1] as nat, p[2] as nat, p[3] as nat, p[4] as nat, p[5] as nat];
        lemma_mode0_fields(xb, lo as nat, hi as nat, part_id as nat, stored, sp);
        assert forall|i: int| 0 <= i < 16 implies #[trigger] anchored_index(xb, *t, 3, part_id as int, pm_index_start(0), 3, i) == anchored_index(
            hi as nat, *t, 3, part_id as int, 19, 3, i,
        ) by {
            lemma_anchored_offsets(*t, 3, part_id as int, 19, 3, i);
            lemma_anchored_offset_shift(*t, 3, part_id as int, 19, 64, 3, i);
        }
    }
}

/// Write a mode 0 block: three subsets of partition `part_id` (of the
/// first sixteen), 4-bit RGB endpoints, a p-bit per endpoint, 3-bit indices.
/// A subset whose anchor index has its top bit set is turned around first:
/// its endpoints and p-bits trade places in the arrays, and its indices are
/// stored mirrored.
#[verifier::spinoff_prover]
#[verifier::rlimit(60)]
pub fn encode_mode0_rgb_block(
    block: &mut [u8; 16],
    t: &Bc7Partitions,
    part_id: u32,
    lr: &mut [u32; 3],
    lg: &mut [u32; 3],
    lb: &mut [u32; 3],
    hr: &mut [u32; 3],
    hg: &mut [u32; 3],
    hb: &mut [u32; 3],
    p: &mut [u32; 6],
    weights: &[u8; 16],
)
    requires
        t.wf(),
        part_id < 16,
        forall|s: int| 0 <= s < 3 ==> old(lr)[s] < 16 && old(lg)[s] < 16 && old(lb)[s] < 16,
        forall|s: int| 0 <= s < 3 ==> old(hr)[s] < 16 && old(hg)[s] < 16 && old(hb)[s] < 16,
        forall|e: int| 0 <= e < 6 ==> old(p)[e] < 2,
        forall|i: int| 0 <= i < 16 ==> weights[i] < 8,
    ensures
        pm_layout(
            block_bits(*final(block)),
            *t,
            0,
            part_id as nat,
            seq![seq![old(lr)[0] as nat, old(lg)[0] as nat, old(lb)[0] as nat], seq![old(lr)[1] as nat, old(lg)[1] as nat, old(lb)[1] as nat], seq![old(lr)[2] as nat, old(lg)[2] as nat, old(lb)[2] as nat]],
            seq![seq![old(hr)[0] as nat, old(hg)[0] as nat, old(hb)[0] as nat], seq![old(hr)[1] as nat, old(hg)[1] as nat, old(hb)[1] as nat], seq![old(hr)[2] as nat, old(hg)[2] as nat, old(hb)[2] as nat]],
            seq![old(p)[0] as nat, old(p)[2] as nat, old(p)[4] as nat],
            seq![old(p)[1] as nat, old(p)[3] as nat, old(p)[5] as nat],
            index_seq(*weights),
        ),
        oriented(*final(lr), *final(hr), *old(lr), *old(hr), pm_flips(*t, 0, part_id as int, index_seq(*weights))),
        oriented(*final(lg), *final(hg), *old(lg), *old(hg), pm_flips(*t, 0, part_id as int, index_seq(*weights))),
        oriented(*final(lb), *final(hb), *old(lb), *old(hb), pm_flips(*t, 0, part_id as int, index_seq(*weights))),
        pbits_oriented(*final(p), *old(p), pm_flips(*t, 0, part_id as int, index_seq(*weights))),
{
    let ghost w = index_seq(*weights);
    let ghost (olr, olg, olb, ohr, ohg, ohb) = (*lr, *lg, *lb, *hr, *hg, *hb);
    let ghost op = *p;
    let anchor_index0 = t.anchor_at(3, part_id as usize, 0);
    let anchor_index1 = t.anchor_at(3, part_id as usize, 1);
    proof {
        lemma2_to64();
        t.lemma_ranges();
        lemma_index_mirror(weights[0]);
        lemma_index_mirror(weights[anchor_index0 as int]);
        assert(w[0] == weights[0]);
        assert(w[anchor_index0 as int] == weights[anchor_index0 as int]);
        lemma_index_mirror(weights[anchor_index1 as int]);
        assert(w[anchor_index1 as int] == weights[anchor_index1 as int]);
    }
    let flips = [weights[0] & 4 != 0, weights[anchor_index0] & 4 != 0, weights[anchor_index1] & 4 != 0];
    let mut weight_inv = [0u8; 3];
    if flips[0] {
        weight_inv[0] = 7;
    }
    if flips[1] {
        weight_inv[1] = 7;
    }
    if flips[2] {
        weight_inv[2] = 7;
    }
    proof {
        assert(pm_flip(*t, 3, part_id as int, 3, w, 0) == (weights[0] >= 4));
        assert(pm_flip(*t, 3, part_id as int, 3, w, 1) == (weights[anchor_index0 as int] >= 4));
        assert(pm_flip(*t, 3, part_id as int, 3, w, 2) == (weights[anchor_index1 as int] >= 4));
        assert(flips@ =~= pm_flips(*t, 0, part_id as int, w));
    }
    orient(lr, hr, &flips);
    orient(lg, hg, &flips);
    orient(lb, hb, &flips);
    orient_pbits(p, &flips);
    write_mode0_block(block, t, part_id, lr, lg, lb, hr, hg, hb, p, weights, &weight_inv, Ghost(w));
    proof {
        let xb = block_bits(*block);
        let stored = seq![seq![lr[0] as nat, lg[0] as nat, lb[0] as nat], seq![hr[0] as nat, hg[0] as nat, hb[0] as nat], seq![lr[1] as nat, lg[1] as nat, lb[1] as nat], seq![hr[1] as nat, hg[1] as nat, hb[1] as nat], seq![lr[2] as nat, lg[2] as nat, lb[2] as nat], seq![hr[2] as nat, hg[2] as nat, hb[2] as nat]];
        let sp = seq![p[0] as nat, p[1] as nat, p[2] as nat, p[3] as nat, p[4] as nat, p[5] as nat];
        lemma_pm_layout_from_stored(xb, *t, 0, part_id as nat, stored, sp, seq![seq![olr[0] as nat, olg[0] as nat, olb[0] as nat], seq![olr[1] as nat, olg[1] as nat, olb[1] as nat], seq![olr[2] as nat, olg[2] as nat, olb[2] as nat]], seq![seq![ohr[0] as nat, ohg[0] as nat, ohb[0] as nat], seq![ohr[1] as nat, ohg[1] as nat, ohb[1] as nat], seq![ohr[2] as nat, ohg[2] as nat, ohb[2] as nat]], seq![op[0] as nat, op[2] as nat, op[4] as nat], seq![op[1] as nat, op[3] as nat, op[5] as nat], w);
    }
}

/// The low word of a mode 1 block: mode bits, partition, then endpoint codes channel by channel.
#[verifier::spinoff_prover]
fn mode1_low_word(part: u32, lr0: u32, hr0: u32, lr1: u32, hr1: u32, lg0: u32, hg0: u32, lg1: u32, hg1: u32, lb0: u32, hb0_lo: u32) -> (x: u64)
    requires
        part < 64,
        lr0 < 64,
        hr0 < 64,
        lr1 < 64,
        hr1 < 64,
        lg0 < 64,
        hg0 < 64,
        lg1 < 64,
        hg1 < 64,
        lb0 < 64,
        hb0_lo < 4,
    ensures
        nat_field(x as nat, 0, 2) == 2,
        nat_field(x as nat, 2, 6) == part,
        nat_field(x as nat, 8, 6) == lr0,
        nat_field(x as nat, 14, 6) == hr0,
        nat_field(x as nat, 20, 6) == lr1,
        nat_field(x as nat, 26, 6) == hr1,
        nat_field(x as nat, 32, 6) == lg0,
        nat_field(x as nat, 38, 6) == hg0,
        nat_field(x as nat, 44, 6) == lg1,
        nat_field(x as nat, 50, 6) == hg1,
        nat_field(x as nat, 56, 6) == lb0,
        nat_field(x as nat, 62, 2) == hb0_lo,
{
    proof {
        lemma2_to64();
    }
    let x0: u64 = 2;
    assert(nat_field(x0 as nat, 0, 2) == 2) by {
        lemma_small_mod(x0 as nat, pow2(2));
    }
    proof { lemma_u64_append(x0, part as u64, 2, 6); }
    let x1 = x0 | ((part as u64) << 2);
    proof { lemma_u64_append(x1, lr0 as u64, 8, 6); }
    let x2 = x1 | ((lr0 as u64) << 8);
    proof { lemma_u64_append(x2, hr0 as u64, 14, 6); }
    let x3 = x2 | ((hr0 as u64) << 14);
    proof { lemma_u64_append(x3, lr1 as u64, 20, 6); }
    let x4 = x3 | ((lr1 as u64) << 20);
    proof { lemma_u64_append(x4, hr1 as u64, 26, 6); }
    let x5 = x4 | ((hr1 as u64) << 26);
    proof { lemma_u64_append(x5, lg0 as u64, 32, 6); }
    let x6 = x5 | ((lg0 as u64) << 32);
    proof { lemma_u64_append(x6, hg0 as u64, 38, 6); }
    let x7 = x6 | ((hg0 as u64) << 38);
    proof { lemma_u64_append(x7, lg1 as u64, 44, 6); }
    let x8 = x7 | ((lg1 as u64) << 44);
    proof { lemma_u64_append(x8, hg1 as u64, 50, 6); }
    let x9 = x8 | ((hg1 as u64) << 50);
    proof { lemma_u64_append(x9, lb0 as u64, 56, 6); }
    let x10 = x9 | ((lb0 as u64) << 56);
    proof { lemma_u64_append(x10, hb0_lo as u64, 62, 2); }
    x10 | ((hb0_lo as u64) << 62)
}

/// The fixed start of a mode 1 high word, below its indices.
#[verifier::spinoff_prover]
fn mode1_high_head(hb0_hi: u32, lb1: u32, hb1: u32, p0: u32, p1: u32) -> (x: u64)
    requires
        hb0_hi < 16,
        lb1 < 64,
        hb1 < 64,
        p0 < 2,
        p1 < 2,
    ensures
        x < pow2(18),
        nat_field(x as nat, 0, 4) == hb0_hi,
        nat_field(x as nat, 4, 6) == lb1,
        nat_field(x as nat, 10, 6) == hb1,
        nat_field(x as nat, 16, 1) == p0,
        nat_field(x as nat, 17, 1) == p1,
{
    proof {
        lemma2_to64();
    }
    let x0: u64 = hb0_hi as u64;
    assert(nat_field(x0 as nat, 0, 4) == hb0_hi) by {
        lemma_small_mod(x0 as nat, pow2(4));
    }
    proof { lemma_u64_append(x0, lb1 as u64, 4, 6); }
    let x1 = x0 | ((lb1 as u64) << 4);
    proof { lemma_u64_append(x1, hb1 as u64, 10, 6); }
    let x2 = x1 | ((hb1 as u64) << 10);
    proof { lemma_u64_append(x2, p0 as u64, 16, 1); }
    let x3 = x2 | ((p0 as u64) << 16);
    proof { lemma_u64_append(x3, p1 as u64, 17, 1); }
    x3 | ((p1 as u64) << 17)
}

/// The fields of a mode 1 block built from its two words.
#[verifier::spinoff_prover]
proof fn lemma_mode1_fields(x: nat, lo: nat, hi: nat, part: nat, codes: Seq<Seq<nat>>, pbits: Seq<nat>)
    requires
        forall|o: nat, l: nat| o + l <= 64 ==> #[trigger] nat_field(x, o, l) == nat_field(lo, o, l),
        forall|o: nat, l: nat| o >= 64 ==> #[trigger] nat_field(x, o, l) == nat_field(hi, (o - 64) as nat, l),
        codes.len() == 4,
        forall|e: int| 0 <= e < 4 ==> #[trigger] codes[e].len() == 3,
        forall|e: int, c: int| 0 <= e < 4 && 0 <= c < 3 ==> #[trigger] codes[e][c] < pow2(6),
        nat_field(lo, 0, 2) == 2,
        nat_field(lo, 2, 6) == part,
        nat_field(lo, 8, 6) == codes[0][0],
        nat_field(lo, 14, 6) == codes[1][0],
        nat_field(lo, 20, 6) == codes[2][0],
        nat_field(lo, 26, 6) == codes[3][0],
        nat_field(lo, 32, 6) == codes[0][1],
        nat_field(lo, 38, 6) == codes[1][1],
        nat_field(lo, 44, 6) == codes[2][1],
        nat_field(lo, 50, 6) == codes[3][1],
        nat_field(lo, 56, 6) == codes[0][2],
        nat_field(lo, 62, 2) == codes[1][2] % pow2(2),
        nat_field(hi, 0, 4) == codes[1][2] / pow2(2),
        nat_field(hi, 4, 6) == codes[2][2],
        nat_field(hi, 10, 6) == codes[3][2],
        nat_field(hi, 16, 1) == pbits[0],
        nat_field(hi, 16, 1) == pbits[1],
        nat_field(hi, 17, 1) == pbits[2],
        nat_field(hi, 17, 1) == pbits[3],
    ensures
        is_mode(x, 1),
        pm_part(x, 1) == part,
        pm_stored(x, 1, codes, pbits),
{
    assert(nat_field(x, 0, 2) == nat_field(lo, 0, 2));
    lemma2_to64();
    assert(nat_field(x, 2, 6) == nat_field(lo, 2, 6));
    assert forall|c: nat, e: nat| c < 3 && e < 4 implies #[trigger] pm_code(x, 1, c, e) == codes[e as int][c as int] by {
        assert(pm_code(x, 1, c, e) == nat_field(x, 8 + (4 * c + e) * 6, 6));
        if c == 0 && e == 0 {
            assert(nat_field(x, 8, 6) == nat_field(lo, 8, 6));
        } else if c == 0 && e == 1 {
            assert(nat_field(x, 14, 6) == nat_field(lo, 14, 6));
        } else if c == 0 && e == 2 {
            assert(nat_field(x, 20, 6) == nat_field(lo, 20, 6));
        } else if c == 0 && e == 3 {
            assert(nat_field(x, 26, 6) == nat_field(lo, 26, 6));
        } else if c == 1 && e == 0 {
            assert(nat_field(x, 32, 6) == nat_field(lo, 32, 6));
        } else if c == 1 && e == 1 {
            assert(nat_field(x, 38, 6) == nat_field(lo, 38, 6));
        } else if c == 1 && e == 2 {
            assert(nat_field(x, 44, 6) == nat_field(lo, 44, 6));
        } else if c == 1 && e == 3 {
            assert(nat_field(x, 50, 6) == nat_field(lo, 50, 6));
        } else if c == 2 && e == 0 {
            assert(nat_field(x, 56, 6) == nat_field(lo, 56, 6));
        } else if c == 2 && e == 1 {
            lemma_field_concat(x, 62, 2, 4);
            assert(nat_field(x, 62, 2) == nat_field(lo, 62, 2));
            assert(nat_field(x, 64, 4) == nat_field(hi, 0, 4));
            vstd::arithmetic::div_mod::lemma_fundamental_div_mod(codes[1][2] as int, pow2(2) as int);
            lemma_mul_is_commutative((codes[1][2] / pow2(2)) as int, pow2(2) as int);
        } else if c == 2 && e == 2 {
            assert(nat_field(x, 68, 6) == nat_field(hi, 4, 6));
        } else if c == 2 && e == 3 {
            assert(nat_field(x, 74, 6) == nat_field(hi, 10, 6));
        }
    }
    assert forall|e: nat| e < 4 implies #[trigger] pm_pbit(x, 1, e) == pbits[e as int] by {
        assert(pm_pbit(x, 1, e) == nat_field(hi, 16 + e / 2, 1));
    }
}

/// Write a mode 1 block: two subsets of partition `part_id`, 6-bit RGB
/// endpoints, one p-bit shared by each subset's endpoints, 3-bit indices. A
/// subset whose anchor index has its top bit set is turned around first: its
/// endpoints trade places in the arrays, and its indices are stored mirrored.
#[verifier::spinoff_prover]
#[verifier::rlimit(60)]
pub fn encode_mode1_rgb_block(
    block: &mut [u8; 16],
    t: &Bc7Partitions,
    part_id: u32,
    lr: &mut [u32; 2],
    lg: &mut [u32; 2],
    lb: &mut [u32; 2],
    hr: &mut [u32; 2],
    hg: &mut [u32; 2],
    hb: &mut [u32; 2],
    p0: u32,
    p1: u32,
    weights: &[u8; 16],
)
    requires
        t.wf(),
        part_id < 64,
        forall|s: int| 0 <= s < 2 ==> old(lr)[s] < 64 && old(lg)[s] < 64 && old(lb)[s] < 64,
        forall|s: int| 0 <= s < 2 ==> old(hr)[s] < 64 && old(hg)[s] < 64 && old(hb)[s] < 64,
        p0 < 2 && p1 < 2,
        forall|i: int| 0 <= i < 16 ==> weights[i] < 8,
    ensures
        pm_layout(
            block_bits(*final(block)),
            *t,
            1,
            part_id as nat,
            seq![seq![old(lr)[0] as nat, old(lg)[0] as nat, old(lb)[0] as nat], seq![old(lr)[1] as nat, old(lg)[1] as nat, old(lb)[1] as nat]],
            seq![seq![old(hr)[0] as nat, old(hg)[0] as nat, old(hb)[0] as nat], seq![old(hr)[1] as nat, old(hg)[1] as nat, old(hb)[1] as nat]],
            seq![p0 as nat, p1 as nat],
            seq![p0 as nat, p1 as nat],
            index_seq(*weights),
        ),
        oriented(*final(lr), *final(hr), *old(lr), *old(hr), pm_flips(*t, 1, part_id as int, index_seq(*weights))),
        oriented(*final(lg), *final(hg), *old(lg), *old(hg), pm_flips(*t, 1, part_id as int, index_seq(*weights))),
        oriented(*final(lb), *final(hb), *old(lb), *old(hb), pm_flips(*t, 1, part_id as int, index_seq(*weights))),
{
    let ghost w = index_seq(*weights);
    let ghost (olr, olg, olb, ohr, ohg, ohb) = (*lr, *lg, *lb, *hr, *hg, *hb);
    let anchor_index0 = t.anchor_at(2, part_id as usize, 0);
    proof {
        lemma2_to64();
        t.lemma_ranges();
        lemma_index_mirror(weights[0]);
        lemma_index_mirror(weights[anchor_index0 as int]);
        assert(w[0] == weights[0]);
        assert(w[anchor_index0 as int] == weights[anchor_index0 as int]);
    }
    let flips = [weights[0] & 4 != 0, weights[anchor_index0] & 4 != 0];
    let mut weight_inv = [0u8; 3];
    if flips[0] {
        weight_inv[0] = 7;
    }
    if flips[1] {
        weight_inv[1] = 7;
    }
    proof {
        assert(pm_flip(*t, 2, part_id as int, 3, w, 0) == (weights[0] >= 4));
        assert(pm_flip(*t, 2, part_id as int, 3, w, 1) == (weights[anchor_index0 as int] >= 4));
        assert(flips@ =~= pm_flips(*t, 1, part_id as int, w));
    }
    orient(lr, hr, &flips);
    orient(lg, hg, &flips);
    orient(lb, hb, &flips);
    let lo = mode1_low_word(part_id, lr[0], hr[0], lr[1], hr[1], lg[0], hg[0], lg[1], hg[1], lb[0], hb[0] % 4);
    let head = mode1_high_head(hb[0] / 4, lb[1], hb[1], p0, p1);
    let (hi, _end) = append_anchored_set(head, 18, weights, &weight_inv, t, 2, part_id as usize, 3, Ghost(w));
    store_u64_le(block, 0, lo, 8);
    store_u64_le(block, 8, hi, 8);
    proof {
        let b = block@;
        lemma_u64_pow2_le(64);
        lemma_block_of_words(b, lo as nat, hi as nat);
        let xb = le_value(b);
        let stored = seq![seq![lr[0] as nat, lg[0] as nat, lb[0] as nat], seq![hr[0] as nat, hg[0] as nat, hb[0] as nat], seq![lr[1] as nat, lg[1] as nat, lb[1] as nat], seq![hr[1] as nat, hg[1] as nat, hb[1] as nat]];
        let sp = seq![p0 as nat, p0 as nat, p1 as nat, p1 as nat];
        lemma_mode1_fields(xb, lo as nat, hi as nat, part_id as nat, stored, sp);
        assert forall|i: int| 0 <= i < 16 implies #[trigger] anchored_index(xb, *t, 2, part_id as int, pm_index_start(1), 3, i) == anchored_index(
            hi as nat, *t, 2, part_id as int, 18, 3, i,
        ) by {
            lemma_anchored_offsets(*t, 2, part_id as int, 18, 3, i);
            lemma_anchored_offset_shift(*t, 2, part_id as int, 18, 64, 3, i);
        }
        lemma_pm_layout_from_stored(xb, *t, 1, part_id as nat, stored, sp, seq![seq![olr[0] as nat, olg[0] as nat, olb[0] as nat], seq![olr[1] as nat, olg[1] as nat, olb[1] as nat]], seq![seq![ohr[0] as nat, ohg[0] as nat, ohb[0] as nat], seq![ohr[1] as nat, ohg[1] as nat, ohb[1] as nat]], seq![p0 as nat, p1 as nat], seq![p0 as nat, p1 as nat], w);
    }
}

/// The low word of a mode 2 block: mode bits, partition, then endpoint codes channel by channel.
#[verifier::spinoff_prover]
fn mode2_low_word(part: u32, lr0: u32, hr0: u32, lr1: u32, hr1: u32, lr2: u32, hr2: u32, lg0: u32, hg0: u32, lg1: u32, hg1: u32, lg2: u32) -> (x: u64)
    requires
        part < 64,
        lr0 < 32,
        hr0 < 32,
        lr1 < 32,
        hr1 < 32,
        lr2 < 32,
        hr2 < 32,
        lg0 < 32,
        hg0 < 32,
        lg1 < 32,
        hg1 < 32,
        lg2 < 32,
    ensures
        nat_field(x as nat, 0, 3) == 4,
        nat_field(x as nat, 3, 6) == part,
        nat_field(x as nat, 9, 5) == lr0,
        nat_field(x as nat, 14, 5) == hr0,
        nat_field(x as nat, 19, 5) == lr1,
        nat_field(x as nat, 24, 5) == hr1,
        nat_field(x as nat, 29, 5) == lr2,
        nat_field(x as nat, 34, 5) == hr2,
        nat_field(x as nat, 39, 5) == lg0,
        nat_field(x as nat, 44, 5) == hg0,
        nat_field(x as nat, 49, 5) == lg1,
        nat_field(x as nat, 54, 5) == hg1,
        nat_field(x as nat, 59, 5) == lg2,
{
    proof {
        lemma2_to64();
    }
    let x0: u64 = 4;
    assert(nat_field(x0 as nat, 0, 3) == 4) by {
        lemma_small_mod(x0 as nat, pow2(3));
    }
    proof { lemma_u64_append(x0, part as u64, 3, 6); }
    let x1 = x0 | ((part as u64) << 3);
    proof { lemma_u64_append(x1, lr0 as u64, 9, 5); }
    let x2 = x1 | ((lr0 as u64) << 9);
    proof { lemma_u64_append(x2, hr0 as u64, 14, 5); }
    let x3 = x2 | ((hr0 as u64) << 14);
    proof { lemma_u64_append(x3, lr1 as u64, 19, 5); }
    let x4 = x3 | ((lr1 as u64) << 19);
    proof { lemma_u64_append(x4, hr1 as u64, 24, 5); }
    let x5 = x4 | ((hr1 as u64) << 24);
    proof { lemma_u64_append(x5, lr2 as u64, 29, 5); }
    let x6 = x5 | ((lr2 as u64) << 29);
    proof { lemma_u64_append(x6, hr2 as u64, 34, 5); }
    let x7 = x6 | ((hr2 as u64) << 34);
    proof { lemma_u64_append(x7, lg0 as u64, 39, 5); }
    let x8 = x7 | ((lg0 as u64) << 39);
    proof { lemma_u64_append(x8, hg0 as u64, 44, 5); }
    let x9 = x8 | ((hg0 as u64) << 44);
    proof { lemma_u64_append(x9, lg1 as u64, 49, 5); }
    let x10 = x9 | ((lg1 as u64) << 49);
    proof { lemma_u64_append(x10, hg1 as u64, 54, 5); }
    let x11 = x10 | ((hg1 as u64) << 54);
    proof { lemma_u64_append(x11, lg2 as u64, 59, 5); }
    x11 | ((lg2 as u64) << 59)
}

/// The fixed start of a mode 2 high word, below its indices.
#[verifier::spinoff_prover]
fn mode2_high_head(hg2: u32, lb0: u32, hb0: u32, lb1: u32, hb1: u32, lb2: u32, hb2: u32) -> (x: u64)
    requires
        hg2 < 32,
        lb0 < 32,
        hb0 < 32,
        lb1 < 32,
        hb1 < 32,
        lb2 < 32,
        hb2 < 32,
    ensures
        x < pow2(35),
        nat_field(x as nat, 0, 5) == hg2,
        nat_field(x as nat, 5, 5) == lb0,
        nat_field(x as nat, 10, 5) == hb0,
        nat_field(x as nat, 15, 5) == lb1,
        nat_field(x as nat, 20, 5) == hb1,
        nat_field(x as nat, 25, 5) == lb2,
        nat_field(x as nat, 30, 5) == hb2,
{
    proof {
        lemma2_to64();
    }
    let x0: u64 = hg2 as u64;
    assert(nat_field(x0 as nat, 0, 5) == hg2) by {
        lemma_small_mod(x0 as nat, pow2(5));
    }
    proof { lemma_u64_append(x0, lb0 as u64, 5, 5); }
    let x1 = x0 | ((lb0 as u64) << 5);
    proof { lemma_u64_append(x1, hb0 as u64, 10, 5); }
    let x2 = x1 | ((hb0 as u64) << 10);
    proof { lemma_u64_append(x2, lb1 as u64, 15, 5); }
    let x3 = x2 | ((lb1 as u64) << 15);
    proof { lemma_u64_append(x3, hb1 as u64, 20, 5); }
    let x4 = x3 | ((hb1 as u64) << 20);
    proof { lemma_u64_append(x4, lb2 as u64, 25, 5); }
    let x5 = x4 | ((lb2 as u64) << 25);
    proof { lemma_u64_append(x5, hb2 as u64, 30, 5); }
    x5 | ((hb2 as u64) << 30)
}

/// The fields of a mode 2 block built from its two words.
#[verifier::spinoff_prover]
proof fn lemma_mode2_fields(x: nat, lo: nat, hi: nat, part: nat, codes: Seq<Seq<nat>>, pbits: Seq<nat>)
    requires
        forall|o: nat, l: nat| o + l <= 64 ==> #[trigger] nat_field(x, o, l) == nat_field(lo, o, l),
        forall|o: nat, l: nat| o >= 64 ==> #[trigger] nat_field(x, o, l) == nat_field(hi, (o - 64) as nat, l),
        codes.len() == 6,
        forall|e: int| 0 <= e < 6 ==> #[trigger] codes[e].len() == 3,
        forall|e: int, c: int| 0 <= e < 6 && 0 <= c < 3 ==> #[trigger] codes[e][c] < pow2(5),
        nat_field(lo, 0, 3) == 4,
        nat_field(lo, 3, 6) == part,
        nat_field(lo, 9, 5) == codes[0][0],
        nat_field(lo, 14, 5) == codes[1][0],
        nat_field(lo, 19, 5) == codes[2][0],
        nat_field(lo, 24, 5) == codes[3][0],
        nat_field(lo, 29, 5) == codes[4][0],
        nat_field(lo, 34, 5) == codes[5][0],
        nat_field(lo, 39, 5) == codes[0][1],
        nat_field(lo, 44, 5) == codes[1][1],
        nat_field(lo, 49, 5) == codes[2][1],
        nat_field(lo, 54, 5) == codes[3][1],
        nat_field(lo, 59, 5) == codes[4][1],
        nat_field(hi, 0, 5) == codes[5][1],
        nat_field(hi, 5, 5) == codes[0][2],
        nat_field(hi, 10, 5) == codes[1][2],
        nat_field(hi, 15, 5) == codes[2][2],
        nat_field(hi, 20, 5) == codes[3][2],
        nat_field(hi, 25, 5) == codes[4][2],
        nat_field(hi, 30, 5) == codes[5][2],
    ensures
        is_mode(x, 2),
        pm_part(x, 2) == part,
        pm_stored(x, 2, codes, pbits),
{
    assert(nat_field(x, 0, 3) == nat_field(lo, 0, 3));
    lemma2_to64();
    assert(nat_field(x, 3, 6) == nat_field(lo, 3, 6));
    assert forall|c: nat, e: nat| c < 3 && e < 6 implies #[trigger] pm_code(x, 2, c, e) == codes[e as int][c as int] by {
        assert(pm_code(x, 2, c, e) == nat_field(x, 9 + (6 * c + e) * 5, 5));
        if c == 0 && e == 0 {
            assert(nat_field(x, 9, 5) == nat_field(lo, 9, 5));
        } else if c == 0 && e == 1 {
            assert(nat_field(x, 14, 5) == nat_field(lo, 14, 5));
        } else if c == 0 && e == 2 {
            assert(nat_field(x, 19, 5) == nat_field(lo, 19, 5));
        } else if c == 0 && e == 3 {
            assert(nat_field(x, 24, 5) == nat_field(lo, 24, 5));
        } else if c == 0 && e == 4 {
            assert(nat_field(x, 29, 5) == nat_field(lo, 29, 5));
        } else if c == 0 && e == 5 {
            assert(nat_field(x, 34, 5) == nat_field(lo, 34, 5));
        } else if c == 1 && e == 0 {
            assert(nat_field(x, 39, 5) == nat_field(lo, 39, 5));
        } else if c == 1 && e == 1 {
            assert(nat_field(x, 44, 5) == nat_field(lo, 44, 5));
        } else if c == 1 && e == 2 {
            assert(nat_field(x, 49, 5) == nat_field(lo, 49, 5));
        } else if c == 1 && e == 3 {
            assert(nat_field(x, 54, 5) == nat_field(lo, 54, 5));
        } else if c == 1 && e == 4 {
            assert(nat_field(x, 59, 5) == nat_field(lo, 59, 5));
        } else if c == 1 && e == 5 {
            assert(nat_field(x, 64, 5) == nat_field(hi, 0, 5));
        } else if c == 2 && e == 0 {
            assert(nat_field(x, 69, 5) == nat_field(hi, 5, 5));
        } else if c == 2 && e == 1 {
            assert(nat_field(x, 74, 5) == nat_field(hi, 10, 5));
        } else if c == 2 && e == 2 {
            assert(nat_field(x, 79, 5) == nat_field(hi, 15, 5));
        } else if c == 2 && e == 3 {
            assert(nat_field(x, 84, 5) == nat_field(hi, 20, 5));
        } else if c == 2 && e == 4 {
            assert(nat_field(x, 89, 5) == nat_field(hi, 25, 5));
        } else if c == 2 && e == 5 {
            assert(nat_field(x, 94, 5) == nat_field(hi, 30, 5));
        }
    }
}

/// Write a mode 2 block: three subsets of partition `part_id`, 5-bit RGB
/// endpoints, no p-bits, 2-bit indices. A subset whose anchor index has its
/// top bit set is turned around first: its endpoints trade places in the
/// arrays, and its indices are stored mirrored.
#[verifier::spinoff_prover]
#[verifier::rlimit(60)]
pub fn encode_mode2_rgb_block(
    block: &mut [u8; 16],
    t: &Bc7Partitions,
    part_id: u32,
    lr: &mut [u32; 3],
    lg: &mut [u32; 3],
    lb: &mut [u32; 3],
    hr: &mut [u32; 3],
    hg: &mut [u32; 3],
    hb: &mut [u32; 3],
    weights: &[u8; 16],
)
    requires
        t.wf(),
        part_id < 64,
        forall|s: int| 0 <= s < 3 ==> old(lr)[s] < 32 && old(lg)[s] < 32 && old(lb)[s] < 32,
        forall|s: int| 0 <= s < 3 ==> old(hr)[s] < 32 && old(hg)[s] < 32 && old(hb)[s] < 32,
        forall|i: int| 0 <= i < 16 ==> weights[i] < 4,
    ensures
        pm_layout(
            block_bits(*final(block)),
            *t,
            2,
            part_id as nat,
            seq![seq![old(lr)[0] as nat, old(lg)[0] as nat, old(lb)[0] as nat], seq![old(lr)[1] as nat, old(lg)[1] as nat, old(lb)[1] as nat], seq![old(lr)[2] as nat, old(lg)[2] as nat, old(lb)[2] as nat]],
            seq![seq![old(hr)[0] as nat, old(hg)[0] as nat, old(hb)[0] as nat], seq![old(hr)[1] as nat, old(hg)[1] as nat, old(hb)[1] as nat], seq![old(hr)[2] as nat, old(hg)[2] as nat, old(hb)[2] as nat]],
            seq![0nat, 0nat, 0nat],
            seq![0nat, 0nat, 0nat],
            index_seq(*weights),
        ),
        oriented(*final(lr), *final(hr), *old(lr), *old(hr), pm_flips(*t, 2, part_id as int, index_seq(*weights))),
        oriented(*final(lg), *final(hg), *old(lg), *old(hg), pm_flips(*t, 2, part_id as int, index_seq(*weights))),
        oriented(*final(lb), *final(hb), *old(lb), *old(hb), pm_flips(*t, 2, part_id as int, index_seq(*weights))),
{
    let ghost w = index_seq(*weights);
    let ghost (olr, olg, olb, ohr, ohg, ohb) = (*lr, *lg, *lb, *hr, *hg, *hb);
    let anchor_index0 = t.anchor_at(3, part_id as usize, 0);
    let anchor_index1 = t.anchor_at(3, part_id as usize, 1);
    proof {
        lemma2_to64();
        t.lemma_ranges();
        lemma_index_mirror(weights[0]);
        lemma_index_mirror(weights[anchor_index0 as int]);
        assert(w[0] == weights[0]);
        assert(w[anchor_index0 as int] == weights[anchor_index0 as int]);
        lemma_index_mirror(weights[anchor_index1 as int]);
        assert(w[anchor_index1 as int] == weights[anchor_index1 as int]);
    }
    let flips = [weights[0] & 2 != 0, weights[anchor_index0] & 2 != 0, weights[anchor_index1] & 2 != 0];
    let mut weight_inv = [0u8; 3];
    if flips[0] {
        weight_inv[0] = 3;
    }
    if flips[1] {
        weight_inv[1] = 3;
    }
    if flips[2] {
        weight_inv[2] = 3;
    }
    proof {
        assert(pm_flip(*t, 3, part_id as int, 2, w, 0) == (weights[0] >= 2));
        assert(pm_flip(*t, 3, part_id as int, 2, w, 1) == (weights[anchor_index0 as int] >= 2));
        assert(pm_flip(*t, 3, part_id as int, 2, w, 2) == (weights[anchor_index1 as int] >= 2));
        assert(flips@ =~= pm_flips(*t, 2, part_id as int, w));
    }
    orient(lr, hr, &flips);
    orient(lg, hg, &flips);
    orient(lb, hb, &flips);
    let lo = mode2_low_word(part_id, lr[0], hr[0], lr[1], hr[1], lr[2], hr[2], lg[0], hg[0], lg[1], hg[1], lg[2]);
    let head = mode2_high_head(hg[2], lb[0], hb[0], lb[1], hb[1], lb[2], hb[2]);
    let (hi, _end) = append_anchored_set(head, 35, weights, &weight_inv, t, 3, part_id as usize, 2, Ghost(w));
    store_u64_le(block, 0, lo, 8);
    store_u64_le(block, 8, hi, 8);
    proof {
        let b = block@;
        lemma_u64_pow2_le(64);
        lemma_block_of_words(b, lo as nat, hi as nat);
        let xb = le_value(b);
        let stored = seq![seq![lr[0] as nat, lg[0] as nat, lb[0] as nat], seq![hr[0] as nat, hg[0] as nat, hb[0] as nat], seq![lr[1] as nat, lg[1] as nat, lb[1] as nat], seq![hr[1] as nat, hg[1] as nat, hb[1] as nat], seq![lr[2] as nat, lg[2] as nat, lb[2] as nat], seq![hr[2] as nat, hg[2] as nat, hb[2] as nat]];
        let sp = Seq::<nat>::empty();
        lemma_mode2_fields(xb, lo as nat, hi as nat, part_id as nat, stored, sp);
        assert forall|i: int| 0 <= i < 16 implies #[trigger] anchored_index(xb, *t, 3, part_id as int, pm_index_start(2), 2, i) == anchored_index(
            hi as nat, *t, 3, part_id as int, 35, 2, i,
        ) by {
            lemma_anchored_offsets(*t, 3, part_id as int, 35, 2, i);
            lemma_anchored_offset_shift(*t, 3, part_id as int, 35, 64, 2, i);
        }
        lemma_pm_layout_from_stored(xb, *t, 2, part_id as nat, stored, sp, seq![seq![olr[0] as nat, olg[0] as nat, olb[0] as nat], seq![olr[1] as nat, olg[1] as nat, olb[1] as nat], seq![olr[2] as nat, olg[2] as nat, olb[2] as nat]], seq![seq![ohr[0] as nat, ohg[0] as nat, ohb[0] as nat], seq![ohr[1] as nat, ohg[1] as nat, ohb[1] as nat], seq![ohr[2] as nat, ohg[2] as nat, ohb[2] as nat]], seq![0nat, 0nat, 0nat], seq![0nat, 0nat, 0nat], w);
    }
}


/// The color and alpha index planes of a mode 4 block: the index-selection
/// bit set puts the 3-bit set on color and the 2-bit set on alpha.
pub open spec fn m4_color_bits(flag: nat) -> nat {
    if flag == 1 { 3 } else { 2 }
}

/// Width of the alpha indices of a mode 4 block.
pub open spec fn m4_alpha_bits(flag: nat) -> nat {
    if flag == 1 { 2 } else { 3 }
}

/// Texel `i`'s color index in a mode 4 block with index-selection bit `flag`.
pub open spec fn m4_color_index(x: nat, flag: nat, i: nat) -> nat {
    if flag == 1 { m45_second_index(x, 4, i) } else { m45_first_index(x, 4, i) }
}

/// Texel `i`'s alpha index in a mode 4 block with index-selection bit `flag`.
pub open spec fn m4_alpha_index(x: nat, flag: nat, i: nat) -> nat {
    if flag == 1 { m45_first_index(x, 4, i) } else { m45_second_index(x, 4, i) }
}

/// The fields of a mode 4 block written for low endpoint `l` and high
/// endpoint `h` (5-bit RGB and 6-bit alpha codes), rotation `rot`,
/// index-selection bit `flag`, color indices `cw` and alpha indices `aw`.
/// Each plane whose first index has its top bit set is stored turned around:
/// its endpoints trade places and its indices are mirrored.
pub open spec fn mode4_layout(
    x: nat,
    l: Seq<nat>,
    h: Seq<nat>,
    rot: nat,
    flag: nat,
    cw: Seq<nat>,
    aw: Seq<nat>,
) -> bool {
    let cb = m4_color_bits(flag);
    let ab = m4_alpha_bits(flag);
    let cflip = cw[0] >= pow2((cb - 1) as nat);
    let aflip = aw[0] >= pow2((ab - 1) as nat);
    &&& is_mode45(x, 4)
    &&& m45_rotation(x, 4) == rot
    &&& m45_index_mode(x, 4) == flag
    &&& forall|c: nat| c < 3 ==> #[trigger] nat_field(x, m45_endpoint_offset(4, c, 0), 5) == (if cflip { h[c as int] } else { l[c as int] })
    &&& forall|c: nat| c < 3 ==> #[trigger] nat_field(x, m45_endpoint_offset(4, c, 1), 5) == (if cflip { l[c as int] } else { h[c as int] })
    &&& nat_field(x, m45_endpoint_offset(4, 3, 0), 6) == (if aflip { h[3] } else { l[3] })
    &&& nat_field(x, m45_endpoint_offset(4, 3, 1), 6) == (if aflip { l[3] } else { h[3] })
    &&& forall|i: nat| i < 16 ==> #[trigger] m4_color_index(x, flag, i) == mirror(cw[i as int], (pow2(cb) - 1) as nat, cflip)
    &&& forall|i: nat| i < 16 ==> #[trigger] m4_alpha_index(x, flag, i) == mirror(aw[i as int], (pow2(ab) - 1) as nat, aflip)
}

/// The low fifty bits of a mode 4 block: mode bits, rotation, index-selection
/// bit, then the color and alpha codes, low endpoint first.
#[verifier::spinoff_prover]
fn mode4_head(rot: u32, flag: u32, lr: u32, hr: u32, lg: u32, hg: u32, lb: u32, hb: u32, la: u32, ha: u32) -> (x: u64)
    requires
        rot < 4,
        flag < 2,
        lr < 32 && lg < 32 && lb < 32 && hr < 32 && hg < 32 && hb < 32,
        la < 64 && ha < 64,
    ensures
        x < pow2(50),
        nat_field(x as nat, 0, 5) == 16,
        nat_field(x as nat, 5, 2) == rot,
        nat_field(x as nat, 7, 1) == flag,
        nat_field(x as nat, 8, 5) == lr,
        nat_field(x as nat, 13, 5) == hr,
        nat_field(x as nat, 18, 5) == lg,
        nat_field(x as nat, 23, 5) == hg,
        nat_field(x as nat, 28, 5) == lb,
        nat_field(x as nat, 33, 5) == hb,
        nat_field(x as nat, 38, 6) == la,
        nat_field(x as nat, 44, 6) == ha,
{
    proof {
        lemma2_to64();
    }
    let x0: u64 = 16;
    assert(nat_field(x0 as nat, 0, 5) == 16) by {
        lemma_small_mod(x0 as nat, pow2(5));
    }
    proof { lemma_u64_append(x0, rot as u64, 5, 2); }
    let x1 = x0 | ((rot as u64) << 5);
    proof { lemma_u64_append(x1, flag as u64, 7, 1); }
    let x2 = x1 | ((flag as u64) << 7);
    proof { lemma_u64_append(x2, lr as u64, 8, 5); }
    let x3 = x2 | ((lr as u64) << 8);
    proof { lemma_u64_append(x3, hr as u64, 13, 5); }
    let x4 = x3 | ((hr as u64) << 13);
    proof { lemma_u64_append(x4, lg as u64, 18, 5); }
    let x5 = x4 | ((lg as u64) << 18);
    proof { lemma_u64_append(x5, hg as u64, 23, 5); }
    let x6 = x5 | ((hg as u64) << 23);
    proof { lemma_u64_append(x6, lb as u64, 28, 5); }
    let x7 = x6 | ((lb as u64) << 28);
    proof { lemma_u64_append(x7, hb as u64, 33, 5); }
    let x8 = x7 | ((hb as u64) << 33);
    proof { lemma_u64_append(x8, la as u64, 38, 6); }
    let x9 = x8 | ((la as u64) << 38);
    proof { lemma_u64_append(x9, ha as u64, 44, 6); }
    x9 | ((ha as u64) << 44)
}



/// Write a mode 4 block: single subset, 5-bit RGB and 6-bit alpha endpoints,
/// a 2-bit and a 3-bit index plane, channel rotation `rot_index`, and the
/// index-selection bit `index_flag` that puts the 3-bit plane (`weights0`
/// then) on color. A plane whose first index has its top bit set is turned
/// around: its endpoints trade places and its indices are stored mirrored.
#[verifier::spinoff_prover]
#[verifier::rlimit(60)]
pub fn encode_mode4_rgba_block(
    block: &mut [u8; 16],
    lr: u32,
    lg: u32,
    lb: u32,
    la: u32,
    hr: u32,
    hg: u32,
    hb: u32,
    ha: u32,
    weights0: &[u8; 16],
    weights1: &[u8; 16],
    rot_index: u32,
    index_flag: u32,
)
    requires
        lr < 32 && lg < 32 && lb < 32 && hr < 32 && hg < 32 && hb < 32,
        la < 64 && ha < 64,
        rot_index < 4,
        index_flag < 2,
        forall|i: int| 0 <= i < 16 ==> weights0[i] < pow2(m4_color_bits(index_flag as nat)),
        forall|i: int| 0 <= i < 16 ==> weights1[i] < pow2(m4_alpha_bits(index_flag as nat)),
    ensures
        mode4_layout(
            block_bits(*final(block)),
            seq![lr as nat, lg as nat, lb as nat, la as nat],
            seq![hr as nat, hg as nat, hb as nat, ha as nat],
            rot_index as nat,
            index_flag as nat,
            index_seq(*weights0),
            index_seq(*weights1),
        ),
{
    let ghost (olr, olg, olb, ola) = (lr, lg, lb, la);
    let ghost (ohr, ohg, ohb, oha) = (hr, hg, hb, ha);
    let mut lr = lr;
    let mut lg = lg;
    let mut lb = lb;
    let mut la = la;
    let mut hr = hr;
    let mut hg = hg;
    let mut hb = hb;
    let mut ha = ha;
    let (w2bit, w3bit) = if index_flag != 0 { (weights1, weights0) } else { (weights0, weights1) };
    proof {
        lemma2_to64();
        lemma_index_mirror(w2bit[0]);
        lemma_index_mirror(w3bit[0]);
    }
    let mut inv3 = 0u8;
    let mut inv2 = 0u8;
    if w3bit[0] & 4 != 0 {
        inv3 = 7;
        if index_flag != 0 {
            core::mem::swap(&mut lr, &mut hr);
            core::mem::swap(&mut lg, &mut hg);
            core::mem::swap(&mut lb, &mut hb);
        } else {
            core::mem::swap(&mut la, &mut ha);
        }
    }
    if w2bit[0] & 2 != 0 {
        inv2 = 3;
        if index_flag != 0 {
            core::mem::swap(&mut la, &mut ha);
        } else {
            core::mem::swap(&mut lr, &mut hr);
            core::mem::swap(&mut lg, &mut hg);
            core::mem::swap(&mut lb, &mut hb);
        }
    }
    let ghost flip2 = w2bit[0] >= 2;
    let ghost flip3 = w3bit[0] >= 4;
    let head = mode4_head(rot_index, index_flag, lr, hr, lg, hg, lb, hb, la, ha);
    let (set2, _end2) = append_index_set(0, 0, w2bit, inv2, 2, Ghost(flip2));
    let (set3, _end3) = append_index_set(0, 0, w3bit, inv3, 3, Ghost(flip3));
    proof {
        lemma_u64_shr_is_div(set2, 0);
        lemma_u64_shr_mask(set2, 0, 14, 0x3FFF);
        lemma_u64_append(head, set2 & 0x3FFF, 50, 14);
        lemma_u64_shr_is_div(set2, 14);
        lemma_div_pow2_bound(set2 as nat, 14, 17);
        lemma_u64_append(set2 >> 14, set3, 17, 47);
    }
    let lo = head | ((set2 & 0x3FFF) << 50);
    let hi = (set2 >> 14) | (set3 << 17);
    store_u64_le(block, 0, lo, 8);
    store_u64_le(block, 8, hi, 8);
    proof {
        let b = block@;
        lemma_u64_pow2_le(64);
        lemma_block_of_words(b, lo as nat, hi as nat);
        let xb = le_value(b);
        let m = set2 as nat % pow2(14);
        let q = set2 as nat / pow2(14);
        let p14 = pow2(14);
        let p17 = pow2(17);
        let p50 = pow2(50);
        let p64 = pow2(64);
        let p81 = pow2(81);
        lemma_pow2_adds(14, 50);
        lemma_pow2_adds(64, 17);
        vstd::arithmetic::div_mod::lemma_fundamental_div_mod(set2 as int, p14 as int);
        assert(xb == head as nat + set2 as nat * p50 + set3 as nat * p81) by (nonlinear_arith)
            requires
                xb == lo as nat + p64 * hi as nat,
                lo as nat == head as nat + m * p50,
                hi as nat == q + set3 as nat * p17,
                set2 as nat == p14 * q + m,
                p64 == p14 * p50,
                p81 == p64 * p17,
        ;
        lemma_three_parts(head as nat, set2 as nat, set3 as nat, 50, 81);
        let cw = index_seq(*weights0);
        let aw = index_seq(*weights1);
        assert(cw[0] == weights0[0]);
        assert(aw[0] == weights1[0]);
        assert forall|i: nat| i < 16 implies #[trigger] m45_first_index(xb, 4, i) == set_index(set2 as nat, 0, 2, i) by {
            lemma_set_offsets(0, 2, i, 16);
            assert(set_offset(50, 2, i) == 50 + set_offset(0, 2, i));
        }
        assert forall|i: nat| i < 16 implies #[trigger] m45_second_index(xb, 4, i) == set_index(set3 as nat, 0, 3, i) by {
            assert(set_offset(81, 3, i) == 81 + set_offset(0, 3, i));
        }
        assert forall|i: nat| i < 16 implies #[trigger] m4_color_index(xb, index_flag as nat, i) == mirror(
            cw[i as int],
            (pow2(m4_color_bits(index_flag as nat)) - 1) as nat,
            cw[0] >= pow2((m4_color_bits(index_flag as nat) - 1) as nat),
        ) by {
            assert(cw[i as int] == weights0[i as int]);
        }
        assert forall|i: nat| i < 16 implies #[trigger] m4_alpha_index(xb, index_flag as nat, i) == mirror(
            aw[i as int],
            (pow2(m4_alpha_bits(index_flag as nat)) - 1) as nat,
            aw[0] >= pow2((m4_alpha_bits(index_flag as nat) - 1) as nat),
        ) by {
            assert(aw[i as int] == weights1[i as int]);
        }
        assert(nat_field(xb, 0, 5) == 16);
        assert(nat_field(xb, 5, 2) == rot_index);
        assert(nat_field(xb, 7, 1) == index_flag);
        let lseq = seq![olr as nat, olg as nat, olb as nat, ola as nat];
        let hseq = seq![ohr as nat, ohg as nat, ohb as nat, oha as nat];
        let cflip = cw[0] >= pow2((m4_color_bits(index_flag as nat) - 1) as nat);
        let aflip = aw[0] >= pow2((m4_alpha_bits(index_flag as nat) - 1) as nat);
        assert forall|c: nat| c < 3 implies #[trigger] nat_field(xb, m45_endpoint_offset(4, c, 0), 5) == (if cflip { hseq[c as int] } else { lseq[c as int] }) by {
            assert(nat_field(xb, m45_endpoint_offset(4, c, 0), 5) == nat_field(head as nat, 8 + 10 * c, 5));
        }
        assert forall|c: nat| c < 3 implies #[trigger] nat_field(xb, m45_endpoint_offset(4, c, 1), 5) == (if cflip { lseq[c as int] } else { hseq[c as int] }) by {
            assert(nat_field(xb, m45_endpoint_offset(4, c, 1), 5) == nat_field(head as nat, 13 + 10 * c, 5));
        }
        assert(nat_field(xb, m45_endpoint_offset(4, 3, 0), 6) == nat_field(head as nat, 38, 6));
        assert(nat_field(xb, m45_endpoint_offset(4, 3, 1), 6) == nat_field(head as nat, 44, 6));
    }
}


/// What a mode 4 writer meant for channel `s` of texel `i`: color from the
/// 5-bit endpoints at the color index, alpha from the 6-bit endpoints at the
/// alpha index, each on its own ramp.
pub open spec fn mode4_expected(l: Seq<nat>, h: Seq<nat>, flag: nat, cw: Seq<nat>, aw: Seq<nat>, i: nat, s: nat) -> nat {
    if s < 3 {
        interp(replicate8(l[s as int], 5), replicate8(h[s as int], 5), ramp_weight(m4_color_bits(flag), cw[i as int]))
    } else {
        interp(replicate8(l[3], 6), replicate8(h[3], 6), ramp_weight(m4_alpha_bits(flag), aw[i as int]))
    }
}

/// Reading back a mode 4 block: every texel's channel is what the writer
/// meant for the channel the rotation puts there, whichever way the writer
/// oriented each plane and whichever plane the index-selection bit chose.
#[verifier::spinoff_prover]
pub proof fn lemma_mode4_roundtrip(
    x: nat,
    l: Seq<nat>,
    h: Seq<nat>,
    rot: nat,
    flag: nat,
    cw: Seq<nat>,
    aw: Seq<nat>,
)
    requires
        l.len() == 4,
        h.len() == 4,
        cw.len() == 16,
        aw.len() == 16,
        rot < 4,
        flag < 2,
        forall|i: int| 0 <= i < 16 ==> cw[i] < pow2(m4_color_bits(flag)) && aw[i] < pow2(m4_alpha_bits(flag)),
        mode4_layout(x, l, h, rot, flag, cw, aw),
    ensures
        is_mode45(x, 4),
        forall|i: nat, c: nat|
            i < 16 && c < 4 ==> #[trigger] m45_texel(x, 4, i, c) == mode4_expected(
                l,
                h,
                flag,
                cw,
                aw,
                i,
                if rot >= 1 && c == 3 { (rot - 1) as nat } else if rot >= 1 && c == rot - 1 { 3 } else { c },
            ),
{
    let cb = m4_color_bits(flag);
    let ab = m4_alpha_bits(flag);
    let cflip = cw[0] >= pow2((cb - 1) as nat);
    let aflip = aw[0] >= pow2((ab - 1) as nat);
    lemma2_to64();
    assert forall|i: nat, s: nat| i < 16 && s < 4 implies #[trigger] m45_texel_unrotated(x, 4, i, s) == mode4_expected(l, h, flag, cw, aw, i, s) by {
        assert(m45_index_mode(x, 4) == flag);
        lemma_ramp_symmetric(cb, cw[i as int]);
        lemma_ramp_symmetric(ab, aw[i as int]);
        assert(m4_color_index(x, flag, i) == mirror(cw[i as int], (pow2(cb) - 1) as nat, cflip));
        assert(m4_alpha_index(x, flag, i) == mirror(aw[i as int], (pow2(ab) - 1) as nat, aflip));
        if s < 3 {
            assert(nat_field(x, m45_endpoint_offset(4, s, 0), 5) == (if cflip { h[s as int] } else { l[s as int] }));
            assert(nat_field(x, m45_endpoint_offset(4, s, 1), 5) == (if cflip { l[s as int] } else { h[s as int] }));
            if cflip {
                lemma_interp_swap(replicate8(l[s as int], 5), replicate8(h[s as int], 5), ramp_weight(cb, cw[i as int]));
            }
        } else {
            if aflip {
                lemma_interp_swap(replicate8(l[3], 6), replicate8(h[3], 6), ramp_weight(ab, aw[i as int]));
            }
        }
    }
    assert forall|i: nat, c: nat| i < 16 && c < 4 implies #[trigger] m45_texel(x, 4, i, c) == mode4_expected(
        l,
        h,
        flag,
        cw,
        aw,
        i,
        if rot >= 1 && c == 3 { (rot - 1) as nat } else if rot >= 1 && c == rot - 1 { 3 } else { c },
    ) by {
        let src: nat = if rot >= 1 && c == 3 { (rot - 1) as nat } else if rot >= 1 && c == rot - 1 { 3 } else { c };
        assert(m45_texel_unrotated(x, 4, i, src) == mode4_expected(l, h, flag, cw, aw, i, src));
    }
}


/// Losslessly encode a solid color as mode 5: each color channel takes the
/// endpoint pair `opt[v]` (low, high 7-bit codes) of its value `v`, every
/// color index is 1, alpha is stored as both alpha endpoints and every alpha
/// index is 0.
pub fn pack_mode5_solid(block: &mut [u8; 16], c: Rgba, opt: &[[u8; 2]; 256])
    requires
        forall|v: int| 0 <= v < 256 ==> #[trigger] opt[v][0] < 128 && opt[v][1] < 128,
    ensures
        mode5_layout(
            block_bits(*final(block)),
            seq![opt[c[0] as int][0] as nat, opt[c[1] as int][0] as nat, opt[c[2] as int][0] as nat, c[3] as nat],
            seq![opt[c[0] as int][1] as nat, opt[c[1] as int][1] as nat, opt[c[2] as int][1] as nat, c[3] as nat],
            0,
            Seq::new(16, |i: int| 1nat),
            Seq::new(16, |i: int| 0nat),
        ),
{
    let r = opt[c[0] as usize];
    let g = opt[c[1] as usize];
    let b = opt[c[2] as usize];
    let a = c[3] as u32;
    let color_weights = [1u8; 16];
    let alpha_weights = [0u8; 16];
    encode_mode5_rgba_block(
        block,
        r[0] as u32,
        g[0] as u32,
        b[0] as u32,
        a,
        r[1] as u32,
        g[1] as u32,
        b[1] as u32,
        a,
        &color_weights,
        &alpha_weights,
        0,
    );
    assert(index_seq(color_weights) =~= Seq::new(16, |i: int| 1nat));
    assert(index_seq(alpha_weights) =~= Seq::new(16, |i: int| 0nat));
    assert(color_weights@.map_values(|v: u8| v as nat) =~= Seq::new(16, |i: int| 1nat));
    assert(alpha_weights@.map_values(|v: u8| v as nat) =~= Seq::new(16, |i: int| 0nat));
}


/// A solid mode 5 block decodes to its color exactly when the endpoint
/// table is optimal: each pair blends to its value at index 1.
pub proof fn lemma_mode5_solid_lossless(x: nat, c: Rgba, opt: [[u8; 2]; 256])
    requires
        forall|v: int| 0 <= v < 256 ==> #[trigger] opt[v][0] < 128 && opt[v][1] < 128,
        forall|v: int|
            0 <= v < 256 ==> interp(replicate8(#[trigger] opt[v][0] as nat, 7), replicate8(opt[v][1] as nat, 7), 21) == v,
        mode5_layout(
            x,
            seq![opt[c[0] as int][0] as nat, opt[c[1] as int][0] as nat, opt[c[2] as int][0] as nat, c[3] as nat],
            seq![opt[c[0] as int][1] as nat, opt[c[1] as int][1] as nat, opt[c[2] as int][1] as nat, c[3] as nat],
            0,
            Seq::new(16, |i: int| 1nat),
            Seq::new(16, |i: int| 0nat),
        ),
    ensures
        forall|i: nat, ch: nat| i < 16 && ch < 4 ==> #[trigger] m45_texel(x, 5, i, ch) == c[ch as int],
{
    let l = seq![opt[c[0] as int][0] as nat, opt[c[1] as int][0] as nat, opt[c[2] as int][0] as nat, c[3] as nat];
    let h = seq![opt[c[0] as int][1] as nat, opt[c[1] as int][1] as nat, opt[c[2] as int][1] as nat, c[3] as nat];
    let cw = Seq::new(16, |i: int| 1nat);
    let aw = Seq::new(16, |i: int| 0nat);
    lemma_mode5_roundtrip(x, l, h, 0, cw, aw);
    assert forall|i: nat, ch: nat| i < 16 && ch < 4 implies #[trigger] m45_texel(x, 5, i, ch) == c[ch as int] by {
        assert(m45_texel(x, 5, i, ch) == mode5_expected(l, h, cw, aw, i, ch));
        if ch < 3 {
            assert(opt[c[ch as int] as int][0] < 128);
            assert(interp(replicate8(opt[c[ch as int] as int][0] as nat, 7), replicate8(opt[c[ch as int] as int][1] as nat, 7), 21) == c[ch as int]);
        } else {
            let a = c[3] as nat;
            assert(interp(a, a, 0) == a) by {
                assert((a * 64 + a * 0 + 32) / 64 == a) by (nonlinear_arith);
            }
        }
    }
}

} // verus!
