//! KTX2 container parser for Basis Universal payloads (`vkFormat == 0` for
//! ETC1S/UASTC LDR, `VK_FORMAT_ASTC_4x4_SFLOAT_BLOCK` for UASTC HDR 4x4, and the
//! raw ASTC presentations). Parses the header, the level index and the Data
//! Format Descriptor, which distinguishes the source codecs and reveals whether
//! the texture carries alpha.

use crate::api::{astc_dims, lemma_astc_dims_injective, AstcBlock};
use vstd::prelude::*;

verus! {

/// Data Format Descriptor color model for a raw ASTC payload.
pub const KTX2_KDF_DF_MODEL_ASTC: u32 = 162;
/// Data Format Descriptor color model for an ETC1S payload.
pub const KTX2_KDF_DF_MODEL_ETC1S: u32 = 163;
/// Data Format Descriptor color model for a UASTC LDR 4x4 payload.
pub const KTX2_KDF_DF_MODEL_UASTC: u32 = 166;
/// Data Format Descriptor color model for a UASTC HDR 4x4 payload.
pub const KTX2_KDF_DF_MODEL_UASTC_HDR_4X4: u32 = 167;
/// Data Format Descriptor color model for a UASTC HDR 6x6 intermediate payload.
pub const KTX2_KDF_DF_MODEL_UASTC_HDR_6X6_INTERMEDIATE: u32 = 168;
/// Data Format Descriptor color model for an XUASTC LDR intermediate payload.
pub const KTX2_KDF_DF_MODEL_XUASTC_LDR_INTERMEDIATE: u32 = 169;

/// `VK_FORMAT_ASTC_4x4_SFLOAT_BLOCK`, the vkFormat of a UASTC HDR 4x4 file.
pub const KTX2_FORMAT_ASTC_4X4_SFLOAT_BLOCK: u32 = 1000066000;
/// `VK_FORMAT_ASTC_6x6_SFLOAT_BLOCK`, the vkFormat of a raw ASTC HDR 6x6 file.
pub const KTX2_FORMAT_ASTC_6X6_SFLOAT_BLOCK: u32 = 1000066004;

/// The two DFD transfer functions accepted: linear and sRGB.
pub const KTX2_KHR_DF_TRANSFER_LINEAR: u32 = 1;
pub const KTX2_KHR_DF_TRANSFER_SRGB: u32 = 2;

/// The ASTC LDR vkFormat range (UNORM odd, sRGB even).
pub const KTX2_FORMAT_ASTC_LDR_FIRST: u32 = 157;
pub const KTX2_FORMAT_ASTC_LDR_LAST: u32 = 184;

/// Mip chains are capped at this many levels.
pub const KTX2_MAX_SUPPORTED_LEVEL_COUNT: u32 = 16;

/// Supercompression schemes: none, BasisLZ, Zstandard, and the two
/// intermediate schemes that pass header validation.
pub const KTX2_SS_BASISLZ: u32 = 1;
pub const KTX2_SS_ZSTANDARD: u32 = 2;
pub const KTX2_SS_UASTC_HDR_6X6I: u32 = 4;
pub const KTX2_SS_XUASTC_LDR: u32 = 5;

/// UASTC DFD channel ids that carry alpha: RGBA and RRRG.
pub const KTX2_DF_CHANNEL_UASTC_RGBA: u32 = 3;
pub const KTX2_DF_CHANNEL_UASTC_RRRG: u32 = 5;

/// The 12-byte KTX2 file identifier.
pub open spec fn ktx2_magic() -> Seq<u8> {
    seq![0xABu8, 0x4Bu8, 0x54u8, 0x58u8, 0x20u8, 0x32u8, 0x30u8, 0xBBu8, 0x0Du8, 0x0Au8, 0x1Au8, 0x0Au8]
}

/// The key/value key that marks a texture as video.
pub open spec fn anim_key() -> Seq<u8> {
    seq![75u8, 84u8, 88u8, 97u8, 110u8, 105u8, 109u8, 68u8, 97u8, 116u8, 97u8]
}

/// The little-endian `u32` stored at byte offset `o`.
pub open spec fn le32(d: Seq<u8>, o: int) -> u32 {
    (d[o] as int + d[o + 1] as int * 0x100 + d[o + 2] as int * 0x10000 + d[o + 3] as int
        * 0x1000000) as u32
}

/// The little-endian `u64` stored at byte offset `o`.
pub open spec fn le64(d: Seq<u8>, o: int) -> u64 {
    (le32(d, o) as int + le32(d, o + 4) as int * 0x1_0000_0000) as u64
}

/// The Basis source codec carried by a KTX2 file.
#[derive(Clone, Copy, PartialEq, Eq, Debug, Structural)]
pub enum BasisFormat {
    /// ETC1S: small codebooks plus entropy-coded indices.
    Etc1s,
    /// UASTC: a fixed 128-bit-per-block intermediate format.
    Uastc,
    /// UASTC HDR 4x4: each 128-bit block is a restricted ASTC HDR block.
    UastcHdr4x4,
    /// Raw ASTC LDR blocks of the given footprint.
    AstcLdr(AstcBlock),
    /// Raw ASTC HDR 6x6 blocks.
    AstcHdr6x6,
    /// UASTC HDR 6x6 intermediate.
    UastcHdr6x6,
    /// XUASTC LDR intermediate of the given block size.
    XuastcLdr(AstcBlock),
}

/// Source block dimensions of a codec.
pub open spec fn format_block_dims(f: BasisFormat) -> (u32, u32) {
    match f {
        BasisFormat::Etc1s | BasisFormat::Uastc | BasisFormat::UastcHdr4x4 => (4, 4),
        BasisFormat::AstcLdr(b) => astc_dims(b),
        BasisFormat::AstcHdr6x6 | BasisFormat::UastcHdr6x6 => (6, 6),
        BasisFormat::XuastcLdr(b) => astc_dims(b),
    }
}

impl BasisFormat {
    /// Source block dimensions `(width, height)` in texels.
    pub fn block_dims(self) -> (r: (u32, u32))
        ensures
            r == format_block_dims(self),
    {
        match self {
            BasisFormat::Etc1s | BasisFormat::Uastc | BasisFormat::UastcHdr4x4 => (4, 4),
            BasisFormat::AstcLdr(b) => b.dims(),
            BasisFormat::AstcHdr6x6 | BasisFormat::UastcHdr6x6 => (6, 6),
            BasisFormat::XuastcLdr(b) => b.dims(),
        }
    }
}

/// One KTX2 level-index entry: where a mip level's data lives in the file.
#[derive(Clone, Copy, Debug)]
pub struct LevelIndex {
    /// Offset of the level's data from the start of the file.
    pub byte_offset: u64,
    /// Length of the (possibly supercompressed) level data.
    pub byte_length: u64,
    /// Length the level data decompresses to under Zstandard supercompression.
    pub uncompressed_byte_length: u64,
}

/// The level-index entry `i` (24 bytes each, starting at byte 80).
pub open spec fn level_entry(d: Seq<u8>, i: int) -> LevelIndex {
    LevelIndex {
        byte_offset: le64(d, 80 + 24 * i),
        byte_length: le64(d, 80 + 24 * i + 8),
        uncompressed_byte_length: le64(d, 80 + 24 * i + 16),
    }
}

/// Parsed KTX2 container metadata for a Basis Universal payload.
#[derive(Clone, Debug)]
pub struct Ktx2Header {
    /// Level-0 width in pixels.
    pub width: u32,
    /// Level-0 height in pixels.
    pub height: u32,
    /// Array layer count; 0 for a non-array texture.
    pub layer_count: u32,
    /// Face count: 6 for a cubemap, otherwise 1.
    pub face_count: u32,
    /// Mip level count.
    pub level_count: u32,
    /// Supercompression scheme: 0 none, 1 BasisLZ, 2 Zstandard, 4/5 intermediate.
    pub supercompression: u32,
    /// Source codec of the payload.
    pub format: BasisFormat,
    /// Whether the texture carries an alpha channel.
    pub has_alpha: bool,
    /// For a raw ASTC LDR source: whether the vkFormat is the sRGB twin.
    pub astc_is_srgb: bool,
    /// Per-level data locations, one entry per level.
    pub levels: Vec<LevelIndex>,
    /// File offset of the supercompression global data.
    pub sgd_byte_offset: u64,
    /// Length of the supercompression global data.
    pub sgd_byte_length: u64,
    /// File offset of the key/value data block.
    pub kvd_byte_offset: u32,
    /// Length of the key/value data block.
    pub kvd_byte_length: u32,
    /// True if a `KTXanimData` key/value entry is present (a video marker).
    pub has_anim_key: bool,
}

// ----- Header fields -----
pub open spec fn hdr_vk_format(d: Seq<u8>) -> u32 { le32(d, 12) }
pub open spec fn hdr_type_size(d: Seq<u8>) -> u32 { le32(d, 16) }
pub open spec fn hdr_width(d: Seq<u8>) -> u32 { le32(d, 20) }
pub open spec fn hdr_height(d: Seq<u8>) -> u32 { le32(d, 24) }
pub open spec fn hdr_depth(d: Seq<u8>) -> u32 { le32(d, 28) }
pub open spec fn hdr_layer_count(d: Seq<u8>) -> u32 { le32(d, 32) }
pub open spec fn hdr_face_count(d: Seq<u8>) -> u32 { le32(d, 36) }
pub open spec fn hdr_level_count(d: Seq<u8>) -> u32 { le32(d, 40) }
pub open spec fn hdr_supercompression(d: Seq<u8>) -> u32 { le32(d, 44) }
pub open spec fn hdr_dfd_offset(d: Seq<u8>) -> u32 { le32(d, 48) }
pub open spec fn hdr_dfd_length(d: Seq<u8>) -> u32 { le32(d, 52) }
pub open spec fn hdr_kvd_offset(d: Seq<u8>) -> u32 { le32(d, 56) }
pub open spec fn hdr_kvd_length(d: Seq<u8>) -> u32 { le32(d, 60) }
pub open spec fn hdr_sgd_offset(d: Seq<u8>) -> u64 { le64(d, 64) }
pub open spec fn hdr_sgd_length(d: Seq<u8>) -> u64 { le64(d, 72) }

// ----- Data Format Descriptor fields -----
pub open spec fn dfd_word(d: Seq<u8>, k: int) -> u32 { le32(d, hdr_dfd_offset(d) + k) }
pub open spec fn dfd_color_model(d: Seq<u8>) -> u32 { dfd_word(d, 12) % 256 }
pub open spec fn dfd_transfer(d: Seq<u8>) -> u32 { (dfd_word(d, 12) / 0x10000) % 256 }
pub open spec fn dfd_block_width(d: Seq<u8>) -> u32 { (dfd_word(d, 16) % 256 + 1) as u32 }
pub open spec fn dfd_block_height(d: Seq<u8>) -> u32 { ((dfd_word(d, 16) / 256) % 256 + 1) as u32 }
pub open spec fn dfd_channel0(d: Seq<u8>) -> u32 { (dfd_word(d, 28) / 0x1000000) % 16 }

/// Whether a channel id denotes a payload with alpha.
pub open spec fn channel_has_alpha(c: u32) -> bool {
    c == KTX2_DF_CHANNEL_UASTC_RGBA || c == KTX2_DF_CHANNEL_UASTC_RRRG
}

/// Whether `vk` lies in the ASTC LDR vkFormat range.
pub open spec fn is_astc_ldr_vk(vk: u32) -> bool {
    KTX2_FORMAT_ASTC_LDR_FIRST <= vk <= KTX2_FORMAT_ASTC_LDR_LAST
}

/// The footprint of an ASTC LDR UNORM vkFormat (Vulkan declaration order).
pub open spec fn astc_block_of_unorm_vk(vk: u32) -> Option<AstcBlock> {
    if vk == 157 { Some(AstcBlock::B4x4) }
    else if vk == 159 { Some(AstcBlock::B5x4) }
    else if vk == 161 { Some(AstcBlock::B5x5) }
    else if vk == 163 { Some(AstcBlock::B6x5) }
    else if vk == 165 { Some(AstcBlock::B6x6) }
    else if vk == 167 { Some(AstcBlock::B8x5) }
    else if vk == 169 { Some(AstcBlock::B8x6) }
    else if vk == 171 { Some(AstcBlock::B8x8) }
    else if vk == 173 { Some(AstcBlock::B10x5) }
    else if vk == 175 { Some(AstcBlock::B10x6) }
    else if vk == 177 { Some(AstcBlock::B10x8) }
    else if vk == 179 { Some(AstcBlock::B10x10) }
    else if vk == 181 { Some(AstcBlock::B12x10) }
    else if vk == 183 { Some(AstcBlock::B12x12) }
    else { None }
}

/// The footprint with the given dimensions, if any.
pub open spec fn astc_block_of_dims(w: u32, h: u32) -> Option<AstcBlock> {
    if exists|b: AstcBlock| astc_dims(b) == (w, h) {
        Some(choose|b: AstcBlock| astc_dims(b) == (w, h))
    } else {
        None
    }
}

/// The source codec, alpha flag and sRGB flag a file's vkFormat and DFD
/// select, or `None` when they describe nothing this parser accepts.
pub open spec fn resolve_format(d: Seq<u8>) -> Option<(BasisFormat, bool, bool)> {
    let vk = hdr_vk_format(d);
    let cm = dfd_color_model(d);
    if is_astc_ldr_vk(vk) {
        let is_srgb = vk % 2 == 0;
        let unorm = if is_srgb { (vk - 1) as u32 } else { vk };
        if cm != KTX2_KDF_DF_MODEL_ASTC {
            None
        } else {
            match astc_block_of_unorm_vk(unorm) {
                None => None,
                Some(b) => if astc_dims(b) != (dfd_block_width(d), dfd_block_height(d)) {
                    None
                } else {
                    Some((BasisFormat::AstcLdr(b), channel_has_alpha(dfd_channel0(d)), is_srgb))
                },
            }
        }
    } else if cm == KTX2_KDF_DF_MODEL_ETC1S {
        if vk != 0 { None } else { Some((BasisFormat::Etc1s, hdr_dfd_length(d) == 60, false)) }
    } else if cm == KTX2_KDF_DF_MODEL_UASTC {
        if vk != 0 {
            None
        } else {
            Some((BasisFormat::Uastc, channel_has_alpha(dfd_channel0(d)), false))
        }
    } else if cm == KTX2_KDF_DF_MODEL_UASTC_HDR_4X4 {
        if vk != KTX2_FORMAT_ASTC_4X4_SFLOAT_BLOCK { None } else { Some((BasisFormat::UastcHdr4x4, false, false)) }
    } else if cm == KTX2_KDF_DF_MODEL_ASTC {
        if vk != KTX2_FORMAT_ASTC_6X6_SFLOAT_BLOCK { None } else { Some((BasisFormat::AstcHdr6x6, false, false)) }
    } else if cm == KTX2_KDF_DF_MODEL_UASTC_HDR_6X6_INTERMEDIATE {
        if vk != 0 { None } else { Some((BasisFormat::UastcHdr6x6, false, false)) }
    } else if cm == KTX2_KDF_DF_MODEL_XUASTC_LDR_INTERMEDIATE {
        if vk != 0 {
            None
        } else {
            match astc_block_of_dims(dfd_block_width(d), dfd_block_height(d)) {
                None => None,
                Some(b) => Some((BasisFormat::XuastcLdr(b), false, false)),
            }
        }
    } else {
        None
    }
}

/// Whether a supercompression scheme passes header validation.
pub open spec fn supercompression_ok(sc: u32) -> bool {
    sc <= KTX2_SS_ZSTANDARD || sc == KTX2_SS_UASTC_HDR_6X6I || sc == KTX2_SS_XUASTC_LDR
}

/// Per-level `uncompressedByteLength` sanity: Zstandard levels record a
/// nonzero size; BasisLZ and the intermediate schemes record zero.
pub open spec fn level_ok(sc: u32, l: LevelIndex) -> bool {
    &&& !(sc == KTX2_SS_ZSTANDARD && l.uncompressed_byte_length == 0)
    &&& !((sc == KTX2_SS_BASISLZ || sc == KTX2_SS_UASTC_HDR_6X6I || sc == KTX2_SS_XUASTC_LDR)
        && l.uncompressed_byte_length != 0)
}

/// Whether the fixed header fields describe a texture this parser accepts
/// (a 2D plain, cubemap or array texture with a sane mip chain).
pub open spec fn header_fields_ok(d: Seq<u8>) -> bool {
    let vk = hdr_vk_format(d);
    &&& d.len() >= 80
    &&& d.subrange(0, 12) == ktx2_magic()
    &&& (vk == 0 || vk == KTX2_FORMAT_ASTC_4X4_SFLOAT_BLOCK || vk == KTX2_FORMAT_ASTC_6X6_SFLOAT_BLOCK
        || is_astc_ldr_vk(vk))
    &&& hdr_type_size(d) == 1
    &&& hdr_width(d) >= 1
    &&& hdr_height(d) >= 1
    &&& hdr_depth(d) == 0
    &&& (hdr_face_count(d) == 1 || hdr_face_count(d) == 6)
    &&& (hdr_face_count(d) > 1 ==> hdr_width(d) == hdr_height(d))
    &&& 1 <= hdr_level_count(d) <= KTX2_MAX_SUPPORTED_LEVEL_COUNT
    &&& supercompression_ok(hdr_supercompression(d))
}

/// Whether the level index fits and every entry passes [`level_ok`].
pub open spec fn levels_ok(d: Seq<u8>) -> bool {
    &&& 80 + 24 * hdr_level_count(d) <= d.len()
    &&& forall|i: int| 0 <= i < hdr_level_count(d) ==> level_ok(hdr_supercompression(d), level_entry(d, i))
}

/// Whether the DFD has an accepted size, lies in the file, and uses an
/// accepted transfer function.
pub open spec fn dfd_ok(d: Seq<u8>) -> bool {
    &&& (hdr_dfd_length(d) == 44 || hdr_dfd_length(d) == 60)
    &&& hdr_dfd_offset(d) + 32 <= d.len()
    &&& (dfd_transfer(d) == KTX2_KHR_DF_TRANSFER_LINEAR || dfd_transfer(d) == KTX2_KHR_DF_TRANSFER_SRGB)
}

/// Whether [`Ktx2Header::parse`] accepts the file.
pub open spec fn ktx2_accepts(d: Seq<u8>) -> bool {
    &&& header_fields_ok(d)
    &&& levels_ok(d)
    &&& dfd_ok(d)
    &&& resolve_format(d) is Some
}

/// Whether `blob`'s NUL-terminated prefix is exactly `key`.
pub open spec fn kv_key_matches(blob: Seq<u8>, key: Seq<u8>) -> bool {
    &&& key.len() < blob.len()
    &&& blob[key.len() as int] == 0
    &&& blob.take(key.len() as int) == key
    &&& forall|j: int| 0 <= j < key.len() ==> key[j] != 0
}

/// Round `p` up to the next multiple of four.
pub open spec fn align4(p: int) -> int {
    p + (4 - p % 4) % 4
}

/// The key/value scan from position `p` to `end`: each entry is a `u32`
/// length, then `key\0value`, padded to a 4-byte boundary of the file. A
/// malformed entry ends the scan unmatched.
pub open spec fn kvd_scan(d: Seq<u8>, p: int, end: int, key: Seq<u8>) -> bool
    decreases end - p,
{
    if !(p < end && end - p > 4) {
        false
    } else {
        let l = le32(d, p) as int;
        let q = p + 4;
        if l < 2 || end - q < l {
            false
        } else if kv_key_matches(d.subrange(q, q + l), key) {
            true
        } else {
            let np = align4(q + l);
            if np >= end {
                false
            } else {
                kvd_scan(d, np, end, key)
            }
        }
    }
}

/// Whether the key/value block at `[off, off + len)` holds an entry whose key
/// is `key`.
pub open spec fn kvd_has_key(d: Seq<u8>, off: u32, len: u32, key: Seq<u8>) -> bool {
    if len == 0 || off + len > d.len() {
        false
    } else {
        kvd_scan(d, off as int, off + len, key)
    }
}

/// What [`Ktx2Header::parse`] returns for an accepted file.
pub open spec fn header_describes(h: Ktx2Header, d: Seq<u8>) -> bool {
    let f = resolve_format(d).unwrap();
    &&& h.width == hdr_width(d)
    &&& h.height == hdr_height(d)
    &&& h.layer_count == hdr_layer_count(d)
    &&& h.face_count == hdr_face_count(d)
    &&& h.level_count == hdr_level_count(d)
    &&& h.supercompression == hdr_supercompression(d)
    &&& h.format == f.0
    &&& h.has_alpha == f.1
    &&& h.astc_is_srgb == f.2
    &&& h.levels@ == Seq::new(hdr_level_count(d) as nat, |i: int| level_entry(d, i))
    &&& h.sgd_byte_offset == hdr_sgd_offset(d)
    &&& h.sgd_byte_length == hdr_sgd_length(d)
    &&& h.kvd_byte_offset == hdr_kvd_offset(d)
    &&& h.kvd_byte_length == hdr_kvd_length(d)
    &&& h.has_anim_key == kvd_has_key(d, hdr_kvd_offset(d), hdr_kvd_length(d), anim_key())
}

/// Read a little-endian u32 at byte offset `o`.
fn rd32(d: &[u8], o: usize) -> (r: u32)
    requires
        o + 4 <= d.len(),
    ensures
        r == le32(d@, o as int),
{
    (d[o] as u32) + (d[o + 1] as u32) * 0x100 + (d[o + 2] as u32) * 0x10000 + (d[o + 3] as u32)
        * 0x1000000
}

/// Read a little-endian u64 at byte offset `o`.
fn rd64(d: &[u8], o: usize) -> (r: u64)
    requires
        o + 8 <= d.len(),
    ensures
        r == le64(d@, o as int),
{
    let lo = rd32(d, o) as u64;
    let hi = rd32(d, o + 4) as u64;
    lo + hi * 0x1_0000_0000
}

/// Footprint of an ASTC LDR UNORM vkFormat.
fn astc_ldr_block_from_unorm_vk(vk: u32) -> (r: Option<AstcBlock>)
    ensures
        r == astc_block_of_unorm_vk(vk),
{
    match vk {
        157 => Some(AstcBlock::B4x4),
        159 => Some(AstcBlock::B5x4),
        161 => Some(AstcBlock::B5x5),
        163 => Some(AstcBlock::B6x5),
        165 => Some(AstcBlock::B6x6),
        167 => Some(AstcBlock::B8x5),
        169 => Some(AstcBlock::B8x6),
        171 => Some(AstcBlock::B8x8),
        173 => Some(AstcBlock::B10x5),
        175 => Some(AstcBlock::B10x6),
        177 => Some(AstcBlock::B10x8),
        179 => Some(AstcBlock::B10x10),
        181 => Some(AstcBlock::B12x10),
        183 => Some(AstcBlock::B12x12),
        _ => None,
    }
}

/// Whether `blob[start..start+len)`'s NUL-terminated prefix is `key`.
fn kv_entry_matches(d: &[u8], start: usize, len: usize, key: &[u8]) -> (r: bool)
    requires
        start + len <= d.len(),
    ensures
        r == kv_key_matches(d@.subrange(start as int, start + len), key@),
{
    let ghost blob = d@.subrange(start as int, start + len);
    // Locate the first NUL of the blob.
    let mut nul: usize = 0;
    while nul < len && d[start + nul] != 0
        invariant
            nul <= len,
            start + len <= d.len(),
            blob == d@.subrange(start as int, start + len),
            forall|j: int| 0 <= j < nul ==> blob[j] != 0,
        decreases len - nul,
    {
        nul = nul + 1;
    }
    if nul == len || nul != key.len() {
        proof {
            if kv_key_matches(blob, key@) {
                if nul < key.len() {
                    assert(blob.take(key.len() as int)[nul as int] == blob[nul as int]);
                }
            }
        }
        return false;
    }
    let mut i: usize = 0;
    while i < nul
        invariant
            i <= nul,
            nul == key@.len(),
            nul < len,
            start + len <= d.len(),
            blob == d@.subrange(start as int, start + len),
            forall|j: int| 0 <= j < nul ==> blob[j] != 0,
            blob[nul as int] == 0,
            forall|j: int| 0 <= j < i ==> blob[j] == key@[j],
        decreases nul - i,
    {
        if d[start + i] != key[i] {
            proof {
                assert(blob.take(nul as int)[i as int] == blob[i as int]);
            }
            return false;
        }
        i = i + 1;
    }
    proof {
        assert(blob.take(nul as int) =~= key@);
    }
    true
}

/// Scan the KTX2 key/value data for a NUL-terminated `key`. Each entry is a
/// `u32` byte length followed by `key\0value` padded up to a 4-byte boundary.
/// A malformed entry stops the scan and returns false.
fn has_kvd_key(data: &[u8], kvd_offset: u32, kvd_length: u32, key: &[u8]) -> (r: bool)
    ensures
        r == kvd_has_key(data@, kvd_offset, kvd_length, key@),
{
    if kvd_length == 0 {
        return false;
    }
    let end64 = kvd_offset as u64 + kvd_length as u64;
    if end64 > data.len() as u64 {
        return false;
    }
    let end = end64 as usize;
    let mut p = kvd_offset as usize;
    while p < end && end - p > 4
        invariant
            end <= data.len(),
            kvd_has_key(data@, kvd_offset, kvd_length, key@) == kvd_scan(data@, p as int, end as int, key@),
        decreases end - p,
    {
        let l = rd32(data, p) as usize;
        let q = p + 4;
        if l < 2 || end - q < l {
            return false;
        }
        if kv_entry_matches(data, q, l, key) {
            return true;
        }
        let r = q + l;
        // Advance to the next 4-byte boundary (relative to the file start).
        let pad = (4 - r % 4) % 4;
        if pad > end - r {
            return false;
        }
        p = r + pad;
    }
    false
}

/// Whether the file starts with the KTX2 identifier.
fn has_ktx2_magic(d: &[u8]) -> (r: bool)
    requires
        d.len() >= 12,
    ensures
        r == (d@.subrange(0, 12) == ktx2_magic()),
{
    let r = d[0] == 0xAB && d[1] == 0x4B && d[2] == 0x54 && d[3] == 0x58 && d[4] == 0x20 && d[5]
        == 0x32 && d[6] == 0x30 && d[7] == 0xBB && d[8] == 0x0D && d[9] == 0x0A && d[10] == 0x1A
        && d[11] == 0x0A;
    proof {
        if r {
            assert(d@.subrange(0, 12) =~= ktx2_magic());
        } else if d@.subrange(0, 12) == ktx2_magic() {
            assert(d@.subrange(0, 12)[0] == d@[0]);
            assert(d@.subrange(0, 12)[1] == d@[1]);
            assert(d@.subrange(0, 12)[2] == d@[2]);
            assert(d@.subrange(0, 12)[3] == d@[3]);
            assert(d@.subrange(0, 12)[4] == d@[4]);
            assert(d@.subrange(0, 12)[5] == d@[5]);
            assert(d@.subrange(0, 12)[6] == d@[6]);
            assert(d@.subrange(0, 12)[7] == d@[7]);
            assert(d@.subrange(0, 12)[8] == d@[8]);
            assert(d@.subrange(0, 12)[9] == d@[9]);
            assert(d@.subrange(0, 12)[10] == d@[10]);
            assert(d@.subrange(0, 12)[11] == d@[11]);
        }
    }
    r
}

/// The footprint with the given dimensions (the XUASTC DFD lookup).
fn astc_block_from_dfd_dims(w: u32, h: u32) -> (r: Option<AstcBlock>)
    ensures
        r == astc_block_of_dims(w, h),
{
    let r = AstcBlock::from_dims(w, h);
    proof {
        if let Some(b) = r {
            let c = choose|c: AstcBlock| astc_dims(c) == (w, h);
            lemma_astc_dims_injective(b, c);
        }
    }
    r
}

/// Decode the DFD fields the format resolution needs.
proof fn lemma_dfd_fields(bits: u32, tbd: u32, s0: u32)
    by (bit_vector)
    ensures
        bits & 255 == bits % 256,
        (bits >> 16) & 255 == (bits / 0x10000) % 256,
        tbd & 0xFF == tbd % 256,
        (tbd >> 8) & 0xFF == (tbd / 256) % 256,
        (s0 >> 24) & 15 == (s0 / 0x1000000) % 16,
{
}

/// Resolve the source codec from the vkFormat and the DFD (the DFD is known to
/// lie inside the file).
fn resolve_format_exec(data: &[u8], vk_format: u32, dfd_byte_offset: usize, dfd_byte_length: u32) -> (r:
    Option<(BasisFormat, bool, bool)>)
    requires
        data.len() >= 80,
        vk_format == hdr_vk_format(data@),
        dfd_byte_offset == hdr_dfd_offset(data@),
        dfd_byte_length == hdr_dfd_length(data@),
        dfd_byte_offset + 32 <= data.len(),
    ensures
        r == resolve_format(data@),
{
    let dfd_bits = rd32(data, dfd_byte_offset + 12);
    let texel_block_dimensions = rd32(data, dfd_byte_offset + 16);
    let sample_channel0 = rd32(data, dfd_byte_offset + 28);
    proof {
        lemma_dfd_fields(dfd_bits, texel_block_dimensions, sample_channel0);
    }
    let color_model = dfd_bits & 255;
    let dfd_block_width = (texel_block_dimensions & 0xFF) + 1;
    let dfd_block_height = ((texel_block_dimensions >> 8) & 0xFF) + 1;
    let chan0 = (sample_channel0 >> 24) & 15;
    let chan_alpha = chan0 == KTX2_DF_CHANNEL_UASTC_RGBA || chan0 == KTX2_DF_CHANNEL_UASTC_RRRG;
    let vk_is_astc_ldr = KTX2_FORMAT_ASTC_LDR_FIRST <= vk_format && vk_format
        <= KTX2_FORMAT_ASTC_LDR_LAST;
    if vk_is_astc_ldr {
        if color_model != KTX2_KDF_DF_MODEL_ASTC {
            return None;
        }
        // UNORM/SRGB twins alternate; even means sRGB.
        let is_srgb = vk_format % 2 == 0;
        let unorm = if is_srgb { vk_format - 1 } else { vk_format };
        let block = match astc_ldr_block_from_unorm_vk(unorm) {
            Some(b) => b,
            None => return None,
        };
        let (bw, bh) = block.dims();
        if bw != dfd_block_width || bh != dfd_block_height {
            return None;
        }
        Some((BasisFormat::AstcLdr(block), chan_alpha, is_srgb))
    } else if color_model == KTX2_KDF_DF_MODEL_ETC1S {
        if vk_format != 0 {
            return None;
        }
        // Two slices (alpha) <=> a 60-byte DFD.
        Some((BasisFormat::Etc1s, dfd_byte_length == 60, false))
    } else if color_model == KTX2_KDF_DF_MODEL_UASTC {
        if vk_format != 0 {
            return None;
        }
        Some((BasisFormat::Uastc, chan_alpha, false))
    } else if color_model == KTX2_KDF_DF_MODEL_UASTC_HDR_4X4 {
        if vk_format != KTX2_FORMAT_ASTC_4X4_SFLOAT_BLOCK {
            return None;
        }
        // Alpha is forced off for this codec regardless of the DFD channel.
        Some((BasisFormat::UastcHdr4x4, false, false))
    } else if color_model == KTX2_KDF_DF_MODEL_ASTC {
        // Raw ASTC with a non-LDR vkFormat: only the 6x6 SFLOAT format.
        if vk_format != KTX2_FORMAT_ASTC_6X6_SFLOAT_BLOCK {
            return None;
        }
        Some((BasisFormat::AstcHdr6x6, false, false))
    } else if color_model == KTX2_KDF_DF_MODEL_UASTC_HDR_6X6_INTERMEDIATE {
        if vk_format != 0 {
            return None;
        }
        Some((BasisFormat::UastcHdr6x6, false, false))
    } else if color_model == KTX2_KDF_DF_MODEL_XUASTC_LDR_INTERMEDIATE {
        // The ASTC block size comes from the DFD texel block dimensions.
        if vk_format != 0 {
            return None;
        }
        match astc_block_from_dfd_dims(dfd_block_width, dfd_block_height) {
            Some(b) => Some((BasisFormat::XuastcLdr(b), false, false)),
            None => None,
        }
    } else {
        None
    }
}

impl Ktx2Header {
    /// Parse a KTX2 file. Returns `None` if it is not a Basis Universal KTX2
    /// this crate transcodes (bad magic, an unsupported vkFormat or color
    /// model, or a texture shape this crate rejects: 1D/3D, DEFLATE
    /// supercompression, bad face/level counts).
    pub fn parse(data: &[u8]) -> (r: Option<Ktx2Header>)
        ensures
            r is Some <==> ktx2_accepts(data@),
            r matches Some(h) ==> header_describes(h, data@),
    {
        if data.len() < 80 || !has_ktx2_magic(data) {
            return None;
        }
        let vk_format = rd32(data, 12);
        let vk_is_astc_ldr = KTX2_FORMAT_ASTC_LDR_FIRST <= vk_format && vk_format
            <= KTX2_FORMAT_ASTC_LDR_LAST;
        if vk_format != 0 && vk_format != KTX2_FORMAT_ASTC_4X4_SFLOAT_BLOCK && vk_format
            != KTX2_FORMAT_ASTC_6X6_SFLOAT_BLOCK && !vk_is_astc_ldr {
            return None;
        }
        // KTX2 3.3: "When format is VK_FORMAT_UNDEFINED, typeSize must equal 1."
        if rd32(data, 16) != 1 {
            return None;
        }
        let width = rd32(data, 20);
        let height = rd32(data, 24);
        let depth = rd32(data, 28);
        let layer_count = rd32(data, 32);
        let face_count = rd32(data, 36);
        let level_count = rd32(data, 40);
        let supercompression = rd32(data, 44);
        // Only 2D textures (plain, cubemap, or array).
        if width < 1 || height < 1 || depth > 0 {
            return None;
        }
        // Faces are 1 or 6, and cubemaps must be square.
        if face_count != 1 && face_count != 6 {
            return None;
        }
        if face_count > 1 && width != height {
            return None;
        }
        if !(1 <= level_count && level_count <= KTX2_MAX_SUPPORTED_LEVEL_COUNT) {
            return None;
        }
        if supercompression > KTX2_SS_ZSTANDARD && supercompression != KTX2_SS_UASTC_HDR_6X6I
            && supercompression != KTX2_SS_XUASTC_LDR {
            return None;
        }
        let dfd_byte_offset = rd32(data, 48) as usize;
        let dfd_byte_length = rd32(data, 52);
        let kvd_byte_offset = rd32(data, 56);
        let kvd_byte_length = rd32(data, 60);
        let sgd_byte_offset = rd64(data, 64);
        let sgd_byte_length = rd64(data, 72);

        // Level index: level_count entries of 24 bytes at offset 80.
        let num_levels = level_count as usize;
        let li_end = 80 + num_levels * 24;
        if li_end > data.len() {
            return None;
        }
        let mut levels: Vec<LevelIndex> = Vec::with_capacity(num_levels);
        let mut i: usize = 0;
        while i < num_levels
            invariant
                num_levels == hdr_level_count(data@),
                80 + num_levels * 24 <= data.len(),
                supercompression == hdr_supercompression(data@),
                i <= num_levels,
                levels@ == Seq::new(i as nat, |k: int| level_entry(data@, k)),
                forall|k: int| 0 <= k < i ==> level_ok(supercompression, level_entry(data@, k)),
            decreases num_levels - i,
        {
            let o = 80 + i * 24;
            let l = LevelIndex {
                byte_offset: rd64(data, o),
                byte_length: rd64(data, o + 8),
                uncompressed_byte_length: rd64(data, o + 16),
            };
            proof {
                assert(l == level_entry(data@, i as int));
                if !level_ok(supercompression, l) {
                    assert(!levels_ok(data@));
                }
            }
            if supercompression == KTX2_SS_ZSTANDARD && l.uncompressed_byte_length == 0 {
                return None;
            }
            if (supercompression == KTX2_SS_BASISLZ || supercompression == KTX2_SS_UASTC_HDR_6X6I
                || supercompression == KTX2_SS_XUASTC_LDR) && l.uncompressed_byte_length != 0 {
                return None;
            }
            levels.push(l);
            proof {
                assert(levels@ =~= Seq::new((i + 1) as nat, |k: int| level_entry(data@, k)));
            }
            i = i + 1;
        }

        // Data Format Descriptor: only the two DFD sizes the encoder writes.
        if dfd_byte_length != 44 && dfd_byte_length != 60 {
            return None;
        }
        if dfd_byte_offset as u64 + 32 > data.len() as u64 {
            return None;
        }
        let dfd_bits = rd32(data, dfd_byte_offset + 12);
        proof {
            lemma_dfd_fields(dfd_bits, 0, 0);
        }
        let transfer_func = (dfd_bits >> 16) & 255;
        // KTX2 3.10.1: only linear and sRGB transfer functions.
        if transfer_func != KTX2_KHR_DF_TRANSFER_LINEAR && transfer_func
            != KTX2_KHR_DF_TRANSFER_SRGB {
            return None;
        }
        let (format, has_alpha, astc_is_srgb) = match resolve_format_exec(
            data,
            vk_format,
            dfd_byte_offset,
            dfd_byte_length,
        ) {
            Some(f) => f,
            None => return None,
        };
        let key: [u8; 11] = [75u8, 84u8, 88u8, 97u8, 110u8, 105u8, 109u8, 68u8, 97u8, 116u8, 97u8];
        proof {
            assert(key@ =~= anim_key());
        }
        let has_anim_key = has_kvd_key(data, kvd_byte_offset, kvd_byte_length, &key);
        Some(
            Ktx2Header {
                width,
                height,
                layer_count,
                face_count,
                level_count,
                supercompression,
                format,
                has_alpha,
                astc_is_srgb,
                levels,
                sgd_byte_offset,
                sgd_byte_length,
                kvd_byte_offset,
                kvd_byte_length,
                has_anim_key,
            },
        )
    }

    /// True if the payload is UASTC (LDR 4x4).
    pub fn is_uastc(&self) -> (r: bool)
        ensures
            r == (self.format == BasisFormat::Uastc),
    {
        self.format == BasisFormat::Uastc
    }
}

/// The ASTC LDR UNORM vkFormats name their footprints in Vulkan's order:
/// 157 is 4x4, then every second code the next of 5x4, 5x5, 6x5, 6x6, 8x5,
/// 8x6, 8x8, 10x5, 10x6, 10x8, 10x10, 12x10 and 12x12 (183); no other code
/// names a footprint.
pub proof fn lemma_astc_unorm_vk_footprints(vk: u32)
    ensures
        astc_block_of_unorm_vk(157) matches Some(b) && astc_dims(b) == (4u32, 4u32),
        astc_block_of_unorm_vk(159) matches Some(b) && astc_dims(b) == (5u32, 4u32),
        astc_block_of_unorm_vk(161) matches Some(b) && astc_dims(b) == (5u32, 5u32),
        astc_block_of_unorm_vk(163) matches Some(b) && astc_dims(b) == (6u32, 5u32),
        astc_block_of_unorm_vk(165) matches Some(b) && astc_dims(b) == (6u32, 6u32),
        astc_block_of_unorm_vk(167) matches Some(b) && astc_dims(b) == (8u32, 5u32),
        astc_block_of_unorm_vk(169) matches Some(b) && astc_dims(b) == (8u32, 6u32),
        astc_block_of_unorm_vk(171) matches Some(b) && astc_dims(b) == (8u32, 8u32),
        astc_block_of_unorm_vk(173) matches Some(b) && astc_dims(b) == (10u32, 5u32),
        astc_block_of_unorm_vk(175) matches Some(b) && astc_dims(b) == (10u32, 6u32),
        astc_block_of_unorm_vk(177) matches Some(b) && astc_dims(b) == (10u32, 8u32),
        astc_block_of_unorm_vk(179) matches Some(b) && astc_dims(b) == (10u32, 10u32),
        astc_block_of_unorm_vk(181) matches Some(b) && astc_dims(b) == (12u32, 10u32),
        astc_block_of_unorm_vk(183) matches Some(b) && astc_dims(b) == (12u32, 12u32),
        !(157 <= vk <= 183 && vk % 2 == 1) ==> astc_block_of_unorm_vk(vk) is None,
{
}

/// A file whose ASTC vkFormat (UNORM `v`, or its sRGB twin `v + 1`) and DFD
/// block size name the same footprint, ASTC colour model, is accepted as
/// ASTC LDR of that footprint, sRGB exactly for the even code.
pub proof fn lemma_astc_vk_agreeing_dfd_accepted(d: Seq<u8>, w: u32, h: u32)
    requires
        is_astc_ldr_vk(hdr_vk_format(d)),
        dfd_color_model(d) == KTX2_KDF_DF_MODEL_ASTC,
        dfd_block_width(d) == w,
        dfd_block_height(d) == h,
        ({
            let vk = hdr_vk_format(d);
            let unorm = if vk % 2 == 0 { (vk - 1) as u32 } else { vk };
            ||| unorm == 157 && w == 4 && h == 4
            ||| unorm == 159 && w == 5 && h == 4
            ||| unorm == 161 && w == 5 && h == 5
            ||| unorm == 163 && w == 6 && h == 5
            ||| unorm == 165 && w == 6 && h == 6
            ||| unorm == 167 && w == 8 && h == 5
            ||| unorm == 169 && w == 8 && h == 6
            ||| unorm == 171 && w == 8 && h == 8
            ||| unorm == 173 && w == 10 && h == 5
            ||| unorm == 175 && w == 10 && h == 6
            ||| unorm == 177 && w == 10 && h == 8
            ||| unorm == 179 && w == 10 && h == 10
            ||| unorm == 181 && w == 12 && h == 10
            ||| unorm == 183 && w == 12 && h == 12
        }),
    ensures
        resolve_format(d) matches Some((BasisFormat::AstcLdr(b), _, srgb)) && astc_dims(b) == (w, h)
            && srgb == (hdr_vk_format(d) % 2 == 0),
{
}

} // verus!
