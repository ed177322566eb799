//! The public vocabulary shared by the container parser, the support matrix and
//! the table registry: ASTC block footprints, source codecs and GPU targets.

use vstd::prelude::*;

verus! {

/// An ASTC block footprint (width x height in texels).
#[derive(Clone, Copy, PartialEq, Eq, Debug, Structural)]
pub enum AstcBlock {
    B4x4,
    B5x4,
    B5x5,
    B6x5,
    B6x6,
    B8x5,
    B8x6,
    B10x5,
    B10x6,
    B8x8,
    B10x8,
    B10x10,
    B12x10,
    B12x12,
}

/// The footprint of a block as `(width, height)`.
pub open spec fn astc_dims(b: AstcBlock) -> (u32, u32) {
    match b {
        AstcBlock::B4x4 => (4, 4),
        AstcBlock::B5x4 => (5, 4),
        AstcBlock::B5x5 => (5, 5),
        AstcBlock::B6x5 => (6, 5),
        AstcBlock::B6x6 => (6, 6),
        AstcBlock::B8x5 => (8, 5),
        AstcBlock::B8x6 => (8, 6),
        AstcBlock::B10x5 => (10, 5),
        AstcBlock::B10x6 => (10, 6),
        AstcBlock::B8x8 => (8, 8),
        AstcBlock::B10x8 => (10, 8),
        AstcBlock::B10x10 => (10, 10),
        AstcBlock::B12x10 => (12, 10),
        AstcBlock::B12x12 => (12, 12),
    }
}

/// The ASTC pass-through target of a footprint.
pub open spec fn astc_passthrough(b: AstcBlock) -> TargetFormat {
    match b {
        AstcBlock::B4x4 => TargetFormat::Astc4x4Rgba,
        AstcBlock::B5x4 => TargetFormat::AstcLdr5x4Rgba,
        AstcBlock::B5x5 => TargetFormat::AstcLdr5x5Rgba,
        AstcBlock::B6x5 => TargetFormat::AstcLdr6x5Rgba,
        AstcBlock::B6x6 => TargetFormat::AstcLdr6x6Rgba,
        AstcBlock::B8x5 => TargetFormat::AstcLdr8x5Rgba,
        AstcBlock::B8x6 => TargetFormat::AstcLdr8x6Rgba,
        AstcBlock::B10x5 => TargetFormat::AstcLdr10x5Rgba,
        AstcBlock::B10x6 => TargetFormat::AstcLdr10x6Rgba,
        AstcBlock::B8x8 => TargetFormat::AstcLdr8x8Rgba,
        AstcBlock::B10x8 => TargetFormat::AstcLdr10x8Rgba,
        AstcBlock::B10x10 => TargetFormat::AstcLdr10x10Rgba,
        AstcBlock::B12x10 => TargetFormat::AstcLdr12x10Rgba,
        AstcBlock::B12x12 => TargetFormat::AstcLdr12x12Rgba,
    }
}

/// Two distinct footprints never share dimensions.
pub proof fn lemma_astc_dims_injective(a: AstcBlock, b: AstcBlock)
    requires
        astc_dims(a) == astc_dims(b),
    ensures
        a == b,
{
}

impl AstcBlock {
    /// Block footprint `(width, height)` in texels.
    pub fn dims(self) -> (r: (u32, u32))
        ensures
            r == astc_dims(self),
    {
        match self {
            AstcBlock::B4x4 => (4, 4),
            AstcBlock::B5x4 => (5, 4),
            AstcBlock::B5x5 => (5, 5),
            AstcBlock::B6x5 => (6, 5),
            AstcBlock::B6x6 => (6, 6),
            AstcBlock::B8x5 => (8, 5),
            AstcBlock::B8x6 => (8, 6),
            AstcBlock::B10x5 => (10, 5),
            AstcBlock::B10x6 => (10, 6),
            AstcBlock::B8x8 => (8, 8),
            AstcBlock::B10x8 => (10, 8),
            AstcBlock::B10x10 => (10, 10),
            AstcBlock::B12x10 => (12, 10),
            AstcBlock::B12x12 => (12, 12),
        }
    }

    /// The footprint with the given dimensions, if it is one of the fourteen
    /// valid ASTC block sizes.
    pub fn from_dims(w: u32, h: u32) -> (r: Option<AstcBlock>)
        ensures
            match r {
                Some(b) => astc_dims(b) == (w, h),
                None => forall|b: AstcBlock| astc_dims(b) != (w, h),
            },
    {
        let r = match (w, h) {
            (4, 4) => Some(AstcBlock::B4x4),
            (5, 4) => Some(AstcBlock::B5x4),
            (5, 5) => Some(AstcBlock::B5x5),
            (6, 5) => Some(AstcBlock::B6x5),
            (6, 6) => Some(AstcBlock::B6x6),
            (8, 5) => Some(AstcBlock::B8x5),
            (8, 6) => Some(AstcBlock::B8x6),
            (10, 5) => Some(AstcBlock::B10x5),
            (10, 6) => Some(AstcBlock::B10x6),
            (8, 8) => Some(AstcBlock::B8x8),
            (10, 8) => Some(AstcBlock::B10x8),
            (10, 10) => Some(AstcBlock::B10x10),
            (12, 10) => Some(AstcBlock::B12x10),
            (12, 12) => Some(AstcBlock::B12x12),
            _ => None,
        };
        proof {
            if r is None {
                assert forall|b: AstcBlock| astc_dims(b) != (w, h) by {
                    match b {
                        _ => {},
                    }
                }
            }
        }
        r
    }

    /// The ASTC target that copies this footprint's blocks through unchanged.
    pub fn passthrough_target(self) -> (r: TargetFormat)
        ensures
            r == astc_passthrough(self),
    {
        match self {
            AstcBlock::B4x4 => TargetFormat::Astc4x4Rgba,
            AstcBlock::B5x4 => TargetFormat::AstcLdr5x4Rgba,
            AstcBlock::B5x5 => TargetFormat::AstcLdr5x5Rgba,
            AstcBlock::B6x5 => TargetFormat::AstcLdr6x5Rgba,
            AstcBlock::B6x6 => TargetFormat::AstcLdr6x6Rgba,
            AstcBlock::B8x5 => TargetFormat::AstcLdr8x5Rgba,
            AstcBlock::B8x6 => TargetFormat::AstcLdr8x6Rgba,
            AstcBlock::B10x5 => TargetFormat::AstcLdr10x5Rgba,
            AstcBlock::B10x6 => TargetFormat::AstcLdr10x6Rgba,
            AstcBlock::B8x8 => TargetFormat::AstcLdr8x8Rgba,
            AstcBlock::B10x8 => TargetFormat::AstcLdr10x8Rgba,
            AstcBlock::B10x10 => TargetFormat::AstcLdr10x10Rgba,
            AstcBlock::B12x10 => TargetFormat::AstcLdr12x10Rgba,
            AstcBlock::B12x12 => TargetFormat::AstcLdr12x12Rgba,
        }
    }
}

/// A GPU (or uncompressed) format a texture can be transcoded to.
#[derive(Clone, Copy, PartialEq, Eq, Debug, Structural)]
pub enum TargetFormat {
    Rgba32,
    Etc1Rgb,
    Etc2Rgba,
    Bc1Rgb,
    Bc3Rgba,
    Bc4R,
    Bc5Rg,
    Bc7Rgba,
    EacR11,
    EacRg11,
    Astc4x4Rgba,
    Pvrtc1_4Rgb,
    Pvrtc1_4Rgba,
    Pvrtc2_4Rgb,
    Pvrtc2_4Rgba,
    AtcRgb,
    AtcRgba,
    Fxt1Rgb,
    Rgb565,
    Bgr565,
    Rgba4444,
    Bc6h,
    AstcHdr4x4Rgba,
    RgbHalf,
    RgbaHalf,
    Rgb9e5,
    AstcHdr6x6Rgba,
    AstcLdr5x4Rgba,
    AstcLdr5x5Rgba,
    AstcLdr6x5Rgba,
    AstcLdr6x6Rgba,
    AstcLdr8x5Rgba,
    AstcLdr8x6Rgba,
    AstcLdr10x5Rgba,
    AstcLdr10x6Rgba,
    AstcLdr8x8Rgba,
    AstcLdr10x8Rgba,
    AstcLdr10x10Rgba,
    AstcLdr12x10Rgba,
    AstcLdr12x12Rgba,
}

/// The codec a texture's payload is stored in.
#[derive(Clone, Copy, PartialEq, Eq, Debug, Structural)]
pub enum SourceFormat {
    Etc1s,
    UastcLdr,
    UastcHdr4x4,
    AstcLdr(AstcBlock),
    AstcHdr6x6,
    UastcHdr6x6,
    XuastcLdr(AstcBlock),
}

} // verus!
