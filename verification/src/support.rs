//! The source-codec by target-format validity matrix. With every codec feature
//! on, ETC1S can reach every LDR target and UASTC LDR lacks only a few niche
//! ones. HDR targets are reachable only from an HDR source, and vice versa: the
//! LDR sources carry no HDR data and the HDR sources have no LDR decode path.
//! A pair whose codec is not built is unsupported, whatever the matrix says.

use crate::api::{astc_passthrough, SourceFormat, TargetFormat};
use crate::tables::lazy::{ready_for, ready_spec, TableRegistry};
use vstd::prelude::*;

verus! {

/// Which optional codecs a build carries.
#[derive(Clone, Copy, PartialEq, Eq, Debug, Structural)]
pub struct BuildConfig {
    /// UASTC HDR 4x4, ASTC HDR 6x6 and UASTC HDR 6x6 decoding; the HDR targets.
    pub hdr: bool,
    /// Raw ASTC LDR decoding and the non-4x4 ASTC LDR targets.
    pub astc_ldr: bool,
    /// XUASTC LDR decoding.
    pub xuastc: bool,
    /// ETC1 and ETC2 targets.
    pub etc: bool,
    /// BC1, BC3, BC4, BC5 and BC7 targets.
    pub bc: bool,
    /// EAC R11 and RG11 targets.
    pub eac: bool,
    /// The ASTC 4x4 target.
    pub astc: bool,
    /// PVRTC1 targets.
    pub pvrtc1: bool,
    /// PVRTC2 targets.
    pub pvrtc2: bool,
    /// ATC targets.
    pub atc: bool,
    /// The FXT1 target.
    pub fxt1: bool,
    /// The packed 16-bit targets.
    pub packed: bool,
}

/// A build with every codec.
pub open spec fn all_codecs(c: BuildConfig) -> bool {
    c.hdr && c.astc_ldr && c.xuastc && c.etc && c.bc && c.eac && c.astc && c.pvrtc1 && c.pvrtc2 && c.atc && c.fxt1 && c.packed
}

/// Whether the build decodes `source` (ETC1S and UASTC LDR always).
pub open spec fn source_compiled_spec(c: BuildConfig, source: SourceFormat) -> bool {
    match source {
        SourceFormat::Etc1s | SourceFormat::UastcLdr => true,
        SourceFormat::UastcHdr4x4 | SourceFormat::AstcHdr6x6 | SourceFormat::UastcHdr6x6 => c.hdr,
        SourceFormat::AstcLdr(_) => c.astc_ldr,
        SourceFormat::XuastcLdr(_) => c.xuastc,
    }
}

/// The ASTC pass-through target of a raw ASTC or XUASTC source.
pub open spec fn source_passthrough(target: TargetFormat, source: SourceFormat) -> bool {
    match source {
        SourceFormat::AstcLdr(b) | SourceFormat::XuastcLdr(b) => target == astc_passthrough(b),
        _ => false,
    }
}

/// Whether the build encodes `target` (RGBA32 always; an ASTC pass-through
/// needs no encoder).
pub open spec fn target_compiled_spec(c: BuildConfig, target: TargetFormat, source: SourceFormat) -> bool {
    if source_passthrough(target, source) {
        true
    } else {
        match target {
            TargetFormat::Rgba32 => true,
            TargetFormat::Etc1Rgb | TargetFormat::Etc2Rgba => c.etc,
            TargetFormat::Bc1Rgb | TargetFormat::Bc3Rgba | TargetFormat::Bc4R | TargetFormat::Bc5Rg | TargetFormat::Bc7Rgba => c.bc,
            TargetFormat::EacR11 | TargetFormat::EacRg11 => c.eac,
            TargetFormat::Astc4x4Rgba => c.astc,
            TargetFormat::Pvrtc1_4Rgb | TargetFormat::Pvrtc1_4Rgba => c.pvrtc1,
            TargetFormat::Pvrtc2_4Rgb | TargetFormat::Pvrtc2_4Rgba => c.pvrtc2,
            TargetFormat::AtcRgb | TargetFormat::AtcRgba => c.atc,
            TargetFormat::Fxt1Rgb => c.fxt1,
            TargetFormat::Rgb565 | TargetFormat::Bgr565 | TargetFormat::Rgba4444 => c.packed,
            TargetFormat::Bc6h | TargetFormat::AstcHdr4x4Rgba | TargetFormat::RgbHalf | TargetFormat::RgbaHalf
            | TargetFormat::Rgb9e5 | TargetFormat::AstcHdr6x6Rgba => c.hdr,
            _ => c.astc_ldr,
        }
    }
}

/// Whether `target` is one of the ASTC pass-through targets (any block size,
/// LDR or HDR).
pub open spec fn is_astc_target_spec(target: TargetFormat) -> bool {
    match target {
        TargetFormat::Astc4x4Rgba | TargetFormat::AstcHdr6x6Rgba | TargetFormat::AstcLdr5x4Rgba
        | TargetFormat::AstcLdr5x5Rgba | TargetFormat::AstcLdr6x5Rgba | TargetFormat::AstcLdr6x6Rgba
        | TargetFormat::AstcLdr8x5Rgba | TargetFormat::AstcLdr8x6Rgba | TargetFormat::AstcLdr10x5Rgba
        | TargetFormat::AstcLdr10x6Rgba | TargetFormat::AstcLdr8x8Rgba | TargetFormat::AstcLdr10x8Rgba
        | TargetFormat::AstcLdr10x10Rgba | TargetFormat::AstcLdr12x10Rgba | TargetFormat::AstcLdr12x12Rgba => true,
        _ => false,
    }
}

/// Whether `target` holds HDR data.
pub open spec fn hdr_target(target: TargetFormat) -> bool {
    match target {
        TargetFormat::Bc6h | TargetFormat::AstcHdr4x4Rgba | TargetFormat::AstcHdr6x6Rgba | TargetFormat::RgbHalf
        | TargetFormat::RgbaHalf | TargetFormat::Rgb9e5 => true,
        _ => false,
    }
}

/// Whether `source` holds HDR data.
pub open spec fn hdr_source(source: SourceFormat) -> bool {
    match source {
        SourceFormat::UastcHdr4x4 | SourceFormat::AstcHdr6x6 | SourceFormat::UastcHdr6x6 => true,
        _ => false,
    }
}

/// A non-4x4 ASTC LDR pass-through target.
pub open spec fn non4x4_ldr_astc(target: TargetFormat) -> bool {
    is_astc_target_spec(target) && !hdr_target(target) && target != TargetFormat::Astc4x4Rgba
}

/// The validity matrix for a source other than XUASTC.
pub open spec fn matrix(target: TargetFormat, source: SourceFormat) -> bool {
    match source {
        SourceFormat::XuastcLdr(b) => false,
        SourceFormat::UastcLdr => !hdr_target(target) && !non4x4_ldr_astc(target) && !(match target {
            TargetFormat::Pvrtc2_4Rgb | TargetFormat::Pvrtc2_4Rgba | TargetFormat::AtcRgb | TargetFormat::AtcRgba
            | TargetFormat::Fxt1Rgb => true,
            _ => false,
        }),
        SourceFormat::Etc1s => !hdr_target(target) && !non4x4_ldr_astc(target),
        SourceFormat::UastcHdr4x4 => match target {
            TargetFormat::Bc6h | TargetFormat::AstcHdr4x4Rgba | TargetFormat::RgbHalf | TargetFormat::RgbaHalf
            | TargetFormat::Rgb9e5 => true,
            _ => false,
        },
        SourceFormat::AstcLdr(b) => target == astc_passthrough(b) || match target {
            TargetFormat::Etc1Rgb | TargetFormat::Etc2Rgba | TargetFormat::Bc1Rgb | TargetFormat::Bc3Rgba
            | TargetFormat::Bc4R | TargetFormat::Bc5Rg | TargetFormat::Bc7Rgba | TargetFormat::EacR11
            | TargetFormat::EacRg11 | TargetFormat::Pvrtc1_4Rgb | TargetFormat::Pvrtc1_4Rgba | TargetFormat::Rgba32
            | TargetFormat::Rgb565 | TargetFormat::Bgr565 | TargetFormat::Rgba4444 => true,
            _ => false,
        },
        SourceFormat::AstcHdr6x6 | SourceFormat::UastcHdr6x6 => match target {
            TargetFormat::AstcHdr6x6Rgba | TargetFormat::Bc6h | TargetFormat::RgbHalf | TargetFormat::RgbaHalf
            | TargetFormat::Rgb9e5 => true,
            _ => false,
        },
    }
}

/// Whether the build can transcode `source` to `target` without the XUASTC
/// deferral.
pub open spec fn supported_direct(c: BuildConfig, v: Seq<Option<Seq<crate::tables::solution::Etc1ToSolution>>>, target: TargetFormat, source: SourceFormat) -> bool {
    source_compiled_spec(c, source) && target_compiled_spec(c, target, source) && ready_spec(v, target, source) && matrix(target, source)
}

/// Whether the build can transcode `source` to `target`: XUASTC LDR defers to
/// the raw-ASTC LDR rule of its block size.
pub open spec fn supported(c: BuildConfig, v: Seq<Option<Seq<crate::tables::solution::Etc1ToSolution>>>, target: TargetFormat, source: SourceFormat) -> bool {
    match source {
        SourceFormat::XuastcLdr(b) => source_compiled_spec(c, source) && target_compiled_spec(c, target, source)
            && ready_spec(v, target, source) && supported_direct(c, v, target, SourceFormat::AstcLdr(b)),
        _ => supported_direct(c, v, target, source),
    }
}

/// Whether this build compiled the decoder for `source`.
fn source_compiled(c: &BuildConfig, source: SourceFormat) -> (r: bool)
    ensures
        r == source_compiled_spec(*c, source),
{
    match source {
        SourceFormat::Etc1s | SourceFormat::UastcLdr => true,
        SourceFormat::UastcHdr4x4 | SourceFormat::AstcHdr6x6 | SourceFormat::UastcHdr6x6 => c.hdr,
        SourceFormat::AstcLdr(_) => c.astc_ldr,
        SourceFormat::XuastcLdr(_) => c.xuastc,
    }
}

/// Whether this build compiled the encoder for `target`.
fn target_compiled(c: &BuildConfig, target: TargetFormat, source: SourceFormat) -> (r: bool)
    ensures
        r == target_compiled_spec(*c, target, source),
{
    let passthrough = match source {
        SourceFormat::AstcLdr(b) | SourceFormat::XuastcLdr(b) => target == b.passthrough_target(),
        _ => false,
    };
    if passthrough {
        return true;
    }
    match target {
        TargetFormat::Rgba32 => true,
        TargetFormat::Etc1Rgb | TargetFormat::Etc2Rgba => c.etc,
        TargetFormat::Bc1Rgb | TargetFormat::Bc3Rgba | TargetFormat::Bc4R | TargetFormat::Bc5Rg | TargetFormat::Bc7Rgba => c.bc,
        TargetFormat::EacR11 | TargetFormat::EacRg11 => c.eac,
        TargetFormat::Astc4x4Rgba => c.astc,
        TargetFormat::Pvrtc1_4Rgb | TargetFormat::Pvrtc1_4Rgba => c.pvrtc1,
        TargetFormat::Pvrtc2_4Rgb | TargetFormat::Pvrtc2_4Rgba => c.pvrtc2,
        TargetFormat::AtcRgb | TargetFormat::AtcRgba => c.atc,
        TargetFormat::Fxt1Rgb => c.fxt1,
        TargetFormat::Rgb565 | TargetFormat::Bgr565 | TargetFormat::Rgba4444 => c.packed,
        TargetFormat::Bc6h | TargetFormat::AstcHdr4x4Rgba | TargetFormat::RgbHalf | TargetFormat::RgbaHalf
        | TargetFormat::Rgb9e5 | TargetFormat::AstcHdr6x6Rgba => c.hdr,
        _ => c.astc_ldr,
    }
}

/// Whether `target` is one of the ASTC pass-through targets (any block size,
/// LDR or HDR).
fn is_astc_target(target: TargetFormat) -> (r: bool)
    ensures
        r == is_astc_target_spec(target),
{
    match target {
        TargetFormat::Astc4x4Rgba | TargetFormat::AstcHdr6x6Rgba | TargetFormat::AstcLdr5x4Rgba
        | TargetFormat::AstcLdr5x5Rgba | TargetFormat::AstcLdr6x5Rgba | TargetFormat::AstcLdr6x6Rgba
        | TargetFormat::AstcLdr8x5Rgba | TargetFormat::AstcLdr8x6Rgba | TargetFormat::AstcLdr10x5Rgba
        | TargetFormat::AstcLdr10x6Rgba | TargetFormat::AstcLdr8x8Rgba | TargetFormat::AstcLdr10x8Rgba
        | TargetFormat::AstcLdr10x10Rgba | TargetFormat::AstcLdr12x10Rgba | TargetFormat::AstcLdr12x12Rgba => true,
        _ => false,
    }
}

/// The support check for a source other than XUASTC.
fn is_format_supported_direct(c: &BuildConfig, reg: &TableRegistry, target: TargetFormat, source: SourceFormat) -> (r: bool)
    ensures
        r == supported_direct(*c, reg.slots_view(), target, source),
{
    if !source_compiled(c, source) || !target_compiled(c, target, source) {
        return false;
    }
    // An ETC1S target whose solution tables are supplied at runtime is
    // unsupported until they are installed.
    if !ready_for(reg, target, source) {
        return false;
    }
    let hdr_target = match target {
        TargetFormat::Bc6h | TargetFormat::AstcHdr4x4Rgba | TargetFormat::AstcHdr6x6Rgba | TargetFormat::RgbHalf
        | TargetFormat::RgbaHalf | TargetFormat::Rgb9e5 => true,
        _ => false,
    };
    // The non-4x4 ASTC LDR pass-through targets are reachable only from the
    // ASTC LDR source of the matching block size.
    let non4x4_ldr_astc = is_astc_target(target) && !hdr_target && target != TargetFormat::Astc4x4Rgba;
    match source {
        SourceFormat::XuastcLdr(_) => false,
        // UASTC LDR supports every LDR target except PVRTC2, ATC, FXT1, and
        // the non-4x4 ASTC pass-throughs.
        SourceFormat::UastcLdr => !hdr_target && !non4x4_ldr_astc && !match target {
            TargetFormat::Pvrtc2_4Rgb | TargetFormat::Pvrtc2_4Rgba | TargetFormat::AtcRgb | TargetFormat::AtcRgba
            | TargetFormat::Fxt1Rgb => true,
            _ => false,
        },
        // ETC1S reaches every LDR target except the non-4x4 ASTC pass-throughs.
        SourceFormat::Etc1s => !hdr_target && !non4x4_ldr_astc,
        // UASTC HDR 4x4 reaches exactly the 4x4-era HDR targets.
        SourceFormat::UastcHdr4x4 => match target {
            TargetFormat::Bc6h | TargetFormat::AstcHdr4x4Rgba | TargetFormat::RgbHalf | TargetFormat::RgbaHalf
            | TargetFormat::Rgb9e5 => true,
            _ => false,
        },
        // Raw ASTC LDR reaches 15 fixed LDR targets plus exactly the ASTC
        // pass-through target of its own block size.
        SourceFormat::AstcLdr(b) => target == b.passthrough_target() || match target {
            TargetFormat::Etc1Rgb | TargetFormat::Etc2Rgba | TargetFormat::Bc1Rgb | TargetFormat::Bc3Rgba
            | TargetFormat::Bc4R | TargetFormat::Bc5Rg | TargetFormat::Bc7Rgba | TargetFormat::EacR11
            | TargetFormat::EacRg11 | TargetFormat::Pvrtc1_4Rgb | TargetFormat::Pvrtc1_4Rgba | TargetFormat::Rgba32
            | TargetFormat::Rgb565 | TargetFormat::Bgr565 | TargetFormat::Rgba4444 => true,
            _ => false,
        },
        // The 6x6 HDR sources reach the 6x6 pass-through and the shared HDR
        // targets; ASTC HDR 4x4 is not valid from them.
        SourceFormat::AstcHdr6x6 | SourceFormat::UastcHdr6x6 => match target {
            TargetFormat::AstcHdr6x6Rgba | TargetFormat::Bc6h | TargetFormat::RgbHalf | TargetFormat::RgbaHalf
            | TargetFormat::Rgb9e5 => true,
            _ => false,
        },
    }
}

/// Whether `target` can be transcoded from `source` by a build with codecs
/// `c` and the solution tables of `reg`.
pub fn is_format_supported(c: &BuildConfig, reg: &TableRegistry, target: TargetFormat, source: SourceFormat) -> (r: bool)
    ensures
        r == supported(*c, reg.slots_view(), target, source),
{
    match source {
        // XUASTC LDR reaches exactly the raw-ASTC LDR target set: it defers to
        // the raw-ASTC LDR rule for its block size.
        SourceFormat::XuastcLdr(b) => {
            source_compiled(c, source) && target_compiled(c, target, source) && ready_for(reg, target, source)
                && is_format_supported_direct(c, reg, target, SourceFormat::AstcLdr(b))
        },
        _ => is_format_supported_direct(c, reg, target, source),
    }
}

/// HDR targets are reachable only from an HDR source, and vice versa.
pub proof fn lemma_hdr_only_from_hdr(c: BuildConfig, v: Seq<Option<Seq<crate::tables::solution::Etc1ToSolution>>>, target: TargetFormat, source: SourceFormat)
    requires
        supported(c, v, target, source),
    ensures
        hdr_target(target) == hdr_source(source),
{
}

/// With both ASTC LDR decoders built, XUASTC LDR reaches exactly the targets
/// raw ASTC LDR of the same block size reaches.
pub proof fn lemma_xuastc_matches_astc_ldr(c: BuildConfig, v: Seq<Option<Seq<crate::tables::solution::Etc1ToSolution>>>, target: TargetFormat, b: crate::api::AstcBlock)
    requires
        c.xuastc,
        c.astc_ldr,
    ensures
        supported(c, v, target, SourceFormat::XuastcLdr(b)) == supported(c, v, target, SourceFormat::AstcLdr(b)),
{
}

/// With every codec built and the tables installed, ETC1S reaches every LDR
/// target except the non-4x4 ASTC pass-throughs.
pub proof fn lemma_etc1s_reaches_ldr(c: BuildConfig, v: Seq<Option<Seq<crate::tables::solution::Etc1ToSolution>>>, target: TargetFormat)
    requires
        all_codecs(c),
        ready_spec(v, target, SourceFormat::Etc1s),
    ensures
        supported(c, v, target, SourceFormat::Etc1s) == (!hdr_target(target) && !non4x4_ldr_astc(target)),
{
}

/// UASTC LDR never reaches a PVRTC2, ATC or FXT1 target, nor an HDR target,
/// nor an ASTC pass-through other than 4x4, whatever the build.
pub proof fn lemma_uastc_ldr_excluded(c: BuildConfig, v: Seq<Option<Seq<crate::tables::solution::Etc1ToSolution>>>, t: TargetFormat)
    requires
        t == TargetFormat::Pvrtc2_4Rgb || t == TargetFormat::Pvrtc2_4Rgba || t == TargetFormat::AtcRgb
            || t == TargetFormat::AtcRgba || t == TargetFormat::Fxt1Rgb || t == TargetFormat::Bc6h
            || t == TargetFormat::AstcHdr4x4Rgba || t == TargetFormat::AstcHdr6x6Rgba || t == TargetFormat::RgbHalf
            || t == TargetFormat::RgbaHalf || t == TargetFormat::Rgb9e5 || t == TargetFormat::AstcLdr5x4Rgba
            || t == TargetFormat::AstcLdr5x5Rgba || t == TargetFormat::AstcLdr6x5Rgba || t == TargetFormat::AstcLdr6x6Rgba
            || t == TargetFormat::AstcLdr8x5Rgba || t == TargetFormat::AstcLdr8x6Rgba || t == TargetFormat::AstcLdr10x5Rgba
            || t == TargetFormat::AstcLdr10x6Rgba || t == TargetFormat::AstcLdr8x8Rgba || t == TargetFormat::AstcLdr10x8Rgba
            || t == TargetFormat::AstcLdr10x10Rgba || t == TargetFormat::AstcLdr12x10Rgba || t == TargetFormat::AstcLdr12x12Rgba,
    ensures
        !supported(c, v, t, SourceFormat::UastcLdr),
{
}

/// With every codec built and the tables it needs installed, UASTC LDR
/// reaches exactly these sixteen targets: RGBA32, ETC1, ETC2, BC1, BC3, BC4,
/// BC5, BC7, EAC R11 and RG11, ASTC 4x4, PVRTC1 RGB and RGBA, RGB565, BGR565
/// and RGBA4444.
pub proof fn lemma_uastc_ldr_targets(c: BuildConfig, v: Seq<Option<Seq<crate::tables::solution::Etc1ToSolution>>>, t: TargetFormat)
    requires
        all_codecs(c),
        ready_spec(v, t, SourceFormat::UastcLdr),
    ensures
        supported(c, v, t, SourceFormat::UastcLdr) == (t == TargetFormat::Rgba32 || t == TargetFormat::Etc1Rgb
            || t == TargetFormat::Etc2Rgba || t == TargetFormat::Bc1Rgb || t == TargetFormat::Bc3Rgba
            || t == TargetFormat::Bc4R || t == TargetFormat::Bc5Rg || t == TargetFormat::Bc7Rgba
            || t == TargetFormat::EacR11 || t == TargetFormat::EacRg11 || t == TargetFormat::Astc4x4Rgba
            || t == TargetFormat::Pvrtc1_4Rgb || t == TargetFormat::Pvrtc1_4Rgba || t == TargetFormat::Rgb565
            || t == TargetFormat::Bgr565 || t == TargetFormat::Rgba4444),
{
}

/// With every codec built and the tables it needs installed, ETC1S reaches
/// the sixteen UASTC LDR targets plus PVRTC2 RGB and RGBA, ATC RGB and RGBA
/// and FXT1.
pub proof fn lemma_etc1s_targets(c: BuildConfig, v: Seq<Option<Seq<crate::tables::solution::Etc1ToSolution>>>, t: TargetFormat)
    requires
        all_codecs(c),
        ready_spec(v, t, SourceFormat::Etc1s),
    ensures
        supported(c, v, t, SourceFormat::Etc1s) == (t == TargetFormat::Rgba32 || t == TargetFormat::Etc1Rgb
            || t == TargetFormat::Etc2Rgba || t == TargetFormat::Bc1Rgb || t == TargetFormat::Bc3Rgba
            || t == TargetFormat::Bc4R || t == TargetFormat::Bc5Rg || t == TargetFormat::Bc7Rgba
            || t == TargetFormat::EacR11 || t == TargetFormat::EacRg11 || t == TargetFormat::Astc4x4Rgba
            || t == TargetFormat::Pvrtc1_4Rgb || t == TargetFormat::Pvrtc1_4Rgba || t == TargetFormat::Rgb565
            || t == TargetFormat::Bgr565 || t == TargetFormat::Rgba4444 || t == TargetFormat::Pvrtc2_4Rgb
            || t == TargetFormat::Pvrtc2_4Rgba || t == TargetFormat::AtcRgb || t == TargetFormat::AtcRgba
            || t == TargetFormat::Fxt1Rgb),
{
}

/// With HDR decoding built, UASTC HDR 4x4 reaches exactly BC6H, ASTC HDR
/// 4x4, RGB and RGBA half and RGB9E5.
pub proof fn lemma_uastc_hdr4x4_targets(c: BuildConfig, v: Seq<Option<Seq<crate::tables::solution::Etc1ToSolution>>>, t: TargetFormat)
    requires
        all_codecs(c),
    ensures
        supported(c, v, t, SourceFormat::UastcHdr4x4) == (t == TargetFormat::Bc6h || t == TargetFormat::AstcHdr4x4Rgba
            || t == TargetFormat::RgbHalf || t == TargetFormat::RgbaHalf || t == TargetFormat::Rgb9e5),
{
}

/// With HDR decoding built, the 6x6 HDR sources reach exactly ASTC HDR 6x6,
/// BC6H, RGB and RGBA half and RGB9E5.
pub proof fn lemma_hdr6x6_targets(c: BuildConfig, v: Seq<Option<Seq<crate::tables::solution::Etc1ToSolution>>>, t: TargetFormat, s: SourceFormat)
    requires
        all_codecs(c),
        s == SourceFormat::AstcHdr6x6 || s == SourceFormat::UastcHdr6x6,
    ensures
        supported(c, v, t, s) == (t == TargetFormat::AstcHdr6x6Rgba || t == TargetFormat::Bc6h
            || t == TargetFormat::RgbHalf || t == TargetFormat::RgbaHalf || t == TargetFormat::Rgb9e5),
{
}

/// With raw ASTC LDR decoding built, ASTC LDR of footprint `b` reaches
/// exactly the fifteen fixed LDR targets and the ASTC target of width x
/// height `b`.
pub proof fn lemma_astc_ldr_targets(c: BuildConfig, v: Seq<Option<Seq<crate::tables::solution::Etc1ToSolution>>>, t: TargetFormat, b: crate::api::AstcBlock)
    requires
        all_codecs(c),
    ensures
        supported(c, v, t, SourceFormat::AstcLdr(b)) == (t == TargetFormat::Rgba32 || t == TargetFormat::Etc1Rgb
            || t == TargetFormat::Etc2Rgba || t == TargetFormat::Bc1Rgb || t == TargetFormat::Bc3Rgba
            || t == TargetFormat::Bc4R || t == TargetFormat::Bc5Rg || t == TargetFormat::Bc7Rgba
            || t == TargetFormat::EacR11 || t == TargetFormat::EacRg11
            || t == TargetFormat::Pvrtc1_4Rgb || t == TargetFormat::Pvrtc1_4Rgba || t == TargetFormat::Rgb565
            || t == TargetFormat::Bgr565 || t == TargetFormat::Rgba4444
            || (b == crate::api::AstcBlock::B4x4 && t == TargetFormat::Astc4x4Rgba)
            || (b == crate::api::AstcBlock::B5x4 && t == TargetFormat::AstcLdr5x4Rgba)
            || (b == crate::api::AstcBlock::B5x5 && t == TargetFormat::AstcLdr5x5Rgba)
            || (b == crate::api::AstcBlock::B6x5 && t == TargetFormat::AstcLdr6x5Rgba)
            || (b == crate::api::AstcBlock::B6x6 && t == TargetFormat::AstcLdr6x6Rgba)
            || (b == crate::api::AstcBlock::B8x5 && t == TargetFormat::AstcLdr8x5Rgba)
            || (b == crate::api::AstcBlock::B8x6 && t == TargetFormat::AstcLdr8x6Rgba)
            || (b == crate::api::AstcBlock::B10x5 && t == TargetFormat::AstcLdr10x5Rgba)
            || (b == crate::api::AstcBlock::B10x6 && t == TargetFormat::AstcLdr10x6Rgba)
            || (b == crate::api::AstcBlock::B8x8 && t == TargetFormat::AstcLdr8x8Rgba)
            || (b == crate::api::AstcBlock::B10x8 && t == TargetFormat::AstcLdr10x8Rgba)
            || (b == crate::api::AstcBlock::B10x10 && t == TargetFormat::AstcLdr10x10Rgba)
            || (b == crate::api::AstcBlock::B12x10 && t == TargetFormat::AstcLdr12x10Rgba)
            || (b == crate::api::AstcBlock::B12x12 && t == TargetFormat::AstcLdr12x12Rgba)),
{
}

/// A supported pair has its codecs built: the source's decoder (UASTC HDR
/// 4x4 and the 6x6 HDR sources need HDR, raw ASTC LDR needs ASTC LDR, XUASTC
/// needs XUASTC) and the target's encoder (ETC1/ETC2 need ETC, BC1-BC7 need
/// BC, EAC needs EAC, PVRTC1, PVRTC2, ATC, FXT1 and the packed 16-bit formats
/// their own codecs, the HDR targets HDR); the ASTC 4x4 target needs the ASTC
/// encoder unless the source is ASTC 4x4 itself, copied through.
pub proof fn lemma_supported_needs_codecs(c: BuildConfig, v: Seq<Option<Seq<crate::tables::solution::Etc1ToSolution>>>, t: TargetFormat, s: SourceFormat)
    requires
        supported(c, v, t, s),
    ensures
        (s == SourceFormat::UastcHdr4x4 || s == SourceFormat::AstcHdr6x6 || s == SourceFormat::UastcHdr6x6) ==> c.hdr,
        s is AstcLdr ==> c.astc_ldr,
        s is XuastcLdr ==> c.xuastc,
        (t == TargetFormat::Etc1Rgb || t == TargetFormat::Etc2Rgba) ==> c.etc,
        (t == TargetFormat::Bc1Rgb || t == TargetFormat::Bc3Rgba || t == TargetFormat::Bc4R || t == TargetFormat::Bc5Rg
            || t == TargetFormat::Bc7Rgba) ==> c.bc,
        (t == TargetFormat::EacR11 || t == TargetFormat::EacRg11) ==> c.eac,
        (t == TargetFormat::Pvrtc1_4Rgb || t == TargetFormat::Pvrtc1_4Rgba) ==> c.pvrtc1,
        (t == TargetFormat::Pvrtc2_4Rgb || t == TargetFormat::Pvrtc2_4Rgba) ==> c.pvrtc2,
        (t == TargetFormat::AtcRgb || t == TargetFormat::AtcRgba) ==> c.atc,
        t == TargetFormat::Fxt1Rgb ==> c.fxt1,
        (t == TargetFormat::Rgb565 || t == TargetFormat::Bgr565 || t == TargetFormat::Rgba4444) ==> c.packed,
        (t == TargetFormat::Bc6h || t == TargetFormat::AstcHdr4x4Rgba || t == TargetFormat::RgbHalf
            || t == TargetFormat::RgbaHalf || t == TargetFormat::Rgb9e5) ==> c.hdr,
        (t == TargetFormat::Astc4x4Rgba && s != SourceFormat::AstcLdr(crate::api::AstcBlock::B4x4)
            && s != SourceFormat::XuastcLdr(crate::api::AstcBlock::B4x4)) ==> c.astc,
{
}

} // verus!
