//! The switches of the real-time BC7 encoder.

use vstd::prelude::*;

verus! {

/// Try the two-subset modes on opaque blocks.
pub const USE_2_SUBSETS_RGB: u32 = 1;
/// Try the two-subset modes on blocks with alpha.
pub const USE_2_SUBSETS_RGBA: u32 = 2;
/// Try the three-subset modes on opaque blocks.
pub const USE_3_SUBSETS_RGB: u32 = 4;
/// Try the dual-plane modes on opaque blocks.
pub const USE_DUAL_PLANE_RGB: u32 = 8;
/// Try the dual-plane modes on blocks with alpha.
pub const USE_DUAL_PLANE_RGBA: u32 = 16;
/// Optimise the p-bits of the partitioned modes.
pub const PBIT_OPT: u32 = 32;
/// Optimise the p-bits of mode 6.
pub const PBIT_OPT_MODE6: u32 = 64;
/// Encode low-variance blocks with mode 6 straight from their extreme texels.
pub const USE_TRIVIAL_MODE6: u32 = 128;
/// Run the partially analytical pipeline on opaque blocks.
pub const PARTIALLY_ANALYTICAL_RGB: u32 = 256;
/// Run the partially analytical pipeline on blocks with alpha.
pub const PARTIALLY_ANALYTICAL_RGBA: u32 = 512;

/// The default flag set.
pub const DEFAULT: u32 = USE_2_SUBSETS_RGB | USE_2_SUBSETS_RGBA | USE_3_SUBSETS_RGB | USE_DUAL_PLANE_RGB
    | USE_DUAL_PLANE_RGBA | PBIT_OPT | PBIT_OPT_MODE6 | USE_TRIVIAL_MODE6;
/// The high-quality flag set: the default plus the partially analytical
/// pipelines.
pub const DEFAULT_PARTIALLY_ANALYTICAL: u32 = DEFAULT | PARTIALLY_ANALYTICAL_RGB | PARTIALLY_ANALYTICAL_RGBA;

} // verus!
