//! Real-time re-encoders for decoded pixels: `etc1f` and `etc1_block` pack ETC1
//! color, `bc7f` packs and unpacks BC7 blocks, `bc7_head` routes a block to a
//! BC7 pipeline and gathers the statistics, extreme texels and candidate
//! choice the pipelines decide by, `bc7_patterns` fits BC7 partition patterns
//! to a block, and `bc6h_enc` holds the BC6H block analysis, anchor
//! normalisation, pattern choice, endpoint dequantizers and encoder settings.

pub mod bc6h_enc;
pub mod bc7_head;
pub mod bc7_patterns;
pub mod bc7f;
pub mod etc1_block;
pub mod etc1f;
