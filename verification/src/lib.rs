//! A verified core of a Basis Universal transcoder: the KTX2 container parser,
//! the PVRTC1 image-global encoder, the ETC1S solution-table bundles, the
//! source/target support matrix, the BC1 single-color match tables, and the
//! integer building blocks of the real-time ETC1, BC7 and BC6H packers.

pub mod api;
pub mod bitfield;
pub mod color;
pub mod fastenc;
pub mod ktx2;
pub mod pvrtc;
pub mod support;
pub mod tables;

use vstd::prelude::*;

verus! {

} // verus!
