//! Lookup tables used by the decoders: the shared single-color solution entry,
//! the ETC1S solution-table bundles and their registry, the BC1 single-color
//! match tables built in code, and the ETC1S grayscale to DXT5A entry shape.

pub mod bc1;
pub mod dxt5a;
pub mod lazy;
pub mod solution;
