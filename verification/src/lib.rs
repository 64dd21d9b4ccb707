//! Dark: a block compressor built from a Burrows-Wheeler transform, distance
//! coding and a binary range coder driven by adaptive models.

pub mod error;
pub mod suffix;
pub mod saca;
pub mod entropy;
pub mod bwt;
pub mod dc;
pub mod model;
pub mod block;
