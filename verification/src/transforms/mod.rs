//! Reversible byte-level transforms applied to a chunk before entropy coding.

pub mod analyzer;
pub mod delta;
pub mod dictionary;
pub mod entropy;
pub mod rle;
