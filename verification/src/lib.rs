//! Perceptual image fingerprints and near-duplicate grouping.
//!
//! A fingerprint is a short, fixed-length bit string derived from the
//! low-frequency structure of an image. Two fingerprints are compared by
//! their Hamming distance, and a batch of fingerprinted images is clustered
//! into groups of near-duplicates with a disjoint-set forest.
//!
//! Every function in this crate carries a machine-checked contract.

pub mod bits;
pub mod connectivity;
pub mod duplicate;
pub mod error;
pub mod hash;
pub mod hex;
pub mod median;
pub mod partition;
pub mod reorder;
pub mod select;
pub mod text;
pub mod union_find;

pub use duplicate::{duplicates_only, group_duplicates, pixel_count, DuplicateGroup, ImageInfo};
pub use error::HashError;
pub use hash::{hamming_distance, HashAlgorithm, ImageHash};
