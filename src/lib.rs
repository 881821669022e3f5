//! Governance weight allocation: decoding packed asset identifiers, grouping
//! per-chain batched reads and scattering their results back by position, and
//! turning exact on-chain ratios into an integer allocation table whose rows
//! sum to a fixed capacity.
pub mod asset;
pub mod batch;
pub mod bytes;
pub mod normalize;
pub mod ratio;
pub mod resolve;
pub mod table;

pub use asset::{decode_asset_ids, AssetData};
pub use ratio::u256_division;
