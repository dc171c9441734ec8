//! A constant-product automated market maker over pairs of fungible assets,
//! with deterministic pool and position identifiers.

pub mod amm;
pub mod base64;
pub mod curve;
pub mod error;
pub mod ids;
pub mod lookup;
pub mod transfer;
pub mod uint256;
