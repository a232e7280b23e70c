//! Circuit gadgets for the Jubjub elliptic curve.
//!
//! This crate builds rank-1 constraint systems for twisted-Edwards point
//! arithmetic, windowed scalar multiplication and the Pedersen hash, and
//! parses the fixed-layout byte records that carry witness data into them.

pub mod bits;
pub mod boolean;
pub mod cs;
pub mod decode;
pub mod dispatch;
pub mod ecc;
pub mod error;
pub mod field;
pub mod lookup;
pub mod num;
pub mod params;
pub mod pedersen;
