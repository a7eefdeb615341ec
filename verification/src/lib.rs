//! Geohash encoding, decoding and neighbor search, verified with Verus.
//!
//! A geohash spells the bits of a cell, most significant first, five bits
//! per character of the alphabet `0123456789bcdefghjkmnpqrstuvwxyz`; the
//! longitude bits stand at the even positions and the latitude bits at the
//! odd ones. Coordinates enter and leave the library in fixed-point form
//! (`fixed`): a value `x` in `[-1, 1)` (latitude / 90 or longitude / 180)
//! is held as the 64-bit number `2^63 + x * 2^63`.
pub mod base32;
pub mod bits;
pub mod code;
pub mod codec;
pub mod error;
pub mod fixed;
pub mod interleave;
pub mod laws;
pub mod neighbors;
pub mod std_specs;
pub mod stream;

pub use codec::{
    decode_fixed, decode_int_parts_fixed, encode_normalized_latitude,
    encode_uint128_parts_normalized_latitude, interleave_coordinates,
};
pub use error::GeohashError;
pub use fixed::{double_bits_to_i64, i64_to_double_bits, unit_bits_supported};
pub use neighbors::{decode_c2i, encode_i2c, neighbors};

use vstd::prelude::*;

verus! {

/// The number of bits in each part of the integer form of a cell.
pub const INT_UNIT: usize = 64;

} // verus!
