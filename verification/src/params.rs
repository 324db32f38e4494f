//! Sampler constants.
//!
//! The parameter sets stand in `profile`.  This module holds the precision of the discrete
//! Gaussian sampler at 128 bits of security.

use vstd::prelude::*;

verus! {

/// The precision in bits of the cumulative distribution table of the Gaussian sampler: 31 bits
/// that are compared and a sign bit, the lowest.
pub const GAUSS_CDT_BITS: usize = 32;

/// The precision of the Gaussian sampler in bytes.
pub const GAUSS_CDT_BYTES: usize = GAUSS_CDT_BITS / 8;

/// Where the tail of the Gaussian is cut, as a multiple of its deviation.
pub const GAUSS_TAILCUT: usize = 5;

/// The security parameter in bits.
pub const SECURITY_BITS: usize = 128;

} // verus!
