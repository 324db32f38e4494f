//! What can go wrong.

use vstd::prelude::*;

verus! {

/// Why an operation of the scheme was refused.
#[derive(Debug)]
pub enum LemurError {
    /// An argument does not fit the public parameters; the text says how.
    InvalidEncoding(String),
    /// A signature, or an aggregate, was not accepted.
    VerifyFailed,
    /// No attempt of this many gave an aggregate that verifies.
    AggregationFailed(usize),
}

} // verus!
