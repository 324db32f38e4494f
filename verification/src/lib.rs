//! Lemur: synchronized multi-signatures from lattices.
//!
//! Signers sign messages under time slots.  The signatures of many signers on one message under
//! one slot aggregate into one short signature.  A signature is a one-time signature under the key
//! of the slot, and an opening of a homomorphic commitment to the one-time public keys of all
//! slots.  An aggregate is the weighted sum of both, with ternary weights that are hashed from the
//! slot, the message and the public keys.

pub mod arith;
pub mod aux_ntt;
pub mod bytes;
pub mod call_laws;
pub mod error;
pub mod hvc;
pub mod kots;
pub mod laws;
pub mod lemur;
pub mod ntt;
pub mod parallel;
pub mod params;
pub mod poly;
pub mod profile;
pub mod residue;
pub mod ring;
pub mod sample;
pub mod scheme_laws;
pub mod step_laws;
pub mod text;
pub mod transform;
pub mod weighted;
