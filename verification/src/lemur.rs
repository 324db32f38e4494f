//! Top-level Lemur multi-signature scheme.

pub mod aggregate;
pub mod bench_internals;
pub mod combine;
pub mod keys;
pub mod scaling;
pub mod sign;
pub mod verify;

pub use crate::lemur::aggregate::lemur_aggregate;
pub use crate::lemur::combine::weighted_sum_commitments;
pub use crate::lemur::keys::{
    lemur_keygen, lemur_make_stateful_sk, lemur_setup_with_profile,
    lemur_setup_with_profile_and_tau,
};
pub use crate::lemur::scaling::{aggregate_vec_crt_ntt, scale_mat_crt, scale_vec_crt};
pub use crate::lemur::sign::{
    lemur_sign, lemur_sign_seed, lemur_sign_stateful, lemur_sign_stateful_mut,
};
pub use crate::lemur::verify::{lemur_avrfy, lemur_ivrfy};

use crate::hvc::{BdsState, Hvc, HvcCom, HvcPp};
use crate::kots::{Kots, KotsSig};
use crate::profile::Profile;
use vstd::prelude::*;

verus! {

/// Lemur public parameters.
///
/// The profile is the one from which the matrix and the key were expanded.
pub struct LemurPp<'a, K: Kots, H: Hvc> {
    pub kots_a: K::A,
    pub hvc_pp: HvcPp<H>,
    pub kots_seed: [u8; 32],
    pub hvc_seed: [u8; 32],
    pub profile: &'a Profile,
}

impl<'a, K: Kots, H: Hvc> Clone for LemurPp<'a, K, H> where K::A: Clone, H::Key: Clone {
    fn clone(&self) -> (r: Self)
        ensures
            cloned(self.kots_a, r.kots_a),
            cloned(self.hvc_pp.key, r.hvc_pp.key),
            r.hvc_pp.tau == self.hvc_pp.tau,
            r.kots_seed == self.kots_seed,
            r.hvc_seed == self.hvc_seed,
            r.profile == self.profile,
    {
        LemurPp {
            kots_a: self.kots_a.clone(),
            hvc_pp: HvcPp { tau: self.hvc_pp.tau, key: self.hvc_pp.key.clone() },
            kots_seed: self.kots_seed,
            hvc_seed: self.hvc_seed,
            profile: self.profile,
        }
    }
}

/// Lemur secret key: the master seed.  The one-time keys are derived from it on demand, and the
/// tree is rebuilt for every opening.
pub struct LemurSk {
    pub master_seed: [u8; 32],
}

impl Clone for LemurSk {
    fn clone(&self) -> (r: Self)
        ensures
            r == *self,
    {
        LemurSk { master_seed: self.master_seed }
    }
}

/// Lemur stateful signer key: the master seed and the state of the tree traversal.
///
/// The current slot is `bds.phi`; no other counter is kept.
pub struct LemurStateSk<H: Hvc> {
    pub master_seed: [u8; 32],
    pub bds: BdsState<H>,
}

/// Lemur public key: a commitment.
pub struct LemurPk(pub HvcCom);

impl Clone for LemurPk {
    fn clone(&self) -> (r: Self)
        ensures
            r.0.0@ == self.0.0@,
    {
        LemurPk(self.0.clone())
    }
}

/// Lemur individual signature.
pub struct LemurSig<H: Hvc> {
    pub z: KotsSig,
    pub opening: H::Opening,
}

/// Lemur aggregated signature.
pub struct LemurAggSig<H: Hvc> {
    pub z_agg: KotsSig,
    pub d_agg: H::Opening,
    pub attempt: usize,
}

} // verus!
