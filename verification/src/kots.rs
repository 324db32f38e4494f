//! The one-time signatures under a slot.

use crate::error::LemurError;
use crate::profile::Profile;
use vstd::prelude::*;

verus! {

/// A one-time public key, as coefficients.
pub struct KotsPk(pub Vec<i64>);

impl Clone for KotsPk {
    fn clone(&self) -> (r: Self)
        ensures
            r.0@ == self.0@,
    {
        let r = KotsPk(self.0.clone());
        assert(r.0@ =~= self.0@);
        r
    }
}

/// A one-time signature, or an aggregate of some: the coefficients of `m` polynomials.
pub struct KotsSig(pub Vec<i64>);

impl Clone for KotsSig {
    fn clone(&self) -> (r: Self)
        ensures
            r.0@ == self.0@,
    {
        let r = KotsSig(self.0.clone());
        assert(r.0@ =~= self.0@);
        r
    }
}

/// A scheme of one-time signatures.
pub trait Kots: Sized {
    /// The public matrix.
    type A: Sync;

    /// A one-time secret key.
    type Sk;

    /// The seed of a slot, from the master seed.
    fn slot_seed(master_seed: &[u8; 32], t: usize) -> [u8; 32];

    /// The public matrix, from a seed.
    fn kots_setup(seed: &[u8; 32], profile: &Profile) -> Self::A;

    /// The one-time key pair of a slot.
    fn kots_keygen(a: &Self::A, slot_seed: &[u8; 32], profile: &Profile) -> (Self::Sk, KotsPk);

    /// The one-time public key of a slot.
    fn kots_pk_from_seed(a: &Self::A, slot_seed: &[u8; 32], profile: &Profile) -> KotsPk;

    /// Signs a message.
    fn kots_sign(sk: &Self::Sk, msg: &[u8], profile: &Profile) -> KotsSig;

    /// Verifies one signature.
    fn kots_ivrfy(
        a: &Self::A,
        opk: &Vec<i64>,
        msg: &[u8],
        sig: &KotsSig,
        profile: &Profile,
    ) -> Result<(), LemurError>;

    /// Verifies an aggregate of signatures.
    fn kots_svrfy(
        a: &Self::A,
        opk: &Vec<i64>,
        msg: &[u8],
        sig: &KotsSig,
        profile: &Profile,
    ) -> Result<(), LemurError>;
}

} // verus!
