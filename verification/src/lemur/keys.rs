//! Setup and key generation.

use crate::hvc::{BdsState, Hvc, HvcCom, HvcPp, Leaves};
use crate::kots::{Kots, KotsPk};
use crate::lemur::{LemurPk, LemurPp, LemurSk, LemurStateSk};
use crate::profile::Profile;
use vstd::prelude::*;

verus! {

/// The leaves of the tree of a signer: the one-time public keys of the slots, derived from the
/// master seed.
pub struct LeafSource<'a, K: Kots> {
    pub a: &'a K::A,
    pub master_seed: [u8; 32],
    pub profile: &'a Profile,
}

/// `leaf` is the one-time public key of slot `t`.
pub open spec fn is_leaf<K: Kots>(
    a: &K::A,
    master_seed: [u8; 32],
    profile: &Profile,
    t: usize,
    leaf: Vec<i64>,
) -> bool {
    exists|ss: [u8; 32], pk: KotsPk|
        #![trigger call_ensures(K::kots_pk_from_seed, (a, &ss, profile), pk)]
        call_ensures(K::slot_seed, (&master_seed, t), ss) && call_ensures(
            K::kots_pk_from_seed,
            (a, &ss, profile),
            pk,
        ) && leaf == pk.0
}

impl<'a, K: Kots> Leaves for LeafSource<'a, K> {
    fn leaf(&self, t: usize) -> (r: Vec<i64>)
        ensures
            is_leaf::<K>(self.a, self.master_seed, self.profile, t, r),
    {
        let ss = K::slot_seed(&self.master_seed, t);
        let pk = K::kots_pk_from_seed(self.a, &ss, self.profile);
        pk.0
    }
}

/// The leaves of the tree of a signer.
pub(crate) fn make_leaf_fn<'a, K: Kots, H: Hvc>(
    pp: &'a LemurPp<'a, K, H>,
    master_seed: [u8; 32],
) -> (r: LeafSource<'a, K>)
    ensures
        r == leaves_of(pp, master_seed),
{
    LeafSource { a: &pp.kots_a, master_seed, profile: pp.profile }
}

/// The leaves of the tree of a signer.
pub open spec fn leaves_of<'a, K: Kots, H: Hvc>(
    pp: &'a LemurPp<'a, K, H>,
    master_seed: [u8; 32],
) -> LeafSource<'a, K> {
    LeafSource { a: &pp.kots_a, master_seed, profile: pp.profile }
}

/// Public parameters that the two schemes set up from the seeds, for a tree of depth `tau`.
pub open spec fn is_setup<K: Kots, H: Hvc>(
    kots_seed: [u8; 32],
    hvc_seed: [u8; 32],
    profile: &Profile,
    tau: usize,
    pp: LemurPp<K, H>,
) -> bool {
    &&& call_ensures(K::kots_setup, (&kots_seed, profile), pp.kots_a)
    &&& call_ensures(H::hvc_setup_with_profile_and_tau, (&hvc_seed, profile, tau), pp.hvc_pp.key)
    &&& pp.hvc_pp.tau == tau
    &&& pp.kots_seed == kots_seed
    &&& pp.hvc_seed == hvc_seed
    &&& pp.profile == profile
}

/// Generates Lemur public parameters from the seeds of the two schemes.
pub fn lemur_setup_with_profile<'a, K: Kots, H: Hvc>(
    kots_seed: &[u8; 32],
    hvc_seed: &[u8; 32],
    profile: &'a Profile,
) -> (r: LemurPp<'a, K, H>)
    requires
        profile.wf(),
    ensures
        is_setup(*kots_seed, *hvc_seed, profile, profile.tau, r),
        call_ensures(K::kots_setup, (kots_seed, profile), r.kots_a),
        call_ensures(
            H::hvc_setup_with_profile_and_tau,
            (hvc_seed, profile, profile.tau),
            r.hvc_pp.key,
        ),
{
    lemur_setup_with_profile_and_tau(kots_seed, hvc_seed, profile, profile.tau)
}

/// Generates Lemur public parameters for a tree of depth `tau`.
pub fn lemur_setup_with_profile_and_tau<'a, K: Kots, H: Hvc>(
    kots_seed: &[u8; 32],
    hvc_seed: &[u8; 32],
    profile: &'a Profile,
    tau: usize,
) -> (r: LemurPp<'a, K, H>)
    requires
        profile.wf(),
    ensures
        is_setup(*kots_seed, *hvc_seed, profile, tau, r),
        call_ensures(K::kots_setup, (kots_seed, profile), r.kots_a),
        call_ensures(H::hvc_setup_with_profile_and_tau, (hvc_seed, profile, tau), r.hvc_pp.key),
{
    let kots_a = K::kots_setup(kots_seed, profile);
    let key = H::hvc_setup_with_profile_and_tau(hvc_seed, profile, tau);
    LemurPp {
        kots_a,
        hvc_pp: HvcPp { tau, key },
        kots_seed: *kots_seed,
        hvc_seed: *hvc_seed,
        profile,
    }
}

/// A stateful signer key from a master seed and the state of a traversal.
pub fn lemur_make_stateful_sk<H: Hvc>(master_seed: &[u8; 32], bds: BdsState<H>) -> (r: LemurStateSk<
    H,
>)
    ensures
        r.master_seed == *master_seed,
        r.bds == bds,
{
    LemurStateSk { master_seed: *master_seed, bds }
}

/// A secret key, a state at slot 0 and a public key from a master seed: the commitment to the
/// leaves and the cache come out of one walk of the tree.
pub open spec fn is_key_pair<K: Kots, H: Hvc>(
    pp: &LemurPp<K, H>,
    master_seed: [u8; 32],
    sk: LemurSk,
    state: LemurStateSk<H>,
    pk: LemurPk,
) -> bool {
    &&& sk.master_seed == master_seed
    &&& state.master_seed == master_seed
    &&& state.bds.h == pp.hvc_pp.tau
    &&& state.bds.phi == 0
    &&& call_ensures(
        H::bds_init::<LeafSource<K>>,
        (&pp.hvc_pp.key, pp.hvc_pp.tau, &leaves_of(pp, master_seed)),
        (pk.0, state.bds.cache),
    )
}

/// Generates a Lemur key pair from a master seed.
///
/// The commitment and the state of the traversal come out of one walk of the tree.  The state is
/// at slot 0.
pub fn lemur_keygen<K: Kots, H: Hvc>(pp: &LemurPp<K, H>, master_seed: &[u8; 32]) -> (r: (
    LemurSk,
    LemurStateSk<H>,
    LemurPk,
))
    ensures
        is_key_pair(pp, *master_seed, r.0, r.1, r.2),
{
    let leaves = make_leaf_fn(pp, *master_seed);
    let (c, cache) = H::bds_init(&pp.hvc_pp.key, pp.hvc_pp.tau, &leaves);
    let bds = BdsState { h: pp.hvc_pp.tau, phi: 0, cache };
    let sk = LemurSk { master_seed: *master_seed };
    let sk_state = lemur_make_stateful_sk(master_seed, bds);
    let pk = LemurPk(c);
    (sk, sk_state, pk)
}

} // verus!
