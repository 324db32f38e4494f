//! What the calls of the scheme do, in terms of what the one-time signatures and the commitments
//! answer.

use crate::error::LemurError;
use crate::hvc::{BdsState, Hvc, HvcCom, Leaves};
use crate::kots::{Kots, KotsPk, KotsSig};
use crate::lemur::aggregate;
use crate::lemur::bench_internals;
use crate::lemur::combine;
use crate::lemur::keys;
use crate::lemur::keys::LeafSource;
use crate::lemur::sign;
use crate::lemur::verify;
use crate::lemur::{LemurAggSig, LemurPk, LemurPp, LemurSig, LemurSk, LemurStateSk};
use crate::profile::Profile;
use crate::scheme_laws;
use crate::text;
use crate::weighted;
use vstd::arithmetic::power2::*;
use vstd::prelude::*;

verus! {

/// Set-up for a depth expands the matrix from the seed of the one-time signatures and the key from
/// the seed of the commitments, and keeps both seeds, the profile and the depth.
pub proof fn law_setup_expands_seeds<K: Kots, H: Hvc>(
    kots_seed: &[u8; 32],
    hvc_seed: &[u8; 32],
    profile: &Profile,
    tau: usize,
    pp: LemurPp<K, H>,
)
    requires
        call_ensures(
            keys::lemur_setup_with_profile_and_tau::<K, H>,
            (kots_seed, hvc_seed, profile, tau),
            pp,
        ),
    ensures
        call_ensures(K::kots_setup, (kots_seed, profile), pp.kots_a),
        call_ensures(
            H::hvc_setup_with_profile_and_tau,
            (hvc_seed, profile, tau),
            pp.hvc_pp.key,
        ),
        pp.kots_seed == *kots_seed,
        pp.hvc_seed == *hvc_seed,
        pp.profile == profile,
        pp.hvc_pp.tau == tau,
{
}

/// Set-up without a depth is set-up for the depth of the profile: the matrix and the key are
/// expanded from their own seeds.
pub proof fn law_setup_has_depth_of_profile<K: Kots, H: Hvc>(
    kots_seed: &[u8; 32],
    hvc_seed: &[u8; 32],
    profile: &Profile,
    pp: LemurPp<K, H>,
)
    requires
        call_ensures(
            keys::lemur_setup_with_profile::<K, H>,
            (kots_seed, hvc_seed, profile),
            pp,
        ),
    ensures
        call_ensures(K::kots_setup, (kots_seed, profile), pp.kots_a),
        call_ensures(
            H::hvc_setup_with_profile_and_tau,
            (hvc_seed, profile, profile.tau),
            pp.hvc_pp.key,
        ),
        pp.kots_seed == *kots_seed,
        pp.hvc_seed == *hvc_seed,
        pp.profile == profile,
        pp.hvc_pp.tau == profile.tau,
{
}

/// The matrix depends on the seed of the one-time signatures alone: two set-ups from that seed
/// have the same matrix, whatever the seed of the commitments and the depth.
pub proof fn law_matrix_from_its_seed<K: Kots, H: Hvc>(
    kots_seed: &[u8; 32],
    hvc_seed1: &[u8; 32],
    hvc_seed2: &[u8; 32],
    profile: &Profile,
    tau1: usize,
    tau2: usize,
    pp1: LemurPp<K, H>,
    pp2: LemurPp<K, H>,
)
    requires
        scheme_laws::kots_functional::<K>(),
        call_ensures(
            keys::lemur_setup_with_profile_and_tau::<K, H>,
            (kots_seed, hvc_seed1, profile, tau1),
            pp1,
        ),
        call_ensures(
            keys::lemur_setup_with_profile_and_tau::<K, H>,
            (kots_seed, hvc_seed2, profile, tau2),
            pp2,
        ),
    ensures
        pp1.kots_a == pp2.kots_a,
{
}

/// The commitment key depends on the seed of the commitments and the depth alone: two set-ups from
/// that seed for one depth have the same key, whatever the seed of the one-time signatures.
pub proof fn law_key_from_its_seed<K: Kots, H: Hvc>(
    kots_seed1: &[u8; 32],
    kots_seed2: &[u8; 32],
    hvc_seed: &[u8; 32],
    profile: &Profile,
    tau: usize,
    pp1: LemurPp<K, H>,
    pp2: LemurPp<K, H>,
)
    requires
        scheme_laws::hvc_functional::<K, H>(),
        call_ensures(
            keys::lemur_setup_with_profile_and_tau::<K, H>,
            (kots_seed1, hvc_seed, profile, tau),
            pp1,
        ),
        call_ensures(
            keys::lemur_setup_with_profile_and_tau::<K, H>,
            (kots_seed2, hvc_seed, profile, tau),
            pp2,
        ),
    ensures
        pp1.hvc_pp.key == pp2.hvc_pp.key,
{
}

/// The parameters can be rebuilt from the seeds that they store: set-up from the stored seeds, for
/// the stored depth, gives the same parameters.
pub proof fn law_setup_from_stored_seeds<K: Kots, H: Hvc>(
    kots_seed: &[u8; 32],
    hvc_seed: &[u8; 32],
    profile: &Profile,
    tau: usize,
    pp: LemurPp<K, H>,
    again: LemurPp<K, H>,
    a: K::A,
    key: H::Key,
)
    requires
        scheme_laws::kots_functional::<K>(),
        scheme_laws::hvc_functional::<K, H>(),
        call_ensures(
            keys::lemur_setup_with_profile_and_tau::<K, H>,
            (kots_seed, hvc_seed, profile, tau),
            pp,
        ),
        call_ensures(
            keys::lemur_setup_with_profile_and_tau::<K, H>,
            (&pp.kots_seed, &pp.hvc_seed, pp.profile, pp.hvc_pp.tau),
            again,
        ),
        call_ensures(K::kots_setup, (&pp.kots_seed, pp.profile), a),
        call_ensures(
            H::hvc_setup_with_profile_and_tau,
            (&pp.hvc_seed, pp.profile, pp.hvc_pp.tau),
            key,
        ),
    ensures
        again == pp,
        pp.kots_a == a,
        pp.hvc_pp.key == key,
{
}

/// The leaves of a signer are the one-time public keys of the slots, each derived from the whole
/// master seed and from its slot.
pub proof fn law_leaves_are_slot_keys<K: Kots, H: Hvc>(
    pp: &LemurPp<K, H>,
    master_seed: [u8; 32],
    t: usize,
    leaf: Vec<i64>,
)
    requires
        call_ensures(LeafSource::<K>::leaf, (&keys::leaves_of(pp, master_seed), t), leaf),
    ensures
        exists|seed: [u8; 32], key: KotsPk|
            call_ensures(K::slot_seed, (&master_seed, t), seed) && #[trigger] call_ensures(
                K::kots_pk_from_seed,
                (&pp.kots_a, &seed, pp.profile),
                key,
            ) && leaf == key.0,
{
}

/// A key generation starts at slot 0 of a tree of the depth of the parameters, and the leaves that
/// it commits to are the one-time public keys of the slots, each derived from the whole master
/// seed that was given and from its slot.
pub proof fn law_keygen_commits_to_slot_keys<K: Kots, H: Hvc>(
    pp: &LemurPp<K, H>,
    master_seed: &[u8; 32],
    sk: LemurSk,
    state: LemurStateSk<H>,
    pk: LemurPk,
)
    requires
        call_ensures(keys::lemur_keygen::<K, H>, (pp, master_seed), (sk, state, pk)),
    ensures
        sk.master_seed == *master_seed,
        state.master_seed == *master_seed,
        state.bds.h == pp.hvc_pp.tau,
        state.bds.phi == 0,
        exists|leaves: LeafSource<K>|
            #[trigger] call_ensures(
                H::bds_init::<LeafSource<K>>,
                (&pp.hvc_pp.key, pp.hvc_pp.tau, &leaves),
                (pk.0, state.bds.cache),
            ) && forall|slot: usize, leaf: Vec<i64>|
                #[trigger] call_ensures(LeafSource::<K>::leaf, (&leaves, slot), leaf) ==> exists|
                    seed: [u8; 32],
                    key: KotsPk,
                |
                    call_ensures(K::slot_seed, (master_seed, slot), seed) && #[trigger] call_ensures(
                        K::kots_pk_from_seed,
                        (&pp.kots_a, &seed, pp.profile),
                        key,
                    ) && leaf == key.0,
{
    assert(call_ensures(
        H::bds_init::<LeafSource<K>>,
        (&pp.hvc_pp.key, pp.hvc_pp.tau, &keys::leaves_of(pp, *master_seed)),
        (pk.0, state.bds.cache),
    ));
}

/// A signature at a slot is a one-time signature of the whole message under the key of that slot,
/// and the opening at that slot of the tree over the one-time public keys of the same signer.
pub proof fn law_signature_is_of_its_slot<K: Kots, H: Hvc>(
    pp: &LemurPp<K, H>,
    sk: &LemurSk,
    t: usize,
    msg: &[u8],
    sig: LemurSig<H>,
)
    requires
        call_ensures(sign::lemur_sign_seed::<K, H>, (pp, sk, t, msg), sig) || call_ensures(
            sign::lemur_sign::<K, H>,
            (pp, sk, t, msg),
            sig,
        ),
    ensures
        exists|ss: [u8; 32], osk: K::Sk, opk: KotsPk, leaves: LeafSource<K>|
            #![trigger
                call_ensures(K::kots_keygen, (&pp.kots_a, &ss, pp.profile), (osk, opk)),
                call_ensures(
                    H::hvc_open_with_known_leaf::<LeafSource<K>>,
                    (&pp.hvc_pp.key, pp.hvc_pp.tau, t, &opk.0, &leaves),
                    sig.opening,
                )]
            call_ensures(K::slot_seed, (&sk.master_seed, t), ss) && call_ensures(
                K::kots_keygen,
                (&pp.kots_a, &ss, pp.profile),
                (osk, opk),
            ) && call_ensures(K::kots_sign, (&osk, msg, pp.profile), sig.z) && call_ensures(
                H::hvc_open_with_known_leaf::<LeafSource<K>>,
                (&pp.hvc_pp.key, pp.hvc_pp.tau, t, &opk.0, &leaves),
                sig.opening,
            ) && forall|slot: usize, leaf: Vec<i64>|
                #[trigger] call_ensures(LeafSource::<K>::leaf, (&leaves, slot), leaf) ==> exists|
                    seed: [u8; 32],
                    key: KotsPk,
                |
                    call_ensures(K::slot_seed, (&sk.master_seed, slot), seed) && #[trigger] call_ensures(
                        K::kots_pk_from_seed,
                        (&pp.kots_a, &seed, pp.profile),
                        key,
                    ) && leaf == key.0,
{
    let opk = choose|opk: KotsPk|
        #![trigger sign::is_one_time(pp, sk.master_seed, t, msg, opk, sig.z)]
        sign::is_one_time(pp, sk.master_seed, t, msg, opk, sig.z) && call_ensures(
            H::hvc_open_with_known_leaf::<LeafSource<K>>,
            (&pp.hvc_pp.key, pp.hvc_pp.tau, t, &opk.0, &keys::leaves_of(pp, sk.master_seed)),
            sig.opening,
        );
    let (ss, osk) = choose|ss: [u8; 32], osk: K::Sk|
        #![trigger call_ensures(K::kots_keygen, (&pp.kots_a, &ss, pp.profile), (osk, opk))]
        call_ensures(K::slot_seed, (&sk.master_seed, t), ss) && call_ensures(
            K::kots_keygen,
            (&pp.kots_a, &ss, pp.profile),
            (osk, opk),
        ) && call_ensures(K::kots_sign, (&osk, msg, pp.profile), sig.z);
    let leaves = keys::leaves_of(pp, sk.master_seed);
    assert(forall|slot: usize, leaf: Vec<i64>|
                #[trigger] call_ensures(LeafSource::<K>::leaf, (&leaves, slot), leaf) ==> exists|
                    seed: [u8; 32],
                    key: KotsPk,
                |
                    call_ensures(K::slot_seed, (&sk.master_seed, slot), seed) && #[trigger] call_ensures(
                        K::kots_pk_from_seed,
                        (&pp.kots_a, &seed, pp.profile),
                        key,
                    ) && leaf == key.0);
    assert(call_ensures(K::kots_keygen, (&pp.kots_a, &ss, pp.profile), (osk, opk)));
    assert(call_ensures(
        H::hvc_open_with_known_leaf::<LeafSource<K>>,
        (&pp.hvc_pp.key, pp.hvc_pp.tau, t, &opk.0, &leaves),
        sig.opening,
    ));
}

/// A signature is accepted only at a slot of the tree, where the public key opens to a one-time
/// public key at that slot, and the one-time signature is one of the whole message under that key.
pub proof fn law_accepted_signature<K: Kots, H: Hvc>(
    pp: &LemurPp<K, H>,
    pk: &LemurPk,
    t: usize,
    msg: &[u8],
    sig: &LemurSig<H>,
)
    requires
        call_ensures(verify::lemur_ivrfy::<K, H>, (pp, pk, t, msg, sig), Ok(())),
    ensures
        t < pow2(pp.hvc_pp.tau as nat),
        pk.0.0@.len() >= pp.profile.omega * pp.profile.d,
        sig.z.0@.len() >= pp.profile.m * pp.profile.d,
        exists|opk: Vec<i64>|
            call_ensures(
                H::hvc_ivrfy,
                (&pp.hvc_pp.key, pp.hvc_pp.tau, &pk.0, t, &sig.opening),
                Ok(opk),
            ) && #[trigger] call_ensures(
                K::kots_ivrfy,
                (&pp.kots_a, &opk, msg, &sig.z, pp.profile),
                Ok(()),
            ),
{
}

/// A signature is refused at a slot past the tree, under a public key or with a one-time signature
/// that is too short, where the public key does not open, and where no one-time public key takes
/// the one-time signature for one of the message.
pub proof fn law_refused_signature<K: Kots, H: Hvc>(
    pp: &LemurPp<K, H>,
    pk: &LemurPk,
    t: usize,
    msg: &[u8],
    sig: &LemurSig<H>,
    r: Result<(), LemurError>,
)
    requires
        call_ensures(verify::lemur_ivrfy::<K, H>, (pp, pk, t, msg, sig), r),
        ({
            ||| t >= pow2(pp.hvc_pp.tau as nat)
            ||| pk.0.0@.len() < pp.profile.omega * pp.profile.d
            ||| sig.z.0@.len() < pp.profile.m * pp.profile.d
            ||| forall|opk: Vec<i64>|
                !#[trigger] call_ensures(
                    H::hvc_ivrfy,
                    (&pp.hvc_pp.key, pp.hvc_pp.tau, &pk.0, t, &sig.opening),
                    Ok(opk),
                )
            ||| forall|opk: Vec<i64>|
                !#[trigger] call_ensures(
                    K::kots_ivrfy,
                    (&pp.kots_a, &opk, msg, &sig.z, pp.profile),
                    Ok(()),
                )
        }),
    ensures
        r matches Err(e) && e == LemurError::VerifyFailed,
{
    if r is Ok {
        assert(r->Ok_0 == ());
        law_accepted_signature(pp, pk, t, msg, sig);
    }
}

/// A signature is not refused without a reason: at a slot of the tree, with arrays that are long
/// enough, where the public key always opens and the one-time signature is always taken for one of
/// the message, it is accepted.
pub proof fn law_no_signature_refused_without_reason<K: Kots, H: Hvc>(
    pp: &LemurPp<K, H>,
    pk: &LemurPk,
    t: usize,
    msg: &[u8],
    sig: &LemurSig<H>,
    r: Result<(), LemurError>,
)
    requires
        call_ensures(verify::lemur_ivrfy::<K, H>, (pp, pk, t, msg, sig), r),
        t < pow2(pp.hvc_pp.tau as nat),
        pk.0.0@.len() >= pp.profile.omega * pp.profile.d,
        sig.z.0@.len() >= pp.profile.m * pp.profile.d,
        forall|e: LemurError|
            !#[trigger] call_ensures(
                H::hvc_ivrfy,
                (&pp.hvc_pp.key, pp.hvc_pp.tau, &pk.0, t, &sig.opening),
                Err(e),
            ),
        forall|opk: Vec<i64>, e: LemurError|
            call_ensures(
                H::hvc_ivrfy,
                (&pp.hvc_pp.key, pp.hvc_pp.tau, &pk.0, t, &sig.opening),
                Ok(opk),
            ) ==> !#[trigger] call_ensures(
                K::kots_ivrfy,
                (&pp.kots_a, &opk, msg, &sig.z, pp.profile),
                Err(e),
            ),
    ensures
        r is Ok,
{
}

/// A signature with the state is one at the current slot, of the whole message, under the key of
/// that slot, with the opening that the cache gives there.  The slot is one of the tree, and the one
/// that was asked for, if one was.  The state moves on by one slot, or stays at the last.
pub proof fn law_stateful_signature<K: Kots, H: Hvc>(
    pp: &LemurPp<K, H>,
    msg: &[u8],
    t: Option<usize>,
)
    ensures
        forall|state: &mut LemurStateSk<H>, sig: LemurSig<H>, at: usize|
            #[trigger] call_ensures(
                sign::lemur_sign_stateful_mut::<K, H>,
                (pp, state, msg, t),
                Ok((sig, at)),
            ) ==> {
                &&& at == state.bds.phi
                &&& at < pow2(pp.hvc_pp.tau as nat)
                &&& state.bds.h == pp.hvc_pp.tau
                &&& t matches Some(asked) ==> asked == at
                &&& exists|ss: [u8; 32], osk: K::Sk, opk: KotsPk|
                    call_ensures(K::slot_seed, (&state.master_seed, at), ss)
                        && #[trigger] call_ensures(
                        K::kots_keygen,
                        (&pp.kots_a, &ss, pp.profile),
                        (osk, opk),
                    ) && call_ensures(K::kots_sign, (&osk, msg, pp.profile), sig.z)
                &&& exists|leaves: LeafSource<K>|
                    #[trigger] call_ensures(
                        H::bds_opening::<LeafSource<K>>,
                        (&state.bds.cache, &pp.hvc_pp.key, pp.hvc_pp.tau, at, &leaves),
                        Ok(sig.opening),
                    ) && forall|slot: usize, leaf: Vec<i64>|
                #[trigger] call_ensures(LeafSource::<K>::leaf, (&leaves, slot), leaf) ==> exists|
                    seed: [u8; 32],
                    key: KotsPk,
                |
                    call_ensures(K::slot_seed, (&state.master_seed, slot), seed) && #[trigger] call_ensures(
                        K::kots_pk_from_seed,
                        (&pp.kots_a, &seed, pp.profile),
                        key,
                    ) && leaf == key.0
                &&& final(state).master_seed == state.master_seed
                &&& final(state).bds.h == state.bds.h
                &&& at + 1 >= pow2(pp.hvc_pp.tau as nat) ==> *final(state) == *state
                &&& at + 1 < pow2(pp.hvc_pp.tau as nat) ==> final(state).bds.phi == at + 1
                    && exists|cache: &mut H::Cache, leaves: LeafSource<K>|
                    *cache == state.bds.cache && *final(cache) == final(state).bds.cache
                        && #[trigger] call_ensures(
                        H::bds_advance::<LeafSource<K>>,
                        (cache, &pp.hvc_pp.key, pp.hvc_pp.tau, at, &leaves),
                        (),
                    ) && forall|slot: usize, leaf: Vec<i64>|
                #[trigger] call_ensures(LeafSource::<K>::leaf, (&leaves, slot), leaf) ==> exists|
                    seed: [u8; 32],
                    key: KotsPk,
                |
                    call_ensures(K::slot_seed, (&state.master_seed, slot), seed) && #[trigger] call_ensures(
                        K::kots_pk_from_seed,
                        (&pp.kots_a, &seed, pp.profile),
                        key,
                    ) && leaf == key.0
            },
{
    assert forall|state: &mut LemurStateSk<H>, sig: LemurSig<H>, at: usize|
        #[trigger] call_ensures(
            sign::lemur_sign_stateful_mut::<K, H>,
            (pp, state, msg, t),
            Ok((sig, at)),
        ) implies ({
        &&& exists|leaves: LeafSource<K>|
            #[trigger] call_ensures(
                H::bds_opening::<LeafSource<K>>,
                (&state.bds.cache, &pp.hvc_pp.key, pp.hvc_pp.tau, at, &leaves),
                Ok(sig.opening),
            ) && forall|slot: usize, leaf: Vec<i64>|
                #[trigger] call_ensures(LeafSource::<K>::leaf, (&leaves, slot), leaf) ==> exists|
                    seed: [u8; 32],
                    key: KotsPk,
                |
                    call_ensures(K::slot_seed, (&state.master_seed, slot), seed) && #[trigger] call_ensures(
                        K::kots_pk_from_seed,
                        (&pp.kots_a, &seed, pp.profile),
                        key,
                    ) && leaf == key.0
        &&& at + 1 < pow2(pp.hvc_pp.tau as nat) ==> exists|
            cache: &mut H::Cache,
            leaves: LeafSource<K>,
        |
            *cache == state.bds.cache && *final(cache) == final(state).bds.cache
                && #[trigger] call_ensures(
                H::bds_advance::<LeafSource<K>>,
                (cache, &pp.hvc_pp.key, pp.hvc_pp.tau, at, &leaves),
                (),
            ) && forall|slot: usize, leaf: Vec<i64>|
                #[trigger] call_ensures(LeafSource::<K>::leaf, (&leaves, slot), leaf) ==> exists|
                    seed: [u8; 32],
                    key: KotsPk,
                |
                    call_ensures(K::slot_seed, (&state.master_seed, slot), seed) && #[trigger] call_ensures(
                        K::kots_pk_from_seed,
                        (&pp.kots_a, &seed, pp.profile),
                        key,
                    ) && leaf == key.0
    }) by {
        let leaves = keys::leaves_of(pp, state.master_seed);
        assert(forall|slot: usize, leaf: Vec<i64>|
                #[trigger] call_ensures(LeafSource::<K>::leaf, (&leaves, slot), leaf) ==> exists|
                    seed: [u8; 32],
                    key: KotsPk,
                |
                    call_ensures(K::slot_seed, (&state.master_seed, slot), seed) && #[trigger] call_ensures(
                        K::kots_pk_from_seed,
                        (&pp.kots_a, &seed, pp.profile),
                        key,
                    ) && leaf == key.0);
        assert(call_ensures(
            H::bds_opening::<LeafSource<K>>,
            (&state.bds.cache, &pp.hvc_pp.key, pp.hvc_pp.tau, at, &leaves),
            Ok(sig.opening),
        ));
    }
}

/// The signer with a state refuses a state of another depth, every slot but the current one, and a
/// slot past the tree, and says so; it refuses for no other reason than that the cache gives no
/// opening; and what it refuses leaves the state as it was.
pub proof fn law_stateful_refusals<K: Kots, H: Hvc>(
    pp: &LemurPp<K, H>,
    msg: &[u8],
    t: Option<usize>,
)
    ensures
        forall|state: &mut LemurStateSk<H>, r: Result<(LemurSig<H>, usize), LemurError>|
            #[trigger] call_ensures(
                sign::lemur_sign_stateful_mut::<K, H>,
                (pp, state, msg, t),
                r,
            ) ==> {
                &&& state.bds.h != pp.hvc_pp.tau ==> (r matches Err(
                    LemurError::InvalidEncoding(text),
                ) && text@ == "stateful sk tau="@ + text::decimal(state.bds.h as nat)
                    + " does not match pp tau="@ + text::decimal(pp.hvc_pp.tau as nat))
                &&& state.bds.h == pp.hvc_pp.tau && t is Some && t->0 != state.bds.phi ==> (
                r matches Err(LemurError::InvalidEncoding(text)) && text@
                    == "stateful signer is at slot "@ + text::decimal(state.bds.phi as nat)
                    + ", got "@ + text::decimal(t->0 as nat))
                &&& state.bds.h == pp.hvc_pp.tau && (t is Some ==> t->0 == state.bds.phi)
                    && state.bds.phi >= pow2(pp.hvc_pp.tau as nat) ==> (r matches Err(
                    LemurError::InvalidEncoding(text),
                ) && text@ == "slot "@ + text::decimal(state.bds.phi as nat)
                    + " out of range [0, "@ + text::decimal(
                    (pow2(pp.hvc_pp.tau as nat) - 1) as nat,
                ) + "]"@)
                &&& state.bds.h == pp.hvc_pp.tau && (t is Some ==> t->0 == state.bds.phi)
                    && state.bds.phi < pow2(pp.hvc_pp.tau as nat) ==> (r matches Err(e)
                    ==> exists|leaves: LeafSource<K>|
                    #[trigger] call_ensures(
                        H::bds_opening::<LeafSource<K>>,
                        (
                            &state.bds.cache,
                            &pp.hvc_pp.key,
                            pp.hvc_pp.tau,
                            state.bds.phi,
                            &leaves,
                        ),
                        Err(e),
                    ) && forall|slot: usize, leaf: Vec<i64>|
                        #[trigger] call_ensures(LeafSource::<K>::leaf, (&leaves, slot), leaf)
                            ==> exists|seed: [u8; 32], key: KotsPk|
                            call_ensures(K::slot_seed, (&state.master_seed, slot), seed)
                                && #[trigger] call_ensures(
                                K::kots_pk_from_seed,
                                (&pp.kots_a, &seed, pp.profile),
                                key,
                            ) && leaf == key.0)
                &&& r is Err ==> *final(state) == *state
            },
{
    assert forall|state: &mut LemurStateSk<H>, r: Result<(LemurSig<H>, usize), LemurError>|
        #[trigger] call_ensures(
            sign::lemur_sign_stateful_mut::<K, H>,
            (pp, state, msg, t),
            r,
        ) && state.bds.h == pp.hvc_pp.tau && (t is Some ==> t->0 == state.bds.phi) && state.bds.phi
            < pow2(pp.hvc_pp.tau as nat) implies (r matches Err(e) ==> exists|
        leaves: LeafSource<K>,
    |
        #[trigger] call_ensures(
            H::bds_opening::<LeafSource<K>>,
            (&state.bds.cache, &pp.hvc_pp.key, pp.hvc_pp.tau, state.bds.phi, &leaves),
            Err(e),
        ) && forall|slot: usize, leaf: Vec<i64>|
                        #[trigger] call_ensures(LeafSource::<K>::leaf, (&leaves, slot), leaf)
                            ==> exists|seed: [u8; 32], key: KotsPk|
                            call_ensures(K::slot_seed, (&state.master_seed, slot), seed)
                                && #[trigger] call_ensures(
                                K::kots_pk_from_seed,
                                (&pp.kots_a, &seed, pp.profile),
                                key,
                            ) && leaf == key.0) by {
        if let Err(e) = r {
            let leaves = keys::leaves_of(pp, state.master_seed);
            assert(forall|slot: usize, leaf: Vec<i64>|
                        #[trigger] call_ensures(LeafSource::<K>::leaf, (&leaves, slot), leaf)
                            ==> exists|seed: [u8; 32], key: KotsPk|
                            call_ensures(K::slot_seed, (&state.master_seed, slot), seed)
                                && #[trigger] call_ensures(
                                K::kots_pk_from_seed,
                                (&pp.kots_a, &seed, pp.profile),
                                key,
                            ) && leaf == key.0);
            assert(call_ensures(
                H::bds_opening::<LeafSource<K>>,
                (&state.bds.cache, &pp.hvc_pp.key, pp.hvc_pp.tau, state.bds.phi, &leaves),
                Err(e),
            ));
        }
    }
}

/// Two signatures in place, one after the other, are at slots one after the other; at the last slot
/// alone both are at the same.
pub proof fn law_slots_follow_each_other<K: Kots, H: Hvc>(
    pp: &LemurPp<K, H>,
    msg1: &[u8],
    msg2: &[u8],
    t1: Option<usize>,
    t2: Option<usize>,
)
    ensures
        forall|
            first: &mut LemurStateSk<H>,
            second: &mut LemurStateSk<H>,
            sig1: LemurSig<H>,
            sig2: LemurSig<H>,
            at1: usize,
            at2: usize,
        |
            #[trigger] call_ensures(
                sign::lemur_sign_stateful_mut::<K, H>,
                (pp, first, msg1, t1),
                Ok((sig1, at1)),
            ) && *second == *final(first) && #[trigger] call_ensures(
                sign::lemur_sign_stateful_mut::<K, H>,
                (pp, second, msg2, t2),
                Ok((sig2, at2)),
            ) ==> at2 == at1 + 1 || (at2 == at1 && at1 == pow2(pp.hvc_pp.tau as nat) - 1),
{
    law_stateful_signature(pp, msg1, t1);
    law_stateful_signature(pp, msg2, t2);
}

/// A stateful key holds the seed and the traversal that it is made from, and a copy of it holds the
/// same seed, depth and slot, with a clone of the cache.
pub proof fn law_state_from_parts<H: Hvc>(
    master_seed: &[u8; 32],
    bds: BdsState<H>,
    state: LemurStateSk<H>,
    copy: LemurStateSk<H>,
)
    requires
        call_ensures(keys::lemur_make_stateful_sk::<H>, (master_seed, bds), state),
        call_ensures(LemurStateSk::<H>::clone, (&state,), copy),
    ensures
        state.master_seed == *master_seed,
        state.bds == bds,
        copy.master_seed == *master_seed,
        copy.bds.h == bds.h,
        copy.bds.phi == bds.phi,
        cloned(bds.cache, copy.bds.cache),
{
}

/// Of all slots the signer with a state signs under the current one alone, when a slot is asked
/// for.
pub proof fn law_stateful_signs_asked_slot_only<K: Kots, H: Hvc>(
    pp: &LemurPp<K, H>,
    msg: &[u8],
    asked: usize,
)
    ensures
        forall|state: &mut LemurStateSk<H>, r: Result<(LemurSig<H>, usize), LemurError>|
            #[trigger] call_ensures(
                sign::lemur_sign_stateful_mut::<K, H>,
                (pp, state, msg, Some(asked)),
                r,
            ) && asked != state.bds.phi ==> r is Err,
        forall|
            state: &LemurStateSk<H>,
            r: Result<(LemurSig<H>, LemurStateSk<H>, usize), LemurError>,
        |
            #[trigger] call_ensures(
                sign::lemur_sign_stateful::<K, H>,
                (pp, state, msg, Some(asked)),
                r,
            ) && asked != state.bds.phi ==> r is Err,
{
}

/// The signer on a copy returns what the signer in place returns on some copy of the state: the
/// signature and the slot, with the state that the copy became; or the error.
pub proof fn law_snapshot_is_in_place_on_copy<K: Kots, H: Hvc>(
    pp: &LemurPp<K, H>,
    state: &LemurStateSk<H>,
    msg: &[u8],
    t: Option<usize>,
    r: Result<(LemurSig<H>, LemurStateSk<H>, usize), LemurError>,
)
    requires
        call_ensures(sign::lemur_sign_stateful::<K, H>, (pp, state, msg, t), r),
    ensures
        exists|copy: &mut LemurStateSk<H>, in_place: Result<(LemurSig<H>, usize), LemurError>|
            #[trigger] call_ensures(
                sign::lemur_sign_stateful_mut::<K, H>,
                (pp, copy, msg, t),
                in_place,
            ) && copy.master_seed == state.master_seed && copy.bds.h == state.bds.h
                && copy.bds.phi == state.bds.phi && cloned(state.bds.cache, copy.bds.cache) && (
            match in_place {
                Ok((sig, at)) => {
                    r matches Ok((sig2, next, at2)) && sig2 == sig && next == *final(copy) && at2
                        == at
                },
                Err(e) => r matches Err(e2) && e2 == e,
            }),
{
}

/// An aggregate is accepted only where every public key is long enough, the weighted sum of the
/// public keys, with the weights of the slot, the message, the public keys and the attempt, opens
/// to an aggregated one-time public key at the slot, and the aggregated one-time signature is one
/// of the whole message under that key.  This holds of any number of public keys.
pub proof fn law_accepted_aggregate<K: Kots, H: Hvc>(
    pp: &LemurPp<K, H>,
    pks: &[LemurPk],
    t: usize,
    msg: &[u8],
    agg: &LemurAggSig<H>,
)
    requires
        call_ensures(verify::lemur_avrfy::<K, H>, (pp, pks, t, msg, agg), Ok(())),
    ensures
        forall|i: int|
            0 <= i < pks@.len() ==> (#[trigger] pks@[i]).0.0@.len() >= pp.profile.omega
                * pp.profile.d,
        exists|c: HvcCom, opk: Vec<i64>|
            #![trigger
                call_ensures(
                    H::hvc_svrfy,
                    (&pp.hvc_pp.key, pp.hvc_pp.tau, &c, t, &agg.d_agg),
                    Ok(opk),
                ),
                call_ensures(
                    K::kots_svrfy,
                    (&pp.kots_a, &opk, msg, &agg.z_agg, pp.profile),
                    Ok(()),
                )]
            call_ensures(
                H::hvc_svrfy,
                (&pp.hvc_pp.key, pp.hvc_pp.tau, &c, t, &agg.d_agg),
                Ok(opk),
            ) && call_ensures(
                K::kots_svrfy,
                (&pp.kots_a, &opk, msg, &agg.z_agg, pp.profile),
                Ok(()),
            ) && forall|
                bytes: Vec<u8>,
                pks_bytes: &[u8],
                weights: Vec<Vec<i64>>,
                ws: &[Vec<i64>],
                sum: HvcCom,
            |
                #![trigger
                    call_ensures(bench_internals::concat_pk_bytes_pub, (pks,), bytes),
                    call_ensures(
                        bench_internals::hash_to_randomizers_pub,
                        (t, msg, pks_bytes, agg.attempt, pks@.len() as usize, pp.profile),
                        weights,
                    ),
                    call_ensures(
                        combine::weighted_sum_commitments,
                        (ws, pks, pp.profile),
                        sum,
                    )]
                call_ensures(bench_internals::concat_pk_bytes_pub, (pks,), bytes) && pks_bytes@
                    == bytes@ && call_ensures(
                    bench_internals::hash_to_randomizers_pub,
                    (t, msg, pks_bytes, agg.attempt, pks@.len() as usize, pp.profile),
                    weights,
                ) && ws@ == weights@ && call_ensures(
                    combine::weighted_sum_commitments,
                    (ws, pks, pp.profile),
                    sum,
                ) ==> sum.0@ == c.0@,
{
    let (c, opk) = choose|c: HvcCom, opk: Vec<i64>|
        #![trigger call_ensures(H::hvc_svrfy, (&pp.hvc_pp.key, pp.hvc_pp.tau, &c, t, &agg.d_agg), Ok(opk))]
        verify::is_aggregated_commitment(pp, pks@, t, msg@, agg.attempt, c) && call_ensures(
            H::hvc_svrfy,
            (&pp.hvc_pp.key, pp.hvc_pp.tau, &c, t, &agg.d_agg),
            Ok(opk),
        ) && call_ensures(
            K::kots_svrfy,
            (&pp.kots_a, &opk, msg, &agg.z_agg, pp.profile),
            Ok(()),
        );
    assert(verify::avrfy_accepts(pp, pks@, t, msg, *agg));
    assert forall|i: int| 0 <= i < pks@.len() implies (#[trigger] pks@[i]).0.0@.len()
        >= pp.profile.omega * pp.profile.d by {
        assert(verify::pk_shape_ok(pks@[i], pp.profile));
    }
    assert(pks.len() == pks@.len());
    assert forall|
        bytes: Vec<u8>,
        pks_bytes: &[u8],
        weights: Vec<Vec<i64>>,
        ws: &[Vec<i64>],
        sum: HvcCom,
    |
        #![trigger
            call_ensures(bench_internals::concat_pk_bytes_pub, (pks,), bytes),
            call_ensures(
                bench_internals::hash_to_randomizers_pub,
                (t, msg, pks_bytes, agg.attempt, pks@.len() as usize, pp.profile),
                weights,
            ),
            call_ensures(
                combine::weighted_sum_commitments,
                (ws, pks, pp.profile),
                sum,
            )]
        call_ensures(bench_internals::concat_pk_bytes_pub, (pks,), bytes) && pks_bytes@ == bytes@
            && call_ensures(
            bench_internals::hash_to_randomizers_pub,
            (t, msg, pks_bytes, agg.attempt, pks@.len() as usize, pp.profile),
            weights,
        ) && ws@ == weights@ && call_ensures(
            combine::weighted_sum_commitments,
            (ws, pks, pp.profile),
            sum,
        ) implies sum.0@ == c.0@ by {
        scheme_laws::lemma_signed_injective(sum.0@, c.0@);
    }
    assert(call_ensures(
        H::hvc_svrfy,
        (&pp.hvc_pp.key, pp.hvc_pp.tau, &c, t, &agg.d_agg),
        Ok(opk),
    ));
}

/// An aggregate is refused where a public key is too short, where no commitment opens to a leaf at
/// the slot with its opening, and where no one-time public key takes its one-time signature for one
/// of the message, whatever its opening and however many public keys there are.
pub proof fn law_refused_aggregate<K: Kots, H: Hvc>(
    pp: &LemurPp<K, H>,
    pks: &[LemurPk],
    t: usize,
    msg: &[u8],
    agg: &LemurAggSig<H>,
    r: Result<(), LemurError>,
)
    requires
        call_ensures(verify::lemur_avrfy::<K, H>, (pp, pks, t, msg, agg), r),
        ({
            ||| exists|i: int|
                0 <= i < pks@.len() && (#[trigger] pks@[i]).0.0@.len() < pp.profile.omega
                    * pp.profile.d
            ||| forall|c: HvcCom, opk: Vec<i64>|
                !#[trigger] call_ensures(
                    H::hvc_svrfy,
                    (&pp.hvc_pp.key, pp.hvc_pp.tau, &c, t, &agg.d_agg),
                    Ok(opk),
                )
            ||| forall|opk: Vec<i64>|
                !#[trigger] call_ensures(
                    K::kots_svrfy,
                    (&pp.kots_a, &opk, msg, &agg.z_agg, pp.profile),
                    Ok(()),
                )
        }),
    ensures
        r matches Err(e) && e == LemurError::VerifyFailed,
{
    if r is Ok {
        assert(r->Ok_0 == ());
        law_accepted_aggregate(pp, pks, t, msg, agg);
    }
}

/// An aggregate is not refused without a reason: where every public key is long enough, the
/// weighted sum of the public keys always opens, and the aggregated one-time signature is always
/// taken for one of the message under what it opens to, it is accepted.
pub proof fn law_no_aggregate_refused_without_reason<K: Kots, H: Hvc>(
    pp: &LemurPp<K, H>,
    pks: &[LemurPk],
    t: usize,
    msg: &[u8],
    agg: &LemurAggSig<H>,
    bytes: Vec<u8>,
    pks_bytes: &[u8],
    weights: Vec<Vec<i64>>,
    ws: &[Vec<i64>],
    sum: HvcCom,
    r: Result<(), LemurError>,
)
    requires
        call_ensures(verify::lemur_avrfy::<K, H>, (pp, pks, t, msg, agg), r),
        forall|i: int|
            0 <= i < pks@.len() ==> (#[trigger] pks@[i]).0.0@.len() >= pp.profile.omega
                * pp.profile.d,
        call_ensures(bench_internals::concat_pk_bytes_pub, (pks,), bytes),
        pks_bytes@ == bytes@,
        call_ensures(
            bench_internals::hash_to_randomizers_pub,
            (t, msg, pks_bytes, agg.attempt, pks@.len() as usize, pp.profile),
            weights,
        ),
        ws@ == weights@,
        call_ensures(combine::weighted_sum_commitments, (ws, pks, pp.profile), sum),
        forall|c: HvcCom, e: LemurError|
            c.0@ == sum.0@ ==> !#[trigger] call_ensures(
                H::hvc_svrfy,
                (&pp.hvc_pp.key, pp.hvc_pp.tau, &c, t, &agg.d_agg),
                Err(e),
            ),
        forall|c: HvcCom, opk: Vec<i64>, e: LemurError|
            c.0@ == sum.0@ && #[trigger] call_ensures(
                H::hvc_svrfy,
                (&pp.hvc_pp.key, pp.hvc_pp.tau, &c, t, &agg.d_agg),
                Ok(opk),
            ) ==> !#[trigger] call_ensures(
                K::kots_svrfy,
                (&pp.kots_a, &opk, msg, &agg.z_agg, pp.profile),
                Err(e),
            ),
    ensures
        r is Ok,
{
    assert(pks.len() == pks@.len());
    assert forall|c: HvcCom|
        verify::is_aggregated_commitment(pp, pks@, t, msg@, agg.attempt, c) implies #[trigger] c.0@
        == sum.0@ by {
        scheme_laws::lemma_signed_injective(c.0@, sum.0@);
    }
}

/// What aggregation returns.  Lists that do not match or are empty are refused.  `VerifyFailed`
/// says that an individual signature was refused; every other result, that all of them were
/// accepted.  `AggregationFailed` names the number of attempts of the profile.
pub proof fn law_aggregation_checks_signatures<K: Kots, H: Hvc>(
    pp: &LemurPp<K, H>,
    pks: &[LemurPk],
    t: usize,
    msg: &[u8],
    sigs: &[LemurSig<H>],
    r: Result<LemurAggSig<H>, LemurError>,
)
    requires
        call_ensures(aggregate::lemur_aggregate::<K, H>, (pp, pks, t, msg, sigs), r),
    ensures
        sigs@.len() != pks@.len() || sigs@.len() == 0 ==> (r matches Err(e) && e
            == LemurError::VerifyFailed),
        r matches Err(e) && e == LemurError::VerifyFailed && 0 < sigs@.len() == pks@.len()
            ==> exists|i: int|
            0 <= i < sigs@.len() && {
                ||| t >= pow2(pp.hvc_pp.tau as nat)
                ||| pks@[i].0.0@.len() < pp.profile.omega * pp.profile.d
                ||| (#[trigger] sigs@[i]).z.0@.len() < pp.profile.m * pp.profile.d
                ||| exists|e: LemurError|
                    #[trigger] call_ensures(
                        H::hvc_ivrfy,
                        (&pp.hvc_pp.key, pp.hvc_pp.tau, &pks@[i].0, t, &sigs@[i].opening),
                        Err(e),
                    )
                ||| exists|opk: Vec<i64>, e: LemurError|
                    call_ensures(
                        H::hvc_ivrfy,
                        (&pp.hvc_pp.key, pp.hvc_pp.tau, &pks@[i].0, t, &sigs@[i].opening),
                        Ok(opk),
                    ) && #[trigger] call_ensures(
                        K::kots_ivrfy,
                        (&pp.kots_a, &opk, msg, &sigs@[i].z, pp.profile),
                        Err(e),
                    )
            },
        !(r matches Err(e) && e == LemurError::VerifyFailed) ==> forall|i: int|
            0 <= i < sigs@.len() ==> {
                &&& t < pow2(pp.hvc_pp.tau as nat)
                &&& pks@[i].0.0@.len() >= pp.profile.omega * pp.profile.d
                &&& (#[trigger] sigs@[i]).z.0@.len() >= pp.profile.m * pp.profile.d
                &&& exists|opk: Vec<i64>|
                    call_ensures(
                        H::hvc_ivrfy,
                        (&pp.hvc_pp.key, pp.hvc_pp.tau, &pks@[i].0, t, &sigs@[i].opening),
                        Ok(opk),
                    ) && #[trigger] call_ensures(
                        K::kots_ivrfy,
                        (&pp.kots_a, &opk, msg, &sigs@[i].z, pp.profile),
                        Ok(()),
                    )
            },
        r matches Err(LemurError::AggregationFailed(attempts)) ==> attempts == pp.profile.gamma,
        !(r matches Err(LemurError::InvalidEncoding(_))),
{
    if aggregate::all_accepted(pp, pks@, t, msg, sigs@) {
        assert forall|i: int| 0 <= i < sigs@.len() implies verify::ivrfy_accepts(
            pp,
            pks@[i],
            t,
            msg,
            #[trigger] sigs@[i],
        ) by {}
    }
    if r matches Err(e) && e == LemurError::VerifyFailed && 0 < sigs@.len() == pks@.len() {
        let i = choose|i: int|
            0 <= i < pks@.len() && #[trigger] verify::ivrfy_refuses(
                pp,
                pks@[i],
                t,
                msg,
                sigs@[i],
            );
        assert(verify::ivrfy_refuses(pp, pks@[i], t, msg, sigs@[i]));
    }
}

/// An aggregate is made of the steps of its attempt, which is one of those of the profile: the
/// weights that are hashed from the slot, the message, the public keys and the attempt, the
/// weighted sum of the one-time signatures, and that of the openings, of all signers in order.
pub proof fn law_aggregate_is_made_of_steps<K: Kots, H: Hvc>(
    pp: &LemurPp<K, H>,
    pks: &[LemurPk],
    t: usize,
    msg: &[u8],
    sigs: &[LemurSig<H>],
    agg: LemurAggSig<H>,
    bytes: Vec<u8>,
    pks_bytes: &[u8],
    weights: Vec<Vec<i64>>,
    ws: &[Vec<i64>],
    z: Vec<i64>,
)
    requires
        call_ensures(aggregate::lemur_aggregate::<K, H>, (pp, pks, t, msg, sigs), Ok(agg)),
        call_ensures(bench_internals::concat_pk_bytes_pub, (pks,), bytes),
        pks_bytes@ == bytes@,
        call_ensures(
            bench_internals::hash_to_randomizers_pub,
            (t, msg, pks_bytes, agg.attempt, pks@.len() as usize, pp.profile),
            weights,
        ),
        ws@ == weights@,
        call_ensures(bench_internals::aggregate_kots_z::<H>, (ws, sigs, pp.profile), z),
    ensures
        1 <= agg.attempt <= pp.profile.gamma,
        agg.z_agg.0@ == z@,
        exists|used: Vec<Vec<i64>>, openings: Vec<&H::Opening>|
            #[trigger] call_ensures(
                H::aggregate_openings_any,
                (&used, &openings, pp.profile),
                agg.d_agg,
            ) && used@.len() == weights@.len() && (forall|i: int|
                0 <= i < used@.len() ==> (#[trigger] used@[i])@ == weights@[i]@)
                && openings@.len() == sigs@.len() && (forall|i: int|
                0 <= i < sigs@.len() ==> *#[trigger] openings@[i] == sigs@[i].opening),
{
    assert(pks.len() == pks@.len());
    scheme_laws::lemma_signed_injective(agg.z_agg.0@, z@);
    let (used, openings) = choose|used: Vec<Vec<i64>>, openings: Vec<&H::Opening>|
        #![trigger call_ensures(H::aggregate_openings_any, (&used, &openings, pp.profile), agg.d_agg)]
        weighted::views(used@) == verify::weights(pp, pks@, t, msg@, agg.attempt)
            && aggregate::are_openings(sigs@, openings@) && call_ensures(
            H::aggregate_openings_any,
            (&used, &openings, pp.profile),
            agg.d_agg,
        );
    let uv = weighted::views(used@);
    let wv = weighted::views(weights@);
    assert(uv == wv);
    assert(uv.len() == used@.len() && wv.len() == weights@.len());
    assert forall|i: int| 0 <= i < used@.len() implies (#[trigger] used@[i])@ == weights@[i]@ by {
        assert(uv[i] == wv[i]);
    }
    assert(call_ensures(H::aggregate_openings_any, (&used, &openings, pp.profile), agg.d_agg));
}

/// What the steps of an attempt give is an aggregate of that attempt.
proof fn lemma_built<K: Kots, H: Hvc>(
    pp: &LemurPp<K, H>,
    pks: &[LemurPk],
    t: usize,
    msg: &[u8],
    sigs: &[LemurSig<H>],
    bytes: Vec<u8>,
    pks_bytes: &[u8],
    weights: Vec<Vec<i64>>,
    ws: &[Vec<i64>],
    z: Vec<i64>,
    openings: Vec<&H::Opening>,
    built: LemurAggSig<H>,
)
    requires
        call_ensures(bench_internals::concat_pk_bytes_pub, (pks,), bytes),
        pks_bytes@ == bytes@,
        call_ensures(
            bench_internals::hash_to_randomizers_pub,
            (t, msg, pks_bytes, built.attempt, pks@.len() as usize, pp.profile),
            weights,
        ),
        ws@ == weights@,
        call_ensures(bench_internals::aggregate_kots_z::<H>, (ws, sigs, pp.profile), z),
        openings@.len() == sigs@.len(),
        forall|i: int| 0 <= i < sigs@.len() ==> *#[trigger] openings@[i] == sigs@[i].opening,
        call_ensures(
            H::aggregate_openings_any,
            (&weights, &openings, pp.profile),
            built.d_agg,
        ),
        built.z_agg.0@ == z@,
    ensures
        aggregate::is_attempt(pp, pks@, t, msg, sigs@, built.attempt, built),
{
    assert(pks.len() == pks@.len());
    assert(call_ensures(
        H::aggregate_openings_any,
        (&weights, &openings, pp.profile),
        built.d_agg,
    ));
}

/// Aggregation succeeds as soon as it can: where every individual signature verifies, and what the
/// steps of an attempt of the profile give verifies, an aggregate comes out, of that attempt or an
/// earlier one; and where it is of that attempt, it is the same.
pub proof fn law_aggregation_finds_first_attempt<K: Kots, H: Hvc>(
    pp: &LemurPp<K, H>,
    pks: &[LemurPk],
    t: usize,
    msg: &[u8],
    sigs: &[LemurSig<H>],
    bytes: Vec<u8>,
    pks_bytes: &[u8],
    weights: Vec<Vec<i64>>,
    ws: &[Vec<i64>],
    z: Vec<i64>,
    openings: Vec<&H::Opening>,
    built: LemurAggSig<H>,
    r: Result<LemurAggSig<H>, LemurError>,
)
    requires
        scheme_laws::hvc_functional::<K, H>(),
        scheme_laws::verdicts_functional::<K, H>(),
        0 < sigs@.len() == pks@.len(),
        forall|i: int|
            0 <= i < sigs@.len() ==> call_ensures(
                verify::lemur_ivrfy::<K, H>,
                (pp, &pks@[i], t, msg, &#[trigger] sigs@[i]),
                Ok(()),
            ),
        call_ensures(bench_internals::concat_pk_bytes_pub, (pks,), bytes),
        pks_bytes@ == bytes@,
        call_ensures(
            bench_internals::hash_to_randomizers_pub,
            (t, msg, pks_bytes, built.attempt, pks@.len() as usize, pp.profile),
            weights,
        ),
        ws@ == weights@,
        call_ensures(bench_internals::aggregate_kots_z::<H>, (ws, sigs, pp.profile), z),
        openings@.len() == sigs@.len(),
        forall|i: int| 0 <= i < sigs@.len() ==> *#[trigger] openings@[i] == sigs@[i].opening,
        call_ensures(
            H::aggregate_openings_any,
            (&weights, &openings, pp.profile),
            built.d_agg,
        ),
        built.z_agg.0@ == z@,
        1 <= built.attempt <= pp.profile.gamma,
        call_ensures(verify::lemur_avrfy::<K, H>, (pp, pks, t, msg, &built), Ok(())),
        call_ensures(aggregate::lemur_aggregate::<K, H>, (pp, pks, t, msg, sigs), r),
    ensures
        r matches Ok(agg) && 1 <= agg.attempt <= built.attempt && (agg.attempt == built.attempt
            ==> agg.z_agg.0@ == built.z_agg.0@ && agg.d_agg == built.d_agg),
{
    lemma_built(
        pp,
        pks,
        t,
        msg,
        sigs,
        bytes,
        pks_bytes,
        weights,
        ws,
        z,
        openings,
        built,
    );
    assert forall|i: int| #![trigger pks@[i]] #![trigger sigs@[i]] 0 <= i < pks@.len() implies
        verify::ivrfy_accepts(pp, pks@[i], t, msg, sigs@[i]) by {
        assert(call_ensures(
            verify::lemur_ivrfy::<K, H>,
            (pp, &pks@[i], t, msg, &sigs@[i]),
            Ok(()),
        ));
    }
    assert forall|i: int|
        #![trigger sigs@[i]]
        0 <= i < sigs@.len() implies scheme_laws::same_signature(sigs@[i], sigs@[i]) by {}
    assert(scheme_laws::same_signatures(sigs@, sigs@));
    scheme_laws::lemma_accepted_signatures(pp, pks@, pks@, t, msg, sigs@, sigs@);
    scheme_laws::lemma_accepted_attempt(pp, pks@, pks@, t, msg, sigs@, sigs@, built);
    if let Ok(agg) = r {
        if agg.attempt == built.attempt {
            scheme_laws::law_attempts_agree(
                pp,
                pks@,
                pks@,
                t,
                msg,
                sigs@,
                sigs@,
                built.attempt,
                agg,
                built,
            );
        }
    }
}

/// Aggregation tries every attempt of the profile before it gives up, and passes over none that
/// verifies: what the steps of an attempt give does not verify where aggregation gave up, nor where
/// it returned the aggregate of a later attempt.
pub proof fn law_aggregation_passes_over_none<K: Kots, H: Hvc>(
    pp: &LemurPp<K, H>,
    pks: &[LemurPk],
    t: usize,
    msg: &[u8],
    sigs: &[LemurSig<H>],
    bytes: Vec<u8>,
    pks_bytes: &[u8],
    weights: Vec<Vec<i64>>,
    ws: &[Vec<i64>],
    z: Vec<i64>,
    openings: Vec<&H::Opening>,
    built: LemurAggSig<H>,
    verdict: Result<(), LemurError>,
    r: Result<LemurAggSig<H>, LemurError>,
)
    requires
        scheme_laws::hvc_functional::<K, H>(),
        scheme_laws::verdicts_functional::<K, H>(),
        call_ensures(bench_internals::concat_pk_bytes_pub, (pks,), bytes),
        pks_bytes@ == bytes@,
        call_ensures(
            bench_internals::hash_to_randomizers_pub,
            (t, msg, pks_bytes, built.attempt, pks@.len() as usize, pp.profile),
            weights,
        ),
        ws@ == weights@,
        call_ensures(bench_internals::aggregate_kots_z::<H>, (ws, sigs, pp.profile), z),
        openings@.len() == sigs@.len(),
        forall|i: int| 0 <= i < sigs@.len() ==> *#[trigger] openings@[i] == sigs@[i].opening,
        call_ensures(
            H::aggregate_openings_any,
            (&weights, &openings, pp.profile),
            built.d_agg,
        ),
        built.z_agg.0@ == z@,
        call_ensures(verify::lemur_avrfy::<K, H>, (pp, pks, t, msg, &built), verdict),
        call_ensures(aggregate::lemur_aggregate::<K, H>, (pp, pks, t, msg, sigs), r),
        match r {
            Ok(agg) => 1 <= built.attempt < agg.attempt,
            Err(e) => e is AggregationFailed && 1 <= built.attempt <= pp.profile.gamma,
        },
    ensures
        verdict matches Err(e) && e == LemurError::VerifyFailed,
{
    lemma_built(
        pp,
        pks,
        t,
        msg,
        sigs,
        bytes,
        pks_bytes,
        weights,
        ws,
        z,
        openings,
        built,
    );
    assert(aggregate::attempt_refused(pp, pks@, t, msg, sigs@, built.attempt));
    if verdict is Ok {
        assert forall|i: int|
            #![trigger sigs@[i]]
            0 <= i < sigs@.len() implies scheme_laws::same_signature(sigs@[i], sigs@[i]) by {}
        scheme_laws::lemma_accepted_attempt(pp, pks@, pks@, t, msg, sigs@, sigs@, built);
    }
}

/// What aggregation returns verifies under the same public keys, at the same slot and of the same
/// message.
pub proof fn law_aggregation_round_trip<K: Kots, H: Hvc>(
    pp: &LemurPp<K, H>,
    pks: &[LemurPk],
    t: usize,
    msg: &[u8],
    sigs: &[LemurSig<H>],
    agg: LemurAggSig<H>,
    verdict: Result<(), LemurError>,
)
    requires
        scheme_laws::verdicts_functional::<K, H>(),
        call_ensures(aggregate::lemur_aggregate::<K, H>, (pp, pks, t, msg, sigs), Ok(agg)),
        call_ensures(verify::lemur_avrfy::<K, H>, (pp, pks, t, msg, &agg), verdict),
    ensures
        verdict is Ok,
{
    scheme_laws::law_aggregate_verifies(pp, pks@, pks@, t, msg, agg, agg);
}

/// An honest signature is accepted: what signing at a slot of the tree returns under a secret key
/// verifies under the public key of the same key generation, at that slot and of that message.
pub proof fn law_honest_round_trip<K: Kots, H: Hvc>(
    pp: &LemurPp<K, H>,
    master_seed: &[u8; 32],
    sk: LemurSk,
    state: LemurStateSk<H>,
    pk: LemurPk,
    t: usize,
    msg: &[u8],
    sig: LemurSig<H>,
    r: Result<(), LemurError>,
)
    requires
        scheme_laws::kots_functional::<K>(),
        scheme_laws::kots_complete::<K>(&pp.kots_a, pp.profile),
        scheme_laws::hvc_complete(pp),
        call_ensures(keys::lemur_keygen::<K, H>, (pp, master_seed), (sk, state, pk)),
        t < pow2(pp.hvc_pp.tau as nat),
        call_ensures(sign::lemur_sign_seed::<K, H>, (pp, &sk, t, msg), sig) || call_ensures(
            sign::lemur_sign::<K, H>,
            (pp, &sk, t, msg),
            sig,
        ),
        call_ensures(verify::lemur_ivrfy::<K, H>, (pp, &pk, t, msg, &sig), r),
    ensures
        r is Ok,
{
    scheme_laws::law_honest_signature_accepted(pp, *master_seed, sk, state, pk, t, msg, sig);
}

/// A signature with the state that a key generation returned is accepted at slot 0 under its public
/// key.
///
/// `good` tells the caches at a slot.
pub proof fn law_first_stateful_round_trip<'a, K: Kots, H: Hvc>(
    pp: &'a LemurPp<'a, K, H>,
    master_seed: &[u8; 32],
    sk: LemurSk,
    state: LemurStateSk<H>,
    pk: LemurPk,
    msg: &[u8],
    t: Option<usize>,
    good: spec_fn(LeafSource<'a, K>, HvcCom, H::Cache, int) -> bool,
)
    requires
        scheme_laws::kots_functional::<K>(),
        scheme_laws::kots_complete::<K>(&pp.kots_a, pp.profile),
        scheme_laws::caches_complete(pp, good),
        call_ensures(keys::lemur_keygen::<K, H>, (pp, master_seed), (sk, state, pk)),
    ensures
        forall|
            used: &mut LemurStateSk<H>,
            sig: LemurSig<H>,
            at: usize,
            r: Result<(), LemurError>,
        |
            *used == state && #[trigger] call_ensures(
                sign::lemur_sign_stateful_mut::<K, H>,
                (pp, used, msg, t),
                Ok((sig, at)),
            ) && #[trigger] call_ensures(
                verify::lemur_ivrfy::<K, H>,
                (pp, &pk, at, msg, &sig),
                r,
            ) ==> at == 0 && r is Ok,
{
    assert forall|
        used: &mut LemurStateSk<H>,
        sig: LemurSig<H>,
        at: usize,
        r: Result<(), LemurError>,
    |
        *used == state && #[trigger] call_ensures(
            sign::lemur_sign_stateful_mut::<K, H>,
            (pp, used, msg, t),
            Ok((sig, at)),
        ) && #[trigger] call_ensures(
            verify::lemur_ivrfy::<K, H>,
            (pp, &pk, at, msg, &sig),
            r,
        ) implies at == 0 && r is Ok by {
        scheme_laws::law_good_state_signature_accepted(pp, state, pk, good, msg, sig);
    }
}

/// Clones hold what they are clones of: keys and signatures their coefficients or seed, and
/// parameters their depth, seeds and profile, with clones of the matrix and the key.
pub proof fn law_clones<'a, K: Kots, H: Hvc>(
    pp: LemurPp<'a, K, H>,
    pp2: LemurPp<'a, K, H>,
    sk: LemurSk,
    sk2: LemurSk,
    pk: LemurPk,
    pk2: LemurPk,
    z: KotsSig,
    z2: KotsSig,
    opk: KotsPk,
    opk2: KotsPk,
) where K::A: Clone, H::Key: Clone
    requires
        call_ensures(LemurPp::<'a, K, H>::clone, (&pp,), pp2),
        call_ensures(LemurSk::clone, (&sk,), sk2),
        call_ensures(LemurPk::clone, (&pk,), pk2),
        call_ensures(KotsSig::clone, (&z,), z2),
        call_ensures(KotsPk::clone, (&opk,), opk2),
    ensures
        cloned(pp.kots_a, pp2.kots_a),
        cloned(pp.hvc_pp.key, pp2.hvc_pp.key),
        pp2.hvc_pp.tau == pp.hvc_pp.tau,
        pp2.kots_seed == pp.kots_seed,
        pp2.hvc_seed == pp.hvc_seed,
        pp2.profile == pp.profile,
        sk2.master_seed == sk.master_seed,
        pk2.0.0@ == pk.0.0@,
        z2.0@ == z.0@,
        opk2.0@ == opk.0@,
{
}

} // verus!
