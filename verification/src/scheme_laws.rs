//! What holds of the scheme as a whole, where the one-time signatures and the commitments that it
//! is built from are functions of their arguments and are complete.

use crate::error::LemurError;
use crate::hvc::{Hvc, HvcCom, Leaves};
use crate::kots::{Kots, KotsPk, KotsSig};
use crate::lemur::aggregate;
use crate::lemur::combine;
use crate::lemur::keys;
use crate::lemur::keys::LeafSource;
use crate::lemur::sign;
use crate::lemur::verify;
use crate::lemur::{LemurAggSig, LemurPk, LemurPp, LemurSig, LemurSk, LemurStateSk};
use crate::profile::Profile;
use crate::ring;
use crate::weighted;
use vstd::arithmetic::power2::*;
use vstd::prelude::*;

verus! {

/// What the one-time signatures return is determined by their arguments, and the two ways to
/// derive a public key agree.
pub open spec fn kots_functional<K: Kots>() -> bool {
    &&& forall|ms: [u8; 32], t: usize, r1: [u8; 32], r2: [u8; 32]|
        #[trigger] call_ensures(K::slot_seed, (&ms, t), r1) && #[trigger] call_ensures(
            K::slot_seed,
            (&ms, t),
            r2,
        ) ==> r1 == r2
    &&& forall|seed: [u8; 32], profile: &Profile, r1: K::A, r2: K::A|
        #[trigger] call_ensures(K::kots_setup, (&seed, profile), r1) && #[trigger] call_ensures(
            K::kots_setup,
            (&seed, profile),
            r2,
        ) ==> r1 == r2
    &&& forall|
        a: K::A,
        ss: [u8; 32],
        profile: &Profile,
        r1: (K::Sk, KotsPk),
        r2: (K::Sk, KotsPk),
    |
        #[trigger] call_ensures(K::kots_keygen, (&a, &ss, profile), r1)
            && #[trigger] call_ensures(K::kots_keygen, (&a, &ss, profile), r2) ==> r1.0 == r2.0
            && r1.1.0@ == r2.1.0@
    &&& forall|a: K::A, ss: [u8; 32], profile: &Profile, r1: (K::Sk, KotsPk), r2: KotsPk|
        #[trigger] call_ensures(K::kots_keygen, (&a, &ss, profile), r1)
            && #[trigger] call_ensures(K::kots_pk_from_seed, (&a, &ss, profile), r2) ==> r1.1.0@
            == r2.0@
    &&& forall|a: K::A, ss: [u8; 32], profile: &Profile, r1: KotsPk, r2: KotsPk|
        #[trigger] call_ensures(K::kots_pk_from_seed, (&a, &ss, profile), r1)
            && #[trigger] call_ensures(K::kots_pk_from_seed, (&a, &ss, profile), r2) ==> r1.0@
            == r2.0@
    &&& forall|sk: K::Sk, msg: &[u8], profile: &Profile, r1: KotsSig, r2: KotsSig|
        #[trigger] call_ensures(K::kots_sign, (&sk, msg, profile), r1) && #[trigger] call_ensures(
            K::kots_sign,
            (&sk, msg, profile),
            r2,
        ) ==> r1.0@ == r2.0@
}

/// What the commitments return is determined by their arguments, of vectors by the coefficients.
pub open spec fn hvc_functional<K: Kots, H: Hvc>() -> bool {
    &&& forall|seed: [u8; 32], profile: &Profile, tau: usize, r1: H::Key, r2: H::Key|
        #[trigger] call_ensures(H::hvc_setup_with_profile_and_tau, (&seed, profile, tau), r1)
            && #[trigger] call_ensures(
            H::hvc_setup_with_profile_and_tau,
            (&seed, profile, tau),
            r2,
        ) ==> r1 == r2
    &&& forall|
        key: H::Key,
        tau: usize,
        leaves: LeafSource<K>,
        r1: (HvcCom, H::Cache),
        r2: (HvcCom, H::Cache),
    |
        #[trigger] call_ensures(H::bds_init::<LeafSource<K>>, (&key, tau, &leaves), r1)
            && #[trigger] call_ensures(H::bds_init::<LeafSource<K>>, (&key, tau, &leaves), r2)
            ==> r1.0.0@ == r2.0.0@ && r1.1 == r2.1
    &&& forall|
        key: H::Key,
        tau: usize,
        t: usize,
        known1: Vec<i64>,
        known2: Vec<i64>,
        leaves: LeafSource<K>,
        r1: H::Opening,
        r2: H::Opening,
    |
        #[trigger] call_ensures(
            H::hvc_open_with_known_leaf::<LeafSource<K>>,
            (&key, tau, t, &known1, &leaves),
            r1,
        ) && #[trigger] call_ensures(
            H::hvc_open_with_known_leaf::<LeafSource<K>>,
            (&key, tau, t, &known2, &leaves),
            r2,
        ) && known1@ == known2@ ==> r1 == r2
    &&& forall|
        cache: H::Cache,
        key: H::Key,
        tau: usize,
        t: usize,
        leaves: LeafSource<K>,
        r1: Result<H::Opening, LemurError>,
        r2: Result<H::Opening, LemurError>,
    |
        #[trigger] call_ensures(
            H::bds_opening::<LeafSource<K>>,
            (&cache, &key, tau, t, &leaves),
            r1,
        ) && #[trigger] call_ensures(
            H::bds_opening::<LeafSource<K>>,
            (&cache, &key, tau, t, &leaves),
            r2,
        ) ==> same_opening::<H>(r1, r2)
    &&& forall|
        ws1: Vec<Vec<i64>>,
        ws2: Vec<Vec<i64>>,
        openings1: Vec<&H::Opening>,
        openings2: Vec<&H::Opening>,
        profile: &Profile,
        r1: H::Opening,
        r2: H::Opening,
    |
        #[trigger] call_ensures(H::aggregate_openings_any, (&ws1, &openings1, profile), r1)
            && #[trigger] call_ensures(
            H::aggregate_openings_any,
            (&ws2, &openings2, profile),
            r2,
        ) && weighted::views(ws1@) == weighted::views(ws2@) && openings1@ == openings2@ ==> r1
            == r2
}

/// Two answers are both refusals, or the same opening.
pub open spec fn same_opening<H: Hvc>(
    r1: Result<H::Opening, LemurError>,
    r2: Result<H::Opening, LemurError>,
) -> bool {
    match (r1, r2) {
        (Ok(a), Ok(b)) => a == b,
        (Err(_), Err(_)) => true,
        _ => false,
    }
}

/// Two answers are both refusals, or leaves with the same coefficients.
pub open spec fn same_leaf(
    r1: Result<Vec<i64>, LemurError>,
    r2: Result<Vec<i64>, LemurError>,
) -> bool {
    match (r1, r2) {
        (Ok(a), Ok(b)) => a@ == b@,
        (Err(_), Err(_)) => true,
        _ => false,
    }
}

/// What the two schemes answer to a verification is determined by what they are asked, of vectors
/// by the coefficients.
pub open spec fn verdicts_functional<K: Kots, H: Hvc>() -> bool {
    &&& forall|
        key: H::Key,
        tau: usize,
        c1: HvcCom,
        c2: HvcCom,
        t: usize,
        opening: H::Opening,
        r1: Result<Vec<i64>, LemurError>,
        r2: Result<Vec<i64>, LemurError>,
    |
        #[trigger] call_ensures(H::hvc_ivrfy, (&key, tau, &c1, t, &opening), r1)
            && #[trigger] call_ensures(H::hvc_ivrfy, (&key, tau, &c2, t, &opening), r2)
            && c1.0@ == c2.0@ ==> same_leaf(r1, r2)
    &&& forall|
        key: H::Key,
        tau: usize,
        c1: HvcCom,
        c2: HvcCom,
        t: usize,
        opening: H::Opening,
        r1: Result<Vec<i64>, LemurError>,
        r2: Result<Vec<i64>, LemurError>,
    |
        #[trigger] call_ensures(H::hvc_svrfy, (&key, tau, &c1, t, &opening), r1)
            && #[trigger] call_ensures(H::hvc_svrfy, (&key, tau, &c2, t, &opening), r2)
            && c1.0@ == c2.0@ ==> same_leaf(r1, r2)
    &&& forall|
        a: K::A,
        opk1: Vec<i64>,
        opk2: Vec<i64>,
        msg: &[u8],
        z1: KotsSig,
        z2: KotsSig,
        profile: &Profile,
        r1: Result<(), LemurError>,
        r2: Result<(), LemurError>,
    |
        #[trigger] call_ensures(K::kots_ivrfy, (&a, &opk1, msg, &z1, profile), r1)
            && #[trigger] call_ensures(K::kots_ivrfy, (&a, &opk2, msg, &z2, profile), r2) && opk1@
            == opk2@ && z1.0@ == z2.0@ ==> (r1 is Ok <==> r2 is Ok)
    &&& forall|
        a: K::A,
        opk1: Vec<i64>,
        opk2: Vec<i64>,
        msg: &[u8],
        z1: KotsSig,
        z2: KotsSig,
        profile: &Profile,
        r1: Result<(), LemurError>,
        r2: Result<(), LemurError>,
    |
        #[trigger] call_ensures(K::kots_svrfy, (&a, &opk1, msg, &z1, profile), r1)
            && #[trigger] call_ensures(K::kots_svrfy, (&a, &opk2, msg, &z2, profile), r2) && opk1@
            == opk2@ && z1.0@ == z2.0@ ==> (r1 is Ok <==> r2 is Ok)
}

/// Public parameters that differ in the depth of the tree alone have the same matrix, seeds and
/// profile; those for the same depth have the same key too.
pub proof fn law_setup_depth<K: Kots, H: Hvc>(
    kots_seed: [u8; 32],
    hvc_seed: [u8; 32],
    profile: &Profile,
    tau1: usize,
    tau2: usize,
    pp1: LemurPp<K, H>,
    pp2: LemurPp<K, H>,
)
    requires
        kots_functional::<K>(),
        hvc_functional::<K, H>(),
        keys::is_setup(kots_seed, hvc_seed, profile, tau1, pp1),
        keys::is_setup(kots_seed, hvc_seed, profile, tau2, pp2),
    ensures
        pp1.hvc_pp.tau == tau1,
        pp2.hvc_pp.tau == tau2,
        pp1.kots_a == pp2.kots_a,
        pp1.kots_seed == pp2.kots_seed,
        pp1.hvc_seed == pp2.hvc_seed,
        pp1.profile == pp2.profile,
        tau1 == tau2 ==> pp1.hvc_pp == pp2.hvc_pp,
{
}

/// Every leaf of slot `t` has these coefficients.
pub open spec fn is_the_leaf<K: Kots, H: Hvc>(
    pp: &LemurPp<K, H>,
    master_seed: [u8; 32],
    t: usize,
    known: Seq<i64>,
) -> bool {
    forall|leaf: Vec<i64>|
        #[trigger] keys::is_leaf::<K>(&pp.kots_a, master_seed, pp.profile, t, leaf) ==> leaf@
            == known
}

/// A leaf is the public half of the one-time key of its slot.
pub proof fn law_leaf_is_public_key<K: Kots, H: Hvc>(
    pp: &LemurPp<K, H>,
    master_seed: [u8; 32],
    t: usize,
    ss: [u8; 32],
    osk: K::Sk,
    opk: KotsPk,
)
    requires
        kots_functional::<K>(),
        call_ensures(K::slot_seed, (&master_seed, t), ss),
        call_ensures(K::kots_keygen, (&pp.kots_a, &ss, pp.profile), (osk, opk)),
    ensures
        is_the_leaf(pp, master_seed, t, opk.0@),
{
    assert forall|leaf: Vec<i64>|
        #[trigger] keys::is_leaf::<K>(&pp.kots_a, master_seed, pp.profile, t, leaf) implies leaf@
        == opk.0@ by {
        let (ss2, pk) = choose|ss2: [u8; 32], pk: KotsPk|
            #![trigger call_ensures(K::kots_pk_from_seed, (&pp.kots_a, &ss2, pp.profile), pk)]
            call_ensures(K::slot_seed, (&master_seed, t), ss2) && call_ensures(
                K::kots_pk_from_seed,
                (&pp.kots_a, &ss2, pp.profile),
                pk,
            ) && leaf == pk.0;
        assert(ss2 == ss);
    }
}

/// The leaf of a slot is the same at every call.
pub proof fn law_leaf_repeatable<K: Kots, H: Hvc>(
    pp: &LemurPp<K, H>,
    master_seed: [u8; 32],
    t: usize,
    leaf: Vec<i64>,
)
    requires
        kots_functional::<K>(),
        keys::is_leaf::<K>(&pp.kots_a, master_seed, pp.profile, t, leaf),
    ensures
        is_the_leaf(pp, master_seed, t, leaf@),
{
    let (ss1, pk1) = choose|ss: [u8; 32], pk: KotsPk|
        #![trigger call_ensures(K::kots_pk_from_seed, (&pp.kots_a, &ss, pp.profile), pk)]
        call_ensures(K::slot_seed, (&master_seed, t), ss) && call_ensures(
            K::kots_pk_from_seed,
            (&pp.kots_a, &ss, pp.profile),
            pk,
        ) && leaf == pk.0;
    assert forall|other: Vec<i64>|
        #[trigger] keys::is_leaf::<K>(&pp.kots_a, master_seed, pp.profile, t, other) implies other@
        == leaf@ by {
        let (ss2, pk2) = choose|ss: [u8; 32], pk: KotsPk|
            #![trigger call_ensures(K::kots_pk_from_seed, (&pp.kots_a, &ss, pp.profile), pk)]
            call_ensures(K::slot_seed, (&master_seed, t), ss) && call_ensures(
                K::kots_pk_from_seed,
                (&pp.kots_a, &ss, pp.profile),
                pk,
            ) && other == pk.0;
        assert(ss1 == ss2);
    }
}

/// One-time signatures under the same matrix, master seed, slot and message are the same, and so
/// are the public keys.
proof fn lemma_one_time_agrees<K: Kots, H: Hvc>(
    pp1: &LemurPp<K, H>,
    pp2: &LemurPp<K, H>,
    master_seed: [u8; 32],
    t: usize,
    msg1: &[u8],
    msg2: &[u8],
    opk1: KotsPk,
    opk2: KotsPk,
    z1: KotsSig,
    z2: KotsSig,
)
    requires
        kots_functional::<K>(),
        pp1.kots_a == pp2.kots_a,
        pp1.profile == pp2.profile,
        sign::is_one_time(pp1, master_seed, t, msg1, opk1, z1),
        sign::is_one_time(pp2, master_seed, t, msg2, opk2, z2),
    ensures
        opk1.0@ == opk2.0@,
        msg1 == msg2 ==> z1.0@ == z2.0@,
        is_the_leaf(pp1, master_seed, t, opk1.0@),
{
    let (ss1, osk1) = choose|ss: [u8; 32], osk: K::Sk|
        #![trigger call_ensures(K::kots_keygen, (&pp1.kots_a, &ss, pp1.profile), (osk, opk1))]
        call_ensures(K::slot_seed, (&master_seed, t), ss) && call_ensures(
            K::kots_keygen,
            (&pp1.kots_a, &ss, pp1.profile),
            (osk, opk1),
        ) && call_ensures(K::kots_sign, (&osk, msg1, pp1.profile), z1);
    let (ss2, osk2) = choose|ss: [u8; 32], osk: K::Sk|
        #![trigger call_ensures(K::kots_keygen, (&pp2.kots_a, &ss, pp2.profile), (osk, opk2))]
        call_ensures(K::slot_seed, (&master_seed, t), ss) && call_ensures(
            K::kots_keygen,
            (&pp2.kots_a, &ss, pp2.profile),
            (osk, opk2),
        ) && call_ensures(K::kots_sign, (&osk, msg2, pp2.profile), z2);
    assert(ss1 == ss2);
    assert(osk1 == osk2);
    law_leaf_is_public_key(pp1, master_seed, t, ss1, osk1, opk1);
}

/// A signature from the master seed: the one-time part depends on the matrix, the profile, the
/// seed, the slot and the message alone, whatever the commitments are.
pub proof fn law_one_time_part<K: Kots, H: Hvc>(
    pp1: &LemurPp<K, H>,
    pp2: &LemurPp<K, H>,
    master_seed: [u8; 32],
    t: usize,
    msg: &[u8],
    sig1: LemurSig<H>,
    sig2: LemurSig<H>,
)
    requires
        kots_functional::<K>(),
        pp1.kots_a == pp2.kots_a,
        pp1.profile == pp2.profile,
        sign::is_seed_signature(pp1, master_seed, t, msg, sig1),
        sign::is_seed_signature(pp2, master_seed, t, msg, sig2),
    ensures
        sig1.z.0@ == sig2.z.0@,
{
    let opk1 = choose|opk: KotsPk|
        #[trigger] sign::is_one_time(pp1, master_seed, t, msg, opk, sig1.z);
    let opk2 = choose|opk: KotsPk|
        #[trigger] sign::is_one_time(pp2, master_seed, t, msg, opk, sig2.z);
    lemma_one_time_agrees(
        pp1,
        pp2,
        master_seed,
        t,
        msg,
        msg,
        opk1,
        opk2,
        sig1.z,
        sig2.z,
    );
}

/// The opening of a signature from the master seed does not depend on the message, and is the same
/// under the same parameters.
pub proof fn law_opening_part<K: Kots, H: Hvc>(
    pp: &LemurPp<K, H>,
    master_seed: [u8; 32],
    t: usize,
    msg1: &[u8],
    msg2: &[u8],
    sig1: LemurSig<H>,
    sig2: LemurSig<H>,
)
    requires
        kots_functional::<K>(),
        hvc_functional::<K, H>(),
        sign::is_seed_signature(pp, master_seed, t, msg1, sig1),
        sign::is_seed_signature(pp, master_seed, t, msg2, sig2),
    ensures
        sig1.opening == sig2.opening,
{
    let opk1 = choose|opk: KotsPk|
        #![trigger sign::is_one_time(pp, master_seed, t, msg1, opk, sig1.z)]
        sign::is_one_time(pp, master_seed, t, msg1, opk, sig1.z) && call_ensures(
            H::hvc_open_with_known_leaf::<LeafSource<K>>,
            (&pp.hvc_pp.key, pp.hvc_pp.tau, t, &opk.0, &keys::leaves_of(pp, master_seed)),
            sig1.opening,
        );
    let opk2 = choose|opk: KotsPk|
        #![trigger sign::is_one_time(pp, master_seed, t, msg2, opk, sig2.z)]
        sign::is_one_time(pp, master_seed, t, msg2, opk, sig2.z) && call_ensures(
            H::hvc_open_with_known_leaf::<LeafSource<K>>,
            (&pp.hvc_pp.key, pp.hvc_pp.tau, t, &opk.0, &keys::leaves_of(pp, master_seed)),
            sig2.opening,
        );
    lemma_one_time_agrees(
        pp,
        pp,
        master_seed,
        t,
        msg1,
        msg2,
        opk1,
        opk2,
        sig1.z,
        sig2.z,
    );
}

/// Two signatures have the same coefficients and the same opening.
pub open spec fn same_signature<H: Hvc>(sig1: LemurSig<H>, sig2: LemurSig<H>) -> bool {
    sig1.z.0@ == sig2.z.0@ && sig1.opening == sig2.opening
}

/// `lemur_sign` and `lemur_sign_seed` return the same on the same arguments, at every call.
pub proof fn law_sign_is_sign_seed<K: Kots, H: Hvc>(
    pp: &LemurPp<K, H>,
    sk: LemurSk,
    t: usize,
    msg: &[u8],
    sig1: LemurSig<H>,
    sig2: LemurSig<H>,
)
    requires
        kots_functional::<K>(),
        hvc_functional::<K, H>(),
        call_ensures(sign::lemur_sign::<K, H>, (pp, &sk, t, msg), sig1),
        call_ensures(sign::lemur_sign_seed::<K, H>, (pp, &sk, t, msg), sig2),
    ensures
        same_signature(sig1, sig2),
{
    law_one_time_part(pp, pp, sk.master_seed, t, msg, sig1, sig2);
    law_opening_part(pp, sk.master_seed, t, msg, msg, sig1, sig2);
}

/// Two key generations from one master seed return the same public key and the same state.
pub proof fn law_keygen_repeatable<K: Kots, H: Hvc>(
    pp: &LemurPp<K, H>,
    master_seed: [u8; 32],
    sk1: LemurSk,
    state1: LemurStateSk<H>,
    pk1: LemurPk,
    sk2: LemurSk,
    state2: LemurStateSk<H>,
    pk2: LemurPk,
)
    requires
        hvc_functional::<K, H>(),
        keys::is_key_pair(pp, master_seed, sk1, state1, pk1),
        keys::is_key_pair(pp, master_seed, sk2, state2, pk2),
    ensures
        sk1 == sk2,
        state1 == state2,
        pk1.0.0@ == pk2.0.0@,
{
}

/// The one-time signatures are complete: a signature has its shape and is accepted under its key.
pub open spec fn kots_complete<K: Kots>(a: &K::A, profile: &Profile) -> bool {
    &&& forall|osk: K::Sk, msg: &[u8], z: KotsSig|
        #[trigger] call_ensures(K::kots_sign, (&osk, msg, profile), z) ==> z.0@.len() >= profile.m
            * profile.d
    &&& forall|
        ss: [u8; 32],
        osk: K::Sk,
        opk: KotsPk,
        msg: &[u8],
        z: KotsSig,
        leaf: Vec<i64>,
        r: Result<(), LemurError>,
    |
        #[trigger] call_ensures(K::kots_keygen, (a, &ss, profile), (osk, opk))
            && #[trigger] call_ensures(K::kots_sign, (&osk, msg, profile), z)
            && #[trigger] call_ensures(K::kots_ivrfy, (a, &leaf, msg, &z, profile), r) && leaf@
            == opk.0@ ==> r is Ok
}

/// Every leaf that a source gives at slot `t` has these coefficients.
pub open spec fn is_leaf_of_source<K: Kots>(
    leaves: LeafSource<K>,
    t: usize,
    known: Seq<i64>,
) -> bool {
    forall|leaf: Vec<i64>|
        #[trigger] call_ensures(LeafSource::<K>::leaf, (&leaves, t), leaf) ==> leaf@ == known
}

/// The commitments are complete: whatever source of leaves there is for the matrix and the profile,
/// a commitment to its leaves has its shape, and opens to the leaf that the source gives, at every
/// slot.
pub open spec fn hvc_complete<K: Kots, H: Hvc>(pp: &LemurPp<K, H>) -> bool {
    &&& forall|leaves: LeafSource<K>, c: HvcCom, cache: H::Cache|
        #[trigger] call_ensures(
            H::bds_init::<LeafSource<K>>,
            (&pp.hvc_pp.key, pp.hvc_pp.tau, &leaves),
            (c, cache),
        ) && leaves.a == &pp.kots_a && leaves.profile == pp.profile ==> c.0@.len()
            >= pp.profile.omega * pp.profile.d
    &&& forall|
        leaves: LeafSource<K>,
        c: HvcCom,
        cache: H::Cache,
        t: usize,
        known: Vec<i64>,
        opening: H::Opening,
        r: Result<Vec<i64>, LemurError>,
    |
        #[trigger] call_ensures(
            H::bds_init::<LeafSource<K>>,
            (&pp.hvc_pp.key, pp.hvc_pp.tau, &leaves),
            (c, cache),
        ) && #[trigger] call_ensures(
            H::hvc_open_with_known_leaf::<LeafSource<K>>,
            (&pp.hvc_pp.key, pp.hvc_pp.tau, t, &known, &leaves),
            opening,
        ) && #[trigger] call_ensures(
            H::hvc_ivrfy,
            (&pp.hvc_pp.key, pp.hvc_pp.tau, &c, t, &opening),
            r,
        ) && leaves.a == &pp.kots_a && leaves.profile == pp.profile && t < pow2(
            pp.hvc_pp.tau as nat,
        ) && is_leaf_of_source(leaves, t, known@) ==> (r matches Ok(leaf) && leaf@ == known@)
}

/// The leaves that the source of a signer gives are those of the signer.
proof fn lemma_source_of_signer<K: Kots, H: Hvc>(
    pp: &LemurPp<K, H>,
    master_seed: [u8; 32],
    t: usize,
    known: Seq<i64>,
)
    requires
        is_the_leaf(pp, master_seed, t, known),
    ensures
        is_leaf_of_source(keys::leaves_of(pp, master_seed), t, known),
{
    let leaves = keys::leaves_of(pp, master_seed);
    assert forall|leaf: Vec<i64>|
        #[trigger] call_ensures(LeafSource::<K>::leaf, (&leaves, t), leaf) implies leaf@
        == known by {
        assert(keys::is_leaf::<K>(&pp.kots_a, master_seed, pp.profile, t, leaf));
    }
}

/// The public key of a key pair commits to the one-time public keys of all slots: the opening of
/// an honest signature opens it to the leaf of the slot.
pub proof fn law_public_key_opens<K: Kots, H: Hvc>(
    pp: &LemurPp<K, H>,
    master_seed: [u8; 32],
    sk: LemurSk,
    state: LemurStateSk<H>,
    pk: LemurPk,
    t: usize,
    msg: &[u8],
    sig: LemurSig<H>,
    r: Result<Vec<i64>, LemurError>,
)
    requires
        kots_functional::<K>(),
        hvc_complete(pp),
        keys::is_key_pair(pp, master_seed, sk, state, pk),
        verify::in_range(t, pp.hvc_pp.tau),
        sign::is_seed_signature(pp, master_seed, t, msg, sig),
        call_ensures(
            H::hvc_ivrfy,
            (&pp.hvc_pp.key, pp.hvc_pp.tau, &pk.0, t, &sig.opening),
            r,
        ),
    ensures
        r matches Ok(leaf) && is_the_leaf(pp, master_seed, t, leaf@),
{
    let opk = choose|opk: KotsPk|
        #![trigger sign::is_one_time(pp, master_seed, t, msg, opk, sig.z)]
        sign::is_one_time(pp, master_seed, t, msg, opk, sig.z) && call_ensures(
            H::hvc_open_with_known_leaf::<LeafSource<K>>,
            (&pp.hvc_pp.key, pp.hvc_pp.tau, t, &opk.0, &keys::leaves_of(pp, master_seed)),
            sig.opening,
        );
    lemma_one_time_agrees(
        pp,
        pp,
        master_seed,
        t,
        msg,
        msg,
        opk,
        opk,
        sig.z,
        sig.z,
    );
    lemma_source_of_signer(pp, master_seed, t, opk.0@);
}

/// A one-time signature is accepted under the leaf of its slot.
proof fn lemma_one_time_accepted<K: Kots, H: Hvc>(
    pp: &LemurPp<K, H>,
    master_seed: [u8; 32],
    t: usize,
    msg: &[u8],
    opk: KotsPk,
    z: KotsSig,
    leaf: Vec<i64>,
    r: Result<(), LemurError>,
)
    requires
        kots_complete::<K>(&pp.kots_a, pp.profile),
        sign::is_one_time(pp, master_seed, t, msg, opk, z),
        leaf@ == opk.0@,
        call_ensures(K::kots_ivrfy, (&pp.kots_a, &leaf, msg, &z, pp.profile), r),
    ensures
        r is Ok,
{
    let (ss, osk) = choose|ss: [u8; 32], osk: K::Sk|
        #![trigger call_ensures(K::kots_keygen, (&pp.kots_a, &ss, pp.profile), (osk, opk))]
        call_ensures(K::slot_seed, (&master_seed, t), ss) && call_ensures(
            K::kots_keygen,
            (&pp.kots_a, &ss, pp.profile),
            (osk, opk),
        ) && call_ensures(K::kots_sign, (&osk, msg, pp.profile), z);
    assert(call_ensures(K::kots_keygen, (&pp.kots_a, &ss, pp.profile), (osk, opk)));
}

/// An honest signature is never refused: what `lemur_sign_seed` returns is accepted by
/// `lemur_ivrfy` under the public key that `lemur_keygen` returned, at every slot, in any order of
/// the slots, and for every message.
pub proof fn law_honest_signature_accepted<K: Kots, H: Hvc>(
    pp: &LemurPp<K, H>,
    master_seed: [u8; 32],
    sk: LemurSk,
    state: LemurStateSk<H>,
    pk: LemurPk,
    t: usize,
    msg: &[u8],
    sig: LemurSig<H>,
)
    requires
        kots_functional::<K>(),
        kots_complete::<K>(&pp.kots_a, pp.profile),
        hvc_complete(pp),
        keys::is_key_pair(pp, master_seed, sk, state, pk),
        verify::in_range(t, pp.hvc_pp.tau),
        sign::is_seed_signature(pp, sk.master_seed, t, msg, sig),
    ensures
        !verify::ivrfy_refuses(pp, pk, t, msg, sig),
{
    let opk = choose|opk: KotsPk|
        #![trigger sign::is_one_time(pp, master_seed, t, msg, opk, sig.z)]
        sign::is_one_time(pp, master_seed, t, msg, opk, sig.z) && call_ensures(
            H::hvc_open_with_known_leaf::<LeafSource<K>>,
            (&pp.hvc_pp.key, pp.hvc_pp.tau, t, &opk.0, &keys::leaves_of(pp, master_seed)),
            sig.opening,
        );
    lemma_one_time_agrees(
        pp,
        pp,
        master_seed,
        t,
        msg,
        msg,
        opk,
        opk,
        sig.z,
        sig.z,
    );
    lemma_source_of_signer(pp, master_seed, t, opk.0@);
    assert(verify::pk_shape_ok(pk, pp.profile));
    assert(verify::z_shape_ok(sig.z.0@, pp.profile));
    assert forall|leaf: Vec<i64>, e: LemurError|
        call_ensures(
            H::hvc_ivrfy,
            (&pp.hvc_pp.key, pp.hvc_pp.tau, &pk.0, t, &sig.opening),
            Ok(leaf),
        ) implies !#[trigger] call_ensures(
        K::kots_ivrfy,
        (&pp.kots_a, &leaf, msg, &sig.z, pp.profile),
        Err(e),
    ) by {
        if call_ensures(
            K::kots_ivrfy,
            (&pp.kots_a, &leaf, msg, &sig.z, pp.profile),
            Err(e),
        ) {
            lemma_one_time_accepted(
                pp,
                master_seed,
                t,
                msg,
                opk,
                sig.z,
                leaf,
                Err(e),
            );
        }
    }
}

/// A signer that is asked for any slot but the current one refuses.
pub proof fn law_other_slot_refused(h: usize, phi: usize, tau: usize, slot: usize)
    requires
        slot != phi,
    ensures
        sign::refusal(h, phi, tau, Some(slot)) is Some,
{
}

/// A signer that has moved on from a slot refuses to sign under it again.
pub proof fn law_used_slot_refused(h: usize, phi: usize, tau: usize)
    requires
        phi + 1 < pow2(tau as nat),
        phi < usize::MAX,
    ensures
        sign::refusal(h, (phi + 1) as usize, tau, Some(phi)) is Some,
{
}

/// The caches are complete, where `good` tells the caches at a slot of the tree over the leaves of a
/// source, with its commitment: the first cache is one, and at every slot a good cache gives an
/// opening that opens the commitment to the leaf that the source gives.
pub open spec fn caches_complete<'a, K: Kots, H: Hvc>(
    pp: &'a LemurPp<'a, K, H>,
    good: spec_fn(LeafSource<'a, K>, HvcCom, H::Cache, int) -> bool,
) -> bool {
    &&& forall|leaves: LeafSource<'a, K>, c: HvcCom, cache: H::Cache|
        #[trigger] call_ensures(
            H::bds_init::<LeafSource<K>>,
            (&pp.hvc_pp.key, pp.hvc_pp.tau, &leaves),
            (c, cache),
        ) && leaves.a == &pp.kots_a && leaves.profile == pp.profile ==> good(leaves, c, cache, 0)
    &&& forall|leaves: LeafSource<'a, K>, c: HvcCom, cache: H::Cache, t: int|
        #[trigger] good(leaves, c, cache, t) ==> c.0@.len() >= pp.profile.omega * pp.profile.d
    &&& forall|
        leaves: LeafSource<'a, K>,
        c: HvcCom,
        cache: H::Cache,
        t: usize,
        r: Result<H::Opening, LemurError>,
    |
        #[trigger] good(leaves, c, cache, t as int) && t < pow2(pp.hvc_pp.tau as nat)
            && #[trigger] call_ensures(
            H::bds_opening::<LeafSource<K>>,
            (&cache, &pp.hvc_pp.key, pp.hvc_pp.tau, t, &leaves),
            r,
        ) ==> r is Ok
    &&& forall|
        leaves: LeafSource<'a, K>,
        c: HvcCom,
        cache: H::Cache,
        t: usize,
        opening: H::Opening,
        known: Vec<i64>,
        r: Result<Vec<i64>, LemurError>,
    |
        #[trigger] good(leaves, c, cache, t as int) && t < pow2(pp.hvc_pp.tau as nat)
            && #[trigger] call_ensures(
            H::bds_opening::<LeafSource<K>>,
            (&cache, &pp.hvc_pp.key, pp.hvc_pp.tau, t, &leaves),
            Ok(opening),
        ) && #[trigger] is_leaf_of_source(leaves, t, known@) && #[trigger] call_ensures(
            H::hvc_ivrfy,
            (&pp.hvc_pp.key, pp.hvc_pp.tau, &c, t, &opening),
            r,
        ) ==> (r matches Ok(leaf) && leaf@ == known@)
}

/// `k` successful signatures from key generation on lead to slot `k`, for every `k` below the
/// number of slots: the slots come in order and each of them once.
pub proof fn law_run_reaches_slot<K: Kots, H: Hvc>(
    pp: &LemurPp<K, H>,
    master_seed: [u8; 32],
    sk: LemurSk,
    pk: LemurPk,
    states: Seq<LemurStateSk<H>>,
    k: nat,
)
    requires
        k < states.len(),
        k < pow2(pp.hvc_pp.tau as nat),
        keys::is_key_pair(pp, master_seed, sk, states[0], pk),
        forall|i: int| 0 <= i < k ==> sign::is_next_state(#[trigger] states[i], states[i + 1]),
    ensures
        states[k as int].bds.phi == k,
        states[k as int].bds.h == pp.hvc_pp.tau,
        states[k as int].master_seed == master_seed,
        sign::refusal(states[k as int].bds.h, states[k as int].bds.phi, pp.hvc_pp.tau, None)
            is None,
        sign::refusal(
            states[k as int].bds.h,
            states[k as int].bds.phi,
            pp.hvc_pp.tau,
            Some(k as usize),
        ) is None,
    decreases k,
{
    if k > 0 {
        law_run_reaches_slot(pp, master_seed, sk, pk, states, (k - 1) as nat);
        assert(sign::is_next_state(states[k - 1], states[k - 1 + 1]));
    }
}

/// After `k` successful signatures from key generation on the cache is good for slot `k`.
proof fn lemma_run_keeps_cache<'a, K: Kots, H: Hvc>(
    pp: &'a LemurPp<'a, K, H>,
    master_seed: [u8; 32],
    sk: LemurSk,
    pk: LemurPk,
    states: Seq<LemurStateSk<H>>,
    k: nat,
    good: spec_fn(LeafSource<'a, K>, HvcCom, H::Cache, int) -> bool,
)
    requires
        caches_complete(pp, good),
        forall|leaves: LeafSource<'a, K>, c: HvcCom, cache: &mut H::Cache, t: usize|
            #[trigger] good(leaves, c, *cache, t as int) && #[trigger] call_ensures(
                H::bds_advance::<LeafSource<K>>,
                (cache, &pp.hvc_pp.key, pp.hvc_pp.tau, t, &leaves),
                (),
            ) ==> good(leaves, c, *final(cache), t + 1),
        k < states.len(),
        k < pow2(pp.hvc_pp.tau as nat),
        keys::is_key_pair(pp, master_seed, sk, states[0], pk),
        forall|i: int| 0 <= i < k ==> sign::is_next_state(#[trigger] states[i], states[i + 1]),
        forall|i: int|
            0 <= i < k ==> exists|cache: &mut H::Cache|
                #![trigger call_ensures(
                    H::bds_advance::<LeafSource<K>>,
                    (
                        cache,
                        &pp.hvc_pp.key,
                        pp.hvc_pp.tau,
                        states[i].bds.phi,
                        &keys::leaves_of(pp, states[i].master_seed),
                    ),
                    (),
                )]
                *cache == (#[trigger] states[i]).bds.cache && *final(cache) == states[i
                    + 1].bds.cache && call_ensures(
                    H::bds_advance::<LeafSource<K>>,
                    (
                        cache,
                        &pp.hvc_pp.key,
                        pp.hvc_pp.tau,
                        states[i].bds.phi,
                        &keys::leaves_of(pp, states[i].master_seed),
                    ),
                    (),
                ),
    ensures
        good(keys::leaves_of(pp, master_seed), pk.0, states[k as int].bds.cache, k as int),
    decreases k,
{
    if k > 0 {
        let j = (k - 1) as nat;
        lemma_run_keeps_cache(pp, master_seed, sk, pk, states, j, good);
        law_run_reaches_slot(pp, master_seed, sk, pk, states, j);
        assert(states[j as int].bds.phi == j);
    }
}

/// After `k` successful signatures from key generation on, for every `k` below the number of
/// slots, the next signature succeeds at slot `k`, is accepted by `lemur_ivrfy` under the public
/// key, and has the one-time part that `lemur_sign_seed` returns at slot `k`.
///
/// `good` tells the caches at a slot: advancing a good cache gives a good one for the next slot.
pub proof fn law_run_signs<'a, K: Kots, H: Hvc>(
    pp: &'a LemurPp<'a, K, H>,
    master_seed: [u8; 32],
    sk: LemurSk,
    pk: LemurPk,
    states: Seq<LemurStateSk<H>>,
    k: nat,
    good: spec_fn(LeafSource<'a, K>, HvcCom, H::Cache, int) -> bool,
    msg: &[u8],
)
    requires
        kots_functional::<K>(),
        kots_complete::<K>(&pp.kots_a, pp.profile),
        caches_complete(pp, good),
        forall|leaves: LeafSource<'a, K>, c: HvcCom, cache: &mut H::Cache, t: usize|
            #[trigger] good(leaves, c, *cache, t as int) && #[trigger] call_ensures(
                H::bds_advance::<LeafSource<K>>,
                (cache, &pp.hvc_pp.key, pp.hvc_pp.tau, t, &leaves),
                (),
            ) ==> good(leaves, c, *final(cache), t + 1),
        k < states.len(),
        k < pow2(pp.hvc_pp.tau as nat),
        keys::is_key_pair(pp, master_seed, sk, states[0], pk),
        forall|i: int| 0 <= i < k ==> sign::is_next_state(#[trigger] states[i], states[i + 1]),
        forall|i: int|
            0 <= i < k ==> exists|cache: &mut H::Cache|
                #![trigger call_ensures(
                    H::bds_advance::<LeafSource<K>>,
                    (
                        cache,
                        &pp.hvc_pp.key,
                        pp.hvc_pp.tau,
                        states[i].bds.phi,
                        &keys::leaves_of(pp, states[i].master_seed),
                    ),
                    (),
                )]
                *cache == (#[trigger] states[i]).bds.cache && *final(cache) == states[i
                    + 1].bds.cache && call_ensures(
                    H::bds_advance::<LeafSource<K>>,
                    (
                        cache,
                        &pp.hvc_pp.key,
                        pp.hvc_pp.tau,
                        states[i].bds.phi,
                        &keys::leaves_of(pp, states[i].master_seed),
                    ),
                    (),
                ),
    ensures
        forall|e: LemurError| !#[trigger] sign::is_open_error(pp, states[k as int], e),
        forall|sig: LemurSig<H>|
            #[trigger] sign::is_state_signature(pp, states[k as int], msg, sig)
                ==> !verify::ivrfy_refuses(pp, pk, k as usize, msg, sig),
        forall|sig: LemurSig<H>, seed_sig: LemurSig<H>|
            #[trigger] sign::is_state_signature(pp, states[k as int], msg, sig)
                && #[trigger] sign::is_seed_signature(
                pp,
                master_seed,
                k as usize,
                msg,
                seed_sig,
            ) ==> sig.z.0@ == seed_sig.z.0@,
{
    let state = states[k as int];
    let t = k as usize;
    law_run_reaches_slot(pp, master_seed, sk, pk, states, k);
    lemma_run_keeps_cache(pp, master_seed, sk, pk, states, k, good);
    assert forall|sig: LemurSig<H>|
        #[trigger] sign::is_state_signature(pp, state, msg, sig) implies !verify::ivrfy_refuses(
        pp,
        pk,
        t,
        msg,
        sig,
    ) by {
        law_good_state_signature_accepted(pp, state, pk, good, msg, sig);
    }
    assert forall|sig: LemurSig<H>, seed_sig: LemurSig<H>|
        #[trigger] sign::is_state_signature(pp, state, msg, sig)
            && #[trigger] sign::is_seed_signature(
            pp,
            master_seed,
            t,
            msg,
            seed_sig,
        ) implies sig.z.0@ == seed_sig.z.0@ by {
        law_state_one_time_part(pp, state, msg, sig, seed_sig);
    }
}

/// A signature with the state has the one-time part of a signature from the master seed at the
/// current slot.
pub proof fn law_state_one_time_part<K: Kots, H: Hvc>(
    pp: &LemurPp<K, H>,
    state: LemurStateSk<H>,
    msg: &[u8],
    sig: LemurSig<H>,
    seed_sig: LemurSig<H>,
)
    requires
        kots_functional::<K>(),
        sign::is_state_signature(pp, state, msg, sig),
        sign::is_seed_signature(pp, state.master_seed, state.bds.phi, msg, seed_sig),
    ensures
        sig.z.0@ == seed_sig.z.0@,
{
    let ms = state.master_seed;
    let t = state.bds.phi;
    let opk1 = choose|opk: KotsPk| #[trigger] sign::is_one_time(pp, ms, t, msg, opk, sig.z);
    let opk2 = choose|opk: KotsPk| #[trigger] sign::is_one_time(pp, ms, t, msg, opk, seed_sig.z);
    lemma_one_time_agrees(pp, pp, ms, t, msg, msg, opk1, opk2, sig.z, seed_sig.z);
}

/// A signature with a state whose cache is good is never refused.
pub proof fn law_good_state_signature_accepted<'a, K: Kots, H: Hvc>(
    pp: &'a LemurPp<'a, K, H>,
    state: LemurStateSk<H>,
    pk: LemurPk,
    good: spec_fn(LeafSource<'a, K>, HvcCom, H::Cache, int) -> bool,
    msg: &[u8],
    sig: LemurSig<H>,
)
    requires
        kots_functional::<K>(),
        kots_complete::<K>(&pp.kots_a, pp.profile),
        caches_complete(pp, good),
        good(
            keys::leaves_of(pp, state.master_seed),
            pk.0,
            state.bds.cache,
            state.bds.phi as int,
        ),
        verify::in_range(state.bds.phi, pp.hvc_pp.tau),
        sign::is_state_signature(pp, state, msg, sig),
    ensures
        !verify::ivrfy_refuses(pp, pk, state.bds.phi, msg, sig),
{
    let t = state.bds.phi;
    let ms = state.master_seed;
    let opk = choose|opk: KotsPk| #[trigger] sign::is_one_time(pp, ms, t, msg, opk, sig.z);
    lemma_one_time_agrees(pp, pp, ms, t, msg, msg, opk, opk, sig.z, sig.z);
    lemma_source_of_signer(pp, ms, t, opk.0@);
    assert(verify::pk_shape_ok(pk, pp.profile));
    assert(verify::z_shape_ok(sig.z.0@, pp.profile));
    assert forall|leaf: Vec<i64>, e: LemurError|
        call_ensures(
            H::hvc_ivrfy,
            (&pp.hvc_pp.key, pp.hvc_pp.tau, &pk.0, t, &sig.opening),
            Ok(leaf),
        ) implies !#[trigger] call_ensures(
        K::kots_ivrfy,
        (&pp.kots_a, &leaf, msg, &sig.z, pp.profile),
        Err(e),
    ) by {
        if call_ensures(
            K::kots_ivrfy,
            (&pp.kots_a, &leaf, msg, &sig.z, pp.profile),
            Err(e),
        ) {
            lemma_one_time_accepted(pp, ms, t, msg, opk, sig.z, leaf, Err(e));
        }
    }
}

/// Two signatures with one state, or with a state and a copy of it, are the same: so the signer
/// that works on a copy returns what the one that works in place returns, at every call.
pub proof fn law_state_signature_repeatable<K: Kots, H: Hvc>(
    pp: &LemurPp<K, H>,
    state: LemurStateSk<H>,
    copy: LemurStateSk<H>,
    msg: &[u8],
    sig1: LemurSig<H>,
    sig2: LemurSig<H>,
)
    requires
        kots_functional::<K>(),
        hvc_functional::<K, H>(),
        clones_faithful::<H>(),
        copy == state || sign::is_copy(state, copy),
        sign::is_state_signature(pp, state, msg, sig1),
        sign::is_state_signature(pp, copy, msg, sig2),
    ensures
        same_signature(sig1, sig2),
{
    let ms = state.master_seed;
    let t = state.bds.phi;
    let opk1 = choose|opk: KotsPk| #[trigger] sign::is_one_time(pp, ms, t, msg, opk, sig1.z);
    let opk2 = choose|opk: KotsPk| #[trigger] sign::is_one_time(pp, ms, t, msg, opk, sig2.z);
    lemma_one_time_agrees(pp, pp, ms, t, msg, msg, opk1, opk2, sig1.z, sig2.z);
    assert(copy.bds.cache == state.bds.cache);
}

/// A clone of a cache is the cache.
pub open spec fn clones_faithful<H: Hvc>() -> bool {
    forall|a: H::Cache, b: H::Cache| #[trigger] cloned(a, b) ==> a == b
}

/// A copy of a state is the state.
pub proof fn law_copy_is_state<H: Hvc>(state: LemurStateSk<H>, copy: LemurStateSk<H>)
    requires
        clones_faithful::<H>(),
        sign::is_copy(state, copy),
    ensures
        copy == state,
{
}

/// Advancing one state twice gives the same state: so the signer that works on a copy leaves the
/// caller with the state that the one that works in place leaves behind, at every call.
pub proof fn law_advance_repeatable<K: Kots, H: Hvc>(
    pp: &LemurPp<K, H>,
    state: LemurStateSk<H>,
    next1: LemurStateSk<H>,
    next2: LemurStateSk<H>,
)
    requires
        forall|c1: &mut H::Cache, c2: &mut H::Cache, t: usize|
            *c1 == *c2 && #[trigger] call_ensures(
                H::bds_advance::<LeafSource<K>>,
                (
                    c1,
                    &pp.hvc_pp.key,
                    pp.hvc_pp.tau,
                    t,
                    &keys::leaves_of(pp, state.master_seed),
                ),
                (),
            ) && #[trigger] call_ensures(
                H::bds_advance::<LeafSource<K>>,
                (
                    c2,
                    &pp.hvc_pp.key,
                    pp.hvc_pp.tau,
                    t,
                    &keys::leaves_of(pp, state.master_seed),
                ),
                (),
            ) ==> *final(c1) == *final(c2),
        sign::is_next_state(state, next1),
        sign::is_next_state(state, next2),
        exists|cache: &mut H::Cache|
            #![trigger call_ensures(
                H::bds_advance::<LeafSource<K>>,
                (
                    cache,
                    &pp.hvc_pp.key,
                    pp.hvc_pp.tau,
                    state.bds.phi,
                    &keys::leaves_of(pp, state.master_seed),
                ),
                (),
            )]
            *cache == state.bds.cache && *final(cache) == next1.bds.cache && call_ensures(
                H::bds_advance::<LeafSource<K>>,
                (
                    cache,
                    &pp.hvc_pp.key,
                    pp.hvc_pp.tau,
                    state.bds.phi,
                    &keys::leaves_of(pp, state.master_seed),
                ),
                (),
            ),
        exists|cache: &mut H::Cache|
            #![trigger call_ensures(
                H::bds_advance::<LeafSource<K>>,
                (
                    cache,
                    &pp.hvc_pp.key,
                    pp.hvc_pp.tau,
                    state.bds.phi,
                    &keys::leaves_of(pp, state.master_seed),
                ),
                (),
            )]
            *cache == state.bds.cache && *final(cache) == next2.bds.cache && call_ensures(
                H::bds_advance::<LeafSource<K>>,
                (
                    cache,
                    &pp.hvc_pp.key,
                    pp.hvc_pp.tau,
                    state.bds.phi,
                    &keys::leaves_of(pp, state.master_seed),
                ),
                (),
            ),
    ensures
        next1 == next2,
{
}

/// Verification depends on the coefficients alone, and is stable: of a signature and one with the
/// same coefficients and opening, under public keys with the same coefficients, one is not
/// accepted and the other refused.
pub proof fn law_verification_is_stable<K: Kots, H: Hvc>(
    pp: &LemurPp<K, H>,
    pk1: LemurPk,
    pk2: LemurPk,
    t: usize,
    msg: &[u8],
    sig1: LemurSig<H>,
    sig2: LemurSig<H>,
)
    requires
        verdicts_functional::<K, H>(),
        pk1.0.0@ == pk2.0.0@,
        same_signature(sig1, sig2),
        verify::ivrfy_accepts(pp, pk1, t, msg, sig1),
    ensures
        !verify::ivrfy_refuses(pp, pk2, t, msg, sig2),
{
    let leaf1 = choose|leaf: Vec<i64>|
        call_ensures(
            H::hvc_ivrfy,
            (&pp.hvc_pp.key, pp.hvc_pp.tau, &pk1.0, t, &sig1.opening),
            Ok(leaf),
        ) && #[trigger] call_ensures(
            K::kots_ivrfy,
            (&pp.kots_a, &leaf, msg, &sig1.z, pp.profile),
            Ok(()),
        );
    assert forall|e: LemurError|
        !#[trigger] call_ensures(
            H::hvc_ivrfy,
            (&pp.hvc_pp.key, pp.hvc_pp.tau, &pk2.0, t, &sig2.opening),
            Err(e),
        ) by {
        assert(!same_leaf(Ok(leaf1), Err(e)));
    }
    assert forall|leaf: Vec<i64>, e: LemurError|
        call_ensures(
            H::hvc_ivrfy,
            (&pp.hvc_pp.key, pp.hvc_pp.tau, &pk2.0, t, &sig2.opening),
            Ok(leaf),
        ) implies !#[trigger] call_ensures(
        K::kots_ivrfy,
        (&pp.kots_a, &leaf, msg, &sig2.z, pp.profile),
        Err(e),
    ) by {
        assert(same_leaf(Ok(leaf1), Ok(leaf)));
        assert(!(Err::<(), LemurError>(e) is Ok));
    }
}

/// One signature that is refused keeps a set of signatures from being aggregated: what is left for
/// `lemur_aggregate` to return is `VerifyFailed`.
pub proof fn law_invalid_signature_blocks<K: Kots, H: Hvc>(
    pp: &LemurPp<K, H>,
    pks: Seq<LemurPk>,
    t: usize,
    msg: &[u8],
    sigs: Seq<LemurSig<H>>,
    i: int,
)
    requires
        verdicts_functional::<K, H>(),
        0 <= i < pks.len(),
        verify::ivrfy_refuses(pp, pks[i], t, msg, sigs[i]),
    ensures
        !aggregate::all_accepted(pp, pks, t, msg, sigs),
{
    if aggregate::all_accepted(pp, pks, t, msg, sigs) {
        law_verification_is_stable(pp, pks[i], pks[i], t, msg, sigs[i], sigs[i]);
    }
}

/// Two aggregates have the same coefficients, the same opening and the same attempt.
pub open spec fn same_aggregate<H: Hvc>(a: LemurAggSig<H>, b: LemurAggSig<H>) -> bool {
    a.z_agg.0@ == b.z_agg.0@ && a.d_agg == b.d_agg && a.attempt == b.attempt
}

/// An aggregate that verified once always verifies: what `lemur_aggregate` returns, and every
/// aggregate that is the same, is accepted by `lemur_avrfy` under public keys with the same
/// coefficients.
pub proof fn law_aggregate_verifies<K: Kots, H: Hvc>(
    pp: &LemurPp<K, H>,
    pks1: Seq<LemurPk>,
    pks2: Seq<LemurPk>,
    t: usize,
    msg: &[u8],
    agg1: LemurAggSig<H>,
    agg2: LemurAggSig<H>,
)
    requires
        verdicts_functional::<K, H>(),
        combine::pk_views(pks1) == combine::pk_views(pks2),
        same_aggregate(agg1, agg2),
        verify::avrfy_accepts(pp, pks1, t, msg, agg1),
    ensures
        !verify::avrfy_refuses(pp, pks2, t, msg, agg2),
{
    let (c1, opk1) = choose|c: HvcCom, opk: Vec<i64>|
        #![trigger call_ensures(H::hvc_svrfy, (&pp.hvc_pp.key, pp.hvc_pp.tau, &c, t, &agg1.d_agg), Ok(opk))]
        verify::is_aggregated_commitment(pp, pks1, t, msg@, agg1.attempt, c) && call_ensures(
            H::hvc_svrfy,
            (&pp.hvc_pp.key, pp.hvc_pp.tau, &c, t, &agg1.d_agg),
            Ok(opk),
        ) && call_ensures(
            K::kots_svrfy,
            (&pp.kots_a, &opk, msg, &agg1.z_agg, pp.profile),
            Ok(()),
        );
    assert(combine::pk_views(pks1).len() == pks1.len());
    assert(combine::pk_views(pks2).len() == pks2.len());
    assert forall|i: int| 0 <= i < pks2.len() implies verify::pk_shape_ok(
        #[trigger] pks2[i],
        pp.profile,
    ) by {
        assert(combine::pk_views(pks1)[i] == combine::pk_views(pks2)[i]);
        assert(verify::pk_shape_ok(pks1[i], pp.profile));
    }
    assert forall|c2: HvcCom|
        verify::is_aggregated_commitment(pp, pks2, t, msg@, agg2.attempt, c2) implies c1.0@
        == #[trigger] c2.0@ by {
        lemma_signed_injective(c1.0@, c2.0@);
    }
    assert forall|c2: HvcCom, e: LemurError|
        verify::is_aggregated_commitment(
            pp,
            pks2,
            t,
            msg@,
            agg2.attempt,
            c2,
        ) implies !#[trigger] call_ensures(
        H::hvc_svrfy,
        (&pp.hvc_pp.key, pp.hvc_pp.tau, &c2, t, &agg2.d_agg),
        Err(e),
    ) by {
        assert(c1.0@ == c2.0@);
        assert(!same_leaf(Ok(opk1), Err(e)));
    }
    assert forall|c2: HvcCom, opk2: Vec<i64>, e: LemurError|
        verify::is_aggregated_commitment(pp, pks2, t, msg@, agg2.attempt, c2)
            && #[trigger] call_ensures(
            H::hvc_svrfy,
            (&pp.hvc_pp.key, pp.hvc_pp.tau, &c2, t, &agg2.d_agg),
            Ok(opk2),
        ) implies !#[trigger] call_ensures(
        K::kots_svrfy,
        (&pp.kots_a, &opk2, msg, &agg2.z_agg, pp.profile),
        Err(e),
    ) by {
        assert(c1.0@ == c2.0@);
        assert(same_leaf(Ok(opk1), Ok(opk2)));
        assert(!(Err::<(), LemurError>(e) is Ok));
    }
}

/// Vectors with the same coefficients are the same.
pub proof fn lemma_signed_injective(a: Seq<i64>, b: Seq<i64>)
    requires
        ring::signed(a) == ring::signed(b),
    ensures
        a == b,
{
    assert(ring::signed(a).len() == a.len());
    assert(ring::signed(b).len() == b.len());
    assert forall|i: int| 0 <= i < a.len() implies #[trigger] a[i] == b[i] by {
        assert(ring::signed(a)[i] == a[i] as int);
        assert(ring::signed(b)[i] == b[i] as int);
    }
    assert(a =~= b);
}

/// Two whole runs from the same seeds agree: set-up, key generation and signing return the same
/// parameters, public keys and signatures.
pub proof fn law_runs_agree<K: Kots, H: Hvc>(
    kots_seed: [u8; 32],
    hvc_seed: [u8; 32],
    profile: &Profile,
    tau: usize,
    master_seed: [u8; 32],
    t: usize,
    msg: &[u8],
    pp1: LemurPp<K, H>,
    pp2: LemurPp<K, H>,
    sk1: LemurSk,
    sk2: LemurSk,
    state1: LemurStateSk<H>,
    state2: LemurStateSk<H>,
    pk1: LemurPk,
    pk2: LemurPk,
    sig1: LemurSig<H>,
    sig2: LemurSig<H>,
)
    requires
        kots_functional::<K>(),
        hvc_functional::<K, H>(),
        keys::is_setup(kots_seed, hvc_seed, profile, tau, pp1),
        keys::is_setup(kots_seed, hvc_seed, profile, tau, pp2),
        keys::is_key_pair(&pp1, master_seed, sk1, state1, pk1),
        keys::is_key_pair(&pp2, master_seed, sk2, state2, pk2),
        sign::is_seed_signature(&pp1, sk1.master_seed, t, msg, sig1),
        sign::is_seed_signature(&pp2, sk2.master_seed, t, msg, sig2),
    ensures
        pp1 == pp2,
        sk1 == sk2,
        state1 == state2,
        pk1.0.0@ == pk2.0.0@,
        same_signature(sig1, sig2),
{
    law_setup_depth(kots_seed, hvc_seed, profile, tau, tau, pp1, pp2);
    assert(pp1 == pp2);
    law_keygen_repeatable(&pp1, master_seed, sk1, state1, pk1, sk2, state2, pk2);
    law_one_time_part(&pp1, &pp2, master_seed, t, msg, sig1, sig2);
    law_opening_part(&pp1, master_seed, t, msg, msg, sig1, sig2);
}

/// Signatures that are the same one by one.
pub open spec fn same_signatures<H: Hvc>(
    sigs1: Seq<LemurSig<H>>,
    sigs2: Seq<LemurSig<H>>,
) -> bool {
    &&& sigs1.len() == sigs2.len()
    &&& forall|i: int|
        #![trigger sigs1[i]]
        #![trigger sigs2[i]]
        0 <= i < sigs1.len() ==> same_signature(sigs1[i], sigs2[i])
}

/// One attempt on public keys and signatures that are the same gives the same aggregate.
pub proof fn law_attempts_agree<K: Kots, H: Hvc>(
    pp: &LemurPp<K, H>,
    pks1: Seq<LemurPk>,
    pks2: Seq<LemurPk>,
    t: usize,
    msg: &[u8],
    sigs1: Seq<LemurSig<H>>,
    sigs2: Seq<LemurSig<H>>,
    attempt: usize,
    agg1: LemurAggSig<H>,
    agg2: LemurAggSig<H>,
)
    requires
        hvc_functional::<K, H>(),
        combine::pk_views(pks1) == combine::pk_views(pks2),
        same_signatures(sigs1, sigs2),
        aggregate::is_attempt(pp, pks1, t, msg, sigs1, attempt, agg1),
        aggregate::is_attempt(pp, pks2, t, msg, sigs2, attempt, agg2),
    ensures
        same_aggregate(agg1, agg2),
{
    assert(combine::pk_views(pks1).len() == pks1.len());
    assert(combine::pk_views(pks2).len() == pks2.len());
    assert forall|i: int| 0 <= i < sigs1.len() implies #[trigger] combine::z_views(sigs1)[i]
        == combine::z_views(sigs2)[i] by {
        assert(same_signature(sigs1[i], sigs2[i]));
    }
    assert(combine::z_views(sigs1) =~= combine::z_views(sigs2));
    lemma_signed_injective(agg1.z_agg.0@, agg2.z_agg.0@);
    let (ws1, os1) = choose|ws: Vec<Vec<i64>>, openings: Vec<&H::Opening>|
        #![trigger call_ensures(H::aggregate_openings_any, (&ws, &openings, pp.profile), agg1.d_agg)]
        weighted::views(ws@) == verify::weights(pp, pks1, t, msg@, attempt)
            && aggregate::are_openings(sigs1, openings@) && call_ensures(
            H::aggregate_openings_any,
            (&ws, &openings, pp.profile),
            agg1.d_agg,
        );
    let (ws2, os2) = choose|ws: Vec<Vec<i64>>, openings: Vec<&H::Opening>|
        #![trigger call_ensures(H::aggregate_openings_any, (&ws, &openings, pp.profile), agg2.d_agg)]
        weighted::views(ws@) == verify::weights(pp, pks2, t, msg@, attempt)
            && aggregate::are_openings(sigs2, openings@) && call_ensures(
            H::aggregate_openings_any,
            (&ws, &openings, pp.profile),
            agg2.d_agg,
        );
    assert forall|i: int| 0 <= i < sigs1.len() implies #[trigger] os1@[i] == os2@[i] by {
        assert(same_signature(sigs1[i], sigs2[i]));
    }
    assert(os1@ =~= os2@);
}

/// An attempt that is accepted of some public keys and signatures is not refused of the same ones.
pub proof fn lemma_accepted_attempt<K: Kots, H: Hvc>(
    pp: &LemurPp<K, H>,
    pks1: Seq<LemurPk>,
    pks2: Seq<LemurPk>,
    t: usize,
    msg: &[u8],
    sigs1: Seq<LemurSig<H>>,
    sigs2: Seq<LemurSig<H>>,
    agg: LemurAggSig<H>,
)
    requires
        hvc_functional::<K, H>(),
        verdicts_functional::<K, H>(),
        combine::pk_views(pks1) == combine::pk_views(pks2),
        same_signatures(sigs1, sigs2),
        aggregate::is_attempt(pp, pks1, t, msg, sigs1, agg.attempt, agg),
        verify::avrfy_accepts(pp, pks1, t, msg, agg),
    ensures
        !aggregate::attempt_refused(pp, pks2, t, msg, sigs2, agg.attempt),
{
    if aggregate::attempt_refused(pp, pks2, t, msg, sigs2, agg.attempt) {
        let other = choose|other: LemurAggSig<H>|
            #[trigger] aggregate::is_attempt(pp, pks2, t, msg, sigs2, agg.attempt, other)
                && verify::avrfy_refuses(pp, pks2, t, msg, other);
        law_attempts_agree(pp, pks1, pks2, t, msg, sigs1, sigs2, agg.attempt, agg, other);
        law_aggregate_verifies(pp, pks1, pks2, t, msg, agg, other);
    }
}

/// The attempt of an aggregate is the least whose aggregate verifies: every aggregate that an
/// earlier attempt gives is not accepted, at any call.
pub proof fn law_earlier_attempts_refused<K: Kots, H: Hvc>(
    pp: &LemurPp<K, H>,
    pks: Seq<LemurPk>,
    t: usize,
    msg: &[u8],
    sigs: Seq<LemurSig<H>>,
    agg: LemurAggSig<H>,
    earlier: LemurAggSig<H>,
)
    requires
        hvc_functional::<K, H>(),
        verdicts_functional::<K, H>(),
        aggregate::is_first_accepted(pp, pks, t, msg, sigs, agg),
        1 <= earlier.attempt < agg.attempt,
        aggregate::is_attempt(pp, pks, t, msg, sigs, earlier.attempt, earlier),
    ensures
        !verify::avrfy_accepts(pp, pks, t, msg, earlier),
{
    assert(aggregate::attempt_refused(pp, pks, t, msg, sigs, earlier.attempt));
    if verify::avrfy_accepts(pp, pks, t, msg, earlier) {
        lemma_accepted_attempt(pp, pks, pks, t, msg, sigs, sigs, earlier);
    }
}

/// Signatures that are accepted of some public keys and signatures are not refused of the same
/// ones.
pub proof fn lemma_accepted_signatures<K: Kots, H: Hvc>(
    pp: &LemurPp<K, H>,
    pks1: Seq<LemurPk>,
    pks2: Seq<LemurPk>,
    t: usize,
    msg: &[u8],
    sigs1: Seq<LemurSig<H>>,
    sigs2: Seq<LemurSig<H>>,
)
    requires
        verdicts_functional::<K, H>(),
        combine::pk_views(pks1) == combine::pk_views(pks2),
        same_signatures(sigs1, sigs2),
        aggregate::all_accepted(pp, pks1, t, msg, sigs1),
    ensures
        0 < sigs2.len() == pks2.len(),
        !aggregate::some_refused(pp, pks2, t, msg, sigs2),
{
    assert(combine::pk_views(pks1).len() == pks1.len());
    assert(combine::pk_views(pks2).len() == pks2.len());
    assert forall|i: int| 0 <= i < pks2.len() implies !#[trigger] verify::ivrfy_refuses(
        pp,
        pks2[i],
        t,
        msg,
        sigs2[i],
    ) by {
        assert(combine::pk_views(pks1)[i] == combine::pk_views(pks2)[i]);
        assert(same_signature(sigs1[i], sigs2[i]));
        law_verification_is_stable(pp, pks1[i], pks2[i], t, msg, sigs1[i], sigs2[i]);
    }
}

/// Aggregation returns `VerifyFailed` exactly where the lists do not match, are empty, or hold a
/// signature that is refused.
pub proof fn law_verify_failed_exactly<K: Kots, H: Hvc>(
    pp: &LemurPp<K, H>,
    pks: Seq<LemurPk>,
    t: usize,
    msg: &[u8],
    sigs: Seq<LemurSig<H>>,
    r: Result<LemurAggSig<H>, LemurError>,
)
    requires
        verdicts_functional::<K, H>(),
        aggregate::is_aggregation(pp, pks, t, msg, sigs, r),
    ensures
        (r matches Err(e) && e == LemurError::VerifyFailed) <==> sigs.len() != pks.len()
            || sigs.len() == 0 || aggregate::some_refused(pp, pks, t, msg, sigs),
{
    if aggregate::all_accepted(pp, pks, t, msg, sigs) {
        lemma_accepted_signatures(pp, pks, pks, t, msg, sigs, sigs);
    }
}

/// Aggregation at a slot out of range returns `VerifyFailed`, whatever the two schemes answer.
pub proof fn law_slot_out_of_range<K: Kots, H: Hvc>(
    pp: &LemurPp<K, H>,
    pks: Seq<LemurPk>,
    t: usize,
    msg: &[u8],
    sigs: Seq<LemurSig<H>>,
    r: Result<LemurAggSig<H>, LemurError>,
)
    requires
        aggregate::is_aggregation(pp, pks, t, msg, sigs, r),
        !verify::in_range(t, pp.hvc_pp.tau),
    ensures
        r matches Err(e) && e == LemurError::VerifyFailed,
{
    if aggregate::all_accepted(pp, pks, t, msg, sigs) {
        assert(verify::ivrfy_accepts(pp, pks[0], t, msg, sigs[0]));
    }
}

/// Two results of aggregation are the same aggregate, from the same attempt, or the same error.
pub open spec fn same_result<H: Hvc>(
    r1: Result<LemurAggSig<H>, LemurError>,
    r2: Result<LemurAggSig<H>, LemurError>,
) -> bool {
    match (r1, r2) {
        (Ok(agg1), Ok(agg2)) => same_aggregate(agg1, agg2),
        (Err(e1), Err(e2)) => e1 == e2,
        _ => false,
    }
}

/// Two aggregations of public keys and signatures that are the same return the same aggregate,
/// from the same attempt, or the same error.
pub proof fn law_aggregations_agree<K: Kots, H: Hvc>(
    pp: &LemurPp<K, H>,
    pks1: Seq<LemurPk>,
    pks2: Seq<LemurPk>,
    t: usize,
    msg: &[u8],
    sigs1: Seq<LemurSig<H>>,
    sigs2: Seq<LemurSig<H>>,
    r1: Result<LemurAggSig<H>, LemurError>,
    r2: Result<LemurAggSig<H>, LemurError>,
)
    requires
        hvc_functional::<K, H>(),
        verdicts_functional::<K, H>(),
        combine::pk_views(pks1) == combine::pk_views(pks2),
        same_signatures(sigs1, sigs2),
        aggregate::is_aggregation(pp, pks1, t, msg, sigs1, r1),
        aggregate::is_aggregation(pp, pks2, t, msg, sigs2, r2),
    ensures
        same_result(r1, r2),
{
    assert forall|i: int|
        #![trigger sigs1[i]]
        #![trigger sigs2[i]]
        0 <= i < sigs1.len() implies same_signature(sigs2[i], sigs1[i]) by {
        assert(same_signature(sigs1[i], sigs2[i]));
    }
    assert(same_signatures(sigs2, sigs1));
    if aggregate::all_accepted(pp, pks1, t, msg, sigs1) {
        lemma_accepted_signatures(pp, pks1, pks2, t, msg, sigs1, sigs2);
    }
    if aggregate::all_accepted(pp, pks2, t, msg, sigs2) {
        lemma_accepted_signatures(pp, pks2, pks1, t, msg, sigs2, sigs1);
    }
    if let Ok(agg1) = r1 {
        lemma_accepted_attempt(pp, pks1, pks2, t, msg, sigs1, sigs2, agg1);
    }
    if let Ok(agg2) = r2 {
        lemma_accepted_attempt(pp, pks2, pks1, t, msg, sigs2, sigs1, agg2);
    }
    if let (Ok(agg1), Ok(agg2)) = (r1, r2) {
        assert(agg1.attempt == agg2.attempt);
        law_attempts_agree(pp, pks1, pks2, t, msg, sigs1, sigs2, agg1.attempt, agg1, agg2);
    }
}

/// What a run of several signers makes: parameters from the seeds, a key pair and a signature from
/// the master seed of every signer, and the result of the aggregation.
pub open spec fn is_run<K: Kots, H: Hvc>(
    kots_seed: [u8; 32],
    hvc_seed: [u8; 32],
    profile: &Profile,
    tau: usize,
    master_seeds: Seq<[u8; 32]>,
    t: usize,
    msg: &[u8],
    pp: LemurPp<K, H>,
    sks: Seq<LemurSk>,
    states: Seq<LemurStateSk<H>>,
    pks: Seq<LemurPk>,
    sigs: Seq<LemurSig<H>>,
    r: Result<LemurAggSig<H>, LemurError>,
) -> bool {
    &&& keys::is_setup(kots_seed, hvc_seed, profile, tau, pp)
    &&& sks.len() == master_seeds.len()
    &&& states.len() == master_seeds.len()
    &&& pks.len() == master_seeds.len()
    &&& sigs.len() == master_seeds.len()
    &&& forall|i: int|
        #![trigger pks[i]]
        #![trigger sigs[i]]
        0 <= i < master_seeds.len() ==> keys::is_key_pair(
            &pp,
            master_seeds[i],
            sks[i],
            states[i],
            pks[i],
        ) && sign::is_seed_signature(&pp, sks[i].master_seed, t, msg, sigs[i])
    &&& aggregate::is_aggregation(&pp, pks, t, msg, sigs, r)
}

/// Two whole runs of several signers from the same seeds agree: the same parameters, public keys
/// and signatures, and the same aggregate or the same error.
pub proof fn law_whole_runs_agree<K: Kots, H: Hvc>(
    kots_seed: [u8; 32],
    hvc_seed: [u8; 32],
    profile: &Profile,
    tau: usize,
    master_seeds: Seq<[u8; 32]>,
    t: usize,
    msg: &[u8],
    pp1: LemurPp<K, H>,
    sks1: Seq<LemurSk>,
    states1: Seq<LemurStateSk<H>>,
    pks1: Seq<LemurPk>,
    sigs1: Seq<LemurSig<H>>,
    r1: Result<LemurAggSig<H>, LemurError>,
    pp2: LemurPp<K, H>,
    sks2: Seq<LemurSk>,
    states2: Seq<LemurStateSk<H>>,
    pks2: Seq<LemurPk>,
    sigs2: Seq<LemurSig<H>>,
    r2: Result<LemurAggSig<H>, LemurError>,
)
    requires
        kots_functional::<K>(),
        hvc_functional::<K, H>(),
        verdicts_functional::<K, H>(),
        is_run(
            kots_seed,
            hvc_seed,
            profile,
            tau,
            master_seeds,
            t,
            msg,
            pp1,
            sks1,
            states1,
            pks1,
            sigs1,
            r1,
        ),
        is_run(
            kots_seed,
            hvc_seed,
            profile,
            tau,
            master_seeds,
            t,
            msg,
            pp2,
            sks2,
            states2,
            pks2,
            sigs2,
            r2,
        ),
    ensures
        pp1 == pp2,
        combine::pk_views(pks1) == combine::pk_views(pks2),
        same_signatures(sigs1, sigs2),
        same_result(r1, r2),
{
    law_setup_depth(kots_seed, hvc_seed, profile, tau, tau, pp1, pp2);
    assert(pp1 == pp2);
    assert forall|i: int| 0 <= i < master_seeds.len() implies pks1[i].0.0@ == (
    #[trigger] pks2[i]).0.0@ && same_signature(sigs1[i], sigs2[i]) by {
        assert(keys::is_key_pair(&pp1, master_seeds[i], sks1[i], states1[i], pks1[i]));
        law_runs_agree(
            kots_seed,
            hvc_seed,
            profile,
            tau,
            master_seeds[i],
            t,
            msg,
            pp1,
            pp2,
            sks1[i],
            sks2[i],
            states1[i],
            states2[i],
            pks1[i],
            pks2[i],
            sigs1[i],
            sigs2[i],
        );
    }
    let v1 = combine::pk_views(pks1);
    let v2 = combine::pk_views(pks2);
    assert forall|i: int| 0 <= i < v1.len() implies #[trigger] v1[i] == v2[i] by {
        assert(pks1[i].0.0@ == pks2[i].0.0@);
    }
    assert(v1 =~= v2);
    assert forall|i: int|
        #![trigger sigs1[i]]
        #![trigger sigs2[i]]
        0 <= i < sigs1.len() implies same_signature(sigs1[i], sigs2[i]) by {
        assert(pks1[i].0.0@ == pks2[i].0.0@);
    }
    law_aggregations_agree(&pp1, pks1, pks2, t, msg, sigs1, sigs2, r1, r2);
}

/// Two calls of the signer that works on a copy, on one state, return the same signature, next
/// state and slot, and the slot is the current one; or both fail.
pub proof fn law_snapshot_repeatable<K: Kots, H: Hvc>(
    pp: &LemurPp<K, H>,
    state: LemurStateSk<H>,
    msg: &[u8],
    t: Option<usize>,
    r1: Result<(LemurSig<H>, LemurStateSk<H>, usize), LemurError>,
    r2: Result<(LemurSig<H>, LemurStateSk<H>, usize), LemurError>,
)
    requires
        kots_functional::<K>(),
        hvc_functional::<K, H>(),
        clones_faithful::<H>(),
        forall|c1: &mut H::Cache, c2: &mut H::Cache, t: usize|
            *c1 == *c2 && #[trigger] call_ensures(
                H::bds_advance::<LeafSource<K>>,
                (
                    c1,
                    &pp.hvc_pp.key,
                    pp.hvc_pp.tau,
                    t,
                    &keys::leaves_of(pp, state.master_seed),
                ),
                (),
            ) && #[trigger] call_ensures(
                H::bds_advance::<LeafSource<K>>,
                (
                    c2,
                    &pp.hvc_pp.key,
                    pp.hvc_pp.tau,
                    t,
                    &keys::leaves_of(pp, state.master_seed),
                ),
                (),
            ) ==> *final(c1) == *final(c2),
        pp.hvc_pp.tau < usize::BITS,
        call_ensures(sign::lemur_sign_stateful::<K, H>, (pp, &state, msg, t), r1),
        call_ensures(sign::lemur_sign_stateful::<K, H>, (pp, &state, msg, t), r2),
    ensures
        match (r1, r2) {
            (Ok((sig1, next1, slot1)), Ok((sig2, next2, slot2))) => {
                &&& same_signature(sig1, sig2)
                &&& next1 == next2
                &&& slot1 == slot2 == state.bds.phi
            },
            (Err(_), Err(_)) => true,
            _ => false,
        },
{
    if sign::refusal(state.bds.h, state.bds.phi, pp.hvc_pp.tau, t) is None {
        assert forall|copy: LemurStateSk<H>| #[trigger] sign::is_copy(state, copy) implies copy
            == state by {
            law_copy_is_state(state, copy);
        }
        if let (Ok((sig1, next1, slot1)), Ok((sig2, next2, slot2))) = (r1, r2) {
            law_state_signature_repeatable(pp, state, state, msg, sig1, sig2);
            if slot1 + 1 < pow2(pp.hvc_pp.tau as nat) {
                law_advance_repeatable(pp, state, next1, next2);
            }
        }
    }
}

} // verus!
