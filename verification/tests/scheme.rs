use lemur::aux_ntt::CrtConfig;
use lemur::error::LemurError;
use lemur::hvc::{BdsState, Hvc, HvcCom, Leaves};
use lemur::kots::{Kots, KotsPk, KotsSig};
use lemur::lemur::bench_internals::{
    aggregate_kots_z, concat_pk_bytes_pub, hash_to_randomizers_pub, weighted_sum_commitments_pub,
};
use lemur::lemur::keys::LeafSource;
use lemur::lemur::{
    aggregate_vec_crt_ntt, lemur_aggregate, lemur_avrfy, lemur_ivrfy, lemur_keygen, lemur_make_stateful_sk,
    lemur_setup_with_profile, lemur_setup_with_profile_and_tau, lemur_sign, lemur_sign_seed,
    lemur_sign_stateful, lemur_sign_stateful_mut, LemurAggSig, LemurPk, LemurPp, LemurSig, LemurSk,
};
use lemur::poly::{RingParams, RingParams64};
use lemur::profile::{d256_k4, HvcRing, Profile};

// Two small linear schemes stand in for the one-time signatures and the commitments.  They keep no
// secrets; they are linear in the way that aggregation needs.

fn mix(seed: &[u8; 32], i: usize) -> i64 {
    let x = (seed[i % 32] as usize + 7 * i + 3 * seed[(i / 32) % 32] as usize) % 7;
    x as i64 - 3
}

/// The secret key is a small vector, the public key the vector itself, and a signature a multiple
/// of it that depends on the message.
struct Linear;

fn challenge(msg: &[u8]) -> i64 {
    1 + msg.iter().map(|b| *b as i64).sum::<i64>() % 11
}

fn check_multiple(opk: &[i64], msg: &[u8], sig: &KotsSig) -> Result<(), LemurError> {
    let c = challenge(msg);
    if sig.0.len() != opk.len() {
        return Err(LemurError::InvalidEncoding("length".to_string()));
    }
    if sig.0.iter().zip(opk).all(|(z, s)| *z == c * *s) {
        Ok(())
    } else {
        Err(LemurError::VerifyFailed)
    }
}

impl Kots for Linear {
    type A = ();
    type Sk = Vec<i64>;

    fn slot_seed(master_seed: &[u8; 32], t: usize) -> [u8; 32] {
        let mut s = *master_seed;
        for (i, b) in s.iter_mut().enumerate() {
            *b = b.wrapping_mul(5).wrapping_add((t * (i + 1)) as u8);
        }
        s
    }

    fn kots_setup(_seed: &[u8; 32], _profile: &Profile) -> Self::A {}

    fn kots_keygen(a: &(), slot_seed: &[u8; 32], profile: &Profile) -> (Vec<i64>, KotsPk) {
        let pk = Self::kots_pk_from_seed(a, slot_seed, profile);
        (pk.0.clone(), pk)
    }

    fn kots_pk_from_seed(_a: &(), slot_seed: &[u8; 32], profile: &Profile) -> KotsPk {
        KotsPk((0..profile.m * profile.d).map(|i| mix(slot_seed, i)).collect())
    }

    fn kots_sign(sk: &Vec<i64>, msg: &[u8], _profile: &Profile) -> KotsSig {
        let c = challenge(msg);
        KotsSig(sk.iter().map(|s| c * *s).collect())
    }

    fn kots_ivrfy(
        _a: &(),
        opk: &Vec<i64>,
        msg: &[u8],
        sig: &KotsSig,
        profile: &Profile,
    ) -> Result<(), LemurError> {
        if sig.0.iter().any(|z| z.abs() > profile.beta_z) {
            return Err(LemurError::VerifyFailed);
        }
        check_multiple(opk, msg, sig)
    }

    fn kots_svrfy(
        _a: &(),
        opk: &Vec<i64>,
        msg: &[u8],
        sig: &KotsSig,
        _profile: &Profile,
    ) -> Result<(), LemurError> {
        check_multiple(opk, msg, sig)
    }
}

/// As `Linear`, but aggregates that begin with an odd number are refused, or all of them.
struct Picky<const ALL: bool>;

type NoAggregates = Picky<true>;
type EvenAggregates = Picky<false>;

impl<const ALL: bool> Kots for Picky<ALL> {
    type A = ();
    type Sk = Vec<i64>;

    fn slot_seed(master_seed: &[u8; 32], t: usize) -> [u8; 32] {
        Linear::slot_seed(master_seed, t)
    }

    fn kots_setup(seed: &[u8; 32], profile: &Profile) -> Self::A {
        Linear::kots_setup(seed, profile)
    }

    fn kots_keygen(a: &(), slot_seed: &[u8; 32], profile: &Profile) -> (Vec<i64>, KotsPk) {
        Linear::kots_keygen(a, slot_seed, profile)
    }

    fn kots_pk_from_seed(a: &(), slot_seed: &[u8; 32], profile: &Profile) -> KotsPk {
        Linear::kots_pk_from_seed(a, slot_seed, profile)
    }

    fn kots_sign(sk: &Vec<i64>, msg: &[u8], profile: &Profile) -> KotsSig {
        Linear::kots_sign(sk, msg, profile)
    }

    fn kots_ivrfy(
        a: &(),
        opk: &Vec<i64>,
        msg: &[u8],
        sig: &KotsSig,
        profile: &Profile,
    ) -> Result<(), LemurError> {
        Linear::kots_ivrfy(a, opk, msg, sig, profile)
    }

    fn kots_svrfy(
        a: &(),
        opk: &Vec<i64>,
        msg: &[u8],
        sig: &KotsSig,
        profile: &Profile,
    ) -> Result<(), LemurError> {
        if ALL || sig.0[0] % 2 != 0 {
            return Err(LemurError::InvalidEncoding("too long".to_string()));
        }
        Linear::kots_svrfy(a, opk, msg, sig, profile)
    }
}

/// The commitment is the sum over the slots `t` of `(t + 1)` times the folded leaf; an opening is
/// the leaf and the rest of the sum.
struct Sums;

struct SumsKey {
    d: usize,
    omega: usize,
    q: i64,
}

#[derive(Clone)]
struct SumsCache {
    at: usize,
    broken: bool,
}

struct SumsOpening {
    leaf: Vec<i64>,
    rest: Vec<i64>,
}

fn fold(leaf: &[i64], key: &SumsKey) -> Vec<i64> {
    let len = key.omega * key.d;
    let mut r = vec![0i64; len];
    for (i, x) in leaf.iter().enumerate() {
        r[i % len] = (r[i % len] + x).rem_euclid(key.q);
    }
    r
}

fn rest<L: Leaves>(key: &SumsKey, tau: usize, without: Option<usize>, leaves: &L) -> Vec<i64> {
    let mut r = vec![0i64; key.omega * key.d];
    for t in 0..1usize << tau {
        if Some(t) != without {
            for (x, y) in r.iter_mut().zip(fold(&leaves.leaf(t), key)) {
                *x = (*x + (t as i64 + 1) * y).rem_euclid(key.q);
            }
        }
    }
    r
}

fn check_opening(
    key: &SumsKey,
    c: &HvcCom,
    t: usize,
    opening: &SumsOpening,
) -> Result<Vec<i64>, LemurError> {
    let f = fold(&opening.leaf, key);
    for i in 0..key.omega * key.d {
        let x = (t as i64 + 1) * f[i] + opening.rest[i];
        if x.rem_euclid(key.q) != c.0[i].rem_euclid(key.q) {
            return Err(LemurError::InvalidEncoding("opening".to_string()));
        }
    }
    Ok(opening.leaf.clone())
}

fn weighted(ws: &[Vec<i64>], vs: &[&[i64]], d: usize) -> Vec<i64> {
    let mut r = vec![0i64; vs[0].len()];
    for (w, v) in ws.iter().zip(vs) {
        for (i, wi) in w.iter().enumerate().filter(|(_, wi)| **wi != 0) {
            for (j, x) in v.iter().enumerate() {
                let k = i + j % d;
                let off = j - j % d;
                if k < d {
                    r[off + k] += wi * x;
                } else {
                    r[off + k - d] -= wi * x;
                }
            }
        }
    }
    r
}

impl Hvc for Sums {
    type Key = SumsKey;
    type Opening = SumsOpening;
    type Cache = SumsCache;

    fn hvc_setup_with_profile_and_tau(_seed: &[u8; 32], profile: &Profile, _tau: usize) -> SumsKey {
        SumsKey {
            d: profile.d,
            omega: profile.omega,
            q: profile.q_hvc() as i64,
        }
    }

    fn bds_init<L: Leaves>(key: &SumsKey, tau: usize, leaves: &L) -> (HvcCom, SumsCache) {
        (
            HvcCom(rest(key, tau, None, leaves)),
            SumsCache { at: 0, broken: false },
        )
    }

    fn hvc_open_with_known_leaf<L: Leaves>(
        key: &SumsKey,
        tau: usize,
        t: usize,
        known: &Vec<i64>,
        leaves: &L,
    ) -> SumsOpening {
        SumsOpening {
            leaf: known.clone(),
            rest: rest(key, tau, Some(t), leaves),
        }
    }

    fn bds_opening<L: Leaves>(
        cache: &SumsCache,
        key: &SumsKey,
        tau: usize,
        t: usize,
        leaves: &L,
    ) -> Result<SumsOpening, LemurError> {
        if cache.broken || cache.at != t {
            return Err(LemurError::InvalidEncoding("cache".to_string()));
        }
        Ok(SumsOpening {
            leaf: leaves.leaf(t),
            rest: rest(key, tau, Some(t), leaves),
        })
    }

    fn bds_advance<L: Leaves>(
        cache: &mut SumsCache,
        _key: &SumsKey,
        _tau: usize,
        t: usize,
        _leaves: &L,
    ) {
        assert_eq!(cache.at, t);
        cache.at += 1;
    }

    fn hvc_ivrfy(
        key: &SumsKey,
        _tau: usize,
        c: &HvcCom,
        t: usize,
        opening: &SumsOpening,
    ) -> Result<Vec<i64>, LemurError> {
        check_opening(key, c, t, opening)
    }

    fn hvc_svrfy(
        key: &SumsKey,
        _tau: usize,
        c: &HvcCom,
        t: usize,
        opening: &SumsOpening,
    ) -> Result<Vec<i64>, LemurError> {
        check_opening(key, c, t, opening)
    }

    fn aggregate_openings_any(
        ws: &Vec<Vec<i64>>,
        openings: &Vec<&SumsOpening>,
        profile: &Profile,
    ) -> SumsOpening {
        let leaves: Vec<&[i64]> = openings.iter().map(|o| o.leaf.as_slice()).collect();
        let rests: Vec<&[i64]> = openings.iter().map(|o| o.rest.as_slice()).collect();
        SumsOpening {
            leaf: weighted(ws, &leaves, profile.d),
            rest: weighted(ws, &rests, profile.d),
        }
    }
}

type Pp<'a> = LemurPp<'a, Linear, Sums>;

fn setup(profile: &Profile) -> Pp<'_> {
    lemur_setup_with_profile_and_tau(&[0x5au8; 32], &[0xa5u8; 32], profile, 3)
}

fn signers(pp: &Pp, n: u8, slot: usize, msg: &[u8]) -> (Vec<LemurPk>, Vec<LemurSig<Sums>>) {
    let mut pks = Vec::new();
    let mut sigs = Vec::new();
    for i in 0..n {
        let (sk, _, pk) = lemur_keygen(pp, &[i + 1; 32]);
        sigs.push(lemur_sign_seed(pp, &sk, slot, msg));
        pks.push(pk);
    }
    (pks, sigs)
}

fn invalid(r: LemurError) -> String {
    match r {
        LemurError::InvalidEncoding(text) => text,
        _ => panic!("another error"),
    }
}

#[test]
fn honest_aggregate_still_passes_avrfy() {
    // End-to-end: an honest 2-signer aggregate at tau=3 verifies.
    let profile: &Profile = &d256_k4();
    let kots_seed = [0x5au8; 32];
    let hvc_seed = [0xa5u8; 32];
    let pp: LemurPp<Linear, Sums> =
        lemur_setup_with_profile_and_tau(&kots_seed, &hvc_seed, profile, 3);

    let (sk0, _state0, pk0) = lemur_keygen(&pp, &[1u8; 32]);
    let (sk1, _state1, pk1) = lemur_keygen(&pp, &[2u8; 32]);

    let msg = b"proj-norm regression after fix";
    let slot = 1usize;

    let sig0 = lemur_sign_seed(&pp, &sk0, slot, msg);
    let sig1 = lemur_sign_seed(&pp, &sk1, slot, msg);
    lemur_ivrfy(&pp, &pk0, slot, msg, &sig0).expect("ivrfy 0 must accept honest sig");
    lemur_ivrfy(&pp, &pk1, slot, msg, &sig1).expect("ivrfy 1 must accept honest sig");

    let pks = vec![pk0, pk1];
    let sigs = vec![sig0, sig1];
    let agg = lemur_aggregate(&pp, &pks, slot, msg, &sigs)
        .ok()
        .expect("honest aggregate must succeed");
    lemur_avrfy(&pp, &pks, slot, msg, &agg).expect("honest aggregate must verify");
}

#[test]
fn setup_keeps_its_arguments() {
    let profile = d256_k4();
    let pp: Pp = lemur_setup_with_profile(&[1u8; 32], &[2u8; 32], &profile);
    assert_eq!(pp.kots_seed, [1u8; 32]);
    assert_eq!(pp.hvc_seed, [2u8; 32]);
    assert_eq!(pp.hvc_pp.tau, 20);
    assert_eq!(pp.profile.name, "D256_K4");
    assert_eq!(setup(&profile).hvc_pp.tau, 3);
}

#[test]
fn key_generation_starts_at_slot_zero() {
    let profile = d256_k4();
    let pp = setup(&profile);
    let (sk, state, pk) = lemur_keygen(&pp, &[9u8; 32]);
    assert_eq!(sk.master_seed, [9u8; 32]);
    assert_eq!(state.master_seed, [9u8; 32]);
    assert_eq!((state.bds.h, state.bds.phi), (3, 0));
    assert_eq!(pk.0 .0.len(), profile.omega * profile.d);
}

#[test]
fn sign_is_sign_seed() {
    let profile = d256_k4();
    let pp = setup(&profile);
    let sk = LemurSk { master_seed: [4u8; 32] };
    let a = lemur_sign(&pp, &sk, 5, b"m");
    let b = lemur_sign_seed(&pp, &sk, 5, b"m");
    assert_eq!(a.z.0, b.z.0);
    assert_eq!(a.opening.leaf, b.opening.leaf);
    assert_eq!(a.opening.rest, b.opening.rest);
}

#[test]
fn honest_signatures_verify_at_every_slot() {
    let profile = d256_k4();
    let pp = setup(&profile);
    let (sk, _, pk) = lemur_keygen(&pp, &[3u8; 32]);
    for slot in 0..8 {
        let sig = lemur_sign_seed(&pp, &sk, slot, b"message");
        // What was accepted once is accepted again.
        assert!(lemur_ivrfy(&pp, &pk, slot, b"message", &sig).is_ok());
        assert!(lemur_ivrfy(&pp, &pk, slot, b"message", &sig).is_ok());
        assert!(lemur_ivrfy(&pp, &pk, (slot + 1) % 8, b"message", &sig).is_err());
        assert!(lemur_ivrfy(&pp, &pk, slot, b"messagf", &sig).is_err());
    }
}

#[test]
fn stateful_signer_walks_the_slots_and_stays_at_the_last() {
    let profile = d256_k4();
    let pp = setup(&profile);
    let (_, mut state, pk) = lemur_keygen(&pp, &[3u8; 32]);
    for slot in 0..8 {
        let (sig, at) = lemur_sign_stateful_mut(&pp, &mut state, b"m", None).ok().unwrap();
        assert_eq!(at, slot);
        assert_eq!(state.bds.phi, if slot < 7 { slot + 1 } else { 7 });
        assert_eq!(state.bds.cache.at, state.bds.phi);
        assert!(lemur_ivrfy(&pp, &pk, slot, b"m", &sig).is_ok());
    }
    let (_, at) = lemur_sign_stateful_mut(&pp, &mut state, b"m", Some(7)).ok().unwrap();
    assert_eq!(at, 7);
    assert_eq!(state.bds.phi, 7);
}

#[test]
fn stateful_signer_refuses_another_depth() {
    let profile = d256_k4();
    let pp = setup(&profile);
    let (_, mut state, _) = lemur_keygen(&pp, &[3u8; 32]);
    state.bds.h = 12;
    let e = lemur_sign_stateful_mut(&pp, &mut state, b"m", None).err().unwrap();
    assert_eq!(invalid(e), "stateful sk tau=12 does not match pp tau=3");
    assert_eq!((state.bds.phi, state.bds.cache.at), (0, 0));
}

#[test]
fn stateful_signer_refuses_another_slot() {
    let profile = d256_k4();
    let pp = setup(&profile);
    let (_, mut state, _) = lemur_keygen(&pp, &[3u8; 32]);
    lemur_sign_stateful_mut(&pp, &mut state, b"m", Some(0)).ok().unwrap();
    // The slot that was used is refused, and so is one ahead.
    let e = lemur_sign_stateful_mut(&pp, &mut state, b"m", Some(0)).err().unwrap();
    assert_eq!(invalid(e), "stateful signer is at slot 1, got 0");
    let e = lemur_sign_stateful_mut(&pp, &mut state, b"m", Some(1_234_567)).err().unwrap();
    assert_eq!(invalid(e), "stateful signer is at slot 1, got 1234567");
    assert_eq!(state.bds.phi, 1);
}

#[test]
fn stateful_signer_refuses_a_slot_out_of_range() {
    let profile = d256_k4();
    let pp = setup(&profile);
    let (_, state, _) = lemur_keygen(&pp, &[3u8; 32]);
    let bds = BdsState { h: 3, phi: 8, cache: state.bds.cache.clone() };
    let mut state = lemur_make_stateful_sk::<Sums>(&[3u8; 32], bds);
    let e = lemur_sign_stateful_mut(&pp, &mut state, b"m", None).err().unwrap();
    assert_eq!(invalid(e), "slot 8 out of range [0, 7]");
    let e = lemur_sign_stateful(&pp, &state, b"m", Some(8)).err().unwrap();
    assert_eq!(invalid(e), "slot 8 out of range [0, 7]");
}

#[test]
fn error_of_the_cache_leaves_the_state_unchanged() {
    let profile = d256_k4();
    let pp = setup(&profile);
    let (_, mut state, _) = lemur_keygen(&pp, &[3u8; 32]);
    state.bds.cache.broken = true;
    let e = lemur_sign_stateful_mut(&pp, &mut state, b"m", None).err().unwrap();
    assert_eq!(invalid(e), "cache");
    assert_eq!((state.bds.phi, state.bds.cache.at), (0, 0));
}

#[test]
fn snapshot_signer_leaves_its_state_alone() {
    let profile = d256_k4();
    let pp = setup(&profile);
    let (_, mut state, _) = lemur_keygen(&pp, &[3u8; 32]);
    let (sig, next, slot) = lemur_sign_stateful(&pp, &state, b"m", None).ok().unwrap();
    assert_eq!((state.bds.phi, state.bds.cache.at), (0, 0));
    assert_eq!((next.bds.phi, next.bds.cache.at, slot), (1, 1, 0));
    // It does what the other one does in place.
    let (sig2, slot2) = lemur_sign_stateful_mut(&pp, &mut state, b"m", None).ok().unwrap();
    assert_eq!(slot2, slot);
    assert_eq!(sig2.z.0, sig.z.0);
    assert_eq!(sig2.opening.leaf, sig.opening.leaf);
    assert_eq!((state.bds.phi, state.bds.cache.at), (1, 1));
}

#[test]
fn verification_refuses_slots_out_of_range() {
    let profile = d256_k4();
    let pp = setup(&profile);
    let (pks, sigs) = signers(&pp, 1, 7, b"m");
    assert!(lemur_ivrfy(&pp, &pks[0], 7, b"m", &sigs[0]).is_ok());
    for t in [8usize, 9, 1 << 40, usize::MAX] {
        assert!(matches!(
            lemur_ivrfy(&pp, &pks[0], t, b"m", &sigs[0]),
            Err(LemurError::VerifyFailed)
        ));
    }
}

#[test]
fn verification_refuses_malformed_arrays() {
    let profile = d256_k4();
    let pp = setup(&profile);
    let (pks, mut sigs) = signers(&pp, 1, 2, b"m");
    let short = LemurPk(HvcCom(pks[0].0 .0[..511].to_vec()));
    assert!(matches!(
        lemur_ivrfy(&pp, &short, 2, b"m", &sigs[0]),
        Err(LemurError::VerifyFailed)
    ));
    let agg = lemur_aggregate(&pp, &pks, 2, b"m", &sigs).ok().unwrap();
    assert!(matches!(
        lemur_avrfy(&pp, &[short], 2, b"m", &agg),
        Err(LemurError::VerifyFailed)
    ));
    sigs[0].z.0.pop();
    assert!(matches!(
        lemur_ivrfy(&pp, &pks[0], 2, b"m", &sigs[0]),
        Err(LemurError::VerifyFailed)
    ));
}

#[test]
fn errors_of_the_schemes_come_out_as_verify_failed() {
    let profile = d256_k4();
    let pp = setup(&profile);
    let (pks, mut sigs) = signers(&pp, 2, 2, b"m");
    // The opening of another signer is an error of the commitments.
    assert!(matches!(
        lemur_ivrfy(&pp, &pks[1], 2, b"m", &sigs[0]),
        Err(LemurError::VerifyFailed)
    ));
    // A signature that is too long is an error of the one-time signatures.
    sigs[0].z.0.push(0);
    assert!(matches!(
        lemur_ivrfy(&pp, &pks[0], 2, b"m", &sigs[0]),
        Err(LemurError::VerifyFailed)
    ));
}

#[test]
fn aggregate_of_many_signers_verifies() {
    let profile = d256_k4();
    let pp = setup(&profile);
    let (pks, sigs) = signers(&pp, 70, 5, b"many");
    let agg = lemur_aggregate(&pp, &pks, 5, b"many", &sigs).ok().unwrap();
    assert_eq!(agg.attempt, 1);
    assert!(lemur_avrfy(&pp, &pks, 5, b"many", &agg).is_ok());
    // Another slot, message, attempt or order of the keys is refused.
    assert!(lemur_avrfy(&pp, &pks, 4, b"many", &agg).is_err());
    assert!(lemur_avrfy(&pp, &pks, 5, b"more", &agg).is_err());
    let mut swapped = pks.clone();
    swapped.swap(0, 1);
    assert!(lemur_avrfy(&pp, &swapped, 5, b"many", &agg).is_err());
    let other = LemurAggSig::<Sums> { z_agg: agg.z_agg, d_agg: agg.d_agg, attempt: 2 };
    assert!(matches!(
        lemur_avrfy(&pp, &pks, 5, b"many", &other),
        Err(LemurError::VerifyFailed)
    ));
}

#[test]
fn aggregation_refuses_wrong_counts() {
    let profile = d256_k4();
    let pp = setup(&profile);
    let (pks, sigs) = signers(&pp, 2, 0, b"m");
    assert!(matches!(
        lemur_aggregate(&pp, &pks[..1], 0, b"m", &sigs),
        Err(LemurError::VerifyFailed)
    ));
    assert!(matches!(
        lemur_aggregate(&pp, &pks, 0, b"m", &sigs[..1]),
        Err(LemurError::VerifyFailed)
    ));
    assert!(matches!(
        lemur_aggregate(&pp, &[], 0, b"m", &[]),
        Err(LemurError::VerifyFailed)
    ));
}

#[test]
fn aggregation_refuses_an_invalid_signature() {
    let profile = d256_k4();
    let pp = setup(&profile);
    let (pks, mut sigs) = signers(&pp, 3, 0, b"m");
    sigs[2].z.0[17] += 1;
    assert!(matches!(
        lemur_aggregate(&pp, &pks, 0, b"m", &sigs),
        Err(LemurError::VerifyFailed)
    ));
}

#[test]
fn aggregation_gives_up_after_gamma_attempts() {
    let profile = d256_k4();
    let pp: LemurPp<NoAggregates, Sums> =
        lemur_setup_with_profile_and_tau(&[1u8; 32], &[2u8; 32], &profile, 2);
    let (sk, _, pk) = lemur_keygen(&pp, &[5u8; 32]);
    let sig = lemur_sign_seed(&pp, &sk, 3, b"m");
    assert!(lemur_ivrfy(&pp, &pk, 3, b"m", &sig).is_ok());
    assert!(matches!(
        lemur_aggregate(&pp, &[pk], 3, b"m", &[sig]),
        Err(LemurError::AggregationFailed(10))
    ));
}

#[test]
fn aggregate_is_made_of_its_steps() {
    let profile = d256_k4();
    let pp = setup(&profile);
    let (pks, sigs) = signers(&pp, 3, 6, b"steps");
    let agg = lemur_aggregate(&pp, &pks, 6, b"steps", &sigs).ok().unwrap();
    let bytes = concat_pk_bytes_pub(&pks);
    let ws = hash_to_randomizers_pub(6, b"steps", &bytes, agg.attempt, 3, &profile);
    assert_eq!(aggregate_kots_z(&ws, &sigs, &profile), agg.z_agg.0);
    // The aggregate is the integer sum.
    let zs: Vec<&[i64]> = sigs.iter().map(|s| s.z.0.as_slice()).collect();
    assert_eq!(weighted(&ws, &zs, profile.d), agg.z_agg.0);
    // The aggregated commitment opens to the aggregated leaf.
    let c = weighted_sum_commitments_pub(&ws, &pks, &profile);
    assert!(c.0.iter().all(|x| 0 <= *x && *x < profile.q_hvc() as i64));
    let leaf = Sums::hvc_svrfy(&pp.hvc_pp.key, 3, &c, 6, &agg.d_agg).ok().unwrap();
    assert!(Linear::kots_svrfy(&(), &leaf, b"steps", &agg.z_agg, &profile).is_ok());
}

fn synthetic(n: usize, len: usize, bound: i64) -> Vec<LemurSig<Sums>> {
    (0..n)
        .map(|s| LemurSig {
            z: KotsSig((0..len).map(|i| ((s * 31 + i * 17) as i64 % (2 * bound + 1)) - bound).collect()),
            opening: SumsOpening { leaf: Vec::new(), rest: Vec::new() },
        })
        .collect()
}

#[test]
fn routing_does_not_change_the_sum() {
    // The same signatures in a ring that takes the accumulation, in one where it could wrap, and
    // in rings with a transform of their own.
    let mut profile = d256_k4();
    profile.d = 8;
    profile.m = 2;
    profile.alpha_w = 2;
    profile.beta_z = 3;
    let ring = (2..257u64).find_map(|psi| RingParams64::new(257, 8, psi));
    profile.hvc_ring = HvcRing::U64(ring.unwrap());
    profile.kots_crt = Some(CrtConfig { q: 1009, d: 8 });
    assert!(profile.validate());
    let ws: Vec<Vec<i64>> = (0..40)
        .map(|s| {
            let mut w = vec![0i64; 8];
            w[s % 8] = 1;
            w[(s + 3) % 8] = -1;
            w
        })
        .collect();
    let sigs = synthetic(40, 16, 3);
    let zs: Vec<&[i64]> = sigs.iter().map(|s| s.z.0.as_slice()).collect();
    let exact = weighted(&ws, &zs, 8);
    // 40 * 2 * 3 = 240 is at most 1009 / 2.
    assert_eq!(aggregate_kots_z(&ws, &sigs, &profile), exact);
    // 240 is more than 97 / 2: the sum is centered all the same.
    profile.kots_crt = Some(CrtConfig { q: 97, d: 8 });
    assert!(profile.validate());
    let centered: Vec<i64> = exact.iter().map(|x| centered(*x, 97)).collect();
    assert_eq!(aggregate_kots_z(&ws, &sigs, &profile), centered);
    profile.kots_crt = None;
    profile.kots_ring64 = (2..257u64).find_map(|psi| RingParams64::new(257, 8, psi));
    assert!(profile.validate());
    assert_eq!(profile.q_kots(), 257);
    assert_eq!(aggregate_kots_z(&ws, &sigs, &profile), exact);
    profile.kots_ring64 = None;
    profile.kots_ring = (2..257u32).find_map(|psi| RingParams::new(257, 8, psi));
    assert!(profile.validate());
    assert_eq!(aggregate_kots_z(&ws, &sigs, &profile), exact);
}

fn centered(x: i64, q: i64) -> i64 {
    let r = x.rem_euclid(q);
    if r > q / 2 {
        r - q
    } else {
        r
    }
}

fn only_z(z: Vec<i64>) -> LemurSig<Sums> {
    LemurSig {
        z: KotsSig(z),
        opening: SumsOpening { leaf: Vec::new(), rest: Vec::new() },
    }
}

#[test]
fn sum_that_could_wrap_is_centered() {
    // Three products of 40 each: modulo 97 the sum could wrap, and 120 comes out as 23.
    let mut profile = d256_k4();
    profile.d = 2;
    profile.m = 1;
    profile.alpha_w = 1;
    profile.beta_z = 40;
    profile.hvc_ring = HvcRing::U64(RingParams64::new(5, 2, 2).unwrap());
    profile.kots_crt = Some(CrtConfig { q: 97, d: 2 });
    assert!(profile.validate());
    let ws: Vec<Vec<i64>> = vec![vec![1, 0], vec![1, 0], vec![0, 1]];
    let sigs: Vec<LemurSig<Sums>> =
        vec![only_z(vec![40, 0]), only_z(vec![40, 0]), only_z(vec![0, -40])];
    assert_eq!(aggregate_kots_z(&ws, &sigs, &profile), vec![23, 0]);
    // A weight without a signature is left out.
    assert_eq!(aggregate_kots_z(&ws, &sigs[..2], &profile), vec![-17, 0]);
    // What the accumulation in the transformed domain gives is the same.
    let refs: Vec<&[i64]> = sigs.iter().map(|s| s.z.0.as_slice()).collect();
    let backend = CrtConfig { q: 97, d: 2 }.backend_for_accum(3);
    assert_eq!(aggregate_vec_crt_ntt(&ws, &refs, 1, &backend), vec![23, 0]);
}

#[test]
fn many_large_signatures_of_the_shipped_profile_are_centered() {
    let profile = d256_k4();
    let q = profile.q_kots() as i64;
    let n = 20_000usize;
    let mut w = vec![0i64; 256];
    for x in w.iter_mut().take(23) {
        *x = 1;
    }
    let mut z = vec![0i64; profile.m * 256];
    for x in z.iter_mut().take(256) {
        *x = 7023;
    }
    let ws: Vec<Vec<i64>> = (0..n).map(|_| w.clone()).collect();
    let sigs: Vec<LemurSig<Sums>> = (0..n).map(|_| only_z(z.clone())).collect();
    let r = aggregate_kots_z(&ws, &sigs, &profile);
    assert_eq!(r.len(), profile.m * 256);
    assert_eq!(r[255], 3_230_580_000 - q);
    assert_eq!(r[256], 0);
}

#[test]
fn sums_of_small_signatures_fit_whatever_the_modulus() {
    // 16 signers in a ring of 61 bits, where 16 centered representatives need not fit in 64.
    let mut profile = d256_k4();
    profile.d = 8;
    profile.m = 2;
    profile.alpha_w = 2;
    profile.beta_z = 1000;
    profile.hvc_ring = HvcRing::U64(RingParams64::new(17, 8, 3).unwrap());
    profile.kots_crt = None;
    profile.kots_ring64 = RingParams64::new(2305843009213693921, 8, 530148583312262783);
    assert!(profile.validate());
    let ws: Vec<Vec<i64>> = (0..16)
        .map(|s| {
            let mut w = vec![0i64; 8];
            w[s % 8] = 1;
            w[(s + 5) % 8] = -1;
            w
        })
        .collect();
    let sigs = synthetic(16, 16, 1000);
    let zs: Vec<&[i64]> = sigs.iter().map(|s| s.z.0.as_slice()).collect();
    assert_eq!(aggregate_kots_z(&ws, &sigs, &profile), weighted(&ws, &zs, 8));
}

#[test]
fn aggregates_of_groups_add() {
    let profile = d256_k4();
    let ws = hash_to_randomizers_pub(1, b"groups", &[], 1, 9, &profile);
    let sigs = synthetic(9, profile.m * profile.d, profile.beta_z);
    let all = aggregate_kots_z(&ws, &sigs, &profile);
    let first = aggregate_kots_z(&ws[..4], &sigs[..4], &profile);
    let rest = aggregate_kots_z(&ws[4..], &sigs[4..], &profile);
    for k in 0..all.len() {
        assert_eq!(all[k], first[k] + rest[k]);
    }
}

#[test]
fn setup_for_another_depth_changes_the_depth_alone() {
    let profile = d256_k4();
    let a: Pp = lemur_setup_with_profile_and_tau(&[1u8; 32], &[2u8; 32], &profile, 3);
    let b: Pp = lemur_setup_with_profile_and_tau(&[1u8; 32], &[2u8; 32], &profile, 4);
    assert_eq!((a.hvc_pp.tau, b.hvc_pp.tau), (3, 4));
    assert_eq!(a.kots_a, b.kots_a);
    assert_eq!(a.kots_seed, b.kots_seed);
    assert_eq!(a.hvc_seed, b.hvc_seed);
    assert_eq!(a.profile.name, b.profile.name);
    // The one-time part of a signature does not depend on the depth.
    let sk = LemurSk { master_seed: [4u8; 32] };
    let x = lemur_sign_seed(&a, &sk, 5, b"m");
    let y = lemur_sign_seed(&b, &sk, 5, b"m");
    assert_eq!(x.z.0, y.z.0);
    assert_ne!(x.opening.rest, y.opening.rest);
}

#[test]
fn leaves_are_the_public_keys_of_the_slots() {
    let profile = d256_k4();
    let pp = setup(&profile);
    let leaves: LeafSource<Linear> =
        LeafSource { a: &pp.kots_a, master_seed: [6u8; 32], profile: &profile };
    for t in 0..8 {
        let ss = Linear::slot_seed(&[6u8; 32], t);
        let (_, opk) = Linear::kots_keygen(&pp.kots_a, &ss, &profile);
        assert_eq!(leaves.leaf(t), opk.0);
        assert_eq!(leaves.leaf(t), leaves.leaf(t));
    }
    assert_ne!(leaves.leaf(0), leaves.leaf(1));
}

#[test]
fn public_key_opens_to_the_key_of_every_slot() {
    let profile = d256_k4();
    let pp = setup(&profile);
    let (sk, _, pk) = lemur_keygen(&pp, &[8u8; 32]);
    let (_, _, again) = lemur_keygen(&pp, &[8u8; 32]);
    assert_eq!(pk.0 .0, again.0 .0);
    for t in 0..8 {
        let a = lemur_sign_seed(&pp, &sk, t, b"one");
        let b = lemur_sign_seed(&pp, &sk, t, b"another");
        assert_eq!(a.opening.leaf, b.opening.leaf);
        assert_eq!(a.opening.rest, b.opening.rest);
        let leaf = Sums::hvc_ivrfy(&pp.hvc_pp.key, 3, &pk.0, t, &a.opening).ok().unwrap();
        let ss = Linear::slot_seed(&[8u8; 32], t);
        assert_eq!(leaf, Linear::kots_pk_from_seed(&pp.kots_a, &ss, &profile).0);
    }
}

#[test]
fn stateful_signatures_have_the_one_time_part_of_the_seed() {
    let profile = d256_k4();
    let pp = setup(&profile);
    let (sk, mut state, _) = lemur_keygen(&pp, &[3u8; 32]);
    for slot in 0..8 {
        let (copied, _, _) = lemur_sign_stateful(&pp, &state, b"m", None).ok().unwrap();
        let (again, next, _) = lemur_sign_stateful(&pp, &state, b"m", Some(slot)).ok().unwrap();
        let (sig, at) = lemur_sign_stateful_mut(&pp, &mut state, b"m", None).ok().unwrap();
        assert_eq!(at, slot);
        assert_eq!(sig.z.0, lemur_sign_seed(&pp, &sk, slot, b"m").z.0);
        assert_eq!((&copied.z.0, &again.z.0), (&sig.z.0, &sig.z.0));
        assert_eq!(copied.opening.rest, sig.opening.rest);
        assert_eq!((next.bds.phi, next.bds.cache.at), (state.bds.phi, state.bds.cache.at));
    }
}

#[test]
fn two_runs_agree() {
    let profile = d256_k4();
    let mut results = Vec::new();
    for _ in 0..2 {
        let pp = setup(&profile);
        let (pks, sigs) = signers(&pp, 3, 2, b"run");
        let agg = lemur_aggregate(&pp, &pks, 2, b"run", &sigs).ok().unwrap();
        results.push((concat_pk_bytes_pub(&pks), agg.z_agg.0, agg.d_agg.leaf, agg.attempt));
    }
    assert_eq!(results[0], results[1]);
}

#[test]
fn oversized_signatures_are_refused_before_they_are_summed() {
    // In a ring of 61 bits the sum of 16 such signatures would not fit in 64 bits.
    let mut profile = d256_k4();
    profile.d = 8;
    profile.m = 2;
    profile.alpha_w = 2;
    profile.hvc_ring = HvcRing::U64(RingParams64::new(17, 8, 3).unwrap());
    profile.kots_crt = None;
    profile.kots_ring64 = RingParams64::new(2305843009213693921, 8, 530148583312262783);
    assert!(profile.validate());
    let pp = setup(&profile);
    let (pks, mut sigs) = signers(&pp, 16, 1, b"m");
    assert!(lemur_aggregate(&pp, &pks, 1, b"m", &sigs).is_ok());
    for sig in sigs.iter_mut() {
        for z in sig.z.0.iter_mut() {
            *z = i64::MAX;
        }
    }
    assert!(matches!(
        lemur_aggregate(&pp, &pks, 1, b"m", &sigs),
        Err(LemurError::VerifyFailed)
    ));
}

#[test]
fn aggregation_at_a_slot_out_of_range_is_refused() {
    let profile = d256_k4();
    let pp = setup(&profile);
    let (pks, sigs) = signers(&pp, 2, 7, b"m");
    for t in [8usize, usize::MAX] {
        assert!(matches!(
            lemur_aggregate(&pp, &pks, t, b"m", &sigs),
            Err(LemurError::VerifyFailed)
        ));
    }
}

#[test]
fn two_runs_agree_on_their_error() {
    let profile = d256_k4();
    for _ in 0..2 {
        let pp: LemurPp<NoAggregates, Sums> =
            lemur_setup_with_profile_and_tau(&[1u8; 32], &[2u8; 32], &profile, 2);
        let (sk, _, pk) = lemur_keygen(&pp, &[5u8; 32]);
        let mut sigs = vec![lemur_sign_seed(&pp, &sk, 3, b"m")];
        let pks = vec![pk];
        assert!(matches!(
            lemur_aggregate(&pp, &pks, 3, b"m", &sigs),
            Err(LemurError::AggregationFailed(10))
        ));
        sigs[0].z.0[0] += 1;
        assert!(matches!(
            lemur_aggregate(&pp, &pks, 3, b"m", &sigs),
            Err(LemurError::VerifyFailed)
        ));
    }
}

#[test]
fn earlier_attempts_are_refused_again() {
    let profile = d256_k4();
    let pp: LemurPp<EvenAggregates, Sums> =
        lemur_setup_with_profile_and_tau(&[1u8; 32], &[2u8; 32], &profile, 2);
    let mut retried = 0;
    for i in 0..40u8 {
        let msg = [i];
        let mut pks = Vec::new();
        let mut sigs = Vec::new();
        for seed in 0..2u8 {
            let (sk, _, pk) = lemur_keygen(&pp, &[seed + 11; 32]);
            sigs.push(lemur_sign_seed(&pp, &sk, 1, &msg));
            pks.push(pk);
        }
        let agg = match lemur_aggregate(&pp, &pks, 1, &msg, &sigs) {
            Ok(agg) => agg,
            Err(_) => continue,
        };
        if agg.attempt > 1 {
            retried += 1;
        }
        let bytes = concat_pk_bytes_pub(&pks);
        let openings: Vec<&SumsOpening> = sigs.iter().map(|s| &s.opening).collect();
        for attempt in 1..=agg.attempt {
            let ws = hash_to_randomizers_pub(1, &msg, &bytes, attempt, 2, &profile);
            let other = LemurAggSig::<Sums> {
                z_agg: KotsSig(aggregate_kots_z(&ws, &sigs, &profile)),
                d_agg: Sums::aggregate_openings_any(&ws, &openings, &profile),
                attempt,
            };
            assert_eq!(
                lemur_avrfy(&pp, &pks, 1, &msg, &other).is_ok(),
                attempt == agg.attempt
            );
        }
    }
    assert!(retried > 0);
}
