//! Verification of signatures and of aggregates.

use crate::error::LemurError;
use crate::hvc::{Hvc, HvcCom};
use crate::kots::Kots;
use crate::lemur::combine;
use crate::lemur::combine::{concat_pk_bytes, hash_to_randomizers, weighted_sum_commitments};
use crate::lemur::{LemurAggSig, LemurPk, LemurPp, LemurSig};
use crate::profile::Profile;
use crate::ring;
use crate::weighted;
use vstd::arithmetic::div_mod::*;
use vstd::arithmetic::power2::*;
use vstd::prelude::*;

verus! {

/// The slot is one of the tree.
pub open spec fn in_range(t: usize, tau: usize) -> bool {
    t < pow2(tau as nat)
}

/// A commitment holds `omega` polynomials.
pub open spec fn pk_shape_ok(pk: LemurPk, profile: &Profile) -> bool {
    pk.0.0@.len() >= profile.omega * profile.d
}

/// A one-time signature holds `m` polynomials.
pub open spec fn z_shape_ok(z: Seq<i64>, profile: &Profile) -> bool {
    z.len() >= profile.m * profile.d
}

/// The two schemes accept a signature: the commitment opens to a one-time public key at the slot,
/// and the one-time signature is one under that key.
pub open spec fn ivrfy_accepts<K: Kots, H: Hvc>(
    pp: &LemurPp<K, H>,
    pk: LemurPk,
    t: usize,
    msg: &[u8],
    sig: LemurSig<H>,
) -> bool {
    &&& in_range(t, pp.hvc_pp.tau)
    &&& pk_shape_ok(pk, pp.profile)
    &&& z_shape_ok(sig.z.0@, pp.profile)
    &&& exists|opk: Vec<i64>|
        call_ensures(
            H::hvc_ivrfy,
            (&pp.hvc_pp.key, pp.hvc_pp.tau, &pk.0, t, &sig.opening),
            Ok(opk),
        ) && #[trigger] call_ensures(
            K::kots_ivrfy,
            (&pp.kots_a, &opk, msg, &sig.z, pp.profile),
            Ok(()),
        )
}

/// The slot is out of range, an array is too short, or one of the two schemes refuses.
pub open spec fn ivrfy_refuses<K: Kots, H: Hvc>(
    pp: &LemurPp<K, H>,
    pk: LemurPk,
    t: usize,
    msg: &[u8],
    sig: LemurSig<H>,
) -> bool {
    ||| !in_range(t, pp.hvc_pp.tau)
    ||| !pk_shape_ok(pk, pp.profile)
    ||| !z_shape_ok(sig.z.0@, pp.profile)
    ||| exists|e: LemurError|
        #[trigger] call_ensures(
            H::hvc_ivrfy,
            (&pp.hvc_pp.key, pp.hvc_pp.tau, &pk.0, t, &sig.opening),
            Err(e),
        )
    ||| exists|opk: Vec<i64>, e: LemurError|
        call_ensures(
            H::hvc_ivrfy,
            (&pp.hvc_pp.key, pp.hvc_pp.tau, &pk.0, t, &sig.opening),
            Ok(opk),
        ) && #[trigger] call_ensures(
            K::kots_ivrfy,
            (&pp.kots_a, &opk, msg, &sig.z, pp.profile),
            Err(e),
        )
}

/// Whether a slot is one of the tree.
fn is_in_range(t: usize, tau: usize) -> (r: bool)
    ensures
        r <==> in_range(t, tau),
{
    let mut y: usize = t;
    let mut i: usize = 0;
    proof {
        lemma2_to64();
        lemma_div_basics(t as int);
    }
    while i < tau && y > 0
        invariant
            i <= tau,
            y == t as int / (pow2(i as nat) as int),
        decreases tau - i,
    {
        proof {
            lemma_pow2_pos(i as nat);
            lemma_pow2_unfold((i + 1) as nat);
            lemma_div_denominator(t as int, pow2(i as nat) as int, 2);
        }
        y = y / 2;
        i += 1;
    }
    proof {
        let p = pow2(i as nat) as int;
        lemma_pow2_pos(i as nat);
        lemma_fundamental_div_mod(t as int, p);
        lemma_mod_bound(t as int, p);
        if y == 0 {
            assert(p * 0 == 0) by (nonlinear_arith);
            if i < tau {
                lemma_pow2_strictly_increases(i as nat, tau as nat);
            }
        } else {
            let yi = y as int;
            assert(p * yi >= p) by (nonlinear_arith)
                requires
                    p > 0,
                    yi >= 1,
            ;
        }
    }
    y == 0
}

/// Verifies one signature.
///
/// Never panics: an array that is too short, a slot out of range and every error of the two
/// schemes come out as `VerifyFailed`.
pub fn lemur_ivrfy<K: Kots, H: Hvc>(
    pp: &LemurPp<K, H>,
    pk: &LemurPk,
    t: usize,
    msg: &[u8],
    sig: &LemurSig<H>,
) -> (r: Result<(), LemurError>)
    requires
        pp.profile.wf(),
    ensures
        match r {
            Ok(_) => ivrfy_accepts(pp, *pk, t, msg, *sig),
            Err(e) => e == LemurError::VerifyFailed && ivrfy_refuses(pp, *pk, t, msg, *sig),
        },
{
    match lemur_ivrfy_inner(pp, pk, t, msg, sig) {
        Ok(_) => Ok(()),
        Err(_) => Err(LemurError::VerifyFailed),
    }
}

fn lemur_ivrfy_inner<K: Kots, H: Hvc>(
    pp: &LemurPp<K, H>,
    pk: &LemurPk,
    t: usize,
    msg: &[u8],
    sig: &LemurSig<H>,
) -> (r: Result<(), LemurError>)
    requires
        pp.profile.wf(),
    ensures
        r is Ok ==> ivrfy_accepts(pp, *pk, t, msg, *sig),
        r is Err ==> ivrfy_refuses(pp, *pk, t, msg, *sig),
{
    let profile = pp.profile;
    if !is_in_range(t, pp.hvc_pp.tau) {
        return Err(LemurError::VerifyFailed);
    }
    if pk.0.0.len() < profile.omega * profile.d || sig.z.0.len() < profile.m * profile.d {
        return Err(LemurError::VerifyFailed);
    }
    match H::hvc_ivrfy(&pp.hvc_pp.key, pp.hvc_pp.tau, &pk.0, t, &sig.opening) {
        Err(e) => Err(e),
        Ok(opk) => match K::kots_ivrfy(&pp.kots_a, &opk, msg, &sig.z, profile) {
            Err(e) => Err(e),
            Ok(unit) => {
                assert(unit == ());
                Ok(())
            },
        },
    }
}

/// The randomizers of an attempt at an aggregate of the signers with these public keys.
pub open spec fn weights<K: Kots, H: Hvc>(
    pp: &LemurPp<K, H>,
    pks: Seq<LemurPk>,
    t: usize,
    msg: Seq<u8>,
    attempt: usize,
) -> Seq<Seq<i64>> {
    combine::randomizers(
        t,
        msg,
        combine::concatenated(combine::pk_views(pks)),
        attempt,
        pks.len(),
        pp.profile,
    )
}

/// The aggregated commitment of an attempt.
pub open spec fn is_aggregated_commitment<K: Kots, H: Hvc>(
    pp: &LemurPp<K, H>,
    pks: Seq<LemurPk>,
    t: usize,
    msg: Seq<u8>,
    attempt: usize,
    c: HvcCom,
) -> bool {
    ring::signed(c.0@) == combine::commitment_sum(
        weights(pp, pks, t, msg, attempt),
        combine::pk_views(pks),
        pp.profile.omega as nat,
        pp.profile.d as nat,
        pp.profile.hvc_modulus(),
    )
}

/// Every public key is a commitment.
pub open spec fn pk_shapes_ok(pks: Seq<LemurPk>, profile: &Profile) -> bool {
    forall|i: int| 0 <= i < pks.len() ==> pk_shape_ok(#[trigger] pks[i], profile)
}

/// The two schemes accept an aggregate: the aggregated commitment opens to an aggregated one-time
/// public key at the slot, and the aggregated one-time signature is one under that key.
pub open spec fn avrfy_accepts<K: Kots, H: Hvc>(
    pp: &LemurPp<K, H>,
    pks: Seq<LemurPk>,
    t: usize,
    msg: &[u8],
    agg: LemurAggSig<H>,
) -> bool {
    &&& pk_shapes_ok(pks, pp.profile)
    &&& exists|c: HvcCom, opk: Vec<i64>|
        #![trigger call_ensures(H::hvc_svrfy, (&pp.hvc_pp.key, pp.hvc_pp.tau, &c, t, &agg.d_agg), Ok(opk))]
        is_aggregated_commitment(pp, pks, t, msg@, agg.attempt, c) && call_ensures(
            H::hvc_svrfy,
            (&pp.hvc_pp.key, pp.hvc_pp.tau, &c, t, &agg.d_agg),
            Ok(opk),
        ) && call_ensures(
            K::kots_svrfy,
            (&pp.kots_a, &opk, msg, &agg.z_agg, pp.profile),
            Ok(()),
        )
}

/// A public key is too short, or one of the two schemes refuses.
pub open spec fn avrfy_refuses<K: Kots, H: Hvc>(
    pp: &LemurPp<K, H>,
    pks: Seq<LemurPk>,
    t: usize,
    msg: &[u8],
    agg: LemurAggSig<H>,
) -> bool {
    ||| !pk_shapes_ok(pks, pp.profile)
    ||| exists|c: HvcCom, e: LemurError|
        #![trigger call_ensures(H::hvc_svrfy, (&pp.hvc_pp.key, pp.hvc_pp.tau, &c, t, &agg.d_agg), Err(e))]
        is_aggregated_commitment(pp, pks, t, msg@, agg.attempt, c) && call_ensures(
            H::hvc_svrfy,
            (&pp.hvc_pp.key, pp.hvc_pp.tau, &c, t, &agg.d_agg),
            Err(e),
        )
    ||| exists|c: HvcCom, opk: Vec<i64>, e: LemurError|
        #![trigger
            call_ensures(
                H::hvc_svrfy,
                (&pp.hvc_pp.key, pp.hvc_pp.tau, &c, t, &agg.d_agg),
                Ok(opk),
            ),
            call_ensures(
                K::kots_svrfy,
                (&pp.kots_a, &opk, msg, &agg.z_agg, pp.profile),
                Err(e),
            )]
        is_aggregated_commitment(pp, pks, t, msg@, agg.attempt, c) && call_ensures(
            H::hvc_svrfy,
            (&pp.hvc_pp.key, pp.hvc_pp.tau, &c, t, &agg.d_agg),
            Ok(opk),
        ) && call_ensures(
            K::kots_svrfy,
            (&pp.kots_a, &opk, msg, &agg.z_agg, pp.profile),
            Err(e),
        )
}

/// Whether every public key is a commitment.
fn are_pk_shapes_ok(pks: &[LemurPk], profile: &Profile) -> (r: bool)
    requires
        profile.wf(),
    ensures
        r <==> pk_shapes_ok(pks@, profile),
{
    let len: usize = profile.omega * profile.d;
    let mut i: usize = 0;
    while i < pks.len()
        invariant
            i <= pks@.len(),
            len == profile.omega * profile.d,
            forall|j: int| 0 <= j < i ==> pk_shape_ok(#[trigger] pks@[j], profile),
        decreases pks@.len() - i,
    {
        if pks[i].0.0.len() < len {
            assert(!pk_shape_ok(pks@[i as int], profile));
            return false;
        }
        i += 1;
    }
    true
}

/// Verifies an aggregated signature.
///
/// Never panics: a public key that is too short and every error of the two schemes come out as
/// `VerifyFailed`.
pub fn lemur_avrfy<K: Kots, H: Hvc>(
    pp: &LemurPp<K, H>,
    pks: &[LemurPk],
    t: usize,
    msg: &[u8],
    sigma_agg: &LemurAggSig<H>,
) -> (r: Result<(), LemurError>)
    requires
        pp.profile.wf(),
        combine::stream_fits(pks@.len() as int, pp.profile),
    ensures
        match r {
            Ok(_) => avrfy_accepts(pp, pks@, t, msg, *sigma_agg),
            Err(e) => e == LemurError::VerifyFailed && avrfy_refuses(pp, pks@, t, msg, *sigma_agg),
        },
{
    match lemur_avrfy_inner(pp, pks, t, msg, sigma_agg) {
        Ok(_) => Ok(()),
        Err(_) => Err(LemurError::VerifyFailed),
    }
}

fn lemur_avrfy_inner<K: Kots, H: Hvc>(
    pp: &LemurPp<K, H>,
    pks: &[LemurPk],
    t: usize,
    msg: &[u8],
    sigma_agg: &LemurAggSig<H>,
) -> (r: Result<(), LemurError>)
    requires
        pp.profile.wf(),
        combine::stream_fits(pks@.len() as int, pp.profile),
    ensures
        r is Ok ==> avrfy_accepts(pp, pks@, t, msg, *sigma_agg),
        r is Err ==> avrfy_refuses(pp, pks@, t, msg, *sigma_agg),
{
    let profile = pp.profile;
    if !are_pk_shapes_ok(pks, profile) {
        return Err(LemurError::VerifyFailed);
    }
    let pks_bytes = concat_pk_bytes(pks);
    let ws = hash_to_randomizers(
        t,
        msg,
        pks_bytes.as_slice(),
        sigma_agg.attempt,
        pks.len(),
        profile,
    );
    proof {
        combine::lemma_weight_shapes(
            t,
            msg@,
            pks_bytes@,
            sigma_agg.attempt,
            combine::pk_views(pks@),
            profile.omega as int,
            profile,
        );
    }
    let c_agg = weighted_sum_commitments(ws.as_slice(), pks, profile);
    match H::hvc_svrfy(&pp.hvc_pp.key, pp.hvc_pp.tau, &c_agg, t, &sigma_agg.d_agg) {
        Err(e) => Err(e),
        Ok(opk_agg) => match K::kots_svrfy(&pp.kots_a, &opk_agg, msg, &sigma_agg.z_agg, profile) {
            Err(e) => Err(e),
            Ok(unit) => {
                assert(unit == ());
                Ok(())
            },
        },
    }
}

} // verus!
