//! Aggregation.

use crate::error::LemurError;
use crate::hvc::Hvc;
use crate::kots::{Kots, KotsSig};
use crate::lemur::combine;
use crate::lemur::combine::{aggregate_kots_z_inner, concat_pk_bytes, hash_to_randomizers};
use crate::lemur::verify;
use crate::lemur::verify::{lemur_avrfy, lemur_ivrfy};
use crate::lemur::{LemurAggSig, LemurPk, LemurPp, LemurSig};
use crate::parallel::try_indices;
use crate::ring;
use crate::weighted;
use vstd::prelude::*;

verus! {

/// `agg` is what an attempt gives: the weighted sums of the one-time signatures and of the
/// openings, with the randomizers of the attempt.
pub open spec fn is_attempt<K: Kots, H: Hvc>(
    pp: &LemurPp<K, H>,
    pks: Seq<LemurPk>,
    t: usize,
    msg: &[u8],
    sigs: Seq<LemurSig<H>>,
    attempt: usize,
    agg: LemurAggSig<H>,
) -> bool {
    &&& agg.attempt == attempt
    &&& ring::signed(agg.z_agg.0@) == combine::kots_sum(
        verify::weights(pp, pks, t, msg@, attempt),
        combine::z_views(sigs),
        pp.profile,
    )
    &&& exists|ws: Vec<Vec<i64>>, openings: Vec<&H::Opening>|
        #![trigger call_ensures(H::aggregate_openings_any, (&ws, &openings, pp.profile), agg.d_agg)]
        weighted::views(ws@) == verify::weights(pp, pks, t, msg@, attempt) && are_openings(
            sigs,
            openings@,
        ) && call_ensures(H::aggregate_openings_any, (&ws, &openings, pp.profile), agg.d_agg)
}

/// The openings of the signatures, in order.
pub open spec fn are_openings<H: Hvc>(sigs: Seq<LemurSig<H>>, openings: Seq<&H::Opening>) -> bool {
    &&& openings.len() == sigs.len()
    &&& forall|i: int| 0 <= i < sigs.len() ==> *#[trigger] openings[i] == sigs[i].opening
}

/// The two schemes accept every signature.
pub open spec fn all_accepted<K: Kots, H: Hvc>(
    pp: &LemurPp<K, H>,
    pks: Seq<LemurPk>,
    t: usize,
    msg: &[u8],
    sigs: Seq<LemurSig<H>>,
) -> bool {
    &&& 0 < sigs.len() == pks.len()
    &&& forall|i: int|
        #![trigger pks[i]]
        #![trigger sigs[i]]
        0 <= i < pks.len() ==> verify::ivrfy_accepts(pp, pks[i], t, msg, sigs[i])
}

/// The attempts below `end` gave aggregates that the two schemes refuse.
pub open spec fn all_refused<K: Kots, H: Hvc>(
    pp: &LemurPp<K, H>,
    pks: Seq<LemurPk>,
    t: usize,
    msg: &[u8],
    sigs: Seq<LemurSig<H>>,
    end: int,
) -> bool {
    forall|attempt: usize|
        1 <= attempt < end ==> #[trigger] attempt_refused(pp, pks, t, msg, sigs, attempt)
}

/// An attempt gave an aggregate that the two schemes refuse.
pub open spec fn attempt_refused<K: Kots, H: Hvc>(
    pp: &LemurPp<K, H>,
    pks: Seq<LemurPk>,
    t: usize,
    msg: &[u8],
    sigs: Seq<LemurSig<H>>,
    attempt: usize,
) -> bool {
    exists|agg: LemurAggSig<H>|
        #[trigger] is_attempt(pp, pks, t, msg, sigs, attempt, agg) && verify::avrfy_refuses(
            pp,
            pks,
            t,
            msg,
            agg,
        )
}

/// `agg` comes from the first attempt, of up to `gamma`, whose aggregate the two schemes accept.
pub open spec fn is_first_accepted<K: Kots, H: Hvc>(
    pp: &LemurPp<K, H>,
    pks: Seq<LemurPk>,
    t: usize,
    msg: &[u8],
    sigs: Seq<LemurSig<H>>,
    agg: LemurAggSig<H>,
) -> bool {
    &&& 1 <= agg.attempt <= pp.profile.gamma
    &&& is_attempt(pp, pks, t, msg, sigs, agg.attempt, agg)
    &&& verify::avrfy_accepts(pp, pks, t, msg, agg)
    &&& all_refused(pp, pks, t, msg, sigs, agg.attempt as int)
}

/// A signature is refused.
pub open spec fn some_refused<K: Kots, H: Hvc>(
    pp: &LemurPp<K, H>,
    pks: Seq<LemurPk>,
    t: usize,
    msg: &[u8],
    sigs: Seq<LemurSig<H>>,
) -> bool {
    exists|i: int|
        0 <= i < pks.len() && #[trigger] verify::ivrfy_refuses(pp, pks[i], t, msg, sigs[i])
}

/// What aggregation returns: the aggregate of the first accepted attempt; `VerifyFailed` where the
/// lists do not match, are empty, or hold a signature that is refused; `AggregationFailed` where
/// all of `gamma` attempts are refused; and no other error.
pub open spec fn is_aggregation<K: Kots, H: Hvc>(
    pp: &LemurPp<K, H>,
    pks: Seq<LemurPk>,
    t: usize,
    msg: &[u8],
    sigs: Seq<LemurSig<H>>,
    r: Result<LemurAggSig<H>, LemurError>,
) -> bool {
    match r {
        Ok(agg) => {
            &&& all_accepted(pp, pks, t, msg, sigs)
            &&& is_first_accepted(pp, pks, t, msg, sigs, agg)
        },
        Err(LemurError::VerifyFailed) => {
            ||| sigs.len() != pks.len()
            ||| sigs.len() == 0
            ||| some_refused(pp, pks, t, msg, sigs)
        },
        Err(LemurError::AggregationFailed(attempts)) => {
            &&& attempts == pp.profile.gamma
            &&& all_accepted(pp, pks, t, msg, sigs)
            &&& all_refused(pp, pks, t, msg, sigs, attempts + 1)
        },
        Err(LemurError::InvalidEncoding(_)) => false,
    }
}

/// One attempt at an aggregate.
fn try_attempt<K: Kots, H: Hvc>(
    pp: &LemurPp<K, H>,
    pks: &[LemurPk],
    t: usize,
    msg: &[u8],
    sigs: &[LemurSig<H>],
    pks_bytes: &Vec<u8>,
    attempt: usize,
) -> (r: LemurAggSig<H>)
    requires
        pp.profile.wf(),
        combine::stream_fits(pks@.len() as int, pp.profile),
        combine::any_sum_fits(combine::z_views(sigs@), pp.profile),
        all_accepted(pp, pks@, t, msg, sigs@),
        pks_bytes@ == combine::concatenated(combine::pk_views(pks@)),
    ensures
        is_attempt(pp, pks@, t, msg, sigs@, attempt, r),
{
    let profile = pp.profile;
    let ws = hash_to_randomizers(t, msg, pks_bytes.as_slice(), attempt, pks.len(), profile);
    proof {
        let zs = combine::z_views(sigs@);
        assert forall|i: int| 0 <= i < zs.len() implies (#[trigger] zs[i]).len() >= profile.m
            * profile.d by {
            assert(verify::ivrfy_accepts(pp, pks@[i], t, msg, sigs@[i]));
        }
        combine::lemma_weight_shapes(
            t,
            msg@,
            pks_bytes@,
            attempt,
            zs,
            profile.m as int,
            profile,
        );
        let wv = weighted::views(ws@);
        assert(wv.take(combine::pairs(wv, zs)) =~= wv);
        assert(zs.take(combine::pairs(wv, zs)) =~= zs);
        if profile.kots_crt is None {
            let b = choose|b: int|
                0 <= b && #[trigger] weighted::within(zs, b) && combine::bound_fits(
                    zs.len() as int,
                    b,
                    profile,
                );
            assert forall|i: int| 0 <= i < wv.len() implies ring::l1_norm(
                ring::signed(#[trigger] wv[i]),
            ) <= profile.alpha_w by {
                combine::lemma_randomizers(
                    t,
                    msg@,
                    pks_bytes@,
                    attempt,
                    pks@.len(),
                    profile,
                    i,
                );
            }
            combine::lemma_sums_fit(wv, zs, profile, b);
        }
    }
    let z_agg = aggregate_kots_z_inner(ws.as_slice(), sigs, profile);
    let mut openings: Vec<&H::Opening> = Vec::new();
    let mut i: usize = 0;
    while i < sigs.len()
        invariant
            i <= sigs@.len(),
            openings@.len() == i,
            forall|j: int| 0 <= j < i ==> *#[trigger] openings@[j] == sigs@[j].opening,
        decreases sigs@.len() - i,
    {
        openings.push(&sigs[i].opening);
        i += 1;
    }
    let d_agg = H::aggregate_openings_any(&ws, &openings, profile);
    let agg = LemurAggSig { z_agg: KotsSig(z_agg), d_agg, attempt };
    assert(call_ensures(
        H::aggregate_openings_any,
        (&ws, &openings, pp.profile),
        agg.d_agg,
    ));
    agg
}

/// Aggregates individual signatures into one aggregated signature.
///
/// Refuses if an individual signature is invalid.  Tries up to `gamma` times until the aggregate
/// verifies.
pub fn lemur_aggregate<K: Kots, H: Hvc>(
    pp: &LemurPp<K, H>,
    pks: &[LemurPk],
    t: usize,
    msg: &[u8],
    sigs: &[LemurSig<H>],
) -> (r: Result<LemurAggSig<H>, LemurError>)
    requires
        pp.profile.wf(),
        all_accepted(pp, pks@, t, msg, sigs@) ==> {
            &&& combine::stream_fits(pks@.len() as int, pp.profile)
            &&& combine::any_sum_fits(combine::z_views(sigs@), pp.profile)
        },
    ensures
        is_aggregation(pp, pks@, t, msg, sigs@, r),
{
    if sigs.len() != pks.len() {
        return Err(LemurError::VerifyFailed);
    }
    if sigs.len() == 0 {
        return Err(LemurError::VerifyFailed);
    }
    let n: usize = pks.len();
    let check = |i: usize| -> (r: Result<(), LemurError>)
        requires
            i < n,
        ensures
            match r {
                Ok(_) => verify::ivrfy_accepts(pp, pks@[i as int], t, msg, sigs@[i as int]),
                Err(e) => e == LemurError::VerifyFailed && verify::ivrfy_refuses(
                    pp,
                    pks@[i as int],
                    t,
                    msg,
                    sigs@[i as int],
                ),
            },
        { lemur_ivrfy(pp, &pks[i], t, msg, &sigs[i]) };
    match try_indices(n, check) {
        Err(e) => {
            return Err(e);
        },
        Ok(_) => {},
    }
    proof {
        assert forall|i: int|
            #![trigger pks@[i]]
            #![trigger sigs@[i]]
            0 <= i < pks@.len() implies verify::ivrfy_accepts(
            pp,
            pks@[i],
            t,
            msg,
            sigs@[i],
        ) by {
            assert(call_ensures(check, (i as usize,), Ok(())));
        }
    }
    let pks_bytes = concat_pk_bytes(pks);
    let gamma: usize = pp.profile.gamma;
    let mut tried: usize = 0;
    while tried < gamma
        invariant
            tried <= gamma,
            gamma == pp.profile.gamma,
            pp.profile.wf(),
            combine::stream_fits(pks@.len() as int, pp.profile),
            combine::any_sum_fits(combine::z_views(sigs@), pp.profile),
            all_accepted(pp, pks@, t, msg, sigs@),
            pks_bytes@ == combine::concatenated(combine::pk_views(pks@)),
            all_refused(pp, pks@, t, msg, sigs@, tried + 1),
        decreases gamma - tried,
    {
        let attempt: usize = tried + 1;
        let sigma_agg = try_attempt(pp, pks, t, msg, sigs, &pks_bytes, attempt);
        match lemur_avrfy(pp, pks, t, msg, &sigma_agg) {
            Ok(_) => {
                return Ok(sigma_agg);
            },
            Err(_) => {
                assert(attempt_refused(pp, pks@, t, msg, sigs@, attempt));
            },
        }
        tried = attempt;
    }
    Err(LemurError::AggregationFailed(gamma))
}

} // verus!
