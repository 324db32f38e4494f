//! The steps of an aggregation one by one, for measurements.

use crate::hvc::{Hvc, HvcCom};
use crate::lemur::combine;
use crate::lemur::combine::{
    aggregate_kots_z_inner, concat_pk_bytes, hash_to_randomizers, weighted_sum_commitments,
};
use crate::lemur::{LemurPk, LemurSig};
use crate::profile::Profile;
use crate::ring;
use crate::weighted;
use vstd::prelude::*;

verus! {

/// The bytes of the public keys in order.
pub fn concat_pk_bytes_pub(pks: &[LemurPk]) -> (r: Vec<u8>)
    ensures
        r@ == combine::concatenated(combine::pk_views(pks@)),
{
    concat_pk_bytes(pks)
}

/// Derives the `n` ternary randomizers of an attempt.
pub fn hash_to_randomizers_pub(
    t: usize,
    msg: &[u8],
    pks_bytes: &[u8],
    attempt: usize,
    n: usize,
    profile: &Profile,
) -> (r: Vec<Vec<i64>>)
    requires
        profile.wf(),
        combine::stream_fits(n as int, profile),
    ensures
        weighted::views(r@) == combine::randomizers(
            t,
            msg@,
            pks_bytes@,
            attempt,
            n as nat,
            profile,
        ),
{
    hash_to_randomizers(t, msg, pks_bytes, attempt, n, profile)
}

/// The weighted sum of the commitments.
pub fn weighted_sum_commitments_pub(ws: &[Vec<i64>], pks: &[LemurPk], profile: &Profile) -> (r:
    HvcCom)
    requires
        profile.wf(),
        combine::pairs_ok(
            weighted::views(ws@),
            combine::pk_views(pks@),
            profile.omega as int,
            profile.d as nat,
        ),
    ensures
        ring::signed(r.0@) == combine::commitment_sum(
            weighted::views(ws@),
            combine::pk_views(pks@),
            profile.omega as nat,
            profile.d as nat,
            profile.hvc_modulus(),
        ),
        weighted::are_residues(r.0@, profile.hvc_modulus()),
{
    weighted_sum_commitments(ws, pks, profile)
}

/// The weighted sum of the one-time signatures.
pub fn aggregate_kots_z<H: Hvc>(ws: &[Vec<i64>], sigs: &[LemurSig<H>], profile: &Profile) -> (r: Vec<
    i64,
>)
    requires
        profile.wf(),
        combine::kots_sum_ok(weighted::views(ws@), combine::z_views(sigs@), profile),
    ensures
        ring::signed(r@) == combine::kots_sum(
            weighted::views(ws@),
            combine::z_views(sigs@),
            profile,
        ),
{
    aggregate_kots_z_inner(ws, sigs, profile)
}

/// How often each step is repeated in a measurement.
pub struct Repetitions {
    /// The verification of all individual signatures.
    pub preverify: u32,
    /// The randomizers and the weighted sums.
    pub steps: u32,
    /// The verification of the aggregate.
    pub avrfy: u32,
    /// The whole aggregation.
    pub aggregate: u32,
    /// The serialization of the public keys.
    pub concat: u32,
}

/// How often each step is repeated for `n` signers: the more signers, the fewer repetitions.
pub fn repetitions(n: usize) -> (r: Repetitions)
    ensures
        n >= 32768 ==> r == (Repetitions {
            preverify: 1,
            steps: 3,
            avrfy: 2,
            aggregate: 1,
            concat: 5,
        }),
        8192 <= n < 32768 ==> r == (Repetitions {
            preverify: 2,
            steps: 5,
            avrfy: 3,
            aggregate: 2,
            concat: 10,
        }),
        n < 8192 ==> r == (Repetitions {
            preverify: 3,
            steps: 10,
            avrfy: 5,
            aggregate: 3,
            concat: 20,
        }),
{
    if n >= 32768 {
        Repetitions { preverify: 1, steps: 3, avrfy: 2, aggregate: 1, concat: 5 }
    } else if n >= 8192 {
        Repetitions { preverify: 2, steps: 5, avrfy: 3, aggregate: 2, concat: 10 }
    } else {
        Repetitions { preverify: 3, steps: 10, avrfy: 5, aggregate: 3, concat: 20 }
    }
}

} // verus!
