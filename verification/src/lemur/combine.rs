//! The steps of an aggregation: the randomizers, the weighted sum of the commitments and that of
//! the one-time signatures.

use crate::arith;
use crate::aux_ntt;
use crate::aux_ntt::CrtBackend;
use crate::bytes;
use crate::bytes::push_vector;
use crate::hvc::{Hvc, HvcCom};
use crate::kots::KotsSig;
use crate::lemur::scaling;
use crate::lemur::scaling::{aggregate_vec_crt_ntt, scale_mat_crt, sum_vectors};
use crate::lemur::{LemurPk, LemurSig};
use crate::poly::{poly_mul, scale_mat, scale_mat_u64, RingParams, RingParams64};
use crate::profile::{HvcRing, Profile};
use crate::ring;
use crate::sample;
use crate::sample::{agg_randomizer_xof, draw_all, DRAW_BYTES};
use crate::weighted;
use crate::weighted::{push_poly, weighted_transforms};
use vstd::arithmetic::div_mod::*;
use vstd::prelude::*;

verus! {

/// The coefficients of public keys.
pub open spec fn pk_views(pks: Seq<LemurPk>) -> Seq<Seq<i64>> {
    Seq::new(pks.len(), |i: int| pks[i].0.0@)
}

/// The coefficients of the one-time signatures of signatures.
pub open spec fn z_views<H: Hvc>(sigs: Seq<LemurSig<H>>) -> Seq<Seq<i64>> {
    Seq::new(sigs.len(), |i: int| sigs[i].z.0@)
}

/// The bytes of vectors, one after the other.
pub open spec fn concatenated(vs: Seq<Seq<i64>>) -> Seq<u8>
    decreases vs.len(),
{
    if vs.len() == 0 {
        Seq::empty()
    } else {
        concatenated(vs.drop_last()) + bytes::vector_bytes(vs.last())
    }
}

/// The randomizers of `n` signers, from the slot, the message, the bytes of the public keys and
/// the attempt.
pub open spec fn randomizers(
    t: usize,
    msg: Seq<u8>,
    pks_bytes: Seq<u8>,
    attempt: usize,
    n: nat,
    profile: &Profile,
) -> Seq<Seq<i64>> {
    sample::drawn(
        sample::shake128_output(
            sample::randomizer_input(t, msg, pks_bytes, attempt),
            n * (DRAW_BYTES * profile.alpha_w) as nat,
        ),
        n,
        profile.alpha_w as nat,
        profile.d as nat,
    )
}

/// The stream that `n` randomizers are drawn from fits in memory.
pub open spec fn stream_fits(n: int, profile: &Profile) -> bool {
    n * (DRAW_BYTES * profile.alpha_w) <= isize::MAX
}

/// Samples `n` ternary randomizers from one stream keyed on the slot, the message, the public
/// keys and the attempt.
pub(crate) fn hash_to_randomizers(
    t: usize,
    msg: &[u8],
    pks_bytes: &[u8],
    attempt: usize,
    n: usize,
    profile: &Profile,
) -> (r: Vec<Vec<i64>>)
    requires
        profile.wf(),
        stream_fits(n as int, profile),
    ensures
        weighted::views(r@) == randomizers(t, msg@, pks_bytes@, attempt, n as nat, profile),
{
    proof {
        profile.lemma_modulus();
    }
    let step: usize = DRAW_BYTES * profile.alpha_w;
    let stream = agg_randomizer_xof(t, msg, pks_bytes, attempt, n * step);
    let r = draw_all(stream.as_slice(), n, profile.alpha_w, profile.d);
    assert(weighted::views(r@) =~= randomizers(t, msg@, pks_bytes@, attempt, n as nat, profile));
    r
}

/// Every randomizer is a ternary polynomial with `alpha_w` nonzero coefficients.
pub proof fn lemma_randomizers(
    t: usize,
    msg: Seq<u8>,
    pks_bytes: Seq<u8>,
    attempt: usize,
    n: nat,
    profile: &Profile,
    i: int,
)
    requires
        profile.wf(),
        0 <= i < n,
    ensures
        randomizers(t, msg, pks_bytes, attempt, n, profile)[i].len() == profile.d,
        sample::is_ternary(randomizers(t, msg, pks_bytes, attempt, n, profile)[i]),
        ring::l1_norm(ring::signed(randomizers(t, msg, pks_bytes, attempt, n, profile)[i]))
            == profile.alpha_w,
{
    let stream = sample::shake128_output(
        sample::randomizer_input(t, msg, pks_bytes, attempt),
        n * (DRAW_BYTES * profile.alpha_w) as nat,
    );
    sample::lemma_ternary(
        stream,
        i * (DRAW_BYTES * profile.alpha_w),
        profile.alpha_w as nat,
        profile.alpha_w as int,
        profile.d as nat,
    );
}

/// The randomizers are weights for vectors that hold `n_polys` polynomials.
pub proof fn lemma_weight_shapes(
    t: usize,
    msg: Seq<u8>,
    pks_bytes: Seq<u8>,
    attempt: usize,
    vs: Seq<Seq<i64>>,
    n_polys: int,
    profile: &Profile,
)
    requires
        profile.wf(),
        forall|i: int| 0 <= i < vs.len() ==> (#[trigger] vs[i]).len() >= n_polys * profile.d,
    ensures
        randomizers(t, msg, pks_bytes, attempt, vs.len(), profile).len() == vs.len(),
        weighted::shapes_ok(
            randomizers(t, msg, pks_bytes, attempt, vs.len(), profile),
            vs,
            n_polys,
            profile.d as nat,
        ),
        pairs_ok(
            randomizers(t, msg, pks_bytes, attempt, vs.len(), profile),
            vs,
            n_polys,
            profile.d as nat,
        ),
{
    let ws = randomizers(t, msg, pks_bytes, attempt, vs.len(), profile);
    assert forall|i: int| 0 <= i < ws.len() implies (#[trigger] ws[i]).len() == profile.d by {
        lemma_randomizers(t, msg, pks_bytes, attempt, vs.len(), profile, i);
    }
    assert(ws.take(pairs(ws, vs)) =~= ws);
    assert(vs.take(pairs(ws, vs)) =~= vs);
}

/// The bytes of the public keys in order.
pub(crate) fn concat_pk_bytes(pks: &[LemurPk]) -> (r: Vec<u8>)
    ensures
        r@ == concatenated(pk_views(pks@)),
{
    let mut r: Vec<u8> = Vec::new();
    let ghost v = pk_views(pks@);
    assert(v.take(0) =~= Seq::<Seq<i64>>::empty());
    let mut i: usize = 0;
    while i < pks.len()
        invariant
            i <= pks@.len(),
            v == pk_views(pks@),
            r@ == concatenated(v.take(i as int)),
        decreases pks@.len() - i,
    {
        push_vector(&mut r, &pks[i].0.0);
        proof {
            let t = v.take(i + 1);
            assert(t.drop_last() =~= v.take(i as int));
            assert(t.last() == pks@[i as int].0.0@);
        }
        i += 1;
    }
    assert(v.take(pks@.len() as int) =~= v);
    r
}

/// How many weights and vectors there are in pairs.
pub open spec fn pairs(ws: Seq<Seq<i64>>, vs: Seq<Seq<i64>>) -> int {
    if ws.len() < vs.len() {
        ws.len() as int
    } else {
        vs.len() as int
    }
}

/// In every pair the weight is one polynomial and the vector holds at least `n_polys` of them.
pub open spec fn pairs_ok(ws: Seq<Seq<i64>>, vs: Seq<Seq<i64>>, n_polys: int, d: nat) -> bool {
    weighted::shapes_ok(ws.take(pairs(ws, vs)), vs.take(pairs(ws, vs)), n_polys, d)
}

/// The weighted sum of the vectors that have a weight, as residues.
pub open spec fn commitment_sum(
    ws: Seq<Seq<i64>>,
    vs: Seq<Seq<i64>>,
    n_polys: nat,
    d: nat,
    q: int,
) -> Seq<int> {
    weighted::reduced(ws.take(pairs(ws, vs)), vs.take(pairs(ws, vs)), n_polys, d, q)
}

/// The weighted sum of commitments in a ring with a transform: the products are accumulated in
/// the transformed domain.
fn weighted_sum_commitments_u64_ntt(
    ws: &[Vec<i64>],
    pks: &[LemurPk],
    omega: usize,
    rp: &RingParams64,
) -> (r: HvcCom)
    requires
        rp.wf(),
        pairs_ok(weighted::views(ws@), pk_views(pks@), omega as int, rp.size()),
    ensures
        ring::signed(r.0@) == commitment_sum(
            weighted::views(ws@),
            pk_views(pks@),
            omega as nat,
            rp.size(),
            rp.modulus(),
        ),
{
    let n: usize = if ws.len() < pks.len() {
        ws.len()
    } else {
        pks.len()
    };
    let ghost d = rp.size();
    let ghost q = rp.modulus();
    let ghost wv = weighted::views(ws@).take(n as int);
    let ghost vv = pk_views(pks@).take(n as int);
    let ghost s = weighted::reduced(wv, vv, omega as nat, d, q);
    proof {
        rp.lemma_facts();
    }
    let mut vectors: Vec<&[i64]> = Vec::new();
    let mut i: usize = 0;
    while i < n
        invariant
            i <= n <= pks@.len(),
            vectors@.len() == i,
            forall|j: int| 0 <= j < i ==> (#[trigger] vectors@[j])@ == pks@[j].0.0@,
        decreases n - i,
    {
        vectors.push(pks[i].0.0.as_slice());
        i += 1;
    }
    let weights: &[Vec<i64>] = vstd::slice::slice_subrange(ws, 0, n);
    proof {
        assert(weighted::views(weights@) =~= wv);
        assert(weighted::slice_views(vectors@) =~= vv);
    }
    let ntt = rp.ntt();
    let mut hats = weighted_transforms(ntt, rp.q(), weights, vectors.as_slice(), omega);
    let mut r: Vec<i64> = Vec::new();
    assert(0 * d == 0) by (nonlinear_arith);
    assert(ring::signed(r@) =~= s.take(0));
    let mut i: usize = 0;
    while i < omega
        invariant
            i <= omega,
            *ntt == rp.transform(),
            rp.wf(),
            d == rp.size(),
            q == rp.modulus(),
            weighted::shapes_ok(wv, vv, omega as int, d),
            s == weighted::reduced(wv, vv, omega as nat, d, q),
            hats@.len() == omega,
            forall|poly: int|
                i <= poly < omega ==> ntt.represents(
                    #[trigger] hats@[poly]@,
                    ring::total(
                        weighted::centered_products(wv, vv, poly, d, q),
                        0,
                        wv.len(),
                        d,
                    ),
                ),
            ring::signed(r@) == s.take(i * d),
        decreases omega - i,
    {
        let ghost p = ring::total(
            weighted::centered_products(wv, vv, i as int, d, q),
            0,
            wv.len(),
            d,
        );
        let ghost h = hats@;
        assert(ntt.represents(h[i as int]@, p));
        let mut hat: Vec<u64> = Vec::new();
        std::mem::swap(&mut hat, &mut hats[i]);
        proof {
            rp.lemma_facts();
            assert(forall|j: int| 0 <= j < omega && j != i ==> hats@[j] == h[j]);
            weighted::lemma_centered_sum(wv, vv, i as int, d, q);
        }
        ntt.inverse(&mut hat, Ghost(p));
        let mut part: Vec<i64> = Vec::new();
        let mut k: usize = 0;
        while k < hat.len()
            invariant
                k <= hat@.len(),
                hat@.len() == d,
                p.len() == d,
                2 < q < crate::residue::MODULUS_BOUND,
                forall|j: int| 0 <= j < d ==> #[trigger] hat@[j] as int == p[j] % q,
                part@.len() == k,
                forall|j: int| 0 <= j < k ==> #[trigger] part@[j] as int == p[j] % q,
            decreases hat@.len() - k,
        {
            proof {
                arith::lemma_cong_residue(p[k as int], q);
                assert(hat@[k as int] < q);
            }
            part.push(hat[k] as i64);
            k += 1;
        }
        proof {
            assert((i + 1) * d <= omega * d) by (nonlinear_arith)
                requires
                    i + 1 <= omega,
                    0 <= d,
            ;
            assert forall|k: int| 0 <= k < d implies #[trigger] part@[k] as int == s[i * d + k] by {
                weighted::lemma_flat(i as int, k, d as int);
                assert(0 <= i * d + k < omega * d) by (nonlinear_arith)
                    requires
                        (i + 1) * d <= omega * d,
                        0 <= k < d,
                        0 <= i,
                ;
                assert(arith::cong(
                    p[k],
                    weighted::weighted_sum(wv, vv, i as int, d)[k],
                    q,
                ));
            }
        }
        push_poly(&mut r, part, Ghost(i as int), Ghost(d), Ghost(s));
        i += 1;
    }
    assert(s.take(omega * d) =~= s);
    HvcCom(r)
}

/// Coefficient `j` of the weighted sum of the first `n` vectors.
spec fn partial_sum(ws: Seq<Seq<i64>>, vs: Seq<Seq<i64>>, n: nat, d: nat, j: int) -> int {
    ring::total(weighted::products(ws, vs, j / (d as int), d), 0, n, d)[j % (d as int)]
}

/// The weighted sum of commitments in a ring of a small modulus: the products are added one by
/// one.
fn weighted_sum_commitments_u32(
    ws: &[Vec<i64>],
    pks: &[LemurPk],
    omega: usize,
    rp: &RingParams,
) -> (r: HvcCom)
    requires
        rp.wf(),
        omega * rp.size() <= usize::MAX,
        pairs_ok(weighted::views(ws@), pk_views(pks@), omega as int, rp.size()),
    ensures
        ring::signed(r.0@) == commitment_sum(
            weighted::views(ws@),
            pk_views(pks@),
            omega as nat,
            rp.size(),
            rp.modulus(),
        ),
{
    let n: usize = if ws.len() < pks.len() {
        ws.len()
    } else {
        pks.len()
    };
    let d: usize = rp.d();
    let q: u64 = rp.q();
    let ghost wv = weighted::views(ws@).take(n as int);
    let ghost vv = pk_views(pks@).take(n as int);
    proof {
        rp.lemma_facts();
    }
    let mut r: Vec<i64> = vec![0i64; omega * d];
    proof {
        assert forall|j: int| 0 <= j < omega * d implies #[trigger] r@[j] as int == partial_sum(
            wv,
            vv,
            0,
            d as nat,
            j,
        ) % (q as int) by {
            lemma_mod_bound(j, d as int);
            lemma_small_mod(0, q as nat);
        }
    }
    let mut i: usize = 0;
    while i < n
        invariant
            i <= n,
            n <= ws@.len(),
            n <= pks@.len(),
            rp.wf(),
            d == rp.size(),
            q == rp.modulus(),
            2 < q < 0x1_0000_0000,
            wv == weighted::views(ws@).take(n as int),
            vv == pk_views(pks@).take(n as int),
            weighted::shapes_ok(wv, vv, omega as int, d as nat),
            omega * d <= usize::MAX,
            r@.len() == omega * d,
            forall|j: int|
                0 <= j < omega * d ==> #[trigger] r@[j] as int == partial_sum(
                    wv,
                    vv,
                    i as nat,
                    d as nat,
                    j,
                ) % (q as int),
        decreases n - i,
    {
        let w: &Vec<i64> = &ws[i];
        let v: &Vec<i64> = &pks[i].0.0;
        proof {
            assert(w@ == wv[i as int]);
            assert(v@ == vv[i as int]);
        }
        let mut row: usize = 0;
        while row < omega
            invariant
                row <= omega,
                i < n,
                rp.wf(),
                d == rp.size(),
                q == rp.modulus(),
                2 < q < 0x1_0000_0000,
                w@.len() == d,
                v@.len() >= omega * d,
                w@ == wv[i as int],
                v@ == vv[i as int],
                omega * d <= usize::MAX,
                r@.len() == omega * d,
                forall|j: int|
                    0 <= j < row * d ==> #[trigger] r@[j] as int == partial_sum(
                        wv,
                        vv,
                        (i + 1) as nat,
                        d as nat,
                        j,
                    ) % (q as int),
                forall|j: int|
                    row * d <= j < omega * d ==> #[trigger] r@[j] as int == partial_sum(
                        wv,
                        vv,
                        i as nat,
                        d as nat,
                        j,
                    ) % (q as int),
            decreases omega - row,
        {
            proof {
                assert(row * d + d <= omega * d && (row + 1) * d == row * d + d && 0 <= row * d)
                    by (nonlinear_arith)
                    requires
                        row + 1 <= omega,
                        0 <= row,
                        0 <= d,
                ;
            }
            let off: usize = row * d;
            let part: &[i64] = vstd::slice::slice_subrange(v.as_slice(), off, off + d);
            let prod = poly_mul(w.as_slice(), part, rp);
            let ghost pr = ring::negacyclic(
                ring::signed(wv[i as int]),
                ring::row(vv[i as int], row as int, d as nat),
            );
            assert(ring::signed(part@) =~= ring::row(v@, row as int, d as nat));
            let mut k: usize = 0;
            while k < d
                invariant
                    k <= d,
                    row < omega,
                    off == row * d,
                    off + d <= omega * d,
                    2 < q < 0x1_0000_0000,
                    omega * d <= usize::MAX,
                    r@.len() == omega * d,
                    prod@.len() == d,
                    pr == weighted::products(wv, vv, row as int, d as nat)(i as int),
                    pr.len() == d,
                    forall|k: int| 0 <= k < d ==> #[trigger] prod@[k] as int == pr[k] % (q as int),
                    forall|j: int|
                        0 <= j < off + k ==> #[trigger] r@[j] as int == partial_sum(
                            wv,
                            vv,
                            (i + 1) as nat,
                            d as nat,
                            j,
                        ) % (q as int),
                    forall|j: int|
                        off + k <= j < omega * d ==> #[trigger] r@[j] as int == partial_sum(
                            wv,
                            vv,
                            i as nat,
                            d as nat,
                            j,
                        ) % (q as int),
                decreases d - k,
            {
                let ghost j = off + k;
                proof {
                    let qi = q as int;
                    let kk = k as int;
                    weighted::lemma_flat(row as int, kk, d as int);
                    let p = weighted::products(wv, vv, row as int, d as nat);
                    let before = partial_sum(wv, vv, i as nat, d as nat, j as int);
                    let after = partial_sum(wv, vv, (i + 1) as nat, d as nat, j as int);
                    ring::lemma_total(p, 0, i as nat, d as nat);
                    assert(after == before + pr[kk]);
                    arith::lemma_cong_residue(before, qi);
                    arith::lemma_cong_residue(pr[kk], qi);
                    assert(r@[j as int] as int == before % qi);
                    assert(prod@[kk] as int == pr[kk] % qi);
                    arith::lemma_cong_add(before % qi, before, pr[kk] % qi, pr[kk], qi);
                }
                let sum: u64 = r[off + k] as u64 + prod[k] as u64;
                let x: i64 = (sum % q) as i64;
                r.set(off + k, x);
                k += 1;
            }
            row += 1;
        }
        i += 1;
    }
    proof {
        let s = weighted::reduced(wv, vv, omega as nat, d as nat, q as int);
        let f = ring::signed(r@);
        assert forall|j: int| 0 <= j < omega * d implies #[trigger] f[j] == s[j] by {
            assert(r@[j] as int == partial_sum(wv, vv, n as nat, d as nat, j) % (q as int));
        }
        assert(f =~= s);
    }
    HvcCom(r)
}

/// The weighted sum of commitments `w_0 c_0 + w_1 c_1 + ..` modulo the modulus of the
/// commitments, as residues.
pub fn weighted_sum_commitments(ws: &[Vec<i64>], pks: &[LemurPk], profile: &Profile) -> (r: HvcCom)
    requires
        profile.wf(),
        pairs_ok(
            weighted::views(ws@),
            pk_views(pks@),
            profile.omega as int,
            profile.d as nat,
        ),
    ensures
        ring::signed(r.0@) == commitment_sum(
            weighted::views(ws@),
            pk_views(pks@),
            profile.omega as nat,
            profile.d as nat,
            profile.hvc_modulus(),
        ),
        weighted::are_residues(r.0@, profile.hvc_modulus()),
{
    let r = match &profile.hvc_ring {
        HvcRing::U32(rp) => weighted_sum_commitments_u32(ws, pks, profile.omega, rp),
        HvcRing::U64(rp) => weighted_sum_commitments_u64_ntt(ws, pks, profile.omega, rp),
    };
    proof {
        profile.lemma_modulus();
        let s = ring::signed(r.0@);
        let d = profile.d as int;
        let n = pairs(weighted::views(ws@), pk_views(pks@));
        let wv = weighted::views(ws@).take(n);
        let vv = pk_views(pks@).take(n);
        let c = weighted::reduced(wv, vv, profile.omega as nat, d as nat, profile.hvc_modulus());
        assert(s == c);
        assert(s.len() == r.0@.len());
        assert forall|j: int| 0 <= j < r.0@.len() implies 0 <= #[trigger] r.0@[j]
            < profile.hvc_modulus() by {
            assert(s[j] == r.0@[j] as int);
            let x = weighted::weighted_sum(wv, vv, j / d, d as nat)[j % d];
            assert(c[j] == x % profile.hvc_modulus());
            lemma_mod_bound(x, profile.hvc_modulus());
        }
    }
    r
}

/// The sum of `n` weighted one-time signatures cannot wrap: `n alpha_w beta_z` is at most half the
/// modulus.
pub open spec fn no_wrap(n: int, profile: &Profile) -> bool {
    n * profile.alpha_w * profile.beta_z <= profile.kots_modulus() / 2
}

/// The one-time signatures of `n` signers are aggregated in the transformed domain: their modulus
/// has no transform, the sum cannot wrap, and the auxiliary primes have the headroom.
pub open spec fn fast_path(n: int, profile: &Profile) -> bool {
    profile.kots_crt matches Some(cfg) && no_wrap(n, profile) && aux_ntt::headroom(
        cfg.q as int,
        cfg.d as int,
        if n == 0 {
            1
        } else {
            n
        },
    )
}

/// The absolute values of the products sum to what fits in 64 bits, at every coefficient.
pub open spec fn sums_fit(ws: Seq<Seq<i64>>, zs: Seq<Seq<i64>>, profile: &Profile) -> bool {
    let m = profile.m as nat;
    let d = profile.d as nat;
    let q = profile.kots_modulus();
    forall|k: int|
        0 <= k < m * d ==> #[trigger] scaling::magnitude(
            weighted::scalings(ws, zs, m, d, q),
            0,
            ws.len(),
            k,
        ) <= i64::MAX
}

/// The products of `n` weights of the weight `alpha_w` and signatures bounded by `b` sum to what
/// fits in 64 bits.
pub open spec fn bound_fits(n: int, b: int, profile: &Profile) -> bool {
    let half = profile.kots_modulus() / 2;
    n * (if profile.alpha_w * b < half {
        profile.alpha_w * b
    } else {
        half
    }) <= i64::MAX
}

/// Whatever the randomizers, the weighted sum of the signatures fits in 64 bits: it is reduced
/// where the modulus has no transform, and elsewhere the signatures are small or few enough.
pub open spec fn any_sum_fits(zs: Seq<Seq<i64>>, profile: &Profile) -> bool {
    profile.kots_crt is Some || exists|b: int|
        0 <= b && #[trigger] weighted::within(zs, b) && bound_fits(zs.len() as int, b, profile)
}

/// The weighted sum of one-time signatures.  Where their modulus has no transform it is the sum
/// as centered representatives, whichever way it is computed.  Elsewhere each product is centered
/// by itself and the sum is not reduced.
pub open spec fn kots_sum(ws: Seq<Seq<i64>>, zs: Seq<Seq<i64>>, profile: &Profile) -> Seq<int> {
    let n = pairs(ws, zs);
    let m = profile.m as nat;
    let d = profile.d as nat;
    let q = profile.kots_modulus();
    if profile.kots_crt is Some {
        weighted::aggregated(ws.take(n), zs.take(n), m, d, q)
    } else {
        weighted::scaled_total(ws.take(n), zs.take(n), m, d, q)
    }
}

/// What the weighted sum of one-time signatures asks of its arguments.
pub open spec fn kots_sum_ok(ws: Seq<Seq<i64>>, zs: Seq<Seq<i64>>, profile: &Profile) -> bool {
    &&& pairs_ok(ws, zs, profile.m as int, profile.d as nat)
    &&& fast_path(zs.len() as int, profile) ==> 0 < ws.len() == zs.len()
    &&& profile.kots_crt is None ==> sums_fit(
        ws.take(pairs(ws, zs)),
        zs.take(pairs(ws, zs)),
        profile,
    )
}

/// Bounded products fit.
pub proof fn lemma_sums_fit(ws: Seq<Seq<i64>>, zs: Seq<Seq<i64>>, profile: &Profile, b: int)
    requires
        profile.wf(),
        weighted::shapes_ok(ws, zs, profile.m as int, profile.d as nat),
        weighted::bounded(ws, zs, profile.alpha_w as int, b),
        0 <= b,
        bound_fits(ws.len() as int, b, profile),
    ensures
        sums_fit(ws, zs, profile),
{
    profile.lemma_modulus();
    let m = profile.m as nat;
    let d = profile.d as nat;
    let q = profile.kots_modulus();
    let alpha = profile.alpha_w as int;
    let bound = if alpha * b < q / 2 {
        alpha * b
    } else {
        q / 2
    };
    let s = weighted::scalings(ws, zs, m, d, q);
    assert forall|k: int| 0 <= k < m * d implies #[trigger] scaling::magnitude(
        s,
        0,
        ws.len(),
        k,
    ) <= i64::MAX by {
        weighted::lemma_position(k, m, d);
        let f = |i: int| ring::abs(s(0 + i)[k]);
        assert forall|i: int| 0 <= i < ws.len() implies -bound <= #[trigger] f(i) <= bound by {
            let r = k / (d as int);
            let j = k % (d as int);
            let x = weighted::products(ws, zs, r, d)(i)[j];
            weighted::lemma_bounded_product(ws, zs, m, d, alpha, b, r, j, i);
            arith::lemma_centered(x, q);
            arith::lemma_centered_nearest(x, q);
            assert(s(i)[k] == arith::centered(x, q));
        }
        ring::lemma_sum_bound(ws.len(), f, bound);
    }
}

/// Whether the sum of `n` weighted one-time signatures cannot wrap.
fn is_no_wrap(n: usize, profile: &Profile) -> (r: bool)
    requires
        profile.wf(),
    ensures
        r <==> no_wrap(n as int, profile),
{
    let q: u64 = profile.q_kots();
    proof {
        assert(0 <= n * profile.alpha_w <= 0xffff_ffff_ffff_ffff * 0xffff_ffff_ffff_ffff)
            by (nonlinear_arith)
            requires
                0 <= n <= 0xffff_ffff_ffff_ffff,
                0 <= profile.alpha_w <= 0xffff_ffff_ffff_ffff,
        ;
    }
    let x: u128 = (n as u128) * (profile.alpha_w as u128);
    match x.checked_mul(profile.beta_z as u128) {
        None => false,
        Some(y) => y <= (q / 2) as u128,
    }
}

/// The ring in which single one-time signatures are scaled.
enum KotsRing<'a> {
    Crt(CrtBackend),
    Wide(&'a RingParams64),
    Narrow(&'a RingParams),
}

impl<'a> KotsRing<'a> {
    /// The ring is the one of the profile.
    spec fn is_of(&self, profile: &Profile) -> bool {
        match self {
            KotsRing::Crt(backend) => backend.wf() && backend.size() == profile.d
                && backend.modulus() == profile.kots_modulus(),
            KotsRing::Wide(rp) => rp.wf() && rp.size() == profile.d && rp.modulus()
                == profile.kots_modulus(),
            KotsRing::Narrow(rp) => rp.wf() && rp.size() == profile.d && rp.modulus()
                == profile.kots_modulus(),
        }
    }

    /// Scales the `m` polynomials of a one-time signature.
    fn scale(&self, w: &Vec<i64>, z: &KotsSig, profile: &Profile) -> (r: Vec<i64>)
        requires
            self.is_of(profile),
            w@.len() == profile.d,
            z.0@.len() >= profile.m * profile.d,
        ensures
            ring::signed(r@) == scaled_signature(w@, z.0@, profile),
    {
        let m: usize = profile.m;
        assert(1 * m == m);
        match self {
            KotsRing::Crt(backend) => scale_mat_crt(w.as_slice(), z.0.as_slice(), 1, m, backend),
            KotsRing::Wide(rp) => scale_mat_u64(w.as_slice(), z.0.as_slice(), 1, m, rp),
            KotsRing::Narrow(rp) => scale_mat(w.as_slice(), z.0.as_slice(), 1, m, rp),
        }
    }
}

/// A one-time signature times its weight, as centered representatives.
pub open spec fn scaled_signature(w: Seq<i64>, z: Seq<i64>, profile: &Profile) -> Seq<int> {
    weighted::scaled(w, z, profile.m as nat, profile.d as nat, profile.kots_modulus())
}

/// The sum over the pairs of the scaled signatures, each product by itself: as centered
/// representatives where the modulus has no transform, and as it is elsewhere.
fn sum_scaled<H: Hvc>(
    ws: &[Vec<i64>],
    sigs: &[LemurSig<H>],
    profile: &Profile,
    ring: KotsRing,
) -> (r: Vec<i64>)
    requires
        profile.wf(),
        ring.is_of(profile),
        ring is Crt <==> profile.kots_crt is Some,
        pairs_ok(weighted::views(ws@), z_views(sigs@), profile.m as int, profile.d as nat),
        profile.kots_crt is None ==> sums_fit(
            weighted::views(ws@).take(pairs(weighted::views(ws@), z_views(sigs@))),
            z_views(sigs@).take(pairs(weighted::views(ws@), z_views(sigs@))),
            profile,
        ),
    ensures
        ring::signed(r@) == kots_sum(weighted::views(ws@), z_views(sigs@), profile),
{
    let n: usize = if ws.len() < sigs.len() {
        ws.len()
    } else {
        sigs.len()
    };
    let modulus: Option<u64> = match ring {
        KotsRing::Crt(_) => Some(profile.q_kots()),
        _ => None,
    };
    let ghost m = profile.m as nat;
    let ghost d = profile.d as nat;
    let ghost q = profile.kots_modulus();
    let ghost wv = weighted::views(ws@).take(n as int);
    let ghost zv = z_views(sigs@).take(n as int);
    let ghost s = weighted::scalings(wv, zv, m, d, q);
    proof {
        assert forall|i: int| 0 <= i < n implies (#[trigger] ws@[i])@.len() == profile.d
            && sigs@[i].z.0@.len() >= profile.m * profile.d by {
            assert(wv[i].len() == profile.d);
            assert(zv[i].len() >= profile.m * profile.d);
        }
    }
    let f = |i: usize| -> (v: Vec<i64>)
        requires
            i < n,
        ensures
            ring::signed(v@) == scaled_signature(ws@[i as int]@, sigs@[i as int].z.0@, profile),
        { ring.scale(&ws[i], &sigs[i].z, profile) };
    proof {
        profile.lemma_modulus();
        assert forall|i: int, k: int| 0 <= i < n && 0 <= k < m * d implies -(q / 2)
            <= #[trigger] s(i)[k] <= q / 2 by {
            weighted::lemma_scaled_range(wv[i], zv[i], m, d, q);
        }
        weighted::lemma_scaled_total(wv, zv, m, d, q);
    }
    let r = sum_vectors(n, profile.m * profile.d, modulus, f, Ghost(s));
    proof {
        let t = weighted::scaled_total(wv, zv, m, d, q);
        assert(ring::total(s, 0, n as nat, m * d) == t);
        if modulus is None {
            assert(scaling::kept_poly(t, modulus) =~= t);
        } else {
            assert(scaling::kept_poly(t, modulus) =~= ring::centered_poly(t, q));
        }
    }
    r
}

/// The weighted sum of the one-time signatures: the routing between the aggregation in the
/// transformed domain and the sum of single products.
pub(crate) fn aggregate_kots_z_inner<H: Hvc>(
    ws: &[Vec<i64>],
    sigs: &[LemurSig<H>],
    profile: &Profile,
) -> (r: Vec<i64>)
    requires
        profile.wf(),
        kots_sum_ok(weighted::views(ws@), z_views(sigs@), profile),
    ensures
        ring::signed(r@) == kots_sum(weighted::views(ws@), z_views(sigs@), profile),
{
    let ghost wv = weighted::views(ws@);
    let ghost zv = z_views(sigs@);
    if let Some(cfg) = profile.kots_crt() {
        let accumulating = if is_no_wrap(sigs.len(), profile) {
            CrtBackend::new_for_accum(cfg.q, cfg.d, sigs.len())
        } else {
            None
        };
        match accumulating {
            Some(backend) => {
                let mut vectors: Vec<&[i64]> = Vec::new();
                let mut i: usize = 0;
                while i < sigs.len()
                    invariant
                        i <= sigs@.len(),
                        vectors@.len() == i,
                        forall|j: int| 0 <= j < i ==> (#[trigger] vectors@[j])@ == sigs@[j].z.0@,
                    decreases sigs@.len() - i,
                {
                    vectors.push(sigs[i].z.0.as_slice());
                    i += 1;
                }
                proof {
                    assert(weighted::slice_views(vectors@) =~= zv);
                    assert(wv.take(pairs(wv, zv)) =~= wv);
                    assert(zv.take(pairs(wv, zv)) =~= zv);
                }
                aggregate_vec_crt_ntt(ws, vectors.as_slice(), profile.m, &backend)
            },
            None => sum_scaled(ws, sigs, profile, KotsRing::Crt(cfg.backend())),
        }
    } else if let Some(rp) = &profile.kots_ring64 {
        sum_scaled(ws, sigs, profile, KotsRing::Wide(rp))
    } else {
        let rp: &RingParams = profile.kots_ring.as_ref().unwrap();
        sum_scaled(ws, sigs, profile, KotsRing::Narrow(rp))
    }
}

} // verus!
