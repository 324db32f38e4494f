//! What holds of the sums, the randomizers, the projections and the bytes.

use crate::arith;
use crate::aux_ntt::CrtConfig;
use crate::bytes;
use crate::hvc;
use crate::lemur::combine;
use crate::profile::{Profile, Q_KOTS};
use crate::ring;
use crate::sample;
use crate::weighted;
use vstd::arithmetic::div_mod::*;
use vstd::arithmetic::power::*;
use vstd::arithmetic::power2::*;
use vstd::prelude::*;

verus! {

/// The weighted sum of the vectors as integers, not reduced.
pub open spec fn exact_sum(ws: Seq<Seq<i64>>, vs: Seq<Seq<i64>>, n: nat, d: nat) -> Seq<int> {
    Seq::new(n * d, |j: int| weighted::weighted_sum(ws, vs, j / (d as int), d)[j % (d as int)])
}

/// Both ways to aggregate one-time signatures give the same: the sum of the single
/// products, reduced to centered representatives, is what the accumulation in the transformed
/// domain gives.  This holds of any number of signers, so that the choice between the two is one of
/// speed alone.
pub proof fn law_paths_agree(ws: Seq<Seq<i64>>, vs: Seq<Seq<i64>>, n: nat, d: nat, q: int)
    requires
        q > 0,
    ensures
        ring::centered_poly(weighted::scaled_total(ws, vs, n, d, q), q) == weighted::aggregated(
            ws,
            vs,
            n,
            d,
            q,
        ),
{
    weighted::lemma_scaled_total(ws, vs, n, d, q);
}

/// Where no single product can wrap, the sum of the single products is the integer sum, for any
/// number of signers.
pub proof fn law_single_products_exact(
    ws: Seq<Seq<i64>>,
    vs: Seq<Seq<i64>>,
    n: nat,
    d: nat,
    q: int,
    alpha: int,
    beta: int,
)
    requires
        weighted::shapes_ok(ws, vs, n as int, d),
        weighted::bounded(ws, vs, alpha, beta),
        0 <= beta,
        2 * (alpha * beta) < q,
        q > 0,
    ensures
        weighted::scaled_total(ws, vs, n, d, q) == exact_sum(ws, vs, n, d),
{
    let s = weighted::scaled_total(ws, vs, n, d, q);
    let e = exact_sum(ws, vs, n, d);
    assert forall|j: int| 0 <= j < n * d implies #[trigger] s[j] == e[j] by {
        weighted::lemma_position(j, n, d);
        let r = j / (d as int);
        let k = j % (d as int);
        let p = weighted::products(ws, vs, r, d);
        let scaled = weighted::scalings(ws, vs, n, d, q);
        let f = |i: int| scaled(0 + i)[j];
        let g = |i: int| p(0 + i)[k];
        assert forall|i: int| 0 <= i < ws.len() implies #[trigger] f(i) == g(i) by {
            weighted::lemma_bounded_product(ws, vs, n, d, alpha, beta, r, k, i);
            arith::lemma_centered_small(p(i)[k], q);
        }
        ring::lemma_sum_ext(ws.len(), f, g);
    }
    assert(s =~= e);
}

/// Where the whole sum cannot wrap, the accumulation in the transformed domain gives the integer
/// sum.
pub proof fn law_accumulation_exact(
    ws: Seq<Seq<i64>>,
    vs: Seq<Seq<i64>>,
    n: nat,
    d: nat,
    q: int,
    alpha: int,
    beta: int,
)
    requires
        weighted::shapes_ok(ws, vs, n as int, d),
        weighted::bounded(ws, vs, alpha, beta),
        0 <= beta,
        2 * (ws.len() * (alpha * beta)) < q,
    ensures
        weighted::aggregated(ws, vs, n, d, q) == exact_sum(ws, vs, n, d),
{
    let a = weighted::aggregated(ws, vs, n, d, q);
    let e = exact_sum(ws, vs, n, d);
    let bound = alpha * beta;
    assert forall|j: int| 0 <= j < n * d implies #[trigger] a[j] == e[j] by {
        weighted::lemma_position(j, n, d);
        let r = j / (d as int);
        let k = j % (d as int);
        let p = weighted::products(ws, vs, r, d);
        assert forall|i: int| 0 <= i < ws.len() implies -bound <= #[trigger] p(i)[k] <= bound by {
            weighted::lemma_bounded_product(ws, vs, n, d, alpha, beta, r, k, i);
        }
        ring::lemma_total_bound(p, ws.len(), d, bound, k);
        arith::lemma_centered_small(weighted::weighted_sum(ws, vs, r, d)[k], q);
    }
    assert(a =~= e);
}

/// The aggregated one-time signature is the integer sum `w_0 z_0 + w_1 z_1 + ..` where that cannot
/// wrap, whichever way it is computed, and nothing overflows.
///
/// The weights and the signatures keep the bounds of the profile, and no coefficient of the sum is
/// exactly minus half the modulus, which none is where the modulus is odd: that one has the
/// centered representative of the other sign.
pub proof fn law_kots_sum_exact(ws: Seq<Seq<i64>>, zs: Seq<Seq<i64>>, profile: &Profile)
    requires
        profile.wf(),
        ws.len() > 0,
        weighted::shapes_ok(ws, zs, profile.m as int, profile.d as nat),
        weighted::bounded(ws, zs, profile.alpha_w as int, profile.beta_z as int),
        combine::no_wrap(ws.len() as int, profile),
        off_half(exact_sum(ws, zs, profile.m as nat, profile.d as nat), profile.kots_modulus()),
    ensures
        combine::kots_sum_ok(ws, zs, profile),
        combine::kots_sum(ws, zs, profile) == exact_sum(
            ws,
            zs,
            profile.m as nat,
            profile.d as nat,
        ),
{
    profile.lemma_modulus();
    let q = profile.kots_modulus();
    let n = ws.len() as int;
    let alpha = profile.alpha_w as int;
    let beta = profile.beta_z as int;
    let m = profile.m as nat;
    let d = profile.d as nat;
    let e = exact_sum(ws, zs, m, d);
    assert(n * alpha * beta == n * (alpha * beta)) by (nonlinear_arith);
    assert(0 <= alpha * beta <= n * (alpha * beta)) by (nonlinear_arith)
        requires
            0 <= alpha,
            0 <= beta,
            1 <= n,
    ;
    assert(ws.take(combine::pairs(ws, zs)) =~= ws);
    assert(zs.take(combine::pairs(ws, zs)) =~= zs);
    assert(combine::bound_fits(n, beta, profile)) by {
        let half = q / 2;
        let b = if alpha * beta < half {
            alpha * beta
        } else {
            half
        };
        assert(n * b <= n * (alpha * beta)) by (nonlinear_arith)
            requires
                b <= alpha * beta,
                1 <= n,
        ;
    }
    combine::lemma_sums_fit(ws, zs, profile, beta);
    if profile.kots_crt is Some {
        let a = weighted::aggregated(ws, zs, m, d, q);
        assert forall|j: int| 0 <= j < m * d implies #[trigger] a[j] == e[j] by {
            law_sum_bounded(ws, zs, m, d, alpha, beta, j);
            arith::lemma_centered_small(e[j], q);
        }
        assert(a =~= e);
    } else if n == 1 {
        lemma_one_signer(ws, zs, profile);
    } else {
        assert(2 * (alpha * beta) <= n * (alpha * beta)) by (nonlinear_arith)
            requires
                0 <= alpha * beta,
                2 <= n,
        ;
        law_single_products_exact(ws, zs, m, d, q, alpha, beta);
    }
}

/// No coefficient is exactly minus half the modulus.
pub open spec fn off_half(a: Seq<int>, q: int) -> bool {
    forall|j: int| 0 <= j < a.len() ==> 2 * #[trigger] a[j] != -q
}

/// The sum of one product is that product.
proof fn lemma_one_signer(ws: Seq<Seq<i64>>, zs: Seq<Seq<i64>>, profile: &Profile)
    requires
        profile.wf(),
        ws.len() == 1,
        weighted::shapes_ok(ws, zs, profile.m as int, profile.d as nat),
        weighted::bounded(ws, zs, profile.alpha_w as int, profile.beta_z as int),
        profile.alpha_w * profile.beta_z <= profile.kots_modulus() / 2,
        off_half(exact_sum(ws, zs, profile.m as nat, profile.d as nat), profile.kots_modulus()),
    ensures
        weighted::scaled_total(
            ws,
            zs,
            profile.m as nat,
            profile.d as nat,
            profile.kots_modulus(),
        ) == exact_sum(ws, zs, profile.m as nat, profile.d as nat),
{
    profile.lemma_modulus();
    let q = profile.kots_modulus();
    let alpha = profile.alpha_w as int;
    let beta = profile.beta_z as int;
    let m = profile.m as nat;
    let d = profile.d as nat;
    let s = weighted::scaled_total(ws, zs, m, d, q);
    let e = exact_sum(ws, zs, m, d);
    assert forall|j: int| 0 <= j < m * d implies #[trigger] s[j] == e[j] by {
        weighted::lemma_position(j, m, d);
        let r = j / (d as int);
        let k = j % (d as int);
        let p = weighted::products(ws, zs, r, d);
        reveal_with_fuel(ring::sum, 2);
        assert(e[j] == p(0)[k]);
        weighted::lemma_bounded_product(ws, zs, m, d, alpha, beta, r, k, 0);
        arith::lemma_centered_small(p(0)[k], q);
        assert(s[j] == weighted::scalings(ws, zs, m, d, q)(0)[j]);
    }
    assert(s =~= e);
}

/// Every coefficient of the integer sum is at most the number of signers times `alpha beta` in
/// absolute value.
pub proof fn law_sum_bounded(
    ws: Seq<Seq<i64>>,
    vs: Seq<Seq<i64>>,
    n: nat,
    d: nat,
    alpha: int,
    beta: int,
    j: int,
)
    requires
        weighted::shapes_ok(ws, vs, n as int, d),
        weighted::bounded(ws, vs, alpha, beta),
        0 <= beta,
        0 <= j < n * d,
    ensures
        ring::abs(exact_sum(ws, vs, n, d)[j]) <= ws.len() * (alpha * beta),
{
    weighted::lemma_position(j, n, d);
    let r = j / (d as int);
    let k = j % (d as int);
    let p = weighted::products(ws, vs, r, d);
    let bound = alpha * beta;
    assert forall|i: int| 0 <= i < ws.len() implies -bound <= #[trigger] p(i)[k] <= bound by {
        weighted::lemma_bounded_product(ws, vs, n, d, alpha, beta, r, k, i);
    }
    ring::lemma_total_bound(p, ws.len(), d, bound, k);
}

/// In the shipped parameter set the one-time signatures of up to 10739 signers are aggregated in
/// the transformed domain, and those of more are not.
pub proof fn law_shipped_crossover(profile: &Profile, n: nat)
    requires
        profile.alpha_w == 23,
        profile.beta_z == 7023,
        profile.kots_crt == Some((CrtConfig { q: Q_KOTS, d: 256 })),
    ensures
        combine::fast_path(n as int, profile) <==> n <= 10739,
{
    lemma2_to64();
    assert(256 == pow2(8));
    assert(n * profile.alpha_w * profile.beta_z == n * 161_529) by (nonlinear_arith)
        requires
            profile.alpha_w == 23,
            profile.beta_z == 7023,
    ;
    let one = 256 * ((Q_KOTS as int / 2) * (Q_KOTS as int / 2));
    assert(one == 256 * (1_734_700_010int * 1_734_700_010int));
    if n <= 10739 {
        let terms = if n == 0 {
            1int
        } else {
            n as int
        };
        assert(terms * one <= 10739 * one) by (nonlinear_arith)
            requires
                0 <= terms <= 10739,
                one >= 0,
        ;
    }
}

/// The randomizers of an attempt are ternary polynomials with `alpha_w` nonzero coefficients each,
/// so that the absolute values of their coefficients sum to `alpha_w`.
pub proof fn law_randomizers_ternary(
    t: usize,
    msg: Seq<u8>,
    pks_bytes: Seq<u8>,
    attempt: usize,
    n: nat,
    profile: &Profile,
    i: int,
)
    requires
        profile.wf(),
        0 <= i < n,
    ensures
        combine::randomizers(t, msg, pks_bytes, attempt, n, profile)[i].len() == profile.d,
        sample::is_ternary(combine::randomizers(t, msg, pks_bytes, attempt, n, profile)[i]),
        ring::l1_norm(
            ring::signed(combine::randomizers(t, msg, pks_bytes, attempt, n, profile)[i]),
        ) == profile.alpha_w,
{
    combine::lemma_randomizers(t, msg, pks_bytes, attempt, n, profile, i);
}

/// The randomizers are read from one stream in order: those of the first signers do not depend on
/// how many signers there are.
pub proof fn law_randomizers_prefix(
    t: usize,
    msg: Seq<u8>,
    pks_bytes: Seq<u8>,
    attempt: usize,
    n1: nat,
    n2: nat,
    profile: &Profile,
)
    requires
        n1 <= n2,
    ensures
        combine::randomizers(t, msg, pks_bytes, attempt, n1, profile) == combine::randomizers(
            t,
            msg,
            pks_bytes,
            attempt,
            n2,
            profile,
        ).take(n1 as int),
{
    let r1 = combine::randomizers(t, msg, pks_bytes, attempt, n1, profile);
    let r2 = combine::randomizers(t, msg, pks_bytes, attempt, n2, profile).take(n1 as int);
    let input = sample::randomizer_input(t, msg, pks_bytes, attempt);
    let step = (sample::DRAW_BYTES * profile.alpha_w) as nat;
    let s1 = sample::shake128_output(input, n1 * step);
    let s2 = sample::shake128_output(input, n2 * step);
    assert forall|i: int| 0 <= i < n1 implies #[trigger] r1[i] == r2[i] by {
        assert(0 <= i * step && i * step + step <= n1 * step && n1 * step <= n2 * step)
            by (nonlinear_arith)
            requires
                0 <= i,
                i + 1 <= n1,
                n1 <= n2,
                0 <= step,
        ;
        sample::lemma_ternary_bytes(
            s1,
            s2,
            i * step,
            profile.alpha_w as nat,
            profile.alpha_w as int,
            profile.d as nat,
        );
    }
    assert(r1 =~= r2);
}

/// With the randomizers of an attempt the aggregate of one-time signatures that keep the bound
/// `beta_z` is the integer sum, where that cannot wrap.
pub proof fn law_attempt_sum_exact(
    t: usize,
    msg: Seq<u8>,
    pks_bytes: Seq<u8>,
    attempt: usize,
    zs: Seq<Seq<i64>>,
    profile: &Profile,
)
    requires
        profile.wf(),
        zs.len() > 0,
        forall|i: int|
            0 <= i < zs.len() ==> (#[trigger] zs[i]).len() >= profile.m * profile.d,
        weighted::within(zs, profile.beta_z as int),
        combine::no_wrap(zs.len() as int, profile),
        off_half(
            exact_sum(
                combine::randomizers(t, msg, pks_bytes, attempt, zs.len(), profile),
                zs,
                profile.m as nat,
                profile.d as nat,
            ),
            profile.kots_modulus(),
        ),
    ensures
        combine::kots_sum(
            combine::randomizers(t, msg, pks_bytes, attempt, zs.len(), profile),
            zs,
            profile,
        ) == exact_sum(
            combine::randomizers(t, msg, pks_bytes, attempt, zs.len(), profile),
            zs,
            profile.m as nat,
            profile.d as nat,
        ),
{
    let ws = combine::randomizers(t, msg, pks_bytes, attempt, zs.len(), profile);
    combine::lemma_weight_shapes(t, msg, pks_bytes, attempt, zs, profile.m as int, profile);
    assert forall|i: int| 0 <= i < ws.len() implies ring::l1_norm(
        ring::signed(#[trigger] ws[i]),
    ) <= profile.alpha_w by {
        combine::lemma_randomizers(t, msg, pks_bytes, attempt, zs.len(), profile, i);
    }
    law_kots_sum_exact(ws, zs, profile);
}

/// The weighted sum over two groups is the sum of the weighted sums.
pub proof fn lemma_groups(
    ws1: Seq<Seq<i64>>,
    vs1: Seq<Seq<i64>>,
    ws2: Seq<Seq<i64>>,
    vs2: Seq<Seq<i64>>,
    r: int,
    d: nat,
    k: int,
)
    requires
        ws1.len() == vs1.len(),
        ws2.len() == vs2.len(),
        0 <= k < d,
    ensures
        weighted::weighted_sum(ws1 + ws2, vs1 + vs2, r, d)[k] == weighted::weighted_sum(
            ws1,
            vs1,
            r,
            d,
        )[k] + weighted::weighted_sum(ws2, vs2, r, d)[k],
{
    let p = weighted::products(ws1 + ws2, vs1 + vs2, r, d);
    let p1 = weighted::products(ws1, vs1, r, d);
    let p2 = weighted::products(ws2, vs2, r, d);
    let f = |i: int| p(0 + i)[k];
    let f1 = |i: int| p1(0 + i)[k];
    let f2 = |i: int| p2(0 + i)[k];
    let g = |i: int| f(ws1.len() + i);
    ring::lemma_sum_concat(ws1.len(), ws2.len(), f);
    assert forall|i: int| 0 <= i < ws1.len() implies #[trigger] f(i) == f1(i) by {
        assert((ws1 + ws2)[i] == ws1[i]);
        assert((vs1 + vs2)[i] == vs1[i]);
    }
    ring::lemma_sum_ext(ws1.len(), f, f1);
    assert forall|i: int| 0 <= i < ws2.len() implies #[trigger] g(i) == f2(i) by {
        assert((ws1 + ws2)[ws1.len() + i] == ws2[i]);
        assert((vs1 + vs2)[ws1.len() + i] == vs2[i]);
    }
    ring::lemma_sum_ext(ws2.len(), g, f2);
}

/// The aggregate of the one-time signatures of two groups is the sum of the aggregates of the
/// groups, where the whole sum cannot wrap.
pub proof fn law_kots_groups_add(
    ws1: Seq<Seq<i64>>,
    zs1: Seq<Seq<i64>>,
    ws2: Seq<Seq<i64>>,
    zs2: Seq<Seq<i64>>,
    profile: &Profile,
)
    requires
        profile.wf(),
        ws1.len() > 0,
        ws2.len() > 0,
        weighted::shapes_ok(ws1, zs1, profile.m as int, profile.d as nat),
        weighted::shapes_ok(ws2, zs2, profile.m as int, profile.d as nat),
        weighted::bounded(ws1, zs1, profile.alpha_w as int, profile.beta_z as int),
        weighted::bounded(ws2, zs2, profile.alpha_w as int, profile.beta_z as int),
        combine::no_wrap((ws1.len() + ws2.len()) as int, profile),
        off_half(
            exact_sum(ws1 + ws2, zs1 + zs2, profile.m as nat, profile.d as nat),
            profile.kots_modulus(),
        ),
    ensures
        combine::kots_sum(ws1 + ws2, zs1 + zs2, profile) == ring::plus(
            combine::kots_sum(ws1, zs1, profile),
            combine::kots_sum(ws2, zs2, profile),
        ),
{
    profile.lemma_modulus();
    let q = profile.kots_modulus();
    let m = profile.m as nat;
    let d = profile.d as nat;
    let alpha = profile.alpha_w as int;
    let beta = profile.beta_z as int;
    let ws = ws1 + ws2;
    let zs = zs1 + zs2;
    let e = exact_sum(ws, zs, m, d);
    let e1 = exact_sum(ws1, zs1, m, d);
    let e2 = exact_sum(ws2, zs2, m, d);
    let n1 = ws1.len() as int;
    let n2 = ws2.len() as int;
    let one = alpha * beta;
    assert((n1 + n2) * alpha * beta == n1 * one + n2 * one && n1 * alpha * beta == n1 * one && n2
        * alpha * beta == n2 * one) by (nonlinear_arith)
        requires
            one == alpha * beta,
    ;
    assert(0 <= one) by (nonlinear_arith)
        requires
            one == alpha * beta,
            0 <= alpha,
            0 <= beta,
    ;
    assert(one == 0 ==> n1 * one == 0 && n2 * one == 0) by (nonlinear_arith);
    assert(one <= n1 * one && one <= n2 * one) by (nonlinear_arith)
        requires
            0 <= one,
            1 <= n1,
            1 <= n2,
    ;
    assert forall|i: int, j: int| 0 <= i < zs.len() && 0 <= j < zs[i].len() implies -beta
        <= #[trigger] zs[i][j] <= beta by {
        if i < n1 {
            assert(-beta <= zs1[i][j] <= beta);
        } else {
            assert(-beta <= zs2[i - n1][j] <= beta);
        }
    }
    assert forall|j: int| 0 <= j < e1.len() implies 2 * #[trigger] e1[j] != -q by {
        law_sum_bounded(ws1, zs1, m, d, alpha, beta, j);
    }
    assert forall|j: int| 0 <= j < e2.len() implies 2 * #[trigger] e2[j] != -q by {
        law_sum_bounded(ws2, zs2, m, d, alpha, beta, j);
    }
    law_kots_sum_exact(ws, zs, profile);
    law_kots_sum_exact(ws1, zs1, profile);
    law_kots_sum_exact(ws2, zs2, profile);
    assert forall|j: int| 0 <= j < m * d implies #[trigger] e[j] == e1[j] + e2[j] by {
        weighted::lemma_position(j, m, d);
        lemma_groups(ws1, zs1, ws2, zs2, j / (d as int), d, j % (d as int));
    }
    assert(e =~= ring::plus(e1, e2));
}

/// The weighted sum over the signers of two groups is the sum of the two weighted sums, so that
/// it does not matter how signers are grouped.
pub proof fn law_groups_add(
    ws1: Seq<Seq<i64>>,
    vs1: Seq<Seq<i64>>,
    ws2: Seq<Seq<i64>>,
    vs2: Seq<Seq<i64>>,
    n: nat,
    d: nat,
    q: int,
    j: int,
)
    requires
        q > 0,
        weighted::shapes_ok(ws1, vs1, n as int, d),
        weighted::shapes_ok(ws2, vs2, n as int, d),
        0 <= j < n * d,
    ensures
        weighted::reduced(ws1 + ws2, vs1 + vs2, n, d, q)[j] == (weighted::reduced(
            ws1,
            vs1,
            n,
            d,
            q,
        )[j] + weighted::reduced(ws2, vs2, n, d, q)[j]) % q,
{
    weighted::lemma_position(j, n, d);
    let r = j / (d as int);
    let k = j % (d as int);
    lemma_groups(ws1, vs1, ws2, vs2, r, d, k);
    let a = weighted::weighted_sum(ws1, vs1, r, d)[k];
    let b = weighted::weighted_sum(ws2, vs2, r, d)[k];
    arith::lemma_cong_residue(a, q);
    arith::lemma_cong_residue(b, q);
    arith::lemma_cong_add(a % q, a, b % q, b, q);
}

/// Aggregation is homomorphic: a polynomial times the weighted sum is the weighted sum of that
/// polynomial times each vector.  So a linear relation that holds of every signer holds of the
/// aggregate.
pub proof fn law_aggregation_homomorphic(
    a: Seq<int>,
    ws: Seq<Seq<i64>>,
    vs: Seq<Seq<i64>>,
    n: nat,
    r: int,
    d: nat,
)
    requires
        a.len() == d,
        weighted::shapes_ok(ws, vs, n as int, d),
        0 <= r < n,
    ensures
        ring::negacyclic(a, weighted::weighted_sum(ws, vs, r, d)) == ring::total(
            |i: int|
                ring::negacyclic(
                    ring::signed(ws[i]),
                    ring::negacyclic(a, ring::row(vs[i], r, d)),
                ),
            0,
            ws.len(),
            d,
        ),
{
    lemma_homomorphic_prefix(a, ws, vs, r, d, ws.len());
}

proof fn lemma_homomorphic_prefix(
    a: Seq<int>,
    ws: Seq<Seq<i64>>,
    vs: Seq<Seq<i64>>,
    r: int,
    d: nat,
    k: nat,
)
    requires
        a.len() == d,
        k <= ws.len(),
        forall|i: int| 0 <= i < ws.len() ==> (#[trigger] ws[i]).len() == d,
    ensures
        ring::negacyclic(a, ring::total(weighted::products(ws, vs, r, d), 0, k, d)) == ring::total(
            |i: int|
                ring::negacyclic(
                    ring::signed(ws[i]),
                    ring::negacyclic(a, ring::row(vs[i], r, d)),
                ),
            0,
            k,
            d,
        ),
    decreases k,
{
    let p = weighted::products(ws, vs, r, d);
    let q = |i: int|
        ring::negacyclic(ring::signed(ws[i]), ring::negacyclic(a, ring::row(vs[i], r, d)));
    if k == 0 {
        let z = ring::total(p, 0, 0, d);
        let az = ring::negacyclic(a, z);
        assert forall|j: int| 0 <= j < d implies #[trigger] az[j] == 0 by {
            let f = |i: int| ring::product_term(a, z, -1, j, i);
            assert forall|i: int| 0 <= i < d implies #[trigger] f(i) == 0 by {
                let x = a[i];
                assert(x * 0 == 0) by (nonlinear_arith);
            }
            ring::lemma_sum_zero(d, f);
        }
        assert(az =~= ring::total(q, 0, 0, d));
    } else {
        let m = (k - 1) as nat;
        lemma_homomorphic_prefix(a, ws, vs, r, d, m);
        let i = m as int;
        assert(ws[i].len() == d);
        ring::lemma_total(p, 0, m, d);
        ring::lemma_total(q, 0, m, d);
        ring::lemma_product_plus(a, ring::total(p, 0, m, d), p(i), -1);
        ring::lemma_negacyclic_left_commutative(
            a,
            ring::signed(ws[i]),
            ring::row(vs[i], r, d),
        );
    }
}

/// The value of the digits of a label modulo the modulus of the commitments, as a centered
/// representative, is congruent to the value as an integer, and equal to it where that lies in
/// the centered range.
pub proof fn law_projection_centered(label: Seq<i64>, profile: &Profile, j: int)
    requires
        profile.wf(),
        0 <= j < profile.omega * profile.d,
    ensures
        ({
            let q = profile.hvc_modulus();
            let v = hvc::projections(label, profile)[j];
            &&& arith::cong(arith::centered(v % q, q), v, q)
            &&& -((q - 1) / 2) <= v <= (q - 1) / 2 ==> arith::centered(v % q, q) == v
        }),
{
    profile.lemma_modulus();
    let q = profile.hvc_modulus();
    let v = hvc::projections(label, profile)[j];
    arith::lemma_centered(v, q);
    if -((q - 1) / 2) <= v <= (q - 1) / 2 {
        arith::lemma_centered_small(v, q);
    }
}

/// `eta` times the first `k` powers of `2 eta + 1` sum to half of the next power less one.
proof fn lemma_digit_sum(eta: int, k: nat)
    ensures
        2 * ring::sum(k, |i: int| eta * pow(2 * eta + 1, i as nat)) == pow(2 * eta + 1, k) - 1,
    decreases k,
{
    let b = 2 * eta + 1;
    lemma_pow0(b);
    if k > 0 {
        lemma_digit_sum(eta, (k - 1) as nat);
        lemma_pow_adds(b, (k - 1) as nat, 1);
        lemma_pow1(b);
        let p = pow(b, (k - 1) as nat);
        assert(p * b == p + 2 * (eta * p)) by (nonlinear_arith)
            requires
                b == 2 * eta + 1,
        ;
    }
}

/// A label whose digits are all `eta` has the value `((2 eta + 1)^kappa - 1) / 2` everywhere.
pub proof fn law_projection_of_largest_digits(label: Seq<i64>, profile: &Profile, j: int)
    requires
        profile.wf(),
        label.len() == profile.omega * profile.kappa * profile.d,
        forall|i: int| 0 <= i < label.len() ==> #[trigger] label[i] == profile.eta,
        0 <= j < profile.omega * profile.d,
    ensures
        2 * hvc::projections(label, profile)[j] == pow(
            2 * profile.eta + 1,
            profile.kappa as nat,
        ) - 1,
{
    let d = profile.d as nat;
    let kappa = profile.kappa as int;
    let eta = profile.eta as int;
    let r = j / (d as int);
    let i = j % (d as int);
    weighted::lemma_position(j, profile.omega as nat, d);
    let f = |k: int| label[(r * kappa + k) * d + i] * pow(2 * eta + 1, k as nat);
    let g = |k: int| eta * pow(2 * eta + 1, k as nat);
    assert forall|k: int| 0 <= k < kappa implies #[trigger] f(k) == g(k) by {
        lemma_label_index(r, k, i, profile.omega as int, kappa, d as int);
    }
    ring::lemma_sum_ext(kappa as nat, f, g);
    lemma_digit_sum(eta, kappa as nat);
}

/// A digit of a label lies in the label.
pub proof fn lemma_label_index(r: int, k: int, i: int, omega: int, kappa: int, d: int)
    requires
        0 <= r < omega,
        0 <= k < kappa,
        0 <= i < d,
    ensures
        0 <= (r * kappa + k) * d + i < omega * kappa * d,
{
    let row = r * kappa + k;
    let rows = omega * kappa;
    assert(0 <= row && row + 1 <= rows) by (nonlinear_arith)
        requires
            row == r * kappa + k,
            rows == omega * kappa,
            0 <= r < omega,
            0 <= k < kappa,
    ;
    assert(0 <= row * d + i < rows * d) by (nonlinear_arith)
        requires
            0 <= row,
            row + 1 <= rows,
            0 <= i < d,
    ;
}

/// A label whose digits are at most `eta` in absolute value has values of at most
/// `((2 eta + 1)^kappa - 1) / 2` in absolute value.
pub proof fn law_projection_bounded(label: Seq<i64>, profile: &Profile, j: int)
    requires
        profile.wf(),
        label.len() == profile.omega * profile.kappa * profile.d,
        forall|i: int|
            0 <= i < label.len() ==> -profile.eta <= #[trigger] label[i] <= profile.eta,
        0 <= j < profile.omega * profile.d,
    ensures
        2 * ring::abs(hvc::projections(label, profile)[j]) <= pow(
            2 * profile.eta + 1,
            profile.kappa as nat,
        ) - 1,
{
    let d = profile.d as nat;
    let kappa = profile.kappa as int;
    let eta = profile.eta as int;
    let r = j / (d as int);
    let i = j % (d as int);
    weighted::lemma_position(j, profile.omega as nat, d);
    let f = |k: int| label[(r * kappa + k) * d + i] * pow(2 * eta + 1, k as nat);
    let g = |k: int| eta * pow(2 * eta + 1, k as nat);
    assert forall|k: int| 0 <= k < kappa implies -g(k) <= #[trigger] f(k) <= g(k) by {
        lemma_label_index(r, k, i, profile.omega as int, kappa, d as int);
        let x = label[(r * kappa + k) * d + i] as int;
        let p = pow(2 * eta + 1, k as nat);
        lemma_pow_positive(2 * eta + 1, k as nat);
        assert(-(eta * p) <= x * p <= eta * p) by (nonlinear_arith)
            requires
                -eta <= x <= eta,
                p > 0,
        ;
    }
    ring::lemma_sum_bound_each(kappa as nat, f, g);
    lemma_digit_sum(eta, kappa as nat);
}

/// Public keys of the same shapes with the same bytes are the same, so that the randomizers
/// depend on every coefficient of every public key.
pub proof fn law_pk_bytes_injective(a: Seq<Seq<i64>>, b: Seq<Seq<i64>>)
    requires
        a.len() == b.len(),
        forall|i: int| 0 <= i < a.len() ==> (#[trigger] a[i]).len() == b[i].len(),
        combine::concatenated(a) == combine::concatenated(b),
    ensures
        a == b,
    decreases a.len(),
{
    if a.len() > 0 {
        let a0 = a.drop_last();
        let b0 = b.drop_last();
        assert(a.last().len() == b.last().len()) by {
            assert(a[a.len() - 1].len() == b[a.len() - 1].len());
        }
        assert forall|i: int| 0 <= i < a0.len() implies (#[trigger] a0[i]).len() == b0[i].len() by {
            assert(a[i].len() == b[i].len());
        }
        lemma_concatenated_len(a0, b0);
        bytes::lemma_vector_bytes_len(a.last());
        bytes::lemma_vector_bytes_len(b.last());
        let s = combine::concatenated(a);
        let n = combine::concatenated(a0).len() as int;
        assert(s.subrange(0, n) =~= combine::concatenated(a0));
        assert(s.subrange(0, n) =~= combine::concatenated(b0));
        assert(s.subrange(n, s.len() as int) =~= bytes::vector_bytes(a.last()));
        assert(s.subrange(n, s.len() as int) =~= bytes::vector_bytes(b.last()));
        bytes::lemma_vector_bytes_injective(a.last(), b.last());
        law_pk_bytes_injective(a0, b0);
        assert(a =~= a0.push(a.last()));
        assert(b =~= b0.push(b.last()));
    } else {
        assert(a =~= b);
    }
}

proof fn lemma_concatenated_len(a: Seq<Seq<i64>>, b: Seq<Seq<i64>>)
    requires
        a.len() == b.len(),
        forall|i: int| 0 <= i < a.len() ==> (#[trigger] a[i]).len() == b[i].len(),
    ensures
        combine::concatenated(a).len() == combine::concatenated(b).len(),
    decreases a.len(),
{
    if a.len() > 0 {
        let a0 = a.drop_last();
        let b0 = b.drop_last();
        assert forall|i: int| 0 <= i < a0.len() implies (#[trigger] a0[i]).len() == b0[i].len() by {
            assert(a[i].len() == b[i].len());
        }
        lemma_concatenated_len(a0, b0);
        assert(a[a.len() - 1].len() == b[a.len() - 1].len());
        bytes::lemma_vector_bytes_len(a.last());
        bytes::lemma_vector_bytes_len(b.last());
    }
}

} // verus!
