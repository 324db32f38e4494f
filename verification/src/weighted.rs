//! Sums `w_0 v_0 + w_1 v_1 + ..` of negacyclic products, accumulated in the transformed domain.

use crate::arith;
use crate::ntt::Ntt;
use crate::parallel;
use crate::parallel::{chunk_count, chunk_size, map_indices};
use crate::residue::centered_residue;
use crate::ring;
use vstd::arithmetic::div_mod::*;
use vstd::prelude::*;

verus! {

/// The vectors of a list.
pub open spec fn views(ws: Seq<Vec<i64>>) -> Seq<Seq<i64>> {
    Seq::new(ws.len(), |i: int| ws[i]@)
}

/// The vectors of a list of slices.
pub open spec fn slice_views(vs: Seq<&[i64]>) -> Seq<Seq<i64>> {
    Seq::new(vs.len(), |i: int| vs[i]@)
}

/// The products `w_i v_i`, where `v_i` is the polynomial `poly` of the `i`-th vector.
pub open spec fn products(ws: Seq<Seq<i64>>, vs: Seq<Seq<i64>>, poly: int, d: nat) -> spec_fn(
    int,
) -> Seq<int> {
    |i: int| ring::negacyclic(ring::signed(ws[i]), ring::row(vs[i], poly, d))
}

/// `w_0 v_0 + w_1 v_1 + ..`, where `v_i` is the polynomial `poly` of the `i`-th vector.
pub open spec fn weighted_sum(ws: Seq<Seq<i64>>, vs: Seq<Seq<i64>>, poly: int, d: nat) -> Seq<int> {
    ring::total(products(ws, vs, poly, d), 0, ws.len(), d)
}

/// `w v` for each of the `n` polynomials of `v`, as centered representatives modulo `q`.
pub open spec fn scaled(w: Seq<i64>, v: Seq<i64>, n: nat, d: nat, q: int) -> Seq<int> {
    Seq::new(
        n * d,
        |j: int|
            arith::centered(
                ring::negacyclic(ring::signed(w), ring::row(v, j / (d as int), d))[j % (d as int)],
                q,
            ),
    )
}

/// `w_0 v_0 + w_1 v_1 + ..` for each of the `n` polynomials of the vectors, as centered
/// representatives modulo `q`.
pub open spec fn aggregated(
    ws: Seq<Seq<i64>>,
    vs: Seq<Seq<i64>>,
    n: nat,
    d: nat,
    q: int,
) -> Seq<int> {
    Seq::new(
        n * d,
        |j: int| arith::centered(weighted_sum(ws, vs, j / (d as int), d)[j % (d as int)], q),
    )
}

/// `w_0 v_0 + w_1 v_1 + ..` for each of the `n` polynomials of the vectors, as residues modulo
/// `q`.
pub open spec fn reduced(
    ws: Seq<Seq<i64>>,
    vs: Seq<Seq<i64>>,
    n: nat,
    d: nat,
    q: int,
) -> Seq<int> {
    Seq::new(n * d, |j: int| weighted_sum(ws, vs, j / (d as int), d)[j % (d as int)] % q)
}

/// The scaled vectors.
pub open spec fn scalings(
    ws: Seq<Seq<i64>>,
    vs: Seq<Seq<i64>>,
    n: nat,
    d: nat,
    q: int,
) -> spec_fn(int) -> Seq<int> {
    |i: int| scaled(ws[i], vs[i], n, d, q)
}

/// The sum over the signers of their scaled vectors, each centered by itself and the sum not
/// reduced.
pub open spec fn scaled_total(
    ws: Seq<Seq<i64>>,
    vs: Seq<Seq<i64>>,
    n: nat,
    d: nat,
    q: int,
) -> Seq<int> {
    ring::total(scalings(ws, vs, n, d, q), 0, ws.len(), n * d)
}

/// The products of the centered representatives.
pub open spec fn centered_products(
    ws: Seq<Seq<i64>>,
    vs: Seq<Seq<i64>>,
    poly: int,
    d: nat,
    q: int,
) -> spec_fn(int) -> Seq<int> {
    |i: int|
        ring::negacyclic(
            ring::centered_poly(ring::signed(ws[i]), q),
            ring::centered_poly(ring::row(vs[i], poly, d), q),
        )
}

/// Every weight is one polynomial, and every vector holds at least `n_polys` of them.
pub open spec fn shapes_ok(ws: Seq<Seq<i64>>, vs: Seq<Seq<i64>>, n_polys: int, d: nat) -> bool {
    &&& ws.len() == vs.len()
    &&& forall|i: int| 0 <= i < ws.len() ==> (#[trigger] ws[i]).len() == d
    &&& forall|i: int| 0 <= i < vs.len() ==> (#[trigger] vs[i]).len() >= n_polys * d
}

/// The centered products sum to something congruent to the sum of the products.
pub proof fn lemma_centered_sum(
    ws: Seq<Seq<i64>>,
    vs: Seq<Seq<i64>>,
    poly: int,
    d: nat,
    q: int,
)
    requires
        q > 0,
        forall|i: int| 0 <= i < ws.len() ==> (#[trigger] ws[i]).len() == d,
    ensures
        ring::poly_cong(
            ring::total(centered_products(ws, vs, poly, d, q), 0, ws.len(), d),
            weighted_sum(ws, vs, poly, d),
            q,
        ),
{
    let p = centered_products(ws, vs, poly, d, q);
    let r = products(ws, vs, poly, d);
    assert forall|i: int| 0 <= i < ws.len() implies ring::poly_cong(#[trigger] p(i), r(i), q)
        && p(i).len() == d by {
        let a = ring::signed(ws[i]);
        let b = ring::row(vs[i], poly, d);
        assert(ws[i].len() == d);
        ring::lemma_centered_poly(a, q);
        ring::lemma_centered_poly(b, q);
        ring::lemma_product_cong(
            ring::centered_poly(a, q),
            a,
            ring::centered_poly(b, q),
            b,
            -1,
            -1,
            q,
        );
    }
    ring::lemma_total_cong(p, r, ws.len(), d, q);
}

/// The centered products sum to at most `n d (q / 2)^2` in absolute value.
pub proof fn lemma_centered_sum_bound(
    ws: Seq<Seq<i64>>,
    vs: Seq<Seq<i64>>,
    poly: int,
    d: nat,
    q: int,
    k: int,
)
    requires
        q > 0,
        0 <= k < d,
        forall|i: int| 0 <= i < ws.len() ==> (#[trigger] ws[i]).len() == d,
    ensures
        -(ws.len() * (d * ((q / 2) * (q / 2)))) <= ring::total(
            centered_products(ws, vs, poly, d, q),
            0,
            ws.len(),
            d,
        )[k] <= ws.len() * (d * ((q / 2) * (q / 2))),
{
    let p = centered_products(ws, vs, poly, d, q);
    let h = q / 2;
    let bound = d * (h * h);
    assert forall|i: int| 0 <= i < ws.len() implies -bound <= #[trigger] p(i)[k] <= bound by {
        let a = ring::signed(ws[i]);
        let b = ring::row(vs[i], poly, d);
        assert(ws[i].len() == d);
        ring::lemma_centered_poly(a, q);
        ring::lemma_centered_poly(b, q);
        ring::lemma_negacyclic_bound(
            ring::centered_poly(a, q),
            ring::centered_poly(b, q),
            h,
            h,
            k,
        );
    }
    ring::lemma_total_bound(p, ws.len(), d, bound, k);
}

/// Every entry lies in the signed range `[-q/2, q/2]`.
pub open spec fn in_signed_range(r: Seq<i64>, q: int) -> bool {
    forall|j: int| 0 <= j < r.len() ==> -(q / 2) <= #[trigger] r[j] <= q / 2
}

/// Every entry is a residue modulo `q`.
pub open spec fn are_residues(r: Seq<i64>, q: int) -> bool {
    forall|j: int| 0 <= j < r.len() ==> 0 <= #[trigger] r[j] < q
}

/// A scaled vector lies in the signed range.
pub proof fn lemma_scaled_range(w: Seq<i64>, v: Seq<i64>, n: nat, d: nat, q: int)
    requires
        q > 0,
    ensures
        forall|j: int|
            0 <= j < n * d ==> -(q / 2) <= #[trigger] scaled(w, v, n, d, q)[j] <= q / 2,
{
    assert forall|j: int| 0 <= j < n * d implies -(q / 2) <= #[trigger] scaled(w, v, n, d, q)[j]
        <= q / 2 by {
        arith::lemma_centered(
            ring::negacyclic(ring::signed(w), ring::row(v, j / (d as int), d))[j % (d as int)],
            q,
        );
    }
}

/// An aggregated vector lies in the signed range.
pub proof fn lemma_aggregated_range(
    ws: Seq<Seq<i64>>,
    vs: Seq<Seq<i64>>,
    n: nat,
    d: nat,
    q: int,
)
    requires
        q > 0,
    ensures
        forall|j: int|
            0 <= j < n * d ==> -(q / 2) <= #[trigger] aggregated(ws, vs, n, d, q)[j] <= q / 2,
{
    assert forall|j: int| 0 <= j < n * d implies -(q / 2) <= #[trigger] aggregated(
        ws,
        vs,
        n,
        d,
        q,
    )[j] <= q / 2 by {
        arith::lemma_centered(weighted_sum(ws, vs, j / (d as int), d)[j % (d as int)], q);
    }
}

/// A vector of coefficients in the signed range lies in it.
pub proof fn lemma_signed_range(r: Seq<i64>, s: Seq<int>, q: int)
    requires
        ring::signed(r) == s,
        forall|j: int| 0 <= j < s.len() ==> -(q / 2) <= #[trigger] s[j] <= q / 2,
    ensures
        in_signed_range(r, q),
{
    assert forall|j: int| 0 <= j < r.len() implies -(q / 2) <= #[trigger] r[j] <= q / 2 by {
        assert(s[j] == r[j] as int);
    }
}

/// Position `k` of polynomial `i` in a flat vector.
pub proof fn lemma_flat(i: int, k: int, d: int)
    requires
        0 <= k < d,
    ensures
        (i * d + k) / d == i,
        (i * d + k) % d == k,
{
    lemma_fundamental_div_mod_converse(i * d + k, d, i, k);
}

/// Position `j` of a flat vector of `n` polynomials.
pub proof fn lemma_position(j: int, n: nat, d: nat)
    requires
        0 <= j < n * d,
    ensures
        0 < d,
        0 <= j / (d as int) < n,
        0 <= j % (d as int) < d,
        (j / (d as int)) * d + j % (d as int) == j,
{
    let di = d as int;
    assert(0 < d) by (nonlinear_arith)
        requires
            0 <= j < n * d,
            0 <= d,
    ;
    lemma_fundamental_div_mod(j, di);
    lemma_mod_bound(j, di);
    let r = j / di;
    assert(0 <= r < n) by (nonlinear_arith)
        requires
            d * r <= j < n * d,
            j < d * r + d,
            0 <= j,
            0 < d,
    ;
    assert(r * d == d * r) by (nonlinear_arith);
}

/// The sum of the single products, reduced to centered representatives, is the sum reduced once.
pub proof fn lemma_scaled_total(ws: Seq<Seq<i64>>, vs: Seq<Seq<i64>>, n: nat, d: nat, q: int)
    requires
        q > 0,
    ensures
        ring::centered_poly(scaled_total(ws, vs, n, d, q), q) == aggregated(ws, vs, n, d, q),
{
    let t = scaled_total(ws, vs, n, d, q);
    let a = aggregated(ws, vs, n, d, q);
    let c = ring::centered_poly(t, q);
    assert forall|j: int| 0 <= j < n * d implies #[trigger] c[j] == a[j] by {
        lemma_position(j, n, d);
        let r = j / (d as int);
        let k = j % (d as int);
        let p = products(ws, vs, r, d);
        let s = scalings(ws, vs, n, d, q);
        let f = |i: int| s(0 + i)[j];
        let g = |i: int| p(0 + i)[k];
        assert forall|i: int| 0 <= i < ws.len() implies arith::cong(#[trigger] f(i), g(i), q) by {
            arith::lemma_centered(p(i)[k], q);
        }
        ring::lemma_sum_cong(ws.len(), f, g, q);
        arith::lemma_centered_cong(t[j], weighted_sum(ws, vs, r, d)[k], q);
    }
    assert(c =~= a);
}

/// Every entry of a vector is at most `beta` in absolute value.
pub open spec fn within(vs: Seq<Seq<i64>>, beta: int) -> bool {
    forall|i: int, j: int|
        0 <= i < vs.len() && 0 <= j < vs[i].len() ==> -beta <= #[trigger] vs[i][j] <= beta
}

/// Every weight has a sum of absolute values of at most `alpha`, and every entry of a vector is
/// at most `beta` in absolute value.
pub open spec fn bounded(
    ws: Seq<Seq<i64>>,
    vs: Seq<Seq<i64>>,
    alpha: int,
    beta: int,
) -> bool {
    &&& forall|i: int| 0 <= i < ws.len() ==> ring::l1_norm(ring::signed(#[trigger] ws[i])) <= alpha
    &&& within(vs, beta)
}

/// The products of bounded weights and vectors are bounded by `alpha beta`.
pub proof fn lemma_bounded_product(
    ws: Seq<Seq<i64>>,
    vs: Seq<Seq<i64>>,
    n: nat,
    d: nat,
    alpha: int,
    beta: int,
    r: int,
    k: int,
    i: int,
)
    requires
        shapes_ok(ws, vs, n as int, d),
        bounded(ws, vs, alpha, beta),
        0 <= beta,
        0 <= r < n,
        0 <= k < d,
        0 <= i < ws.len(),
    ensures
        -(alpha * beta) <= products(ws, vs, r, d)(i)[k] <= alpha * beta,
{
    let w = ring::signed(ws[i]);
    let v = ring::row(vs[i], r, d);
    assert(ws[i].len() == d);
    assert(vs[i].len() >= n * d);
    assert forall|j: int| 0 <= j < d implies -beta <= #[trigger] v[j] <= beta by {
        assert(0 <= r * d + j < n * d) by (nonlinear_arith)
            requires
                0 <= r,
                r + 1 <= n,
                0 <= j < d,
        ;
        assert(-beta <= vs[i][r * d + j] <= beta);
    }
    ring::lemma_negacyclic_l1_bound(w, v, beta, k);
    let l = ring::l1_norm(w);
    assert(beta * l <= alpha * beta) by (nonlinear_arith)
        requires
            l <= alpha,
            0 <= beta,
    ;
}

/// Appends polynomial `i` to a flat vector.
pub(crate) fn push_poly(
    r: &mut Vec<i64>,
    part: Vec<i64>,
    Ghost(i): Ghost<int>,
    Ghost(d): Ghost<nat>,
    Ghost(s): Ghost<Seq<int>>,
)
    requires
        part@.len() == d,
        0 <= i,
        (i + 1) * d <= s.len(),
        ring::signed(old(r)@) == s.take(i * d),
        forall|k: int| 0 <= k < d ==> #[trigger] part@[k] as int == s[i * d + k],
    ensures
        ring::signed(final(r)@) == s.take((i + 1) * d),
{
    let mut part: Vec<i64> = part;
    let ghost p = part@;
    let ghost r0 = r@;
    r.append(&mut part);
    proof {
        assert((i + 1) * d == i * d + d) by (nonlinear_arith);
        assert(0 <= i * d) by (nonlinear_arith)
            requires
                0 <= i,
                0 <= d,
        ;
        assert(r@ =~= r0 + p);
        assert(r0.len() == ring::signed(r0).len() == i * d);
        let f = ring::signed(r@);
        let t = s.take((i + 1) * d);
        assert forall|j: int| 0 <= j < i * d + d implies #[trigger] f[j] == t[j] by {
            if j < i * d {
                assert(ring::signed(r0)[j] == s.take(i * d)[j]);
            } else {
                assert(p[j - i * d] as int == s[i * d + (j - i * d)]);
            }
        }
        assert(f =~= t);
    }
}

/// The transform of the centered polynomial `i` of a vector.
pub(crate) fn load(ntt: &Ntt, q: u64, v: &[i64], i: usize) -> (r: Vec<u64>)
    requires
        ntt.wf(),
        0 < q,
        q / 2 < ntt.modulus(),
        (i + 1) * ntt.size() <= v@.len(),
    ensures
        ntt.represents(
            r@,
            ring::centered_poly(ring::row(v@, i as int, ntt.size()), q as int),
        ),
{
    let d = ntt.d();
    let p = ntt.q();
    let ghost c = ring::centered_poly(ring::row(v@, i as int, ntt.size()), q as int);
    proof {
        ntt.lemma_facts();
        assert((i + 1) * d == i * d + d) by (nonlinear_arith);
        assert(v.len() == v@.len());
        assert(0 <= i * d) by (nonlinear_arith)
            requires
                0 <= i,
                0 <= d,
        ;
    }
    let off: usize = i * d;
    let mut r: Vec<u64> = Vec::new();
    let mut k: usize = 0;
    while k < d
        invariant
            k <= d,
            d == ntt.size(),
            p == ntt.modulus(),
            0 < q,
            q / 2 < p,
            off == i * d,
            off + d <= v@.len(),
            off + d <= usize::MAX,
            c == ring::centered_poly(ring::row(v@, i as int, ntt.size()), q as int),
            r@.len() == k,
            forall|j: int| 0 <= j < k ==> #[trigger] r@[j] as int == c[j] % (p as int) && r@[j] < p,
        decreases d - k,
    {
        let x: u64 = centered_residue(v[off + k], q, p);
        r.push(x);
        k += 1;
    }
    let ghost u = ring::unsigned(r@);
    ntt.forward(&mut r);
    proof {
        assert forall|j: int| 0 <= j < d implies arith::cong(#[trigger] u[j], c[j], p as int) by {
            arith::lemma_cong_residue(c[j], p as int);
        }
        ntt.lemma_represents_cong(r@, u, c);
    }
    r
}

/// The transforms, one for each polynomial, of the sums of the products `lo` to `hi - 1`.
fn accumulate_chunk(
    ntt: &Ntt,
    q: u64,
    ws: &[Vec<i64>],
    vs: &[&[i64]],
    lo: usize,
    hi: usize,
    n_polys: usize,
) -> (r: Vec<Vec<u64>>)
    requires
        ntt.wf(),
        0 < q,
        q / 2 < ntt.modulus(),
        shapes_ok(views(ws@), slice_views(vs@), n_polys as int, ntt.size()),
        lo <= hi <= ws@.len(),
    ensures
        r@.len() == n_polys,
        forall|poly: int|
            0 <= poly < n_polys ==> ntt.represents(
                #[trigger] r@[poly]@,
                ring::total(
                    centered_products(
                        views(ws@),
                        slice_views(vs@),
                        poly,
                        ntt.size(),
                        q as int,
                    ),
                    lo as int,
                    (hi - lo) as nat,
                    ntt.size(),
                ),
            ),
{
    let ghost d = ntt.size();
    let ghost wv = views(ws@);
    let ghost vv = slice_views(vs@);
    let mut acc: Vec<Vec<u64>> = Vec::new();
    let mut poly: usize = 0;
    while poly < n_polys
        invariant
            poly <= n_polys,
            ntt.wf(),
            d == ntt.size(),
            acc@.len() == poly,
            forall|j: int|
                0 <= j < poly ==> ntt.represents(#[trigger] acc@[j]@, ring::zero(d)),
        decreases n_polys - poly,
    {
        acc.push(ntt.zero());
        poly += 1;
    }
    proof {
        assert forall|j: int| 0 <= j < n_polys implies ntt.represents(
            #[trigger] acc@[j]@,
            ring::total(
                centered_products(wv, vv, j, d, q as int),
                lo as int,
                0,
                d,
            ),
        ) by {
            assert(ring::total(centered_products(wv, vv, j, d, q as int), lo as int, 0, d)
                =~= ring::zero(d));
        }
    }
    let mut i: usize = lo;
    while i < hi
        invariant
            lo <= i <= hi,
            hi <= ws@.len(),
            ntt.wf(),
            d == ntt.size(),
            wv == views(ws@),
            vv == slice_views(vs@),
            0 < q,
            q / 2 < ntt.modulus(),
            shapes_ok(wv, vv, n_polys as int, d),
            acc@.len() == n_polys,
            forall|j: int|
                0 <= j < n_polys ==> ntt.represents(
                    #[trigger] acc@[j]@,
                    ring::total(
                        centered_products(wv, vv, j, d, q as int),
                        lo as int,
                        (i - lo) as nat,
                        d,
                    ),
                ),
        decreases hi - i,
    {
        let ghost a = ring::centered_poly(ring::signed(wv[i as int]), q as int);
        proof {
            assert(wv[i as int].len() == d);
            assert(vv[i as int].len() >= n_polys * d);
            assert(ring::row(ws@[i as int]@, 0, d) =~= ring::signed(wv[i as int]));
            assert((0 + 1) * d == d) by (nonlinear_arith);
        }
        let w_hat = load(ntt, q, ws[i].as_slice(), 0);
        let v: &[i64] = vs[i];
        let mut poly: usize = 0;
        while poly < n_polys
            invariant
                poly <= n_polys,
                lo <= i < hi,
                hi <= ws@.len(),
                ntt.wf(),
                d == ntt.size(),
                v@ == vv[i as int],
                0 < q,
                q / 2 < ntt.modulus(),
                shapes_ok(wv, vv, n_polys as int, d),
                wv.len() == ws@.len(),
                a == ring::centered_poly(ring::signed(wv[i as int]), q as int),
                ntt.represents(w_hat@, a),
                acc@.len() == n_polys,
                forall|j: int|
                    0 <= j < poly ==> ntt.represents(
                        #[trigger] acc@[j]@,
                        ring::total(
                            centered_products(wv, vv, j, d, q as int),
                            lo as int,
                            (i + 1 - lo) as nat,
                            d,
                        ),
                    ),
                forall|j: int|
                    poly <= j < n_polys ==> ntt.represents(
                        #[trigger] acc@[j]@,
                        ring::total(
                            centered_products(wv, vv, j, d, q as int),
                            lo as int,
                            (i - lo) as nat,
                            d,
                        ),
                    ),
            decreases n_polys - poly,
        {
            let ghost p = centered_products(wv, vv, poly as int, d, q as int);
            let ghost b = ring::centered_poly(ring::row(vv[i as int], poly as int, d), q as int);
            let ghost s = ring::total(p, lo as int, (i - lo) as nat, d);
            proof {
                assert(vv[i as int].len() >= n_polys * d);
                assert((poly + 1) * d <= n_polys * d) by (nonlinear_arith)
                    requires
                        poly + 1 <= n_polys,
                        d >= 0,
                ;
                assert(wv[i as int].len() == d);
                assert(p(lo + (i - lo)) == ring::negacyclic(a, b));
                ring::lemma_total(p, lo as int, (i - lo) as nat, d);
                assert(ntt.represents(acc@[poly as int]@, s));
            }
            let v_hat = load(ntt, q, v, poly);
            let ghost acc0 = acc@;
            ntt.accumulate(&mut acc[poly], &w_hat, &v_hat, Ghost(s), Ghost(a), Ghost(b));
            assert(forall|j: int| 0 <= j < n_polys && j != poly ==> acc@[j] == acc0[j]);
            poly += 1;
        }
        i += 1;
    }
    acc
}

/// What the transforms of the sums of the products `lo` to `hi - 1` represent, one for each
/// polynomial.
spec fn covers(
    ntt: &Ntt,
    q: u64,
    ws: Seq<Seq<i64>>,
    vs: Seq<Seq<i64>>,
    lo: int,
    hi: int,
    hats: Seq<Vec<u64>>,
) -> bool {
    forall|poly: int|
        0 <= poly < hats.len() ==> ntt.represents(
            #[trigger] hats[poly]@,
            ring::total(
                centered_products(ws, vs, poly, ntt.size(), q as int),
                lo,
                (hi - lo) as nat,
                ntt.size(),
            ),
        )
}

/// The transforms of the sums over the `c`-th chunk of `size` products.
spec fn covers_chunk(
    ntt: &Ntt,
    q: u64,
    ws: Seq<Seq<i64>>,
    vs: Seq<Seq<i64>>,
    size: usize,
    c: usize,
    hats: Seq<Vec<u64>>,
) -> bool {
    let end = c * size + size;
    covers(
        ntt,
        q,
        ws,
        vs,
        c * size,
        if end < ws.len() {
            end
        } else {
            ws.len() as int
        },
        hats,
    )
}

/// The transforms, one for each polynomial, of the sums of the products of the centered weights
/// and vectors.  The products are accumulated chunk by chunk in parallel; the sums do not depend
/// on how many chunks there are.
pub(crate) fn weighted_transforms(
    ntt: &Ntt,
    q: u64,
    ws: &[Vec<i64>],
    vs: &[&[i64]],
    n_polys: usize,
) -> (r: Vec<Vec<u64>>)
    requires
        ntt.wf(),
        0 < q,
        q / 2 < ntt.modulus(),
        shapes_ok(views(ws@), slice_views(vs@), n_polys as int, ntt.size()),
    ensures
        r@.len() == n_polys,
        forall|poly: int|
            0 <= poly < n_polys ==> ntt.represents(
                #[trigger] r@[poly]@,
                ring::total(
                    centered_products(views(ws@), slice_views(vs@), poly, ntt.size(), q as int),
                    0,
                    ws@.len(),
                    ntt.size(),
                ),
            ),
{
    let ghost d = ntt.size();
    let ghost wv = views(ws@);
    let ghost vv = slice_views(vs@);
    let n: usize = ws.len();
    let size: usize = chunk_size(n, rayon::current_num_threads());
    let count: usize = chunk_count(n, size);
    let part_of = |c: usize| -> (r: Vec<Vec<u64>>)
        requires
            c < count,
        ensures
            r@.len() == n_polys,
            covers_chunk(ntt, q, views(ws@), slice_views(vs@), size, c, r@),
        {
            proof {
                parallel::lemma_chunk(c as int, count as int, size as int, n as int);
            }
            let lo: usize = c * size;
            let hi: usize = if n - lo < size {
                n
            } else {
                lo + size
            };
            accumulate_chunk(ntt, q, ws, vs, lo, hi, n_polys)
        };
    let parts = map_indices(count, part_of);
    let mut acc: Vec<Vec<u64>> = Vec::new();
    let mut poly: usize = 0;
    while poly < n_polys
        invariant
            poly <= n_polys,
            ntt.wf(),
            d == ntt.size(),
            acc@.len() == poly,
            forall|j: int|
                0 <= j < poly ==> ntt.represents(#[trigger] acc@[j]@, ring::zero(d)),
        decreases n_polys - poly,
    {
        acc.push(ntt.zero());
        poly += 1;
    }
    proof {
        assert forall|j: int| 0 <= j < n_polys implies ntt.represents(
            #[trigger] acc@[j]@,
            ring::total(centered_products(wv, vv, j, d, q as int), 0, 0, d),
        ) by {
            assert(ring::total(centered_products(wv, vv, j, d, q as int), 0, 0, d) =~= ring::zero(
                d,
            ));
        }
    }
    let mut c: usize = 0;
    let mut done: usize = 0;
    while c < count
        invariant
            c <= count,
            done == if c * size < n {
                c * size
            } else {
                n as int
            },
            count * size >= n,
            count > 0 ==> (count - 1) * size < n,
            1 <= size,
            ntt.wf(),
            d == ntt.size(),
            n == wv.len(),
            shapes_ok(wv, vv, n_polys as int, d),
            parts@.len() == count,
            forall|i: int|
                #![trigger parts@[i]]
                0 <= i < count ==> parts@[i]@.len() == n_polys && covers_chunk(
                    ntt,
                    q,
                    wv,
                    vv,
                    size,
                    i as usize,
                    parts@[i]@,
                ),
            acc@.len() == n_polys,
            covers(ntt, q, wv, vv, 0, done as int, acc@),
        decreases count - c,
    {
        proof {
            parallel::lemma_chunk(c as int, count as int, size as int, n as int);
        }
        let hi: usize = if n - done < size {
            n
        } else {
            done + size
        };
        let part: &Vec<Vec<u64>> = &parts[c];
        let mut poly: usize = 0;
        while poly < n_polys
            invariant
                poly <= n_polys,
                done <= hi <= n,
                ntt.wf(),
                d == ntt.size(),
                n == wv.len(),
                shapes_ok(wv, vv, n_polys as int, d),
                part@.len() == n_polys,
                covers(ntt, q, wv, vv, done as int, hi as int, part@),
                acc@.len() == n_polys,
                forall|j: int|
                    0 <= j < poly ==> ntt.represents(
                        #[trigger] acc@[j]@,
                        ring::total(
                            centered_products(wv, vv, j, d, q as int),
                            0,
                            hi as nat,
                            d,
                        ),
                    ),
                forall|j: int|
                    poly <= j < n_polys ==> ntt.represents(
                        #[trigger] acc@[j]@,
                        ring::total(
                            centered_products(wv, vv, j, d, q as int),
                            0,
                            done as nat,
                            d,
                        ),
                    ),
            decreases n_polys - poly,
        {
            let ghost p = centered_products(wv, vv, poly as int, d, q as int);
            let ghost s = ring::total(p, 0, done as nat, d);
            let ghost a = ring::total(p, done as int, (hi - done) as nat, d);
            proof {
                ring::lemma_total_concat(p, 0, done as nat, (hi - done) as nat, d);
                assert(ntt.represents(acc@[poly as int]@, s));
                assert(ntt.represents(part@[poly as int]@, a));
            }
            let ghost acc0 = acc@;
            ntt.merge(&mut acc[poly], &part[poly], Ghost(s), Ghost(a));
            assert(forall|j: int| 0 <= j < n_polys && j != poly ==> acc@[j] == acc0[j]);
            poly += 1;
        }
        done = hi;
        c += 1;
    }
    acc
}

} // verus!
