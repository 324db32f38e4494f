//! Scaling and aggregation of vectors of polynomials.

use crate::arith;
use crate::aux_ntt;
use crate::aux_ntt::CrtBackend;
use crate::parallel;
use crate::parallel::{chunk_count, chunk_size, map_indices};
use crate::residue::{center, rem_euclid, MODULUS_BOUND};
use crate::ring;
use crate::weighted;
use crate::weighted::{load, push_poly, weighted_transforms};
use vstd::prelude::*;

verus! {

/// Multiplies each of the `n` polynomials of `v` by the polynomial `w`, modulo the modulus of the
/// backend.  The result is in the signed range `[-q/2, q/2]`.
pub fn scale_vec_crt(w: &[i64], v: &[i64], n: usize, backend: &CrtBackend) -> (r: Vec<i64>)
    requires
        backend.wf(),
        w@.len() == backend.size(),
        n * backend.size() <= v@.len(),
    ensures
        ring::signed(r@) == weighted::scaled(
            w@,
            v@,
            n as nat,
            backend.size(),
            backend.modulus(),
        ),
        weighted::in_signed_range(r@, backend.modulus()),
{
    let ghost d = backend.size();
    let ghost q = backend.modulus();
    let ghost s = weighted::scaled(w@, v@, n as nat, d, q);
    let ghost cw = ring::centered_poly(ring::signed(w@), q);
    let lane_1 = backend.lane(true);
    let lane_2 = backend.lane(false);
    let modulus: u64 = backend.q();
    proof {
        assert((0 + 1) * d == d) by (nonlinear_arith);
        assert(ring::row(w@, 0, d) =~= ring::signed(w@));
    }
    let w_1 = load(lane_1, modulus, w, 0);
    let w_2 = load(lane_2, modulus, w, 0);
    let mut r: Vec<i64> = Vec::new();
    assert(0 * d == 0) by (nonlinear_arith);
    assert(ring::signed(r@) =~= s.take(0));
    let mut i: usize = 0;
    while i < n
        invariant
            i <= n,
            backend.wf(),
                *lane_1 == backend.lanes().0,
            *lane_2 == backend.lanes().1,
            modulus == q,
            d == backend.size(),
            q == backend.modulus(),
            n * d <= v@.len(),
            w@.len() == d,
            s == weighted::scaled(w@, v@, n as nat, d, q),
            cw == ring::centered_poly(ring::signed(w@), q),
            lane_1.represents(w_1@, cw),
            lane_2.represents(w_2@, cw),
            ring::signed(r@) == s.take(i * d),
        decreases n - i,
    {
        proof {
            assert((i + 1) * d <= n * d) by (nonlinear_arith)
                requires
                    i + 1 <= n,
                    0 <= d,
            ;
        }
        let ghost b = ring::row(v@, i as int, d);
        let ghost cb = ring::centered_poly(b, q);
        let ghost z = ring::zero(d);
        let ghost p = ring::plus(z, ring::negacyclic(cw, cb));
        let v_1 = load(lane_1, modulus, v, i);
        let v_2 = load(lane_2, modulus, v, i);
        let mut acc_1 = lane_1.zero();
        let mut acc_2 = lane_2.zero();
        lane_1.accumulate(&mut acc_1, &w_1, &v_1, Ghost(z), Ghost(cw), Ghost(cb));
        lane_2.accumulate(&mut acc_2, &w_2, &v_2, Ghost(z), Ghost(cw), Ghost(cb));
        proof {
            lemma_product_bound(backend, cw, cb, ring::signed(w@), b);
            assert(p =~= ring::negacyclic(cw, cb));
        }
        let part = backend.finalize(acc_1, acc_2, Ghost(p));
        proof {
            assert forall|k: int| 0 <= k < d implies #[trigger] part@[k] as int == s[i * d + k] by {
                weighted::lemma_flat(i as int, k, d as int);
                assert(0 <= i * d + k < n * d) by (nonlinear_arith)
                    requires
                        (i + 1) * d <= n * d,
                        0 <= k < d,
                        0 <= i,
                ;
                arith::lemma_centered_cong(
                    p[k],
                    ring::negacyclic(ring::signed(w@), b)[k],
                    q,
                );
            }
        }
        push_poly(&mut r, part, Ghost(i as int), Ghost(d), Ghost(s));
        i += 1;
    }
    proof {
        assert(s.take(n * d) =~= s);
        weighted::lemma_scaled_range(w@, v@, n as nat, d, q);
        weighted::lemma_signed_range(r@, s, q);
    }
    r
}

/// The product of two centered polynomials is congruent to the product, and within the headroom.
proof fn lemma_product_bound(
    backend: &CrtBackend,
    ca: Seq<int>,
    cb: Seq<int>,
    a: Seq<int>,
    b: Seq<int>,
)
    requires
        backend.wf(),
        a.len() == backend.size(),
        b.len() == backend.size(),
        ca == ring::centered_poly(a, backend.modulus()),
        cb == ring::centered_poly(b, backend.modulus()),
    ensures
        ring::poly_cong(ring::negacyclic(ca, cb), ring::negacyclic(a, b), backend.modulus()),
        forall|k: int|
            0 <= k < backend.size() ==> -(aux_ntt::AUX_PRODUCT / 2) <= #[trigger] ring::negacyclic(
                ca,
                cb,
            )[k] <= aux_ntt::AUX_PRODUCT / 2,
{
    let q = backend.modulus();
    let d = backend.size();
    let h = q / 2;
    let t = backend.terms() as int;
    let one = d * (h * h);
    ring::lemma_centered_poly(a, q);
    ring::lemma_centered_poly(b, q);
    ring::lemma_product_cong(ca, a, cb, b, -1, -1, q);
    assert(one <= t * one) by (nonlinear_arith)
        requires
            one >= 0,
            t >= 1,
    ;
    assert(one >= 0) by (nonlinear_arith)
        requires
            one == d * (h * h),
            d >= 0,
    ;
    assert forall|k: int| 0 <= k < d implies -(aux_ntt::AUX_PRODUCT / 2)
        <= #[trigger] ring::negacyclic(ca, cb)[k] <= aux_ntt::AUX_PRODUCT / 2 by {
        ring::lemma_negacyclic_bound(ca, cb, h, h, k);
    }
}

/// Scales each of the `r c` polynomials of a matrix by the polynomial `w`, modulo the modulus of
/// the backend.  The result is signed.
pub fn scale_mat_crt(w: &[i64], m_mat: &[i64], r: usize, c: usize, backend: &CrtBackend) -> (s: Vec<
    i64,
>)
    requires
        backend.wf(),
        w@.len() == backend.size(),
        r * c <= usize::MAX,
        (r * c) * backend.size() <= m_mat@.len(),
    ensures
        ring::signed(s@) == weighted::scaled(
            w@,
            m_mat@,
            (r * c) as nat,
            backend.size(),
            backend.modulus(),
        ),
        weighted::in_signed_range(s@, backend.modulus()),
{
    scale_vec_crt(w, m_mat, r * c, backend)
}

/// Aggregates `w_0 v_0 + w_1 v_1 + ..` for each of the `n_polys` polynomials of the vectors,
/// modulo the modulus of the backend, as centered representatives.
///
/// The products are accumulated in the two transformed domains, so that one inverse transform is
/// paid for each polynomial, not one for each polynomial of each vector.
pub fn aggregate_vec_crt_ntt(
    ws: &[Vec<i64>],
    vectors: &[&[i64]],
    n_polys: usize,
    backend: &CrtBackend,
) -> (r: Vec<i64>)
    requires
        backend.wf(),
        0 < ws@.len() <= backend.terms(),
        weighted::shapes_ok(
            weighted::views(ws@),
            weighted::slice_views(vectors@),
            n_polys as int,
            backend.size(),
        ),
    ensures
        ring::signed(r@) == weighted::aggregated(
            weighted::views(ws@),
            weighted::slice_views(vectors@),
            n_polys as nat,
            backend.size(),
            backend.modulus(),
        ),
        weighted::in_signed_range(r@, backend.modulus()),
{
    let ghost d = backend.size();
    let ghost q = backend.modulus();
    let ghost wv = weighted::views(ws@);
    let ghost vv = weighted::slice_views(vectors@);
    let ghost s = weighted::aggregated(wv, vv, n_polys as nat, d, q);
    let modulus: u64 = backend.q();
    let acc_1 = weighted_transforms(backend.lane(true), modulus, ws, vectors, n_polys);
    let acc_2 = weighted_transforms(backend.lane(false), modulus, ws, vectors, n_polys);
    let mut r: Vec<i64> = Vec::new();
    assert(0 * d == 0) by (nonlinear_arith);
    assert(ring::signed(r@) =~= s.take(0));
    let mut hats_1: Vec<Vec<u64>> = acc_1;
    let mut hats_2: Vec<Vec<u64>> = acc_2;
    let mut i: usize = 0;
    while i < n_polys
        invariant
            i <= n_polys,
            backend.wf(),
            d == backend.size(),
            q == backend.modulus(),
            0 < wv.len() <= backend.terms(),
            weighted::shapes_ok(wv, vv, n_polys as int, d),
            s == weighted::aggregated(wv, vv, n_polys as nat, d, q),
            hats_1@.len() == n_polys,
            hats_2@.len() == n_polys,
            forall|poly: int|
                i <= poly < n_polys ==> backend.lanes().0.represents(
                    #[trigger] hats_1@[poly]@,
                    ring::total(
                        weighted::centered_products(wv, vv, poly, d, q),
                        0,
                        wv.len(),
                        d,
                    ),
                ),
            forall|poly: int|
                i <= poly < n_polys ==> backend.lanes().1.represents(
                    #[trigger] hats_2@[poly]@,
                    ring::total(
                        weighted::centered_products(wv, vv, poly, d, q),
                        0,
                        wv.len(),
                        d,
                    ),
                ),
            ring::signed(r@) == s.take(i * d),
        decreases n_polys - i,
    {
        let ghost p = ring::total(
            weighted::centered_products(wv, vv, i as int, d, q),
            0,
            wv.len(),
            d,
        );
        let ghost h1 = hats_1@;
        let ghost h2 = hats_2@;
        assert(backend.lanes().0.represents(h1[i as int]@, p));
        assert(backend.lanes().1.represents(h2[i as int]@, p));
        let mut hat_1: Vec<u64> = Vec::new();
        let mut hat_2: Vec<u64> = Vec::new();
        std::mem::swap(&mut hat_1, &mut hats_1[i]);
        std::mem::swap(&mut hat_2, &mut hats_2[i]);
        proof {
            assert(forall|j: int| 0 <= j < n_polys && j != i ==> hats_1@[j] == h1[j]);
            assert(forall|j: int| 0 <= j < n_polys && j != i ==> hats_2@[j] == h2[j]);
            assert((i + 1) * d <= n_polys * d) by (nonlinear_arith)
                requires
                    i + 1 <= n_polys,
                    0 <= d,
            ;
            weighted::lemma_centered_sum(wv, vv, i as int, d, q);
            assert forall|k: int| 0 <= k < p.len() implies -(aux_ntt::AUX_PRODUCT / 2)
                <= #[trigger] p[k] <= aux_ntt::AUX_PRODUCT / 2 by {
                weighted::lemma_centered_sum_bound(wv, vv, i as int, d, q, k);
                let h = q / 2;
                let one = d * (h * h);
                let n = wv.len() as int;
                let t = backend.terms() as int;
                assert(n * one <= t * one) by (nonlinear_arith)
                    requires
                        one == d * (h * h),
                        d >= 0,
                        n <= t,
                ;
            }
        }
        let part = backend.finalize(hat_1, hat_2, Ghost(p));
        proof {
            assert forall|k: int| 0 <= k < d implies #[trigger] part@[k] as int == s[i * d + k] by {
                weighted::lemma_flat(i as int, k, d as int);
                assert(0 <= i * d + k < n_polys * d) by (nonlinear_arith)
                    requires
                        (i + 1) * d <= n_polys * d,
                        0 <= k < d,
                        0 <= i,
                ;
                let t = weighted::weighted_sum(wv, vv, i as int, d);
                assert(arith::cong(p[k], t[k], q));
                arith::lemma_centered_cong(p[k], t[k], q);
            }
        }
        push_poly(&mut r, part, Ghost(i as int), Ghost(d), Ghost(s));
        i += 1;
    }
    proof {
        assert(s.take(n_polys * d) =~= s);
        weighted::lemma_aggregated_range(wv, vv, n_polys as nat, d, q);
        weighted::lemma_signed_range(r@, s, q);
    }
    r
}

/// A coefficient as it is kept while vectors are summed: centered modulo the modulus, if there is
/// one.
pub open spec fn kept(x: int, modulus: Option<u64>) -> int {
    match modulus {
        Some(q) => arith::centered(x, q as int),
        None => x,
    }
}

/// The coefficients as they are kept.
pub open spec fn kept_poly(a: Seq<int>, modulus: Option<u64>) -> Seq<int> {
    Seq::new(a.len(), |k: int| kept(a[k], modulus))
}

/// The absolute values of entry `k` of the vectors `lo` to `lo + n - 1`, summed.
pub open spec fn magnitude(s: spec_fn(int) -> Seq<int>, lo: int, n: nat, k: int) -> int {
    ring::sum(n, |i: int| ring::abs(s(lo + i)[k]))
}

/// The vectors of one length can be summed: modulo a modulus they are centered, and without one
/// the absolute values of no entry sum to more than 64 bits hold.
pub open spec fn summable(
    s: spec_fn(int) -> Seq<int>,
    n: nat,
    len: int,
    modulus: Option<u64>,
) -> bool {
    &&& forall|i: int| 0 <= i < n ==> (#[trigger] s(i)).len() == len
    &&& match modulus {
        Some(q) => 0 < q < MODULUS_BOUND && forall|i: int, k: int|
            0 <= i < n && 0 <= k < len ==> -(q / 2) <= #[trigger] s(i)[k] <= q / 2,
        None => forall|k: int| 0 <= k < len ==> #[trigger] magnitude(s, 0, n, k) <= i64::MAX,
    }
}

/// The parts of a magnitude are no more than the whole, and bound the sums over them.
proof fn lemma_magnitude(s: spec_fn(int) -> Seq<int>, n: nat, lo: int, m: nat, k: int)
    requires
        0 <= lo,
        lo + m <= n,
    ensures
        0 <= magnitude(s, 0, lo as nat, k),
        0 <= magnitude(s, lo, m, k),
        magnitude(s, 0, lo as nat, k) + magnitude(s, lo, m, k) <= magnitude(s, 0, n, k),
        -magnitude(s, lo, m, k) <= ring::sum(m, |i: int| s(lo + i)[k]) <= magnitude(s, lo, m, k),
{
    let f = |i: int| ring::abs(s(0 + i)[k]);
    let g = |i: int| ring::abs(s(lo + i)[k]);
    let rest = (n - lo - m) as nat;
    let g1 = |i: int| f(lo + i);
    let h = |i: int| f(lo + m + i);
    ring::lemma_sum_concat(lo as nat, m, f);
    ring::lemma_sum_ext(m, g1, g);
    ring::lemma_sum_concat((lo + m) as nat, rest, f);
    ring::lemma_sum_nonnegative(lo as nat, f);
    ring::lemma_sum_nonnegative(m, g);
    ring::lemma_sum_nonnegative(rest, h);
    ring::lemma_sum_bound_each(m, |i: int| s(lo + i)[k], g);
}

/// Adds two coefficients as they are kept.
fn join(x: i64, y: i64, modulus: Option<u64>) -> (r: i64)
    requires
        match modulus {
            Some(q) => 0 < q < MODULUS_BOUND && -(q / 2) <= x <= q / 2 && -(q / 2) <= y <= q / 2,
            None => i64::MIN <= x + y <= i64::MAX,
        },
    ensures
        r == kept(x + y, modulus),
{
    match modulus {
        Some(q) => {
            let t: u64 = rem_euclid(x + y, q);
            proof {
                arith::lemma_centered(x + y, q as int);
            }
            center(t, q)
        },
        None => x + y,
    }
}

/// Keeping the terms of a sum does not change how the sum is kept.
proof fn lemma_kept(x: int, y: int, a: int, b: int, modulus: Option<u64>)
    requires
        modulus matches Some(q) ==> q > 0 && arith::cong(a, x, q as int) && arith::cong(
            b,
            y,
            q as int,
        ),
        modulus is None ==> a == x && b == y,
    ensures
        kept(a + b, modulus) == kept(x + y, modulus),
{
    if let Some(q) = modulus {
        arith::lemma_cong_add(a, x, b, y, q as int);
        arith::lemma_centered_cong(a + b, x + y, q as int);
    }
}

/// The vector `v` stands for the summand `y` of the sum `x`: modulo a modulus it is centered, and
/// without one nothing overflows.
spec fn can_add(x: Seq<int>, y: Seq<int>, v: Seq<i64>, modulus: Option<u64>) -> bool {
    match modulus {
        Some(q) => 0 < q < MODULUS_BOUND && forall|k: int|
            0 <= k < y.len() ==> -(q / 2) <= #[trigger] v[k] <= q / 2 && arith::cong(
                v[k] as int,
                y[k],
                q as int,
            ),
        None => forall|k: int|
            0 <= k < y.len() ==> #[trigger] v[k] as int == y[k] && i64::MIN <= x[k] + y[k]
                <= i64::MAX,
    }
}

/// Adds a vector that stands for `y` to a sum `x` as it is kept.
fn add_kept(
    acc: &mut Vec<i64>,
    v: &Vec<i64>,
    modulus: Option<u64>,
    Ghost(x): Ghost<Seq<int>>,
    Ghost(y): Ghost<Seq<int>>,
)
    requires
        x.len() == y.len(),
        ring::signed(old(acc)@) == kept_poly(x, modulus),
        v@.len() == y.len(),
        can_add(x, y, v@, modulus),
    ensures
        ring::signed(final(acc)@) == kept_poly(ring::plus(x, y), modulus),
{
    let ghost a0 = acc@;
    let ghost kx = kept_poly(x, modulus);
    let len: usize = v.len();
    proof {
        assert(ring::signed(a0).len() == a0.len());
    }
    let mut k: usize = 0;
    while k < len
        invariant
            k <= len,
            len == x.len(),
            len == y.len(),
            acc@.len() == len,
            a0.len() == len,
            v@.len() == len,
            kx == kept_poly(x, modulus),
            ring::signed(a0) == kx,
            can_add(x, y, v@, modulus),
            forall|j: int| k <= j < len ==> #[trigger] acc@[j] == a0[j],
            forall|j: int| 0 <= j < k ==> #[trigger] acc@[j] as int == kept(x[j] + y[j], modulus),
        decreases len - k,
    {
        proof {
            let j = k as int;
            assert(acc@[j] == a0[j]);
            assert(ring::signed(a0)[j] == kx[j]);
            assert(a0[j] as int == kept(x[j], modulus));
            if let Some(q) = modulus {
                arith::lemma_centered(x[j], q as int);
            }
            lemma_kept(x[j], y[j], a0[j] as int, v@[j] as int, modulus);
        }
        let t: i64 = join(acc[k], v[k], modulus);
        acc.set(k, t);
        k += 1;
    }
    proof {
        let f = ring::signed(acc@);
        let g = kept_poly(ring::plus(x, y), modulus);
        assert forall|j: int| 0 <= j < len implies #[trigger] f[j] == g[j] by {
            assert(acc@[j] as int == kept(x[j] + y[j], modulus));
        }
        assert(f =~= g);
    }
}

/// A vector of zeros is the sum of no vectors.
proof fn lemma_kept_zero(r: Seq<i64>, s: spec_fn(int) -> Seq<int>, lo: int, modulus: Option<u64>)
    requires
        forall|k: int| 0 <= k < r.len() ==> #[trigger] r[k] == 0,
        modulus matches Some(q) ==> q > 0,
    ensures
        ring::signed(r) == kept_poly(ring::total(s, lo, 0, r.len()), modulus),
{
    if let Some(q) = modulus {
        arith::lemma_centered_small(0, q as int);
    }
    assert(ring::signed(r) =~= kept_poly(ring::total(s, lo, 0, r.len()), modulus));
}

/// The sum of the vectors `f(lo)` to `f(hi - 1)`, in sequence.
fn sum_range<F: Fn(usize) -> Vec<i64>>(
    f: &F,
    n: usize,
    lo: usize,
    hi: usize,
    len: usize,
    modulus: Option<u64>,
    s: Ghost<spec_fn(int) -> Seq<int>>,
) -> (r: Vec<i64>)
    requires
        lo <= hi <= n,
        yields(*f, n as int, s@),
        summable(s@, n as nat, len as int, modulus),
    ensures
        ring::signed(r@) == kept_poly(
            ring::total(s@, lo as int, (hi - lo) as nat, len as nat),
            modulus,
        ),
{
    let mut r: Vec<i64> = vec![0i64; len];
    let ghost g = s@;
    proof {
        lemma_kept_zero(r@, g, lo as int, modulus);
    }
    let mut i: usize = lo;
    while i < hi
        invariant
            lo <= i <= hi <= n,
            g == s@,
            yields(*f, n as int, g),
            summable(g, n as nat, len as int, modulus),
            ring::signed(r@) == kept_poly(
                ring::total(g, lo as int, (i - lo) as nat, len as nat),
                modulus,
            ),
        decreases hi - i,
    {
        let v = f(i);
        let ghost x = ring::total(g, lo as int, (i - lo) as nat, len as nat);
        let ghost y = g(i as int);
        proof {
            assert(ring::signed(v@) == y);
            assert(y.len() == len);
            assert(ring::signed(v@).len() == v@.len());
            ring::lemma_total(g, lo as int, (i - lo) as nat, len as nat);
            assert(lo + (i - lo) == i);
            assert forall|k: int| 0 <= k < len implies #[trigger] v@[k] as int == y[k] by {
                assert(ring::signed(v@)[k] == v@[k] as int);
            }
            if modulus is None {
                assert forall|k: int| 0 <= k < len implies i64::MIN <= #[trigger] x[k] + y[k]
                    <= i64::MAX by {
                    let m = (i - lo) as nat;
                    lemma_magnitude(g, n as nat, lo as int, m + 1, k);
                    let e = |j: int| g(lo + j)[k];
                    assert(ring::sum(m + 1, e) == ring::sum(m, e) + e(m as int));
                    assert(magnitude(g, 0, n as nat, k) <= i64::MAX);
                    assert(x[k] == ring::sum(m, e));
                    assert(e(m as int) == y[k]);
                }
                assert forall|k: int| 0 <= k < len implies #[trigger] v@[k] as int == y[k]
                    && i64::MIN <= x[k] + y[k] <= i64::MAX by {
                    assert(i64::MIN <= x[k] + y[k]);
                }
            } else {
                assert forall|k: int| 0 <= k < len implies -(modulus->0 / 2) <= #[trigger] v@[k]
                    <= modulus->0 / 2 by {
                    assert(v@[k] as int == g(i as int)[k]);
                }
            }
        }
        add_kept(&mut r, &v, modulus, Ghost(x), Ghost(y));
        i += 1;
    }
    r
}

/// What a function returns on the indices below `n`: the vectors that a specification gives.
pub open spec fn yields<F: Fn(usize) -> Vec<i64>>(
    f: F,
    n: int,
    s: spec_fn(int) -> Seq<int>,
) -> bool {
    &&& forall|i: usize| i < n ==> #[trigger] call_requires(f, (i,))
    &&& forall|i: usize, v: Vec<i64>|
        i < n && #[trigger] call_ensures(f, (i,), v) ==> ring::signed(v@) == s(i as int)
}

/// The sum of the vectors `f(0)` to `f(n - 1)`, chunk by chunk in parallel: centered modulo the
/// modulus if there is one, and as it is otherwise.
pub(crate) fn sum_vectors<F: Fn(usize) -> Vec<i64> + Sync + Send>(
    n: usize,
    len: usize,
    modulus: Option<u64>,
    f: F,
    s: Ghost<spec_fn(int) -> Seq<int>>,
) -> (r: Vec<i64>)
    requires
        yields(f, n as int, s@),
        summable(s@, n as nat, len as int, modulus),
    ensures
        ring::signed(r@) == kept_poly(ring::total(s@, 0, n as nat, len as nat), modulus),
{
    let size: usize = chunk_size(n, rayon::current_num_threads());
    let count: usize = chunk_count(n, size);
    let part_of = |c: usize| -> (r: Vec<i64>)
        requires
            c < count,
        ensures
            ring::signed(r@) == kept_poly(chunk_total(s@, n, size, c, len), modulus),
        {
            proof {
                parallel::lemma_chunk(c as int, count as int, size as int, n as int);
            }
            let lo: usize = c * size;
            let hi: usize = if n - lo < size {
                n
            } else {
                lo + size
            };
            sum_range(&f, n, lo, hi, len, modulus, s)
        };
    let parts: Vec<Vec<i64>> = map_indices(count, part_of);
    let mut r: Vec<i64> = vec![0i64; len];
    let ghost g = s@;
    proof {
        lemma_kept_zero(r@, g, 0, modulus);
    }
    let mut c: usize = 0;
    let mut done: usize = 0;
    while c < count
        invariant
            c <= count,
            g == s@,
            summable(g, n as nat, len as int, modulus),
            1 <= size,
            count * size >= n,
            count > 0 ==> (count - 1) * size < n,
            done == if c * size < n {
                c * size
            } else {
                n as int
            },
            parts@.len() == count,
            forall|i: int|
                0 <= i < count ==> ring::signed(#[trigger] parts@[i]@) == kept_poly(
                    chunk_total(g, n, size, i as usize, len),
                    modulus,
                ),
            ring::signed(r@) == kept_poly(ring::total(g, 0, done as nat, len as nat), modulus),
        decreases count - c,
    {
        proof {
            parallel::lemma_chunk(c as int, count as int, size as int, n as int);
        }
        let hi: usize = if n - done < size {
            n
        } else {
            done + size
        };
        let part: &Vec<i64> = &parts[c];
        let ghost x = ring::total(g, 0, done as nat, len as nat);
        let ghost y = ring::total(g, done as int, (hi - done) as nat, len as nat);
        proof {
            ring::lemma_total_concat(g, 0, done as nat, (hi - done) as nat, len as nat);
            let ky = kept_poly(y, modulus);
            assert(ring::signed(parts@[c as int]@) == ky);
            assert(ring::signed(part@).len() == part@.len());
            assert forall|k: int| 0 <= k < len implies #[trigger] part@[k] as int == kept(
                y[k],
                modulus,
            ) by {
                assert(ring::signed(part@)[k] == ky[k]);
            }
            if let Some(q) = modulus {
                assert forall|k: int| 0 <= k < y.len() implies -(q / 2) <= #[trigger] part@[k] <= q
                    / 2 && arith::cong(part@[k] as int, y[k], q as int) by {
                    assert(part@[k] as int == kept(y[k], modulus));
                    arith::lemma_centered(y[k], q as int);
                }
                assert(can_add(x, y, part@, modulus));
            } else {
                assert forall|k: int| 0 <= k < y.len() implies #[trigger] part@[k] as int == y[k]
                    && i64::MIN <= x[k] + y[k] <= i64::MAX by {
                    assert(part@[k] as int == kept(y[k], modulus));
                    lemma_magnitude(g, n as nat, 0, done as nat, k);
                    lemma_magnitude(g, n as nat, done as int, (hi - done) as nat, k);
                    assert(magnitude(g, 0, n as nat, k) <= i64::MAX);
                }
                assert(can_add(x, y, part@, modulus));
            }
        }
        add_kept(&mut r, part, modulus, Ghost(x), Ghost(y));
        done = hi;
        c += 1;
    }
    r
}

/// The sum of the vectors of the `c`-th chunk of `size` out of `n`.
spec fn chunk_total(
    s: spec_fn(int) -> Seq<int>,
    n: usize,
    size: usize,
    c: usize,
    len: usize,
) -> Seq<int> {
    let lo = c * size;
    let hi = if lo + size < n {
        lo + size
    } else {
        n as int
    };
    ring::total(s, lo, (hi - lo) as nat, len as nat)
}

} // verus!
