//! Products in the rings whose modulus has a transform.

use crate::arith;
use crate::ntt;
use crate::ntt::Ntt;
use crate::residue::center;
use crate::ring;
use crate::weighted;
use crate::weighted::{load, push_poly};
use vstd::prelude::*;

verus! {

/// The ring of polynomials of `d` coefficients modulo `q`, with `q` below `2^32`.
pub struct RingParams {
    ntt: Ntt,
}

/// The ring of polynomials of `d` coefficients modulo `q`, with `q` below `2^62`.
pub struct RingParams64 {
    ntt: Ntt,
}

impl RingParams {
    /// The modulus.
    pub closed spec fn modulus(&self) -> int {
        self.ntt.modulus()
    }

    /// The number of coefficients of a polynomial.
    pub closed spec fn size(&self) -> nat {
        self.ntt.size()
    }

    /// The ring has its transform.
    pub closed spec fn wf(&self) -> bool {
        self.ntt.wf() && self.ntt.modulus() < 0x1_0000_0000
    }

    /// The ring, if `psi^d = -1` modulo an odd `q`.
    pub fn new(q: u32, d: usize, psi: u32) -> (r: Option<RingParams>)
        ensures
            r is Some <==> ntt::splits(q as int, d as int, psi as int),
            r matches Some(rp) ==> rp.wf() && rp.modulus() == q && rp.size() == d,
    {
        match Ntt::new(q as u64, d, psi as u64) {
            Some(ntt) => Some(RingParams { ntt }),
            None => None,
        }
    }

    /// The ranges of the modulus and the size.
    pub proof fn lemma_facts(&self)
        requires
            self.wf(),
        ensures
            2 < self.modulus() < 0x1_0000_0000,
            1 <= self.size() <= ntt::MAX_SIZE,
    {
        self.ntt.lemma_facts();
    }

    /// The modulus.
    pub fn q(&self) -> (r: u64)
        ensures
            r == self.modulus(),
    {
        self.ntt.q()
    }

    /// The number of coefficients.
    pub fn d(&self) -> (r: usize)
        ensures
            r == self.size(),
    {
        self.ntt.d()
    }
}

impl RingParams64 {
    /// The modulus.
    pub closed spec fn modulus(&self) -> int {
        self.ntt.modulus()
    }

    /// The number of coefficients of a polynomial.
    pub closed spec fn size(&self) -> nat {
        self.ntt.size()
    }

    /// The ring has its transform.
    pub closed spec fn wf(&self) -> bool {
        self.ntt.wf()
    }

    /// The transform of the ring.
    pub closed spec fn transform(&self) -> Ntt {
        self.ntt
    }

    /// The ring, if `psi^d = -1` modulo an odd `q`.
    pub fn new(q: u64, d: usize, psi: u64) -> (r: Option<RingParams64>)
        ensures
            r is Some <==> ntt::splits(q as int, d as int, psi as int),
            r matches Some(rp) ==> rp.wf() && rp.modulus() == q && rp.size() == d,
    {
        match Ntt::new(q, d, psi) {
            Some(ntt) => Some(RingParams64 { ntt }),
            None => None,
        }
    }

    /// The ranges of the modulus and the size.
    pub proof fn lemma_facts(&self)
        requires
            self.wf(),
        ensures
            2 < self.modulus() < crate::residue::MODULUS_BOUND,
            1 <= self.size() <= ntt::MAX_SIZE,
            self.transform().wf(),
            self.transform().modulus() == self.modulus(),
            self.transform().size() == self.size(),
    {
        self.ntt.lemma_facts();
    }

    /// The modulus.
    pub fn q(&self) -> (r: u64)
        ensures
            r == self.modulus(),
    {
        self.ntt.q()
    }

    /// The number of coefficients.
    pub fn d(&self) -> (r: usize)
        ensures
            r == self.size(),
    {
        self.ntt.d()
    }

    /// The transform of the ring.
    pub(crate) fn ntt(&self) -> (r: &Ntt)
        ensures
            *r == self.transform(),
    {
        &self.ntt
    }
}

/// The residues of `a b`, where `a_hat` is the transform of `a`, and `b` is polynomial `i` of a
/// flat vector.
fn product_row(ntt: &Ntt, a_hat: &Vec<u64>, v: &[i64], i: usize, Ghost(a): Ghost<Seq<int>>) -> (r:
    Vec<u64>)
    requires
        ntt.wf(),
        ntt.represents(a_hat@, ring::centered_poly(a, ntt.modulus())),
        (i + 1) * ntt.size() <= v@.len(),
    ensures
        r@.len() == ntt.size(),
        forall|k: int|
            0 <= k < ntt.size() ==> #[trigger] r@[k] as int == ring::negacyclic(
                a,
                ring::row(v@, i as int, ntt.size()),
            )[k] % ntt.modulus(),
{
    let ghost q = ntt.modulus();
    let ghost b = ring::row(v@, i as int, ntt.size());
    let ghost ca = ring::centered_poly(a, q);
    let ghost cb = ring::centered_poly(b, q);
    let ghost p = ring::plus(ring::zero(ntt.size()), ring::negacyclic(ca, cb));
    proof {
        ntt.lemma_facts();
        ntt.lemma_represents_len(a_hat@, ca);
    }
    let b_hat = load(ntt, ntt.q(), v, i);
    let mut r = ntt.zero();
    ntt.accumulate(&mut r, a_hat, &b_hat, Ghost(ring::zero(ntt.size())), Ghost(ca), Ghost(cb));
    ntt.inverse(&mut r, Ghost(p));
    proof {
        ring::lemma_centered_poly(a, q);
        ring::lemma_centered_poly(b, q);
        ring::lemma_product_cong(ca, a, cb, b, -1, -1, q);
        assert forall|k: int| 0 <= k < ntt.size() implies #[trigger] r@[k] as int
            == ring::negacyclic(a, b)[k] % q by {
            assert(p[k] == ring::negacyclic(ca, cb)[k]);
            assert(arith::cong(ring::negacyclic(ca, cb)[k], ring::negacyclic(a, b)[k], q));
        }
    }
    r
}

/// The residues of `a b`.
fn product(ntt: &Ntt, a: &[i64], b: &[i64]) -> (r: Vec<i64>)
    requires
        ntt.wf(),
        a@.len() == ntt.size(),
        b@.len() == ntt.size(),
    ensures
        r@.len() == ntt.size(),
        forall|k: int|
            0 <= k < ntt.size() ==> #[trigger] r@[k] as int == ring::negacyclic(
                ring::signed(a@),
                ring::signed(b@),
            )[k] % ntt.modulus(),
{
    let ghost d = ntt.size();
    proof {
        ntt.lemma_facts();
        assert((0 + 1) * d == d) by (nonlinear_arith);
        assert(ring::row(a@, 0, d) =~= ring::signed(a@));
        assert(ring::row(b@, 0, d) =~= ring::signed(b@));
    }
    let a_hat = load(ntt, ntt.q(), a, 0);
    let p = product_row(ntt, &a_hat, b, 0, Ghost(ring::signed(a@)));
    let mut r: Vec<i64> = Vec::new();
    let mut k: usize = 0;
    while k < p.len()
        invariant
            ntt.wf(),
            k <= p@.len(),
            p@.len() == d,
            d == ntt.size(),
            forall|k: int|
                0 <= k < d ==> #[trigger] p@[k] as int == ring::negacyclic(
                    ring::signed(a@),
                    ring::signed(b@),
                )[k] % ntt.modulus(),
            r@.len() == k,
            forall|j: int| 0 <= j < k ==> #[trigger] r@[j] as int == p@[j] as int,
        decreases p@.len() - k,
    {
        proof {
            ntt.lemma_facts();
            arith::lemma_cong_residue(
                ring::negacyclic(ring::signed(a@), ring::signed(b@))[k as int],
                ntt.modulus(),
            );
            assert(p@[k as int] < ntt.modulus());
        }
        r.push(p[k] as i64);
        k += 1;
    }
    r
}

/// `w v` for each of the `n` polynomials of `v`, as centered representatives.
fn scale(ntt: &Ntt, w: &[i64], v: &[i64], n: usize) -> (r: Vec<i64>)
    requires
        ntt.wf(),
        w@.len() == ntt.size(),
        n * ntt.size() <= v@.len(),
    ensures
        ring::signed(r@) == weighted::scaled(w@, v@, n as nat, ntt.size(), ntt.modulus()),
{
    let ghost d = ntt.size();
    let ghost q = ntt.modulus();
    let ghost s = weighted::scaled(w@, v@, n as nat, d, q);
    let q_exec: u64 = ntt.q();
    proof {
        ntt.lemma_facts();
        assert((0 + 1) * d == d) by (nonlinear_arith);
        assert(ring::row(w@, 0, d) =~= ring::signed(w@));
    }
    let w_hat = load(ntt, q_exec, w, 0);
    let mut r: Vec<i64> = Vec::new();
    assert(0 * d == 0) by (nonlinear_arith);
    assert(ring::signed(r@) =~= s.take(0));
    let mut i: usize = 0;
    while i < n
        invariant
            i <= n,
            ntt.wf(),
            d == ntt.size(),
            q == ntt.modulus(),
            q_exec == q,
            n * d <= v@.len(),
            w@.len() == d,
            s == weighted::scaled(w@, v@, n as nat, d, q),
            ntt.represents(w_hat@, ring::centered_poly(ring::signed(w@), q)),
            ring::signed(r@) == s.take(i * d),
        decreases n - i,
    {
        proof {
            ntt.lemma_facts();
            assert((i + 1) * d <= n * d) by (nonlinear_arith)
                requires
                    i + 1 <= n,
                    0 <= d,
            ;
        }
        let p = product_row(ntt, &w_hat, v, i, Ghost(ring::signed(w@)));
        let ghost b = ring::row(v@, i as int, d);
        let ghost ab = ring::negacyclic(ring::signed(w@), b);
        let mut part: Vec<i64> = Vec::new();
        let mut k: usize = 0;
        while k < p.len()
            invariant
                ntt.wf(),
                k <= p@.len(),
                p@.len() == d,
                d == ntt.size(),
                q == ntt.modulus(),
                q_exec == q,
                forall|k: int| 0 <= k < d ==> #[trigger] p@[k] as int == ab[k] % q,
                part@.len() == k,
                forall|j: int|
                    0 <= j < k ==> #[trigger] part@[j] as int == arith::centered(ab[j], q),
            decreases p@.len() - k,
        {
            proof {
                ntt.lemma_facts();
                arith::lemma_centered(ab[k as int], q);
                arith::lemma_cong_residue(ab[k as int], q);
                assert(p@[k as int] < q);
            }
            part.push(center(p[k], q_exec));
            k += 1;
        }
        proof {
            assert forall|k: int| 0 <= k < d implies #[trigger] part@[k] as int == s[i * d + k] by {
                weighted::lemma_flat(i as int, k, d as int);
                assert(0 <= i * d + k < n * d) by (nonlinear_arith)
                    requires
                        (i + 1) * d <= n * d,
                        0 <= k < d,
                        0 <= i,
                ;
            }
        }
        push_poly(&mut r, part, Ghost(i as int), Ghost(d), Ghost(s));
        i += 1;
    }
    assert(s.take(n * d) =~= s);
    r
}

/// `a b`, as residues.
pub fn poly_mul(a: &[i64], b: &[i64], rp: &RingParams) -> (r: Vec<i64>)
    requires
        rp.wf(),
        a@.len() == rp.size(),
        b@.len() == rp.size(),
    ensures
        r@.len() == rp.size(),
        forall|k: int|
            0 <= k < rp.size() ==> #[trigger] r@[k] as int == ring::negacyclic(
                ring::signed(a@),
                ring::signed(b@),
            )[k] % rp.modulus(),
{
    product(&rp.ntt, a, b)
}

/// `a b`, as residues.
pub fn poly_mul_u64(a: &[i64], b: &[i64], rp: &RingParams64) -> (r: Vec<i64>)
    requires
        rp.wf(),
        a@.len() == rp.size(),
        b@.len() == rp.size(),
    ensures
        r@.len() == rp.size(),
        forall|k: int|
            0 <= k < rp.size() ==> #[trigger] r@[k] as int == ring::negacyclic(
                ring::signed(a@),
                ring::signed(b@),
            )[k] % rp.modulus(),
{
    product(&rp.ntt, a, b)
}

/// `w` times each of the `r c` polynomials of `m_mat`, as centered representatives.
pub fn scale_mat(w: &[i64], m_mat: &[i64], r: usize, c: usize, rp: &RingParams) -> (s: Vec<i64>)
    requires
        rp.wf(),
        w@.len() == rp.size(),
        r * c <= usize::MAX,
        (r * c) * rp.size() <= m_mat@.len(),
    ensures
        ring::signed(s@) == weighted::scaled(
            w@,
            m_mat@,
            (r * c) as nat,
            rp.size(),
            rp.modulus(),
        ),
{
    scale(&rp.ntt, w, m_mat, r * c)
}

/// `w` times each of the `r c` polynomials of `m_mat`, as centered representatives.
pub fn scale_mat_u64(w: &[i64], m_mat: &[i64], r: usize, c: usize, rp: &RingParams64) -> (s: Vec<
    i64,
>)
    requires
        rp.wf(),
        w@.len() == rp.size(),
        r * c <= usize::MAX,
        (r * c) * rp.size() <= m_mat@.len(),
    ensures
        ring::signed(s@) == weighted::scaled(
            w@,
            m_mat@,
            (r * c) as nat,
            rp.size(),
            rp.modulus(),
        ),
{
    scale(&rp.ntt, w, m_mat, r * c)
}

} // verus!
