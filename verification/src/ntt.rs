//! The number-theoretic transform of `Z_q[X]/(X^d + 1)`, in place on vectors of residues.

use crate::arith;
use crate::residue::{add_mod_q_u64, mul_mod, mul_prepared, prepare, sub_mod, MODULUS_BOUND};
use crate::ring;
use crate::transform;
use vstd::arithmetic::div_mod::*;
use vstd::arithmetic::power::*;
use vstd::arithmetic::power2::*;
use vstd::prelude::*;

verus! {

/// The largest number of coefficients that a transform handles.
pub const MAX_SIZE: usize = 0x10_0000;

/// The tables of one transform.
pub struct Ntt {
    q: u64,
    d: usize,
    levels: usize,
    zetas: Vec<u64>,
    zetas_prepared: Vec<u64>,
    inv_zetas: Vec<u64>,
    inv_zetas_prepared: Vec<u64>,
    d_inv: u64,
}

/// `n` entries of `a` from `off` on.
pub open spec fn segment(a: Seq<u64>, off: int, n: nat) -> Seq<int> {
    Seq::new(n, |i: int| a[off + i] as int)
}

/// `prep` holds what `mul_prepared` needs for each entry of `w`.
spec fn prepared(w: Seq<u64>, prep: Seq<u64>, q: int) -> bool {
    &&& prep.len() == w.len()
    &&& forall|i: int|
        0 <= i < w.len() ==> w[i] < q && #[trigger] prep[i] == (w[i] * 0x1_0000_0000_0000_0000) / q
}

impl Ntt {
    /// The modulus `q`.
    pub closed spec fn modulus(&self) -> int {
        self.q as int
    }

    /// The number of coefficients `d`.
    pub closed spec fn size(&self) -> nat {
        self.d as nat
    }

    /// The roots by which the transform splits, one for each inner node of the tree.
    closed spec fn roots(&self) -> Seq<int> {
        ring::unsigned(self.zetas@)
    }

    /// The tables are those of the modulus and the size.
    pub closed spec fn wf(&self) -> bool {
        &&& 2 < self.q < MODULUS_BOUND
        &&& self.d == pow2(self.levels as nat)
        &&& 1 <= self.d <= MAX_SIZE
        &&& self.zetas@.len() == self.d
        &&& self.inv_zetas@.len() == self.d
        &&& prepared(self.zetas@, self.zetas_prepared@, self.q as int)
        &&& prepared(self.inv_zetas@, self.inv_zetas_prepared@, self.q as int)
        &&& transform::roots_ok(self.roots(), self.q as int)
        &&& forall|i: int|
            1 <= i < self.d ==> arith::cong(
                #[trigger] self.inv_zetas@[i] * self.zetas@[i],
                1,
                self.q as int,
            )
        &&& arith::cong(self.d_inv * self.d, 1, self.q as int)
    }

    /// `hat` is the transform of the polynomial `a`.
    pub closed spec fn represents(&self, hat: Seq<u64>, a: Seq<int>) -> bool {
        &&& hat.len() == self.d
        &&& a.len() == self.d
        &&& forall|j: int|
            0 <= j < self.d ==> #[trigger] hat[j] as int == transform::transform(
                a,
                self.roots(),
                1,
                self.levels as nat,
            )[j] % (self.q as int)
    }

    /// The ranges of the modulus and the size.
    pub proof fn lemma_facts(&self)
        requires
            self.wf(),
        ensures
            2 < self.modulus() < MODULUS_BOUND,
            1 <= self.size() <= MAX_SIZE,
    {
    }

    /// A transform is one of every congruent polynomial.
    pub proof fn lemma_represents_cong(&self, hat: Seq<u64>, a: Seq<int>, b: Seq<int>)
        requires
            self.wf(),
            self.represents(hat, a),
            ring::poly_cong(a, b, self.modulus()),
        ensures
            self.represents(hat, b),
    {
        let z = self.roots();
        let lv = self.levels as nat;
        transform::lemma_transform_cong(a, b, z, 1, lv, self.q as int);
        transform::lemma_transform_len(a, z, 1, lv);
        assert forall|j: int| 0 <= j < self.d implies #[trigger] hat[j] as int
            == transform::transform(b, z, 1, lv)[j] % (self.q as int) by {
            assert(arith::cong(
                transform::transform(a, z, 1, lv)[j],
                transform::transform(b, z, 1, lv)[j],
                self.q as int,
            ));
        }
    }

    /// What a transform represents has the size of the transform.
    pub proof fn lemma_represents_len(&self, hat: Seq<u64>, a: Seq<int>)
        requires
            self.represents(hat, a),
        ensures
            hat.len() == self.size(),
            a.len() == self.size(),
    {
    }

    /// The root of the tree is at the highest level.
    proof fn lemma_root_level(&self)
        requires
            self.wf(),
        ensures
            transform::at_level(self.roots(), 1, self.levels as nat),
    {
        assert((1 + 1) * pow2(self.levels as nat) == 2 * self.d) by (nonlinear_arith)
            requires
                self.d == pow2(self.levels as nat),
        ;
    }

    /// The modulus.
    pub fn q(&self) -> (r: u64)
        ensures
            r == self.modulus(),
    {
        self.q
    }

    /// The number of coefficients.
    pub fn d(&self) -> (r: usize)
        ensures
            r == self.size(),
    {
        self.d
    }

    /// Splits every pair of halves of one segment, and the halves in turn.
    fn forward_from(&self, a: &mut Vec<u64>, off: usize, len: usize, node: usize, lv: usize)
        requires
            self.wf(),
            transform::at_level(self.roots(), node as int, lv as nat),
            len == pow2(lv as nat),
            off + len <= old(a)@.len(),
            forall|i: int| off <= i < off + len ==> #[trigger] old(a)@[i] < self.q,
        ensures
            final(a)@.len() == old(a)@.len(),
            forall|i: int|
                0 <= i < old(a)@.len() && !(off <= i < off + len) ==> #[trigger] final(a)@[i]
                    == old(a)@[i],
            forall|j: int|
                #![trigger final(a)@[off + j]]
                0 <= j < len ==> final(a)@[off + j] as int == transform::transform(
                    segment(old(a)@, off as int, len as nat),
                    self.roots(),
                    node as int,
                    lv as nat,
                )[j] % (self.q as int),
        decreases lv,
    {
        let ghost s0 = segment(a@, off as int, len as nat);
        let ghost z = self.roots();
        let ghost q = self.q as int;
        if lv == 0 {
            proof {
                lemma2_to64();
                assert forall|j: int| 0 <= j < len implies a@[off + j] as int == #[trigger] s0[j]
                    % q by {
                    lemma_small_mod(s0[j] as nat, q as nat);
                }
            }
            return ;
        }
        proof {
            transform::lemma_at_level_child(z, node as int, lv as nat);
        }
        let h = len / 2;
        assert(off + len <= a.len());
        let r = self.zetas[node];
        let rp = self.zetas_prepared[node];
        let ghost a0 = a@;
        assert(r == z[node as int]);
        let mut i: usize = 0;
        while i < h
            invariant
                i <= h,
                len == 2 * h,
                off + len <= usize::MAX,
                off + len <= a@.len(),
                a@.len() == a0.len(),
                self.wf(),
                q == self.q,
                r < self.q,
                rp == (r * 0x1_0000_0000_0000_0000) / (self.q as int),
                forall|k: int| off <= k < off + len ==> #[trigger] a0[k] < self.q,
                forall|k: int| off <= k < off + len ==> #[trigger] a@[k] < self.q,
                forall|k: int|
                    0 <= k < a0.len() && !(off <= k < off + i || off + h <= k < off + h + i)
                        ==> #[trigger] a@[k] == a0[k],
                forall|k: int|
                    #![trigger a@[off + k]]
                    0 <= k < i ==> a@[off + k] == (a0[off + k] + r * a0[off + k + h]) % q,
                forall|k: int|
                    #![trigger a@[off + h + k]]
                    0 <= k < i ==> a@[off + h + k] == (a0[off + k] + (-r) * a0[off + k + h]) % q,
            decreases h - i,
        {
            let u: u64 = a[off + i];
            let v: u64 = a[off + h + i];
            let t: u64 = mul_prepared(v, r, rp, self.q);
            proof {
                assert(u == a0[off + i]);
                assert(v == a0[off + i + h]);
                let x = r * v;
                arith::lemma_cong_residue(x, q);
                arith::lemma_cong_add(u as int, u as int, t as int, x, q);
                arith::lemma_cong_sub(u as int, u as int, t as int, x, q);
                assert((-r) * v == -(r * v)) by (nonlinear_arith);
            }
            let lo: u64 = add_mod_q_u64(u, t, self.q);
            let hi: u64 = sub_mod(u, t, self.q);
            a.set(off + i, lo);
            a.set(off + h + i, hi);
            i += 1;
        }
        let ghost a1 = a@;
        let ghost f_lo = ring::fold(s0, z[node as int]);
        let ghost f_hi = ring::fold(s0, -z[node as int]);
        let ghost s_lo = segment(a1, off as int, h as nat);
        let ghost s_hi = segment(a1, off + h, h as nat);
        proof {
            assert forall|k: int| 0 <= k < h implies #[trigger] s_lo[k] == f_lo[k] % q by {
                assert(a1[off + k] == (a0[off + k] + r * a0[off + k + h]) % q);
            }
            assert forall|k: int| 0 <= k < h implies #[trigger] s_hi[k] == f_hi[k] % q by {
                assert(a1[off + h + k] == (a0[off + k] + (-r) * a0[off + k + h]) % q);
            }
            lemma_transform_residues(s_lo, f_lo, z, 2 * node, (lv - 1) as nat, q);
            lemma_transform_residues(s_hi, f_hi, z, 2 * node + 1, (lv - 1) as nat, q);
            transform::lemma_transform_len(f_lo, z, 2 * node, (lv - 1) as nat);
            transform::lemma_transform_len(f_hi, z, 2 * node + 1, (lv - 1) as nat);
        }
        self.forward_from(a, off, h, 2 * node, lv - 1);
        let ghost a2 = a@;
        assert(segment(a2, off + h, h as nat) =~= s_hi);
        self.forward_from(a, off + h, h, 2 * node + 1, lv - 1);
        proof {
            let ts = transform::transform(s0, z, node as int, lv as nat);
            assert forall|j: int| #![trigger a@[off + j]] 0 <= j < len implies a@[off + j] as int
                == ts[j] % q by {
                if j < h {
                    assert(a@[off + j] == a2[off + j]);
                    assert(ts[j] == transform::transform(f_lo, z, 2 * node, (lv - 1) as nat)[j]);
                } else {
                    assert(a@[off + j] == a@[off + h + (j - h)]);
                    assert(ts[j] == transform::transform(f_hi, z, 2 * node + 1, (lv - 1) as nat)[j
                        - h]);
                }
            }
        }
    }

    /// Joins the halves of one segment, after the halves have been joined in turn.  What comes
    /// out is `len` times the polynomial that the segment was the transform of.
    fn inverse_from(
        &self,
        a: &mut Vec<u64>,
        off: usize,
        len: usize,
        node: usize,
        lv: usize,
        Ghost(p): Ghost<Seq<int>>,
    )
        requires
            self.wf(),
            transform::at_level(self.roots(), node as int, lv as nat),
            len == pow2(lv as nat),
            off + len <= old(a)@.len(),
            p.len() == len,
            forall|j: int|
                #![trigger old(a)@[off + j]]
                0 <= j < len ==> old(a)@[off + j] as int == transform::transform(
                    p,
                    self.roots(),
                    node as int,
                    lv as nat,
                )[j] % (self.q as int),
        ensures
            final(a)@.len() == old(a)@.len(),
            forall|i: int|
                0 <= i < old(a)@.len() && !(off <= i < off + len) ==> #[trigger] final(a)@[i]
                    == old(a)@[i],
            forall|j: int|
                #![trigger final(a)@[off + j]]
                0 <= j < len ==> final(a)@[off + j] as int == (len * p[j]) % (self.q as int),
        decreases lv,
    {
        let ghost z = self.roots();
        let ghost q = self.q as int;
        if lv == 0 {
            proof {
                lemma2_to64();
            }
            return ;
        }
        proof {
            transform::lemma_at_level_child(z, node as int, lv as nat);
        }
        let h = len / 2;
        assert(off + len <= a.len());
        let ghost r = z[node as int];
        let ri = self.inv_zetas[node];
        let rip = self.inv_zetas_prepared[node];
        assert(arith::cong(ri * r, 1, q));
        let ghost f_lo = ring::fold(p, r);
        let ghost f_hi = ring::fold(p, -r);
        let ghost a0 = a@;
        proof {
            let l = (lv - 1) as nat;
            let ts = transform::transform(p, z, node as int, lv as nat);
            transform::lemma_transform_len(f_lo, z, 2 * node, l);
            transform::lemma_transform_len(f_hi, z, 2 * node + 1, l);
            assert forall|j: int| #![trigger a0[off + j]] 0 <= j < h implies a0[off + j] as int
                == transform::transform(f_lo, z, 2 * node, l)[j] % q by {
                assert(ts[j] == transform::transform(f_lo, z, 2 * node, l)[j]);
            }
            assert forall|j: int| #![trigger a0[off + h + j]] 0 <= j < h implies a0[off + h
                + j] as int == transform::transform(f_hi, z, 2 * node + 1, l)[j] % q by {
                assert(a0[off + (h + j)] == ts[h + j] % q);
                assert(ts[h + j] == transform::transform(f_hi, z, 2 * node + 1, l)[j]);
            }
        }
        self.inverse_from(a, off, h, 2 * node, lv - 1, Ghost(f_lo));
        let ghost a1 = a@;
        proof {
            assert forall|j: int| #![trigger a1[off + h + j]] 0 <= j < h implies a1[off + h
                + j] as int == transform::transform(f_hi, z, 2 * node + 1, (lv - 1) as nat)[j]
                % q by {
                assert(a1[off + h + j] == a0[off + h + j]);
            }
        }
        self.inverse_from(a, off + h, h, 2 * node + 1, lv - 1, Ghost(f_hi));
        let ghost a2 = a@;
        proof {
            assert forall|j: int| #![trigger a2[off + j]] 0 <= j < h implies a2[off + j] as int == (h
                * f_lo[j]) % q by {
                assert(a2[off + j] == a1[off + j]);
            }
        }
        let mut i: usize = 0;
        while i < h
            invariant
                i <= h,
                len == 2 * h,
                off + len <= usize::MAX,
                off + len <= a@.len(),
                a@.len() == a0.len(),
                a2.len() == a0.len(),
                self.wf(),
                q == self.q,
                ri < self.q,
                rip == (ri * 0x1_0000_0000_0000_0000) / (self.q as int),
                arith::cong(ri * r, 1, q),
                p.len() == len,
                f_lo == ring::fold(p, r),
                f_hi == ring::fold(p, -r),
                forall|k: int|
                    0 <= k < a0.len() && !(off <= k < off + len) ==> #[trigger] a@[k] == a0[k],
                forall|k: int|
                    off + i <= k < off + h || off + h + i <= k < off + len ==> #[trigger] a@[k]
                        == a2[k],
                forall|k: int|
                    #![trigger a2[off + k]]
                    0 <= k < h ==> a2[off + k] as int == (h * f_lo[k]) % q,
                forall|k: int|
                    #![trigger a2[off + h + k]]
                    0 <= k < h ==> a2[off + h + k] as int == (h * f_hi[k]) % q,
                forall|k: int|
                    #![trigger a@[off + k]]
                    0 <= k < i || h <= k < h + i ==> a@[off + k] as int == (len * p[k]) % q,
            decreases h - i,
        {
            let u: u64 = a[off + i];
            let v: u64 = a[off + h + i];
            proof {
                assert(u == a2[off + i]);
                assert(v == a2[off + h + i]);
                arith::lemma_cong_residue(h * f_lo[i as int], q);
                arith::lemma_cong_residue(h * f_hi[i as int], q);
            }
            let lo: u64 = add_mod_q_u64(u, v, self.q);
            let w: u64 = sub_mod(u, v, self.q);
            let hi: u64 = mul_prepared(w, ri, rip, self.q);
            proof {
                lemma_joined(
                    u as int,
                    v as int,
                    h as int,
                    p[i as int],
                    p[i + h],
                    r,
                    ri as int,
                    q,
                );
                arith::lemma_cong_residue(u - v, q);
                arith::lemma_cong_mul(ri as int, ri as int, w as int, u - v, q);
            }
            a.set(off + i, lo);
            a.set(off + h + i, hi);
            assert(a@[off + h + i] == a@[off + (h + i)]);
            i += 1;
        }
    }

    /// Transforms a vector of residues in place.
    pub(crate) fn forward(&self, a: &mut Vec<u64>)
        requires
            self.wf(),
            old(a)@.len() == self.size(),
            forall|i: int| 0 <= i < old(a)@.len() ==> #[trigger] old(a)@[i] < self.modulus(),
        ensures
            self.represents(final(a)@, ring::unsigned(old(a)@)),
    {
        proof {
            self.lemma_root_level();
            assert(segment(a@, 0, self.d as nat) =~= ring::unsigned(a@));
        }
        self.forward_from(a, 0, self.d, 1, self.levels);
        proof {
            assert forall|j: int| 0 <= j < self.d implies #[trigger] a@[j] as int
                == transform::transform(
                ring::unsigned(old(a)@),
                self.roots(),
                1,
                self.levels as nat,
            )[j] % (self.q as int) by {
                assert(a@[0 + j] == a@[j]);
            }
        }
    }

    /// Turns the transform of a polynomial into its residues, in place.
    pub(crate) fn inverse(&self, a: &mut Vec<u64>, Ghost(p): Ghost<Seq<int>>)
        requires
            self.wf(),
            self.represents(old(a)@, p),
        ensures
            final(a)@.len() == p.len(),
            forall|i: int| 0 <= i < p.len() ==> #[trigger] final(a)@[i] as int == p[i] % self.modulus(),
    {
        proof {
            self.lemma_root_level();
            assert forall|j: int|
                #![trigger a@[0 + j]]
                0 <= j < self.d implies a@[0 + j] as int == transform::transform(
                p,
                self.roots(),
                1,
                self.levels as nat,
            )[j] % (self.q as int) by {
                assert(a@[0 + j] == a@[j]);
            }
        }
        self.inverse_from(a, 0, self.d, 1, self.levels, Ghost(p));
        let ghost a1 = a@;
        let ghost q = self.q as int;
        let mut i: usize = 0;
        while i < self.d
            invariant
                i <= self.d,
                self.wf(),
                q == self.q,
                p.len() == self.d,
                a@.len() == self.d,
                a1.len() == self.d,
                forall|k: int| i <= k < self.d ==> #[trigger] a@[k] == a1[k],
                forall|k: int|
                    #![trigger a1[0 + k]]
                    0 <= k < self.d ==> a1[0 + k] as int == (self.d * p[k]) % q,
                forall|k: int| 0 <= k < i ==> #[trigger] a@[k] as int == p[k] % q,
            decreases self.d - i,
        {
            let x: u64 = a[i];
            let y: u64 = mul_mod(self.d_inv, x, self.q);
            proof {
                let pi = p[i as int];
                assert(x == a1[0 + i]);
                arith::lemma_cong_residue(self.d * pi, q);
                arith::lemma_cong_mul(
                    self.d_inv as int,
                    self.d_inv as int,
                    x as int,
                    self.d * pi,
                    q,
                );
                arith::lemma_cong_mul(self.d_inv * self.d, 1, pi, pi, q);
                assert(self.d_inv * (self.d * pi) == (self.d_inv * self.d) * pi) by (nonlinear_arith);
            }
            a.set(i, y);
            i += 1;
        }
    }

    /// Adds a product to an accumulated transform: `acc += x y`, entry by entry.
    pub(crate) fn accumulate(
        &self,
        acc: &mut Vec<u64>,
        x: &Vec<u64>,
        y: &Vec<u64>,
        Ghost(s): Ghost<Seq<int>>,
        Ghost(a): Ghost<Seq<int>>,
        Ghost(b): Ghost<Seq<int>>,
    )
        requires
            self.wf(),
            self.represents(old(acc)@, s),
            self.represents(x@, a),
            self.represents(y@, b),
        ensures
            self.represents(final(acc)@, ring::plus(s, ring::negacyclic(a, b))),
    {
        let ghost z = self.roots();
        let ghost q = self.q as int;
        let ghost lv = self.levels as nat;
        let ghost acc0 = acc@;
        let ghost ab = ring::negacyclic(a, b);
        let ghost ts = transform::transform(s, z, 1, lv);
        let ghost ta = transform::transform(a, z, 1, lv);
        let ghost tb = transform::transform(b, z, 1, lv);
        let ghost tab = transform::transform(ab, z, 1, lv);
        proof {
            self.lemma_root_level();
            transform::lemma_transform_product(a, b, z, 1, lv, q);
            transform::lemma_transform_plus(s, ab, z, 1, lv);
            transform::lemma_transform_len(s, z, 1, lv);
            transform::lemma_transform_len(ab, z, 1, lv);
            transform::lemma_transform_len(a, z, 1, lv);
        }
        let mut i: usize = 0;
        while i < self.d
            invariant
                i <= self.d,
                self.wf(),
                q == self.q,
                x@.len() == self.d,
                y@.len() == self.d,
                acc@.len() == self.d,
                acc0.len() == self.d,
                ta.len() == self.d,
                forall|k: int| i <= k < self.d ==> #[trigger] acc@[k] == acc0[k],
                forall|k: int| 0 <= k < self.d ==> #[trigger] acc0[k] as int == ts[k] % q,
                forall|k: int| 0 <= k < self.d ==> #[trigger] x@[k] as int == ta[k] % q,
                forall|k: int| 0 <= k < self.d ==> #[trigger] y@[k] as int == tb[k] % q,
                ring::poly_cong(tab, transform::pointwise(ta, tb), q),
                forall|k: int| 0 <= k < i ==> #[trigger] acc@[k] as int == (ts[k] + tab[k]) % q,
            decreases self.d - i,
        {
            let xi: u64 = x[i];
            let yi: u64 = y[i];
            let m: u64 = mul_mod(xi, yi, self.q);
            proof {
                let k = i as int;
                arith::lemma_cong_residue(ts[k], q);
                arith::lemma_cong_residue(ta[k], q);
                arith::lemma_cong_residue(tb[k], q);
                arith::lemma_cong_residue(xi * yi, q);
                arith::lemma_cong_mul(xi as int, ta[k], yi as int, tb[k], q);
                assert(transform::pointwise(ta, tb)[k] == ta[k] * tb[k]);
                assert(arith::cong(tab[k], transform::pointwise(ta, tb)[k], q));
                assert(acc@[k] == acc0[k]);
                arith::lemma_cong_add(acc@[k] as int, ts[k], m as int, tab[k], q);
            }
            let t: u64 = add_mod_q_u64(acc[i], m, self.q);
            acc.set(i, t);
            i += 1;
        }
    }

    /// Adds two accumulated transforms: `acc += x`, entry by entry.
    pub(crate) fn merge(
        &self,
        acc: &mut Vec<u64>,
        x: &Vec<u64>,
        Ghost(s): Ghost<Seq<int>>,
        Ghost(a): Ghost<Seq<int>>,
    )
        requires
            self.wf(),
            self.represents(old(acc)@, s),
            self.represents(x@, a),
        ensures
            self.represents(final(acc)@, ring::plus(s, a)),
    {
        let ghost z = self.roots();
        let ghost q = self.q as int;
        let ghost lv = self.levels as nat;
        let ghost acc0 = acc@;
        let ghost ts = transform::transform(s, z, 1, lv);
        let ghost ta = transform::transform(a, z, 1, lv);
        proof {
            transform::lemma_transform_plus(s, a, z, 1, lv);
            transform::lemma_transform_len(s, z, 1, lv);
        }
        let mut i: usize = 0;
        while i < self.d
            invariant
                i <= self.d,
                self.wf(),
                q == self.q,
                x@.len() == self.d,
                acc@.len() == self.d,
                acc0.len() == self.d,
                forall|k: int| i <= k < self.d ==> #[trigger] acc@[k] == acc0[k],
                forall|k: int| 0 <= k < self.d ==> #[trigger] acc0[k] as int == ts[k] % q,
                forall|k: int| 0 <= k < self.d ==> #[trigger] x@[k] as int == ta[k] % q,
                forall|k: int| 0 <= k < i ==> #[trigger] acc@[k] as int == (ts[k] + ta[k]) % q,
            decreases self.d - i,
        {
            let xi: u64 = x[i];
            proof {
                let k = i as int;
                arith::lemma_cong_residue(ts[k], q);
                arith::lemma_cong_residue(ta[k], q);
                assert(acc@[k] == acc0[k]);
                arith::lemma_cong_add(acc@[k] as int, ts[k], xi as int, ta[k], q);
            }
            let t: u64 = add_mod_q_u64(acc[i], xi, self.q);
            acc.set(i, t);
            i += 1;
        }
    }

    /// The transform of zero.
    pub(crate) fn zero(&self) -> (r: Vec<u64>)
        requires
            self.wf(),
        ensures
            self.represents(r@, ring::zero(self.size())),
    {
        let r: Vec<u64> = vec![0u64; self.d];
        proof {
            transform::lemma_transform_zero(self.roots(), 1, self.levels as nat);
            lemma_small_mod(0, self.q as nat);
        }
        r
    }
}

/// One step of the inverse: the halves `u`, `v` of a pair are joined to `len` times the pair.
proof fn lemma_joined(u: int, v: int, h: int, p0: int, p1: int, r: int, ri: int, q: int)
    requires
        q > 0,
        arith::cong(u, h * (p0 + r * p1), q),
        arith::cong(v, h * (p0 + (-r) * p1), q),
        arith::cong(ri * r, 1, q),
    ensures
        arith::cong(u + v, (2 * h) * p0, q),
        arith::cong(ri * (u - v), (2 * h) * p1, q),
{
    let x = h * (p0 + r * p1);
    let y = h * (p0 + (-r) * p1);
    arith::lemma_cong_add(u, x, v, y, q);
    arith::lemma_cong_sub(u, x, v, y, q);
    assert((-r) * p1 == -(r * p1)) by (nonlinear_arith);
    let t = r * p1;
    assert(h * (p0 + t) + h * (p0 - t) == (2 * h) * p0) by (nonlinear_arith);
    assert(h * (p0 + t) - h * (p0 - t) == (2 * h) * t) by (nonlinear_arith);
    arith::lemma_cong_mul(ri, ri, u - v, x - y, q);
    assert(ri * ((2 * h) * (r * p1)) == (ri * r) * ((2 * h) * p1)) by (nonlinear_arith);
    arith::lemma_cong_mul(ri * r, 1, (2 * h) * p1, (2 * h) * p1, q);
}

/// Residues transform to the residues of the transform.
proof fn lemma_transform_residues(
    x: Seq<int>,
    y: Seq<int>,
    z: Seq<int>,
    node: int,
    lv: nat,
    q: int,
)
    requires
        q > 0,
        x.len() == pow2(lv),
        y.len() == pow2(lv),
        forall|i: int| 0 <= i < x.len() ==> #[trigger] x[i] == y[i] % q,
    ensures
        forall|j: int|
            0 <= j < pow2(lv) ==> #[trigger] transform::transform(x, z, node, lv)[j] % q
                == transform::transform(y, z, node, lv)[j] % q,
{
    assert forall|i: int| 0 <= i < x.len() implies arith::cong(#[trigger] x[i], y[i], q) by {
        arith::lemma_cong_residue(y[i], q);
    }
    transform::lemma_transform_cong(x, y, z, node, lv, q);
    transform::lemma_transform_len(x, z, node, lv);
}

/// `d` is a power of two.
pub open spec fn is_power_of_two(d: int) -> bool {
    exists|l: nat| d == #[trigger] pow2(l)
}

/// There is a transform of size `d` modulo `q` with the root `psi`: `psi^d = -1`.
pub open spec fn splits(q: int, d: int, psi: int) -> bool {
    &&& 2 < q < MODULUS_BOUND
    &&& q % 2 == 1
    &&& is_power_of_two(d)
    &&& d <= MAX_SIZE
    &&& pow(psi, d as nat) % q == q - 1
}

/// The base-two logarithm of a power of two, and nothing for any other number.
fn log2(d: usize) -> (r: Option<usize>)
    requires
        d <= MAX_SIZE,
    ensures
        r matches Some(l) ==> d == pow2(l as nat) && l <= 20,
        r is None ==> !is_power_of_two(d as int),
{
    let mut l: usize = 0;
    let mut s: usize = 1;
    proof {
        lemma2_to64();
    }
    while s < d
        invariant
            d <= MAX_SIZE,
            s == pow2(l as nat),
            l <= 20,
            s <= MAX_SIZE,
            l > 0 ==> pow2((l - 1) as nat) < d,
            l == 20 ==> s == MAX_SIZE,
        decreases 20 - l,
    {
        proof {
            lemma2_to64();
            lemma_pow2_unfold((l + 1) as nat);
            if l == 20 {
                assert(false);
            }
            assert(s <= MAX_SIZE / 2) by {
                if l < 19 {
                    lemma_pow2_strictly_increases(l as nat, 19);
                }
            }
        }
        s = s * 2;
        l = l + 1;
    }
    if s == d {
        Some(l)
    } else {
        proof {
            if is_power_of_two(d as int) {
                let m = choose|m: nat| d == #[trigger] pow2(m);
                if m >= l {
                    if m > l {
                        lemma_pow2_strictly_increases(l as nat, m);
                    }
                } else {
                    if m < l - 1 {
                        lemma_pow2_strictly_increases(m, (l - 1) as nat);
                    }
                    lemma_pow2_pos(m);
                }
            }
        }
        None
    }
}

/// The powers `psi^0, .., psi^n` modulo `q`.
fn powers(psi: u64, n: usize, q: u64) -> (r: Vec<u64>)
    requires
        q > 1,
        n < usize::MAX,
    ensures
        r@.len() == n + 1,
        forall|j: int|
            0 <= j <= n ==> #[trigger] r@[j] as int == pow(psi as int, j as nat) % (q as int),
{
    let mut r: Vec<u64> = Vec::new();
    proof {
        lemma_pow0(psi as int);
        lemma_small_mod(1, q as nat);
    }
    r.push(1);
    let mut i: usize = 0;
    while i < n
        invariant
            i <= n,
            q > 1,
            r@.len() == i + 1,
            forall|j: int|
                0 <= j <= i ==> #[trigger] r@[j] as int == pow(psi as int, j as nat) % (q as int),
        decreases n - i,
    {
        let x: u64 = mul_mod(psi, r[i], q);
        proof {
            let p = pow(psi as int, i as nat);
            reveal(pow);
            assert(pow(psi as int, (i + 1) as nat) == psi * p);
            arith::lemma_cong_residue(p, q as int);
            arith::lemma_cong_mul(psi as int, psi as int, r@[i as int] as int, p, q as int);
        }
        r.push(x);
        i += 1;
    }
    r
}

/// The inverse of `2^l` modulo an odd `q`.
fn inverse_of_power(l: usize, q: u64) -> (r: u64)
    requires
        2 < q < MODULUS_BOUND,
        q % 2 == 1,
    ensures
        r < q,
        arith::cong(r * pow2(l as nat), 1, q as int),
{
    let half: u64 = (q + 1) / 2;
    let mut r: u64 = 1;
    let mut i: usize = 0;
    proof {
        lemma2_to64();
    }
    while i < l
        invariant
            i <= l,
            2 < q < MODULUS_BOUND,
            2 * half == q + 1,
            r < q,
            arith::cong(r * pow2(i as nat), 1, q as int),
        decreases l - i,
    {
        let x: u64 = mul_mod(r, half, q);
        proof {
            let p = pow2(i as nat) as int;
            lemma_pow2_unfold((i + 1) as nat);
            arith::lemma_cong_residue(r * half, q as int);
            arith::lemma_cong_mul(x as int, r * half, 2 * p, 2 * p, q as int);
            assert((r * half) * (2 * p) == (r * p) * (2 * half)) by (nonlinear_arith);
            arith::lemma_cong_multiple(1, 1, q as int);
            arith::lemma_cong_mul(r * p, 1, 2 * half, 1, q as int);
        }
        r = x;
        i += 1;
    }
    r
}

/// What `mul_prepared` needs for each entry of `w`.
fn prepare_all(w: &Vec<u64>, q: u64) -> (r: Vec<u64>)
    requires
        forall|i: int| 0 <= i < w@.len() ==> #[trigger] w@[i] < q,
    ensures
        prepared(w@, r@, q as int),
{
    let mut r: Vec<u64> = Vec::new();
    let mut i: usize = 0;
    while i < w.len()
        invariant
            i <= w@.len(),
            r@.len() == i,
            forall|k: int| 0 <= k < w@.len() ==> #[trigger] w@[k] < q,
            forall|k: int|
                0 <= k < i ==> #[trigger] r@[k] == (w@[k] * 0x1_0000_0000_0000_0000) / (q as int),
        decreases w@.len() - i,
    {
        let x: u64 = prepare(w[i], q);
        r.push(x);
        i += 1;
    }
    r
}

/// `e` is an exponent that a node with `lv` levels below it may have: its root is `psi^e`, and
/// the roots below it have half of `e`, or half of `e + d`.
spec fn exponent_ok(e: int, d: int, lv: nat) -> bool {
    0 <= e < d && e % (pow2(lv) as int) == 0
}

/// A child's exponent is half of what its constant is the power of.
proof fn lemma_half(e: int, d: int, levels: nat, lv: nat)
    requires
        lv < levels,
        d == pow2(levels),
        exponent_ok(e, d, lv + 1),
    ensures
        exponent_ok(e / 2, d, lv),
        exponent_ok((e + d) / 2, d, lv),
        e % 2 == 0,
        d % 2 == 0,
{
    let p = pow2(lv) as int;
    lemma_pow2_pos(lv);
    lemma_pow2_unfold(lv + 1);
    lemma_pow2_adds(lv + 1, (levels - lv - 1) as nat);
    let m = pow2((levels - lv - 1) as nat) as int;
    let k = e / (2 * p);
    lemma_fundamental_div_mod(e, 2 * p);
    assert(e == 2 * (p * k)) by (nonlinear_arith)
        requires
            e == (2 * p) * k,
    ;
    assert(d == 2 * (p * m)) by (nonlinear_arith)
        requires
            d == (2 * p) * m,
    ;
    assert(e / 2 == p * k);
    assert((e + d) / 2 == p * (k + m)) by {
        assert(p * (k + m) == p * k + p * m) by (nonlinear_arith);
    }
    vstd::arithmetic::mul::lemma_mul_is_commutative(p, k);
    vstd::arithmetic::mul::lemma_mul_is_commutative(p, k + m);
    lemma_mod_multiples_basic(k, p);
    lemma_mod_multiples_basic(k + m, p);
}

/// `psi^(e + d) = -psi^e`.
proof fn lemma_negated_power(p: int, q: int, d: nat, e: nat)
    requires
        q > 2,
        pow(p, d) % q == q - 1,
    ensures
        arith::cong(pow(p, e + d), -pow(p, e), q),
{
    let x = pow(p, e);
    lemma_pow_adds(p, e, d);
    arith::lemma_cong_multiple(-1, 1, q);
    lemma_small_mod((q - 1) as nat, q as nat);
    arith::lemma_cong_mul(x, x, pow(p, d), -1, q);
    assert(x * (-1) == -x) by (nonlinear_arith);
}

/// `psi^e` is a square root of `psi^(2 e)` and has the inverse `psi^(2 d - e)`.
proof fn lemma_root_powers(p: int, q: int, d: nat, e: nat)
    requires
        q > 2,
        e <= 2 * d,
        pow(p, d) % q == q - 1,
    ensures
        arith::cong((pow(p, e) % q) * (pow(p, e) % q), pow(p, 2 * e), q),
        arith::cong((pow(p, (2 * d - e) as nat) % q) * (pow(p, e) % q), 1, q),
{
    let x = pow(p, e);
    let y = pow(p, (2 * d - e) as nat);
    arith::lemma_cong_residue(x, q);
    arith::lemma_cong_residue(y, q);
    arith::lemma_cong_mul(x % q, x, x % q, x, q);
    arith::lemma_cong_mul(y % q, y, x % q, x, q);
    lemma_pow_adds(p, e, e);
    lemma_pow_adds(p, (2 * d - e) as nat, e);
    lemma_negated_power(p, q, d, d);
    lemma_negated_power(p, q, d, 0);
    lemma_pow0(p);
    arith::lemma_cong_sub(0, 0, pow(p, d), -1, q);
}

impl Ntt {
    /// The transform of size `d` modulo `q` with the root `psi`, if there is one.
    pub fn new(q: u64, d: usize, psi: u64) -> (r: Option<Ntt>)
        ensures
            r is Some <==> splits(q as int, d as int, psi as int),
            r matches Some(t) ==> t.wf() && t.modulus() == q && t.size() == d,
    {
        if q <= 2 || q >= MODULUS_BOUND || q % 2 == 0 || d > MAX_SIZE {
            return None;
        }
        let levels = match log2(d) {
            Some(l) => l,
            None => {
                return None;
            },
        };
        let ghost p = psi as int;
        let ghost qi = q as int;
        proof {
            lemma_pow2_pos(levels as nat);
        }
        let pw: Vec<u64> = powers(psi, 2 * d, q);
        if pw[d] != q - 1 {
            proof {
                assert(pw@[d as int] as int == pow(p, d as nat) % qi);
            }
            return None;
        }
        assert(pw@[d as int] as int == pow(p, d as nat) % qi);
        let mut zetas: Vec<u64> = vec![0u64; d];
        let mut inv_zetas: Vec<u64> = vec![0u64; d];
        let mut exps: Vec<usize> = vec![0usize; d];
        let mut node: usize = 1;
        let mut lv: usize = levels;
        let mut end: usize = 2;
        proof {
            lemma2_to64();
        }
        // the nodes below `end` have at least `lv - 1` levels below them, those from
        // `end / 2` on exactly `lv - 1`
        while node < d
            invariant
                2 < q < MODULUS_BOUND,
                qi == q,
                p == psi,
                1 <= d <= MAX_SIZE,
                d == pow2(levels as nat),
                lv <= levels <= 20,
                1 <= node,
                node <= end,
                end % 2 == 0,
                end / 2 <= node,
                node < d ==> lv >= 1,
                end * pow2(lv as nat) == 2 * d,
                pw@.len() == 2 * d + 1,
                forall|j: int| 0 <= j <= 2 * d ==> #[trigger] pw@[j] as int == pow(p, j as nat) % qi,
                pw@[d as int] == q - 1,
                zetas@.len() == d,
                inv_zetas@.len() == d,
                exps@.len() == d,
                forall|k: int| 0 <= k < d ==> #[trigger] zetas@[k] < q,
                forall|k: int| 0 <= k < d ==> #[trigger] inv_zetas@[k] < q,
                forall|k: int|
                    1 <= k < node && k < d ==> #[trigger] zetas@[k] as int == pow(
                        p,
                        exps@[k] as nat,
                    ) % qi && exps@[k] < d,
                forall|k: int|
                    end / 2 <= k < node && k < d ==> exponent_ok(
                        #[trigger] exps@[k] as int,
                        d as int,
                        (lv - 1) as nat,
                    ),
                forall|k: int|
                    end / 4 <= k < end / 2 && k >= 1 && lv >= 1 ==> exponent_ok(
                        #[trigger] exps@[k] as int,
                        d as int,
                        lv as nat,
                    ),
                forall|k: int|
                    1 <= k < node && k < d ==> #[trigger] transform::root_ok(
                        ring::unsigned(zetas@),
                        k,
                        qi,
                    ),
                forall|k: int|
                    1 <= k < node && k < d ==> arith::cong(
                        #[trigger] inv_zetas@[k] * zetas@[k],
                        1,
                        qi,
                    ),
            decreases 2 * d - node, lv,
        {
            if node == end {
                proof {
                    lemma_pow2_unfold(lv as nat);
                    let h = pow2((lv - 1) as nat) as int;
                    assert((2 * end) * h == end * (2 * h)) by (nonlinear_arith);
                    lemma_pow2_pos((lv - 1) as nat);
                    if lv == 1 {
                        lemma2_to64();
                        assert(end * 2 == 2 * d);
                    }
                }
                end = end * 2;
                lv = lv - 1;
            } else {
                let e: usize = if node == 1 {
                    d / 2
                } else if node % 2 == 0 {
                    exps[node / 2] / 2
                } else {
                    (exps[node / 2] + d) / 2
                };
                let ghost k = (node / 2) as int;
                proof {
                    lemma_pow2_unfold(lv as nat);
                    if node == 1 {
                        assert(end == 2);
                        assert(pow2(lv as nat) == d);
                        lemma_mod_self_0((d / 2) as int);
                        lemma_pow2_pos((lv - 1) as nat);
                    } else {
                        assert(exponent_ok(exps@[k] as int, d as int, lv as nat));
                        assert(lv < levels) by {
                            if lv == levels {
                                assert(end * pow2(lv as nat) == 2 * pow2(lv as nat));
                                assert(end == 2) by (nonlinear_arith)
                                    requires
                                        end * pow2(lv as nat) == 2 * pow2(lv as nat),
                                        pow2(lv as nat) > 0,
                                ;
                            }
                        }
                        lemma_half(exps@[k] as int, d as int, levels as nat, (lv - 1) as nat);
                    }
                    assert(exponent_ok(e as int, d as int, (lv - 1) as nat));
                    lemma_root_powers(p, qi, d as nat, e as nat);
                }
                let ghost z0 = ring::unsigned(zetas@);
                let ghost i0 = inv_zetas@;
                zetas.set(node, pw[e]);
                inv_zetas.set(node, pw[2 * d - e]);
                exps.set(node, e);
                proof {
                    let z1 = ring::unsigned(zetas@);
                    assert forall|j: int|
                        1 <= j < node && j < d implies #[trigger] transform::root_ok(z1, j, qi) by {
                        assert(transform::root_ok(z0, j, qi));
                    }
                    assert forall|j: int| 1 <= j < node && j < d implies arith::cong(
                        #[trigger] inv_zetas@[j] * zetas@[j],
                        1,
                        qi,
                    ) by {
                        assert(arith::cong(i0[j] * z0[j], 1, qi));
                    }
                    assert(transform::root_ok(z1, node as int, qi)) by {
                        if node > 1 {
                            let ek = exps@[k] as nat;
                            assert(z1[k] == pow(p, ek) % qi);
                            arith::lemma_cong_residue(pow(p, ek), qi);
                            lemma_negated_power(p, qi, d as nat, ek);
                            arith::lemma_cong_sub(0, 0, z1[k], pow(p, ek), qi);
                        } else {
                            arith::lemma_cong_multiple(-1, 1, qi);
                            lemma_small_mod((qi - 1) as nat, qi as nat);
                        }
                    }
                }
                node += 1;
            }
        }
        let zetas_prepared = prepare_all(&zetas, q);
        let inv_zetas_prepared = prepare_all(&inv_zetas, q);
        let d_inv: u64 = inverse_of_power(levels, q);
        Some(
            Ntt {
                q,
                d,
                levels,
                zetas,
                zetas_prepared,
                inv_zetas,
                inv_zetas_prepared,
                d_inv,
            },
        )
    }
}

} // verus!
