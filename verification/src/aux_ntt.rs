//! Exact products modulo a modulus that has no transform of its own.
//!
//! Products of centered polynomials are accumulated modulo two auxiliary primes and joined by the
//! Chinese remainder theorem.  As long as the true integer sum stays below half the product of
//! the primes, it is found exactly, and reduced once.

use crate::arith;
use crate::ntt;
use crate::ntt::Ntt;
use crate::residue::{center, mul_mod, sub_mod, MODULUS_BOUND};
use crate::ring;
use vstd::arithmetic::div_mod::*;
use vstd::arithmetic::mul::*;
use vstd::arithmetic::power::*;
use vstd::arithmetic::power2::*;
use vstd::prelude::*;

verus! {

/// The first auxiliary prime.
pub const AUX_PRIME_1: u64 = 1_152_921_504_606_830_593;

/// The second auxiliary prime.
pub const AUX_PRIME_2: u64 = 1_152_921_504_606_748_673;

/// A root of `X^1024 + 1` modulo the first auxiliary prime.
pub const AUX_ROOT_1: u64 = 128_823_611_779_265_813;

/// A root of `X^1024 + 1` modulo the second auxiliary prime.
pub const AUX_ROOT_2: u64 = 715_033_771_596_066_358;

/// The inverse of the first auxiliary prime modulo the second.
pub const AUX_INVERSE: u64 = 230_570_227_172_514_203;

/// The largest number of coefficients of a polynomial.
pub const AUX_MAX_SIZE: usize = 1024;

/// The product of the auxiliary primes.
pub const AUX_PRODUCT: u128 = 1_329_227_995_784_783_648_948_129_721_038_553_089;

/// `AUX_ROOT_1^1024 = -1` modulo `AUX_PRIME_1`, by ten squarings.
proof fn lemma_root_1()
    ensures
        pow(AUX_ROOT_1 as int, 1024) % (AUX_PRIME_1 as int) == AUX_PRIME_1 - 1,
{
    let p = AUX_PRIME_1 as int;
    let r = AUX_ROOT_1 as int;
    lemma_pow1(r);
    lemma_small_mod(r as nat, p as nat);
    arith::lemma_square(r, 1, 128_823_611_779_265_813, 14_394_321_630_347_592, 984_081_769_261_068_913, p);
    arith::lemma_square(r, 2, 984_081_769_261_068_913, 839_967_790_280_956_997, 722_394_912_237_992_348, p);
    arith::lemma_square(r, 4, 722_394_912_237_992_348, 452_636_547_364_340_740, 257_058_671_398_294_284, p);
    arith::lemma_square(r, 8, 257_058_671_398_294_284, 57_314_535_531_706_091, 76_605_823_163_830_693, p);
    arith::lemma_square(r, 16, 76_605_823_163_830_693, 5_090_070_849_714_403, 977_324_856_915_729_270, p);
    arith::lemma_square(r, 32, 977_324_856_915_729_270, 828_472_599_503_711_027, 1_042_717_259_719_683_889, p);
    arith::lemma_square(r, 64, 1_042_717_259_719_683_889, 943_047_101_969_100_641, 1_023_100_528_431_454_208, p);
    arith::lemma_square(r, 128, 1_023_100_528_431_454_208, 907_897_621_038_544_518, 789_772_063_886_068_090, p);
    arith::lemma_square(r, 256, 789_772_063_886_068_090, 541_008_134_901_228_565, 653_157_713_588_759_055, p);
    arith::lemma_square(r, 512, 653_157_713_588_759_055, 370_029_526_828_870_881, 1_152_921_504_606_830_592, p);
}

/// `AUX_ROOT_2^1024 = -1` modulo `AUX_PRIME_2`, by ten squarings.
proof fn lemma_root_2()
    ensures
        pow(AUX_ROOT_2 as int, 1024) % (AUX_PRIME_2 as int) == AUX_PRIME_2 - 1,
{
    let p = AUX_PRIME_2 as int;
    let r = AUX_ROOT_2 as int;
    lemma_pow1(r);
    lemma_small_mod(r as nat, p as nat);
    arith::lemma_square(r, 1, 715_033_771_596_066_358, 443_458_893_324_473_456, 854_976_487_287_660_276, p);
    arith::lemma_square(r, 2, 854_976_487_287_660_276, 634_028_241_206_307_588, 890_585_858_139_565_452, p);
    arith::lemma_square(r, 4, 890_585_858_139_565_452, 687_942_039_027_817_699, 1_002_692_252_437_800_877, p);
    arith::lemma_square(r, 8, 1_002_692_252_437_800_877, 872_038_338_327_049_275, 164_907_828_290_107_054, p);
    arith::lemma_square(r, 16, 164_907_828_290_107_054, 23_587_548_434_735_170, 659_205_055_276_629_506, p);
    arith::lemma_square(r, 32, 659_205_055_276_629_506, 376_913_175_065_188_647, 761_244_555_527_888_605, p);
    arith::lemma_square(r, 64, 761_244_555_527_888_605, 502_630_292_700_206_600, 196_079_587_913_004_225, p);
    arith::lemma_square(r, 128, 196_079_587_913_004_225, 33_347_634_372_773_326, 1_715_157_987_554_227, p);
    arith::lemma_square(r, 256, 1_715_157_987_554_227, 2_551_576_070_458, 53_176_988_319_565_295, p);
    arith::lemma_square(r, 512, 53_176_988_319_565_295, 2_452_718_659_024_161, 1_152_921_504_606_748_672, p);
}

/// The transform of size `d` modulo a prime with a root of `X^1024 + 1`.
fn aux_lane(p: u64, root: u64, d: usize) -> (r: Option<Ntt>)
    requires
        2 < p < MODULUS_BOUND,
        p % 2 == 1,
        pow(root as int, 1024) % (p as int) == p - 1,
    ensures
        r is Some <==> ntt::is_power_of_two(d as int) && d <= AUX_MAX_SIZE,
        r matches Some(t) ==> t.wf() && t.modulus() == p && t.size() == d,
{
    if d == 0 || d > AUX_MAX_SIZE {
        proof {
            if ntt::is_power_of_two(0) {
                let l = choose|l: nat| 0 == #[trigger] pow2(l);
                lemma_pow2_pos(l);
            }
        }
        return None;
    }
    let mut psi: u64 = root;
    let mut s: usize = 1024;
    let ghost mut l: nat = 10;
    proof {
        lemma2_to64();
    }
    while s > d
        invariant
            2 < p < MODULUS_BOUND,
            1 <= d <= 1024,
            1 <= s <= 1024,
            s == pow2(l),
            pow(psi as int, s as nat) % (p as int) == p - 1,
            ntt::is_power_of_two(d as int) ==> s >= d,
        decreases s,
    {
        let next: u64 = mul_mod(psi, psi, p);
        proof {
            if l == 0 {
                lemma2_to64();
            }
            lemma_pow2_unfold(l);
            let h = (s / 2) as nat;
            let x = psi as int;
            lemma_pow_multiplies(x, 2, h);
            lemma_pow_adds(x, 1, 1);
            lemma_pow1(x);
            lemma_pow_mod_noop(x * x, h, p as int);
            if ntt::is_power_of_two(d as int) {
                let m = choose|m: nat| d == #[trigger] pow2(m);
                if m > (l - 1) as nat {
                    lemma_pow2_strictly_increases((l - 1) as nat, m);
                    if m > l {
                        lemma_pow2_strictly_increases(l, m);
                    }
                } else if m < l - 1 {
                    lemma_pow2_strictly_increases(m, (l - 1) as nat);
                }
            }
            l = (l - 1) as nat;
        }
        psi = next;
        s = s / 2;
    }
    let r = Ntt::new(p, d, psi);
    r
}

/// `terms` products of polynomials of `d` coefficients can be summed modulo `q`: the sum of the
/// products of the centered polynomials stays below half the product of the auxiliary primes.
pub open spec fn headroom(q: int, d: int, terms: int) -> bool {
    &&& 1 <= q < MODULUS_BOUND
    &&& q / 2 < AUX_PRIME_2
    &&& ntt::is_power_of_two(d)
    &&& d <= AUX_MAX_SIZE
    &&& terms * (d * ((q / 2) * (q / 2))) <= AUX_PRODUCT / 2
}

/// Whether `terms d (q / 2)^2` stays below half the product of the auxiliary primes.
fn fits(q: u64, d: usize, terms: usize) -> (r: bool)
    requires
        q < MODULUS_BOUND,
        d >= 1,
        terms >= 1,
    ensures
        r <==> terms * (d * ((q / 2) * (q / 2))) <= AUX_PRODUCT / 2,
{
    let h: u128 = (q / 2) as u128;
    let ghost hh = h * h;
    assert(0 <= h * h < 0x2000_0000_0000_0000 * 0x2000_0000_0000_0000) by (nonlinear_arith)
        requires
            0 <= h < 0x2000_0000_0000_0000,
    ;
    assert(d * hh == hh * d && terms * (hh * d) == (hh * d) * terms) by (nonlinear_arith);
    let a: u128 = h * h;
    match a.checked_mul(d as u128) {
        None => {
            assert((hh * d) * terms >= hh * d) by (nonlinear_arith)
                requires
                    hh * d >= 0,
                    terms >= 1,
            ;
            false
        },
        Some(b) => match b.checked_mul(terms as u128) {
            None => false,
            Some(c) => c <= AUX_PRODUCT / 2,
        },
    }
}

/// Products modulo `q` of polynomials of `d` coefficients, of which up to a certain number of
/// terms can be summed exactly.
pub struct CrtBackend {
    q: u64,
    d: usize,
    terms: usize,
    lane_1: Ntt,
    lane_2: Ntt,
}

impl CrtBackend {
    /// The modulus.
    pub closed spec fn modulus(&self) -> int {
        self.q as int
    }

    /// The number of coefficients of a polynomial.
    pub closed spec fn size(&self) -> nat {
        self.d as nat
    }

    /// How many products can be summed.
    pub closed spec fn terms(&self) -> nat {
        self.terms as nat
    }

    /// The transforms modulo the two auxiliary primes.
    pub closed spec fn lanes(&self) -> (Ntt, Ntt) {
        (self.lane_1, self.lane_2)
    }

    /// The transforms are those of the auxiliary primes, and there is headroom for the terms.
    pub open spec fn wf(&self) -> bool {
        &&& self.terms() >= 1
        &&& headroom(self.modulus(), self.size() as int, self.terms() as int)
        &&& self.lanes().0.wf()
        &&& self.lanes().1.wf()
        &&& self.lanes().0.modulus() == AUX_PRIME_1
        &&& self.lanes().1.modulus() == AUX_PRIME_2
        &&& self.lanes().0.size() == self.size()
        &&& self.lanes().1.size() == self.size()
    }

    /// The backend that sums up to `terms` products, at least one, if the auxiliary primes have
    /// the headroom.
    pub fn new_for_accum(q: u64, d: usize, terms: usize) -> (r: Option<CrtBackend>)
        ensures
            r is Some <==> headroom(
                q as int,
                d as int,
                if terms == 0 {
                    1
                } else {
                    terms as int
                },
            ),
            r matches Some(b) ==> b.wf() && b.modulus() == q && b.size() == d && b.terms()
                == if terms == 0 {
                1
            } else {
                terms as nat
            },
    {
        let terms: usize = if terms == 0 {
            1
        } else {
            terms
        };
        if q == 0 || q >= MODULUS_BOUND || q / 2 >= AUX_PRIME_2 || d == 0 {
            proof {
                if ntt::is_power_of_two(0) {
                    let l = choose|l: nat| 0 == #[trigger] pow2(l);
                    lemma_pow2_pos(l);
                }
            }
            return None;
        }
        if !fits(q, d, terms) {
            return None;
        }
        proof {
            lemma_root_1();
            lemma_root_2();
        }
        match (aux_lane(AUX_PRIME_1, AUX_ROOT_1, d), aux_lane(AUX_PRIME_2, AUX_ROOT_2, d)) {
            (Some(lane_1), Some(lane_2)) => Some(CrtBackend { q, d, terms, lane_1, lane_2 }),
            _ => None,
        }
    }

    /// The modulus.
    pub fn q(&self) -> (r: u64)
        ensures
            r == self.modulus(),
    {
        self.q
    }

    /// The number of coefficients of a polynomial.
    pub fn d(&self) -> (r: usize)
        ensures
            r == self.size(),
    {
        self.d
    }

    /// The transforms modulo the two auxiliary primes.
    pub(crate) fn lane(&self, first: bool) -> (r: &Ntt)
        ensures
            *r == if first {
                self.lanes().0
            } else {
                self.lanes().1
            },
    {
        if first {
            &self.lane_1
        } else {
            &self.lane_2
        }
    }

    /// The centered coefficients of a polynomial from its transforms modulo the auxiliary primes.
    pub(crate) fn finalize(&self, hat_1: Vec<u64>, hat_2: Vec<u64>, Ghost(p): Ghost<Seq<int>>) -> (r:
        Vec<i64>)
        requires
            self.wf(),
            self.lanes().0.represents(hat_1@, p),
            self.lanes().1.represents(hat_2@, p),
            forall|k: int|
                0 <= k < p.len() ==> -(AUX_PRODUCT / 2) <= #[trigger] p[k] <= AUX_PRODUCT / 2,
        ensures
            p.len() == self.size(),
            r@.len() == self.size(),
            forall|k: int|
                0 <= k < self.size() ==> #[trigger] r@[k] as int == arith::centered(
                    p[k],
                    self.modulus(),
                ),
    {
        proof {
            self.lane_1.lemma_represents_len(hat_1@, p);
        }
        let mut x_1: Vec<u64> = hat_1;
        let mut x_2: Vec<u64> = hat_2;
        self.lane_1.inverse(&mut x_1, Ghost(p));
        self.lane_2.inverse(&mut x_2, Ghost(p));
        let mut r: Vec<i64> = Vec::new();
        let mut k: usize = 0;
        while k < self.d
            invariant
                k <= self.d,
                self.wf(),
                p.len() == self.d,
                x_1@.len() == self.d,
                x_2@.len() == self.d,
                forall|k: int|
                    0 <= k < p.len() ==> -(AUX_PRODUCT / 2) <= #[trigger] p[k] <= AUX_PRODUCT / 2,
                forall|k: int|
                    0 <= k < p.len() ==> #[trigger] x_1@[k] as int == p[k] % (AUX_PRIME_1 as int),
                forall|k: int|
                    0 <= k < p.len() ==> #[trigger] x_2@[k] as int == p[k] % (AUX_PRIME_2 as int),
                r@.len() == k,
                forall|j: int|
                    0 <= j < k ==> #[trigger] r@[j] as int == arith::centered(
                        p[j],
                        self.modulus(),
                    ),
            decreases self.d - k,
        {
            let ghost v = p[k as int];
            let x: u64 = combine(x_1[k], x_2[k], self.q, Ghost(v));
            proof {
                arith::lemma_cong_residue(v, self.q as int);
                arith::lemma_centered_cong(x as int, v, self.q as int);
            }
            r.push(center(x, self.q));
            k += 1;
        }
        r
    }
}

/// The residue modulo `q` of the one number below half the product of the auxiliary primes with
/// the given residues modulo them.
fn combine(x_1: u64, x_2: u64, q: u64, Ghost(v): Ghost<int>) -> (r: u64)
    requires
        0 < q,
        -(AUX_PRODUCT / 2) <= v <= AUX_PRODUCT / 2,
        x_1 == v % (AUX_PRIME_1 as int),
        x_2 == v % (AUX_PRIME_2 as int),
    ensures
        r == v % (q as int),
        r < q,
{
    let ghost p_1 = AUX_PRIME_1 as int;
    let ghost p_2 = AUX_PRIME_2 as int;
    let ghost pp = AUX_PRODUCT as int;
    proof {
        arith::lemma_cong_residue(v, p_1);
        arith::lemma_cong_residue(v, p_2);
        lemma_mod_bound(x_1 as int, p_2);
    }
    let y: u64 = x_1 % AUX_PRIME_2;
    let diff: u64 = sub_mod(x_2, y, AUX_PRIME_2);
    let t: u64 = mul_mod(diff, AUX_INVERSE, AUX_PRIME_2);
    proof {
        lemma_mod_bound(diff * AUX_INVERSE, p_2);
        assert(0 <= p_1 * t <= p_1 * (p_2 - 1)) by (nonlinear_arith)
            requires
                0 <= t < p_2,
                p_1 > 0,
        ;
    }
    let x: u128 = (x_1 as u128) + (AUX_PRIME_1 as u128) * (t as u128);
    proof {
        assert(AUX_PRIME_1 * AUX_PRIME_2 == AUX_PRODUCT);
        // x = x_1 = v modulo the first prime
        arith::lemma_cong_multiple(x_1 as int, t as int, p_1);
        lemma_mul_is_commutative(t as int, p_1);
        // x = x_1 + p_1 p_1^-1 (x_2 - x_1) = x_2 = v modulo the second prime
        let a = diff as int;
        let i = AUX_INVERSE as int;
        arith::lemma_cong_residue(a * i, p_2);
        arith::lemma_cong_mul(p_1, p_1, t as int, a * i, p_2);
        assert(p_1 * (a * i) == (p_1 * i) * a) by (nonlinear_arith);
        assert(p_1 * i == 230_570_227_172_530_586 * p_2 + 1);
        arith::lemma_cong_multiple(1, 230_570_227_172_530_586, p_2);
        arith::lemma_cong_mul(p_1 * i, 1, a, a, p_2);
        arith::lemma_cong_residue(x_1 as int, p_2);
        arith::lemma_cong_residue(x_2 - y, p_2);
        arith::lemma_cong_add(x_1 as int, y as int, p_1 * t, x_2 - y, p_2);
        arith::lemma_crt(x as int, v, p_1, p_2, i);
        // the two agree modulo the product and lie in ranges of its length
        arith::lemma_cong_multiple(x as int, 1, pp);
        if x > AUX_PRODUCT / 2 {
            arith::lemma_cong_unique(x - pp, v, -(pp / 2), pp);
        } else {
            arith::lemma_cong_unique(x as int, v, -(pp / 2), pp);
        }
    }
    if x > AUX_PRODUCT / 2 {
        let m: u128 = AUX_PRODUCT - x;
        let s: u64 = (m % (q as u128)) as u64;
        proof {
            lemma_small_mod(0, q as nat);
            arith::lemma_cong_residue(m as int, q as int);
            arith::lemma_cong_sub(0, 0, s as int, m as int, q as int);
            arith::lemma_cong_multiple(-s, 1, q as int);
            if s > 0 {
                lemma_small_mod((q - s) as nat, q as nat);
            }
        }
        if s == 0 {
            0
        } else {
            q - s
        }
    } else {
        (x % (q as u128)) as u64
    }
}

/// A modulus and a size for which products go through the auxiliary primes.
#[derive(Clone, Copy)]
pub struct CrtConfig {
    pub q: u64,
    pub d: usize,
}

impl CrtConfig {
    /// The backend for single products.
    pub fn backend(&self) -> (r: CrtBackend)
        requires
            headroom(self.q as int, self.d as int, 1),
        ensures
            r.wf(),
            r.modulus() == self.q,
            r.size() == self.d,
            r.terms() == 1,
    {
        self.backend_for_accum(1)
    }

    /// The backend for sums of up to `terms` products.
    pub fn backend_for_accum(&self, terms: usize) -> (r: CrtBackend)
        requires
            terms >= 1,
            headroom(self.q as int, self.d as int, terms as int),
        ensures
            r.wf(),
            r.modulus() == self.q,
            r.size() == self.d,
            r.terms() == terms,
    {
        CrtBackend::new_for_accum(self.q, self.d, terms).unwrap()
    }
}

} // verus!
