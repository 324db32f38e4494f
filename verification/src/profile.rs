//! Parameter sets.

use crate::arith;
use crate::aux_ntt;
use crate::aux_ntt::CrtConfig;
use crate::ntt;
use crate::poly::{RingParams, RingParams64};
use crate::residue::MODULUS_BOUND;
use vstd::arithmetic::div_mod::*;
use vstd::arithmetic::power::*;
use vstd::arithmetic::power2::*;
use vstd::prelude::*;

verus! {

/// The ring of the commitments.
pub enum HvcRing {
    U32(RingParams),
    U64(RingParams64),
}

impl HvcRing {
    /// The modulus.
    pub open spec fn modulus(&self) -> int {
        match self {
            HvcRing::U32(rp) => rp.modulus(),
            HvcRing::U64(rp) => rp.modulus(),
        }
    }

    /// The number of coefficients of a polynomial.
    pub open spec fn size(&self) -> nat {
        match self {
            HvcRing::U32(rp) => rp.size(),
            HvcRing::U64(rp) => rp.size(),
        }
    }

    /// The ring is a ring.
    pub open spec fn wf(&self) -> bool {
        match self {
            HvcRing::U32(rp) => rp.wf(),
            HvcRing::U64(rp) => rp.wf(),
        }
    }

    /// The ring, if its modulus is one of up to 62 bits.
    pub fn as_u64(&self) -> (r: Option<&RingParams64>)
        ensures
            r == (match *self {
                HvcRing::U32(_) => None,
                HvcRing::U64(rp) => Some(&rp),
            }),
    {
        match self {
            HvcRing::U32(_) => None,
            HvcRing::U64(rp) => Some(rp),
        }
    }
}

/// The modulus of the commitments of `d256_k4`.
pub const Q_HVC: u64 = 4_477_117_485_569;

/// A root of `X^256 + 1` modulo `Q_HVC`.
pub const PSI_HVC: u64 = 879_195_139_973;

/// The modulus of the one-time signatures of `d256_k4`.
pub const Q_KOTS: u64 = 3_469_400_021;

/// A parameter set.
pub struct Profile {
    /// The name of the set.
    pub name: String,
    /// The number of coefficients of a polynomial.
    pub d: usize,
    /// The rank of the one-time public keys.
    pub k: usize,
    /// The number of polynomials of a one-time signature.
    pub m: usize,
    /// The number of polynomials of a commitment.
    pub omega: usize,
    /// The number of digits of a polynomial of a commitment.
    pub kappa: usize,
    /// The bound of a digit, which is one of base `2 eta + 1`.
    pub eta: i64,
    /// The number of nonzero coefficients of an aggregation weight.
    pub alpha_w: usize,
    /// The bound of the coefficients of a one-time signature.
    pub beta_z: i64,
    /// The bound of the coefficients of an aggregated opening.
    pub beta_agg: i64,
    /// How many times an aggregation is tried.
    pub gamma: usize,
    /// The depth of the tree: there are `2^tau` slots.
    pub tau: usize,
    /// The number of signers that the set is made for.
    pub n_signers: usize,
    /// The ring of the commitments.
    pub hvc_ring: HvcRing,
    /// The ring of the one-time signatures, where its modulus has a transform below `2^32`.
    pub kots_ring: Option<RingParams>,
    /// The ring of the one-time signatures, where its modulus has a transform below `2^62`.
    pub kots_ring64: Option<RingParams64>,
    /// The ring of the one-time signatures, where its modulus has no transform.
    pub kots_crt: Option<CrtConfig>,
}

/// Whether `(2 eta + 1)^kappa` is at most `2^62`.
fn digits_fit(eta: i64, kappa: usize) -> (r: bool)
    requires
        1 <= eta < 0x4000_0000,
    ensures
        r <==> pow(2 * eta + 1, kappa as nat) <= 0x4000_0000_0000_0000,
{
    let base: u128 = (2 * eta + 1) as u128;
    let mut p: u128 = 1;
    proof {
        lemma_pow0(base as int);
    }
    let mut i: usize = 0;
    while i < kappa
        invariant
            i <= kappa,
            3 <= base < 0x1_0000_0000,
            base == 2 * eta + 1,
            p == pow(base as int, i as nat),
            p <= 0x4000_0000_0000_0000,
        decreases kappa - i,
    {
        proof {
            lemma_pow_adds(base as int, i as nat, 1);
            lemma_pow1(base as int);
            assert(p * base <= 0x4000_0000_0000_0000 * 0x1_0000_0000) by (nonlinear_arith)
                requires
                    0 <= p <= 0x4000_0000_0000_0000,
                    0 <= base <= 0x1_0000_0000,
            ;
        }
        p = p * base;
        i += 1;
        if p > 0x4000_0000_0000_0000 {
            proof {
                lemma_pow_increases(base as nat, i as nat, kappa as nat);
            }
            return false;
        }
    }
    true
}

/// Whether the product of two sizes is a size.
fn product_fits(a: usize, b: usize) -> (r: bool)
    ensures
        r <==> a * b <= usize::MAX,
{
    a.checked_mul(b).is_some()
}

impl Profile {
    /// The modulus of the commitments.
    pub open spec fn hvc_modulus(&self) -> int {
        self.hvc_ring.modulus()
    }

    /// The modulus of the one-time signatures: that of the first of the three rings that there is.
    pub open spec fn kots_modulus(&self) -> int {
        match (self.kots_crt, self.kots_ring64, self.kots_ring) {
            (Some(cfg), _, _) => cfg.q as int,
            (None, Some(rp), _) => rp.modulus(),
            (None, None, Some(rp)) => rp.modulus(),
            (None, None, None) => 0,
        }
    }

    /// The rings of the set are rings.
    pub open spec fn rings_wf(&self) -> bool {
        &&& self.hvc_ring.wf()
        &&& (self.kots_ring matches Some(rp) ==> rp.wf())
        &&& (self.kots_ring64 matches Some(rp) ==> rp.wf())
    }

    /// The parameters of the set fit each other.
    pub open spec fn consistent(&self) -> bool {
        &&& self.hvc_ring.size() == self.d
        &&& (self.kots_ring matches Some(rp) ==> rp.size() == self.d)
        &&& (self.kots_ring64 matches Some(rp) ==> rp.size() == self.d)
        &&& (self.kots_crt matches Some(cfg) ==> cfg.d == self.d && aux_ntt::headroom(
            cfg.q as int,
            cfg.d as int,
            1,
        ))
        &&& (self.kots_crt is Some || self.kots_ring64 is Some || self.kots_ring is Some)
        &&& self.alpha_w <= self.d
        &&& 0 <= self.beta_z
        &&& 1 <= self.eta < 0x4000_0000
        &&& pow(2 * self.eta + 1, self.kappa as nat) <= 0x4000_0000_0000_0000
        &&& self.m * self.d <= usize::MAX
        &&& self.omega * self.kappa * self.d <= usize::MAX
        &&& self.omega * self.d <= usize::MAX
    }

    /// The rings are rings and the parameters fit each other.
    pub open spec fn wf(&self) -> bool {
        self.rings_wf() && self.consistent()
    }

    /// The moduli are moduli.
    pub proof fn lemma_modulus(&self)
        requires
            self.wf(),
        ensures
            2 < self.hvc_modulus() < MODULUS_BOUND,
            1 <= self.kots_modulus() < MODULUS_BOUND,
            1 <= self.d <= ntt::MAX_SIZE,
    {
        match &self.hvc_ring {
            HvcRing::U32(rp) => rp.lemma_facts(),
            HvcRing::U64(rp) => rp.lemma_facts(),
        }
        if let Some(rp) = &self.kots_ring64 {
            rp.lemma_facts();
        }
        if let Some(rp) = &self.kots_ring {
            rp.lemma_facts();
        }
    }

    /// The modulus of the commitments.
    pub fn q_hvc(&self) -> (r: u64)
        ensures
            r == self.hvc_modulus(),
    {
        match &self.hvc_ring {
            HvcRing::U32(rp) => rp.q(),
            HvcRing::U64(rp) => rp.q(),
        }
    }

    /// The modulus of the one-time signatures.
    pub fn q_kots(&self) -> (r: u64)
        ensures
            r == self.kots_modulus(),
    {
        if let Some(cfg) = &self.kots_crt {
            cfg.q
        } else if let Some(rp) = &self.kots_ring64 {
            rp.q()
        } else if let Some(rp) = &self.kots_ring {
            rp.q()
        } else {
            0
        }
    }

    /// The configuration of the one-time signatures, where their modulus has no transform.
    pub fn kots_crt(&self) -> (r: Option<CrtConfig>)
        ensures
            r == self.kots_crt,
    {
        self.kots_crt
    }

    /// Whether the parameters of the set fit each other.
    pub fn validate(&self) -> (r: bool)
        requires
            self.rings_wf(),
        ensures
            r <==> self.consistent(),
    {
        let ring_d: usize = match &self.hvc_ring {
            HvcRing::U32(rp) => rp.d(),
            HvcRing::U64(rp) => rp.d(),
        };
        if ring_d != self.d {
            return false;
        }
        if let Some(rp) = &self.kots_ring {
            if rp.d() != self.d {
                return false;
            }
        }
        if let Some(rp) = &self.kots_ring64 {
            if rp.d() != self.d {
                return false;
            }
        }
        if let Some(cfg) = &self.kots_crt {
            if cfg.d != self.d || aux_ntt::CrtBackend::new_for_accum(cfg.q, cfg.d, 1).is_none() {
                return false;
            }
        } else if self.kots_ring64.is_none() && self.kots_ring.is_none() {
            return false;
        }
        if self.alpha_w > self.d || self.beta_z < 0 || self.eta < 1 || self.eta >= 0x4000_0000 {
            return false;
        }
        proof {
            match &self.hvc_ring {
                HvcRing::U32(rp) => rp.lemma_facts(),
                HvcRing::U64(rp) => rp.lemma_facts(),
            }
            let x = self.omega * self.kappa;
            let d = self.d as int;
            assert(x <= x * d) by (nonlinear_arith)
                requires
                    x >= 0,
                    d >= 1,
            ;
            assert(x >= 0) by (nonlinear_arith)
                requires
                    x == self.omega * self.kappa,
            ;
        }
        digits_fit(self.eta, self.kappa) && product_fits(self.m, self.d) && product_fits(
            self.omega,
            self.d,
        ) && product_fits(self.omega, self.kappa) && product_fits(self.omega * self.kappa, self.d)
    }
}

/// `PSI_HVC^256 = -1` modulo `Q_HVC`, by eight squarings.
proof fn lemma_psi_hvc()
    ensures
        ntt::splits(Q_HVC as int, 256, PSI_HVC as int),
{
    let q = Q_HVC as int;
    let r = PSI_HVC as int;
    lemma_pow1(r);
    lemma_small_mod(r as nat, q as nat);
    arith::lemma_square(r, 1, 879_195_139_973, 172_652_180_034, 314_677_511_383, q);
    arith::lemma_square(r, 2, 314_677_511_383, 22_117_341_456, 3_240_369_124_225, q);
    arith::lemma_square(r, 4, 3_240_369_124_225, 2_345_257_209_594, 634_978_501_639, q);
    arith::lemma_square(r, 8, 634_978_501_639, 90_057_430_666, 3_543_052_627_367, q);
    arith::lemma_square(r, 16, 3_543_052_627_367, 2_803_862_521_087, 2_015_076_659_186, q);
    arith::lemma_square(r, 32, 2_015_076_659_186, 906_952_733_647, 623_174_942_453, q);
    arith::lemma_square(r, 64, 623_174_942_453, 86_740_410_577, 1_578_929_193_896, q);
    arith::lemma_square(r, 128, 1_578_929_193_896, 556_835_376_192, 4_477_117_485_568, q);
    lemma2_to64();
    assert(256 == pow2(8));
}

/// Single products modulo `Q_KOTS` are within the headroom of the auxiliary primes.
proof fn lemma_q_kots()
    ensures
        aux_ntt::headroom(Q_KOTS as int, 256, 1),
{
    lemma2_to64();
    assert(256 == pow2(8));
}

/// `339^5` is below `2^62`.
proof fn lemma_digits()
    ensures
        pow(339, 5) <= 0x4000_0000_0000_0000,
{
    reveal_with_fuel(pow, 6);
}

/// The parameter set with `d = 256` and `k = 4`, for 1024 signers and `2^20` slots.
pub fn d256_k4() -> (r: Profile)
    ensures
        r.wf(),
        r.name@ == "D256_K4"@,
        (r.d, r.k, r.m, r.omega, r.kappa) == (256usize, 4usize, 9usize, 2usize, 5usize),
        (r.eta, r.alpha_w, r.beta_z, r.beta_agg) == (169i64, 23usize, 7023i64, 175_655i64),
        (r.gamma, r.tau, r.n_signers) == (10usize, 20usize, 1024usize),
        r.hvc_ring is U64,
        r.hvc_modulus() == Q_HVC,
        r.kots_crt == Some((CrtConfig { q: Q_KOTS, d: 256 })),
        r.kots_modulus() == Q_KOTS,
{
    proof {
        lemma_psi_hvc();
        lemma_q_kots();
        lemma_digits();
    }
    let rp = RingParams64::new(Q_HVC, 256, PSI_HVC).unwrap();
    Profile {
        name: "D256_K4".to_string(),
        d: 256,
        k: 4,
        m: 9,
        omega: 2,
        kappa: 5,
        eta: 169,
        alpha_w: 23,
        beta_z: 7023,
        beta_agg: 175_655,
        gamma: 10,
        tau: 20,
        n_signers: 1024,
        hvc_ring: HvcRing::U64(rp),
        kots_ring: None,
        kots_ring64: None,
        kots_crt: Some(CrtConfig { q: Q_KOTS, d: 256 }),
    }
}

} // verus!
