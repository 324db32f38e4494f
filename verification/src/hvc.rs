//! The vector commitments over the slots: the tree of the one-time public keys.

use crate::arith;
use crate::error::LemurError;
use crate::profile::Profile;
use crate::residue::MODULUS_BOUND;
use crate::ring;
use crate::weighted;
use vstd::arithmetic::div_mod::*;
use vstd::arithmetic::power::*;
use vstd::prelude::*;

verus! {

/// A commitment: the coefficients of `omega` polynomials.
pub struct HvcCom(pub Vec<i64>);

impl Clone for HvcCom {
    fn clone(&self) -> (r: Self)
        ensures
            r.0@ == self.0@,
    {
        let r = HvcCom(self.0.clone());
        assert(r.0@ =~= self.0@);
        r
    }
}

/// The leaves of a tree, one for each slot.
pub trait Leaves: Sized {
    /// The leaf of slot `t`.
    fn leaf(&self, t: usize) -> Vec<i64>;
}

/// A scheme of homomorphic vector commitments.
pub trait Hvc: Sized {
    /// The commitment key.
    type Key: Sync;

    /// An opening of a commitment at a slot, or an aggregate of some.
    type Opening: Sync;

    /// What a signer keeps to open a commitment slot after slot.
    type Cache: Clone;

    /// The commitment key for a tree of depth `tau`, from a seed.
    fn hvc_setup_with_profile_and_tau(seed: &[u8; 32], profile: &Profile, tau: usize) -> Self::Key;

    /// The commitment to the leaves, and the cache at slot 0.
    fn bds_init<L: Leaves>(key: &Self::Key, tau: usize, leaves: &L) -> (HvcCom, Self::Cache);

    /// The opening at slot `t`, from the leaves alone; the leaf of the slot is known.
    fn hvc_open_with_known_leaf<L: Leaves>(
        key: &Self::Key,
        tau: usize,
        t: usize,
        known: &Vec<i64>,
        leaves: &L,
    ) -> Self::Opening;

    /// The opening at slot `t`, from the cache at that slot.
    fn bds_opening<L: Leaves>(
        cache: &Self::Cache,
        key: &Self::Key,
        tau: usize,
        t: usize,
        leaves: &L,
    ) -> Result<Self::Opening, LemurError>;

    /// Moves the cache from slot `t` to the next one.
    fn bds_advance<L: Leaves>(
        cache: &mut Self::Cache,
        key: &Self::Key,
        tau: usize,
        t: usize,
        leaves: &L,
    );

    /// The leaf that a commitment opens to at slot `t`.
    fn hvc_ivrfy(
        key: &Self::Key,
        tau: usize,
        c: &HvcCom,
        t: usize,
        opening: &Self::Opening,
    ) -> Result<Vec<i64>, LemurError>;

    /// The leaf that an aggregated commitment opens to at slot `t`.
    fn hvc_svrfy(
        key: &Self::Key,
        tau: usize,
        c: &HvcCom,
        t: usize,
        opening: &Self::Opening,
    ) -> Result<Vec<i64>, LemurError>;

    /// The weighted sum of openings.
    fn aggregate_openings_any(
        ws: &Vec<Vec<i64>>,
        openings: &Vec<&Self::Opening>,
        profile: &Profile,
    ) -> Self::Opening;
}

/// The public parameters of the commitments: the depth of the tree and the key.
pub struct HvcPp<H: Hvc> {
    pub tau: usize,
    pub key: H::Key,
}

/// The state of the traversal of a tree of depth `h` at slot `phi`.
pub struct BdsState<H: Hvc> {
    pub h: usize,
    pub phi: usize,
    pub cache: H::Cache,
}

/// The value of digit polynomials: coefficient `i` of polynomial `r` is the number whose
/// digits of base `2 eta + 1`, from the lowest, are the coefficients `i` of the polynomials
/// `r kappa` to `r kappa + kappa - 1` of the label.
pub open spec fn projection(label: Seq<i64>, kappa: nat, d: nat, eta: int, r: int, i: int) -> int {
    ring::sum(kappa, |k: int| label[(r * kappa + k) * d + i] * pow(2 * eta + 1, k as nat))
}

/// The values of all digit polynomials of a label.
pub open spec fn projections(label: Seq<i64>, profile: &Profile) -> Seq<int> {
    Seq::new(
        (profile.omega * profile.d) as nat,
        |j: int|
            projection(
                label,
                profile.kappa as nat,
                profile.d as nat,
                profile.eta as int,
                j / (profile.d as int),
                j % (profile.d as int),
            ),
    )
}

/// One value of the digits of a label, as an integer.
fn project(label: &[i64], profile: &Profile, r: usize, i: usize) -> (v: i128)
    requires
        profile.wf(),
        r < profile.omega,
        i < profile.d,
        label@.len() >= profile.omega * profile.kappa * profile.d,
    ensures
        v == projection(
            label@,
            profile.kappa as nat,
            profile.d as nat,
            profile.eta as int,
            r as int,
            i as int,
        ),
{
    let kappa: usize = profile.kappa;
    let d: usize = profile.d;
    let base: i128 = (2 * profile.eta + 1) as i128;
    let ghost b = base as int;
    let ghost f = |k: int| label@[(r * kappa + k) * d + i] * pow(b, k as nat);
    proof {
        lemma_pow0(b);
        assert(0 <= r * kappa) by (nonlinear_arith);
        assert(r * kappa + kappa <= profile.omega * kappa) by (nonlinear_arith)
            requires
                r + 1 <= profile.omega,
                0 <= kappa,
        ;
        assert(label.len() == label@.len());
    }
    let mut v: i128 = 0;
    let mut p: i128 = 1;
    let mut k: usize = 0;
    while k < kappa
        invariant
            k <= kappa,
            i < d,
            3 <= b <= 0x8000_0000,
            base == b,
            f == (|k: int| label@[(r * kappa + k) * d + i] * pow(b, k as nat)),
            pow(b, kappa as nat) <= 0x4000_0000_0000_0000,
            p == pow(b, k as nat),
            1 <= p,
            v == ring::sum(k as nat, f),
            -(0x8000_0000_0000_0000 * (p - 1)) <= v <= 0x8000_0000_0000_0000 * (p - 1),
            0 <= r * kappa,
            r * kappa + kappa <= profile.omega * kappa,
            label@.len() >= (profile.omega * kappa) * d,
            label@.len() <= usize::MAX,
        decreases kappa - k,
    {
        proof {
            let row = r * kappa + k;
            assert(0 <= row * d + i < (profile.omega * kappa) * d && 0 <= row * d) by (nonlinear_arith)
                requires
                    0 <= row,
                    row + 1 <= profile.omega * kappa,
                    0 <= i < d,
            ;
            assert(row <= row * d) by (nonlinear_arith)
                requires
                    0 <= row,
                    1 <= d,
            ;
            lemma_pow_increases(b as nat, k as nat, kappa as nat);
            lemma_pow_increases(b as nat, (k + 1) as nat, kappa as nat);
            lemma_pow_adds(b, k as nat, 1);
            lemma_pow1(b);
            let x = label@[row * d + i] as int;
            assert(-(0x8000_0000_0000_0000 * p) <= x * p <= 0x8000_0000_0000_0000 * p) by (nonlinear_arith)
                requires
                    -0x8000_0000_0000_0000 <= x <= 0x8000_0000_0000_0000,
                    1 <= p,
            ;
            assert(p * b >= 2 * p) by (nonlinear_arith)
                requires
                    1 <= p,
                    3 <= b,
            ;
        }
        let x: i128 = label[(r * kappa + k) * d + i] as i128;
        v = v + x * p;
        p = p * base;
        k += 1;
    }
    v
}

/// The values of the digit polynomials of a label, as integers.
pub fn proj_label_zz_with_profile(label: &[i64], profile: &Profile) -> (r: Vec<i128>)
    requires
        profile.wf(),
        label@.len() >= profile.omega * profile.kappa * profile.d,
    ensures
        r@.len() == profile.omega * profile.d,
        forall|j: int|
            0 <= j < r@.len() ==> #[trigger] r@[j] as int == projections(label@, profile)[j],
{
    let d: usize = profile.d;
    let len: usize = profile.omega * d;
    let mut r: Vec<i128> = Vec::new();
    let mut j: usize = 0;
    while j < len
        invariant
            profile.wf(),
            d == profile.d,
            len == profile.omega * d,
            label@.len() >= profile.omega * profile.kappa * profile.d,
            j <= len,
            r@.len() == j,
            forall|i: int| 0 <= i < j ==> #[trigger] r@[i] as int == projections(label@, profile)[i],
        decreases len - j,
    {
        proof {
            weighted::lemma_position(j as int, profile.omega as nat, d as nat);
        }
        r.push(project(label, profile, j / d, j % d));
        j += 1;
    }
    r
}

/// The values of the digit polynomials of a label, as residues modulo the modulus of the
/// commitments.
pub fn proj_label_with_profile(label: &[i64], profile: &Profile) -> (r: Vec<i64>)
    requires
        profile.wf(),
        label@.len() >= profile.omega * profile.kappa * profile.d,
    ensures
        r@.len() == profile.omega * profile.d,
        forall|j: int|
            0 <= j < r@.len() ==> #[trigger] r@[j] as int == projections(label@, profile)[j]
                % profile.hvc_modulus(),
{
    let q: u64 = profile.q_hvc();
    proof {
        profile.lemma_modulus();
    }
    let zz = proj_label_zz_with_profile(label, profile);
    let mut r: Vec<i64> = Vec::new();
    let mut j: usize = 0;
    while j < zz.len()
        invariant
            0 < q < MODULUS_BOUND,
            q == profile.hvc_modulus(),
            zz@.len() == profile.omega * profile.d,
            forall|i: int|
                0 <= i < zz@.len() ==> #[trigger] zz@[i] as int == projections(label@, profile)[i],
            j <= zz@.len(),
            r@.len() == j,
            forall|i: int|
                0 <= i < j ==> #[trigger] r@[i] as int == projections(label@, profile)[i]
                    % profile.hvc_modulus(),
        decreases zz@.len() - j,
    {
        r.push(reduce(zz[j], q));
        j += 1;
    }
    r
}

/// `x mod q`.
fn reduce(x: i128, q: u64) -> (r: i64)
    requires
        0 < q < MODULUS_BOUND,
    ensures
        r == (x as int) % (q as int),
{
    proof {
        lemma_mod_bound(x as int, q as int);
    }
    if x >= 0 {
        (x as u128 % (q as u128)) as i64
    } else {
        let m: u128 = (-(x + 1)) as u128;
        let t: u128 = m % (q as u128);
        proof {
            let k = m as int / (q as int);
            lemma_fundamental_div_mod(m as int, q as int);
            arith::lemma_cong_multiple(q - 1 - t, k + 1, q as int);
            assert(q - 1 - t - (k + 1) * q == x) by (nonlinear_arith)
                requires
                    m == q * k + t,
                    m == -(x + 1),
            ;
            lemma_small_mod((q - 1 - t) as nat, q as nat);
        }
        (q as i64) - 1 - (t as i64)
    }
}

} // verus!
