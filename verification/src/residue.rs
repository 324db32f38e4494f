//! Arithmetic on residues below `2^62`.

use crate::arith;
use vstd::arithmetic::div_mod::*;
use vstd::prelude::*;

verus! {

/// Moduli are below this bound.
pub const MODULUS_BOUND: u64 = 0x4000_0000_0000_0000;

/// `a b mod q`.
pub(crate) fn mul_mod(a: u64, b: u64, q: u64) -> (r: u64)
    requires
        q > 0,
    ensures
        r == (a * b) % (q as int),
{
    assert(a * b <= 0xffff_ffff_ffff_ffff * 0xffff_ffff_ffff_ffff) by (nonlinear_arith)
        requires
            0 <= a <= 0xffff_ffff_ffff_ffff,
            0 <= b <= 0xffff_ffff_ffff_ffff,
    ;
    assert(0 <= a * b) by (nonlinear_arith)
        requires
            0 <= a,
            0 <= b,
    ;
    ((a as u128) * (b as u128) % (q as u128)) as u64
}

/// `a + b mod q` of two residues.
pub(crate) fn add_mod_q_u64(a: u64, b: u64, q: u64) -> (r: u64)
    requires
        a < q,
        b < q,
        q < 0x8000_0000_0000_0000,
    ensures
        r == (a + b) % (q as int),
        r < q,
{
    let s: u64 = a + b;
    if s >= q {
        proof {
            arith::lemma_cong_multiple(a + b, 1, q as int);
            lemma_small_mod((s - q) as nat, q as nat);
        }
        s - q
    } else {
        proof {
            lemma_small_mod(s as nat, q as nat);
        }
        s
    }
}

/// `a - b mod q` of two residues.
pub(crate) fn sub_mod(a: u64, b: u64, q: u64) -> (r: u64)
    requires
        a < q,
        b < q,
        q < MODULUS_BOUND,
    ensures
        r == (a - b) % (q as int),
        r < q,
{
    if a >= b {
        proof {
            lemma_small_mod((a - b) as nat, q as nat);
        }
        a - b
    } else {
        proof {
            arith::lemma_cong_multiple(a - b, 1, q as int);
            lemma_small_mod((a - b + q) as nat, q as nat);
        }
        a + q - b
    }
}

/// `floor(w 2^64 / q)`, with which `mul_prepared` multiplies by `w`.
pub(crate) fn prepare(w: u64, q: u64) -> (r: u64)
    requires
        w < q,
    ensures
        r == (w * 0x1_0000_0000_0000_0000) / (q as int),
{
    assert((w * 0x1_0000_0000_0000_0000) / (q as int) < 0x1_0000_0000_0000_0000) by (nonlinear_arith)
        requires
            0 <= w < q,
    ;
    assert(0 <= (w * 0x1_0000_0000_0000_0000) / (q as int)) by (nonlinear_arith)
        requires
            0 <= w < q,
    ;
    ((w as u128) * 0x1_0000_0000_0000_0000u128 / (q as u128)) as u64
}

proof fn lemma_quotient(w: int, x: int, ws: int, hi: int, q: int)
    requires
        0 <= w < q,
        0 <= x < 0x1_0000_0000_0000_0000,
        ws == (w * 0x1_0000_0000_0000_0000) / q,
        hi == (ws * x) / 0x1_0000_0000_0000_0000,
    ensures
        0 <= w * x - hi * q < 2 * q,
{
    let b = 0x1_0000_0000_0000_0000int;
    lemma_fundamental_div_mod(w * b, q);
    lemma_mod_bound(w * b, q);
    lemma_fundamental_div_mod(ws * x, b);
    lemma_mod_bound(ws * x, b);
    let u = (w * b) % q;
    let v = (ws * x) % b;
    // b (w x - hi q) = u x + q v
    assert(b * (w * x) == q * (ws * x) + u * x) by (nonlinear_arith)
        requires
            w * b == q * ws + u,
    ;
    assert(q * (ws * x) == b * (hi * q) + q * v) by (nonlinear_arith)
        requires
            ws * x == b * hi + v,
    ;
    assert(b * (w * x - hi * q) == b * (w * x) - b * (hi * q)) by (nonlinear_arith);
    assert(0 <= u * x <= q * b - b) by (nonlinear_arith)
        requires
            0 <= u <= q - 1,
            0 <= x <= b,
            b > 0,
    ;
    assert(0 <= q * v <= q * b) by (nonlinear_arith)
        requires
            0 <= v <= b,
            q > 0,
    ;
    let t = w * x - hi * q;
    assert(0 <= t < 2 * q) by (nonlinear_arith)
        requires
            0 <= b * t <= 2 * (q * b) - b,
            b == 0x1_0000_0000_0000_0000,
    ;
}

/// `w x mod q`, where `ws` was prepared from `w`.
pub(crate) fn mul_prepared(x: u64, w: u64, ws: u64, q: u64) -> (r: u64)
    requires
        w < q < MODULUS_BOUND,
        ws == (w * 0x1_0000_0000_0000_0000) / (q as int),
    ensures
        r == (w * x) % (q as int),
        r < q,
{
    proof {
        assert(0 <= ws * x <= 0xffff_ffff_ffff_ffff * 0xffff_ffff_ffff_ffff) by (nonlinear_arith)
            requires
                0 <= ws <= 0xffff_ffff_ffff_ffff,
                0 <= x <= 0xffff_ffff_ffff_ffff,
        ;
        assert(0 <= w * x <= 0xffff_ffff_ffff_ffff * 0xffff_ffff_ffff_ffff) by (nonlinear_arith)
            requires
                0 <= w <= 0xffff_ffff_ffff_ffff,
                0 <= x <= 0xffff_ffff_ffff_ffff,
        ;
    }
    let hi: u64 = ((ws as u128) * (x as u128) / 0x1_0000_0000_0000_0000u128) as u64;
    proof {
        lemma_quotient(w as int, x as int, ws as int, hi as int, q as int);
        assert(0 <= hi * q <= 0xffff_ffff_ffff_ffff * 0xffff_ffff_ffff_ffff) by (nonlinear_arith)
            requires
                0 <= hi <= 0xffff_ffff_ffff_ffff,
                0 <= q <= 0xffff_ffff_ffff_ffff,
        ;
        arith::lemma_cong_multiple(w * x, hi as int, q as int);
    }
    let t: u64 = ((w as u128) * (x as u128) - (hi as u128) * (q as u128)) as u64;
    if t >= q {
        proof {
            arith::lemma_cong_multiple(t as int, 1, q as int);
            lemma_small_mod((t - q) as nat, q as nat);
        }
        t - q
    } else {
        proof {
            lemma_small_mod(t as nat, q as nat);
        }
        t
    }
}

/// `x mod q`.
pub(crate) fn rem_euclid(x: i64, q: u64) -> (r: u64)
    requires
        q > 0,
    ensures
        r == (x as int) % (q as int),
        r < q,
{
    if x >= 0 {
        (x as u64) % q
    } else {
        let m: u64 = (-(x + 1)) as u64;
        let t: u64 = m % q;
        proof {
            let k = (m / q) as int;
            lemma_fundamental_div_mod(m as int, q as int);
            arith::lemma_cong_multiple(q - 1 - t, k + 1, q as int);
            assert(q - 1 - t - (k + 1) * q == x) by (nonlinear_arith)
                requires
                    m == q * k + t,
                    m == -(x + 1),
            ;
            lemma_small_mod((q - 1 - t) as nat, q as nat);
        }
        q - 1 - t
    }
}

/// The centered representative of `x` modulo `q`, as a residue modulo `p`.
pub(crate) fn centered_residue(x: i64, q: u64, p: u64) -> (r: u64)
    requires
        q > 0,
        q / 2 < p,
    ensures
        r == arith::centered(x as int, q as int) % (p as int),
        r < p,
{
    let c: u64 = rem_euclid(x, q);
    if c > q / 2 {
        proof {
            arith::lemma_cong_multiple(c - q, 1, p as int);
            lemma_small_mod((p - (q - c)) as nat, p as nat);
        }
        p - (q - c)
    } else {
        proof {
            lemma_small_mod(c as nat, p as nat);
        }
        c
    }
}

/// The centered representative of a residue.
pub(crate) fn center(x: u64, q: u64) -> (r: i64)
    requires
        x < q < MODULUS_BOUND,
    ensures
        r == arith::centered(x as int, q as int),
{
    proof {
        lemma_small_mod(x as nat, q as nat);
    }
    if x > q / 2 {
        (x as i64) - (q as i64)
    } else {
        x as i64
    }
}

} // verus!
