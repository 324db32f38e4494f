//! Modular arithmetic on mathematical integers.

use vstd::arithmetic::div_mod::*;
use vstd::arithmetic::mul::*;
use vstd::arithmetic::power::*;
use vstd::prelude::*;

verus! {

/// `a` and `b` have the same residue modulo `q`.
pub open spec fn cong(a: int, b: int, q: int) -> bool {
    a % q == b % q
}

/// The representative of `x` modulo `q` that lies in `(-q/2, q/2]`.
pub open spec fn centered(x: int, q: int) -> int {
    let r = x % q;
    if r > q / 2 {
        r - q
    } else {
        r
    }
}

pub proof fn lemma_cong_add(a: int, b: int, c: int, d: int, q: int)
    requires
        q > 0,
        cong(a, b, q),
        cong(c, d, q),
    ensures
        cong(a + c, b + d, q),
{
    lemma_add_mod_noop(a, c, q);
    lemma_add_mod_noop(b, d, q);
}

pub proof fn lemma_cong_sub(a: int, b: int, c: int, d: int, q: int)
    requires
        q > 0,
        cong(a, b, q),
        cong(c, d, q),
    ensures
        cong(a - c, b - d, q),
{
    lemma_sub_mod_noop(a, c, q);
    lemma_sub_mod_noop(b, d, q);
}

pub proof fn lemma_cong_mul(a: int, b: int, c: int, d: int, q: int)
    requires
        q > 0,
        cong(a, b, q),
        cong(c, d, q),
    ensures
        cong(a * c, b * d, q),
{
    lemma_mul_mod_noop(a, c, q);
    lemma_mul_mod_noop(b, d, q);
}

/// A residue is congruent to the number that it is a residue of.
pub proof fn lemma_cong_residue(a: int, q: int)
    requires
        q > 0,
    ensures
        cong(a % q, a, q),
        0 <= a % q < q,
{
    lemma_mod_twice(a, q);
    lemma_mod_bound(a, q);
}

/// Numbers that differ by a multiple of `q` are congruent.
pub proof fn lemma_cong_multiple(a: int, k: int, q: int)
    requires
        q > 0,
    ensures
        cong(a + k * q, a, q),
        cong(a - k * q, a, q),
{
    lemma_mod_multiples_vanish(k, a, q);
    lemma_mod_multiples_vanish(-k, a, q);
    lemma_mul_is_commutative(k, q);
    lemma_mul_is_commutative(-k, q);
    assert((-k) * q == -(k * q)) by (nonlinear_arith);
}

/// Congruent numbers of one range of length `q` are equal.
pub proof fn lemma_cong_unique(a: int, b: int, lo: int, q: int)
    requires
        q > 0,
        cong(a, b, q),
        lo <= a < lo + q,
        lo <= b < lo + q,
    ensures
        a == b,
{
    lemma_fundamental_div_mod(a, q);
    lemma_fundamental_div_mod(b, q);
    let x = a / q;
    let y = b / q;
    assert(a - b == q * (x - y)) by (nonlinear_arith)
        requires
            a == q * x + a % q,
            b == q * y + b % q,
            a % q == b % q,
    ;
    assert(x == y) by (nonlinear_arith)
        requires
            a - b == q * (x - y),
            -q < a - b < q,
            q > 0,
    ;
}

/// The centered representative is congruent to the number, and lies in its range.
pub proof fn lemma_centered(x: int, q: int)
    requires
        q > 0,
    ensures
        cong(centered(x, q), x, q),
        -(q / 2) <= centered(x, q) <= q / 2,
        centered(x, q) == centered(x % q, q),
{
    lemma_cong_residue(x, q);
    lemma_cong_multiple(x % q, 1, q);
}

/// The centered representative depends on the residue alone.
pub proof fn lemma_centered_cong(x: int, y: int, q: int)
    requires
        q > 0,
        cong(x, y, q),
    ensures
        centered(x, q) == centered(y, q),
{
}

/// A number of the centered range is its own representative.
pub proof fn lemma_centered_small(x: int, q: int)
    requires
        q > 0,
        -((q - 1) / 2) <= x <= q / 2,
    ensures
        centered(x, q) == x,
{
    lemma_centered(x, q);
    lemma_mod_bound(x, q);
    lemma_cong_unique(centered(x, q), x, -((q - 1) / 2), q);
}

/// The centered representative is no further from zero than the number.
pub proof fn lemma_centered_nearest(x: int, q: int)
    requires
        q > 0,
    ensures
        0 <= x ==> -x <= centered(x, q) <= x,
        x <= 0 ==> x <= centered(x, q) <= -x,
{
    lemma_centered(x, q);
    if -(q / 2) < x < q / 2 {
        lemma_centered_small(x, q);
    }
}

/// `x mod a` and `x mod b` determine `x mod a b` where `a` is invertible modulo `b`.
pub proof fn lemma_crt(x: int, y: int, a: int, b: int, a_inv: int)
    requires
        a > 0,
        b > 0,
        cong(x, y, a),
        cong(x, y, b),
        cong(a * a_inv, 1, b),
    ensures
        cong(x, y, a * b),
{
    let z = x - y;
    lemma_cong_sub(x, y, y, y, a);
    lemma_cong_sub(x, y, y, y, b);
    lemma_small_mod(0, a as nat);
    lemma_small_mod(0, b as nat);
    let k = z / a;
    lemma_fundamental_div_mod(z, a);
    assert(z == a * k);
    // z = a k vanishes modulo b, hence so does a_inv z = k
    lemma_cong_mul(a * a_inv, 1, k, k, b);
    assert((a * a_inv) * k == a_inv * z) by (nonlinear_arith)
        requires
            z == a * k,
    ;
    lemma_cong_mul(a_inv, a_inv, z, 0, b);
    assert(k % b == 0);
    let l = k / b;
    lemma_fundamental_div_mod(k, b);
    assert(z == (a * b) * l) by (nonlinear_arith)
        requires
            z == a * k,
            k == b * l,
    ;
    assert(a * b > 0) by (nonlinear_arith)
        requires
            a > 0,
            b > 0,
    ;
    lemma_mul_is_commutative(a * b, l);
    lemma_cong_multiple(y, l, a * b);
}

/// `r^2e = y` modulo `q`, from `r^e = x` and `x^2 = k q + y`.
pub proof fn lemma_square(r: int, e: nat, x: int, k: int, y: int, q: int)
    requires
        q > 0,
        pow(r, e) % q == x,
        x * x == k * q + y,
        0 <= y < q,
    ensures
        pow(r, 2 * e) % q == y,
{
    lemma_pow_adds(r, e, e);
    lemma_cong_residue(pow(r, e), q);
    lemma_cong_mul(pow(r, e), x, pow(r, e), x, q);
    lemma_cong_multiple(y, k, q);
    lemma_small_mod(y as nat, q as nat);
}

} // verus!
