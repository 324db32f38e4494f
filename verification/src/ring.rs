//! The ring `Z[X]/(X^n - c)` on integer coefficient sequences; with `c = -1` the
//! negacyclic ring of the scheme.

use crate::arith;
use vstd::prelude::*;

verus! {

/// `f(0) + .. + f(n - 1)`.
pub open spec fn sum(n: nat, f: spec_fn(int) -> int) -> int
    decreases n,
{
    if n == 0 {
        0
    } else {
        sum((n - 1) as nat, f) + f(n - 1)
    }
}

/// What `a_i X^i` contributes to the coefficient of `X^k` in `a b` modulo `X^n - c`.
pub open spec fn product_term(a: Seq<int>, b: Seq<int>, c: int, k: int, i: int) -> int {
    if i <= k {
        a[i] * b[k - i]
    } else {
        c * (a[i] * b[k - i + a.len()])
    }
}

/// The coefficient of `X^k` in `a b` modulo `X^n - c`, where `n` is the length of `a` and `b`.
pub open spec fn product_coeff(a: Seq<int>, b: Seq<int>, c: int, k: int) -> int {
    sum(a.len(), |i: int| product_term(a, b, c, k, i))
}

/// `a b` modulo `X^n - c`.
pub open spec fn product(a: Seq<int>, b: Seq<int>, c: int) -> Seq<int> {
    Seq::new(a.len(), |k: int| product_coeff(a, b, c, k))
}

/// `a b` modulo `X^n + 1`.
pub open spec fn negacyclic(a: Seq<int>, b: Seq<int>) -> Seq<int> {
    product(a, b, -1)
}

/// Coefficientwise sum.
pub open spec fn plus(a: Seq<int>, b: Seq<int>) -> Seq<int> {
    Seq::new(a.len(), |i: int| a[i] + b[i])
}

/// The zero polynomial of `n` coefficients.
pub open spec fn zero(n: nat) -> Seq<int> {
    Seq::new(n, |i: int| 0)
}

/// Coefficientwise congruence.
pub open spec fn poly_cong(a: Seq<int>, b: Seq<int>, q: int) -> bool {
    &&& a.len() == b.len()
    &&& forall|i: int| #![trigger a[i]] #![trigger b[i]] 0 <= i < a.len() ==> arith::cong(a[i], b[i], q)
}

/// The image of `a` modulo `X^h - r`, where `a` has `2 h` coefficients.
pub open spec fn fold(a: Seq<int>, r: int) -> Seq<int> {
    let h = a.len() / 2;
    Seq::new(h, |i: int| a[i] + r * a[i + h])
}

/// The coefficients of a signed vector.
pub open spec fn signed(s: Seq<i64>) -> Seq<int> {
    Seq::new(s.len(), |i: int| s[i] as int)
}

/// The coefficients of an unsigned vector.
pub open spec fn unsigned(s: Seq<u64>) -> Seq<int> {
    Seq::new(s.len(), |i: int| s[i] as int)
}

/// `n` polynomials of `d` coefficients from the `lo`-th on, summed.
pub open spec fn total(p: spec_fn(int) -> Seq<int>, lo: int, n: nat, d: nat) -> Seq<int> {
    Seq::new(d, |k: int| sum(n, |i: int| p(lo + i)[k]))
}

/// The `i`-th polynomial of a flat vector of polynomials of `d` coefficients.
pub open spec fn row(v: Seq<i64>, i: int, d: nat) -> Seq<int> {
    Seq::new(d, |k: int| v[i * d + k] as int)
}

/// The centered representatives of the coefficients.
pub open spec fn centered_poly(a: Seq<int>, q: int) -> Seq<int> {
    Seq::new(a.len(), |i: int| arith::centered(a[i], q))
}

/// The absolute value.
pub open spec fn abs(x: int) -> int {
    if x < 0 {
        -x
    } else {
        x
    }
}

/// The sum of the absolute values of the coefficients.
pub open spec fn l1_norm(a: Seq<int>) -> int {
    sum(a.len(), |i: int| abs(a[i]))
}

pub proof fn lemma_sum_ext(n: nat, f: spec_fn(int) -> int, g: spec_fn(int) -> int)
    requires
        forall|i: int| 0 <= i < n ==> #[trigger] f(i) == g(i),
    ensures
        sum(n, f) == sum(n, g),
    decreases n,
{
    if n > 0 {
        lemma_sum_ext((n - 1) as nat, f, g);
    }
}

pub proof fn lemma_sum_cong(n: nat, f: spec_fn(int) -> int, g: spec_fn(int) -> int, q: int)
    requires
        q > 0,
        forall|i: int| 0 <= i < n ==> arith::cong(#[trigger] f(i), g(i), q),
    ensures
        arith::cong(sum(n, f), sum(n, g), q),
    decreases n,
{
    if n > 0 {
        lemma_sum_cong((n - 1) as nat, f, g, q);
        arith::lemma_cong_add(sum((n - 1) as nat, f), sum((n - 1) as nat, g), f(n - 1), g(n - 1), q);
    }
}

pub proof fn lemma_sum_add(
    n: nat,
    f: spec_fn(int) -> int,
    g: spec_fn(int) -> int,
    s: spec_fn(int) -> int,
)
    requires
        forall|i: int| 0 <= i < n ==> #[trigger] s(i) == f(i) + g(i),
    ensures
        sum(n, s) == sum(n, f) + sum(n, g),
    decreases n,
{
    if n > 0 {
        lemma_sum_add((n - 1) as nat, f, g, s);
    }
}

pub proof fn lemma_sum_scale(n: nat, c: int, f: spec_fn(int) -> int, s: spec_fn(int) -> int)
    requires
        forall|i: int| 0 <= i < n ==> #[trigger] s(i) == c * f(i),
    ensures
        sum(n, s) == c * sum(n, f),
    decreases n,
{
    if n > 0 {
        lemma_sum_scale((n - 1) as nat, c, f, s);
        assert(c * (sum((n - 1) as nat, f) + f(n - 1)) == c * sum((n - 1) as nat, f) + c * f(n - 1))
            by (nonlinear_arith);
    } else {
        assert(c * 0 == 0) by (nonlinear_arith);
    }
}

pub proof fn lemma_sum_zero(n: nat, f: spec_fn(int) -> int)
    requires
        forall|i: int| 0 <= i < n ==> #[trigger] f(i) == 0,
    ensures
        sum(n, f) == 0,
    decreases n,
{
    if n > 0 {
        lemma_sum_zero((n - 1) as nat, f);
    }
}

/// A sum in which one term changes.
pub proof fn lemma_sum_update(
    n: nat,
    f: spec_fn(int) -> int,
    g: spec_fn(int) -> int,
    j: int,
)
    requires
        0 <= j < n,
        forall|i: int| 0 <= i < n && i != j ==> #[trigger] f(i) == g(i),
    ensures
        sum(n, g) == sum(n, f) + g(j) - f(j),
    decreases n,
{
    if j == n - 1 {
        lemma_sum_ext((n - 1) as nat, f, g);
    } else {
        lemma_sum_update((n - 1) as nat, f, g, j);
    }
}

/// A sum of terms that are not negative.
pub proof fn lemma_sum_nonnegative(n: nat, f: spec_fn(int) -> int)
    requires
        forall|i: int| 0 <= i < n ==> 0 <= #[trigger] f(i),
    ensures
        0 <= sum(n, f),
    decreases n,
{
    if n > 0 {
        lemma_sum_nonnegative((n - 1) as nat, f);
    }
}

/// A sum over `m + n` terms in two parts.
pub proof fn lemma_sum_concat(m: nat, n: nat, f: spec_fn(int) -> int)
    ensures
        sum(m + n, f) == sum(m, f) + sum(n, |i: int| f(m + i)),
    decreases n,
{
    if n > 0 {
        lemma_sum_concat(m, (n - 1) as nat, f);
    }
}

/// A sum of terms bounded by `bound`.
pub proof fn lemma_sum_bound(n: nat, f: spec_fn(int) -> int, bound: int)
    requires
        forall|i: int| 0 <= i < n ==> -bound <= #[trigger] f(i) <= bound,
    ensures
        -(n * bound) <= sum(n, f) <= n * bound,
    decreases n,
{
    if n > 0 {
        lemma_sum_bound((n - 1) as nat, f, bound);
        assert(n * bound == (n - 1) * bound + bound) by (nonlinear_arith);
    } else {
        assert(0 * bound == 0) by (nonlinear_arith);
    }
}

proof fn lemma_expand(a0: int, a1: int, b0: int, b1: int, r: int)
    ensures
        (a0 + r * a1) * (b0 + r * b1) == (a0 * b0 + (r * r) * (a1 * b1)) + r * (a0 * b1 + a1 * b0),
{
    assert((a0 + r * a1) * (b0 + r * b1) == a0 * b0 + a0 * (r * b1) + (r * a1) * b0 + (r * a1) * (r
        * b1)) by (nonlinear_arith);
    assert((r * a1) * (r * b1) == (r * r) * (a1 * b1)) by (nonlinear_arith);
    assert(a0 * (r * b1) == r * (a0 * b1)) by (nonlinear_arith);
    assert((r * a1) * b0 == r * (a1 * b0)) by (nonlinear_arith);
    assert(r * (a0 * b1 + a1 * b0) == r * (a0 * b1) + r * (a1 * b0)) by (nonlinear_arith);
}

proof fn lemma_expand_wrapped(a0: int, a1: int, b0: int, b1: int, r: int)
    ensures
        r * ((a0 + r * a1) * (b0 + r * b1)) == ((r * r) * (a0 * b1) + (r * r) * (a1 * b0)) + r * (a0
            * b0 + (r * r) * (a1 * b1)),
{
    lemma_expand(a0, a1, b0, b1, r);
    let x = a0 * b0 + (r * r) * (a1 * b1);
    let y = a0 * b1 + a1 * b0;
    assert(r * (x + r * y) == r * x + (r * r) * y) by (nonlinear_arith);
    assert((r * r) * (a0 * b1 + a1 * b0) == (r * r) * (a0 * b1) + (r * r) * (a1 * b0))
        by (nonlinear_arith);
}

/// Folding modulo `X^h - r` turns products modulo `X^2h - r r` into products modulo `X^h - r`.
pub proof fn lemma_fold_product(a: Seq<int>, b: Seq<int>, r: int, h: nat)
    requires
        a.len() == 2 * h,
        b.len() == 2 * h,
    ensures
        fold(product(a, b, r * r), r) == product(fold(a, r), fold(b, r), r),
{
    let c = r * r;
    let fa = fold(a, r);
    let fb = fold(b, r);
    let lhs = fold(product(a, b, c), r);
    let rhs = product(fa, fb, r);
    assert forall|k: int| 0 <= k < h implies #[trigger] lhs[k] == rhs[k] by {
        let f0 = |i: int| product_term(a, b, c, k, i);
        let f1 = |i: int| product_term(a, b, c, k + h, i);
        let g = |i: int| product_term(fa, fb, r, k, i);
        let f0h = |i: int| f0(h + i);
        let f1h = |i: int| f1(h + i);
        lemma_sum_concat(h, h, f0);
        lemma_sum_concat(h, h, f1);
        let p0 = |i: int| f0(i) + f0h(i);
        let p1 = |i: int| f1(i) + f1h(i);
        lemma_sum_add(h, f0, f0h, p0);
        lemma_sum_add(h, f1, f1h, p1);
        let rp1 = |i: int| r * p1(i);
        lemma_sum_scale(h, r, p1, rp1);
        assert forall|i: int| 0 <= i < h implies #[trigger] g(i) == p0(i) + rp1(i) by {
            let a0 = a[i];
            let a1 = a[i + h];
            if i <= k {
                let b0 = b[k - i];
                let b1 = b[k - i + h];
                lemma_expand(a0, a1, b0, b1, r);
            } else {
                let b0 = b[k - i + h];
                let b1 = b[k - i + 2 * h];
                lemma_expand(a0, a1, b0, b1, r);
                lemma_expand_wrapped(a0, a1, b0, b1, r);
            }
        }
        lemma_sum_add(h, p0, rp1, g);
        assert(product(a, b, c)[k] == sum(2 * h, f0));
        assert(product(a, b, c)[k + h] == sum(2 * h, f1));
        assert(rhs[k] == sum(h, g));
    }
    assert(lhs =~= rhs);
}

/// Products modulo `X^n - c` respect congruence, of the factors and of `c`.
pub proof fn lemma_product_cong(
    a: Seq<int>,
    a2: Seq<int>,
    b: Seq<int>,
    b2: Seq<int>,
    c: int,
    c2: int,
    q: int,
)
    requires
        q > 0,
        poly_cong(a, a2, q),
        poly_cong(b, b2, q),
        a.len() == b.len(),
        arith::cong(c, c2, q),
    ensures
        poly_cong(product(a, b, c), product(a2, b2, c2), q),
{
    assert forall|k: int| 0 <= k < a.len() implies arith::cong(
        #[trigger] product(a, b, c)[k],
        product(a2, b2, c2)[k],
        q,
    ) by {
        let f = |i: int| product_term(a, b, c, k, i);
        let g = |i: int| product_term(a2, b2, c2, k, i);
        assert forall|i: int| 0 <= i < a.len() implies arith::cong(#[trigger] f(i), g(i), q) by {
            let j = if i <= k {
                k - i
            } else {
                k - i + a.len()
            };
            assert(arith::cong(a[i], a2[i], q));
            assert(arith::cong(b[j], b2[j], q));
            arith::lemma_cong_mul(a[i], a2[i], b[j], b2[j], q);
            arith::lemma_cong_mul(c, c2, a[i] * b[j], a2[i] * b2[j], q);
        }
        lemma_sum_cong(a.len(), f, g, q);
    }
}

/// Folding respects congruence.
pub proof fn lemma_fold_cong(a: Seq<int>, b: Seq<int>, r: int, q: int)
    requires
        q > 0,
        poly_cong(a, b, q),
    ensures
        poly_cong(fold(a, r), fold(b, r), q),
{
    let h = a.len() / 2;
    assert forall|i: int| 0 <= i < h implies arith::cong(#[trigger] fold(a, r)[i], fold(b, r)[i], q) by {
        assert(arith::cong(a[i], b[i], q));
        assert(arith::cong(a[i + h], b[i + h], q));
        arith::lemma_cong_mul(r, r, a[i + h], b[i + h], q);
        arith::lemma_cong_add(a[i], b[i], r * a[i + h], r * b[i + h], q);
    }
}

/// Folding is additive.
pub proof fn lemma_fold_plus(a: Seq<int>, b: Seq<int>, r: int)
    requires
        a.len() == b.len(),
    ensures
        fold(plus(a, b), r) == plus(fold(a, r), fold(b, r)),
{
    let h = a.len() / 2;
    assert forall|i: int| 0 <= i < h implies #[trigger] fold(plus(a, b), r)[i] == plus(
        fold(a, r),
        fold(b, r),
    )[i] by {
        assert(r * (a[i + h] + b[i + h]) == r * a[i + h] + r * b[i + h]) by (nonlinear_arith);
    }
    assert(fold(plus(a, b), r) =~= plus(fold(a, r), fold(b, r)));
}

/// Products are additive in the second factor.
pub proof fn lemma_product_plus(a: Seq<int>, b: Seq<int>, b2: Seq<int>, c: int)
    requires
        a.len() == b.len() == b2.len(),
    ensures
        product(a, plus(b, b2), c) == plus(product(a, b, c), product(a, b2, c)),
{
    assert forall|k: int| 0 <= k < a.len() implies #[trigger] product(a, plus(b, b2), c)[k] == plus(
        product(a, b, c),
        product(a, b2, c),
    )[k] by {
        let f = |i: int| product_term(a, b, c, k, i);
        let g = |i: int| product_term(a, b2, c, k, i);
        let s = |i: int| product_term(a, plus(b, b2), c, k, i);
        assert forall|i: int| 0 <= i < a.len() implies #[trigger] s(i) == f(i) + g(i) by {
            let j = if i <= k {
                k - i
            } else {
                k - i + a.len()
            };
            assert(a[i] * (b[j] + b2[j]) == a[i] * b[j] + a[i] * b2[j]) by (nonlinear_arith);
            assert(c * (a[i] * b[j] + a[i] * b2[j]) == c * (a[i] * b[j]) + c * (a[i] * b2[j]))
                by (nonlinear_arith);
        }
        lemma_sum_add(a.len(), f, g, s);
    }
    assert(product(a, plus(b, b2), c) =~= plus(product(a, b, c), product(a, b2, c)));
}

/// A double sum in either order.
pub proof fn lemma_sum_swap(n: nat, m: nat, f: spec_fn(int, int) -> int)
    ensures
        sum(n, |i: int| sum(m, |j: int| f(i, j))) == sum(m, |j: int| sum(n, |i: int| f(i, j))),
    decreases n,
{
    let rows = |i: int| sum(m, |j: int| f(i, j));
    let columns = |j: int| sum(n, |i: int| f(i, j));
    if n == 0 {
        lemma_sum_zero(m, columns);
    } else {
        let n1 = (n - 1) as nat;
        let rest = |j: int| sum(n1, |i: int| f(i, j));
        let last = |j: int| f(n - 1, j);
        lemma_sum_swap(n1, m, f);
        assert forall|j: int| 0 <= j < m implies #[trigger] columns(j) == rest(j) + last(j) by {}
        lemma_sum_add(m, rest, last, columns);
        assert(rows(n - 1) == sum(m, last)) by {
            lemma_sum_ext(m, |j: int| f(n - 1, j), last);
        }
    }
}

/// Coefficient `k` of `X^i c` modulo `X^n + 1`, where `c` has `n` coefficients.
pub open spec fn shifted(c: Seq<int>, i: int, k: int) -> int {
    if i <= k {
        c[k - i]
    } else {
        -c[k - i + c.len()]
    }
}

/// The coefficient of `X^k` in `a (b c)` as a double sum over the coefficients of `a` and `b`.
proof fn lemma_nested_product(a: Seq<int>, b: Seq<int>, c: Seq<int>, k: int)
    requires
        a.len() == b.len() == c.len(),
        0 <= k < a.len(),
    ensures
        negacyclic(a, negacyclic(b, c))[k] == sum(
            a.len(),
            |i: int|
                sum(
                    a.len(),
                    |j: int| a[i] * (b[j] * twice_shifted(c, i, j, k)),
                ),
        ),
{
    let n = a.len();
    let bc = negacyclic(b, c);
    let f = |i: int| product_term(a, bc, -1, k, i);
    let g = |i: int| sum(n, |j: int| a[i] * (b[j] * twice_shifted(c, i, j, k)));
    assert forall|i: int| 0 <= i < n implies #[trigger] f(i) == g(i) by {
        let (at, sign) = if i <= k {
            (k - i, 1int)
        } else {
            (k - i + n, -1int)
        };
        let h = |j: int| product_term(b, c, -1, at, j);
        let s = |j: int| a[i] * (b[j] * twice_shifted(c, i, j, k));
        let u = sign * a[i];
        assert forall|j: int| 0 <= j < n implies #[trigger] s(j) == u * h(j) by {
            lemma_signs(sign, a[i], b[j], if j <= at {
                1
            } else {
                -1
            }, if j <= at {
                c[at - j]
            } else {
                c[at - j + n]
            });
        }
        lemma_sum_scale(n, u, h, s);
        assert(bc[at] == sum(n, h));
        let x = a[i];
        let y = bc[at];
        assert((-1) * (x * y) == (-1 * x) * y) by (nonlinear_arith);
        assert(1 * x == x);
        assert(g(i) == sum(n, s));
    }
    lemma_sum_ext(n, f, g);
}

/// Coefficient `k` of `X^i X^j c` modulo `X^n + 1`.
pub open spec fn twice_shifted(c: Seq<int>, i: int, j: int, k: int) -> int {
    if i <= k {
        shifted(c, j, k - i)
    } else {
        -shifted(c, j, k - i + c.len())
    }
}

proof fn lemma_signs(s: int, x: int, y: int, t: int, z: int)
    requires
        s == 1 || s == -1,
        t == 1 || t == -1,
    ensures
        x * (y * (s * (t * z))) == (s * x) * (if t == 1 {
            y * z
        } else {
            (-1) * (y * z)
        }),
        t == 1 ==> t * z == z,
        t == -1 ==> t * z == -z,
        s == 1 ==> s * (t * z) == t * z,
        s == -1 ==> s * (t * z) == -(t * z),
{
    if t == 1 {
        assert(x * (y * (s * (t * z))) == (s * x) * (y * z)) by (nonlinear_arith)
            requires
                t == 1,
        ;
    } else {
        assert(x * (y * (s * (t * z))) == (s * x) * ((-1) * (y * z))) by (nonlinear_arith)
            requires
                t == -1,
        ;
    }
}

/// `a (b c) = b (a c)`.
pub proof fn lemma_negacyclic_left_commutative(a: Seq<int>, b: Seq<int>, c: Seq<int>)
    requires
        a.len() == b.len() == c.len(),
    ensures
        negacyclic(a, negacyclic(b, c)) == negacyclic(b, negacyclic(a, c)),
{
    let n = a.len();
    let l = negacyclic(a, negacyclic(b, c));
    let r = negacyclic(b, negacyclic(a, c));
    assert forall|k: int| 0 <= k < n implies #[trigger] l[k] == r[k] by {
        lemma_nested_product(a, b, c, k);
        lemma_nested_product(b, a, c, k);
        let f = |i: int, j: int| a[i] * (b[j] * twice_shifted(c, i, j, k));
        let g = |j: int, i: int| b[j] * (a[i] * twice_shifted(c, j, i, k));
        lemma_sum_swap(n, n, f);
        let fc = |j: int| sum(n, |i: int| f(i, j));
        let gc = |j: int| sum(n, |i: int| g(j, i));
        assert forall|j: int| 0 <= j < n implies #[trigger] fc(j) == gc(j) by {
            let f1 = |i: int| f(i, j);
            let g1 = |i: int| g(j, i);
            assert forall|i: int| 0 <= i < n implies #[trigger] f1(i) == g1(i) by {
                assert(twice_shifted(c, i, j, k) == twice_shifted(c, j, i, k));
                let x = a[i];
                let y = b[j];
                let t = twice_shifted(c, i, j, k);
                assert(x * (y * t) == y * (x * t)) by (nonlinear_arith);
            }
            lemma_sum_ext(n, f1, g1);
        }
        lemma_sum_ext(n, fc, gc);
        let fr = |i: int| sum(n, |j: int| f(i, j));
        let gr = |i: int| sum(n, |j: int| a[i] * (b[j] * twice_shifted(c, i, j, k)));
        assert forall|i: int| 0 <= i < n implies #[trigger] fr(i) == gr(i) by {
            lemma_sum_ext(
                n,
                |j: int| f(i, j),
                |j: int| a[i] * (b[j] * twice_shifted(c, i, j, k)),
            );
        }
        lemma_sum_ext(n, fr, gr);
        let hr = |i: int| sum(n, |j: int| b[i] * (a[j] * twice_shifted(c, i, j, k)));
        assert forall|j: int| 0 <= j < n implies #[trigger] gc(j) == hr(j) by {
            lemma_sum_ext(
                n,
                |i: int| g(j, i),
                |i: int| b[j] * (a[i] * twice_shifted(c, j, i, k)),
            );
        }
        lemma_sum_ext(n, gc, hr);
    }
    assert(l =~= r);
}

/// One more polynomial adds to the sum.
pub proof fn lemma_total(p: spec_fn(int) -> Seq<int>, lo: int, n: nat, d: nat)
    requires
        p(lo + n).len() == d,
    ensures
        total(p, lo, n + 1, d) == plus(total(p, lo, n, d), p(lo + n)),
{
    assert(total(p, lo, n + 1, d) =~= plus(total(p, lo, n, d), p(lo + n)));
}

/// Two sums in a row are one sum.
pub proof fn lemma_total_concat(p: spec_fn(int) -> Seq<int>, lo: int, m: nat, n: nat, d: nat)
    ensures
        total(p, lo, m + n, d) == plus(total(p, lo, m, d), total(p, lo + m, n, d)),
{
    assert forall|k: int| 0 <= k < d implies #[trigger] total(p, lo, m + n, d)[k] == plus(
        total(p, lo, m, d),
        total(p, lo + m, n, d),
    )[k] by {
        let f = |i: int| p(lo + i)[k];
        let g = |i: int| f(m + i);
        let h = |i: int| p(lo + m + i)[k];
        lemma_sum_concat(m, n, f);
        assert forall|i: int| 0 <= i < n implies #[trigger] g(i) == h(i) by {
            assert(lo + (m + i) == lo + m + i);
        }
        lemma_sum_ext(n, g, h);
    }
    assert(total(p, lo, m + n, d) =~= plus(total(p, lo, m, d), total(p, lo + m, n, d)));
}

/// Sums of congruent polynomials are congruent.
pub proof fn lemma_total_cong(
    p: spec_fn(int) -> Seq<int>,
    r: spec_fn(int) -> Seq<int>,
    n: nat,
    d: nat,
    q: int,
)
    requires
        q > 0,
        forall|i: int|
            0 <= i < n ==> poly_cong(#[trigger] p(i), r(i), q) && p(i).len() == d,
    ensures
        poly_cong(total(p, 0, n, d), total(r, 0, n, d), q),
{
    assert forall|k: int| 0 <= k < d implies arith::cong(
        #[trigger] total(p, 0, n, d)[k],
        total(r, 0, n, d)[k],
        q,
    ) by {
        let f = |i: int| p(0 + i)[k];
        let g = |i: int| r(0 + i)[k];
        assert forall|i: int| 0 <= i < n implies arith::cong(#[trigger] f(i), g(i), q) by {
            assert(poly_cong(p(i), r(i), q));
            assert(arith::cong(p(i)[k], r(i)[k], q));
        }
        lemma_sum_cong(n, f, g, q);
    }
}

/// The centered coefficients are congruent to the coefficients, and bounded by `q / 2`.
pub proof fn lemma_centered_poly(a: Seq<int>, q: int)
    requires
        q > 0,
    ensures
        poly_cong(centered_poly(a, q), a, q),
        forall|i: int|
            0 <= i < a.len() ==> -(q / 2) <= #[trigger] centered_poly(a, q)[i] <= q / 2,
{
    assert forall|i: int| 0 <= i < a.len() implies arith::cong(
        #[trigger] centered_poly(a, q)[i],
        a[i],
        q,
    ) && -(q / 2) <= centered_poly(a, q)[i] <= q / 2 by {
        arith::lemma_centered(a[i], q);
    }
}

/// A negacyclic product of polynomials bounded by `x` and `y` is bounded by `n x y`.
pub proof fn lemma_negacyclic_bound(a: Seq<int>, b: Seq<int>, x: int, y: int, k: int)
    requires
        a.len() == b.len(),
        0 <= k < a.len(),
        forall|i: int| 0 <= i < a.len() ==> -x <= #[trigger] a[i] <= x,
        forall|i: int| 0 <= i < b.len() ==> -y <= #[trigger] b[i] <= y,
    ensures
        -(a.len() * (x * y)) <= negacyclic(a, b)[k] <= a.len() * (x * y),
{
    let f = |i: int| product_term(a, b, -1, k, i);
    assert forall|i: int| 0 <= i < a.len() implies -(x * y) <= #[trigger] f(i) <= x * y by {
        let j = if i <= k {
            k - i
        } else {
            k - i + a.len()
        };
        let u = a[i];
        let v = b[j];
        assert(-(x * y) <= u * v <= x * y) by (nonlinear_arith)
            requires
                -x <= u <= x,
                -y <= v <= y,
        ;
        assert((-1) * (u * v) == -(u * v));
    }
    lemma_sum_bound(a.len(), f, x * y);
}

/// A sum of terms that are bounded one by one.
pub proof fn lemma_sum_bound_each(n: nat, f: spec_fn(int) -> int, g: spec_fn(int) -> int)
    requires
        forall|i: int| 0 <= i < n ==> -g(i) <= #[trigger] f(i) <= g(i),
    ensures
        -sum(n, g) <= sum(n, f) <= sum(n, g),
    decreases n,
{
    if n > 0 {
        lemma_sum_bound_each((n - 1) as nat, f, g);
    }
}

/// A negacyclic product with a polynomial bounded by `y` is bounded by `y` times the sum of the
/// absolute values of the other factor.
pub proof fn lemma_negacyclic_l1_bound(a: Seq<int>, b: Seq<int>, y: int, k: int)
    requires
        a.len() == b.len(),
        0 <= k < a.len(),
        0 <= y,
        forall|i: int| 0 <= i < b.len() ==> -y <= #[trigger] b[i] <= y,
    ensures
        -(y * l1_norm(a)) <= negacyclic(a, b)[k] <= y * l1_norm(a),
{
    let f = |i: int| product_term(a, b, -1, k, i);
    let h = |i: int| abs(a[i]);
    let g = |i: int| y * h(i);
    assert forall|i: int| 0 <= i < a.len() implies -g(i) <= #[trigger] f(i) <= g(i) by {
        let j = if i <= k {
            k - i
        } else {
            k - i + a.len()
        };
        let u = a[i];
        let v = b[j];
        assert(-(y * abs(u)) <= u * v <= y * abs(u)) by (nonlinear_arith)
            requires
                -y <= v <= y,
                abs(u) == u || abs(u) == -u,
                abs(u) >= 0,
        ;
        assert((-1) * (u * v) == -(u * v));
    }
    lemma_sum_bound_each(a.len(), f, g);
    lemma_sum_scale(a.len(), y, h, g);
}

/// A sum of `n` polynomials that are bounded by `bound` is bounded by `n bound`.
pub proof fn lemma_total_bound(
    p: spec_fn(int) -> Seq<int>,
    n: nat,
    d: nat,
    bound: int,
    k: int,
)
    requires
        0 <= k < d,
        forall|i: int| 0 <= i < n ==> -bound <= #[trigger] p(i)[k] <= bound,
    ensures
        -(n * bound) <= total(p, 0, n, d)[k] <= n * bound,
{
    let f = |i: int| p(0 + i)[k];
    assert forall|i: int| 0 <= i < n implies -bound <= #[trigger] f(i) <= bound by {
        assert(-bound <= p(i)[k] <= bound);
    }
    lemma_sum_bound(n, f, bound);
}

} // verus!
