//! What the steps of an aggregation compute: the bytes of the public keys, the stream, the draws,
//! the products and the sums.

use crate::arith;
use crate::aux_ntt;
use crate::aux_ntt::{CrtBackend, CrtConfig};
use crate::bytes;
use crate::hvc;
use crate::hvc::{Hvc, HvcCom};
use crate::laws;
use crate::lemur::bench_internals;
use crate::lemur::combine;
use crate::lemur::scaling;
use crate::lemur::{LemurPk, LemurSig};
use crate::ntt;
use crate::parallel;
use crate::poly;
use crate::poly::{RingParams, RingParams64};
use crate::profile::{HvcRing, Profile};
use crate::ring;
use crate::sample;
use crate::scheme_laws;
use crate::text;
use crate::weighted;
use vstd::arithmetic::div_mod::*;
use vstd::arithmetic::power::*;
use vstd::arithmetic::power2::*;
use vstd::prelude::*;

verus! {

/// Byte `b` of a signed number in two's complement, the lowest first.
proof fn lemma_byte(x: i64, b: nat)
    requires
        b < 8,
    ensures
        bytes::le_bytes(bytes::bits(x))[b as int] as int == (x as int / pow(256, b)) % 256,
{
    let p = pow(256, b);
    let c = (8 - b) as nat;
    let m = pow(256, c);
    lemma_pow_positive(256, b);
    lemma_pow_adds(256, b, c);
    reveal_with_fuel(pow, 9);
    assert(pow(256, 8) == 0x1_0000_0000_0000_0000);
    if x < 0 {
        lemma_hoist_over_denominator(x as int, m, p as nat);
        assert((x as int + m * p) / p == x as int / p + m);
        assert(m * p == p * m) by (nonlinear_arith);
        lemma_pow_adds(256, (c - 1) as nat, 1);
        lemma_pow1(256);
        arith::lemma_cong_multiple(x as int / p, pow(256, (c - 1) as nat), 256);
    }
}

/// The bytes of a vector one by one.
proof fn lemma_vector_byte(v: Seq<i64>, i: int, b: nat)
    requires
        0 <= i < v.len(),
        b < 8,
    ensures
        bytes::vector_bytes(v).len() == 8 * v.len(),
        bytes::vector_bytes(v)[8 * i + b] as int == (v[i] as int / pow(256, b)) % 256,
    decreases v.len(),
{
    bytes::lemma_vector_bytes_len(v);
    bytes::lemma_vector_bytes_len(v.drop_last());
    if i < v.len() - 1 {
        lemma_vector_byte(v.drop_last(), i, b);
    } else {
        lemma_byte(v.last(), b);
    }
}

/// The bytes of lists one after the other are the bytes of the whole list.
proof fn lemma_concatenated_add(a: Seq<Seq<i64>>, b: Seq<Seq<i64>>)
    ensures
        combine::concatenated(a + b) == combine::concatenated(a) + combine::concatenated(b),
    decreases b.len(),
{
    if b.len() == 0 {
        assert(a + b =~= a);
        assert(combine::concatenated(a) + combine::concatenated(b) =~= combine::concatenated(a));
    } else {
        lemma_concatenated_add(a, b.drop_last());
        assert((a + b).drop_last() =~= a + b.drop_last());
        assert(combine::concatenated(a + b) =~= combine::concatenated(a) + combine::concatenated(b));
    }
}

/// The bytes of one public key are eight for each coefficient, in order: its two's complement, the
/// lowest byte first.
pub proof fn law_bytes_of_one_key(pks: &[LemurPk], r: Vec<u8>, i: int, b: nat)
    requires
        call_ensures(bench_internals::concat_pk_bytes_pub, (pks,), r),
        pks@.len() == 1,
        0 <= i < pks@[0].0.0@.len(),
        b < 8,
    ensures
        r@.len() == 8 * pks@[0].0.0@.len(),
        r@[8 * i + b] as int == (pks@[0].0.0@[i] as int / pow(256, b)) % 256,
{
    let v = pks@[0].0.0@;
    let views = combine::pk_views(pks@);
    assert(views.last() == v);
    assert(views.drop_last() =~= Seq::<Seq<i64>>::empty());
    assert(combine::concatenated(views.drop_last()) =~= Seq::<u8>::empty());
    assert(combine::concatenated(views) =~= bytes::vector_bytes(v));
    lemma_vector_byte(v, i, b);
}

/// The bytes of the public keys of two groups are those of the first and then those of the second.
pub proof fn law_bytes_of_groups(
    first: &[LemurPk],
    second: &[LemurPk],
    pks: &[LemurPk],
    r1: Vec<u8>,
    r2: Vec<u8>,
    r: Vec<u8>,
)
    requires
        pks@ == first@ + second@,
        call_ensures(bench_internals::concat_pk_bytes_pub, (first,), r1),
        call_ensures(bench_internals::concat_pk_bytes_pub, (second,), r2),
        call_ensures(bench_internals::concat_pk_bytes_pub, (pks,), r),
    ensures
        r@ == r1@ + r2@,
{
    let a = combine::pk_views(first@);
    let b = combine::pk_views(second@);
    assert(combine::pk_views(pks@) =~= a + b);
    lemma_concatenated_add(a, b);
}

/// The stream is the output of SHAKE128 on one input: eight bytes of the slot, the whole message,
/// all bytes of the public keys, and eight bytes of the attempt, the lowest byte of a number first.
pub proof fn law_stream_input(
    t: usize,
    msg: &[u8],
    pks_bytes: &[u8],
    attempt: usize,
    n: usize,
    r: Vec<u8>,
)
    requires
        call_ensures(sample::agg_randomizer_xof, (t, msg, pks_bytes, attempt, n), r),
    ensures
        r@.len() == n,
        exists|head: Seq<u8>, tail: Seq<u8>|
            #![trigger head.add(msg@).add(pks_bytes@).add(tail)]
            head.len() == 8 && tail.len() == 8 && (forall|b: int|
                0 <= b < 8 ==> #[trigger] head[b] as int == (t as int / pow(256, b as nat)) % 256)
                && (forall|b: int|
                0 <= b < 8 ==> #[trigger] tail[b] as int == (attempt as int / pow(256, b as nat))
                    % 256) && (forall|i: int|
                0 <= i < n ==> #[trigger] r@[i] == sample::shake128_byte(
                    head.add(msg@).add(pks_bytes@).add(tail),
                    i,
                )),
{
    let head = bytes::le_bytes(t as int);
    let tail = bytes::le_bytes(attempt as int);
    let input = head.add(msg@).add(pks_bytes@).add(tail);
    assert(input =~= sample::randomizer_input(t, msg@, pks_bytes@, attempt));
    assert forall|b: int| 0 <= b < 8 implies #[trigger] head[b] as int == (t as int / pow(
        256,
        b as nat,
    )) % 256 by {
        lemma_mod_bound(t as int / pow(256, b as nat), 256);
    }
    assert forall|b: int| 0 <= b < 8 implies #[trigger] tail[b] as int == (attempt as int / pow(
        256,
        b as nat,
    )) % 256 by {
        lemma_mod_bound(attempt as int / pow(256, b as nat), 256);
    }
    assert forall|i: int| 0 <= i < n implies #[trigger] r@[i] == sample::shake128_byte(
        input,
        i,
    ) by {}
}

/// What the randomizers are derived from determines the slot, the message, the public keys and the
/// attempt, among messages of one length and as many bytes of public keys.
pub proof fn law_input_injective(
    t1: usize,
    msg1: Seq<u8>,
    pks_bytes1: Seq<u8>,
    attempt1: usize,
    t2: usize,
    msg2: Seq<u8>,
    pks_bytes2: Seq<u8>,
    attempt2: usize,
)
    requires
        msg1.len() == msg2.len(),
        pks_bytes1.len() == pks_bytes2.len(),
        sample::randomizer_input(t1, msg1, pks_bytes1, attempt1) == sample::randomizer_input(
            t2,
            msg2,
            pks_bytes2,
            attempt2,
        ),
    ensures
        t1 == t2,
        msg1 == msg2,
        pks_bytes1 == pks_bytes2,
        attempt1 == attempt2,
{
    let s = sample::randomizer_input(t1, msg1, pks_bytes1, attempt1);
    let m = 8 + msg1.len() as int;
    let p = m + pks_bytes1.len();
    assert(s.subrange(0, 8) =~= bytes::le_bytes(t1 as int));
    assert(s.subrange(0, 8) =~= bytes::le_bytes(t2 as int));
    assert(s.subrange(8, m) =~= msg1);
    assert(s.subrange(8, m) =~= msg2);
    assert(s.subrange(m, p) =~= pks_bytes1);
    assert(s.subrange(m, p) =~= pks_bytes2);
    assert(s.subrange(p, p + 8) =~= bytes::le_bytes(attempt1 as int));
    assert(s.subrange(p, p + 8) =~= bytes::le_bytes(attempt2 as int));
    bytes::lemma_le_round_trip(t1 as int);
    bytes::lemma_le_round_trip(t2 as int);
    bytes::lemma_le_round_trip(attempt1 as int);
    bytes::lemma_le_round_trip(attempt2 as int);
}

/// The draws before the last one do not touch the last coefficient, and are those of a polynomial
/// with one coefficient less.
proof fn lemma_draws_of_shorter(stream: Seq<u8>, off: int, i: nat, weight: int, d: nat)
    requires
        i < weight <= d,
    ensures
        sample::ternary(stream, off, i, weight, d) == sample::ternary(
            stream,
            off,
            i,
            weight - 1,
            (d - 1) as nat,
        ).push(0i64),
    decreases i,
{
    let r = sample::ternary(stream, off, i, weight, d);
    let s = sample::ternary(stream, off, i, weight - 1, (d - 1) as nat);
    sample::lemma_ternary(stream, off, i, weight - 1, (d - 1) as nat);
    if i > 0 {
        lemma_draws_of_shorter(stream, off, (i - 1) as nat, weight, d);
        let pos = d - weight + i - 1;
        let at = off + sample::DRAW_BYTES * (i - 1);
        let n = bytes::le_number(stream, at);
        lemma_mod_bound(n, pos + 1);
        sample::lemma_ternary(stream, off, (i - 1) as nat, weight - 1, (d - 1) as nat);
    }
    assert(r =~= s.push(0i64));
}

/// The number that eight bytes hold, written out.
proof fn lemma_number(s: Seq<u8>, at: int)
    ensures
        bytes::le_number(s, at) == s[at] + 0x100 * s[at + 1] + 0x1_0000 * s[at + 2] + 0x100_0000
            * s[at + 3] + 0x1_0000_0000 * s[at + 4] + 0x100_0000_0000 * s[at + 5]
            + 0x1_0000_0000_0000 * s[at + 6] + 0x100_0000_0000_0000 * s[at + 7],
{
    reveal_with_fuel(pow, 9);
    reveal_with_fuel(ring::sum, 9);
    let f = |i: int| s[at + i] * pow(256, i as nat);
    assert(f(0) == s[at] * 1);
    assert(f(1) == s[at + 1] * 0x100);
    assert(f(2) == s[at + 2] * 0x1_0000);
    assert(f(3) == s[at + 3] * 0x100_0000);
    assert(f(4) == s[at + 4] * 0x1_0000_0000);
    assert(f(5) == s[at + 5] * 0x100_0000_0000);
    assert(f(6) == s[at + 6] * 0x1_0000_0000_0000);
    assert(f(7) == s[at + 7] * 0x100_0000_0000_0000);
}

/// No draws give the zero polynomial.
pub proof fn law_no_draws(stream: &[u8], off: usize, d: usize, r: Vec<i64>)
    requires
        call_ensures(sample::xof_ternary_poly, (stream, off, 0, d), r),
    ensures
        r@ == Seq::new(d as nat, |k: int| 0i64),
{
}

/// How one more draw changes a polynomial, as two calls: from the polynomial of one draw and one
/// coefficient less, the nine bytes of the last draw tell a place below the number of coefficients
/// and a sign.  The sign goes to the place, and what stood there moves to the end.
pub proof fn law_one_more_draw(
    stream: &[u8],
    off: usize,
    weight: usize,
    d: usize,
    r: Vec<i64>,
    s: Vec<i64>,
    j: int,
    at: int,
)
    requires
        1 <= weight <= d,
        call_ensures(sample::xof_ternary_poly, (stream, off, weight, d), r),
        call_ensures(
            sample::xof_ternary_poly,
            (stream, off, (weight - 1) as usize, (d - 1) as usize),
            s,
        ),
        at == off + 9 * (weight - 1),
        j == (stream@[at] + 0x100 * stream@[at + 1] + 0x1_0000 * stream@[at + 2] + 0x100_0000
            * stream@[at + 3] + 0x1_0000_0000 * stream@[at + 4] + 0x100_0000_0000 * stream@[at + 5]
            + 0x1_0000_0000_0000 * stream@[at + 6] + 0x100_0000_0000_0000 * stream@[at + 7]) % (
        d as int),
    ensures
        r@.len() == d,
        s@.len() == d - 1,
        0 <= j < d,
        r@[j] == (if stream@[at + 8] % 2 == 0 {
            1int
        } else {
            -1int
        }),
        j < d - 1 ==> r@[d - 1] == s@[j],
        forall|k: int| 0 <= k < d - 1 && k != j ==> #[trigger] r@[k] == s@[k],
{
    let w = weight as int;
    sample::lemma_ternary(stream@, off as int, weight as nat, w, d as nat);
    sample::lemma_ternary(stream@, off as int, (weight - 1) as nat, w - 1, (d - 1) as nat);
    lemma_draws_of_shorter(stream@, off as int, (weight - 1) as nat, w, d as nat);
    lemma_number(stream@, at);
    lemma_mod_bound(bytes::le_number(stream@, at), d as int);
    assert(d - w + weight - 1 + 1 == d);
}

/// Polynomials are drawn one after the other: the polynomial of each signer is drawn from the bytes
/// behind those of the signers before.
pub proof fn law_draws_in_order(
    stream: &[u8],
    n: usize,
    weight: usize,
    d: usize,
    all: Vec<Vec<i64>>,
    s: usize,
    off: usize,
    one: Vec<i64>,
)
    requires
        call_ensures(sample::draw_all, (stream, n, weight, d), all),
        s < n,
        off == s * (9 * weight),
        call_ensures(sample::xof_ternary_poly, (stream, off, weight, d), one),
    ensures
        all@.len() == n,
        all@[s as int]@ == one@,
{
}

/// The randomizers are drawn from the stream of the slot, the message, the public keys and the
/// attempt, with the weight and the size of the profile.
pub proof fn law_randomizers_are_drawn(
    t: usize,
    msg: &[u8],
    pks_bytes: &[u8],
    attempt: usize,
    n: usize,
    profile: &Profile,
    len: usize,
    bytes: Vec<u8>,
    stream: &[u8],
    drawn: Vec<Vec<i64>>,
    ws: Vec<Vec<i64>>,
)
    requires
        len == n * (9 * profile.alpha_w),
        call_ensures(sample::agg_randomizer_xof, (t, msg, pks_bytes, attempt, len), bytes),
        stream@ == bytes@,
        call_ensures(sample::draw_all, (stream, n, profile.alpha_w, profile.d), drawn),
        call_ensures(
            bench_internals::hash_to_randomizers_pub,
            (t, msg, pks_bytes, attempt, n, profile),
            ws,
        ),
    ensures
        ws@.len() == n,
        drawn@.len() == n,
        forall|i: int| 0 <= i < n ==> (#[trigger] ws@[i])@ == drawn@[i]@,
{
    let v = weighted::views(ws@);
    assert(v.len() == ws@.len());
    assert forall|i: int| 0 <= i < n implies (#[trigger] ws@[i])@ == drawn@[i]@ by {
        assert(v[i] == ws@[i]@);
    }
}

/// The polynomial `X^i` times a polynomial modulo `X^n + 1` moves the coefficients up by `i` places,
/// and those that leave at the top come back at the bottom with the other sign.
pub proof fn law_monomial_shifts(x: Seq<int>, a: Seq<int>, i: int, k: int)
    requires
        x.len() == a.len(),
        0 <= i < a.len(),
        0 <= k < a.len(),
        forall|j: int| 0 <= j < x.len() ==> #[trigger] x[j] == if j == i {
            1int
        } else {
            0int
        },
    ensures
        ring::negacyclic(x, a).len() == a.len(),
        ring::negacyclic(x, a)[k] == if i <= k {
            a[k - i]
        } else {
            -a[k - i + a.len()]
        },
{
    let n = a.len();
    let f = |j: int| ring::product_term(x, a, -1, k, j);
    let z = |j: int| 0int;
    assert forall|j: int| 0 <= j < n && j != i implies #[trigger] z(j) == f(j) by {
        let y = if j <= k {
            a[k - j]
        } else {
            a[k - j + n]
        };
        assert(0 * y == 0) by (nonlinear_arith);
        assert(x[j] == 0);
    }
    ring::lemma_sum_update(n, z, f, i);
    ring::lemma_sum_zero(n, z);
}

/// Products modulo `X^n + 1` are additive in both factors.
pub proof fn law_products_add(a: Seq<int>, b: Seq<int>, c: Seq<int>, sum: Seq<int>, k: int)
    requires
        a.len() == b.len() == c.len() == sum.len(),
        forall|j: int| 0 <= j < sum.len() ==> #[trigger] sum[j] == a[j] + b[j],
        0 <= k < a.len(),
    ensures
        ring::negacyclic(sum, c)[k] == ring::negacyclic(a, c)[k] + ring::negacyclic(b, c)[k],
        ring::negacyclic(c, sum)[k] == ring::negacyclic(c, a)[k] + ring::negacyclic(c, b)[k],
{
    let n = a.len();
    let f = |j: int| ring::product_term(a, c, -1, k, j);
    let g = |j: int| ring::product_term(b, c, -1, k, j);
    let h = |j: int| ring::product_term(sum, c, -1, k, j);
    assert forall|j: int| 0 <= j < n implies #[trigger] h(j) == f(j) + g(j) by {
        let u = a[j];
        let v = b[j];
        let y = if j <= k {
            c[k - j]
        } else {
            c[k - j + n]
        };
        assert((u + v) * y == u * y + v * y) by (nonlinear_arith);
        assert(sum[j] == u + v);
    }
    ring::lemma_sum_add(n, f, g, h);
    assert(sum =~= ring::plus(a, b));
    ring::lemma_product_plus(c, a, b, -1);
}

/// A centered representative is congruent to the number, and of all such numbers the one that lies
/// above minus half the modulus and not above half of it.
proof fn lemma_centered_range(x: int, q: int)
    requires
        q > 0,
    ensures
        arith::centered(x, q) % q == x % q,
        -q < 2 * arith::centered(x, q) <= q,
{
    arith::lemma_centered(x, q);
    lemma_mod_bound(x, q);
}

/// Where a coefficient of a flat vector stands.
proof fn lemma_at(i: int, k: int, n: int, d: int)
    requires
        0 <= i < n,
        0 <= k < d,
    ensures
        (i * d + k) / d == i,
        (i * d + k) % d == k,
        0 <= i * d + k < n * d,
{
    weighted::lemma_flat(i, k, d);
    assert(0 <= i * d + k < n * d) by (nonlinear_arith)
        requires
            0 <= i,
            i + 1 <= n,
            0 <= k < d,
    ;
}

/// A coefficient of a scaled vector.
proof fn lemma_scaled_at(
    w: Seq<i64>,
    v: Seq<i64>,
    n: nat,
    d: nat,
    q: int,
    r: Seq<i64>,
    a: Seq<int>,
    b: Seq<int>,
    i: int,
    k: int,
)
    requires
        q > 0,
        ring::signed(r) == weighted::scaled(w, v, n, d, q),
        0 <= i < n,
        0 <= k < d,
        a.len() == w.len(),
        forall|j: int| 0 <= j < w.len() ==> #[trigger] a[j] == w[j],
        b.len() == d,
        forall|j: int| 0 <= j < d ==> #[trigger] b[j] == v[i * d + j],
    ensures
        r.len() == n * d,
        r[i * d + k] as int % q == ring::negacyclic(a, b)[k] % q,
        -q < 2 * r[i * d + k] <= q,
{
    lemma_at(i, k, n as int, d as int);
    assert(a =~= ring::signed(w));
    assert(b =~= ring::row(v, i, d));
    assert(ring::signed(r).len() == r.len());
    assert(ring::signed(r)[i * d + k] == r[i * d + k] as int);
    lemma_centered_range(ring::negacyclic(a, b)[k], q);
}

/// Scaling a vector through the auxiliary primes multiplies each of its polynomials by the weight:
/// every coefficient is the one of the product modulo the modulus, centered.
pub proof fn law_scale_vec_crt(
    w: &[i64],
    v: &[i64],
    n: usize,
    ring: &CrtBackend,
    r: Vec<i64>,
    i: int,
    k: int,
    a: Seq<int>,
    b: Seq<int>,
)
    requires
        call_ensures(scaling::scale_vec_crt, (w, v, n, ring), r),
        ring.wf(),
        0 <= i < n,
        0 <= k < ring.size(),
        a.len() == w@.len(),
        forall|j: int| 0 <= j < w@.len() ==> #[trigger] a[j] == w@[j],
        b.len() == ring.size(),
        forall|j: int| 0 <= j < ring.size() ==> #[trigger] b[j] == v@[i * ring.size() + j],
    ensures
        r@.len() == n * ring.size(),
        r@[i * ring.size() + k] as int % ring.modulus() == ring::negacyclic(a, b)[k]
            % ring.modulus(),
        -ring.modulus() < 2 * r@[i * ring.size() + k] <= ring.modulus(),
{
    lemma_scaled_at(
        w@,
        v@,
        n as nat,
        ring.size(),
        ring.modulus(),
        r@,
        a,
        b,
        i,
        k,
    );
}

/// Scaling a matrix through the auxiliary primes multiplies each of its polynomials by the weight:
/// every coefficient is the one of the product modulo the modulus, centered.
pub proof fn law_scale_mat_crt(
    w: &[i64],
    v: &[i64],
    rows: usize,
    columns: usize,
    ring: &CrtBackend,
    r: Vec<i64>,
    i: int,
    k: int,
    a: Seq<int>,
    b: Seq<int>,
)
    requires
        call_ensures(scaling::scale_mat_crt, (w, v, rows, columns, ring), r),
        ring.wf(),
        0 <= i < rows * columns,
        0 <= k < ring.size(),
        a.len() == w@.len(),
        forall|j: int| 0 <= j < w@.len() ==> #[trigger] a[j] == w@[j],
        b.len() == ring.size(),
        forall|j: int| 0 <= j < ring.size() ==> #[trigger] b[j] == v@[i * ring.size() + j],
    ensures
        r@.len() == (rows * columns) * ring.size(),
        r@[i * ring.size() + k] as int % ring.modulus() == ring::negacyclic(a, b)[k]
            % ring.modulus(),
        -ring.modulus() < 2 * r@[i * ring.size() + k] <= ring.modulus(),
{
    lemma_scaled_at(
        w@,
        v@,
        (rows * columns) as nat,
        ring.size(),
        ring.modulus(),
        r@,
        a,
        b,
        i,
        k,
    );
}

/// Scaling a matrix in a ring of a small modulus multiplies each of its polynomials by the weight:
/// every coefficient is the one of the product modulo the modulus, centered.
pub proof fn law_scale_mat(
    w: &[i64],
    v: &[i64],
    rows: usize,
    columns: usize,
    ring: &RingParams,
    r: Vec<i64>,
    i: int,
    k: int,
    a: Seq<int>,
    b: Seq<int>,
)
    requires
        call_ensures(poly::scale_mat, (w, v, rows, columns, ring), r),
        ring.wf(),
        0 <= i < rows * columns,
        0 <= k < ring.size(),
        a.len() == w@.len(),
        forall|j: int| 0 <= j < w@.len() ==> #[trigger] a[j] == w@[j],
        b.len() == ring.size(),
        forall|j: int| 0 <= j < ring.size() ==> #[trigger] b[j] == v@[i * ring.size() + j],
    ensures
        r@.len() == (rows * columns) * ring.size(),
        r@[i * ring.size() + k] as int % ring.modulus() == ring::negacyclic(a, b)[k]
            % ring.modulus(),
        -ring.modulus() < 2 * r@[i * ring.size() + k] <= ring.modulus(),
{
    ring.lemma_facts();
    lemma_scaled_at(
        w@,
        v@,
        (rows * columns) as nat,
        ring.size(),
        ring.modulus(),
        r@,
        a,
        b,
        i,
        k,
    );
}

/// Scaling a matrix in a ring of a large modulus multiplies each of its polynomials by the weight:
/// every coefficient is the one of the product modulo the modulus, centered.
pub proof fn law_scale_mat_u64(
    w: &[i64],
    v: &[i64],
    rows: usize,
    columns: usize,
    ring: &RingParams64,
    r: Vec<i64>,
    i: int,
    k: int,
    a: Seq<int>,
    b: Seq<int>,
)
    requires
        call_ensures(poly::scale_mat_u64, (w, v, rows, columns, ring), r),
        ring.wf(),
        0 <= i < rows * columns,
        0 <= k < ring.size(),
        a.len() == w@.len(),
        forall|j: int| 0 <= j < w@.len() ==> #[trigger] a[j] == w@[j],
        b.len() == ring.size(),
        forall|j: int| 0 <= j < ring.size() ==> #[trigger] b[j] == v@[i * ring.size() + j],
    ensures
        r@.len() == (rows * columns) * ring.size(),
        r@[i * ring.size() + k] as int % ring.modulus() == ring::negacyclic(a, b)[k]
            % ring.modulus(),
        -ring.modulus() < 2 * r@[i * ring.size() + k] <= ring.modulus(),
{
    ring.lemma_facts();
    lemma_scaled_at(
        w@,
        v@,
        (rows * columns) as nat,
        ring.size(),
        ring.modulus(),
        r@,
        a,
        b,
        i,
        k,
    );
}

/// The product of two polynomials in a ring of a small modulus: every coefficient is the residue of
/// the one of the product.
pub proof fn law_poly_mul(
    x: &[i64],
    y: &[i64],
    ring: &RingParams,
    r: Vec<i64>,
    k: int,
    a: Seq<int>,
    b: Seq<int>,
)
    requires
        call_ensures(poly::poly_mul, (x, y, ring), r),
        ring.wf(),
        0 <= k < ring.size(),
        a.len() == x@.len(),
        forall|j: int| 0 <= j < x@.len() ==> #[trigger] a[j] == x@[j],
        b.len() == y@.len(),
        forall|j: int| 0 <= j < y@.len() ==> #[trigger] b[j] == y@[j],
    ensures
        r@.len() == ring.size(),
        0 <= r@[k] < ring.modulus(),
        r@[k] as int % ring.modulus() == ring::negacyclic(a, b)[k] % ring.modulus(),
{
    ring.lemma_facts();
    assert(a =~= ring::signed(x@));
    assert(b =~= ring::signed(y@));
    arith::lemma_cong_residue(ring::negacyclic(a, b)[k], ring.modulus());
}

/// The product of two polynomials in a ring of a large modulus: every coefficient is the residue of
/// the one of the product.
pub proof fn law_poly_mul_u64(
    x: &[i64],
    y: &[i64],
    ring: &RingParams64,
    r: Vec<i64>,
    k: int,
    a: Seq<int>,
    b: Seq<int>,
)
    requires
        call_ensures(poly::poly_mul_u64, (x, y, ring), r),
        ring.wf(),
        0 <= k < ring.size(),
        a.len() == x@.len(),
        forall|j: int| 0 <= j < x@.len() ==> #[trigger] a[j] == x@[j],
        b.len() == y@.len(),
        forall|j: int| 0 <= j < y@.len() ==> #[trigger] b[j] == y@[j],
    ensures
        r@.len() == ring.size(),
        0 <= r@[k] < ring.modulus(),
        r@[k] as int % ring.modulus() == ring::negacyclic(a, b)[k] % ring.modulus(),
{
    ring.lemma_facts();
    assert(a =~= ring::signed(x@));
    assert(b =~= ring::signed(y@));
    arith::lemma_cong_residue(ring::negacyclic(a, b)[k], ring.modulus());
}

/// The weighted sum of one vector is the product.
proof fn lemma_sum_of_one(
    ws: Seq<Seq<i64>>,
    vs: Seq<Seq<i64>>,
    n: nat,
    d: nat,
    a: Seq<int>,
    b: Seq<int>,
    i: int,
    k: int,
)
    requires
        ws.len() == 1,
        vs.len() == 1,
        0 <= i < n,
        0 <= k < d,
        a.len() == ws[0].len(),
        forall|j: int| 0 <= j < a.len() ==> #[trigger] a[j] == ws[0][j],
        b.len() == d,
        forall|j: int| 0 <= j < d ==> #[trigger] b[j] == vs[0][i * d + j],
    ensures
        weighted::weighted_sum(ws, vs, (i * d + k) / (d as int), d)[(i * d + k) % (d as int)]
            == ring::negacyclic(a, b)[k],
        0 <= i * d + k < n * d,
{
    lemma_at(i, k, n as int, d as int);
    assert(a =~= ring::signed(ws[0]));
    assert(b =~= ring::row(vs[0], i, d));
    reveal_with_fuel(ring::sum, 2);
}

/// The weighted sum of the public key of one signer is the product of the weight with each of its
/// polynomials: every coefficient is the residue of the one of the product.
pub proof fn law_commitment_of_one_signer(
    ws: &[Vec<i64>],
    pks: &[LemurPk],
    profile: &Profile,
    r: HvcCom,
    i: int,
    k: int,
    a: Seq<int>,
    b: Seq<int>,
)
    requires
        call_ensures(combine::weighted_sum_commitments, (ws, pks, profile), r) || call_ensures(
            bench_internals::weighted_sum_commitments_pub,
            (ws, pks, profile),
            r,
        ),
        profile.wf(),
        ws@.len() == 1,
        pks@.len() == 1,
        0 <= i < profile.omega,
        0 <= k < profile.d,
        a.len() == ws@[0]@.len(),
        forall|j: int| 0 <= j < a.len() ==> #[trigger] a[j] == ws@[0]@[j],
        b.len() == profile.d,
        forall|j: int|
            0 <= j < profile.d ==> #[trigger] b[j] == pks@[0].0.0@[i * profile.d + j],
    ensures
        r.0@.len() == profile.omega * profile.d,
        0 <= r.0@[i * profile.d + k] < profile.hvc_modulus(),
        r.0@[i * profile.d + k] as int % profile.hvc_modulus() == ring::negacyclic(a, b)[k]
            % profile.hvc_modulus(),
{
    profile.lemma_modulus();
    let d = profile.d as nat;
    let wv = weighted::views(ws@);
    let vv = combine::pk_views(pks@);
    assert(wv.take(1) =~= wv);
    assert(vv.take(1) =~= vv);
    lemma_sum_of_one(wv, vv, profile.omega as nat, d, a, b, i, k);
    assert(ring::signed(r.0@).len() == r.0@.len());
    assert(ring::signed(r.0@)[i * d + k] == r.0@[i * d + k] as int);
    arith::lemma_cong_residue(ring::negacyclic(a, b)[k], profile.hvc_modulus());
}

/// The weighted sum of the public keys of two groups is the sum of the weighted sums of the groups,
/// as residues: no signer is left out, however many there are.
pub proof fn law_commitments_of_groups(
    ws1: &[Vec<i64>],
    pks1: &[LemurPk],
    ws2: &[Vec<i64>],
    pks2: &[LemurPk],
    ws: &[Vec<i64>],
    pks: &[LemurPk],
    profile: &Profile,
    r1: HvcCom,
    r2: HvcCom,
    r: HvcCom,
    j: int,
)
    requires
        call_ensures(combine::weighted_sum_commitments, (ws1, pks1, profile), r1),
        call_ensures(combine::weighted_sum_commitments, (ws2, pks2, profile), r2),
        call_ensures(combine::weighted_sum_commitments, (ws, pks, profile), r),
        profile.wf(),
        ws1@.len() == pks1@.len(),
        ws2@.len() == pks2@.len(),
        ws@ == ws1@ + ws2@,
        pks@ == pks1@ + pks2@,
        0 <= j < profile.omega * profile.d,
    ensures
        r1.0@.len() == r2.0@.len() == r.0@.len() == profile.omega * profile.d,
        r.0@[j] as int == (r1.0@[j] + r2.0@[j]) % profile.hvc_modulus(),
{
    profile.lemma_modulus();
    let d = profile.d as nat;
    let q = profile.hvc_modulus();
    let w1 = weighted::views(ws1@);
    let w2 = weighted::views(ws2@);
    let v1 = combine::pk_views(pks1@);
    let v2 = combine::pk_views(pks2@);
    assert(weighted::views(ws@) =~= w1 + w2);
    assert(combine::pk_views(pks@) =~= v1 + v2);
    assert(w1.take(w1.len() as int) =~= w1);
    assert(w2.take(w2.len() as int) =~= w2);
    assert(v1.take(v1.len() as int) =~= v1);
    assert(v2.take(v2.len() as int) =~= v2);
    assert((w1 + w2).take((w1 + w2).len() as int) =~= w1 + w2);
    assert((v1 + v2).take((v1 + v2).len() as int) =~= v1 + v2);
    weighted::lemma_position(j, profile.omega as nat, d);
    let row = j / (d as int);
    let k = j % (d as int);
    laws::lemma_groups(w1, v1, w2, v2, row, d, k);
    let x = weighted::weighted_sum(w1, v1, row, d)[k];
    let y = weighted::weighted_sum(w2, v2, row, d)[k];
    arith::lemma_cong_residue(x, q);
    arith::lemma_cong_residue(y, q);
    arith::lemma_cong_add(x % q, x, y % q, y, q);
    assert(ring::signed(r.0@).len() == r.0@.len());
    assert(ring::signed(r1.0@).len() == r1.0@.len());
    assert(ring::signed(r2.0@).len() == r2.0@.len());
    assert(ring::signed(r.0@)[j] == r.0@[j] as int);
    assert(ring::signed(r1.0@)[j] == r1.0@[j] as int);
    assert(ring::signed(r2.0@)[j] == r2.0@[j] as int);
}

/// Weights and public keys go in pairs: the weighted sum of more of the one than of the other is
/// that of as many as there are of both.  The step of the measurements is the same.
pub proof fn law_commitments_in_pairs(
    ws1: &[Vec<i64>],
    pks1: &[LemurPk],
    ws: &[Vec<i64>],
    pks: &[LemurPk],
    profile: &Profile,
    r1: HvcCom,
    r: HvcCom,
)
    requires
        call_ensures(combine::weighted_sum_commitments, (ws1, pks1, profile), r1),
        call_ensures(combine::weighted_sum_commitments, (ws, pks, profile), r) || call_ensures(
            bench_internals::weighted_sum_commitments_pub,
            (ws, pks, profile),
            r,
        ),
        ws1@.len() == pks1@.len(),
        ws1@.len() == ws@.len() || pks1@.len() == pks@.len(),
        ws1@.len() <= ws@.len(),
        pks1@.len() <= pks@.len(),
        ws1@ == ws@.take(ws1@.len() as int),
        pks1@ == pks@.take(pks1@.len() as int),
    ensures
        r.0@ == r1.0@,
{
    let n = ws1@.len() as int;
    let wv = weighted::views(ws@);
    let vv = combine::pk_views(pks@);
    let w1 = weighted::views(ws1@);
    let v1 = combine::pk_views(pks1@);
    assert(combine::pairs(wv, vv) == n);
    assert(wv.take(n) =~= w1);
    assert(vv.take(n) =~= v1);
    assert(w1.take(n) =~= w1);
    assert(v1.take(n) =~= v1);
    scheme_laws::lemma_signed_injective(r.0@, r1.0@);
}

/// The aggregate of one vector in the transformed domain is the product of the weight with each of
/// its polynomials: every coefficient is the one of the product modulo the modulus, centered.
pub proof fn law_aggregate_of_one_vector(
    ws: &[Vec<i64>],
    vectors: &[&[i64]],
    n: usize,
    backend: &CrtBackend,
    r: Vec<i64>,
    i: int,
    k: int,
    a: Seq<int>,
    b: Seq<int>,
)
    requires
        call_ensures(scaling::aggregate_vec_crt_ntt, (ws, vectors, n, backend), r),
        backend.wf(),
        ws@.len() == 1,
        vectors@.len() == 1,
        0 <= i < n,
        0 <= k < backend.size(),
        a.len() == ws@[0]@.len(),
        forall|j: int| 0 <= j < a.len() ==> #[trigger] a[j] == ws@[0]@[j],
        b.len() == backend.size(),
        forall|j: int|
            0 <= j < backend.size() ==> #[trigger] b[j] == vectors@[0]@[i * backend.size() + j],
    ensures
        r@.len() == n * backend.size(),
        r@[i * backend.size() + k] as int % backend.modulus() == ring::negacyclic(a, b)[k]
            % backend.modulus(),
        -backend.modulus() < 2 * r@[i * backend.size() + k] <= backend.modulus(),
{
    let d = backend.size();
    let wv = weighted::views(ws@);
    let vv = weighted::slice_views(vectors@);
    lemma_sum_of_one(wv, vv, n as nat, d, a, b, i, k);
    assert(ring::signed(r@).len() == r@.len());
    assert(ring::signed(r@)[i * d + k] == r@[i * d + k] as int);
    lemma_centered_range(ring::negacyclic(a, b)[k], backend.modulus());
}

/// The aggregate of the vectors of two groups is congruent to the sum of the aggregates of the
/// groups, and centered: no vector is left out, however many there are.
pub proof fn law_aggregate_of_groups(
    ws1: &[Vec<i64>],
    vectors1: &[&[i64]],
    ws2: &[Vec<i64>],
    vectors2: &[&[i64]],
    ws: &[Vec<i64>],
    vectors: &[&[i64]],
    n: usize,
    backend: &CrtBackend,
    r1: Vec<i64>,
    r2: Vec<i64>,
    r: Vec<i64>,
    j: int,
)
    requires
        call_ensures(scaling::aggregate_vec_crt_ntt, (ws1, vectors1, n, backend), r1),
        call_ensures(scaling::aggregate_vec_crt_ntt, (ws2, vectors2, n, backend), r2),
        call_ensures(scaling::aggregate_vec_crt_ntt, (ws, vectors, n, backend), r),
        backend.wf(),
        ws1@.len() == vectors1@.len(),
        ws2@.len() == vectors2@.len(),
        ws@ == ws1@ + ws2@,
        vectors@ == vectors1@ + vectors2@,
        0 <= j < n * backend.size(),
    ensures
        r1@.len() == r2@.len() == r@.len() == n * backend.size(),
        r@[j] as int % backend.modulus() == (r1@[j] + r2@[j]) % backend.modulus(),
        -backend.modulus() < 2 * r@[j] <= backend.modulus(),
{
    let d = backend.size();
    let q = backend.modulus();
    let w1 = weighted::views(ws1@);
    let w2 = weighted::views(ws2@);
    let v1 = weighted::slice_views(vectors1@);
    let v2 = weighted::slice_views(vectors2@);
    assert(weighted::views(ws@) =~= w1 + w2);
    assert(weighted::slice_views(vectors@) =~= v1 + v2);
    lemma_centered_groups(w1, v1, w2, v2, n as nat, d, q, j);
    assert(ring::signed(r@).len() == r@.len());
    assert(ring::signed(r1@).len() == r1@.len());
    assert(ring::signed(r2@).len() == r2@.len());
    assert(ring::signed(r@)[j] == r@[j] as int);
    assert(ring::signed(r1@)[j] == r1@[j] as int);
    assert(ring::signed(r2@)[j] == r2@[j] as int);
}

/// A coefficient of the aggregate of two groups.
proof fn lemma_centered_groups(
    w1: Seq<Seq<i64>>,
    v1: Seq<Seq<i64>>,
    w2: Seq<Seq<i64>>,
    v2: Seq<Seq<i64>>,
    n: nat,
    d: nat,
    q: int,
    j: int,
)
    requires
        q > 0,
        w1.len() == v1.len(),
        w2.len() == v2.len(),
        0 <= j < n * d,
    ensures
        weighted::aggregated(w1 + w2, v1 + v2, n, d, q)[j] % q == (weighted::aggregated(
            w1,
            v1,
            n,
            d,
            q,
        )[j] + weighted::aggregated(w2, v2, n, d, q)[j]) % q,
        -q < 2 * weighted::aggregated(w1 + w2, v1 + v2, n, d, q)[j] <= q,
{
    weighted::lemma_position(j, n, d);
    let row = j / (d as int);
    let k = j % (d as int);
    laws::lemma_groups(w1, v1, w2, v2, row, d, k);
    let x = weighted::weighted_sum(w1, v1, row, d)[k];
    let y = weighted::weighted_sum(w2, v2, row, d)[k];
    lemma_centered_range(x, q);
    lemma_centered_range(y, q);
    lemma_centered_range(x + y, q);
    arith::lemma_cong_add(arith::centered(x, q), x, arith::centered(y, q), y, q);
}

/// The aggregated one-time signature of one signer is the product of the weight with each of its
/// polynomials: every coefficient is the one of the product modulo the modulus, centered.
pub proof fn law_kots_z_of_one_signer<H: Hvc>(
    ws: &[Vec<i64>],
    sigs: &[LemurSig<H>],
    profile: &Profile,
    r: Vec<i64>,
    i: int,
    k: int,
    a: Seq<int>,
    b: Seq<int>,
)
    requires
        call_ensures(bench_internals::aggregate_kots_z::<H>, (ws, sigs, profile), r),
        profile.wf(),
        ws@.len() == 1,
        sigs@.len() == 1,
        0 <= i < profile.m,
        0 <= k < profile.d,
        a.len() == ws@[0]@.len(),
        forall|j: int| 0 <= j < a.len() ==> #[trigger] a[j] == ws@[0]@[j],
        b.len() == profile.d,
        forall|j: int|
            0 <= j < profile.d ==> #[trigger] b[j] == sigs@[0].z.0@[i * profile.d + j],
    ensures
        r@.len() == profile.m * profile.d,
        r@[i * profile.d + k] as int % profile.kots_modulus() == ring::negacyclic(a, b)[k]
            % profile.kots_modulus(),
        -profile.kots_modulus() < 2 * r@[i * profile.d + k] <= profile.kots_modulus(),
{
    profile.lemma_modulus();
    let d = profile.d as nat;
    let m = profile.m as nat;
    let q = profile.kots_modulus();
    let wv = weighted::views(ws@);
    let zv = combine::z_views(sigs@);
    assert(wv.take(1) =~= wv);
    assert(zv.take(1) =~= zv);
    lemma_sum_of_one(wv, zv, m, d, a, b, i, k);
    lemma_at(i, k, m as int, d as int);
    assert(ring::signed(r@).len() == r@.len());
    assert(ring::signed(r@)[i * d + k] == r@[i * d + k] as int);
    lemma_centered_range(ring::negacyclic(a, b)[k], q);
    if profile.kots_crt is None {
        reveal_with_fuel(ring::sum, 2);
        let s = weighted::scalings(wv, zv, m, d, q);
        assert(weighted::scaled_total(wv, zv, m, d, q)[i * d + k] == s(0)[i * d + k]);
        assert(a =~= ring::signed(wv[0]));
        assert(b =~= ring::row(zv[0], i, d));
    }
}

/// The aggregated one-time signature of two groups of signers.  Where the modulus has no transform
/// it is congruent to the sum of those of the groups, and centered; elsewhere it is that sum.  No
/// signer is left out, however many there are and whichever way it is computed.
pub proof fn law_kots_z_of_groups<H: Hvc>(
    ws1: &[Vec<i64>],
    sigs1: &[LemurSig<H>],
    ws2: &[Vec<i64>],
    sigs2: &[LemurSig<H>],
    ws: &[Vec<i64>],
    sigs: &[LemurSig<H>],
    profile: &Profile,
    r1: Vec<i64>,
    r2: Vec<i64>,
    r: Vec<i64>,
    j: int,
)
    requires
        call_ensures(bench_internals::aggregate_kots_z::<H>, (ws1, sigs1, profile), r1),
        call_ensures(bench_internals::aggregate_kots_z::<H>, (ws2, sigs2, profile), r2),
        call_ensures(bench_internals::aggregate_kots_z::<H>, (ws, sigs, profile), r),
        profile.wf(),
        ws1@.len() == sigs1@.len(),
        ws2@.len() == sigs2@.len(),
        ws@ == ws1@ + ws2@,
        sigs@ == sigs1@ + sigs2@,
        0 <= j < profile.m * profile.d,
    ensures
        r1@.len() == r2@.len() == r@.len() == profile.m * profile.d,
        profile.kots_crt is Some ==> r@[j] as int % profile.kots_modulus() == (r1@[j] + r2@[j])
            % profile.kots_modulus() && -profile.kots_modulus() < 2 * r@[j]
            <= profile.kots_modulus(),
        profile.kots_crt is None ==> r@[j] == r1@[j] + r2@[j],
{
    profile.lemma_modulus();
    let d = profile.d as nat;
    let m = profile.m as nat;
    let q = profile.kots_modulus();
    let w1 = weighted::views(ws1@);
    let w2 = weighted::views(ws2@);
    let v1 = combine::z_views(sigs1@);
    let v2 = combine::z_views(sigs2@);
    assert(weighted::views(ws@) =~= w1 + w2);
    assert(combine::z_views(sigs@) =~= v1 + v2);
    assert(w1.take(w1.len() as int) =~= w1);
    assert(w2.take(w2.len() as int) =~= w2);
    assert(v1.take(v1.len() as int) =~= v1);
    assert(v2.take(v2.len() as int) =~= v2);
    assert((w1 + w2).take((w1 + w2).len() as int) =~= w1 + w2);
    assert((v1 + v2).take((v1 + v2).len() as int) =~= v1 + v2);
    assert(ring::signed(r@).len() == r@.len());
    assert(ring::signed(r1@).len() == r1@.len());
    assert(ring::signed(r2@).len() == r2@.len());
    assert(ring::signed(r@)[j] == r@[j] as int);
    assert(ring::signed(r1@)[j] == r1@[j] as int);
    assert(ring::signed(r2@)[j] == r2@[j] as int);
    if profile.kots_crt is Some {
        lemma_centered_groups(w1, v1, w2, v2, m, d, q, j);
    } else {
        let s = weighted::scalings(w1 + w2, v1 + v2, m, d, q);
        let s1 = weighted::scalings(w1, v1, m, d, q);
        let s2 = weighted::scalings(w2, v2, m, d, q);
        let f = |i: int| s(0 + i)[j];
        let f1 = |i: int| s1(0 + i)[j];
        let f2 = |i: int| s2(0 + i)[j];
        let g = |i: int| f(w1.len() + i);
        ring::lemma_sum_concat(w1.len(), w2.len(), f);
        assert forall|i: int| 0 <= i < w1.len() implies #[trigger] f(i) == f1(i) by {
            assert((w1 + w2)[i] == w1[i]);
            assert((v1 + v2)[i] == v1[i]);
        }
        ring::lemma_sum_ext(w1.len(), f, f1);
        assert forall|i: int| 0 <= i < w2.len() implies #[trigger] g(i) == f2(i) by {
            assert((w1 + w2)[w1.len() + i] == w2[i]);
            assert((v1 + v2)[w1.len() + i] == v2[i]);
        }
        ring::lemma_sum_ext(w2.len(), g, f2);
    }
}

/// The size of the chunks of work is the least with which there are no more chunks than four for
/// each thread, but at least 1 and at most 64.
pub proof fn law_chunk_size(n: usize, threads: usize, chunks: int, r: usize)
    requires
        call_ensures(parallel::chunk_size, (n, threads), r),
        chunks == (if threads == 0 {
            1
        } else if 4 * threads > usize::MAX {
            usize::MAX as int
        } else {
            4 * threads
        }),
    ensures
        1 <= r <= 64,
        r < 64 ==> r * chunks >= n,
        r > 1 ==> (r - 1) * chunks < n,
{
    let c = (n + chunks - 1) / chunks;
    lemma_fundamental_div_mod(n + chunks - 1, chunks);
    lemma_mod_bound(n + chunks - 1, chunks);
    assert(c * chunks >= n && (c - 1) * chunks < n) by (nonlinear_arith)
        requires
            n + chunks - 1 == chunks * c + (n + chunks - 1) % chunks,
            0 <= (n + chunks - 1) % chunks < chunks,
    ;
    let x = r as int;
    if c > 64 {
        assert((x - 1) * chunks < n) by (nonlinear_arith)
            requires
                x < c,
                (c - 1) * chunks < n,
                chunks >= 1,
        ;
    }
    if c < 1 {
        assert(x * chunks >= n) by (nonlinear_arith)
            requires
                c * chunks >= n,
                c < x,
                chunks >= 1,
        ;
    }
}

/// The value of the digits of a label is additive in the label.
pub proof fn law_projections_add(
    label1: &[i64],
    label2: &[i64],
    label: &[i64],
    profile: &Profile,
    r1: Vec<i128>,
    r2: Vec<i128>,
    r: Vec<i128>,
    j: int,
)
    requires
        profile.wf(),
        call_ensures(hvc::proj_label_zz_with_profile, (label1, profile), r1),
        call_ensures(hvc::proj_label_zz_with_profile, (label2, profile), r2),
        call_ensures(hvc::proj_label_zz_with_profile, (label, profile), r),
        forall|i: int|
            0 <= i < profile.omega * profile.kappa * profile.d ==> #[trigger] label@[i]
                == label1@[i] + label2@[i],
        0 <= j < profile.omega * profile.d,
    ensures
        r1@.len() == r2@.len() == r@.len() == profile.omega * profile.d,
        r@[j] == r1@[j] + r2@[j],
{
    let d = profile.d as nat;
    let kappa = profile.kappa as int;
    let base = 2 * profile.eta + 1;
    let row = j / (d as int);
    let i = j % (d as int);
    weighted::lemma_position(j, profile.omega as nat, d);
    let f1 = |k: int| label1@[(row * kappa + k) * d + i] * pow(base, k as nat);
    let f2 = |k: int| label2@[(row * kappa + k) * d + i] * pow(base, k as nat);
    let f = |k: int| label@[(row * kappa + k) * d + i] * pow(base, k as nat);
    assert forall|k: int| 0 <= k < kappa implies #[trigger] f(k) == f1(k) + f2(k) by {
        laws::lemma_label_index(row, k, i, profile.omega as int, kappa, d as int);
        let at = (row * kappa + k) * d + i;
        let x = label1@[at] as int;
        let y = label2@[at] as int;
        let p = pow(base, k as nat);
        assert(label@[at] == x + y);
        assert((x + y) * p == x * p + y * p) by (nonlinear_arith);
    }
    ring::lemma_sum_add(kappa as nat, f1, f2, f);
}

/// A label with one digit that is not zero: digit `k` of coefficient `i` of polynomial `row` has the
/// weight `(2 eta + 1)^k` there, and counts nowhere else.
pub proof fn law_projection_of_one_digit(
    label: &[i64],
    profile: &Profile,
    r: Vec<i128>,
    row: int,
    k: int,
    i: int,
    j: int,
)
    requires
        profile.wf(),
        call_ensures(hvc::proj_label_zz_with_profile, (label, profile), r),
        0 <= row < profile.omega,
        0 <= k < profile.kappa,
        0 <= i < profile.d,
        forall|at: int|
            0 <= at < profile.omega * profile.kappa * profile.d && at != (row * profile.kappa + k)
                * profile.d + i ==> #[trigger] label@[at] == 0,
        0 <= j < profile.omega * profile.d,
    ensures
        r@.len() == profile.omega * profile.d,
        r@[j] == (if j == row * profile.d + i {
            label@[(row * profile.kappa + k) * profile.d + i] * pow(2 * profile.eta + 1, k as nat)
        } else {
            0
        }),
{
    let d = profile.d as nat;
    let kappa = profile.kappa as int;
    let base = 2 * profile.eta + 1;
    let row2 = j / (d as int);
    let i2 = j % (d as int);
    weighted::lemma_position(j, profile.omega as nat, d);
    let f = |x: int| label@[(row2 * kappa + x) * d + i2] * pow(base, x as nat);
    let z = |x: int| 0int;
    ring::lemma_sum_zero(kappa as nat, z);
    assert forall|x: int|
        0 <= x < kappa && !(row2 == row && i2 == i && x == k) implies #[trigger] f(x) == z(x) by {
        laws::lemma_label_index(row2, x, i2, profile.omega as int, kappa, d as int);
        weighted::lemma_flat(row2 * kappa + x, i2, d as int);
        weighted::lemma_flat(row * kappa + k, i, d as int);
        weighted::lemma_flat(row2, x, kappa);
        weighted::lemma_flat(row, k, kappa);
        let p = pow(base, x as nat);
        assert(0 * p == 0) by (nonlinear_arith);
    }
    if j == row * d + i {
        weighted::lemma_flat(row, i, d as int);
        ring::lemma_sum_update(kappa as nat, z, f, k);
    } else {
        ring::lemma_sum_ext(kappa as nat, f, z);
    }
}

/// The two projections of a label: the one as residues holds the residues of the other.
pub proof fn law_projections_agree(
    label: &[i64],
    profile: &Profile,
    zz: Vec<i128>,
    r: Vec<i64>,
    j: int,
)
    requires
        profile.wf(),
        call_ensures(hvc::proj_label_zz_with_profile, (label, profile), zz),
        call_ensures(hvc::proj_label_with_profile, (label, profile), r),
        0 <= j < profile.omega * profile.d,
    ensures
        r@.len() == zz@.len() == profile.omega * profile.d,
        0 <= r@[j] < profile.hvc_modulus(),
        r@[j] as int % profile.hvc_modulus() == zz@[j] as int % profile.hvc_modulus(),
{
    profile.lemma_modulus();
    arith::lemma_cong_residue(zz@[j] as int, profile.hvc_modulus());
}

/// The modulus of the one-time signatures is that of the first of the three rings that there is:
/// the one without a transform, the large one, the small one.
pub proof fn law_moduli(profile: &Profile, q_kots: u64, q_hvc: u64)
    requires
        call_ensures(Profile::q_kots, (profile,), q_kots),
        call_ensures(Profile::q_hvc, (profile,), q_hvc),
    ensures
        profile.kots_crt matches Some(cfg) ==> q_kots == cfg.q,
        profile.kots_crt is None ==> (profile.kots_ring64 matches Some(rp) ==> q_kots
            == rp.modulus()),
        profile.kots_crt is None && profile.kots_ring64 is None ==> (
        profile.kots_ring matches Some(rp) ==> q_kots == rp.modulus()),
        q_hvc == (match profile.hvc_ring {
            HvcRing::U32(rp) => rp.modulus(),
            HvcRing::U64(rp) => rp.modulus(),
        }),
{
}

/// There is a ring with a transform exactly where the modulus is odd, above 2 and below `2^62`, the
/// size a power of two of at most `2^20`, and the root one of `X^d + 1`.
pub proof fn law_ring_exists(
    q: u64,
    d: usize,
    psi: u64,
    r: Option<RingParams64>,
)
    requires
        call_ensures(RingParams64::new, (q, d, psi), r),
    ensures
        r is Some <==> 2 < q < 0x4000_0000_0000_0000 && q % 2 == 1 && (exists|l: nat|
            d == #[trigger] pow2(l)) && d <= 0x10_0000 && pow(psi as int, d as nat) % (q as int)
            == q - 1,
        r matches Some(rp) ==> rp.wf() && rp.modulus() == q && rp.size() == d,
{
    if r is Some {
        assert(ntt::is_power_of_two(d as int));
    }
}

/// There is a ring of a small modulus exactly where there is one of the same modulus, size and root
/// among the large ones.
pub proof fn law_small_ring_exists(
    q: u32,
    d: usize,
    psi: u32,
    small: Option<RingParams>,
    large: Option<RingParams64>,
)
    requires
        call_ensures(RingParams::new, (q, d, psi), small),
        call_ensures(RingParams64::new, (q as u64, d, psi as u64), large),
    ensures
        small is Some <==> large is Some,
        small matches Some(rp) ==> rp.wf() && rp.modulus() == q && rp.size() == d,
{
}

/// The auxiliary primes have the headroom for a number of products, at least one, exactly where the
/// largest sum of products of centered polynomials is at most half their product.
pub proof fn law_backend_exists(
    q: u64,
    d: usize,
    terms: usize,
    count: int,
    r: Option<CrtBackend>,
)
    requires
        call_ensures(CrtBackend::new_for_accum, (q, d, terms), r),
        count == (if terms == 0 {
            1
        } else {
            terms as int
        }),
    ensures
        r is Some <==> 1 <= q < 0x4000_0000_0000_0000 && q / 2 < aux_ntt::AUX_PRIME_2 && (exists|
            l: nat,
        |
            d == #[trigger] pow2(l)) && d <= 1024 && count * (d * ((q / 2) * (q / 2)))
            <= aux_ntt::AUX_PRODUCT / 2,
        r matches Some(b) ==> b.wf() && b.modulus() == q && b.size() == d && b.terms() == count,
{
    if r is Some {
        assert(ntt::is_power_of_two(d as int));
    }
}

/// A number below 10 is one digit in decimal, and every digit that is appended to a number goes
/// behind its digits.
pub proof fn law_decimal(n: nat, digit: nat)
    requires
        digit < 10,
    ensures
        n == 0 ==> text::decimal(digit) == seq![(48 + digit) as char],
        n > 0 ==> text::decimal(10 * n + digit) == text::decimal(n).push((48 + digit) as char),
{
}

/// Weights and signatures go in pairs: the weighted sum of more of the one than of the other is that
/// of as many as there are of both.
pub proof fn law_kots_z_in_pairs<H: Hvc>(
    ws1: &[Vec<i64>],
    sigs1: &[LemurSig<H>],
    ws: &[Vec<i64>],
    sigs: &[LemurSig<H>],
    profile: &Profile,
    r1: Vec<i64>,
    r: Vec<i64>,
)
    requires
        call_ensures(bench_internals::aggregate_kots_z::<H>, (ws1, sigs1, profile), r1),
        call_ensures(bench_internals::aggregate_kots_z::<H>, (ws, sigs, profile), r),
        ws1@.len() == sigs1@.len(),
        ws1@.len() == ws@.len() || sigs1@.len() == sigs@.len(),
        ws1@.len() <= ws@.len(),
        sigs1@.len() <= sigs@.len(),
        ws1@ == ws@.take(ws1@.len() as int),
        sigs1@ == sigs@.take(sigs1@.len() as int),
    ensures
        r@ == r1@,
{
    let n = ws1@.len() as int;
    let wv = weighted::views(ws@);
    let zv = combine::z_views(sigs@);
    let w1 = weighted::views(ws1@);
    let z1 = combine::z_views(sigs1@);
    assert(combine::pairs(wv, zv) == n);
    assert(wv.take(n) =~= w1);
    assert(zv.take(n) =~= z1);
    assert(w1.take(n) =~= w1);
    assert(z1.take(n) =~= z1);
    scheme_laws::lemma_signed_injective(r@, r1@);
}

/// A parameter set is valid exactly where its rings have its size, there is a ring for the one-time
/// signatures, the auxiliary primes have the headroom for it where it has no transform, and the
/// bounds and the products of the sizes fit.
pub proof fn law_validate(profile: &Profile, r: bool)
    requires
        call_ensures(Profile::validate, (profile,), r),
    ensures
        r <==> {
            &&& (match profile.hvc_ring {
                HvcRing::U32(rp) => rp.size(),
                HvcRing::U64(rp) => rp.size(),
            }) == profile.d
            &&& (profile.kots_ring matches Some(rp) ==> rp.size() == profile.d)
            &&& (profile.kots_ring64 matches Some(rp) ==> rp.size() == profile.d)
            &&& (profile.kots_crt matches Some(cfg) ==> cfg.d == profile.d && 1 <= cfg.q
                < 0x4000_0000_0000_0000 && cfg.q / 2 < aux_ntt::AUX_PRIME_2 && (exists|l: nat|
                cfg.d == #[trigger] pow2(l)) && cfg.d <= 1024 && cfg.d * ((cfg.q / 2) * (cfg.q / 2))
                <= aux_ntt::AUX_PRODUCT / 2)
            &&& (profile.kots_crt is Some || profile.kots_ring64 is Some
                || profile.kots_ring is Some)
            &&& profile.alpha_w <= profile.d
            &&& 0 <= profile.beta_z
            &&& 1 <= profile.eta < 0x4000_0000
            &&& pow(2 * profile.eta + 1, profile.kappa as nat) <= 0x4000_0000_0000_0000
            &&& profile.m * profile.d <= usize::MAX
            &&& profile.omega * profile.kappa * profile.d <= usize::MAX
            &&& profile.omega * profile.d <= usize::MAX
        },
{
    if let Some(cfg) = profile.kots_crt {
        let x = cfg.d * ((cfg.q / 2) * (cfg.q / 2));
        assert(1 * x == x);
        if exists|l: nat| cfg.d == #[trigger] pow2(l) {
            assert(ntt::is_power_of_two(cfg.d as int));
        }
    }
}

/// Of more signers no step is repeated more often, and every step is measured at least once.
pub proof fn law_repetitions_fall(
    n1: usize,
    n2: usize,
    r1: bench_internals::Repetitions,
    r2: bench_internals::Repetitions,
)
    requires
        n1 <= n2,
        call_ensures(bench_internals::repetitions, (n1,), r1),
        call_ensures(bench_internals::repetitions, (n2,), r2),
    ensures
        1 <= r2.preverify <= r1.preverify,
        1 <= r2.steps <= r1.steps,
        1 <= r2.avrfy <= r1.avrfy,
        1 <= r2.aggregate <= r1.aggregate,
        1 <= r2.concat <= r1.concat,
{
}

/// A ring tells the modulus and the size that it was made with.
pub proof fn law_ring_tells_its_parts(
    q: u64,
    d: usize,
    psi: u64,
    rp: RingParams64,
    told_q: u64,
    told_d: usize,
    small_q: u32,
    small_psi: u32,
    small: RingParams,
    small_told_q: u64,
    small_told_d: usize,
)
    requires
        call_ensures(RingParams64::new, (q, d, psi), Some(rp)),
        call_ensures(RingParams64::q, (&rp,), told_q),
        call_ensures(RingParams64::d, (&rp,), told_d),
        call_ensures(RingParams::new, (small_q, d, small_psi), Some(small)),
        call_ensures(RingParams::q, (&small,), small_told_q),
        call_ensures(RingParams::d, (&small,), small_told_d),
    ensures
        told_q == q,
        told_d == d,
        small_told_q == small_q,
        small_told_d == d,
{
}

/// A backend tells the modulus and the size that it was made with, and the backends of a
/// configuration are those of its modulus and size.
pub proof fn law_backend_tells_its_parts(
    cfg: CrtConfig,
    terms: usize,
    backend: CrtBackend,
    told_q: u64,
    told_d: usize,
    single: CrtBackend,
    single_q: u64,
    single_d: usize,
)
    requires
        call_ensures(CrtConfig::backend_for_accum, (&cfg, terms), backend),
        call_ensures(CrtBackend::q, (&backend,), told_q),
        call_ensures(CrtBackend::d, (&backend,), told_d),
        call_ensures(CrtConfig::backend, (&cfg,), single),
        call_ensures(CrtBackend::q, (&single,), single_q),
        call_ensures(CrtBackend::d, (&single,), single_d),
    ensures
        told_q == single_q == cfg.q,
        told_d == single_d == cfg.d,
        backend.wf() && backend.terms() == terms,
        single.wf() && single.terms() == 1,
{
}

/// A parameter set tells its own rings.
pub proof fn law_profile_tells_its_rings(
    profile: &Profile,
    crt: Option<CrtConfig>,
    large: Option<&RingParams64>,
)
    requires
        call_ensures(Profile::kots_crt, (profile,), crt),
        call_ensures(HvcRing::as_u64, (&profile.hvc_ring,), large),
    ensures
        crt == profile.kots_crt,
        profile.hvc_ring is U32 ==> large is None,
        profile.hvc_ring matches HvcRing::U64(rp) ==> large == Some(&rp),
{
}

} // verus!
