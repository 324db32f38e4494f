//! The randomizers of an aggregation.

use crate::bytes;
use crate::bytes::{push_le, read_le};
use crate::ring;
use sha3::digest::ExtendableOutput;
use vstd::arithmetic::power::*;
use vstd::prelude::*;

verus! {

/// How many bytes one draw takes: eight for the position and one for the sign.
pub const DRAW_BYTES: usize = 9;

/// Byte `i` of the output of SHAKE128 on an input.
pub uninterp spec fn shake128_byte(input: Seq<u8>, i: int) -> u8;

/// The first `n` bytes of the output of SHAKE128 on an input.
pub open spec fn shake128_output(input: Seq<u8>, n: nat) -> Seq<u8> {
    Seq::new(n, |i: int| shake128_byte(input, i))
}

/// `Shake128::digest_xof` of sha3: absorbs the input and writes the first bytes of the output
/// into a buffer.  Claimed: the buffer is filled, and each of its bytes is determined by the input
/// and by the position of the byte, however many bytes are asked for.
#[verifier::external_body]
fn shake128(input: &[u8], n: usize) -> (r: Vec<u8>)
    requires
        n <= isize::MAX,
    ensures
        r@.len() == n,
        forall|i: int| 0 <= i < n ==> #[trigger] r@[i] == shake128_byte(input@, i),
{
    let mut output = vec![0u8; n];
    sha3::Shake128::digest_xof(input, &mut output);
    output
}

/// What the randomizers are derived from: the slot, the message, the public keys and the attempt.
pub open spec fn randomizer_input(
    t: usize,
    msg: Seq<u8>,
    pks_bytes: Seq<u8>,
    attempt: usize,
) -> Seq<u8> {
    bytes::le_bytes(t as int) + msg + pks_bytes + bytes::le_bytes(attempt as int)
}

/// The first `n` bytes of the stream that the randomizers are drawn from.
pub fn agg_randomizer_xof(
    t: usize,
    msg: &[u8],
    pks_bytes: &[u8],
    attempt: usize,
    n: usize,
) -> (r: Vec<u8>)
    requires
        n <= isize::MAX,
    ensures
        r@ == shake128_output(randomizer_input(t, msg@, pks_bytes@, attempt), n as nat),
        r@.len() == n,
{
    let mut input: Vec<u8> = Vec::new();
    push_le(&mut input, t as u64);
    input.extend_from_slice(msg);
    input.extend_from_slice(pks_bytes);
    push_le(&mut input, attempt as u64);
    assert(input@ =~= randomizer_input(t, msg@, pks_bytes@, attempt));
    let r = shake128(input.as_slice(), n);
    assert(r@ =~= shake128_output(input@, n as nat));
    r
}

/// Moves the coefficient at `j` to `pos`, and puts a sign in its place.
pub open spec fn placed(c: Seq<i64>, pos: int, j: int, sign: i64) -> Seq<i64> {
    c.update(pos, c[j]).update(j, sign)
}

/// The polynomial of `d` coefficients after `i` of `weight` draws from position `off` of the
/// stream on.  Draw `i` is for the position `pos = d - weight + i`: a number below `pos + 1`, the
/// place of a new coefficient, and a sign; what stood in that place moves to `pos`.
pub open spec fn ternary(stream: Seq<u8>, off: int, i: nat, weight: int, d: nat) -> Seq<i64>
    decreases i,
{
    if i == 0 {
        Seq::new(d, |k: int| 0i64)
    } else {
        let pos = d - weight + i - 1;
        let at = off + DRAW_BYTES * (i - 1);
        placed(
            ternary(stream, off, (i - 1) as nat, weight, d),
            pos,
            bytes::le_number(stream, at) % (pos + 1),
            if stream[at + 8] % 2 == 0 {
                1i64
            } else {
                -1i64
            },
        )
    }
}

/// `n` polynomials drawn one after the other from a stream.
pub open spec fn drawn(stream: Seq<u8>, n: nat, weight: nat, d: nat) -> Seq<Seq<i64>> {
    Seq::new(
        n,
        |s: int| ternary(stream, s * (DRAW_BYTES * weight), weight, weight as int, d),
    )
}

/// Every coefficient is -1, 0 or 1.
pub open spec fn is_ternary(c: Seq<i64>) -> bool {
    forall|k: int| 0 <= k < c.len() ==> -1 <= #[trigger] c[k] <= 1
}

/// After `i` draws the polynomial is ternary, has `i` nonzero coefficients, and is zero from the
/// next position on.
pub proof fn lemma_ternary(stream: Seq<u8>, off: int, i: nat, weight: int, d: nat)
    requires
        i <= weight <= d,
    ensures
        ternary(stream, off, i, weight, d).len() == d,
        is_ternary(ternary(stream, off, i, weight, d)),
        forall|k: int|
            d - weight + i <= k < d ==> #[trigger] ternary(stream, off, i, weight, d)[k] == 0,
        ring::l1_norm(ring::signed(ternary(stream, off, i, weight, d))) == i,
    decreases i,
{
    let r = ternary(stream, off, i, weight, d);
    if i == 0 {
        let s = ring::signed(r);
        ring::lemma_sum_zero(d, |k: int| ring::abs(s[k]));
    } else {
        lemma_ternary(stream, off, (i - 1) as nat, weight, d);
        let c = ternary(stream, off, (i - 1) as nat, weight, d);
        let pos = d - weight + i - 1;
        let at = off + DRAW_BYTES * (i - 1);
        let n = bytes::le_number(stream, at);
        let j = n % (pos + 1);
        assert(0 <= j <= pos) by (nonlinear_arith)
            requires
                j == n % (pos + 1),
                pos >= 0,
        ;
        let m = c.update(pos, c[j]);
        let cs = ring::signed(c);
        let ms = ring::signed(m);
        let rs = ring::signed(r);
        let fc = |k: int| ring::abs(cs[k]);
        let fm = |k: int| ring::abs(ms[k]);
        let fr = |k: int| ring::abs(rs[k]);
        assert(c[pos] == 0);
        assert forall|k: int| 0 <= k < d && k != pos implies #[trigger] fc(k) == fm(k) by {}
        ring::lemma_sum_update(d, fc, fm, pos);
        assert forall|k: int| 0 <= k < d && k != j implies #[trigger] fm(k) == fr(k) by {}
        ring::lemma_sum_update(d, fm, fr, j);
    }
}

/// Streams that agree on the bytes of the draws give the same polynomial.
pub proof fn lemma_ternary_bytes(
    s1: Seq<u8>,
    s2: Seq<u8>,
    off: int,
    i: nat,
    weight: int,
    d: nat,
)
    requires
        forall|k: int| off <= k < off + DRAW_BYTES * i ==> #[trigger] s1[k] == s2[k],
    ensures
        ternary(s1, off, i, weight, d) == ternary(s2, off, i, weight, d),
    decreases i,
{
    if i > 0 {
        lemma_ternary_bytes(s1, s2, off, (i - 1) as nat, weight, d);
        let at = off + DRAW_BYTES * (i - 1);
        let f1 = |k: int| s1[at + k] * pow(256, k as nat);
        let f2 = |k: int| s2[at + k] * pow(256, k as nat);
        assert forall|k: int| 0 <= k < 8 implies #[trigger] f1(k) == f2(k) by {
            assert(s1[at + k] == s2[at + k]);
        }
        ring::lemma_sum_ext(8, f1, f2);
        assert(s1[at + 8] == s2[at + 8]);
    }
}

/// Draws a polynomial of `d` coefficients, `weight` of them nonzero, from position `off` of the
/// stream on.
pub fn xof_ternary_poly(stream: &[u8], off: usize, weight: usize, d: usize) -> (r: Vec<i64>)
    requires
        weight <= d,
        off + DRAW_BYTES * weight <= stream@.len(),
    ensures
        r@ == ternary(stream@, off as int, weight as nat, weight as int, d as nat),
{
    let mut c: Vec<i64> = vec![0i64; d];
    assert(stream.len() == stream@.len());
    assert(c@ =~= ternary(stream@, off as int, 0, weight as int, d as nat));
    let mut i: usize = 0;
    while i < weight
        invariant
            i <= weight <= d,
            off + DRAW_BYTES * weight <= stream@.len() <= usize::MAX,
            c@.len() == d,
            c@ == ternary(stream@, off as int, i as nat, weight as int, d as nat),
        decreases weight - i,
    {
        let pos: usize = d - weight + i;
        let at: usize = off + DRAW_BYTES * i;
        let n: u64 = read_le(stream, at);
        let j: usize = (n % (pos as u64 + 1)) as usize;
        let sign: i64 = if stream[at + 8] % 2 == 0 {
            1
        } else {
            -1
        };
        let moved: i64 = c[j];
        c.set(pos, moved);
        c.set(j, sign);
        i += 1;
    }
    c
}

/// Draws `n` polynomials of `d` coefficients, `weight` of them nonzero, one after the other from
/// a stream.
pub fn draw_all(stream: &[u8], n: usize, weight: usize, d: usize) -> (r: Vec<Vec<i64>>)
    requires
        weight <= d,
        n * (DRAW_BYTES * weight) <= stream@.len(),
    ensures
        r@.len() == n,
        forall|s: int|
            0 <= s < n ==> #[trigger] r@[s]@ == drawn(stream@, n as nat, weight as nat, d as nat)[s],
{
    let mut r: Vec<Vec<i64>> = Vec::new();
    let ghost step = DRAW_BYTES * weight;
    assert(stream.len() == stream@.len());
    assert(0 * step == 0) by (nonlinear_arith);
    let mut off: usize = 0;
    let mut s: usize = 0;
    while s < n
        invariant
            s <= n,
            weight <= d,
            step == DRAW_BYTES * weight,
            n * step <= stream@.len() <= usize::MAX,
            s < n ==> off == s * step,
            r@.len() == s,
            forall|i: int|
                0 <= i < s ==> #[trigger] r@[i]@ == drawn(
                    stream@,
                    n as nat,
                    weight as nat,
                    d as nat,
                )[i],
        decreases n - s,
    {
        proof {
            assert(s * step + step <= n * step) by (nonlinear_arith)
                requires
                    s + 1 <= n,
                    0 <= step,
            ;
            assert((s + 1) * step == s * step + step) by (nonlinear_arith);
        }
        r.push(xof_ternary_poly(stream, off, weight, d));
        off = off + DRAW_BYTES * weight;
        s += 1;
    }
    r
}

} // verus!
