//! Little-endian bytes.

use crate::ring;
use vstd::arithmetic::div_mod::*;
use vstd::arithmetic::power::*;
use vstd::prelude::*;

verus! {

/// The eight bytes of a number below `2^64`, the lowest first.
pub open spec fn le_bytes(x: int) -> Seq<u8> {
    Seq::new(8, |i: int| ((x / pow(256, i as nat)) % 256) as u8)
}

/// The number below `2^64` with the bits of a signed one.
pub open spec fn bits(x: i64) -> int {
    if x < 0 {
        x + 0x1_0000_0000_0000_0000
    } else {
        x as int
    }
}

/// The number that eight bytes from `off` on hold, the lowest first.
pub open spec fn le_number(s: Seq<u8>, off: int) -> int {
    ring::sum(8, |i: int| s[off + i] * pow(256, i as nat))
}

/// The bytes of a vector of signed numbers, eight for each.
pub open spec fn vector_bytes(v: Seq<i64>) -> Seq<u8>
    decreases v.len(),
{
    if v.len() == 0 {
        Seq::empty()
    } else {
        vector_bytes(v.drop_last()) + le_bytes(bits(v.last()))
    }
}

/// The low `k` bytes of a number hold its residue modulo `256^k`.
proof fn lemma_low_bytes(x: int, k: nat)
    requires
        0 <= x,
        k <= 8,
    ensures
        ring::sum(k, |i: int| le_bytes(x)[0 + i] * pow(256, i as nat)) == x % pow(256, k),
    decreases k,
{
    lemma_pow_positive(256, k);
    if k == 0 {
        lemma_pow0(256);
        assert(x % 1 == 0);
    } else {
        let j = (k - 1) as nat;
        let p = pow(256, j);
        lemma_low_bytes(x, j);
        lemma_pow_positive(256, j);
        lemma_pow_adds(256, j, 1);
        lemma_pow1(256);
        lemma_mod_breakdown(x, p, 256);
        let b = (x / p) % 256;
        assert(le_bytes(x)[0 + j as int] as int == b);
        assert(p * b == b * p) by (nonlinear_arith);
    }
}

/// The eight bytes of a number hold the number.
pub proof fn lemma_le_round_trip(x: int)
    requires
        0 <= x < 0x1_0000_0000_0000_0000,
    ensures
        le_number(le_bytes(x), 0) == x,
{
    lemma_low_bytes(x, 8);
    reveal_with_fuel(pow, 9);
    assert(pow(256, 8) == 0x1_0000_0000_0000_0000);
    lemma_small_mod(x as nat, 0x1_0000_0000_0000_0000);
}

/// The bytes of a vector are eight for each entry.
pub proof fn lemma_vector_bytes_len(v: Seq<i64>)
    ensures
        vector_bytes(v).len() == 8 * v.len(),
    decreases v.len(),
{
    if v.len() > 0 {
        lemma_vector_bytes_len(v.drop_last());
    }
}

/// Vectors of one length with the same bytes are the same.
pub proof fn lemma_vector_bytes_injective(v: Seq<i64>, w: Seq<i64>)
    requires
        v.len() == w.len(),
        vector_bytes(v) == vector_bytes(w),
    ensures
        v == w,
    decreases v.len(),
{
    if v.len() > 0 {
        let v0 = v.drop_last();
        let w0 = w.drop_last();
        let n = (8 * v0.len()) as int;
        lemma_vector_bytes_len(v0);
        lemma_vector_bytes_len(w0);
        let s = vector_bytes(v);
        assert(s.subrange(0, n) =~= vector_bytes(v0));
        assert(s.subrange(0, n) =~= vector_bytes(w0));
        assert(s.subrange(n, n + 8) =~= le_bytes(bits(v.last())));
        assert(s.subrange(n, n + 8) =~= le_bytes(bits(w.last())));
        lemma_le_round_trip(bits(v.last()));
        lemma_le_round_trip(bits(w.last()));
        lemma_vector_bytes_injective(v0, w0);
        assert(v =~= v0.push(v.last()));
        assert(w =~= w0.push(w.last()));
    } else {
        assert(v =~= w);
    }
}

/// Appends the bytes of a number.
pub(crate) fn push_le(out: &mut Vec<u8>, x: u64)
    ensures
        final(out)@ == old(out)@ + le_bytes(x as int),
{
    let ghost s = out@;
    let mut y: u64 = x;
    let mut i: usize = 0;
    proof {
        lemma_pow0(256);
        lemma_div_basics(x as int);
    }
    while i < 8
        invariant
            i <= 8,
            y == x as int / pow(256, i as nat),
            out@ == s + le_bytes(x as int).take(i as int),
        decreases 8 - i,
    {
        proof {
            let p = pow(256, i as nat);
            lemma_pow_adds(256, i as nat, 1);
            lemma_pow1(256);
            lemma_pow_positive(256, i as nat);
            lemma_div_denominator(x as int, p, 256);
            let b = le_bytes(x as int);
            assert(b.take(i + 1) =~= b.take(i as int).push(b[i as int]));
        }
        let b: u8 = (y % 256) as u8;
        out.push(b);
        y = y / 256;
        i += 1;
        assert(out@ =~= s + le_bytes(x as int).take(i as int));
    }
    assert(le_bytes(x as int).take(8) =~= le_bytes(x as int));
}

/// Appends the bytes of a vector of signed numbers.
pub(crate) fn push_vector(out: &mut Vec<u8>, v: &Vec<i64>)
    ensures
        final(out)@ == old(out)@ + vector_bytes(v@),
{
    let ghost s = out@;
    let mut i: usize = 0;
    assert(v@.take(0) =~= Seq::<i64>::empty());
    assert(out@ =~= s + vector_bytes(v@.take(0)));
    while i < v.len()
        invariant
            i <= v@.len(),
            out@ == s + vector_bytes(v@.take(i as int)),
        decreases v@.len() - i,
    {
        let x: i64 = v[i];
        let u: u64 = if x >= 0 {
            x as u64
        } else {
            u64::MAX - (-(x + 1)) as u64
        };
        push_le(out, u);
        proof {
            let t = v@.take(i + 1);
            assert(t.drop_last() =~= v@.take(i as int));
            assert(t.last() == x);
            assert(out@ =~= s + vector_bytes(t));
        }
        i += 1;
    }
    assert(v@.take(v@.len() as int) =~= v@);
}

/// The number that eight bytes from `off` on hold.
pub(crate) fn read_le(s: &[u8], off: usize) -> (r: u64)
    requires
        off + 8 <= s@.len(),
    ensures
        r == le_number(s@, off as int),
{
    let ghost f = |i: int| s@[off + i] * pow(256, i as nat);
    let mut r: u64 = 0;
    let mut p: u128 = 1;
    let mut i: usize = 0;
    proof {
        lemma_pow0(256);
        reveal_with_fuel(pow, 9);
        assert(pow(256, 8) == 0x1_0000_0000_0000_0000);
        assert(s.len() == s@.len());
    }
    while i < 8
        invariant
            i <= 8,
            off + 8 <= s@.len() <= usize::MAX,
            f == (|i: int| s@[off + i] * pow(256, i as nat)),
            pow(256, 8) == 0x1_0000_0000_0000_0000,
            p == pow(256, i as nat),
            r == ring::sum(i as nat, f),
            r < p,
        decreases 8 - i,
    {
        let x: u8 = s[off + i];
        proof {
            lemma_pow_adds(256, i as nat, 1);
            lemma_pow1(256);
            lemma_pow_increases(256, (i + 1) as nat, 8);
            assert(x * p <= 255 * p) by (nonlinear_arith)
                requires
                    0 <= x <= 255,
                    0 <= p,
            ;
        }
        r = r + ((x as u128) * p) as u64;
        p = p * 256;
        i += 1;
    }
    r
}

} // verus!
