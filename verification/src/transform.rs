//! The number-theoretic transform of the negacyclic ring modulo `q`.
//!
//! `X^n - c` splits into `(X^h - r)(X^h + r)` where `n = 2 h` and `r r = c`.  Splitting
//! `X^d + 1` until every factor is linear maps a polynomial to `d` residues, and turns
//! products of polynomials into products of residues.

use crate::arith;
use crate::ring;
use vstd::arithmetic::power2::*;
use vstd::prelude::*;

verus! {

/// The constant `c` of the factor `X^n - c` at a node of the splitting tree.  Node 1 is the
/// root; node `k` has the children `2 k` and `2 k + 1`, and splits by the root `z[k]`.
pub open spec fn tree_const(z: Seq<int>, node: int) -> int {
    if node <= 1 {
        -1
    } else if node % 2 == 0 {
        z[node / 2]
    } else {
        -z[node / 2]
    }
}

/// `z[node]` is a square root of the constant of the node.
pub open spec fn root_ok(z: Seq<int>, node: int, q: int) -> bool {
    arith::cong(z[node] * z[node], tree_const(z, node), q)
}

/// `z` holds a square root of the constant of every inner node of the tree.
pub open spec fn roots_ok(z: Seq<int>, q: int) -> bool {
    forall|node: int| 1 <= node < z.len() ==> #[trigger] root_ok(z, node, q)
}

/// `a` folded down the `lv` levels of the tree below `node`.
pub open spec fn transform(a: Seq<int>, z: Seq<int>, node: int, lv: nat) -> Seq<int>
    decreases lv,
{
    if lv == 0 {
        a
    } else {
        transform(ring::fold(a, z[node]), z, 2 * node, (lv - 1) as nat) + transform(
            ring::fold(a, -z[node]),
            z,
            2 * node + 1,
            (lv - 1) as nat,
        )
    }
}

/// `node` is a node with `lv` levels below it in a tree of which `z` holds the roots.
pub open spec fn at_level(z: Seq<int>, node: int, lv: nat) -> bool {
    node >= 1 && (node + 1) * pow2(lv) <= 2 * z.len()
}

pub proof fn lemma_at_level_child(z: Seq<int>, node: int, lv: nat)
    requires
        at_level(z, node, lv),
        lv > 0,
    ensures
        at_level(z, 2 * node, (lv - 1) as nat),
        at_level(z, 2 * node + 1, (lv - 1) as nat),
        1 <= node < z.len(),
        pow2(lv) == 2 * pow2((lv - 1) as nat),
{
    lemma_pow2_unfold(lv);
    let p = pow2((lv - 1) as nat) as int;
    lemma_pow2_pos((lv - 1) as nat);
    assert((node + 1) * (2 * p) == (2 * node + 2) * p) by (nonlinear_arith);
    assert((2 * node + 1) * p <= (2 * node + 2) * p) by (nonlinear_arith)
        requires
            p > 0,
    ;
    assert(2 * (node + 1) <= (2 * node + 2) * p) by (nonlinear_arith)
        requires
            p > 0,
            node >= 1,
    ;
}

pub proof fn lemma_transform_len(a: Seq<int>, z: Seq<int>, node: int, lv: nat)
    requires
        a.len() == pow2(lv),
    ensures
        transform(a, z, node, lv).len() == pow2(lv),
    decreases lv,
{
    if lv > 0 {
        lemma_pow2_unfold(lv);
        lemma_transform_len(ring::fold(a, z[node]), z, 2 * node, (lv - 1) as nat);
        lemma_transform_len(ring::fold(a, -z[node]), z, 2 * node + 1, (lv - 1) as nat);
    }
}

/// The transform respects congruence.
pub proof fn lemma_transform_cong(a: Seq<int>, b: Seq<int>, z: Seq<int>, node: int, lv: nat, q: int)
    requires
        q > 0,
        a.len() == pow2(lv),
        ring::poly_cong(a, b, q),
    ensures
        ring::poly_cong(transform(a, z, node, lv), transform(b, z, node, lv), q),
    decreases lv,
{
    if lv > 0 {
        lemma_pow2_unfold(lv);
        let l = (lv - 1) as nat;
        let r = z[node];
        ring::lemma_fold_cong(a, b, r, q);
        ring::lemma_fold_cong(a, b, -r, q);
        lemma_transform_cong(ring::fold(a, r), ring::fold(b, r), z, 2 * node, l, q);
        lemma_transform_cong(ring::fold(a, -r), ring::fold(b, -r), z, 2 * node + 1, l, q);
        lemma_transform_len(ring::fold(a, r), z, 2 * node, l);
        lemma_transform_len(ring::fold(b, r), z, 2 * node, l);
    }
}

/// The transform is additive.
pub proof fn lemma_transform_plus(a: Seq<int>, b: Seq<int>, z: Seq<int>, node: int, lv: nat)
    requires
        a.len() == pow2(lv),
        b.len() == pow2(lv),
    ensures
        transform(ring::plus(a, b), z, node, lv) == ring::plus(
            transform(a, z, node, lv),
            transform(b, z, node, lv),
        ),
    decreases lv,
{
    if lv > 0 {
        lemma_pow2_unfold(lv);
        let l = (lv - 1) as nat;
        let r = z[node];
        ring::lemma_fold_plus(a, b, r);
        ring::lemma_fold_plus(a, b, -r);
        lemma_transform_plus(ring::fold(a, r), ring::fold(b, r), z, 2 * node, l);
        lemma_transform_plus(ring::fold(a, -r), ring::fold(b, -r), z, 2 * node + 1, l);
        lemma_transform_len(ring::fold(a, r), z, 2 * node, l);
        lemma_transform_len(ring::fold(b, r), z, 2 * node, l);
        lemma_transform_len(ring::fold(a, -r), z, 2 * node + 1, l);
        lemma_transform_len(ring::fold(b, -r), z, 2 * node + 1, l);
    }
    assert(transform(ring::plus(a, b), z, node, lv) =~= ring::plus(
        transform(a, z, node, lv),
        transform(b, z, node, lv),
    ));
}

/// The transform of zero is zero.
pub proof fn lemma_transform_zero(z: Seq<int>, node: int, lv: nat)
    ensures
        transform(ring::zero(pow2(lv)), z, node, lv) == ring::zero(pow2(lv)),
    decreases lv,
{
    if lv > 0 {
        lemma_pow2_unfold(lv);
        let l = (lv - 1) as nat;
        let r = z[node];
        assert(r * 0 == 0) by (nonlinear_arith);
        assert((-r) * 0 == 0) by (nonlinear_arith);
        assert(ring::fold(ring::zero(pow2(lv)), r) =~= ring::zero(pow2(l)));
        assert(ring::fold(ring::zero(pow2(lv)), -r) =~= ring::zero(pow2(l)));
        lemma_transform_zero(z, 2 * node, l);
        lemma_transform_zero(z, 2 * node + 1, l);
    }
    assert(transform(ring::zero(pow2(lv)), z, node, lv) =~= ring::zero(pow2(lv)));
}

/// Pointwise products.
pub open spec fn pointwise(a: Seq<int>, b: Seq<int>) -> Seq<int> {
    Seq::new(a.len(), |i: int| a[i] * b[i])
}

proof fn lemma_transform_product_one(a: Seq<int>, b: Seq<int>, c: int, q: int)
    requires
        a.len() == pow2(0),
        b.len() == pow2(0),
    ensures
        ring::poly_cong(ring::product(a, b, c), pointwise(a, b), q),
{
    lemma2_to64();
    reveal_with_fuel(ring::sum, 2);
    assert(ring::product(a, b, c)[0] == a[0] * b[0]);
}

/// The transform turns products of the ring at a node into pointwise products.
pub proof fn lemma_transform_product(
    a: Seq<int>,
    b: Seq<int>,
    z: Seq<int>,
    node: int,
    lv: nat,
    q: int,
)
    requires
        q > 0,
        roots_ok(z, q),
        at_level(z, node, lv),
        a.len() == pow2(lv),
        b.len() == pow2(lv),
    ensures
        ring::poly_cong(
            transform(ring::product(a, b, tree_const(z, node)), z, node, lv),
            pointwise(transform(a, z, node, lv), transform(b, z, node, lv)),
            q,
        ),
    decreases lv,
{
    let c = tree_const(z, node);
    let p = ring::product(a, b, c);
    if lv == 0 {
        lemma_transform_product_one(a, b, c, q);
    } else {
        lemma_at_level_child(z, node, lv);
        let l = (lv - 1) as nat;
        let h = pow2(l);
        let r = z[node];
        assert(root_ok(z, node, q));
        lemma_transform_branch(a, b, z, node, lv, r, 2 * node, q);
        assert((-r) * (-r) == r * r) by (nonlinear_arith);
        lemma_transform_branch(a, b, z, node, lv, -r, 2 * node + 1, q);
        lemma_transform_product(ring::fold(a, r), ring::fold(b, r), z, 2 * node, l, q);
        lemma_transform_product(ring::fold(a, -r), ring::fold(b, -r), z, 2 * node + 1, l, q);
        let lo = transform(ring::fold(p, r), z, 2 * node, l);
        let hi = transform(ring::fold(p, -r), z, 2 * node + 1, l);
        let alo = transform(ring::fold(a, r), z, 2 * node, l);
        let blo = transform(ring::fold(b, r), z, 2 * node, l);
        let ahi = transform(ring::fold(a, -r), z, 2 * node + 1, l);
        let bhi = transform(ring::fold(b, -r), z, 2 * node + 1, l);
        lemma_transform_len(ring::fold(a, r), z, 2 * node, l);
        lemma_transform_len(ring::fold(b, r), z, 2 * node, l);
        let plo = transform(
            ring::product(ring::fold(a, r), ring::fold(b, r), r),
            z,
            2 * node,
            l,
        );
        let phi = transform(
            ring::product(ring::fold(a, -r), ring::fold(b, -r), -r),
            z,
            2 * node + 1,
            l,
        );
        lemma_join(lo, plo, pointwise(alo, blo), hi, phi, pointwise(ahi, bhi), q);
        assert(pointwise(alo + ahi, blo + bhi) =~= pointwise(alo, blo) + pointwise(ahi, bhi)) by {
            lemma_transform_len(ring::fold(a, -r), z, 2 * node + 1, l);
            lemma_transform_len(ring::fold(b, -r), z, 2 * node + 1, l);
        }
    }
}

/// Congruence of two halves, each in two steps.
proof fn lemma_join(
    x0: Seq<int>,
    y0: Seq<int>,
    z0: Seq<int>,
    x1: Seq<int>,
    y1: Seq<int>,
    z1: Seq<int>,
    q: int,
)
    requires
        ring::poly_cong(x0, y0, q),
        ring::poly_cong(y0, z0, q),
        ring::poly_cong(x1, y1, q),
        ring::poly_cong(y1, z1, q),
    ensures
        ring::poly_cong(x0 + x1, z0 + z1, q),
{
    assert forall|j: int| 0 <= j < (x0 + x1).len() implies arith::cong(
        #[trigger] (x0 + x1)[j],
        (z0 + z1)[j],
        q,
    ) by {
        if j < x0.len() {
            assert(arith::cong(x0[j], y0[j], q));
            assert(arith::cong(y0[j], z0[j], q));
        } else {
            let i = j - x0.len();
            assert(arith::cong(x1[i], y1[i], q));
            assert(arith::cong(y1[i], z1[i], q));
        }
    }
}

/// One branch of a node: folding a product of the node's ring gives the product of the
/// branch's ring, up to congruence.
proof fn lemma_transform_branch(
    a: Seq<int>,
    b: Seq<int>,
    z: Seq<int>,
    node: int,
    lv: nat,
    r: int,
    child: int,
    q: int,
)
    requires
        q > 0,
        lv > 0,
        a.len() == pow2(lv),
        b.len() == pow2(lv),
        arith::cong(r * r, tree_const(z, node), q),
    ensures
        ring::poly_cong(
            transform(ring::fold(ring::product(a, b, tree_const(z, node)), r), z, child, (lv - 1) as nat),
            transform(ring::product(ring::fold(a, r), ring::fold(b, r), r), z, child, (lv - 1) as nat),
            q,
        ),
{
    let c = tree_const(z, node);
    let l = (lv - 1) as nat;
    lemma_pow2_unfold(lv);
    let h = pow2(l);
    ring::lemma_product_cong(a, a, b, b, c, r * r, q);
    ring::lemma_fold_cong(ring::product(a, b, c), ring::product(a, b, r * r), r, q);
    ring::lemma_fold_product(a, b, r, h);
    lemma_transform_cong(
        ring::fold(ring::product(a, b, c), r),
        ring::product(ring::fold(a, r), ring::fold(b, r), r),
        z,
        child,
        l,
        q,
    );
}

} // verus!
