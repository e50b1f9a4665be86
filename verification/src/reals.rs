//! Sums, products and powers of real numbers.

use vstd::prelude::*;

verus! {

/// The real number that a whole number is.
pub open spec fn whole(n: int) -> real {
    n as real
}

/// The product of two reals.
#[verifier::opaque]
pub open spec fn product(a: real, b: real) -> real {
    a * b
}

/// Factors can be exchanged.
pub proof fn lemma_commutes(a: real, b: real)
    ensures
        product(a, b) == product(b, a),
{
    reveal(product);
    assert(a * b == b * a) by (nonlinear_arith);
}

/// Factors can be regrouped.
pub proof fn lemma_regroups(a: real, b: real, c: real)
    ensures
        product(product(a, b), c) == product(a, product(b, c)),
{
    reveal(product);
    assert((a * b) * c == a * (b * c)) by (nonlinear_arith);
}

/// A sum is multiplied term by term.
pub proof fn lemma_distributes(a: real, b: real, c: real)
    ensures
        product(a + b, c) == product(a, c) + product(b, c),
{
    reveal(product);
    assert((a + b) * c == a * c + b * c) by (nonlinear_arith);
}

/// Zero times anything is zero, and one times anything is that.
pub proof fn lemma_zero_and_one(x: real)
    ensures
        product(whole(0), x) == whole(0),
        product(x, whole(0)) == whole(0),
        product(whole(1), x) == x,
{
    reveal(product);
    assert(whole(0) * x == whole(0)) by (nonlinear_arith);
    assert(x * whole(0) == whole(0)) by (nonlinear_arith);
    assert(whole(1) * x == x) by (nonlinear_arith);
}

/// A product that is not zero has no factor that is.
pub proof fn lemma_factor_not_zero(a: real, b: real)
    requires
        product(a, b) > whole(0),
    ensures
        a != whole(0),
{
    if a == whole(0) {
        lemma_zero_and_one(b);
    }
}

/// One weight more, rescaled.
pub proof fn lemma_add_weight(sum: real, p: real, top: real, w: real)
    requires
        product(p, top) == w,
    ensures
        product(sum + p, top) == product(sum, top) + w,
{
    lemma_distributes(sum, p, top);
}

/// One weighed value more, rescaled.
pub proof fn lemma_add_value(sum: real, p: real, v: real, top: real, w: real)
    requires
        product(p, top) == w,
    ensures
        product(sum + product(p, v), top) == product(sum, top) + product(w, v),
{
    lemma_distributes(sum, product(p, v), top);
    lemma_commutes(p, v);
    lemma_regroups(v, p, top);
    lemma_commutes(v, w);
}

/// Two sums, each rescaled to a common top.
pub proof fn lemma_fold(k: real, tk: real, l: real, p: real, top: real, before: real, tile: real)
    requires
        product(k, top) == before,
        product(tk, top) == tile,
    ensures
        product(product(k, l) + product(tk, p), top) == product(l, before) + product(p, tile),
{
    lemma_distributes(product(k, l), product(tk, p), top);
    lemma_commutes(k, l);
    lemma_regroups(l, k, top);
    lemma_commutes(tk, p);
    lemma_regroups(p, tk, top);
}

/// Two means, blended by the sums that they stand for.
pub proof fn lemma_blend(
    o: real,
    l: real,
    v: real,
    k: real,
    tk: real,
    r: real,
    l2: real,
    top: real,
    before: real,
    tile: real,
)
    requires
        product(r, l2) == whole(1),
        product(k, top) == before,
        product(tk, top) == tile,
    ensures
        product(
            product(o, product(product(k, l), r)) + product(v, product(tk, r)),
            product(l2, top),
        ) == product(o, product(l, before)) + product(v, tile),
{
    let kl = product(k, l);
    let all = product(l2, top);
    lemma_distributes(product(o, product(kl, r)), product(v, product(tk, r)), all);
    lemma_regroups(r, l2, top);
    lemma_zero_and_one(top);
    assert(product(r, all) == top);
    lemma_regroups(o, kl, r);
    lemma_regroups(product(o, kl), r, all);
    lemma_regroups(o, kl, top);
    lemma_commutes(k, l);
    lemma_regroups(l, k, top);
    lemma_regroups(v, tk, r);
    lemma_regroups(product(v, tk), r, all);
    lemma_regroups(v, tk, top);
}

/// The sum of `g` over `0..n`.
pub open spec fn sum(n: nat, g: spec_fn(int) -> real) -> real
    decreases n,
{
    if n == 0 {
        whole(0)
    } else {
        sum((n - 1) as nat, g) + g(n - 1)
    }
}

/// The product of `n` times `x`.
pub open spec fn power(x: real, n: nat) -> real
    decreases n,
{
    if n == 0 {
        whole(1)
    } else {
        product(x, power(x, (n - 1) as nat))
    }
}

/// Two sums whose terms are equal are equal.
pub proof fn lemma_same_terms(n: nat, g: spec_fn(int) -> real, h: spec_fn(int) -> real)
    requires
        forall|k: int| 0 <= k < n ==> g(k) == #[trigger] h(k),
    ensures
        sum(n, g) == sum(n, h),
    decreases n,
{
    if n > 0 {
        lemma_same_terms((n - 1) as nat, g, h);
        assert(g(n - 1) == h(n - 1));
    }
}

/// A factor that is positive can be cancelled.
pub proof fn lemma_cancels(a: real, b: real, c: real)
    requires
        product(a, c) == product(b, c),
        whole(0) < c,
    ensures
        a == b,
{
    reveal(product);
    assert(a == b) by (nonlinear_arith)
        requires
            a * c == b * c,
            whole(0) < c,
    ;
}

/// A sign moves out of a product.
pub proof fn lemma_negated_product(a: real, b: real)
    ensures
        product(-a, b) == -product(a, b),
        product(a, -b) == -product(a, b),
        product(-a, -b) == product(a, b),
{
    reveal(product);
    assert((-a) * b == -(a * b)) by (nonlinear_arith);
    assert(a * (-b) == -(a * b)) by (nonlinear_arith);
    assert((-a) * (-b) == a * b) by (nonlinear_arith);
}

} // verus!
