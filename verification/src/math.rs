//! Integer arithmetic that the layouts share.

use vstd::prelude::*;

verus! {

/// The least multiple count that reaches `a` in steps of `b`.
pub open spec fn ceil_div(a: nat, b: nat) -> nat {
    if a % b == 0 {
        a / b
    } else {
        a / b + 1
    }
}

/// `a / b`, rounded up.
pub fn div_ceil(a: usize, b: usize) -> (r: usize)
    requires
        b > 0,
    ensures
        r == ceil_div(a as nat, b as nat),
        r <= a,
{
    let q: usize = a / b;
    proof {
        lemma_ceil_div(a as nat, b as nat);
        vstd::arithmetic::div_mod::lemma_fundamental_div_mod(a as int, b as int);
        assert(q + (if a % b == 0 { 0int } else { 1int }) <= a) by (nonlinear_arith)
            requires
                a == b * q + a % b,
                b > 0,
                q >= 0,
                0 <= a % b,
        ;
    }
    if a % b == 0 {
        q
    } else {
        q + 1
    }
}

/// Steps of `b`: one fewer than the rounded quotient stays below `a`, and that
/// many reach it.
pub proof fn lemma_ceil_div(a: nat, b: nat)
    requires
        b > 0,
    ensures
        ceil_div(a, b) * b >= a,
        a > 0 ==> (ceil_div(a, b) - 1) * b < a,
        a == 0 <==> ceil_div(a, b) == 0,
{
    vstd::arithmetic::div_mod::lemma_fundamental_div_mod(a as int, b as int);
    let q = a / b;
    let m = a % b;
    assert(q * b == b * q) by (nonlinear_arith);
    assert((q + 1) * b == q * b + b) by (nonlinear_arith);
    assert((q - 1) * b == q * b - b) by (nonlinear_arith);
    if a > 0 && m == 0 {
        assert(q > 0) by (nonlinear_arith)
            requires
                a == b * q,
                a > 0,
                b > 0,
                q >= 0,
        ;
    }
    if a == 0 {
        assert(q == 0 && m == 0) by (nonlinear_arith)
            requires
                0 == b * q + m,
                b > 0,
                q >= 0,
                m >= 0,
        ;
    }
}

/// An index below `a` has a quotient below the rounded-up count.
pub proof fn lemma_div_below_ceil(i: nat, a: nat, b: nat)
    requires
        b > 0,
        i < a,
    ensures
        i / b < ceil_div(a, b),
        (i / b) * b <= i < (i / b) * b + b,
{
    lemma_ceil_div(a, b);
    vstd::arithmetic::div_mod::lemma_fundamental_div_mod(i as int, b as int);
    let q = i / b;
    assert(q * b == b * q) by (nonlinear_arith);
    if q >= ceil_div(a, b) {
        assert(q * b >= ceil_div(a, b) * b) by (nonlinear_arith)
            requires
                q >= ceil_div(a, b),
                b > 0,
        ;
    }
}

/// The smaller of two counts.
pub open spec fn min(a: int, b: int) -> int {
    if a < b {
        a
    } else {
        b
    }
}

/// The smaller of two counts.
pub fn at_most(a: usize, b: usize) -> (r: usize)
    ensures
        r == min(a as int, b as int),
{
    if a < b {
        a
    } else {
        b
    }
}

/// The sum of `g` over `0..n`.
pub open spec fn sum(n: nat, g: spec_fn(int) -> nat) -> nat
    decreases n,
{
    if n == 0 {
        0
    } else {
        sum((n - 1) as nat, g) + g(n - 1)
    }
}

} // verus!
