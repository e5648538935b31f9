//! Elementary facts of the real numbers.
use vstd::prelude::*;

verus! {

/// The magnitude of a number.
pub open spec fn size(x: real) -> real {
    if x >= 0real {
        x
    } else {
        -x
    }
}

/// The product of whole numbers is the same among the reals.
pub proof fn lemma_product(a: int, b: int)
    ensures
        (a * b) as real == a as real * b as real,
{
    assert((a * b) as real == a as real * b as real) by (nonlinear_arith);
}

/// A factor that is not negative keeps the order.
pub proof fn lemma_scale(a: real, b: real, c: real)
    requires
        a <= b,
        c >= 0real,
    ensures
        a * c <= b * c,
        c * a <= c * b,
{
    assert(a * c <= b * c) by (nonlinear_arith)
        requires
            a <= b,
            c >= 0real,
    ;
    assert(a * c == c * a && b * c == c * b) by (nonlinear_arith);
}

/// What is bounded stays so in a product.
pub proof fn lemma_scale_bound(s: real, m: real, c: real)
    requires
        size(s) <= m,
        c >= 0real,
    ensures
        size(s * c) <= m * c,
        size(c * s) <= m * c,
{
    lemma_scale(s, m, c);
    lemma_scale(-m, s, c);
    assert((-m) * c == -(m * c)) by (nonlinear_arith);
}

/// Bounds on two factors bound their product.
pub proof fn lemma_bounded_product(s: real, m: real, t: real, n: real)
    requires
        size(s) <= m,
        size(t) <= n,
    ensures
        size(s * t) <= m * n,
{
    lemma_scale_bound(s, m, size(t));
    lemma_scale(size(t), n, m);
    assert(s * (-t) == -(s * t)) by (nonlinear_arith);
}

/// Products of sums are sums of products.
pub proof fn lemma_distribute(a: real, b: real, c: real)
    ensures
        (a + b) * c == a * c + b * c,
        (a - b) * c == a * c - b * c,
        c * (a + b) == c * a + c * b,
        c * (a - b) == c * a - c * b,
{
    assert((a + b) * c == a * c + b * c) by (nonlinear_arith);
    assert((a - b) * c == a * c - b * c) by (nonlinear_arith);
    assert(c * (a + b) == c * a + c * b) by (nonlinear_arith);
    assert(c * (a - b) == c * a - c * b) by (nonlinear_arith);
}

/// Factors can be taken in any order.
pub proof fn lemma_associate(a: real, b: real, c: real)
    ensures
        (a * b) * c == a * (b * c),
        (a * b) * c == b * (a * c),
        (a * b) * c == (a * c) * b,
        a * b == b * a,
{
    assert((a * b) * c == a * (b * c)) by (nonlinear_arith);
    assert((a * b) * c == b * (a * c)) by (nonlinear_arith);
    assert((a * b) * c == (a * c) * b) by (nonlinear_arith);
    assert(a * b == b * a) by (nonlinear_arith);
}

/// A positive factor can be left out.
pub proof fn lemma_cancel(a: real, b: real, c: real)
    requires
        a * c <= b * c,
        c > 0real,
    ensures
        a <= b,
{
    if a > b {
        let d = a - b;
        assert(d * c > 0real) by (nonlinear_arith)
            requires
                d > 0real,
                c > 0real,
        ;
        lemma_distribute(a, b, c);
    }
}

/// A quotient times its divisor is the dividend.
pub proof fn lemma_quotient_times(x: real, y: real)
    requires
        y != 0real,
    ensures
        (x / y) * y == x,
{
    let q = x / y;
    assert(q * y == x) by (nonlinear_arith)
        requires
            q == x / y,
            y != 0real,
    ;
}

} // verus!
