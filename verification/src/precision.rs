//! How far the rounded results are from the exact ones.
use crate::binary64::one_in_units;
use crate::binary64::rounded;
use crate::binary64::Binary64;
use crate::binary64::INFINITE;
use crate::constants::fraction;
use crate::reals::lemma_associate;
use crate::reals::lemma_bounded_product;
use crate::reals::lemma_cancel;
use crate::reals::lemma_distribute;
use crate::reals::lemma_product;
use crate::reals::lemma_quotient_times;
use crate::reals::lemma_scale;
use crate::reals::lemma_scale_bound;
use crate::reals::size;
use crate::rounding::distance;
use crate::rounding::law_nearest_error;
use crate::rounding::law_nearest_exact;
use crate::rounding::law_nearest_monotone;
use crate::rounding::lemma_units_closed;
use crate::rounding::lemma_units_order;
use crate::rounding::nearest;
use crate::rounding::units;
use crate::rounding::BINADE;
use crate::rounding::EVEN_SPAN;
use vstd::arithmetic::power2::lemma2_to64;
use vstd::arithmetic::power2::lemma2_to64_rest;
use vstd::arithmetic::power2::lemma_pow2_adds;
use vstd::arithmetic::power2::lemma_pow2_pos;
use vstd::arithmetic::power2::lemma_pow2_strictly_increases;
use vstd::arithmetic::power2::lemma_pow2_unfold;
use vstd::arithmetic::power2::pow2;
use vstd::prelude::*;

verus! {

/// The largest relative error of one operation: `2^-53`.
pub open spec fn precision() -> real {
    1real / EVEN_SPAN as real
}

/// The largest error that an operation adds where its result is close to zero: `2^-1075`.
pub open spec fn half_unit() -> real {
    1real / (2 * one_in_units()) as real
}

/// The magnitude from which on the error is relative: `2^-1022`.
pub open spec fn smallest_normal() -> real {
    BINADE as real / one_in_units() as real
}

/// A magnitude up to which no operation overflows: `2^1023`.
pub open spec fn huge() -> real {
    pow2(1023) as real
}

/// Whether `r` is what an operation may make of the exact result `x`.
pub open spec fn near(r: Binary64, x: real) -> bool {
    &&& size(r.number() - x) <= precision() * size(x) + half_unit()
    &&& size(x) >= smallest_normal() || x == 0real ==> size(r.number() - x) <= precision() * size(x)
}

/// How small the errors are.
pub proof fn lemma_precision()
    ensures
        precision() > 0real,
        precision() * EVEN_SPAN as real == 1real,
        precision() <= 1real / 1_000_000_000_000_000real,
        half_unit() > 0real,
        half_unit() * (2real * one_in_units() as real) == 1real,
        smallest_normal() > 0real,
        smallest_normal() * one_in_units() as real == BINADE as real,
{
    lemma_pow2_pos(1074);
    let (p, e) = (precision(), EVEN_SPAN as real);
    let (h, k) = (half_unit(), one_in_units() as real);
    let (m, b) = (smallest_normal(), BINADE as real);
    assert(p > 0real && p * e == 1real) by (nonlinear_arith)
        requires
            p == 1real / e,
            e > 0real,
    ;
    assert(p <= 1real / 1_000_000_000_000_000real) by (nonlinear_arith)
        requires
            p * 9007199254740992real == 1real,
    ;
    assert(h > 0real && h * (2real * k) == 1real) by (nonlinear_arith)
        requires
            h == 1real / (2real * k),
            k > 0real,
    ;
    assert(m > 0real && m * k == b) by (nonlinear_arith)
        requires
            m == b / k,
            b > 0real,
            k > 0real,
    ;
}

/// The absolute error is far below every decimal that matters.
pub proof fn lemma_half_unit()
    ensures
        half_unit() <= 1real / 1_000_000_000_000_000_000_000_000real,
{
    lemma2_to64();
    lemma_precision();
    lemma_pow2_adds(64, 64);
    lemma_pow2_adds(128, 946);
    lemma_pow2_pos(946);
    let (h, k) = (half_unit(), one_in_units());
    assert(k >= pow2(128)) by (nonlinear_arith)
        requires
            k == pow2(128) * pow2(946),
            pow2(946) >= 1,
    ;
    assert(h <= 1real / 1_000_000_000_000_000_000_000_000real) by (nonlinear_arith)
        requires
            h * (2real * k as real) == 1real,
            h > 0real,
            k as real >= 1_000_000_000_000_000_000_000_000real,
    ;
}

proof fn lemma_huge(n: nat, d: nat)
    requires
        d > 0,
        n <= pow2(1023) * one_in_units() * d,
    ensures
        nearest(n, d) < INFINITE,
{
    lemma2_to64();
    lemma2_to64_rest();
    lemma_units_closed(BINADE as nat, 2045);
    lemma_pow2_adds(52, 2045);
    lemma_pow2_adds(1023, 1074);
    let b = 2045 * BINADE as nat + BINADE as nat;
    law_nearest_monotone(n, units(b) * d, d);
    law_nearest_exact(b, d);
}

/// What rounding makes of the exact magnitude `n / d` units.
proof fn lemma_rounded_near(negative: bool, n: nat, d: nat, x: real)
    requires
        d > 0,
        x * (d as real * one_in_units() as real) == (if negative {
            -(n as real)
        } else {
            n as real
        }),
    ensures
        size(x) <= huge() ==> rounded(negative, n, d).is_finite(),
        rounded(negative, n, d).is_finite() ==> near(rounded(negative, n, d), x),
        d == 1 && rounded(negative, n, d).is_finite() ==> size(
            rounded(negative, n, d).number() - x,
        ) <= precision() * size(x),
{
    lemma_pow2_pos(1074);
    let k = one_in_units() as real;
    let dk = d as real * k;
    lemma_precision();
    let r = rounded(negative, n, d);
    assert(dk > 0real) by (nonlinear_arith)
        requires
            dk == d as real * k,
            d as real > 0real,
            k > 0real,
    ;
    assert(size(x) * dk == n as real) by (nonlinear_arith)
        requires
            x * dk == n as real || x * dk == -(n as real),
            dk > 0real,
            n as real >= 0real,
            size(x) == x || size(x) == -x,
            size(x) >= 0real,
    ;
    if size(x) <= huge() {
        assert(n <= pow2(1023) * one_in_units() * d) by {
            let h = huge();
            assert(size(x) * dk <= h * dk) by (nonlinear_arith)
                requires
                    size(x) <= h,
                    dk > 0real,
            ;
            assert(h * dk == h * k * d as real) by (nonlinear_arith)
                requires
                    dk == d as real * k,
            ;
            lemma_product(pow2(1023) as int, one_in_units() as int);
            lemma_product((pow2(1023) * one_in_units()) as int, d as int);
        }
        lemma_huge(n, d);
    }
    if r.is_finite() {
        let b = nearest(n, d);
        let u = units(b);
        let y = size(r.number());
        assert(r.position() == b && r.negative() == negative);
        assert(y * k == u as real && r.number() * k == r.value() as real) by (nonlinear_arith)
            requires
                r.number() == r.value() as real / k,
                r.value() == u || r.value() == -u,
                y == size(r.number()),
                u >= 0,
                k > 0real,
        ;
        law_nearest_error(n, d);
        let e = distance(n, d, b);
        let gap = size(r.number() - x);
        lemma_product(u as int, d as int);
        assert(gap * dk == e as real) by {
            assert(r.number() * dk == r.value() as real * d as real) by (nonlinear_arith)
                requires
                    r.number() * k == r.value() as real,
                    dk == d as real * k,
            ;
            assert(r.value() as real * d as real == if negative {
                -((u * d) as real)
            } else {
                (u * d) as real
            }) by (nonlinear_arith)
                requires
                    r.value() as real == (if negative {
                        -(u as real)
                    } else {
                        u as real
                    }),
                    (u * d) as real == u as real * d as real,
            ;
            assert((r.number() - x) * dk == r.number() * dk - x * dk) by (nonlinear_arith);
            assert(gap * dk == size((r.number() - x) * dk)) by (nonlinear_arith)
                requires
                    gap == size(r.number() - x),
                    dk > 0real,
            ;
        }
        let p = precision();
        assert(p * size(x) >= 0real) by (nonlinear_arith)
            requires
                p > 0real,
                size(x) >= 0real,
        ;
        assert(e == 0 ==> gap == 0real) by (nonlinear_arith)
            requires
                gap * dk == e as real,
                dk > 0real,
        ;
        lemma_product(e as int, EVEN_SPAN as int);
        if n >= d * BINADE {
            assert(gap <= p * size(x)) by (nonlinear_arith)
                requires
                    gap * dk == e as real,
                    size(x) * dk == n as real,
                    e as real * EVEN_SPAN as real <= n as real,
                    p == 1real / EVEN_SPAN as real,
                    EVEN_SPAN as real > 0real,
                    dk > 0real,
            ;
        } else {
            assert(gap <= half_unit()) by (nonlinear_arith)
                requires
                    gap * dk == e as real,
                    2real * e as real <= d as real,
                    dk == d as real * k,
                    d as real > 0real,
                    k > 0real,
                    half_unit() == 1real / (2real * k),
            ;
            if size(x) >= smallest_normal() {
                assert(n as real >= d as real * BINADE as real) by (nonlinear_arith)
                    requires
                        size(x) * dk == n as real,
                        size(x) >= BINADE as real / k,
                        dk == d as real * k,
                        d as real > 0real,
                        k > 0real,
                ;
                lemma_product(d as int, BINADE as int);
            }
            if x == 0real {
                assert(n as real == 0real) by (nonlinear_arith)
                    requires
                        size(x) * dk == n as real,
                        size(x) == 0real,
                ;
                assert(units(0) * d == 0) by (nonlinear_arith)
                    requires
                        units(0) == 0,
                ;
                law_nearest_exact(0, d);
                assert(e == 0);
            }
        }
    }
}

/// Doubles compare as their numbers do.
pub proof fn lemma_number_order(x: Binary64, y: Binary64)
    ensures
        x.value() <= y.value() <==> x.number() <= y.number(),
        x.value() < y.value() <==> x.number() < y.number(),
        x.value() > 0 <==> x.number() > 0real,
        x.value() == 0 <==> x.number() == 0real,
        x.number() * one_in_units() as real == x.value() as real,
{
    lemma_pow2_pos(1074);
    let k = one_in_units() as real;
    let (a, b) = (x.value() as real, y.value() as real);
    let (p, q) = (x.number(), y.number());
    assert(p * k == a && q * k == b) by (nonlinear_arith)
        requires
            p == a / k,
            q == b / k,
            k > 0real,
    ;
    assert((a <= b <==> p <= q) && (a < b <==> p < q) && (a > 0real <==> p > 0real) && (a == 0real
        <==> p == 0real)) by (nonlinear_arith)
        requires
            p * k == a,
            q * k == b,
            k > 0real,
    ;
}

/// The numbers of a negated double and of its magnitude.
pub proof fn lemma_number_signs(x: Binary64)
    ensures
        x.negated().number() == -x.number(),
        x.abs().number() == size(x.number()),
        x.negated().is_finite() == x.is_finite(),
        x.abs().is_finite() == x.is_finite(),
{
    lemma_pow2_pos(1074);
    let k = one_in_units() as real;
    assert(x.negated().value() == -x.value());
    assert(x.abs().value() == x.magnitude());
    let a = x.value() as real;
    assert(-a / k == -(a / k) && (a >= 0real <==> a / k >= 0real)) by (nonlinear_arith)
        requires
            k > 0real,
    ;
}

/// A sum has a relative error alone.
pub proof fn law_add_error(x: Binary64, y: Binary64)
    requires
        x.is_finite(),
        y.is_finite(),
    ensures
        ({
            let exact = x.number() + y.number();
            &&& size(exact) <= huge() ==> (x + y).is_finite()
            &&& (x + y).is_finite() ==> size((x + y).number() - exact) <= precision() * size(exact)
        }),
{
    lemma_pow2_pos(1074);
    lemma_precision();
    let k = one_in_units() as real;
    let exact = x.number() + y.number();
    let s = x.value() + y.value();
    lemma_number_order(x, y);
    lemma_number_order(y, x);
    lemma_number_order(x + y, x);
    assert(exact * k == s as real) by (nonlinear_arith)
        requires
            exact == x.number() + y.number(),
            x.number() * k == x.value() as real,
            y.number() * k == y.value() as real,
            s as real == x.value() as real + y.value() as real,
    ;
    assert(exact * (1real * k) == exact * k);
    if s > 0 {
        lemma_rounded_near(false, s as nat, 1, exact);
    } else if s < 0 {
        lemma_rounded_near(true, (-s) as nat, 1, exact);
    } else {
        assert(exact == 0real) by (nonlinear_arith)
            requires
                exact * k == 0real,
                k > 0real,
        ;
        assert((x + y).value() == 0);
        assert(precision() * 0real == 0real) by (nonlinear_arith);
    }
}

/// A difference has a relative error alone.
pub proof fn law_sub_error(x: Binary64, y: Binary64)
    requires
        x.is_finite(),
        y.is_finite(),
    ensures
        ({
            let exact = x.number() - y.number();
            &&& size(exact) <= huge() ==> (x - y).is_finite()
            &&& (x - y).is_finite() ==> size((x - y).number() - exact) <= precision() * size(exact)
        }),
{
    lemma_number_signs(y);
    law_add_error(x, y.negated());
}

/// How far a product is from the exact one.
pub proof fn law_mul_error(x: Binary64, y: Binary64)
    requires
        x.is_finite(),
        y.is_finite(),
    ensures
        ({
            let exact = x.number() * y.number();
            &&& size(exact) <= huge() ==> (x * y).is_finite()
            &&& (x * y).is_finite() ==> near(x * y, exact)
        }),
{
    lemma_pow2_pos(1074);
    let k = one_in_units() as real;
    let exact = x.number() * y.number();
    let negative = x.negative() != y.negative();
    let n = x.magnitude() * y.magnitude();
    lemma_number_order(x, y);
    lemma_number_order(y, x);
    lemma_product(x.magnitude() as int, y.magnitude() as int);
    let (a, b) = (x.magnitude() as real, y.magnitude() as real);
    assert(exact * (k * k) == x.value() as real * y.value() as real) by (nonlinear_arith)
        requires
            exact == x.number() * y.number(),
            x.number() * k == x.value() as real,
            y.number() * k == y.value() as real,
    ;
    assert(x.value() as real * y.value() as real == if negative {
        -(a * b)
    } else {
        a * b
    }) by (nonlinear_arith)
        requires
            x.value() as real == (if x.negative() {
                -a
            } else {
                a
            }),
            y.value() as real == (if y.negative() {
                -b
            } else {
                b
            }),
            negative == (x.negative() != y.negative()),
    ;
    lemma_rounded_near(negative, n, one_in_units(), exact);
}

/// How far a quotient is from the exact one.
pub proof fn law_div_error(x: Binary64, y: Binary64)
    requires
        x.is_finite(),
        y.is_finite(),
        y.value() != 0,
    ensures
        ({
            let exact = x.number() / y.number();
            &&& size(exact) <= huge() ==> (x / y).is_finite()
            &&& (x / y).is_finite() ==> near(x / y, exact)
        }),
{
    lemma_pow2_pos(1074);
    let k = one_in_units() as real;
    let exact = x.number() / y.number();
    let negative = x.negative() != y.negative();
    let n = x.magnitude() * one_in_units();
    let d = y.magnitude();
    lemma_number_order(x, y);
    lemma_number_order(y, x);
    lemma_product(x.magnitude() as int, one_in_units() as int);
    let (a, b) = (x.magnitude() as real, y.magnitude() as real);
    let (v, w) = (x.value() as real, y.value() as real);
    assert(exact * w == v) by (nonlinear_arith)
        requires
            exact == x.number() / y.number(),
            x.number() * k == v,
            y.number() * k == w,
            w != 0real,
            k > 0real,
    ;
    assert(exact * (b * k) == if negative {
        -(a * k)
    } else {
        a * k
    }) by (nonlinear_arith)
        requires
            exact * w == v,
            v == (if x.negative() {
                -a
            } else {
                a
            }),
            w == (if y.negative() {
                -b
            } else {
                b
            }),
            negative == (x.negative() != y.negative()),
    ;
    lemma_rounded_near(negative, n, d, exact);
}

/// No finite number is so large that it makes the smallest errors matter.
pub proof fn lemma_half_unit_absorbed(x: Binary64)
    requires
        x.is_finite(),
    ensures
        half_unit() * size(x.number()) <= 4real * precision(),
{
    lemma2_to64();
    lemma2_to64_rest();
    lemma_precision();
    lemma_pow2_pos(1074);
    lemma_number_order(x, x);
    lemma_units_order(x.position(), INFINITE as nat);
    lemma_units_closed(BINADE as nat, 2046);
    lemma_pow2_adds(52, 2046);
    lemma_pow2_adds(1024, 1074);
    lemma_pow2_adds(1023, 1);
    lemma_pow2_adds(51, 1023);
    lemma_pow2_adds(51, 1024);
    let (h, k) = (half_unit(), one_in_units() as real);
    let (n, m) = (size(x.number()), x.magnitude() as real);
    let p = pow2(1024) as real;
    lemma_product(pow2(1024) as int, one_in_units() as int);
    lemma_product(pow2(51) as int, pow2(1023) as int);
    lemma_pow2_adds(51, 1023);
    assert(n * k == m) by (nonlinear_arith)
        requires
            x.number() * k == x.value() as real,
            x.value() as real == m || x.value() as real == -m,
            n == size(x.number()),
            m >= 0real,
            k > 0real,
    ;
    assert(n <= p) by (nonlinear_arith)
        requires
            n * k == m,
            m <= p * k,
            k > 0real,
    ;
    let q = pow2(1023) as real;
    assert(pow2(1074) as real == pow2(51) as real * q);
    let u = precision();
    assert(h * n <= 4real * u) by (nonlinear_arith)
        requires
            h * (2real * k) == 1real,
            h > 0real,
            k == 2251799813685248real * q,
            p == 2real * q,
            n <= p,
            q > 0real,
            u * 9007199254740992real == 1real,
    ;
}

/// Whether a number is zero, or between `2^-k` and `2^k`.
#[verifier::opaque]
pub open spec fn spans(x: real, k: nat) -> bool {
    x == 0real || (x * pow2(k) as real >= 1real && 0real < x <= pow2(k) as real)
}

/// Whether a double is finite and stands for the exact `x` up to `k` relative errors.
#[verifier::opaque]
pub open spec fn stands_for(r: Binary64, x: real, k: nat) -> bool {
    &&& r.is_finite()
    &&& size(r.number() - x) <= k as real * (precision() * x)
}

/// A larger span holds a smaller one.
pub proof fn lemma_wider_span(x: real, i: nat, j: nat)
    requires
        spans(x, i),
        i <= j,
    ensures
        spans(x, j),
{
    reveal(spans);
    if i < j {
        lemma_pow2_strictly_increases(i, j);
    }
    let (p, q) = (pow2(i) as real, pow2(j) as real);
    if x != 0real {
        assert(x * q >= 1real) by (nonlinear_arith)
            requires
                x * p >= 1real,
                x > 0real,
                p <= q,
        ;
    }
}

/// The spans of products and quotients.
pub proof fn lemma_span_of_product(x: real, y: real, i: nat, j: nat)
    requires
        spans(x, i),
        spans(y, j),
    ensures
        spans(x * y, i + j),
        y != 0real ==> spans(x / y, i + j),
{
    reveal(spans);
    lemma_pow2_adds(i, j);
    lemma_pow2_pos(i);
    lemma_pow2_pos(j);
    lemma_product(pow2(i) as int, pow2(j) as int);
    let (p, q, r) = (pow2(i) as real, pow2(j) as real, pow2(i + j) as real);
    if x == 0real || y == 0real {
        assert(x * y == 0real) by (nonlinear_arith)
            requires
                x == 0real || y == 0real,
        ;
        if y != 0real {
            assert(x / y == 0real) by (nonlinear_arith)
                requires
                    x == 0real,
                    y != 0real,
            ;
        }
    } else {
        let (m, d) = (x * y, x / y);
        assert(m * r >= 1real && 0real < m <= r) by (nonlinear_arith)
            requires
                r == p * q,
                m == x * y,
                x * p >= 1real,
                0real < x <= p,
                y * q >= 1real,
                0real < y <= q,
        {
            assert(m * r == (x * p) * (y * q));
            assert((x * p) * (y * q) >= y * q);
            assert(x * y <= p * y);
            assert(p * y <= p * q);
        }
        assert(d * y == x) by (nonlinear_arith)
            requires
                d == x / y,
                y > 0real,
        ;
        assert(d > 0real) by (nonlinear_arith)
            requires
                d * y == x,
                x > 0real,
                y > 0real,
        ;
        assert(d <= x * q) by (nonlinear_arith)
            requires
                d * y == x,
                d > 0real,
                y * q >= 1real,
        ;
        assert(x * q <= r) by (nonlinear_arith)
            requires
                r == p * q,
                x <= p,
                q > 0real,
        ;
        assert(d * q >= x) by (nonlinear_arith)
            requires
                d * y == x,
                d > 0real,
                y <= q,
        ;
        assert(d * r >= 1real) by (nonlinear_arith)
            requires
                d * q >= x,
                r == p * q,
                x * p >= 1real,
                p > 0real,
        {
            assert(d * r == (d * q) * p);
            assert((d * q) * p >= x * p);
        }
    }
}

/// The span of a sum.
pub proof fn lemma_span_of_sum(x: real, y: real, k: nat)
    requires
        spans(x, k),
        spans(y, k),
    ensures
        spans(x + y, k + 1),
{
    reveal(spans);
    lemma_pow2_unfold(k + 1);
    lemma_pow2_pos(k);
    let (p, q) = (pow2(k) as real, pow2(k + 1) as real);
    if x + y != 0real {
        assert((x + y) * q >= 1real) by (nonlinear_arith)
            requires
                q == 2real * p,
                p > 0real,
                x >= 0real,
                y >= 0real,
                x * p >= 1real || y * p >= 1real,
        ;
    }
}

/// Within this span operations neither underflow nor overflow.
pub proof fn lemma_span_is_normal(x: real, k: nat)
    requires
        spans(x, k),
        k <= 960,
    ensures
        x == 0real || x >= 2real * smallest_normal(),
        0real <= x,
        2real * x <= huge(),
{
    reveal(spans);
    lemma2_to64();
    lemma2_to64_rest();
    lemma_wider_span(x, k, 960);
    lemma_precision();
    lemma_pow2_adds(960, 1);
    lemma_pow2_adds(960, 63);
    lemma_pow2_adds(960, 52);
    lemma_pow2_adds(1012, 62);
    lemma_pow2_pos(960);
    let (p, k, m) = (pow2(960) as real, one_in_units() as real, smallest_normal());
    lemma_product(pow2(960) as int, pow2(52) as int);
    lemma_product(pow2(1012) as int, pow2(62) as int);
    lemma_product(pow2(960) as int, pow2(63) as int);
    assert(huge() >= 2real * p);
    if x != 0real {
        assert(x >= 2real * m) by (nonlinear_arith)
            requires
                x * p >= 1real,
                p > 0real,
                k == (p * 4503599627370496real) * 4611686018427387904real,
                m * k == 4503599627370496real,
                m > 0real,
                x > 0real,
        {
            assert(m * p * 4611686018427387904real == 1real);
            assert(x * p >= 2real * m * p);
        }
    }
}

/// Rounding adds to the errors of what is rounded.
proof fn lemma_rounding_adds(r: real, x: real, y: real, k: nat)
    requires
        x >= 0real,
        k <= 1000,
        size(y - x) <= (k as real + 1real / 2real) * (precision() * x),
        size(y) <= 2real * x && 2real * size(y) >= x ==> size(r - y) <= precision() * size(y),
    ensures
        size(r - x) <= (k + 2) as real * (precision() * x),
{
    let (a, u) = (k as real, precision());
    let e = u * x;
    lemma_precision();
    lemma_scale(0real, x, u);
    lemma_scale(a + 1real / 2real, 1001real, e);
    lemma_associate(u, x, 9007199254740992real);
    assert(e * 9007199254740992real == x);
    assert(size(y - x) <= 1001real * e);
    let z = 5real * x / 4real;
    lemma_scale(y, z, u);
    assert(u * z == 5real * e / 4real) by (nonlinear_arith)
        requires
            z == 5real * x / 4real,
            e == u * x,
    ;
    assert(size(r - y) <= 5real * e / 4real);
    lemma_distribute(a + 1real / 2real, 3real / 2real, e);
    assert((k + 2) as real == (a + 1real / 2real) + 3real / 2real);
}

/// The sum of `k` and of `l` relative errors, with room for their product.
spec fn joint(k: nat, l: nat) -> real {
    (k as real + l as real) * precision() + precision() / 2real
}

proof fn lemma_joint(k: nat, l: nat)
    requires
        k <= 100,
        l <= 100,
    ensures
        ({
            let (e, f, w) = (k as real * precision(), l as real * precision(), joint(k, l));
            &&& 0real <= e <= 1real / 2real
            &&& 0real <= f <= 1real / 2real
            &&& e + f + e * f <= w
            &&& e + f <= w * (1real - f)
            &&& 0real <= w <= 1real / 2real
        }),
{
    let u = precision();
    lemma_precision();
    let (a, b) = (k as real, l as real);
    let (e, f, w) = (a * u, b * u, joint(k, l));
    lemma_scale(0real, a, u);
    lemma_scale(0real, b, u);
    lemma_scale(a, 100real, u);
    lemma_scale(b, 100real, u);
    lemma_distribute(a, b, u);
    lemma_scale(e, 1real / 1000real, f);
    lemma_scale(f, 100real * u, 1real / 1000real);
    assert(e * f <= u / 2real);
    lemma_scale(w, 1real / 1000real, f);
    lemma_distribute(1real, f, w);
    lemma_associate(w, f, 1real);
}

/// The error of an exact product of two numbers that stand for others.
proof fn lemma_product_error(a: real, x: real, b: real, y: real, k: nat, l: nat)
    requires
        x >= 0real,
        y >= 0real,
        k <= 100,
        l <= 100,
        size(a - x) <= k as real * (precision() * x),
        size(b - y) <= l as real * (precision() * y),
    ensures
        size(a * b - x * y) <= joint(k, l) * (x * y),
{
    let u = precision();
    let (e, f, w) = (k as real * u, l as real * u, joint(k, l));
    let (s, t) = (a - x, b - y);
    let z = x * y;
    lemma_joint(k, l);
    lemma_associate(k as real, u, x);
    lemma_associate(l as real, u, y);
    lemma_scale(0real, x, y);
    lemma_scale_bound(s, e * x, y);
    lemma_associate(e, x, y);
    lemma_scale_bound(t, f * y, x);
    assert((f * y) * x == f * z) by (nonlinear_arith)
        requires
            z == x * y,
    ;
    lemma_bounded_product(s, e * x, t, f * y);
    assert((e * x) * (f * y) == (e * f) * z) by (nonlinear_arith)
        requires
            z == x * y,
    ;
    assert(a * b - z == s * y + x * t + s * t) by (nonlinear_arith)
        requires
            z == x * y,
            s == a - x,
            t == b - y,
    ;
    lemma_scale(e + f + e * f, w, z);
    lemma_distribute(e, f, z);
    lemma_distribute(e + f, e * f, z);
}

/// The error of an exact quotient of two numbers that stand for others.
proof fn lemma_quotient_error(a: real, x: real, b: real, y: real, k: nat, l: nat)
    requires
        x >= 0real,
        y > 0real,
        k <= 100,
        l <= 100,
        size(a - x) <= k as real * (precision() * x),
        size(b - y) <= l as real * (precision() * y),
    ensures
        b > 0real,
        x / y >= 0real,
        size(a / b - x / y) <= joint(k, l) * (x / y),
{
    let u = precision();
    let (e, f, w) = (k as real * u, l as real * u, joint(k, l));
    let (s, t) = (a - x, b - y);
    let (d, q) = (a / b, x / y);
    lemma_joint(k, l);
    lemma_associate(k as real, u, x);
    lemma_associate(l as real, u, y);
    lemma_scale(f, 1real / 2real, y);
    assert(b > 0real);
    lemma_quotient_times(a, b);
    lemma_quotient_times(x, y);
    lemma_scale(0real, y, 0real);
    assert(q >= 0real) by {
        if q < 0real {
            lemma_scale(q, 0real, y);
            lemma_cancel(0real, q, y);
        }
    }
    let g = d - q;
    lemma_distribute(d, q, b);
    lemma_distribute(b, y, q);
    lemma_associate(q, b, 1real);
    lemma_associate(q, y, 1real);
    assert(g * b == s - q * t);
    lemma_scale_bound(t, f * y, q);
    assert((f * y) * q == f * x) by (nonlinear_arith)
        requires
            q * y == x,
    ;
    lemma_distribute(e, f, x);
    assert(size(g * b) <= (e + f) * x);
    // the bound, taken back through the divisor
    let v = w * q;
    lemma_scale(e + f, w * (1real - f), x);
    lemma_distribute(1real, f, y);
    lemma_scale(0real, w, q);
    lemma_scale((1real - f) * y, b, v);
    assert(v * ((1real - f) * y) == (w * (1real - f)) * x) by (nonlinear_arith)
        requires
            v == w * q,
            q * y == x,
    ;
    assert(size(g * b) <= v * b);
    lemma_cancel(g, v, b);
    assert((-g) * b == -(g * b)) by (nonlinear_arith);
    lemma_cancel(-g, v, b);
}

proof fn lemma_joint_errors(e: real, x: real, k: nat, l: nat)
    requires
        x >= 0real,
        k <= 100,
        l <= 100,
        size(e - x) <= joint(k, l) * x,
    ensures
        size(e) <= 2real * x,
        size(e - x) <= ((k + l) as real + 1real / 2real) * (precision() * x),
{
    let u = precision();
    lemma_joint(k, l);
    lemma_scale(joint(k, l), 1real / 2real, x);
    let c = (k + l) as real + 1real / 2real;
    assert(joint(k, l) == c * u) by (nonlinear_arith)
        requires
            joint(k, l) == (k as real + l as real) * u + u / 2real,
            c == k as real + l as real + 1real / 2real,
    ;
    lemma_associate(c, u, x);
}

/// Products of doubles stand for products.
pub proof fn lemma_mul_stands(
    x: Binary64,
    a: real,
    k: nat,
    i: nat,
    y: Binary64,
    b: real,
    l: nat,
    j: nat,
)
    requires
        stands_for(x, a, k),
        stands_for(y, b, l),
        spans(a, i),
        spans(b, j),
        k <= 100,
        l <= 100,
        i + j <= 960,
    ensures
        stands_for(x * y, a * b, k + l + 2),
        spans(a * b, i + j),
{
    reveal(spans);
    reveal(stands_for);
    let (z, e) = (a * b, x.number() * y.number());
    lemma_span_of_product(a, b, i, j);
    lemma_span_is_normal(z, i + j);
    lemma_precision();
    lemma_product_error(x.number(), a, y.number(), b, k, l);
    lemma_joint_errors(e, z, k, l);
    law_mul_error(x, y);
    lemma_rounding_adds((x * y).number(), z, e, k + l);
}

/// Quotients of doubles stand for quotients.
pub proof fn lemma_div_stands(
    x: Binary64,
    a: real,
    k: nat,
    i: nat,
    y: Binary64,
    b: real,
    l: nat,
    j: nat,
)
    requires
        stands_for(x, a, k),
        stands_for(y, b, l),
        spans(a, i),
        spans(b, j),
        b != 0real,
        k <= 100,
        l <= 100,
        i + j <= 960,
    ensures
        stands_for(x / y, a / b, k + l + 2),
        spans(a / b, i + j),
{
    reveal(spans);
    reveal(stands_for);
    let (z, e) = (a / b, x.number() / y.number());
    lemma_span_of_product(a, b, i, j);
    lemma_span_is_normal(z, i + j);
    lemma_precision();
    lemma_quotient_error(x.number(), a, y.number(), b, k, l);
    lemma_joint_errors(e, z, k, l);
    lemma_number_order(y, y);
    law_div_error(x, y);
    lemma_rounding_adds((x / y).number(), z, e, k + l);
}

/// Sums of doubles stand for sums.
pub proof fn lemma_add_stands(x: Binary64, a: real, y: Binary64, b: real, k: nat, i: nat)
    requires
        stands_for(x, a, k),
        stands_for(y, b, k),
        spans(a, i),
        spans(b, i),
        k <= 100,
        i <= 900,
    ensures
        stands_for(x + y, a + b, k + 2),
        spans(a + b, i + 1),
{
    reveal(spans);
    reveal(stands_for);
    let (z, e) = (a + b, x.number() + y.number());
    let u = precision();
    lemma_span_of_sum(a, b, i);
    lemma_span_is_normal(z, i + 1);
    lemma_precision();
    lemma_distribute(a, b, u);
    lemma_distribute(u * a, u * b, k as real);
    lemma_distribute(k as real, 1real / 2real, u * z);
    lemma_scale(0real, z, u);
    lemma_scale(k as real, 100real, u * z);
    lemma_associate(u, z, 1real);
    lemma_scale(u, 1real / 1000real, z);
    assert(size(e - z) <= k as real * (u * z));
    law_add_error(x, y);
    lemma_rounding_adds((x + y).number(), z, e, k);
}

/// Room for more errors does no harm.
pub proof fn lemma_more_errors(r: Binary64, x: real, k: nat, l: nat, i: nat)
    requires
        stands_for(r, x, k),
        spans(x, i),
        k <= l,
    ensures
        stands_for(r, x, l),
{
    reveal(spans);
    reveal(stands_for);
    lemma_precision();
    lemma_scale(0real, x, precision());
    lemma_scale(k as real, l as real, precision() * x);
}

/// A constant stands for the fraction that it is nearest to.
pub proof fn lemma_fraction_stands(n: nat, d: nat, x: real)
    requires
        d > 0,
        x * d as real == n as real,
        spans(x, 1),
    ensures
        stands_for(fraction(n, d), x, 1),
{
    reveal(stands_for);
    lemma_precision();
    lemma_span_is_normal(x, 1);
    let k = one_in_units() as real;
    lemma_product(n as int, one_in_units() as int);
    lemma_associate(x, d as real, k);
    lemma_rounded_near(false, n * one_in_units(), d, x);
}

} // verus!
