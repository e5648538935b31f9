//! What the operations on doubles give: the nearest double, and the special values.
use crate::arithmetic::law_to_whole_is_exact;
use crate::arithmetic::lemma_whole_bounds;
use crate::arithmetic::rounded_sum;
use crate::binary64::law_rounded_is_nearest;
use crate::binary64::one_in_units;
use crate::binary64::rounded;
use crate::binary64::Binary64;
use crate::binary64::Direction;
use crate::binary64::INFINITE;
use crate::monotone::lemma_add_is_number;
use crate::monotone::lemma_div_is_number;
use crate::monotone::lemma_mul_is_number;
use crate::rounding::distance;
use crate::rounding::law_nearest_is_nearest;
use crate::rounding::lemma_units_order;
use crate::rounding::nearest;
use crate::rounding::units;
use vstd::arithmetic::power2::lemma_pow2_pos;
use vstd::math::abs;
use vstd::prelude::*;

verus! {

/// Where another double is as near to the exact number, the rounded one has the even bits.
proof fn lemma_rounded_ties(negative: bool, n: nat, d: nat, other: Binary64)
    requires
        d > 0,
        rounded(negative, n, d).is_finite(),
        ({
            let exact = if negative {
                -n
            } else {
                n as int
            };
            let r = rounded(negative, n, d);
            &&& abs(exact - r.value() * d) == abs(exact - other.value() * d)
            &&& r.value() != other.value()
        }),
    ensures
        rounded(negative, n, d).bits % 2 == 0,
{
    let b = nearest(n, d);
    let r = rounded(negative, n, d);
    assert(r.position() == b && r.negative() == negative);
    let (u, v) = (units(b), other.magnitude());
    assert((-u) * d == -(u * d)) by (nonlinear_arith);
    assert((-v) * d == -(v * d)) by (nonlinear_arith);
    assert(v * d >= 0 && (v * d == 0 ==> v == 0)) by (nonlinear_arith)
        requires
            v >= 0,
            d > 0,
    ;
    assert(units(0) * d == 0) by (nonlinear_arith)
        requires
            units(0) == 0,
    ;
    law_nearest_is_nearest(n, d, 0);
    law_nearest_is_nearest(n, d, other.position());
    if other.negative() == negative {
        assert(distance(n, d, other.position()) == distance(n, d, b));
        assert(other.position() != b);
    } else {
        assert(distance(n, d, 0) == distance(n, d, b));
        assert(b != 0);
    }
}

/// A sum is the double nearest to the exact one: no other is nearer, and where another is as near,
/// the sum has the even bits.
pub proof fn law_sum_is_nearest(x: Binary64, y: Binary64, other: Binary64)
    requires
        x.is_finite(),
        y.is_finite(),
        (x + y).is_finite(),
    ensures
        ({
            let exact = x.value() + y.value();
            &&& abs(exact - (x + y).value()) <= abs(exact - other.value())
            &&& abs(exact - (x + y).value()) == abs(exact - other.value()) && (x + y).value()
                != other.value() ==> (x + y).bits % 2 == 0
        }),
{
    let s = x.value() + y.value();
    let r = x + y;
    assert(r == rounded_sum(x, y));
    let tied = abs(s - r.value()) == abs(s - other.value()) && r.value() != other.value();
    if s > 0 {
        law_rounded_is_nearest(false, s as nat, 1, other);
        if tied {
            lemma_rounded_ties(false, s as nat, 1, other);
        }
    } else if s < 0 {
        law_rounded_is_nearest(true, (-s) as nat, 1, other);
        if tied {
            lemma_rounded_ties(true, (-s) as nat, 1, other);
        }
    } else {
        lemma_units_order(0, r.position());
        assert(r.value() == 0);
    }
}

/// The exact difference is the sum with the negated number.
pub proof fn law_difference_is_sum(x: Binary64, y: Binary64)
    ensures
        x - y == x + y.negated(),
        y.negated().value() == -y.value(),
        y.negated().negated() == y,
{
}

/// A product is the double nearest to the exact one: no other is nearer, and where another is as
/// near, the product has the even bits.
pub proof fn law_product_is_nearest(x: Binary64, y: Binary64, other: Binary64)
    requires
        x.is_finite(),
        y.is_finite(),
        (x * y).is_finite(),
    ensures
        ({
            let exact = x.value() * y.value();
            let one = one_in_units() as int;
            let (gap, far) = (
                abs(exact - (x * y).value() * one),
                abs(exact - other.value() * one),
            );
            gap <= far && (gap == far && (x * y).value() != other.value() ==> (x * y).bits % 2
                == 0)
        }),
{
    let negative = x.negative() != y.negative();
    let (a, b) = (x.magnitude() as int, y.magnitude() as int);
    let n = x.magnitude() * y.magnitude();
    lemma_pow2_pos(1074);
    law_rounded_is_nearest(negative, n, one_in_units(), other);
    assert((-a) * b == -(a * b)) by (nonlinear_arith);
    assert(a * (-b) == -(a * b)) by (nonlinear_arith);
    assert((-a) * (-b) == a * b) by (nonlinear_arith);
    let (exact, one) = (x.value() * y.value(), one_in_units() as int);
    if abs(exact - (x * y).value() * one) == abs(exact - other.value() * one) && (x * y).value()
        != other.value() {
        lemma_rounded_ties(negative, n, one_in_units(), other);
    }
}

/// A quotient is the double nearest to the exact one: no other is nearer, and where another is as
/// near, the quotient has the even bits.
pub proof fn law_quotient_is_nearest(x: Binary64, y: Binary64, other: Binary64)
    requires
        x.is_finite(),
        y.is_finite(),
        y.value() != 0,
        (x / y).is_finite(),
    ensures
        ({
            let exact = x.value() * one_in_units();
            let (gap, far) = (
                abs(exact - (x / y).value() * y.value()),
                abs(exact - other.value() * y.value()),
            );
            gap <= far && (gap == far && (x / y).value() != other.value() ==> (x / y).bits % 2
                == 0)
        }),
{
    let negative = x.negative() != y.negative();
    let (a, d, k) = (x.magnitude() as int, y.magnitude() as int, one_in_units() as int);
    let (r, o) = ((x / y).value(), other.value());
    law_rounded_is_nearest(negative, x.magnitude() * one_in_units(), y.magnitude(), other);
    law_rounded_is_nearest(
        negative,
        x.magnitude() * one_in_units(),
        y.magnitude(),
        other.negated(),
    );
    assert(other.negated().value() == -o);
    assert((-a) * k == -(a * k)) by (nonlinear_arith);
    assert(r * (-d) == -(r * d)) by (nonlinear_arith);
    assert(o * (-d) == -(o * d)) by (nonlinear_arith);
    assert((-o) * d == -(o * d)) by (nonlinear_arith);
    assert((-o) * (-d) == o * d) by (nonlinear_arith);
    let exact = x.value() * one_in_units();
    if abs(exact - r * y.value()) == abs(exact - o * y.value()) && r != o {
        lemma_rounded_ties(negative, x.magnitude() * one_in_units(), y.magnitude(), other);
    }
}

/// Where a sum is no number, and where it is infinite because an operand is.
pub proof fn law_special_sums(x: Binary64, y: Binary64)
    ensures
        (x + y).is_nan() <==> x.is_nan() || y.is_nan() || (x.is_infinite() && y.is_infinite()
            && x.negative() != y.negative()),
        !(x + y).is_nan() && x.is_infinite() ==> x + y == x,
        !(x + y).is_nan() && y.is_infinite() ==> x + y == y,
{
    if !x.is_nan() && !y.is_nan() && (x.is_finite() || y.is_finite()) {
        lemma_add_is_number(x, y);
    }
}

/// Where a product is no number, and where it is infinite because a factor is. Its sign is that
/// of its factors.
pub proof fn law_special_products(x: Binary64, y: Binary64)
    ensures
        (x * y).is_nan() <==> x.is_nan() || y.is_nan() || (x.is_infinite() && y.value() == 0) || (
        y.is_infinite() && x.value() == 0),
        !(x * y).is_nan() && (x.is_infinite() || y.is_infinite()) ==> (x * y).is_infinite(),
        !(x * y).is_nan() ==> (x * y).negative() == (x.negative() != y.negative()),
{
    lemma_units_order(0, INFINITE as nat);
    if !x.is_nan() && !y.is_nan() && (x.is_finite() || y.value() != 0) && (y.is_finite()
        || x.value() != 0) {
        lemma_mul_is_number(x, y);
    }
}

/// Where a quotient is no number, and where it is infinite or zero because of special operands.
/// Its sign is that of its operands.
pub proof fn law_special_quotients(x: Binary64, y: Binary64)
    ensures
        (x / y).is_nan() <==> x.is_nan() || y.is_nan() || (x.is_infinite() && y.is_infinite()) || (
        x.value() == 0 && y.value() == 0),
        !(x / y).is_nan() && (x.is_infinite() || y.value() == 0) ==> (x / y).is_infinite(),
        !(x / y).is_nan() && y.is_infinite() ==> (x / y).value() == 0,
        !(x / y).is_nan() ==> (x / y).negative() == (x.negative() != y.negative()),
{
    lemma_units_order(0, INFINITE as nat);
    lemma_units_order(0, y.position());
    if !x.is_nan() && y.is_finite() && y.value() != 0 {
        lemma_div_is_number(x, y);
    }
}

/// Comparisons go by the numbers, and hold of no NaN.
pub proof fn law_comparisons(x: Binary64, y: Binary64)
    ensures
        x < y <==> !x.is_nan() && !y.is_nan() && x.value() < y.value(),
        x <= y <==> !x.is_nan() && !y.is_nan() && x.value() <= y.value(),
        x > y <==> y < x,
        x >= y <==> y <= x,
        x.equals(y) <==> x <= y && y <= x,
{
}

/// The larger and the smaller of two doubles, of which either may be a NaN.
pub proof fn law_max_and_min(x: Binary64, y: Binary64)
    ensures
        x.max(y) == x || x.max(y) == y,
        x.min(y) == x || x.min(y) == y,
        !x.is_nan() ==> x.max(y) >= x && x.min(y) <= x,
        !y.is_nan() ==> x.max(y) >= y && x.min(y) <= y,
{
}

/// The magnitude and the negated number.
pub proof fn law_abs_and_negated(x: Binary64)
    ensures
        x.abs().value() == abs(x.value()),
        x.negated().value() == -x.value(),
        x.abs().is_nan() == x.is_nan(),
        x.negated().is_nan() == x.is_nan(),
        !x.abs().negative(),
        x.negated().negative() != x.negative(),
{
}

/// Rounding to whole numbers goes to the nearest, halves away from zero, and keeps the sign.
pub proof fn law_round_half_away(x: Binary64)
    requires
        x.is_finite(),
    ensures
        ({
            let (exact, whole, one) = (abs(x.value()), abs(x.round().value()), one_in_units());
            2 * exact - one < 2 * whole <= 2 * exact + one
        }),
        x.round().negative() == x.negative(),
{
    lemma_whole_bounds(x.magnitude());
    law_to_whole_is_exact(x, Direction::HalfAway);
}

/// Infinities are taken for whole numbers, and what is no number does not become one.
pub proof fn law_special_wholes(x: Binary64)
    ensures
        x.is_infinite() ==> x.floor() == x && x.ceil() == x && x.round() == x,
        x.is_nan() ==> x.floor().is_nan() && x.ceil().is_nan() && x.round().is_nan(),
{
}

} // verus!
