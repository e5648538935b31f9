//! The operations keep the order of numbers.
//!
//! Rounding never turns two results around, so what holds of the exact operations holds of the
//! rounded ones, as long as their results are numbers.
use crate::arithmetic::law_ceil;
use crate::arithmetic::law_floor;
use crate::arithmetic::law_to_whole_is_exact;
use crate::binary64::one_in_units;
use crate::binary64::rounded;
use crate::binary64::whole;
use crate::binary64::Binary64;
use crate::binary64::Direction;
use crate::binary64::INFINITE;
use crate::constants::zero;
use crate::rounding::law_nearest_monotone;
use crate::rounding::lemma_units_order;
use crate::rounding::units;
use vstd::arithmetic::div_mod::lemma_div_is_ordered;
use vstd::arithmetic::div_mod::lemma_fundamental_div_mod;
use vstd::arithmetic::div_mod::lemma_fundamental_div_mod_converse;
use vstd::arithmetic::power2::lemma_pow2_pos;
use vstd::prelude::*;

verus! {

/// A number lies between the infinities.
proof fn lemma_between_infinities(x: Binary64)
    requires
        !x.is_nan(),
    ensures
        0 <= x.magnitude() <= units(INFINITE as nat),
        -units(INFINITE as nat) <= x.value() <= units(INFINITE as nat),
        x.is_infinite() ==> x.magnitude() == units(INFINITE as nat),
        (x.magnitude() == 0) == (x.position() == 0),
{
    lemma_units_order(x.position(), INFINITE as nat);
    lemma_units_order(0, x.position());
}

/// Magnitudes compare as their positions do.
proof fn lemma_magnitude_order(x: Binary64, y: Binary64)
    ensures
        x.position() <= y.position() <==> x.magnitude() <= y.magnitude(),
{
    lemma_units_order(x.position(), y.position());
    lemma_units_order(y.position(), x.position());
}

/// A larger exact magnitude never rounds to a smaller one.
proof fn lemma_rounded_monotone(negative: bool, n: nat, m: nat, d: nat)
    requires
        d > 0,
        n <= m,
    ensures
        !rounded(negative, n, d).is_nan(),
        !rounded(negative, m, d).is_nan(),
        rounded(negative, n, d).negative() == negative,
        rounded(negative, m, d).negative() == negative,
        rounded(negative, n, d).magnitude() <= rounded(negative, m, d).magnitude(),
{
    law_nearest_monotone(n, m, d);
    lemma_magnitude_order(rounded(negative, n, d), rounded(negative, m, d));
}

/// Negation turns the order around.
pub proof fn law_negated_reverses(x: Binary64, y: Binary64)
    requires
        x <= y,
    ensures
        y.negated() <= x.negated(),
{
    assert(x.negated().value() == -x.value());
    assert(y.negated().value() == -y.value());
}

/// Addition does not depend on the order of its operands.
pub proof fn law_add_commutes(x: Binary64, y: Binary64)
    ensures
        x + y == y + x,
{
}

/// Multiplication does not depend on the order of its operands.
pub proof fn law_mul_commutes(x: Binary64, y: Binary64)
    ensures
        x * y == y * x,
{
    assert(x.magnitude() * y.magnitude() == y.magnitude() * x.magnitude()) by (nonlinear_arith);
}

/// Adding the same number keeps the order.
pub proof fn law_add_monotone(x: Binary64, y: Binary64, z: Binary64)
    requires
        x <= y,
        !(x + z).is_nan(),
        !(y + z).is_nan(),
    ensures
        x + z <= y + z,
{
    lemma_between_infinities(x);
    lemma_between_infinities(y);
    lemma_between_infinities(z);
    lemma_between_infinities(x + z);
    lemma_between_infinities(y + z);
    if x.is_finite() && y.is_finite() && z.is_finite() {
        let s = x.value() + z.value();
        let t = y.value() + z.value();
        if s > 0 {
            lemma_rounded_monotone(false, s as nat, t as nat, 1);
        } else if t < 0 {
            lemma_rounded_monotone(true, (-t) as nat, (-s) as nat, 1);
        } else {
            if s < 0 {
                lemma_rounded_monotone(true, (-s) as nat, (-s) as nat, 1);
            }
            if t > 0 {
                lemma_rounded_monotone(false, t as nat, t as nat, 1);
            }
        }
    } else {
        lemma_units_order(x.position(), INFINITE as nat);
        lemma_units_order(y.position(), INFINITE as nat);
    }
}

/// A larger magnitude never has the smaller product with the same number.
proof fn lemma_mul_magnitude(x: Binary64, y: Binary64, z: Binary64)
    requires
        x.magnitude() <= y.magnitude(),
        !(x * z).is_nan(),
        !(y * z).is_nan(),
    ensures
        (x * z).magnitude() <= (y * z).magnitude(),
        (x * z).negative() == (x.negative() != z.negative()),
{
    lemma_between_infinities(x);
    lemma_between_infinities(y);
    lemma_between_infinities(z);
    lemma_between_infinities(x * z);
    lemma_between_infinities(y * z);
    lemma_magnitude_order(x, y);
    lemma_pow2_pos(1074);
    let negative = x.negative() != z.negative();
    if x.is_finite() && y.is_finite() && z.is_finite() {
        let n = x.magnitude() * z.magnitude();
        let m = y.magnitude() * z.magnitude();
        assert(n <= m) by (nonlinear_arith)
            requires
                n == x.magnitude() * z.magnitude(),
                m == y.magnitude() * z.magnitude(),
                x.magnitude() <= y.magnitude(),
        ;
        lemma_rounded_monotone(negative, n, m, one_in_units());
        lemma_rounded_monotone(!negative, n, m, one_in_units());
    } else if x.is_finite() && z.is_finite() {
        let n = x.magnitude() * z.magnitude();
        lemma_rounded_monotone(negative, n, n, one_in_units());
    }
}

/// A product with zero is zero.
proof fn lemma_mul_zero(x: Binary64, z: Binary64)
    requires
        x.value() == 0 || z.value() == 0,
        !(x * z).is_nan(),
    ensures
        (x * z).value() == 0,
{
    lemma_between_infinities(x);
    lemma_between_infinities(z);
    lemma_pow2_pos(1074);
    assert(x.magnitude() * z.magnitude() == 0) by (nonlinear_arith)
        requires
            x.magnitude() == 0 || z.magnitude() == 0,
    ;
}

/// Multiplying by the same number that is not negative keeps the order.
pub proof fn law_mul_monotone(x: Binary64, y: Binary64, z: Binary64)
    requires
        x <= y,
        z >= zero(),
        !(x * z).is_nan(),
        !(y * z).is_nan(),
    ensures
        x * z <= y * z,
{
    if z.value() == 0 {
        lemma_mul_zero(x, z);
        lemma_mul_zero(y, z);
    } else {
        if x.magnitude() <= y.magnitude() {
            lemma_mul_magnitude(x, y, z);
        } else {
            lemma_mul_magnitude(y, x, z);
        }
        lemma_mul_magnitude(x, x, z);
        lemma_mul_magnitude(y, y, z);
        lemma_equal_magnitudes(x, y);
        if x.value() == 0 {
            lemma_mul_zero(x, z);
        }
        if y.value() == 0 {
            lemma_mul_zero(y, z);
        }
    }
}

/// Numbers of equal magnitude are at the same position.
proof fn lemma_equal_magnitudes(x: Binary64, y: Binary64)
    ensures
        x.magnitude() == y.magnitude() ==> x.position() == y.position(),
{
    lemma_units_order(x.position(), y.position());
}

/// A larger magnitude never has the smaller quotient by the same number.
proof fn lemma_div_magnitude(x: Binary64, y: Binary64, z: Binary64)
    requires
        x.magnitude() <= y.magnitude(),
        z.magnitude() > 0,
        !(x / z).is_nan(),
        !(y / z).is_nan(),
    ensures
        (x / z).magnitude() <= (y / z).magnitude(),
        (x / z).negative() == (x.negative() != z.negative()),
{
    lemma_between_infinities(x);
    lemma_between_infinities(y);
    lemma_between_infinities(z);
    lemma_between_infinities(x / z);
    lemma_between_infinities(y / z);
    lemma_magnitude_order(x, y);
    let negative = x.negative() != z.negative();
    if x.is_finite() && z.is_finite() {
        let n = x.magnitude() * one_in_units();
        if y.is_finite() {
            let m = y.magnitude() * one_in_units();
            assert(n <= m) by (nonlinear_arith)
                requires
                    n == x.magnitude() * one_in_units(),
                    m == y.magnitude() * one_in_units(),
                    x.magnitude() <= y.magnitude(),
            ;
            lemma_rounded_monotone(negative, n, m, z.magnitude());
            lemma_rounded_monotone(!negative, n, m, z.magnitude());
        } else {
            lemma_rounded_monotone(negative, n, n, z.magnitude());
        }
    }
}

/// Dividing by the same positive number keeps the order.
pub proof fn law_div_monotone(x: Binary64, y: Binary64, z: Binary64)
    requires
        x <= y,
        z > zero(),
        !(x / z).is_nan(),
        !(y / z).is_nan(),
    ensures
        x / z <= y / z,
{
    if x.magnitude() <= y.magnitude() {
        lemma_div_magnitude(x, y, z);
    } else {
        lemma_div_magnitude(y, x, z);
    }
    lemma_div_magnitude(x, x, z);
    lemma_div_magnitude(y, y, z);
    lemma_equal_magnitudes(x, y);
}

/// Multiples of a positive number that are less than it apart are in order.
proof fn lemma_multiples(a: int, b: int, one: int)
    requires
        one > 0,
        a % one == 0,
        b % one == 0,
        a < b + one,
    ensures
        a <= b,
{
    lemma_fundamental_div_mod(a, one);
    lemma_fundamental_div_mod(b, one);
    let (i, j) = (a / one, b / one);
    assert(i <= j) by (nonlinear_arith)
        requires
            one > 0,
            one * i < one * j + one,
    ;
    assert(one * i <= one * j) by (nonlinear_arith)
        requires
            one > 0,
            i <= j,
    ;
}

/// The floor keeps the order.
pub proof fn law_floor_monotone(x: Binary64, y: Binary64)
    requires
        x <= y,
    ensures
        x.floor() <= y.floor(),
{
    lemma_pow2_pos(1074);
    lemma_between_infinities(x);
    lemma_between_infinities(y);
    lemma_magnitude_order(x, y);
    lemma_magnitude_order(y, x);
    if x.is_finite() {
        law_floor(x);
        lemma_between_infinities(x.floor());
    }
    if y.is_finite() {
        law_floor(y);
        lemma_between_infinities(y.floor());
    }
    if x.is_finite() && y.is_finite() {
        lemma_multiples(x.floor().value(), y.floor().value(), one_in_units() as int);
    }
}

/// The ceiling keeps the order.
pub proof fn law_ceil_monotone(x: Binary64, y: Binary64)
    requires
        x <= y,
    ensures
        x.ceil() <= y.ceil(),
{
    lemma_pow2_pos(1074);
    lemma_between_infinities(x);
    lemma_between_infinities(y);
    lemma_magnitude_order(x, y);
    lemma_magnitude_order(y, x);
    if x.is_finite() {
        law_ceil(x);
        lemma_between_infinities(x.ceil());
    }
    if y.is_finite() {
        law_ceil(y);
        lemma_between_infinities(y.ceil());
    }
    if x.is_finite() && y.is_finite() {
        lemma_multiples(x.ceil().value(), y.ceil().value(), one_in_units() as int);
    }
}

/// A larger magnitude never rounds to a smaller whole number.
proof fn lemma_half_away_monotone(u: nat, v: nat)
    requires
        u <= v,
    ensures
        whole(Direction::HalfAway, u) * one_in_units() <= whole(Direction::HalfAway, v)
            * one_in_units(),
        u == 0 ==> whole(Direction::HalfAway, u) == 0,
{
    let one = one_in_units();
    lemma_pow2_pos(1074);
    lemma_fundamental_div_mod_converse(one as int, (2 * one) as int, 0, one as int);
    lemma_div_is_ordered((2 * u + one) as int, (2 * v + one) as int, (2 * one) as int);
    let (a, b) = (whole(Direction::HalfAway, u), whole(Direction::HalfAway, v));
    assert(a * one <= b * one) by (nonlinear_arith)
        requires
            a <= b,
    ;
}

/// Rounding to whole numbers keeps the order.
pub proof fn law_round_monotone(x: Binary64, y: Binary64)
    requires
        x <= y,
    ensures
        x.round() <= y.round(),
{
    lemma_between_infinities(x);
    lemma_between_infinities(y);
    lemma_magnitude_order(x, y);
    lemma_magnitude_order(y, x);
    if x.is_finite() {
        law_to_whole_is_exact(x, Direction::HalfAway);
        lemma_between_infinities(x.round());
    }
    if y.is_finite() {
        law_to_whole_is_exact(y, Direction::HalfAway);
        lemma_between_infinities(y.round());
    }
    if x.is_finite() && y.is_finite() {
        if x.magnitude() <= y.magnitude() {
            lemma_half_away_monotone(x.magnitude(), y.magnitude());
        } else {
            lemma_half_away_monotone(y.magnitude(), x.magnitude());
        }
        lemma_equal_magnitudes(x, y);
        lemma_half_away_monotone(x.magnitude(), x.magnitude());
        lemma_half_away_monotone(y.magnitude(), y.magnitude());
    }
}

/// A sum is a number unless opposite infinities meet.
pub proof fn lemma_add_is_number(x: Binary64, y: Binary64)
    requires
        !x.is_nan(),
        !y.is_nan(),
        x.is_finite() || y.is_finite(),
    ensures
        !(x + y).is_nan(),
{
    let s = x.value() + y.value();
    if s > 0 {
        lemma_rounded_monotone(false, s as nat, s as nat, 1);
    } else if s < 0 {
        lemma_rounded_monotone(true, (-s) as nat, (-s) as nat, 1);
    }
}

/// A product is a number unless an infinity meets a zero.
pub proof fn lemma_mul_is_number(x: Binary64, y: Binary64)
    requires
        !x.is_nan(),
        !y.is_nan(),
        x.is_finite() || y.value() != 0,
        y.is_finite() || x.value() != 0,
    ensures
        !(x * y).is_nan(),
{
    lemma_between_infinities(x);
    lemma_between_infinities(y);
    lemma_units_order(0, INFINITE as nat);
    lemma_pow2_pos(1074);
    let n = x.magnitude() * y.magnitude();
    lemma_rounded_monotone(x.negative() != y.negative(), n, n, one_in_units());
}

/// A quotient by a finite number other than zero is a number.
pub proof fn lemma_div_is_number(x: Binary64, y: Binary64)
    requires
        !x.is_nan(),
        y.is_finite(),
        y.value() != 0,
    ensures
        !(x / y).is_nan(),
{
    let n = x.magnitude() * one_in_units();
    lemma_rounded_monotone(x.negative() != y.negative(), n, n, y.magnitude());
}

/// Whole numbers made of numbers are numbers.
pub proof fn lemma_whole_is_number(x: Binary64)
    requires
        !x.is_nan(),
    ensures
        !x.floor().is_nan(),
        !x.ceil().is_nan(),
        !x.round().is_nan(),
{
    if x.is_finite() {
        law_to_whole_is_exact(x, Direction::TowardsZero);
        law_to_whole_is_exact(x, Direction::AwayFromZero);
        law_to_whole_is_exact(x, Direction::HalfAway);
    }
}

} // verus!
