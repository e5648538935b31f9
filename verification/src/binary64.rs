//! Double precision numbers, computed with integers.
//!
//! [`Binary64`] holds the 64 bits of an IEEE 754 double. Its operations return, bit for bit, the
//! double that the standard prescribes: the exact result rounded to the nearest double, ties to
//! even. Where the standard leaves the bits of a NaN open, the result is the quiet NaN
//! [`NAN_BITS`].
use crate::rounding::law_nearest_is_nearest;
use crate::rounding::lemma_units_order;
use crate::rounding::nearest;
use crate::rounding::units;
use vstd::arithmetic::power2::pow2;
use vstd::math::abs;
use vstd::prelude::*;

verus! {

/// The bit that makes a double negative: `2^63`.
pub const SIGN: u64 = 0x8000_0000_0000_0000;

/// The position of infinity, just above every finite magnitude.
pub const INFINITE: u64 = 0x7ff0_0000_0000_0000;

/// The bits of the quiet NaN that invalid operations return.
pub const NAN_BITS: u64 = 0x7ff8_0000_0000_0000;

/// A double, by its bits.
#[derive(Clone, Copy, Debug)]
pub struct Binary64 {
    pub bits: u64,
}

/// How many units make up the number one: `2^1074`.
pub open spec fn one_in_units() -> nat {
    pow2(1074)
}

/// The double with the given sign and the magnitude at position `b`.
pub open spec fn signed(negative: bool, b: nat) -> Binary64 {
    Binary64 {
        bits: (if negative {
            SIGN + b
        } else {
            b as int
        }) as u64,
    }
}

/// The double nearest to `n / d` units under the given sign, ties to even; infinity from where
/// the nearest magnitude would lie past the largest finite one.
pub open spec fn rounded(negative: bool, n: nat, d: nat) -> Binary64 {
    let b = nearest(n, d);
    signed(
        negative,
        if b < INFINITE {
            b
        } else {
            INFINITE as nat
        },
    )
}

/// How a fractional magnitude becomes a whole one.
pub enum Direction {
    /// To the next whole number towards zero.
    TowardsZero,
    /// To the next whole number away from zero.
    AwayFromZero,
    /// To the nearest whole number, halves away from zero.
    HalfAway,
}

/// The whole number that stands for `u` units under the direction.
pub open spec fn whole(direction: Direction, u: nat) -> nat {
    match direction {
        Direction::TowardsZero => u / one_in_units(),
        Direction::AwayFromZero => ((u + one_in_units() - 1) / one_in_units() as int) as nat,
        Direction::HalfAway => (2 * u + one_in_units()) / (2 * one_in_units()),
    }
}

impl Binary64 {
    /// The sign bit, which a zero and a NaN have too.
    pub open spec fn negative(self) -> bool {
        self.bits >= SIGN
    }

    /// The bits below the sign bit: the position in the order of magnitudes.
    pub open spec fn position(self) -> nat {
        (if self.bits >= SIGN {
            self.bits - SIGN
        } else {
            self.bits as int
        }) as nat
    }

    pub open spec fn spec_is_nan(self) -> bool {
        self.position() > INFINITE
    }

    pub open spec fn spec_is_infinite(self) -> bool {
        self.position() == INFINITE
    }

    pub open spec fn is_finite(self) -> bool {
        self.position() < INFINITE
    }

    /// The magnitude in units; an infinity counts as the power of two past the finite range.
    pub open spec fn magnitude(self) -> nat {
        units(self.position())
    }

    /// The number in units, under its sign. Both zeros are 0.
    pub open spec fn value(self) -> int {
        if self.negative() {
            -self.magnitude()
        } else {
            self.magnitude() as int
        }
    }

    /// The number itself.
    pub open spec fn number(self) -> real {
        self.value() as real / one_in_units() as real
    }

    pub open spec fn spec_from_bits(bits: u64) -> Binary64 {
        Binary64 { bits }
    }

    /// The double with these bits.
    #[verifier::when_used_as_spec(spec_from_bits)]
    pub fn from_bits(bits: u64) -> (r: Binary64)
        ensures
            r == Binary64::spec_from_bits(bits),
    {
        Binary64 { bits }
    }

    /// The bits of this double.
    pub fn to_bits(self) -> (r: u64)
        ensures
            r == self.bits,
    {
        self.bits
    }

    /// Whether the sign bit is set.
    pub fn is_sign_negative(self) -> (r: bool)
        ensures
            r == self.negative(),
    {
        self.bits >= SIGN
    }

    /// The bits below the sign bit.
    pub(crate) fn low_bits(self) -> (r: u64)
        ensures
            r == self.position(),
            r < SIGN,
    {
        if self.bits >= SIGN {
            self.bits - SIGN
        } else {
            self.bits
        }
    }

    /// Whether this is not a number.
    #[verifier::when_used_as_spec(spec_is_nan)]
    pub fn is_nan(self) -> (r: bool)
        ensures
            r == self.spec_is_nan(),
    {
        self.low_bits() > INFINITE
    }

    /// Whether this is one of the infinities.
    #[verifier::when_used_as_spec(spec_is_infinite)]
    pub fn is_infinite(self) -> (r: bool)
        ensures
            r == self.spec_is_infinite(),
    {
        self.low_bits() == INFINITE
    }

    pub open spec fn spec_lt(self, rhs: Binary64) -> bool {
        !self.is_nan() && !rhs.is_nan() && self.value() < rhs.value()
    }

    pub open spec fn spec_le(self, rhs: Binary64) -> bool {
        !self.is_nan() && !rhs.is_nan() && self.value() <= rhs.value()
    }

    pub open spec fn spec_gt(self, rhs: Binary64) -> bool {
        rhs.spec_lt(self)
    }

    pub open spec fn spec_ge(self, rhs: Binary64) -> bool {
        rhs.spec_le(self)
    }

    pub open spec fn spec_equals(self, rhs: Binary64) -> bool {
        !self.is_nan() && !rhs.is_nan() && self.value() == rhs.value()
    }

    /// Less than, as numbers; false if either is a NaN.
    #[verifier::when_used_as_spec(spec_lt)]
    pub fn lt(self, rhs: Binary64) -> (r: bool)
        ensures
            r == self.spec_lt(rhs),
    {
        let a: u64 = self.low_bits();
        let b: u64 = rhs.low_bits();
        proof {
            lemma_units_order(a as nat, b as nat);
            lemma_units_order(0, a as nat);
            lemma_units_order(0, b as nat);
        }
        if a > INFINITE || b > INFINITE {
            false
        } else if self.bits < SIGN {
            rhs.bits < SIGN && a < b
        } else if rhs.bits < SIGN {
            a != 0 || b != 0
        } else {
            b < a
        }
    }

    /// Less than or equal, as numbers; false if either is a NaN.
    #[verifier::when_used_as_spec(spec_le)]
    pub fn le(self, rhs: Binary64) -> (r: bool)
        ensures
            r == self.spec_le(rhs),
    {
        !self.is_nan() && !rhs.is_nan() && !rhs.lt(self)
    }

    /// Greater than, as numbers; false if either is a NaN.
    #[verifier::when_used_as_spec(spec_gt)]
    pub fn gt(self, rhs: Binary64) -> (r: bool)
        ensures
            r == self.spec_gt(rhs),
    {
        rhs.lt(self)
    }

    /// Greater than or equal, as numbers; false if either is a NaN.
    #[verifier::when_used_as_spec(spec_ge)]
    pub fn ge(self, rhs: Binary64) -> (r: bool)
        ensures
            r == self.spec_ge(rhs),
    {
        rhs.le(self)
    }

    /// Equality as numbers: the two zeros are equal, and a NaN equals nothing.
    #[verifier::when_used_as_spec(spec_equals)]
    pub fn equals(self, rhs: Binary64) -> (r: bool)
        ensures
            r == self.spec_equals(rhs),
    {
        self.le(rhs) && rhs.le(self)
    }

    pub open spec fn spec_max(self, rhs: Binary64) -> Binary64 {
        if self.is_nan() || self.spec_lt(rhs) {
            rhs
        } else {
            self
        }
    }

    pub open spec fn spec_min(self, rhs: Binary64) -> Binary64 {
        if self.is_nan() || rhs.spec_lt(self) {
            rhs
        } else {
            self
        }
    }

    /// The larger of two numbers, or the one that is a number where the other is a NaN. Of two
    /// zeros it is `self`.
    #[verifier::when_used_as_spec(spec_max)]
    pub fn max(self, rhs: Binary64) -> (r: Binary64)
        ensures
            r == self.spec_max(rhs),
    {
        if self.is_nan() || self.lt(rhs) {
            rhs
        } else {
            self
        }
    }

    /// The smaller of two numbers, or the one that is a number where the other is a NaN. Of two
    /// zeros it is `self`.
    #[verifier::when_used_as_spec(spec_min)]
    pub fn min(self, rhs: Binary64) -> (r: Binary64)
        ensures
            r == self.spec_min(rhs),
    {
        if self.is_nan() || rhs.lt(self) {
            rhs
        } else {
            self
        }
    }

    pub open spec fn spec_negated(self) -> Binary64 {
        signed(!self.negative(), self.position())
    }

    pub open spec fn spec_abs(self) -> Binary64 {
        signed(false, self.position())
    }

    /// The same magnitude under the other sign.
    #[verifier::when_used_as_spec(spec_negated)]
    pub fn negated(self) -> (r: Binary64)
        ensures
            r == self.spec_negated(),
    {
        if self.bits >= SIGN {
            Binary64 { bits: self.bits - SIGN }
        } else {
            Binary64 { bits: self.bits + SIGN }
        }
    }

    /// The magnitude, without the sign.
    #[verifier::when_used_as_spec(spec_abs)]
    pub fn abs(self) -> (r: Binary64)
        ensures
            r == self.spec_abs(),
    {
        Binary64 { bits: self.low_bits() }
    }
}

/// Rounding is to nearest: no finite double is nearer to the exact `n / d` units, under the given
/// sign, than the rounded one, if that is finite.
pub proof fn law_rounded_is_nearest(negative: bool, n: nat, d: nat, other: Binary64)
    requires
        d > 0,
        rounded(negative, n, d).is_finite(),
    ensures
        ({
            let exact = if negative {
                -n
            } else {
                n as int
            };
            abs(exact - rounded(negative, n, d).value() * d) <= abs(exact - other.value() * d)
        }),
{
    let b = nearest(n, d);
    let r = rounded(negative, n, d);
    assert(b < INFINITE);
    assert(r.position() == b && r.negative() == negative);
    law_nearest_is_nearest(n, d, other.position());
    law_nearest_is_nearest(n, d, 0);
    let (u, v) = (units(b), other.magnitude());
    assert((-u) * d == -(u * d)) by (nonlinear_arith);
    assert((-v) * d == -(v * d)) by (nonlinear_arith);
    assert(v * d >= 0) by (nonlinear_arith)
        requires
            v >= 0,
            d >= 0,
    ;
    assert(units(0) * d == 0) by (nonlinear_arith)
        requires
            units(0) == 0,
    ;
}

} // verus!
