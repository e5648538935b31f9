//! The numbers that the rules are written with.
use crate::binary64::one_in_units;
use crate::binary64::rounded;
use crate::binary64::Binary64;
use crate::rounding::lemma_nearest_closed;
use crate::rounding::lemma_nearest_int_scale;
use crate::rounding::lemma_units_at_least;
use crate::rounding::nearest;
use crate::rounding::nearest_int;
use crate::rounding::BINADE;
use crate::rounding::EVEN_SPAN;
use vstd::arithmetic::power2::lemma2_to64;
use vstd::arithmetic::power2::lemma2_to64_rest;
use vstd::arithmetic::power2::lemma_pow2_adds;
use vstd::arithmetic::power2::lemma_pow2_pos;
use vstd::arithmetic::power2::pow2;
use vstd::prelude::*;

verus! {

/// The double nearest to the fraction `n / d`.
pub open spec fn fraction(n: nat, d: nat) -> Binary64 {
    rounded(false, n * one_in_units(), d)
}

/// The position of the double nearest to `n / d`, where `n / d` lies in the binade in which a
/// double is a whole number of `2^-e`.
proof fn lemma_fraction(n: nat, d: nat, e: nat)
    requires
        0 < d,
        e < 1074,
        d * BINADE <= n * pow2(e) < d * EVEN_SPAN,
    ensures
        nearest(n * one_in_units(), d) == (1074 - e) * BINADE + nearest_int(n * pow2(e), d),
{
    let k = (1074 - e) as nat;
    let p = pow2(k);
    lemma_pow2_adds(e, k);
    lemma_pow2_pos(k);
    assert(n * one_in_units() == (n * pow2(e)) * p) by (nonlinear_arith)
        requires
            one_in_units() == pow2(e) * p,
    ;
    assert((d * p) * BINADE <= (n * pow2(e)) * p < (d * p) * EVEN_SPAN) by (nonlinear_arith)
        requires
            d * BINADE <= n * pow2(e) < d * EVEN_SPAN,
            p > 0,
    ;
    lemma_nearest_closed(n * one_in_units(), d, k);
    lemma_nearest_int_scale(n * pow2(e), d, p);
}

/// Zero.
#[verifier::allow_in_spec]
pub fn zero() -> (r: Binary64)
    returns
        (Binary64 { bits: 0 }),
{
    Binary64 { bits: 0 }
}

pub open spec fn spec_one() -> Binary64 {
    fraction(1, 1)
}

/// One.
#[verifier::when_used_as_spec(spec_one)]
pub fn one() -> (r: Binary64)
    ensures
        r == spec_one(),
        r.bits == 0x3ff0_0000_0000_0000,
{
    proof {
        lemma2_to64();
        lemma2_to64_rest();
        lemma_fraction(1, 1, 52);
    }
    Binary64 { bits: 0x3ff0_0000_0000_0000 }
}

/// One is above zero.
pub proof fn lemma_one_is_positive()
    ensures
        zero() < one(),
        one().negated() < zero(),
        one().is_finite(),
{
    lemma2_to64();
    lemma2_to64_rest();
    lemma_fraction(1, 1, 52);
    let p = 0x3ff0_0000_0000_0000nat;
    assert(one() == (Binary64 { bits: 0x3ff0_0000_0000_0000 }));
    lemma_units_at_least(p);
}

/// The decimal scale is a positive number.
pub proof fn lemma_decimal_scale_is_positive()
    ensures
        zero() < decimal_scale(),
        decimal_scale().is_finite(),
{
    lemma2_to64();
    lemma2_to64_rest();
    lemma_fraction(10_000_000_000, 1, 19);
    assert(decimal_scale() == (Binary64 { bits: 0x4202_a05f_2000_0000 }));
    lemma_units_at_least(0x4202_a05f_2000_0000nat);
}

pub open spec fn spec_initial_share() -> Binary64 {
    fraction(8, 10)
}

/// A position smaller than this share of the initial quantity is still being opened.
#[verifier::when_used_as_spec(spec_initial_share)]
pub fn initial_share() -> (r: Binary64)
    ensures
        r == spec_initial_share(),
        r.bits == 0x3fe9_9999_9999_999a,
{
    proof {
        lemma2_to64();
        lemma2_to64_rest();
        lemma_fraction(8, 10, 53);
    }
    Binary64 { bits: 0x3fe9_9999_9999_999a }
}

pub open spec fn spec_full_share() -> Binary64 {
    fraction(999, 1000)
}

/// From this share of the exposure limit on a position counts as full.
#[verifier::when_used_as_spec(spec_full_share)]
pub fn full_share() -> (r: Binary64)
    ensures
        r == spec_full_share(),
        r.bits == 0x3fef_f7ce_d916_872b,
{
    proof {
        lemma2_to64();
        lemma2_to64_rest();
        lemma_fraction(999, 1000, 53);
    }
    Binary64 { bits: 0x3fef_f7ce_d916_872b }
}

pub open spec fn spec_limit_slack() -> Binary64 {
    fraction(101, 100)
}

/// The factor by which an exposure may exceed its limit before an entry is cropped.
#[verifier::when_used_as_spec(spec_limit_slack)]
pub fn limit_slack() -> (r: Binary64)
    ensures
        r == spec_limit_slack(),
        r.bits == 0x3ff0_28f5_c28f_5c29,
{
    proof {
        lemma2_to64();
        lemma2_to64_rest();
        lemma_fraction(101, 100, 52);
    }
    Binary64 { bits: 0x3ff0_28f5_c28f_5c29 }
}

pub open spec fn spec_dust_share() -> Binary64 {
    fraction(1, 4)
}

/// A next re-entry below this share of the double down factor is too small to be left over.
#[verifier::when_used_as_spec(spec_dust_share)]
pub fn dust_share() -> (r: Binary64)
    ensures
        r == spec_dust_share(),
        r.bits == 0x3fd0_0000_0000_0000,
{
    proof {
        lemma2_to64();
        lemma2_to64_rest();
        lemma_fraction(1, 4, 54);
    }
    Binary64 { bits: 0x3fd0_0000_0000_0000 }
}

pub open spec fn spec_decimal_scale() -> Binary64 {
    fraction(10_000_000_000, 1)
}

/// One followed by as many zeros as there are decimals in a rounded price or quantity.
#[verifier::when_used_as_spec(spec_decimal_scale)]
pub fn decimal_scale() -> (r: Binary64)
    ensures
        r == spec_decimal_scale(),
        r.bits == 0x4202_a05f_2000_0000,
{
    proof {
        lemma2_to64();
        lemma2_to64_rest();
        lemma_fraction(10_000_000_000, 1, 19);
    }
    Binary64 { bits: 0x4202_a05f_2000_0000 }
}

} // verus!
