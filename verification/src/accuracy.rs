//! How exact the formulas on prices, quantities and exposures are.
use crate::arithmetic::law_ceil;
use crate::arithmetic::law_floor;
use crate::arithmetic::law_round;
use crate::arithmetic::law_to_whole_is_exact;
use crate::arithmetic::lemma_whole_is_double;
use crate::binary64::one_in_units;
use crate::binary64::Binary64;
use crate::binary64::Direction;
use crate::binary64::INFINITE;
use crate::constants::decimal_scale;
use crate::constants::fraction;
use crate::constants::lemma_decimal_scale_is_positive;
use crate::constants::zero;
use crate::exactness::law_round_half_away;
use crate::laws::entered;
use crate::laws::meets_minimum;
use crate::monotone::law_ceil_monotone;
use crate::monotone::law_div_monotone;
use crate::monotone::law_mul_monotone;
use crate::monotone::law_round_monotone;
use crate::monotone::lemma_div_is_number;
use crate::monotone::lemma_mul_is_number;
use crate::precision::half_unit;
use crate::precision::law_div_error;
use crate::precision::law_mul_error;
use crate::precision::lemma_half_unit;
use crate::precision::lemma_half_unit_absorbed;
use crate::precision::lemma_number_order;
use crate::precision::lemma_number_signs;
use crate::precision::lemma_precision;
use crate::precision::precision;
use crate::reals::lemma_associate;
use crate::reals::lemma_cancel;
use crate::reals::lemma_distribute;
use crate::reals::lemma_quotient_times;
use crate::reals::lemma_scale;
use crate::reals::lemma_scale_bound;
use crate::reals::size;
use crate::rounding::lemma_units_order;
use crate::rules::min_entry_qty;
use crate::side::Side;
use crate::types::ExchangeParams;
use crate::types::Order;
use crate::utils::round_;
use crate::utils::round_dn;
use crate::utils::round_up;
use crate::utils::to_decimals;
use vstd::arithmetic::div_mod::lemma_fundamental_div_mod;
use vstd::arithmetic::power2::lemma_pow2_pos;
use vstd::math::abs;
use vstd::prelude::*;

verus! {

/// Half of the last decimal that prices and quantities are rounded to: half of `10^-10`.
pub open spec fn half_decimal() -> real {
    1real / 20_000_000_000real
}

/// How far apart numbers are at most, in relation to their magnitude, that several roundings made
/// of the same one: `2^-49`.
pub open spec fn tolerance() -> real {
    1real / 562_949_953_421_312real
}

/// The scale of the decimals is exact.
pub proof fn lemma_decimal_scale()
    ensures
        decimal_scale().is_finite(),
        decimal_scale().number() == 10_000_000_000real,
        decimal_scale().value() > 0,
{
    lemma_decimal_scale_is_positive();
    lemma_whole_is_double(10_000_000_000);
    let k = one_in_units() as real;
    lemma_pow2_pos(1074);
    assert(decimal_scale().value() == 10_000_000_000 * one_in_units());
    assert((10_000_000_000real * k) / k == 10_000_000_000real) by (nonlinear_arith)
        requires
            k > 0real,
    ;
}

/// How far a whole number is from the number that it was rounded from.
pub proof fn lemma_round_number(x: Binary64)
    requires
        x.is_finite(),
    ensures
        x.round().is_finite(),
        size(x.round().number() - x.number()) <= 1real / 2real,
{
    let k = one_in_units() as real;
    lemma_pow2_pos(1074);
    law_round(x);
    lemma_number_order(x, x);
    lemma_number_order(x.round(), x);
    let (a, b) = (x.number(), x.round().number());
    assert(-1real <= 2real * (b - a) <= 1real) by (nonlinear_arith)
        requires
            a * k == x.value() as real,
            b * k == x.round().value() as real,
            2real * (a * k) - k <= 2real * (b * k) <= 2real * (a * k) + k,
            k > 0real,
    ;
}

pub proof fn lemma_ceil_number(x: Binary64)
    requires
        x.is_finite(),
    ensures
        x.ceil().is_finite(),
        x.number() <= x.ceil().number() < x.number() + 1real,
{
    let k = one_in_units() as real;
    lemma_pow2_pos(1074);
    law_ceil(x);
    lemma_number_order(x, x);
    lemma_number_order(x.ceil(), x);
    let (a, b) = (x.number(), x.ceil().number());
    assert(a <= b < a + 1real) by (nonlinear_arith)
        requires
            a * k == x.value() as real,
            b * k == x.ceil().value() as real,
            b * k - k < a * k <= b * k,
            k > 0real,
    ;
}

/// Freeing a number of decimals past the last moves it by half of the last decimal at most, up
/// to rounding.
pub proof fn law_to_decimals_error(x: Binary64)
    requires
        to_decimals(x).is_finite(),
    ensures
        x.is_finite(),
        size(to_decimals(x).number() - x.number()) <= half_decimal() + precision() + 3real * (
        precision() * size(x.number())),
{
    let scale = decimal_scale();
    lemma_decimal_scale();
    lemma_precision();
    lemma_half_unit();
    let y = x * scale;
    let z = y.round();
    let w = z / scale;
    assert(x.is_finite() && y.is_finite() && z.is_finite());
    law_mul_error(x, scale);
    lemma_round_number(y);
    law_div_error(z, scale);
    let (a, b, c, d) = (x.number(), y.number(), z.number(), w.number());
    let (u, h) = (precision(), half_unit());
    assert(size(d - a) <= half_decimal() + u + 3real * (u * size(a))) by (nonlinear_arith)
        requires
            u == 1real / 9007199254740992real,
            0real < h <= 1real / 1_000_000_000_000_000_000_000_000real,
            half_decimal() == 1real / 20_000_000_000real,
            size(b - a * 10_000_000_000real) <= u * size(a * 10_000_000_000real) + h,
            size(c - b) <= 1real / 2real,
            size(d - c / 10_000_000_000real) <= u * size(c / 10_000_000_000real) + h,
    ;
}

/// Rounding to a step gives a number that is at most half a step and half of the last decimal
/// away, up to rounding.
pub proof fn law_round_error(n: Binary64, step: Binary64)
    requires
        n.is_finite(),
        step.is_finite(),
        step > zero(),
        round_(n, step).is_finite(),
    ensures
        size(round_(n, step).number() - n.number()) <= step.number() / 2real + half_decimal()
            + tolerance() * (1real + size(n.number()) + step.number()),
{
    let v = n / step;
    let m = v.round();
    let x = m * step;
    let w = to_decimals(x);
    lemma_precision();
    lemma_half_unit();
    lemma_half_unit_absorbed(step);
    law_to_decimals_error(x);
    lemma_number_order(step, step);
    assert(v.is_finite() && m.is_finite() && x.is_finite());
    law_div_error(n, step);
    lemma_round_number(v);
    law_mul_error(m, step);
    let (a, s) = (n.number(), step.number());
    let (b, c, d, e) = (v.number(), m.number(), x.number(), w.number());
    let (u, h) = (precision(), half_unit());
    let q = a / s;
    assert(q * s == a && size(q) * s == size(a)) by (nonlinear_arith)
        requires
            q == a / s,
            s > 0real,
    ;
    assert(size(b - q) * s <= u * size(a) + h * s) by (nonlinear_arith)
        requires
            size(b - q) <= u * size(q) + h,
            size(q) * s == size(a),
            s > 0real,
    ;
    assert(size(c * s - a) <= size(b - q) * s + s / 2real) by (nonlinear_arith)
        requires
            size(c - b) <= 1real / 2real,
            q * s == a,
            s > 0real,
    ;
    let cs = c * s;
    assert(size(e - a) <= s / 2real + half_decimal() + tolerance() * (1real + size(a) + s))
        by (nonlinear_arith)
        requires
            u == 1real / 9007199254740992real,
            0real < h <= 1real / 1_000_000_000_000_000_000_000_000real,
            tolerance() == 1real / 562_949_953_421_312real,
            size(cs - a) <= u * size(a) + h * s + s / 2real,
            h * s <= 4real * u,
            size(d - cs) <= u * size(cs) + h,
            size(e - d) <= half_decimal() + u + 3real * (u * size(d)),
            s > 0real,
    ;
}

/// Rounding up to a step loses half of the last decimal at most, up to rounding.
pub proof fn law_round_up_error(n: Binary64, step: Binary64)
    requires
        n.is_finite(),
        n >= zero(),
        step.is_finite(),
        step > zero(),
        round_up(n, step).is_finite(),
    ensures
        round_up(n, step).number() >= n.number() - half_decimal() - tolerance() * (1real
            + n.number()),
{
    let v = n / step;
    let m = v.ceil();
    let x = m * step;
    let w = to_decimals(x);
    lemma_precision();
    lemma_half_unit();
    lemma_half_unit_absorbed(step);
    law_to_decimals_error(x);
    lemma_number_order(step, step);
    lemma_number_order(n, n);
    assert(v.is_finite() && m.is_finite() && x.is_finite());
    law_div_error(n, step);
    lemma_ceil_number(v);
    law_mul_error(m, step);
    let (a, s) = (n.number(), step.number());
    let (b, c, d, e) = (v.number(), m.number(), x.number(), w.number());
    let (u, h) = (precision(), half_unit());
    let q = a / s;
    assert(q * s == a && q >= 0real) by (nonlinear_arith)
        requires
            q == a / s,
            a >= 0real,
            s > 0real,
    ;
    let cs = c * s;
    assert(cs >= a - u * a - h * s) by (nonlinear_arith)
        requires
            size(b - q) <= u * q + h,
            c >= b,
            q * s == a,
            cs == c * s,
            s > 0real,
    ;
    assert(e >= a - half_decimal() - tolerance() * (1real + a)) by (nonlinear_arith)
        requires
            u == 1real / 9007199254740992real,
            0real < h <= 1real / 1_000_000_000_000_000_000_000_000real,
            tolerance() == 1real / 562_949_953_421_312real,
            cs >= a - u * a - h * s,
            h * s <= 4real * u,
            size(d - cs) <= u * size(cs) + h,
            size(e - d) <= half_decimal() + u + 3real * (u * size(d)),
            a >= 0real,
    ;
}

/// What is not negative stays so when it is multiplied or divided by a positive number.
proof fn lemma_scaled_is_not_negative(x: Binary64, y: Binary64)
    requires
        x >= zero(),
        y > zero(),
        y.is_finite(),
    ensures
        x * y >= zero(),
        x / y >= zero(),
{
    lemma_precision();
    lemma_number_order(y, y);
    lemma_number_order(zero(), zero());
    lemma_number_order(zero() * y, zero());
    lemma_number_order(zero() / y, zero());
    lemma_pow2_pos(1023);
    assert(0real * y.number() == 0real && 0real / y.number() == 0real) by (nonlinear_arith)
        requires
            y.number() > 0real,
    ;
    assert(precision() * 0real == 0real) by (nonlinear_arith);
    law_mul_error(zero(), y);
    law_div_error(zero(), y);
    lemma_mul_is_number(x, y);
    lemma_div_is_number(x, y);
    law_mul_monotone(zero(), x, y);
    law_div_monotone(zero(), x, y);
}

/// Rounding up gives a number that is not negative if it was given one.
proof fn lemma_round_up_is_not_negative(n: Binary64, step: Binary64)
    requires
        n >= zero(),
        step > zero(),
        step.is_finite(),
    ensures
        round_up(n, step) >= zero(),
{
    let scale = decimal_scale();
    lemma_decimal_scale_is_positive();
    lemma_scaled_is_not_negative(n, step);
    let v = n / step;
    law_to_whole_is_exact(zero(), Direction::AwayFromZero);
    law_ceil_monotone(zero(), v);
    lemma_scaled_is_not_negative(v.ceil(), step);
    let x = v.ceil() * step;
    lemma_scaled_is_not_negative(x, scale);
    law_to_whole_is_exact(zero(), Direction::HalfAway);
    law_round_monotone(zero(), x * scale);
    lemma_scaled_is_not_negative((x * scale).round(), scale);
}

/// A quantity that the exchange takes costs no less than the smallest cost of an order, but for
/// half of the last decimal of the quantity, and up to rounding.
pub proof fn law_minimum_covers_cost(ex: ExchangeParams, price: Binary64, qty: Binary64)
    requires
        price.is_finite(),
        price > zero(),
        ex.c_mult.is_finite(),
        ex.c_mult > zero(),
        ex.qty_step.is_finite(),
        ex.qty_step > zero(),
        ex.min_cost.is_finite(),
        ex.min_cost >= zero(),
        qty.is_finite(),
        qty >= min_entry_qty(price, ex),
    ensures
        ({
            let (p, c) = (price.number(), ex.c_mult.number());
            let least = ex.min_cost.number();
            qty.number() * p * c >= least - 2real * (tolerance() * least) - (half_decimal() + 2real
                * tolerance()) * (p * c) - half_unit() * p
        }),
{
    let a = ex.min_cost / price;
    let b = a / ex.c_mult;
    let w = round_up(b, ex.qty_step);
    lemma_scaled_is_not_negative(ex.min_cost, price);
    lemma_scaled_is_not_negative(a, ex.c_mult);
    lemma_round_up_is_not_negative(b, ex.qty_step);
    assert(w <= qty);
    assert(w.is_finite()) by {
        lemma_units_order(qty.position(), INFINITE as nat);
    }
    assert(a.is_finite() && b.is_finite());
    lemma_precision();
    lemma_half_unit();
    law_round_up_error(b, ex.qty_step);
    law_div_error(ex.min_cost, price);
    law_div_error(a, ex.c_mult);
    lemma_number_order(w, qty);
    lemma_number_order(price, price);
    lemma_number_order(ex.c_mult, price);
    lemma_number_order(ex.min_cost, price);
    lemma_number_order(zero(), ex.min_cost);
    lemma_number_order(a, a);
    lemma_number_order(b, b);
    let (p, c, m) = (price.number(), ex.c_mult.number(), ex.min_cost.number());
    let (x, y, z, q) = (a.number(), b.number(), w.number(), qty.number());
    let (u, h) = (precision(), half_unit());
    let (e, f) = (m / p, x / c);
    assert(e * p == m && e >= 0real) by (nonlinear_arith)
        requires
            e == m / p,
            m >= 0real,
            p > 0real,
    ;
    assert(f * c == x) by (nonlinear_arith)
        requires
            f == x / c,
            c > 0real,
    ;
    assert(x * p >= m - u * m - h * p) by (nonlinear_arith)
        requires
            size(x - e) <= u * e + h,
            e * p == m,
            p > 0real,
    ;
    assert(f >= 0real) by (nonlinear_arith)
        requires
            f * c == x,
            x >= 0real,
            c > 0real,
    ;
    assert(y * c >= x - u * x - h * c) by (nonlinear_arith)
        requires
            size(y - f) <= u * f + h,
            f * c == x,
            c > 0real,
    ;
    let (pc, cost) = (p * c, q * p * c);
    assert(pc > 0real) by (nonlinear_arith)
        requires
            pc == p * c,
            p > 0real,
            c > 0real,
    ;
    assert(y * pc >= (1real - u) * (x * p) - h * pc) by (nonlinear_arith)
        requires
            y * c >= x - u * x - h * c,
            pc == p * c,
            p > 0real,
    ;
    assert(cost >= (y - half_decimal() - tolerance() * (1real + y)) * pc) by (nonlinear_arith)
        requires
            q >= y - half_decimal() - tolerance() * (1real + y),
            cost == q * p * c,
            pc == p * c,
            p > 0real,
            c > 0real,
    ;
    let (t, d, ypc) = (tolerance(), half_decimal(), y * pc);
    assert(cost >= ypc - d * pc - t * pc - t * ypc) by (nonlinear_arith)
        requires
            cost >= (y - d - t * (1real + y)) * pc,
            ypc == y * pc,
    ;
    assert(cost >= m - 2real * (t * m) - (d + 2real * t) * pc - h * p) by (nonlinear_arith)
        requires
            cost >= ypc - d * pc - t * pc - t * ypc,
            ypc >= (1real - u) * (x * p) - h * pc,
            x * p >= m - u * m - h * p,
            u == 1real / 9007199254740992real,
            t == 1real / 562_949_953_421_312real,
            0real < h <= 1real / 1_000_000_000_000_000_000_000_000real,
            m >= 0real,
            pc >= 0real,
            p > 0real,
    ;
}

/// The minimum cost holds of every order that meets the minimum.
pub proof fn law_order_covers_cost(side: Side, ex: ExchangeParams, order: Order)
    requires
        order.price.is_finite(),
        order.price > zero(),
        ex.c_mult.is_finite(),
        ex.c_mult > zero(),
        ex.qty_step.is_finite(),
        ex.qty_step > zero(),
        ex.min_cost.is_finite(),
        ex.min_cost >= zero(),
        order.qty.is_finite(),
        meets_minimum(side, ex, order),
    ensures
        ({
            let (p, c) = (order.price.number(), ex.c_mult.number());
            let least = ex.min_cost.number();
            entered(side, order).number() * p * c >= least - 2real * (tolerance() * least) - (
            half_decimal() + 2real * tolerance()) * (p * c) - half_unit() * p
        }),
{
    lemma_number_signs(order.qty);
    law_minimum_covers_cost(ex, order.price, entered(side, order));
}

/// Rounding to a whole number gives none that is negative from what is above minus one half.
proof fn lemma_round_of_little(x: Binary64)
    requires
        x.is_finite(),
        x.number() > -(1real / 2real),
    ensures
        x.round() >= zero(),
{
    lemma_pow2_pos(1074);
    law_round(x);
    lemma_number_order(x, x);
    let (k, r) = (one_in_units() as int, x.round().value());
    let half = 1real / 2real;
    lemma_distribute(x.number(), half, k as real);
    lemma_scale(0real, x.number() + half, k as real);
    assert(2 * x.value() >= -k);
    lemma_fundamental_div_mod(r, k);
    let j = r / k;
    assert(j >= -1) by (nonlinear_arith)
        requires
            k * j >= -k,
            k > 0,
    ;
    if j == -1 {
        assert(k * -1 == -k) by (nonlinear_arith);
        assert(r == -k);
        assert(2 * x.value() == -k);
        assert(x.number() * k as real == x.value() as real);
        lemma_cancel(x.number() + half, 0real, k as real);
    }
    assert(j >= 0 ==> k * j >= 0) by (nonlinear_arith)
        requires
            k > 0,
    ;
}

/// Rounding to a step gives nothing negative from what is above minus an eighth of a step.
pub proof fn lemma_round_is_not_negative(n: Binary64, step: Binary64)
    requires
        n.is_finite(),
        step.is_finite(),
        step > zero(),
        8real * n.number() >= -step.number(),
        round_(n, step).is_finite(),
    ensures
        round_(n, step) >= zero(),
{
    let scale = decimal_scale();
    let v = n / step;
    assert(v.is_finite());
    lemma_precision();
    lemma_half_unit();
    lemma_number_order(step, step);
    law_div_error(n, step);
    lemma_quotient_times(n.number(), step.number());
    lemma_little_quotient(n.number(), step.number(), n.number() / step.number(), v.number());
    lemma_round_of_little(v);
    lemma_decimal_scale_is_positive();
    let x = v.round() * step;
    lemma_scaled_is_not_negative(v.round(), step);
    lemma_scaled_is_not_negative(x, scale);
    law_to_whole_is_exact(zero(), Direction::HalfAway);
    law_round_monotone(zero(), x * scale);
    lemma_scaled_is_not_negative((x * scale).round(), scale);
}

proof fn lemma_little_quotient(n: real, s: real, q: real, v: real)
    requires
        q * s == n,
        s > 0real,
        8real * n >= -s,
        size(v - q) <= precision() * size(q) + half_unit(),
    ensures
        v > -(1real / 2real),
{
    lemma_precision();
    lemma_half_unit();
    lemma_distribute(q, 1real / 8real, s);
    lemma_cancel(0real, q + 1real / 8real, s);
    lemma_scale(precision(), 1real / 1000real, size(q));
}

/// Whether a double is a whole number.
pub open spec fn is_whole(x: Binary64) -> bool {
    x.is_finite() && x.value() % one_in_units() as int == 0
}

/// Whether `m` is the whole number nearest to `v`, halves away from zero.
pub open spec fn is_nearest_whole(m: Binary64, v: Binary64) -> bool {
    let (exact, whole, one) = (abs(v.value()), abs(m.value()), one_in_units());
    &&& is_whole(m)
    &&& m.negative() == v.negative()
    &&& 2 * exact - one < 2 * whole <= 2 * exact + one
}

/// Whether `w` is `m` steps, freed of what lies past the tenth decimal: the `10^10`th part of a
/// whole number that is nearest to `10^10` times as much, as long as that is finite.
pub open spec fn counts_steps(w: Binary64, step: Binary64, m: Binary64) -> bool {
    let scaled = m * step * fraction(10_000_000_000, 1);
    &&& scaled.is_finite() ==> exists|d: Binary64|
        w == #[trigger] (d / fraction(10_000_000_000, 1)) && is_nearest_whole(d, scaled)
    &&& !scaled.is_finite() ==> w == scaled / fraction(10_000_000_000, 1)
}

proof fn lemma_counts_steps(m: Binary64, step: Binary64)
    ensures
        counts_steps(to_decimals(m * step), step, m),
{
    let scaled = m * step * decimal_scale();
    if scaled.is_finite() {
        law_round(scaled);
        law_round_half_away(scaled);
        assert(to_decimals(m * step) == scaled.round() / fraction(10_000_000_000, 1));
    } else {
        assert(scaled.round() == scaled);
    }
}

/// Rounding to a step gives the whole number of steps that is nearest, as long as that is finite.
pub proof fn law_round_counts_steps(n: Binary64, step: Binary64)
    ensures
        (n / step).is_finite() ==> exists|m: Binary64|
            #[trigger] counts_steps(round_(n, step), step, m) && is_nearest_whole(m, n / step),
        !(n / step).is_finite() ==> counts_steps(round_(n, step), step, n / step),
{
    let v = n / step;
    lemma_counts_steps(v.round(), step);
    if v.is_finite() {
        law_round(v);
        law_round_half_away(v);
        assert(counts_steps(round_(n, step), step, v.round()));
    } else {
        assert(v.round() == v);
    }
}

/// Rounding down to a step gives the largest whole number of steps that is not above, as long as
/// that is finite.
pub proof fn law_round_dn_counts_steps(n: Binary64, step: Binary64)
    ensures
        (n / step).is_finite() ==> exists|m: Binary64|
            #[trigger] counts_steps(round_dn(n, step), step, m) && is_whole(m) && {
                m.number() <= (n / step).number() < m.number() + 1real
            },
        !(n / step).is_finite() ==> counts_steps(round_dn(n, step), step, n / step),
{
    let v = n / step;
    lemma_counts_steps(v.floor(), step);
    if v.is_finite() {
        law_floor(v);
        lemma_floor_number(v);
        assert(counts_steps(round_dn(n, step), step, v.floor()));
    } else {
        assert(v.floor() == v);
    }
}

/// Rounding up to a step gives the smallest whole number of steps that is not below, as long as
/// that is finite.
pub proof fn law_round_up_counts_steps(n: Binary64, step: Binary64)
    ensures
        (n / step).is_finite() ==> exists|m: Binary64|
            #[trigger] counts_steps(round_up(n, step), step, m) && is_whole(m) && {
                m.number() - 1real < (n / step).number() <= m.number()
            },
        !(n / step).is_finite() ==> counts_steps(round_up(n, step), step, n / step),
{
    let v = n / step;
    lemma_counts_steps(v.ceil(), step);
    if v.is_finite() {
        law_ceil(v);
        lemma_ceil_number(v);
        assert(counts_steps(round_up(n, step), step, v.ceil()));
    } else {
        assert(v.ceil() == v);
    }
}

pub proof fn lemma_floor_number(x: Binary64)
    requires
        x.is_finite(),
    ensures
        x.floor().is_finite(),
        x.floor().number() <= x.number() < x.floor().number() + 1real,
{
    let k = one_in_units() as real;
    lemma_pow2_pos(1074);
    law_floor(x);
    lemma_number_order(x, x);
    lemma_number_order(x.floor(), x);
    let (a, b) = (x.number(), x.floor().number());
    lemma_distribute(b, 1real, k);
    lemma_cancel(b, a, k);
    if a >= b + 1real {
        lemma_scale(b + 1real, a, k);
    }
}

/// What rounding to a step makes of the errors: `c` steps of `s` stand for `a`, and are rounded
/// to `e`.
proof fn lemma_step_bounds(a: real, s: real, cs: real, d: real, e: real, lo: real, hi: real)
    requires
        s > 0real,
        -s <= lo <= 0real,
        0real <= hi <= s,
        a + lo - precision() * size(a) - 4real * precision() <= cs,
        cs <= a + hi + precision() * size(a) + 4real * precision(),
        size(d - cs) <= precision() * size(cs) + half_unit(),
        size(e - d) <= half_decimal() + precision() + 3real * (precision() * size(d)),
    ensures
        a + lo - half_decimal() - tolerance() * (1real + size(a) + s) <= e,
        e <= a + hi + half_decimal() + tolerance() * (1real + size(a) + s),
{
    lemma_precision();
    lemma_half_unit();
    let (u, h, x, y) = (precision(), half_unit(), size(a), half_decimal());
    assert(a + lo - y - tolerance() * (1real + x + s) <= e && e <= a + hi + y + tolerance() * (1real
        + x + s)) by (nonlinear_arith)
        requires
            u == 1real / 9007199254740992real,
            0real < h <= 1real / 1_000_000_000_000_000_000_000_000real,
            tolerance() == 1real / 562_949_953_421_312real,
            s > 0real,
            -s <= lo <= 0real,
            0real <= hi <= s,
            x == size(a),
            a + lo - u * x - 4real * u <= cs,
            cs <= a + hi + u * x + 4real * u,
            size(d - cs) <= u * size(cs) + h,
            size(e - d) <= y + u + 3real * (u * size(d)),
    ;
}

/// How far whole steps are from what they were counted from.
proof fn lemma_steps_near(a: real, s: real, q: real, b: real, c: real, lo: real, hi: real)
    requires
        s > 0real,
        q * s == a,
        size(b - q) <= precision() * size(q) + half_unit(),
        half_unit() * s <= 4real * precision(),
        lo <= c - b <= hi,
    ensures
        a + lo * s - precision() * size(a) - 4real * precision() <= c * s,
        c * s <= a + hi * s + precision() * size(a) + 4real * precision(),
{
    let (u, h) = (precision(), half_unit());
    lemma_precision();
    lemma_scale_bound(b - q, u * size(q) + h, s);
    lemma_distribute(u * size(q), h, s);
    lemma_associate(u, size(q), s);
    lemma_scale_bound(q, size(q), s);
    assert(size(q) * s == size(a)) by {
        if q >= 0real {
            lemma_scale(0real, q, s);
        } else {
            lemma_distribute(0real, q, s);
            lemma_scale(q, 0real, s);
        }
    }
    lemma_distribute(b, q, s);
    lemma_distribute(c, b, s);
    lemma_scale(lo, c - b, s);
    lemma_scale(c - b, hi, s);
}

/// Rounding down to a step takes less than a step away, up to rounding.
pub proof fn law_round_dn_bounds(n: Binary64, step: Binary64)
    requires
        n.is_finite(),
        step.is_finite(),
        step > zero(),
        round_dn(n, step).is_finite(),
    ensures
        ({
            let error = half_decimal() + tolerance() * (1real + size(n.number()) + step.number());
            n.number() - step.number() - error <= round_dn(n, step).number() <= n.number() + error
        }),
{
    let v = n / step;
    let m = v.floor();
    let x = m * step;
    lemma_half_unit_absorbed(step);
    law_to_decimals_error(x);
    lemma_number_order(step, step);
    assert(v.is_finite() && m.is_finite() && x.is_finite());
    law_div_error(n, step);
    lemma_floor_number(v);
    law_mul_error(m, step);
    let (a, s) = (n.number(), step.number());
    lemma_quotient_times(a, s);
    lemma_steps_near(a, s, a / s, v.number(), m.number(), 0real - 1real, 0real);
    lemma_distribute(0real, 1real, s);
    lemma_step_bounds(
        a,
        s,
        m.number() * s,
        x.number(),
        to_decimals(x).number(),
        0real - s,
        0real,
    );
}

/// Rounding up to a step adds less than a step, up to rounding.
pub proof fn law_round_up_bounds(n: Binary64, step: Binary64)
    requires
        n.is_finite(),
        step.is_finite(),
        step > zero(),
        round_up(n, step).is_finite(),
    ensures
        ({
            let error = half_decimal() + tolerance() * (1real + size(n.number()) + step.number());
            n.number() - error <= round_up(n, step).number() <= n.number() + step.number() + error
        }),
{
    let v = n / step;
    let m = v.ceil();
    let x = m * step;
    lemma_half_unit_absorbed(step);
    law_to_decimals_error(x);
    lemma_number_order(step, step);
    assert(v.is_finite() && m.is_finite() && x.is_finite());
    law_div_error(n, step);
    lemma_ceil_number(v);
    law_mul_error(m, step);
    let (a, s) = (n.number(), step.number());
    lemma_quotient_times(a, s);
    lemma_steps_near(a, s, a / s, v.number(), m.number(), 0real, 1real);
    lemma_step_bounds(a, s, m.number() * s, x.number(), to_decimals(x).number(), 0real, s);
}

} // verus!
