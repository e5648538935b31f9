//! Where cropped and inflated entries end: at the exposure limit.
use crate::accuracy::half_decimal;
use crate::accuracy::law_round_error;
use crate::accuracy::lemma_decimal_scale;
use crate::accuracy::lemma_round_is_not_negative;
use crate::accuracy::lemma_round_number;
use crate::accuracy::tolerance;
use crate::arithmetic::law_round;
use crate::arithmetic::law_to_whole_is_exact;
use crate::binary64::one_in_units;
use crate::binary64::whole;
use crate::binary64::Binary64;
use crate::binary64::Direction;
use crate::binary64::INFINITE;
use crate::constants::decimal_scale;
use crate::constants::full_share;
use crate::constants::limit_slack;
use crate::constants::zero;
use crate::interpolation::exact_weight;
use crate::interpolation::law_qty_to_limit_error;
use crate::interpolation::lemma_reach;
use crate::interpolation::lemma_weights_add_up;
use crate::interpolation::reach;
use crate::laws::entered;
use crate::laws::law_cropped_only_past_limit;
use crate::precision::huge;
use crate::precision::lemma_add_stands;
use crate::precision::lemma_div_stands;
use crate::precision::lemma_fraction_stands;
use crate::precision::lemma_more_errors;
use crate::precision::lemma_mul_stands;
use crate::precision::lemma_number_order;
use crate::precision::lemma_number_signs;
use crate::precision::lemma_precision;
use crate::precision::lemma_span_is_normal;
use crate::precision::lemma_span_of_product;
use crate::precision::lemma_span_of_sum;
use crate::precision::precision;
use crate::precision::spans;
use crate::precision::stands_for;
use crate::reals::lemma_associate;
use crate::reals::lemma_bounded_product;
use crate::reals::lemma_cancel;
use crate::reals::lemma_distribute;
use crate::reals::lemma_product;
use crate::reals::lemma_quotient_times;
use crate::reals::lemma_scale;
use crate::reals::lemma_scale_bound;
use crate::reals::size;
use crate::rounding::lemma_units_order;
use crate::rounding::EVEN_SPAN;
use crate::rules::cropped_qty;
use crate::rules::exposure_if_filled;
use crate::rules::exposure_of;
use crate::rules::full_reentry_qty;
use crate::rules::grid_entry;
use crate::rules::grid_reentry;
use crate::rules::min_entry_qty;
use crate::rules::qty_to_limit;
use crate::rules::reentry_price;
use crate::rules::trailing_entry;
use crate::rules::trailing_price;
use crate::rules::trailing_reentry;
use crate::side::Kind;
use crate::side::Side;
use crate::types::BotParams;
use crate::types::ExchangeParams;
use crate::types::Position;
use crate::types::StateParams;
use crate::types::TrailingPriceBundle;
use crate::utils::calc_wallet_exposure;
use crate::utils::round_;
use crate::utils::spec_calc_wallet_exposure_if_filled;
use vstd::arithmetic::div_mod::lemma_fundamental_div_mod;
use vstd::arithmetic::power2::lemma2_to64;
use vstd::arithmetic::power2::lemma2_to64_rest;
use vstd::arithmetic::power2::lemma_pow2_adds;
use vstd::arithmetic::power2::lemma_pow2_pos;
use vstd::arithmetic::power2::lemma_pow2_strictly_increases;
use vstd::arithmetic::power2::lemma_pow2_unfold;
use vstd::arithmetic::power2::pow2;
use vstd::prelude::*;

verus! {

/// Whether a double is a positive number from `2^-100` to `2^100`, so that the formulas neither
/// underflow nor overflow.
pub open spec fn moderate(x: Binary64) -> bool {
    x.is_finite() && x > zero() && spans(x.number(), 100)
}

/// A finite double stands for its own number.
pub proof fn lemma_itself(x: Binary64)
    requires
        x.is_finite(),
    ensures
        stands_for(x, x.number(), 0),
        x > zero() <==> x.number() > 0real,
        x.equals(zero()) <==> x.number() == 0real,
{
    reveal(stands_for);
    lemma_number_order(x, x);
    assert(0real * (precision() * x.number()) == 0real);
}

/// What stands for a number that is not negative is not negative either, and neither is zero
/// without the other.
pub proof fn lemma_stands_sign(r: Binary64, x: real, k: nat)
    requires
        stands_for(r, x, k),
        x >= 0real,
        k <= 1000,
    ensures
        r.is_finite(),
        r.number() >= 0real,
        r.number() == 0real <==> x == 0real,
        2real * r.number() >= x,
        r.number() <= 2real * x,
{
    reveal(stands_for);
    let e = precision() * x;
    lemma_precision();
    lemma_scale(0real, precision(), x);
    lemma_scale(precision(), 1real / 1_000_000_000_000_000real, x);
    lemma_scale(k as real, 1000real, e);
}

/// The wallet exposure of a position is exact up to rounding.
pub proof fn lemma_exposure_stands(
    c_mult: Binary64,
    balance: Binary64,
    held: Binary64,
    i: nat,
    price: Binary64,
    exact_price: real,
    k: nat,
    j: nat,
)
    requires
        moderate(c_mult),
        moderate(balance),
        held.is_finite(),
        held.number() >= 0real,
        spans(held.number(), i),
        stands_for(price, exact_price, k),
        spans(exact_price, j),
        i + j <= 600,
        k <= 50,
    ensures
        ({
            let exact = held.number() * exact_price * c_mult.number() / balance.number();
            &&& stands_for(calc_wallet_exposure(c_mult, balance, held, price), exact, k + 6)
            &&& spans(exact, i + j + 200)
        }),
{
    let (h, c, b) = (held.number(), c_mult.number(), balance.number());
    lemma_itself(held);
    lemma_itself(c_mult);
    lemma_itself(balance);
    lemma_number_signs(held);
    lemma_itself(held.abs());
    lemma_mul_stands(held.abs(), h, 0, i, price, exact_price, k, j);
    lemma_mul_stands(held.abs() * price, h * exact_price, k + 2, i + j, c_mult, c, 0, 100);
    lemma_div_stands(
        held.abs() * price * c_mult,
        h * exact_price * c,
        k + 4,
        i + j + 100,
        balance,
        b,
        0,
        100,
    );
    if held.equals(zero()) {
        assert(h * exact_price * c / b == 0real) by {
            lemma_nothing(exact_price, c, b);
        }
        lemma_zero_stands(k + 6);
    }
}

proof fn lemma_nothing(x: real, y: real, z: real)
    requires
        z != 0real,
    ensures
        0real * x * y / z == 0real,
{
    assert(0real * x == 0real) by (nonlinear_arith);
    assert(0real * y == 0real) by (nonlinear_arith);
    let q = 0real / z;
    assert(q == 0real) by (nonlinear_arith)
        requires
            q == 0real / z,
            z != 0real,
    ;
}

pub proof fn lemma_zero_stands(k: nat)
    ensures
        stands_for(zero(), 0real, k),
{
    reveal(stands_for);
    lemma_number_order(zero(), zero());
    assert(precision() * 0real == 0real) by (nonlinear_arith);
    assert(k as real * 0real == 0real) by (nonlinear_arith);
}

/// Rounding what is not negative gives a whole number: zero, or one at the least.
proof fn lemma_round_whole(x: Binary64)
    requires
        x.is_finite(),
        x.number() >= 0real,
    ensures
        x.round().is_finite(),
        x.round().number() == 0real || x.round().number() >= 1real,
        x.round().number() <= x.number() + 1real / 2real,
{
    lemma_round_number(x);
    law_to_whole_is_exact(x, Direction::HalfAway);
    lemma_number_order(x, x);
    lemma_number_order(x.round(), x);
    lemma_pow2_pos(1074);
    let r = x.round();
    let (n, k) = (whole(Direction::HalfAway, x.magnitude()), one_in_units());
    if x.negative() {
        assert(x.value() == 0);
        law_round(x);
        assert(r.value() == 0) by {
            lemma_fundamental_div_mod(r.value(), k as int);
            let q = r.value() / k as int;
            assert(q == 0) by (nonlinear_arith)
                requires
                    -(k as int) <= 2 * (k as int * q) <= k as int,
                    k > 0,
            ;
            assert(k as int * 0 == 0);
        }
    } else {
        assert(r.value() == n * k);
        lemma_product(n as int, k as int);
        let (a, b) = (n as real, k as real);
        assert(r.number() == a) by (nonlinear_arith)
            requires
                r.number() * b == a * b,
                b > 0real,
        ;
    }
}

proof fn lemma_whole_spans(m: real, x: real, k: nat)
    requires
        m == 0real || m >= 1real,
        m <= 2real * x + 1real,
        spans(x, k),
    ensures
        spans(m, k + 2),
{
    reveal(spans);
    lemma_pow2_unfold(k + 1);
    lemma_pow2_unfold(k + 2);
    lemma_pow2_pos(k);
    let p = pow2(k + 2) as real;
    if m != 0real {
        lemma_scale(1real, m, p);
    }
}

/// Rounding a quantity to a step leaves it in range, or makes it zero.
pub proof fn lemma_rounded_spans(x: Binary64, step: Binary64, i: nat)
    requires
        x.is_finite(),
        x.number() >= 0real,
        spans(x.number(), i),
        100 <= i <= 600,
        moderate(step),
    ensures
        round_(x, step).is_finite(),
        round_(x, step).number() >= 0real,
        spans(round_(x, step).number(), i + 2),
{
    reveal(spans);
    let scale = decimal_scale();
    let (a, s) = (x.number(), step.number());
    lemma2_to64();
    lemma_decimal_scale();
    lemma_itself(x);
    lemma_itself(step);
    lemma_itself(scale);
    let v = x / step;
    lemma_div_stands(x, a, 0, i, step, s, 0, 100);
    lemma_stands_sign(v, a / s, 2);
    lemma_round_whole(v);
    let m = v.round();
    lemma_whole_spans(m.number(), a / s, i + 100);
    lemma_itself(m);
    lemma_mul_stands(m, m.number(), 0, i + 102, step, s, 0, 100);
    let n = m * step;
    let b = m.number() * s;
    let d = 10_000_000_000real;
    assert(spans(d, 34)) by {
        lemma2_to64_rest();
    }
    lemma_mul_stands(n, b, 2, i + 202, scale, d, 0, 34);
    let y = n * scale;
    lemma_stands_sign(y, b * d, 4);
    lemma_round_whole(y);
    let z = y.round();
    lemma_whole_spans(z.number(), b * d, i + 236);
    lemma_itself(z);
    lemma_div_stands(z, z.number(), 0, i + 238, scale, d, 0, 34);
    let w = z / scale;
    assert(w == round_(x, step));
    lemma_quotient_times(z.number(), d);
    lemma_stands_sign(w, z.number() / d, 2);
    law_round_error(x, step);
    // from above: a few steps more than the number
    let (p, q) = (pow2(i) as real, pow2(i + 2) as real);
    lemma_pow2_unfold(i + 1);
    lemma_pow2_unfold(i + 2);
    lemma_pow2_adds(64, 36);
    if 100 < i {
        lemma_pow2_strictly_increases(100, i);
    }
    assert(pow2(100) >= 1000) by {
        lemma_pow2_strictly_increases(64, 100);
    }
    let t = tolerance();
    let r = 1real + a + s;
    assert(t * r <= r / 1000real) by (nonlinear_arith)
        requires
            t == 1real / 562_949_953_421_312real,
            r >= 0real,
    ;
    assert(half_decimal() <= 1real);
    assert(w.number() <= q);
    // from below: half a decimal
    if w.number() != 0real {
        assert(z.number() >= 1real);
        assert(z.number() / d >= 1real / 10_000_000_000real);
        lemma_scale(1real / 20_000_000_000real, w.number(), q);
        lemma_pow2_strictly_increases(64, i + 2);
    }
}

/// What stands for a number is in its range, or nearly so.
pub proof fn lemma_stands_spans(r: Binary64, x: real, k: nat, i: nat)
    requires
        stands_for(r, x, k),
        k <= 1000,
        spans(x, i),
    ensures
        r.is_finite(),
        x >= 0real,
        r.number() >= 0real,
        spans(r.number(), i + 1),
{
    reveal(spans);
    reveal(stands_for);
    lemma_stands_sign(r, x, k);
    lemma_pow2_unfold(i + 1);
    lemma_pow2_pos(i);
    let (p, q, n) = (pow2(i) as real, pow2(i + 1) as real, r.number());
    if n != 0real {
        lemma_scale(x, 2real * n, p);
        assert((2real * n) * p == n * (2real * p)) by (nonlinear_arith);
    }
}

/// The cost of a position and an entry at their prices, in relation to the balance.
#[verifier::opaque]
pub open spec fn exposure(
    held: real,
    position_price: real,
    qty: real,
    price: real,
    c_mult: real,
    balance: real,
) -> real {
    (held * position_price + qty * price) * c_mult / balance
}

proof fn lemma_exposure_of_average(
    size: real,
    average: real,
    m: real,
    p: real,
    n: real,
    q: real,
    c: real,
    b: real,
)
    requires
        size * average == m * p + n * q,
    ensures
        size * average * c / b == exposure(m, p, n, q, c, b),
{
    reveal(exposure);
}

proof fn lemma_exposure_spans(m: real, p: real, n: real, q: real, c: real, b: real)
    requires
        spans(m, 102),
        spans(p, 100),
        spans(n, 102),
        spans(q, 100),
        spans(c, 100),
        spans(b, 100),
        b != 0real,
    ensures
        spans(exposure(m, p, n, q, c, b), 403),
{
    reveal(exposure);
    lemma_span_of_product(m, p, 102, 100);
    lemma_span_of_product(n, q, 102, 100);
    lemma_span_of_sum(m * p, n * q, 202);
    lemma_span_of_product(m * p + n * q, c, 203, 100);
    lemma_span_of_product((m * p + n * q) * c, b, 303, 100);
}

/// The average price is exact up to rounding.
pub proof fn lemma_average_stands(
    p: Binary64,
    x: Binary64,
    q: Binary64,
    y: Binary64,
    z: Binary64,
) -> (average: real)
    requires
        moderate(p),
        moderate(q),
        x.is_finite(),
        spans(x.number(), 102),
        y.is_finite(),
        spans(y.number(), 102),
        z.is_finite(),
        spans(z.number(), 106),
        z.number() != 0real,
    ensures
        stands_for(p * (x / z) + q * (y / z), average, 6),
        spans(average, 309),
        z.number() * average == x.number() * p.number() + y.number() * q.number(),
{
    let (m, n, w) = (x.number(), y.number(), z.number());
    let (a, b) = (p.number(), q.number());
    lemma_itself(p);
    lemma_itself(q);
    lemma_itself(x);
    lemma_itself(y);
    lemma_itself(z);
    lemma_div_stands(x, m, 0, 102, z, w, 0, 106);
    lemma_div_stands(y, n, 0, 102, z, w, 0, 106);
    let (d, e) = (m / w, n / w);
    lemma_mul_stands(p, a, 0, 100, x / z, d, 2, 208);
    lemma_mul_stands(q, b, 0, 100, y / z, e, 2, 208);
    lemma_add_stands(p * (x / z), a * d, q * (y / z), b * e, 4, 308);
    lemma_average_times(a, m, b, n, w);
    a * d + b * e
}

proof fn lemma_average_times(a: real, m: real, b: real, n: real, w: real)
    requires
        w != 0real,
    ensures
        w * (a * (m / w) + b * (n / w)) == m * a + n * b,
{
    lemma_quotient_times(m, w);
    lemma_quotient_times(n, w);
    lemma_weighted_sum(a, m / w, b, n / w, w);
}

proof fn lemma_weighted_sum(a: real, d: real, b: real, e: real, w: real)
    ensures
        w * (a * d + b * e) == (d * w) * a + (e * w) * b,
{
    lemma_distribute(a * d, b * e, w);
    lemma_associate(d, w, a);
    lemma_associate(e, w, b);
    lemma_associate(a, d, 1real);
    lemma_associate(b, e, 1real);
}

/// A position without an entry.
proof fn lemma_exposure_without(m: real, p: real, q: real, c: real, b: real)
    ensures
        m * p * c / b == exposure(m, p, 0real, q, c, b),
{
    reveal(exposure);
    assert(0real * q == 0real) by (nonlinear_arith);
}

/// The exposure after an entry is exact up to rounding, once position and entry are rounded to
/// quantity steps.
proof fn lemma_filled_stands(
    ex: ExchangeParams,
    balance: Binary64,
    held: Binary64,
    position_price: Binary64,
    qty: Binary64,
    price: Binary64,
)
    requires
        moderate(ex.c_mult),
        moderate(ex.qty_step),
        moderate(balance),
        moderate(held),
        moderate(position_price),
        moderate(qty),
        moderate(price),
    ensures
        ({
            let filled = spec_calc_wallet_exposure_if_filled(
                balance,
                held,
                position_price,
                qty,
                price,
                ex,
            );
            let exact = exposure(
                round_(held, ex.qty_step).number(),
                position_price.number(),
                round_(qty, ex.qty_step).number(),
                price.number(),
                ex.c_mult.number(),
                balance.number(),
            );
            &&& filled.is_finite()
            &&& filled.number() == 0real || stands_for(filled, exact, 12)
            &&& spans(exact, 403)
        }),
{
    let step = ex.qty_step;
    let (b, c) = (balance.number(), ex.c_mult.number());
    let (p, q) = (position_price.number(), price.number());
    lemma_itself(held);
    lemma_itself(qty);
    lemma_itself(position_price);
    lemma_itself(price);
    lemma_itself(balance);
    lemma_itself(ex.c_mult);
    assert(held.abs() == held && qty.abs() == qty);
    let (x, y) = (round_(held, step), round_(qty, step));
    lemma_rounded_spans(held, step, 100);
    lemma_rounded_spans(qty, step, 100);
    lemma_itself(x);
    lemma_itself(y);
    let (m, n) = (x.number(), y.number());
    lemma_add_stands(x, m, y, n, 0, 102);
    lemma_stands_sign(x + y, m + n, 2);
    lemma_stands_spans(x + y, m + n, 2, 103);
    let z = round_(x + y, step);
    lemma_rounded_spans(x + y, step, 104);
    lemma_itself(z);
    let w = z.number();
    let filled = spec_calc_wallet_exposure_if_filled(balance, held, position_price, qty, price, ex);
    let exact = exposure(m, p, n, q, c, b);
    lemma_exposure_spans(m, p, n, q, c, b);
    if y.equals(zero()) {
        lemma_exposure_stands(ex.c_mult, balance, x, 102, position_price, p, 0, 100);
        lemma_exposure_without(m, p, q, c, b);
        assert(filled == calc_wallet_exposure(ex.c_mult, balance, x, position_price));
        lemma_more_errors(filled, exact, 6, 12, 403);
    } else if z.equals(zero()) {
        lemma_itself(zero());
        assert(filled == zero());
    } else {
        let average = position_price * (x / z) + price * (y / z);
        let exact_average = lemma_average_stands(position_price, x, price, y, z);
        lemma_exposure_stands(ex.c_mult, balance, z, 106, average, exact_average, 6, 309);
        lemma_exposure_of_average(w, exact_average, m, p, n, q, c, b);
        assert(filled == calc_wallet_exposure(ex.c_mult, balance, z, average));
    }
    if stands_for(filled, exact, 12) {
        lemma_stands_spans(filled, exact, 12, 403);
    }
}

/// What a cost is in relation to the balance.
proof fn lemma_exposure_factor(m: real, p: real, n: real, q: real, c: real, b: real)
    requires
        c >= 0real,
        b > 0real,
    ensures
        exposure(m, p, n, q, c, b) == (m * p + n * q) * (c / b),
        c / b >= 0real,
{
    reveal(exposure);
    let a = m * p + n * q;
    lemma_quotient_times(a * c, b);
    lemma_quotient_times(c, b);
    lemma_factor(a, c, b, a * c / b, c / b);
}

proof fn lemma_factor(a: real, c: real, b: real, f: real, k: real)
    requires
        f * b == a * c,
        k * b == c,
        c >= 0real,
        b > 0real,
    ensures
        f == a * k,
        k >= 0real,
{
    lemma_associate(a, k, b);
    lemma_cancel(f, a * k, b);
    lemma_cancel(a * k, f, b);
    assert(0real * b == 0real) by (nonlinear_arith);
    lemma_cancel(0real, k, b);
}

/// The exposure is a straight line over the quantity.
proof fn lemma_exposure_line(s: real, p: real, n: real, q: real, k: real, t: real)
    ensures
        (s * p + (t * n) * q) * k == (1real - t) * ((s * p + 0real * q) * k) + t * ((s * p + n * q)
            * k),
{
    let (a, b) = (s * p, n * q);
    assert(0real * q == 0real) by (nonlinear_arith);
    lemma_associate(t, n, q);
    lemma_distribute(a, t * b, k);
    lemma_distribute(a, b, k);
    lemma_associate(t, b, k);
    lemma_distribute(1real, t, a * k);
    lemma_distribute(a * k, b * k, t);
}

/// How far apart the exposures after two quantities are.
proof fn lemma_exposure_gap(a: real, x: real, y: real, d: real, q: real, k: real)
    requires
        size(x - y) <= d,
        q >= 0real,
        k >= 0real,
    ensures
        size((a + x * q) * k - (a + y * q) * k) <= (d * q) * k,
{
    lemma_distribute(x, y, q);
    lemma_distribute(a + x * q, a + y * q, k);
    lemma_scale_bound(x - y, d, q);
    lemma_scale_bound((x - y) * q, d * q, k);
}

/// How far apart the exposures of two positions with an entry each are.
proof fn lemma_exposure_shift(s: real, v: real, p: real, n: real, w: real, q: real, k: real)
    requires
        p >= 0real,
        q >= 0real,
        k >= 0real,
    ensures
        size((s * p + n * q) * k - (v * p + w * q) * k) <= (size(v - s) * p + size(w - n) * q) * k,
{
    lemma_distribute(s, v, p);
    lemma_distribute(n, w, q);
    lemma_distribute(s * p + n * q, v * p + w * q, k);
    lemma_scale_bound(s - v, size(v - s), p);
    lemma_scale_bound(n - w, size(w - n), q);
    let e = (s - v) * p + (n - w) * q;
    lemma_scale_bound(e, size(v - s) * p + size(w - n) * q, k);
}

/// What the errors of the exposures before and after make of the one at the limit.
proof fn lemma_limit_gap(
    t: real,
    before: real,
    after: real,
    limit: real,
    x: real,
    y: real,
    e: real,
    f: real,
)
    requires
        t * (after - before) == limit - before,
        size(before - x) <= e,
        size(after - y) <= f,
    ensures
        size((1real - t) * x + t * y - limit) <= size(1real - t) * e + size(t) * f,
{
    lemma_distribute(after, before, t);
    lemma_distribute(1real, t, before);
    lemma_distribute(x, before, 1real - t);
    lemma_distribute(y, after, t);
    lemma_bounded_product(1real - t, size(1real - t), x - before, e);
    lemma_bounded_product(t, size(t), y - after, f);
}

/// How far a quantity is from a whole number of steps.
pub open spec fn off_step(x: Binary64, step: Binary64) -> real {
    size(round_(x, step).number() - x.number())
}

/// By how much a quantity that is rounded to a step differs at most from the share `t` of an
/// entry: half a step, the last decimal, and what rounding adds to the magnitudes involved.
pub open spec fn qty_error(step: real, t: real, held: real, qty: real) -> real {
    step / 2real + 2real * half_decimal() + tolerance() * (step + 3real * reach(t, held, qty))
}

/// The error of the quantity.
proof fn lemma_qty_error(r: Binary64, step: Binary64, t: real, s: real, n: real)
    requires
        r.is_finite(),
        moderate(step),
        round_(r, step).is_finite(),
        size(r.number() - t * n) <= tolerance() * reach(t, s, n),
        reach(t, s, n) >= size(t * n),
    ensures
        size(round_(r, step).number() - t * n) <= qty_error(step.number(), t, s, n),
{
    let (m, x, a) = (reach(t, s, n), tolerance(), step.number());
    law_round_error(r, step);
    lemma_scale(x, 1real, m);
    let b = size(r.number());
    lemma_scale(1real + b + a, 1real + 2real * m + a, x);
    lemma_distribute(1real, 2real * m + a, x);
    lemma_distribute(2real * m, a, x);
    lemma_distribute(a, 3real * m, x);
    lemma_associate(2real, x, m);
    lemma_associate(3real, x, m);
    lemma_associate(x, 2real * m, 1real);
    lemma_associate(x, 3real * m, 1real);
}

/// Few errors are within the tolerance.
proof fn lemma_within_tolerance(r: Binary64, x: real, k: nat, i: nat)
    requires
        stands_for(r, x, k),
        spans(x, i),
        k <= 16,
    ensures
        size(r.number() - x) <= tolerance() * x,
{
    lemma_more_errors(r, x, k, 16, i);
    reveal(stands_for);
    lemma_precision();
    assert(EVEN_SPAN as real == 9007199254740992real);
    assert(tolerance() == 16real * precision());
    lemma_associate(16real, precision(), x);
}

/// An entry into a position of `held` contracts.
#[derive(Clone, Copy, Debug)]
pub struct Entry {
    pub held: Binary64,
    pub position_price: Binary64,
    pub qty: Binary64,
    pub price: Binary64,
    pub balance: Binary64,
    pub ex: ExchangeParams,
}

impl Entry {
    /// Whether all that the exposures are computed from is moderate.
    pub open spec fn is_moderate(self) -> bool {
        &&& moderate(self.held)
        &&& moderate(self.position_price)
        &&& moderate(self.qty)
        &&& moderate(self.price)
        &&& moderate(self.balance)
        &&& moderate(self.ex.c_mult)
        &&& moderate(self.ex.qty_step)
    }

    /// The exposure before the entry, as it is computed.
    pub open spec fn before(self) -> Binary64 {
        calc_wallet_exposure(self.ex.c_mult, self.balance, self.held, self.position_price)
    }

    /// The exposure after the entry, as it is computed.
    pub open spec fn after(self) -> Binary64 {
        spec_calc_wallet_exposure_if_filled(
            self.balance,
            self.held,
            self.position_price,
            self.qty,
            self.price,
            self.ex,
        )
    }

    /// The exact exposure of `held` contracts at the position price and of `qty` contracts at the
    /// price of the entry.
    pub open spec fn exact(self, held: real, qty: real) -> real {
        exposure(
            held,
            self.position_price.number(),
            qty,
            self.price.number(),
            self.ex.c_mult.number(),
            self.balance.number(),
        )
    }

    /// The exact exposure once `qty` contracts have been filled.
    pub open spec fn filled(self, qty: real) -> real {
        self.exact(self.held.number(), qty)
    }

    /// The exposure that lies in position and entry not being whole numbers of steps.
    pub open spec fn off_steps(self) -> real {
        self.exact(off_step(self.held, self.ex.qty_step), off_step(self.qty, self.ex.qty_step))
    }

    /// The exact exposure of position and entry once they are rounded to steps.
    pub open spec fn on_steps(self) -> real {
        self.exact(
            round_(self.held, self.ex.qty_step).number(),
            round_(self.qty, self.ex.qty_step).number(),
        )
    }

    /// Which share of the entry the limit leaves, on the straight line between the exposures
    /// before and after.
    pub open spec fn share(self, limit: Binary64) -> real {
        exact_weight(limit.number(), self.before().number(), self.after().number())
    }

    /// The quantity that reaches the limit, rounded to a step.
    pub open spec fn to_limit(self, bp: BotParams) -> Binary64 {
        round_(qty_to_limit(bp, self.held, self.qty, self.before(), self.after()), self.ex.qty_step)
    }

    /// How far from the limit the exposure ends at most where the limit lies between the exposures
    /// before and after: by the exposure of half a step, of the last decimal, and of what rounding
    /// adds to the quantities, by what rounding adds to the limit, and by what position and entry
    /// are off their steps.
    pub open spec fn crop_error(self, limit: Binary64) -> real {
        let step = self.ex.qty_step.number();
        let whole = self.held.number() + self.qty.number();
        let error = step / 2real + 2real * half_decimal() + tolerance() * (step + 3real * whole);
        self.exact(0real, error) + 2real * (tolerance() * limit.number()) + self.off_steps()
    }

    /// How far from the limit the exposure ends at most: by the exposure of the error of the
    /// quantity, by the errors of the exposures before and after, and by what position and entry
    /// are off their steps.
    pub open spec fn landing_error(self, limit: Binary64) -> real {
        let t = self.share(limit);
        let error = qty_error(
            self.ex.qty_step.number(),
            t,
            self.held.number(),
            self.qty.number(),
        );
        self.exact(0real, error) + size(1real - t) * (tolerance() * self.filled(0real)) + size(t)
            * (tolerance() * self.on_steps() + self.off_steps())
    }
}

/// The exposures before and after a moderate entry are exact within the tolerance.
proof fn lemma_exposures(entry: Entry)
    requires
        entry.is_moderate(),
        entry.before() < entry.after(),
    ensures
        entry.before().is_finite(),
        entry.after().is_finite(),
        0real < entry.before().number() < entry.after().number(),
        2real * entry.after().number() <= huge(),
        size(entry.before().number() - entry.filled(0real)) <= tolerance() * entry.filled(0real),
        size(entry.after().number() - entry.on_steps()) <= tolerance() * entry.on_steps(),
        entry.filled(0real) >= 0real,
        entry.on_steps() >= 0real,
{
    let (h, p, q) = (entry.held.number(), entry.position_price.number(), entry.price.number());
    let (c, b) = (entry.ex.c_mult.number(), entry.balance.number());
    lemma_itself(entry.held);
    lemma_itself(entry.position_price);
    lemma_itself(entry.balance);
    lemma_itself(entry.ex.c_mult);
    let (before, after) = (entry.before(), entry.after());
    let (x, y) = (entry.filled(0real), entry.on_steps());
    lemma_exposure_stands(
        entry.ex.c_mult,
        entry.balance,
        entry.held,
        100,
        entry.position_price,
        p,
        0,
        100,
    );
    lemma_exposure_without(h, p, q, c, b);
    lemma_stands_spans(before, x, 6, 400);
    lemma_within_tolerance(before, x, 6, 400);
    lemma_filled_stands(
        entry.ex,
        entry.balance,
        entry.held,
        entry.position_price,
        entry.qty,
        entry.price,
    );
    lemma_number_order(before, after);
    lemma_stands_spans(after, y, 12, 403);
    lemma_within_tolerance(after, y, 12, 403);
    lemma_span_is_normal(after.number(), 404);
    lemma_stands_sign(before, x, 6);
    assert(x != 0real) by {
        lemma_positive_exposure(h, p, c, b);
    }
}

proof fn lemma_positive_exposure(h: real, p: real, c: real, b: real)
    requires
        h > 0real,
        p > 0real,
        c > 0real,
        b > 0real,
    ensures
        h * p * c / b > 0real,
{
    assert(h * p > 0real) by (nonlinear_arith)
        requires
            h > 0real,
            p > 0real,
    ;
    let a = h * p;
    assert(a * c > 0real) by (nonlinear_arith)
        requires
            a > 0real,
            c > 0real,
    ;
    lemma_quotient_times(a * c, b);
    if a * c / b <= 0real {
        lemma_scale(a * c / b, 0real, b);
    }
}

/// The exact exposures of an entry lie on a straight line, and move little where quantities do.
proof fn lemma_exact_exposures(entry: Entry, qty: real, t: real, error: real)
    requires
        entry.is_moderate(),
        size(qty - t * entry.qty.number()) <= error,
    ensures
        size(
            entry.filled(qty) - ((1real - t) * entry.filled(0real) + t * entry.filled(
                entry.qty.number(),
            )),
        ) <= entry.exact(0real, error),
        size(entry.filled(entry.qty.number()) - entry.on_steps()) <= entry.off_steps(),
{
    let (h, p, n, q) = (
        entry.held.number(),
        entry.position_price.number(),
        entry.qty.number(),
        entry.price.number(),
    );
    let (c, b) = (entry.ex.c_mult.number(), entry.balance.number());
    lemma_itself(entry.position_price);
    lemma_itself(entry.price);
    lemma_itself(entry.ex.c_mult);
    lemma_itself(entry.balance);
    let step = entry.ex.qty_step;
    let (v, w) = (round_(entry.held, step).number(), round_(entry.qty, step).number());
    lemma_exposure_factor(h, p, qty, q, c, b);
    lemma_exposure_factor(h, p, 0real, q, c, b);
    lemma_exposure_factor(h, p, n, q, c, b);
    lemma_exposure_factor(0real, p, error, q, c, b);
    lemma_exposure_factor(v, p, w, q, c, b);
    lemma_exposure_factor(size(v - h), p, size(w - n), q, c, b);
    let k = c / b;
    lemma_exposure_line(h, p, n, q, k, t);
    lemma_exposure_gap(h * p, qty, t * n, error, q, k);
    lemma_exposure_nothing(p);
    lemma_exposure_shift(h, v, p, n, w, q, k);
}

proof fn lemma_exposure_nothing(p: real)
    ensures
        0real * p == 0real,
{
    assert(0real * p == 0real) by (nonlinear_arith);
}

/// The quantity that reaches the limit ends at the limit, but for half a quantity step and the
/// last decimal, and up to rounding.
pub proof fn law_lands_on_limit(entry: Entry, bp: BotParams)
    requires
        entry.is_moderate(),
        moderate(bp.wallet_exposure_limit),
        entry.before() < entry.after(),
        entry.to_limit(bp).is_finite(),
    ensures
        size(entry.filled(entry.to_limit(bp).number()) - bp.wallet_exposure_limit.number())
            <= entry.landing_error(bp.wallet_exposure_limit),
{
    let limit = bp.wallet_exposure_limit;
    let (before, after) = (entry.before(), entry.after());
    let (h, n) = (entry.held.number(), entry.qty.number());
    let t = entry.share(limit);
    let r = qty_to_limit(bp, entry.held, entry.qty, before, after);
    lemma_exposures(entry);
    lemma_itself(entry.held);
    lemma_itself(entry.qty);
    lemma_itself(limit);
    lemma_span_is_normal(limit.number(), 100);
    assert(r.is_finite());
    law_qty_to_limit_error(bp, entry.held, entry.qty, before, after);
    lemma_reach(t, h, n);
    lemma_qty_error(r, entry.ex.qty_step, t, h, n);
    let error = qty_error(entry.ex.qty_step.number(), t, h, n);
    let qty = entry.to_limit(bp).number();
    lemma_exact_exposures(entry, qty, t, error);
    lemma_weights_add_up(limit.number(), before.number(), after.number());
    lemma_limit_gap(
        t,
        before.number(),
        after.number(),
        limit.number(),
        entry.filled(0real),
        entry.filled(n),
        tolerance() * entry.filled(0real),
        tolerance() * entry.on_steps() + entry.off_steps(),
    );
}

/// A limit between the exposures before and after leaves a share of the entry.
proof fn lemma_share(t: real, before: real, after: real, limit: real)
    requires
        t * (after - before) == limit - before,
        before < limit < after,
    ensures
        0real < t < 1real,
{
    let d = after - before;
    if t <= 0real {
        lemma_scale(t, 0real, d);
    }
    if t >= 1real {
        lemma_scale(1real, t, d);
    }
}

/// A share of an entry reaches no further than the whole.
proof fn lemma_share_error(t: real, s: real, n: real, step: real)
    requires
        0real < t < 1real,
        s >= 0real,
        n >= 0real,
    ensures
        qty_error(step, t, s, n) <= step / 2real + 2real * half_decimal() + tolerance() * (step
            + 3real * (s + n)),
{
    lemma_distribute(1real, t, s);
    lemma_distribute(s, n, t);
    lemma_scale(t, 1real, n);
    lemma_associate(t, n, 1real);
    assert(reach(t, s, n) <= s + n);
    lemma_scale(step + 3real * reach(t, s, n), step + 3real * (s + n), tolerance());
}

/// A larger quantity has the larger exposure.
proof fn lemma_exposure_grows(p: real, x: real, y: real, q: real, c: real, b: real)
    requires
        x <= y,
        q >= 0real,
        c >= 0real,
        b > 0real,
    ensures
        exposure(0real, p, x, q, c, b) <= exposure(0real, p, y, q, c, b),
{
    lemma_exposure_factor(0real, p, x, q, c, b);
    lemma_exposure_factor(0real, p, y, q, c, b);
    lemma_scale(x, y, q);
    lemma_scale(0real * p + x * q, 0real * p + y * q, c / b);
}

/// What is exact within the tolerance is at most doubled.
proof fn lemma_doubled(r: real, x: real)
    requires
        size(r - x) <= tolerance() * x,
        x >= 0real,
    ensures
        x <= 2real * r,
{
    lemma_scale(tolerance(), 1real / 2real, x);
}

/// The errors of the exposures on both sides of the limit are errors of the limit.
proof fn lemma_share_of_errors(
    t: real,
    before: real,
    after: real,
    limit: real,
    x: real,
    y: real,
    off: real,
)
    requires
        0real < t < 1real,
        t * (after - before) == limit - before,
        x <= 2real * before,
        y <= 2real * after,
        off >= 0real,
    ensures
        (1real - t) * (tolerance() * x) + t * (tolerance() * y + off) <= 2real * (tolerance()
            * limit) + off,
{
    let e = tolerance();
    lemma_scale(x, 2real * before, e);
    lemma_scale(y, 2real * after, e);
    lemma_associate(2real, e, before);
    lemma_associate(2real, e, after);
    lemma_associate(e, 2real * before, 1real);
    lemma_associate(e, 2real * after, 1real);
    let (a, b) = (e * before, e * after);
    lemma_scale(e * x, 2real * a, 1real - t);
    lemma_scale(e * y, 2real * b, t);
    lemma_distribute(e * y, off, t);
    lemma_scale(t, 1real, off);
    lemma_associate(2real, 1real - t, a);
    lemma_associate(2real, t, b);
    lemma_associate(1real - t, 2real * a, 1real);
    lemma_associate(t, 2real * b, 1real);
    lemma_distribute(1real, t, a);
    lemma_distribute(after, before, t);
    lemma_distribute(after, before, e);
    lemma_distribute(limit, before, e);
    lemma_distribute(b, a, t);
    lemma_associate(t, after - before, e);
    lemma_associate(e, after - before, 1real);
    lemma_associate(e, limit - before, 1real);
    assert(t * (b - a) == e * limit - a);
}

/// The share of an entry that a limit between the exposures before and after leaves ends at the
/// limit, but for half a quantity step and the last decimal, and up to rounding.
pub proof fn law_share_lands_on_limit(entry: Entry, bp: BotParams)
    requires
        entry.is_moderate(),
        moderate(bp.wallet_exposure_limit),
        entry.before() < bp.wallet_exposure_limit,
        bp.wallet_exposure_limit < entry.after(),
        entry.to_limit(bp).is_finite(),
    ensures
        size(entry.filled(entry.to_limit(bp).number()) - bp.wallet_exposure_limit.number())
            <= entry.crop_error(bp.wallet_exposure_limit),
{
    let limit = bp.wallet_exposure_limit;
    let (before, after) = (entry.before(), entry.after());
    let (h, n) = (entry.held.number(), entry.qty.number());
    let t = entry.share(limit);
    law_lands_on_limit(entry, bp);
    lemma_exposures(entry);
    lemma_itself(entry.held);
    lemma_itself(entry.qty);
    lemma_itself(entry.price);
    lemma_itself(entry.balance);
    lemma_itself(entry.ex.c_mult);
    lemma_number_order(before, limit);
    lemma_number_order(limit, after);
    lemma_weights_add_up(limit.number(), before.number(), after.number());
    lemma_share(t, before.number(), after.number(), limit.number());
    let step = entry.ex.qty_step.number();
    lemma_share_error(t, h, n, step);
    let error = step / 2real + 2real * half_decimal() + tolerance() * (step + 3real * (h + n));
    lemma_exposure_grows(
        entry.position_price.number(),
        qty_error(step, t, h, n),
        error,
        entry.price.number(),
        entry.ex.c_mult.number(),
        entry.balance.number(),
    );
    lemma_doubled(before.number(), entry.filled(0real));
    lemma_doubled(after.number(), entry.on_steps());
    lemma_exact_exposures(entry, t * n, t, 0real);
    lemma_share_of_errors(
        t,
        before.number(),
        after.number(),
        limit.number(),
        entry.filled(0real),
        entry.on_steps(),
        entry.off_steps(),
    );
}

/// The slack is above the limit, and a full position below it.
proof fn lemma_around_limit(limit: Binary64)
    requires
        moderate(limit),
    ensures
        (limit * limit_slack()).is_finite(),
        (limit * full_share()).is_finite(),
        limit < limit * limit_slack(),
        limit * full_share() < limit,
{
    let (a, b, c) = (limit.number(), 101real / 100real, 999real / 1000real);
    lemma2_to64();
    lemma_itself(limit);
    assert(spans(b, 1) && spans(c, 1)) by {
        reveal(spans);
    }
    lemma_fraction_stands(101, 100, b);
    lemma_fraction_stands(999, 1000, c);
    lemma_mul_stands(limit, a, 0, 100, limit_slack(), b, 1, 1);
    lemma_mul_stands(limit, a, 0, 100, full_share(), c, 1, 1);
    let (x, y) = (limit * limit_slack(), limit * full_share());
    lemma_apart(x, a, b);
    lemma_apart(y, a, c);
    lemma_number_order(limit, x);
    lemma_number_order(y, limit);
}

proof fn lemma_apart(r: Binary64, a: real, b: real)
    requires
        stands_for(r, a * b, 3),
        a > 0real,
        b == 101real / 100real || b == 999real / 1000real,
    ensures
        r.is_finite(),
        b > 1real ==> r.number() > a,
        b < 1real ==> r.number() < a,
{
    reveal(stands_for);
    lemma_precision();
    lemma_associate(a, b, 1real);
    lemma_scale(0real, b, a);
    lemma_scale(b, 102real / 100real, a);
    lemma_scale(precision(), 1real / 1_000_000real, a * b);
    let e = precision() * (a * b);
    assert(size(r.number() - a * b) <= 3real * e);
    assert(a * b <= 2real * a);
    assert(1_000_000real * e <= a * b);
    if b > 1real {
        lemma_scale(201real / 200real, b, a);
    } else {
        lemma_scale(b, 1999real / 2000real, a);
    }
    lemma_apart_by(r.number(), a, a * b, e);
}

proof fn lemma_apart_by(r: real, a: real, c: real, e: real)
    requires
        a > 0real,
        size(r - c) <= 3real * e,
        1_000_000real * e <= c,
        c <= 2real * a,
    ensures
        200real * c >= 201real * a ==> r > a,
        2000real * c <= 1999real * a ==> r < a,
{
}

/// The re-entry into a position at a price, before any cropping.
pub open spec fn reentry(
    side: Side,
    ex: ExchangeParams,
    st: StateParams,
    bp: BotParams,
    position: Position,
    price: Binary64,
    factor: Binary64,
) -> Entry {
    let held = side.spec_held(position);
    Entry {
        held,
        position_price: position.price,
        qty: full_reentry_qty(side, ex, st, bp, price, held, factor),
        price,
        balance: st.balance,
        ex,
    }
}

/// A number between others is finite.
proof fn lemma_between_is_finite(a: Binary64, x: Binary64, b: Binary64)
    requires
        a < x,
        x < b,
    ensures
        x.is_finite(),
{
    lemma_units_order(a.position(), INFINITE as nat);
    lemma_units_order(b.position(), INFINITE as nat);
    lemma_units_order(INFINITE as nat, a.position());
    lemma_units_order(INFINITE as nat, b.position());
}

/// What is left of an entry into a position once it has been cropped.
pub open spec fn cropped(entry: Entry, bp: BotParams, position: Position) -> Binary64 {
    cropped_qty(
        entry.ex,
        bp,
        position,
        entry.before(),
        entry.balance,
        entry.qty,
        entry.price,
    )
}

/// A cropped entry ends at the exposure limit, but for half a quantity step and the last decimal,
/// and up to rounding, unless it is as small as the exchange takes.
pub proof fn law_cropped_lands_on_limit(entry: Entry, bp: BotParams, position: Position)
    requires
        entry.is_moderate(),
        moderate(bp.wallet_exposure_limit),
        position.size.abs() == entry.held,
        position.price == entry.position_price,
        entry.before() < bp.wallet_exposure_limit,
        cropped(entry, bp, position) < entry.qty,
        cropped(entry, bp, position) > min_entry_qty(entry.price, entry.ex),
    ensures
        cropped(entry, bp, position) == entry.to_limit(bp),
        size(
            entry.filled(cropped(entry, bp, position).number())
                - bp.wallet_exposure_limit.number(),
        ) <= entry.crop_error(bp.wallet_exposure_limit),
{
    let (ex, held, qty, before) = (entry.ex, entry.held, entry.qty, entry.before());
    assert(held.abs() == held && qty.abs() == qty);
    law_cropped_only_past_limit(ex, bp, position, before, entry.balance, qty, entry.price);
    lemma_around_limit(bp.wallet_exposure_limit);
    lemma_between_is_finite(
        min_entry_qty(entry.price, ex),
        cropped(entry, bp, position),
        qty,
    );
    assert(exposure_if_filled(ex, position, entry.balance, qty, entry.price) == entry.after());
    law_share_lands_on_limit(entry, bp);
}

/// An order enters the quantity that it was made of.
proof fn lemma_entered(side: Side, kind: Kind, qty: Binary64, price: Binary64)
    ensures
        entered(side, side.order(kind, qty, price)) == qty,
{
    assert(qty.negated().negated() == qty);
}

/// Cropped and inflated grid entries are re-entries.
proof fn lemma_is_grid_reentry(
    side: Side,
    ex: ExchangeParams,
    st: StateParams,
    bp: BotParams,
    position: Position,
)
    requires
        ({
            let order_type = grid_entry(side, ex, st, bp, position).order_type;
            ||| order_type == side.order_type(Kind::GridCropped)
            ||| order_type == side.order_type(Kind::GridInflated)
        }),
    ensures
        grid_entry(side, ex, st, bp, position) == grid_reentry(side, ex, st, bp, position),
{
}

/// A cropped grid entry is what is left of the re-entry into a position that is not full.
#[verifier::spinoff_prover]
#[verifier::rlimit(100)]
proof fn lemma_cropped_grid_entry(
    side: Side,
    ex: ExchangeParams,
    st: StateParams,
    bp: BotParams,
    position: Position,
    entry: Entry,
)
    requires
        ({
            let order = grid_reentry(side, ex, st, bp, position);
            let factor = bp.entry_grid_double_down_factor;
            &&& entry == reentry(side, ex, st, bp, position, order.price, factor)
            &&& order.order_type == side.order_type(Kind::GridCropped)
        }),
    ensures
        entered(side, grid_reentry(side, ex, st, bp, position)) == cropped(entry, bp, position),
        cropped(entry, bp, position) < entry.qty,
        !(entry.before() >= bp.wallet_exposure_limit * full_share()),
{
    let order = grid_reentry(side, ex, st, bp, position);
    let held = side.spec_held(position);
    let before = exposure_of(side, ex, st, position);
    let price = reentry_price(
        side,
        position.price,
        before,
        side.spec_book_price(st),
        ex,
        bp,
    );
    let qty = full_reentry_qty(side, ex, st, bp, price, held, bp.entry_grid_double_down_factor);
    let left = cropped_qty(ex, bp, position, before, st.balance, qty, price);
    lemma_entered(side, Kind::GridCropped, left, price);
    assert(order == side.order(Kind::GridCropped, left, price));
    assert(entry.qty == qty && entry.held == held && entry.before() == before);
    assert(cropped(entry, bp, position) == left);
}

/// Cropped trailing entries are re-entries.
proof fn lemma_is_trailing_reentry(
    side: Side,
    ex: ExchangeParams,
    st: StateParams,
    bp: BotParams,
    position: Position,
    trail: TrailingPriceBundle,
)
    requires
        trailing_entry(side, ex, st, bp, position, trail).order_type == side.order_type(
            Kind::TrailingCropped,
        ),
    ensures
        trailing_entry(side, ex, st, bp, position, trail) == trailing_reentry(
            side,
            ex,
            st,
            bp,
            position,
            trail,
        ),
        trailing_price(side, ex, st, bp, position, trail) is Some,
{
}

/// A cropped trailing entry is what is left of the re-entry into a position that is not past the
/// limit.
#[verifier::spinoff_prover]
#[verifier::rlimit(100)]
proof fn lemma_cropped_trailing_entry(
    side: Side,
    ex: ExchangeParams,
    st: StateParams,
    bp: BotParams,
    position: Position,
    trail: TrailingPriceBundle,
    price: Binary64,
)
    requires
        trailing_reentry(side, ex, st, bp, position, trail).order_type == side.order_type(
            Kind::TrailingCropped,
        ),
        trailing_price(side, ex, st, bp, position, trail) == Some(price),
    ensures
        ({
            let order = trailing_reentry(side, ex, st, bp, position, trail);
            let factor = bp.entry_trailing_double_down_factor;
            let entry = reentry(side, ex, st, bp, position, price, factor);
            &&& order.price == price
            &&& entered(side, order) == cropped(entry, bp, position)
            &&& cropped(entry, bp, position) < entry.qty
            &&& !(entry.before() > bp.wallet_exposure_limit * full_share())
        }),
{
    let order = trailing_reentry(side, ex, st, bp, position, trail);
    let factor = bp.entry_trailing_double_down_factor;
    let entry = reentry(side, ex, st, bp, position, price, factor);
    let held = side.spec_held(position);
    let before = exposure_of(side, ex, st, position);
    let qty = full_reentry_qty(side, ex, st, bp, price, held, factor);
    let left = cropped_qty(ex, bp, position, before, st.balance, qty, price);
    lemma_entered(side, Kind::TrailingCropped, left, price);
    assert(order == side.order(Kind::TrailingCropped, left, price));
    assert(entry.qty == qty && entry.held == held && entry.before() == before);
    assert(cropped(entry, bp, position) == left);
}

/// A cropped grid entry ends at the exposure limit, but for half a quantity step and the last
/// decimal, and up to rounding, unless it is as small as the exchange takes.
pub proof fn law_cropped_grid_entry_lands_on_limit(
    side: Side,
    ex: ExchangeParams,
    st: StateParams,
    bp: BotParams,
    position: Position,
)
    requires
        ({
            let order = grid_entry(side, ex, st, bp, position);
            let factor = bp.entry_grid_double_down_factor;
            &&& order.order_type == side.order_type(Kind::GridCropped)
            &&& reentry(side, ex, st, bp, position, order.price, factor).is_moderate()
            &&& moderate(bp.wallet_exposure_limit)
            &&& entered(side, order) > min_entry_qty(order.price, ex)
        }),
    ensures
        ({
            let order = grid_entry(side, ex, st, bp, position);
            let factor = bp.entry_grid_double_down_factor;
            let entry = reentry(side, ex, st, bp, position, order.price, factor);
            size(
                entry.filled(entered(side, order).number()) - bp.wallet_exposure_limit.number(),
            ) <= entry.crop_error(bp.wallet_exposure_limit)
        }),
{
    let order = grid_entry(side, ex, st, bp, position);
    let factor = bp.entry_grid_double_down_factor;
    let entry = reentry(side, ex, st, bp, position, order.price, factor);
    assert(position.size.abs() == entry.held);
    lemma_is_grid_reentry(side, ex, st, bp, position);
    lemma_cropped_grid_entry(side, ex, st, bp, position, entry);
    lemma_around_limit(bp.wallet_exposure_limit);
    lemma_before_is_finite(entry);
    law_cropped_lands_on_limit(entry, bp, position);
}

/// The exposure before a moderate entry is a number.
proof fn lemma_before_is_finite(entry: Entry)
    requires
        entry.is_moderate(),
    ensures
        entry.before().is_finite(),
{
    lemma_itself(entry.held);
    lemma_itself(entry.position_price);
    lemma_exposure_stands(
        entry.ex.c_mult,
        entry.balance,
        entry.held,
        100,
        entry.position_price,
        entry.position_price.number(),
        0,
        100,
    );
    reveal(stands_for);
}

/// A cropped trailing entry ends at the exposure limit, but for half a quantity step and the last
/// decimal, and up to rounding, unless it is as small as the exchange takes.
pub proof fn law_cropped_trailing_entry_lands_on_limit(
    side: Side,
    ex: ExchangeParams,
    st: StateParams,
    bp: BotParams,
    position: Position,
    trail: TrailingPriceBundle,
)
    requires
        ({
            let order = trailing_entry(side, ex, st, bp, position, trail);
            let factor = bp.entry_trailing_double_down_factor;
            &&& order.order_type == side.order_type(Kind::TrailingCropped)
            &&& reentry(side, ex, st, bp, position, order.price, factor).is_moderate()
            &&& moderate(bp.wallet_exposure_limit)
            &&& entered(side, order) > min_entry_qty(order.price, ex)
        }),
    ensures
        ({
            let order = trailing_entry(side, ex, st, bp, position, trail);
            let factor = bp.entry_trailing_double_down_factor;
            let entry = reentry(side, ex, st, bp, position, order.price, factor);
            size(
                entry.filled(entered(side, order).number()) - bp.wallet_exposure_limit.number(),
            ) <= entry.crop_error(bp.wallet_exposure_limit)
        }),
{
    let order = trailing_entry(side, ex, st, bp, position, trail);
    let factor = bp.entry_trailing_double_down_factor;
    let entry = reentry(side, ex, st, bp, position, order.price, factor);
    assert(position.size.abs() == entry.held);
    lemma_is_trailing_reentry(side, ex, st, bp, position, trail);
    let price = trailing_price(side, ex, st, bp, position, trail).unwrap();
    lemma_cropped_trailing_entry(side, ex, st, bp, position, trail, price);
    lemma_around_limit(bp.wallet_exposure_limit);
    lemma_before_is_finite(entry);
    law_cropped_lands_on_limit(entry, bp, position);
}

/// The quantity of an inflated grid entry is the one that reaches the limit.
#[verifier::spinoff_prover]
#[verifier::rlimit(100)]
proof fn lemma_inflated_is_to_limit(
    side: Side,
    ex: ExchangeParams,
    st: StateParams,
    bp: BotParams,
    position: Position,
    entry: Entry,
)
    requires
        ({
            let order = grid_reentry(side, ex, st, bp, position);
            let factor = bp.entry_grid_double_down_factor;
            &&& entry == reentry(side, ex, st, bp, position, order.price, factor)
            &&& order.order_type == side.order_type(Kind::GridInflated)
        }),
        position.size.abs() == entry.held,
        entry.qty.abs() == entry.qty,
    ensures
        entered(side, grid_reentry(side, ex, st, bp, position)) == entry.to_limit(bp),
        !(entry.before() >= bp.wallet_exposure_limit * full_share()),
{
    let order = grid_reentry(side, ex, st, bp, position);
    let held = side.spec_held(position);
    let before = exposure_of(side, ex, st, position);
    let price = reentry_price(
        side,
        position.price,
        before,
        side.spec_book_price(st),
        ex,
        bp,
    );
    let qty = full_reentry_qty(side, ex, st, bp, price, held, bp.entry_grid_double_down_factor);
    let after = exposure_if_filled(ex, position, st.balance, qty, price);
    let inflated = round_(qty_to_limit(bp, held, qty, before, after), ex.qty_step);
    lemma_entered(side, Kind::GridInflated, inflated, price);
    assert(order == side.order(Kind::GridInflated, inflated, price));
    assert(entry.qty == qty && entry.held == held && entry.before() == before);
    assert(entry.after() == after);
}

/// An inflated grid entry ends at the exposure limit, but for half a quantity step and the last
/// decimal, and up to rounding, if the plain entry adds to the exposure at all. Rounding weighs
/// the more the smaller a part the plain entry is of what the limit leaves.
pub proof fn law_inflated_entry_lands_on_limit(
    side: Side,
    ex: ExchangeParams,
    st: StateParams,
    bp: BotParams,
    position: Position,
)
    requires
        ({
            let order = grid_entry(side, ex, st, bp, position);
            let factor = bp.entry_grid_double_down_factor;
            let entry = reentry(side, ex, st, bp, position, order.price, factor);
            &&& order.order_type == side.order_type(Kind::GridInflated)
            &&& order.qty.is_finite()
            &&& entry.is_moderate()
            &&& moderate(bp.wallet_exposure_limit)
            &&& entry.before() < entry.after()
        }),
    ensures
        ({
            let order = grid_entry(side, ex, st, bp, position);
            let factor = bp.entry_grid_double_down_factor;
            let entry = reentry(side, ex, st, bp, position, order.price, factor);
            size(
                entry.filled(entered(side, order).number()) - bp.wallet_exposure_limit.number(),
            ) <= entry.landing_error(bp.wallet_exposure_limit)
        }),
{
    let order = grid_entry(side, ex, st, bp, position);
    let factor = bp.entry_grid_double_down_factor;
    let entry = reentry(side, ex, st, bp, position, order.price, factor);
    assert(position.size.abs() == entry.held && entry.qty.abs() == entry.qty);
    lemma_is_grid_reentry(side, ex, st, bp, position);
    lemma_inflated_is_to_limit(side, ex, st, bp, position, entry);
    lemma_number_signs(order.qty);
    law_lands_on_limit(entry, bp);
}

/// Whether a position and an entry are of less than `2^46` quantity steps together, and less than
/// `2^46` times the entry.
pub open spec fn countable(entry: Entry) -> bool {
    let whole = entry.held.number() + entry.qty.number();
    &&& 8real * (tolerance() * whole) <= entry.ex.qty_step.number()
    &&& 8real * (tolerance() * whole) <= entry.qty.number()
}

/// A share that is not negative falls short of zero by rounding alone.
proof fn lemma_share_falls_short(r: real, t: real, s: real, n: real)
    requires
        t > 0real,
        s >= 0real,
        n >= 0real,
        size(r - t * n) <= tolerance() * reach(t, s, n),
        8real * (tolerance() * (s + n)) <= n,
    ensures
        r >= -(tolerance() * (s + n)),
{
    let (e, w) = (tolerance(), s + n);
    lemma_scale(0real, t, n);
    lemma_scale(0real, w, e);
    if t <= 1real {
        lemma_distribute(1real, t, s);
        lemma_distribute(s, n, t);
        lemma_scale(t, 1real, n);
        lemma_associate(t, n, 1real);
        lemma_scale(reach(t, s, n), w, e);
    } else {
        // the whole reach is at most twice the share of both
        let tw = t * w;
        lemma_distribute(t, 1real, s);
        lemma_distribute(s, n, t);
        lemma_associate(t, s, 1real);
        assert(reach(t, s, n) <= 2real * tw);
        lemma_scale(reach(t, s, n), 2real * tw, e);
        lemma_associate(2real, e, tw);
        lemma_associate(e, 2real * tw, 1real);
        lemma_associate(e, t, w);
        lemma_scale(8real * (e * w), n, t);
        lemma_associate(8real, t, e * w);
        lemma_associate(t, 8real * (e * w), 1real);
    }
}

/// The quantity that reaches a limit above the exposure is not negative.
pub proof fn law_to_limit_is_not_negative(entry: Entry, bp: BotParams)
    requires
        entry.is_moderate(),
        moderate(bp.wallet_exposure_limit),
        entry.before() < entry.after(),
        entry.before() < bp.wallet_exposure_limit,
        entry.to_limit(bp).is_finite(),
        countable(entry),
    ensures
        entry.to_limit(bp) >= zero(),
{
    let limit = bp.wallet_exposure_limit;
    let (before, after) = (entry.before(), entry.after());
    let (h, n) = (entry.held.number(), entry.qty.number());
    let t = entry.share(limit);
    let r = qty_to_limit(bp, entry.held, entry.qty, before, after);
    lemma_exposures(entry);
    lemma_itself(entry.held);
    lemma_itself(entry.qty);
    lemma_itself(limit);
    lemma_itself(entry.ex.qty_step);
    lemma_span_is_normal(limit.number(), 100);
    lemma_number_order(before, limit);
    assert(r.is_finite());
    law_qty_to_limit_error(bp, entry.held, entry.qty, before, after);
    lemma_weights_add_up(limit.number(), before.number(), after.number());
    let d = after.number() - before.number();
    if t <= 0real {
        lemma_scale(t, 0real, d);
    }
    lemma_share_falls_short(r.number(), t, h, n);
    lemma_round_is_not_negative(r, entry.ex.qty_step);
}

/// An inflated grid entry goes the way of its side, if it has any quantity.
pub proof fn law_inflated_entry_has_its_sign(
    side: Side,
    ex: ExchangeParams,
    st: StateParams,
    bp: BotParams,
    position: Position,
)
    requires
        ({
            let order = grid_entry(side, ex, st, bp, position);
            let factor = bp.entry_grid_double_down_factor;
            let entry = reentry(side, ex, st, bp, position, order.price, factor);
            &&& order.order_type == side.order_type(Kind::GridInflated)
            &&& order.qty.is_finite()
            &&& entry.is_moderate()
            &&& moderate(bp.wallet_exposure_limit)
            &&& entry.before() < entry.after()
            &&& countable(entry)
        }),
    ensures
        ({
            let order = grid_entry(side, ex, st, bp, position);
            ||| order.qty.equals(zero())
            ||| match side {
                Side::Long => order.qty > zero(),
                Side::Short => order.qty < zero(),
            }
        }),
{
    let order = grid_entry(side, ex, st, bp, position);
    let factor = bp.entry_grid_double_down_factor;
    let entry = reentry(side, ex, st, bp, position, order.price, factor);
    assert(position.size.abs() == entry.held && entry.qty.abs() == entry.qty);
    lemma_is_grid_reentry(side, ex, st, bp, position);
    lemma_inflated_is_to_limit(side, ex, st, bp, position, entry);
    lemma_number_signs(order.qty);
    lemma_around_limit(bp.wallet_exposure_limit);
    lemma_before_is_finite(entry);
    law_to_limit_is_not_negative(entry, bp);
    assert(order.qty.negated().value() == -order.qty.value());
}

} // verus!
