//! What prices and quantities come to in exact numbers.
use crate::accuracy::half_decimal;
use crate::accuracy::law_round_dn_bounds;
use crate::accuracy::law_round_error;
use crate::accuracy::law_round_up_bounds;
use crate::accuracy::lemma_ceil_number;
use crate::accuracy::lemma_decimal_scale;
use crate::accuracy::lemma_floor_number;
use crate::accuracy::lemma_round_number;
use crate::accuracy::tolerance;
use crate::binary64::Binary64;
use crate::constants::decimal_scale;
use crate::constants::fraction;
use crate::constants::one;
use crate::constants::zero;
use crate::decisions::has_budget;
use crate::decisions::law_grid_comes_first;
use crate::decisions::law_trailing_comes_first;
use crate::decisions::trailing_or_divergence;
use crate::interpolation::lemma_one;
use crate::interpolation::lemma_smallest_errors;
use crate::landing::lemma_average_stands;
use crate::landing::lemma_exposure_stands;
use crate::landing::lemma_itself;
use crate::landing::lemma_rounded_spans;
use crate::landing::lemma_stands_spans;
use crate::landing::moderate;
use crate::precision::half_unit;
use crate::precision::law_add_error;
use crate::precision::law_div_error;
use crate::precision::law_mul_error;
use crate::precision::law_sub_error;
use crate::precision::lemma_add_stands;
use crate::precision::lemma_div_stands;
use crate::precision::lemma_fraction_stands;
use crate::precision::lemma_half_unit;
use crate::precision::lemma_more_errors;
use crate::precision::lemma_mul_stands;
use crate::precision::lemma_number_order;
use crate::precision::lemma_number_signs;
use crate::precision::lemma_precision;
use crate::precision::lemma_span_is_normal;
use crate::precision::lemma_span_of_product;
use crate::precision::lemma_span_of_sum;
use crate::precision::lemma_wider_span;
use crate::precision::precision;
use crate::precision::spans;
use crate::precision::stands_for;
use crate::reals::lemma_associate;
use crate::reals::lemma_cancel;
use crate::reals::lemma_distribute;
use crate::reals::lemma_quotient_times;
use crate::reals::lemma_scale;
use crate::reals::lemma_scale_bound;
use crate::reals::size;
use crate::rounding::EVEN_SPAN;
use crate::rules::grid_entry;
use crate::rules::initial_entry_price;
use crate::rules::initial_entry_qty;
use crate::rules::min_entry_qty;
use crate::rules::next_entry;
use crate::rules::reentry_price;
use crate::rules::reentry_qty;
use crate::rules::reentry_target;
use crate::rules::trailing_price;
use crate::side::Side;
use crate::types::BotParams;
use crate::types::DivergenceBundle;
use crate::types::ExchangeParams;
use crate::types::Position;
use crate::types::StateParams;
use crate::types::TrailingPriceBundle;
use crate::utils::calc_new_psize_pprice;
use crate::utils::calc_wallet_exposure;
use crate::utils::round_;
use crate::utils::round_dn;
use crate::utils::round_up;
use crate::utils::to_decimals;
use vstd::arithmetic::power2::lemma2_to64;
use vstd::arithmetic::power2::lemma2_to64_rest;
use vstd::prelude::*;

verus! {

/// One rounding at most doubles a magnitude, but for the smallest ones.
proof fn lemma_at_most_doubled(r: Binary64, x: real, b: real)
    requires
        size(r.number() - x) <= precision() * size(x) + half_unit(),
        size(x) <= b,
    ensures
        size(r.number()) <= 2real * b + 1real,
{
    lemma_precision();
    lemma_half_unit();
    lemma_scale(precision(), 1real, size(x));
}

/// A bounded quotient.
proof fn lemma_bounded_quotient(a: real, s: real, b: real)
    requires
        s > 0real,
        size(a) <= b,
    ensures
        size(a / s) <= b / s,
        (b / s) * s == b,
{
    lemma_quotient_times(a, s);
    lemma_quotient_times(b, s);
    lemma_bounded_quotient_by(a, s, b, a / s, b / s);
}

proof fn lemma_bounded_quotient_by(a: real, s: real, b: real, p: real, q: real)
    requires
        s > 0real,
        size(a) <= b,
        p * s == a,
        q * s == b,
    ensures
        size(p) <= q,
{
    lemma_cancel(p, q, s);
    lemma_distribute(0real, p, s);
    lemma_cancel(0real - p, q, s);
}

/// Freeing a moderate number of decimals gives a finite number.
proof fn lemma_to_decimals_is_finite(x: Binary64, b: real)
    requires
        x.is_finite(),
        size(x.number()) <= 4real * b + 10real,
        b >= 0real,
        spans(b, 700),
    ensures
        to_decimals(x).is_finite(),
{
    let scale = decimal_scale();
    let d = 10_000_000_000real;
    lemma_decimal_scale();
    lemma2_to64();
    lemma2_to64_rest();
    let c = 100_000_000_000real;
    assert(spans(c, 40) && spans(1real, 40)) by {
        reveal(spans);
    }
    lemma_wider_span(1real, 40, 700);
    lemma_span_of_sum(b, 1real, 700);
    lemma_span_of_product(b + 1real, c, 701, 40);
    let top = (b + 1real) * c;
    lemma_span_is_normal(top, 741);
    assert(top == b * c + c) by {
        lemma_distribute(b, 1real, c);
    }
    let y = x * scale;
    law_mul_error(x, scale);
    lemma_scale_bound(x.number(), 4real * b + 10real, d);
    assert(size(x.number() * d) <= top);
    lemma_at_most_doubled(y, x.number() * d, (4real * b + 10real) * d);
    lemma_round_number(y);
    let z = y.round();
    law_div_error(z, scale);
    lemma_bounded_quotient(z.number(), d, size(z.number()));
    lemma_quotient_times(size(z.number()), d);
    let q = size(z.number()) / d;
    assert(q * d == size(z.number()));
    assert(q <= size(z.number()));
}

/// Rounding a moderate number down or up to a moderate step gives a finite number.
proof fn lemma_steps_are_finite(n: Binary64, step: Binary64, b: real)
    requires
        n.is_finite(),
        size(n.number()) <= b,
        spans(b, 560),
        moderate(step),
    ensures
        round_dn(n, step).is_finite(),
        round_up(n, step).is_finite(),
{
    let (a, s) = (n.number(), step.number());
    let v = n / step;
    lemma_itself(step);
    lemma_span_of_product(b, s, 560, 100);
    lemma_span_is_normal(b, 560);
    lemma_span_is_normal(b / s, 660);
    lemma_bounded_quotient(a, s, b);
    law_div_error(n, step);
    lemma_at_most_doubled(v, a / s, b / s);
    lemma_floor_number(v);
    lemma_ceil_number(v);
    lemma_wider_span(s, 100, 560);
    lemma_span_of_sum(b, s, 560);
    lemma_wider_span(b + s, 561, 700);
    lemma_whole_steps_are_finite(v.floor(), step, b, b / s);
    lemma_whole_steps_are_finite(v.ceil(), step, b, b / s);
}

proof fn lemma_whole_steps_are_finite(m: Binary64, step: Binary64, b: real, q: real)
    requires
        m.is_finite(),
        moderate(step),
        b >= 0real,
        q * step.number() == b,
        size(m.number()) <= 2real * q + 2real,
        spans(b + step.number(), 700),
    ensures
        to_decimals(m * step).is_finite(),
{
    let s = step.number();
    lemma_itself(step);
    lemma_span_is_normal(b + s, 700);
    lemma_scale_bound(m.number(), 2real * q + 2real, s);
    lemma_distribute(2real * q, 2real, s);
    lemma_associate(2real, q, s);
    assert(size(m.number() * s) <= 2real * (b + s));
    law_mul_error(m, step);
    lemma_at_most_doubled(m * step, m.number() * s, 2real * (b + s));
    lemma_to_decimals_is_finite(m * step, b + s);
}

/// A price at the factor `f` times another one, where `f` is exact up to ten errors of `g`.
proof fn lemma_price_times(base: Binary64, f: Binary64, x: real, g: real)
    requires
        moderate(base),
        f.is_finite(),
        size(f.number() - x) <= 10real * (precision() * g),
        size(x) <= g,
        g >= 1real,
        spans(g, 450),
    ensures
        (base * f).is_finite(),
        size((base * f).number() - base.number() * x) <= tolerance() * (base.number() * g),
        size((base * f).number()) <= 2real * (base.number() * g),
        spans(base.number() * g, 550),
        base.number() * g >= 0real,
{
    let (u, b, n) = (precision(), base.number(), f.number());
    let (ug, bg) = (u * g, b * g);
    lemma_precision();
    lemma_half_unit();
    lemma_itself(base);
    lemma_scale(u, 1real / 1_000_000real, g);
    assert(size(n) <= 3real / 2real * g);
    lemma_span_of_product(b, g, 100, 450);
    lemma_span_is_normal(bg, 550);
    // the exact product
    lemma_scale_bound(n, 3real / 2real * g, b);
    lemma_associate(3real / 2real, g, b);
    lemma_associate(b, g, 1real);
    assert(size(b * n) <= 3real / 2real * bg);
    law_mul_error(base, f);
    // and its errors
    lemma_distribute(n, x, b);
    lemma_scale_bound(n - x, 10real * ug, b);
    lemma_associate(10real, ug, b);
    lemma_associate(u, g, b);
    let e = u * bg;
    assert(size(b * n - b * x) <= 10real * e);
    lemma_scale(size(b * n), 3real / 2real * bg, u);
    lemma_associate(3real / 2real, u, bg);
    lemma_associate(u, 3real / 2real * bg, 1real);
    assert(u * size(b * n) <= 3real / 2real * e);
    lemma_smallest_errors(base, base);
    lemma_scale(1real, g, b);
    lemma_scale(b, bg, u);
    assert(half_unit() <= e);
    assert(EVEN_SPAN as real == 9007199254740992real);
    assert(tolerance() == 16real * u);
    lemma_associate(16real, u, bg);
    lemma_scale(tolerance(), 1real / 1000real, bg);
    lemma_scale_bound(x, g, b);
}

/// The exact price at a distance away from another one: below it for buys, above it for sales.
pub open spec fn away(side: Side, price: real, distance: real) -> real {
    match side {
        Side::Long => price * (1real - distance),
        Side::Short => price * (1real + distance),
    }
}

/// Whether `x` is the price step at `exact` or next behind it, within an error: at or below it for
/// buys, at or above it for sales.
pub open spec fn next_step(side: Side, x: real, exact: real, step: real, error: real) -> bool {
    match side {
        Side::Long => exact - step - error <= x <= exact + error,
        Side::Short => exact - error <= x <= exact + step + error,
    }
}

/// What rounding adds at most to a price step near prices of a magnitude: half of the last
/// decimal, and small parts of the step and the magnitude.
pub open spec fn price_error(step: real, magnitude: real) -> real {
    half_decimal() + tolerance() * (1real + step + 3real * magnitude)
}

/// The price step behind a factor times a price.
proof fn lemma_price_behind(base: Binary64, f: Binary64, x: real, g: real, step: Binary64)
    requires
        moderate(base),
        moderate(step),
        f.is_finite(),
        size(f.number() - x) <= 10real * (precision() * g),
        size(x) <= g,
        g >= 1real,
        spans(g, 450),
    ensures
        ({
            let error = price_error(step.number(), base.number() * g);
            let exact = base.number() * x;
            let (below, above) = (round_dn(base * f, step), round_up(base * f, step));
            &&& below.is_finite() && above.is_finite()
            &&& next_step(Side::Long, below.number(), exact, step.number(), error)
            &&& next_step(Side::Short, above.number(), exact, step.number(), error)
        }),
{
    let n = base * f;
    let (m, s, t) = (base.number() * g, step.number(), tolerance());
    lemma_price_times(base, f, x, g);
    lemma_itself(step);
    assert(spans(2real * m, 551)) by {
        lemma_span_of_sum(m, m, 550);
    }
    lemma_wider_span(2real * m, 551, 560);
    lemma_steps_are_finite(n, step, 2real * m);
    law_round_dn_bounds(n, step);
    law_round_up_bounds(n, step);
    lemma_scale(1real + size(n.number()) + s, 1real + 2real * m + s, t);
    lemma_distribute(1real + 2real * m + s, m, t);
    lemma_associate(t, m, 1real);
}

/// Whether a double is zero, or a positive number from `2^-100` to `2^100`.
pub open spec fn modest(x: Binary64) -> bool {
    x.is_finite() && x >= zero() && spans(x.number(), 100)
}

proof fn lemma_modest(x: Binary64)
    requires
        modest(x),
    ensures
        x.number() >= 0real,
        stands_for(x, x.number(), 0),
{
    lemma_itself(x);
    lemma_number_order(zero(), x);
    lemma_number_order(zero(), zero());
}

/// One less and one more than a distance.
proof fn lemma_factors(d: Binary64, x: real)
    requires
        stands_for(d, x, 8),
        spans(x, 401),
    ensures
        (one() - d).is_finite(),
        (one() + d).is_finite(),
        size((one() - d).number() - (1real - x)) <= 10real * (precision() * (1real + x)),
        size((one() + d).number() - (1real + x)) <= 10real * (precision() * (1real + x)),
        x >= 0real,
        spans(1real + x, 402),
{
    let (u, g, n) = (precision(), 1real + x, d.number());
    lemma_precision();
    lemma_one();
    assert(spans(1real, 401)) by {
        lemma2_to64();
        reveal(spans);
        assert(spans(1real, 0));
        lemma_wider_span(1real, 0, 401);
    }
    lemma_span_of_sum(1real, x, 401);
    lemma_span_is_normal(x, 401);
    lemma_span_is_normal(g, 402);
    assert(d.is_finite() && size(n - x) <= 8real * (u * x)) by {
        reveal(stands_for);
    }
    lemma_scale(x, g, u);
    lemma_scale(u, 1real / 1_000_000real, g);
    let e = u * g;
    assert(size(n - x) <= 8real * e);
    law_sub_error(one(), d);
    law_add_error(one(), d);
    lemma_factor_bound((one() - d).number(), 1real - n, 1real - x, g);
    lemma_factor_bound((one() + d).number(), 1real + n, 1real + x, g);
}

proof fn lemma_factor_bound(r: real, y: real, x: real, g: real)
    requires
        size(x) <= g,
        size(y - x) <= 8real * (precision() * g),
        size(r - y) <= precision() * size(y),
    ensures
        size(r - x) <= 10real * (precision() * g),
{
    let u = precision();
    let e = u * g;
    lemma_precision();
    lemma_scale(u, 1real / 1_000_000real, g);
    lemma_scale(size(y), 3real / 2real * g, u);
    lemma_associate(3real / 2real, u, g);
    lemma_associate(u, 3real / 2real * g, 1real);
}

/// The exact distance of a grid re-entry from the position price, as a share of it: the spacing,
/// widened by the share of the limit that is taken, times the weight.
pub open spec fn grid_distance(exposure: Binary64, bp: BotParams) -> real {
    let taken = exposure.number() / bp.wallet_exposure_limit.number();
    bp.entry_grid_spacing_pct.number() * (1real + taken * bp.entry_grid_spacing_weight.number())
}

/// The computed distance stands for the exact one.
proof fn lemma_grid_distance(exposure: Binary64, bp: BotParams)
    requires
        modest(exposure),
        moderate(bp.wallet_exposure_limit),
        modest(bp.entry_grid_spacing_weight),
        modest(bp.entry_grid_spacing_pct),
    ensures
        stands_for(
            bp.entry_grid_spacing_pct * (one() + exposure / bp.wallet_exposure_limit
                * bp.entry_grid_spacing_weight),
            grid_distance(exposure, bp),
            8,
        ),
        spans(grid_distance(exposure, bp), 401),
{
    let (limit, weight) = (bp.wallet_exposure_limit, bp.entry_grid_spacing_weight);
    let spacing = bp.entry_grid_spacing_pct;
    let (l, w, s) = (limit.number(), weight.number(), spacing.number());
    let taken = exposure.number() / l;
    lemma_modest(exposure);
    lemma_modest(weight);
    lemma_modest(spacing);
    lemma_itself(limit);
    lemma_one();
    lemma_itself(one());
    assert(spans(1real, 300)) by {
        lemma2_to64();
        reveal(spans);
        assert(spans(1real, 0));
        lemma_wider_span(1real, 0, 300);
    }
    lemma_more_errors(one(), 1real, 0, 4, 300);
    lemma_div_stands(exposure, exposure.number(), 0, 100, limit, l, 0, 100);
    lemma_mul_stands(exposure / limit, taken, 2, 200, weight, w, 0, 100);
    let wide = one() + exposure / limit * weight;
    lemma_add_stands(one(), 1real, exposure / limit * weight, taken * w, 4, 300);
    lemma_mul_stands(spacing, s, 0, 100, wide, 1real + taken * w, 6, 301);
}

/// A grid re-entry is at the book, or at the price step next behind the exact distance away from
/// the position price, up to rounding; whichever is further away. There is no price only where
/// that is no more than a price step.
pub proof fn law_reentry_price_in_numbers(
    side: Side,
    position_price: Binary64,
    exposure: Binary64,
    book_price: Binary64,
    ex: ExchangeParams,
    bp: BotParams,
)
    requires
        moderate(position_price),
        modest(exposure),
        moderate(bp.wallet_exposure_limit),
        modest(bp.entry_grid_spacing_weight),
        modest(bp.entry_grid_spacing_pct),
        moderate(ex.price_step),
        !book_price.is_nan(),
    ensures
        ({
            let price = reentry_price(side, position_price, exposure, book_price, ex, bp);
            let (p, d) = (position_price.number(), grid_distance(exposure, bp));
            let step = ex.price_step.number();
            let exact = away(side, p, d);
            let error = price_error(step, p * (1real + d));
            &&& price != zero() ==> price == book_price || next_step(
                side,
                price.number(),
                exact,
                step,
                error,
            )
            &&& price != zero() ==> match side {
                Side::Long => price <= book_price && price.number() <= exact + error,
                Side::Short => price >= book_price && price.number() >= exact - error,
            }
            &&& price == zero() ==> match side {
                Side::Long => book_price <= ex.price_step || exact <= 2real * step + error,
                Side::Short => book_price <= ex.price_step && exact <= step + error,
            }
        }),
{
    let x = grid_distance(exposure, bp);
    let d = bp.entry_grid_spacing_pct * (one() + exposure / bp.wallet_exposure_limit
        * bp.entry_grid_spacing_weight);
    lemma_grid_distance(exposure, bp);
    lemma_factors(d, x);
    lemma_wider_span(1real + x, 402, 450);
    let step = ex.price_step;
    lemma_itself(step);
    match side {
        Side::Long => {
            lemma_price_behind(position_price, one() - d, 1real - x, 1real + x, step);
            let below = round_dn(position_price * (one() - d), step);
            lemma_number_order(below, book_price);
            lemma_number_order(book_price, below);
            lemma_number_order(below, step);
            lemma_chosen_price(side, below, book_price, ex, bp, position_price, exposure);
        },
        Side::Short => {
            lemma_price_behind(position_price, one() + d, 1real + x, 1real + x, step);
            let above = round_up(position_price * (one() + d), step);
            lemma_number_order(above, book_price);
            lemma_number_order(book_price, above);
            lemma_number_order(above, step);
            lemma_chosen_price(side, above, book_price, ex, bp, position_price, exposure);
        },
    }
}

/// Which of two prices a re-entry takes.
proof fn lemma_chosen_price(
    side: Side,
    target: Binary64,
    book_price: Binary64,
    ex: ExchangeParams,
    bp: BotParams,
    position_price: Binary64,
    exposure: Binary64,
)
    requires
        target == reentry_target(side, position_price, exposure, ex, bp),
        target.is_finite(),
        !book_price.is_nan(),
        !ex.price_step.is_nan(),
        ex.price_step > zero(),
    ensures
        ({
            let price = reentry_price(side, position_price, exposure, book_price, ex, bp);
            &&& price == zero() || price == target || price == book_price
            &&& price != zero() ==> match side {
                Side::Long => price <= target && price <= book_price,
                Side::Short => price >= target && price >= book_price,
            }
            &&& price == zero() ==> match side {
                Side::Long => target <= ex.price_step || book_price <= ex.price_step,
                Side::Short => target <= ex.price_step && book_price <= ex.price_step,
            }
        }),
{
}

/// The first entry is at the book, or at the price step next behind the exact distance away from
/// the band of moving averages, up to rounding; whichever is further away.
pub proof fn law_initial_price_in_numbers(
    side: Side,
    ex: ExchangeParams,
    st: StateParams,
    bp: BotParams,
)
    requires
        moderate(ex.price_step),
        modest(bp.entry_initial_ema_dist),
        match side {
            Side::Long => moderate(st.ema_bands.lower) && !st.order_book.bid.is_nan(),
            Side::Short => moderate(st.ema_bands.upper) && !st.order_book.ask.is_nan(),
        },
    ensures
        ({
            let price = initial_entry_price(side, ex, st, bp);
            let (band, book_price) = match side {
                Side::Long => (st.ema_bands.lower.number(), st.order_book.bid),
                Side::Short => (st.ema_bands.upper.number(), st.order_book.ask),
            };
            let dist = bp.entry_initial_ema_dist.number();
            let step = ex.price_step.number();
            let exact = away(side, band, dist);
            let error = price_error(step, band * (1real + dist));
            &&& price == book_price || next_step(side, price.number(), exact, step, error)
            &&& match side {
                Side::Long => price <= book_price && price.number() <= exact + error,
                Side::Short => price >= book_price && price.number() >= exact - error,
            }
        }),
{
    let d = bp.entry_initial_ema_dist;
    let x = d.number();
    lemma_modest(d);
    lemma_more_errors(d, x, 0, 8, 100);
    lemma_wider_span(x, 100, 401);
    lemma_factors(d, x);
    lemma_wider_span(1real + x, 402, 450);
    match side {
        Side::Long => {
            let base = st.ema_bands.lower;
            lemma_price_behind(base, one() - d, 1real - x, 1real + x, ex.price_step);
            let below = round_dn(base * (one() - d), ex.price_step);
            lemma_number_order(below, st.order_book.bid);
            lemma_number_order(st.order_book.bid, below);
        },
        Side::Short => {
            let base = st.ema_bands.upper;
            lemma_price_behind(base, one() + d, 1real + x, 1real + x, ex.price_step);
            let above = round_up(base * (one() + d), ex.price_step);
            lemma_number_order(above, st.order_book.ask);
            lemma_number_order(st.order_book.ask, above);
        },
    }
}

/// One, less or more a threshold, more or less a retracement.
proof fn lemma_trailing_factors(t: Binary64, r: Binary64)
    requires
        modest(t),
        modest(r),
    ensures
        ({
            let (x, y) = (t.number(), r.number());
            let g = 1real + x + y;
            &&& (one() - t + r).is_finite()
            &&& (one() + t - r).is_finite()
            &&& size((one() - t + r).number() - (1real - x + y)) <= 10real * (precision() * g)
            &&& size((one() + t - r).number() - (1real + x - y)) <= 10real * (precision() * g)
            &&& spans(g, 450)
            &&& x >= 0real && y >= 0real
        }),
{
    let (x, y, u) = (t.number(), r.number(), precision());
    let g = 1real + x + y;
    lemma_modest(t);
    lemma_modest(r);
    lemma_one();
    lemma_precision();
    assert(spans(1real, 100)) by {
        lemma2_to64();
        reveal(spans);
        assert(spans(1real, 0));
        lemma_wider_span(1real, 0, 100);
    }
    lemma_span_of_sum(1real, x, 100);
    lemma_wider_span(y, 100, 101);
    lemma_span_of_sum(1real + x, y, 101);
    lemma_wider_span(g, 102, 450);
    lemma_span_is_normal(g, 450);
    law_sub_error(one(), t);
    law_add_error(one(), t);
    lemma_scale(u, 1real / 1_000_000real, g);
    lemma_scale(size(1real - x), g, u);
    lemma_scale(size(1real + x), g, u);
    let (a, b) = (one() - t, one() + t);
    assert(size(a.number() - (1real - x)) <= u * g);
    law_add_error(a, r);
    law_sub_error(b, r);
    lemma_factor_bound((a + r).number(), a.number() + y, 1real - x + y, g);
    lemma_factor_bound((b - r).number(), b.number() - y, 1real + x - y, g);
}

/// With a threshold and a retracement, a trailing re-entry is at the book, or at the price step
/// next behind the exact difference of the two away from the position price, up to rounding;
/// whichever is further away.
pub proof fn law_trailing_price_in_numbers(
    side: Side,
    ex: ExchangeParams,
    st: StateParams,
    bp: BotParams,
    position: Position,
    trail: TrailingPriceBundle,
)
    requires
        moderate(position.price),
        moderate(ex.price_step),
        modest(bp.entry_trailing_threshold_pct),
        bp.entry_trailing_threshold_pct > zero(),
        modest(bp.entry_trailing_retracement_pct),
        !st.order_book.bid.is_nan(),
        !st.order_book.ask.is_nan(),
        trailing_price(side, ex, st, bp, position, trail) is Some,
    ensures
        ({
            let price = trailing_price(side, ex, st, bp, position, trail).unwrap();
            let book_price = match side {
                Side::Long => st.order_book.bid,
                Side::Short => st.order_book.ask,
            };
            let threshold = bp.entry_trailing_threshold_pct.number();
            let retracement = bp.entry_trailing_retracement_pct.number();
            let (p, step) = (position.price.number(), ex.price_step.number());
            let exact = away(side, p, threshold - retracement);
            let error = price_error(step, p * (1real + threshold + retracement));
            &&& price == book_price || next_step(side, price.number(), exact, step, error)
            &&& match side {
                Side::Long => price <= book_price && price.number() <= exact + error,
                Side::Short => price >= book_price && price.number() >= exact - error,
            }
        }),
{
    let (t, r) = (bp.entry_trailing_threshold_pct, bp.entry_trailing_retracement_pct);
    let (x, y) = (t.number(), r.number());
    let (base, step) = (position.price, ex.price_step);
    let g = 1real + x + y;
    lemma_trailing_factors(t, r);
    lemma_price_behind(base, one() - t + r, 1real - x + y, g, step);
    lemma_price_behind(base, one() + t - r, 1real + x - y, g, step);
    assert(1real - x + y == 1real - (x - y) && 1real + x - y == 1real + (x - y));
    if r <= zero() {
        lemma_number_order(r, zero());
        lemma_number_order(zero(), zero());
        assert(y == 0real);
        lemma_modest(t);
        lemma_more_errors(t, x, 0, 8, 100);
        lemma_wider_span(x, 100, 401);
        lemma_factors(t, x);
        lemma_wider_span(1real + x, 402, 450);
        lemma_price_behind(base, one() - t, 1real - x, 1real + x, step);
        lemma_price_behind(base, one() + t, 1real + x, 1real + x, step);
        lemma_trailing_choice(
            side,
            ex,
            st,
            bp,
            position,
            trail,
            round_dn(base * (one() - t), step),
            round_up(base * (one() + t), step),
        );
    } else {
        lemma_trailing_choice(
            side,
            ex,
            st,
            bp,
            position,
            trail,
            round_dn(base * (one() - t + r), step),
            round_up(base * (one() + t - r), step),
        );
    }
}

/// Which of two prices a trailing re-entry takes.
proof fn lemma_trailing_choice(
    side: Side,
    ex: ExchangeParams,
    st: StateParams,
    bp: BotParams,
    position: Position,
    trail: TrailingPriceBundle,
    below: Binary64,
    above: Binary64,
)
    requires
        !(bp.entry_trailing_threshold_pct <= zero()),
        trailing_price(side, ex, st, bp, position, trail) is Some,
        ({
            let (t, r) = (bp.entry_trailing_threshold_pct, bp.entry_trailing_retracement_pct);
            let (base, step) = (position.price, ex.price_step);
            if r <= zero() {
                below == round_dn(base * (one() - t), step) && above == round_up(
                    base * (one() + t),
                    step,
                )
            } else {
                below == round_dn(base * (one() - t + r), step) && above == round_up(
                    base * (one() + t - r),
                    step,
                )
            }
        }),
        below.is_finite(),
        above.is_finite(),
        !st.order_book.bid.is_nan(),
        !st.order_book.ask.is_nan(),
    ensures
        ({
            let price = trailing_price(side, ex, st, bp, position, trail).unwrap();
            match side {
                Side::Long => {
                    &&& price == st.order_book.bid || price == below
                    &&& price <= st.order_book.bid
                    &&& price.number() <= below.number()
                },
                Side::Short => {
                    &&& price == st.order_book.ask || price == above
                    &&& price >= st.order_book.ask
                    &&& price.number() >= above.number()
                },
            }
        }),
{
    let price = trailing_price(side, ex, st, bp, position, trail).unwrap();
    lemma_number_order(price, below);
    lemma_number_order(above, price);
}

/// By how much a quantity that is rounded to a step differs at most from the exact one.
pub open spec fn rounded_qty_error(step: real, exact: real) -> real {
    step / 2real + 2real * half_decimal() + tolerance() * (step + 3real * exact)
}

/// A quantity that stands for an exact one, rounded to a step.
proof fn lemma_rounded_qty(x: Binary64, exact: real, step: Binary64)
    requires
        stands_for(x, exact, 16),
        spans(exact, 500),
        moderate(step),
    ensures
        round_(x, step).is_finite(),
        size(round_(x, step).number() - exact) <= rounded_qty_error(step.number(), exact),
{
    lemma_stands_spans(x, exact, 16, 500);
    lemma_rounded_spans(x, step, 501);
    lemma_itself(step);
    law_round_error(x, step);
    lemma_precision();
    let (u, t, s, n) = (precision(), tolerance(), step.number(), x.number());
    assert(EVEN_SPAN as real == 9007199254740992real);
    assert(t == 16real * u);
    lemma_associate(16real, u, exact);
    assert(size(n - exact) <= t * exact) by {
        reveal(stands_for);
    }
    lemma_scale(t, 1real / 1000real, exact);
    lemma_scale(1real + size(n) + s, 1real + 2real * exact + s, t);
    lemma_distribute(1real + s, 2real * exact, t);
    lemma_distribute(1real, s, t);
    lemma_distribute(s, 3real * exact, t);
    lemma_associate(2real, t, exact);
    lemma_associate(3real, t, exact);
    lemma_associate(t, 2real * exact, 1real);
    lemma_associate(t, 3real * exact, 1real);
}

/// The quantity of the first entry costs its share of the limit, but for half a quantity step and
/// the last decimal, and up to rounding; or it is the smallest quantity, and that is more.
pub proof fn law_initial_qty_in_numbers(
    ex: ExchangeParams,
    bp: BotParams,
    balance: Binary64,
    price: Binary64,
)
    requires
        moderate(ex.c_mult),
        moderate(ex.qty_step),
        moderate(balance),
        moderate(price),
        moderate(bp.wallet_exposure_limit),
        modest(bp.entry_initial_qty_pct),
    ensures
        ({
            let qty = initial_entry_qty(ex, bp, balance, price);
            let share = balance.number() * bp.wallet_exposure_limit.number()
                * bp.entry_initial_qty_pct.number();
            let wanted = share / price.number() / ex.c_mult.number();
            let error = rounded_qty_error(ex.qty_step.number(), wanted);
            &&& qty.number() >= wanted - error
            &&& qty == min_entry_qty(price, ex) || qty.number() <= wanted + error
        }),
{
    let (b, l, p) = (balance.number(), bp.wallet_exposure_limit.number(), price.number());
    let (c, i) = (ex.c_mult.number(), bp.entry_initial_qty_pct.number());
    lemma_itself(balance);
    lemma_itself(bp.wallet_exposure_limit);
    lemma_itself(price);
    lemma_itself(ex.c_mult);
    lemma_modest(bp.entry_initial_qty_pct);
    let cost = balance * bp.wallet_exposure_limit * bp.entry_initial_qty_pct;
    lemma_mul_stands(balance, b, 0, 100, bp.wallet_exposure_limit, l, 0, 100);
    lemma_mul_stands(
        balance * bp.wallet_exposure_limit,
        b * l,
        2,
        200,
        bp.entry_initial_qty_pct,
        i,
        0,
        100,
    );
    lemma_div_stands(cost, b * l * i, 4, 300, price, p, 0, 100);
    lemma_div_stands(cost / price, b * l * i / p, 6, 400, ex.c_mult, c, 0, 100);
    let (x, wanted) = (cost / price / ex.c_mult, b * l * i / p / c);
    lemma_more_errors(x, wanted, 8, 16, 500);
    lemma_rounded_qty(x, wanted, ex.qty_step);
    let share = round_(x, ex.qty_step);
    let qty = initial_entry_qty(ex, bp, balance, price);
    lemma_larger(qty, min_entry_qty(price, ex), share);
}

/// The larger of two doubles, as numbers.
proof fn lemma_larger(x: Binary64, a: Binary64, b: Binary64)
    requires
        x == a.max(b),
        b.is_finite(),
    ensures
        x.number() >= b.number(),
        x == a || x == b,
        x == b || x.number() >= a.number(),
{
    lemma_number_order(b, x);
    lemma_number_order(a, x);
}

/// The larger one of two exact quantities.
pub open spec fn larger(x: real, y: real) -> real {
    if x >= y {
        x
    } else {
        y
    }
}

/// The quantity of a re-entry is the double down factor times the position, or what the share of
/// the first entry buys if that is more, but for half a quantity step and the last decimal, and up
/// to rounding; or it is the smallest quantity, and that is more.
pub proof fn law_reentry_qty_in_numbers(
    price: Binary64,
    balance: Binary64,
    position_size: Binary64,
    factor: Binary64,
    ex: ExchangeParams,
    bp: BotParams,
)
    requires
        moderate(ex.c_mult),
        moderate(ex.qty_step),
        moderate(balance),
        moderate(price),
        moderate(position_size.abs()),
        modest(factor),
        moderate(bp.wallet_exposure_limit),
        modest(bp.entry_initial_qty_pct),
    ensures
        ({
            let qty = reentry_qty(price, balance, position_size, factor, ex, bp);
            let wanted = larger(
                size(position_size.number()) * factor.number(),
                balance.number() / price.number() / ex.c_mult.number()
                    * bp.wallet_exposure_limit.number() * bp.entry_initial_qty_pct.number(),
            );
            let error = rounded_qty_error(ex.qty_step.number(), wanted);
            &&& qty.number() >= wanted - error
            &&& qty == min_entry_qty(price, ex) || qty.number() <= wanted + error
        }),
{
    let (b, l, p) = (balance.number(), bp.wallet_exposure_limit.number(), price.number());
    let (c, i) = (ex.c_mult.number(), bp.entry_initial_qty_pct.number());
    let (s, f) = (position_size.abs(), factor.number());
    lemma_itself(balance);
    lemma_itself(bp.wallet_exposure_limit);
    lemma_itself(price);
    lemma_itself(ex.c_mult);
    lemma_itself(s);
    lemma_number_signs(position_size);
    lemma_modest(factor);
    lemma_modest(bp.entry_initial_qty_pct);
    lemma_mul_stands(s, s.number(), 0, 100, factor, f, 0, 100);
    lemma_div_stands(balance, b, 0, 100, price, p, 0, 100);
    lemma_div_stands(balance / price, b / p, 2, 200, ex.c_mult, c, 0, 100);
    let bought = balance / price / ex.c_mult;
    lemma_mul_stands(bought, b / p / c, 4, 300, bp.wallet_exposure_limit, l, 0, 100);
    lemma_mul_stands(
        bought * bp.wallet_exposure_limit,
        b / p / c * l,
        6,
        400,
        bp.entry_initial_qty_pct,
        i,
        0,
        100,
    );
    let (doubled, first) = (s * factor, bought * bp.wallet_exposure_limit
        * bp.entry_initial_qty_pct);
    let (x, y) = (s.number() * f, b / p / c * l * i);
    lemma_more_errors(doubled, x, 2, 8, 200);
    lemma_wider_span(x, 200, 500);
    lemma_larger_stands(doubled, x, first, y);
    let wanted = larger(x, y);
    lemma_more_errors(doubled.max(first), wanted, 8, 16, 500);
    lemma_rounded_qty(doubled.max(first), wanted, ex.qty_step);
    let rounded = round_(doubled.max(first), ex.qty_step);
    lemma_larger(
        reentry_qty(price, balance, position_size, factor, ex, bp),
        min_entry_qty(price, ex),
        rounded,
    );
}

/// The larger of two doubles stands for the larger of what they stand for.
proof fn lemma_larger_stands(a: Binary64, x: real, b: Binary64, y: real)
    requires
        stands_for(a, x, 8),
        stands_for(b, y, 8),
        spans(x, 500),
        spans(y, 500),
    ensures
        stands_for(a.max(b), larger(x, y), 8),
        spans(larger(x, y), 500),
{
    reveal(stands_for);
    lemma_precision();
    lemma_span_is_normal(x, 500);
    lemma_span_is_normal(y, 500);
    lemma_number_order(a, b);
    let u = precision();
    lemma_scale(x, larger(x, y), u);
    lemma_scale(y, larger(x, y), u);
    lemma_larger_near(a.number(), x, b.number(), y, u * x, u * y);
}

proof fn lemma_larger_near(a: real, x: real, b: real, y: real, e: real, f: real)
    requires
        size(a - x) <= 8real * e,
        size(b - y) <= 8real * f,
        x <= y ==> e <= f,
        y <= x ==> f <= e,
    ensures
        a >= b ==> size(a - larger(x, y)) <= 8real * larger(e, f),
        a <= b ==> size(b - larger(x, y)) <= 8real * larger(e, f),
{
}

/// The smallest quantity is that of the exchange, or no more than one step above what the smallest
/// cost buys, up to rounding; and no less than that.
pub proof fn law_minimum_in_numbers(price: Binary64, ex: ExchangeParams)
    requires
        moderate(price),
        moderate(ex.c_mult),
        moderate(ex.qty_step),
        modest(ex.min_cost),
    ensures
        ({
            let least = min_entry_qty(price, ex);
            let bought = ex.min_cost.number() / price.number() / ex.c_mult.number();
            let step = ex.qty_step.number();
            let error = price_error(step, bought);
            &&& least.number() >= bought - error
            &&& least == ex.min_qty || least.number() <= bought + step + error
        }),
{
    let (m, p, c) = (ex.min_cost.number(), price.number(), ex.c_mult.number());
    let step = ex.qty_step;
    lemma_modest(ex.min_cost);
    lemma_itself(price);
    lemma_itself(ex.c_mult);
    lemma_itself(step);
    lemma_div_stands(ex.min_cost, m, 0, 100, price, p, 0, 100);
    lemma_div_stands(ex.min_cost / price, m / p, 2, 200, ex.c_mult, c, 0, 100);
    let (n, bought) = (ex.min_cost / price / ex.c_mult, m / p / c);
    lemma_within_few_errors(n, bought, 4, 300);
    let (s, t) = (step.number(), tolerance());
    assert(spans(2real * bought, 301)) by {
        lemma_span_of_sum(bought, bought, 300);
    }
    lemma_wider_span(2real * bought, 301, 560);
    lemma_steps_are_finite(n, step, 2real * bought);
    law_round_up_bounds(n, step);
    lemma_scale(1real + size(n.number()) + s, 1real + 2real * bought + s, t);
    lemma_distribute(1real + 2real * bought + s, bought, t);
    lemma_associate(t, bought, 1real);
    lemma_larger(min_entry_qty(price, ex), ex.min_qty, round_up(n, step));
}

/// Few errors are within the tolerance.
proof fn lemma_within_few_errors(r: Binary64, x: real, k: nat, i: nat)
    requires
        stands_for(r, x, k),
        spans(x, i),
        k <= 16,
        i <= 900,
    ensures
        r.is_finite(),
        x >= 0real,
        size(r.number() - x) <= tolerance() * x,
        size(r.number()) <= 2real * x,
{
    lemma_more_errors(r, x, k, 16, i);
    lemma_stands_spans(r, x, 16, i);
    reveal(stands_for);
    lemma_precision();
    assert(EVEN_SPAN as real == 9007199254740992real);
    assert(tolerance() == 16real * precision());
    lemma_associate(16real, precision(), x);
    lemma_scale(tolerance(), 1real / 1000real, x);
}

/// The exposure of a position is its exact cost in relation to the balance, up to rounding.
pub proof fn law_exposure_in_numbers(
    c_mult: Binary64,
    balance: Binary64,
    held: Binary64,
    price: Binary64,
)
    requires
        moderate(c_mult),
        moderate(balance),
        modest(held),
        moderate(price),
    ensures
        ({
            let exposure = calc_wallet_exposure(c_mult, balance, held, price);
            let exact = held.number() * price.number() * c_mult.number() / balance.number();
            exposure.is_finite() && size(exposure.number() - exact) <= tolerance() * exact
        }),
{
    lemma_modest(held);
    lemma_itself(price);
    lemma_exposure_stands(c_mult, balance, held, 100, price, price.number(), 0, 100);
    let exact = held.number() * price.number() * c_mult.number() / balance.number();
    lemma_within_few_errors(calc_wallet_exposure(c_mult, balance, held, price), exact, 6, 400);
}

/// A fill adds up the sizes, but for half a quantity step and the last decimal, and the costs, up
/// to rounding.
pub proof fn law_fill_in_numbers(
    held: Binary64,
    average: Binary64,
    qty: Binary64,
    price: Binary64,
    step: Binary64,
)
    requires
        moderate(held),
        moderate(average),
        moderate(qty),
        moderate(price),
        moderate(step),
    ensures
        ({
            let (size_after, average_after) = calc_new_psize_pprice(
                held,
                average,
                qty,
                price,
                step,
            );
            let sum = held.number() + qty.number();
            let cost = held.number() * average.number() + qty.number() * price.number();
            &&& size_after.is_finite()
            &&& average_after.is_finite()
            &&& size(size_after.number() - sum) <= rounded_qty_error(step.number(), sum)
            &&& size_after.number() != 0real ==> size(
                size_after.number() * average_after.number() - cost,
            ) <= tolerance() * cost
        }),
{
    let (h, q) = (held.number(), qty.number());
    lemma_itself(held);
    lemma_itself(qty);
    lemma_itself(zero());
    lemma_number_order(zero(), zero());
    lemma_add_stands(held, h, qty, q, 0, 100);
    lemma_more_errors(held + qty, h + q, 2, 16, 101);
    lemma_stands_spans(held + qty, h + q, 16, 101);
    lemma_rounded_spans(held + qty, step, 102);
    let z = round_(held + qty, step);
    lemma_wider_span(z.number(), 104, 106);
    lemma_wider_span(h, 100, 102);
    lemma_wider_span(q, 100, 102);
    lemma_wider_span(h + q, 101, 500);
    lemma_rounded_qty(held + qty, h + q, step);
    lemma_itself(z);
    if !z.equals(zero()) {
        let exact = lemma_average_stands(average, held, price, qty, z);
        let after = average * (held / z) + price * (qty / z);
        lemma_within_few_errors(after, exact, 6, 309);
        let (w, t) = (z.number(), tolerance());
        lemma_scale_bound(after.number() - exact, t * exact, w);
        lemma_distribute(after.number(), exact, w);
        lemma_associate(t, exact, w);
        lemma_associate(exact, w, 1real);
    }
}

/// Whether settings are the same but for the exposure limit, which is near an exact one.
pub open spec fn limited_near(settings: BotParams, bp: BotParams, limit: real) -> bool {
    &&& settings == (BotParams {
        wallet_exposure_limit: settings.wallet_exposure_limit,
        ..bp
    })
    &&& settings.wallet_exposure_limit.is_finite()
    &&& size(settings.wallet_exposure_limit.number() - limit) <= tolerance() * limit
}

/// Where the exposure is below a share of the limit, or not, and what that share and one percent
/// more come to.
proof fn lemma_share_of_limit(exposure: Binary64, limit: Binary64, f: Binary64, x: real)
    requires
        modest(exposure),
        moderate(limit),
        stands_for(f, x, 1),
        spans(x, 100),
        x > 0real,
    ensures
        ({
            let (e, share) = (exposure.number(), limit.number() * x);
            let more = limit * f * fraction(101, 100);
            &&& e <= share - tolerance() * share ==> exposure / limit < f
            &&& e >= share + tolerance() * share ==> !(exposure / limit < f)
            &&& more.is_finite()
            &&& size(more.number() - share * (101real / 100real)) <= tolerance() * (share * (
            101real / 100real))
        }),
{
    let (e, l) = (exposure.number(), limit.number());
    let share = l * x;
    let slack = 101real / 100real;
    lemma_modest(exposure);
    lemma_itself(limit);
    lemma2_to64();
    assert(spans(slack, 1)) by {
        reveal(spans);
    }
    lemma_fraction_stands(101, 100, slack);
    lemma_mul_stands(limit, l, 0, 100, f, x, 1, 100);
    lemma_mul_stands(limit * f, share, 3, 200, fraction(101, 100), slack, 1, 1);
    lemma_within_few_errors(limit * f * fraction(101, 100), share * slack, 6, 201);
    lemma_div_stands(exposure, e, 0, 100, limit, l, 0, 100);
    let (q, taken) = (exposure / limit, e / l);
    lemma_quotient_times(e, l);
    lemma_compare_shares(q, taken, f, x, l, e);
}

proof fn lemma_once(x: real)
    ensures
        1real * x == x,
{
    assert(1real * x == x) by (nonlinear_arith);
}

proof fn lemma_compare_shares(
    q: Binary64,
    taken: real,
    f: Binary64,
    x: real,
    l: real,
    e: real,
)
    requires
        stands_for(q, taken, 2),
        spans(taken, 200),
        stands_for(f, x, 1),
        x > 0real,
        l > 0real,
        taken * l == e,
    ensures
        e <= l * x - tolerance() * (l * x) ==> q < f,
        e >= l * x + tolerance() * (l * x) ==> !(q < f),
{
    reveal(stands_for);
    lemma_precision();
    lemma_span_is_normal(taken, 200);
    let (u, t) = (precision(), tolerance());
    assert(EVEN_SPAN as real == 9007199254740992real);
    assert(t == 16real * u);
    let ux = u * x;
    lemma_associate(u, x, 9007199254740992real);
    lemma_associate(u, taken, 9007199254740992real);
    lemma_once(ux);
    assert(size(f.number() - x) <= ux);
    lemma_associate(16real, u, x);
    lemma_associate(t, l, x);
    lemma_associate(l, x, 1real);
    lemma_distribute(x, t * x, l);
    lemma_associate(l, t * x, 1real);
    lemma_associate(t, x, l);
    if e <= l * x - t * (l * x) {
        lemma_cancel(taken, x - t * x, l);
        lemma_scale(taken, x, u);
        lemma_order_by_gap(q.number(), taken, f.number(), x, u * taken, ux);
    }
    if e >= l * x + t * (l * x) {
        lemma_cancel(x + t * x, taken, l);
        lemma_scale(u, 1real / 1_000_000real, taken);
        lemma_scale(u, 1real / 1_000_000real, x);
        lemma_scale(x, taken, u);
        lemma_other_order_by_gap(q.number(), taken, f.number(), x, u * taken, ux);
    }
    lemma_number_order(q, f);
}

proof fn lemma_order_by_gap(q: real, taken: real, f: real, x: real, a: real, b: real)
    requires
        size(q - taken) <= 2real * a,
        size(f - x) <= b,
        a <= b,
        b > 0real,
        taken <= x - 16real * b,
    ensures
        q < f,
{
}

proof fn lemma_other_order_by_gap(q: real, taken: real, f: real, x: real, a: real, b: real)
    requires
        size(q - taken) <= 2real * a,
        size(f - x) <= b,
        b >= 0real,
        taken >= x + 16real * b,
        1_000_000real * a <= taken,
        a * 9007199254740992real == taken,
        b * 9007199254740992real == x,
    ensures
        q >= f,
{
}

/// With a ratio between zero and one, the next entry trails as long as the exposure is below that
/// share of the limit, under that share and one percent more, and is of the grid once the exposure
/// has reached the share; all in exact numbers, up to rounding.
pub proof fn law_trailing_share_in_numbers(
    side: Side,
    ex: ExchangeParams,
    st: StateParams,
    bp: BotParams,
    position: Position,
    trail: TrailingPriceBundle,
    divergence: Option<DivergenceBundle>,
)
    requires
        has_budget(st, bp),
        moderate(bp.wallet_exposure_limit),
        moderate(bp.entry_trailing_grid_ratio),
        bp.entry_trailing_grid_ratio < one(),
        modest(
            calc_wallet_exposure(
                ex.c_mult,
                st.balance,
                side.spec_held(position),
                position.price,
            ),
        ),
    ensures
        ({
            let next = next_entry(side, ex, st, bp, position, trail, divergence);
            let exposure = calc_wallet_exposure(
                ex.c_mult,
                st.balance,
                side.spec_held(position),
                position.price,
            ).number();
            let share = bp.wallet_exposure_limit.number() * bp.entry_trailing_grid_ratio.number();
            &&& 0real < exposure <= share - tolerance() * share ==> exists|settings: BotParams|
                next == #[trigger] trailing_or_divergence(
                    side,
                    ex,
                    st,
                    settings,
                    position,
                    trail,
                    divergence,
                ) && limited_near(settings, bp, share * (101real / 100real))
            &&& exposure >= share + tolerance() * share ==> next == grid_entry(
                side,
                ex,
                st,
                bp,
                position,
            )
        }),
{
    let (limit, ratio) = (bp.wallet_exposure_limit, bp.entry_trailing_grid_ratio);
    let held = side.spec_held(position);
    let exposure = calc_wallet_exposure(ex.c_mult, st.balance, held, position.price);
    let settings = BotParams {
        wallet_exposure_limit: limit * ratio * fraction(101, 100),
        ..bp
    };
    lemma_itself(ratio);
    lemma_modest(exposure);
    lemma_itself(exposure);
    lemma_more_errors(ratio, ratio.number(), 0, 1, 100);
    lemma_share_of_limit(exposure, limit, ratio, ratio.number());
    law_trailing_comes_first(side, ex, st, bp, position, trail, divergence);
    let share = limit.number() * ratio.number();
    assert(limited_near(settings, bp, share * (101real / 100real)));
}

/// With a ratio between minus one and zero, the next entry is of the grid as long as the exposure
/// is below what the ratio leaves of the limit, under that and one percent more, and trails once
/// the exposure has reached it; all in exact numbers, up to rounding.
pub proof fn law_grid_share_in_numbers(
    side: Side,
    ex: ExchangeParams,
    st: StateParams,
    bp: BotParams,
    position: Position,
    trail: TrailingPriceBundle,
    divergence: Option<DivergenceBundle>,
)
    requires
        has_budget(st, bp),
        moderate(bp.wallet_exposure_limit),
        one().negated() < bp.entry_trailing_grid_ratio,
        bp.entry_trailing_grid_ratio < zero(),
        bp.entry_trailing_grid_ratio.is_finite(),
        1real + bp.entry_trailing_grid_ratio.number() > 0real,
        spans(1real + bp.entry_trailing_grid_ratio.number(), 100),
        modest(
            calc_wallet_exposure(
                ex.c_mult,
                st.balance,
                side.spec_held(position),
                position.price,
            ),
        ),
    ensures
        ({
            let next = next_entry(side, ex, st, bp, position, trail, divergence);
            let exposure = calc_wallet_exposure(
                ex.c_mult,
                st.balance,
                side.spec_held(position),
                position.price,
            ).number();
            let share = bp.wallet_exposure_limit.number() * (1real
                + bp.entry_trailing_grid_ratio.number());
            &&& 0real < exposure <= share - tolerance() * share ==> exists|settings: BotParams|
                next == #[trigger] grid_entry(side, ex, st, settings, position) && limited_near(
                    settings,
                    bp,
                    share * (101real / 100real),
                )
            &&& exposure >= share + tolerance() * share ==> next == trailing_or_divergence(
                side,
                ex,
                st,
                bp,
                position,
                trail,
                divergence,
            )
        }),
{
    let (limit, ratio) = (bp.wallet_exposure_limit, bp.entry_trailing_grid_ratio);
    let held = side.spec_held(position);
    let exposure = calc_wallet_exposure(ex.c_mult, st.balance, held, position.price);
    let f = one() + ratio;
    let x = 1real + ratio.number();
    let settings = BotParams { wallet_exposure_limit: limit * f * fraction(101, 100), ..bp };
    lemma_modest(exposure);
    lemma_itself(exposure);
    lemma_one();
    lemma_span_is_normal(x, 100);
    law_add_error(one(), ratio);
    assert(stands_for(f, x, 1)) by {
        reveal(stands_for);
    }
    lemma_share_of_limit(exposure, limit, f, x);
    law_grid_comes_first(side, ex, st, bp, position, trail, divergence);
    let share = limit.number() * x;
    assert(limited_near(settings, bp, share * (101real / 100real)));
}

} // verus!
