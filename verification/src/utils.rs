//! Formulas on prices, quantities and exposures.
use crate::binary64::Binary64;
use crate::constants::decimal_scale;
use crate::constants::one;
use crate::constants::zero;
use crate::types::ExchangeParams;
use vstd::prelude::*;

verus! {

/// A multiple of a step, freed of the error that its computation left past the last decimal.
pub open spec fn to_decimals(x: Binary64) -> Binary64 {
    (x * decimal_scale()).round() / decimal_scale()
}

fn round_to_decimals(x: Binary64) -> (r: Binary64)
    ensures
        r == to_decimals(x),
{
    (x * decimal_scale()).round() / decimal_scale()
}

pub open spec fn spec_round(n: Binary64, step: Binary64) -> Binary64 {
    to_decimals((n / step).round() * step)
}

/// The multiple of `step` nearest to `n`.
#[verifier::when_used_as_spec(spec_round)]
pub fn round_(n: Binary64, step: Binary64) -> (r: Binary64)
    ensures
        r == spec_round(n, step),
{
    round_to_decimals((n / step).round() * step)
}

pub open spec fn spec_round_dn(n: Binary64, step: Binary64) -> Binary64 {
    to_decimals((n / step).floor() * step)
}

/// The next multiple of `step` at or below `n`.
#[verifier::when_used_as_spec(spec_round_dn)]
pub fn round_dn(n: Binary64, step: Binary64) -> (r: Binary64)
    ensures
        r == spec_round_dn(n, step),
{
    round_to_decimals((n / step).floor() * step)
}

pub open spec fn spec_round_up(n: Binary64, step: Binary64) -> Binary64 {
    to_decimals((n / step).ceil() * step)
}

/// The next multiple of `step` at or above `n`.
#[verifier::when_used_as_spec(spec_round_up)]
pub fn round_up(n: Binary64, step: Binary64) -> (r: Binary64)
    ensures
        r == spec_round_up(n, step),
{
    round_to_decimals((n / step).ceil() * step)
}

pub open spec fn spec_cost_to_qty(cost: Binary64, price: Binary64, c_mult: Binary64) -> Binary64 {
    if price > zero() {
        cost / price / c_mult
    } else {
        zero()
    }
}

/// The number of contracts that `cost` buys at `price`; none where there is no price.
#[verifier::when_used_as_spec(spec_cost_to_qty)]
pub fn cost_to_qty(cost: Binary64, price: Binary64, c_mult: Binary64) -> (r: Binary64)
    ensures
        r == spec_cost_to_qty(cost, price, c_mult),
{
    if price.gt(zero()) {
        cost / price / c_mult
    } else {
        zero()
    }
}

pub open spec fn spec_qty_to_cost(qty: Binary64, price: Binary64, c_mult: Binary64) -> Binary64 {
    qty.abs() * price * c_mult
}

/// What `qty` contracts cost at `price`.
#[verifier::when_used_as_spec(spec_qty_to_cost)]
pub fn qty_to_cost(qty: Binary64, price: Binary64, c_mult: Binary64) -> (r: Binary64)
    ensures
        r == spec_qty_to_cost(qty, price, c_mult),
{
    qty.abs() * price * c_mult
}

pub open spec fn spec_calc_wallet_exposure(
    c_mult: Binary64,
    balance: Binary64,
    position_size: Binary64,
    position_price: Binary64,
) -> Binary64 {
    if balance <= zero() || position_size.equals(zero()) {
        zero()
    } else {
        qty_to_cost(position_size, position_price, c_mult) / balance
    }
}

/// The ratio of the cost of a position to the balance.
#[verifier::when_used_as_spec(spec_calc_wallet_exposure)]
pub fn calc_wallet_exposure(
    c_mult: Binary64,
    balance: Binary64,
    position_size: Binary64,
    position_price: Binary64,
) -> (r: Binary64)
    ensures
        r == spec_calc_wallet_exposure(c_mult, balance, position_size, position_price),
{
    if balance.le(zero()) || position_size.equals(zero()) {
        zero()
    } else {
        qty_to_cost(position_size, position_price, c_mult) / balance
    }
}

pub open spec fn spec_calc_new_psize_pprice(
    psize: Binary64,
    pprice: Binary64,
    qty: Binary64,
    price: Binary64,
    qty_step: Binary64,
) -> (Binary64, Binary64) {
    let new_psize = round_(psize + qty, qty_step);
    let old_price = if pprice.is_nan() {
        zero()
    } else {
        pprice
    };
    if qty.equals(zero()) {
        (psize, pprice)
    } else if new_psize.equals(zero()) {
        (zero(), zero())
    } else {
        (new_psize, old_price * (psize / new_psize) + price * (qty / new_psize))
    }
}

/// The size and the average price of a position after an order has been filled.
#[verifier::when_used_as_spec(spec_calc_new_psize_pprice)]
pub fn calc_new_psize_pprice(
    psize: Binary64,
    pprice: Binary64,
    qty: Binary64,
    price: Binary64,
    qty_step: Binary64,
) -> (r: (Binary64, Binary64))
    ensures
        r == spec_calc_new_psize_pprice(psize, pprice, qty, price, qty_step),
{
    if qty.equals(zero()) {
        return (psize, pprice);
    }
    let new_psize = round_(psize + qty, qty_step);
    if new_psize.equals(zero()) {
        return (zero(), zero());
    }
    let old_price = if pprice.is_nan() {
        zero()
    } else {
        pprice
    };
    (new_psize, old_price * (psize / new_psize) + price * (qty / new_psize))
}

pub open spec fn spec_calc_wallet_exposure_if_filled(
    balance: Binary64,
    psize: Binary64,
    pprice: Binary64,
    qty: Binary64,
    price: Binary64,
    exchange_params: ExchangeParams,
) -> Binary64 {
    let (new_psize, new_pprice) = calc_new_psize_pprice(
        round_(psize.abs(), exchange_params.qty_step),
        pprice,
        round_(qty.abs(), exchange_params.qty_step),
        price,
        exchange_params.qty_step,
    );
    calc_wallet_exposure(exchange_params.c_mult, balance, new_psize, new_pprice)
}

/// The wallet exposure after an order that enlarges the position has been filled.
pub fn calc_wallet_exposure_if_filled(
    balance: Binary64,
    psize: Binary64,
    pprice: Binary64,
    qty: Binary64,
    price: Binary64,
    exchange_params: &ExchangeParams,
) -> (r: Binary64)
    ensures
        r == spec_calc_wallet_exposure_if_filled(
            balance,
            psize,
            pprice,
            qty,
            price,
            *exchange_params,
        ),
{
    let (new_psize, new_pprice) = calc_new_psize_pprice(
        round_(psize.abs(), exchange_params.qty_step),
        pprice,
        round_(qty.abs(), exchange_params.qty_step),
        price,
        exchange_params.qty_step,
    );
    calc_wallet_exposure(exchange_params.c_mult, balance, new_psize, new_pprice)
}

/// The first `n` factors of the Lagrange basis polynomial of node `j` at `x`, multiplied up.
pub open spec fn basis(x: Binary64, xs: Seq<Binary64>, j: int, n: nat) -> Binary64
    decreases n,
{
    if n == 0 {
        one()
    } else {
        let m = n - 1;
        let before = basis(x, xs, j, m as nat);
        if m == j {
            before
        } else {
            before * ((x - xs[m]) / (xs[j] - xs[m]))
        }
    }
}

/// The first `n` terms of the Lagrange polynomial through the points at `x`, added up.
pub open spec fn polynomial(x: Binary64, xs: Seq<Binary64>, ys: Seq<Binary64>, n: nat) -> Binary64
    decreases n,
{
    if n == 0 {
        zero()
    } else {
        polynomial(x, xs, ys, (n - 1) as nat) + basis(x, xs, n - 1, xs.len()) * ys[n - 1]
    }
}

/// The value at `x` of the polynomial that runs through the given points.
pub fn interpolate(x: Binary64, xs: &[Binary64], ys: &[Binary64]) -> (r: Binary64)
    requires
        xs@.len() == ys@.len(),
    ensures
        r == polynomial(x, xs@, ys@, xs@.len()),
{
    let mut total: Binary64 = zero();
    let mut j: usize = 0;
    while j < xs.len()
        invariant
            j <= xs@.len() == ys@.len(),
            total == polynomial(x, xs@, ys@, j as nat),
        decreases xs@.len() - j,
    {
        let mut product: Binary64 = one();
        let mut m: usize = 0;
        while m < xs.len()
            invariant
                j < xs@.len(),
                m <= xs@.len(),
                product == basis(x, xs@, j as int, m as nat),
            decreases xs@.len() - m,
        {
            if m != j {
                product = product * ((x - xs[m]) / (xs[j] - xs[m]));
            }
            m = m + 1;
        }
        total = total + product * ys[j];
        j = j + 1;
    }
    total
}

pub open spec fn spec_calc_ema_price_bid(
    price_step: Binary64,
    order_book_bid: Binary64,
    ema_bands_lower: Binary64,
    ema_dist: Binary64,
) -> Binary64 {
    order_book_bid.min(round_dn(ema_bands_lower * (one() - ema_dist), price_step))
}

/// The price to buy at: `ema_dist` below the band, and never above the best bid.
#[verifier::when_used_as_spec(spec_calc_ema_price_bid)]
pub fn calc_ema_price_bid(
    price_step: Binary64,
    order_book_bid: Binary64,
    ema_bands_lower: Binary64,
    ema_dist: Binary64,
) -> (r: Binary64)
    ensures
        r == spec_calc_ema_price_bid(price_step, order_book_bid, ema_bands_lower, ema_dist),
{
    order_book_bid.min(round_dn(ema_bands_lower * (one() - ema_dist), price_step))
}

pub open spec fn spec_calc_ema_price_ask(
    price_step: Binary64,
    order_book_ask: Binary64,
    ema_bands_upper: Binary64,
    ema_dist: Binary64,
) -> Binary64 {
    order_book_ask.max(round_up(ema_bands_upper * (one() + ema_dist), price_step))
}

/// The price to sell at: `ema_dist` above the band, and never below the best ask.
#[verifier::when_used_as_spec(spec_calc_ema_price_ask)]
pub fn calc_ema_price_ask(
    price_step: Binary64,
    order_book_ask: Binary64,
    ema_bands_upper: Binary64,
    ema_dist: Binary64,
) -> (r: Binary64)
    ensures
        r == spec_calc_ema_price_ask(price_step, order_book_ask, ema_bands_upper, ema_dist),
{
    order_book_ask.max(round_up(ema_bands_upper * (one() + ema_dist), price_step))
}

} // verus!
