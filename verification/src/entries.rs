//! The orders that open and enlarge positions.
use crate::binary64::Binary64;
use crate::constants::dust_share;
use crate::constants::full_share;
use crate::constants::initial_share;
use crate::constants::limit_slack;
use crate::constants::one;
use crate::constants::zero;
use crate::rules::cropped_qty;
use crate::rules::divergence_entry;
use crate::rules::ends;
use crate::rules::exposure_if_filled;
use crate::rules::exposure_of;
use crate::rules::full_reentry_qty;
use crate::rules::grid_entry;
use crate::rules::grid_reentry;
use crate::rules::initial_entry;
use crate::rules::initial_entry_price;
use crate::rules::initial_entry_qty;
use crate::rules::leaves_dust;
use crate::rules::min_entry_qty;
use crate::rules::next_entry;
use crate::rules::no_budget;
use crate::rules::plan;
use crate::rules::qty_to_limit;
use crate::rules::reentry_price;
use crate::rules::reentry_qty;
use crate::rules::retraced;
use crate::rules::threshold_reached;
use crate::rules::trailing_entry;
use crate::rules::trailing_price;
use crate::rules::trailing_reentry;
use crate::rules::lemma_follows_push;
use crate::rules::Market;
use crate::rules::Plan;
use crate::rules::MAX_ENTRIES;
use crate::side::Kind;
use crate::side::Side;
use crate::types::BotParams;
use crate::types::DivergenceBundle;
use crate::types::ExchangeParams;
use crate::types::Order;
use crate::types::OrderType;
use crate::types::Position;
use crate::types::StateParams;
use crate::types::TrailingPriceBundle;
use crate::utils::calc_ema_price_ask;
use crate::utils::calc_ema_price_bid;
use crate::utils::calc_new_psize_pprice;
use crate::utils::calc_wallet_exposure;
use crate::utils::calc_wallet_exposure_if_filled;
use crate::utils::cost_to_qty;
use crate::utils::interpolate;
use crate::utils::round_;
use crate::utils::round_dn;
use crate::utils::round_up;
use vstd::prelude::*;

verus! {

/// The quantity of the first entry into a position.
pub fn calc_initial_entry_qty(
    exchange_params: &ExchangeParams,
    bot_params: &BotParams,
    balance: Binary64,
    entry_price: Binary64,
) -> (r: Binary64)
    ensures
        r == initial_entry_qty(*exchange_params, *bot_params, balance, entry_price),
{
    calc_min_entry_qty(entry_price, exchange_params).max(
        round_(
            cost_to_qty(
                balance * bot_params.wallet_exposure_limit * bot_params.entry_initial_qty_pct,
                entry_price,
                exchange_params.c_mult,
            ),
            exchange_params.qty_step,
        ),
    )
}

/// The smallest quantity that the exchange takes at a price.
pub fn calc_min_entry_qty(entry_price: Binary64, exchange_params: &ExchangeParams) -> (r: Binary64)
    ensures
        r == min_entry_qty(entry_price, *exchange_params),
{
    exchange_params.min_qty.max(
        round_up(
            cost_to_qty(exchange_params.min_cost, entry_price, exchange_params.c_mult),
            exchange_params.qty_step,
        ),
    )
}

fn calc_qty_to_limit(
    bot_params: &BotParams,
    position_size: Binary64,
    entry_qty: Binary64,
    wallet_exposure: Binary64,
    wallet_exposure_if_filled: Binary64,
) -> (r: Binary64)
    ensures
        r == qty_to_limit(
            *bot_params,
            position_size,
            entry_qty,
            wallet_exposure,
            wallet_exposure_if_filled,
        ),
{
    let exposures = [wallet_exposure, wallet_exposure_if_filled];
    let sizes = [position_size, position_size + entry_qty];
    proof {
        assert(exposures@ =~= seq![wallet_exposure, wallet_exposure_if_filled]);
        assert(sizes@ =~= seq![position_size, position_size + entry_qty]);
    }
    interpolate(bot_params.wallet_exposure_limit, &exposures, &sizes) - position_size
}

/// The wallet exposure after a re-entry, and the quantity that the exposure limit leaves of it.
pub fn calc_cropped_reentry_qty(
    exchange_params: &ExchangeParams,
    bot_params: &BotParams,
    position: &Position,
    wallet_exposure: Binary64,
    balance: Binary64,
    entry_qty: Binary64,
    entry_price: Binary64,
) -> (r: (Binary64, Binary64))
    ensures
        r.0 == exposure_if_filled(*exchange_params, *position, balance, entry_qty, entry_price),
        r.1 == cropped_qty(
            *exchange_params,
            *bot_params,
            *position,
            wallet_exposure,
            balance,
            entry_qty,
            entry_price,
        ),
{
    let position_size_abs = position.size.abs();
    let entry_qty_abs = entry_qty.abs();
    let wallet_exposure_if_filled = calc_wallet_exposure_if_filled(
        balance,
        position_size_abs,
        position.price,
        entry_qty_abs,
        entry_price,
        exchange_params,
    );
    let min_entry_qty = calc_min_entry_qty(entry_price, exchange_params);
    if wallet_exposure_if_filled.gt(bot_params.wallet_exposure_limit * limit_slack()) {
        let left = calc_qty_to_limit(
            bot_params,
            position_size_abs,
            entry_qty_abs,
            wallet_exposure,
            wallet_exposure_if_filled,
        );
        (wallet_exposure_if_filled, round_(left, exchange_params.qty_step).max(min_entry_qty))
    } else {
        (wallet_exposure_if_filled, entry_qty_abs.max(min_entry_qty))
    }
}

/// The quantity of a re-entry into a position.
pub fn calc_reentry_qty(
    entry_price: Binary64,
    balance: Binary64,
    position_size: Binary64,
    double_down_factor: Binary64,
    exchange_params: &ExchangeParams,
    bot_params: &BotParams,
) -> (r: Binary64)
    ensures
        r == reentry_qty(
            entry_price,
            balance,
            position_size,
            double_down_factor,
            *exchange_params,
            *bot_params,
        ),
{
    calc_min_entry_qty(entry_price, exchange_params).max(
        round_(
            (position_size.abs() * double_down_factor).max(
                cost_to_qty(balance, entry_price, exchange_params.c_mult)
                    * bot_params.wallet_exposure_limit * bot_params.entry_initial_qty_pct,
            ),
            exchange_params.qty_step,
        ),
    )
}

fn calc_reentry_price_bid(
    position_price: Binary64,
    wallet_exposure: Binary64,
    order_book_bid: Binary64,
    exchange_params: &ExchangeParams,
    bot_params: &BotParams,
) -> (r: Binary64)
    ensures
        r == reentry_price(
            Side::Long,
            position_price,
            wallet_exposure,
            order_book_bid,
            *exchange_params,
            *bot_params,
        ),
{
    let multiplier = (wallet_exposure / bot_params.wallet_exposure_limit)
        * bot_params.entry_grid_spacing_weight;
    let reentry_price = round_dn(
        position_price * (one() - bot_params.entry_grid_spacing_pct * (one() + multiplier)),
        exchange_params.price_step,
    ).min(order_book_bid);
    if reentry_price.le(exchange_params.price_step) {
        zero()
    } else {
        reentry_price
    }
}

fn calc_reentry_price_ask(
    position_price: Binary64,
    wallet_exposure: Binary64,
    order_book_ask: Binary64,
    exchange_params: &ExchangeParams,
    bot_params: &BotParams,
) -> (r: Binary64)
    ensures
        r == reentry_price(
            Side::Short,
            position_price,
            wallet_exposure,
            order_book_ask,
            *exchange_params,
            *bot_params,
        ),
{
    let multiplier = (wallet_exposure / bot_params.wallet_exposure_limit)
        * bot_params.entry_grid_spacing_weight;
    let reentry_price = round_up(
        position_price * (one() + bot_params.entry_grid_spacing_pct * (one() + multiplier)),
        exchange_params.price_step,
    ).max(order_book_ask);
    if reentry_price.le(exchange_params.price_step) {
        zero()
    } else {
        reentry_price
    }
}

fn calc_reentry_price(
    side: Side,
    position_price: Binary64,
    wallet_exposure: Binary64,
    state_params: &StateParams,
    exchange_params: &ExchangeParams,
    bot_params: &BotParams,
) -> (r: Binary64)
    ensures
        r == reentry_price(
            side,
            position_price,
            wallet_exposure,
            side.spec_book_price(*state_params),
            *exchange_params,
            *bot_params,
        ),
{
    match side {
        Side::Long => calc_reentry_price_bid(
            position_price,
            wallet_exposure,
            state_params.order_book.bid,
            exchange_params,
            bot_params,
        ),
        Side::Short => calc_reentry_price_ask(
            position_price,
            wallet_exposure,
            state_params.order_book.ask,
            exchange_params,
            bot_params,
        ),
    }
}

fn calc_initial_entry_price(
    side: Side,
    exchange_params: &ExchangeParams,
    state_params: &StateParams,
    bot_params: &BotParams,
) -> (r: Binary64)
    ensures
        r == initial_entry_price(side, *exchange_params, *state_params, *bot_params),
{
    match side {
        Side::Long => calc_ema_price_bid(
            exchange_params.price_step,
            state_params.order_book.bid,
            state_params.ema_bands.lower,
            bot_params.entry_initial_ema_dist,
        ),
        Side::Short => calc_ema_price_ask(
            exchange_params.price_step,
            state_params.order_book.ask,
            state_params.ema_bands.upper,
            bot_params.entry_initial_ema_dist,
        ),
    }
}

/// The entry into a position that is not yet opened; `None` once it is.
fn calc_initial_entry(
    side: Side,
    exchange_params: &ExchangeParams,
    state_params: &StateParams,
    bot_params: &BotParams,
    position: &Position,
) -> (r: Option<Order>)
    ensures
        r == initial_entry(side, *exchange_params, *state_params, *bot_params, *position),
{
    let price = calc_initial_entry_price(side, exchange_params, state_params, bot_params);
    if price.le(exchange_params.price_step) {
        return Some(Order::default());
    }
    let qty = calc_initial_entry_qty(exchange_params, bot_params, state_params.balance, price);
    let held = side.held(position);
    if held.equals(zero()) {
        Some(side.order(Kind::InitialNormal, qty, price))
    } else if held.lt(qty * initial_share()) {
        let missing = calc_min_entry_qty(price, exchange_params).max(
            round_dn(qty - held, exchange_params.qty_step),
        );
        Some(side.order(Kind::InitialPartial, missing, price))
    } else {
        None
    }
}

/// The wallet exposure of the position.
fn calc_exposure(
    side: Side,
    exchange_params: &ExchangeParams,
    state_params: &StateParams,
    position: &Position,
) -> (r: Binary64)
    ensures
        r == exposure_of(side, *exchange_params, *state_params, *position),
{
    calc_wallet_exposure(
        exchange_params.c_mult,
        state_params.balance,
        side.held(position),
        position.price,
    )
}

/// The quantity of a re-entry before cropping, no less than that of the first entry.
fn calc_full_reentry_qty(
    side: Side,
    exchange_params: &ExchangeParams,
    state_params: &StateParams,
    bot_params: &BotParams,
    price: Binary64,
    held: Binary64,
    double_down_factor: Binary64,
) -> (r: Binary64)
    ensures
        r == full_reentry_qty(
            side,
            *exchange_params,
            *state_params,
            *bot_params,
            price,
            held,
            double_down_factor,
        ),
{
    let initial_price = calc_initial_entry_price(side, exchange_params, state_params, bot_params);
    calc_reentry_qty(
        price,
        state_params.balance,
        held,
        double_down_factor,
        exchange_params,
        bot_params,
    ).max(calc_initial_entry_qty(exchange_params, bot_params, state_params.balance, initial_price))
}

/// Previews the entry after a grid re-entry and tells whether it would be too small.
fn previews_dust(
    side: Side,
    exchange_params: &ExchangeParams,
    state_params: &StateParams,
    bot_params: &BotParams,
    position: &Position,
    qty: Binary64,
    price: Binary64,
    wallet_exposure_if_filled: Binary64,
) -> (r: bool)
    requires
        wallet_exposure_if_filled == exposure_if_filled(
            *exchange_params,
            *position,
            state_params.balance,
            qty,
            price,
        ),
    ensures
        r == leaves_dust(
            side,
            *exchange_params,
            *state_params,
            *bot_params,
            *position,
            qty,
            price,
        ),
{
    proof {
        reveal(leaves_dust);
    }
    let factor = bot_params.entry_grid_double_down_factor;
    let (psize_if_filled, pprice_if_filled) = calc_new_psize_pprice(
        side.held(position),
        position.price,
        qty,
        price,
        exchange_params.qty_step,
    );
    let next_price = calc_reentry_price(
        side,
        pprice_if_filled,
        wallet_exposure_if_filled,
        state_params,
        exchange_params,
        bot_params,
    );
    let next_qty = calc_full_reentry_qty(
        side,
        exchange_params,
        state_params,
        bot_params,
        next_price,
        psize_if_filled,
        factor,
    );
    let (_, next_qty_cropped) = calc_cropped_reentry_qty(
        exchange_params,
        bot_params,
        &Position { size: psize_if_filled, price: pprice_if_filled },
        wallet_exposure_if_filled,
        state_params.balance,
        next_qty,
        next_price,
    );
    (next_qty_cropped / psize_if_filled).lt(factor * dust_share())
}

/// The grid re-entry into an opened position.
fn calc_grid_reentry(
    side: Side,
    exchange_params: &ExchangeParams,
    state_params: &StateParams,
    bot_params: &BotParams,
    position: &Position,
) -> (r: Order)
    ensures
        r == grid_reentry(side, *exchange_params, *state_params, *bot_params, *position),
{
    let held = side.held(position);
    let wallet_exposure = calc_exposure(side, exchange_params, state_params, position);
    if wallet_exposure.ge(bot_params.wallet_exposure_limit * full_share()) {
        return Order::default();
    }
    let price = calc_reentry_price(
        side,
        position.price,
        wallet_exposure,
        state_params,
        exchange_params,
        bot_params,
    );
    if price.le(zero()) {
        return Order::default();
    }
    let qty = calc_full_reentry_qty(
        side,
        exchange_params,
        state_params,
        bot_params,
        price,
        held,
        bot_params.entry_grid_double_down_factor,
    );
    let (wallet_exposure_if_filled, qty_cropped) = calc_cropped_reentry_qty(
        exchange_params,
        bot_params,
        position,
        wallet_exposure,
        state_params.balance,
        qty,
        price,
    );
    if qty_cropped.lt(qty) {
        return side.order(Kind::GridCropped, qty_cropped, price);
    }
    if previews_dust(
        side,
        exchange_params,
        state_params,
        bot_params,
        position,
        qty,
        price,
        wallet_exposure_if_filled,
    ) {
        let qty_inflated = calc_qty_to_limit(
            bot_params,
            held,
            qty,
            wallet_exposure,
            wallet_exposure_if_filled,
        );
        side.order(Kind::GridInflated, round_(qty_inflated, exchange_params.qty_step), price)
    } else {
        side.order(Kind::GridNormal, qty, price)
    }
}

/// Whether there is nothing to trade with.
fn has_no_budget(state_params: &StateParams, bot_params: &BotParams) -> (r: bool)
    ensures
        r == no_budget(*state_params, *bot_params),
{
    bot_params.wallet_exposure_limit.equals(zero()) || state_params.balance.le(zero())
}

fn calc_grid_entry(
    side: Side,
    exchange_params: &ExchangeParams,
    state_params: &StateParams,
    bot_params: &BotParams,
    position: &Position,
) -> (r: Order)
    ensures
        r == grid_entry(side, *exchange_params, *state_params, *bot_params, *position),
{
    if has_no_budget(state_params, bot_params) {
        return Order::default();
    }
    match calc_initial_entry(side, exchange_params, state_params, bot_params, position) {
        Some(order) => order,
        None => calc_grid_reentry(side, exchange_params, state_params, bot_params, position),
    }
}

/// The next buy of the grid: the first entry, then re-entries below the position price.
pub fn calc_grid_entry_long(
    exchange_params: &ExchangeParams,
    state_params: &StateParams,
    bot_params: &BotParams,
    position: &Position,
) -> (r: Order)
    ensures
        r == grid_entry(Side::Long, *exchange_params, *state_params, *bot_params, *position),
{
    calc_grid_entry(Side::Long, exchange_params, state_params, bot_params, position)
}

/// The next sale of the grid: the first entry, then re-entries above the position price.
pub fn calc_grid_entry_short(
    exchange_params: &ExchangeParams,
    state_params: &StateParams,
    bot_params: &BotParams,
    position: &Position,
) -> (r: Order)
    ensures
        r == grid_entry(Side::Short, *exchange_params, *state_params, *bot_params, *position),
{
    calc_grid_entry(Side::Short, exchange_params, state_params, bot_params, position)
}

/// Whether the price has moved past the threshold against the position.
fn has_reached_threshold(
    side: Side,
    bot_params: &BotParams,
    position: &Position,
    trailing_price_bundle: &TrailingPriceBundle,
) -> (r: bool)
    ensures
        r == threshold_reached(side, *bot_params, *position, *trailing_price_bundle),
{
    let threshold = bot_params.entry_trailing_threshold_pct;
    match side {
        Side::Long => trailing_price_bundle.min_since_open.lt(
            position.price * (one() - threshold),
        ),
        Side::Short => trailing_price_bundle.max_since_open.gt(
            position.price * (one() + threshold),
        ),
    }
}

/// Whether the price has come back from its extreme by the retracement.
fn has_retraced(
    side: Side,
    bot_params: &BotParams,
    trailing_price_bundle: &TrailingPriceBundle,
) -> (r: bool)
    ensures
        r == retraced(side, *bot_params, *trailing_price_bundle),
{
    let retracement = bot_params.entry_trailing_retracement_pct;
    match side {
        Side::Long => trailing_price_bundle.max_since_min.gt(
            trailing_price_bundle.min_since_open * (one() + retracement),
        ),
        Side::Short => trailing_price_bundle.min_since_max.lt(
            trailing_price_bundle.max_since_open * (one() - retracement),
        ),
    }
}

/// The price of a trailing re-entry that is triggered.
fn calc_trailing_price(
    side: Side,
    exchange_params: &ExchangeParams,
    state_params: &StateParams,
    bot_params: &BotParams,
    position: &Position,
    trailing_price_bundle: &TrailingPriceBundle,
) -> (r: Option<Binary64>)
    ensures
        r == trailing_price(
            side,
            *exchange_params,
            *state_params,
            *bot_params,
            *position,
            *trailing_price_bundle,
        ),
{
    let threshold = bot_params.entry_trailing_threshold_pct;
    let retracement = bot_params.entry_trailing_retracement_pct;
    let price_step = exchange_params.price_step;
    if threshold.le(zero()) {
        // trailing entry immediately from position change
        if retracement.gt(zero()) && has_retraced(side, bot_params, trailing_price_bundle) {
            Some(side.book_price(state_params))
        } else {
            None
        }
    } else if retracement.le(zero()) {
        // entry at the threshold
        match side {
            Side::Long => Some(
                state_params.order_book.bid.min(
                    round_dn(position.price * (one() - threshold), price_step),
                ),
            ),
            Side::Short => Some(
                state_params.order_book.ask.max(
                    round_up(position.price * (one() + threshold), price_step),
                ),
            ),
        }
    } else if has_reached_threshold(side, bot_params, position, trailing_price_bundle)
        && has_retraced(side, bot_params, trailing_price_bundle) {
        match side {
            Side::Long => Some(
                state_params.order_book.bid.min(
                    round_dn(position.price * (one() - threshold + retracement), price_step),
                ),
            ),
            Side::Short => Some(
                state_params.order_book.ask.max(
                    round_up(position.price * (one() + threshold - retracement), price_step),
                ),
            ),
        }
    } else {
        None
    }
}

/// The trailing re-entry into an opened position.
fn calc_trailing_reentry(
    side: Side,
    exchange_params: &ExchangeParams,
    state_params: &StateParams,
    bot_params: &BotParams,
    position: &Position,
    trailing_price_bundle: &TrailingPriceBundle,
) -> (r: Order)
    ensures
        r == trailing_reentry(
            side,
            *exchange_params,
            *state_params,
            *bot_params,
            *position,
            *trailing_price_bundle,
        ),
{
    let wallet_exposure = calc_exposure(side, exchange_params, state_params, position);
    if wallet_exposure.gt(bot_params.wallet_exposure_limit * full_share()) {
        return Order::default();
    }
    let price = match calc_trailing_price(
        side,
        exchange_params,
        state_params,
        bot_params,
        position,
        trailing_price_bundle,
    ) {
        Some(price) => price,
        None => {
            return Order {
                qty: zero(),
                price: zero(),
                order_type: side.order_type(Kind::TrailingNormal),
            };
        },
    };
    let qty = calc_full_reentry_qty(
        side,
        exchange_params,
        state_params,
        bot_params,
        price,
        side.held(position),
        bot_params.entry_trailing_double_down_factor,
    );
    let (_, qty_cropped) = calc_cropped_reentry_qty(
        exchange_params,
        bot_params,
        position,
        wallet_exposure,
        state_params.balance,
        qty,
        price,
    );
    if qty_cropped.lt(qty) {
        side.order(Kind::TrailingCropped, qty_cropped, price)
    } else {
        side.order(Kind::TrailingNormal, qty, price)
    }
}

fn calc_trailing_entry(
    side: Side,
    exchange_params: &ExchangeParams,
    state_params: &StateParams,
    bot_params: &BotParams,
    position: &Position,
    trailing_price_bundle: &TrailingPriceBundle,
) -> (r: Order)
    ensures
        r == trailing_entry(
            side,
            *exchange_params,
            *state_params,
            *bot_params,
            *position,
            *trailing_price_bundle,
        ),
{
    match calc_initial_entry(side, exchange_params, state_params, bot_params, position) {
        Some(order) => order,
        None => calc_trailing_reentry(
            side,
            exchange_params,
            state_params,
            bot_params,
            position,
            trailing_price_bundle,
        ),
    }
}

/// The next buy of the trailing rules: the first entry, then re-entries once triggered.
pub fn calc_trailing_entry_long(
    exchange_params: &ExchangeParams,
    state_params: &StateParams,
    bot_params: &BotParams,
    position: &Position,
    trailing_price_bundle: &TrailingPriceBundle,
) -> (r: Order)
    ensures
        r == trailing_entry(
            Side::Long,
            *exchange_params,
            *state_params,
            *bot_params,
            *position,
            *trailing_price_bundle,
        ),
{
    calc_trailing_entry(
        Side::Long,
        exchange_params,
        state_params,
        bot_params,
        position,
        trailing_price_bundle,
    )
}

/// The next sale of the trailing rules: the first entry, then re-entries once triggered.
pub fn calc_trailing_entry_short(
    exchange_params: &ExchangeParams,
    state_params: &StateParams,
    bot_params: &BotParams,
    position: &Position,
    trailing_price_bundle: &TrailingPriceBundle,
) -> (r: Order)
    ensures
        r == trailing_entry(
            Side::Short,
            *exchange_params,
            *state_params,
            *bot_params,
            *position,
            *trailing_price_bundle,
        ),
{
    calc_trailing_entry(
        Side::Short,
        exchange_params,
        state_params,
        bot_params,
        position,
        trailing_price_bundle,
    )
}

/// The smallest buy at the bid, where the price made a lower low while the RSI rose.
pub fn calc_divergence_entry_long(
    exchange_params: &ExchangeParams,
    state_params: &StateParams,
    bot_params: &BotParams,
    position: &Position,
    divergence_bundle: &DivergenceBundle,
) -> (r: Order)
    ensures
        r == divergence_entry(*exchange_params, *state_params, *bot_params, *divergence_bundle),
{
    if !bot_params.enable_divergence_entry {
        return Order::default();
    }
    if divergence_bundle.curr_low.lt(divergence_bundle.prev_low) && divergence_bundle.curr_rsi.gt(
        divergence_bundle.prev_rsi + bot_params.divergence_rsi_tolerance,
    ) {
        let entry_price = state_params.order_book.bid;
        return Order {
            qty: calc_min_entry_qty(entry_price, exchange_params),
            price: entry_price,
            order_type: OrderType::EntryDivergenceLong,
        };
    }
    Order::default()
}

/// Chooses between the grid and the trailing rules.
fn calc_plan(
    side: Side,
    exchange_params: &ExchangeParams,
    state_params: &StateParams,
    bot_params: &BotParams,
    position: &Position,
) -> (r: Plan)
    ensures
        r == plan(side, *exchange_params, *state_params, *bot_params, *position),
{
    let limit = bot_params.wallet_exposure_limit;
    let ratio = bot_params.entry_trailing_grid_ratio;
    if has_no_budget(state_params, bot_params) {
        return Plan::Nothing;
    }
    if ratio.ge(one()) || ratio.le(one().negated()) {
        return Plan::Trailing(limit);
    }
    if ratio.equals(zero()) {
        return Plan::Grid(limit);
    }
    let wallet_exposure = calc_exposure(side, exchange_params, state_params, position);
    let wallet_exposure_ratio = wallet_exposure / limit;
    if ratio.gt(zero()) {
        // trailing first
        if wallet_exposure_ratio.lt(ratio) {
            if wallet_exposure.equals(zero()) {
                Plan::Trailing(limit)
            } else {
                Plan::Trailing(limit * ratio * limit_slack())
            }
        } else {
            Plan::Grid(limit)
        }
    } else {
        // grid first
        if wallet_exposure_ratio.lt(one() + ratio) {
            if wallet_exposure.equals(zero()) {
                Plan::Grid(limit)
            } else {
                Plan::Grid(limit * (one() + ratio) * limit_slack())
            }
        } else {
            Plan::Trailing(limit)
        }
    }
}

fn calc_next_entry(
    side: Side,
    exchange_params: &ExchangeParams,
    state_params: &StateParams,
    bot_params: &BotParams,
    position: &Position,
    trailing_price_bundle: &TrailingPriceBundle,
    divergence_bundle: Option<DivergenceBundle>,
) -> (r: Order)
    ensures
        r == next_entry(
            side,
            *exchange_params,
            *state_params,
            *bot_params,
            *position,
            *trailing_price_bundle,
            divergence_bundle,
        ),
{
    let (trailing, limit): (bool, Binary64) = match calc_plan(
        side,
        exchange_params,
        state_params,
        bot_params,
        position,
    ) {
        Plan::Nothing => {
            return Order::default();
        },
        Plan::Grid(limit) => (false, limit),
        Plan::Trailing(limit) => (true, limit),
    };
    let bot_params_modified = BotParams { wallet_exposure_limit: limit, ..*bot_params };
    if !trailing {
        return calc_grid_entry(side, exchange_params, state_params, &bot_params_modified, position);
    }
    if bot_params.enable_divergence_entry {
        if let Some(bundle) = divergence_bundle {
            return calc_divergence_entry_long(
                exchange_params,
                state_params,
                &bot_params_modified,
                position,
                &bundle,
            );
        }
    }
    calc_trailing_entry(
        side,
        exchange_params,
        state_params,
        &bot_params_modified,
        position,
        trailing_price_bundle,
    )
}

/// The next buy: a grid, trailing or divergence entry, whichever is due.
pub fn calc_next_entry_long(
    exchange_params: &ExchangeParams,
    state_params: &StateParams,
    bot_params: &BotParams,
    position: &Position,
    trailing_price_bundle: &TrailingPriceBundle,
    divergence_bundle: &DivergenceBundle,
) -> (r: Order)
    ensures
        r == next_entry(
            Side::Long,
            *exchange_params,
            *state_params,
            *bot_params,
            *position,
            *trailing_price_bundle,
            Some(*divergence_bundle),
        ),
{
    calc_next_entry(
        Side::Long,
        exchange_params,
        state_params,
        bot_params,
        position,
        trailing_price_bundle,
        Some(*divergence_bundle),
    )
}

/// The next sale: a grid or trailing entry, whichever is due.
pub fn calc_next_entry_short(
    exchange_params: &ExchangeParams,
    state_params: &StateParams,
    bot_params: &BotParams,
    position: &Position,
    trailing_price_bundle: &TrailingPriceBundle,
) -> (r: Order)
    ensures
        r == next_entry(
            Side::Short,
            *exchange_params,
            *state_params,
            *bot_params,
            *position,
            *trailing_price_bundle,
            None,
        ),
{
    calc_next_entry(
        Side::Short,
        exchange_params,
        state_params,
        bot_params,
        position,
        trailing_price_bundle,
        None,
    )
}

/// The next entry on a side of the market.
fn calc_next(side: Side, market: &Market) -> (r: Order)
    ensures
        r == market.next(side),
{
    proof {
        reveal(Market::next);
    }
    calc_next_entry(
        side,
        &market.exchange_params,
        &market.state_params,
        &market.bot_params,
        &market.position,
        &market.trail,
        market.divergence,
    )
}

/// The market once an entry has been filled.
fn fill(side: Side, market: &Market, order: &Order) -> (r: Market)
    ensures
        r == market.step(side, *order),
{
    let mut r: Market = *market;
    let (psize, pprice) = calc_new_psize_pprice(
        market.position.size,
        market.position.price,
        order.qty,
        order.price,
        market.exchange_params.qty_step,
    );
    r.position = Position { size: psize, price: pprice };
    match side {
        Side::Long => {
            r.state_params.order_book.bid = market.state_params.order_book.bid.min(order.price);
        },
        Side::Short => {
            r.state_params.order_book.ask = market.state_params.order_book.ask.max(order.price);
        },
    }
    r
}

/// Whether an order ends the entries planned so far.
fn ends_entries(side: Side, entries: &Vec<Order>, order: &Order) -> (r: bool)
    ensures
        r == ends(side, entries@, *order),
{
    if order.qty.equals(zero()) {
        return true;
    }
    if entries.len() == 0 {
        return false;
    }
    order.order_type == side.order_type(Kind::TrailingNormal) || order.order_type
        == side.order_type(Kind::TrailingCropped) || entries[entries.len() - 1].price.equals(
        order.price,
    )
}

/// Plans the entries ahead by filling each next one until one ends them.
fn plan_entries(side: Side, market: Market) -> (r: Vec<Order>)
    ensures
        market.plans(side, r@),
{
    let mut entries: Vec<Order> = Vec::new();
    let mut ahead: Market = market;
    while entries.len() < MAX_ENTRIES
        invariant
            entries@.len() <= MAX_ENTRIES,
            ahead == market.after(side, entries@),
            market.follows(side, entries@),
        decreases MAX_ENTRIES - entries@.len(),
    {
        let entry = calc_next(side, &ahead);
        if ends_entries(side, &entries, &entry) {
            return entries;
        }
        ahead = fill(side, &ahead, &entry);
        let ghost planned = entries@;
        entries.push(entry);
        proof {
            lemma_follows_push(market, side, planned, entry);
        }
    }
    entries
}

/// The buys to be planned ahead: each is the next entry after those before it have been filled.
pub fn calc_entries_long(
    exchange_params: &ExchangeParams,
    state_params: &StateParams,
    bot_params: &BotParams,
    position: &Position,
    trailing_price_bundle: &TrailingPriceBundle,
    divergence_bundle: &DivergenceBundle,
) -> (r: Vec<Order>)
    ensures
        (Market {
            exchange_params: *exchange_params,
            state_params: *state_params,
            bot_params: *bot_params,
            position: *position,
            trail: *trailing_price_bundle,
            divergence: Some(*divergence_bundle),
        }).plans(Side::Long, r@),
{
    plan_entries(
        Side::Long,
        Market {
            exchange_params: *exchange_params,
            state_params: *state_params,
            bot_params: *bot_params,
            position: *position,
            trail: *trailing_price_bundle,
            divergence: Some(*divergence_bundle),
        },
    )
}

/// The sales to be planned ahead: each is the next entry after those before it have been filled.
pub fn calc_entries_short(
    exchange_params: &ExchangeParams,
    state_params: &StateParams,
    bot_params: &BotParams,
    position: &Position,
    trailing_price_bundle: &TrailingPriceBundle,
) -> (r: Vec<Order>)
    ensures
        (Market {
            exchange_params: *exchange_params,
            state_params: *state_params,
            bot_params: *bot_params,
            position: *position,
            trail: *trailing_price_bundle,
            divergence: None,
        }).plans(Side::Short, r@),
{
    plan_entries(
        Side::Short,
        Market {
            exchange_params: *exchange_params,
            state_params: *state_params,
            bot_params: *bot_params,
            position: *position,
            trail: *trailing_price_bundle,
            divergence: None,
        },
    )
}

} // verus!
