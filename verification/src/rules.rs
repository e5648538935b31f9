//! Which entry order is due, as functions of the parameters.
//!
//! The rules of the two sides mirror each other, so they are stated once for a [`Side`].
use crate::binary64::Binary64;
use crate::constants::dust_share;
use crate::constants::full_share;
use crate::constants::initial_share;
use crate::constants::limit_slack;
use crate::constants::one;
use crate::constants::zero;
use crate::side::Kind;
use crate::side::Side;
use crate::types::BotParams;
use crate::types::DivergenceBundle;
use crate::types::ExchangeParams;
use crate::types::Order;
use crate::types::OrderBook;
use crate::types::OrderType;
use crate::types::Position;
use crate::types::StateParams;
use crate::types::TrailingPriceBundle;
use crate::utils::calc_ema_price_ask;
use crate::utils::calc_ema_price_bid;
use crate::utils::calc_new_psize_pprice;
use crate::utils::calc_wallet_exposure;
use crate::utils::cost_to_qty;
use crate::utils::polynomial;
use crate::utils::round_;
use crate::utils::round_dn;
use crate::utils::round_up;
use crate::utils::spec_calc_wallet_exposure_if_filled;
use vstd::prelude::*;

verus! {

/// The smallest quantity that the exchange takes at a price.
pub open spec fn min_entry_qty(entry_price: Binary64, ex: ExchangeParams) -> Binary64 {
    ex.min_qty.max(round_up(cost_to_qty(ex.min_cost, entry_price, ex.c_mult), ex.qty_step))
}

/// The quantity of the first entry: its share of the exposure limit, if the exchange takes it.
pub open spec fn initial_entry_qty(
    ex: ExchangeParams,
    bp: BotParams,
    balance: Binary64,
    entry_price: Binary64,
) -> Binary64 {
    let cost = balance * bp.wallet_exposure_limit * bp.entry_initial_qty_pct;
    min_entry_qty(entry_price, ex).max(
        round_(cost_to_qty(cost, entry_price, ex.c_mult), ex.qty_step),
    )
}

/// The quantity of a re-entry: a multiple of the position, no less than the first entry's share.
pub open spec fn reentry_qty(
    entry_price: Binary64,
    balance: Binary64,
    position_size: Binary64,
    double_down_factor: Binary64,
    ex: ExchangeParams,
    bp: BotParams,
) -> Binary64 {
    let doubled = position_size.abs() * double_down_factor;
    let initial = cost_to_qty(balance, entry_price, ex.c_mult) * bp.wallet_exposure_limit
        * bp.entry_initial_qty_pct;
    min_entry_qty(entry_price, ex).max(round_(doubled.max(initial), ex.qty_step))
}

/// The change of position size at which a straight line through two exposures, before and after
/// an entry, meets the exposure limit.
pub open spec fn qty_to_limit(
    bp: BotParams,
    position_size: Binary64,
    entry_qty: Binary64,
    exposure: Binary64,
    exposure_if_filled: Binary64,
) -> Binary64 {
    polynomial(
        bp.wallet_exposure_limit,
        seq![exposure, exposure_if_filled],
        seq![position_size, position_size + entry_qty],
        2,
    ) - position_size
}

/// The wallet exposure after an entry.
pub open spec fn exposure_if_filled(
    ex: ExchangeParams,
    position: Position,
    balance: Binary64,
    entry_qty: Binary64,
    entry_price: Binary64,
) -> Binary64 {
    spec_calc_wallet_exposure_if_filled(
        balance,
        position.size.abs(),
        position.price,
        entry_qty.abs(),
        entry_price,
        ex,
    )
}

/// The quantity that is left of an entry: what reaches the exposure limit, if the whole entry
/// would exceed it by more than the slack, and no less than the exchange takes.
pub open spec fn cropped_qty(
    ex: ExchangeParams,
    bp: BotParams,
    position: Position,
    exposure: Binary64,
    balance: Binary64,
    entry_qty: Binary64,
    entry_price: Binary64,
) -> Binary64 {
    let filled = exposure_if_filled(ex, position, balance, entry_qty, entry_price);
    let least = min_entry_qty(entry_price, ex);
    if filled > bp.wallet_exposure_limit * limit_slack() {
        let size = position.size.abs();
        round_(qty_to_limit(bp, size, entry_qty.abs(), exposure, filled), ex.qty_step).max(least)
    } else {
        entry_qty.abs().max(least)
    }
}

/// By how much the distance of the next grid re-entry is widened at an exposure.
pub open spec fn widening(exposure: Binary64, bp: BotParams) -> Binary64 {
    one() + exposure / bp.wallet_exposure_limit * bp.entry_grid_spacing_weight
}

/// Where the grid would place a re-entry whatever the book: a distance away from the position
/// price that widens with the exposure.
pub open spec fn reentry_target(
    side: Side,
    position_price: Binary64,
    exposure: Binary64,
    ex: ExchangeParams,
    bp: BotParams,
) -> Binary64 {
    let distance = bp.entry_grid_spacing_pct * widening(exposure, bp);
    match side {
        Side::Long => round_dn(position_price * (one() - distance), ex.price_step),
        Side::Short => round_up(position_price * (one() + distance), ex.price_step),
    }
}

/// The price of a grid re-entry: its target, and never past the book. Zero, which stands for
/// none, if that is no price.
pub open spec fn reentry_price(
    side: Side,
    position_price: Binary64,
    exposure: Binary64,
    book_price: Binary64,
    ex: ExchangeParams,
    bp: BotParams,
) -> Binary64 {
    let target = reentry_target(side, position_price, exposure, ex, bp);
    let price = match side {
        Side::Long => target.min(book_price),
        Side::Short => target.max(book_price),
    };
    if price <= ex.price_step {
        zero()
    } else {
        price
    }
}

/// Whether there is nothing to trade with.
pub open spec fn no_budget(st: StateParams, bp: BotParams) -> bool {
    bp.wallet_exposure_limit.equals(zero()) || st.balance <= zero()
}

/// The price of the first entry.
pub open spec fn initial_entry_price(
    side: Side,
    ex: ExchangeParams,
    st: StateParams,
    bp: BotParams,
) -> Binary64 {
    match side {
        Side::Long => calc_ema_price_bid(
            ex.price_step,
            st.order_book.bid,
            st.ema_bands.lower,
            bp.entry_initial_ema_dist,
        ),
        Side::Short => calc_ema_price_ask(
            ex.price_step,
            st.order_book.ask,
            st.ema_bands.upper,
            bp.entry_initial_ema_dist,
        ),
    }
}

/// The entry that is due as long as the position is not yet opened: none without a price, the
/// first entry from flat, and what is missing to it in a position that is too small.
/// `None` once the position has been opened.
pub open spec fn initial_entry(
    side: Side,
    ex: ExchangeParams,
    st: StateParams,
    bp: BotParams,
    position: Position,
) -> Option<Order> {
    let price = initial_entry_price(side, ex, st, bp);
    let qty = initial_entry_qty(ex, bp, st.balance, price);
    let held = side.spec_held(position);
    if price <= ex.price_step {
        Some(Order::none())
    } else if held.equals(zero()) {
        Some(side.order(Kind::InitialNormal, qty, price))
    } else if held < qty * initial_share() {
        let missing = min_entry_qty(price, ex).max(round_dn(qty - held, ex.qty_step));
        Some(side.order(Kind::InitialPartial, missing, price))
    } else {
        None
    }
}

/// The wallet exposure of the position.
pub open spec fn exposure_of(
    side: Side,
    ex: ExchangeParams,
    st: StateParams,
    position: Position,
) -> Binary64 {
    calc_wallet_exposure(ex.c_mult, st.balance, side.spec_held(position), position.price)
}

/// The quantity of a re-entry into an opened position, before any cropping.
pub open spec fn full_reentry_qty(
    side: Side,
    ex: ExchangeParams,
    st: StateParams,
    bp: BotParams,
    price: Binary64,
    held: Binary64,
    double_down_factor: Binary64,
) -> Binary64 {
    let first = initial_entry_qty(ex, bp, st.balance, initial_entry_price(side, ex, st, bp));
    reentry_qty(price, st.balance, held, double_down_factor, ex, bp).max(first)
}

/// Whether the entry after a grid re-entry would be cropped to less than a fair share of the
/// double down factor, so that the present one had better take it along.
#[verifier::opaque]
pub open spec fn leaves_dust(
    side: Side,
    ex: ExchangeParams,
    st: StateParams,
    bp: BotParams,
    position: Position,
    qty: Binary64,
    price: Binary64,
) -> bool {
    let factor = bp.entry_grid_double_down_factor;
    let exposure = exposure_if_filled(ex, position, st.balance, qty, price);
    let (size, average) = calc_new_psize_pprice(
        side.spec_held(position),
        position.price,
        qty,
        price,
        ex.qty_step,
    );
    let next_price = reentry_price(side, average, exposure, side.spec_book_price(st), ex, bp);
    let next_qty = full_reentry_qty(side, ex, st, bp, next_price, size, factor);
    let next_position = Position { size, price: average };
    let left = cropped_qty(ex, bp, next_position, exposure, st.balance, next_qty, next_price);
    left / size < factor * dust_share()
}

/// The grid re-entry into an opened position.
///
/// An inflated entry gets the quantity that lands on the exposure limit. Where the plain re-entry
/// would end past the limit, but within its slack, that quantity is smaller than the plain one,
/// and it is not raised to the minimum of the exchange.
pub open spec fn grid_reentry(
    side: Side,
    ex: ExchangeParams,
    st: StateParams,
    bp: BotParams,
    position: Position,
) -> Order {
    let held = side.spec_held(position);
    let exposure = exposure_of(side, ex, st, position);
    let price = reentry_price(
        side,
        position.price,
        exposure,
        side.spec_book_price(st),
        ex,
        bp,
    );
    let qty = full_reentry_qty(side, ex, st, bp, price, held, bp.entry_grid_double_down_factor);
    let cropped = cropped_qty(ex, bp, position, exposure, st.balance, qty, price);
    if exposure >= bp.wallet_exposure_limit * full_share() || price <= zero() {
        Order::none()
    } else if cropped < qty {
        side.order(Kind::GridCropped, cropped, price)
    } else if leaves_dust(side, ex, st, bp, position, qty, price) {
        let filled = exposure_if_filled(ex, position, st.balance, qty, price);
        let inflated = round_(qty_to_limit(bp, held, qty, exposure, filled), ex.qty_step);
        side.order(Kind::GridInflated, inflated, price)
    } else {
        side.order(Kind::GridNormal, qty, price)
    }
}

/// The entry that the grid rules ask for.
pub open spec fn grid_entry(
    side: Side,
    ex: ExchangeParams,
    st: StateParams,
    bp: BotParams,
    position: Position,
) -> Order {
    if no_budget(st, bp) {
        Order::none()
    } else {
        match initial_entry(side, ex, st, bp, position) {
            Some(order) => order,
            None => grid_reentry(side, ex, st, bp, position),
        }
    }
}

/// Whether the price has moved past the threshold against the position.
pub open spec fn threshold_reached(
    side: Side,
    bp: BotParams,
    position: Position,
    trail: TrailingPriceBundle,
) -> bool {
    let threshold = bp.entry_trailing_threshold_pct;
    match side {
        Side::Long => trail.min_since_open < position.price * (one() - threshold),
        Side::Short => trail.max_since_open > position.price * (one() + threshold),
    }
}

/// Whether the price has come back from its extreme by the retracement.
pub open spec fn retraced(side: Side, bp: BotParams, trail: TrailingPriceBundle) -> bool {
    let retracement = bp.entry_trailing_retracement_pct;
    match side {
        Side::Long => trail.max_since_min > trail.min_since_open * (one() + retracement),
        Side::Short => trail.min_since_max < trail.max_since_open * (one() - retracement),
    }
}

/// The price at which the trailing rules enter, if they do: at the book right after a
/// retracement without a threshold, at the threshold without a retracement, and between the two
/// after both.
pub open spec fn trailing_price(
    side: Side,
    ex: ExchangeParams,
    st: StateParams,
    bp: BotParams,
    position: Position,
    trail: TrailingPriceBundle,
) -> Option<Binary64> {
    let threshold = bp.entry_trailing_threshold_pct;
    let retracement = bp.entry_trailing_retracement_pct;
    if threshold <= zero() {
        if retracement > zero() && retraced(side, bp, trail) {
            Some(side.spec_book_price(st))
        } else {
            None
        }
    } else if retracement <= zero() {
        Some(
            match side {
                Side::Long => st.order_book.bid.min(
                    round_dn(position.price * (one() - threshold), ex.price_step),
                ),
                Side::Short => st.order_book.ask.max(
                    round_up(position.price * (one() + threshold), ex.price_step),
                ),
            },
        )
    } else if threshold_reached(side, bp, position, trail) && retraced(side, bp, trail) {
        Some(
            match side {
                Side::Long => st.order_book.bid.min(
                    round_dn(position.price * (one() - threshold + retracement), ex.price_step),
                ),
                Side::Short => st.order_book.ask.max(
                    round_up(position.price * (one() + threshold - retracement), ex.price_step),
                ),
            },
        )
    } else {
        None
    }
}

/// The trailing order that waits to be triggered: it has no quantity.
pub open spec fn waiting(side: Side) -> Order {
    Order { qty: zero(), price: zero(), order_type: side.order_type(Kind::TrailingNormal) }
}

/// The trailing re-entry into an opened position.
pub open spec fn trailing_reentry(
    side: Side,
    ex: ExchangeParams,
    st: StateParams,
    bp: BotParams,
    position: Position,
    trail: TrailingPriceBundle,
) -> Order {
    let held = side.spec_held(position);
    let exposure = exposure_of(side, ex, st, position);
    let factor = bp.entry_trailing_double_down_factor;
    if exposure > bp.wallet_exposure_limit * full_share() {
        Order::none()
    } else {
        match trailing_price(side, ex, st, bp, position, trail) {
            None => waiting(side),
            Some(price) => {
                let qty = full_reentry_qty(side, ex, st, bp, price, held, factor);
                let cropped = cropped_qty(ex, bp, position, exposure, st.balance, qty, price);
                if cropped < qty {
                    side.order(Kind::TrailingCropped, cropped, price)
                } else {
                    side.order(Kind::TrailingNormal, qty, price)
                }
            },
        }
    }
}

/// The entry that the trailing rules ask for.
pub open spec fn trailing_entry(
    side: Side,
    ex: ExchangeParams,
    st: StateParams,
    bp: BotParams,
    position: Position,
    trail: TrailingPriceBundle,
) -> Order {
    match initial_entry(side, ex, st, bp, position) {
        Some(order) => order,
        None => trailing_reentry(side, ex, st, bp, position, trail),
    }
}

/// Whether the price made a lower low while the RSI rose.
pub open spec fn diverges(bp: BotParams, divergence: DivergenceBundle) -> bool {
    &&& divergence.curr_low < divergence.prev_low
    &&& divergence.curr_rsi > divergence.prev_rsi + bp.divergence_rsi_tolerance
}

/// The entry on a divergence: the smallest order, at the bid.
pub open spec fn divergence_entry(
    ex: ExchangeParams,
    st: StateParams,
    bp: BotParams,
    divergence: DivergenceBundle,
) -> Order {
    if bp.enable_divergence_entry && diverges(bp, divergence) {
        Order {
            qty: min_entry_qty(st.order_book.bid, ex),
            price: st.order_book.bid,
            order_type: OrderType::EntryDivergenceLong,
        }
    } else {
        Order::none()
    }
}

/// Which rules decide on the next entry, and under which exposure limit.
pub enum Plan {
    Nothing,
    Grid(Binary64),
    Trailing(Binary64),
}

/// The plan for a position. A ratio of one and beyond is trailing only, zero is grid only. In
/// between, the first kind is used until its share of the exposure limit is taken, under a limit
/// of that share times the slack; then the other kind is. Cropping allows for the slack once
/// more, on top of that limit.
pub open spec fn plan(
    side: Side,
    ex: ExchangeParams,
    st: StateParams,
    bp: BotParams,
    position: Position,
) -> Plan {
    let limit = bp.wallet_exposure_limit;
    let ratio = bp.entry_trailing_grid_ratio;
    let exposure = exposure_of(side, ex, st, position);
    let taken = exposure / limit;
    if no_budget(st, bp) {
        Plan::Nothing
    } else if ratio >= one() || ratio <= one().negated() {
        Plan::Trailing(limit)
    } else if ratio.equals(zero()) {
        Plan::Grid(limit)
    } else if ratio > zero() {
        if taken < ratio {
            Plan::Trailing(
                if exposure.equals(zero()) {
                    limit
                } else {
                    limit * ratio * limit_slack()
                },
            )
        } else {
            Plan::Grid(limit)
        }
    } else {
        if taken < one() + ratio {
            Plan::Grid(
                if exposure.equals(zero()) {
                    limit
                } else {
                    limit * (one() + ratio) * limit_slack()
                },
            )
        } else {
            Plan::Trailing(limit)
        }
    }
}

/// The settings under another exposure limit.
pub open spec fn with_limit(bp: BotParams, limit: Binary64) -> BotParams {
    BotParams { wallet_exposure_limit: limit, ..bp }
}

/// The next entry. Divergence entries take the place of trailing ones where they are enabled and
/// the side has them.
pub open spec fn next_entry(
    side: Side,
    ex: ExchangeParams,
    st: StateParams,
    bp: BotParams,
    position: Position,
    trail: TrailingPriceBundle,
    divergence: Option<DivergenceBundle>,
) -> Order {
    match plan(side, ex, st, bp, position) {
        Plan::Nothing => Order::none(),
        Plan::Grid(limit) => grid_entry(side, ex, st, with_limit(bp, limit), position),
        Plan::Trailing(limit) => match divergence {
            Some(divergence) if bp.enable_divergence_entry => divergence_entry(
                ex,
                st,
                with_limit(bp, limit),
                divergence,
            ),
            _ => trailing_entry(side, ex, st, with_limit(bp, limit), position, trail),
        },
    }
}

/// The most entries that are planned ahead.
pub const MAX_ENTRIES: usize = 500;

/// What the entries are planned from.
#[derive(Clone, Copy, Debug)]
pub struct Market {
    pub exchange_params: ExchangeParams,
    pub state_params: StateParams,
    pub bot_params: BotParams,
    pub position: Position,
    pub trail: TrailingPriceBundle,
    pub divergence: Option<DivergenceBundle>,
}

/// The state once the book has moved to an entry at `price`.
pub open spec fn book_moved(side: Side, st: StateParams, price: Binary64) -> StateParams {
    let book = st.order_book;
    StateParams {
        order_book: match side {
            Side::Long => OrderBook { bid: book.bid.min(price), ask: book.ask },
            Side::Short => OrderBook { bid: book.bid, ask: book.ask.max(price) },
        },
        ..st
    }
}

/// The position once an order has been filled.
pub open spec fn filled(ex: ExchangeParams, position: Position, order: Order) -> Position {
    let (size, price) = calc_new_psize_pprice(
        position.size,
        position.price,
        order.qty,
        order.price,
        ex.qty_step,
    );
    Position { size, price }
}

impl Market {
    /// The market once an entry has been filled.
    pub open spec fn step(self, side: Side, order: Order) -> Market {
        Market {
            state_params: book_moved(side, self.state_params, order.price),
            position: filled(self.exchange_params, self.position, order),
            ..self
        }
    }

    /// The market once the entries have been filled one after the other.
    pub open spec fn after(self, side: Side, entries: Seq<Order>) -> Market
        decreases entries.len(),
    {
        if entries.len() == 0 {
            self
        } else {
            self.after(side, entries.drop_last()).step(side, entries.last())
        }
    }

    /// The next entry on a side.
    #[verifier::opaque]
    pub open spec fn next(self, side: Side) -> Order {
        next_entry(
            side,
            self.exchange_params,
            self.state_params,
            self.bot_params,
            self.position,
            self.trail,
            self.divergence,
        )
    }

    /// Whether entry `i` is the next one after those before it have been filled, and does not
    /// end them.
    pub open spec fn follows_at(self, side: Side, entries: Seq<Order>, i: int) -> bool {
        &&& entries[i] == self.after(side, entries.take(i)).next(side)
        &&& !ends(side, entries.take(i), entries[i])
    }

    /// Whether the entries follow each other from the first to the last.
    pub open spec fn follows(self, side: Side, entries: Seq<Order>) -> bool {
        forall|i: int|
            0 <= i < entries.len() ==> #[trigger] self.follows_at(side, entries, i)
    }

    /// Whether `entries` are the entries to be planned ahead: those that follow each other up to
    /// the first that ends them, or up to the maximum.
    pub open spec fn plans(self, side: Side, entries: Seq<Order>) -> bool {
        &&& self.follows(side, entries)
        &&& entries.len() <= MAX_ENTRIES
        &&& entries.len() < MAX_ENTRIES ==> ends(
            side,
            entries,
            self.after(side, entries).next(side),
        )
    }
}

/// Planning one entry more.
pub proof fn lemma_follows_push(market: Market, side: Side, entries: Seq<Order>, order: Order)
    requires
        market.follows(side, entries),
        order == market.after(side, entries).next(side),
        !ends(side, entries, order),
    ensures
        market.follows(side, entries.push(order)),
        market.after(side, entries.push(order)) == market.after(side, entries).step(side, order),
{
    let longer = entries.push(order);
    assert(longer.drop_last() =~= entries);
    assert forall|i: int| 0 <= i < longer.len() implies #[trigger] market.follows_at(
        side,
        longer,
        i,
    ) by {
        if i < entries.len() {
            assert(market.follows_at(side, entries, i));
            assert(longer.take(i) =~= entries.take(i));
            assert(longer[i] == entries[i]);
        } else {
            assert(longer.take(i) =~= entries);
        }
    }
}

/// Whether an order is a trailing entry.
pub open spec fn is_trailing(side: Side, order: Order) -> bool {
    ||| order.order_type == side.order_type(Kind::TrailingNormal)
    ||| order.order_type == side.order_type(Kind::TrailingCropped)
}

/// Whether an order ends the entries planned so far: it has no quantity, or it would come after
/// others and is a trailing entry or at the price of the last one.
pub open spec fn ends(side: Side, entries: Seq<Order>, order: Order) -> bool {
    ||| order.qty.equals(zero())
    ||| entries.len() > 0 && (is_trailing(side, order) || entries.last().price.equals(order.price))
}

} // verus!
