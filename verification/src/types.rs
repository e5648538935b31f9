//! The parameters and orders that the entry rules read and give.
use crate::binary64::Binary64;
use crate::constants::zero;
use vstd::prelude::*;

verus! {

/// What the exchange prescribes for a market.
#[derive(Clone, Copy, Debug)]
pub struct ExchangeParams {
    /// Quantities are multiples of this.
    pub qty_step: Binary64,
    /// Prices are multiples of this.
    pub price_step: Binary64,
    /// The smallest quantity of an order.
    pub min_qty: Binary64,
    /// The smallest cost of an order.
    pub min_cost: Binary64,
    /// How much of the base asset one contract stands for.
    pub c_mult: Binary64,
}

/// The best prices in the order book.
#[derive(Clone, Copy, Debug)]
pub struct OrderBook {
    pub bid: Binary64,
    pub ask: Binary64,
}

/// The band that the moving averages of the price span.
#[derive(Clone, Copy, Debug)]
pub struct EMABands {
    pub upper: Binary64,
    pub lower: Binary64,
}

/// The state of the account and the market.
#[derive(Clone, Copy, Debug)]
pub struct StateParams {
    pub balance: Binary64,
    pub order_book: OrderBook,
    pub ema_bands: EMABands,
}

/// The settings of the strategy for one side of one market.
#[derive(Clone, Copy, Debug)]
pub struct BotParams {
    /// The largest ratio of position cost to balance.
    pub wallet_exposure_limit: Binary64,
    /// The share of the exposure limit that the first entry takes.
    pub entry_initial_qty_pct: Binary64,
    /// How far from the moving average band the first entry is placed.
    pub entry_initial_ema_dist: Binary64,
    /// The distance from the position price to the next grid entry.
    pub entry_grid_spacing_pct: Binary64,
    /// How much that distance widens with the exposure.
    pub entry_grid_spacing_weight: Binary64,
    /// The quantity of a grid entry, as a multiple of the position size.
    pub entry_grid_double_down_factor: Binary64,
    /// The share of the exposure that is entered by trailing (positive: trailing first, negative:
    /// grid first).
    pub entry_trailing_grid_ratio: Binary64,
    /// How far the price must move before trailing starts.
    pub entry_trailing_threshold_pct: Binary64,
    /// How far the price must come back to trigger a trailing entry.
    pub entry_trailing_retracement_pct: Binary64,
    /// The quantity of a trailing entry, as a multiple of the position size.
    pub entry_trailing_double_down_factor: Binary64,
    /// Whether divergence entries take the place of trailing entries.
    pub enable_divergence_entry: bool,
    /// By how much the RSI must have risen for a divergence.
    pub divergence_rsi_tolerance: Binary64,
}

/// A position: its size, negative if short, and its average price.
#[derive(Clone, Copy, Debug)]
pub struct Position {
    pub size: Binary64,
    pub price: Binary64,
}

/// The extreme prices since the position last changed.
#[derive(Clone, Copy, Debug)]
pub struct TrailingPriceBundle {
    pub min_since_open: Binary64,
    pub max_since_min: Binary64,
    pub max_since_open: Binary64,
    pub min_since_max: Binary64,
}

/// The two lows, and the RSI at each, between which a divergence is looked for.
#[derive(Clone, Copy, Debug)]
pub struct DivergenceBundle {
    pub curr_low: Binary64,
    pub prev_low: Binary64,
    pub curr_rsi: Binary64,
    pub prev_rsi: Binary64,
}

/// What kind of entry an order is.
#[derive(Clone, Copy, Debug, PartialEq, Eq, Structural)]
pub enum OrderType {
    EntryInitialNormalLong,
    EntryInitialPartialLong,
    EntryGridNormalLong,
    EntryGridCroppedLong,
    EntryGridInflatedLong,
    EntryTrailingNormalLong,
    EntryTrailingCroppedLong,
    EntryDivergenceLong,
    EntryInitialNormalShort,
    EntryInitialPartialShort,
    EntryGridNormalShort,
    EntryGridCroppedShort,
    EntryGridInflatedShort,
    EntryTrailingNormalShort,
    EntryTrailingCroppedShort,
    /// No order.
    Empty,
}

/// An order; its quantity is negative if it sells.
#[derive(Clone, Copy, Debug)]
pub struct Order {
    pub qty: Binary64,
    pub price: Binary64,
    pub order_type: OrderType,
}

impl Order {
    /// The order that stands for none.
    pub open spec fn none() -> Order {
        Order { qty: zero(), price: zero(), order_type: OrderType::Empty }
    }
}

impl Default for Order {
    fn default() -> (r: Order)
        ensures
            r == Order::none(),
    {
        Order { qty: zero(), price: zero(), order_type: OrderType::Empty }
    }
}

} // verus!
