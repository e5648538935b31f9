//! Which entry is due on which inputs, written out.
use crate::binary64::Binary64;
use crate::constants::fraction;
use crate::constants::lemma_one_is_positive;
use crate::constants::one;
use crate::constants::zero;
use crate::interpolation::lemma_qty_to_limit_terms;
use crate::laws::entered;
use crate::laws::law_cropped_qty_meets_minimum;
use crate::laws::lemma_full_reentry_meets_minimum;
use crate::monotone::law_mul_monotone;
use crate::monotone::lemma_add_is_number;
use crate::rules::cropped_qty;
use crate::rules::divergence_entry;
use crate::rules::exposure_if_filled;
use crate::rules::full_reentry_qty;
use crate::rules::grid_entry;
use crate::rules::initial_entry;
use crate::rules::initial_entry_price;
use crate::rules::initial_entry_qty;
use crate::rules::leaves_dust;
use crate::rules::min_entry_qty;
use crate::rules::next_entry;
use crate::rules::qty_to_limit;
use crate::rules::reentry_price;
use crate::rules::reentry_qty;
use crate::rules::trailing_entry;
use crate::rules::trailing_price;
use crate::rules::with_limit;
use crate::rules::Market;
use crate::side::Kind;
use crate::side::Side;
use crate::types::BotParams;
use crate::types::DivergenceBundle;
use crate::types::ExchangeParams;
use crate::types::Order;
use crate::types::OrderType;
use crate::types::Position;
use crate::types::StateParams;
use crate::types::TrailingPriceBundle;
use crate::utils::calc_new_psize_pprice;
use crate::utils::calc_wallet_exposure;
use crate::utils::round_;
use crate::utils::round_dn;
use crate::utils::round_up;
use crate::utils::spec_calc_wallet_exposure_if_filled;
use vstd::prelude::*;

verus! {

/// Whether there is an exposure limit and a balance to trade with.
pub open spec fn has_budget(st: StateParams, bp: BotParams) -> bool {
    !bp.wallet_exposure_limit.equals(zero()) && !(st.balance <= zero())
}

/// What the trailing part of the rules gives: on the long side a divergence entry, where there
/// are such, and otherwise a trailing entry.
pub open spec fn trailing_or_divergence(
    side: Side,
    ex: ExchangeParams,
    st: StateParams,
    bp: BotParams,
    position: Position,
    trail: TrailingPriceBundle,
    divergence: Option<DivergenceBundle>,
) -> Order {
    match divergence {
        Some(bundle) if bp.enable_divergence_entry => divergence_entry(ex, st, bp, bundle),
        _ => trailing_entry(side, ex, st, bp, position, trail),
    }
}

/// With a ratio between zero and one, entries trail as long as the exposure is below that share
/// of the limit: under the whole limit from flat, and then under that share of it and one percent
/// more. From there on they are entries of the grid under the whole limit.
pub proof fn law_trailing_comes_first(
    side: Side,
    ex: ExchangeParams,
    st: StateParams,
    bp: BotParams,
    position: Position,
    trail: TrailingPriceBundle,
    divergence: Option<DivergenceBundle>,
)
    requires
        has_budget(st, bp),
        zero() < bp.entry_trailing_grid_ratio,
        bp.entry_trailing_grid_ratio < one(),
    ensures
        ({
            let next = next_entry(side, ex, st, bp, position, trail, divergence);
            let (limit, ratio) = (bp.wallet_exposure_limit, bp.entry_trailing_grid_ratio);
            let held = match side {
                Side::Long => position.size,
                Side::Short => position.size.abs(),
            };
            let exposure = calc_wallet_exposure(ex.c_mult, st.balance, held, position.price);
            let share = BotParams {
                wallet_exposure_limit: limit * ratio * fraction(101, 100),
                ..bp
            };
            &&& exposure / limit < ratio && !exposure.equals(zero()) ==> next
                == trailing_or_divergence(side, ex, st, share, position, trail, divergence)
            &&& exposure / limit < ratio && exposure.equals(zero()) ==> next
                == trailing_or_divergence(side, ex, st, bp, position, trail, divergence)
            &&& !(exposure / limit < ratio) ==> next == grid_entry(side, ex, st, bp, position)
        }),
{
}

/// With a ratio between minus one and zero, entries are of the grid as long as the exposure is
/// below what the ratio leaves of the limit: under the whole limit from flat, and then under that
/// share of it and one percent more. From there on they trail under the whole limit.
pub proof fn law_grid_comes_first(
    side: Side,
    ex: ExchangeParams,
    st: StateParams,
    bp: BotParams,
    position: Position,
    trail: TrailingPriceBundle,
    divergence: Option<DivergenceBundle>,
)
    requires
        has_budget(st, bp),
        one().negated() < bp.entry_trailing_grid_ratio,
        bp.entry_trailing_grid_ratio < zero(),
    ensures
        ({
            let next = next_entry(side, ex, st, bp, position, trail, divergence);
            let (limit, ratio) = (bp.wallet_exposure_limit, bp.entry_trailing_grid_ratio);
            let held = match side {
                Side::Long => position.size,
                Side::Short => position.size.abs(),
            };
            let exposure = calc_wallet_exposure(ex.c_mult, st.balance, held, position.price);
            let share = BotParams {
                wallet_exposure_limit: limit * (one() + ratio) * fraction(101, 100),
                ..bp
            };
            &&& exposure / limit < one() + ratio && !exposure.equals(zero()) ==> next
                == grid_entry(side, ex, st, share, position)
            &&& exposure / limit < one() + ratio && exposure.equals(zero()) ==> next
                == grid_entry(side, ex, st, bp, position)
            &&& !(exposure / limit < one() + ratio) ==> next == trailing_or_divergence(
                side,
                ex,
                st,
                bp,
                position,
                trail,
                divergence,
            )
        }),
{
    lemma_one_is_positive();
}

/// With a ratio of zero all entries are of the grid; with one of one and beyond, on either side of
/// zero, and with one that is not a number, all entries trail.
pub proof fn law_one_part_only(
    side: Side,
    ex: ExchangeParams,
    st: StateParams,
    bp: BotParams,
    position: Position,
    trail: TrailingPriceBundle,
    divergence: Option<DivergenceBundle>,
)
    requires
        has_budget(st, bp),
    ensures
        ({
            let next = next_entry(side, ex, st, bp, position, trail, divergence);
            let ratio = bp.entry_trailing_grid_ratio;
            let trailing = trailing_or_divergence(side, ex, st, bp, position, trail, divergence);
            &&& ratio.equals(zero()) ==> next == grid_entry(side, ex, st, bp, position)
            &&& ratio >= one() || ratio <= one().negated() || ratio.is_nan() ==> next == trailing
        }),
{
    lemma_one_is_positive();
    assert(with_limit(bp, bp.wallet_exposure_limit) == bp);
}

/// Without a limit or a balance there is no entry.
pub proof fn law_nothing_without_budget(
    side: Side,
    ex: ExchangeParams,
    st: StateParams,
    bp: BotParams,
    position: Position,
    trail: TrailingPriceBundle,
    divergence: Option<DivergenceBundle>,
)
    requires
        !has_budget(st, bp),
    ensures
        ({
            let none = Order { qty: zero(), price: zero(), order_type: OrderType::Empty };
            &&& next_entry(side, ex, st, bp, position, trail, divergence) == none
            &&& grid_entry(side, ex, st, bp, position) == none
        }),
{
}

/// The kinds of entries have their order types, and sales have the negated quantity.
pub proof fn law_orders_of_sides(side: Side, kind: Kind, qty: Binary64, price: Binary64)
    ensures
        ({
            let order = side.order(kind, qty, price);
            &&& order.price == price
            &&& order.order_type == side.order_type(kind)
            &&& match side {
                Side::Long => order.qty == qty && order.order_type == (match kind {
                    Kind::InitialNormal => OrderType::EntryInitialNormalLong,
                    Kind::InitialPartial => OrderType::EntryInitialPartialLong,
                    Kind::GridNormal => OrderType::EntryGridNormalLong,
                    Kind::GridCropped => OrderType::EntryGridCroppedLong,
                    Kind::GridInflated => OrderType::EntryGridInflatedLong,
                    Kind::TrailingNormal => OrderType::EntryTrailingNormalLong,
                    Kind::TrailingCropped => OrderType::EntryTrailingCroppedLong,
                }),
                Side::Short => order.qty.negated() == qty && order.order_type == (match kind {
                    Kind::InitialNormal => OrderType::EntryInitialNormalShort,
                    Kind::InitialPartial => OrderType::EntryInitialPartialShort,
                    Kind::GridNormal => OrderType::EntryGridNormalShort,
                    Kind::GridCropped => OrderType::EntryGridCroppedShort,
                    Kind::GridInflated => OrderType::EntryGridInflatedShort,
                    Kind::TrailingNormal => OrderType::EntryTrailingNormalShort,
                    Kind::TrailingCropped => OrderType::EntryTrailingCroppedShort,
                }),
            }
            &&& entered(side, order) == qty
        }),
{
    assert(qty.negated().negated() == qty);
}

/// Entries of a side join its part of the book and enlarge what it holds: buys join the bid and
/// sales the ask, and a short position holds as many contracts as its size is below zero.
pub proof fn law_sides(side: Side, st: StateParams, position: Position)
    ensures
        side.spec_book_price(st) == (match side {
            Side::Long => st.order_book.bid,
            Side::Short => st.order_book.ask,
        }),
        side.spec_held(position) == (match side {
            Side::Long => position.size,
            Side::Short => position.size.abs(),
        }),
{
}

/// The smallest quantity is the larger one of the smallest of the exchange, and of what the
/// smallest cost buys, rounded up to a step; without a price it buys nothing.
pub proof fn law_minimum_is_the_larger(price: Binary64, ex: ExchangeParams)
    ensures
        ({
            let least = min_entry_qty(price, ex);
            let bought = round_up(
                if price > zero() {
                    ex.min_cost / price / ex.c_mult
                } else {
                    zero()
                },
                ex.qty_step,
            );
            &&& least == ex.min_qty || least == bought
            &&& !ex.min_qty.is_nan() ==> least >= ex.min_qty
            &&& !bought.is_nan() ==> least >= bought
        }),
{
}

/// The quantity of the first entry is what its share of the limit buys, rounded to a step, or
/// the smallest quantity if that is larger.
pub proof fn law_initial_qty_is_a_share(
    ex: ExchangeParams,
    bp: BotParams,
    balance: Binary64,
    price: Binary64,
)
    ensures
        ({
            let qty = initial_entry_qty(ex, bp, balance, price);
            let least = min_entry_qty(price, ex);
            let share = round_(
                if price > zero() {
                    balance * bp.wallet_exposure_limit * bp.entry_initial_qty_pct / price
                        / ex.c_mult
                } else {
                    zero()
                },
                ex.qty_step,
            );
            &&& qty == least || qty == share
            &&& !least.is_nan() ==> qty >= least
            &&& !share.is_nan() ==> qty >= share
        }),
{
}

/// The quantity of a re-entry is the double down factor times the position, or what the share of
/// the first entry buys at the price if that is more, rounded to a step; or the smallest quantity
/// if that is larger.
pub proof fn law_reentry_qty_doubles_down(
    price: Binary64,
    balance: Binary64,
    position_size: Binary64,
    factor: Binary64,
    ex: ExchangeParams,
    bp: BotParams,
)
    ensures
        ({
            let qty = reentry_qty(price, balance, position_size, factor, ex, bp);
            let least = min_entry_qty(price, ex);
            let doubled = position_size.abs() * factor;
            let first = if price > zero() {
                balance / price / ex.c_mult * bp.wallet_exposure_limit * bp.entry_initial_qty_pct
            } else {
                zero() * bp.wallet_exposure_limit * bp.entry_initial_qty_pct
            };
            let wanted = round_(
                if doubled.is_nan() || doubled < first {
                    first
                } else {
                    doubled
                },
                ex.qty_step,
            );
            &&& qty == least || qty == wanted
            &&& !least.is_nan() ==> qty >= least
            &&& !wanted.is_nan() ==> qty >= wanted
        }),
{
}

/// A re-entry is no smaller than the first entry would be: it is the larger one of the two.
pub proof fn law_reentry_is_no_smaller_than_the_first(
    side: Side,
    ex: ExchangeParams,
    st: StateParams,
    bp: BotParams,
    price: Binary64,
    held: Binary64,
    factor: Binary64,
)
    ensures
        ({
            let qty = full_reentry_qty(side, ex, st, bp, price, held, factor);
            let again = reentry_qty(price, st.balance, held, factor, ex, bp);
            let first = initial_entry_qty(
                ex,
                bp,
                st.balance,
                initial_entry_price(side, ex, st, bp),
            );
            &&& qty == again || qty == first
            &&& !again.is_nan() ==> qty >= again
            &&& !first.is_nan() ==> qty >= first
        }),
{
}

/// The first entry is placed at a distance outside of the band of moving averages, rounded away
/// from it to a price step, or at the book if that is further away.
pub proof fn law_initial_price(side: Side, ex: ExchangeParams, st: StateParams, bp: BotParams)
    ensures
        ({
            let price = initial_entry_price(side, ex, st, bp);
            let dist = bp.entry_initial_ema_dist;
            match side {
                Side::Long => {
                    let outside = round_dn(st.ema_bands.lower * (one() - dist), ex.price_step);
                    &&& price == st.order_book.bid || price == outside
                    &&& !st.order_book.bid.is_nan() ==> price <= st.order_book.bid
                    &&& !outside.is_nan() ==> price <= outside
                },
                Side::Short => {
                    let outside = round_up(st.ema_bands.upper * (one() + dist), ex.price_step);
                    &&& price == st.order_book.ask || price == outside
                    &&& !st.order_book.ask.is_nan() ==> price >= st.order_book.ask
                    &&& !outside.is_nan() ==> price >= outside
                },
            }
        }),
{
}

/// A position that holds nothing gets its first entry at the initial price, of the initial
/// quantity, by the rules of trailing and, with a budget, by those of the grid. There is none only
/// where that price is no more than a price step.
#[verifier::spinoff_prover]
#[verifier::rlimit(60)]
pub proof fn law_first_entry(
    side: Side,
    ex: ExchangeParams,
    st: StateParams,
    bp: BotParams,
    position: Position,
    trail: TrailingPriceBundle,
)
    requires
        position.size.equals(zero()),
    ensures
        ({
            let price = initial_entry_price(side, ex, st, bp);
            let order = trailing_entry(side, ex, st, bp, position, trail);
            &&& has_budget(st, bp) ==> grid_entry(side, ex, st, bp, position) == order
            &&& price <= ex.price_step ==> order == (Order {
                qty: zero(),
                price: zero(),
                order_type: OrderType::Empty,
            })
            &&& !(price <= ex.price_step) ==> {
                &&& order.price == price
                &&& entered(side, order) == initial_entry_qty(ex, bp, st.balance, price)
                &&& ex.min_qty > zero() ==> entered(side, order) > zero()
                &&& match side {
                    Side::Long => order.order_type == OrderType::EntryInitialNormalLong,
                    Side::Short => order.order_type == OrderType::EntryInitialNormalShort,
                }
            }
        }),
{
    let price = initial_entry_price(side, ex, st, bp);
    let qty = initial_entry_qty(ex, bp, st.balance, price);
    assert(qty.negated().negated() == qty);
    assert(position.size.abs().equals(zero()));
    lemma_initial_qty_is_positive(ex, bp, st.balance, price);
}

proof fn lemma_initial_qty_is_positive(
    ex: ExchangeParams,
    bp: BotParams,
    balance: Binary64,
    price: Binary64,
)
    ensures
        ex.min_qty > zero() ==> initial_entry_qty(ex, bp, balance, price) > zero(),
{
    law_initial_qty_is_a_share(ex, bp, balance, price);
    law_minimum_is_the_larger(price, ex);
}

/// A position that holds less than eight tenths of the initial quantity is completed: at the
/// initial price, by what is missing, rounded down to a step, or by the smallest quantity if that
/// is larger. There is no such entry only where that price is no more than a price step.
#[verifier::spinoff_prover]
#[verifier::rlimit(60)]
pub proof fn law_partial_entry(
    side: Side,
    ex: ExchangeParams,
    st: StateParams,
    bp: BotParams,
    position: Position,
    trail: TrailingPriceBundle,
)
    requires
        !position.size.equals(zero()),
        side.spec_held(position) < initial_entry_qty(
            ex,
            bp,
            st.balance,
            initial_entry_price(side, ex, st, bp),
        ) * fraction(8, 10),
    ensures
        ({
            let price = initial_entry_price(side, ex, st, bp);
            let qty = initial_entry_qty(ex, bp, st.balance, price);
            let missing = round_dn(qty - side.spec_held(position), ex.qty_step);
            let least = min_entry_qty(price, ex);
            let order = trailing_entry(side, ex, st, bp, position, trail);
            &&& has_budget(st, bp) ==> grid_entry(side, ex, st, bp, position) == order
            &&& price <= ex.price_step ==> order == (Order {
                qty: zero(),
                price: zero(),
                order_type: OrderType::Empty,
            })
            &&& !(price <= ex.price_step) ==> {
                &&& order.price == price
                &&& entered(side, order) == missing || entered(side, order) == least
                &&& !missing.is_nan() ==> entered(side, order) >= missing
                &&& !least.is_nan() ==> entered(side, order) >= least
                &&& match side {
                    Side::Long => order.order_type == OrderType::EntryInitialPartialLong,
                    Side::Short => order.order_type == OrderType::EntryInitialPartialShort,
                }
            }
        }),
{
    let price = initial_entry_price(side, ex, st, bp);
    let qty = initial_entry_qty(ex, bp, st.balance, price);
    let held = side.spec_held(position);
    let missing = min_entry_qty(price, ex).max(round_dn(qty - held, ex.qty_step));
    assert(missing.negated().negated() == missing);
    assert(!held.equals(zero()));
}

/// A position is opened exactly where the initial price is above a price step, and the position
/// holds something, and not less than eight tenths of the initial quantity.
pub proof fn law_opened_iff(
    side: Side,
    ex: ExchangeParams,
    st: StateParams,
    bp: BotParams,
    position: Position,
)
    ensures
        initial_entry(side, ex, st, bp, position) is None <==> {
            let price = initial_entry_price(side, ex, st, bp);
            &&& !(price <= ex.price_step)
            &&& !position.size.equals(zero())
            &&& !(side.spec_held(position) < initial_entry_qty(ex, bp, st.balance, price)
                * fraction(8, 10))
        },
{
    assert(position.size.abs().equals(zero()) == position.size.equals(zero()));
}

/// The exposure of a position is its cost in relation to the balance, and zero where there is no
/// position or no balance.
pub proof fn law_exposure_is_cost_over_balance(
    c_mult: Binary64,
    balance: Binary64,
    size: Binary64,
    price: Binary64,
)
    ensures
        ({
            let exposure = calc_wallet_exposure(c_mult, balance, size, price);
            &&& balance <= zero() || size.equals(zero()) ==> exposure == zero()
            &&& !(balance <= zero()) && !size.equals(zero()) ==> exposure == size.abs() * price
                * c_mult / balance
        }),
{
}

/// A fill adds to the size, rounded to a step, and averages the prices by the quantities. It
/// changes nothing if it has no quantity, and leaves no price if it leaves no position.
pub proof fn law_fill_averages(
    size: Binary64,
    average: Binary64,
    qty: Binary64,
    price: Binary64,
    step: Binary64,
)
    ensures
        ({
            let (new_size, new_average) = calc_new_psize_pprice(size, average, qty, price, step);
            let sum = round_(size + qty, step);
            let known = if average.is_nan() {
                zero()
            } else {
                average
            };
            &&& qty.equals(zero()) ==> new_size == size && new_average == average
            &&& !qty.equals(zero()) && sum.equals(zero()) ==> new_size == zero() && new_average
                == zero()
            &&& !qty.equals(zero()) && !sum.equals(zero()) ==> new_size == sum && new_average
                == known * (size / sum) + price * (qty / sum)
        }),
{
}

/// The exposure after an entry is that of the position after the fill, where position and entry
/// count by their magnitudes, rounded to steps.
pub proof fn law_exposure_after_entry(
    ex: ExchangeParams,
    position: Position,
    balance: Binary64,
    qty: Binary64,
    price: Binary64,
)
    ensures
        ({
            let (size, average) = calc_new_psize_pprice(
                round_(position.size.abs(), ex.qty_step),
                position.price,
                round_(qty.abs(), ex.qty_step),
                price,
                ex.qty_step,
            );
            let exposure = calc_wallet_exposure(ex.c_mult, balance, size, average);
            &&& exposure_if_filled(ex, position, balance, qty, price) == exposure
            &&& spec_calc_wallet_exposure_if_filled(
                balance,
                position.size,
                position.price,
                qty,
                price,
                ex,
            ) == exposure
        }),
{
    assert(position.size.abs().abs() == position.size.abs());
    assert(qty.abs().abs() == qty.abs());
}

/// The quantity that meets the limit is found on the straight line through the sizes at the
/// exposures before and after an entry: each size weighs by how near its exposure is to the limit.
pub proof fn law_limit_is_met_on_a_line(
    bp: BotParams,
    size: Binary64,
    qty: Binary64,
    before: Binary64,
    after: Binary64,
)
    ensures
        ({
            let limit = bp.wallet_exposure_limit;
            let first = one() * ((limit - after) / (before - after));
            let second = one() * ((limit - before) / (after - before));
            qty_to_limit(bp, size, qty, before, after) == zero() + first * size + second * (size
                + qty) - size
        }),
{
    lemma_qty_to_limit_terms(bp, size, qty, before, after);
}

/// An entry that exceeds the limit by more than one percent is cropped to what meets the limit,
/// rounded to a step, and any other is left as it is; the smallest quantity takes the place of
/// either if it is larger.
pub proof fn law_cropping(
    ex: ExchangeParams,
    bp: BotParams,
    position: Position,
    exposure: Binary64,
    balance: Binary64,
    qty: Binary64,
    price: Binary64,
)
    ensures
        ({
            let left = cropped_qty(ex, bp, position, exposure, balance, qty, price);
            let after = exposure_if_filled(ex, position, balance, qty, price);
            let least = min_entry_qty(price, ex);
            let met = round_(
                qty_to_limit(bp, position.size.abs(), qty.abs(), exposure, after),
                ex.qty_step,
            );
            let wanted = if after > bp.wallet_exposure_limit * fraction(101, 100) {
                met
            } else {
                qty.abs()
            };
            &&& left == least || left == wanted
            &&& !least.is_nan() ==> left >= least
            &&& !wanted.is_nan() ==> left >= wanted
        }),
{
}

/// A grid re-entry is placed below the price of a long position and above that of a short one, by
/// a spacing that widens with the share of the limit that is taken, rounded away from it to a
/// price step; or at the book if that is further away. There is no price only where that would be
/// no more than a price step.
pub proof fn law_reentry_price(
    side: Side,
    position_price: Binary64,
    exposure: Binary64,
    book_price: Binary64,
    ex: ExchangeParams,
    bp: BotParams,
)
    ensures
        ({
            let price = reentry_price(side, position_price, exposure, book_price, ex, bp);
            let taken = exposure / bp.wallet_exposure_limit;
            let distance = bp.entry_grid_spacing_pct * (one() + taken
                * bp.entry_grid_spacing_weight);
            let kept = match side {
                Side::Long => {
                    let below = round_dn(position_price * (one() - distance), ex.price_step);
                    if below.is_nan() || book_price < below {
                        book_price
                    } else {
                        below
                    }
                },
                Side::Short => {
                    let above = round_up(position_price * (one() + distance), ex.price_step);
                    if above.is_nan() || book_price > above {
                        book_price
                    } else {
                        above
                    }
                },
            };
            &&& kept <= ex.price_step ==> price == zero()
            &&& !(kept <= ex.price_step) ==> price == kept
        }),
{
}

/// Whether the entry after a re-entry of `qty` at `price` would be left with less than a quarter of
/// the double down factor times the position.
pub open spec fn next_is_dust(
    side: Side,
    ex: ExchangeParams,
    st: StateParams,
    bp: BotParams,
    position: Position,
    qty: Binary64,
    price: Binary64,
) -> bool {
    let factor = bp.entry_grid_double_down_factor;
    let held = match side {
        Side::Long => position.size,
        Side::Short => position.size.abs(),
    };
    let book_price = match side {
        Side::Long => st.order_book.bid,
        Side::Short => st.order_book.ask,
    };
    let after = exposure_if_filled(ex, position, st.balance, qty, price);
    let filled = calc_new_psize_pprice(held, position.price, qty, price, ex.qty_step);
    let next = Position { size: filled.0, price: filled.1 };
    let next_price = reentry_price(side, next.price, after, book_price, ex, bp);
    let next_qty = full_reentry_qty(side, ex, st, bp, next_price, next.size, factor);
    cropped_qty(ex, bp, next, after, st.balance, next_qty, next_price) / next.size < factor
        * fraction(1, 4)
}

/// An opened position gets a grid re-entry as long as it takes less than 999 thousandths of the
/// limit and there is a price. It is cropped where the limit leaves less of it, takes the rest up
/// to the limit along where that would be dust, and is of the plain quantity otherwise.
#[verifier::spinoff_prover]
#[verifier::rlimit(100)]
pub proof fn law_grid_reentry(
    side: Side,
    ex: ExchangeParams,
    st: StateParams,
    bp: BotParams,
    position: Position,
)
    requires
        has_budget(st, bp),
        initial_entry(side, ex, st, bp, position) is None,
    ensures
        ({
            let order = grid_entry(side, ex, st, bp, position);
            let held = match side {
                Side::Long => position.size,
                Side::Short => position.size.abs(),
            };
            let book_price = match side {
                Side::Long => st.order_book.bid,
                Side::Short => st.order_book.ask,
            };
            let exposure = calc_wallet_exposure(ex.c_mult, st.balance, held, position.price);
            let price = reentry_price(side, position.price, exposure, book_price, ex, bp);
            let factor = bp.entry_grid_double_down_factor;
            let qty = full_reentry_qty(side, ex, st, bp, price, held, factor);
            let left = cropped_qty(ex, bp, position, exposure, st.balance, qty, price);
            let after = exposure_if_filled(ex, position, st.balance, qty, price);
            let rest = round_(qty_to_limit(bp, held, qty, exposure, after), ex.qty_step);
            let dust = next_is_dust(side, ex, st, bp, position, qty, price);
            let none = exposure >= bp.wallet_exposure_limit * fraction(999, 1000) || price
                <= zero();
            &&& none ==> order == (Order {
                qty: zero(),
                price: zero(),
                order_type: OrderType::Empty,
            })
            &&& !none ==> order.price == price
            &&& !none && left < qty ==> entered(side, order) == left && order.order_type == (
            match side {
                Side::Long => OrderType::EntryGridCroppedLong,
                Side::Short => OrderType::EntryGridCroppedShort,
            })
            &&& !none && !(left < qty) && dust ==> entered(side, order) == rest
                && order.order_type == (match side {
                Side::Long => OrderType::EntryGridInflatedLong,
                Side::Short => OrderType::EntryGridInflatedShort,
            })
            &&& !none && !(left < qty) && !dust ==> entered(side, order) == qty
                && order.order_type == (match side {
                Side::Long => OrderType::EntryGridNormalLong,
                Side::Short => OrderType::EntryGridNormalShort,
            })
        }),
{
    let held = side.spec_held(position);
    let exposure = calc_wallet_exposure(ex.c_mult, st.balance, held, position.price);
    let price = reentry_price(side, position.price, exposure, side.spec_book_price(st), ex, bp);
    let factor = bp.entry_grid_double_down_factor;
    let qty = full_reentry_qty(side, ex, st, bp, price, held, factor);
    let left = cropped_qty(ex, bp, position, exposure, st.balance, qty, price);
    let after = exposure_if_filled(ex, position, st.balance, qty, price);
    let rest = round_(qty_to_limit(bp, held, qty, exposure, after), ex.qty_step);
    law_orders_of_sides(side, Kind::GridCropped, left, price);
    law_orders_of_sides(side, Kind::GridInflated, rest, price);
    law_orders_of_sides(side, Kind::GridNormal, qty, price);
    lemma_dust(side, ex, st, bp, position, qty, price);
}

proof fn lemma_dust(
    side: Side,
    ex: ExchangeParams,
    st: StateParams,
    bp: BotParams,
    position: Position,
    qty: Binary64,
    price: Binary64,
)
    ensures
        leaves_dust(side, ex, st, bp, position, qty, price) == next_is_dust(
            side,
            ex,
            st,
            bp,
            position,
            qty,
            price,
        ),
{
    reveal(leaves_dust);
}

/// Whether the price has moved against the position by more than the threshold, and come back from
/// its extreme by more than the retracement.
pub open spec fn triggers(
    side: Side,
    bp: BotParams,
    position: Position,
    trail: TrailingPriceBundle,
) -> bool {
    let (threshold, retracement) = (
        bp.entry_trailing_threshold_pct,
        bp.entry_trailing_retracement_pct,
    );
    match side {
        Side::Long => {
            &&& trail.min_since_open < position.price * (one() - threshold)
            &&& trail.max_since_min > trail.min_since_open * (one() + retracement)
        },
        Side::Short => {
            &&& trail.max_since_open > position.price * (one() + threshold)
            &&& trail.min_since_max < trail.max_since_open * (one() - retracement)
        },
    }
}

/// With a threshold and a retracement, a trailing price is due exactly where the price has moved
/// past the threshold and come back by the retracement: at the distance between the two from the
/// position price, or at the book if that is further away.
pub proof fn law_trailing_price_is_triggered(
    side: Side,
    ex: ExchangeParams,
    st: StateParams,
    bp: BotParams,
    position: Position,
    trail: TrailingPriceBundle,
)
    requires
        !(bp.entry_trailing_threshold_pct <= zero()),
        !(bp.entry_trailing_retracement_pct <= zero()),
    ensures
        ({
            let due = trailing_price(side, ex, st, bp, position, trail);
            let threshold = bp.entry_trailing_threshold_pct;
            let retracement = bp.entry_trailing_retracement_pct;
            &&& due is Some <==> triggers(side, bp, position, trail)
            &&& due matches Some(price) ==> match side {
                Side::Long => {
                    let between = round_dn(
                        position.price * (one() - threshold + retracement),
                        ex.price_step,
                    );
                    &&& price == st.order_book.bid || price == between
                    &&& !st.order_book.bid.is_nan() ==> price <= st.order_book.bid
                    &&& !between.is_nan() ==> price <= between
                },
                Side::Short => {
                    let between = round_up(
                        position.price * (one() + threshold - retracement),
                        ex.price_step,
                    );
                    &&& price == st.order_book.ask || price == between
                    &&& !st.order_book.ask.is_nan() ==> price >= st.order_book.ask
                    &&& !between.is_nan() ==> price >= between
                },
            }
        }),
{
}

/// With a threshold but no retracement, a trailing price is always due: at the threshold, or at
/// the book if that is further away.
pub proof fn law_trailing_price_at_threshold(
    side: Side,
    ex: ExchangeParams,
    st: StateParams,
    bp: BotParams,
    position: Position,
    trail: TrailingPriceBundle,
)
    requires
        !(bp.entry_trailing_threshold_pct <= zero()),
        bp.entry_trailing_retracement_pct <= zero(),
    ensures
        trailing_price(side, ex, st, bp, position, trail) matches Some(price) && match side {
            Side::Long => {
                let at = round_dn(
                    position.price * (one() - bp.entry_trailing_threshold_pct),
                    ex.price_step,
                );
                &&& price == st.order_book.bid || price == at
                &&& !st.order_book.bid.is_nan() ==> price <= st.order_book.bid
                &&& !at.is_nan() ==> price <= at
            },
            Side::Short => {
                let at = round_up(
                    position.price * (one() + bp.entry_trailing_threshold_pct),
                    ex.price_step,
                );
                &&& price == st.order_book.ask || price == at
                &&& !st.order_book.ask.is_nan() ==> price >= st.order_book.ask
                &&& !at.is_nan() ==> price >= at
            },
        },
{
}

/// Without a threshold, a trailing price is due exactly where there is a retracement and the price
/// has come back by more than it: at the book.
pub proof fn law_trailing_price_at_book(
    side: Side,
    ex: ExchangeParams,
    st: StateParams,
    bp: BotParams,
    position: Position,
    trail: TrailingPriceBundle,
)
    requires
        bp.entry_trailing_threshold_pct <= zero(),
    ensures
        ({
            let retracement = bp.entry_trailing_retracement_pct;
            let back = match side {
                Side::Long => trail.max_since_min > trail.min_since_open * (one() + retracement),
                Side::Short => trail.min_since_max < trail.max_since_open * (one() - retracement),
            };
            let book_price = match side {
                Side::Long => st.order_book.bid,
                Side::Short => st.order_book.ask,
            };
            trailing_price(side, ex, st, bp, position, trail) == (if retracement > zero() && back {
                Some(book_price)
            } else {
                None
            })
        }),
{
}

/// An opened position gets no trailing order past 999 thousandths of the limit. Up to there it
/// gets one without a quantity as long as no trailing price is due, and one at that price once it
/// is: cropped where the limit leaves less of it, and of the plain quantity otherwise.
#[verifier::spinoff_prover]
#[verifier::rlimit(100)]
pub proof fn law_trailing_reentry(
    side: Side,
    ex: ExchangeParams,
    st: StateParams,
    bp: BotParams,
    position: Position,
    trail: TrailingPriceBundle,
)
    requires
        initial_entry(side, ex, st, bp, position) is None,
    ensures
        ({
            let order = trailing_entry(side, ex, st, bp, position, trail);
            let held = match side {
                Side::Long => position.size,
                Side::Short => position.size.abs(),
            };
            let exposure = calc_wallet_exposure(ex.c_mult, st.balance, held, position.price);
            let factor = bp.entry_trailing_double_down_factor;
            let normal = match side {
                Side::Long => OrderType::EntryTrailingNormalLong,
                Side::Short => OrderType::EntryTrailingNormalShort,
            };
            let past = exposure > bp.wallet_exposure_limit * fraction(999, 1000);
            &&& past ==> order == (Order {
                qty: zero(),
                price: zero(),
                order_type: OrderType::Empty,
            })
            &&& !past ==> match trailing_price(side, ex, st, bp, position, trail) {
                None => order == (Order { qty: zero(), price: zero(), order_type: normal }),
                Some(price) => {
                    let qty = full_reentry_qty(side, ex, st, bp, price, held, factor);
                    let left = cropped_qty(ex, bp, position, exposure, st.balance, qty, price);
                    &&& order.price == price
                    &&& left < qty ==> entered(side, order) == left && order.order_type == (
                    match side {
                        Side::Long => OrderType::EntryTrailingCroppedLong,
                        Side::Short => OrderType::EntryTrailingCroppedShort,
                    })
                    &&& !(left < qty) ==> entered(side, order) == qty && order.order_type == normal
                },
            }
        }),
{
    let held = side.spec_held(position);
    let exposure = calc_wallet_exposure(ex.c_mult, st.balance, held, position.price);
    let factor = bp.entry_trailing_double_down_factor;
    if let Some(price) = trailing_price(side, ex, st, bp, position, trail) {
        let qty = full_reentry_qty(side, ex, st, bp, price, held, factor);
        let left = cropped_qty(ex, bp, position, exposure, st.balance, qty, price);
        law_orders_of_sides(side, Kind::TrailingCropped, left, price);
        law_orders_of_sides(side, Kind::TrailingNormal, qty, price);
    }
}

/// With a threshold and a retracement, an opened position that is not past the limit gets a
/// trailing re-entry exactly where the price has moved past the threshold and come back by the
/// retracement; until then its trailing order has no quantity and no price.
#[verifier::spinoff_prover]
#[verifier::rlimit(60)]
pub proof fn law_trailing_entry_iff_triggered(
    side: Side,
    ex: ExchangeParams,
    st: StateParams,
    bp: BotParams,
    position: Position,
    trail: TrailingPriceBundle,
)
    requires
        initial_entry(side, ex, st, bp, position) is None,
        !(calc_wallet_exposure(ex.c_mult, st.balance, side.spec_held(position), position.price)
            > bp.wallet_exposure_limit * fraction(999, 1000)),
        bp.entry_trailing_threshold_pct > zero(),
        bp.entry_trailing_retracement_pct > zero(),
    ensures
        ({
            let order = trailing_entry(side, ex, st, bp, position, trail);
            &&& !triggers(side, bp, position, trail) ==> order == (Order {
                qty: zero(),
                price: zero(),
                order_type: match side {
                    Side::Long => OrderType::EntryTrailingNormalLong,
                    Side::Short => OrderType::EntryTrailingNormalShort,
                },
            })
            &&& triggers(side, bp, position, trail) ==> {
                let least = min_entry_qty(order.price, ex);
                &&& Some(order.price) == trailing_price(side, ex, st, bp, position, trail)
                &&& !least.is_nan() ==> entered(side, order) >= least
            }
        }),
{
    law_trailing_reentry(side, ex, st, bp, position, trail);
    law_trailing_price_is_triggered(side, ex, st, bp, position, trail);
    if let Some(price) = trailing_price(side, ex, st, bp, position, trail) {
        let held = side.spec_held(position);
        let exposure = calc_wallet_exposure(ex.c_mult, st.balance, held, position.price);
        let factor = bp.entry_trailing_double_down_factor;
        let qty = full_reentry_qty(side, ex, st, bp, price, held, factor);
        if !min_entry_qty(price, ex).is_nan() {
            lemma_full_reentry_meets_minimum(side, ex, st, bp, price, held, factor);
            law_cropped_qty_meets_minimum(ex, bp, position, exposure, st.balance, qty, price);
        }
    }
}

/// A deeper low, or a higher high, never undoes a trigger: with the same return from it, the same
/// trailing order is due.
pub proof fn law_deeper_extreme_keeps_trigger(
    side: Side,
    ex: ExchangeParams,
    st: StateParams,
    bp: BotParams,
    position: Position,
    trail: TrailingPriceBundle,
    deeper: TrailingPriceBundle,
)
    requires
        bp.entry_trailing_threshold_pct > zero(),
        bp.entry_trailing_retracement_pct > zero(),
        triggers(side, bp, position, trail),
        match side {
            Side::Long => {
                let back = one() + bp.entry_trailing_retracement_pct;
                &&& deeper.min_since_open <= trail.min_since_open
                &&& deeper.max_since_min == trail.max_since_min
                &&& !(deeper.min_since_open * back).is_nan()
            },
            Side::Short => {
                let back = one() - bp.entry_trailing_retracement_pct;
                &&& deeper.max_since_open >= trail.max_since_open
                &&& deeper.min_since_max == trail.min_since_max
                &&& back >= zero()
                &&& !(deeper.max_since_open * back).is_nan()
            },
        },
    ensures
        trailing_entry(side, ex, st, bp, position, deeper) == trailing_entry(
            side,
            ex,
            st,
            bp,
            position,
            trail,
        ),
{
    match side {
        Side::Long => {
            let back = one() + bp.entry_trailing_retracement_pct;
            lemma_one_is_positive();
            assert(back >= zero()) by {
                lemma_add_is_number(one(), bp.entry_trailing_retracement_pct);
            }
            law_mul_monotone(deeper.min_since_open, trail.min_since_open, back);
        },
        Side::Short => {
            let back = one() - bp.entry_trailing_retracement_pct;
            law_mul_monotone(trail.max_since_open, deeper.max_since_open, back);
        },
    }
    assert(triggers(side, bp, position, deeper));
    assert(trailing_price(side, ex, st, bp, position, deeper) == trailing_price(
        side,
        ex,
        st,
        bp,
        position,
        trail,
    ));
}

/// A divergence entry buys the smallest quantity at the bid; it is due exactly where such entries
/// are enabled and the price made a lower low while the RSI rose by more than the tolerance.
pub proof fn law_divergence_entry(
    ex: ExchangeParams,
    st: StateParams,
    bp: BotParams,
    divergence: DivergenceBundle,
)
    ensures
        ({
            let order = divergence_entry(ex, st, bp, divergence);
            let due = bp.enable_divergence_entry && divergence.curr_low < divergence.prev_low
                && divergence.curr_rsi > divergence.prev_rsi + bp.divergence_rsi_tolerance;
            &&& due ==> order.qty == min_entry_qty(st.order_book.bid, ex)
            &&& due ==> order.price == st.order_book.bid
            &&& due ==> order.order_type == OrderType::EntryDivergenceLong
            &&& !due ==> order == (Order {
                qty: zero(),
                price: zero(),
                order_type: OrderType::Empty,
            })
        }),
{
}

/// A fill enlarges the position, and moves the price that its side joins to that of the order, if
/// that is further away. Nothing else changes.
pub proof fn law_fill(side: Side, market: Market, order: Order)
    ensures
        ({
            let after = market.step(side, order);
            let (size, price) = calc_new_psize_pprice(
                market.position.size,
                market.position.price,
                order.qty,
                order.price,
                market.exchange_params.qty_step,
            );
            let (old, new) = (market.state_params, after.state_params);
            &&& after.position == (Position { size, price })
            &&& after.exchange_params == market.exchange_params
            &&& after.bot_params == market.bot_params
            &&& after.trail == market.trail
            &&& after.divergence == market.divergence
            &&& new.balance == old.balance
            &&& new.ema_bands == old.ema_bands
            &&& match side {
                Side::Long => {
                    let (bid, joined) = (old.order_book.bid, new.order_book.bid);
                    &&& new.order_book.ask == old.order_book.ask
                    &&& joined == bid || joined == order.price
                    &&& !bid.is_nan() ==> joined <= bid
                    &&& !order.price.is_nan() ==> joined <= order.price
                },
                Side::Short => {
                    let (ask, joined) = (old.order_book.ask, new.order_book.ask);
                    &&& new.order_book.bid == old.order_book.bid
                    &&& joined == ask || joined == order.price
                    &&& !ask.is_nan() ==> joined >= ask
                    &&& !order.price.is_nan() ==> joined >= order.price
                },
            }
        }),
{
}

/// The market after several fills is that after the last of them in the market after the others.
pub proof fn law_after(side: Side, market: Market, entries: Seq<Order>, order: Order)
    ensures
        market.after(side, Seq::<Order>::empty()) == market,
        market.after(side, entries.push(order)) == market.after(side, entries).step(side, order),
{
    assert(entries.push(order).drop_last() =~= entries);
}

/// The next entry of a market is the one that its fields call for.
pub proof fn law_next(side: Side, market: Market)
    ensures
        market.next(side) == next_entry(
            side,
            market.exchange_params,
            market.state_params,
            market.bot_params,
            market.position,
            market.trail,
            market.divergence,
        ),
{
    reveal(Market::next);
}

/// Whether an order is of one of the two trailing types of a side.
pub open spec fn trails(side: Side, order: Order) -> bool {
    match side {
        Side::Long => order.order_type == OrderType::EntryTrailingNormalLong || order.order_type
            == OrderType::EntryTrailingCroppedLong,
        Side::Short => order.order_type == OrderType::EntryTrailingNormalShort || order.order_type
            == OrderType::EntryTrailingCroppedShort,
    }
}

/// Each planned entry is the next one after those before it have been filled. It has a quantity,
/// and if it is not the first it does not trail, and is at another price than the one before it.
/// No more than 500 are planned.
pub proof fn law_planned_entry_is_next(side: Side, market: Market, entries: Seq<Order>, i: int)
    requires
        market.plans(side, entries),
        0 <= i < entries.len(),
    ensures
        entries.len() <= 500,
        entries[i] == market.after(side, entries.take(i)).next(side),
        !entries[i].qty.equals(zero()),
        i > 0 ==> !trails(side, entries[i]) && !entries[i - 1].price.equals(entries[i].price),
{
    assert(market.follows_at(side, entries, i));
    if i > 0 {
        assert(entries.take(i).last() == entries[i - 1]);
    }
}

/// A plan of fewer than 500 entries is complete: once they are filled, the next entry has no
/// quantity, or it comes after others and trails or is at the price of the last of them.
pub proof fn law_plan_is_complete(side: Side, market: Market, entries: Seq<Order>)
    requires
        market.plans(side, entries),
        entries.len() < 500,
    ensures
        ({
            let next = market.after(side, entries).next(side);
            ||| next.qty.equals(zero())
            ||| entries.len() > 0 && trails(side, next)
            ||| entries.len() > 0 && entries[entries.len() - 1].price.equals(next.price)
        }),
{
}

/// No dust is left behind: once a plain re-entry has been filled, the next one is not cropped to
/// less than a quarter of the double down factor times the position, if the exposure is then what
/// it was expected to be.
#[verifier::spinoff_prover]
#[verifier::rlimit(100)]
pub proof fn law_no_dust_is_left(
    side: Side,
    ex: ExchangeParams,
    st: StateParams,
    bp: BotParams,
    position: Position,
    next: Position,
)
    requires
        has_budget(st, bp),
        initial_entry(side, ex, st, bp, position) is None,
        initial_entry(side, ex, st, bp, next) is None,
        ({
            let order = grid_entry(side, ex, st, bp, position);
            let again = grid_entry(side, ex, st, bp, next);
            let (size, price) = calc_new_psize_pprice(
                side.spec_held(position),
                position.price,
                entered(side, order),
                order.price,
                ex.qty_step,
            );
            &&& next == (Position { size, price })
            &&& next.size > zero()
            &&& calc_wallet_exposure(ex.c_mult, st.balance, next.size, next.price)
                == exposure_if_filled(
                ex,
                position,
                st.balance,
                entered(side, order),
                order.price,
            )
            &&& order.order_type == (match side {
                Side::Long => OrderType::EntryGridNormalLong,
                Side::Short => OrderType::EntryGridNormalShort,
            })
            &&& again.order_type == (match side {
                Side::Long => OrderType::EntryGridCroppedLong,
                Side::Short => OrderType::EntryGridCroppedShort,
            })
        }),
    ensures
        !(entered(side, grid_entry(side, ex, st, bp, next)) / next.size
            < bp.entry_grid_double_down_factor * fraction(1, 4)),
{
    assert(next.size.abs() == next.size);
    law_grid_reentry(side, ex, st, bp, position);
    law_grid_reentry(side, ex, st, bp, next);
}

} // verus!
