//! What holds of every entry and of every plan of entries.
use crate::binary64::Binary64;
use crate::binary64::INFINITE;
use crate::constants::decimal_scale;
use crate::constants::full_share;
use crate::constants::lemma_decimal_scale_is_positive;
use crate::constants::lemma_one_is_positive;
use crate::constants::limit_slack;
use crate::constants::one;
use crate::constants::zero;
use crate::monotone::law_add_commutes;
use crate::monotone::law_add_monotone;
use crate::monotone::law_ceil_monotone;
use crate::monotone::law_div_monotone;
use crate::monotone::law_floor_monotone;
use crate::monotone::law_mul_commutes;
use crate::monotone::law_mul_monotone;
use crate::monotone::law_negated_reverses;
use crate::monotone::law_round_monotone;
use crate::monotone::lemma_add_is_number;
use crate::monotone::lemma_div_is_number;
use crate::monotone::lemma_mul_is_number;
use crate::monotone::lemma_whole_is_number;
use crate::rounding::lemma_units_order;
use crate::rules::cropped_qty;
use crate::rules::divergence_entry;
use crate::rules::exposure_if_filled;
use crate::rules::exposure_of;
use crate::rules::full_reentry_qty;
use crate::rules::grid_entry;
use crate::rules::grid_reentry;
use crate::rules::initial_entry;
use crate::rules::initial_entry_price;
use crate::rules::initial_entry_qty;
use crate::rules::is_trailing;
use crate::rules::min_entry_qty;
use crate::rules::next_entry;
use crate::rules::no_budget;
use crate::rules::plan;
use crate::rules::qty_to_limit;
use crate::rules::reentry_price;
use crate::rules::reentry_qty;
use crate::rules::reentry_target;
use crate::rules::trailing_entry;
use crate::rules::trailing_price;
use crate::rules::trailing_reentry;
use crate::rules::widening;
use crate::rules::with_limit;
use crate::rules::MAX_ENTRIES;
use crate::rules::Market;
use crate::rules::Plan;
use crate::side::Kind;
use crate::side::Side;
use crate::types::BotParams;
use crate::types::DivergenceBundle;
use crate::types::ExchangeParams;
use crate::types::Order;
use crate::types::OrderType;
use crate::types::Position;
use crate::types::StateParams;
use crate::types::TrailingPriceBundle;
use crate::utils::cost_to_qty;
use crate::utils::round_;
use crate::utils::round_dn;
use crate::utils::round_up;
use crate::utils::to_decimals;
use vstd::prelude::*;

verus! {

/// Without an exposure limit or a balance there is no entry, and nothing is planned.
pub proof fn law_no_budget_no_entry(side: Side, market: Market, entries: Seq<Order>)
    requires
        no_budget(market.state_params, market.bot_params),
    ensures
        market.next(side) == Order::none(),
        grid_entry(
            side,
            market.exchange_params,
            market.state_params,
            market.bot_params,
            market.position,
        ) == Order::none(),
        market.plans(side, entries) <==> entries =~= Seq::<Order>::empty(),
{
    reveal(Market::next);
    assert(market.next(side) == Order::none());
    if market.plans(side, entries) {
        if entries.len() > 0 {
            assert(market.follows_at(side, entries, 0));
            assert(entries.take(0) =~= Seq::<Order>::empty());
            assert(entries[0] == market.after(side, entries.take(0)).next(side));
        }
    }
}

/// Whether an entry at `price` does not cross the book: a buy is not above the bid, and a sale
/// is not below the ask.
pub open spec fn behind_book(side: Side, book_price: Binary64, price: Binary64) -> bool {
    match side {
        Side::Long => price <= book_price,
        Side::Short => price >= book_price,
    }
}

proof fn lemma_initial_behind_book(
    side: Side,
    ex: ExchangeParams,
    st: StateParams,
    bp: BotParams,
)
    requires
        !side.spec_book_price(st).is_nan(),
    ensures
        behind_book(
            side,
            side.spec_book_price(st),
            initial_entry_price(side, ex, st, bp),
        ),
{
}

/// The price of a grid re-entry is either none, or above the first price step and behind the
/// book.
pub proof fn law_reentry_price_in_range(
    side: Side,
    position_price: Binary64,
    exposure: Binary64,
    book_price: Binary64,
    ex: ExchangeParams,
    bp: BotParams,
)
    requires
        !book_price.is_nan(),
    ensures
        ({
            let price = reentry_price(side, position_price, exposure, book_price, ex, bp);
            ||| price == zero()
            ||| behind_book(side, book_price, price) && (ex.price_step.is_nan() || price
                > ex.price_step)
        }),
{
}

proof fn lemma_grid_behind_book(
    side: Side,
    ex: ExchangeParams,
    st: StateParams,
    bp: BotParams,
    position: Position,
)
    requires
        !side.spec_book_price(st).is_nan(),
    ensures
        ({
            let order = grid_entry(side, ex, st, bp, position);
            order.qty.equals(zero()) || behind_book(side, side.spec_book_price(st), order.price)
        }),
{
    lemma_initial_behind_book(side, ex, st, bp);
    law_reentry_price_in_range(
        side,
        position.price,
        exposure_of(side, ex, st, position),
        side.spec_book_price(st),
        ex,
        bp,
    );
}

proof fn lemma_trailing_behind_book(
    side: Side,
    ex: ExchangeParams,
    st: StateParams,
    bp: BotParams,
    position: Position,
    trail: TrailingPriceBundle,
)
    requires
        !side.spec_book_price(st).is_nan(),
    ensures
        ({
            let order = trailing_entry(side, ex, st, bp, position, trail);
            order.qty.equals(zero()) || behind_book(side, side.spec_book_price(st), order.price)
        }),
{
    lemma_initial_behind_book(side, ex, st, bp);
    assert(trailing_price(side, ex, st, bp, position, trail) matches Some(price) ==> behind_book(
        side,
        side.spec_book_price(st),
        price,
    ));
}

/// No entry crosses the book: whenever the book has a price, a buy of any quantity is not above
/// the bid, and a sale is not below the ask.
pub proof fn law_entry_behind_book(
    side: Side,
    ex: ExchangeParams,
    st: StateParams,
    bp: BotParams,
    position: Position,
    trail: TrailingPriceBundle,
    divergence: Option<DivergenceBundle>,
)
    requires
        !side.spec_book_price(st).is_nan(),
        divergence is Some ==> side == Side::Long,
    ensures
        ({
            let order = next_entry(side, ex, st, bp, position, trail, divergence);
            order.qty.equals(zero()) || behind_book(side, side.spec_book_price(st), order.price)
        }),
{
    match plan(side, ex, st, bp, position) {
        Plan::Nothing => {},
        Plan::Grid(limit) => {
            lemma_grid_behind_book(side, ex, st, with_limit(bp, limit), position);
        },
        Plan::Trailing(limit) => {
            lemma_trailing_behind_book(side, ex, st, with_limit(bp, limit), position, trail);
        },
    }
}

/// Whether the side has a book to join, and divergence entries only where it can have them.
pub open spec fn has_book(side: Side, market: Market) -> bool {
    &&& !side.spec_book_price(market.state_params).is_nan()
    &&& market.divergence is Some ==> side == Side::Long
}

proof fn lemma_follows_take(side: Side, market: Market, entries: Seq<Order>, n: int)
    requires
        market.follows(side, entries),
        0 <= n <= entries.len(),
    ensures
        market.follows(side, entries.take(n)),
{
    let shorter = entries.take(n);
    assert forall|i: int| 0 <= i < shorter.len() implies #[trigger] market.follows_at(
        side,
        shorter,
        i,
    ) by {
        assert(market.follows_at(side, entries, i));
        assert(shorter.take(i) =~= entries.take(i));
        assert(shorter[i] == entries[i]);
    }
}

/// The next planned entry is behind the book that the entries before it have left.
proof fn lemma_planned_behind_book(side: Side, market: Market, entries: Seq<Order>, i: int)
    requires
        market.follows(side, entries),
        0 <= i < entries.len(),
        has_book(side, market.after(side, entries.take(i))),
    ensures
        behind_book(
            side,
            side.spec_book_price(market.after(side, entries.take(i)).state_params),
            entries[i].price,
        ),
{
    let ahead = market.after(side, entries.take(i));
    assert(market.follows_at(side, entries, i));
    assert(entries[i].qty.equals(zero()) || behind_book(
        side,
        side.spec_book_price(ahead.state_params),
        entries[i].price,
    )) by {
        reveal(Market::next);
        law_entry_behind_book(
            side,
            ahead.exchange_params,
            ahead.state_params,
            ahead.bot_params,
            ahead.position,
            ahead.trail,
            ahead.divergence,
        );
    }
}

/// Planned entries move the book to the price of the last one.
proof fn lemma_book_after(side: Side, market: Market, entries: Seq<Order>)
    requires
        market.follows(side, entries),
        has_book(side, market),
    ensures
        has_book(side, market.after(side, entries)),
        entries.len() > 0 ==> side.spec_book_price(
            market.after(side, entries).state_params,
        ).equals(entries.last().price),
    decreases entries.len(),
{
    if entries.len() > 0 {
        let n = entries.len() - 1;
        let before = entries.drop_last();
        assert(before =~= entries.take(n));
        lemma_follows_take(side, market, entries, n);
        lemma_book_after(side, market, before);
        lemma_planned_behind_book(side, market, entries, n);
    }
}

/// Whether `later` is a better price than `earlier`: lower for buys, higher for sales.
pub open spec fn improves(side: Side, earlier: Binary64, later: Binary64) -> bool {
    match side {
        Side::Long => later < earlier,
        Side::Short => later > earlier,
    }
}

/// Each planned entry is at a better price than all before it: the prices of buys fall, and
/// those of sales rise.
pub proof fn law_planned_prices_improve(
    side: Side,
    market: Market,
    entries: Seq<Order>,
    i: int,
    j: int,
)
    requires
        market.plans(side, entries),
        has_book(side, market),
        0 <= i < j < entries.len(),
    ensures
        improves(side, entries[i].price, entries[j].price),
    decreases j - i,
{
    let before = entries.take(j);
    lemma_follows_take(side, market, entries, j);
    lemma_book_after(side, market, before);
    lemma_planned_behind_book(side, market, entries, j);
    assert(before.last() == entries[j - 1]);
    assert(market.follows_at(side, entries, j));
    assert(improves(side, entries[j - 1].price, entries[j].price));
    if i < j - 1 {
        law_planned_prices_improve(side, market, entries, i, j - 1);
    }
}

/// No planned entry crosses the book that the plan starts from.
pub proof fn law_planned_behind_book(side: Side, market: Market, entries: Seq<Order>, i: int)
    requires
        market.plans(side, entries),
        has_book(side, market),
        0 <= i < entries.len(),
    ensures
        behind_book(side, side.spec_book_price(market.state_params), entries[i].price),
{
    assert(entries.take(0) =~= Seq::<Order>::empty());
    lemma_planned_behind_book(side, market, entries, 0);
    if i > 0 {
        law_planned_prices_improve(side, market, entries, 0, i);
    }
}

/// Every planned entry has a quantity, and only the first can be a trailing entry.
pub proof fn law_planned_entries_have_quantity(
    side: Side,
    market: Market,
    entries: Seq<Order>,
    i: int,
)
    requires
        market.plans(side, entries),
        0 <= i < entries.len(),
    ensures
        !entries[i].qty.equals(zero()),
        i > 0 ==> !is_trailing(side, entries[i]),
{
    assert(market.follows_at(side, entries, i));
}

/// There is only one plan for a market.
pub proof fn law_plan_is_unique(side: Side, market: Market, a: Seq<Order>, b: Seq<Order>)
    requires
        market.plans(side, a),
        market.plans(side, b),
    ensures
        a =~= b,
{
    lemma_common_start(side, market, a, b, if a.len() <= b.len() {
        a.len()
    } else {
        b.len()
    });
    if a.len() < b.len() {
        assert(a.take(a.len() as int) =~= a);
        assert(market.follows_at(side, b, a.len() as int));
    } else if b.len() < a.len() {
        assert(b.take(b.len() as int) =~= b);
        assert(market.follows_at(side, a, b.len() as int));
    } else {
        assert(a.take(a.len() as int) =~= a);
        assert(b.take(b.len() as int) =~= b);
    }
}

proof fn lemma_common_start(side: Side, market: Market, a: Seq<Order>, b: Seq<Order>, n: nat)
    requires
        market.follows(side, a),
        market.follows(side, b),
        n <= a.len(),
        n <= b.len(),
    ensures
        a.take(n as int) =~= b.take(n as int),
    decreases n,
{
    if n > 0 {
        let m = (n - 1) as nat;
        lemma_common_start(side, market, a, b, m);
        assert(market.follows_at(side, a, m as int));
        assert(market.follows_at(side, b, m as int));
        assert forall|i: int| 0 <= i < n implies a[i] == b[i] by {
            if i < m {
                assert(a.take(m as int)[i] == b.take(m as int)[i]);
            }
        }
    }
}

/// The number of contracts that an order enters.
pub open spec fn entered(side: Side, order: Order) -> Binary64 {
    match side {
        Side::Long => order.qty,
        Side::Short => order.qty.negated(),
    }
}

/// Whether an order is of no smaller quantity than the exchange takes at its price.
pub open spec fn meets_minimum(side: Side, ex: ExchangeParams, order: Order) -> bool {
    entered(side, order) >= min_entry_qty(order.price, ex)
}

proof fn lemma_max(a: Binary64, b: Binary64)
    requires
        !a.is_nan(),
    ensures
        a.max(b) >= a,
        b.max(a) >= a,
{
}

proof fn lemma_at_least_transitive(a: Binary64, b: Binary64, c: Binary64)
    requires
        a >= b,
        b >= c,
    ensures
        a >= c,
{
}

/// What the exchange takes at a price is no less than its smallest quantity.
pub proof fn law_minimum_at_least_smallest(ex: ExchangeParams, price: Binary64)
    requires
        !ex.min_qty.is_nan(),
    ensures
        min_entry_qty(price, ex) >= ex.min_qty,
{
}

proof fn lemma_order_meets_minimum(
    side: Side,
    ex: ExchangeParams,
    kind: Kind,
    qty: Binary64,
    price: Binary64,
)
    requires
        qty >= min_entry_qty(price, ex),
    ensures
        meets_minimum(side, ex, side.order(kind, qty, price)),
{
    assert(qty.negated().negated() == qty);
}

/// The first entry is of no smaller quantity than the exchange takes.
pub proof fn law_initial_qty_meets_minimum(
    ex: ExchangeParams,
    bp: BotParams,
    balance: Binary64,
    price: Binary64,
)
    requires
        !min_entry_qty(price, ex).is_nan(),
    ensures
        initial_entry_qty(ex, bp, balance, price) >= min_entry_qty(price, ex),
{
}

/// A re-entry is of no smaller quantity than the exchange takes.
pub proof fn law_reentry_qty_meets_minimum(
    price: Binary64,
    balance: Binary64,
    position_size: Binary64,
    factor: Binary64,
    ex: ExchangeParams,
    bp: BotParams,
)
    requires
        !min_entry_qty(price, ex).is_nan(),
    ensures
        reentry_qty(price, balance, position_size, factor, ex, bp) >= min_entry_qty(price, ex),
{
}

/// Cropping leaves no smaller quantity than the exchange takes.
pub proof fn law_cropped_qty_meets_minimum(
    ex: ExchangeParams,
    bp: BotParams,
    position: Position,
    exposure: Binary64,
    balance: Binary64,
    entry_qty: Binary64,
    price: Binary64,
)
    requires
        !min_entry_qty(price, ex).is_nan(),
    ensures
        cropped_qty(ex, bp, position, exposure, balance, entry_qty, price) >= min_entry_qty(
            price,
            ex,
        ),
{
}

/// An entry is cropped only where it would exceed the exposure limit by more than the slack.
pub proof fn law_cropped_only_past_limit(
    ex: ExchangeParams,
    bp: BotParams,
    position: Position,
    exposure: Binary64,
    balance: Binary64,
    entry_qty: Binary64,
    price: Binary64,
)
    requires
        cropped_qty(ex, bp, position, exposure, balance, entry_qty, price) < entry_qty,
    ensures
        exposure_if_filled(ex, position, balance, entry_qty, price) > bp.wallet_exposure_limit
            * limit_slack(),
{
    let least = min_entry_qty(price, ex);
    assert(entry_qty.abs() >= entry_qty);
    lemma_max(entry_qty.abs(), least);
}

/// An entry that is not cropped stays within the exposure limit and its slack, unless cropping
/// would leave no less of it: because the exchange takes no less, or because the quantity that
/// meets the limit is no smaller once rounded.
pub proof fn law_uncropped_within_limit(
    ex: ExchangeParams,
    bp: BotParams,
    position: Position,
    exposure: Binary64,
    balance: Binary64,
    entry_qty: Binary64,
    price: Binary64,
)
    requires
        !min_entry_qty(price, ex).is_nan(),
        !entry_qty.is_nan(),
        !(cropped_qty(ex, bp, position, exposure, balance, entry_qty, price) < entry_qty),
    ensures
        ({
            let filled = exposure_if_filled(ex, position, balance, entry_qty, price);
            let size = position.size.abs();
            let to_limit = qty_to_limit(bp, size, entry_qty.abs(), exposure, filled);
            ||| !(filled > bp.wallet_exposure_limit * limit_slack())
            ||| min_entry_qty(price, ex) >= entry_qty
            ||| round_(to_limit, ex.qty_step) >= entry_qty
        }),
{
}

proof fn lemma_initial_meets_minimum(
    side: Side,
    ex: ExchangeParams,
    st: StateParams,
    bp: BotParams,
    position: Position,
)
    ensures
        initial_entry(side, ex, st, bp, position) matches Some(order) ==> {
            ||| order.qty.equals(zero())
            ||| min_entry_qty(order.price, ex).is_nan()
            ||| meets_minimum(side, ex, order)
        },
{
    let price = initial_entry_price(side, ex, st, bp);
    let qty = initial_entry_qty(ex, bp, st.balance, price);
    let held = side.spec_held(position);
    let least = min_entry_qty(price, ex);
    let missing = least.max(round_dn(qty - held, ex.qty_step));
    if !least.is_nan() {
        law_initial_qty_meets_minimum(ex, bp, st.balance, price);
        lemma_max(least, round_dn(qty - held, ex.qty_step));
        lemma_order_meets_minimum(side, ex, Kind::InitialNormal, qty, price);
        lemma_order_meets_minimum(side, ex, Kind::InitialPartial, missing, price);
    }
}

pub proof fn lemma_full_reentry_meets_minimum(
    side: Side,
    ex: ExchangeParams,
    st: StateParams,
    bp: BotParams,
    price: Binary64,
    held: Binary64,
    factor: Binary64,
)
    requires
        !min_entry_qty(price, ex).is_nan(),
    ensures
        full_reentry_qty(side, ex, st, bp, price, held, factor) >= min_entry_qty(price, ex),
{
    let qty = reentry_qty(price, st.balance, held, factor, ex, bp);
    let first = initial_entry_qty(ex, bp, st.balance, initial_entry_price(side, ex, st, bp));
    law_reentry_qty_meets_minimum(price, st.balance, held, factor, ex, bp);
    lemma_max(qty, first);
    lemma_at_least_transitive(qty.max(first), qty, min_entry_qty(price, ex));
}

proof fn lemma_grid_reentry_meets_minimum(
    side: Side,
    ex: ExchangeParams,
    st: StateParams,
    bp: BotParams,
    position: Position,
)
    ensures
        ({
            let order = grid_reentry(side, ex, st, bp, position);
            ||| order.qty.equals(zero())
            ||| min_entry_qty(order.price, ex).is_nan()
            ||| order.order_type == side.order_type(Kind::GridInflated)
            ||| meets_minimum(side, ex, order)
        }),
{
    let held = side.spec_held(position);
    let exposure = exposure_of(side, ex, st, position);
    let book_price = side.spec_book_price(st);
    let price = reentry_price(side, position.price, exposure, book_price, ex, bp);
    let factor = bp.entry_grid_double_down_factor;
    let qty = full_reentry_qty(side, ex, st, bp, price, held, factor);
    let cropped = cropped_qty(ex, bp, position, exposure, st.balance, qty, price);
    if !min_entry_qty(price, ex).is_nan() {
        lemma_full_reentry_meets_minimum(side, ex, st, bp, price, held, factor);
        law_cropped_qty_meets_minimum(ex, bp, position, exposure, st.balance, qty, price);
        lemma_order_meets_minimum(side, ex, Kind::GridCropped, cropped, price);
        lemma_order_meets_minimum(side, ex, Kind::GridNormal, qty, price);
    }
}

proof fn lemma_trailing_reentry_meets_minimum(
    side: Side,
    ex: ExchangeParams,
    st: StateParams,
    bp: BotParams,
    position: Position,
    trail: TrailingPriceBundle,
)
    ensures
        ({
            let order = trailing_reentry(side, ex, st, bp, position, trail);
            ||| order.qty.equals(zero())
            ||| min_entry_qty(order.price, ex).is_nan()
            ||| meets_minimum(side, ex, order)
        }),
{
    if let Some(price) = trailing_price(side, ex, st, bp, position, trail) {
        let held = side.spec_held(position);
        let exposure = exposure_of(side, ex, st, position);
        let factor = bp.entry_trailing_double_down_factor;
        let qty = full_reentry_qty(side, ex, st, bp, price, held, factor);
        let cropped = cropped_qty(ex, bp, position, exposure, st.balance, qty, price);
        if !min_entry_qty(price, ex).is_nan() {
            lemma_full_reentry_meets_minimum(side, ex, st, bp, price, held, factor);
            law_cropped_qty_meets_minimum(ex, bp, position, exposure, st.balance, qty, price);
            lemma_order_meets_minimum(side, ex, Kind::TrailingCropped, cropped, price);
            lemma_order_meets_minimum(side, ex, Kind::TrailingNormal, qty, price);
        }
    }
}

/// The exchange takes every entry: but for an inflated grid entry, no entry of any quantity is
/// smaller than the exchange takes at its price, if that is a number.
pub proof fn law_entry_meets_minimum(
    side: Side,
    ex: ExchangeParams,
    st: StateParams,
    bp: BotParams,
    position: Position,
    trail: TrailingPriceBundle,
    divergence: Option<DivergenceBundle>,
)
    requires
        divergence is Some ==> side == Side::Long,
    ensures
        ({
            let order = next_entry(side, ex, st, bp, position, trail, divergence);
            ||| order.qty.equals(zero())
            ||| min_entry_qty(order.price, ex).is_nan()
            ||| order.order_type == side.order_type(Kind::GridInflated)
            ||| meets_minimum(side, ex, order)
        }),
{
    match plan(side, ex, st, bp, position) {
        Plan::Nothing => {},
        Plan::Grid(limit) => {
            let limited = with_limit(bp, limit);
            lemma_initial_meets_minimum(side, ex, st, limited, position);
            lemma_grid_reentry_meets_minimum(side, ex, st, limited, position);
        },
        Plan::Trailing(limit) => {
            let limited = with_limit(bp, limit);
            lemma_initial_meets_minimum(side, ex, st, limited, position);
            lemma_trailing_reentry_meets_minimum(side, ex, st, limited, position, trail);
        },
    }
}

/// An entry that the exchange takes goes the way of its side: where the smallest quantity is
/// positive, a buy has a positive quantity and a sale a negative one.
pub proof fn law_entry_has_its_sign(side: Side, ex: ExchangeParams, order: Order)
    requires
        ex.min_qty > zero(),
        meets_minimum(side, ex, order),
    ensures
        match side {
            Side::Long => order.qty > zero(),
            Side::Short => order.qty < zero(),
        },
{
    law_minimum_at_least_smallest(ex, order.price);
    let qty = order.qty;
    assert(qty.negated().value() == -qty.value());
}

/// Whether an order type is one of a side's entries.
pub open spec fn belongs_to(side: Side, order_type: OrderType) -> bool {
    ||| exists|kind: Kind| order_type == #[trigger] side.order_type(kind)
    ||| side == Side::Long && order_type == OrderType::EntryDivergenceLong
}

/// An entry is of a type of its side, or there is none.
pub proof fn law_entry_is_of_its_side(
    side: Side,
    ex: ExchangeParams,
    st: StateParams,
    bp: BotParams,
    position: Position,
    trail: TrailingPriceBundle,
    divergence: Option<DivergenceBundle>,
)
    requires
        divergence is Some ==> side == Side::Long,
    ensures
        ({
            let order = next_entry(side, ex, st, bp, position, trail, divergence);
            order == Order::none() || belongs_to(side, order.order_type)
        }),
{
}

/// Every planned entry is one that the exchange takes, but for inflated grid entries and prices
/// at which the minimum is not a number.
pub proof fn law_planned_meets_minimum(side: Side, market: Market, entries: Seq<Order>, i: int)
    requires
        market.plans(side, entries),
        market.divergence is Some ==> side == Side::Long,
        0 <= i < entries.len(),
        !min_entry_qty(entries[i].price, market.exchange_params).is_nan(),
    ensures
        entries[i].order_type == side.order_type(Kind::GridInflated) || meets_minimum(
            side,
            market.exchange_params,
            entries[i],
        ),
{
    let ahead = market.after(side, entries.take(i));
    assert(market.follows_at(side, entries, i));
    law_filling_keeps_settings(side, market, entries.take(i));
    assert(entries[i].qty.equals(zero()) || entries[i].order_type == side.order_type(
        Kind::GridInflated,
    ) || meets_minimum(side, market.exchange_params, entries[i])) by {
        reveal(Market::next);
        law_entry_meets_minimum(
            side,
            ahead.exchange_params,
            ahead.state_params,
            ahead.bot_params,
            ahead.position,
            ahead.trail,
            ahead.divergence,
        );
    }
}

/// Filling entries changes the position and the price that the side joins, and nothing else.
pub proof fn law_filling_keeps_settings(side: Side, market: Market, entries: Seq<Order>)
    ensures
        ({
            let ahead = market.after(side, entries);
            let (before, after) = (market.state_params, ahead.state_params);
            &&& ahead.exchange_params == market.exchange_params
            &&& ahead.bot_params == market.bot_params
            &&& ahead.trail == market.trail
            &&& ahead.divergence == market.divergence
            &&& after.balance == before.balance
            &&& after.ema_bands == before.ema_bands
            &&& match side {
                Side::Long => after.order_book.ask == before.order_book.ask,
                Side::Short => after.order_book.bid == before.order_book.bid,
            }
        }),
    decreases entries.len(),
{
    if entries.len() > 0 {
        law_filling_keeps_settings(side, market, entries.drop_last());
    }
}

/// With a trailing grid ratio of zero every entry is one of the grid.
pub proof fn law_zero_ratio_is_grid_only(
    side: Side,
    ex: ExchangeParams,
    st: StateParams,
    bp: BotParams,
    position: Position,
    trail: TrailingPriceBundle,
    divergence: Option<DivergenceBundle>,
)
    requires
        bp.entry_trailing_grid_ratio.equals(zero()),
    ensures
        next_entry(side, ex, st, bp, position, trail, divergence) == grid_entry(
            side,
            ex,
            st,
            bp,
            position,
        ),
{
    assert(with_limit(bp, bp.wallet_exposure_limit) == bp);
    lemma_one_is_positive();
}

/// With a trailing grid ratio of one or beyond, on either side of zero, no entry is one of the
/// grid.
pub proof fn law_full_ratio_is_trailing_only(
    side: Side,
    ex: ExchangeParams,
    st: StateParams,
    bp: BotParams,
    position: Position,
    trail: TrailingPriceBundle,
    divergence: Option<DivergenceBundle>,
)
    requires
        !no_budget(st, bp),
        bp.entry_trailing_grid_ratio >= one() || bp.entry_trailing_grid_ratio <= one().negated(),
    ensures
        next_entry(side, ex, st, bp, position, trail, divergence) == (match divergence {
            Some(bundle) if bp.enable_divergence_entry => divergence_entry(ex, st, bp, bundle),
            _ => trailing_entry(side, ex, st, bp, position, trail),
        }),
{
    assert(with_limit(bp, bp.wallet_exposure_limit) == bp);
}

/// An opened position that has reached the exposure limit gets no grid entry, and one past it
/// no trailing entry.
pub proof fn law_full_position_gets_no_entry(
    side: Side,
    ex: ExchangeParams,
    st: StateParams,
    bp: BotParams,
    position: Position,
    trail: TrailingPriceBundle,
)
    requires
        initial_entry(side, ex, st, bp, position) is None,
    ensures
        exposure_of(side, ex, st, position) >= bp.wallet_exposure_limit * full_share()
            ==> grid_entry(side, ex, st, bp, position) == Order::none(),
        exposure_of(side, ex, st, position) > bp.wallet_exposure_limit * full_share()
            ==> trailing_entry(side, ex, st, bp, position, trail) == Order::none(),
{
}

/// A divergence entry is due exactly where it is enabled and the price made a lower low while the
/// RSI rose by more than the tolerance.
pub proof fn law_divergence_entry_iff(
    ex: ExchangeParams,
    st: StateParams,
    bp: BotParams,
    divergence: DivergenceBundle,
)
    ensures
        divergence_entry(ex, st, bp, divergence) != Order::none() <==> {
            &&& bp.enable_divergence_entry
            &&& divergence.curr_low < divergence.prev_low
            &&& divergence.curr_rsi > divergence.prev_rsi + bp.divergence_rsi_tolerance
        },
{
}

/// Freeing numbers of decimals past the last keeps their order.
proof fn lemma_to_decimals_monotone(x: Binary64, y: Binary64)
    requires
        x <= y,
        !to_decimals(x).is_nan(),
        !to_decimals(y).is_nan(),
    ensures
        to_decimals(x) <= to_decimals(y),
{
    let scale = decimal_scale();
    lemma_decimal_scale_is_positive();
    law_mul_monotone(x, y, scale);
    law_round_monotone(x * scale, y * scale);
    law_div_monotone((x * scale).round(), (y * scale).round(), scale);
}

proof fn lemma_to_decimals_is_number(x: Binary64)
    requires
        !x.is_nan(),
    ensures
        !to_decimals(x).is_nan(),
{
    let scale = decimal_scale();
    lemma_decimal_scale_is_positive();
    lemma_mul_is_number(x, scale);
    lemma_whole_is_number(x * scale);
    lemma_div_is_number((x * scale).round(), scale);
}

/// Nothing is a number once it has been rounded to a step of zero.
proof fn lemma_no_step(whole: Binary64, step: Binary64)
    requires
        step.value() == 0,
        whole.is_nan() || whole.is_infinite(),
    ensures
        to_decimals(whole * step).is_nan(),
{
}

/// Rounding prices up to a step keeps their order.
pub proof fn law_round_up_monotone(n: Binary64, m: Binary64, step: Binary64)
    requires
        n <= m,
        step >= zero(),
        !round_up(n, step).is_nan(),
        !round_up(m, step).is_nan(),
    ensures
        round_up(n, step) <= round_up(m, step),
{
    if step.value() == 0 {
        lemma_no_step((n / step).ceil(), step);
    } else {
        law_div_monotone(n, m, step);
        law_ceil_monotone(n / step, m / step);
        law_mul_monotone((n / step).ceil(), (m / step).ceil(), step);
        lemma_to_decimals_monotone((n / step).ceil() * step, (m / step).ceil() * step);
    }
}

/// Rounding prices down to a step keeps their order.
pub proof fn law_round_dn_monotone(n: Binary64, m: Binary64, step: Binary64)
    requires
        n <= m,
        step >= zero(),
        !round_dn(n, step).is_nan(),
        !round_dn(m, step).is_nan(),
    ensures
        round_dn(n, step) <= round_dn(m, step),
{
    if step.value() == 0 {
        lemma_no_step((n / step).floor(), step);
    } else {
        law_div_monotone(n, m, step);
        law_floor_monotone(n / step, m / step);
        law_mul_monotone((n / step).floor(), (m / step).floor(), step);
        lemma_to_decimals_monotone((n / step).floor() * step, (m / step).floor() * step);
    }
}

/// Rounding quantities to a step keeps their order.
pub proof fn law_round_to_step_monotone(n: Binary64, m: Binary64, step: Binary64)
    requires
        n <= m,
        step >= zero(),
        !round_(n, step).is_nan(),
        !round_(m, step).is_nan(),
    ensures
        round_(n, step) <= round_(m, step),
{
    if step.value() == 0 {
        lemma_no_step((n / step).round(), step);
    } else {
        law_div_monotone(n, m, step);
        law_round_monotone(n / step, m / step);
        law_mul_monotone((n / step).round(), (m / step).round(), step);
        lemma_to_decimals_monotone((n / step).round() * step, (m / step).round() * step);
    }
}

/// The larger of two numbers grows with either.
proof fn lemma_max_monotone(c: Binary64, a: Binary64, b: Binary64)
    requires
        a <= b,
        !c.is_nan(),
    ensures
        c.max(a) <= c.max(b),
        a.max(c) <= b.max(c),
{
}

/// A larger share never makes the first entry smaller.
pub proof fn law_larger_share_is_no_smaller(
    ex: ExchangeParams,
    poor: BotParams,
    rich: BotParams,
    less: Binary64,
    more: Binary64,
    price: Binary64,
)
    requires
        less * poor.wallet_exposure_limit * poor.entry_initial_qty_pct <= more
            * rich.wallet_exposure_limit * rich.entry_initial_qty_pct,
        price.is_finite(),
        ex.c_mult > zero(),
        ex.c_mult.is_finite(),
        ex.qty_step > zero(),
        ex.qty_step.is_finite(),
        !min_entry_qty(price, ex).is_nan(),
    ensures
        initial_entry_qty(ex, poor, less, price) <= initial_entry_qty(ex, rich, more, price),
{
    let least = min_entry_qty(price, ex);
    let a = less * poor.wallet_exposure_limit * poor.entry_initial_qty_pct;
    let b = more * rich.wallet_exposure_limit * rich.entry_initial_qty_pct;
    let (x, y) = (cost_to_qty(a, price, ex.c_mult), cost_to_qty(b, price, ex.c_mult));
    if price > zero() {
        lemma_div_is_number(a, price);
        lemma_div_is_number(b, price);
        law_div_monotone(a, b, price);
        lemma_div_is_number(a / price, ex.c_mult);
        lemma_div_is_number(b / price, ex.c_mult);
        law_div_monotone(a / price, b / price, ex.c_mult);
    }
    assert(x <= y);
    lemma_round_is_number(x, ex.qty_step);
    lemma_round_is_number(y, ex.qty_step);
    law_round_to_step_monotone(x, y, ex.qty_step);
    lemma_max_monotone(least, round_(x, ex.qty_step), round_(y, ex.qty_step));
}

/// Rounding a number to a positive step gives a number.
proof fn lemma_round_is_number(n: Binary64, step: Binary64)
    requires
        !n.is_nan(),
        step > zero(),
        step.is_finite(),
    ensures
        !round_(n, step).is_nan(),
{
    lemma_div_is_number(n, step);
    lemma_whole_is_number(n / step);
    lemma_mul_is_number((n / step).round(), step);
    lemma_to_decimals_is_number((n / step).round() * step);
}

/// A larger position never makes the re-entry smaller.
pub proof fn law_larger_position_is_no_smaller(
    price: Binary64,
    balance: Binary64,
    small: Binary64,
    large: Binary64,
    factor: Binary64,
    ex: ExchangeParams,
    bp: BotParams,
)
    requires
        small.abs() <= large.abs(),
        factor >= zero(),
        factor.is_finite(),
        large.is_finite(),
        ex.qty_step > zero(),
        ex.qty_step.is_finite(),
        !min_entry_qty(price, ex).is_nan(),
        !(cost_to_qty(balance, price, ex.c_mult) * bp.wallet_exposure_limit
            * bp.entry_initial_qty_pct).is_nan(),
    ensures
        reentry_qty(price, balance, small, factor, ex, bp) <= reentry_qty(
            price,
            balance,
            large,
            factor,
            ex,
            bp,
        ),
{
    let least = min_entry_qty(price, ex);
    let first = cost_to_qty(balance, price, ex.c_mult) * bp.wallet_exposure_limit
        * bp.entry_initial_qty_pct;
    let (a, b) = (small.abs() * factor, large.abs() * factor);
    assert(small.is_finite()) by {
        lemma_finite_below(small, large);
    }
    lemma_mul_is_number(small.abs(), factor);
    lemma_mul_is_number(large.abs(), factor);
    law_mul_monotone(small.abs(), large.abs(), factor);
    lemma_max_monotone(first, a, b);
    let (x, y) = (a.max(first), b.max(first));
    lemma_round_is_number(x, ex.qty_step);
    lemma_round_is_number(y, ex.qty_step);
    law_round_to_step_monotone(x, y, ex.qty_step);
    lemma_max_monotone(least, round_(x, ex.qty_step), round_(y, ex.qty_step));
}

proof fn lemma_finite_below(small: Binary64, large: Binary64)
    requires
        small.abs() <= large.abs(),
        large.is_finite(),
    ensures
        small.is_finite(),
{
    lemma_units_order(large.position(), INFINITE as nat);
    lemma_units_order(small.position(), INFINITE as nat);
}

/// More exposure never narrows the distance of the next grid re-entry.
proof fn lemma_distance_monotone(w1: Binary64, w2: Binary64, bp: BotParams)
    requires
        w1 <= w2,
        bp.wallet_exposure_limit > zero(),
        bp.entry_grid_spacing_weight >= zero(),
        bp.entry_grid_spacing_pct >= zero(),
        !(bp.entry_grid_spacing_pct * widening(w1, bp)).is_nan(),
        !(bp.entry_grid_spacing_pct * widening(w2, bp)).is_nan(),
    ensures
        bp.entry_grid_spacing_pct * widening(w1, bp) <= bp.entry_grid_spacing_pct * widening(
            w2,
            bp,
        ),
{
    let (limit, weight) = (bp.wallet_exposure_limit, bp.entry_grid_spacing_weight);
    let spacing = bp.entry_grid_spacing_pct;
    let (a1, a2) = (w1 / limit, w2 / limit);
    law_div_monotone(w1, w2, limit);
    law_mul_monotone(a1, a2, weight);
    law_add_commutes(one(), a1 * weight);
    law_add_commutes(one(), a2 * weight);
    law_add_monotone(a1 * weight, a2 * weight, one());
    law_mul_commutes(spacing, widening(w1, bp));
    law_mul_commutes(spacing, widening(w2, bp));
    law_mul_monotone(widening(w1, bp), widening(w2, bp), spacing);
}

/// More exposure never brings the target of the next grid re-entry closer.
proof fn lemma_target_monotone(
    side: Side,
    position_price: Binary64,
    w1: Binary64,
    w2: Binary64,
    ex: ExchangeParams,
    bp: BotParams,
)
    requires
        w1 <= w2,
        position_price >= zero(),
        bp.wallet_exposure_limit > zero(),
        bp.entry_grid_spacing_weight >= zero(),
        bp.entry_grid_spacing_pct >= zero(),
        ex.price_step >= zero(),
        !reentry_target(side, position_price, w1, ex, bp).is_nan(),
        !reentry_target(side, position_price, w2, ex, bp).is_nan(),
    ensures
        ({
            let t1 = reentry_target(side, position_price, w1, ex, bp);
            let t2 = reentry_target(side, position_price, w2, ex, bp);
            match side {
                Side::Long => t2 <= t1,
                Side::Short => t1 <= t2,
            }
        }),
{
    let d1 = bp.entry_grid_spacing_pct * widening(w1, bp);
    let d2 = bp.entry_grid_spacing_pct * widening(w2, bp);
    lemma_distance_monotone(w1, w2, bp);
    match side {
        Side::Long => {
            let (n1, n2) = (one() - d1, one() - d2);
            law_negated_reverses(d1, d2);
            law_add_commutes(one(), d1.negated());
            law_add_commutes(one(), d2.negated());
            law_add_monotone(d2.negated(), d1.negated(), one());
            law_mul_commutes(position_price, n1);
            law_mul_commutes(position_price, n2);
            law_mul_monotone(n2, n1, position_price);
            law_round_dn_monotone(position_price * n2, position_price * n1, ex.price_step);
        },
        Side::Short => {
            let (n1, n2) = (one() + d1, one() + d2);
            law_add_commutes(one(), d1);
            law_add_commutes(one(), d2);
            law_add_monotone(d1, d2, one());
            law_mul_commutes(position_price, n1);
            law_mul_commutes(position_price, n2);
            law_mul_monotone(n1, n2, position_price);
            law_round_up_monotone(position_price * n1, position_price * n2, ex.price_step);
        },
    }
}

/// More exposure never brings the next grid re-entry closer to the position: the price of a buy
/// never rises with the exposure, zero standing for no entry, and that of a sale never falls.
/// The target at the larger exposure has to be a number, and without a book price so does the
/// one at the smaller exposure.
pub proof fn law_more_exposure_is_no_closer(
    side: Side,
    position_price: Binary64,
    w1: Binary64,
    w2: Binary64,
    book_price: Binary64,
    ex: ExchangeParams,
    bp: BotParams,
)
    requires
        w1 <= w2,
        position_price >= zero(),
        bp.wallet_exposure_limit > zero(),
        bp.entry_grid_spacing_weight >= zero(),
        bp.entry_grid_spacing_pct >= zero(),
        ex.price_step >= zero(),
        !reentry_target(side, position_price, w2, ex, bp).is_nan(),
        !book_price.is_nan() || !reentry_target(side, position_price, w1, ex, bp).is_nan(),
    ensures
        ({
            let r1 = reentry_price(side, position_price, w1, book_price, ex, bp);
            let r2 = reentry_price(side, position_price, w2, book_price, ex, bp);
            match side {
                Side::Long => r2 <= r1,
                Side::Short => r1 <= r2,
            }
        }),
{
    let t1 = reentry_target(side, position_price, w1, ex, bp);
    let t2 = reentry_target(side, position_price, w2, ex, bp);
    if !t1.is_nan() {
        lemma_target_monotone(side, position_price, w1, w2, ex, bp);
    }
    lemma_limited_by_book(side, t1, t2, book_price, ex.price_step);
}

/// Keeping prices behind the book, and dropping those that are none, keeps their order.
proof fn lemma_limited_by_book(
    side: Side,
    t1: Binary64,
    t2: Binary64,
    book_price: Binary64,
    step: Binary64,
)
    requires
        step >= zero(),
        !t2.is_nan(),
        !t1.is_nan() || !book_price.is_nan(),
        !t1.is_nan() ==> match side {
            Side::Long => t2 <= t1,
            Side::Short => t1 <= t2,
        },
    ensures
        ({
            let (p1, p2) = match side {
                Side::Long => (t1.min(book_price), t2.min(book_price)),
                Side::Short => (t1.max(book_price), t2.max(book_price)),
            };
            let r1 = if p1 <= step {
                zero()
            } else {
                p1
            };
            let r2 = if p2 <= step {
                zero()
            } else {
                p2
            };
            match side {
                Side::Long => r2 <= r1,
                Side::Short => r1 <= r2,
            }
        }),
{
}

/// Whether a grid has a finite position price and price step, a finite limit, and a finite
/// spacing and weight, none of them negative, and no weight or spacing of zero meets an overflow.
pub open spec fn sensible_grid(
    position_price: Binary64,
    exposure: Binary64,
    ex: ExchangeParams,
    bp: BotParams,
) -> bool {
    let limit = bp.wallet_exposure_limit;
    let weight = bp.entry_grid_spacing_weight;
    let spacing = bp.entry_grid_spacing_pct;
    &&& position_price.is_finite() && position_price > zero()
    &&& ex.price_step.is_finite() && ex.price_step > zero()
    &&& limit.is_finite() && limit > zero()
    &&& weight.is_finite() && weight >= zero()
    &&& spacing.is_finite() && spacing >= zero()
    &&& !exposure.is_nan()
    &&& (exposure / limit).is_finite() || weight > zero()
    &&& widening(exposure, bp).is_finite() || spacing > zero()
}

/// The target of the next re-entry of a sensible grid is a number.
pub proof fn law_reentry_target_is_number(
    side: Side,
    position_price: Binary64,
    exposure: Binary64,
    ex: ExchangeParams,
    bp: BotParams,
)
    requires
        sensible_grid(position_price, exposure, ex, bp),
    ensures
        !reentry_target(side, position_price, exposure, ex, bp).is_nan(),
{
    let ratio = exposure / bp.wallet_exposure_limit;
    let spacing = bp.entry_grid_spacing_pct;
    let distance = spacing * widening(exposure, bp);
    let step = ex.price_step;
    lemma_one_is_positive();
    lemma_div_is_number(exposure, bp.wallet_exposure_limit);
    lemma_mul_is_number(ratio, bp.entry_grid_spacing_weight);
    lemma_add_is_number(one(), ratio * bp.entry_grid_spacing_weight);
    lemma_mul_is_number(spacing, widening(exposure, bp));
    match side {
        Side::Long => {
            lemma_add_is_number(one(), distance.negated());
            lemma_mul_is_number(position_price, one() - distance);
            let n = position_price * (one() - distance);
            lemma_div_is_number(n, step);
            lemma_whole_is_number(n / step);
            lemma_mul_is_number((n / step).floor(), step);
            lemma_to_decimals_is_number((n / step).floor() * step);
        },
        Side::Short => {
            lemma_add_is_number(one(), distance);
            lemma_mul_is_number(position_price, one() + distance);
            let n = position_price * (one() + distance);
            lemma_div_is_number(n, step);
            lemma_whole_is_number(n / step);
            lemma_mul_is_number((n / step).ceil(), step);
            lemma_to_decimals_is_number((n / step).ceil() * step);
        },
    }
}

/// In a sensible grid more exposure never brings the next re-entry closer to the position.
pub proof fn law_sensible_grid_widens(
    side: Side,
    position_price: Binary64,
    w1: Binary64,
    w2: Binary64,
    book_price: Binary64,
    ex: ExchangeParams,
    bp: BotParams,
)
    requires
        w1 <= w2,
        sensible_grid(position_price, w1, ex, bp),
        sensible_grid(position_price, w2, ex, bp),
    ensures
        ({
            let r1 = reentry_price(side, position_price, w1, book_price, ex, bp);
            let r2 = reentry_price(side, position_price, w2, book_price, ex, bp);
            match side {
                Side::Long => r2 <= r1,
                Side::Short => r1 <= r2,
            }
        }),
{
    law_reentry_target_is_number(side, position_price, w1, ex, bp);
    law_reentry_target_is_number(side, position_price, w2, ex, bp);
    law_more_exposure_is_no_closer(side, position_price, w1, w2, book_price, ex, bp);
}

/// Filling the first planned entry leaves the others as planned. They are then the whole plan,
/// unless there were none left, or the plan had the most entries that it can have: then more may
/// follow.
pub proof fn law_rest_stays_planned(side: Side, market: Market, entries: Seq<Order>)
    requires
        market.plans(side, entries),
        entries.len() > 0,
    ensures
        market.step(side, entries[0]).follows(side, entries.drop_first()),
        1 < entries.len() < MAX_ENTRIES ==> market.step(side, entries[0]).plans(
            side,
            entries.drop_first(),
        ),
{
    let first = entries[0];
    let rest = entries.drop_first();
    let next = market.step(side, first);
    assert forall|i: int| 0 <= i < rest.len() implies #[trigger] next.follows_at(
        side,
        rest,
        i,
    ) by {
        let before = rest.take(i);
        assert(market.follows_at(side, entries, i + 1));
        assert(entries.take(i + 1) =~= seq![first] + before);
        lemma_after_first(side, market, first, before);
        assert(rest[i] == entries[i + 1]);
        if before.len() > 0 {
            assert(before.last() == entries.take(i + 1).last());
        }
    }
    assert(entries =~= seq![first] + rest);
    lemma_after_first(side, market, first, rest);
    if rest.len() > 0 {
        assert(rest.last() == entries.last());
    }
}

proof fn lemma_after_first(side: Side, market: Market, first: Order, rest: Seq<Order>)
    ensures
        market.after(side, seq![first] + rest) == market.step(side, first).after(side, rest),
    decreases rest.len(),
{
    let all = seq![first] + rest;
    if rest.len() == 0 {
        assert(all.drop_last() =~= Seq::<Order>::empty());
        assert(all.last() == first);
        assert(market.after(side, all.drop_last()) == market);
    } else {
        assert(all.drop_last() =~= seq![first] + rest.drop_last());
        assert(all.last() == rest.last());
        lemma_after_first(side, market, first, rest.drop_last());
    }
}

} // verus!
