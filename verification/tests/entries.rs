use entry_orders::binary64::Binary64;
use entry_orders::entries::calc_cropped_reentry_qty;
use entry_orders::entries::calc_divergence_entry_long;
use entry_orders::entries::calc_entries_long;
use entry_orders::entries::calc_entries_short;
use entry_orders::entries::calc_grid_entry_long;
use entry_orders::entries::calc_grid_entry_short;
use entry_orders::entries::calc_initial_entry_qty;
use entry_orders::entries::calc_min_entry_qty;
use entry_orders::entries::calc_next_entry_long;
use entry_orders::entries::calc_next_entry_short;
use entry_orders::entries::calc_reentry_qty;
use entry_orders::entries::calc_trailing_entry_long;
use entry_orders::entries::calc_trailing_entry_short;
use entry_orders::types::BotParams;
use entry_orders::types::DivergenceBundle;
use entry_orders::types::EMABands;
use entry_orders::types::ExchangeParams;
use entry_orders::types::Order;
use entry_orders::types::OrderBook;
use entry_orders::types::OrderType;
use entry_orders::types::Position;
use entry_orders::types::StateParams;
use entry_orders::types::TrailingPriceBundle;

fn b(x: f64) -> Binary64 {
    Binary64::from_bits(x.to_bits())
}

fn f(x: Binary64) -> f64 {
    f64::from_bits(x.to_bits())
}

fn exchange() -> ExchangeParams {
    ExchangeParams {
        qty_step: b(0.001),
        price_step: b(0.01),
        min_qty: b(0.001),
        min_cost: b(1.0),
        c_mult: b(1.0),
    }
}

fn state() -> StateParams {
    StateParams {
        balance: b(1000.0),
        order_book: OrderBook { bid: b(100.0), ask: b(100.5) },
        ema_bands: EMABands { upper: b(101.0), lower: b(99.0) },
    }
}

fn bot() -> BotParams {
    BotParams {
        wallet_exposure_limit: b(1.0),
        entry_initial_qty_pct: b(0.01),
        entry_initial_ema_dist: b(0.01),
        entry_grid_spacing_pct: b(0.03),
        entry_grid_spacing_weight: b(2.0),
        entry_grid_double_down_factor: b(0.9),
        entry_trailing_grid_ratio: b(0.0),
        entry_trailing_threshold_pct: b(0.02),
        entry_trailing_retracement_pct: b(0.01),
        entry_trailing_double_down_factor: b(0.5),
        enable_divergence_entry: false,
        divergence_rsi_tolerance: b(1.0),
    }
}

fn position(size: f64, price: f64) -> Position {
    Position { size: b(size), price: b(price) }
}

fn trail(min_since_open: f64, max_since_min: f64, max_since_open: f64, min_since_max: f64) -> TrailingPriceBundle {
    TrailingPriceBundle {
        min_since_open: b(min_since_open),
        max_since_min: b(max_since_min),
        max_since_open: b(max_since_open),
        min_since_max: b(min_since_max),
    }
}

fn quiet() -> TrailingPriceBundle {
    trail(100.0, 100.0, 100.0, 100.0)
}

fn divergence(curr_low: f64, prev_low: f64, curr_rsi: f64, prev_rsi: f64) -> DivergenceBundle {
    DivergenceBundle {
        curr_low: b(curr_low),
        prev_low: b(prev_low),
        curr_rsi: b(curr_rsi),
        prev_rsi: b(prev_rsi),
    }
}

fn none() -> DivergenceBundle {
    divergence(100.0, 100.0, 50.0, 50.0)
}

fn is(order: &Order, qty: f64, price: f64, order_type: OrderType) {
    assert_eq!((f(order.qty), f(order.price), order.order_type), (qty, price, order_type));
}

fn is_none(order: &Order) {
    is(order, 0.0, 0.0, OrderType::Empty);
}

#[test]
fn buys_of_a_grid() {
    let planned = calc_entries_long(&exchange(), &state(), &bot(), &position(0.0, 0.0), &quiet(), &none());
    let expected = [
        (0.102, 98.01, OrderType::EntryInitialNormalLong),
        (0.105, 95.01, OrderType::EntryGridNormalLong),
        (0.186, 93.47, OrderType::EntryGridNormalLong),
        (0.354, 91.99, OrderType::EntryGridNormalLong),
        (0.672, 90.4, OrderType::EntryGridNormalLong),
        (1.277, 88.6, OrderType::EntryGridNormalLong),
        (2.426, 86.39, OrderType::EntryGridNormalLong),
        (6.55, 83.45, OrderType::EntryGridInflatedLong),
    ];
    assert_eq!(planned.len(), expected.len());
    for (order, e) in planned.iter().zip(expected.iter()) {
        is(order, e.0, e.1, e.2);
    }
}

#[test]
fn sales_of_a_grid() {
    let planned = calc_entries_short(&exchange(), &state(), &bot(), &position(0.0, 0.0), &quiet());
    let expected = [
        (-0.098, 102.01, OrderType::EntryInitialNormalShort),
        (-0.098, 105.14, OrderType::EntryGridNormalShort),
        (-0.176, 106.81, OrderType::EntryGridNormalShort),
        (-0.335, 108.51, OrderType::EntryGridNormalShort),
        (-0.636, 110.41, OrderType::EntryGridNormalShort),
        (-1.209, 112.67, OrderType::EntryGridNormalShort),
        (-2.297, 115.64, OrderType::EntryGridNormalShort),
        (-3.77, 120.01, OrderType::EntryGridCroppedShort),
    ];
    assert_eq!(planned.len(), expected.len());
    for (order, e) in planned.iter().zip(expected.iter()) {
        is(order, e.0, e.1, e.2);
    }
}

#[test]
fn planned_prices_improve_and_stay_behind_the_book() {
    let buys = calc_entries_long(&exchange(), &state(), &bot(), &position(0.0, 0.0), &quiet(), &none());
    let sales = calc_entries_short(&exchange(), &state(), &bot(), &position(0.0, 0.0), &quiet());
    for i in 0..buys.len() {
        assert!(f(buys[i].price) <= 100.0);
        for j in i + 1..buys.len() {
            assert!(f(buys[j].price) < f(buys[i].price));
        }
    }
    for i in 0..sales.len() {
        assert!(f(sales[i].price) >= 100.5);
        for j in i + 1..sales.len() {
            assert!(f(sales[j].price) > f(sales[i].price));
        }
    }
}

#[test]
fn planned_entries_are_large_enough() {
    let ex = ExchangeParams { min_cost: b(30.0), ..exchange() };
    let planned = calc_entries_long(&ex, &state(), &bot(), &position(0.0, 0.0), &quiet(), &none());
    assert!(planned.len() > 2);
    for order in planned.iter() {
        assert!(!order.qty.equals(b(0.0)));
        assert!(order.qty.ge(calc_min_entry_qty(order.price, &ex)));
    }
}

#[test]
fn planning_twice_gives_the_same() {
    let once = calc_entries_short(&exchange(), &state(), &bot(), &position(-0.3, 101.0), &quiet());
    let twice = calc_entries_short(&exchange(), &state(), &bot(), &position(-0.3, 101.0), &quiet());
    assert_eq!(once.len(), twice.len());
    for (x, y) in once.iter().zip(twice.iter()) {
        is(x, f(y.qty), f(y.price), y.order_type);
    }
}

#[test]
fn plan_has_a_maximum() {
    let bp = BotParams {
        entry_initial_qty_pct: b(0.0001),
        entry_grid_double_down_factor: b(0.0),
        entry_grid_spacing_weight: b(0.0),
        ..bot()
    };
    let ex = ExchangeParams { price_step: b(0.0001), ..exchange() };
    let st = StateParams { balance: b(100000.0), ..state() };
    let planned = calc_entries_long(&ex, &st, &bp, &position(0.0, 0.0), &quiet(), &none());
    assert_eq!(planned.len(), 500);
}

#[test]
fn nothing_without_budget() {
    let (ex, p) = (exchange(), position(0.0, 0.0));
    let broke = StateParams { balance: b(0.0), ..state() };
    let indebted = StateParams { balance: b(-5.0), ..state() };
    let unlimited = BotParams { wallet_exposure_limit: b(-0.0), ..bot() };
    is_none(&calc_grid_entry_long(&ex, &broke, &bot(), &p));
    is_none(&calc_grid_entry_short(&ex, &indebted, &bot(), &p));
    is_none(&calc_grid_entry_long(&ex, &state(), &unlimited, &p));
    is_none(&calc_next_entry_long(&ex, &broke, &bot(), &p, &quiet(), &none()));
    is_none(&calc_next_entry_short(&ex, &state(), &unlimited, &p, &quiet()));
    assert_eq!(calc_entries_long(&ex, &broke, &bot(), &p, &quiet(), &none()).len(), 0);
    assert_eq!(calc_entries_short(&ex, &indebted, &bot(), &p, &quiet()).len(), 0);
}

#[test]
fn no_first_entry_without_a_price() {
    let mut st = state();
    st.order_book.bid = b(0.01);
    st.order_book.ask = b(0.01);
    st.ema_bands.upper = b(-3.0);
    is_none(&calc_grid_entry_long(&exchange(), &st, &bot(), &position(0.0, 0.0)));
    is_none(&calc_grid_entry_short(&exchange(), &st, &bot(), &position(0.0, 0.0)));
    is_none(&calc_trailing_entry_long(&exchange(), &st, &bot(), &position(1.0, 90.0), &quiet()));
    is_none(&calc_trailing_entry_short(&exchange(), &st, &bot(), &position(-1.0, 90.0), &quiet()));
}

#[test]
fn small_position_is_completed() {
    is(
        &calc_grid_entry_long(&exchange(), &state(), &bot(), &position(0.05, 98.0)),
        0.051,
        98.01,
        OrderType::EntryInitialPartialLong,
    );
    is(
        &calc_grid_entry_short(&exchange(), &state(), &bot(), &position(-0.05, 98.0)),
        -0.048,
        102.01,
        OrderType::EntryInitialPartialShort,
    );
    is(
        &calc_trailing_entry_long(&exchange(), &state(), &bot(), &position(0.05, 98.0), &quiet()),
        0.051,
        98.01,
        OrderType::EntryInitialPartialLong,
    );
}

#[test]
fn full_position_gets_nothing() {
    is_none(&calc_grid_entry_long(&exchange(), &state(), &bot(), &position(10.0, 100.0)));
    is_none(&calc_grid_entry_short(&exchange(), &state(), &bot(), &position(-10.0, 100.0)));
    is_none(&calc_trailing_entry_long(&exchange(), &state(), &bot(), &position(10.0, 100.0), &quiet()));
    is_none(&calc_trailing_entry_short(&exchange(), &state(), &bot(), &position(-10.0, 100.0), &quiet()));
    // an exposure of exactly the full share stops the grid but not the trailing rules
    let brink = position(9.99, 100.0);
    is_none(&calc_grid_entry_long(&exchange(), &state(), &bot(), &brink));
    is(
        &calc_trailing_entry_long(&exchange(), &state(), &bot(), &brink, &quiet()),
        0.0,
        0.0,
        OrderType::EntryTrailingNormalLong,
    );
}

#[test]
fn no_grid_entry_below_the_first_price_step() {
    let bp = BotParams { entry_grid_spacing_pct: b(1.5), ..bot() };
    is_none(&calc_grid_entry_long(&exchange(), &state(), &bp, &position(1.0, 98.01)));
}

#[test]
fn trailing_waits_for_threshold_and_retracement() {
    let p = position(2.0, 100.0);
    // past the threshold of 98, back by less than the retracement
    is(
        &calc_trailing_entry_long(&exchange(), &state(), &bot(), &p, &trail(97.0, 97.5, 100.0, 99.0)),
        0.0,
        0.0,
        OrderType::EntryTrailingNormalLong,
    );
    // back by more than the retracement, but not past the threshold
    is(
        &calc_trailing_entry_long(&exchange(), &state(), &bot(), &p, &trail(98.5, 99.9, 100.0, 99.0)),
        0.0,
        0.0,
        OrderType::EntryTrailingNormalLong,
    );
    is(
        &calc_trailing_entry_long(&exchange(), &state(), &bot(), &p, &trail(97.0, 98.5, 100.0, 99.0)),
        1.0,
        99.0,
        OrderType::EntryTrailingNormalLong,
    );
    let p = position(-2.0, 100.0);
    is(
        &calc_trailing_entry_short(&exchange(), &state(), &bot(), &p, &trail(97.0, 98.0, 103.0, 102.5)),
        0.0,
        0.0,
        OrderType::EntryTrailingNormalShort,
    );
    is(
        &calc_trailing_entry_short(&exchange(), &state(), &bot(), &p, &trail(97.0, 98.0, 103.0, 101.0)),
        -1.0,
        101.0,
        OrderType::EntryTrailingNormalShort,
    );
}

#[test]
fn trailing_without_threshold_or_retracement() {
    let p = position(2.0, 100.0);
    let eager = BotParams { entry_trailing_threshold_pct: b(0.0), ..bot() };
    is(
        &calc_trailing_entry_long(&exchange(), &state(), &eager, &p, &trail(99.5, 100.6, 101.0, 100.0)),
        1.0,
        100.0,
        OrderType::EntryTrailingNormalLong,
    );
    let straight = BotParams { entry_trailing_retracement_pct: b(0.0), ..bot() };
    is(
        &calc_trailing_entry_long(&exchange(), &state(), &straight, &p, &quiet()),
        1.0,
        98.0,
        OrderType::EntryTrailingNormalLong,
    );
    let neither = BotParams { entry_trailing_threshold_pct: b(0.0), ..straight };
    is(
        &calc_trailing_entry_long(&exchange(), &state(), &neither, &p, &trail(1.0, 100.0, 100.0, 1.0)),
        0.0,
        0.0,
        OrderType::EntryTrailingNormalLong,
    );
}

#[test]
fn trailing_entry_is_cropped_to_the_limit() {
    let bp = BotParams { entry_trailing_double_down_factor: b(1.0), ..bot() };
    let order =
        calc_trailing_entry_long(&exchange(), &state(), &bp, &position(8.0, 100.0), &trail(97.0, 98.5, 100.0, 99.0));
    is(&order, 2.02, 99.0, OrderType::EntryTrailingCroppedLong);
}

#[test]
fn only_the_first_planned_entry_trails() {
    let bp = BotParams { entry_trailing_grid_ratio: b(1.0), ..bot() };
    let t = trail(97.0, 98.5, 100.0, 99.0);
    let planned = calc_entries_long(&exchange(), &state(), &bp, &position(2.0, 100.0), &t, &none());
    assert_eq!(planned.len(), 1);
    is(&planned[0], 1.0, 99.0, OrderType::EntryTrailingNormalLong);
}

#[test]
fn ratio_chooses_between_grid_and_trailing() {
    let (ex, st, p) = (exchange(), state(), position(2.0, 100.0));
    let t = trail(97.0, 98.5, 100.0, 99.0);
    let next = |ratio: f64| {
        let bp = BotParams { entry_trailing_grid_ratio: b(ratio), ..bot() };
        calc_next_entry_long(&ex, &st, &bp, &p, &t, &none()).order_type
    };
    // a fifth of the limit is taken
    assert_eq!(next(0.0), OrderType::EntryGridNormalLong);
    assert_eq!(next(1.0), OrderType::EntryTrailingNormalLong);
    assert_eq!(next(-1.0), OrderType::EntryTrailingNormalLong);
    assert_eq!(next(7.0), OrderType::EntryTrailingNormalLong);
    assert_eq!(next(0.5), OrderType::EntryTrailingNormalLong);
    assert_eq!(next(0.1), OrderType::EntryGridNormalLong);
    assert_eq!(next(-0.9), OrderType::EntryTrailingNormalLong);
    assert_eq!(next(-0.5), OrderType::EntryGridNormalLong);
    assert_eq!(next(f64::NAN), OrderType::EntryTrailingNormalLong);
    let short = position(-2.0, 100.0);
    let t = trail(97.0, 98.0, 103.0, 101.0);
    let next = |ratio: f64| {
        let bp = BotParams { entry_trailing_grid_ratio: b(ratio), ..bot() };
        calc_next_entry_short(&ex, &st, &bp, &short, &t).order_type
    };
    assert_eq!(next(0.0), OrderType::EntryGridNormalShort);
    assert_eq!(next(-1.0), OrderType::EntryTrailingNormalShort);
    assert_eq!(next(0.5), OrderType::EntryTrailingNormalShort);
    assert_eq!(next(0.1), OrderType::EntryGridNormalShort);
    assert_eq!(next(-0.9), OrderType::EntryTrailingNormalShort);
    assert_eq!(next(-0.5), OrderType::EntryGridNormalShort);
}

#[test]
fn divergence_entry_needs_lower_low_and_higher_rsi() {
    let (ex, st, p) = (exchange(), state(), position(0.0, 0.0));
    let on = BotParams { enable_divergence_entry: true, ..bot() };
    let entry = |bp: &BotParams, d: DivergenceBundle| calc_divergence_entry_long(&ex, &st, bp, &p, &d);
    is(&entry(&on, divergence(95.0, 96.0, 31.5, 30.0)), 0.01, 100.0, OrderType::EntryDivergenceLong);
    is_none(&entry(&bot(), divergence(95.0, 96.0, 31.5, 30.0)));
    is_none(&entry(&on, divergence(96.0, 96.0, 31.5, 30.0)));
    is_none(&entry(&on, divergence(95.0, 96.0, 31.0, 30.0)));
}

#[test]
fn divergence_takes_the_place_of_trailing_on_the_long_side() {
    let bp = BotParams { enable_divergence_entry: true, entry_trailing_grid_ratio: b(1.0), ..bot() };
    let d = divergence(95.0, 96.0, 31.5, 30.0);
    let p = position(0.0, 0.0);
    is(
        &calc_next_entry_long(&exchange(), &state(), &bp, &p, &quiet(), &d),
        0.01,
        100.0,
        OrderType::EntryDivergenceLong,
    );
    assert_eq!(calc_entries_long(&exchange(), &state(), &bp, &p, &quiet(), &d).len(), 1);
    is(
        &calc_next_entry_short(&exchange(), &state(), &bp, &p, &quiet()),
        -0.098,
        102.01,
        OrderType::EntryInitialNormalShort,
    );
}

#[test]
fn quantities() {
    let (ex, bp) = (exchange(), bot());
    assert_eq!(f(calc_min_entry_qty(b(100.0), &ex)), 0.01);
    assert_eq!(f(calc_min_entry_qty(b(3.0), &ex)), 0.334);
    assert_eq!(f(calc_min_entry_qty(b(0.0), &ex)), 0.001);
    assert_eq!(f(calc_initial_entry_qty(&ex, &bp, b(1000.0), b(100.0))), 0.1);
    assert_eq!(f(calc_reentry_qty(b(95.0), b(1000.0), b(-2.0), b(0.9), &ex, &bp)), 1.8);
    assert_eq!(f(calc_reentry_qty(b(95.0), b(1000.0), b(0.01), b(0.9), &ex, &bp)), 0.105);
}

#[test]
fn reentry_is_cropped_only_past_the_limit() {
    let (ex, bp) = (exchange(), bot());
    let over = calc_cropped_reentry_qty(&ex, &bp, &position(6.0, 100.0), b(0.6), b(1000.0), b(5.0), b(95.0));
    assert_eq!((f(over.0), f(over.1)), (1.075, 4.211));
    let under = calc_cropped_reentry_qty(&ex, &bp, &position(2.0, 100.0), b(0.2), b(1000.0), b(1.0), b(95.0));
    assert_eq!((f(under.0), f(under.1)), (0.29499999999999993, 1.0));
    let short = calc_cropped_reentry_qty(&ex, &bp, &position(-6.0, 100.0), b(0.6), b(1000.0), b(-5.0), b(95.0));
    assert_eq!((f(short.0), f(short.1)), (1.075, 4.211));
}

#[test]
fn inflated_entry_can_fall_below_the_minimum() {
    let ex = ExchangeParams { min_cost: b(928.0), ..exchange() };
    let bp = BotParams {
        entry_grid_double_down_factor: b(5.0),
        entry_grid_spacing_weight: b(0.0),
        ..bot()
    };
    let order = calc_grid_entry_long(&ex, &state(), &bp, &position(8.2, 10.0));
    is(&order, 94.737, 9.69, OrderType::EntryGridInflatedLong);
    assert_eq!(f(calc_min_entry_qty(order.price, &ex)), 95.769);
}

#[test]
fn buys_are_positive_and_sales_negative() {
    let buys = calc_entries_long(&exchange(), &state(), &bot(), &position(0.0, 0.0), &quiet(), &none());
    let sales = calc_entries_short(&exchange(), &state(), &bot(), &position(0.0, 0.0), &quiet());
    assert!(buys.iter().all(|o| f(o.qty) > 0.0 && format!("{:?}", o.order_type).ends_with("Long")));
    assert!(sales.iter().all(|o| f(o.qty) < 0.0 && format!("{:?}", o.order_type).ends_with("Short")));
}

#[test]
fn cropping_stops_at_the_minimum() {
    let ex = ExchangeParams { min_cost: b(500.0), ..exchange() };
    let (exposure, qty) =
        calc_cropped_reentry_qty(&ex, &bot(), &position(6.0, 100.0), b(0.6), b(1000.0), b(5.264), b(95.0));
    assert!(f(exposure) > 1.01);
    assert_eq!(f(qty), 5.264);
    assert_eq!(f(calc_min_entry_qty(b(95.0), &ex)), 5.264);
}

#[test]
fn more_exposure_is_no_closer() {
    let buy = |size: f64| f(calc_grid_entry_long(&exchange(), &state(), &bot(), &position(size, 98.01)).price);
    let sale = |size: f64| f(calc_grid_entry_short(&exchange(), &state(), &bot(), &position(-size, 102.01)).price);
    let sizes = [0.2, 0.5, 1.0, 1.001, 2.0, 4.0, 8.0];
    for pair in sizes.windows(2) {
        assert!(buy(pair[1]) <= buy(pair[0]));
        assert!(sale(pair[1]) >= sale(pair[0]));
    }
    // a wide enough grid runs out of prices, and then has no entry
    let wide = BotParams { entry_grid_spacing_pct: b(0.3), entry_grid_spacing_weight: b(3.0), ..bot() };
    assert!(f(calc_grid_entry_long(&exchange(), &state(), &wide, &position(0.5, 98.01)).price) > 0.0);
    is_none(&calc_grid_entry_long(&exchange(), &state(), &wide, &position(9.0, 98.01)));
}

#[test]
fn rest_stays_planned_once_the_first_is_filled() {
    let planned = calc_entries_long(&exchange(), &state(), &bot(), &position(0.0, 0.0), &quiet(), &none());
    let mut st = state();
    st.order_book.bid = st.order_book.bid.min(planned[0].price);
    let filled = position(f(planned[0].qty), f(planned[0].price));
    let rest = calc_entries_long(&exchange(), &st, &bot(), &filled, &quiet(), &none());
    assert_eq!(rest.len() + 1, planned.len());
    for (order, e) in rest.iter().zip(planned[1..].iter()) {
        is(order, f(e.qty), f(e.price), e.order_type);
    }
}

/// The exact exposure of a position and an entry, up to the last bits.
fn ends_at(size: f64, price: f64, order: &Order) -> f64 {
    (size.abs() * price + f(order.qty).abs() * f(order.price)) / f(state().balance)
}

/// Half a quantity step at the price of an order, and some room for rounding.
fn half_step(order: &Order) -> f64 {
    (0.0005 + 1e-9) * f(order.price) / f(state().balance)
}

#[test]
fn cropped_grid_entries_end_at_the_limit() {
    for (size, price) in [(6.0, 100.0), (7.5, 99.0), (9.123, 98.01)] {
        let order = calc_grid_entry_long(&exchange(), &state(), &bot(), &position(size, price));
        assert_eq!(order.order_type, OrderType::EntryGridCroppedLong);
        assert!((ends_at(size, price, &order) - 1.0).abs() <= half_step(&order));
        let sale = calc_grid_entry_short(&exchange(), &state(), &bot(), &position(-size, price));
        assert_eq!(sale.order_type, OrderType::EntryGridCroppedShort);
        assert!((ends_at(size, price, &sale) - 1.0).abs() <= half_step(&sale));
    }
}

#[test]
fn cropped_trailing_entries_end_at_the_limit() {
    let bp = BotParams {
        entry_trailing_grid_ratio: b(1.0),
        entry_trailing_retracement_pct: b(0.0),
        entry_trailing_double_down_factor: b(2.0),
        ..bot()
    };
    let buy = calc_trailing_entry_long(&exchange(), &state(), &bp, &position(6.0, 100.0), &quiet());
    assert_eq!(buy.order_type, OrderType::EntryTrailingCroppedLong);
    assert!((ends_at(6.0, 100.0, &buy) - 1.0).abs() <= half_step(&buy));
    let sale = calc_trailing_entry_short(&exchange(), &state(), &bp, &position(-6.0, 100.0), &quiet());
    assert_eq!(sale.order_type, OrderType::EntryTrailingCroppedShort);
    assert!((ends_at(6.0, 100.0, &sale) - 1.0).abs() <= half_step(&sale));
}

#[test]
fn inflated_entries_end_at_the_limit() {
    let ex = ExchangeParams { min_cost: b(928.0), ..exchange() };
    let bp = BotParams {
        entry_grid_double_down_factor: b(5.0),
        entry_grid_spacing_weight: b(0.0),
        ..bot()
    };
    let order = calc_grid_entry_long(&ex, &state(), &bp, &position(8.2, 10.0));
    assert_eq!(order.order_type, OrderType::EntryGridInflatedLong);
    assert!((ends_at(8.2, 10.0, &order) - 1.0).abs() <= half_step(&order));
    assert!(f(order.qty) > 0.0);
}

#[test]
fn smallest_quantity_costs_the_smallest_cost() {
    for cost in [1.0, 5.0, 7.3, 500.0] {
        let ex = ExchangeParams { min_cost: b(cost), c_mult: b(0.1), ..exchange() };
        for price in [0.37, 1.0, 33.33, 95.0, 1234.56] {
            let qty = f(calc_min_entry_qty(b(price), &ex));
            assert!(qty * price * 0.1 >= cost * (1.0 - 1e-14) - 0.5e-10 * price * 0.1);
            assert!((qty - 0.0011) * price * 0.1 <= cost);
        }
    }
}
