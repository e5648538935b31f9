use entry_orders::binary64::Binary64;
use entry_orders::types::ExchangeParams;
use entry_orders::types::Order;
use entry_orders::types::OrderType;
use entry_orders::utils::calc_ema_price_ask;
use entry_orders::utils::calc_ema_price_bid;
use entry_orders::utils::calc_new_psize_pprice;
use entry_orders::utils::calc_wallet_exposure;
use entry_orders::utils::calc_wallet_exposure_if_filled;
use entry_orders::utils::cost_to_qty;
use entry_orders::utils::interpolate;
use entry_orders::utils::qty_to_cost;
use entry_orders::utils::round_;
use entry_orders::utils::round_dn;
use entry_orders::utils::round_up;

fn b(x: f64) -> Binary64 {
    Binary64::from_bits(x.to_bits())
}

fn f(x: Binary64) -> f64 {
    f64::from_bits(x.to_bits())
}

#[test]
fn steps() {
    assert_eq!(f(round_(b(2.34567), b(0.01))), 2.35);
    assert_eq!(f(round_(b(-2.5), b(1.0))), -3.0);
    assert_eq!(f(round_dn(b(2.349), b(0.01))), 2.34);
    assert_eq!(f(round_up(b(2.341), b(0.01))), 2.35);
    // 0.3 is a little less than three times 0.1
    assert_eq!(f(round_dn(b(0.3), b(0.1))), 0.2);
    assert_eq!(f(round_up(b(0.3), b(0.1))), 0.3);
    assert!(round_(b(1.0), b(0.0)).is_nan());
}

#[test]
fn costs() {
    assert_eq!(f(cost_to_qty(b(50.0), b(100.0), b(0.1))), 5.0);
    assert_eq!(f(cost_to_qty(b(50.0), b(0.0), b(1.0))), 0.0);
    assert_eq!(f(cost_to_qty(b(50.0), b(f64::NAN), b(1.0))), 0.0);
    assert_eq!(f(qty_to_cost(b(-5.0), b(100.0), b(0.1))), 50.0);
}

#[test]
fn exposures() {
    assert_eq!(f(calc_wallet_exposure(b(1.0), b(1000.0), b(-2.0), b(100.0))), 0.2);
    assert_eq!(f(calc_wallet_exposure(b(1.0), b(0.0), b(2.0), b(100.0))), 0.0);
    assert_eq!(f(calc_wallet_exposure(b(1.0), b(1000.0), b(0.0), b(f64::NAN))), 0.0);
    let ex = ExchangeParams {
        qty_step: b(0.001),
        price_step: b(0.01),
        min_qty: b(0.001),
        min_cost: b(1.0),
        c_mult: b(1.0),
    };
    let filled = calc_wallet_exposure_if_filled(b(1000.0), b(-6.0), b(100.0), b(-5.0), b(95.0), &ex);
    assert_eq!(f(filled), 1.075);
}

#[test]
fn positions() {
    let filled = |size: f64, price: f64, qty: f64, at: f64| {
        let r = calc_new_psize_pprice(b(size), b(price), b(qty), b(at), b(0.001));
        (f(r.0), f(r.1))
    };
    assert_eq!(filled(2.0, 100.0, 1.0, 94.0), (3.0, 97.99999999999999));
    assert_eq!(filled(-2.0, 100.0, -2.0, 104.0), (-4.0, 102.0));
    assert_eq!(filled(2.0, 100.0, -2.0, 94.0), (0.0, 0.0));
    assert_eq!(filled(2.0, 100.0, 0.0, 94.0), (2.0, 100.0));
    assert_eq!(filled(0.0, f64::NAN, 1.0, 94.0), (1.0, 94.0));
}

#[test]
fn polynomials() {
    let line = interpolate(b(0.5), &[b(0.2), b(0.8)], &[b(2.0), b(8.0)]);
    assert_eq!(f(line), 4.999999999999999);
    let parabola = interpolate(b(3.0), &[b(0.0), b(1.0), b(2.0)], &[b(0.0), b(1.0), b(4.0)]);
    assert_eq!(f(parabola), 9.0);
    assert_eq!(f(interpolate(b(3.0), &[], &[])), 0.0);
    assert!(interpolate(b(3.0), &[b(1.0), b(1.0)], &[b(1.0), b(2.0)]).is_infinite());
    assert!(interpolate(b(1.0), &[b(1.0), b(1.0)], &[b(1.0), b(2.0)]).is_nan());
}

#[test]
fn first_prices() {
    assert_eq!(f(calc_ema_price_bid(b(0.01), b(100.0), b(99.0), b(0.01))), 98.01);
    assert_eq!(f(calc_ema_price_bid(b(0.01), b(97.0), b(99.0), b(0.01))), 97.0);
    assert_eq!(f(calc_ema_price_ask(b(0.01), b(100.5), b(101.0), b(0.01))), 102.01);
    assert_eq!(f(calc_ema_price_ask(b(0.01), b(103.0), b(101.0), b(0.01))), 103.0);
    assert_eq!(f(calc_ema_price_bid(b(0.01), b(f64::NAN), b(99.0), b(0.01))), 98.01);
}

#[test]
fn default_order_is_empty() {
    let order = Order::default();
    assert_eq!((f(order.qty), f(order.price), order.order_type), (0.0, 0.0, OrderType::Empty));
}
