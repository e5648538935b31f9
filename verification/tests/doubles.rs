//! The entries of many markets, computed a second time with the processor's own doubles.
use entry_orders::binary64::Binary64;
use entry_orders::entries::calc_cropped_reentry_qty;
use entry_orders::entries::calc_divergence_entry_long;
use entry_orders::entries::calc_entries_long;
use entry_orders::entries::calc_entries_short;
use entry_orders::entries::calc_grid_entry_long;
use entry_orders::entries::calc_grid_entry_short;
use entry_orders::entries::calc_initial_entry_qty;
use entry_orders::entries::calc_min_entry_qty;
use entry_orders::entries::calc_next_entry_long;
use entry_orders::entries::calc_next_entry_short;
use entry_orders::entries::calc_reentry_qty;
use entry_orders::entries::calc_trailing_entry_long;
use entry_orders::entries::calc_trailing_entry_short;
use entry_orders::types::BotParams;
use entry_orders::types::DivergenceBundle;
use entry_orders::types::EMABands;
use entry_orders::types::ExchangeParams;
use entry_orders::types::Order;
use entry_orders::types::OrderBook;
use entry_orders::types::OrderType;
use entry_orders::types::Position;
use entry_orders::types::StateParams;
use entry_orders::types::TrailingPriceBundle;

fn b(x: f64) -> Binary64 {
    Binary64::from_bits(x.to_bits())
}

fn f(x: Binary64) -> f64 {
    f64::from_bits(x.to_bits())
}

fn decimals(x: f64) -> f64 {
    (x * 1e10).round() / 1e10
}

fn near(n: f64, step: f64) -> f64 {
    decimals((n / step).round() * step)
}

fn down(n: f64, step: f64) -> f64 {
    decimals((n / step).floor() * step)
}

fn up(n: f64, step: f64) -> f64 {
    decimals((n / step).ceil() * step)
}

fn to_qty(cost: f64, price: f64, c_mult: f64) -> f64 {
    if price > 0.0 {
        cost / price / c_mult
    } else {
        0.0
    }
}

fn exposure(c_mult: f64, balance: f64, size: f64, price: f64) -> f64 {
    if balance <= 0.0 || size == 0.0 {
        0.0
    } else {
        size.abs() * price * c_mult / balance
    }
}

fn filled(size: f64, average: f64, qty: f64, price: f64, step: f64) -> (f64, f64) {
    if qty == 0.0 {
        return (size, average);
    }
    let new_size = near(size + qty, step);
    if new_size == 0.0 {
        return (0.0, 0.0);
    }
    let average = if average.is_nan() { 0.0 } else { average };
    (new_size, average * (size / new_size) + price * (qty / new_size))
}

fn line(x: f64, xs: [f64; 2], ys: [f64; 2]) -> f64 {
    0.0 + 1.0 * ((x - xs[1]) / (xs[0] - xs[1])) * ys[0] + 1.0 * ((x - xs[0]) / (xs[1] - xs[0])) * ys[1]
}

fn least(price: f64, ex: &ExchangeParams) -> f64 {
    f64::max(f(ex.min_qty), up(to_qty(f(ex.min_cost), price, f(ex.c_mult)), f(ex.qty_step)))
}

fn initial_qty(ex: &ExchangeParams, bp: &BotParams, balance: f64, price: f64) -> f64 {
    let cost = balance * f(bp.wallet_exposure_limit) * f(bp.entry_initial_qty_pct);
    f64::max(least(price, ex), near(to_qty(cost, price, f(ex.c_mult)), f(ex.qty_step)))
}

fn reentry_qty(price: f64, balance: f64, size: f64, factor: f64, ex: &ExchangeParams, bp: &BotParams) -> f64 {
    let share =
        to_qty(balance, price, f(ex.c_mult)) * f(bp.wallet_exposure_limit) * f(bp.entry_initial_qty_pct);
    f64::max(least(price, ex), near(f64::max(size.abs() * factor, share), f(ex.qty_step)))
}

fn cropped(
    ex: &ExchangeParams,
    bp: &BotParams,
    size: f64,
    average: f64,
    we: f64,
    balance: f64,
    qty: f64,
    price: f64,
) -> (f64, f64) {
    let step = f(ex.qty_step);
    let (size, qty) = (size.abs(), qty.abs());
    let (new_size, new_average) = filled(near(size, step), average, near(qty, step), price, step);
    let we_filled = exposure(f(ex.c_mult), balance, new_size, new_average);
    let limit = f(bp.wallet_exposure_limit);
    if we_filled > limit * 1.01 {
        let left = line(limit, [we, we_filled], [size, size + qty]) - size;
        (we_filled, f64::max(near(left, step), least(price, ex)))
    } else {
        (we_filled, f64::max(qty, least(price, ex)))
    }
}

fn reentry_price(long: bool, average: f64, we: f64, book: f64, ex: &ExchangeParams, bp: &BotParams) -> f64 {
    let widening = 1.0 + (we / f(bp.wallet_exposure_limit)) * f(bp.entry_grid_spacing_weight);
    let distance = f(bp.entry_grid_spacing_pct) * widening;
    let step = f(ex.price_step);
    let price = if long {
        f64::min(down(average * (1.0 - distance), step), book)
    } else {
        f64::max(up(average * (1.0 + distance), step), book)
    };
    if price <= step {
        0.0
    } else {
        price
    }
}

type Entry = (f64, f64, OrderType);

const NONE: Entry = (0.0, 0.0, OrderType::Empty);

fn entry(long: bool, qty: f64, price: f64, if_long: OrderType, if_short: OrderType) -> Entry {
    if long {
        (qty, price, if_long)
    } else {
        (-qty, price, if_short)
    }
}

fn initial(
    long: bool,
    ex: &ExchangeParams,
    st: &StateParams,
    bp: &BotParams,
    size: f64,
) -> Result<(f64, f64), Entry> {
    let step = f(ex.price_step);
    let dist = f(bp.entry_initial_ema_dist);
    let price = if long {
        f64::min(f(st.order_book.bid), down(f(st.ema_bands.lower) * (1.0 - dist), step))
    } else {
        f64::max(f(st.order_book.ask), up(f(st.ema_bands.upper) * (1.0 + dist), step))
    };
    if price <= step {
        return Err(NONE);
    }
    let qty = initial_qty(ex, bp, f(st.balance), price);
    if size == 0.0 {
        return Err(entry(
            long,
            qty,
            price,
            OrderType::EntryInitialNormalLong,
            OrderType::EntryInitialNormalShort,
        ));
    }
    if size < qty * 0.8 {
        let missing = f64::max(least(price, ex), down(qty - size, f(ex.qty_step)));
        return Err(entry(
            long,
            missing,
            price,
            OrderType::EntryInitialPartialLong,
            OrderType::EntryInitialPartialShort,
        ));
    }
    Ok((price, qty))
}

fn grid(long: bool, ex: &ExchangeParams, st: &StateParams, bp: &BotParams, p: &Position) -> Entry {
    let limit = f(bp.wallet_exposure_limit);
    let balance = f(st.balance);
    if limit == 0.0 || balance <= 0.0 {
        return NONE;
    }
    let size = if long { f(p.size) } else { f(p.size).abs() };
    let average = f(p.price);
    let first = match initial(long, ex, st, bp, size) {
        Ok((_, qty)) => qty,
        Err(e) => return e,
    };
    let we = exposure(f(ex.c_mult), balance, size, average);
    if we >= limit * 0.999 {
        return NONE;
    }
    let book = if long { f(st.order_book.bid) } else { f(st.order_book.ask) };
    let price = reentry_price(long, average, we, book, ex, bp);
    if price <= 0.0 {
        return NONE;
    }
    let factor = f(bp.entry_grid_double_down_factor);
    let qty = f64::max(reentry_qty(price, balance, size, factor, ex, bp), first);
    let (we_filled, crop) = cropped(ex, bp, f(p.size), average, we, balance, qty, price);
    if crop < qty {
        return entry(long, crop, price, OrderType::EntryGridCroppedLong, OrderType::EntryGridCroppedShort);
    }
    let (next_size, next_average) = filled(size, average, qty, price, f(ex.qty_step));
    let next_price = reentry_price(long, next_average, we_filled, book, ex, bp);
    let next_qty = f64::max(reentry_qty(next_price, balance, next_size, factor, ex, bp), first);
    let (_, next_crop) = cropped(ex, bp, next_size, next_average, we_filled, balance, next_qty, next_price);
    if next_crop / next_size < factor * 0.25 {
        let inflated = line(limit, [we, we_filled], [size, size + qty]) - size;
        entry(
            long,
            near(inflated, f(ex.qty_step)),
            price,
            OrderType::EntryGridInflatedLong,
            OrderType::EntryGridInflatedShort,
        )
    } else {
        entry(long, qty, price, OrderType::EntryGridNormalLong, OrderType::EntryGridNormalShort)
    }
}

fn trailing(
    long: bool,
    ex: &ExchangeParams,
    st: &StateParams,
    bp: &BotParams,
    p: &Position,
    t: &TrailingPriceBundle,
) -> Entry {
    let limit = f(bp.wallet_exposure_limit);
    let balance = f(st.balance);
    let size = if long { f(p.size) } else { f(p.size).abs() };
    let average = f(p.price);
    let first = match initial(long, ex, st, bp, size) {
        Ok((_, qty)) => qty,
        Err(e) => return e,
    };
    let we = exposure(f(ex.c_mult), balance, size, average);
    if we > limit * 0.999 {
        return NONE;
    }
    let (thr, ret) = (f(bp.entry_trailing_threshold_pct), f(bp.entry_trailing_retracement_pct));
    let step = f(ex.price_step);
    let (bid, ask) = (f(st.order_book.bid), f(st.order_book.ask));
    let back = if long {
        f(t.max_since_min) > f(t.min_since_open) * (1.0 + ret)
    } else {
        f(t.min_since_max) < f(t.max_since_open) * (1.0 - ret)
    };
    let past = if long {
        f(t.min_since_open) < average * (1.0 - thr)
    } else {
        f(t.max_since_open) > average * (1.0 + thr)
    };
    let price = if thr <= 0.0 {
        if ret > 0.0 && back {
            Some(if long { bid } else { ask })
        } else {
            None
        }
    } else if ret <= 0.0 {
        Some(if long {
            f64::min(bid, down(average * (1.0 - thr), step))
        } else {
            f64::max(ask, up(average * (1.0 + thr), step))
        })
    } else if past && back {
        Some(if long {
            f64::min(bid, down(average * (1.0 - thr + ret), step))
        } else {
            f64::max(ask, up(average * (1.0 + thr - ret), step))
        })
    } else {
        None
    };
    let price = match price {
        Some(price) => price,
        None => {
            return if long {
                (0.0, 0.0, OrderType::EntryTrailingNormalLong)
            } else {
                (0.0, 0.0, OrderType::EntryTrailingNormalShort)
            }
        }
    };
    let factor = f(bp.entry_trailing_double_down_factor);
    let qty = f64::max(reentry_qty(price, balance, size, factor, ex, bp), first);
    let (_, crop) = cropped(ex, bp, f(p.size), average, we, balance, qty, price);
    if crop < qty {
        entry(
            long,
            crop,
            price,
            OrderType::EntryTrailingCroppedLong,
            OrderType::EntryTrailingCroppedShort,
        )
    } else {
        entry(long, qty, price, OrderType::EntryTrailingNormalLong, OrderType::EntryTrailingNormalShort)
    }
}

fn divergence(ex: &ExchangeParams, st: &StateParams, bp: &BotParams, d: &DivergenceBundle) -> Entry {
    if bp.enable_divergence_entry
        && f(d.curr_low) < f(d.prev_low)
        && f(d.curr_rsi) > f(d.prev_rsi) + f(bp.divergence_rsi_tolerance)
    {
        let bid = f(st.order_book.bid);
        (least(bid, ex), bid, OrderType::EntryDivergenceLong)
    } else {
        NONE
    }
}

fn next(
    long: bool,
    ex: &ExchangeParams,
    st: &StateParams,
    bp: &BotParams,
    p: &Position,
    t: &TrailingPriceBundle,
    d: &DivergenceBundle,
) -> Entry {
    let limit = f(bp.wallet_exposure_limit);
    let ratio = f(bp.entry_trailing_grid_ratio);
    if limit == 0.0 || f(st.balance) <= 0.0 {
        return NONE;
    }
    let trail = |limit: f64| {
        let mut bp = *bp;
        bp.wallet_exposure_limit = b(limit);
        if long && bp.enable_divergence_entry {
            divergence(ex, st, &bp, d)
        } else {
            trailing(long, ex, st, &bp, p, t)
        }
    };
    let rung = |limit: f64| {
        let mut bp = *bp;
        bp.wallet_exposure_limit = b(limit);
        grid(long, ex, st, &bp, p)
    };
    if ratio >= 1.0 || ratio <= -1.0 {
        return trail(limit);
    }
    if ratio == 0.0 {
        return rung(limit);
    }
    let size = if long { f(p.size) } else { f(p.size).abs() };
    let we = exposure(f(ex.c_mult), f(st.balance), size, f(p.price));
    if ratio > 0.0 {
        if we / limit < ratio {
            trail(if we == 0.0 { limit } else { limit * ratio * 1.01 })
        } else {
            rung(limit)
        }
    } else if we / limit < 1.0 + ratio {
        rung(if we == 0.0 { limit } else { limit * (1.0 + ratio) * 1.01 })
    } else {
        trail(limit)
    }
}

fn ladder(
    long: bool,
    ex: &ExchangeParams,
    st: &StateParams,
    bp: &BotParams,
    p: &Position,
    t: &TrailingPriceBundle,
    d: &DivergenceBundle,
) -> Vec<Entry> {
    let mut entries: Vec<Entry> = vec![];
    let mut st = *st;
    let mut p = *p;
    for _ in 0..500 {
        let e = next(long, ex, &st, bp, &p, t, d);
        if e.0 == 0.0 {
            break;
        }
        if let Some(last) = entries.last() {
            let trailing = matches!(
                e.2,
                OrderType::EntryTrailingNormalLong
                    | OrderType::EntryTrailingCroppedLong
                    | OrderType::EntryTrailingNormalShort
                    | OrderType::EntryTrailingCroppedShort
            );
            if trailing || last.1 == e.1 {
                break;
            }
        }
        let (size, average) = filled(f(p.size), f(p.price), e.0, e.1, f(ex.qty_step));
        p = Position { size: b(size), price: b(average) };
        if long {
            st.order_book.bid = b(f(st.order_book.bid).min(e.1));
        } else {
            st.order_book.ask = b(f(st.order_book.ask).max(e.1));
        }
        entries.push(e);
    }
    entries
}

struct Dice {
    x: u64,
}

impl Dice {
    fn roll(&mut self) -> u64 {
        self.x ^= self.x << 13;
        self.x ^= self.x >> 7;
        self.x ^= self.x << 17;
        self.x
    }

    fn between(&mut self, low: f64, high: f64) -> Binary64 {
        let u = (self.roll() >> 11) as f64 / 9007199254740992.0;
        b(low + (high - low) * u)
    }

    fn one_of(&mut self, xs: &[f64]) -> Binary64 {
        let i = (self.roll() >> 33) as usize % xs.len();
        b(xs[i])
    }

    /// Now and then an extreme value in place of a sensible one.
    fn wild(&mut self, x: Binary64) -> Binary64 {
        if self.roll() >> 33 & 63 == 0 {
            self.one_of(&[0.0, -0.0, -1.0, f64::NAN, f64::INFINITY, f64::NEG_INFINITY, 1e300, 5e-324])
        } else {
            x
        }
    }
}

struct Case {
    ex: ExchangeParams,
    st: StateParams,
    bp: BotParams,
    p: Position,
    t: TrailingPriceBundle,
    d: DivergenceBundle,
}

fn case(r: &mut Dice, long: bool) -> Case {
    let price = f(r.between(50.0, 150.0));
    let balance = f(r.between(100.0, 10000.0));
    let limit = f(r.between(0.1, 2.0));
    let share = f(r.one_of(&[0.0, 0.002, 0.01, 0.1, 0.3, 0.6, 0.9, 0.99, 1.2]));
    let raw = balance * limit * share / price;
    let size = near(raw, 0.001);
    let bid = b(near(price * f(r.between(0.9, 1.01)), 0.01));
    let ask = b(near(price * f(r.between(0.99, 1.1)), 0.01));
    let average = b(price * f(r.between(0.97, 1.03)));
    let low = price * f(r.between(0.85, 1.0));
    let high = price * f(r.between(1.0, 1.15));
    Case {
        ex: ExchangeParams {
            qty_step: r.one_of(&[0.001, 0.001, 0.01, 0.1]),
            price_step: r.one_of(&[0.01, 0.01, 0.1, 0.5]),
            min_qty: r.one_of(&[0.001, 0.01, 1.0]),
            min_cost: r.one_of(&[0.1, 5.0, 100.0]),
            c_mult: r.one_of(&[1.0, 1.0, 0.1, 10.0]),
        },
        st: StateParams {
            balance: r.wild(b(balance)),
            order_book: OrderBook { bid: r.wild(bid), ask: r.wild(ask) },
            ema_bands: EMABands {
                upper: r.wild(b(price * 1.005)),
                lower: r.wild(b(price * 0.995)),
            },
        },
        bp: BotParams {
            wallet_exposure_limit: r.wild(b(limit)),
            entry_initial_qty_pct: r.between(0.003, 0.05),
            entry_initial_ema_dist: r.between(-0.02, 0.02),
            entry_grid_spacing_pct: r.between(0.005, 0.08),
            entry_grid_spacing_weight: r.between(0.0, 10.0),
            entry_grid_double_down_factor: r.between(0.1, 2.5),
            entry_trailing_grid_ratio: r.one_of(&[0.0, 0.0, 1.0, -1.0, 0.5, -0.5, 0.2, -0.8, f64::NAN]),
            entry_trailing_threshold_pct: r.one_of(&[-0.1, 0.0, 0.01, 0.05]),
            entry_trailing_retracement_pct: r.one_of(&[-0.1, 0.0, 0.005, 0.03]),
            entry_trailing_double_down_factor: r.between(0.1, 2.5),
            enable_divergence_entry: r.roll() >> 33 & 3 == 0,
            divergence_rsi_tolerance: r.between(0.0, 3.0),
        },
        p: Position {
            size: r.wild(b(if long { size } else { -size })),
            price: r.wild(average),
        },
        t: TrailingPriceBundle {
            min_since_open: b(low),
            max_since_min: b(low * f(r.between(1.0, 1.05))),
            max_since_open: b(high),
            min_since_max: b(high * f(r.between(0.95, 1.0))),
        },
        d: DivergenceBundle {
            curr_low: r.between(90.0, 100.0),
            prev_low: r.between(90.0, 100.0),
            curr_rsi: r.between(20.0, 40.0),
            prev_rsi: r.between(20.0, 40.0),
        },
    }
}

fn same_number(x: Binary64, y: f64) -> bool {
    x.to_bits() == y.to_bits() || f(x) == y || (x.is_nan() && y.is_nan())
}

fn same(o: &Order, e: &Entry, i: usize) {
    assert_eq!(o.order_type, e.2, "case {}", i);
    assert!(same_number(o.qty, e.0), "case {}: qty {} {}", i, f(o.qty), e.0);
    assert!(same_number(o.price, e.1), "case {}: price {} {}", i, f(o.price), e.1);
}

#[test]
fn single_entries_agree() {
    let mut r = Dice { x: 0x2545f4914f6cdd1d };
    for i in 0..3000 {
        let c = case(&mut r, true);
        same(&calc_grid_entry_long(&c.ex, &c.st, &c.bp, &c.p), &grid(true, &c.ex, &c.st, &c.bp, &c.p), i);
        same(
            &calc_trailing_entry_long(&c.ex, &c.st, &c.bp, &c.p, &c.t),
            &trailing(true, &c.ex, &c.st, &c.bp, &c.p, &c.t),
            i,
        );
        same(
            &calc_divergence_entry_long(&c.ex, &c.st, &c.bp, &c.p, &c.d),
            &divergence(&c.ex, &c.st, &c.bp, &c.d),
            i,
        );
        same(
            &calc_next_entry_long(&c.ex, &c.st, &c.bp, &c.p, &c.t, &c.d),
            &next(true, &c.ex, &c.st, &c.bp, &c.p, &c.t, &c.d),
            i,
        );
        let c = case(&mut r, false);
        same(&calc_grid_entry_short(&c.ex, &c.st, &c.bp, &c.p), &grid(false, &c.ex, &c.st, &c.bp, &c.p), i);
        same(
            &calc_trailing_entry_short(&c.ex, &c.st, &c.bp, &c.p, &c.t),
            &trailing(false, &c.ex, &c.st, &c.bp, &c.p, &c.t),
            i,
        );
        same(
            &calc_next_entry_short(&c.ex, &c.st, &c.bp, &c.p, &c.t),
            &next(false, &c.ex, &c.st, &c.bp, &c.p, &c.t, &c.d),
            i,
        );
    }
}

#[test]
fn every_type_of_entry_occurs() {
    let mut r = Dice { x: 0x2545f4914f6cdd1d };
    let mut seen: Vec<OrderType> = vec![];
    for _ in 0..3000 {
        let c = case(&mut r, true);
        let mut types = vec![
            calc_grid_entry_long(&c.ex, &c.st, &c.bp, &c.p).order_type,
            calc_trailing_entry_long(&c.ex, &c.st, &c.bp, &c.p, &c.t).order_type,
            calc_divergence_entry_long(&c.ex, &c.st, &c.bp, &c.p, &c.d).order_type,
        ];
        let c = case(&mut r, false);
        types.push(calc_grid_entry_short(&c.ex, &c.st, &c.bp, &c.p).order_type);
        types.push(calc_trailing_entry_short(&c.ex, &c.st, &c.bp, &c.p, &c.t).order_type);
        for t in types {
            if !seen.contains(&t) {
                seen.push(t);
            }
        }
    }
    assert_eq!(seen.len(), 16, "{:?}", seen);
}

#[test]
fn planned_entries_agree() {
    let mut r = Dice { x: 0x9e3779b97f4a7c15 };
    let mut longest = 0;
    for i in 0..400 {
        let c = case(&mut r, true);
        let ours = calc_entries_long(&c.ex, &c.st, &c.bp, &c.p, &c.t, &c.d);
        let theirs = ladder(true, &c.ex, &c.st, &c.bp, &c.p, &c.t, &c.d);
        assert_eq!(ours.len(), theirs.len(), "case {}", i);
        for (o, e) in ours.iter().zip(theirs.iter()) {
            same(o, e, i);
        }
        longest = longest.max(ours.len());
        let c = case(&mut r, false);
        let ours = calc_entries_short(&c.ex, &c.st, &c.bp, &c.p, &c.t);
        let theirs = ladder(false, &c.ex, &c.st, &c.bp, &c.p, &c.t, &c.d);
        assert_eq!(ours.len(), theirs.len(), "case {}", i);
        for (o, e) in ours.iter().zip(theirs.iter()) {
            same(o, e, i);
        }
        longest = longest.max(ours.len());
    }
    assert!(longest > 5);
}

#[test]
fn quantities_agree() {
    let mut r = Dice { x: 0xda942042e4dd58b5 };
    for i in 0..3000 {
        let c = case(&mut r, i % 2 == 0);
        let price = r.between(-10.0, 200.0);
        let qty = r.between(-20.0, 20.0);
        let we = r.between(0.0, 2.0);
        let balance = c.st.balance;
        assert!(same_number(calc_min_entry_qty(price, &c.ex), least(f(price), &c.ex)));
        assert!(same_number(
            calc_initial_entry_qty(&c.ex, &c.bp, balance, price),
            initial_qty(&c.ex, &c.bp, f(balance), f(price)),
        ));
        assert!(same_number(
            calc_reentry_qty(price, balance, c.p.size, qty, &c.ex, &c.bp),
            reentry_qty(f(price), f(balance), f(c.p.size), f(qty), &c.ex, &c.bp),
        ));
        let ours = calc_cropped_reentry_qty(&c.ex, &c.bp, &c.p, we, balance, qty, price);
        let theirs =
            cropped(&c.ex, &c.bp, f(c.p.size), f(c.p.price), f(we), f(balance), f(qty), f(price));
        assert!(same_number(ours.0, theirs.0), "case {}", i);
        assert!(same_number(ours.1, theirs.1), "case {}", i);
    }
}
