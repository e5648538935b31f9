use entry_orders::binary64::Binary64;

fn b(x: f64) -> Binary64 {
    Binary64::from_bits(x.to_bits())
}

fn samples() -> Vec<f64> {
    let mut v: Vec<f64> = vec![
        0.0, -0.0, 1.0, -1.0, 0.5, 1.5, 2.5, -2.5, 0.1, 0.2, 0.3, 1.0 / 3.0, 3.0, 10.0, 1e10, 1e-10,
        4503599627370495.5, 4503599627370496.0, 9007199254740991.0, 9007199254740992.0,
        f64::MAX, f64::MIN, f64::MIN_POSITIVE, 5e-324, 2.2250738585072011e-308, 1e308, -1e308, 1e-308,
        f64::INFINITY, f64::NEG_INFINITY, f64::NAN, f64::EPSILON, 1.0 + f64::EPSILON, 0.49999999999999994,
    ];
    // a fixed pseudo-random sequence over all bit patterns and over everyday magnitudes
    let mut x: u64 = 0x9e3779b97f4a7c15;
    for i in 0..150 {
        x ^= x << 13;
        x ^= x >> 7;
        x ^= x << 17;
        if i % 3 == 0 {
            v.push(f64::from_bits(x));
        } else {
            v.push(((x >> 11) as f64) / 9007199254740992.0 * if i % 3 == 1 { 100.0 } else { -30000.0 });
        }
    }
    v
}

fn same(soft: Binary64, hard: f64, what: &str, x: f64, y: f64) {
    if hard.is_nan() {
        assert!(soft.is_nan(), "{} {:?} {:?}", what, x, y);
    } else {
        assert_eq!(soft.to_bits(), hard.to_bits(), "{} {:?} {:?}", what, x, y);
    }
}

#[test]
fn single_operand_operations_agree_with_the_processor() {
    for &x in samples().iter() {
        same(b(x).floor(), x.floor(), "floor", x, x);
        same(b(x).ceil(), x.ceil(), "ceil", x, x);
        same(b(x).round(), x.round(), "round", x, x);
        same(b(x).abs(), x.abs(), "abs", x, x);
        same(b(x).negated(), -x, "negated", x, x);
        assert_eq!(b(x).is_nan(), x.is_nan());
        assert_eq!(b(x).is_infinite(), x.is_infinite());
        assert_eq!(b(x).is_sign_negative(), x.is_sign_negative());
    }
}

#[test]
fn comparisons_agree_with_the_processor() {
    let v = samples();
    for &x in v.iter() {
        for &y in v.iter() {
            assert_eq!(b(x).lt(b(y)), x < y);
            assert_eq!(b(x).le(b(y)), x <= y);
            assert_eq!(b(x).gt(b(y)), x > y);
            assert_eq!(b(x).ge(b(y)), x >= y);
            assert_eq!(b(x).equals(b(y)), x == y);
            // which of two equal zeros comes out is left open
            if !(x == 0.0 && y == 0.0) {
                same(b(x).max(b(y)), x.max(y), "max", x, y);
                same(b(x).min(b(y)), x.min(y), "min", x, y);
            }
        }
    }
}

#[test]
fn rounding_is_to_nearest_ties_to_even() {
    assert_eq!((b(9007199254740992.0) + b(1.0)).to_bits(), 9007199254740992.0f64.to_bits());
    assert_eq!((b(9007199254740994.0) + b(1.0)).to_bits(), 9007199254740996.0f64.to_bits());
    assert_eq!((b(0.1) + b(0.2)).to_bits(), 0.30000000000000004f64.to_bits());
    assert_eq!((b(1.0) / b(3.0)).to_bits(), 0x3fd5555555555555);
    assert_eq!((b(5e-324) * b(0.5)).to_bits(), 0);
    assert_eq!((b(5e-324) * b(0.75)).to_bits(), 1);
    assert_eq!((b(f64::MAX) + b(f64::MAX)).to_bits(), f64::INFINITY.to_bits());
}

#[test]
fn numbers_are_kept_exactly() {
    for &x in samples().iter() {
        if !x.is_nan() {
            assert_eq!((b(x) * b(1.0)).to_bits(), x.to_bits());
            assert_eq!((b(x) / b(1.0)).to_bits(), x.to_bits());
        }
    }
}

#[test]
fn addition_keeps_the_order() {
    let v = samples();
    for &x in v.iter() {
        for &y in v.iter() {
            if x <= y {
                let (s, t) = (b(x) + b(0.7), b(y) + b(0.7));
                assert!(s.le(t), "{} {}", x, y);
            }
        }
    }
}

#[test]
fn operations_keep_the_order() {
    let v = samples();
    for &x in v.iter() {
        for &y in v.iter() {
            if x <= y {
                assert!((b(x) * b(0.7)).le(b(y) * b(0.7)), "{} {}", x, y);
                assert!((b(x) / b(0.7)).le(b(y) / b(0.7)), "{} {}", x, y);
                assert!(b(x).floor().le(b(y).floor()), "{} {}", x, y);
                assert!(b(x).ceil().le(b(y).ceil()), "{} {}", x, y);
                assert!(b(x).round().le(b(y).round()), "{} {}", x, y);
                assert!(b(y).negated().le(b(x).negated()), "{} {}", x, y);
            }
            assert_eq!((b(x) + b(y)).to_bits(), (b(y) + b(x)).to_bits());
            assert_eq!((b(x) * b(y)).to_bits(), (b(y) * b(x)).to_bits());
        }
    }
}

#[test]
fn constants_are_the_nearest_doubles() {
    assert_eq!(entry_orders::constants::zero().to_bits(), 0.0f64.to_bits());
    assert_eq!(entry_orders::constants::one().to_bits(), 1.0f64.to_bits());
    assert_eq!(entry_orders::constants::initial_share().to_bits(), 0.8f64.to_bits());
    assert_eq!(entry_orders::constants::full_share().to_bits(), 0.999f64.to_bits());
    assert_eq!(entry_orders::constants::limit_slack().to_bits(), 1.01f64.to_bits());
    assert_eq!(entry_orders::constants::dust_share().to_bits(), 0.25f64.to_bits());
    assert_eq!(entry_orders::constants::decimal_scale().to_bits(), 1e10f64.to_bits());
}

#[test]
fn operations_agree_with_the_processor() {
    let v = samples();
    for &x in v.iter() {
        for &y in v.iter() {
            same(b(x) + b(y), x + y, "+", x, y);
            same(b(x) - b(y), x - y, "-", x, y);
            same(b(x) * b(y), x * y, "*", x, y);
            same(b(x) / b(y), x / y, "/", x, y);
        }
    }
}
