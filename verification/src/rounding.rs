//! Rounding of exact rational magnitudes to double precision.
//!
//! A finite double is a whole number of *units*, one unit being the smallest positive double,
//! `2^-1074`. The bits of a double below its sign bit, read as a natural number, count the
//! doubles in increasing order, so that a magnitude is known by its position in that order.
use vstd::arithmetic::div_mod::lemma_fundamental_div_mod;
use vstd::arithmetic::div_mod::lemma_fundamental_div_mod_converse;
use vstd::arithmetic::power2::lemma_pow2_adds;
use vstd::arithmetic::power2::lemma_pow2_pos;
use vstd::arithmetic::power2::lemma_pow2_unfold;
use vstd::arithmetic::power2::pow2;
use vstd::prelude::*;

verus! {

/// The number of doubles in one binade: `2^52`.
pub const BINADE: u64 = 0x10_0000_0000_0000;

/// The number of magnitudes that are spaced by one unit: `2^53`.
pub const EVEN_SPAN: u64 = 0x20_0000_0000_0000;

/// The magnitude, in units, of the double at position `b`: the first `2^53` positions are one
/// unit apart, and from there on the spacing doubles with every binade.
pub open spec fn units(b: nat) -> nat
    decreases b,
{
    if b < EVEN_SPAN {
        b
    } else {
        2 * units((b - BINADE) as nat)
    }
}

/// The whole number nearest to `n / d`; of two equally near ones, the even one.
pub open spec fn nearest_int(n: nat, d: nat) -> nat {
    let q = n / d;
    let r = n % d;
    if 2 * r < d || (2 * r == d && q % 2 == 0) {
        q
    } else {
        q + 1
    }
}

/// The position of the double nearest to `n / d` units, ties going to the even position, as if
/// there were no largest double: a quotient within the evenly spaced span is rounded to a whole
/// number of units, and a larger one is rounded in the unit twice as large, one binade up.
pub open spec fn nearest(n: nat, d: nat) -> nat
    decreases (if n >= d {
        n - d
    } else {
        0
    }),
{
    if d == 0 || n < d * EVEN_SPAN {
        nearest_int(n, d)
    } else {
        BINADE as nat + nearest(n, 2 * d)
    }
}

/// `nearest_int` depends on the quotient alone.
pub proof fn lemma_nearest_int_scale(n: nat, d: nat, c: nat)
    requires
        d > 0,
        c > 0,
    ensures
        nearest_int(n * c, d * c) == nearest_int(n, d),
{
    let q = n / d;
    let r = n % d;
    lemma_fundamental_div_mod(n as int, d as int);
    assert(n * c == q * (d * c) + r * c) by (nonlinear_arith)
        requires
            n == d * q + r,
    ;
    assert(0 <= r * c < d * c) by (nonlinear_arith)
        requires
            0 <= r < d,
            c > 0,
    ;
    lemma_fundamental_div_mod_converse((n * c) as int, (d * c) as int, q as int, (r * c) as int);
    assert(2 * (r * c) < d * c <==> 2 * r < d) by (nonlinear_arith)
        requires
            c > 0,
    ;
    assert(2 * (r * c) == d * c <==> 2 * r == d) by (nonlinear_arith)
        requires
            c > 0,
    ;
}

/// `nearest` depends on the quotient alone.
pub proof fn lemma_nearest_scale(n: nat, d: nat, c: nat)
    requires
        d > 0,
        c > 0,
    ensures
        nearest(n * c, d * c) == nearest(n, d),
    decreases (if n >= d {
        n - d
    } else {
        0
    }),
{
    assert(d * c > 0) by (nonlinear_arith)
        requires
            d > 0,
            c > 0,
    ;
    assert(n * c < (d * c) * EVEN_SPAN <==> n < d * EVEN_SPAN) by (nonlinear_arith)
        requires
            c > 0,
    ;
    if n < d * EVEN_SPAN {
        lemma_nearest_int_scale(n, d, c);
    } else {
        lemma_nearest_scale(n, 2 * d, c);
        assert((2 * d) * c == 2 * (d * c)) by (nonlinear_arith);
    }
}

/// The closed form of `units`: position `k * 2^52 + m` is worth `m * 2^k` units.
pub proof fn lemma_units_closed(m: nat, k: nat)
    requires
        m <= EVEN_SPAN,
        k > 0 ==> BINADE <= m,
    ensures
        units(k * BINADE as nat + m) == m * pow2(k),
    decreases k,
{
    reveal_with_fuel(units, 3);
    if k == 0 {
        vstd::arithmetic::power2::lemma2_to64();
    } else {
        lemma_pow2_unfold(k);
        lemma_units_closed(m, (k - 1) as nat);
        assert((k - 1) * BINADE + m == k * BINADE + m - BINADE) by (nonlinear_arith);
        assert(k * BINADE + m >= EVEN_SPAN) by (nonlinear_arith)
            requires
                k >= 1,
                m >= BINADE,
                EVEN_SPAN == 2 * BINADE,
        ;
        assert(2 * (m * pow2((k - 1) as nat)) == m * (2 * pow2((k - 1) as nat)))
            by (nonlinear_arith);
    }
}

/// The closed form of `nearest`: in the binade `k` that holds `n / d` the quotient is rounded to
/// a whole number of `2^k` units.
pub proof fn lemma_nearest_closed(n: nat, d: nat, k: nat)
    requires
        d > 0,
        n < (d * pow2(k)) * EVEN_SPAN,
        k > 0 ==> n >= (d * pow2(k)) * BINADE,
    ensures
        nearest(n, d) == k * BINADE as nat + nearest_int(n, d * pow2(k)),
    decreases k,
{
    if k == 0 {
        vstd::arithmetic::power2::lemma2_to64();
        assert(d * pow2(0) == d) by (nonlinear_arith)
            requires
                pow2(0) == 1,
        ;
    } else {
        let h = pow2((k - 1) as nat);
        lemma_pow2_unfold(k);
        lemma_pow2_pos((k - 1) as nat);
        assert((2 * d) * h == d * pow2(k)) by (nonlinear_arith)
            requires
                pow2(k) == 2 * h,
        ;
        assert(n >= d * EVEN_SPAN) by (nonlinear_arith)
            requires
                n >= ((2 * d) * h) * BINADE,
                h >= 1,
                EVEN_SPAN == 2 * BINADE,
        ;
        if k > 1 {
            assert(((2 * d) * h) * BINADE <= n);
        }
        lemma_nearest_closed(n, 2 * d, (k - 1) as nat);
        assert((k - 1) * BINADE + BINADE == k * BINADE) by (nonlinear_arith);
    }
}

/// A position never exceeds its magnitude.
pub proof fn lemma_units_at_least(b: nat)
    ensures
        units(b) >= b,
    decreases b,
{
    if b >= EVEN_SPAN {
        lemma_units_at_least((b - BINADE) as nat);
    }
}

/// Positions are in the order of their magnitudes.
pub proof fn lemma_units_increasing(a: nat, b: nat)
    requires
        a < b,
    ensures
        units(a) < units(b),
    decreases b,
{
    if b >= EVEN_SPAN {
        if a >= EVEN_SPAN {
            lemma_units_increasing((a - BINADE) as nat, (b - BINADE) as nat);
        } else {
            lemma_units_at_least((b - BINADE) as nat);
        }
    }
}

/// Positions and magnitudes compare alike.
pub proof fn lemma_units_order(a: nat, b: nat)
    ensures
        a < b <==> units(a) < units(b),
        a == b <==> units(a) == units(b),
{
    if a < b {
        lemma_units_increasing(a, b);
    } else if b < a {
        lemma_units_increasing(b, a);
    }
}

/// Dividing with remainder and keeping only whether something was left rounds as the exact
/// quotient does, as long as the rounding drops at least one bit of `q`.
proof fn lemma_sticky_int(q: nat, w: nat, r: nat, h: nat)
    requires
        r < w,
        h > 0,
    ensures
        nearest_int(q * w + r, w * (2 * h)) == nearest_int(
            2 * q + (if r == 0 {
                0nat
            } else {
                1nat
            }),
            2 * (2 * h),
        ),
{
    let p: nat = 2 * h;
    let st: nat = if r == 0 {
        0
    } else {
        1
    };
    let qq = q / p;
    let rr = q % p;
    lemma_fundamental_div_mod(q as int, p as int);
    assert(q * w + r == qq * (w * p) + (rr * w + r)) by (nonlinear_arith)
        requires
            q == p * qq + rr,
    ;
    assert(0 <= rr * w + r < w * p) by (nonlinear_arith)
        requires
            0 <= rr <= p - 1,
            0 <= r < w,
    ;
    lemma_fundamental_div_mod_converse(
        (q * w + r) as int,
        (w * p) as int,
        qq as int,
        (rr * w + r) as int,
    );
    assert(2 * q + st == qq * (2 * p) + (2 * rr + st)) by (nonlinear_arith)
        requires
            q == p * qq + rr,
    ;
    lemma_fundamental_div_mod_converse(
        (2 * q + st) as int,
        (2 * p) as int,
        qq as int,
        (2 * rr + st) as int,
    );
    assert(rr < h ==> rr * w + r < w * h) by (nonlinear_arith)
        requires
            0 <= r < w,
    ;
    assert(rr > h ==> rr * w + r > w * h) by (nonlinear_arith)
        requires
            0 <= r < w,
    ;
    assert(rr == h ==> rr * w + r == w * h + r) by (nonlinear_arith);
    assert(w * p == 2 * (w * h)) by (nonlinear_arith)
        requires
            p == 2 * h,
    ;
}

/// Rounding a quotient `q + r / w`, scaled by `2^a / 2^b`, needs no more of the fraction than
/// whether it is zero, once `q` has more bits than a double holds.
pub proof fn lemma_sticky(q: nat, w: nat, r: nat, a: nat, b: nat)
    requires
        r < w,
        q >= 2 * EVEN_SPAN,
    ensures
        nearest((q * w + r) * pow2(a), w * pow2(b)) == nearest(
            (2 * q + (if r == 0 {
                0nat
            } else {
                1nat
            })) * pow2(a),
            2 * pow2(b),
        ),
    decreases (if (q * w + r) * pow2(a) >= w * pow2(b) {
        (q * w + r) * pow2(a) - w * pow2(b)
    } else {
        0
    }),
{
    let st: nat = if r == 0 {
        0
    } else {
        1
    };
    let s: nat = EVEN_SPAN as nat;
    let pa = pow2(a);
    let pb = pow2(b);
    vstd::arithmetic::power2::lemma2_to64();
    vstd::arithmetic::power2::lemma2_to64_rest();
    lemma_pow2_pos(a);
    lemma_pow2_pos(b);
    lemma_pow2_adds(b, 53);
    assert(pb * s == pow2(b + 53));
    assert(w * pb > 0) by (nonlinear_arith)
        requires
            w > 0,
            pb > 0,
    ;
    let n1 = (q * w + r) * pa;
    let d1 = w * pb;
    let n2 = (2 * q + st) * pa;
    let d2 = 2 * pb;
    assert(d1 * s == w * (pb * s)) by (nonlinear_arith)
        requires
            d1 == w * pb,
    ;
    assert(d2 * s == 2 * (pb * s)) by (nonlinear_arith)
        requires
            d2 == 2 * pb,
    ;
    if a <= b + 53 {
        let t = pow2((b + 53 - a) as nat);
        lemma_pow2_adds(a, (b + 53 - a) as nat);
        assert(pb * s == pa * t);
        assert(n1 < d1 * s <==> q < t) by (nonlinear_arith)
            requires
                n1 == (q * w + r) * pa,
                d1 * s == w * (pa * t),
                0 <= r < w,
                pa > 0,
        {
            if q < t {
                assert(q * w + r < w * t);
                assert((q * w + r) * pa < (w * t) * pa);
                assert((w * t) * pa == w * (pa * t));
            } else {
                assert(q * w + r >= w * t);
                assert((q * w + r) * pa >= (w * t) * pa);
                assert((w * t) * pa == w * (pa * t));
            }
        }
        assert(n2 < d2 * s <==> q < t) by (nonlinear_arith)
            requires
                n2 == (2 * q + st) * pa,
                d2 * s == 2 * (pa * t),
                st == 0 || st == 1,
                pa > 0,
        {
            if q < t {
                assert(2 * q + st < 2 * t);
                assert((2 * q + st) * pa < (2 * t) * pa);
                assert((2 * t) * pa == 2 * (pa * t));
            } else {
                assert(2 * q + st >= 2 * t);
                assert((2 * q + st) * pa >= (2 * t) * pa);
                assert((2 * t) * pa == 2 * (pa * t));
            }
        }
        if q < t {
            if b < a + 1 {
                if b + 53 - a < 54 {
                    vstd::arithmetic::power2::lemma_pow2_strictly_increases(
                        (b + 53 - a) as nat,
                        54,
                    );
                }
                assert(false);
            }
            let h = pow2((b - a - 1) as nat);
            lemma_pow2_pos((b - a - 1) as nat);
            lemma_pow2_unfold((b - a) as nat);
            lemma_pow2_adds(a, (b - a) as nat);
            assert(pb == pa * (2 * h));
            lemma_sticky_int(q, w, r, h);
            assert(w * (2 * h) > 0) by (nonlinear_arith)
                requires
                    w > 0,
                    h > 0,
            ;
            lemma_nearest_int_scale(q * w + r, w * (2 * h), pa);
            lemma_nearest_int_scale(2 * q + st, 2 * (2 * h), pa);
            assert(w * (2 * h) * pa == d1) by (nonlinear_arith)
                requires
                    d1 == w * pb,
                    pb == pa * (2 * h),
            ;
            assert(2 * (2 * h) * pa == d2) by (nonlinear_arith)
                requires
                    d2 == 2 * pb,
                    pb == pa * (2 * h),
            ;
        }
    } else {
        lemma_pow2_adds(b + 53, (a - b - 53) as nat);
        lemma_pow2_pos((a - b - 53) as nat);
        let j = pow2((a - b - 53) as nat);
        assert(n1 >= d1 * s) by (nonlinear_arith)
            requires
                n1 == (q * w + r) * pa,
                d1 * s == w * (pb * s),
                pa == (pb * s) * j,
                j >= 1,
                q >= 1,
                w > 0,
                r >= 0,
                pb * s >= 0,
        {
            assert(q * w + r >= w);
            assert(pa >= pb * s);
            assert((q * w + r) * pa >= w * pa);
            assert(w * pa >= w * (pb * s));
        }
        assert(n2 >= d2 * s) by (nonlinear_arith)
            requires
                n2 == (2 * q + st) * pa,
                d2 * s == 2 * (pb * s),
                pa == (pb * s) * j,
                j >= 1,
                q >= 1,
                st >= 0,
                pb * s >= 0,
        {
            assert(2 * q + st >= 2);
            assert(pa >= pb * s);
            assert((2 * q + st) * pa >= 2 * pa);
        }
    }
    if n1 >= d1 * s {
        lemma_pow2_unfold(b + 1);
        assert(w * pow2(b + 1) == 2 * d1) by (nonlinear_arith)
            requires
                d1 == w * pb,
                pow2(b + 1) == 2 * pb,
        ;
        assert(d1 * s >= 2 * d1) by (nonlinear_arith)
            requires
                s >= 2,
                d1 >= 0,
        ;
        lemma_sticky(q, w, r, a, b + 1);
    }
}

/// How far the double at position `b` is from `n / d` units, in units of `1 / d`.
pub open spec fn distance(n: nat, d: nat, b: nat) -> nat {
    if n >= units(b) * d {
        (n - units(b) * d) as nat
    } else {
        (units(b) * d - n) as nat
    }
}

/// No whole number is nearer to `n / d` than `nearest_int(n, d)`, and it is even where another
/// one is as near.
proof fn lemma_nearest_int_is_nearest(n: nat, d: nat, y: nat)
    requires
        d > 0,
    ensures
        ({
            let x = nearest_int(n, d);
            let dx = if n >= x * d {
                n - x * d
            } else {
                x * d - n
            };
            let dy = if n >= y * d {
                n - y * d
            } else {
                y * d - n
            };
            &&& dx <= dy
            &&& dx == dy && x != y ==> x % 2 == 0
            &&& 2 * dx <= d
        }),
{
    let q = n / d;
    let r = n % d;
    lemma_fundamental_div_mod(n as int, d as int);
    assert(n - q * d == r) by (nonlinear_arith)
        requires
            n == d * q + r,
    ;
    assert((q + 1) * d == q * d + d) by (nonlinear_arith);
    assert(y <= q - 1 ==> y * d <= q * d - d) by (nonlinear_arith)
        requires
            d > 0,
    ;
    assert(y >= q + 2 ==> y * d >= q * d + 2 * d) by (nonlinear_arith)
        requires
            d > 0,
    ;
}

/// Rounding is to nearest: no double is nearer to `n / d` units than the one at
/// `nearest(n, d)`, and where another one is as near, that position is the even one.
pub proof fn law_nearest_is_nearest(n: nat, d: nat, b: nat)
    requires
        d > 0,
    ensures
        distance(n, d, nearest(n, d)) <= distance(n, d, b),
        distance(n, d, nearest(n, d)) == distance(n, d, b) && b != nearest(n, d) ==> nearest(n, d)
            % 2 == 0,
    decreases (if n >= d {
        n - d
    } else {
        0
    }),
{
    reveal_with_fuel(units, 3);
    let x = nearest(n, d);
    if n < d * EVEN_SPAN {
        let y = units(b);
        lemma_nearest_int_is_nearest(n, d, y);
        lemma_nearest_int_is_nearest(n, d, EVEN_SPAN as nat);
        assert(x <= EVEN_SPAN) by {
            lemma_nearest_int_bound(n, d, EVEN_SPAN as nat);
        }
        assert(units(x) == x);
        lemma_units_order(b, x);
    } else {
        let half = (x - BINADE) as nat;
        assert(half == nearest(n, 2 * d));
        lemma_nearest_at_least(n, 2 * d);
        assert(units(x) * d == units(half) * (2 * d)) by (nonlinear_arith)
            requires
                units(x) == 2 * units(half),
        ;
        if b >= EVEN_SPAN {
            law_nearest_is_nearest(n, 2 * d, (b - BINADE) as nat);
            assert(units(b) * d == units((b - BINADE) as nat) * (2 * d)) by (nonlinear_arith)
                requires
                    units(b) == 2 * units((b - BINADE) as nat),
            ;
        } else {
            law_nearest_is_nearest(n, 2 * d, BINADE as nat);
            assert(BINADE * (2 * d) == d * EVEN_SPAN) by (nonlinear_arith)
                requires
                    EVEN_SPAN == 2 * BINADE,
            ;
            assert(units(b) * d < d * EVEN_SPAN) by (nonlinear_arith)
                requires
                    units(b) < EVEN_SPAN,
                    d > 0,
            ;
        }
    }
}

/// Rounding to a whole number stays below a whole bound.
pub proof fn lemma_nearest_int_bound(n: nat, d: nat, c: nat)
    requires
        d > 0,
        n <= d * c,
    ensures
        nearest_int(n, d) <= c,
{
    lemma_fundamental_div_mod(n as int, d as int);
    let q = n / d;
    let r = n % d;
    assert(q <= c && (q == c ==> r == 0)) by (nonlinear_arith)
        requires
            n == d * q + r,
            n <= d * c,
            0 <= r < d,
    ;
}

/// Rounding to a whole number stays above a whole bound.
pub proof fn lemma_nearest_int_at_least(n: nat, d: nat, c: nat)
    requires
        d > 0,
        n >= d * c,
    ensures
        nearest_int(n, d) >= c,
{
    lemma_fundamental_div_mod(n as int, d as int);
    let q = n / d;
    let r = n % d;
    assert(q >= c) by (nonlinear_arith)
        requires
            n == d * q + r,
            n >= d * c,
            0 <= r < d,
    ;
}

/// A quotient past the first binade rounds to a position past it.
proof fn lemma_nearest_at_least(n: nat, d: nat)
    requires
        d > 0,
        n >= d * BINADE,
    ensures
        nearest(n, d) >= BINADE,
{
    if n < d * EVEN_SPAN {
        lemma_nearest_int_at_least(n, d, BINADE as nat);
    }
}

/// A magnitude that a double holds is rounded to itself.
pub proof fn law_nearest_exact(b: nat, d: nat)
    requires
        d > 0,
    ensures
        nearest(units(b) * d, d) == b,
{
    law_nearest_is_nearest(units(b) * d, d, b);
    let x = nearest(units(b) * d, d);
    assert(units(x) == units(b)) by (nonlinear_arith)
        requires
            units(x) * d == units(b) * d,
            d > 0,
    ;
    lemma_units_order(x, b);
}

/// Rounding keeps the order: a larger quotient never rounds to a smaller double.
pub proof fn law_nearest_monotone(n: nat, m: nat, d: nat)
    requires
        d > 0,
        n <= m,
    ensures
        nearest(n, d) <= nearest(m, d),
    decreases (if m >= d {
        m - d
    } else {
        0
    }),
{
    if n < d * EVEN_SPAN && m < d * EVEN_SPAN {
        lemma_fundamental_div_mod(n as int, d as int);
        lemma_fundamental_div_mod(m as int, d as int);
        let (q1, r1) = (n / d, n % d);
        let (q2, r2) = (m / d, m % d);
        assert(q1 <= q2 && (q1 == q2 ==> r1 <= r2)) by (nonlinear_arith)
            requires
                n == d * q1 + r1,
                m == d * q2 + r2,
                n <= m,
                0 <= r1 < d,
                0 <= r2 < d,
        ;
    } else if n < d * EVEN_SPAN {
        lemma_nearest_int_bound(n, d, EVEN_SPAN as nat);
        assert(m >= (2 * d) * BINADE) by (nonlinear_arith)
            requires
                m >= d * EVEN_SPAN,
                EVEN_SPAN == 2 * BINADE,
        ;
        lemma_nearest_at_least(m, 2 * d);
    } else {
        law_nearest_monotone(n, m, 2 * d);
    }
}

/// Rounding is off by at most the `2^53`rd part of the exact magnitude, and below the first full
/// binade by at most half a unit.
pub proof fn law_nearest_error(n: nat, d: nat)
    requires
        d > 0,
    ensures
        n >= d * BINADE ==> distance(n, d, nearest(n, d)) * EVEN_SPAN <= n,
        n < d * BINADE ==> 2 * distance(n, d, nearest(n, d)) <= d,
    decreases (if n >= d {
        n - d
    } else {
        0
    }),
{
    reveal_with_fuel(units, 3);
    let x = nearest(n, d);
    if n < d * EVEN_SPAN {
        lemma_nearest_int_is_nearest(n, d, 0);
        lemma_nearest_int_bound(n, d, EVEN_SPAN as nat);
        assert(units(x) == x);
    } else {
        let half = (x - BINADE) as nat;
        assert(half == nearest(n, 2 * d));
        lemma_nearest_at_least(n, 2 * d);
        assert(units(x) * d == units(half) * (2 * d)) by (nonlinear_arith)
            requires
                units(x) == 2 * units(half),
        ;
        law_nearest_error(n, 2 * d);
    }
}

} // verus!
