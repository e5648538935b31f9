//! How exact the quantity is that meets the exposure limit.
use crate::accuracy::tolerance;
use crate::arithmetic::lemma_whole_is_double;
use crate::binary64::one_in_units;
use crate::binary64::Binary64;
use crate::constants::lemma_one_is_positive;
use crate::constants::one;
use crate::constants::zero;
use crate::exactness::law_special_quotients;
use crate::landing::moderate;
use crate::precision::half_unit;
use crate::precision::huge;
use crate::precision::law_add_error;
use crate::precision::law_div_error;
use crate::precision::law_mul_error;
use crate::precision::law_sub_error;
use crate::precision::lemma_number_order;
use crate::precision::lemma_precision;
use crate::precision::precision;
use crate::precision::spans;
use crate::reals::lemma_associate;
use crate::reals::lemma_cancel;
use crate::reals::lemma_distribute;
use crate::reals::lemma_product;
use crate::reals::lemma_quotient_times;
use crate::reals::lemma_scale;
use crate::reals::lemma_scale_bound;
use crate::reals::size;
use crate::rounding::law_nearest_exact;
use crate::rounding::lemma_nearest_scale;
use crate::rounding::units;
use crate::rounding::EVEN_SPAN;
use crate::rules::qty_to_limit;
use crate::types::BotParams;
use crate::utils::basis;
use crate::utils::polynomial;
use vstd::arithmetic::power2::lemma2_to64;
use vstd::arithmetic::power2::lemma_pow2_adds;
use vstd::arithmetic::power2::lemma_pow2_pos;
use vstd::arithmetic::power2::lemma_pow2_strictly_increases;
use vstd::arithmetic::power2::pow2;
use vstd::prelude::*;

verus! {

/// Whether `y` is within `a` relative errors of `m`, and `h` more, of `x`.
#[verifier::opaque]
pub open spec fn off_by(y: real, x: real, a: real, m: real, h: real) -> bool {
    size(y - x) <= a * (precision() * m) + h
}

/// What one more rounding adds.
proof fn lemma_rounded_off(r: real, y: real, x: real, a: real, m: real, h: real, g: real)
    requires
        0real <= a <= 100real,
        size(x) <= m,
        h >= 0real,
        g >= 0real,
        off_by(y, x, a, m, h),
        size(r - y) <= precision() * size(y) + g,
    ensures
        off_by(r, x, a + 11real / 10real, m, 2real * h + g),
{
    reveal(off_by);
    let u = precision();
    let e = u * m;
    lemma_precision();
    lemma_scale(0real, m, u);
    lemma_scale(a, 100real, e);
    let c = 100real * e;
    lemma_scale(size(y), m + c + h, u);
    lemma_distribute(m + c, h, u);
    lemma_distribute(m, c, u);
    lemma_scale(u, 1real / 1_000_000real, c);
    lemma_scale(u, 1real, h);
    lemma_distribute(a, 11real / 10real, e);
}

/// What a factor makes of the errors.
proof fn lemma_off_by_times(y: real, x: real, a: real, h: real, s: real)
    requires
        a >= 0real,
        off_by(y, x, a, size(x), h),
        s >= 0real,
    ensures
        off_by(y * s, x * s, a, size(x) * s, h * s),
        size(x * s) <= size(x) * s,
{
    reveal(off_by);
    let u = precision();
    let n = size(x);
    lemma_distribute(y, x, s);
    lemma_scale_bound(y - x, a * (u * n) + h, s);
    lemma_distribute(a * (u * n), h, s);
    lemma_associate(a, u * n, s);
    lemma_associate(u, n, s);
    lemma_scale_bound(x, n, s);
}

/// The magnitude of a product.
pub proof fn lemma_size_of_product(a: real, b: real)
    ensures
        size(a * b) == size(a) * size(b),
{
    assert((-a) * b == -(a * b)) by (nonlinear_arith);
    assert(a * (-b) == -(a * b)) by (nonlinear_arith);
    assert((-a) * (-b) == a * b) by (nonlinear_arith);
    if a >= 0real {
        lemma_scale(0real, a, size(b));
    } else {
        lemma_scale(0real, -a, size(b));
    }
}

/// The quotient of two numbers of one relative error each.
proof fn lemma_quotient_off(n: real, x: real, d: real, y: real)
    requires
        size(n - x) <= precision() * size(x),
        size(d - y) <= precision() * size(y),
        y != 0real,
    ensures
        d != 0real,
        off_by(n / d, x / y, 3real, size(x / y), 0real),
{
    let u = precision();
    lemma_precision();
    lemma_scale(u, 1real / 100real, size(y));
    assert(d != 0real);
    let (f, q) = (n / d, x / y);
    lemma_quotient_times(n, d);
    lemma_quotient_times(x, y);
    lemma_quotient_off_by(f, n, d, q, x, y);
}

proof fn lemma_quotient_off_by(f: real, n: real, d: real, q: real, x: real, y: real)
    requires
        f * d == n,
        q * y == x,
        y != 0real,
        d != 0real,
        size(n - x) <= precision() * size(x),
        size(d - y) <= precision() * size(y),
    ensures
        off_by(f, q, 3real, size(q), 0real),
{
    reveal(off_by);
    let u = precision();
    let (g, k) = (f - q, size(q) * size(y));
    lemma_precision();
    lemma_scale(u, 1real / 100real, size(y));
    lemma_size_of_product(q, y);
    lemma_distribute(f, q, d);
    lemma_distribute(d, y, q);
    lemma_associate(q, d, 1real);
    lemma_associate(q, y, 1real);
    assert(g * d == (n - x) - q * (d - y));
    lemma_size_of_product(q, d - y);
    lemma_scale(size(d - y), u * size(y), size(q));
    lemma_associate(u, size(q), size(y));
    assert(size(q) * (u * size(y)) == u * k);
    lemma_size_of_product(g, d);
    let e = u * size(q);
    assert(size(g) * size(d) <= 2real * (e * size(y)));
    lemma_scale(0real, size(q), u);
    lemma_scale(2real * size(y), 3real * size(d), e);
    lemma_associate(2real, e, size(y));
    lemma_associate(3real, e, size(d));
    lemma_associate(e, 2real * size(y), 1real);
    lemma_cancel(size(g), 3real * e, size(d));
}

/// One is exact.
pub proof fn lemma_one()
    ensures
        one().is_finite(),
        one().number() == 1real,
{
    lemma_one_is_positive();
    lemma_whole_is_double(1);
    lemma_pow2_pos(1074);
    assert(one().value() == one_in_units());
    lemma_number_order(one(), one());
    let k = one_in_units() as real;
    assert(1real * k == k);
    lemma_cancel(one().number(), 1real, k);
    lemma_cancel(1real, one().number(), k);
}

/// The weight of one of two points, where the other is at `a` and it is at `b`.
pub open spec fn weight(x: Binary64, a: Binary64, b: Binary64) -> Binary64 {
    one() * ((x - a) / (b - a))
}

pub open spec fn exact_weight(x: real, a: real, b: real) -> real {
    (x - a) / (b - a)
}

/// How exact a weight is.
proof fn lemma_weight(x: Binary64, a: Binary64, b: Binary64)
    requires
        x.is_finite(),
        a.is_finite(),
        b.is_finite(),
        a.number() != b.number(),
        size(x.number() - a.number()) <= huge(),
        size(b.number() - a.number()) <= huge(),
        weight(x, a, b).is_finite(),
    ensures
        ({
            let exact = exact_weight(x.number(), a.number(), b.number());
            off_by(
                weight(x, a, b).number(),
                exact,
                52real / 10real,
                size(exact),
                3real * half_unit(),
            )
        }),
{
    let (n, d) = (x - a, b - a);
    let (g, w) = (n / d, weight(x, a, b));
    let exact = exact_weight(x.number(), a.number(), b.number());
    lemma_precision();
    lemma_one();
    law_sub_error(x, a);
    law_sub_error(b, a);
    lemma_quotient_off(n.number(), x.number() - a.number(), d.number(), b.number() - a.number());
    lemma_number_order(d, d);
    assert(g.is_finite());
    law_div_error(n, d);
    let (q, h) = (n.number() / d.number(), half_unit());
    lemma_rounded_off(g.number(), q, exact, 3real, size(exact), 0real, h);
    law_mul_error(one(), g);
    assert(1real * g.number() == g.number());
    lemma_rounded_off(w.number(), g.number(), exact, 41real / 10real, size(exact), h, h);
}

/// How exact the first of two weighted points is.
proof fn lemma_first_term(w: Binary64, t: real, s: Binary64)
    requires
        w.is_finite(),
        off_by(w.number(), t, 52real / 10real, size(t), 3real * half_unit()),
        s.is_finite(),
        s.number() >= 0real,
        (zero() + w * s).is_finite(),
    ensures
        off_by(
            (zero() + w * s).number(),
            t * s.number(),
            74real / 10real,
            size(t) * s.number(),
            4real * (3real * half_unit() * s.number()) + 2real * half_unit(),
        ),
        size(t * s.number()) <= size(t) * s.number(),
{
    let (h, n) = (half_unit(), s.number());
    let p = w * s;
    lemma_precision();
    lemma_off_by_times(w.number(), t, 52real / 10real, 3real * h, n);
    assert(p.is_finite());
    law_mul_error(w, s);
    lemma_scale(0real, 3real * h, n);
    let e = 3real * h * n;
    lemma_rounded_off(p.number(), w.number() * n, t * n, 52real / 10real, size(t) * n, e, h);
    lemma_number_order(zero(), zero());
    law_add_error(zero(), p);
    let z = zero() + p;
    lemma_rounded_off(
        z.number(),
        p.number(),
        t * n,
        63real / 10real,
        size(t) * n,
        2real * e + h,
        0real,
    );
}

/// How exact the second of two weighted points is.
proof fn lemma_second_term(w: Binary64, t: real, s: Binary64, q: Binary64)
    requires
        w.is_finite(),
        off_by(w.number(), t, 52real / 10real, size(t), 3real * half_unit()),
        s.is_finite(),
        q.is_finite(),
        s.number() + q.number() >= 0real,
        (w * (s + q)).is_finite(),
        (s + q).is_finite(),
    ensures
        ({
            let y = s.number() + q.number();
            &&& off_by(
                (w * (s + q)).number(),
                t * y,
                74real / 10real,
                size(t) * y,
                4real * (3real * half_unit() * y) + half_unit(),
            )
            &&& size(t * y) <= size(t) * y
        }),
{
    let (h, y) = (half_unit(), s.number() + q.number());
    let (v, u) = ((s + q).number(), precision());
    lemma_precision();
    lemma_off_by_times(w.number(), t, 52real / 10real, 3real * h, y);
    law_add_error(s, q);
    let a = w.number();
    // the inexact sum instead of the exact one
    lemma_distribute(v, y, a);
    lemma_size_of_product(a, v - y);
    lemma_scale(size(v - y), u * y, size(a));
    lemma_associate(u, size(a), y);
    lemma_size_of_product(a, y);
    lemma_scale(0real, 3real * h, y);
    let e = 3real * h * y;
    lemma_rounded_off(a * v, a * y, t * y, 52real / 10real, size(t) * y, e, 0real);
    law_mul_error(w, s + q);
    let p = w * (s + q);
    lemma_rounded_off(
        p.number(),
        a * v,
        t * y,
        63real / 10real,
        size(t) * y,
        2real * e,
        h,
    );
}

/// How far the weighted points are from nothing.
pub open spec fn reach(t: real, s: real, q: real) -> real {
    size(1real - t) * s + size(t) * (s + q)
}

/// The reach is no less than the position, nor than the change.
pub proof fn lemma_reach(t: real, s: real, q: real)
    requires
        s >= 0real,
        q >= 0real,
    ensures
        reach(t, s, q) >= s,
        reach(t, s, q) >= size(t * q),
        (1real - t) * s + t * (s + q) - s == t * q,
{
    lemma_scale(s, s + q, size(t));
    lemma_distribute(size(1real - t), size(t), s);
    lemma_scale(1real, size(1real - t) + size(t), s);
    lemma_distribute(1real, t, s);
    lemma_distribute(s, q, t);
    lemma_associate(t, s, 1real);
    lemma_size_of_product(t, q);
    lemma_scale(q, s + q, size(t));
    lemma_scale(0real, size(1real - t), s);
}

/// The sum of the weighted points, less the position.
proof fn lemma_weighted(z: Binary64, p: Binary64, s: Binary64, t: real, q: real, h: real, g: real)
    requires
        z.is_finite(),
        p.is_finite(),
        s.is_finite(),
        s.number() >= 0real,
        q >= 0real,
        h >= 0real,
        g >= 0real,
        off_by(
            z.number(),
            (1real - t) * s.number(),
            74real / 10real,
            size(1real - t) * s.number(),
            h,
        ),
        size((1real - t) * s.number()) <= size(1real - t) * s.number(),
        off_by(
            p.number(),
            t * (s.number() + q),
            74real / 10real,
            size(t) * (s.number() + q),
            g,
        ),
        size(t * (s.number() + q)) <= size(t) * (s.number() + q),
        (z + p).is_finite(),
        (z + p - s).is_finite(),
    ensures
        off_by(
            (z + p - s).number(),
            t * q,
            96real / 10real,
            reach(t, s.number(), q),
            4real * (h + g),
        ),
{
    let (u, n) = (precision(), s.number());
    let m = reach(t, n, q);
    let (a, b) = (size(1real - t) * n, size(t) * (n + q));
    let x = (1real - t) * n + t * (n + q);
    assert(off_by(z.number() + p.number(), x, 74real / 10real, m, h + g)) by {
        reveal(off_by);
        lemma_distribute(a, b, u);
        lemma_distribute(u * a, u * b, 74real / 10real);
    }
    law_add_error(z, p);
    let v = (z + p).number();
    lemma_rounded_off(v, z.number() + p.number(), x, 74real / 10real, m, h + g, 0real);
    lemma_reach(t, n, q);
    assert(off_by(v - n, t * q, 85real / 10real, m, 2real * (h + g))) by {
        reveal(off_by);
    }
    law_sub_error(z + p, s);
    lemma_rounded_off(
        (z + p - s).number(),
        v - n,
        t * q,
        85real / 10real,
        m,
        2real * (h + g),
        0real,
    );
}

/// The smallest errors do not matter to moderate quantities.
pub proof fn lemma_smallest_errors(s: Binary64, q: Binary64)
    requires
        moderate(s),
        moderate(q),
    ensures
        1000real * half_unit() <= precision() * s.number(),
        1000real * (half_unit() * s.number()) <= precision() * s.number(),
        1000real * (half_unit() * q.number()) <= precision() * s.number(),
{
    reveal(spans);
    lemma2_to64();
    lemma_precision();
    lemma_pow2_adds(100, 100);
    lemma_pow2_adds(200, 874);
    lemma_pow2_pos(100);
    lemma_pow2_strictly_increases(64, 874);
    lemma_product(pow2(100) as int, pow2(100) as int);
    lemma_product(pow2(200) as int, pow2(874) as int);
    lemma_number_order(s, s);
    lemma_number_order(q, q);
    let (u, h, k) = (precision(), half_unit(), one_in_units() as real);
    let (p, r, w) = (pow2(100) as real, pow2(200) as real, pow2(874) as real);
    let (a, b) = (s.number(), q.number());
    // h * r is tiny
    let e = h * r;
    lemma_associate(h, r, w);
    lemma_associate(2real, k, h);
    assert(2real * (e * w) == 1real) by {
        lemma_associate(h, 2real * k, 1real);
        lemma_associate(h, k, 1real);
        lemma_associate(2real, h, k);
    }
    lemma_scale(0real, h, r);
    lemma_scale(18446744073709551616real, w, e);
    assert(e * 18446744073709551616real <= 1real / 2real);
    assert(EVEN_SPAN as real == 9007199254740992real);
    assert(1000real * e <= u);
    // and so is h * p * p * a, which is no less than the others
    lemma_associate(h, p, p);
    let f = h * p;
    lemma_scale(0real, h, p);
    lemma_scale(1real, a * p, f);
    lemma_associate(f, p, a);
    lemma_associate(a, p, 1real);
    assert(f <= e * a) by {
        lemma_associate(f, a, p);
    }
    lemma_scale(1real, p, h);
    lemma_scale(a, p, h);
    lemma_scale(b, p, h);
    lemma_scale(1000real * e, u, a);
    lemma_associate(1000real, e, a);
}

/// The terms of a line through two points.
pub proof fn lemma_qty_to_limit_terms(
    bp: BotParams,
    s: Binary64,
    q: Binary64,
    before: Binary64,
    after: Binary64,
)
    ensures
        ({
            let limit = bp.wallet_exposure_limit;
            qty_to_limit(bp, s, q, before, after) == zero() + weight(limit, after, before) * s
                + weight(limit, before, after) * (s + q) - s
        }),
{
    let limit = bp.wallet_exposure_limit;
    let xs = seq![before, after];
    let ys = seq![s, s + q];
    assert(basis(limit, xs, 0, 0) == one());
    assert(basis(limit, xs, 1, 0) == one());
    assert(basis(limit, xs, 0, 1) == one());
    assert(basis(limit, xs, 0, 2) == weight(limit, after, before));
    assert(basis(limit, xs, 1, 1) == weight(limit, before, after));
    assert(basis(limit, xs, 1, 2) == weight(limit, before, after));
    assert(polynomial(limit, xs, ys, 0) == zero());
    assert(polynomial(limit, xs, ys, 1) == zero() + weight(limit, after, before) * s);
    assert(polynomial(limit, xs, ys, 2) == zero() + weight(limit, after, before) * s + weight(
        limit,
        before,
        after,
    ) * (s + q));
}

/// The weights of two points add up to one.
pub proof fn lemma_weights_add_up(x: real, a: real, b: real)
    requires
        a != b,
    ensures
        exact_weight(x, b, a) == 1real - exact_weight(x, a, b),
        exact_weight(x, a, b) * (b - a) == x - a,
{
    let (v, w, d) = (exact_weight(x, b, a), exact_weight(x, a, b), b - a);
    lemma_quotient_times(x - a, d);
    lemma_quotient_times(x - b, a - b);
    lemma_distribute(1real, w, d);
    lemma_distribute(a, b, v);
    lemma_distribute(b, a, v);
    lemma_associate(v, d, 1real);
    assert(v * d == (1real - w) * d);
    if d > 0real {
        lemma_cancel(v, 1real - w, d);
        lemma_cancel(1real - w, v, d);
    } else {
        lemma_distribute(0real, d, v);
        lemma_distribute(0real, d, 1real - w);
        lemma_associate(v, -d, 1real);
        lemma_associate(1real - w, -d, 1real);
        lemma_cancel(v, 1real - w, -d);
        lemma_cancel(1real - w, v, -d);
    }
}

/// The quantity that meets the exposure limit is, up to rounding, the exact share of the entry
/// that does on the straight line between the exposures before and after.
pub proof fn law_qty_to_limit_error(
    bp: BotParams,
    s: Binary64,
    q: Binary64,
    before: Binary64,
    after: Binary64,
)
    requires
        moderate(s),
        moderate(q),
        bp.wallet_exposure_limit.is_finite(),
        before.is_finite(),
        after.is_finite(),
        before.number() != after.number(),
        size(after.number() - before.number()) <= huge(),
        size(bp.wallet_exposure_limit.number() - before.number()) <= huge(),
        size(bp.wallet_exposure_limit.number() - after.number()) <= huge(),
        qty_to_limit(bp, s, q, before, after).is_finite(),
    ensures
        ({
            let t = exact_weight(
                bp.wallet_exposure_limit.number(),
                before.number(),
                after.number(),
            );
            size(qty_to_limit(bp, s, q, before, after).number() - t * q.number()) <= tolerance()
                * reach(t, s.number(), q.number())
        }),
{
    let limit = bp.wallet_exposure_limit;
    let t = exact_weight(limit.number(), before.number(), after.number());
    let (a, b, h) = (s.number(), q.number(), half_unit());
    let (v, w) = (weight(limit, after, before), weight(limit, before, after));
    let (z, y) = (zero() + v * s, s + q);
    let (p, r) = (w * y, qty_to_limit(bp, s, q, before, after));
    lemma_precision();
    lemma_number_order(s, s);
    lemma_number_order(q, q);
    lemma_qty_to_limit_terms(bp, s, q, before, after);
    assert((z + p).is_finite());
    assert(z.is_finite() && p.is_finite());
    assert(v.is_finite() && w.is_finite() && y.is_finite());
    lemma_weights_add_up(limit.number(), before.number(), after.number());
    lemma_weight(limit, after, before);
    lemma_weight(limit, before, after);
    lemma_first_term(v, 1real - t, s);
    lemma_second_term(w, t, s, q);
    lemma_scale(0real, 3real * h, a);
    lemma_scale(0real, 3real * h, a + b);
    let e = 4real * (3real * h * a) + 2real * h;
    let g = 4real * (3real * h * (a + b)) + h;
    lemma_weighted(z, p, s, t, b, e, g);
    lemma_bound_of_rest(r.number(), t, s, q, e, g);
}

/// The errors together.
proof fn lemma_bound_of_rest(r: real, t: real, s: Binary64, q: Binary64, e: real, g: real)
    requires
        moderate(s),
        moderate(q),
        e == 4real * (3real * half_unit() * s.number()) + 2real * half_unit(),
        g == 4real * (3real * half_unit() * (s.number() + q.number())) + half_unit(),
        off_by(
            r,
            t * q.number(),
            96real / 10real,
            reach(t, s.number(), q.number()),
            4real * (e + g),
        ),
    ensures
        size(r - t * q.number()) <= tolerance() * reach(t, s.number(), q.number()),
{
    reveal(off_by);
    let (u, h) = (precision(), half_unit());
    let (a, b) = (s.number(), q.number());
    let m = reach(t, a, b);
    lemma_precision();
    lemma_number_order(s, s);
    lemma_number_order(q, q);
    lemma_smallest_errors(s, q);
    lemma_reach(t, a, b);
    lemma_associate(3real, h, a);
    lemma_associate(3real, h, a + b);
    lemma_distribute(a, b, h);
    lemma_scale(a, m, u);
    assert(4real * (e + g) <= u * m);
    assert(EVEN_SPAN as real == 9007199254740992real);
    assert(tolerance() == 16real * u);
    lemma_associate(16real, u, m);
}

/// A number divided by itself is one.
proof fn lemma_self_quotient(x: Binary64)
    requires
        x.is_finite(),
        x.value() != 0,
    ensures
        x / x == one(),
{
    let (m, k) = (x.magnitude(), one_in_units());
    lemma_pow2_pos(1074);
    lemma_nearest_scale(k, 1, m);
    assert(k * m == m * k) by (nonlinear_arith);
    assert(1 * m == m && 1 * k == k);
}

/// One times a number is that number.
proof fn lemma_one_times(x: Binary64)
    requires
        x.is_finite(),
    ensures
        one() * x == x,
{
    let (m, k) = (x.magnitude(), one_in_units());
    lemma_one();
    lemma_pow2_pos(1074);
    lemma_number_order(one(), one());
    assert(one().value() == k) by {
        lemma_whole_is_double(1);
    }
    assert(one().magnitude() == k);
    lemma_one_is_positive();
    law_nearest_exact(x.position(), k);
    assert(k * m == m * k) by (nonlinear_arith);
}

/// Nothing is added by nothing.
proof fn lemma_nothing_added(x: Binary64, y: Binary64)
    requires
        x.is_finite(),
        y.is_finite(),
        x.value() == 0 || y.value() == 0,
    ensures
        (x + y).is_finite(),
        (x + y).value() == x.value() + y.value(),
{
    law_nearest_exact(x.position(), 1);
    law_nearest_exact(y.position(), 1);
    assert(units(x.position()) * 1 == units(x.position()));
    assert(units(y.position()) * 1 == units(y.position()));
}

/// A product with nothing is nothing, as long as it is a number.
proof fn lemma_nothing_times(x: Binary64, y: Binary64)
    requires
        x.is_finite(),
        y.is_finite(),
        x.value() == 0 || y.value() == 0,
    ensures
        (x * y).is_finite(),
        (x * y).value() == 0,
{
    lemma_precision();
    lemma_pow2_pos(1023);
    lemma_number_order(x, y);
    lemma_number_order(y, x);
    lemma_number_order(x * y, x);
    let exact = x.number() * y.number();
    assert(exact == 0real) by {
        lemma_nothing_in_product(x.number(), y.number());
    }
    assert(precision() * 0real == 0real) by {
        lemma_nothing_in_product(precision(), 0real);
    }
    law_mul_error(x, y);
}

proof fn lemma_nothing_in_product(x: real, y: real)
    requires
        x == 0real || y == 0real,
    ensures
        x * y == 0real,
{
    assert(0real * y == 0real) by (nonlinear_arith);
    assert(x * 0real == 0real) by (nonlinear_arith);
}

/// Whether the nodes of an interpolation are distinct, and everything in it is finite at one of
/// them.
pub open spec fn can_interpolate_at(xs: Seq<Binary64>, ys: Seq<Binary64>, j: int) -> bool {
    &&& 0 <= j < xs.len() == ys.len()
    &&& forall|i: int| 0 <= i < xs.len() ==> (#[trigger] xs[i]).is_finite()
    &&& forall|i: int| 0 <= i < ys.len() ==> (#[trigger] ys[i]).is_finite()
    &&& forall|i: int, m: int|
        0 <= i < xs.len() && 0 <= m < xs.len() && i != m ==> (#[trigger] (xs[i]
            - xs[m])).is_finite() && (xs[i] - xs[m]).value() != 0
    &&& forall|i: int, m: int|
        0 <= i < xs.len() && 0 <= m < xs.len() && i != m ==> (#[trigger] ((xs[j] - xs[m]) / (xs[i]
            - xs[m]))).is_finite()
    &&& forall|i: int, n: nat|
        0 <= i < xs.len() && n <= xs.len() ==> (#[trigger] basis(xs[j], xs, i, n)).is_finite()
}

/// At its node a basis polynomial is one, and at the others nothing.
proof fn lemma_basis_at(xs: Seq<Binary64>, ys: Seq<Binary64>, j: int, i: int, n: nat)
    requires
        can_interpolate_at(xs, ys, j),
        0 <= i < xs.len(),
        n <= xs.len(),
    ensures
        i == j ==> basis(xs[j], xs, i, n) == one(),
        i != j && n > j ==> basis(xs[j], xs, i, n).value() == 0,
    decreases n,
{
    if n > 0 {
        let m = n - 1;
        lemma_basis_at(xs, ys, j, i, m as nat);
        let before = basis(xs[j], xs, i, m as nat);
        assert(before.is_finite());
        if m != i {
            let d = xs[i] - xs[m];
            let factor = (xs[j] - xs[m]) / d;
            assert(d.is_finite() && d.value() != 0);
            assert(factor.is_finite());
            if i == j {
                lemma_self_quotient(d);
                lemma_one();
                lemma_one_times(one());
            } else if m == j {
                let x = xs[j];
                assert((x - x).value() == 0);
                law_special_quotients(x - x, d);
                lemma_nothing_over(x - x, d);
                lemma_nothing_times(before, factor);
            } else if n > j {
                lemma_nothing_times(before, factor);
            }
        }
    }
}

/// Nothing divided is nothing.
proof fn lemma_nothing_over(x: Binary64, y: Binary64)
    requires
        x.is_finite(),
        x.value() == 0,
        y.is_finite(),
        y.value() != 0,
    ensures
        (x / y).value() == 0,
{
    let n = x.magnitude() * one_in_units();
    assert(n == 0) by (nonlinear_arith)
        requires
            n == x.magnitude() * one_in_units(),
            x.magnitude() == 0,
    ;
}

/// An interpolation runs through its points.
pub proof fn law_interpolation_meets_points(xs: Seq<Binary64>, ys: Seq<Binary64>, j: int)
    requires
        can_interpolate_at(xs, ys, j),
    ensures
        polynomial(xs[j], xs, ys, xs.len()).equals(ys[j]),
{
    lemma_interpolation_at(xs, ys, j, xs.len());
}

proof fn lemma_interpolation_at(xs: Seq<Binary64>, ys: Seq<Binary64>, j: int, n: nat)
    requires
        can_interpolate_at(xs, ys, j),
        n <= xs.len(),
    ensures
        polynomial(xs[j], xs, ys, n).is_finite(),
        polynomial(xs[j], xs, ys, n).value() == (if n > j {
            ys[j].value()
        } else {
            0
        }),
    decreases n,
{
    if n > 0 {
        let i = n - 1;
        let before = polynomial(xs[j], xs, ys, i as nat);
        let b = basis(xs[j], xs, i, xs.len());
        lemma_interpolation_at(xs, ys, j, i as nat);
        lemma_basis_at(xs, ys, j, i, xs.len());
        assert(b.is_finite() && ys[i].is_finite());
        if i == j {
            lemma_one_times(ys[j]);
        } else {
            lemma_nothing_times(b, ys[i]);
        }
        lemma_nothing_added(before, b * ys[i]);
    }
}

} // verus!
