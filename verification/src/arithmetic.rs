//! The four operations and the roundings to whole numbers on [`Binary64`].
use crate::binary64::one_in_units;
use crate::binary64::rounded;
use crate::binary64::signed;
use crate::binary64::whole;
use crate::binary64::Binary64;
use crate::binary64::Direction;
use crate::binary64::INFINITE;
use crate::binary64::NAN_BITS;
use crate::binary64::SIGN;
use crate::rounding::law_nearest_exact;
use crate::rounding::lemma_nearest_closed;
use crate::rounding::lemma_nearest_int_bound;
use crate::rounding::lemma_nearest_int_scale;
use crate::rounding::lemma_nearest_int_at_least;
use crate::rounding::lemma_nearest_scale;
use crate::rounding::lemma_sticky;
use crate::rounding::lemma_units_closed;
use crate::rounding::lemma_units_order;
use crate::rounding::nearest;
use crate::rounding::nearest_int;
use crate::rounding::units;
use crate::rounding::BINADE;
use crate::rounding::EVEN_SPAN;
use vstd::arithmetic::div_mod::lemma_fundamental_div_mod;
use vstd::arithmetic::div_mod::lemma_fundamental_div_mod_converse;
use vstd::arithmetic::power2::lemma2_to64;
use vstd::arithmetic::power2::lemma2_to64_rest;
use vstd::arithmetic::power2::lemma_pow2_adds;
use vstd::arithmetic::power2::lemma_pow2_pos;
use vstd::arithmetic::power2::lemma_pow2_strictly_increases;
use vstd::arithmetic::power2::lemma_pow2_unfold;
use vstd::arithmetic::power2::pow2;
use vstd::prelude::*;

verus! {

/// A bound on the binary exponents that occur in intermediate results.
const EXPONENT_LIMIT: u32 = 8192;

proof fn lemma_pow2_monotone(a: nat, b: nat)
    requires
        a <= b,
    ensures
        pow2(a) <= pow2(b),
{
    if a < b {
        lemma_pow2_strictly_increases(a, b);
    }
}

/// `2^t`.
fn power_of_two(t: u32) -> (p: u128)
    requires
        t < 128,
    ensures
        p == pow2(t as nat),
{
    proof {
        lemma2_to64();
        lemma2_to64_rest();
        lemma_pow2_adds(64, 63);
    }
    let mut p: u128 = 1;
    let mut i: u32 = 0;
    while i < t
        invariant
            i <= t < 128,
            p == pow2(i as nat),
            pow2(127) == 0x8000_0000_0000_0000_0000_0000_0000_0000,
        decreases t - i,
    {
        proof {
            lemma_pow2_unfold((i + 1) as nat);
            lemma_pow2_monotone((i + 1) as nat, 127);
        }
        p = p * 2;
        i = i + 1;
    }
    p
}

/// The number of binary digits of `s`.
fn bit_length(s: u128) -> (l: u32)
    requires
        s < 0x8000_0000_0000_0000_0000_0000_0000_0000,
    ensures
        l <= 127,
        s < pow2(l as nat),
        l > 0 ==> pow2((l - 1) as nat) <= s,
{
    proof {
        lemma2_to64();
        lemma2_to64_rest();
        lemma_pow2_adds(64, 63);
    }
    let mut p: u128 = 1;
    let mut l: u32 = 0;
    while p <= s
        invariant
            p == pow2(l as nat),
            l <= 127,
            l > 0 ==> pow2((l - 1) as nat) <= s,
            s < pow2(127),
            pow2(127) == 0x8000_0000_0000_0000_0000_0000_0000_0000,
        decreases 127 - l,
    {
        proof {
            if l == 127 {
                assert(false);
            }
            lemma_pow2_unfold((l + 1) as nat);
            lemma_pow2_monotone((l + 1) as nat, 127);
        }
        p = p * 2;
        l = l + 1;
    }
    l
}

/// The whole number nearest to `s / 2^t`, ties to even.
fn round_shifted(s: u128, t: u32) -> (m: u128)
    requires
        s < 0x8000_0000_0000_0000_0000_0000_0000_0000,
        t > 0,
    ensures
        m == nearest_int(s as nat, pow2(t as nat)),
{
    proof {
        lemma_pow2_pos(t as nat);
    }
    if t >= 128 {
        proof {
            lemma2_to64();
            lemma2_to64_rest();
            lemma_pow2_adds(64, 64);
            lemma_pow2_monotone(128, t as nat);
            lemma_fundamental_div_mod_converse(
                s as int,
                pow2(t as nat) as int,
                0,
                s as int,
            );
        }
        return 0;
    }
    let p: u128 = power_of_two(t);
    let q: u128 = s / p;
    let r: u128 = s % p;
    proof {
        lemma_pow2_unfold(t as nat);
        lemma_pow2_pos((t - 1) as nat);
        lemma_fundamental_div_mod(s as int, p as int);
        assert(q <= s) by (nonlinear_arith)
            requires
                s == p * q + r,
                p >= 1,
                r >= 0,
                q >= 0,
        ;
    }
    if r < p - r || (r == p - r && q % 2 == 0) {
        q
    } else {
        q + 1
    }
}

/// The double nearest to `s * 2^a / 2^b` units, under the given sign.
fn pack(negative: bool, s: u128, a: u32, b: u32) -> (r: Binary64)
    requires
        s < 0x8000_0000_0000_0000_0000_0000_0000_0000,
        a <= EXPONENT_LIMIT,
        b <= EXPONENT_LIMIT,
    ensures
        r == rounded(negative, s as nat * pow2(a as nat), pow2(b as nat)),
{
    let ghost n: nat = s as nat * pow2(a as nat);
    let ghost d: nat = pow2(b as nat);
    if s == 0 {
        proof {
            lemma_pow2_pos(b as nat);
            assert(n == 0) by (nonlinear_arith)
                requires
                    n == 0 * pow2(a as nat),
            ;
        }
        return Binary64 {
            bits: if negative {
                SIGN
            } else {
                0
            },
        };
    }
    let l: u32 = bit_length(s);
    let k: u32 = if a + l > b + 53 {
        a + l - b - 53
    } else {
        0
    };
    proof {
        lemma2_to64();
        lemma2_to64_rest();
        lemma_pow2_pos(a as nat);
        lemma_pow2_pos(b as nat);
        lemma_pow2_adds(b as nat, k as nat);
        lemma_pow2_adds((b + k) as nat, 53);
        lemma_pow2_adds((b + k) as nat, 52);
        lemma_pow2_adds(l as nat, a as nat);
        lemma_pow2_monotone((l + a) as nat, (b + k + 53) as nat);
        assert(n < (d * pow2(k as nat)) * EVEN_SPAN) by {
            assert(n < pow2(l as nat) * pow2(a as nat)) by (nonlinear_arith)
                requires
                    n == s as nat * pow2(a as nat),
                    s < pow2(l as nat),
                    pow2(a as nat) > 0,
            ;
        }
        if k > 0 {
            assert(l > 0) by {
                lemma2_to64();
            }
            lemma_pow2_adds((l - 1) as nat, a as nat);
            assert(n >= pow2((l - 1) as nat) * pow2(a as nat)) by (nonlinear_arith)
                requires
                    n == s as nat * pow2(a as nat),
                    s >= pow2((l - 1) as nat),
            ;
        }
        lemma_nearest_closed(n, d, k as nat);
        lemma_pow2_pos((b + k) as nat);
    }
    let m: u128 = if a >= b + k {
        let j: u32 = a - b - k;
        proof {
            lemma_pow2_adds(j as nat, (b + k) as nat);
            lemma_pow2_pos(j as nat);
            let e = s as nat * pow2(j as nat);
            assert(n == e * pow2((b + k) as nat)) by (nonlinear_arith)
                requires
                    n == s as nat * pow2(a as nat),
                    pow2(a as nat) == pow2(j as nat) * pow2((b + k) as nat),
                    e == s as nat * pow2(j as nat),
            ;
            lemma_nearest_int_scale(e, 1, pow2((b + k) as nat));
            assert(nearest_int(e, 1) == e);
            assert(e < EVEN_SPAN) by (nonlinear_arith)
                requires
                    e * pow2((b + k) as nat) < pow2((b + k) as nat) * EVEN_SPAN,
                    pow2((b + k) as nat) > 0,
            ;
            assert(pow2(j as nat) <= e) by (nonlinear_arith)
                requires
                    e == s as nat * pow2(j as nat),
                    s >= 1,
            ;
            if j >= 53 {
                lemma_pow2_monotone(53, j as nat);
            }
        }
        s * power_of_two(j)
    } else {
        let t: u32 = b + k - a;
        proof {
            lemma_pow2_adds(t as nat, a as nat);
            lemma_pow2_pos(t as nat);
            lemma_nearest_int_scale(s as nat, pow2(t as nat), pow2(a as nat));
        }
        round_shifted(s, t)
    };
    proof {
        lemma_nearest_int_bound(n, pow2((b + k) as nat), EVEN_SPAN as nat);
        if k > 0 {
            lemma_nearest_int_at_least(n, pow2((b + k) as nat), BINADE as nat);
        }
    }
    let position: u64 = if k > 2046 {
        proof {
            assert(k * BINADE >= 2047 * BINADE) by (nonlinear_arith)
                requires
                    k >= 2047,
            ;
        }
        INFINITE
    } else {
        proof {
            assert(k * BINADE <= 2046 * BINADE) by (nonlinear_arith)
                requires
                    k <= 2046,
            ;
        }
        let b: u64 = k as u64 * BINADE + m as u64;
        if b < INFINITE {
            b
        } else {
            INFINITE
        }
    };
    if negative {
        Binary64 { bits: SIGN + position }
    } else {
        Binary64 { bits: position }
    }
}

/// The largest exponent of a finite double whose significand is a whole number of units.
const MAX_EXPONENT: u32 = 2045;

/// A significand `m` and an exponent `k` of which the magnitude is `m * 2^k` units.
spec fn decoded(x: Binary64, m: u64, k: u32) -> bool {
    &&& m < EVEN_SPAN
    &&& k <= MAX_EXPONENT
    &&& k > 0 ==> m >= BINADE
    &&& x.position() == k * BINADE + m
    &&& x.magnitude() == m as nat * pow2(k as nat)
}

fn decode(x: Binary64) -> (r: (u64, u32))
    requires
        x.is_finite(),
    ensures
        decoded(x, r.0, r.1),
{
    let p: u64 = x.low_bits();
    let (m, k): (u64, u32) = if p < EVEN_SPAN {
        (p, 0)
    } else {
        (BINADE + p % BINADE, (p / BINADE - 1) as u32)
    };
    proof {
        lemma_units_closed(m as nat, k as nat);
    }
    (m, k)
}

/// A double absorbs anything much smaller than the spacing of the doubles around it.
proof fn lemma_absorb(m: nat, k: nat, t: nat)
    requires
        BINADE <= m < EVEN_SPAN,
        k > 0,
        4 * t < pow2(k),
    ensures
        nearest(m * pow2(k) + t, 1) == k * BINADE as nat + m,
        nearest((m * pow2(k) - t) as nat, 1) == k * BINADE as nat + m,
{
    let p = pow2(k);
    let h = pow2((k - 1) as nat);
    lemma_pow2_unfold(k);
    lemma_pow2_pos((k - 1) as nat);
    assert(m * p >= BINADE * p) by (nonlinear_arith)
        requires
            m >= BINADE,
    ;
    assert(m * p + p <= EVEN_SPAN * p) by (nonlinear_arith)
        requires
            m + 1 <= EVEN_SPAN,
    ;
    assert(1 * p == p);
    lemma_nearest_closed(m * p + t, 1, k);
    lemma_fundamental_div_mod_converse((m * p + t) as int, p as int, m as int, t as int);
    if t > 0 {
        let n = (m * p - t) as nat;
        if m > BINADE {
            assert(n >= p * BINADE) by (nonlinear_arith)
                requires
                    n == m * p - t,
                    m >= BINADE + 1,
                    t < p,
            ;
            lemma_nearest_closed(n, 1, k);
            assert(n == (m - 1) * p + (p - t)) by (nonlinear_arith)
                requires
                    n == m * p - t,
            ;
            lemma_fundamental_div_mod_converse(n as int, p as int, m - 1, p - t);
        } else {
            assert(m * p == EVEN_SPAN * h) by (nonlinear_arith)
                requires
                    m == BINADE,
                    p == 2 * h,
                    EVEN_SPAN == 2 * BINADE,
            ;
            assert(n >= h * BINADE) by (nonlinear_arith)
                requires
                    n == EVEN_SPAN * h - t,
                    t < h,
                    EVEN_SPAN == 2 * BINADE,
                    BINADE >= 1,
            ;
            assert(1 * h == h);
            lemma_nearest_closed(n, 1, (k - 1) as nat);
            assert(n == (EVEN_SPAN - 1) * h + (h - t)) by (nonlinear_arith)
                requires
                    n == EVEN_SPAN * h - t,
            ;
            lemma_fundamental_div_mod_converse(n as int, h as int, EVEN_SPAN - 1, h - t);
            assert((k - 1) * BINADE + EVEN_SPAN == k * BINADE + m) by (nonlinear_arith)
                requires
                    m == BINADE,
                    EVEN_SPAN == 2 * BINADE,
            ;
        }
    } else {
        assert((m * p - t) as nat == m * p + t);
    }
}

/// The exact sum of two finite doubles, rounded. An exact zero is negative only as the sum of
/// two negative numbers.
pub open spec fn rounded_sum(x: Binary64, y: Binary64) -> Binary64 {
    let s = x.value() + y.value();
    if s == 0 {
        signed(x.negative() && y.negative(), 0)
    } else if s > 0 {
        rounded(false, s as nat, 1)
    } else {
        rounded(true, (-s) as nat, 1)
    }
}

/// The rounded sum of two finite doubles of which the first has the larger exponent.
fn sum_ordered(x: Binary64, y: Binary64, mx: u64, kx: u32, my: u64, ky: u32) -> (r: Binary64)
    requires
        decoded(x, mx, kx),
        decoded(y, my, ky),
        kx >= ky,
    ensures
        r == rounded_sum(x, y),
{
    let d: u32 = kx - ky;
    let ghost px = pow2(kx as nat);
    let ghost py = pow2(ky as nat);
    proof {
        lemma2_to64();
        lemma2_to64_rest();
        lemma_pow2_adds(d as nat, ky as nat);
        lemma_pow2_pos(ky as nat);
        lemma_pow2_pos(d as nat);
    }
    if d > 64 {
        proof {
            let t = my as nat * py;
            lemma_pow2_monotone(65, d as nat);
            lemma_pow2_unfold(65);
            assert(4 * t < px) by (nonlinear_arith)
                requires
                    t == my as nat * py,
                    px == pow2(d as nat) * py,
                    my < EVEN_SPAN,
                    pow2(d as nat) >= 4 * EVEN_SPAN,
                    py > 0,
            ;
            lemma_absorb(mx as nat, kx as nat, t);
            assert(mx as nat * px >= px) by (nonlinear_arith)
                requires
                    mx >= 1,
            ;
            assert(kx * BINADE + mx < INFINITE) by (nonlinear_arith)
                requires
                    kx <= 2045,
                    mx < 2 * BINADE,
                    INFINITE == 2047 * BINADE,
            ;
        }
        return x;
    }
    let p: u128 = power_of_two(d);
    proof {
        lemma_pow2_monotone(d as nat, 64);
        assert(mx * p <= 0x20_0000_0000_0000 * 0x1_0000_0000_0000_0000) by (nonlinear_arith)
            requires
                mx <= 0x20_0000_0000_0000,
                p <= 0x1_0000_0000_0000_0000,
        ;
        assert(x.magnitude() == (mx * p) * py) by (nonlinear_arith)
            requires
                x.magnitude() == mx as nat * px,
                px == p * py,
        ;
    }
    let a: u128 = mx as u128 * p;
    let b: u128 = my as u128;
    proof {
        assert(a * py + b * py == (a + b) * py) by (nonlinear_arith);
        assert(a * py - b * py == (a - b) * py) by (nonlinear_arith);
        assert(b * py - a * py == (b - a) * py) by (nonlinear_arith);
        assert(a + b > 0 ==> (a + b) * py > 0) by (nonlinear_arith)
            requires
                py > 0,
        ;
        assert(a > b ==> (a - b) * py > 0) by (nonlinear_arith)
            requires
                py > 0,
        ;
        assert(a < b ==> (b - a) * py > 0) by (nonlinear_arith)
            requires
                py > 0,
        ;
        assert(0 * py == 0);
    }
    if x.is_sign_negative() == y.is_sign_negative() {
        if a + b == 0 {
            if x.is_sign_negative() {
                Binary64 { bits: SIGN }
            } else {
                Binary64 { bits: 0 }
            }
        } else {
            pack(x.is_sign_negative(), a + b, ky, 0)
        }
    } else if a > b {
        pack(x.is_sign_negative(), a - b, ky, 0)
    } else if b > a {
        pack(y.is_sign_negative(), b - a, ky, 0)
    } else {
        Binary64 { bits: 0 }
    }
}

impl Binary64 {
    /// The meaning of `+` in specifications: IEEE 754 addition.
    pub open spec fn spec_add(self, rhs: Binary64) -> Binary64 {
        if self.is_nan() || rhs.is_nan() {
            Binary64::from_bits(NAN_BITS)
        } else if self.is_infinite() && rhs.is_infinite() && self.negative() != rhs.negative() {
            Binary64::from_bits(NAN_BITS)
        } else if self.is_infinite() {
            self
        } else if rhs.is_infinite() {
            rhs
        } else {
            rounded_sum(self, rhs)
        }
    }

    /// The meaning of `-` in specifications: IEEE 754 subtraction.
    pub open spec fn spec_sub(self, rhs: Binary64) -> Binary64 {
        self.spec_add(rhs.negated())
    }

    fn plus(self, rhs: Binary64) -> (r: Binary64)
        ensures
            r == self.spec_add(rhs),
    {
        if self.is_nan() || rhs.is_nan() {
            Binary64 { bits: NAN_BITS }
        } else if self.is_infinite() {
            if rhs.is_infinite() && self.is_sign_negative() != rhs.is_sign_negative() {
                Binary64 { bits: NAN_BITS }
            } else {
                self
            }
        } else if rhs.is_infinite() {
            rhs
        } else {
            let (mx, kx): (u64, u32) = decode(self);
            let (my, ky): (u64, u32) = decode(rhs);
            if kx >= ky {
                sum_ordered(self, rhs, mx, kx, my, ky)
            } else {
                sum_ordered(rhs, self, my, ky, mx, kx)
            }
        }
    }

    /// The meaning of `*` in specifications: IEEE 754 multiplication.
    pub open spec fn spec_mul(self, rhs: Binary64) -> Binary64 {
        let negative = self.negative() != rhs.negative();
        if self.is_nan() || rhs.is_nan() {
            Binary64::from_bits(NAN_BITS)
        } else if self.is_infinite() || rhs.is_infinite() {
            if self.value() == 0 || rhs.value() == 0 {
                Binary64::from_bits(NAN_BITS)
            } else {
                signed(negative, INFINITE as nat)
            }
        } else {
            rounded(negative, self.magnitude() * rhs.magnitude(), one_in_units())
        }
    }

    fn times(self, rhs: Binary64) -> (r: Binary64)
        ensures
            r == self.spec_mul(rhs),
    {
        let negative: bool = self.is_sign_negative() != rhs.is_sign_negative();
        if self.is_nan() || rhs.is_nan() {
            return Binary64 { bits: NAN_BITS };
        }
        if self.is_infinite() || rhs.is_infinite() {
            if self.is_zero() || rhs.is_zero() {
                return Binary64 { bits: NAN_BITS };
            }
            return infinity(negative);
        }
        let (mx, kx): (u64, u32) = decode(self);
        let (my, ky): (u64, u32) = decode(rhs);
        proof {
            assert(mx * my <= 0x20_0000_0000_0000 * 0x20_0000_0000_0000) by (nonlinear_arith)
                requires
                    mx <= 0x20_0000_0000_0000,
                    my <= 0x20_0000_0000_0000,
            ;
            lemma_pow2_adds(kx as nat, ky as nat);
            assert((mx as nat * pow2(kx as nat)) * (my as nat * pow2(ky as nat)) == (mx * my) * (
            pow2(kx as nat) * pow2(ky as nat))) by (nonlinear_arith);
        }
        pack(negative, mx as u128 * my as u128, kx + ky, 1074)
    }

    /// The meaning of `/` in specifications: IEEE 754 division.
    pub open spec fn spec_euclidean_or_real_div(self, rhs: Binary64) -> Binary64 {
        let negative = self.negative() != rhs.negative();
        if self.is_nan() || rhs.is_nan() {
            Binary64::from_bits(NAN_BITS)
        } else if self.is_infinite() {
            if rhs.is_infinite() {
                Binary64::from_bits(NAN_BITS)
            } else {
                signed(negative, INFINITE as nat)
            }
        } else if rhs.is_infinite() {
            signed(negative, 0)
        } else if rhs.value() == 0 {
            if self.value() == 0 {
                Binary64::from_bits(NAN_BITS)
            } else {
                signed(negative, INFINITE as nat)
            }
        } else {
            rounded(negative, self.magnitude() * one_in_units(), rhs.magnitude())
        }
    }

    fn over(self, rhs: Binary64) -> (r: Binary64)
        ensures
            r == self.spec_euclidean_or_real_div(rhs),
    {
        let negative: bool = self.is_sign_negative() != rhs.is_sign_negative();
        if self.is_nan() || rhs.is_nan() {
            Binary64 { bits: NAN_BITS }
        } else if self.is_infinite() {
            if rhs.is_infinite() {
                Binary64 { bits: NAN_BITS }
            } else {
                infinity(negative)
            }
        } else if rhs.is_infinite() {
            proof {
                lemma_units_order(0, rhs.position());
            }
            signed_zero(negative)
        } else if rhs.is_zero() {
            if self.is_zero() {
                Binary64 { bits: NAN_BITS }
            } else {
                infinity(negative)
            }
        } else if self.is_zero() {
            proof {
                lemma_units_order(0, rhs.position());
                assert(self.magnitude() * one_in_units() == 0) by (nonlinear_arith)
                    requires
                        self.magnitude() == 0,
                ;
            }
            signed_zero(negative)
        } else {
            quotient(negative, self, rhs)
        }
    }

    /// Whether this is one of the two zeros.
    fn is_zero(self) -> (r: bool)
        ensures
            r == (self.value() == 0),
            r == (self.position() == 0),
    {
        proof {
            lemma_units_order(0, self.position());
        }
        self.low_bits() == 0
    }

    /// The whole number that stands for this one under the direction, with its sign kept.
    pub open spec fn to_whole(self, direction: Direction) -> Binary64 {
        if self.is_nan() {
            Binary64::from_bits(NAN_BITS)
        } else if self.is_infinite() {
            self
        } else {
            rounded(self.negative(), whole(direction, self.magnitude()) * one_in_units(), 1)
        }
    }

    fn rounded_to_whole(self, direction: Direction) -> (r: Binary64)
        ensures
            r == self.to_whole(direction),
    {
        if self.is_nan() {
            return Binary64 { bits: NAN_BITS };
        }
        if self.is_infinite() {
            return self;
        }
        let (m, k): (u64, u32) = decode(self);
        if k >= 1074 {
            proof {
                lemma_whole_of_whole(m as nat, k as nat);
                law_nearest_exact(self.position(), 1);
            }
            return self;
        }
        let s: u32 = 1074 - k;
        let (q, rest, half): (u64, bool, bool) = if s >= 64 {
            proof {
                lemma2_to64();
                lemma_pow2_monotone(64, s as nat);
                lemma_fundamental_div_mod_converse(
                    m as int,
                    pow2(s as nat) as int,
                    0,
                    m as int,
                );
            }
            (0, m > 0, false)
        } else {
            let p: u128 = power_of_two(s);
            proof {
                lemma_pow2_pos(s as nat);
                lemma_fundamental_div_mod(m as int, p as int);
                assert(m as u128 / p <= m) by (nonlinear_arith)
                    requires
                        m == p * (m as u128 / p) + m as u128 % p,
                        p >= 1,
                        m as u128 % p >= 0,
                ;
            }
            let r: u128 = m as u128 % p;
            ((m as u128 / p) as u64, r > 0, r >= p - r)
        };
        proof {
            lemma_whole(m as nat, k as nat, s as nat);
        }
        let n: u64 = match direction {
            Direction::TowardsZero => q,
            Direction::AwayFromZero => if rest {
                q + 1
            } else {
                q
            },
            Direction::HalfAway => if half {
                q + 1
            } else {
                q
            },
        };
        proof {
            lemma2_to64();
        }
        pack(self.is_sign_negative(), n as u128, 1074, 0)
    }

    pub open spec fn spec_floor(self) -> Binary64 {
        self.to_whole(
            if self.negative() {
                Direction::AwayFromZero
            } else {
                Direction::TowardsZero
            },
        )
    }

    pub open spec fn spec_ceil(self) -> Binary64 {
        self.to_whole(
            if self.negative() {
                Direction::TowardsZero
            } else {
                Direction::AwayFromZero
            },
        )
    }

    pub open spec fn spec_round(self) -> Binary64 {
        self.to_whole(Direction::HalfAway)
    }

    /// The largest whole number not above this one.
    #[verifier::when_used_as_spec(spec_floor)]
    pub fn floor(self) -> (r: Binary64)
        ensures
            r == self.spec_floor(),
    {
        if self.is_sign_negative() {
            self.rounded_to_whole(Direction::AwayFromZero)
        } else {
            self.rounded_to_whole(Direction::TowardsZero)
        }
    }

    /// The smallest whole number not below this one.
    #[verifier::when_used_as_spec(spec_ceil)]
    pub fn ceil(self) -> (r: Binary64)
        ensures
            r == self.spec_ceil(),
    {
        if self.is_sign_negative() {
            self.rounded_to_whole(Direction::TowardsZero)
        } else {
            self.rounded_to_whole(Direction::AwayFromZero)
        }
    }

    /// The nearest whole number, halves away from zero.
    #[verifier::when_used_as_spec(spec_round)]
    pub fn round(self) -> (r: Binary64)
        ensures
            r == self.spec_round(),
    {
        self.rounded_to_whole(Direction::HalfAway)
    }
}

impl core::ops::Add for Binary64 {
    type Output = Binary64;

    fn add(self, rhs: Binary64) -> (r: Binary64) {
        self.plus(rhs)
    }
}

impl vstd::std_specs::ops::AddSpecImpl for Binary64 {
    open spec fn obeys_add_spec() -> bool {
        true
    }

    open spec fn add_req(self, rhs: Binary64) -> bool {
        true
    }

    open spec fn add_spec(self, rhs: Binary64) -> Binary64 {
        self + rhs
    }
}

impl core::ops::Sub for Binary64 {
    type Output = Binary64;

    fn sub(self, rhs: Binary64) -> (r: Binary64) {
        self.plus(rhs.negated())
    }
}

impl vstd::std_specs::ops::SubSpecImpl for Binary64 {
    open spec fn obeys_sub_spec() -> bool {
        true
    }

    open spec fn sub_req(self, rhs: Binary64) -> bool {
        true
    }

    open spec fn sub_spec(self, rhs: Binary64) -> Binary64 {
        self - rhs
    }
}

impl core::ops::Mul for Binary64 {
    type Output = Binary64;

    fn mul(self, rhs: Binary64) -> (r: Binary64) {
        self.times(rhs)
    }
}

impl vstd::std_specs::ops::MulSpecImpl for Binary64 {
    open spec fn obeys_mul_spec() -> bool {
        true
    }

    open spec fn mul_req(self, rhs: Binary64) -> bool {
        true
    }

    open spec fn mul_spec(self, rhs: Binary64) -> Binary64 {
        self * rhs
    }
}

impl core::ops::Div for Binary64 {
    type Output = Binary64;

    fn div(self, rhs: Binary64) -> (r: Binary64) {
        self.over(rhs)
    }
}

impl vstd::std_specs::ops::DivSpecImpl for Binary64 {
    open spec fn obeys_div_spec() -> bool {
        true
    }

    open spec fn div_req(self, rhs: Binary64) -> bool {
        true
    }

    open spec fn div_spec(self, rhs: Binary64) -> Binary64 {
        self / rhs
    }
}

fn infinity(negative: bool) -> (r: Binary64)
    ensures
        r == signed(negative, INFINITE as nat),
{
    if negative {
        Binary64 { bits: SIGN + INFINITE }
    } else {
        Binary64 { bits: INFINITE }
    }
}

fn signed_zero(negative: bool) -> (r: Binary64)
    ensures
        r == signed(negative, 0),
        forall|d: nat| d > 0 ==> r == #[trigger] rounded(negative, 0, d),
{
    if negative {
        Binary64 { bits: SIGN }
    } else {
        Binary64 { bits: 0 }
    }
}

/// Doubles a significand until it fills the binade.
fn normalize(m: u64) -> (r: (u64, u32))
    requires
        0 < m < EVEN_SPAN,
    ensures
        BINADE <= r.0 < EVEN_SPAN,
        r.1 <= 52,
        r.0 == m * pow2(r.1 as nat),
{
    proof {
        lemma2_to64();
        lemma2_to64_rest();
        assert(m * pow2(0) == m) by (nonlinear_arith)
            requires
                pow2(0) == 1,
        ;
    }
    let mut n: u64 = m;
    let mut s: u32 = 0;
    while n < BINADE
        invariant
            0 < m,
            n < EVEN_SPAN,
            s <= 52,
            n == m * pow2(s as nat),
            pow2(52) == BINADE,
        decreases 52 - s,
    {
        proof {
            if s == 52 {
                assert(m * pow2(52) >= pow2(52)) by (nonlinear_arith)
                    requires
                        m >= 1,
                ;
            }
            lemma_pow2_unfold((s + 1) as nat);
            assert(m * (2 * pow2(s as nat)) == 2 * (m * pow2(s as nat))) by (nonlinear_arith);
        }
        n = n * 2;
        s = s + 1;
    }
    (n, s)
}

/// The rounded quotient of two finite doubles that are not zero.
fn quotient(negative: bool, x: Binary64, y: Binary64) -> (r: Binary64)
    requires
        x.is_finite(),
        y.is_finite(),
        x.position() > 0,
        y.position() > 0,
    ensures
        r == rounded(negative, x.magnitude() * one_in_units(), y.magnitude()),
{
    let (mx, kx): (u64, u32) = decode(x);
    let (my, ky): (u64, u32) = decode(y);
    proof {
        assert(kx == 0 ==> mx > 0);
        assert(ky == 0 ==> my > 0);
    }
    let (nx, sx): (u64, u32) = normalize(mx);
    let (ny, sy): (u64, u32) = normalize(my);
    let n: u128 = nx as u128 * 0x1_0000_0000_0000_0000;
    let q: u128 = n / ny as u128;
    let r: u128 = n % ny as u128;
    proof {
        lemma_fundamental_div_mod(n as int, ny as int);
        assert(q >= 2 * EVEN_SPAN && q <= n) by (nonlinear_arith)
            requires
                n == ny * q + r,
                n >= 0x10_0000_0000_0000 * 0x1_0000_0000_0000_0000,
                0 <= r < ny,
                1 <= ny < 0x20_0000_0000_0000,
                2 * EVEN_SPAN == 0x40_0000_0000_0000,
                q >= 0,
        ;
        assert(q <= 0x4_0000_0000_0000_0000) by (nonlinear_arith)
            requires
                n == ny * q + r,
                n < 0x20_0000_0000_0000 * 0x1_0000_0000_0000_0000,
                ny >= 0x10_0000_0000_0000,
                r >= 0,
        ;
        lemma_quotient(x, y, mx as nat, kx as nat, my as nat, ky as nat, nx as nat, sx as nat,
            ny as nat, sy as nat, q as nat, r as nat);
    }
    let sticky: u128 = if r == 0 {
        0
    } else {
        1
    };
    pack(negative, 2 * q + sticky, kx + 1074 + sy, ky + sx + 65)
}

proof fn lemma_quotient(
    x: Binary64,
    y: Binary64,
    mx: nat,
    kx: nat,
    my: nat,
    ky: nat,
    nx: nat,
    sx: nat,
    ny: nat,
    sy: nat,
    q: nat,
    r: nat,
)
    requires
        x.magnitude() == mx * pow2(kx),
        y.magnitude() == my * pow2(ky),
        nx == mx * pow2(sx),
        ny == my * pow2(sy),
        nx * 0x1_0000_0000_0000_0000 == ny * q + r,
        r < ny,
        q >= 2 * EVEN_SPAN,
        my > 0,
    ensures
        nearest(x.magnitude() * one_in_units(), y.magnitude()) == nearest(
            (2 * q + (if r == 0 {
                0nat
            } else {
                1nat
            })) * pow2(kx + 1074 + sy),
            pow2(ky + sx + 65),
        ),
{
    let n = x.magnitude() * one_in_units();
    let d = y.magnitude();
    let c = pow2(sx + 64 + sy);
    let (a, b) = (kx + 1074 + sy, ky + sx + 64);
    lemma2_to64();
    lemma_pow2_pos(ky);
    lemma_pow2_pos(sx + 64 + sy);
    lemma_pow2_adds(sx, 64);
    lemma_pow2_adds(sx + 64, sy);
    lemma_pow2_adds(kx, 1074);
    lemma_pow2_adds(kx + 1074, sy);
    lemma_pow2_adds(ky, sx);
    lemma_pow2_adds(ky + sx, 64);
    lemma_pow2_unfold(ky + sx + 65);
    let (p0, p1, p2, p3, p4) = (pow2(kx), pow2(1074), pow2(sx), pow2(64), pow2(sy));
    let p5 = pow2(ky);
    assert(d > 0) by (nonlinear_arith)
        requires
            d == my * p5,
            my > 0,
            p5 > 0,
    ;
    lemma_nearest_scale(n, d, c);
    assert(n * c == (q * ny + r) * pow2(a)) by {
        assert(q * ny == ny * q) by (nonlinear_arith);
        assert(n * c == ((mx * p2) * p3) * ((p0 * p1) * p4)) by (nonlinear_arith)
            requires
                n == (mx * p0) * p1,
                c == (p2 * p3) * p4,
        ;
    }
    assert(d * c == ny * pow2(b)) by (nonlinear_arith)
        requires
            d == my * p5,
            c == (p2 * p3) * p4,
            ny == my * p4,
            pow2(b) == (p5 * p2) * p3,
    ;
    lemma_sticky(q, ny, r, a, b);
}

/// A magnitude of whole number is kept in every direction.
proof fn lemma_whole_of_whole(m: nat, k: nat)
    requires
        k >= 1074,
    ensures
        forall|direction: Direction|
            #[trigger] whole(direction, m * pow2(k)) * one_in_units() == m * pow2(k),
{
    let u = one_in_units();
    let j = pow2((k - 1074) as nat);
    let w = m * j;
    lemma_pow2_adds((k - 1074) as nat, 1074);
    lemma_pow2_pos(1074);
    assert(m * pow2(k) == w * u) by (nonlinear_arith)
        requires
            pow2(k) == j * u,
            w == m * j,
    ;
    lemma_fundamental_div_mod_converse((w * u) as int, u as int, w as int, 0);
    lemma_fundamental_div_mod_converse(w * u + u - 1, u as int, w as int, u - 1);
    assert(2 * (w * u) + u == w * (2 * u) + u) by (nonlinear_arith);
    lemma_fundamental_div_mod_converse(
        (2 * (w * u) + u) as int,
        (2 * u) as int,
        w as int,
        u as int,
    );
}

/// What the directions make of a magnitude `m * 2^k` where `2^(k + s)` is the number one.
proof fn lemma_whole(m: nat, k: nat, s: nat)
    requires
        k + s == 1074,
    ensures
        ({
            let q = m / pow2(s);
            let r = m % pow2(s);
            let u = m * pow2(k);
            &&& whole(Direction::TowardsZero, u) == q
            &&& whole(Direction::AwayFromZero, u) == (if r > 0 {
                q + 1
            } else {
                q
            })
            &&& whole(Direction::HalfAway, u) == (if 2 * r >= pow2(s) {
                q + 1
            } else {
                q
            })
        }),
{
    let p = pow2(s);
    let c = pow2(k);
    let one = one_in_units();
    let (q, r) = (m / p, m % p);
    let u = m * c;
    let rc = r * c;
    lemma_pow2_adds(s, k);
    lemma_pow2_pos(s);
    lemma_pow2_pos(k);
    lemma_pow2_pos(1074);
    lemma_fundamental_div_mod(m as int, p as int);
    assert(one == p * c);
    assert(u == q * one + rc) by (nonlinear_arith)
        requires
            u == m * c,
            m == p * q + r,
            one == p * c,
            rc == r * c,
    ;
    assert(rc < one && (r > 0 ==> rc > 0) && (r == 0 ==> rc == 0)) by (nonlinear_arith)
        requires
            one == p * c,
            rc == r * c,
            0 <= r < p,
            c > 0,
    ;
    assert(2 * r >= p <==> 2 * rc >= one) by (nonlinear_arith)
        requires
            one == p * c,
            rc == r * c,
            c > 0,
    ;
    assert((q + 1) * one == q * one + one) by (nonlinear_arith);
    assert(q * (2 * one) == 2 * (q * one)) by (nonlinear_arith);
    assert((q + 1) * (2 * one) == 2 * (q * one) + 2 * one) by (nonlinear_arith);
    lemma_fundamental_div_mod_converse(u as int, one as int, q as int, rc as int);
    if r > 0 {
        lemma_fundamental_div_mod_converse(u + one - 1, one as int, (q + 1) as int, rc - 1);
    } else {
        lemma_fundamental_div_mod_converse(u + one - 1, one as int, q as int, one - 1);
    }
    if 2 * rc >= one {
        lemma_fundamental_div_mod_converse(
            (2 * u + one) as int,
            (2 * one) as int,
            (q + 1) as int,
            2 * rc - one,
        );
    } else {
        lemma_fundamental_div_mod_converse(
            (2 * u + one) as int,
            (2 * one) as int,
            q as int,
            (2 * rc + one) as int,
        );
    }
}

/// How often a whole number of up to 53 bits has to be doubled to fill the binade.
proof fn lemma_normal_form(n: nat) -> (t: nat)
    requires
        0 < n <= EVEN_SPAN,
    ensures
        t <= 53,
        BINADE <= n * pow2(t) <= EVEN_SPAN,
    decreases EVEN_SPAN - n,
{
    lemma2_to64();
    lemma2_to64_rest();
    if n >= BINADE {
        assert(n * pow2(0) == n) by (nonlinear_arith)
            requires
                pow2(0) == 1,
        ;
        0
    } else {
        let s = lemma_normal_form(2 * n);
        lemma_pow2_unfold(s + 1);
        assert(n * (2 * pow2(s)) == (2 * n) * pow2(s)) by (nonlinear_arith);
        if s == 53 {
            assert((2 * n) * pow2(53) > EVEN_SPAN) by (nonlinear_arith)
                requires
                    n > 0,
                    pow2(53) == EVEN_SPAN,
            ;
        }
        s + 1
    }
}

/// A whole number of up to 53 bits is a double.
pub proof fn lemma_whole_is_double(n: nat)
    requires
        n <= EVEN_SPAN,
    ensures
        units(nearest(n * one_in_units(), 1)) == n * one_in_units(),
        nearest(n * one_in_units(), 1) < INFINITE,
{
    if n == 0 {
        assert(0 * one_in_units() == 0);
    } else {
        let t = lemma_normal_form(n);
        let m = n * pow2(t);
        let k = (1074 - t) as nat;
        let b = k * BINADE as nat + m;
        lemma_pow2_adds(t, k);
        lemma_units_closed(m, k);
        assert(m * pow2(k) == n * one_in_units()) by (nonlinear_arith)
            requires
                m == n * pow2(t),
                one_in_units() == pow2(t) * pow2(k),
        ;
        law_nearest_exact(b, 1);
        assert(units(b) * 1 == units(b));
        assert(k * BINADE <= 1074 * BINADE) by (nonlinear_arith)
            requires
                k <= 1074,
        ;
    }
}

/// Rounding a finite number to a whole one is exact, and keeps its sign.
pub proof fn law_to_whole_is_exact(x: Binary64, direction: Direction)
    requires
        x.is_finite(),
    ensures
        x.to_whole(direction).is_finite(),
        x.to_whole(direction).negative() == x.negative(),
        x.to_whole(direction).magnitude() == whole(direction, x.magnitude()) * one_in_units(),
{
    let p = x.position();
    let (m, k): (nat, nat) = if p < EVEN_SPAN {
        (p, 0)
    } else {
        (BINADE as nat + p % BINADE as nat, (p / BINADE as nat - 1) as nat)
    };
    assert(p == k * BINADE + m);
    lemma_units_closed(m, k);
    let n = whole(direction, x.magnitude());
    if k >= 1074 {
        lemma_whole_of_whole(m, k);
        law_nearest_exact(p, 1);
        assert(units(p) * 1 == units(p));
    } else {
        let s = (1074 - k) as nat;
        lemma_whole(m, k, s);
        lemma_pow2_pos(s);
        lemma_fundamental_div_mod(m as int, pow2(s) as int);
        assert(m / pow2(s) <= m) by (nonlinear_arith)
            requires
                m == pow2(s) * (m / pow2(s)) + m % pow2(s),
                pow2(s) >= 1,
                m % pow2(s) >= 0,
                m / pow2(s) >= 0,
        ;
        lemma_whole_is_double(n);
    }
}

/// The floor is the largest whole number that is not above.
pub proof fn law_floor(x: Binary64)
    requires
        x.is_finite(),
    ensures
        x.floor().is_finite(),
        x.floor().value() % one_in_units() as int == 0,
        x.floor().value() <= x.value() < x.floor().value() + one_in_units(),
{
    lemma_whole_bounds(x.magnitude());
    if x.negative() {
        law_to_whole_is_exact(x, Direction::AwayFromZero);
        lemma_multiple(whole(Direction::AwayFromZero, x.magnitude()));
    } else {
        law_to_whole_is_exact(x, Direction::TowardsZero);
        lemma_multiple(whole(Direction::TowardsZero, x.magnitude()));
    }
}

/// The ceiling is the smallest whole number that is not below.
pub proof fn law_ceil(x: Binary64)
    requires
        x.is_finite(),
    ensures
        x.ceil().is_finite(),
        x.ceil().value() % one_in_units() as int == 0,
        x.ceil().value() - one_in_units() < x.value() <= x.ceil().value(),
{
    lemma_whole_bounds(x.magnitude());
    if x.negative() {
        law_to_whole_is_exact(x, Direction::TowardsZero);
        lemma_multiple(whole(Direction::TowardsZero, x.magnitude()));
    } else {
        law_to_whole_is_exact(x, Direction::AwayFromZero);
        lemma_multiple(whole(Direction::AwayFromZero, x.magnitude()));
    }
}

/// Rounding gives a whole number that is at most one half away.
pub proof fn law_round(x: Binary64)
    requires
        x.is_finite(),
    ensures
        x.round().is_finite(),
        x.round().value() % one_in_units() as int == 0,
        2 * x.value() - one_in_units() <= 2 * x.round().value() <= 2 * x.value() + one_in_units(),
{
    lemma_whole_bounds(x.magnitude());
    law_to_whole_is_exact(x, Direction::HalfAway);
    lemma_multiple(whole(Direction::HalfAway, x.magnitude()));
}

proof fn lemma_multiple(n: nat)
    ensures
        (n * one_in_units()) as int % one_in_units() as int == 0,
        (-(n * one_in_units())) % one_in_units() as int == 0,
{
    let one = one_in_units() as int;
    lemma_pow2_pos(1074);
    lemma_fundamental_div_mod_converse(n * one, one, n as int, 0);
    assert((-n) * one == -(n * one)) by (nonlinear_arith);
    lemma_fundamental_div_mod_converse(-(n * one), one, -(n as int), 0);
}

pub proof fn lemma_whole_bounds(u: nat)
    ensures
        whole(Direction::TowardsZero, u) * one_in_units() <= u < whole(Direction::TowardsZero, u)
            * one_in_units() + one_in_units(),
        u <= whole(Direction::AwayFromZero, u) * one_in_units() < u + one_in_units(),
        2 * u - one_in_units() < 2 * (whole(Direction::HalfAway, u) * one_in_units()) <= 2 * u
            + one_in_units(),
{
    let one = one_in_units();
    lemma_pow2_pos(1074);
    lemma_fundamental_div_mod(u as int, one as int);
    lemma_fundamental_div_mod(u + one - 1, one as int);
    lemma_fundamental_div_mod((2 * u + one) as int, (2 * one) as int);
    let (a, b) = (whole(Direction::TowardsZero, u), whole(Direction::AwayFromZero, u));
    let c = whole(Direction::HalfAway, u);
    assert(one * a == a * one) by (nonlinear_arith);
    assert((u + one - 1) / one as int >= 0) by (nonlinear_arith)
        requires
            u + one - 1 >= 0,
            one > 0,
    ;
    assert(one * b == b * one) by (nonlinear_arith);
    assert((2 * one) * c == 2 * (c * one)) by (nonlinear_arith);
}

} // verus!
