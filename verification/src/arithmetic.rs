//! Double-precision arithmetic on prices: each operation gives the double
//! nearest to the exact result, as IEEE-754 asks of its default rounding.

use vstd::prelude::*;
use vstd::arithmetic::power2::lemma2_to64;
use vstd::arithmetic::power2::lemma2_to64_rest;
use vstd::arithmetic::power2::lemma_pow2_adds;
use vstd::arithmetic::power2::lemma_pow2_pos;
use vstd::arithmetic::power2::lemma_pow2_strictly_increases;
use vstd::arithmetic::power2::lemma_pow2_unfold;
use vstd::arithmetic::power2::pow2;
use crate::price::magnitude_value;
use crate::price::unit;
use crate::price::Price;
use crate::price::FRACTION_SPAN;
use crate::price::INFINITY_BITS;
use crate::price::NAN_BITS;
use crate::price::SIGN_BIT;
use crate::rounding::fits_level;
use crate::rounding::lemma_level_found;
use crate::rounding::nearest;
use crate::rounding::power_of_two;
use crate::rounding::round_pack;

verus! {

/// The NaN that the operations give.
pub open spec fn nan() -> Price {
    Price { bits: NAN_BITS }
}

/// Zero with the given sign.
pub open spec fn zero_of(negative: bool) -> Price {
    Price {
        bits: if negative {
            SIGN_BIT
        } else {
            0
        },
    }
}

/// Infinity with the given sign.
pub open spec fn infinity_of(negative: bool) -> Price {
    Price {
        bits: if negative {
            (SIGN_BIT + INFINITY_BITS) as u64
        } else {
            INFINITY_BITS
        },
    }
}

/// `x + y`. A NaN gives a NaN, and so do two infinities of opposite sign;
/// an infinity and a finite double give the infinity. Two finite doubles
/// give the double nearest to the exact sum; an exact sum of zero is
/// positive zero, unless both are negative zeros.
pub open spec fn sum(x: Price, y: Price) -> Price {
    if x.not_a_number() || y.not_a_number() {
        nan()
    } else if x.infinite() {
        if y.infinite() && x.negative() != y.negative() {
            nan()
        } else {
            x
        }
    } else if y.infinite() {
        y
    } else {
        rounded_total(x.scaled() + y.scaled(), x.negative() && y.negative())
    }
}

/// The double nearest to a whole number of units; zero takes the sign that
/// is given for it.
pub open spec fn rounded_total(total: int, negative_zero: bool) -> Price {
    if total == 0 {
        zero_of(negative_zero)
    } else if total < 0 {
        nearest(true, -total, 1)
    } else {
        nearest(false, total, 1)
    }
}

/// `x - y`: the sum of `x` and `y` with the other sign.
pub open spec fn difference(x: Price, y: Price) -> Price {
    sum(x, y.negated())
}

/// `x * y`. A NaN gives a NaN, and so does an infinity times zero; an
/// infinity times anything else is an infinity. Two finite doubles give the
/// double nearest to the exact product. The sign is negative where the
/// signs differ.
pub open spec fn product(x: Price, y: Price) -> Price {
    let negative = x.negative() != y.negative();
    if x.not_a_number() || y.not_a_number() {
        nan()
    } else if x.infinite() || y.infinite() {
        if x.zero_valued() || y.zero_valued() {
            nan()
        } else {
            infinity_of(negative)
        }
    } else {
        nearest(
            negative,
            magnitude_value(x.magnitude()) * magnitude_value(y.magnitude()),
            unit(),
        )
    }
}

/// `x / y`. A NaN gives a NaN, and so do an infinity over an infinity and
/// zero over zero. An infinity over a finite double is an infinity, a finite
/// double over an infinity is zero, and a double that is not zero over
/// zero is an infinity. Otherwise the result is the double nearest to the
/// exact quotient. The sign is negative where the signs differ.
pub open spec fn quotient(x: Price, y: Price) -> Price {
    let negative = x.negative() != y.negative();
    if x.not_a_number() || y.not_a_number() {
        nan()
    } else if x.infinite() {
        if y.infinite() {
            nan()
        } else {
            infinity_of(negative)
        }
    } else if y.infinite() {
        zero_of(negative)
    } else if y.zero_valued() {
        if x.zero_valued() {
            nan()
        } else {
            infinity_of(negative)
        }
    } else {
        nearest(negative, magnitude_value(x.magnitude()) * unit(), magnitude_value(y.magnitude()))
    }
}

/// The double nearest to a whole number of items.
pub open spec fn counted(items: nat) -> Price {
    nearest(false, items * unit(), 1)
}

/// A finite double taken apart: its value is `significand` times two to the
/// `level` units.
#[derive(Clone, Copy)]
struct Parts {
    negative: bool,
    significand: u64,
    level: i64,
}

impl Parts {
    /// The significand has at most 53 binary digits, and exactly 53 above
    /// the lowest level.
    spec fn wf(self) -> bool {
        &&& 0 <= self.level <= 2045
        &&& self.significand < 0x20_0000_0000_0000
        &&& self.level > 0 ==> self.significand >= 0x10_0000_0000_0000
    }

    /// The value without its sign, in units.
    spec fn magnitude(self) -> int {
        self.significand * pow2(self.level as nat)
    }

    /// The value, in units.
    spec fn value(self) -> int {
        if self.negative {
            -self.magnitude()
        } else {
            self.magnitude()
        }
    }
}

/// Zero rounds to zero.
pub proof fn lemma_nearest_zero(negative: bool, d: int)
    requires
        0 < d,
    ensures
        nearest(negative, 0, d) == zero_of(negative),
{
    lemma_pow2_pos(53);
    lemma2_to64();
    assert(0 < d * pow2(53)) by (nonlinear_arith)
        requires
            0 < d,
            0 < pow2(53),
    ;
    assert(fits_level(0, d, 0));
    lemma_level_found(0, d, 0);
    assert(d * pow2(0) == d) by (nonlinear_arith)
        requires
            pow2(0) == 1,
    ;
    assert(0int / d == 0 && 0int % d == 0) by (nonlinear_arith)
        requires
            0 < d,
    ;
}

/// Takes a finite double apart.
fn parts_of(p: Price) -> (r: Parts)
    requires
        p.finite(),
    ensures
        r.negative == p.negative(),
        magnitude_value(p.magnitude()) == r.significand * pow2(r.level as nat),
        0 <= r.level <= 2045,
        r.significand < 0x20_0000_0000_0000,
        r.level > 0 ==> r.significand >= 0x10_0000_0000_0000,
        (r.significand == 0) == p.zero_valued(),
        r.wf(),
        r.value() == p.scaled(),
{
    let negative = p.bits >= SIGN_BIT;
    let magnitude: u64 = if negative {
        p.bits - SIGN_BIT
    } else {
        p.bits
    };
    let exponent = magnitude / FRACTION_SPAN;
    let fraction = magnitude % FRACTION_SPAN;
    proof {
        lemma2_to64();
    }
    if exponent == 0 {
        assert(fraction * pow2(0) == fraction) by (nonlinear_arith)
            requires
                pow2(0) == 1,
        ;
        Parts { negative, significand: fraction, level: 0 }
    } else {
        Parts { negative, significand: FRACTION_SPAN + fraction, level: (exponent - 1) as i64 }
    }
}

/// Shifts a significand up until it has 53 binary digits.
fn normalised(significand: u64) -> (r: (u64, i64))
    requires
        0 < significand < 0x20_0000_0000_0000,
    ensures
        r.0 == significand * pow2(r.1 as nat),
        0x10_0000_0000_0000 <= r.0 < 0x20_0000_0000_0000,
        0 <= r.1 <= 52,
{
    proof {
        lemma2_to64();
    }
    let mut s = significand;
    let mut c: i64 = 0;
    assert(significand * pow2(0) == significand) by (nonlinear_arith)
        requires
            pow2(0) == 1,
    ;
    while s < FRACTION_SPAN
        invariant
            0 < significand,
            s == significand * pow2(c as nat),
            0 < s < 0x20_0000_0000_0000,
            0 <= c,
            c <= 52,
            pow2(c as nat) <= s,
        decreases 0x20_0000_0000_0000 - s,
    {
        proof {
            lemma_pow2_unfold((c + 1) as nat);
            assert(2 * (significand * pow2(c as nat)) == significand * (2 * pow2(c as nat)))
                by (nonlinear_arith);
            lemma2_to64_rest();
            if c >= 52 {
                // two to the 52nd would be at most `s`, which is below it
                assert(pow2(52) == 0x10_0000_0000_0000);
                if c > 52 {
                    lemma_pow2_strictly_increases(52, c as nat);
                }
            }
            assert(2 * pow2(c as nat) <= 2 * s);
        }
        s = s * 2;
        c = c + 1;
    }
    (s, c)
}

/// The exact product of two doubles, as the parts that rounding takes.
proof fn lemma_product_parts(sx: int, lx: nat, sy: int, ly: nat, k: nat, e: int)
    requires
        e == lx + ly - k - 1074,
    ensures
        e >= 0 ==> ((sx * pow2(lx)) * (sy * pow2(ly))) * 1 == unit() * ((sx * sy * pow2(k)) * 1 + 0)
            * pow2(e as nat),
        e < 0 ==> ((sx * pow2(lx)) * (sy * pow2(ly))) * 1 * pow2((-e) as nat) == unit() * ((sx * sy
            * pow2(k)) * 1 + 0),
{
    let a = pow2(lx) as int;
    let b = pow2(ly) as int;
    let t = pow2(lx + ly) as int;
    let u = unit();
    let c = pow2(k) as int;
    let both = sx * sy;
    lemma_pow2_adds(lx, ly);
    lemma_pow2_adds(1074, k);
    assert((sx * a) * (sy * b) == both * t) by (nonlinear_arith)
        requires
            a * b == t,
            both == sx * sy,
    ;
    assert(u * ((both * c) * 1 + 0) == both * (u * c)) by (nonlinear_arith);
    if e >= 0 {
        let f = pow2(e as nat) as int;
        lemma_pow2_adds(1074 + k, e as nat);
        assert(t == (u * c) * f);
        assert((both * t) * 1 == (both * (u * c)) * f) by (nonlinear_arith)
            requires
                t == (u * c) * f,
        ;
    } else {
        let g = pow2((-e) as nat) as int;
        lemma_pow2_adds(lx + ly, (-e) as nat);
        assert(t * g == u * c);
        assert((both * t) * 1 * g == both * (u * c)) by (nonlinear_arith)
            requires
                t * g == u * c,
        ;
    }
}

impl Price {
    /// Whether the price is not a number.
    pub fn is_nan(self) -> (b: bool)
        ensures
            b == self.not_a_number(),
    {
        if self.bits >= SIGN_BIT {
            self.bits - SIGN_BIT > INFINITY_BITS
        } else {
            self.bits > INFINITY_BITS
        }
    }

    /// Whether the price is an infinity.
    pub fn is_infinite(self) -> (b: bool)
        ensures
            b == self.infinite(),
    {
        self.bits == INFINITY_BITS || self.bits == SIGN_BIT + INFINITY_BITS
    }

    /// Whether the sign bit is set.
    pub fn is_sign_negative(self) -> (b: bool)
        ensures
            b == self.negative(),
    {
        self.bits >= SIGN_BIT
    }

    /// The price with the other sign.
    pub fn negate(self) -> (p: Price)
        ensures
            p == self.negated(),
    {
        if self.bits >= SIGN_BIT {
            Price { bits: self.bits - SIGN_BIT }
        } else {
            Price { bits: self.bits + SIGN_BIT }
        }
    }

    /// `self * other`, rounded to the nearest double.
    #[verifier::rlimit(40)]
    pub fn times(self, other: Price) -> (p: Price)
        ensures
            p == product(self, other),
    {
        let negative = self.is_sign_negative() != other.is_sign_negative();
        if self.is_nan() || other.is_nan() {
            return Price { bits: NAN_BITS };
        }
        if self.is_infinite() || other.is_infinite() {
            if self.is_zero() || other.is_zero() {
                return Price { bits: NAN_BITS };
            }
            return infinity(negative);
        }
        let x = parts_of(self);
        let y = parts_of(other);
        let ghost n = magnitude_value(self.magnitude()) * magnitude_value(other.magnitude());
        proof {
            lemma_pow2_pos(1074);
        }
        if x.significand == 0 || y.significand == 0 {
            proof {
                assert(n == 0) by (nonlinear_arith)
                    requires
                        n == magnitude_value(self.magnitude()) * magnitude_value(
                            other.magnitude(),
                        ),
                        magnitude_value(self.magnitude()) == 0 || magnitude_value(
                            other.magnitude(),
                        ) == 0,
                ;
                lemma_nearest_zero(negative, unit());
                crate::price::lemma_rank_orders_values(self, Price::zero());
                crate::price::lemma_rank_orders_values(other, Price::zero());
                crate::price::lemma_named_prices();
            }
            return zero(negative);
        }
        proof {
            assert(1 <= x.significand * y.significand < 0x400_0000_0000_0000_0000_0000_0000)
                by (nonlinear_arith)
                requires
                    1 <= x.significand < 0x20_0000_0000_0000,
                    1 <= y.significand < 0x20_0000_0000_0000,
            ;
            lemma2_to64();
            lemma2_to64_rest();
        }
        let a: u128 = (x.significand as u128) * (y.significand as u128);
        let k: u32 = if a < 0x1_0000_0000_0000_0000 {
            62
        } else {
            20
        };
        let q: u128 = a * power_of_two(k);
        let e: i64 = x.level + y.level - (k as i64) - 1074;
        proof {
            lemma_product_parts(
                x.significand as int,
                x.level as nat,
                y.significand as int,
                y.level as nat,
                k as nat,
                e as int,
            );
        }
        round_pack(negative, q, e, false, Ghost(0), Ghost(1), Ghost(n), Ghost(unit()))
    }
}

/// Zero with the given sign.
fn zero(negative: bool) -> (p: Price)
    ensures
        p == zero_of(negative),
{
    if negative {
        Price { bits: SIGN_BIT }
    } else {
        Price { bits: 0 }
    }
}

/// Infinity with the given sign.
fn infinity(negative: bool) -> (p: Price)
    ensures
        p == infinity_of(negative),
{
    if negative {
        Price { bits: SIGN_BIT + INFINITY_BITS }
    } else {
        Price { bits: INFINITY_BITS }
    }
}

/// The exact quotient of two doubles, as the parts that rounding takes: the
/// significands are `sx` and `sy`, shifted up by `cx` and `cy` binary
/// digits, and `a` is the dividend shifted up by 62 digits more.
proof fn lemma_quotient_parts(
    sx: int,
    lx: nat,
    cx: nat,
    sy: int,
    ly: nat,
    cy: nat,
    a: int,
    b: int,
    e: int,
)
    requires
        e == (lx - cx) - (ly - cy) - 62 + 1074,
        a == (sx * pow2(cx)) * pow2(62),
        b == sy * pow2(cy),
    ensures
        e >= 0 ==> ((sx * pow2(lx)) * unit()) * b == (sy * pow2(ly)) * a * pow2(e as nat),
        e < 0 ==> ((sx * pow2(lx)) * unit()) * b * pow2((-e) as nat) == (sy * pow2(ly)) * a,
{
    let u = unit();
    let plx = pow2(lx) as int;
    let pcx = pow2(cx) as int;
    let ply = pow2(ly) as int;
    let pcy = pow2(cy) as int;
    let p62 = pow2(62) as int;
    let both = sx * sy;
    let left = pow2(lx + 1074 + cy) as int;
    let right = pow2(ly + cx + 62) as int;
    lemma_pow2_adds(lx, 1074);
    lemma_pow2_adds(lx + 1074, cy);
    lemma_pow2_adds(ly, cx);
    lemma_pow2_adds(ly + cx, 62);
    assert(left == (plx * u) * pcy);
    assert(right == (ply * pcx) * p62);
    assert(((sx * plx) * u) * b == both * left) by (nonlinear_arith)
        requires
            b == sy * pcy,
            left == (plx * u) * pcy,
            both == sx * sy,
    ;
    assert((sy * ply) * a == both * right) by (nonlinear_arith)
        requires
            a == (sx * pcx) * p62,
            right == (ply * pcx) * p62,
            both == sx * sy,
    ;
    if e >= 0 {
        let f = pow2(e as nat) as int;
        lemma_pow2_adds(ly + cx + 62, e as nat);
        assert(left == right * f);
        assert(both * left == (both * right) * f) by (nonlinear_arith)
            requires
                left == right * f,
        ;
    } else {
        let g = pow2((-e) as nat) as int;
        lemma_pow2_adds(lx + 1074 + cy, (-e) as nat);
        assert(left * g == right);
        assert((both * left) * g == both * right) by (nonlinear_arith)
            requires
                left * g == right,
        ;
    }
}

impl Price {
    /// `self / other`, rounded to the nearest double.
    #[verifier::rlimit(40)]
    pub fn over(self, other: Price) -> (p: Price)
        ensures
            p == quotient(self, other),
    {
        let negative = self.is_sign_negative() != other.is_sign_negative();
        if self.is_nan() || other.is_nan() {
            return Price { bits: NAN_BITS };
        }
        if self.is_infinite() {
            if other.is_infinite() {
                return Price { bits: NAN_BITS };
            }
            return infinity(negative);
        }
        if other.is_infinite() {
            return zero(negative);
        }
        if other.is_zero() {
            if self.is_zero() {
                return Price { bits: NAN_BITS };
            }
            return infinity(negative);
        }
        let x = parts_of(self);
        let y = parts_of(other);
        let ghost n = magnitude_value(self.magnitude()) * unit();
        let ghost d = magnitude_value(other.magnitude());
        proof {
            lemma_pow2_pos(1074);
            lemma_pow2_pos(y.level as nat);
            assert(d > 0) by (nonlinear_arith)
                requires
                    d == y.significand * pow2(y.level as nat),
                    y.significand > 0,
                    pow2(y.level as nat) > 0,
            ;
        }
        if x.significand == 0 {
            proof {
                assert(n == 0) by (nonlinear_arith)
                    requires
                        n == magnitude_value(self.magnitude()) * unit(),
                        magnitude_value(self.magnitude()) == 0 * pow2(x.level as nat),
                ;
                lemma_nearest_zero(negative, d);
            }
            return zero(negative);
        }
        let (sx, cx) = normalised(x.significand);
        let (sy, cy) = normalised(y.significand);
        proof {
            lemma2_to64();
            lemma2_to64_rest();
        }
        let a: u128 = (sx as u128) * power_of_two(62);
        let q: u128 = a / (sy as u128);
        let r: u128 = a % (sy as u128);
        let e: i64 = (x.level - cx) - (y.level - cy) - 62 + 1074;
        proof {
            assert(0x2000_0000_0000_0000 <= q < 0x8000_0000_0000_0000) by (nonlinear_arith)
                requires
                    q == a / (sy as u128),
                    a == sx * 0x4000_0000_0000_0000,
                    0x10_0000_0000_0000 <= sx < 0x20_0000_0000_0000,
                    0x10_0000_0000_0000 <= sy < 0x20_0000_0000_0000,
            ;
            vstd::arithmetic::div_mod::lemma_fundamental_div_mod(a as int, sy as int);
            assert(q * sy + r == a) by (nonlinear_arith)
                requires
                    a == sy * q + r,
            ;
            lemma_quotient_parts(
                x.significand as int,
                x.level as nat,
                cx as nat,
                y.significand as int,
                y.level as nat,
                cy as nat,
                a as int,
                sy as int,
                e as int,
            );
            assert(n >= 0) by (nonlinear_arith)
                requires
                    n == magnitude_value(self.magnitude()) * unit(),
                    magnitude_value(self.magnitude()) == x.significand * pow2(x.level as nat),
                    unit() > 0,
            ;
        }
        round_pack(negative, q, e, r != 0, Ghost(r as int), Ghost(sy as int), Ghost(n), Ghost(d))
    }
}

/// The sum of two doubles whose levels are at most 64 apart: the
/// significands are added or subtracted as whole numbers.
#[verifier::rlimit(40)]
fn plus_aligned(high: Parts, low: Parts) -> (p: Price)
    requires
        high.wf(),
        low.wf(),
        low.level <= high.level <= low.level + 64,
    ensures
        p == rounded_total(high.value() + low.value(), high.negative && low.negative),
{
    let apart: i64 = high.level - low.level;
    proof {
        lemma2_to64();
        lemma2_to64_rest();
        lemma_pow2_adds(apart as nat, low.level as nat);
        lemma_pow2_pos(low.level as nat);
        if apart < 64 {
            lemma_pow2_strictly_increases(apart as nat, 64);
        }
        assert(high.significand * pow2(apart as nat) < 0x20_0000_0000_0000_0000_0000_0000_0000_00)
            by (nonlinear_arith)
            requires
                high.significand < 0x20_0000_0000_0000,
                pow2(apart as nat) <= 0x1_0000_0000_0000_0000,
        ;
    }
    let a: u128 = (high.significand as u128) * power_of_two(apart as u32);
    let b: u128 = low.significand as u128;
    let ghost unit_low = pow2(low.level as nat) as int;
    assert(high.magnitude() == a * unit_low) by (nonlinear_arith)
        requires
            high.magnitude() == high.significand * pow2(high.level as nat),
            pow2(high.level as nat) == pow2(apart as nat) * unit_low,
            a == high.significand * pow2(apart as nat),
    ;
    assert(low.magnitude() == b * unit_low);
    let negative: bool;
    let total: u128;
    if high.negative == low.negative {
        negative = high.negative;
        total = a + b;
    } else if a >= b {
        negative = high.negative;
        total = a - b;
    } else {
        negative = low.negative;
        total = b - a;
    }
    let ghost exact = high.value() + low.value();
    assert(exact == if negative {
        -(total * unit_low)
    } else {
        total * unit_low
    }) by (nonlinear_arith)
        requires
            high.value() == if high.negative {
                -(a * unit_low)
            } else {
                a * unit_low
            },
            low.value() == if low.negative {
                -(b * unit_low)
            } else {
                b * unit_low
            },
            exact == high.value() + low.value(),
            total == if high.negative == low.negative {
                a + b
            } else if a >= b {
                a - b
            } else {
                b - a
            },
            negative == if high.negative == low.negative {
                high.negative
            } else if a >= b {
                high.negative
            } else {
                low.negative
            },
    ;
    if total == 0 {
        assert(exact == 0) by (nonlinear_arith)
            requires
                total == 0,
                exact == total * unit_low || exact == -(total * unit_low),
        ;
        return zero(high.negative && low.negative);
    }
    let ghost n = total * unit_low;
    assert(n > 0 && (exact == n || exact == -n) && (exact < 0) == negative) by (nonlinear_arith)
        requires
            n == total * unit_low,
            total > 0,
            unit_low > 0,
            exact == if negative {
                -(total * unit_low)
            } else {
                total * unit_low
            },
    ;
    let k: u32 = if total < 0x1_0000_0000_0000_0000 {
        62
    } else {
        0
    };
    let q: u128 = total * power_of_two(k);
    let e: i64 = low.level - (k as i64);
    proof {
        let c = pow2(k as nat) as int;
        if e >= 0 {
            let f = pow2(e as nat) as int;
            lemma_pow2_adds(k as nat, e as nat);
            assert(n * 1 == 1 * (q * 1 + 0) * f) by (nonlinear_arith)
                requires
                    n == total * unit_low,
                    q == total * c,
                    unit_low == c * f,
            ;
        } else {
            let g = pow2((-e) as nat) as int;
            lemma_pow2_adds(low.level as nat, (-e) as nat);
            assert(n * 1 * g == 1 * (q * 1 + 0)) by (nonlinear_arith)
                requires
                    n == total * unit_low,
                    q == total * c,
                    unit_low * g == c,
            ;
        }
    }
    round_pack(negative, q, e, false, Ghost(0), Ghost(1), Ghost(n), Ghost(1))
}

/// The sum of two doubles whose levels are more than 64 apart: the lower
/// one is less than a quarter of the spacing at the higher one, and only
/// tells which way to round.
#[verifier::rlimit(40)]
fn plus_dominant(high: Parts, low: Parts) -> (p: Price)
    requires
        high.wf(),
        low.wf(),
        high.level > low.level + 64,
    ensures
        p == rounded_total(high.value() + low.value(), high.negative && low.negative),
{
    let ghost apart = (high.level - low.level - 10) as nat;
    let ghost b = pow2(apart) as int;
    let ghost unit_low = pow2(low.level as nat) as int;
    let ghost f = pow2((high.level - 10) as nat) as int;
    let ghost hv = high.magnitude();
    let ghost lv = low.magnitude();
    let ghost exact = high.value() + low.value();
    let base: u128 = (high.significand as u128) * 1024;
    let e: i64 = high.level - 10;
    proof {
        lemma2_to64();
        lemma2_to64_rest();
        lemma_pow2_pos(apart);
        lemma_pow2_pos(low.level as nat);
        lemma_pow2_pos((high.level - 10) as nat);
        lemma_pow2_adds(10, (high.level - 10) as nat);
        lemma_pow2_adds(apart, low.level as nat);
        if 55 < apart {
            lemma_pow2_strictly_increases(55, apart);
        }
        assert(low.significand < b);
        assert(hv == base * f) by (nonlinear_arith)
            requires
                hv == high.significand * pow2(high.level as nat),
                pow2(high.level as nat) == 1024 * f,
                base == high.significand * 1024,
        ;
        assert(lv * b == low.significand * f) by (nonlinear_arith)
            requires
                lv == low.significand * unit_low,
                f == b * unit_low,
        ;
        // the lower one is the smaller
        assert(lv < hv) by (nonlinear_arith)
            requires
                lv * b == low.significand * f,
                hv == base * f,
                low.significand < b,
                base >= 1024,
                b > 0,
                f > 0,
                lv >= 0,
        ;
    }
    if low.significand == 0 {
        proof {
            assert(lv == 0) by (nonlinear_arith)
                requires
                    lv == low.significand * unit_low,
                    low.significand == 0,
            ;
            assert(hv * b == 1 * (base * b + 0) * f) by (nonlinear_arith)
                requires
                    hv == base * f,
            ;
        }
        round_pack(high.negative, base, e, false, Ghost(0), Ghost(b), Ghost(hv), Ghost(1))
    } else if high.negative == low.negative {
        proof {
            assert((hv + lv) * b == 1 * (base * b + low.significand) * f) by (nonlinear_arith)
                requires
                    hv == base * f,
                    lv * b == low.significand * f,
            ;
        }
        round_pack(
            high.negative,
            base,
            e,
            true,
            Ghost(low.significand as int),
            Ghost(b),
            Ghost(hv + lv),
            Ghost(1),
        )
    } else {
        proof {
            assert((hv - lv) * b == 1 * ((base - 1) * b + (b - low.significand)) * f)
                by (nonlinear_arith)
                requires
                    hv == base * f,
                    lv * b == low.significand * f,
            ;
        }
        round_pack(
            high.negative,
            (base - 1) as u128,
            e,
            true,
            Ghost(b - low.significand),
            Ghost(b),
            Ghost(hv - lv),
            Ghost(1),
        )
    }
}

impl Price {
    /// `self + other`, rounded to the nearest double.
    pub fn plus(self, other: Price) -> (p: Price)
        ensures
            p == sum(self, other),
    {
        if self.is_nan() || other.is_nan() {
            return Price { bits: NAN_BITS };
        }
        if self.is_infinite() {
            if other.is_infinite() && self.is_sign_negative() != other.is_sign_negative() {
                return Price { bits: NAN_BITS };
            }
            return self;
        }
        if other.is_infinite() {
            return other;
        }
        let x = parts_of(self);
        let y = parts_of(other);
        if x.level >= y.level {
            if x.level - y.level <= 64 {
                plus_aligned(x, y)
            } else {
                plus_dominant(x, y)
            }
        } else {
            if y.level - x.level <= 64 {
                plus_aligned(y, x)
            } else {
                plus_dominant(y, x)
            }
        }
    }

    /// `self - other`, rounded to the nearest double.
    pub fn minus(self, other: Price) -> (p: Price)
        ensures
            p == difference(self, other),
    {
        self.plus(other.negate())
    }

    /// The double nearest to a number of items.
    pub fn of_count(items: usize) -> (p: Price)
        ensures
            p == counted(items as nat),
    {
        proof {
            lemma_pow2_pos(1074);
        }
        if items == 0 {
            proof {
                lemma_nearest_zero(false, 1);
                assert(0 * unit() == 0) by (nonlinear_arith);
            }
            return Price { bits: 0 };
        }
        proof {
            lemma2_to64();
            lemma2_to64_rest();
            lemma_pow2_adds(62, 1012);
        }
        let q: u128 = (items as u128) * power_of_two(62);
        proof {
            assert((items * unit()) * 1 == 1 * (q * 1 + 0) * pow2(1012)) by (nonlinear_arith)
                requires
                    q == items * pow2(62),
                    unit() == pow2(62) * pow2(1012),
            ;
            assert(items * unit() >= 0) by (nonlinear_arith)
                requires
                    unit() > 0,
                    items >= 0,
            ;
        }
        round_pack(false, q, 1012, false, Ghost(0), Ghost(1), Ghost(items * unit()), Ghost(1))
    }
}

/// Rounding gives a double of the given sign that is a number: finite or an
/// infinity.
pub proof fn lemma_nearest_is_a_number(negative: bool, n: int, d: int)
    requires
        0 <= n,
        0 < d,
    ensures
        !nearest(negative, n, d).not_a_number(),
        nearest(negative, n, d).negative() == negative,
        nearest(negative, n, d).magnitude() == crate::rounding::nearest_magnitude(n, d),
{
    crate::rounding::lemma_nearest_value(n, d);
}

/// The sum of two doubles that are numbers, one of them finite, is a
/// number.
pub proof fn lemma_sum_is_a_number(x: Price, y: Price)
    requires
        !x.not_a_number(),
        y.finite(),
    ensures
        !sum(x, y).not_a_number(),
        !sum(y, x).not_a_number(),
{
    if x.finite() {
        let total = x.scaled() + y.scaled();
        if total < 0 {
            lemma_nearest_is_a_number(true, -total, 1);
        } else if total > 0 {
            lemma_nearest_is_a_number(false, total, 1);
        }
    }
}

/// A number over a finite double that is not zero is a number.
pub proof fn lemma_quotient_is_a_number(x: Price, y: Price)
    requires
        !x.not_a_number(),
        y.finite(),
        !y.zero_valued(),
    ensures
        !quotient(x, y).not_a_number(),
{
    if x.finite() {
        crate::price::lemma_magnitude_value_sign(x.magnitude());
        crate::price::lemma_magnitude_value_sign(y.magnitude());
        lemma_pow2_pos(1074);
        assert(magnitude_value(x.magnitude()) * unit() >= 0) by (nonlinear_arith)
            requires
                magnitude_value(x.magnitude()) >= 0,
                unit() > 0,
        ;
        lemma_nearest_is_a_number(
            x.negative() != y.negative(),
            magnitude_value(x.magnitude()) * unit(),
            magnitude_value(y.magnitude()),
        );
    }
}

/// A count of at least one item is a finite double above zero.
pub proof fn lemma_count_is_positive(items: nat)
    requires
        1 <= items <= u64::MAX,
    ensures
        counted(items).finite(),
        !counted(items).zero_valued(),
        !counted(items).negative(),
{
    let n: int = items * unit();
    let l = crate::rounding::level(n, 1);
    let m = crate::rounding::round_half_even(n, 1int * pow2(l));
    lemma_pow2_pos(1074);
    lemma_pow2_pos(l);
    lemma2_to64();
    lemma2_to64_rest();
    assert(n >= unit() && n < pow2(64) * unit()) by (nonlinear_arith)
        requires
            n == items * unit(),
            1 <= items < pow2(64),
            unit() > 0,
    ;
    crate::rounding::lemma_nearest_value(n, 1);
    crate::rounding::lemma_level_exists(n, 1);
    lemma_pow2_adds(64, 1074);
    // the spacing is below two to the 1086th
    if 52 + l >= 1138 {
        if 52 + l > 1138 {
            lemma_pow2_strictly_increases(1138, 52 + l);
        }
        assert(l > 0);
        assert(false);
    }
    assert(l * FRACTION_SPAN + m < INFINITY_BITS) by (nonlinear_arith)
        requires
            l < 1086,
            m <= 2 * FRACTION_SPAN,
            FRACTION_SPAN == 0x10_0000_0000_0000,
            INFINITY_BITS == 0x7ff0_0000_0000_0000,
    ;
    // and the significand is above zero
    if l == 0 {
        assert(1 * pow2(0) == 1);
        vstd::arithmetic::div_mod::lemma_fundamental_div_mod_converse(n, 1, n, 0);
        assert(m == n);
    }
    assert(l * FRACTION_SPAN + m > 0) by (nonlinear_arith)
        requires
            l >= 0,
            m > 0,
    ;
}

} // verus!
