//! Rounding a fraction to the nearest double.
//!
//! Values are counted in units of two to the minus 1074th, so that every
//! finite double is a whole number of units. The doubles lie on a grid
//! whose spacing is one unit up to two to the 53rd units and doubles with
//! each doubling of the value from there on. Rounding takes a fraction to the
//! nearest point of the grid and, half way between two, to the one whose
//! significand is even.

use vstd::prelude::*;
use vstd::arithmetic::div_mod::lemma_fundamental_div_mod;
use vstd::arithmetic::div_mod::lemma_fundamental_div_mod_converse;
use vstd::arithmetic::div_mod::lemma_mod_bound;
use vstd::arithmetic::power2::lemma2_to64;
use vstd::arithmetic::power2::lemma2_to64_rest;
use vstd::arithmetic::power2::lemma_pow2_adds;
use vstd::arithmetic::power2::lemma_pow2_pos;
use vstd::arithmetic::power2::lemma_pow2_strictly_increases;
use vstd::arithmetic::power2::lemma_pow2_unfold;
use vstd::arithmetic::power2::pow2;
use crate::price::magnitude_value;
use crate::price::Price;
use crate::price::FRACTION_SPAN;
use crate::price::INFINITY_BITS;
use crate::price::SIGN_BIT;

verus! {

/// The whole number nearest to `n / d`, and of two that are equally near the
/// even one. Meant for `n` at least zero and `d` above zero.
pub open spec fn round_half_even(n: int, d: int) -> int {
    let q = n / d;
    let r = n % d;
    if 2 * r < d || (2 * r == d && q % 2 == 0) {
        q
    } else {
        q + 1
    }
}

/// Whether the grid has the spacing of two to the `l` units at `n / d`:
/// `n / d` is below two to the `53 + l`, and for `l` above zero it is at
/// least two to the `52 + l`.
pub open spec fn fits_level(n: int, d: int, l: nat) -> bool {
    n < d * pow2(53 + l) && (l > 0 ==> d * pow2(52 + l) <= n)
}

/// The spacing of the grid at `n / d`, as a power of two.
pub open spec fn level(n: int, d: int) -> nat {
    choose|l: nat| fits_level(n, d, l)
}

/// The magnitude of the double nearest to `n / d` units: its significand is
/// `n / d` over the spacing, rounded, and where that is beyond the largest
/// double the result is infinity. Meant for `n` at least zero and `d` above
/// zero.
pub open spec fn nearest_magnitude(n: int, d: int) -> int {
    let l = level(n, d);
    let bits = l * FRACTION_SPAN + round_half_even(n, d * pow2(l));
    if bits >= INFINITY_BITS {
        INFINITY_BITS as int
    } else {
        bits
    }
}

/// The double nearest to `n / d` units, with the given sign.
pub open spec fn nearest(negative: bool, n: int, d: int) -> Price {
    Price {
        bits: if negative {
            (SIGN_BIT + nearest_magnitude(n, d)) as u64
        } else {
            nearest_magnitude(n, d) as u64
        },
    }
}

pub proof fn lemma_round_scales(n: int, d: int, c: int)
    requires
        0 <= n,
        0 < d,
        0 < c,
    ensures
        round_half_even(n * c, d * c) == round_half_even(n, d),
{
    let q = n / d;
    let r = n % d;
    lemma_fundamental_div_mod(n, d);
    lemma_mod_bound(n, d);
    assert(n * c == q * (d * c) + r * c && 0 <= r * c < d * c && 0 < d * c) by (nonlinear_arith)
        requires
            n == d * q + r,
            0 <= r < d,
            0 < c,
    ;
    lemma_fundamental_div_mod_converse(n * c, d * c, q, r * c);
    assert((2 * (r * c) < d * c) == (2 * r < d) && (2 * (r * c) == d * c) == (2 * r == d))
        by (nonlinear_arith)
        requires
            0 < c,
    ;
}

/// Two fractions of one value round alike.
pub proof fn lemma_round_same_value(n1: int, d1: int, n2: int, d2: int)
    requires
        0 <= n1,
        0 <= n2,
        0 < d1,
        0 < d2,
        n1 * d2 == n2 * d1,
    ensures
        round_half_even(n1, d1) == round_half_even(n2, d2),
{
    lemma_round_scales(n1, d1, d2);
    lemma_round_scales(n2, d2, d1);
    assert(d1 * d2 == d2 * d1) by (nonlinear_arith);
}

/// At most one spacing fits.
pub proof fn lemma_level_is_unique(n: int, d: int, l1: nat, l2: nat)
    requires
        0 < d,
        fits_level(n, d, l1),
        fits_level(n, d, l2),
    ensures
        l1 == l2,
{
    if l1 < l2 {
        if 53 + l1 < 52 + l2 {
            lemma_pow2_strictly_increases(53 + l1, 52 + l2);
        }
        assert(d * pow2(53 + l1) <= d * pow2(52 + l2)) by (nonlinear_arith)
            requires
                pow2(53 + l1) <= pow2(52 + l2),
                0 < d,
        ;
    }
    if l2 < l1 {
        if 53 + l2 < 52 + l1 {
            lemma_pow2_strictly_increases(53 + l2, 52 + l1);
        }
        assert(d * pow2(53 + l2) <= d * pow2(52 + l1)) by (nonlinear_arith)
            requires
                pow2(53 + l2) <= pow2(52 + l1),
                0 < d,
        ;
    }
}

/// The spacing that fits is the spacing.
pub proof fn lemma_level_found(n: int, d: int, l: nat)
    requires
        0 < d,
        fits_level(n, d, l),
    ensures
        level(n, d) == l,
{
    lemma_level_is_unique(n, d, l, level(n, d));
}

/// A significand `m` at the spacing of two to the `l` is the double with
/// the magnitude `l * 2^52 + m`; its value is `m` times the spacing.
pub proof fn lemma_packed_value(l: nat, m: int)
    requires
        0 <= m <= 2 * FRACTION_SPAN,
        l > 0 ==> FRACTION_SPAN <= m,
    ensures
        magnitude_value(l * FRACTION_SPAN + m) == m * pow2(l),
{
    let span = FRACTION_SPAN as int;
    let bits = l * span + m;
    lemma2_to64();
    if m < span {
        assert(l == 0);
        assert(bits / span == 0 && bits % span == m);
        assert(m * pow2(0) == m) by (nonlinear_arith)
            requires
                pow2(0) == 1,
        ;
    } else if m < 2 * span {
        lemma_fundamental_div_mod_converse(bits, span, (l + 1) as int, m - span);
        assert((l + 1) * span + (m - span) == l * span + m) by (nonlinear_arith);
    } else {
        lemma_fundamental_div_mod_converse(bits, span, (l + 2) as int, 0);
        assert((l + 2) * span + 0 == l * span + m) by (nonlinear_arith)
            requires
                m == 2 * span,
        ;
        lemma_pow2_unfold(l + 1);
        assert((span + 0) * (2 * pow2(l)) == (2 * span) * pow2(l)) by (nonlinear_arith);
    }
}

/// Rounding `n / d` where `n / d` is `x / b` times two to the `e`, and `x / b`
/// has `bl` binary digits before the point: the spacing is two to the
/// `e + sh`, where `sh` is the larger of `bl - 53` and `-e`, and the
/// significand is `x / b` shifted down by `sh` and rounded.
#[verifier::rlimit(40)]
proof fn lemma_parts_round(n: int, d: int, x: int, b: int, e: int, bl: nat, sh: nat, l: nat)
    requires
        0 <= n,
        0 < d,
        0 < b,
        bl >= 1,
        pow2((bl - 1) as nat) * b <= x < pow2(bl) * b,
        e >= 0 ==> n * b == d * x * pow2(e as nat),
        e < 0 ==> n * b * pow2((-e) as nat) == d * x,
        sh >= bl - 53,
        sh >= -e,
        sh == bl - 53 || sh == -e,
        l == e + sh,
    ensures
        level(n, d) == l,
        round_half_even(n, d * pow2(l)) == round_half_even(x, b * pow2(sh)),
{
    let p = pow2(sh) as int;
    let q = pow2(l) as int;
    let low = pow2((bl - 1) as nat) as int;
    let high = pow2(bl) as int;
    let top = pow2(53 + l) as int;
    lemma_pow2_pos(sh);
    lemma_pow2_pos(l);
    lemma_pow2_pos(53 + l);
    lemma_pow2_pos(52 + l);
    if e >= 0 {
        let f = pow2(e as nat) as int;
        lemma_pow2_pos(e as nat);
        lemma_pow2_adds(e as nat, sh);
        assert(q == f * p);
        assert(n * (b * p) == x * (d * q)) by (nonlinear_arith)
            requires
                n * b == d * x * f,
                q == f * p,
        ;
        // below the top of the level
        lemma_pow2_adds(bl, e as nat);
        if bl + e < 53 + l {
            lemma_pow2_strictly_increases((bl + e) as nat, 53 + l);
        }
        assert(n < d * top) by (nonlinear_arith)
            requires
                n * b == d * x * f,
                x < high * b,
                high * f <= top,
                0 < b,
                0 < d,
                0 < f,
        ;
        if l > 0 {
            assert(sh == bl - 53);
            lemma_pow2_adds((bl - 1) as nat, e as nat);
            let bottom = pow2(52 + l) as int;
            assert(bottom == low * f);
            assert(d * bottom <= n) by (nonlinear_arith)
                requires
                    n * b == d * x * f,
                    low * b <= x,
                    bottom == low * f,
                    0 < b,
                    0 < d,
                    0 < f,
            ;
        }
    } else {
        let a = pow2((-e) as nat) as int;
        lemma_pow2_pos((-e) as nat);
        lemma_pow2_adds(l, (-e) as nat);
        assert(p == q * a);
        assert(n * (b * p) == x * (d * q)) by (nonlinear_arith)
            requires
                n * b * a == d * x,
                p == q * a,
        ;
        lemma_pow2_adds(53 + l, (-e) as nat);
        if bl < 53 + sh {
            lemma_pow2_strictly_increases(bl, 53 + sh);
        }
        assert(top * a >= high);
        assert(n < d * top) by (nonlinear_arith)
            requires
                n * b * a == d * x,
                x < high * b,
                top * a >= high,
                0 < b,
                0 < d,
                0 < a,
        ;
        if l > 0 {
            assert(sh == bl - 53);
            lemma_pow2_adds(52 + l, (-e) as nat);
            let bottom = pow2(52 + l) as int;
            assert(bottom * a == low);
            assert(d * bottom <= n) by (nonlinear_arith)
                requires
                    n * b * a == d * x,
                    low * b <= x,
                    bottom * a == low,
                    0 < b,
                    0 < d,
                    0 < a,
            ;
        }
    }
    assert(fits_level(n, d, l));
    lemma_level_found(n, d, l);
    assert(0 < b * p && 0 < d * q) by (nonlinear_arith)
        requires
            0 < b,
            0 < p,
            0 < d,
            0 < q,
    ;
    lemma_round_same_value(n, d * q, x, b * p);
}

/// Rounding `(q + r / b) / p` for an even `p`: the quotient of `q` by `p`,
/// and one more where the remainder of `q` is above half of `p`, or is half
/// of `p` and either `r` is not zero or the quotient is odd.
proof fn lemma_round_by_shift(q: int, r: int, b: int, p: int)
    requires
        0 <= q,
        0 <= r < b,
        2 <= p,
        p % 2 == 0,
    ensures
        round_half_even(q * b + r, b * p) == if q % p < p / 2 || (q % p == p / 2 && r == 0 && (q
            / p) % 2 == 0) {
            q / p
        } else {
            q / p + 1
        },
{
    let hi = q / p;
    let lo = q % p;
    let half = p / 2;
    lemma_fundamental_div_mod(q, p);
    lemma_mod_bound(q, p);
    let x = q * b + r;
    let rest = lo * b + r;
    assert(x == hi * (b * p) + rest && 0 <= rest < b * p && 0 < b * p) by (nonlinear_arith)
        requires
            q == p * hi + lo,
            0 <= lo < p,
            0 <= r < b,
            x == q * b + r,
            rest == lo * b + r,
    ;
    lemma_fundamental_div_mod_converse(x, b * p, hi, rest);
    assert((2 * rest < b * p) == (lo < half) && (2 * rest == b * p) == (lo == half && r == 0))
        by (nonlinear_arith)
        requires
            rest == lo * b + r,
            0 <= r < b,
            p == 2 * half,
            0 <= lo,
    ;
}

/// A rounded quotient is within a half of the quotient.
pub proof fn lemma_round_is_nearest(n: int, d: int)
    requires
        0 <= n,
        0 < d,
    ensures
        0 <= round_half_even(n, d),
        -d <= 2 * (n - d * round_half_even(n, d)) <= d,
{
    let q = n / d;
    let r = n % d;
    lemma_fundamental_div_mod(n, d);
    lemma_mod_bound(n, d);
    vstd::arithmetic::div_mod::lemma_div_pos_is_pos(n, d);
    assert(d * (q + 1) == d * q + d) by (nonlinear_arith);
}

/// Every fraction that is not negative has a spacing.
pub proof fn lemma_level_exists(n: int, d: int)
    requires
        0 <= n,
        0 < d,
    ensures
        fits_level(n, d, level(n, d)),
{
    lemma_pow2_pos(53);
    if n < d * pow2(53) {
        assert(fits_level(n, d, 0));
    } else {
        lemma_level_search(n, d, 1);
    }
}

proof fn lemma_level_search(n: int, d: int, l: nat)
    requires
        0 < d,
        l >= 1,
        d * pow2(52 + l) <= n,
    ensures
        exists|found: nat| fits_level(n, d, found),
    decreases n - d * pow2(52 + l),
{
    lemma_pow2_unfold(53 + l);
    lemma_pow2_pos(52 + l);
    if n < d * pow2(53 + l) {
        assert(fits_level(n, d, l));
    } else {
        assert(d * pow2(52 + l) < d * pow2(53 + l)) by (nonlinear_arith)
            requires
                0 < d,
                pow2(53 + l) == 2 * pow2(52 + l),
                0 < pow2(52 + l),
        ;
        lemma_level_search(n, d, l + 1);
    }
}

/// What rounding to the nearest double comes to: a significand of at most
/// 53 binary digits at the spacing of the value, within half a spacing of
/// the value; where that is a double, it is the result, and the result has
/// this value.
pub proof fn lemma_nearest_value(n: int, d: int)
    requires
        0 <= n,
        0 < d,
    ensures
        ({
            let l = level(n, d);
            let m = round_half_even(n, d * pow2(l));
            &&& 0 <= m <= 2 * FRACTION_SPAN
            &&& l > 0 ==> FRACTION_SPAN <= m
            &&& -(d * pow2(l)) <= 2 * (n - (d * pow2(l)) * m) <= d * pow2(l)
            &&& 0 <= nearest_magnitude(n, d) <= INFINITY_BITS
            &&& nearest_magnitude(n, d) < INFINITY_BITS ==> magnitude_value(nearest_magnitude(n, d))
                == m * pow2(l)
        }),
{
    let l = level(n, d);
    let p = pow2(l) as int;
    let dp = d * p;
    let m = round_half_even(n, dp);
    lemma_level_exists(n, d);
    lemma_pow2_pos(l);
    lemma2_to64_rest();
    lemma_pow2_adds(53, l);
    lemma_pow2_adds(52, l);
    assert(0 < dp) by (nonlinear_arith)
        requires
            dp == d * p,
            0 < d,
            0 < p,
    ;
    lemma_round_is_nearest(n, dp);
    let top = 2 * FRACTION_SPAN;
    assert(n < dp * top) by (nonlinear_arith)
        requires
            n < d * pow2(53 + l),
            pow2(53 + l) == top * p,
            dp == d * p,
    ;
    assert(m <= top) by (nonlinear_arith)
        requires
            n < dp * top,
            2 * (n - dp * m) >= -dp,
            0 < dp,
    ;
    if l > 0 {
        let low = FRACTION_SPAN as int;
        assert(dp * low <= n) by (nonlinear_arith)
            requires
                d * pow2(52 + l) <= n,
                pow2(52 + l) == low * p,
                dp == d * p,
        ;
        assert(low <= m) by (nonlinear_arith)
            requires
                dp * low <= n,
                2 * (n - dp * m) <= dp,
                0 < dp,
        ;
    }
    lemma_packed_value(l, m);
    assert(l * FRACTION_SPAN + m >= 0) by (nonlinear_arith)
        requires
            l >= 0,
            m >= 0,
    ;
}

/// A double is the double nearest to its own value.
pub proof fn lemma_nearest_of_double(p: Price)
    requires
        p.finite(),
    ensures
        nearest(p.negative(), magnitude_value(p.magnitude()), 1) == p,
{
    let span = FRACTION_SPAN as int;
    let magnitude = p.magnitude();
    let exponent = magnitude / span;
    let fraction = magnitude % span;
    let n = magnitude_value(magnitude);
    lemma2_to64();
    lemma2_to64_rest();
    lemma_fundamental_div_mod(magnitude, span);
    if exponent == 0 {
        assert(fits_level(n, 1, 0));
        lemma_level_found(n, 1, 0);
        lemma_fundamental_div_mod_converse(n, 1, n, 0);
        assert(1 * pow2(0) == 1);
    } else {
        let l = (exponent - 1) as nat;
        let m = span + fraction;
        let unit_here = pow2(l) as int;
        lemma_pow2_pos(l);
        lemma_pow2_adds(53, l);
        lemma_pow2_adds(52, l);
        assert(n == m * unit_here);
        assert(n < 1 * pow2(53 + l) && 1 * pow2(52 + l) <= n) by (nonlinear_arith)
            requires
                n == m * unit_here,
                span <= m < 2 * span,
                pow2(53 + l) == (2 * span) * unit_here,
                pow2(52 + l) == span * unit_here,
                0 < unit_here,
        ;
        assert(fits_level(n, 1, l));
        lemma_level_found(n, 1, l);
        assert(1 * pow2(l) == unit_here);
        lemma_fundamental_div_mod_converse(n, unit_here, m, 0);
        assert(l * span + m == magnitude) by (nonlinear_arith)
            requires
                magnitude == span * exponent + fraction,
                l == exponent - 1,
                m == span + fraction,
        ;
    }
}

/// Two to the 128th is one more than the largest `u128`.
proof fn lemma_pow2_128()
    ensures
        pow2(128) == 0x1_0000_0000_0000_0000_0000_0000_0000_0000,
        pow2(127) == 0x8000_0000_0000_0000_0000_0000_0000_0000,
        pow2(64) == 0x1_0000_0000_0000_0000,
{
    lemma2_to64();
    lemma2_to64_rest();
    lemma_pow2_adds(64, 64);
    lemma_pow2_adds(63, 64);
    assert(0x1_0000_0000_0000_0000 * 0x1_0000_0000_0000_0000
        == 0x1_0000_0000_0000_0000_0000_0000_0000_0000) by (nonlinear_arith);
    assert(0x8000_0000_0000_0000 * 0x1_0000_0000_0000_0000
        == 0x8000_0000_0000_0000_0000_0000_0000_0000) by (nonlinear_arith);
}

/// Two to the `k`.
pub(crate) fn power_of_two(k: u32) -> (p: u128)
    requires
        k <= 127,
    ensures
        p == pow2(k as nat),
        p >= 1,
{
    proof {
        lemma2_to64();
        lemma_pow2_128();
    }
    let mut p: u128 = 1;
    let mut i: u32 = 0;
    while i < k
        invariant
            i <= k <= 127,
            p == pow2(i as nat),
            pow2(127) == 0x8000_0000_0000_0000_0000_0000_0000_0000,
        decreases k - i,
    {
        proof {
            lemma_pow2_unfold((i + 1) as nat);
            if i + 1 < 127 {
                lemma_pow2_strictly_increases((i + 1) as nat, 127);
            }
        }
        p = p * 2;
        i += 1;
    }
    proof {
        lemma_pow2_pos(k as nat);
    }
    p
}

/// The number of binary digits of `q`.
pub(crate) fn bit_length(q: u128) -> (bl: u32)
    requires
        q >= 1,
    ensures
        1 <= bl <= 128,
        pow2((bl - 1) as nat) <= q < pow2(bl as nat),
{
    proof {
        lemma2_to64();
        lemma_pow2_128();
    }
    let mut bl: u32 = 1;
    let mut low: u128 = 1;
    while bl < 128 && q / 2 >= low
        invariant
            1 <= bl <= 128,
            low == pow2((bl - 1) as nat),
            low <= q,
            pow2(128) == 0x1_0000_0000_0000_0000_0000_0000_0000_0000,
        decreases 128 - bl,
    {
        proof {
            lemma_pow2_unfold(bl as nat);
        }
        low = low * 2;
        bl += 1;
    }
    proof {
        lemma_pow2_unfold(bl as nat);
    }
    bl
}

/// The double nearest to `(q + r / b)` times two to the `e` units, with the
/// given sign. `sticky` says whether `r` is above zero; `n / d` is the
/// value as a fraction.
#[verifier::rlimit(40)]
pub(crate) fn round_pack(
    negative: bool,
    q: u128,
    e: i64,
    sticky: bool,
    Ghost(r): Ghost<int>,
    Ghost(b): Ghost<int>,
    Ghost(n): Ghost<int>,
    Ghost(d): Ghost<int>,
) -> (p: Price)
    requires
        0x40_0000_0000_0000 <= q < 0x8000_0000_0000_0000_0000_0000_0000_0000,
        -5000 <= e <= 5000,
        0 < b,
        0 <= r < b,
        sticky == (r != 0),
        0 <= n,
        0 < d,
        e >= 0 ==> n * b == d * (q * b + r) * pow2(e as nat),
        e < 0 ==> n * b * pow2((-e) as nat) == d * (q * b + r),
    ensures
        p == nearest(negative, n, d),
{
    proof {
        lemma2_to64();
        lemma2_to64_rest();
        lemma_pow2_128();
    }
    let bl = bit_length(q);
    proof {
        if bl > 127 {
            lemma_pow2_strictly_increases(127, (bl - 1) as nat);
        }
        if bl < 55 {
            lemma_pow2_strictly_increases(bl as nat, 55);
        }
    }
    assert(55 <= bl <= 127);
    let sh: i64 = if (bl as i64) - 53 >= -e {
        (bl as i64) - 53
    } else {
        -e
    };
    let l: i64 = e + sh;
    let ghost x = q * b + r;
    proof {
        assert(pow2((bl - 1) as nat) * b <= x < pow2(bl as nat) * b) by (nonlinear_arith)
            requires
                pow2((bl - 1) as nat) <= q < pow2(bl as nat),
                0 <= r < b,
                x == q * b + r,
        ;
        lemma_parts_round(n, d, x, b, e as int, bl as nat, sh as nat, l as nat);
    }
    let m: u64;
    if sh > bl as i64 {
        // below half a unit
        proof {
            let p = pow2(sh as nat) as int;
            lemma_pow2_unfold(sh as nat);
            if bl < sh - 1 {
                lemma_pow2_strictly_increases(bl as nat, (sh - 1) as nat);
            }
            let half = pow2((sh - 1) as nat) as int;
            assert(2 * x < b * p && 0 <= x) by (nonlinear_arith)
                requires
                    x < pow2(bl as nat) * b,
                    pow2(bl as nat) <= half,
                    p == 2 * half,
                    0 < b,
                    x == q * b + r,
                    0 <= q,
                    0 <= r,
            ;
            lemma_fundamental_div_mod_converse(x, b * p, 0, x);
        }
        m = 0;
    } else {
        let p = power_of_two(sh as u32);
        let hi = q / p;
        let lo = q % p;
        let half = p / 2;
        proof {
            lemma_pow2_unfold(sh as nat);
            lemma_round_by_shift(q as int, r, b, p as int);
            // the quotient has at most 53 digits
            lemma_pow2_adds((bl - sh) as nat, sh as nat);
            if bl - sh < 53 {
                lemma_pow2_strictly_increases((bl - sh) as nat, 53);
            }
            assert(hi < 0x20_0000_0000_0000) by (nonlinear_arith)
                requires
                    q < pow2((bl - sh) as nat) * p,
                    pow2((bl - sh) as nat) <= 0x20_0000_0000_0000,
                    hi == q / p,
                    p > 0,
            ;
        }
        if lo < half || (lo == half && !sticky && hi % 2 == 0) {
            m = hi as u64;
        } else {
            m = (hi + 1) as u64;
        }
    }
    assert(m == round_half_even(n, d * pow2(l as nat)));
    assert(level(n, d) == l);
    let magnitude: u64 = if l >= 2047 {
        INFINITY_BITS
    } else {
        let bits: u64 = (l as u64) * FRACTION_SPAN + m;
        if bits >= INFINITY_BITS {
            INFINITY_BITS
        } else {
            bits
        }
    };
    proof {
        if l >= 2047 {
            assert(l * FRACTION_SPAN + m >= INFINITY_BITS) by (nonlinear_arith)
                requires
                    l >= 2047,
                    m >= 0,
                    FRACTION_SPAN == 0x10_0000_0000_0000,
                    INFINITY_BITS == 0x7ff0_0000_0000_0000,
            ;
        }
        assert(magnitude == nearest_magnitude(n, d));
    }
    if negative {
        Price { bits: SIGN_BIT + magnitude }
    } else {
        Price { bits: magnitude }
    }
}

} // verus!
