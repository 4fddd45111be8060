//! Prices as text with two fractional digits.

use vstd::prelude::*;
use vstd::arithmetic::div_mod::lemma_fundamental_div_mod_converse;
use vstd::arithmetic::power2::lemma2_to64;
use vstd::arithmetic::power2::lemma2_to64_rest;
use vstd::arithmetic::power2::lemma_pow2_adds;
use vstd::arithmetic::power2::lemma_pow2_pos;
use vstd::arithmetic::power2::lemma_pow2_strictly_increases;
use vstd::arithmetic::power2::lemma_pow2_unfold;
use vstd::arithmetic::power2::pow2;
use vstd::string::StringExecFns;
use crate::rounding::lemma_round_scales;
use crate::rounding::round_half_even;
use crate::price::magnitude_value;
use crate::price::unit;
use crate::price::Price;
use crate::price::FRACTION_SPAN;
use crate::price::INFINITY_BITS;
use crate::price::SIGN_BIT;

verus! {

/// The character of a decimal digit.
pub open spec fn digit_char(d: int) -> char {
    if d == 0 {
        '0'
    } else if d == 1 {
        '1'
    } else if d == 2 {
        '2'
    } else if d == 3 {
        '3'
    } else if d == 4 {
        '4'
    } else if d == 5 {
        '5'
    } else if d == 6 {
        '6'
    } else if d == 7 {
        '7'
    } else if d == 8 {
        '8'
    } else {
        '9'
    }
}

/// A whole number that is not negative, in decimal digits: no leading zero
/// but for zero itself.
pub open spec fn decimal(n: int) -> Seq<char>
    decreases n,
{
    if n < 10 {
        seq![digit_char(n)]
    } else {
        decimal(n / 10).push(digit_char(n % 10))
    }
}

/// A magnitude with two fractional digits: the whole part in decimal digits,
/// a point, and the two digits of the hundredths, the value being rounded to
/// the nearest hundredth and, half way between two, to the even one.
pub open spec fn magnitude_places(magnitude: int) -> Seq<char> {
    let h = round_half_even(100 * magnitude_value(magnitude), unit());
    decimal(h / 100) + seq!['.', digit_char(h / 10 % 10), digit_char(h % 10)]
}

/// A price with two fractional digits: a minus sign where the sign bit is
/// set, and the magnitude with two fractional digits. An infinity is `inf`
/// with its sign, and what is not a number is `NaN`.
pub open spec fn two_places(p: Price) -> Seq<char> {
    let sign = if p.bits >= SIGN_BIT {
        seq!['-']
    } else {
        Seq::<char>::empty()
    };
    if p.magnitude() > INFINITY_BITS {
        seq!['N', 'a', 'N']
    } else if p.magnitude() == INFINITY_BITS {
        sign + seq!['i', 'n', 'f']
    } else {
        sign + magnitude_places(p.magnitude())
    }
}

/// The number that decimal digits stand for, the lowest digit first.
spec fn digits_value(d: Seq<u8>) -> int
    decreases d.len(),
{
    if d.len() == 0 {
        0
    } else {
        d[0] + 10 * digits_value(d.drop_first())
    }
}

/// Decimal digits, the lowest first, without a leading zero but for zero
/// itself.
spec fn canonical(d: Seq<u8>) -> bool {
    &&& d.len() >= 1
    &&& forall|i: int| 0 <= i < d.len() ==> #[trigger] d[i] < 10
    &&& d.len() > 1 ==> d.last() != 0
}

/// The digits as characters, the highest digit first.
spec fn digits_text(d: Seq<u8>) -> Seq<char> {
    Seq::new(d.len(), |i: int| digit_char(d[d.len() - 1 - i] as int))
}

/// The digits of a number, the lowest first.
spec fn digits_of_number(n: int) -> Seq<u8>
    decreases n,
{
    if n < 10 {
        seq![n as u8]
    } else {
        seq![(n % 10) as u8] + digits_of_number(n / 10)
    }
}

/// The digits of twice a number and a carry.
spec fn doubled(d: Seq<u8>, carry: int) -> Seq<u8>
    decreases d.len(),
{
    if d.len() == 0 {
        if carry == 0 {
            Seq::<u8>::empty()
        } else {
            seq![carry as u8]
        }
    } else {
        let t = 2 * d[0] + carry;
        seq![(t % 10) as u8] + doubled(d.drop_first(), t / 10)
    }
}

proof fn lemma_digits_positive(d: Seq<u8>)
    requires
        d.len() >= 1,
        d.last() != 0,
    ensures
        digits_value(d) >= 1,
    decreases d.len(),
{
    if d.len() > 1 {
        assert(d.drop_first().last() == d.last());
        lemma_digits_positive(d.drop_first());
    } else {
        assert(d.drop_first().len() == 0);
        assert(digits_value(d.drop_first()) == 0);
    }
}

proof fn lemma_decimal_of_digits(d: Seq<u8>)
    requires
        canonical(d),
    ensures
        decimal(digits_value(d)) == digits_text(d),
        digits_value(d) >= 0,
    decreases d.len(),
{
    let rest = d.drop_first();
    if rest.len() == 0 {
        assert(digits_value(rest) == 0);
        assert(decimal(digits_value(d)) =~= digits_text(d));
    } else {
        assert(rest.last() == d.last());
        assert forall|i: int| 0 <= i < rest.len() implies #[trigger] rest[i] < 10 by {
            assert(rest[i] == d[i + 1]);
        }
        lemma_decimal_of_digits(rest);
        lemma_digits_positive(rest);
        let n = digits_value(d);
        let v = digits_value(rest);
        assert(n == d[0] + 10 * v);
        assert(n / 10 == v && n % 10 == d[0]);
        assert(digits_text(rest).push(digit_char(d[0] as int)) =~= digits_text(d));
    }
}

proof fn lemma_digits_of_number(n: int)
    requires
        0 <= n,
    ensures
        canonical(digits_of_number(n)),
        digits_value(digits_of_number(n)) == n,
    decreases n,
{
    let d = digits_of_number(n);
    if n < 10 {
        assert(d.drop_first().len() == 0);
        assert(digits_value(d.drop_first()) == 0);
    } else {
        lemma_digits_of_number(n / 10);
        let rest = digits_of_number(n / 10);
        assert(d.drop_first() =~= rest);
        assert(d.last() == rest.last());
        if rest.len() == 1 {
            assert(digits_value(rest.drop_first()) == 0);
            assert(rest[0] != 0);
        }
        assert forall|i: int| 0 <= i < d.len() implies #[trigger] d[i] < 10 by {
            if i > 0 {
                assert(d[i] == rest[i - 1]);
            }
        }
    }
}

proof fn lemma_doubled(d: Seq<u8>, carry: int)
    requires
        forall|i: int| 0 <= i < d.len() ==> #[trigger] d[i] < 10,
        0 <= carry <= 1,
    ensures
        digits_value(doubled(d, carry)) == 2 * digits_value(d) + carry,
        forall|i: int| 0 <= i < doubled(d, carry).len() ==> #[trigger] doubled(d, carry)[i] < 10,
        doubled(d, carry).len() >= d.len(),
        d.len() >= 1 && d.last() != 0 ==> doubled(d, carry).len() >= 1 && doubled(
            d,
            carry,
        ).last() != 0,
    decreases d.len(),
{
    let out = doubled(d, carry);
    if d.len() == 0 {
        if carry != 0 {
            assert(out.drop_first().len() == 0);
            assert(digits_value(out.drop_first()) == 0);
        }
    } else {
        let t = 2 * d[0] + carry;
        let rest = d.drop_first();
        assert forall|i: int| 0 <= i < rest.len() implies #[trigger] rest[i] < 10 by {
            assert(rest[i] == d[i + 1]);
        }
        lemma_doubled(rest, t / 10);
        let tail = doubled(rest, t / 10);
        assert(out.drop_first() =~= tail);
        assert(out[0] == (t % 10) as u8);
        assert forall|i: int| 0 <= i < out.len() implies #[trigger] out[i] < 10 by {
            if i > 0 {
                assert(out[i] == tail[i - 1]);
            }
        }
        if d.last() != 0 {
            if rest.len() == 0 {
                if t / 10 == 0 {
                    assert(tail.len() == 0);
                    assert(out.last() == (t % 10) as u8);
                } else {
                    assert(out.last() == tail.last());
                }
            } else {
                assert(rest.last() == d.last());
                assert(out.last() == tail.last());
            }
        }
    }
}

/// The text of one decimal digit.
fn digit_text(d: u8) -> (text: &'static str)
    requires
        d < 10,
    ensures
        text@ == seq![digit_char(d as int)],
{
    proof {
        reveal_strlit("0");
        reveal_strlit("1");
        reveal_strlit("2");
        reveal_strlit("3");
        reveal_strlit("4");
        reveal_strlit("5");
        reveal_strlit("6");
        reveal_strlit("7");
        reveal_strlit("8");
        reveal_strlit("9");
    }
    let text = if d == 0 {
        "0"
    } else if d == 1 {
        "1"
    } else if d == 2 {
        "2"
    } else if d == 3 {
        "3"
    } else if d == 4 {
        "4"
    } else if d == 5 {
        "5"
    } else if d == 6 {
        "6"
    } else if d == 7 {
        "7"
    } else if d == 8 {
        "8"
    } else {
        "9"
    };
    assert(text@ =~= seq![digit_char(d as int)]);
    text
}

/// The decimal digits of a number, the lowest first.
fn digits_of(n: u64) -> (d: Vec<u8>)
    ensures
        canonical(d@),
        digits_value(d@) == n,
{
    let mut d: Vec<u8> = Vec::new();
    let mut rest: u64 = n;
    while rest >= 10
        invariant
            d@ + digits_of_number(rest as int) == digits_of_number(n as int),
        decreases rest,
    {
        let ghost before = d@;
        d.push((rest % 10) as u8);
        assert(d@ + digits_of_number((rest / 10) as int) =~= before + digits_of_number(rest as int));
        rest = rest / 10;
    }
    let ghost before = d@;
    d.push(rest as u8);
    assert(d@ =~= before + digits_of_number(rest as int));
    proof {
        lemma_digits_of_number(n as int);
    }
    d
}

/// The decimal digits of twice the number that the digits stand for.
fn double(d: &Vec<u8>) -> (out: Vec<u8>)
    requires
        canonical(d@),
        d@.last() != 0,
    ensures
        canonical(out@),
        out@.last() != 0,
        digits_value(out@) == 2 * digits_value(d@),
{
    let n = d.len();
    let mut out: Vec<u8> = Vec::new();
    let mut carry: u8 = 0;
    let mut j: usize = 0;
    assert(d@.skip(0) =~= d@);
    while j < n
        invariant
            n == d@.len(),
            j <= n,
            carry <= 1,
            forall|i: int| 0 <= i < d@.len() ==> #[trigger] d@[i] < 10,
            out@ + doubled(d@.skip(j as int), carry as int) == doubled(d@, 0),
        decreases n - j,
    {
        let t: u8 = 2 * d[j] + carry;
        let ghost before = out@;
        let ghost here = d@.skip(j as int);
        assert(here[0] == d@[j as int]);
        assert(here.drop_first() =~= d@.skip(j + 1));
        out.push(t % 10);
        assert(out@ + doubled(d@.skip(j + 1), (t / 10) as int) =~= before + doubled(here, carry as int));
        carry = t / 10;
        j += 1;
    }
    assert(d@.skip(n as int).len() == 0);
    if carry > 0 {
        let ghost before = out@;
        out.push(carry);
        assert(out@ =~= before + doubled(d@.skip(n as int), carry as int));
    } else {
        assert(out@ =~= out@ + doubled(d@.skip(n as int), carry as int));
    }
    proof {
        lemma_doubled(d@, 0);
    }
    out
}

/// The decimal digits of `m` times two to the `shift`.
fn digits_of_shifted(m: u64, shift: u64) -> (d: Vec<u8>)
    requires
        m > 0,
    ensures
        canonical(d@),
        digits_value(d@) == m * pow2(shift as nat),
{
    let mut d = digits_of(m);
    proof {
        lemma2_to64();
        if d@.len() == 1 {
            assert(d@.drop_first().len() == 0);
            assert(digits_value(d@.drop_first()) == 0);
        }
        assert(m * pow2(0) == m) by (nonlinear_arith)
            requires
                pow2(0) == 1,
        ;
    }
    let mut i: u64 = 0;
    while i < shift
        invariant
            i <= shift,
            canonical(d@),
            d@.last() != 0,
            digits_value(d@) == m * pow2(i as nat),
        decreases shift - i,
    {
        proof {
            lemma_pow2_unfold((i + 1) as nat);
            assert(2 * (m * pow2(i as nat)) == m * (2 * pow2(i as nat))) by (nonlinear_arith);
        }
        d = double(&d);
        i += 1;
    }
    d
}

/// Two to the `k`.
fn two_to(k: u64) -> (d: u64)
    requires
        k <= 60,
    ensures
        d == pow2(k as nat),
        d <= 0x1000_0000_0000_0000,
{
    proof {
        lemma2_to64();
        lemma2_to64_rest();
    }
    let mut d: u64 = 1;
    let mut i: u64 = 0;
    while i < k
        invariant
            i <= k <= 60,
            d == pow2(i as nat),
            pow2(60) == 0x1000_0000_0000_0000,
        decreases k - i,
    {
        proof {
            lemma_pow2_unfold((i + 1) as nat);
            if i + 1 < 60 {
                lemma_pow2_strictly_increases((i + 1) as nat, 60);
            }
        }
        d = d * 2;
        i += 1;
    }
    d
}

/// `100 * m / 2^k`, rounded to the nearest whole number, half way to the
/// even one.
fn hundredths_of(m: u64, k: u64) -> (h: u64)
    requires
        m < 0x20_0000_0000_0000,
        1 <= k,
    ensures
        h == round_half_even(100 * m, pow2(k as nat) as int),
{
    let n: u64 = 100 * m;
    if k > 60 {
        proof {
            lemma2_to64_rest();
            if k > 61 {
                lemma_pow2_strictly_increases(61, k as nat);
            }
            let d = pow2(k as nat) as int;
            assert(2 * n < d);
            lemma_fundamental_div_mod_converse(n as int, d, 0, n as int);
        }
        return 0;
    }
    let d = two_to(k);
    proof {
        lemma_pow2_pos(k as nat);
        lemma_pow2_unfold(k as nat);
    }
    let q = n / d;
    let r = n % d;
    assert(d >= 2);
    assert(q <= n / 2) by (nonlinear_arith)
        requires
            q == n / d,
            d >= 2,
            n >= 0,
    ;
    if 2 * r < d || (2 * r == d && q % 2 == 0) {
        q
    } else {
        q + 1
    }
}

/// The whole part of a magnitude in hundredths, as digits, and the two
/// fractional digits as a number below a hundred.
struct Parts {
    whole: Vec<u8>,
    places: u8,
}

/// Below two to the 52nd units the exponent field is at most 1074, and the
/// hundredths come from a significand of 53 bits and a shift to the right.
proof fn lemma_hundredths_shifted_right(magnitude: int, m: int, k: int)
    requires
        0 <= magnitude < 1075 * FRACTION_SPAN,
        m == if magnitude / (FRACTION_SPAN as int) == 0 {
            magnitude % (FRACTION_SPAN as int)
        } else {
            FRACTION_SPAN + magnitude % (FRACTION_SPAN as int)
        },
        k == if magnitude / (FRACTION_SPAN as int) == 0 {
            1074
        } else {
            1075 - magnitude / (FRACTION_SPAN as int)
        },
    ensures
        1 <= k <= 1074,
        round_half_even(100 * magnitude_value(magnitude), unit()) == round_half_even(
            100 * m,
            pow2(k as nat) as int,
        ),
{
    let c = pow2((1074 - k) as nat) as int;
    let d = pow2(k as nat) as int;
    lemma2_to64();
    lemma_pow2_adds(k as nat, (1074 - k) as nat);
    lemma_pow2_pos((1074 - k) as nat);
    lemma_pow2_pos(k as nat);
    assert(magnitude_value(magnitude) == m * c) by {
        assert(m * 1 == m) by (nonlinear_arith);
    }
    assert(100 * (m * c) == (100 * m) * c) by (nonlinear_arith);
    assert(unit() == d * c);
    lemma_round_scales(100 * m, d, c);
}

/// From two to the 52nd units on the value is a whole number, which is a
/// significand shifted to the left, and has no hundredths beyond it.
proof fn lemma_hundredths_shifted_left(magnitude: int, m: int, shift: int)
    requires
        magnitude >= 1075 * FRACTION_SPAN,
        m == FRACTION_SPAN + magnitude % (FRACTION_SPAN as int),
        shift == magnitude / (FRACTION_SPAN as int) - 1075,
    ensures
        round_half_even(100 * magnitude_value(magnitude), unit()) == 100 * (m * pow2(shift as nat)),
{
    let v = m * pow2(shift as nat);
    let u = unit();
    lemma_pow2_adds(shift as nat, 1074);
    lemma_pow2_pos(1074);
    assert(magnitude_value(magnitude) == m * pow2((shift + 1074) as nat));
    assert(100 * (m * (pow2(shift as nat) * u)) == (100 * v) * u + 0) by (nonlinear_arith)
        requires
            v == m * pow2(shift as nat),
    ;
    lemma_fundamental_div_mod_converse(100 * magnitude_value(magnitude), u, 100 * v, 0);
}

/// Takes the magnitude of a finite price apart into whole part and
/// hundredths.
#[verifier::rlimit(40)]
fn parts_of(magnitude: u64) -> (parts: Parts)
    requires
        magnitude < INFINITY_BITS,
    ensures
        canonical(parts.whole@),
        digits_value(parts.whole@) == round_half_even(
            100 * magnitude_value(magnitude as int),
            unit(),
        ) / 100,
        parts.places == round_half_even(100 * magnitude_value(magnitude as int), unit()) % 100,
{
    let exponent: u64 = magnitude / FRACTION_SPAN;
    let fraction: u64 = magnitude % FRACTION_SPAN;
    if exponent >= 1075 {
        let m: u64 = FRACTION_SPAN + fraction;
        let shift: u64 = exponent - 1075;
        proof {
            lemma_hundredths_shifted_left(magnitude as int, m as int, shift as int);
        }
        Parts { whole: digits_of_shifted(m, shift), places: 0 }
    } else {
        let m: u64 = if exponent == 0 {
            fraction
        } else {
            FRACTION_SPAN + fraction
        };
        let k: u64 = if exponent == 0 {
            1074
        } else {
            1075 - exponent
        };
        proof {
            lemma_hundredths_shifted_right(magnitude as int, m as int, k as int);
        }
        let rounded = hundredths_of(m, k);
        Parts { whole: digits_of(rounded / 100), places: (rounded % 100) as u8 }
    }
}

/// Appends the digits, the highest first.
fn append_digits(text: &mut String, digits: &Vec<u8>)
    requires
        canonical(digits@),
    ensures
        final(text)@ == old(text)@ + digits_text(digits@),
{
    let ghost start = text@;
    let ghost all = digits_text(digits@);
    let n = digits.len();
    let mut j: usize = n;
    assert(all.take(0) =~= Seq::<char>::empty());
    assert(start + all.take(0) =~= start);
    while j > 0
        invariant
            n == digits@.len(),
            j <= n,
            canonical(digits@),
            all == digits_text(digits@),
            text@ == start + all.take(n - j),
        decreases j,
    {
        j -= 1;
        text.append(digit_text(digits[j]));
        assert(all.take(n - j) =~= all.take(n - j - 1).push(all[n - j - 1]));
        assert(text@ =~= start + all.take(n - j));
    }
    assert(all.take(n as int) =~= all);
}

/// Appends a finite magnitude with two fractional digits.
#[verifier::rlimit(40)]
fn append_magnitude(text: &mut String, magnitude: u64)
    requires
        magnitude < INFINITY_BITS,
    ensures
        final(text)@ == old(text)@ + magnitude_places(magnitude as int),
{
    let ghost start = text@;
    let ghost h = round_half_even(100 * magnitude_value(magnitude as int), unit());
    let parts = parts_of(magnitude);
    proof {
        lemma_decimal_of_digits(parts.whole@);
        reveal_strlit(".");
    }
    append_digits(text, &parts.whole);
    assert(text@ == start + decimal(h / 100));
    text.append(".");
    let tens: u8 = parts.places / 10;
    let ones: u8 = parts.places % 10;
    assert(tens == h / 10 % 10 && ones == h % 10);
    text.append(digit_text(tens));
    text.append(digit_text(ones));
    assert(text@ =~= start + (decimal(h / 100) + seq![
        '.',
        digit_char(tens as int),
        digit_char(ones as int),
    ]));
}

/// The price as text with two fractional digits.
pub fn render_two_places(p: Price) -> (text: String)
    ensures
        text@ == two_places(p),
{
    proof {
        reveal_strlit("NaN");
        reveal_strlit("inf");
        reveal_strlit("-");
    }
    let negative = p.bits >= SIGN_BIT;
    let magnitude: u64 = if negative {
        p.bits - SIGN_BIT
    } else {
        p.bits
    };
    if magnitude > INFINITY_BITS {
        let text = String::from_str("NaN");
        assert(text@ =~= seq!['N', 'a', 'N']);
        return text;
    }
    let mut text = String::new();
    if negative {
        text.append("-");
        assert(text@ =~= seq!['-']);
    }
    if magnitude == INFINITY_BITS {
        text.append("inf");
        return text;
    }
    append_magnitude(&mut text, magnitude);
    text
}

} // verus!
