//! Prices as IEEE-754 doubles, held by their bit patterns.
//!
//! A price is carried as the 64 bits of its double: the sign bit, eleven
//! bits of exponent and 52 bits of fraction. Whether a price is finite,
//! whether it is zero and which of two is the smaller is read off those
//! bits, and so is its value, as a whole number of units of two to the minus
//! 1074th.

use vstd::prelude::*;
use vstd::arithmetic::power2::lemma2_to64;
use vstd::arithmetic::power2::lemma2_to64_rest;
use vstd::arithmetic::power2::lemma_pow2_adds;
use vstd::arithmetic::power2::lemma_pow2_pos;
use vstd::arithmetic::power2::lemma_pow2_strictly_increases;
use vstd::arithmetic::power2::lemma_pow2_unfold;
use vstd::arithmetic::power2::pow2;

verus! {

/// The sign bit of a double: patterns at or above it are negative.
pub const SIGN_BIT: u64 = 0x8000_0000_0000_0000;

/// The magnitude of infinity: every finite double has a smaller magnitude,
/// every NaN a larger one.
pub const INFINITY_BITS: u64 = 0x7ff0_0000_0000_0000;

/// The number of fractions that one exponent spans: two to the 52nd.
pub const FRACTION_SPAN: u64 = 0x10_0000_0000_0000;

/// The bit pattern of the NaN that arithmetic gives where it has no number
/// to give.
pub const NAN_BITS: u64 = 0x7ff8_0000_0000_0000;

/// The bit pattern of `1.0`.
pub const ONE_BITS: u64 = 0x3ff0_0000_0000_0000;

/// The bit pattern of `100.0`.
pub const HUNDRED_BITS: u64 = 0x4059_0000_0000_0000;

/// A double, given by its bit pattern.
#[derive(Clone, Copy, Debug, PartialEq, Eq, Structural)]
pub struct Price {
    pub bits: u64,
}

impl Price {
    /// The pattern with the sign bit cleared.
    pub open spec fn magnitude(self) -> int {
        if self.bits >= SIGN_BIT {
            self.bits - SIGN_BIT
        } else {
            self.bits as int
        }
    }

    /// Neither an infinity nor a NaN.
    pub open spec fn finite(self) -> bool {
        self.magnitude() < INFINITY_BITS
    }

    /// An infinity.
    pub open spec fn infinite(self) -> bool {
        self.magnitude() == INFINITY_BITS
    }

    /// Not a number.
    pub open spec fn not_a_number(self) -> bool {
        self.magnitude() > INFINITY_BITS
    }

    /// Whether the sign bit is set.
    pub open spec fn negative(self) -> bool {
        self.bits >= SIGN_BIT
    }

    /// The same magnitude with the other sign.
    pub open spec fn negated(self) -> Price {
        Price {
            bits: if self.bits >= SIGN_BIT {
                (self.bits - SIGN_BIT) as u64
            } else {
                (self.bits + SIGN_BIT) as u64
            },
        }
    }

    /// Positive or negative zero.
    pub open spec fn zero_valued(self) -> bool {
        self.magnitude() == 0
    }

    /// An integer that orders prices as their values are ordered (see
    /// `lemma_rank_orders_values`), which is how IEEE-754 comparison orders
    /// finite doubles: for finite `a` and `b`, `a < b` exactly when
    /// `a.rank() < b.rank()`, and `a == b` exactly when the ranks are equal.
    /// Both zeros have rank 0.
    pub open spec fn rank(self) -> int {
        if self.bits >= SIGN_BIT {
            -self.magnitude()
        } else {
            self.magnitude()
        }
    }

    /// The value of a finite double, counted in units of two to the minus
    /// 1074th, the smallest positive double. Every finite double is a whole
    /// number of these units.
    pub open spec fn scaled(self) -> int {
        if self.bits >= SIGN_BIT {
            -magnitude_value(self.magnitude())
        } else {
            magnitude_value(self.magnitude())
        }
    }

    /// Positive zero.
    pub open spec fn zero() -> Price {
        Price { bits: 0 }
    }

    /// One.
    pub open spec fn one() -> Price {
        Price { bits: ONE_BITS }
    }

    /// A hundred.
    pub open spec fn hundred() -> Price {
        Price { bits: HUNDRED_BITS }
    }

    /// The price with the given bit pattern.
    pub fn from_bits(bits: u64) -> (p: Price)
        ensures
            p.bits == bits,
    {
        Price { bits }
    }

    /// The bit pattern of this price.
    pub fn to_bits(self) -> (bits: u64)
        ensures
            bits == self.bits,
    {
        self.bits
    }

    /// Whether the price is a finite double.
    pub fn is_finite(self) -> (b: bool)
        ensures
            b == self.finite(),
    {
        if self.bits >= SIGN_BIT {
            self.bits - SIGN_BIT < INFINITY_BITS
        } else {
            self.bits < INFINITY_BITS
        }
    }

    /// Whether the price is zero, of either sign.
    pub fn is_zero(self) -> (b: bool)
        ensures
            b == self.zero_valued(),
    {
        self.bits == 0 || self.bits == SIGN_BIT
    }

    /// The rank as a machine integer.
    pub fn order_key(self) -> (k: i64)
        ensures
            k == self.rank(),
    {
        if self.bits >= SIGN_BIT {
            let m: u64 = self.bits - SIGN_BIT;
            -(m as i64)
        } else {
            self.bits as i64
        }
    }

    /// Whether this price is strictly smaller than `other`.
    pub fn below(self, other: Price) -> (b: bool)
        ensures
            b == (self.rank() < other.rank()),
    {
        self.order_key() < other.order_key()
    }
}

/// How many units of two to the minus 1074th make one.
pub open spec fn unit() -> int {
    pow2(1074) as int
}

/// The value, in units of two to the minus 1074th, of the non-negative
/// double with the given magnitude: the fraction alone where the exponent
/// field is zero, and otherwise the fraction with its hidden leading bit,
/// doubled once for each step of the exponent above one.
pub open spec fn magnitude_value(m: int) -> int {
    let exponent = m / (FRACTION_SPAN as int);
    let fraction = m % (FRACTION_SPAN as int);
    if exponent == 0 {
        fraction
    } else {
        (FRACTION_SPAN + fraction) * pow2((exponent - 1) as nat)
    }
}

/// The value of a magnitude lies within the range of its exponent.
proof fn lemma_magnitude_value_bounds(m: int)
    requires
        0 <= m,
    ensures
        magnitude_value(m) < FRACTION_SPAN * pow2((m / (FRACTION_SPAN as int)) as nat),
        m / (FRACTION_SPAN as int) > 0 ==> magnitude_value(m) >= FRACTION_SPAN * pow2(
            (m / (FRACTION_SPAN as int) - 1) as nat,
        ),
        m / (FRACTION_SPAN as int) == 0 ==> magnitude_value(m) == m,
{
    let span = FRACTION_SPAN as int;
    let exponent = m / span;
    let fraction = m % span;
    if exponent == 0 {
        lemma_pow2_unfold(1);
        lemma_pow2_pos(0);
        assert(pow2(0) >= 1);
        assert(span * pow2(0) >= span) by (nonlinear_arith)
            requires
                pow2(0) >= 1,
                span > 0,
        ;
    } else {
        let half = pow2((exponent - 1) as nat) as int;
        lemma_pow2_pos((exponent - 1) as nat);
        lemma_pow2_unfold(exponent as nat);
        assert(pow2(exponent as nat) == 2 * half);
        assert((span + fraction) * half < span * (2 * half) && (span + fraction) * half >= span
            * half) by (nonlinear_arith)
            requires
                0 <= fraction < span,
                half > 0,
        ;
    }
}

/// The larger magnitude has the larger value.
proof fn lemma_magnitude_value_increases(m1: int, m2: int)
    requires
        0 <= m1 < m2,
    ensures
        magnitude_value(m1) < magnitude_value(m2),
{
    let span = FRACTION_SPAN as int;
    let e1 = m1 / span;
    let e2 = m2 / span;
    let f1 = m1 % span;
    let f2 = m2 % span;
    assert(e1 <= e2);
    if e1 == e2 {
        assert(f1 < f2);
        if e1 > 0 {
            let half = pow2((e1 - 1) as nat) as int;
            lemma_pow2_pos((e1 - 1) as nat);
            assert((span + f1) * half < (span + f2) * half) by (nonlinear_arith)
                requires
                    f1 < f2,
                    half > 0,
            ;
        }
    } else {
        lemma_magnitude_value_bounds(m1);
        lemma_magnitude_value_bounds(m2);
        let low = pow2(e1 as nat) as int;
        let high = pow2((e2 - 1) as nat) as int;
        if e1 < e2 - 1 {
            lemma_pow2_strictly_increases(e1 as nat, (e2 - 1) as nat);
        }
        assert(low <= high);
        assert(span * low <= span * high) by (nonlinear_arith)
            requires
                low <= high,
                span > 0,
        ;
    }
}

/// The value of a magnitude is not negative, and is zero for the magnitude
/// zero only.
pub proof fn lemma_magnitude_value_sign(m: int)
    requires
        0 <= m,
    ensures
        0 <= magnitude_value(m),
        (magnitude_value(m) == 0) == (m == 0),
{
    lemma_magnitude_value_bounds(0);
    if m > 0 {
        lemma_magnitude_value_increases(0, m);
    }
}

/// The rank orders prices as their values do: one price ranks below
/// another exactly when its value is the smaller, and two prices rank alike
/// exactly when their values are equal.
pub proof fn lemma_rank_orders_values(a: Price, b: Price)
    ensures
        (a.rank() < b.rank()) == (a.scaled() < b.scaled()),
        (a.rank() == b.rank()) == (a.scaled() == b.scaled()),
{
    let ma = a.magnitude();
    let mb = b.magnitude();
    lemma_magnitude_value_bounds(0);
    assert(magnitude_value(0) == 0);
    if ma > 0 {
        lemma_magnitude_value_increases(0, ma);
    }
    if mb > 0 {
        lemma_magnitude_value_increases(0, mb);
    }
    if ma < mb {
        lemma_magnitude_value_increases(ma, mb);
    }
    if mb < ma {
        lemma_magnitude_value_increases(mb, ma);
    }
}

/// The named prices have the values they are named after: zero is no unit,
/// one is two to the 1074th units, and a hundred is a hundred times that.
pub proof fn lemma_named_prices()
    ensures
        Price::zero().scaled() == 0,
        Price::one().scaled() == unit(),
        Price::hundred().scaled() == 100 * unit(),
        Price::zero().finite() && Price::one().finite() && Price::hundred().finite(),
{
    lemma2_to64();
    lemma2_to64_rest();
    // one: exponent field 1023, no fraction
    lemma_pow2_adds(52, 1022);
    assert(ONE_BITS as int / (FRACTION_SPAN as int) == 1023);
    assert(ONE_BITS as int % (FRACTION_SPAN as int) == 0);
    // a hundred: exponent field 1029, fraction 9 * 2^48, so 25 * 2^48 * 2^1028
    lemma_pow2_adds(48, 1026);
    lemma_pow2_adds(2, 1026);
    assert(HUNDRED_BITS as int / (FRACTION_SPAN as int) == 1029);
    assert(HUNDRED_BITS as int % (FRACTION_SPAN as int) == 0x9_0000_0000_0000);
    let r = pow2(1026) as int;
    assert((25 * 0x1_0000_0000_0000) * (4 * r) == 100 * (0x1_0000_0000_0000 * r))
        by (nonlinear_arith);
}

/// Every price of the sequence is finite.
pub open spec fn all_finite(s: Seq<Price>) -> bool {
    forall|i: int| 0 <= i < s.len() ==> (#[trigger] s[i]).finite()
}

/// Daily closes in time order. A series holds finite prices only.
#[derive(Debug)]
pub struct CloseSeries {
    prices: Vec<Price>,
}

impl View for CloseSeries {
    type V = Seq<Price>;

    closed spec fn view(&self) -> Seq<Price> {
        self.prices@
    }
}

impl Clone for CloseSeries {
    fn clone(&self) -> (c: CloseSeries)
        ensures
            c@ == self@,
    {
        proof {
            use_type_invariant(self);
        }
        let n = self.prices.len();
        let mut prices: Vec<Price> = Vec::with_capacity(n);
        let mut i: usize = 0;
        while i < n
            invariant
                n == self.prices@.len(),
                i <= n,
                prices@ == self.prices@.take(i as int),
            decreases n - i,
        {
            prices.push(self.prices[i]);
            i += 1;
        }
        assert(prices@ == self.prices@);
        CloseSeries { prices }
    }
}

impl CloseSeries {
    #[verifier::type_invariant]
    spec fn closes_are_finite(self) -> bool {
        all_finite(self.prices@)
    }

    /// The series without any close.
    pub fn empty() -> (s: CloseSeries)
        ensures
            s@ == Seq::<Price>::empty(),
    {
        CloseSeries { prices: Vec::new() }
    }

    /// The series of the given prices, if all of them are finite.
    pub fn new(prices: Vec<Price>) -> (r: Option<CloseSeries>)
        ensures
            r is Some <==> all_finite(prices@),
            r matches Some(s) ==> s@ == prices@,
    {
        let n = prices.len();
        let mut i: usize = 0;
        while i < n
            invariant
                n == prices.len(),
                i <= n,
                forall|j: int| 0 <= j < i ==> (#[trigger] prices@[j]).finite(),
            decreases n - i,
        {
            if !prices[i].is_finite() {
                return None;
            }
            i += 1;
        }
        Some(CloseSeries { prices })
    }

    /// The number of closes.
    pub fn len(&self) -> (n: usize)
        ensures
            n == self@.len(),
    {
        self.prices.len()
    }

    /// Whether the series holds no close.
    pub fn is_empty(&self) -> (b: bool)
        ensures
            b == (self@.len() == 0),
    {
        self.prices.len() == 0
    }

    /// The close at position `i`.
    pub fn get(&self, i: usize) -> (p: Price)
        requires
            i < self@.len(),
        ensures
            p == self@[i as int],
            p.finite(),
    {
        proof {
            use_type_invariant(self);
        }
        self.prices[i]
    }

    /// The closes, oldest first.
    pub fn prices(&self) -> (v: &Vec<Price>)
        ensures
            v@ == self@,
            all_finite(v@),
    {
        proof {
            use_type_invariant(self);
        }
        &self.prices
    }
}

} // verus!
