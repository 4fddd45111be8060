//! Arithmetic on prices, written down.
//!
//! A `Formula` says which operations are applied to which prices, and in
//! which order. The contracts of the signals speak of formulas: `rounded` is
//! what a formula comes to in double precision, where every operation
//! rounds, and `exact` is what it comes to without any rounding.

use vstd::prelude::*;
use crate::arithmetic::counted;
use crate::arithmetic::difference;
use crate::arithmetic::product;
use crate::arithmetic::quotient;
use crate::arithmetic::sum;
use crate::price::unit;
use crate::price::Price;

verus! {

/// An expression over prices.
pub enum Formula {
    /// The price itself.
    Value(Price),
    /// A whole number of items, as a double.
    Count(usize),
    /// Left plus right.
    Sum(Box<Formula>, Box<Formula>),
    /// Left minus right.
    Difference(Box<Formula>, Box<Formula>),
    /// Left times right.
    Product(Box<Formula>, Box<Formula>),
    /// Left divided by right.
    Quotient(Box<Formula>, Box<Formula>),
}

/// A fraction of two whole numbers. It has a value where `den` is not zero.
pub struct Fraction {
    pub num: int,
    pub den: int,
}

impl Fraction {
    /// Whether the fraction has a value.
    pub open spec fn defined(self) -> bool {
        self.den != 0
    }

    /// Whether both fractions have a value, and the same one.
    pub open spec fn same_as(self, other: Fraction) -> bool {
        self.den != 0 && other.den != 0 && self.num * other.den == other.num * self.den
    }

    pub open spec fn plus(self, other: Fraction) -> Fraction {
        if self.den == other.den {
            Fraction { num: self.num + other.num, den: self.den }
        } else {
            Fraction { num: self.num * other.den + other.num * self.den, den: self.den * other.den }
        }
    }

    pub open spec fn minus(self, other: Fraction) -> Fraction {
        if self.den == other.den {
            Fraction { num: self.num - other.num, den: self.den }
        } else {
            Fraction { num: self.num * other.den - other.num * self.den, den: self.den * other.den }
        }
    }

    pub open spec fn times(self, other: Fraction) -> Fraction {
        Fraction { num: self.num * other.num, den: self.den * other.den }
    }

    /// Undefined where `other` is zero or undefined.
    pub open spec fn over(self, other: Fraction) -> Fraction {
        Fraction { num: self.num * other.den, den: self.den * other.num }
    }
}

impl Formula {
    /// What the formula comes to in double precision: each operation gives
    /// the double nearest to the exact result on its operands as they were
    /// rounded.
    pub open spec fn rounded(self) -> Price
        decreases self,
    {
        match self {
            Formula::Value(p) => p,
            Formula::Count(n) => counted(n as nat),
            Formula::Sum(a, b) => sum(a.rounded(), b.rounded()),
            Formula::Difference(a, b) => difference(a.rounded(), b.rounded()),
            Formula::Product(a, b) => product(a.rounded(), b.rounded()),
            Formula::Quotient(a, b) => quotient(a.rounded(), b.rounded()),
        }
    }

    /// What the formula comes to in exact arithmetic, as a fraction.
    pub open spec fn exact(self) -> Fraction
        decreases self,
    {
        match self {
            Formula::Value(p) => Fraction { num: p.scaled(), den: unit() },
            Formula::Count(n) => Fraction { num: n as int, den: 1 },
            Formula::Sum(a, b) => a.exact().plus(b.exact()),
            Formula::Difference(a, b) => a.exact().minus(b.exact()),
            Formula::Product(a, b) => a.exact().times(b.exact()),
            Formula::Quotient(a, b) => a.exact().over(b.exact()),
        }
    }
}

/// The prices added up one after the other, oldest first, with no
/// compensation: `((w[0] + w[1]) + w[2]) + ...`. Nothing to add gives zero.
pub open spec fn running_sum(w: Seq<Price>) -> Formula
    decreases w.len(),
{
    if w.len() == 0 {
        Formula::Value(Price::zero())
    } else if w.len() == 1 {
        Formula::Value(w[0])
    } else {
        Formula::Sum(
            Box::new(running_sum(w.drop_last())),
            Box::new(Formula::Value(w.last())),
        )
    }
}

/// The arithmetic mean: the running sum divided by the number of prices.
pub open spec fn mean(w: Seq<Price>) -> Formula {
    Formula::Quotient(Box::new(running_sum(w)), Box::new(Formula::Count(w.len() as usize)))
}

/// The values of the prices added up exactly, in units of two to the minus
/// 1074th.
pub open spec fn exact_sum(w: Seq<Price>) -> int
    decreases w.len(),
{
    if w.len() == 0 {
        0
    } else {
        exact_sum(w.drop_last()) + w.last().scaled()
    }
}

/// In exact arithmetic the running sum is the sum of the values.
pub proof fn lemma_exact_running_sum(w: Seq<Price>)
    ensures
        running_sum(w).exact() == (Fraction { num: exact_sum(w), den: unit() }),
    decreases w.len(),
{
    reveal_with_fuel(Formula::exact, 2);
    if w.len() == 0 {
        crate::price::lemma_named_prices();
    } else if w.len() == 1 {
        assert(w.drop_last().len() == 0);
        assert(exact_sum(w.drop_last()) == 0);
    } else {
        lemma_exact_running_sum(w.drop_last());
    }
}

/// In exact arithmetic the mean is the sum of the values over their number.
pub proof fn lemma_exact_mean(w: Seq<Price>)
    requires
        0 < w.len() <= usize::MAX,
    ensures
        mean(w).exact() == (Fraction { num: exact_sum(w), den: unit() * w.len() }),
        unit() * w.len() > 0,
{
    reveal_with_fuel(Formula::exact, 2);
    lemma_exact_running_sum(w);
    vstd::arithmetic::power2::lemma_pow2_pos(1074);
    let u = unit();
    let n = w.len() as int;
    assert(exact_sum(w) * 1 == exact_sum(w) && u * n > 0) by (nonlinear_arith)
        requires
            u > 0,
            n > 0,
    ;
}

} // verus!
