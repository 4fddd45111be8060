//! The four signals computed over a series of closes.
//!
//! Each signal is a value with a `calculate` method; `None` is the answer for
//! the degenerate input that the signal is not defined on, and nothing else.

use vstd::prelude::*;
use crate::arithmetic::counted;
use crate::arithmetic::difference;
use crate::arithmetic::lemma_count_is_positive;
use crate::arithmetic::lemma_quotient_is_a_number;
use crate::arithmetic::lemma_sum_is_a_number;
use crate::arithmetic::lemma_nearest_zero;
use crate::arithmetic::quotient;
use crate::formula::running_sum;
use crate::formula::Formula;
use crate::formula::exact_sum;
use crate::formula::lemma_exact_mean;
use crate::formula::mean;
use crate::formula::Fraction;
use crate::price::all_finite;
use crate::price::CloseSeries;
use crate::price::lemma_named_prices;
use crate::price::unit;
use crate::price::lemma_rank_orders_values;
use crate::price::Price;

verus! {

/// The first of the prices that no other price of the sequence undercuts.
pub open spec fn lowest(s: Seq<Price>) -> Price
    decreases s.len(),
{
    if s.len() <= 1 {
        s[0]
    } else {
        let rest = lowest(s.drop_last());
        if s.last().rank() < rest.rank() {
            s.last()
        } else {
            rest
        }
    }
}

/// The first of the prices that no other price of the sequence exceeds.
pub open spec fn highest(s: Seq<Price>) -> Price
    decreases s.len(),
{
    if s.len() <= 1 {
        s[0]
    } else {
        let rest = highest(s.drop_last());
        if rest.rank() < s.last().rank() {
            s.last()
        } else {
            rest
        }
    }
}

/// The minimum of the series; undefined on the empty series.
pub open spec fn min_price(s: Seq<Price>) -> Option<Price> {
    if s.len() == 0 {
        None
    } else {
        Some(lowest(s))
    }
}

/// The maximum of the series; undefined on the empty series.
pub open spec fn max_price(s: Seq<Price>) -> Option<Price> {
    if s.len() == 0 {
        None
    } else {
        Some(highest(s))
    }
}

/// What the relative change is measured against: the first close, or one
/// where the first close is zero.
pub open spec fn change_base(s: Seq<Price>) -> Price {
    if s.first().zero_valued() {
        Price::one()
    } else {
        s.first()
    }
}

/// The change from the first close to the last.
pub open spec fn absolute_change(s: Seq<Price>) -> Formula {
    Formula::Difference(
        Box::new(Formula::Value(s.last())),
        Box::new(Formula::Value(s.first())),
    )
}

/// The absolute change, divided by the base.
pub open spec fn relative_change(s: Seq<Price>) -> Formula {
    Formula::Quotient(Box::new(absolute_change(s)), Box::new(Formula::Value(change_base(s))))
}

/// Absolute and relative change in double precision; undefined on the
/// empty series.
pub open spec fn price_difference(s: Seq<Price>) -> Option<(Price, Price)> {
    if s.len() == 0 {
        None
    } else {
        Some((absolute_change(s).rounded(), relative_change(s).rounded()))
    }
}

/// How many windows of `w` consecutive closes a series of `len` closes has.
pub open spec fn window_count(len: nat, w: nat) -> nat {
    if len < w {
        0
    } else {
        (len - w + 1) as nat
    }
}

/// The window of `w` closes that starts at position `i`.
pub open spec fn window(s: Seq<Price>, i: int, w: nat) -> Seq<Price> {
    s.subrange(i, i + w)
}

/// The means of all windows of `w` consecutive closes in double precision,
/// oldest window first; undefined on the empty series and for a window of
/// fewer than two closes.
pub open spec fn windowed_sma(s: Seq<Price>, w: nat) -> Option<Seq<Price>> {
    if s.len() == 0 || w <= 1 {
        None
    } else {
        Some(Seq::new(window_count(s.len(), w), |i: int| mean(window(s, i, w)).rounded()))
    }
}

/// Absolute and relative difference between the first and the last close.
/// The relative difference is relative to the first close.
pub struct PriceDifference {}

/// The smallest close.
pub struct MinPrice {}

/// The largest close.
pub struct MaxPrice {}

/// The simple moving average over windows of `window_size` closes.
pub struct WindowedSMA {
    pub window_size: usize,
}

impl PriceDifference {
    /// The pair `(absolute, relative)`, or `None` for the empty series.
    pub fn calculate(&self, series: &CloseSeries) -> (r: Option<(Price, Price)>)
        ensures
            r == price_difference(series@),
            r is None <==> series@.len() == 0,
    {
        let n = series.len();
        if n == 0 {
            return None;
        }
        let first = series.get(0);
        let last = series.get(n - 1);
        let base = if first.is_zero() {
            Price::from_bits(crate::price::ONE_BITS)
        } else {
            first
        };
        let absolute = last.minus(first);
        let relative = absolute.over(base);
        proof {
            reveal_with_fuel(Formula::rounded, 3);
        }
        Some((absolute, relative))
    }
}

impl MinPrice {
    /// The minimum, or `None` for the empty series.
    pub fn calculate(&self, series: &CloseSeries) -> (r: Option<Price>)
        ensures
            r == min_price(series@),
            r is None <==> series@.len() == 0,
            r matches Some(p) ==> p.finite(),
    {
        let n = series.len();
        if n == 0 {
            return None;
        }
        let ghost s = series@;
        let mut best = series.get(0);
        let mut i: usize = 1;
        assert(s.take(1).len() == 1);
        while i < n
            invariant
                s == series@,
                n == s.len(),
                1 <= i <= n,
                best == lowest(s.take(i as int)),
                best.finite(),
            decreases n - i,
        {
            assert(s.take(i + 1).drop_last() == s.take(i as int));
            let p = series.get(i);
            if p.below(best) {
                best = p;
            }
            i += 1;
        }
        assert(s.take(n as int) == s);
        Some(best)
    }
}

impl MaxPrice {
    /// The maximum, or `None` for the empty series.
    pub fn calculate(&self, series: &CloseSeries) -> (r: Option<Price>)
        ensures
            r == max_price(series@),
            r is None <==> series@.len() == 0,
            r matches Some(p) ==> p.finite(),
    {
        let n = series.len();
        if n == 0 {
            return None;
        }
        let ghost s = series@;
        let mut best = series.get(0);
        let mut i: usize = 1;
        assert(s.take(1).len() == 1);
        while i < n
            invariant
                s == series@,
                n == s.len(),
                1 <= i <= n,
                best == highest(s.take(i as int)),
                best.finite(),
            decreases n - i,
        {
            assert(s.take(i + 1).drop_last() == s.take(i as int));
            let p = series.get(i);
            if best.below(p) {
                best = p;
            }
            i += 1;
        }
        assert(s.take(n as int) == s);
        Some(best)
    }
}

impl WindowedSMA {
    /// The mean of the `size` closes from position `start` on.
    fn mean_of_window(series: &CloseSeries, start: usize, size: usize) -> (m: Price)
        requires
            size >= 1,
            start + size <= series@.len(),
        ensures
            m == mean(window(series@, start as int, size as nat)).rounded(),
    {
        let ghost s = series@;
        let n = series.len();
        let mut total = series.get(start);
        let mut k: usize = 1;
        proof {
            reveal_with_fuel(Formula::rounded, 2);
            assert(s.subrange(start as int, start + 1).len() == 1);
        }
        while k < size
            invariant
                s == series@,
                n == s.len(),
                1 <= k <= size,
                start + size <= n,
                total == running_sum(s.subrange(start as int, start + k)).rounded(),
            decreases size - k,
        {
            proof {
                reveal_with_fuel(Formula::rounded, 2);
                let before = s.subrange(start as int, start + k);
                let now = s.subrange(start as int, start + k + 1);
                assert(now.drop_last() == before);
                assert(now.last() == s[start + k]);
            }
            total = total.plus(series.get(start + k));
            k += 1;
        }
        proof {
            reveal_with_fuel(Formula::rounded, 2);
        }
        total.over(Price::of_count(size))
    }

    /// The mean of every window, oldest window first; `None` for the empty
    /// series and for a window size below two. A series shorter than the
    /// window has no window, which gives the empty list.
    pub fn calculate(&self, series: &CloseSeries) -> (r: Option<Vec<Price>>)
        ensures
            match r {
                Some(v) => windowed_sma(series@, self.window_size as nat) == Some(v@),
                None => windowed_sma(series@, self.window_size as nat) is None,
            },
            r is None <==> series@.len() == 0 || self.window_size <= 1,
            r matches Some(v) ==> v@.len() == window_count(series@.len(), self.window_size as nat),
    {
        let n = series.len();
        let w = self.window_size;
        if n == 0 || w <= 1 {
            return None;
        }
        let mut means: Vec<Price> = Vec::new();
        if n < w {
            assert(means@ == Seq::new(0, |i: int| mean(window(series@, i, w as nat)).rounded()));
            return Some(means);
        }
        let count = n - w + 1;
        let mut i: usize = 0;
        while i < count
            invariant
                n == series@.len(),
                2 <= w <= n,
                count == n - w + 1,
                i <= count,
                means@.len() == i,
                forall|j: int|
                    0 <= j < i ==> #[trigger] means@[j] == mean(window(series@, j, w as nat)).rounded(),
            decreases count - i,
        {
            let m = WindowedSMA::mean_of_window(series, i, w);
            means.push(m);
            i += 1;
        }
        assert(means@ == Seq::new(
            count as nat,
            |i: int| mean(window(series@, i, w as nat)).rounded(),
        ));
        Some(means)
    }
}

/// The difference is undefined on the empty series and on no other.
pub proof fn lemma_difference_defined(s: Seq<Price>)
    ensures
        price_difference(s) is None <==> s.len() == 0,
{
}

/// On a series with a close, the absolute difference is the last close minus
/// the first, and the relative difference is the absolute one divided by the
/// first close, or by one where the first close is zero; both in double
/// precision.
pub proof fn lemma_difference_terms(s: Seq<Price>)
    requires
        s.len() > 0,
    ensures
        price_difference(s) matches Some((absolute, relative)) && {
            let divisor = if s[0].zero_valued() {
                Price::one()
            } else {
                s[0]
            };
            &&& absolute == difference(s[s.len() - 1], s[0])
            &&& relative == quotient(absolute, divisor)
        },
{
    reveal_with_fuel(Formula::rounded, 3);
}

/// The lowest price is a close of the series, no close is smaller, and every
/// close before its first occurrence is strictly larger.
pub proof fn lemma_lowest_is_minimum(s: Seq<Price>)
    requires
        s.len() > 0,
    ensures
        forall|i: int| 0 <= i < s.len() ==> lowest(s).rank() <= (#[trigger] s[i]).rank(),
        exists|k: int|
            0 <= k < s.len() && s[k] == lowest(s) && forall|i: int|
                0 <= i < k ==> lowest(s).rank() < (#[trigger] s[i]).rank(),
    decreases s.len(),
{
    if s.len() == 1 {
        assert(s[0] == lowest(s));
    } else {
        let head = s.drop_last();
        lemma_lowest_is_minimum(head);
        let k = choose|k: int|
            0 <= k < head.len() && head[k] == lowest(head) && forall|i: int|
                0 <= i < k ==> lowest(head).rank() < (#[trigger] head[i]).rank();
        assert forall|i: int| 0 <= i < s.len() implies lowest(s).rank() <= (#[trigger] s[i]).rank() by {
            if i < head.len() {
                assert(head[i] == s[i]);
            }
        }
        if s.last().rank() < lowest(head).rank() {
            let last = s.len() - 1;
            assert(s[last] == lowest(s));
            assert forall|i: int| 0 <= i < last implies lowest(s).rank() < (#[trigger] s[i]).rank() by {
                assert(head[i] == s[i]);
            }
        } else {
            assert(s[k] == head[k]);
            assert forall|i: int| 0 <= i < k implies lowest(s).rank() < (#[trigger] s[i]).rank() by {
                assert(head[i] == s[i]);
            }
        }
    }
}

/// The highest price is a close of the series, no close is larger, and every
/// close before its first occurrence is strictly smaller.
pub proof fn lemma_highest_is_maximum(s: Seq<Price>)
    requires
        s.len() > 0,
    ensures
        forall|i: int| 0 <= i < s.len() ==> (#[trigger] s[i]).rank() <= highest(s).rank(),
        exists|k: int|
            0 <= k < s.len() && s[k] == highest(s) && forall|i: int|
                0 <= i < k ==> (#[trigger] s[i]).rank() < highest(s).rank(),
    decreases s.len(),
{
    if s.len() == 1 {
        assert(s[0] == highest(s));
    } else {
        let head = s.drop_last();
        lemma_highest_is_maximum(head);
        let k = choose|k: int|
            0 <= k < head.len() && head[k] == highest(head) && forall|i: int|
                0 <= i < k ==> (#[trigger] head[i]).rank() < highest(head).rank();
        assert forall|i: int| 0 <= i < s.len() implies (#[trigger] s[i]).rank() <= highest(s).rank() by {
            if i < head.len() {
                assert(head[i] == s[i]);
            }
        }
        if highest(head).rank() < s.last().rank() {
            let last = s.len() - 1;
            assert(s[last] == highest(s));
            assert forall|i: int| 0 <= i < last implies (#[trigger] s[i]).rank() < highest(s).rank() by {
                assert(head[i] == s[i]);
            }
        } else {
            assert(s[k] == head[k]);
            assert forall|i: int| 0 <= i < k implies (#[trigger] s[i]).rank() < highest(s).rank() by {
                assert(head[i] == s[i]);
            }
        }
    }
}

/// Where both are defined, the minimum is at most the maximum.
pub proof fn lemma_min_at_most_max(s: Seq<Price>)
    ensures
        (min_price(s) is Some) == (max_price(s) is Some),
        min_price(s) is Some && max_price(s) is Some ==> min_price(s)->0.rank() <= max_price(
            s,
        )->0.rank(),
{
    if s.len() > 0 {
        lemma_lowest_is_minimum(s);
        lemma_highest_is_maximum(s);
        assert(lowest(s).rank() <= s[0].rank());
        assert(s[0].rank() <= highest(s).rank());
    }
}

/// Every close of a series lies between its minimum and its maximum.
pub proof fn lemma_closes_within_min_max(s: Seq<Price>, i: int)
    requires
        0 <= i < s.len(),
    ensures
        min_price(s) matches Some(lo) && lo.rank() <= s[i].rank(),
        max_price(s) matches Some(hi) && s[i].rank() <= hi.rank(),
{
    lemma_lowest_is_minimum(s);
    lemma_highest_is_maximum(s);
}

/// The moving average has one mean per window, `max(0, len - w + 1)` of
/// them, where the series has a close and the window at least two; otherwise
/// it is undefined.
pub proof fn lemma_sma_length(s: Seq<Price>, w: nat)
    ensures
        s.len() > 0 && w > 1 ==> windowed_sma(s, w) is Some && windowed_sma(s, w)->0.len() == (if s.len()
            - w + 1 > 0 {
            s.len() - w + 1
        } else {
            0
        }),
        !(s.len() > 0 && w > 1) ==> windowed_sma(s, w) is None,
{
}

/// Each mean of the moving average is the mean of `w` consecutive closes,
/// and each of those closes lies between the minimum and the maximum of the
/// whole series.
pub proof fn lemma_window_closes_within_min_max(s: Seq<Price>, w: nat, i: int, j: int)
    requires
        windowed_sma(s, w) matches Some(means) && 0 <= i < means.len(),
        0 <= j < w,
    ensures
        windowed_sma(s, w)->0[i] == mean(window(s, i, w)).rounded(),
        window(s, i, w).len() == w,
        min_price(s) matches Some(lo) && lo.rank() <= window(s, i, w)[j].rank(),
        max_price(s) matches Some(hi) && window(s, i, w)[j].rank() <= hi.rank(),
{
    lemma_closes_within_min_max(s, i + j);
}

/// By value, too, every close of a series lies between its minimum and its
/// maximum, and the minimum is at most the maximum.
pub proof fn lemma_values_within_min_max(s: Seq<Price>, i: int)
    requires
        0 <= i < s.len(),
    ensures
        lowest(s).scaled() <= s[i].scaled() <= highest(s).scaled(),
{
    lemma_closes_within_min_max(s, i);
    lemma_rank_orders_values(lowest(s), s[i]);
    lemma_rank_orders_values(s[i], highest(s));
}

proof fn lemma_exact_sum_bounds(w: Seq<Price>, lo: int, hi: int)
    requires
        forall|j: int| 0 <= j < w.len() ==> lo <= (#[trigger] w[j]).scaled() <= hi,
    ensures
        w.len() * lo <= exact_sum(w) <= w.len() * hi,
    decreases w.len(),
{
    if w.len() > 0 {
        let head = w.drop_last();
        assert forall|j: int| 0 <= j < head.len() implies lo <= (#[trigger] head[j]).scaled()
            <= hi by {
            assert(head[j] == w[j]);
        }
        lemma_exact_sum_bounds(head, lo, hi);
        assert(lo <= w[w.len() - 1].scaled() <= hi);
        assert(w.len() * lo == head.len() * lo + lo && w.len() * hi == head.len() * hi + hi)
            by (nonlinear_arith)
            requires
                w.len() == head.len() + 1,
        ;
    }
}

/// In exact arithmetic every mean of the moving average lies between the
/// minimum and the maximum of the series: it is the exact sum of `w` closes
/// over `w`, and that sum lies between `w` times the minimum and `w` times
/// the maximum. (In double precision the mean is rounded after every
/// addition and after the division, and may then lie a rounding step
/// outside: the mean of three closes of 0.1 is 0.10000000000000002.)
pub proof fn lemma_exact_mean_within_min_max(s: Seq<Price>, w: nat, i: int)
    requires
        windowed_sma(s, w) matches Some(means) && 0 <= i < means.len(),
        w <= usize::MAX,
    ensures
        windowed_sma(s, w)->0[i] == mean(window(s, i, w)).rounded(),
        mean(window(s, i, w)).exact() == (Fraction {
            num: exact_sum(window(s, i, w)),
            den: unit() * w,
        }),
        unit() * w > 0,
        w * lowest(s).scaled() <= exact_sum(window(s, i, w)) <= w * highest(s).scaled(),
{
    let win = window(s, i, w);
    assert forall|j: int| 0 <= j < win.len() implies lowest(s).scaled() <= (#[trigger] win[j]).scaled()
        <= highest(s).scaled() by {
        lemma_values_within_min_max(s, i + j);
    }
    lemma_exact_sum_bounds(win, lowest(s).scaled(), highest(s).scaled());
    lemma_exact_mean(win);
}

/// The base of the relative change is never zero, so the division by it is
/// defined.
pub proof fn lemma_change_base_is_not_zero(s: Seq<Price>)
    ensures
        change_base(s).scaled() != 0,
        !change_base(s).zero_valued(),
{
    lemma_named_prices();
    lemma_rank_orders_values(change_base(s), Price::zero());
    vstd::arithmetic::power2::lemma_pow2_pos(1074);
}

/// In exact arithmetic the absolute change is the value of the last close
/// minus the value of the first, and the relative change is that difference
/// over the value of the base.
pub proof fn lemma_exact_change(s: Seq<Price>)
    requires
        s.len() > 0,
    ensures
        absolute_change(s).exact() == (Fraction {
            num: s.last().scaled() - s.first().scaled(),
            den: unit(),
        }),
        relative_change(s).exact().same_as(
            Fraction {
                num: s.last().scaled() - s.first().scaled(),
                den: change_base(s).scaled(),
            },
        ),
{
    reveal_with_fuel(Formula::exact, 3);
    lemma_change_base_is_not_zero(s);
    vstd::arithmetic::power2::lemma_pow2_pos(1074);
    let u = unit();
    let d = s.last().scaled() - s.first().scaled();
    let b = change_base(s).scaled();
    assert(u * b != 0 && (d * u) * b == d * (u * b)) by (nonlinear_arith)
        requires
            u > 0,
            b != 0,
    ;
}

/// For a series of one finite close both the absolute and the relative
/// change are zero, in exact arithmetic and in double precision.
pub proof fn lemma_single_close_has_no_change(s: Seq<Price>)
    requires
        s.len() == 1,
        s[0].finite(),
    ensures
        absolute_change(s).exact().defined() && absolute_change(s).exact().num == 0,
        relative_change(s).exact().defined() && relative_change(s).exact().num == 0,
        price_difference(s) matches Some((absolute, relative)) && absolute == Price::zero()
            && relative.zero_valued(),
{
    lemma_exact_change(s);
    let u = unit();
    assert(0 * u == 0) by (nonlinear_arith);
    reveal_with_fuel(Formula::rounded, 3);
    lemma_change_base_is_not_zero(s);
    lemma_named_prices();
    let base = change_base(s);
    assert(base.finite());
    assert(s[0].negated().finite());
    assert(s[0].scaled() + s[0].negated().scaled() == 0);
    assert(difference(s[0], s[0]) == Price::zero());
    vstd::arithmetic::power2::lemma_pow2_pos(1074);
    crate::price::lemma_rank_orders_values(base, Price::zero());
    assert(0 * unit() == 0) by (nonlinear_arith);
    if base.bits >= crate::price::SIGN_BIT {
        lemma_nearest_zero(true, -base.scaled());
    } else {
        lemma_nearest_zero(false, base.scaled());
    }
}

/// For finite closes neither the absolute nor the relative change is a NaN:
/// the relative change is never a division by zero.
pub proof fn lemma_difference_is_a_number(s: Seq<Price>)
    requires
        s.len() > 0,
        all_finite(s),
    ensures
        price_difference(s) matches Some((absolute, relative)) && !absolute.not_a_number()
            && !relative.not_a_number(),
{
    reveal_with_fuel(Formula::rounded, 3);
    let first = s[0];
    let last = s[s.len() - 1];
    assert(first.negated().finite());
    lemma_sum_is_a_number(last, first.negated());
    lemma_change_base_is_not_zero(s);
    lemma_named_prices();
    lemma_quotient_is_a_number(difference(last, first), change_base(s));
}

/// The running sum of finite prices is a number.
pub proof fn lemma_running_sum_is_a_number(w: Seq<Price>)
    requires
        all_finite(w),
    ensures
        !running_sum(w).rounded().not_a_number(),
    decreases w.len(),
{
    reveal_with_fuel(Formula::rounded, 2);
    if w.len() == 1 {
        assert(w[0].finite());
    } else if w.len() > 1 {
        let head = w.drop_last();
        assert forall|i: int| 0 <= i < head.len() implies (#[trigger] head[i]).finite() by {
            assert(head[i] == w[i]);
        }
        lemma_running_sum_is_a_number(head);
        assert(w[w.len() - 1].finite());
        lemma_sum_is_a_number(running_sum(head).rounded(), w.last());
    }
}

/// For finite closes no mean of the moving average is a NaN.
pub proof fn lemma_sma_is_a_number(s: Seq<Price>, w: nat, i: int)
    requires
        all_finite(s),
        w <= usize::MAX,
        windowed_sma(s, w) matches Some(means) && 0 <= i < means.len(),
    ensures
        !windowed_sma(s, w)->0[i].not_a_number(),
{
    reveal_with_fuel(Formula::rounded, 2);
    let win = window(s, i, w);
    assert forall|j: int| 0 <= j < win.len() implies (#[trigger] win[j]).finite() by {
        assert(win[j] == s[i + j]);
    }
    lemma_running_sum_is_a_number(win);
    lemma_count_is_positive(w);
    lemma_quotient_is_a_number(running_sum(win).rounded(), counted(w));
}

} // verus!
