//! From the quotes of a price history to the series of closes.

use vstd::prelude::*;
use crate::price::all_finite;
use crate::price::CloseSeries;
use crate::price::Price;

verus! {

/// One day of a price history: when it was quoted, in seconds since the
/// epoch, and the adjusted close.
#[derive(Clone, Copy, Debug, PartialEq, Eq, Structural)]
pub struct Quote {
    pub timestamp: u64,
    pub adjclose: Price,
}

/// Why a download gave no series.
#[derive(Clone, Copy, Debug, PartialEq, Eq, Structural)]
pub enum FetchErrorKind {
    /// The upstream call failed, its answer could not be decoded, or a close
    /// in it is not a finite number.
    InvalidData,
}

/// A failed download.
#[derive(Clone, Copy, Debug, PartialEq, Eq, Structural)]
pub struct FetchError {
    pub kind: FetchErrorKind,
}

/// Where a quote goes into quotes that are in time order: behind every quote
/// that is not later than it.
pub open spec fn place(sorted: Seq<Quote>, q: Quote) -> int
    decreases sorted.len(),
{
    if sorted.len() == 0 || sorted.last().timestamp <= q.timestamp {
        sorted.len() as int
    } else {
        place(sorted.drop_last(), q)
    }
}

/// The quotes by ascending timestamp; quotes of one timestamp stay in the
/// order in which they came.
pub open spec fn in_time_order(quotes: Seq<Quote>) -> Seq<Quote>
    decreases quotes.len(),
{
    if quotes.len() == 0 {
        quotes
    } else {
        let earlier = in_time_order(quotes.drop_last());
        earlier.insert(place(earlier, quotes.last()), quotes.last())
    }
}

/// The adjusted close of each quote, in the order of the quotes.
pub open spec fn closes_of(quotes: Seq<Quote>) -> Seq<Price> {
    Seq::new(quotes.len(), |i: int| quotes[i].adjclose)
}

/// What a download yields. `None` stands for an upstream call that failed or
/// an answer that could not be decoded.
pub open spec fn closing_data(outcome: Option<Seq<Quote>>) -> Result<Seq<Price>, FetchError> {
    match outcome {
        None => Err(FetchError { kind: FetchErrorKind::InvalidData }),
        Some(quotes) => {
            let closes = closes_of(in_time_order(quotes));
            if all_finite(closes) {
                Ok(closes)
            } else {
                Err(FetchError { kind: FetchErrorKind::InvalidData })
            }
        },
    }
}

/// The quotes of one timestamp.
pub open spec fn stamped(t: u64) -> spec_fn(Quote) -> bool {
    |q: Quote| q.timestamp == t
}

/// From its place on every quote is later than the quote, and the quote
/// just before its place is not.
proof fn lemma_place_bounds(sorted: Seq<Quote>, q: Quote)
    ensures
        0 <= place(sorted, q) <= sorted.len(),
        forall|j: int| place(sorted, q) <= j < sorted.len() ==> (#[trigger] sorted[j]).timestamp > q.timestamp,
        place(sorted, q) > 0 ==> sorted[place(sorted, q) - 1].timestamp <= q.timestamp,
    decreases sorted.len(),
{
    if sorted.len() == 0 || sorted.last().timestamp <= q.timestamp {
    } else {
        let head = sorted.drop_last();
        lemma_place_bounds(head, q);
        assert forall|j: int| place(sorted, q) <= j < sorted.len() implies (#[trigger] sorted[j]).timestamp
            > q.timestamp by {
            if j < head.len() {
                assert(head[j] == sorted[j]);
            }
        }
        if place(sorted, q) > 0 {
            assert(head[place(head, q) - 1] == sorted[place(sorted, q) - 1]);
        }
    }
}

/// A position from which on every quote is later, and before which the
/// quote is not, is the place of the quote.
proof fn lemma_place_found(sorted: Seq<Quote>, q: Quote, pos: int)
    requires
        0 <= pos <= sorted.len(),
        forall|j: int| pos <= j < sorted.len() ==> (#[trigger] sorted[j]).timestamp > q.timestamp,
        pos > 0 ==> sorted[pos - 1].timestamp <= q.timestamp,
    ensures
        place(sorted, q) == pos,
    decreases sorted.len(),
{
    if sorted.len() == 0 || sorted.last().timestamp <= q.timestamp {
        if pos < sorted.len() {
            assert(sorted[sorted.len() - 1].timestamp > q.timestamp);
        }
    } else {
        let head = sorted.drop_last();
        assert(pos < sorted.len());
        assert forall|j: int| pos <= j < head.len() implies (#[trigger] head[j]).timestamp
            > q.timestamp by {
            assert(head[j] == sorted[j]);
        }
        if pos > 0 {
            assert(head[pos - 1] == sorted[pos - 1]);
        }
        lemma_place_found(head, q, pos);
    }
}

/// Sorting neither adds nor drops a quote.
pub proof fn lemma_time_order_keeps_quotes(quotes: Seq<Quote>)
    ensures
        in_time_order(quotes).len() == quotes.len(),
        in_time_order(quotes).to_multiset() == quotes.to_multiset(),
    decreases quotes.len(),
{
    if quotes.len() > 0 {
        let head = quotes.drop_last();
        let q = quotes.last();
        let earlier = in_time_order(head);
        lemma_time_order_keeps_quotes(head);
        lemma_place_bounds(earlier, q);
        earlier.insert_ensures(place(earlier, q), q);
        vstd::seq_lib::to_multiset_insert(earlier, place(earlier, q), q);
        vstd::seq_lib::to_multiset_build(head, q);
        assert(head.push(q) == quotes);
    }
}

/// Sorted quotes ascend by timestamp.
pub proof fn lemma_time_order_ascends(quotes: Seq<Quote>)
    ensures
        forall|i: int, j: int|
            0 <= i <= j < in_time_order(quotes).len() ==> (#[trigger] in_time_order(
                quotes,
            )[i]).timestamp <= (#[trigger] in_time_order(quotes)[j]).timestamp,
    decreases quotes.len(),
{
    if quotes.len() > 0 {
        let head = quotes.drop_last();
        let q = quotes.last();
        let earlier = in_time_order(head);
        let pos = place(earlier, q);
        let sorted = in_time_order(quotes);
        lemma_time_order_ascends(head);
        lemma_place_bounds(earlier, q);
        earlier.insert_ensures(pos, q);
        assert forall|i: int, j: int| 0 <= i <= j < sorted.len() implies (#[trigger] sorted[i]).timestamp
            <= (#[trigger] sorted[j]).timestamp by {
            if i < pos {
                assert(sorted[i] == earlier[i]);
                assert(earlier[i].timestamp <= earlier[pos - 1].timestamp);
            } else if i > pos {
                assert(sorted[i] == earlier[i - 1]);
            }
            if j < pos {
                assert(sorted[j] == earlier[j]);
            } else if j > pos {
                assert(sorted[j] == earlier[j - 1]);
            }
        }
    }
}

/// Sorting is stable: the quotes of any one timestamp come out in the order
/// in which they went in.
pub proof fn lemma_time_order_is_stable(quotes: Seq<Quote>, t: u64)
    ensures
        in_time_order(quotes).filter(stamped(t)) == quotes.filter(stamped(t)),
    decreases quotes.len(),
{
    if quotes.len() > 0 {
        let head = quotes.drop_last();
        let q = quotes.last();
        let earlier = in_time_order(head);
        let pos = place(earlier, q);
        let pred = stamped(t);
        lemma_time_order_is_stable(head, t);
        lemma_place_bounds(earlier, q);
        let front = earlier.subrange(0, pos);
        let back = earlier.subrange(pos, earlier.len() as int);
        assert(earlier == front + back);
        assert(in_time_order(quotes) == front.push(q) + back);
        Seq::filter_distributes_over_add(front, back, pred);
        Seq::filter_distributes_over_add(front.push(q), back, pred);
        front.lemma_filter_push(q, pred);
        head.lemma_filter_push(q, pred);
        assert(head.push(q) == quotes);
        if q.timestamp == t {
            assert forall|j: int| 0 <= j < back.len() implies !pred(#[trigger] back[j]) by {
                assert(back[j] == earlier[pos + j]);
            }
            back.lemma_all_neg_filter_empty(pred);
            assert(back.filter(pred) == Seq::<Quote>::empty());
            assert(front.filter(pred) + Seq::<Quote>::empty() == front.filter(pred));
            assert(front.filter(pred).push(q) + Seq::<Quote>::empty() == front.filter(pred).push(q));
        }
    }
}

/// The sorted quotes hold a close that is not finite exactly where the
/// quotes as they came hold one.
pub proof fn lemma_time_order_keeps_finiteness(quotes: Seq<Quote>)
    ensures
        all_finite(closes_of(in_time_order(quotes))) == all_finite(closes_of(quotes)),
{
    let sorted = in_time_order(quotes);
    lemma_time_order_keeps_quotes(quotes);
    if all_finite(closes_of(quotes)) {
        assert forall|i: int| 0 <= i < sorted.len() implies (#[trigger] closes_of(sorted)[i]).finite() by {
            vstd::seq_lib::to_multiset_contains(sorted, sorted[i]);
            vstd::seq_lib::to_multiset_contains(quotes, sorted[i]);
            assert(sorted.contains(sorted[i]));
            let j = choose|j: int| 0 <= j < quotes.len() && quotes[j] == sorted[i];
            assert(closes_of(quotes)[j].finite());
        }
    }
    if all_finite(closes_of(sorted)) {
        assert forall|i: int| 0 <= i < quotes.len() implies (#[trigger] closes_of(quotes)[i]).finite() by {
            vstd::seq_lib::to_multiset_contains(sorted, quotes[i]);
            vstd::seq_lib::to_multiset_contains(quotes, quotes[i]);
            assert(quotes.contains(quotes[i]));
            let j = choose|j: int| 0 <= j < sorted.len() && sorted[j] == quotes[i];
            assert(closes_of(sorted)[j].finite());
        }
    }
}

/// Sorts by timestamp, keeping quotes of one timestamp in their order.
fn sort_by_timestamp(quotes: &Vec<Quote>) -> (sorted: Vec<Quote>)
    ensures
        sorted@ == in_time_order(quotes@),
{
    let n = quotes.len();
    let mut sorted: Vec<Quote> = Vec::with_capacity(n);
    let mut i: usize = 0;
    while i < n
        invariant
            n == quotes@.len(),
            i <= n,
            sorted@ == in_time_order(quotes@.take(i as int)),
            sorted@.len() == i,
        decreases n - i,
    {
        let q = quotes[i];
        let mut pos: usize = sorted.len();
        while pos > 0 && sorted[pos - 1].timestamp > q.timestamp
            invariant
                pos <= sorted@.len(),
                forall|j: int| pos <= j < sorted@.len() ==> (#[trigger] sorted@[j]).timestamp > q.timestamp,
            decreases pos,
        {
            pos -= 1;
        }
        proof {
            lemma_place_found(sorted@, q, pos as int);
            assert(quotes@.take(i + 1).drop_last() == quotes@.take(i as int));
        }
        sorted.insert(pos, q);
        i += 1;
    }
    assert(quotes@.take(n as int) == quotes@);
    sorted
}

/// Turns the outcome of a download into the series of closes: the adjusted
/// closes of the quotes, by ascending timestamp. `None` stands for an
/// upstream call that failed or an answer that could not be decoded, and
/// gives `InvalidData`; so does a close that is not finite. No quotes give
/// the empty series.
pub fn fetch_closing_data(outcome: Option<Vec<Quote>>) -> (r: Result<CloseSeries, FetchError>)
    ensures
        match r {
            Ok(series) => closing_data(
                match outcome {
                    Some(quotes) => Some(quotes@),
                    None => None,
                },
            ) == Ok::<Seq<Price>, FetchError>(series@),
            Err(e) => closing_data(
                match outcome {
                    Some(quotes) => Some(quotes@),
                    None => None,
                },
            ) == Err::<Seq<Price>, FetchError>(e),
        },
        r is Ok <==> (outcome matches Some(quotes) && all_finite(closes_of(quotes@))),
        r matches Ok(series) ==> outcome matches Some(quotes) && series@.len() == quotes@.len(),
        r matches Err(e) ==> e.kind == FetchErrorKind::InvalidData,
{
    match outcome {
        None => Err(FetchError { kind: FetchErrorKind::InvalidData }),
        Some(quotes) => {
            proof {
                lemma_time_order_keeps_finiteness(quotes@);
                lemma_time_order_keeps_quotes(quotes@);
            }
            let sorted = sort_by_timestamp(&quotes);
            let n = sorted.len();
            let mut closes: Vec<Price> = Vec::with_capacity(n);
            let mut i: usize = 0;
            while i < n
                invariant
                    n == sorted@.len(),
                    i <= n,
                    closes@.len() == i,
                    forall|j: int| 0 <= j < i ==> #[trigger] closes@[j] == sorted@[j].adjclose,
                decreases n - i,
            {
                closes.push(sorted[i].adjclose);
                i += 1;
            }
            assert(closes@ == closes_of(sorted@));
            match CloseSeries::new(closes) {
                Some(series) => Ok(series),
                None => Err(FetchError { kind: FetchErrorKind::InvalidData }),
            }
        },
    }
}

} // verus!
