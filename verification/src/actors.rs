//! The three stages: download, analyse, print.
//!
//! A stage decides here what follows from a message; receiving the message,
//! talking to the upstream service and writing to the terminal are the
//! caller's part.

use vstd::prelude::*;
use vstd::string::StringExecFns;
use crate::formula::mean;
use crate::formula::Formula;
use crate::formula::Fraction;
use crate::messages::DownloadSymbolMessage;
use crate::messages::PrintSymbolSignalsMessage;
use crate::messages::ProcessSymbolSignalsMessage;
use crate::price::lemma_named_prices;
use crate::price::CloseSeries;
use crate::price::unit;
use crate::price::Price;
use crate::price::HUNDRED_BITS;
use crate::quotes::closing_data;
use crate::quotes::fetch_closing_data;
use crate::quotes::Quote;
use crate::render::render_two_places;
use crate::render::two_places;
use crate::signals::change_base;
use crate::signals::highest;
use crate::signals::lemma_change_base_is_not_zero;
use crate::signals::lemma_highest_is_maximum;
use crate::signals::lemma_lowest_is_minimum;
use crate::signals::lemma_values_within_min_max;
use crate::signals::lowest;
use crate::signals::relative_change;
use crate::signals::window;
use crate::signals::MaxPrice;
use crate::signals::MinPrice;
use crate::signals::PriceDifference;
use crate::signals::WindowedSMA;

verus! {

/// The number of closes that the reported average runs over.
pub const AVERAGE_WINDOW: usize = 30;

/// The five figures of a line.
#[derive(Clone, Copy, Debug, PartialEq, Eq, Structural)]
pub struct ReportedFigures {
    /// The last close.
    pub price: Price,
    /// The relative change from the first close to the last, in percent.
    pub change: Price,
    /// The smallest close.
    pub min: Price,
    /// The largest close.
    pub max: Price,
    /// The mean of the latest `AVERAGE_WINDOW` closes, or zero where the
    /// series is shorter than that.
    pub average: Price,
}

/// The relative change, times a hundred.
pub open spec fn percent_change(s: Seq<Price>) -> Formula {
    Formula::Product(Box::new(relative_change(s)), Box::new(Formula::Value(Price::hundred())))
}

/// The mean of the latest `AVERAGE_WINDOW` closes, or zero where the series
/// is shorter than that.
pub open spec fn latest_average(s: Seq<Price>) -> Formula {
    if s.len() < AVERAGE_WINDOW {
        Formula::Value(Price::zero())
    } else {
        mean(s.subrange(s.len() - AVERAGE_WINDOW, s.len() as int))
    }
}

/// The figures to report for a series, in double precision; none for the
/// empty series.
pub open spec fn figures(s: Seq<Price>) -> Option<ReportedFigures> {
    if s.len() == 0 {
        None
    } else {
        Some(
            ReportedFigures {
                price: s.last(),
                change: percent_change(s).rounded(),
                min: lowest(s),
                max: highest(s),
                average: latest_average(s).rounded(),
            },
        )
    }
}

/// In exact arithmetic the reported change is a hundred times the change
/// from the first close to the last, over the base. Price, minimum and
/// maximum are closes of the series, and the price lies between the other
/// two.
pub proof fn lemma_exact_figures(s: Seq<Price>)
    requires
        s.len() > 0,
    ensures
        percent_change(s).exact().same_as(
            Fraction {
                num: 100 * (s.last().scaled() - s.first().scaled()),
                den: change_base(s).scaled(),
            },
        ),
        figures(s) matches Some(f) && s.contains(f.price) && s.contains(f.min) && s.contains(f.max)
            && f.min.scaled() <= f.price.scaled() <= f.max.scaled(),
{
    reveal_with_fuel(Formula::exact, 4);
    lemma_change_base_is_not_zero(s);
    lemma_named_prices();
    lemma_lowest_is_minimum(s);
    lemma_highest_is_maximum(s);
    lemma_values_within_min_max(s, s.len() - 1);
    assert(s[s.len() - 1] == s.last());
    vstd::arithmetic::power2::lemma_pow2_pos(1074);
    let u = unit();
    let d = s.last().scaled() - s.first().scaled();
    let b = change_base(s).scaled();
    assert((u * b) * u != 0 && ((d * u) * (100 * u)) * b == (100 * d) * ((u * b) * u))
        by (nonlinear_arith)
        requires
            u > 0,
            b != 0,
    ;
}

/// The header of the report.
pub open spec fn header_text() -> Seq<char> {
    "period start,symbol,price,change %,min,max,30d avg"@
}

/// One line of the report, each figure with two fractional digits:
/// `{period start},{symbol},${price},{change}%,${min},${max},${average}`.
pub open spec fn record_text(
    period_start: Seq<char>,
    symbol: Seq<char>,
    figures: ReportedFigures,
) -> Seq<char> {
    period_start + seq![','] + symbol + seq![',', '$'] + two_places(figures.price) + seq![',']
        + two_places(figures.change) + seq!['%', ',', '$'] + two_places(figures.min) + seq![
        ',',
        '$',
    ] + two_places(figures.max) + seq![',', '$'] + two_places(figures.average)
}

/// The header line, without a line end.
pub fn header() -> (line: String)
    ensures
        line@ == header_text(),
{
    String::from_str("period start,symbol,price,change %,min,max,30d avg")
}

/// One line of the report, without a line end.
#[verifier::rlimit(40)]
pub fn record_line(period_start: &str, symbol: &str, figures: &ReportedFigures) -> (line: String)
    ensures
        line@ == record_text(period_start@, symbol@, *figures),
{
    proof {
        reveal_strlit(",");
        reveal_strlit(",$");
        reveal_strlit("%,$");
    }
    let mut line = String::from_str(period_start);
    line.append(",");
    line.append(symbol);
    line.append(",$");
    line.append(render_two_places(figures.price).as_str());
    line.append(",");
    line.append(render_two_places(figures.change).as_str());
    line.append("%,$");
    line.append(render_two_places(figures.min).as_str());
    line.append(",$");
    line.append(render_two_places(figures.max).as_str());
    line.append(",$");
    line.append(render_two_places(figures.average).as_str());
    assert(","@ == seq![',']);
    assert(",$"@ == seq![',', '$']);
    assert("%,$"@ == seq!['%', ',', '$']);
    line
}

/// Turns a request into closes.
pub struct DownloadActor;

/// Turns closes into the line of a report.
pub struct ProcessSymbolActor;

/// Hands out the lines to print.
pub struct PrintSymbolSignalsActor;

impl DownloadActor {
    /// What to publish once the download that `msg` asked for has come back
    /// with `outcome` (`None`: the upstream call failed or its answer could
    /// not be decoded). A download that succeeded, even with no quotes at
    /// all, gives the closes of the symbol over the window of the request; a
    /// download that failed gives nothing, and the request is dropped.
    pub fn handle(&self, msg: DownloadSymbolMessage, outcome: Option<Vec<Quote>>) -> (r: Option<
        ProcessSymbolSignalsMessage,
    >)
        ensures
            match closing_data(
                match outcome {
                    Some(quotes) => Some(quotes@),
                    None => None,
                },
            ) {
                Ok(closes) => r matches Some(out) && out.symbol@ == msg.symbol@ && out.from
                    == msg.from && out.to == msg.to && out.closes@ == closes,
                Err(_) => r is None,
            },
    {
        match fetch_closing_data(outcome) {
            Ok(closes) => Some(
                ProcessSymbolSignalsMessage { symbol: msg.symbol, from: msg.from, to: msg.to, closes },
            ),
            Err(_) => None,
        }
    }
}

impl ProcessSymbolActor {
    /// The figures to report for a series; `None` for the empty series.
    pub fn figures(&self, closes: &CloseSeries) -> (r: Option<ReportedFigures>)
        ensures
            r == figures(closes@),
            r is None <==> closes@.len() == 0,
    {
        let n = closes.len();
        if n == 0 {
            return None;
        }
        let relative = match (PriceDifference {}).calculate(closes) {
            Some((_, relative)) => relative,
            None => {
                return None;
            },
        };
        let low = match (MinPrice {}).calculate(closes) {
            Some(p) => p,
            None => {
                return None;
            },
        };
        let high = match (MaxPrice {}).calculate(closes) {
            Some(p) => p,
            None => {
                return None;
            },
        };
        let sma = WindowedSMA { window_size: AVERAGE_WINDOW };
        let average = match sma.calculate(closes) {
            Some(mut means) => {
                let ghost all = means@;
                match means.pop() {
                    Some(latest) => {
                        assert(latest == all.last());
                        assert(window(closes@, all.len() - 1, AVERAGE_WINDOW as nat)
                            == closes@.subrange(n - AVERAGE_WINDOW, n as int));
                        latest
                    },
                    None => Price::from_bits(0),
                }
            },
            None => Price::from_bits(0),
        };
        proof {
            reveal_with_fuel(Formula::rounded, 4);
        }
        Some(
            ReportedFigures {
                price: closes.get(n - 1),
                change: relative.times(Price::from_bits(HUNDRED_BITS)),
                min: low,
                max: high,
                average,
            },
        )
    }

    /// What to publish for the closes of a symbol: the line of the report,
    /// under the symbol. Nothing is published for the empty series, nor where
    /// the start of the window has no RFC 3339 text.
    pub fn handle(&self, msg: &ProcessSymbolSignalsMessage) -> (r: Option<
        PrintSymbolSignalsMessage,
    >)
        ensures
            match figures(msg.closes@) {
                Some(f) => match msg.from.rfc3339() {
                    Some(period_start) => r matches Some(out) && out.symbol@ == msg.symbol@
                        && out.message@ == record_text(period_start, msg.symbol@, f),
                    None => r is None,
                },
                None => r is None,
            },
            msg.closes@.len() == 0 ==> r is None,
    {
        let figures = match self.figures(&msg.closes) {
            Some(figures) => figures,
            None => {
                return None;
            },
        };
        match msg.from.to_rfc3339() {
            Some(period_start) => {
                let message = record_line(period_start.as_str(), msg.symbol.as_str(), &figures);
                Some(PrintSymbolSignalsMessage { symbol: msg.symbol.clone(), message })
            },
            None => None,
        }
    }
}

impl PrintSymbolSignalsActor {
    /// What to write to the terminal for `msg`: its line as it stands,
    /// followed by a line end.
    pub fn handle(&self, msg: &PrintSymbolSignalsMessage) -> (out: String)
        ensures
            out@ == msg.message@ + seq!['\n'],
    {
        proof {
            reveal_strlit("\n");
        }
        let mut out = msg.message.clone();
        out.append("\n");
        assert("\n"@ == seq!['\n']);
        out
    }
}

} // verus!
