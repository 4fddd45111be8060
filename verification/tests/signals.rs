#![allow(non_snake_case)]

use stock_signals::price::CloseSeries;
use stock_signals::price::Price;
use stock_signals::signals::MaxPrice;
use stock_signals::signals::MinPrice;
use stock_signals::signals::PriceDifference;
use stock_signals::signals::WindowedSMA;

fn price(x: f64) -> Price {
    Price::from_bits(x.to_bits())
}

fn value(p: Price) -> f64 {
    f64::from_bits(p.to_bits())
}

fn series(xs: &[f64]) -> CloseSeries {
    CloseSeries::new(xs.iter().map(|x| price(*x)).collect()).expect("finite closes")
}

fn difference(xs: &[f64]) -> Option<(f64, f64)> {
    PriceDifference {}
        .calculate(&series(xs))
        .map(|(absolute, relative)| (value(absolute), value(relative)))
}

fn min(xs: &[f64]) -> Option<f64> {
    MinPrice {}.calculate(&series(xs)).map(value)
}

fn max(xs: &[f64]) -> Option<f64> {
    MaxPrice {}.calculate(&series(xs)).map(value)
}

fn sma(window_size: usize, xs: &[f64]) -> Option<Vec<f64>> {
    WindowedSMA { window_size }
        .calculate(&series(xs))
        .map(|means| means.iter().map(|m| value(*m)).collect())
}

fn scattered(count: usize) -> Vec<f64> {
    let mut state: u64 = 0x1234_5678_9abc_def1;
    let mut out = Vec::new();
    while out.len() < count {
        state = state
            .wrapping_mul(6364136223846793005)
            .wrapping_add(1442695040888963407);
        // prices between a cent and a million, of either sign now and then
        let x = ((state >> 11) as f64 / (1u64 << 53) as f64) * 1e6 + 0.01;
        out.push(if state & 7 == 0 { -x } else { x });
    }
    out
}

#[test]
fn test_PriceDifference_calculate() {
    assert_eq!(difference(&[]), None);
    assert_eq!(difference(&[1.0]), Some((0.0, 0.0)));
    assert_eq!(difference(&[1.0, 0.0]), Some((-1.0, -1.0)));
    assert_eq!(
        difference(&[2.0, 3.0, 5.0, 6.0, 1.0, 2.0, 10.0]),
        Some((8.0, 4.0))
    );
    assert_eq!(
        difference(&[0.0, 3.0, 5.0, 6.0, 1.0, 2.0, 1.0]),
        Some((1.0, 1.0))
    );
}

#[test]
fn test_MinPrice_calculate() {
    assert_eq!(min(&[]), None);
    assert_eq!(min(&[1.0]), Some(1.0));
    assert_eq!(min(&[1.0, 0.0]), Some(0.0));
    assert_eq!(min(&[2.0, 3.0, 5.0, 6.0, 1.0, 2.0, 10.0]), Some(1.0));
    assert_eq!(min(&[0.0, 3.0, 5.0, 6.0, 1.0, 2.0, 1.0]), Some(0.0));
}

#[test]
fn test_MaxPrice_calculate() {
    assert_eq!(max(&[]), None);
    assert_eq!(max(&[1.0]), Some(1.0));
    assert_eq!(max(&[1.0, 0.0]), Some(1.0));
    assert_eq!(max(&[2.0, 3.0, 5.0, 6.0, 1.0, 2.0, 10.0]), Some(10.0));
    assert_eq!(max(&[0.0, 3.0, 5.0, 6.0, 1.0, 2.0, 1.0]), Some(6.0));
}

#[test]
fn test_WindowedSMA_calculate() {
    let series = vec![2.0, 4.5, 5.3, 6.5, 4.7];

    assert_eq!(
        sma(3, &series),
        Some(vec![3.9333333333333336, 5.433333333333334, 5.5])
    );
    assert_eq!(sma(5, &series), Some(vec![4.6]));
    assert_eq!(sma(10, &series), Some(vec![]));
}

#[test]
fn difference_is_undefined_only_for_the_empty_series() {
    assert!(difference(&[]).is_none());
    assert!(difference(&[0.0]).is_some());
    assert!(difference(&[-3.5, 2.0]).is_some());
}

#[test]
fn difference_of_one_close_is_zero_twice() {
    for x in [42.25, -42.25, 0.0, -0.0, 1e300, 5e-324] {
        let (absolute, relative) = difference(&[x]).unwrap();
        assert_eq!(absolute.to_bits(), 0.0f64.to_bits());
        assert_eq!(relative, 0.0);
    }
}

#[test]
fn difference_is_last_minus_first_over_first() {
    assert_eq!(difference(&[4.0, 9.0, 5.0]), Some((1.0, 0.25)));
    assert_eq!(difference(&[-4.0, 9.0, 5.0]), Some((9.0, -2.25)));
    assert_eq!(difference(&[10.0, 13.0]), Some((3.0, 0.3)));
    assert_eq!(
        difference(&[0.1, 0.3]),
        Some((0.19999999999999998, 1.9999999999999998))
    );
}

#[test]
fn difference_divides_by_one_where_the_first_close_is_zero() {
    assert_eq!(difference(&[0.0, 7.5]), Some((7.5, 7.5)));
    assert_eq!(difference(&[-0.0, 7.5]), Some((7.5, 7.5)));
    assert_eq!(difference(&[0.0, -2.0]), Some((-2.0, -2.0)));
}

#[test]
fn difference_agrees_with_the_machine() {
    let xs = scattered(2000);
    for pair in xs.chunks(2) {
        let (first, last) = (pair[0], pair[1]);
        let absolute = last - first;
        let relative = absolute / if first == 0.0 { 1.0 } else { first };
        let got = difference(&[first, 1.0, last]).unwrap();
        assert_eq!(got.0.to_bits(), absolute.to_bits());
        assert_eq!(got.1.to_bits(), relative.to_bits());
    }
}

#[test]
fn difference_of_the_widest_range_is_infinite() {
    assert_eq!(
        difference(&[f64::MIN, f64::MAX]),
        Some((f64::INFINITY, f64::NEG_INFINITY))
    );
}

#[test]
fn min_and_max_handle_negative_closes() {
    let xs = [-1.5, 2.0, -7.25, 0.0, 3.0];
    assert_eq!(min(&xs), Some(-7.25));
    assert_eq!(max(&xs), Some(3.0));
    assert_eq!(min(&[-1.0, -2.0]), Some(-2.0));
    assert_eq!(max(&[-1.0, -2.0]), Some(-1.0));
}

#[test]
fn min_is_at_most_max() {
    for xs in [
        vec![1.0],
        vec![3.0, 3.0, 3.0],
        vec![-2.0, 5.0, 0.5],
        vec![1e-310, -1e-310, 0.0],
        vec![f64::MAX, f64::MIN],
    ] {
        assert!(min(&xs).unwrap() <= max(&xs).unwrap());
    }
}

#[test]
fn every_close_lies_between_min_and_max() {
    let xs = [12.5, -3.0, 7.75, 1e300, -1e-300, 0.0, -0.0, 99.0];
    let lo = min(&xs).unwrap();
    let hi = max(&xs).unwrap();
    assert_eq!(lo, -3.0);
    assert_eq!(hi, 1e300);
    for x in xs {
        assert!(lo <= x && x <= hi);
    }
}

#[test]
fn min_and_max_agree_with_the_machine() {
    let xs = scattered(600);
    for chunk in xs.chunks(6) {
        let lo = chunk.iter().fold(f64::MAX, |acc, q| acc.min(*q));
        let hi = chunk.iter().fold(f64::MIN, |acc, q| acc.max(*q));
        assert_eq!(min(chunk), Some(lo));
        assert_eq!(max(chunk), Some(hi));
    }
}

#[test]
fn min_and_max_reach_the_ends_of_the_finite_range() {
    assert_eq!(min(&[0.0, f64::MIN, 1.0]), Some(f64::MIN));
    assert_eq!(max(&[0.0, f64::MAX, 1.0]), Some(f64::MAX));
    assert_eq!(min(&[f64::MAX]), Some(f64::MAX));
    assert_eq!(max(&[f64::MIN]), Some(f64::MIN));
}

#[test]
fn min_and_max_take_the_first_of_equal_closes() {
    let lo = MinPrice {}.calculate(&series(&[0.0, -0.0, 1.0])).unwrap();
    assert_eq!(lo.to_bits(), 0.0f64.to_bits());
    let lo = MinPrice {}.calculate(&series(&[-0.0, 0.0, 1.0])).unwrap();
    assert_eq!(lo.to_bits(), (-0.0f64).to_bits());
    let hi = MaxPrice {}.calculate(&series(&[-1.0, -0.0, 0.0])).unwrap();
    assert_eq!(hi.to_bits(), (-0.0f64).to_bits());
}

#[test]
fn sma_is_undefined_for_the_empty_series_and_small_windows() {
    assert_eq!(sma(3, &[]), None);
    assert_eq!(sma(0, &[1.0, 2.0]), None);
    assert_eq!(sma(1, &[1.0, 2.0]), None);
    assert_eq!(sma(0, &[]), None);
    assert_eq!(sma(2, &[1.0]), Some(vec![]));
}

#[test]
fn sma_has_one_mean_for_each_window() {
    let xs = [1.0, 2.0, 3.0, 4.0, 5.0, 6.0];
    for w in 2..10usize {
        let expected = if xs.len() >= w { xs.len() - w + 1 } else { 0 };
        assert_eq!(sma(w, &xs).unwrap().len(), expected);
    }
    assert_eq!(sma(2, &xs), Some(vec![1.5, 2.5, 3.5, 4.5, 5.5]));
    assert_eq!(sma(6, &xs), Some(vec![3.5]));
}

#[test]
fn sma_adds_the_closes_from_the_oldest_on() {
    assert_eq!(sma(3, &[1e16, 1.0, -1e16]), Some(vec![0.0]));
    assert_eq!(sma(3, &[1e16, -1e16, 1.0]), Some(vec![1.0 / 3.0]));
}

#[test]
fn a_rounded_mean_can_lie_outside_the_closes() {
    // Added up in double precision three times 0.1 is 0.30000000000000004,
    // and a third of that lies above every close of the series.
    assert_eq!(sma(3, &[0.1, 0.1, 0.1]), Some(vec![0.10000000000000002]));
    assert_eq!(max(&[0.1, 0.1, 0.1]), Some(0.1));
}

#[test]
fn sma_agrees_with_the_machine() {
    let xs = scattered(400);
    for w in [2usize, 3, 5, 30, 100] {
        let expected: Vec<f64> = xs
            .windows(w)
            .map(|win| win.iter().sum::<f64>() / win.len() as f64)
            .collect();
        let got = sma(w, &xs).unwrap();
        assert_eq!(got.len(), expected.len());
        for (g, e) in got.iter().zip(expected.iter()) {
            assert_eq!(g.to_bits(), e.to_bits());
        }
    }
}

#[test]
fn sma_of_the_largest_closes_is_infinite() {
    assert_eq!(sma(2, &[f64::MAX, f64::MAX]), Some(vec![f64::INFINITY]));
    assert_eq!(sma(2, &[f64::MIN, f64::MIN]), Some(vec![f64::NEG_INFINITY]));
}
