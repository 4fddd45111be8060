use stock_signals::price::Price;
use stock_signals::quotes::fetch_closing_data;
use stock_signals::quotes::FetchError;
use stock_signals::quotes::FetchErrorKind;
use stock_signals::quotes::Quote;

fn quote(timestamp: u64, adjclose: f64) -> Quote {
    Quote {
        timestamp,
        adjclose: Price::from_bits(adjclose.to_bits()),
    }
}

fn closes(quotes: Vec<Quote>) -> Result<Vec<f64>, FetchError> {
    fetch_closing_data(Some(quotes)).map(|series| {
        series
            .prices()
            .iter()
            .map(|p| f64::from_bits(p.to_bits()))
            .collect()
    })
}

fn invalid_data() -> FetchError {
    FetchError {
        kind: FetchErrorKind::InvalidData,
    }
}

#[test]
fn a_failed_download_is_invalid_data() {
    assert_eq!(fetch_closing_data(None).err(), Some(invalid_data()));
}

#[test]
fn no_quotes_give_the_empty_series() {
    assert_eq!(closes(vec![]), Ok(vec![]));
}

#[test]
fn closes_come_in_the_order_of_the_quotes_where_time_ascends() {
    assert_eq!(
        closes(vec![quote(10, 1.5), quote(20, 2.5), quote(30, 0.5)]),
        Ok(vec![1.5, 2.5, 0.5])
    );
}

#[test]
fn closes_are_sorted_by_timestamp() {
    assert_eq!(
        closes(vec![
            quote(30, 3.0),
            quote(10, 1.0),
            quote(40, 4.0),
            quote(20, 2.0),
            quote(0, 0.0),
        ]),
        Ok(vec![0.0, 1.0, 2.0, 3.0, 4.0])
    );
    assert_eq!(
        closes(vec![quote(3, 30.0), quote(2, 20.0), quote(1, 10.0)]),
        Ok(vec![10.0, 20.0, 30.0])
    );
}

#[test]
fn quotes_of_one_timestamp_keep_their_order() {
    assert_eq!(
        closes(vec![
            quote(20, 1.0),
            quote(10, 2.0),
            quote(20, 3.0),
            quote(10, 4.0),
            quote(20, 5.0),
            quote(5, 6.0),
        ]),
        Ok(vec![6.0, 2.0, 4.0, 1.0, 3.0, 5.0])
    );
    assert_eq!(
        closes(vec![quote(7, 3.0), quote(7, 1.0), quote(7, 2.0)]),
        Ok(vec![3.0, 1.0, 2.0])
    );
}

#[test]
fn the_close_is_the_adjusted_close_bit_for_bit() {
    let series = fetch_closing_data(Some(vec![quote(1, -0.0), quote(0, 0.1)])).unwrap();
    assert_eq!(series.get(0).to_bits(), 0.1f64.to_bits());
    assert_eq!(series.get(1).to_bits(), (-0.0f64).to_bits());
}

#[test]
fn a_close_that_is_not_finite_is_invalid_data() {
    assert_eq!(
        closes(vec![quote(1, 1.0), quote(2, f64::NAN)]),
        Err(invalid_data())
    );
    assert_eq!(
        closes(vec![quote(1, f64::INFINITY)]),
        Err(invalid_data())
    );
    assert_eq!(
        closes(vec![
            quote(3, 1.0),
            quote(2, f64::NEG_INFINITY),
            quote(1, 2.0)
        ]),
        Err(invalid_data())
    );
}

#[test]
fn timestamps_sort_over_their_whole_range() {
    assert_eq!(
        closes(vec![quote(u64::MAX, 2.0), quote(0, 1.0), quote(u64::MAX - 1, 1.5)]),
        Ok(vec![1.0, 1.5, 2.0])
    );
}
