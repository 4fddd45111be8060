use stock_signals::instant::Instant;

#[test]
fn an_instant_holds_seconds_and_nanoseconds() {
    let t = Instant::new(12, 34);
    assert_eq!(t.seconds, 12);
    assert_eq!(t.nanos, 34);
    assert_eq!(t, Instant { seconds: 12, nanos: 34 });
}

#[test]
fn parse_reads_rfc3339() {
    assert_eq!(
        Instant::parse("2020-01-01T00:00:00Z"),
        Some(Instant::new(1577836800, 0))
    );
    assert_eq!(
        Instant::parse("1970-01-01T00:00:00+00:00"),
        Some(Instant::new(0, 0))
    );
    assert_eq!(
        Instant::parse("1969-12-31T23:59:59Z"),
        Some(Instant::new(-1, 0))
    );
}

#[test]
fn parse_accepts_a_space_between_date_and_time() {
    let expected = Some(Instant::new(1355314332, 0));
    assert_eq!(Instant::parse("2012-12-12T12:12:12Z"), expected);
    assert_eq!(Instant::parse("2012-12-12 12:12:12Z"), expected);
    assert_eq!(Instant::parse("2012-12-12 12:12:12+0000"), expected);
    assert_eq!(Instant::parse("2012-12-12 12:12:12+00:00"), expected);
}

#[test]
fn parse_brings_other_offsets_to_utc() {
    assert_eq!(
        Instant::parse("2020-07-01T12:30:45.5+02:00"),
        Some(Instant::new(1593599445, 500_000_000))
    );
}

#[test]
fn parse_refuses_what_is_no_date_and_time() {
    assert_eq!(Instant::parse(""), None);
    assert_eq!(Instant::parse("yesterday"), None);
    assert_eq!(Instant::parse("2020-01-01"), None);
    assert_eq!(Instant::parse("2020-13-01T00:00:00Z"), None);
    assert_eq!(Instant::parse("2020-01-01T00:00:00"), None);
}

#[test]
fn rfc3339_is_written_with_a_numeric_offset() {
    assert_eq!(
        Instant::new(1577836800, 0).to_rfc3339(),
        Some(String::from("2020-01-01T00:00:00+00:00"))
    );
    assert_eq!(
        Instant::new(0, 0).to_rfc3339(),
        Some(String::from("1970-01-01T00:00:00+00:00"))
    );
    assert_eq!(
        Instant::new(-1, 0).to_rfc3339(),
        Some(String::from("1969-12-31T23:59:59+00:00"))
    );
}

#[test]
fn rfc3339_shows_the_fraction_of_a_second_where_there_is_one() {
    assert_eq!(
        Instant::new(1593599445, 500_000_000).to_rfc3339(),
        Some(String::from("2020-07-01T10:30:45.500+00:00"))
    );
    assert_eq!(
        Instant::new(1593599445, 1_000).to_rfc3339(),
        Some(String::from("2020-07-01T10:30:45.000001+00:00"))
    );
    assert_eq!(
        Instant::new(1593599445, 1).to_rfc3339(),
        Some(String::from("2020-07-01T10:30:45.000000001+00:00"))
    );
}

#[test]
fn rfc3339_has_no_text_beyond_the_calendar() {
    assert_eq!(Instant::new(i64::MAX, 0).to_rfc3339(), None);
    assert_eq!(Instant::new(i64::MIN, 0).to_rfc3339(), None);
    assert_eq!(Instant::new(0, 2_000_000_000).to_rfc3339(), None);
}

#[test]
fn what_was_read_can_be_written() {
    for text in [
        "2020-01-01T00:00:00+00:00",
        "1999-12-31T23:59:59.250+00:00",
        "0001-01-01T00:00:00+00:00",
        "9999-12-31T23:59:59.999999999+00:00",
        "2016-12-31T23:59:60+00:00",
    ] {
        let t = Instant::parse(text).expect("a date and time");
        assert_eq!(t.to_rfc3339(), Some(String::from(text)));
    }
}
