use stock_signals::price::CloseSeries;
use stock_signals::price::Price;
use stock_signals::price::HUNDRED_BITS;
use stock_signals::price::INFINITY_BITS;
use stock_signals::price::ONE_BITS;
use stock_signals::price::SIGN_BIT;

fn price(x: f64) -> Price {
    Price::from_bits(x.to_bits())
}

fn samples() -> Vec<f64> {
    vec![
        f64::MIN,
        -1e300,
        -100.0,
        -1.0000000000000002,
        -1.0,
        -0.5,
        -f64::MIN_POSITIVE,
        -5e-324,
        -0.0,
        0.0,
        5e-324,
        f64::MIN_POSITIVE,
        0.5,
        1.0,
        1.0000000000000002,
        100.0,
        1e300,
        f64::MAX,
    ]
}

#[test]
fn constants_are_the_bit_patterns_they_are_named_after() {
    assert_eq!(ONE_BITS, 1.0f64.to_bits());
    assert_eq!(HUNDRED_BITS, 100.0f64.to_bits());
    assert_eq!(INFINITY_BITS, f64::INFINITY.to_bits());
    assert_eq!(SIGN_BIT, (-0.0f64).to_bits());
}

#[test]
fn bits_round_trip() {
    for x in samples() {
        assert_eq!(price(x).to_bits(), x.to_bits());
        assert_eq!(price(x).bits, x.to_bits());
    }
    assert_eq!(Price::from_bits(7).to_bits(), 7);
}

#[test]
fn finiteness_is_that_of_the_double() {
    for x in samples() {
        assert!(price(x).is_finite());
    }
    assert!(!price(f64::INFINITY).is_finite());
    assert!(!price(f64::NEG_INFINITY).is_finite());
    assert!(!price(f64::NAN).is_finite());
    assert!(!price(-f64::NAN).is_finite());
    assert!(!Price::from_bits(u64::MAX).is_finite());
    assert!(!Price::from_bits(0x7ff0_0000_0000_0001).is_finite());
    assert!(Price::from_bits(0x7fef_ffff_ffff_ffff).is_finite());
    assert!(Price::from_bits(0xffef_ffff_ffff_ffff).is_finite());
}

#[test]
fn zero_is_recognised_with_either_sign() {
    for x in samples() {
        assert_eq!(price(x).is_zero(), x == 0.0);
    }
    assert!(price(0.0).is_zero());
    assert!(price(-0.0).is_zero());
    assert!(!price(5e-324).is_zero());
    assert!(!price(f64::NAN).is_zero());
}

#[test]
fn order_is_that_of_the_doubles() {
    let xs = samples();
    for a in &xs {
        for b in &xs {
            assert_eq!(price(*a).below(price(*b)), a < b, "{} {}", a, b);
            assert_eq!(
                price(*a).order_key() == price(*b).order_key(),
                a == b,
                "{} {}",
                a,
                b
            );
        }
    }
}

#[test]
fn order_keys_of_known_prices() {
    assert_eq!(price(0.0).order_key(), 0);
    assert_eq!(price(-0.0).order_key(), 0);
    assert_eq!(price(1.0).order_key(), 0x3ff0_0000_0000_0000);
    assert_eq!(price(-1.0).order_key(), -0x3ff0_0000_0000_0000);
    assert_eq!(price(5e-324).order_key(), 1);
    assert_eq!(Price::from_bits(u64::MAX).order_key(), -i64::MAX);
}

#[test]
fn a_series_holds_finite_prices_only() {
    assert!(CloseSeries::new(vec![]).is_some());
    assert!(CloseSeries::new(vec![price(1.0), price(-2.0)]).is_some());
    assert!(CloseSeries::new(vec![price(1.0), price(f64::NAN)]).is_none());
    assert!(CloseSeries::new(vec![price(f64::INFINITY), price(1.0)]).is_none());
    assert!(CloseSeries::new(vec![price(1.0), price(f64::NEG_INFINITY), price(2.0)]).is_none());
}

#[test]
fn a_series_keeps_its_prices_in_order() {
    let s = CloseSeries::new(vec![price(3.0), price(1.0), price(2.0)]).unwrap();
    assert_eq!(s.len(), 3);
    assert!(!s.is_empty());
    assert_eq!(s.get(0), price(3.0));
    assert_eq!(s.get(1), price(1.0));
    assert_eq!(s.get(2), price(2.0));
    assert_eq!(s.prices(), &vec![price(3.0), price(1.0), price(2.0)]);
    let copy = s.clone();
    assert_eq!(copy.prices(), s.prices());
}

#[test]
fn the_empty_series_is_empty() {
    let s = CloseSeries::empty();
    assert_eq!(s.len(), 0);
    assert!(s.is_empty());
    assert!(s.prices().is_empty());
}
