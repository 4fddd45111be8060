use stock_signals::price::Price;
use stock_signals::render::render_two_places;

fn two_places(x: f64) -> String {
    render_two_places(Price::from_bits(x.to_bits()))
}

fn agrees(x: f64) {
    assert_eq!(two_places(x), format!("{:.2}", x), "{:?} ({:#x})", x, x.to_bits());
}

#[test]
fn whole_numbers_have_two_zeros() {
    assert_eq!(two_places(0.0), "0.00");
    assert_eq!(two_places(1.0), "1.00");
    assert_eq!(two_places(13.0), "13.00");
    assert_eq!(two_places(100.0), "100.00");
    assert_eq!(two_places(123456789.0), "123456789.00");
}

#[test]
fn fractions_are_cut_to_two_digits() {
    assert_eq!(two_places(0.5), "0.50");
    assert_eq!(two_places(0.25), "0.25");
    assert_eq!(two_places(2.75), "2.75");
    assert_eq!(two_places(12345.678), "12345.68");
    assert_eq!(two_places(0.994999), "0.99");
    assert_eq!(two_places(3.9333333333333336), "3.93");
    assert_eq!(two_places(5.433333333333334), "5.43");
}

#[test]
fn rounding_goes_to_the_nearest_hundredth() {
    assert_eq!(two_places(0.005), "0.01");
    assert_eq!(two_places(1.005), "1.00");
    assert_eq!(two_places(0.045), "0.04");
    assert_eq!(two_places(0.995), "0.99");
    assert_eq!(two_places(99.995), "100.00");
    assert_eq!(two_places(9.999), "10.00");
    assert_eq!(two_places(0.004999), "0.00");
}

#[test]
fn half_way_goes_to_the_even_hundredth() {
    assert_eq!(two_places(0.125), "0.12");
    assert_eq!(two_places(0.375), "0.38");
    assert_eq!(two_places(0.625), "0.62");
    assert_eq!(two_places(0.875), "0.88");
    assert_eq!(two_places(1.125), "1.12");
    assert_eq!(two_places(-0.125), "-0.12");
    assert_eq!(two_places(1000000000000000.125), "1000000000000000.12");
    assert_eq!(two_places(1048576.375), "1048576.38");
}

#[test]
fn the_sign_is_a_leading_minus_and_never_a_plus() {
    assert_eq!(two_places(-1.0), "-1.00");
    assert_eq!(two_places(-25.0), "-25.00");
    assert_eq!(two_places(30.0), "30.00");
    assert_eq!(two_places(-0.0), "-0.00");
    assert_eq!(two_places(-0.001), "-0.00");
    assert_eq!(two_places(-5e-324), "-0.00");
}

#[test]
fn what_is_no_number_has_a_name() {
    assert_eq!(two_places(f64::NAN), "NaN");
    assert_eq!(two_places(-f64::NAN), "NaN");
    assert_eq!(two_places(f64::INFINITY), "inf");
    assert_eq!(two_places(f64::NEG_INFINITY), "-inf");
    assert_eq!(render_two_places(Price::from_bits(u64::MAX)), "NaN");
    assert_eq!(
        render_two_places(Price::from_bits(0x7ff0_0000_0000_0001)),
        "NaN"
    );
}

#[test]
fn the_smallest_doubles_are_zero() {
    assert_eq!(two_places(5e-324), "0.00");
    assert_eq!(two_places(f64::MIN_POSITIVE), "0.00");
    assert_eq!(two_places(1e-300), "0.00");
    assert_eq!(two_places(-1e-300), "-0.00");
}

#[test]
fn large_doubles_are_written_out() {
    assert_eq!(two_places(4503599627370496.0), "4503599627370496.00");
    assert_eq!(two_places(9007199254740992.0), "9007199254740992.00");
    assert_eq!(two_places(1e21), "1000000000000000000000.00");
    assert_eq!(two_places(1e22), "10000000000000000000000.00");
    assert_eq!(
        two_places(f64::MAX),
        "179769313486231570814527423731704356798070567525844996598917476803157260780028538760589558632766878171540458953514382464234321326889464182768467546703537516986049910576551282076245490090389328944075868508455133942304583236903222948165808559332123348274797826204144723168738177180919299881250404026184124858368.00"
    );
    assert_eq!(two_places(f64::MIN), format!("-{}", two_places(f64::MAX)));
}

#[test]
fn agrees_with_the_standard_formatter_on_chosen_values() {
    for x in [
        0.0,
        -0.0,
        0.01,
        0.015,
        0.025,
        0.035,
        0.1,
        0.2,
        0.3,
        0.30000000000000004,
        0.10000000000000002,
        1.0 / 3.0,
        2.0 / 3.0,
        4.6,
        5.5,
        30.0,
        -25.0,
        250.0,
        3900.0,
        1234.565,
        1234.575,
        2251799813685247.8,
        2251799813685247.9,
        4503599627370495.5,
        4503599627370497.0,
        9007199254740993.0,
        1e15,
        1e16,
        1e17,
        1e100,
        1e308,
        1e-2,
        1e-3,
        4.9e-3,
        5.0e-3,
        5.1e-3,
        f64::EPSILON,
        f64::MAX,
        f64::MIN,
        f64::MIN_POSITIVE,
        f64::NAN,
        f64::INFINITY,
        f64::NEG_INFINITY,
    ] {
        agrees(x);
        agrees(-x);
    }
}

#[test]
fn agrees_with_the_standard_formatter_on_every_hundredth_and_between() {
    for k in 0..20000u32 {
        let x = k as f64 / 100.0;
        agrees(x);
        agrees(x + 0.005);
        agrees(x - 0.005);
        agrees(-x);
    }
    for k in 0..4096u32 {
        agrees(k as f64 / 1024.0);
        agrees(k as f64 / 8.0 + 1e6);
    }
}

#[test]
fn agrees_with_the_standard_formatter_across_the_exponents() {
    for exponent in 0..2047u64 {
        for fraction in [
            0u64,
            1,
            0x8_0000_0000_0000,
            0x9_0000_0000_0000,
            0xf_ffff_ffff_ffff,
            0x5_5555_5555_5555,
        ] {
            let bits = (exponent << 52) | fraction;
            agrees(f64::from_bits(bits));
            agrees(f64::from_bits(bits | (1 << 63)));
        }
    }
}

#[test]
fn agrees_with_the_standard_formatter_on_scattered_bit_patterns() {
    let mut state: u64 = 0x9e37_79b9_7f4a_7c15;
    for _ in 0..3000 {
        state = state
            .wrapping_mul(6364136223846793005)
            .wrapping_add(1442695040888963407);
        agrees(f64::from_bits(state));
        // the same fraction with an exponent near that of prices
        let near = (state & 0x800f_ffff_ffff_ffff) | ((1000 + (state >> 58)) << 52);
        agrees(f64::from_bits(near));
    }
}
