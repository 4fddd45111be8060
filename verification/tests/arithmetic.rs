use stock_signals::price::Price;

fn price(x: f64) -> Price {
    Price::from_bits(x.to_bits())
}

fn same(got: Price, expected: f64, what: &str, x: f64, y: f64) {
    if expected.is_nan() {
        assert!(got.is_nan(), "{:?} {} {:?}", x, what, y);
    } else {
        assert_eq!(
            got.to_bits(),
            expected.to_bits(),
            "{:?} {} {:?}: got {:?}, expected {:?}",
            x,
            what,
            y,
            f64::from_bits(got.to_bits()),
            expected
        );
    }
}

fn chosen() -> Vec<f64> {
    vec![
        0.0,
        -0.0,
        1.0,
        -1.0,
        2.0,
        3.0,
        0.1,
        0.2,
        0.3,
        1.0 / 3.0,
        100.0,
        1e-320,
        5e-324,
        -5e-324,
        f64::MIN_POSITIVE,
        2.2250738585072009e-308,
        1.5e-154,
        1e154,
        1.3407807929942597e154,
        f64::MAX,
        f64::MIN,
        8.98846567431158e307,
        f64::EPSILON,
        1.0 + f64::EPSILON,
        1.0 - f64::EPSILON / 2.0,
        9007199254740992.0,
        9007199254740993.0,
        4503599627370497.0,
        0.5,
        1.5,
        2.5,
        1e16,
        -1e16,
        1e300,
        1e-300,
        f64::INFINITY,
        f64::NEG_INFINITY,
        f64::NAN,
    ]
}

fn scattered(count: usize) -> Vec<f64> {
    let mut state: u64 = 0x2545_f491_4f6c_dd1d;
    let mut out = Vec::new();
    for i in 0..count {
        state = state
            .wrapping_mul(6364136223846793005)
            .wrapping_add(1442695040888963407);
        let bits = match i % 4 {
            0 => state,
            // exponents near one
            1 => (state & 0x800f_ffff_ffff_ffff) | ((1000 + (state >> 58)) << 52),
            // few significant bits
            2 => (state & 0xfff0_0000_0000_0000) | ((state >> 20) & 0xf_f000_0000_0000),
            // subnormals and their neighbours
            _ => (state & 0x801f_ffff_ffff_ffff) >> ((state >> 59) & 7) | (state & (1 << 63)),
        };
        out.push(f64::from_bits(bits));
    }
    out
}

#[test]
fn times_agrees_with_the_machine_on_chosen_values() {
    for x in chosen() {
        for y in chosen() {
            same(price(x).times(price(y)), x * y, "*", x, y);
        }
    }
}

#[test]
fn times_agrees_with_the_machine_on_scattered_values() {
    let xs = scattered(4000);
    for pair in xs.chunks(2) {
        let (x, y) = (pair[0], pair[1]);
        same(price(x).times(price(y)), x * y, "*", x, y);
        same(price(x).times(price(1.0 / y)), x * (1.0 / y), "*", x, 1.0 / y);
    }
}

#[test]
fn plus_and_minus_agree_with_the_machine_on_chosen_values() {
    for x in chosen() {
        for y in chosen() {
            same(price(x).plus(price(y)), x + y, "+", x, y);
            same(price(x).minus(price(y)), x - y, "-", x, y);
        }
    }
}

#[test]
fn over_agrees_with_the_machine_on_chosen_values() {
    for x in chosen() {
        for y in chosen() {
            same(price(x).over(price(y)), x / y, "/", x, y);
        }
    }
}

#[test]
fn plus_and_minus_agree_with_the_machine_on_scattered_values() {
    let xs = scattered(6000);
    for pair in xs.chunks(2) {
        let (x, y) = (pair[0], pair[1]);
        same(price(x).plus(price(y)), x + y, "+", x, y);
        same(price(x).minus(price(y)), x - y, "-", x, y);
    }
}

#[test]
fn plus_and_minus_agree_with_the_machine_on_neighbouring_values() {
    // operands whose exponents are close together, where digits cancel
    let xs = scattered(3000);
    for x in xs {
        if !x.is_finite() {
            continue;
        }
        for scale in [1.0, 2.0, 0.5, 1.0000000000000002, 0.9999999999999999, 3.0, 1e-16, 1e16, 1e-20, 1e20] {
            let y = x * scale;
            same(price(x).plus(price(y)), x + y, "+", x, y);
            same(price(x).minus(price(y)), x - y, "-", x, y);
            same(price(y).minus(price(x)), y - x, "-", y, x);
        }
        let up = f64::from_bits(x.to_bits() + 1);
        same(price(up).minus(price(x)), up - x, "-", up, x);
        same(price(x).minus(price(up)), x - up, "-", x, up);
    }
}

#[test]
fn plus_rounds_by_what_lies_far_below() {
    for (x, y) in [
        (1.0, 1e-30),
        (1.0, -1e-30),
        (-1.0, 1e-30),
        (-1.0, -1e-30),
        (1e300, 1.0),
        (1e300, -1.0),
        (4503599627370496.0, 5e-324),
        (4503599627370496.0, -5e-324),
        (9007199254740992.0, -5e-324),
        (f64::MAX, 1.0),
        (f64::MAX, -1.0),
        (f64::MAX, 9.9e291),
        (f64::MAX, 1e292),
        (f64::MIN, -1e292),
        (1.8014398509481984e16, 1.0),
        (1.8014398509481984e16, -1.0),
        (1.8014398509481984e16, -1.0000000000000002),
        (1.8014398509481984e16, 2.0),
        (1.8014398509481984e16, 2.0000000000000004),
        (1.8014398509481984e16, 6.0),
    ] {
        same(price(x).plus(price(y)), x + y, "+", x, y);
        same(price(y).plus(price(x)), y + x, "+", y, x);
        same(price(x).minus(price(y)), x - y, "-", x, y);
    }
}

#[test]
fn over_agrees_with_the_machine_on_scattered_values() {
    let xs = scattered(6000);
    for pair in xs.chunks(2) {
        let (x, y) = (pair[0], pair[1]);
        same(price(x).over(price(y)), x / y, "/", x, y);
        same(price(y).over(price(x)), y / x, "/", y, x);
    }
}

#[test]
fn over_agrees_with_the_machine_on_small_whole_numbers() {
    for a in 0..200u32 {
        for b in 1..200u32 {
            let (x, y) = (a as f64, b as f64);
            same(price(x).over(price(y)), x / y, "/", x, y);
            same(price(-x).over(price(y)), -x / y, "/", -x, y);
            same(price(x / 100.0).over(price(y / 100.0)), (x / 100.0) / (y / 100.0), "/", x, y);
        }
    }
}

#[test]
fn a_count_is_the_nearest_double() {
    for n in [
        0usize,
        1,
        2,
        3,
        30,
        1000,
        4503599627370496,
        9007199254740992,
        9007199254740993,
        9007199254740994,
        9007199254740995,
        usize::MAX,
        usize::MAX - 1,
        usize::MAX / 2,
        usize::MAX / 2 + 1,
        0x7fff_ffff_ffff_fbff,
        0x7fff_ffff_ffff_fc00,
        0x7fff_ffff_ffff_fc01,
    ] {
        assert_eq!(Price::of_count(n).to_bits(), (n as f64).to_bits(), "{}", n);
    }
    let mut state: u64 = 99;
    for _ in 0..2000 {
        state = state
            .wrapping_mul(6364136223846793005)
            .wrapping_add(1442695040888963407);
        let n = (state >> (state & 63)) as usize;
        assert_eq!(Price::of_count(n).to_bits(), (n as f64).to_bits(), "{}", n);
    }
}

#[test]
fn signs_of_zero_and_special_values() {
    assert_eq!(price(0.0).plus(price(-0.0)).to_bits(), 0.0f64.to_bits());
    assert_eq!(price(-0.0).plus(price(-0.0)).to_bits(), (-0.0f64).to_bits());
    assert_eq!(price(1.5).minus(price(1.5)).to_bits(), 0.0f64.to_bits());
    assert_eq!(price(-1.5).plus(price(1.5)).to_bits(), 0.0f64.to_bits());
    assert_eq!(price(-0.0).minus(price(0.0)).to_bits(), (-0.0f64).to_bits());
    assert_eq!(price(0.0).times(price(-3.0)).to_bits(), (-0.0f64).to_bits());
    assert_eq!(price(0.0).over(price(-3.0)).to_bits(), (-0.0f64).to_bits());
    assert_eq!(price(3.0).over(price(-0.0)).to_bits(), f64::NEG_INFINITY.to_bits());
    assert!(price(0.0).over(price(0.0)).is_nan());
    assert!(price(f64::INFINITY).minus(price(f64::INFINITY)).is_nan());
    assert!(price(f64::INFINITY).times(price(0.0)).is_nan());
    assert!(price(f64::INFINITY).over(price(f64::NEG_INFINITY)).is_nan());
    assert_eq!(price(1.0).negate(), price(-1.0));
    assert_eq!(price(-0.0).negate(), price(0.0));
    assert!(price(-2.0).is_sign_negative());
    assert!(!price(2.0).is_sign_negative());
    assert!(price(f64::NEG_INFINITY).is_infinite());
    assert!(!price(f64::MAX).is_infinite());
}
