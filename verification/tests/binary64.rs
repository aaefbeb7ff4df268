use binomtest::binary64::{INFINITY_MAGNITUDE, ONE_BITS, SIGN_BIT};
use binomtest::Binary64;
use std::cmp::Ordering;

fn value(x: f64) -> Binary64 {
    Binary64::from_bits(x.to_bits())
}

fn samples() -> Vec<f64> {
    let mut v = vec![
        0.0,
        -0.0,
        5e-324,
        -5e-324,
        f64::MIN_POSITIVE,
        -f64::MIN_POSITIVE,
        2.2250738585072009e-308,
        1e-300,
        0.1,
        0.25,
        0.5,
        0.9999999999999999,
        1.0,
        1.0000000000000002,
        -1.0,
        2.0,
        -0.3,
        1e300,
        -1e300,
        f64::MAX,
        f64::MIN,
        f64::INFINITY,
        f64::NEG_INFINITY,
        f64::NAN,
        -f64::NAN,
    ];
    v.push(f64::from_bits(0x7FF0_0000_0000_0001));
    v.push(f64::from_bits(0xFFF0_0000_0000_0001));
    v.push(f64::from_bits(0x7FFF_FFFF_FFFF_FFFF));
    v.push(f64::from_bits(0xFFFF_FFFF_FFFF_FFFF));
    v
}

#[test]
fn bits_round_trip() {
    for x in samples() {
        assert_eq!(value(x).to_bits(), x.to_bits());
        assert_eq!(value(x).bits, x.to_bits());
    }
    assert_eq!(Binary64::zero_value().to_bits(), 0.0f64.to_bits());
    assert_eq!(Binary64::one_value().to_bits(), 1.0f64.to_bits());
    assert_eq!(ONE_BITS, 1.0f64.to_bits());
    assert_eq!(INFINITY_MAGNITUDE, f64::INFINITY.to_bits());
    assert_eq!(SIGN_BIT, (-0.0f64).to_bits());
}

#[test]
fn total_order_is_that_of_the_hardware() {
    for a in samples() {
        for b in samples() {
            let order = a.total_cmp(&b);
            assert_eq!(value(a).total_lt(value(b)), order == Ordering::Less, "{a} {b}");
            assert_eq!(value(a).total_eq(value(b)), order == Ordering::Equal, "{a} {b}");
        }
    }
}

#[test]
fn numeric_order_is_that_of_the_hardware() {
    for a in samples() {
        for b in samples() {
            assert_eq!(value(a).le(value(b)), a <= b, "{a} {b}");
            assert_eq!(value(a).lt(value(b)), a < b, "{a} {b}");
        }
    }
}

#[test]
fn negation_flips_the_sign() {
    for a in samples() {
        assert_eq!(value(a).neg().to_bits(), (-a).to_bits());
        assert_eq!(value(a).neg().neg(), value(a));
    }
    assert_eq!(value(0.25).neg(), value(-0.25));
    assert_eq!(value(0.0).neg().to_bits(), 0x8000_0000_0000_0000);
}

#[test]
fn nan_and_zero_are_recognised() {
    for a in samples() {
        assert_eq!(value(a).is_nan(), a.is_nan());
        assert_eq!(value(a).is_zero(), a == 0.0);
    }
}

#[test]
fn probabilities_are_the_unit_interval() {
    for a in samples() {
        assert_eq!(value(a).is_probability(), (0. ..=1.).contains(&a), "{a}");
    }
    assert!(value(0.0).is_probability());
    assert!(value(-0.0).is_probability());
    assert!(value(1.0).is_probability());
    assert!(value(5e-324).is_probability());
    assert!(!value(1.0000000000000002).is_probability());
    assert!(!value(-5e-324).is_probability());
    assert!(!value(f64::NAN).is_probability());
}

#[test]
fn order_of_named_values() {
    let ascending = [
        f64::NEG_INFINITY,
        -1.0,
        -5e-324,
        -0.0,
        0.0,
        5e-324,
        0.5,
        1.0,
        f64::INFINITY,
        f64::NAN,
    ];
    for i in 0..ascending.len() {
        for j in 0..ascending.len() {
            assert_eq!(value(ascending[i]).total_lt(value(ascending[j])), i < j);
        }
    }
}

fn many_values() -> Vec<f64> {
    let mut v = samples();
    let mut state: u64 = 0x9E37_79B9_7F4A_7C15;
    for _ in 0..20_000 {
        state ^= state << 13;
        state ^= state >> 7;
        state ^= state << 17;
        v.push(f64::from_bits(state));
    }
    for e in 0..70 {
        let power = 2f64.powi(e);
        for x in [power, power - 1., power + 1., power * 1.5, power - 0.5, power + 0.5] {
            v.push(x);
            v.push(-x);
            v.push(f64::from_bits(x.to_bits() + 1));
            v.push(f64::from_bits(x.to_bits().wrapping_sub(1)));
        }
    }
    for i in 0..2000u64 {
        v.push(i as f64 / 7.);
        v.push(i as f64 * 0.37);
        v.push((i * i * 104_729) as f64 * 0.001);
    }
    v
}

#[test]
fn rounding_down_is_that_of_the_hardware() {
    for x in many_values() {
        assert_eq!(value(x).floor_to_count(), x.floor() as u64, "{x}");
        assert_eq!(value(x).floor_to_count(), x as u64, "{x}");
    }
}

#[test]
fn rounding_up_is_that_of_the_hardware() {
    for x in many_values() {
        assert_eq!(value(x).ceil_to_count(), x.ceil() as u64, "{x}");
    }
}

#[test]
fn rounding_of_named_values() {
    assert_eq!(value(0.0).whole_counts(), (0, 0));
    assert_eq!(value(-0.0).whole_counts(), (0, 0));
    assert_eq!(value(5e-324).whole_counts(), (0, 1));
    assert_eq!(value(0.5).whole_counts(), (0, 1));
    assert_eq!(value(1.0).whole_counts(), (1, 1));
    assert_eq!(value(1.5).whole_counts(), (1, 2));
    assert_eq!(value(634.95).whole_counts(), (634, 635));
    assert_eq!(value(-3.5).whole_counts(), (0, 0));
    assert_eq!(value(4503599627370495.5).whole_counts(), (4503599627370495, 4503599627370496));
    assert_eq!(value(9007199254740992.0).whole_counts(), (9007199254740992, 9007199254740992));
    assert_eq!(value(9223372036854775808.0).whole_counts(), (1 << 63, 1 << 63));
    assert_eq!(
        value(18446744073709549568.0).whole_counts(),
        (18446744073709549568, 18446744073709549568)
    );
    assert_eq!(value(18446744073709551616.0).whole_counts(), (u64::MAX, u64::MAX));
    assert_eq!(value(1e300).whole_counts(), (u64::MAX, u64::MAX));
    assert_eq!(value(f64::INFINITY).whole_counts(), (u64::MAX, u64::MAX));
    assert_eq!(value(f64::NEG_INFINITY).whole_counts(), (0, 0));
    assert_eq!(value(f64::NAN).whole_counts(), (0, 0));
}
