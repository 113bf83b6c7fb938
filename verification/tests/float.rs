use llm_multimodal::float::{Binary32, Binary64, F64Bits, Float};
use llm_multimodal::rounding::round_scaled;

fn soft(x: f64) -> Binary64 {
    F64Bits::from_bits(x.to_bits()).decode()
}

/// The single precision datum of a value that is not negative.
fn soft32(x: f32) -> Binary32 {
    let bits = x.to_bits();
    let (exponent, fraction) = ((bits >> 23) & 0xff, (bits & 0x7f_ffff) as u64);
    if exponent == 0xff {
        Float::Infinite { negative: false }
    } else if exponent == 0 {
        Float::Finite { negative: false, significand: fraction, shift: 0 }
    } else {
        Float::Finite { negative: false, significand: 0x80_0000 + fraction, shift: exponent - 1 }
    }
}

fn samples() -> Vec<f64> {
    vec![
        0.0,
        -0.0,
        1.0,
        -1.0,
        2.0,
        0.1,
        1.0 / 3.0,
        29.97,
        25.0,
        1e-310,
        -3e-309,
        f64::from_bits(1),
        f64::MIN_POSITIVE,
        f64::MAX,
        -f64::MAX,
        f64::INFINITY,
        f64::NEG_INFINITY,
        f64::NAN,
        9007199254740993.0,
        1.7976931348623157e154,
        4.9e-162,
        0.5,
        1.5,
        2.5,
        3.4999999999999996,
        18446744073709551615.0,
        18446744073709549568.0,
        1e15,
        4503599627370495.5,
        1e300,
        7e-200,
    ]
}

#[test]
fn products_are_those_of_the_processor() {
    for a in samples() {
        for b in samples() {
            assert_eq!(soft(a).mul(soft(b)), soft(a * b));
        }
    }
}

#[test]
fn quotients_are_those_of_the_processor() {
    for a in samples() {
        for b in samples() {
            assert_eq!(soft(a).div(soft(b)), soft(a / b));
        }
    }
}

#[test]
fn comparisons_are_those_of_the_processor() {
    for a in samples() {
        for b in samples() {
            assert_eq!(soft(a).less(soft(b)), a < b);
            assert_eq!(soft(a).at_least(soft(b)), a >= b);
            // The sign of a zero is not looked at.
            if !(a == 0.0 && b == 0.0) {
                assert_eq!(soft(a).max(soft(b)), soft(a.max(b)));
                assert_eq!(soft(a).min(soft(b)), soft(a.min(b)));
            }
        }
        assert_eq!(soft(a).is_positive_finite(), a.is_finite() && a > 0.0);
    }
}

#[test]
fn conversions_are_those_of_the_processor() {
    for a in samples() {
        assert_eq!(soft(a).truncate(), a as usize);
        assert_eq!(soft(a).round_ties_even(), a.round_ties_even().max(0.0) as usize);
    }
    for n in [0, 1, 2, 3, 1 << 24, (1 << 24) + 1, (1 << 53) - 1, (1 << 53) + 1, usize::MAX] {
        assert_eq!(Binary64::from_usize(n), soft(n as f64));
        assert_eq!(Binary32::from_usize(n), soft32(n as f32));
    }
}

#[test]
fn single_precision_is_that_of_the_processor() {
    let data: Vec<usize> = vec![1, 2, 3, 7, 22, 26, 100, 999, 16777217, 123456789, usize::MAX];
    for &a in &data {
        for &b in &data {
            let (x, y) = (Binary32::from_usize(a), Binary32::from_usize(b));
            assert_eq!(x.mul(y), soft32(a as f32 * b as f32));
            assert_eq!(x.div(y), soft32(a as f32 / b as f32));
            assert_eq!(x.div(y).mul(y), soft32(a as f32 / b as f32 * b as f32));
            assert_eq!(x.div(y).truncate(), (a as f32 / b as f32) as usize);
        }
    }
}

#[test]
fn fractions_are_rounded_to_even() {
    // Three bits: 8 1/2 units and 9 units both lie between 8 and 10.
    assert_eq!(round_scaled(17, 2, 0, 3), (4, 1));
    assert_eq!(round_scaled(9, 1, 0, 3), (4, 1));
    assert_eq!(round_scaled(11, 1, 0, 3), (6, 1));
    // A carry widens the gap.
    assert_eq!(round_scaled(15, 1, 0, 3), (4, 2));
    // Below one unit.
    assert_eq!(round_scaled(1, 2, 0, 3), (0, 0));
    assert_eq!(round_scaled(3, 4, 0, 3), (1, 0));
    assert_eq!(round_scaled(1, 1, -900, 53), (0, 0));
    assert_eq!(round_scaled(5, 1, 900, 53), (5 << 50, 850));
}

#[test]
fn bits_are_decoded() {
    assert_eq!(soft(f64::NAN), Float::Nan);
    assert_eq!(soft(f64::NEG_INFINITY), Float::Infinite { negative: true });
    assert_eq!(soft(-0.0), Float::Finite { negative: true, significand: 0, shift: 0 });
    assert_eq!(soft(1.0), Float::Finite { negative: false, significand: 1 << 52, shift: 1022 });
}

#[test]
fn data_are_equal_as_numbers() {
    let bits = |x: f64| F64Bits::from_bits(x.to_bits());
    for a in samples() {
        for b in samples() {
            assert_eq!(bits(a) == bits(b), a == b);
        }
    }
}
