use rlox::number::{compare_numbers, is_zero, negate, numbers_equal, repeat_count, Order};

fn samples() -> Vec<f32> {
    vec![
        0.0,
        -0.0,
        1.0,
        -1.0,
        0.5,
        -0.5,
        0.999,
        1.5,
        2.5,
        13.0,
        -13.75,
        123456.78,
        16777216.0,
        4294967296.0,
        1.8446744e19,
        3.0e19,
        1.0e-40,
        -1.0e-40,
        f32::MIN_POSITIVE,
        f32::MAX,
        -f32::MAX,
        f32::INFINITY,
        f32::NEG_INFINITY,
        f32::NAN,
        -f32::NAN,
        f32::from_bits(0x7fc0_0001),
        f32::from_bits(0x7f80_0001),
    ]
}

fn expected_order(x: f32, y: f32) -> Option<Order> {
    match x.partial_cmp(&y) {
        Some(std::cmp::Ordering::Less) => Some(Order::Less),
        Some(std::cmp::Ordering::Equal) => Some(Order::Equal),
        Some(std::cmp::Ordering::Greater) => Some(Order::Greater),
        None => None,
    }
}

#[test]
fn zero_test_matches_floats() {
    for x in samples() {
        assert_eq!(is_zero(x.to_bits()), x == 0.0, "{x}");
    }
}

#[test]
fn negation_matches_floats() {
    for x in samples() {
        assert_eq!(negate(x.to_bits()), (-x).to_bits(), "{x}");
    }
}

#[test]
fn equality_matches_floats() {
    for x in samples() {
        for y in samples() {
            assert_eq!(numbers_equal(x.to_bits(), y.to_bits()), x == y, "{x} {y}");
        }
    }
}

#[test]
fn order_matches_floats() {
    for x in samples() {
        for y in samples() {
            assert_eq!(
                compare_numbers(x.to_bits(), y.to_bits()),
                expected_order(x, y),
                "{x} {y}"
            );
        }
    }
}

#[test]
fn repeat_count_matches_saturating_cast() {
    for x in samples() {
        assert_eq!(repeat_count(x.to_bits()), x as usize, "{x}");
    }
    for bits in (0u32..=0xffff_ffff).step_by(0x0001_0fff) {
        let x = f32::from_bits(bits);
        assert_eq!(repeat_count(bits), x as usize, "{bits:#x}");
    }
}

#[test]
fn repeat_count_exact_values() {
    assert_eq!(repeat_count(3.0f32.to_bits()), 3);
    assert_eq!(repeat_count(3.99f32.to_bits()), 3);
    assert_eq!(repeat_count((-2.0f32).to_bits()), 0);
    assert_eq!(repeat_count(f32::NAN.to_bits()), 0);
    assert_eq!(repeat_count(f32::INFINITY.to_bits()), usize::MAX);
}

#[test]
fn negation_twice_gives_number_back() {
    for x in samples() {
        assert_eq!(negate(negate(x.to_bits())), x.to_bits());
    }
}

#[test]
fn zeros_are_equal_and_nan_is_not() {
    assert!(numbers_equal(0.0f32.to_bits(), (-0.0f32).to_bits()));
    assert!(!numbers_equal(f32::NAN.to_bits(), f32::NAN.to_bits()));
    assert_eq!(compare_numbers(f32::NAN.to_bits(), 1.0f32.to_bits()), None);
}
