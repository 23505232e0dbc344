use whirlpool_price::{sqrt_u128, sqrt_u128_ceil};

#[test]
fn floor_sqrt_small_values() {
    let expected = [0u128, 1, 1, 1, 2, 2, 2, 2, 2, 3, 3];
    for (v, r) in expected.iter().enumerate() {
        assert_eq!(sqrt_u128(v as u128), *r);
    }
}

#[test]
fn floor_sqrt_exact_and_near_squares() {
    assert_eq!(sqrt_u128(10_000_000_000), 100_000);
    assert_eq!(sqrt_u128(9_999_999_999), 99_999);
    assert_eq!(sqrt_u128(9_900_000_000), 99_498);
}

#[test]
fn floor_sqrt_of_largest_value() {
    assert_eq!(sqrt_u128(u128::MAX), 18446744073709551615);
}

#[test]
fn floor_sqrt_brackets_value() {
    let values = [2u128, 3, 15, 16, 17, 99, 1 << 64, (1 << 100) + 12345, u128::MAX - 1];
    for v in values {
        let r = sqrt_u128(v);
        assert!(r * r <= v);
        assert!((r + 1).checked_mul(r + 1).map_or(true, |s| v < s));
    }
}

#[test]
fn ceil_sqrt_small_values() {
    let expected = [0u128, 1, 2, 2, 2, 3, 3, 3, 3, 3, 4];
    for (v, r) in expected.iter().enumerate() {
        assert_eq!(sqrt_u128_ceil(v as u128), *r);
    }
}

#[test]
fn ceil_sqrt_exact_and_near_squares() {
    assert_eq!(sqrt_u128_ceil(10_000_000_000), 100_000);
    assert_eq!(sqrt_u128_ceil(10_000_000_001), 100_001);
    assert_eq!(sqrt_u128_ceil(10_100_000_000), 100_499);
}

#[test]
fn ceil_sqrt_of_largest_value() {
    assert_eq!(sqrt_u128_ceil(u128::MAX), 18446744073709551616);
}

#[test]
fn ceil_sqrt_brackets_value() {
    let values = [2u128, 3, 15, 16, 17, 99, 1 << 64, (1 << 100) + 12345];
    for v in values {
        let r = sqrt_u128_ceil(v);
        assert!(r * r >= v);
        assert!(r == 0 || (r - 1) * (r - 1) < v);
    }
}
