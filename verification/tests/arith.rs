use asteroids::arith::{isqrt, lerp};

#[test]
fn test_isqrt_exact_values() {
    assert_eq!(isqrt(0), 0);
    assert_eq!(isqrt(1), 1);
    assert_eq!(isqrt(3), 1);
    assert_eq!(isqrt(4), 2);
    assert_eq!(isqrt(99), 9);
    assert_eq!(isqrt(100), 10);
    assert_eq!(isqrt(1 << 64), 1 << 32);
    assert_eq!(isqrt((1 << 64) - 1), (1 << 32) - 1);
    assert_eq!(isqrt(u128::MAX), u64::MAX);
}

#[test]
fn test_lerp_rounds_halves_away_from_zero() {
    assert_eq!(lerp(10, 1, 4), 3);
    assert_eq!(lerp(-10, 1, 4), -3);
    assert_eq!(lerp(10, -1, 4), -3);
    assert_eq!(lerp(9, 1, 4), 2);
    assert_eq!(lerp(11, 1, 4), 3);
    assert_eq!(lerp(0, 3, 4), 0);
    assert_eq!(lerp(7, 4, 4), 7);
    assert_eq!(lerp(7, 0, 4), 0);
}
