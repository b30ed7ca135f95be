use asteroids::vec2::{Plane2d, Vec2, COORD_LIMIT, LINE_LIMIT, MERGE_TOLERANCE, STEPS_PER_UNIT};

#[test]
fn test_vec2_arithmetic() {
    assert_eq!(Vec2::zero(), Vec2::new(0, 0));
    assert_eq!(Vec2::new(3, -4).plus(Vec2::new(-1, 10)), Vec2::new(2, 6));
    // A quarter turn counter-clockwise.
    assert_eq!(Vec2::new(1, 0).perp(), Vec2::new(0, 1));
    assert_eq!(Vec2::new(0, 1).perp(), Vec2::new(-1, 0));
    assert_eq!(Vec2::new(3, -4).perp().perp(), Vec2::new(-3, 4));
    assert_eq!(Plane2d::new(Vec2::new(5, 6)).normal, Vec2::new(5, 6));
}

#[test]
fn test_vec2_is_within() {
    assert!(Vec2::new(COORD_LIMIT, -COORD_LIMIT).is_within(COORD_LIMIT));
    assert!(!Vec2::new(COORD_LIMIT + 1, 0).is_within(COORD_LIMIT));
    assert!(!Vec2::new(0, -COORD_LIMIT - 1).is_within(COORD_LIMIT));
    assert!(Vec2::new(COORD_LIMIT + 1, 0).is_within(LINE_LIMIT));
    assert!(Vec2::zero().is_within(0));
}

#[test]
fn test_lattice_constants() {
    assert_eq!(COORD_LIMIT, 1 << 30);
    assert_eq!(LINE_LIMIT, 2 * COORD_LIMIT);
    assert_eq!(2 * MERGE_TOLERANCE, STEPS_PER_UNIT);
}
