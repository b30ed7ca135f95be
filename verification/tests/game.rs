use asteroids::game::{Asteroid, InputMode, Player};

#[test]
fn test_input_modes_differ() {
    assert_ne!(InputMode::Mouse, InputMode::Touch);
    assert_eq!(InputMode::Touch, InputMode::Touch.clone());
}

#[test]
fn test_markers_carry_no_data() {
    assert_eq!(std::mem::size_of::<Asteroid>(), 0);
    assert_eq!(Player, Player::default());
}
