use space_game::input::{InputState, KeyState, KEY_LEFT, KEY_SPACE};

#[test]
fn press_is_reported_once() {
    let mut input = InputState::new();
    input.update(KEY_SPACE, KeyState::Pressed);
    assert!(input.is_key_down(KEY_SPACE));
    assert!(input.was_key_pressed(KEY_SPACE));
    assert!(!input.was_key_pressed(KEY_SPACE));
}

#[test]
fn holding_a_key_does_not_repeat_the_press() {
    let mut input = InputState::new();
    input.update(KEY_SPACE, KeyState::Pressed);
    input.clear_just_pressed();
    input.update(KEY_SPACE, KeyState::Pressed);
    assert!(!input.was_key_pressed(KEY_SPACE));
    input.update(KEY_SPACE, KeyState::Released);
    input.update(KEY_SPACE, KeyState::Pressed);
    assert!(input.was_key_pressed(KEY_SPACE));
}

#[test]
fn keys_are_independent() {
    let mut input = InputState::new();
    input.update(KEY_LEFT, KeyState::Pressed);
    input.update(KEY_SPACE, KeyState::Pressed);
    input.update(KEY_SPACE, KeyState::Released);
    assert!(input.is_key_down(KEY_LEFT));
    assert!(!input.is_key_down(KEY_SPACE));
}

#[test]
fn clear_keeps_keys_down() {
    let mut input = InputState::new();
    input.update(KEY_LEFT, KeyState::Pressed);
    input.clear_just_pressed();
    assert!(input.is_key_down(KEY_LEFT));
    assert!(!input.was_key_pressed(KEY_LEFT));
}

