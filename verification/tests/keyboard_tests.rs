use alloy_engine::keyboard::{Key, KeyboardManager};

#[test]
fn new_keyboard_has_nothing_down() {
    let kb = KeyboardManager::new();
    assert!(!kb.is_key_down(Key::A));
    assert!(!kb.is_key_pressed(Key::A));
    assert!(!kb.is_key_released(Key::A));
}

#[test]
fn press_reports_down_and_pressed() {
    let mut kb = KeyboardManager::new();
    kb.register_press(Key::W);
    assert!(kb.is_key_down(Key::W));
    assert!(kb.is_key_pressed(Key::W));
    assert!(!kb.is_key_released(Key::W));
    assert!(!kb.is_key_down(Key::S));
}

#[test]
fn pressed_lasts_one_frame_down_stays() {
    let mut kb = KeyboardManager::new();
    kb.register_press(Key::Space);
    kb.begin_frame();
    assert!(kb.is_key_down(Key::Space));
    assert!(!kb.is_key_pressed(Key::Space));
    // Key repeat while held is not a new press.
    kb.register_press(Key::Space);
    assert!(!kb.is_key_pressed(Key::Space));
    assert!(kb.is_key_down(Key::Space));
}

#[test]
fn release_reports_released_once() {
    let mut kb = KeyboardManager::new();
    kb.register_press(Key::Shift);
    kb.begin_frame();
    kb.register_release(Key::Shift);
    assert!(!kb.is_key_down(Key::Shift));
    assert!(kb.is_key_released(Key::Shift));
    kb.begin_frame();
    assert!(!kb.is_key_released(Key::Shift));
}

#[test]
fn release_of_key_not_held_is_ignored() {
    let mut kb = KeyboardManager::new();
    kb.register_release(Key::Q);
    assert!(!kb.is_key_released(Key::Q));
    assert!(!kb.is_key_down(Key::Q));
}

#[test]
fn press_and_release_in_one_frame() {
    let mut kb = KeyboardManager::new();
    kb.register_press(Key::Num5);
    kb.register_release(Key::Num5);
    assert!(!kb.is_key_down(Key::Num5));
    assert!(kb.is_key_pressed(Key::Num5));
    assert!(kb.is_key_released(Key::Num5));
}

#[test]
fn distinct_keys_do_not_interfere() {
    let mut kb = KeyboardManager::new();
    kb.register_press(Key::Up);
    kb.register_press(Key::Down);
    kb.register_release(Key::Up);
    assert!(!kb.is_key_down(Key::Up));
    assert!(kb.is_key_down(Key::Down));
    assert!(kb.is_key_released(Key::Up));
    assert!(!kb.is_key_released(Key::Down));
}

#[test]
fn unknown_key_events_are_ignored() {
    let mut kb = KeyboardManager::new();
    kb.register_event(Key::Unknown, true);
    assert!(!kb.is_key_down(Key::Unknown));
    assert!(!kb.is_key_pressed(Key::Unknown));
    kb.register_event(Key::Tab, true);
    assert!(kb.is_key_down(Key::Tab));
    kb.register_event(Key::Tab, false);
    assert!(!kb.is_key_down(Key::Tab));
    assert!(kb.is_key_released(Key::Tab));
}

#[test]
fn key_codes_are_distinct() {
    let keys = [
        Key::A, Key::B, Key::C, Key::D, Key::E, Key::F, Key::G, Key::H, Key::I, Key::J, Key::K,
        Key::L, Key::M, Key::N, Key::O, Key::P, Key::Q, Key::R, Key::S, Key::T, Key::U, Key::V,
        Key::W, Key::X, Key::Y, Key::Z, Key::Num0, Key::Num1, Key::Num2, Key::Num3, Key::Num4,
        Key::Num5, Key::Num6, Key::Num7, Key::Num8, Key::Num9, Key::Up, Key::Down, Key::Left,
        Key::Right, Key::Space, Key::Enter, Key::Escape, Key::Shift, Key::Control, Key::Alt,
        Key::Tab, Key::Unknown,
    ];
    for (i, a) in keys.iter().enumerate() {
        assert_eq!(a.code() as usize, i);
    }
}
