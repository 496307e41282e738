use cs_flythrough::recording::{HeldKeys, Key, Movement, RecordingAction};

#[test]
fn first_press_acts_repeats_do_not() {
    let mut keys = HeldKeys::new();
    assert_eq!(keys.press(Key::F), RecordingAction::DropWaypoint);
    assert_eq!(keys.press(Key::F), RecordingAction::Nothing);
    keys.release(Key::F);
    assert_eq!(keys.press(Key::F), RecordingAction::DropWaypoint);
    assert_eq!(keys.press(Key::Z), RecordingAction::UndoWaypoint);
    assert_eq!(keys.press(Key::W), RecordingAction::Nothing);
}

#[test]
fn enter_and_escape_end_without_being_held() {
    let mut keys = HeldKeys::new();
    assert_eq!(keys.press(Key::Enter), RecordingAction::SaveAndExit);
    assert!(!keys.is_held(Key::Enter));
    assert_eq!(keys.press(Key::Enter), RecordingAction::SaveAndExit);
    assert_eq!(keys.press(Key::Escape), RecordingAction::Cancel);
    assert!(!keys.is_held(Key::Escape));
}

#[test]
fn held_keys_drive_movement() {
    let mut keys = HeldKeys::new();
    let none = Movement { forward: false, back: false, left: false, right: false, up: false, down: false, fast: false };
    assert_eq!(keys.movement(), none);
    keys.press(Key::W);
    keys.press(Key::ShiftRight);
    keys.press(Key::ControlLeft);
    keys.press(Key::Other(7));
    let m = keys.movement();
    assert!(m.forward && m.fast && m.down);
    assert!(!m.back && !m.left && !m.right && !m.up);
    keys.release(Key::ShiftRight);
    keys.release(Key::W);
    let m = keys.movement();
    assert!(!m.forward && !m.fast && m.down);
    assert!(keys.is_held(Key::Other(7)));
    keys.release(Key::S);
    assert!(keys.is_held(Key::ControlLeft));
}
