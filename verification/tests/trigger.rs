use launcher_core::trigger::{
    button_event, Button, ButtonEvent, InputListener, MouseState, BTN_LEFT, BTN_RIGHT,
};

const MS: u64 = 1_000_000;

#[test]
fn test_trigger_detection() {
    let mut listener = InputListener::new(50, 500);
    let t0: u64 = 10_000 * MS;
    let first = listener.handle_button(Button::Left, true, t0);
    assert!(first.is_none());
    let second = listener.handle_button(Button::Right, true, t0 + MS);
    assert!(second.is_some());
}

#[test]
fn test_debounce() {
    let mut listener = InputListener::new(50, 1000);
    let t0: u64 = 10_000 * MS;
    assert!(listener.handle_button(Button::Left, true, t0).is_none());
    assert!(listener.handle_button(Button::Right, true, t0 + MS).is_some());
    assert!(listener.handle_button(Button::Left, false, t0 + 2 * MS).is_none());
    assert!(listener.handle_button(Button::Right, false, t0 + 3 * MS).is_none());
    assert!(listener.handle_button(Button::Left, true, t0 + 4 * MS).is_none());
    assert!(listener.handle_button(Button::Right, true, t0 + 5 * MS).is_none());
}

#[test]
fn chord_then_debounced_chord_then_accepted_chord() {
    let mut listener = InputListener::new(200, 500);
    let t0: u64 = 3_000 * MS;
    assert!(listener.handle_button(Button::Left, true, t0).is_none());
    let first = listener.handle_button(Button::Right, true, t0 + 50 * MS);
    assert_eq!(first.map(|t| t.timestamp), Some(t0 + 50 * MS));
    // the same chord again, too soon
    assert!(listener.handle_button(Button::Left, false, t0 + 60 * MS).is_none());
    assert!(listener.handle_button(Button::Right, false, t0 + 60 * MS).is_none());
    assert!(listener.handle_button(Button::Left, true, t0 + 100 * MS).is_none());
    assert!(listener.handle_button(Button::Right, true, t0 + 150 * MS).is_none());
    // and once more, after the debounce time
    assert!(listener.handle_button(Button::Left, false, t0 + 160 * MS).is_none());
    assert!(listener.handle_button(Button::Right, false, t0 + 160 * MS).is_none());
    assert!(listener.handle_button(Button::Left, true, t0 + 600 * MS).is_none());
    let second = listener.handle_button(Button::Right, true, t0 + 650 * MS);
    assert_eq!(second.map(|t| t.timestamp), Some(t0 + 650 * MS));
}

#[test]
fn batch_of_events_emits_the_same_triggers() {
    let mut listener = InputListener::new(200, 500);
    let t0: u64 = 3_000 * MS;
    let press = |button, at| ButtonEvent { button, pressed: true, timestamp: at };
    let release = |button, at| ButtonEvent { button, pressed: false, timestamp: at };
    let events = vec![
        press(Button::Left, t0),
        press(Button::Right, t0 + 50 * MS),
        release(Button::Left, t0 + 60 * MS),
        release(Button::Right, t0 + 60 * MS),
        press(Button::Left, t0 + 100 * MS),
        press(Button::Right, t0 + 150 * MS),
        release(Button::Left, t0 + 160 * MS),
        release(Button::Right, t0 + 160 * MS),
        press(Button::Left, t0 + 600 * MS),
        press(Button::Right, t0 + 650 * MS),
    ];
    let triggers = listener.handle_events(&events);
    assert_eq!(triggers.len(), 2);
    assert_eq!(triggers[0].timestamp, t0 + 50 * MS);
    assert_eq!(triggers[1].timestamp, t0 + 650 * MS);
    assert_eq!(listener.state.last_trigger, Some(t0 + 650 * MS));
}

#[test]
fn trigger_clears_both_buttons() {
    let mut listener = InputListener::new(200, 0);
    assert!(listener.handle_button(Button::Left, true, 1_000).is_none());
    assert!(listener.handle_button(Button::Right, true, 2_000).is_some());
    assert_eq!(listener.state.left_pressed, None);
    assert_eq!(listener.state.right_pressed, None);
    // pressing one button again, without the other, fires nothing
    assert!(listener.handle_button(Button::Right, true, 3_000).is_none());
    assert!(listener.handle_button(Button::Right, true, 4_000).is_none());
    assert!(listener.handle_button(Button::Right, false, 5_000).is_none());
    assert!(listener.handle_button(Button::Right, true, 6_000).is_none());
    // the other button, freshly pressed, completes a new chord
    assert!(listener.handle_button(Button::Left, true, 7_000).is_some());
}

#[test]
fn debounce_boundary_is_inclusive() {
    let mut listener = InputListener::new(200, 500);
    let t0: u64 = 1_000 * MS;
    listener.handle_button(Button::Left, true, t0);
    assert!(listener.handle_button(Button::Right, true, t0).is_some());
    listener.handle_button(Button::Left, true, t0 + 499 * MS);
    assert!(listener.handle_button(Button::Right, true, t0 + 500 * MS - 1).is_none());
    // both are still held: a refreshed press exactly at the debounce time fires
    assert!(listener.handle_button(Button::Right, true, t0 + 500 * MS).is_some());
}

#[test]
fn threshold_boundary_is_inclusive() {
    let mut listener = InputListener::new(200, 500);
    listener.handle_button(Button::Left, true, 5 * MS);
    assert!(listener.handle_button(Button::Right, true, 205 * MS + 1).is_none());
    assert!(listener.handle_button(Button::Right, true, 205 * MS).is_some());
}

#[test]
fn release_of_unpressed_button_is_no_op() {
    let mut listener = InputListener::new(200, 500);
    assert!(listener.handle_button(Button::Left, false, 10).is_none());
    assert_eq!(listener.state.left_pressed, None);
    assert_eq!(listener.state.right_pressed, None);
    assert_eq!(listener.state.last_trigger, None);
}

#[test]
fn second_press_refreshes_the_time() {
    let mut listener = InputListener::new(200, 500);
    listener.handle_button(Button::Left, true, 10 * MS);
    listener.handle_button(Button::Left, true, 900 * MS);
    assert_eq!(listener.state.left_pressed, Some(900 * MS));
    assert!(listener.handle_button(Button::Right, true, 1_000 * MS).is_some());
}

#[test]
fn release_breaks_the_chord() {
    let mut listener = InputListener::new(200, 500);
    listener.handle_button(Button::Left, true, 10 * MS);
    listener.handle_button(Button::Left, false, 20 * MS);
    assert!(listener.handle_button(Button::Right, true, 30 * MS).is_none());
}

#[test]
fn clock_that_steps_back_counts_as_no_time_passed() {
    let mut listener = InputListener::new(200, 500);
    listener.handle_button(Button::Left, true, 1_000 * MS);
    assert!(listener.handle_button(Button::Right, true, 1_000 * MS).is_some());
    listener.handle_button(Button::Left, true, 10 * MS);
    assert!(listener.handle_button(Button::Right, true, 20 * MS).is_none());
}

#[test]
fn trigger_carries_cursor_position() {
    let mut listener = InputListener::new(200, 500);
    listener.handle_button(Button::Left, true, 10);
    let t = listener.handle_button(Button::Right, true, 20).unwrap();
    assert_eq!(t.position, (0, 0));
    listener.set_cursor(640, 480);
    listener.handle_button(Button::Left, true, 1_000 * MS);
    let t = listener.handle_button(Button::Right, true, 1_000 * MS).unwrap();
    assert_eq!(t.position, (640, 480));
    assert_eq!(t.timestamp, 1_000 * MS);
}

#[test]
fn check_trigger_alone_evaluates_the_state() {
    let mut listener = InputListener::new(50, 500);
    listener.state = MouseState {
        left_pressed: Some(100 * MS),
        right_pressed: Some(149 * MS),
        last_trigger: None,
        cursor: None,
    };
    assert!(listener.check_trigger(150 * MS).is_some());
    assert!(listener.check_trigger(151 * MS).is_none());
    let fresh = MouseState::default();
    assert_eq!(fresh.left_pressed, None);
    assert_eq!(fresh.last_trigger, None);
}

#[test]
fn huge_thresholds_do_not_overflow() {
    let mut listener = InputListener::new(u64::MAX, u64::MAX);
    listener.handle_button(Button::Left, true, 0);
    assert!(listener.handle_button(Button::Right, true, u64::MAX).is_some());
    listener.handle_button(Button::Left, true, u64::MAX);
    assert!(listener.handle_button(Button::Right, true, u64::MAX).is_none());
}

#[test]
fn keys_of_the_device_become_button_events() {
    let down = button_event(BTN_LEFT, 1, 7).unwrap();
    assert_eq!(down.button, Button::Left);
    assert!(down.pressed);
    assert_eq!(down.timestamp, 7);
    let up = button_event(BTN_RIGHT, 0, 8).unwrap();
    assert_eq!(up.button, Button::Right);
    assert!(!up.pressed);
    // a key that repeats counts as released
    assert!(!button_event(BTN_LEFT, 2, 9).unwrap().pressed);
    assert!(button_event(0x112, 1, 9).is_none());
    assert_eq!(BTN_LEFT, 272);
    assert_eq!(BTN_RIGHT, 273);
    let mut listener = InputListener::new(200, 500);
    assert!(listener.handle_key(BTN_LEFT, 1, 1_000).is_none());
    assert!(listener.handle_key(0x112, 1, 1_500).is_none());
    assert!(listener.handle_key(BTN_RIGHT, 1, 2_000).is_some());
}
