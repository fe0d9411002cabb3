use rust_doom::input::{
    mouse_button_to_index, ElementState, Gesture, Input, InputEvent, MouseButton, Scancode,
};

fn key(state: ElementState, code: u32) -> InputEvent {
    InputEvent::Key { state, code: Scancode(code) }
}

#[test]
fn mouse_buttons_have_fixed_slots() {
    assert_eq!(mouse_button_to_index(MouseButton::Left), 1);
    assert_eq!(mouse_button_to_index(MouseButton::Middle), 2);
    assert_eq!(mouse_button_to_index(MouseButton::Right), 3);
    assert_eq!(mouse_button_to_index(MouseButton::Other(0)), 4);
    assert_eq!(mouse_button_to_index(MouseButton::Other(250)), 254);
    assert_eq!(mouse_button_to_index(MouseButton::Other(251)), 255);
    assert_eq!(mouse_button_to_index(MouseButton::Other(1000)), 255);
}

#[test]
fn key_trigger_fires_only_in_the_update_it_went_down() {
    let mut input = Input::create();
    assert!(!input.poll_gesture(&Gesture::KeyHold(Scancode(5))));
    input.handle_event(key(ElementState::Pressed, 5));
    assert!(input.poll_gesture(&Gesture::KeyTrigger(Scancode(5))));
    assert!(input.poll_gesture(&Gesture::KeyHold(Scancode(5))));
    input.reset();
    assert!(!input.poll_gesture(&Gesture::KeyTrigger(Scancode(5))));
    assert!(input.poll_gesture(&Gesture::KeyHold(Scancode(5))));
    input.handle_event(key(ElementState::Released, 5));
    assert!(!input.poll_gesture(&Gesture::KeyHold(Scancode(5))));
}

#[test]
fn unknown_key_codes_are_ignored() {
    let mut input = Input::create();
    input.handle_event(key(ElementState::Pressed, 4000));
    assert!(!input.poll_gesture(&Gesture::NoGesture));
}

#[test]
fn combined_gestures() {
    let mut input = Input::create();
    input.handle_event(key(ElementState::Pressed, 1));
    input.reset();
    input.handle_event(key(ElementState::Pressed, 2));
    let both = Gesture::AllOf(vec![Gesture::KeyHold(Scancode(1)), Gesture::KeyTrigger(Scancode(2))]);
    let either = Gesture::AnyOf(vec![Gesture::KeyTrigger(Scancode(1)), Gesture::KeyTrigger(Scancode(3))]);
    assert!(input.poll_gesture(&both));
    assert!(!input.poll_gesture(&either));
    assert!(!input.poll_gesture(&Gesture::AnyOf(vec![])));
    assert!(input.poll_gesture(&Gesture::AllOf(vec![])));
}

#[test]
fn quit_trigger_follows_close_request() {
    let mut input = Input::create();
    assert!(!input.poll_gesture(&Gesture::QuitTrigger));
    input.handle_event(InputEvent::CloseRequested);
    assert!(input.poll_gesture(&Gesture::QuitTrigger));
    input.reset();
    assert!(!input.poll_gesture(&Gesture::QuitTrigger));
}

#[test]
fn mouse_buttons_only_count_when_enabled() {
    let mut input = Input::create();
    input.handle_event(InputEvent::Button { button: 1, state: ElementState::Pressed });
    assert!(input.poll_gesture(&Gesture::ButtonHold(MouseButton::Left)));
    input.set_mouse_enabled(false);
    assert!(!input.mouse_enabled());
    input.handle_event(InputEvent::Button { button: 3, state: ElementState::Pressed });
    assert!(!input.poll_gesture(&Gesture::ButtonTrigger(MouseButton::Right)));
}

#[test]
fn step_ends_when_new_events_are_cleared() {
    let mut input = Input::create();
    assert!(!input.handle_event(InputEvent::MainEventsCleared));
    assert!(!input.handle_event(InputEvent::NewEvents));
    assert!(input.handle_event(InputEvent::MainEventsCleared));
    assert!(!input.handle_event(InputEvent::MainEventsCleared));
    assert!(!input.handle_event(InputEvent::WaitCancelled));
}

#[test]
fn cursor_grab_is_synced_once() {
    let mut input = Input::create();
    assert_eq!(input.sync_cursor_grab(), Some(true));
    assert_eq!(input.sync_cursor_grab(), None);
    input.set_cursor_grabbed(false);
    assert_eq!(input.sync_cursor_grab(), Some(false));
}

#[test]
fn empty_combinations_and_combined_gestures() {
    let mut input = Input::create();
    assert!(!input.poll_gesture(&Gesture::AnyOf(vec![])));
    assert!(input.poll_gesture(&Gesture::AllOf(vec![])));
    input.handle_event(key(ElementState::Pressed, 7));
    let held = Gesture::KeyHold(Scancode(7));
    let idle = Gesture::KeyHold(Scancode(8));
    assert!(input.poll_gesture(&Gesture::AnyOf(vec![Gesture::KeyHold(Scancode(8)), Gesture::KeyHold(Scancode(7))])));
    assert!(!input.poll_gesture(&Gesture::AllOf(vec![Gesture::KeyHold(Scancode(8)), Gesture::KeyHold(Scancode(7))])));
    assert!(input.poll_gesture(&held));
    assert!(!input.poll_gesture(&idle));
}
