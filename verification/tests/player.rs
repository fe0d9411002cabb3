use rust_doom::input::{ElementState, Gesture, Input, InputEvent, MouseButton, Scancode};
use rust_doom::level::PlayerAction;
use rust_doom::player::{clamp, player_action, Modes};

#[test]
fn clamp_pulls_into_limits() {
    assert_eq!(clamp(5, (0, 10)), 5);
    assert_eq!(clamp(-5, (0, 10)), 0);
    assert_eq!(clamp(15, (0, 10)), 10);
    assert_eq!(clamp(0.25f32, (0.0, 1.0)), 0.25);
    assert_eq!(clamp(1.5f32, (0.0, 1.0)), 1.0);
    assert_eq!(clamp(-2.0f32, (-1.5, 1.5)), -1.5);
    assert!(clamp(f32::NAN, (0.0, 1.0)).is_nan());
}

#[test]
fn modes_toggle_on_their_gestures() {
    let mut input = Input::create();
    let fly = Gesture::KeyTrigger(Scancode(40));
    let clip = Gesture::KeyTrigger(Scancode(41));
    let mut modes = Modes::new();
    assert_eq!(modes, Modes { fly: false, clip: true });
    input.handle_event(InputEvent::Key { state: ElementState::Pressed, code: Scancode(40) });
    modes.toggle(&input, &fly, &clip);
    assert_eq!(modes, Modes { fly: true, clip: true });
    input.reset();
    input.handle_event(InputEvent::Key { state: ElementState::Pressed, code: Scancode(41) });
    modes.toggle(&input, &fly, &clip);
    assert_eq!(modes, Modes { fly: true, clip: false });
}

#[test]
fn push_wins_over_shoot() {
    let mut input = Input::create();
    let push = Gesture::KeyTrigger(Scancode(30));
    let shoot = Gesture::ButtonTrigger(MouseButton::Left);
    assert_eq!(player_action(&input, &push, &shoot), None);
    input.handle_event(InputEvent::Button { button: 1, state: ElementState::Pressed });
    assert_eq!(player_action(&input, &push, &shoot), Some(PlayerAction::Shoot));
    input.handle_event(InputEvent::Key { state: ElementState::Pressed, code: Scancode(30) });
    assert_eq!(player_action(&input, &push, &shoot), Some(PlayerAction::Push));
}

#[test]
fn clamping_twice_changes_nothing() {
    for value in [-20i64, -1, 0, 3, 10, 11, 99] {
        let once = clamp(value, (0, 10));
        assert!(0 <= once && once <= 10);
        assert_eq!(clamp(once, (0, 10)), once);
    }
}
