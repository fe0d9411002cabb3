use rust_doom::context::ControlFlow;
use rust_doom::hud::{BindingKeys, Bindings, Hud, TextChanges};
use rust_doom::input::{ElementState, Input, InputEvent, Scancode};
use rust_doom::wad_system::WadSystem;

const KEYS: BindingKeys = BindingKeys {
    escape: Scancode(36),
    left_control: Scancode(116),
    n: Scancode(23),
    p: Scancode(25),
    grave: Scancode(108),
    h: Scancode(17),
};

fn press(input: &mut Input, code: Scancode) {
    input.handle_event(InputEvent::Key { state: ElementState::Pressed, code });
}

#[test]
fn help_cycles_from_prompt_to_shown_to_hidden() {
    let mut input = Input::create();
    let bindings = Bindings::with_keys(KEYS);
    let mut control_flow = ControlFlow { quit_requested: false };
    let mut wad = WadSystem::create(0, 2).unwrap();
    let mut hud = Hud::create(&mut input);

    let none = TextChanges { prompt_visible: None, help_visible: None };
    assert_eq!(hud.update(&mut input, &bindings, &mut control_flow, &mut wad), none);

    input.reset();
    press(&mut input, KEYS.h);
    assert_eq!(
        hud.update(&mut input, &bindings, &mut control_flow, &mut wad),
        TextChanges { prompt_visible: Some(false), help_visible: Some(true) }
    );
    input.reset();
    press(&mut input, KEYS.h);
    assert_eq!(
        hud.update(&mut input, &bindings, &mut control_flow, &mut wad),
        TextChanges { prompt_visible: None, help_visible: Some(false) }
    );
    input.reset();
    press(&mut input, KEYS.h);
    assert_eq!(
        hud.update(&mut input, &bindings, &mut control_flow, &mut wad),
        TextChanges { prompt_visible: None, help_visible: Some(true) }
    );
    assert!(!control_flow.quit_requested);
}

#[test]
fn escape_or_close_request_quits() {
    let mut input = Input::create();
    let bindings = Bindings::with_keys(KEYS);
    let mut control_flow = ControlFlow { quit_requested: false };
    let mut wad = WadSystem::create(0, 2).unwrap();
    let mut hud = Hud::create(&mut input);
    press(&mut input, KEYS.escape);
    hud.update(&mut input, &bindings, &mut control_flow, &mut wad);
    assert!(control_flow.quit_requested);

    let mut input = Input::create();
    let mut control_flow = ControlFlow { quit_requested: false };
    input.handle_event(InputEvent::CloseRequested);
    hud.update(&mut input, &bindings, &mut control_flow, &mut wad);
    assert!(control_flow.quit_requested);
}

#[test]
fn control_n_and_p_change_level() {
    let mut input = Input::create();
    let bindings = Bindings::with_keys(KEYS);
    let mut control_flow = ControlFlow { quit_requested: false };
    let mut wad = WadSystem::create(0, 2).unwrap();
    let mut hud = Hud::create(&mut input);

    press(&mut input, KEYS.p);
    hud.update(&mut input, &bindings, &mut control_flow, &mut wad);
    assert_eq!(wad.begin_update(), None);

    input.reset();
    press(&mut input, KEYS.left_control);
    press(&mut input, KEYS.p);
    hud.update(&mut input, &bindings, &mut control_flow, &mut wad);
    assert_eq!(wad.begin_update(), None);

    input.reset();
    press(&mut input, KEYS.n);
    hud.update(&mut input, &bindings, &mut control_flow, &mut wad);
    assert_eq!(wad.begin_update(), Some(1));

    input.reset();
    press(&mut input, KEYS.p);
    hud.update(&mut input, &bindings, &mut control_flow, &mut wad);
    assert_eq!(wad.begin_update(), Some(0));
}

#[test]
fn backtick_toggles_mouse_grab() {
    let mut input = Input::create();
    let bindings = Bindings::with_keys(KEYS);
    let mut control_flow = ControlFlow { quit_requested: false };
    let mut wad = WadSystem::create(0, 1).unwrap();
    let mut hud = Hud::create(&mut input);
    assert_eq!(input.sync_cursor_grab(), Some(true));
    press(&mut input, KEYS.grave);
    hud.update(&mut input, &bindings, &mut control_flow, &mut wad);
    assert!(!input.mouse_enabled());
    assert_eq!(input.sync_cursor_grab(), Some(false));
    input.reset();
    press(&mut input, KEYS.grave);
    hud.update(&mut input, &bindings, &mut control_flow, &mut wad);
    assert!(input.mouse_enabled());
    assert_eq!(input.sync_cursor_grab(), Some(true));
}
