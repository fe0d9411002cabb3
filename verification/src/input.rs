//! Keyboard and mouse state, updated from window events and polled through gestures.
//!
//! Each key and mouse button remembers whether it is up or down and the update index at which
//! it last changed; a trigger gesture fires only during the update in which its key went down.
use vstd::prelude::*;

verus! {

/// How many key codes the keyboard state tracks.
pub const NUM_SCAN_CODES: usize = 512;

/// How many mouse buttons the mouse state tracks.
pub const NUM_MOUSE_BUTTONS: usize = 256;

/// Counts the updates of the input state.
pub type UpdateIndex = u32;

/// A key, by the number of its virtual key code.
#[derive(Clone, Copy, PartialEq, Eq, Structural, Debug)]
pub struct Scancode(pub u32);

/// A mouse button, as the window reports it.
#[derive(Clone, Copy, PartialEq, Eq, Structural, Debug)]
pub enum MouseButton {
    Left,
    Right,
    Middle,
    Other(u16),
}

/// Whether a key or button went down or up.
#[derive(Clone, Copy, PartialEq, Eq, Structural, Debug)]
pub enum ElementState {
    Pressed,
    Released,
}

/// A key or button: up or down since the given update.
#[derive(Clone, Copy, PartialEq, Eq, Structural, Debug)]
pub enum ButtonState {
    Up(UpdateIndex),
    Down(UpdateIndex),
}

/// The update at which a key or button last changed.
pub open spec fn changed_at(state: ButtonState) -> UpdateIndex {
    match state {
        ButtonState::Up(index) => index,
        ButtonState::Down(index) => index,
    }
}

/// A combination of keys and buttons that the game polls for.
pub enum Gesture {
    NoGesture,
    KeyHold(Scancode),
    KeyTrigger(Scancode),
    ButtonHold(MouseButton),
    ButtonTrigger(MouseButton),
    AnyOf(Vec<Gesture>),
    AllOf(Vec<Gesture>),
    QuitTrigger,
}

/// The window events that change the input state, as the window layer hands them over.
/// Mouse motion is kept by the caller, which asks `mouse_enabled` first.
#[derive(Clone, Copy, PartialEq, Eq, Debug)]
pub enum InputEvent {
    /// A wait for events was cancelled.
    WaitCancelled,
    /// A requested resume time was reached, but it still lies in the future.
    EarlyResume,
    /// Any other start of a batch of events: a new step begins.
    NewEvents,
    /// The batch of events is over.
    MainEventsCleared,
    /// The window was asked to close.
    CloseRequested,
    /// A key with a known virtual key code went down or up.
    Key { state: ElementState, code: Scancode },
    /// A raw mouse button went down or up.
    Button { button: u32, state: ElementState },
    /// Anything else.
    Other,
}

/// The slot of a mouse button in the mouse state.
pub open spec fn mouse_button_slot(button: MouseButton) -> int {
    match button {
        MouseButton::Left => 1,
        MouseButton::Middle => 2,
        MouseButton::Right => 3,
        MouseButton::Other(index) => if index + 4 < NUM_MOUSE_BUTTONS - 1 {
            index + 4
        } else {
            NUM_MOUSE_BUTTONS - 1
        },
    }
}

/// A button's slot fits its number plus four in a `u16`, as the slot computation does.
pub open spec fn button_ok(button: MouseButton) -> bool {
    match button {
        MouseButton::Other(index) => index + 4 <= u16::MAX,
        _ => true,
    }
}

/// Every key of the gesture has a slot in the keyboard state, every button one in the mouse
/// state.
pub open spec fn gesture_ok(gesture: Gesture) -> bool
    decreases gesture,
{
    match gesture {
        Gesture::KeyHold(code) => code.0 < NUM_SCAN_CODES,
        Gesture::KeyTrigger(code) => code.0 < NUM_SCAN_CODES,
        Gesture::ButtonHold(button) => button_ok(button),
        Gesture::ButtonTrigger(button) => button_ok(button),
        Gesture::AnyOf(gestures) => forall|i: int|
            0 <= i < gestures.len() ==> gesture_ok(#[trigger] gestures@[i]),
        Gesture::AllOf(gestures) => forall|i: int|
            0 <= i < gestures.len() ==> gesture_ok(#[trigger] gestures@[i]),
        _ => true,
    }
}

/// Whether every key of the gesture has a slot in the keyboard state and every button one in
/// the mouse state, so that it can be polled.
pub fn gesture_fits(gesture: &Gesture) -> (fits: bool)
    ensures
        fits == gesture_ok(*gesture),
    decreases gesture,
{
    match gesture {
        Gesture::KeyHold(code) => code.0 < NUM_SCAN_CODES as u32,
        Gesture::KeyTrigger(code) => code.0 < NUM_SCAN_CODES as u32,
        Gesture::ButtonHold(button) => button_fits(*button),
        Gesture::ButtonTrigger(button) => button_fits(*button),
        Gesture::AnyOf(gestures) | Gesture::AllOf(gestures) => {
            proof {
                assert(gesture_ok(*gesture) == (forall|j: int|
                    0 <= j < gestures.len() ==> gesture_ok(#[trigger] gestures@[j])));
            }
            let mut i: usize = 0;
            while i < gestures.len()
                invariant
                    i <= gestures.len(),
                    *gesture == Gesture::AnyOf(*gestures) || *gesture == Gesture::AllOf(*gestures),
                    forall|j: int| 0 <= j < i ==> gesture_ok(#[trigger] gestures@[j]),
                decreases gestures.len() - i,
            {
                proof {
                    if *gesture == Gesture::AnyOf(*gestures) {
                        assert(decreases_to!(*gesture => gesture->AnyOf_0@[i as int]));
                    } else {
                        assert(decreases_to!(*gesture => gesture->AllOf_0@[i as int]));
                    }
                }
                if !gesture_fits(&gestures[i]) {
                    return false;
                }
                i = i + 1;
            }
            true
        },
        Gesture::NoGesture => true,
        Gesture::QuitTrigger => true,
    }
}

/// Whether the slot of a mouse button can be computed without overflow.
pub fn button_fits(button: MouseButton) -> (fits: bool)
    ensures
        fits == button_ok(button),
{
    match button {
        MouseButton::Other(index) => index <= u16::MAX - 4,
        _ => true,
    }
}

/// The slot of a mouse button in the mouse state.
pub fn mouse_button_to_index(button: MouseButton) -> (slot: usize)
    requires
        button_ok(button),
    ensures
        slot == mouse_button_slot(button),
        slot < NUM_MOUSE_BUTTONS,
{
    match button {
        MouseButton::Left => 1,
        MouseButton::Middle => 2,
        MouseButton::Right => 3,
        MouseButton::Other(index) => {
            let shifted = (index + 4) as usize;
            if shifted < NUM_MOUSE_BUTTONS - 1 {
                shifted
            } else {
                NUM_MOUSE_BUTTONS - 1
            }
        },
    }
}

/// The state of the keyboard and the mouse buttons.
pub struct Input {
    current_update_index: UpdateIndex,
    keyboard_state: Vec<ButtonState>,
    mouse_button_state: Vec<ButtonState>,
    quit_requested_index: UpdateIndex,
    new_step: bool,
    mouse_enabled: bool,
    mouse_grabbed: bool,
    new_mouse_grabbed: bool,
}

impl Input {
    /// The keyboard and mouse states have one slot per key and per button, and no key or
    /// button changed after the current update.
    pub closed spec fn wf(self) -> bool {
        &&& self.keyboard_state.len() == NUM_SCAN_CODES
        &&& self.mouse_button_state.len() == NUM_MOUSE_BUTTONS
        &&& forall|i: int|
            0 <= i < NUM_SCAN_CODES ==> changed_at(#[trigger] self.keyboard_state@[i])
                <= self.current_update_index
        &&& forall|i: int|
            0 <= i < NUM_MOUSE_BUTTONS ==> changed_at(#[trigger] self.mouse_button_state@[i])
                <= self.current_update_index
    }

    pub closed spec fn update_index(self) -> UpdateIndex {
        self.current_update_index
    }

    pub closed spec fn quit_index(self) -> UpdateIndex {
        self.quit_requested_index
    }

    pub closed spec fn key(self, code: int) -> ButtonState {
        self.keyboard_state@[code]
    }

    pub closed spec fn button(self, slot: int) -> ButtonState {
        self.mouse_button_state@[slot]
    }

    pub closed spec fn keys(self) -> Seq<ButtonState> {
        self.keyboard_state@
    }

    pub closed spec fn buttons(self) -> Seq<ButtonState> {
        self.mouse_button_state@
    }

    pub closed spec fn is_new_step(self) -> bool {
        self.new_step
    }

    pub closed spec fn mouse_on(self) -> bool {
        self.mouse_enabled
    }

    pub closed spec fn grabbed(self) -> bool {
        self.mouse_grabbed
    }

    pub closed spec fn grab_wanted(self) -> bool {
        self.new_mouse_grabbed
    }

    /// Whether `gesture` holds in this state.
    pub open spec fn active(self, gesture: Gesture) -> bool
        decreases gesture,
    {
        match gesture {
            Gesture::QuitTrigger => self.quit_index() == self.update_index(),
            Gesture::KeyHold(code) => self.key(code.0 as int) is Down,
            Gesture::KeyTrigger(code) => self.key(code.0 as int) == ButtonState::Down(
                self.update_index(),
            ),
            Gesture::ButtonHold(button) => self.button(mouse_button_slot(button)) is Down,
            Gesture::ButtonTrigger(button) => self.button(mouse_button_slot(button))
                == ButtonState::Down(self.update_index()),
            Gesture::AnyOf(gestures) => exists|i: int|
                0 <= i < gestures.len() && self.active(#[trigger] gestures@[i]),
            Gesture::AllOf(gestures) => forall|i: int|
                0 <= i < gestures.len() ==> self.active(#[trigger] gestures@[i]),
            Gesture::NoGesture => false,
        }
    }

    /// Everything up at update 0, the first update numbered 1, the mouse enabled and asked to
    /// be grabbed.
    pub fn create() -> (input: Self)
        ensures
            input.wf(),
            input.update_index() == 1,
            input.quit_index() == 0,
            forall|i: int| 0 <= i < NUM_SCAN_CODES ==> #[trigger] input.key(i) == ButtonState::Up(0),
            forall|i: int|
                0 <= i < NUM_MOUSE_BUTTONS ==> #[trigger] input.button(i) == ButtonState::Up(0),
            !input.is_new_step(),
            input.mouse_on(),
            input.grab_wanted(),
            !input.grabbed(),
    {
        let mut keyboard_state: Vec<ButtonState> = Vec::new();
        let mut i: usize = 0;
        while i < NUM_SCAN_CODES
            invariant
                i <= NUM_SCAN_CODES,
                keyboard_state.len() == i,
                forall|j: int| 0 <= j < i ==> keyboard_state@[j] == ButtonState::Up(0),
            decreases NUM_SCAN_CODES - i,
        {
            keyboard_state.push(ButtonState::Up(0));
            i = i + 1;
        }
        let mut mouse_button_state: Vec<ButtonState> = Vec::new();
        let mut i: usize = 0;
        while i < NUM_MOUSE_BUTTONS
            invariant
                i <= NUM_MOUSE_BUTTONS,
                mouse_button_state.len() == i,
                forall|j: int| 0 <= j < i ==> mouse_button_state@[j] == ButtonState::Up(0),
            decreases NUM_MOUSE_BUTTONS - i,
        {
            mouse_button_state.push(ButtonState::Up(0));
            i = i + 1;
        }
        Input {
            current_update_index: 1,
            keyboard_state,
            mouse_button_state,
            quit_requested_index: 0,
            new_step: false,
            mouse_enabled: true,
            mouse_grabbed: false,
            new_mouse_grabbed: true,
        }
    }

    /// Starts the next update.
    pub fn reset(&mut self)
        requires
            old(self).update_index() < UpdateIndex::MAX,
        ensures
            final(self).update_index() == old(self).update_index() + 1,
            final(self).quit_index() == old(self).quit_index(),
            final(self).keys() == old(self).keys(),
            final(self).buttons() == old(self).buttons(),
            final(self).is_new_step() == old(self).is_new_step(),
            final(self).mouse_on() == old(self).mouse_on(),
            final(self).grabbed() == old(self).grabbed(),
            final(self).grab_wanted() == old(self).grab_wanted(),
            old(self).wf() ==> final(self).wf(),
    {
        self.current_update_index = self.current_update_index + 1;
    }

    /// Applies a window event; returns whether it ends a batch that began a new step.
    pub fn handle_event(&mut self, event: InputEvent) -> (step_done: bool)
        requires
            old(self).wf(),
        ensures
            final(self).wf(),
            final(self).update_index() == old(self).update_index(),
            final(self).mouse_on() == old(self).mouse_on(),
            final(self).grabbed() == old(self).grabbed(),
            final(self).grab_wanted() == old(self).grab_wanted(),
            step_done == (event == InputEvent::MainEventsCleared && old(self).is_new_step()),
            final(self).is_new_step() == match event {
                InputEvent::NewEvents => true,
                InputEvent::MainEventsCleared => false,
                _ => old(self).is_new_step(),
            },
            final(self).quit_index() == if event == InputEvent::CloseRequested {
                old(self).update_index()
            } else {
                old(self).quit_index()
            },
            final(self).keys() == match event {
                InputEvent::Key { state, code } => if code.0 < NUM_SCAN_CODES {
                    old(self).keys().update(
                        code.0 as int,
                        match state {
                            ElementState::Pressed => ButtonState::Down(old(self).update_index()),
                            ElementState::Released => ButtonState::Up(old(self).update_index()),
                        },
                    )
                } else {
                    old(self).keys()
                },
                _ => old(self).keys(),
            },
            final(self).buttons() == match event {
                InputEvent::Button { button, state } => if old(self).mouse_on() && button
                    < NUM_MOUSE_BUTTONS {
                    old(self).buttons().update(
                        button as int,
                        match state {
                            ElementState::Pressed => ButtonState::Down(old(self).update_index()),
                            ElementState::Released => ButtonState::Up(old(self).update_index()),
                        },
                    )
                } else {
                    old(self).buttons()
                },
                _ => old(self).buttons(),
            },
    {
        match event {
            InputEvent::WaitCancelled => {},
            InputEvent::EarlyResume => {},
            InputEvent::NewEvents => {
                self.new_step = true;
            },
            InputEvent::MainEventsCleared => {
                let new_step = self.new_step;
                self.new_step = false;
                return new_step;
            },
            InputEvent::CloseRequested => {
                self.quit_requested_index = self.current_update_index;
            },
            InputEvent::Key { state, code } => {
                let slot = code.0 as usize;
                if slot < NUM_SCAN_CODES {
                    let new_state = match state {
                        ElementState::Pressed => ButtonState::Down(self.current_update_index),
                        ElementState::Released => ButtonState::Up(self.current_update_index),
                    };
                    self.keyboard_state.set(slot, new_state);
                }
            },
            InputEvent::Button { button, state } => {
                let button = button as usize;
                if self.mouse_enabled && button < NUM_MOUSE_BUTTONS {
                    let new_state = match state {
                        ElementState::Pressed => ButtonState::Down(self.current_update_index),
                        ElementState::Released => ButtonState::Up(self.current_update_index),
                    };
                    self.mouse_button_state.set(button, new_state);
                }
            },
            InputEvent::Other => {},
        }
        false
    }

    /// Asks for the cursor to be grabbed or released at the next `sync_cursor_grab`.
    pub fn set_cursor_grabbed(&mut self, grabbed: bool)
        ensures
            final(self).grab_wanted() == grabbed,
            final(self).grabbed() == old(self).grabbed(),
            final(self).mouse_on() == old(self).mouse_on(),
            final(self).update_index() == old(self).update_index(),
            final(self).quit_index() == old(self).quit_index(),
            final(self).keys() == old(self).keys(),
            final(self).buttons() == old(self).buttons(),
            final(self).is_new_step() == old(self).is_new_step(),
            old(self).wf() ==> final(self).wf(),
    {
        self.new_mouse_grabbed = grabbed
    }

    /// Turns mouse buttons and motion on or off.
    pub fn set_mouse_enabled(&mut self, enable: bool)
        ensures
            final(self).mouse_on() == enable,
            final(self).grab_wanted() == old(self).grab_wanted(),
            final(self).grabbed() == old(self).grabbed(),
            final(self).update_index() == old(self).update_index(),
            final(self).quit_index() == old(self).quit_index(),
            final(self).keys() == old(self).keys(),
            final(self).buttons() == old(self).buttons(),
            final(self).is_new_step() == old(self).is_new_step(),
            old(self).wf() ==> final(self).wf(),
    {
        self.mouse_enabled = enable;
    }

    /// Whether mouse buttons and motion are taken into account.
    pub fn mouse_enabled(&self) -> (enabled: bool)
        ensures
            enabled == self.mouse_on(),
    {
        self.mouse_enabled
    }

    /// When the wanted cursor grab differs from the current one, adopts it and returns it,
    /// for the window to grab or release the cursor (and hide or show it).
    pub fn sync_cursor_grab(&mut self) -> (change: Option<bool>)
        ensures
            change == if old(self).grab_wanted() != old(self).grabbed() {
                Some(old(self).grab_wanted())
            } else {
                None::<bool>
            },
            final(self).grabbed() == old(self).grab_wanted(),
            final(self).grab_wanted() == old(self).grab_wanted(),
            final(self).mouse_on() == old(self).mouse_on(),
            final(self).update_index() == old(self).update_index(),
            final(self).quit_index() == old(self).quit_index(),
            final(self).keys() == old(self).keys(),
            final(self).buttons() == old(self).buttons(),
            final(self).is_new_step() == old(self).is_new_step(),
            old(self).wf() ==> final(self).wf(),
    {
        if self.new_mouse_grabbed != self.mouse_grabbed {
            self.mouse_grabbed = self.new_mouse_grabbed;
            Some(self.mouse_grabbed)
        } else {
            None
        }
    }

    /// Whether `gesture` holds now.
    pub fn poll_gesture(&self, gesture: &Gesture) -> (active: bool)
        requires
            self.wf(),
            gesture_ok(*gesture),
        ensures
            active == self.active(*gesture),
        decreases gesture,
    {
        match gesture {
            Gesture::QuitTrigger => self.quit_requested_index == self.current_update_index,
            Gesture::KeyHold(code) => match self.keyboard_state[code.0 as usize] {
                ButtonState::Down(_) => true,
                ButtonState::Up(_) => false,
            },
            Gesture::KeyTrigger(code) => match self.keyboard_state[code.0 as usize] {
                ButtonState::Down(index) => self.current_update_index == index,
                ButtonState::Up(_) => false,
            },
            Gesture::ButtonHold(button) => match self.mouse_button_state[mouse_button_to_index(
                *button,
            )] {
                ButtonState::Down(_) => true,
                ButtonState::Up(_) => false,
            },
            Gesture::ButtonTrigger(button) => match self.mouse_button_state[mouse_button_to_index(
                *button,
            )] {
                ButtonState::Down(index) => self.current_update_index == index,
                ButtonState::Up(_) => false,
            },
            Gesture::AnyOf(subgestures) => {
                proof {
                    assert(gesture_ok(*gesture) == (forall|j: int|
                        0 <= j < subgestures.len() ==> gesture_ok(#[trigger] subgestures@[j])));
                    assert(self.active(*gesture) == (exists|j: int|
                        0 <= j < subgestures.len() && self.active(#[trigger] subgestures@[j])));
                }
                let mut i: usize = 0;
                while i < subgestures.len()
                    invariant
                        self.wf(),
                        *gesture == Gesture::AnyOf(*subgestures),
                        forall|j: int|
                            0 <= j < subgestures.len() ==> gesture_ok(#[trigger] subgestures@[j]),
                        i <= subgestures.len(),
                        forall|j: int| 0 <= j < i ==> !self.active(#[trigger] subgestures@[j]),
                    decreases subgestures.len() - i,
                {
                    proof {
                        assert(decreases_to!(*gesture => gesture->AnyOf_0@[i as int]));
                    }
                    if self.poll_gesture(&subgestures[i]) {
                        return true;
                    }
                    i = i + 1;
                }
                false
            },
            Gesture::AllOf(subgestures) => {
                proof {
                    assert(gesture_ok(*gesture) == (forall|j: int|
                        0 <= j < subgestures.len() ==> gesture_ok(#[trigger] subgestures@[j])));
                    assert(self.active(*gesture) == (forall|j: int|
                        0 <= j < subgestures.len() ==> self.active(#[trigger] subgestures@[j])));
                }
                let mut i: usize = 0;
                while i < subgestures.len()
                    invariant
                        self.wf(),
                        *gesture == Gesture::AllOf(*subgestures),
                        forall|j: int|
                            0 <= j < subgestures.len() ==> gesture_ok(#[trigger] subgestures@[j]),
                        i <= subgestures.len(),
                        forall|j: int| 0 <= j < i ==> self.active(#[trigger] subgestures@[j]),
                    decreases subgestures.len() - i,
                {
                    proof {
                        assert(decreases_to!(*gesture => gesture->AllOf_0@[i as int]));
                    }
                    if !self.poll_gesture(&subgestures[i]) {
                        return false;
                    }
                    i = i + 1;
                }
                true
            },
            Gesture::NoGesture => false,
        }
    }
}

/// A trigger holds only during the update in which its key went down: once the next update
/// starts, with no event in between, it no longer holds.
pub proof fn lemma_key_trigger_lasts_one_update(before: Input, after: Input, code: Scancode)
    requires
        before.wf(),
        after.keys() == before.keys(),
        after.update_index() == before.update_index() + 1,
        code.0 < NUM_SCAN_CODES,
    ensures
        before.active(Gesture::KeyTrigger(code)) ==> before.active(Gesture::KeyHold(code)),
        !after.active(Gesture::KeyTrigger(code)),
{
    assert(changed_at(before.keyboard_state@[code.0 as int]) <= before.current_update_index);
}

/// The same for mouse buttons.
pub proof fn lemma_button_trigger_lasts_one_update(before: Input, after: Input, button: MouseButton)
    requires
        before.wf(),
        after.buttons() == before.buttons(),
        after.update_index() == before.update_index() + 1,
        button_ok(button),
    ensures
        before.active(Gesture::ButtonTrigger(button)) ==> before.active(Gesture::ButtonHold(button)),
        !after.active(Gesture::ButtonTrigger(button)),
{
    let slot = mouse_button_slot(button);
    assert(0 <= slot < NUM_MOUSE_BUTTONS);
    assert(changed_at(before.mouse_button_state@[slot]) <= before.current_update_index);
}

/// Whether a gesture holds depends only on the keys, the buttons, the update index and the
/// quit index: the mouse settings do not change it.
pub proof fn lemma_active_frame(a: Input, b: Input, gesture: Gesture)
    requires
        a.keys() == b.keys(),
        a.buttons() == b.buttons(),
        a.update_index() == b.update_index(),
        a.quit_index() == b.quit_index(),
    ensures
        a.active(gesture) == b.active(gesture),
    decreases gesture,
{
    match gesture {
        Gesture::AnyOf(gestures) => {
            assert forall|i: int| 0 <= i < gestures.len() implies a.active(#[trigger] gestures@[i])
                == b.active(gestures@[i]) by {
                assert(decreases_to!(gesture => gesture->AnyOf_0@[i]));
                lemma_active_frame(a, b, gestures@[i]);
            }
            assert(a.active(gesture) == (exists|j: int|
                0 <= j < gestures.len() && a.active(#[trigger] gestures@[j])));
            assert(b.active(gesture) == (exists|j: int|
                0 <= j < gestures.len() && b.active(#[trigger] gestures@[j])));
        },
        Gesture::AllOf(gestures) => {
            assert forall|i: int| 0 <= i < gestures.len() implies a.active(#[trigger] gestures@[i])
                == b.active(gestures@[i]) by {
                assert(decreases_to!(gesture => gesture->AllOf_0@[i]));
                lemma_active_frame(a, b, gestures@[i]);
            }
            assert(a.active(gesture) == (forall|j: int|
                0 <= j < gestures.len() ==> a.active(#[trigger] gestures@[j])));
            assert(b.active(gesture) == (forall|j: int|
                0 <= j < gestures.len() ==> b.active(#[trigger] gestures@[j])));
        },
        _ => {},
    }
}

/// A combination of gestures holds as its parts do: `AnyOf` when one of them holds, `AllOf`
/// when every one of them holds; so an empty `AnyOf` never holds and an empty `AllOf` always
/// does.
pub proof fn lemma_active_combined(input: Input, gestures: Vec<Gesture>)
    ensures
        input.active(Gesture::AnyOf(gestures)) == exists|i: int|
            0 <= i < gestures.len() && input.active(#[trigger] gestures@[i]),
        input.active(Gesture::AllOf(gestures)) == forall|i: int|
            0 <= i < gestures.len() ==> input.active(#[trigger] gestures@[i]),
        gestures.len() == 0 ==> !input.active(Gesture::AnyOf(gestures)) && input.active(
            Gesture::AllOf(gestures),
        ),
{
    let any = Gesture::AnyOf(gestures);
    let all = Gesture::AllOf(gestures);
    assert forall|i: int|
        #![trigger gestures@[i]]
        0 <= i < gestures.len() implies decreases_to!(any => any->AnyOf_0@[i])
            && decreases_to!(all => all->AllOf_0@[i]) by {
        assert(decreases_to!(any => any->AnyOf_0@[i]));
        assert(decreases_to!(all => all->AllOf_0@[i]));
    }
    assert(input.active(any) == (exists|j: int|
        0 <= j < gestures.len() && input.active(#[trigger] gestures@[j])));
    assert(input.active(all) == (forall|j: int|
        0 <= j < gestures.len() ==> input.active(#[trigger] gestures@[j])));
}

/// No gesture never holds, and a key or button that went down in this update is also held
/// down.
pub proof fn lemma_trigger_implies_hold(input: Input, code: Scancode, button: MouseButton)
    ensures
        !input.active(Gesture::NoGesture),
        input.active(Gesture::KeyTrigger(code)) ==> input.active(Gesture::KeyHold(code)),
        input.active(Gesture::ButtonTrigger(button)) ==> input.active(Gesture::ButtonHold(button)),
{
}

/// Holding a key or a button lasts as long as it stays down: with the same key and button
/// states, a hold holds or not whatever the update index, so it carries over into later
/// updates; and it holds exactly while its key or button is down.
pub proof fn lemma_hold_lasts(before: Input, after: Input, code: Scancode, button: MouseButton)
    requires
        before.keys() == after.keys(),
        before.buttons() == after.buttons(),
    ensures
        before.active(Gesture::KeyHold(code)) == after.active(Gesture::KeyHold(code)),
        before.active(Gesture::ButtonHold(button)) == after.active(Gesture::ButtonHold(button)),
        before.active(Gesture::KeyHold(code)) == (before.key(code.0 as int) is Down),
        before.active(Gesture::ButtonHold(button)) == (before.button(mouse_button_slot(button)) is Down),
{
}

} // verus!
