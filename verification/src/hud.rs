//! The heads-up display: quitting, grabbing the mouse, the help text and changing levels by
//! key, each bound to a gesture.
//!
//! The texts themselves are drawn by the caller, which applies the visibility changes that
//! `update` returns.
use crate::context::ControlFlow;
use crate::input::{gesture_ok, lemma_active_frame, Gesture, Input, Scancode};
use crate::wad_system::WadSystem;
use vstd::prelude::*;

verus! {

/// The gestures the HUD reacts to.
pub struct Bindings {
    pub quit: Gesture,
    pub next_level: Gesture,
    pub previous_level: Gesture,
    pub toggle_mouse: Gesture,
    pub toggle_help: Gesture,
}

/// The keys of the default bindings, by key code.
#[derive(Eq, PartialEq, Structural, Copy, Clone, Debug)]
pub struct BindingKeys {
    pub escape: Scancode,
    pub left_control: Scancode,
    pub n: Scancode,
    pub p: Scancode,
    pub grave: Scancode,
    pub h: Scancode,
}

impl Bindings {
    /// Every key of every binding has a slot in the keyboard state.
    pub open spec fn wf(self) -> bool {
        &&& gesture_ok(self.quit)
        &&& gesture_ok(self.next_level)
        &&& gesture_ok(self.previous_level)
        &&& gesture_ok(self.toggle_mouse)
        &&& gesture_ok(self.toggle_help)
    }

    /// The default bindings: quit on a close request or Escape, Ctrl-N and Ctrl-P for the next
    /// and previous levels, backtick to toggle the mouse grab, H to toggle the help text.
    pub fn with_keys(keys: BindingKeys) -> (bindings: Self)
        ensures
            bindings.quit matches Gesture::AnyOf(v) && v@ == seq![
                Gesture::QuitTrigger,
                Gesture::KeyTrigger(keys.escape),
            ],
            bindings.next_level matches Gesture::AllOf(v) && v@ == seq![
                Gesture::KeyHold(keys.left_control),
                Gesture::KeyTrigger(keys.n),
            ],
            bindings.previous_level matches Gesture::AllOf(v) && v@ == seq![
                Gesture::KeyHold(keys.left_control),
                Gesture::KeyTrigger(keys.p),
            ],
            bindings.toggle_mouse == Gesture::KeyTrigger(keys.grave),
            bindings.toggle_help == Gesture::KeyTrigger(keys.h),
    {
        Bindings {
            quit: Gesture::AnyOf(vec![Gesture::QuitTrigger, Gesture::KeyTrigger(keys.escape)]),
            next_level: Gesture::AllOf(
                vec![Gesture::KeyHold(keys.left_control), Gesture::KeyTrigger(keys.n)],
            ),
            previous_level: Gesture::AllOf(
                vec![Gesture::KeyHold(keys.left_control), Gesture::KeyTrigger(keys.p)],
            ),
            toggle_mouse: Gesture::KeyTrigger(keys.grave),
            toggle_help: Gesture::KeyTrigger(keys.h),
        }
    }
}

/// Which text the HUD shows: the prompt that points to the help, the help, or neither.
#[derive(Eq, PartialEq, Structural, Copy, Clone, Debug)]
pub enum HelpState {
    Prompt,
    Shown,
    Hidden,
}

/// The help state after a toggle: the prompt or nothing gives way to the help, the help to
/// nothing.
pub open spec fn toggled(state: HelpState) -> HelpState {
    match state {
        HelpState::Prompt => HelpState::Shown,
        HelpState::Shown => HelpState::Hidden,
        HelpState::Hidden => HelpState::Shown,
    }
}

/// Visibility changes for the HUD's two texts; `None` leaves a text as it is.
#[derive(Eq, PartialEq, Structural, Copy, Clone, Debug)]
pub struct TextChanges {
    pub prompt_visible: Option<bool>,
    pub help_visible: Option<bool>,
}

/// The text changes that a toggle from `state` makes.
pub open spec fn toggle_changes(state: HelpState) -> TextChanges {
    match state {
        HelpState::Prompt => TextChanges { prompt_visible: Some(false), help_visible: Some(true) },
        HelpState::Shown => TextChanges { prompt_visible: None, help_visible: Some(false) },
        HelpState::Hidden => TextChanges { prompt_visible: None, help_visible: Some(true) },
    }
}

/// The state of the HUD.
pub struct Hud {
    mouse_grabbed: bool,
    current_help: HelpState,
}

impl Hud {
    pub closed spec fn grabbed(self) -> bool {
        self.mouse_grabbed
    }

    pub closed spec fn help(self) -> HelpState {
        self.current_help
    }

    /// A HUD that shows the prompt, with the mouse enabled and grabbed.  The caller starts
    /// with the prompt text visible and the help text hidden.
    pub fn create(input: &mut Input) -> (hud: Self)
        ensures
            hud.grabbed(),
            hud.help() == HelpState::Prompt,
            final(input).mouse_on(),
            final(input).grab_wanted(),
            final(input).grabbed() == old(input).grabbed(),
            final(input).update_index() == old(input).update_index(),
            final(input).quit_index() == old(input).quit_index(),
            final(input).keys() == old(input).keys(),
            final(input).buttons() == old(input).buttons(),
            final(input).is_new_step() == old(input).is_new_step(),
            old(input).wf() ==> final(input).wf(),
    {
        input.set_mouse_enabled(true);
        input.set_cursor_grabbed(true);
        Hud { mouse_grabbed: true, current_help: HelpState::Prompt }
    }

    /// Reacts to the gestures of this step: a quit request, a mouse grab toggle (which also
    /// turns the mouse on or off), a help toggle (returned as text changes), and a request
    /// for the next level or, failing that, for the previous one when there is one.
    pub fn update(
        &mut self,
        input: &mut Input,
        bindings: &Bindings,
        control_flow: &mut ControlFlow,
        wad: &mut WadSystem,
    ) -> (changes: TextChanges)
        requires
            old(input).wf(),
            old(wad).wf(),
            bindings.wf(),
        ensures
            final(input).wf(),
            final(control_flow).quit_requested == (old(control_flow).quit_requested
                || old(input).active(bindings.quit)),
            final(self).grabbed() == (old(self).grabbed() != old(input).active(bindings.toggle_mouse)),
            old(input).active(bindings.toggle_mouse) ==> {
                &&& final(input).mouse_on() == final(self).grabbed()
                &&& final(input).grab_wanted() == final(self).grabbed()
            },
            !old(input).active(bindings.toggle_mouse) ==> {
                &&& final(input).mouse_on() == old(input).mouse_on()
                &&& final(input).grab_wanted() == old(input).grab_wanted()
            },
            final(input).grabbed() == old(input).grabbed(),
            final(input).update_index() == old(input).update_index(),
            final(input).quit_index() == old(input).quit_index(),
            final(input).keys() == old(input).keys(),
            final(input).buttons() == old(input).buttons(),
            final(input).is_new_step() == old(input).is_new_step(),
            old(input).active(bindings.toggle_help) ==> {
                &&& final(self).help() == toggled(old(self).help())
                &&& changes == toggle_changes(old(self).help())
            },
            !old(input).active(bindings.toggle_help) ==> {
                &&& final(self).help() == old(self).help()
                &&& changes == (TextChanges { prompt_visible: None, help_visible: None })
            },
            final(wad).current() == old(wad).current(),
            final(wad).levels() == old(wad).levels(),
            final(wad).changed() == old(wad).changed(),
            final(wad).next() == if old(input).active(bindings.next_level) {
                (old(wad).current() + 1) as usize
            } else if old(input).active(bindings.previous_level) && old(wad).current() > 0 {
                (old(wad).current() - 1) as usize
            } else {
                old(wad).next()
            },
    {
        let ghost start = *input;
        if input.poll_gesture(&bindings.quit) {
            control_flow.quit_requested = true;
        }
        if input.poll_gesture(&bindings.toggle_mouse) {
            self.mouse_grabbed = !self.mouse_grabbed;
            input.set_mouse_enabled(self.mouse_grabbed);
            input.set_cursor_grabbed(self.mouse_grabbed);
        }
        proof {
            lemma_active_frame(start, *input, bindings.toggle_help);
            lemma_active_frame(start, *input, bindings.next_level);
            lemma_active_frame(start, *input, bindings.previous_level);
        }
        let mut changes = TextChanges { prompt_visible: None, help_visible: None };
        if input.poll_gesture(&bindings.toggle_help) {
            self.current_help = match self.current_help {
                HelpState::Prompt => {
                    changes = TextChanges { prompt_visible: Some(false), help_visible: Some(true) };
                    HelpState::Shown
                },
                HelpState::Shown => {
                    changes.help_visible = Some(false);
                    HelpState::Hidden
                },
                HelpState::Hidden => {
                    changes.help_visible = Some(true);
                    HelpState::Shown
                },
            };
        }
        if input.poll_gesture(&bindings.next_level) {
            let index = wad.level_index();
            wad.change_level(index + 1);
        } else if input.poll_gesture(&bindings.previous_level) {
            let index = wad.level_index();
            if index > 0 {
                wad.change_level(index - 1);
            }
        }
        changes
    }
}

} // verus!
