//! The player's discrete choices: flying and clipping toggled by gestures, the action of the
//! step, and clamping a value into limits.
use crate::input::{Gesture, Input};
use crate::level::PlayerAction;
use core::cmp::Ordering;
use vstd::std_specs::cmp::PartialOrdSpec;
use vstd::prelude::*;

verus! {

/// `value` pulled into `limits`, as the comparisons of `T` say: the lower limit when it lies
/// below, the upper one when it lies above, and itself otherwise.
pub open spec fn clamped<T: PartialOrd>(value: T, limits: (T, T)) -> T {
    if value.partial_cmp_spec(&limits.0) == Some(Ordering::Less) {
        limits.0
    } else if value.partial_cmp_spec(&limits.1) == Some(Ordering::Greater) {
        limits.1
    } else {
        value
    }
}

/// `a` lies below `b` or equals it, as the comparisons of `T` say.
pub open spec fn at_most<T: PartialOrd>(a: T, b: T) -> bool {
    a.partial_cmp_spec(&b) == Some(Ordering::Less) || a.partial_cmp_spec(&b) == Some(Ordering::Equal)
}

/// `a` and `b` compare both ways, and each way reads as the reverse of the other, as in a
/// total order.
pub open spec fn compare_totally<T: PartialOrd>(a: T, b: T) -> bool {
    &&& a.partial_cmp_spec(&b) is Some
    &&& b.partial_cmp_spec(&a) is Some
    &&& (a.partial_cmp_spec(&b) == Some(Ordering::Less)) == (b.partial_cmp_spec(&a) == Some(
        Ordering::Greater,
    ))
    &&& (a.partial_cmp_spec(&b) == Some(Ordering::Greater)) == (b.partial_cmp_spec(&a) == Some(
        Ordering::Less,
    ))
}

/// `value` pulled into `limits`: the lower limit when it lies below, the upper one when it
/// lies above, and itself otherwise.  Values that do not compare (NaN) are kept.
pub fn clamp<T: PartialOrd>(value: T, limits: (T, T)) -> (clamped_value: T)
    ensures
        clamped_value == value || clamped_value == limits.0 || clamped_value == limits.1,
        T::obeys_partial_cmp_spec() ==> clamped_value == clamped(value, limits),
{
    let (limit_min, limit_max) = limits;
    if value < limit_min {
        limit_min
    } else if value > limit_max {
        limit_max
    } else {
        value
    }
}

/// Where the values compare as in a total order and the lower limit is at most the upper
/// one, clamping lands within the limits, keeps a value already within them, takes the
/// lower limit for a value below and the upper limit for a value above, and clamping again
/// changes nothing.
pub proof fn lemma_clamp_within<T: PartialOrd>(value: T, limits: (T, T))
    requires
        T::obeys_partial_cmp_spec(),
        compare_totally(value, limits.0),
        compare_totally(value, limits.1),
        compare_totally(limits.0, limits.1),
        limits.0.partial_cmp_spec(&limits.0) == Some(Ordering::Equal),
        limits.1.partial_cmp_spec(&limits.1) == Some(Ordering::Equal),
        at_most(limits.0, limits.1),
    ensures
        at_most(limits.0, clamped(value, limits)),
        at_most(clamped(value, limits), limits.1),
        at_most(limits.0, value) && at_most(value, limits.1) ==> clamped(value, limits) == value,
        value.partial_cmp_spec(&limits.0) == Some(Ordering::Less) ==> clamped(value, limits)
            == limits.0,
        value.partial_cmp_spec(&limits.1) == Some(Ordering::Greater) && !(value.partial_cmp_spec(
            &limits.0,
        ) == Some(Ordering::Less)) ==> clamped(value, limits) == limits.1,
        clamped(clamped(value, limits), limits) == clamped(value, limits),
{
    let (low, high) = limits;
    if value.partial_cmp_spec(&low) == Some(Ordering::Less) {
        assert(clamped(value, limits) == low);
    } else if value.partial_cmp_spec(&high) == Some(Ordering::Greater) {
        assert(clamped(value, limits) == high);
    } else {
        assert(clamped(value, limits) == value);
        match low.partial_cmp_spec(&value) {
            Some(Ordering::Greater) => assert(false),
            Some(_) => {},
            None => assert(false),
        }
        match value.partial_cmp_spec(&high) {
            Some(Ordering::Greater) => assert(false),
            Some(_) => {},
            None => assert(false),
        }
    }
}

/// Whether the player flies (ignores gravity) and clips (collides with walls).
#[derive(Eq, PartialEq, Structural, Copy, Clone, Debug)]
pub struct Modes {
    pub fly: bool,
    pub clip: bool,
}

impl Modes {
    /// The player starts walking and colliding.
    pub fn new() -> (modes: Self)
        ensures
            modes == (Modes { fly: false, clip: true }),
    {
        Modes { fly: false, clip: true }
    }

    /// Flips flying when the fly gesture holds, and clipping when the clip gesture holds.
    pub fn toggle(&mut self, input: &Input, fly: &Gesture, clip: &Gesture)
        requires
            input.wf(),
            crate::input::gesture_ok(*fly),
            crate::input::gesture_ok(*clip),
        ensures
            final(self).fly == (old(self).fly != input.active(*fly)),
            final(self).clip == (old(self).clip != input.active(*clip)),
    {
        if input.poll_gesture(fly) {
            self.fly = !self.fly;
        }
        if input.poll_gesture(clip) {
            self.clip = !self.clip;
        }
    }
}

/// The player's action this step: pushing when the push gesture holds, otherwise shooting
/// when the shoot gesture holds.
pub fn player_action(input: &Input, push: &Gesture, shoot: &Gesture) -> (action: Option<PlayerAction>)
    requires
        input.wf(),
        crate::input::gesture_ok(*push),
        crate::input::gesture_ok(*shoot),
    ensures
        action == if input.active(*push) {
            Some(PlayerAction::Push)
        } else if input.active(*shoot) {
            Some(PlayerAction::Shoot)
        } else {
            None::<PlayerAction>
        },
{
    if input.poll_gesture(push) {
        Some(PlayerAction::Push)
    } else if input.poll_gesture(shoot) {
        Some(PlayerAction::Shoot)
    } else {
        None
    }
}

} // verus!
