use vstd::prelude::*;

verus! {

/// The actions of the pointer: holding the button down, and the short press
/// that selects.
#[derive(Clone, Copy, Debug, PartialEq, Eq, Hash, Structural)]
pub enum NormalInput {
    Pressed,
    Select,
}

/// The actions that move the camera.
#[derive(Clone, Copy, Debug, PartialEq, Eq, Hash, Structural)]
pub enum CameraMovement {
    Zoom,
}

/// A change to make to the state of an action.
#[derive(Clone, Copy, Debug, PartialEq, Eq, Structural)]
pub enum ActionChange {
    Press(NormalInput),
    Release(NormalInput),
}

/// The longest time, in microseconds, that the button may be held down for
/// its release to select.
pub const TRIGGER_MAX_TIME: u64 = 500_000;

/// What one step of watching the button leaves behind: for how long the
/// button has been held down, and the change to make to an action.
#[derive(Clone, Copy, Debug, PartialEq, Eq, Structural)]
pub struct SelectionStep {
    pub held_for: Option<u64>,
    pub change: Option<ActionChange>,
}

/// The sum of two times, or the longest time where the sum is longer.
pub open spec fn capped_sum(a: u64, b: u64) -> u64 {
    if a + b > u64::MAX {
        u64::MAX
    } else {
        (a + b) as u64
    }
}

/// One step of watching the button. The first of these that holds decides:
/// - the button went down in this step: the time held starts at 0;
/// - the button is down: the time held grows by `elapsed`;
/// - the button went up in this step: the selection is pressed where the
///   button was held for at most `TRIGGER_MAX_TIME`;
/// - else the selection is released.
pub fn selection_step(
    just_pressed: bool,
    pressed: bool,
    just_released: bool,
    held_for: Option<u64>,
    elapsed: u64,
) -> (step: SelectionStep)
    ensures
        just_pressed ==> step == (SelectionStep { held_for: Some(0), change: None }),
        !just_pressed && pressed ==> step == (SelectionStep {
            held_for: Some(
                capped_sum(
                    match held_for {
                        Some(time) => time,
                        None => 0,
                    },
                    elapsed,
                ),
            ),
            change: None,
        }),
        !just_pressed && !pressed && just_released ==> step.held_for == held_for && step.change
            == (if held_for matches Some(time) && time <= TRIGGER_MAX_TIME {
            Some(ActionChange::Press(NormalInput::Select))
        } else {
            None
        }),
        !just_pressed && !pressed && !just_released ==> step == (SelectionStep {
            held_for,
            change: Some(ActionChange::Release(NormalInput::Select)),
        }),
{
    if just_pressed {
        SelectionStep { held_for: Some(0), change: None }
    } else if pressed {
        let so_far: u64 = match held_for {
            Some(time) => time,
            None => 0,
        };
        let now: u64 = if so_far > u64::MAX - elapsed {
            u64::MAX
        } else {
            so_far + elapsed
        };
        SelectionStep { held_for: Some(now), change: None }
    } else if just_released {
        let change = match held_for {
            Some(time) => if time <= TRIGGER_MAX_TIME {
                Some(ActionChange::Press(NormalInput::Select))
            } else {
                None
            },
            None => None,
        };
        SelectionStep { held_for, change }
    } else {
        SelectionStep { held_for, change: Some(ActionChange::Release(NormalInput::Select)) }
    }
}

/// The stages of a touch.
#[derive(Clone, Copy, Debug, PartialEq, Eq, Structural)]
pub enum TouchPhase {
    Started,
    Moved,
    Ended,
    Canceled,
}

/// What a stage of a touch asks for: whether the place of the touch becomes
/// the place of the pointer or the pointer has no place any more, and the
/// change to make to an action.
#[derive(Clone, Copy, Debug, PartialEq, Eq, Structural)]
pub struct TouchStep {
    pub keeps_place: bool,
    pub change: Option<ActionChange>,
}

/// What a stage of a touch asks for: a touch that starts presses the button,
/// one that ends or is cancelled releases it, and only a cancelled touch
/// leaves the pointer without a place.
pub fn touch_step(phase: TouchPhase) -> (step: TouchStep)
    ensures
        step.keeps_place == !(phase is Canceled),
        phase is Started ==> step.change == Some(ActionChange::Press(NormalInput::Pressed)),
        phase is Moved ==> step.change is None,
        phase is Ended || phase is Canceled ==> step.change == Some(
            ActionChange::Release(NormalInput::Pressed),
        ),
{
    match phase {
        TouchPhase::Started => TouchStep {
            keeps_place: true,
            change: Some(ActionChange::Press(NormalInput::Pressed)),
        },
        TouchPhase::Moved => TouchStep { keeps_place: true, change: None },
        TouchPhase::Ended => TouchStep {
            keeps_place: true,
            change: Some(ActionChange::Release(NormalInput::Pressed)),
        },
        TouchPhase::Canceled => TouchStep {
            keeps_place: false,
            change: Some(ActionChange::Release(NormalInput::Pressed)),
        },
    }
}

} // verus!
