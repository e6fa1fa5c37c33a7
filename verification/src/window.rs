//! Keyboard commands of the player window.
use vstd::prelude::*;
use crate::ffi;

verus! {

/// What a key asks the player to do.
#[derive(Debug, PartialEq, Eq, Structural, Clone, Copy)]
pub enum Action {
    CycleAudio,
    CycleSubtitles,
    Quit,
    SeekBackward,
    SeekForward,
    ToggleFullscreen,
    ToggleCrop,
    ToggleZoom,
    CycleDeinterlace,
    PreviousChapter,
    NextChapter,
    ToggleInfo,
    TogglePause,
    ToggleSubtitles,
}

/// The action bound to `key`: D, C, Z, A, Q, J, the arrows, comma and
/// period, F, I, space and S.
pub open spec fn action_spec(key: u32) -> Option<Action> {
    if key == ffi::UpKey_UP_KEY_D {
        Some(Action::CycleDeinterlace)
    } else if key == ffi::UpKey_UP_KEY_C {
        Some(Action::ToggleCrop)
    } else if key == ffi::UpKey_UP_KEY_Z {
        Some(Action::ToggleZoom)
    } else if key == ffi::UpKey_UP_KEY_A {
        Some(Action::CycleAudio)
    } else if key == ffi::UpKey_UP_KEY_Q {
        Some(Action::Quit)
    } else if key == ffi::UpKey_UP_KEY_J {
        Some(Action::CycleSubtitles)
    } else if key == ffi::UpKey_UP_KEY_LEFT {
        Some(Action::SeekBackward)
    } else if key == ffi::UpKey_UP_KEY_RIGHT {
        Some(Action::SeekForward)
    } else if key == ffi::UpKey_UP_KEY_COMMA {
        Some(Action::PreviousChapter)
    } else if key == ffi::UpKey_UP_KEY_PERIOD {
        Some(Action::NextChapter)
    } else if key == ffi::UpKey_UP_KEY_F {
        Some(Action::ToggleFullscreen)
    } else if key == ffi::UpKey_UP_KEY_I {
        Some(Action::ToggleInfo)
    } else if key == ffi::UpKey_UP_KEY_SPACE {
        Some(Action::TogglePause)
    } else if key == ffi::UpKey_UP_KEY_S {
        Some(Action::ToggleSubtitles)
    } else {
        None
    }
}

/// The action bound to `key`, if any.
pub fn action_for_key(key: u32) -> (r: Option<Action>)
    ensures
        r == action_spec(key),
{
    match key {
        ffi::UpKey_UP_KEY_D => Some(Action::CycleDeinterlace),
        ffi::UpKey_UP_KEY_C => Some(Action::ToggleCrop),
        ffi::UpKey_UP_KEY_Z => Some(Action::ToggleZoom),
        ffi::UpKey_UP_KEY_A => Some(Action::CycleAudio),
        ffi::UpKey_UP_KEY_Q => Some(Action::Quit),
        ffi::UpKey_UP_KEY_J => Some(Action::CycleSubtitles),
        ffi::UpKey_UP_KEY_LEFT => Some(Action::SeekBackward),
        ffi::UpKey_UP_KEY_RIGHT => Some(Action::SeekForward),
        ffi::UpKey_UP_KEY_COMMA => Some(Action::PreviousChapter),
        ffi::UpKey_UP_KEY_PERIOD => Some(Action::NextChapter),
        ffi::UpKey_UP_KEY_F => Some(Action::ToggleFullscreen),
        ffi::UpKey_UP_KEY_I => Some(Action::ToggleInfo),
        ffi::UpKey_UP_KEY_SPACE => Some(Action::TogglePause),
        ffi::UpKey_UP_KEY_S => Some(Action::ToggleSubtitles),
        _ => None,
    }
}

/// Different keys never ask for the same action.
pub proof fn lemma_bindings_are_distinct(a: u32, b: u32)
    requires
        a != b,
        action_spec(a) is Some,
    ensures
        action_spec(a) != action_spec(b),
{
}

} // verus!
