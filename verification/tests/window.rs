use undefined_player::ffi;
use undefined_player::window::{action_for_key, Action};

#[test]
fn requested_keys_map_to_requested_actions() {
    assert_eq!(action_for_key(ffi::UpKey_UP_KEY_A), Some(Action::CycleAudio));
    assert_eq!(action_for_key(ffi::UpKey_UP_KEY_F), Some(Action::ToggleFullscreen));
    assert_eq!(action_for_key(ffi::UpKey_UP_KEY_I), Some(Action::ToggleInfo));
    assert_eq!(action_for_key(ffi::UpKey_UP_KEY_LEFT), Some(Action::SeekBackward));
    assert_eq!(action_for_key(ffi::UpKey_UP_KEY_RIGHT), Some(Action::SeekForward));
    assert_eq!(action_for_key(ffi::UpKey_UP_KEY_SPACE), Some(Action::TogglePause));
    assert_eq!(action_for_key(ffi::UpKey_UP_KEY_S), Some(Action::ToggleSubtitles));
    assert_eq!(action_for_key(ffi::UpKey_UP_KEY_J), Some(Action::CycleSubtitles));
    assert_eq!(action_for_key(ffi::UpKey_UP_KEY_Q), Some(Action::Quit));
    assert_eq!(action_for_key(ffi::UpKey_UP_KEY_OTHER), None);
}

#[test]
fn crop_zoom_deinterlace_and_chapter_keys_are_bound() {
    assert_eq!(action_for_key(ffi::UpKey_UP_KEY_C), Some(Action::ToggleCrop));
    assert_eq!(action_for_key(ffi::UpKey_UP_KEY_D), Some(Action::CycleDeinterlace));
    assert_eq!(action_for_key(ffi::UpKey_UP_KEY_Z), Some(Action::ToggleZoom));
    assert_eq!(action_for_key(ffi::UpKey_UP_KEY_COMMA), Some(Action::PreviousChapter));
    assert_eq!(action_for_key(ffi::UpKey_UP_KEY_PERIOD), Some(Action::NextChapter));
    assert_eq!(action_for_key(99), None);
}
