use undefined_player::mpris::{
    file_uri, MprisCommand, MprisValue, PlaybackStatus, State, COMMAND_CAPACITY, TRACK_ID,
};

fn state(title: &str, artist: Option<&str>, path: &str, duration_us: i64) -> State {
    State::new(title, artist, Some(file_uri(path.as_bytes())), duration_us)
}

fn integer(value: Option<MprisValue<'_>>) -> i64 {
    match value {
        Some(MprisValue::Int64(v)) => v,
        Some(MprisValue::Bool(b)) => i64::from(b),
        _ => panic!("not an integer property"),
    }
}

#[test]
fn commands_are_bounded_ordered_and_track_scoped() {
    let mut state = state("Video", None, "/tmp/video.mkv", 100);
    state.command(false, b"SetPosition", Some(b"/wrong/track"), 20);
    state.command(false, b"Next", None, 0);
    state.command(false, b"Previous", None, 0);
    assert_eq!(state.take_command(), Some(MprisCommand::NextChapter));
    assert_eq!(state.take_command(), Some(MprisCommand::PreviousChapter));
    assert!(state.commands.is_empty());
    for value in 0..32 {
        state.command(false, b"Seek", None, value);
    }
    assert_eq!(state.commands.len(), COMMAND_CAPACITY);
    assert_eq!(state.take_command(), Some(MprisCommand::Seek(16)));
    state.commands.clear();
    state.command(false, b"SetPosition", Some(TRACK_ID.as_bytes()), 20);
    state.command(true, b"Quit", None, 0);
    assert_eq!(state.take_command(), Some(MprisCommand::SetPosition(20)));
    assert_eq!(state.take_command(), Some(MprisCommand::Quit));
    state.command(true, b"Play", None, 0);
    state.command(false, b"Quit", None, 0);
    assert_eq!(state.take_command(), None);
}

#[test]
fn properties_follow_state_without_advertising_a_playlist() {
    let mut state = state("Video", None, "/tmp/video.mkv", -1);
    assert!(!state.update(PlaybackStatus::Playing, -1));
    assert_eq!(state.position_us, 0);
    assert!(state.update(PlaybackStatus::Paused, 100));
    assert!(!state.update(PlaybackStatus::Paused, 200));
    assert_eq!(integer(state.property(false, b"Position")), 200);
    match state.property(false, b"PlaybackStatus") {
        Some(MprisValue::Text(t)) => assert_eq!(t, "Paused"),
        _ => panic!("status is text"),
    }
    assert_eq!(integer(state.property(false, b"CanGoNext")), 0);
    assert_eq!(integer(state.property(false, b"CanGoPrevious")), 0);
    match state.property(false, b"Metadata") {
        Some(MprisValue::Metadata { duration_us, .. }) => assert_eq!(duration_us, 0),
        _ => panic!("metadata"),
    }
    assert!(matches!(state.property(true, b"HasTrackList"), Some(MprisValue::Bool(false))));
    assert!(state.property(false, b"Tracks").is_none());
}

#[test]
fn desktop_metadata_and_chapter_capabilities_are_exposed() {
    let mut state = state("Seven Samurai", Some("Akira Kurosawa"), "/tmp/movie.mp4", 100);
    state.art_uri = Some(file_uri(b"/tmp/cover image.jpg"));
    match state.property(false, b"Metadata") {
        Some(MprisValue::Metadata { title, artist, art_uri, track_id, .. }) => {
            assert_eq!(title, "Seven Samurai");
            assert_eq!(artist, Some("Akira Kurosawa"));
            assert_eq!(art_uri, Some("file:///tmp/cover%20image.jpg"));
            assert_eq!(track_id, TRACK_ID);
        }
        _ => panic!("metadata"),
    }
    assert!(state.navigation(false, true));
    assert!(!state.navigation(false, true));
    assert_eq!(integer(state.property(false, b"CanGoNext")), 1);
    assert_eq!(integer(state.property(false, b"CanGoPrevious")), 0);
    assert!(state.navigation(true, false));
    assert_eq!(integer(state.property(false, b"CanGoNext")), 0);
    assert_eq!(integer(state.property(false, b"CanGoPrevious")), 1);
    assert!(matches!(state.property(true, b"Identity"), Some(MprisValue::Text("Undefined Player"))));
    assert!(matches!(state.property(true, b"DesktopEntry"), Some(MprisValue::Text("undefined-player"))));
    assert!(matches!(state.property(false, b"Rate"), Some(MprisValue::Real(1))));
    let empty = State::new("Filename", None, Some(file_uri(b"/tmp/movie.mp4")), 0);
    match empty.property(false, b"Metadata") {
        Some(MprisValue::Metadata { artist, art_uri, .. }) => {
            assert!(artist.is_none() && art_uri.is_none());
        }
        _ => panic!("metadata"),
    }
}

#[test]
fn metadata_uris_preserve_special_and_non_utf8_filenames() {
    assert_eq!(
        file_uri("/tmp/Tokyo 🗼 [id] #1%.webm".as_bytes()),
        "file:///tmp/Tokyo%20%F0%9F%97%BC%20%5Bid%5D%20%231%25.webm"
    );
    assert_eq!(file_uri(b"/tmp/\xff.mkv"), "file:///tmp/%FF.mkv");
    assert_eq!(file_uri(b"/tmp/a b#?%.mkv"), "file:///tmp/a%20b%23%3F%25.mkv");
    assert_eq!(file_uri(b"/tmp/\xff\xfe.mkv"), "file:///tmp/%FF%FE.mkv");
    assert_eq!(file_uri("/tmp/日本.mkv".as_bytes()), "file:///tmp/%E6%97%A5%E6%9C%AC.mkv");
    assert_eq!(file_uri(b"/A-z_0.9~/"), "file:///A-z_0.9~/");
}

#[test]
fn empty_titles_and_artists_are_replaced_or_left_out() {
    let state = State::new("", Some(""), None, 5);
    assert_eq!(state.title, "Unknown media");
    assert_eq!(state.artist, None);
    assert_eq!(state.uri, None);
    assert_eq!(state.status, PlaybackStatus::Playing);
    assert_eq!(PlaybackStatus::Stopped.name(), "Stopped");
}
