use undefined_player::chapters::Chapters;

/// The order key of a non-negative time, as the player hands it over.
fn key(seconds: f64) -> u64 {
    (seconds + 0.0).to_bits()
}

fn chapters(starts: &[f64]) -> Chapters {
    Chapters::from_entries(starts.iter().map(|s| (key(*s), None)).collect())
}

fn start(k: Option<u64>) -> Option<f64> {
    k.map(f64::from_bits)
}

#[test]
fn chapter_labels_follow_sorted_timestamps_and_handle_missing_titles() {
    let chapters = Chapters::from_entries(vec![
        (key(20.0), Some("  gāčē\n日本語\0  ".into())),
        (key(0.0), None),
        (key(10.0), Some(" \t ".into())),
    ]);
    assert_eq!(chapters.label(0).unwrap(), "CHAPTER 1 / 3");
    assert_eq!(chapters.label(1).unwrap(), "CHAPTER 2 / 3");
    assert_eq!(chapters.label(2).unwrap(), "CHAPTER 3 / 3 — GĀČĒ 日本語");
    assert!(chapters.label(3).is_none());
    assert_eq!(chapters.current(key(9.97)), Some(0));
}

#[test]
fn duplicate_starts_keep_the_first_title() {
    let chapters = Chapters::from_entries(vec![
        (key(30.0), Some("first".into())),
        (key(0.0), None),
        (key(30.0), Some("second".into())),
    ]);
    assert_eq!(chapters.starts, vec![key(0.0), key(30.0)]);
    assert_eq!(chapters.label(1).unwrap(), "CHAPTER 2 / 2 — FIRST");
}

#[test]
fn chapter_navigation_handles_boundaries_and_seek_rounding() {
    let chapters = chapters(&[0.0, 10.0, 20.0]);
    for (position, previous, next) in [
        (0.0, None, Some(10.0)),
        (5.0, None, Some(10.0)),
        (9.97, None, Some(10.0)),
        (10.0, Some(0.0), Some(20.0)),
        (17.0, Some(0.0), Some(20.0)),
        (20.0, Some(10.0), None),
        (30.0, Some(10.0), None),
    ] {
        assert_eq!(start(chapters.target(key(position), false)), previous);
        assert_eq!(start(chapters.target(key(position), true)), next);
    }
    let empty = Chapters::from_entries(vec![]);
    assert_eq!(empty.target(key(0.0), true), None);
    assert_eq!(empty.target(key(0.0), false), None);
    let delayed = chapters_from(&[5.0]);
    assert_eq!(start(delayed.target(key(0.0), true)), Some(5.0));
    assert_eq!(delayed.target(key(0.0), false), None);
}

fn chapters_from(starts: &[f64]) -> Chapters {
    chapters(starts)
}

#[test]
fn seek_selection_survives_early_frames_and_resets_on_backward_seeks() {
    let mut chapters = chapters(&[0.0, 3.2, 6.4, 9.6]);
    assert_eq!(chapters.current(key(3.19)), Some(0));
    for (requested, landed, next) in [
        (3.2, 3.0, Some(6.4)),
        (6.4, 6.2, Some(9.6)),
        (9.6, 9.4, None),
    ] {
        chapters.seeked(Some(key(requested)));
        let position = chapters.playback_position(key(landed));
        assert_eq!(position, key(requested));
        assert_eq!(start(chapters.target(position, true)), next);
    }
    // An explicit position must not inherit the previous chapter selection.
    assert_eq!(start(chapters.target(key(3.1), true)), Some(3.2));
    chapters.seeked(Some(key(3.1)));
    assert_eq!(chapters.current(chapters.playback_position(key(3.0))), Some(0));
    assert_eq!(chapters.current(chapters.playback_position(key(3.2))), Some(1));
    chapters.seeked(Some(key(0.0)));
    assert_eq!(chapters.target(chapters.playback_position(key(0.0)), false), None);
}

#[test]
fn a_seek_floor_only_raises_earlier_positions() {
    let mut chapters = chapters(&[0.0, 10.0]);
    assert_eq!(chapters.playback_position(key(4.0)), key(4.0));
    chapters.seeked(Some(key(10.0)));
    assert_eq!(chapters.playback_position(key(9.5)), key(10.0));
    assert_eq!(chapters.playback_position(key(12.0)), key(12.0));
    chapters.seeked(None);
    assert_eq!(chapters.playback_position(key(9.5)), key(9.5));
}
