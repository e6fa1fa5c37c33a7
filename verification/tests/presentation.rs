use undefined_player::metadata::{TrackLabel, VideoInfo};
use undefined_player::presentation::{
    format_position, next_track, subtitle_status_text, timeline_text, track_status_text,
    ChapterHeading, PresentationStats,
};

#[test]
fn media_tracks_cycle_and_report_available_metadata() {
    assert_eq!(next_track(0, 3), 1);
    assert_eq!(next_track(2, 3), 0);
    assert_eq!(next_track(0, 0), 0);
    assert_eq!(next_track(7, 3), 2);
    let labeled = TrackLabel {
        codec: "DTS".into(),
        language: Some("spa".into()),
        title: Some("Surround 5.1".into()),
    };
    assert_eq!(
        track_status_text("AUDIO", 2, 5, &labeled).as_bytes(),
        "AUDIO: 3 / 5 - SPA - SURROUND 5.1 - DTS".as_bytes()
    );
    let unlabeled = TrackLabel {
        codec: "AC3".into(),
        language: None,
        title: Some("Commentary".into()),
    };
    assert_eq!(track_status_text("AUDIO", 1, 2, &unlabeled).as_bytes(), b"AUDIO: 2 / 2");
    assert_eq!(subtitle_status_text(false, 1, 3, &labeled).as_bytes(), b"SUBTITLES: OFF");
}

#[test]
fn positions_are_formatted_for_short_and_long_media() {
    // Whole seconds, as the player floors them before formatting.
    assert_eq!(format_position(0), "0:00");
    assert_eq!(format_position(83), "1:23");
    assert_eq!(format_position(3723), "1:02:03");
    assert_eq!(timeline_text(20, Some(313)), "0:20 / 5:13");
    assert_eq!(timeline_text(59, None), "0:59");
    assert_eq!(format_position(36_000), "10:00:00");
}

#[test]
fn subtitle_status_without_a_language_shows_only_the_number() {
    let label = TrackLabel { codec: "SRT".into(), language: Some("jpn".into()), title: None };
    assert_eq!(subtitle_status_text(true, 0, 1, &label), "SUBTITLES: 1 / 1 - JPN - SRT");
}

#[test]
fn video_details_are_kept_separate_from_runtime_statistics() {
    let info = VideoInfo {
        lines: [
            "CODEC: HEVC MAIN 10".into(),
            "RESOLUTION: 3840X2160".into(),
            "BITRATE: 18.8 MBPS".into(),
            "PIXEL FORMAT: YUV420P10LE".into(),
            "DECODE: VULKAN HW".into(),
            "MATRIX: BT2020NC".into(),
            "PRIMARIES: BT2020".into(),
            "TRANSFER: SMPTE2084".into(),
            "RANGE: TV".into(),
            "HDR: YES (PQ)".into(),
        ],
    };
    assert_eq!(
        info.overlay_text(Some((1, 3, &TrackLabel {
            codec: "DTS".into(),
            language: Some("eng".into()),
            title: Some("Surround 5.1".into()),
        }))).as_bytes(),
        b"CODEC: HEVC MAIN 10\nRESOLUTION: 3840X2160\nBITRATE: 18.8 MBPS\nPIXEL FORMAT: YUV420P10LE\nDECODE: VULKAN HW\nMATRIX: BT2020NC\nPRIMARIES: BT2020\nTRANSFER: SMPTE2084\nRANGE: TV\nHDR: YES (PQ)\nAUDIO TRACK: 2 / 3\nAUDIO CODEC: DTS\nAUDIO LANGUAGE: ENG\nAUDIO TITLE: SURROUND 5.1"
    );
    // The frame rate is written with three decimals by the caller.
    let frame_rate = format!("{:.3}", 24_000.0_f64 / 1001.0);
    assert_eq!(
        PresentationStats::new().text(Some(&frame_rate)).as_bytes(),
        b"FPS: 23.976  SHOWN: 0  DROPPED: 0"
    );
    assert!(info.overlay_text(None).ends_with("\nAUDIO: NONE"));
}

#[test]
fn statistics_count_frames() {
    let mut stats = PresentationStats::new();
    stats.presented();
    stats.presented();
    stats.drop_frames(5);
    assert_eq!(stats.counts(), (2, 5));
    assert_eq!(stats.text(None), "FPS: UNKNOWN  SHOWN: 2  DROPPED: 5");
}

#[test]
fn chapter_headings_prefer_hover_and_expire_after_three_seconds() {
    let mut heading = ChapterHeading::default();
    assert_eq!(heading.index(), None);
    heading.hovered = Some(4);
    heading.show(2, 1_000_000_000);
    assert_eq!(heading.index(), Some(2));
    heading.hovered = Some(7);
    assert_eq!(heading.index(), Some(7));
    heading.hovered = None;
    assert!(!heading.update(3_999_999_999));
    assert_eq!(heading.index(), Some(2));
    assert!(heading.update(4_000_000_000));
    assert_eq!(heading.index(), None);
    assert!(!heading.update(9_000_000_000));
}
