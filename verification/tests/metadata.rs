use undefined_player::ffi;
use undefined_player::metadata::{present_artist, single_line_metadata, MediaMetadata, VideoFacts, VideoInfo};
use undefined_player::metadata::{
    display_title, format_bitrate, format_video_bitrate, hdr_status, media_title,
};
use undefined_player::subtitles::subtitle_dialogue_text;

#[test]
fn display_title_collapses_filename_whitespace() {
    assert_eq!(
        media_title("Kyoto Hidden Valleys Drive 🌿 Arashiyama to Kibune [8zcPIr0mDzU].webm"),
        "Kyoto Hidden Valleys Drive 🌿 Arashiyama to Kibune"
    );
    assert_eq!(
        display_title("Kyoto  Hidden   Valley.mkv"),
        "KYOTO HIDDEN VALLEY"
    );
    assert_eq!(
        display_title(
            "Kyoto Hidden Valleys Drive 🌿 Arashiyama to Kibune ⧸ 8K 60fps HDR ⧸ Relaxing Piano [8zcPIr0mDzU].webm"
        ),
        "KYOTO HIDDEN VALLEYS DRIVE 🌿 ARASHIYAMA TO KIBUNE ⧸ 8K 60FPS HDR ⧸ RELAXING PIANO"
    );
}

#[test]
fn bitrates_use_compact_overlay_units() {
    assert_eq!(format_bitrate(18_750_000), "18.8 MBPS");
    assert_eq!(format_bitrate(192_000), "192 KBPS");
    assert_eq!(format_bitrate(0), "UNKNOWN");
    assert_eq!(
        format_video_bitrate(0, Some(23_963_146), 29_807_000),
        "24.0 MBPS"
    );
    assert_eq!(
        format_video_bitrate(0, None, 28_846_000),
        "28.8 MBPS (CONTAINER)"
    );
}

#[test]
fn hdr_status_distinguishes_pq_hlg_sdr_and_unknown() {
    assert_eq!(hdr_status(ffi::UpHdrKind_UP_HDR_KIND_PQ, false), "YES (PQ)");
    assert_eq!(
        hdr_status(ffi::UpHdrKind_UP_HDR_KIND_HLG, false),
        "YES (HLG)"
    );
    assert_eq!(hdr_status(ffi::UpHdrKind_UP_HDR_KIND_SDR, false), "NO");
    assert_eq!(
        hdr_status(ffi::UpHdrKind_UP_HDR_KIND_UNKNOWN, false),
        "UNKNOWN"
    );
    assert_eq!(
        hdr_status(ffi::UpHdrKind_UP_HDR_KIND_SDR, true),
        "NO (ASSUMED)"
    );
}

#[test]
fn ass_dialogue_is_reduced_to_overlay_text() {
    assert_eq!(
        subtitle_dialogue_text(
            "0,0,Default,,0,0,0,,{\\i1}Hello, world!\\NSecond line",
            true
        ),
        "Hello, world!\nSecond line"
    );
    assert_eq!(
        subtitle_dialogue_text("Français — 日本語 — 希布來語", false),
        "Français - 日本語 - 希布來語"
    );
}

#[test]
fn describe_lists_the_reported_stream_facts() {
    let facts = VideoFacts {
        codec: Some("HEVC".to_owned()),
        profile: Some("MAIN 10".to_owned()),
        pixel_format: None,
        color_space: Some("BT2020NC".to_owned()),
        color_primaries: None,
        color_transfer: Some("SMPTE2084".to_owned()),
        color_range: Some("TV".to_owned()),
        width: 3840,
        height: -2160,
        declared_bitrate: 18_750_000,
        metadata_bitrate: 0,
        container_bitrate: 0,
        hdr_kind: ffi::UpHdrKind_UP_HDR_KIND_PQ,
        color_space_assumed: false,
        color_primaries_assumed: true,
        color_transfer_assumed: false,
        color_range_assumed: true,
        uses_vulkan: false,
    };
    let info = VideoInfo::describe(&facts);
    let expected = [
        "CODEC: HEVC MAIN 10",
        "RESOLUTION: 3840X-2160",
        "BITRATE: 18.8 MBPS",
        "PIXEL FORMAT: UNKNOWN PIXEL FORMAT",
        "DECODE: SOFTWARE",
        "MATRIX: BT2020NC",
        "PRIMARIES: UNKNOWN (ASSUMED)",
        "TRANSFER: SMPTE2084",
        "RANGE: TV (ASSUMED)",
        "HDR: YES (PQ)",
    ];
    for (line, want) in info.lines.iter().zip(expected.iter()) {
        assert_eq!(line, want);
    }
}

#[test]
fn unknown_artist_is_omitted_from_all_metadata_consumers() {
    for artist in ["Unknown", "unknown", "UNKNOWN", " UnKnOwN\n"] {
        let metadata = MediaMetadata {
            title: Some("Movie".into()),
            artist: present_artist(Some(single_line_metadata(artist))),
        };
        assert!(metadata.artist().is_none());
        assert_eq!(metadata.overlay_text(None), "TITLE: MOVIE");
    }
    assert_eq!(
        present_artist(Some("Unknown Mortal Orchestra".into())).as_deref(),
        Some("Unknown Mortal Orchestra")
    );
}

#[test]
fn megabit_ties_round_as_the_double_does() {
    // 1.05 and 1.15 are not dyadic: the nearest doubles lie above and below.
    assert_eq!(format_bitrate(1_050_000), "1.1 MBPS");
    assert_eq!(format_bitrate(1_150_000), "1.1 MBPS");
    // 1.25 and 18.75 are exact doubles: ties go to the even tenth.
    assert_eq!(format_bitrate(1_250_000), "1.2 MBPS");
    assert_eq!(format_bitrate(18_750_000), "18.8 MBPS");
    assert_eq!(format_bitrate(1_049_999), "1.0 MBPS");
    assert_eq!(format_bitrate(1_050_001), "1.1 MBPS");
    for n in [1_000_000_i64, 2_350_000, 7_450_000, 12_650_000, 123_456_789, 99_950_000] {
        assert_eq!(format_bitrate(n), format!("{:.1} MBPS", n as f64 / 1_000_000.0), "{n}");
    }
}
