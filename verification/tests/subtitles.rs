use undefined_player::subtitles::{
    bitmap_storage, compose_bitmap_rect, subtitle_canvas, subtitle_content, BitmapRect,
    SubtitleContent,
};

#[test]
fn the_subtitle_canvas_falls_back_to_the_video_size() {
    assert_eq!(subtitle_canvas((1920, 1080), (720, 576)), (720, 576));
    assert_eq!(subtitle_canvas((1920, 1080), (0, -1)), (1920, 1080));
    assert_eq!(subtitle_canvas((1920, 1080), (720, 0)), (720, 1080));
}

#[test]
fn bitmap_storage_is_bounded() {
    assert_eq!(bitmap_storage(4, 3), Some(48));
    assert_eq!(bitmap_storage(0, 3), Some(0));
    assert_eq!(bitmap_storage(-1, 3), None);
    assert_eq!(bitmap_storage(16384, 8192), Some(512 * 1024 * 1024));
    assert_eq!(bitmap_storage(16384, 8193), None);
    assert_eq!(bitmap_storage(i32::MAX, i32::MAX), None);
}

#[test]
fn bitmap_rectangles_are_clipped_and_converted_to_rgba() {
    let mut canvas = vec![0_u8; 4 * 4 * 2];
    // A 3x2 rectangle hanging off the left edge; index 2 is beyond the palette.
    let rect = BitmapRect { x: -1, y: 0, width: 3, height: 2, line_size: 4, color_count: 2 };
    let indices = [1, 0, 2, 9, 1, 1, 0, 9];
    let palette = [0x8011_2233_u32, 0xff44_5566];
    assert!(compose_bitmap_rect(4, 2, &rect, &indices, &palette, &mut canvas));
    // Row 0: canvas x 0 takes index 0, x 1 index 2 (skipped).
    assert_eq!(&canvas[0..4], &[0x11, 0x22, 0x33, 0x80]);
    assert_eq!(&canvas[4..8], &[0, 0, 0, 0]);
    // Row 1: canvas x 0 takes index 1, x 1 index 0.
    assert_eq!(&canvas[16..20], &[0x44, 0x55, 0x66, 0xff]);
    assert_eq!(&canvas[20..24], &[0x11, 0x22, 0x33, 0x80]);
    assert!(canvas[8..16].iter().all(|b| *b == 0));
    assert!(canvas[24..32].iter().all(|b| *b == 0));
    let empty = BitmapRect { x: 0, y: 0, width: 0, height: 2, line_size: 4, color_count: 2 };
    assert!(!compose_bitmap_rect(4, 2, &empty, &[], &palette, &mut canvas));
}

#[test]
fn bitmaps_come_before_text_and_text_before_clear() {
    let texts = vec!["One".to_owned(), String::new(), "Two".to_owned()];
    match subtitle_content(Some((2, 1, vec![1; 8])), texts.clone()) {
        SubtitleContent::Bitmap { width, height, pixels } => {
            assert_eq!((width, height, pixels.len()), (2, 1, 8))
        }
        _ => panic!("a drawn bitmap is shown"),
    }
    match subtitle_content(None, texts) {
        SubtitleContent::Text(text) => assert_eq!(text, "One\nTwo"),
        _ => panic!("text is shown"),
    }
    assert!(matches!(subtitle_content(None, vec![String::new()]), SubtitleContent::Clear));
}
