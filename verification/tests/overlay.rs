use undefined_player::ffi::UpTextMask;
use undefined_player::overlay::{
    pixel_width, Image, Mask, PixelGlyph, ACCENT_PAD, BASE_HEIGHT, CELL, DETAILS_Y, GLYPH_HEIGHT,
    HEIGHT, INFO_Y, METADATA_Y, POSITION_Y, SCALE, WIDTH,
};

fn rendered(text: &str) -> (Image, usize) {
    let mut image = Image::new(HEIGHT);
    let width = image.text(0, INFO_Y, text);
    (image, width)
}

/// Stands in for the native text engine: every shaped run is a solid block
/// ten pixels wide per character and twenty pixels high.
fn block_shaper(run: &str) -> Result<UpTextMask, String> {
    let width = 10 * run.chars().count() as i32;
    Ok(UpTextMask {
        pixels: vec![255; (width * 20) as usize],
        width,
        height: 20,
        stride: width,
    })
}

#[test]
fn printable_ascii_keeps_real_symbols() {
    let (question, _) = rendered("?");
    for character in b'!'..=b'~' {
        let text = char::from(character).to_string();
        let (image, width) = rendered(&text);
        assert_eq!(width, 10);
        assert!(image.pixels.iter().any(|p| *p != 0), "{text}");
        if character != b'?' {
            assert!(image.pixels != question.pixels, "{text} rendered as ?");
        }
    }
    let (space, width) = rendered(" ");
    assert_eq!(width, 10);
    assert!(space.pixels.iter().all(|p| *p == 0));
    assert_eq!(
        rendered("abcdefghijklmnopqrstuvwxyz").0.pixels,
        rendered("ABCDEFGHIJKLMNOPQRSTUVWXYZ").0.pixels
    );
}

#[test]
fn latin_accents_keep_ascii_letter_size_and_cell_spacing() {
    let plain = "GACEGLNORSZU";
    let accented = "GĀČĒĢĻŅŌŖŠŽŪ";
    let (reference, _) = rendered(plain);
    let (actual, width) = rendered(accented);
    assert_eq!(width, pixel_width(accented.chars().count()));
    for y in INFO_Y + ACCENT_PAD..INFO_Y + ACCENT_PAD + BASE_HEIGHT {
        assert_eq!(
            &actual.pixels[y * WIDTH..y * WIDTH + width],
            &reference.pixels[y * WIDTH..y * WIDTH + width],
            "accented letters must retain the ASCII body and spacing at row {y}"
        );
    }
    assert_eq!(actual.pixels, rendered("gāčēģļņōŗšžū").0.pixels);
    assert_eq!(actual.pixels, rendered("GA\u{304}C\u{30c}E\u{304}G\u{327}L\u{327}N\u{327}O\u{304}R\u{327}S\u{30c}Z\u{30c}U\u{304}").0.pixels);
    for (index, character) in accented.chars().enumerate().skip(1) {
        let below = matches!(character, 'Ģ' | 'Ļ' | 'Ņ' | 'Ŗ');
        let start = INFO_Y + if below { ACCENT_PAD + BASE_HEIGHT } else { 0 };
        assert!(
            (start..start + ACCENT_PAD).any(|y| {
                actual.pixels[y * WIDTH + index * CELL..y * WIDTH + index * CELL + 10]
                    .iter()
                    .any(|p| *p != 0)
            }),
            "{character} is missing its accent"
        );
    }
}

#[test]
fn unicode_and_decomposed_accents_are_preserved() {
    let (actual, width) = rendered("AUDIO: 1 / 2 - FRA - FRANÇAIS - AC3");
    assert_eq!(width, 35 * CELL - SCALE);
    assert_eq!(
        actual.pixels,
        rendered("AUDIO: 1 / 2 - FRA - FRANC\u{327}AIS - AC3").0.pixels
    );
    assert!(actual.pixels != rendered("AUDIO: 1 / 2 - FRA - FRAN?AIS - AC3").0.pixels);
    for text in ["Ç", "Š", "Ā", "É", "FRANÇAIS", "LATVIEŠU", "日本語", "🗼"] {
        for row in [INFO_Y, POSITION_Y, DETAILS_Y] {
            let mut image = Image::new(HEIGHT);
            let width = image.text_shaped(0, row, text, &block_shaper).unwrap();
            let mut visible = false;
            for (index, alpha) in image.pixels.iter().enumerate() {
                if *alpha != 0 {
                    visible = true;
                    assert!(
                        (row..row + GLYPH_HEIGHT).contains(&(index / WIDTH)),
                        "{text}"
                    );
                    assert!(index % WIDTH < width, "{text}");
                }
            }
            assert!(visible, "{text}");
        }
    }
}

#[test]
fn mask_scaling_keeps_all_four_edges() {
    let mut pixels = [0; 10 * 20];
    for corner in [0, 9, 190, 199] {
        pixels[corner] = 255;
    }
    let mut image = Image::new(HEIGHT);
    image.fit_mask(
        0,
        POSITION_Y,
        10,
        Mask {
            pixels: pixels.to_vec(),
            width: 10,
            height: 20,
            stride: 10,
        },
    );
    for y in 0..14 {
        for x in 0..10 {
            let alpha = image.pixels[(POSITION_Y + y) * WIDTH + x];
            if (y == 0 || y == 13) && (x == 1 || x == 7) {
                assert!((124..=126).contains(&alpha));
            } else {
                assert_eq!(alpha, 0);
            }
        }
    }
}

#[test]
fn latin_pixel_accents_do_not_swallow_adjacent_fallback_text() {
    for character in "ÉÈÊËÅÄÖÜÑÕĄĘǍĚŠŽŐŰḌ".chars() {
        let glyph = PixelGlyph::for_character(character).unwrap();
        let mut actual = Image::new(HEIGHT);
        actual
            .text_shaped(0, INFO_Y, &format!("日本語{character}🗼"), &block_shaper)
            .unwrap();
        let (reference, _) = rendered(&char::from(glyph.base).to_string());
        for y in INFO_Y + ACCENT_PAD..INFO_Y + ACCENT_PAD + BASE_HEIGHT {
            assert_eq!(
                &actual.pixels[y * WIDTH + 3 * CELL..y * WIDTH + 3 * CELL + 10],
                &reference.pixels[y * WIDTH..y * WIDTH + 10],
                "{character}"
            );
        }
    }
    for character in ['ḗ', 'ǜ', 'ΐ', '日'] {
        assert!(PixelGlyph::for_character(character).is_none());
        let mut image = Image::new(HEIGHT);
        image
            .text_shaped(0, INFO_Y, &character.to_string(), &block_shaper)
            .unwrap();
        assert!(image.pixels.iter().any(|p| *p != 0));
    }
}

#[test]
fn text_without_a_shaper_leaves_unknown_cells_blank() {
    let (image, width) = rendered("A日B");
    assert_eq!(width, pixel_width(3));
    let (a, _) = rendered("A");
    let (b, _) = rendered("B");
    for y in 0..HEIGHT {
        assert_eq!(&image.pixels[y * WIDTH..y * WIDTH + 10], &a.pixels[y * WIDTH..y * WIDTH + 10]);
        assert!(image.pixels[y * WIDTH + CELL..y * WIDTH + 2 * CELL].iter().all(|p| *p == 0));
        assert_eq!(
            &image.pixels[y * WIDTH + 2 * CELL..y * WIDTH + 2 * CELL + 10],
            &b.pixels[y * WIDTH..y * WIDTH + 10]
        );
    }
}

#[test]
fn text_is_bounded_by_the_image_width_and_height() {
    let mut image = Image::new(HEIGHT);
    let long = "A".repeat(200);
    assert_eq!(image.text(0, INFO_Y, &long), pixel_width(WIDTH / CELL));
    assert_eq!(image.text(WIDTH, INFO_Y, &long), 0);
    assert_eq!(image.text(usize::MAX, INFO_Y, &long), 0);
    assert_eq!(image.text(0, HEIGHT - GLYPH_HEIGHT + 1, "A"), 0);
    image.glyph(usize::MAX, usize::MAX, b'A');
}

#[test]
fn shaping_errors_are_returned() {
    let mut image = Image::new(HEIGHT);
    let failing = |_: &str| -> Result<UpTextMask, String> { Err("no font".into()) };
    assert_eq!(image.text_shaped(0, INFO_Y, "AB", &failing), Ok(pixel_width(2)));
    assert_eq!(
        image.text_shaped(0, INFO_Y, "A日", &failing),
        Err("no font".to_string())
    );
}

use undefined_player::overlay::{Content, Overlays, Prepared, LINE_ADVANCE, MAX_LINES, TITLE_HEIGHT};

fn content(title: &str) -> Content<'_> {
    Content { title, info: "", details: "", metadata: "", position: "" }
}

fn no_shaping(_: &str) -> Result<UpTextMask, String> {
    Ok(UpTextMask { pixels: vec![], width: 0, height: 0, stride: 0 })
}

#[test]
fn caches_track_content_and_title_width_without_truncating_keys() {
    let mut overlays = Overlays::default();
    let title = "A".repeat(600);
    overlays.update(&content(&title), 1280, &no_shaping).unwrap();
    let first = (overlays.text.serial, overlays.title.serial);
    overlays.update(&content(&title), 1280, &no_shaping).unwrap();
    assert_eq!(first, (overlays.text.serial, overlays.title.serial));
    overlays.update(&content(&title), 640, &no_shaping).unwrap();
    assert_eq!(overlays.text.serial, first.0);
    assert_eq!(overlays.title.serial, first.1 + 1);
    overlays
        .update(&Content { position: "1:23", ..content(&title) }, 640, &no_shaping)
        .unwrap();
    assert_eq!(overlays.text.serial, first.0 + 1);
    overlays.update(&content(&title), 640, &no_shaping).unwrap();
    assert_eq!(overlays.position_width, 0);
    assert!(overlays.text.pixels[POSITION_Y * WIDTH..(POSITION_Y + GLYPH_HEIGHT) * WIDTH]
        .iter()
        .all(|p| *p == 0));
}

#[test]
fn title_truncation_and_invisible_names_are_safe() {
    let mut overlays = Overlays::default();
    let long = "日本語".repeat(300);
    for width in [1, 84, 96, 120, 1280, i32::MAX] {
        overlays.update(&content(&long), width, &block_shaper).unwrap();
        assert!(overlays.title_width <= WIDTH);
        assert!(overlays.title.pixels.iter().any(|p| *p != 0));
    }
    // 84 reserved pixels plus five cells: keep two letters and three dots.
    overlays.update(&content("ABCDEF"), 84 + 5 * CELL as i32, &no_shaping).unwrap();
    let mut expected = Image::new(TITLE_HEIGHT);
    expected.text(0, 1, "AB...");
    assert_eq!(overlays.title.pixels, expected.pixels);
    for invisible in ["\u{200b}", "\u{ad}", "   "] {
        overlays.update(&content(invisible), 1280, &no_shaping).unwrap();
        assert!(overlays.title.pixels.iter().any(|p| *p != 0));
    }
    overlays.update(&content(""), 1280, &no_shaping).unwrap();
    assert_eq!(overlays.title_width, 0);
    assert!(overlays.title.pixels.iter().all(|p| *p == 0));
}

#[test]
fn text_and_detail_buffers_are_bounded() {
    let mut image = Image::new(HEIGHT);
    let long = "A".repeat(83) + &"日本語".repeat(100);
    assert_eq!(image.text(0, INFO_Y, &long), pixel_width(WIDTH / CELL));
    assert_eq!(image.text(WIDTH, INFO_Y, &long), 0);
    assert_eq!(image.text(usize::MAX, INFO_Y, &long), 0);
    image.glyph(usize::MAX, usize::MAX, b'A');
    let mut overlays = Overlays::default();
    overlays
        .update(&Content { details: &"ÅÇ\n".repeat(100), ..content("") }, 1280, &no_shaping)
        .unwrap();
    assert_eq!(overlays.details_height, (MAX_LINES - 1) * LINE_ADVANCE + GLYPH_HEIGHT);
    assert!(DETAILS_Y + overlays.details_height <= HEIGHT);
    assert_eq!(overlays.details_width, pixel_width(2));
    let last_y = DETAILS_Y + (MAX_LINES - 1) * LINE_ADVANCE;
    let mut expected = Image::new(HEIGHT);
    expected.text(0, last_y, "ÅÇ");
    assert_eq!(&overlays.text.pixels[last_y * WIDTH..], &expected.pixels[last_y * WIDTH..]);
}

#[test]
fn details_use_even_spacing_and_preserve_accents() {
    let mut overlays = Overlays::default();
    overlays
        .update(&Content { details: "A\nÅ\nÇ\nĀ\nG", ..content("") }, 640, &no_shaping)
        .unwrap();
    let mut expected = Image::new(HEIGHT);
    for (line, text) in ["A", "Å", "Ç", "Ā", "G"].into_iter().enumerate() {
        let origin = line * LINE_ADVANCE;
        expected.text(0, DETAILS_Y + origin, text);
    }
    assert_eq!(&overlays.text.pixels[DETAILS_Y * WIDTH..], &expected.pixels[DETAILS_Y * WIDTH..]);
    assert_eq!(overlays.details_height, 4 * LINE_ADVANCE + GLYPH_HEIGHT);
}

#[test]
fn metadata_rows_align_right_and_clear_when_emptied() {
    let mut overlays = Overlays::default();
    overlays.update(&content(""), 1280, &no_shaping).unwrap();
    overlays
        .update_metadata("TITLE: SEVEN SAMURAI\nARTIST: AKIRA KUROSAWA\nCHAPTER 2 / 29", 1280, &no_shaping)
        .unwrap();
    assert_eq!(overlays.metadata_width, pixel_width("ARTIST: AKIRA KUROSAWA".len()));
    assert_eq!(overlays.metadata_height, 2 * LINE_ADVANCE + GLYPH_HEIGHT);
    let serial = overlays.text.serial;
    overlays
        .update_metadata("TITLE: SEVEN SAMURAI\nARTIST: AKIRA KUROSAWA\nCHAPTER 2 / 29", 1280, &no_shaping)
        .unwrap();
    assert_eq!(overlays.text.serial, serial);
    for line in 0..3 {
        let top = METADATA_Y + line * LINE_ADVANCE;
        let rows = &overlays.text.pixels[top * WIDTH..(top + GLYPH_HEIGHT) * WIDTH];
        let right = rows
            .chunks(WIDTH)
            .flat_map(|row| row.iter().enumerate().filter(|(_, p)| **p > 0).map(|(x, _)| x))
            .max()
            .unwrap();
        assert!(right < overlays.metadata_width && overlays.metadata_width - (right + 1) <= SCALE);
    }
    overlays.update_metadata("", 1280, &no_shaping).unwrap();
    assert_eq!(overlays.metadata_width, 0);
    assert!(overlays.text.pixels[METADATA_Y * WIDTH..].iter().all(|p| *p == 0));
}

#[test]
fn descriptors_hand_over_the_images_and_parts() {
    let overlays = Overlays::default();
    let parts = [1u8, 2, 3];
    let prepared = Prepared { text: &overlays.text, title: &overlays.title, parts: &parts };
    let frame = prepared.descriptor();
    assert_eq!(frame.count, 3);
    assert_eq!(frame.text.width as usize, WIDTH);
    assert_eq!(frame.text.height as usize, HEIGHT);
    assert_eq!(frame.title.height as usize, TITLE_HEIGHT);
    assert_eq!(frame.text.pixels.len(), WIDTH * HEIGHT);
    assert_eq!(frame.parts, &parts);
}

#[test]
fn faint_mask_edge_stays_visible_after_shrinking() {
    let mut pixels = vec![0u8; 40 * 80];
    pixels[0] = 1;
    pixels[40 * 80 - 1] = 1;
    let mut image = Image::new(HEIGHT);
    image.fit_mask(0, POSITION_Y, 10, Mask { pixels, width: 40, height: 80, stride: 40 });
    let mut lit = 0;
    for y in 0..BASE_HEIGHT {
        for x in 0..10 {
            if image.pixels[(POSITION_Y + y) * WIDTH + x] != 0 {
                lit += 1;
            }
        }
    }
    assert!(lit >= 1);
    let outside = image.pixels.iter().enumerate().filter(|(i, p)| {
        let (row, column) = (i / WIDTH, i % WIDTH);
        **p != 0 && !(row >= POSITION_Y && row < POSITION_Y + BASE_HEIGHT && column < 10)
    });
    assert_eq!(outside.count(), 0);
}
