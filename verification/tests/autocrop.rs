use undefined_player::autocrop::{detect, Crop};

fn bars(left: usize, top: usize, right: usize, bottom: usize) -> Crop {
    detect(720, 480, 24, |x, y| {
        if (left..right).contains(&x) && (top..bottom).contains(&y) {
            160
        } else {
            16
        }
    })
    .unwrap()
}

#[test]
fn detects_letterbox_pillarbox_and_rounds_outward() {
    assert_eq!(
        bars(0, 113, 720, 371),
        Crop { width: 720, height: 480, left: 0, top: 112, right: 720, bottom: 372 }
    );
    assert_eq!(
        bars(91, 0, 631, 480),
        Crop { width: 720, height: 480, left: 90, top: 0, right: 632, bottom: 480 }
    );
    assert_eq!(
        bars(80, 60, 640, 420),
        Crop { width: 720, height: 480, left: 80, top: 60, right: 640, bottom: 420 }
    );
    assert_eq!(
        bars(0, 0, 720, 480),
        Crop { width: 720, height: 480, left: 0, top: 0, right: 720, bottom: 480 }
    );
    assert!(detect(720, 480, 24, |_, _| 16).is_none());
    assert!(
        detect(720, 480, 24, |x, y| {
            if (300..400).contains(&x) && (200..300).contains(&y) {
                180
            } else {
                16
            }
        })
        .is_none()
    );
    assert!(detect(720, 480, 24, |_, _| 30).is_none());
}

#[test]
fn narrow_pictures_are_not_mistaken_for_dark_scene_highlights() {
    for expected in [
        Crop { width: 1920, height: 1080, left: 656, top: 0, right: 1264, bottom: 1080 },
        Crop { width: 1920, height: 1080, left: 0, top: 360, right: 1920, bottom: 720 },
        Crop { width: 1920, height: 1080, left: 672, top: 28, right: 1248, bottom: 1052 },
    ] {
        let actual = detect(
            expected.width as usize,
            expected.height as usize,
            24,
            |x, y| {
                if (expected.left..expected.right).contains(&(x as i32))
                    && (expected.top..expected.bottom).contains(&(y as i32))
                {
                    160
                } else {
                    16
                }
            },
        );
        assert_eq!(actual, Some(expected));
    }
    assert!(
        detect(1920, 1080, 24, |x, _| {
            if (800..1120).contains(&x) { 160 } else { 16 }
        })
        .is_none()
    );
}

use undefined_player::autocrop::{Answer, AutoCrop, Luma, Tracker};
use undefined_player::ffi::UpLumaView;

#[test]
fn crop_waits_for_stability_ignores_fades_and_reveals_new_content() {
    let cropped = bars(0, 113, 720, 371);
    let full = bars(0, 0, 720, 480);
    let mut tracker = Tracker::default();
    for _ in 0..2 {
        tracker.observe(Some(cropped), false);
        assert!(tracker.crop.is_none());
    }
    tracker.observe(Some(cropped), false);
    assert_eq!(tracker.crop, Some(cropped));
    tracker.observe(None, false);
    assert_eq!(tracker.crop, Some(cropped));
    tracker.observe(Some(full), false);
    assert_eq!(tracker.crop, Some(full));
    tracker.observe(Some(cropped), false);
    assert_eq!(tracker.crop, Some(full));
    tracker.observe(Some(full), false);
    tracker.observe(Some(cropped), false);
    assert_eq!(tracker.crop, Some(full));
    tracker.observe(Some(cropped), true);
    assert_eq!(tracker.crop, Some(cropped));
}

#[test]
fn seek_reset_discards_stale_answers_even_if_the_paused_target_is_dark() {
    let old = bars(0, 112, 720, 372);
    let mut crop = AutoCrop { enabled: true, ..Default::default() };
    crop.tracker.observe(Some(old), true);
    let old_generation = crop.generation;
    crop.reset();
    assert!(crop.crop().is_none());
    for result in [Ok(Some(old)), Err(())] {
        crop.accept_answer(Answer { generation: old_generation, crop: result, paused: true });
        assert!(crop.crop().is_none());
        assert!(!crop.unavailable);
    }
    crop.accept_answer(Answer { generation: crop.generation, crop: Ok(None), paused: true });
    assert!(crop.crop().is_none());
    let new = bars(90, 0, 630, 480);
    crop.accept_answer(Answer { generation: crop.generation, crop: Ok(Some(new)), paused: true });
    assert_eq!(crop.crop(), Some(new));
    crop.accept_answer(Answer { generation: crop.generation, crop: Err(()), paused: true });
    assert!(crop.unavailable);
}

#[test]
fn disabling_and_resetting_discard_detected_crop() {
    let mut crop = AutoCrop { enabled: true, ..Default::default() };
    crop.tracker.observe(Some(bars(0, 112, 720, 372)), true);
    assert!(crop.crop().is_some());
    let generation = crop.generation;
    assert!(!crop.toggle(true));
    assert!(crop.crop().is_none());
    assert_ne!(crop.generation, generation);
    // Turning it on needs the detection worker.
    assert!(!crop.toggle(false));
    assert!(!crop.enabled);
    assert!(crop.toggle(true));
}

#[test]
fn luma_sampling_handles_depth_byte_order_and_negative_stride() {
    for (depth, shift, big_endian) in [(8, 0, 0), (10, 0, 0), (10, 6, 0), (12, 0, 1), (16, 0, 1)] {
        let bytes: usize = if depth + shift <= 8 { 1 } else { 2 };
        let mut data = vec![0u8; 8 * bytes];
        for (i, luma) in [16u16, 40, 100, 240, 240, 100, 40, 16].into_iter().enumerate() {
            let encoded = luma << (depth - 8 + shift);
            if bytes == 1 {
                data[i] = encoded as u8;
            } else {
                let value = if big_endian != 0 { encoded.to_be_bytes() } else { encoded.to_le_bytes() };
                data[i * 2..i * 2 + 2].copy_from_slice(&value);
            }
        }
        let view = Luma(UpLumaView {
            data,
            origin: 4 * bytes,
            width: 4,
            height: 2,
            stride: -(4 * bytes as i32),
            step: bytes as i32,
            depth,
            shift,
            big_endian,
            full_range: 0,
        });
        assert_eq!(view.sample(0, 0), 240);
        assert_eq!(view.sample(3, 0), 16);
        assert_eq!(view.sample(0, 1), 16);
        assert_eq!(view.sample(3, 1), 240);
    }
}
