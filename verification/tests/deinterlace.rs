use undefined_player::deinterlace::{classify, Column, Detector, Mode, Sample};

fn moving_pixels(index: usize, field: i32) -> Vec<Column> {
    let mut pixels = Vec::new();
    for pair in 0..30 {
        let y = 2 + pair * 2;
        for x in 0..64 {
            pixels.push(std::array::from_fn(|row| {
                let line = y + row - 1;
                let time = if field == 0 {
                    index * 2
                } else {
                    index * 2 + usize::from(line % 2 == usize::from(field == 1))
                };
                if (x + time * 3 + line / 8) % 32 < 16 { 32 } else { 208 }
            }));
        }
    }
    pixels
}

fn moving_sample(index: usize, field: i32) -> Sample {
    Sample { pixels: moving_pixels(index, field), dimensions: (64, 64) }
}

#[test]
fn picture_detection_tracks_motion_and_recovers_after_a_mode_change() {
    let mut detector = Detector::default();
    let mut index = 0;
    for field in [0, 1, 2, 0] {
        for _ in 0..12 {
            let detected = detector.observe_sample(moving_sample(index, field), true);
            index += 1;
            if index % 12 == 0 {
                assert_eq!(detected, Some(field));
            }
        }
    }
    // A timestamp gap starts over.
    assert!(detector.observe_sample(moving_sample(index + 10, 1), false).is_none());
    for _ in 0..8 {
        index += 1;
        detector.observe_sample(moving_sample(index + 10, 1), true);
    }
    assert_eq!(detector.detected, Some(1));
    let mut resized = moving_sample(index + 11, 1);
    resized.dimensions = (128, 64);
    assert!(detector.observe_sample(resized, true).is_none());
}

#[test]
fn static_pictures_and_isolated_guesses_cannot_disable_deinterlacing() {
    let still: Vec<Column> = vec![[16; 4]; 128];
    assert_eq!(classify(&still, &still, &still), None);
    let detailed = moving_pixels(5, 0);
    assert_eq!(classify(&detailed, &detailed, &detailed), None);
    let mut detector = Detector::default();
    detector.observe(Some(0));
    detector.observe(Some(1));
    detector.observe(Some(0));
    detector.observe(None);
    assert_eq!(detector.detected, None);
    for _ in 0..3 {
        detector.observe(Some(0));
    }
    assert_eq!(detector.detected, Some(0));
    detector.observe(None);
    assert_eq!(detector.detected, Some(0));
    detector.observe(Some(1));
    detector.observe(Some(1));
    assert_eq!(detector.detected, Some(1));
}

#[test]
fn automatic_and_manual_field_selection() {
    for (mode, expected) in [
        (Mode::Auto, [0, 1, 2]),
        (Mode::On, [1, 1, 2]),
        (Mode::Off, [0, 0, 0]),
    ] {
        for (detected, field) in expected.into_iter().enumerate() {
            assert_eq!(mode.field(detected as i32), field);
        }
    }
    let mut mode = Mode::default();
    assert_eq!(mode.cycle(), "DEINTERLACE: ON");
    assert_eq!(mode.cycle(), "DEINTERLACE: OFF");
    assert_eq!(mode.cycle(), "DEINTERLACE: AUTO");
    assert_eq!(mode, Mode::Auto);
    assert_eq!(Mode::Auto.status(true), "AUTO (ON)");
    assert_eq!(Mode::Auto.status(false), "AUTO (OFF)");
    assert_eq!(Mode::Auto.frame_field(1, Some(0)), 0);
    assert_eq!(Mode::Auto.frame_field(2, None), 2);
    assert_eq!(Mode::On.frame_field(0, Some(0)), 1);
    assert_eq!(Mode::Off.frame_field(1, Some(1)), 0);
}

#[test]
fn runs_count_only_pictures_with_a_verdict() {
    let mut detector = Detector::default();
    detector.observe(Some(2));
    detector.observe(None);
    assert_eq!(detector.detected, None);
    detector.observe(Some(2));
    assert_eq!(detector.detected, Some(2));
    for verdict in [Some(0), None, Some(0), Some(0), None] {
        detector.observe(verdict);
    }
    assert_eq!(detector.detected, Some(2));
    detector.observe(Some(0));
    assert_eq!(detector.detected, Some(0));
}
