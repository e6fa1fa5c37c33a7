use undefined_player::zoom::Zoom;

#[test]
fn restores_crop_preference_and_waits_for_detection() {
    for before in [false, true] {
        let mut zoom = Zoom::default();
        assert!(zoom.toggle(before));
        assert!(!zoom.fill(true, false, false));
        assert_eq!(zoom.status(false), "FILL (DETECTING)");
        assert!(zoom.fill(true, true, false));
        assert!(zoom.fill(true, false, true));
        assert!(zoom.fill(false, false, false));
        // Even an explicit C change while zoomed must not lose the saved setting.
        assert_eq!(zoom.toggle(!before), before);
        assert!(!zoom.enabled());
        assert!(!zoom.fill(true, true, false));
        assert_eq!(zoom.status(false), "FIT");
    }
}

#[test]
fn fill_status_reports_fill_once_ready() {
    let mut zoom = Zoom::default();
    zoom.toggle(true);
    assert_eq!(zoom.status(true), "FILL");
}
