//! Fill the viewport after black-border detection, without stretching video.
use vstd::prelude::*;

verus! {

/// The autocrop setting wanted after toggling zoom with `saved` remembered
/// and cropping currently `cropping`, and what is remembered afterwards.
pub open spec fn toggle_spec(saved: Option<bool>, cropping: bool) -> (bool, Option<bool>) {
    match saved {
        Some(s) => (s, None),
        None => (true, Some(cropping)),
    }
}

/// Switching zoom on and off again restores the autocrop setting from before
/// it was switched on, whatever was changed by hand in between.
pub proof fn lemma_zoom_round_trip(cropping: bool, during: bool)
    ensures
        toggle_spec(toggle_spec(None, cropping).1, during) == (cropping, None::<bool>),
        toggle_spec(None, cropping).0,
{
}

/// Zoom-to-fill state. While zoom is enabled it remembers the autocrop
/// preference from before zoom was switched on.
pub struct Zoom {
    pub saved_crop: Option<bool>,
}

impl Default for Zoom {
    /// Zoom off.
    fn default() -> (r: Self)
        ensures
            r.saved_crop is None,
    {
        Zoom { saved_crop: None }
    }
}

impl Zoom {
    /// Returns the desired autocrop setting. Manual crop changes during zoom are
    /// temporary; leaving zoom restores the setting from before it was enabled.
    pub fn toggle(&mut self, cropping: bool) -> (desired: bool)
        ensures
            (desired, final(self).saved_crop) == toggle_spec(old(self).saved_crop, cropping),
    {
        if let Some(saved) = self.saved_crop.take() {
            saved
        } else {
            self.saved_crop = Some(cropping);
            true
        }
    }

    pub fn enabled(&self) -> (r: bool)
        ensures
            r == self.saved_crop is Some,
    {
        self.saved_crop.is_some()
    }

    /// Whether the picture should currently be trimmed to fill the window.
    pub fn fill(&self, cropping: bool, crop_ready: bool, unavailable: bool) -> (r: bool)
        ensures
            r == (self.saved_crop is Some && (!cropping || crop_ready || unavailable)),
    {
        self.enabled() && (!cropping || crop_ready || unavailable)
    }

    pub fn status(&self, fill: bool) -> (r: &'static str)
        ensures
            r@ == (if fill {
                "FILL"@
            } else if self.saved_crop is Some {
                "FILL (DETECTING)"@
            } else {
                "FIT"@
            }),
    {
        if fill {
            "FILL"
        } else if self.enabled() {
            "FILL (DETECTING)"
        } else {
            "FIT"
        }
    }
}

} // verus!
