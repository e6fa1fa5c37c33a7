//! Verified playback policy and overlay logic for a Wayland video player.
pub mod ffi;
pub mod zoom;
pub mod autocrop;
pub mod text;
pub mod subtitles;
pub mod metadata;
pub mod cli;
pub mod pixel_font;
pub mod overlay;
pub mod window;
pub mod presentation;
pub mod deinterlace;
pub mod mpris;
pub mod read_ahead;
pub mod chapters;
