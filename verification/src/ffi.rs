//! Plain data shared with the native adapters: opaque handles that only the
//! native side dereferences, and the value types that cross the boundary.
use vstd::prelude::*;

verus! {

/// Opaque FFmpeg demuxer handle owned by the native adapter.
pub struct UpAvFormat {
    _opaque: (),
}

/// Opaque FFmpeg decoder handle owned by the native adapter.
pub struct UpAvDecoder {
    _opaque: (),
}

/// Opaque FFmpeg packet handle owned by the native adapter.
pub struct UpAvPacket {
    _opaque: (),
}

/// Opaque FFmpeg frame handle owned by the native adapter.
pub struct UpAvFrame {
    _opaque: (),
}

/// Opaque audio resampler handle owned by the native adapter.
pub struct UpAvAudioConverter {
    _opaque: (),
}

/// Opaque decoded subtitle handle owned by the native adapter.
pub struct UpAvSubtitle {
    _opaque: (),
}

/// Opaque SDL window handle owned by the native adapter.
pub struct UpWindow {
    _opaque: (),
}

/// Opaque SDL audio stream handle owned by the native adapter.
pub struct UpAudioStream {
    _opaque: (),
}

/// Opaque Vulkan/libplacebo renderer handle owned by the native adapter.
pub struct UpVideoRenderer {
    _opaque: (),
}

/// Opaque Wayland input handle owned by the native adapter.
pub struct UpWaylandInput {
    _opaque: (),
}

/// Opaque MPRIS transport handle owned by the native adapter.
pub struct UpMpris {
    _opaque: (),
}

/// A crop rectangle inside a `width` x `height` picture; `right` and `bottom`
/// are exclusive.
#[derive(Debug, Clone, Copy, PartialEq, Eq, Structural)]
pub struct UpVideoCrop {
    pub width: i32,
    pub height: i32,
    pub left: i32,
    pub top: i32,
    pub right: i32,
    pub bottom: i32,
}

/// A copy of one luma plane. Sample `(x, y)` starts at byte
/// `origin + y * stride + x * step` of `data`; a negative stride walks rows
/// upward. Samples are `depth` bits wide, stored `shift` bits up inside one
/// byte, or inside two bytes in the given byte order when `depth + shift > 8`.
pub struct UpLumaView {
    pub data: Vec<u8>,
    pub origin: usize,
    pub width: i32,
    pub height: i32,
    pub stride: i32,
    pub step: i32,
    pub depth: i32,
    pub shift: i32,
    pub big_endian: i32,
    pub full_range: i32,
}

impl UpLumaView {
    /// Byte offset of sample `(x, y)`.
    pub open spec fn offset(&self, x: int, y: int) -> int {
        self.origin + y * self.stride + x * self.step
    }

    /// Bytes per sample.
    pub open spec fn sample_bytes(&self) -> int {
        if self.depth + self.shift <= 8 {
            1
        } else {
            2
        }
    }

    /// Every sample of the picture lies inside `data`, with a supported
    /// bit layout, and the picture area fits the detector's arithmetic.
    pub open spec fn wf(&self) -> bool {
        &&& 0 <= self.width
        &&& 0 <= self.height
        &&& 8 <= self.depth <= 16
        &&& 0 <= self.shift
        &&& self.depth + self.shift <= 16
        &&& self.width * self.height * 5 <= u64::MAX
        &&& self.width * 64 <= usize::MAX
        &&& self.height * 64 <= usize::MAX
        &&& forall|x: int, y: int|
            0 <= x < self.width && 0 <= y < self.height ==> 0 <= #[trigger] self.offset(x, y)
                && self.offset(x, y) + self.sample_bytes() <= self.data@.len()
    }
}

/// A borrowed 8-bit coverage image handed to the renderer, with the revision
/// that tells it when to upload again.
pub struct UpOverlayImage<'a> {
    pub pixels: &'a [u8],
    pub width: i32,
    pub height: i32,
    pub serial: u64,
}

} // verus!

verus! {

#[allow(non_upper_case_globals)]
pub const UpHdrKind_UP_HDR_KIND_SDR: u32 = 0;

#[allow(non_upper_case_globals)]
pub const UpHdrKind_UP_HDR_KIND_PQ: u32 = 1;

#[allow(non_upper_case_globals)]
pub const UpHdrKind_UP_HDR_KIND_HLG: u32 = 2;

#[allow(non_upper_case_globals)]
pub const UpHdrKind_UP_HDR_KIND_UNKNOWN: u32 = 3;

} // verus!

verus! {

/// A text mask shaped by the native text engine, copied out of its surface:
/// `height` rows of `width` coverage bytes, `stride` bytes apart.
pub struct UpTextMask {
    pub pixels: Vec<u8>,
    pub width: i32,
    pub height: i32,
    pub stride: i32,
}

} // verus!

verus! {

/// One overlay frame for the renderer: the text atlas, the title image and
/// the parts that place them on screen.
pub struct UpOverlayFrame<'a, P> {
    pub text: UpOverlayImage<'a>,
    pub title: UpOverlayImage<'a>,
    pub parts: &'a [P],
    pub count: usize,
}

} // verus!

verus! {

#[allow(non_upper_case_globals)]
pub const UpKey_UP_KEY_OTHER: u32 = 0;
#[allow(non_upper_case_globals)]
pub const UpKey_UP_KEY_Q: u32 = 1;
#[allow(non_upper_case_globals)]
pub const UpKey_UP_KEY_J: u32 = 2;
#[allow(non_upper_case_globals)]
pub const UpKey_UP_KEY_LEFT: u32 = 3;
#[allow(non_upper_case_globals)]
pub const UpKey_UP_KEY_RIGHT: u32 = 4;
#[allow(non_upper_case_globals)]
pub const UpKey_UP_KEY_F: u32 = 5;
#[allow(non_upper_case_globals)]
pub const UpKey_UP_KEY_I: u32 = 6;
#[allow(non_upper_case_globals)]
pub const UpKey_UP_KEY_SPACE: u32 = 7;
#[allow(non_upper_case_globals)]
pub const UpKey_UP_KEY_S: u32 = 8;
#[allow(non_upper_case_globals)]
pub const UpKey_UP_KEY_A: u32 = 9;
#[allow(non_upper_case_globals)]
pub const UpKey_UP_KEY_C: u32 = 10;
#[allow(non_upper_case_globals)]
pub const UpKey_UP_KEY_D: u32 = 11;
#[allow(non_upper_case_globals)]
pub const UpKey_UP_KEY_Z: u32 = 12;
#[allow(non_upper_case_globals)]
pub const UpKey_UP_KEY_COMMA: u32 = 13;
#[allow(non_upper_case_globals)]
pub const UpKey_UP_KEY_PERIOD: u32 = 14;

} // verus!
