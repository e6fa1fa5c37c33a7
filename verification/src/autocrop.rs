//! Black-bar detection on sampled luma, and the stabilising tracker that turns
//! detections into a crop. Sampling frames on a worker stays with the player.
use crate::ffi;
use vstd::prelude::*;

verus! {

pub type Crop = ffi::UpVideoCrop;

/// `pixel` answers for every sample of a `width` x `height` picture.
pub open spec fn pixel_callable<F: Fn(usize, usize) -> u8>(pixel: F, width: usize, height: usize) -> bool {
    forall|x: usize, y: usize| x < width && y < height ==> call_requires(pixel, (x, y))
}

/// Inside the picture, every answer of `pixel` is the value of `g`.
pub open spec fn pixel_agrees<F: Fn(usize, usize) -> u8>(
    pixel: F,
    g: spec_fn(usize, usize) -> u8,
    width: usize,
    height: usize,
) -> bool {
    forall|x: usize, y: usize, v: u8|
        x < width && y < height && #[trigger] call_ensures(pixel, (x, y), v) ==> v == g(x, y)
}

/// `pixel` answers for every sample of a `width` x `height` picture and
/// always gives the same value for the same position.
pub open spec fn pixel_ok<F: Fn(usize, usize) -> u8>(pixel: F, width: usize, height: usize) -> bool {
    &&& pixel_callable(pixel, width, height)
    &&& forall|x: usize, y: usize, a: u8, b: u8|
        #![trigger call_ensures(pixel, (x, y), a), call_ensures(pixel, (x, y), b)]
        call_ensures(pixel, (x, y), a) && call_ensures(pixel, (x, y), b) ==> a == b
}

/// The picture that a deterministic `pixel` function describes.
pub open spec fn grid<F: Fn(usize, usize) -> u8>(pixel: F) -> spec_fn(usize, usize) -> u8 {
    |x: usize, y: usize| choose|v: u8| call_ensures(pixel, (x, y), v)
}

/// Position of probe `i` of the 64 evenly spaced probes along a line.
pub open spec fn probe_position(extent: usize, i: int) -> int {
    i * (extent - 1) / 63
}

/// The sample at probe `i` of row `line` (or of column `line` when `vertical`).
pub open spec fn probe(
    g: spec_fn(usize, usize) -> u8,
    extent: usize,
    vertical: bool,
    line: int,
    i: int,
) -> u8 {
    if vertical {
        g(line as usize, probe_position(extent, i) as usize)
    } else {
        g(probe_position(extent, i) as usize, line as usize)
    }
}

/// Some of the 64 probes of the line is brighter than `black`.
pub open spec fn has_content(
    g: spec_fn(usize, usize) -> u8,
    extent: usize,
    black: u8,
    vertical: bool,
    line: int,
) -> bool {
    exists|i: int| 0 <= i < 64 && #[trigger] probe(g, extent, vertical, line, i) > black
}

/// The first line in `lo..hi` with content.
pub open spec fn first_line(
    g: spec_fn(usize, usize) -> u8,
    extent: usize,
    black: u8,
    vertical: bool,
    lo: int,
    hi: int,
) -> Option<int>
    decreases hi - lo,
{
    if lo >= hi {
        None
    } else if has_content(g, extent, black, vertical, lo) {
        Some(lo)
    } else {
        first_line(g, extent, black, vertical, lo + 1, hi)
    }
}

/// The last line in `lo..hi` with content.
pub open spec fn last_line(
    g: spec_fn(usize, usize) -> u8,
    extent: usize,
    black: u8,
    vertical: bool,
    lo: int,
    hi: int,
) -> Option<int>
    decreases hi - lo,
{
    if lo >= hi {
        None
    } else if has_content(g, extent, black, vertical, hi - 1) {
        Some(hi - 1)
    } else {
        last_line(g, extent, black, vertical, lo, hi - 1)
    }
}

/// Brightness a sample needs to count as clearly lit content.
pub open spec fn bright_threshold(black: u8) -> int {
    if black + 16 > 255 {
        255
    } else {
        black + 16
    }
}

/// Cell `k` (row-major) of the 16 x 16 brightness grid over the content box
/// is clearly lit.
pub open spec fn bright_cell(
    g: spec_fn(usize, usize) -> u8,
    left: int,
    top: int,
    right: int,
    bottom: int,
    black: u8,
    k: int,
) -> bool {
    g(
        (left + (k % 16) * (right - left - 1) / 15) as usize,
        (top + (k / 16) * (bottom - top - 1) / 15) as usize,
    ) > bright_threshold(black)
}

/// Number of clearly lit cells among the first `n` cells of the grid.
pub open spec fn bright_count(
    g: spec_fn(usize, usize) -> u8,
    left: int,
    top: int,
    right: int,
    bottom: int,
    black: u8,
    n: int,
) -> int
    decreases n,
{
    if n <= 0 {
        0
    } else {
        bright_count(g, left, top, right, bottom, black, n - 1) + if bright_cell(
            g,
            left,
            top,
            right,
            bottom,
            black,
            n - 1,
        ) {
            1int
        } else {
            0int
        }
    }
}

/// Rounds a content box outward: edges within four pixels of the frame snap
/// to it, the others move to even positions that keep every content pixel.
pub open spec fn rounded_crop(
    width: usize,
    height: usize,
    left: int,
    top: int,
    right: int,
    bottom: int,
) -> Crop {
    Crop {
        width: width as i32,
        height: height as i32,
        left: if left <= 4 {
            0
        } else {
            (left - left % 2) as i32
        },
        top: if top <= 4 {
            0
        } else {
            (top - top % 2) as i32
        },
        right: (if width - right <= 4 {
            width as int
        } else {
            (right + 1) - (right + 1) % 2
        }) as i32,
        bottom: (if height - bottom <= 4 {
            height as int
        } else {
            (bottom + 1) - (bottom + 1) % 2
        }) as i32,
    }
}

/// The crop chosen for the box `left..right` x `top..bottom`: none when the
/// box is a small highlight, or when too little of it is clearly lit.
pub open spec fn crop_for_box(
    g: spec_fn(usize, usize) -> u8,
    width: usize,
    height: usize,
    black: u8,
    left: int,
    top: int,
    right: int,
    bottom: int,
) -> Option<Crop> {
    let content_width = right - left;
    let content_height = bottom - top;
    if content_width * content_height * 5 < width * height || (content_width < width / 2
        && content_height < height / 2) {
        None
    } else if bright_count(g, left, top, right, bottom, black, 256) < 32 {
        None
    } else {
        Some(rounded_crop(width, height, left, top, right, bottom))
    }
}

/// Black-bar detection: the box spanned by the first and last rows and
/// columns whose probes show content, judged by `crop_for_box`.
pub open spec fn detect_spec(
    g: spec_fn(usize, usize) -> u8,
    width: usize,
    height: usize,
    black: u8,
) -> Option<Crop> {
    if width < 16 || height < 16 {
        None
    } else {
        match first_line(g, width, black, false, 0, height as int) {
            None => None,
            Some(top) => match last_line(g, width, black, false, top, height as int) {
                None => None,
                Some(last_row) => match first_line(g, height, black, true, 0, width as int) {
                    None => None,
                    Some(left) => match last_line(g, height, black, true, left, width as int) {
                        None => None,
                        Some(last_column) => crop_for_box(
                            g,
                            width,
                            height,
                            black,
                            left,
                            top,
                            last_column + 1,
                            last_row + 1,
                        ),
                    },
                },
            },
        }
    }
}

proof fn lemma_first_line_range(g: spec_fn(usize, usize) -> u8, extent: usize, black: u8, vertical: bool, lo: int, hi: int)
    ensures
        first_line(g, extent, black, vertical, lo, hi) matches Some(i) ==> lo <= i < hi,
    decreases hi - lo,
{
    if lo < hi && !has_content(g, extent, black, vertical, lo) {
        lemma_first_line_range(g, extent, black, vertical, lo + 1, hi);
    }
}

proof fn lemma_last_line_range(g: spec_fn(usize, usize) -> u8, extent: usize, black: u8, vertical: bool, lo: int, hi: int)
    ensures
        last_line(g, extent, black, vertical, lo, hi) matches Some(i) ==> lo <= i < hi,
    decreases hi - lo,
{
    if lo < hi && !has_content(g, extent, black, vertical, hi - 1) {
        lemma_last_line_range(g, extent, black, vertical, lo, hi - 1);
    }
}

/// A detected crop lies inside the picture with its size, starts on even
/// pixels, ends on an even pixel or the picture edge, and covers at least a
/// fifth of the picture; pictures under 16 pixels either way give none.
pub proof fn lemma_detected_crop_bounds(g: spec_fn(usize, usize) -> u8, width: usize, height: usize, black: u8)
    requires
        width <= i32::MAX,
        height <= i32::MAX,
    ensures
        width < 16 || height < 16 ==> detect_spec(g, width, height, black) is None,
        detect_spec(g, width, height, black) matches Some(c) ==> {
            &&& c.width == width && c.height == height
            &&& 0 <= c.left < c.right <= width
            &&& 0 <= c.top < c.bottom <= height
            &&& c.left % 2 == 0 && c.top % 2 == 0
            &&& (c.right % 2 == 0 || c.right == width)
            &&& (c.bottom % 2 == 0 || c.bottom == height)
            &&& 5 * (c.right - c.left) * (c.bottom - c.top) >= width * height
        },
{
    if width >= 16 && height >= 16 {
        lemma_first_line_range(g, width, black, false, 0, height as int);
        if let Some(top) = first_line(g, width, black, false, 0, height as int) {
            lemma_last_line_range(g, width, black, false, top, height as int);
            if let Some(last_row) = last_line(g, width, black, false, top, height as int) {
                lemma_first_line_range(g, height, black, true, 0, width as int);
                if let Some(left) = first_line(g, height, black, true, 0, width as int) {
                    lemma_last_line_range(g, height, black, true, left, width as int);
                    if let Some(last_column) = last_line(g, height, black, true, left, width as int) {
                        let right = last_column + 1;
                        let bottom = last_row + 1;
                        if let Some(c) = crop_for_box(g, width, height, black, left, top, right, bottom) {
                            let cw = right - left;
                            let ch = bottom - top;
                            assert(cw * ch * 5 >= width * height);
                            assert(c.left <= left && c.top <= top && right <= c.right && bottom <= c.bottom);
                            assert(5 * (c.right - c.left) * (c.bottom - c.top) >= cw * ch * 5) by (nonlinear_arith)
                                requires
                                    c.right - c.left >= cw,
                                    c.bottom - c.top >= ch,
                                    cw >= 0,
                                    ch >= 0;
                        }
                    }
                }
            }
        }
    }
}

proof fn lemma_probe_in_range(extent: usize, i: int)
    requires
        extent >= 1,
        0 <= i < 64,
    ensures
        0 <= probe_position(extent, i) < extent,
{
    assert(0 <= i * (extent - 1) <= 63 * (extent - 1)) by (nonlinear_arith)
        requires
            0 <= i <= 63,
            extent >= 1,
    ;
}

proof fn lemma_grid_cell(lo: int, k: int, span: int)
    requires
        0 <= k <= 15,
        span >= 1,
        lo >= 0,
    ensures
        lo <= lo + k * (span - 1) / 15 < lo + span,
{
    assert(0 <= k * (span - 1) <= 15 * (span - 1)) by (nonlinear_arith)
        requires
            0 <= k <= 15,
            span >= 1,
    ;
}

fn read_pixel<F: Fn(usize, usize) -> u8>(
    pixel: &F,
    Ghost(g): Ghost<spec_fn(usize, usize) -> u8>,
    x: usize,
    y: usize,
    width: usize,
    height: usize,
) -> (v: u8)
    requires
        pixel_callable(*pixel, width, height),
        pixel_agrees(*pixel, g, width, height),
        x < width,
        y < height,
    ensures
        v == g(x, y),
{
    let v = pixel(x, y);
    assert(call_ensures(*pixel, (x, y), v));
    v
}

fn line_has_content<F: Fn(usize, usize) -> u8>(
    pixel: &F,
    Ghost(g): Ghost<spec_fn(usize, usize) -> u8>,
    width: usize,
    height: usize,
    black: u8,
    vertical: bool,
    line: usize,
) -> (r: bool)
    requires
        pixel_callable(*pixel, width, height),
        pixel_agrees(*pixel, g, width, height),
        width >= 1,
        height >= 1,
        width * 64 <= usize::MAX,
        height * 64 <= usize::MAX,
        line < if vertical {
            width
        } else {
            height
        },
    ensures
        r == has_content(g, if vertical { height } else { width }, black, vertical, line as int),
{
    let extent = if vertical {
        height
    } else {
        width
    };
    let mut i: usize = 0;
    while i < 64
        invariant
            0 <= i <= 64,
            extent == if vertical {
                height
            } else {
                width
            },
            pixel_callable(*pixel, width, height),
        pixel_agrees(*pixel, g, width, height),
            width >= 1,
            height >= 1,
            width * 64 <= usize::MAX,
            height * 64 <= usize::MAX,
            line < if vertical {
                width
            } else {
                height
            },
            forall|j: int| 0 <= j < i ==> #[trigger] probe(g, extent, vertical, line as int, j) <= black,
        decreases 64 - i,
    {
        proof {
            lemma_probe_in_range(extent, i as int);
            assert(i * (extent - 1) <= 64 * extent) by (nonlinear_arith)
                requires
                    i < 64,
                    extent >= 1,
            ;
        }
        let position = i * (extent - 1) / 63;
        let value = if vertical {
            read_pixel(pixel, Ghost(g), line, position, width, height)
        } else {
            read_pixel(pixel, Ghost(g), position, line, width, height)
        };
        assert(value == probe(g, extent, vertical, line as int, i as int));
        if value > black {
            return true;
        }
        i = i + 1;
    }
    false
}

fn find_first_line<F: Fn(usize, usize) -> u8>(
    pixel: &F,
    Ghost(g): Ghost<spec_fn(usize, usize) -> u8>,
    width: usize,
    height: usize,
    black: u8,
    vertical: bool,
    lo: usize,
    hi: usize,
) -> (r: Option<usize>)
    requires
        pixel_callable(*pixel, width, height),
        pixel_agrees(*pixel, g, width, height),
        width >= 1,
        height >= 1,
        width * 64 <= usize::MAX,
        height * 64 <= usize::MAX,
        lo <= hi,
        hi == if vertical {
            width
        } else {
            height
        },
    ensures
        r matches Some(v) ==> first_line(g, if vertical { height } else { width }, black, vertical, lo as int, hi as int) == Some(v as int),
        r is None ==> first_line(g, if vertical { height } else { width }, black, vertical, lo as int, hi as int) is None,
{
    let ghost extent = if vertical {
        height
    } else {
        width
    };
    let mut line = lo;
    while line < hi
        invariant
            lo <= line <= hi,
            hi == if vertical {
                width
            } else {
                height
            },
            extent == if vertical {
                height
            } else {
                width
            },
            pixel_callable(*pixel, width, height),
        pixel_agrees(*pixel, g, width, height),
            width >= 1,
            height >= 1,
            width * 64 <= usize::MAX,
            height * 64 <= usize::MAX,
            first_line(g, extent, black, vertical, lo as int, hi as int) == first_line(
                g,
                extent,
                black,
                vertical,
                line as int,
                hi as int,
            ),
        decreases hi - line,
    {
        if line_has_content(pixel, Ghost(g), width, height, black, vertical, line) {
            return Some(line);
        }
        line = line + 1;
    }
    None
}

fn find_last_line<F: Fn(usize, usize) -> u8>(
    pixel: &F,
    Ghost(g): Ghost<spec_fn(usize, usize) -> u8>,
    width: usize,
    height: usize,
    black: u8,
    vertical: bool,
    lo: usize,
    hi: usize,
) -> (r: Option<usize>)
    requires
        pixel_callable(*pixel, width, height),
        pixel_agrees(*pixel, g, width, height),
        width >= 1,
        height >= 1,
        width * 64 <= usize::MAX,
        height * 64 <= usize::MAX,
        lo <= hi,
        hi == if vertical {
            width
        } else {
            height
        },
    ensures
        r matches Some(v) ==> last_line(g, if vertical { height } else { width }, black, vertical, lo as int, hi as int) == Some(v as int) && lo <= v < hi,
        r is None ==> last_line(g, if vertical { height } else { width }, black, vertical, lo as int, hi as int) is None,
{
    let ghost extent = if vertical {
        height
    } else {
        width
    };
    let mut end = hi;
    while end > lo
        invariant
            lo <= end <= hi,
            hi == if vertical {
                width
            } else {
                height
            },
            extent == if vertical {
                height
            } else {
                width
            },
            pixel_callable(*pixel, width, height),
        pixel_agrees(*pixel, g, width, height),
            width >= 1,
            height >= 1,
            width * 64 <= usize::MAX,
            height * 64 <= usize::MAX,
            last_line(g, extent, black, vertical, lo as int, hi as int) == last_line(
                g,
                extent,
                black,
                vertical,
                lo as int,
                end as int,
            ),
        decreases end - lo,
    {
        if line_has_content(pixel, Ghost(g), width, height, black, vertical, end - 1) {
            return Some(end - 1);
        }
        end = end - 1;
    }
    None
}

proof fn lemma_first_line_bounds(
    g: spec_fn(usize, usize) -> u8,
    extent: usize,
    black: u8,
    vertical: bool,
    lo: int,
    hi: int,
)
    ensures
        first_line(g, extent, black, vertical, lo, hi) matches Some(v) ==> lo <= v < hi
            && has_content(g, extent, black, vertical, v),
    decreases hi - lo,
{
    if lo < hi {
        lemma_first_line_bounds(g, extent, black, vertical, lo + 1, hi);
    }
}

proof fn lemma_last_line_found(
    g: spec_fn(usize, usize) -> u8,
    extent: usize,
    black: u8,
    vertical: bool,
    lo: int,
    hi: int,
)
    requires
        lo < hi,
        has_content(g, extent, black, vertical, lo),
    ensures
        last_line(g, extent, black, vertical, lo, hi) is Some,
    decreases hi - lo,
{
    if !has_content(g, extent, black, vertical, hi - 1) {
        lemma_last_line_found(g, extent, black, vertical, lo, hi - 1);
    }
}

fn count_bright<F: Fn(usize, usize) -> u8>(
    pixel: &F,
    Ghost(g): Ghost<spec_fn(usize, usize) -> u8>,
    width: usize,
    height: usize,
    black: u8,
    left: usize,
    top: usize,
    right: usize,
    bottom: usize,
) -> (count: usize)
    requires
        pixel_callable(*pixel, width, height),
        pixel_agrees(*pixel, g, width, height),
        left < right <= width,
        top < bottom <= height,
        width * 64 <= usize::MAX,
        height * 64 <= usize::MAX,
    ensures
        count == bright_count(g, left as int, top as int, right as int, bottom as int, black, 256),
{
    let threshold = black.saturating_add(16);
    let mut count: usize = 0;
    let mut k: usize = 0;
    while k < 256
        invariant
            0 <= k <= 256,
            count <= k,
            threshold == bright_threshold(black),
            pixel_callable(*pixel, width, height),
        pixel_agrees(*pixel, g, width, height),
            left < right <= width,
            top < bottom <= height,
            width * 64 <= usize::MAX,
            height * 64 <= usize::MAX,
            count == bright_count(g, left as int, top as int, right as int, bottom as int, black, k as int),
        decreases 256 - k,
    {
        let x = k % 16;
        let y = k / 16;
        proof {
            lemma_grid_cell(left as int, x as int, (right - left) as int);
            lemma_grid_cell(top as int, y as int, (bottom - top) as int);
            assert(x * (right - left - 1) <= 15 * width) by (nonlinear_arith)
                requires
                    x <= 15,
                    right - left - 1 <= width,
            ;
            assert(y * (bottom - top - 1) <= 15 * height) by (nonlinear_arith)
                requires
                    y <= 15,
                    bottom - top - 1 <= height,
            ;
        }
        let value = read_pixel(
            pixel,
            Ghost(g),
            left + x * (right - left - 1) / 15,
            top + y * (bottom - top - 1) / 15,
            width,
            height,
        );
        if value > threshold {
            count = count + 1;
        }
        k = k + 1;
    }
    count
}

/// Finds the picture inside black bars: the first and last rows and columns
/// where one of 64 evenly spaced probes is brighter than `black`. Small
/// highlights, fades and very dark scenes give no answer. The box is rounded
/// outward so that edge pixels and subsampled chroma stay intact.
pub fn detect<F: Fn(usize, usize) -> u8>(width: usize, height: usize, black: u8, pixel: F) -> (r:
    Option<Crop>)
    requires
        pixel_ok(pixel, width, height),
        width * 64 <= usize::MAX,
        height * 64 <= usize::MAX,
        width * height * 5 <= u64::MAX,
    ensures
        r == detect_spec(grid(pixel), width, height, black),
{
    let ghost g = grid(pixel);
    assert(pixel_agrees(pixel, g, width, height)) by {
        assert forall|x: usize, y: usize, v: u8|
            x < width && y < height && #[trigger] call_ensures(pixel, (x, y), v) implies v == g(
            x,
            y,
        ) by {
            let w = choose|w: u8| call_ensures(pixel, (x, y), w);
            assert(call_ensures(pixel, (x, y), w));
        }
    }
    detect_with(width, height, black, &pixel, Ghost(g))
}

fn detect_with<F: Fn(usize, usize) -> u8>(
    width: usize,
    height: usize,
    black: u8,
    pixel: &F,
    Ghost(g): Ghost<spec_fn(usize, usize) -> u8>,
) -> (r: Option<Crop>)
    requires
        pixel_callable(*pixel, width, height),
        pixel_agrees(*pixel, g, width, height),
        width * 64 <= usize::MAX,
        height * 64 <= usize::MAX,
        width * height * 5 <= u64::MAX,
    ensures
        r == detect_spec(g, width, height, black),
{
    if width < 16 || height < 16 {
        return None;
    }
    let top = match find_first_line(pixel, Ghost(g), width, height, black, false, 0, height) {
        Some(top) => top,
        None => return None,
    };
    proof {
        lemma_first_line_bounds(g, width, black, false, 0, height as int);
        lemma_last_line_found(g, width, black, false, top as int, height as int);
    }
    let last_row = match find_last_line(pixel, Ghost(g), width, height, black, false, top, height) {
        Some(row) => row,
        None => return None,
    };
    let bottom = last_row + 1;
    let left = match find_first_line(pixel, Ghost(g), width, height, black, true, 0, width) {
        Some(left) => left,
        None => return None,
    };
    proof {
        lemma_first_line_bounds(g, height, black, true, 0, width as int);
        lemma_last_line_found(g, height, black, true, left as int, width as int);
    }
    let last_column = match find_last_line(pixel, Ghost(g), width, height, black, true, left, width) {
        Some(column) => column,
        None => return None,
    };
    let right = last_column + 1;
    let content_width = right - left;
    let content_height = bottom - top;
    proof {
        assert(content_width * content_height <= width * height) by (nonlinear_arith)
            requires
                content_width <= width,
                content_height <= height,
        ;
    }
    let content_area = content_width as u64 * content_height as u64;
    let frame_area = width as u64 * height as u64;
    if content_area * 5 < frame_area || (content_width < width / 2 && content_height < height
        / 2) {
        return None;
    }
    let bright = count_bright(pixel, Ghost(g), width, height, black, left, top, right, bottom);
    if bright < 32 {
        return None;
    }
    let crop_left = if left <= 4 {
        0
    } else {
        #[verifier::truncate] ((left - left % 2) as i32)
    };
    let crop_top = if top <= 4 {
        0
    } else {
        #[verifier::truncate] ((top - top % 2) as i32)
    };
    let crop_right = (if width - right <= 4 {
        width
    } else {
        (right + 1) - (right + 1) % 2
    }) as i32;
    let crop_bottom = (if height - bottom <= 4 {
        height
    } else {
        (bottom + 1) - (bottom + 1) % 2
    }) as i32;
    Some(
        Crop {
            width: width as i32,
            height: height as i32,
            left: crop_left,
            top: crop_top,
            right: crop_right,
            bottom: crop_bottom,
        },
    )
}

} // verus!

verus! {

/// The smallest crop containing both crops; the frame size is `a`'s.
pub open spec fn union_spec(a: Crop, b: Crop) -> Crop {
    Crop {
        left: if a.left <= b.left { a.left } else { b.left },
        top: if a.top <= b.top { a.top } else { b.top },
        right: if a.right >= b.right { a.right } else { b.right },
        bottom: if a.bottom >= b.bottom { a.bottom } else { b.bottom },
        ..a
    }
}

/// Same frame size, and every edge within four pixels.
pub open spec fn close_spec(a: Crop, b: Crop) -> bool {
    &&& a.width == b.width
    &&& a.height == b.height
    &&& -4 <= a.left - b.left <= 4
    &&& -4 <= a.top - b.top <= 4
    &&& -4 <= a.right - b.right <= 4
    &&& -4 <= a.bottom - b.bottom <= 4
}

/// Crop `outer` contains crop `inner`.
pub open spec fn contains(outer: Crop, inner: Crop) -> bool {
    outer.left <= inner.left && outer.top <= inner.top && inner.right <= outer.right
        && inner.bottom <= outer.bottom
}

pub fn union(a: Crop, b: Crop) -> (r: Crop)
    ensures
        r == union_spec(a, b),
{
    Crop {
        left: if a.left <= b.left { a.left } else { b.left },
        top: if a.top <= b.top { a.top } else { b.top },
        right: if a.right >= b.right { a.right } else { b.right },
        bottom: if a.bottom >= b.bottom { a.bottom } else { b.bottom },
        ..a
    }
}

fn within_four(a: i32, b: i32) -> (r: bool)
    ensures
        r == (-4 <= a - b <= 4),
{
    let difference = a as i64 - b as i64;
    -4 <= difference && difference <= 4
}

pub fn close(a: Crop, b: Crop) -> (r: bool)
    ensures
        r == close_spec(a, b),
{
    a.width == b.width && a.height == b.height && within_four(a.left, b.left) && within_four(
        a.top,
        b.top,
    ) && within_four(a.right, b.right) && within_four(a.bottom, b.bottom)
}

/// The union of all crops, folded from the front; none for no crops.
pub open spec fn union_all(crops: Seq<Crop>) -> Option<Crop>
    decreases crops.len(),
{
    if crops.len() == 0 {
        None
    } else if crops.len() == 1 {
        Some(crops[0])
    } else {
        Some(union_spec(union_all(crops.drop_last())->0, crops.last()))
    }
}

/// A detection of another frame size restarts tracking.
pub open spec fn resized(crop: Option<Crop>, sample: Crop) -> bool {
    match crop {
        Some(c) => c.width != sample.width || c.height != sample.height,
        None => false,
    }
}

/// Some remembered detection is not close to `sample`.
pub open spec fn unstable(history: Seq<Crop>, sample: Crop) -> bool {
    exists|i: int| 0 <= i < history.len() && !close_spec(#[trigger] history[i], sample)
}

/// The last (at most three) mutually close detections after `sample`.
pub open spec fn observed_history(crop: Option<Crop>, history: Seq<Crop>, sample: Crop) -> Seq<
    Crop,
> {
    let kept = if resized(crop, sample) || unstable(history, sample) {
        Seq::<Crop>::empty()
    } else {
        history
    };
    let pushed = kept.push(sample);
    if pushed.len() > 3 {
        pushed.drop_first()
    } else {
        pushed
    }
}

/// The crop after `sample`: the union of the stable history once it holds
/// three detections or while paused; otherwise the current crop widened to
/// reveal `sample`.
pub open spec fn observed_crop(
    crop: Option<Crop>,
    history: Seq<Crop>,
    sample: Crop,
    paused: bool,
) -> Option<Crop> {
    let next_history = observed_history(crop, history, sample);
    if paused || next_history.len() == 3 {
        union_all(next_history)
    } else if resized(crop, sample) {
        None
    } else {
        match crop {
            Some(current) => Some(union_spec(current, sample)),
            None => None,
        }
    }
}

/// The union of two crops contains both.
pub proof fn lemma_union_contains(a: Crop, b: Crop)
    ensures
        contains(union_spec(a, b), a),
        contains(union_spec(a, b), b),
{
}

/// The union of a non-empty run of crops contains each of them.
pub proof fn lemma_union_all_contains(crops: Seq<Crop>)
    requires
        crops.len() > 0,
    ensures
        union_all(crops) is Some,
        forall|i: int| 0 <= i < crops.len() ==> contains(union_all(crops)->0, #[trigger] crops[i]),
    decreases crops.len(),
{
    if crops.len() > 1 {
        lemma_union_all_contains(crops.drop_last());
        let u = union_all(crops.drop_last())->0;
        assert forall|i: int| 0 <= i < crops.len() implies contains(union_all(crops)->0, #[trigger] crops[i]) by {
            if i < crops.len() - 1 {
                assert(crops.drop_last()[i] == crops[i]);
            }
        }
    }
}

/// New picture content is revealed at once: whatever crop a detection
/// leaves contains that detection.
pub proof fn lemma_detection_is_revealed(crop: Option<Crop>, history: Seq<Crop>, sample: Crop, paused: bool)
    ensures
        observed_crop(crop, history, sample, paused) matches Some(c) ==> contains(c, sample),
{
    let next = observed_history(crop, history, sample);
    assert(next.len() > 0 && next.last() == sample);
    lemma_union_all_contains(next);
    assert(next[next.len() - 1] == sample);
    if let Some(current) = crop {
        lemma_union_contains(current, sample);
    }
}

/// The union of crops of one frame size has that size.
pub proof fn lemma_union_all_size(crops: Seq<Crop>, width: i32, height: i32)
    requires
        crops.len() > 0,
        forall|i: int| 0 <= i < crops.len() ==> #[trigger] crops[i].width == width && crops[i].height == height,
    ensures
        union_all(crops) matches Some(c) && c.width == width && c.height == height,
    decreases crops.len(),
{
    if crops.len() > 1 {
        assert forall|i: int| 0 <= i < crops.len() - 1 implies #[trigger] crops.drop_last()[i].width == width
            && crops.drop_last()[i].height == height by {
            assert(crops.drop_last()[i] == crops[i]);
        }
        lemma_union_all_size(crops.drop_last(), width, height);
    }
}

/// Whatever crop a detection leaves has the detection's frame size; a paused
/// picture always gets a crop; a detection of another frame size drops the
/// crop until it settles.
pub proof fn lemma_crop_follows_frame_size(crop: Option<Crop>, history: Seq<Crop>, sample: Crop, paused: bool)
    ensures
        observed_crop(crop, history, sample, paused) matches Some(c) ==> c.width == sample.width && c.height
            == sample.height,
        paused ==> observed_crop(crop, history, sample, paused) is Some,
        resized(crop, sample) && !paused ==> observed_crop(crop, history, sample, paused) is None,
{
    let next = observed_history(crop, history, sample);
    assert forall|i: int| 0 <= i < next.len() implies #[trigger] next[i].width == sample.width && next[i].height
        == sample.height by {
        let kept = if resized(crop, sample) || unstable(history, sample) {
            Seq::<Crop>::empty()
        } else {
            history
        };
        let pushed = kept.push(sample);
        let j = if pushed.len() > 3 { i + 1 } else { i };
        assert(next[i] == pushed[j]);
        if j < kept.len() {
            assert(!unstable(history, sample));
            assert(close_spec(history[j], sample));
        }
    }
    assert(next.len() > 0);
    lemma_union_all_size(next, sample.width, sample.height);
    if resized(crop, sample) {
        assert(next.len() == 1);
    }
}

/// A crop only tightens on three stable detections or a paused picture:
/// otherwise a detection of the same frame size keeps everything the crop
/// showed.
pub proof fn lemma_crop_only_widens_while_unsettled(current: Crop, history: Seq<Crop>, sample: Crop)
    requires
        !resized(Some(current), sample),
        observed_history(Some(current), history, sample).len() < 3,
    ensures
        observed_crop(Some(current), history, sample, false) matches Some(c) && contains(c, current),
{
    lemma_union_contains(current, sample);
}

/// Stabilises detections. A crop only tightens after three consecutive close
/// samples (or one while paused); content outside the crop is revealed at once.
pub struct Tracker {
    pub crop: Option<Crop>,
    pub history: std::collections::VecDeque<Crop>,
}

impl Tracker {
    pub open spec fn wf(&self) -> bool {
        self.history@.len() <= 3
    }

}

impl Default for Tracker {
    /// No crop and no history.
    fn default() -> (r: Self)
        ensures
            r.crop is None,
            r.history@ == Seq::<Crop>::empty(),
    {
        Tracker { crop: None, history: std::collections::VecDeque::new() }
    }
}

impl Tracker {
    /// Feeds one detection result (`None` for a frame without usable bars).
    pub fn observe(&mut self, sample: Option<Crop>, paused: bool)
        requires
            old(self).wf(),
        ensures
            final(self).wf(),
            match sample {
                None => final(self).crop == old(self).crop && final(self).history@ == Seq::<
                    Crop,
                >::empty(),
                Some(sample) => {
                    &&& final(self).history@ == observed_history(
                        old(self).crop,
                        old(self).history@,
                        sample,
                    )
                    &&& final(self).crop == observed_crop(
                        old(self).crop,
                        old(self).history@,
                        sample,
                        paused,
                    )
                },
            },
    {
        let sample = match sample {
            Some(sample) => sample,
            None => {
                self.history.clear();
                return ;
            },
        };
        let resized = match self.crop {
            Some(c) => c.width != sample.width || c.height != sample.height,
            None => false,
        };
        if resized {
            *self = Tracker::default();
        }
        if let Some(current) = self.crop {
            self.crop = Some(union(current, sample));
        }
        let ghost before = self.history@;
        let mut unstable = false;
        let mut i: usize = 0;
        let length = self.history.len();
        while i < length
            invariant
                0 <= i <= length,
                length == self.history@.len(),
                self.history@ == before,
                unstable == exists|j: int| 0 <= j < i && !close_spec(#[trigger] before[j], sample),
            decreases length - i,
        {
            if !close(self.history[i], sample) {
                unstable = true;
            }
            i = i + 1;
        }
        if unstable {
            self.history.clear();
        }
        self.history.push_back(sample);
        let ghost pushed = self.history@;
        if self.history.len() > 3 {
            self.history.pop_front();
            assert(self.history@ == pushed.drop_first());
        }
        assert(self.history@ == observed_history(old(self).crop, old(self).history@, sample));
        if paused || self.history.len() == 3 {
            self.crop = union_history(&self.history);
        }
    }
}

fn union_history(history: &std::collections::VecDeque<Crop>) -> (r: Option<Crop>)
    ensures
        r == union_all(history@),
{
    if history.len() == 0 {
        return None;
    }
    let mut acc = history[0];
    let mut i: usize = 1;
    proof {
        assert(history@.subrange(0, 1).drop_last() == Seq::<Crop>::empty());
    }
    while i < history.len()
        invariant
            1 <= i <= history@.len(),
            union_all(history@.subrange(0, i as int)) == Some(acc),
        decreases history@.len() - i,
    {
        proof {
            assert(history@.subrange(0, i + 1).drop_last() == history@.subrange(0, i as int));
        }
        acc = union(acc, history[i]);
        i = i + 1;
    }
    proof {
        assert(history@.subrange(0, history@.len() as int) == history@);
    }
    Some(acc)
}

/// A copy of one luma plane with sample access independent of bit depth.
pub struct Luma(pub ffi::UpLumaView);

/// The 8-bit luma of sample `(x, y)`.
pub open spec fn sample_spec(v: &ffi::UpLumaView, x: int, y: int) -> u8 {
    let o = v.offset(x, y);
    let raw: u32 = if v.depth + v.shift <= 8 {
        v.data@[o] as u32
    } else if v.big_endian != 0 {
        ((v.data@[o] as u32) * 256 + v.data@[o + 1] as u32) as u32
    } else {
        ((v.data@[o] as u32) + (v.data@[o + 1] as u32) * 256) as u32
    };
    let component = (raw >> (v.shift as u32)) & ((1u32 << (v.depth as u32)) - 1u32) as u32;
    (component >> ((v.depth - 8) as u32)) as u8
}

impl Luma {
    /// Reads sample `(x, y)` and scales it to eight bits.
    pub fn sample(&self, x: usize, y: usize) -> (r: u8)
        requires
            self.0.wf(),
            x < self.0.width,
            y < self.0.height,
        ensures
            r == sample_spec(&self.0, x as int, y as int),
    {
        let v = &self.0;
        let length = v.data.len();
        assert(0 <= v.offset(x as int, y as int) && v.offset(x as int, y as int) + v.sample_bytes()
            <= length);
        assert(-0x4000_0000_0000_0000 <= y * v.stride <= 0x4000_0000_0000_0000) by (nonlinear_arith)
            requires
                0 <= y <= 0x8000_0000,
                -0x8000_0000 <= v.stride <= 0x8000_0000,
        ;
        assert(-0x4000_0000_0000_0000 <= x * v.step <= 0x4000_0000_0000_0000) by (nonlinear_arith)
            requires
                0 <= x <= 0x8000_0000,
                -0x8000_0000 <= v.step <= 0x8000_0000,
        ;
        let row = y as i128 * v.stride as i128;
        let column = x as i128 * v.step as i128;
        let offset = (v.origin as i128 + row + column) as usize;
        assert(offset == v.offset(x as int, y as int));
        let raw: u32 = if v.depth + v.shift <= 8 {
            v.data[offset] as u32
        } else if v.big_endian != 0 {
            (v.data[offset] as u32) * 256 + v.data[offset + 1] as u32
        } else {
            (v.data[offset] as u32) + (v.data[offset + 1] as u32) * 256
        };
        let depth = v.depth as u32;
        assert(1u32 << depth >= 1) by (bit_vector)
            requires
                depth <= 16,
        ;
        let mask: u32 = (1u32 << depth) - 1;
        let component = (raw >> (v.shift as u32)) & mask;
        #[verifier::truncate]
        ((component >> ((v.depth - 8) as u32)) as u8)
    }

    /// Black-bar detection on this plane. Limited-range video is black up to
    /// 24, full-range video up to 8.
    pub fn detect(&self) -> (r: Option<Crop>)
        requires
            self.0.wf(),
        ensures
            r == detect_spec(
                |x: usize, y: usize| sample_spec(&self.0, x as int, y as int),
                self.0.width as usize,
                self.0.height as usize,
                if self.0.full_range != 0 {
                    8u8
                } else {
                    24u8
                },
            ),
    {
        let width = self.0.width as usize;
        let height = self.0.height as usize;
        let black: u8 = if self.0.full_range != 0 {
            8
        } else {
            24
        };
        let pixel = |x: usize, y: usize| -> (v: u8)
            requires
                x < width,
                y < height,
            ensures
                v == sample_spec(&self.0, x as int, y as int),
            { self.sample(x, y) };
        detect_with(
            width,
            height,
            black,
            &pixel,
            Ghost(|x: usize, y: usize| sample_spec(&self.0, x as int, y as int)),
        )
    }
}

} // verus!

verus! {

/// A detection result from the worker, tagged with the generation it was
/// asked in; `Err` when the frame's pixel format cannot be read.
pub struct Answer {
    pub generation: u64,
    pub crop: Result<Option<Crop>, ()>,
    pub paused: bool,
}

/// The automatic crop state: whether it is on, whether the video cannot be
/// sampled, the generation that stale answers are told apart by, and the
/// tracker of detected crops.
pub struct AutoCrop {
    pub enabled: bool,
    pub unavailable: bool,
    pub generation: u64,
    pub tracker: Tracker,
}

/// The generation after `g`, wrapping.
pub open spec fn next_generation(g: u64) -> u64 {
    if g == u64::MAX { 0 } else { (g + 1) as u64 }
}

impl Default for AutoCrop {
    /// Off, with nothing detected.
    fn default() -> (r: Self)
        ensures
            !r.enabled,
            !r.unavailable,
            r.generation == 0,
            r.tracker.crop is None,
            r.tracker.history@.len() == 0,
    {
        AutoCrop { enabled: false, unavailable: false, generation: 0, tracker: Tracker::default() }
    }
}

impl AutoCrop {
    pub open spec fn wf(&self) -> bool {
        self.tracker.wf()
    }

    /// Forgets everything detected and starts a new generation, so answers
    /// to earlier requests are ignored. Called for seeks and track changes.
    pub fn reset(&mut self)
        ensures
            final(self).enabled == old(self).enabled,
            !final(self).unavailable,
            final(self).generation == next_generation(old(self).generation),
            final(self).tracker.crop is None,
            final(self).tracker.history@.len() == 0,
            final(self).wf(),
    {
        self.generation = if self.generation == u64::MAX { 0 } else { self.generation + 1 };
        self.tracker = Tracker::default();
        self.unavailable = false;
    }

    /// Turns cropping on or off and starts over. Turning it on needs the
    /// detection worker; `worker_ready` tells whether it runs. Returns whether
    /// cropping is on.
    pub fn toggle(&mut self, worker_ready: bool) -> (on: bool)
        ensures
            !old(self).enabled && !worker_ready ==> !on && *final(self) == *old(self),
            old(self).enabled || worker_ready ==> {
                &&& on == !old(self).enabled
                &&& final(self).enabled == on
                &&& !final(self).unavailable
                &&& final(self).generation == next_generation(old(self).generation)
                &&& final(self).tracker.crop is None
                &&& final(self).tracker.history@.len() == 0
            },
            final(self).wf() || *final(self) == *old(self),
    {
        if !self.enabled && !worker_ready {
            return false;
        }
        self.enabled = !self.enabled;
        self.reset();
        self.enabled
    }

    /// The crop to apply: the tracked crop while cropping is on.
    pub fn crop(&self) -> (r: Option<Crop>)
        ensures
            r == (if self.enabled { self.tracker.crop } else { None }),
    {
        if self.enabled { self.tracker.crop } else { None }
    }

    /// Takes a worker answer: ignored when cropping is off or the answer is
    /// from an earlier generation; a detection goes to the tracker; an
    /// unreadable frame marks the video unavailable.
    pub fn accept_answer(&mut self, answer: Answer)
        requires
            old(self).wf(),
        ensures
            final(self).wf(),
            final(self).enabled == old(self).enabled,
            final(self).generation == old(self).generation,
            !old(self).enabled || answer.generation != old(self).generation ==> *final(self) == *old(self),
            old(self).enabled && answer.generation == old(self).generation ==> match answer.crop {
                Ok(None) => final(self).tracker.crop == old(self).tracker.crop
                    && final(self).tracker.history@.len() == 0
                    && final(self).unavailable == old(self).unavailable,
                Ok(Some(sample)) => final(self).tracker.history@ == observed_history(
                    old(self).tracker.crop,
                    old(self).tracker.history@,
                    sample,
                ) && final(self).tracker.crop == observed_crop(
                    old(self).tracker.crop,
                    old(self).tracker.history@,
                    sample,
                    answer.paused,
                ) && final(self).unavailable == old(self).unavailable,
                Err(()) => final(self).unavailable && final(self).tracker == old(self).tracker,
            },
    {
        if !self.enabled || answer.generation != self.generation {
            return;
        }
        match answer.crop {
            Ok(crop) => self.tracker.observe(crop, answer.paused),
            Err(()) => {
                self.unavailable = true;
            },
        }
    }
}

/// After a reset, no answer asked for before it can change the crop.
pub proof fn lemma_reset_discards_stale_answers(before: AutoCrop, after: AutoCrop, stale: u64)
    requires
        after.generation == next_generation(before.generation),
        stale == before.generation,
    ensures
        stale != after.generation,
{
}

} // verus!
