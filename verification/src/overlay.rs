//! Overlay images: the 5x7 pixel font with Latin accents, area-averaged
//! fitting of shaped text masks, and the cached text layers that the renderer
//! uploads. Shaping of characters outside the pixel font is done by the caller
//! and handed in as coverage masks.
use vstd::prelude::*;
use crate::ffi::{UpOverlayFrame, UpOverlayImage, UpTextMask};
use crate::pixel_font::rows_spec;
use crate::text::{decompose, is_ascii_spec, nfc, nfd_of, nfc_of, chars_of, string_of};

verus! {

/// Width of every overlay image in pixels.
pub const WIDTH: usize = 1024;
/// Height of the text atlas.
pub const HEIGHT: usize = 704;
/// Each font pixel is drawn as a `SCALE` x `SCALE` square.
pub const SCALE: usize = 2;
/// Height of a letter body.
pub const BASE_HEIGHT: usize = 7 * SCALE;
/// Accents occupy their own rows so the 5x7 letter bodies never shrink.
pub const ACCENT_PAD: usize = 3 * SCALE + 1;
/// Height of a text line: accent rows, letter body, accent rows.
pub const GLYPH_HEIGHT: usize = BASE_HEIGHT + 2 * ACCENT_PAD;
/// Horizontal advance of one character.
pub const CELL: usize = 6 * SCALE;
/// Height of the title image.
pub const TITLE_HEIGHT: usize = GLYPH_HEIGHT + 2;
/// Atlas row of the statistics line.
pub const INFO_Y: usize = 16;
/// Atlas position of the close button glyph.
pub const CLOSE_X: usize = WIDTH - 12;
pub const CLOSE_Y: usize = 48;
/// Atlas row of the position line.
pub const POSITION_Y: usize = 80;
/// Atlas row of the first details line.
pub const DETAILS_Y: usize = 112;
/// Maximum advance, for adjacent lines with accents below and above.
pub const LINE_ADVANCE: usize = GLYPH_HEIGHT + 2;
/// Number of details lines kept.
pub const MAX_LINES: usize = 16;
/// Atlas row of the first metadata line.
pub const METADATA_Y: usize = 608;

/// Three rows with nothing set.
pub open spec fn no_rows() -> Seq<u8> {
    seq![0u8, 0u8, 0u8]
}

/// A letter of the pixel font with at most one accent above and one below.
#[derive(Clone, Copy)]
pub struct PixelGlyph {
    pub base: u8,
    pub above: [u8; 3],
    pub below: [u8; 3],
}

/// The accent drawn for combining mark `mark` over or under the ASCII letter
/// `base`: whether it goes below, and its three rows. `None` for a mark the
/// pixel font does not draw.
pub open spec fn accent_spec(mark: u32, base: u8) -> Option<(bool, Seq<u8>)> {
    if mark == 0x0300 {
        Some((false, seq![0u8, 0b01000u8, 0b00100u8]))  // grave
    } else if mark == 0x0301 {
        Some((false, seq![0u8, 0b00010u8, 0b00100u8]))  // acute
    } else if mark == 0x0302 {
        Some((false, seq![0u8, 0b00100u8, 0b01010u8]))  // circumflex
    } else if mark == 0x0303 {
        Some((false, seq![0u8, 0b01101u8, 0b10010u8]))  // tilde
    } else if mark == 0x0304 {
        Some((false, seq![0u8, 0u8, 0b01110u8]))  // macron
    } else if mark == 0x0306 {
        Some((false, seq![0u8, 0b10001u8, 0b01110u8]))  // breve
    } else if mark == 0x0307 {
        Some((false, seq![0u8, 0u8, 0b00100u8]))  // dot above
    } else if mark == 0x0308 {
        Some((false, seq![0u8, 0u8, 0b01010u8]))  // diaeresis
    } else if mark == 0x030a {
        Some((false, seq![0b00100u8, 0b01010u8, 0b00100u8]))  // ring
    } else if mark == 0x030b {
        Some((false, seq![0u8, 0b01010u8, 0b10100u8]))  // double acute
    } else if mark == 0x030c {
        Some((false, seq![0u8, 0b01010u8, 0b00100u8]))  // caron
    } else if mark == 0x0323 {
        Some((true, seq![0b00100u8, 0u8, 0u8]))  // dot below
    } else if mark == 0x0326 {
        Some((true, seq![0b00100u8, 0b01000u8, 0u8]))  // comma below
    } else if mark == 0x0327 && latvian_comma(base) {
        Some((true, seq![0b00100u8, 0b01000u8, 0u8]))  // cedilla shown as a comma
    } else if mark == 0x0327 {
        Some((true, seq![0b00100u8, 0b00010u8, 0b00100u8]))  // cedilla
    } else if mark == 0x0328 {
        Some((true, seq![0b00010u8, 0b00100u8, 0b00010u8]))  // ogonek
    } else {
        None
    }
}

/// Latvian cedillas are displayed as commas under G, K, L, N and R.
pub open spec fn latvian_comma(base: u8) -> bool {
    let upper = if 97 <= base <= 122 { (base - 32) as u8 } else { base };
    upper == 71 || upper == 75 || upper == 76 || upper == 78 || upper == 82
}

/// The two lower rows of an accent make a stroke rising to the right: the
/// top row is empty, each lower row has a lit pixel, and every lit pixel of
/// the middle row is right of every lit pixel of the bottom row.
pub open spec fn rises_right(rows: Seq<u8>) -> bool {
    &&& rows.len() == 3
    &&& rows[0] == 0
    &&& exists|c: int| 0 <= c < 5 && #[trigger] lit(rows[1], c)
    &&& exists|c: int| 0 <= c < 5 && #[trigger] lit(rows[2], c)
    &&& forall|u: int, l: int|
        0 <= u < 5 && 0 <= l < 5 && #[trigger] lit(rows[1], u) && #[trigger] lit(rows[2], l) ==> u > l
}

/// The two lower rows of an accent make a stroke falling to the right: as
/// `rises_right`, with every lit pixel of the middle row left of every lit
/// pixel of the bottom row.
pub open spec fn falls_right(rows: Seq<u8>) -> bool {
    &&& rows.len() == 3
    &&& rows[0] == 0
    &&& exists|c: int| 0 <= c < 5 && #[trigger] lit(rows[1], c)
    &&& exists|c: int| 0 <= c < 5 && #[trigger] lit(rows[2], c)
    &&& forall|u: int, l: int|
        0 <= u < 5 && 0 <= l < 5 && #[trigger] lit(rows[1], u) && #[trigger] lit(rows[2], l) ==> u < l
}

/// Which font columns the rows `0b01000`, `0b00100` and `0b00010` light.
proof fn lemma_lit_single_columns(column: int)
    requires
        0 <= column < 5,
    ensures
        lit(0b01000u8, column) <==> column == 1,
        lit(0b00100u8, column) <==> column == 2,
        lit(0b00010u8, column) <==> column == 3,
{
    let s = (4 - column) as u8;
    assert(s == 4 - column);
    assert((0b01000u8 & (1u8 << s)) != 0 <==> s == 3u8) by (bit_vector)
        requires
            s < 5u8,
    ;
    assert((0b00100u8 & (1u8 << s)) != 0 <==> s == 2u8) by (bit_vector)
        requires
            s < 5u8,
    ;
    assert((0b00010u8 & (1u8 << s)) != 0 <==> s == 1u8) by (bit_vector)
        requires
            s < 5u8,
    ;
}

/// The acute accent (U+0301) goes above the letter as a stroke rising to
/// the right, the grave accent (U+0300) as one falling to the right, so a
/// letter with one of them, such as É or È, shows which it carries.
pub proof fn lemma_acute_rises_grave_falls(base: u8)
    ensures
        accent_spec(0x0301, base) matches Some((below, rows)) && !below && rises_right(rows),
        accent_spec(0x0300, base) matches Some((below, rows)) && !below && falls_right(rows),
{
    assert forall|c: int| 0 <= c < 5 implies (lit(0b01000u8, c) <==> c == 1) && (lit(0b00100u8, c) <==> c == 2) && (
    lit(0b00010u8, c) <==> c == 3) by {
        lemma_lit_single_columns(c);
    }
    let acute = seq![0u8, 0b00010u8, 0b00100u8];
    let grave = seq![0u8, 0b01000u8, 0b00100u8];
    assert(lit(acute[1], 3) && lit(acute[2], 2));
    assert(lit(grave[1], 1) && lit(grave[2], 2));
}

/// A letter whose canonical decomposition is an ASCII letter and the acute
/// mark is drawn as that letter with a rising stroke above it; with the
/// grave mark, with a falling one.
pub proof fn lemma_accented_letter_strokes(c: char)
    requires
        !is_ascii_spec(c),
        nfd_of(c).len() == 2,
        ascii_letter(nfd_of(c)[0] as u32 as int),
    ensures
        nfd_of(c)[1] == '\u{301}' ==> (glyph_spec(c) matches Some((base, above, below)) && base == (nfd_of(c)[0] as u32) as u8
            && rises_right(above) && below == no_rows()),
        nfd_of(c)[1] == '\u{300}' ==> (glyph_spec(c) matches Some((base, above, below)) && base == (nfd_of(c)[0] as u32) as u8
            && falls_right(above) && below == no_rows()),
{
    let d = nfd_of(c);
    let base = (d[0] as u32) as u8;
    let marks = d.subrange(1, d.len() as int);
    assert(marks.drop_last() =~= Seq::<char>::empty());
    assert(marks.last() == d[1]);
    lemma_acute_rises_grave_falls(base);
    assert(accents_spec(base, Seq::<char>::empty()) == Some((no_rows(), no_rows())));
    assert(no_rows() == seq![0u8, 0u8, 0u8]);
}

/// The accent rows above and below after applying `marks` in order, or `None`
/// when a mark is not drawn or a second accent would land on the same side.
pub open spec fn accents_spec(base: u8, marks: Seq<char>) -> Option<(Seq<u8>, Seq<u8>)>
    decreases marks.len(),
{
    if marks.len() == 0 {
        Some((no_rows(), no_rows()))
    } else {
        match accents_spec(base, marks.drop_last()) {
            None => None,
            Some((above, below)) => match accent_spec(marks.last() as u32, base) {
                None => None,
                Some((is_below, rows)) => if is_below {
                    if below != no_rows() {
                        None
                    } else {
                        Some((above, rows))
                    }
                } else {
                    if above != no_rows() {
                        None
                    } else {
                        Some((rows, below))
                    }
                },
            },
        }
    }
}

/// `b` is an ASCII letter.
pub open spec fn ascii_letter(b: int) -> bool {
    (65 <= b <= 90) || (97 <= b <= 122)
}

/// The pixel glyph of `c`: an ASCII character is drawn as itself; another
/// character whose canonical decomposition is an ASCII letter followed by one
/// to three drawable marks, at most one above and one below, gets the letter
/// with those accents; anything else has no pixel glyph.
pub open spec fn glyph_spec(c: char) -> Option<(u8, Seq<u8>, Seq<u8>)> {
    if is_ascii_spec(c) {
        Some(((c as u32) as u8, no_rows(), no_rows()))
    } else {
        let d = nfd_of(c);
        if d.len() < 2 || d.len() > 4 || !ascii_letter(d[0] as u32 as int) {
            None
        } else {
            let base = (d[0] as u32) as u8;
            match accents_spec(base, d.subrange(1, d.len() as int)) {
                None => None,
                Some((above, below)) => Some((base, above, below)),
            }
        }
    }
}

/// Once a prefix of the marks cannot be drawn, no longer prefix can.
proof fn lemma_accents_fail_prefix(base: u8, marks: Seq<char>, j: int, n: int)
    requires
        0 <= j <= n <= marks.len(),
        accents_spec(base, marks.subrange(0, j)) is None,
    ensures
        accents_spec(base, marks.subrange(0, n)) is None,
    decreases n - j,
{
    if j < n {
        assert(marks.subrange(0, j + 1).drop_last() =~= marks.subrange(0, j));
        lemma_accents_fail_prefix(base, marks, j + 1, n);
    }
}

/// The view of a glyph as its base letter and accent rows.
pub open spec fn glyph_view(g: PixelGlyph) -> (u8, Seq<u8>, Seq<u8>) {
    (g.base, g.above@, g.below@)
}

fn accent(mark: char, base: u8) -> (r: Option<(bool, [u8; 3])>)
    ensures
        match r {
            Some((is_below, rows)) => accent_spec(mark as u32, base) == Some((is_below, rows@)),
            None => accent_spec(mark as u32, base) is None,
        },
{
    let m = mark as u32;
    let upper = if 97 <= base && base <= 122 { base - 32 } else { base };
    let latvian = upper == 71 || upper == 75 || upper == 76 || upper == 78 || upper == 82;
    let r = if m == 0x0300 {
        (false, [0u8, 0b01000, 0b00100])
    } else if m == 0x0301 {
        (false, [0u8, 0b00010, 0b00100])
    } else if m == 0x0302 {
        (false, [0u8, 0b00100, 0b01010])
    } else if m == 0x0303 {
        (false, [0u8, 0b01101, 0b10010])
    } else if m == 0x0304 {
        (false, [0u8, 0, 0b01110])
    } else if m == 0x0306 {
        (false, [0u8, 0b10001, 0b01110])
    } else if m == 0x0307 {
        (false, [0u8, 0, 0b00100])
    } else if m == 0x0308 {
        (false, [0u8, 0, 0b01010])
    } else if m == 0x030a {
        (false, [0b00100u8, 0b01010, 0b00100])
    } else if m == 0x030b {
        (false, [0u8, 0b01010, 0b10100])
    } else if m == 0x030c {
        (false, [0u8, 0b01010, 0b00100])
    } else if m == 0x0323 {
        (true, [0b00100u8, 0, 0])
    } else if m == 0x0326 {
        (true, [0b00100u8, 0b01000, 0])
    } else if m == 0x0327 && latvian {
        (true, [0b00100u8, 0b01000, 0])
    } else if m == 0x0327 {
        (true, [0b00100u8, 0b00010, 0b00100])
    } else if m == 0x0328 {
        (true, [0b00010u8, 0b00100, 0b00010])
    } else {
        return None;
    };
    proof {
        assert(accent_spec(m, base) == Some((r.0, r.1@)));
    }
    Some(r)
}

fn is_zero(rows: &[u8; 3]) -> (r: bool)
    ensures
        r == (rows@ == no_rows()),
{
    let r = rows[0] == 0 && rows[1] == 0 && rows[2] == 0;
    proof {
        if r {
            assert(rows@ =~= no_rows());
        }
    }
    r
}

impl PixelGlyph {
    /// The pixel glyph of `character`, if the pixel font can draw it.
    pub fn for_character(character: char) -> (r: Option<PixelGlyph>)
        ensures
            match r {
                Some(g) => glyph_spec(character) == Some(glyph_view(g)),
                None => glyph_spec(character) is None,
            },
    {
        let code = character as u32;
        if code < 0x80 {
            let glyph = PixelGlyph { base: code as u8, above: [0; 3], below: [0; 3] };
            proof {
                assert(glyph.above@ =~= no_rows());
                assert(glyph.below@ =~= no_rows());
            }
            return Some(glyph);
        }
        // Canonical decomposition only. Unsupported combinations are shaped.
        let decomposition = decompose(character);
        let length = decomposition.len();
        if length < 2 || length > 4 {
            return None;
        }
        let first = decomposition[0] as u32;
        if !((65 <= first && first <= 90) || (97 <= first && first <= 122)) {
            return None;
        }
        let base = first as u8;
        let mut glyph = PixelGlyph { base, above: [0; 3], below: [0; 3] };
        let ghost marks = decomposition@.subrange(1, length as int);
        proof {
            assert(glyph.above@ =~= no_rows());
            assert(glyph.below@ =~= no_rows());
            assert(marks.subrange(0, 0) =~= Seq::<char>::empty());
        }
        let mut k: usize = 1;
        while k < length
            invariant
                1 <= k <= length,
                length == decomposition@.len(),
                2 <= length <= 4,
                decomposition@ == nfd_of(character),
                marks == decomposition@.subrange(1, length as int),
                glyph.base == base,
                !is_ascii_spec(character),
                ascii_letter(decomposition@[0] as u32 as int),
                base as int == decomposition@[0] as u32 as int,
                accents_spec(base, marks.subrange(0, k - 1)) == Some((glyph.above@, glyph.below@)),
            decreases length - k,
        {
            proof {
                assert(marks.subrange(0, k as int).drop_last() =~= marks.subrange(0, k - 1));
                assert(marks.subrange(0, k as int).last() == decomposition@[k as int]);
            }
            match accent(decomposition[k], base) {
                None => {
                    proof {
                        lemma_accents_fail_prefix(base, marks, k as int, marks.len() as int);
                        assert(marks.subrange(0, marks.len() as int) =~= marks);
                    }
                    return None;
                },
                Some((below, rows)) => {
                    if below {
                        if !is_zero(&glyph.below) {
                            // Do not merge or silently discard stacked accents.
                            proof {
                                lemma_accents_fail_prefix(base, marks, k as int, marks.len() as int);
                                assert(marks.subrange(0, marks.len() as int) =~= marks);
                            }
                            return None;
                        }
                        glyph.below = rows;
                    } else {
                        if !is_zero(&glyph.above) {
                            proof {
                                lemma_accents_fail_prefix(base, marks, k as int, marks.len() as int);
                                assert(marks.subrange(0, marks.len() as int) =~= marks);
                            }
                            return None;
                        }
                        glyph.above = rows;
                    }
                },
            }
            k = k + 1;
        }
        proof {
            assert(marks.subrange(0, length - 1) =~= marks);
        }
        Some(glyph)
    }
}

/// Pixel width of `cells` character cells, without the trailing gap.
pub open spec fn pixel_width_spec(cells: int) -> int {
    if cells * CELL >= SCALE {
        cells * CELL - SCALE
    } else {
        0
    }
}

/// Pixel width of `cells` character cells, without the trailing gap.
pub fn pixel_width(cells: usize) -> (r: usize)
    requires
        cells * CELL <= usize::MAX,
    ensures
        r == pixel_width_spec(cells as int),
{
    (cells * CELL).saturating_sub(SCALE)
}

} // verus!

verus! {

/// Font column `column` (0 = leftmost of five) is set in `row`.
pub open spec fn lit(row: u8, column: int) -> bool {
    row & (1u8 << ((4 - column) as u8)) != 0
}

/// Pixel `i` of an image lies in a glyph block drawn from `rows` with its top
/// left corner at `(x, y)`, and its font bit is set.
pub open spec fn painted(x: int, y: int, rows: Seq<u8>, i: int) -> bool {
    let r = i / (WIDTH as int);
    let c = i % (WIDTH as int);
    &&& y <= r < y + rows.len() * SCALE
    &&& x <= c < x + 5 * SCALE
    &&& lit(rows[(r - y) / 2], (c - x) / 2)
}

/// `p` with the set bits of `rows` drawn at `(x, y)` in full coverage.
pub open spec fn paint(p: Seq<u8>, x: int, y: int, rows: Seq<u8>) -> Seq<u8> {
    Seq::new(p.len(), |i: int| if painted(x, y, rows, i) { 255u8 } else { p[i] })
}

/// `p` with glyph `g` drawn at `(x, y)` into an image `height` rows high: the
/// letter body `ACCENT_PAD` rows down, the accents above and below it. Nothing
/// is drawn where the glyph would not fit.
pub open spec fn draw_glyph(p: Seq<u8>, height: int, x: int, y: int, g: (u8, Seq<u8>, Seq<u8>)) -> Seq<u8> {
    if x > WIDTH - 5 * SCALE || height < GLYPH_HEIGHT || y > height - GLYPH_HEIGHT {
        p
    } else {
        let body = paint(p, x, y + ACCENT_PAD, rows_spec(g.0));
        let top = paint(body, x, y, g.1);
        paint(top, x, y + ACCENT_PAD + BASE_HEIGHT + 1, g.2)
    }
}

/// Pixel `i` lies in the `w` x `h` box with its top left corner at `(x, y)`.
pub open spec fn in_box(i: int, x: int, y: int, w: int, h: int) -> bool {
    let r = i / (WIDTH as int);
    let c = i % (WIDTH as int);
    y <= r < y + h && x <= c < x + w
}

/// `q` differs from `p` only inside the `w` x `h` box at `(x, y)`.
pub open spec fn same_outside(p: Seq<u8>, q: Seq<u8>, x: int, y: int, w: int, h: int) -> bool {
    &&& q.len() == p.len()
    &&& forall|i: int| 0 <= i < p.len() && !in_box(i, x, y, w, h) ==> #[trigger] q[i] == p[i]
}

/// Row and column of pixel index `r * WIDTH + c`.
proof fn lemma_cell(r: int, c: int)
    requires
        0 <= r,
        0 <= c < WIDTH,
    ensures
        (r * WIDTH + c) / (WIDTH as int) == r,
        (r * WIDTH + c) % (WIDTH as int) == c,
{
    vstd::arithmetic::div_mod::lemma_fundamental_div_mod_converse(
        r * WIDTH + c,
        WIDTH as int,
        r,
        c,
    );
}

/// An 8-bit coverage image `WIDTH` pixels wide, and the revision that tells
/// the renderer when to upload it again.
pub struct Image {
    pub pixels: Vec<u8>,
    pub height: usize,
    pub serial: u64,
}

impl Image {
    /// The pixel buffer holds exactly `height` rows.
    pub open spec fn wf(&self) -> bool {
        &&& self.pixels@.len() == WIDTH * self.height
        &&& WIDTH * self.height <= usize::MAX
    }

    /// A blank image of `height` rows.
    pub fn new(height: usize) -> (r: Image)
        requires
            WIDTH * height <= usize::MAX,
        ensures
            r.wf(),
            r.height == height,
            r.serial == 0,
            forall|i: int| 0 <= i < r.pixels@.len() ==> r.pixels@[i] == 0,
    {
        Image { pixels: vec![0u8; WIDTH * height], height, serial: 0 }
    }

    /// Sets every pixel to zero.
    pub fn clear(&mut self)
        requires
            old(self).wf(),
        ensures
            final(self).wf(),
            final(self).height == old(self).height,
            final(self).serial == old(self).serial,
            forall|i: int| 0 <= i < final(self).pixels@.len() ==> final(self).pixels@[i] == 0,
    {
        let mut i: usize = 0;
        while i < self.pixels.len()
            invariant
                self.wf(),
                self.height == old(self).height,
                self.serial == old(self).serial,
                0 <= i <= self.pixels@.len(),
                forall|j: int| 0 <= j < i ==> self.pixels@[j] == 0,
            decreases self.pixels@.len() - i,
        {
            self.pixels[i] = 0;
            i = i + 1;
        }
    }

    /// Draws the set bits of `rows`, top row first, at `(x, y)`.
    fn rows(&mut self, x: usize, y: usize, rows: &[u8])
        requires
            old(self).wf(),
            x + 5 * SCALE <= WIDTH,
            y + rows@.len() * SCALE <= old(self).height,
        ensures
            final(self).wf(),
            final(self).height == old(self).height,
            final(self).serial == old(self).serial,
            final(self).pixels@ == paint(old(self).pixels@, x as int, y as int, rows@),
    {
        let ghost start = self.pixels@;
        let total = rows.len() * SCALE;
        let mut py: usize = 0;
        while py < total
            invariant
                self.wf(),
                self.height == old(self).height,
                self.serial == old(self).serial,
                start == old(self).pixels@,
                x + 5 * SCALE <= WIDTH,
                total == rows@.len() * SCALE,
                y + total <= self.height,
                py <= total,
                self.pixels@ == Seq::new(
                    start.len(),
                    |i: int|
                        if painted(x as int, y as int, rows@, i) && i / (WIDTH as int) - y < py {
                            255u8
                        } else {
                            start[i]
                        },
                ),
            decreases total - py,
        {
            let mut px: usize = 0;
            while px < 5 * SCALE
                invariant
                    self.wf(),
                    self.height == old(self).height,
                    self.serial == old(self).serial,
                    start == old(self).pixels@,
                    x + 5 * SCALE <= WIDTH,
                    total == rows@.len() * SCALE,
                    y + total <= self.height,
                    py < total,
                    px <= 5 * SCALE,
                    self.pixels@ == Seq::new(
                        start.len(),
                        |i: int|
                            if painted(x as int, y as int, rows@, i) && (i / (WIDTH as int) - y < py
                                || (i / (WIDTH as int) - y == py && i % (WIDTH as int) - x < px)) {
                                255u8
                            } else {
                                start[i]
                            },
                    ),
                decreases 5 * SCALE - px,
            {
                let row = rows[py / 2];
                let bit: u8 = 1u8 << ((4 - px / 2) as u8);
                assert((y + py) * WIDTH + x + px < WIDTH * self.height);
                let index = (y + py) * WIDTH + x + px;
                proof {
                    lemma_cell((y + py) as int, (x + px) as int);
                    assert(index < start.len());
                }
                let ghost before = self.pixels@;
                if row & bit != 0 {
                    self.pixels[index] = 255;
                }
                proof {
                    assert forall|i: int| 0 <= i < start.len() implies #[trigger] self.pixels@[i] == (
                        if painted(x as int, y as int, rows@, i) && (i / (WIDTH as int) - y < py
                            || (i / (WIDTH as int) - y == py && i % (WIDTH as int) - x < px + 1)) {
                            255u8
                        } else {
                            start[i]
                        }) by {
                        if i != index {
                            assert(i == (i / (WIDTH as int)) * WIDTH + i % (WIDTH as int));
                            assert(self.pixels@[i] == before[i]);
                        }
                    }
                    assert(self.pixels@ =~= Seq::new(
                        start.len(),
                        |i: int|
                            if painted(x as int, y as int, rows@, i) && (i / (WIDTH as int) - y < py
                                || (i / (WIDTH as int) - y == py && i % (WIDTH as int) - x < px + 1)) {
                                255u8
                            } else {
                                start[i]
                            },
                    ));
                }
                px = px + 1;
            }
            proof {
                assert(self.pixels@ =~= Seq::new(
                    start.len(),
                    |i: int|
                        if painted(x as int, y as int, rows@, i) && i / (WIDTH as int) - y < py + 1 {
                            255u8
                        } else {
                            start[i]
                        },
                ));
            }
            py = py + 1;
        }
        proof {
            assert(self.pixels@ =~= paint(start, x as int, y as int, rows@));
        }
    }

    /// Draws `glyph` with its letter body `ACCENT_PAD` rows below `y`.
    pub fn pixel_glyph(&mut self, x: usize, y: usize, glyph: &PixelGlyph)
        requires
            old(self).wf(),
        ensures
            final(self).wf(),
            final(self).height == old(self).height,
            final(self).serial == old(self).serial,
            final(self).pixels@ == draw_glyph(
                old(self).pixels@,
                old(self).height as int,
                x as int,
                y as int,
                glyph_view(*glyph),
            ),
            same_outside(old(self).pixels@, final(self).pixels@, x as int, y as int, 5 * SCALE, GLYPH_HEIGHT as int),
    {
        if x > WIDTH - 5 * SCALE || self.height < GLYPH_HEIGHT || y > self.height - GLYPH_HEIGHT {
            return;
        }
        proof {
            assert(rows_spec(glyph.base).len() == 7) by {
                crate::pixel_font::lemma_rows_fit(glyph.base);
            }
        }
        let body = crate::pixel_font::rows(glyph.base);
        self.rows(x, y + ACCENT_PAD, &body);
        self.rows(x, y, &glyph.above);
        self.rows(x, y + ACCENT_PAD + BASE_HEIGHT + 1, &glyph.below);
    }

    /// Draws the plain letter `character`.
    pub fn glyph(&mut self, x: usize, y: usize, character: u8)
        requires
            old(self).wf(),
        ensures
            final(self).wf(),
            final(self).height == old(self).height,
            final(self).serial == old(self).serial,
            final(self).pixels@ == draw_glyph(
                old(self).pixels@,
                old(self).height as int,
                x as int,
                y as int,
                (character, no_rows(), no_rows()),
            ),
    {
        let glyph = PixelGlyph { base: character, above: [0; 3], below: [0; 3] };
        proof {
            assert(glyph.above@ =~= no_rows());
            assert(glyph.below@ =~= no_rows());
        }
        self.pixel_glyph(x, y, &glyph);
    }

    /// The image as handed to the renderer.
    pub fn descriptor(&self) -> (r: UpOverlayImage<'_>)
        ensures
            r.pixels@ == self.pixels@,
            r.width == WIDTH as i32,
            r.height == self.height as i32,
            r.serial == self.serial,
    {
        UpOverlayImage {
            pixels: self.pixels.as_slice(),
            width: WIDTH as i32,
            height: #[verifier::truncate] (self.height as i32),
            serial: self.serial,
        }
    }
}

} // verus!

verus! {

/// An 8-bit coverage mask `width` x `height` pixels, rows `stride` bytes
/// apart.
pub struct Mask {
    pub pixels: Vec<u8>,
    pub width: usize,
    pub height: usize,
    pub stride: usize,
}

impl Mask {
    /// Every row lies inside the pixel slice.
    pub open spec fn wf(&self) -> bool {
        &&& self.width <= self.stride
        &&& self.stride * self.height <= self.pixels@.len()
        &&& self.stride * self.height <= usize::MAX
    }

    /// Coverage of source pixel `(sx, sy)`.
    pub open spec fn at(&self, sx: int, sy: int) -> int {
        self.pixels@[sy * self.stride + sx] as int
    }

    /// Source pixel `(sx, sy)` is inside the mask and not empty.
    pub open spec fn nonzero(&self, sx: int, sy: int) -> bool {
        0 <= sx < self.width && 0 <= sy < self.height && self.at(sx, sy) != 0
    }

    /// `[left, right) x [top, bottom)` is the smallest box holding every
    /// nonzero pixel.
    pub open spec fn is_bounding_box(&self, left: int, top: int, right: int, bottom: int) -> bool {
        &&& forall|sx: int, sy: int|
            #[trigger] self.nonzero(sx, sy) ==> left <= sx < right && top <= sy < bottom
        &&& exists|sy: int| #[trigger] self.nonzero(left, sy)
        &&& exists|sy: int| #[trigger] self.nonzero(right - 1, sy)
        &&& exists|sx: int| #[trigger] self.nonzero(sx, top)
        &&& exists|sx: int| #[trigger] self.nonzero(sx, bottom - 1)
    }

    /// The mask has a nonzero pixel.
    pub open spec fn visible(&self) -> bool {
        exists|sx: int, sy: int| #[trigger] self.nonzero(sx, sy)
    }
}

pub open spec fn min_int(a: int, b: int) -> int {
    if a <= b { a } else { b }
}

pub open spec fn max_int(a: int, b: int) -> int {
    if a >= b { a } else { b }
}

/// Length, in units of `1/n` pixel, shared by source pixel `s`, which spans
/// `[s * n, (s + 1) * n)`, and the interval `[a, b)`.
pub open spec fn overlap(a: int, b: int, s: int, n: int) -> int {
    min_int(b, (s + 1) * n) - max_int(a, s * n)
}

/// Sum over `sx` in `[lo, hi)` of the coverage of `(sx, sy)` weighted by its
/// overlap with `[a, b)`.
pub open spec fn row_sum(m: Mask, sy: int, lo: int, hi: int, a: int, b: int, n: int) -> int
    decreases hi - lo,
{
    if hi <= lo {
        0
    } else {
        row_sum(m, sy, lo, hi - 1, a, b, n) + m.at(hi - 1, sy) * overlap(a, b, hi - 1, n)
    }
}

/// Sum over the rows `sy` in `[lo, hi)` of their row sums weighted by the
/// row's overlap with `[a, b)`.
pub open spec fn box_sum(
    m: Mask,
    lo: int,
    hi: int,
    a: int,
    b: int,
    n: int,
    xlo: int,
    xhi: int,
    xa: int,
    xb: int,
    xn: int,
) -> int
    decreases hi - lo,
{
    if hi <= lo {
        0
    } else {
        box_sum(m, lo, hi - 1, a, b, n, xlo, xhi, xa, xb, xn) + row_sum(m, hi - 1, xlo, xhi, xa, xb, xn)
            * overlap(a, b, hi - 1, n)
    }
}

/// Fitted size of a `rw` x `rh` box: shrunk by one factor, never enlarged,
/// so that it fits `width` x `BASE_HEIGHT`, and at least one pixel each way.
pub open spec fn fitted_width(rw: int, rh: int, width: int) -> int {
    max_int(1, min_int(min_int(rw, width), rw * BASE_HEIGHT / rh))
}

pub open spec fn fitted_height(rw: int, rh: int, width: int) -> int {
    max_int(1, min_int(min_int(rh, rh * width / rw), BASE_HEIGHT as int))
}

/// Area average of the source under destination pixel `(dx, dy)` of the
/// fitted box: the exact mean coverage, rounded half up, and at least 1 when
/// any covered source pixel is nonzero.
pub open spec fn cell_value(
    m: Mask,
    left: int,
    top: int,
    right: int,
    bottom: int,
    fw: int,
    fh: int,
    dx: int,
    dy: int,
) -> int {
    let rw = right - left;
    let rh = bottom - top;
    let xa = left * fw + dx * rw;
    let xb = xa + rw;
    let ya = top * fh + dy * rh;
    let yb = ya + rh;
    let sum = box_sum(
        m,
        ya / fh,
        min_int(bottom, (yb + fh - 1) / fh),
        ya,
        yb,
        fh,
        xa / fw,
        min_int(right, (xb + fw - 1) / fw),
        xa,
        xb,
        fw,
    );
    let d = rw * rh;
    if sum > 0 {
        max_int(1, (2 * sum + d) / (2 * d))
    } else {
        0
    }
}

/// `value` laid over coverage `under`.
pub open spec fn blend(under: int, value: int) -> int {
    value + (under * (255 - value) + 127) / 255
}

/// Laying coverage over a pixel never lowers it and stays a byte, so a
/// shaped run never erases what is under it.
pub proof fn lemma_blend_never_erases(under: int, value: int)
    requires
        0 <= under <= 255,
        0 <= value <= 255,
    ensures
        under <= blend(under, value) <= 255,
        value <= blend(under, value),
{
    assert(under * (255 - value) + 127 >= 255 * (under - value)) by (nonlinear_arith)
        requires 0 <= under <= 255, 0 <= value <= 255;
    assert(under * (255 - value) <= 255 * (255 - value)) by (nonlinear_arith)
        requires 0 <= under <= 255, 0 <= value <= 255;
}

/// `p` with the `fw` x `fh` box at `(x0, y0)` laid over by the area averages
/// of `[left, right) x [top, bottom)` of `m`.
pub open spec fn blended_box(
    p: Seq<u8>,
    x0: int,
    y0: int,
    fw: int,
    fh: int,
    m: Mask,
    left: int,
    top: int,
    right: int,
    bottom: int,
) -> Seq<u8> {
    Seq::new(
        p.len(),
        |i: int|
            {
                let r = i / (WIDTH as int);
                let c = i % (WIDTH as int);
                if y0 <= r < y0 + fh && x0 <= c < x0 + fw {
                    blend(
                        p[i] as int,
                        cell_value(m, left, top, right, bottom, fw, fh, c - x0, r - y0),
                    ) as u8
                } else {
                    p[i]
                }
            },
    )
}

/// `p` with the nonzero part `[left, right) x [top, bottom)` of `m` fitted into
/// the `width` x `BASE_HEIGHT` box at `(x, y)`, centred.
pub open spec fn fitted(
    p: Seq<u8>,
    x: int,
    y: int,
    width: int,
    m: Mask,
    left: int,
    top: int,
    right: int,
    bottom: int,
) -> Seq<u8> {
    let fw = fitted_width(right - left, bottom - top, width);
    let fh = fitted_height(right - left, bottom - top, width);
    blended_box(
        p,
        x + (width - fw) / 2,
        y + (BASE_HEIGHT - fh) / 2,
        fw,
        fh,
        m,
        left,
        top,
        right,
        bottom,
    )
}

} // verus!

verus! {

/// A `width` x `BASE_HEIGHT` box at `(x, y)` fits an image `height` rows high.
pub open spec fn fits_box(height: int, x: int, y: int, width: int) -> bool {
    !(width == 0 || width > WIDTH || x > WIDTH - width || height < BASE_HEIGHT || y > height - BASE_HEIGHT)
}

/// `p`, an image `height` rows high, after fitting mask `m` into the `width`
/// x `BASE_HEIGHT` box at `(x, y)`: unchanged when the box does not fit or
/// the mask is empty.
pub open spec fn fit_result(p: Seq<u8>, height: int, x: int, y: int, width: int, m: Mask) -> Seq<u8> {
    if fits_box(height, x, y, width) && m.visible() {
        let (l, t, r, b) = choose|l: int, t: int, r: int, b: int| m.is_bounding_box(l, t, r, b);
        fitted(p, x, y, width, m, l, t, r, b)
    } else {
        p
    }
}

/// `sy * stride + sx` indexes inside a well-formed mask.
proof fn lemma_mask_index(m: Mask, sx: int, sy: int)
    requires
        m.wf(),
        0 <= sx < m.width,
        0 <= sy < m.height,
    ensures
        0 <= sy * m.stride,
        sy * m.stride + sx < m.pixels@.len(),
        sy * m.stride + sx < m.stride * m.height,
{
    assert(sy * m.stride + m.stride <= m.stride * m.height) by (nonlinear_arith)
        requires
            0 <= sy < m.height,
            0 <= m.stride,
    ;
    assert(0 <= sy * m.stride) by (nonlinear_arith)
        requires
            0 <= sy,
            0 <= m.stride,
    ;
}

proof fn lemma_weighted_bound(total: int, bound: int, weight: int, value: int)
    requires
        0 <= value <= bound,
        0 <= weight,
    ensures
        value * weight <= bound * weight,
        0 <= value * weight,
{
    assert(value * weight <= bound * weight) by (nonlinear_arith)
        requires
            0 <= value <= bound,
            0 <= weight,
    ;
    assert(0 <= value * weight) by (nonlinear_arith)
        requires
            0 <= value,
            0 <= weight,
    ;
}

/// The coverage of row `sy` under `[a, b)` (units of `1/n` pixel), for the
/// source columns `[lo, hi)` that meet it.
fn row_alpha(m: &Mask, sy: usize, lo: usize, hi: usize, a: u128, b: u128, n: u128) -> (r: u128)
    requires
        m.wf(),
        sy < m.height,
        lo <= hi <= m.width,
        1 <= n <= 1024,
        a < b,
        b - a <= usize::MAX,
        b <= 0x1_0000_0000_0000_0000_0000_0000,
        lo * n <= a < (lo + 1) * n,
        hi * n < b + n,
    ensures
        r == row_sum(*m, sy as int, lo as int, hi as int, a as int, b as int, n as int),
        r <= 255 * (b - a),
{
    let mut r: u128 = 0;
    let ghost mut t: int = 0;
    let mut sx: usize = lo;
    while sx < hi
        invariant
            m.wf(),
            sy < m.height,
            lo <= sx <= hi <= m.width,
            1 <= n <= 1024,
            a < b,
            b - a <= usize::MAX,
            b <= 0x1_0000_0000_0000_0000_0000_0000,
            lo * n <= a < (lo + 1) * n,
            hi * n < b + n,
            r == row_sum(*m, sy as int, lo as int, sx as int, a as int, b as int, n as int),
            sx == lo ==> t == 0,
            sx > lo ==> t == min_int(b as int, sx * n) - a,
            0 <= t <= b - a,
            r <= 255 * t,
        decreases hi - sx,
    {
        proof {
            lemma_mask_index(*m, sx as int, sy as int);
            assert(sx * n < b) by (nonlinear_arith)
                requires
                    sx < hi,
                    hi * n < b + n,
                    1 <= n,
            ;
            assert(sx > lo ==> sx * n > a) by (nonlinear_arith)
                requires
                    a < (lo + 1) * n,
                    1 <= n,
            ;
            assert(lo * n <= a);
            assert((sx + 1) * n == sx * n + n) by (nonlinear_arith);
        }
        let start: u128 = sx as u128 * n;
        let end: u128 = start + n;
        let high = if b < end { b } else { end };
        let low = if a > start { a } else { start };
        let cover = high - low;
        let coverage = m.pixels[sy * m.stride + sx] as u128;
        proof {
            assert(cover == overlap(a as int, b as int, sx as int, n as int));
            assert(0 < cover <= n);
            lemma_weighted_bound(0, 255, cover as int, coverage as int);
        }
        r = r + coverage * cover;
        proof {
            t = t + cover;
        }
        sx = sx + 1;
    }
    r
}

/// The coverage of the source under `[xa, xb) x [ya, yb)`, for the source
/// rows `[lo, hi)` and columns `[xlo, xhi)` that meet it.
fn box_alpha(
    m: &Mask,
    lo: usize,
    hi: usize,
    ya: u128,
    yb: u128,
    yn: u128,
    xlo: usize,
    xhi: usize,
    xa: u128,
    xb: u128,
    xn: u128,
) -> (r: u128)
    requires
        m.wf(),
        lo <= hi <= m.height,
        xlo <= xhi <= m.width,
        1 <= yn <= 1024,
        1 <= xn <= 1024,
        ya < yb,
        xa < xb,
        (xb - xa) * (yb - ya) <= usize::MAX,
        xb - xa <= usize::MAX,
        xb <= 0x1_0000_0000_0000_0000_0000_0000,
        yb <= 0x1_0000_0000_0000_0000_0000_0000,
        xlo * xn <= xa < (xlo + 1) * xn,
        xhi * xn < xb + xn,
        lo * yn <= ya < (lo + 1) * yn,
        hi * yn < yb + yn,
    ensures
        r == box_sum(
            *m,
            lo as int,
            hi as int,
            ya as int,
            yb as int,
            yn as int,
            xlo as int,
            xhi as int,
            xa as int,
            xb as int,
            xn as int,
        ),
        r <= 255 * ((xb - xa) * (yb - ya)),
{
    let mut r: u128 = 0;
    let ghost mut t: int = 0;
    let mut sy: usize = lo;
    while sy < hi
        invariant
            m.wf(),
            lo <= sy <= hi <= m.height,
            xlo <= xhi <= m.width,
            1 <= yn <= 1024,
            1 <= xn <= 1024,
            ya < yb,
            xa < xb,
            (xb - xa) * (yb - ya) <= usize::MAX,
            xb - xa <= usize::MAX,
            xb <= 0x1_0000_0000_0000_0000_0000_0000,
            yb <= 0x1_0000_0000_0000_0000_0000_0000,
            xlo * xn <= xa < (xlo + 1) * xn,
            xhi * xn < xb + xn,
            lo * yn <= ya < (lo + 1) * yn,
            hi * yn < yb + yn,
            r == box_sum(
                *m,
                lo as int,
                sy as int,
                ya as int,
                yb as int,
                yn as int,
                xlo as int,
                xhi as int,
                xa as int,
                xb as int,
                xn as int,
            ),
            sy == lo ==> t == 0,
            sy > lo ==> t == min_int(yb as int, sy * yn) - ya,
            0 <= t <= yb - ya,
            r <= 255 * ((xb - xa) * t),
        decreases hi - sy,
    {
        proof {
            assert(sy * yn < yb) by (nonlinear_arith)
                requires
                    sy < hi,
                    hi * yn < yb + yn,
                    1 <= yn,
            ;
            assert(sy > lo ==> sy * yn > ya) by (nonlinear_arith)
                requires
                    ya < (lo + 1) * yn,
                    1 <= yn,
            ;
            assert((sy + 1) * yn == sy * yn + yn) by (nonlinear_arith);
        }
        let row = row_alpha(m, sy, xlo, xhi, xa, xb, xn);
        let start: u128 = sy as u128 * yn;
        let end: u128 = start + yn;
        let high = if yb < end { yb } else { end };
        let low = if ya > start { ya } else { start };
        let cover = high - low;
        proof {
            assert(cover == overlap(ya as int, yb as int, sy as int, yn as int));
            assert(0 < cover <= yn);
            lemma_weighted_bound(0, 255 * (xb - xa), cover as int, row as int);
            assert(255 * ((xb - xa) * t) + 255 * (xb - xa) * cover == 255 * ((xb - xa) * (t + cover)))
                by (nonlinear_arith);
            assert(255 * ((xb - xa) * (t + cover)) <= 255 * ((xb - xa) * (yb - ya))) by (nonlinear_arith)
                requires
                    t + cover <= yb - ya,
                    0 <= xb - xa,
            ;
        }
        r = r + row * cover;
        proof {
            t = t + cover;
        }
        sy = sy + 1;
    }
    proof {
        assert(255 * ((xb - xa) * t) <= 255 * ((xb - xa) * (yb - ya))) by (nonlinear_arith)
            requires
                t <= yb - ya,
                0 <= xb - xa,
        ;
    }
    r
}

} // verus!

verus! {

/// The box of nonzero pixels of `m`, if it has any.
fn bounding_box(m: &Mask) -> (r: Option<(usize, usize, usize, usize)>)
    requires
        m.wf(),
    ensures
        match r {
            Some((l, t, rt, b)) => {
                &&& l < rt <= m.width
                &&& t < b <= m.height
                &&& m.is_bounding_box(l as int, t as int, rt as int, b as int)
            },
            None => !m.visible(),
        },
{
    let mut left = m.width;
    let mut top = m.height;
    let mut right: usize = 0;
    let mut bottom: usize = 0;
    let ghost mut wl: int = 0;
    let ghost mut wr: int = 0;
    let ghost mut wt: int = 0;
    let ghost mut wb: int = 0;
    let mut sy: usize = 0;
    while sy < m.height
        invariant
            m.wf(),
            sy <= m.height,
            right == 0 ==> forall|sx: int, y: int| 0 <= y < sy ==> !#[trigger] m.nonzero(sx, y),
            right == 0 ==> left == m.width && top == m.height && bottom == 0,
            right > 0 ==> {
                &&& left < right <= m.width
                &&& top < bottom <= sy
                &&& m.nonzero(left as int, wl)
                &&& m.nonzero(right - 1, wr)
                &&& m.nonzero(wt, top as int)
                &&& m.nonzero(wb, bottom - 1)
                &&& forall|sx: int, y: int|
                    0 <= y < sy && #[trigger] m.nonzero(sx, y) ==> left <= sx < right && top <= y
                        < bottom
            },
        decreases m.height - sy,
    {
        let mut sx: usize = 0;
        while sx < m.width
            invariant
                m.wf(),
                sy < m.height,
                sx <= m.width,
                right == 0 ==> forall|x: int, y: int|
                    (0 <= y < sy || (y == sy && x < sx)) ==> !#[trigger] m.nonzero(x, y),
                right == 0 ==> left == m.width && top == m.height && bottom == 0,
                right > 0 ==> {
                    &&& left < right <= m.width
                    &&& top < bottom <= sy + 1
                    &&& m.nonzero(left as int, wl)
                    &&& m.nonzero(right - 1, wr)
                    &&& m.nonzero(wt, top as int)
                    &&& m.nonzero(wb, bottom - 1)
                    &&& forall|x: int, y: int|
                        (0 <= y < sy || (y == sy && x < sx)) && #[trigger] m.nonzero(x, y) ==> left
                            <= x < right && top <= y < bottom
                },
            decreases m.width - sx,
        {
            proof {
                lemma_mask_index(*m, sx as int, sy as int);
            }
            if m.pixels[sy * m.stride + sx] != 0 {
                if right == 0 {
                    left = sx;
                    top = sy;
                    right = sx + 1;
                    bottom = sy + 1;
                    proof {
                        wl = sy as int;
                        wr = sy as int;
                        wt = sx as int;
                        wb = sx as int;
                    }
                } else {
                    if sx < left {
                        left = sx;
                        proof {
                            wl = sy as int;
                        }
                    }
                    if sy < top {
                        top = sy;
                        proof {
                            wt = sx as int;
                        }
                    }
                    if sx + 1 > right {
                        right = sx + 1;
                        proof {
                            wr = sy as int;
                        }
                    }
                    if sy + 1 > bottom {
                        bottom = sy + 1;
                        proof {
                            wb = sx as int;
                        }
                    }
                }
            }
            sx = sx + 1;
        }
        sy = sy + 1;
    }
    if right == 0 {
        proof {
            assert forall|sx: int, y: int| !#[trigger] m.nonzero(sx, y) by {
                if 0 <= y < m.height {
                }
            }
        }
        return None;
    }
    Some((left, top, right, bottom))
}

} // verus!

verus! {

/// The nonzero box of a mask is unique.
proof fn lemma_bounding_box_unique(m: Mask, l: int, t: int, r: int, b: int, l2: int, t2: int, r2: int, b2: int)
    requires
        m.is_bounding_box(l, t, r, b),
        m.is_bounding_box(l2, t2, r2, b2),
    ensures
        l == l2 && t == t2 && r == r2 && b == b2,
{
    let sy = choose|sy: int| #[trigger] m.nonzero(l, sy);
    let sy2 = choose|sy: int| #[trigger] m.nonzero(l2, sy);
    let ry = choose|sy: int| #[trigger] m.nonzero(r - 1, sy);
    let ry2 = choose|sy: int| #[trigger] m.nonzero(r2 - 1, sy);
    let tx = choose|sx: int| #[trigger] m.nonzero(sx, t);
    let tx2 = choose|sx: int| #[trigger] m.nonzero(sx, t2);
    let bx = choose|sx: int| #[trigger] m.nonzero(sx, b - 1);
    let bx2 = choose|sx: int| #[trigger] m.nonzero(sx, b2 - 1);
    assert(m.nonzero(l, sy));
    assert(m.nonzero(l2, sy2));
    assert(m.nonzero(r - 1, ry));
    assert(m.nonzero(r2 - 1, ry2));
    assert(m.nonzero(tx, t));
    assert(m.nonzero(tx2, t2));
    assert(m.nonzero(bx, b - 1));
    assert(m.nonzero(bx2, b2 - 1));
}

/// A rounded mean of at most full coverage is at most full coverage.
proof fn lemma_rounded_mean(sum: int, d: int)
    requires
        0 <= sum <= 255 * d,
        0 < d,
    ensures
        (2 * sum + d) / (2 * d) <= 255,
        0 <= (2 * sum + d) / (2 * d),
{
    assert((2 * sum + d) / (2 * d) <= 255) by (nonlinear_arith)
        requires
            0 <= sum <= 255 * d,
            0 < d,
    ;
    assert(0 <= (2 * sum + d) / (2 * d)) by (nonlinear_arith)
        requires
            0 <= sum,
            0 < d,
    ;
}

/// Laying coverage over coverage stays within a byte.
proof fn lemma_blend_bound(under: int, value: int)
    requires
        0 <= under <= 255,
        0 <= value <= 255,
    ensures
        0 <= blend(under, value) <= 255,
{
    assert(under * (255 - value) <= 255 * (255 - value)) by (nonlinear_arith)
        requires
            0 <= under <= 255,
            0 <= value <= 255,
    ;
    assert(0 <= under * (255 - value)) by (nonlinear_arith)
        requires
            0 <= under,
            value <= 255,
    ;
}

/// Source pixel `s` meets `[a, b)` when it lies in the range of pixels that
/// an area average over `[a, b)` reads.
proof fn lemma_overlap_in_range(a: int, b: int, n: int, s: int)
    requires
        0 < n,
        a < b,
        a / n <= s,
        s < (b + n - 1) / n,
    ensures
        overlap(a, b, s, n) > 0,
{
    let q = a / n;
    let q2 = (b + n - 1) / n;
    vstd::arithmetic::div_mod::lemma_fundamental_div_mod(a, n);
    vstd::arithmetic::div_mod::lemma_fundamental_div_mod(b + n - 1, n);
    assert(a < (s + 1) * n) by (nonlinear_arith)
        requires
            a == n * q + a % n,
            a % n < n,
            q <= s,
            0 < n,
    ;
    assert(s * n < b) by (nonlinear_arith)
        requires
            b + n - 1 == n * q2 + (b + n - 1) % n,
            0 <= (b + n - 1) % n,
            s + 1 <= q2,
            0 < n,
    ;
    assert(s * n < (s + 1) * n) by (nonlinear_arith)
        requires
            0 < n,
    ;
}

/// A source pixel that meets `[a, b)` lies in the range an area average
/// over `[a, b)` reads.
proof fn lemma_in_read_range(a: int, b: int, n: int, s: int)
    requires
        0 < n,
        a <= s * n,
        s * n < b,
    ensures
        a / n <= s,
        s < (b + n - 1) / n,
{
    vstd::arithmetic::div_mod::lemma_fundamental_div_mod(a, n);
    vstd::arithmetic::div_mod::lemma_fundamental_div_mod(b + n - 1, n);
    let q = a / n;
    let q2 = (b + n - 1) / n;
    assert(q <= s) by (nonlinear_arith)
        requires
            a == n * q + a % n,
            0 <= a % n,
            a <= s * n,
            0 < n,
    ;
    assert(s < q2) by (nonlinear_arith)
        requires
            b + n - 1 == n * q2 + (b + n - 1) % n,
            (b + n - 1) % n < n,
            s * n + 1 <= b,
            0 < n,
    ;
}

/// A row sum over pixels that all meet `[a, b)` is at least each of its
/// terms.
proof fn lemma_row_sum_covers(m: Mask, sy: int, lo: int, hi: int, a: int, b: int, n: int, k: int)
    requires
        forall|s: int| lo <= s < hi ==> #[trigger] overlap(a, b, s, n) > 0,
    ensures
        row_sum(m, sy, lo, hi, a, b, n) >= 0,
        lo <= k < hi ==> row_sum(m, sy, lo, hi, a, b, n) >= m.at(k, sy) * overlap(a, b, k, n),
    decreases hi - lo,
{
    if hi > lo {
        lemma_row_sum_covers(m, sy, lo, hi - 1, a, b, n, k);
        let term = m.at(hi - 1, sy) * overlap(a, b, hi - 1, n);
        assert(overlap(a, b, hi - 1, n) > 0);
        assert(0 <= term) by (nonlinear_arith)
            requires
                term == m.at(hi - 1, sy) * overlap(a, b, hi - 1, n),
                0 <= m.at(hi - 1, sy),
                0 < overlap(a, b, hi - 1, n),
        ;
    }
}

/// A box sum over rows and columns that all meet the box is at least each
/// row's weighted sum.
proof fn lemma_box_sum_covers(
    m: Mask,
    lo: int,
    hi: int,
    a: int,
    b: int,
    n: int,
    xlo: int,
    xhi: int,
    xa: int,
    xb: int,
    xn: int,
    k: int,
)
    requires
        forall|s: int| lo <= s < hi ==> #[trigger] overlap(a, b, s, n) > 0,
        forall|s: int| xlo <= s < xhi ==> #[trigger] overlap(xa, xb, s, xn) > 0,
    ensures
        box_sum(m, lo, hi, a, b, n, xlo, xhi, xa, xb, xn) >= 0,
        lo <= k < hi ==> box_sum(m, lo, hi, a, b, n, xlo, xhi, xa, xb, xn) >= row_sum(
            m,
            k,
            xlo,
            xhi,
            xa,
            xb,
            xn,
        ) * overlap(a, b, k, n),
    decreases hi - lo,
{
    if hi > lo {
        lemma_box_sum_covers(m, lo, hi - 1, a, b, n, xlo, xhi, xa, xb, xn, k);
        lemma_row_sum_covers(m, hi - 1, xlo, xhi, xa, xb, xn, xlo);
        let rs = row_sum(m, hi - 1, xlo, xhi, xa, xb, xn);
        assert(overlap(a, b, hi - 1, n) > 0);
        assert(0 <= rs * overlap(a, b, hi - 1, n)) by (nonlinear_arith)
            requires
                0 <= rs,
                0 < overlap(a, b, hi - 1, n),
        ;
    }
}

/// The fitted box keeps a nonzero pixel of the mask visible: the destination
/// pixel in its first column, on the row over source row `sy0`, averages a
/// nonzero source pixel and so is at least 1.
proof fn lemma_fitted_nonzero(
    p: Seq<u8>,
    height: int,
    x: int,
    y: int,
    width: int,
    m: Mask,
    l: int,
    t: int,
    r: int,
    b: int,
)
    requires
        p.len() == WIDTH * height,
        0 <= x && 0 <= y && 0 <= width,
        fits_box(height, x, y, width),
        m.is_bounding_box(l, t, r, b),
        forall|dx: int, dy: int|
            0 <= dx < fitted_width(r - l, b - t, width) && 0 <= dy < fitted_height(r - l, b - t, width)
                ==> #[trigger] cell_value(
                m,
                l,
                t,
                r,
                b,
                fitted_width(r - l, b - t, width),
                fitted_height(r - l, b - t, width),
                dx,
                dy,
            ) <= 255,
    ensures
        exists|i: int|
            0 <= i < p.len() && in_box(i, x, y, width, BASE_HEIGHT as int) && #[trigger] fitted(
                p,
                x,
                y,
                width,
                m,
                l,
                t,
                r,
                b,
            )[i] != 0,
{
    let sy0 = choose|sy: int| #[trigger] m.nonzero(l, sy);
    assert(m.nonzero(l, sy0));
    assert(l < r && t <= sy0 < b);
    assert(0 <= l && m.at(l, sy0) >= 1);
    let rw = r - l;
    let rh = b - t;
    let fw = fitted_width(rw, rh, width);
    let fh = fitted_height(rw, rh, width);
    assert(1 <= fw <= rw && fw <= width);
    assert(1 <= fh <= rh && fh <= BASE_HEIGHT);
    let x0 = x + (width - fw) / 2;
    let y0 = y + (BASE_HEIGHT - fh) / 2;
    // The destination row over source row `sy0`.
    let num = (sy0 - t) * fh;
    let dy = num / rh;
    vstd::arithmetic::div_mod::lemma_fundamental_div_mod(num, rh);
    assert(0 <= num) by (nonlinear_arith)
        requires
            num == (sy0 - t) * fh,
            0 <= sy0 - t,
            0 <= fh,
    ;
    assert(num < rh * fh) by (nonlinear_arith)
        requires
            num == (sy0 - t) * fh,
            sy0 - t < rh,
            0 < fh,
    ;
    assert(0 <= dy < fh) by (nonlinear_arith)
        requires
            num == rh * dy + num % rh,
            0 <= num % rh < rh,
            0 <= num < rh * fh,
            0 < rh,
    ;
    let ya = t * fh + dy * rh;
    let yb = ya + rh;
    assert(ya <= sy0 * fh && sy0 * fh < yb) by (nonlinear_arith)
        requires
            num == (sy0 - t) * fh,
            num == rh * dy + num % rh,
            0 <= num % rh < rh,
            ya == t * fh + dy * rh,
            yb == ya + rh,
    ;
    let xa = l * fw + 0 * rw;
    let xb = xa + rw;
    assert(xa == l * fw);
    assert(l * fw < xb && xb <= (l + 1) * fw + rw) by (nonlinear_arith)
        requires
            xa == l * fw,
            xb == xa + rw,
            0 < rw,
            0 < fw,
    ;
    assert(xa <= l * fw < xb);
    let ylo = ya / fh;
    let yhi = min_int(b, (yb + fh - 1) / fh);
    let xlo = xa / fw;
    let xhi = min_int(r, (xb + fw - 1) / fw);
    lemma_in_read_range(ya, yb, fh, sy0);
    lemma_in_read_range(xa, xb, fw, l);
    assert forall|s: int| ylo <= s < yhi implies #[trigger] overlap(ya, yb, s, fh) > 0 by {
        lemma_overlap_in_range(ya, yb, fh, s);
    }
    assert forall|s: int| xlo <= s < xhi implies #[trigger] overlap(xa, xb, s, fw) > 0 by {
        lemma_overlap_in_range(xa, xb, fw, s);
    }
    lemma_row_sum_covers(m, sy0, xlo, xhi, xa, xb, fw, l);
    lemma_box_sum_covers(m, ylo, yhi, ya, yb, fh, xlo, xhi, xa, xb, fw, sy0);
    let rs = row_sum(m, sy0, xlo, xhi, xa, xb, fw);
    let ox = overlap(xa, xb, l, fw);
    let oy = overlap(ya, yb, sy0, fh);
    assert(rs > 0) by (nonlinear_arith)
        requires
            rs >= m.at(l, sy0) * ox,
            m.at(l, sy0) >= 1,
            ox >= 1,
    ;
    let sum = box_sum(m, ylo, yhi, ya, yb, fh, xlo, xhi, xa, xb, fw);
    assert(sum > 0) by (nonlinear_arith)
        requires
            sum >= rs * oy,
            rs >= 1,
            oy >= 1,
    ;
    let cv = cell_value(m, l, t, r, b, fw, fh, 0, dy);
    assert(cv >= 1);
    assert(cv <= 255);
    let row = y0 + dy;
    let i = row * WIDTH + x0;
    lemma_cell(row, x0);
    assert(0 <= i < p.len()) by (nonlinear_arith)
        requires
            i == row * WIDTH + x0,
            0 <= row < height,
            0 <= x0 < WIDTH,
            p.len() == WIDTH * height,
    ;
    lemma_blend_never_erases(p[i] as int, cv);
    assert(in_box(i, x, y, width, BASE_HEIGHT as int));
    assert(fitted(p, x, y, width, m, l, t, r, b)[i] != 0);
}

impl Image {
    /// Fits every nonzero pixel of `mask`, antialiased edges included, into the
    /// `width` x `BASE_HEIGHT` box at `(x, y)`: the nonzero part is shrunk by
    /// one factor (never enlarged), centred, and each destination pixel gets
    /// the area average of the source under it, laid over what is there.
    /// Nothing is drawn when the box does not fit or the mask is empty.
    #[verifier::rlimit(60)]
    pub fn fit_mask(&mut self, x: usize, y: usize, width: usize, mask: Mask)
        requires
            old(self).wf(),
            mask.wf(),
        ensures
            final(self).wf(),
            final(self).height == old(self).height,
            final(self).serial == old(self).serial,
            same_outside(old(self).pixels@, final(self).pixels@, x as int, y as int, width as int, BASE_HEIGHT as int),
            final(self).pixels@ == fit_result(old(self).pixels@, old(self).height as int, x as int, y as int, width as int, mask),
            forall|k: int| 0 <= k < old(self).pixels@.len() ==> old(self).pixels@[k] <= #[trigger] final(self).pixels@[k],
            (width == 0 || width > WIDTH || x > WIDTH - width || old(self).height < BASE_HEIGHT || y
                > old(self).height - BASE_HEIGHT || !mask.visible()) ==> final(self).pixels@ == old(
                self,
            ).pixels@,
            fits_box(old(self).height as int, x as int, y as int, width as int) && mask.visible() ==> exists|k: int|
                0 <= k < final(self).pixels@.len() && in_box(k, x as int, y as int, width as int, BASE_HEIGHT as int)
                    && #[trigger] final(self).pixels@[k] != 0,
            forall|l: int, t: int, r: int, b: int|
                #![trigger mask.is_bounding_box(l, t, r, b)]
                mask.is_bounding_box(l, t, r, b) && !(width == 0 || width > WIDTH || x > WIDTH
                    - width || old(self).height < BASE_HEIGHT || y > old(self).height - BASE_HEIGHT)
                    ==> final(self).pixels@ == fitted(
                    old(self).pixels@,
                    x as int,
                    y as int,
                    width as int,
                    mask,
                    l,
                    t,
                    r,
                    b,
                ),
    {
        if width == 0 || width > WIDTH || x > WIDTH - width || self.height < BASE_HEIGHT || y
            > self.height - BASE_HEIGHT {
            return;
        }
        let (left, top, right, bottom) = match bounding_box(&mask) {
            None => {
                proof {
                    assert forall|l: int, t: int, r: int, b: int|
                        !#[trigger] mask.is_bounding_box(l, t, r, b) by {
                        if mask.is_bounding_box(l, t, r, b) {
                            let sy = choose|sy: int| #[trigger] mask.nonzero(l, sy);
                            assert(mask.nonzero(l, sy));
                        }
                    }
                }
                return;
            },
            Some(found) => found,
        };
        proof {
            assert forall|l: int, t: int, r: int, b: int|
                #[trigger] mask.is_bounding_box(l, t, r, b) implies l == left && t == top && r == right
                && b == bottom by {
                lemma_bounding_box_unique(mask, l, t, r, b, left as int, top as int, right as int, bottom as int);
            }
            assert(mask.nonzero(left as int, choose|sy: int| #[trigger] mask.nonzero(left as int, sy)));
            assert((right - left) * (bottom - top) <= mask.stride * mask.height) by (nonlinear_arith)
                requires
                    left < right <= mask.width <= mask.stride,
                    top < bottom <= mask.height,
            ;
        }
        let rw = (right - left) as u128;
        let rh = (bottom - top) as u128;
        let base = BASE_HEIGHT as u128;
        let wide = width as u128;
        let mut fw = if rw < wide { rw } else { wide };
        assert(rw * base <= 0x1_0000_0000_0000_0000 * 1024) by (nonlinear_arith)
            requires
                rw <= 0x1_0000_0000_0000_0000,
                base <= 1024,
        ;
        let by_height = rw * base / rh;
        if by_height < fw {
            fw = by_height;
        }
        if fw < 1 {
            fw = 1;
        }
        let mut fh = if rh < base { rh } else { base };
        assert(rh * wide <= 0x1_0000_0000_0000_0000 * 1024) by (nonlinear_arith)
            requires
                rh <= 0x1_0000_0000_0000_0000,
                wide <= 1024,
        ;
        let by_width = rh * wide / rw;
        if by_width < fh {
            fh = by_width;
        }
        if fh < 1 {
            fh = 1;
        }
        proof {
            assert(fw == fitted_width(rw as int, rh as int, width as int));
            assert(fh == fitted_height(rw as int, rh as int, width as int));
        }
        let x0 = x + (width - fw as usize) / 2;
        let y0 = y + (BASE_HEIGHT - fh as usize) / 2;
        let ghost before = self.pixels@;
        self.blend_box(&mask, left, top, right, bottom, fw, fh, x0, y0);
        proof {
            assert(self.pixels@ == fit_result(before, self.height as int, x as int, y as int, width as int, mask)) by {
                assert(mask.visible());
                let (l, t, r, b) = choose|l: int, t: int, r: int, b: int| mask.is_bounding_box(l, t, r, b);
                lemma_bounding_box_unique(mask, l, t, r, b, left as int, top as int, right as int, bottom as int);
            }
            assert forall|i: int| 0 <= i < before.len() && !in_box(i, x as int, y as int, width as int, BASE_HEIGHT as int)
                implies #[trigger] self.pixels@[i] == before[i] by {
                assert(!in_box(i, x0 as int, y0 as int, fw as int, fh as int));
            }
            lemma_fitted_nonzero(before, self.height as int, x as int, y as int, width as int, mask, left as int, top as int, right as int, bottom as int);
            assert(self.pixels@ == fitted(before, x as int, y as int, width as int, mask, left as int, top as int, right as int, bottom as int));
        }
    }

    /// Lays the area averages of `[left, right) x [top, bottom)` of `mask`
    /// over the `fw` x `fh` box at `(x0, y0)`.
    #[verifier::rlimit(40)]
    fn blend_box(
        &mut self,
        mask: &Mask,
        left: usize,
        top: usize,
        right: usize,
        bottom: usize,
        fw: u128,
        fh: u128,
        x0: usize,
        y0: usize,
    )
        requires
            old(self).wf(),
            mask.wf(),
            left < right <= mask.width,
            top < bottom <= mask.height,
            (right - left) * (bottom - top) <= usize::MAX,
            1 <= fw <= WIDTH,
            1 <= fh <= BASE_HEIGHT,
            x0 + fw <= WIDTH,
            y0 + fh <= old(self).height,
        ensures
            final(self).wf(),
            final(self).height == old(self).height,
            final(self).serial == old(self).serial,
            forall|k: int| 0 <= k < old(self).pixels@.len() ==> old(self).pixels@[k] <= #[trigger] final(self).pixels@[k],
            forall|dx: int, dy: int|
                0 <= dx < fw && 0 <= dy < fh ==> #[trigger] cell_value(*mask, left as int, top as int, right as int, bottom as int, fw as int, fh as int, dx, dy) <= 255,
            final(self).pixels@ == blended_box(
                old(self).pixels@,
                x0 as int,
                y0 as int,
                fw as int,
                fh as int,
                *mask,
                left as int,
                top as int,
                right as int,
                bottom as int,
            ),
    {
        let rw = (right - left) as u128;
        let rh = (bottom - top) as u128;
        let fwu = fw as usize;
        let fhu = fh as usize;
        let d: u128 = rw * rh;
        let ghost start = self.pixels@;
        let mut dy: usize = 0;
        while dy < fhu
            invariant
                self.wf(),
                self.height == old(self).height,
                self.serial == old(self).serial,
                start == old(self).pixels@,
                mask.wf(),
                left < right <= mask.width,
                top < bottom <= mask.height,
                rw == right - left,
                rh == bottom - top,
                (right - left) * (bottom - top) <= usize::MAX,
                d == rw * rh,
                1 <= fw <= WIDTH,
                1 <= fh <= BASE_HEIGHT,
                fwu == fw,
                fhu == fh,
                x0 + fw <= WIDTH,
                y0 + fh <= self.height,
                dy <= fhu,
                forall|ddx: int, ddy: int|
                    0 <= ddx < fw && 0 <= ddy < dy ==> #[trigger] cell_value(*mask, left as int, top as int, right as int, bottom as int, fw as int, fh as int, ddx, ddy) <= 255,
                forall|k: int| 0 <= k < start.len() ==> start[k] <= #[trigger] self.pixels@[k],
                self.pixels@ == Seq::new(
                    start.len(),
                    |i: int|
                        {
                            let r = i / (WIDTH as int);
                            let c = i % (WIDTH as int);
                            if y0 <= r < y0 + fh && x0 <= c < x0 + fw && r - y0 < dy {
                                blend(
                                    start[i] as int,
                                    cell_value(*mask, left as int, top as int, right as int, bottom as int, fw as int, fh as int, c - x0, r - y0),
                                ) as u8
                            } else {
                                start[i]
                            }
                        },
                ),
            decreases fhu - dy,
        {
            let mut dx: usize = 0;
            while dx < fwu
                invariant
                    self.wf(),
                    self.height == old(self).height,
                    self.serial == old(self).serial,
                    start == old(self).pixels@,
                    mask.wf(),
                    left < right <= mask.width,
                    top < bottom <= mask.height,
                    rw == right - left,
                    rh == bottom - top,
                    (right - left) * (bottom - top) <= usize::MAX,
                    d == rw * rh,
                            1 <= fw <= WIDTH,
                    1 <= fh <= BASE_HEIGHT,
                    fwu == fw,
                    fhu == fh,
                    x0 + fw <= WIDTH,
                    y0 + fh <= self.height,
                    dy < fhu,
                    dx <= fwu,
                    forall|ddx: int, ddy: int|
                        (0 <= ddx < fw && 0 <= ddy < dy) || (ddy == dy && 0 <= ddx < dx) ==> #[trigger] cell_value(*mask, left as int, top as int, right as int, bottom as int, fw as int, fh as int, ddx, ddy) <= 255,
                    forall|k: int| 0 <= k < start.len() ==> start[k] <= #[trigger] self.pixels@[k],
                    self.pixels@ == Seq::new(
                        start.len(),
                        |i: int|
                            {
                                let r = i / (WIDTH as int);
                                let c = i % (WIDTH as int);
                                if y0 <= r < y0 + fh && x0 <= c < x0 + fw && (r - y0 < dy || (r - y0
                                    == dy && c - x0 < dx)) {
                                    blend(
                                        start[i] as int,
                                        cell_value(*mask, left as int, top as int, right as int, bottom as int, fw as int, fh as int, c - x0, r - y0),
                                    ) as u8
                                } else {
                                    start[i]
                                }
                            },
                    ),
                decreases fwu - dx,
            {
                let value = self.cell(mask, left, top, right, bottom, fw, fh, d, dx, dy);
                assert((y0 + dy) * WIDTH + x0 + dx < WIDTH * self.height);
                let index = (y0 + dy) * WIDTH + x0 + dx;
                proof {
                    lemma_cell((y0 + dy) as int, (x0 + dx) as int);
                    lemma_blend_bound(self.pixels@[index as int] as int, value as int);
                }
                let under = self.pixels[index] as u32;
                let v = value as u32;
                let out = v + (under * (255 - v) + 127) / 255;
                let ghost before = self.pixels@;
                self.pixels[index] = out as u8;
                proof {
                    lemma_blend_never_erases(under as int, value as int);
                    assert forall|k: int| 0 <= k < start.len() implies start[k] <= #[trigger] self.pixels@[k] by {
                        if k != index {
                            assert(self.pixels@[k] == before[k]);
                        }
                    }
                    assert forall|i: int| 0 <= i < start.len() implies #[trigger] self.pixels@[i] == ({
                        let r = i / (WIDTH as int);
                        let c = i % (WIDTH as int);
                        if y0 <= r < y0 + fh && x0 <= c < x0 + fw && (r - y0 < dy || (r - y0 == dy
                            && c - x0 < dx + 1)) {
                            blend(
                                start[i] as int,
                                cell_value(*mask, left as int, top as int, right as int, bottom as int, fw as int, fh as int, c - x0, r - y0),
                            ) as u8
                        } else {
                            start[i]
                        }
                    }) by {
                        if i != index {
                            assert(i == (i / (WIDTH as int)) * WIDTH + i % (WIDTH as int));
                            assert(self.pixels@[i] == before[i]);
                        }
                    }
                    assert(self.pixels@ =~= Seq::new(
                        start.len(),
                        |i: int|
                            {
                                let r = i / (WIDTH as int);
                                let c = i % (WIDTH as int);
                                if y0 <= r < y0 + fh && x0 <= c < x0 + fw && (r - y0 < dy || (r - y0
                                    == dy && c - x0 < dx + 1)) {
                                    blend(
                                        start[i] as int,
                                        cell_value(*mask, left as int, top as int, right as int, bottom as int, fw as int, fh as int, c - x0, r - y0),
                                    ) as u8
                                } else {
                                    start[i]
                                }
                            },
                    ));
                }
                dx = dx + 1;
            }
            proof {
                assert(self.pixels@ =~= Seq::new(
                    start.len(),
                    |i: int|
                        {
                            let r = i / (WIDTH as int);
                            let c = i % (WIDTH as int);
                            if y0 <= r < y0 + fh && x0 <= c < x0 + fw && r - y0 < dy + 1 {
                                blend(
                                    start[i] as int,
                                    cell_value(*mask, left as int, top as int, right as int, bottom as int, fw as int, fh as int, c - x0, r - y0),
                                ) as u8
                            } else {
                                start[i]
                            }
                        },
                ));
            }
            dy = dy + 1;
        }
        proof {
            assert(self.pixels@ =~= blended_box(
                start,
                x0 as int,
                y0 as int,
                fw as int,
                fh as int,
                *mask,
                left as int,
                top as int,
                right as int,
                bottom as int,
            ));
        }
    }

    /// The value of destination pixel `(dx, dy)` of the fitted box.
    #[verifier::rlimit(40)]
    #[verifier::spinoff_prover]
    fn cell(
        &self,
        mask: &Mask,
        left: usize,
        top: usize,
        right: usize,
        bottom: usize,
        fw: u128,
        fh: u128,
        d: u128,
        dx: usize,
        dy: usize,
    ) -> (v: u8)
        requires
            mask.wf(),
            left < right <= mask.width,
            top < bottom <= mask.height,
            (right - left) * (bottom - top) <= usize::MAX,
            d == (right - left) * (bottom - top),
            1 <= fw <= WIDTH,
            1 <= fh <= BASE_HEIGHT,
            dx < fw,
            dy < fh,
        ensures
            v == cell_value(*mask, left as int, top as int, right as int, bottom as int, fw as int, fh as int, dx as int, dy as int),
    {
        let rw = (right - left) as u128;
        let rh = (bottom - top) as u128;
        proof {
            assert(left * fw + dx * rw + rw <= (left + rw) * fw) by (nonlinear_arith)
                requires
                    dx < fw,
                    0 <= left,
                    0 <= rw,
            ;
            assert(top * fh + dy * rh + rh <= (top + rh) * fh) by (nonlinear_arith)
                requires
                    dy < fh,
                    0 <= top,
                    0 <= rh,
            ;
            assert((left + rw) * fw <= 0x1_0000_0000_0000_0000 * 1024) by (nonlinear_arith)
                requires
                    left + rw <= 0x1_0000_0000_0000_0000,
                    fw <= 1024,
            ;
            assert((top + rh) * fh <= 0x1_0000_0000_0000_0000 * 1024) by (nonlinear_arith)
                requires
                    top + rh <= 0x1_0000_0000_0000_0000,
                    fh <= 1024,
            ;
        }
        let xa: u128 = left as u128 * fw + dx as u128 * rw;
        let xb: u128 = xa + rw;
        let ya: u128 = top as u128 * fh + dy as u128 * rh;
        let yb: u128 = ya + rh;
        let xlo = xa / fw;
        let ceil_x = (xb + fw - 1) / fw;
        let xhi = if (right as u128) < ceil_x { right as u128 } else { ceil_x };
        let ylo = ya / fh;
        let ceil_y = (yb + fh - 1) / fh;
        let yhi = if (bottom as u128) < ceil_y { bottom as u128 } else { ceil_y };
        proof {
            let fwi = fw as int;
            let fhi = fh as int;
            let xai = xa as int;
            let xbi = xb as int;
            let yai = ya as int;
            let ybi = yb as int;
            let cx = ceil_x as int;
            let cy = ceil_y as int;
            vstd::arithmetic::div_mod::lemma_fundamental_div_mod(xai, fwi);
            vstd::arithmetic::div_mod::lemma_fundamental_div_mod(yai, fhi);
            vstd::arithmetic::div_mod::lemma_fundamental_div_mod(xbi + fwi - 1, fwi);
            vstd::arithmetic::div_mod::lemma_fundamental_div_mod(ybi + fhi - 1, fhi);
            vstd::arithmetic::div_mod::lemma_mod_pos_bound(xai, fwi);
            vstd::arithmetic::div_mod::lemma_mod_pos_bound(yai, fhi);
            vstd::arithmetic::div_mod::lemma_mod_pos_bound(xbi + fwi - 1, fwi);
            vstd::arithmetic::div_mod::lemma_mod_pos_bound(ybi + fhi - 1, fhi);
            vstd::arithmetic::mul::lemma_mul_is_commutative(fwi, xai / fwi);
            vstd::arithmetic::mul::lemma_mul_is_commutative(fhi, yai / fhi);
            vstd::arithmetic::mul::lemma_mul_is_commutative(fwi, (xbi + fwi - 1) / fwi);
            vstd::arithmetic::mul::lemma_mul_is_commutative(fhi, (ybi + fhi - 1) / fhi);
            assert(xlo as int == xai / fwi);
            assert(ylo as int == yai / fhi);
            assert(cx == (xbi + fwi - 1) / fwi);
            assert(cy == (ybi + fhi - 1) / fhi);
            let rx = (xbi + fwi - 1) % fwi;
            let ry = (ybi + fhi - 1) % fhi;
            assert(xlo * fwi <= xai < xlo * fwi + fwi);
            assert(ylo * fhi <= yai < ylo * fhi + fhi);
            assert(cx * fwi + rx == xbi + fwi - 1);
            assert(cy * fhi + ry == ybi + fhi - 1);
            assert(xlo < right) by (nonlinear_arith)
                requires
                    xlo * fwi <= xai,
                    xai < xbi,
                    xbi <= right * fwi,
                    1 <= fwi,
            ;
            assert(ylo < bottom) by (nonlinear_arith)
                requires
                    ylo * fhi <= yai,
                    yai < ybi,
                    ybi <= bottom * fhi,
                    1 <= fhi,
            ;
            assert(xlo <= cx) by (nonlinear_arith)
                requires
                    xlo * fwi <= xai,
                    xai < xbi,
                    cx * fwi + rx == xbi + fwi - 1,
                    0 <= rx < fwi,
                    1 <= fwi,
            ;
            assert(ylo <= cy) by (nonlinear_arith)
                requires
                    ylo * fhi <= yai,
                    yai < ybi,
                    cy * fhi + ry == ybi + fhi - 1,
                    0 <= ry < fhi,
                    1 <= fhi,
            ;
            assert(xhi * fwi < xbi + fwi) by (nonlinear_arith)
                requires
                    xhi <= cx,
                    cx * fwi + rx == xbi + fwi - 1,
                    0 <= rx,
                    1 <= fwi,
            ;
            assert(yhi * fhi < ybi + fhi) by (nonlinear_arith)
                requires
                    yhi <= cy,
                    cy * fhi + ry == ybi + fhi - 1,
                    0 <= ry,
                    1 <= fhi,
            ;
            assert((xlo + 1) * fwi == xlo * fwi + fwi) by (nonlinear_arith);
            assert((ylo + 1) * fhi == ylo * fhi + fhi) by (nonlinear_arith);
        }
        let sum = box_alpha(
            mask,
            ylo as usize,
            yhi as usize,
            ya,
            yb,
            fh,
            xlo as usize,
            xhi as usize,
            xa,
            xb,
            fw,
        );
        if sum == 0 {
            return 0;
        }
        proof {
            assert(d > 0) by (nonlinear_arith)
                requires
                    d == rw * rh,
                    rw > 0,
                    rh > 0,
            ;
            lemma_rounded_mean(sum as int, d as int);
        }
        let mean = (2 * sum + d) / (2 * d);
        if mean < 1 {
            1
        } else {
            mean as u8
        }
    }
}

} // verus!

verus! {

/// `s` in canonical composition.
pub open spec fn normalized_spec(s: Seq<char>) -> Seq<char> {
    nfc_of(s)
}

/// `text` in canonical composition, so that decomposed accents reach the
/// pixel font as single characters. ASCII text comes back unchanged.
pub fn normalized(text: &str) -> (r: String)
    ensures
        r@ == normalized_spec(text@),
        vstd::utf8::is_ascii_chars(text@) ==> r@ == text@,
        r@.len() > 0 <==> text@.len() > 0,
{
    nfc(text)
}

/// Texts with the same canonical composition are drawn alike: every drawing
/// function reads its text only through `normalized_spec`.
pub proof fn lemma_drawing_depends_on_composition(s: Seq<char>, t: Seq<char>)
    requires
        nfc_of(s) == nfc_of(t),
    ensures
        normalized_spec(s) == normalized_spec(t),
        line_width_spec(s) == line_width_spec(t),
{
}

/// The mask a shaped text describes, when its size is usable and its rows lie
/// inside its pixels.
pub fn mask_view(mask: UpTextMask) -> (r: Option<Mask>)
    ensures
        match r {
            Some(m) => {
                &&& m.wf()
                &&& m.pixels@ == mask.pixels@
                &&& m.width == mask.width
                &&& m.height == mask.height
                &&& m.stride == mask.stride
                &&& m.width > 0
                &&& m.height > 0
            },
            None => mask.width <= 0 || mask.height <= 0 || mask.stride < mask.width
                || mask.stride * mask.height > mask.pixels@.len(),
        },
{
    if mask.width <= 0 || mask.height <= 0 || mask.stride < mask.width {
        return None;
    }
    let width = mask.width as usize;
    let height = mask.height as usize;
    let stride = mask.stride as usize;
    let available = mask.pixels.len();
    match stride.checked_mul(height) {
        None => None,
        Some(length) => {
            if length > available {
                None
            } else {
                let view = Mask { pixels: mask.pixels, width, height, stride };
                assert(view.pixels@ == mask.pixels@);
                assert(view.stride * view.height == length);
                assert(view.wf());
                Some(view)
            }
        },
    }
}

/// `p` with the pixel glyphs of `s` drawn one cell apart from `(x, y)`;
/// characters without a pixel glyph leave their cell untouched.
pub open spec fn draw_text(p: Seq<u8>, height: int, x: int, y: int, s: Seq<char>) -> Seq<u8>
    decreases s.len(),
{
    if s.len() == 0 {
        p
    } else {
        let before = draw_text(p, height, x, y, s.drop_last());
        match glyph_spec(s.last()) {
            Some(g) => draw_glyph(before, height, x + (s.len() - 1) * CELL, y, g),
            None => before,
        }
    }
}

/// Every character of `s` has a pixel glyph.
pub open spec fn all_glyphs(s: Seq<char>) -> bool {
    forall|k: int| 0 <= k < s.len() ==> #[trigger] glyph_spec(s[k]) is Some
}

/// Number of characters of a `len`-character text drawn at column `x` when at
/// most `maximum` are wanted: as many as fit in the image width.
pub open spec fn text_cells(len: int, x: int, maximum: int) -> int {
    let room = if x < WIDTH { (WIDTH - x) / (CELL as int) } else { 0 };
    min_int(len, min_int(maximum, room))
}

/// A shaping result that draws nothing.
pub open spec fn blank_mask(m: Result<UpTextMask, String>) -> bool {
    m matches Ok(mask) && mask.width <= 0
}

/// A drawn line is never wider than the image.
pub proof fn lemma_line_width_bounded(len: int, x: int)
    requires
        0 <= len,
        0 <= x,
    ensures
        0 <= pixel_width_spec(line_cells(len, x)) <= WIDTH - SCALE,
        x + line_cells(len, x) * CELL <= WIDTH || line_cells(len, x) == 0,
{
}

/// `e` is an error that `shape` returns for some text.
pub open spec fn shaping_failed<S: Fn(&str) -> Result<UpTextMask, String>>(shape: &S, e: String) -> bool {
    exists|t: &str| #[trigger] shape.ensures((t,), Err::<UpTextMask, String>(e))
}

/// `s[a..b)` is a whole run of characters without a pixel glyph: none of
/// them has one, and the characters just before and after it do.
pub open spec fn is_run(s: Seq<char>, a: int, b: int) -> bool {
    &&& 0 <= a < b <= s.len()
    &&& forall|k: int| a <= k < b ==> #[trigger] glyph_spec(s[k]) is None
    &&& (a == 0 || glyph_spec(s[a - 1]) is Some)
    &&& (b == s.len() || glyph_spec(s[b]) is Some)
}

/// Pixel `i` lies in the cells of characters `a..b` of a line drawn from
/// `(x, y)`.
pub open spec fn run_box(i: int, x: int, y: int, a: int, b: int) -> bool {
    in_box(i, x + a * CELL, y, pixel_width_spec(b - a), GLYPH_HEIGHT as int)
}

/// Pixel `i` lies in the cells of a run of `s` that ends by `end`.
pub open spec fn in_runs(s: Seq<char>, end: int, x: int, y: int, i: int) -> bool {
    exists|a: int, b: int| is_run(s, a, b) && b <= end && #[trigger] run_box(i, x, y, a, b)
}

/// `v` is what `mask_view` makes of `m`.
pub open spec fn view_of(m: UpTextMask, v: Option<Mask>) -> bool {
    match v {
        Some(vm) => {
            &&& vm.wf()
            &&& vm.pixels@ == m.pixels@
            &&& vm.width == m.width
            &&& vm.height == m.height
            &&& vm.stride == m.stride
            &&& vm.width > 0
            &&& vm.height > 0
        },
        None => m.width <= 0 || m.height <= 0 || m.stride < m.width || m.stride * m.height > m.pixels@.len(),
    }
}

/// `p` after fitting the mask view `v`, if any, into the box at `(x, y)`.
pub open spec fn fit_opt(p: Seq<u8>, height: int, x: int, y: int, width: int, v: Option<Mask>) -> Seq<u8> {
    match v {
        Some(m) => fit_result(p, height, x, y, width, m),
        None => p,
    }
}

/// The run `s[a..b)` was handed to `shape` as one text, which gave a mask, and
/// the cells of the run in `p` hold that mask fitted into them over `start`.
pub open spec fn run_shaped<S: Fn(&str) -> Result<UpTextMask, String>>(
    shape: &S,
    s: Seq<char>,
    start: Seq<u8>,
    p: Seq<u8>,
    height: int,
    x: int,
    y: int,
    a: int,
    b: int,
) -> bool {
    exists|t: &str, m: UpTextMask, v: Option<Mask>|
        #![trigger shape.ensures((t,), Ok::<UpTextMask, String>(m)), view_of(m, v)]
        t@ == s.subrange(a, b) && shape.ensures((t,), Ok::<UpTextMask, String>(m)) && view_of(m, v)
            && forall|i: int|
            0 <= i < p.len() && #[trigger] run_box(i, x, y, a, b) ==> p[i] == fit_opt(
                start,
                height,
                x + a * CELL,
                y + ACCENT_PAD,
                pixel_width_spec(b - a),
                v,
            )[i]
}

/// `p` is `start` with the line `s` drawn from `(x, y)`: the cells of
/// characters with a pixel glyph as `draw_text` draws them, and each run of
/// other characters shaped as one text and its mask fitted into its cells.
pub open spec fn rasterized<S: Fn(&str) -> Result<UpTextMask, String>>(
    shape: &S,
    start: Seq<u8>,
    p: Seq<u8>,
    height: int,
    x: int,
    y: int,
    s: Seq<char>,
) -> bool {
    &&& p.len() == start.len()
    &&& forall|i: int|
        0 <= i < p.len() && !in_runs(s, s.len() as int, x, y, i) ==> #[trigger] p[i] == draw_text(start, height, x, y, s)[i]
    &&& forall|a: int, b: int| #[trigger] is_run(s, a, b) ==> run_shaped(shape, s, start, p, height, x, y, a, b)
}

/// `after` is `before` with `text`, in canonical composition, drawn as one
/// line at row `y` in at most `maximum` cells: the part that fits drawn with
/// `shape` for the characters outside the pixel font, then dots when cut.
pub open spec fn ellipsized_by<S: Fn(&str) -> Result<UpTextMask, String>>(
    shape: &S,
    before: Seq<u8>,
    after: Seq<u8>,
    height: int,
    y: int,
    text: Seq<char>,
    maximum: int,
) -> bool {
    let norm = normalized_spec(text);
    let dots = dots_spec(norm.len() as int, maximum);
    let kept = min_int(norm.len() as int, maximum - dots);
    exists|q: Seq<u8>|
        #![trigger draw_dots(q, height, y, kept, dots)]
        after == draw_dots(q, height, y, kept, dots) && rasterized(shape, before, q, height, 0, y, norm.take(kept))
}

/// Drawing text keeps the image size.
pub proof fn lemma_draw_text_len(p: Seq<u8>, height: int, x: int, y: int, t: Seq<char>)
    ensures
        draw_text(p, height, x, y, t).len() == p.len(),
    decreases t.len(),
{
    if t.len() > 0 {
        lemma_draw_text_len(p, height, x, y, t.drop_last());
    }
}

/// Drawing a glyph changes each pixel according to that pixel alone.
pub proof fn lemma_draw_glyph_pointwise(p: Seq<u8>, q: Seq<u8>, height: int, x: int, y: int, g: (u8, Seq<u8>, Seq<u8>), i: int)
    requires
        p.len() == q.len(),
        0 <= i < p.len(),
        p[i] == q[i],
    ensures
        draw_glyph(p, height, x, y, g)[i] == draw_glyph(q, height, x, y, g)[i],
{
}

/// Fitting a mask changes each pixel according to that pixel alone.
pub proof fn lemma_fit_pointwise(p: Seq<u8>, q: Seq<u8>, height: int, x: int, y: int, width: int, v: Option<Mask>, i: int)
    requires
        p.len() == q.len(),
        0 <= i < p.len(),
        p[i] == q[i],
    ensures
        fit_opt(p, height, x, y, width, v)[i] == fit_opt(q, height, x, y, width, v)[i],
{
}

/// Every text handed to `shape` gives a mask.
pub open spec fn shaping_succeeds<S: Fn(&str) -> Result<UpTextMask, String>>(shape: &S) -> bool {
    forall|t: &str, m: Result<UpTextMask, String>| #[trigger] shape.ensures((t,), m) ==> m is Ok
}

/// Text lines must start where a whole line fits.
pub open spec fn line_fits(height: int, y: int) -> bool {
    height >= GLYPH_HEIGHT && y <= height - GLYPH_HEIGHT
}

impl Image {
    /// Draws at most `maximum` characters of `text` one cell apart from
    /// `(x, y)`. Characters with a pixel glyph are drawn with it; each run of
    /// other characters is handed to `shape` and the mask it returns is
    /// fitted into the run's cells. Returns the number of cells used, or the
    /// error of `shape`.
    pub fn rasterize<S: Fn(&str) -> Result<UpTextMask, String>>(
        &mut self,
        x: usize,
        y: usize,
        text: &str,
        maximum: usize,
        shape: &S,
    ) -> (r: Result<usize, String>)
        requires
            old(self).wf(),
            forall|s: &str| #[trigger] shape.requires((s,)),
        ensures
            r matches Err(e) ==> shaping_failed(shape, e),
            shaping_succeeds(shape) ==> r is Ok,
            final(self).wf(),
            final(self).height == old(self).height,
            final(self).serial == old(self).serial,
            !line_fits(old(self).height as int, y as int) ==> r == Ok::<usize, String>(0usize)
                && final(self).pixels@ == old(self).pixels@,
            line_fits(old(self).height as int, y as int) ==> match r {
                Ok(cells) => cells == text_cells(text@.len() as int, x as int, maximum as int),
                Err(_) => !all_glyphs(text@.take(text_cells(text@.len() as int, x as int, maximum as int))),
            },
            same_outside(
                old(self).pixels@,
                final(self).pixels@,
                x as int,
                y as int,
                pixel_width_spec(text_cells(text@.len() as int, x as int, maximum as int)),
                GLYPH_HEIGHT as int,
            ),
            line_fits(old(self).height as int, y as int) && all_glyphs(
                text@.take(text_cells(text@.len() as int, x as int, maximum as int)),
            ) ==> final(self).pixels@ == draw_text(
                old(self).pixels@,
                old(self).height as int,
                x as int,
                y as int,
                text@.take(text_cells(text@.len() as int, x as int, maximum as int)),
            ),
            line_fits(old(self).height as int, y as int) && (forall|s: &str, m: Result<UpTextMask, String>|
                #[trigger] shape.ensures((s,), m) ==> blank_mask(m)) ==> r is Ok && final(self).pixels@
                == draw_text(
                old(self).pixels@,
                old(self).height as int,
                x as int,
                y as int,
                text@.take(text_cells(text@.len() as int, x as int, maximum as int)),
            ),
            line_fits(old(self).height as int, y as int) && r is Ok ==> rasterized(
                shape,
                old(self).pixels@,
                final(self).pixels@,
                old(self).height as int,
                x as int,
                y as int,
                text@.take(text_cells(text@.len() as int, x as int, maximum as int)),
            ),
    {
        if self.height < GLYPH_HEIGHT || y > self.height - GLYPH_HEIGHT {
            return Ok(0);
        }
        let ghost blank = forall|s: &str, m: Result<UpTextMask, String>|
            #[trigger] shape.ensures((s,), m) ==> blank_mask(m);
        let characters = chars_of(text);
        let room = WIDTH.saturating_sub(x) / CELL;
        let limit = if maximum < room { maximum } else { room };
        let count = if characters.len() < limit { characters.len() } else { limit };
        let ghost s = text@.take(count as int);
        let ghost start = self.pixels@;
        let mut cells: usize = 0;
        while cells < count
            invariant
                self.wf(),
                self.height == old(self).height,
                self.serial == old(self).serial,
                start == old(self).pixels@,
                line_fits(self.height as int, y as int),
                characters@ == text@,
                count == text_cells(text@.len() as int, x as int, maximum as int),
                s == text@.take(count as int),
                count <= characters@.len(),
                count > 0 ==> x + count * CELL <= WIDTH,
                cells <= count,
                forall|s: &str| #[trigger] shape.requires((s,)),
                all_glyphs(s.take(cells as int)) ==> self.pixels@ == draw_text(
                    start,
                    self.height as int,
                    x as int,
                    y as int,
                    s.take(cells as int),
                ),
                same_outside(start, self.pixels@, x as int, y as int, pixel_width_spec(cells as int), GLYPH_HEIGHT as int),
                0 < cells < count && glyph_spec(s[cells - 1]) is None ==> glyph_spec(s[cells as int]) is Some,
                forall|i: int|
                    0 <= i < self.pixels@.len() && !in_runs(s, cells as int, x as int, y as int, i)
                        ==> #[trigger] self.pixels@[i] == draw_text(
                        start,
                        self.height as int,
                        x as int,
                        y as int,
                        s.take(cells as int),
                    )[i],
                forall|a: int, b: int|
                    #[trigger] is_run(s, a, b) && b <= cells ==> run_shaped(
                        shape,
                        s,
                        start,
                        self.pixels@,
                        self.height as int,
                        x as int,
                        y as int,
                        a,
                        b,
                    ),
                blank == (forall|s: &str, m: Result<UpTextMask, String>|
                    #[trigger] shape.ensures((s,), m) ==> blank_mask(m)),
                blank ==> self.pixels@ == draw_text(
                    start,
                    self.height as int,
                    x as int,
                    y as int,
                    s.take(cells as int),
                ),
            decreases count - cells,
        {
            proof {
                assert(s.take(cells + 1).drop_last() =~= s.take(cells as int));
                assert(s.take(cells + 1).last() == characters@[cells as int]);
            }
            match PixelGlyph::for_character(characters[cells]) {
                Some(glyph) => {
                    let ghost before = self.pixels@;
                    assert(x + cells * CELL < x + count * CELL) by (nonlinear_arith)
                        requires cells < count;
                    self.pixel_glyph(x + cells * CELL, y, &glyph);
                    proof {
                        assert forall|i: int| 0 <= i < start.len() && !in_box(i, x as int, y as int, pixel_width_spec(cells + 1), GLYPH_HEIGHT as int)
                            implies #[trigger] self.pixels@[i] == start[i] by {
                            assert(CELL == 12 && SCALE == 2 && GLYPH_HEIGHT == 28);
                            assert(pixel_width_spec(cells + 1) == cells * 12 + 10);
                            assert(pixel_width_spec(cells as int) <= cells * 12);
                            assert(!in_box(i, (x + cells * CELL) as int, y as int, 5 * SCALE, GLYPH_HEIGHT as int));
                            assert(!in_box(i, x as int, y as int, pixel_width_spec(cells as int), GLYPH_HEIGHT as int));
                        }
                        assert(CELL == 12 && SCALE == 2 && GLYPH_HEIGHT == 28);
                        assert(s[cells as int] == characters@[cells as int]);
                        let prior = draw_text(start, self.height as int, x as int, y as int, s.take(cells as int));
                        lemma_draw_text_len(start, self.height as int, x as int, y as int, s.take(cells as int));
                        assert forall|i: int|
                            0 <= i < self.pixels@.len() && !in_runs(s, cells + 1, x as int, y as int, i)
                                implies #[trigger] self.pixels@[i] == draw_text(
                                start,
                                self.height as int,
                                x as int,
                                y as int,
                                s.take(cells + 1),
                            )[i] by {
                            assert(!in_runs(s, cells as int, x as int, y as int, i));
                            assert(before[i] == prior[i]);
                            lemma_draw_glyph_pointwise(
                                before,
                                prior,
                                self.height as int,
                                (x + cells * CELL) as int,
                                y as int,
                                glyph_view(glyph),
                                i,
                            );
                        }
                        assert forall|a: int, b: int|
                            #[trigger] is_run(s, a, b) && b <= cells + 1 implies run_shaped(
                                shape,
                                s,
                                start,
                                self.pixels@,
                                self.height as int,
                                x as int,
                                y as int,
                                a,
                                b,
                            ) by {
                            if b == cells + 1 {
                                assert(glyph_spec(s[cells as int]) is None);
                            }
                            assert(b <= cells);
                            assert(run_shaped(shape, s, start, before, self.height as int, x as int, y as int, a, b));
                            let (t, m, v) = choose|t: &str, m: UpTextMask, v: Option<Mask>|
                                t@ == s.subrange(a, b) && shape.ensures((t,), Ok::<UpTextMask, String>(m)) && view_of(m, v)
                                    && forall|i: int|
                                    0 <= i < before.len() && #[trigger] run_box(i, x as int, y as int, a, b) ==> before[i] == fit_opt(
                                        start,
                                        self.height as int,
                                        x + a * CELL,
                                        y + ACCENT_PAD,
                                        pixel_width_spec(b - a),
                                        v,
                                    )[i];
                            assert forall|i: int|
                                0 <= i < self.pixels@.len() && #[trigger] run_box(i, x as int, y as int, a, b) implies self.pixels@[i]
                                    == fit_opt(start, self.height as int, x + a * CELL, y + ACCENT_PAD, pixel_width_spec(b - a), v)[i] by {
                                assert(!in_box(i, (x + cells * CELL) as int, y as int, 5 * SCALE, GLYPH_HEIGHT as int));
                            }
                        }
                        if all_glyphs(s.take(cells + 1)) {
                            assert(all_glyphs(s.take(cells as int))) by {
                                assert forall|k: int| 0 <= k < cells implies #[trigger] glyph_spec(s.take(cells as int)[k]) is Some by {
                                    assert(s.take(cells as int)[k] == s.take(cells + 1)[k]);
                                }
                            }
                        }
                    }
                    cells = cells + 1;
                },
                None => {
                    let first = cells;
                    let ghost entry = self.pixels@;
                    let mut run: Vec<char> = Vec::new();
                    run.push(characters[cells]);
                    cells = cells + 1;
                    proof {
                        assert(s[first as int] == characters@[first as int]);
                        assert(run@ =~= s.subrange(first as int, cells as int));
                    }
                    while cells < count && PixelGlyph::for_character(characters[cells]).is_none()
                        invariant
                            first < cells <= count,
                            count <= characters@.len(),
                            run@.len() == cells - first,
                            run@ == s.subrange(first as int, cells as int),
                            forall|k: int| first <= k < cells ==> #[trigger] glyph_spec(s[k]) is None,
                            characters@ == text@,
                            s == text@.take(count as int),
                            draw_text(start, self.height as int, x as int, y as int, s.take(cells as int))
                                == draw_text(start, self.height as int, x as int, y as int, s.take(first as int)),
                        decreases count - cells,
                    {
                        proof {
                            assert(s.take(cells + 1).drop_last() =~= s.take(cells as int));
                            assert(s.take(cells + 1).last() == characters@[cells as int]);
                        }
                        run.push(characters[cells]);
                        proof {
                            assert(s[cells as int] == characters@[cells as int]);
                            assert(run@ =~= s.subrange(first as int, cells + 1));
                        }
                        cells = cells + 1;
                    }
                    proof {
                        assert(CELL == 12 && SCALE == 2 && GLYPH_HEIGHT == 28 && ACCENT_PAD == 7 && BASE_HEIGHT == 14);
                        if cells < count {
                            assert(s[cells as int] == characters@[cells as int]);
                        }
                        assert(is_run(s, first as int, cells as int));
                    }
                    proof {
                        assert(!all_glyphs(s.take(cells as int))) by {
                            assert(s.take(cells as int)[first as int] == characters@[first as int]);
                        }
                    }
                    let run_text = string_of(run.as_slice());
                    let run_str = run_text.as_str();
                    let shaped = shape(run_str);
                    let ghost result = shaped;
                    let mask = match shaped {
                        Ok(mask) => mask,
                        Err(e) => {
                            proof {
                                assert(!all_glyphs(s)) by {
                                    assert(s[first as int] == characters@[first as int]);
                                }
                                assert(shape.ensures((run_str,), Err::<UpTextMask, String>(e)));
                            }
                            return Err(e);
                        },
                    };
                    let ghost before = self.pixels@;
                    let ghost shaped_mask = mask;
                    let viewed = mask_view(mask);
                    let ghost gv = viewed;
                    let width = pixel_width(cells - first);
                    if let Some(view) = viewed {
                        self.fit_mask(x + first * CELL, y + ACCENT_PAD, width, view);
                        proof {
                            assert forall|i: int| 0 <= i < start.len() && !in_box(i, x as int, y as int, pixel_width_spec(cells as int), GLYPH_HEIGHT as int)
                                implies #[trigger] self.pixels@[i] == start[i] by {
                                assert(!in_box(i, (x + first * CELL) as int, (y + ACCENT_PAD) as int, width as int, BASE_HEIGHT as int));
                                assert(!in_box(i, x as int, y as int, pixel_width_spec(first as int), GLYPH_HEIGHT as int));
                            }
                        }
                    } else {
                        proof {
                            assert forall|i: int| 0 <= i < start.len() && !in_box(i, x as int, y as int, pixel_width_spec(cells as int), GLYPH_HEIGHT as int)
                                implies #[trigger] self.pixels@[i] == start[i] by {
                                assert(!in_box(i, x as int, y as int, pixel_width_spec(first as int), GLYPH_HEIGHT as int));
                            }
                        }
                    }
                    proof {
                        if blank {
                            assert(blank_mask(Ok::<UpTextMask, String>(shaped_mask)));
                        }
                        assert(self.pixels@ == fit_opt(
                            before,
                            self.height as int,
                            (x + first * CELL) as int,
                            (y + ACCENT_PAD) as int,
                            width as int,
                            gv,
                        ));
                        assert(same_outside(
                            before,
                            self.pixels@,
                            (x + first * CELL) as int,
                            (y + ACCENT_PAD) as int,
                            width as int,
                            BASE_HEIGHT as int,
                        ));
                        let prior = draw_text(start, self.height as int, x as int, y as int, s.take(first as int));
                        assert forall|i: int|
                            0 <= i < self.pixels@.len() && !in_runs(s, cells as int, x as int, y as int, i)
                                implies #[trigger] self.pixels@[i] == draw_text(
                                start,
                                self.height as int,
                                x as int,
                                y as int,
                                s.take(cells as int),
                            )[i] by {
                            if run_box(i, x as int, y as int, first as int, cells as int) {
                                assert(in_runs(s, cells as int, x as int, y as int, i));
                            }
                            assert(!in_box(i, (x + first * CELL) as int, (y + ACCENT_PAD) as int, width as int, BASE_HEIGHT as int));
                            assert(!in_runs(s, first as int, x as int, y as int, i));
                            assert(before[i] == prior[i]);
                        }
                        assert(shape.ensures((run_str,), Ok::<UpTextMask, String>(shaped_mask)));
                        assert(view_of(shaped_mask, gv));
                        assert forall|i: int|
                            0 <= i < self.pixels@.len() && #[trigger] run_box(i, x as int, y as int, first as int, cells as int)
                                implies self.pixels@[i] == fit_opt(
                                start,
                                self.height as int,
                                x + first * CELL,
                                y + ACCENT_PAD,
                                pixel_width_spec(cells - first),
                                gv,
                            )[i] by {
                            assert(!in_box(i, x as int, y as int, pixel_width_spec(first as int), GLYPH_HEIGHT as int));
                            assert(before[i] == start[i]);
                            lemma_fit_pointwise(
                                before,
                                start,
                                self.height as int,
                                (x + first * CELL) as int,
                                (y + ACCENT_PAD) as int,
                                width as int,
                                gv,
                                i,
                            );
                        }
                        assert(run_shaped(shape, s, start, self.pixels@, self.height as int, x as int, y as int, first as int, cells as int));
                        assert forall|a: int, b: int|
                            #[trigger] is_run(s, a, b) && b <= cells implies run_shaped(
                                shape,
                                s,
                                start,
                                self.pixels@,
                                self.height as int,
                                x as int,
                                y as int,
                                a,
                                b,
                            ) by {
                            if b > first {
                                assert(a == first && b == cells as int) by {
                                    if a < first {
                                        assert(glyph_spec(s[first as int]) is None);
                                    }
                                    if a > first {
                                        assert(glyph_spec(s[a - 1]) is None);
                                    }
                                    if b < cells {
                                        assert(glyph_spec(s[b]) is None);
                                    }
                                }
                            } else {
                                assert(run_shaped(shape, s, start, before, self.height as int, x as int, y as int, a, b));
                                let (t, m, v) = choose|t: &str, m: UpTextMask, v: Option<Mask>|
                                    t@ == s.subrange(a, b) && shape.ensures((t,), Ok::<UpTextMask, String>(m)) && view_of(m, v)
                                        && forall|i: int|
                                        0 <= i < before.len() && #[trigger] run_box(i, x as int, y as int, a, b) ==> before[i] == fit_opt(
                                            start,
                                            self.height as int,
                                            x + a * CELL,
                                            y + ACCENT_PAD,
                                            pixel_width_spec(b - a),
                                            v,
                                        )[i];
                                assert forall|i: int|
                                    0 <= i < self.pixels@.len() && #[trigger] run_box(i, x as int, y as int, a, b) implies self.pixels@[i]
                                        == fit_opt(start, self.height as int, x + a * CELL, y + ACCENT_PAD, pixel_width_spec(b - a), v)[i] by {
                                    assert(!in_box(i, (x + first * CELL) as int, (y + ACCENT_PAD) as int, width as int, BASE_HEIGHT as int));
                                }
                            }
                        }
                    }
                },
            }
        }
        proof {
            assert(s.take(cells as int) =~= s);
            assert(cells == s.len());
        }
        Ok(cells)
    }
}

} // verus!

verus! {

/// Number of cells a text line of `len` characters uses at column `x`.
pub open spec fn line_cells(len: int, x: int) -> int {
    text_cells(len, x, (WIDTH / CELL) as int)
}

impl Image {
    /// Draws one line of `text`, normalized, from `(x, y)` as far as the image
    /// width allows, shaping the characters outside the pixel font with
    /// `shape`. Returns the pixel width of the cells used.
    pub fn text_shaped<S: Fn(&str) -> Result<UpTextMask, String>>(
        &mut self,
        x: usize,
        y: usize,
        text: &str,
        shape: &S,
    ) -> (r: Result<usize, String>)
        requires
            old(self).wf(),
            forall|s: &str| #[trigger] shape.requires((s,)),
        ensures
            r matches Err(e) ==> shaping_failed(shape, e),
            shaping_succeeds(shape) ==> r is Ok,
            final(self).wf(),
            final(self).height == old(self).height,
            final(self).serial == old(self).serial,
            !line_fits(old(self).height as int, y as int) ==> r == Ok::<usize, String>(0usize)
                && final(self).pixels@ == old(self).pixels@,
            same_outside(
                old(self).pixels@,
                final(self).pixels@,
                x as int,
                y as int,
                pixel_width_spec(line_cells(normalized_spec(text@).len() as int, x as int)),
                GLYPH_HEIGHT as int,
            ),
            line_fits(old(self).height as int, y as int) ==> match r {
                Ok(width) => width == pixel_width_spec(
                    line_cells(normalized_spec(text@).len() as int, x as int),
                ),
                Err(_) => !all_glyphs(
                    normalized_spec(text@).take(
                        line_cells(normalized_spec(text@).len() as int, x as int),
                    ),
                ),
            },
            line_fits(old(self).height as int, y as int) && all_glyphs(
                normalized_spec(text@).take(
                    line_cells(normalized_spec(text@).len() as int, x as int),
                ),
            ) ==> final(self).pixels@ == draw_text(
                old(self).pixels@,
                old(self).height as int,
                x as int,
                y as int,
                normalized_spec(text@).take(
                    line_cells(normalized_spec(text@).len() as int, x as int),
                ),
            ),
            line_fits(old(self).height as int, y as int) && (forall|s: &str, m: Result<UpTextMask, String>|
                #[trigger] shape.ensures((s,), m) ==> blank_mask(m)) ==> r is Ok && final(self).pixels@
                == draw_text(
                old(self).pixels@,
                old(self).height as int,
                x as int,
                y as int,
                normalized_spec(text@).take(
                    line_cells(normalized_spec(text@).len() as int, x as int),
                ),
            ),
            line_fits(old(self).height as int, y as int) && r is Ok ==> rasterized(
                shape,
                old(self).pixels@,
                final(self).pixels@,
                old(self).height as int,
                x as int,
                y as int,
                normalized_spec(text@).take(line_cells(normalized_spec(text@).len() as int, x as int)),
            ),
    {
        let line = normalized(text);
        match self.rasterize(x, y, line.as_str(), WIDTH / CELL, shape) {
            Ok(cells) => Ok(pixel_width(cells)),
            Err(e) => Err(e),
        }
    }

    /// Draws one line of `text`, normalized, from `(x, y)` with the pixel font
    /// alone: characters it cannot draw keep their cells blank. Returns the
    /// pixel width of the cells used.
    pub fn text(&mut self, x: usize, y: usize, text: &str) -> (width: usize)
        requires
            old(self).wf(),
        ensures
            final(self).wf(),
            final(self).height == old(self).height,
            final(self).serial == old(self).serial,
            !line_fits(old(self).height as int, y as int) ==> width == 0 && final(self).pixels@
                == old(self).pixels@,
            line_fits(old(self).height as int, y as int) ==> width == pixel_width_spec(
                line_cells(normalized_spec(text@).len() as int, x as int),
            ) && final(self).pixels@ == draw_text(
                old(self).pixels@,
                old(self).height as int,
                x as int,
                y as int,
                normalized_spec(text@).take(
                    line_cells(normalized_spec(text@).len() as int, x as int),
                ),
            ),
    {
        let blank = |run: &str| -> (r: Result<UpTextMask, String>)
            ensures
                blank_mask(r),
            { Ok(UpTextMask { pixels: Vec::new(), width: 0, height: 0, stride: 0 }) };
        match self.text_shaped(x, y, text, &blank) {
            Ok(width) => width,
            Err(_) => 0,
        }
    }
}

} // verus!

verus! {

/// The texts the overlay shows.
pub struct Content<'a> {
    pub title: &'a str,
    pub info: &'a str,
    pub details: &'a str,
    pub metadata: &'a str,
    pub position: &'a str,
}

/// The images and placement of one overlay frame. Images and geometry cannot
/// be changed or freed while a frame is borrowed.
pub struct Prepared<'a, P> {
    pub text: &'a Image,
    pub title: &'a Image,
    pub parts: &'a [P],
}

impl<'a, P> Prepared<'a, P> {
    /// The frame as handed to the renderer.
    pub fn descriptor(&self) -> (r: UpOverlayFrame<'a, P>)
        ensures
            r.text.pixels@ == self.text.pixels@,
            r.text.width == WIDTH as i32,
            r.text.height == self.text.height as i32,
            r.text.serial == self.text.serial,
            r.title.pixels@ == self.title.pixels@,
            r.title.width == WIDTH as i32,
            r.title.height == self.title.height as i32,
            r.title.serial == self.title.serial,
            r.parts@ == self.parts@,
            r.count == self.parts@.len(),
    {
        let text: &'a Image = self.text;
        let title: &'a Image = self.title;
        UpOverlayFrame {
            text: text.descriptor(),
            title: title.descriptor(),
            parts: self.parts,
            count: self.parts.len(),
        }
    }
}

} // verus!

verus! {

/// The lines of `s` split at each `\n`, where a final `\n` ends the last line
/// rather than starting an empty one (`str::split_terminator`); `current` is
/// the part of a line already read.
pub open spec fn split_lines(current: Seq<char>, s: Seq<char>) -> Seq<Seq<char>>
    decreases s.len(),
{
    if s.len() == 0 {
        if current.len() == 0 {
            Seq::empty()
        } else {
            seq![current]
        }
    } else if s[0] == '\n' {
        seq![current] + split_lines(Seq::empty(), s.drop_first())
    } else {
        split_lines(current.push(s[0]), s.drop_first())
    }
}

/// `line` without one trailing carriage return.
pub open spec fn strip_cr(line: Seq<char>) -> Seq<char> {
    if line.len() > 0 && line.last() == '\r' {
        line.drop_last()
    } else {
        line
    }
}

/// The lines of `s` as `str::lines` gives them.
pub open spec fn text_lines(s: Seq<char>) -> Seq<Seq<char>> {
    split_lines(Seq::empty(), s).map_values(|l: Seq<char>| strip_cr(l))
}

/// Splits `s` at each `\n`, a final `\n` ending the last line.
pub fn split_terminator_lines(s: &str) -> (r: Vec<String>)
    ensures
        r@.map_values(|l: String| l@) == split_lines(Seq::empty(), s@),
{
    let chars = chars_of(s);
    let mut lines: Vec<String> = Vec::new();
    let mut current: Vec<char> = Vec::new();
    let mut i: usize = 0;
    proof {
        assert(s@.skip(0) =~= s@);
        assert(lines@.map_values(|l: String| l@) =~= Seq::<Seq<char>>::empty());
        assert(current@ =~= Seq::<char>::empty());
        assert(Seq::<Seq<char>>::empty() + split_lines(Seq::empty(), s@) =~= split_lines(Seq::empty(), s@));
    }
    while i < chars.len()
        invariant
            chars@ == s@,
            0 <= i <= chars@.len(),
            split_lines(Seq::empty(), s@) == lines@.map_values(|l: String| l@) + split_lines(
                current@,
                s@.skip(i as int),
            ),
        decreases chars@.len() - i,
    {
        proof {
            assert(s@.skip(i as int).drop_first() =~= s@.skip(i + 1));
            assert(s@.skip(i as int)[0] == chars@[i as int]);
        }
        if chars[i] == '\n' {
            let line = string_of(current.as_slice());
            let ghost before = lines@.map_values(|l: String| l@);
            lines.push(line);
            proof {
                assert(lines@.map_values(|l: String| l@) =~= before.push(current@));
                assert(before + (seq![current@] + split_lines(Seq::empty(), s@.skip(i + 1))) =~= before.push(current@) + split_lines(Seq::empty(), s@.skip(i + 1)));
            }
            current = Vec::new();
        } else {
            current.push(chars[i]);
        }
        i = i + 1;
    }
    if current.len() > 0 {
        let line = string_of(current.as_slice());
        let ghost before = lines@.map_values(|l: String| l@);
        lines.push(line);
        proof {
            assert(lines@.map_values(|l: String| l@) =~= before.push(current@));
            assert(s@.skip(i as int) =~= Seq::<char>::empty());
        }
    } else {
        proof {
            assert(s@.skip(i as int) =~= Seq::<char>::empty());
            assert(lines@.map_values(|l: String| l@) + Seq::<Seq<char>>::empty() =~= lines@.map_values(|l: String| l@));
        }
    }
    lines
}

/// The lines of `s` as `str::lines` gives them.
pub fn lines_of(s: &str) -> (r: Vec<String>)
    ensures
        r@.map_values(|l: String| l@) == text_lines(s@),
{
    let parts = split_terminator_lines(s);
    let mut lines: Vec<String> = Vec::new();
    let mut i: usize = 0;
    while i < parts.len()
        invariant
            0 <= i <= parts@.len(),
            parts@.map_values(|l: String| l@) == split_lines(Seq::empty(), s@),
            lines@.map_values(|l: String| l@) =~= split_lines(Seq::empty(), s@).subrange(0, i as int).map_values(|l: Seq<char>| strip_cr(l)),
        decreases parts@.len() - i,
    {
        let chars = chars_of(parts[i].as_str());
        let n = chars.len();
        let line = if n > 0 && chars[n - 1] == '\r' {
            let mut kept: Vec<char> = Vec::new();
            let mut k: usize = 0;
            while k < n - 1
                invariant
                    n == chars@.len(),
                    n > 0,
                    0 <= k <= n - 1,
                    kept@ == chars@.subrange(0, k as int),
                decreases n - 1 - k,
            {
                kept.push(chars[k]);
                k = k + 1;
            }
            proof {
                assert(kept@ =~= chars@.drop_last());
            }
            string_of(kept.as_slice())
        } else {
            string_of(chars.as_slice())
        };
        proof {
            assert(parts@[i as int]@ == split_lines(Seq::empty(), s@)[i as int]);
        }
        let ghost before = lines@.map_values(|l: String| l@);
        lines.push(line);
        proof {
            assert(lines@.map_values(|l: String| l@) =~= before.push(line@));
        }
        i = i + 1;
    }
    proof {
        assert(split_lines(Seq::empty(), s@).subrange(0, parts@.len() as int) =~= split_lines(Seq::empty(), s@));
    }
    lines
}

/// `a` and `b` are the same text.
pub fn same_text(a: &str, b: &str) -> (r: bool)
    ensures
        r == (a@ == b@),
{
    let x = chars_of(a);
    let y = chars_of(b);
    if x.len() != y.len() {
        return false;
    }
    let mut i: usize = 0;
    while i < x.len()
        invariant
            x@ == a@,
            y@ == b@,
            x@.len() == y@.len(),
            0 <= i <= x@.len(),
            forall|j: int| 0 <= j < i ==> x@[j] == y@[j],
        decreases x@.len() - i,
    {
        if x[i] != y[i] {
            return false;
        }
        i = i + 1;
    }
    proof {
        assert(a@ =~= b@);
    }
    true
}

/// The next revision number of an image, wrapping after the last.
pub open spec fn next_serial(serial: u64) -> u64 {
    if serial == u64::MAX { 0 } else { (serial + 1) as u64 }
}

fn bump(serial: u64) -> (r: u64)
    ensures
        r == next_serial(serial),
{
    if serial == u64::MAX { 0 } else { serial + 1 }
}

} // verus!

verus! {

/// Top-bar height reserved on each side of the title, in pixels.
pub const TITLE_RESERVE: i32 = 84;
/// Margin kept on each side of the metadata block, in pixels.
pub const METADATA_RESERVE: i32 = 64;

/// Pixels available in a window `width` wide after `reserve`, at least one.
pub open spec fn available_spec(width: i32, reserve: i32) -> int {
    if width - reserve < 1 { 1 } else { width - reserve }
}

fn available(width: i32, reserve: i32) -> (r: usize)
    requires
        0 < reserve < 1000,
    ensures
        r == available_spec(width, reserve),
{
    if width < 1 + reserve { 1 } else { (width - reserve) as usize }
}

/// Most characters of a line shown in `room` pixels: those fitting, one at
/// least, and never more than the image holds.
pub open spec fn max_cells(room: int) -> int {
    let n = (room + SCALE) / (CELL as int);
    if n < 1 { 1 } else if n > (WIDTH / CELL) as int { (WIDTH / CELL) as int } else { n }
}

/// Cells used by a `len`-character line that may hold `maximum` cells: a
/// line that is too long keeps what fits before up to three dots.
pub open spec fn ellipsized_cells(len: int, maximum: int) -> int {
    let dots = if len > maximum { min_int(maximum, 3) } else { 0 };
    min_int(len, maximum - dots) + dots
}

/// The widest of `widths`, or 0.
pub open spec fn widest(widths: Seq<int>) -> int
    decreases widths.len(),
{
    if widths.len() == 0 {
        0
    } else {
        let rest = widest(widths.drop_last());
        if widths.last() > rest { widths.last() } else { rest }
    }
}

/// The key of the cached title: its text and layout width.
pub open spec fn title_key_view(key: Option<(String, usize)>) -> Option<(Seq<char>, int)> {
    match key {
        Some((t, w)) => Some((t@, w as int)),
        None => None,
    }
}

/// The key of the cached texts: info, details and position.
pub open spec fn text_key_view(key: Option<(String, String, String)>) -> Option<(Seq<char>, Seq<char>, Seq<char>)> {
    match key {
        Some((a, b, c)) => Some((a@, b@, c@)),
        None => None,
    }
}

/// Pixel width of one line of text drawn from the left edge.
pub open spec fn line_width_spec(line: Seq<char>) -> int {
    pixel_width_spec(line_cells(normalized_spec(line).len() as int, 0))
}

/// The details lines kept, at most `MAX_LINES`.
pub open spec fn details_lines(details: Seq<char>) -> Seq<Seq<char>> {
    let lines = split_lines(Seq::empty(), details);
    lines.take(min_int(lines.len() as int, MAX_LINES as int))
}

/// Height of the details block with `n` lines.
pub open spec fn details_height_spec(n: int) -> int {
    if n == 0 { 0 } else { (n - 1) * LINE_ADVANCE + GLYPH_HEIGHT }
}

/// Every character of `s`, in canonical composition, has a pixel glyph, so
/// drawing it needs no shaping.
pub open spec fn drawable(s: Seq<char>) -> bool {
    all_glyphs(normalized_spec(s))
}

/// A prefix of a text drawable with pixel glyphs is drawable too.
pub proof fn lemma_all_glyphs_take(s: Seq<char>, n: int)
    requires
        all_glyphs(s),
        0 <= n <= s.len(),
    ensures
        all_glyphs(s.take(n)),
{
    assert forall|k: int| 0 <= k < n implies #[trigger] glyph_spec(s.take(n)[k]) is Some by {
        assert(s.take(n)[k] == s[k]);
    }
}

/// Dots appended to a `len`-character line that may hold `maximum` cells.
pub open spec fn dots_spec(len: int, maximum: int) -> int {
    if len > maximum { min_int(maximum, 3) } else { 0 }
}

/// `p` with `n` dots drawn in the cells from `first` on, at row `y`.
pub open spec fn draw_dots(p: Seq<u8>, height: int, y: int, first: int, n: int) -> Seq<u8>
    decreases n,
{
    if n <= 0 {
        p
    } else {
        draw_glyph(
            draw_dots(p, height, y, first, n - 1),
            height,
            (first + n - 1) * CELL,
            y,
            (46u8, no_rows(), no_rows()),
        )
    }
}

/// `p` with `s` drawn from the left at row `y` in at most `maximum` cells,
/// with dots when it is too long.
pub open spec fn ellipsized_image(p: Seq<u8>, height: int, y: int, s: Seq<char>, maximum: int) -> Seq<u8> {
    let dots = dots_spec(s.len() as int, maximum);
    let kept = min_int(s.len() as int, maximum - dots);
    draw_dots(draw_text(p, height, 0, y, s.take(kept)), height, y, kept, dots)
}

/// A blank image of `height` rows.
pub open spec fn blank_image(height: int) -> Seq<u8> {
    Seq::new((WIDTH * height) as nat, |i: int| 0u8)
}

/// The title image for `title` laid out in `room` pixels: the line as far as
/// it fits, dots when cut, and a `?` when a non-empty title draws nothing.
pub open spec fn title_image(title: Seq<char>, room: int) -> Seq<u8> {
    let drawn = ellipsized_image(
        blank_image(TITLE_HEIGHT as int),
        TITLE_HEIGHT as int,
        1,
        normalized_spec(title),
        max_cells(room),
    );
    if title.len() > 0 && (forall|i: int| 0 <= i < drawn.len() ==> drawn[i] == 0) {
        draw_glyph(drawn, TITLE_HEIGHT as int, 0, 1, (63u8, no_rows(), no_rows()))
    } else {
        drawn
    }
}

/// The cached overlay images and what the renderer needs to place them.
pub struct Overlays {
    pub title: Image,
    pub text: Image,
    pub title_key: Option<(String, usize)>,
    pub text_key: Option<(String, String, String)>,
    /// The chapter dots in the atlas's first rows are current.
    pub chapters_drawn: bool,
    pub metadata_key: Option<(String, usize)>,
    pub metadata_width: usize,
    pub metadata_height: usize,
    pub title_width: usize,
    pub info_width: usize,
    pub details_width: usize,
    pub details_height: usize,
    pub position_width: usize,
}

impl Overlays {
    /// The title image is one title line high and the atlas is full height.
    pub open spec fn wf(&self) -> bool {
        &&& self.title.wf()
        &&& self.title.height == TITLE_HEIGHT
        &&& self.text.wf()
        &&& self.text.height == HEIGHT
    }

    /// The cached widths are those of the cached keys, and the cached title
    /// image is that of the cached title. Kept by every successful update; a
    /// failed shaping call can leave a key beside half-drawn images.
    pub open spec fn cache_matches(&self) -> bool {
        &&& title_cached(self.title, self.title_key, self.title_width)
        &&& (self.text_key matches Some((i, d, p)) ==> {
            &&& self.info_width == line_width_spec(i@)
            &&& self.position_width == line_width_spec(p@)
            &&& self.details_width == widest(details_widths(d@))
            &&& self.details_height == details_height_spec(details_lines(d@).len() as int)
        })
    }
}

/// `title` and `width` are what the cached title `key` draws: its width, its
/// image where the pixel font draws it, and something visible exactly when
/// the title is not empty.
pub open spec fn title_cached(title: Image, key: Option<(String, usize)>, width: usize) -> bool {
    key matches Some((t, layout)) ==> {
        &&& width == pixel_width_spec(
            ellipsized_cells(normalized_spec(t@).len() as int, max_cells(layout as int)),
        )
        &&& drawable(t@) ==> title.pixels@ == title_image(t@, layout as int)
        &&& (width > 0 <==> t@.len() > 0)
        &&& t@.len() == 0 ==> forall|i: int| 0 <= i < title.pixels@.len() ==> #[trigger] title.pixels@[i] == 0
        &&& t@.len() > 0 ==> exists|i: int| 0 <= i < title.pixels@.len() && #[trigger] title.pixels@[i] != 0
    }
}

impl Default for Overlays {
    /// Blank images and no cached text.
    fn default() -> (r: Self)
        ensures
            r.wf(),
            r.cache_matches(),
            r.title.serial == 0,
            r.text.serial == 0,
            r.title_key is None,
            r.text_key is None,
            r.metadata_key is None,
            !r.chapters_drawn,
            r.title_width == 0,
            r.info_width == 0,
            r.details_width == 0,
            r.details_height == 0,
            r.position_width == 0,
            r.metadata_width == 0,
            r.metadata_height == 0,
    {
        Overlays {
            title: Image::new(TITLE_HEIGHT),
            text: Image::new(HEIGHT),
            title_key: None,
            text_key: None,
            chapters_drawn: false,
            metadata_key: None,
            metadata_width: 0,
            metadata_height: 0,
            title_width: 0,
            info_width: 0,
            details_width: 0,
            details_height: 0,
            position_width: 0,
        }
    }
}

impl Image {
    /// Any pixel is set.
    pub fn any_set(&self) -> (r: bool)
        ensures
            r == exists|i: int| 0 <= i < self.pixels@.len() && self.pixels@[i] != 0,
    {
        let mut i: usize = 0;
        while i < self.pixels.len()
            invariant
                0 <= i <= self.pixels@.len(),
                forall|j: int| 0 <= j < i ==> self.pixels@[j] == 0,
            decreases self.pixels@.len() - i,
        {
            if self.pixels[i] != 0 {
                return true;
            }
            i = i + 1;
        }
        false
    }

    /// Draws `text`, normalized, as one line at `y` in at most `maximum`
    /// cells; a longer text keeps what fits before up to three dots. Returns
    /// the cells used.
    pub fn ellipsized<S: Fn(&str) -> Result<UpTextMask, String>>(
        &mut self,
        y: usize,
        text: &str,
        maximum: usize,
        shape: &S,
    ) -> (r: Result<usize, String>)
        requires
            old(self).wf(),
            line_fits(old(self).height as int, y as int),
            1 <= maximum <= WIDTH / CELL,
            forall|s: &str| #[trigger] shape.requires((s,)),
        ensures
            text@.len() > 0 <==> normalized_spec(text@).len() > 0,
            r matches Ok(cells) ==> (cells > 0 <==> text@.len() > 0),
            text@.len() == 0 ==> r is Ok && final(self).pixels@ == old(self).pixels@,
            r matches Err(e) ==> shaping_failed(shape, e),
            shaping_succeeds(shape) ==> r is Ok,
            final(self).wf(),
            final(self).height == old(self).height,
            final(self).serial == old(self).serial,
            r matches Ok(cells) ==> cells == ellipsized_cells(normalized_spec(text@).len() as int, maximum as int),
            drawable(text@) ==> r is Ok && final(self).pixels@ == ellipsized_image(
                old(self).pixels@,
                old(self).height as int,
                y as int,
                normalized_spec(text@),
                maximum as int,
            ),
            r is Ok ==> ellipsized_by(
                shape,
                old(self).pixels@,
                final(self).pixels@,
                old(self).height as int,
                y as int,
                text@,
                maximum as int,
            ),
    {
        let line = normalized(text);
        let count = chars_of(line.as_str()).len();
        let dots = if count > maximum {
            if maximum < 3 { maximum } else { 3 }
        } else {
            0
        };
        let ghost ok = drawable(text@);
        let ghost norm = normalized_spec(text@);
        let ghost kept = min_int(count as int, (maximum - dots) as int);
        proof {
            assert(text_cells(count as int, 0, (maximum - dots) as int) == kept);
            if ok {
                lemma_all_glyphs_take(norm, kept);
            }
        }
        let mut cells = match self.rasterize(0, y, line.as_str(), maximum - dots, shape) {
            Ok(c) => c,
            Err(e) => return Err(e),
        };
        let ghost drawn = self.pixels@;
        let mut k: usize = 0;
        while k < dots
            invariant
                self.wf(),
                self.height == old(self).height,
                self.serial == old(self).serial,
                k <= dots,
                cells == kept + k,
                kept == min_int(count as int, (maximum - dots) as int),
                dots <= 3,
                dots <= maximum,
                maximum <= WIDTH / CELL,
                self.pixels@ == draw_dots(drawn, self.height as int, y as int, kept, k as int),
            decreases dots - k,
        {
            self.glyph(cells * CELL, y, 46);
            cells = cells + 1;
            k = k + 1;
        }
        proof {
            assert(dots == dots_spec(norm.len() as int, maximum as int));
            assert(rasterized(shape, old(self).pixels@, drawn, old(self).height as int, 0, y as int, norm.take(kept)));
        }
        Ok(cells)
    }
}

/// The title image made from `q`, the kept part of the title drawn on a blank
/// image: dots appended when the title is cut, and a `?` when a non-empty
/// title draws nothing.
pub open spec fn title_from(q: Seq<u8>, title: Seq<char>, room: int) -> Seq<u8> {
    let len = normalized_spec(title).len() as int;
    let maximum = max_cells(room);
    let dots = dots_spec(len, maximum);
    let drawn = draw_dots(q, TITLE_HEIGHT as int, 1, min_int(len, maximum - dots), dots);
    if title.len() > 0 && (forall|i: int| 0 <= i < drawn.len() ==> drawn[i] == 0) {
        draw_glyph(drawn, TITLE_HEIGHT as int, 0, 1, (63u8, no_rows(), no_rows()))
    } else {
        drawn
    }
}

/// `q` is the kept part of `title`, laid out in `room` pixels, drawn on a
/// blank title image with `shape` for the characters outside the pixel font.
pub open spec fn title_drawn<S: Fn(&str) -> Result<UpTextMask, String>>(shape: &S, q: Seq<u8>, title: Seq<char>, room: int) -> bool {
    let norm = normalized_spec(title);
    let maximum = max_cells(room);
    let kept = min_int(norm.len() as int, maximum - dots_spec(norm.len() as int, maximum));
    rasterized(shape, blank_image(TITLE_HEIGHT as int), q, TITLE_HEIGHT as int, 0, 1, norm.take(kept))
}

/// The `?` drawn for an invisible title sets a pixel.
pub proof fn lemma_question_mark_visible(p: Seq<u8>)
    requires
        p.len() == WIDTH * TITLE_HEIGHT,
    ensures
        draw_glyph(p, TITLE_HEIGHT as int, 0, 1, (63u8, no_rows(), no_rows()))[8 * WIDTH + 2] == 255,
{
    let i = 8 * WIDTH + 2;
    lemma_cell(8, 2);
    let rows = rows_spec(63u8);
    assert(rows[0] == 0b01110u8);
    assert((0b01110u8 & (1u8 << 3u8)) != 0) by (bit_vector);
    assert(lit(rows[0], 1));
    assert(painted(0, 1 + ACCENT_PAD, rows, i as int));
    let body = paint(p, 0, 1 + ACCENT_PAD, rows);
    assert(body[i as int] == 255);
    assert(!painted(0, 1, no_rows(), i as int));
    let top = paint(body, 0, 1, no_rows());
    assert(top[i as int] == 255);
    assert(!painted(0, 1 + ACCENT_PAD + BASE_HEIGHT + 1, no_rows(), i as int));
}

impl Overlays {
    /// Redraws the title when its text or the window width changed: as much
    /// as fits beside the reserved corners, with dots when cut, and a `?` when
    /// a non-empty title draws nothing.
    fn update_title<S: Fn(&str) -> Result<UpTextMask, String>>(
        &mut self,
        title: &str,
        width: i32,
        shape: &S,
    ) -> (r: Result<(), String>)
        requires
            old(self).wf(),
            forall|s: &str| #[trigger] shape.requires((s,)),
        ensures
            old(self).cache_matches() && r is Ok ==> final(self).cache_matches(),
            r is Ok && title_key_view(old(self).title_key) != Some((title@, available_spec(width, TITLE_RESERVE)))
                ==> exists|q: Seq<u8>| #[trigger] title_drawn(shape, q, title@, available_spec(width, TITLE_RESERVE))
                && final(self).title.pixels@ == title_from(q, title@, available_spec(width, TITLE_RESERVE)),
            r is Ok && title_key_view(old(self).title_key) != Some((title@, available_spec(width, TITLE_RESERVE)))
                ==> (final(self).title_width > 0 <==> title@.len() > 0),
            r is Ok && title_key_view(old(self).title_key) != Some((title@, available_spec(width, TITLE_RESERVE)))
                && title@.len() == 0 ==> forall|i: int|
                0 <= i < final(self).title.pixels@.len() ==> #[trigger] final(self).title.pixels@[i] == 0,
            r is Ok && title_key_view(old(self).title_key) != Some((title@, available_spec(width, TITLE_RESERVE)))
                && title@.len() > 0 ==> exists|i: int|
                0 <= i < final(self).title.pixels@.len() && #[trigger] final(self).title.pixels@[i] != 0,
            r matches Err(e) ==> shaping_failed(shape, e),
            shaping_succeeds(shape) ==> r is Ok,
            final(self).wf(),
            final(self).text == old(self).text,
            final(self).text_key == old(self).text_key,
            final(self).metadata_key == old(self).metadata_key,
            final(self).chapters_drawn == old(self).chapters_drawn,
            final(self).info_width == old(self).info_width,
            final(self).position_width == old(self).position_width,
            final(self).details_width == old(self).details_width,
            final(self).details_height == old(self).details_height,
            final(self).metadata_width == old(self).metadata_width,
            final(self).metadata_height == old(self).metadata_height,
            title_key_view(old(self).title_key) == Some((title@, available_spec(width, TITLE_RESERVE)))
                ==> r is Ok && final(self).title == old(self).title && final(self).title_width
                == old(self).title_width && final(self).title_key == old(self).title_key,
            r is Ok && title_key_view(old(self).title_key) != Some((title@, available_spec(width, TITLE_RESERVE)))
                ==> {
                &&& title_key_view(final(self).title_key) == Some((title@, available_spec(width, TITLE_RESERVE)))
                &&& final(self).title.serial == next_serial(old(self).title.serial)
                &&& final(self).title_width == pixel_width_spec(
                    ellipsized_cells(
                        normalized_spec(title@).len() as int,
                        max_cells(available_spec(width, TITLE_RESERVE)),
                    ),
                )
            },
            drawable(title@) ==> r is Ok,
            drawable(title@) && title_key_view(old(self).title_key) != Some((title@, available_spec(width, TITLE_RESERVE)))
                ==> final(self).title.pixels@ == title_image(title@, available_spec(width, TITLE_RESERVE)),
    {
        let layout = available(width, TITLE_RESERVE);
        let unchanged = match &self.title_key {
            Some((text, w)) => *w == layout && same_text(text.as_str(), title),
            None => false,
        };
        if unchanged {
            return Ok(());
        }
        self.title.clear();
        proof {
            assert(self.title.pixels@ =~= blank_image(TITLE_HEIGHT as int));
        }
        let n = (layout + SCALE) / CELL;
        let maximum = if n < 1 { 1 } else if n > WIDTH / CELL { WIDTH / CELL } else { n };
        let cells = match self.title.ellipsized(1, title, maximum, shape) {
            Ok(c) => c,
            Err(e) => return Err(e),
        };
        let ghost drawn = self.title.pixels@;
        let ghost q = choose|q: Seq<u8>|
            #![trigger draw_dots(q, TITLE_HEIGHT as int, 1,
                min_int(normalized_spec(title@).len() as int, maximum - dots_spec(normalized_spec(title@).len() as int, maximum as int)),
                dots_spec(normalized_spec(title@).len() as int, maximum as int))]
            drawn == draw_dots(
                q,
                TITLE_HEIGHT as int,
                1,
                min_int(normalized_spec(title@).len() as int, maximum - dots_spec(normalized_spec(title@).len() as int, maximum as int)),
                dots_spec(normalized_spec(title@).len() as int, maximum as int),
            ) && rasterized(
                shape,
                blank_image(TITLE_HEIGHT as int),
                q,
                TITLE_HEIGHT as int,
                0,
                1,
                normalized_spec(title@).take(
                    min_int(normalized_spec(title@).len() as int, maximum - dots_spec(normalized_spec(title@).len() as int, maximum as int)),
                ),
            );
        let shown = self.title.any_set();
        if !title.is_empty() && !shown {
            let ghost before = self.title.pixels@;
            self.title.glyph(0, 1, 63);
            proof {
                lemma_question_mark_visible(before);
                assert(self.title.pixels@[8 * WIDTH + 2] != 0);
            }
        }
        proof {
            assert(cells > 0 ==> pixel_width_spec(cells as int) > 0);
            if title@.len() > 0 {
                if shown {
                    let k = choose|k: int| 0 <= k < drawn.len() && drawn[k] != 0;
                    assert(self.title.pixels@[k] != 0);
                } else {
                    assert(self.title.pixels@[8 * WIDTH + 2] != 0);
                }
            }
        }
        self.title_width = pixel_width(cells);
        self.title.serial = bump(self.title.serial);
        self.title_key = Some((title.to_owned(), layout));
        proof {
            assert(maximum == max_cells(layout as int));
            assert(layout == available_spec(width, TITLE_RESERVE));
            assert(drawn == draw_dots(
                q,
                TITLE_HEIGHT as int,
                1,
                min_int(normalized_spec(title@).len() as int, maximum - dots_spec(normalized_spec(title@).len() as int, maximum as int)),
                dots_spec(normalized_spec(title@).len() as int, maximum as int),
            ));
            assert(title_drawn(shape, q, title@, layout as int));
            if title@.len() > 0 && !shown {
                assert(forall|i: int| 0 <= i < drawn.len() ==> drawn[i] == 0);
            }
            assert(self.title.pixels@ == title_from(q, title@, layout as int));
            assert(self.title_width > 0 <==> title@.len() > 0);
            if title@.len() == 0 {
                assert(self.title.pixels@ == drawn);
                assert forall|i: int| 0 <= i < self.title.pixels@.len() implies #[trigger] self.title.pixels@[i] == 0 by {
                    assert(drawn[i] == 0);
                }
            } else {
                if shown {
                    let k = choose|k: int| 0 <= k < drawn.len() && drawn[k] != 0;
                    assert(self.title.pixels@[k] != 0);
                } else {
                    assert(self.title.pixels@[8 * WIDTH + 2] != 0);
                }
                assert(exists|i: int| 0 <= i < self.title.pixels@.len() && #[trigger] self.title.pixels@[i] != 0);
            }
        }
        Ok(())
    }
}

} // verus!

verus! {

/// `p` with the first `width` columns of the `GLYPH_HEIGHT` rows of `line`
/// copied to rows `y..` of the image.
pub open spec fn pasted(p: Seq<u8>, line: Seq<u8>, y: int, width: int) -> Seq<u8> {
    Seq::new(
        p.len(),
        |i: int|
            {
                let r = i / (WIDTH as int);
                let c = i % (WIDTH as int);
                if y <= r < y + GLYPH_HEIGHT && c < width {
                    line[(r - y) * WIDTH + c]
                } else {
                    p[i]
                }
            },
    )
}

impl Image {
    /// Copies the first `width` columns of a one-line image to rows `y..`.
    pub fn paste_line(&mut self, line: &Image, y: usize, width: usize)
        requires
            old(self).wf(),
            line.wf(),
            line.height == GLYPH_HEIGHT,
            y + GLYPH_HEIGHT <= old(self).height,
            width <= WIDTH,
        ensures
            final(self).wf(),
            final(self).height == old(self).height,
            final(self).serial == old(self).serial,
            final(self).pixels@ == pasted(old(self).pixels@, line.pixels@, y as int, width as int),
    {
        let ghost start = self.pixels@;
        let mut row: usize = 0;
        while row < GLYPH_HEIGHT
            invariant
                self.wf(),
                line.wf(),
                line.height == GLYPH_HEIGHT,
                self.height == old(self).height,
                self.serial == old(self).serial,
                start == old(self).pixels@,
                y + GLYPH_HEIGHT <= self.height,
                width <= WIDTH,
                row <= GLYPH_HEIGHT,
                self.pixels@ == Seq::new(
                    start.len(),
                    |i: int|
                        {
                            let r = i / (WIDTH as int);
                            let c = i % (WIDTH as int);
                            if y <= r < y + row && c < width {
                                line.pixels@[(r - y) * WIDTH + c]
                            } else {
                                start[i]
                            }
                        },
                ),
            decreases GLYPH_HEIGHT - row,
        {
            let mut column: usize = 0;
            while column < width
                invariant
                    self.wf(),
                    line.wf(),
                    line.height == GLYPH_HEIGHT,
                    self.height == old(self).height,
                    self.serial == old(self).serial,
                    start == old(self).pixels@,
                    y + GLYPH_HEIGHT <= self.height,
                    width <= WIDTH,
                    row < GLYPH_HEIGHT,
                    column <= width,
                    self.pixels@ == Seq::new(
                        start.len(),
                        |i: int|
                            {
                                let r = i / (WIDTH as int);
                                let c = i % (WIDTH as int);
                                if (y <= r < y + row && c < width) || (r == y + row && c < column) {
                                    line.pixels@[(r - y) * WIDTH + c]
                                } else {
                                    start[i]
                                }
                            },
                    ),
                decreases width - column,
            {
                assert((y + row) * WIDTH + column < WIDTH * self.height);
                assert(row * WIDTH + column < WIDTH * line.height);
                let index = (y + row) * WIDTH + column;
                let source = row * WIDTH + column;
                proof {
                    lemma_cell((y + row) as int, column as int);
                }
                let value = line.pixels[source];
                let ghost before = self.pixels@;
                self.pixels[index] = value;
                proof {
                    assert forall|i: int| 0 <= i < start.len() implies #[trigger] self.pixels@[i] == ({
                        let r = i / (WIDTH as int);
                        let c = i % (WIDTH as int);
                        if (y <= r < y + row && c < width) || (r == y + row && c < column + 1) {
                            line.pixels@[(r - y) * WIDTH + c]
                        } else {
                            start[i]
                        }
                    }) by {
                        if i != index {
                            assert(i == (i / (WIDTH as int)) * WIDTH + i % (WIDTH as int));
                            assert(self.pixels@[i] == before[i]);
                        }
                    }
                    assert(self.pixels@ =~= Seq::new(
                        start.len(),
                        |i: int|
                            {
                                let r = i / (WIDTH as int);
                                let c = i % (WIDTH as int);
                                if (y <= r < y + row && c < width) || (r == y + row && c < column + 1) {
                                    line.pixels@[(r - y) * WIDTH + c]
                                } else {
                                    start[i]
                                }
                            },
                    ));
                }
                column = column + 1;
            }
            proof {
                assert(self.pixels@ =~= Seq::new(
                    start.len(),
                    |i: int|
                        {
                            let r = i / (WIDTH as int);
                            let c = i % (WIDTH as int);
                            if y <= r < y + row + 1 && c < width {
                                line.pixels@[(r - y) * WIDTH + c]
                            } else {
                                start[i]
                            }
                        },
                ));
            }
            row = row + 1;
        }
        proof {
            assert(self.pixels@ =~= pasted(start, line.pixels@, y as int, width as int));
        }
    }
}

} // verus!

verus! {

/// Pixel widths of the details lines.
pub open spec fn details_widths(details: Seq<char>) -> Seq<int> {
    details_lines(details).map_values(|l: Seq<char>| line_width_spec(l))
}

/// The info, details and position texts need no shaping.
pub open spec fn texts_drawable(info: Seq<char>, details: Seq<char>, position: Seq<char>) -> bool {
    &&& drawable(info)
    &&& drawable(position)
    &&& forall|k: int| 0 <= k < details_lines(details).len() ==> #[trigger] drawable(details_lines(details)[k])
}

/// The metadata lines need no shaping.
pub open spec fn metadata_drawable(label: Seq<char>) -> bool {
    forall|k: int| 0 <= k < metadata_lines(label).len() ==> #[trigger] drawable(metadata_lines(label)[k])
}

/// The characters of `text`, in canonical composition, that fit one line
/// drawn from the left edge.
pub open spec fn line_of(text: Seq<char>) -> Seq<char> {
    normalized_spec(text).take(line_cells(normalized_spec(text).len() as int, 0))
}

/// `img` is a blank one-line image with `line` drawn from its top left
/// corner, `shape` shaping the characters outside the pixel font.
pub open spec fn line_image_by<S: Fn(&str) -> Result<UpTextMask, String>>(shape: &S, img: Seq<u8>, line: Seq<char>) -> bool {
    rasterized(shape, blank_image(GLYPH_HEIGHT as int), img, GLYPH_HEIGHT as int, 0, 0, line_of(line))
}

/// `p` with the line images `imgs` pasted one line advance apart from
/// `DETAILS_Y`, line `k` `widths[k]` pixels wide.
pub open spec fn details_pasted(p: Seq<u8>, imgs: Seq<Seq<u8>>, widths: Seq<int>) -> Seq<u8>
    decreases imgs.len(),
{
    if imgs.len() == 0 {
        p
    } else {
        pasted(
            details_pasted(p, imgs.drop_last(), widths),
            imgs.last(),
            DETAILS_Y + (imgs.len() - 1) * LINE_ADVANCE,
            widths[imgs.len() - 1],
        )
    }
}

/// `p` is the text atlas for `info`, `details` and `position`: on a blank
/// atlas, the info line at `INFO_Y`, the position line at `POSITION_Y`, the
/// close glyph `X` at (`CLOSE_X`, `CLOSE_Y`), then each details line drawn on
/// its own blank line image and pasted at `DETAILS_Y` plus its line advance,
/// `shape` shaping the characters outside the pixel font.
pub open spec fn atlas_drawn<S: Fn(&str) -> Result<UpTextMask, String>>(
    shape: &S,
    info: Seq<char>,
    details: Seq<char>,
    position: Seq<char>,
    p: Seq<u8>,
) -> bool {
    exists|a: Seq<u8>, b: Seq<u8>, imgs: Seq<Seq<u8>>|
        #![trigger rasterized(shape, blank_image(HEIGHT as int), a, HEIGHT as int, 0, INFO_Y as int, line_of(info)),
            details_pasted(draw_glyph(b, HEIGHT as int, CLOSE_X as int, CLOSE_Y as int, (88u8, no_rows(), no_rows())), imgs, details_widths(details))]
        {
            &&& rasterized(shape, blank_image(HEIGHT as int), a, HEIGHT as int, 0, INFO_Y as int, line_of(info))
            &&& rasterized(shape, a, b, HEIGHT as int, 0, POSITION_Y as int, line_of(position))
            &&& imgs.len() == details_lines(details).len()
            &&& forall|k: int| 0 <= k < imgs.len() ==> #[trigger] line_image_by(shape, imgs[k], details_lines(details)[k])
            &&& p == details_pasted(
                draw_glyph(b, HEIGHT as int, CLOSE_X as int, CLOSE_Y as int, (88u8, no_rows(), no_rows())),
                imgs,
                details_widths(details),
            )
        }
}

/// Text the pixel font draws needs no shaping: its drawing is `draw_text`.
pub proof fn lemma_rasterized_exact<S: Fn(&str) -> Result<UpTextMask, String>>(
    shape: &S,
    start: Seq<u8>,
    p: Seq<u8>,
    height: int,
    x: int,
    y: int,
    s: Seq<char>,
)
    requires
        all_glyphs(s),
        rasterized(shape, start, p, height, x, y, s),
    ensures
        p == draw_text(start, height, x, y, s),
{
    lemma_draw_text_len(start, height, x, y, s);
    assert forall|i: int| 0 <= i < p.len() implies p[i] == draw_text(start, height, x, y, s)[i] by {
        if in_runs(s, s.len() as int, x, y, i) {
            let (a, b) = choose|a: int, b: int| is_run(s, a, b) && b <= s.len() && #[trigger] run_box(i, x, y, a, b);
            assert(glyph_spec(s[a]) is Some);
        }
    }
    assert(p =~= draw_text(start, height, x, y, s));
}

/// The text atlas for pixel-font texts.
pub open spec fn atlas_image(info: Seq<char>, details: Seq<char>, position: Seq<char>) -> Seq<u8> {
    let a = draw_text(blank_image(HEIGHT as int), HEIGHT as int, 0, INFO_Y as int, line_of(info));
    let b = draw_text(a, HEIGHT as int, 0, POSITION_Y as int, line_of(position));
    let lines = details_lines(details);
    details_pasted(
        draw_glyph(b, HEIGHT as int, CLOSE_X as int, CLOSE_Y as int, (88u8, no_rows(), no_rows())),
        Seq::new(
            lines.len(),
            |k: int| draw_text(blank_image(GLYPH_HEIGHT as int), GLYPH_HEIGHT as int, 0, 0, line_of(lines[k])),
        ),
        details_widths(details),
    )
}

/// When every text is drawn by the pixel font, the atlas is exactly
/// `atlas_image`.
pub proof fn lemma_atlas_exact<S: Fn(&str) -> Result<UpTextMask, String>>(
    shape: &S,
    info: Seq<char>,
    details: Seq<char>,
    position: Seq<char>,
    p: Seq<u8>,
)
    requires
        texts_drawable(info, details, position),
        atlas_drawn(shape, info, details, position, p),
    ensures
        p == atlas_image(info, details, position),
{
    let (a, b, imgs) = choose|a: Seq<u8>, b: Seq<u8>, imgs: Seq<Seq<u8>>|
        {
            &&& rasterized(shape, blank_image(HEIGHT as int), a, HEIGHT as int, 0, INFO_Y as int, line_of(info))
            &&& rasterized(shape, a, b, HEIGHT as int, 0, POSITION_Y as int, line_of(position))
            &&& imgs.len() == details_lines(details).len()
            &&& forall|k: int| 0 <= k < imgs.len() ==> #[trigger] line_image_by(shape, imgs[k], details_lines(details)[k])
            &&& p == details_pasted(
                draw_glyph(b, HEIGHT as int, CLOSE_X as int, CLOSE_Y as int, (88u8, no_rows(), no_rows())),
                imgs,
                details_widths(details),
            )
        };
    let ni = normalized_spec(info);
    lemma_all_glyphs_take(ni, line_cells(ni.len() as int, 0));
    lemma_rasterized_exact(shape, blank_image(HEIGHT as int), a, HEIGHT as int, 0, INFO_Y as int, line_of(info));
    let np = normalized_spec(position);
    lemma_all_glyphs_take(np, line_cells(np.len() as int, 0));
    lemma_rasterized_exact(shape, a, b, HEIGHT as int, 0, POSITION_Y as int, line_of(position));
    let lines = details_lines(details);
    let exact = Seq::new(
        lines.len(),
        |k: int| draw_text(blank_image(GLYPH_HEIGHT as int), GLYPH_HEIGHT as int, 0, 0, line_of(lines[k])),
    );
    assert forall|k: int| 0 <= k < imgs.len() implies imgs[k] == exact[k] by {
        assert(line_image_by(shape, imgs[k], lines[k]));
        assert(drawable(lines[k]));
        let nl = normalized_spec(lines[k]);
        lemma_all_glyphs_take(nl, line_cells(nl.len() as int, 0));
        lemma_rasterized_exact(shape, blank_image(GLYPH_HEIGHT as int), imgs[k], GLYPH_HEIGHT as int, 0, 0, line_of(lines[k]));
    }
    assert(imgs =~= exact);
}

impl Overlays {
    /// Redraws the atlas when the info, details or position text changed:
    /// the info and position lines, the close button, and up to `MAX_LINES`
    /// details lines one advance apart. The chapter dots and metadata are
    /// cleared with it and must be drawn again.
    fn update_text<S: Fn(&str) -> Result<UpTextMask, String>>(
        &mut self,
        info: &str,
        details: &str,
        position: &str,
        shape: &S,
    ) -> (r: Result<(), String>)
        requires
            old(self).wf(),
            forall|s: &str| #[trigger] shape.requires((s,)),
        ensures
            old(self).cache_matches() && r is Ok ==> final(self).cache_matches(),
            r matches Err(e) ==> shaping_failed(shape, e),
            shaping_succeeds(shape) ==> r is Ok,
            final(self).wf(),
            final(self).title == old(self).title,
            final(self).title_key == old(self).title_key,
            final(self).title_width == old(self).title_width,
            text_key_view(old(self).text_key) == Some((info@, details@, position@)) ==> r is Ok
                && final(self).text == old(self).text && final(self).text_key == old(self).text_key
                && final(self).info_width == old(self).info_width && final(self).position_width
                == old(self).position_width && final(self).details_width == old(self).details_width
                && final(self).details_height == old(self).details_height
                && final(self).chapters_drawn == old(self).chapters_drawn
                && final(self).metadata_key == old(self).metadata_key,
            r is Ok && text_key_view(old(self).text_key) != Some((info@, details@, position@)) ==> {
                &&& text_key_view(final(self).text_key) == Some((info@, details@, position@))
                &&& final(self).text.serial == next_serial(old(self).text.serial)
                &&& final(self).info_width == line_width_spec(info@)
                &&& final(self).position_width == line_width_spec(position@)
                &&& final(self).details_width == widest(details_widths(details@))
                &&& final(self).details_height == details_height_spec(details_lines(details@).len() as int)
                &&& !final(self).chapters_drawn
                &&& final(self).metadata_key is None
            },
            texts_drawable(info@, details@, position@) ==> r is Ok,
            r is Ok && text_key_view(old(self).text_key) != Some((info@, details@, position@)) ==> atlas_drawn(
                shape,
                info@,
                details@,
                position@,
                final(self).text.pixels@,
            ),
    {
        let ghost ok = texts_drawable(info@, details@, position@);
        let unchanged = match &self.text_key {
            Some((a, b, c)) => same_text(a.as_str(), info) && same_text(b.as_str(), details)
                && same_text(c.as_str(), position),
            None => false,
        };
        if unchanged {
            return Ok(());
        }
        self.text.clear();
        proof {
            assert(self.text.pixels@ =~= blank_image(HEIGHT as int));
        }
        self.chapters_drawn = false;
        self.metadata_key = None;
        proof {
            if ok {
                lemma_all_glyphs_take(normalized_spec(info@), line_cells(normalized_spec(info@).len() as int, 0));
                lemma_all_glyphs_take(normalized_spec(position@), line_cells(normalized_spec(position@).len() as int, 0));
            }
        }
        self.info_width = match self.text.text_shaped(0, INFO_Y, info, shape) {
            Ok(w) => w,
            Err(e) => return Err(e),
        };
        let ghost after_info = self.text.pixels@;
        self.position_width = match self.text.text_shaped(0, POSITION_Y, position, shape) {
            Ok(w) => w,
            Err(e) => return Err(e),
        };
        let ghost after_position = self.text.pixels@;
        self.text.glyph(CLOSE_X, CLOSE_Y, 88);
        let ghost with_close = self.text.pixels@;
        let ghost mut imgs: Seq<Seq<u8>> = Seq::empty();
        self.details_width = 0;
        self.details_height = 0;
        let mut line_image = Image::new(GLYPH_HEIGHT);
        let lines = split_terminator_lines(details);
        let count = if lines.len() < MAX_LINES { lines.len() } else { MAX_LINES };
        let ghost all = split_lines(Seq::empty(), details@);
        let ghost kept = details_lines(details@);
        proof {
            assert(kept.len() == count);
        }
        let mut line: usize = 0;
        while line < count
            invariant
                self.wf(),
                line_image.wf(),
                line_image.height == GLYPH_HEIGHT,
                self.title == old(self).title,
                self.title_key == old(self).title_key,
                self.title_width == old(self).title_width,
                text_key_view(old(self).text_key) != Some((info@, details@, position@)),
                self.text.serial == old(self).text.serial,
                !self.chapters_drawn,
                self.metadata_key is None,
                self.info_width == line_width_spec(info@),
                self.position_width == line_width_spec(position@),
                lines@.map_values(|l: String| l@) == all,
                all == split_lines(Seq::empty(), details@),
                kept == details_lines(details@),
                kept.len() == count,
                count <= MAX_LINES,
                count <= lines@.len(),
                line <= count,
                forall|s: &str| #[trigger] shape.requires((s,)),
                self.details_width == widest(details_widths(details@).take(line as int)),
                self.details_height == details_height_spec(line as int),
                ok == texts_drawable(info@, details@, position@),
                imgs.len() == line,
                forall|k: int| 0 <= k < line ==> #[trigger] line_image_by(shape, imgs[k], details_lines(details@)[k]),
                self.text.pixels@ == details_pasted(with_close, imgs, details_widths(details@)),
                details_widths(details@).len() == count,
            decreases count - line,
        {
            proof {
                if ok {
                    assert(drawable(details_lines(details@)[line as int]));
                    let l = normalized_spec(kept[line as int]);
                    lemma_all_glyphs_take(l, line_cells(l.len() as int, 0));
                }
            }
            line_image.clear();
            proof {
                assert(line_image.pixels@ =~= blank_image(GLYPH_HEIGHT as int));
            }
            let line_width = match line_image.text_shaped(0, 0, lines[line].as_str(), shape) {
                Ok(w) => w,
                Err(e) => return Err(e),
            };
            proof {
                lemma_line_width_bounded(normalized_spec(lines@[line as int]@).len() as int, 0);
            }
            proof {
                assert(lines@[line as int]@ == kept[line as int]);
                assert(details_widths(details@).take(line + 1).drop_last() =~= details_widths(details@).take(line as int));
                assert(details_widths(details@).take(line + 1).last() == line_width_spec(kept[line as int]));
            }
            if line_width > self.details_width {
                self.details_width = line_width;
            }
            let origin = line * LINE_ADVANCE;
            let ghost before_paste = self.text.pixels@;
            self.text.paste_line(&line_image, DETAILS_Y + origin, line_width);
            proof {
                let grown = imgs.push(line_image.pixels@);
                assert(grown.drop_last() =~= imgs);
                assert(details_widths(details@)[line as int] == line_width);
                assert(self.text.pixels@ == details_pasted(with_close, grown, details_widths(details@)));
                assert forall|k: int| 0 <= k < line + 1 implies #[trigger] line_image_by(shape, grown[k], details_lines(details@)[k]) by {
                    if k < line {
                        assert(grown[k] == imgs[k]);
                    } else {
                        assert(grown[k] == line_image.pixels@);
                        assert(lines@[line as int]@ == details_lines(details@)[k]);
                    }
                }
                imgs = grown;
            }
            self.details_height = origin + GLYPH_HEIGHT;
            line = line + 1;
        }
        proof {
            assert(details_widths(details@).take(count as int) =~= details_widths(details@));
            assert(atlas_drawn(shape, info@, details@, position@, self.text.pixels@)) by {
                assert(rasterized(shape, blank_image(HEIGHT as int), after_info, HEIGHT as int, 0, INFO_Y as int, line_of(info@)));
                assert(rasterized(shape, after_info, after_position, HEIGHT as int, 0, POSITION_Y as int, line_of(position@)));
                assert(with_close == draw_glyph(after_position, HEIGHT as int, CLOSE_X as int, CLOSE_Y as int, (88u8, no_rows(), no_rows())));
            }
        }
        self.text.serial = bump(self.text.serial);
        self.text_key = Some((info.to_owned(), details.to_owned(), position.to_owned()));
        Ok(())
    }
}

} // verus!

verus! {

/// `p` with the first `width` pixels of row `y` moved `offset` pixels to the
/// right and the pixels left of them cleared.
pub open spec fn shifted(p: Seq<u8>, y: int, width: int, offset: int) -> Seq<u8> {
    Seq::new(
        p.len(),
        |i: int|
            {
                let r = i / (WIDTH as int);
                let c = i % (WIDTH as int);
                if r == y && c < offset {
                    0u8
                } else if r == y && c < offset + width {
                    p[y * WIDTH + c - offset]
                } else {
                    p[i]
                }
            },
    )
}

/// The metadata lines kept, at most three.
pub open spec fn metadata_lines(label: Seq<char>) -> Seq<Seq<char>> {
    let lines = text_lines(label);
    lines.take(min_int(lines.len() as int, 3))
}

/// Pixel widths of the metadata lines in `room` pixels.
pub open spec fn metadata_widths(label: Seq<char>, room: int) -> Seq<int> {
    metadata_lines(label).map_values(
        |l: Seq<char>| pixel_width_spec(ellipsized_cells(normalized_spec(l).len() as int, max_cells(room))),
    )
}

/// The metadata key: the label and the room it was laid out in.
pub open spec fn metadata_key_view(key: Option<(String, usize)>) -> Option<(Seq<char>, int)> {
    match key {
        Some((t, w)) => Some((t@, w as int)),
        None => None,
    }
}

impl Image {
    /// Moves the first `width` pixels of row `y` right by `offset` and clears
    /// the pixels before them.
    pub fn shift_right(&mut self, y: usize, width: usize, offset: usize)
        requires
            old(self).wf(),
            y < old(self).height,
            width + offset <= WIDTH,
        ensures
            final(self).wf(),
            final(self).height == old(self).height,
            final(self).serial == old(self).serial,
            final(self).pixels@ == shifted(old(self).pixels@, y as int, width as int, offset as int),
    {
        let ghost start = self.pixels@;
        let base = y * WIDTH;
        proof {
            assert(base + WIDTH <= WIDTH * self.height) by (nonlinear_arith)
                requires
                    base == y * WIDTH,
                    y < self.height,
            ;
        }
        let mut k: usize = width;
        while k > 0
            invariant
                self.wf(),
                self.height == old(self).height,
                self.serial == old(self).serial,
                start == old(self).pixels@,
                base == y * WIDTH,
                base + WIDTH <= self.pixels@.len(),
                width + offset <= WIDTH,
                k <= width,
                self.pixels@.len() == start.len(),
                forall|i: int|
                    0 <= i < start.len() ==> #[trigger] self.pixels@[i] == if base + offset + k <= i < base
                        + offset + width {
                        start[i - offset]
                    } else {
                        start[i]
                    },
            decreases k,
        {
            let value = self.pixels[base + k - 1];
            self.pixels[base + offset + k - 1] = value;
            k = k - 1;
        }
        let mut c: usize = 0;
        while c < offset
            invariant
                self.wf(),
                self.height == old(self).height,
                self.serial == old(self).serial,
                start == old(self).pixels@,
                base == y * WIDTH,
                base + WIDTH <= self.pixels@.len(),
                width + offset <= WIDTH,
                c <= offset,
                self.pixels@.len() == start.len(),
                forall|i: int|
                    0 <= i < start.len() ==> #[trigger] self.pixels@[i] == if base <= i < base + c {
                        0u8
                    } else if base + offset <= i < base + offset + width {
                        start[i - offset]
                    } else {
                        start[i]
                    },
            decreases offset - c,
        {
            self.pixels[base + c] = 0;
            c = c + 1;
        }
        proof {
            assert forall|i: int| 0 <= i < start.len() implies #[trigger] self.pixels@[i] == shifted(
                start,
                y as int,
                width as int,
                offset as int,
            )[i] by {
                let r = i / (WIDTH as int);
                let col = i % (WIDTH as int);
                assert(i == r * WIDTH + col);
                if r == y {
                    assert(base <= i < base + WIDTH);
                } else {
                    assert(i < base || i >= base + WIDTH) by (nonlinear_arith)
                        requires
                            i == r * WIDTH + col,
                            0 <= col < WIDTH,
                            base == y * WIDTH,
                            r != y,
                    ;
                }
            }
            assert(self.pixels@ =~= shifted(start, y as int, width as int, offset as int));
        }
    }
}

/// Index of column `c` of row `row` of metadata line `k` in the atlas.
pub open spec fn metadata_index(k: int, row: int, c: int) -> int {
    (METADATA_Y + k * LINE_ADVANCE + row) * WIDTH + c
}

/// Each metadata line of `p` is aligned right in a block `block` pixels wide:
/// the columns left of it are blank.
pub open spec fn aligned_right(p: Seq<u8>, widths: Seq<int>, block: int) -> bool {
    forall|k: int, row: int, c: int|
        0 <= k < widths.len() && 0 <= row < GLYPH_HEIGHT && 0 <= c < block - widths[k]
            ==> p[#[trigger] metadata_index(k, row, c)] == 0
}

/// The metadata rows of `p`, from `METADATA_Y` down, are blank.
pub open spec fn metadata_blank(p: Seq<u8>) -> bool {
    forall|i: int| METADATA_Y * WIDTH <= i < p.len() ==> #[trigger] p[i] == 0
}

/// `p` with the metadata rows, from `METADATA_Y` down, cleared.
pub open spec fn metadata_cleared(p: Seq<u8>) -> Seq<u8> {
    Seq::new(p.len(), |i: int| if i >= METADATA_Y * WIDTH { 0u8 } else { p[i] })
}

/// `p` with rows `y..y + n` each shifted as `shifted` does.
pub open spec fn shift_rows(p: Seq<u8>, y: int, n: int, width: int, offset: int) -> Seq<u8>
    decreases n,
{
    if n <= 0 {
        p
    } else {
        shifted(shift_rows(p, y, n - 1, width, offset), y + n - 1, width, offset)
    }
}

/// `p` with the first `k` metadata lines aligned right in a block `block`
/// pixels wide, line `j` being `widths[j]` pixels wide.
pub open spec fn shift_lines(p: Seq<u8>, widths: Seq<int>, block: int, k: int) -> Seq<u8>
    decreases k,
{
    if k <= 0 {
        p
    } else {
        shift_rows(
            shift_lines(p, widths, block, k - 1),
            METADATA_Y + (k - 1) * LINE_ADVANCE,
            GLYPH_HEIGHT as int,
            widths[k - 1],
            block - widths[k - 1],
        )
    }
}

/// `imgs` are the atlas states while the metadata lines of `label` are drawn
/// in `room` pixels: first `start` with the metadata rows cleared, then each
/// line drawn one line advance below the last, cut with dots when too long.
pub open spec fn metadata_drawn<S: Fn(&str) -> Result<UpTextMask, String>>(
    shape: &S,
    start: Seq<u8>,
    imgs: Seq<Seq<u8>>,
    label: Seq<char>,
    room: int,
) -> bool {
    &&& imgs.len() == metadata_lines(label).len() + 1
    &&& imgs[0] == metadata_cleared(start)
    &&& forall|k: int|
        0 <= k < metadata_lines(label).len() ==> #[trigger] ellipsized_by(
            shape,
            imgs[k],
            imgs[k + 1],
            HEIGHT as int,
            METADATA_Y + k * LINE_ADVANCE,
            metadata_lines(label)[k],
            max_cells(room),
        )
}

impl Overlays {
    /// Redraws the metadata block, up to three lines fitted to the room left
    /// by the window width and aligned right, when the label or the room
    /// changed. An empty label over an empty block draws nothing.
    pub fn update_metadata<S: Fn(&str) -> Result<UpTextMask, String>>(
        &mut self,
        label: &str,
        width: i32,
        shape: &S,
    ) -> (r: Result<(), String>)
        requires
            old(self).wf(),
            forall|s: &str| #[trigger] shape.requires((s,)),
        ensures
            old(self).cache_matches() ==> final(self).cache_matches(),
            r is Ok && metadata_key_view(old(self).metadata_key) != Some((label@, available_spec(width, METADATA_RESERVE)))
                && !(label@.len() == 0 && old(self).metadata_key is None) ==> exists|imgs: Seq<Seq<u8>>|
                #[trigger] metadata_drawn(shape, old(self).text.pixels@, imgs, label@, available_spec(width, METADATA_RESERVE))
                && final(self).text.pixels@ == shift_lines(
                    imgs.last(),
                    metadata_widths(label@, available_spec(width, METADATA_RESERVE)),
                    final(self).metadata_width as int,
                    metadata_lines(label@).len() as int,
                ),
            r matches Err(e) ==> shaping_failed(shape, e),
            shaping_succeeds(shape) ==> r is Ok,
            final(self).wf(),
            final(self).title == old(self).title,
            final(self).title_key == old(self).title_key,
            final(self).title_width == old(self).title_width,
            final(self).text_key == old(self).text_key,
            final(self).chapters_drawn == old(self).chapters_drawn,
            final(self).info_width == old(self).info_width,
            final(self).position_width == old(self).position_width,
            final(self).details_width == old(self).details_width,
            final(self).details_height == old(self).details_height,
            metadata_key_view(old(self).metadata_key) == Some((label@, available_spec(width, METADATA_RESERVE)))
                ==> r is Ok && *final(self) == *old(self),
            metadata_key_view(old(self).metadata_key) != Some((label@, available_spec(width, METADATA_RESERVE)))
                && label@.len() == 0 && old(self).metadata_key is None ==> r is Ok && final(self).text
                == old(self).text && final(self).metadata_key is None && final(self).metadata_width == 0
                && final(self).metadata_height == 0,
            r is Ok && metadata_key_view(old(self).metadata_key) != Some((label@, available_spec(width, METADATA_RESERVE)))
                && !(label@.len() == 0 && old(self).metadata_key is None) ==> {
                &&& metadata_key_view(final(self).metadata_key) == Some((label@, available_spec(width, METADATA_RESERVE)))
                &&& final(self).text.serial == next_serial(old(self).text.serial)
                &&& final(self).metadata_width == widest(metadata_widths(label@, available_spec(width, METADATA_RESERVE)))
                &&& final(self).metadata_height == details_height_spec(metadata_lines(label@).len() as int)
            },
            metadata_drawable(label@) ==> r is Ok,
            r is Ok && metadata_key_view(old(self).metadata_key) != Some((label@, available_spec(width, METADATA_RESERVE)))
                && !(label@.len() == 0 && old(self).metadata_key is None) ==> aligned_right(
                final(self).text.pixels@,
                metadata_widths(label@, available_spec(width, METADATA_RESERVE)),
                final(self).metadata_width as int,
            ),
            r is Ok && label@.len() == 0 && old(self).metadata_key is Some && metadata_key_view(old(self).metadata_key)
                != Some((label@, available_spec(width, METADATA_RESERVE))) ==> metadata_blank(final(self).text.pixels@),
    {
        let room = available(width, METADATA_RESERVE);
        let unchanged = match &self.metadata_key {
            Some((text, w)) => *w == room && same_text(text.as_str(), label),
            None => false,
        };
        if unchanged {
            return Ok(());
        }
        self.metadata_width = 0;
        self.metadata_height = 0;
        if label.is_empty() && self.metadata_key.is_none() {
            return Ok(());
        }
        // Clear the metadata rows of the atlas.
        let mut i: usize = METADATA_Y * WIDTH;
        while i < self.text.pixels.len()
            invariant
                self.wf(),
                self.title == old(self).title,
                self.title_key == old(self).title_key,
                self.title_width == old(self).title_width,
                self.text_key == old(self).text_key,
                self.chapters_drawn == old(self).chapters_drawn,
                self.info_width == old(self).info_width,
                self.position_width == old(self).position_width,
                self.details_width == old(self).details_width,
                self.details_height == old(self).details_height,
                self.text.serial == old(self).text.serial,
                self.metadata_width == 0,
                self.metadata_height == 0,
                METADATA_Y * WIDTH <= i,
                forall|j: int| METADATA_Y * WIDTH <= j < i ==> #[trigger] self.text.pixels@[j] == 0,
                forall|j: int| 0 <= j < self.text.pixels@.len() && (j < METADATA_Y * WIDTH || j >= i)
                    ==> #[trigger] self.text.pixels@[j] == old(self).text.pixels@[j],
            decreases self.text.pixels@.len() - i,
        {
            self.text.pixels[i] = 0;
            i = i + 1;
        }
        proof {
            if label@.len() == 0 {
                assert(label@ =~= Seq::<char>::empty());
                assert(split_lines(Seq::empty(), label@) =~= Seq::<Seq<char>>::empty());
                assert(text_lines(label@).len() == 0);
            }
        }
        let lines = lines_of(label);
        let count = if lines.len() < 3 { lines.len() } else { 3 };
        let n = (room + SCALE) / CELL;
        let maximum = if n < 1 { 1 } else if n > WIDTH / CELL { WIDTH / CELL } else { n };
        let ghost kept = metadata_lines(label@);
        let ghost all_widths = metadata_widths(label@, room as int);
        proof {
            assert(self.text.pixels@ =~= metadata_cleared(old(self).text.pixels@));
        }
        let ghost mut imgs: Seq<Seq<u8>> = seq![self.text.pixels@];
        proof {
            assert(kept.len() == count);
        }
        let mut widths: Vec<usize> = Vec::new();
        let mut line: usize = 0;
        while line < count
            invariant
                self.wf(),
                self.title == old(self).title,
                self.title_key == old(self).title_key,
                self.title_width == old(self).title_width,
                self.text_key == old(self).text_key,
                self.chapters_drawn == old(self).chapters_drawn,
                self.info_width == old(self).info_width,
                self.position_width == old(self).position_width,
                self.details_width == old(self).details_width,
                self.details_height == old(self).details_height,
                self.text.serial == old(self).text.serial,
                metadata_key_view(old(self).metadata_key) != Some((label@, available_spec(width, METADATA_RESERVE))),
                !(label@.len() == 0 && old(self).metadata_key is None),
                room == available_spec(width, METADATA_RESERVE),
                lines@.map_values(|l: String| l@) == text_lines(label@),
                kept == metadata_lines(label@),
                all_widths == metadata_widths(label@, room as int),
                kept.len() == count,
                count <= 3,
                count <= lines@.len(),
                maximum == max_cells(room as int),
                1 <= maximum <= WIDTH / CELL,
                line <= count,
                widths@.len() == line,
                forall|k: int| 0 <= k < line ==> #[trigger] widths@[k] == all_widths[k],
                forall|k: int| 0 <= k < line ==> #[trigger] widths@[k] <= self.metadata_width,
                self.metadata_width <= WIDTH,
                forall|s: &str| #[trigger] shape.requires((s,)),
                self.metadata_width == widest(all_widths.take(line as int)),
                self.metadata_height == details_height_spec(line as int),
                metadata_drawable(label@) ==> forall|k: int| 0 <= k < kept.len() ==> #[trigger] drawable(kept[k]),
                imgs.len() == line + 1,
                imgs[0] == metadata_cleared(old(self).text.pixels@),
                forall|k: int|
                    0 <= k < line ==> #[trigger] ellipsized_by(
                        shape,
                        imgs[k],
                        imgs[k + 1],
                        HEIGHT as int,
                        METADATA_Y + k * LINE_ADVANCE,
                        kept[k],
                        max_cells(room as int),
                    ),
                self.text.pixels@ == imgs[line as int],
                label@.len() == 0 ==> count == 0 && metadata_blank(self.text.pixels@),
            decreases count - line,
        {
            assert(line < 3);
            assert(LINE_ADVANCE == 30 && METADATA_Y == 608 && GLYPH_HEIGHT == 28);
            assert(line * LINE_ADVANCE <= 60);
            let y = METADATA_Y + line * LINE_ADVANCE;
            proof {
                assert(lines@[line as int]@ == text_lines(label@)[line as int]);
                assert(kept[line as int] == text_lines(label@)[line as int]);
                if metadata_drawable(label@) {
                    assert(drawable(metadata_lines(label@)[line as int]));
                }
            }
            let ghost before_line = self.text.pixels@;
            let cells = match self.text.ellipsized(y, lines[line].as_str(), maximum, shape) {
                Ok(c) => c,
                Err(e) => return Err(e),
            };
            proof {
                let grown = imgs.push(self.text.pixels@);
                assert forall|k: int|
                    0 <= k < line + 1 implies #[trigger] ellipsized_by(
                        shape,
                        grown[k],
                        grown[k + 1],
                        HEIGHT as int,
                        METADATA_Y + k * LINE_ADVANCE,
                        kept[k],
                        max_cells(room as int),
                    ) by {
                    if k < line {
                        assert(grown[k] == imgs[k] && grown[k + 1] == imgs[k + 1]);
                    } else {
                        assert(grown[k] == before_line && grown[k + 1] == self.text.pixels@);
                    }
                }
                imgs = grown;
            }
            assert(cells <= maximum);
            assert(cells * CELL <= 1020) by (nonlinear_arith)
                requires
                    cells <= maximum,
                    maximum <= 85,
                    CELL == 12,
            ;
            let line_width = pixel_width(cells);
            assert(line_width <= WIDTH);
            proof {
                assert(all_widths.take(line + 1).drop_last() =~= all_widths.take(line as int));
                assert(all_widths.take(line + 1).last() == all_widths[line as int]);
                assert(line_width == all_widths[line as int]);
            }
            if line_width > self.metadata_width {
                self.metadata_width = line_width;
            }
            self.metadata_height = line * LINE_ADVANCE + GLYPH_HEIGHT;
            widths.push(line_width);
            line = line + 1;
        }
        proof {
            assert(all_widths.take(count as int) =~= all_widths);
            assert(metadata_drawn(shape, old(self).text.pixels@, imgs, label@, room as int));
        }
        let ghost drawn = imgs.last();
        let mut line: usize = 0;
        while line < count
            invariant
                self.wf(),
                self.title == old(self).title,
                self.title_key == old(self).title_key,
                self.title_width == old(self).title_width,
                self.text_key == old(self).text_key,
                self.chapters_drawn == old(self).chapters_drawn,
                self.info_width == old(self).info_width,
                self.position_width == old(self).position_width,
                self.details_width == old(self).details_width,
                self.details_height == old(self).details_height,
                self.text.serial == old(self).text.serial,
                self.metadata_width == widest(all_widths),
                self.metadata_height == details_height_spec(count as int),
                self.metadata_width <= WIDTH,
                widths@.len() == count,
                count <= 3,
                line <= count,
                forall|k: int| 0 <= k < count ==> #[trigger] widths@[k] <= self.metadata_width,
                forall|k: int| 0 <= k < count ==> #[trigger] widths@[k] == all_widths[k],
                all_widths.len() == count,
                forall|k: int, row: int, c: int|
                    0 <= k < line && 0 <= row < GLYPH_HEIGHT && 0 <= c < self.metadata_width - all_widths[k]
                        ==> self.text.pixels@[#[trigger] metadata_index(k, row, c)] == 0,
                label@.len() == 0 ==> count == 0 && metadata_blank(self.text.pixels@),
                metadata_drawn(shape, old(self).text.pixels@, imgs, label@, room as int),
                drawn == imgs.last(),
                room == available_spec(width, METADATA_RESERVE),
                self.text.pixels@ == shift_lines(drawn, all_widths, self.metadata_width as int, line as int),
            decreases count - line,
        {
            assert(LINE_ADVANCE == 30 && METADATA_Y == 608 && GLYPH_HEIGHT == 28 && WIDTH == 1024);
            let line_width = widths[line];
            let offset = self.metadata_width - line_width;
            let mut y = METADATA_Y + line * LINE_ADVANCE;
            while y < METADATA_Y + line * LINE_ADVANCE + GLYPH_HEIGHT
                invariant
                    self.wf(),
                    self.title == old(self).title,
                    self.title_key == old(self).title_key,
                    self.title_width == old(self).title_width,
                self.title_width == old(self).title_width,
                    self.text_key == old(self).text_key,
                    self.chapters_drawn == old(self).chapters_drawn,
                    self.info_width == old(self).info_width,
                    self.position_width == old(self).position_width,
                    self.details_width == old(self).details_width,
                    self.details_height == old(self).details_height,
                    self.text.serial == old(self).text.serial,
                    self.metadata_width == widest(all_widths),
                    self.metadata_height == details_height_spec(count as int),
                    self.metadata_width <= WIDTH,
                    line < count,
                    count <= 3,
                    line_width + offset <= WIDTH,
                    offset == self.metadata_width - line_width,
                    line_width == all_widths[line as int],
                    widths@.len() == count,
                    forall|k: int| 0 <= k < count ==> #[trigger] widths@[k] == all_widths[k],
                    all_widths.len() == count,
                    METADATA_Y + line * LINE_ADVANCE <= y <= METADATA_Y + line * LINE_ADVANCE + GLYPH_HEIGHT,
                    forall|k: int, row: int, c: int|
                        0 <= k < line && 0 <= row < GLYPH_HEIGHT && 0 <= c < self.metadata_width - all_widths[k]
                            ==> self.text.pixels@[#[trigger] metadata_index(k, row, c)] == 0,
                    forall|row: int, c: int|
                        0 <= row < y - (METADATA_Y + line * LINE_ADVANCE) && 0 <= c < offset
                            ==> self.text.pixels@[#[trigger] metadata_index(line as int, row, c)] == 0,
                    self.text.pixels@ == shift_rows(
                        shift_lines(drawn, all_widths, self.metadata_width as int, line as int),
                        METADATA_Y + line * LINE_ADVANCE,
                        y - (METADATA_Y + line * LINE_ADVANCE),
                        line_width as int,
                        offset as int,
                    ),
                decreases METADATA_Y + line * LINE_ADVANCE + GLYPH_HEIGHT - y,
            {
                let ghost previous = self.text.pixels@;
                self.text.shift_right(y, line_width, offset);
                proof {
                    assert forall|k: int, row: int, c: int|
                        0 <= k < line && 0 <= row < GLYPH_HEIGHT && 0 <= c < self.metadata_width - all_widths[k]
                            implies self.text.pixels@[#[trigger] metadata_index(k, row, c)] == 0 by {
                        assert(widths@[k] == all_widths[k]);
                        lemma_cell(METADATA_Y + k * LINE_ADVANCE + row, c);
                    }
                    assert forall|row: int, c: int|
                        0 <= row < y + 1 - (METADATA_Y + line * LINE_ADVANCE) && 0 <= c < offset
                            implies self.text.pixels@[#[trigger] metadata_index(line as int, row, c)] == 0 by {
                        lemma_cell(METADATA_Y + line * LINE_ADVANCE + row, c);
                    }
                }
                y = y + 1;
            }
            line = line + 1;
        }
        self.text.serial = bump(self.text.serial);
        self.metadata_key = Some((label.to_owned(), room));
        Ok(())
    }

    /// Brings the title and the atlas up to date with `content` for a window
    /// `width` pixels wide. Returns the first shaping error.
    pub fn update<S: Fn(&str) -> Result<UpTextMask, String>>(
        &mut self,
        content: &Content,
        width: i32,
        shape: &S,
    ) -> (r: Result<(), String>)
        requires
            old(self).wf(),
            forall|s: &str| #[trigger] shape.requires((s,)),
        ensures
            old(self).cache_matches() && r is Ok ==> final(self).cache_matches(),
            old(self).cache_matches() && r is Ok ==> {
                &&& (final(self).title_width > 0 <==> content.title@.len() > 0)
                &&& content.title@.len() == 0 ==> forall|i: int|
                    0 <= i < final(self).title.pixels@.len() ==> #[trigger] final(self).title.pixels@[i] == 0
                &&& content.title@.len() > 0 ==> exists|i: int|
                    0 <= i < final(self).title.pixels@.len() && #[trigger] final(self).title.pixels@[i] != 0
            },
            r is Ok && texts_drawable(content.info@, content.details@, content.position@) && text_key_view(
                old(self).text_key,
            ) != Some((content.info@, content.details@, content.position@)) ==> final(self).text.pixels@
                == atlas_image(content.info@, content.details@, content.position@),
            r is Ok && text_key_view(old(self).text_key) != Some((content.info@, content.details@, content.position@))
                ==> atlas_drawn(shape, content.info@, content.details@, content.position@, final(self).text.pixels@),
            r is Ok && title_key_view(old(self).title_key) != Some((content.title@, available_spec(width, TITLE_RESERVE)))
                ==> exists|q: Seq<u8>| #[trigger] title_drawn(shape, q, content.title@, available_spec(width, TITLE_RESERVE))
                && final(self).title.pixels@ == title_from(q, content.title@, available_spec(width, TITLE_RESERVE)),
            r is Ok && title_key_view(old(self).title_key) != Some((content.title@, available_spec(width, TITLE_RESERVE)))
                ==> (final(self).title_width > 0 <==> content.title@.len() > 0),
            r is Ok && title_key_view(old(self).title_key) != Some((content.title@, available_spec(width, TITLE_RESERVE)))
                && content.title@.len() == 0 ==> forall|i: int|
                0 <= i < final(self).title.pixels@.len() ==> #[trigger] final(self).title.pixels@[i] == 0,
            r is Ok && title_key_view(old(self).title_key) != Some((content.title@, available_spec(width, TITLE_RESERVE)))
                && content.title@.len() > 0 ==> exists|i: int|
                0 <= i < final(self).title.pixels@.len() && #[trigger] final(self).title.pixels@[i] != 0,
            r matches Err(e) ==> shaping_failed(shape, e),
            shaping_succeeds(shape) ==> r is Ok,
            final(self).wf(),
            title_key_view(old(self).title_key) == Some((content.title@, available_spec(width, TITLE_RESERVE)))
                && text_key_view(old(self).text_key) == Some((content.info@, content.details@, content.position@))
                ==> r is Ok && final(self).title == old(self).title && final(self).text == old(self).text
                && final(self).title_width == old(self).title_width && final(self).info_width
                == old(self).info_width && final(self).position_width == old(self).position_width
                && final(self).details_width == old(self).details_width && final(self).details_height
                == old(self).details_height,
            r is Ok ==> title_key_view(final(self).title_key) == Some((content.title@, available_spec(width, TITLE_RESERVE))),
            r is Ok ==> text_key_view(final(self).text_key) == Some((content.info@, content.details@, content.position@)),
            r is Ok && title_key_view(old(self).title_key) != Some((content.title@, available_spec(width, TITLE_RESERVE)))
                ==> final(self).title.serial == next_serial(old(self).title.serial)
                && final(self).title_width == pixel_width_spec(
                    ellipsized_cells(
                        normalized_spec(content.title@).len() as int,
                        max_cells(available_spec(width, TITLE_RESERVE)),
                    ),
                ),
            r is Ok && title_key_view(old(self).title_key) == Some((content.title@, available_spec(width, TITLE_RESERVE)))
                ==> final(self).title == old(self).title && final(self).title_width == old(self).title_width,
            r is Ok && text_key_view(old(self).text_key) != Some((content.info@, content.details@, content.position@))
                ==> {
                &&& final(self).text.serial == next_serial(old(self).text.serial)
                &&& final(self).info_width == line_width_spec(content.info@)
                &&& final(self).position_width == line_width_spec(content.position@)
                &&& final(self).details_width == widest(details_widths(content.details@))
                &&& final(self).details_height == details_height_spec(details_lines(content.details@).len() as int)
                &&& !final(self).chapters_drawn
                &&& final(self).metadata_key is None
            },
            r is Ok && text_key_view(old(self).text_key) == Some((content.info@, content.details@, content.position@))
                ==> final(self).text == old(self).text && final(self).chapters_drawn == old(self).chapters_drawn
                && final(self).metadata_key == old(self).metadata_key,
            drawable(content.title@) && texts_drawable(content.info@, content.details@, content.position@) ==> r is Ok,
            text_key_view(old(self).text_key) == Some((content.info@, content.details@, content.position@)) ==> {
                &&& final(self).info_width == old(self).info_width
                &&& final(self).position_width == old(self).position_width
                &&& final(self).details_width == old(self).details_width
                &&& final(self).details_height == old(self).details_height
            },
            drawable(content.title@) && title_key_view(old(self).title_key) != Some((content.title@, available_spec(width, TITLE_RESERVE)))
                ==> (r is Ok ==> final(self).title.pixels@ == title_image(content.title@, available_spec(width, TITLE_RESERVE))),
    {
        match self.update_title(content.title, width, shape) {
            Ok(()) => {},
            Err(e) => return Err(e),
        }
        let r = self.update_text(content.info, content.details, content.position, shape);
        proof {
            if r is Ok && texts_drawable(content.info@, content.details@, content.position@) && text_key_view(
                old(self).text_key,
            ) != Some((content.info@, content.details@, content.position@)) {
                lemma_atlas_exact(shape, content.info@, content.details@, content.position@, self.text.pixels@);
            }
        }
        r
    }
}

} // verus!
