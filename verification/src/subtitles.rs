//! Subtitle cues and the reduction of text and ASS dialogue to plain lines.
use crate::text::{
    chars_of, is_control, is_control_spec, is_whitespace, is_whitespace_spec, join_lines,
    join_with_newlines, string_of,
};
use vstd::prelude::*;

verus! {

/// What a cue shows: nothing, text, or an RGBA bitmap covering the canvas.
pub enum SubtitleContent {
    Clear,
    Text(String),
    Bitmap { width: i32, height: i32, pixels: Vec<u8> },
}

/// `s` without its leading white space.
pub open spec fn trim_start_spec(s: Seq<char>) -> Seq<char>
    decreases s.len(),
{
    if s.len() > 0 && is_whitespace_spec(s[0]) {
        trim_start_spec(s.drop_first())
    } else {
        s
    }
}

/// `s` without its trailing white space.
pub open spec fn trim_end_spec(s: Seq<char>) -> Seq<char>
    decreases s.len(),
{
    if s.len() > 0 && is_whitespace_spec(s.last()) {
        trim_end_spec(s.drop_last())
    } else {
        s
    }
}

/// `s` without leading and trailing white space.
pub open spec fn trim_spec(s: Seq<char>) -> Seq<char> {
    trim_end_spec(trim_start_spec(s))
}

/// The rest of `s` after its first `n` commas; none when it has fewer.
pub open spec fn after_commas(s: Seq<char>, n: nat) -> Option<Seq<char>>
    decreases s.len(),
{
    if n == 0 {
        Some(s)
    } else if s.len() == 0 {
        None
    } else if s[0] == ',' {
        after_commas(s.drop_first(), (n - 1) as nat)
    } else {
        after_commas(s.drop_first(), n)
    }
}

/// The dialogue field of an ASS event: after the ninth comma of a
/// `Dialogue:` line, after the eighth of a bare event, else the whole event.
pub open spec fn dialogue_field(raw: Seq<char>, ass: bool) -> Seq<char> {
    if ass {
        let trimmed = trim_start_spec(raw);
        let fields: nat = if trimmed.len() >= 9 && trimmed.subrange(0, 9) == "Dialogue:"@ {
            9
        } else {
            8
        };
        match after_commas(trimmed, fields) {
            Some(rest) => rest,
            None => trimmed,
        }
    } else {
        raw
    }
}

/// Plain text of dialogue: override blocks `{...}` are dropped, `\N` and `\n`
/// break lines, `\h` is a space, NULs and control characters vanish, typographic
/// quotes and dashes become ASCII, and white space becomes a single space each.
pub open spec fn clean_spec(s: Seq<char>, in_override: bool) -> Seq<char>
    decreases s.len(),
{
    if s.len() == 0 {
        Seq::empty()
    } else {
        let c = s[0];
        let rest = s.drop_first();
        if c == '{' {
            clean_spec(rest, true)
        } else if c == '}' && in_override {
            clean_spec(rest, false)
        } else if c == '\\' && !in_override {
            if rest.len() == 0 {
                seq!['\\']
            } else {
                let d = rest[0];
                let out = if d == 'N' || d == 'n' {
                    seq!['\n']
                } else if d == 'h' {
                    seq![' ']
                } else {
                    seq!['\\', d]
                };
                out + clean_spec(rest.drop_first(), in_override)
            }
        } else if c == '\0' {
            clean_spec(rest, in_override)
        } else if c == '\u{2019}' || c == '\u{2018}' {
            seq!['\''] + clean_spec(rest, in_override)
        } else if c == '\u{201c}' || c == '\u{201d}' {
            seq!['"'] + clean_spec(rest, in_override)
        } else if c == '\u{2013}' || c == '\u{2014}' {
            seq!['-'] + clean_spec(rest, in_override)
        } else if !in_override && is_whitespace_spec(c) {
            seq![' '] + clean_spec(rest, in_override)
        } else if !in_override && !is_control_spec(c) {
            seq![c] + clean_spec(rest, in_override)
        } else {
            clean_spec(rest, in_override)
        }
    }
}

/// The overlay text of a subtitle event.
pub open spec fn dialogue_text_spec(raw: Seq<char>, ass: bool) -> Seq<char> {
    trim_spec(clean_spec(dialogue_field(raw, ass), false))
}

fn trim_start_from(s: &Vec<char>, start: usize) -> (r: usize)
    requires
        start <= s@.len(),
    ensures
        start <= r <= s@.len(),
        s@.subrange(r as int, s@.len() as int) == trim_start_spec(
            s@.subrange(start as int, s@.len() as int),
        ),
{
    let mut i = start;
    while i < s.len() && is_whitespace(s[i])
        invariant
            start <= i <= s@.len(),
            trim_start_spec(s@.subrange(start as int, s@.len() as int)) == trim_start_spec(
                s@.subrange(i as int, s@.len() as int),
            ),
        decreases s@.len() - i,
    {
        proof {
            assert(s@.subrange(i as int, s@.len() as int).drop_first() == s@.subrange(
                i + 1,
                s@.len() as int,
            ));
        }
        i = i + 1;
    }
    i
}

/// Removes leading and trailing white space.
pub fn trim(s: &Vec<char>) -> (r: Vec<char>)
    ensures
        r@ == trim_spec(s@),
{
    let start = trim_start_from(s, 0);
    proof {
        assert(s@.subrange(0, s@.len() as int) == s@);
    }
    let mut end = s.len();
    while end > start && is_whitespace(s[end - 1])
        invariant
            start <= end <= s@.len(),
            trim_end_spec(s@.subrange(start as int, s@.len() as int)) == trim_end_spec(
                s@.subrange(start as int, end as int),
            ),
        decreases end - start,
    {
        proof {
            assert(s@.subrange(start as int, end as int).drop_last() == s@.subrange(
                start as int,
                end - 1,
            ));
        }
        end = end - 1;
    }
    let mut out: Vec<char> = Vec::new();
    let mut i = start;
    while i < end
        invariant
            start <= i <= end <= s@.len(),
            out@ == s@.subrange(start as int, i as int),
        decreases end - i,
    {
        out.push(s[i]);
        i = i + 1;
    }
    out
}

fn skip_commas(s: &Vec<char>, start: usize, count: usize) -> (r: Option<usize>)
    requires
        start <= s@.len(),
    ensures
        match after_commas(s@.subrange(start as int, s@.len() as int), count as nat) {
            Some(rest) => r matches Some(p) && p <= s@.len() && rest == s@.subrange(
                p as int,
                s@.len() as int,
            ),
            None => r is None,
        },
{
    let mut i = start;
    let mut remaining = count;
    while remaining > 0 && i < s.len()
        invariant
            start <= i <= s@.len(),
            remaining <= count,
            after_commas(s@.subrange(start as int, s@.len() as int), count as nat)
                == after_commas(s@.subrange(i as int, s@.len() as int), remaining as nat),
        decreases s@.len() - i,
    {
        proof {
            assert(s@.subrange(i as int, s@.len() as int).drop_first() == s@.subrange(
                i + 1,
                s@.len() as int,
            ));
        }
        if s[i] == ',' {
            remaining = remaining - 1;
        }
        i = i + 1;
    }
    if remaining == 0 {
        Some(i)
    } else {
        None
    }
}

fn starts_with_dialogue(s: &Vec<char>, start: usize) -> (r: bool)
    requires
        start <= s@.len(),
    ensures
        r == (s@.len() - start >= 9 && s@.subrange(start as int, start + 9) == "Dialogue:"@),
{
    let prefix = chars_of("Dialogue:");
    proof {
        reveal_strlit("Dialogue:");
    }
    assert(prefix@.len() == 9);
    let n = s.len();
    if n - start < 9 {
        return false;
    }
    let mut i: usize = 0;
    while i < 9
        invariant
            0 <= i <= 9,
            n == s@.len(),
            start + 9 <= s@.len(),
            prefix@ == "Dialogue:"@,
            prefix@.len() == 9,
            forall|j: int| 0 <= j < i ==> s@[start + j] == prefix@[j],
        decreases 9 - i,
    {
        if s[start + i] != prefix[i] {
            assert(s@.subrange(start as int, start + 9)[i as int] != prefix@[i as int]);
            return false;
        }
        i = i + 1;
    }
    assert(s@.subrange(start as int, start + 9) == prefix@);
    true
}

proof fn lemma_trim_start_spec(s: Seq<char>)
    ensures
        trim_start_spec(s).len() > 0 ==> !is_whitespace_spec(trim_start_spec(s)[0]),
    decreases s.len(),
{
    if s.len() > 0 && is_whitespace_spec(s[0]) {
        lemma_trim_start_spec(s.drop_first());
    }
}

proof fn lemma_trim_end_spec(s: Seq<char>)
    ensures
        trim_end_spec(s).len() <= s.len(),
        trim_end_spec(s) == s.take(trim_end_spec(s).len() as int),
        trim_end_spec(s).len() > 0 ==> !is_whitespace_spec(trim_end_spec(s).last()),
    decreases s.len(),
{
    if s.len() > 0 && is_whitespace_spec(s.last()) {
        lemma_trim_end_spec(s.drop_last());
        let n = trim_end_spec(s.drop_last()).len() as int;
        assert(s.drop_last().take(n) =~= s.take(n));
    } else {
        assert(s.take(s.len() as int) =~= s);
    }
}

/// `s` has no backslash, so no escape sequence.
pub open spec fn no_backslash(s: Seq<char>) -> bool {
    forall|k: int| 0 <= k < s.len() ==> s[k] != '\\'
}

/// `c` is neither a control character nor a typographic quote or dash.
pub open spec fn plain_char(c: char) -> bool {
    &&& !is_control_spec(c)
    &&& c != '\u{2018}' && c != '\u{2019}' && c != '\u{201c}' && c != '\u{201d}'
    &&& c != '\u{2013}' && c != '\u{2014}'
}

/// Every character of `s` is plain.
pub open spec fn all_plain(s: Seq<char>) -> bool {
    forall|k: int| 0 <= k < s.len() ==> #[trigger] plain_char(s[k])
}

proof fn lemma_prepend_plain(c: char, s: Seq<char>)
    requires
        plain_char(c),
        all_plain(s),
    ensures
        all_plain(seq![c] + s),
{
    assert forall|k: int| 0 <= k < (seq![c] + s).len() implies #[trigger] plain_char((seq![c] + s)[k]) by {
        if k > 0 {
            assert((seq![c] + s)[k] == s[k - 1]);
        }
    }
}

proof fn lemma_clean_plain(s: Seq<char>, in_override: bool)
    requires
        no_backslash(s),
    ensures
        all_plain(clean_spec(s, in_override)),
    decreases s.len(),
{
    if s.len() > 0 {
        let c = s[0];
        let rest = s.drop_first();
        assert(no_backslash(rest)) by {
            assert forall|k: int| 0 <= k < rest.len() implies rest[k] != '\\' by {
                assert(rest[k] == s[k + 1]);
            }
        }
        assert(c != '\\');
        if c == '{' {
            lemma_clean_plain(rest, true);
        } else if c == '}' && in_override {
            lemma_clean_plain(rest, false);
        } else if c == '\0' {
            lemma_clean_plain(rest, in_override);
        } else if c == '\u{2019}' || c == '\u{2018}' {
            lemma_clean_plain(rest, in_override);
            lemma_prepend_plain('\'', clean_spec(rest, in_override));
        } else if c == '\u{201c}' || c == '\u{201d}' {
            lemma_clean_plain(rest, in_override);
            lemma_prepend_plain('"', clean_spec(rest, in_override));
        } else if c == '\u{2013}' || c == '\u{2014}' {
            lemma_clean_plain(rest, in_override);
            lemma_prepend_plain('-', clean_spec(rest, in_override));
        } else if !in_override && is_whitespace_spec(c) {
            lemma_clean_plain(rest, in_override);
            lemma_prepend_plain(' ', clean_spec(rest, in_override));
        } else if !in_override && !is_control_spec(c) {
            lemma_clean_plain(rest, in_override);
            lemma_prepend_plain(c, clean_spec(rest, in_override));
        } else {
            lemma_clean_plain(rest, in_override);
        }
    }
}

proof fn lemma_trim_start_keeps(s: Seq<char>)
    ensures
        all_plain(s) ==> all_plain(trim_start_spec(s)),
        no_backslash(s) ==> no_backslash(trim_start_spec(s)),
    decreases s.len(),
{
    if s.len() > 0 && is_whitespace_spec(s[0]) {
        let rest = s.drop_first();
        if all_plain(s) {
            assert forall|k: int| 0 <= k < rest.len() implies #[trigger] plain_char(rest[k]) by {
                assert(rest[k] == s[k + 1]);
            }
        }
        if no_backslash(s) {
            assert forall|k: int| 0 <= k < rest.len() implies rest[k] != '\\' by {
                assert(rest[k] == s[k + 1]);
            }
        }
        lemma_trim_start_keeps(rest);
    }
}

proof fn lemma_after_commas_keeps(s: Seq<char>, n: nat)
    requires
        no_backslash(s),
    ensures
        after_commas(s, n) matches Some(r) ==> no_backslash(r),
    decreases s.len(),
{
    if n > 0 && s.len() > 0 {
        let rest = s.drop_first();
        assert forall|k: int| 0 <= k < rest.len() implies rest[k] != '\\' by {
            assert(rest[k] == s[k + 1]);
        }
        if s[0] == ',' {
            lemma_after_commas_keeps(rest, (n - 1) as nat);
        } else {
            lemma_after_commas_keeps(rest, n);
        }
    }
}

/// Dialogue without escape sequences comes out with no control characters
/// and with typographic quotes and dashes made plain.
pub proof fn lemma_dialogue_text_plain(raw: Seq<char>, ass: bool)
    requires
        no_backslash(raw),
    ensures
        all_plain(dialogue_text_spec(raw, ass)),
{
    if ass {
        let trimmed = trim_start_spec(raw);
        lemma_trim_start_keeps(raw);
        let fields: nat = if trimmed.len() >= 9 && trimmed.subrange(0, 9) == "Dialogue:"@ { 9 } else { 8 };
        lemma_after_commas_keeps(trimmed, fields);
    }
    let field = dialogue_field(raw, ass);
    assert(no_backslash(field));
    lemma_clean_plain(field, false);
    let cleaned = clean_spec(field, false);
    lemma_trim_start_keeps(cleaned);
    let t = trim_start_spec(cleaned);
    lemma_trim_end_spec(t);
    let r = trim_end_spec(t);
    assert forall|k: int| 0 <= k < r.len() implies #[trigger] plain_char(r[k]) by {
        assert(r[k] == t[k]);
    }
}

/// `c` passes through cleaning unchanged: a plain character that opens no
/// override or escape, and white space only as a plain space.
pub open spec fn kept_char(c: char) -> bool {
    &&& plain_char(c)
    &&& c != '{' && c != '}' && c != '\\'
    &&& (is_whitespace_spec(c) ==> c == ' ')
}

proof fn lemma_clean_identity(s: Seq<char>)
    requires
        forall|k: int| 0 <= k < s.len() ==> #[trigger] kept_char(s[k]),
    ensures
        clean_spec(s, false) == s,
    decreases s.len(),
{
    if s.len() > 0 {
        let rest = s.drop_first();
        assert forall|k: int| 0 <= k < rest.len() implies #[trigger] kept_char(rest[k]) by {
            assert(rest[k] == s[k + 1]);
        }
        lemma_clean_identity(rest);
        assert(kept_char(s[0]));
        assert(seq![s[0]] + rest =~= s);
    }
}

/// Plain text dialogue is only trimmed.
pub proof fn lemma_plain_dialogue_is_trimmed(raw: Seq<char>)
    requires
        forall|k: int| 0 <= k < raw.len() ==> #[trigger] kept_char(raw[k]),
    ensures
        dialogue_text_spec(raw, false) == trim_spec(raw),
{
    lemma_clean_identity(raw);
}

/// Dialogue text neither starts nor ends with white space.
pub proof fn lemma_dialogue_text_trimmed(raw: Seq<char>, ass: bool)
    ensures
        dialogue_text_spec(raw, ass).len() > 0 ==> !is_whitespace_spec(dialogue_text_spec(raw, ass)[0])
            && !is_whitespace_spec(dialogue_text_spec(raw, ass).last()),
{
    let t = trim_start_spec(clean_spec(dialogue_field(raw, ass), false));
    lemma_trim_start_spec(clean_spec(dialogue_field(raw, ass), false));
    lemma_trim_end_spec(t);
    let r = trim_end_spec(t);
    if r.len() > 0 {
        assert(r[0] == t[0]);
    }
}

/// Reduces one subtitle event to overlay text. ASS events keep only their
/// dialogue field; see `clean_spec` for the text rules.
pub fn subtitle_dialogue_text(raw: &str, ass: bool) -> (r: String)
    ensures
        r@ == dialogue_text_spec(raw@, ass),
{
    let chars = chars_of(raw);
    let ghost field = dialogue_field(raw@, ass);
    let start: usize = if ass {
        let trimmed = trim_start_from(&chars, 0);
        proof {
            assert(chars@.subrange(0, chars@.len() as int) == chars@);
        }
        let ghost t = chars@.subrange(trimmed as int, chars@.len() as int);
        assert(t == trim_start_spec(raw@));
        assert(t.len() >= 9 ==> t.subrange(0, 9) == chars@.subrange(trimmed as int, trimmed + 9));
        let fields: usize = if starts_with_dialogue(&chars, trimmed) {
            9
        } else {
            8
        };
        match skip_commas(&chars, trimmed, fields) {
            Some(p) => p,
            None => trimmed,
        }
    } else {
        proof {
            assert(chars@.subrange(0, chars@.len() as int) == chars@);
        }
        0
    };
    assert(chars@.subrange(start as int, chars@.len() as int) == field);
    let mut text: Vec<char> = Vec::new();
    let mut in_override = false;
    let mut i = start;
    while i < chars.len()
        invariant
            start <= i <= chars@.len(),
            clean_spec(field, false) == text@ + clean_spec(
                chars@.subrange(i as int, chars@.len() as int),
                in_override,
            ),
        decreases chars@.len() - i,
    {
        let ghost rest = chars@.subrange(i as int, chars@.len() as int);
        proof {
            assert(rest.drop_first() == chars@.subrange(i + 1, chars@.len() as int));
        }
        let c = chars[i];
        i = i + 1;
        if c == '{' {
            in_override = true;
        } else if c == '}' && in_override {
            in_override = false;
        } else if c == '\\' && !in_override {
            if i < chars.len() {
                let d = chars[i];
                proof {
                    assert(rest.drop_first().drop_first() == chars@.subrange(
                        i + 1,
                        chars@.len() as int,
                    ));
                }
                if d == 'N' || d == 'n' {
                    text.push('\n');
                } else if d == 'h' {
                    text.push(' ');
                } else {
                    text.push('\\');
                    text.push(d);
                }
                i = i + 1;
            } else {
                text.push('\\');
            }
        } else if c == '\0' {
        } else if c == '\u{2019}' || c == '\u{2018}' {
            text.push('\'');
        } else if c == '\u{201c}' || c == '\u{201d}' {
            text.push('"');
        } else if c == '\u{2013}' || c == '\u{2014}' {
            text.push('-');
        } else if !in_override && is_whitespace(c) {
            text.push(' ');
        } else if !in_override && !is_control(c) {
            text.push(c);
        }
    }
    let trimmed = trim(&text);
    string_of(trimmed.as_slice())
}

} // verus!

verus! {

/// Bytes a bitmap cue may take at most.
pub const BITMAP_LIMIT: usize = 512 * 1024 * 1024;

/// The canvas a bitmap cue covers: the subtitle stream's size where it is
/// given, else the video's.
pub fn subtitle_canvas(video: (i32, i32), subtitle: (i32, i32)) -> (r: (i32, i32))
    ensures
        r.0 == (if subtitle.0 > 0 { subtitle.0 } else { video.0 }),
        r.1 == (if subtitle.1 > 0 { subtitle.1 } else { video.1 }),
{
    (
        if subtitle.0 > 0 { subtitle.0 } else { video.0 },
        if subtitle.1 > 0 { subtitle.1 } else { video.1 },
    )
}

/// Bytes of an RGBA canvas `width` x `height`: none for a negative size or
/// beyond `BITMAP_LIMIT`.
pub fn bitmap_storage(width: i32, height: i32) -> (r: Option<usize>)
    ensures
        r == (if 0 <= width && 0 <= height && 4 * width * height <= BITMAP_LIMIT {
            Some((4 * width * height) as usize)
        } else {
            None::<usize>
        }),
{
    if width < 0 || height < 0 {
        return None;
    }
    let w = width as u64;
    let h = height as u64;
    assert(w * h <= 0x7fff_ffff * 0x7fff_ffff) by (nonlinear_arith)
        requires w <= 0x7fff_ffff, h <= 0x7fff_ffff;
    let pixels = w * h;
    assert(pixels == width * height && 4 * width * height == 4 * pixels) by (nonlinear_arith)
        requires w == width, h == height, pixels == w * h;
    if pixels > (BITMAP_LIMIT / 4) as u64 {
        None
    } else {
        Some((4 * pixels) as usize)
    }
}

/// A palette-indexed bitmap rectangle placed on the canvas; rows of its
/// indices are `line_size` bytes apart.
#[derive(Clone, Copy)]
pub struct BitmapRect {
    pub x: i32,
    pub y: i32,
    pub width: i32,
    pub height: i32,
    pub line_size: i32,
    pub color_count: i32,
}

/// `v` clamped to `0..=hi`.
pub open spec fn clamp_spec(v: int, hi: int) -> int {
    if v < 0 {
        0
    } else if v > hi {
        hi
    } else {
        v
    }
}

/// A rectangle with a size and a row stride is drawn; others are skipped.
pub open spec fn rect_drawn(rect: BitmapRect) -> bool {
    rect.width > 0 && rect.height > 0 && rect.line_size > 0
}

/// Canvas pixel `(x, y)` lies in the part of `rect` inside the canvas.
pub open spec fn covers(cw: int, ch: int, rect: BitmapRect, x: int, y: int) -> bool {
    &&& rect_drawn(rect)
    &&& clamp_spec(rect.x as int, cw) <= x < clamp_spec(rect.x + rect.width, cw)
    &&& clamp_spec(rect.y as int, ch) <= y < clamp_spec(rect.y + rect.height, ch)
}

/// Palette index of canvas pixel `(x, y)` inside `rect`.
pub open spec fn index_at(rect: BitmapRect, indices: Seq<u8>, x: int, y: int) -> int {
    indices[(y - rect.y) * rect.line_size + (x - rect.x)] as int
}

/// Byte `c` (red, green, blue, alpha) of an ARGB palette colour.
pub open spec fn channel(color: u32, c: int) -> u8 {
    if c == 0 {
        ((color / 0x10000) % 0x100) as u8
    } else if c == 1 {
        ((color / 0x100) % 0x100) as u8
    } else if c == 2 {
        (color % 0x100) as u8
    } else {
        (color / 0x1000000) as u8
    }
}

/// Byte `c` of canvas pixel `(x, y)` after composing `rect`: the RGBA bytes of
/// its palette colour where the rectangle covers the pixel with an index
/// below its colour count, else the byte before.
pub open spec fn composed_byte(
    before: Seq<u8>,
    cw: int,
    ch: int,
    rect: BitmapRect,
    indices: Seq<u8>,
    palette: Seq<u32>,
    x: int,
    y: int,
    c: int,
) -> u8 {
    if covers(cw, ch, rect, x, y) && index_at(rect, indices, x, y) < rect.color_count {
        channel(palette[index_at(rect, indices, x, y)], c)
    } else {
        before[(y * cw + x) * 4 + c]
    }
}

/// Byte offset `(y * cw + x) * 4 + c` names one canvas byte only.
pub proof fn lemma_byte_offset_unique(cw: int, x: int, y: int, c: int, x2: int, y2: int, c2: int)
    requires
        0 <= x < cw,
        0 <= x2 < cw,
        0 <= y,
        0 <= y2,
        0 <= c < 4,
        0 <= c2 < 4,
        (y * cw + x) * 4 + c == (y2 * cw + x2) * 4 + c2,
    ensures
        x == x2 && y == y2 && c == c2,
{
    assert(y * cw + x == y2 * cw + x2 && c == c2) by (nonlinear_arith)
        requires
            0 <= x < cw, 0 <= x2 < cw, 0 <= y, 0 <= y2, 0 <= c < 4, 0 <= c2 < 4,
            (y * cw + x) * 4 + c == (y2 * cw + x2) * 4 + c2;
    if y < y2 {
        assert(y * cw + cw <= y2 * cw) by (nonlinear_arith) requires y < y2, 0 < cw;
    } else if y2 < y {
        assert(y2 * cw + cw <= y * cw) by (nonlinear_arith) requires y2 < y, 0 < cw;
    }
}

/// The byte offset of a canvas pixel lies inside the canvas.
pub proof fn lemma_byte_offset_inside(cw: int, ch: int, x: int, y: int, c: int)
    requires
        0 <= x < cw,
        0 <= y < ch,
        0 <= c < 4,
    ensures
        0 <= (y * cw + x) * 4 + c < 4 * cw * ch,
{
    assert(0 <= (y * cw + x) * 4 + c < 4 * cw * ch) by (nonlinear_arith)
        requires 0 <= x < cw, 0 <= y < ch, 0 <= c < 4;
}


/// Offset of byte `c` of canvas pixel `(x, y)`.
pub open spec fn byte_at(cw: int, x: int, y: int, c: int) -> int {
    (y * cw + x) * 4 + c
}

/// The canvas with rows before `row`, and columns before `column` of `row`,
/// composed; the rest as before.
pub open spec fn composed_until(
    before: Seq<u8>,
    cw: int,
    ch: int,
    rect: BitmapRect,
    indices: Seq<u8>,
    palette: Seq<u32>,
    row: int,
    column: int,
    x: int,
    y: int,
    c: int,
) -> u8 {
    if y < row || (y == row && x < column) {
        composed_byte(before, cw, ch, rect, indices, palette, x, y, c)
    } else {
        before[byte_at(cw, x, y, c)]
    }
}

/// Paints `rect` onto an RGBA canvas `canvas_width` x `canvas_height`: each
/// canvas pixel the rectangle covers takes the RGBA bytes of its ARGB palette
/// colour, unless its index is not below the colour count. A rectangle
/// without a size or row stride is skipped; returns whether it was drawn.
pub fn compose_bitmap_rect(
    canvas_width: i32,
    canvas_height: i32,
    rect: &BitmapRect,
    indices: &[u8],
    palette: &[u32],
    bitmap: &mut Vec<u8>,
) -> (drawn: bool)
    requires
        0 <= canvas_width,
        0 <= canvas_height,
        old(bitmap)@.len() == 4 * canvas_width * canvas_height,
        old(bitmap)@.len() <= BITMAP_LIMIT,
        rect_drawn(*rect) ==> indices@.len() >= rect.line_size * (rect.height - 1) + rect.width,
        palette@.len() >= rect.color_count,
    ensures
        drawn == rect_drawn(*rect),
        final(bitmap)@.len() == old(bitmap)@.len(),
        forall|x: int, y: int, c: int|
            0 <= x < canvas_width && 0 <= y < canvas_height && 0 <= c < 4 ==> #[trigger] final(bitmap)@[byte_at(
                canvas_width as int,
                x,
                y,
                c,
            )] == composed_byte(
                old(bitmap)@,
                canvas_width as int,
                canvas_height as int,
                *rect,
                indices@,
                palette@,
                x,
                y,
                c,
            ),
{
    let ghost before = bitmap@;
    let ghost cw = canvas_width as int;
    let ghost ch = canvas_height as int;
    if rect.width <= 0 || rect.height <= 0 || rect.line_size <= 0 {
        return false;
    }
    let cwl = canvas_width as i64;
    let chl = canvas_height as i64;
    let x0 = if (rect.x as i64) < 0 { 0 } else if rect.x as i64 > cwl { cwl } else { rect.x as i64 };
    let y0 = if (rect.y as i64) < 0 { 0 } else if rect.y as i64 > chl { chl } else { rect.y as i64 };
    let xe = rect.x as i64 + rect.width as i64;
    let ye = rect.y as i64 + rect.height as i64;
    let x1 = if xe < 0 { 0 } else if xe > cwl { cwl } else { xe };
    let y1 = if ye < 0 { 0 } else if ye > chl { chl } else { ye };
    let mut row: i64 = y0;
    proof {
        assert forall|x: int, y: int, c: int|
            0 <= x < cw && 0 <= y < ch && 0 <= c < 4 implies #[trigger] bitmap@[byte_at(cw, x, y, c)]
            == composed_until(before, cw, ch, *rect, indices@, palette@, row as int, 0, x, y, c) by {
            lemma_byte_offset_inside(cw, ch, x, y, c);
        }
    }
    while row < y1
        invariant
            0 <= y0 <= row,
            row <= y1 || y1 <= y0,
            x0 == clamp_spec(rect.x as int, cw),
            x1 == clamp_spec(rect.x + rect.width, cw),
            y0 == clamp_spec(rect.y as int, ch),
            y1 == clamp_spec(rect.y + rect.height, ch),
            cwl == cw,
            chl == ch,
            cw == canvas_width,
            ch == canvas_height,
            0 <= cw,
            0 <= ch,
            rect_drawn(*rect),
            indices@.len() >= rect.line_size * (rect.height - 1) + rect.width,
            palette@.len() >= rect.color_count,
            before.len() == 4 * cw * ch,
            before.len() <= BITMAP_LIMIT,
            bitmap@.len() == before.len(),
            forall|x: int, y: int, c: int|
                0 <= x < cw && 0 <= y < ch && 0 <= c < 4 ==> #[trigger] bitmap@[byte_at(cw, x, y, c)]
                    == composed_until(before, cw, ch, *rect, indices@, palette@, row as int, 0, x, y, c),
        decreases y1 - row,
    {
        let mut column: i64 = x0;
        proof {
            assert forall|x: int, y: int, c: int|
                0 <= x < cw && 0 <= y < ch && 0 <= c < 4 implies #[trigger] bitmap@[byte_at(cw, x, y, c)]
                == composed_until(before, cw, ch, *rect, indices@, palette@, row as int, column as int, x, y, c) by {
            }
        }
        while column < x1
            invariant
                0 <= y0 <= row < y1,
                x0 <= column,
                column <= x1 || x1 <= x0,
                x0 == clamp_spec(rect.x as int, cw),
                x1 == clamp_spec(rect.x + rect.width, cw),
                y0 == clamp_spec(rect.y as int, ch),
                y1 == clamp_spec(rect.y + rect.height, ch),
                cwl == cw,
                chl == ch,
                cw == canvas_width,
                ch == canvas_height,
                0 <= cw,
                0 <= ch,
                rect_drawn(*rect),
                indices@.len() >= rect.line_size * (rect.height - 1) + rect.width,
                palette@.len() >= rect.color_count,
                before.len() == 4 * cw * ch,
                before.len() <= BITMAP_LIMIT,
                bitmap@.len() == before.len(),
                forall|x: int, y: int, c: int|
                    0 <= x < cw && 0 <= y < ch && 0 <= c < 4 ==> #[trigger] bitmap@[byte_at(cw, x, y, c)]
                        == composed_until(before, cw, ch, *rect, indices@, palette@, row as int, column as int, x, y, c),
            decreases x1 - column,
        {
            let dy = row - rect.y as i64;
            let dx = column - rect.x as i64;
            let ls = rect.line_size as i64;
            assert(0 <= dy * ls <= (rect.height - 1) * ls <= 0x7fff_ffff * 0x7fff_ffff) by (nonlinear_arith)
                requires 0 <= dy <= rect.height - 1, 0 < ls <= 0x7fff_ffff, rect.height <= 0x7fff_ffff;
            assert(0 <= dx < rect.width);
            assert((rect.height - 1) * ls == rect.line_size * (rect.height - 1)) by (nonlinear_arith)
                requires ls == rect.line_size;
            let source = (dy * ls + dx) as usize;
            let index = indices[source];
            if (index as i32) < rect.color_count {
                let color = palette[index as usize];
                proof {
                    lemma_byte_offset_inside(cw, ch, column as int, row as int, 3);
                }
                let base = ((row * cwl + column) * 4) as usize;
                let ghost previous = bitmap@;
                bitmap[base] = ((color / 0x10000) % 0x100) as u8;
                bitmap[base + 1] = ((color / 0x100) % 0x100) as u8;
                bitmap[base + 2] = (color % 0x100) as u8;
                bitmap[base + 3] = (color / 0x1000000) as u8;
                proof {
                    assert forall|x: int, y: int, c: int|
                        0 <= x < cw && 0 <= y < ch && 0 <= c < 4 implies #[trigger] bitmap@[byte_at(cw, x, y, c)]
                        == composed_until(before, cw, ch, *rect, indices@, palette@, row as int, column + 1, x, y, c) by {
                        lemma_byte_offset_inside(cw, ch, x, y, c);
                        if x == column && y == row {
                            assert(byte_at(cw, x, y, c) == base + c);
                            assert(index_at(*rect, indices@, x, y) == index as int);
                            assert(covers(cw, ch, *rect, x, y));
                            if c == 0 {
                                assert(bitmap@[base + c] == channel(color, c));
                            } else if c == 1 {
                                assert(bitmap@[base + c] == channel(color, c));
                            } else if c == 2 {
                                assert(bitmap@[base + c] == channel(color, c));
                            } else {
                                assert(bitmap@[base + c] == channel(color, c));
                            }
                        } else {
                            let i = byte_at(cw, x, y, c);
                            if base <= i < base + 4 {
                                lemma_byte_offset_unique(cw, x, y, c, column as int, row as int, i - base);
                            }
                            assert(bitmap@[byte_at(cw, x, y, c)] == previous[byte_at(cw, x, y, c)]);
                        }
                    }
                }
            } else {
                proof {
                    assert forall|x: int, y: int, c: int|
                        0 <= x < cw && 0 <= y < ch && 0 <= c < 4 implies #[trigger] bitmap@[byte_at(cw, x, y, c)]
                        == composed_until(before, cw, ch, *rect, indices@, palette@, row as int, column + 1, x, y, c) by {
                    }
                }
            }
            column = column + 1;
        }
        proof {
            assert forall|x: int, y: int, c: int|
                0 <= x < cw && 0 <= y < ch && 0 <= c < 4 implies #[trigger] bitmap@[byte_at(cw, x, y, c)]
                == composed_until(before, cw, ch, *rect, indices@, palette@, row + 1, 0, x, y, c) by {
            }
        }
        row = row + 1;
    }
    proof {
        assert forall|x: int, y: int, c: int|
            0 <= x < cw && 0 <= y < ch && 0 <= c < 4 implies #[trigger] bitmap@[byte_at(cw, x, y, c)]
            == composed_byte(before, cw, ch, *rect, indices@, palette@, x, y, c) by {
        }
    }
    true
}


/// The non-empty texts of `texts`, in order.
pub open spec fn shown_texts(texts: Seq<Seq<char>>) -> Seq<Seq<char>>
    decreases texts.len(),
{
    if texts.len() == 0 {
        Seq::empty()
    } else {
        let kept = shown_texts(texts.drop_last());
        if texts.last().len() > 0 {
            kept.push(texts.last())
        } else {
            kept
        }
    }
}

/// The content of a cue: the composed bitmap when a rectangle was drawn,
/// else its non-empty texts one per line, else nothing.
pub fn subtitle_content(bitmap: Option<(i32, i32, Vec<u8>)>, texts: Vec<String>) -> (r: SubtitleContent)
    ensures
        match bitmap {
            Some((w, h, p)) => r matches SubtitleContent::Bitmap { width, height, pixels } && width == w
                && height == h && pixels@ == p@,
            None => {
                let shown = shown_texts(texts@.map_values(|t: String| t@));
                if shown.len() > 0 {
                    r matches SubtitleContent::Text(t) && t@ == join_lines(shown)
                } else {
                    r is Clear
                }
            },
        },
{
    match bitmap {
        Some((width, height, pixels)) => SubtitleContent::Bitmap { width, height, pixels },
        None => {
            let ghost views = texts@.map_values(|t: String| t@);
            let mut lines: Vec<Vec<char>> = Vec::new();
            let mut i: usize = 0;
            while i < texts.len()
                invariant
                    i <= texts@.len(),
                    views == texts@.map_values(|t: String| t@),
                    lines@.map_values(|l: Vec<char>| l@) == shown_texts(views.subrange(0, i as int)),
                decreases texts@.len() - i,
            {
                let line = chars_of(texts[i].as_str());
                proof {
                    assert(views.subrange(0, i + 1).drop_last() == views.subrange(0, i as int));
                }
                if line.len() > 0 {
                    lines.push(line);
                    proof {
                        assert(lines@.map_values(|l: Vec<char>| l@) =~= shown_texts(views.subrange(0, i as int)).push(views[i as int]));
                    }
                }
                i = i + 1;
            }
            proof {
                assert(views.subrange(0, texts@.len() as int) == views);
            }
            if lines.len() > 0 {
                let joined = join_with_newlines(&lines);
                SubtitleContent::Text(string_of(joined.as_slice()))
            } else {
                SubtitleContent::Clear
            }
        },
    }
}

} // verus!

verus! {

/// Text with no brace and no backslash is cleaned on its own: what follows
/// it is cleaned as if it stood alone.
pub proof fn lemma_clean_plain_prefix(a: Seq<char>, b: Seq<char>, in_override: bool)
    requires
        forall|i: int| 0 <= i < a.len() ==> #[trigger] a[i] != '{' && a[i] != '}' && a[i] != '\\',
    ensures
        clean_spec(a + b, in_override) == clean_spec(a, in_override) + clean_spec(b, in_override),
    decreases a.len(),
{
    if a.len() == 0 {
        assert(a + b =~= b);
        assert(clean_spec(a, in_override) + clean_spec(b, in_override) =~= clean_spec(b, in_override));
    } else {
        let rest = a.drop_first();
        assert forall|i: int| 0 <= i < rest.len() implies #[trigger] rest[i] != '{' && rest[i] != '}' && rest[i]
            != '\\' by {
            assert(rest[i] == a[i + 1]);
        }
        lemma_clean_plain_prefix(rest, b, in_override);
        assert((a + b)[0] == a[0]);
        assert((a + b).drop_first() =~= rest + b);
        let c = a[0];
        assert(c != '{' && c != '}' && c != '\\');
        let tail_ab = clean_spec(rest + b, in_override);
        let tail_a = clean_spec(rest, in_override);
        let cb = clean_spec(b, in_override);
        assert(tail_ab == tail_a + cb);
        if c == '\0' {
        } else if c == '\u{2019}' || c == '\u{2018}' {
            assert(seq!['\''] + (tail_a + cb) =~= (seq!['\''] + tail_a) + cb);
        } else if c == '\u{201c}' || c == '\u{201d}' {
            assert(seq!['"'] + (tail_a + cb) =~= (seq!['"'] + tail_a) + cb);
        } else if c == '\u{2013}' || c == '\u{2014}' {
            assert(seq!['-'] + (tail_a + cb) =~= (seq!['-'] + tail_a) + cb);
        } else if !in_override && is_whitespace_spec(c) {
            assert(seq![' '] + (tail_a + cb) =~= (seq![' '] + tail_a) + cb);
        } else if !in_override && !is_control_spec(c) {
            assert(seq![c] + (tail_a + cb) =~= (seq![c] + tail_a) + cb);
        }
    }
}

/// Outside an override block the ASS hard space `\h` is exactly one space
/// between the text around it.
pub proof fn lemma_hard_space(a: Seq<char>, b: Seq<char>)
    requires
        forall|i: int| 0 <= i < a.len() ==> #[trigger] a[i] != '{' && a[i] != '}' && a[i] != '\\',
    ensures
        clean_spec(a + seq!['\\', 'h'] + b, false) == clean_spec(a, false) + seq![' '] + clean_spec(b, false),
{
    let hb = seq!['\\', 'h'] + b;
    assert(a + seq!['\\', 'h'] + b =~= a + hb);
    lemma_clean_plain_prefix(a, hb, false);
    assert(hb[0] == '\\');
    assert(hb.drop_first()[0] == 'h');
    assert(hb.drop_first().drop_first() =~= b);
    assert(clean_spec(hb, false) == seq![' '] + clean_spec(b, false));
    assert(clean_spec(a, false) + (seq![' '] + clean_spec(b, false)) =~= clean_spec(a, false) + seq![' ']
        + clean_spec(b, false));
}

} // verus!
