//! Media labels: tags, bit rates, colour information and window titles.
use crate::text::{
    str_view, string_view,
    ascii_lower, ascii_lower_spec, chars_of, decimal, decimal_spec, is_control, is_control_spec,
    is_whitespace, is_whitespace_spec, join_lines, join_with_newlines, push_chars, push_str,
    string_of, to_uppercase, uppercase_seq,
};
use vstd::prelude::*;

verus! {

/// The words of `s` (maximal runs without white space) separated by single
/// spaces; `need_space` and `started` carry the state between characters.
pub open spec fn squash_spec(s: Seq<char>, need_space: bool, started: bool) -> Seq<char>
    decreases s.len(),
{
    if s.len() == 0 {
        Seq::empty()
    } else if is_whitespace_spec(s[0]) {
        squash_spec(s.drop_first(), started, started)
    } else {
        (if need_space {
            seq![' ']
        } else {
            Seq::empty()
        }) + seq![s[0]] + squash_spec(s.drop_first(), false, true)
    }
}

/// `s` without control characters.
pub open spec fn drop_controls_spec(s: Seq<char>) -> Seq<char>
    decreases s.len(),
{
    if s.len() == 0 {
        Seq::empty()
    } else if is_control_spec(s.last()) {
        drop_controls_spec(s.drop_last())
    } else {
        drop_controls_spec(s.drop_last()).push(s.last())
    }
}

/// Tag text on one line: words joined by single spaces, without controls.
pub open spec fn single_line_spec(s: Seq<char>) -> Seq<char> {
    drop_controls_spec(squash_spec(s, false, false))
}

/// The words of `s` joined by single spaces.
pub fn squash_whitespace(s: &Vec<char>) -> (r: Vec<char>)
    ensures
        r@ == squash_spec(s@, false, false),
{
    let mut out: Vec<char> = Vec::new();
    let mut need_space = false;
    let mut started = false;
    let mut i: usize = 0;
    assert(s@.subrange(0, s@.len() as int) == s@);
    while i < s.len()
        invariant
            0 <= i <= s@.len(),
            squash_spec(s@, false, false) == out@ + squash_spec(
                s@.subrange(i as int, s@.len() as int),
                need_space,
                started,
            ),
        decreases s@.len() - i,
    {
        proof {
            assert(s@.subrange(i as int, s@.len() as int).drop_first() == s@.subrange(
                i + 1,
                s@.len() as int,
            ));
        }
        let c = s[i];
        if is_whitespace(c) {
            need_space = started;
        } else {
            if need_space {
                out.push(' ');
            }
            out.push(c);
            need_space = false;
            started = true;
        }
        i = i + 1;
    }
    proof {
        assert(s@.subrange(s@.len() as int, s@.len() as int) == Seq::<char>::empty());
    }
    out
}

fn drop_controls(s: &Vec<char>) -> (r: Vec<char>)
    ensures
        r@ == drop_controls_spec(s@),
{
    let mut out: Vec<char> = Vec::new();
    let mut i: usize = 0;
    while i < s.len()
        invariant
            0 <= i <= s@.len(),
            out@ == drop_controls_spec(s@.subrange(0, i as int)),
        decreases s@.len() - i,
    {
        proof {
            assert(s@.subrange(0, i + 1).drop_last() == s@.subrange(0, i as int));
        }
        if !is_control(s[i]) {
            out.push(s[i]);
        }
        i = i + 1;
    }
    proof {
        assert(s@.subrange(0, s@.len() as int) == s@);
    }
    out
}

/// Puts tag text on one line: white-space runs become single spaces, leading
/// and trailing white space goes, and control characters are removed.
pub fn single_line_metadata(text: &str) -> (r: String)
    ensures
        r@ == single_line_spec(text@),
{
    let chars = chars_of(text);
    let squashed = squash_whitespace(&chars);
    let kept = drop_controls(&squashed);
    string_of(kept.as_slice())
}

/// `s` is "unknown" in any ASCII letter case.
pub open spec fn is_unknown_spec(s: Seq<char>) -> bool {
    s.len() == 7 && forall|i: int| 0 <= i < 7 ==> ascii_lower_spec(#[trigger] s[i]) == "unknown"@[i]
}

fn is_unknown(s: &str) -> (r: bool)
    ensures
        r == is_unknown_spec(s@),
{
    let chars = chars_of(s);
    let word = chars_of("unknown");
    proof {
        reveal_strlit("unknown");
    }
    assert(word@.len() == 7);
    if chars.len() != 7 {
        return false;
    }
    let mut i: usize = 0;
    while i < 7
        invariant
            0 <= i <= 7,
            chars@ == s@,
            chars@.len() == 7,
            word@ == "unknown"@,
            word@.len() == 7,
            forall|j: int| 0 <= j < i ==> ascii_lower_spec(#[trigger] chars@[j]) == "unknown"@[j],
        decreases 7 - i,
    {
        if ascii_lower(chars[i]) != word[i] {
            return false;
        }
        i = i + 1;
    }
    true
}

/// An artist tag, unless it is absent or says "unknown".
pub open spec fn present_artist_spec(artist: Option<Seq<char>>) -> Option<Seq<char>> {
    match artist {
        Some(a) => if is_unknown_spec(a) {
            None
        } else {
            Some(a)
        },
        None => None,
    }
}

/// Drops an artist tag that only says "unknown" (in any ASCII case).
pub fn present_artist(artist: Option<String>) -> (r: Option<String>)
    ensures
        string_view(r) == present_artist_spec(string_view(artist)),
{
    match artist {
        Some(a) => if is_unknown(a.as_str()) {
            None
        } else {
            Some(a)
        },
        None => None,
    }
}

/// A tag as shown: on one line, and absent when nothing is left.
pub open spec fn tag_spec(raw: Option<Seq<char>>) -> Option<Seq<char>> {
    match raw {
        Some(text) => if single_line_spec(text).len() == 0 {
            None
        } else {
            Some(single_line_spec(text))
        },
        None => None,
    }
}

fn tag(raw: Option<&str>) -> (r: Option<String>)
    ensures
        string_view(r) == tag_spec(str_view(raw)),
{
    match raw {
        Some(text) => {
            let line = single_line_metadata(text);
            if line.as_str().is_empty() {
                None
            } else {
                Some(line)
            }
        },
        None => None,
    }
}

/// Embedded title and artist tags of the media.
pub struct MediaMetadata {
    pub title: Option<String>,
    pub artist: Option<String>,
}

/// `TITLE:`, `ARTIST:` and chapter lines of the metadata panel.
pub open spec fn metadata_lines(
    title: Option<Seq<char>>,
    artist: Option<Seq<char>>,
    chapter: Option<Seq<char>>,
) -> Seq<Seq<char>> {
    let lines = match title {
        Some(t) => seq!["TITLE: "@ + uppercase_seq(t)],
        None => Seq::empty(),
    };
    let lines = match artist {
        Some(a) => lines.push("ARTIST: "@ + uppercase_seq(a)),
        None => lines,
    };
    match chapter {
        Some(c) => lines.push(c),
        None => lines,
    }
}

impl MediaMetadata {
    /// Builds the tags from the raw container values: each is put on one
    /// line and dropped when empty; an "unknown" artist is dropped too.
    pub fn from_tags(title: Option<&str>, artist: Option<&str>) -> (r: Self)
        ensures
            string_view(r.title) == tag_spec(str_view(title)),
            string_view(r.artist) == present_artist_spec(
                tag_spec(str_view(artist)),
            ),
    {
        MediaMetadata { title: tag(title), artist: present_artist(tag(artist)) }
    }

    pub fn title(&self) -> (r: Option<&str>)
        ensures
            str_view(r) == string_view(self.title),
    {
        match &self.title {
            Some(title) => Some(title.as_str()),
            None => None,
        }
    }

    pub fn artist(&self) -> (r: Option<&str>)
        ensures
            str_view(r) == string_view(self.artist),
    {
        match &self.artist {
            Some(artist) => Some(artist.as_str()),
            None => None,
        }
    }

    /// The metadata panel: upper-case title and artist lines, then the
    /// chapter label, joined by newlines.
    pub fn overlay_text(&self, chapter: Option<&str>) -> (r: String)
        ensures
            r@ == join_lines(
                metadata_lines(
                    string_view(self.title),
                    string_view(self.artist),
                    str_view(chapter),
                ),
            ),
    {
        let mut lines: Vec<Vec<char>> = Vec::new();
        if let Some(title) = &self.title {
            let mut line = chars_of("TITLE: ");
            let upper = to_uppercase(chars_of(title.as_str()).as_slice());
            push_chars(&mut line, upper.as_slice());
            lines.push(line);
        }
        if let Some(artist) = &self.artist {
            let mut line = chars_of("ARTIST: ");
            let upper = to_uppercase(chars_of(artist.as_str()).as_slice());
            push_chars(&mut line, upper.as_slice());
            lines.push(line);
        }
        if let Some(chapter) = chapter {
            lines.push(chars_of(chapter));
        }
        proof {
            let views = lines@.map_values(|l: Vec<char>| l@);
            assert(views == metadata_lines(
                string_view(self.title),
                string_view(self.artist),
                str_view(chapter),
            ));
        }
        string_of(join_with_newlines(&lines).as_slice())
    }
}

} // verus!

verus! {

/// Nearest integer to `n / d`, ties to even.
pub open spec fn round_half_even(n: int, d: int) -> int {
    let q = n / d;
    let r = n % d;
    if 2 * r > d || (2 * r == d && q % 2 == 1) {
        q + 1
    } else {
        q
    }
}

fn round_half_even_exec(n: u64, d: u64) -> (r: u64)
    requires
        d > 0,
        n <= i64::MAX,
        d <= 1_000_000,
    ensures
        r == round_half_even(n as int, d as int),
{
    let q = n / d;
    let r = n % d;
    if 2 * r > d || (2 * r == d && q % 2 == 1) {
        q + 1
    } else {
        q
    }
}

/// `2^e`.
pub open spec fn two_pow(e: nat) -> nat
    decreases e,
{
    if e == 0 {
        1
    } else {
        2 * two_pow((e - 1) as nat)
    }
}

/// `floor(log2(n))`, and 0 for `n < 2`.
pub open spec fn floor_log2(n: nat) -> nat
    decreases n,
{
    if n < 2 {
        0
    } else {
        1 + floor_log2(n / 2)
    }
}

/// The tenths shown when the nearest double to `n / 10^6` (`n` at least
/// `10^6`) is formatted with one decimal. Away from a tie it is the nearest
/// tenth. At an exact tie the double decides: when `n / 10^6` is a dyadic
/// number the double equals it and the tie goes to the even tenth; otherwise
/// the double lies above the tie exactly when the bits beyond its 53-bit
/// mantissa, `n * 2^(52 - floor(log2(n / 10^6)))` modulo `10^6`, exceed half.
pub open spec fn megabit_tenths(n: int) -> int {
    let q = n / 100_000;
    let r = n % 100_000;
    if r > 50_000 {
        q + 1
    } else if r < 50_000 {
        q
    } else if n % 15_625 == 0 {
        if q % 2 == 1 { q + 1 } else { q }
    } else if (n * two_pow((52 - floor_log2((n / 1_000_000) as nat)) as nat)) % 1_000_000 > 500_000 {
        q + 1
    } else {
        q
    }
}

fn megabit_tenths_exec(n: u64) -> (r: u64)
    requires
        1_000_000 <= n <= i64::MAX,
    ensures
        r == megabit_tenths(n as int),
{
    let q = n / 100_000;
    let rem = n % 100_000;
    if rem > 50_000 {
        return q + 1;
    }
    if rem < 50_000 {
        return q;
    }
    if n % 15_625 == 0 {
        return if q % 2 == 1 { q + 1 } else { q };
    }
    let mut m: u64 = n / 1_000_000;
    let mut log: u64 = 0;
    assert(two_pow(0) == 1);
    while m >= 2
        invariant
            1_000_000 <= n <= i64::MAX,
            1 <= m,
            log + floor_log2(m as nat) == floor_log2((n / 1_000_000) as nat),
            m * two_pow(log as nat) <= n / 1_000_000,
            log <= 43,
        decreases m,
    {
        assert(two_pow((log + 1) as nat) == 2 * two_pow(log as nat));
        assert((m / 2) * two_pow((log + 1) as nat) <= m * two_pow(log as nat)) by (nonlinear_arith)
            requires two_pow((log + 1) as nat) == 2 * two_pow(log as nat), m >= 2;
        assert(two_pow(log as nat) <= m * two_pow(log as nat)) by (nonlinear_arith)
            requires m >= 1;
        m = m / 2;
        log = log + 1;
        proof {
            lemma_two_pow_grows(log as nat);
            assert(two_pow(log as nat) <= m * two_pow(log as nat)) by (nonlinear_arith)
                requires m >= 1;
            assert(n / 1_000_000 < 0x1000_0000_0000);
            assert(m * two_pow(log as nat) <= n / 1_000_000);
            if log > 43 {
                lemma_two_pow_monotone(44, log as nat);
                lemma_two_pow_44();
            }
        }
    }
    let e = 52 - log;
    let mut p: u128 = 1;
    let mut k: u64 = 0;
    while k < e
        invariant
            k <= e,
            e <= 52,
            p == two_pow(k as nat),
            p <= 0x10_0000_0000_0000,
        decreases e - k,
    {
        proof {
            lemma_two_pow_monotone((k + 1) as nat, 52);
            lemma_two_pow_52();
        }
        p = p * 2;
        k = k + 1;
    }
    assert((n as u128) * p <= 0x8000_0000_0000_0000u128 * 0x10_0000_0000_0000u128) by (nonlinear_arith)
        requires n <= 0x8000_0000_0000_0000u128, p <= 0x10_0000_0000_0000u128;
    let bits = (n as u128) * p;
    if bits % 1_000_000 > 500_000 {
        q + 1
    } else {
        q
    }
}

/// `2^e` is at least 1 and doubles each step.
proof fn lemma_two_pow_grows(e: nat)
    ensures
        two_pow(e) >= 1,
    decreases e,
{
    if e > 0 {
        lemma_two_pow_grows((e - 1) as nat);
    }
}

proof fn lemma_two_pow_monotone(a: nat, b: nat)
    requires
        a <= b,
    ensures
        two_pow(a) <= two_pow(b),
    decreases b - a,
{
    if a < b {
        lemma_two_pow_monotone(a, (b - 1) as nat);
        lemma_two_pow_grows((b - 1) as nat);
    }
}

proof fn lemma_two_pow_44()
    ensures
        two_pow(44) == 0x1000_0000_0000,
{
    reveal_with_fuel(two_pow, 45);
}

proof fn lemma_two_pow_52()
    ensures
        two_pow(52) == 0x10_0000_0000_0000,
{
    reveal_with_fuel(two_pow, 53);
}

/// A bit rate in compact overlay units: megabits with one decimal (as a
/// double is formatted), kilobits, or bits per second; `UNKNOWN` when not
/// positive.
pub open spec fn format_bitrate_spec(bits_per_second: i64) -> Seq<char> {
    if bits_per_second >= 1_000_000 {
        let tenths = megabit_tenths(bits_per_second as int);
        decimal_spec((tenths / 10) as nat) + "."@ + decimal_spec((tenths % 10) as nat)
            + " MBPS"@
    } else if bits_per_second >= 1_000 {
        decimal_spec(round_half_even(bits_per_second as int, 1_000) as nat) + " KBPS"@
    } else if bits_per_second > 0 {
        decimal_spec(bits_per_second as nat) + " BPS"@
    } else {
        "UNKNOWN"@
    }
}

fn format_bitrate_chars(bits_per_second: i64) -> (r: Vec<char>)
    ensures
        r@ == format_bitrate_spec(bits_per_second),
{
    if bits_per_second >= 1_000_000 {
        let tenths = megabit_tenths_exec(bits_per_second as u64);
        let mut out = decimal(tenths / 10);
        push_str(&mut out, ".");
        let fraction = decimal(tenths % 10);
        push_chars(&mut out, fraction.as_slice());
        push_str(&mut out, " MBPS");
        out
    } else if bits_per_second >= 1_000 {
        let mut out = decimal(round_half_even_exec(bits_per_second as u64, 1_000));
        push_str(&mut out, " KBPS");
        out
    } else if bits_per_second > 0 {
        let mut out = decimal(bits_per_second as u64);
        push_str(&mut out, " BPS");
        out
    } else {
        chars_of("UNKNOWN")
    }
}

/// Formats a bit rate for the overlay, e.g. `18.8 MBPS` or `192 KBPS`.
pub fn format_bitrate(bits_per_second: i64) -> (r: String)
    ensures
        r@ == format_bitrate_spec(bits_per_second),
{
    string_of(format_bitrate_chars(bits_per_second).as_slice())
}

/// The video bit rate to show: the stream's declared rate, else a positive
/// metadata rate, else the container rate marked as such, else `UNKNOWN`.
pub open spec fn format_video_bitrate_spec(declared: i64, metadata: Option<i64>, container: i64) -> Seq<
    char,
> {
    if declared > 0 {
        format_bitrate_spec(declared)
    } else if metadata matches Some(m) && m > 0 {
        format_bitrate_spec(metadata->0)
    } else if container > 0 {
        format_bitrate_spec(container) + " (CONTAINER)"@
    } else {
        "UNKNOWN"@
    }
}

pub fn format_video_bitrate(declared: i64, metadata: Option<i64>, container: i64) -> (r: String)
    ensures
        r@ == format_video_bitrate_spec(declared, metadata, container),
{
    if declared > 0 {
        return format_bitrate(declared);
    }
    if let Some(value) = metadata {
        if value > 0 {
            return format_bitrate(value);
        }
    }
    if container > 0 {
        let mut out = format_bitrate_chars(container);
        push_str(&mut out, " (CONTAINER)");
        string_of(out.as_slice())
    } else {
        string_of(chars_of("UNKNOWN").as_slice())
    }
}

/// A colour property name, `UNKNOWN` when absent, marked when assumed.
pub open spec fn mark_assumed_spec(name: Option<Seq<char>>, assumed: bool) -> Seq<char> {
    let name = match name {
        Some(n) => n,
        None => "UNKNOWN"@,
    };
    if assumed {
        name + " (ASSUMED)"@
    } else {
        name
    }
}

pub fn mark_assumed(name: Option<String>, assumed: bool) -> (r: String)
    ensures
        r@ == mark_assumed_spec(string_view(name), assumed),
{
    let mut out = match &name {
        Some(n) => chars_of(n.as_str()),
        None => chars_of("UNKNOWN"),
    };
    if assumed {
        push_str(&mut out, " (ASSUMED)");
    }
    string_of(out.as_slice())
}

/// The HDR line: PQ and HLG are HDR; an assumed SDR transfer is marked.
pub open spec fn hdr_status_spec(kind: u32, assumed: bool) -> Seq<char> {
    if kind == crate::ffi::UpHdrKind_UP_HDR_KIND_PQ {
        "YES (PQ)"@
    } else if kind == crate::ffi::UpHdrKind_UP_HDR_KIND_HLG {
        "YES (HLG)"@
    } else if kind == crate::ffi::UpHdrKind_UP_HDR_KIND_UNKNOWN {
        "UNKNOWN"@
    } else if kind == crate::ffi::UpHdrKind_UP_HDR_KIND_SDR && assumed {
        "NO (ASSUMED)"@
    } else {
        "NO"@
    }
}

pub fn hdr_status(kind: u32, assumed: bool) -> (r: &'static str)
    ensures
        r@ == hdr_status_spec(kind, assumed),
{
    if kind == crate::ffi::UpHdrKind_UP_HDR_KIND_PQ {
        "YES (PQ)"
    } else if kind == crate::ffi::UpHdrKind_UP_HDR_KIND_HLG {
        "YES (HLG)"
    } else if kind == crate::ffi::UpHdrKind_UP_HDR_KIND_UNKNOWN {
        "UNKNOWN"
    } else if kind == crate::ffi::UpHdrKind_UP_HDR_KIND_SDR && assumed {
        "NO (ASSUMED)"
    } else {
        "NO"
    }
}

} // verus!

verus! {

/// What `Path::file_stem` yields for `path`, kept only when it is UTF-8.
pub uninterp spec fn file_stem_of(path: Seq<char>) -> Option<Seq<char>>;

/// Calls `std::path::Path::file_stem` on `path` and keeps the stem when it
/// is valid UTF-8. The stem (the file name without its last extension) is
/// stated here only by name.
#[verifier::external_body]
fn file_stem(path: &str) -> (r: Option<String>)
    ensures
        string_view(r) == file_stem_of(path@),
{
    std::path::Path::new(path).file_stem().and_then(|stem| stem.to_str()).map(String::from)
}

/// A character allowed in a video id: ASCII letter or digit, `-` or `_`.
pub open spec fn id_char(c: char) -> bool {
    ('a' <= c <= 'z') || ('A' <= c <= 'Z') || ('0' <= c <= '9') || c == '-' || c == '_'
}

/// Start of the last `" ["` among the first `n` characters of `s`.
pub open spec fn last_open_bracket(s: Seq<char>, n: int) -> Option<int>
    decreases n,
{
    if n < 2 {
        None
    } else if s[n - 2] == ' ' && s[n - 1] == '[' {
        Some(n - 2)
    } else {
        last_open_bracket(s, n - 1)
    }
}

/// `stem` without a trailing `" [id]"` whose id is eleven id characters.
pub open spec fn strip_video_id(stem: Seq<char>) -> Seq<char> {
    if stem.len() >= 1 && stem.last() == ']' {
        let body = stem.drop_last();
        match last_open_bracket(body, body.len() as int) {
            Some(i) => {
                let id = body.subrange(i + 2, body.len() as int);
                if id.len() == 11 && (forall|j: int| 0 <= j < 11 ==> id_char(#[trigger] id[j])) {
                    body.subrange(0, i)
                } else {
                    stem
                }
            },
            None => stem,
        }
    } else {
        stem
    }
}

/// The media title from a file stem: a trailing video id is removed and the
/// words are joined by single spaces; the player name stands in for nothing.
pub open spec fn title_from_stem_spec(stem: Option<Seq<char>>) -> Seq<char> {
    let stem = match stem {
        Some(s) => s,
        None => "undefined-player"@,
    };
    let title = squash_spec(strip_video_id(stem), false, false);
    if title.len() == 0 {
        "undefined-player"@
    } else {
        title
    }
}

/// A media title is never empty.
pub proof fn lemma_title_not_empty(stem: Option<Seq<char>>)
    ensures
        title_from_stem_spec(stem).len() > 0,
{
    reveal_strlit("undefined-player");
}

/// Squashing output that is pending a space starts with that space.
proof fn lemma_squash_leading_space(s: Seq<char>)
    ensures
        squash_spec(s, true, true).len() > 0 ==> squash_spec(s, true, true)[0] == ' ',
    decreases s.len(),
{
    if s.len() > 0 && is_whitespace_spec(s[0]) {
        lemma_squash_leading_space(s.drop_first());
    }
}

/// Squashing white space twice changes nothing more.
proof fn lemma_squash_idempotent(s: Seq<char>, need_space: bool, started: bool)
    requires
        need_space ==> started,
    ensures
        squash_spec(squash_spec(s, need_space, started), need_space, started) == squash_spec(s, need_space, started),
    decreases s.len(),
{
    if s.len() == 0 {
    } else if is_whitespace_spec(s[0]) {
        lemma_squash_idempotent(s.drop_first(), started, started);
        let x = squash_spec(s.drop_first(), started, started);
        assert(squash_spec(s, need_space, started) == x);
        if started && x.len() > 0 {
            lemma_squash_leading_space(s.drop_first());
            assert(is_whitespace_spec(x[0]));
            assert(squash_spec(x, need_space, started) == squash_spec(x.drop_first(), started, started));
            assert(squash_spec(x, started, started) == squash_spec(x.drop_first(), started, started));
        } else if x.len() == 0 {
            assert(squash_spec(x, need_space, started) == Seq::<char>::empty());
        } else {
            assert(!need_space);
        }
    } else {
        let y = squash_spec(s.drop_first(), false, true);
        lemma_squash_idempotent(s.drop_first(), false, true);
        let tail = seq![s[0]] + y;
        assert(tail[0] == s[0]);
        assert(tail.drop_first() =~= y);
        if need_space {
            let out = seq![' '] + tail;
            assert(out =~= (if need_space { seq![' '] } else { Seq::empty() }) + seq![s[0]] + y);
            assert(out[0] == ' ');
            assert(is_whitespace_spec(' '));
            assert(out.drop_first() =~= tail);
            assert(squash_spec(out, true, started) == squash_spec(tail, true, true));
            assert(squash_spec(tail, true, true) == seq![' '] + seq![s[0]] + squash_spec(y, false, true));
            assert(squash_spec(out, need_space, started) =~= out);
        } else {
            assert(tail =~= (if need_space { seq![' '] } else { Seq::empty() }) + seq![s[0]] + y);
            assert(squash_spec(tail, false, started) == seq![s[0]] + squash_spec(y, false, true));
            assert(squash_spec(tail, need_space, started) =~= tail);
        }
    }
}

/// Text without white space squashes to itself.
proof fn lemma_squash_no_space(s: Seq<char>, started: bool)
    requires
        forall|i: int| 0 <= i < s.len() ==> !is_whitespace_spec(#[trigger] s[i]),
    ensures
        squash_spec(s, false, started) == s,
    decreases s.len(),
{
    if s.len() > 0 {
        lemma_squash_no_space(s.drop_first(), true);
        assert(seq![s[0]] + s.drop_first() =~= s);
    }
}

/// A media title is already in squashed form: squashing its white space
/// again gives it back.
pub proof fn lemma_title_is_squashed(stem: Option<Seq<char>>)
    ensures
        squash_spec(title_from_stem_spec(stem), false, false) == title_from_stem_spec(stem),
{
    reveal_strlit("undefined-player");
    let name = match stem {
        Some(s) => s,
        None => "undefined-player"@,
    };
    let title = squash_spec(strip_video_id(name), false, false);
    if title.len() == 0 {
        let fallback = "undefined-player"@;
        assert forall|i: int| 0 <= i < fallback.len() implies !is_whitespace_spec(#[trigger] fallback[i]) by {}
        lemma_squash_no_space(fallback, false);
    } else {
        lemma_squash_idempotent(strip_video_id(name), false, false);
    }
}

fn is_id_char(c: char) -> (r: bool)
    ensures
        r == id_char(c),
{
    ('a' <= c && c <= 'z') || ('A' <= c && c <= 'Z') || ('0' <= c && c <= '9') || c == '-' || c
        == '_'
}

fn find_last_open_bracket(s: &Vec<char>, n: usize) -> (r: Option<usize>)
    requires
        n <= s@.len(),
    ensures
        match r {
            Some(i) => last_open_bracket(s@, n as int) == Some(i as int),
            None => last_open_bracket(s@, n as int) is None,
        },
        r matches Some(i) ==> i + 2 <= n,
{
    let mut end = n;
    while end >= 2
        invariant
            end <= n <= s@.len(),
            last_open_bracket(s@, n as int) == last_open_bracket(s@, end as int),
        decreases end,
    {
        if s[end - 2] == ' ' && s[end - 1] == '[' {
            return Some(end - 2);
        }
        end = end - 1;
    }
    None
}

fn strip_id(stem: Vec<char>) -> (r: Vec<char>)
    ensures
        r@ == strip_video_id(stem@),
{
    let n = stem.len();
    if n == 0 || stem[n - 1] != ']' {
        return stem;
    }
    let body_len = n - 1;
    assert(stem@.drop_last() == stem@.subrange(0, body_len as int));
    let ghost body = stem@.drop_last();
    let found = find_last_open_bracket(&stem, body_len);
    proof {
        assert forall|k: int| 0 <= k <= body_len implies last_open_bracket(body, k)
            == last_open_bracket(stem@, k) by {
            lemma_last_open_bracket_prefix(stem@, body, k);
        }
    }
    assert(last_open_bracket(body, body_len as int) == last_open_bracket(stem@, body_len as int));
    match found {
        None => stem,
        Some(i) => {
            let id_start = i + 2;
            if body_len - id_start != 11 {
                return stem;
            }
            let mut j: usize = 0;
            while j < 11
                invariant
                    0 <= j <= 11,
                    id_start + 11 == body_len,
                    body_len < stem@.len(),
                    body == stem@.subrange(0, body_len as int),
                    body == stem@.drop_last(),
                    stem@.len() >= 1 && stem@.last() == ']',
                    last_open_bracket(body, body.len() as int) == Some(i as int),
                    id_start == i + 2,
                    forall|k: int| 0 <= k < j ==> id_char(#[trigger] stem@[id_start + k]),
                decreases 11 - j,
            {
                if !is_id_char(stem[id_start + j]) {
                    assert(body.subrange(id_start as int, body_len as int)[j as int] == stem@[
                        id_start + j
                    ]);
                    assert(!id_char(body.subrange(i + 2, body.len() as int)[j as int]));
                    return stem;
                }
                j = j + 1;
            }
            assert forall|k: int| 0 <= k < 11 implies id_char(
                #[trigger] body.subrange(id_start as int, body_len as int)[k],
            ) by {
                assert(body.subrange(id_start as int, body_len as int)[k] == stem@[id_start + k]);
            }
            let mut title: Vec<char> = Vec::new();
            let mut k: usize = 0;
            while k < i
                invariant
                    0 <= k <= i,
                    i < stem@.len(),
                    title@ == stem@.subrange(0, k as int),
                decreases i - k,
            {
                title.push(stem[k]);
                k = k + 1;
            }
            title
        },
    }
}

proof fn lemma_last_open_bracket_prefix(s: Seq<char>, prefix: Seq<char>, n: int)
    requires
        prefix.len() <= s.len(),
        0 <= n <= prefix.len(),
        forall|j: int| 0 <= j < prefix.len() ==> prefix[j] == s[j],
    ensures
        last_open_bracket(prefix, n) == last_open_bracket(s, n),
    decreases n,
{
    if n >= 2 {
        lemma_last_open_bracket_prefix(s, prefix, n - 1);
    }
}

/// The media title from a file stem (see `title_from_stem_spec`).
pub fn title_from_stem(stem: Option<&str>) -> (r: String)
    ensures
        r@ == title_from_stem_spec(str_view(stem)),
{
    let chars = match stem {
        Some(s) => chars_of(s),
        None => chars_of("undefined-player"),
    };
    let title = squash_whitespace(&strip_id(chars));
    if title.len() == 0 {
        string_of(chars_of("undefined-player").as_slice())
    } else {
        string_of(title.as_slice())
    }
}

/// The media title for the file `path` (see `title_from_stem_spec`).
pub fn media_title(path: &str) -> (r: String)
    ensures
        r@ == title_from_stem_spec(file_stem_of(path@)),
{
    let stem = file_stem(path);
    match &stem {
        Some(s) => title_from_stem(Some(s.as_str())),
        None => title_from_stem(None),
    }
}

/// The window title: the media title in upper case.
pub fn display_title(path: &str) -> (r: String)
    ensures
        r@ == uppercase_seq(title_from_stem_spec(file_stem_of(path@))),
{
    let title = media_title(path);
    string_of(to_uppercase(chars_of(title.as_str()).as_slice()).as_slice())
}

} // verus!

verus! {

/// What identifies an audio or subtitle track to the viewer.
#[derive(Clone)]
pub struct TrackLabel {
    pub codec: String,
    pub language: Option<String>,
    pub title: Option<String>,
}

/// The details lines of a video, in display order.
pub struct VideoInfo {
    pub lines: [String; 10],
}

/// The details text: the video lines, then the selected audio track's
/// number, codec, language and title, or that there is no audio.
pub open spec fn overlay_details_spec(
    lines: Seq<Seq<char>>,
    audio: Option<(nat, nat, Seq<char>, Option<Seq<char>>, Option<Seq<char>>)>,
) -> Seq<char> {
    join_lines(lines) + match audio {
        None => "\nAUDIO: NONE"@,
        Some((selected, count, codec, language, title)) => "\nAUDIO TRACK: "@ + decimal_spec(
            selected + 1,
        ) + " / "@ + decimal_spec(count) + "\nAUDIO CODEC: "@ + codec + match language {
            Some(l) => "\nAUDIO LANGUAGE: "@ + uppercase_seq(l),
            None => Seq::empty(),
        } + match title {
            Some(t) => "\nAUDIO TITLE: "@ + uppercase_seq(t),
            None => Seq::empty(),
        },
    }
}

/// A track label as plain text values.
pub open spec fn label_view(label: &TrackLabel) -> (Seq<char>, Option<Seq<char>>, Option<Seq<char>>) {
    (label.codec@, string_view(label.language), string_view(label.title))
}

impl VideoInfo {
    /// The details text shown in the information overlay.
    pub fn overlay_text(&self, audio: Option<(usize, usize, &TrackLabel)>) -> (r: String)
        requires
            audio matches Some((selected, _, _)) ==> selected < usize::MAX,
        ensures
            r@ == overlay_details_spec(
                self.lines@.map_values(|l: String| l@),
                match audio {
                    None => None,
                    Some((selected, count, label)) => Some(
                        (
                            selected as nat,
                            count as nat,
                            label.codec@,
                            string_view(label.language),
                            string_view(label.title),
                        ),
                    ),
                },
            ),
    {
        proof {
            reveal_strlit("\nAUDIO: NONE");
            reveal_strlit("\nAUDIO TRACK: ");
            reveal_strlit(" / ");
            reveal_strlit("\nAUDIO CODEC: ");
            reveal_strlit("\nAUDIO LANGUAGE: ");
            reveal_strlit("\nAUDIO TITLE: ");
        }
        let mut lines: Vec<Vec<char>> = Vec::new();
        let mut i: usize = 0;
        while i < 10
            invariant
                0 <= i <= 10,
                lines@.len() == i,
                forall|k: int| 0 <= k < i ==> #[trigger] lines@[k]@ == self.lines@[k]@,
            decreases 10 - i,
        {
            lines.push(chars_of(self.lines[i].as_str()));
            i = i + 1;
        }
        let mut text = join_with_newlines(&lines);
        proof {
            assert(lines@.map_values(|l: Vec<char>| l@) =~= self.lines@.map_values(|l: String| l@));
        }
        match audio {
            None => {
                push_str(&mut text, "\nAUDIO: NONE");
            },
            Some((selected, count, label)) => {
                push_str(&mut text, "\nAUDIO TRACK: ");
                let number = decimal((selected + 1) as u64);
                push_chars(&mut text, number.as_slice());
                push_str(&mut text, " / ");
                let total = decimal(count as u64);
                push_chars(&mut text, total.as_slice());
                push_str(&mut text, "\nAUDIO CODEC: ");
                push_str(&mut text, label.codec.as_str());
                match &label.language {
                    Some(language) => {
                        push_str(&mut text, "\nAUDIO LANGUAGE: ");
                        let upper = to_uppercase(chars_of(language.as_str()).as_slice());
                        push_chars(&mut text, upper.as_slice());
                    },
                    None => {},
                }
                match &label.title {
                    Some(title) => {
                        push_str(&mut text, "\nAUDIO TITLE: ");
                        let upper = to_uppercase(chars_of(title.as_str()).as_slice());
                        push_chars(&mut text, upper.as_slice());
                    },
                    None => {},
                }
            },
        }
        string_of(text.as_slice())
    }
}

} // verus!

verus! {

/// What the decoder reports about a video stream and the picture shown, as
/// plain values: FFmpeg's names (absent when unknown), the picture size, the
/// bit rates, the HDR kind and which colour properties were assumed.
pub struct VideoFacts {
    pub codec: Option<String>,
    pub profile: Option<String>,
    pub pixel_format: Option<String>,
    pub color_space: Option<String>,
    pub color_primaries: Option<String>,
    pub color_transfer: Option<String>,
    pub color_range: Option<String>,
    pub width: i32,
    pub height: i32,
    pub declared_bitrate: i64,
    pub metadata_bitrate: i64,
    pub container_bitrate: i64,
    pub hdr_kind: u32,
    pub color_space_assumed: bool,
    pub color_primaries_assumed: bool,
    pub color_transfer_assumed: bool,
    pub color_range_assumed: bool,
    pub uses_vulkan: bool,
}

/// `n` in decimal with a minus sign when negative.
pub open spec fn signed_decimal_spec(n: int) -> Seq<char> {
    if n < 0 {
        seq!['-'] + decimal_spec((-n) as nat)
    } else {
        decimal_spec(n as nat)
    }
}

fn push_signed(out: &mut Vec<char>, n: i32)
    ensures
        final(out)@ == old(out)@ + signed_decimal_spec(n as int),
{
    if n < 0 {
        out.push('-');
        let digits = decimal((-(n as i64)) as u64);
        push_chars(out, digits.as_slice());
        proof {
            assert(final(out)@ =~= old(out)@ + signed_decimal_spec(n as int));
        }
    } else {
        let digits = decimal(n as u64);
        push_chars(out, digits.as_slice());
    }
}

/// The codec line's name: the codec, or `UNKNOWN`, followed by the profile
/// when there is one.
pub open spec fn codec_text(codec: Option<Seq<char>>, profile: Option<Seq<char>>) -> Seq<char> {
    let name = match codec {
        Some(c) => c,
        None => "UNKNOWN"@,
    };
    match profile {
        Some(p) => name + seq![' '] + p,
        None => name,
    }
}

/// The ten details lines of a video.
pub open spec fn video_lines(f: VideoFacts) -> Seq<Seq<char>> {
    seq![
        "CODEC: "@ + codec_text(string_view(f.codec), string_view(f.profile)),
        "RESOLUTION: "@ + signed_decimal_spec(f.width as int) + seq!['X'] + signed_decimal_spec(f.height as int),
        "BITRATE: "@ + format_video_bitrate_spec(
            f.declared_bitrate,
            if f.metadata_bitrate > 0 { Some(f.metadata_bitrate) } else { None },
            f.container_bitrate,
        ),
        "PIXEL FORMAT: "@ + match string_view(f.pixel_format) {
            Some(p) => p,
            None => "UNKNOWN PIXEL FORMAT"@,
        },
        "DECODE: "@ + if f.uses_vulkan { "VULKAN HW"@ } else { "SOFTWARE"@ },
        "MATRIX: "@ + mark_assumed_spec(string_view(f.color_space), f.color_space_assumed),
        "PRIMARIES: "@ + mark_assumed_spec(string_view(f.color_primaries), f.color_primaries_assumed),
        "TRANSFER: "@ + mark_assumed_spec(string_view(f.color_transfer), f.color_transfer_assumed),
        "RANGE: "@ + mark_assumed_spec(string_view(f.color_range), f.color_range_assumed),
        "HDR: "@ + hdr_status_spec(f.hdr_kind, f.color_transfer_assumed),
    ]
}

fn labelled(label: &str, value: &str) -> (r: String)
    ensures
        r@ == label@ + value@,
{
    let mut out: Vec<char> = Vec::new();
    push_str(&mut out, label);
    push_str(&mut out, value);
    string_of(out.as_slice())
}

fn copy_name(name: &Option<String>) -> (r: Option<String>)
    ensures
        string_view(r) == string_view(*name),
{
    match name {
        Some(n) => Some(string_of(chars_of(n.as_str()).as_slice())),
        None => None,
    }
}

impl VideoInfo {
    /// The details lines for what the decoder reports.
    pub fn describe(facts: &VideoFacts) -> (r: VideoInfo)
        ensures
            r.lines@.map_values(|l: String| l@) == video_lines(*facts),
    {
        let mut codec: Vec<char> = Vec::new();
        match &facts.codec {
            Some(c) => push_str(&mut codec, c.as_str()),
            None => push_str(&mut codec, "UNKNOWN"),
        }
        match &facts.profile {
            Some(p) => {
                codec.push(' ');
                push_str(&mut codec, p.as_str());
            },
            None => {},
        }
        let codec_line = labelled("CODEC: ", string_of(codec.as_slice()).as_str());
        let mut resolution: Vec<char> = Vec::new();
        push_str(&mut resolution, "RESOLUTION: ");
        push_signed(&mut resolution, facts.width);
        resolution.push('X');
        push_signed(&mut resolution, facts.height);
        let resolution_line = string_of(resolution.as_slice());
        let metadata = if facts.metadata_bitrate > 0 { Some(facts.metadata_bitrate) } else { None };
        let bitrate = format_video_bitrate(facts.declared_bitrate, metadata, facts.container_bitrate);
        let bitrate_line = labelled("BITRATE: ", bitrate.as_str());
        let pixel_line = match &facts.pixel_format {
            Some(p) => labelled("PIXEL FORMAT: ", p.as_str()),
            None => labelled("PIXEL FORMAT: ", "UNKNOWN PIXEL FORMAT"),
        };
        let decode_line = labelled("DECODE: ", if facts.uses_vulkan { "VULKAN HW" } else { "SOFTWARE" });
        let matrix = mark_assumed(copy_name(&facts.color_space), facts.color_space_assumed);
        let primaries = mark_assumed(copy_name(&facts.color_primaries), facts.color_primaries_assumed);
        let transfer = mark_assumed(copy_name(&facts.color_transfer), facts.color_transfer_assumed);
        let range = mark_assumed(copy_name(&facts.color_range), facts.color_range_assumed);
        let hdr = hdr_status(facts.hdr_kind, facts.color_transfer_assumed);
        let info = VideoInfo {
            lines: [
                codec_line,
                resolution_line,
                bitrate_line,
                pixel_line,
                decode_line,
                labelled("MATRIX: ", matrix.as_str()),
                labelled("PRIMARIES: ", primaries.as_str()),
                labelled("TRANSFER: ", transfer.as_str()),
                labelled("RANGE: ", range.as_str()),
                labelled("HDR: ", hdr),
            ],
        };
        proof {
            reveal_strlit("UNKNOWN");
            assert(codec@ == codec_text(string_view(facts.codec), string_view(facts.profile)));
            let lines = video_lines(*facts);
            assert(info.lines@[0]@ == lines[0]);
            assert(info.lines@[1]@ =~= lines[1]);
            assert(info.lines@[2]@ == lines[2]);
            assert(info.lines@[3]@ == lines[3]);
            assert(info.lines@[4]@ == lines[4]);
            assert(info.lines@[5]@ == lines[5]);
            assert(info.lines@[6]@ == lines[6]);
            assert(info.lines@[7]@ == lines[7]);
            assert(info.lines@[8]@ == lines[8]);
            assert(info.lines@[9]@ == lines[9]);
            assert(info.lines@.map_values(|l: String| l@) =~= lines);
        }
        info
    }
}

} // verus!

verus! {

/// No `" ["` starts at or after `from` in the first `n` characters of `s`,
/// so the last one, if any, is the last one before `from + 1`.
proof fn lemma_last_open_bracket_skips(s: Seq<char>, n: int, from: int)
    requires
        2 <= from + 2 <= n <= s.len(),
        forall|j: int| from + 1 < j < n ==> #[trigger] s[j] != '[',
    ensures
        last_open_bracket(s, n) == last_open_bracket(s, from + 2),
    decreases n,
{
    if n > from + 2 {
        assert(s[n - 1] != '[');
        lemma_last_open_bracket_skips(s, n - 1, from);
    }
}

/// A trailing `" [id]"` whose id is eleven ASCII letters, digits, `-` or
/// `_` (a video id) is cut from a file stem, and the title is then that of
/// the stem without it (when that stem has no video id of its own).
pub proof fn lemma_video_id_removed(stem: Seq<char>, id: Seq<char>)
    requires
        id.len() == 11,
        forall|j: int|
            0 <= j < 11 ==> ({
                let c = #[trigger] id[j];
                ('a' <= c && c <= 'z') || ('A' <= c && c <= 'Z') || ('0' <= c && c <= '9') || c == '-' || c
                    == '_'
            }),
    ensures
        strip_video_id(stem + seq![' ', '['] + id + seq![']']) == stem,
        strip_video_id(stem) == stem ==> title_from_stem_spec(Some(stem + seq![' ', '['] + id + seq![']']))
            == title_from_stem_spec(Some(stem)),
{
    let full = stem + seq![' ', '['] + id + seq![']'];
    let body = full.drop_last();
    let k = stem.len() as int;
    assert(body =~= stem + seq![' ', '['] + id);
    assert(body.len() == k + 13);
    assert forall|j: int| k + 1 < j < body.len() implies #[trigger] body[j] != '[' by {
        assert(body[j] == id[j - k - 2]);
    }
    lemma_last_open_bracket_skips(body, body.len() as int, k);
    assert(body[k] == ' ' && body[k + 1] == '[');
    assert(last_open_bracket(body, k + 2) == Some(k));
    assert(body.subrange(k + 2, body.len() as int) =~= id);
    assert(body.subrange(0, k) =~= stem);
    assert(full.last() == ']');
    assert forall|j: int| 0 <= j < 11 implies id_char(#[trigger] id[j]) by {
        let c = id[j];
        assert(('a' <= c && c <= 'z') || ('A' <= c && c <= 'Z') || ('0' <= c && c <= '9') || c == '-' || c == '_');
    }
}

} // verus!
