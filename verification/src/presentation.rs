//! Texts and small state machines of the on-screen presentation: positions,
//! track status, chapter headings and frame statistics.
use vstd::prelude::*;
use crate::metadata::{label_view, TrackLabel};
use crate::text::{chars_of, decimal, decimal_spec, digit_spec, push_chars, push_str, string_of, string_view, to_uppercase, uppercase_seq};

verus! {

/// `n < 100` as two decimal digits.
pub open spec fn two_digits(n: nat) -> Seq<char> {
    seq![digit_spec(n / 10), digit_spec(n % 10)]
}

/// A position of `total` whole seconds as `M:SS`, or `H:MM:SS` from one
/// hour on.
pub open spec fn position_spec(total: nat) -> Seq<char> {
    let hours = total / 3600;
    let minutes = total / 60 % 60;
    let seconds = total % 60;
    if hours > 0 {
        decimal_spec(hours) + seq![':'] + two_digits(minutes) + seq![':'] + two_digits(seconds)
    } else {
        decimal_spec(minutes) + seq![':'] + two_digits(seconds)
    }
}

fn push_two_digits(out: &mut Vec<char>, n: u64)
    requires
        n < 100,
    ensures
        final(out)@ == old(out)@ + two_digits(n as nat),
{
    out.push(((n / 10) as u8 + 48) as char);
    out.push(((n % 10) as u8 + 48) as char);
    proof {
        assert(final(out)@ =~= old(out)@ + two_digits(n as nat));
    }
}

fn push_position(out: &mut Vec<char>, total: u64)
    ensures
        final(out)@ == old(out)@ + position_spec(total as nat),
{
    let hours = total / 3600;
    let minutes = total / 60 % 60;
    let seconds = total % 60;
    if hours > 0 {
        let h = decimal(hours);
        push_chars(out, h.as_slice());
        out.push(':');
        push_two_digits(out, minutes);
        out.push(':');
        push_two_digits(out, seconds);
    } else {
        let m = decimal(minutes);
        push_chars(out, m.as_slice());
        out.push(':');
        push_two_digits(out, seconds);
    }
    proof {
        assert(final(out)@ =~= old(out)@ + position_spec(total as nat));
    }
}

/// A position of `total` whole seconds, as the timeline shows it.
pub fn format_position(total: u64) -> (r: String)
    ensures
        r@ == position_spec(total as nat),
{
    let mut out: Vec<char> = Vec::new();
    push_position(&mut out, total);
    proof {
        assert(out@ =~= position_spec(total as nat));
    }
    string_of(out.as_slice())
}

/// The timeline text: the position, and the duration when it is known.
pub open spec fn timeline_spec(position: nat, duration: Option<nat>) -> Seq<char> {
    match duration {
        Some(d) => position_spec(position) + seq![' ', '/', ' '] + position_spec(d),
        None => position_spec(position),
    }
}

/// The position notice: `position`, then ` / ` and `duration` if known, both
/// in whole seconds.
pub fn timeline_text(position: u64, duration: Option<u64>) -> (r: String)
    ensures
        r@ == timeline_spec(
            position as nat,
            match duration {
                Some(d) => Some(d as nat),
                None => None,
            },
        ),
{
    let mut out: Vec<char> = Vec::new();
    push_position(&mut out, position);
    match duration {
        Some(d) => {
            out.push(' ');
            out.push('/');
            out.push(' ');
            push_position(&mut out, d);
        },
        None => {},
    }
    proof {
        assert(out@ =~= timeline_spec(
            position as nat,
            match duration {
                Some(d) => Some(d as nat),
                None => None,
            },
        ));
    }
    string_of(out.as_slice())
}

/// The track after `current` among `count`, wrapping to the first.
pub open spec fn next_track_spec(current: int, count: int) -> int {
    if count == 0 {
        0
    } else {
        (current + 1) % count
    }
}

/// The track after `current` among `count`, wrapping to the first.
pub fn next_track(current: usize, count: usize) -> (r: usize)
    requires
        count == 0 || current < usize::MAX,
    ensures
        r == next_track_spec(current as int, count as int),
        count > 0 ==> r < count,
{
    if count == 0 {
        0
    } else {
        (current + 1) % count
    }
}

/// Cycling through `count` tracks from any of them comes back to it after
/// `count` steps, visiting each track once.
pub proof fn lemma_next_track_cycles(current: int, count: int, steps: nat)
    requires
        0 <= current < count,
    ensures
        steps_from(current, count, steps) == (current + steps) % count,
    decreases steps,
{
    if steps > 0 {
        lemma_next_track_cycles(current, count, (steps - 1) as nat);
        let before = (current + steps - 1) % count;
        vstd::arithmetic::div_mod::lemma_add_mod_noop(current + steps - 1, 1, count);
        vstd::arithmetic::div_mod::lemma_mod_pos_bound(current + steps - 1, count);
        if count == 1 {
            assert((before + 1) % count == 0);
            assert((current + steps) % count == 0);
        } else {
            vstd::arithmetic::div_mod::lemma_small_mod(1, count as nat);
        }
        assert(next_track_spec(before, count) == (before + 1) % count);
    } else {
        vstd::arithmetic::div_mod::lemma_small_mod(current as nat, count as nat);
    }
}

/// The track reached after `steps` presses from `current`.
pub open spec fn steps_from(current: int, count: int, steps: nat) -> int
    decreases steps,
{
    if steps == 0 {
        current
    } else {
        next_track_spec(steps_from(current, count, (steps - 1) as nat), count)
    }
}

/// The track status: kind, 1-based number and count, then, when the language
/// is known, the language, the title if any and the codec.
pub open spec fn track_status_spec(
    kind: Seq<char>,
    selected: nat,
    count: nat,
    label: (Seq<char>, Option<Seq<char>>, Option<Seq<char>>),
) -> Seq<char> {
    track_head(kind, selected, count) + track_suffix(label)
}

pub open spec fn track_head(kind: Seq<char>, selected: nat, count: nat) -> Seq<char> {
    kind + seq![':', ' '] + decimal_spec(selected + 1) + seq![' ', '/', ' '] + decimal_spec(count)
}

pub open spec fn track_suffix(label: (Seq<char>, Option<Seq<char>>, Option<Seq<char>>)) -> Seq<char> {
    match label.1 {
        None => Seq::empty(),
        Some(language) => seq![' ', '-', ' '] + uppercase_seq(language) + match label.2 {
            Some(title) => seq![' ', '-', ' '] + uppercase_seq(title),
            None => Seq::empty(),
        } + seq![' ', '-', ' '] + label.0,
    }
}

fn push_separator(out: &mut Vec<char>)
    ensures
        final(out)@ == old(out)@ + seq![' ', '-', ' '],
{
    out.push(' ');
    out.push('-');
    out.push(' ');
    proof {
        assert(final(out)@ =~= old(out)@ + seq![' ', '-', ' ']);
    }
}

fn push_upper(out: &mut Vec<char>, s: &str)
    ensures
        final(out)@ == old(out)@ + uppercase_seq(s@),
{
    let upper = to_uppercase(chars_of(s).as_slice());
    push_chars(out, upper.as_slice());
}

fn push_track_suffix(out: &mut Vec<char>, label: &TrackLabel)
    ensures
        final(out)@ == old(out)@ + track_suffix(label_view(label)),
{
    match &label.language {
        Some(language) => {
            push_separator(out);
            push_upper(out, language.as_str());
            match &label.title {
                Some(title) => {
                    push_separator(out);
                    push_upper(out, title.as_str());
                },
                None => {},
            }
            push_separator(out);
            push_str(out, label.codec.as_str());
        },
        None => {},
    }
    proof {
        assert(final(out)@ =~= old(out)@ + track_suffix(label_view(label)));
    }
}

/// The status line shown when a track is selected.
pub fn track_status_text(kind: &str, selected: usize, count: usize, label: &TrackLabel) -> (r: String)
    requires
        selected < usize::MAX,
    ensures
        r@ == track_status_spec(kind@, selected as nat, count as nat, label_view(label)),
{
    let mut out: Vec<char> = Vec::new();
    push_str(&mut out, kind);
    out.push(':');
    out.push(' ');
    let number = decimal((selected + 1) as u64);
    push_chars(&mut out, number.as_slice());
    out.push(' ');
    out.push('/');
    out.push(' ');
    let total = decimal(count as u64);
    push_chars(&mut out, total.as_slice());
    proof {
        assert(out@ =~= track_head(kind@, selected as nat, count as nat));
    }
    push_track_suffix(&mut out, label);
    string_of(out.as_slice())
}

/// The subtitle status: the track status while subtitles are shown.
pub fn subtitle_status_text(visible: bool, selected: usize, count: usize, label: &TrackLabel) -> (r: String)
    requires
        selected < usize::MAX,
    ensures
        visible ==> r@ == track_status_spec("SUBTITLES"@, selected as nat, count as nat, label_view(label)),
        !visible ==> r@ == "SUBTITLES: OFF"@,
{
    if visible {
        track_status_text("SUBTITLES", selected, count, label)
    } else {
        "SUBTITLES: OFF".to_owned()
    }
}

/// Three seconds, in the nanoseconds that the heading's clock counts.
pub const HEADING_NANOS: u64 = 3_000_000_000;

/// Which chapter title the overlay shows: the hovered chapter, else the
/// chapter just jumped to, for three seconds. Times are nanoseconds on one
/// monotonic clock.
pub struct ChapterHeading {
    pub hovered: Option<usize>,
    pub jump: Option<(usize, u64)>,
}

impl Default for ChapterHeading {
    /// Nothing hovered or jumped to.
    fn default() -> (r: Self)
        ensures
            r.hovered is None,
            r.jump is None,
    {
        ChapterHeading { hovered: None, jump: None }
    }
}

impl ChapterHeading {
    /// A jump to chapter `index` at `now`: its heading shows instead of any
    /// hovered one.
    pub fn show(&mut self, index: usize, now: u64)
        ensures
            final(self).hovered is None,
            final(self).jump == Some((index, now)),
    {
        self.hovered = None;
        self.jump = Some((index, now));
    }

    /// Ends a jump heading three seconds after it was shown. Returns whether
    /// it ended.
    pub fn update(&mut self, now: u64) -> (changed: bool)
        ensures
            final(self).hovered == old(self).hovered,
            changed == (old(self).jump matches Some((_, shown)) && now - shown >= HEADING_NANOS),
            changed ==> final(self).jump is None,
            !changed ==> final(self).jump == old(self).jump,
    {
        match self.jump {
            Some((_, shown)) => {
                if now >= shown && now - shown >= HEADING_NANOS {
                    self.jump = None;
                    true
                } else {
                    false
                }
            },
            None => false,
        }
    }

    /// The chapter whose heading shows.
    pub fn index(&self) -> (r: Option<usize>)
        ensures
            r == match self.hovered {
                Some(i) => Some(i),
                None => match self.jump {
                    Some((i, _)) => Some(i),
                    None => None,
                },
            },
    {
        match self.hovered {
            Some(i) => Some(i),
            None => match self.jump {
                Some((i, _)) => Some(i),
                None => None,
            },
        }
    }
}

/// Counts of presented and dropped frames.
pub struct PresentationStats {
    pub shown: u64,
    pub dropped: u64,
}

/// The statistics line, with the frame rate as given or `UNKNOWN`.
pub open spec fn stats_spec(shown: nat, dropped: nat, frame_rate: Option<Seq<char>>) -> Seq<char> {
    "FPS: "@ + match frame_rate {
        Some(f) => f,
        None => "UNKNOWN"@,
    } + "  SHOWN: "@ + decimal_spec(shown) + "  DROPPED: "@ + decimal_spec(dropped)
}

impl PresentationStats {
    /// No frames yet.
    pub fn new() -> (r: Self)
        ensures
            r.shown == 0,
            r.dropped == 0,
    {
        PresentationStats { shown: 0, dropped: 0 }
    }

    /// Frames shown and dropped so far.
    pub fn counts(&self) -> (r: (u64, u64))
        ensures
            r == (self.shown, self.dropped),
    {
        (self.shown, self.dropped)
    }

    /// One more frame reached the screen.
    pub fn presented(&mut self)
        requires
            old(self).shown < u64::MAX,
        ensures
            final(self).shown == old(self).shown + 1,
            final(self).dropped == old(self).dropped,
    {
        self.shown = self.shown + 1;
    }

    /// `count` more frames were skipped.
    pub fn drop_frames(&mut self, count: usize)
        requires
            old(self).dropped + count <= u64::MAX,
        ensures
            final(self).shown == old(self).shown,
            final(self).dropped == old(self).dropped + count,
    {
        self.dropped = self.dropped + count as u64;
    }

    /// The statistics line; `frame_rate` is the rate already written with
    /// three decimals.
    pub fn text(&self, frame_rate: Option<&str>) -> (r: String)
        ensures
            r@ == stats_spec(
                self.shown as nat,
                self.dropped as nat,
                match frame_rate {
                    Some(f) => Some(f@),
                    None => None,
                },
            ),
    {
        proof {
            reveal_strlit("FPS: ");
            reveal_strlit("UNKNOWN");
            reveal_strlit("  SHOWN: ");
            reveal_strlit("  DROPPED: ");
        }
        let mut out: Vec<char> = Vec::new();
        push_str(&mut out, "FPS: ");
        match frame_rate {
            Some(f) => push_str(&mut out, f),
            None => push_str(&mut out, "UNKNOWN"),
        }
        push_str(&mut out, "  SHOWN: ");
        let shown = decimal(self.shown);
        push_chars(&mut out, shown.as_slice());
        push_str(&mut out, "  DROPPED: ");
        let dropped = decimal(self.dropped);
        push_chars(&mut out, dropped.as_slice());
        proof {
            assert(out@ =~= stats_spec(
                self.shown as nat,
                self.dropped as nat,
                match frame_rate {
                    Some(f) => Some(f@),
                    None => None,
                },
            ));
        }
        string_of(out.as_slice())
    }
}

} // verus!

verus! {

/// Reading a clock text from the left: the seconds of the fields already
/// closed by a `:`, and the value of the field being read.
pub open spec fn clock_state(s: Seq<char>) -> (int, int)
    decreases s.len(),
{
    if s.len() == 0 {
        (0, 0)
    } else {
        let (closed, field) = clock_state(s.drop_last());
        if s.last() == ':' {
            (closed * 60 + field, 0)
        } else {
            (closed, field * 10 + ((s.last() as u32) as int - 48))
        }
    }
}

/// The seconds a clock text such as `1:30:00` or `15:00` reads as: its
/// `:`-separated decimal fields, each worth sixty of the next.
pub open spec fn clock_value(s: Seq<char>) -> int {
    clock_state(s).0 * 60 + clock_state(s).1
}

proof fn lemma_digit_value(d: nat)
    requires
        d < 10,
    ensures
        (digit_spec(d) as u32) as int - 48 == d,
        digit_spec(d) != ':',
{
    assert(((d + 48) as u32) as int == d + 48);
}

/// Appending the decimal digits of `n` to a text with no field open
/// opens a field worth `n`.
proof fn lemma_clock_decimal(a: Seq<char>, n: nat)
    requires
        clock_state(a).1 == 0,
    ensures
        clock_state(a + decimal_spec(n)) == (clock_state(a).0, n as int),
    decreases n,
{
    if n < 10 {
        lemma_digit_value(n);
        let s = a + decimal_spec(n);
        assert(s.drop_last() =~= a);
    } else {
        lemma_clock_decimal(a, n / 10);
        lemma_digit_value(n % 10);
        let s = a + decimal_spec(n);
        assert(s.drop_last() =~= a + decimal_spec(n / 10));
    }
}

/// Appending two digits of `n < 100` opens a field worth `n`.
proof fn lemma_clock_two_digits(a: Seq<char>, n: nat)
    requires
        clock_state(a).1 == 0,
        n < 100,
    ensures
        clock_state(a + two_digits(n)) == (clock_state(a).0, n as int),
{
    lemma_digit_value(n / 10);
    lemma_digit_value(n % 10);
    let s = a + two_digits(n);
    let s1 = a + seq![digit_spec(n / 10)];
    assert(s1.drop_last() =~= a);
    assert(clock_state(s1) == (clock_state(a).0, (n / 10) as int));
    assert(s.drop_last() =~= s1);
    assert(s.last() == digit_spec(n % 10));
    assert(n == (n / 10) * 10 + n % 10);
}

/// A `:` closes the open field.
proof fn lemma_clock_colon(a: Seq<char>)
    ensures
        clock_state(a + seq![':']) == (clock_state(a).0 * 60 + clock_state(a).1, 0int),
{
    assert((a + seq![':']).drop_last() =~= a);
}

/// The position text reads back as the position: its fields, hours,
/// minutes and seconds (or minutes and seconds below an hour), make up
/// `total` seconds; the seconds field is below sixty, and so is the minutes
/// field below an hour.
pub proof fn lemma_position_reads_back(total: nat)
    ensures
        clock_value(position_spec(total)) == total,
        0 <= clock_state(position_spec(total)).1 < 60,
        total < 3600 ==> 0 <= clock_state(position_spec(total)).0 < 60,
{
    let hours = total / 3600;
    let minutes = total / 60 % 60;
    let seconds = total % 60;
    let e = Seq::<char>::empty();
    assert(clock_state(e) == (0int, 0int));
    if hours > 0 {
        let p1 = decimal_spec(hours);
        lemma_clock_decimal(e, hours);
        assert(e + p1 =~= p1);
        let p2 = p1 + seq![':'];
        lemma_clock_colon(p1);
        let p3 = p2 + two_digits(minutes);
        lemma_clock_two_digits(p2, minutes);
        let p4 = p3 + seq![':'];
        lemma_clock_colon(p3);
        let p5 = p4 + two_digits(seconds);
        lemma_clock_two_digits(p4, seconds);
        assert(position_spec(total) == p5);
        assert(clock_state(p5) == ((hours * 60 + minutes) as int, seconds as int));
        assert(total == hours * 3600 + minutes * 60 + seconds) by {
            vstd::arithmetic::div_mod::lemma_fundamental_div_mod(total as int, 60);
            vstd::arithmetic::div_mod::lemma_fundamental_div_mod(total as int / 60, 60);
            vstd::arithmetic::div_mod::lemma_div_denominator(total as int, 60, 60);
        }
    } else {
        let p1 = decimal_spec(minutes);
        lemma_clock_decimal(e, minutes);
        assert(e + p1 =~= p1);
        let p2 = p1 + seq![':'];
        lemma_clock_colon(p1);
        let p3 = p2 + two_digits(seconds);
        lemma_clock_two_digits(p2, seconds);
        assert(position_spec(total) == p3);
        assert(total == minutes * 60 + seconds) by {
            vstd::arithmetic::div_mod::lemma_fundamental_div_mod(total as int, 60);
            vstd::arithmetic::div_mod::lemma_div_denominator(total as int, 60, 60);
        }
    }
}

} // verus!
