//! Interlacing detection: agreement of alternating scan lines across three
//! pictures, a debounced verdict, and the user's deinterlacing mode.
use vstd::prelude::*;
use std::collections::VecDeque;
use crate::autocrop::{sample_spec, Luma};

verus! {

/// Four vertically adjacent luma samples: the line above a scan-line pair,
/// the pair, and the line below.
pub type Column = [u8; 4];

/// The lines of one picture that the detector compares, with the picture
/// size they came from.
pub struct Sample {
    pub pixels: Vec<Column>,
    pub dimensions: (i32, i32),
}

/// Columns sampled across a `width`-pixel picture.
pub open spec fn sample_columns(width: int) -> int {
    if width < 128 { width } else { 128 }
}

/// Scan-line pairs sampled from a `height`-line picture.
pub open spec fn sample_pairs(height: int) -> int {
    let available = (height - 4) / 2;
    if available < 128 { available } else { 128 }
}

/// Row of the upper line of sampled pair `pair`, spread evenly over the
/// picture and kept even.
pub open spec fn pair_row(pair: int, height: int) -> int {
    let available = (height - 4) / 2;
    2 + 2 * (pair * (available - 1) / (sample_pairs(height) - 1))
}

/// Column `column` of the samples, spread evenly over the picture width.
pub open spec fn column_x(column: int, width: int) -> int {
    column * (width - 1) / (sample_columns(width) - 1)
}

impl Sample {
    /// Samples a luma plane: up to 128 columns of up to 128 scan-line pairs,
    /// each with the line above and below. Pictures under 8 x 8 give nothing.
    pub fn from_luma(luma: &Luma, dimensions: (i32, i32)) -> (r: Option<Sample>)
        requires
            luma.0.wf(),
        ensures
            luma.0.width < 8 || luma.0.height < 8 <==> r is None,
            r matches Some(s) ==> {
                let w = luma.0.width as int;
                let h = luma.0.height as int;
                &&& s.dimensions == dimensions
                &&& s.pixels@.len() == sample_columns(w) * sample_pairs(h)
                &&& forall|pair: int, column: int, row: int|
                    0 <= pair < sample_pairs(h) && 0 <= column < sample_columns(w) && 0 <= row < 4
                        ==> #[trigger] s.pixels@[pair * sample_columns(w) + column][row]
                        == sample_spec(&luma.0, column_x(column, w), pair_row(pair, h) + row - 1)
            },
    {
        let width = luma.0.width as usize;
        let height = luma.0.height as usize;
        if width < 8 || height < 8 {
            return None;
        }
        let columns = if width < 128 { width } else { 128 };
        let available = (height - 4) / 2;
        let pairs = if available < 128 { available } else { 128 };
        let ghost w = width as int;
        let ghost h = height as int;
        let mut pixels: Vec<Column> = Vec::new();
        let mut pair: usize = 0;
        while pair < pairs
            invariant
                luma.0.wf(),
                width == luma.0.width,
                height == luma.0.height,
                8 <= width <= 0x7fff_ffff,
                8 <= height <= 0x7fff_ffff,
                columns == sample_columns(w),
                available == (height - 4) / 2,
                pairs == sample_pairs(h),
                w == width,
                h == height,
                2 <= pairs <= 128,
                8 <= columns <= 128,
                pair <= pairs,
                pixels@.len() == pair * columns,
                forall|p: int, column: int, row: int|
                    0 <= p < pair && 0 <= column < columns && 0 <= row < 4
                        ==> #[trigger] pixels@[p * columns + column][row]
                        == sample_spec(&luma.0, column_x(column, w), pair_row(p, h) + row - 1),
            decreases pairs - pair,
        {
            proof {
                assert(pair * (available - 1) / (pairs - 1) <= available - 1) by (nonlinear_arith)
                    requires
                        pair < pairs,
                        2 <= pairs,
                        pairs <= available,
                ;
                assert(0 <= pair * (available - 1) / (pairs - 1)) by (nonlinear_arith)
                    requires
                        pair < pairs,
                        2 <= pairs,
                        pairs <= available,
                ;
            }
            assert(pair as u64 * (available as u64 - 1) <= 128 * 0x7fff_ffff) by (nonlinear_arith)
                requires
                    pair < 128,
                    available <= 0x7fff_ffff,
            ;
            let spread = (pair as u64 * (available as u64 - 1) / (pairs as u64 - 1)) as usize;
            let y = 2 + 2 * spread;
            assert(y == pair_row(pair as int, h));
            let mut column: usize = 0;
            while column < columns
                invariant
                    luma.0.wf(),
                    width == luma.0.width,
                    height == luma.0.height,
                    8 <= width <= 0x7fff_ffff,
                    8 <= height <= 0x7fff_ffff,
                    columns == sample_columns(w),
                    pairs == sample_pairs(h),
                    w == width,
                    h == height,
                    2 <= pairs <= 128,
                    8 <= columns <= 128,
                    pair < pairs,
                    2 <= y <= height - 4,
                    y == pair_row(pair as int, h),
                    column <= columns,
                    pixels@.len() == pair * columns + column,
                    forall|p: int, c: int, row: int|
                        0 <= row < 4 && ((0 <= p < pair && 0 <= c < columns) || (p == pair && 0 <= c < column))
                            ==> #[trigger] pixels@[p * columns + c][row]
                            == sample_spec(&luma.0, column_x(c, w), pair_row(p, h) + row - 1),
                decreases columns - column,
            {
                proof {
                    assert(column * (width - 1) / (columns - 1) <= width - 1) by (nonlinear_arith)
                        requires
                            column < columns,
                            2 <= columns,
                            columns <= width,
                    ;
                    assert(0 <= column * (width - 1) / (columns - 1)) by (nonlinear_arith)
                        requires
                            column < columns,
                            2 <= columns,
                            columns <= width,
                    ;
                }
                assert(column as u64 * (width as u64 - 1) <= 128 * 0x7fff_ffff) by (nonlinear_arith)
                    requires
                        column < 128,
                        width <= 0x7fff_ffff,
                ;
                let x = (column as u64 * (width as u64 - 1) / (columns as u64 - 1)) as usize;
                let lines: Column = [
                    luma.sample(x, y - 1),
                    luma.sample(x, y),
                    luma.sample(x, y + 1),
                    luma.sample(x, y + 2),
                ];
                let ghost before = pixels@;
                pixels.push(lines);
                proof {
                    assert(pair * columns + column + 1 == pair * columns + (column + 1));
                    assert forall|p: int, c: int, row: int|
                        0 <= row < 4 && ((0 <= p < pair && 0 <= c < columns) || (p == pair && 0 <= c < column + 1))
                            implies #[trigger] pixels@[p * columns + c][row]
                            == sample_spec(&luma.0, column_x(c, w), pair_row(p, h) + row - 1) by {
                        if p == pair && c == column {
                            assert(p * columns + c == before.len());
                        } else {
                            assert(p * columns + c < before.len()) by (nonlinear_arith)
                                requires
                                    (0 <= p < pair && 0 <= c < columns) || (p == pair && 0 <= c < column),
                                    before.len() == pair * columns + column,
                            ;
                            assert(pixels@[p * columns + c] == before[p * columns + c]);
                        }
                    }
                }
                column = column + 1;
            }
            proof {
                assert(pair * columns + columns == (pair + 1) * columns) by (nonlinear_arith);
            }
            pair = pair + 1;
        }
        let sample = Sample { pixels, dimensions };
        proof {
            let lw = luma.0.width as int;
            let lh = luma.0.height as int;
            assert(lw == w && lh == h);
            assert(pairs * columns == columns * pairs) by (nonlinear_arith);
            assert forall|p: int, c: int, row: int|
                0 <= p < sample_pairs(lh) && 0 <= c < sample_columns(lw) && 0 <= row < 4
                    implies #[trigger] sample.pixels@[p * sample_columns(lw) + c][row]
                    == sample_spec(&luma.0, column_x(c, lw), pair_row(p, lh) + row - 1) by {
                assert(pixels@[p * columns + c][row] == sample_spec(&luma.0, column_x(c, w), pair_row(p, h) + row - 1));
            }
        }
        Some(sample)
    }
}

/// Difference of a line from the mean of its neighbours, doubled.
pub open spec fn difference(neighbors: int, pixel: u8) -> int {
    let d = neighbors - 2 * pixel;
    if d < 0 { -d } else { d }
}

/// The temporal sums for the two field orders and the spatial sum over the
/// first `k` columns of three pictures.
pub open spec fn sums(p: Seq<Column>, c: Seq<Column>, n: Seq<Column>, k: int) -> (int, int, int)
    decreases k,
{
    if k <= 0 {
        (0, 0, 0)
    } else {
        let (t0, t1, s) = sums(p, c, n, k - 1);
        let i = k - 1;
        let even = c[i][0] + c[i][2];
        let odd = c[i][1] + c[i][3];
        (
            t0 + difference(even, p[i][1]) + difference(odd, n[i][2]),
            t1 + difference(even, n[i][1]) + difference(odd, p[i][2]),
            s + difference(even, c[i][1]) + difference(odd, c[i][2]),
        )
    }
}

/// The field order the three pictures show: 0 progressive, when both field
/// orders disagree with the picture itself by more than half as much again
/// as its own lines do; 1 top first or 2 bottom first, when one order fits
/// better by more than a tenth; no verdict otherwise.
pub open spec fn verdict_spec(t0: int, t1: int, s: int) -> Option<i32> {
    let least = if t0 <= t1 { t0 } else { t1 };
    if 2 * least > 3 * s {
        Some(0i32)
    } else if 10 * t0 > 11 * t1 {
        Some(1i32)
    } else if 10 * t1 > 11 * t0 {
        Some(2i32)
    } else {
        None
    }
}

/// The verdict on three consecutive pictures, over the columns they share.
pub open spec fn classify_spec(p: Seq<Column>, c: Seq<Column>, n: Seq<Column>) -> Option<i32> {
    let len = if p.len() <= c.len() && p.len() <= n.len() {
        p.len()
    } else if c.len() <= n.len() {
        c.len()
    } else {
        n.len()
    };
    let (t0, t1, s) = sums(p, c, n, len as int);
    verdict_spec(t0, t1, s)
}

fn difference_exec(neighbors: i32, pixel: u8) -> (r: u128)
    requires
        0 <= neighbors <= 510,
    ensures
        r == difference(neighbors as int, pixel),
        r <= 510,
{
    let d = neighbors - 2 * (pixel as i32);
    if d < 0 { (-d) as u128 } else { d as u128 }
}

/// The field order shown by three consecutive pictures, if they show one.
pub fn classify(previous: &Vec<Column>, current: &Vec<Column>, next: &Vec<Column>) -> (r: Option<i32>)
    ensures
        r == classify_spec(previous@, current@, next@),
{
    let len = if previous.len() <= current.len() && previous.len() <= next.len() {
        previous.len()
    } else if current.len() <= next.len() {
        current.len()
    } else {
        next.len()
    };
    let mut t0: u128 = 0;
    let mut t1: u128 = 0;
    let mut s: u128 = 0;
    let mut k: usize = 0;
    while k < len
        invariant
            len <= previous@.len(),
            len <= current@.len(),
            len <= next@.len(),
            k <= len,
            (t0 as int, t1 as int, s as int) == sums(previous@, current@, next@, k as int),
            t0 <= 1020 * k,
            t1 <= 1020 * k,
            s <= 1020 * k,
        decreases len - k,
    {
        let p = previous[k];
        let c = current[k];
        let n = next[k];
        let even = c[0] as i32 + c[2] as i32;
        let odd = c[1] as i32 + c[3] as i32;
        t0 = t0 + difference_exec(even, p[1]) + difference_exec(odd, n[2]);
        t1 = t1 + difference_exec(even, n[1]) + difference_exec(odd, p[2]);
        s = s + difference_exec(even, c[1]) + difference_exec(odd, c[2]);
        k = k + 1;
    }
    let least = if t0 <= t1 { t0 } else { t1 };
    if 2 * least > 3 * s {
        Some(0)
    } else if 10 * t0 > 11 * t1 {
        Some(1)
    } else if 10 * t1 > 11 * t0 {
        Some(2)
    } else {
        None
    }
}

} // verus!

verus! {

/// The state after one verdict. A verdict counts once it has come in a row
/// four times for progressive and twice for a field order; a picture without
/// a verdict changes nothing, so static pictures keep the last decision.
pub open spec fn observe_spec(
    candidate: Option<i32>,
    count: u8,
    detected: Option<i32>,
    verdict: Option<i32>,
) -> (Option<i32>, u8, Option<i32>) {
    if verdict is None {
        (candidate, count, detected)
    } else {
        let next_count: u8 = if verdict == candidate {
            if count == 255 { 255u8 } else { (count + 1) as u8 }
        } else {
            1u8
        };
        let needed: u8 = if verdict == Some(0i32) { 4 } else { 2 };
        (verdict, next_count, if next_count >= needed { verdict } else { detected })
    }
}

/// Turning deinterlacing off needs four progressive verdicts in a row; a
/// field order needs two. Pictures without a verdict change nothing.
pub proof fn lemma_verdicts_need_repeats(candidate: Option<i32>, count: u8, detected: Option<i32>, verdict: Option<i32>)
    ensures
        verdict is None ==> observe_spec(candidate, count, detected, verdict) == (candidate, count, detected),
        ({
            let (c, n, d) = observe_spec(candidate, count, detected, verdict);
            d != detected ==> d == verdict && c == verdict && n >= (if verdict == Some(0i32) { 4u8 } else { 2u8 })
        }),
{
}

/// The verdicts among `vs` that came with a decision, in order.
pub open spec fn decided(vs: Seq<Option<i32>>) -> Seq<Option<i32>>
    decreases vs.len(),
{
    if vs.len() == 0 {
        Seq::empty()
    } else if vs.last() is Some {
        decided(vs.drop_last()).push(vs.last())
    } else {
        decided(vs.drop_last())
    }
}

/// The state after observing each verdict of `vs` in turn.
pub open spec fn observe_all(
    start: (Option<i32>, u8, Option<i32>),
    vs: Seq<Option<i32>>,
) -> (Option<i32>, u8, Option<i32>)
    decreases vs.len(),
{
    if vs.len() == 0 {
        start
    } else {
        let (c, n, d) = observe_all(start, vs.drop_last());
        observe_spec(c, n, d, vs.last())
    }
}

/// How many verdicts in a row a decision for `v` takes.
pub open spec fn needed_repeats(v: Option<i32>) -> int {
    if v == Some(0i32) { 4 } else { 2 }
}

/// `s` holds `k` copies of `v` in a row from index `i` on.
pub open spec fn run_at(s: Seq<Option<i32>>, v: Option<i32>, i: int, k: int) -> bool {
    0 <= i && i + k <= s.len() && forall|j: int| i <= j < i + k ==> #[trigger] s[j] == v
}

/// `s` holds `k` copies of `v` in a row.
pub open spec fn has_run(s: Seq<Option<i32>>, v: Option<i32>, k: int) -> bool {
    exists|i: int| #[trigger] run_at(s, v, i, k)
}

/// What a fresh detector's state says of the verdicts it has seen: the
/// candidate ends the decided verdicts `count` times in a row, and a decision
/// was seen the needed number of times in a row.
proof fn lemma_observe_all_invariant(vs: Seq<Option<i32>>)
    ensures
        ({
            let (c, n, d) = observe_all((None, 0u8, None), vs);
            let s = decided(vs);
            &&& n <= s.len()
            &&& forall|j: int| s.len() - n <= j < s.len() ==> #[trigger] s[j] == c
            &&& d is Some ==> has_run(s, d, needed_repeats(d))
        }),
    decreases vs.len(),
{
    if vs.len() > 0 {
        let rest = vs.drop_last();
        lemma_observe_all_invariant(rest);
        let (c0, n0, d0) = observe_all((None, 0u8, None), rest);
        let s0 = decided(rest);
        let v = vs.last();
        if v is Some {
            let s = s0.push(v);
            assert(decided(vs) == s);
            let (c, n, d) = observe_spec(c0, n0, d0, v);
            assert(observe_all((None, 0u8, None), vs) == (c, n, d));
            assert forall|j: int| s.len() - n <= j < s.len() implies #[trigger] s[j] == c by {
                if j < s.len() - 1 {
                    assert(s[j] == s0[j]);
                }
            }
            if d is Some {
                if n >= needed_repeats(v) {
                    let i = s.len() - needed_repeats(v);
                    assert(run_at(s, d, i, needed_repeats(d)));
                } else {
                    let i = choose|i: int| #[trigger] run_at(s0, d0, i, needed_repeats(d0));
                    assert(run_at(s, d, i, needed_repeats(d))) by {
                        assert forall|j: int| i <= j < i + needed_repeats(d) implies #[trigger] s[j] == d by {
                            assert(s[j] == s0[j]);
                        }
                    }
                }
            }
        } else {
            assert(decided(vs) == s0);
        }
    }
}

/// A fresh detector decides on a field order, or on progressive, only after
/// that verdict came in a row the needed number of times (twice, or four
/// times for progressive) among the pictures that gave a verdict; pictures
/// without one neither count nor break a run.
pub proof fn lemma_decision_follows_run(vs: Seq<Option<i32>>)
    ensures
        ({
            let (c, n, d) = observe_all((None, 0u8, None), vs);
            d is Some ==> has_run(decided(vs), d, needed_repeats(d))
        }),
{
    lemma_observe_all_invariant(vs);
}

/// Picture-based field order detection over the last three samples.
pub struct Detector {
    pub samples: VecDeque<Sample>,
    pub candidate: Option<i32>,
    pub count: u8,
    pub detected: Option<i32>,
}

/// The columns of each sample.
pub open spec fn sample_pixels(samples: Seq<Sample>) -> Seq<Seq<Column>> {
    samples.map_values(|s: Sample| s.pixels@)
}

/// The picture size of each sample.
pub open spec fn sample_sizes(samples: Seq<Sample>) -> Seq<(i32, i32)> {
    samples.map_values(|s: Sample| s.dimensions)
}

impl Default for Detector {
    /// No samples and no verdict.
    fn default() -> (r: Self)
        ensures
            r.samples@.len() == 0,
            r.candidate is None,
            r.count == 0,
            r.detected is None,
    {
        Detector { samples: VecDeque::new(), candidate: None, count: 0, detected: None }
    }
}

impl Detector {
    /// Takes one verdict into the debounced decision.
    pub fn observe(&mut self, verdict: Option<i32>)
        ensures
            (final(self).candidate, final(self).count, final(self).detected) == observe_spec(
                old(self).candidate,
                old(self).count,
                old(self).detected,
                verdict,
            ),
            final(self).samples@ == old(self).samples@,
    {
        if verdict.is_none() {
            return;
        }
        if verdict == self.candidate {
            self.count = self.count.saturating_add(1);
        } else {
            self.candidate = verdict;
            self.count = 1;
        }
        let needed: u8 = if verdict == Some(0i32) { 4 } else { 2 };
        if self.count >= needed {
            self.detected = verdict;
        }
    }

    /// Takes the next picture's sample. `continuous` tells whether it follows
    /// the previous sample without a timestamp gap. A gap or a size change
    /// starts over. Once three samples are held, their verdict is observed
    /// and the oldest is dropped. Returns the detected field order.
    pub fn observe_sample(&mut self, sample: Sample, continuous: bool) -> (r: Option<i32>)
        requires
            old(self).samples@.len() <= 2,
        ensures
            final(self).samples@.len() <= 2,
            r == final(self).detected,
            ({
                let old_samples = old(self).samples@;
                let restart = old_samples.len() > 0 && (old_samples.last().dimensions
                    != sample.dimensions || !continuous);
                let kept = if restart { Seq::<Sample>::empty() } else { old_samples };
                let state = if restart {
                    (None::<i32>, 0u8, None::<i32>)
                } else {
                    (old(self).candidate, old(self).count, old(self).detected)
                };
                let held = kept.push(sample);
                if held.len() == 3 {
                    &&& (final(self).candidate, final(self).count, final(self).detected) == observe_spec(
                        state.0,
                        state.1,
                        state.2,
                        classify_spec(held[0].pixels@, held[1].pixels@, held[2].pixels@),
                    )
                    &&& sample_pixels(final(self).samples@) == sample_pixels(held.drop_first())
                    &&& sample_sizes(final(self).samples@) == sample_sizes(held.drop_first())
                } else {
                    &&& (final(self).candidate, final(self).count, final(self).detected) == state
                    &&& sample_pixels(final(self).samples@) == sample_pixels(held)
                    &&& sample_sizes(final(self).samples@) == sample_sizes(held)
                }
            }),
    {
        let length = self.samples.len();
        if length > 0 {
            let previous = &self.samples[length - 1];
            if previous.dimensions.0 != sample.dimensions.0 || previous.dimensions.1
                != sample.dimensions.1 || !continuous {
                self.samples = VecDeque::new();
                self.candidate = None;
                self.count = 0;
                self.detected = None;
            }
        }
        let ghost kept = self.samples@;
        self.samples.push_back(sample);
        if self.samples.len() == 3 {
            let verdict = classify(&self.samples[0].pixels, &self.samples[1].pixels, &self.samples[2].pixels);
            self.observe(verdict);
            let _ = self.samples.pop_front();
            proof {
                assert(sample_pixels(self.samples@) =~= sample_pixels(kept.push(sample).drop_first()));
                assert(sample_sizes(self.samples@) =~= sample_sizes(kept.push(sample).drop_first()));
            }
        }
        self.detected
    }
}

/// The user's deinterlacing choice.
#[derive(Clone, Copy, Debug, PartialEq, Eq, Structural)]
pub enum Mode {
    Auto,
    On,
    Off,
}

/// Field values shared with the renderer: 0 progressive, 1 top field first,
/// 2 bottom field first.
pub open spec fn field_spec(mode: Mode, detected: i32) -> i32 {
    match mode {
        Mode::Auto => detected,
        Mode::On => if detected == 0 { 1 } else { detected },
        Mode::Off => 0,
    }
}

/// The mode after `mode` when cycling.
pub open spec fn cycled(mode: Mode) -> Mode {
    match mode {
        Mode::Auto => Mode::On,
        Mode::On => Mode::Off,
        Mode::Off => Mode::Auto,
    }
}

impl Default for Mode {
    /// Automatic, as a new player starts.
    fn default() -> (r: Mode)
        ensures
            r == Mode::Auto,
    {
        Mode::Auto
    }
}

impl Mode {
    /// The status text; `active` tells whether automatic mode deinterlaces.
    pub fn status(self, active: bool) -> (r: &'static str)
        ensures
            r@ == match self {
                Mode::Auto => if active { "AUTO (ON)"@ } else { "AUTO (OFF)"@ },
                Mode::On => "ON"@,
                Mode::Off => "OFF"@,
            },
    {
        match self {
            Mode::Auto => if active { "AUTO (ON)" } else { "AUTO (OFF)" },
            Mode::On => "ON",
            Mode::Off => "OFF",
        }
    }

    /// Moves to the next mode, Auto, On, Off and back, and returns the notice
    /// to show.
    pub fn cycle(&mut self) -> (r: &'static str)
        ensures
            *final(self) == cycled(*old(self)),
            r@ == match *final(self) {
                Mode::Auto => "DEINTERLACE: AUTO"@,
                Mode::On => "DEINTERLACE: ON"@,
                Mode::Off => "DEINTERLACE: OFF"@,
            },
    {
        *self = match *self {
            Mode::Auto => Mode::On,
            Mode::On => Mode::Off,
            Mode::Off => Mode::Auto,
        };
        match *self {
            Mode::Auto => "DEINTERLACE: AUTO",
            Mode::On => "DEINTERLACE: ON",
            Mode::Off => "DEINTERLACE: OFF",
        }
    }

    /// The field to deinterlace with, given what was detected or flagged.
    pub fn field(self, detected: i32) -> (r: i32)
        ensures
            r == field_spec(self, detected),
    {
        match self {
            Mode::Auto => detected,
            Mode::On => if detected == 0 { 1 } else { detected },
            Mode::Off => 0,
        }
    }

    /// The field for a frame: automatic mode trusts the picture detection
    /// over the decoder's flag; the manual modes apply to the flag.
    pub fn frame_field(self, flagged: i32, detected: Option<i32>) -> (r: i32)
        ensures
            r == match self {
                Mode::Auto => match detected {
                    Some(d) => d,
                    None => flagged,
                },
                _ => field_spec(self, flagged),
            },
    {
        if self == Mode::Auto {
            match detected {
                Some(d) => d,
                None => flagged,
            }
        } else {
            self.field(flagged)
        }
    }
}

/// Cycling three times returns to the same mode.
pub proof fn lemma_cycle_returns(mode: Mode)
    ensures
        cycled(cycled(cycled(mode))) == mode,
{
}

/// Manual "on" always deinterlaces; "off" never does.
pub proof fn lemma_manual_modes(detected: i32)
    ensures
        field_spec(Mode::On, detected) != 0,
        field_spec(Mode::Off, detected) == 0,
{
}

} // verus!
