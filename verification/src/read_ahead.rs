//! The read-ahead buffer between a file and the demuxer: a window of the file
//! kept around the read position, filled ahead by a worker and trimmed
//! behind. The worker's reads and the waiting are done by the caller; this
//! module decides what to read and answers reads and seeks.
use vstd::prelude::*;
use std::collections::VecDeque;

verus! {

/// Bytes kept ahead of the read position.
pub const AHEAD: usize = 4 * 1024 * 1024;
/// Bytes kept behind the read position, for short backward seeks.
pub const BACK: usize = 4 * 1024 * 1024;
/// Largest single read of the worker.
pub const CHUNK: usize = 64 * 1024;
/// The negative errno for an invalid argument.
pub const INVALID: i32 = -22;

/// The buffered window `[start, start + bytes.len())` of the file, the read
/// position inside it, the generation that tells stale worker reads apart,
/// and the end-of-file (0) or negative error that stopped the worker.
pub struct State {
    pub bytes: VecDeque<u8>,
    pub start: i64,
    pub position: i64,
    pub generation: u64,
    pub error: Option<i32>,
    pub stopped: bool,
}

/// What the worker should do next.
#[derive(Debug, PartialEq, Eq, Structural, Clone, Copy)]
pub enum ReadPlan {
    Stop,
    Wait,
    Read { offset: i64, count: usize, generation: u64 },
}

/// The next generation, wrapping.
pub open spec fn next_generation(g: u64) -> u64 {
    if g == u64::MAX { 0 } else { (g + 1) as u64 }
}

/// `bytes` are the bytes of `file` from offset `start` on.
pub open spec fn mirrors(start: int, bytes: Seq<u8>, file: Seq<u8>) -> bool {
    &&& (bytes.len() == 0 || start + bytes.len() <= file.len())
    &&& forall|i: int| 0 <= i < bytes.len() ==> #[trigger] bytes[i] == file[start + i]
}

/// Dropping bytes from the front keeps the rest at their offsets.
pub proof fn lemma_mirrors_skip(start: int, bytes: Seq<u8>, d: int, file: Seq<u8>)
    requires
        mirrors(start, bytes, file),
        0 <= d <= bytes.len(),
    ensures
        mirrors(start + d, bytes.skip(d), file),
{
    assert forall|i: int| 0 <= i < bytes.skip(d).len() implies #[trigger] bytes.skip(d)[i] == file[start + d + i] by {
        assert(bytes.skip(d)[i] == bytes[i + d]);
    }
}

/// Bytes to drop from the front so that at most `BACK` stay behind the
/// position.
pub open spec fn discard(start: int, position: int) -> int {
    if position - start > BACK { position - start - BACK } else { 0 }
}

impl State {
    /// The window is ordered, inside the `i64` range, at most `AHEAD + BACK`
    /// bytes long, and keeps at most `BACK` bytes behind the position.
    pub open spec fn wf(&self) -> bool {
        &&& 0 <= self.start <= self.position <= self.start + self.bytes@.len()
        &&& self.start + self.bytes@.len() <= i64::MAX
        &&& self.bytes@.len() <= AHEAD + BACK
        &&& self.position - self.start <= BACK
    }

    pub open spec fn end_spec(&self) -> int {
        self.start + self.bytes@.len()
    }

    /// An empty window at the start of the file.
    pub fn new() -> (r: Self)
        ensures
            r.wf(),
            r.bytes@.len() == 0,
            r.start == 0,
            r.position == 0,
            r.generation == 0,
            r.error is None,
            !r.stopped,
    {
        State { bytes: VecDeque::new(), start: 0, position: 0, generation: 0, error: None, stopped: false }
    }

    /// Offset just past the buffered bytes.
    pub fn end(&self) -> (r: i64)
        requires
            self.wf(),
        ensures
            r == self.end_spec(),
    {
        self.start + self.bytes.len() as i64
    }

    /// Drops the bytes more than `BACK` behind the position.
    pub fn trim(&mut self)
        requires
            0 <= old(self).start <= old(self).position <= old(self).start + old(self).bytes@.len(),
            old(self).start + old(self).bytes@.len() <= i64::MAX,
        ensures
            final(self).bytes@ == old(self).bytes@.skip(discard(old(self).start as int, old(self).position as int)),
            final(self).start == old(self).start + discard(old(self).start as int, old(self).position as int),
            final(self).position == old(self).position,
            final(self).generation == old(self).generation,
            final(self).error == old(self).error,
            final(self).stopped == old(self).stopped,
    {
        let behind = self.position - self.start;
        let length = self.bytes.len();
        if behind > BACK as i64 {
            assert(behind - BACK <= length);
            let count = (behind - BACK as i64) as usize;
            assert(count == discard(old(self).start as int, old(self).position as int));
            let ghost before = self.bytes@;
            let mut k: usize = 0;
            while k < count
                invariant
                    k <= count,
                    count <= before.len(),
                    self.bytes@ == before.skip(k as int),
                    self.start == old(self).start,
                    self.position == old(self).position,
                    self.generation == old(self).generation,
                    self.error == old(self).error,
                    self.stopped == old(self).stopped,
                decreases count - k,
            {
                let _ = self.bytes.pop_front();
                proof {
                    assert(before.skip(k as int).drop_first() =~= before.skip(k + 1));
                }
                k = k + 1;
            }
            self.start = self.start + count as i64;
        } else {
            proof {
                assert(self.bytes@.skip(0) =~= self.bytes@);
            }
        }
    }

    /// What the worker does next: stop when told to; wait while an end or
    /// error is pending or `AHEAD` bytes are ready; else read the next chunk
    /// after the window.
    pub fn next_read(&self) -> (r: ReadPlan)
        requires
            self.wf(),
        ensures
            self.stopped ==> r == ReadPlan::Stop,
            !self.stopped && (self.error is Some || self.end_spec() - self.position >= AHEAD)
                ==> r == ReadPlan::Wait,
            !self.stopped && self.error is None && self.end_spec() - self.position < AHEAD ==> r
                == (ReadPlan::Read {
                offset: self.end_spec() as i64,
                count: min4(
                    CHUNK as int,
                    AHEAD - (self.end_spec() - self.position),
                    AHEAD + BACK - self.bytes@.len(),
                    i64::MAX - self.end_spec(),
                ) as usize,
                generation: self.generation,
            }),
    {
        if self.stopped {
            return ReadPlan::Stop;
        }
        let end = self.end();
        let ahead = (end - self.position) as usize;
        if self.error.is_some() || ahead >= AHEAD {
            return ReadPlan::Wait;
        }
        let mut count = CHUNK;
        if AHEAD - ahead < count {
            count = AHEAD - ahead;
        }
        if AHEAD + BACK - self.bytes.len() < count {
            count = AHEAD + BACK - self.bytes.len();
        }
        if ((i64::MAX - end) as u64) < count as u64 {
            count = (i64::MAX - end) as usize;
        }
        ReadPlan::Read { offset: end, count, generation: self.generation }
    }

    /// Takes the result of a worker read made in `generation`: ignored after
    /// a seek replaced the window; no bytes mean end of file; an error stops
    /// reading until the next seek.
    pub fn deliver(&mut self, generation: u64, result: Result<&[u8], i32>)
        requires
            old(self).wf(),
            generation == old(self).generation ==> match result {
                Ok(data) => old(self).bytes@.len() + data@.len() <= AHEAD + BACK
                    && old(self).end_spec() + data@.len() <= i64::MAX,
                Err(_) => true,
            },
        ensures
            final(self).wf(),
            final(self).start == old(self).start,
            final(self).position == old(self).position,
            final(self).generation == old(self).generation,
            final(self).stopped == old(self).stopped,
            generation != old(self).generation ==> final(self).bytes@ == old(self).bytes@
                && final(self).error == old(self).error,
            generation == old(self).generation ==> match result {
                Ok(data) => if data@.len() == 0 {
                    final(self).bytes@ == old(self).bytes@ && final(self).error == Some(0i32)
                } else {
                    final(self).bytes@ == old(self).bytes@ + data@ && final(self).error == old(self).error
                },
                Err(code) => final(self).bytes@ == old(self).bytes@ && final(self).error == Some(code),
            },
            forall|file: Seq<u8>|
                #[trigger] mirrors(old(self).start as int, old(self).bytes@, file) && (generation == old(self).generation ==> (result matches Ok(
                    data,
                ) ==> old(self).end_spec() + data@.len() <= file.len() && data@ == file.subrange(
                    old(self).end_spec(),
                    old(self).end_spec() + data@.len(),
                ))) ==> mirrors(final(self).start as int, final(self).bytes@, file),
    {
        if generation != self.generation {
            return;
        }
        match result {
            Ok(data) => {
                if data.len() == 0 {
                    self.error = Some(0);
                    proof {
                        let now = *self;
                        let was = *old(self);
                        assert forall|file: Seq<u8>| #[trigger] mirrors(was.start as int, was.bytes@, file) implies mirrors(now.start as int, now.bytes@, file) by {
                            assert forall|i: int| 0 <= i < now.bytes@.len() implies now.start + i < file.len() && #[trigger] now.bytes@[i] == file[now.start + i] by {
                                assert(now.bytes@[i] == was.bytes@[i]);
                            }
                        }
                    }
                } else {
                    let ghost before = self.bytes@;
                    let mut k: usize = 0;
                    while k < data.len()
                        invariant
                            k <= data@.len(),
                            self.bytes@ == before + data@.subrange(0, k as int),
                            self.start == old(self).start,
                            self.position == old(self).position,
                            self.generation == old(self).generation,
                            self.error == old(self).error,
                            self.stopped == old(self).stopped,
                        decreases data@.len() - k,
                    {
                        self.bytes.push_back(data[k]);
                        proof {
                            assert(before + data@.subrange(0, k + 1) =~= (before + data@.subrange(0, k as int)).push(data@[k as int]));
                        }
                        k = k + 1;
                    }
                    proof {
                        assert(data@.subrange(0, data@.len() as int) =~= data@);
                        assert forall|file: Seq<u8>|
                            #[trigger] mirrors(old(self).start as int, old(self).bytes@, file) && (old(self).end_spec() + data@.len() <= file.len() && data@ == file.subrange(
                                old(self).end_spec(),
                                old(self).end_spec() + data@.len(),
                            )) implies mirrors(self.start as int, self.bytes@, file) by {
                            assert forall|i: int| 0 <= i < self.bytes@.len() implies self.start + i < file.len() && #[trigger] self.bytes@[i] == file[self.start + i] by {
                                if i >= old(self).bytes@.len() {
                                    let j = i - old(self).bytes@.len();
                                    assert(self.bytes@[i] == data@[j]);
                                    assert(data@[j] == file.subrange(old(self).end_spec(), old(self).end_spec() + data@.len())[j]);
                                } else {
                                    assert(self.bytes@[i] == old(self).bytes@[i]);
                                }
                            }
                        }
                    }
                }
            },
            Err(code) => {
                self.error = Some(code);
            },
        }
    }

    /// A read can be answered: bytes are buffered past the position, or the
    /// worker reported an end or error.
    pub fn ready(&self) -> (r: bool)
        requires
            self.wf(),
        ensures
            r == (self.position != self.end_spec() || self.error is Some),
    {
        self.position != self.end() || self.error.is_some()
    }

    /// Answers a read of up to `length` bytes once `ready`: the buffered
    /// bytes from the position on, or at the end of the window the end of
    /// file (no bytes) or the error.
    pub fn read(&mut self, length: usize) -> (r: Result<Vec<u8>, i32>)
        requires
            old(self).wf(),
            length == 0 || old(self).position != old(self).end_spec() || old(self).error is Some,
        ensures
            final(self).wf(),
            final(self).generation == old(self).generation,
            final(self).error == old(self).error,
            final(self).stopped == old(self).stopped,
            ({
                let from = old(self).position - old(self).start;
                let available = old(self).end_spec() - old(self).position;
                let count = if length < available { length as int } else { available };
                if length == 0 {
                    r matches Ok(v) && v@.len() == 0
                } else if count == 0 {
                    match old(self).error {
                        Some(0i32) => r matches Ok(v) && v@.len() == 0,
                        Some(e) => r == Err::<Vec<u8>, i32>(e),
                        None => false,
                    }
                } else {
                    &&& r matches Ok(v) && v@ == old(self).bytes@.subrange(from, from + count)
                    &&& final(self).position == old(self).position + count
                }
            }),
            length == 0 || old(self).end_spec() == old(self).position ==> final(self).position
                == old(self).position,
            final(self).bytes@ == old(self).bytes@.skip(final(self).start - old(self).start),
            final(self).start >= old(self).start,
            forall|file: Seq<u8>|
                #[trigger] mirrors(old(self).start as int, old(self).bytes@, file) ==> mirrors(final(self).start as int, final(self).bytes@, file) && (r matches Ok(v) ==> (v@.len()
                    > 0 ==> v@ == file.subrange(old(self).position as int, old(self).position + v@.len()))),
    {
        if length == 0 {
            proof {
                assert(self.bytes@.skip(0) =~= self.bytes@);
            }
            return Ok(Vec::new());
        }
        let end = self.end();
        let available = (end - self.position) as usize;
        let count = if length < available { length } else { available };
        if count == 0 {
            proof {
                assert(self.bytes@.skip(0) =~= self.bytes@);
            }
            return match self.error {
                Some(0) => Ok(Vec::new()),
                Some(e) => Err(e),
                None => Ok(Vec::new()),
            };
        }
        let from = (self.position - self.start) as usize;
        let mut out: Vec<u8> = Vec::new();
        let mut k: usize = 0;
        while k < count
            invariant
                self.wf(),
                *self == *old(self),
                from == self.position - self.start,
                from + count <= self.bytes@.len(),
                k <= count,
                out@ == self.bytes@.subrange(from as int, from + k),
            decreases count - k,
        {
            out.push(self.bytes[from + k]);
            proof {
                assert(self.bytes@.subrange(from as int, from + k + 1) =~= self.bytes@.subrange(from as int, from + k).push(self.bytes@[from + k]));
            }
            k = k + 1;
        }
        let ghost old_state = *self;
        self.position = self.position + count as i64;
        self.trim();
        proof {
            let now = *self;
            assert forall|file: Seq<u8>| #[trigger] mirrors(old_state.start as int, old_state.bytes@, file) implies mirrors(now.start as int, now.bytes@, file)
                && out@ == file.subrange(old_state.position as int, old_state.position + out@.len()) by {
                lemma_mirrors_skip(old_state.start as int, old_state.bytes@, now.start - old_state.start, file);
                let last = (from + count - 1) as int;
                assert(old_state.bytes@[last] == file[old_state.start + last]);
                assert(old_state.start + last < file.len());
                assert forall|i: int| 0 <= i < out@.len() implies #[trigger] out@[i] == file.subrange(old_state.position as int, old_state.position + out@.len())[i] by {
                    assert(out@[i] == old_state.bytes@[from + i]);
                    assert(old_state.bytes@[from + i] == file[old_state.start + from + i]);
                }
                assert(out@ =~= file.subrange(old_state.position as int, old_state.position + out@.len()));
            }
        }
        Ok(out)
    }

    /// Moves the position to `offset` from the start (`whence` 0), the
    /// position (1) or the end of a `size`-byte file (2). A target outside
    /// the window replaces it and starts a new generation; a negative or
    /// overflowing target, or another `whence`, is `INVALID`.
    pub fn seek(&mut self, offset: i64, whence: i32, size: i64) -> (r: Result<i64, i32>)
        requires
            old(self).wf(),
        ensures
            final(self).wf(),
            final(self).stopped == old(self).stopped,
            ({
                let base: int = if whence == 0 { 0 } else if whence == 1 { old(self).position as int } else { size as int };
                let target = base + offset;
                if !(0 <= whence <= 2) || target < 0 || target > i64::MAX {
                    r == Err::<i64, i32>(INVALID) && *final(self) == *old(self)
                } else if target < old(self).start || target > old(self).end_spec() {
                    &&& r == Ok::<i64, i32>(target as i64)
                    &&& final(self).bytes@.len() == 0
                    &&& final(self).start == target
                    &&& final(self).position == target
                    &&& final(self).error is None
                    &&& final(self).generation == next_generation(old(self).generation)
                } else {
                    &&& r == Ok::<i64, i32>(target as i64)
                    &&& final(self).position == target
                    &&& final(self).bytes@ == old(self).bytes@.skip(discard(old(self).start as int, target))
                    &&& final(self).start == old(self).start + discard(old(self).start as int, target)
                    &&& final(self).error == old(self).error
                    &&& final(self).generation == old(self).generation
                }
            }),
            forall|file: Seq<u8>| #[trigger] mirrors(old(self).start as int, old(self).bytes@, file) ==> mirrors(final(self).start as int, final(self).bytes@, file),
    {
        let base: i64 = if whence == 0 {
            0
        } else if whence == 1 {
            self.position
        } else if whence == 2 {
            size
        } else {
            return Err(INVALID);
        };
        let target = match base.checked_add(offset) {
            Some(t) => t,
            None => return Err(INVALID),
        };
        if target < 0 {
            return Err(INVALID);
        }
        let end = self.end();
        let ghost replaced = target < self.start || target > end;
        if target < self.start || target > end {
            self.bytes = VecDeque::new();
            self.start = target;
            self.error = None;
            self.generation = if self.generation == u64::MAX { 0 } else { self.generation + 1 };
        }
        let ghost before = *self;
        self.position = target;
        self.trim();
        proof {
            let now = *self;
            let was = *old(self);
            assert forall|file: Seq<u8>| #[trigger] mirrors(was.start as int, was.bytes@, file) implies mirrors(now.start as int, now.bytes@, file) by {
                if replaced {
                    assert(before.bytes@.len() == 0);
                    assert(now.bytes@.len() == 0);
                } else {
                    assert(before.bytes@ == was.bytes@ && before.start == was.start);
                    lemma_mirrors_skip(was.start as int, was.bytes@, now.start - was.start, file);
                }
            }
        }
        Ok(target)
    }
}

pub open spec fn min4(a: int, b: int, c: int, d: int) -> int {
    let ab = if a <= b { a } else { b };
    let cd = if c <= d { c } else { d };
    if ab <= cd { ab } else { cd }
}

} // verus!
