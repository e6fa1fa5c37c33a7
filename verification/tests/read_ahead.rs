use undefined_player::read_ahead::{ReadPlan, State, AHEAD, BACK, CHUNK, INVALID};

fn byte(offset: u64) -> u8 {
    (offset.wrapping_mul(31) ^ (offset >> 8) ^ (offset >> 17)) as u8
}

/// Runs the worker's side synchronously over a file of `size` bytes, failing
/// reads at `fail_at`, until it would wait.
fn pump(state: &mut State, size: u64, fail_at: Option<u64>) {
    loop {
        match state.next_read() {
            ReadPlan::Read { offset, count, generation } => {
                let offset = offset as u64;
                if Some(offset) == fail_at {
                    state.deliver(generation, Err(-5));
                    continue;
                }
                let n = (count as u64).min(size.saturating_sub(offset)) as usize;
                let data: Vec<u8> = (0..n as u64).map(|i| byte(offset + i)).collect();
                state.deliver(generation, Ok(&data));
            }
            ReadPlan::Wait | ReadPlan::Stop => return,
        }
    }
}

fn check(state: &mut State, size: u64, offset: i64, count: usize) {
    let mut read = 0;
    while read < count {
        pump(state, size, None);
        assert!(state.ready());
        let chunk = state.read(count - read).unwrap();
        assert!(!chunk.is_empty());
        for (index, value) in chunk.iter().enumerate() {
            assert_eq!(*value, byte(offset as u64 + (read + index) as u64));
        }
        read += chunk.len();
    }
    assert!(state.bytes.len() <= AHEAD + BACK);
    assert!(state.position - state.start <= BACK as i64);
}

#[test]
fn reads_and_seeks_return_the_file_bytes_and_stop_at_the_end() {
    let size: u64 = 3 * 1024 * 1024 + 123;
    let mut state = State::new();
    check(&mut state, size, 0, size as usize);
    pump(&mut state, size, None);
    assert_eq!(state.read(1), Ok(vec![]));
    let mut random = 23_u64;
    for _ in 0..20 {
        random = random.wrapping_mul(6364136223846793005).wrapping_add(1);
        let position = (random % (size - 100_000)) as i64;
        assert_eq!(state.seek(position, 0, size as i64), Ok(position));
        check(&mut state, size, position, 100_000);
        assert_eq!(state.seek(-500, 1, size as i64), Ok(position + 99_500));
        check(&mut state, size, position + 99_500, 1000);
    }
    assert_eq!(state.seek(-100, 2, size as i64), Ok(size as i64 - 100));
    check(&mut state, size, size as i64 - 100, 100);
    pump(&mut state, size, None);
    assert_eq!(state.read(1), Ok(vec![]));
    assert_eq!(state.seek(-1, 0, size as i64), Err(INVALID));
    assert_eq!(state.seek(i64::MAX, 1, size as i64), Err(INVALID));
    assert_eq!(state.seek(0, 7, size as i64), Err(INVALID));
    assert_eq!(state.seek(0, 0, size as i64), Ok(0));
    check(&mut state, size, 0, CHUNK);
}

#[test]
fn buffered_bytes_come_before_an_error_and_a_seek_recovers() {
    let size = 8 * AHEAD as u64;
    let mut state = State::new();
    pump(&mut state, size, Some(CHUNK as u64));
    assert_eq!(state.read(2 * CHUNK).map(|v| v.len()), Ok(CHUNK));
    assert!(state.ready());
    assert_eq!(state.read(1), Err(-5));
    assert_eq!(state.seek(4 * CHUNK as i64, 0, size as i64), Ok(4 * CHUNK as i64));
    check(&mut state, size, 4 * CHUNK as i64, CHUNK);
}

#[test]
fn reads_for_a_replaced_window_are_discarded() {
    let size = 32 * AHEAD as u64;
    let mut state = State::new();
    let plan = state.next_read();
    let target = 16 * AHEAD as i64;
    assert_eq!(state.seek(target, 0, size as i64), Ok(target));
    if let ReadPlan::Read { offset, count, generation } = plan {
        let stale: Vec<u8> = (0..count as u64).map(|i| byte(offset as u64 + i)).collect();
        state.deliver(generation, Ok(&stale));
        state.deliver(generation, Err(-5));
    } else {
        panic!("an empty window is filled");
    }
    assert_eq!(state.bytes.len(), 0);
    assert!(!state.ready());
    check(&mut state, size, target, 3 * CHUNK);
}

#[test]
fn the_worker_waits_once_enough_is_buffered_and_stops_when_told() {
    let mut state = State::new();
    pump(&mut state, u64::MAX, None);
    assert_eq!(state.bytes.len(), AHEAD);
    assert_eq!(state.next_read(), ReadPlan::Wait);
    state.stopped = true;
    assert_eq!(state.next_read(), ReadPlan::Stop);
}

/// Serves one worker read of a `size`-byte file, failing at `fail_at`.
fn serve(state: &mut State, size: u64, fail_at: Option<u64>) -> bool {
    match state.next_read() {
        ReadPlan::Read { offset, count, generation } => {
            let offset = offset as u64;
            if Some(offset) == fail_at {
                state.deliver(generation, Err(-5));
            } else {
                let n = (count as u64).min(size.saturating_sub(offset)) as usize;
                let data: Vec<u8> = (0..n as u64).map(|i| byte(offset + i)).collect();
                state.deliver(generation, Ok(&data));
            }
            true
        }
        ReadPlan::Wait | ReadPlan::Stop => false,
    }
}

/// A read of up to `length` bytes, with the worker serving chunks only while
/// the reader would block.
fn read_blocking(state: &mut State, size: u64, fail_at: Option<u64>, length: usize) -> Result<Vec<u8>, i32> {
    while length > 0 && !state.ready() {
        assert!(serve(state, size, fail_at));
    }
    state.read(length)
}

fn check_lazily(state: &mut State, size: u64, offset: i64, count: usize) {
    let mut read = 0;
    while read < count {
        let chunk = read_blocking(state, size, None, count - read).unwrap();
        assert!(!chunk.is_empty());
        for (index, value) in chunk.iter().enumerate() {
            assert_eq!(*value, byte(offset as u64 + (read + index) as u64), "at {}", read + index);
        }
        read += chunk.len();
    }
    assert!(state.bytes.len() <= AHEAD + BACK);
    assert!(state.position - state.start <= BACK as i64);
}

#[test]
fn wrapped_buffer_random_seeks_and_eof_preserve_every_byte() {
    let size: i64 = 24 * 1024 * 1024;
    let file = size as u64;
    let mut state = State::new();
    check_lazily(&mut state, file, 0, size as usize);
    assert_eq!(read_blocking(&mut state, file, None, 1), Ok(vec![]));
    let mut random = 23_u64;
    for _ in 0..200 {
        random = random.wrapping_mul(6364136223846793005).wrapping_add(1);
        let position = (random % (file - 100_000)) as i64;
        assert_eq!(state.seek(position, 0, size), Ok(position));
        check_lazily(&mut state, file, position, 100_000);
        assert_eq!(state.seek(-500, 1, size), Ok(position + 99_500));
        check_lazily(&mut state, file, position + 99_500, 1000);
    }
    assert_eq!(state.seek(-100, 2, size), Ok(size - 100));
    check_lazily(&mut state, file, size - 100, 100);
    assert_eq!(read_blocking(&mut state, file, None, 1), Ok(vec![]));
    assert_eq!(state.seek(-1, 0, size), Err(INVALID));
    assert_eq!(state.seek(i64::MAX, 1, size), Err(INVALID));
    assert_eq!(state.seek(0, 7, size), Err(INVALID));
    assert_eq!(state.seek(0, 0, size), Ok(0));
    check_lazily(&mut state, file, 0, CHUNK);
}

#[test]
fn stalled_reads_allow_consumption_and_seeks_discard_old_results() {
    for fail in [false, true] {
        let size = 32 * AHEAD as u64;
        let mut state = State::new();
        // The first read completes; the second is in flight when the reader
        // consumes the first chunk and seeks away.
        assert!(serve(&mut state, size, None));
        let stalled = state.next_read();
        check_lazily(&mut state, size, 0, CHUNK);
        let target = 16 * AHEAD as i64;
        assert_eq!(state.seek(target, 0, size as i64), Ok(target));
        match stalled {
            ReadPlan::Read { offset, count, generation } => {
                if fail {
                    state.deliver(generation, Err(-5));
                } else {
                    let data: Vec<u8> = (0..count as u64).map(|i| byte(offset as u64 + i)).collect();
                    state.deliver(generation, Ok(&data));
                }
            }
            _ => panic!("the window was not full"),
        }
        check_lazily(&mut state, size, target, 3 * CHUNK);
    }
}

#[test]
fn buffered_bytes_precede_io_errors_and_seek_can_recover() {
    let size = 8 * AHEAD as u64;
    let fail_at = Some(CHUNK as u64);
    let mut state = State::new();
    let mut read = 0;
    while read < CHUNK {
        let chunk = read_blocking(&mut state, size, fail_at, CHUNK - read).unwrap();
        for (index, value) in chunk.iter().enumerate() {
            assert_eq!(*value, byte((read + index) as u64));
        }
        read += chunk.len();
    }
    assert_eq!(read_blocking(&mut state, size, fail_at, 1), Err(-5));
    assert_eq!(state.seek(4 * CHUNK as i64, 0, size as i64), Ok(4 * CHUNK as i64));
    check_lazily(&mut state, size, 4 * CHUNK as i64, CHUNK);
}
