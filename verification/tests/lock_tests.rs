use ddup_bak::chunks::lock::{
    next_backoff, LockError, LockMode, LockState, ReadStep, RwLock, WriteStep,
};

fn idle() -> LockState {
    LockState::initial()
}

#[test]
fn lock_modes_are_bytes() {
    assert_eq!(LockMode::Idle.as_u8(), 0);
    assert_eq!(LockMode::Destructive.as_u8(), 1);
    assert_eq!(LockMode::NonDestructive.as_u8(), 2);
    assert_eq!(LockMode::from_u8(0), LockMode::Idle);
    assert_eq!(LockMode::from_u8(1), LockMode::Destructive);
    assert_eq!(LockMode::from_u8(2), LockMode::NonDestructive);
    assert_eq!(LockMode::from_u8(3), LockMode::Idle);
    assert_eq!(LockMode::from_u8(255), LockMode::Idle);
}

#[test]
fn the_state_file_has_the_documented_layout() {
    let state = LockState {
        writer_mode: 2,
        writer_present: 1,
        writer_pid: 0x0102030405060708,
        reader_counts: [1, 2, 0x0300],
    };
    let bytes = state.to_bytes();
    let mut expected = vec![2, 0, 0, 0, 0, 0, 0, 0, 1, 0, 0, 0, 0, 0, 0, 0];
    expected.extend_from_slice(&[8, 7, 6, 5, 4, 3, 2, 1]);
    expected.extend_from_slice(&1u64.to_le_bytes());
    expected.extend_from_slice(&2u64.to_le_bytes());
    expected.extend_from_slice(&0x0300u64.to_le_bytes());
    assert_eq!(bytes, expected);
    assert_eq!(bytes.len(), 48);
    assert_eq!(LockState::from_bytes(&bytes), Ok(state));
    assert_eq!(idle().to_bytes(), vec![0u8; 48]);
}

#[test]
fn a_short_state_file_has_no_readers_where_it_ends() {
    let state = LockState {
        writer_mode: 1,
        writer_present: 1,
        writer_pid: 9,
        reader_counts: [4, 5, 6],
    };
    let bytes = state.to_bytes();
    assert_eq!(LockState::from_bytes(&bytes[..23]), Err(LockError::UnexpectedEof));
    assert_eq!(LockState::from_bytes(&[]), Err(LockError::UnexpectedEof));
    let short = LockState::from_bytes(&bytes[..24]).unwrap();
    assert_eq!(short.reader_counts, [0, 0, 0]);
    assert_eq!(short.writer_pid, 9);
    let partial = LockState::from_bytes(&bytes[..39]).unwrap();
    assert_eq!(partial.reader_counts, [4, 0, 0]);
    let two = LockState::from_bytes(&bytes[..40]).unwrap();
    assert_eq!(two.reader_counts, [4, 5, 0]);
}

#[test]
fn readers_come_and_go() {
    let state = idle();
    let one = state.acquire_read(LockMode::NonDestructive, 10).unwrap();
    assert_eq!(one.reader_counts, [0, 0, 1]);
    let two = one.acquire_read(LockMode::NonDestructive, 11).unwrap();
    assert_eq!(two.reader_counts, [0, 0, 2]);
    let three = two.acquire_read(LockMode::Destructive, 12).unwrap();
    assert_eq!(three.reader_counts, [0, 1, 2]);
    assert_eq!(three.release_read(LockMode::NonDestructive).reader_counts, [0, 1, 1]);
    assert_eq!(idle().release_read(LockMode::Destructive), idle());
    assert!(three.incompatible_readers(LockMode::Destructive));
    assert!(three.incompatible_readers(LockMode::NonDestructive));
    assert!(!two.incompatible_readers(LockMode::NonDestructive));
    assert!(two.incompatible_readers(LockMode::Destructive));
    let full = LockState { reader_counts: [0, u64::MAX, 0], ..idle() };
    assert_eq!(full.acquire_read(LockMode::Destructive, 1).unwrap().reader_counts[1], u64::MAX);
}

#[test]
fn a_destructive_writer_excludes_everybody_else() {
    let held = idle().acquire_write(LockMode::Destructive, 100).unwrap();
    assert_eq!(
        held,
        LockState { writer_mode: 1, writer_present: 1, writer_pid: 100, reader_counts: [0, 0, 0] }
    );
    assert_eq!(held.acquire_write(LockMode::Destructive, 200), None);
    assert_eq!(held.acquire_write(LockMode::NonDestructive, 200), None);
    assert_eq!(held.acquire_read(LockMode::NonDestructive, 200), None);
    // the readers that go with destructive writers are let in
    assert!(held.acquire_read(LockMode::Destructive, 200).is_some());
    // the holder itself is let in
    assert!(held.acquire_read(LockMode::NonDestructive, 100).is_some());
    assert!(held.acquire_write(LockMode::NonDestructive, 100).is_some());
    // another process cannot take the writer away
    assert_eq!(held.release_write(200), held);
    let released = held.release_write(100);
    assert_eq!(released, idle());
    assert!(released.acquire_write(LockMode::NonDestructive, 200).is_some());
    assert!(released.acquire_read(LockMode::NonDestructive, 200).is_some());
}

#[test]
fn concurrent_readers_one_destructive_exclusive_writer() {
    let mut disk = idle();
    let mut first = RwLock::new(1, Some(disk));
    let mut second = RwLock::new(2, Some(disk));
    let mut third = RwLock::new(3, Some(disk));

    let (mut guard_one, persist) =
        first.try_read_lock(LockMode::NonDestructive, disk).unwrap().unwrap();
    disk = persist.unwrap();
    let (mut guard_two, persist) =
        second.try_read_lock(LockMode::NonDestructive, disk).unwrap().unwrap();
    disk = persist.unwrap();
    assert_eq!(disk.reader_counts, [0, 0, 2]);
    assert_eq!(guard_one.mode(), LockMode::NonDestructive);

    // the writer waits, a millisecond at first and then twice as long
    match third.write_lock(LockMode::Destructive, disk, 1).unwrap() {
        WriteStep::Wait { sleep, backoff } => {
            assert_eq!(sleep, 1);
            assert_eq!(backoff, 2);
        }
        other => panic!("acquired: {:?}", other),
    }
    assert!(third.try_write_lock(LockMode::Destructive, disk).unwrap().is_none());
    assert_eq!(third.total_reader_count(), 2);
    assert_eq!(third.reader_count(LockMode::NonDestructive), 2);
    assert!(!third.has_writer());

    disk = guard_one.unlock(&mut first, disk).unwrap();
    assert!(third.try_write_lock(LockMode::Destructive, disk).unwrap().is_none());
    disk = guard_two.unlock(&mut second, disk).unwrap();
    assert_eq!(disk, idle());
    // a guard is given up once
    assert_eq!(guard_two.unlock(&mut second, disk), None);

    match third.write_lock(LockMode::Destructive, disk, 2).unwrap() {
        WriteStep::Acquired { mut guard, persist } => {
            disk = persist.unwrap();
            assert_eq!(disk.writer_pid, 3);
            assert_eq!(guard.mode(), LockMode::Destructive);
            assert!(third.has_writer());
            assert_eq!(third.writer_mode(), Some(LockMode::Destructive));
            assert_eq!(third.writer_pid(), Some(3));
            match first.read_lock(LockMode::NonDestructive, disk, 600).unwrap() {
                ReadStep::Wait { sleep, backoff } => {
                    assert_eq!(sleep, 600);
                    assert_eq!(backoff, 1000);
                }
                other => panic!("acquired: {:?}", other),
            }
            disk = guard.unlock(&mut third, disk).unwrap();
        }
        other => panic!("waiting: {:?}", other),
    }
    assert_eq!(disk, idle());
    assert!(matches!(
        first.read_lock(LockMode::NonDestructive, disk, 1),
        Ok(ReadStep::Acquired { .. })
    ));
}

#[test]
fn a_process_that_writes_takes_locks_without_touching_the_file() {
    let mut disk = idle();
    let mut lock = RwLock::new(7, None);
    assert_eq!(lock.state(), idle());
    let (mut outer, persist) = lock.try_write_lock(LockMode::NonDestructive, disk).unwrap().unwrap();
    disk = persist.unwrap();
    let (mut inner, persist) = lock.try_write_lock(LockMode::Destructive, disk).unwrap().unwrap();
    assert_eq!(persist, None);
    let (mut reader, persist) = lock.try_read_lock(LockMode::Destructive, disk).unwrap().unwrap();
    assert_eq!(persist, None);
    assert_eq!(reader.unlock(&mut lock, disk), None);
    assert_eq!(inner.unlock(&mut lock, disk), None);
    assert_eq!(lock.writer_mode(), Some(LockMode::NonDestructive));
    assert_eq!(outer.unlock(&mut lock, disk), Some(idle()));
    assert_eq!(lock.writer_mode(), None);
    assert_eq!(lock.writer_pid(), None);
}

#[test]
fn no_lock_is_given_in_no_mode() {
    let mut lock = RwLock::new(1, None);
    assert_eq!(lock.try_read_lock(LockMode::Idle, idle()).err(), Some(LockError::InvalidMode));
    assert_eq!(lock.try_write_lock(LockMode::Idle, idle()).err(), Some(LockError::InvalidMode));
    assert_eq!(lock.read_lock(LockMode::Idle, idle(), 1).err(), Some(LockError::InvalidMode));
    assert_eq!(lock.write_lock(LockMode::Idle, idle(), 1).err(), Some(LockError::InvalidMode));
}

#[test]
fn the_wait_doubles_up_to_a_second() {
    assert_eq!(next_backoff(1), 2);
    assert_eq!(next_backoff(2), 4);
    assert_eq!(next_backoff(499), 998);
    assert_eq!(next_backoff(500), 1000);
    assert_eq!(next_backoff(512), 1000);
    assert_eq!(next_backoff(1000), 1000);
    assert_eq!(next_backoff(u64::MAX), 1000);
    assert_eq!(next_backoff(0), 0);
}

#[test]
fn refreshing_takes_note_of_the_file() {
    let mut lock = RwLock::new(1, None);
    let disk = idle().acquire_write(LockMode::NonDestructive, 55).unwrap();
    let disk = disk.acquire_read(LockMode::NonDestructive, 56).unwrap();
    lock.refresh(disk);
    assert_eq!(lock.state(), disk);
    assert!(lock.has_writer());
    assert_eq!(lock.writer_pid(), Some(55));
    assert_eq!(lock.reader_count(LockMode::NonDestructive), 1);
    assert_eq!(lock.reader_count(LockMode::Destructive), 0);
    let many = LockState { reader_counts: [0, u64::MAX, 5], ..idle() };
    lock.refresh(many);
    assert_eq!(lock.total_reader_count(), u64::MAX);
}
