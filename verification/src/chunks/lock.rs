//! The lock that processes share through a file: one writer in one of two
//! modes, and readers counted by mode.
//!
//! The file is read and written elsewhere. What stands here are the state
//! that the file holds, the decisions that are taken on it, and the
//! bookkeeping of one process.

use vstd::bytes::{spec_u64_from_le_bytes, spec_u64_to_le_bytes, u64_from_le_bytes, u64_to_le_bytes};
use vstd::prelude::*;
use vstd::slice::slice_subrange;

verus! {

/// The mode of a writer, and of the readers that go with it.
#[derive(Debug, Clone, Copy, PartialEq, Eq, Structural)]
pub enum LockMode {
    /// No mode: what the file holds while nobody writes.
    Idle,
    /// The holder may delete chunks.
    Destructive,
    /// The holder will not delete chunks.
    NonDestructive,
}

impl LockMode {
    /// The mode that a byte of the file stands for; every byte but 1 and 2
    /// stands for no mode.
    pub open spec fn of(value: u8) -> LockMode {
        if value == 1 {
            LockMode::Destructive
        } else if value == 2 {
            LockMode::NonDestructive
        } else {
            LockMode::Idle
        }
    }

    /// The byte that stands for the mode, which is also the place of the
    /// mode among the reader counters.
    pub open spec fn index(self) -> u8 {
        match self {
            LockMode::Idle => 0,
            LockMode::Destructive => 1,
            LockMode::NonDestructive => 2,
        }
    }

    pub fn from_u8(value: u8) -> (mode: Self)
        ensures
            mode == Self::of(value),
    {
        match value {
            1 => LockMode::Destructive,
            2 => LockMode::NonDestructive,
            _ => LockMode::Idle,
        }
    }

    pub fn as_u8(self) -> (value: u8)
        ensures
            value == self.index(),
            Self::of(value) == self,
    {
        match self {
            LockMode::Idle => 0,
            LockMode::Destructive => 1,
            LockMode::NonDestructive => 2,
        }
    }
}

/// Why a lock could not be taken or read.
#[derive(Debug, Clone, Copy, PartialEq, Eq, Structural)]
pub enum LockError {
    /// A lock was asked for in no mode.
    InvalidMode,
    /// The file ends before the identifier of the writer does.
    UnexpectedEof,
}

/// The length of a state file.
pub const STATE_LENGTH: usize = 48;

/// What the file holds.
#[derive(Debug, Clone, Copy, PartialEq, Eq)]
pub struct LockState {
    pub writer_mode: u8,
    pub writer_present: u8,
    pub writer_pid: u64,
    pub reader_counts: [u64; 3],
}

/// What the file holds, apart from how it is held in memory.
pub struct LockView {
    pub writer_mode: u8,
    pub writer_present: u8,
    pub writer_pid: u64,
    pub reader_counts: Seq<u64>,
}

impl View for LockState {
    type V = LockView;

    open spec fn view(&self) -> LockView {
        LockView {
            writer_mode: self.writer_mode,
            writer_present: self.writer_present,
            writer_pid: self.writer_pid,
            reader_counts: self.reader_counts@,
        }
    }
}

/// One more than `count`, or the largest count where that is too much.
pub open spec fn incremented(count: u64) -> u64 {
    if count < u64::MAX {
        (count + 1) as u64
    } else {
        u64::MAX
    }
}

/// One less than `count`, and nothing less than nothing.
pub open spec fn decremented(count: u64) -> u64 {
    if count > 0 {
        (count - 1) as u64
    } else {
        0
    }
}

impl LockView {
    /// Whether a writer holds the lock.
    pub open spec fn has_writer(self) -> bool {
        self.writer_present != 0
    }

    /// Whether a process other than `pid` holds the lock as writer.
    pub open spec fn has_foreign_writer(self, pid: u64) -> bool {
        self.has_writer() && self.writer_pid != pid
    }

    /// Whether a reader of `mode` is let in for the process `pid`: there is
    /// no writer, or the writer is of the same mode, or it is the process
    /// itself.
    pub open spec fn admits_reader(self, mode: LockMode, pid: u64) -> bool {
        !self.has_writer() || LockMode::of(self.writer_mode) == mode || self.writer_pid == pid
    }

    /// Whether there are readers of a mode other than `mode`.
    pub open spec fn has_incompatible_readers(self, mode: LockMode) -> bool {
        exists|i: int| 0 <= i < 3 && i != mode.index() && #[trigger] self.reader_counts[i] > 0
    }

    /// Whether a writer of `mode` is let in for the process `pid`: no other
    /// process writes, and no reader is of another mode.
    pub open spec fn admits_writer(self, mode: LockMode, pid: u64) -> bool {
        !self.has_foreign_writer(pid) && !self.has_incompatible_readers(mode)
    }

    /// The state with one reader of `mode` more.
    pub open spec fn with_reader(self, mode: LockMode) -> LockView {
        LockView {
            reader_counts: self.reader_counts.update(
                mode.index() as int,
                incremented(self.reader_counts[mode.index() as int]),
            ),
            ..self
        }
    }

    /// The state with one reader of `mode` less.
    pub open spec fn without_reader(self, mode: LockMode) -> LockView {
        LockView {
            reader_counts: self.reader_counts.update(
                mode.index() as int,
                decremented(self.reader_counts[mode.index() as int]),
            ),
            ..self
        }
    }

    /// The state with the process `pid` as writer of `mode`.
    pub open spec fn with_writer(self, mode: LockMode, pid: u64) -> LockView {
        LockView { writer_mode: mode.index(), writer_present: 1, writer_pid: pid, ..self }
    }

    /// The state without the writer, where the writer is the process `pid`.
    pub open spec fn without_writer(self, pid: u64) -> LockView {
        if self.has_writer() && self.writer_pid == pid {
            LockView { writer_mode: 0, writer_present: 0, writer_pid: 0, ..self }
        } else {
            self
        }
    }

    /// The state as the 48 bytes of the file: the mode of the writer and
    /// seven bytes of padding, the presence of a writer and seven bytes of
    /// padding, the identifier of the writing process, and the three reader
    /// counters; all numbers in little-endian order.
    pub open spec fn bytes(self) -> Seq<u8> {
        seq![self.writer_mode, 0u8, 0u8, 0u8, 0u8, 0u8, 0u8, 0u8] + seq![
            self.writer_present,
            0u8,
            0u8,
            0u8,
            0u8,
            0u8,
            0u8,
            0u8,
        ] + spec_u64_to_le_bytes(self.writer_pid) + spec_u64_to_le_bytes(self.reader_counts[0])
            + spec_u64_to_le_bytes(self.reader_counts[1]) + spec_u64_to_le_bytes(
            self.reader_counts[2],
        )
    }
}

/// The reader counter at `place` of a file: what the file holds there, or
/// nothing where the file ends before it or before an earlier one.
pub open spec fn counter_at(bytes: Seq<u8>, place: int) -> u64 {
    if bytes.len() >= 32 + 8 * place {
        spec_u64_from_le_bytes(bytes.subrange(24 + 8 * place, 32 + 8 * place))
    } else {
        0
    }
}

/// What a file holds. A file that ends before the identifier of the writer
/// does cannot be read.
pub open spec fn parsed_state(bytes: Seq<u8>) -> Result<LockView, LockError> {
    if bytes.len() < 24 {
        Err(LockError::UnexpectedEof)
    } else {
        Ok(
            LockView {
                writer_mode: bytes[0],
                writer_present: bytes[8],
                writer_pid: spec_u64_from_le_bytes(bytes.subrange(16, 24)),
                reader_counts: seq![
                    counter_at(bytes, 0),
                    counter_at(bytes, 1),
                    counter_at(bytes, 2),
                ],
            },
        )
    }
}

/// A state that was written is read as it was written.
pub proof fn lemma_parsed_state_bytes(state: LockView)
    requires
        state.reader_counts.len() == 3,
    ensures
        state.bytes().len() == STATE_LENGTH,
        parsed_state(state.bytes()) == Ok::<LockView, LockError>(state),
{
    vstd::bytes::lemma_auto_spec_u64_to_from_le_bytes();
    let bytes = state.bytes();
    assert(bytes.subrange(16, 24) =~= spec_u64_to_le_bytes(state.writer_pid));
    assert(bytes.subrange(24, 32) =~= spec_u64_to_le_bytes(state.reader_counts[0]));
    assert(bytes.subrange(32, 40) =~= spec_u64_to_le_bytes(state.reader_counts[1]));
    assert(bytes.subrange(40, 48) =~= spec_u64_to_le_bytes(state.reader_counts[2]));
    assert(parsed_state(bytes).unwrap().reader_counts =~= state.reader_counts);
}

/// Whether the process `holder` holds the lock as destructive writer.
pub open spec fn held_destructive(state: LockView, holder: u64) -> bool {
    state.has_writer() && state.writer_pid == holder && LockMode::of(state.writer_mode)
        == LockMode::Destructive
}

/// While a process holds the lock as destructive writer, no other process
/// is let in as writer of any mode, nor as reader of any mode but the
/// destructive one, which goes with that writer.
pub proof fn lemma_destructive_writer_excludes(
    state: LockView,
    holder: u64,
    other: u64,
    mode: LockMode,
)
    requires
        held_destructive(state, holder),
        other != holder,
    ensures
        !state.admits_writer(mode, other),
        mode != LockMode::Destructive ==> !state.admits_reader(mode, other),
{
}

/// A process that holds the lock as destructive writer holds it until it
/// gives it up itself: whatever another process does to the state, readers
/// coming, readers going, an attempt to take the writer away, leaves the
/// holder in place.
pub proof fn lemma_destructive_writer_stays(
    state: LockView,
    holder: u64,
    other: u64,
    mode: LockMode,
)
    requires
        held_destructive(state, holder),
        other != holder,
    ensures
        held_destructive(state.with_reader(mode), holder),
        held_destructive(state.without_reader(mode), holder),
        state.without_writer(other) == state,
        !held_destructive(state.without_writer(holder), holder),
{
}

impl LockState {
    /// The state of a lock that nobody holds.
    pub fn initial() -> (state: Self)
        ensures
            state@ == (LockView {
                writer_mode: 0,
                writer_present: 0,
                writer_pid: 0,
                reader_counts: seq![0u64, 0u64, 0u64],
            }),
    {
        let state = LockState {
            writer_mode: 0,
            writer_present: 0,
            writer_pid: 0,
            reader_counts: [0, 0, 0],
        };
        assert(state.reader_counts@ =~= seq![0u64, 0u64, 0u64]);
        state
    }

    /// The state as the bytes of the file.
    pub fn to_bytes(&self) -> (bytes: Vec<u8>)
        ensures
            bytes@ == self@.bytes(),
            bytes@.len() == STATE_LENGTH,
            parsed_state(bytes@) == Ok::<LockView, LockError>(self@),
    {
        let mut out: Vec<u8> = Vec::new();
        out.push(self.writer_mode);
        let mut i: usize = 0;
        while i < 7
            invariant
                i <= 7,
                out@ == seq![self.writer_mode] + Seq::new(i as nat, |k: int| 0u8),
            decreases 7 - i,
        {
            out.push(0);
            i = i + 1;
            assert(out@ =~= seq![self.writer_mode] + Seq::new(i as nat, |k: int| 0u8));
        }
        out.push(self.writer_present);
        let mut j: usize = 0;
        while j < 7
            invariant
                j <= 7,
                out@ == seq![self.writer_mode] + Seq::new(7, |k: int| 0u8) + seq![
                    self.writer_present,
                ] + Seq::new(j as nat, |k: int| 0u8),
            decreases 7 - j,
        {
            out.push(0);
            j = j + 1;
            assert(out@ =~= seq![self.writer_mode] + Seq::new(7, |k: int| 0u8) + seq![
                self.writer_present,
            ] + Seq::new(j as nat, |k: int| 0u8));
        }
        let mut pid = u64_to_le_bytes(self.writer_pid);
        let mut first = u64_to_le_bytes(self.reader_counts[0]);
        let mut second = u64_to_le_bytes(self.reader_counts[1]);
        let mut third = u64_to_le_bytes(self.reader_counts[2]);
        out.append(&mut pid);
        out.append(&mut first);
        out.append(&mut second);
        out.append(&mut third);
        proof {
            assert(out@ =~= self@.bytes());
            lemma_parsed_state_bytes(self@);
        }
        out
    }

    /// Reads the state that a file holds.
    pub fn from_bytes(bytes: &[u8]) -> (result: Result<Self, LockError>)
        ensures
            match parsed_state(bytes@) {
                Ok(state) => result is Ok && result.unwrap()@ == state,
                Err(e) => result is Err && result->Err_0 == e,
            },
    {
        if bytes.len() < 24 {
            return Err(LockError::UnexpectedEof);
        }
        let writer_pid = u64_from_le_bytes(slice_subrange(bytes, 16, 24));
        let mut reader_counts: [u64; 3] = [0, 0, 0];
        let mut place: usize = 0;
        while place < 3
            invariant
                place <= 3,
                bytes@.len() >= 24,
                forall|k: int| 0 <= k < place ==> reader_counts@[k] == counter_at(bytes@, k),
                forall|k: int| place <= k < 3 ==> reader_counts@[k] == 0,
            decreases 3 - place,
        {
            if bytes.len() >= 32 + 8 * place {
                reader_counts[place] = u64_from_le_bytes(
                    slice_subrange(bytes, 24 + 8 * place, 32 + 8 * place),
                );
            }
            place = place + 1;
        }
        let state = LockState {
            writer_mode: bytes[0],
            writer_present: bytes[8],
            writer_pid,
            reader_counts,
        };
        assert(state.reader_counts@ =~= seq![
            counter_at(bytes@, 0),
            counter_at(bytes@, 1),
            counter_at(bytes@, 2),
        ]);
        Ok(state)
    }

    /// Lets a reader of `mode` in for the process `pid`, where the state
    /// admits it.
    pub fn acquire_read(&self, mode: LockMode, pid: u64) -> (next: Option<Self>)
        ensures
            next is Some == self@.admits_reader(mode, pid),
            next is Some ==> next.unwrap()@ == self@.with_reader(mode),
    {
        if self.writer_present != 0 && LockMode::from_u8(self.writer_mode) != mode
            && self.writer_pid != pid {
            return None;
        }
        let place = mode.as_u8() as usize;
        let mut next = *self;
        let count = self.reader_counts[place];
        next.reader_counts[place] = if count < u64::MAX {
            count + 1
        } else {
            u64::MAX
        };
        assert(next@.reader_counts =~= self@.with_reader(mode).reader_counts);
        Some(next)
    }

    /// Lets a reader of `mode` go.
    pub fn release_read(&self, mode: LockMode) -> (next: Self)
        ensures
            next@ == self@.without_reader(mode),
    {
        let place = mode.as_u8() as usize;
        let mut next = *self;
        let count = self.reader_counts[place];
        next.reader_counts[place] = if count > 0 {
            count - 1
        } else {
            0
        };
        assert(next@.reader_counts =~= self@.without_reader(mode).reader_counts);
        next
    }

    /// Whether there are readers of a mode other than `mode`.
    pub fn incompatible_readers(&self, mode: LockMode) -> (found: bool)
        ensures
            found == self@.has_incompatible_readers(mode),
    {
        let place = mode.as_u8() as usize;
        let mut i: usize = 0;
        while i < 3
            invariant
                i <= 3,
                place == mode.index(),
                forall|k: int| 0 <= k < i && k != place ==> self.reader_counts@[k] == 0,
            decreases 3 - i,
        {
            if i != place && self.reader_counts[i] > 0 {
                assert(self@.reader_counts[i as int] > 0);
                return true;
            }
            i = i + 1;
        }
        false
    }

    /// Lets the process `pid` in as writer of `mode`, where the state admits
    /// it.
    pub fn acquire_write(&self, mode: LockMode, pid: u64) -> (next: Option<Self>)
        ensures
            next is Some == self@.admits_writer(mode, pid),
            next is Some ==> next.unwrap()@ == self@.with_writer(mode, pid),
    {
        if (self.writer_present != 0 && self.writer_pid != pid) || self.incompatible_readers(mode) {
            return None;
        }
        Some(
            LockState {
                writer_mode: mode.as_u8(),
                writer_present: 1,
                writer_pid: pid,
                reader_counts: self.reader_counts,
            },
        )
    }

    /// Lets the writer go, where the writer is the process `pid`.
    pub fn release_write(&self, pid: u64) -> (next: Self)
        ensures
            next@ == self@.without_writer(pid),
    {
        if self.writer_present != 0 && self.writer_pid == pid {
            LockState {
                writer_mode: 0,
                writer_present: 0,
                writer_pid: 0,
                reader_counts: self.reader_counts,
            }
        } else {
            *self
        }
    }
}

/// The lock as one process sees it: the state that it read or wrote last,
/// and how many guards it holds itself.
pub struct RwLock {
    pid: u64,
    state: LockState,
    process_reader_counts: [u64; 3],
    process_has_writer: u64,
}

/// What a lock is, apart from how it is held in memory.
pub struct RwLockView {
    /// The identifier of the process.
    pub pid: u64,
    /// The state of the file as the process knows it.
    pub state: LockView,
    /// The read guards that the process holds, by mode.
    pub process_reader_counts: Seq<u64>,
    /// The write guards that the process holds, one in the other.
    pub process_has_writer: u64,
}

impl View for RwLock {
    type V = RwLockView;

    closed spec fn view(&self) -> RwLockView {
        RwLockView {
            pid: self.pid,
            state: self.state@,
            process_reader_counts: self.process_reader_counts@,
            process_has_writer: self.process_has_writer,
        }
    }
}

impl RwLockView {
    /// Whether the process holds the lock as writer.
    pub open spec fn owns_writer(self) -> bool {
        self.process_has_writer > 0
    }

    /// The lock with one read guard of `mode` more in the hands of the
    /// process.
    pub open spec fn with_guard(self, mode: LockMode) -> RwLockView {
        RwLockView {
            process_reader_counts: self.process_reader_counts.update(
                mode.index() as int,
                incremented(self.process_reader_counts[mode.index() as int]),
            ),
            ..self
        }
    }

    /// The lock with one read guard of `mode` less in the hands of the
    /// process.
    pub open spec fn without_guard(self, mode: LockMode) -> RwLockView {
        RwLockView {
            process_reader_counts: self.process_reader_counts.update(
                mode.index() as int,
                decremented(self.process_reader_counts[mode.index() as int]),
            ),
            ..self
        }
    }
}

/// The right to read under the lock.
#[derive(Debug)]
pub struct ReadGuard {
    mode: LockMode,
    active: bool,
    counted: bool,
}

/// The right to write under the lock.
#[derive(Debug)]
pub struct WriteGuard {
    mode: LockMode,
    active: bool,
}

/// What an attempt to take a read lock has come to.
#[derive(Debug)]
pub enum ReadStep {
    /// The lock was taken. Where `persist` holds a state, that state is to
    /// be written to the file.
    Acquired { guard: ReadGuard, persist: Option<LockState> },
    /// The lock is busy: the attempt is to be made again after `sleep`
    /// milliseconds, with `backoff` for its wait.
    Wait { sleep: u64, backoff: u64 },
}

/// What an attempt to take a write lock has come to.
#[derive(Debug)]
pub enum WriteStep {
    /// The lock was taken. Where `persist` holds a state, that state is to
    /// be written to the file.
    Acquired { guard: WriteGuard, persist: Option<LockState> },
    /// The lock is busy: the attempt is to be made again after `sleep`
    /// milliseconds, with `backoff` for its wait.
    Wait { sleep: u64, backoff: u64 },
}

impl RwLock {
    /// The lock of the process `pid`, which holds no guard. Where the file
    /// exists the lock begins with what it holds; where it does not, with
    /// the state of a lock that nobody holds, which is to be written.
    pub fn new(pid: u64, on_disk: Option<LockState>) -> (lock: Self)
        ensures
            lock@.pid == pid,
            lock@.process_has_writer == 0,
            lock@.process_reader_counts == seq![0u64, 0u64, 0u64],
            lock@.state == match on_disk {
                Some(state) => state@,
                None => LockView {
                    writer_mode: 0,
                    writer_present: 0,
                    writer_pid: 0,
                    reader_counts: seq![0u64, 0u64, 0u64],
                },
            },
    {
        let state = match on_disk {
            Some(state) => state,
            None => LockState::initial(),
        };
        let lock = RwLock { pid, state, process_reader_counts: [0, 0, 0], process_has_writer: 0 };
        assert(lock.process_reader_counts@ =~= seq![0u64, 0u64, 0u64]);
        lock
    }

    /// The state of the file as the process knows it.
    pub fn state(&self) -> (state: LockState)
        ensures
            state@ == self@.state,
    {
        self.state
    }

    /// Takes note of what the file holds now.
    pub fn refresh(&mut self, on_disk: LockState)
        ensures
            final(self)@ == (RwLockView { state: on_disk@, ..old(self)@ }),
    {
        self.state = on_disk;
    }

    fn count_guard(&mut self, mode: LockMode)
        ensures
            final(self)@ == old(self)@.with_guard(mode),
    {
        let place = mode.as_u8() as usize;
        let count = self.process_reader_counts[place];
        self.process_reader_counts[place] = if count < u64::MAX {
            count + 1
        } else {
            u64::MAX
        };
        assert(self@.process_reader_counts =~= old(self)@.with_guard(mode).process_reader_counts);
    }

    fn discount_guard(&mut self, mode: LockMode)
        ensures
            final(self)@ == old(self)@.without_guard(mode),
    {
        let place = mode.as_u8() as usize;
        let count = self.process_reader_counts[place];
        self.process_reader_counts[place] = if count > 0 {
            count - 1
        } else {
            0
        };
        assert(self@.process_reader_counts =~= old(self)@.without_guard(
            mode,
        ).process_reader_counts);
    }

    /// Tries once to take a read lock of `mode`, given what the file holds.
    ///
    /// No lock is given in no mode. A process that writes is let in without
    /// a change to the file, and only its own count of guards moves. Any
    /// other process is let in where the file admits a reader of `mode`: the
    /// file is then to hold one reader more. Where it does not, there is no
    /// guard, and the process has taken note of what the file holds.
    pub fn try_read_lock(&mut self, mode: LockMode, on_disk: LockState) -> (result: Result<
        Option<(ReadGuard, Option<LockState>)>,
        LockError,
    >)
        ensures
            mode == LockMode::Idle ==> result is Err && result->Err_0 == LockError::InvalidMode
                && final(self)@ == old(self)@,
            mode != LockMode::Idle ==> result is Ok,
            mode != LockMode::Idle && old(self)@.owns_writer() ==> result.unwrap() is Some
                && result.unwrap().unwrap().1 is None && result.unwrap().unwrap().0.held(
                mode,
                false,
            ) && final(self)@ == old(self)@.with_guard(mode),
            mode != LockMode::Idle && !old(self)@.owns_writer() && on_disk@.admits_reader(
                mode,
                old(self)@.pid,
            ) ==> result.unwrap() is Some && result.unwrap().unwrap().1 is Some
                && result.unwrap().unwrap().1.unwrap()@ == on_disk@.with_reader(mode)
                && result.unwrap().unwrap().0.held(mode, true) && final(self)@ == (RwLockView {
                state: on_disk@.with_reader(mode),
                ..old(self)@.with_guard(mode)
            }),
            mode != LockMode::Idle && !old(self)@.owns_writer() && !on_disk@.admits_reader(
                mode,
                old(self)@.pid,
            ) ==> result.unwrap() is None && final(self)@ == (RwLockView {
                state: on_disk@,
                ..old(self)@
            }),
    {
        match mode {
            LockMode::Idle => {
                return Err(LockError::InvalidMode);
            },
            _ => {},
        }
        if self.process_has_writer > 0 {
            self.count_guard(mode);
            return Ok(Some((ReadGuard { mode, active: true, counted: false }, None)));
        }
        match on_disk.acquire_read(mode, self.pid) {
            Some(next) => {
                self.state = next;
                self.count_guard(mode);
                Ok(Some((ReadGuard { mode, active: true, counted: true }, Some(next))))
            },
            None => {
                self.state = on_disk;
                Ok(None)
            },
        }
    }

    /// Tries once to take a write lock of `mode`, given what the file holds.
    ///
    /// No lock is given in no mode. A process that writes already is let in
    /// once more without a change to the file. Any other process is let in
    /// where the file admits a writer of `mode`: the file is then to hold
    /// the process as writer. Where it does not, there is no guard, and the
    /// process has taken note of what the file holds.
    pub fn try_write_lock(&mut self, mode: LockMode, on_disk: LockState) -> (result: Result<
        Option<(WriteGuard, Option<LockState>)>,
        LockError,
    >)
        ensures
            mode == LockMode::Idle ==> result is Err && result->Err_0 == LockError::InvalidMode
                && final(self)@ == old(self)@,
            mode != LockMode::Idle ==> result is Ok,
            mode != LockMode::Idle && old(self)@.owns_writer() ==> result.unwrap() is Some
                && result.unwrap().unwrap().1 is None && result.unwrap().unwrap().0.held(mode)
                && final(self)@ == (RwLockView {
                process_has_writer: incremented(old(self)@.process_has_writer),
                ..old(self)@
            }),
            mode != LockMode::Idle && !old(self)@.owns_writer() && on_disk@.admits_writer(
                mode,
                old(self)@.pid,
            ) ==> result.unwrap() is Some && result.unwrap().unwrap().1 is Some
                && result.unwrap().unwrap().1.unwrap()@ == on_disk@.with_writer(
                mode,
                old(self)@.pid,
            ) && result.unwrap().unwrap().0.held(mode) && final(self)@ == (RwLockView {
                state: on_disk@.with_writer(mode, old(self)@.pid),
                process_has_writer: 1,
                ..old(self)@
            }),
            mode != LockMode::Idle && !old(self)@.owns_writer() && !on_disk@.admits_writer(
                mode,
                old(self)@.pid,
            ) ==> result.unwrap() is None && final(self)@ == (RwLockView {
                state: on_disk@,
                ..old(self)@
            }),
    {
        match mode {
            LockMode::Idle => {
                return Err(LockError::InvalidMode);
            },
            _ => {},
        }
        if self.process_has_writer > 0 {
            self.process_has_writer = if self.process_has_writer < u64::MAX {
                self.process_has_writer + 1
            } else {
                u64::MAX
            };
            return Ok(Some((WriteGuard { mode, active: true }, None)));
        }
        match on_disk.acquire_write(mode, self.pid) {
            Some(next) => {
                self.state = next;
                self.process_has_writer = 1;
                Ok(Some((WriteGuard { mode, active: true }, Some(next))))
            },
            None => {
                self.state = on_disk;
                Ok(None)
            },
        }
    }

    /// One attempt of the wait for a read lock: what `try_read_lock` comes
    /// to, and for a lock that is busy how long to sleep before the next
    /// attempt and the wait to hand to it.
    pub fn read_lock(&mut self, mode: LockMode, on_disk: LockState, backoff: u64) -> (result:
        Result<ReadStep, LockError>)
        ensures
            mode == LockMode::Idle ==> result is Err && result->Err_0 == LockError::InvalidMode
                && final(self)@ == old(self)@,
            mode != LockMode::Idle ==> result is Ok,
            mode != LockMode::Idle && (old(self)@.owns_writer() || on_disk@.admits_reader(
                mode,
                old(self)@.pid,
            )) ==> result.unwrap() is Acquired,
            mode != LockMode::Idle && old(self)@.owns_writer() ==> result.unwrap()->persist
                is None && result.unwrap()->Acquired_guard.held(mode, false) && final(self)@
                == old(self)@.with_guard(mode),
            mode != LockMode::Idle && !old(self)@.owns_writer() && on_disk@.admits_reader(
                mode,
                old(self)@.pid,
            ) ==> result.unwrap()->persist is Some && result.unwrap()->persist.unwrap()@
                == on_disk@.with_reader(mode) && result.unwrap()->Acquired_guard.held(mode, true)
                && final(self)@ == (RwLockView {
                state: on_disk@.with_reader(mode),
                ..old(self)@.with_guard(mode)
            }),
            mode != LockMode::Idle && !old(self)@.owns_writer() && !on_disk@.admits_reader(
                mode,
                old(self)@.pid,
            ) ==> result.unwrap() == (ReadStep::Wait {
                sleep: backoff,
                backoff: if backoff * 2 < MAX_BACKOFF {
                    (backoff * 2) as u64
                } else {
                    MAX_BACKOFF
                },
            }) && final(self)@ == (RwLockView { state: on_disk@, ..old(self)@ }),
    {
        match self.try_read_lock(mode, on_disk) {
            Err(e) => Err(e),
            Ok(Some((guard, persist))) => Ok(ReadStep::Acquired { guard, persist }),
            Ok(None) => Ok(ReadStep::Wait { sleep: backoff, backoff: next_backoff(backoff) }),
        }
    }

    /// One attempt of the wait for a write lock: what `try_write_lock` comes
    /// to, and for a lock that is busy how long to sleep before the next
    /// attempt and the wait to hand to it.
    pub fn write_lock(&mut self, mode: LockMode, on_disk: LockState, backoff: u64) -> (result:
        Result<WriteStep, LockError>)
        ensures
            mode == LockMode::Idle ==> result is Err && result->Err_0 == LockError::InvalidMode
                && final(self)@ == old(self)@,
            mode != LockMode::Idle ==> result is Ok,
            mode != LockMode::Idle && (old(self)@.owns_writer() || on_disk@.admits_writer(
                mode,
                old(self)@.pid,
            )) ==> result.unwrap() is Acquired && result.unwrap()->Acquired_guard.held(mode),
            mode != LockMode::Idle && old(self)@.owns_writer() ==> result.unwrap()->persist
                is None && final(self)@ == (RwLockView {
                process_has_writer: incremented(old(self)@.process_has_writer),
                ..old(self)@
            }),
            mode != LockMode::Idle && !old(self)@.owns_writer() && on_disk@.admits_writer(
                mode,
                old(self)@.pid,
            ) ==> result.unwrap()->persist is Some && result.unwrap()->persist.unwrap()@
                == on_disk@.with_writer(mode, old(self)@.pid) && final(self)@ == (RwLockView {
                state: on_disk@.with_writer(mode, old(self)@.pid),
                process_has_writer: 1,
                ..old(self)@
            }),
            mode != LockMode::Idle && !old(self)@.owns_writer() && !on_disk@.admits_writer(
                mode,
                old(self)@.pid,
            ) ==> result.unwrap() == (WriteStep::Wait {
                sleep: backoff,
                backoff: if backoff * 2 < MAX_BACKOFF {
                    (backoff * 2) as u64
                } else {
                    MAX_BACKOFF
                },
            }) && final(self)@ == (RwLockView { state: on_disk@, ..old(self)@ }),
    {
        match self.try_write_lock(mode, on_disk) {
            Err(e) => Err(e),
            Ok(Some((guard, persist))) => Ok(WriteStep::Acquired { guard, persist }),
            Ok(None) => Ok(WriteStep::Wait { sleep: backoff, backoff: next_backoff(backoff) }),
        }
    }

    /// The number of readers of `mode` that the file counted when it was
    /// last looked at.
    pub fn reader_count(&self, mode: LockMode) -> (count: u64)
        ensures
            count == self@.state.reader_counts[mode.index() as int],
    {
        self.state.reader_counts[mode.as_u8() as usize]
    }

    /// The number of readers of all modes, and the largest number where
    /// they are more.
    pub fn total_reader_count(&self) -> (count: u64)
        ensures
            count == if self@.state.reader_counts[0] + self@.state.reader_counts[1]
                + self@.state.reader_counts[2] <= u64::MAX {
                self@.state.reader_counts[0] + self@.state.reader_counts[1]
                    + self@.state.reader_counts[2]
            } else {
                u64::MAX as int
            },
    {
        let total: u128 = self.state.reader_counts[0] as u128 + self.state.reader_counts[1] as u128
            + self.state.reader_counts[2] as u128;
        if total > u64::MAX as u128 {
            u64::MAX
        } else {
            total as u64
        }
    }

    /// Whether a writer held the lock when the file was last looked at.
    pub fn has_writer(&self) -> (present: bool)
        ensures
            present == self@.state.has_writer(),
    {
        self.state.writer_present != 0
    }

    /// The mode of the writer, where there is one.
    pub fn writer_mode(&self) -> (mode: Option<LockMode>)
        ensures
            mode == if self@.state.has_writer() {
                Some(LockMode::of(self@.state.writer_mode))
            } else {
                None
            },
    {
        if self.has_writer() {
            Some(LockMode::from_u8(self.state.writer_mode))
        } else {
            None
        }
    }

    /// The process that writes, where there is one.
    pub fn writer_pid(&self) -> (pid: Option<u64>)
        ensures
            pid == if self@.state.has_writer() {
                Some(self@.state.writer_pid)
            } else {
                None
            },
    {
        if self.has_writer() {
            Some(self.state.writer_pid)
        } else {
            None
        }
    }
}

impl ReadGuard {
    /// Whether the guard is held in `mode`, and whether the file counts it.
    pub open spec fn held(&self, mode: LockMode, counted: bool) -> bool {
        self.is_active() && self.guarded_mode() == mode && self.is_counted() == counted
    }

    /// Whether the guard has not been given up.
    pub closed spec fn is_active(&self) -> bool {
        self.active
    }

    /// Whether the file counts the guard.
    pub closed spec fn is_counted(&self) -> bool {
        self.counted
    }

    /// The mode of the guard.
    pub closed spec fn guarded_mode(&self) -> LockMode {
        self.mode
    }

    /// The mode in which the guard was taken.
    pub fn mode(&self) -> (mode: LockMode)
        ensures
            mode == self.guarded_mode(),
    {
        self.mode
    }

    /// Gives the guard up, given what the file holds.
    ///
    /// The process holds one guard less. Where the file counts the guard it
    /// is to hold one reader less, and that state is given. A guard that was
    /// given up already changes nothing.
    pub fn unlock(&mut self, lock: &mut RwLock, on_disk: LockState) -> (persist: Option<LockState>)
        ensures
            !final(self).is_active(),
            final(self).guarded_mode() == old(self).guarded_mode(),
            !old(self).is_active() ==> persist is None && final(lock)@ == old(lock)@,
            old(self).is_active() && !old(self).is_counted() ==> persist is None && final(lock)@
                == old(lock)@.without_guard(old(self).guarded_mode()),
            old(self).is_active() && old(self).is_counted() ==> persist is Some
                && persist.unwrap()@ == on_disk@.without_reader(old(self).guarded_mode())
                && final(lock)@ == (RwLockView {
                state: on_disk@.without_reader(old(self).guarded_mode()),
                ..old(lock)@.without_guard(old(self).guarded_mode())
            }),
    {
        if !self.active {
            return None;
        }
        self.active = false;
        lock.discount_guard(self.mode);
        if self.counted {
            let next = on_disk.release_read(self.mode);
            lock.state = next;
            Some(next)
        } else {
            None
        }
    }
}

impl WriteGuard {
    /// Whether the guard is held in `mode`.
    pub open spec fn held(&self, mode: LockMode) -> bool {
        self.is_active() && self.guarded_mode() == mode
    }

    /// Whether the guard has not been given up.
    pub closed spec fn is_active(&self) -> bool {
        self.active
    }

    /// The mode of the guard.
    pub closed spec fn guarded_mode(&self) -> LockMode {
        self.mode
    }

    /// The mode in which the guard was taken.
    pub fn mode(&self) -> (mode: LockMode)
        ensures
            mode == self.guarded_mode(),
    {
        self.mode
    }

    /// Gives the guard up, given what the file holds.
    ///
    /// The process holds one write guard less. Where it was the last, the
    /// file is to hold no writer any more, if the writer it holds is this
    /// process, and that state is given. A guard that was given up already
    /// changes nothing.
    pub fn unlock(&mut self, lock: &mut RwLock, on_disk: LockState) -> (persist: Option<LockState>)
        ensures
            !final(self).is_active(),
            final(self).guarded_mode() == old(self).guarded_mode(),
            !old(self).is_active() ==> persist is None && final(lock)@ == old(lock)@,
            old(self).is_active() && old(lock)@.process_has_writer != 1 ==> persist is None
                && final(lock)@ == (RwLockView {
                process_has_writer: decremented(old(lock)@.process_has_writer),
                ..old(lock)@
            }),
            old(self).is_active() && old(lock)@.process_has_writer == 1 ==> persist is Some
                && persist.unwrap()@ == on_disk@.without_writer(old(lock)@.pid) && final(lock)@
                == (RwLockView {
                state: on_disk@.without_writer(old(lock)@.pid),
                process_has_writer: 0,
                ..old(lock)@
            }),
    {
        if !self.active {
            return None;
        }
        self.active = false;
        let held = lock.process_has_writer;
        lock.process_has_writer = if held > 0 {
            held - 1
        } else {
            0
        };
        if held == 1 {
            let next = on_disk.release_write(lock.pid);
            lock.state = next;
            Some(next)
        } else {
            None
        }
    }
}

/// The longest that a process waits between two attempts, in milliseconds.
pub const MAX_BACKOFF: u64 = 1000;

/// How long to wait after an attempt that was preceded by a wait of
/// `backoff` milliseconds: twice as long, and a second at most.
pub fn next_backoff(backoff: u64) -> (next: u64)
    ensures
        next == if backoff * 2 < MAX_BACKOFF {
            backoff * 2
        } else {
            MAX_BACKOFF as int
        },
{
    if backoff < MAX_BACKOFF / 2 {
        backoff * 2
    } else {
        MAX_BACKOFF
    }
}

} // verus!
