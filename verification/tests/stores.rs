use forthdb_world::{
    check_ring_entries, check_submission, decode_file, encode_header, encode_record, inspect_file,
    judge_commit, plan_contiguous, plan_vectored, prepare_ring_record, submission_length,
    Atom, CommitFrame, CommitLog, CommitStore, Completion, Database, EntityId, EpochFileIo,
    EpochIoPhase, EpochPersistMetrics, Fact, FileCommitStore, FileCommitStoreError,
    FileEpochState, FileEpochStore, FileEpochStoreError, FileEpochSyncPolicy, IoFault,
    IoUringCommitStoreError, IoUringEpochStrategy, Literal,
    MemoryCommitStore, Predicate, SlotId, WorldId, FILE_HEADER_LEN, FRAME_PREFIX_LEN,
    FRAME_TRAILER_LEN, FSYNC_USER_DATA, RING_ENTRIES, WRITE_USER_DATA,
};
use std::collections::VecDeque;
use std::sync::{Arc, Mutex};

/// A file whose bytes outlive the stores that use it.
#[derive(Clone, Debug)]
struct SharedFile(Arc<Mutex<Vec<u8>>>);

impl SharedFile {
    fn new(bytes: &[u8]) -> Self {
        SharedFile(Arc::new(Mutex::new(bytes.to_vec())))
    }

    fn bytes(&self) -> Vec<u8> {
        self.0.lock().unwrap().clone()
    }
}

impl EpochFileIo for SharedFile {
    fn submit_epoch(
        &mut self,
        _start_offset: u64,
        _records: &[Vec<u8>],
    ) -> Option<Result<(), (EpochIoPhase, IoFault)>> {
        None
    }

    fn complete_epoch(&mut self) -> (EpochPersistMetrics, Result<(), (EpochIoPhase, IoFault)>) {
        unreachable!("nothing is written in the background")
    }

    fn persist_epoch(
        &mut self,
        _start_offset: u64,
        _records: &[Vec<u8>],
    ) -> Option<(EpochPersistMetrics, Result<(), (EpochIoPhase, IoFault)>)> {
        None
    }

    fn len(&mut self, _phase: EpochIoPhase) -> Result<u64, IoFault> {
        Ok(self.0.lock().unwrap().len() as u64)
    }

    fn write_at(
        &mut self,
        _phase: EpochIoPhase,
        offset: u64,
        bytes: &[u8],
    ) -> Result<usize, IoFault> {
        let mut held = self.0.lock().unwrap();
        let end = offset as usize + bytes.len();
        if held.len() < end {
            held.resize(end, 0);
        }
        held[offset as usize..end].copy_from_slice(bytes);
        Ok(bytes.len())
    }

    fn sync_data(&mut self, _phase: EpochIoPhase) -> Result<(), IoFault> {
        Ok(())
    }

    fn set_len(&mut self, _phase: EpochIoPhase, len: u64) -> Result<(), IoFault> {
        self.0.lock().unwrap().resize(len as usize, 0);
        Ok(())
    }

    fn read_all(&mut self, _phase: EpochIoPhase) -> Result<Vec<u8>, IoFault> {
        Ok(self.bytes())
    }
}

fn state_fact(entity: EntityId, value: &str) -> Fact {
    Fact::new(
        Atom::Entity(entity),
        Predicate::new("state"),
        Atom::Literal(Literal::new(value)),
    )
}

fn write_one_world(file: &SharedFile, slot: &str) -> (WorldId, SlotId) {
    let store = FileCommitStore::open(file.clone()).expect("file store opens");
    let mut database = Database::new(store).expect("empty file history is valid");
    let mut transaction = database.begin();
    let entity = transaction.entity();
    let slot = SlotId::new(slot);
    transaction.define(slot.clone(), state_fact(entity, "ready"));
    let world = database.commit(transaction).expect("file commit succeeds");
    (world.id(), slot)
}

fn commit_one_world<S: CommitStore>(database: &mut Database<S>) -> WorldId {
    let mut transaction = database.begin();
    let entity = transaction.entity();
    transaction.define(SlotId::new("durable/state"), state_fact(entity, "ready"));
    match database.commit(transaction) {
        Ok(world) => world.id(),
        Err(_) => panic!("durable commit succeeds"),
    }
}

#[test]
fn durable_commit_reopens_to_the_same_world() {
    let file = SharedFile::new(&[]);
    let (world_id, slot) = write_one_world(&file, "durable/state");

    let store = FileCommitStore::open(file.clone()).expect("file store reopens");
    assert_eq!(store.len(), 1);
    assert_eq!(store.recovered_tail_bytes(), 0);
    let database = Database::new(store).expect("persisted history reconstructs");
    assert_eq!(database.snapshot().id(), world_id);
    assert_eq!(database.snapshot().version(), 1);
    assert!(database.snapshot().resolve(&slot).is_some());
}

#[test]
fn incomplete_final_record_is_ignored_and_truncated() {
    let file = SharedFile::new(&[]);
    write_one_world(&file, "durable/state");
    let clean_len = file.bytes().len() as u64;

    file.0.lock().unwrap().extend_from_slice(b"FRM1\x10\x00\x00");

    let mut store = FileCommitStore::open(file.clone()).expect("incomplete tail is recoverable");
    assert_eq!(store.len(), 1);
    assert_eq!(store.recovered_tail_bytes(), 7);
    assert_eq!(store.file_len().expect("file length"), clean_len);
}

#[test]
fn checksum_corruption_fails_closed() {
    let file = SharedFile::new(&[]);
    write_one_world(&file, "durable/state");
    let mut bytes = file.bytes();
    let payload_start = FILE_HEADER_LEN + FRAME_PREFIX_LEN;
    assert!(bytes.len() > payload_start);
    bytes[payload_start] ^= 0x01;

    let (file, error) = match FileCommitStore::open(SharedFile::new(&bytes)) {
        Ok(_) => panic!("corruption must fail closed"),
        Err(refused) => refused,
    };
    assert!(matches!(error, FileCommitStoreError::CorruptFrame { offset: 16, .. }));
    assert_eq!(file.bytes(), bytes);
}

#[test]
fn identical_histories_have_identical_canonical_bytes() {
    let first = SharedFile::new(&[]);
    let second = SharedFile::new(&[]);
    write_one_world(&first, "durable/state");
    write_one_world(&second, "durable/state");
    assert_eq!(first.bytes(), second.bytes());
}

#[test]
fn invalid_file_header_fails_closed() {
    let (file, error) = match FileCommitStore::open(SharedFile::new(b"not-a-forthdb-file")) {
        Ok(_) => panic!("invalid header must fail"),
        Err(refused) => refused,
    };
    assert!(matches!(error, FileCommitStoreError::InvalidHeader(_)));
    assert_eq!(file.bytes(), b"not-a-forthdb-file");
}

#[test]
fn mapped_open_reconstructs_file_store_history() {
    let file = SharedFile::new(&[]);
    let (world_id, slot) = write_one_world(&file, "mapped/state");

    let bytes = file.bytes();
    let (log, keep) = CommitLog::recover(&bytes).expect("mapped bytes open");
    assert_eq!(log.len(), 1);
    assert_eq!(keep, bytes.len());
    assert_eq!(&bytes[..8], b"FTHDB001");
    let store = FileCommitStore::open(SharedFile::new(&bytes)).expect("store opens");
    let database = Database::new(store).expect("mapped history reconstructs");
    assert_eq!(database.snapshot().id(), world_id);
    assert!(database.snapshot().resolve(&slot).is_some());
}

#[test]
fn mapped_store_appends_using_the_canonical_file_writer() {
    let file = SharedFile::new(&[]);
    let store = FileCommitStore::open(file.clone()).expect("store opens");
    let mut database = Database::new(store).expect("empty mapped history is valid");
    let mut transaction = database.begin();
    let entity = transaction.entity();
    let slot = SlotId::new("mapped/append");
    transaction.define(slot.clone(), state_fact(entity, "committed"));
    let world = database.commit(transaction).expect("mapped commit succeeds");

    let mapped = SharedFile::new(&file.bytes());
    let file_store = FileCommitStore::open(mapped).expect("file store reopens mmap bytes");
    let reopened = Database::new(file_store).expect("canonical bytes reconstruct");
    assert_eq!(reopened.snapshot().id(), world.id());
    assert!(reopened.snapshot().resolve(&slot).is_some());
}

#[test]
fn mapped_open_recovers_and_remaps_an_incomplete_tail() {
    let file = SharedFile::new(&[]);
    write_one_world(&file, "mapped/state");
    let clean_len = file.bytes().len();

    let mut bytes = file.bytes();
    bytes.extend_from_slice(b"FRM1\x10\x00\x00");

    let (log, keep) = CommitLog::recover(&bytes).expect("tail recovers");
    assert_eq!(log.recovered_tail_bytes(), 7);
    assert_eq!(keep, clean_len);
}

#[test]
fn mapped_checksum_corruption_fails_closed() {
    let file = SharedFile::new(&[]);
    write_one_world(&file, "mapped/state");
    let mut bytes = file.bytes();
    bytes[FILE_HEADER_LEN + FRAME_PREFIX_LEN] ^= 0x01;

    let error = match CommitLog::recover(&bytes) {
        Ok(_) => panic!("corruption must fail"),
        Err(error) => error,
    };
    assert!(matches!(error, FileCommitStoreError::CorruptFrame { .. }));
}

#[test]
fn file_and_mmap_stores_decode_identical_frames() {
    let file = SharedFile::new(&[]);
    write_one_world(&file, "mapped/state");
    let file_frames = FileCommitStore::open(file.clone())
        .expect("file store opens")
        .frames();
    let (mapped, _) = CommitLog::recover(&file.bytes()).expect("mapped bytes open");
    assert_eq!(file_frames, mapped.frames());
}

/// Appends to the bytes of a log as a ring does: the record and its synchronization complete.
fn ring_commit(bytes: &mut Vec<u8>, log: &mut CommitLog, frame: &Arc<CommitFrame>) {
    let record = prepare_ring_record(log, frame).expect("record is prepared");
    bytes.extend_from_slice(&record);
    let completions = vec![
        Completion { user_data: FSYNC_USER_DATA, result: 0 },
        Completion { user_data: WRITE_USER_DATA, result: record.len() as i32 },
    ];
    assert!(judge_commit(&completions, record.len()).is_ok());
    log.appended(frame.clone());
}

#[test]
fn io_uring_commit_reopens_through_file_store() {
    assert_eq!(RING_ENTRIES, 2);
    let mut memory = Database::new(MemoryCommitStore::new()).expect("empty history is valid");
    let committed = commit_one_world(&mut memory);
    let mut bytes = encode_header();
    let (mut log, _) = CommitLog::recover(&bytes).expect("empty log opens");
    ring_commit(&mut bytes, &mut log, &memory.frames()[0]);

    let reopened =
        FileCommitStore::open(SharedFile::new(&bytes)).expect("file store reopens history");
    let database = Database::new(reopened).expect("history reconstructs");
    assert_eq!(database.snapshot().id(), committed);
    assert_eq!(database.snapshot().version(), 1);
}

#[test]
fn file_store_history_can_continue_through_io_uring() {
    let file = SharedFile::new(&[]);
    let mut file_database =
        Database::new(FileCommitStore::open(file.clone()).expect("file store opens"))
            .expect("empty history is valid");
    commit_one_world(&mut file_database);

    let mut memory = Database::new(MemoryCommitStore::new()).expect("empty history is valid");
    commit_one_world(&mut memory);
    let continuation = memory.begin();
    memory.commit(continuation).expect("continuation commits");

    let mut bytes = file.bytes();
    let (mut log, _) = CommitLog::recover(&bytes).expect("file history opens");
    ring_commit(&mut bytes, &mut log, &memory.frames()[1]);

    let reopened = Database::new(
        FileCommitStore::open(SharedFile::new(&bytes)).expect("file store reopens combined history"),
    )
    .expect("combined history reconstructs");
    assert_eq!(reopened.snapshot().version(), 2);
}

#[test]
fn io_uring_and_file_store_emit_identical_v1_bytes() {
    let file = SharedFile::new(&[]);
    let mut file_database =
        Database::new(FileCommitStore::open(file.clone()).expect("file store opens"))
            .expect("empty history is valid");
    commit_one_world(&mut file_database);

    let mut memory = Database::new(MemoryCommitStore::new()).expect("empty history is valid");
    commit_one_world(&mut memory);
    let mut ring_bytes = encode_header();
    let (mut log, _) = CommitLog::recover(&ring_bytes).expect("empty log opens");
    ring_commit(&mut ring_bytes, &mut log, &memory.frames()[0]);

    assert_eq!(file.bytes(), ring_bytes);
}

#[test]
fn incomplete_tail_recovery_matches_file_store() {
    let mut memory = Database::new(MemoryCommitStore::new()).expect("empty history is valid");
    commit_one_world(&mut memory);
    let mut bytes = encode_header();
    let (mut log, _) = CommitLog::recover(&bytes).expect("empty log opens");
    ring_commit(&mut bytes, &mut log, &memory.frames()[0]);
    let clean_len = bytes.len();
    bytes.extend_from_slice(b"FRM1\x10\x00\x00");

    let (recovered, keep) = CommitLog::recover(&bytes).expect("tail recovers");
    assert_eq!(recovered.recovered_tail_bytes(), 7);
    assert_eq!(keep, clean_len);
    assert_eq!(recovered.len(), 1);
}

#[test]
fn encoded_record_retains_v1_layout() {
    let mut memory = Database::new(MemoryCommitStore::new()).expect("memory store opens");
    commit_one_world(&mut memory);
    let frame = memory.frames().pop().expect("one frame exists");
    let record = encode_record(&frame).expect("record encodes");

    assert_eq!(&record[..4], b"FRM1");
    let payload_len = u64::from_le_bytes(record[4..12].try_into().unwrap()) as usize;
    assert_eq!(record.len(), FRAME_PREFIX_LEN + payload_len + FRAME_TRAILER_LEN);
    assert_eq!(&record[record.len() - 4..], b"END1");
    assert!(record.len() > FILE_HEADER_LEN);
}

const ENOSPC: i32 = 28;
const EIO: i32 = 5;

#[derive(Clone, Debug)]
enum FaultAction {
    Fail(i32),
    WritePrefixThenFail { bytes: usize, errno: i32 },
    ApplyThenFail(i32),
    ReportLength(u64),
}

#[derive(Clone, Debug)]
struct FaultRule {
    phase: EpochIoPhase,
    action: FaultAction,
}

#[derive(Debug)]
struct ScriptedIo {
    inner: SharedFile,
    rules: VecDeque<FaultRule>,
}

impl ScriptedIo {
    fn open(file: &SharedFile, rules: Vec<FaultRule>) -> Self {
        Self {
            inner: file.clone(),
            rules: rules.into(),
        }
    }

    fn take(&mut self, phase: EpochIoPhase) -> Option<FaultAction> {
        let index = self.rules.iter().position(|rule| rule.phase == phase)?;
        self.rules.remove(index).map(|rule| rule.action)
    }
}

fn injected(errno: i32) -> IoFault {
    IoFault {
        code: Some(errno),
        message: format!("injected fault {errno}"),
    }
}

impl EpochFileIo for ScriptedIo {
    fn submit_epoch(
        &mut self,
        _start_offset: u64,
        _records: &[Vec<u8>],
    ) -> Option<Result<(), (EpochIoPhase, IoFault)>> {
        None
    }

    fn complete_epoch(&mut self) -> (EpochPersistMetrics, Result<(), (EpochIoPhase, IoFault)>) {
        unreachable!("nothing is written in the background")
    }

    fn persist_epoch(
        &mut self,
        _start_offset: u64,
        _records: &[Vec<u8>],
    ) -> Option<(EpochPersistMetrics, Result<(), (EpochIoPhase, IoFault)>)> {
        None
    }

    fn len(&mut self, phase: EpochIoPhase) -> Result<u64, IoFault> {
        match self.take(phase) {
            Some(FaultAction::Fail(errno)) => Err(injected(errno)),
            Some(FaultAction::ReportLength(length)) => Ok(length),
            Some(action) => panic!("unsupported len action {action:?}"),
            None => self.inner.len(phase),
        }
    }

    fn write_at(
        &mut self,
        phase: EpochIoPhase,
        offset: u64,
        bytes: &[u8],
    ) -> Result<usize, IoFault> {
        match self.take(phase) {
            Some(FaultAction::Fail(errno)) => Err(injected(errno)),
            Some(FaultAction::WritePrefixThenFail { bytes: count, errno }) => {
                let count = count.min(bytes.len());
                if count != 0 {
                    let written = self.inner.write_at(phase, offset, &bytes[..count])?;
                    assert_eq!(written, count);
                }
                Err(injected(errno))
            }
            Some(FaultAction::ApplyThenFail(errno)) => {
                let written = self.inner.write_at(phase, offset, bytes)?;
                assert_eq!(written, bytes.len());
                Err(injected(errno))
            }
            Some(action) => panic!("unsupported write action {action:?}"),
            None => self.inner.write_at(phase, offset, bytes),
        }
    }

    fn sync_data(&mut self, phase: EpochIoPhase) -> Result<(), IoFault> {
        match self.take(phase) {
            Some(FaultAction::Fail(errno)) => Err(injected(errno)),
            Some(FaultAction::ApplyThenFail(errno)) => {
                self.inner.sync_data(phase)?;
                Err(injected(errno))
            }
            Some(action) => panic!("unsupported sync action {action:?}"),
            None => self.inner.sync_data(phase),
        }
    }

    fn set_len(&mut self, phase: EpochIoPhase, len: u64) -> Result<(), IoFault> {
        match self.take(phase) {
            Some(FaultAction::Fail(errno)) => Err(injected(errno)),
            Some(FaultAction::ApplyThenFail(errno)) => {
                self.inner.set_len(phase, len)?;
                Err(injected(errno))
            }
            Some(action) => panic!("unsupported truncate action {action:?}"),
            None => self.inner.set_len(phase, len),
        }
    }

    fn read_all(&mut self, phase: EpochIoPhase) -> Result<Vec<u8>, IoFault> {
        match self.take(phase) {
            Some(FaultAction::Fail(errno)) => Err(injected(errno)),
            Some(action) => panic!("unsupported read action {action:?}"),
            None => self.inner.read_all(phase),
        }
    }
}

fn three_frames() -> Vec<Arc<CommitFrame>> {
    let mut database = Database::new(MemoryCommitStore::new()).expect("memory database opens");
    let mut first = database.begin();
    assert_eq!(first.entity(), EntityId::new(1));
    first.define(SlotId::new("state/1"), state_fact(EntityId::new(1), "one"));
    database.commit(first).expect("first commits");
    for index in 2..=3 {
        let mut transaction = database.begin();
        transaction.define(
            SlotId::new(&format!("state/{index}")),
            state_fact(EntityId::new(1), &index.to_string()),
        );
        database.commit(transaction).expect("frame commits");
    }
    database.frames()
}

fn initialized() -> SharedFile {
    let file = SharedFile::new(&[]);
    let store = FileCommitStore::open(file.clone()).expect("file initializes");
    assert_eq!(store.len(), 0);
    file
}

fn scripted_store(
    policy: FileEpochSyncPolicy,
    rules: Vec<FaultRule>,
) -> FileEpochStore<ScriptedIo> {
    FileEpochStore::from_io(ScriptedIo::open(&initialized(), rules), policy)
        .expect("scripted store opens")
}

#[test]
fn epoch_and_per_frame_policies_produce_identical_v1_bytes() {
    let frames = three_frames();
    let sequential_file = initialized();
    let epoch_file = initialized();
    let mut sequential =
        FileEpochStore::from_io(sequential_file.clone(), FileEpochSyncPolicy::PerFrame)
            .expect("sequential opens");
    let mut epoch = FileEpochStore::from_io(epoch_file.clone(), FileEpochSyncPolicy::PerEpoch)
        .expect("epoch opens");
    sequential.append_epoch(&frames).expect("sequential commits");
    epoch.append_epoch(&frames).expect("epoch commits");
    assert_eq!(sequential_file.bytes(), epoch_file.bytes());
    assert_eq!(sequential.metrics().data_syncs, 3);
    assert_eq!(epoch.metrics().data_syncs, 1);
}

#[test]
fn prefix_write_enospc_repairs_exact_checkpoint_and_store_remains_reusable() {
    let frames = three_frames();
    let file = initialized();
    let original = file.bytes();
    let rules = vec![FaultRule {
        phase: EpochIoPhase::EpochWrite,
        action: FaultAction::WritePrefixThenFail {
            bytes: 37,
            errno: ENOSPC,
        },
    }];
    let mut store = FileEpochStore::from_io(
        ScriptedIo::open(&file, rules),
        FileEpochSyncPolicy::PerEpoch,
    )
    .expect("store opens");
    assert!(matches!(
        store.append_epoch(&frames),
        Err(FileEpochStoreError::EpochRepaired { .. })
    ));
    assert_eq!(store.state(), FileEpochState::Healthy);
    assert_eq!(store.len(), 0);
    assert_eq!(file.bytes(), original);
    store.append_epoch(&frames).expect("next epoch succeeds");
    assert_eq!(store.len(), 3);
}

#[test]
fn epoch_sync_eio_repairs_even_after_full_arena_write() {
    let frames = three_frames();
    let mut store = scripted_store(
        FileEpochSyncPolicy::PerEpoch,
        vec![FaultRule {
            phase: EpochIoPhase::EpochSync,
            action: FaultAction::Fail(EIO),
        }],
    );
    assert!(matches!(
        store.append_epoch(&frames),
        Err(FileEpochStoreError::EpochRepaired {
            phase: EpochIoPhase::EpochSync,
            ..
        })
    ));
    assert_eq!(store.state(), FileEpochState::Healthy);
    assert_eq!(store.len(), 0);
}

#[test]
fn truncate_failure_poisoning_is_permanent_for_live_handle() {
    let frames = three_frames();
    let mut store = scripted_store(
        FileEpochSyncPolicy::PerEpoch,
        vec![
            FaultRule {
                phase: EpochIoPhase::EpochWrite,
                action: FaultAction::WritePrefixThenFail {
                    bytes: 19,
                    errno: ENOSPC,
                },
            },
            FaultRule {
                phase: EpochIoPhase::RepairTruncate,
                action: FaultAction::Fail(EIO),
            },
        ],
    );
    assert!(matches!(
        store.append_epoch(&frames),
        Err(FileEpochStoreError::RepairFailed { .. })
    ));
    assert_eq!(store.state(), FileEpochState::Poisoned);
    assert!(matches!(
        store.append_epoch(&frames),
        Err(FileEpochStoreError::StorePoisoned(_))
    ));
    assert!(matches!(
        store.physical_frames(),
        Err(FileEpochStoreError::StorePoisoned(_))
    ));
    assert_eq!(store.frames().len(), 0);
}

#[test]
fn truncate_that_applies_but_reports_eio_still_poisoned() {
    let frames = three_frames();
    let mut store = scripted_store(
        FileEpochSyncPolicy::PerEpoch,
        vec![
            FaultRule {
                phase: EpochIoPhase::EpochWrite,
                action: FaultAction::Fail(ENOSPC),
            },
            FaultRule {
                phase: EpochIoPhase::RepairTruncate,
                action: FaultAction::ApplyThenFail(EIO),
            },
        ],
    );
    assert!(matches!(
        store.append_epoch(&frames),
        Err(FileEpochStoreError::RepairFailed { .. })
    ));
    assert_eq!(store.state(), FileEpochState::Poisoned);
}

#[test]
fn repair_sync_failure_poisoned() {
    let frames = three_frames();
    let mut store = scripted_store(
        FileEpochSyncPolicy::PerEpoch,
        vec![
            FaultRule {
                phase: EpochIoPhase::EpochWrite,
                action: FaultAction::Fail(ENOSPC),
            },
            FaultRule {
                phase: EpochIoPhase::RepairSync,
                action: FaultAction::Fail(EIO),
            },
        ],
    );
    assert!(matches!(
        store.append_epoch(&frames),
        Err(FileEpochStoreError::RepairFailed { .. })
    ));
    assert_eq!(store.state(), FileEpochState::Poisoned);
}

#[test]
fn verification_length_mismatch_poisoned() {
    let frames = three_frames();
    let mut store = scripted_store(
        FileEpochSyncPolicy::PerEpoch,
        vec![
            FaultRule {
                phase: EpochIoPhase::EpochWrite,
                action: FaultAction::Fail(ENOSPC),
            },
            FaultRule {
                phase: EpochIoPhase::VerifyLength,
                action: FaultAction::ReportLength(999),
            },
        ],
    );
    assert!(matches!(
        store.append_epoch(&frames),
        Err(FileEpochStoreError::RepairFailed { .. })
    ));
    assert_eq!(store.state(), FileEpochState::Poisoned);
}

#[test]
fn a_crash_in_the_middle_of_a_record_loses_that_record_only() {
    let frames = three_frames();
    let mut bytes = encode_header();
    for frame in &frames[..2] {
        bytes.extend_from_slice(&encode_record(frame).expect("record encodes"));
    }
    let keep = bytes.len();
    let last = encode_record(&frames[2]).expect("record encodes");
    for cut in 0..last.len() {
        let mut torn = bytes.clone();
        torn.extend_from_slice(&last[..cut]);
        let (read, end) = decode_file(&torn).expect("prefix is sound");
        assert_eq!(read, frames[..2].to_vec());
        assert_eq!(end, keep);
        let (inspected, _) = inspect_file(&torn).expect("prefix is sound");
        assert_eq!(inspected, read);
    }
}

#[test]
fn log_errors_say_what_is_wrong() {
    let mut bytes = encode_header();
    bytes[8] = 2;
    let error = CommitLog::recover(&bytes).err().expect("wrong version");
    assert!(matches!(error, FileCommitStoreError::UnsupportedFormat(2)));
    assert_eq!(error.describe(), "unsupported ForthDB file format version 2");

    let mut bytes = encode_header();
    bytes[12] = 0xab;
    let error = CommitLog::recover(&bytes).err().expect("wrong flags");
    assert_eq!(
        error.describe(),
        "invalid ForthDB file header: unsupported header flags 0x000000ab"
    );

    let mut bytes = encode_header();
    bytes.extend_from_slice(&[b'x'; 40]);
    let error = CommitLog::recover(&bytes).err().expect("wrong magic");
    assert_eq!(
        error.describe(),
        "corrupt commit frame at byte 16: frame magic does not match FRM1"
    );

    let frames = three_frames();
    let (log, _) = CommitLog::recover(&encode_header()).expect("empty log opens");
    let error = log.prepare(&frames[1]).expect_err("the first frame is missing");
    assert!(matches!(error, FileCommitStoreError::NonLinearAppend(_)));
    let error = FileCommitStoreError::Io(IoFault {
        code: Some(5),
        message: "broken".to_owned(),
    });
    assert_eq!(error.describe(), "file commit store I/O failed: broken");
}

#[test]
fn a_failed_append_is_rolled_back() {
    let frames = three_frames();
    let file = initialized();
    let clean = file.bytes();
    let mut store = FileCommitStore::open(ScriptedIo::open(
        &file,
        vec![FaultRule {
            phase: EpochIoPhase::EpochSync,
            action: FaultAction::Fail(EIO),
        }],
    ))
    .expect("store opens");
    assert!(matches!(
        store.append(frames[0].clone()),
        Err(FileCommitStoreError::Io(IoFault { code: Some(5), .. }))
    ));
    assert_eq!(store.len(), 0);
    assert_eq!(file.bytes(), clean);
    store.append(frames[0].clone()).expect("next append succeeds");
    assert_eq!(store.len(), 1);
    assert!(!store.is_empty());
}

#[test]
fn ring_completions_are_judged() {
    let good = |user_data, result| Completion { user_data, result };
    let write = |result| good(WRITE_USER_DATA, result);
    let sync = |result| good(FSYNC_USER_DATA, result);
    assert!(judge_commit(&[write(10), sync(0)], 10).is_ok());
    for (completions, expected) in [
        (vec![write(9), sync(0)], "short"),
        (vec![write(-5), sync(0)], "failed"),
        (vec![write(10), sync(-5)], "failed"),
        (vec![write(10), sync(3)], "unexpected"),
        (vec![sync(0)], "missing"),
        (vec![write(10)], "missing"),
    ] {
        let failure = judge_commit(&completions, 10).err().expect("commit fails");
        let kind = match failure.error {
            IoUringCommitStoreError::ShortWrite { expected: 10, actual: 9 } => "short",
            IoUringCommitStoreError::OperationFailed { error: 5, .. } => "failed",
            IoUringCommitStoreError::UnexpectedCompletion { result: 3, .. } => "unexpected",
            IoUringCommitStoreError::MissingCompletion(_) => "missing",
            _ => "other",
        };
        assert_eq!(kind, expected);
    }
    assert!(submission_length(10).is_ok());
    assert!(check_ring_entries(1).is_err());
    assert!(check_ring_entries(2).is_ok());
}

#[test]
fn epochs_are_laid_out_for_a_ring() {
    let records = vec![vec![1u8, 2], vec![3u8], vec![4u8, 5, 6]];
    let mut metrics = EpochPersistMetrics::default();
    let (bytes, length) = plan_contiguous(&records, &mut metrics).expect("epoch fits");
    assert_eq!(bytes, vec![1, 2, 3, 4, 5, 6]);
    assert_eq!(length, 6);
    let (count, total) = plan_vectored(&records, 1024, &mut metrics).expect("epoch fits");
    assert_eq!(count, 3);
    assert_eq!(total, 6);
    assert!(plan_vectored(&records, 2, &mut metrics).is_err());
    assert!(check_submission(2, 2).is_ok());
    assert!(check_submission(3, 2).is_err());
    assert_eq!(IoUringEpochStrategy::ContiguousWrite.as_str(), "contiguous_write");
}

#[test]
fn epoch_stores_refuse_what_does_not_follow() {
    let frames = three_frames();
    let mut store = FileEpochStore::from_io(initialized(), FileEpochSyncPolicy::PerEpoch)
        .expect("store opens");
    store.append_epoch(&[]).expect("an empty epoch is nothing");
    assert!(matches!(
        store.append_epoch(&frames[1..]),
        Err(FileEpochStoreError::File(FileCommitStoreError::NonLinearAppend(_)))
    ));
    store.append_epoch(&frames).expect("epoch commits");
    assert_eq!(store.physical_frames().expect("file reads back"), frames);
    let length = store.file_len().expect("file length");
    let io = store.into_io();
    assert_eq!(io.bytes().len() as u64, length);

    let mut torn = io.bytes();
    torn.pop();
    assert!(matches!(
        FileEpochStore::from_io(SharedFile::new(&torn), FileEpochSyncPolicy::PerEpoch),
        Err(FileEpochStoreError::Verification(_))
    ));

    let mut fenced = FileEpochStore::from_io(io, FileEpochSyncPolicy::PerFrame)
        .expect("store opens again");
    assert_eq!(fenced.policy(), FileEpochSyncPolicy::PerFrame);
    fenced.poison_external("fenced off".to_owned());
    assert_eq!(fenced.poison_reason(), Some("fenced off"));
    let error = fenced.append_epoch(&frames).expect_err("store is poisoned");
    assert!(error.describe().contains("fenced off"));
    assert_eq!(fenced.len(), 3);
}

#[test]
fn equal_histories_have_equal_files() {
    let frames = three_frames();
    let whole = initialized();
    let pieces = initialized();
    FileEpochStore::from_io(whole.clone(), FileEpochSyncPolicy::PerEpoch)
        .expect("store opens")
        .append_epoch(&frames)
        .expect("epoch commits");
    let mut store = FileCommitStore::open(pieces.clone()).expect("store opens");
    for frame in &frames {
        assert_ne!(whole.bytes(), pieces.bytes());
        store.append(frame.clone()).expect("frame appends");
    }
    assert_eq!(whole.bytes(), pieces.bytes());
}

/// A file that remembers what it held when it was last synced.
#[derive(Clone, Debug)]
struct SyncedFile {
    inner: SharedFile,
    synced: Arc<Mutex<Vec<u8>>>,
}

impl SyncedFile {
    fn new(inner: SharedFile) -> Self {
        let synced = Arc::new(Mutex::new(inner.bytes()));
        SyncedFile { inner, synced }
    }

    fn is_synced(&self) -> bool {
        *self.synced.lock().unwrap() == self.inner.bytes()
    }
}

impl EpochFileIo for SyncedFile {
    fn submit_epoch(
        &mut self,
        _start_offset: u64,
        _records: &[Vec<u8>],
    ) -> Option<Result<(), (EpochIoPhase, IoFault)>> {
        None
    }

    fn complete_epoch(&mut self) -> (EpochPersistMetrics, Result<(), (EpochIoPhase, IoFault)>) {
        unreachable!("nothing is written in the background")
    }

    fn persist_epoch(
        &mut self,
        _start_offset: u64,
        _records: &[Vec<u8>],
    ) -> Option<(EpochPersistMetrics, Result<(), (EpochIoPhase, IoFault)>)> {
        None
    }

    fn len(&mut self, phase: EpochIoPhase) -> Result<u64, IoFault> {
        self.inner.len(phase)
    }

    fn write_at(
        &mut self,
        phase: EpochIoPhase,
        offset: u64,
        bytes: &[u8],
    ) -> Result<usize, IoFault> {
        self.inner.write_at(phase, offset, bytes)
    }

    fn sync_data(&mut self, phase: EpochIoPhase) -> Result<(), IoFault> {
        self.inner.sync_data(phase)?;
        *self.synced.lock().unwrap() = self.inner.bytes();
        Ok(())
    }

    fn set_len(&mut self, phase: EpochIoPhase, len: u64) -> Result<(), IoFault> {
        self.inner.set_len(phase, len)
    }

    fn read_all(&mut self, phase: EpochIoPhase) -> Result<Vec<u8>, IoFault> {
        self.inner.read_all(phase)
    }
}

#[test]
fn what_is_appended_is_synced() {
    let frames = three_frames();
    for policy in [FileEpochSyncPolicy::PerEpoch, FileEpochSyncPolicy::PerFrame] {
        let file = SyncedFile::new(initialized());
        let mut store = FileEpochStore::from_io(file.clone(), policy).expect("store opens");
        store.append_epoch(&frames).expect("epoch commits");
        assert!(file.is_synced());
    }
    let file = SyncedFile::new(SharedFile::new(&[]));
    let mut database =
        Database::new(FileCommitStore::open(file.clone()).expect("store opens")).expect("opens");
    assert!(file.is_synced());
    let mut transaction = database.begin();
    let entity = transaction.entity();
    transaction.define(SlotId::new("state"), state_fact(entity, "one"));
    database.commit(transaction).expect("commits");
    assert!(file.is_synced());
    assert!(file.inner.bytes().len() > FILE_HEADER_LEN);
}

#[test]
fn epochs_are_laid_out_before_they_are_stored() {
    let frames = three_frames();
    let file = initialized();
    let clean = file.bytes();
    let mut store = FileEpochStore::from_io(file.clone(), FileEpochSyncPolicy::PerEpoch)
        .expect("store opens");
    let epoch = store.prepare_epoch(&frames).ok().expect("epoch is laid out");
    assert_eq!(epoch.records.len(), 3);
    assert_eq!(epoch.records[1], encode_record(&frames[1]).expect("record encodes"));
    assert_eq!(file.bytes(), clean);
    assert_eq!(store.len(), 0);
    store.store_epoch(&frames, epoch).expect("epoch is stored");
    assert_eq!(store.len(), 3);
    assert_eq!(store.physical_frames().expect("file reads back"), frames);
}

#[test]
fn repairs_say_which_phase_failed() {
    let frames = three_frames();
    let broken = |phase, action| FaultRule { phase, action };
    for (phase, action, words) in [
        (EpochIoPhase::RepairTruncate, FaultAction::Fail(EIO), "injected fault 5"),
        (EpochIoPhase::RepairSync, FaultAction::Fail(EIO), "injected fault 5"),
        (EpochIoPhase::VerifyLength, FaultAction::Fail(EIO), "injected fault 5"),
        (EpochIoPhase::VerifyLength, FaultAction::ReportLength(999), "999"),
    ] {
        let mut store = scripted_store(
            FileEpochSyncPolicy::PerEpoch,
            vec![
                broken(EpochIoPhase::EpochSync, FaultAction::ApplyThenFail(ENOSPC)),
                broken(phase, action),
            ],
        );
        match store.append_epoch(&frames) {
            Err(FileEpochStoreError::RepairFailed {
                primary_phase: EpochIoPhase::EpochSync,
                primary,
                repair_phase,
                repair,
            }) => {
                assert_eq!(repair_phase, phase);
                assert!(primary.contains("injected fault 28"));
                assert!(repair.contains(words));
            }
            _ => panic!("the repair fails"),
        }
        assert_eq!(store.state(), FileEpochState::Poisoned);
    }

    let file = initialized();
    let clean = file.bytes();
    let mut store = FileEpochStore::from_io(
        ScriptedIo::open(
            &file,
            vec![broken(
                EpochIoPhase::EpochWrite,
                FaultAction::WritePrefixThenFail { bytes: 37, errno: ENOSPC },
            )],
        ),
        FileEpochSyncPolicy::PerEpoch,
    )
    .expect("store opens");
    match store.append_epoch(&frames) {
        Err(FileEpochStoreError::EpochRepaired { phase: EpochIoPhase::EpochWrite, source }) => {
            assert_eq!(source.code, Some(ENOSPC));
        }
        _ => panic!("the epoch is taken back"),
    }
    assert_eq!(store.state(), FileEpochState::Healthy);
    assert_eq!(file.bytes(), clean);
}

#[test]
fn failed_epochs_count_writes_and_no_commits() {
    let frames = three_frames();
    let mut store = scripted_store(
        FileEpochSyncPolicy::PerFrame,
        vec![FaultRule {
            phase: EpochIoPhase::EpochSync,
            action: FaultAction::Fail(EIO),
        }],
    );
    assert!(store.append_epoch(&frames).is_err());
    let metrics = store.metrics();
    assert_eq!(metrics.epoch_attempts, 1);
    assert_eq!(metrics.epochs_committed, 0);
    assert_eq!(metrics.frames_committed, 0);
    assert_eq!(metrics.data_writes, 1);
    store.append_epoch(&frames).expect("next epoch succeeds");
    let metrics = store.metrics();
    assert_eq!(metrics.epochs_committed, 1);
    assert_eq!(metrics.frames_committed, 3);
    assert_eq!(metrics.data_writes, 4);
}
