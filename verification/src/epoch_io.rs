//! The file operations that an epoch store is built on, and their counters.

use crate::admission_worker::in_flight;
use crate::errors::{IoFault, IoFaultModel};
use crate::wire::put_bytes;
use vstd::prelude::*;
use vstd::string::*;

verus! {

/// What a file operation is done for.
#[derive(Clone, Copy, Debug, PartialEq, Eq, Hash, Structural)]
pub enum EpochIoPhase {
    EpochStart,
    EpochWrite,
    EpochSync,
    RepairTruncate,
    RepairSync,
    VerifyLength,
    VerifyRead,
}

pub open spec fn phase_text(phase: EpochIoPhase) -> Seq<char> {
    match phase {
        EpochIoPhase::EpochStart => "EpochStart"@,
        EpochIoPhase::EpochWrite => "EpochWrite"@,
        EpochIoPhase::EpochSync => "EpochSync"@,
        EpochIoPhase::RepairTruncate => "RepairTruncate"@,
        EpochIoPhase::RepairSync => "RepairSync"@,
        EpochIoPhase::VerifyLength => "VerifyLength"@,
        EpochIoPhase::VerifyRead => "VerifyRead"@,
    }
}

impl EpochIoPhase {
    /// The name of the phase.
    pub fn name(self) -> (result: &'static str)
        ensures
            result@ == phase_text(self),
    {
        match self {
            EpochIoPhase::EpochStart => "EpochStart",
            EpochIoPhase::EpochWrite => "EpochWrite",
            EpochIoPhase::EpochSync => "EpochSync",
            EpochIoPhase::RepairTruncate => "RepairTruncate",
            EpochIoPhase::RepairSync => "RepairSync",
            EpochIoPhase::VerifyLength => "VerifyLength",
            EpochIoPhase::VerifyRead => "VerifyRead",
        }
    }
}

/// Whether a store may be used.
#[derive(Clone, Copy, Debug, PartialEq, Eq, Structural)]
pub enum FileEpochState {
    Healthy,
    Repairing,
    Poisoned,
}

/// When written records are synchronized.
#[derive(Clone, Copy, Debug, PartialEq, Eq, Structural)]
pub enum FileEpochSyncPolicy {
    /// After every record.
    PerFrame,
    /// Once, after all records of an epoch.
    PerEpoch,
}

/// What one transport of an epoch did.
#[derive(Clone, Copy, Debug, PartialEq, Eq, Structural)]
pub struct EpochPersistMetrics {
    pub data_writes: u64,
    pub data_syncs: u64,
    pub bytes_written: u64,
    pub submission_calls: u64,
    pub completion_events: u64,
    pub maximum_in_flight_writes: u64,
    pub iovecs_submitted: u64,
    pub arena_bytes_copied: u64,
}

impl Default for EpochPersistMetrics {
    fn default() -> (result: Self)
        ensures
            result == (EpochPersistMetrics {
                data_writes: 0,
                data_syncs: 0,
                bytes_written: 0,
                submission_calls: 0,
                completion_events: 0,
                maximum_in_flight_writes: 0,
                iovecs_submitted: 0,
                arena_bytes_copied: 0,
            }),
    {
        EpochPersistMetrics {
            data_writes: 0,
            data_syncs: 0,
            bytes_written: 0,
            submission_calls: 0,
            completion_events: 0,
            maximum_in_flight_writes: 0,
            iovecs_submitted: 0,
            arena_bytes_copied: 0,
        }
    }
}

/// What a store has done so far. The counters wrap.
#[derive(Clone, Copy, Debug, PartialEq, Eq, Structural)]
pub struct FileEpochMetrics {
    pub epoch_attempts: u64,
    pub epochs_committed: u64,
    pub frames_committed: u64,
    pub data_writes: u64,
    pub data_syncs: u64,
    pub repair_syncs: u64,
    pub repairs_succeeded: u64,
    pub repairs_failed: u64,
    pub bytes_written: u64,
    pub submission_calls: u64,
    pub completion_events: u64,
    pub maximum_in_flight_writes: u64,
    pub iovecs_submitted: u64,
    pub arena_bytes_copied: u64,
}

/// A wrapping counter after `more` events.
pub open spec fn counted(start: u64, more: nat) -> u64 {
    ((start + more) % 0x1_0000_0000_0000_0000) as u64
}

/// Counting in two steps is counting once.
pub proof fn counted_twice(start: u64, first: nat, second: nat)
    ensures
        counted(counted(start, first), second) == counted(start, first + second),
        second <= u64::MAX ==> counted(start, second) == start.wrapping_add(second as u64),
        counted(start, 0) == start,
{
    let modulus: int = 0x1_0000_0000_0000_0000;
    vstd::arithmetic::div_mod::lemma_add_mod_noop_right(second as int, start + first, modulus);
    assert((second + (start + first) % modulus) % modulus == (second + (start + first))
        % modulus);
}

/// Nothing done yet.
pub open spec fn no_metrics() -> FileEpochMetrics {
    FileEpochMetrics {
        epoch_attempts: 0,
        epochs_committed: 0,
        frames_committed: 0,
        data_writes: 0,
        data_syncs: 0,
        repair_syncs: 0,
        repairs_succeeded: 0,
        repairs_failed: 0,
        bytes_written: 0,
        submission_calls: 0,
        completion_events: 0,
        maximum_in_flight_writes: 0,
        iovecs_submitted: 0,
        arena_bytes_copied: 0,
    }
}

impl Default for FileEpochMetrics {
    fn default() -> (result: Self)
        ensures
            result == no_metrics(),
    {
        FileEpochMetrics {
            epoch_attempts: 0,
            epochs_committed: 0,
            frames_committed: 0,
            data_writes: 0,
            data_syncs: 0,
            repair_syncs: 0,
            repairs_succeeded: 0,
            repairs_failed: 0,
            bytes_written: 0,
            submission_calls: 0,
            completion_events: 0,
            maximum_in_flight_writes: 0,
            iovecs_submitted: 0,
            arena_bytes_copied: 0,
        }
    }
}

/// The counters with those of one transport added: all are summed but the highest number of
/// writes in flight.
pub open spec fn with_transport(
    metrics: FileEpochMetrics,
    transport: EpochPersistMetrics,
) -> FileEpochMetrics {
    FileEpochMetrics {
        data_writes: metrics.data_writes.wrapping_add(transport.data_writes),
        data_syncs: metrics.data_syncs.wrapping_add(transport.data_syncs),
        bytes_written: metrics.bytes_written.wrapping_add(transport.bytes_written),
        submission_calls: metrics.submission_calls.wrapping_add(transport.submission_calls),
        completion_events: metrics.completion_events.wrapping_add(transport.completion_events),
        maximum_in_flight_writes: if metrics.maximum_in_flight_writes
            < transport.maximum_in_flight_writes {
            transport.maximum_in_flight_writes
        } else {
            metrics.maximum_in_flight_writes
        },
        iovecs_submitted: metrics.iovecs_submitted.wrapping_add(transport.iovecs_submitted),
        arena_bytes_copied: metrics.arena_bytes_copied.wrapping_add(transport.arena_bytes_copied),
        ..metrics
    }
}

impl FileEpochMetrics {
    /// Adds what one transport did.
    pub fn record_persist(&mut self, transport: EpochPersistMetrics)
        ensures
            *final(self) == with_transport(*old(self), transport),
    {
        self.data_writes = self.data_writes.wrapping_add(transport.data_writes);
        self.data_syncs = self.data_syncs.wrapping_add(transport.data_syncs);
        self.bytes_written = self.bytes_written.wrapping_add(transport.bytes_written);
        self.submission_calls = self.submission_calls.wrapping_add(transport.submission_calls);
        self.completion_events = self.completion_events.wrapping_add(transport.completion_events);
        if self.maximum_in_flight_writes < transport.maximum_in_flight_writes {
            self.maximum_in_flight_writes = transport.maximum_in_flight_writes;
        }
        self.iovecs_submitted = self.iovecs_submitted.wrapping_add(transport.iovecs_submitted);
        self.arena_bytes_copied = self.arena_bytes_copied.wrapping_add(
            transport.arena_bytes_copied,
        );
    }
}

/// Byte strings one after the other.
pub open spec fn concatenated(records: Seq<Vec<u8>>) -> Seq<u8>
    decreases records.len(),
{
    if records.len() == 0 {
        Seq::empty()
    } else {
        concatenated(records.drop_last()) + records.last()@
    }
}

/// A call that a device did not do.
pub enum DeviceFault {
    Failed(EpochIoPhase, IoFaultModel),
    /// A write went no further.
    Stalled(EpochIoPhase),
}

/// What a device has replied: the calls that it did not do, how many writes it was asked for, how
/// many epochs it did not begin, and the last length and the last bytes that it gave.
pub struct DeviceLog {
    pub faults: Seq<DeviceFault>,
    pub writes: nat,
    pub refused: nat,
    pub length: u64,
    pub bytes: Seq<u8>,
}

/// A log after a call that failed.
pub open spec fn noted(log: DeviceLog, phase: EpochIoPhase, fault: IoFaultModel) -> DeviceLog {
    DeviceLog { faults: log.faults.push(DeviceFault::Failed(phase, fault)), ..log }
}

/// A log in which one more write is counted.
pub open spec fn with_write(log: DeviceLog) -> DeviceLog {
    DeviceLog { writes: log.writes + 1, ..log }
}

/// A log in which one more epoch was not begun.
pub open spec fn with_refusal(log: DeviceLog) -> DeviceLog {
    DeviceLog { refused: log.refused + 1, ..log }
}

/// A log after a write that went no further.
pub open spec fn noted_stall(log: DeviceLog, phase: EpochIoPhase) -> DeviceLog {
    DeviceLog { faults: log.faults.push(DeviceFault::Stalled(phase)), ..log }
}

/// The file operations that an epoch store needs.
///
/// A store must cope with every reply. What it may conclude from replies depends on the device:
/// on a `reliable` one, an operation that reports success has done what it says, and one that
/// fails has spared the bytes in front of the position that it was given.
pub trait EpochFileIo: Sized {
    /// The bytes of the file, as far as they are known.
    open spec fn contents(&self) -> Seq<u8> {
        Seq::empty()
    }

    /// Whether replies can be trusted.
    open spec fn reliable(&self) -> bool {
        false
    }

    /// Whether no operation at or before the end of the file ever fails.
    open spec fn unfailing(&self) -> bool {
        false
    }

    /// The bytes that have been made durable.
    open spec fn synced(&self) -> Seq<u8> {
        Seq::empty()
    }

    /// Whether the log tells what was replied.
    open spec fn logs(&self) -> bool {
        false
    }

    /// What has been replied.
    open spec fn log(&self) -> DeviceLog {
        DeviceLog { faults: Seq::empty(), writes: 0, refused: 0, length: 0, bytes: Seq::empty() }
    }

    /// Whether whole epochs may be handed to a transport of their own.
    open spec fn transports(&self) -> bool {
        true
    }

    /// The offset and the bytes of the epoch that a transport is writing in the background.
    open spec fn in_flight(&self) -> Option<(u64, Seq<u8>)> {
        None
    }

    /// Has a transport begin to write a whole epoch in the background, if there is one that does.
    /// Until it is completed, nothing is known of what it has written.
    fn submit_epoch(&mut self, start_offset: u64, records: &[Vec<u8>]) -> (result: Option<
        Result<(), (EpochIoPhase, IoFault)>,
    >)
        ensures
            final(self).reliable() == old(self).reliable(),
            final(self).unfailing() == old(self).unfailing(),
            final(self).transports() == old(self).transports(),
            final(self).logs() == old(self).logs(),
            old(self).logs() ==> final(self).log() == match result {
                Some(Err((phase, fault))) => noted(with_refusal(old(self).log()), phase, fault@),
                _ => old(self).log(),
            },
            final(self).synced() == old(self).synced(),
            result is Some ==> old(self).transports(),
            result matches Some(Err(_)) ==> !old(self).unfailing(),
            result matches Some(Ok(_)) ==> final(self).in_flight() == Some(
                (start_offset, concatenated(records@)),
            ),
            match result {
                Some(Err(_)) => old(self).reliable() && start_offset == old(self).contents().len()
                    ==> final(self).contents().len() >= old(self).contents().len()
                    && final(self).contents().take(old(self).contents().len() as int) == old(
                    self,
                ).contents(),
                _ => final(self).contents() == old(self).contents(),
            },
    ;

    /// Waits for the epoch that is being written in the background.
    fn complete_epoch(&mut self) -> (result: (
        EpochPersistMetrics,
        Result<(), (EpochIoPhase, IoFault)>,
    ))
        requires
            old(self).in_flight() is Some,
        ensures
            final(self).reliable() == old(self).reliable(),
            final(self).unfailing() == old(self).unfailing(),
            final(self).transports() == old(self).transports(),
            final(self).logs() == old(self).logs(),
            old(self).logs() ==> final(self).log() == match result.1 {
                Err((phase, fault)) => noted(old(self).log(), phase, fault@),
                Ok(()) => old(self).log(),
            },
            result.1 is Ok ==> final(self).synced() == final(self).contents(),
            result.1 is Err ==> !old(self).unfailing(),
            old(self).reliable() && old(self).in_flight()->Some_0.0 == old(self).contents().len()
                ==> match result.1 {
                Ok(()) => final(self).contents() == old(self).contents() + old(
                    self,
                ).in_flight()->Some_0.1,
                Err(_) => final(self).contents().len() >= old(self).contents().len()
                    && final(self).contents().take(old(self).contents().len() as int) == old(
                    self,
                ).contents(),
            },
    ;

    /// Hands a whole epoch to a transport, if there is one; it returns when every record buffer
    /// is no longer in use.
    fn persist_epoch(&mut self, start_offset: u64, records: &[Vec<u8>]) -> (result: Option<
        (EpochPersistMetrics, Result<(), (EpochIoPhase, IoFault)>),
    >)
        ensures
            final(self).reliable() == old(self).reliable(),
            final(self).unfailing() == old(self).unfailing(),
            final(self).transports() == old(self).transports(),
            final(self).logs() == old(self).logs(),
            old(self).logs() ==> final(self).log() == match result {
                Some((_, Err((phase, fault)))) => noted(old(self).log(), phase, fault@),
                _ => old(self).log(),
            },
            result is None ==> final(self).synced() == old(self).synced(),
            result matches Some((_, Ok(()))) ==> final(self).synced() == final(self).contents(),
            result is Some ==> old(self).transports(),
            result is None ==> final(self).contents() == old(self).contents(),
            result matches Some((_, Err(_))) ==> !old(self).unfailing(),
            old(self).reliable() && start_offset == old(self).contents().len() ==> match result {
                Some((_, Ok(()))) => final(self).contents() == old(self).contents() + concatenated(
                    records@,
                ),
                _ => final(self).contents().len() >= old(self).contents().len()
                    && final(self).contents().take(old(self).contents().len() as int) == old(
                    self,
                ).contents(),
            },
    ;

    fn len(&mut self, phase: EpochIoPhase) -> (result: Result<u64, IoFault>)
        ensures
            final(self).reliable() == old(self).reliable(),
            final(self).unfailing() == old(self).unfailing(),
            final(self).transports() == old(self).transports(),
            final(self).logs() == old(self).logs(),
            old(self).logs() ==> final(self).log() == match result {
                Ok(length) => DeviceLog { length, ..old(self).log() },
                Err(fault) => noted(old(self).log(), phase, fault@),
            },
            final(self).synced() == old(self).synced(),
            final(self).contents() == old(self).contents(),
            result is Err ==> !old(self).unfailing(),
            old(self).reliable() && result is Ok ==> result->Ok_0 == old(self).contents().len(),
    ;

    /// Writes a prefix of `bytes`, not empty where there is progress, and says how long it is.
    fn write_at(&mut self, phase: EpochIoPhase, offset: u64, bytes: &[u8]) -> (result: Result<
        usize,
        IoFault,
    >)
        ensures
            final(self).reliable() == old(self).reliable(),
            final(self).unfailing() == old(self).unfailing(),
            final(self).transports() == old(self).transports(),
            final(self).logs() == old(self).logs(),
            old(self).logs() ==> final(self).log() == match result {
                Ok(written) => if written == 0 && bytes.len() > 0 {
                    noted_stall(with_write(old(self).log()), phase)
                } else {
                    with_write(old(self).log())
                },
                Err(fault) => noted(with_write(old(self).log()), phase, fault@),
            },
            final(self).synced() == old(self).synced(),
            result matches Ok(written) ==> written <= bytes.len(),
            result is Err ==> !old(self).unfailing() || offset > old(self).contents().len(),
            bytes.len() > 0 && result == Ok::<usize, IoFault>(0) ==> !old(self).unfailing(),
            old(self).reliable() && offset == old(self).contents().len() ==> match result {
                Ok(written) => final(self).contents() == old(self).contents() + bytes@.take(
                    written as int,
                ),
                Err(_) => final(self).contents().len() >= offset && final(self).contents().take(
                    offset as int,
                ) == old(self).contents(),
            },
    ;

    fn sync_data(&mut self, phase: EpochIoPhase) -> (result: Result<(), IoFault>)
        ensures
            final(self).reliable() == old(self).reliable(),
            final(self).unfailing() == old(self).unfailing(),
            final(self).transports() == old(self).transports(),
            final(self).logs() == old(self).logs(),
            old(self).logs() ==> final(self).log() == match result {
                Ok(()) => old(self).log(),
                Err(fault) => noted(old(self).log(), phase, fault@),
            },
            result is Ok ==> final(self).synced() == old(self).contents(),
            final(self).contents() == old(self).contents(),
            result is Err ==> !old(self).unfailing(),
    ;

    /// Cuts the file; what is in front of the cut stays, even where cutting fails.
    fn set_len(&mut self, phase: EpochIoPhase, len: u64) -> (result: Result<(), IoFault>)
        ensures
            final(self).reliable() == old(self).reliable(),
            final(self).unfailing() == old(self).unfailing(),
            final(self).transports() == old(self).transports(),
            final(self).logs() == old(self).logs(),
            old(self).logs() ==> final(self).log() == match result {
                Ok(()) => old(self).log(),
                Err(fault) => noted(old(self).log(), phase, fault@),
            },
            final(self).synced() == old(self).synced(),
            result is Err ==> !old(self).unfailing() || len > old(self).contents().len(),
            old(self).reliable() && len <= old(self).contents().len() ==> final(self).contents().len()
                >= len && final(self).contents().take(len as int) == old(self).contents().take(
                len as int,
            ),
            old(self).reliable() && result is Ok && len <= old(self).contents().len() ==> final(self).contents() == old(self).contents().take(len as int),
    ;

    fn read_all(&mut self, phase: EpochIoPhase) -> (result: Result<Vec<u8>, IoFault>)
        ensures
            final(self).reliable() == old(self).reliable(),
            final(self).unfailing() == old(self).unfailing(),
            final(self).transports() == old(self).transports(),
            final(self).logs() == old(self).logs(),
            old(self).logs() ==> final(self).log() == match result {
                Ok(bytes) => DeviceLog { bytes: bytes@, ..old(self).log() },
                Err(fault) => noted(old(self).log(), phase, fault@),
            },
            final(self).synced() == old(self).synced(),
            final(self).contents() == old(self).contents(),
            result is Err ==> !old(self).unfailing(),
            old(self).reliable() && result is Ok ==> result->Ok_0@ == old(self).contents(),
    ;
}

/// A file in memory.
pub struct MemoryEpochFile {
    bytes: Vec<u8>,
    synced: Ghost<Seq<u8>>,
    log: Ghost<DeviceLog>,
}

impl MemoryEpochFile {
    pub fn new(bytes: Vec<u8>) -> (result: Self)
        ensures
            result.contents() == bytes@,
            result.synced() == bytes@,
            result.logs(),
            result.log().faults == Seq::<DeviceFault>::empty(),
            result.reliable(),
            result.unfailing(),
            !result.transports(),
    {
        let ghost bytes_now = bytes@;
        MemoryEpochFile {
            bytes,
            synced: Ghost(bytes_now),
            log: Ghost(
                DeviceLog {
                    faults: Seq::empty(),
                    writes: 0,
                    refused: 0,
                    length: 0,
                    bytes: Seq::empty(),
                },
            ),
        }
    }

    pub fn bytes(&self) -> (result: &[u8])
        ensures
            result@ == self.contents(),
    {
        self.bytes.as_slice()
    }
}

impl EpochFileIo for MemoryEpochFile {
    closed spec fn contents(&self) -> Seq<u8> {
        self.bytes@
    }

    closed spec fn synced(&self) -> Seq<u8> {
        self.synced@
    }

    open spec fn logs(&self) -> bool {
        true
    }

    closed spec fn log(&self) -> DeviceLog {
        self.log@
    }

    open spec fn reliable(&self) -> bool {
        true
    }

    open spec fn unfailing(&self) -> bool {
        true
    }

    open spec fn transports(&self) -> bool {
        false
    }

    fn submit_epoch(&mut self, start_offset: u64, records: &[Vec<u8>]) -> (result: Option<
        Result<(), (EpochIoPhase, IoFault)>,
    >) {
        None
    }

    fn complete_epoch(&mut self) -> (result: (
        EpochPersistMetrics,
        Result<(), (EpochIoPhase, IoFault)>,
    )) {
        (EpochPersistMetrics::default(), Ok(()))
    }

    fn persist_epoch(&mut self, start_offset: u64, records: &[Vec<u8>]) -> (result: Option<
        (EpochPersistMetrics, Result<(), (EpochIoPhase, IoFault)>),
    >) {
        proof {
            assert(self.contents().take(self.contents().len() as int) =~= self.contents());
        }
        None
    }

    fn len(&mut self, phase: EpochIoPhase) -> (result: Result<u64, IoFault>) {
        let length: u64 = self.bytes.len() as u64;
        self.log = Ghost(DeviceLog { length, ..self.log@ });
        Ok(length)
    }

    /// Writes over what is there and on at the end; a hole in front fails.
    fn write_at(&mut self, phase: EpochIoPhase, offset: u64, bytes: &[u8]) -> (result: Result<
        usize,
        IoFault,
    >) {
        if offset > self.bytes.len() as u64 {
            let fault = IoFault {
                code: None,
                message: "write is behind the end of the file".to_owned(),
            };
            self.log = Ghost(noted(with_write(self.log@), phase, fault@));
            return Err(fault);
        }
        self.log = Ghost(with_write(self.log@));
        let end: usize = offset as usize;
        if bytes.len() >= self.bytes.len() - end {
            self.bytes.truncate(end);
            put_bytes(&mut self.bytes, bytes);
        } else {
            let mut rest = self.bytes.split_off(end + bytes.len());
            self.bytes.truncate(end);
            put_bytes(&mut self.bytes, bytes);
            self.bytes.append(&mut rest);
        }
        proof {
            assert(bytes@.take(bytes.len() as int) =~= bytes@);
            if offset == old(self).contents().len() {
                assert(self.contents() =~= old(self).contents() + bytes@);
            }
        }
        Ok(bytes.len())
    }

    fn sync_data(&mut self, phase: EpochIoPhase) -> (result: Result<(), IoFault>) {
        self.synced = Ghost(self.bytes@);
        Ok(())
    }

    /// Shortens the file, or fails.
    fn set_len(&mut self, phase: EpochIoPhase, len: u64) -> (result: Result<(), IoFault>) {
        if len > self.bytes.len() as u64 {
            let fault = IoFault { code: None, message: "file cannot be extended".to_owned() };
            self.log = Ghost(noted(self.log@, phase, fault@));
            return Err(fault);
        }
        self.bytes.truncate(len as usize);
        Ok(())
    }

    fn read_all(&mut self, phase: EpochIoPhase) -> (result: Result<Vec<u8>, IoFault>) {
        self.log = Ghost(DeviceLog { bytes: self.bytes@, ..self.log@ });
        Ok(vstd::slice::slice_to_vec(self.bytes.as_slice()))
    }
}

} // verus!
