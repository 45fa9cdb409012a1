//! Commits through a submission ring: what to submit, and what the completions mean.

use crate::commit_log::CommitLog;
use crate::epoch_io::{EpochIoPhase, EpochPersistMetrics, concatenated};
use crate::epoch_store::{EpochErrorModel, FileEpochStoreError};
use crate::errors::{
    FileCommitStoreError, FileErrorModel, IoFault, IoFaultModel, describe_numbers, two_numbers,
};
use crate::frame::{CommitFrame, encode_payload, payload_bytes};
use crate::log_format::{
    MAX_FRAME_BYTES, append_fault, find_append_fault, frame_payload, history_tail, record_bytes,
    tail_of,
};
use crate::text::{decimal, labelled, push_decimal};
use crate::wire::put_bytes;
use vstd::prelude::*;
use vstd::string::*;

verus! {

/// Tag of a commit's write.
pub const WRITE_USER_DATA: u64 = 0x4654_4844_4257_5254;

/// Tag of a commit's synchronization.
pub const FSYNC_USER_DATA: u64 = 0x4654_4844_4246_5359;

/// Entries of the ring of a commit store.
pub const RING_ENTRIES: u32 = 2;

/// Why a commit through a ring failed.
#[derive(Debug)]
#[allow(inconsistent_fields)]
pub enum IoUringCommitStoreError {
    UnsupportedPlatform,
    Recovery(FileCommitStoreError),
    Io(IoFault),
    QueueFull,
    MissingCompletion(&'static str),
    OperationFailed { operation: &'static str, error: i32 },
    UnexpectedCompletion { operation: &'static str, result: i32 },
    ShortWrite { expected: usize, actual: usize },
    NonLinearAppend(String),
    FrameTooLarge(usize),
}

/// Mathematical value of an [`IoUringCommitStoreError`].
#[allow(inconsistent_fields)]
pub enum RingErrorModel {
    UnsupportedPlatform,
    Recovery(FileErrorModel),
    Io(IoFaultModel),
    QueueFull,
    MissingCompletion(Seq<char>),
    OperationFailed { operation: Seq<char>, error: i32 },
    UnexpectedCompletion { operation: Seq<char>, result: i32 },
    ShortWrite { expected: int, actual: int },
    NonLinearAppend(Seq<char>),
    FrameTooLarge(int),
}

impl View for IoUringCommitStoreError {
    type V = RingErrorModel;

    open spec fn view(&self) -> RingErrorModel {
        match *self {
            IoUringCommitStoreError::UnsupportedPlatform => RingErrorModel::UnsupportedPlatform,
            IoUringCommitStoreError::Recovery(error) => RingErrorModel::Recovery(error@),
            IoUringCommitStoreError::Io(fault) => RingErrorModel::Io(fault@),
            IoUringCommitStoreError::QueueFull => RingErrorModel::QueueFull,
            IoUringCommitStoreError::MissingCompletion(operation) =>
                RingErrorModel::MissingCompletion(operation@),
            IoUringCommitStoreError::OperationFailed { operation, error } =>
                RingErrorModel::OperationFailed { operation: operation@, error },
            IoUringCommitStoreError::UnexpectedCompletion { operation, result } =>
                RingErrorModel::UnexpectedCompletion { operation: operation@, result },
            IoUringCommitStoreError::ShortWrite { expected, actual } =>
                RingErrorModel::ShortWrite { expected: expected as int, actual: actual as int },
            IoUringCommitStoreError::NonLinearAppend(message) => RingErrorModel::NonLinearAppend(
                message@,
            ),
            IoUringCommitStoreError::FrameTooLarge(length) => RingErrorModel::FrameTooLarge(
                length as int,
            ),
        }
    }
}

/// One completion: the tag of the operation and its result.
#[derive(Clone, Copy, Debug)]
pub struct Completion {
    pub user_data: u64,
    pub result: i32,
}

/// The result of the last completion with a tag.
pub open spec fn completed(completions: Seq<Completion>, tag: u64) -> Option<i32>
    decreases completions.len(),
{
    if completions.len() == 0 {
        None
    } else if completions.last().user_data == tag {
        Some(completions.last().result)
    } else {
        completed(completions.drop_last(), tag)
    }
}

/// What a commit's completions mean for a record of `length` bytes: nothing wrong, or what is,
/// and whether the file is to be cut back.
pub open spec fn commit_fault(completions: Seq<Completion>, length: int) -> Option<
    (RingErrorModel, bool),
> {
    match (completed(completions, WRITE_USER_DATA), completed(completions, FSYNC_USER_DATA)) {
        (None, _) => Some((RingErrorModel::MissingCompletion("write"@), false)),
        (Some(_), None) => Some(
            (RingErrorModel::MissingCompletion("data synchronization"@), false),
        ),
        (Some(write), Some(fsync)) => if write < 0 {
            Some(
                (
                    RingErrorModel::OperationFailed {
                        operation: "write"@,
                        error: errno_of(write),
                    },
                    true,
                ),
            )
        } else if write != length {
            Some(
                (RingErrorModel::ShortWrite { expected: length, actual: write as int }, true),
            )
        } else if fsync < 0 {
            Some(
                (
                    RingErrorModel::OperationFailed {
                        operation: "data synchronization"@,
                        error: errno_of(fsync),
                    },
                    true,
                ),
            )
        } else if fsync != 0 {
            Some(
                (
                    RingErrorModel::UnexpectedCompletion {
                        operation: "data synchronization"@,
                        result: fsync,
                    },
                    true,
                ),
            )
        } else {
            None
        },
    }
}

/// The error number of a negative result.
pub open spec fn errno_of(result: i32) -> i32 {
    if result == i32::MIN {
        i32::MIN
    } else {
        (-result) as i32
    }
}

fn find_completed(completions: &[Completion], tag: u64) -> (result: Option<i32>)
    ensures
        result == completed(completions@, tag),
{
    let mut found: Option<i32> = None;
    let mut index: usize = 0;
    proof {
        assert(completions@.take(0) =~= Seq::empty());
    }
    while index < completions.len()
        invariant
            index <= completions.len(),
            found == completed(completions@.take(index as int), tag),
        decreases completions.len() - index,
    {
        let entry = completions[index];
        proof {
            assert(completions@.take(index + 1).drop_last() =~= completions@.take(index as int));
        }
        if entry.user_data == tag {
            found = Some(entry.result);
        }
        index += 1;
    }
    proof {
        assert(completions@.take(index as int) =~= completions@);
    }
    found
}

/// A refused commit, and whether the file is to be cut back to where the record started.
#[derive(Debug)]
pub struct FailedCommit {
    pub error: IoUringCommitStoreError,
    pub rollback: bool,
}

fn errno(result: i32) -> (error: i32)
    ensures
        error == errno_of(result),
{
    if result == i32::MIN {
        i32::MIN
    } else {
        -result
    }
}

/// Reads the completions of a commit: the record is durable exactly when the write took all of
/// it and the synchronization succeeded.
pub fn judge_commit(completions: &[Completion], length: usize) -> (result: Result<
    (),
    FailedCommit,
>)
    ensures
        match commit_fault(completions@, length as int) {
            None => result is Ok,
            Some((error, rollback)) => result matches Err(failed) && failed.error@ == error
                && failed.rollback == rollback,
        },
{
    let write: i32 = match find_completed(completions, WRITE_USER_DATA) {
        Some(value) => value,
        None => {
            return Err(
                FailedCommit {
                    error: IoUringCommitStoreError::MissingCompletion("write"),
                    rollback: false,
                },
            );
        },
    };
    let fsync: i32 = match find_completed(completions, FSYNC_USER_DATA) {
        Some(value) => value,
        None => {
            return Err(
                FailedCommit {
                    error: IoUringCommitStoreError::MissingCompletion("data synchronization"),
                    rollback: false,
                },
            );
        },
    };
    if write < 0 {
        return Err(
            FailedCommit {
                error: IoUringCommitStoreError::OperationFailed {
                    operation: "write",
                    error: errno(write),
                },
                rollback: true,
            },
        );
    }
    if write as usize != length {
        return Err(
            FailedCommit {
                error: IoUringCommitStoreError::ShortWrite {
                    expected: length,
                    actual: write as usize,
                },
                rollback: true,
            },
        );
    }
    if fsync < 0 {
        return Err(
            FailedCommit {
                error: IoUringCommitStoreError::OperationFailed {
                    operation: "data synchronization",
                    error: errno(fsync),
                },
                rollback: true,
            },
        );
    }
    if fsync != 0 {
        return Err(
            FailedCommit {
                error: IoUringCommitStoreError::UnexpectedCompletion {
                    operation: "data synchronization",
                    result: fsync,
                },
                rollback: true,
            },
        );
    }
    Ok(())
}

/// The length of a record as one submission carries it.
pub fn submission_length(length: usize) -> (result: Result<u32, IoUringCommitStoreError>)
    ensures
        match result {
            Ok(value) => value == length,
            Err(error) => length > u32::MAX && error@ == RingErrorModel::FrameTooLarge(
                length as int,
            ),
        },
{
    if length > u32::MAX as usize {
        Err(IoUringCommitStoreError::FrameTooLarge(length))
    } else {
        Ok(length as u32)
    }
}

/// The record to submit for a frame behind `log`, if the frame may be appended. It has the same
/// bytes as that of a store without a ring.
pub fn prepare_ring_record(log: &CommitLog, frame: &CommitFrame) -> (result: Result<
    Vec<u8>,
    IoUringCommitStoreError,
>)
    ensures
        match append_fault(tail_of(log@.history), frame@) {
            Some(reason) => result matches Err(error) && error@ == RingErrorModel::NonLinearAppend(
                reason,
            ),
            None => if payload_bytes(frame@).len() > MAX_FRAME_BYTES {
                result matches Err(error) && error@ == RingErrorModel::FrameTooLarge(
                    payload_bytes(frame@).len() as int,
                )
            } else {
                result matches Ok(record) && record@ == record_bytes(frame@)
            },
        },
{
    let frames = log.frames();
    let (world, version) = history_tail(frames.as_slice());
    match find_append_fault(world, version, frame) {
        Some(reason) => {
            return Err(IoUringCommitStoreError::NonLinearAppend(reason));
        },
        None => {},
    }
    let payload = encode_payload(frame);
    if payload.len() as u64 > MAX_FRAME_BYTES {
        return Err(IoUringCommitStoreError::FrameTooLarge(payload.len()));
    }
    Ok(frame_payload(payload.as_slice()))
}

/// How an epoch's records are handed to a ring.
#[derive(Clone, Copy, Debug, PartialEq, Eq, Hash, Structural)]
pub enum IoUringEpochStrategy {
    ContiguousWrite,
    VectoredWrite,
    PipelinedWrites,
}

impl IoUringEpochStrategy {
    pub fn as_str(self) -> (result: &'static str)
        ensures
            result@ == match self {
                IoUringEpochStrategy::ContiguousWrite => "contiguous_write"@,
                IoUringEpochStrategy::VectoredWrite => "writev"@,
                IoUringEpochStrategy::PipelinedWrites => "pipelined_writes"@,
            },
    {
        match self {
            IoUringEpochStrategy::ContiguousWrite => "contiguous_write",
            IoUringEpochStrategy::VectoredWrite => "writev",
            IoUringEpochStrategy::PipelinedWrites => "pipelined_writes",
        }
    }
}

fn invalid_input(message: String) -> (result: IoFault)
    ensures
        result@ == (IoFaultModel { code: None, message: message@ }),
{
    IoFault { code: None, message }
}

/// A ring for epochs needs room for a write and a synchronization.
pub fn check_ring_entries(ring_entries: u32) -> (result: Result<(), FileEpochStoreError>)
    ensures
        match result {
            Ok(()) => ring_entries >= 2,
            Err(error) => ring_entries < 2 && error@ == (EpochErrorModel::Io {
                phase: EpochIoPhase::VerifyRead,
                source: IoFaultModel {
                    code: None,
                    message: "io_uring epoch transport requires at least two ring entries"@,
                },
            }),
        },
{
    if ring_entries < 2 {
        return Err(
            FileEpochStoreError::Io {
                phase: EpochIoPhase::VerifyRead,
                source: invalid_input(
                    "io_uring epoch transport requires at least two ring entries".to_owned(),
                ),
            },
        );
    }
    Ok(())
}

/// An epoch must fit into the ring at once.
pub fn check_submission(entries: usize, ring_entries: u32) -> (result: Result<
    (),
    (EpochIoPhase, IoFault),
>)
    ensures
        match result {
            Ok(()) => entries <= ring_entries,
            Err((phase, fault)) => entries > ring_entries && phase == EpochIoPhase::EpochWrite
                && fault@ == (IoFaultModel {
                code: None,
                message: two_numbers(
                    "io_uring epoch requires "@,
                    entries as nat,
                    " SQEs but ring has "@,
                    ring_entries as nat,
                ) + " entries"@,
            }),
        },
{
    if entries > ring_entries as usize {
        let mut message = describe_numbers(
            "io_uring epoch requires ",
            entries as u64,
            " SQEs but ring has ",
            ring_entries as u64,
        );
        message.append(" entries");
        return Err((EpochIoPhase::EpochWrite, invalid_input(message)));
    }
    Ok(())
}

/// Copies the records of an epoch into one buffer for one write, if one write can carry it.
pub fn plan_contiguous(records: &[Vec<u8>], metrics: &mut EpochPersistMetrics) -> (result: Result<
    (Vec<u8>, u32),
    (EpochIoPhase, IoFault),
>)
    ensures
        match result {
            Ok((arena, length)) => arena@ == concatenated(records@) && length == arena@.len()
                && *final(metrics) == (EpochPersistMetrics {
                data_writes: 1,
                data_syncs: 1,
                bytes_written: length as u64,
                maximum_in_flight_writes: 1,
                arena_bytes_copied: length as u64,
                ..*old(metrics)
            }),
            Err((phase, fault)) => concatenated(records@).len() > u32::MAX && phase
                == EpochIoPhase::EpochWrite && fault@ == (IoFaultModel {
                code: None,
                message: "contiguous epoch exceeds one io_uring write length"@,
            }) && *final(metrics) == *old(metrics),
        },
{
    let mut arena: Vec<u8> = Vec::new();
    let mut index: usize = 0;
    proof {
        assert(records@.take(0) =~= Seq::empty());
    }
    while index < records.len()
        invariant
            index <= records.len(),
            arena@ == concatenated(records@.take(index as int)),
            *metrics == *old(metrics),
        decreases records.len() - index,
    {
        put_bytes(&mut arena, records[index].as_slice());
        proof {
            assert(records@.take(index + 1).drop_last() =~= records@.take(index as int));
        }
        index += 1;
    }
    proof {
        assert(records@.take(index as int) =~= records@);
    }
    if arena.len() > u32::MAX as usize {
        return Err(
            (
                EpochIoPhase::EpochWrite,
                invalid_input("contiguous epoch exceeds one io_uring write length".to_owned()),
            ),
        );
    }
    let length: u32 = arena.len() as u32;
    metrics.data_writes = 1;
    metrics.data_syncs = 1;
    metrics.bytes_written = length as u64;
    metrics.maximum_in_flight_writes = 1;
    metrics.arena_bytes_copied = length as u64;
    Ok((arena, length))
}

/// How many buffers one vectored write takes, as the system says; or a common number where it does
/// not say.
pub open spec fn vector_limit(reported: i64) -> int {
    if reported > 0 {
        reported as int
    } else {
        1024
    }
}

/// Checks that one vectored write can carry an epoch, and counts it. Returns how many buffers it
/// has and how many bytes.
pub fn plan_vectored(records: &[Vec<u8>], reported: i64, metrics: &mut EpochPersistMetrics) -> (
    result: Result<(u32, usize), (EpochIoPhase, IoFault)>)
    requires
        concatenated(records@).len() <= usize::MAX,
    ensures
        match result {
            Ok((count, total)) => {
                &&& records@.len() <= vector_limit(reported)
                &&& count == records@.len()
                &&& total == concatenated(records@).len()
                &&& *final(metrics) == (EpochPersistMetrics {
                    data_writes: 1,
                    data_syncs: 1,
                    bytes_written: total as u64,
                    maximum_in_flight_writes: 1,
                    iovecs_submitted: count as u64,
                    ..*old(metrics)
                })
            },
            Err((phase, fault)) => {
                &&& phase == EpochIoPhase::EpochWrite
                &&& *final(metrics) == *old(metrics)
                &&& fault@.code is None
                &&& if records@.len() > vector_limit(reported) {
                    fault@.message == "WRITEV epoch has "@ + decimal(records@.len())
                        + " records, exceeding IOV_MAX "@ + decimal(vector_limit(reported) as nat)
                } else {
                    records@.len() > u32::MAX && fault@.message
                        == "WRITEV iovec count exceeds u32"@
                }
            },
        },
{
    let maximum: u64 = if reported > 0 {
        reported as u64
    } else {
        1024
    };
    if records.len() as u64 > maximum {
        let mut message = labelled("WRITEV epoch has ", records.len() as u64);
        message.append(" records, exceeding IOV_MAX ");
        push_decimal(&mut message, maximum);
        return Err((EpochIoPhase::EpochWrite, invalid_input(message)));
    }
    if records.len() as u64 > u32::MAX as u64 {
        return Err(
            (
                EpochIoPhase::EpochWrite,
                invalid_input("WRITEV iovec count exceeds u32".to_owned()),
            ),
        );
    }
    let mut total: usize = 0;
    let mut index: usize = 0;
    proof {
        assert(records@.take(0) =~= Seq::empty());
    }
    while index < records.len()
        invariant
            index <= records.len(),
            concatenated(records@).len() <= usize::MAX,
            total == concatenated(records@.take(index as int)).len(),
            *metrics == *old(metrics),
        decreases records.len() - index,
    {
        proof {
            assert(records@.take(index + 1).drop_last() =~= records@.take(index as int));
            concatenated_grows(records@, index + 1);
        }
        total = total + records[index].len();
        index += 1;
    }
    proof {
        assert(records@.take(index as int) =~= records@);
    }
    metrics.data_writes = 1;
    metrics.data_syncs = 1;
    metrics.bytes_written = total as u64;
    metrics.maximum_in_flight_writes = 1;
    metrics.iovecs_submitted = records.len() as u64;
    Ok((records.len() as u32, total))
}

proof fn concatenated_grows(records: Seq<Vec<u8>>, count: int)
    requires
        0 <= count <= records.len(),
    ensures
        concatenated(records.take(count)).len() <= concatenated(records).len(),
    decreases records.len(),
{
    if count == records.len() {
        assert(records.take(count) =~= records);
    } else {
        assert(records.drop_last().take(count) =~= records.take(count));
        concatenated_grows(records.drop_last(), count);
    }
}

} // verus!
