//! A commit log that takes whole epochs: all records become durable together, or the file is
//! cut back to what it was and checked, or the store is closed for good.

use crate::database::CommitStore;
use crate::digest::{FNV_OFFSET, digest, digest_extend, fnv, fnv_from, fnv_from_concat};
use crate::epoch_io::{
    DeviceFault, DeviceLog, EpochFileIo, EpochIoPhase, FileEpochMetrics, FileEpochState,
    FileEpochSyncPolicy, concatenated, counted, counted_twice, no_metrics, phase_text,
};
use crate::errors::{
    FileCommitStoreError, FileErrorModel, IoFault, IoFaultModel, candidate_error_text,
    describe_numbers, file_error_text, two_numbers,
};
use crate::fact::{OperationModel, views, views_concat};
use crate::frame::{
    CommitFrame, FrameModel, WorldId, operation_bytes, operations_bytes, payload_bytes, share_all,
    world_text,
};
use crate::log_format::{
    MAX_FRAME_BYTES, Wording, append_fault, encode_record, find_append_fault, frame_magic,
    header_bytes, history_tail, inspect_file, linked, log_bytes, optional_text, oversize_text,
    read_log, record_bytes, records_bytes, tail_of,
};
use crate::log_laws::{
    all_storable, complete_log_reads_back, framed_length, header_stands, log_bytes_injective,
    read_log_is_canonical,
};
use crate::plan::finish_epoch;
use crate::rows::encode_records;
use crate::text::{decimal, joined, labelled, push_decimal};
use crate::wire::{concat_assoc, put_bytes, whole_stands};
use crate::world::{World, reconstructed, total_operations};
use std::sync::Arc;
use vstd::prelude::*;
use vstd::string::*;

verus! {

/// Why an epoch store refused or failed.
#[derive(Debug)]
pub enum FileEpochStoreError {
    File(FileCommitStoreError),
    Io { phase: EpochIoPhase, source: IoFault },
    EpochRepaired { phase: EpochIoPhase, source: IoFault },
    RepairFailed {
        primary_phase: EpochIoPhase,
        primary: String,
        repair_phase: EpochIoPhase,
        repair: String,
    },
    Verification(String),
    StorePoisoned(String),
}

/// Mathematical value of a [`FileEpochStoreError`].
pub enum EpochErrorModel {
    File(FileErrorModel),
    Io { phase: EpochIoPhase, source: IoFaultModel },
    EpochRepaired { phase: EpochIoPhase, source: IoFaultModel },
    RepairFailed {
        primary_phase: EpochIoPhase,
        primary: Seq<char>,
        repair_phase: EpochIoPhase,
        repair: Seq<char>,
    },
    Verification(Seq<char>),
    StorePoisoned(Seq<char>),
}

impl View for FileEpochStoreError {
    type V = EpochErrorModel;

    open spec fn view(&self) -> EpochErrorModel {
        match *self {
            FileEpochStoreError::File(error) => EpochErrorModel::File(error@),
            FileEpochStoreError::Io { phase, source } => EpochErrorModel::Io {
                phase,
                source: source@,
            },
            FileEpochStoreError::EpochRepaired { phase, source } => EpochErrorModel::EpochRepaired {
                phase,
                source: source@,
            },
            FileEpochStoreError::RepairFailed { primary_phase, primary, repair_phase, repair } =>
                EpochErrorModel::RepairFailed {
                primary_phase,
                primary: primary@,
                repair_phase,
                repair: repair@,
            },
            FileEpochStoreError::Verification(message) => EpochErrorModel::Verification(message@),
            FileEpochStoreError::StorePoisoned(reason) => EpochErrorModel::StorePoisoned(reason@),
        }
    }
}

/// The message of an epoch store error.
pub open spec fn epoch_error_text(error: EpochErrorModel) -> Seq<char> {
    match error {
        EpochErrorModel::File(error) => "file epoch format failed: "@ + file_error_text(error),
        EpochErrorModel::Io { phase, source } => "file epoch I/O failed during "@ + phase_text(
            phase,
        ) + ": "@ + source.message,
        EpochErrorModel::EpochRepaired { phase, source } => "file epoch failed during "@
            + phase_text(phase) + " and was rolled back: "@ + source.message,
        EpochErrorModel::RepairFailed { primary_phase, primary, repair_phase, repair } =>
            "file epoch failed during "@ + phase_text(primary_phase) + " ("@ + primary
            + "); repair failed during "@ + phase_text(repair_phase) + " ("@ + repair + ")"@,
        EpochErrorModel::Verification(message) => "file epoch verification failed: "@ + message,
        EpochErrorModel::StorePoisoned(reason) => "file epoch store is poisoned: "@ + reason,
    }
}

impl FileEpochStoreError {
    pub fn describe(&self) -> (result: String)
        ensures
            result@ == epoch_error_text(self@),
    {
        match self {
            FileEpochStoreError::File(error) => joined(
                "file epoch format failed: ",
                error.describe().as_str(),
            ),
            FileEpochStoreError::Io { phase, source } => {
                let mut out = joined("file epoch I/O failed during ", phase.name());
                out.append(": ");
                out.append(source.message.as_str());
                out
            },
            FileEpochStoreError::EpochRepaired { phase, source } => {
                let mut out = joined("file epoch failed during ", phase.name());
                out.append(" and was rolled back: ");
                out.append(source.message.as_str());
                out
            },
            FileEpochStoreError::RepairFailed { primary_phase, primary, repair_phase, repair } => {
                let mut out = joined("file epoch failed during ", primary_phase.name());
                out.append(" (");
                out.append(primary.as_str());
                out.append("); repair failed during ");
                out.append(repair_phase.name());
                out.append(" (");
                out.append(repair.as_str());
                out.append(")");
                out
            },
            FileEpochStoreError::Verification(message) => joined(
                "file epoch verification failed: ",
                message.as_str(),
            ),
            FileEpochStoreError::StorePoisoned(reason) => joined(
                "file epoch store is poisoned: ",
                reason.as_str(),
            ),
        }
    }
}

/// What the file was when an epoch started.
#[derive(Clone, Copy, Debug)]
pub struct EpochCheckpoint {
    pub start_offset: u64,
    pub frame_count: usize,
    pub world_id: WorldId,
    pub world_version: u64,
    pub prefix_digest: u64,
}

/// Why bytes read back after a repair are not those of the checkpoint.
pub open spec fn repaired_fault(checkpoint: EpochCheckpoint, bytes: Seq<u8>) -> Option<Seq<char>> {
    if fnv(bytes) != checkpoint.prefix_digest {
        Some("repaired prefix digest does not match checkpoint"@)
    } else {
        match read_log(bytes, Wording::Inspect) {
            Err(error) => Some("file epoch format failed: "@ + file_error_text(error)),
            Ok((frames, end)) => if end != bytes.len() {
                Some("repaired file still contains an incomplete tail"@)
            } else if frames.len() != checkpoint.frame_count {
                Some(
                    two_numbers(
                        "expected "@,
                        checkpoint.frame_count as nat,
                        " repaired frames, found "@,
                        frames.len(),
                    ),
                )
            } else if tail_of(frames) != (checkpoint.world_id, checkpoint.world_version) {
                Some(
                    "expected repaired tail "@ + world_text(checkpoint.world_id) + " v"@ + decimal(
                        checkpoint.world_version as nat,
                    ) + ", found "@ + world_text(tail_of(frames).0) + " v"@ + decimal(
                        tail_of(frames).1 as nat,
                    ),
                )
            } else {
                match reconstructed(frames) {
                    Err(error) => Some(candidate_error_text(error)),
                    Ok(_) => None,
                }
            },
        }
    }
}

/// What is said of a repaired file of the wrong length.
pub open spec fn length_text(checkpoint: EpochCheckpoint, length: u64) -> Seq<char> {
    two_numbers(
        "expected repaired length "@,
        checkpoint.start_offset as nat,
        ", found "@,
        length as nat,
    )
}

/// The operations of a repair.
pub open spec fn repairs_in(phase: EpochIoPhase) -> bool {
    phase == EpochIoPhase::RepairTruncate || phase == EpochIoPhase::RepairSync || phase
        == EpochIoPhase::VerifyLength || phase == EpochIoPhase::VerifyRead
}

/// What a repair comes to, by what the device replied: the first call that failed ends it; then
/// the length and then the bytes must be those of the checkpoint.
pub open spec fn repair_verdict(
    checkpoint: EpochCheckpoint,
    before: Seq<DeviceFault>,
    log: DeviceLog,
) -> Result<(), (EpochIoPhase, Seq<char>)> {
    if log.faults.len() > before.len() {
        let (phase, source) = told_fault(log.faults.last());
        Err((phase, source.message))
    } else if log.length != checkpoint.start_offset {
        Err((EpochIoPhase::VerifyLength, length_text(checkpoint, log.length)))
    } else {
        match repaired_fault(checkpoint, log.bytes) {
            Some(text) => Err((EpochIoPhase::VerifyRead, text)),
            None => Ok(()),
        }
    }
}

/// No call failed, or one call of a repair.
pub open spec fn repair_faults(before: Seq<DeviceFault>, after: Seq<DeviceFault>) -> bool {
    ||| after == before
    ||| after.len() == before.len() + 1 && after.drop_last() == before && (after.last() matches
        DeviceFault::Failed(phase, _) && repairs_in(phase))
}

/// A result of a repair, with its text as characters.
pub open spec fn repair_model(result: Result<(), (EpochIoPhase, String)>) -> Result<
    (),
    (EpochIoPhase, Seq<char>),
> {
    match result {
        Ok(()) => Ok(()),
        Err((phase, text)) => Err((phase, text@)),
    }
}

/// Every operation takes at least a byte.
pub proof fn operations_take_bytes(operations: Seq<OperationModel>)
    ensures
        operations.len() <= operations_bytes(operations).len(),
    decreases operations.len(),
{
    if operations.len() > 0 {
        operations_take_bytes(operations.drop_last());
        assert(operation_bytes(operations.last()).len() >= 1);
    }
}

/// A stored history has fewer operations than its file has bytes.
pub proof fn records_take_bytes(frames: Seq<FrameModel>)
    ensures
        total_operations(frames) <= records_bytes(frames).len(),
        frames.len() * 24 <= records_bytes(frames).len(),
    decreases frames.len(),
{
    if frames.len() > 0 {
        records_take_bytes(frames.drop_last());
        framed_length(frame_magic(), payload_bytes(frames.last()));
        operations_take_bytes(frames.last().operations);
    }
}

/// The operations of a history that was read can be counted.
pub proof fn read_history_is_countable(bytes: Seq<u8>, wording: Wording)
    requires
        bytes.len() <= usize::MAX,
    ensures
        read_log(bytes, wording) matches Ok((frames, _)) ==> total_operations(frames)
            < usize::MAX,
{
    read_log_is_canonical(bytes, wording);
    if let Ok((frames, end)) = read_log(bytes, wording) {
        records_take_bytes(frames);
        header_stands(records_bytes(frames), wording);
        assert(bytes.take(end).len() == end);
    }
}

/// Compares bytes read back after a repair with the checkpoint.
pub fn check_repaired(checkpoint: EpochCheckpoint, bytes: &[u8]) -> (result: Option<String>)
    ensures
        optional_text(result) == repaired_fault(checkpoint, bytes@),
{
    if digest(bytes) != checkpoint.prefix_digest {
        return Some("repaired prefix digest does not match checkpoint".to_owned());
    }
    match inspect_file(bytes) {
        Err(error) => Some(joined("file epoch format failed: ", error.describe().as_str())),
        Ok((frames, end)) => {
            if end != bytes.len() {
                return Some("repaired file still contains an incomplete tail".to_owned());
            }
            if frames.len() != checkpoint.frame_count {
                return Some(
                    describe_numbers(
                        "expected ",
                        checkpoint.frame_count as u64,
                        " repaired frames, found ",
                        frames.len() as u64,
                    ),
                );
            }
            let (world, version) = history_tail(frames.as_slice());
            if world.0 != checkpoint.world_id.0 || version != checkpoint.world_version {
                let mut out = joined(
                    "expected repaired tail ",
                    checkpoint.world_id.describe().as_str(),
                );
                out.append(" v");
                push_decimal(&mut out, checkpoint.world_version);
                out.append(", found ");
                out.append(world.describe().as_str());
                out.append(" v");
                push_decimal(&mut out, version);
                return Some(out);
            }
            proof {
                read_history_is_countable(bytes@, Wording::Inspect);
            }
            match World::reconstruct(frames.as_slice()) {
                Ok(_) => None,
                Err(error) => Some(error.describe()),
            }
        },
    }
}

/// Where a list of frames leads from `tail`.
pub open spec fn tail_after(tail: (WorldId, u64), frames: Seq<FrameModel>) -> (WorldId, u64) {
    if frames.len() == 0 {
        tail
    } else {
        (frames.last().resulting_world, frames.last().resulting_version)
    }
}

/// The first frame that does not continue what is in front of it.
pub open spec fn epoch_fault(tail: (WorldId, u64), frames: Seq<FrameModel>) -> Option<Seq<char>>
    decreases frames.len(),
{
    if frames.len() == 0 {
        None
    } else {
        match epoch_fault(tail, frames.drop_last()) {
            Some(reason) => Some(reason),
            None => append_fault(tail_after(tail, frames.drop_last()), frames.last()),
        }
    }
}

/// The first frame that is too long to be stored.
pub open spec fn oversize_fault(frames: Seq<FrameModel>) -> Option<Seq<char>>
    decreases frames.len(),
{
    if frames.len() == 0 {
        None
    } else {
        match oversize_fault(frames.drop_last()) {
            Some(reason) => Some(reason),
            None => if payload_bytes(frames.last()).len() > MAX_FRAME_BYTES {
                Some(oversize_text(payload_bytes(frames.last()).len()))
            } else {
                None
            },
        }
    }
}

proof fn epoch_fault_stays(tail: (WorldId, u64), frames: Seq<FrameModel>, count: int)
    requires
        0 <= count <= frames.len(),
        epoch_fault(tail, frames.take(count)) is Some,
    ensures
        epoch_fault(tail, frames) == epoch_fault(tail, frames.take(count)),
    decreases frames.len(),
{
    if count == frames.len() {
        assert(frames.take(count) =~= frames);
    } else {
        assert(frames.drop_last().take(count) =~= frames.take(count));
        epoch_fault_stays(tail, frames.drop_last(), count);
    }
}

proof fn oversize_fault_stays(frames: Seq<FrameModel>, count: int)
    requires
        0 <= count <= frames.len(),
        oversize_fault(frames.take(count)) is Some,
    ensures
        oversize_fault(frames) == oversize_fault(frames.take(count)),
    decreases frames.len(),
{
    if count == frames.len() {
        assert(frames.take(count) =~= frames);
    } else {
        assert(frames.drop_last().take(count) =~= frames.take(count));
        oversize_fault_stays(frames.drop_last(), count);
    }
}

/// Frames that continue a linear history keep it linear.
pub proof fn linked_concat(history: Seq<FrameModel>, frames: Seq<FrameModel>)
    requires
        linked(history),
        epoch_fault(tail_of(history), frames) is None,
    ensures
        linked(history + frames),
        tail_of(history + frames) == tail_after(tail_of(history), frames),
    decreases frames.len(),
{
    if frames.len() == 0 {
        assert(history + frames =~= history);
    } else {
        linked_concat(history, frames.drop_last());
        assert((history + frames).drop_last() =~= history + frames.drop_last());
        assert((history + frames).last() == frames.last());
    }
}

pub proof fn records_concat(left: Seq<FrameModel>, right: Seq<FrameModel>)
    ensures
        records_bytes(left + right) == records_bytes(left) + records_bytes(right),
    decreases right.len(),
{
    if right.len() == 0 {
        assert(left + right =~= left);
        assert(records_bytes(left) + records_bytes(right) =~= records_bytes(left));
    } else {
        records_concat(left, right.drop_last());
        assert((left + right).drop_last() =~= left + right.drop_last());
        concat_assoc(
            records_bytes(left),
            records_bytes(right.drop_last()),
            record_bytes(right.last()),
        );
    }
}

/// Mathematical value of a [`FileEpochStore`], apart from its device.
pub struct EpochStoreModel {
    pub history: Seq<FrameModel>,
    pub policy: FileEpochSyncPolicy,
    pub state: FileEpochState,
    pub poison_reason: Option<Seq<char>>,
    pub recovered_tail_bytes: u64,
    pub metrics: FileEpochMetrics,
}

/// A commit log on a device.
pub struct FileEpochStore<I: EpochFileIo> {
    io: I,
    frames: Vec<Arc<CommitFrame>>,
    policy: FileEpochSyncPolicy,
    state: FileEpochState,
    poison_reason: Option<String>,
    prefix_digest: u64,
    recovered_tail_bytes: u64,
    metrics: FileEpochMetrics,
}

impl<I: EpochFileIo> View for FileEpochStore<I> {
    type V = EpochStoreModel;

    closed spec fn view(&self) -> EpochStoreModel {
        EpochStoreModel {
            history: views(self.frames@),
            policy: self.policy,
            state: self.state,
            poison_reason: optional_text(self.poison_reason),
            recovered_tail_bytes: self.recovered_tail_bytes,
            metrics: self.metrics,
        }
    }
}

/// What is said of a store that may not be used.
pub open spec fn unusable_text(store: EpochStoreModel) -> Option<Seq<char>> {
    match store.state {
        FileEpochState::Healthy => None,
        FileEpochState::Repairing => Some("store is still repairing"@),
        FileEpochState::Poisoned => Some(
            match store.poison_reason {
                Some(reason) => reason,
                None => "repair could not be verified"@,
            },
        ),
    }
}

/// Why an epoch is refused before anything is written.
pub open spec fn epoch_refusal(store: EpochStoreModel, frames: Seq<FrameModel>) -> Option<
    EpochErrorModel,
> {
    match unusable_text(store) {
        Some(reason) => Some(EpochErrorModel::StorePoisoned(reason)),
        None => match epoch_fault(tail_of(store.history), frames) {
            Some(reason) => Some(EpochErrorModel::File(FileErrorModel::NonLinearAppend(reason))),
            None => match oversize_fault(frames) {
                Some(reason) => Some(
                    EpochErrorModel::File(FileErrorModel::NonLinearAppend(reason)),
                ),
                None => None,
            },
        },
    }
}

/// What a failed repair is remembered as.
pub open spec fn poison_text(
    primary_phase: EpochIoPhase,
    primary: Seq<char>,
    repair_phase: EpochIoPhase,
    repair: Seq<char>,
) -> Seq<char> {
    "primary "@ + phase_text(primary_phase) + ": "@ + primary + "; repair "@ + phase_text(
        repair_phase,
    ) + ": "@ + repair
}

/// How many synchronizations the records of an epoch take.
pub open spec fn epoch_syncs(policy: FileEpochSyncPolicy, frames: nat) -> nat {
    match policy {
        FileEpochSyncPolicy::PerFrame => frames,
        FileEpochSyncPolicy::PerEpoch => 1,
    }
}

/// A device after some calls: still the same kind of device.
pub open spec fn same_device<I: EpochFileIo>(before: I, after: I) -> bool {
    &&& after.reliable() == before.reliable()
    &&& after.unfailing() == before.unfailing()
    &&& after.transports() == before.transports()
    &&& after.logs() == before.logs()
}

/// What is said of a call that a device did not do.
pub open spec fn told_fault(fault: DeviceFault) -> (EpochIoPhase, IoFaultModel) {
    match fault {
        DeviceFault::Failed(phase, source) => (phase, source),
        DeviceFault::Stalled(phase) => (
            phase,
            IoFaultModel { code: None, message: "epoch write made no progress"@ },
        ),
    }
}

/// A result tells whether a device failed, and how.
pub open spec fn log_tells(
    before: Seq<DeviceFault>,
    after: Seq<DeviceFault>,
    result: Result<(), (EpochIoPhase, IoFault)>,
) -> bool {
    match result {
        Ok(()) => after == before,
        Err((phase, source)) => after.len() == before.len() + 1 && after.drop_last() == before
            && told_fault(after.last()) == (phase, source@),
    }
}

/// The first bytes of the file are still there.
pub open spec fn keeps<I: EpochFileIo>(io: I, prefix: Seq<u8>) -> bool {
    io.contents().len() >= prefix.len() && io.contents().take(prefix.len() as int) == prefix
}

/// The counters after a number of writes and synchronizations.
pub open spec fn written_metrics(
    before: FileEpochMetrics,
    after: FileEpochMetrics,
    bytes: nat,
    syncs: nat,
) -> bool {
    &&& after.bytes_written == counted(before.bytes_written, bytes)
    &&& after.data_syncs == counted(before.data_syncs, syncs)
    &&& after == (FileEpochMetrics {
        bytes_written: after.bytes_written,
        data_syncs: after.data_syncs,
        data_writes: after.data_writes,
        ..before
    })
}

/// The writes of a device are counted.
pub open spec fn writes_counted(
    before: DeviceLog,
    after: DeviceLog,
    start: u64,
    end: u64,
) -> bool {
    &&& after.writes >= before.writes
    &&& end == counted(start, (after.writes - before.writes) as nat)
}

fn write_all_at<I: EpochFileIo>(
    io: &mut I,
    metrics: &mut FileEpochMetrics,
    offset: u64,
    bytes: &[u8],
) -> (result: Result<(), (EpochIoPhase, IoFault)>)
    ensures
        same_device(*old(io), *final(io)),
        result is Ok ==> written_metrics(*old(metrics), *final(metrics), bytes@.len(), 0),
        final(metrics).data_syncs == old(metrics).data_syncs,
        *final(metrics) == (FileEpochMetrics {
            bytes_written: final(metrics).bytes_written,
            data_writes: final(metrics).data_writes,
            ..*old(metrics)
        }),
        old(io).reliable() && offset == old(io).contents().len() && offset + bytes@.len()
            <= u64::MAX ==> match result {
            Ok(()) => final(io).contents() == old(io).contents() + bytes@,
            Err(_) => keeps(*final(io), old(io).contents()) && !old(io).unfailing(),
        },
        old(io).logs() ==> log_tells(old(io).log().faults, final(io).log().faults, result),
        old(io).logs() ==> writes_counted(
            old(io).log(),
            final(io).log(),
            old(metrics).data_writes,
            final(metrics).data_writes,
        ) && final(io).log().refused == old(io).log().refused,
        final(io).synced() == old(io).synced(),
{
    let mut at: u64 = offset;
    let mut done: usize = 0;
    proof {
        counted_twice(metrics.data_writes, 0, 0);
        counted_twice(metrics.bytes_written, 0, 0);
        counted_twice(metrics.data_syncs, 0, 0);
        assert(bytes@.take(0) =~= Seq::empty());
        assert(io.contents() + bytes@.take(0) =~= io.contents());
    }
    while done < bytes.len()
        invariant
            done <= bytes.len(),
            same_device(*old(io), *io),
            old(io).logs() ==> io.log().faults == old(io).log().faults && writes_counted(
                old(io).log(),
                io.log(),
                old(metrics).data_writes,
                metrics.data_writes,
            ) && io.log().refused == old(io).log().refused,
            io.synced() == old(io).synced(),
            metrics.bytes_written == counted(old(metrics).bytes_written, done as nat),
            *metrics == (FileEpochMetrics {
                bytes_written: metrics.bytes_written,
                data_writes: metrics.data_writes,
                ..*old(metrics)
            }),
            old(io).reliable() && offset == old(io).contents().len() && offset + bytes@.len()
                <= u64::MAX ==> at == offset + done && io.contents() == old(io).contents()
                + bytes@.take(done as int),
        decreases bytes.len() - done,
    {
        proof {
            counted_twice(
                old(metrics).data_writes,
                (io.log().writes - old(io).log().writes) as nat,
                1,
            );
            counted_twice(metrics.data_writes, 0, 1);
        }
        metrics.data_writes = metrics.data_writes.wrapping_add(1);
        let rest = vstd::slice::slice_subrange(bytes, done, bytes.len());
        let ghost before = io.contents();
        let ghost faults = io.log().faults;
        proof {
            assert forall|fault: DeviceFault| (#[trigger] faults.push(fault)).drop_last()
                == faults by {
                assert(faults.push(fault).drop_last() =~= faults);
            }
        }
        match io.write_at(EpochIoPhase::EpochWrite, at, rest) {
            Ok(written) => {
                if written == 0 {
                    proof {
                        if old(io).reliable() && offset == old(io).contents().len() && offset
                            + bytes@.len() <= u64::MAX {
                            assert(rest@.take(0) =~= Seq::empty());
                            assert(io.contents() =~= before);
                            assert(before.take(old(io).contents().len() as int) =~= old(
                                io,
                            ).contents());
                        }
                    }
                    return Err(
                        (
                            EpochIoPhase::EpochWrite,
                            IoFault {
                                code: None,
                                message: "epoch write made no progress".to_owned(),
                            },
                        ),
                    );
                }
                proof {
                    counted_twice(old(metrics).bytes_written, done as nat, written as nat);
                    counted_twice(metrics.bytes_written, 0, written as nat);
                    assert(bytes@.take(done as int) + rest@.take(written as int) =~= bytes@.take(
                        done + written,
                    ));
                    concat_assoc(
                        old(io).contents(),
                        bytes@.take(done as int),
                        rest@.take(written as int),
                    );
                }
                metrics.bytes_written = metrics.bytes_written.wrapping_add(written as u64);
                at = at.wrapping_add(written as u64);
                done = done + written;
            },
            Err(source) => {
                proof {
                    if old(io).reliable() && offset == old(io).contents().len() && offset
                        + bytes@.len() <= u64::MAX {
                        assert(io.contents().take(old(io).contents().len() as int) =~= old(
                            io,
                        ).contents()) by {
                            assert(before.take(old(io).contents().len() as int) =~= old(
                                io,
                            ).contents());
                            assert(io.contents().take(before.len() as int) == before);
                            assert(io.contents().take(before.len() as int).take(
                                old(io).contents().len() as int,
                            ) =~= io.contents().take(old(io).contents().len() as int));
                        }
                    }
                }
                return Err((EpochIoPhase::EpochWrite, source));
            },
        }
    }
    proof {
        assert(bytes@.take(done as int) =~= bytes@);
    }
    Ok(())
}

fn sync_epoch<I: EpochFileIo>(io: &mut I, metrics: &mut FileEpochMetrics) -> (result: Result<
    (),
    (EpochIoPhase, IoFault),
>)
    ensures
        same_device(*old(io), *final(io)),
        final(io).contents() == old(io).contents(),
        *final(metrics) == (FileEpochMetrics {
            data_syncs: old(metrics).data_syncs.wrapping_add(1),
            ..*old(metrics)
        }),
        result is Err ==> !old(io).unfailing(),
        result is Ok ==> final(io).synced() == final(io).contents(),
        old(io).logs() ==> log_tells(old(io).log().faults, final(io).log().faults, result)
            && final(io).log().writes == old(io).log().writes && final(io).log().refused == old(
            io,
        ).log().refused,
{
    let ghost faults = io.log().faults;
    proof {
        assert forall|fault: DeviceFault| (#[trigger] faults.push(fault)).drop_last()
            == faults by {
            assert(faults.push(fault).drop_last() =~= faults);
        }
    }
    metrics.data_syncs = metrics.data_syncs.wrapping_add(1);
    match io.sync_data(EpochIoPhase::EpochSync) {
        Ok(()) => Ok(()),
        Err(source) => Err((EpochIoPhase::EpochSync, source)),
    }
}

proof fn concatenated_grows(records: Seq<Vec<u8>>, count: int)
    requires
        0 <= count < records.len(),
    ensures
        concatenated(records.take(count + 1)) == concatenated(records.take(count))
            + records[count]@,
        concatenated(records.take(count + 1)).len() <= concatenated(records).len(),
    decreases records.len(),
{
    assert(records.take(count + 1).drop_last() =~= records.take(count));
    if count + 1 == records.len() {
        assert(records.take(count + 1) =~= records);
    } else {
        assert(records.drop_last().take(count + 1) =~= records.take(count + 1));
        concatenated_grows(records.drop_last(), count);
    }
}

/// Only the counters of writes differ.
spec fn only_writes_counted(before: FileEpochMetrics, after: FileEpochMetrics) -> bool {
    after == (FileEpochMetrics {
        bytes_written: after.bytes_written,
        data_syncs: after.data_syncs,
        data_writes: after.data_writes,
        ..before
    })
}

/// Only what a transport or plain writes count differs.
spec fn only_writing_counted(before: FileEpochMetrics, after: FileEpochMetrics) -> bool {
    &&& after.epoch_attempts == before.epoch_attempts
    &&& after.epochs_committed == before.epochs_committed
    &&& after.frames_committed == before.frames_committed
    &&& after.repairs_succeeded == before.repairs_succeeded
    &&& after.repairs_failed == before.repairs_failed
}

/// What writing an epoch's records leaves behind.
spec fn epoch_written<I: EpochFileIo>(
    before: I,
    after: I,
    start: u64,
    data: Seq<u8>,
    succeeded: bool,
) -> bool {
    &&& same_device(before, after)
    &&& before.reliable() && start == before.contents().len() && start + data.len() <= u64::MAX
        ==> if succeeded {
        after.contents() == before.contents() + data
    } else {
        keeps(after, before.contents()) && !before.unfailing()
    }
}

fn write_one_epoch<I: EpochFileIo>(
    io: &mut I,
    metrics: &mut FileEpochMetrics,
    start_offset: u64,
    records: &[Vec<u8>],
) -> (result: Result<(), (EpochIoPhase, IoFault)>)
    ensures
        epoch_written(*old(io), *final(io), start_offset, concatenated(records@), result is Ok),
        only_writes_counted(*old(metrics), *final(metrics)),
        result is Ok ==> written_metrics(
            *old(metrics),
            *final(metrics),
            concatenated(records@).len(),
            1,
        ),
        old(io).logs() ==> log_tells(old(io).log().faults, final(io).log().faults, result),
        old(io).logs() ==> writes_counted(
            old(io).log(),
            final(io).log(),
            old(metrics).data_writes,
            final(metrics).data_writes,
        ) && final(io).log().refused == old(io).log().refused,
        result is Ok ==> final(io).synced() == final(io).contents(),
{
    let mut arena: Vec<u8> = Vec::new();
    let mut index: usize = 0;
    proof {
        assert(records@.take(0) =~= Seq::empty());
    }
    while index < records.len()
        invariant
            index <= records.len(),
            arena@ == concatenated(records@.take(index as int)),
        decreases records.len() - index,
    {
        put_bytes(&mut arena, records[index].as_slice());
        proof {
            concatenated_grows(records@, index as int);
        }
        index += 1;
    }
    proof {
        assert(records@.take(index as int) =~= records@);
    }
    write_all_at(io, metrics, start_offset, arena.as_slice())?;
    proof {
        counted_twice(metrics.data_syncs, 0, 1);
        assert((old(io).contents() + arena@).take(old(io).contents().len() as int) =~= old(
            io,
        ).contents());
    }
    sync_epoch(io, metrics)
}

fn write_per_frame<I: EpochFileIo>(
    io: &mut I,
    metrics: &mut FileEpochMetrics,
    start_offset: u64,
    records: &[Vec<u8>],
) -> (result: Result<(), (EpochIoPhase, IoFault)>)
    ensures
        epoch_written(*old(io), *final(io), start_offset, concatenated(records@), result is Ok),
        only_writes_counted(*old(metrics), *final(metrics)),
        result is Ok ==> written_metrics(
            *old(metrics),
            *final(metrics),
            concatenated(records@).len(),
            records@.len(),
        ),
        old(io).logs() ==> log_tells(old(io).log().faults, final(io).log().faults, result),
        old(io).logs() ==> writes_counted(
            old(io).log(),
            final(io).log(),
            old(metrics).data_writes,
            final(metrics).data_writes,
        ) && final(io).log().refused == old(io).log().refused,
        result is Ok && records.len() > 0 ==> final(io).synced() == final(io).contents(),
{
    let ghost prefix = io.contents();
    let ghost sound = io.reliable() && start_offset == prefix.len() && start_offset
        + concatenated(records@).len() <= u64::MAX;
    let mut offset: u64 = start_offset;
    let mut index: usize = 0;
    proof {
        counted_twice(metrics.data_writes, 0, 0);
        counted_twice(metrics.bytes_written, 0, 0);
        counted_twice(metrics.data_syncs, 0, 0);
        assert(records@.take(0) =~= Seq::empty());
        assert(prefix + concatenated(records@.take(0)) =~= prefix);
    }
    while index < records.len()
        invariant
            index <= records.len(),
            prefix == old(io).contents(),
            sound == (old(io).reliable() && start_offset == prefix.len() && start_offset
                + concatenated(records@).len() <= u64::MAX),
            same_device(*old(io), *io),
            only_writes_counted(*old(metrics), *metrics),
            written_metrics(
                *old(metrics),
                *metrics,
                concatenated(records@.take(index as int)).len(),
                index as nat,
            ),
            old(io).logs() ==> io.log().faults == old(io).log().faults && writes_counted(
                old(io).log(),
                io.log(),
                old(metrics).data_writes,
                metrics.data_writes,
            ) && io.log().refused == old(io).log().refused,
            index > 0 ==> io.synced() == io.contents(),
            sound ==> offset == prefix.len() + concatenated(records@.take(index as int)).len()
                && io.contents() == prefix + concatenated(records@.take(index as int)),
        decreases records.len() - index,
    {
        let record = &records[index];
        let ghost before = io.contents();
        proof {
            counted_twice(
                old(metrics).bytes_written,
                concatenated(records@.take(index as int)).len(),
                record@.len(),
            );
            counted_twice(old(metrics).data_syncs, index as nat, 1);
            counted_twice(metrics.data_syncs, 0, 1);
            counted_twice(metrics.data_syncs, 0, 0);
            concatenated_grows(records@, index as int);
            concat_assoc(prefix, concatenated(records@.take(index as int)), record@);
            assert((prefix + concatenated(records@.take(index as int))).take(prefix.len() as int)
                =~= prefix);
            assert((prefix + concatenated(records@.take(index + 1))).take(prefix.len() as int)
                =~= prefix);
        }
        let ghost told = io.log();
        let written = write_all_at(io, metrics, offset, record.as_slice());
        proof {
            if old(io).logs() {
                counted_twice(
                    old(metrics).data_writes,
                    (told.writes - old(io).log().writes) as nat,
                    (io.log().writes - told.writes) as nat,
                );
            }
        }
        match written {
            Ok(()) => {},
            Err(failure) => {
                proof {
                    if sound {
                        assert(io.contents().take(before.len() as int).take(prefix.len() as int)
                            =~= io.contents().take(prefix.len() as int));
                    }
                }
                return Err(failure);
            },
        }
        sync_epoch(io, metrics)?;
        offset = offset.wrapping_add(record.len() as u64);
        index += 1;
    }
    proof {
        assert(records@.take(index as int) =~= records@);
    }
    Ok(())
}

/// The history in the bytes of a log that is complete and sound, or what is wrong with it.
pub open spec fn opened_log(bytes: Seq<u8>) -> Result<Seq<FrameModel>, EpochErrorModel> {
    match read_log(bytes, Wording::Inspect) {
        Err(error) => Err(EpochErrorModel::File(error)),
        Ok((frames, end)) => if end != bytes.len() {
            Err(
                EpochErrorModel::Verification(
                    "opened file contains "@ + decimal((bytes.len() - end) as nat)
                        + " unverified trailing bytes"@,
                ),
            )
        } else {
            match reconstructed(frames) {
                Err(error) => Err(EpochErrorModel::File(FileErrorModel::History(error))),
                Ok(_) => Ok(frames),
            }
        },
    }
}

/// Reads a log that must be complete and sound.
pub fn open_log(bytes: &[u8]) -> (result: Result<Vec<Arc<CommitFrame>>, FileEpochStoreError>)
    ensures
        match (result, opened_log(bytes@)) {
            (Ok(frames), Ok(models)) => views(frames@) == models && bytes@ == log_bytes(models)
                && linked(models),
            (Err(error), Err(model)) => error@ == model,
            _ => false,
        },
{
    match inspect_file(bytes) {
        Err(error) => Err(FileEpochStoreError::File(error)),
        Ok((frames, end)) => {
            if end != bytes.len() {
                let mut out = labelled("opened file contains ", (bytes.len() - end) as u64);
                out.append(" unverified trailing bytes");
                return Err(FileEpochStoreError::Verification(out));
            }
            proof {
                read_history_is_countable(bytes@, Wording::Inspect);
                read_log_is_canonical(bytes@, Wording::Inspect);
                whole_stands(bytes@);
            }
            match World::reconstruct(frames.as_slice()) {
                Ok(_) => Ok(frames),
                Err(error) => Err(FileEpochStoreError::File(FileCommitStoreError::History(error))),
            }
        },
    }
}

impl<I: EpochFileIo> FileEpochStore<I> {
    /// The device that the store writes to.
    pub closed spec fn device(&self) -> I {
        self.io
    }

    /// The history is linear, and the digest is that of its file.
    pub closed spec fn wf(&self) -> bool {
        linked(views(self.frames@)) && self.prefix_digest == fnv(log_bytes(views(self.frames@)))
    }

    /// The file holds exactly the history.
    pub open spec fn in_step(&self) -> bool {
        self.device().contents() == log_bytes(self@.history)
    }

    /// The device neither fails nor misleads, and the frames fit behind what it holds.
    pub open spec fn owes(&self, frames: Seq<FrameModel>) -> bool {
        &&& self.device().reliable()
        &&& self.device().unfailing()
        &&& self.in_step()
        &&& self.device().contents().len() + records_bytes(frames).len() <= u64::MAX
    }

    /// A frame is appended wherever it follows and the device does its work, and is durable then.
    pub proof fn fails_only_for_cause(&self, frame: FrameModel)
        ensures
            self.flushed() == (self.device().synced() == self.device().contents()),
            self.may_fail(frame) == (epoch_refusal(self@, seq![frame]) is Some || !self.owes(
                seq![frame],
            )),
    {
    }

    /// Takes over a device that holds a complete and sound log.
    pub fn from_io(io: I, policy: FileEpochSyncPolicy) -> (result: Result<
        Self,
        FileEpochStoreError,
    >)
        ensures
            match result {
                Ok(store) => store.wf() && same_device(io, store.device())
                    && store.device().contents() == io.contents() && store@ == (EpochStoreModel {
                    history: store@.history,
                    policy,
                    state: FileEpochState::Healthy,
                    poison_reason: None,
                    recovered_tail_bytes: 0,
                    metrics: no_metrics(),
                }) && (io.reliable() ==> opened_log(io.contents()) == Ok::<
                    Seq<FrameModel>,
                    EpochErrorModel,
                >(store@.history) && store.in_step()) && store.stored() == store@.history
                    && reconstructed(store@.history) is Ok && total_operations(store@.history)
                    < usize::MAX,
                Err(error) => match error@ {
                    EpochErrorModel::Io { phase, source } => phase == EpochIoPhase::VerifyRead
                        && !io.unfailing(),
                    _ => io.reliable() ==> opened_log(io.contents()) == Err::<
                        Seq<FrameModel>,
                        EpochErrorModel,
                    >(error@),
                },
            },
            io.reliable() && io.unfailing() ==> (result is Ok <==> opened_log(io.contents()) is Ok),
    {
        let mut io = io;
        let bytes = match io.read_all(EpochIoPhase::VerifyRead) {
            Ok(bytes) => bytes,
            Err(source) => {
                return Err(FileEpochStoreError::Io { phase: EpochIoPhase::VerifyRead, source });
            },
        };
        let frames = open_log(bytes.as_slice())?;
        let length: usize = bytes.len();
        proof {
            read_history_is_countable(bytes@, Wording::Inspect);
        }
        Ok(
            FileEpochStore {
                io,
                frames,
                policy,
                state: FileEpochState::Healthy,
                poison_reason: None,
                prefix_digest: digest(bytes.as_slice()),
                recovered_tail_bytes: 0,
                metrics: FileEpochMetrics::default(),
            },
        )
    }

    pub fn state(&self) -> (result: FileEpochState)
        ensures
            result == self@.state,
    {
        self.state
    }

    pub fn poison_reason(&self) -> (result: Option<&str>)
        ensures
            match result {
                Some(reason) => self@.poison_reason == Some(reason@),
                None => self@.poison_reason is None,
            },
    {
        match &self.poison_reason {
            Some(reason) => Some(reason.as_str()),
            None => None,
        }
    }

    pub fn policy(&self) -> (result: FileEpochSyncPolicy)
        ensures
            result == self@.policy,
    {
        self.policy
    }

    pub fn metrics(&self) -> (result: FileEpochMetrics)
        ensures
            result == self@.metrics,
    {
        self.metrics
    }

    pub fn recovered_tail_bytes(&self) -> (result: u64)
        ensures
            result == self@.recovered_tail_bytes,
    {
        self.recovered_tail_bytes
    }

    /// Remembers how many bytes were cut off when the file was opened.
    pub fn note_recovered_tail(&mut self, bytes: u64)
        ensures
            final(self)@ == (EpochStoreModel { recovered_tail_bytes: bytes, ..old(self)@ }),
            final(self).device() == old(self).device(),
            final(self).wf() == old(self).wf(),
    {
        self.recovered_tail_bytes = bytes;
    }

    /// Gives up the store for its device.
    pub fn into_io(self) -> (result: I)
        ensures
            result == self.device(),
    {
        self.io
    }

    /// What is stored is the history.
    pub proof fn stored_is_history(&self)
        ensures
            self.stored() == self@.history,
    {
    }

    /// The history is linked.
    pub proof fn wf_is_linked(&self)
        requires
            self.wf(),
        ensures
            linked(self@.history),
    {
    }

    /// Lets the store refuse everything from now on.
    pub fn poison_external(&mut self, reason: String)
        ensures
            final(self)@ == (EpochStoreModel {
                state: FileEpochState::Poisoned,
                poison_reason: Some(reason@),
                ..old(self)@
            }),
            final(self).device() == old(self).device(),
            old(self).wf() ==> final(self).wf(),
    {
        self.state = FileEpochState::Poisoned;
        self.poison_reason = Some(reason);
    }

    fn ensure_healthy(&self) -> (result: Result<(), FileEpochStoreError>)
        ensures
            match unusable_text(self@) {
                None => result is Ok,
                Some(reason) => result matches Err(error) && error@
                    == EpochErrorModel::StorePoisoned(reason),
            },
    {
        match self.state {
            FileEpochState::Healthy => Ok(()),
            FileEpochState::Repairing => Err(
                FileEpochStoreError::StorePoisoned("store is still repairing".to_owned()),
            ),
            FileEpochState::Poisoned => Err(
                FileEpochStoreError::StorePoisoned(
                    match &self.poison_reason {
                        Some(reason) => reason.clone(),
                        None => "repair could not be verified".to_owned(),
                    },
                ),
            ),
        }
    }

    /// The length of the file.
    pub fn file_len(&mut self) -> (result: Result<u64, FileEpochStoreError>)
        ensures
            final(self)@ == old(self)@,
            final(self).wf() == old(self).wf(),
            same_device(old(self).device(), final(self).device()),
            final(self).device().contents() == old(self).device().contents(),
            match unusable_text(old(self)@) {
                Some(reason) => result matches Err(error) && error@
                    == EpochErrorModel::StorePoisoned(reason),
                None => match result {
                    Ok(length) => old(self).device().reliable() ==> length == old(
                        self,
                    ).device().contents().len(),
                    Err(error) => error@ is Io && error@->Io_phase == EpochIoPhase::VerifyLength
                        && !old(self).device().unfailing(),
                },
            },
    {
        self.ensure_healthy()?;
        match self.io.len(EpochIoPhase::VerifyLength) {
            Ok(length) => Ok(length),
            Err(source) => Err(
                FileEpochStoreError::Io { phase: EpochIoPhase::VerifyLength, source },
            ),
        }
    }

    /// The frames that are in the file now.
    pub fn physical_frames(&mut self) -> (result: Result<
        Vec<Arc<CommitFrame>>,
        FileEpochStoreError,
    >)
        ensures
            final(self)@ == old(self)@,
            final(self).wf() == old(self).wf(),
            same_device(old(self).device(), final(self).device()),
            final(self).device().contents() == old(self).device().contents(),
            match unusable_text(old(self)@) {
                Some(reason) => result matches Err(error) && error@
                    == EpochErrorModel::StorePoisoned(reason),
                None => match result {
                    Ok(frames) => old(self).device().reliable() ==> read_log(
                        old(self).device().contents(),
                        Wording::Inspect,
                    ) == Ok::<(Seq<FrameModel>, int), FileErrorModel>(
                        (views(frames@), old(self).device().contents().len() as int),
                    ),
                    Err(error) => match error@ {
                        EpochErrorModel::Io { phase, source } => phase == EpochIoPhase::VerifyRead
                            && !old(self).device().unfailing(),
                        EpochErrorModel::Verification(message) => message
                            == "physical file contains an incomplete tail"@ && (
                        old(self).device().reliable() ==> read_log(
                            old(self).device().contents(),
                            Wording::Inspect,
                        ) is Ok),
                        EpochErrorModel::File(model) => old(self).device().reliable() ==> read_log(
                            old(self).device().contents(),
                            Wording::Inspect,
                        ) == Err::<(Seq<FrameModel>, int), FileErrorModel>(model),
                        _ => false,
                    },
                },
            },
    {
        self.ensure_healthy()?;
        let bytes = match self.io.read_all(EpochIoPhase::VerifyRead) {
            Ok(bytes) => bytes,
            Err(source) => {
                return Err(FileEpochStoreError::Io { phase: EpochIoPhase::VerifyRead, source });
            },
        };
        match inspect_file(bytes.as_slice()) {
            Err(error) => Err(FileEpochStoreError::File(error)),
            Ok((frames, end)) => {
                if end != bytes.len() {
                    return Err(
                        FileEpochStoreError::Verification(
                            "physical file contains an incomplete tail".to_owned(),
                        ),
                    );
                }
                Ok(frames)
            },
        }
    }

    fn checkpoint(&self, start_offset: u64) -> (result: EpochCheckpoint)
        ensures
            result.start_offset == start_offset,
            result.frame_count == self@.history.len(),
            (result.world_id, result.world_version) == tail_of(self@.history),
            self.wf() ==> result.prefix_digest == fnv(log_bytes(self@.history)),
    {
        let (world_id, world_version) = history_tail(self.frames.as_slice());
        EpochCheckpoint {
            start_offset,
            frame_count: self.frames.len(),
            world_id,
            world_version,
            prefix_digest: self.prefix_digest,
        }
    }

    fn validate_epoch(&self, frames: &[Arc<CommitFrame>]) -> (result: Result<
        (),
        FileEpochStoreError,
    >)
        ensures
            match epoch_fault(tail_of(self@.history), views(frames@)) {
                None => result is Ok,
                Some(reason) => result matches Err(error) && error@ == EpochErrorModel::File(
                    FileErrorModel::NonLinearAppend(reason),
                ),
            },
    {
        let ghost models = views(frames@);
        let (start_world, start_version) = history_tail(self.frames.as_slice());
        let ghost start = (start_world, start_version);
        let mut world = start_world;
        let mut version: u64 = start_version;
        let mut index: usize = 0;
        proof {
            assert(models.take(0) =~= Seq::empty());
        }
        while index < frames.len()
            invariant
                index <= frames.len(),
                models == views(frames@),
                start == tail_of(self@.history),
                epoch_fault(start, models.take(index as int)) is None,
                (world, version) == tail_after(start, models.take(index as int)),
            decreases frames.len() - index,
        {
            let frame = &frames[index];
            proof {
                assert(models.take(index + 1).drop_last() =~= models.take(index as int));
                assert(models.take(index + 1).last() == frame@);
            }
            match find_append_fault(world, version, frame) {
                Some(reason) => {
                    proof {
                        epoch_fault_stays(start, models, index + 1);
                    }
                    return Err(
                        FileEpochStoreError::File(FileCommitStoreError::NonLinearAppend(reason)),
                    );
                },
                None => {},
            }
            world = frame.resulting_world();
            version = frame.resulting_version();
            index += 1;
        }
        proof {
            assert(models.take(index as int) =~= models);
        }
        Ok(())
    }

    /// Cuts the file back to the checkpoint and checks that it is what it was.
    fn repair(&mut self, checkpoint: EpochCheckpoint) -> (result: Result<
        (),
        (EpochIoPhase, String),
    >)
        ensures
            same_device(old(self).device(), final(self).device()),
            final(self)@ == (EpochStoreModel {
                metrics: FileEpochMetrics {
                    repair_syncs: final(self)@.metrics.repair_syncs,
                    ..old(self)@.metrics
                },
                ..old(self)@
            }),
            final(self).wf() == old(self).wf(),
            result is Ok ==> final(self)@.metrics.repair_syncs == counted(
                old(self)@.metrics.repair_syncs,
                1,
            ),
            result is Ok && old(self).device().reliable() && checkpoint.start_offset <= old(
                self,
            ).device().contents().len() ==> final(self).device().contents() == old(
                self,
            ).device().contents().take(checkpoint.start_offset as int) && repaired_fault(
                checkpoint,
                final(self).device().contents(),
            ) is None,
            old(self).device().logs() ==> {
                &&& repair_faults(
                    old(self).device().log().faults,
                    final(self).device().log().faults,
                )
                &&& repair_model(result) == repair_verdict(
                    checkpoint,
                    old(self).device().log().faults,
                    final(self).device().log(),
                )
                &&& final(self).device().log().writes == old(self).device().log().writes
                &&& final(self).device().log().refused == old(self).device().log().refused
            },
            result is Ok ==> final(self).device().synced() == final(self).device().contents(),
            old(self).device().reliable() && checkpoint.start_offset <= old(
                self,
            ).device().contents().len() ==> keeps(
                final(self).device(),
                old(self).device().contents().take(checkpoint.start_offset as int),
            ),
            old(self).device().reliable() && (old(self).device().unfailing() || old(
                self,
            ).device().logs() && final(self).device().log().faults == old(
                self,
            ).device().log().faults) && checkpoint.start_offset <= old(self).device().contents().len() ==> match result {
                Ok(()) => true,
                Err((phase, text)) => phase == EpochIoPhase::VerifyRead && repaired_fault(
                    checkpoint,
                    old(self).device().contents().take(checkpoint.start_offset as int),
                ) == Some(text@),
            },
    {
        proof {
            let faults = self.device().log().faults;
            let contents = self.device().contents();
            let start = checkpoint.start_offset as int;
            assert forall|fault: DeviceFault| (#[trigger] faults.push(fault)).drop_last()
                == faults && faults.push(fault) != faults by {
                assert(faults.push(fault).drop_last() =~= faults);
                assert(faults.push(fault).len() == faults.len() + 1);
            }
            if start <= contents.len() {
                assert(contents.take(start).take(start) =~= contents.take(start));
            }
        }
        match self.io.set_len(EpochIoPhase::RepairTruncate, checkpoint.start_offset) {
            Ok(()) => {},
            Err(source) => {
                return Err((EpochIoPhase::RepairTruncate, source.message));
            },
        }
        proof {
            counted_twice(self.metrics.repair_syncs, 0, 1);
        }
        self.metrics.repair_syncs = self.metrics.repair_syncs.wrapping_add(1);
        match self.io.sync_data(EpochIoPhase::RepairSync) {
            Ok(()) => {},
            Err(source) => {
                return Err((EpochIoPhase::RepairSync, source.message));
            },
        }
        let actual: u64 = match self.io.len(EpochIoPhase::VerifyLength) {
            Ok(length) => length,
            Err(source) => {
                return Err((EpochIoPhase::VerifyLength, source.message));
            },
        };
        if actual != checkpoint.start_offset {
            return Err(
                (
                    EpochIoPhase::VerifyLength,
                    describe_numbers(
                        "expected repaired length ",
                        checkpoint.start_offset,
                        ", found ",
                        actual,
                    ),
                ),
            );
        }
        let bytes = match self.io.read_all(EpochIoPhase::VerifyRead) {
            Ok(bytes) => bytes,
            Err(source) => {
                return Err((EpochIoPhase::VerifyRead, source.message));
            },
        };
        match check_repaired(checkpoint, bytes.as_slice()) {
            Some(text) => Err((EpochIoPhase::VerifyRead, text)),
            None => Ok(()),
        }
    }

    /// Repairs the file after a failed epoch, or closes the store for good.
    fn handle_primary_failure(
        &mut self,
        checkpoint: EpochCheckpoint,
        primary_phase: EpochIoPhase,
        primary: IoFault,
    ) -> (result: FileEpochStoreError)
        ensures
            same_device(old(self).device(), final(self).device()),
            final(self).wf() == old(self).wf(),
            final(self)@.history == old(self)@.history,
            final(self)@.policy == old(self)@.policy,
            final(self)@.recovered_tail_bytes == old(self)@.recovered_tail_bytes,
            final(self)@.metrics.epoch_attempts == old(self)@.metrics.epoch_attempts,
            match result@ {
                EpochErrorModel::EpochRepaired { phase, source } => phase == primary_phase && source
                    == primary@ && final(self)@.state == FileEpochState::Healthy
                    && final(self)@.poison_reason == old(self)@.poison_reason
                    && final(self)@.metrics == (FileEpochMetrics {
                    repairs_succeeded: counted(old(self)@.metrics.repairs_succeeded, 1),
                    repair_syncs: counted(old(self)@.metrics.repair_syncs, 1),
                    ..old(self)@.metrics
                }) && (old(self).device().reliable() && checkpoint.start_offset <= old(
                    self,
                ).device().contents().len() ==> final(self).device().contents() == old(
                    self,
                ).device().contents().take(checkpoint.start_offset as int)),
                EpochErrorModel::RepairFailed {
                    primary_phase: phase,
                    primary: text,
                    repair_phase,
                    repair,
                } => phase == primary_phase && text == primary@.message && final(self)@.state
                    == FileEpochState::Poisoned && final(self)@.poison_reason == Some(
                    poison_text(phase, text, repair_phase, repair),
                ) && final(self)@.metrics == (FileEpochMetrics {
                    repairs_failed: counted(old(self)@.metrics.repairs_failed, 1),
                    repair_syncs: final(self)@.metrics.repair_syncs,
                    ..old(self)@.metrics
                }),
                _ => false,
            },
            old(self).device().logs() ==> {
                &&& final(self).device().log().writes == old(self).device().log().writes
                &&& final(self).device().log().refused == old(self).device().log().refused
                &&& repair_faults(
                    old(self).device().log().faults,
                    final(self).device().log().faults,
                )
                &&& match repair_verdict(
                    checkpoint,
                    old(self).device().log().faults,
                    final(self).device().log(),
                ) {
                    Ok(()) => result@ is EpochRepaired,
                    Err((repair_phase, repair)) => result@ == (EpochErrorModel::RepairFailed {
                        primary_phase,
                        primary: primary@.message,
                        repair_phase,
                        repair,
                    }),
                }
            },
            result@ is EpochRepaired ==> final(self).device().synced() == final(self).device().contents(),
            old(self).device().reliable() && checkpoint.start_offset <= old(
                self,
            ).device().contents().len() ==> {
                &&& keeps(
                    final(self).device(),
                    old(self).device().contents().take(checkpoint.start_offset as int),
                )
                &&& (old(self).device().unfailing() || old(self).device().logs() && final(self).device().log().faults == old(self).device().log().faults) && repaired_fault(
                    checkpoint,
                    old(self).device().contents().take(checkpoint.start_offset as int),
                ) is None ==> result@ is EpochRepaired
            },
    {
        self.state = FileEpochState::Repairing;
        let outcome = self.repair(checkpoint);
        proof {
            counted_twice(self.metrics.repairs_succeeded, 0, 1);
            counted_twice(self.metrics.repairs_failed, 0, 1);
        }
        match outcome {
            Ok(()) => {
                self.state = FileEpochState::Healthy;
                self.metrics.repairs_succeeded = self.metrics.repairs_succeeded.wrapping_add(1);
                FileEpochStoreError::EpochRepaired { phase: primary_phase, source: primary }
            },
            Err((repair_phase, repair)) => {
                self.state = FileEpochState::Poisoned;
                self.metrics.repairs_failed = self.metrics.repairs_failed.wrapping_add(1);
                let mut reason = joined("primary ", primary_phase.name());
                reason.append(": ");
                reason.append(primary.message.as_str());
                reason.append("; repair ");
                reason.append(repair_phase.name());
                reason.append(": ");
                reason.append(repair.as_str());
                self.poison_reason = Some(reason);
                FileEpochStoreError::RepairFailed {
                    primary_phase,
                    primary: primary.message,
                    repair_phase,
                    repair,
                }
            },
        }
    }

    fn encode_records(frames: &[Arc<CommitFrame>]) -> (result: Result<
        Vec<Vec<u8>>,
        FileEpochStoreError,
    >)
        ensures
            match oversize_fault(views(frames@)) {
                None => result matches Ok(records) && records.len() == frames.len()
                    && concatenated(records@) == records_bytes(views(frames@)),
                Some(reason) => result matches Err(error) && error@ == EpochErrorModel::File(
                    FileErrorModel::NonLinearAppend(reason),
                ),
            },
    {
        let ghost models = views(frames@);
        let mut records: Vec<Vec<u8>> = Vec::new();
        let mut index: usize = 0;
        proof {
            assert(models.take(0) =~= Seq::empty());
        }
        while index < frames.len()
            invariant
                index <= frames.len(),
                models == views(frames@),
                records.len() == index,
                oversize_fault(models.take(index as int)) is None,
                concatenated(records@) == records_bytes(models.take(index as int)),
            decreases frames.len() - index,
        {
            proof {
                assert(models.take(index + 1).drop_last() =~= models.take(index as int));
                assert(models.take(index + 1).last() == frames@[index as int]@);
            }
            match encode_record(&frames[index]) {
                Ok(record) => {
                    let ghost before = records@;
                    records.push(record);
                    proof {
                        assert(records@.drop_last() =~= before);
                    }
                },
                Err(error) => {
                    proof {
                        oversize_fault_stays(models, index + 1);
                    }
                    return Err(FileEpochStoreError::File(error));
                },
            }
            index += 1;
        }
        proof {
            assert(models.take(index as int) =~= models);
        }
        Ok(records)
    }

    fn extend_digest(&mut self, records: &Vec<Vec<u8>>)
        ensures
            final(self).device() == old(self).device(),
            final(self)@ == old(self)@,
            final(self).prefix_digest == fnv_from(old(self).prefix_digest, concatenated(records@)),
            final(self).frames == old(self).frames,
    {
        let mut index: usize = 0;
        proof {
            assert(records@.take(0) =~= Seq::empty());
        }
        while index < records.len()
            invariant
                index <= records.len(),
                self.device() == old(self).device(),
                self@ == old(self)@,
                self.frames == old(self).frames,
                self.prefix_digest == fnv_from(
                    old(self).prefix_digest,
                    concatenated(records@.take(index as int)),
                ),
            decreases records.len() - index,
        {
            self.prefix_digest = digest_extend(self.prefix_digest, records[index].as_slice());
            proof {
                concatenated_grows(records@, index as int);
                fnv_from_concat(
                    old(self).prefix_digest,
                    concatenated(records@.take(index as int)),
                    records@[index as int]@,
                );
            }
            index += 1;
        }
        proof {
            assert(records@.take(index as int) =~= records@);
        }
    }

    /// Looks whether an epoch may be appended, and lays out its records behind what the file holds.
    /// Nothing is written.
    pub fn prepare_epoch(&mut self, frames: &[Arc<CommitFrame>]) -> (result: Result<
        PreparedEpoch,
        FileEpochStoreError,
    >)
        requires
            frames.len() > 0,
        ensures
            epoch_prepared(*old(self), *final(self), views(frames@), result),
    {
        self.ensure_healthy()?;
        self.validate_epoch(frames)?;
        let records = Self::encode_records(frames)?;
        let start_offset: u64 = match self.io.len(EpochIoPhase::EpochStart) {
            Ok(length) => length,
            Err(source) => {
                return Err(FileEpochStoreError::Io { phase: EpochIoPhase::EpochStart, source });
            },
        };
        let checkpoint = self.checkpoint(start_offset);
        proof {
            counted_twice(self.metrics.epoch_attempts, 0, 1);
        }
        self.metrics.epoch_attempts = self.metrics.epoch_attempts.wrapping_add(1);
        Ok(PreparedEpoch { checkpoint, records })
    }

    /// Writes the records of a prepared epoch, through a transport or without one; or waits for the
    /// transport that is writing them.
    fn write_records(&mut self, epoch: &PreparedEpoch, submitted: bool) -> (result: Result<
        (),
        (EpochIoPhase, IoFault),
    >)
        requires
            epoch.records.len() > 0,
            submitted ==> old(self).device().transports() && old(self).device().in_flight() == Some(
                (epoch.checkpoint.start_offset, concatenated(epoch.records@)),
            ),
        ensures
            final(self)@ == (EpochStoreModel { metrics: final(self)@.metrics, ..old(self)@ }),
            final(self).frames == old(self).frames,
            final(self).prefix_digest == old(self).prefix_digest,
            only_writing_counted(old(self)@.metrics, final(self)@.metrics),
            epoch_written(
                old(self).device(),
                final(self).device(),
                epoch.checkpoint.start_offset,
                concatenated(epoch.records@),
                result is Ok,
            ),
            result is Ok ==> final(self).device().synced() == final(self).device().contents(),
            old(self).device().logs() ==> log_tells(
                old(self).device().log().faults,
                final(self).device().log().faults,
                result,
            ),
            result is Ok && !old(self).device().transports() ==> final(self)@.metrics.data_syncs
                == counted(
                old(self)@.metrics.data_syncs,
                epoch_syncs(old(self)@.policy, epoch.records@.len()),
            ) && final(self)@.metrics.bytes_written == counted(
                old(self)@.metrics.bytes_written,
                concatenated(epoch.records@).len(),
            ),
            old(self).device().logs() && !old(self).device().transports() ==> writes_counted(
                old(self).device().log(),
                final(self).device().log(),
                old(self)@.metrics.data_writes,
                final(self)@.metrics.data_writes,
            ),
            old(self).device().logs() ==> final(self).device().log().refused == old(
                self,
            ).device().log().refused,
    {
        let start_offset: u64 = epoch.checkpoint.start_offset;
        proof {
            let faults = self.device().log().faults;
            assert forall|fault: DeviceFault| (#[trigger] faults.push(fault)).drop_last()
                == faults by {
                assert(faults.push(fault).drop_last() =~= faults);
            }
        }
        if submitted {
            let (transport, outcome) = self.io.complete_epoch();
            self.metrics.record_persist(transport);
            return outcome;
        }
        match self.io.persist_epoch(start_offset, epoch.records.as_slice()) {
            Some((transport, outcome)) => {
                self.metrics.record_persist(transport);
                outcome
            },
            None => match self.policy {
                FileEpochSyncPolicy::PerFrame => write_per_frame(
                    &mut self.io,
                    &mut self.metrics,
                    start_offset,
                    epoch.records.as_slice(),
                ),
                FileEpochSyncPolicy::PerEpoch => write_one_epoch(
                    &mut self.io,
                    &mut self.metrics,
                    start_offset,
                    epoch.records.as_slice(),
                ),
            },
        }
    }

    /// Takes in frames whose records are durable.
    fn keep_epoch(&mut self, frames: &[Arc<CommitFrame>], records: &Vec<Vec<u8>>)
        requires
            concatenated(records@) == records_bytes(views(frames@)),
            epoch_fault(tail_of(old(self)@.history), views(frames@)) is None,
        ensures
            final(self).device() == old(self).device(),
            old(self).wf() ==> final(self).wf(),
            final(self)@ == (EpochStoreModel {
                history: old(self)@.history + views(frames@),
                recovered_tail_bytes: 0,
                metrics: FileEpochMetrics {
                    epochs_committed: counted(old(self)@.metrics.epochs_committed, 1),
                    frames_committed: counted(
                        old(self)@.metrics.frames_committed,
                        frames@.len(),
                    ),
                    ..old(self)@.metrics
                },
                ..old(self)@
            }),
    {
        proof {
            counted_twice(self.metrics.epochs_committed, 0, 1);
            counted_twice(self.metrics.frames_committed, 0, frames@.len());
            records_concat(self@.history, views(frames@));
            concat_assoc(
                header_bytes(),
                records_bytes(self@.history),
                records_bytes(views(frames@)),
            );
        }
        self.extend_digest(records);
        proof {
            fnv_from_concat(FNV_OFFSET, log_bytes(old(self)@.history), concatenated(records@));
            if old(self).wf() {
                linked_concat(old(self)@.history, views(frames@));
            }
            views_concat(self.frames@, frames@);
        }
        let mut more = share_all(frames);
        self.frames.append(&mut more);
        self.recovered_tail_bytes = 0;
        self.metrics.epochs_committed = self.metrics.epochs_committed.wrapping_add(1);
        self.metrics.frames_committed = self.metrics.frames_committed.wrapping_add(
            frames.len() as u64,
        );
    }

    /// Has the device begin to write the records of a prepared epoch.
    fn start_records(&mut self, epoch: &PreparedEpoch) -> (result: Option<
        Result<(), (EpochIoPhase, IoFault)>,
    >)
        ensures
            final(self)@ == old(self)@,
            final(self).wf() == old(self).wf(),
            same_device(old(self).device(), final(self).device()),
            result is Some ==> old(self).device().transports(),
            match result {
                Some(Err(failure)) => {
                    &&& !old(self).device().unfailing()
                    &&& epoch_written(
                        old(self).device(),
                        final(self).device(),
                        epoch.checkpoint.start_offset,
                        concatenated(epoch.records@),
                        false,
                    )
                    &&& old(self).device().logs() ==> log_tells(
                        old(self).device().log().faults,
                        final(self).device().log().faults,
                        Err(failure),
                    ) && final(self).device().log().refused == old(self).device().log().refused + 1
                },
                _ => {
                    &&& final(self).device().contents() == old(self).device().contents()
                    &&& final(self).device().synced() == old(self).device().synced()
                    &&& old(self).device().logs() ==> final(self).device().log() == old(
                        self,
                    ).device().log()
                },
            },
            result matches Some(Ok(_)) ==> final(self).device().in_flight() == Some(
                (epoch.checkpoint.start_offset, concatenated(epoch.records@)),
            ),
    {
        proof {
            let faults = self.device().log().faults;
            assert forall|fault: DeviceFault| (#[trigger] faults.push(fault)).drop_last()
                == faults by {
                assert(faults.push(fault).drop_last() =~= faults);
            }
        }
        self.io.submit_epoch(epoch.checkpoint.start_offset, epoch.records.as_slice())
    }

    /// Has the device begin to write a prepared epoch in the background, where it does such a thing.
    /// An epoch that it refuses is taken back.
    pub fn submit_epoch(&mut self, frames: &[Arc<CommitFrame>], epoch: PreparedEpoch) -> (result:
        Result<FlyingEpoch, FileEpochStoreError>)
        requires
            prepared_for(*old(self), views(frames@), epoch),
        ensures
            epoch_submitted(*old(self), *final(self), views(frames@), result),
    {
        let ghost begin = *self;
        match self.start_records(&epoch) {
            None => Ok(FlyingEpoch { epoch, submitted: false }),
            Some(Ok(())) => Ok(FlyingEpoch { epoch, submitted: true }),
            Some(Err((phase, source))) => {
                let ghost written = *self;
                let ghost told = source@;
                proof {
                    let whole = begin.device().contents();
                    assert(whole.take(whole.len() as int) =~= whole);
                }
                let error = self.handle_primary_failure(epoch.checkpoint, phase, source);
                proof {
                    failed_epoch_settles(
                        begin,
                        written,
                        *self,
                        views(frames@),
                        epoch,
                        phase,
                        told,
                        error,
                    );
                }
                Err(error)
            },
        }
    }

    /// Writes a prepared epoch, or waits until it is written, and makes its records durable
    /// together. An epoch that fails is taken back; where that cannot be verified, the store is
    /// poisoned and refuses everything from then on.
    pub fn finish_epoch(&mut self, frames: &[Arc<CommitFrame>], flying: FlyingEpoch) -> (result:
        Result<(), FileEpochStoreError>)
        requires
            flying_for(*old(self), views(frames@), flying),
        ensures
            epoch_settled(*old(self), old(self)@, *final(self), views(frames@), result),
            old(self).device().logs() ==> final(self).device().log().refused == old(
                self,
            ).device().log().refused,
    {
        let FlyingEpoch { epoch, submitted } = flying;
        let ghost models = views(frames@);
        let ghost begin = *self;
        let ghost faults = self.device().log().faults;
        let outcome = self.write_records(&epoch, submitted);
        let ghost written = *self;
        match outcome {
            Ok(()) => {
                self.keep_epoch(frames, &epoch.records);
                proof {
                    stored_epoch_settles(begin, written, *self, models, epoch);
                }
                Ok(())
            },
            Err((phase, source)) => {
                let ghost told = source@;
                proof {
                    let whole = begin.device().contents();
                    assert(whole.take(whole.len() as int) =~= whole);
                }
                let error = self.handle_primary_failure(epoch.checkpoint, phase, source);
                proof {
                    failed_epoch_settles(begin, written, *self, models, epoch, phase, told, error);
                }
                Err(error)
            },
        }
    }

    /// Writes a prepared epoch and makes its records durable together, or takes it back.
    pub fn store_epoch(&mut self, frames: &[Arc<CommitFrame>], epoch: PreparedEpoch) -> (result:
        Result<(), FileEpochStoreError>)
        requires
            prepared_for(*old(self), views(frames@), epoch),
        ensures
            epoch_settled(*old(self), old(self)@, *final(self), views(frames@), result),
            old(self).device().logs() ==> final(self).device().log().refused == old(
                self,
            ).device().log().refused,
    {
        self.finish_epoch(frames, FlyingEpoch { epoch, submitted: false })
    }

    /// Appends an epoch and makes its records durable together, or takes it back.
    pub fn append_epoch(&mut self, frames: &[Arc<CommitFrame>]) -> (result: Result<
        (),
        FileEpochStoreError,
    >)
        ensures
            epoch_appended(*old(self), *final(self), views(frames@), result),
    {
        if frames.len() == 0 {
            self.ensure_healthy()?;
            proof {
                assert(views(frames@) =~= Seq::empty());
                assert(self@.history + views(frames@) =~= self@.history);
            }
            return Ok(());
        }
        let epoch = self.prepare_epoch(frames)?;
        let ghost ready = *self;
        let result = self.store_epoch(frames, epoch);
        proof {
            preparing_changes_nothing(*old(self), ready, *self, views(frames@), result);
        }
        result
    }
}

impl<I: EpochFileIo> CommitStore for FileEpochStore<I> {
    type Error = FileEpochStoreError;

    closed spec fn stored(&self) -> Seq<FrameModel> {
        self@.history
    }

    closed spec fn may_fail(&self, frame: FrameModel) -> bool {
        epoch_refusal(self@, seq![frame]) is Some || !self.owes(seq![frame])
    }

    closed spec fn flushed(&self) -> bool {
        self.device().synced() == self.device().contents()
    }

    fn append(&mut self, frame: Arc<CommitFrame>) -> (result: Result<(), FileEpochStoreError>) {
        let mut epoch: Vec<Arc<CommitFrame>> = Vec::new();
        epoch.push(frame);
        proof {
            assert(views(epoch@) =~= seq![frame@]);
            assert(self@.history + seq![frame@] =~= self@.history.push(frame@));
        }
        self.append_epoch(epoch.as_slice())
    }

    /// The last verified frames; a poisoned store still has them.
    fn frames(&self) -> (result: Vec<Arc<CommitFrame>>) {
        share_all(self.frames.as_slice())
    }

    fn len(&self) -> (result: usize) {
        self.frames.len()
    }
}

/// An epoch whose records are laid out.
pub struct PreparedEpoch {
    pub checkpoint: EpochCheckpoint,
    pub records: Vec<Vec<u8>>,
}

/// An epoch was laid out for a store as it is.
pub open spec fn prepared_for<I: EpochFileIo>(
    store: FileEpochStore<I>,
    frames: Seq<FrameModel>,
    epoch: PreparedEpoch,
) -> bool {
    &&& frames.len() > 0
    &&& epoch_refusal(store@, frames) is None
    &&& concatenated(epoch.records@) == records_bytes(frames)
    &&& epoch.records@.len() == frames.len()
    &&& epoch.checkpoint.frame_count == store@.history.len()
    &&& (epoch.checkpoint.world_id, epoch.checkpoint.world_version) == tail_of(store@.history)
    &&& store.wf() ==> epoch.checkpoint.prefix_digest == fnv(log_bytes(store@.history))
    &&& store.device().reliable() ==> epoch.checkpoint.start_offset
        == store.device().contents().len()
}

/// An epoch that a device may be writing already.
pub struct FlyingEpoch {
    pub epoch: PreparedEpoch,
    pub submitted: bool,
}

/// An epoch was laid out for a store as it is, and is being written if it was submitted.
pub open spec fn flying_for<I: EpochFileIo>(
    store: FileEpochStore<I>,
    frames: Seq<FrameModel>,
    flying: FlyingEpoch,
) -> bool {
    &&& prepared_for(store, frames, flying.epoch)
    &&& flying.submitted ==> store.device().transports() && store.device().in_flight() == Some(
        (flying.epoch.checkpoint.start_offset, concatenated(flying.epoch.records@)),
    )
}

/// What the submission of a prepared epoch leads to: it is on its way, or it was taken back.
pub open spec fn epoch_submitted<I: EpochFileIo>(
    before: FileEpochStore<I>,
    after: FileEpochStore<I>,
    frames: Seq<FrameModel>,
    result: Result<FlyingEpoch, FileEpochStoreError>,
) -> bool {
    match result {
        Ok(flying) => {
            &&& flying_for(after, frames, flying)
            &&& same_device(before.device(), after.device())
            &&& after.device().contents() == before.device().contents()
            &&& after.device().synced() == before.device().synced()
            &&& before.device().logs() ==> after.device().log() == before.device().log()
            &&& after.wf() == before.wf()
            &&& after@ == before@
        },
        Err(error) => {
            &&& epoch_settled(before, before@, after, frames, Err(error))
            &&& before.device().transports()
            &&& !before.device().unfailing()
            &&& before.device().logs() ==> after.device().log().refused
                == before.device().log().refused + 1
        },
    }
}

/// What the laying out of an epoch leads to.
pub open spec fn epoch_prepared<I: EpochFileIo>(
    before: FileEpochStore<I>,
    after: FileEpochStore<I>,
    frames: Seq<FrameModel>,
    result: Result<PreparedEpoch, FileEpochStoreError>,
) -> bool {
    &&& same_device(before.device(), after.device())
    &&& after.device().contents() == before.device().contents()
    &&& after.device().synced() == before.device().synced()
    &&& after.wf() == before.wf()
    &&& match epoch_refusal(before@, frames) {
        Some(refusal) => result matches Err(error) && error@ == refusal && after == before,
        None => match result {
            Ok(epoch) => {
                &&& prepared_for(after, frames, epoch)
                &&& after@ == (EpochStoreModel {
                    metrics: FileEpochMetrics {
                        epoch_attempts: counted(before@.metrics.epoch_attempts, 1),
                        ..before@.metrics
                    },
                    ..before@
                })
                &&& before.device().logs() ==> after.device().log().faults
                    == before.device().log().faults && after.device().log().writes
                    == before.device().log().writes && after.device().log().refused
                    == before.device().log().refused
            },
            Err(error) => {
                &&& error@ matches EpochErrorModel::Io { phase, source }
                &&& phase == EpochIoPhase::EpochStart
                &&& !before.device().unfailing()
                &&& after@ == before@
                &&& before.device().logs() ==> after.device().log().faults
                    == before.device().log().faults.push(DeviceFault::Failed(phase, source))
            },
        },
    }
}

/// The history of a store can be read back from its file.
pub open spec fn readable<I: EpochFileIo>(store: FileEpochStore<I>) -> bool {
    &&& store.wf()
    &&& all_storable(store@.history)
    &&& reconstructed(store@.history) is Ok
    &&& log_bytes(store@.history).len() <= usize::MAX
}

/// What the writing of a prepared epoch leads to: the epoch is stored and durable; or it was taken
/// back, and the store is as it was; or the store is poisoned. The faults of the device say which.
pub open spec fn epoch_settled<I: EpochFileIo>(
    before: FileEpochStore<I>,
    start: EpochStoreModel,
    after: FileEpochStore<I>,
    frames: Seq<FrameModel>,
    result: Result<(), FileEpochStoreError>,
) -> bool {
    let faults = before.device().log().faults;
    let more = after.device().log().faults;
    &&& same_device(before.device(), after.device())
    &&& before.wf() ==> after.wf()
    &&& after@.policy == start.policy
    &&& after@.metrics.epoch_attempts == start.metrics.epoch_attempts
    &&& before.device().logs() && !before.device().transports() ==> writes_counted(
        before.device().log(),
        after.device().log(),
        start.metrics.data_writes,
        after@.metrics.data_writes,
    )
    &&& match result {
        Ok(()) => {
            &&& after@.history == start.history + frames
            &&& after@.state == FileEpochState::Healthy
            &&& after@.poison_reason == start.poison_reason
            &&& after@.recovered_tail_bytes == 0
            &&& after@.metrics.epochs_committed == counted(start.metrics.epochs_committed, 1)
            &&& after@.metrics.frames_committed == counted(
                start.metrics.frames_committed,
                frames.len(),
            )
            &&& !before.device().transports() ==> after@.metrics.data_syncs == counted(
                start.metrics.data_syncs,
                epoch_syncs(start.policy, frames.len()),
            ) && after@.metrics.bytes_written == counted(
                start.metrics.bytes_written,
                records_bytes(frames).len(),
            )
            &&& after.device().synced() == after.device().contents()
            &&& before.device().logs() ==> more == faults
        },
        Err(error) => {
            &&& after@.history == start.history
            &&& after@.recovered_tail_bytes == start.recovered_tail_bytes
            &&& after@.metrics.epochs_committed == start.metrics.epochs_committed
            &&& after@.metrics.frames_committed == start.metrics.frames_committed
            &&& match error@ {
                EpochErrorModel::EpochRepaired { phase, source } => {
                    &&& after@.state == FileEpochState::Healthy
                    &&& after@.poison_reason == start.poison_reason
                    &&& after@.metrics.repairs_succeeded == counted(
                        start.metrics.repairs_succeeded,
                        1,
                    )
                    &&& after.device().synced() == after.device().contents()
                    &&& before.device().logs() ==> more.len() == faults.len() + 1
                        && more.drop_last() == faults && told_fault(more.last()) == (phase, source)
                },
                EpochErrorModel::RepairFailed { primary_phase, primary, repair_phase, repair } => {
                    &&& after@.state == FileEpochState::Poisoned
                    &&& after@.poison_reason == Some(
                        poison_text(primary_phase, primary, repair_phase, repair),
                    )
                    &&& after@.metrics.repairs_failed == counted(
                        start.metrics.repairs_failed,
                        1,
                    )
                    &&& before.device().logs() ==> {
                        &&& faults.len() < more.len() <= faults.len() + 2
                        &&& more.take(faults.len() as int) == faults
                        &&& told_fault(more[faults.len() as int]).0 == primary_phase
                        &&& told_fault(more[faults.len() as int]).1.message == primary
                        &&& if more.len() == faults.len() + 2 {
                            &&& repairs_in(repair_phase)
                            &&& told_fault(more.last()).0 == repair_phase
                            &&& told_fault(more.last()).1.message == repair
                        } else {
                            repair_phase == EpochIoPhase::VerifyLength || repair_phase
                                == EpochIoPhase::VerifyRead
                        }
                    }
                },
                _ => false,
            }
        },
    }
    &&& before.device().reliable() && before.in_step() && before.device().contents().len()
        + records_bytes(frames).len() <= u64::MAX ==> {
        &&& after@.state == FileEpochState::Healthy ==> after.in_step()
        &&& keeps(after.device(), log_bytes(start.history))
        &&& before.device().unfailing() ==> result is Ok
        &&& before.device().logs() && readable(before) && more.len() <= faults.len() + 1
            ==> after@.state == FileEpochState::Healthy
    }
}

/// What an attempt to append an epoch leads to.
pub open spec fn epoch_appended<I: EpochFileIo>(
    before: FileEpochStore<I>,
    after: FileEpochStore<I>,
    frames: Seq<FrameModel>,
    result: Result<(), FileEpochStoreError>,
) -> bool {
    &&& same_device(before.device(), after.device())
    &&& before.wf() ==> after.wf()
    &&& after@.policy == before@.policy
    &&& match epoch_refusal(before@, frames) {
        Some(refusal) => result matches Err(error) && error@ == refusal && after == before,
        None => if frames.len() == 0 {
            result is Ok && after == before
        } else if result matches Err(error) && error@ is Io {
            &&& result->Err_0@ matches EpochErrorModel::Io { phase, source }
            &&& phase == EpochIoPhase::EpochStart
            &&& !before.device().unfailing()
            &&& after@ == before@
            &&& after.device().contents() == before.device().contents()
            &&& before.device().logs() ==> after.device().log().faults
                == before.device().log().faults.push(DeviceFault::Failed(phase, source))
        } else {
            let ready = EpochStoreModel {
                metrics: FileEpochMetrics {
                    epoch_attempts: counted(before@.metrics.epoch_attempts, 1),
                    ..before@.metrics
                },
                ..before@
            };
            epoch_settled(before, ready, after, frames, result)
        },
    }
}

/// A checkpoint of a readable store is what its file is repaired to.
proof fn checkpoint_is_repairable<I: EpochFileIo>(
    store: FileEpochStore<I>,
    checkpoint: EpochCheckpoint,
)
    requires
        checkpoint.frame_count == store@.history.len(),
        (checkpoint.world_id, checkpoint.world_version) == tail_of(store@.history),
        store.wf() ==> checkpoint.prefix_digest == fnv(log_bytes(store@.history)),
    ensures
        readable(store) ==> repaired_fault(checkpoint, log_bytes(store@.history)) is None,
{
    if readable(store) {
        store.wf_is_linked();
        complete_log_reads_back(store@.history, Wording::Inspect);
    }
}

/// An epoch whose records were written and taken in is settled.
proof fn stored_epoch_settles<I: EpochFileIo>(
    before: FileEpochStore<I>,
    written: FileEpochStore<I>,
    after: FileEpochStore<I>,
    frames: Seq<FrameModel>,
    epoch: PreparedEpoch,
)
    requires
        prepared_for(before, frames, epoch),
        written@ == (EpochStoreModel { metrics: written@.metrics, ..before@ }),
        only_writing_counted(before@.metrics, written@.metrics),
        epoch_written(
            before.device(),
            written.device(),
            epoch.checkpoint.start_offset,
            concatenated(epoch.records@),
            true,
        ),
        written.device().synced() == written.device().contents(),
        before.device().logs() ==> written.device().log().faults == before.device().log().faults,
        !before.device().transports() ==> written@.metrics.data_syncs == counted(
            before@.metrics.data_syncs,
            epoch_syncs(before@.policy, epoch.records@.len()),
        ) && written@.metrics.bytes_written == counted(
            before@.metrics.bytes_written,
            concatenated(epoch.records@).len(),
        ),
        before.device().logs() && !before.device().transports() ==> writes_counted(
            before.device().log(),
            written.device().log(),
            before@.metrics.data_writes,
            written@.metrics.data_writes,
        ),
        after.device() == written.device(),
        before.wf() ==> after.wf(),
        after@ == (EpochStoreModel {
            history: before@.history + frames,
            recovered_tail_bytes: 0,
            metrics: FileEpochMetrics {
                epochs_committed: counted(before@.metrics.epochs_committed, 1),
                frames_committed: counted(before@.metrics.frames_committed, frames.len()),
                ..written@.metrics
            },
            ..before@
        }),
    ensures
        epoch_settled(before, before@, after, frames, Ok(())),
{
    records_concat(before@.history, frames);
    concat_assoc(header_bytes(), records_bytes(before@.history), records_bytes(frames));
    let whole = log_bytes(before@.history);
    assert((whole + records_bytes(frames)).take(whole.len() as int) =~= whole);
}

/// An epoch whose records were not written, and were taken back or not, is settled.
proof fn failed_epoch_settles<I: EpochFileIo>(
    before: FileEpochStore<I>,
    written: FileEpochStore<I>,
    after: FileEpochStore<I>,
    frames: Seq<FrameModel>,
    epoch: PreparedEpoch,
    phase: EpochIoPhase,
    source: IoFaultModel,
    error: FileEpochStoreError,
)
    requires
        prepared_for(before, frames, epoch),
        same_device(before.device(), written.device()),
        same_device(written.device(), after.device()),
        before.wf() ==> after.wf(),
        after@.history == before@.history,
        after@.policy == before@.policy,
        after@.recovered_tail_bytes == before@.recovered_tail_bytes,
        after@.metrics.epoch_attempts == before@.metrics.epoch_attempts,
        after@.metrics.epochs_committed == before@.metrics.epochs_committed,
        after@.metrics.frames_committed == before@.metrics.frames_committed,
        after@.metrics.data_writes == written@.metrics.data_writes,
        before.device().logs() ==> after.device().log().writes == written.device().log().writes,
        before.device().logs() && !before.device().transports() ==> writes_counted(
            before.device().log(),
            written.device().log(),
            before@.metrics.data_writes,
            written@.metrics.data_writes,
        ),
        epoch_written(
            before.device(),
            written.device(),
            epoch.checkpoint.start_offset,
            concatenated(epoch.records@),
            false,
        ),
        before.device().logs() ==> {
            let faults = written.device().log().faults;
            &&& faults.len() == before.device().log().faults.len() + 1
            &&& faults.drop_last() == before.device().log().faults
            &&& told_fault(faults.last()) == (phase, source)
            &&& repair_faults(faults, after.device().log().faults)
            &&& match repair_verdict(epoch.checkpoint, faults, after.device().log()) {
                Ok(()) => error@ is EpochRepaired,
                Err((repair_phase, repair)) => error@ == (EpochErrorModel::RepairFailed {
                    primary_phase: phase,
                    primary: source.message,
                    repair_phase,
                    repair,
                }),
            }
        },
        match error@ {
            EpochErrorModel::EpochRepaired { phase: told, source: words } => told == phase && words
                == source && after@.state == FileEpochState::Healthy && after@.poison_reason
                == before@.poison_reason && after@.metrics.repairs_succeeded == counted(
                before@.metrics.repairs_succeeded,
                1,
            ) && after.device().synced() == after.device().contents() && (
            written.device().reliable() && epoch.checkpoint.start_offset
                <= written.device().contents().len() ==> after.device().contents()
                == written.device().contents().take(epoch.checkpoint.start_offset as int)),
            EpochErrorModel::RepairFailed {
                primary_phase,
                primary,
                repair_phase,
                repair,
            } => primary_phase == phase && primary == source.message && after@.state
                == FileEpochState::Poisoned && after@.poison_reason == Some(
                poison_text(primary_phase, primary, repair_phase, repair),
            ) && after@.metrics.repairs_failed == counted(before@.metrics.repairs_failed, 1),
            _ => false,
        },
        written.device().reliable() && epoch.checkpoint.start_offset
            <= written.device().contents().len() ==> {
            let kept = written.device().contents().take(epoch.checkpoint.start_offset as int);
            &&& keeps(after.device(), kept)
            &&& written.device().logs() && after.device().log().faults
                == written.device().log().faults && repaired_fault(epoch.checkpoint, kept) is None
                ==> error@ is EpochRepaired
        },
    ensures
        epoch_settled(before, before@, after, frames, Err(error)),
{
    checkpoint_is_repairable(before, epoch.checkpoint);
    let faults = before.device().log().faults;
    let middle = written.device().log().faults;
    let more = after.device().log().faults;
    if before.device().logs() {
        assert(middle[faults.len() as int] == middle.last());
        if more.len() == middle.len() {
            assert(more == middle);
            assert(more.take(faults.len() as int) =~= faults);
        } else {
            assert(more.drop_last() == middle);
            assert(more[faults.len() as int] == middle[faults.len() as int]);
            assert(more.take(faults.len() as int) =~= faults) by {
                assert(middle.drop_last() =~= more.take(faults.len() as int));
            }
        }
    }
}

/// What is said of a prepared epoch is said of the store before it was prepared.
pub proof fn preparing_changes_nothing<I: EpochFileIo>(
    before: FileEpochStore<I>,
    ready: FileEpochStore<I>,
    after: FileEpochStore<I>,
    frames: Seq<FrameModel>,
    result: Result<(), FileEpochStoreError>,
)
    requires
        frames.len() > 0,
        epoch_refusal(before@, frames) is None,
        same_device(before.device(), ready.device()),
        ready.device().contents() == before.device().contents(),
        ready.wf() == before.wf(),
        ready@ == (EpochStoreModel {
            metrics: FileEpochMetrics {
                epoch_attempts: counted(before@.metrics.epoch_attempts, 1),
                ..before@.metrics
            },
            ..before@
        }),
        before.device().logs() ==> ready.device().log().faults == before.device().log().faults
            && ready.device().log().writes == before.device().log().writes,
        epoch_settled(ready, ready@, after, frames, result),
    ensures
        epoch_appended(before, after, frames, result),
{
}

/// What is said of an epoch on its way is said of the store before it was submitted.
pub proof fn submitting_changes_nothing<I: EpochFileIo>(
    before: FileEpochStore<I>,
    begun: FileEpochStore<I>,
    after: FileEpochStore<I>,
    frames: Seq<FrameModel>,
    result: Result<(), FileEpochStoreError>,
)
    requires
        same_device(before.device(), begun.device()),
        begun.device().contents() == before.device().contents(),
        before.device().logs() ==> begun.device().log() == before.device().log(),
        begun.wf() == before.wf(),
        begun@ == before@,
        epoch_settled(begun, begun@, after, frames, result),
    ensures
        epoch_settled(before, before@, after, frames, result),
{
}

/// A poisoned store refuses every further epoch and stays poisoned.
pub proof fn poison_is_permanent(store: EpochStoreModel, frames: Seq<FrameModel>)
    requires
        store.state == FileEpochState::Poisoned,
    ensures
        epoch_refusal(store, frames) matches Some(EpochErrorModel::StorePoisoned(_)),
{
}

/// Whatever their devices and policies, two stores in step with their files hold the same history
/// exactly when their files hold the same bytes.
pub proof fn equal_histories_have_equal_bytes<I: EpochFileIo, J: EpochFileIo>(
    left: FileEpochStore<I>,
    right: FileEpochStore<J>,
)
    requires
        left.wf(),
        right.wf(),
        left.in_step(),
        right.in_step(),
        all_storable(left@.history),
        all_storable(right@.history),
        left.device().contents().len() <= usize::MAX,
    ensures
        left@.history == right@.history <==> left.device().contents() == right.device().contents(),
{
    left.wf_is_linked();
    right.wf_is_linked();
    if left.device().contents() == right.device().contents() {
        log_bytes_injective(left@.history, right@.history);
    }
}

} // verus!
