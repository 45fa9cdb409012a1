//! Which frames a store takes, what it calls durable, and when a repair is believed.

use crate::digest::fnv;
use crate::epoch_io::{
    DeviceFault, DeviceLog, EpochFileIo, EpochIoPhase, EpochPersistMetrics, FileEpochMetrics,
    FileEpochState, FileEpochSyncPolicy, concatenated, counted, counted_twice, with_transport,
};
use crate::epoch_store::{
    EpochCheckpoint, EpochErrorModel, EpochStoreModel, FileEpochStore, FileEpochStoreError,
    PreparedEpoch, epoch_appended, epoch_fault, epoch_refusal, epoch_syncs, opened_log,
    oversize_fault, prepared_for, repair_verdict, tail_after,
};
use crate::errors::FileErrorModel;
use crate::file_store::{opened_store, started};
use crate::frame::{FrameModel, WorldId, payload_bytes};
use crate::log_format::{
    Wording, append_fault, header_bytes, linked, log_bytes, read_log, records_bytes, tail_of,
};
use crate::log_laws::read_log_is_canonical;
use crate::ring::{
    Completion, FSYNC_USER_DATA, WRITE_USER_DATA, commit_fault, completed, vector_limit,
};
use crate::wire::whole_stands;
use crate::world::reconstructed;
use vstd::prelude::*;

verus! {

/// A frame stands where it is: its parent is what stands in front of it, and it is one version on.
pub open spec fn stands_behind(
    tail: (WorldId, u64),
    frames: Seq<FrameModel>,
    k: int,
) -> bool {
    &&& frames[k].parent_world == if k == 0 {
        tail.0
    } else {
        frames[k - 1].resulting_world
    }
    &&& frames[k].parent_version == if k == 0 {
        tail.1
    } else {
        frames[k - 1].resulting_version
    }
    &&& frames[k].resulting_version == frames[k].parent_version + 1
}

proof fn epoch_faults_by_position(tail: (WorldId, u64), frames: Seq<FrameModel>)
    ensures
        epoch_fault(tail, frames) is None <==> forall|k: int|
            0 <= k < frames.len() ==> #[trigger] stands_behind(tail, frames, k),
        oversize_fault(frames) is None <==> forall|k: int|
            0 <= k < frames.len() ==> payload_bytes(#[trigger] frames[k]).len() <= 67_108_864,
    decreases frames.len(),
{
    if frames.len() > 0 {
        let front = frames.drop_last();
        let last = frames.len() - 1;
        epoch_faults_by_position(tail, front);
        assert forall|k: int| 0 <= k < front.len() implies #[trigger] stands_behind(
            tail,
            frames,
            k,
        ) == stands_behind(tail, front, k) by {
            assert(frames[k] == front[k]);
            if k > 0 {
                assert(frames[k - 1] == front[k - 1]);
            }
        }
        if front.len() > 0 {
            assert(front.last() == frames[last - 1]);
        }
        assert(append_fault(tail_after(tail, front), frames.last()) is None <==> stands_behind(
            tail,
            frames,
            last,
        ));
        if forall|k: int| 0 <= k < frames.len() ==> #[trigger] stands_behind(tail, frames, k) {
            assert forall|k: int| 0 <= k < front.len() implies #[trigger] stands_behind(
                tail,
                front,
                k,
            ) by {
                assert(stands_behind(tail, frames, k));
            }
            assert(stands_behind(tail, frames, last));
        }
        if epoch_fault(tail, frames) is None {
            assert forall|k: int| 0 <= k < frames.len() implies #[trigger] stands_behind(
                tail,
                frames,
                k,
            ) by {
                if k < last {
                    assert(stands_behind(tail, front, k));
                }
            }
        }
        if forall|k: int|
            0 <= k < frames.len() ==> payload_bytes(#[trigger] frames[k]).len() <= 67_108_864 {
            assert forall|k: int| 0 <= k < front.len() implies payload_bytes(
                #[trigger] front[k],
            ).len() <= 67_108_864 by {
                assert(frames[k] == front[k]);
            }
            assert(payload_bytes(frames[last]).len() <= 67_108_864);
        }
        if oversize_fault(frames) is None {
            assert forall|k: int| 0 <= k < frames.len() implies payload_bytes(
                #[trigger] frames[k],
            ).len() <= 67_108_864 by {
                if k < last {
                    assert(frames[k] == front[k]);
                }
            }
        }
    }
}

/// A store that is healthy takes an epoch exactly if each of its frames, wherever it stands in the
/// epoch, continues what stands in front of it and is no longer than a record may be. A store that
/// is not healthy takes none.
pub proof fn epochs_are_taken_whole(store: EpochStoreModel, frames: Seq<FrameModel>)
    ensures
        epoch_refusal(store, frames) is None <==> {
            &&& store.state == FileEpochState::Healthy
            &&& forall|k: int|
                0 <= k < frames.len() ==> #[trigger] stands_behind(
                    tail_of(store.history),
                    frames,
                    k,
                )
            &&& forall|k: int|
                0 <= k < frames.len() ==> payload_bytes(#[trigger] frames[k]).len() <= 67_108_864
        },
        store.state != FileEpochState::Healthy <==> epoch_refusal(store, frames) matches Some(
            EpochErrorModel::StorePoisoned(_),
        ),
        store.history.len() == 0 ==> tail_of(store.history) == (
            WorldId(0xcbf2_9ce4_8422_2325),
            0u64,
        ),
        store.history.len() > 0 ==> tail_of(store.history) == (
            store.history.last().resulting_world,
            store.history.last().resulting_version,
        ),
{
    epoch_faults_by_position(tail_of(store.history), frames);
}

/// A linear history: each frame continues the one in front of it, and the first the beginning.
pub proof fn linear_histories_have_no_gaps(history: Seq<FrameModel>)
    ensures
        linked(history) <==> forall|k: int|
            0 <= k < history.len() ==> #[trigger] stands_behind(
                (WorldId(0xcbf2_9ce4_8422_2325), 0u64),
                history,
                k,
            ),
        linked(history) ==> forall|k: int|
            0 <= k < history.len() ==> (#[trigger] history[k]).resulting_version == k + 1,
    decreases history.len(),
{
    let start = (WorldId(0xcbf2_9ce4_8422_2325), 0u64);
    epoch_faults_by_position(start, history);
    if history.len() > 0 {
        let front = history.drop_last();
        let last = history.len() - 1;
        linear_histories_have_no_gaps(front);
        epoch_faults_by_position(start, front);
        if front.len() > 0 {
            assert(front.last() == history[last - 1]);
        }
        assert(tail_of(front) == tail_after(start, front));
        if linked(history) {
            assert forall|k: int| 0 <= k < history.len() implies (
            #[trigger] history[k]).resulting_version == k + 1 by {
                if k < last {
                    assert(history[k] == front[k]);
                } else if k > 0 {
                    assert(front[last - 1].resulting_version == last);
                }
            }
        }
    }
}

/// What a repair is believed on: exactly where no call failed, the length and the digest are those of
/// the checkpoint, and the bytes are a whole log of as many frames that leads to the same world.
pub proof fn repairs_are_verified(
    checkpoint: EpochCheckpoint,
    before: Seq<DeviceFault>,
    log: DeviceLog,
)
    ensures
        repair_verdict(checkpoint, before, log) is Ok <==> {
            &&& log.faults.len() <= before.len()
            &&& log.length == checkpoint.start_offset
            &&& fnv(log.bytes) == checkpoint.prefix_digest
            &&& read_log(log.bytes, Wording::Inspect) matches Ok((frames, end)) && end
                == log.bytes.len() && frames.len() == checkpoint.frame_count && tail_of(frames) == (
                checkpoint.world_id,
                checkpoint.world_version,
            ) && reconstructed(frames) is Ok
        },
        repair_verdict(checkpoint, before, log) matches Err((phase, text)) ==> {
            &&& log.faults.len() > before.len() ==> match log.faults.last() {
                DeviceFault::Failed(own, source) => phase == own && text == source.message,
                DeviceFault::Stalled(own) => phase == own,
            }
            &&& log.faults.len() <= before.len() && log.length != checkpoint.start_offset ==> phase
                == EpochIoPhase::VerifyLength
            &&& log.faults.len() <= before.len() && log.length == checkpoint.start_offset ==> phase
                == EpochIoPhase::VerifyRead
        },
{
}

/// A log opens exactly if all of its bytes are records and its history is sound; and what it opens to
/// is the history whose file those bytes are.
pub proof fn opened_logs_are_whole(bytes: Seq<u8>)
    requires
        bytes.len() <= usize::MAX,
    ensures
        opened_log(bytes) matches Ok(frames) ==> bytes == log_bytes(frames) && linked(frames)
            && reconstructed(frames) is Ok,
        opened_log(bytes) is Ok <==> (read_log(bytes, Wording::Inspect) matches Ok((frames, end))
            && end == bytes.len() && reconstructed(frames) is Ok),
{
    if opened_log(bytes) is Ok {
        read_log_is_canonical(bytes, Wording::Inspect);
        whole_stands(bytes);
    }
}

/// A file opens with the records in front of its torn end, if their history is sound; an empty file
/// starts with the mark, the version and no flags.
pub proof fn opened_files_are_sound(bytes: Seq<u8>)
    ensures
        opened_store(bytes) is Ok <==> (read_log(bytes, Wording::Open) matches Ok((frames, _))
            && reconstructed(frames) is Ok),
        opened_store(bytes) matches Ok(found) ==> read_log(bytes, Wording::Open) == Ok::<
            (Seq<FrameModel>, int),
            FileErrorModel,
        >(found),
        bytes.len() > 0 ==> started(bytes) == bytes,
        bytes.len() == 0 ==> started(bytes) == log_bytes(Seq::<FrameModel>::empty()),
{
    let none: Seq<FrameModel> = Seq::empty();
    assert(log_bytes(none) =~= header_bytes());
}

/// What the completions of a ring mean: a record is durable exactly if there is a completion of its
/// write that took all of it and one of the synchronization that found nothing wrong. The file is cut
/// back exactly if both completions are there and one of them is bad.
pub proof fn commits_need_both_completions(completions: Seq<Completion>, length: int)
    requires
        length >= 0,
        forall|i: int, j: int|
            0 <= i < j < completions.len() ==> (#[trigger] completions[i]).user_data != (
            #[trigger] completions[j]).user_data,
    ensures
        commit_fault(completions, length) is None <==> {
            &&& exists|i: int|
                0 <= i < completions.len() && (#[trigger] completions[i]).user_data
                    == WRITE_USER_DATA && completions[i].result == length
            &&& exists|i: int|
                0 <= i < completions.len() && (#[trigger] completions[i]).user_data
                    == FSYNC_USER_DATA && completions[i].result == 0
        },
        commit_fault(completions, length) matches Some((_, rollback)) ==> (rollback <==> {
            &&& exists|i: int|
                0 <= i < completions.len() && (#[trigger] completions[i]).user_data
                    == WRITE_USER_DATA
            &&& exists|i: int|
                0 <= i < completions.len() && (#[trigger] completions[i]).user_data
                    == FSYNC_USER_DATA
        }),
        WRITE_USER_DATA != FSYNC_USER_DATA,
{
    completions_are_found(completions, WRITE_USER_DATA);
    completions_are_found(completions, FSYNC_USER_DATA);
}

/// The last completion with a tag is the one that counts.
pub proof fn completions_are_found(completions: Seq<Completion>, tag: u64)
    ensures
        match completed(completions, tag) {
            Some(result) => exists|i: int|
                0 <= i < completions.len() && (#[trigger] completions[i]).user_data == tag
                    && completions[i].result == result && forall|j: int|
                    i < j < completions.len() ==> (#[trigger] completions[j]).user_data != tag,
            None => forall|i: int|
                0 <= i < completions.len() ==> (#[trigger] completions[i]).user_data != tag,
        },
    decreases completions.len(),
{
    if completions.len() > 0 {
        let front = completions.drop_last();
        let last = completions.len() - 1;
        completions_are_found(front, tag);
        assert(completions[last] == completions.last());
        if completions.last().user_data != tag {
            match completed(front, tag) {
                Some(result) => {
                    let i = choose|i: int|
                        0 <= i < front.len() && (#[trigger] front[i]).user_data == tag
                            && front[i].result == result && forall|j: int|
                            i < j < front.len() ==> (#[trigger] front[j]).user_data != tag;
                    assert(completions[i] == front[i]);
                    assert forall|j: int| i < j < completions.len() implies (
                    #[trigger] completions[j]).user_data != tag by {
                        if j < last {
                            assert(completions[j] == front[j]);
                        }
                    }
                },
                None => {
                    assert forall|i: int| 0 <= i < completions.len() implies (
                    #[trigger] completions[i]).user_data != tag by {
                        if i < last {
                            assert(completions[i] == front[i]);
                        }
                    }
                },
            }
        }
    }
}

/// How often an epoch is synchronized: once, or once for each frame.
pub proof fn synchronizations_follow_the_policy(frames: nat)
    ensures
        epoch_syncs(FileEpochSyncPolicy::PerEpoch, frames) == 1,
        epoch_syncs(FileEpochSyncPolicy::PerFrame, frames) == frames,
{
}

/// Every record of an epoch stands whole in the buffer that is written, behind those in front of it.
pub proof fn buffers_hold_their_records(records: Seq<Vec<u8>>, index: int)
    requires
        0 <= index < records.len(),
    ensures
        ({
            let at = concatenated(records.take(index)).len() as int;
            &&& at + records[index]@.len() <= concatenated(records).len()
            &&& concatenated(records).subrange(at, at + records[index]@.len() as int)
                == records[index]@
            &&& index == 0 ==> at == 0
            &&& index == records.len() - 1 ==> at + records[index]@.len() == concatenated(
                records,
            ).len()
        }),
    decreases records.len(),
{
    let front = records.drop_last();
    let last = records.len() - 1;
    let at = concatenated(records.take(index)).len() as int;
    if index == last {
        assert(records.take(index) =~= front);
        assert(concatenated(records).subrange(at, at + records[index]@.len() as int)
            =~= records[index]@);
    } else {
        buffers_hold_their_records(front, index);
        assert(front.take(index) =~= records.take(index));
        assert(concatenated(records).subrange(at, at + records[index]@.len() as int)
            =~= concatenated(front).subrange(at, at + records[index]@.len() as int));
    }
    if index == 0 {
        assert(records.take(0) =~= Seq::empty());
    }
}

/// The counts of a transport are added one by one, and the most writes at once is the larger of the
/// two.
pub proof fn transports_are_added(metrics: FileEpochMetrics, transport: EpochPersistMetrics)
    ensures
        ({
            let after = with_transport(metrics, transport);
            let modulus: int = 0x1_0000_0000_0000_0000;
            &&& after.data_writes == (metrics.data_writes + transport.data_writes) % modulus
            &&& after.data_syncs == (metrics.data_syncs + transport.data_syncs) % modulus
            &&& after.bytes_written == (metrics.bytes_written + transport.bytes_written) % modulus
            &&& after.submission_calls == (metrics.submission_calls + transport.submission_calls)
                % modulus
            &&& after.completion_events == (metrics.completion_events
                + transport.completion_events) % modulus
            &&& after.iovecs_submitted == (metrics.iovecs_submitted + transport.iovecs_submitted)
                % modulus
            &&& after.arena_bytes_copied == (metrics.arena_bytes_copied
                + transport.arena_bytes_copied) % modulus
            &&& after.maximum_in_flight_writes >= metrics.maximum_in_flight_writes
            &&& after.maximum_in_flight_writes >= transport.maximum_in_flight_writes
            &&& after.maximum_in_flight_writes == metrics.maximum_in_flight_writes
                || after.maximum_in_flight_writes == transport.maximum_in_flight_writes
            &&& after.epoch_attempts == metrics.epoch_attempts
            &&& after.epochs_committed == metrics.epochs_committed
            &&& after.frames_committed == metrics.frames_committed
            &&& after.repairs_succeeded == metrics.repairs_succeeded
            &&& after.repairs_failed == metrics.repairs_failed
        }),
{
}

/// Counting goes round at the largest number and loses nothing before.
pub proof fn counts_add_up(start: u64, first: nat, second: nat)
    ensures
        start + first <= u64::MAX ==> counted(start, first) == start + first,
        counted(counted(start, first), second) == counted(start, first + second),
        counted(u64::MAX, 1) == 0,
{
    counted_twice(start, first, second);
}

/// An epoch is stored whole or not at all. A store that says that it stored one has all its frames
/// behind its history, in order, and its device has synchronized everything; one that does not has the
/// history that it had. What it says tells which of the two, and whether the store still takes
/// epochs: a refusal and a repair leave it healthy if it was, a repair that failed poisons it.
pub proof fn appends_are_all_or_nothing<I: EpochFileIo>(
    before: FileEpochStore<I>,
    after: FileEpochStore<I>,
    frames: Seq<FrameModel>,
    result: Result<(), FileEpochStoreError>,
)
    requires
        epoch_appended(before, after, frames, result),
    ensures
        result is Ok ==> after@.history == before@.history + frames,
        result is Err ==> after@.history == before@.history,
        result is Ok && frames.len() > 0 ==> {
            &&& after.device().synced() == after.device().contents()
            &&& after@.state == FileEpochState::Healthy
            &&& before.device().logs() ==> after.device().log().faults
                == before.device().log().faults
        },
        before@.state != FileEpochState::Healthy ==> result is Err && after == before,
        result matches Err(error) ==> match error@ {
            EpochErrorModel::EpochRepaired { .. } => after@.state == FileEpochState::Healthy,
            EpochErrorModel::RepairFailed { .. } => after@.state == FileEpochState::Poisoned
                && after@.poison_reason is Some,
            EpochErrorModel::Io { .. } => after@ == before@,
            EpochErrorModel::File(_) | EpochErrorModel::StorePoisoned(_) => after == before,
            EpochErrorModel::Verification(_) => false,
        },
        before.device().reliable() && before.in_step() && before.device().contents().len()
            + records_bytes(frames).len() <= u64::MAX ==> {
            &&& after@.state == FileEpochState::Healthy ==> after.in_step()
            &&& before.device().unfailing() && before@.state == FileEpochState::Healthy && (
            forall|k: int|
                0 <= k < frames.len() ==> #[trigger] stands_behind(
                    tail_of(before@.history),
                    frames,
                    k,
                )) && (forall|k: int|
                0 <= k < frames.len() ==> payload_bytes(#[trigger] frames[k]).len() <= 67_108_864)
                ==> result is Ok
        },
        after@.policy == before@.policy,
{
    epochs_are_taken_whole(before@, frames);
    if frames.len() == 0 {
        assert(before@.history + frames =~= before@.history);
    }
}

/// What is laid out for an epoch: a record for each frame, in order, and a checkpoint that says how
/// the store is without it.
pub proof fn prepared_epochs_hold_their_records<I: EpochFileIo>(
    store: FileEpochStore<I>,
    frames: Seq<FrameModel>,
    epoch: PreparedEpoch,
)
    requires
        prepared_for(store, frames, epoch),
    ensures
        concatenated(epoch.records@) == records_bytes(frames),
        epoch.records@.len() == frames.len(),
        epoch.checkpoint.frame_count == store@.history.len(),
        store@.history.len() > 0 ==> epoch.checkpoint.world_id
            == store@.history.last().resulting_world && epoch.checkpoint.world_version
            == store@.history.last().resulting_version,
        store@.history.len() == 0 ==> epoch.checkpoint.world_id == WorldId(0xcbf2_9ce4_8422_2325)
            && epoch.checkpoint.world_version == 0,
        store.wf() ==> epoch.checkpoint.prefix_digest == fnv(log_bytes(store@.history)),
        store.device().reliable() ==> epoch.checkpoint.start_offset
            == store.device().contents().len(),
        store@.state == FileEpochState::Healthy,
{
    epochs_are_taken_whole(store@, frames);
}

/// A vectored write carries as many buffers as the machine says, or 1024 where it says nothing.
pub proof fn vectors_are_limited(reported: i64)
    ensures
        reported > 0 ==> vector_limit(reported) == reported,
        reported <= 0 ==> vector_limit(reported) == 1024,
{
}

} // verus!
