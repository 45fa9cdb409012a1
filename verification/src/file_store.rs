//! A store that keeps its history in one log file and makes every frame durable before it counts.

use crate::commit_log::{CommitLog, CommitLogModel, append_refusal};
use crate::database::{CommitStore, Database};
use crate::epoch_io::{DeviceFault, EpochFileIo, EpochIoPhase};
use crate::epoch_store::{keeps, read_history_is_countable, same_device};
use crate::errors::{CandidateErrorModel, FileCommitStoreError, FileErrorModel, IoFault};
use crate::frame::{CommitFrame, FrameModel};
use crate::log_format::{
    RecordModel, Wording, encode_header, header_bytes, linked, log_bytes, read_log, record_at,
    record_bytes, records_bytes, scan,
};
use crate::log_laws::{all_storable, complete_log_reads_back, header_stands, read_log_is_canonical};
use crate::wire::concat_assoc;
use crate::world::{WorldModel, reconstructed, total_operations};
use std::sync::Arc;
use vstd::prelude::*;

verus! {

/// What a file that is opened starts from: an empty file gets a header first.
pub open spec fn started(bytes: Seq<u8>) -> Seq<u8> {
    if bytes.len() == 0 {
        header_bytes()
    } else {
        bytes
    }
}

/// The history in a log file and where it ends, or why the file is refused.
pub open spec fn opened_store(bytes: Seq<u8>) -> Result<(Seq<FrameModel>, int), FileErrorModel> {
    match read_log(bytes, Wording::Open) {
        Err(error) => Err(error),
        Ok((frames, end)) => match reconstructed(frames) {
            Err(error) => Err(FileErrorModel::History(error)),
            Ok(_) => Ok((frames, end)),
        },
    }
}

/// What is wrong with a log file is wrong with its header or one of its records.
proof fn scan_faults_are_records(
    bytes: Seq<u8>,
    offset: int,
    done: Seq<FrameModel>,
    wording: Wording,
)
    ensures
        scan(bytes, offset, done, wording) matches Err(error) ==> error is CorruptFrame,
    decreases bytes.len() - offset,
{
    match record_at(bytes, offset, wording) {
        RecordModel::Complete(frame, next) => {
            if next > offset && offset < bytes.len() {
                scan_faults_are_records(bytes, next, done.push(frame), wording);
            }
        },
        _ => {},
    }
}

/// One more fault is another log.
proof fn longer_logs(faults: Seq<DeviceFault>)
    ensures
        forall|fault: DeviceFault| #[trigger] faults.push(fault) != faults,
{
    assert forall|fault: DeviceFault| #[trigger] faults.push(fault) != faults by {
        assert(faults.push(fault).len() == faults.len() + 1);
    }
}

fn write_out<I: EpochFileIo>(io: &mut I, offset: u64, bytes: &[u8]) -> (result: Result<(), IoFault>)
    ensures
        same_device(*old(io), *final(io)),
        old(io).reliable() && offset == old(io).contents().len() && offset + bytes@.len()
            <= u64::MAX ==> match result {
            Ok(()) => final(io).contents() == old(io).contents() + bytes@,
            Err(_) => keeps(*final(io), old(io).contents()) && !old(io).unfailing(),
        },
        final(io).synced() == old(io).synced(),
        old(io).logs() ==> (result is Ok <==> final(io).log().faults == old(io).log().faults),
{
    let ghost start = io.contents();
    let ghost sound = io.reliable() && offset == start.len() && offset + bytes@.len() <= u64::MAX;
    let mut at: u64 = offset;
    let mut done: usize = 0;
    proof {
        assert(start + bytes@.take(0) =~= start);
    }
    while done < bytes.len()
        invariant
            done <= bytes.len(),
            same_device(*old(io), *io),
            start == old(io).contents(),
            io.synced() == old(io).synced(),
            old(io).logs() ==> io.log().faults == old(io).log().faults,
            sound == (old(io).reliable() && offset == start.len() && offset + bytes@.len()
                <= u64::MAX),
            sound ==> at == offset + done && io.contents() == start + bytes@.take(done as int),
        decreases bytes.len() - done,
    {
        let rest = vstd::slice::slice_subrange(bytes, done, bytes.len());
        let ghost before = io.contents();
        proof {
            longer_logs(io.log().faults);
        }
        match io.write_at(EpochIoPhase::EpochWrite, at, rest) {
            Ok(written) => {
                if written == 0 {
                    proof {
                        if sound {
                            assert(io.contents() =~= before);
                            assert(before.take(start.len() as int) =~= start);
                        }
                    }
                    return Err(
                        IoFault { code: None, message: "failed to write whole buffer".to_owned() },
                    );
                }
                proof {
                    assert(bytes@.take(done as int) + rest@.take(written as int) =~= bytes@.take(
                        done + written,
                    ));
                    concat_assoc(start, bytes@.take(done as int), rest@.take(written as int));
                }
                at = at.wrapping_add(written as u64);
                done = done + written;
            },
            Err(source) => {
                proof {
                    if sound {
                        assert(before.take(start.len() as int) =~= start);
                        assert(io.contents().take(before.len() as int).take(start.len() as int)
                            =~= io.contents().take(start.len() as int));
                    }
                }
                return Err(source);
            },
        }
    }
    proof {
        assert(bytes@.take(done as int) =~= bytes@);
    }
    Ok(())
}

/// Commits one frame at a time to a log file.
pub struct FileCommitStore<I: EpochFileIo> {
    io: I,
    log: CommitLog,
}

impl<I: EpochFileIo> View for FileCommitStore<I> {
    type V = CommitLogModel;

    closed spec fn view(&self) -> CommitLogModel {
        self.log@
    }
}

impl<I: EpochFileIo> FileCommitStore<I> {
    /// The device that the store writes to.
    pub closed spec fn device(&self) -> I {
        self.io
    }

    /// The file holds exactly the history.
    pub open spec fn in_step(&self) -> bool {
        self.device().contents() == log_bytes(self@.history)
    }

    /// What a restart finds in the file is the history.
    pub open spec fn sound(&self) -> bool {
        self.device().reliable() && self.in_step() && linked(self@.history)
    }

    /// A record fits behind what the file holds, and the device neither fails nor misleads.
    pub open spec fn owes(&self, frame: FrameModel) -> bool {
        &&& self.device().reliable()
        &&& self.device().unfailing()
        &&& self.device().contents().len() + record_bytes(frame).len() <= u64::MAX
    }

    /// Opens the log that a device holds, or starts one on an empty device. An incomplete record
    /// at the end is cut off. Where the log is refused, the device is handed back; a file that
    /// cannot be read is left as it was.
    pub fn open(io: I) -> (result: Result<Self, (I, FileCommitStoreError)>)
        ensures
            match result {
                Ok(store) => {
                    &&& same_device(io, store.device())
                    &&& linked(store@.history)
                    &&& reconstructed(store@.history) is Ok
                    &&& store.stored() == store@.history
                    &&& total_operations(store.stored()) < usize::MAX
                    &&& io.reliable() ==> {
                        let bytes = started(io.contents());
                        let end = bytes.len() - store@.recovered_tail_bytes;
                        opened_store(bytes) == Ok::<(Seq<FrameModel>, int), FileErrorModel>(
                            (store@.history, end),
                        ) && store.device().contents() == bytes.take(end) && store.in_step()
                    }
                },
                Err((device, error)) => {
                    &&& same_device(io, device)
                    &&& match error@ {
                        FileErrorModel::Io(_) => !io.unfailing() || !io.reliable(),
                        FileErrorModel::NonLinearAppend(_) => false,
                        other => io.reliable() ==> {
                            let bytes = started(io.contents());
                            &&& opened_store(bytes) == Err::<
                                (Seq<FrameModel>, int),
                                FileErrorModel,
                            >(other)
                            &&& match read_log(bytes, Wording::Open) {
                                Err(_) => device.contents() == bytes,
                                Ok((_, end)) => device.contents() == bytes.take(end),
                            }
                        },
                    }
                },
            },
    {
        let mut io = io;
        match Self::open_log_on(&mut io) {
            Ok(log) => Ok(FileCommitStore { io, log }),
            Err(error) => Err((io, error)),
        }
    }

    /// Reads the log that a device holds, and cuts off an incomplete record at its end.
    fn open_log_on(io: &mut I) -> (result: Result<CommitLog, FileCommitStoreError>)
        ensures
            same_device(*old(io), *final(io)),
            match result {
                Ok(log) => {
                    &&& linked(log@.history)
                    &&& reconstructed(log@.history) is Ok
                    &&& total_operations(log@.history) < usize::MAX
                    &&& old(io).reliable() ==> {
                        let bytes = started(old(io).contents());
                        let end = bytes.len() - log@.recovered_tail_bytes;
                        opened_store(bytes) == Ok::<(Seq<FrameModel>, int), FileErrorModel>(
                            (log@.history, end),
                        ) && final(io).contents() == bytes.take(end) && bytes.take(end)
                            == log_bytes(log@.history)
                    }
                },
                Err(error) => match error@ {
                    FileErrorModel::Io(_) => !old(io).unfailing() || !old(io).reliable(),
                    FileErrorModel::NonLinearAppend(_) => false,
                    other => old(io).reliable() ==> {
                        let bytes = started(old(io).contents());
                        &&& opened_store(bytes) == Err::<(Seq<FrameModel>, int), FileErrorModel>(
                            other,
                        )
                        &&& match read_log(bytes, Wording::Open) {
                            Err(_) => final(io).contents() == bytes,
                            Ok((_, end)) => final(io).contents() == bytes.take(end),
                        }
                    },
                },
            },
    {
        let length: u64 = match io.len(EpochIoPhase::EpochStart) {
            Ok(length) => length,
            Err(source) => {
                return Err(FileCommitStoreError::Io(source));
            },
        };
        if length == 0 {
            let header = encode_header();
            proof {
                header_stands(Seq::empty(), Wording::Open);
                if io.reliable() {
                    assert(io.contents() + header@ =~= header@);
                }
            }
            match write_out(io, 0, header.as_slice()) {
                Ok(()) => {},
                Err(source) => {
                    return Err(FileCommitStoreError::Io(source));
                },
            }
            match io.sync_data(EpochIoPhase::EpochSync) {
                Ok(()) => {},
                Err(source) => {
                    return Err(FileCommitStoreError::Io(source));
                },
            }
        }
        let bytes = match io.read_all(EpochIoPhase::VerifyRead) {
            Ok(bytes) => bytes,
            Err(source) => {
                return Err(FileCommitStoreError::Io(source));
            },
        };
        let length: usize = bytes.len();
        proof {
            read_history_is_countable(bytes@, Wording::Open);
            read_log_is_canonical(bytes@, Wording::Open);
            scan_faults_are_records(bytes@, 16, Seq::empty(), Wording::Open);
        }
        let (log, keep) = CommitLog::recover(bytes.as_slice())?;
        if keep < length {
            match io.set_len(EpochIoPhase::RepairTruncate, keep as u64) {
                Ok(()) => {},
                Err(source) => {
                    return Err(FileCommitStoreError::Io(source));
                },
            }
            match io.sync_data(EpochIoPhase::RepairSync) {
                Ok(()) => {},
                Err(source) => {
                    return Err(FileCommitStoreError::Io(source));
                },
            }
        }
        proof {
            if old(io).reliable() {
                assert(io.contents() =~= bytes@.take(keep as int));
            }
        }
        log.verify()?;
        Ok(log)
    }

    pub fn recovered_tail_bytes(&self) -> (result: u64)
        ensures
            result == self@.recovered_tail_bytes,
    {
        self.log.recovered_tail_bytes()
    }

    pub fn file_len(&mut self) -> (result: Result<u64, IoFault>)
        ensures
            same_device(old(self).device(), final(self).device()),
            final(self)@ == old(self)@,
            final(self).device().contents() == old(self).device().contents(),
            match result {
                Ok(length) => old(self).device().reliable() ==> length == old(
                    self,
                ).device().contents().len(),
                Err(_) => !old(self).device().unfailing(),
            },
    {
        self.io.len(EpochIoPhase::VerifyLength)
    }

    /// Gives up the device.
    pub fn into_io(self) -> (result: I)
        ensures
            result == self.device(),
    {
        self.io
    }

    /// Cuts off what a failed append may have written, as far as the device lets it.
    fn rollback_failed_append(&mut self, start: u64)
        ensures
            same_device(old(self).device(), final(self).device()),
            final(self)@ == old(self)@,
            old(self).device().reliable() && start <= old(self).device().contents().len()
                ==> keeps(
                final(self).device(),
                old(self).device().contents().take(start as int),
            ),
    {
        let _ = self.io.set_len(EpochIoPhase::RepairTruncate, start);
        let _ = self.io.sync_data(EpochIoPhase::RepairSync);
    }

    /// Writes a record behind what the file holds and makes it durable, or cuts it off again.
    fn write_record(&mut self, start: u64, record: &[u8]) -> (result: Result<(), IoFault>)
        ensures
            same_device(old(self).device(), final(self).device()),
            final(self)@ == old(self)@,
            old(self).device().reliable() && start == old(self).device().contents().len() && start
                + record@.len() <= u64::MAX ==> match result {
                Ok(()) => final(self).device().contents() == old(self).device().contents()
                    + record@,
                Err(_) => keeps(final(self).device(), old(self).device().contents()) && !old(
                    self,
                ).device().unfailing(),
            },
            result is Ok ==> final(self).device().synced() == final(self).device().contents(),
            old(self).device().logs() && result is Ok ==> final(self).device().log().faults == old(
                self,
            ).device().log().faults,
    {
        proof {
            longer_logs(self.device().log().faults);
        }
        let ghost whole = self.device().contents();
        let written = write_out(&mut self.io, start, record);
        match written {
            Ok(()) => {},
            Err(source) => {
                self.rollback_failed_append(start);
                return Err(source);
            },
        }
        let synchronized = self.io.sync_data(EpochIoPhase::EpochSync);
        match synchronized {
            Ok(()) => Ok(()),
            Err(source) => {
                proof {
                    assert((whole + record@).take(whole.len() as int) =~= whole);
                }
                self.rollback_failed_append(start);
                Err(source)
            },
        }
    }

    /// Writes the record of a frame and makes it durable; only then the frame is part of the
    /// history.
    pub fn append_frame(&mut self, frame: Arc<CommitFrame>) -> (result: Result<
        (),
        FileCommitStoreError,
    >)
        ensures
            same_device(old(self).device(), final(self).device()),
            match append_refusal(old(self)@.history, frame@) {
                Some(refusal) => result matches Err(error) && error@ == refusal && final(self)@
                    == old(self)@ && final(self).device() == old(self).device(),
                None => match result {
                    Ok(()) => final(self)@ == (CommitLogModel {
                        history: old(self)@.history.push(frame@),
                        recovered_tail_bytes: 0,
                    }),
                    Err(error) => error@ is Io && final(self)@ == old(self)@ && !old(self).owes(
                        frame@,
                    ),
                },
            },
            old(self).sound() && result is Ok ==> final(self).sound(),
            old(self).sound() && result is Err ==> keeps(
                final(self).device(),
                log_bytes(old(self)@.history),
            ),
            result is Ok ==> final(self).device().synced() == final(self).device().contents(),
            old(self).device().logs() && result is Ok ==> final(self).device().log().faults == old(
                self,
            ).device().log().faults,
    {
        proof {
            let whole = self.device().contents();
            assert(whole.take(whole.len() as int) =~= whole);
        }
        let record = self.log.prepare(&frame)?;
        let start: u64 = match self.io.len(EpochIoPhase::EpochStart) {
            Ok(start) => start,
            Err(source) => {
                return Err(FileCommitStoreError::Io(source));
            },
        };
        if record.len() as u64 > u64::MAX - start {
            return Err(
                FileCommitStoreError::Io(
                    IoFault { code: None, message: "file would be too long".to_owned() },
                ),
            );
        }
        match self.write_record(start, record.as_slice()) {
            Ok(()) => {},
            Err(source) => {
                return Err(FileCommitStoreError::Io(source));
            },
        }
        proof {
            assert(self@.history.push(frame@).drop_last() =~= self@.history);
            concat_assoc(header_bytes(), records_bytes(self@.history), record_bytes(frame@));
        }
        self.log.appended(frame);
        Ok(())
    }
}

impl<I: EpochFileIo> CommitStore for FileCommitStore<I> {
    type Error = FileCommitStoreError;

    closed spec fn stored(&self) -> Seq<FrameModel> {
        self@.history
    }

    closed spec fn may_fail(&self, frame: FrameModel) -> bool {
        append_refusal(self@.history, frame) is Some || !self.owes(frame)
    }

    closed spec fn recoverable(&self) -> bool {
        self.sound()
    }

    closed spec fn flushed(&self) -> bool {
        self.device().synced() == self.device().contents()
    }

    fn append(&mut self, frame: Arc<CommitFrame>) -> (result: Result<(), FileCommitStoreError>) {
        self.append_frame(frame)
    }

    fn frames(&self) -> (result: Vec<Arc<CommitFrame>>) {
        self.log.frames()
    }

    fn len(&self) -> (result: usize) {
        self.log.len()
    }
}

impl<I: EpochFileIo> FileCommitStore<I> {
    /// What is stored is the history, a sound store is recoverable, and a store fails only for cause.
    pub proof fn stores_history(&self)
        ensures
            self.stored() == self@.history,
            self.recoverable() == self.sound(),
            self.flushed() == (self.device().synced() == self.device().contents()),
            forall|frame: FrameModel|
                #[trigger] self.may_fail(frame) == (append_refusal(self@.history, frame) is Some
                    || !self.owes(frame)),
    {
    }
}

/// Opening the file of a store again gives the history that the store holds, and cuts nothing off.
pub proof fn stores_reopen<I: EpochFileIo>(store: FileCommitStore<I>)
    requires
        store.sound(),
        all_storable(store@.history),
        reconstructed(store@.history) is Ok,
        store.device().contents().len() <= usize::MAX,
    ensures
        opened_store(started(store.device().contents())) == Ok::<
            (Seq<FrameModel>, int),
            FileErrorModel,
        >((store@.history, store.device().contents().len() as int)),
{
    complete_log_reads_back(store@.history, Wording::Open);
    header_stands(Seq::empty(), Wording::Open);
}

/// Whenever a database stops, its file holds the history of the published world: opening the file
/// and replaying what it holds gives that world. After a commit, what the file holds is durable.
pub proof fn restarts_recover_the_world<I: EpochFileIo>(database: Database<FileCommitStore<I>>)
    requires
        database.sound(),
        database.backing().recoverable(),
        all_storable(database.log()),
        database.backing().device().contents().len() <= usize::MAX,
    ensures
        opened_store(started(database.backing().device().contents())) matches Ok((history, _))
            && history == database.log() && reconstructed(history) == Ok::<
            WorldModel,
            CandidateErrorModel,
        >(database.world()),
        database.backing().flushed() ==> database.backing().device().synced()
            == database.backing().device().contents(),
{
    database.log_is_stored();
    database.backing().stores_history();
    stores_reopen(database.backing());
}

} // verus!
