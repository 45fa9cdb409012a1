//! A commit log that takes one frame at a time: what to keep of a file that is opened, and what
//! to write for a frame.

use crate::errors::{FileCommitStoreError, FileErrorModel};
use crate::fact::{views, views_push};
use crate::frame::{CommitFrame, FrameModel, payload_bytes, share_all};
use crate::log_format::{
    MAX_FRAME_BYTES, Wording, append_fault, decode_file, encode_record, header_bytes, linked,
    log_bytes, oversize_text, read_log, record_bytes, records_bytes, tail_of, validate_append,
};
use crate::log_laws::read_log_is_canonical;
use crate::wire::concat_assoc;
use crate::world::{World, reconstructed, total_operations};
use std::sync::Arc;
use vstd::prelude::*;

verus! {

/// The frames of an open log, and how many bytes of it were cut off.
pub struct CommitLog {
    frames: Vec<Arc<CommitFrame>>,
    recovered_tail_bytes: u64,
}

/// Mathematical value of a [`CommitLog`].
pub struct CommitLogModel {
    pub history: Seq<FrameModel>,
    pub recovered_tail_bytes: u64,
}

impl View for CommitLog {
    type V = CommitLogModel;

    closed spec fn view(&self) -> CommitLogModel {
        CommitLogModel {
            history: views(self.frames@),
            recovered_tail_bytes: self.recovered_tail_bytes,
        }
    }
}

/// Why a frame is not appended.
pub open spec fn append_refusal(history: Seq<FrameModel>, frame: FrameModel) -> Option<
    FileErrorModel,
> {
    match append_fault(tail_of(history), frame) {
        Some(reason) => Some(FileErrorModel::NonLinearAppend(reason)),
        None => if payload_bytes(frame).len() > MAX_FRAME_BYTES {
            Some(FileErrorModel::NonLinearAppend(oversize_text(payload_bytes(frame).len())))
        } else {
            None
        },
    }
}

impl CommitLog {
    /// Reads the bytes of a log file: the log, and the length to which the file is to be cut.
    pub fn recover(bytes: &[u8]) -> (result: Result<(Self, usize), FileCommitStoreError>)
        ensures
            match (result, read_log(bytes@, Wording::Open)) {
                (Ok((log, keep)), Ok((frames, end))) => log@.history == frames && keep == end && keep
                    <= bytes.len() && log@.recovered_tail_bytes == bytes.len() - end
                    && bytes@.take(end) == log_bytes(frames),
                (Err(error), Err(model)) => error@ == model,
                _ => false,
            },
    {
        let (frames, keep) = decode_file(bytes)?;
        proof {
            read_log_is_canonical(bytes@, Wording::Open);
        }
        let recovered_tail_bytes: u64 = (bytes.len() - keep) as u64;
        Ok((CommitLog { frames, recovered_tail_bytes }, keep))
    }

    /// Checks that the history rebuilds a world.
    pub fn verify(&self) -> (result: Result<(), FileCommitStoreError>)
        requires
            total_operations(self@.history) < usize::MAX,
        ensures
            match reconstructed(self@.history) {
                Ok(_) => result is Ok,
                Err(error) => result matches Err(found) && found@ == FileErrorModel::History(error),
            },
    {
        match World::reconstruct(self.frames.as_slice()) {
            Ok(_) => Ok(()),
            Err(error) => Err(FileCommitStoreError::History(error)),
        }
    }

    pub fn recovered_tail_bytes(&self) -> (result: u64)
        ensures
            result == self@.recovered_tail_bytes,
    {
        self.recovered_tail_bytes
    }

    pub fn len(&self) -> (result: usize)
        ensures
            result == self@.history.len(),
    {
        self.frames.len()
    }

    pub fn frames(&self) -> (result: Vec<Arc<CommitFrame>>)
        ensures
            views(result@) == self@.history,
    {
        share_all(self.frames.as_slice())
    }

    /// The record to write for a frame, if the frame may be appended.
    pub fn prepare(&self, frame: &CommitFrame) -> (result: Result<Vec<u8>, FileCommitStoreError>)
        ensures
            match append_refusal(self@.history, frame@) {
                None => result matches Ok(record) && record@ == record_bytes(frame@),
                Some(refusal) => result matches Err(error) && error@ == refusal,
            },
    {
        validate_append(self.frames.as_slice(), frame)?;
        encode_record(frame)
    }

    /// Takes in a frame whose record is durable.
    pub fn appended(&mut self, frame: Arc<CommitFrame>)
        ensures
            final(self)@ == (CommitLogModel {
                history: old(self)@.history.push(frame@),
                recovered_tail_bytes: 0,
            }),
    {
        proof {
            views_push(self.frames@, frame);
        }
        self.frames.push(frame);
        self.recovered_tail_bytes = 0;
    }
}

/// A log in step with its file stays in step when a prepared record is written behind it.
pub proof fn prepared_record_extends_file(history: Seq<FrameModel>, frame: FrameModel)
    requires
        append_refusal(history, frame) is None,
        linked(history),
    ensures
        log_bytes(history) + record_bytes(frame) == log_bytes(history.push(frame)),
        linked(history.push(frame)),
{
    assert(history.push(frame).drop_last() =~= history);
    concat_assoc(header_bytes(), records_bytes(history), record_bytes(frame));
}

} // verus!
