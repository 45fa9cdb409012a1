//! What can go wrong with histories and their files, and how it is worded.

use crate::frame::{WorldId, world_text};
use crate::text::{decimal, joined, labelled, push_decimal};
use vstd::prelude::*;
use vstd::string::*;

verus! {

/// Why a candidate world or a stored history is refused.
#[derive(Debug)]
#[allow(inconsistent_fields)]
pub enum CandidateError {
    HistoryParentMismatch { expected: WorldId, actual: WorldId },
    HistoryVersionMismatch { expected: u64, actual: u64 },
    AllocatorOperationMismatch { expected: u64, actual: u64 },
    AllocatorStateMismatch { expected: u64, actual: u64 },
    WorldIdentityMismatch { expected: WorldId, actual: WorldId },
    BaseWorldMismatch { expected: WorldId, actual: WorldId },
    KernelInvariant(String),
}

/// Mathematical value of a [`CandidateError`].
#[allow(inconsistent_fields)]
pub enum CandidateErrorModel {
    HistoryParentMismatch { expected: WorldId, actual: WorldId },
    HistoryVersionMismatch { expected: u64, actual: u64 },
    AllocatorOperationMismatch { expected: u64, actual: u64 },
    AllocatorStateMismatch { expected: u64, actual: u64 },
    WorldIdentityMismatch { expected: WorldId, actual: WorldId },
    BaseWorldMismatch { expected: WorldId, actual: WorldId },
    KernelInvariant(Seq<char>),
}

impl View for CandidateError {
    type V = CandidateErrorModel;

    open spec fn view(&self) -> CandidateErrorModel {
        match *self {
            CandidateError::HistoryParentMismatch { expected, actual } =>
                CandidateErrorModel::HistoryParentMismatch { expected, actual },
            CandidateError::HistoryVersionMismatch { expected, actual } =>
                CandidateErrorModel::HistoryVersionMismatch { expected, actual },
            CandidateError::AllocatorOperationMismatch { expected, actual } =>
                CandidateErrorModel::AllocatorOperationMismatch { expected, actual },
            CandidateError::AllocatorStateMismatch { expected, actual } =>
                CandidateErrorModel::AllocatorStateMismatch { expected, actual },
            CandidateError::WorldIdentityMismatch { expected, actual } =>
                CandidateErrorModel::WorldIdentityMismatch { expected, actual },
            CandidateError::BaseWorldMismatch { expected, actual } =>
                CandidateErrorModel::BaseWorldMismatch { expected, actual },
            CandidateError::KernelInvariant(message) => CandidateErrorModel::KernelInvariant(
                message@,
            ),
        }
    }
}

/// `left`, one identity, `, found` or the like, and another identity.
pub open spec fn two_worlds(left: Seq<char>, a: WorldId, middle: Seq<char>, b: WorldId) -> Seq<
    char,
> {
    left + world_text(a) + middle + world_text(b)
}

pub open spec fn two_numbers(left: Seq<char>, a: nat, middle: Seq<char>, b: nat) -> Seq<char> {
    left + decimal(a) + middle + decimal(b)
}

pub fn describe_worlds(left: &str, a: WorldId, middle: &str, b: WorldId) -> (result: String)
    ensures
        result@ == two_worlds(left@, a, middle@, b),
{
    let mut out = left.to_owned();
    out.append(a.describe().as_str());
    out.append(middle);
    out.append(b.describe().as_str());
    out
}

pub fn describe_numbers(left: &str, a: u64, middle: &str, b: u64) -> (result: String)
    ensures
        result@ == two_numbers(left@, a as nat, middle@, b as nat),
{
    let mut out = left.to_owned();
    push_decimal(&mut out, a);
    out.append(middle);
    push_decimal(&mut out, b);
    out
}

/// The message of a candidate error.
pub open spec fn candidate_error_text(error: CandidateErrorModel) -> Seq<char> {
    match error {
        CandidateErrorModel::HistoryParentMismatch { expected, actual } => two_worlds(
            "commit history expected parent "@,
            expected,
            ", found "@,
            actual,
        ),
        CandidateErrorModel::HistoryVersionMismatch { expected, actual } => two_numbers(
            "commit history expected parent version "@,
            expected as nat,
            ", found "@,
            actual as nat,
        ),
        CandidateErrorModel::AllocatorOperationMismatch { expected, actual } => two_numbers(
            "entity allocation expected identifier "@,
            expected as nat,
            ", found "@,
            actual as nat,
        ),
        CandidateErrorModel::AllocatorStateMismatch { expected, actual } => two_numbers(
            "commit frame expected allocator state "@,
            expected as nat,
            ", reconstructed "@,
            actual as nat,
        ),
        CandidateErrorModel::WorldIdentityMismatch { expected, actual } => two_worlds(
            "commit frame expected resulting identity "@,
            expected,
            ", found "@,
            actual,
        ),
        CandidateErrorModel::BaseWorldMismatch { expected, actual } => two_worlds(
            "candidate expected base world "@,
            expected,
            ", reconstructed "@,
            actual,
        ),
        CandidateErrorModel::KernelInvariant(message) =>
            "candidate violates kernel invariants: "@ + message,
    }
}

impl CandidateError {
    pub fn describe(&self) -> (result: String)
        ensures
            result@ == candidate_error_text(self@),
    {
        match self {
            CandidateError::HistoryParentMismatch { expected, actual } => describe_worlds(
                "commit history expected parent ",
                *expected,
                ", found ",
                *actual,
            ),
            CandidateError::HistoryVersionMismatch { expected, actual } => describe_numbers(
                "commit history expected parent version ",
                *expected,
                ", found ",
                *actual,
            ),
            CandidateError::AllocatorOperationMismatch { expected, actual } => describe_numbers(
                "entity allocation expected identifier ",
                *expected,
                ", found ",
                *actual,
            ),
            CandidateError::AllocatorStateMismatch { expected, actual } => describe_numbers(
                "commit frame expected allocator state ",
                *expected,
                ", reconstructed ",
                *actual,
            ),
            CandidateError::WorldIdentityMismatch { expected, actual } => describe_worlds(
                "commit frame expected resulting identity ",
                *expected,
                ", found ",
                *actual,
            ),
            CandidateError::BaseWorldMismatch { expected, actual } => describe_worlds(
                "candidate expected base world ",
                *expected,
                ", reconstructed ",
                *actual,
            ),
            CandidateError::KernelInvariant(message) => joined(
                "candidate violates kernel invariants: ",
                message.as_str(),
            ),
        }
    }
}

/// A failed system call, as plain values: its error number, where it has one, and its message.
#[derive(Debug, PartialEq, Eq)]
pub struct IoFault {
    pub code: Option<i32>,
    pub message: String,
}

/// Mathematical value of an [`IoFault`].
pub struct IoFaultModel {
    pub code: Option<i32>,
    pub message: Seq<char>,
}

impl View for IoFault {
    type V = IoFaultModel;

    open spec fn view(&self) -> IoFaultModel {
        IoFaultModel { code: self.code, message: self.message@ }
    }
}

impl Clone for IoFault {
    fn clone(&self) -> (result: Self)
        ensures
            result@ == self@,
    {
        IoFault { code: self.code, message: self.message.clone() }
    }
}

/// Why a commit log is refused.
#[derive(Debug)]
pub enum FileCommitStoreError {
    Io(IoFault),
    InvalidHeader(String),
    UnsupportedFormat(u32),
    CorruptFrame { offset: u64, reason: String },
    NonLinearAppend(String),
    History(CandidateError),
}

/// Mathematical value of a [`FileCommitStoreError`].
pub enum FileErrorModel {
    Io(IoFaultModel),
    InvalidHeader(Seq<char>),
    UnsupportedFormat(u32),
    CorruptFrame { offset: u64, reason: Seq<char> },
    NonLinearAppend(Seq<char>),
    History(CandidateErrorModel),
}

impl View for FileCommitStoreError {
    type V = FileErrorModel;

    open spec fn view(&self) -> FileErrorModel {
        match *self {
            FileCommitStoreError::Io(fault) => FileErrorModel::Io(fault@),
            FileCommitStoreError::InvalidHeader(message) => FileErrorModel::InvalidHeader(message@),
            FileCommitStoreError::UnsupportedFormat(version) => FileErrorModel::UnsupportedFormat(
                version,
            ),
            FileCommitStoreError::CorruptFrame { offset, reason } => FileErrorModel::CorruptFrame {
                offset,
                reason: reason@,
            },
            FileCommitStoreError::NonLinearAppend(message) => FileErrorModel::NonLinearAppend(
                message@,
            ),
            FileCommitStoreError::History(error) => FileErrorModel::History(error@),
        }
    }
}

/// The message of a commit log error.
pub open spec fn file_error_text(error: FileErrorModel) -> Seq<char> {
    match error {
        FileErrorModel::Io(fault) => "file commit store I/O failed: "@ + fault.message,
        FileErrorModel::InvalidHeader(message) => "invalid ForthDB file header: "@ + message,
        FileErrorModel::UnsupportedFormat(version) =>
            "unsupported ForthDB file format version "@ + decimal(version as nat),
        FileErrorModel::CorruptFrame { offset, reason } => "corrupt commit frame at byte "@
            + decimal(offset as nat) + ": "@ + reason,
        FileErrorModel::NonLinearAppend(message) => "nonlinear commit append: "@ + message,
        FileErrorModel::History(error) => "persisted history is invalid: "@
            + candidate_error_text(error),
    }
}

impl FileCommitStoreError {
    pub fn describe(&self) -> (result: String)
        ensures
            result@ == file_error_text(self@),
    {
        match self {
            FileCommitStoreError::Io(fault) => joined(
                "file commit store I/O failed: ",
                fault.message.as_str(),
            ),
            FileCommitStoreError::InvalidHeader(message) => joined(
                "invalid ForthDB file header: ",
                message.as_str(),
            ),
            FileCommitStoreError::UnsupportedFormat(version) => labelled(
                "unsupported ForthDB file format version ",
                *version as u64,
            ),
            FileCommitStoreError::CorruptFrame { offset, reason } => {
                let mut out = labelled("corrupt commit frame at byte ", *offset);
                out.append(": ");
                out.append(reason.as_str());
                out
            },
            FileCommitStoreError::NonLinearAppend(message) => joined(
                "nonlinear commit append: ",
                message.as_str(),
            ),
            FileCommitStoreError::History(error) => joined(
                "persisted history is invalid: ",
                error.describe().as_str(),
            ),
        }
    }
}

} // verus!
