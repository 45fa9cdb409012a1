//! What errors say where part of the text comes from elsewhere, or where no text is owed.

use crate::database::CommitError;
use crate::errors::{
    candidate_error_text, describe_numbers, describe_worlds, file_error_text, two_numbers,
    two_worlds,
};
use crate::fact_text::{describe_mismatch, mismatch_text};
use crate::plan_model::IntentRejection;
use crate::rejection::{
    DurableTicketRejection, TicketRejection, TicketRejectionModel, durable_rejection_text, told,
};
use crate::ring::{IoUringCommitStoreError, RingErrorModel};
use crate::text::{decimal, joined, labelled, push_decimal};
use crate::wire::concat_assoc;
use vstd::prelude::*;
use vstd::string::*;

verus! {

/// A signed number in decimal digits.
pub open spec fn signed(value: int) -> Seq<char> {
    if value < 0 {
        "-"@ + decimal((-value) as nat)
    } else {
        decimal(value as nat)
    }
}

/// Appends a signed number.
pub fn push_signed(out: &mut String, value: i32)
    ensures
        final(out)@ == old(out)@ + signed(value as int),
{
    if value < 0 {
        out.append("-");
        push_decimal(out, -(value as i64) as u64);
        proof {
            concat_assoc(old(out)@, "-"@, decimal((-(value as int)) as nat));
        }
    } else {
        push_decimal(out, value as u64);
    }
}

/// What is said of a commit that failed, with the words of the store where the store failed.
pub open spec fn commit_error_text<E>(error: CommitError<E>, store: Seq<char>) -> Seq<char> {
    match error {
        CommitError::StaleTransaction { based_on, current } => two_worlds(
            "transaction is based on stale world "@,
            based_on,
            "; current world is "@,
            current,
        ),
        CommitError::Candidate(error) => "candidate construction failed: "@ + candidate_error_text(
            error@,
        ),
        CommitError::Validation(message) => "candidate validation failed: "@ + message@,
        CommitError::Store(_) => "commit store append failed: "@ + store,
    }
}

impl<E> CommitError<E> {
    /// Says what went wrong; `store` is what the store says of its own error.
    pub fn describe(&self, store: &str) -> (result: String)
        ensures
            result@ == commit_error_text(*self, store@),
    {
        match self {
            CommitError::StaleTransaction { based_on, current } => describe_worlds(
                "transaction is based on stale world ",
                *based_on,
                "; current world is ",
                *current,
            ),
            CommitError::Candidate(error) => joined(
                "candidate construction failed: ",
                error.describe().as_str(),
            ),
            CommitError::Validation(message) => joined(
                "candidate validation failed: ",
                message.as_str(),
            ),
            CommitError::Store(_) => joined("commit store append failed: ", store),
        }
    }
}

impl IntentRejection {
    /// The text of a refusal.
    pub fn describe(&self) -> (result: String)
        ensures
            result@ == durable_rejection_text(told(self@)),
    {
        DurableTicketRejection::from_intent(self).describe()
    }
}

/// The text of a refusal as a submitter reads it.
pub open spec fn ticket_rejection_text(rejection: TicketRejectionModel) -> Seq<char> {
    match rejection {
        TicketRejectionModel::WorldPrecondition { expected, actual } =>
            "world precondition mismatch: expected WorldId("@ + decimal(expected.0 as nat)
            + "), actual WorldId("@ + decimal(actual.0 as nat) + ")"@,
        TicketRejectionModel::SlotPrecondition { slot, expected, actual } => mismatch_text(
            "slot precondition mismatch on "@,
            slot,
            expected,
            ", actual "@,
            actual,
        ),
        TicketRejectionModel::UnknownTemporaryEntity(entity) => two_numbers(
            "unknown temporary entity: TempEntity { namespace: "@,
            entity.scope() as nat,
            ", index: "@,
            entity.number() as nat,
        ) + " }"@,
        TicketRejectionModel::Candidate(message) => "candidate rejection: "@ + message,
        TicketRejectionModel::Validation(message) => "validation failure: "@ + message,
    }
}

impl TicketRejection {
    /// The text of a refusal.
    pub fn describe(&self) -> (result: String)
        ensures
            result@ == ticket_rejection_text(self@),
    {
        match self {
            TicketRejection::WorldPrecondition { expected, actual } => {
                let mut out = describe_numbers(
                    "world precondition mismatch: expected WorldId(",
                    expected.value(),
                    "), actual WorldId(",
                    actual.value(),
                );
                out.append(")");
                out
            },
            TicketRejection::SlotPrecondition { slot, expected, actual } => describe_mismatch(
                "slot precondition mismatch on ",
                slot,
                expected,
                ", actual ",
                actual,
            ),
            TicketRejection::UnknownTemporaryEntity(entity) => {
                let mut out = describe_numbers(
                    "unknown temporary entity: TempEntity { namespace: ",
                    entity.namespace(),
                    ", index: ",
                    entity.index() as u64,
                );
                out.append(" }");
                out
            },
            TicketRejection::Candidate(message) => joined(
                "candidate rejection: ",
                message.as_str(),
            ),
            TicketRejection::Validation(message) => joined(
                "validation failure: ",
                message.as_str(),
            ),
        }
    }
}

/// What is said of a commit through a ring that failed, with the words of the system for an
/// error number.
pub open spec fn ring_error_text(error: RingErrorModel, system: Seq<char>) -> Seq<char> {
    match error {
        RingErrorModel::UnsupportedPlatform => "IoUringCommitStore is supported only on Linux"@,
        RingErrorModel::Recovery(error) => "io_uring store recovery failed: "@ + file_error_text(
            error,
        ),
        RingErrorModel::Io(fault) => "io_uring store I/O failed: "@ + fault.message,
        RingErrorModel::QueueFull => "io_uring submission queue could not accept a commit"@,
        RingErrorModel::MissingCompletion(operation) => "io_uring did not return the "@ + operation
            + " completion"@,
        RingErrorModel::OperationFailed { operation, .. } => "io_uring "@ + operation
            + " failed: "@ + system,
        RingErrorModel::UnexpectedCompletion { operation, result } => "io_uring "@ + operation
            + " returned unexpected result "@ + signed(result as int),
        RingErrorModel::ShortWrite { expected, actual } => two_numbers(
            "io_uring write completed only "@,
            actual as nat,
            " of "@,
            expected as nat,
        ) + " bytes"@,
        RingErrorModel::NonLinearAppend(message) => "nonlinear commit append: "@ + message,
        RingErrorModel::FrameTooLarge(length) => "encoded frame record is "@ + decimal(
            length as nat,
        ) + " bytes and cannot be submitted as one io_uring write"@,
    }
}

impl IoUringCommitStoreError {
    /// Says what went wrong; `system` is what the system says of the number of a failed operation.
    pub fn describe(&self, system: &str) -> (result: String)
        ensures
            result@ == ring_error_text(self@, system@),
    {
        match self {
            IoUringCommitStoreError::UnsupportedPlatform =>
                "IoUringCommitStore is supported only on Linux".to_owned(),
            IoUringCommitStoreError::Recovery(error) => joined(
                "io_uring store recovery failed: ",
                error.describe().as_str(),
            ),
            IoUringCommitStoreError::Io(fault) => joined(
                "io_uring store I/O failed: ",
                fault.message.as_str(),
            ),
            IoUringCommitStoreError::QueueFull =>
                "io_uring submission queue could not accept a commit".to_owned(),
            IoUringCommitStoreError::MissingCompletion(operation) => {
                let mut out = joined("io_uring did not return the ", operation);
                out.append(" completion");
                out
            },
            IoUringCommitStoreError::OperationFailed { operation, .. } => {
                let mut out = joined("io_uring ", operation);
                out.append(" failed: ");
                out.append(system);
                out
            },
            IoUringCommitStoreError::UnexpectedCompletion { operation, result } => {
                let mut out = joined("io_uring ", operation);
                out.append(" returned unexpected result ");
                push_signed(&mut out, *result);
                out
            },
            IoUringCommitStoreError::ShortWrite { expected, actual } => {
                let mut out = describe_numbers(
                    "io_uring write completed only ",
                    *actual as u64,
                    " of ",
                    *expected as u64,
                );
                out.append(" bytes");
                out
            },
            IoUringCommitStoreError::NonLinearAppend(message) => joined(
                "nonlinear commit append: ",
                message.as_str(),
            ),
            IoUringCommitStoreError::FrameTooLarge(length) => {
                let mut out = labelled("encoded frame record is ", *length as u64);
                out.append(" bytes and cannot be submitted as one io_uring write");
                out
            },
        }
    }
}

} // verus!
