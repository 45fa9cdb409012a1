//! What messages say: which values they name, and in which order.

use crate::codec_laws::hexadecimals_stand_for_themselves;
use crate::database::CommitError;
use crate::epoch_io::{EpochIoPhase, phase_text};
use crate::epoch_store::{EpochErrorModel, epoch_error_text};
use crate::errors::{
    CandidateErrorModel, FileErrorModel, IoFaultModel, candidate_error_text, file_error_text,
};
use crate::fact::{AtomModel, FactModel, Literal};
use crate::fact_text::{atom_text, debug_text, fact_text, held_text};
use crate::frame::{FrameModel, WorldId, world_text};
use crate::intent::TempEntity;
use crate::log_format::append_fault;
use crate::rejection::{TicketRejectionModel, durable_rejection_text};
use crate::ring::RingErrorModel;
use crate::text::{decimal, hex_digits};
use crate::wording::{commit_error_text, ring_error_text, ticket_rejection_text};
use vstd::prelude::*;

verus! {

/// An identity is written in sixteen hexadecimal digits, so different identities read differently.
pub proof fn identities_read_apart(left: WorldId, right: WorldId)
    ensures
        world_text(left) == "World_"@ + hex_digits(left.0 as nat, 16),
        world_text(left) == world_text(right) ==> left == right,
{
    hexadecimals_stand_for_themselves(left.0 as nat, 16);
    hexadecimals_stand_for_themselves(right.0 as nat, 16);
    let power = vstd::arithmetic::power::pow(16, 16);
    assert(power == 0x1_0000_0000_0000_0000) by {
        vstd::arithmetic::power::lemma_pow1(16);
        vstd::arithmetic::power::lemma_pow_adds(16, 1, 1);
        assert(vstd::arithmetic::power::pow(16, 2) == 256);
        vstd::arithmetic::power::lemma_pow_adds(16, 2, 2);
        assert(vstd::arithmetic::power::pow(16, 4) == 65_536);
        vstd::arithmetic::power::lemma_pow_adds(16, 4, 4);
        assert(vstd::arithmetic::power::pow(16, 8) == 4_294_967_296);
        vstd::arithmetic::power::lemma_pow_adds(16, 8, 8);
        assert(4_294_967_296int * 4_294_967_296int == 0x1_0000_0000_0000_0000);
    }
    vstd::arithmetic::div_mod::lemma_small_mod(left.0 as nat, power as nat);
    vstd::arithmetic::div_mod::lemma_small_mod(right.0 as nat, power as nat);
    if world_text(left) == world_text(right) {
        let mark = "World_"@;
        assert(world_text(left).skip(mark.len() as int) =~= hex_digits(left.0 as nat, 16));
        assert(world_text(right).skip(mark.len() as int) =~= hex_digits(right.0 as nat, 16));
    }
}

/// What is said of a candidate that failed: what was expected, and then what was found.
pub proof fn candidate_errors_name_both_values(
    expected: WorldId,
    actual: WorldId,
    wanted: u64,
    given: u64,
    message: Seq<char>,
)
    ensures
        candidate_error_text(CandidateErrorModel::HistoryParentMismatch { expected, actual })
            == "commit history expected parent "@ + world_text(expected) + ", found "@ + world_text(
            actual,
        ),
        candidate_error_text(
            CandidateErrorModel::HistoryVersionMismatch { expected: wanted, actual: given },
        ) == "commit history expected parent version "@ + decimal(wanted as nat) + ", found "@
            + decimal(given as nat),
        candidate_error_text(
            CandidateErrorModel::AllocatorOperationMismatch { expected: wanted, actual: given },
        ) == "entity allocation expected identifier "@ + decimal(wanted as nat) + ", found "@
            + decimal(given as nat),
        candidate_error_text(
            CandidateErrorModel::AllocatorStateMismatch { expected: wanted, actual: given },
        ) == "commit frame expected allocator state "@ + decimal(wanted as nat)
            + ", reconstructed "@ + decimal(given as nat),
        candidate_error_text(CandidateErrorModel::WorldIdentityMismatch { expected, actual })
            == "commit frame expected resulting identity "@ + world_text(expected) + ", found "@
            + world_text(actual),
        candidate_error_text(CandidateErrorModel::BaseWorldMismatch { expected, actual })
            == "candidate expected base world "@ + world_text(expected) + ", reconstructed "@
            + world_text(actual),
        candidate_error_text(CandidateErrorModel::KernelInvariant(message))
            == "candidate violates kernel invariants: "@ + message,
{
}

/// What submitters are told of a refusal: what was expected, and then what there was.
pub proof fn refusals_name_both_values(
    expected: WorldId,
    actual: WorldId,
    slot: Seq<char>,
    wanted: Option<FactModel>,
    given: Option<FactModel>,
    entity: TempEntity,
    message: Seq<char>,
)
    ensures
        ticket_rejection_text(TicketRejectionModel::WorldPrecondition { expected, actual })
            == "world precondition mismatch: expected WorldId("@ + decimal(expected.0 as nat)
            + "), actual WorldId("@ + decimal(actual.0 as nat) + ")"@,
        ticket_rejection_text(
            TicketRejectionModel::SlotPrecondition { slot, expected: wanted, actual: given },
        ) == "slot precondition mismatch on "@ + ("SlotId("@ + debug_text(slot) + ")"@)
            + ": expected "@ + held_text(wanted) + ", actual "@ + held_text(given),
        ticket_rejection_text(TicketRejectionModel::UnknownTemporaryEntity(entity))
            == "unknown temporary entity: TempEntity { namespace: "@ + decimal(
            entity.scope() as nat,
        ) + ", index: "@ + decimal(entity.number() as nat) + " }"@,
        ticket_rejection_text(TicketRejectionModel::Candidate(message)) == "candidate rejection: "@
            + message,
        ticket_rejection_text(TicketRejectionModel::Validation(message)) == "validation failure: "@
            + message,
        durable_rejection_text(TicketRejectionModel::WorldPrecondition { expected, actual })
            == "queued intent expected predecessor "@ + world_text(expected) + ", found "@
            + world_text(actual),
        durable_rejection_text(
            TicketRejectionModel::SlotPrecondition { slot, expected: wanted, actual: given },
        ) == "queued intent slot precondition failed for "@ + ("SlotId("@ + debug_text(slot)
            + ")"@) + ": expected "@ + held_text(wanted) + ", found "@ + held_text(given),
        durable_rejection_text(TicketRejectionModel::UnknownTemporaryEntity(entity))
            == "queued intent referenced temporary entity "@ + decimal(entity.number() as nat)
            + " from another scope or before allocation"@,
        durable_rejection_text(TicketRejectionModel::Candidate(message))
            == "queued candidate failed: "@ + message,
        durable_rejection_text(TicketRejectionModel::Validation(message))
            == "queued candidate validation failed: "@ + message,
{
}

/// How facts are shown: subject, predicate and object, each under its name.
pub proof fn facts_are_shown_in_order(fact: FactModel, entity: u64, literal: Seq<char>)
    ensures
        fact_text(fact) == "Fact { subject: "@ + atom_text(fact.subject) + ", predicate: "@ + (
        "Predicate("@ + debug_text(fact.predicate) + ")"@) + ", object: "@ + atom_text(fact.object)
            + " }"@,
        atom_text(AtomModel::Entity(entity)) == "Entity(EntityId("@ + decimal(entity as nat)
            + "))"@,
        atom_text(AtomModel::Literal(literal)) == "Literal(Literal("@ + debug_text(literal) + ")"@
            + ")"@,
        held_text(None) == "None"@,
        held_text(Some(fact)) == "Some("@ + fact_text(fact) + ")"@,
{
}

/// What a store says of what went wrong: where, and what.
pub proof fn store_errors_name_their_cause(
    fault: IoFaultModel,
    phase: EpochIoPhase,
    second: EpochIoPhase,
    message: Seq<char>,
    reason: Seq<char>,
    version: u32,
    offset: u64,
    error: CandidateErrorModel,
    file: FileErrorModel,
)
    ensures
        file_error_text(FileErrorModel::Io(fault)) == "file commit store I/O failed: "@
            + fault.message,
        file_error_text(FileErrorModel::InvalidHeader(message)) == "invalid ForthDB file header: "@
            + message,
        file_error_text(FileErrorModel::UnsupportedFormat(version))
            == "unsupported ForthDB file format version "@ + decimal(version as nat),
        file_error_text(FileErrorModel::CorruptFrame { offset, reason })
            == "corrupt commit frame at byte "@ + decimal(offset as nat) + ": "@ + reason,
        file_error_text(FileErrorModel::NonLinearAppend(message)) == "nonlinear commit append: "@
            + message,
        file_error_text(FileErrorModel::History(error)) == "persisted history is invalid: "@
            + candidate_error_text(error),
        epoch_error_text(EpochErrorModel::File(file)) == "file epoch format failed: "@
            + file_error_text(file),
        epoch_error_text(EpochErrorModel::Io { phase, source: fault })
            == "file epoch I/O failed during "@ + phase_text(phase) + ": "@ + fault.message,
        epoch_error_text(EpochErrorModel::EpochRepaired { phase, source: fault })
            == "file epoch failed during "@ + phase_text(phase) + " and was rolled back: "@
            + fault.message,
        epoch_error_text(
            EpochErrorModel::RepairFailed {
                primary_phase: phase,
                primary: message,
                repair_phase: second,
                repair: reason,
            },
        ) == "file epoch failed during "@ + phase_text(phase) + " ("@ + message
            + "); repair failed during "@ + phase_text(second) + " ("@ + reason + ")"@,
        epoch_error_text(EpochErrorModel::Verification(message))
            == "file epoch verification failed: "@ + message,
        epoch_error_text(EpochErrorModel::StorePoisoned(reason)) == "file epoch store is poisoned: "@
            + reason,
{
}

/// What is said of a commit that failed, and of a ring that failed.
pub proof fn commit_errors_name_their_cause<E>(
    error: CommitError<E>,
    store: Seq<char>,
    ring: RingErrorModel,
    system: Seq<char>,
)
    ensures
        commit_error_text(error, store) == match error {
            CommitError::StaleTransaction { based_on, current } =>
                "transaction is based on stale world "@ + world_text(based_on)
                + "; current world is "@ + world_text(current),
            CommitError::Candidate(fault) => "candidate construction failed: "@
                + candidate_error_text(fault@),
            CommitError::Validation(message) => "candidate validation failed: "@ + message@,
            CommitError::Store(_) => "commit store append failed: "@ + store,
        },
        ring matches RingErrorModel::ShortWrite { expected, actual } ==> ring_error_text(
            ring,
            system,
        ) == "io_uring write completed only "@ + decimal(actual as nat) + " of "@ + decimal(
            expected as nat,
        ) + " bytes"@,
        ring matches RingErrorModel::OperationFailed { operation, .. } ==> ring_error_text(
            ring,
            system,
        ) == "io_uring "@ + operation + " failed: "@ + system,
        ring matches RingErrorModel::UnexpectedCompletion { operation, result } ==> ring_error_text(
            ring,
            system,
        ) == "io_uring "@ + operation + " returned unexpected result "@ + if result < 0 {
            "-"@ + decimal(-(result as int) as nat)
        } else {
            decimal(result as nat)
        },
        ring matches RingErrorModel::MissingCompletion(operation) ==> ring_error_text(ring, system)
            == "io_uring did not return the "@ + operation + " completion"@,
{
}

/// Why a frame may not be appended: the first of what does not fit, in this order, with what was
/// expected and what was found.
pub proof fn append_faults_say_what_does_not_fit(tail: (WorldId, u64), frame: FrameModel)
    ensures
        append_fault(tail, frame) == if frame.parent_world != tail.0 {
            Some(
                "expected parent "@ + world_text(tail.0) + ", found "@ + world_text(
                    frame.parent_world,
                ),
            )
        } else if frame.parent_version != tail.1 {
            Some(
                "expected parent version "@ + decimal(tail.1 as nat) + ", found "@ + decimal(
                    frame.parent_version as nat,
                ),
            )
        } else if tail.1 == 0xffff_ffff_ffff_ffff {
            Some("world version overflow"@)
        } else if frame.resulting_version != tail.1 + 1 {
            Some(
                "expected resulting version "@ + decimal((tail.1 + 1) as nat) + ", found "@
                    + decimal(frame.resulting_version as nat),
            )
        } else {
            None
        },
{
}

} // verus!
