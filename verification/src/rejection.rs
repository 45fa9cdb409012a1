//! Why an intent was refused, as its submitter is told.

use crate::errors::{candidate_error_text, describe_worlds, two_worlds};
use crate::fact::{Fact, FactModel, SlotId};
use crate::fact_text::{describe_mismatch, mismatch_text};
use crate::frame::WorldId;
use crate::intent::{TempEntity, optional_fact};
use crate::plan_model::{IntentRejection, RejectionModel};
use crate::text::{decimal, joined, labelled};
use vstd::prelude::*;
use vstd::string::*;

verus! {

/// Mathematical value of a refusal.
#[allow(inconsistent_fields)]
pub enum TicketRejectionModel {
    WorldPrecondition { expected: WorldId, actual: WorldId },
    SlotPrecondition { slot: Seq<char>, expected: Option<FactModel>, actual: Option<FactModel> },
    UnknownTemporaryEntity(TempEntity),
    Candidate(Seq<char>),
    Validation(Seq<char>),
}

/// What a submitter is told of a refusal: errors of candidates become text.
pub open spec fn told(rejection: RejectionModel) -> TicketRejectionModel {
    match rejection {
        RejectionModel::WorldPrecondition { expected, actual } =>
            TicketRejectionModel::WorldPrecondition { expected, actual },
        RejectionModel::SlotPrecondition { slot, expected, actual } =>
            TicketRejectionModel::SlotPrecondition { slot, expected, actual },
        RejectionModel::UnknownTemporaryEntity(entity) =>
            TicketRejectionModel::UnknownTemporaryEntity(entity),
        RejectionModel::Candidate(error) => TicketRejectionModel::Candidate(
            candidate_error_text(error),
        ),
        RejectionModel::Validation(message) => TicketRejectionModel::Validation(message),
    }
}

/// Why a durable controller refused an intent.
#[derive(Debug)]
#[allow(inconsistent_fields)]
pub enum DurableTicketRejection {
    WorldPrecondition { expected: WorldId, actual: WorldId },
    SlotPrecondition { slot: SlotId, expected: Option<Fact>, actual: Option<Fact> },
    UnknownTemporaryEntity(TempEntity),
    Candidate(String),
    Validation(String),
}

impl View for DurableTicketRejection {
    type V = TicketRejectionModel;

    open spec fn view(&self) -> TicketRejectionModel {
        match *self {
            DurableTicketRejection::WorldPrecondition { expected, actual } =>
                TicketRejectionModel::WorldPrecondition { expected, actual },
            DurableTicketRejection::SlotPrecondition { slot, expected, actual } =>
                TicketRejectionModel::SlotPrecondition {
                slot: slot@,
                expected: optional_fact(expected),
                actual: optional_fact(actual),
            },
            DurableTicketRejection::UnknownTemporaryEntity(entity) =>
                TicketRejectionModel::UnknownTemporaryEntity(entity),
            DurableTicketRejection::Candidate(message) => TicketRejectionModel::Candidate(
                message@,
            ),
            DurableTicketRejection::Validation(message) => TicketRejectionModel::Validation(
                message@,
            ),
        }
    }
}

/// Why a controller in memory refused an intent.
#[derive(Debug)]
#[allow(inconsistent_fields)]
pub enum TicketRejection {
    WorldPrecondition { expected: WorldId, actual: WorldId },
    SlotPrecondition { slot: SlotId, expected: Option<Fact>, actual: Option<Fact> },
    UnknownTemporaryEntity(TempEntity),
    Candidate(String),
    Validation(String),
}

impl View for TicketRejection {
    type V = TicketRejectionModel;

    open spec fn view(&self) -> TicketRejectionModel {
        match *self {
            TicketRejection::WorldPrecondition { expected, actual } =>
                TicketRejectionModel::WorldPrecondition { expected, actual },
            TicketRejection::SlotPrecondition { slot, expected, actual } =>
                TicketRejectionModel::SlotPrecondition {
                slot: slot@,
                expected: optional_fact(expected),
                actual: optional_fact(actual),
            },
            TicketRejection::UnknownTemporaryEntity(entity) =>
                TicketRejectionModel::UnknownTemporaryEntity(entity),
            TicketRejection::Candidate(message) => TicketRejectionModel::Candidate(message@),
            TicketRejection::Validation(message) => TicketRejectionModel::Validation(message@),
        }
    }
}

fn clone_fact(fact: &Option<Fact>) -> (result: Option<Fact>)
    ensures
        optional_fact(result) == optional_fact(*fact),
{
    match fact {
        Some(fact) => Some(fact.clone()),
        None => None,
    }
}

impl DurableTicketRejection {
    /// What a submitter is told of a refusal.
    pub fn from_intent(error: &IntentRejection) -> (result: Self)
        ensures
            result@ == told(error@),
    {
        match error {
            IntentRejection::WorldPrecondition { expected, actual } =>
                DurableTicketRejection::WorldPrecondition { expected: *expected, actual: *actual },
            IntentRejection::SlotPrecondition { slot, expected, actual } =>
                DurableTicketRejection::SlotPrecondition {
                slot: slot.clone(),
                expected: clone_fact(expected),
                actual: clone_fact(actual),
            },
            IntentRejection::UnknownTemporaryEntity(entity) =>
                DurableTicketRejection::UnknownTemporaryEntity(*entity),
            IntentRejection::Candidate(error) => DurableTicketRejection::Candidate(
                error.describe(),
            ),
            IntentRejection::Validation(message) => DurableTicketRejection::Validation(
                message.clone(),
            ),
        }
    }
}

impl TicketRejection {
    /// What a submitter is told of a refusal.
    pub fn from_intent_rejection(error: &IntentRejection) -> (result: Self)
        ensures
            result@ == told(error@),
    {
        match error {
            IntentRejection::WorldPrecondition { expected, actual } =>
                TicketRejection::WorldPrecondition { expected: *expected, actual: *actual },
            IntentRejection::SlotPrecondition { slot, expected, actual } =>
                TicketRejection::SlotPrecondition {
                slot: slot.clone(),
                expected: clone_fact(expected),
                actual: clone_fact(actual),
            },
            IntentRejection::UnknownTemporaryEntity(entity) =>
                TicketRejection::UnknownTemporaryEntity(*entity),
            IntentRejection::Candidate(error) => TicketRejection::Candidate(error.describe()),
            IntentRejection::Validation(message) => TicketRejection::Validation(message.clone()),
        }
    }
}

/// The text of a refusal.
pub open spec fn durable_rejection_text(rejection: TicketRejectionModel) -> Seq<char> {
    match rejection {
        TicketRejectionModel::WorldPrecondition { expected, actual } => two_worlds(
            "queued intent expected predecessor "@,
            expected,
            ", found "@,
            actual,
        ),
        TicketRejectionModel::SlotPrecondition { slot, expected, actual } => mismatch_text(
            "queued intent slot precondition failed for "@,
            slot,
            expected,
            ", found "@,
            actual,
        ),
        TicketRejectionModel::UnknownTemporaryEntity(entity) =>
            "queued intent referenced temporary entity "@ + decimal(entity.number() as nat)
            + " from another scope or before allocation"@,
        TicketRejectionModel::Candidate(message) => "queued candidate failed: "@ + message,
        TicketRejectionModel::Validation(message) => "queued candidate validation failed: "@
            + message,
    }
}

impl DurableTicketRejection {
    /// The text of a refusal.
    pub fn describe(&self) -> (result: String)
        ensures
            result@ == durable_rejection_text(self@),
    {
        match self {
            DurableTicketRejection::WorldPrecondition { expected, actual } => describe_worlds(
                "queued intent expected predecessor ",
                *expected,
                ", found ",
                *actual,
            ),
            DurableTicketRejection::SlotPrecondition { slot, expected, actual } =>
                describe_mismatch(
                "queued intent slot precondition failed for ",
                slot,
                expected,
                ", found ",
                actual,
            ),
            DurableTicketRejection::UnknownTemporaryEntity(entity) => {
                let mut out = labelled(
                    "queued intent referenced temporary entity ",
                    entity.index() as u64,
                );
                out.append(" from another scope or before allocation");
                out
            },
            DurableTicketRejection::Candidate(message) => joined(
                "queued candidate failed: ",
                message.as_str(),
            ),
            DurableTicketRejection::Validation(message) => joined(
                "queued candidate validation failed: ",
                message.as_str(),
            ),
        }
    }
}

} // verus!
