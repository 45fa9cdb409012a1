//! Tickets: what a submitter holds of an intent, and what it is told.

use crate::epoch_store::{FileEpochStoreError, epoch_error_text};
use crate::errors::{CandidateError, IoFault, candidate_error_text};
use crate::intent::{IntentModel, QueuedIntent};
use crate::plan::{AcceptedIntent, EpochOutcome, outcome_shapes};
use crate::plan_model::OutcomeModel;
use crate::rejection::{DurableTicketRejection, TicketRejection, TicketRejectionModel, told};
use crate::snapshot_query::Resolved;
use crate::text::joined;
use crate::world::World;
use std::sync::Arc;
use vstd::prelude::*;
use vstd::string::*;

verus! {

/// How far an intent has come in a controller in memory.
#[derive(Clone, Copy, Debug, PartialEq, Eq, Structural)]
pub enum TicketPhase {
    Queued,
    Claimed,
    Resolved,
}

/// What a ticket shows.
#[derive(Clone, Copy, Debug, PartialEq, Eq, Structural)]
pub struct TicketState {
    pub phase: TicketPhase,
    pub abandoned: bool,
}

/// The life of a ticket.
#[derive(Clone, Copy, Debug, PartialEq, Eq, Structural)]
pub struct TicketLifecycle {
    pub state: TicketState,
}

impl TicketLifecycle {
    pub fn new() -> (result: Self)
        ensures
            result.state == (TicketState { phase: TicketPhase::Queued, abandoned: false }),
    {
        TicketLifecycle { state: TicketState { phase: TicketPhase::Queued, abandoned: false } }
    }

    pub fn claim(&mut self)
        ensures
            final(self).state == (TicketState { phase: TicketPhase::Claimed, ..old(self).state }),
    {
        self.state.phase = TicketPhase::Claimed;
    }

    pub fn resolve(&mut self)
        ensures
            final(self).state == (TicketState { phase: TicketPhase::Resolved, ..old(self).state }),
    {
        self.state.phase = TicketPhase::Resolved;
    }

    /// Gives the ticket up; tells whether it was not given up before.
    pub fn abandon(&mut self) -> (result: bool)
        ensures
            result == !old(self).state.abandoned,
            final(self).state == (TicketState { abandoned: true, ..old(self).state }),
    {
        let first = !self.state.abandoned;
        self.state.abandoned = true;
        first
    }

    pub fn snapshot(&self) -> (result: TicketState)
        ensures
            result == self.state,
    {
        self.state
    }
}

/// How far an intent has come in a durable controller.
#[derive(Clone, Copy, Debug, PartialEq, Eq, Structural)]
pub enum DurableTicketPhase {
    Queued,
    Claimed,
    Resolved,
}

/// What a durable ticket shows.
#[derive(Clone, Copy, Debug, PartialEq, Eq, Structural)]
pub struct DurableTicketState {
    pub phase: DurableTicketPhase,
    pub abandoned: bool,
}

/// The life of a durable ticket.
#[derive(Clone, Copy, Debug, PartialEq, Eq, Structural)]
pub struct DurableTicketLifecycle {
    pub state: DurableTicketState,
}

impl DurableTicketLifecycle {
    pub fn new() -> (result: Self)
        ensures
            result.state == (DurableTicketState {
                phase: DurableTicketPhase::Queued,
                abandoned: false,
            }),
    {
        DurableTicketLifecycle {
            state: DurableTicketState { phase: DurableTicketPhase::Queued, abandoned: false },
        }
    }

    pub fn claim(&mut self)
        ensures
            final(self).state == (DurableTicketState {
                phase: DurableTicketPhase::Claimed,
                ..old(self).state
            }),
    {
        self.state.phase = DurableTicketPhase::Claimed;
    }

    pub fn resolve(&mut self)
        ensures
            final(self).state == (DurableTicketState {
                phase: DurableTicketPhase::Resolved,
                ..old(self).state
            }),
    {
        self.state.phase = DurableTicketPhase::Resolved;
    }

    /// Gives the ticket up; tells whether it was not given up before.
    pub fn abandon(&mut self) -> (result: bool)
        ensures
            result == !old(self).state.abandoned,
            final(self).state == (DurableTicketState { abandoned: true, ..old(self).state }),
    {
        let first = !self.state.abandoned;
        self.state.abandoned = true;
        first
    }

    pub fn snapshot(&self) -> (result: DurableTicketState)
        ensures
            result == self.state,
    {
        self.state
    }
}

/// What became of an intent in a controller in memory.
pub enum TicketOutcome {
    Accepted(AcceptedIntent),
    Rejected(TicketRejection),
}

/// Mathematical value of an outcome.
pub enum TicketOutcomeModel {
    Accepted(OutcomeModel),
    Rejected(TicketRejectionModel),
}

/// What a submitter is told of an outcome.
pub open spec fn told_outcome(outcome: OutcomeModel) -> TicketOutcomeModel {
    match outcome {
        OutcomeModel::Accepted { .. } => TicketOutcomeModel::Accepted(outcome),
        OutcomeModel::Rejected { error, .. } => TicketOutcomeModel::Rejected(told(error)),
    }
}

impl View for TicketOutcome {
    type V = TicketOutcomeModel;

    open spec fn view(&self) -> TicketOutcomeModel {
        match self {
            TicketOutcome::Accepted(accepted) => TicketOutcomeModel::Accepted(accepted@),
            TicketOutcome::Rejected(rejection) => TicketOutcomeModel::Rejected(rejection@),
        }
    }
}

impl TicketOutcome {
    /// What a submitter is told of an outcome.
    pub fn from_epoch_outcome(outcome: EpochOutcome) -> (result: Self)
        ensures
            result@ == told_outcome(outcome@),
            result is Accepted <==> outcome@ is Accepted,
    {
        proof {
            outcome_shapes(&outcome);
        }
        match outcome {
            EpochOutcome::Accepted(accepted) => TicketOutcome::Accepted(accepted),
            EpochOutcome::Rejected(rejected) => TicketOutcome::Rejected(
                TicketRejection::from_intent_rejection(rejected.error()),
            ),
        }
    }

    pub fn world(&self) -> (result: Option<Arc<World>>)
        ensures
            match (result, self@) {
                (Some(world), TicketOutcomeModel::Accepted(outcome)) => world@
                    == outcome->Accepted_world,
                (None, TicketOutcomeModel::Rejected(_)) => true,
                _ => false,
            },
    {
        match self {
            TicketOutcome::Accepted(accepted) => Some(accepted.world()),
            TicketOutcome::Rejected(_) => None,
        }
    }
}

/// Why a durable ticket was not taken up.
#[derive(Debug)]
pub enum DurableTicketStopReason {
    ShutdownBeforeClaim,
    WorkerFailed(String),
}

pub enum StopReasonModel {
    ShutdownBeforeClaim,
    WorkerFailed(Seq<char>),
}

impl View for DurableTicketStopReason {
    type V = StopReasonModel;

    open spec fn view(&self) -> StopReasonModel {
        match self {
            DurableTicketStopReason::ShutdownBeforeClaim => StopReasonModel::ShutdownBeforeClaim,
            DurableTicketStopReason::WorkerFailed(message) => StopReasonModel::WorkerFailed(
                message@,
            ),
        }
    }
}

impl Clone for DurableTicketStopReason {
    fn clone(&self) -> (result: Self)
        ensures
            result@ == self@,
    {
        match self {
            DurableTicketStopReason::ShutdownBeforeClaim =>
                DurableTicketStopReason::ShutdownBeforeClaim,
            DurableTicketStopReason::WorkerFailed(message) =>
                DurableTicketStopReason::WorkerFailed(message.clone()),
        }
    }
}

/// What became of an intent in a durable controller.
pub enum DurableTicketOutcome {
    Accepted(AcceptedIntent),
    Rejected(DurableTicketRejection),
    DurabilityFailed(String),
    Stopped(DurableTicketStopReason),
}

pub enum DurableOutcomeModel {
    Accepted(OutcomeModel),
    Rejected(TicketRejectionModel),
    DurabilityFailed(Seq<char>),
    Stopped(StopReasonModel),
}

impl View for DurableTicketOutcome {
    type V = DurableOutcomeModel;

    open spec fn view(&self) -> DurableOutcomeModel {
        match self {
            DurableTicketOutcome::Accepted(accepted) => DurableOutcomeModel::Accepted(accepted@),
            DurableTicketOutcome::Rejected(rejection) => DurableOutcomeModel::Rejected(rejection@),
            DurableTicketOutcome::DurabilityFailed(message) =>
                DurableOutcomeModel::DurabilityFailed(message@),
            DurableTicketOutcome::Stopped(reason) => DurableOutcomeModel::Stopped(reason@),
        }
    }
}

impl DurableTicketOutcome {
    pub fn world(&self) -> (result: Option<Arc<World>>)
        ensures
            match result {
                Some(world) => self@ matches DurableOutcomeModel::Accepted(outcome) && world@
                    == outcome->Accepted_world,
                None => !(self@ is Accepted),
            },
    {
        match self {
            DurableTicketOutcome::Accepted(accepted) => Some(accepted.world()),
            _ => None,
        }
    }

    pub fn rejection(&self) -> (result: Option<&DurableTicketRejection>)
        ensures
            match result {
                Some(rejection) => self@ == DurableOutcomeModel::Rejected(rejection@),
                None => !(self@ is Rejected),
            },
    {
        match self {
            DurableTicketOutcome::Rejected(error) => Some(error),
            _ => None,
        }
    }

    pub fn durability_error(&self) -> (result: Option<&str>)
        ensures
            match result {
                Some(message) => self@ == DurableOutcomeModel::DurabilityFailed(message@),
                None => !(self@ is DurabilityFailed),
            },
    {
        match self {
            DurableTicketOutcome::DurabilityFailed(message) => Some(message.as_str()),
            _ => None,
        }
    }

    pub fn stop_reason(&self) -> (result: Option<&DurableTicketStopReason>)
        ensures
            match result {
                Some(reason) => self@ == DurableOutcomeModel::Stopped(reason@),
                None => !(self@ is Stopped),
            },
    {
        match self {
            DurableTicketOutcome::Stopped(reason) => Some(reason),
            _ => None,
        }
    }
}

/// The worker is gone, and the ticket with it.
#[derive(Clone, Copy, Debug, PartialEq, Eq, Structural)]
pub enum TicketWaitError {
    WorkerStopped,
}

impl TicketWaitError {
    pub fn describe(&self) -> (result: String)
        ensures
            result@ == "queued intent worker stopped"@,
    {
        "queued intent worker stopped".to_owned()
    }
}

/// The durable worker is gone, and the ticket with it.
#[derive(Clone, Copy, Debug, PartialEq, Eq, Structural)]
pub struct DurableTicketWaitError;

impl DurableTicketWaitError {
    pub fn describe(&self) -> (result: String)
        ensures
            result@ == "durable queued-intent controller stopped before resolving ticket"@,
    {
        "durable queued-intent controller stopped before resolving ticket".to_owned()
    }
}

/// An intent that a controller in memory did not take; it is handed back.
#[derive(Debug)]
pub enum SubmitError {
    Full(QueuedIntent),
    Closed(QueuedIntent),
}

impl SubmitError {
    /// The intent that was handed back.
    pub open spec fn intent(&self) -> IntentModel {
        match self {
            SubmitError::Full(intent) => intent@,
            SubmitError::Closed(intent) => intent@,
        }
    }

    pub fn describe(&self) -> (result: String)
        ensures
            result@ == match self {
                SubmitError::Full(_) => "queued intent controller channel full"@,
                SubmitError::Closed(_) => "queued intent controller worker stopped"@,
            },
    {
        match self {
            SubmitError::Full(_) => "queued intent controller channel full".to_owned(),
            SubmitError::Closed(_) => "queued intent controller worker stopped".to_owned(),
        }
    }
}

/// An intent that a durable controller did not take; it is handed back.
#[derive(Debug)]
pub enum DurableSubmitError {
    Full(QueuedIntent),
    Closed(QueuedIntent),
    Poisoned { intent: QueuedIntent, reason: String },
}

impl DurableSubmitError {
    /// The intent that was handed back.
    pub open spec fn intent(&self) -> IntentModel {
        match self {
            DurableSubmitError::Full(intent) => intent@,
            DurableSubmitError::Closed(intent) => intent@,
            DurableSubmitError::Poisoned { intent, .. } => intent@,
        }
    }

    pub fn into_intent(self) -> (result: QueuedIntent)
        ensures
            result@ == self.intent(),
    {
        match self {
            DurableSubmitError::Full(intent) => intent,
            DurableSubmitError::Closed(intent) => intent,
            DurableSubmitError::Poisoned { intent, .. } => intent,
        }
    }

    pub fn describe(&self) -> (result: String)
        ensures
            result@ == match self {
                DurableSubmitError::Full(_) => "durable queued-intent ingress is full"@,
                DurableSubmitError::Closed(_) => "durable queued-intent controller is not running"@,
                DurableSubmitError::Poisoned { reason, .. } =>
                    "durable queued-intent controller is poisoned: "@ + reason@,
            },
    {
        match self {
            DurableSubmitError::Full(_) => "durable queued-intent ingress is full".to_owned(),
            DurableSubmitError::Closed(_) =>
                "durable queued-intent controller is not running".to_owned(),
            DurableSubmitError::Poisoned { reason, .. } => joined(
                "durable queued-intent controller is poisoned: ",
                reason.as_str(),
            ),
        }
    }
}

/// A controller in memory that cannot start.
#[derive(Debug)]
pub enum ControllerConfigError {
    ZeroCapacity,
    ZeroBatchSize,
    /// The kind of error that starting the worker gave.
    Spawn(String),
}

impl ControllerConfigError {
    pub fn describe(&self) -> (result: String)
        ensures
            result@ == match self {
                ControllerConfigError::ZeroCapacity => "capacity must be positive"@,
                ControllerConfigError::ZeroBatchSize => "max batch must be positive"@,
                ControllerConfigError::Spawn(kind) => "worker thread spawn failed: "@ + kind@,
            },
    {
        match self {
            ControllerConfigError::ZeroCapacity => "capacity must be positive".to_owned(),
            ControllerConfigError::ZeroBatchSize => "max batch must be positive".to_owned(),
            ControllerConfigError::Spawn(kind) => joined(
                "worker thread spawn failed: ",
                kind.as_str(),
            ),
        }
    }
}

/// A controller in memory whose worker is gone.
#[derive(Clone, Copy, Debug, PartialEq, Eq, Structural)]
pub struct ControllerStopped;

impl ControllerStopped {
    pub fn describe(&self) -> (result: String)
        ensures
            result@ == "queued intent controller worker stopped"@,
    {
        "queued intent controller worker stopped".to_owned()
    }
}

/// A durable controller that cannot start.
#[derive(Debug)]
pub enum DurableControllerConfigError {
    ZeroCapacity,
    ZeroBatchSize,
    Spawn(IoFault),
}

pub open spec fn config_error_text(error: DurableControllerConfigError) -> Seq<char> {
    match error {
        DurableControllerConfigError::ZeroCapacity => "durable ingress capacity must be nonzero"@,
        DurableControllerConfigError::ZeroBatchSize =>
            "durable maximum batch size must be nonzero"@,
        DurableControllerConfigError::Spawn(fault) => "failed to start durable committer: "@
            + fault@.message,
    }
}

impl DurableControllerConfigError {
    pub fn describe(&self) -> (result: String)
        ensures
            result@ == config_error_text(*self),
    {
        match self {
            DurableControllerConfigError::ZeroCapacity =>
                "durable ingress capacity must be nonzero".to_owned(),
            DurableControllerConfigError::ZeroBatchSize =>
                "durable maximum batch size must be nonzero".to_owned(),
            DurableControllerConfigError::Spawn(fault) => joined(
                "failed to start durable committer: ",
                fault.message.as_str(),
            ),
        }
    }
}

/// A durable controller that cannot be opened.
#[derive(Debug)]
pub enum DurableControllerOpenError {
    /// The text of the error that taking the writer lease gave.
    WriterLease(String),
    Store(FileEpochStoreError),
    History(CandidateError),
    Controller(DurableControllerConfigError),
}

impl DurableControllerOpenError {
    pub fn describe(&self) -> (result: String)
        ensures
            result@ == match self {
                DurableControllerOpenError::WriterLease(text) => "writer ownership failed: "@
                    + text@,
                DurableControllerOpenError::Store(error) => "durable store open failed: "@
                    + epoch_error_text(error@),
                DurableControllerOpenError::History(error) =>
                    "durable history reconstruction failed: "@ + candidate_error_text(error@),
                DurableControllerOpenError::Controller(error) =>
                    "durable controller start failed: "@ + config_error_text(*error),
            },
    {
        match self {
            DurableControllerOpenError::WriterLease(text) => joined(
                "writer ownership failed: ",
                text.as_str(),
            ),
            DurableControllerOpenError::Store(error) => joined(
                "durable store open failed: ",
                error.describe().as_str(),
            ),
            DurableControllerOpenError::History(error) => joined(
                "durable history reconstruction failed: ",
                error.describe().as_str(),
            ),
            DurableControllerOpenError::Controller(error) => joined(
                "durable controller start failed: ",
                error.describe().as_str(),
            ),
        }
    }
}

/// Where a durable controller is in its life.
#[derive(Clone, Copy, Debug, PartialEq, Eq, Structural)]
pub enum DurableControllerState {
    Starting,
    Running,
    Draining,
    Closed,
    Poisoned,
}

pub open spec fn state_name(state: DurableControllerState) -> Seq<char> {
    match state {
        DurableControllerState::Starting => "Starting"@,
        DurableControllerState::Running => "Running"@,
        DurableControllerState::Draining => "Draining"@,
        DurableControllerState::Closed => "Closed"@,
        DurableControllerState::Poisoned => "Poisoned"@,
    }
}

impl DurableControllerState {
    pub fn name(self) -> (result: &'static str)
        ensures
            result@ == state_name(self),
    {
        match self {
            DurableControllerState::Starting => "Starting",
            DurableControllerState::Running => "Running",
            DurableControllerState::Draining => "Draining",
            DurableControllerState::Closed => "Closed",
            DurableControllerState::Poisoned => "Poisoned",
        }
    }
}

pub open spec fn optional_words(text: Option<String>) -> Option<Seq<char>> {
    match text {
        Some(text) => Some(text@),
        None => None,
    }
}

/// A durable controller that does not run.
#[derive(Debug)]
pub struct DurableControllerStopped {
    pub state: DurableControllerState,
    pub reason: Option<String>,
}

impl DurableControllerStopped {
    pub fn describe(&self) -> (result: String)
        ensures
            result@ == match self.reason {
                Some(reason) => "durable controller stopped in "@ + state_name(self.state) + ": "@
                    + reason@,
                None => "durable controller stopped in "@ + state_name(self.state),
            },
    {
        let mut out = joined("durable controller stopped in ", self.state.name());
        if let Some(reason) = &self.reason {
            out.append(": ");
            out.append(reason.as_str());
        }
        out
    }
}

/// What a shutdown found.
#[derive(Debug)]
pub struct DurableShutdownReport {
    pub previous_state: DurableControllerState,
    pub final_state: DurableControllerState,
    pub queued_stopped: u64,
    pub worker_failures: u64,
    pub reason: Option<String>,
}

} // verus!
