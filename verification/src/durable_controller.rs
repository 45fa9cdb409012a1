//! The durable controller: a bounded queue of intents, gathered into epochs that are stored before
//! they are published.

use crate::batching::{
    AdaptiveState, BatchPolicy, BatchSealReason, GatherAction, GatherStage, Gathering, age_of,
    batches_never_overflow, gather_action, gathering_ok, initial_target, joined_by, larger,
    max_batch_of, min_batch_of, next_target, target_starts_in_bounds, target_stays_in_bounds,
    widest_of,
};
use crate::controller_metrics::{
    DurableQueuedControllerMetrics, counted_more, counted_once, fresh_durable, sealed_durable,
};
use crate::database::Database;
use crate::durable_commit::{Clock, CommitTimes, DurableCommit, durable_sound, durably_commits};
use crate::epoch_io::{EpochFileIo, FileEpochMetrics, FileEpochState, counted, counted_twice};
use crate::epoch_store::{
    EpochStoreModel, FileEpochStore, FileEpochStoreError, FlyingEpoch, epoch_appended,
    epoch_error_text, epoch_settled,
};
use crate::fact::views;
use crate::intent::{IntentModel, QueuedIntent};
use crate::plan::{EpochOutcome, EpochPlan, outcome_shapes};
use crate::plan_model::{OutcomeModel, PlanModel, has_epoch_room};
use crate::queued_controller::{acceptances, begun, unanswered};
use crate::rejection::{DurableTicketRejection, told};
use crate::snapshot_query::Resolved;
use crate::speculative::{
    PreparedBatch, SettledBatch, UnplannedBatch, begun_epoch_is_appended, derivation_leads_to,
    derive_prepared_batch, derives, epoch_ready, goes_underway, prepared_on, storing_result,
    successor_follows,
};
use crate::staging::{
    CommandModel, ControllerCommand, SealedBatch, StagedIntent, StagedModel, batch_fits,
    batch_intents, batch_tickets, split_batch, waiting_intents, waiting_push, waiting_remove_first,
};
use crate::text::joined;
use crate::tickets::{
    DurableControllerConfigError, DurableControllerState, DurableControllerStopped,
    DurableOutcomeModel, DurableShutdownReport, DurableSubmitError, DurableTicketOutcome,
    DurableTicketStopReason, StopReasonModel, optional_words,
};
use crate::world::reconstructed_facts;
use std::sync::Arc;
use vstd::prelude::*;
use vstd::string::*;

verus! {

/// A ticket and what became of its intent.
pub struct DurableResolution {
    pub ticket: u64,
    pub outcome: DurableTicketOutcome,
}

/// Everything of a durable controller but its database.
pub struct DurableModel {
    pub policy: BatchPolicy,
    pub queue: Seq<CommandModel>,
    /// Barriers that came while a batch was gathered.
    pub pending: Seq<u64>,
    pub batch: Seq<StagedModel>,
    pub gathering: Option<Gathering>,
    /// The wait for the batch has been counted.
    pub probed: bool,
    pub adaptive: AdaptiveState,
    pub metrics: DurableQueuedControllerMetrics,
    /// Why the controller is poisoned.
    pub reason: Option<Seq<char>>,
    pub next_ticket: u64,
    /// No more commands come.
    pub closed: bool,
    /// Epochs are stored with their successors planned ahead.
    pub speculative: bool,
}

/// What a durable controller does next.
pub enum DurableStep {
    /// There is nothing to do.
    Idle,
    /// There is nothing to do, and nothing will come.
    Finished,
    /// An intent was taken into the batch.
    Claimed(u64),
    /// The batch takes nothing more from the queue now.
    Deferred,
    /// The batch waits so long for the next command.
    Waiting(u64),
    /// Everything before a barrier has been done.
    Released(u64),
    /// A batch was processed.
    Resolved(Vec<DurableResolution>),
    /// Nothing more is taken up: tickets that were stopped, and barriers that were refused.
    Drained(Vec<DurableResolution>, Vec<u64>),
}

/// What a durable controller does next, but for the outcomes of a batch.
pub enum DurableNext {
    Idle,
    Finished,
    Claimed(u64),
    Deferred,
    Waiting(u64),
    Released(u64),
    Seal(BatchSealReason),
    Drain(StopReasonModel),
}

/// An intent leaves the queue.
pub open spec fn claimed_durably(
    metrics: DurableQueuedControllerMetrics,
    enqueued_at: u64,
    now: u64,
) -> DurableQueuedControllerMetrics {
    DurableQueuedControllerMetrics {
        queue_depth: (metrics.queue_depth - 1) as u64,
        claimed: counted(metrics.claimed, 1),
        queue_wait_nanos: counted(metrics.queue_wait_nanos, age_of(enqueued_at, now) as nat),
        ..metrics
    }
}

/// The first command of the queue is taken into the batch, or ends its taking; in answer to a
/// probe or not.
pub open spec fn durably_polled(
    state: DurableModel,
    gathering: Gathering,
    now: u64,
    probe: bool,
) -> (DurableModel, DurableNext) {
    if state.queue.len() == 0 {
        (
            DurableModel { gathering: Some(Gathering { open: false, ..gathering }), ..state },
            DurableNext::Deferred,
        )
    } else {
        match state.queue[0] {
            CommandModel::Intent(staged) => (
                DurableModel {
                    queue: state.queue.drop_first(),
                    batch: state.batch.push(staged),
                    gathering: Some(
                        if probe {
                            Gathering {
                                stage: GatherStage::Topping,
                                open: true,
                                ..joined_by(gathering, staged.enqueued_at)
                            }
                        } else {
                            joined_by(gathering, staged.enqueued_at)
                        },
                    ),
                    metrics: claimed_durably(state.metrics, staged.enqueued_at, now),
                    ..state
                },
                DurableNext::Claimed(staged.ticket),
            ),
            CommandModel::Barrier(barrier) => (
                DurableModel {
                    queue: state.queue.drop_first(),
                    pending: state.pending.push(barrier),
                    gathering: Some(
                        if probe {
                            Gathering {
                                stage: GatherStage::Ended(BatchSealReason::Barrier),
                                ..gathering
                            }
                        } else {
                            Gathering { open: false, ..gathering }
                        },
                    ),
                    ..state
                },
                DurableNext::Deferred,
            ),
        }
    }
}

/// A probe is counted once for each batch.
pub open spec fn probe_counted_durably(state: DurableModel, wait: u64) -> DurableModel {
    if state.probed {
        state
    } else {
        DurableModel {
            probed: true,
            metrics: DurableQueuedControllerMetrics {
                total_adaptive_probe_wait_ns: counted(
                    state.metrics.total_adaptive_probe_wait_ns,
                    wait as nat,
                ),
                ..state.metrics
            },
            ..state
        }
    }
}

/// What is said to tickets when the controller is poisoned.
pub open spec fn poison_words(reason: Option<Seq<char>>) -> Seq<char> {
    match reason {
        Some(reason) => reason,
        None => "durable controller is poisoned"@,
    }
}

/// A released barrier counts as a seal, but not where epochs are planned ahead.
pub open spec fn barrier_counted(state: DurableModel) -> DurableQueuedControllerMetrics {
    if state.speculative {
        state.metrics
    } else {
        sealed_durable(state.metrics, BatchSealReason::Barrier)
    }
}

/// A controller without a batch takes the next command.
pub open spec fn durably_taken_up(state: DurableModel, now: u64) -> (DurableModel, DurableNext) {
    if state.pending.len() == 0 && state.queue.len() == 0 {
        (
            state,
            if state.closed {
                DurableNext::Finished
            } else {
                DurableNext::Idle
            },
        )
    } else if state.metrics.state == DurableControllerState::Draining || state.metrics.state
        == DurableControllerState::Closed {
        (state, DurableNext::Drain(StopReasonModel::ShutdownBeforeClaim))
    } else if state.metrics.state == DurableControllerState::Poisoned {
        (state, DurableNext::Drain(StopReasonModel::WorkerFailed(poison_words(state.reason))))
    } else if state.pending.len() > 0 {
        (
            DurableModel {
                pending: state.pending.drop_first(),
                metrics: barrier_counted(state),
                ..state
            },
            DurableNext::Released(state.pending[0]),
        )
    } else {
        match state.queue[0] {
            CommandModel::Barrier(barrier) => (
                DurableModel {
                    queue: state.queue.drop_first(),
                    metrics: barrier_counted(state),
                    ..state
                },
                DurableNext::Released(barrier),
            ),
            CommandModel::Intent(staged) => (
                DurableModel {
                    queue: state.queue.drop_first(),
                    batch: seq![staged],
                    gathering: Some(
                        begun(state.policy, state.adaptive.target_width, staged.enqueued_at, now),
                    ),
                    probed: false,
                    metrics: claimed_durably(state.metrics, staged.enqueued_at, now),
                    ..state
                },
                DurableNext::Claimed(staged.ticket),
            ),
        }
    }
}

/// What a durable controller does next, and what it is then.
pub open spec fn durable_next_step(state: DurableModel, now: u64, predicted: u64) -> (
    DurableModel,
    DurableNext,
) {
    let running = state.metrics.state == DurableControllerState::Running;
    match state.gathering {
        None => durably_taken_up(state, now),
        Some(gathering) => match gather_action(gathering, now, running, predicted) {
            GatherAction::Poll => durably_polled(state, gathering, now, false),
            GatherAction::Wait(wait) => if state.queue.len() == 0 && !state.closed {
                (state, DurableNext::Waiting(wait))
            } else {
                durably_polled(state, gathering, now, false)
            },
            GatherAction::Probe(wait) => {
                let counted_state = probe_counted_durably(state, wait);
                if state.queue.len() > 0 {
                    durably_polled(counted_state, gathering, now, true)
                } else if state.closed {
                    (
                        DurableModel {
                            gathering: Some(unanswered(gathering, predicted)),
                            ..counted_state
                        },
                        DurableNext::Deferred,
                    )
                } else {
                    (counted_state, DurableNext::Waiting(wait))
                }
            },
            GatherAction::Seal(reason) => (state, DurableNext::Seal(reason)),
        },
    }
}

/// The width that batches aim at after a batch was sealed.
pub open spec fn durably_adapted_to(
    state: DurableModel,
    gathering: Gathering,
    reason: BatchSealReason,
) -> AdaptiveState {
    if state.policy is Adaptive {
        AdaptiveState {
            target_width: next_target(
                state.adaptive.target_width as int,
                reason,
                gathering.width as int,
                min_batch_of(state.policy) as int,
                max_batch_of(state.policy) as int,
            ) as usize,
            epochs_sealed: counted(state.adaptive.epochs_sealed, 1),
        }
    } else {
        state.adaptive
    }
}

/// The controller after a batch was sealed and before it is processed.
pub open spec fn durably_sealed(
    state: DurableModel,
    gathering: Gathering,
    reason: BatchSealReason,
    now: u64,
) -> DurableModel {
    let adaptive = durably_adapted_to(state, gathering, reason);
    let adapted = if state.policy is Adaptive {
        DurableQueuedControllerMetrics {
            maximum_oldest_age_at_seal_ns: larger(
                state.metrics.maximum_oldest_age_at_seal_ns as int,
                age_of(gathering.oldest, now),
            ) as u64,
            maximum_target_width: larger(
                state.metrics.maximum_target_width as int,
                adaptive.target_width as int,
            ) as usize,
            ..state.metrics
        }
    } else {
        state.metrics
    };
    DurableModel { adaptive, metrics: sealed_durable(adapted, reason), ..state }
}

/// What a submitter is told: of an epoch that was stored, or of one that was not.
pub open spec fn told_durably(outcome: OutcomeModel, failure: Option<Seq<char>>) -> DurableOutcomeModel {
    match (outcome, failure) {
        (OutcomeModel::Rejected { error, .. }, _) => DurableOutcomeModel::Rejected(told(error)),
        (OutcomeModel::Accepted { .. }, None) => DurableOutcomeModel::Accepted(outcome),
        (OutcomeModel::Accepted { .. }, Some(message)) => DurableOutcomeModel::DurabilityFailed(
            message,
        ),
    }
}

/// The resolutions tell each ticket of a batch what became of its intent, in order.
pub open spec fn resolves_durably(
    resolutions: Seq<DurableResolution>,
    tickets: Seq<u64>,
    outcomes: Seq<OutcomeModel>,
    failure: Option<Seq<char>>,
) -> bool {
    &&& resolutions.len() == tickets.len()
    &&& resolutions.len() == outcomes.len()
    &&& forall|i: int|
        0 <= i < resolutions.len() ==> (#[trigger] resolutions[i]).ticket == tickets[i]
            && resolutions[i].outcome@ == told_durably(outcomes[i], failure)
}

/// Each ticket is told that its intent was not taken up.
pub open spec fn stops(
    resolutions: Seq<DurableResolution>,
    tickets: Seq<u64>,
    reason: StopReasonModel,
) -> bool {
    &&& resolutions.len() == tickets.len()
    &&& forall|i: int|
        0 <= i < resolutions.len() ==> (#[trigger] resolutions[i]).ticket == tickets[i]
            && resolutions[i].outcome@ == DurableOutcomeModel::Stopped(reason)
}

/// The counters after the outcomes of an epoch, stored or not.
pub open spec fn routed(
    metrics: DurableQueuedControllerMetrics,
    outcomes: Seq<OutcomeModel>,
    failure: Option<Seq<char>>,
) -> DurableQueuedControllerMetrics {
    let accepted = acceptances(outcomes);
    DurableQueuedControllerMetrics {
        accepted: if failure is None {
            counted(metrics.accepted, accepted)
        } else {
            metrics.accepted
        },
        durability_failed: if failure is Some {
            counted(metrics.durability_failed, accepted)
        } else {
            metrics.durability_failed
        },
        rejected: counted(metrics.rejected, (outcomes.len() - accepted) as nat),
        ..metrics
    }
}

/// Metrics but for the times that were measured.
pub open spec fn timed(
    metrics: DurableQueuedControllerMetrics,
    times: DurableQueuedControllerMetrics,
) -> DurableQueuedControllerMetrics {
    DurableQueuedControllerMetrics {
        derive_nanos: times.derive_nanos,
        persist_nanos: times.persist_nanos,
        publish_nanos: times.publish_nanos,
        delivery_nanos: times.delivery_nanos,
        epoch_total_nanos: times.epoch_total_nanos,
        ..metrics
    }
}

/// The controller after an epoch, stored or not.
pub open spec fn after_epoch(
    state: DurableModel,
    outcomes: Seq<OutcomeModel>,
    failure: Option<Seq<char>>,
    times: DurableQueuedControllerMetrics,
) -> DurableModel {
    let metrics = routed(state.metrics, outcomes, failure);
    DurableModel {
        batch: Seq::empty(),
        gathering: None,
        metrics: timed(
            DurableQueuedControllerMetrics {
                epochs: counted(metrics.epochs, 1),
                in_flight: 0,
                ..metrics
            },
            times,
        ),
        ..state
    }
}

/// The tickets in a queue.
pub open spec fn queued_tickets(queue: Seq<CommandModel>) -> Seq<u64>
    decreases queue.len(),
{
    if queue.len() == 0 {
        Seq::empty()
    } else {
        match queue.last() {
            CommandModel::Intent(staged) => queued_tickets(queue.drop_last()).push(staged.ticket),
            CommandModel::Barrier(_) => queued_tickets(queue.drop_last()),
        }
    }
}

/// The barriers in a queue.
pub open spec fn queued_barriers(queue: Seq<CommandModel>) -> Seq<u64>
    decreases queue.len(),
{
    if queue.len() == 0 {
        Seq::empty()
    } else {
        match queue.last() {
            CommandModel::Intent(_) => queued_barriers(queue.drop_last()),
            CommandModel::Barrier(barrier) => queued_barriers(queue.drop_last()).push(barrier),
        }
    }
}

pub proof fn queued_tickets_count(queue: Seq<CommandModel>)
    ensures
        queued_tickets(queue).len() == waiting_intents(queue),
        waiting_intents(queue) <= queue.len(),
    decreases queue.len(),
{
    if queue.len() > 0 {
        queued_tickets_count(queue.drop_last());
    }
}

/// The controller after everything that waited was refused.
pub open spec fn emptied(state: DurableModel, reason: StopReasonModel) -> DurableModel {
    let count = waiting_intents(state.queue);
    DurableModel {
        queue: Seq::empty(),
        pending: Seq::empty(),
        metrics: DurableQueuedControllerMetrics {
            queue_depth: 0,
            shutdown_before_claim: if reason is ShutdownBeforeClaim {
                counted(state.metrics.shutdown_before_claim, count)
            } else {
                state.metrics.shutdown_before_claim
            },
            worker_failed: if reason is WorkerFailed {
                counted(state.metrics.worker_failed, count)
            } else {
                state.metrics.worker_failed
            },
            ..state.metrics
        },
        ..state
    }
}

/// The controller after it was poisoned.
pub open spec fn poisoned(state: DurableModel, reason: Seq<char>) -> DurableModel {
    DurableModel {
        reason: Some(reason),
        metrics: DurableQueuedControllerMetrics {
            state: DurableControllerState::Poisoned,
            ..state.metrics
        },
        ..state
    }
}

/// The queue is counted, and a batch is what it says.
pub open spec fn durable_ok(state: DurableModel) -> bool {
    &&& state.metrics.queue_depth == waiting_intents(state.queue)
    &&& state.metrics.queue_depth <= state.metrics.capacity
    &&& 1 <= max_batch_of(state.policy)
    &&& state.adaptive.target_width <= widest_of(state.policy) < usize::MAX
    &&& match state.gathering {
        Some(gathering) => {
            &&& gathering.policy == state.policy
            &&& gathering_ok(gathering)
            &&& gathering.width == state.batch.len()
        },
        None => state.batch.len() == 0,
    }
}

/// What a durable controller does next keeps the queue within its capacity and counted, and the
/// batch within its size.
pub proof fn durable_steps_keep_order(state: DurableModel, now: u64, predicted: u64)
    requires
        durable_ok(state),
    ensures
        durable_ok(durable_next_step(state, now, predicted).0),
{
    let running = state.metrics.state == DurableControllerState::Running;
    if state.queue.len() > 0 {
        waiting_remove_first(state.queue);
    }
    if let Some(gathering) = state.gathering {
        if !(gather_action(gathering, now, running, predicted) is Seal) {
            if state.queue.len() > 0 {
                if let CommandModel::Intent(staged) = state.queue[0] {
                    batches_never_overflow(gathering, now, running, predicted, staged.enqueued_at);
                }
            }
        }
    }
}

/// A controller that drains, is closed or is poisoned takes up no intent that still waits.
pub proof fn stopped_controllers_take_up_nothing(state: DurableModel, now: u64, predicted: u64)
    requires
        state.metrics.state == DurableControllerState::Draining || state.metrics.state
            == DurableControllerState::Closed || state.metrics.state
            == DurableControllerState::Poisoned,
        state.gathering is None,
    ensures
        !(durable_next_step(state, now, predicted).1 is Claimed),
        !(durable_next_step(state, now, predicted).1 is Released),
        durable_next_step(state, now, predicted).0 == state,
{
}

/// A durable controller.
pub struct DurableQueuedIntentController<I: EpochFileIo> {
    /// The database, unless it is lent out.
    database: Option<Database<FileEpochStore<I>>>,
    policy: BatchPolicy,
    queue: Vec<ControllerCommand>,
    pending: Vec<u64>,
    batch: Vec<StagedIntent>,
    gathering: Option<Gathering>,
    probed: bool,
    adaptive: AdaptiveState,
    metrics: DurableQueuedControllerMetrics,
    reason: Option<String>,
    next_ticket: u64,
    closed: bool,
    speculative: bool,
}

impl<I: EpochFileIo> View for DurableQueuedIntentController<I> {
    type V = DurableModel;

    closed spec fn view(&self) -> DurableModel {
        DurableModel {
            policy: self.policy,
            queue: views(self.queue@),
            pending: self.pending@,
            batch: views(self.batch@),
            gathering: self.gathering,
            probed: self.probed,
            adaptive: self.adaptive,
            metrics: self.metrics,
            reason: optional_words(self.reason),
            next_ticket: self.next_ticket,
            closed: self.closed,
            speculative: self.speculative,
        }
    }
}

/// Tells each ticket of an epoch what became of its intent, and counts it.
fn route_outcomes(
    metrics: &mut DurableQueuedControllerMetrics,
    tickets: Vec<u64>,
    outcomes: Vec<EpochOutcome>,
    failure: Option<String>,
) -> (result: Vec<DurableResolution>)
    requires
        tickets.len() == outcomes.len(),
    ensures
        resolves_durably(result@, tickets@, views(outcomes@), optional_words(failure)),
        *final(metrics) == routed(*old(metrics), views(outcomes@), optional_words(failure)),
{
    let ghost models = views(outcomes@);
    let ghost start = *metrics;
    let ghost message = optional_words(failure);
    let mut waiting = outcomes;
    let mut resolutions: Vec<DurableResolution> = Vec::new();
    proof {
        assert(models.take(0) =~= Seq::empty());
        counted_twice(start.accepted, 0, 0);
        counted_twice(start.rejected, 0, 0);
        counted_twice(start.durability_failed, 0, 0);
    }
    while waiting.len() > 0
        invariant
            message == optional_words(failure),
            tickets.len() == models.len(),
            resolutions.len() + waiting.len() == models.len(),
            forall|i: int|
                0 <= i < waiting.len() ==> (#[trigger] waiting@[i])@ == models[resolutions.len()
                    + i],
            forall|i: int|
                0 <= i < resolutions.len() ==> (#[trigger] resolutions@[i]).ticket == tickets@[i]
                    && resolutions@[i].outcome@ == told_durably(models[i], message),
            *metrics == routed(start, models.take(resolutions.len() as int), message),
            acceptances(models.take(resolutions.len() as int)) <= resolutions.len(),
        decreases waiting.len(),
    {
        let ghost before = waiting@;
        let ghost done = resolutions.len() as int;
        let outcome = waiting.remove(0);
        proof {
            assert(outcome@ == models[done]);
            outcome_shapes(&outcome);
            assert(models.take(done + 1).drop_last() =~= models.take(done));
            assert(models.take(done + 1).last() == models[done]);
            assert forall|i: int| 0 <= i < waiting.len() implies (#[trigger] waiting@[i])@
                == models[done + 1 + i] by {
                assert(waiting@[i] == before[i + 1]);
            }
            let so_far = acceptances(models.take(done));
            counted_twice(start.accepted, so_far, 1);
            counted_twice(start.durability_failed, so_far, 1);
            counted_twice(start.rejected, (done - so_far) as nat, 1);
        }
        let told_outcome = match outcome {
            EpochOutcome::Accepted(accepted) => match &failure {
                None => {
                    metrics.accepted = counted_once(metrics.accepted);
                    DurableTicketOutcome::Accepted(accepted)
                },
                Some(text) => {
                    metrics.durability_failed = counted_once(metrics.durability_failed);
                    DurableTicketOutcome::DurabilityFailed(text.clone())
                },
            },
            EpochOutcome::Rejected(rejected) => {
                metrics.rejected = counted_once(metrics.rejected);
                DurableTicketOutcome::Rejected(
                    DurableTicketRejection::from_intent(rejected.error()),
                )
            },
        };
        let ticket: u64 = tickets[resolutions.len()];
        resolutions.push(DurableResolution { ticket, outcome: told_outcome });
    }
    proof {
        assert(models.take(resolutions.len() as int) =~= models);
    }
    resolutions
}

/// Tells each ticket that its intent was not taken up.
fn route_stopped(tickets: Vec<u64>, reason: &DurableTicketStopReason) -> (result: Vec<
    DurableResolution,
>)
    ensures
        stops(result@, tickets@, reason@),
{
    let mut resolutions: Vec<DurableResolution> = Vec::new();
    let mut index: usize = 0;
    while index < tickets.len()
        invariant
            index <= tickets.len(),
            resolutions.len() == index,
            forall|i: int|
                0 <= i < index ==> (#[trigger] resolutions@[i]).ticket == tickets@[i]
                    && resolutions@[i].outcome@ == DurableOutcomeModel::Stopped(reason@),
        decreases tickets.len() - index,
    {
        resolutions.push(
            DurableResolution {
                ticket: tickets[index],
                outcome: DurableTicketOutcome::Stopped(reason.clone()),
            },
        );
        index += 1;
    }
    resolutions
}

/// What starting a durable controller leads to.
pub open spec fn durably_started<I: EpochFileIo>(
    database: Database<FileEpochStore<I>>,
    capacity: usize,
    policy: BatchPolicy,
    speculative: bool,
    result: Result<DurableQueuedIntentController<I>, DurableControllerConfigError>,
) -> bool {
    match result {
        Ok(controller) => {
            &&& capacity > 0
            &&& max_batch_of(policy) > 0
            &&& controller.wf()
            &&& controller.stored() == database
            &&& controller@ == (DurableModel {
                policy,
                queue: Seq::empty(),
                pending: Seq::empty(),
                batch: Seq::empty(),
                gathering: None,
                probed: false,
                adaptive: AdaptiveState {
                    target_width: initial_target(policy) as usize,
                    epochs_sealed: 0,
                },
                metrics: DurableQueuedControllerMetrics {
                    state: DurableControllerState::Running,
                    ..fresh_durable(capacity, max_batch_of(policy))
                },
                reason: None,
                next_ticket: 1,
                closed: false,
                speculative,
            })
        },
        Err(DurableControllerConfigError::ZeroCapacity) => capacity == 0,
        Err(DurableControllerConfigError::ZeroBatchSize) => capacity > 0 && max_batch_of(policy)
            == 0,
        Err(DurableControllerConfigError::Spawn(_)) => false,
    }
}

impl<I: EpochFileIo> DurableQueuedIntentController<I> {
    /// The database behind the controller, unless it is lent out.
    pub closed spec fn stored(&self) -> Database<FileEpochStore<I>> {
        self.database->Some_0
    }

    /// Whether the database is lent out.
    pub closed spec fn lent(&self) -> bool {
        self.database is None
    }

    pub open spec fn wf(&self) -> bool {
        durable_ok(self@) && !self.lent() && durable_sound(self.stored())
    }

    /// There is room to count the effects of the batch.
    pub open spec fn batch_has_room(&self) -> bool {
        has_epoch_room(self.stored().world(), batch_intents(self@.batch))
    }

    /// A controller that stores one epoch after the other.
    pub fn new(database: Database<FileEpochStore<I>>, capacity: usize, policy: BatchPolicy) -> (
        result: Result<Self, DurableControllerConfigError>)
        requires
            durable_sound(database),
            widest_of(policy) < usize::MAX,
        ensures
            durably_started(database, capacity, policy, false, result),
    {
        Self::start(database, capacity, policy, false)
    }

    /// A controller that plans one epoch ahead of the one that is stored.
    pub fn new_speculative(
        database: Database<FileEpochStore<I>>,
        capacity: usize,
        max_batch: usize,
    ) -> (result: Result<Self, DurableControllerConfigError>)
        requires
            durable_sound(database),
            max_batch < usize::MAX,
        ensures
            durably_started(
                database,
                capacity,
                BatchPolicy::ImmediateDrain { max_batch },
                true,
                result,
            ),
    {
        Self::start(database, capacity, BatchPolicy::ImmediateDrain { max_batch }, true)
    }

    fn start(
        database: Database<FileEpochStore<I>>,
        capacity: usize,
        policy: BatchPolicy,
        speculative: bool,
    ) -> (result: Result<Self, DurableControllerConfigError>)
        requires
            durable_sound(database),
            widest_of(policy) < usize::MAX,
        ensures
            durably_started(database, capacity, policy, speculative, result),
    {
        let max_batch: usize = policy.max_batch();
        if capacity == 0 {
            return Err(DurableControllerConfigError::ZeroCapacity);
        }
        if max_batch == 0 {
            return Err(DurableControllerConfigError::ZeroBatchSize);
        }
        let mut metrics = DurableQueuedControllerMetrics::new(capacity, max_batch);
        metrics.state = DurableControllerState::Running;
        let result = DurableQueuedIntentController {
            database: Some(database),
            policy,
            queue: Vec::new(),
            pending: Vec::new(),
            batch: Vec::new(),
            gathering: None,
            probed: false,
            adaptive: AdaptiveState::new(policy),
            metrics,
            reason: None,
            next_ticket: 1,
            closed: false,
            speculative,
        };
        proof {
            target_starts_in_bounds(policy);
            assert(views(result.queue@) =~= Seq::empty());
            assert(views(result.batch@) =~= Seq::empty());
            assert(result@.pending =~= Seq::empty());
        }
        Ok(result)
    }

    pub fn database(&self) -> (result: &Database<FileEpochStore<I>>)
        requires
            !self.lent(),
        ensures
            *result == self.stored(),
    {
        self.database.as_ref().unwrap()
    }

    /// Hands out the database, to work on it while commands come in. What needs the database waits
    /// until it is given back.
    pub fn lend(&mut self) -> (result: Database<FileEpochStore<I>>)
        requires
            !old(self).lent(),
        ensures
            result == old(self).stored(),
            final(self)@ == old(self)@,
            final(self).lent(),
    {
        let mut held: Option<Database<FileEpochStore<I>>> = None;
        core::mem::swap(&mut self.database, &mut held);
        held.unwrap()
    }

    /// Takes the database back.
    pub fn give_back(&mut self, database: Database<FileEpochStore<I>>)
        ensures
            final(self).stored() == database,
            final(self)@ == old(self)@,
            !final(self).lent(),
    {
        self.database = Some(database);
    }

    pub fn state(&self) -> (result: DurableControllerState)
        ensures
            result == self@.metrics.state,
    {
        self.metrics.state
    }

    pub fn poison_reason(&self) -> (result: Option<&str>)
        ensures
            match result {
                Some(reason) => self@.reason == Some(reason@),
                None => self@.reason is None,
            },
    {
        match &self.reason {
            Some(reason) => Some(reason.as_str()),
            None => None,
        }
    }

    pub fn metrics(&self) -> (result: DurableQueuedControllerMetrics)
        ensures
            result == self@.metrics,
    {
        self.metrics
    }

    pub fn store_state(&self) -> (result: FileEpochState)
        requires
            !self.lent(),
        ensures
            result == self.stored().epoch_store()@.state,
    {
        self.database().store_state()
    }

    pub fn store_metrics(&self) -> (result: FileEpochMetrics)
        requires
            !self.lent(),
        ensures
            result == self.stored().epoch_store()@.metrics,
    {
        self.database().store_metrics()
    }

    fn stopped(&self) -> (result: DurableControllerStopped)
        ensures
            result.state == self@.metrics.state,
            optional_words(result.reason) == self@.reason,
    {
        DurableControllerStopped {
            state: self.metrics.state,
            reason: match &self.reason {
                Some(reason) => Some(reason.clone()),
                None => None,
            },
        }
    }

    /// Puts an intent in the queue, or hands it back at once: when the controller is poisoned or
    /// does not run, or when the queue, with its barriers, is full.
    pub fn submit(&mut self, intent: QueuedIntent, now: u64) -> (result: Result<
        u64,
        DurableSubmitError,
    >)
        requires
            durable_ok(old(self)@),
        ensures
            durable_ok(final(self)@),
            old(self).wf() ==> final(self).wf(),
            final(self).stored() == old(self).stored(),
            final(self).lent() == old(self).lent(),
            ({
                let state = old(self)@.metrics.state;
                let open = state == DurableControllerState::Running && !old(self)@.closed;
                match result {
                    Err(DurableSubmitError::Poisoned { intent: handed_back, reason }) => {
                        &&& state == DurableControllerState::Poisoned
                        &&& handed_back@ == intent@
                        &&& reason@ == match old(self)@.reason {
                            Some(own) => own,
                            None => "worker or store state is uncertain"@,
                        }
                        &&& final(self)@ == old(self)@
                    },
                    Err(DurableSubmitError::Closed(handed_back)) => {
                        &&& state != DurableControllerState::Poisoned
                        &&& !open
                        &&& handed_back@ == intent@
                        &&& final(self)@ == old(self)@
                    },
                    Err(DurableSubmitError::Full(handed_back)) => {
                        &&& open
                        &&& old(self)@.queue.len() >= old(self)@.metrics.capacity
                        &&& handed_back@ == intent@
                        &&& final(self)@ == (DurableModel {
                            metrics: DurableQueuedControllerMetrics {
                                backpressured: counted(old(self)@.metrics.backpressured, 1),
                                ..old(self)@.metrics
                            },
                            ..old(self)@
                        })
                    },
                    Ok(ticket) => {
                        let depth = (old(self)@.metrics.queue_depth + 1) as u64;
                        &&& open
                        &&& old(self)@.queue.len() < old(self)@.metrics.capacity
                        &&& ticket == old(self)@.next_ticket
                        &&& final(self)@ == (DurableModel {
                            queue: old(self)@.queue.push(
                                CommandModel::Intent(
                                    StagedModel { ticket, intent: intent@, enqueued_at: now },
                                ),
                            ),
                            next_ticket: counted(ticket, 1),
                            metrics: DurableQueuedControllerMetrics {
                                queue_depth: depth,
                                maximum_queue_depth: larger(
                                    old(self)@.metrics.maximum_queue_depth as int,
                                    depth as int,
                                ) as u64,
                                submitted: counted(old(self)@.metrics.submitted, 1),
                                ..old(self)@.metrics
                            },
                            ..old(self)@
                        })
                    },
                }
            }),
    {
        match self.metrics.state {
            DurableControllerState::Poisoned => {
                let reason = match &self.reason {
                    Some(reason) => reason.clone(),
                    None => "worker or store state is uncertain".to_owned(),
                };
                return Err(DurableSubmitError::Poisoned { intent, reason });
            },
            DurableControllerState::Running => {},
            _ => return Err(DurableSubmitError::Closed(intent)),
        }
        if self.closed {
            return Err(DurableSubmitError::Closed(intent));
        }
        proof {
            queued_tickets_count(self@.queue);
            assert(self@.queue.len() == self.queue@.len());
        }
        if self.queue.len() >= self.metrics.capacity {
            self.metrics.backpressured = counted_once(self.metrics.backpressured);
            return Err(DurableSubmitError::Full(intent));
        }
        let depth: u64 = match self.metrics.reserve_ingress() {
            Some(depth) => depth,
            None => {
                self.metrics.backpressured = counted_once(self.metrics.backpressured);
                return Err(DurableSubmitError::Full(intent));
            },
        };
        self.metrics.observe_queue_depth(depth);
        self.metrics.submitted = counted_once(self.metrics.submitted);
        let ticket: u64 = self.next_ticket;
        self.next_ticket = counted_once(ticket);
        let staged = StagedIntent { ticket, intent, enqueued_at: now };
        let ghost before = self.queue@;
        let ghost model = staged@;
        self.queue.push(ControllerCommand::Intent(staged));
        proof {
            assert(views(self.queue@) =~= views(before).push(CommandModel::Intent(model)));
            waiting_push(views(before), CommandModel::Intent(model));
        }
        Ok(ticket)
    }

    /// Puts a barrier in the queue: it is released when everything before it has been done.
    pub fn flush(&mut self) -> (result: Result<u64, DurableControllerStopped>)
        requires
            durable_ok(old(self)@),
        ensures
            durable_ok(final(self)@),
            old(self).wf() ==> final(self).wf(),
            final(self).stored() == old(self).stored(),
            final(self).lent() == old(self).lent(),
            match result {
                Err(stopped) => (old(self)@.metrics.state != DurableControllerState::Running || old(
                    self,
                )@.closed) && stopped.state == old(self)@.metrics.state && optional_words(
                    stopped.reason,
                ) == old(self)@.reason && final(self)@ == old(self)@,
                Ok(barrier) => old(self)@.metrics.state == DurableControllerState::Running && !old(
                    self,
                )@.closed && barrier == old(self)@.next_ticket && final(self)@ == (DurableModel {
                    queue: old(self)@.queue.push(CommandModel::Barrier(barrier)),
                    next_ticket: counted(barrier, 1),
                    ..old(self)@
                }),
            },
    {
        match self.metrics.state {
            DurableControllerState::Running => {},
            _ => return Err(self.stopped()),
        }
        if self.closed {
            return Err(self.stopped());
        }
        let barrier: u64 = self.next_ticket;
        self.next_ticket = counted_once(barrier);
        let ghost before = self.queue@;
        self.queue.push(ControllerCommand::Barrier(barrier));
        proof {
            assert(views(self.queue@) =~= views(before).push(CommandModel::Barrier(barrier)));
            waiting_push(views(before), CommandModel::Barrier(barrier));
        }
        Ok(barrier)
    }

    /// Begins to drain: takes no more commands, and takes up no more intents. Returns the state
    /// before.
    pub fn begin_shutdown(&mut self) -> (result: DurableControllerState)
        ensures
            result == old(self)@.metrics.state,
            final(self)@ == (DurableModel {
                metrics: DurableQueuedControllerMetrics {
                    state: if old(self)@.metrics.state == DurableControllerState::Starting || old(
                        self,
                    )@.metrics.state == DurableControllerState::Running {
                        DurableControllerState::Draining
                    } else {
                        old(self)@.metrics.state
                    },
                    ..old(self)@.metrics
                },
                closed: true,
                ..old(self)@
            }),
            final(self).stored() == old(self).stored(),
            final(self).lent() == old(self).lent(),
            durable_ok(old(self)@) ==> durable_ok(final(self)@),
            old(self).wf() ==> final(self).wf(),
    {
        let previous = self.metrics.state;
        match previous {
            DurableControllerState::Starting => {
                self.metrics.state = DurableControllerState::Draining;
            },
            DurableControllerState::Running => {
                self.metrics.state = DurableControllerState::Draining;
            },
            _ => {},
        }
        self.closed = true;
        previous
    }

    /// Ends a shutdown once the worker is gone.
    pub fn finish_shutdown(&mut self, previous_state: DurableControllerState) -> (result:
        DurableShutdownReport)
        ensures
            final(self)@ == (DurableModel {
                metrics: DurableQueuedControllerMetrics {
                    state: if old(self)@.metrics.state == DurableControllerState::Draining {
                        DurableControllerState::Closed
                    } else {
                        old(self)@.metrics.state
                    },
                    ..old(self)@.metrics
                },
                ..old(self)@
            }),
            final(self).stored() == old(self).stored(),
            final(self).lent() == old(self).lent(),
            durable_ok(old(self)@) ==> durable_ok(final(self)@),
            old(self).wf() ==> final(self).wf(),
            result.previous_state == previous_state,
            result.final_state == final(self)@.metrics.state,
            result.queued_stopped == old(self)@.metrics.shutdown_before_claim,
            result.worker_failures == old(self)@.metrics.worker_failed,
            optional_words(result.reason) == old(self)@.reason,
    {
        match self.metrics.state {
            DurableControllerState::Draining => {
                self.metrics.state = DurableControllerState::Closed;
            },
            _ => {},
        }
        DurableShutdownReport {
            previous_state,
            final_state: self.metrics.state,
            queued_stopped: self.metrics.shutdown_before_claim,
            worker_failures: self.metrics.worker_failed,
            reason: match &self.reason {
                Some(reason) => Some(reason.clone()),
                None => None,
            },
        }
    }

    /// Poisons the controller and its store: neither takes anything from now on.
    pub fn poison(&mut self, reason: &str)
        requires
            old(self).wf(),
        ensures
            final(self).wf(),
            final(self)@ == poisoned(old(self)@, reason@),
            final(self).stored().world() == old(self).stored().world(),
            final(self).stored().log() == old(self).stored().log(),
            final(self).stored().rules() == old(self).stored().rules(),
            final(self).stored().epoch_store()@ == (EpochStoreModel {
                state: FileEpochState::Poisoned,
                poison_reason: Some(reason@),
                ..old(self).stored().epoch_store()@
            }),
    {
        self.reason = Some(reason.to_owned());
        self.metrics.state = DurableControllerState::Poisoned;
        let mut database = self.lend();
        database.poison_store(reason);
        self.give_back(database);
    }

    /// The worker is gone: a controller that runs is poisoned, one that drains is closed.
    pub fn worker_exited(&mut self)
        requires
            old(self).wf(),
        ensures
            final(self).wf(),
            final(self)@ == (match old(self)@.metrics.state {
                DurableControllerState::Running => gone(
                    poisoned(old(self)@, exit_text(old(self)@.speculative)),
                ),
                DurableControllerState::Draining => gone(
                    DurableModel {
                        metrics: DurableQueuedControllerMetrics {
                            state: DurableControllerState::Closed,
                            ..old(self)@.metrics
                        },
                        ..old(self)@
                    },
                ),
                _ => gone(old(self)@),
            }),
            final(self).stored().world() == old(self).stored().world(),
            final(self).stored().log() == old(self).stored().log(),
            old(self)@.metrics.state != DurableControllerState::Running ==> final(self).stored()
                == old(self).stored(),
            old(self)@.metrics.state == DurableControllerState::Running ==> final(self).stored().epoch_store()@.state == FileEpochState::Poisoned,
    {
        match self.metrics.state {
            DurableControllerState::Running => {
                if self.speculative {
                    self.poison(
                        "speculative durability worker exited while controller was running",
                    );
                } else {
                    self.poison("durable worker exited while controller was running");
                }
            },
            DurableControllerState::Draining => {
                self.metrics.state = DurableControllerState::Closed;
            },
            _ => {},
        }
        self.metrics.worker_alive = false;
    }

    /// Counts a ticket that nobody waits for any more; what it stands for goes on.
    pub fn ticket_abandoned(&mut self)
        ensures
            final(self)@ == (DurableModel {
                metrics: DurableQueuedControllerMetrics {
                    abandoned_tickets: counted(old(self)@.metrics.abandoned_tickets, 1),
                    ..old(self)@.metrics
                },
                ..old(self)@
            }),
            final(self).stored() == old(self).stored(),
            final(self).lent() == old(self).lent(),
            durable_ok(old(self)@) ==> durable_ok(final(self)@),
            old(self).wf() ==> final(self).wf(),
    {
        self.metrics.abandoned_tickets = counted_once(self.metrics.abandoned_tickets);
    }

    /// Counts an outcome that could not be handed to the holder of its ticket.
    pub fn delivery_failed(&mut self)
        ensures
            final(self)@ == (DurableModel {
                metrics: DurableQueuedControllerMetrics {
                    completion_delivery_failures: counted(old(self)@.metrics.completion_delivery_failures, 1),
                    ..old(self)@.metrics
                },
                ..old(self)@
            }),
            final(self).stored() == old(self).stored(),
            final(self).lent() == old(self).lent(),
            durable_ok(old(self)@) ==> durable_ok(final(self)@),
            old(self).wf() ==> final(self).wf(),
    {
        self.metrics.completion_delivery_failures = counted_once(self.metrics.completion_delivery_failures);
    }

    /// Whether the effects of the batch can be counted.
    pub fn can_advance(&self) -> (result: bool)
        requires
            self.wf(),
        ensures
            result == self.batch_has_room(),
    {
        proof {
            reconstructed_facts(self.stored().log());
        }
        batch_fits(&self.database().snapshot(), &self.batch)
    }

    fn claim(&mut self, staged: StagedIntent, now: u64)
        requires
            old(self).metrics.queue_depth > 0,
        ensures
            final(self)@ == (DurableModel {
                batch: old(self)@.batch.push(staged@),
                metrics: claimed_durably(old(self)@.metrics, staged@.enqueued_at, now),
                ..old(self)@
            }),
            final(self).database == old(self).database,
    {
        self.metrics.release_ingress();
        self.metrics.claimed = counted_once(self.metrics.claimed);
        self.metrics.queue_wait_nanos = counted_more(
            self.metrics.queue_wait_nanos,
            now.saturating_sub(staged.enqueued_at),
        );
        let ghost before = self.batch@;
        let ghost model = staged@;
        self.batch.push(staged);
        proof {
            assert(views(self.batch@) =~= views(before).push(model));
        }
    }

    /// Takes the first command of the queue.
    fn shift(&mut self) -> (result: Option<ControllerCommand>)
        ensures
            final(self).database == old(self).database,
            match result {
                None => old(self)@.queue.len() == 0 && final(self)@ == old(self)@,
                Some(command) => old(self)@.queue.len() > 0 && command@ == old(self)@.queue[0]
                    && final(self)@ == (DurableModel {
                    queue: old(self)@.queue.drop_first(),
                    ..old(self)@
                }),
            },
    {
        if self.queue.len() == 0 {
            return None;
        }
        let ghost before = self.queue@;
        let command = self.queue.remove(0);
        proof {
            assert(views(self.queue@) =~= views(before).drop_first());
        }
        Some(command)
    }

    /// Takes the first command of the queue into the batch, or ends its taking.
    fn poll(&mut self, gathering: Gathering, now: u64, probe: bool) -> (result: DurableStep)
        requires
            durable_ok(old(self)@),
            old(self)@.gathering == Some(gathering),
            gathering.width < widest_of(gathering.policy),
        ensures
            final(self).database == old(self).database,
            ({
                let (after, step) = durably_polled(old(self)@, gathering, now, probe);
                final(self)@ == after && durably_shows(result, step)
            }),
    {
        proof {
            if self@.queue.len() > 0 {
                waiting_remove_first(self@.queue);
            }
        }
        let mut batch_state = gathering;
        match self.shift() {
            None => {
                batch_state.take_nothing();
                self.gathering = Some(batch_state);
                DurableStep::Deferred
            },
            Some(ControllerCommand::Intent(staged)) => {
                let ticket: u64 = staged.ticket;
                if probe {
                    batch_state.probe_intent(staged.enqueued_at);
                } else {
                    batch_state.take_intent(staged.enqueued_at);
                }
                self.claim(staged, now);
                self.gathering = Some(batch_state);
                DurableStep::Claimed(ticket)
            },
            Some(ControllerCommand::Barrier(barrier)) => {
                if probe {
                    batch_state.probe_barrier();
                } else {
                    batch_state.take_nothing();
                }
                self.pending.push(barrier);
                self.gathering = Some(batch_state);
                DurableStep::Deferred
            },
        }
    }

    fn count_probe(&mut self, wait: u64)
        ensures
            final(self)@ == probe_counted_durably(old(self)@, wait),
            final(self).database == old(self).database,
    {
        if !self.probed {
            self.probed = true;
            self.metrics.total_adaptive_probe_wait_ns = counted_more(
                self.metrics.total_adaptive_probe_wait_ns,
                wait,
            );
        }
    }

    /// Refuses everything that waits.
    fn drain(&mut self, reason: &DurableTicketStopReason) -> (result: (
        Vec<DurableResolution>,
        Vec<u64>,
    ))
        requires
            old(self).metrics.queue_depth == waiting_intents(old(self)@.queue),
        ensures
            final(self).database == old(self).database,
            final(self)@ == emptied(old(self)@, reason@),
            stops(result.0@, queued_tickets(old(self)@.queue), reason@),
            result.1@ == old(self)@.pending + queued_barriers(old(self)@.queue),
    {
        let ghost commands = views(self.queue@);
        let mut tickets: Vec<u64> = Vec::new();
        let mut refused: Vec<u64> = Vec::new();
        let mut index: usize = 0;
        while index < self.pending.len()
            invariant
                index <= self.pending.len(),
                refused@ == self.pending@.take(index as int),
            decreases self.pending.len() - index,
        {
            refused.push(self.pending[index]);
            proof {
                assert(refused@ =~= self.pending@.take(index + 1));
            }
            index += 1;
        }
        let mut place: usize = 0;
        proof {
            assert(self.pending@.take(index as int) =~= self.pending@);
            assert(commands.take(0) =~= Seq::empty());
            assert(refused@ =~= self.pending@ + queued_barriers(commands.take(0)));
        }
        while place < self.queue.len()
            invariant
                place <= self.queue.len(),
                commands == views(self.queue@),
                tickets@ == queued_tickets(commands.take(place as int)),
                refused@ == self.pending@ + queued_barriers(commands.take(place as int)),
            decreases self.queue.len() - place,
        {
            proof {
                assert(commands.take(place + 1).drop_last() =~= commands.take(place as int));
                assert(commands.take(place + 1).last() == self.queue@[place as int]@);
            }
            match &self.queue[place] {
                ControllerCommand::Intent(staged) => {
                    tickets.push(staged.ticket);
                },
                ControllerCommand::Barrier(barrier) => {
                    refused.push(*barrier);
                },
            }
            proof {
                assert(refused@ =~= self.pending@ + queued_barriers(commands.take(place + 1)));
            }
            place += 1;
        }
        proof {
            assert(commands.take(place as int) =~= commands);
            queued_tickets_count(commands);
            assert(tickets.len() == waiting_intents(commands));
        }
        let count: u64 = tickets.len() as u64;
        match reason {
            DurableTicketStopReason::ShutdownBeforeClaim => {
                self.metrics.shutdown_before_claim = counted_more(
                    self.metrics.shutdown_before_claim,
                    count,
                );
            },
            DurableTicketStopReason::WorkerFailed(_) => {
                self.metrics.worker_failed = counted_more(self.metrics.worker_failed, count);
            },
        }
        self.metrics.queue_depth = 0;
        self.queue = Vec::new();
        self.pending = Vec::new();
        let resolutions = route_stopped(tickets, reason);
        proof {
            assert(views(self.queue@) =~= Seq::empty());
            assert(self.pending@ =~= Seq::empty());
        }
        (resolutions, refused)
    }

    /// Without a batch: refuses what waits, releases a barrier, or takes the next command.
    fn take_up(&mut self, now: u64) -> (result: DurableStep)
        requires
            durable_ok(old(self)@),
            old(self)@.gathering is None,
        ensures
            final(self).database == old(self).database,
            match durably_taken_up(old(self)@, now) {
                (_, DurableNext::Drain(reason)) => {
                    &&& result matches DurableStep::Drained(stopped, refused)
                    &&& stops(stopped@, queued_tickets(old(self)@.queue), reason)
                    &&& refused@ == old(self)@.pending + queued_barriers(old(self)@.queue)
                    &&& final(self)@ == emptied(old(self)@, reason)
                },
                (after, step) => final(self)@ == after && durably_shows(result, step),
            },
    {
        proof {
            assert(self@.queue.len() == self.queue@.len());
            if self@.queue.len() > 0 {
                waiting_remove_first(self@.queue);
            }
        }
        if self.pending.len() == 0 && self.queue.len() == 0 {
            return if self.closed {
                DurableStep::Finished
            } else {
                DurableStep::Idle
            };
        }
        match self.metrics.state {
            DurableControllerState::Draining | DurableControllerState::Closed => {
                let (stopped, refused) = self.drain(&DurableTicketStopReason::ShutdownBeforeClaim);
                return DurableStep::Drained(stopped, refused);
            },
            DurableControllerState::Poisoned => {
                let message = match &self.reason {
                    Some(reason) => reason.clone(),
                    None => "durable controller is poisoned".to_owned(),
                };
                let (stopped, refused) = self.drain(
                    &DurableTicketStopReason::WorkerFailed(message),
                );
                return DurableStep::Drained(stopped, refused);
            },
            _ => {},
        }
        if self.pending.len() > 0 {
            let ghost before = self.pending@;
            let barrier: u64 = self.pending.remove(0);
            if !self.speculative {
                self.metrics.record_seal_reason(BatchSealReason::Barrier);
            }
            proof {
                assert(self.pending@ =~= before.drop_first());
            }
            return DurableStep::Released(barrier);
        }
        match self.shift() {
            None => DurableStep::Idle,
            Some(ControllerCommand::Barrier(barrier)) => {
                if !self.speculative {
                    self.metrics.record_seal_reason(BatchSealReason::Barrier);
                }
                DurableStep::Released(barrier)
            },
            Some(ControllerCommand::Intent(staged)) => {
                let ticket: u64 = staged.ticket;
                let batch_state = Gathering::begin(
                    self.policy,
                    self.adaptive.target_width,
                    staged.enqueued_at,
                    now,
                );
                let ghost model = staged@;
                let ghost before = self@.batch;
                self.claim(staged, now);
                self.gathering = Some(batch_state);
                self.probed = false;
                proof {
                    assert(before.push(model) =~= seq![model]);
                }
                DurableStep::Claimed(ticket)
            },
        }
    }

    /// Follows the traffic that a sealed batch shows, and counts it.
    fn seal(&mut self, gathering: Gathering, reason: BatchSealReason, now: u64)
        requires
            old(self)@.adaptive.target_width < usize::MAX,
            old(self)@.adaptive.target_width <= widest_of(old(self)@.policy),
            gathering.policy == old(self)@.policy,
        ensures
            final(self).database == old(self).database,
            final(self)@ == durably_sealed(old(self)@, gathering, reason, now),
    {
        if let BatchPolicy::Adaptive { min_batch, max_batch, .. } = self.policy {
            proof {
                target_stays_in_bounds(
                    self.adaptive.target_width as int,
                    reason,
                    gathering.width as int,
                    min_batch as int,
                    max_batch as int,
                );
            }
            self.metrics.record_oldest_age_at_seal(gathering.age(now));
            self.adaptive.update_target(reason, gathering.width, min_batch, max_batch);
            self.metrics.record_max_target_width(self.adaptive.target_width);
        }
        self.metrics.record_seal_reason(reason);
    }
}

/// What is said of a worker that is gone while its controller runs.
pub open spec fn exit_text(speculative: bool) -> Seq<char> {
    if speculative {
        "speculative durability worker exited while controller was running"@
    } else {
        "durable worker exited while controller was running"@
    }
}

/// What is said before why the worker of an epoch broke down.
pub open spec fn breakdown_label(speculative: bool) -> Seq<char> {
    if speculative {
        "speculative epoch derivation failed: "@
    } else {
        "durable epoch worker failed: "@
    }
}

/// The worker is gone.
pub open spec fn gone(state: DurableModel) -> DurableModel {
    DurableModel {
        metrics: DurableQueuedControllerMetrics { worker_alive: false, ..state.metrics },
        ..state
    }
}

/// A step is the one that was expected.
pub open spec fn durably_shows(step: DurableStep, model: DurableNext) -> bool {
    match (step, model) {
        (DurableStep::Idle, DurableNext::Idle) => true,
        (DurableStep::Finished, DurableNext::Finished) => true,
        (DurableStep::Claimed(ticket), DurableNext::Claimed(expected)) => ticket == expected,
        (DurableStep::Deferred, DurableNext::Deferred) => true,
        (DurableStep::Waiting(wait), DurableNext::Waiting(expected)) => wait == expected,
        (DurableStep::Released(barrier), DurableNext::Released(expected)) => barrier == expected,
        _ => false,
    }
}

/// The controller after an epoch could not be planned: it is poisoned, and all that waited is
/// refused. Such an epoch counts, or not.
pub open spec fn after_breakdown(
    state: DurableModel,
    reason: Seq<char>,
    counts: bool,
    times: DurableQueuedControllerMetrics,
) -> DurableModel {
    let stopped = DurableModel {
        batch: Seq::empty(),
        gathering: None,
        metrics: timed(
            DurableQueuedControllerMetrics {
                worker_failed: counted(state.metrics.worker_failed, 1),
                in_flight: 0,
                epochs: if counts {
                    counted(state.metrics.epochs, 1)
                } else {
                    state.metrics.epochs
                },
                ..state.metrics
            },
            times,
        ),
        closed: true,
        ..state
    };
    emptied(poisoned(stopped, reason), StopReasonModel::WorkerFailed(reason))
}

/// Everything was stopped: the tickets of an epoch that could not be planned, and all that waited.
pub open spec fn breaks_down(
    state: DurableModel,
    after: DurableModel,
    reason: Seq<char>,
    counts: bool,
    tickets: Seq<u64>,
    step: DurableStep,
) -> bool {
    &&& step matches DurableStep::Drained(stopped, refused)
    &&& stops(
        stopped@,
        tickets + queued_tickets(state.queue),
        StopReasonModel::WorkerFailed(reason),
    )
    &&& refused@ == state.pending + queued_barriers(state.queue)
    &&& after == after_breakdown(state, reason, counts, state.metrics)
}

/// What the tickets of a batch are told of its epoch, and what the controller is then.
pub open spec fn epoch_concluded<I: EpochFileIo>(
    state: DurableModel,
    committed: Database<FileEpochStore<I>>,
    after_state: DurableModel,
    after: Database<FileEpochStore<I>>,
    tickets: Seq<u64>,
    commit: DurableCommit,
    step: DurableStep,
) -> bool {
    match commit {
        DurableCommit::Committed(plan) => {
            &&& step matches DurableStep::Resolved(resolutions)
            &&& resolves_durably(resolutions@, tickets, plan@.outcomes, None)
            &&& after_state == after_epoch(state, plan@.outcomes, None, after_state.metrics)
            &&& after == committed
        },
        DurableCommit::Failed(plan, error) => {
            &&& step matches DurableStep::Resolved(resolutions)
            &&& resolves_durably(
                resolutions@,
                tickets,
                plan@.outcomes,
                Some(epoch_error_text(error@)),
            )
            &&& after_state == after_epoch(
                state,
                plan@.outcomes,
                Some(epoch_error_text(error@)),
                after_state.metrics,
            )
            &&& after == committed
        },
        DurableCommit::Broken(message) => {
            let reason = "durable epoch worker failed: "@ + message@;
            &&& step matches DurableStep::Drained(stopped, refused)
            &&& stops(
                stopped@,
                tickets + queued_tickets(state.queue),
                StopReasonModel::WorkerFailed(reason),
            )
            &&& refused@ == state.pending + queued_barriers(state.queue)
            &&& after_state == after_breakdown(state, reason, false, after_state.metrics)
            &&& after.world() == committed.world()
            &&& after.log() == committed.log()
            &&& after.epoch_store()@.state == FileEpochState::Poisoned
        },
    }
}

/// What became of a sealed batch: how its epoch was committed, what the tickets are told, and what
/// the controller is then.
#[verifier::opaque]
pub open spec fn batch_processed<I: EpochFileIo>(
    state: DurableModel,
    before: Database<FileEpochStore<I>>,
    after_state: DurableModel,
    after: Database<FileEpochStore<I>>,
    commit: DurableCommit,
    committed: Database<FileEpochStore<I>>,
    step: DurableStep,
) -> bool {
    &&& durably_commits(before, committed, batch_intents(state.batch), commit)
    &&& epoch_concluded(
        state,
        committed,
        after_state,
        after,
        batch_tickets(state.batch),
        commit,
        step,
    )
}

/// The controller after its batch was sealed and taken out.
pub open spec fn batch_taken(
    state: DurableModel,
    gathering: Gathering,
    reason: BatchSealReason,
    now: u64,
) -> DurableModel {
    let sealed = durably_sealed(state, gathering, reason, now);
    DurableModel {
        batch: Seq::empty(),
        gathering: None,
        metrics: DurableQueuedControllerMetrics {
            in_flight: state.batch.len() as u64,
            ..sealed.metrics
        },
        ..sealed
    }
}

impl<I: EpochFileIo> DurableQueuedIntentController<I> {
    /// Counts a processed epoch.
    fn count_epoch(&mut self, started: u64, delivery_started: u64, ended: u64)
        ensures
            final(self).database == old(self).database,
            final(self)@ == (DurableModel {
                metrics: DurableQueuedControllerMetrics {
                    epochs: counted(old(self)@.metrics.epochs, 1),
                    in_flight: 0,
                    delivery_nanos: counted(
                        old(self)@.metrics.delivery_nanos,
                        age_of(delivery_started, ended) as nat,
                    ),
                    epoch_total_nanos: counted(
                        old(self)@.metrics.epoch_total_nanos,
                        age_of(started, ended) as nat,
                    ),
                    ..old(self)@.metrics
                },
                ..old(self)@
            }),
    {
        self.metrics.delivery_nanos = counted_more(
            self.metrics.delivery_nanos,
            ended.saturating_sub(delivery_started),
        );
        self.metrics.epochs = counted_once(self.metrics.epochs);
        self.metrics.in_flight = 0;
        self.metrics.epoch_total_nanos = counted_more(
            self.metrics.epoch_total_nanos,
            ended.saturating_sub(started),
        );
    }

    fn count_times(&mut self, times: CommitTimes)
        ensures
            final(self).database == old(self).database,
            final(self)@ == (DurableModel {
                metrics: DurableQueuedControllerMetrics {
                    derive_nanos: counted(old(self)@.metrics.derive_nanos, times.derive as nat),
                    persist_nanos: counted(old(self)@.metrics.persist_nanos, times.persist as nat),
                    publish_nanos: counted(old(self)@.metrics.publish_nanos, times.publish as nat),
                    ..old(self)@.metrics
                },
                ..old(self)@
            }),
    {
        self.metrics.derive_nanos = counted_more(self.metrics.derive_nanos, times.derive);
        self.metrics.persist_nanos = counted_more(self.metrics.persist_nanos, times.persist);
        self.metrics.publish_nanos = counted_more(self.metrics.publish_nanos, times.publish);
    }

    /// Stops everything after an epoch whose worker broke down: its tickets, and all that waits.
    pub fn break_down(&mut self, tickets: Vec<u64>, message: String) -> (result: DurableStep)
        requires
            old(self).wf(),
            old(self)@.gathering is None,
        ensures
            final(self).wf(),
            final(self).stored().rules() == old(self).stored().rules(),
            final(self).stored().world() == old(self).stored().world(),
            final(self).stored().log() == old(self).stored().log(),
            final(self).stored().epoch_store()@.state == FileEpochState::Poisoned,
            breaks_down(
                old(self)@,
                final(self)@,
                breakdown_label(old(self)@.speculative) + message@,
                old(self)@.speculative,
                tickets@,
                result,
            ),
    {
        let label = if self.speculative {
            "speculative epoch derivation failed: "
        } else {
            "durable epoch worker failed: "
        };
        let counts = self.speculative;
        self.stop_all(tickets, joined(label, message.as_str()), counts)
    }

    /// Poisons the controller for a reason, and stops its tickets and all that waits.
    fn stop_all(&mut self, tickets: Vec<u64>, reason: String, counts: bool) -> (result:
        DurableStep)
        requires
            old(self).wf(),
            old(self)@.gathering is None,
        ensures
            final(self).wf(),
            final(self).stored().rules() == old(self).stored().rules(),
            final(self).stored().world() == old(self).stored().world(),
            final(self).stored().log() == old(self).stored().log(),
            final(self).stored().epoch_store()@.state == FileEpochState::Poisoned,
            breaks_down(old(self)@, final(self)@, reason@, counts, tickets@, result),
    {
        let ghost start = self@;
        let ghost reason_words = reason@;
        let stop = DurableTicketStopReason::WorkerFailed(reason.clone());
        let mut stopped = route_stopped(tickets, &stop);
        self.metrics.worker_failed = counted_once(self.metrics.worker_failed);
        self.metrics.in_flight = 0;
        if counts {
            self.metrics.epochs = counted_once(self.metrics.epochs);
        }
        self.poison(reason.as_str());
        self.closed = true;
        let (mut rest, refused) = self.drain(&stop);
        let ghost first = stopped@;
        let ghost second = rest@;
        stopped.append(&mut rest);
        proof {
            assert(stopped@ =~= first + second);
            assert(stops(
                stopped@,
                tickets@ + queued_tickets(start.queue),
                StopReasonModel::WorkerFailed(reason_words),
            )) by {
                assert forall|i: int| 0 <= i < stopped@.len() implies (
                #[trigger] stopped@[i]).ticket == (tickets@ + queued_tickets(start.queue))[i]
                    && stopped@[i].outcome@ == DurableOutcomeModel::Stopped(
                    StopReasonModel::WorkerFailed(reason_words),
                ) by {
                    if i < first.len() {
                        assert(stopped@[i] == first[i]);
                    } else {
                        assert(stopped@[i] == second[i - first.len()]);
                    }
                }
            }
            assert(start.batch =~= Seq::empty());
        }
        DurableStep::Drained(stopped, refused)
    }

    /// Takes out the batch that is to be sealed now, if one is. Its epoch is committed on the
    /// database, and then concluded.
    pub fn take_batch(&mut self, now: u64, predicted: u64) -> (result: Option<SealedBatch>)
        requires
            durable_ok(old(self)@),
        ensures
            durable_ok(final(self)@),
            final(self).stored() == old(self).stored(),
            final(self).lent() == old(self).lent(),
            match durable_next_step(old(self)@, now, predicted).1 {
                DurableNext::Seal(reason) => {
                    &&& result matches Some(sealed)
                    &&& sealed.tickets@ == batch_tickets(old(self)@.batch)
                    &&& views(sealed.intents@) == batch_intents(old(self)@.batch)
                    &&& final(self)@ == batch_taken(
                        old(self)@,
                        old(self)@.gathering->Some_0,
                        reason,
                        now,
                    )
                },
                _ => result is None && final(self)@ == old(self)@,
            },
    {
        let gathering = match self.gathering {
            None => return None,
            Some(gathering) => gathering,
        };
        let running = match self.metrics.state {
            DurableControllerState::Running => true,
            _ => false,
        };
        let reason = match gathering.decide(now, running, predicted) {
            GatherAction::Seal(reason) => reason,
            _ => return None,
        };
        self.seal(gathering, reason, now);
        proof {
            target_stays_in_bounds(
                old(self)@.adaptive.target_width as int,
                reason,
                gathering.width as int,
                min_batch_of(old(self)@.policy) as int,
                max_batch_of(old(self)@.policy) as int,
            );
        }
        let mut batch: Vec<StagedIntent> = Vec::new();
        core::mem::swap(&mut self.batch, &mut batch);
        self.gathering = None;
        self.metrics.in_flight = batch.len() as u64;
        let (tickets, intents) = split_batch(batch);
        proof {
            assert(views(self.batch@) =~= Seq::empty());
        }
        Some(SealedBatch { tickets, intents })
    }

    /// Tells the tickets of a batch what became of its epoch, and counts it. The database is the
    /// one on which it was committed.
    pub fn conclude_epoch<C: Clock>(
        &mut self,
        tickets: Vec<u64>,
        commit: DurableCommit,
        times: CommitTimes,
        started: u64,
        clock: &mut C,
    ) -> (result: DurableStep)
        requires
            old(self).wf(),
            old(self)@.gathering is None,
            commit matches DurableCommit::Committed(plan) ==> plan@.outcomes.len()
                == tickets@.len(),
            commit matches DurableCommit::Failed(plan, _) ==> plan@.outcomes.len()
                == tickets@.len(),
        ensures
            final(self).wf(),
            final(self).stored().rules() == old(self).stored().rules(),
            epoch_concluded(
                old(self)@,
                old(self).stored(),
                final(self)@,
                final(self).stored(),
                tickets@,
                commit,
                result,
            ),
    {
        proof {
            assert(self@.batch =~= Seq::empty());
        }
        self.count_times(times);
        let delivery_started: u64 = clock.now();
        match commit {
            DurableCommit::Committed(plan) => {
                let resolutions = route_outcomes(
                    &mut self.metrics,
                    tickets,
                    plan.into_outcomes(),
                    None,
                );
                let ended: u64 = clock.now();
                self.count_epoch(started, delivery_started, ended);
                DurableStep::Resolved(resolutions)
            },
            DurableCommit::Failed(plan, error) => {
                let text = error.describe();
                let resolutions = route_outcomes(
                    &mut self.metrics,
                    tickets,
                    plan.into_outcomes(),
                    Some(text),
                );
                let ended: u64 = clock.now();
                self.count_epoch(started, delivery_started, ended);
                DurableStep::Resolved(resolutions)
            },
            DurableCommit::Broken(message) => {
                let reason = joined("durable epoch worker failed: ", message.as_str());
                let step = self.stop_all(tickets, reason, false);
                let ended: u64 = clock.now();
                self.metrics.delivery_nanos = counted_more(
                    self.metrics.delivery_nanos,
                    ended.saturating_sub(delivery_started),
                );
                self.metrics.epoch_total_nanos = counted_more(
                    self.metrics.epoch_total_nanos,
                    ended.saturating_sub(started),
                );
                step
            },
        }
    }

    /// Commits the batch as one epoch and tells each ticket what became of its intent.
    fn process_batch<C: Clock>(&mut self, clock: &mut C) -> (result: DurableStep)
        requires
            old(self).wf(),
            old(self).batch_has_room(),
        ensures
            final(self).wf(),
            final(self).stored().rules() == old(self).stored().rules(),
            exists|commit: DurableCommit, committed: Database<FileEpochStore<I>>| #[trigger]
                batch_processed(
                    old(self)@,
                    old(self).stored(),
                    final(self)@,
                    final(self).stored(),
                    commit,
                    committed,
                    result,
                ),
    {
        let ghost start = self@;
        let ghost begin = self.stored();
        let started: u64 = clock.now();
        let mut batch: Vec<StagedIntent> = Vec::new();
        core::mem::swap(&mut self.batch, &mut batch);
        self.gathering = None;
        let (tickets, intents) = split_batch(batch);
        let ghost told = tickets@;
        let mut database = self.lend();
        let (commit, times) = database.commit_durable_epoch(intents, clock);
        let ghost committed = database;
        let ghost outcome = commit;
        self.give_back(database);
        proof {
            assert(views(self.batch@) =~= Seq::empty());
            assert(batch_tickets(start.batch).len() == start.batch.len());
            assert(batch_intents(start.batch).len() == start.batch.len());
        }
        let step = self.conclude_epoch(tickets, commit, times, started, clock);
        proof {
            reveal(batch_processed);
            assert(batch_processed(
                start,
                begin,
                self@,
                self.stored(),
                outcome,
                committed,
                step,
            ));
        }
        step
    }

    /// Does the next thing that there is to do, at a time, with the predicted time between two
    /// intents.
    pub fn advance<C: Clock>(&mut self, now: u64, predicted: u64, clock: &mut C) -> (result:
        DurableStep)
        requires
            old(self).wf(),
            old(self).batch_has_room(),
        ensures
            final(self).wf(),
            final(self).stored().rules() == old(self).stored().rules(),
            match durable_next_step(old(self)@, now, predicted) {
                (_, DurableNext::Seal(reason)) => exists|
                    commit: DurableCommit,
                    committed: Database<FileEpochStore<I>>,
                | #[trigger]
                    batch_processed(
                        durably_sealed(
                            old(self)@,
                            old(self)@.gathering->Some_0,
                            reason,
                            now,
                        ),
                        old(self).stored(),
                        final(self)@,
                        final(self).stored(),
                        commit,
                        committed,
                        result,
                    ),
                (_, DurableNext::Drain(reason)) => {
                    &&& result matches DurableStep::Drained(stopped, refused)
                    &&& stops(stopped@, queued_tickets(old(self)@.queue), reason)
                    &&& refused@ == old(self)@.pending + queued_barriers(old(self)@.queue)
                    &&& final(self)@ == emptied(old(self)@, reason)
                    &&& final(self).stored() == old(self).stored()
                },
                (after, step) => final(self)@ == after && durably_shows(result, step) && final(self).stored() == old(self).stored(),
            },
    {
        proof {
            durable_steps_keep_order(self@, now, predicted);
        }
        let gathering = match self.gathering {
            None => return self.take_up(now),
            Some(gathering) => gathering,
        };
        match self.gather(gathering, now, predicted) {
            Ok(step) => step,
            Err(reason) => {
                self.seal(gathering, reason, now);
                proof {
                    target_stays_in_bounds(
                        old(self)@.adaptive.target_width as int,
                        reason,
                        gathering.width as int,
                        min_batch_of(old(self)@.policy) as int,
                        max_batch_of(old(self)@.policy) as int,
                    );
                }
                self.process_batch(clock)
            },
        }
    }

    /// Gathers on, or says why the batch is sealed.
    fn gather(&mut self, gathering: Gathering, now: u64, predicted: u64) -> (result: Result<
        DurableStep,
        BatchSealReason,
    >)
        requires
            durable_ok(old(self)@),
            old(self)@.gathering == Some(gathering),
        ensures
            final(self).database == old(self).database,
            match durable_next_step(old(self)@, now, predicted) {
                (_, DurableNext::Seal(reason)) => result == Err::<DurableStep, BatchSealReason>(
                    reason,
                ) && final(self)@ == old(self)@,
                (after, step) => final(self)@ == after && (result matches Ok(shown)
                    && durably_shows(shown, step)),
            },
    {
        let running = match self.metrics.state {
            DurableControllerState::Running => true,
            _ => false,
        };
        let action = gathering.decide(now, running, predicted);
        proof {
            if !(action is Seal) {
                batches_never_overflow(gathering, now, running, predicted, now);
            }
            assert(self@.queue.len() == self.queue@.len());
        }
        match action {
            GatherAction::Poll => Ok(self.poll(gathering, now, false)),
            GatherAction::Wait(wait) => if self.queue.len() == 0 && !self.closed {
                Ok(DurableStep::Waiting(wait))
            } else {
                Ok(self.poll(gathering, now, false))
            },
            GatherAction::Probe(wait) => {
                self.count_probe(wait);
                proof {
                    assert(self@.queue.len() == self.queue@.len());
                }
                if self.queue.len() > 0 {
                    Ok(self.poll(gathering, now, true))
                } else if self.closed {
                    let mut batch_state = gathering;
                    batch_state.probe_nothing(predicted);
                    self.gathering = Some(batch_state);
                    Ok(DurableStep::Deferred)
                } else {
                    Ok(DurableStep::Waiting(wait))
                }
            },
            GatherAction::Seal(reason) => Err(reason),
        }
    }

    /// The time that a batch waited has passed, and no command came.
    pub fn waited(&mut self, predicted: u64)
        requires
            durable_ok(old(self)@),
        ensures
            durable_ok(final(self)@),
            old(self).wf() ==> final(self).wf(),
            final(self).stored() == old(self).stored(),
            final(self).lent() == old(self).lent(),
            final(self)@ == (DurableModel {
                gathering: match old(self)@.gathering {
                    None => None,
                    Some(gathering) => Some(
                        if old(self)@.policy is Adaptive && gathering.stage == GatherStage::Draining {
                            unanswered(gathering, predicted)
                        } else {
                            (Gathering { open: false, ..gathering })
                        },
                    ),
                },
                ..old(self)@
            }),
    {
        if let Some(gathering) = self.gathering {
            let mut batch_state = gathering;
            match (self.policy, gathering.stage) {
                (BatchPolicy::Adaptive { .. }, GatherStage::Draining) => {
                    batch_state.probe_nothing(predicted);
                },
                _ => {
                    batch_state.take_nothing();
                },
            }
            self.gathering = Some(batch_state);
        }
    }
}

/// A poisoned controller stays poisoned, whatever it does next, and takes no intent.
pub proof fn poisoned_controllers_stay(state: DurableModel, now: u64, predicted: u64)
    requires
        state.metrics.state == DurableControllerState::Poisoned,
    ensures
        durable_next_step(state, now, predicted).0.metrics.state
            == DurableControllerState::Poisoned,
        state.gathering is None ==> !(durable_next_step(state, now, predicted).1 is Claimed),
{
}

/// How many intents stand at the front of a queue, up to a limit.
pub open spec fn leading(queue: Seq<CommandModel>, limit: nat) -> nat
    decreases limit,
{
    if limit == 0 {
        0
    } else {
        let before = leading(queue, (limit - 1) as nat);
        if before == limit - 1 && before < queue.len() && queue[before as int] is Intent {
            limit
        } else {
            before
        }
    }
}

pub proof fn leading_facts(queue: Seq<CommandModel>, limit: nat)
    ensures
        leading(queue, limit) <= limit,
        leading(queue, limit) <= queue.len(),
        forall|i: int| 0 <= i < leading(queue, limit) ==> (#[trigger] queue[i]) is Intent,
        leading(queue, limit) < limit && leading(queue, limit) < queue.len() ==> queue[leading(
            queue,
            limit,
        ) as int] is Barrier,
    decreases limit,
{
    if limit > 0 {
        leading_facts(queue, (limit - 1) as nat);
    }
}

pub proof fn leading_is(queue: Seq<CommandModel>, limit: nat, count: nat)
    requires
        count <= limit,
        count <= queue.len(),
        forall|i: int| 0 <= i < count ==> (#[trigger] queue[i]) is Intent,
        count == limit || count == queue.len() || queue[count as int] is Barrier,
    ensures
        leading(queue, limit) == count,
{
    leading_facts(queue, limit);
    let found = leading(queue, limit);
    if found < count {
        assert(queue[found as int] is Intent);
    } else if found > count {
        assert(queue[count as int] is Intent);
    }
}

/// The tickets of the first commands of a queue, which are intents.
pub open spec fn front_tickets(queue: Seq<CommandModel>, count: nat) -> Seq<u64> {
    Seq::new(count, |i: int| queue[i]->Intent_0.ticket)
}

pub open spec fn front_intents(queue: Seq<CommandModel>, count: nat) -> Seq<IntentModel> {
    Seq::new(count, |i: int| queue[i]->Intent_0.intent)
}

/// How long the first commands of a queue, which are intents, have waited together.
pub open spec fn front_waits(queue: Seq<CommandModel>, count: nat, now: u64) -> nat
    decreases count,
{
    if count == 0 {
        0
    } else {
        front_waits(queue, (count - 1) as nat, now) + age_of(
            queue[count - 1]->Intent_0.enqueued_at,
            now,
        ) as nat
    }
}

/// How many intents a successor takes from the queue.
pub open spec fn claimable(state: DurableModel) -> nat {
    if state.metrics.state == DurableControllerState::Running {
        leading(state.queue, max_batch_of(state.policy) as nat)
    } else {
        0
    }
}

/// The controller after a successor was claimed: as many intents from the front of the queue as a
/// batch holds, and the barrier behind them set aside.
pub open spec fn after_claim(state: DurableModel, now: u64) -> DurableModel {
    if state.metrics.state != DurableControllerState::Running {
        state
    } else {
        let count = claimable(state);
        let barrier = ending_barrier(state.queue, count, max_batch_of(state.policy) as nat);
        DurableModel {
            queue: state.queue.skip((count + barrier.len()) as int),
            pending: state.pending + barrier,
            metrics: DurableQueuedControllerMetrics {
                queue_depth: (state.metrics.queue_depth - count) as u64,
                claimed: counted(state.metrics.claimed, count),
                queue_wait_nanos: counted(
                    state.metrics.queue_wait_nanos,
                    front_waits(state.queue, count, now),
                ),
                ..state.metrics
            },
            ..state
        }
    }
}

/// The barrier that ends the claiming of a successor, if one does.
pub open spec fn ending_barrier(queue: Seq<CommandModel>, count: nat, limit: nat) -> Seq<u64> {
    if count < limit && count < queue.len() {
        seq![queue[count as int]->Barrier_0]
    } else {
        Seq::empty()
    }
}

impl<I: EpochFileIo> DurableQueuedIntentController<I> {
    /// Takes the intents at the front of the queue, as many as a batch holds, while the
    /// controller runs. A barrier behind them is set aside.
    pub fn claim_successor(&mut self, now: u64) -> (result: Option<UnplannedBatch>)
        requires
            durable_ok(old(self)@),
        ensures
            durable_ok(final(self)@),
            final(self).stored() == old(self).stored(),
            final(self).lent() == old(self).lent(),
            ({
                let count = claimable(old(self)@);
                &&& final(self)@ == after_claim(old(self)@, now)
                &&& match result {
                    None => count == 0,
                    Some(batch) => count > 0 && batch.tickets@ == front_tickets(
                        old(self)@.queue,
                        count,
                    ) && views(batch.intents@) == front_intents(old(self)@.queue, count)
                        && batch.tickets.len() == batch.intents.len(),
                }
            }),
    {
        match self.metrics.state {
            DurableControllerState::Running => {},
            _ => return None,
        }
        let ghost start = self@;
        let max_batch: usize = self.policy.max_batch();
        let mut tickets: Vec<u64> = Vec::new();
        let mut intents: Vec<QueuedIntent> = Vec::new();
        let mut ended = false;
        let ghost mut barriers: Seq<u64> = Seq::empty();
        proof {
            counted_twice(start.metrics.claimed, 0, 0);
            counted_twice(start.metrics.queue_wait_nanos, 0, 0);
            assert(start.queue.skip(0) =~= start.queue);
            assert(start.pending + barriers =~= start.pending);
        }
        while tickets.len() < max_batch && !ended
            invariant
                max_batch == max_batch_of(start.policy),
                tickets.len() <= max_batch,
                intents.len() == tickets.len(),
                tickets.len() <= start.queue.len(),
                forall|i: int| 0 <= i < tickets.len() ==> (#[trigger] start.queue[i]) is Intent,
                forall|i: int|
                    0 <= i < tickets.len() ==> #[trigger] tickets@[i]
                        == start.queue[i]->Intent_0.ticket,
                forall|i: int|
                    0 <= i < intents.len() ==> (#[trigger] intents@[i])@
                        == start.queue[i]->Intent_0.intent,
                !ended ==> barriers.len() == 0,
                ended ==> tickets.len() == start.queue.len() && barriers.len() == 0
                    || tickets.len() < start.queue.len() && start.queue[tickets.len() as int]
                    is Barrier && barriers == seq![start.queue[tickets.len() as int]->Barrier_0],
                ended ==> tickets.len() < max_batch,
                self.database == old(self).database,
                durable_ok(start),
                durable_ok(self@),
                self@.queue == start.queue.skip((tickets.len() + barriers.len()) as int),
                self@.pending == start.pending + barriers,
                start.metrics.queue_depth == tickets.len() + self@.metrics.queue_depth,
                self@ == (DurableModel {
                    queue: self@.queue,
                    pending: self@.pending,
                    metrics: DurableQueuedControllerMetrics {
                        queue_depth: (start.metrics.queue_depth - tickets.len()) as u64,
                        claimed: counted(start.metrics.claimed, tickets@.len()),
                        queue_wait_nanos: counted(
                            start.metrics.queue_wait_nanos,
                            front_waits(start.queue, tickets@.len(), now),
                        ),
                        ..start.metrics
                    },
                    ..start
                }),
            decreases max_batch - tickets.len(), if ended { 0int } else { 1int },
        {
            let ghost done = tickets.len() as int;
            let ghost before = self@;
            proof {
                if before.queue.len() > 0 {
                    waiting_remove_first(before.queue);
                    assert(before.queue[0] == start.queue[done]);
                    assert(before.queue.drop_first() =~= start.queue.skip(done + 1));
                }
            }
            match self.shift() {
                None => {
                    ended = true;
                },
                Some(ControllerCommand::Barrier(barrier)) => {
                    self.pending.push(barrier);
                    ended = true;
                    proof {
                        barriers = seq![barrier];
                        assert(self@.pending =~= start.pending + barriers);
                    }
                },
                Some(ControllerCommand::Intent(staged)) => {
                    self.metrics.release_ingress();
                    self.metrics.claimed = counted_once(self.metrics.claimed);
                    self.metrics.queue_wait_nanos = counted_more(
                        self.metrics.queue_wait_nanos,
                        now.saturating_sub(staged.enqueued_at),
                    );
                    proof {
                        counted_twice(start.metrics.claimed, done as nat, 1);
                        counted_twice(
                            start.metrics.queue_wait_nanos,
                            front_waits(start.queue, done as nat, now),
                            age_of(staged.enqueued_at, now) as nat,
                        );
                    }
                    tickets.push(staged.ticket);
                    intents.push(staged.intent);
                },
            }
        }
        proof {
            leading_is(start.queue, max_batch as nat, tickets@.len());
            assert(claimable(start) == tickets@.len());
            assert(ending_barrier(start.queue, tickets@.len(), max_batch as nat) =~= barriers);
            assert(tickets@ =~= front_tickets(start.queue, tickets@.len()));
            assert(views(intents@) =~= front_intents(start.queue, tickets@.len()));
        }
        if tickets.len() == 0 {
            None
        } else {
            Some(UnplannedBatch { tickets, intents })
        }
    }

    /// Whether a batch is being gathered.
    pub fn is_gathering(&self) -> (result: bool)
        ensures
            result == (self@.gathering is Some),
    {
        self.gathering.is_some()
    }

    /// Whether a batch was gathered that takes nothing more now: it is full, or closed to more, or
    /// nothing waits.
    pub fn pipeline_ready(&self) -> (result: bool)
        requires
            durable_ok(self@),
        ensures
            result == (self@.gathering is Some && (self@.batch.len() >= self@.metrics.max_batch
                || self@.metrics.state != DurableControllerState::Running || self@.pending.len() > 0
                || self@.queue.len() == 0)),
    {
        proof {
            assert(self@.batch.len() == self.batch.len());
            assert(self@.queue.len() == self.queue.len());
        }
        let running = match self.metrics.state {
            DurableControllerState::Running => true,
            _ => false,
        };
        self.gathering.is_some() && (self.batch.len() >= self.metrics.max_batch || !running
            || self.pending.len() > 0 || self.queue.len() == 0)
    }

    /// Takes out the batch that was gathered, to be planned.
    pub fn take_gathered(&mut self) -> (result: UnplannedBatch)
        requires
            durable_ok(old(self)@),
            old(self)@.gathering is Some,
        ensures
            durable_ok(final(self)@),
            final(self).stored() == old(self).stored(),
            final(self).lent() == old(self).lent(),
            result.tickets@ == batch_tickets(old(self)@.batch),
            views(result.intents@) == batch_intents(old(self)@.batch),
            result.tickets.len() == result.intents.len(),
            final(self)@ == (DurableModel {
                batch: Seq::empty(),
                gathering: None,
                metrics: DurableQueuedControllerMetrics {
                    in_flight: old(self)@.batch.len() as u64,
                    ..old(self)@.metrics
                },
                ..old(self)@
            }),
    {
        let mut batch: Vec<StagedIntent> = Vec::new();
        core::mem::swap(&mut self.batch, &mut batch);
        self.gathering = None;
        self.metrics.in_flight = batch.len() as u64;
        let (tickets, intents) = split_batch(batch);
        proof {
            assert(views(self.batch@) =~= Seq::empty());
        }
        UnplannedBatch { tickets, intents }
    }

    /// Stops everything after a batch of a pipeline could not be planned.
    pub fn stop_unplanned(&mut self, batch: UnplannedBatch, message: String) -> (result:
        DurableStep)
        requires
            old(self).wf(),
            old(self)@.gathering is None,
        ensures
            final(self).wf(),
            final(self).stored().rules() == old(self).stored().rules(),
            final(self).stored().world() == old(self).stored().world(),
            final(self).stored().log() == old(self).stored().log(),
            final(self).stored().epoch_store()@.state == FileEpochState::Poisoned,
            breaks_down(
                old(self)@,
                final(self)@,
                message@,
                true,
                batch.tickets@,
                result,
            ),
    {
        self.stop_all(batch.tickets, message, true)
    }

    /// Tells the tickets of a batch whose epoch was settled what became of their intents, and goes
    /// on to its successor, or stops if that could not be planned.
    pub fn conclude_prepared<C: Clock>(
        &mut self,
        settled: SettledBatch,
        started: u64,
        ended: u64,
        clock: &mut C,
    ) -> (result: (Vec<DurableResolution>, Result<Option<PreparedBatch>, DurableStep>))
        requires
            old(self).wf(),
            old(self)@.gathering is None,
            settled.tickets@.len() == settled.plan@.outcomes.len(),
        ensures
            final(self).wf(),
            final(self)@.gathering is None,
            final(self).stored().rules() == old(self).stored().rules(),
            resolves_durably(
                result.0@,
                settled.tickets@,
                settled.plan@.outcomes,
                failure_words(settled.failure),
            ),
            ({
                let told = after_settling(
                    old(self)@,
                    settled.plan@.outcomes,
                    failure_words(settled.failure),
                    settled.speculated,
                    settled.rederived,
                    0,
                    final(self)@.metrics,
                );
                match settled.successor {
                    None => {
                        &&& result.1 == Ok::<Option<PreparedBatch>, DurableStep>(None)
                        &&& final(self)@ == told
                        &&& final(self).stored() == old(self).stored()
                    },
                    Some(Ok(batch)) => {
                        &&& result.1 == Ok::<Option<PreparedBatch>, DurableStep>(Some(batch))
                        &&& final(self)@ == (DurableModel {
                            metrics: DurableQueuedControllerMetrics {
                                in_flight: batch.tickets@.len() as u64,
                                ..told.metrics
                            },
                            ..told
                        })
                        &&& final(self).stored() == old(self).stored()
                    },
                    Some(Err((batch, message))) => {
                        &&& result.1 matches Err(step)
                        &&& breaks_down(
                            told,
                            final(self)@,
                            message@,
                            true,
                            batch.tickets@,
                            step,
                        )
                        &&& final(self).stored().world() == old(self).stored().world()
                        &&& final(self).stored().log() == old(self).stored().log()
                        &&& final(self).stored().epoch_store()@.state == FileEpochState::Poisoned
                    },
                }
            }),
    {
        let SettledBatch { plan, tickets, failure, successor, speculated, rederived } = settled;
        self.count_settled(speculated, rederived, ended.saturating_sub(started));
        let resolutions = self.deliver(tickets, plan, &failure, started, ended, clock);
        let next = match successor {
            None => Ok(None),
            Some(Ok(batch)) => {
                self.metrics.in_flight = batch.tickets.len() as u64;
                Ok(Some(batch))
            },
            Some(Err((batch, message))) => Err(self.stop_all(batch.tickets, message, true)),
        };
        (resolutions, next)
    }

    /// Plans the batch that was gathered, to store it with its successors one ahead. A batch that
    /// cannot be planned stops the controller.
    pub fn begin_pipeline(&mut self) -> (result: Result<PreparedBatch, DurableStep>)
        requires
            old(self).wf(),
            old(self)@.gathering is Some,
        ensures
            final(self).wf(),
            final(self)@.gathering is None,
            final(self).stored().rules() == old(self).stored().rules(),
            final(self).stored().world() == old(self).stored().world(),
            final(self).stored().log() == old(self).stored().log(),
            match result {
                Ok(prepared) => {
                    &&& derives(
                        old(self).stored().rules(),
                        old(self).stored().world(),
                        batch_tickets(old(self)@.batch),
                        batch_intents(old(self)@.batch),
                        Ok(prepared),
                    )
                    &&& final(self).stored() == old(self).stored()
                    &&& final(self)@ == (DurableModel {
                        batch: Seq::empty(),
                        gathering: None,
                        metrics: DurableQueuedControllerMetrics {
                            in_flight: old(self)@.batch.len() as u64,
                            ..old(self)@.metrics
                        },
                        ..old(self)@
                    })
                },
                Err(step) => {
                    &&& final(self).stored().epoch_store()@.state == FileEpochState::Poisoned
                    &&& exists|message: Seq<char>| #[trigger]
                        derivation_leads_to(
                            old(self).stored().rules(),
                            old(self).stored().world(),
                            batch_intents(old(self)@.batch),
                            Err(message),
                        ) && breaks_down(
                            old(self)@,
                            final(self)@,
                            message,
                            true,
                            batch_tickets(old(self)@.batch),
                            step,
                        )
                },
            },
    {
        let ghost start = self@;
        let batch = self.take_gathered();
        proof {
            self.stored().epoch_store().wf_is_linked();
            reconstructed_facts(self.stored().log());
            self.stored().log_is_history();
        }
        let base = self.database().snapshot();
        match derive_prepared_batch(batch, base, self.database().validators()) {
            Ok(prepared) => Ok(prepared),
            Err((source, message)) => {
                let ghost words = message@;
                let step = self.stop_all(source.tickets, message, true);
                proof {
                    assert(derivation_leads_to(
                        old(self).stored().rules(),
                        old(self).stored().world(),
                        batch_intents(start.batch),
                        Err(words),
                    ));
                }
                Err(step)
            },
        }
    }

    fn count_settled(&mut self, speculated: bool, rederived: bool, persist: u64)
        ensures
            final(self).database == old(self).database,
            final(self)@ == (DurableModel {
                metrics: DurableQueuedControllerMetrics {
                    persist_nanos: counted(old(self)@.metrics.persist_nanos, persist as nat),
                    ..speculation_counted(old(self)@.metrics, speculated, rederived)
                },
                ..old(self)@
            }),
    {
        self.metrics.persist_nanos = counted_more(self.metrics.persist_nanos, persist);
        if speculated {
            self.metrics.speculative_epochs_prepared = counted_once(
                self.metrics.speculative_epochs_prepared,
            );
        }
        if rederived {
            self.metrics.speculative_epochs_rederived = counted_once(
                self.metrics.speculative_epochs_rederived,
            );
        }
    }

    /// Tells the tickets of a batch what became of their intents, and counts the epoch.
    fn deliver<C: Clock>(
        &mut self,
        tickets: Vec<u64>,
        plan: EpochPlan,
        failure: &Option<FileEpochStoreError>,
        started: u64,
        ended: u64,
        clock: &mut C,
    ) -> (result: Vec<DurableResolution>)
        requires
            tickets.len() == plan@.outcomes.len(),
        ensures
            final(self).database == old(self).database,
            resolves_durably(
                result@,
                tickets@,
                plan@.outcomes,
                failure_words(*failure),
            ),
            final(self)@ == after_settling(
                old(self)@,
                plan@.outcomes,
                failure_words(*failure),
                false,
                false,
                0,
                final(self)@.metrics,
            ),
    {
        let words = match failure {
            None => None,
            Some(error) => Some(error.describe()),
        };
        let resolutions = route_outcomes(&mut self.metrics, tickets, plan.into_outcomes(), words);
        let delivered: u64 = clock.now();
        self.count_epoch(started, ended, delivered);
        resolutions
    }

    /// Tells the tickets of a batch that the store refused it. Nothing was written, and no
    /// successor was claimed.
    pub fn refuse_prepared<C: Clock>(
        &mut self,
        prepared: PreparedBatch,
        error: FileEpochStoreError,
        clock: &mut C,
    ) -> (result: Vec<DurableResolution>)
        requires
            prepared.tickets@.len() == prepared.plan@.outcomes.len(),
        ensures
            final(self).stored() == old(self).stored(),
            final(self).lent() == old(self).lent(),
            resolves_durably(
                result@,
                prepared.tickets@,
                prepared.plan@.outcomes,
                failure_words(Some(error)),
            ),
            final(self)@ == after_settling(
                old(self)@,
                prepared.plan@.outcomes,
                failure_words(Some(error)),
                false,
                false,
                0,
                final(self)@.metrics,
            ),
    {
        let started: u64 = clock.now();
        let failure = Some(error);
        self.deliver(prepared.tickets, prepared.plan, &failure, started, started, clock)
    }

    /// Stores a prepared batch, with its successor planned ahead, and tells its tickets what became
    /// of their intents.
    fn store_prepared<C: Clock>(
        &mut self,
        prepared: PreparedBatch,
        epoch: Option<FlyingEpoch>,
        next: Option<UnplannedBatch>,
        clock: &mut C,
    ) -> (result: (
        Vec<DurableResolution>,
        Option<Result<PreparedBatch, (UnplannedBatch, String)>>,
        Ghost<Option<FileEpochStoreError>>,
        Ghost<bool>,
    ))
        requires
            old(self).wf(),
            old(self)@.gathering is None,
            prepared_on(old(self).stored().rules(), old(self).stored().world(), prepared),
            epoch_ready(old(self).stored(), prepared.plan@, epoch),
            next matches Some(batch) ==> batch.tickets.len() == batch.intents.len(),
        ensures
            final(self).wf(),
            final(self)@.gathering is None,
            final(self).stored().rules() == old(self).stored().rules(),
            database_settles(old(self).stored(), final(self).stored(), prepared.plan@, result.2@),
            old(self).stored().epoch_store().device().logs()
                ==> final(self).stored().epoch_store().device().log().refused == old(
                self,
            ).stored().epoch_store().device().log().refused,
            prepared.plan@.frames.len() > 0 ==> epoch_settled(
                old(self).stored().epoch_store(),
                old(self).stored().epoch_store()@,
                final(self).stored().epoch_store(),
                prepared.plan@.frames,
                storing_result(result.2@),
            ),
            resolves_durably(
                result.0@,
                prepared.tickets@,
                prepared.plan@.outcomes,
                failure_words(result.2@),
            ),
            match next {
                None => result.1 is None && !result.3@,
                Some(batch) => result.1 matches Some(successor) && successor_follows(
                    old(self).stored().rules(),
                    old(self).stored().world(),
                    prepared.plan@,
                    result.2@ is None,
                    batch.tickets@,
                    views(batch.intents@),
                    successor,
                    result.3@,
                ),
            },
            result.1 matches Some(Ok(batch)) ==> prepared_on(
                final(self).stored().rules(),
                final(self).stored().world(),
                batch,
            ),
            final(self)@ == after_settling(
                old(self)@,
                prepared.plan@.outcomes,
                failure_words(result.2@),
                next is Some && prepared.plan@.frames.len() > 0,
                result.3@,
                0,
                final(self)@.metrics,
            ),
    {
        let started: u64 = clock.now();
        let mut database = self.lend();
        let settled = database.settle_prepared(prepared, epoch, next);
        self.give_back(database);
        let ended: u64 = clock.now();
        let ghost rederived = settled.rederived;
        self.count_settled(settled.speculated, settled.rederived, ended.saturating_sub(started));
        let resolutions = self.deliver(
            settled.tickets,
            settled.plan,
            &settled.failure,
            started,
            ended,
            clock,
        );
        (resolutions, settled.successor, Ghost(settled.failure), Ghost(rederived))
    }

    /// Stores a prepared batch, with its successor planned ahead, and tells its tickets what became
    /// of their intents. Returns the successor, planned on the world as it is now, or what is
    /// stopped if it cannot be planned. A batch that the store refuses, or that its device does not
    /// begin to write, has no successor.
    pub fn continue_pipeline<C: Clock>(
        &mut self,
        prepared: PreparedBatch,
        now: u64,
        clock: &mut C,
    ) -> (result: (Vec<DurableResolution>, Result<Option<PreparedBatch>, DurableStep>))
        requires
            old(self).wf(),
            old(self)@.gathering is None,
            prepared_on(old(self).stored().rules(), old(self).stored().world(), prepared),
        ensures
            final(self).wf(),
            final(self)@.gathering is None,
            final(self).stored().rules() == old(self).stored().rules(),
            result.1 matches Ok(Some(batch)) ==> prepared_on(
                final(self).stored().rules(),
                final(self).stored().world(),
                batch,
            ),
            pipeline_stepped(
                old(self)@,
                old(self).stored(),
                final(self)@,
                final(self).stored(),
                prepared,
                now,
                result.0@,
                result.1,
            ),
    {
        let ghost before = self.stored();
        let ghost state = self@;
        let mut database = self.lend();
        let begun_batch = database.begin_batch(&prepared.plan);
        self.give_back(database);
        let epoch = match begun_batch {
            Ok(epoch) => epoch,
            Err(error) => {
                let resolutions = self.refuse_prepared(prepared, error, clock);
                proof {
                    refused_epoch_steps(
                        state,
                        before,
                        self@,
                        self.stored(),
                        prepared,
                        now,
                        resolutions@,
                        error,
                    );
                }
                return (resolutions, Ok(None));
            },
        };
        let ghost begun = self.stored();
        let next = self.claim_successor(now);
        let ghost claimed = next;
        let (resolutions, successor, Ghost(failure), Ghost(rederived)) = self.store_prepared(
            prepared,
            epoch,
            next,
            clock,
        );
        let ghost settlement = Settlement {
            failure,
            settled: self.stored(),
            underway: true,
            successor,
            rederived,
        };
        let ghost stored = self@;
        proof {
            if prepared.plan@.frames.len() > 0 {
                begun_epoch_is_appended(
                    before.epoch_store(),
                    begun.epoch_store(),
                    self.stored().epoch_store(),
                    prepared.plan@.frames,
                    failure,
                );
            }
        }
        let next = match successor {
            None => Ok(None),
            Some(Ok(batch)) => {
                self.metrics.in_flight = batch.tickets.len() as u64;
                Ok(Some(batch))
            },
            Some(Err((source, message))) => Err(self.stop_all(source.tickets, message, true)),
        };
        proof {
            stored_epoch_steps(
                state,
                before,
                stored,
                self@,
                self.stored(),
                prepared,
                now,
                resolutions@,
                next,
                settlement,
            );
        }
        (resolutions, next)
    }
}

/// Counters after an epoch with or without a successor planned ahead, and planned again or not.
pub open spec fn speculation_counted(
    metrics: DurableQueuedControllerMetrics,
    speculated: bool,
    rederived: bool,
) -> DurableQueuedControllerMetrics {
    DurableQueuedControllerMetrics {
        speculative_epochs_prepared: if speculated {
            counted(metrics.speculative_epochs_prepared, 1)
        } else {
            metrics.speculative_epochs_prepared
        },
        speculative_epochs_rederived: if rederived {
            counted(metrics.speculative_epochs_rederived, 1)
        } else {
            metrics.speculative_epochs_rederived
        },
        ..metrics
    }
}

/// The controller after a prepared batch was settled and its tickets were told.
pub open spec fn after_settling(
    state: DurableModel,
    outcomes: Seq<OutcomeModel>,
    failure: Option<Seq<char>>,
    speculated: bool,
    rederived: bool,
    in_flight: u64,
    times: DurableQueuedControllerMetrics,
) -> DurableModel {
    let metrics = routed(
        speculation_counted(state.metrics, speculated, rederived),
        outcomes,
        failure,
    );
    DurableModel {
        metrics: timed(
            DurableQueuedControllerMetrics {
                epochs: counted(metrics.epochs, 1),
                in_flight,
                ..metrics
            },
            times,
        ),
        ..state
    }
}

/// What tickets are told of an epoch that could not be stored.
pub open spec fn failure_words(failure: Option<FileEpochStoreError>) -> Option<Seq<char>> {
    match failure {
        None => None,
        Some(error) => Some(epoch_error_text(error@)),
    }
}

/// The world of a plan is published and its frames are in the log; or neither.
pub open spec fn database_settles<I: EpochFileIo>(
    before: Database<FileEpochStore<I>>,
    after: Database<FileEpochStore<I>>,
    plan: PlanModel,
    failure: Option<FileEpochStoreError>,
) -> bool {
    &&& plan.frames.len() == 0 ==> failure is None && after == before
    &&& match failure {
        None => after.world() == plan.tail && after.log() == before.log() + plan.frames,
        Some(_) => after.world() == before.world() && after.log() == before.log(),
    }
}

/// What a step of the pipeline came to.
pub struct Settlement<I: EpochFileIo> {
    /// Why the epoch was not stored.
    pub failure: Option<FileEpochStoreError>,
    /// The database when the epoch had been stored or given up.
    pub settled: Database<FileEpochStore<I>>,
    /// The store took the epoch, and its device began to write it or wrote it at once.
    pub underway: bool,
    /// What became of the batch behind it.
    pub successor: Option<Result<PreparedBatch, (UnplannedBatch, String)>>,
    pub rederived: bool,
}

/// One step of the pipeline: the epoch of a prepared batch is stored and durable and its world is
/// published, or neither, and its tickets are told which. Once the epoch is underway, the intents at
/// the front of the queue are the next batch; it is planned, or the controller stops.
#[verifier::opaque]
pub open spec fn pipeline_steps<I: EpochFileIo>(
    state: DurableModel,
    before: Database<FileEpochStore<I>>,
    after_state: DurableModel,
    after: Database<FileEpochStore<I>>,
    prepared: PreparedBatch,
    now: u64,
    resolutions: Seq<DurableResolution>,
    next: Result<Option<PreparedBatch>, DurableStep>,
    settlement: Settlement<I>,
) -> bool {
    let plan = prepared.plan@;
    let stores = plan.frames.len() > 0;
    let failure = settlement.failure;
    let count = if settlement.underway {
        claimable(state)
    } else {
        0
    };
    let claimed = if settlement.underway {
        after_claim(state, now)
    } else {
        state
    };
    let told = after_settling(
        claimed,
        plan.outcomes,
        failure_words(failure),
        stores && count > 0,
        settlement.rederived,
        0,
        after_state.metrics,
    );
    &&& database_settles(before, settlement.settled, plan, failure)
    &&& stores ==> epoch_appended(
        before.epoch_store(),
        settlement.settled.epoch_store(),
        plan.frames,
        storing_result(failure),
    )
    &&& goes_underway(
        before.epoch_store(),
        settlement.settled.epoch_store(),
        plan.frames,
        failure,
        settlement.underway,
    )
    &&& resolves_durably(resolutions, prepared.tickets@, plan.outcomes, failure_words(failure))
    &&& match settlement.successor {
        None => {
            &&& count == 0
            &&& !settlement.rederived
            &&& next == Ok::<Option<PreparedBatch>, DurableStep>(None)
            &&& after == settlement.settled
            &&& after_state == told
        },
        Some(successor) => {
            &&& count > 0
            &&& successor_follows(
                before.rules(),
                before.world(),
                plan,
                failure is None,
                front_tickets(state.queue, count),
                front_intents(state.queue, count),
                successor,
                settlement.rederived,
            )
            &&& match successor {
                Ok(batch) => {
                    &&& next == Ok::<Option<PreparedBatch>, DurableStep>(Some(batch))
                    &&& after == settlement.settled
                    &&& after_state == (DurableModel {
                        metrics: DurableQueuedControllerMetrics {
                            in_flight: count as u64,
                            ..told.metrics
                        },
                        ..told
                    })
                },
                Err((_, message)) => {
                    &&& next matches Err(step)
                    &&& breaks_down(
                        told,
                        after_state,
                        message@,
                        true,
                        front_tickets(state.queue, count),
                        step,
                    )
                    &&& after.world() == settlement.settled.world()
                    &&& after.log() == settlement.settled.log()
                    &&& after.epoch_store()@.state == FileEpochState::Poisoned
                },
            }
        },
    }
}

/// A step of the pipeline, whatever it came to.
#[verifier::opaque]
pub open spec fn pipeline_stepped<I: EpochFileIo>(
    state: DurableModel,
    before: Database<FileEpochStore<I>>,
    after_state: DurableModel,
    after: Database<FileEpochStore<I>>,
    prepared: PreparedBatch,
    now: u64,
    resolutions: Seq<DurableResolution>,
    next: Result<Option<PreparedBatch>, DurableStep>,
) -> bool {
    exists|settlement: Settlement<I>| #[trigger]
        pipeline_steps(
            state,
            before,
            after_state,
            after,
            prepared,
            now,
            resolutions,
            next,
            settlement,
        )
}

/// An epoch that the store took is settled.
proof fn stored_epoch_steps<I: EpochFileIo>(
    state: DurableModel,
    before: Database<FileEpochStore<I>>,
    stored: DurableModel,
    after_state: DurableModel,
    after: Database<FileEpochStore<I>>,
    prepared: PreparedBatch,
    now: u64,
    resolutions: Seq<DurableResolution>,
    next: Result<Option<PreparedBatch>, DurableStep>,
    settlement: Settlement<I>,
)
    requires
        settlement.underway,
        goes_underway(
            before.epoch_store(),
            settlement.settled.epoch_store(),
            prepared.plan@.frames,
            settlement.failure,
            true,
        ),
        database_settles(before, settlement.settled, prepared.plan@, settlement.failure),
        prepared.plan@.frames.len() > 0 ==> epoch_appended(
            before.epoch_store(),
            settlement.settled.epoch_store(),
            prepared.plan@.frames,
            storing_result(settlement.failure),
        ),
        resolves_durably(
            resolutions,
            prepared.tickets@,
            prepared.plan@.outcomes,
            failure_words(settlement.failure),
        ),
        stored == after_settling(
            after_claim(state, now),
            prepared.plan@.outcomes,
            failure_words(settlement.failure),
            prepared.plan@.frames.len() > 0 && claimable(state) > 0,
            settlement.rederived,
            0,
            stored.metrics,
        ),
        match settlement.successor {
            None => {
                &&& claimable(state) == 0
                &&& !settlement.rederived
                &&& next == Ok::<Option<PreparedBatch>, DurableStep>(None)
                &&& after == settlement.settled
                &&& after_state == stored
            },
            Some(successor) => {
                &&& claimable(state) > 0
                &&& successor_follows(
                    before.rules(),
                    before.world(),
                    prepared.plan@,
                    settlement.failure is None,
                    front_tickets(state.queue, claimable(state)),
                    front_intents(state.queue, claimable(state)),
                    successor,
                    settlement.rederived,
                )
                &&& match successor {
                    Ok(batch) => {
                        &&& next == Ok::<Option<PreparedBatch>, DurableStep>(Some(batch))
                        &&& after == settlement.settled
                        &&& after_state == (DurableModel {
                            metrics: DurableQueuedControllerMetrics {
                                in_flight: claimable(state) as u64,
                                ..stored.metrics
                            },
                            ..stored
                        })
                    },
                    Err((_, message)) => {
                        &&& next matches Err(step)
                        &&& breaks_down(
                            stored,
                            after_state,
                            message@,
                            true,
                            front_tickets(state.queue, claimable(state)),
                            step,
                        )
                        &&& after.world() == settlement.settled.world()
                        &&& after.log() == settlement.settled.log()
                        &&& after.epoch_store()@.state == FileEpochState::Poisoned
                    },
                }
            },
        },
    ensures
        pipeline_stepped(
            state,
            before,
            after_state,
            after,
            prepared,
            now,
            resolutions,
            next,
        ),
{
    reveal(pipeline_steps);
    reveal(pipeline_stepped);
    let told = after_settling(
        after_claim(state, now),
        prepared.plan@.outcomes,
        failure_words(settlement.failure),
        prepared.plan@.frames.len() > 0 && claimable(state) > 0,
        settlement.rederived,
        0,
        after_state.metrics,
    );
    assert(told == stored);
    assert(pipeline_steps(
        state,
        before,
        after_state,
        after,
        prepared,
        now,
        resolutions,
        next,
        settlement,
    ));
}

/// An epoch that did not go underway ends the pipeline.
proof fn refused_epoch_steps<I: EpochFileIo>(
    state: DurableModel,
    before: Database<FileEpochStore<I>>,
    after_state: DurableModel,
    after: Database<FileEpochStore<I>>,
    prepared: PreparedBatch,
    now: u64,
    resolutions: Seq<DurableResolution>,
    error: FileEpochStoreError,
)
    requires
        epoch_appended(
            before.epoch_store(),
            after.epoch_store(),
            prepared.plan@.frames,
            Err(error),
        ),
        goes_underway(
            before.epoch_store(),
            after.epoch_store(),
            prepared.plan@.frames,
            Some(error),
            false,
        ),
        prepared.plan@.frames.len() > 0,
        after.world() == before.world(),
        after.log() == before.log(),
        resolves_durably(
            resolutions,
            prepared.tickets@,
            prepared.plan@.outcomes,
            failure_words(Some(error)),
        ),
        after_state == after_settling(
            state,
            prepared.plan@.outcomes,
            failure_words(Some(error)),
            false,
            false,
            0,
            after_state.metrics,
        ),
    ensures
        pipeline_stepped(
            state,
            before,
            after_state,
            after,
            prepared,
            now,
            resolutions,
            Ok(None),
        ),
{
    reveal(pipeline_steps);
    reveal(pipeline_stepped);
    let settlement = Settlement {
        failure: Some(error),
        settled: after,
        underway: false,
        successor: None,
        rederived: false,
    };
    assert(pipeline_steps(
        state,
        before,
        after_state,
        after,
        prepared,
        now,
        resolutions,
        Ok(None),
        settlement,
    ));
}

/// Epochs are published in the order in which they become durable. An intent is accepted only when
/// its epoch is stored, synchronized and published; an epoch that was not stored is not published,
/// and what comes after it is planned on the world that stays.
pub proof fn pipelines_publish_in_order<I: EpochFileIo>(
    state: DurableModel,
    before: Database<FileEpochStore<I>>,
    after_state: DurableModel,
    after: Database<FileEpochStore<I>>,
    prepared: PreparedBatch,
    now: u64,
    resolutions: Seq<DurableResolution>,
    next: Result<Option<PreparedBatch>, DurableStep>,
    settlement: Settlement<I>,
)
    requires
        pipeline_steps(
            state,
            before,
            after_state,
            after,
            prepared,
            now,
            resolutions,
            next,
            settlement,
        ),
    ensures
        after.world() == prepared.plan@.tail || after.world() == before.world(),
        after.log() == before.log() + prepared.plan@.frames || after.log() == before.log(),
        (exists|i: int|
            0 <= i < resolutions.len() && (#[trigger] resolutions[i]).outcome@ is Accepted) ==> {
            &&& after.world() == prepared.plan@.tail
            &&& after.log() == before.log() + prepared.plan@.frames
            &&& prepared.plan@.frames.len() > 0
                ==> settlement.settled.epoch_store().device().synced()
                == settlement.settled.epoch_store().device().contents()
        },
        settlement.failure is Some ==> after.world() == before.world() && after.log()
            == before.log(),
        settlement.failure is Some ==> (next matches Ok(Some(batch)) ==> settlement.rederived
            && derivation_leads_to(
            before.rules(),
            after.world(),
            views(batch.intents@),
            Ok(batch.plan@),
        )),
        settlement.failure is None ==> (next matches Ok(Some(batch)) ==> !settlement.rederived
            && derivation_leads_to(
            before.rules(),
            prepared.plan@.tail,
            views(batch.intents@),
            Ok(batch.plan@),
        )),
{
    reveal(pipeline_steps);
    if exists|i: int|
        0 <= i < resolutions.len() && (#[trigger] resolutions[i]).outcome@ is Accepted {
        let i = choose|i: int|
            0 <= i < resolutions.len() && (#[trigger] resolutions[i]).outcome@ is Accepted;
        assert(resolutions[i].outcome@ is Accepted);
    }
}

/// A ticket is told that its intent was accepted only when the epoch is stored and its world is
/// published; an epoch that could not be stored or planned changes neither.
pub proof fn accepted_means_stored<I: EpochFileIo>(
    state: DurableModel,
    before: Database<FileEpochStore<I>>,
    after_state: DurableModel,
    after: Database<FileEpochStore<I>>,
    commit: DurableCommit,
    committed: Database<FileEpochStore<I>>,
    step: DurableStep,
)
    requires
        batch_processed(state, before, after_state, after, commit, committed, step),
    ensures
        !(commit is Committed) ==> after.world() == before.world() && after.log() == before.log(),
        commit matches DurableCommit::Committed(plan) ==> after.world() == plan@.tail
            && after.log() == before.log() + plan@.frames,
        step matches DurableStep::Resolved(resolutions) ==> ((exists|i: int|
            0 <= i < resolutions@.len() && (#[trigger] resolutions@[i]).outcome@ is Accepted)
            ==> commit is Committed),
{
    reveal(batch_processed);
    if let DurableStep::Resolved(resolutions) = step {
        if exists|i: int|
            0 <= i < resolutions@.len() && (#[trigger] resolutions@[i]).outcome@ is Accepted {
            let i = choose|i: int|
                0 <= i < resolutions@.len() && (#[trigger] resolutions@[i]).outcome@ is Accepted;
            assert(resolutions@[i].outcome@ is Accepted);
        }
    }
}

} // verus!
