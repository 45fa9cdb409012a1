//! The controller in memory: a bounded queue of intents, gathered into epochs.

use crate::batching::{
    AdaptiveState, BatchPolicy, BatchSealReason, GatherAction, GatherStage, Gathering, age_of,
    batches_never_overflow, gather_action, gathering_ok, initial_target, joined_by, larger,
    max_batch_of, min_batch_of, next_target, smaller, target_starts_in_bounds,
    target_stays_in_bounds, widest_of,
};
use crate::controller_metrics::{
    QueuedControllerMetrics, counted_more, counted_once, fresh_queued, sealed_queued,
};
use crate::database::{Database, MemoryCommitStore};
use crate::epoch_io::{counted, counted_twice};
use crate::fact::views;
use crate::intent::{IntentModel, QueuedIntent};
use crate::plan::{EpochOutcome, EpochPlan};
use crate::plan_model::{
    OutcomeModel, PlanModel, chained, has_epoch_room, may_settle, outcomes_follow_intents,
    unopposed,
};
use crate::snapshot_query::Resolved;
use crate::staging::{
    CommandModel, ControllerCommand, SealedBatch, StagedIntent, StagedModel, batch_fits,
    batch_intents, batch_tickets, split_batch, waiting_bound, waiting_intents, waiting_push,
    waiting_remove_first,
};
use crate::tickets::{
    ControllerConfigError, ControllerStopped, SubmitError, TicketOutcome, told_outcome,
};
use crate::world::reconstructed_facts;
use std::sync::Arc;
use vstd::prelude::*;

verus! {

/// A ticket and what became of its intent.
pub struct TicketResolution {
    pub ticket: u64,
    pub outcome: TicketOutcome,
}

/// Everything of a controller but its database.
pub struct QueuedModel {
    pub policy: BatchPolicy,
    pub queue: Seq<CommandModel>,
    /// Barriers that came while a batch was gathered.
    pub pending: Seq<u64>,
    pub batch: Seq<StagedModel>,
    pub gathering: Option<Gathering>,
    /// The wait for the batch has been counted.
    pub probed: bool,
    pub adaptive: AdaptiveState,
    pub metrics: QueuedControllerMetrics,
    pub next_ticket: u64,
    pub closed: bool,
}

/// What a controller does next.
pub enum ControllerStep {
    /// There is nothing to do.
    Idle,
    /// There is nothing to do, and nothing will come.
    Stopped,
    /// An intent was taken into the batch.
    Claimed(u64),
    /// The batch takes nothing more from the queue now.
    Deferred,
    /// The batch waits so long for the next command.
    Waiting(u64),
    /// Everything before a barrier has been done.
    Released(u64),
    /// A batch was committed.
    Resolved(Vec<TicketResolution>),
}

/// What a controller does next, but for the outcomes of a batch.
pub enum NextStep {
    Idle,
    Stopped,
    Claimed(u64),
    Deferred,
    Waiting(u64),
    Released(u64),
    Seal(BatchSealReason),
}

/// An intent leaves the queue.
pub open spec fn claimed_metrics(metrics: QueuedControllerMetrics) -> QueuedControllerMetrics {
    QueuedControllerMetrics {
        queue_depth: (metrics.queue_depth - 1) as u64,
        claimed: counted(metrics.claimed, 1),
        ..metrics
    }
}

/// The first command of the queue is taken into the batch, or ends its taking.
pub open spec fn polled(state: QueuedModel, gathering: Gathering) -> (QueuedModel, NextStep) {
    if state.queue.len() == 0 {
        (
            QueuedModel {
                gathering: Some(Gathering { open: false, ..gathering }),
                ..state
            },
            NextStep::Deferred,
        )
    } else {
        match state.queue[0] {
            CommandModel::Intent(staged) => (
                QueuedModel {
                    queue: state.queue.drop_first(),
                    batch: state.batch.push(staged),
                    gathering: Some(joined_by(gathering, staged.enqueued_at)),
                    metrics: claimed_metrics(state.metrics),
                    ..state
                },
                NextStep::Claimed(staged.ticket),
            ),
            CommandModel::Barrier(barrier) => (
                QueuedModel {
                    queue: state.queue.drop_first(),
                    pending: state.pending.push(barrier),
                    gathering: Some(Gathering { open: false, ..gathering }),
                    ..state
                },
                NextStep::Deferred,
            ),
        }
    }
}

/// The first command of the queue answers a probe.
pub open spec fn probed(state: QueuedModel, gathering: Gathering) -> (QueuedModel, NextStep) {
    match state.queue[0] {
        CommandModel::Intent(staged) => (
            QueuedModel {
                queue: state.queue.drop_first(),
                batch: state.batch.push(staged),
                gathering: Some(
                    Gathering {
                        stage: GatherStage::Topping,
                        open: true,
                        ..joined_by(gathering, staged.enqueued_at)
                    },
                ),
                metrics: claimed_metrics(state.metrics),
                ..state
            },
            NextStep::Claimed(staged.ticket),
        ),
        CommandModel::Barrier(barrier) => (
            QueuedModel {
                queue: state.queue.drop_first(),
                pending: state.pending.push(barrier),
                gathering: Some(
                    Gathering {
                        stage: GatherStage::Ended(BatchSealReason::Barrier),
                        ..gathering
                    },
                ),
                ..state
            },
            NextStep::Deferred,
        ),
    }
}

/// No command came in answer to a probe.
pub open spec fn unanswered(gathering: Gathering, predicted: u64) -> Gathering {
    Gathering {
        stage: GatherStage::Ended(
            if gathering.policy matches BatchPolicy::Adaptive { latency_budget, .. } && predicted
                > latency_budget / 2 {
                BatchSealReason::LowTraffic
            } else {
                BatchSealReason::SourceStalled
            },
        ),
        ..gathering
    }
}

/// A probe is counted once for each batch.
pub open spec fn probe_counted(state: QueuedModel, wait: u64) -> QueuedModel {
    if state.probed {
        state
    } else {
        QueuedModel {
            probed: true,
            metrics: QueuedControllerMetrics {
                total_adaptive_probe_wait_ns: counted(
                    state.metrics.total_adaptive_probe_wait_ns,
                    wait as nat,
                ),
                ..state.metrics
            },
            ..state
        }
    }
}

/// A controller without a batch takes the next command.
pub open spec fn taken_up(state: QueuedModel, now: u64) -> (QueuedModel, NextStep) {
    if state.pending.len() > 0 {
        (
            QueuedModel {
                pending: state.pending.drop_first(),
                metrics: sealed_queued(state.metrics, BatchSealReason::Barrier),
                ..state
            },
            NextStep::Released(state.pending[0]),
        )
    } else if state.queue.len() == 0 {
        (
            state,
            if state.closed {
                NextStep::Stopped
            } else {
                NextStep::Idle
            },
        )
    } else {
        match state.queue[0] {
            CommandModel::Barrier(barrier) => (
                QueuedModel {
                    queue: state.queue.drop_first(),
                    metrics: sealed_queued(state.metrics, BatchSealReason::Barrier),
                    ..state
                },
                NextStep::Released(barrier),
            ),
            CommandModel::Intent(staged) => (
                QueuedModel {
                    queue: state.queue.drop_first(),
                    batch: seq![staged],
                    gathering: Some(
                        begun(state.policy, state.adaptive.target_width, staged.enqueued_at, now),
                    ),
                    probed: false,
                    metrics: claimed_metrics(state.metrics),
                    ..state
                },
                NextStep::Claimed(staged.ticket),
            ),
        }
    }
}

/// A batch with its first intent.
pub open spec fn begun(
    policy: BatchPolicy,
    target_width: usize,
    enqueued_at: u64,
    now: u64,
) -> Gathering {
    Gathering {
        policy,
        target_width,
        width: 1,
        oldest: enqueued_at,
        deadline: match policy {
            BatchPolicy::Coalesce { max_delay, .. } => smaller(
                now + max_delay,
                u64::MAX as int,
            ) as u64,
            _ => now,
        },
        stage: GatherStage::Draining,
        open: true,
    }
}

/// What a controller does next, and what it is then.
pub open spec fn next_step(state: QueuedModel, now: u64, predicted: u64) -> (
    QueuedModel,
    NextStep,
) {
    match state.gathering {
        None => taken_up(state, now),
        Some(gathering) => match gather_action(gathering, now, true, predicted) {
            GatherAction::Poll => polled(state, gathering),
            GatherAction::Wait(wait) => if state.queue.len() == 0 && !state.closed {
                (state, NextStep::Waiting(wait))
            } else {
                polled(state, gathering)
            },
            GatherAction::Probe(wait) => {
                let counted_state = probe_counted(state, wait);
                if state.queue.len() > 0 {
                    probed(counted_state, gathering)
                } else if state.closed {
                    (
                        QueuedModel {
                            gathering: Some(unanswered(gathering, predicted)),
                            ..counted_state
                        },
                        NextStep::Deferred,
                    )
                } else {
                    (counted_state, NextStep::Waiting(wait))
                }
            },
            GatherAction::Seal(reason) => (state, NextStep::Seal(reason)),
        },
    }
}

/// The counters after a batch was sealed.
pub open spec fn sealed_metrics(
    state: QueuedModel,
    gathering: Gathering,
    reason: BatchSealReason,
    now: u64,
) -> QueuedControllerMetrics {
    let adapted = if state.policy is Adaptive {
        QueuedControllerMetrics {
            maximum_oldest_age_at_seal_ns: larger(
                state.metrics.maximum_oldest_age_at_seal_ns as int,
                age_of(gathering.oldest, now),
            ) as u64,
            maximum_target_width: larger(
                state.metrics.maximum_target_width as int,
                adapted_to(state, gathering, reason).target_width as int,
            ) as usize,
            ..state.metrics
        }
    } else {
        state.metrics
    };
    sealed_queued(adapted, reason)
}

/// The width that batches aim at after a batch was sealed.
pub open spec fn adapted_to(
    state: QueuedModel,
    gathering: Gathering,
    reason: BatchSealReason,
) -> AdaptiveState {
    if state.policy is Adaptive {
        AdaptiveState {
            target_width: next_target(
                state.adaptive.target_width as int,
                reason,
                gathering.width as int,
                min_batch_of(state.policy) as int,
                max_batch_of(state.policy) as int,
            ) as usize,
            epochs_sealed: counted(state.adaptive.epochs_sealed, 1),
        }
    } else {
        state.adaptive
    }
}

/// How many outcomes are acceptances.
pub open spec fn acceptances(outcomes: Seq<OutcomeModel>) -> nat
    decreases outcomes.len(),
{
    if outcomes.len() == 0 {
        0
    } else {
        acceptances(outcomes.drop_last()) + if outcomes.last() is Accepted {
            1nat
        } else {
            0nat
        }
    }
}

pub proof fn acceptances_bound(outcomes: Seq<OutcomeModel>)
    ensures
        acceptances(outcomes) <= outcomes.len(),
    decreases outcomes.len(),
{
    if outcomes.len() > 0 {
        acceptances_bound(outcomes.drop_last());
    }
}

/// The controller after a batch with certain outcomes.
pub open spec fn after_batch(
    state: QueuedModel,
    gathering: Gathering,
    reason: BatchSealReason,
    now: u64,
    outcomes: Seq<OutcomeModel>,
) -> QueuedModel {
    let metrics = sealed_metrics(state, gathering, reason, now);
    QueuedModel {
        batch: Seq::empty(),
        gathering: None,
        adaptive: adapted_to(state, gathering, reason),
        metrics: QueuedControllerMetrics {
            accepted: counted(metrics.accepted, acceptances(outcomes)),
            rejected: counted(metrics.rejected, (outcomes.len() - acceptances(outcomes)) as nat),
            epochs: counted(metrics.epochs, 1),
            in_flight: 0,
            ..metrics
        },
        ..state
    }
}

/// The resolutions tell each ticket of a batch what became of its intent, in order.
pub open spec fn resolves(
    resolutions: Seq<TicketResolution>,
    tickets: Seq<u64>,
    outcomes: Seq<OutcomeModel>,
) -> bool {
    &&& resolutions.len() == tickets.len()
    &&& resolutions.len() == outcomes.len()
    &&& forall|i: int|
        0 <= i < resolutions.len() ==> (#[trigger] resolutions[i]).ticket == tickets[i]
            && resolutions[i].outcome@ == told_outcome(outcomes[i])
}

/// The queue is counted, and a batch is what it says.
pub open spec fn queued_ok(state: QueuedModel) -> bool {
    &&& state.metrics.queue_depth == waiting_intents(state.queue)
    &&& state.metrics.queue_depth <= state.metrics.capacity
    &&& 1 <= max_batch_of(state.policy)
    &&& state.adaptive.target_width <= widest_of(state.policy) < usize::MAX
    &&& match state.gathering {
        Some(gathering) => {
            &&& gathering.policy == state.policy
            &&& gathering_ok(gathering)
            &&& gathering.width == state.batch.len()
        },
        None => state.batch.len() == 0,
    }
}

/// What a controller does next keeps the queue within its capacity and counted, and the batch
/// within its size.
pub proof fn steps_keep_order(state: QueuedModel, now: u64, predicted: u64)
    requires
        queued_ok(state),
    ensures
        queued_ok(next_step(state, now, predicted).0),
{
    if state.queue.len() > 0 {
        waiting_remove_first(state.queue);
    }
    if let Some(gathering) = state.gathering {
        if !(gather_action(gathering, now, true, predicted) is Seal) {
            if state.queue.len() > 0 {
                if let CommandModel::Intent(staged) = state.queue[0] {
                    batches_never_overflow(gathering, now, true, predicted, staged.enqueued_at);
                }
            }
        }
    }
}

/// Intents are claimed in the order in which they were submitted: behind the batch stands the
/// queue, and a step moves nothing but its first command.
pub proof fn first_come_first_claimed(state: QueuedModel, now: u64, predicted: u64)
    ensures
        ({
            let (after, step) = next_step(state, now, predicted);
            &&& after.queue == state.queue || state.queue.len() > 0 && after.queue
                == state.queue.drop_first()
            &&& step matches NextStep::Claimed(ticket) ==> {
                &&& state.queue.len() > 0
                &&& state.queue[0] matches CommandModel::Intent(staged)
                &&& staged.ticket == ticket
                &&& after.batch == if state.gathering is Some {
                    state.batch.push(staged)
                } else {
                    seq![staged]
                }
            }
        }),
{
}

/// A barrier is released only when no batch is being gathered.
pub proof fn barriers_wait_for_the_batch(state: QueuedModel, now: u64, predicted: u64)
    ensures
        next_step(state, now, predicted).1 is Released ==> state.gathering is None,
{
}

/// A controller in memory.
pub struct QueuedIntentController {
    /// The database, unless it is lent out.
    database: Option<Database<MemoryCommitStore>>,
    policy: BatchPolicy,
    queue: Vec<ControllerCommand>,
    pending: Vec<u64>,
    batch: Vec<StagedIntent>,
    gathering: Option<Gathering>,
    probed: bool,
    adaptive: AdaptiveState,
    metrics: QueuedControllerMetrics,
    next_ticket: u64,
    closed: bool,
}

impl View for QueuedIntentController {
    type V = QueuedModel;

    closed spec fn view(&self) -> QueuedModel {
        QueuedModel {
            policy: self.policy,
            queue: views(self.queue@),
            pending: self.pending@,
            batch: views(self.batch@),
            gathering: self.gathering,
            probed: self.probed,
            adaptive: self.adaptive,
            metrics: self.metrics,
            next_ticket: self.next_ticket,
            closed: self.closed,
        }
    }
}

/// The controller after its batch was sealed and taken out.
pub open spec fn queued_batch_taken(
    state: QueuedModel,
    gathering: Gathering,
    reason: BatchSealReason,
    now: u64,
) -> QueuedModel {
    QueuedModel {
        batch: Seq::empty(),
        gathering: None,
        adaptive: adapted_to(state, gathering, reason),
        metrics: QueuedControllerMetrics {
            in_flight: state.batch.len() as u64,
            ..sealed_metrics(state, gathering, reason, now)
        },
        ..state
    }
}

impl QueuedIntentController {
    /// The database behind the controller, unless it is lent out.
    pub closed spec fn stored(&self) -> Database<MemoryCommitStore> {
        self.database->Some_0
    }

    /// Whether the database is lent out.
    pub closed spec fn lent(&self) -> bool {
        self.database is None
    }

    pub open spec fn wf(&self) -> bool {
        queued_ok(self@) && !self.lent() && self.stored().sound()
    }

    /// There is room to count the effects of the batch.
    pub open spec fn batch_has_room(&self) -> bool {
        has_epoch_room(self.stored().world(), batch_intents(self@.batch))
    }

    pub fn new(database: Database<MemoryCommitStore>, capacity: usize, policy: BatchPolicy) -> (
        result: Result<Self, ControllerConfigError>)
        requires
            database.sound(),
            widest_of(policy) < usize::MAX,
        ensures
            match result {
                Ok(controller) => {
                    &&& capacity > 0
                    &&& max_batch_of(policy) > 0
                    &&& controller.wf()
                    &&& controller.stored() == database
                    &&& controller@ == (QueuedModel {
                        policy,
                        queue: Seq::empty(),
                        pending: Seq::empty(),
                        batch: Seq::empty(),
                        gathering: None,
                        probed: false,
                        adaptive: AdaptiveState {
                            target_width: initial_target(policy) as usize,
                            epochs_sealed: 0,
                        },
                        metrics: fresh_queued(capacity, max_batch_of(policy)),
                        next_ticket: 1,
                        closed: false,
                    })
                },
                Err(ControllerConfigError::ZeroCapacity) => capacity == 0,
                Err(ControllerConfigError::ZeroBatchSize) => capacity > 0 && max_batch_of(policy)
                    == 0,
                Err(ControllerConfigError::Spawn(_)) => false,
            },
    {
        if capacity == 0 {
            return Err(ControllerConfigError::ZeroCapacity);
        }
        let max_batch: usize = policy.max_batch();
        if max_batch == 0 {
            return Err(ControllerConfigError::ZeroBatchSize);
        }
        let result = QueuedIntentController {
            database: Some(database),
            policy,
            queue: Vec::new(),
            pending: Vec::new(),
            batch: Vec::new(),
            gathering: None,
            probed: false,
            adaptive: AdaptiveState::new(policy),
            metrics: QueuedControllerMetrics::new(capacity, max_batch),
            next_ticket: 1,
            closed: false,
        };
        proof {
            target_starts_in_bounds(policy);
            assert(views(result.queue@) =~= Seq::empty());
            assert(views(result.batch@) =~= Seq::empty());
            assert(result@.pending =~= Seq::empty());
        }
        Ok(result)
    }

    pub fn database(&self) -> (result: &Database<MemoryCommitStore>)
        requires
            !self.lent(),
        ensures
            *result == self.stored(),
    {
        self.database.as_ref().unwrap()
    }

    /// Hands out the database, to work on it while commands come in. What needs the database waits
    /// until it is given back.
    pub fn lend(&mut self) -> (result: Database<MemoryCommitStore>)
        requires
            !old(self).lent(),
        ensures
            result == old(self).stored(),
            final(self)@ == old(self)@,
            final(self).lent(),
    {
        let mut held: Option<Database<MemoryCommitStore>> = None;
        core::mem::swap(&mut self.database, &mut held);
        held.unwrap()
    }

    /// Takes the database back.
    pub fn give_back(&mut self, database: Database<MemoryCommitStore>)
        ensures
            final(self).stored() == database,
            final(self)@ == old(self)@,
            !final(self).lent(),
    {
        self.database = Some(database);
    }

    pub fn metrics(&self) -> (result: QueuedControllerMetrics)
        ensures
            result == self@.metrics,
    {
        self.metrics
    }

    /// Puts an intent in the queue, or hands it back at once: when the controller is closed, or
    /// when the queue, with its barriers, is full.
    pub fn submit(&mut self, intent: QueuedIntent, now: u64) -> (result: Result<u64, SubmitError>)
        requires
            queued_ok(old(self)@),
        ensures
            queued_ok(final(self)@),
            old(self).wf() ==> final(self).wf(),
            final(self).stored() == old(self).stored(),
            final(self).lent() == old(self).lent(),
            match result {
                Err(SubmitError::Closed(handed_back)) => old(self)@.closed && handed_back@
                    == intent@ && final(self)@ == old(self)@,
                Err(SubmitError::Full(handed_back)) => !old(self)@.closed && old(self)@.queue.len()
                    >= old(self)@.metrics.capacity && handed_back@ == intent@ && final(self)@ == (QueuedModel {
                    metrics: QueuedControllerMetrics {
                        backpressured: counted(old(self)@.metrics.backpressured, 1),
                        ..old(self)@.metrics
                    },
                    ..old(self)@
                }),
                Ok(ticket) => {
                    let depth = (old(self)@.metrics.queue_depth + 1) as u64;
                    &&& !old(self)@.closed
                    &&& old(self)@.queue.len() < old(self)@.metrics.capacity
                    &&& ticket == old(self)@.next_ticket
                    &&& final(self)@ == (QueuedModel {
                        queue: old(self)@.queue.push(
                            CommandModel::Intent(
                                StagedModel { ticket, intent: intent@, enqueued_at: now },
                            ),
                        ),
                        next_ticket: counted(ticket, 1),
                        metrics: QueuedControllerMetrics {
                            queue_depth: depth,
                            maximum_queue_depth: larger(
                                old(self)@.metrics.maximum_queue_depth as int,
                                depth as int,
                            ) as u64,
                            submitted: counted(old(self)@.metrics.submitted, 1),
                            ..old(self)@.metrics
                        },
                        ..old(self)@
                    })
                },
            },
    {
        if self.closed {
            return Err(SubmitError::Closed(intent));
        }
        proof {
            waiting_bound(self@.queue);
            assert(self@.queue.len() == self.queue@.len());
        }
        if self.queue.len() >= self.metrics.capacity {
            self.metrics.backpressured = counted_once(self.metrics.backpressured);
            return Err(SubmitError::Full(intent));
        }
        let depth: u64 = match self.metrics.reserve_ingress() {
            Some(depth) => depth,
            None => {
                self.metrics.backpressured = counted_once(self.metrics.backpressured);
                return Err(SubmitError::Full(intent));
            },
        };
        self.metrics.observe_queue_depth(depth);
        self.metrics.submitted = counted_once(self.metrics.submitted);
        let ticket: u64 = self.next_ticket;
        self.next_ticket = counted_once(ticket);
        let staged = StagedIntent { ticket, intent, enqueued_at: now };
        let ghost before = self.queue@;
        let ghost model = staged@;
        self.queue.push(ControllerCommand::Intent(staged));
        proof {
            assert(views(self.queue@) =~= views(before).push(CommandModel::Intent(model)));
            waiting_push(views(before), CommandModel::Intent(model));
        }
        Ok(ticket)
    }

    /// Puts a barrier in the queue: it is released when everything before it has been done.
    pub fn flush(&mut self) -> (result: Result<u64, ControllerStopped>)
        requires
            queued_ok(old(self)@),
        ensures
            queued_ok(final(self)@),
            old(self).wf() ==> final(self).wf(),
            final(self).stored() == old(self).stored(),
            final(self).lent() == old(self).lent(),
            match result {
                Err(_) => old(self)@.closed && final(self)@ == old(self)@,
                Ok(barrier) => !old(self)@.closed && barrier == old(self)@.next_ticket && final(self)@ == (QueuedModel {
                    queue: old(self)@.queue.push(CommandModel::Barrier(barrier)),
                    next_ticket: counted(barrier, 1),
                    ..old(self)@
                }),
            },
    {
        if self.closed {
            return Err(ControllerStopped);
        }
        let barrier: u64 = self.next_ticket;
        self.next_ticket = counted_once(barrier);
        let ghost before = self.queue@;
        self.queue.push(ControllerCommand::Barrier(barrier));
        proof {
            assert(views(self.queue@) =~= views(before).push(CommandModel::Barrier(barrier)));
            waiting_push(views(before), CommandModel::Barrier(barrier));
        }
        Ok(barrier)
    }

    /// Takes no more commands.
    pub fn close(&mut self)
        ensures
            final(self)@ == (QueuedModel { closed: true, ..old(self)@ }),
            final(self).stored() == old(self).stored(),
            final(self).lent() == old(self).lent(),
            queued_ok(old(self)@) ==> queued_ok(final(self)@),
            old(self).wf() ==> final(self).wf(),
    {
        self.closed = true;
    }

    /// Counts a ticket that nobody waits for any more; what it stands for goes on.
    pub fn ticket_abandoned(&mut self)
        ensures
            final(self)@ == (QueuedModel {
                metrics: QueuedControllerMetrics {
                    abandoned_tickets: counted(old(self)@.metrics.abandoned_tickets, 1),
                    ..old(self)@.metrics
                },
                ..old(self)@
            }),
            final(self).stored() == old(self).stored(),
            final(self).lent() == old(self).lent(),
            queued_ok(old(self)@) ==> queued_ok(final(self)@),
            old(self).wf() ==> final(self).wf(),
    {
        self.metrics.abandoned_tickets = counted_once(self.metrics.abandoned_tickets);
    }

    /// Counts an outcome that could not be handed to the holder of its ticket.
    pub fn delivery_failed(&mut self)
        ensures
            final(self)@ == (QueuedModel {
                metrics: QueuedControllerMetrics {
                    completion_delivery_failures: counted(old(self)@.metrics.completion_delivery_failures, 1),
                    ..old(self)@.metrics
                },
                ..old(self)@
            }),
            final(self).stored() == old(self).stored(),
            final(self).lent() == old(self).lent(),
            queued_ok(old(self)@) ==> queued_ok(final(self)@),
            old(self).wf() ==> final(self).wf(),
    {
        self.metrics.completion_delivery_failures = counted_once(self.metrics.completion_delivery_failures);
    }

    /// The worker is gone.
    pub fn worker_exited(&mut self)
        ensures
            final(self)@ == (QueuedModel {
                metrics: QueuedControllerMetrics { worker_alive: false, ..old(self)@.metrics },
                ..old(self)@
            }),
            final(self).stored() == old(self).stored(),
            final(self).lent() == old(self).lent(),
            queued_ok(old(self)@) ==> queued_ok(final(self)@),
            old(self).wf() ==> final(self).wf(),
    {
        self.metrics.worker_alive = false;
    }

    /// Whether the effects of the batch can be counted.
    pub fn can_advance(&self) -> (result: bool)
        requires
            self.wf(),
        ensures
            result == self.batch_has_room(),
    {
        proof {
            reconstructed_facts(self.stored().log());
        }
        batch_fits(&self.database().snapshot(), &self.batch)
    }

    fn claim(&mut self, staged: StagedIntent)
        requires
            old(self).metrics.queue_depth > 0,
        ensures
            final(self)@ == (QueuedModel {
                batch: old(self)@.batch.push(staged@),
                metrics: claimed_metrics(old(self)@.metrics),
                ..old(self)@
            }),
            final(self).database == old(self).database,
    {
        self.metrics.release_ingress();
        self.metrics.claimed = counted_once(self.metrics.claimed);
        let ghost before = self.batch@;
        let ghost model = staged@;
        self.batch.push(staged);
        proof {
            assert(views(self.batch@) =~= views(before).push(model));
        }
    }

    /// Takes the first command of the queue.
    fn shift(&mut self) -> (result: Option<ControllerCommand>)
        ensures
            final(self).database == old(self).database,
            match result {
                None => old(self)@.queue.len() == 0 && final(self)@ == old(self)@,
                Some(command) => old(self)@.queue.len() > 0 && command@ == old(self)@.queue[0]
                    && final(self)@ == (QueuedModel {
                    queue: old(self)@.queue.drop_first(),
                    ..old(self)@
                }),
            },
    {
        if self.queue.len() == 0 {
            return None;
        }
        let ghost before = self.queue@;
        let command = self.queue.remove(0);
        proof {
            assert(views(self.queue@) =~= views(before).drop_first());
        }
        Some(command)
    }

    /// Takes the first command of the queue into the batch, or ends its taking.
    fn poll(&mut self, gathering: Gathering) -> (result: ControllerStep)
        requires
            old(self).wf(),
            old(self)@.gathering == Some(gathering),
            gathering.width < widest_of(gathering.policy),
        ensures
            final(self).database == old(self).database,
            ({
                let (after, step) = polled(old(self)@, gathering);
                final(self)@ == after && shows(result, step)
            }),
    {
        proof {
            if self@.queue.len() > 0 {
                waiting_remove_first(self@.queue);
            }
        }
        let mut batch_state = gathering;
        match self.shift() {
            None => {
                batch_state.take_nothing();
                self.gathering = Some(batch_state);
                ControllerStep::Deferred
            },
            Some(ControllerCommand::Intent(staged)) => {
                let ticket: u64 = staged.ticket;
                batch_state.take_intent(staged.enqueued_at);
                self.claim(staged);
                self.gathering = Some(batch_state);
                ControllerStep::Claimed(ticket)
            },
            Some(ControllerCommand::Barrier(barrier)) => {
                batch_state.take_nothing();
                self.pending.push(barrier);
                self.gathering = Some(batch_state);
                ControllerStep::Deferred
            },
        }
    }

    /// Lets the first command of the queue answer a probe.
    fn probe(&mut self, gathering: Gathering) -> (result: ControllerStep)
        requires
            old(self).wf(),
            old(self)@.gathering == Some(gathering),
            gathering.width < widest_of(gathering.policy),
            old(self)@.queue.len() > 0,
        ensures
            final(self).database == old(self).database,
            ({
                let (after, step) = probed(old(self)@, gathering);
                final(self)@ == after && shows(result, step)
            }),
    {
        proof {
            waiting_remove_first(self@.queue);
        }
        let mut batch_state = gathering;
        match self.shift() {
            None => ControllerStep::Deferred,
            Some(ControllerCommand::Intent(staged)) => {
                let ticket: u64 = staged.ticket;
                batch_state.probe_intent(staged.enqueued_at);
                self.claim(staged);
                self.gathering = Some(batch_state);
                ControllerStep::Claimed(ticket)
            },
            Some(ControllerCommand::Barrier(barrier)) => {
                batch_state.probe_barrier();
                self.pending.push(barrier);
                self.gathering = Some(batch_state);
                ControllerStep::Deferred
            },
        }
    }

    fn count_probe(&mut self, wait: u64)
        ensures
            final(self)@ == probe_counted(old(self)@, wait),
            final(self).database == old(self).database,
    {
        if !self.probed {
            self.probed = true;
            self.metrics.total_adaptive_probe_wait_ns = counted_more(
                self.metrics.total_adaptive_probe_wait_ns,
                wait,
            );
        }
    }

    /// Without a batch: releases a barrier, or takes the next command.
    fn take_up(&mut self, now: u64) -> (result: ControllerStep)
        requires
            old(self).wf(),
            old(self)@.gathering is None,
        ensures
            final(self).database == old(self).database,
            ({
                let (after, step) = taken_up(old(self)@, now);
                final(self)@ == after && shows(result, step)
            }),
    {
        if self.pending.len() > 0 {
            let ghost before = self.pending@;
            let barrier: u64 = self.pending.remove(0);
            self.metrics.record_seal_reason(BatchSealReason::Barrier);
            proof {
                assert(self.pending@ =~= before.drop_first());
            }
            return ControllerStep::Released(barrier);
        }
        proof {
            if self@.queue.len() > 0 {
                waiting_remove_first(self@.queue);
            }
        }
        match self.shift() {
            None => if self.closed {
                ControllerStep::Stopped
            } else {
                ControllerStep::Idle
            },
            Some(ControllerCommand::Barrier(barrier)) => {
                self.metrics.record_seal_reason(BatchSealReason::Barrier);
                ControllerStep::Released(barrier)
            },
            Some(ControllerCommand::Intent(staged)) => {
                let ticket: u64 = staged.ticket;
                let batch_state = Gathering::begin(
                    self.policy,
                    self.adaptive.target_width,
                    staged.enqueued_at,
                    now,
                );
                let ghost model = staged@;
                let ghost before = self@.batch;
                self.claim(staged);
                self.gathering = Some(batch_state);
                self.probed = false;
                proof {
                    assert(before.push(model) =~= seq![model]);
                }
                ControllerStep::Claimed(ticket)
            },
        }
    }

    /// Follows the traffic that a sealed batch shows, and counts it.
    fn seal(&mut self, gathering: Gathering, reason: BatchSealReason, now: u64)
        requires
            old(self)@.adaptive.target_width < usize::MAX,
            old(self)@.adaptive.target_width <= widest_of(old(self)@.policy),
            gathering.policy == old(self)@.policy,
        ensures
            final(self).database == old(self).database,
            final(self)@ == (QueuedModel {
                adaptive: adapted_to(old(self)@, gathering, reason),
                metrics: sealed_metrics(old(self)@, gathering, reason, now),
                ..old(self)@
            }),
    {
        if let BatchPolicy::Adaptive { min_batch, max_batch, .. } = self.policy {
            proof {
                target_stays_in_bounds(
                    self.adaptive.target_width as int,
                    reason,
                    gathering.width as int,
                    min_batch as int,
                    max_batch as int,
                );
            }
            self.metrics.record_oldest_age_at_seal(gathering.age(now));
            self.adaptive.update_target(reason, gathering.width, min_batch, max_batch);
            self.metrics.record_max_target_width(self.adaptive.target_width);
        }
        self.metrics.record_seal_reason(reason);
    }

    /// Takes out the batch that is to be sealed now, if one is. Its epoch is committed on the
    /// database, and then concluded.
    pub fn take_batch(&mut self, now: u64, predicted: u64) -> (result: Option<SealedBatch>)
        requires
            queued_ok(old(self)@),
        ensures
            queued_ok(final(self)@),
            final(self).stored() == old(self).stored(),
            final(self).lent() == old(self).lent(),
            match next_step(old(self)@, now, predicted).1 {
                NextStep::Seal(reason) => {
                    &&& result matches Some(sealed)
                    &&& sealed.tickets@ == batch_tickets(old(self)@.batch)
                    &&& views(sealed.intents@) == batch_intents(old(self)@.batch)
                    &&& final(self)@ == queued_batch_taken(
                        old(self)@,
                        old(self)@.gathering->Some_0,
                        reason,
                        now,
                    )
                },
                _ => result is None && final(self)@ == old(self)@,
            },
    {
        let gathering = match self.gathering {
            None => return None,
            Some(gathering) => gathering,
        };
        let reason = match gathering.decide(now, true, predicted) {
            GatherAction::Seal(reason) => reason,
            _ => return None,
        };
        self.seal(gathering, reason, now);
        proof {
            target_stays_in_bounds(
                old(self)@.adaptive.target_width as int,
                reason,
                gathering.width as int,
                min_batch_of(old(self)@.policy) as int,
                max_batch_of(old(self)@.policy) as int,
            );
        }
        let mut batch: Vec<StagedIntent> = Vec::new();
        core::mem::swap(&mut self.batch, &mut batch);
        self.gathering = None;
        self.metrics.in_flight = batch.len() as u64;
        let (tickets, intents) = split_batch(batch);
        proof {
            assert(views(self.batch@) =~= Seq::empty());
        }
        Some(SealedBatch { tickets, intents })
    }

    /// Tells the tickets of a batch what became of their intents, and counts its epoch.
    pub fn conclude_epoch(&mut self, tickets: Vec<u64>, plan: EpochPlan) -> (result: Vec<
        TicketResolution,
    >)
        requires
            plan@.outcomes.len() == tickets@.len(),
        ensures
            queued_ok(old(self)@) ==> queued_ok(final(self)@),
            final(self).stored() == old(self).stored(),
            final(self).lent() == old(self).lent(),
            resolves(result@, tickets@, plan@.outcomes),
            final(self)@ == (QueuedModel {
                metrics: QueuedControllerMetrics {
                    accepted: counted(
                        old(self)@.metrics.accepted,
                        acceptances(plan@.outcomes),
                    ),
                    rejected: counted(
                        old(self)@.metrics.rejected,
                        (plan@.outcomes.len() - acceptances(plan@.outcomes)) as nat,
                    ),
                    epochs: counted(old(self)@.metrics.epochs, 1),
                    in_flight: 0,
                    ..old(self)@.metrics
                },
                ..old(self)@
            }),
    {
        let resolutions = self.route(tickets, plan.into_outcomes());
        self.metrics.epochs = counted_once(self.metrics.epochs);
        self.metrics.in_flight = 0;
        resolutions
    }

    /// Commits the batch as one epoch and tells each ticket what became of its intent.
    fn process_batch(&mut self) -> (result: Vec<TicketResolution>)
        requires
            old(self).stored().sound(),
            !old(self).lent(),
            old(self).batch_has_room(),
        ensures
            final(self).stored().sound(),
            !final(self).lent(),
            final(self).stored().rules() == old(self).stored().rules(),
            exists|plan: PlanModel|
                {
                    &&& #[trigger] commits(
                        old(self).stored(),
                        final(self).stored(),
                        batch_intents(old(self)@.batch),
                        plan,
                    )
                    &&& resolves(result@, batch_tickets(old(self)@.batch), plan.outcomes)
                    &&& final(self)@ == (QueuedModel {
                        batch: Seq::empty(),
                        gathering: None,
                        metrics: QueuedControllerMetrics {
                            accepted: counted(
                                old(self)@.metrics.accepted,
                                acceptances(plan.outcomes),
                            ),
                            rejected: counted(
                                old(self)@.metrics.rejected,
                                (plan.outcomes.len() - acceptances(plan.outcomes)) as nat,
                            ),
                            epochs: counted(old(self)@.metrics.epochs, 1),
                            in_flight: 0,
                            ..old(self)@.metrics
                        },
                        ..old(self)@
                    })
                },
    {
        let ghost batch_models = views(self.batch@);
        let mut batch: Vec<StagedIntent> = Vec::new();
        core::mem::swap(&mut self.batch, &mut batch);
        self.gathering = None;
        let (tickets, intents) = split_batch(batch);
        let mut database = self.lend();
        let plan = database.commit_queued_epoch(intents);
        self.give_back(database);
        let ghost model = plan@;
        proof {
            assert(commits(
                old(self).stored(),
                self.stored(),
                batch_intents(old(self)@.batch),
                model,
            ));
            let verdicts = choose|verdicts: Seq<Result<(), Seq<char>>>|
                verdicts.len() == batch_models.len() && may_settle(
                    old(self).stored().rules(),
                    old(self).stored().world(),
                    batch_intents(batch_models),
                    verdicts,
                ) && model == chained(
                    old(self).stored().world(),
                    batch_intents(batch_models),
                    verdicts,
                );
            outcomes_follow_intents(
                old(self).stored().world(),
                batch_intents(batch_models),
                verdicts,
            );
        }
        let ghost committed = self.stored();
        let resolutions = self.conclude_epoch(tickets, plan);
        proof {
            assert(views(self.batch@) =~= Seq::empty());
            assert(tickets@ == batch_tickets(old(self)@.batch));
            assert(resolves(resolutions@, batch_tickets(old(self)@.batch), model.outcomes));
            assert(self.stored() == committed);
            assert(self@.queue == old(self)@.queue);
            assert(self@.metrics.accepted == counted(
                old(self)@.metrics.accepted,
                acceptances(model.outcomes),
            ));
        }
        resolutions
    }

    /// Tells each ticket what became of its intent, and counts it.
    fn route(&mut self, tickets: Vec<u64>, outcomes: Vec<EpochOutcome>) -> (result: Vec<
        TicketResolution,
    >)
        requires
            tickets.len() == outcomes.len(),
        ensures
            final(self).database == old(self).database,
            resolves(result@, tickets@, views(outcomes@)),
            final(self)@ == (QueuedModel {
                metrics: QueuedControllerMetrics {
                    accepted: counted(
                        old(self)@.metrics.accepted,
                        acceptances(views(outcomes@)),
                    ),
                    rejected: counted(
                        old(self)@.metrics.rejected,
                        (outcomes.len() - acceptances(views(outcomes@))) as nat,
                    ),
                    ..old(self)@.metrics
                },
                ..old(self)@
            }),
    {
        let ghost models = views(outcomes@);
        let ghost start = self.metrics;
        let mut waiting = outcomes;
        let mut resolutions: Vec<TicketResolution> = Vec::new();
        proof {
            assert(models.take(0) =~= Seq::empty());
            counted_twice(start.accepted, 0, 0);
            counted_twice(start.rejected, 0, 0);
        }
        while waiting.len() > 0
            invariant
                tickets.len() == models.len(),
                resolutions.len() + waiting.len() == models.len(),
                forall|i: int|
                    0 <= i < waiting.len() ==> (#[trigger] waiting@[i])@
                        == models[resolutions.len() + i],
                forall|i: int|
                    0 <= i < resolutions.len() ==> (#[trigger] resolutions@[i]).ticket
                        == tickets@[i] && resolutions@[i].outcome@ == told_outcome(models[i]),
                acceptances(models.take(resolutions.len() as int)) <= resolutions.len(),
                self.database == old(self).database,
                self@ == (QueuedModel {
                    metrics: QueuedControllerMetrics {
                        accepted: counted(
                            start.accepted,
                            acceptances(models.take(resolutions.len() as int)),
                        ),
                        rejected: counted(
                            start.rejected,
                            (resolutions.len() - acceptances(
                                models.take(resolutions.len() as int),
                            )) as nat,
                        ),
                        ..start
                    },
                    ..old(self)@
                }),
            decreases waiting.len(),
        {
            let ghost before = waiting@;
            let ghost done = resolutions.len() as int;
            let outcome = waiting.remove(0);
            proof {
                assert(outcome@ == models[done]);
                assert(models.take(done + 1).drop_last() =~= models.take(done));
                assert(models.take(done + 1).last() == models[done]);
                assert forall|i: int| 0 <= i < waiting.len() implies (#[trigger] waiting@[i])@
                    == models[done + 1 + i] by {
                    assert(waiting@[i] == before[i + 1]);
                }
                let so_far = acceptances(models.take(done));
                counted_twice(start.accepted, so_far, 1);
                counted_twice(start.rejected, (done - so_far) as nat, 1);
            }
            let told = TicketOutcome::from_epoch_outcome(outcome);
            match &told {
                TicketOutcome::Accepted(_) => {
                    self.metrics.accepted = counted_once(self.metrics.accepted);
                },
                TicketOutcome::Rejected(_) => {
                    self.metrics.rejected = counted_once(self.metrics.rejected);
                },
            }
            let ticket: u64 = tickets[resolutions.len()];
            resolutions.push(TicketResolution { ticket, outcome: told });
        }
        proof {
            assert(models.take(resolutions.len() as int) =~= models);
        }
        resolutions
    }

    /// Does the next thing that there is to do, at a time, with the predicted time between two
    /// intents.
    pub fn advance(&mut self, now: u64, predicted: u64) -> (result: ControllerStep)
        requires
            old(self).wf(),
            old(self).batch_has_room(),
        ensures
            final(self).wf(),
            final(self).stored().rules() == old(self).stored().rules(),
            match next_step(old(self)@, now, predicted) {
                (_, NextStep::Seal(reason)) => {
                    &&& result matches ControllerStep::Resolved(resolutions)
                    &&& exists|plan: PlanModel|
                        {
                            &&& #[trigger] commits(
                                old(self).stored(),
                                final(self).stored(),
                                batch_intents(old(self)@.batch),
                                plan,
                            )
                            &&& resolves(
                                resolutions@,
                                batch_tickets(old(self)@.batch),
                                plan.outcomes,
                            )
                            &&& final(self)@ == after_batch(
                                old(self)@,
                                old(self)@.gathering->Some_0,
                                reason,
                                now,
                                plan.outcomes,
                            )
                        }
                },
                (after, step) => final(self)@ == after && shows(result, step) && final(self).stored() == old(self).stored(),
            },
    {
        proof {
            steps_keep_order(self@, now, predicted);
        }
        let gathering = match self.gathering {
            None => return self.take_up(now),
            Some(gathering) => gathering,
        };
        let action = gathering.decide(now, true, predicted);
        proof {
            if !(action is Seal) {
                batches_never_overflow(gathering, now, true, predicted, now);
            }
        }
        match action {
            GatherAction::Poll => self.poll(gathering),
            GatherAction::Wait(wait) => if self.queue.len() == 0 && !self.closed {
                proof {
                    assert(self@.queue.len() == 0);
                }
                ControllerStep::Waiting(wait)
            } else {
                proof {
                    assert(self@.queue.len() == self.queue@.len());
                }
                self.poll(gathering)
            },
            GatherAction::Probe(wait) => {
                self.count_probe(wait);
                proof {
                    assert(self@.queue.len() == self.queue@.len());
                }
                if self.queue.len() > 0 {
                    self.probe(gathering)
                } else if self.closed {
                    let mut batch_state = gathering;
                    batch_state.probe_nothing(predicted);
                    self.gathering = Some(batch_state);
                    ControllerStep::Deferred
                } else {
                    ControllerStep::Waiting(wait)
                }
            },
            GatherAction::Seal(reason) => {
                self.seal(gathering, reason, now);
                proof {
                    target_stays_in_bounds(
                        old(self)@.adaptive.target_width as int,
                        reason,
                        gathering.width as int,
                        min_batch_of(old(self)@.policy) as int,
                        max_batch_of(old(self)@.policy) as int,
                    );
                }
                let resolutions = self.process_batch();
                ControllerStep::Resolved(resolutions)
            },
        }
    }

    /// The time that a batch waited has passed, and no command came.
    pub fn waited(&mut self, predicted: u64)
        requires
            queued_ok(old(self)@),
        ensures
            queued_ok(final(self)@),
            old(self).wf() ==> final(self).wf(),
            final(self).stored() == old(self).stored(),
            final(self).lent() == old(self).lent(),
            final(self)@ == (QueuedModel {
                gathering: match old(self)@.gathering {
                    None => None,
                    Some(gathering) => Some(
                        if old(self)@.policy is Adaptive && gathering.stage == GatherStage::Draining {
                            unanswered(gathering, predicted)
                        } else {
                            (Gathering { open: false, ..gathering })
                        },
                    ),
                },
                ..old(self)@
            }),
    {
        if let Some(gathering) = self.gathering {
            let mut batch_state = gathering;
            match (self.policy, gathering.stage) {
                (BatchPolicy::Adaptive { .. }, GatherStage::Draining) => {
                    batch_state.probe_nothing(predicted);
                },
                _ => {
                    batch_state.take_nothing();
                },
            }
            self.gathering = Some(batch_state);
        }
    }
}

/// An epoch of intents was planned on the world of a database and published.
pub open spec fn commits(
    before: Database<MemoryCommitStore>,
    after: Database<MemoryCommitStore>,
    intents: Seq<IntentModel>,
    plan: PlanModel,
) -> bool {
    &&& exists|verdicts: Seq<Result<(), Seq<char>>>|
        verdicts.len() == intents.len() && may_settle(
            before.rules(),
            before.world(),
            intents,
            verdicts,
        ) && plan == chained(before.world(), intents, verdicts)
    &&& before.rules().len() == 0 ==> plan == chained(
        before.world(),
        intents,
        unopposed(intents.len()),
    )
    &&& after.world() == plan.tail
    &&& after.log() == before.log() + plan.frames
}

/// A step is the one that was expected.
pub open spec fn shows(step: ControllerStep, model: NextStep) -> bool {
    match (step, model) {
        (ControllerStep::Idle, NextStep::Idle) => true,
        (ControllerStep::Stopped, NextStep::Stopped) => true,
        (ControllerStep::Claimed(ticket), NextStep::Claimed(expected)) => ticket == expected,
        (ControllerStep::Deferred, NextStep::Deferred) => true,
        (ControllerStep::Waiting(wait), NextStep::Waiting(expected)) => wait == expected,
        (ControllerStep::Released(barrier), NextStep::Released(expected)) => barrier == expected,
        _ => false,
    }
}

} // verus!
