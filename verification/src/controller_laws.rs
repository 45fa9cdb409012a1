//! What controllers keep: every intent and every barrier, in their order, and the counts of them.

use crate::batching::{BatchSealReason, Gathering, age_of, gathering_ok};
use crate::controller_metrics::{
    DurableQueuedControllerMetrics, QueuedControllerMetrics, sealed_durable, sealed_queued,
};
use crate::database::{Database, MemoryCommitStore};
use crate::durable_controller::{
    DurableModel, DurableNext, DurableResolution, after_epoch, batch_taken, durable_next_step,
    durable_ok, durably_sealed, emptied, poisoned, queued_barriers, queued_tickets,
    queued_tickets_count, resolves_durably, told_durably,
};
use crate::epoch_io::counted_twice;
use crate::epoch_laws::{accepted_intents_have_frames, later_intents_change_nothing_earlier};
use crate::errors::candidate_error_text;
use crate::intent::IntentModel;
use crate::plan_model::{OutcomeModel, PlanModel, RejectionModel, chained, may_settle};
use crate::queued_controller::{
    NextStep, QueuedModel, TicketResolution, acceptances, after_batch, commits, next_step,
    queued_ok, resolves,
};
use crate::rejection::TicketRejectionModel;
use crate::staging::{CommandModel, StagedModel, batch_intents, batch_tickets, waiting_intents};
use crate::tickets::{
    DurableControllerState, DurableOutcomeModel, StopReasonModel, TicketOutcomeModel, told_outcome,
};
use vstd::prelude::*;

verus! {

/// The commands of a queue that satisfy a test keep their order when the first command leaves.
pub proof fn first_ticket_leaves(queue: Seq<CommandModel>)
    requires
        queue.len() > 0,
    ensures
        queued_tickets(queue) == match queue[0] {
            CommandModel::Intent(staged) => seq![staged.ticket] + queued_tickets(
                queue.drop_first(),
            ),
            CommandModel::Barrier(_) => queued_tickets(queue.drop_first()),
        },
        queued_barriers(queue) == match queue[0] {
            CommandModel::Intent(_) => queued_barriers(queue.drop_first()),
            CommandModel::Barrier(barrier) => seq![barrier] + queued_barriers(queue.drop_first()),
        },
    decreases queue.len(),
{
    let rest = queue.drop_first();
    if queue.len() == 1 {
        assert(rest =~= Seq::empty());
        assert(queue.drop_last() =~= Seq::empty());
    } else {
        first_ticket_leaves(queue.drop_last());
        assert(queue.drop_last().drop_first() =~= rest.drop_last());
        assert(rest.last() == queue.last());
    }
    assert(queued_tickets(queue) =~= match queue[0] {
        CommandModel::Intent(staged) => seq![staged.ticket] + queued_tickets(rest),
        CommandModel::Barrier(_) => queued_tickets(rest),
    });
    assert(queued_barriers(queue) =~= match queue[0] {
        CommandModel::Intent(_) => queued_barriers(rest),
        CommandModel::Barrier(barrier) => seq![barrier] + queued_barriers(rest),
    });
}

/// The tickets and the barriers of a queue are those of its commands, each once and in order, and
/// the intents that wait are those that are no barriers.
pub proof fn queues_hold_tickets_and_barriers(queue: Seq<CommandModel>, command: CommandModel)
    ensures
        queued_tickets(queue.push(command)) == match command {
            CommandModel::Intent(staged) => queued_tickets(queue).push(staged.ticket),
            CommandModel::Barrier(_) => queued_tickets(queue),
        },
        queued_barriers(queue.push(command)) == match command {
            CommandModel::Intent(_) => queued_barriers(queue),
            CommandModel::Barrier(barrier) => queued_barriers(queue).push(barrier),
        },
        queued_tickets(Seq::<CommandModel>::empty()).len() == 0,
        queued_barriers(Seq::<CommandModel>::empty()).len() == 0,
        waiting_intents(queue) == queued_tickets(queue).len(),
        queued_tickets(queue).len() + queued_barriers(queue).len() == queue.len(),
    decreases queue.len(),
{
    assert(queue.push(command).drop_last() =~= queue);
    queued_tickets_count(queue);
    if queue.len() > 0 {
        queues_hold_tickets_and_barriers(queue.drop_last(), command);
    }
}

/// No step of a controller loses, repeats or reorders anything: the tickets of the batch and of the
/// queue stay the same sequence, and so do the barriers, but for one that is released, which is the
/// first. A barrier is released only when there is no batch and, if it stood in the queue, when
/// nothing stands in front of it. A step waits or idles only where there is no command.
pub proof fn queued_steps_lose_nothing(state: QueuedModel, now: u64, predicted: u64)
    requires
        state.gathering is None ==> state.batch.len() == 0,
    ensures
        ({
            let (after, step) = next_step(state, now, predicted);
            let tickets = batch_tickets(state.batch) + queued_tickets(state.queue);
            let barriers = state.pending + queued_barriers(state.queue);
            let left = after.pending + queued_barriers(after.queue);
            &&& batch_tickets(after.batch) + queued_tickets(after.queue) == tickets
            &&& barriers == match step {
                NextStep::Released(barrier) => seq![barrier] + left,
                _ => left,
            }
            &&& step matches NextStep::Claimed(ticket) ==> after.batch.len() == state.batch.len()
                + 1 && after.batch.last().ticket == ticket && state.queue.len() > 0
                && state.queue[0] == CommandModel::Intent(after.batch.last())
            &&& !(step is Claimed) ==> after.batch == state.batch
            &&& step is Released ==> state.gathering is None && after.gathering is None
            &&& step is Idle || step is Stopped ==> state.queue.len() == 0 && state.pending.len()
                == 0 && state.gathering is None
            &&& step is Stopped <==> state.closed && state.queue.len() == 0 && state.pending.len()
                == 0 && state.gathering is None
            &&& step is Waiting ==> state.queue.len() == 0 && !state.closed
            &&& step is Seal ==> after == state && state.gathering is Some
            &&& after.policy == state.policy
            &&& after.adaptive == state.adaptive
            &&& after.next_ticket == state.next_ticket
            &&& after.closed == state.closed
        }),
{
    if state.queue.len() > 0 {
        first_ticket_leaves(state.queue);
    }
    let (after, step) = next_step(state, now, predicted);
    assert(batch_tickets(after.batch) + queued_tickets(after.queue) =~= batch_tickets(state.batch)
        + queued_tickets(state.queue));
    assert(state.pending + queued_barriers(state.queue) =~= match step {
        NextStep::Released(barrier) => seq![barrier] + (after.pending + queued_barriers(
            after.queue,
        )),
        _ => after.pending + queued_barriers(after.queue),
    });
}

/// What a step of a controller counts: an intent that is claimed leaves the depth of the queue and is
/// claimed once, a barrier that is released is a seal, a wait is counted once for each batch, and
/// nothing else is counted.
pub proof fn queued_steps_are_counted(state: QueuedModel, now: u64, predicted: u64)
    requires
        queued_ok(state),
    ensures
        ({
            let (after, step) = next_step(state, now, predicted);
            let old_metrics = state.metrics;
            let new_metrics = after.metrics;
            &&& new_metrics.queue_depth + queued_tickets(state.queue).len()
                == old_metrics.queue_depth + queued_tickets(after.queue).len()
            &&& step is Claimed ==> new_metrics.queue_depth + 1 == old_metrics.queue_depth
                && new_metrics.claimed == old_metrics.claimed.wrapping_add(1)
            &&& !(step is Claimed) ==> new_metrics.claimed == old_metrics.claimed
                && new_metrics.queue_depth == old_metrics.queue_depth
            &&& step is Released ==> new_metrics.batches_sealed_by_barrier
                == old_metrics.batches_sealed_by_barrier.wrapping_add(1)
            &&& new_metrics == (QueuedControllerMetrics {
                queue_depth: new_metrics.queue_depth,
                claimed: new_metrics.claimed,
                batches_sealed_by_barrier: if step is Released {
                    new_metrics.batches_sealed_by_barrier
                } else {
                    old_metrics.batches_sealed_by_barrier
                },
                total_adaptive_probe_wait_ns: if state.probed || !(state.policy is Adaptive) {
                    old_metrics.total_adaptive_probe_wait_ns
                } else {
                    new_metrics.total_adaptive_probe_wait_ns
                },
                ..old_metrics
            })
            &&& step matches NextStep::Waiting(wait) ==> (state.policy is Adaptive ==> after.probed
                && (!state.probed ==> new_metrics.total_adaptive_probe_wait_ns
                == old_metrics.total_adaptive_probe_wait_ns.wrapping_add(wait)))
        }),
{
    if state.queue.len() > 0 {
        first_ticket_leaves(state.queue);
        queued_tickets_count(state.queue);
        queued_tickets_count(state.queue.drop_first());
    }
    counted_twice(state.metrics.claimed, 0, 1);
    counted_twice(state.metrics.batches_sealed_by_barrier, 0, 1);
    let step = next_step(state, now, predicted).1;
    if let NextStep::Waiting(wait) = step {
        counted_twice(state.metrics.total_adaptive_probe_wait_ns, 0, wait as nat);
    }
}

/// What a committed batch counts: each outcome once, as accepted or as rejected, and one epoch, and
/// one seal for its reason. Nothing of it stays behind, and what waits is not touched.
pub proof fn committed_batches_are_counted(
    state: QueuedModel,
    gathering: Gathering,
    reason: BatchSealReason,
    now: u64,
    outcomes: Seq<OutcomeModel>,
)
    ensures
        ({
            let after = after_batch(state, gathering, reason, now, outcomes);
            let accepted = outcomes.filter(|outcome: OutcomeModel| outcome is Accepted).len();
            let rejected = outcomes.filter(|outcome: OutcomeModel| outcome is Rejected).len();
            let modulus: int = 0x1_0000_0000_0000_0000;
            &&& accepted + rejected == outcomes.len()
            &&& after.metrics.accepted == (state.metrics.accepted + accepted) % modulus
            &&& after.metrics.rejected == (state.metrics.rejected + rejected) % modulus
            &&& after.metrics.epochs == (state.metrics.epochs + 1) % modulus
            &&& after.metrics.in_flight == 0
            &&& after.batch.len() == 0
            &&& after.gathering is None
            &&& after.queue == state.queue
            &&& after.pending == state.pending
            &&& after.metrics.claimed == state.metrics.claimed
            &&& after.metrics.submitted == state.metrics.submitted
            &&& after.metrics.queue_depth == state.metrics.queue_depth
            &&& after.next_ticket == state.next_ticket
            &&& after.closed == state.closed
            &&& after.metrics.maximum_oldest_age_at_seal_ns
                >= state.metrics.maximum_oldest_age_at_seal_ns
            &&& state.policy is Adaptive && now >= gathering.oldest
                ==> after.metrics.maximum_oldest_age_at_seal_ns >= now - gathering.oldest
            &&& !(state.policy is Adaptive) ==> after.adaptive == state.adaptive
                && after.metrics.maximum_target_width == state.metrics.maximum_target_width
            &&& state.policy is Adaptive ==> after.adaptive.epochs_sealed == (
            state.adaptive.epochs_sealed + 1) % modulus
        }),
{
    acceptances_are_counted(outcomes);
}

/// Acceptances and refusals together are all outcomes.
pub proof fn acceptances_are_counted(outcomes: Seq<OutcomeModel>)
    ensures
        acceptances(outcomes) == outcomes.filter(
            |outcome: OutcomeModel| outcome is Accepted,
        ).len(),
        outcomes.len() - acceptances(outcomes) == outcomes.filter(
            |outcome: OutcomeModel| outcome is Rejected,
        ).len(),
    decreases outcomes.len(),
{
    reveal(Seq::filter);
    if outcomes.len() > 0 {
        acceptances_are_counted(outcomes.drop_last());
    }
}

/// How many batches were sealed for a reason.
pub open spec fn seals_for(
    metrics: QueuedControllerMetrics,
    reason: BatchSealReason,
) -> u64 {
    match reason {
        BatchSealReason::Capacity => metrics.batches_sealed_by_capacity,
        BatchSealReason::Timeout => metrics.batches_sealed_by_timeout,
        BatchSealReason::Drain => metrics.batches_sealed_by_drain,
        BatchSealReason::Width => metrics.batches_sealed_by_width,
        BatchSealReason::Latency => metrics.batches_sealed_by_latency,
        BatchSealReason::LowTraffic => metrics.batches_sealed_by_low_traffic,
        BatchSealReason::SourceStalled => metrics.batches_sealed_by_source_stalled,
        BatchSealReason::Barrier => metrics.batches_sealed_by_barrier,
    }
}

/// How many batches of a durable controller were sealed for a reason.
pub open spec fn durable_seals_for(
    metrics: DurableQueuedControllerMetrics,
    reason: BatchSealReason,
) -> u64 {
    match reason {
        BatchSealReason::Capacity => metrics.batches_sealed_by_capacity,
        BatchSealReason::Timeout => metrics.batches_sealed_by_timeout,
        BatchSealReason::Drain => metrics.batches_sealed_by_drain,
        BatchSealReason::Width => metrics.batches_sealed_by_width,
        BatchSealReason::Latency => metrics.batches_sealed_by_latency,
        BatchSealReason::LowTraffic => metrics.batches_sealed_by_low_traffic,
        BatchSealReason::SourceStalled => metrics.batches_sealed_by_source_stalled,
        BatchSealReason::Barrier => metrics.batches_sealed_by_barrier,
    }
}

/// A seal is counted for its reason and for no other, and changes no other count.
pub proof fn seals_are_counted_by_reason(
    metrics: QueuedControllerMetrics,
    durable: DurableQueuedControllerMetrics,
    reason: BatchSealReason,
    other: BatchSealReason,
)
    ensures
        seals_for(sealed_queued(metrics, reason), other) == if other == reason {
            seals_for(metrics, other).wrapping_add(1)
        } else {
            seals_for(metrics, other)
        },
        durable_seals_for(sealed_durable(durable, reason), other) == if other == reason {
            durable_seals_for(durable, other).wrapping_add(1)
        } else {
            durable_seals_for(durable, other)
        },
        ({
            let after = sealed_queued(metrics, reason);
            &&& after.accepted == metrics.accepted
            &&& after.rejected == metrics.rejected
            &&& after.claimed == metrics.claimed
            &&& after.epochs == metrics.epochs
            &&& after.queue_depth == metrics.queue_depth
            &&& after.in_flight == metrics.in_flight
        }),
        ({
            let after = sealed_durable(durable, reason);
            &&& after.accepted == durable.accepted
            &&& after.rejected == durable.rejected
            &&& after.claimed == durable.claimed
            &&& after.epochs == durable.epochs
            &&& after.queue_depth == durable.queue_depth
            &&& after.in_flight == durable.in_flight
            &&& after.state == durable.state
        }),
{
    counted_twice(seals_for(metrics, reason), 0, 1);
    counted_twice(durable_seals_for(durable, reason), 0, 1);
}

/// No step of a durable controller loses, repeats or reorders anything, as in memory. A controller
/// that does not run takes up no intent and releases no barrier where there is no batch, but refuses
/// what waits.
pub proof fn durable_steps_lose_nothing(state: DurableModel, now: u64, predicted: u64)
    requires
        state.gathering is None ==> state.batch.len() == 0,
    ensures
        ({
            let (after, step) = durable_next_step(state, now, predicted);
            let tickets = batch_tickets(state.batch) + queued_tickets(state.queue);
            let barriers = state.pending + queued_barriers(state.queue);
            let left = after.pending + queued_barriers(after.queue);
            let waiting = state.queue.len() > 0 || state.pending.len() > 0;
            &&& batch_tickets(after.batch) + queued_tickets(after.queue) == tickets
            &&& barriers == match step {
                DurableNext::Released(barrier) => seq![barrier] + left,
                _ => left,
            }
            &&& step matches DurableNext::Claimed(ticket) ==> after.batch.len()
                == state.batch.len() + 1 && after.batch.last().ticket == ticket
                && state.queue.len() > 0 && state.queue[0] == CommandModel::Intent(
                after.batch.last(),
            )
            &&& !(step is Claimed) ==> after.batch == state.batch
            &&& step is Released ==> state.gathering is None && after.gathering is None
            &&& step is Idle || step is Finished ==> !waiting && state.gathering is None && (
            step is Finished <==> state.closed)
            &&& step is Waiting ==> state.queue.len() == 0 && !state.closed
            &&& step is Seal ==> after == state && state.gathering is Some
            &&& state.gathering is None && waiting ==> match state.metrics.state {
                DurableControllerState::Draining | DurableControllerState::Closed => step
                    == DurableNext::Drain(StopReasonModel::ShutdownBeforeClaim) && after == state,
                DurableControllerState::Poisoned => after == state && match state.reason {
                    Some(reason) => step == DurableNext::Drain(
                        StopReasonModel::WorkerFailed(reason),
                    ),
                    None => step is Drain,
                },
                DurableControllerState::Starting | DurableControllerState::Running => step is Claimed
                    || step is Released,
            }
            &&& step is Drain ==> state.gathering is None && waiting
            &&& after.policy == state.policy
            &&& after.adaptive == state.adaptive
            &&& after.next_ticket == state.next_ticket
            &&& after.closed == state.closed
            &&& after.reason == state.reason
            &&& after.metrics.state == state.metrics.state
        }),
{
    if state.queue.len() > 0 {
        first_ticket_leaves(state.queue);
    }
    let (after, step) = durable_next_step(state, now, predicted);
    assert(batch_tickets(after.batch) + queued_tickets(after.queue) =~= batch_tickets(state.batch)
        + queued_tickets(state.queue));
    assert(state.pending + queued_barriers(state.queue) =~= match step {
        DurableNext::Released(barrier) => seq![barrier] + (after.pending + queued_barriers(
            after.queue,
        )),
        _ => after.pending + queued_barriers(after.queue),
    });
}

/// What a step of a durable controller counts, as in memory; and how long an intent waited.
pub proof fn durable_steps_are_counted(state: DurableModel, now: u64, predicted: u64)
    requires
        durable_ok(state),
    ensures
        ({
            let (after, step) = durable_next_step(state, now, predicted);
            let old_metrics = state.metrics;
            let new_metrics = after.metrics;
            &&& step is Claimed ==> {
                let enqueued = after.batch.last().enqueued_at;
                &&& new_metrics.queue_depth + 1 == old_metrics.queue_depth
                &&& new_metrics.claimed == old_metrics.claimed.wrapping_add(1)
                &&& now >= enqueued ==> new_metrics.queue_wait_nanos
                    == old_metrics.queue_wait_nanos.wrapping_add((now - enqueued) as u64)
                &&& now < enqueued ==> new_metrics.queue_wait_nanos == old_metrics.queue_wait_nanos
            }
            &&& !(step is Claimed) ==> new_metrics.claimed == old_metrics.claimed
                && new_metrics.queue_depth == old_metrics.queue_depth
                && new_metrics.queue_wait_nanos == old_metrics.queue_wait_nanos
            &&& step is Released ==> new_metrics.batches_sealed_by_barrier == if state.speculative {
                old_metrics.batches_sealed_by_barrier
            } else {
                old_metrics.batches_sealed_by_barrier.wrapping_add(1)
            }
        }),
{
    if state.queue.len() > 0 {
        first_ticket_leaves(state.queue);
        queued_tickets_count(state.queue);
        queued_tickets_count(state.queue.drop_first());
        if let CommandModel::Intent(staged) = state.queue[0] {
            counted_twice(
                state.metrics.queue_wait_nanos,
                0,
                age_of(staged.enqueued_at, now) as nat,
            );
        }
    }
    counted_twice(state.metrics.claimed, 0, 1);
    counted_twice(state.metrics.batches_sealed_by_barrier, 0, 1);
}

/// A step of a durable controller counts nothing else, but for a wait, once for each batch.
pub proof fn durable_steps_count_nothing_else(state: DurableModel, now: u64, predicted: u64)
    requires
        durable_ok(state),
    ensures
        ({
            let (after, step) = durable_next_step(state, now, predicted);
            let old_metrics = state.metrics;
            let new_metrics = after.metrics;
            new_metrics == (DurableQueuedControllerMetrics {
                queue_depth: new_metrics.queue_depth,
                claimed: new_metrics.claimed,
                queue_wait_nanos: new_metrics.queue_wait_nanos,
                batches_sealed_by_barrier: if step is Released {
                    new_metrics.batches_sealed_by_barrier
                } else {
                    old_metrics.batches_sealed_by_barrier
                },
                total_adaptive_probe_wait_ns: if state.probed || !(state.policy is Adaptive) {
                    old_metrics.total_adaptive_probe_wait_ns
                } else {
                    new_metrics.total_adaptive_probe_wait_ns
                },
                ..old_metrics
            })
        }),
{
}

/// What a stored epoch counts, and one that was not stored: each outcome once, as accepted, as
/// rejected, or as failed to be stored; never an acceptance of what was not stored.
pub proof fn durable_epochs_are_counted(
    state: DurableModel,
    outcomes: Seq<OutcomeModel>,
    failure: Option<Seq<char>>,
    times: DurableQueuedControllerMetrics,
)
    ensures
        ({
            let after = after_epoch(state, outcomes, failure, times);
            let accepted = outcomes.filter(|outcome: OutcomeModel| outcome is Accepted).len();
            let rejected = outcomes.filter(|outcome: OutcomeModel| outcome is Rejected).len();
            let modulus: int = 0x1_0000_0000_0000_0000;
            &&& accepted + rejected == outcomes.len()
            &&& after.metrics.rejected == (state.metrics.rejected + rejected) % modulus
            &&& after.metrics.epochs == (state.metrics.epochs + 1) % modulus
            &&& failure is None ==> after.metrics.accepted == (state.metrics.accepted + accepted)
                % modulus && after.metrics.durability_failed == state.metrics.durability_failed
            &&& failure is Some ==> after.metrics.accepted == state.metrics.accepted
                && after.metrics.durability_failed == (state.metrics.durability_failed + accepted)
                % modulus
            &&& after.metrics.in_flight == 0
            &&& after.batch.len() == 0
            &&& after.gathering is None
            &&& after.queue == state.queue
            &&& after.pending == state.pending
            &&& after.metrics.claimed == state.metrics.claimed
            &&& after.metrics.submitted == state.metrics.submitted
            &&& after.metrics.queue_depth == state.metrics.queue_depth
            &&& after.metrics.state == state.metrics.state
            &&& after.reason == state.reason
        }),
{
    acceptances_are_counted(outcomes);
}

/// What submitters are told: an acceptance only of an intent that was accepted and, where epochs are
/// stored, only if its epoch was; a refusal with its reason, whether the epoch was stored or not.
pub proof fn submitters_are_told_the_truth(outcome: OutcomeModel, failure: Option<Seq<char>>)
    ensures
        match outcome {
            OutcomeModel::Accepted { .. } => {
                &&& told_outcome(outcome) == TicketOutcomeModel::Accepted(outcome)
                &&& failure is None ==> told_durably(outcome, failure)
                    == DurableOutcomeModel::Accepted(outcome)
                &&& failure matches Some(message) ==> told_durably(outcome, failure)
                    == DurableOutcomeModel::DurabilityFailed(message)
            },
            OutcomeModel::Rejected { error, .. } => {
                let reason = match error {
                    RejectionModel::WorldPrecondition { expected, actual } =>
                        TicketRejectionModel::WorldPrecondition { expected, actual },
                    RejectionModel::SlotPrecondition { slot, expected, actual } =>
                        TicketRejectionModel::SlotPrecondition { slot, expected, actual },
                    RejectionModel::UnknownTemporaryEntity(entity) =>
                        TicketRejectionModel::UnknownTemporaryEntity(entity),
                    RejectionModel::Candidate(fault) => TicketRejectionModel::Candidate(
                        candidate_error_text(fault),
                    ),
                    RejectionModel::Validation(message) => TicketRejectionModel::Validation(
                        message,
                    ),
                };
                &&& told_outcome(outcome) == TicketOutcomeModel::Rejected(reason)
                &&& told_durably(outcome, failure) == DurableOutcomeModel::Rejected(reason)
            },
        },
{
}

/// Every ticket of a batch is answered once, in order, with the outcome of its own intent.
pub proof fn every_ticket_is_answered(
    resolutions: Seq<TicketResolution>,
    stored: Seq<DurableResolution>,
    batch: Seq<StagedModel>,
    outcomes: Seq<OutcomeModel>,
    failure: Option<Seq<char>>,
    index: int,
)
    requires
        0 <= index < batch.len(),
    ensures
        resolves(resolutions, batch_tickets(batch), outcomes) ==> {
            &&& resolutions.len() == batch.len()
            &&& outcomes.len() == batch.len()
            &&& resolutions[index].ticket == batch[index].ticket
            &&& resolutions[index].outcome@ == told_outcome(outcomes[index])
        },
        resolves_durably(stored, batch_tickets(batch), outcomes, failure) ==> {
            &&& stored.len() == batch.len()
            &&& outcomes.len() == batch.len()
            &&& stored[index].ticket == batch[index].ticket
            &&& stored[index].outcome@ == told_durably(outcomes[index], failure)
        },
        batch_intents(batch).len() == batch.len(),
        batch_intents(batch)[index] == batch[index].intent,
{
}

/// What is refused with a controller: every intent that waited is counted, for the reason that its
/// ticket is given, and nothing waits any more.
pub proof fn refused_commands_are_counted(state: DurableModel, message: Seq<char>)
    ensures
        ({
            let count = queued_tickets(state.queue).len();
            let modulus: int = 0x1_0000_0000_0000_0000;
            let shut = emptied(state, StopReasonModel::ShutdownBeforeClaim);
            let failed = emptied(state, StopReasonModel::WorkerFailed(message));
            &&& shut.queue.len() == 0 && shut.pending.len() == 0 && shut.metrics.queue_depth == 0
            &&& failed.queue.len() == 0 && failed.pending.len() == 0 && failed.metrics.queue_depth
                == 0
            &&& shut.metrics.shutdown_before_claim == (state.metrics.shutdown_before_claim + count)
                % modulus
            &&& shut.metrics.worker_failed == state.metrics.worker_failed
            &&& failed.metrics.worker_failed == (state.metrics.worker_failed + count) % modulus
            &&& failed.metrics.shutdown_before_claim == state.metrics.shutdown_before_claim
            &&& shut.batch == state.batch && failed.batch == state.batch
            &&& poisoned(state, message).metrics.state == DurableControllerState::Poisoned
            &&& poisoned(state, message).reason == Some(message)
            &&& poisoned(state, message).queue == state.queue
            &&& poisoned(state, message).batch == state.batch
        }),
{
    queued_tickets_count(state.queue);
}

/// What a sealed batch of a durable controller changes before it is processed: its seal is counted, an
/// adaptive controller aims at another width and remembers the largest width and the largest age; the
/// batch and all that waits stay.
pub proof fn durable_seals_keep_the_rest(
    state: DurableModel,
    gathering: Gathering,
    reason: BatchSealReason,
    now: u64,
)
    requires
        durable_ok(state),
        gathering_ok(gathering),
    ensures
        ({
            let after = durably_sealed(state, gathering, reason, now);
            let taken = batch_taken(state, gathering, reason, now);
            let modulus: int = 0x1_0000_0000_0000_0000;
            &&& after.queue == state.queue && after.pending == state.pending && after.batch
                == state.batch && after.gathering == state.gathering
            &&& taken.queue == state.queue && taken.pending == state.pending && taken.batch.len()
                == 0 && taken.gathering is None
            &&& state.batch.len() <= u64::MAX ==> taken.metrics.in_flight == state.batch.len()
            &&& durable_seals_for(after.metrics, reason) == durable_seals_for(
                state.metrics,
                reason,
            ).wrapping_add(1)
            &&& after.metrics.claimed == state.metrics.claimed
            &&& after.metrics.queue_depth == state.metrics.queue_depth
            &&& after.metrics.maximum_oldest_age_at_seal_ns
                >= state.metrics.maximum_oldest_age_at_seal_ns
            &&& state.policy is Adaptive && now >= gathering.oldest
                ==> after.metrics.maximum_oldest_age_at_seal_ns >= now - gathering.oldest
            &&& state.policy is Adaptive ==> after.metrics.maximum_target_width
                >= after.adaptive.target_width && after.metrics.maximum_target_width
                >= state.metrics.maximum_target_width && after.adaptive.epochs_sealed == (
            state.adaptive.epochs_sealed + 1) % modulus
            &&& !(state.policy is Adaptive) ==> after.adaptive == state.adaptive
                && after.metrics.maximum_target_width == state.metrics.maximum_target_width
        }),
{
    counted_twice(durable_seals_for(state.metrics, reason), 0, 1);
}

/// A batch that a controller in memory commits: what it publishes is where the plan of its intents
/// leads, and its log goes on by the frames of the accepted ones.
pub proof fn committed_batches_are_published(
    before: Database<MemoryCommitStore>,
    after: Database<MemoryCommitStore>,
    intents: Seq<IntentModel>,
    plan: PlanModel,
)
    requires
        commits(before, after, intents, plan),
    ensures
        plan.base == before.world(),
        plan.outcomes.len() == intents.len(),
        after.world() == plan.tail,
        after.log() == before.log() + plan.frames,
        plan.frames.len() == plan.outcomes.filter(
            |outcome: OutcomeModel| outcome is Accepted,
        ).len(),
        plan.frames.len() == 0 ==> after.log() == before.log(),
{
    let verdicts = choose|verdicts: Seq<Result<(), Seq<char>>>|
        verdicts.len() == intents.len() && may_settle(
            before.rules(),
            before.world(),
            intents,
            verdicts,
        ) && plan == chained(before.world(), intents, verdicts);
    later_intents_change_nothing_earlier(before.world(), intents, verdicts, 0);
    accepted_intents_have_frames(before.world(), intents, verdicts);
    if plan.frames.len() == 0 {
        assert(before.log() + plan.frames =~= before.log());
    }
}

} // verus!
