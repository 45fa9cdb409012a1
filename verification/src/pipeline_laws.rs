//! What the pipeline claims ahead, and what it counts.

use crate::batching::max_batch_of;
use crate::controller_laws::{acceptances_are_counted, first_ticket_leaves};
use crate::controller_metrics::DurableQueuedControllerMetrics;
use crate::database::Database;
use crate::durable_controller::{
    DurableModel, after_claim, after_settling, claimable, database_settles, durable_ok,
    failure_words, front_tickets, leading_facts, queued_barriers, queued_tickets,
};
use crate::epoch_io::EpochFileIo;
use crate::epoch_store::{FileEpochStore, FileEpochStoreError};
use crate::plan_model::{OutcomeModel, PlanModel};
use crate::staging::{CommandModel, waiting_intents, waiting_remove_first};
use crate::tickets::DurableControllerState;
use vstd::prelude::*;

verus! {

proof fn front_leaves(queue: Seq<CommandModel>, count: nat)
    requires
        count <= queue.len(),
        forall|i: int| 0 <= i < count ==> (#[trigger] queue[i]) is Intent,
    ensures
        queued_tickets(queue) == front_tickets(queue, count) + queued_tickets(
            queue.skip(count as int),
        ),
        queued_barriers(queue) == queued_barriers(queue.skip(count as int)),
        waiting_intents(queue) == count + waiting_intents(queue.skip(count as int)),
    decreases count,
{
    if count == 0 {
        assert(queue.skip(0) =~= queue);
        assert(front_tickets(queue, 0) =~= Seq::empty());
        assert(front_tickets(queue, 0) + queued_tickets(queue) =~= queued_tickets(queue));
    } else {
        let less = (count - 1) as nat;
        front_leaves(queue, less);
        let rest = queue.skip(less as int);
        first_ticket_leaves(rest);
        waiting_remove_first(rest);
        assert(rest.drop_first() =~= queue.skip(count as int));
        assert(rest[0] == queue[count - 1]);
        assert(front_tickets(queue, count) =~= front_tickets(queue, less).push(
            queue[count - 1]->Intent_0.ticket,
        ));
        assert(front_tickets(queue, less) + (seq![queue[count - 1]->Intent_0.ticket]
            + queued_tickets(queue.skip(count as int))) =~= front_tickets(queue, count)
            + queued_tickets(queue.skip(count as int)));
    }
}

/// What a running controller claims ahead: the intents at the front of its queue, up to a barrier and
/// up to the largest batch, each once and in order; a barrier that ends the claiming is set aside
/// behind those that were. Nothing is lost, and each claim is counted. A controller that does not run
/// claims nothing.
pub proof fn claims_take_the_front(state: DurableModel, now: u64)
    requires
        durable_ok(state),
    ensures
        ({
            let count = claimable(state);
            let after = after_claim(state, now);
            let most = max_batch_of(state.policy);
            let modulus: int = 0x1_0000_0000_0000_0000;
            &&& count <= state.queue.len()
            &&& count <= most
            &&& forall|i: int| 0 <= i < count ==> (#[trigger] state.queue[i]) is Intent
            &&& state.metrics.state == DurableControllerState::Running ==> count == most || count
                == state.queue.len() || state.queue[count as int] is Barrier
            &&& front_tickets(state.queue, count) + queued_tickets(after.queue) == queued_tickets(
                state.queue,
            )
            &&& after.pending + queued_barriers(after.queue) == state.pending + queued_barriers(
                state.queue,
            )
            &&& after.metrics.queue_depth + count == state.metrics.queue_depth
            &&& after.metrics.claimed == (state.metrics.claimed + count) % modulus
            &&& state.metrics.state != DurableControllerState::Running ==> count == 0 && after
                == state
            &&& after.batch == state.batch
            &&& after.gathering == state.gathering
        }),
{
    let count = claimable(state);
    let after = after_claim(state, now);
    let most = max_batch_of(state.policy) as nat;
    leading_facts(state.queue, most);
    front_leaves(state.queue, count);
    if state.metrics.state == DurableControllerState::Running {
        let rest = state.queue.skip(count as int);
        if count < most && count < state.queue.len() {
            assert(rest[0] == state.queue[count as int]);
            first_ticket_leaves(rest);
            assert(rest.drop_first() =~= state.queue.skip(count as int + 1));
            assert(after.queue =~= rest.drop_first());
            assert(after.pending + queued_barriers(after.queue) =~= state.pending
                + queued_barriers(state.queue));
        } else {
            assert(after.queue =~= rest);
            assert(after.pending =~= state.pending);
        }
    } else {
        assert(state.queue.skip(0) =~= state.queue);
    }
}

/// What the settling of an epoch counts: each outcome once, as accepted, as rejected, or as failed to
/// be stored; one epoch; an epoch that was planned ahead, and one that had to be planned again.
pub proof fn settled_epochs_are_counted(
    state: DurableModel,
    outcomes: Seq<OutcomeModel>,
    failure: Option<Seq<char>>,
    speculated: bool,
    rederived: bool,
    in_flight: u64,
    times: DurableQueuedControllerMetrics,
)
    ensures
        ({
            let after = after_settling(
                state,
                outcomes,
                failure,
                speculated,
                rederived,
                in_flight,
                times,
            );
            let accepted = outcomes.filter(|outcome: OutcomeModel| outcome is Accepted).len();
            let rejected = outcomes.filter(|outcome: OutcomeModel| outcome is Rejected).len();
            let modulus: int = 0x1_0000_0000_0000_0000;
            &&& accepted + rejected == outcomes.len()
            &&& after.metrics.rejected == (state.metrics.rejected + rejected) % modulus
            &&& after.metrics.epochs == (state.metrics.epochs + 1) % modulus
            &&& failure is None ==> after.metrics.accepted == (state.metrics.accepted + accepted)
                % modulus && after.metrics.durability_failed == state.metrics.durability_failed
            &&& failure is Some ==> after.metrics.accepted == state.metrics.accepted
                && after.metrics.durability_failed == (state.metrics.durability_failed + accepted)
                % modulus
            &&& after.metrics.in_flight == in_flight
            &&& after.metrics.speculative_epochs_prepared == (
            state.metrics.speculative_epochs_prepared + if speculated {
                1int
            } else {
                0
            }) % modulus
            &&& after.metrics.speculative_epochs_rederived == (
            state.metrics.speculative_epochs_rederived + if rederived {
                1int
            } else {
                0
            }) % modulus
            &&& after.queue == state.queue
            &&& after.pending == state.pending
            &&& after.batch == state.batch
            &&& after.metrics.claimed == state.metrics.claimed
            &&& after.metrics.queue_depth == state.metrics.queue_depth
        }),
{
    acceptances_are_counted(outcomes);
}

/// Publishing follows storing: where nothing went wrong the world is the plan's and the log has its
/// frames, in order; where something did, both are as they were, and there was something to store.
pub proof fn worlds_are_published_with_their_frames<I: EpochFileIo>(
    before: Database<FileEpochStore<I>>,
    after: Database<FileEpochStore<I>>,
    plan: PlanModel,
    failure: Option<FileEpochStoreError>,
)
    requires
        database_settles(before, after, plan, failure),
    ensures
        failure is None ==> after.world() == plan.tail && after.log() == before.log()
            + plan.frames,
        failure is Some ==> after.world() == before.world() && after.log() == before.log()
            && plan.frames.len() > 0,
        plan.frames.len() == 0 ==> after == before,
        failure_words(failure) is Some <==> failure is Some,
{
}

} // verus!
