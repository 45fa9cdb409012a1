//! What an admission worker keeps: every intent, in the order in which it came.

use crate::admission_core::BatchModel;
use crate::admission_worker::{
    AdmissionCommandModel, EventModel, PhaseModel, WorkerAction, WorkerModel, after_admission,
    after_application, after_event, after_submission, dispatched, epoch_sealed, epochs_of,
    in_flight, in_hand, may_admit, next_batch, taken_in_hand, worker_step,
};
use crate::batching::Gathering;
use crate::staging::StagedModel;
use vstd::prelude::*;

verus! {

/// The tickets of epochs, one after the other.
pub open spec fn epochs_tickets(epochs: Seq<BatchModel>) -> Seq<u64>
    decreases epochs.len(),
{
    if epochs.len() == 0 {
        Seq::empty()
    } else {
        epochs_tickets(epochs.drop_last()) + epochs.last().tickets
    }
}

/// The tickets of a command.
pub open spec fn command_tickets(command: AdmissionCommandModel) -> Seq<u64> {
    match command {
        AdmissionCommandModel::Intent(staged) => seq![staged.ticket],
        AdmissionCommandModel::Epoch(batch) => Seq::new(batch.len(), |i: int| batch[i].ticket),
        AdmissionCommandModel::Barrier(_) => Seq::empty(),
    }
}

/// The tickets of a batch that is being gathered.
pub open spec fn gathered_tickets(phase: PhaseModel) -> Seq<u64> {
    match phase {
        PhaseModel::Gathering(batch, _) => Seq::new(batch.len(), |i: int| batch[i].ticket),
        _ => Seq::empty(),
    }
}

/// The tickets of the command that was put back.
pub open spec fn pending_tickets(pending: Seq<AdmissionCommandModel>) -> Seq<u64> {
    if pending.len() == 0 {
        Seq::empty()
    } else {
        command_tickets(pending[0])
    }
}

/// All tickets of a worker, oldest first.
pub open spec fn tickets_in(state: WorkerModel) -> Seq<u64> {
    epochs_tickets(epochs_of(state)) + gathered_tickets(state.phase) + pending_tickets(
        state.pending,
    )
}

/// One command at most was put back, it is no intent, and it is not passed by a later one.
pub open spec fn orderly(state: WorkerModel) -> bool {
    &&& state.pending.len() <= 1
    &&& state.pending.len() == 1 ==> !(state.pending[0] is Intent) && !(state.phase is Gathering)
}

proof fn tickets_concat(first: Seq<BatchModel>, second: Seq<BatchModel>)
    ensures
        epochs_tickets(first + second) == epochs_tickets(first) + epochs_tickets(second),
    decreases second.len(),
{
    if second.len() == 0 {
        assert(first + second =~= first);
        assert(epochs_tickets(first) + epochs_tickets(second) =~= epochs_tickets(first));
    } else {
        tickets_concat(first, second.drop_last());
        assert((first + second).drop_last() =~= first + second.drop_last());
        assert((first + second).last() == second.last());
        assert(epochs_tickets(first + second) =~= epochs_tickets(first) + epochs_tickets(second));
    }
}

proof fn tickets_of_one(batch: BatchModel)
    ensures
        epochs_tickets(seq![batch]) == batch.tickets,
        epochs_tickets(Seq::<BatchModel>::empty()) == Seq::<u64>::empty(),
{
    let none: Seq<BatchModel> = Seq::empty();
    assert(epochs_tickets(none) =~= Seq::<u64>::empty());
    assert(seq![batch].drop_last() =~= none);
    assert(seq![batch].last() == batch);
    assert(epochs_tickets(seq![batch]) =~= batch.tickets);
}

/// How the tickets of epochs come apart.
proof fn tickets_apart(state: WorkerModel)
    ensures
        epochs_tickets(epochs_of(state)) == epochs_tickets(in_hand(state.phase)) + epochs_tickets(
            state.backlog,
        ) + epochs_tickets(in_flight(state.phase)),
{
    tickets_concat(in_hand(state.phase) + state.backlog, in_flight(state.phase));
    tickets_concat(in_hand(state.phase), state.backlog);
}

proof fn dispatching_keeps_tickets(
    state: WorkerModel,
    command: AdmissionCommandModel,
    durable: Option<BatchModel>,
)
    requires
        state.pending.len() == 0,
        in_flight(state.phase).len() == 0,
        gathered_tickets(state.phase).len() == 0,
        in_hand(state.phase) == match durable {
            Some(durable) => seq![durable],
            None => Seq::empty(),
        },
    ensures
        tickets_in(dispatched(state, command, durable)) == tickets_in(state) + command_tickets(
            command,
        ),
{
    let after = dispatched(state, command, durable);
    tickets_apart(state);
    tickets_apart(after);
    assert(in_flight(state.phase) =~= Seq::empty());
    if let AdmissionCommandModel::Epoch(staged) = command {
        tickets_of_one(next_batch(state, staged));
        assert(in_flight(after.phase) =~= seq![next_batch(state, staged)]);
        assert(next_batch(state, staged).tickets =~= command_tickets(command));
    } else {
        assert(in_flight(after.phase) =~= Seq::empty());
    }
    assert(in_hand(after.phase) =~= in_hand(state.phase));
    assert(tickets_in(after) =~= tickets_in(state) + command_tickets(command));
}

proof fn sealing_keeps_tickets(
    state: WorkerModel,
    batch: Seq<StagedModel>,
    durable: Option<BatchModel>,
)
    requires
        state.phase == PhaseModel::Gathering(batch, durable),
    ensures
        tickets_in(epoch_sealed(state, batch, durable)) == tickets_in(state),
{
    let after = epoch_sealed(state, batch, durable);
    tickets_apart(state);
    tickets_apart(after);
    tickets_of_one(next_batch(state, batch));
    assert(in_flight(state.phase) =~= Seq::empty());
    assert(in_flight(after.phase) =~= seq![next_batch(state, batch)]);
    assert(in_hand(after.phase) =~= in_hand(state.phase));
    assert(next_batch(state, batch).tickets =~= gathered_tickets(state.phase));
    assert(tickets_in(after) =~= tickets_in(state));
}

proof fn taking_in_hand_keeps_tickets(state: WorkerModel)
    requires
        state.phase is Filling,
        state.backlog.len() > 0,
    ensures
        tickets_in(taken_in_hand(state)) == tickets_in(state),
{
    let after = taken_in_hand(state);
    assert(epochs_of(after) =~= epochs_of(state));
    assert(tickets_in(after) =~= tickets_in(state));
}

/// No step of a worker loses, repeats or reorders an intent. It answers a barrier only when nothing
/// of what it had taken up is left, and stops only then.
pub proof fn worker_steps_lose_nothing(state: WorkerModel)
    requires
        orderly(state),
    ensures
        orderly(worker_step(state).0),
        tickets_in(worker_step(state).0) == tickets_in(state),
        worker_step(state).1 matches WorkerAction::Answer(barrier) ==> {
            &&& state.barrier == Some(barrier)
            &&& worker_step(state).0.barrier is None
            &&& epochs_of(state).len() == 0
            &&& gathered_tickets(state.phase).len() == 0
        },
        !(worker_step(state).1 is Answer) && !(worker_step(state).1 is Continue) ==> worker_step(
            state,
        ).0.barrier == state.barrier,
        worker_step(state).1 is Stop && !(state.phase is Stopped) ==> state.disconnected
            && state.barrier is None && state.backlog.len() == 0 || state.window == 0,
        worker_step(state).1 is Receive ==> worker_step(state).0 == state && state.pending.len()
            == 0,
        worker_step(state).1 matches WorkerAction::Receive(wait) ==> (wait ==> epochs_of(
            state,
        ).len() == 0),
        state.phase matches PhaseModel::Gathering(batch, _) && batch.len() >= state.max_batch
            ==> !(worker_step(state).1 is Receive),
{
    let (after, action) = worker_step(state);
    match state.phase {
        PhaseModel::Filling => {
            if may_admit(state) && state.pending.len() > 0 {
                let less = WorkerModel { pending: state.pending.drop_first(), ..state };
                dispatching_keeps_tickets(less, state.pending[0], None);
                assert(epochs_of(less) =~= epochs_of(state));
                assert(tickets_in(after) =~= tickets_in(state));
            } else if !may_admit(state) && state.backlog.len() > 0 {
                taking_in_hand_keeps_tickets(state);
            } else {
                assert(epochs_of(after) =~= epochs_of(state));
                assert(tickets_in(after) =~= tickets_in(state));
            }
        },
        PhaseModel::Seeking(durable) => {
            if may_admit(state) && state.pending.len() > 0 {
                let less = WorkerModel { pending: state.pending.drop_first(), ..state };
                dispatching_keeps_tickets(less, state.pending[0], Some(durable));
                assert(epochs_of(less) =~= epochs_of(state));
                assert(tickets_in(after) =~= tickets_in(state));
            } else {
                assert(epochs_of(after) =~= epochs_of(state));
                assert(tickets_in(after) =~= tickets_in(state));
            }
        },
        PhaseModel::Gathering(batch, durable) => {
            if batch.len() >= state.max_batch {
                sealing_keeps_tickets(state, batch, durable);
            }
        },
        _ => {},
    }
}

/// A command that a worker asked for stands behind everything that it had; without one it has the
/// same as before.
pub proof fn commands_come_last(state: WorkerModel, event: EventModel)
    requires
        orderly(state),
        worker_step(state).1 is Receive,
    ensures
        orderly(after_event(state, event)),
        tickets_in(after_event(state, event)) == match event {
            EventModel::Command(command) => tickets_in(state) + command_tickets(command),
            _ => tickets_in(state),
        },
        event is Disconnected && !(state.phase is Gathering) ==> after_event(
            state,
            event,
        ).disconnected,
        event matches EventModel::Command(AdmissionCommandModel::Barrier(barrier)) ==> after_event(
            state,
            event,
        ).barrier == Some(barrier) || after_event(state, event).pending == seq![
            AdmissionCommandModel::Barrier(barrier),
        ],
{
    let after = after_event(state, event);
    match state.phase {
        PhaseModel::Filling => {
            match event {
                EventModel::Command(command) => {
                    dispatching_keeps_tickets(state, command, None);
                },
                EventModel::Nothing => {
                    if state.backlog.len() > 0 {
                        taking_in_hand_keeps_tickets(state);
                    }
                },
                EventModel::Disconnected => {},
            }
        },
        PhaseModel::Seeking(durable) => {
            if let EventModel::Command(command) = event {
                dispatching_keeps_tickets(state, command, Some(durable));
            } else {
                assert(epochs_of(after) =~= epochs_of(state));
            }
        },
        PhaseModel::Gathering(batch, durable) => {
            match event {
                EventModel::Command(AdmissionCommandModel::Intent(staged)) => {
                    assert(epochs_of(after) =~= epochs_of(state));
                    assert(tickets_in(after) =~= tickets_in(state) + seq![staged.ticket]);
                },
                EventModel::Command(command) => {
                    let more = WorkerModel { pending: state.pending.push(command), ..state };
                    sealing_keeps_tickets(more, batch, durable);
                    assert(more.pending[0] == command);
                    assert(epochs_of(more) =~= epochs_of(state));
                    assert(tickets_in(more) =~= tickets_in(state) + command_tickets(command));
                    assert(more.pending =~= seq![command]);
                },
                _ => {
                    sealing_keeps_tickets(state, batch, durable);
                },
            }
        },
        _ => {},
    }
}

/// Writing an epoch changes nothing of what a worker has, and giving one its meaning takes away the
/// oldest epoch and nothing else.
pub proof fn oldest_epochs_leave(state: WorkerModel)
    ensures
        epochs_of(after_admission(state)) == epochs_of(state),
        epochs_of(after_submission(state)) == epochs_of(state),
        state.phase is Applying ==> epochs_of(after_application(state)) == epochs_of(
            state,
        ).drop_first() && in_hand(state.phase)[0] == epochs_of(state)[0],
        after_admission(state).pending == state.pending,
        after_submission(state).pending == state.pending,
        after_application(state).pending == state.pending,
        after_admission(state).barrier == state.barrier,
        after_application(state).barrier == state.barrier,
        state.phase is Gathering || gathered_tickets(after_admission(state).phase).len() == 0,
{
    assert(epochs_of(after_admission(state)) =~= epochs_of(state));
    assert(epochs_of(after_submission(state)) =~= epochs_of(state));
    if state.phase is Applying {
        assert(epochs_of(after_application(state)) =~= epochs_of(state).drop_first());
    }
}

} // verus!
