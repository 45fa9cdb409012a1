//! The order of work in an admission controller: which command is taken, when an epoch is written,
//! when it gets its meaning, and when a barrier is answered.

use crate::admission_core::{BatchModel, EpochBatch};
use crate::batching::Gathering;
use crate::fact::views;
use crate::staging::{StagedIntent, StagedModel, batch_intents, batch_tickets, split_batch};
use vstd::prelude::*;

verus! {

/// What an admission worker is asked to do.
pub enum AdmissionCommand {
    Intent(StagedIntent),
    /// These intents, and no others, are one epoch.
    Epoch(Vec<StagedIntent>),
    /// Tell when everything before has been done.
    Barrier(u64),
}

pub enum AdmissionCommandModel {
    Intent(StagedModel),
    Epoch(Seq<StagedModel>),
    Barrier(u64),
}

impl View for AdmissionCommand {
    type V = AdmissionCommandModel;

    open spec fn view(&self) -> AdmissionCommandModel {
        match self {
            AdmissionCommand::Intent(staged) => AdmissionCommandModel::Intent(staged@),
            AdmissionCommand::Epoch(batch) => AdmissionCommandModel::Epoch(views(batch@)),
            AdmissionCommand::Barrier(barrier) => AdmissionCommandModel::Barrier(*barrier),
        }
    }
}

/// What came of asking for a command.
pub enum WorkerEvent {
    Command(AdmissionCommand),
    Nothing,
    /// No command will come any more.
    Disconnected,
}

pub enum EventModel {
    Command(AdmissionCommandModel),
    Nothing,
    Disconnected,
}

impl View for WorkerEvent {
    type V = EventModel;

    open spec fn view(&self) -> EventModel {
        match self {
            WorkerEvent::Command(command) => EventModel::Command(command@),
            WorkerEvent::Nothing => EventModel::Nothing,
            WorkerEvent::Disconnected => EventModel::Disconnected,
        }
    }
}

/// What a worker is at.
pub enum WorkerPhase {
    /// Admits epochs while there is room for unapplied ones.
    Filling,
    /// Gathers intents into an epoch; a durable epoch may wait meanwhile.
    Gathering(Vec<StagedIntent>, Option<EpochBatch>),
    /// Writes an epoch and waits for it.
    Admitting(EpochBatch),
    /// Holds a durable epoch, and looks for the epoch after it.
    Seeking(EpochBatch),
    /// Holds a durable epoch, and begins to write the epoch after it.
    Submitting(EpochBatch, EpochBatch),
    /// Gives a durable epoch its meaning, while the epoch after it may be written.
    Applying(EpochBatch, Option<EpochBatch>),
    /// Waits for an epoch that is being written.
    Completing(EpochBatch),
    Stopped,
}

pub enum PhaseModel {
    Filling,
    Gathering(Seq<StagedModel>, Option<BatchModel>),
    Admitting(BatchModel),
    Seeking(BatchModel),
    Submitting(BatchModel, BatchModel),
    Applying(BatchModel, Option<BatchModel>),
    Completing(BatchModel),
    Stopped,
}

pub open spec fn optional_batch(batch: Option<EpochBatch>) -> Option<BatchModel> {
    match batch {
        Some(batch) => Some(batch@),
        None => None,
    }
}

impl View for WorkerPhase {
    type V = PhaseModel;

    open spec fn view(&self) -> PhaseModel {
        match *self {
            WorkerPhase::Filling => PhaseModel::Filling,
            WorkerPhase::Gathering(batch, durable) => PhaseModel::Gathering(
                views(batch@),
                optional_batch(durable),
            ),
            WorkerPhase::Admitting(batch) => PhaseModel::Admitting(batch@),
            WorkerPhase::Seeking(durable) => PhaseModel::Seeking(durable@),
            WorkerPhase::Submitting(durable, next) => PhaseModel::Submitting(durable@, next@),
            WorkerPhase::Applying(durable, next) => PhaseModel::Applying(
                durable@,
                optional_batch(next),
            ),
            WorkerPhase::Completing(next) => PhaseModel::Completing(next@),
            WorkerPhase::Stopped => PhaseModel::Stopped,
        }
    }
}

/// What is to be done for a worker.
#[derive(Clone, Copy, Debug, PartialEq, Eq, Structural)]
pub enum WorkerAction {
    /// Ask the worker again.
    Continue,
    /// Take a command; wait for one, or not.
    Receive(bool),
    /// Write the epoch in hand and wait for it.
    Write,
    /// Begin to write the epoch after the one in hand.
    Submit,
    /// Give the epoch in hand its meaning.
    Materialize,
    /// Wait for the epoch that is being written.
    Complete,
    /// Tell the barrier that everything before it has been done.
    Answer(u64),
    Stop,
}

/// The state of a worker.
pub struct WorkerModel {
    /// How many durable epochs may wait for their meaning.
    pub window: nat,
    pub max_batch: nat,
    /// Commands that were put back.
    pub pending: Seq<AdmissionCommandModel>,
    /// Durable epochs without a meaning, oldest first.
    pub backlog: Seq<BatchModel>,
    pub barrier: Option<u64>,
    pub disconnected: bool,
    pub next_epoch: u64,
    pub phase: PhaseModel,
}

/// An epoch of intents under the next number.
pub open spec fn next_batch(state: WorkerModel, staged: Seq<StagedModel>) -> BatchModel {
    BatchModel {
        id: state.next_epoch,
        tickets: batch_tickets(staged),
        intents: batch_intents(staged),
    }
}

/// An epoch is complete: it is written at once, or while a durable epoch gets its meaning.
pub open spec fn epoch_sealed(
    state: WorkerModel,
    staged: Seq<StagedModel>,
    durable: Option<BatchModel>,
) -> WorkerModel {
    let batch = next_batch(state, staged);
    WorkerModel {
        next_epoch: (state.next_epoch + 1) as u64,
        phase: match durable {
            None => PhaseModel::Admitting(batch),
            Some(durable) => PhaseModel::Submitting(durable, batch),
        },
        ..state
    }
}

/// A command is taken up.
pub open spec fn dispatched(
    state: WorkerModel,
    command: AdmissionCommandModel,
    durable: Option<BatchModel>,
) -> WorkerModel {
    match command {
        AdmissionCommandModel::Barrier(barrier) => WorkerModel {
            barrier: Some(barrier),
            phase: match durable {
                None => PhaseModel::Filling,
                Some(durable) => PhaseModel::Applying(durable, None),
            },
            ..state
        },
        AdmissionCommandModel::Intent(first) => WorkerModel {
            phase: PhaseModel::Gathering(seq![first], durable),
            ..state
        },
        AdmissionCommandModel::Epoch(staged) => epoch_sealed(state, staged, durable),
    }
}

/// Another epoch may be admitted.
pub open spec fn may_admit(state: WorkerModel) -> bool {
    state.backlog.len() < state.window && state.barrier is None && !state.disconnected
}

/// The oldest durable epoch is taken in hand.
pub open spec fn taken_in_hand(state: WorkerModel) -> WorkerModel {
    WorkerModel {
        backlog: state.backlog.drop_first(),
        phase: PhaseModel::Seeking(state.backlog[0]),
        ..state
    }
}

/// What is to be done for a worker, and what it is then.
pub open spec fn worker_step(state: WorkerModel) -> (WorkerModel, WorkerAction) {
    match state.phase {
        PhaseModel::Filling => if may_admit(state) {
            if state.pending.len() > 0 {
                (
                    dispatched(
                        WorkerModel { pending: state.pending.drop_first(), ..state },
                        state.pending[0],
                        None,
                    ),
                    WorkerAction::Continue,
                )
            } else {
                (state, WorkerAction::Receive(state.backlog.len() == 0))
            }
        } else if state.backlog.len() > 0 {
            (taken_in_hand(state), WorkerAction::Continue)
        } else {
            match state.barrier {
                Some(barrier) => (
                    WorkerModel { barrier: None, ..state },
                    WorkerAction::Answer(barrier),
                ),
                None => (WorkerModel { phase: PhaseModel::Stopped, ..state }, WorkerAction::Stop),
            }
        },
        PhaseModel::Seeking(durable) => if may_admit(state) {
            if state.pending.len() > 0 {
                (
                    dispatched(
                        WorkerModel { pending: state.pending.drop_first(), ..state },
                        state.pending[0],
                        Some(durable),
                    ),
                    WorkerAction::Continue,
                )
            } else {
                (state, WorkerAction::Receive(false))
            }
        } else {
            (
                WorkerModel { phase: PhaseModel::Applying(durable, None), ..state },
                WorkerAction::Continue,
            )
        },
        PhaseModel::Gathering(batch, durable) => if batch.len() < state.max_batch {
            (state, WorkerAction::Receive(false))
        } else {
            (epoch_sealed(state, batch, durable), WorkerAction::Continue)
        },
        PhaseModel::Admitting(_) => (state, WorkerAction::Write),
        PhaseModel::Submitting(_, _) => (state, WorkerAction::Submit),
        PhaseModel::Applying(_, _) => (state, WorkerAction::Materialize),
        PhaseModel::Completing(_) => (state, WorkerAction::Complete),
        PhaseModel::Stopped => (state, WorkerAction::Stop),
    }
}

/// A worker after it asked for a command.
pub open spec fn after_event(state: WorkerModel, event: EventModel) -> WorkerModel {
    match state.phase {
        PhaseModel::Filling => match event {
            EventModel::Command(command) => dispatched(state, command, None),
            EventModel::Nothing => if state.backlog.len() > 0 {
                taken_in_hand(state)
            } else {
                state
            },
            EventModel::Disconnected => WorkerModel { disconnected: true, ..state },
        },
        PhaseModel::Seeking(durable) => match event {
            EventModel::Command(command) => dispatched(state, command, Some(durable)),
            EventModel::Nothing => WorkerModel {
                phase: PhaseModel::Applying(durable, None),
                ..state
            },
            EventModel::Disconnected => WorkerModel {
                disconnected: true,
                phase: PhaseModel::Applying(durable, None),
                ..state
            },
        },
        PhaseModel::Gathering(batch, durable) => match event {
            EventModel::Command(AdmissionCommandModel::Intent(staged)) => WorkerModel {
                phase: PhaseModel::Gathering(batch.push(staged), durable),
                ..state
            },
            EventModel::Command(command) => epoch_sealed(
                WorkerModel { pending: state.pending.push(command), ..state },
                batch,
                durable,
            ),
            _ => epoch_sealed(state, batch, durable),
        },
        _ => state,
    }
}

/// A worker after its epoch became durable.
pub open spec fn after_admission(state: WorkerModel) -> WorkerModel {
    match state.phase {
        PhaseModel::Admitting(batch) => WorkerModel {
            backlog: state.backlog.push(batch),
            phase: PhaseModel::Filling,
            ..state
        },
        PhaseModel::Completing(batch) => WorkerModel {
            backlog: state.backlog.push(batch),
            phase: PhaseModel::Filling,
            ..state
        },
        _ => state,
    }
}

/// A worker after the writing of an epoch began.
pub open spec fn after_submission(state: WorkerModel) -> WorkerModel {
    match state.phase {
        PhaseModel::Submitting(durable, next) => WorkerModel {
            phase: PhaseModel::Applying(durable, Some(next)),
            ..state
        },
        _ => state,
    }
}

/// A worker after its durable epoch got its meaning.
pub open spec fn after_application(state: WorkerModel) -> WorkerModel {
    match state.phase {
        PhaseModel::Applying(_, Some(next)) => WorkerModel {
            phase: PhaseModel::Completing(next),
            ..state
        },
        PhaseModel::Applying(_, None) => WorkerModel { phase: PhaseModel::Filling, ..state },
        _ => state,
    }
}

/// The durable epoch in hand.
pub open spec fn in_hand(phase: PhaseModel) -> Seq<BatchModel> {
    match phase {
        PhaseModel::Gathering(_, Some(durable)) => seq![durable],
        PhaseModel::Seeking(durable) => seq![durable],
        PhaseModel::Submitting(durable, _) => seq![durable],
        PhaseModel::Applying(durable, _) => seq![durable],
        _ => Seq::empty(),
    }
}

/// The epoch that is being written.
pub open spec fn in_flight(phase: PhaseModel) -> Seq<BatchModel> {
    match phase {
        PhaseModel::Admitting(batch) => seq![batch],
        PhaseModel::Submitting(_, next) => seq![next],
        PhaseModel::Applying(_, Some(next)) => seq![next],
        PhaseModel::Completing(next) => seq![next],
        _ => Seq::empty(),
    }
}

/// All epochs of a worker, oldest first.
pub open spec fn epochs_of(state: WorkerModel) -> Seq<BatchModel> {
    in_hand(state.phase) + state.backlog + in_flight(state.phase)
}

/// The epochs are numbered without a gap, up to the next number.
pub open spec fn numbered_epochs(epochs: Seq<BatchModel>, next_epoch: u64) -> bool {
    forall|i: int|
        0 <= i < epochs.len() ==> (#[trigger] epochs[i]).id == next_epoch - epochs.len() + i
            && epochs[i].tickets.len() == epochs[i].intents.len()
}

/// No more durable epochs wait than may, and there is room for the one that is being written.
pub open spec fn worker_ok(state: WorkerModel) -> bool {
    &&& state.window > 0
    &&& state.max_batch > 0
    &&& numbered_epochs(epochs_of(state), state.next_epoch)
    &&& in_hand(state.phase).len() + state.backlog.len() <= state.window
    &&& match state.phase {
        PhaseModel::Gathering(_, None) => state.backlog.len() < state.window,
        PhaseModel::Admitting(_) => state.backlog.len() < state.window,
        PhaseModel::Completing(_) => state.backlog.len() < state.window,
        _ => true,
    }
}

/// One more epoch under the next number.
proof fn sealing_keeps_order(
    state: WorkerModel,
    staged: Seq<StagedModel>,
    durable: Option<BatchModel>,
)
    requires
        state.window > 0,
        state.max_batch > 0,
        state.next_epoch < u64::MAX,
        ({
            let hand = match durable {
                Some(durable) => seq![durable],
                None => Seq::empty(),
            };
            &&& numbered_epochs(hand + state.backlog, state.next_epoch)
            &&& hand.len() + state.backlog.len() <= state.window
            &&& durable is None ==> state.backlog.len() < state.window
        }),
    ensures
        worker_ok(epoch_sealed(state, staged, durable)),
{
    let hand = match durable {
        Some(durable) => seq![durable],
        None => Seq::empty(),
    };
    let before = hand + state.backlog;
    let sealed = epoch_sealed(state, staged, durable);
    let after = epochs_of(sealed);
    assert(after =~= before.push(next_batch(state, staged)));
    assert forall|i: int| 0 <= i < after.len() implies (#[trigger] after[i]).id
        == sealed.next_epoch - after.len() + i && after[i].tickets.len()
        == after[i].intents.len() by {
        if i < before.len() {
            assert(after[i] == before[i]);
        }
    }
}

proof fn dispatching_keeps_order(
    state: WorkerModel,
    command: AdmissionCommandModel,
    durable: Option<BatchModel>,
)
    requires
        state.window > 0,
        state.max_batch > 0,
        state.next_epoch < u64::MAX,
        ({
            let hand = match durable {
                Some(durable) => seq![durable],
                None => Seq::empty(),
            };
            &&& numbered_epochs(hand + state.backlog, state.next_epoch)
            &&& hand.len() + state.backlog.len() <= state.window
            &&& state.backlog.len() < state.window
        }),
    ensures
        worker_ok(dispatched(state, command, durable)),
{
    let hand = match durable {
        Some(durable) => seq![durable],
        None => Seq::empty(),
    };
    let after = dispatched(state, command, durable);
    match command {
        AdmissionCommandModel::Epoch(staged) => {
            sealing_keeps_order(state, staged, durable);
        },
        _ => {
            assert(epochs_of(after) =~= hand + state.backlog);
        },
    }
}

/// Whatever a worker does next, it stays in order: epochs are numbered without a gap, and no more
/// of them wait for their meaning than may.
pub proof fn worker_stays_in_order(state: WorkerModel, event: EventModel)
    requires
        worker_ok(state),
        state.next_epoch < u64::MAX,
    ensures
        worker_ok(worker_step(state).0),
        worker_step(state).1 is Receive ==> worker_ok(after_event(state, event)),
        worker_ok(after_admission(state)),
        worker_ok(after_submission(state)),
        worker_ok(after_application(state)),
{
    let all = epochs_of(state);
    match state.phase {
        PhaseModel::Filling => {
            assert(all =~= state.backlog);
            assert(Seq::<BatchModel>::empty() + state.backlog =~= state.backlog);
            if may_admit(state) {
                if state.pending.len() > 0 {
                    dispatching_keeps_order(
                        WorkerModel { pending: state.pending.drop_first(), ..state },
                        state.pending[0],
                        None,
                    );
                }
                if let EventModel::Command(command) = event {
                    dispatching_keeps_order(state, command, None);
                }
            }
            if state.backlog.len() > 0 {
                assert(epochs_of(taken_in_hand(state)) =~= state.backlog);
            }
            assert(epochs_of(WorkerModel { barrier: None, ..state }) =~= state.backlog);
            assert(epochs_of(WorkerModel { disconnected: true, ..state }) =~= state.backlog);
            if state.backlog.len() == 0 {
                assert(epochs_of(WorkerModel { phase: PhaseModel::Stopped, ..state }) =~= all);
            }
        },
        PhaseModel::Seeking(durable) => {
            assert(all =~= seq![durable] + state.backlog);
            if may_admit(state) {
                if state.pending.len() > 0 {
                    dispatching_keeps_order(
                        WorkerModel { pending: state.pending.drop_first(), ..state },
                        state.pending[0],
                        Some(durable),
                    );
                }
                if let EventModel::Command(command) = event {
                    dispatching_keeps_order(state, command, Some(durable));
                }
            }
            let applying = WorkerModel { phase: PhaseModel::Applying(durable, None), ..state };
            assert(epochs_of(applying) =~= all);
            assert(epochs_of(WorkerModel { disconnected: true, ..applying }) =~= all);
        },
        PhaseModel::Gathering(batch, durable) => {
            let hand = match durable {
                Some(durable) => seq![durable],
                None => Seq::empty(),
            };
            assert(all =~= hand + state.backlog);
            sealing_keeps_order(state, batch, durable);
            if let EventModel::Command(command) = event {
                sealing_keeps_order(
                    WorkerModel { pending: state.pending.push(command), ..state },
                    batch,
                    durable,
                );
                if let AdmissionCommandModel::Intent(staged) = command {
                    let more = WorkerModel {
                        phase: PhaseModel::Gathering(batch.push(staged), durable),
                        ..state
                    };
                    assert(epochs_of(more) =~= all);
                }
            }
        },
        PhaseModel::Admitting(batch) => {
            assert(epochs_of(after_admission(state)) =~= all);
        },
        PhaseModel::Submitting(durable, next) => {
            assert(epochs_of(after_submission(state)) =~= all);
        },
        PhaseModel::Applying(durable, next) => {
            let after = epochs_of(after_application(state));
            assert(after =~= all.drop_first());
            assert forall|i: int| 0 <= i < after.len() implies (#[trigger] after[i]).id
                == state.next_epoch - after.len() + i && after[i].tickets.len()
                == after[i].intents.len() by {
                assert(after[i] == all[i + 1]);
            }
        },
        PhaseModel::Completing(next) => {
            assert(epochs_of(after_admission(state)) =~= all);
        },
        PhaseModel::Stopped => {},
    }
}

/// No more durable epochs wait for their meaning than may.
pub proof fn unapplied_epochs_are_bounded(state: WorkerModel)
    requires
        worker_ok(state),
    ensures
        in_hand(state.phase).len() + state.backlog.len() <= state.window,
{
}

/// Epochs get their meaning in the order of their numbers: the one in hand is the oldest.
pub proof fn oldest_epoch_is_applied(state: WorkerModel, index: int)
    requires
        worker_ok(state),
        state.phase is Applying,
        0 <= index < state.backlog.len(),
    ensures
        in_hand(state.phase)[0].id < state.backlog[index].id,
{
    let all = epochs_of(state);
    assert(all[0] == in_hand(state.phase)[0]);
    assert(all[index + 1] == state.backlog[index]);
}

/// A barrier is answered only when every epoch before it has its meaning, and nothing is written.
pub proof fn barriers_wait_for_all(state: WorkerModel)
    requires
        worker_step(state).1 is Answer,
    ensures
        epochs_of(state).len() == 0,
{
}

/// An admission worker.
pub struct AdmissionWorker {
    window: usize,
    max_batch: usize,
    pending: Vec<AdmissionCommand>,
    backlog: Vec<EpochBatch>,
    barrier: Option<u64>,
    disconnected: bool,
    next_epoch: u64,
    phase: WorkerPhase,
}

impl View for AdmissionWorker {
    type V = WorkerModel;

    closed spec fn view(&self) -> WorkerModel {
        WorkerModel {
            window: self.window as nat,
            max_batch: self.max_batch as nat,
            pending: views(self.pending@),
            backlog: views(self.backlog@),
            barrier: self.barrier,
            disconnected: self.disconnected,
            next_epoch: self.next_epoch,
            phase: self.phase@,
        }
    }
}

/// Batches that failed when a worker stopped.
pub struct FailedBatches {
    /// The epoch that did not become durable.
    pub unadmitted: Option<EpochBatch>,
    /// Durable epochs without a meaning, oldest first.
    pub unapplied: Vec<EpochBatch>,
}

impl AdmissionWorker {
    pub open spec fn wf(&self) -> bool {
        worker_ok(self@)
    }

    /// A worker behind a journal of so many epochs.
    pub fn new(max_unapplied_epochs: usize, max_batch: usize, next_epoch: u64) -> (result: Self)
        requires
            max_unapplied_epochs > 0,
            max_batch > 0,
        ensures
            result.wf(),
            result@ == (WorkerModel {
                window: max_unapplied_epochs as nat,
                max_batch: max_batch as nat,
                pending: Seq::empty(),
                backlog: Seq::empty(),
                barrier: None,
                disconnected: false,
                next_epoch,
                phase: PhaseModel::Filling,
            }),
    {
        let result = AdmissionWorker {
            window: max_unapplied_epochs,
            max_batch,
            pending: Vec::new(),
            backlog: Vec::new(),
            barrier: None,
            disconnected: false,
            next_epoch,
            phase: WorkerPhase::Filling,
        };
        proof {
            assert(views(result.pending@) =~= Seq::empty());
            assert(views(result.backlog@) =~= Seq::empty());
        }
        result
    }

    /// The number of the next epoch.
    pub fn next_epoch(&self) -> (result: u64)
        ensures
            result == self@.next_epoch,
    {
        self.next_epoch
    }

    /// The epoch that is to be written, or is being written.
    pub fn writing(&self) -> (result: Option<&EpochBatch>)
        ensures
            match result {
                Some(batch) => in_flight(self@.phase) == seq![batch@],
                None => in_flight(self@.phase).len() == 0,
            },
    {
        match &self.phase {
            WorkerPhase::Admitting(batch) => Some(batch),
            WorkerPhase::Submitting(_, next) => Some(next),
            WorkerPhase::Applying(_, Some(next)) => Some(next),
            WorkerPhase::Completing(next) => Some(next),
            _ => None,
        }
    }

    fn seal(&mut self, batch: Vec<StagedIntent>, durable: Option<EpochBatch>)
        requires
            old(self)@.next_epoch < u64::MAX,
        ensures
            final(self)@ == epoch_sealed(old(self)@, views(batch@), optional_batch(durable)),
    {
        let id: u64 = self.next_epoch;
        let (tickets, intents) = split_batch(batch);
        let next = EpochBatch { id, tickets, intents };
        self.next_epoch = id + 1;
        self.phase = match durable {
            None => WorkerPhase::Admitting(next),
            Some(durable) => WorkerPhase::Submitting(durable, next),
        };
    }

    fn dispatch(&mut self, command: AdmissionCommand, durable: Option<EpochBatch>)
        requires
            old(self)@.next_epoch < u64::MAX,
        ensures
            final(self)@ == dispatched(old(self)@, command@, optional_batch(durable)),
    {
        match command {
            AdmissionCommand::Barrier(barrier) => {
                self.barrier = Some(barrier);
                self.phase = match durable {
                    None => WorkerPhase::Filling,
                    Some(durable) => WorkerPhase::Applying(durable, None),
                };
            },
            AdmissionCommand::Intent(first) => {
                let ghost model = first@;
                let mut batch: Vec<StagedIntent> = Vec::new();
                batch.push(first);
                proof {
                    assert(views(batch@) =~= seq![model]);
                }
                self.phase = WorkerPhase::Gathering(batch, durable);
            },
            AdmissionCommand::Epoch(batch) => {
                self.seal(batch, durable);
            },
        }
    }

    /// Takes the first command that was put back.
    fn shift_pending(&mut self) -> (result: AdmissionCommand)
        requires
            old(self)@.pending.len() > 0,
        ensures
            result@ == old(self)@.pending[0],
            final(self)@ == (WorkerModel {
                pending: old(self)@.pending.drop_first(),
                ..old(self)@
            }),
    {
        let ghost before = self.pending@;
        let command = self.pending.remove(0);
        proof {
            assert(views(self.pending@) =~= views(before).drop_first());
        }
        command
    }

    /// Takes the oldest durable epoch in hand.
    fn take_in_hand(&mut self)
        requires
            old(self)@.backlog.len() > 0,
        ensures
            final(self)@ == taken_in_hand(old(self)@),
    {
        let ghost before = self.backlog@;
        let durable = self.backlog.remove(0);
        proof {
            assert(views(self.backlog@) =~= views(before).drop_first());
        }
        self.phase = WorkerPhase::Seeking(durable);
    }

    /// What is to be done next.
    pub fn step(&mut self) -> (result: WorkerAction)
        requires
            old(self).wf(),
            old(self)@.next_epoch < u64::MAX,
        ensures
            final(self).wf(),
            (final(self)@, result) == worker_step(old(self)@),
    {
        proof {
            worker_stays_in_order(self@, EventModel::Nothing);
            assert(self@.backlog.len() == self.backlog@.len());
            assert(self@.pending.len() == self.pending@.len());
        }
        let open = self.backlog.len() < self.window && self.barrier.is_none()
            && !self.disconnected;
        let ghost state = self@;
        let mut phase = WorkerPhase::Stopped;
        core::mem::swap(&mut self.phase, &mut phase);
        match phase {
            WorkerPhase::Filling => {
                self.phase = WorkerPhase::Filling;
                proof {
                    assert(self@ == state);
                }
                if open {
                    if self.pending.len() > 0 {
                        let command = self.shift_pending();
                        self.dispatch(command, None);
                        WorkerAction::Continue
                    } else {
                        WorkerAction::Receive(self.backlog.len() == 0)
                    }
                } else if self.backlog.len() > 0 {
                    self.take_in_hand();
                    WorkerAction::Continue
                } else {
                    match self.barrier {
                        Some(barrier) => {
                            self.barrier = None;
                            WorkerAction::Answer(barrier)
                        },
                        None => {
                            self.phase = WorkerPhase::Stopped;
                            WorkerAction::Stop
                        },
                    }
                }
            },
            WorkerPhase::Seeking(durable) => if open {
                if self.pending.len() > 0 {
                    let command = self.shift_pending();
                    self.dispatch(command, Some(durable));
                    WorkerAction::Continue
                } else {
                    self.phase = WorkerPhase::Seeking(durable);
                    WorkerAction::Receive(false)
                }
            } else {
                self.phase = WorkerPhase::Applying(durable, None);
                WorkerAction::Continue
            },
            WorkerPhase::Gathering(batch, durable) => {
                proof {
                    assert(batch.len() == views(batch@).len());
                }
                if batch.len() < self.max_batch {
                    self.phase = WorkerPhase::Gathering(batch, durable);
                    WorkerAction::Receive(false)
                } else {
                    self.seal(batch, durable);
                    WorkerAction::Continue
                }
            },
            WorkerPhase::Admitting(batch) => {
                self.phase = WorkerPhase::Admitting(batch);
                WorkerAction::Write
            },
            WorkerPhase::Submitting(durable, next) => {
                self.phase = WorkerPhase::Submitting(durable, next);
                WorkerAction::Submit
            },
            WorkerPhase::Applying(durable, next) => {
                self.phase = WorkerPhase::Applying(durable, next);
                WorkerAction::Materialize
            },
            WorkerPhase::Completing(next) => {
                self.phase = WorkerPhase::Completing(next);
                WorkerAction::Complete
            },
            WorkerPhase::Stopped => WorkerAction::Stop,
        }
    }

    /// What came of asking for a command.
    pub fn received(&mut self, event: WorkerEvent)
        requires
            old(self).wf(),
            old(self)@.next_epoch < u64::MAX,
            worker_step(old(self)@).1 is Receive,
        ensures
            final(self).wf(),
            final(self)@ == after_event(old(self)@, event@),
    {
        proof {
            worker_stays_in_order(self@, event@);
            assert(self@.backlog.len() == self.backlog@.len());
        }
        let ghost state = self@;
        let mut phase = WorkerPhase::Stopped;
        core::mem::swap(&mut self.phase, &mut phase);
        match phase {
            WorkerPhase::Filling => {
                self.phase = WorkerPhase::Filling;
                proof {
                    assert(self@ == state);
                }
                match event {
                    WorkerEvent::Command(command) => {
                        self.dispatch(command, None);
                    },
                    WorkerEvent::Nothing => {
                        if self.backlog.len() > 0 {
                            self.take_in_hand();
                        }
                    },
                    WorkerEvent::Disconnected => {
                        self.disconnected = true;
                    },
                }
            },
            WorkerPhase::Seeking(durable) => match event {
                WorkerEvent::Command(command) => {
                    self.dispatch(command, Some(durable));
                },
                WorkerEvent::Nothing => {
                    self.phase = WorkerPhase::Applying(durable, None);
                },
                WorkerEvent::Disconnected => {
                    self.disconnected = true;
                    self.phase = WorkerPhase::Applying(durable, None);
                },
            },
            WorkerPhase::Gathering(batch, durable) => match event {
                WorkerEvent::Command(AdmissionCommand::Intent(staged)) => {
                    let ghost model = staged@;
                    let ghost before = views(batch@);
                    let mut more = batch;
                    more.push(staged);
                    proof {
                        assert(views(more@) =~= before.push(model));
                    }
                    self.phase = WorkerPhase::Gathering(more, durable);
                },
                WorkerEvent::Command(command) => {
                    let ghost model = command@;
                    let ghost before = views(self.pending@);
                    self.pending.push(command);
                    proof {
                        assert(views(self.pending@) =~= before.push(model));
                    }
                    self.seal(batch, durable);
                },
                _ => {
                    self.seal(batch, durable);
                },
            },
            other => {
                self.phase = other;
            },
        }
    }

    /// The epoch that was written is durable.
    pub fn admitted(&mut self)
        requires
            old(self).wf(),
            old(self)@.next_epoch < u64::MAX,
        ensures
            final(self).wf(),
            final(self)@ == after_admission(old(self)@),
    {
        proof {
            worker_stays_in_order(self@, EventModel::Nothing);
        }
        let mut phase = WorkerPhase::Stopped;
        core::mem::swap(&mut self.phase, &mut phase);
        match phase {
            WorkerPhase::Admitting(batch) => {
                self.keep(batch);
            },
            WorkerPhase::Completing(batch) => {
                self.keep(batch);
            },
            other => {
                self.phase = other;
            },
        }
    }

    fn keep(&mut self, batch: EpochBatch)
        ensures
            final(self)@ == (WorkerModel {
                backlog: old(self)@.backlog.push(batch@),
                phase: PhaseModel::Filling,
                ..old(self)@
            }),
    {
        let ghost before = views(self.backlog@);
        let ghost model = batch@;
        self.backlog.push(batch);
        self.phase = WorkerPhase::Filling;
        proof {
            assert(views(self.backlog@) =~= before.push(model));
        }
    }

    /// The writing of the epoch after the one in hand has begun.
    pub fn submitted(&mut self)
        requires
            old(self).wf(),
            old(self)@.next_epoch < u64::MAX,
        ensures
            final(self).wf(),
            final(self)@ == after_submission(old(self)@),
    {
        proof {
            worker_stays_in_order(self@, EventModel::Nothing);
        }
        let mut phase = WorkerPhase::Stopped;
        core::mem::swap(&mut self.phase, &mut phase);
        self.phase = match phase {
            WorkerPhase::Submitting(durable, next) => WorkerPhase::Applying(durable, Some(next)),
            other => other,
        };
    }

    /// The durable epoch in hand, which is to get its meaning.
    pub fn take_applying(&mut self) -> (result: Option<EpochBatch>)
        requires
            old(self).wf(),
            old(self)@.next_epoch < u64::MAX,
        ensures
            final(self).wf(),
            final(self)@ == after_application(old(self)@),
            match result {
                Some(batch) => old(self)@.phase is Applying && in_hand(old(self)@.phase)
                    == seq![batch@] && batch.tickets.len() == batch.intents.len(),
                None => !(old(self)@.phase is Applying),
            },
    {
        proof {
            worker_stays_in_order(self@, EventModel::Nothing);
            if self@.phase is Applying {
                assert(epochs_of(self@)[0] == in_hand(self@.phase)[0]);
            }
        }
        let mut phase = WorkerPhase::Stopped;
        core::mem::swap(&mut self.phase, &mut phase);
        match phase {
            WorkerPhase::Applying(durable, Some(next)) => {
                self.phase = WorkerPhase::Completing(next);
                Some(durable)
            },
            WorkerPhase::Applying(durable, None) => {
                self.phase = WorkerPhase::Filling;
                Some(durable)
            },
            other => {
                self.phase = other;
                None
            },
        }
    }

    /// Gives everything up: the epoch that is not durable, and all durable epochs without a
    /// meaning.
    pub fn abort(&mut self) -> (result: FailedBatches)
        ensures
            final(self)@ == (WorkerModel {
                backlog: Seq::empty(),
                phase: PhaseModel::Stopped,
                ..old(self)@
            }),
            views(result.unapplied@) == in_hand(old(self)@.phase) + old(self)@.backlog,
            match result.unadmitted {
                Some(batch) => in_flight(old(self)@.phase) == seq![batch@],
                None => in_flight(old(self)@.phase).len() == 0,
            },
    {
        let ghost state = self@;
        let mut unapplied: Vec<EpochBatch> = Vec::new();
        core::mem::swap(&mut self.backlog, &mut unapplied);
        let mut phase = WorkerPhase::Stopped;
        core::mem::swap(&mut self.phase, &mut phase);
        let (durable, unadmitted) = match phase {
            WorkerPhase::Gathering(_, durable) => (durable, None),
            WorkerPhase::Admitting(batch) => (None, Some(batch)),
            WorkerPhase::Seeking(durable) => (Some(durable), None),
            WorkerPhase::Submitting(durable, next) => (Some(durable), Some(next)),
            WorkerPhase::Applying(durable, next) => (Some(durable), next),
            WorkerPhase::Completing(next) => (None, Some(next)),
            WorkerPhase::Filling => (None, None),
            WorkerPhase::Stopped => (None, None),
        };
        let ghost waiting = views(unapplied@);
        if let Some(first) = durable {
            let ghost model = first@;
            unapplied.insert(0, first);
            proof {
                assert(views(unapplied@) =~= seq![model] + waiting);
            }
        } else {
            proof {
                assert(views(unapplied@) =~= Seq::<BatchModel>::empty() + waiting);
            }
        }
        proof {
            assert(views(self.backlog@) =~= Seq::empty());
        }
        FailedBatches { unadmitted, unapplied }
    }
}

} // verus!
