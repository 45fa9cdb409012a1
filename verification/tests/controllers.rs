use forthdb_world::{
    AdaptiveState, Atom, BatchPolicy, BatchSealReason, CandidateWorld, Clock, CommitStore,
    ControllerConfigError, ControllerStep, Database, DurableControllerConfigError,
    DurableControllerState, DurableQueuedIntentController, DurableResolution, DurableStep,
    DurableSubmitError, DurableTicketLifecycle, DurableTicketOutcome, DurableTicketPhase,
    DurableTicketRejection, DurableTicketStopReason, EntityId, EpochFileIo, EpochIoPhase,
    EpochPersistMetrics, Fact, FileCommitStore, FileEpochState, FileEpochStore,
    FileEpochSyncPolicy, GatherAction, Gathering, IoFault, Literal, MemoryCommitStore, Predicate,
    QueuedIntent, QueuedIntentController, Rule, SlotId, SubmitError, TicketLifecycle,
    TicketOutcome, TicketPhase, TicketRejection, TicketResolution, TicketWaitError, Validator,
    World, WorldId,
};
use std::sync::{Arc, Mutex};

/// A file whose bytes outlive the stores that use it.
#[derive(Clone, Debug)]
struct SharedFile(Arc<Mutex<Vec<u8>>>);

impl SharedFile {
    fn new(bytes: &[u8]) -> Self {
        SharedFile(Arc::new(Mutex::new(bytes.to_vec())))
    }

    fn bytes(&self) -> Vec<u8> {
        self.0.lock().unwrap().clone()
    }
}

impl EpochFileIo for SharedFile {
    fn submit_epoch(
        &mut self,
        _start_offset: u64,
        _records: &[Vec<u8>],
    ) -> Option<Result<(), (EpochIoPhase, IoFault)>> {
        None
    }

    fn complete_epoch(&mut self) -> (EpochPersistMetrics, Result<(), (EpochIoPhase, IoFault)>) {
        unreachable!("nothing is written in the background")
    }

    fn persist_epoch(
        &mut self,
        _start_offset: u64,
        _records: &[Vec<u8>],
    ) -> Option<(EpochPersistMetrics, Result<(), (EpochIoPhase, IoFault)>)> {
        None
    }

    fn len(&mut self, _phase: EpochIoPhase) -> Result<u64, IoFault> {
        Ok(self.0.lock().unwrap().len() as u64)
    }

    fn write_at(
        &mut self,
        _phase: EpochIoPhase,
        offset: u64,
        bytes: &[u8],
    ) -> Result<usize, IoFault> {
        let mut held = self.0.lock().unwrap();
        let end = offset as usize + bytes.len();
        if held.len() < end {
            held.resize(end, 0);
        }
        held[offset as usize..end].copy_from_slice(bytes);
        Ok(bytes.len())
    }

    fn sync_data(&mut self, _phase: EpochIoPhase) -> Result<(), IoFault> {
        Ok(())
    }

    fn set_len(&mut self, _phase: EpochIoPhase, len: u64) -> Result<(), IoFault> {
        self.0.lock().unwrap().resize(len as usize, 0);
        Ok(())
    }

    fn read_all(&mut self, _phase: EpochIoPhase) -> Result<Vec<u8>, IoFault> {
        Ok(self.bytes())
    }
}

/// A clock that ticks at every look.
struct Ticks(u64);

impl Clock for Ticks {
    fn now(&mut self) -> u64 {
        self.0 += 1;
        self.0
    }
}

/// Notes what it breaks down with.
struct BrokenValidator(Arc<Mutex<Option<String>>>);

impl Validator for BrokenValidator {
    fn validate(&self, _candidate: &CandidateWorld) -> Result<(), String> {
        *self.0.lock().unwrap() = Some("injected validator panic".to_owned());
        Err("broken".to_owned())
    }
}

struct RefuseSlot(SlotId);

impl Validator for RefuseSlot {
    fn validate(&self, candidate: &CandidateWorld) -> Result<(), String> {
        if candidate.resolve(&self.0).is_some() {
            Err("slot is reserved".to_owned())
        } else {
            Ok(())
        }
    }
}

fn state_fact(entity: EntityId, value: &str) -> Fact {
    Fact::new(
        Atom::Entity(entity),
        Predicate::new("state"),
        Atom::Literal(Literal::new(value)),
    )
}

fn accepted_world(outcome: &TicketOutcome) -> Arc<World> {
    match outcome {
        TicketOutcome::Accepted(accepted) => accepted.world(),
        TicketOutcome::Rejected(_) => panic!("expected acceptance"),
    }
}

/// Runs a controller until there is nothing to do.
fn run(controller: &mut QueuedIntentController) -> (Vec<TicketResolution>, Vec<u64>) {
    let mut resolutions = Vec::new();
    let mut released = Vec::new();
    let mut now = 1_000;
    loop {
        assert!(controller.can_advance());
        match controller.advance(now, 10) {
            ControllerStep::Idle | ControllerStep::Stopped => return (resolutions, released),
            ControllerStep::Claimed(_) | ControllerStep::Deferred => {}
            ControllerStep::Waiting(wait) => {
                now += wait;
                controller.waited(10);
            }
            ControllerStep::Released(barrier) => released.push(barrier),
            ControllerStep::Resolved(batch) => resolutions.extend(batch),
        }
    }
}

fn outcome_of(resolutions: &[TicketResolution], ticket: u64) -> &TicketOutcome {
    &resolutions
        .iter()
        .find(|resolution| resolution.ticket == ticket)
        .expect("ticket resolves")
        .outcome
}

#[test]
fn saturation_returns_the_original_intent_immediately() {
    let database = Database::new(MemoryCommitStore::new()).expect("empty memory store is valid");
    let mut controller =
        QueuedIntentController::new(database, 1, BatchPolicy::ImmediateDrain { max_batch: 1 })
            .expect("controller starts");
    let mut lifecycle = TicketLifecycle::new();
    let first = controller
        .submit(QueuedIntent::new(1), 0)
        .expect("first intent enters worker");
    assert_eq!(lifecycle.snapshot().phase, TicketPhase::Queued);
    match controller.advance(0, 10) {
        ControllerStep::Claimed(ticket) => {
            assert_eq!(ticket, first);
            lifecycle.claim();
        }
        _ => panic!("worker claims the first intent"),
    }
    assert_eq!(lifecycle.snapshot().phase, TicketPhase::Claimed);

    let second = controller
        .submit(QueuedIntent::new(2), 1)
        .expect("second intent fills bounded queue");
    let error = controller
        .submit(QueuedIntent::new(3), 2)
        .expect_err("third intent must receive immediate backpressure");
    match error {
        SubmitError::Full(intent) => assert_eq!(intent.namespace(), 3),
        SubmitError::Closed(_) => panic!("controller is open"),
    }

    let (resolutions, _) = run(&mut controller);
    accepted_world(outcome_of(&resolutions, first));
    accepted_world(outcome_of(&resolutions, second));

    let metrics = controller.metrics();
    assert_eq!(metrics.submitted, 2);
    assert_eq!(metrics.backpressured, 1);
    assert_eq!(metrics.claimed, 2);
    assert_eq!(metrics.accepted, 2);
    assert_eq!(metrics.queue_depth, 0);
    assert!(metrics.maximum_queue_depth <= metrics.capacity as u64);
}

#[test]
fn dropping_a_claimed_ticket_does_not_cancel_history() {
    let database = Database::new(MemoryCommitStore::new()).expect("empty memory store is valid");
    let mut controller =
        QueuedIntentController::new(database, 4, BatchPolicy::ImmediateDrain { max_batch: 4 })
            .expect("controller starts");
    let mut intent = QueuedIntent::new(1);
    intent.define_fact(
        SlotId::new("abandoned/state"),
        state_fact(EntityId::new(99), "committed"),
    );
    let mut lifecycle = TicketLifecycle::new();
    controller.submit(intent, 0).expect("intent submitted");
    assert!(matches!(controller.advance(0, 10), ControllerStep::Claimed(_)));
    lifecycle.claim();
    assert_eq!(lifecycle.snapshot().phase, TicketPhase::Claimed);
    if lifecycle.abandon() {
        controller.ticket_abandoned();
    }
    let (resolutions, _) = run(&mut controller);
    assert_eq!(resolutions.len(), 1);

    let world = controller.database().snapshot();
    assert_eq!(world.version(), 1);
    assert_eq!(
        world
            .resolve(&SlotId::new("abandoned/state"))
            .map(|fact| fact.object.clone()),
        Some(Atom::Literal(Literal::new("committed")))
    );
    assert_eq!(controller.metrics().abandoned_tickets, 1);
    assert!(!lifecycle.abandon());
}

#[test]
fn rejection_routes_only_to_its_own_ticket() {
    let database = Database::new(MemoryCommitStore::new()).expect("empty memory store is valid");
    let mut controller =
        QueuedIntentController::new(database, 8, BatchPolicy::ImmediateDrain { max_batch: 8 })
            .expect("controller starts");
    let slot = SlotId::new("pipeline/state");

    let mut first = QueuedIntent::new(1);
    first.define_fact(slot.clone(), state_fact(EntityId::new(1), "one"));
    let first = controller.submit(first, 0).expect("first submitted");
    let (resolutions, _) = run(&mut controller);
    let first_world = accepted_world(outcome_of(&resolutions, first));
    assert_eq!(first_world.version(), 1);

    let mut rejected = QueuedIntent::new(2);
    rejected.expect_absent(slot.clone());
    rejected.define_fact(
        SlotId::new("pipeline/rejected"),
        state_fact(EntityId::new(2), "never"),
    );
    let rejected = controller
        .submit(rejected, 1)
        .expect("rejected intent submitted");

    let mut third = QueuedIntent::new(3);
    third.define_fact(
        SlotId::new("pipeline/third"),
        state_fact(EntityId::new(3), "three"),
    );
    let third = controller.submit(third, 2).expect("third submitted");

    let (resolutions, _) = run(&mut controller);
    assert!(matches!(
        outcome_of(&resolutions, rejected),
        TicketOutcome::Rejected(TicketRejection::SlotPrecondition { .. })
    ));
    let third_world = accepted_world(outcome_of(&resolutions, third));

    assert_eq!(third_world.version(), 2);
    let head = controller.database().snapshot();
    assert!(head.resolve(&SlotId::new("pipeline/rejected")).is_none());
    assert!(head.resolve(&SlotId::new("pipeline/third")).is_some());
    let metrics = controller.metrics();
    assert_eq!(metrics.accepted, 2);
    assert_eq!(metrics.rejected, 1);
}

#[test]
fn ticket_resolution_never_precedes_tail_publication() {
    let database = Database::new(MemoryCommitStore::new()).expect("empty memory store is valid");
    let mut controller =
        QueuedIntentController::new(database, 4, BatchPolicy::ImmediateDrain { max_batch: 4 })
            .expect("controller starts");
    let slot = SlotId::new("published/state");
    let mut intent = QueuedIntent::new(1);
    intent.define_fact(slot.clone(), state_fact(EntityId::new(7), "visible"));
    let ticket = controller.submit(intent, 0).expect("intent submitted");
    loop {
        if let ControllerStep::Resolved(resolutions) = controller.advance(0, 10) {
            let world = accepted_world(outcome_of(&resolutions, ticket));
            assert_eq!(controller.database().snapshot().id(), world.id());
            assert!(controller.database().snapshot().resolve(&slot).is_some());
            break;
        }
    }
}

#[test]
fn fast_claims_never_underflow_ingress_accounting() {
    let database = Database::new(MemoryCommitStore::new()).expect("empty memory store is valid");
    let mut controller =
        QueuedIntentController::new(database, 4, BatchPolicy::ImmediateDrain { max_batch: 4 })
            .expect("controller starts");

    for index in 0..1_000 {
        let ticket = controller
            .submit(QueuedIntent::new(index), index)
            .expect("there is room");
        let (resolutions, _) = run(&mut controller);
        accepted_world(outcome_of(&resolutions, ticket));
    }
    let barrier = controller.flush().expect("controller drains");
    assert_eq!(run(&mut controller).1, vec![barrier]);
    let metrics = controller.metrics();
    assert_eq!(metrics.queue_depth, 0);
    assert!(metrics.maximum_queue_depth <= metrics.capacity as u64);
    assert_eq!(metrics.submitted, 1_000);
    assert_eq!(metrics.claimed, 1_000);
}

#[test]
fn controllers_need_room_for_an_intent() {
    for (capacity, max_batch) in [(0, 1), (1, 0)] {
        let database = Database::new(MemoryCommitStore::new()).expect("genesis valid");
        let error = QueuedIntentController::new(
            database,
            capacity,
            BatchPolicy::ImmediateDrain { max_batch },
        )
        .err()
        .expect("nothing can be queued");
        if capacity == 0 {
            assert!(matches!(error, ControllerConfigError::ZeroCapacity));
        } else {
            assert!(matches!(error, ControllerConfigError::ZeroBatchSize));
        }
        assert!(!error.describe().is_empty());
    }
}

#[test]
fn closed_controllers_finish_and_take_nothing() {
    let database = Database::new(MemoryCommitStore::new()).expect("genesis valid");
    let mut controller =
        QueuedIntentController::new(database, 4, BatchPolicy::ImmediateDrain { max_batch: 4 })
            .expect("controller starts");
    let ticket = controller.submit(QueuedIntent::new(1), 0).expect("intent submitted");
    controller.close();
    assert!(matches!(
        controller.submit(QueuedIntent::new(2), 0),
        Err(SubmitError::Closed(_))
    ));
    assert!(controller.flush().is_err());
    let (resolutions, _) = run(&mut controller);
    accepted_world(outcome_of(&resolutions, ticket));
    assert!(matches!(controller.advance(9, 10), ControllerStep::Stopped));
    assert!(controller.metrics().worker_alive);
    controller.worker_exited();
    controller.delivery_failed();
    assert!(!controller.metrics().worker_alive);
    assert_eq!(controller.metrics().completion_delivery_failures, 1);
}

#[test]
fn barriers_are_released_after_what_came_before() {
    let database = Database::new(MemoryCommitStore::new()).expect("genesis valid");
    let mut controller =
        QueuedIntentController::new(database, 8, BatchPolicy::ImmediateDrain { max_batch: 8 })
            .expect("controller starts");
    let before = controller.submit(QueuedIntent::new(1), 0).expect("submitted");
    let barrier = controller.flush().expect("barrier enters");
    let after = controller.submit(QueuedIntent::new(2), 0).expect("submitted");
    let mut seen = Vec::new();
    loop {
        match controller.advance(0, 10) {
            ControllerStep::Idle => break,
            ControllerStep::Released(released) => seen.push(format!("barrier {released}")),
            ControllerStep::Resolved(batch) => {
                for resolution in batch {
                    seen.push(format!("ticket {}", resolution.ticket));
                }
            }
            _ => {}
        }
    }
    assert_eq!(
        seen,
        vec![
            format!("ticket {before}"),
            format!("barrier {barrier}"),
            format!("ticket {after}"),
        ]
    );
}

#[test]
fn full_batches_double_the_target_and_thin_ones_shrink_it() {
    let policy = BatchPolicy::Adaptive { min_batch: 2, max_batch: 10, latency_budget: 1_000 };
    assert_eq!(policy.min_batch(), 2);
    assert_eq!(policy.max_batch(), 10);
    let mut state = AdaptiveState::new(policy);
    let start = state.target_width;
    assert!((2..=10).contains(&start));
    for _ in 0..8 {
        state.update_target(BatchSealReason::Width, state.target_width, 2, 10);
    }
    assert_eq!(state.target_width, 10);
    for _ in 0..8 {
        state.update_target(BatchSealReason::LowTraffic, 1, 2, 10);
    }
    assert_eq!(state.target_width, 2);
    assert_eq!(state.epochs_sealed, 16);
}

#[test]
fn coalescing_batches_wait_until_their_deadline() {
    let policy = BatchPolicy::Coalesce { max_batch: 2, max_delay: 50 };
    let mut gathering = Gathering::begin(policy, 1, 100, 100);
    assert!(matches!(gathering.decide(120, true, 0), GatherAction::Wait(30)));
    assert!(matches!(
        gathering.decide(150, true, 0),
        GatherAction::Seal(BatchSealReason::Timeout)
    ));
    gathering.take_intent(90);
    assert!(matches!(
        gathering.decide(120, true, 0),
        GatherAction::Seal(BatchSealReason::Capacity)
    ));
    assert_eq!(gathering.age(120), 30);
}

#[test]
fn tickets_go_through_their_phases() {
    let mut lifecycle = DurableTicketLifecycle::new();
    assert_eq!(lifecycle.snapshot().phase, DurableTicketPhase::Queued);
    lifecycle.claim();
    assert_eq!(lifecycle.snapshot().phase, DurableTicketPhase::Claimed);
    assert!(lifecycle.abandon());
    assert!(!lifecycle.abandon());
    lifecycle.resolve();
    assert_eq!(lifecycle.snapshot().phase, DurableTicketPhase::Resolved);
    assert!(lifecycle.snapshot().abandoned);
    assert!(!TicketWaitError::WorkerStopped.describe().is_empty());
}

struct FailFirstEpochSyncIo {
    inner: SharedFile,
    fail: bool,
}

/// A file whose length cannot be asked for at the start of an epoch.
struct FailEpochStartIo(FailFirstEpochSyncIo);

impl EpochFileIo for FailEpochStartIo {
    fn submit_epoch(
        &mut self,
        _start_offset: u64,
        _records: &[Vec<u8>],
    ) -> Option<Result<(), (EpochIoPhase, IoFault)>> {
        None
    }

    fn complete_epoch(&mut self) -> (EpochPersistMetrics, Result<(), (EpochIoPhase, IoFault)>) {
        unreachable!("nothing is written in the background")
    }

    fn persist_epoch(
        &mut self,
        start_offset: u64,
        records: &[Vec<u8>],
    ) -> Option<(EpochPersistMetrics, Result<(), (EpochIoPhase, IoFault)>)> {
        self.0.persist_epoch(start_offset, records)
    }

    fn len(&mut self, phase: EpochIoPhase) -> Result<u64, IoFault> {
        if phase == EpochIoPhase::EpochStart {
            return Err(IoFault { code: Some(5), message: "no length".to_owned() });
        }
        self.0.len(phase)
    }

    fn write_at(
        &mut self,
        phase: EpochIoPhase,
        offset: u64,
        bytes: &[u8],
    ) -> Result<usize, IoFault> {
        self.0.write_at(phase, offset, bytes)
    }

    fn sync_data(&mut self, phase: EpochIoPhase) -> Result<(), IoFault> {
        self.0.sync_data(phase)
    }

    fn set_len(&mut self, phase: EpochIoPhase, len: u64) -> Result<(), IoFault> {
        self.0.set_len(phase, len)
    }

    fn read_all(&mut self, phase: EpochIoPhase) -> Result<Vec<u8>, IoFault> {
        self.0.read_all(phase)
    }
}

impl EpochFileIo for FailFirstEpochSyncIo {
    fn submit_epoch(
        &mut self,
        _start_offset: u64,
        _records: &[Vec<u8>],
    ) -> Option<Result<(), (EpochIoPhase, IoFault)>> {
        None
    }

    fn complete_epoch(&mut self) -> (EpochPersistMetrics, Result<(), (EpochIoPhase, IoFault)>) {
        unreachable!("nothing is written in the background")
    }

    fn persist_epoch(
        &mut self,
        _start_offset: u64,
        _records: &[Vec<u8>],
    ) -> Option<(EpochPersistMetrics, Result<(), (EpochIoPhase, IoFault)>)> {
        None
    }

    fn len(&mut self, phase: EpochIoPhase) -> Result<u64, IoFault> {
        self.inner.len(phase)
    }

    fn write_at(
        &mut self,
        phase: EpochIoPhase,
        offset: u64,
        bytes: &[u8],
    ) -> Result<usize, IoFault> {
        self.inner.write_at(phase, offset, bytes)
    }

    fn sync_data(&mut self, phase: EpochIoPhase) -> Result<(), IoFault> {
        if phase == EpochIoPhase::EpochSync && self.fail {
            self.fail = false;
            return Err(IoFault {
                code: Some(5),
                message: "input/output error".to_owned(),
            });
        }
        self.inner.sync_data(phase)
    }

    fn set_len(&mut self, phase: EpochIoPhase, len: u64) -> Result<(), IoFault> {
        self.inner.set_len(phase, len)
    }

    fn read_all(&mut self, phase: EpochIoPhase) -> Result<Vec<u8>, IoFault> {
        self.inner.read_all(phase)
    }
}

fn intent(namespace: u64, slot: &str, value: &str) -> QueuedIntent {
    let mut intent = QueuedIntent::new(namespace);
    intent.define_fact(SlotId::new(slot), state_fact(EntityId::new(1), value));
    intent
}

fn initialized() -> SharedFile {
    let file = SharedFile::new(&[]);
    FileCommitStore::open(file.clone()).expect("file initializes");
    file
}

fn durable(
    file: &SharedFile,
    capacity: usize,
    max_batch: usize,
) -> DurableQueuedIntentController<SharedFile> {
    let store = FileEpochStore::from_io(file.clone(), FileEpochSyncPolicy::PerEpoch)
        .expect("epoch store opens");
    let database = Database::new(store).expect("database opens");
    DurableQueuedIntentController::new(
        database,
        capacity,
        BatchPolicy::ImmediateDrain { max_batch },
    )
    .expect("controller starts")
}

fn speculative<I: EpochFileIo>(
    io: I,
    capacity: usize,
    max_batch: usize,
) -> DurableQueuedIntentController<I> {
    let store =
        FileEpochStore::from_io(io, FileEpochSyncPolicy::PerEpoch).expect("epoch store opens");
    let database = Database::new(store).expect("database opens");
    DurableQueuedIntentController::new_speculative(database, capacity, max_batch)
        .expect("controller starts")
}

/// Runs a durable controller until there is nothing to do.
fn run_durable<I: EpochFileIo>(
    controller: &mut DurableQueuedIntentController<I>,
    clock: &mut Ticks,
) -> (Vec<DurableResolution>, Vec<u64>) {
    let mut resolutions = Vec::new();
    let mut released = Vec::new();
    loop {
        assert!(controller.can_advance());
        let now = clock.now();
        match controller.advance(now, 10, clock) {
            DurableStep::Idle | DurableStep::Finished => return (resolutions, released),
            DurableStep::Claimed(_) | DurableStep::Deferred => {}
            DurableStep::Waiting(wait) => {
                clock.0 += wait;
                controller.waited(10);
            }
            DurableStep::Released(barrier) => released.push(barrier),
            DurableStep::Resolved(batch) => resolutions.extend(batch),
            DurableStep::Drained(stopped, _) => resolutions.extend(stopped),
        }
    }
}

fn durable_outcome(resolutions: &[DurableResolution], ticket: u64) -> &DurableTicketOutcome {
    &resolutions
        .iter()
        .find(|resolution| resolution.ticket == ticket)
        .expect("ticket resolves")
        .outcome
}

#[test]
fn accepted_ticket_arrives_only_after_file_epoch_and_head_publication() {
    let file = initialized();
    let mut controller = durable(&file, 16, 8);
    let mut clock = Ticks(0);
    let ticket = controller
        .submit(intent(1, "durable/state", "ready"), clock.now())
        .expect("intent admitted");
    let (resolutions, _) = run_durable(&mut controller, &mut clock);
    let world = durable_outcome(&resolutions, ticket)
        .world()
        .expect("ticket accepted");
    assert_eq!(world.version(), 1);
    assert_eq!(controller.database().snapshot().id(), world.id());
    assert_eq!(controller.database().frame_count(), 1);
    assert_eq!(controller.store_metrics().data_syncs, 1);
    let reopened = FileCommitStore::open(file.clone()).expect("file reopens");
    assert_eq!(reopened.len(), 1);
}

#[test]
fn repaired_epoch_failure_publishes_nothing_and_next_epoch_can_succeed() {
    let io = FailFirstEpochSyncIo {
        inner: initialized(),
        fail: true,
    };
    let store = FileEpochStore::from_io(io, FileEpochSyncPolicy::PerEpoch)
        .expect("injected store opens");
    let database = Database::new(store).expect("database opens");
    let mut controller = DurableQueuedIntentController::new(
        database,
        16,
        BatchPolicy::ImmediateDrain { max_batch: 8 },
    )
    .expect("controller starts");
    let mut clock = Ticks(0);

    let failed = controller
        .submit(intent(1, "durable/failed", "not-published"), clock.now())
        .expect("intent admitted");
    let (resolutions, _) = run_durable(&mut controller, &mut clock);
    assert!(matches!(
        durable_outcome(&resolutions, failed),
        DurableTicketOutcome::DurabilityFailed(_)
    ));
    assert!(durable_outcome(&resolutions, failed).durability_error().is_some());
    assert_eq!(controller.database().snapshot().version(), 0);
    assert_eq!(controller.database().frame_count(), 0);
    assert_eq!(controller.store_state(), FileEpochState::Healthy);

    let succeeded = controller
        .submit(intent(2, "durable/success", "published"), clock.now())
        .expect("second admitted");
    let (resolutions, _) = run_durable(&mut controller, &mut clock);
    assert_eq!(
        durable_outcome(&resolutions, succeeded)
            .world()
            .expect("accepted")
            .version(),
        1
    );
    assert_eq!(controller.database().snapshot().version(), 1);
    assert_eq!(controller.database().frame_count(), 1);
    let metrics = controller.metrics();
    assert_eq!(metrics.durability_failed, 1);
    assert_eq!(metrics.accepted, 1);
}

#[test]
fn semantic_rejection_remains_independent_of_neighboring_durability() {
    let mut controller = durable(&initialized(), 16, 8);
    let mut clock = Ticks(0);
    let accepted = controller
        .submit(intent(1, "durable/accepted", "yes"), clock.now())
        .expect("accepted admitted");
    let mut rejected_intent = intent(2, "durable/rejected", "no");
    rejected_intent.expect_world(WorldId::new(123));
    let rejected = controller
        .submit(rejected_intent, clock.now())
        .expect("rejected admitted");

    let (resolutions, _) = run_durable(&mut controller, &mut clock);
    assert!(matches!(
        durable_outcome(&resolutions, accepted),
        DurableTicketOutcome::Accepted(_)
    ));
    assert!(matches!(
        durable_outcome(&resolutions, rejected),
        DurableTicketOutcome::Rejected(_)
    ));
    assert_eq!(controller.database().snapshot().version(), 1);
    assert_eq!(controller.database().frame_count(), 1);
}

#[test]
fn graceful_shutdown_finishes_claimed_epoch_and_stops_queued_intents() {
    let mut controller = durable(&initialized(), 16, 1);
    let mut clock = Ticks(0);
    let first = controller
        .submit(intent(1, "durable/claimed", "yes"), clock.now())
        .expect("first admitted");
    let now = clock.now();
    assert!(matches!(
        controller.advance(now, 10, &mut clock),
        DurableStep::Claimed(ticket) if ticket == first
    ));
    let second = controller
        .submit(intent(2, "durable/queued", "no"), clock.now())
        .expect("second admitted");
    let previous = controller.begin_shutdown();
    assert_eq!(previous, DurableControllerState::Running);
    assert_eq!(controller.state(), DurableControllerState::Draining);

    let (resolutions, _) = run_durable(&mut controller, &mut clock);
    assert!(matches!(
        durable_outcome(&resolutions, first),
        DurableTicketOutcome::Accepted(_)
    ));
    assert!(matches!(
        durable_outcome(&resolutions, second),
        DurableTicketOutcome::Stopped(DurableTicketStopReason::ShutdownBeforeClaim)
    ));
    controller.worker_exited();
    let report = controller.finish_shutdown(previous);
    assert_eq!(report.final_state, DurableControllerState::Closed);
    assert_eq!(report.queued_stopped, 1);
    assert!(matches!(
        controller.submit(intent(3, "durable/late", "no"), clock.now()),
        Err(DurableSubmitError::Closed(_))
    ));
    assert_eq!(controller.database().snapshot().version(), 1);
    assert_eq!(controller.database().frame_count(), 1);
}

#[test]
fn poisoned_controllers_fence_the_store_and_stop_what_waits() {
    let mut controller = durable(&initialized(), 16, 1);
    let mut clock = Ticks(0);
    let waiting = controller
        .submit(intent(1, "durable/panic", "never"), clock.now())
        .expect("intent admitted");
    let barrier = controller.flush().expect("barrier enters");
    controller.poison("injected failure");
    assert_eq!(controller.poison_reason(), Some("injected failure"));
    let now = clock.now();
    match controller.advance(now, 10, &mut clock) {
        DurableStep::Drained(stopped, refused) => {
            assert!(matches!(
                durable_outcome(&stopped, waiting).stop_reason(),
                Some(DurableTicketStopReason::WorkerFailed(_))
            ));
            assert_eq!(refused, vec![barrier]);
        }
        _ => panic!("what waits is stopped"),
    }
    controller.worker_exited();
    assert!(!controller.metrics().worker_alive);
    assert_eq!(controller.state(), DurableControllerState::Poisoned);
    assert_eq!(controller.store_state(), FileEpochState::Poisoned);
    let refused = controller
        .submit(intent(2, "durable/after-panic", "no"), clock.now())
        .expect_err("nothing enters any more");
    assert!(matches!(refused, DurableSubmitError::Poisoned { .. }));
    assert_eq!(refused.into_intent().namespace(), 2);
    assert!(controller.flush().is_err());
    assert_eq!(controller.database().snapshot().version(), 0);
    assert_eq!(controller.database().frame_count(), 0);
    let previous = controller.begin_shutdown();
    let report = controller.finish_shutdown(previous);
    assert_eq!(report.final_state, DurableControllerState::Poisoned);
}

#[test]
fn validator_panic_poison_fences_store_and_resolves_ticket() {
    let store = FileEpochStore::from_io(initialized(), FileEpochSyncPolicy::PerEpoch)
        .expect("epoch store opens");
    let mut database = Database::new(store).expect("database opens");
    let noted = Arc::new(Mutex::new(None));
    database.register_validator(Rule(Arc::new(BrokenValidator(noted.clone()))));
    let mut controller = DurableQueuedIntentController::new(
        database,
        16,
        BatchPolicy::ImmediateDrain { max_batch: 1 },
    )
    .expect("controller starts");
    let mut clock = Ticks(0);
    let ticket = controller
        .submit(intent(1, "durable/panic", "never"), clock.now())
        .expect("intent admitted");
    let now = clock.now();
    assert!(matches!(
        controller.advance(now, 10, &mut clock),
        DurableStep::Claimed(_)
    ));
    let batch = match controller.begin_pipeline() {
        Ok(batch) => batch,
        Err(_) => panic!("the epoch can be planned"),
    };
    assert!(!controller.is_gathering());
    let message = noted.lock().unwrap().take().expect("the validator was asked");
    match controller.break_down(batch.tickets, message) {
        DurableStep::Drained(stopped, refused) => {
            assert!(matches!(
                durable_outcome(&stopped, ticket),
                DurableTicketOutcome::Stopped(DurableTicketStopReason::WorkerFailed(reason))
                    if reason == "durable epoch worker failed: injected validator panic"
            ));
            assert!(refused.is_empty());
        }
        _ => panic!("ticket receives explicit worker outcome"),
    }
    controller.worker_exited();
    assert!(!controller.metrics().worker_alive);
    assert_eq!(controller.state(), DurableControllerState::Poisoned);
    assert_eq!(controller.store_state(), FileEpochState::Poisoned);
    assert!(matches!(
        controller.submit(intent(2, "durable/after-panic", "no"), clock.now()),
        Err(DurableSubmitError::Poisoned { .. })
    ));
    assert_eq!(controller.database().snapshot().version(), 0);
    assert_eq!(controller.database().frame_count(), 0);
    let previous = controller.begin_shutdown();
    let report = controller.finish_shutdown(previous);
    assert_eq!(report.final_state, DurableControllerState::Poisoned);
}

#[test]
fn lifecycle_metrics_measure_the_complete_epoch_path() {
    let mut controller = durable(&initialized(), 16, 8);
    let mut clock = Ticks(0);
    controller
        .submit(intent(1, "durable/timing", "yes"), clock.now())
        .expect("intent admitted");
    let barrier = controller.flush().expect("timing barrier enters");
    let (resolutions, released) = run_durable(&mut controller, &mut clock);
    assert_eq!(resolutions.len(), 1);
    assert_eq!(released, vec![barrier]);
    let metrics = controller.metrics();
    assert!(metrics.queue_wait_nanos > 0);
    assert!(metrics.derive_nanos > 0);
    assert!(metrics.persist_nanos > 0);
    assert!(metrics.epoch_total_nanos >= metrics.derive_nanos);
}

#[test]
fn speculative_io_uring_prepares_a_successor_before_publication() {
    let file = initialized();
    let mut controller = speculative(file.clone(), 16, 1);
    let mut clock = Ticks(0);
    let mut tickets = Vec::new();
    for (index, value) in ["zero", "one", "two"].iter().enumerate() {
        tickets.push(
            controller
                .submit(
                    intent(index as u64 + 1, &format!("speculative/{index}"), value),
                    clock.now(),
                )
                .expect("admitted"),
        );
    }
    let now = clock.now();
    assert!(!controller.is_gathering());
    assert!(matches!(
        controller.advance(now, 10, &mut clock),
        DurableStep::Claimed(_)
    ));
    assert!(controller.is_gathering());
    let mut prepared = match controller.begin_pipeline() {
        Ok(prepared) => Some(prepared),
        Err(_) => panic!("the first epoch can be planned"),
    };
    let mut resolutions = Vec::new();
    while let Some(batch) = prepared {
        let now = clock.now();
        let (resolved, next) = controller.continue_pipeline(batch, now, &mut clock);
        resolutions.extend(resolved);
        prepared = match next {
            Ok(next) => next,
            Err(_) => panic!("the successor can be planned"),
        };
    }
    for ticket in tickets {
        assert!(matches!(
            durable_outcome(&resolutions, ticket),
            DurableTicketOutcome::Accepted(_)
        ));
    }
    let metrics = controller.metrics();
    assert!(metrics.speculative_epochs_prepared >= 1);
    assert_eq!(metrics.speculative_epochs_rederived, 0);
    assert_eq!(controller.database().snapshot().version(), 3);
    assert_eq!(controller.database().frame_count(), 3);
    assert_eq!(controller.store_metrics().data_syncs, 3);
    let reopened = FileCommitStore::open(file.clone()).expect("history reopens");
    assert_eq!(reopened.len(), 3);
}

#[test]
fn durable_validators_reject_and_say_why() {
    let store = FileEpochStore::from_io(initialized(), FileEpochSyncPolicy::PerEpoch)
        .expect("epoch store opens");
    let mut database = Database::new(store).expect("database opens");
    database.register_validator(Rule(Arc::new(RefuseSlot(SlotId::new("reserved")))));
    let mut controller = DurableQueuedIntentController::new(
        database,
        4,
        BatchPolicy::ImmediateDrain { max_batch: 4 },
    )
    .expect("controller starts");
    let mut clock = Ticks(0);
    let refused = controller
        .submit(intent(1, "reserved", "no"), clock.now())
        .expect("admitted");
    let taken = controller
        .submit(intent(2, "free", "yes"), clock.now())
        .expect("admitted");
    let (resolutions, _) = run_durable(&mut controller, &mut clock);
    let rejection = durable_outcome(&resolutions, refused)
        .rejection()
        .expect("validator refuses");
    assert!(matches!(rejection, DurableTicketRejection::Validation(reason) if reason == "slot is reserved"));
    assert!(durable_outcome(&resolutions, taken).world().is_some());
}

#[test]
fn durable_controllers_need_room_for_an_intent() {
    for (capacity, max_batch) in [(0, 1), (1, 0)] {
        let store = FileEpochStore::from_io(initialized(), FileEpochSyncPolicy::PerEpoch)
            .expect("epoch store opens");
        let database = Database::new(store).expect("database opens");
        let error = DurableQueuedIntentController::new(
            database,
            capacity,
            BatchPolicy::ImmediateDrain { max_batch },
        )
        .err()
        .expect("nothing can be queued");
        if capacity == 0 {
            assert!(matches!(error, DurableControllerConfigError::ZeroCapacity));
        } else {
            assert!(matches!(error, DurableControllerConfigError::ZeroBatchSize));
        }
    }
}

#[test]
fn durable_preconditions_see_earlier_epochs() {
    let mut controller = durable(&initialized(), 4, 1);
    let mut clock = Ticks(0);
    controller
        .submit(intent(1, "durable/state", "one"), clock.now())
        .expect("admitted");
    let mut next = intent(2, "durable/state", "two");
    next.expect_value(
        SlotId::new("durable/state"),
        state_fact(EntityId::new(1), "one"),
    );
    let next = controller.submit(next, clock.now()).expect("admitted");
    let mut late = intent(3, "durable/state", "three");
    late.expect_absent(SlotId::new("durable/state"));
    let late = controller.submit(late, clock.now()).expect("admitted");
    let (resolutions, _) = run_durable(&mut controller, &mut clock);
    assert!(durable_outcome(&resolutions, next).world().is_some());
    assert!(durable_outcome(&resolutions, late).rejection().is_some());
    let head = controller.database().snapshot();
    assert_eq!(head.active_slot_count(), 1);
    assert_eq!(head.record_count(), 2);
    assert_eq!(head.definitions(&SlotId::new("durable/state")).len(), 2);
}

#[test]
fn barriers_take_places_in_the_queue() {
    let database = Database::new(MemoryCommitStore::new()).expect("empty memory store is valid");
    let mut controller =
        QueuedIntentController::new(database, 1, BatchPolicy::ImmediateDrain { max_batch: 1 })
            .expect("controller starts");
    let barrier = controller.flush().expect("barrier enters");
    assert!(matches!(
        controller.submit(QueuedIntent::new(1), 0),
        Err(SubmitError::Full(_))
    ));
    assert_eq!(controller.metrics().backpressured, 1);
    let (_, released) = run(&mut controller);
    assert_eq!(released, vec![barrier]);
    controller.submit(QueuedIntent::new(2), 0).expect("the place is free again");

    let mut durable = durable(&initialized(), 1, 1);
    let mut clock = Ticks(0);
    let barrier = durable.flush().expect("barrier enters");
    assert!(matches!(
        durable.submit(intent(1, "a", "b"), clock.now()),
        Err(DurableSubmitError::Full(_))
    ));
    let (_, released) = run_durable(&mut durable, &mut clock);
    assert_eq!(released, vec![barrier]);
    durable.submit(intent(2, "a", "b"), clock.now()).expect("the place is free again");
}

#[test]
fn workers_that_leave_say_which_they_were() {
    let mut plain = durable(&initialized(), 4, 1);
    plain.worker_exited();
    assert_eq!(
        plain.poison_reason(),
        Some("durable worker exited while controller was running")
    );
    let mut ahead = speculative(initialized(), 4, 1);
    ahead.worker_exited();
    assert_eq!(
        ahead.poison_reason(),
        Some("speculative durability worker exited while controller was running")
    );
}

#[test]
fn speculative_barriers_seal_nothing() {
    let mut clock = Ticks(0);
    let mut plain = durable(&initialized(), 4, 4);
    plain.flush().expect("barrier enters");
    run_durable(&mut plain, &mut clock);
    assert_eq!(plain.metrics().batches_sealed_by_barrier, 1);
    let mut ahead = speculative(initialized(), 4, 4);
    let barrier = ahead.flush().expect("barrier enters");
    let (_, released) = run_durable(&mut ahead, &mut clock);
    assert_eq!(released, vec![barrier]);
    assert_eq!(ahead.metrics().batches_sealed_by_barrier, 0);
}

/// Submits two intents and begins a pipeline on the first.
fn two_in_line<I: EpochFileIo>(
    controller: &mut DurableQueuedIntentController<I>,
    clock: &mut Ticks,
) -> (u64, u64) {
    let first = controller
        .submit(intent(1, "pipeline/first", "one"), clock.now())
        .expect("first admitted");
    let second = controller
        .submit(intent(2, "pipeline/second", "two"), clock.now())
        .expect("second admitted");
    let now = clock.now();
    assert!(matches!(
        controller.advance(now, 10, clock),
        DurableStep::Claimed(ticket) if ticket == first
    ));
    (first, second)
}

#[test]
fn a_failed_epoch_has_its_successor_planned_again() {
    let file = initialized();
    let mut controller = speculative(
        FailFirstEpochSyncIo { inner: file.clone(), fail: true },
        4,
        1,
    );
    let mut clock = Ticks(0);
    let (first, second) = two_in_line(&mut controller, &mut clock);
    let prepared = controller.begin_pipeline().ok().expect("the first epoch is planned");
    let now = clock.now();
    let (resolved, next) = controller.continue_pipeline(prepared, now, &mut clock);
    assert!(matches!(
        durable_outcome(&resolved, first),
        DurableTicketOutcome::DurabilityFailed(_)
    ));
    assert_eq!(controller.database().snapshot().version(), 0);
    assert_eq!(controller.metrics().speculative_epochs_prepared, 1);
    assert_eq!(controller.metrics().speculative_epochs_rederived, 1);
    let prepared = next.ok().expect("nothing broke down").expect("a successor is planned");
    assert_eq!(prepared.tickets, vec![second]);
    let now = clock.now();
    let (resolved, next) = controller.continue_pipeline(prepared, now, &mut clock);
    assert_eq!(
        durable_outcome(&resolved, second).world().expect("accepted").version(),
        1
    );
    assert!(matches!(next, Ok(None)));
    assert_eq!(controller.database().frame_count(), 1);
    assert_eq!(FileCommitStore::open(file).expect("file reopens").len(), 1);
}

#[test]
fn an_epoch_that_is_not_begun_claims_no_successor() {
    let io = FailEpochStartIo(FailFirstEpochSyncIo { inner: initialized(), fail: false });
    let mut controller = speculative(io, 4, 1);
    let mut clock = Ticks(0);
    let (first, _) = two_in_line(&mut controller, &mut clock);
    let prepared = controller.begin_pipeline().ok().expect("the first epoch is planned");
    let now = clock.now();
    let (resolved, next) = controller.continue_pipeline(prepared, now, &mut clock);
    assert!(durable_outcome(&resolved, first).durability_error().is_some());
    assert!(matches!(next, Ok(None)));
    let metrics = controller.metrics();
    assert_eq!(metrics.speculative_epochs_prepared, 0);
    assert_eq!(metrics.claimed, 1);
    assert_eq!(metrics.queue_depth, 1);
    assert_eq!(controller.database().snapshot().version(), 0);
}

#[test]
fn a_pipeline_that_breaks_down_stops_what_waits() {
    let mut controller = speculative(initialized(), 4, 1);
    let mut clock = Ticks(0);
    let (first, second) = two_in_line(&mut controller, &mut clock);
    let prepared = controller.begin_pipeline().ok().expect("the first epoch is planned");
    match controller.break_down(prepared.tickets, "lost".to_owned()) {
        DurableStep::Drained(stopped, _) => {
            for ticket in [first, second] {
                assert!(matches!(
                    durable_outcome(&stopped, ticket).stop_reason(),
                    Some(DurableTicketStopReason::WorkerFailed(reason))
                        if reason == "speculative epoch derivation failed: lost"
                ));
            }
        }
        _ => panic!("what waits is stopped"),
    }
    assert_eq!(controller.store_state(), FileEpochState::Poisoned);
    assert_eq!(
        controller.poison_reason(),
        Some("speculative epoch derivation failed: lost")
    );
}

/// A file that writes epochs in the background, and refuses or fails the first of them.
struct BackgroundIo {
    inner: SharedFile,
    refusals: usize,
    failures: usize,
    flying: Option<(u64, Vec<u8>)>,
}

impl BackgroundIo {
    fn new(inner: SharedFile, refusals: usize, failures: usize) -> Self {
        BackgroundIo { inner, refusals, failures, flying: None }
    }

    fn fault(message: &str) -> (EpochIoPhase, IoFault) {
        let fault = IoFault { code: Some(5), message: message.to_owned() };
        (EpochIoPhase::EpochWrite, fault)
    }
}

impl EpochFileIo for BackgroundIo {
    fn submit_epoch(
        &mut self,
        start_offset: u64,
        records: &[Vec<u8>],
    ) -> Option<Result<(), (EpochIoPhase, IoFault)>> {
        if self.refusals > 0 {
            self.refusals -= 1;
            return Some(Err(Self::fault("not begun")));
        }
        self.flying = Some((start_offset, records.concat()));
        Some(Ok(()))
    }

    fn complete_epoch(&mut self) -> (EpochPersistMetrics, Result<(), (EpochIoPhase, IoFault)>) {
        let (offset, bytes) = self.flying.take().expect("an epoch is in flight");
        let metrics = EpochPersistMetrics { data_writes: 1, data_syncs: 1, ..Default::default() };
        if self.failures > 0 {
            self.failures -= 1;
            return (metrics, Err(Self::fault("not written")));
        }
        let written = self.inner.write_at(EpochIoPhase::EpochWrite, offset, &bytes);
        (metrics, written.map(|_| ()).map_err(|fault| (EpochIoPhase::EpochWrite, fault)))
    }

    fn persist_epoch(
        &mut self,
        _start_offset: u64,
        _records: &[Vec<u8>],
    ) -> Option<(EpochPersistMetrics, Result<(), (EpochIoPhase, IoFault)>)> {
        None
    }

    fn len(&mut self, phase: EpochIoPhase) -> Result<u64, IoFault> {
        assert!(self.flying.is_none(), "the file is left alone while it is written");
        self.inner.len(phase)
    }

    fn write_at(
        &mut self,
        phase: EpochIoPhase,
        offset: u64,
        bytes: &[u8],
    ) -> Result<usize, IoFault> {
        self.inner.write_at(phase, offset, bytes)
    }

    fn sync_data(&mut self, phase: EpochIoPhase) -> Result<(), IoFault> {
        self.inner.sync_data(phase)
    }

    fn set_len(&mut self, phase: EpochIoPhase, len: u64) -> Result<(), IoFault> {
        self.inner.set_len(phase, len)
    }

    fn read_all(&mut self, phase: EpochIoPhase) -> Result<Vec<u8>, IoFault> {
        self.inner.read_all(phase)
    }
}

#[test]
fn an_epoch_that_the_device_does_not_begin_claims_no_successor() {
    let file = initialized();
    let clean = file.bytes();
    let mut controller = speculative(BackgroundIo::new(file.clone(), 1, 0), 4, 1);
    let mut clock = Ticks(0);
    let (first, second) = two_in_line(&mut controller, &mut clock);
    let prepared = controller.begin_pipeline().ok().expect("the first epoch is planned");
    let now = clock.now();
    let (resolved, next) = controller.continue_pipeline(prepared, now, &mut clock);
    assert!(durable_outcome(&resolved, first).durability_error().is_some());
    assert!(matches!(next, Ok(None)));
    assert_eq!(file.bytes(), clean);
    let metrics = controller.metrics();
    assert_eq!(metrics.speculative_epochs_prepared, 0);
    assert_eq!(metrics.speculative_epochs_rederived, 0);
    assert_eq!(metrics.claimed, 1);
    assert_eq!(metrics.queue_depth, 1);
    assert_eq!(controller.store_state(), FileEpochState::Healthy);

    let now = clock.now();
    assert!(matches!(
        controller.advance(now, 10, &mut clock),
        DurableStep::Claimed(ticket) if ticket == second
    ));
    assert!(controller.pipeline_ready());
    let prepared = controller.begin_pipeline().ok().expect("the second epoch is planned");
    let now = clock.now();
    let (resolved, next) = controller.continue_pipeline(prepared, now, &mut clock);
    assert!(durable_outcome(&resolved, second).world().is_some());
    assert!(matches!(next, Ok(None)));
    assert_eq!(controller.store_metrics().data_writes, 1);
    assert_eq!(FileCommitStore::open(file).expect("file reopens").len(), 1);
}

#[test]
fn an_epoch_that_fails_in_the_background_has_its_successor_planned_again() {
    let file = initialized();
    let mut controller = speculative(BackgroundIo::new(file.clone(), 0, 1), 4, 1);
    let mut clock = Ticks(0);
    let (first, second) = two_in_line(&mut controller, &mut clock);
    let prepared = controller.begin_pipeline().ok().expect("the first epoch is planned");
    let now = clock.now();
    let (resolved, next) = controller.continue_pipeline(prepared, now, &mut clock);
    assert!(durable_outcome(&resolved, first).durability_error().is_some());
    let metrics = controller.metrics();
    assert_eq!(metrics.speculative_epochs_prepared, 1);
    assert_eq!(metrics.speculative_epochs_rederived, 1);
    let prepared = next.ok().expect("nothing broke down").expect("a successor is planned");
    assert_eq!(prepared.tickets, vec![second]);
}

#[test]
fn batches_are_ready_when_nothing_more_comes() {
    let mut controller = speculative(initialized(), 4, 2);
    let mut clock = Ticks(0);
    assert!(!controller.pipeline_ready());
    for namespace in 1..=3 {
        controller
            .submit(intent(namespace, "ready", "yes"), clock.now())
            .expect("admitted");
    }
    let now = clock.now();
    controller.advance(now, 10, &mut clock);
    assert!(controller.is_gathering());
    assert!(!controller.pipeline_ready());
    let now = clock.now();
    controller.advance(now, 10, &mut clock);
    assert!(controller.pipeline_ready());
}

#[test]
fn histories_with_high_entities_go_on() {
    let high = EntityId::new(1 << 63);
    let store = FileEpochStore::from_io(initialized(), FileEpochSyncPolicy::PerEpoch)
        .expect("epoch store opens");
    let mut database = Database::new(store).expect("database opens");
    let mut transaction = database.begin();
    transaction.define(SlotId::new("high"), state_fact(high, "kept"));
    database.commit(transaction).expect("commits");
    let mut controller = DurableQueuedIntentController::new(
        database,
        4,
        BatchPolicy::ImmediateDrain { max_batch: 1 },
    )
    .expect("controller starts");
    let mut clock = Ticks(0);
    let mut next = intent(1, "durable/state", "on");
    next.expect_value(SlotId::new("high"), state_fact(high, "kept"));
    let next = controller.submit(next, clock.now()).expect("admitted");
    let (resolutions, _) = run_durable(&mut controller, &mut clock);
    assert_eq!(
        durable_outcome(&resolutions, next).world().expect("accepted").version(),
        2
    );

    let mut own = QueuedIntent::new(2);
    own.define_fact(SlotId::new("own"), state_fact(high, "no"));
    let own = controller.submit(own, clock.now()).expect("admitted");
    let (resolutions, _) = run_durable(&mut controller, &mut clock);
    assert!(matches!(
        durable_outcome(&resolutions, own).stop_reason(),
        Some(DurableTicketStopReason::WorkerFailed(reason)) if reason
            == "durable epoch worker failed: vm materialize: \
                \"entity identifier overlaps the VM literal namespace\""
    ));
}

#[test]
fn commands_come_in_while_the_database_is_lent() {
    let file = initialized();
    let mut controller = durable(&file, 2, 1);
    let mut clock = Ticks(0);
    let first = controller
        .submit(intent(1, "durable/first", "one"), clock.now())
        .expect("first admitted");
    assert!(controller.take_batch(0, 10).is_none());
    let now = clock.now();
    assert!(matches!(
        controller.advance(now, 10, &mut clock),
        DurableStep::Claimed(ticket) if ticket == first
    ));
    assert!(controller.can_advance());
    let now = clock.now();
    let sealed = controller.take_batch(now, 10).expect("the batch is full");
    assert_eq!(sealed.tickets, vec![first]);
    assert!(!controller.is_gathering());
    assert_eq!(controller.metrics().in_flight, 1);

    let mut database = controller.lend();
    let started = clock.now();
    for namespace in 2..=3 {
        controller
            .submit(intent(namespace, "durable/more", "two"), clock.now())
            .expect("the queue has room");
    }
    assert!(matches!(
        controller.submit(intent(4, "durable/late", "no"), clock.now()),
        Err(DurableSubmitError::Full(_))
    ));
    let (commit, times) = database.commit_durable_epoch(sealed.intents, &mut clock);
    controller.give_back(database);
    match controller.conclude_epoch(sealed.tickets, commit, times, started, &mut clock) {
        DurableStep::Resolved(resolutions) => {
            assert!(durable_outcome(&resolutions, first).world().is_some());
        }
        _ => panic!("the epoch is stored"),
    }
    let metrics = controller.metrics();
    assert_eq!(metrics.in_flight, 0);
    assert_eq!(metrics.epochs, 1);
    assert_eq!(metrics.queue_depth, 2);
    assert_eq!(controller.database().frame_count(), 1);

    let database = Database::new(MemoryCommitStore::new()).expect("empty memory store is valid");
    let mut queue =
        QueuedIntentController::new(database, 1, BatchPolicy::ImmediateDrain { max_batch: 1 })
            .expect("controller starts");
    let ticket = queue.submit(intent(1, "queued", "one"), 0).expect("admitted");
    assert!(matches!(queue.advance(0, 10), ControllerStep::Claimed(_)));
    let sealed = queue.take_batch(0, 10).expect("the batch is full");
    let mut database = queue.lend();
    queue.submit(intent(2, "queued", "two"), 1).expect("the queue has room");
    assert!(matches!(
        queue.submit(intent(3, "queued", "three"), 1),
        Err(SubmitError::Full(_))
    ));
    let plan = database.commit_queued_epoch(sealed.intents);
    queue.give_back(database);
    let resolutions = queue.conclude_epoch(sealed.tickets, plan);
    assert_eq!(accepted_world(outcome_of(&resolutions, ticket)).version(), 1);
    assert_eq!(queue.database().snapshot().version(), 1);
    assert_eq!(queue.metrics().accepted, 1);
}
