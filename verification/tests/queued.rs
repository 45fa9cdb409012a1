use forthdb_world::{
    create_snapshot, derive_epoch, derive_epoch_world, Atom, AtomRef, CandidateWorld, CommitError,
    CommitFrame, CommitStore, ControllerIntent, Database, EntityId, EpochFileIo, EpochIoPhase,
    EpochOutcome, EpochPersistMetrics, Fact, FileCommitStore, IntentAtom, IntentFact, IntentNamespaces, IntentRejection, IoFault, Literal,
    MemoryCommitStore, MixedEpochOutcome, MmapVmSnapshot, Operation, Predicate, QueuedIntent, Rule,
    SemanticIntent, SemanticTicketRejection, SlotId, Transaction, TransactionAST, TransactionOp, Validator,
    VmEpochMaterializer, World, WorldId,
};
use std::sync::{Arc, Mutex};

struct Check<F>(F);

impl<F> Validator for Check<F>
where
    F: Fn(&CandidateWorld) -> Result<(), String> + Send + Sync,
{
    fn validate(&self, candidate: &CandidateWorld) -> Result<(), String> {
        (self.0)(candidate)
    }
}

fn rule<F>(check: F) -> Rule
where
    F: Fn(&CandidateWorld) -> Result<(), String> + Send + Sync + 'static,
{
    Rule(Arc::new(Check(check)))
}

/// A file whose bytes outlive the stores that use it.
#[derive(Clone, Debug)]
struct SharedFile(Arc<Mutex<Vec<u8>>>);

impl SharedFile {
    fn new(bytes: &[u8]) -> Self {
        SharedFile(Arc::new(Mutex::new(bytes.to_vec())))
    }

    fn bytes(&self) -> Vec<u8> {
        self.0.lock().unwrap().clone()
    }
}

impl EpochFileIo for SharedFile {
    fn submit_epoch(
        &mut self,
        _start_offset: u64,
        _records: &[Vec<u8>],
    ) -> Option<Result<(), (EpochIoPhase, IoFault)>> {
        None
    }

    fn complete_epoch(&mut self) -> (EpochPersistMetrics, Result<(), (EpochIoPhase, IoFault)>) {
        unreachable!("nothing is written in the background")
    }

    fn persist_epoch(
        &mut self,
        _start_offset: u64,
        _records: &[Vec<u8>],
    ) -> Option<(EpochPersistMetrics, Result<(), (EpochIoPhase, IoFault)>)> {
        None
    }

    fn len(&mut self, _phase: EpochIoPhase) -> Result<u64, IoFault> {
        Ok(self.0.lock().unwrap().len() as u64)
    }

    fn write_at(
        &mut self,
        _phase: EpochIoPhase,
        offset: u64,
        bytes: &[u8],
    ) -> Result<usize, IoFault> {
        let mut held = self.0.lock().unwrap();
        let end = offset as usize + bytes.len();
        if held.len() < end {
            held.resize(end, 0);
        }
        held[offset as usize..end].copy_from_slice(bytes);
        Ok(bytes.len())
    }

    fn sync_data(&mut self, _phase: EpochIoPhase) -> Result<(), IoFault> {
        Ok(())
    }

    fn set_len(&mut self, _phase: EpochIoPhase, len: u64) -> Result<(), IoFault> {
        self.0.lock().unwrap().resize(len as usize, 0);
        Ok(())
    }

    fn read_all(&mut self, _phase: EpochIoPhase) -> Result<Vec<u8>, IoFault> {
        Ok(self.bytes())
    }
}

fn state_fact(entity: EntityId, value: &str) -> Fact {
    Fact::new(
        Atom::Entity(entity),
        Predicate::new("state"),
        Atom::Literal(Literal::new(value)),
    )
}

fn intent_state_fact(entity: impl Into<IntentAtom>, value: &str) -> IntentFact {
    IntentFact::new(entity, Predicate::new("state"), Literal::new(value))
}

fn replay_frame(database: &mut Database<MemoryCommitStore>, frame: &CommitFrame) -> Arc<World> {
    let mut transaction = database.begin();
    for operation in frame.operations() {
        match operation {
            Operation::AllocateEntity { entity } => {
                assert_eq!(transaction.entity(), *entity);
            }
            Operation::Define { slot, fact } => {
                transaction.define(slot.clone(), fact.clone());
            }
            Operation::Forget { slot } => transaction.forget(slot.clone()),
        }
    }
    database
        .commit(transaction)
        .expect("oracle commit succeeds")
}

#[test]
fn temporary_entities_are_scoped_and_resolved_from_each_predecessor() {
    let mut names = IntentNamespaces::new();
    let mut first = QueuedIntent::new(names.issue());
    let first_temp = first.entity();
    first.define(
        SlotId::new("first/state"),
        intent_state_fact(first_temp, "ready"),
    );

    let mut second = QueuedIntent::new(names.issue());
    let second_temp = second.entity();
    second.define(
        SlotId::new("second/state"),
        intent_state_fact(second_temp, "ready"),
    );

    assert_eq!(first_temp.index(), second_temp.index());
    assert_ne!(first_temp, second_temp);
    let plan = derive_epoch(Arc::new(World::genesis()), vec![first, second], &[]);
    let first = plan.outcomes()[0].accepted().expect("first accepted");
    let second = plan.outcomes()[1].accepted().expect("second accepted");
    assert_eq!(first.entity(first_temp), Some(EntityId::new(1)));
    assert_eq!(second.entity(second_temp), Some(EntityId::new(2)));
    assert_eq!(plan.tail().next_entity(), 3);
}

#[test]
fn a_foreign_temporary_handle_cannot_alias_a_local_handle() {
    let mut names = IntentNamespaces::new();
    let mut owner = QueuedIntent::new(names.issue());
    let foreign = owner.entity();

    let mut target = QueuedIntent::new(names.issue());
    let local = target.entity();
    assert_eq!(foreign.index(), local.index());
    target.define(
        SlotId::new("target/state"),
        intent_state_fact(foreign, "invalid"),
    );

    let plan = derive_epoch(Arc::new(World::genesis()), vec![target], &[]);
    assert!(matches!(
        plan.outcomes()[0].rejected().expect("rejected").error(),
        IntentRejection::UnknownTemporaryEntity(entity) if *entity == foreign
    ));
    assert_eq!(plan.tail().version(), 0);
    assert_eq!(plan.tail().next_entity(), 1);
}

#[test]
fn a_rejected_intent_consumes_neither_version_nor_allocator_state() {
    let mut names = IntentNamespaces::new();
    let mut accepted_first = QueuedIntent::new(names.issue());
    let first_entity = accepted_first.entity();
    accepted_first.define(
        SlotId::new("first/state"),
        intent_state_fact(first_entity, "ready"),
    );

    let mut rejected = QueuedIntent::new(names.issue());
    rejected.expect_world(WorldId::new(7));
    let rejected_entity = rejected.entity();
    rejected.define(
        SlotId::new("rejected/state"),
        intent_state_fact(rejected_entity, "never"),
    );

    let mut accepted_last = QueuedIntent::new(names.issue());
    let last_entity = accepted_last.entity();
    accepted_last.define(
        SlotId::new("last/state"),
        intent_state_fact(last_entity, "ready"),
    );

    let plan = derive_epoch(
        Arc::new(World::genesis()),
        vec![accepted_first, rejected, accepted_last],
        &[],
    );
    assert_eq!(plan.accepted_count(), 2);
    assert_eq!(plan.rejected_count(), 1);
    assert_eq!(plan.tail().version(), 2);
    assert_eq!(plan.tail().next_entity(), 3);
    let last = plan.outcomes()[2].accepted().expect("last accepted");
    assert_eq!(last.entity(last_entity), Some(EntityId::new(2)));
    assert!(
        plan.tail()
            .resolve(&SlotId::new("rejected/state"))
            .is_none()
    );
}

#[test]
fn slot_preconditions_observe_the_assigned_private_predecessor() {
    let mut names = IntentNamespaces::new();
    let slot = SlotId::new("service/state");
    let entity = EntityId::new(1);
    let initial = state_fact(entity, "one");
    let updated = state_fact(entity, "two");
    let mut database = Database::new(MemoryCommitStore::new()).expect("genesis valid");
    let mut setup = database.begin();
    assert_eq!(setup.entity(), entity);
    setup.define(slot.clone(), initial.clone());
    let base = database.commit(setup).expect("setup commits");

    let mut first = QueuedIntent::new(names.issue());
    first.expect_value(slot.clone(), initial.clone());
    first.define_fact(slot.clone(), updated.clone());

    let mut stale = QueuedIntent::new(names.issue());
    stale.expect_value(slot.clone(), initial);
    stale.define_fact(
        SlotId::new("should/not/exist"),
        Fact::new(
            Atom::Literal(Literal::new("x")),
            Predicate::new("value"),
            Atom::Literal(Literal::new("y")),
        ),
    );

    let mut current = QueuedIntent::new(names.issue());
    current.expect_value(slot.clone(), updated.clone());
    current.define_fact(
        SlotId::new("should/exist"),
        Fact::new(
            Atom::Literal(Literal::new("x")),
            Predicate::new("value"),
            Atom::Literal(Literal::new("z")),
        ),
    );

    let plan = derive_epoch(base, vec![first, stale, current], &[]);
    assert!(plan.outcomes()[0].accepted().is_some());
    assert!(matches!(
        plan.outcomes()[1].rejected().expect("rejected").error(),
        IntentRejection::SlotPrecondition { .. }
    ));
    assert!(plan.outcomes()[2].accepted().is_some());
    assert_eq!(plan.tail().resolve(&slot), Some(&updated));
    assert!(
        plan.tail()
            .resolve(&SlotId::new("should/not/exist"))
            .is_none()
    );
    assert!(plan.tail().resolve(&SlotId::new("should/exist")).is_some());
}

#[test]
fn validators_reject_only_the_assigned_intent() {
    let mut names = IntentNamespaces::new();
    let required = SlotId::new("approval");
    let validator_slot = required.clone();
    let validator = rule(move |candidate: &CandidateWorld| {
        candidate
            .resolve(&validator_slot)
            .map(|_| ())
            .ok_or_else(|| "approval required".to_owned())
    });

    let mut rejected = QueuedIntent::new(names.issue());
    rejected.define_fact(
        SlotId::new("work/one"),
        Fact::new(
            Atom::Literal(Literal::new("one")),
            Predicate::new("state"),
            Atom::Literal(Literal::new("ready")),
        ),
    );

    let mut accepted = QueuedIntent::new(names.issue());
    accepted.define_fact(
        required,
        Fact::new(
            Atom::Literal(Literal::new("release")),
            Predicate::new("approved_by"),
            Atom::Literal(Literal::new("operator")),
        ),
    );

    let plan = derive_epoch(
        Arc::new(World::genesis()),
        vec![rejected, accepted],
        &[validator],
    );
    assert!(matches!(
        plan.outcomes()[0].rejected().expect("rejected").error(),
        IntentRejection::Validation(_)
    ));
    assert!(plan.outcomes()[1].accepted().is_some());
    assert_eq!(plan.tail().version(), 1);
}

#[test]
fn epoch_workspace_preserves_ordered_semantics_and_publishes_one_world() {
    let mut names = IntentNamespaces::new();
    let slot = SlotId::new("workspace/state");
    let initial = state_fact(EntityId::new(1), "initial");
    let updated = state_fact(EntityId::new(1), "updated");
    let mut database = Database::new(MemoryCommitStore::new()).expect("genesis valid");
    let mut setup = database.begin();
    assert_eq!(setup.entity(), EntityId::new(1));
    setup.define(slot.clone(), initial.clone());
    let base = database.commit(setup).expect("setup commits");

    let mut first = QueuedIntent::new(names.issue());
    first.expect_value(slot.clone(), initial.clone());
    first.define_fact(slot.clone(), updated.clone());

    let mut rejected = QueuedIntent::new(names.issue());
    rejected.expect_value(slot.clone(), initial);
    let rejected_entity = rejected.entity();
    rejected.define(
        SlotId::new("workspace/rejected"),
        intent_state_fact(rejected_entity, "never"),
    );

    let mut last = QueuedIntent::new(names.issue());
    last.expect_value(slot.clone(), updated.clone());
    let last_entity = last.entity();
    last.define(
        SlotId::new("workspace/accepted"),
        intent_state_fact(last_entity, "ready"),
    );

    let mut validator_rejected = QueuedIntent::new(names.issue());
    let validator_rejected_entity = validator_rejected.entity();
    validator_rejected.define(
        SlotId::new("workspace/validator-rejected"),
        intent_state_fact(validator_rejected_entity, "never"),
    );
    let validator = rule(|candidate: &CandidateWorld| {
        if candidate
            .resolve(&SlotId::new("workspace/validator-rejected"))
            .is_some()
        {
            Err("deliberate rejection".to_owned())
        } else {
            Ok(())
        }
    });

    let plan = derive_epoch_world(
        base.clone(),
        vec![first, rejected, validator_rejected, last],
        &[validator],
    );
    assert!(plan.outcomes()[0].accepted().is_some());
    assert!(matches!(
        plan.outcomes()[1].rejected().expect("rejected").error(),
        IntentRejection::SlotPrecondition { .. }
    ));
    assert!(matches!(
        plan.outcomes()[2].rejected().expect("rejected").error(),
        IntentRejection::Validation(_)
    ));
    let accepted = plan.outcomes()[3].accepted().expect("last accepted");
    assert_eq!(accepted.entity(last_entity), Some(EntityId::new(2)));
    assert_eq!(accepted.world().id(), plan.tail().id());
    assert_eq!(plan.frames().len(), 1);
    assert_eq!(plan.tail().version(), base.version() + 1);
    assert_eq!(plan.frames()[0].parent_world(), base.id());
    assert_eq!(plan.frames()[0].parent_version(), base.version());
    assert_eq!(plan.tail().resolve(&slot), Some(&updated));
    assert!(
        plan.tail()
            .resolve(&SlotId::new("workspace/rejected"))
            .is_none()
    );
    assert!(
        plan.tail()
            .resolve(&SlotId::new("workspace/validator-rejected"))
            .is_none()
    );
    assert!(
        plan.tail()
            .resolve(&SlotId::new("workspace/accepted"))
            .is_some()
    );
    let mut frames = base.frames();
    frames.extend(plan.frames().iter().cloned());
    let reconstructed = World::reconstruct(&frames).expect("epoch frame reconstructs");
    assert_eq!(reconstructed.id(), plan.tail().id());
    assert_eq!(reconstructed.next_entity(), plan.tail().next_entity());
}

#[test]
fn empty_accepted_intent_still_materializes_an_epoch_world() {
    let mut names = IntentNamespaces::new();
    let base = Arc::new(World::genesis());
    let plan = derive_epoch_world(base.clone(), vec![QueuedIntent::new(names.issue())], &[]);
    assert!(plan.outcomes()[0].accepted().is_some());
    assert_eq!(plan.frames().len(), 1);
    assert_eq!(plan.tail().version(), 1);
    assert_ne!(plan.tail().id(), base.id());
}

#[test]
fn all_rejected_epoch_keeps_the_base_and_emits_no_frame() {
    let mut names = IntentNamespaces::new();
    let base = Arc::new(World::genesis());
    let mut intent = QueuedIntent::new(names.issue());
    intent.expect_world(WorldId::new(7));
    intent.define_fact(
        SlotId::new("rejected/all"),
        Fact::new(
            Atom::Literal(Literal::new("no")),
            Predicate::new("state"),
            Atom::Literal(Literal::new("never")),
        ),
    );
    let plan = derive_epoch_world(base.clone(), vec![intent], &[]);
    assert!(plan.outcomes()[0].rejected().is_some());
    assert!(plan.frames().is_empty());
    assert_eq!(plan.tail().id(), base.id());
    assert!(plan.tail().resolve(&SlotId::new("rejected/all")).is_none());
}

#[test]
fn epoch_workspace_keeps_private_predecessor_identity_for_expected_world() {
    let mut names = IntentNamespaces::new();
    let base = Arc::new(World::genesis());
    let mut first = QueuedIntent::new(names.issue());
    first.define_fact(
        SlotId::new("private/first"),
        Fact::new(
            Atom::Literal(Literal::new("first")),
            Predicate::new("state"),
            Atom::Literal(Literal::new("ready")),
        ),
    );
    let private_first = derive_epoch(base.clone(), vec![first.clone()], &[]).tail();

    let mut second = QueuedIntent::new(names.issue());
    second.expect_world(private_first.id());
    second.define_fact(
        SlotId::new("private/second"),
        Fact::new(
            Atom::Literal(Literal::new("second")),
            Predicate::new("state"),
            Atom::Literal(Literal::new("ready")),
        ),
    );

    let plan = derive_epoch_world(base, vec![first, second], &[]);
    assert!(
        plan.outcomes()
            .iter()
            .all(|outcome| outcome.accepted().is_some())
    );
    assert_eq!(plan.frames().len(), 1);
    let first = plan.outcomes()[0].accepted().unwrap();
    let second = plan.outcomes()[1].accepted().unwrap();
    assert_eq!(first.world().id(), second.world().id());
    assert_eq!(first.frame(), second.frame());
}

type Observation = (WorldId, WorldId, u64, u64, Vec<Operation>);

fn recording_validator(observations: Arc<Mutex<Vec<Observation>>>) -> Rule {
    rule(move |candidate: &CandidateWorld| {
        observations.lock().unwrap().push((
            candidate.base_world(),
            candidate.id(),
            candidate.version(),
            candidate.next_entity(),
            candidate.operations().to_vec(),
        ));
        Ok(())
    })
}

#[test]
fn epoch_workspace_validators_observe_the_sequential_candidate_chain() {
    let mut names = IntentNamespaces::new();
    let mut intents = Vec::new();
    for index in 0..3 {
        let mut intent = QueuedIntent::new(names.issue());
        let entity = intent.entity();
        intent.define(
            SlotId::new(&format!("validator/{index}")),
            intent_state_fact(entity, &index.to_string()),
        );
        intents.push(intent);
    }

    let expected = Arc::new(Mutex::new(Vec::new()));
    derive_epoch(
        Arc::new(World::genesis()),
        intents.clone(),
        &[recording_validator(expected.clone())],
    );
    let actual = Arc::new(Mutex::new(Vec::new()));
    derive_epoch_world(
        Arc::new(World::genesis()),
        intents,
        &[recording_validator(actual.clone())],
    );

    assert_eq!(*actual.lock().unwrap(), *expected.lock().unwrap());
}

#[test]
fn epoch_workspace_matches_the_legacy_sequential_collapse() {
    let mut names = IntentNamespaces::new();
    let base = Arc::new(World::genesis());
    let mut seed = 0xbb67_ae85_84ca_a73b_u64;
    let mut intents = Vec::with_capacity(512);
    for index in 0..512_u64 {
        seed ^= seed << 13;
        seed ^= seed >> 7;
        seed ^= seed << 17;
        let mut intent = QueuedIntent::new(names.issue());
        if index % 19 == 0 {
            intent.expect_world(WorldId::new(7));
        }
        if index % 3 == 0 {
            let entity = intent.entity();
            intent.define(
                SlotId::new(&format!("differential/entity/{index}")),
                intent_state_fact(entity, &seed.to_string()),
            );
        }
        let slot = SlotId::new(&format!("differential/slot/{}", seed % 41));
        if seed & 7 == 0 {
            intent.forget(slot);
        } else {
            intent.define_fact(
                slot,
                Fact::new(
                    Atom::Literal(Literal::new("differential")),
                    Predicate::new("value"),
                    Atom::Literal(Literal::new(&format!("{index}:{seed}"))),
                ),
            );
        }
        intents.push(intent);
    }

    let sequential = derive_epoch(base.clone(), intents.clone(), &[]);
    let operations = sequential
        .frames()
        .iter()
        .flat_map(|frame| frame.operations().iter().cloned())
        .collect();
    let reference_candidate = CandidateWorld::construct(base.as_ref(), operations).unwrap();
    let reference_frame = reference_candidate.commit_frame();
    let reference_world =
        Arc::new(reference_candidate.into_world(&base));

    let workspace = derive_epoch_world(base, intents, &[]);
    assert_eq!(workspace.frames(), &[reference_frame]);
    assert_eq!(workspace.tail().id(), reference_world.id());
    assert_eq!(
        workspace.tail().next_entity(),
        reference_world.next_entity()
    );
    assert_eq!(workspace.outcomes().len(), sequential.outcomes().len());
    for (actual, expected) in workspace.outcomes().iter().zip(sequential.outcomes()) {
        assert_eq!(actual.accepted().is_some(), expected.accepted().is_some());
        if let (Some(actual), Some(expected)) = (actual.accepted(), expected.accepted()) {
            assert_eq!(actual.entities(), expected.entities());
        }
    }
    for slot in 0..41 {
        let slot = SlotId::new(&format!("differential/slot/{slot}"));
        assert_eq!(
            workspace.tail().resolve(&slot),
            reference_world.resolve(&slot)
        );
    }
}

#[test]
fn queued_plan_matches_strict_sequential_worlds_and_frames() {
    let mut names = IntentNamespaces::new();
    let mut intents = Vec::new();
    for index in 0..128 {
        let mut intent = QueuedIntent::new(names.issue());
        let entity = intent.entity();
        intent.define(
            SlotId::new(&format!("service/{index}/state")),
            intent_state_fact(entity, &format!("v{index}")),
        );
        if index % 7 == 0 {
            intent.forget(SlotId::new(&format!("service/{index}/state")));
        }
        intents.push(intent);
    }

    let plan = derive_epoch(Arc::new(World::genesis()), intents, &[]);
    let mut oracle = Database::new(MemoryCommitStore::new()).expect("genesis valid");
    let mut oracle_worlds = Vec::new();
    for frame in plan.frames() {
        oracle_worlds.push(replay_frame(&mut oracle, frame));
    }

    assert_eq!(oracle.frames(), plan.frames());
    assert_eq!(oracle.snapshot().id(), plan.tail().id());
    for (outcome, oracle_world) in plan
        .outcomes()
        .iter()
        .filter_map(EpochOutcome::accepted)
        .zip(oracle_worlds)
    {
        assert_eq!(outcome.world().id(), oracle_world.id());
        assert_eq!(outcome.world().next_entity(), oracle_world.next_entity());
    }
}

#[test]
fn in_memory_epoch_appends_all_frames_then_publishes_only_the_tail() {
    let mut names = IntentNamespaces::new();
    let mut database = Database::new(MemoryCommitStore::new()).expect("genesis valid");
    let old = database.snapshot();
    let stale = database.begin();
    let mut intents = Vec::new();
    for index in 0..16 {
        let mut intent = QueuedIntent::new(names.issue());
        intent.define_fact(
            SlotId::new(&format!("epoch/{index}")),
            Fact::new(
                Atom::Literal(Literal::new("epoch")),
                Predicate::new("value"),
                Atom::Literal(Literal::new(&index.to_string())),
            ),
        );
        intents.push(intent);
    }

    let plan = database.commit_queued_epoch(intents);
    assert_eq!(old.version(), 0);
    assert_eq!(database.snapshot().id(), plan.tail().id());
    assert_eq!(database.snapshot().version(), 16);
    assert_eq!(database.frame_count(), 16);
    assert_eq!(database.frames(), plan.frames());
    assert!(matches!(
        database.commit(stale),
        Err(CommitError::StaleTransaction { .. })
    ));
}

#[test]
fn canonical_file_bytes_match_strict_sequential_execution() {
    let mut names = IntentNamespaces::new();
    let mut intents = Vec::new();
    for index in 0..64 {
        let mut intent = QueuedIntent::new(names.issue());
        let entity = intent.entity();
        intent.define(
            SlotId::new(&format!("canonical/{index}")),
            intent_state_fact(entity, &index.to_string()),
        );
        intents.push(intent);
    }
    let plan = derive_epoch(Arc::new(World::genesis()), intents, &[]);

    let queued_bytes = SharedFile::new(&[]);
    let strict_bytes = SharedFile::new(&[]);
    {
        let mut store = FileCommitStore::open(queued_bytes.clone()).expect("queued file opens");
        for frame in plan.frames() {
            store.append(frame.clone()).expect("frame appends");
        }
    }
    {
        let store = FileCommitStore::open(strict_bytes.clone()).expect("strict file opens");
        let mut database = Database::new(store).expect("strict database opens");
        for frame in plan.frames() {
            let mut transaction = database.begin();
            for operation in frame.operations() {
                match operation {
                    Operation::AllocateEntity { entity } => {
                        assert_eq!(transaction.entity(), *entity);
                    }
                    Operation::Define { slot, fact } => {
                        transaction.define(slot.clone(), fact.clone());
                    }
                    Operation::Forget { slot } => transaction.forget(slot.clone()),
                }
            }
            database
                .commit(transaction)
                .expect("strict commit succeeds");
        }
    }

    assert_eq!(
        queued_bytes.bytes(),
        strict_bytes.bytes()
    );
}

#[test]
fn deterministic_randomized_epoch_matches_sequential_oracle() {
    let mut names = IntentNamespaces::new();
    let mut seed = 0x6a09_e667_f3bc_c909_u64;
    let mut intents = Vec::with_capacity(10_000);
    for index in 0..10_000_u64 {
        seed ^= seed << 13;
        seed ^= seed >> 7;
        seed ^= seed << 17;
        let slot_index = seed % 257;
        let mut intent = QueuedIntent::new(names.issue());
        if seed & 7 == 0 {
            intent.forget(SlotId::new(&format!("random/{slot_index}")));
        } else {
            intent.define_fact(
                SlotId::new(&format!("random/{slot_index}")),
                Fact::new(
                    Atom::Literal(Literal::new("random")),
                    Predicate::new("value"),
                    Atom::Literal(Literal::new(&format!("{index}:{seed}"))),
                ),
            );
        }
        intents.push(intent);
    }

    let plan = derive_epoch(Arc::new(World::genesis()), intents, &[]);
    let mut oracle = Database::new(MemoryCommitStore::new()).expect("genesis valid");
    for frame in plan.frames() {
        replay_frame(&mut oracle, frame);
    }
    assert_eq!(oracle.frames(), plan.frames());
    assert_eq!(oracle.snapshot().id(), plan.tail().id());
    assert_eq!(oracle.snapshot().record_count(), plan.tail().record_count());
    for slot_index in 0..257 {
        let slot = SlotId::new(&format!("random/{slot_index}"));
        assert_eq!(oracle.snapshot().resolve(&slot), plan.tail().resolve(&slot));
    }
}

#[test]
fn token_vm_materializer_matches_epoch_worlds_across_boundaries() {
    let mut names = IntentNamespaces::new();
    let mut materializer = VmEpochMaterializer::new(1);
    let mut reference_world = Arc::new(World::genesis());
    let mut vm_world = Arc::new(World::genesis());

    for epoch in 0..64_u64 {
        let slot = SlotId::new(&format!("vm/epoch/{epoch}"));
        let fact = Fact::new(
            Atom::Literal(Literal::new("vm")),
            Predicate::new("value"),
            Atom::Literal(Literal::new(&epoch.to_string())),
        );
        let mut define = QueuedIntent::new(names.issue());
        define.expect_absent(slot.clone());
        define.define_fact(slot.clone(), fact.clone());

        let mut dependent = QueuedIntent::new(names.issue());
        dependent.expect_value(slot.clone(), fact);
        dependent.define_fact(
            SlotId::new(&format!("vm/dependent/{epoch}")),
            Fact::new(
                Atom::Literal(Literal::new("dependent")),
                Predicate::new("value"),
                Atom::Literal(Literal::new(&epoch.to_string())),
            ),
        );

        let mut rejected = QueuedIntent::new(names.issue());
        rejected.expect_absent(slot.clone());
        let rejected_entity = rejected.entity();
        rejected.define(
            SlotId::new(&format!("vm/rejected/{epoch}")),
            intent_state_fact(rejected_entity, "never"),
        );

        let mut allocated = QueuedIntent::new(names.issue());
        let entity = allocated.entity();
        allocated.define(
            SlotId::new(&format!("vm/entity/{epoch}")),
            intent_state_fact(entity, &epoch.to_string()),
        );

        let mut intents = vec![define, dependent, rejected, allocated];
        if epoch > 0 && epoch % 3 == 0 {
            let mut forget = QueuedIntent::new(names.issue());
            forget.forget(SlotId::new(&format!("vm/dependent/{}", epoch - 1)));
            intents.push(forget);
        }

        let expected = derive_epoch_world(reference_world, intents.clone(), &[]);
        let (actual, used_vm) = materializer
            .materialize(vm_world, intents, &[])
            .expect("VM epoch materializes");
        assert!(used_vm);
        assert_eq!(actual.frames(), expected.frames(), "epoch {epoch}");
        assert_eq!(actual.tail().id(), expected.tail().id(), "epoch {epoch}");
        assert_eq!(
            actual.tail().next_entity(),
            expected.tail().next_entity(),
            "epoch {epoch}"
        );
        assert_eq!(
            actual.tail().active_slot_count(),
            expected.tail().active_slot_count(),
            "epoch {epoch}"
        );
        assert_eq!(
            actual.tail().record_count(),
            expected.tail().record_count(),
            "epoch {epoch}"
        );
        for (actual, expected) in actual.outcomes().iter().zip(expected.outcomes()) {
            assert_eq!(actual.accepted().is_some(), expected.accepted().is_some());
            if let (Some(actual), Some(expected)) = (actual.accepted(), expected.accepted()) {
                assert_eq!(actual.entities(), expected.entities());
            }
        }
        reference_world = expected.tail();
        vm_world = actual.tail();
    }

    let final_slot = SlotId::new("vm/dependent/63");
    assert_eq!(
        vm_world.resolve(&final_slot),
        reference_world.resolve(&final_slot)
    );
}

#[test]
fn token_vm_fallback_keeps_validator_epochs_in_sync() {
    let mut names = IntentNamespaces::new();
    let mut materializer = VmEpochMaterializer::new(1);
    let base = Arc::new(World::genesis());
    let mut first = QueuedIntent::new(names.issue());
    first.define_fact(
        SlotId::new("vm/validated"),
        state_fact(EntityId::new(7), "ready"),
    );
    let validator = rule(|candidate: &CandidateWorld| {
        candidate
            .resolve(&SlotId::new("vm/validated"))
            .is_some()
            .then_some(())
            .ok_or_else(|| "missing validated state".to_owned())
    });
    let (fallback, used_vm) = materializer
        .materialize(base, vec![first], &[validator])
        .expect("validator fallback materializes");
    assert!(!used_vm);

    let mut dependent = QueuedIntent::new(names.issue());
    dependent.expect_value(
        SlotId::new("vm/validated"),
        state_fact(EntityId::new(7), "ready"),
    );
    dependent.define_fact(
        SlotId::new("vm/after-validator"),
        state_fact(EntityId::new(7), "still-ready"),
    );
    let (actual, used_vm) = materializer
        .materialize(fallback.tail(), vec![dependent.clone()], &[])
        .expect("VM resumes after validator fallback");
    let expected = derive_epoch_world(fallback.tail(), vec![dependent], &[]);
    assert!(used_vm);
    assert_eq!(actual.frames(), expected.frames());
    assert_eq!(actual.tail().id(), expected.tail().id());
}

#[test]
fn global_token_isolation_across_semantic_intents() {
    let mut materializer = VmEpochMaterializer::new(1);
    let base = Arc::new(World::genesis());

    // Intent 1 uses "book/status"
    let ast1 = TransactionAST::new(
        10,
        vec![
            TransactionOp::Allocate {
                result: "b1".to_owned(),
            },
            TransactionOp::Define {
                slot: "book/status".to_owned(),
                subject: AtomRef::Symbol("b1".to_owned()),
                predicate: "is".to_owned(),
                object: AtomRef::Literal("available".to_owned()),
            },
        ],
    );
    let intent1 =
        ControllerIntent::Semantic(SemanticIntent::new(ast1));

    // Intent 2 uses "patron/name"
    let ast2 = TransactionAST::new(
        11,
        vec![
            TransactionOp::Allocate {
                result: "p1".to_owned(),
            },
            TransactionOp::Define {
                slot: "patron/name".to_owned(),
                subject: AtomRef::Symbol("p1".to_owned()),
                predicate: "is".to_owned(),
                object: AtomRef::Literal("alice".to_owned()),
            },
        ],
    );
    let intent2 =
        ControllerIntent::Semantic(SemanticIntent::new(ast2));

    let plan = materializer.materialize_mixed(base.clone(), vec![intent1, intent2], &[]);
    assert_eq!(plan.outcomes().len(), 2);
    assert!(matches!(
        plan.outcomes()[0],
        MixedEpochOutcome::SemanticAccepted(_)
    ));
    assert!(matches!(
        plan.outcomes()[1],
        MixedEpochOutcome::SemanticAccepted(_)
    ));

    // Verify distinct slot tokens in materializer
    let slot_book = materializer.slot_token(&SlotId::new("book/status")).unwrap();
    let slot_patron = materializer.slot_token(&SlotId::new("patron/name")).unwrap();
    assert_ne!(slot_book, slot_patron);

    // Verify resolution in published tail world
    let tail = plan.tail();
    let book_val = tail
        .resolve(&SlotId::new("book/status"))
        .expect("book status resolved");
    let patron_val = tail
        .resolve(&SlotId::new("patron/name"))
        .expect("patron name resolved");
    assert_eq!(book_val.object, Atom::Literal(Literal::new("available")));
    assert_eq!(patron_val.object, Atom::Literal(Literal::new("alice")));
}

#[test]
fn three_intent_mixed_batch_validator_rollback() {
    let mut names = IntentNamespaces::new();
    let mut materializer = VmEpochMaterializer::new(1);
    let base = Arc::new(World::genesis());

    // 1. QueuedIntent defines A ("slot_a" = "val_a")
    let mut intent1 = QueuedIntent::new(names.issue());
    intent1.define_fact(
        SlotId::new("slot_a"),
        state_fact(EntityId::new(10), "val_a"),
    );
    let c_intent1 = ControllerIntent::Queued(intent1);

    // 2. SemanticIntent reads A ("slot_a"), defines B ("slot_b" = "val_b")
    let ast2 = TransactionAST::new(
        20,
        vec![
            TransactionOp::ExpectObject {
                slot: "slot_a".to_owned(),
                expected: AtomRef::Literal("val_a".to_owned()),
            },
            TransactionOp::Allocate {
                result: "b_ent".to_owned(),
            },
            TransactionOp::Define {
                slot: "slot_b".to_owned(),
                subject: AtomRef::Symbol("b_ent".to_owned()),
                predicate: "is".to_owned(),
                object: AtomRef::Literal("val_b".to_owned()),
            },
        ],
    );
    let c_intent2 =
        ControllerIntent::Semantic(SemanticIntent::new(ast2));

    // 3. SemanticIntent defines C ("slot_c_failed" = "val_c")
    let ast3 = TransactionAST::new(
        30,
        vec![
            TransactionOp::Allocate {
                result: "c_ent".to_owned(),
            },
            TransactionOp::Define {
                slot: "slot_c_failed".to_owned(),
                subject: AtomRef::Symbol("c_ent".to_owned()),
                predicate: "is".to_owned(),
                object: AtomRef::Literal("val_c".to_owned()),
            },
        ],
    );
    let c_intent3 =
        ControllerIntent::Semantic(SemanticIntent::new(ast3));

    // Host validator that rejects any candidate world defining "slot_c_failed"
    let validator = rule(|candidate: &CandidateWorld| {
        if candidate.resolve(&SlotId::new("slot_c_failed")).is_some() {
            Err("rejected by host validator".to_owned())
        } else {
            Ok(())
        }
    });

    let allocator_before = materializer.next_entity();
    let plan = materializer.materialize_mixed(
        base.clone(),
        vec![c_intent1, c_intent2, c_intent3],
        &[validator],
    );

    assert_eq!(plan.outcomes().len(), 3);
    assert!(
        matches!(plan.outcomes()[0], MixedEpochOutcome::QueuedAccepted(_)),
        "Intent 1 accepted"
    );
    assert!(
        matches!(plan.outcomes()[1], MixedEpochOutcome::SemanticAccepted(_)),
        "Intent 2 accepted and observed Intent 1"
    );
    assert!(
        matches!(plan.outcomes()[2], MixedEpochOutcome::SemanticRejected(_)),
        "Intent 3 rejected by validator"
    );

    let tail = plan.tail();

    // B observed A
    assert_eq!(
        tail.resolve(&SlotId::new("slot_a")).unwrap().object,
        Atom::Literal(Literal::new("val_a"))
    );
    // B committed
    assert_eq!(
        tail.resolve(&SlotId::new("slot_b")).unwrap().object,
        Atom::Literal(Literal::new("val_b"))
    );
    // C is absent
    assert!(tail.resolve(&SlotId::new("slot_c_failed")).is_none());

    // Vocabulary introduced only by C is absent from materializer dictionary
    assert!(
        materializer.slot_token(&SlotId::new("slot_c_failed"))
            .is_none()
    );

    // Entity allocator is unchanged by C's failed allocation (Intent 2 allocated 1 entity)
    assert_eq!(materializer.next_entity(), allocator_before + 1);
}

#[test]
fn mixed_batch_epoch_contract_and_versioning() {
    let mut materializer = VmEpochMaterializer::new(1);
    let base = Arc::new(World::genesis());
    assert_eq!(base.version(), 0);

    let ast1 = TransactionAST::new(
        100,
        vec![
            TransactionOp::Allocate {
                result: "e1".to_owned(),
            },
            TransactionOp::Define {
                slot: "slot_x".to_owned(),
                subject: AtomRef::Symbol("e1".to_owned()),
                predicate: "is".to_owned(),
                object: AtomRef::Literal("v1".to_owned()),
            },
        ],
    );

    let ast2 = TransactionAST::new(
        101,
        vec![
            TransactionOp::ExpectObject {
                slot: "slot_x".to_owned(),
                expected: AtomRef::Literal("v1".to_owned()),
            },
            TransactionOp::Allocate {
                result: "e2".to_owned(),
            },
            TransactionOp::Define {
                slot: "slot_y".to_owned(),
                subject: AtomRef::Symbol("e2".to_owned()),
                predicate: "is".to_owned(),
                object: AtomRef::Literal("v2".to_owned()),
            },
        ],
    );

    let plan = materializer.materialize_mixed(
        base.clone(),
        vec![
            ControllerIntent::Semantic(SemanticIntent::new(ast1)),
            ControllerIntent::Semantic(SemanticIntent::new(ast2)),
        ],
        &[],
    );

    // 1. Nonempty accepted batch advances version exactly once
    assert_eq!(plan.tail().version(), 1);
    assert_eq!(plan.frames().len(), 1);

    // 2. Both accepted tickets share the exact same tail world ID and version
    let w1 = match &plan.outcomes()[0] {
        MixedEpochOutcome::SemanticAccepted(a) => a.world(),
        _ => panic!("expected semantic accepted"),
    };
    let w2 = match &plan.outcomes()[1] {
        MixedEpochOutcome::SemanticAccepted(a) => a.world(),
        _ => panic!("expected semantic accepted"),
    };
    assert_eq!(w1.id(), w2.id());
    assert_eq!(w1.version(), 1);
    assert_eq!(w2.version(), 1);

    // 3. Precondition in intent 2 saw intent 1's state
    assert_eq!(
        w2.resolve(&SlotId::new("slot_y")).unwrap().object,
        Atom::Literal(Literal::new("v2"))
    );

    // 4. All-rejected batch advances version by 0 and entity allocator by 0
    let ast_bad = TransactionAST::new(
        102,
        vec![TransactionOp::ExpectObject {
            slot: "slot_x".to_owned(),
            expected: AtomRef::Literal("nonexistent".to_owned()),
        }],
    );

    let next_ent_before = materializer.next_entity();
    let plan_bad = materializer.materialize_mixed(
        plan.tail(),
        vec![ControllerIntent::Semantic(
            SemanticIntent::new(ast_bad),
        )],
        &[],
    );

    assert_eq!(plan_bad.tail().version(), 1);
    assert_eq!(plan_bad.frames().len(), 0);
    assert_eq!(materializer.next_entity(), next_ent_before);
}

#[test]
fn non_genesis_bootstrap_semantic_intent() {
    let mut db = Database::new(MemoryCommitStore::new()).unwrap();
    let mut tx = Transaction::new(db.snapshot());
    let e_existing = tx.entity();
    tx.define(
        SlotId::new("existing/slot"),
        Fact::new(
            Atom::Entity(e_existing),
            Predicate::new("has"),
            Atom::Literal(Literal::new("value1")),
        ),
    );
    let base_world = db.commit(tx).unwrap();
    assert!(base_world.version() > 0);

    let mut materializer = VmEpochMaterializer::new(1);
    materializer.synchronize_to(&base_world).unwrap();

    let ast = TransactionAST::new(
        500,
        vec![
            TransactionOp::ExpectObject {
                slot: "existing/slot".to_owned(),
                expected: AtomRef::Literal("value1".to_owned()),
            },
            TransactionOp::Allocate {
                result: "new_ent".to_owned(),
            },
            TransactionOp::Define {
                slot: "existing/slot".to_owned(),
                subject: AtomRef::Symbol("new_ent".to_owned()),
                predicate: "has".to_owned(),
                object: AtomRef::Literal("value2".to_owned()),
            },
        ],
    );

    let plan = materializer.materialize_mixed(
        base_world.clone(),
        vec![ControllerIntent::Semantic(
            SemanticIntent::new(ast),
        )],
        &[],
    );

    assert_eq!(plan.outcomes().len(), 1);
    assert!(matches!(
        plan.outcomes()[0],
        MixedEpochOutcome::SemanticAccepted(_)
    ));
    let tail = plan.tail();
    let updated = tail.resolve(&SlotId::new("existing/slot")).unwrap();
    assert_eq!(updated.object, Atom::Literal(Literal::new("value2")));
}

#[test]
fn strict_commit_between_controller_batches() {
    let mut db = Database::new(MemoryCommitStore::new()).unwrap();
    let mut materializer = VmEpochMaterializer::new(1);

    // Batch A
    let ast_a = TransactionAST::new(
        1,
        vec![
            TransactionOp::Allocate {
                result: "a".to_owned(),
            },
            TransactionOp::Define {
                slot: "batch_a/slot".to_owned(),
                subject: AtomRef::Symbol("a".to_owned()),
                predicate: "is".to_owned(),
                object: AtomRef::Literal("alpha".to_owned()),
            },
        ],
    );
    let plan_a = db.commit_mixed_epoch(
        vec![ControllerIntent::Semantic(
            SemanticIntent::new(ast_a),
        )],
        &mut materializer,
    );
    assert_eq!(plan_a.tail().version(), 1);

    // Strict commit without allocating an entity
    let mut tx_strict = Transaction::new(db.snapshot());
    tx_strict.define(
        SlotId::new("strict/slot"),
        Fact::new(
            Atom::Entity(EntityId::new(1)),
            Predicate::new("is"),
            Atom::Literal(Literal::new("strict_val")),
        ),
    );
    let strict_world = db.commit(tx_strict).unwrap();
    assert_eq!(strict_world.version(), 2);

    // Batch B must observe strict commit after synchronize_to
    materializer.synchronize_to(&db.snapshot()).unwrap();
    let ast_b = TransactionAST::new(
        2,
        vec![
            TransactionOp::ExpectObject {
                slot: "strict/slot".to_owned(),
                expected: AtomRef::Literal("strict_val".to_owned()),
            },
            TransactionOp::Define {
                slot: "batch_b/slot".to_owned(),
                subject: AtomRef::Entity(EntityId(1)),
                predicate: "is".to_owned(),
                object: AtomRef::Literal("beta".to_owned()),
            },
        ],
    );
    let plan_b = db.commit_mixed_epoch(
        vec![ControllerIntent::Semantic(
            SemanticIntent::new(ast_b),
        )],
        &mut materializer,
    );

    assert_eq!(plan_b.outcomes().len(), 1);
    assert!(matches!(
        plan_b.outcomes()[0],
        MixedEpochOutcome::SemanticAccepted(_)
    ));
    assert_eq!(plan_b.tail().version(), 3);
}

#[test]
fn mapped_base_vocabulary_isolation() {
    let file = SharedFile::new(&[]);
    let world_snap = {
        let mut db = Database::new(FileCommitStore::open(file.clone()).unwrap()).unwrap();
        let mut tx = Transaction::new(db.snapshot());
        let e = tx.entity();
        tx.define(
            SlotId::new("mapped/slot"),
            Fact::new(
                Atom::Entity(e),
                Predicate::new("p_mapped"),
                Atom::Literal(Literal::new("l_mapped")),
            ),
        );
        db.commit(tx).unwrap()
    };

    let bytes = file.bytes();
    let (snapshot, _) = create_snapshot(&bytes, 1, &world_snap).unwrap();

    let mmap_snapshot = MmapVmSnapshot::open(&snapshot, &bytes).unwrap();
    assert!(mmap_snapshot.has_history());
    let mut materializer = VmEpochMaterializer::from_mmap(&mmap_snapshot).unwrap();
    let base = Arc::new(World::from_mmap(&mmap_snapshot).unwrap());

    // 1. Live committed slot
    let ast_live = TransactionAST::new(
        10,
        vec![
            TransactionOp::Allocate {
                result: "e1".to_owned(),
            },
            TransactionOp::Define {
                slot: "live/slot".to_owned(),
                subject: AtomRef::Symbol("e1".to_owned()),
                predicate: "p_live".to_owned(),
                object: AtomRef::Literal("l_live".to_owned()),
            },
        ],
    );
    let plan_live = materializer.materialize_mixed(
        base.clone(),
        vec![ControllerIntent::Semantic(
            SemanticIntent::new(ast_live),
        )],
        &[],
    );
    assert!(matches!(
        plan_live.outcomes()[0],
        MixedEpochOutcome::SemanticAccepted(_)
    ));

    // 2. Rejected intent proposing 3rd slot
    let ast_rejected = TransactionAST::new(
        11,
        vec![
            TransactionOp::ExpectObject {
                slot: "mapped/slot".to_owned(),
                expected: AtomRef::Literal("nonexistent".to_owned()),
            },
            TransactionOp::Define {
                slot: "rejected/slot".to_owned(),
                subject: AtomRef::Literal("sub".to_owned()),
                predicate: "p_rejected".to_owned(),
                object: AtomRef::Literal("l_rejected".to_owned()),
            },
        ],
    );
    let plan_rej = materializer.materialize_mixed(
        plan_live.tail(),
        vec![ControllerIntent::Semantic(
            SemanticIntent::new(ast_rejected),
        )],
        &[],
    );
    assert!(matches!(
        plan_rej.outcomes()[0],
        MixedEpochOutcome::SemanticRejected(_)
    ));

    // Verify vocabulary isolation:
    assert!(
        mmap_snapshot
            .slot_token("mapped/slot")
            .is_some()
    );
    assert!(materializer.knows_slot(&SlotId::new("live/slot")));
    assert!(
        !materializer.knows_slot(&SlotId::new("rejected/slot"))
    );
    assert!(
        mmap_snapshot
            .slot_token("rejected/slot")
            .is_none()
    );

}

#[test]
fn randomized_mixed_epoch_differential_fuzzer() {
    let mut names = IntentNamespaces::new();
    let mut materializer = VmEpochMaterializer::new(1);
    let mut current_world = Arc::new(World::genesis());
    let mut seed = 0x9E3779B97F4A7C15u64;

    let mut next_prng = || {
        seed = seed
            .wrapping_mul(6364136223846793005)
            .wrapping_add(1442695040888963407);
        seed
    };

    for batch_idx in 0..50 {
        let intent_count = (next_prng() % 8 + 1) as usize;
        let mut intents = Vec::with_capacity(intent_count);
        let mut expected_queued = Vec::with_capacity(intent_count);

        for i in 0..intent_count {
            let is_semantic = (next_prng() % 2) == 0;
            let is_valid = (next_prng() % 4) != 0; // 75% valid, 25% invalid

            let slot_name = format!("fuzz_slot_{}", (next_prng() % 5));
            let val_name = if is_valid {
                format!("val_{}_{i}", batch_idx)
            } else {
                "invalid_expected_val".to_owned()
            };

            if is_semantic {
                let mut ops = Vec::new();
                if !is_valid {
                    ops.push(TransactionOp::ExpectObject {
                        slot: slot_name.clone(),
                        expected: AtomRef::Literal("definitely_nonexistent_val".to_owned()),
                    });
                }
                ops.push(TransactionOp::Allocate {
                    result: "sym1".to_owned(),
                });
                ops.push(TransactionOp::Define {
                    slot: slot_name,
                    subject: AtomRef::Symbol("sym1".to_owned()),
                    predicate: "is".to_owned(),
                    object: AtomRef::Literal(val_name),
                });
                let ast = TransactionAST::new(batch_idx * 100 + i as u64, ops);
                intents.push(ControllerIntent::Semantic(
                    SemanticIntent::new(ast),
                ));
            } else {
                let mut q = QueuedIntent::new(names.issue());
                if !is_valid {
                    q.expect_value(
                        SlotId::new(&slot_name),
                        state_fact(EntityId::new(99999), "bad"),
                    );
                }
                let temp = q.entity();
                q.define(
                    SlotId::new(&slot_name),
                    IntentFact {
                        subject: IntentAtom::Temporary(temp),
                        predicate: Predicate::new("is"),
                        object: IntentAtom::Literal(Literal::new(&val_name)),
                    },
                );
                expected_queued.push(q.clone());
                intents.push(ControllerIntent::Queued(q));
            }
        }

        let mixed_plan = materializer.materialize_mixed(current_world.clone(), intents, &[]);
        current_world = mixed_plan.tail();
    }

    assert!(current_world.version() > 0);
}

#[test]
fn duplicate_symbols_are_refused_as_validators_see_them() {
    let base = Arc::new(World::genesis());
    let twice = || {
        let allocate = || TransactionOp::Allocate { result: "twin".to_owned() };
        ControllerIntent::Semantic(SemanticIntent::new(TransactionAST::new(
            1,
            vec![allocate(), allocate()],
        )))
    };
    let mut materializer = VmEpochMaterializer::new(1);
    let plan = materializer.materialize_mixed(base.clone(), vec![twice()], &[]);
    match &plan.outcomes()[0] {
        MixedEpochOutcome::SemanticRejected(rejected) => {
            assert!(matches!(rejected.error(), SemanticTicketRejection::Lowering(_)));
        }
        _ => panic!("a symbol stands for one entity"),
    }
    let mut materializer = VmEpochMaterializer::new(1);
    let plan = materializer.materialize_mixed(base, vec![twice()], &[rule(|_| Ok(()))]);
    match &plan.outcomes()[0] {
        MixedEpochOutcome::SemanticRejected(rejected) => assert!(matches!(
            rejected.error(),
            SemanticTicketRejection::Validation(reason) if reason
                == "candidate error: AllocatorOperationMismatch { expected: 1, actual: 2 }"
        )),
        _ => panic!("a symbol stands for one entity"),
    }
}

#[test]
fn high_entities_are_not_taken_for_literals() {
    let high = EntityId(1 << 63);
    let define = |slot: &str, object: AtomRef| TransactionOp::Define {
        slot: slot.to_owned(),
        subject: AtomRef::Entity(high),
        predicate: "is".to_owned(),
        object,
    };
    let semantic = |operations: Vec<TransactionOp>| {
        ControllerIntent::Semantic(SemanticIntent::new(TransactionAST::new(1, operations)))
    };
    let expect = |slot: &str, expected: AtomRef| TransactionOp::ExpectObject {
        slot: slot.to_owned(),
        expected,
    };
    let base = Arc::new(World::genesis());
    let mut materializer = VmEpochMaterializer::new(1);
    let plan = materializer.materialize_mixed(
        base,
        vec![
            semantic(vec![
                define("literal", AtomRef::Literal("first".to_owned())),
                define("entity", AtomRef::Entity(high)),
            ]),
            semantic(vec![expect("entity", AtomRef::Entity(high))]),
            semantic(vec![expect("entity", AtomRef::Literal("first".to_owned()))]),
        ],
        &[],
    );
    assert!(matches!(plan.outcomes()[0], MixedEpochOutcome::SemanticAccepted(_)));
    assert!(matches!(plan.outcomes()[1], MixedEpochOutcome::SemanticAccepted(_)));
    assert!(matches!(plan.outcomes()[2], MixedEpochOutcome::SemanticRejected(_)));
    let tail = plan.tail();
    let held = tail.resolve(&SlotId::new("entity")).expect("slot is defined");
    assert_eq!(held.subject, Atom::Entity(high));
    assert_eq!(held.object, Atom::Entity(high));
}

#[test]
fn validators_judge_before_symbols_are_checked() {
    let early = || {
        ControllerIntent::Semantic(SemanticIntent::new(TransactionAST::new(
            1,
            vec![
                TransactionOp::Define {
                    slot: "early".to_owned(),
                    subject: AtomRef::Symbol("late".to_owned()),
                    predicate: "is".to_owned(),
                    object: AtomRef::Literal("x".to_owned()),
                },
                TransactionOp::Allocate { result: "late".to_owned() },
            ],
        )))
    };
    let base = Arc::new(World::genesis());
    let refuse = rule(|candidate: &CandidateWorld| {
        let held = candidate.resolve(&SlotId::new("early")).expect("slot is defined");
        assert_eq!(held.subject, Atom::Entity(EntityId::new(1)));
        Err("reserved".to_owned())
    });
    let mut materializer = VmEpochMaterializer::new(1);
    let plan = materializer.materialize_mixed(base.clone(), vec![early()], &[refuse]);
    match &plan.outcomes()[0] {
        MixedEpochOutcome::SemanticRejected(rejected) => assert!(matches!(
            rejected.error(),
            SemanticTicketRejection::Validation(reason) if reason == "reserved"
        )),
        _ => panic!("the validator refuses"),
    }
    for rules in [vec![], vec![rule(|_: &CandidateWorld| Ok(()))]] {
        let mut materializer = VmEpochMaterializer::new(1);
        let plan = materializer.materialize_mixed(base.clone(), vec![early()], &rules);
        match &plan.outcomes()[0] {
            MixedEpochOutcome::SemanticRejected(rejected) => assert!(matches!(
                rejected.error(),
                SemanticTicketRejection::Lowering(reason)
                    if reason == "use of undefined symbol 'late'"
            )),
            _ => panic!("the symbol is not allocated yet"),
        }
    }
}

#[test]
fn rejected_mixed_epochs_leave_no_trace() {
    let base = Arc::new(World::genesis());
    let accept = || {
        ControllerIntent::Semantic(SemanticIntent::new(TransactionAST::new(
            1,
            vec![TransactionOp::Allocate { result: "one".to_owned() }],
        )))
    };
    let reject = ControllerIntent::Semantic(SemanticIntent::new(TransactionAST::new(
        2,
        vec![
            TransactionOp::Allocate { result: "gone".to_owned() },
            TransactionOp::Reject,
        ],
    )));
    let mut tried = VmEpochMaterializer::new(1);
    let nothing = tried.materialize_mixed(base.clone(), vec![reject], &[]);
    assert!(nothing.frames().is_empty());
    assert_eq!(nothing.tail().id(), base.id());
    assert_eq!(tried.next_entity(), 1);
    let mut fresh = VmEpochMaterializer::new(1);
    let after = tried.materialize_mixed(base.clone(), vec![accept()], &[]);
    let first = fresh.materialize_mixed(base, vec![accept()], &[]);
    assert_eq!(after.tail().id(), first.tail().id());
    assert_eq!(after.frames(), first.frames());

    let world = first.tail();
    let machine = VmEpochMaterializer::from_world(&world).expect("history compiles");
    assert_eq!(machine.next_entity(), world.next_entity());
}
