use forthdb_world::{
    Atom, CandidateWorld, CommitError, CommitFrame, CommitStore, Database, EntityId, Fact, Literal,
    MemoryCommitStore, Predicate, Rule, SlotId, Validator, WorldId,
};
use std::sync::Arc;

fn state_fact(entity: EntityId, value: &str) -> Fact {
    Fact::new(
        Atom::Entity(entity),
        Predicate::new("state"),
        Atom::Literal(Literal::new(value)),
    )
}

struct RequireSlot(SlotId);

impl Validator for RequireSlot {
    fn validate(&self, candidate: &CandidateWorld) -> Result<(), String> {
        candidate
            .resolve(&self.0)
            .map(|_| ())
            .ok_or_else(|| "release requires approval".to_owned())
    }
}

#[test]
fn commit_publishes_complete_successor_and_preserves_old_snapshot() {
    let mut database = Database::new(MemoryCommitStore::new()).expect("empty store is valid");
    let old = database.snapshot();
    let mut transaction = database.begin();
    let entity = transaction.entity();
    let state = SlotId::new("service/state");
    let owner = SlotId::new("service/owner");
    transaction.define(state.clone(), state_fact(entity, "ready"));
    transaction.define(
        owner.clone(),
        Fact::new(
            Atom::Entity(entity),
            Predicate::new("owner"),
            Atom::Literal(Literal::new("operations")),
        ),
    );

    let candidate = transaction.candidate().expect("candidate should build");
    assert!(candidate.resolve(&state).is_some());
    assert!(candidate.resolve(&owner).is_some());
    assert!(old.resolve(&state).is_none());
    assert!(old.resolve(&owner).is_none());

    let current = database.commit(transaction).expect("commit should publish");
    assert_eq!(current.version(), 1);
    assert!(current.resolve(&state).is_some());
    assert!(current.resolve(&owner).is_some());
    assert!(old.resolve(&state).is_none());
    assert_eq!(database.frame_count(), 1);
}

#[test]
fn validator_rejection_appends_nothing_and_publishes_nothing() {
    let mut database = Database::new(MemoryCommitStore::new()).expect("empty store is valid");
    let required = SlotId::new("release/approval");
    database.register_validator(Rule(Arc::new(RequireSlot(required.clone()))));

    let transaction = database.begin();
    let error = match database.commit(transaction) {
        Ok(_) => panic!("validator should reject missing approval"),
        Err(error) => error,
    };
    assert!(matches!(error, CommitError::Validation(_)));
    assert_eq!(database.snapshot().version(), 0);
    assert_eq!(database.frame_count(), 0);

    let mut approved = database.begin();
    approved.define(
        required.clone(),
        Fact::new(
            Atom::Literal(Literal::new("release")),
            Predicate::new("approved_by"),
            Atom::Literal(Literal::new("operator")),
        ),
    );
    database.commit(approved).expect("approved release commits");
    assert_eq!(database.snapshot().version(), 1);
    assert_eq!(database.frame_count(), 1);
}

#[test]
fn stale_writer_aborts_without_extending_history() {
    let mut database = Database::new(MemoryCommitStore::new()).expect("empty store is valid");
    let mut first = database.begin();
    let mut stale = database.begin();
    let first_entity = first.entity();
    let stale_entity = stale.entity();
    first.define(
        SlotId::new("winner/state"),
        state_fact(first_entity, "committed"),
    );
    stale.define(
        SlotId::new("stale/state"),
        state_fact(stale_entity, "discarded"),
    );

    database.commit(first).expect("first writer commits");
    let error = match database.commit(stale) {
        Ok(_) => panic!("stale writer must abort"),
        Err(error) => error,
    };
    assert!(matches!(error, CommitError::StaleTransaction { .. }));
    assert_eq!(database.snapshot().version(), 1);
    assert_eq!(database.frame_count(), 1);
}

#[test]
fn define_and_forget_preserve_historical_truth() {
    let mut database = Database::new(MemoryCommitStore::new()).expect("empty store is valid");
    let slot = SlotId::new("service/state");

    let mut initial = database.begin();
    let entity = initial.entity();
    initial.define(slot.clone(), state_fact(entity, "v1"));
    database.commit(initial).expect("initial world commits");

    let mut update = database.begin();
    update.define(slot.clone(), state_fact(entity, "v2"));
    update.forget(slot.clone());
    let candidate = match update.candidate() {
        Ok(candidate) => candidate,
        Err(_) => panic!("candidate should read staged writes"),
    };
    assert_eq!(
        candidate.resolve(&slot).map(|fact| &fact.object),
        Some(&Atom::Literal(Literal::new("v1")))
    );
    let world = database.commit(update).expect("forget world commits");
    assert_eq!(world.definitions(&slot).len(), 1);
    assert_eq!(world.record_count(), 3);
}

#[test]
fn identical_histories_produce_identical_frames_and_world_ids() {
    fn run() -> (WorldId, Vec<Arc<CommitFrame>>) {
        let mut database = Database::new(MemoryCommitStore::new()).expect("empty store is valid");
        let mut transaction = database.begin();
        let entity = transaction.entity();
        transaction.define(
            SlotId::new("deterministic/state"),
            state_fact(entity, "ready"),
        );
        let world = database.commit(transaction).expect("commit succeeds");
        (world.id(), database.frames())
    }

    let first = run();
    let second = run();
    assert_eq!(first.0, second.0);
    assert_eq!(first.1, second.1);
}

#[test]
fn a_database_reconstructs_the_latest_world_from_memory_store_frames() {
    let mut database = Database::new(MemoryCommitStore::new()).expect("empty store is valid");
    let mut transaction = database.begin();
    let entity = transaction.entity();
    let slot = SlotId::new("reconstructed/state");
    transaction.define(slot.clone(), state_fact(entity, "ready"));
    let committed = database.commit(transaction).expect("commit succeeds");

    let mut store = MemoryCommitStore::new();
    for frame in database.frames() {
        store.append(frame).expect("memory append is infallible");
    }
    let reopened = Database::new(store).expect("memory history reconstructs");
    assert_eq!(reopened.snapshot().id(), committed.id());
    assert_eq!(reopened.snapshot().version(), committed.version());
    assert!(reopened.snapshot().resolve(&slot).is_some());
}
