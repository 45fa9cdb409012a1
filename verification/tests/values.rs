use forthdb_world::{
    calculate_world_id, decode_payload, derive_epoch, describe_vm_fault, digest, digest_extend,
    encode_payload, encode_record, frame_payload, Atom, AtomRef, CandidateError, CandidateWorld,
    CommitError, CommitFrame, ControllerIntent, Database, DurableTicketRejection, EntityId, Fact,
    FileCommitStoreError, IntentFact, IntentNamespaces, IntentRejection, IoFault,
    IoUringCommitStoreError, Literal, MemoryCommitStore, MixedEpochOutcome, Operation,
    PayloadFault, Predicate, QueuedIntent, SemanticIntent, SemanticTicketRejection, SlotId,
    TicketRejection, TransactionAST, TransactionOp, VmEpochMaterializer, VmFault, World, WorldId,
};
use std::sync::Arc;

fn name_fact() -> Fact {
    Fact::new(
        Atom::Entity(EntityId::new(1)),
        Predicate::new("name"),
        Atom::Literal(Literal::new("Ada")),
    )
}

#[test]
fn digests_are_fnv() {
    assert_eq!(digest(b""), 0xcbf29ce484222325);
    assert_eq!(digest(b"a"), 0xaf63dc4c8601ec8c);
    assert_eq!(digest(b"foobar"), 0x85944171f73967e8);
    assert_eq!(digest_extend(digest(b"foo"), b"bar"), digest(b"foobar"));
}

#[test]
fn world_identities_have_exact_values() {
    assert_eq!(WorldId::genesis().value(), 0xcbf29ce484222325);
    assert_eq!(WorldId::genesis().describe(), "World_cbf29ce484222325");
    assert_eq!(
        calculate_world_id(WorldId::genesis(), 1, 1, &[]).value(),
        0x436552af3bf61c6c
    );
    let operations = [
        Operation::AllocateEntity { entity: EntityId::new(1) },
        Operation::Define { slot: SlotId::new("user/name"), fact: name_fact() },
        Operation::Forget { slot: SlotId::new("user/name") },
    ];
    assert_eq!(
        calculate_world_id(WorldId::genesis(), 1, 2, &operations).value(),
        0xaa6e70bccd51d9d8
    );
}

fn empty_frame() -> Arc<CommitFrame> {
    let mut database = Database::new(MemoryCommitStore::new()).expect("genesis valid");
    let transaction = database.begin();
    database.commit(transaction).expect("empty commit");
    database.frames().pop().expect("one frame")
}

#[test]
fn records_have_exact_bytes() {
    let frame = empty_frame();
    assert_eq!(frame.resulting_world().value(), 0x436552af3bf61c6c);
    assert_eq!(frame.resulting_allocator(), 1);
    let record = encode_record(&frame).expect("record encodes");
    assert_eq!(record.len(), 72);
    assert_eq!(digest(&record), 0x9763ddac9fdca9d);
    assert_eq!(record, frame_payload(&encode_payload(&frame)));
    let decoded = decode_payload(&encode_payload(&frame)).expect("payload decodes");
    assert_eq!(decoded, *frame);
}

fn tampered(offset: usize, value: u64) -> CommitFrame {
    let mut payload = encode_payload(&empty_frame());
    payload[offset..offset + 8].copy_from_slice(&value.to_le_bytes());
    match decode_payload(&payload) {
        Ok(frame) => frame,
        Err(_) => panic!("payload has the right form"),
    }
}

fn refusal(frame: CommitFrame) -> CandidateError {
    match World::reconstruct(&[Arc::new(frame)]) {
        Ok(_) => panic!("history is refused"),
        Err(error) => error,
    }
}

#[test]
fn broken_histories_say_what_is_wrong() {
    let error = refusal(tampered(0, 5));
    assert!(matches!(error, CandidateError::HistoryParentMismatch { .. }));
    assert_eq!(
        error.describe(),
        "commit history expected parent World_cbf29ce484222325, found World_0000000000000005"
    );
    let error = refusal(tampered(16, 9));
    assert!(matches!(
        error,
        CandidateError::HistoryVersionMismatch { expected: 0, actual: 9 }
    ));
    assert_eq!(
        error.describe(),
        "commit history expected parent version 0, found 9"
    );
    let error = refusal(tampered(32, 7));
    assert!(matches!(
        error,
        CandidateError::AllocatorStateMismatch { expected: 7, actual: 1 }
    ));
    let error = refusal(tampered(8, 7));
    assert!(matches!(error, CandidateError::WorldIdentityMismatch { .. }));
    let error = match CandidateWorld::construct(
        &World::genesis(),
        vec![Operation::AllocateEntity { entity: EntityId::new(4) }],
    ) {
        Ok(_) => panic!("identities are handed out in order"),
        Err(error) => error,
    };
    assert!(matches!(
        error,
        CandidateError::AllocatorOperationMismatch { expected: 1, actual: 4 }
    ));
    assert_eq!(
        error.describe(),
        "entity allocation expected identifier 1, found 4"
    );
}

#[test]
fn payloads_that_are_not_frames_are_refused() {
    let payload = encode_payload(&empty_frame());
    assert!(matches!(
        decode_payload(&payload[..payload.len() - 1]),
        Err(PayloadFault::UnexpectedEnd { .. })
    ));
    let mut longer = payload.clone();
    longer.push(0);
    assert!(matches!(
        decode_payload(&longer),
        Err(PayloadFault::TrailingBytes { .. })
    ));
    let mut counted = payload.clone();
    counted[40] = 1;
    counted.push(9);
    assert!(matches!(
        decode_payload(&counted),
        Err(PayloadFault::UnknownOperation { tag: 9 })
    ));
    let mut named = payload.clone();
    named[40] = 1;
    named.push(2);
    named.extend_from_slice(&1u64.to_le_bytes());
    named.push(0xff);
    assert!(matches!(
        decode_payload(&named),
        Err(PayloadFault::InvalidText { .. })
    ));
    let mut many = payload.clone();
    many[40..48].copy_from_slice(&1_000_001u64.to_le_bytes());
    assert!(matches!(
        decode_payload(&many),
        Err(PayloadFault::TooManyOperations { count: 1_000_001 })
    ));
    let mut accents = payload;
    accents[40] = 1;
    accents.push(2);
    let name = "\u{e9}t\u{e9}";
    accents.extend_from_slice(&(name.len() as u64).to_le_bytes());
    accents.extend_from_slice(name.as_bytes());
    let frame = match decode_payload(&accents) {
        Ok(frame) => frame,
        Err(_) => panic!("names may hold any character"),
    };
    assert_eq!(frame.operations(), [Operation::Forget { slot: SlotId::new(name) }]);
}

#[test]
fn commit_errors_say_what_is_wrong() {
    let stale: CommitError<String> = CommitError::StaleTransaction {
        based_on: WorldId::new(1),
        current: WorldId::new(2),
    };
    assert_eq!(
        stale.describe(""),
        "transaction is based on stale world World_0000000000000001; current world is World_0000000000000002"
    );
    let refused: CommitError<String> = CommitError::Validation("no".to_owned());
    assert_eq!(refused.describe(""), "candidate validation failed: no");
    let lost: CommitError<String> = CommitError::Store("disk".to_owned());
    assert_eq!(lost.describe("disk is full"), "commit store append failed: disk is full");
    let broken: CommitError<String> =
        CommitError::Candidate(CandidateError::KernelInvariant("odd".to_owned()));
    assert_eq!(
        broken.describe(""),
        "candidate construction failed: candidate violates kernel invariants: odd"
    );
}

#[test]
fn ring_errors_say_what_is_wrong() {
    for (error, expected) in [
        (
            IoUringCommitStoreError::UnsupportedPlatform,
            "IoUringCommitStore is supported only on Linux",
        ),
        (
            IoUringCommitStoreError::Recovery(FileCommitStoreError::UnsupportedFormat(3)),
            "io_uring store recovery failed: unsupported ForthDB file format version 3",
        ),
        (
            IoUringCommitStoreError::Io(IoFault { code: None, message: "gone".to_owned() }),
            "io_uring store I/O failed: gone",
        ),
        (
            IoUringCommitStoreError::QueueFull,
            "io_uring submission queue could not accept a commit",
        ),
        (
            IoUringCommitStoreError::MissingCompletion("write"),
            "io_uring did not return the write completion",
        ),
        (
            IoUringCommitStoreError::OperationFailed { operation: "write", error: 5 },
            "io_uring write failed: system words",
        ),
        (
            IoUringCommitStoreError::UnexpectedCompletion { operation: "write", result: -12 },
            "io_uring write returned unexpected result -12",
        ),
        (
            IoUringCommitStoreError::ShortWrite { expected: 10, actual: 9 },
            "io_uring write completed only 9 of 10 bytes",
        ),
        (
            IoUringCommitStoreError::NonLinearAppend("gap".to_owned()),
            "nonlinear commit append: gap",
        ),
        (
            IoUringCommitStoreError::FrameTooLarge(77),
            "encoded frame record is 77 bytes and cannot be submitted as one io_uring write",
        ),
    ] {
        assert_eq!(error.describe("system words"), expected);
    }
}

#[test]
fn refusals_say_what_is_wrong() {
    let mut names = IntentNamespaces::new();
    let mut stale = QueuedIntent::new(names.issue());
    stale.expect_world(WorldId::new(7));
    let mut other = QueuedIntent::new(names.issue());
    let foreign = other.entity();
    let mut borrowing = QueuedIntent::new(names.issue());
    borrowing.define(
        SlotId::new("borrowed"),
        IntentFact::new(foreign, Predicate::new("name"), Literal::new("x")),
    );
    let plan = derive_epoch(Arc::new(World::genesis()), vec![stale, borrowing], &[]);
    let first = plan.outcomes()[0].rejected().expect("rejected").error();
    assert_eq!(
        first.describe(),
        "queued intent expected predecessor World_0000000000000007, found World_cbf29ce484222325"
    );
    assert_eq!(
        TicketRejection::from_intent_rejection(first).describe(),
        "world precondition mismatch: expected WorldId(7), actual WorldId(14695981039346656037)"
    );
    let second = plan.outcomes()[1].rejected().expect("rejected").error();
    assert!(matches!(second, IntentRejection::UnknownTemporaryEntity(_)));
    assert_eq!(
        DurableTicketRejection::from_intent(second).describe(),
        "queued intent referenced temporary entity 0 from another scope or before allocation"
    );
    assert_eq!(
        TicketRejection::from_intent_rejection(second).describe(),
        "unknown temporary entity: TempEntity { namespace: 2, index: 0 }"
    );
    let refused = IntentRejection::Validation("no".to_owned());
    assert_eq!(
        refused.describe(),
        "queued candidate validation failed: no"
    );
    let slot = IntentRejection::SlotPrecondition {
        slot: SlotId::new("a \"b\""),
        expected: None,
        actual: Some(Fact::new(
            Atom::Entity(EntityId::new(3)),
            Predicate::new("name"),
            Atom::Literal(Literal::new("Ada\n")),
        )),
    };
    assert_eq!(
        slot.describe(),
        "queued intent slot precondition failed for SlotId(\"a \\\"b\\\"\"): expected None, found \
         Some(Fact { subject: Entity(EntityId(3)), predicate: Predicate(\"name\"), object: \
         Literal(Literal(\"Ada\\n\")) })"
    );
    assert!(TicketRejection::from_intent_rejection(&slot)
        .describe()
        .starts_with("slot precondition mismatch on SlotId(\"a \\\"b\\\"\"): expected None, actual Some("));
}

#[test]
fn semantic_transactions_are_refused_for_their_symbols_and_guards() {
    let mut machine = VmEpochMaterializer::new(1);
    let unknown = TransactionAST::new(
        1,
        vec![TransactionOp::Define {
            slot: "s".to_owned(),
            subject: AtomRef::Symbol("nobody".to_owned()),
            predicate: "p".to_owned(),
            object: AtomRef::Literal("o".to_owned()),
        }],
    );
    let rejecting = TransactionAST::new(2, vec![TransactionOp::Reject]);
    let plan = machine.materialize_mixed(
        Arc::new(World::genesis()),
        vec![
            ControllerIntent::Semantic(SemanticIntent::new(unknown)),
            ControllerIntent::Semantic(SemanticIntent::new(rejecting)),
        ],
        &[],
    );
    assert!(plan.is_empty());
    match &plan.outcomes()[0] {
        MixedEpochOutcome::SemanticRejected(rejected) => {
            assert!(matches!(rejected.error(), SemanticTicketRejection::Lowering(_)));
        }
        _ => panic!("the symbol is unknown"),
    }
    match &plan.outcomes()[1] {
        MixedEpochOutcome::SemanticRejected(rejected) => {
            assert!(matches!(rejected.error(), SemanticTicketRejection::Validation(_)));
        }
        _ => panic!("the transaction rejects itself"),
    }
    assert_eq!(describe_vm_fault(VmFault::ExpectationFailed), "ExpectationFailed");
}
