use forthdb_world::{
    create_snapshot, encode_header, encode_record, Atom, Binding, BoundValue, CandidateWorld,
    Database, EntityId, Fact, IntentFact, Literal, MemoryCommitStore, MmapVmSnapshot, Operation,
    Pattern, Predicate, PredicateTerm, QueryOptions, QueuedIntent, SlotId, Symbol, Term, Variable,
    VmEpochMaterializer, World,
};
use std::sync::Arc;

fn variable(name: &str) -> Variable {
    Variable::new(name)
}

fn journal_of(world: &World) -> Vec<u8> {
    let mut bytes = encode_header();
    for frame in world.frames() {
        bytes.extend_from_slice(&encode_record(&frame).expect("record encodes"));
    }
    bytes
}

fn mapped(world: &World) -> MmapVmSnapshot {
    let journal = journal_of(world);
    let (bytes, metadata) = create_snapshot(&journal, 1, world).expect("snapshot is made");
    assert_eq!(metadata.journal_offset, journal.len() as u64);
    assert_eq!(metadata.snapshot_bytes, bytes.len() as u64);
    MmapVmSnapshot::open(&bytes, &journal).expect("snapshot opens")
}

#[test]
fn vm_root_queries_match_the_legacy_kernel_without_materializing_it() {
    let base = Arc::new(World::genesis());
    let first = EntityId::new(1);
    let second = EntityId::new(2);
    let first_kind = Fact::new(
        Atom::Entity(first),
        Predicate::new("kind"),
        Atom::Literal(Literal::new("book")),
    );
    let operations = vec![
        Operation::AllocateEntity { entity: first },
        Operation::AllocateEntity { entity: second },
        Operation::Define {
            slot: SlotId::new("book/1/kind"),
            fact: first_kind.clone(),
        },
        Operation::Define {
            slot: SlotId::new("book/1/kind/alias"),
            fact: first_kind.clone(),
        },
        Operation::Define {
            slot: SlotId::new("book/2/kind"),
            fact: Fact::new(
                Atom::Entity(second),
                Predicate::new("kind"),
                Atom::Literal(Literal::new("book")),
            ),
        },
        Operation::Define {
            slot: SlotId::new("book/1/location"),
            fact: Fact::new(
                Atom::Entity(first),
                Predicate::new("location"),
                Atom::Literal(Literal::new("shelf")),
            ),
        },
        Operation::Define {
            slot: SlotId::new("book/2/location"),
            fact: Fact::new(
                Atom::Entity(second),
                Predicate::new("location"),
                Atom::Literal(Literal::new("desk")),
            ),
        },
        Operation::Define {
            slot: SlotId::new("book/2/location"),
            fact: Fact::new(
                Atom::Entity(second),
                Predicate::new("location"),
                Atom::Literal(Literal::new("archive")),
            ),
        },
        Operation::Forget {
            slot: SlotId::new("book/2/location"),
        },
    ];

    let mut intent = QueuedIntent::new(1);
    for operation in &operations {
        match operation {
            Operation::AllocateEntity { .. } => {
                intent.entity();
            }
            Operation::Define { slot, fact } => intent.define_fact(slot.clone(), fact.clone()),
            Operation::Forget { slot } => intent.forget(slot.clone()),
        }
    }
    let candidate = CandidateWorld::construct(&base, operations.clone()).expect("eager world");
    let eager = Arc::new(candidate.into_world(&base));
    let (plan, used_vm) = VmEpochMaterializer::new(1)
        .materialize(base, vec![intent], &[])
        .expect("VM epoch materializes");
    assert!(used_vm);
    let vm = plan.tail();
    assert_eq!(vm.id(), eager.id());
    let snapshot = mapped(&eager);

    let s = Term::Variable(variable("s"));
    let p = PredicateTerm::Variable(variable("p"));
    let o = Term::Variable(variable("o"));
    let entity = Term::Atom(Atom::Entity(first));
    let kind = PredicateTerm::Predicate(Predicate::new("kind"));
    let book = Term::Atom(Atom::Literal(Literal::new("book")));
    let patterns = vec![
        Pattern::new(entity.clone(), p.clone(), o.clone()),
        Pattern::new(s.clone(), kind.clone(), o.clone()),
        Pattern::new(s.clone(), p.clone(), book.clone()),
        Pattern::new(entity.clone(), kind.clone(), o.clone()),
        Pattern::new(entity.clone(), p.clone(), book.clone()),
        Pattern::new(s.clone(), kind.clone(), book.clone()),
        Pattern::new(entity.clone(), kind.clone(), book.clone()),
    ];
    let options = QueryOptions {
        optimize: true,
        distinct: false,
        include_provenance: true,
        limit: None,
    };
    for pattern in patterns {
        assert_eq!(
            vm.query(&[pattern.clone()], options),
            eager.query(&[pattern.clone()], options)
        );
        assert_eq!(
            snapshot.query(&[pattern.clone()], options),
            eager.query(&[pattern], options)
        );
    }

    let join = vec![
        Pattern::new(s.clone(), kind, book),
        Pattern::new(
            s.clone(),
            PredicateTerm::Predicate(Predicate::new("location")),
            Term::Variable(variable("place")),
        ),
        Pattern::new(s.clone(), p, o),
    ];
    for optimize in [false, true] {
        for distinct in [false, true] {
            let options = QueryOptions {
                optimize,
                distinct,
                include_provenance: true,
                limit: Some(3),
            };
            assert_eq!(vm.query(&join, options), eager.query(&join, options));
        }
    }
    assert_eq!(
        vm.definitions(&SlotId::new("book/2/location")),
        eager.definitions(&SlotId::new("book/2/location"))
    );
    let expected: Vec<Fact> = eager
        .definitions(&SlotId::new("book/2/location"))
        .into_iter()
        .cloned()
        .collect();
    assert_eq!(snapshot.definitions(&SlotId::new("book/2/location")), expected);
}

fn library() -> Arc<World> {
    let mut database = Database::new(MemoryCommitStore::new()).expect("genesis valid");
    let mut transaction = database.begin();
    let ada = transaction.entity();
    let bob = transaction.entity();
    for (slot, subject, predicate, object) in [
        ("a/knows", ada, "knows", Atom::Entity(bob)),
        ("b/knows", bob, "knows", Atom::Entity(ada)),
        ("a/likes", ada, "likes", Atom::Literal(Literal::new("tea"))),
        ("b/likes", bob, "likes", Atom::Literal(Literal::new("tea"))),
    ] {
        transaction.define(
            SlotId::new(slot),
            Fact::new(Atom::Entity(subject), Predicate::new(predicate), object),
        );
    }
    transaction.define_display_name(ada, "Ada");
    transaction.bind_symbol("people", Symbol::new("ada"), ada);
    database.commit(transaction).expect("library commits")
}

#[test]
fn queries_join_on_shared_variables() {
    let world = library();
    let patterns = vec![
        Pattern::new(
            Term::Variable(variable("who")),
            PredicateTerm::Predicate(Predicate::new("knows")),
            Term::Variable(variable("whom")),
        ),
        Pattern::new(
            Term::Variable(variable("whom")),
            PredicateTerm::Predicate(Predicate::new("likes")),
            Term::Variable(variable("what")),
        ),
    ];
    let options = QueryOptions {
        optimize: true,
        distinct: true,
        include_provenance: false,
        limit: None,
    };
    let result = world.query(&patterns, options);
    assert_eq!(result.rows.len(), 2);
    for row in &result.rows {
        assert_eq!(
            row.binding.get("what"),
            Some(&BoundValue::Atom(Atom::Literal(Literal::new("tea"))))
        );
        assert_ne!(row.binding.get("who"), row.binding.get("whom"));
        assert_eq!(row.binding.len(), 3);
        assert_eq!(row.binding.get("nobody"), None);
        assert!(row.provenance.is_empty());
    }
    let unordered = QueryOptions { optimize: false, ..options };
    assert_eq!(world.query(&patterns, unordered).rows, result.rows);
    assert_eq!(mapped(&world).query(&patterns, options).rows, result.rows);
    let limited = QueryOptions { limit: Some(1), ..options };
    assert_eq!(world.query(&patterns, limited).rows.len(), 1);
    let least = QueryOptions { limit: Some(0), ..options };
    assert_eq!(world.query(&patterns, least).rows.len(), 1);
}

#[test]
fn equal_variables_need_equal_values() {
    let world = library();
    let same = Pattern::new(
        Term::Variable(variable("x")),
        PredicateTerm::Variable(variable("p")),
        Term::Variable(variable("x")),
    );
    let options = QueryOptions {
        optimize: false,
        distinct: false,
        include_provenance: true,
        limit: None,
    };
    assert_eq!(world.query(&[same], options).rows.len(), 0);
    assert_eq!(Binding::new().len(), 0);
    let answer = world.query(&[], options);
    assert_eq!(answer.rows.len(), 1);
    assert_eq!(answer.rows[0].binding.len(), 0);
}

#[test]
fn snapshots_restore_the_world() {
    let world = library();
    let snapshot = mapped(&world);
    assert_eq!(snapshot.world_id(), world.id());
    assert_eq!(snapshot.world_version(), world.version());
    assert_eq!(snapshot.next_entity(), world.next_entity());
    assert_eq!(snapshot.active_slot_count(), world.active_slot_count());
    assert_eq!(snapshot.record_count(), world.record_count());
    assert_eq!(snapshot.operation_count(), world.operation_count());
    assert_eq!(snapshot.epoch_count(), 1);
    assert_eq!(
        snapshot.resolve(&SlotId::new("a/likes")).as_ref(),
        world.resolve(&SlotId::new("a/likes"))
    );
    assert_eq!(snapshot.resolve(&SlotId::new("missing")), None);
    assert_eq!(
        snapshot.display_name(EntityId::new(1)),
        world.display_name(EntityId::new(1))
    );
    assert_eq!(world.display_name(EntityId::new(1)), "Ada");
    assert_ne!(world.display_name(EntityId::new(2)), "Ada");
    assert!(snapshot.has_history());
    assert!(snapshot.can_restore());
    assert_eq!(snapshot.frames(), world.frames());
    let restored = World::from_mmap(&snapshot).expect("world is restored");
    assert_eq!(restored.id(), world.id());
    assert_eq!(restored.frames(), world.frames());
    assert_eq!(
        restored.resolve(&SlotId::new("b/knows")),
        world.resolve(&SlotId::new("b/knows"))
    );

    let mut machine = VmEpochMaterializer::from_mmap(&snapshot).expect("machine is restored");
    let mut intent = QueuedIntent::new(1);
    let entity = intent.entity();
    intent.define(
        SlotId::new("c/likes"),
        IntentFact::new(entity, Predicate::new("likes"), Literal::new("coffee")),
    );
    let (plan, used_vm) = machine
        .materialize(Arc::new(restored), vec![intent], &[])
        .expect("epoch materializes");
    assert!(used_vm);
    assert_eq!(plan.tail().version(), world.version() + 1);
    assert_eq!(plan.tail().next_entity(), world.next_entity() + 1);
}

#[test]
fn damaged_snapshots_are_refused() {
    let world = library();
    let journal = journal_of(&world);
    let (bytes, _) = create_snapshot(&journal, 1, &world).expect("snapshot is made");
    assert!(MmapVmSnapshot::open(&bytes[..bytes.len() - 1], &journal).is_err());
    assert!(MmapVmSnapshot::open(&[], &journal).is_err());
    for at in [0, 9, bytes.len() / 2, bytes.len() - 1] {
        let mut wrong = bytes.clone();
        wrong[at] ^= 1;
        assert!(MmapVmSnapshot::open(&wrong, &journal).is_err());
    }
    let mut other = journal.clone();
    let last = other.len() - 1;
    other[last] ^= 1;
    assert!(MmapVmSnapshot::open(&bytes, &other).is_err());
    assert!(MmapVmSnapshot::open(&bytes, &journal[..last]).is_err());
}

#[test]
fn worlds_with_equal_facts_answer_equally() {
    let fact = |value: &str| {
        Fact::new(
            Atom::Entity(EntityId::new(1)),
            Predicate::new("state"),
            Atom::Literal(Literal::new(value)),
        )
    };
    let mut at_once = Database::new(MemoryCommitStore::new()).expect("opens");
    let mut transaction = at_once.begin();
    transaction.define(SlotId::new("a"), fact("one"));
    transaction.define(SlotId::new("b"), fact("two"));
    let left = at_once.commit(transaction).expect("commits");

    let mut in_turn = Database::new(MemoryCommitStore::new()).expect("opens");
    let mut transaction = in_turn.begin();
    transaction.define(SlotId::new("a"), fact("one"));
    transaction.define(SlotId::new("c"), fact("three"));
    in_turn.commit(transaction).expect("commits");
    let mut transaction = in_turn.begin();
    transaction.forget(SlotId::new("c"));
    transaction.define(SlotId::new("b"), fact("two"));
    let right = in_turn.commit(transaction).expect("commits");

    assert_ne!(left.id(), right.id());
    let patterns = [Pattern::new(
        Term::Variable(variable("who")),
        PredicateTerm::Predicate(Predicate::new("state")),
        Term::Variable(variable("what")),
    )];
    for limit in [None, Some(1)] {
        let options = QueryOptions {
            optimize: true,
            distinct: false,
            include_provenance: true,
            limit,
        };
        let answers = left.query(&patterns, options);
        assert_eq!(answers.rows.len(), limit.unwrap_or(2));
        assert_eq!(answers, right.query(&patterns, options));
    }
}
