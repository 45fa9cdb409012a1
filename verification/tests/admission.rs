use forthdb_world::{
    admission_failure, check_admission_config, check_snapshot_request, check_snapshot_rewrite, create_snapshot,
    decode_epoch_payload, derive_epoch_world, encode_epoch, encode_journal_header, fail_outcomes,
    next_offset, notify_admitted, recover_admission, recover_journal, replay_epochs,
    submission_failure, AdmissionCore, AdmissionEpochBatchSubmitError, AdmissionEpochOpenError,
    AdmissionEpochSubmitError, AdmissionEpochTicketOutcome, AdmissionIngress,
    AdmissionMaterializer, AdmissionResolution, AdmissionWorker, Atom, EntityId, EpochBatch,
    EpochIoPhase, EpochMaterializer, Fact, IntentFact, IntentNamespaces, Literal, Predicate,
    QueuedIntent, Rule, SlotId, VmEpochMaterializer, WorkerAction, WorkerEvent, World, WorldId,
    JOURNAL_HEADER_LEN,
};
use std::sync::Arc;

#[test]
fn admission_epoch_codec_preserves_intents_and_boundary() {
    let mut names = IntentNamespaces::new();
    let mut first = QueuedIntent::new(names.issue());
    let entity = first.entity();
    first.define(
        SlotId::new("codec/name"),
        IntentFact::new(entity, Predicate::new("name"), Literal::new("Ada")),
    );
    let record = encode_epoch(42, &[first.clone()]);
    let payload_len = u64::from_le_bytes(record[4..12].try_into().unwrap()) as usize;
    let payload = &record[20..20 + payload_len];
    let (id, decoded) = decode_epoch_payload(payload, &mut names).expect("epoch decodes");
    assert_eq!(id, 42);
    assert_eq!(decoded, vec![first]);
}

#[test]
fn epoch_world_collapses_multiple_accepted_intents() {
    let base = Arc::new(World::genesis());
    let mut first = QueuedIntent::new(1);
    let entity = first.entity();
    first.define(
        SlotId::new("epoch/name"),
        IntentFact::new(entity, Predicate::new("name"), Literal::new("Ada")),
    );
    let mut second = QueuedIntent::new(2);
    second.define(
        SlotId::new("epoch/state"),
        IntentFact::new(
            EntityId::new(1),
            Predicate::new("state"),
            Literal::new("active"),
        ),
    );
    let plan = derive_epoch_world(base, vec![first, second], &[]);
    assert_eq!(
        plan.accepted_count(),
        1,
        "one frame represents one epoch world"
    );
    assert_eq!(plan.tail().version(), 1);
    assert_eq!(plan.outcomes().len(), 2);
    assert_eq!(
        plan.outcomes()[0].accepted().unwrap().world().id(),
        plan.outcomes()[1].accepted().unwrap().world().id()
    );
}

#[test]
fn zero_unapplied_window_is_rejected() {
    let error = check_admission_config(1, 1, 0)
        .err()
        .expect("zero window must fail before opening io_uring");
    assert!(matches!(error, AdmissionEpochOpenError::Config(_)));
    assert!(check_admission_config(0, 1, 1).is_err());
    assert!(check_admission_config(1, 0, 1).is_err());
    assert!(check_admission_config(1, 1, 1).is_ok());
}

#[test]
fn durable_intent_epochs_replay_worlds_and_trim_an_incomplete_tail() {
    let mut names = IntentNamespaces::new();
    let mut journal = encode_journal_header();
    let initialized = recover_journal(&journal, &mut names).expect("journal initializes");
    assert_eq!(initialized.file_len, JOURNAL_HEADER_LEN);

    let mut first = QueuedIntent::new(names.issue());
    let entity = first.entity();
    first.define(
        SlotId::new("replay/name"),
        IntentFact::new(entity, Predicate::new("name"), Literal::new("Ada")),
    );
    let mut second = QueuedIntent::new(names.issue());
    second.define(
        SlotId::new("replay/state"),
        IntentFact::new(
            EntityId::new(1),
            Predicate::new("state"),
            Literal::new("active"),
        ),
    );
    let first_record = encode_epoch(1, &[first]);
    let second_record = encode_epoch(2, &[second]);
    let expected_len = JOURNAL_HEADER_LEN + first_record.len() + second_record.len();
    journal.extend_from_slice(&first_record);
    journal.extend_from_slice(&second_record);
    journal.extend_from_slice(b"partial-tail");

    let recovered = recover_journal(&journal, &mut names).expect("sound prefix recovers");
    assert_eq!(recovered.epochs.len(), 2);
    assert_eq!(recovered.file_len, expected_len);
    assert_eq!(recovered.total_epochs, 2);
    let (world, _) = replay_epochs(
        Arc::new(World::genesis()),
        EpochMaterializer::TokenVm(VmEpochMaterializer::new(1)),
        recovered.epochs,
        &[],
    )
    .expect("epochs materialize");
    assert_eq!(world.version(), 2);
    assert!(world.resolve(&SlotId::new("replay/name")).is_some());
    assert!(world.resolve(&SlotId::new("replay/state")).is_some());
}

/// An admission controller over a journal in memory.
struct Admission {
    ingress: AdmissionIngress,
    worker: AdmissionWorker,
    core: AdmissionCore,
    journal: Vec<u8>,
    names: IntentNamespaces,
    rules: Vec<Rule>,
    resolutions: Vec<AdmissionResolution>,
    answered: Vec<u64>,
    /// How many epochs were durable, and which version was public, when each epoch got its meaning.
    observed: Vec<(u64, u64)>,
}

impl Admission {
    fn open(
        journal: Vec<u8>,
        snapshot: Option<&[u8]>,
        kind: AdmissionMaterializer,
        max_batch: usize,
        window: usize,
        rules: Vec<Rule>,
    ) -> Self {
        let mut names = IntentNamespaces::new();
        let allow = kind == AdmissionMaterializer::TokenVm && rules.is_empty();
        let recovery = recover_admission(&journal, snapshot, allow, &mut names)
            .expect("journal recovers");
        let journal = journal[..recovery.file_len].to_vec();
        let next = recovery.total_epochs + 1;
        let core = AdmissionCore::recovered(recovery, &rules, kind).expect("epochs replay");
        Admission {
            ingress: AdmissionIngress::new(16),
            worker: AdmissionWorker::new(window, max_batch, next),
            core,
            journal,
            names,
            rules,
            resolutions: Vec::new(),
            answered: Vec::new(),
            observed: Vec::new(),
        }
    }

    fn intent(&mut self, slot: &str, value: &str) -> QueuedIntent {
        let mut intent = QueuedIntent::new(self.names.issue());
        intent.define_fact(
            SlotId::new(slot),
            Fact::new(
                Atom::Entity(EntityId::new(1)),
                Predicate::new("state"),
                Atom::Literal(Literal::new(value)),
            ),
        );
        intent
    }

    fn write(&mut self) {
        let batch = self.worker.writing().expect("an epoch is to be written");
        let record = encode_epoch(batch.id, &batch.intents);
        let notices = notify_admitted(batch);
        assert_eq!(notices.len(), batch.tickets.len());
        for (position, notice) in notices.iter().enumerate() {
            assert_eq!(notice.ticket, batch.tickets[position]);
            assert_eq!(notice.receipt.epoch_id, batch.id);
            assert_eq!(notice.receipt.position, position);
        }
        self.journal.extend_from_slice(&record);
        self.core.count_admitted(record.len() as u64);
    }

    /// Works until there is nothing to do.
    fn pump(&mut self) {
        loop {
            match self.worker.step() {
                WorkerAction::Continue => {}
                WorkerAction::Receive(wait) => {
                    let event = self.ingress.take();
                    if wait && matches!(event, WorkerEvent::Nothing) {
                        return;
                    }
                    self.worker.received(event);
                }
                WorkerAction::Write | WorkerAction::Complete => {
                    self.write();
                    self.worker.admitted();
                }
                WorkerAction::Submit => self.worker.submitted(),
                WorkerAction::Materialize => {
                    let batch = self.worker.take_applying().expect("an epoch is in hand");
                    assert!(self.core.can_materialize(&batch));
                    self.observed.push((
                        self.core.metrics.durable_epochs,
                        self.core.snapshot().version(),
                    ));
                    match self.core.materialize(batch, &self.rules) {
                        Ok(resolved) => self.resolutions.extend(resolved),
                        Err((_, message)) => panic!("{message}"),
                    }
                }
                WorkerAction::Answer(barrier) => self.answered.push(barrier),
                WorkerAction::Stop => return,
            }
        }
    }

    fn outcome(&self, ticket: u64) -> &AdmissionEpochTicketOutcome {
        &self
            .resolutions
            .iter()
            .find(|resolution| resolution.ticket == ticket)
            .expect("ticket resolves")
            .outcome
    }
}

#[test]
fn io_uring_token_vm_publishes_one_world_and_replays_it() {
    let mut controller = Admission::open(
        encode_journal_header(),
        None,
        AdmissionMaterializer::TokenVm,
        16,
        1,
        Vec::new(),
    );
    let mut first = QueuedIntent::new(controller.names.issue());
    let entity = first.entity();
    first.define(
        SlotId::new("live/name"),
        IntentFact::new(entity, Predicate::new("name"), Literal::new("Ada")),
    );
    let second = controller.intent("live/state", "active");
    let tickets = controller
        .ingress
        .submit_epoch(vec![first, second], 0)
        .expect("explicit epoch enters the journal");
    controller.pump();
    let (first_receipt, first_world) = match controller.outcome(tickets[0]) {
        AdmissionEpochTicketOutcome::Accepted { receipt, intent } => (*receipt, intent.world()),
        _ => panic!("unexpected first outcome"),
    };
    let (second_receipt, second_world) = match controller.outcome(tickets[1]) {
        AdmissionEpochTicketOutcome::Accepted { receipt, intent } => (*receipt, intent.world()),
        _ => panic!("unexpected second outcome"),
    };
    assert_eq!(first_receipt.epoch_id, second_receipt.epoch_id);
    assert_eq!(first_world.id(), second_world.id());
    assert_eq!(first_world.version(), 1);
    assert_eq!(controller.core.metrics.vm_materialized_epochs, 1);
    assert_eq!(controller.core.metrics.world_materialized_epochs, 0);
    let expected = first_world.id();
    let (snapshot, metadata) = create_snapshot(
        &controller.journal,
        controller.core.metrics.applied_epochs,
        &controller.core.snapshot(),
    )
    .expect("physical VM snapshot is written");
    assert_eq!(metadata.epoch_count, 1);
    assert_eq!(metadata.world_id, expected);

    let mut reopened = Admission::open(
        controller.journal.clone(),
        Some(&snapshot),
        AdmissionMaterializer::TokenVm,
        16,
        1,
        Vec::new(),
    );
    assert_eq!(reopened.core.snapshot().id(), expected);
    assert!(reopened.core.metrics.mmap_snapshot_loaded);
    assert_eq!(reopened.core.metrics.mmap_snapshot_epochs_skipped, 1);
    assert!(reopened
        .core
        .snapshot()
        .resolve(&SlotId::new("live/name"))
        .is_some());
    let next = reopened.intent("live/after-reopen", "mapped");
    let ticket = reopened
        .ingress
        .submit(next, 0)
        .expect("mapped VM accepts a successor");
    reopened.pump();
    match reopened.outcome(ticket) {
        AdmissionEpochTicketOutcome::Accepted { receipt, intent } => {
            assert_eq!(receipt.epoch_id, 2);
            assert!(intent
                .world()
                .resolve(&SlotId::new("live/after-reopen"))
                .is_some());
        }
        _ => panic!("unexpected mapped successor outcome"),
    }
}

#[test]
fn bounded_window_admits_a_durable_backlog_before_publication() {
    let mut controller = Admission::open(
        encode_journal_header(),
        None,
        AdmissionMaterializer::World,
        1,
        4,
        Vec::new(),
    );
    let mut tickets = Vec::new();
    for index in 0..4 {
        let mut intent = QueuedIntent::new(controller.names.issue());
        intent.define(
            SlotId::new(&format!("window/{index}")),
            IntentFact::new(
                Literal::new(&index.to_string()),
                Predicate::new("state"),
                Literal::new("durable"),
            ),
        );
        tickets.push(
            controller
                .ingress
                .submit_epoch(vec![intent], 0)
                .expect("epoch enters the admission queue")
                .pop()
                .unwrap(),
        );
    }
    let barrier = controller.ingress.flush().expect("barrier enters");
    controller.pump();
    assert_eq!(controller.observed[0], (4, 0));
    assert_eq!(controller.core.metrics.durable_epochs, 4);
    assert_eq!(controller.core.metrics.maximum_semantic_lag, 4);
    for ticket in tickets {
        assert!(matches!(
            controller.outcome(ticket),
            AdmissionEpochTicketOutcome::Accepted { .. }
        ));
    }
    assert_eq!(controller.answered, vec![barrier]);
    assert_eq!(controller.core.snapshot().version(), 4);
    assert_eq!(controller.core.metrics.applied_epochs, 4);
}

#[test]
fn the_window_bounds_what_is_durable_without_a_meaning() {
    let mut controller = Admission::open(
        encode_journal_header(),
        None,
        AdmissionMaterializer::TokenVm,
        1,
        2,
        Vec::new(),
    );
    for index in 0..5 {
        let intent = controller.intent(&format!("bounded/{index}"), "x");
        controller.ingress.submit_epoch(vec![intent], 0).expect("enters");
    }
    controller.pump();
    for (durable, version) in &controller.observed {
        assert!(durable - version <= 2);
    }
    assert_eq!(controller.core.snapshot().version(), 5);
}

#[test]
fn admission_rejects_only_what_does_not_hold() {
    let mut controller = Admission::open(
        encode_journal_header(),
        None,
        AdmissionMaterializer::TokenVm,
        16,
        2,
        Vec::new(),
    );
    let mut stale = controller.intent("admission/stale", "no");
    stale.expect_world(WorldId::new(9));
    let good = controller.intent("admission/good", "yes");
    let stale = controller.ingress.submit(stale, 0).expect("enters");
    let good = controller.ingress.submit(good, 0).expect("enters");
    controller.pump();
    assert!(matches!(
        controller.outcome(stale),
        AdmissionEpochTicketOutcome::Rejected { .. }
    ));
    assert!(matches!(
        controller.outcome(good),
        AdmissionEpochTicketOutcome::Accepted { .. }
    ));
    assert_eq!(controller.core.metrics.accepted_intents, 1);
    assert_eq!(controller.core.metrics.rejected_intents, 1);
}

#[test]
fn live_epochs_and_their_replay_agree() {
    for kind in [AdmissionMaterializer::World, AdmissionMaterializer::TokenVm] {
        let mut controller =
            Admission::open(encode_journal_header(), None, kind, 3, 2, Vec::new());
        for index in 0..10 {
            let mut intent = controller.intent(&format!("replayed/{}", index % 4), &index.to_string());
            if index % 3 == 0 {
                intent.expect_absent(SlotId::new("replayed/0"));
            }
            controller.ingress.submit(intent, index).expect("enters");
        }
        controller.pump();
        let other = match kind {
            AdmissionMaterializer::World => AdmissionMaterializer::TokenVm,
            AdmissionMaterializer::TokenVm => AdmissionMaterializer::World,
        };
        for again in [kind, other] {
            let reopened =
                Admission::open(controller.journal.clone(), None, again, 3, 2, Vec::new());
            assert_eq!(
                reopened.core.snapshot().id(),
                controller.core.snapshot().id()
            );
            assert_eq!(
                reopened.core.snapshot().frames(),
                controller.core.snapshot().frames()
            );
        }
    }
}

#[test]
fn a_full_or_closed_ingress_hands_intents_back() {
    let mut ingress = AdmissionIngress::new(1);
    ingress.submit(QueuedIntent::new(1), 0).expect("there is room");
    assert!(matches!(
        ingress.submit(QueuedIntent::new(2), 0),
        Err(AdmissionEpochSubmitError::Full(_))
    ));
    assert!(matches!(
        ingress.submit_epoch(vec![QueuedIntent::new(3)], 0),
        Err(AdmissionEpochBatchSubmitError::Full(_))
    ));
    ingress.close();
    assert!(matches!(
        ingress.submit(QueuedIntent::new(4), 0),
        Err(AdmissionEpochSubmitError::Closed(_))
    ));
    assert!(ingress.flush().is_err());
    assert!(matches!(ingress.take(), WorkerEvent::Command(_)));
    assert!(matches!(ingress.take(), WorkerEvent::Disconnected));
    let (submitted, backpressured) = ingress.counts();
    assert_eq!(submitted, 1);
    assert_eq!(backpressured, 2);
}

#[test]
fn aborting_gives_up_every_epoch() {
    let mut worker = AdmissionWorker::new(2, 4, 1);
    let mut ingress = AdmissionIngress::new(4);
    ingress.submit(QueuedIntent::new(1), 0).expect("enters");
    loop {
        match worker.step() {
            WorkerAction::Receive(_) => {
                let event = ingress.take();
                worker.received(event);
            }
            WorkerAction::Write => break,
            _ => {}
        }
    }
    let failed = worker.abort();
    let batch = failed.unadmitted.expect("an epoch was to be written");
    assert_eq!(batch.id, 1);
    let outcomes = fail_outcomes(&batch, "no space");
    assert_eq!(outcomes.len(), 1);
    assert!(matches!(
        &outcomes[0].outcome,
        AdmissionEpochTicketOutcome::Failed(message) if message == "no space"
    ));
}

#[test]
fn journals_with_a_wrong_header_are_refused() {
    let mut names = IntentNamespaces::new();
    assert!(recover_journal(b"short", &mut names).is_err());
    let mut journal = encode_journal_header();
    journal[0] ^= 1;
    assert!(recover_journal(&journal, &mut names).is_err());
    let mut journal = encode_journal_header();
    journal[8] = 9;
    let error = recover_journal(&journal, &mut names).err().expect("wrong version");
    assert!(!error.describe().is_empty());
}

#[test]
fn corrupt_epochs_fail_closed() {
    let mut names = IntentNamespaces::new();
    let mut journal = encode_journal_header();
    journal.extend_from_slice(&encode_epoch(1, &[QueuedIntent::new(5)]));
    journal[JOURNAL_HEADER_LEN + 20] ^= 1;
    assert!(recover_journal(&journal, &mut names).is_err());
}

#[test]
fn offsets_do_not_overflow() {
    assert_eq!(next_offset(16, 4), Some(20));
    assert_eq!(next_offset(u64::MAX, 1), None);
}

#[test]
fn failures_say_where_they_happened() {
    let submission = submission_failure(EpochIoPhase::EpochWrite, "boom");
    assert!(submission.contains("boom"));
    let repaired = admission_failure(EpochIoPhase::EpochSync, "boom", Ok(()));
    let broken = admission_failure(EpochIoPhase::EpochSync, "boom", Err("worse".to_owned()));
    assert_ne!(repaired, broken);
    assert!(broken.contains("worse"));
    assert!(check_snapshot_request(AdmissionMaterializer::TokenVm, 0).is_ok());
    assert!(check_snapshot_request(AdmissionMaterializer::TokenVm, 1).is_err());
    assert!(check_snapshot_request(AdmissionMaterializer::World, 0).is_err());
    assert!(check_snapshot_rewrite(None, 3).is_ok());
    assert!(check_snapshot_rewrite(Some(3), 4).is_ok());
    assert_eq!(
        check_snapshot_rewrite(Some(3), 3),
        Err("rewriting a mapped snapshot with a tail is not implemented".to_owned())
    );
}

#[test]
fn epochs_that_fail_name_every_ticket() {
    let batch = EpochBatch {
        id: 3,
        tickets: vec![7, 8],
        intents: vec![QueuedIntent::new(1), QueuedIntent::new(2)],
    };
    let outcomes = fail_outcomes(&batch, "stopped");
    assert_eq!(outcomes.len(), 2);
    assert_eq!(outcomes[0].ticket, 7);
    assert_eq!(outcomes[1].ticket, 8);
}

#[test]
fn recovered_namespaces_are_not_handed_out_again() {
    let mut names = IntentNamespaces::new();
    let mut journal = encode_journal_header();
    journal.extend_from_slice(&encode_epoch(1, &[QueuedIntent::new(7), QueuedIntent::new(40)]));
    journal.extend_from_slice(&encode_epoch(2, &[QueuedIntent::new(12)]));
    let recovered = recover_journal(&journal, &mut names).expect("journal recovers");
    let next = names.issue();
    assert_eq!(next, 41);
    for intent in recovered.epochs.iter().flatten() {
        assert!(intent.namespace() < next);
    }
    let mut names = IntentNamespaces::new();
    recover_admission(&journal, None, false, &mut names).expect("journal recovers");
    assert_eq!(names.issue(), 41);
}
