//! Recovering an admission journal, and giving admitted epochs their meaning.

use crate::admission::{
    AdmissionEpochMetrics, AdmissionEpochReceipt, AdmissionEpochTicketOutcome,
    AdmissionMaterializer, AdmissionOutcomeModel, EpochMaterializer, admitted_metrics, all_steps,
    fresh_admission, gives_meaning, kind_of, meaning_fault, numbering_stays, replay_epochs,
    replay_fault, replay_stops, replays_to,
};
use crate::controller_metrics::{counted_more, counted_once};
use crate::database::Rule;
use crate::durable_commit::plans;
use crate::epoch_io::{EpochIoPhase, EpochPersistMetrics, counted, counted_twice, phase_text};
use crate::fact::views;
use crate::frame::share;
use crate::history_codec::taken_history;
use crate::intent::{IntentModel, IntentNamespaces, QueuedIntent, clear_of_epochs};
use crate::journal::{
    AdmissionEpochOpenError, JOURNAL_VERSION, OpenErrorModel, epoch_views, journal_magic,
    read_journal, recover_journal,
};
use crate::kernel::{empty_kernel, numbered};
use crate::log_format::eight_at;
use crate::materializer::{VmEpochMaterializer, empty_collapse};
use crate::plan::{EpochOutcome, outcome_shapes};
use crate::plan_model::{OutcomeModel, PlanModel, chained, collapsed, has_epoch_room, may_settle};
use crate::queued_controller::{acceptances, acceptances_bound};
use crate::rejection::{DurableTicketRejection, told};
use crate::snapshot_format::{SnapshotModel, opened};
use crate::snapshot_open::MmapVmSnapshot;
use crate::snapshot_world::{
    links_definitions, restorable, restores, snapshot_world, stands_for_kernel,
};
use crate::speculative::{clone_intents, intents_fit};
use crate::text::joined;
use crate::vm::NONE;
use crate::wire::{fixed_u32, u32_at};
use crate::world::{World, WorldModel, genesis_world};
use std::sync::Arc;
use vstd::prelude::*;
use vstd::string::*;

verus! {

/// A batch of intents under the number of its epoch.
pub struct EpochBatch {
    pub id: u64,
    pub tickets: Vec<u64>,
    pub intents: Vec<QueuedIntent>,
}

pub struct BatchModel {
    pub id: u64,
    pub tickets: Seq<u64>,
    pub intents: Seq<IntentModel>,
}

impl View for EpochBatch {
    type V = BatchModel;

    open spec fn view(&self) -> BatchModel {
        BatchModel { id: self.id, tickets: self.tickets@, intents: views(self.intents@) }
    }
}

/// A ticket and what it is told.
pub struct AdmissionResolution {
    pub ticket: u64,
    pub outcome: AdmissionEpochTicketOutcome,
}

/// A ticket and where its intent stands in the journal.
#[derive(Clone, Copy, Debug, PartialEq, Eq, Structural)]
pub struct AdmissionNotice {
    pub ticket: u64,
    pub receipt: AdmissionEpochReceipt,
}

/// Where each intent of an epoch stands in the journal.
pub open spec fn receipts(batch: BatchModel) -> Seq<AdmissionNotice> {
    Seq::new(
        batch.tickets.len(),
        |i: int|
            AdmissionNotice {
                ticket: batch.tickets[i],
                receipt: AdmissionEpochReceipt { epoch_id: batch.id, position: i as usize },
            },
    )
}

/// Tells each ticket of a durable epoch where its intent stands.
pub fn notify_admitted(batch: &EpochBatch) -> (result: Vec<AdmissionNotice>)
    ensures
        result@ == receipts(batch@),
{
    let mut notices: Vec<AdmissionNotice> = Vec::new();
    let mut position: usize = 0;
    while position < batch.tickets.len()
        invariant
            position <= batch.tickets.len(),
            notices@ == receipts(batch@).take(position as int),
        decreases batch.tickets.len() - position,
    {
        notices.push(
            AdmissionNotice {
                ticket: batch.tickets[position],
                receipt: AdmissionEpochReceipt { epoch_id: batch.id, position },
            },
        );
        proof {
            assert(notices@ =~= receipts(batch@).take(position + 1));
        }
        position += 1;
    }
    proof {
        assert(receipts(batch@).take(position as int) =~= receipts(batch@));
    }
    notices
}

/// Each ticket is told that its intent failed.
pub open spec fn fails(
    resolutions: Seq<AdmissionResolution>,
    tickets: Seq<u64>,
    error: Seq<char>,
) -> bool {
    &&& resolutions.len() == tickets.len()
    &&& forall|i: int|
        0 <= i < tickets.len() ==> (#[trigger] resolutions[i]).ticket == tickets[i]
            && resolutions[i].outcome@ == AdmissionOutcomeModel::Failed(error)
}

/// Tells each ticket of an epoch that its intent failed.
pub fn fail_outcomes(batch: &EpochBatch, error: &str) -> (result: Vec<AdmissionResolution>)
    ensures
        fails(result@, batch@.tickets, error@),
{
    let mut resolutions: Vec<AdmissionResolution> = Vec::new();
    let mut index: usize = 0;
    while index < batch.tickets.len()
        invariant
            index <= batch.tickets.len(),
            resolutions.len() == index,
            forall|i: int|
                0 <= i < index ==> (#[trigger] resolutions@[i]).ticket == batch.tickets@[i]
                    && resolutions@[i].outcome@ == AdmissionOutcomeModel::Failed(error@),
        decreases batch.tickets.len() - index,
    {
        resolutions.push(
            AdmissionResolution {
                ticket: batch.tickets[index],
                outcome: AdmissionEpochTicketOutcome::Failed(error.to_owned()),
            },
        );
        index += 1;
    }
    resolutions
}

/// What the ticket at a position of an epoch is told.
pub open spec fn told_admission(id: u64, position: int, outcome: OutcomeModel) -> AdmissionOutcomeModel {
    let receipt = AdmissionEpochReceipt { epoch_id: id, position: position as usize };
    match outcome {
        OutcomeModel::Accepted { .. } => AdmissionOutcomeModel::Accepted { receipt, outcome },
        OutcomeModel::Rejected { error, .. } => AdmissionOutcomeModel::Rejected {
            receipt,
            error: told(error),
        },
    }
}

/// The resolutions tell each ticket of an epoch what became of its intent, in order.
pub open spec fn resolves_admission(
    resolutions: Seq<AdmissionResolution>,
    batch: BatchModel,
    outcomes: Seq<OutcomeModel>,
) -> bool {
    &&& resolutions.len() == batch.tickets.len()
    &&& resolutions.len() == outcomes.len()
    &&& forall|i: int|
        0 <= i < resolutions.len() ==> (#[trigger] resolutions[i]).ticket == batch.tickets[i]
            && resolutions[i].outcome@ == told_admission(batch.id, i, outcomes[i])
}

/// The counters after an epoch got its meaning.
pub open spec fn applied_metrics(
    metrics: AdmissionEpochMetrics,
    plan: PlanModel,
    used_vm: bool,
) -> AdmissionEpochMetrics {
    let accepted = acceptances(plan.outcomes);
    AdmissionEpochMetrics {
        vm_materialized_epochs: if used_vm {
            counted(metrics.vm_materialized_epochs, 1)
        } else {
            metrics.vm_materialized_epochs
        },
        world_materialized_epochs: if used_vm {
            metrics.world_materialized_epochs
        } else {
            counted(metrics.world_materialized_epochs, 1)
        },
        published_worlds: if plan.frames.len() > 0 {
            counted(metrics.published_worlds, 1)
        } else {
            metrics.published_worlds
        },
        accepted_intents: counted(metrics.accepted_intents, accepted),
        rejected_intents: counted(
            metrics.rejected_intents,
            (plan.outcomes.len() - accepted) as nat,
        ),
        applied_epochs: counted(metrics.applied_epochs, 1),
        ..metrics
    }
}

/// The world of an admission controller, its machine, and what it counts.
pub struct AdmissionCore {
    pub current: Arc<World>,
    pub materializer: EpochMaterializer,
    pub metrics: AdmissionEpochMetrics,
}

impl AdmissionCore {
    pub open spec fn wf(&self) -> bool {
        numbered(self.current@.kernel) && self.materializer.keeps_step(self.current@.kernel)
    }

    pub fn snapshot(&self) -> (result: Arc<World>)
        ensures
            result@ == self.current@,
    {
        share(&self.current)
    }

    /// Tells each ticket of an epoch what became of its intent, and counts it.
    fn route(&mut self, id: u64, tickets: Vec<u64>, outcomes: Vec<EpochOutcome>) -> (result: Vec<
        AdmissionResolution,
    >)
        requires
            tickets.len() == outcomes.len(),
        ensures
            final(self).current == old(self).current,
            final(self).materializer == old(self).materializer,
            ({
                let accepted = acceptances(views(outcomes@));
                final(self).metrics == (AdmissionEpochMetrics {
                    accepted_intents: counted(old(self).metrics.accepted_intents, accepted),
                    rejected_intents: counted(
                        old(self).metrics.rejected_intents,
                        (outcomes.len() - accepted) as nat,
                    ),
                    ..old(self).metrics
                })
            }),
            result.len() == tickets.len(),
            forall|i: int|
                0 <= i < result.len() ==> (#[trigger] result@[i]).ticket == tickets@[i]
                    && result@[i].outcome@ == told_admission(id, i, views(outcomes@)[i]),
    {
        let ghost models = views(outcomes@);
        let ghost start = self.metrics;
        let mut waiting = outcomes;
        let mut resolutions: Vec<AdmissionResolution> = Vec::new();
        proof {
            assert(models.take(0) =~= Seq::empty());
            counted_twice(start.accepted_intents, 0, 0);
            counted_twice(start.rejected_intents, 0, 0);
        }
        while waiting.len() > 0
            invariant
                tickets.len() == models.len(),
                resolutions.len() + waiting.len() == models.len(),
                forall|i: int|
                    0 <= i < waiting.len() ==> (#[trigger] waiting@[i])@
                        == models[resolutions.len() + i],
                forall|i: int|
                    0 <= i < resolutions.len() ==> (#[trigger] resolutions@[i]).ticket
                        == tickets@[i] && resolutions@[i].outcome@ == told_admission(
                        id,
                        i,
                        models[i],
                    ),
                acceptances(models.take(resolutions.len() as int)) <= resolutions.len(),
                self.current == old(self).current,
                self.materializer == old(self).materializer,
                self.metrics == (AdmissionEpochMetrics {
                    accepted_intents: counted(
                        start.accepted_intents,
                        acceptances(models.take(resolutions.len() as int)),
                    ),
                    rejected_intents: counted(
                        start.rejected_intents,
                        (resolutions.len() - acceptances(
                            models.take(resolutions.len() as int),
                        )) as nat,
                    ),
                    ..start
                }),
            decreases waiting.len(),
        {
            let ghost before = waiting@;
            let ghost done = resolutions.len() as int;
            let outcome = waiting.remove(0);
            proof {
                assert(outcome@ == models[done]);
                outcome_shapes(&outcome);
                assert(models.take(done + 1).drop_last() =~= models.take(done));
                assert(models.take(done + 1).last() == models[done]);
                assert forall|i: int| 0 <= i < waiting.len() implies (#[trigger] waiting@[i])@
                    == models[done + 1 + i] by {
                    assert(waiting@[i] == before[i + 1]);
                }
                let so_far = acceptances(models.take(done));
                counted_twice(start.accepted_intents, so_far, 1);
                counted_twice(start.rejected_intents, (done - so_far) as nat, 1);
            }
            let position: usize = resolutions.len();
            let receipt = AdmissionEpochReceipt { epoch_id: id, position };
            let told_outcome = match outcome {
                EpochOutcome::Accepted(intent) => {
                    self.metrics.accepted_intents = counted_once(self.metrics.accepted_intents);
                    AdmissionEpochTicketOutcome::Accepted { receipt, intent }
                },
                EpochOutcome::Rejected(rejected) => {
                    self.metrics.rejected_intents = counted_once(self.metrics.rejected_intents);
                    AdmissionEpochTicketOutcome::Rejected {
                        receipt,
                        error: DurableTicketRejection::from_intent(rejected.error()),
                    }
                },
            };
            resolutions.push(
                AdmissionResolution { ticket: tickets[position], outcome: told_outcome },
            );
        }
        proof {
            assert(models.take(resolutions.len() as int) =~= models);
        }
        resolutions
    }

    /// Gives a durable epoch its meaning, publishes the world it leads to, and tells each ticket
    /// what became of its intent. An epoch without a meaning changes nothing.
    pub fn materialize(&mut self, batch: EpochBatch, validators: &[Rule]) -> (result: Result<
        Vec<AdmissionResolution>,
        (EpochBatch, String),
    >)
        requires
            old(self).wf(),
            batch.tickets.len() == batch.intents.len(),
            has_epoch_room(old(self).current@, batch@.intents),
        ensures
            match result {
                Ok(resolutions) => {
                    &&& final(self).wf()
                    &&& exists|plan: PlanModel|
                        {
                            &&& #[trigger] plans(
                                validators@,
                                old(self).current@,
                                batch@.intents,
                                plan,
                            )
                            &&& gives_meaning(
                                old(self).materializer,
                                validators@,
                                old(self).current@,
                                batch@.intents,
                                Ok(plan),
                            )
                            &&& final(self).current@ == plan.tail
                            &&& resolves_admission(resolutions@, batch@, plan.outcomes)
                            &&& final(self).metrics == applied_metrics(
                                old(self).metrics,
                                plan,
                                old(self).materializer is TokenVm && validators@.len() == 0,
                            )
                        }
                },
                Err((handed_back, message)) => {
                    &&& gives_meaning(
                        old(self).materializer,
                        validators@,
                        old(self).current@,
                        batch@.intents,
                        Err(message@),
                    )
                    &&& handed_back@ == batch@
                    &&& final(self).current@ == old(self).current@
                    &&& final(self).metrics == old(self).metrics
                    &&& old(self).materializer is TokenVm
                },
            },
            validators@.len() == 0 ==> match meaning_fault(
                old(self).materializer,
                old(self).current@,
                batch@.intents,
            ) {
                None => result is Ok,
                Some(fault) => result matches Err((_, message)) && message@ == fault,
            },
    {
        let ghost model = batch@;
        let base = share(&self.current);
        let intents = clone_intents(&batch.intents);
        let (plan, used_vm) = match self.materializer.derive(base, intents, validators) {
            Ok(derived) => derived,
            Err(error) => return Err((batch, error)),
        };
        let ghost planned = plan@;
        proof {
            numbering_stays(validators@, old(self).current@, model.intents, planned);
            if planned.frames.len() == 0 {
                empty_plan_stays(validators@, old(self).current@, model.intents, planned);
            }
            acceptances_bound(planned.outcomes);
        }
        if used_vm {
            self.metrics.vm_materialized_epochs = counted_once(
                self.metrics.vm_materialized_epochs,
            );
        } else {
            self.metrics.world_materialized_epochs = counted_once(
                self.metrics.world_materialized_epochs,
            );
        }
        if !plan.is_empty() {
            self.current = plan.tail();
            self.metrics.published_worlds = counted_once(self.metrics.published_worlds);
        }
        let resolutions = self.route(batch.id, batch.tickets, plan.into_outcomes());
        self.metrics.applied_epochs = counted_once(self.metrics.applied_epochs);
        proof {
            assert(plans(validators@, old(self).current@, model.intents, planned));
        }
        Ok(resolutions)
    }
}

/// A plan without frames leads nowhere.
proof fn empty_plan_stays(
    rules: Seq<Rule>,
    world: WorldModel,
    intents: Seq<IntentModel>,
    plan: PlanModel,
)
    requires
        plans(rules, world, intents, plan),
        plan.frames.len() == 0,
    ensures
        plan.tail == world,
{
    let verdicts = choose|verdicts: Seq<Result<(), Seq<char>>>|
        verdicts.len() == intents.len() && may_settle(rules, world, intents, verdicts) && plan
            == #[trigger] collapsed(chained(world, intents, verdicts));
    empty_collapse(world, intents, verdicts);
}

/// A snapshot that a controller can go on from.
pub open spec fn usable(snapshot: SnapshotModel, journal: Seq<u8>) -> bool {
    snapshot.journal_offset == journal.len() && restorable(snapshot)
}

/// What is kept of a journal and its snapshot.
pub struct AdmissionRecovery {
    pub epochs: Vec<Vec<QueuedIntent>>,
    /// Where the last complete epoch ends; the file is to be cut there.
    pub file_len: usize,
    pub total_epochs: u64,
    /// The snapshot that stands for all epochs, if one does.
    pub snapshot: Option<MmapVmSnapshot>,
}

/// The journal begins as a journal does.
pub open spec fn journal_header_ok(bytes: Seq<u8>) -> bool {
    &&& bytes.len() >= 16
    &&& bytes.subrange(0, 8) == journal_magic()
    &&& u32_at(bytes, 8) == JOURNAL_VERSION
}

fn open_usable(bytes: &[u8], journal: &[u8]) -> (result: Option<MmapVmSnapshot>)
    ensures
        match result {
            Some(snapshot) => opened(bytes@, journal@) == Ok::<SnapshotModel, Seq<char>>(
                snapshot@,
            ) && usable(snapshot@, journal@) && snapshot.wf() && snapshot.size() == bytes@.len(),
            None => !(opened(bytes@, journal@) matches Ok(model) && usable(model, journal@)),
        },
{
    let snapshot = match MmapVmSnapshot::open(bytes, journal) {
        Ok(snapshot) => snapshot,
        Err(_) => return None,
    };
    if snapshot.journal_offset() != journal.len() as u64 {
        return None;
    }
    if snapshot.can_restore() {
        Some(snapshot)
    } else {
        None
    }
}

/// Recovers a journal: from a snapshot that stands for all of it, where that is allowed and there
/// is one, and else epoch by epoch. An invalid or stale snapshot is ignored.
pub fn recover_admission(
    journal: &[u8],
    snapshot: Option<&[u8]>,
    allow_mmap_snapshot: bool,
    namespaces: &mut IntentNamespaces,
) -> (result: Result<AdmissionRecovery, AdmissionEpochOpenError>)
    ensures
        final(namespaces).upcoming() >= old(namespaces).upcoming(),
        result matches Ok(recovery) ==> clear_of_epochs(
            final(namespaces).upcoming(),
            epoch_views(recovery.epochs@),
        ),
        ({
            let mapped = if journal_header_ok(journal@) && allow_mmap_snapshot && snapshot is Some {
                match opened(snapshot->Some_0@, journal@) {
                    Ok(model) => if usable(model, journal@) {
                        Some(model)
                    } else {
                        None
                    },
                    Err(_) => None,
                }
            } else {
                None
            };
            match mapped {
                Some(model) => {
                    &&& result matches Ok(recovery)
                    &&& recovery.epochs.len() == 0
                    &&& recovery.file_len == journal.len()
                    &&& recovery.total_epochs == model.epoch_count
                    &&& recovery.snapshot matches Some(found)
                    &&& found@ == model
                    &&& found.wf()
                },
                None => match (result, read_journal(journal@)) {
                    (Ok(recovery), Ok((epochs, end))) => epoch_views(recovery.epochs@) == epochs
                        && recovery.file_len == end && recovery.total_epochs == epochs.len()
                        && recovery.snapshot is None,
                    (Err(error), Err(message)) => error@ == OpenErrorModel::Format(message),
                    _ => false,
                },
            }
        }),
{
    let magic: [u8; 8] = [0x46u8, 0x54, 0x48, 0x41, 0x44, 0x4d, 0x30, 0x31];
    proof {
        assert(magic@ =~= journal_magic());
    }
    if allow_mmap_snapshot && journal.len() >= 16 && eight_at(journal, 0, magic) && fixed_u32(
        journal,
        8,
    ) == JOURNAL_VERSION {
        if let Some(bytes) = snapshot {
            if let Some(found) = open_usable(bytes, journal) {
                return Ok(
                    AdmissionRecovery {
                        epochs: Vec::new(),
                        file_len: journal.len(),
                        total_epochs: found.epoch_count(),
                        snapshot: Some(found),
                    },
                );
            }
        }
    }
    match recover_journal(journal, namespaces) {
        Ok(recovered) => Ok(
            AdmissionRecovery {
                epochs: recovered.epochs,
                file_len: recovered.file_len,
                total_epochs: recovered.total_epochs,
                snapshot: None,
            },
        ),
        Err(error) => Err(error),
    }
}

/// The counters at the start: every recovered epoch is durable and has its meaning.
pub open spec fn recovered_metrics(
    total_epochs: u64,
    version: u64,
    snapshot: Option<(u64, u64)>,
) -> AdmissionEpochMetrics {
    AdmissionEpochMetrics {
        durable_epochs: total_epochs,
        applied_epochs: total_epochs,
        published_worlds: version,
        mmap_snapshot_loaded: snapshot is Some,
        mmap_snapshot_epochs_skipped: match snapshot {
            Some((epochs, _)) => epochs,
            None => 0,
        },
        mmap_snapshot_bytes: match snapshot {
            Some((_, bytes)) => bytes,
            None => 0,
        },
        ..fresh_admission()
    }
}

impl AdmissionCore {
    /// Goes on from what was recovered: from the world of a snapshot, or from the beginning
    /// through all epochs.
    pub fn recovered(
        recovery: AdmissionRecovery,
        validators: &[Rule],
        kind: AdmissionMaterializer,
    ) -> (result: Result<Self, AdmissionEpochOpenError>)
        requires
            recovery.snapshot matches Some(snapshot) ==> snapshot.wf() && restorable(snapshot@)
                && recovery.epochs.len() == 0,
        ensures
            match result {
                Ok(core) => {
                    &&& core.wf()
                    &&& kind_of(core.materializer) == kind
                    &&& core.metrics == recovered_metrics(
                        recovery.total_epochs,
                        core.current@.version,
                        match recovery.snapshot {
                            Some(snapshot) => Some(
                                (snapshot@.epoch_count, snapshot.size() as u64),
                            ),
                            None => None,
                        },
                    )
                    &&& match recovery.snapshot {
                        Some(snapshot) => restores(
                            snapshot@.image,
                            snapshot@.image.records.len() as int,
                            core.current@.kernel.live,
                        ) && core.current@ == snapshot_world(
                            snapshot@,
                            core.current@.kernel.live,
                            taken_history(snapshot@.history)->Ok_0,
                        ),
                        None => replays_to(
                            validators@,
                            genesis_world(),
                            epoch_views(recovery.epochs@),
                            core.current@,
                        ),
                    }
                },
                Err(error) => {
                    let epochs = epoch_views(recovery.epochs@);
                    &&& recovery.snapshot is None
                    &&& error@ matches OpenErrorModel::Format(message)
                    &&& replay_stops(validators@, genesis_world(), epochs, kind, message)
                        || message == "workspace is full"@ && kind
                        == AdmissionMaterializer::TokenVm && all_steps(epochs) + 1 >= NONE
                },
            },
            recovery.snapshot is None && validators@.len() == 0 && all_steps(
                epoch_views(recovery.epochs@),
            ) + 1 < NONE ==> match replay_fault(
                genesis_world(),
                epoch_views(recovery.epochs@),
                kind,
            ) {
                None => result is Ok,
                Some(fault) => result matches Err(error) && error@ == OpenErrorModel::Format(
                    fault,
                ),
            },
    {
        let mut metrics = AdmissionEpochMetrics::new();
        metrics.durable_epochs = recovery.total_epochs;
        metrics.applied_epochs = recovery.total_epochs;
        if let Some(snapshot) = &recovery.snapshot {
            metrics.mmap_snapshot_loaded = true;
            metrics.mmap_snapshot_epochs_skipped = snapshot.epoch_count();
            metrics.mmap_snapshot_bytes = snapshot.snapshot_bytes();
            let (world, machine) = AdmissionCore::start_mapped(snapshot, kind);
            metrics.published_worlds = world.version();
            return Ok(AdmissionCore { current: world, materializer: machine, metrics });
        }
        let world = Arc::new(World::genesis());
        let machine = match kind {
            AdmissionMaterializer::World => EpochMaterializer::World,
            AdmissionMaterializer::TokenVm => EpochMaterializer::TokenVm(
                VmEpochMaterializer::new(world.next_entity()),
            ),
        };
        proof {
            assert(genesis_world().kernel == empty_kernel());
            assert(numbered(genesis_world().kernel));
        }
        match replay_epochs(world, machine, recovery.epochs, validators) {
            Ok((world, machine)) => {
                metrics.published_worlds = world.version();
                Ok(AdmissionCore { current: world, materializer: machine, metrics })
            },
            Err(error) => Err(error),
        }
    }

    /// The world and the machine of a snapshot.
    fn start_mapped(snapshot: &MmapVmSnapshot, kind: AdmissionMaterializer) -> (result: (
        Arc<World>,
        EpochMaterializer,
    ))
        requires
            snapshot.wf(),
            restorable(snapshot@),
        ensures
            kind_of(result.1) == kind,
            numbered(result.0@.kernel),
            result.1.keeps_step(result.0@.kernel),
            restores(
                snapshot@.image,
                snapshot@.image.records.len() as int,
                result.0@.kernel.live,
            ),
            result.0@ == snapshot_world(
                snapshot@,
                result.0@.kernel.live,
                taken_history(snapshot@.history)->Ok_0,
            ),
    {
        let world = match World::from_mmap(snapshot) {
            Some(world) => world,
            None => World::genesis(),
        };
        let machine = match kind {
            AdmissionMaterializer::World => EpochMaterializer::World,
            AdmissionMaterializer::TokenVm => match VmEpochMaterializer::from_mmap(snapshot) {
                Ok(vm) => EpochMaterializer::TokenVm(vm),
                Err(_) => EpochMaterializer::World,
            },
        };
        proof {
            assert(links_definitions(snapshot@.image, world@.kernel.live));
            assert(stands_for_kernel(snapshot@, world@.kernel));
        }
        (Arc::new(world), machine)
    }

    /// Counts an epoch that became durable.
    pub fn count_admitted(&mut self, bytes: u64)
        ensures
            final(self).metrics == admitted_metrics(old(self).metrics, bytes),
            final(self).current == old(self).current,
            final(self).materializer == old(self).materializer,
    {
        self.metrics.count_admitted(bytes);
    }
}

/// Whether a snapshot may be made: only of a token machine, and without validators.
pub fn check_snapshot_request(kind: AdmissionMaterializer, validators: usize) -> (result: Result<
    (),
    String,
>)
    ensures
        match result {
            Ok(()) => kind == AdmissionMaterializer::TokenVm && validators == 0,
            Err(message) => if kind != AdmissionMaterializer::TokenVm {
                message@ == "mmap VM snapshots require the token VM materializer"@
            } else {
                validators > 0 && message@
                    == "mmap VM snapshots do not yet capture host validators"@
            },
        },
{
    match kind {
        AdmissionMaterializer::TokenVm => {},
        AdmissionMaterializer::World => {
            return Err("mmap VM snapshots require the token VM materializer".to_owned());
        },
    }
    if validators > 0 {
        return Err("mmap VM snapshots do not yet capture host validators".to_owned());
    }
    Ok(())
}

/// Whether the world of a version may be written as a snapshot: not where it is still the one that
/// the snapshot at the start gave, whose version is `mapped`.
pub fn check_snapshot_rewrite(mapped: Option<u64>, version: u64) -> (result: Result<(), String>)
    ensures
        match result {
            Ok(()) => mapped != Some(version),
            Err(message) => mapped == Some(version) && message@
                == "rewriting a mapped snapshot with a tail is not implemented"@,
        },
{
    if let Some(start) = mapped {
        if start == version {
            return Err("rewriting a mapped snapshot with a tail is not implemented".to_owned());
        }
    }
    Ok(())
}

/// What is said when the writing of an epoch could not begin.
pub fn submission_failure(phase: EpochIoPhase, error: &str) -> (result: String)
    ensures
        result@ == "admission submission failed during "@ + phase_text(phase) + ": "@ + error@,
{
    let mut out = joined("admission submission failed during ", phase.name());
    out.append(": ");
    out.append(error);
    out
}

/// What is said when an epoch did not become durable; with what the repair of the file gave.
pub open spec fn admission_failure_text(
    phase: EpochIoPhase,
    error: Seq<char>,
    repair: Option<Seq<char>>,
) -> Seq<char> {
    match repair {
        None => "admission failed during "@ + phase_text(phase) + " and was repaired: "@ + error,
        Some(fault) => "admission failed during "@ + phase_text(phase) + ": "@ + error
            + "; repair failed: "@ + fault,
    }
}

pub fn admission_failure(phase: EpochIoPhase, error: &str, repair: Result<(), String>) -> (result:
    String)
    ensures
        result@ == admission_failure_text(
            phase,
            error@,
            match repair {
                Ok(()) => None,
                Err(fault) => Some(fault@),
            },
        ),
{
    let mut out = joined("admission failed during ", phase.name());
    match repair {
        Ok(()) => {
            out.append(" and was repaired: ");
            out.append(error);
        },
        Err(fault) => {
            out.append(": ");
            out.append(error);
            out.append("; repair failed: ");
            out.append(fault.as_str());
        },
    }
    out
}

/// Where the next epoch of a journal goes, after one of so many bytes.
pub fn next_offset(file_len: u64, record_len: usize) -> (result: Option<u64>)
    ensures
        match result {
            Some(offset) => offset == file_len + record_len,
            None => file_len + record_len > u64::MAX,
        },
{
    file_len.checked_add(record_len as u64)
}

impl AdmissionCore {
    /// Counts what a transport did.
    pub fn count_transport(&mut self, transport: EpochPersistMetrics)
        ensures
            final(self).current == old(self).current,
            final(self).materializer == old(self).materializer,
            final(self).metrics == (AdmissionEpochMetrics {
                data_writes: counted(
                    old(self).metrics.data_writes,
                    transport.data_writes as nat,
                ),
                data_syncs: counted(old(self).metrics.data_syncs, transport.data_syncs as nat),
                completion_events: counted(
                    old(self).metrics.completion_events,
                    transport.completion_events as nat,
                ),
                ..old(self).metrics
            }),
    {
        self.metrics.data_writes = counted_more(self.metrics.data_writes, transport.data_writes);
        self.metrics.data_syncs = counted_more(self.metrics.data_syncs, transport.data_syncs);
        self.metrics.completion_events = counted_more(
            self.metrics.completion_events,
            transport.completion_events,
        );
    }

    /// Whether the effects of an epoch can be counted.
    pub fn can_materialize(&self, batch: &EpochBatch) -> (result: bool)
        requires
            self.wf(),
        ensures
            result == has_epoch_room(self.current@, batch@.intents),
    {
        intents_fit(&self.current, &batch.intents)
    }
}

} // verus!
