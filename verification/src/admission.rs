//! Admitting epochs: intents are made durable first, and given a meaning afterwards.

use crate::batching::larger;
use crate::controller_metrics::{counted_more, counted_once};
use crate::database::Rule;
use crate::durable_commit::{plans, sum_steps};
use crate::epoch_io::counted;
use crate::fact::views;
use crate::frame::share;
use crate::intent::{IntentModel, QueuedIntent};
use crate::journal::{AdmissionEpochOpenError, OpenErrorModel, epoch_views};
use crate::kernel::{KernelModel, numbered, replayed_keeps_order};
use crate::materializer::{
    VmEpochMaterializer, empty_collapse, materializes, planned_model, vm_epoch_fault,
};
use crate::plan::{AcceptedIntent, EpochPlan, derive_epoch_world};
use crate::plan_model::{
    OutcomeModel, PlanModel, chained, chained_replays, collapsed, has_epoch_room, joined_operations,
    may_settle, outcomes_follow_intents, total_steps, unopposed,
};
use crate::rejection::{DurableTicketRejection, TicketRejectionModel};
use crate::speculative::intents_fit;
use crate::world::{World, WorldModel, has_room};
use std::sync::Arc;
use vstd::prelude::*;
use vstd::string::*;

verus! {

/// Where an admitted intent stands in the journal.
#[derive(Clone, Copy, Debug, PartialEq, Eq, Structural)]
pub struct AdmissionEpochReceipt {
    pub epoch_id: u64,
    pub position: usize,
}

/// What became of an admitted intent.
pub enum AdmissionEpochTicketOutcome {
    Accepted { receipt: AdmissionEpochReceipt, intent: AcceptedIntent },
    Rejected { receipt: AdmissionEpochReceipt, error: DurableTicketRejection },
    Failed(String),
}

#[allow(inconsistent_fields)]
pub enum AdmissionOutcomeModel {
    Accepted { receipt: AdmissionEpochReceipt, outcome: OutcomeModel },
    Rejected { receipt: AdmissionEpochReceipt, error: TicketRejectionModel },
    Failed(Seq<char>),
}

impl View for AdmissionEpochTicketOutcome {
    type V = AdmissionOutcomeModel;

    open spec fn view(&self) -> AdmissionOutcomeModel {
        match self {
            AdmissionEpochTicketOutcome::Accepted { receipt, intent } =>
                AdmissionOutcomeModel::Accepted { receipt: *receipt, outcome: intent@ },
            AdmissionEpochTicketOutcome::Rejected { receipt, error } =>
                AdmissionOutcomeModel::Rejected { receipt: *receipt, error: error@ },
            AdmissionEpochTicketOutcome::Failed(message) => AdmissionOutcomeModel::Failed(
                message@,
            ),
        }
    }
}

/// An intent that was not admitted; it is handed back.
#[derive(Debug)]
pub enum AdmissionEpochSubmitError {
    Full(QueuedIntent),
    Closed(QueuedIntent),
}

/// Intents that were not admitted; they are handed back.
#[derive(Debug)]
pub enum AdmissionEpochBatchSubmitError {
    Full(Vec<QueuedIntent>),
    Closed(Vec<QueuedIntent>),
}

/// What an admission controller counts.
#[derive(Clone, Copy, Debug, PartialEq, Eq, Structural)]
pub struct AdmissionEpochMetrics {
    pub submitted_intents: u64,
    pub backpressured_intents: u64,
    pub durable_epochs: u64,
    pub applied_epochs: u64,
    pub published_worlds: u64,
    pub accepted_intents: u64,
    pub rejected_intents: u64,
    pub admitted_bytes: u64,
    pub data_writes: u64,
    pub data_syncs: u64,
    pub completion_events: u64,
    pub maximum_semantic_lag: u64,
    pub vm_materialized_epochs: u64,
    pub world_materialized_epochs: u64,
    pub mmap_snapshot_loaded: bool,
    pub mmap_snapshot_epochs_skipped: u64,
    pub mmap_snapshot_bytes: u64,
}

/// Nothing counted yet.
pub open spec fn fresh_admission() -> AdmissionEpochMetrics {
    AdmissionEpochMetrics {
        submitted_intents: 0,
        backpressured_intents: 0,
        durable_epochs: 0,
        applied_epochs: 0,
        published_worlds: 0,
        accepted_intents: 0,
        rejected_intents: 0,
        admitted_bytes: 0,
        data_writes: 0,
        data_syncs: 0,
        completion_events: 0,
        maximum_semantic_lag: 0,
        vm_materialized_epochs: 0,
        world_materialized_epochs: 0,
        mmap_snapshot_loaded: false,
        mmap_snapshot_epochs_skipped: 0,
        mmap_snapshot_bytes: 0,
    }
}

/// How many durable epochs have no meaning yet.
pub open spec fn semantic_lag(metrics: AdmissionEpochMetrics) -> int {
    if metrics.durable_epochs >= metrics.applied_epochs {
        metrics.durable_epochs - metrics.applied_epochs
    } else {
        0
    }
}

/// The counters after an epoch became durable.
pub open spec fn admitted_metrics(metrics: AdmissionEpochMetrics, bytes: u64) -> AdmissionEpochMetrics {
    let durable = AdmissionEpochMetrics {
        durable_epochs: counted(metrics.durable_epochs, 1),
        admitted_bytes: counted(metrics.admitted_bytes, bytes as nat),
        ..metrics
    };
    AdmissionEpochMetrics {
        maximum_semantic_lag: larger(
            durable.maximum_semantic_lag as int,
            semantic_lag(durable),
        ) as u64,
        ..durable
    }
}

impl AdmissionEpochMetrics {
    pub fn new() -> (result: Self)
        ensures
            result == fresh_admission(),
    {
        AdmissionEpochMetrics {
            submitted_intents: 0,
            backpressured_intents: 0,
            durable_epochs: 0,
            applied_epochs: 0,
            published_worlds: 0,
            accepted_intents: 0,
            rejected_intents: 0,
            admitted_bytes: 0,
            data_writes: 0,
            data_syncs: 0,
            completion_events: 0,
            maximum_semantic_lag: 0,
            vm_materialized_epochs: 0,
            world_materialized_epochs: 0,
            mmap_snapshot_loaded: false,
            mmap_snapshot_epochs_skipped: 0,
            mmap_snapshot_bytes: 0,
        }
    }

    /// Remembers the largest number of durable epochs without a meaning.
    pub fn observe_lag(&mut self)
        ensures
            *final(self) == (AdmissionEpochMetrics {
                maximum_semantic_lag: larger(
                    old(self).maximum_semantic_lag as int,
                    semantic_lag(*old(self)),
                ) as u64,
                ..*old(self)
            }),
    {
        let lag: u64 = self.durable_epochs.saturating_sub(self.applied_epochs);
        if lag > self.maximum_semantic_lag {
            self.maximum_semantic_lag = lag;
        }
    }

    /// Counts an epoch that became durable.
    pub fn count_admitted(&mut self, bytes: u64)
        ensures
            *final(self) == admitted_metrics(*old(self), bytes),
    {
        self.durable_epochs = counted_once(self.durable_epochs);
        self.admitted_bytes = counted_more(self.admitted_bytes, bytes);
        self.observe_lag();
    }
}

/// Which machine gives epochs their meaning.
#[derive(Clone, Copy, Debug, PartialEq, Eq, Structural)]
pub enum AdmissionMaterializer {
    World,
    TokenVm,
}

/// The machine that gives epochs their meaning.
pub enum EpochMaterializer {
    World,
    TokenVm(VmEpochMaterializer),
}

/// The configuration of an admission controller can work.
pub fn check_admission_config(
    capacity: usize,
    max_batch: usize,
    max_unapplied_epochs: usize,
) -> (result: Result<(), AdmissionEpochOpenError>)
    ensures
        match result {
            Ok(()) => capacity > 0 && max_batch > 0 && max_unapplied_epochs > 0,
            Err(error) => (capacity == 0 || max_batch == 0 || max_unapplied_epochs == 0) && error@
                == OpenErrorModel::Config(
                "capacity, maximum batch, and maximum unapplied epochs must be nonzero"@,
            ),
        },
{
    if capacity == 0 || max_batch == 0 || max_unapplied_epochs == 0 {
        return Err(
            AdmissionEpochOpenError::Config(
                "capacity, maximum batch, and maximum unapplied epochs must be nonzero".to_owned(),
            ),
        );
    }
    Ok(())
}

/// Why an epoch has no meaning without validators.
pub open spec fn meaning_fault(
    materializer: EpochMaterializer,
    base: WorldModel,
    intents: Seq<IntentModel>,
) -> Option<Seq<char>> {
    match materializer {
        EpochMaterializer::World => None,
        EpochMaterializer::TokenVm(vm) => if !vm.has_room(total_steps(intents)) {
            Some("workspace is full"@)
        } else {
            vm_epoch_fault(base, intents)
        },
    }
}

/// What giving an epoch its meaning leads to.
pub open spec fn gives_meaning(
    materializer: EpochMaterializer,
    rules: Seq<Rule>,
    base: WorldModel,
    intents: Seq<IntentModel>,
    result: Result<PlanModel, Seq<char>>,
) -> bool {
    match materializer {
        EpochMaterializer::World => result matches Ok(plan) && plans(rules, base, intents, plan),
        EpochMaterializer::TokenVm(vm) => if !vm.has_room(total_steps(intents)) {
            result == Err::<PlanModel, Seq<char>>("workspace is full"@)
        } else {
            materializes(rules, base, intents, result)
        },
    }
}

impl EpochMaterializer {
    /// The machine is in step with a kernel.
    pub open spec fn keeps_step(&self, kernel: KernelModel) -> bool {
        match self {
            EpochMaterializer::World => true,
            EpochMaterializer::TokenVm(vm) => vm.wf() && vm.in_step(kernel),
        }
    }

    /// There is room for more operations.
    pub open spec fn has_room(&self, steps: nat) -> bool {
        match self {
            EpochMaterializer::World => true,
            EpochMaterializer::TokenVm(vm) => vm.has_room(steps),
        }
    }

    /// There is room for so many operations and for more behind them.
    pub open spec fn spare_for(&self, steps: nat, more: nat) -> bool {
        self.has_room(steps + more)
    }

    /// Gives an epoch its meaning; tells whether the machine ran it.
    pub fn derive(&mut self, base: Arc<World>, intents: Vec<QueuedIntent>, validators: &[Rule]) -> (
        result: Result<(EpochPlan, bool), String>)
        requires
            old(self).keeps_step(base@.kernel),
            has_epoch_room(base@, views(intents@)),
        ensures
            match result {
                Ok((plan, used_vm)) => {
                    &&& plans(validators@, base@, views(intents@), plan@)
                    &&& plan@.outcomes.len() == intents.len()
                    &&& used_vm == (*old(self) is TokenVm && validators@.len() == 0)
                    &&& final(self).keeps_step(plan@.tail.kernel)
                    &&& forall|more: nat| #[trigger]
                        old(self).spare_for(total_steps(views(intents@)), more) ==> final(self).has_room(more)
                },
                Err(_) => *old(self) is TokenVm,
            },
            *old(self) is World <==> *final(self) is World,
            validators@.len() == 0 ==> match meaning_fault(*old(self), base@, views(intents@)) {
                None => result is Ok,
                Some(fault) => result matches Err(message) && message@ == fault,
            },
            gives_meaning(
                *old(self),
                validators@,
                base@,
                views(intents@),
                planned_model(result),
            ),
    {
        let ghost models = views(intents@);
        let ghost start = *self;
        match self {
            EpochMaterializer::World => {
                let plan = derive_epoch_world(share(&base), intents, validators);
                proof {
                    let verdicts = choose|verdicts: Seq<Result<(), Seq<char>>>|
                        verdicts.len() == models.len() && may_settle(
                            validators@,
                            base@,
                            models,
                            verdicts,
                        ) && plan@ == collapsed(chained(base@, models, verdicts));
                    assert(plan@ == collapsed(chained(base@, models, verdicts)));
                    outcomes_follow_intents(base@, models, verdicts);
                }
                Ok((plan, false))
            },
            EpochMaterializer::TokenVm(vm) => {
                if !vm.can_take(sum_steps(&intents)) {
                    return Err("workspace is full".to_owned());
                }
                proof {
                    vm.in_step_allocates(base@.kernel);
                }
                let ghost machine = *vm;
                match vm.materialize(share(&base), intents, validators) {
                    Ok((plan, used_vm)) => {
                        proof {
                            let verdicts = choose|verdicts: Seq<Result<(), Seq<char>>>|
                                verdicts.len() == models.len() && may_settle(
                                    validators@,
                                    base@,
                                    models,
                                    verdicts,
                                ) && plan@ == #[trigger] collapsed(
                                    chained(base@, models, verdicts),
                                );
                            outcomes_follow_intents(base@, models, verdicts);
                            assert forall|more: nat| #[trigger]
                                start.spare_for(total_steps(models), more) implies vm.has_room(
                                more,
                            ) by {
                                assert(machine.spare_for(total_steps(models), more));
                            }
                        }
                        Ok((plan, used_vm))
                    },
                    Err(message) => Err(message),
                }
            },
        }
    }
}

/// The worlds that epochs lead to, as verdicts of the validators have it.
pub open spec fn world_after(
    start: WorldModel,
    epochs: Seq<Seq<IntentModel>>,
    verdicts: Seq<Seq<Result<(), Seq<char>>>>,
) -> WorldModel
    decreases epochs.len(),
{
    if epochs.len() == 0 {
        start
    } else {
        let before = world_after(start, epochs.drop_last(), verdicts.drop_last());
        collapsed(chained(before, epochs.last(), verdicts.last())).tail
    }
}

/// The validators may give these verdicts.
pub open spec fn may_settle_all(
    rules: Seq<Rule>,
    start: WorldModel,
    epochs: Seq<Seq<IntentModel>>,
    verdicts: Seq<Seq<Result<(), Seq<char>>>>,
) -> bool
    decreases epochs.len(),
{
    &&& verdicts.len() == epochs.len()
    &&& epochs.len() > 0 ==> {
        &&& may_settle_all(rules, start, epochs.drop_last(), verdicts.drop_last())
        &&& verdicts.last().len() == epochs.last().len()
        &&& may_settle(
            rules,
            world_after(start, epochs.drop_last(), verdicts.drop_last()),
            epochs.last(),
            verdicts.last(),
        )
    }
}

/// The world that epochs lead to without validators.
pub open spec fn unopposed_world(start: WorldModel, epochs: Seq<Seq<IntentModel>>) -> WorldModel
    decreases epochs.len(),
{
    if epochs.len() == 0 {
        start
    } else {
        let before = unopposed_world(start, epochs.drop_last());
        collapsed(chained(before, epochs.last(), unopposed(epochs.last().len()))).tail
    }
}

/// All operations of all epochs.
pub open spec fn all_steps(epochs: Seq<Seq<IntentModel>>) -> nat
    decreases epochs.len(),
{
    if epochs.len() == 0 {
        0
    } else {
        all_steps(epochs.drop_last()) + total_steps(epochs.last())
    }
}

/// Why the replay of an epoch without validators stops.
pub open spec fn epoch_replay_fault(
    world: WorldModel,
    epoch: Seq<IntentModel>,
    kind: AdmissionMaterializer,
) -> Option<Seq<char>> {
    if !has_epoch_room(world, epoch) {
        Some("epoch is too long"@)
    } else if kind == AdmissionMaterializer::World {
        None
    } else {
        vm_epoch_fault(world, epoch)
    }
}

pub open spec fn kind_of(materializer: EpochMaterializer) -> AdmissionMaterializer {
    match materializer {
        EpochMaterializer::World => AdmissionMaterializer::World,
        EpochMaterializer::TokenVm(_) => AdmissionMaterializer::TokenVm,
    }
}

/// Why the replay of epochs without validators stops.
pub open spec fn replay_fault(
    start: WorldModel,
    epochs: Seq<Seq<IntentModel>>,
    kind: AdmissionMaterializer,
) -> Option<Seq<char>>
    decreases epochs.len(),
{
    if epochs.len() == 0 {
        None
    } else {
        match replay_fault(start, epochs.drop_last(), kind) {
            Some(fault) => Some(fault),
            None => {
                let world = unopposed_world(start, epochs.drop_last());
                epoch_replay_fault(world, epochs.last(), kind)
            },
        }
    }
}

proof fn replay_fault_stays(
    start: WorldModel,
    epochs: Seq<Seq<IntentModel>>,
    kind: AdmissionMaterializer,
    count: int,
)
    requires
        0 <= count <= epochs.len(),
        replay_fault(start, epochs.take(count), kind) is Some,
    ensures
        replay_fault(start, epochs, kind) == replay_fault(start, epochs.take(count), kind),
    decreases epochs.len(),
{
    if count == epochs.len() {
        assert(epochs.take(count) =~= epochs);
    } else {
        assert(epochs.drop_last().take(count) =~= epochs.take(count));
        replay_fault_stays(start, epochs.drop_last(), kind, count);
    }
}

proof fn all_steps_monotone(epochs: Seq<Seq<IntentModel>>, count: int)
    requires
        0 <= count <= epochs.len(),
    ensures
        all_steps(epochs.take(count)) <= all_steps(epochs),
    decreases epochs.len(),
{
    if count == epochs.len() {
        assert(epochs.take(count) =~= epochs);
    } else {
        assert(epochs.drop_last().take(count) =~= epochs.take(count));
        all_steps_monotone(epochs.drop_last(), count);
    }
}

/// A world that an epoch leads to can go on.
pub proof fn numbering_stays(
    rules: Seq<Rule>,
    world: WorldModel,
    intents: Seq<IntentModel>,
    plan: PlanModel,
)
    requires
        has_epoch_room(world, intents),
        plans(rules, world, intents, plan),
        numbered(world.kernel),
    ensures
        numbered(plan.tail.kernel),
{
    let verdicts = choose|verdicts: Seq<Result<(), Seq<char>>>|
        verdicts.len() == intents.len() && may_settle(rules, world, intents, verdicts) && plan
            == #[trigger] collapsed(chained(world, intents, verdicts));
    chained_replays(world, intents, verdicts);
    replayed_keeps_order(
        world.kernel,
        joined_operations(chained(world, intents, verdicts).frames),
    );
    if plan.frames.len() == 0 {
        empty_collapse(world, intents, verdicts);
    }
}

/// An epoch leads from one world to the next.
#[verifier::opaque]
pub open spec fn leads_to(
    rules: Seq<Rule>,
    world: WorldModel,
    epoch: Seq<IntentModel>,
    next: WorldModel,
) -> bool {
    &&& exists|verdict: Seq<Result<(), Seq<char>>>|
        verdict.len() == epoch.len() && may_settle(rules, world, epoch, verdict) && next
            == #[trigger] collapsed(chained(world, epoch, verdict)).tail
    &&& rules.len() == 0 ==> next == collapsed(
        chained(world, epoch, unopposed(epoch.len())),
    ).tail
}

/// Why the replay of an epoch stops: it cannot be counted, or the machine refuses it.
pub open spec fn epoch_stops(
    rules: Seq<Rule>,
    world: WorldModel,
    epoch: Seq<IntentModel>,
    kind: AdmissionMaterializer,
    message: Seq<char>,
) -> bool {
    if !has_epoch_room(world, epoch) {
        message == "epoch is too long"@
    } else {
        kind == AdmissionMaterializer::TokenVm && materializes(rules, world, epoch, Err(message))
    }
}

/// Why the replay of epochs stops: one of them has no meaning on the world that those before it
/// lead to.
#[verifier::opaque]
pub open spec fn replay_stops(
    rules: Seq<Rule>,
    start: WorldModel,
    epochs: Seq<Seq<IntentModel>>,
    kind: AdmissionMaterializer,
    message: Seq<char>,
) -> bool {
    exists|count: int, world: WorldModel|
        0 <= count < epochs.len() && #[trigger] replays_to(
            rules,
            start,
            epochs.take(count),
            world,
        ) && epoch_stops(rules, world, epochs[count], kind, message)
}

/// Replays one epoch.
fn replay_epoch(
    world: Arc<World>,
    materializer: &mut EpochMaterializer,
    intents: Vec<QueuedIntent>,
    validators: &[Rule],
) -> (result: Result<Arc<World>, AdmissionEpochOpenError>)
    requires
        numbered(world@.kernel),
        old(materializer).keeps_step(world@.kernel),
    ensures
        kind_of(*final(materializer)) == kind_of(*old(materializer)),
        match result {
            Ok(next) => {
                &&& numbered(next@.kernel)
                &&& final(materializer).keeps_step(next@.kernel)
                &&& leads_to(validators@, world@, views(intents@), next@)
                &&& forall|more: nat| #[trigger]
                    old(materializer).spare_for(total_steps(views(intents@)), more) ==> final(materializer).has_room(more)
            },
            Err(error) => error@ matches OpenErrorModel::Format(message) && (epoch_stops(
                validators@,
                world@,
                views(intents@),
                kind_of(*old(materializer)),
                message,
            ) || message == "workspace is full"@ && !old(materializer).has_room(
                total_steps(views(intents@)),
            )),
        },
        validators@.len() == 0 && old(materializer).has_room(total_steps(views(intents@)))
            ==> match epoch_replay_fault(world@, views(intents@), kind_of(*old(materializer))) {
            None => result is Ok,
            Some(fault) => result matches Err(error) && error@ == OpenErrorModel::Format(fault),
        },
{
    let ghost epoch = views(intents@);
    if !intents_fit(&world, &intents) {
        return Err(AdmissionEpochOpenError::Format("epoch is too long".to_owned()));
    }
    match materializer.derive(share(&world), intents, validators) {
        Ok((plan, _)) => {
            proof {
                reveal(leads_to);
                numbering_stays(validators@, world@, epoch, plan@);
                let verdict = choose|verdict: Seq<Result<(), Seq<char>>>|
                    verdict.len() == epoch.len() && may_settle(
                        validators@,
                        world@,
                        epoch,
                        verdict,
                    ) && plan@ == #[trigger] collapsed(chained(world@, epoch, verdict));
                assert(plan@.tail == collapsed(chained(world@, epoch, verdict)).tail);
            }
            Ok(plan.tail())
        },
        Err(message) => Err(AdmissionEpochOpenError::Format(message)),
    }
}

/// The world that epochs lead to.
#[verifier::opaque]
pub open spec fn replays_to(
    rules: Seq<Rule>,
    start: WorldModel,
    epochs: Seq<Seq<IntentModel>>,
    world: WorldModel,
) -> bool {
    &&& exists|verdicts: Seq<Seq<Result<(), Seq<char>>>>|
        may_settle_all(rules, start, epochs, verdicts) && world == #[trigger] world_after(
            start,
            epochs,
            verdicts,
        )
    &&& rules.len() == 0 ==> world == unopposed_world(start, epochs)
}

/// One more epoch.
proof fn replays_further(
    rules: Seq<Rule>,
    start: WorldModel,
    epochs: Seq<Seq<IntentModel>>,
    world: WorldModel,
    next: WorldModel,
)
    requires
        epochs.len() > 0,
        replays_to(rules, start, epochs.drop_last(), world),
        leads_to(rules, world, epochs.last(), next),
    ensures
        replays_to(rules, start, epochs, next),
{
    reveal(leads_to);
    reveal(replays_to);
    let front = epochs.drop_last();
    let verdicts = choose|verdicts: Seq<Seq<Result<(), Seq<char>>>>|
        may_settle_all(rules, start, front, verdicts) && world == #[trigger] world_after(
            start,
            front,
            verdicts,
        );
    let verdict = choose|verdict: Seq<Result<(), Seq<char>>>|
        verdict.len() == epochs.last().len() && may_settle(rules, world, epochs.last(), verdict)
            && next == #[trigger] collapsed(chained(world, epochs.last(), verdict)).tail;
    let more = verdicts.push(verdict);
    assert(more.drop_last() =~= verdicts);
    assert(may_settle_all(rules, start, epochs, more));
    assert(world_after(start, epochs, more) == next);
}

/// Nothing replayed leads nowhere.
proof fn replays_nothing(rules: Seq<Rule>, start: WorldModel)
    ensures
        replays_to(rules, start, Seq::empty(), start),
{
    reveal(replays_to);
    let none = Seq::<Seq<Result<(), Seq<char>>>>::empty();
    assert(may_settle_all(rules, start, Seq::empty(), none));
    assert(world_after(start, Seq::empty(), none) == start);
}

/// The next epoch of a replay without validators.
proof fn next_replay_fault(
    rules: Seq<Rule>,
    start: WorldModel,
    epochs: Seq<Seq<IntentModel>>,
    kind: AdmissionMaterializer,
    index: int,
    world: WorldModel,
)
    requires
        0 <= index < epochs.len(),
        rules.len() == 0,
        replays_to(rules, start, epochs.take(index), world),
        replay_fault(start, epochs.take(index), kind) is None,
    ensures
        replay_fault(start, epochs.take(index + 1), kind) == epoch_replay_fault(
            world,
            epochs[index],
            kind,
        ),
        epoch_replay_fault(world, epochs[index], kind) is Some ==> replay_fault(
            start,
            epochs,
            kind,
        ) == epoch_replay_fault(world, epochs[index], kind),
{
    reveal(replays_to);
    assert(epochs.take(index + 1).drop_last() =~= epochs.take(index));
    assert(epochs.take(index + 1).last() == epochs[index]);
    if epoch_replay_fault(world, epochs[index], kind) is Some {
        replay_fault_stays(start, epochs, kind, index + 1);
    }
}

/// Replays epochs on a world: each gets the meaning it had when it was admitted.
pub fn replay_epochs(
    start: Arc<World>,
    machine: EpochMaterializer,
    epochs: Vec<Vec<QueuedIntent>>,
    validators: &[Rule],
) -> (result: Result<(Arc<World>, EpochMaterializer), AdmissionEpochOpenError>)
    requires
        numbered(start@.kernel),
        machine.keeps_step(start@.kernel),
    ensures
        match result {
            Ok((world, materializer)) => {
                &&& materializer.keeps_step(world@.kernel)
                &&& kind_of(materializer) == kind_of(machine)
                &&& numbered(world@.kernel)
                &&& replays_to(validators@, start@, epoch_views(epochs@), world@)
            },
            Err(error) => error@ matches OpenErrorModel::Format(message) && (replay_stops(
                validators@,
                start@,
                epoch_views(epochs@),
                kind_of(machine),
                message,
            ) || message == "workspace is full"@ && !machine.has_room(
                all_steps(epoch_views(epochs@)),
            )),
        },
        validators@.len() == 0 && machine.has_room(all_steps(epoch_views(epochs@)))
            ==> match replay_fault(start@, epoch_views(epochs@), kind_of(machine)) {
            None => result is Ok,
            Some(fault) => result matches Err(error) && error@ == OpenErrorModel::Format(fault),
        },
{
    let ghost models = epoch_views(epochs@);
    let ghost kind = kind_of(machine);
    let ghost roomy = machine.has_room(all_steps(models));
    let ghost ample = validators@.len() == 0 && roomy;
    let mut materializer = machine;
    let mut world = share(&start);
    let mut waiting = epochs;
    let ghost mut index: int = 0;
    proof {
        assert(models.take(0) =~= Seq::empty());
        replays_nothing(validators@, start@);
    }
    while waiting.len() > 0
        invariant
            models == epoch_views(epochs@),
            kind == kind_of(machine),
            roomy == machine.has_room(all_steps(models)),
            ample == (validators@.len() == 0 && roomy),
            0 <= index,
            index + waiting.len() == models.len(),
            forall|i: int|
                0 <= i < waiting.len() ==> views((#[trigger] waiting@[i])@) == models[index + i],
            kind == kind_of(materializer),
            materializer.keeps_step(world@.kernel),
            numbered(world@.kernel),
            replays_to(validators@, start@, models.take(index), world@),
            ample ==> validators@.len() == 0,
            ample ==> replay_fault(start@, models.take(index), kind) is None,
            roomy ==> materializer.has_room(
                (all_steps(models) - all_steps(models.take(index))) as nat,
            ),
        decreases waiting.len(),
    {
        let ghost before = waiting@;
        let intents = waiting.remove(0);
        let ghost epoch = views(intents@);
        let ghost left = (all_steps(models) - all_steps(models.take(index))) as nat;
        let ghost after = (all_steps(models) - all_steps(models.take(index + 1))) as nat;
        let ghost machine_before = materializer;
        let ghost world_before = world@;
        proof {
            assert(epoch == models[index]);
            assert(models.take(index + 1).drop_last() =~= models.take(index));
            assert(models.take(index + 1).last() == epoch);
            all_steps_monotone(models, index + 1);
            assert forall|i: int| 0 <= i < waiting.len() implies views((#[trigger] waiting@[i])@)
                == models[index + 1 + i] by {
                assert(waiting@[i] == before[i + 1]);
            }
            if roomy {
                machine_before.weaken(left, total_steps(epoch));
                assert(machine_before.spare_for(total_steps(epoch), after));
            }
            if ample {
                next_replay_fault(validators@, start@, models, kind, index, world_before);
            }
        }
        world = match replay_epoch(world, &mut materializer, intents, validators) {
            Ok(next) => next,
            Err(error) => {
                proof {
                    reveal(replay_stops);
                    assert(replays_to(validators@, start@, models.take(index), world_before));
                }
                return Err(error);
            },
        };
        proof {
            replays_further(
                validators@,
                start@,
                models.take(index + 1),
                world_before,
                world@,
            );
            index = index + 1;
        }
    }
    proof {
        assert(models.take(index) =~= models);
    }
    Ok((world, materializer))
}

impl EpochMaterializer {
    /// Room for more is room for less.
    pub proof fn weaken(&self, large: nat, small: nat)
        requires
            self.has_room(large),
            small <= large,
        ensures
            self.has_room(small),
    {
        match self {
            EpochMaterializer::World => {},
            EpochMaterializer::TokenVm(vm) => {
                vm.weaken_room(large, small);
            },
        }
    }
}

/// An epoch that gets its meaning live gets the same meaning when the journal is replayed: the
/// world it leads to is one that the replay of all epochs up to it leads to.
pub proof fn live_epochs_replay(
    rules: Seq<Rule>,
    start: WorldModel,
    epochs: Seq<Seq<IntentModel>>,
    world: WorldModel,
    epoch: Seq<IntentModel>,
    plan: PlanModel,
)
    requires
        replays_to(rules, start, epochs, world),
        plans(rules, world, epoch, plan),
    ensures
        replays_to(rules, start, epochs.push(epoch), plan.tail),
{
    reveal(leads_to);
    let verdict = choose|verdict: Seq<Result<(), Seq<char>>>|
        verdict.len() == epoch.len() && may_settle(rules, world, epoch, verdict) && plan
            == #[trigger] collapsed(chained(world, epoch, verdict));
    assert(plan.tail == collapsed(chained(world, epoch, verdict)).tail);
    assert(epochs.push(epoch).drop_last() =~= epochs);
    replays_further(rules, start, epochs.push(epoch), world, plan.tail);
}

/// Without validators, epochs lead to one world.
pub proof fn replay_is_deterministic(
    rules: Seq<Rule>,
    start: WorldModel,
    epochs: Seq<Seq<IntentModel>>,
    left: WorldModel,
    right: WorldModel,
)
    requires
        rules.len() == 0,
        replays_to(rules, start, epochs, left),
        replays_to(rules, start, epochs, right),
    ensures
        left == right,
{
    reveal(replays_to);
}

} // verus!
