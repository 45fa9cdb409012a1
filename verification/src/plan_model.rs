//! What it means to plan an epoch: intents in order, each against the world that the accepted
//! ones before it lead to.

use crate::database::{Rule, may_judge};
use crate::errors::{CandidateError, CandidateErrorModel};
use crate::fact::{AtomModel, EntityId, Fact, FactModel, Literal, OperationModel, SlotId};
use crate::frame::{FrameModel, WorldId};
use crate::intent::{
    IntentAtomModel, IntentFactModel, IntentModel, IntentOperationModel, PreconditionModel,
    TempEntity, optional_fact,
};
use crate::kernel::{
    DefinitionModel, KernelModel, active_fact, numbered, replayed, replayed_concat,
    replayed_keeps_order,
};
use crate::world::{
    CandidateModel, WorldModel, candidate_of, commit_frame_of, epoch_world_of, has_room, published,
    publishing_is_replaying, reconstructed,
};
use vstd::prelude::*;

verus! {

/// Why an intent is turned down.
#[derive(Debug)]
#[allow(inconsistent_fields)]
pub enum IntentRejection {
    WorldPrecondition { expected: WorldId, actual: WorldId },
    SlotPrecondition { slot: SlotId, expected: Option<Fact>, actual: Option<Fact> },
    UnknownTemporaryEntity(TempEntity),
    Candidate(CandidateError),
    Validation(String),
}

/// Mathematical value of an [`IntentRejection`].
#[allow(inconsistent_fields)]
pub enum RejectionModel {
    WorldPrecondition { expected: WorldId, actual: WorldId },
    SlotPrecondition { slot: Seq<char>, expected: Option<FactModel>, actual: Option<FactModel> },
    UnknownTemporaryEntity(TempEntity),
    Candidate(CandidateErrorModel),
    Validation(Seq<char>),
}

impl View for IntentRejection {
    type V = RejectionModel;

    open spec fn view(&self) -> RejectionModel {
        match *self {
            IntentRejection::WorldPrecondition { expected, actual } =>
                RejectionModel::WorldPrecondition { expected, actual },
            IntentRejection::SlotPrecondition { slot, expected, actual } =>
                RejectionModel::SlotPrecondition {
                slot: slot@,
                expected: optional_fact(expected),
                actual: optional_fact(actual),
            },
            IntentRejection::UnknownTemporaryEntity(temporary) =>
                RejectionModel::UnknownTemporaryEntity(temporary),
            IntentRejection::Candidate(error) => RejectionModel::Candidate(error@),
            IntentRejection::Validation(message) => RejectionModel::Validation(message@),
        }
    }
}

/// Whether one demand fails in a world with identity `id` and definitions `live`.
pub open spec fn precondition_fault(
    id: WorldId,
    live: Seq<DefinitionModel>,
    precondition: PreconditionModel,
) -> Option<RejectionModel> {
    match precondition {
        PreconditionModel::ExpectedWorld(expected) => if expected != id {
            Some(RejectionModel::WorldPrecondition { expected, actual: id })
        } else {
            None
        },
        PreconditionModel::ExpectedSlot { slot, expected } => if active_fact(live, slot)
            != expected {
            Some(
                RejectionModel::SlotPrecondition {
                    slot,
                    expected,
                    actual: active_fact(live, slot),
                },
            )
        } else {
            None
        },
    }
}

/// The first demand that fails.
pub open spec fn preconditions_fault(
    id: WorldId,
    live: Seq<DefinitionModel>,
    preconditions: Seq<PreconditionModel>,
) -> Option<RejectionModel>
    decreases preconditions.len(),
{
    if preconditions.len() == 0 {
        None
    } else {
        match preconditions_fault(id, live, preconditions.drop_last()) {
            Some(fault) => Some(fault),
            None => precondition_fault(id, live, preconditions.last()),
        }
    }
}

/// The operations of an intent with its temporary entities resolved, the identities that they
/// got, and the next identity behind them.
pub struct ResolvedModel {
    pub operations: Seq<OperationModel>,
    pub entities: Map<u32, EntityId>,
    pub next_entity: nat,
}

/// An atom with its temporary entity resolved; a handle of another scope, or one that is not
/// allocated yet, is unknown.
pub open spec fn resolved_atom(
    atom: IntentAtomModel,
    namespace: u64,
    entities: Map<u32, EntityId>,
) -> Result<AtomModel, TempEntity> {
    match atom {
        IntentAtomModel::Entity(entity) => Ok(AtomModel::Entity(entity)),
        IntentAtomModel::Literal(literal) => Ok(AtomModel::Literal(literal)),
        IntentAtomModel::Temporary(temporary) => if temporary.scope() != namespace
            || !entities.contains_key(temporary.number()) {
            Err(temporary)
        } else {
            Ok(AtomModel::Entity(entities[temporary.number()].0))
        },
    }
}

pub open spec fn resolved_fact(
    fact: IntentFactModel,
    namespace: u64,
    entities: Map<u32, EntityId>,
) -> Result<FactModel, TempEntity> {
    match resolved_atom(fact.subject, namespace, entities) {
        Err(temporary) => Err(temporary),
        Ok(subject) => match resolved_atom(fact.object, namespace, entities) {
            Err(temporary) => Err(temporary),
            Ok(object) => Ok(FactModel { subject, predicate: fact.predicate, object }),
        },
    }
}

/// One more operation behind resolved ones.
pub open spec fn resolved_step(
    done: ResolvedModel,
    namespace: u64,
    operation: IntentOperationModel,
) -> Result<ResolvedModel, TempEntity> {
    match operation {
        IntentOperationModel::AllocateEntity { temporary } => if temporary.scope() != namespace {
            Err(temporary)
        } else {
            let entity = EntityId(done.next_entity as u64);
            Ok(
                ResolvedModel {
                    operations: done.operations.push(
                        OperationModel::AllocateEntity { entity: entity.0 },
                    ),
                    entities: done.entities.insert(temporary.number(), entity),
                    next_entity: done.next_entity + 1,
                },
            )
        },
        IntentOperationModel::Define { slot, fact } => match resolved_fact(
            fact,
            namespace,
            done.entities,
        ) {
            Err(temporary) => Err(temporary),
            Ok(fact) => Ok(
                ResolvedModel {
                    operations: done.operations.push(OperationModel::Define { slot, fact }),
                    ..done
                },
            ),
        },
        IntentOperationModel::Forget { slot } => Ok(
            ResolvedModel {
                operations: done.operations.push(OperationModel::Forget { slot }),
                ..done
            },
        ),
    }
}

/// The operations of an intent that starts where `next_entity` is the next identity.
pub open spec fn resolved(
    next_entity: nat,
    namespace: u64,
    operations: Seq<IntentOperationModel>,
) -> Result<ResolvedModel, TempEntity>
    decreases operations.len(),
{
    if operations.len() == 0 {
        Ok(ResolvedModel { operations: Seq::empty(), entities: Map::empty(), next_entity })
    } else {
        match resolved(next_entity, namespace, operations.drop_last()) {
            Err(temporary) => Err(temporary),
            Ok(done) => resolved_step(done, namespace, operations.last()),
        }
    }
}

/// The candidate that an intent makes of a world, and the identities of its entities.
#[verifier::opaque]
pub open spec fn proposal(world: WorldModel, intent: IntentModel) -> Result<
    (CandidateModel, Map<u32, EntityId>),
    RejectionModel,
> {
    match preconditions_fault(world.id, world.kernel.live, intent.preconditions) {
        Some(fault) => Err(fault),
        None => match resolved(world.kernel.next_entity, intent.namespace, intent.operations) {
            Err(temporary) => Err(RejectionModel::UnknownTemporaryEntity(temporary)),
            Ok(done) => match candidate_of(world, done.operations) {
                Err(error) => Err(RejectionModel::Candidate(error)),
                Ok(candidate) => Ok((candidate, done.entities)),
            },
        },
    }
}

/// A proposal with the validators' verdict on it.
pub open spec fn settled(
    world: WorldModel,
    intent: IntentModel,
    verdict: Result<(), Seq<char>>,
) -> Result<(CandidateModel, Map<u32, EntityId>), RejectionModel> {
    match proposal(world, intent) {
        Err(fault) => Err(fault),
        Ok(proposed) => match verdict {
            Ok(()) => Ok(proposed),
            Err(message) => Err(RejectionModel::Validation(message)),
        },
    }
}

/// What became of one intent.
pub enum OutcomeModel {
    Accepted {
        position: nat,
        world: WorldModel,
        frame: FrameModel,
        namespace: u64,
        entities: Map<u32, EntityId>,
    },
    Rejected { position: nat, error: RejectionModel },
}

/// What an epoch leads to.
pub struct PlanModel {
    pub base: WorldModel,
    pub tail: WorldModel,
    pub outcomes: Seq<OutcomeModel>,
    pub frames: Seq<FrameModel>,
}

/// One more intent behind a plan: accepted, it moves the tail; rejected, it leaves it.
pub open spec fn extended(
    plan: PlanModel,
    intent: IntentModel,
    verdict: Result<(), Seq<char>>,
) -> PlanModel {
    match settled(plan.tail, intent, verdict) {
        Ok((candidate, entities)) => {
            let world = published(candidate, plan.tail.history);
            PlanModel {
                base: plan.base,
                tail: world,
                outcomes: plan.outcomes.push(
                    OutcomeModel::Accepted {
                        position: plan.outcomes.len(),
                        world,
                        frame: candidate.frame,
                        namespace: intent.namespace,
                        entities,
                    },
                ),
                frames: plan.frames.push(candidate.frame),
            }
        },
        Err(error) => PlanModel {
            outcomes: plan.outcomes.push(
                OutcomeModel::Rejected { position: plan.outcomes.len(), error },
            ),
            ..plan
        },
    }
}

/// The plan of an epoch in which every accepted intent has a frame of its own, given the verdict
/// on each proposal.
pub open spec fn chained(
    base: WorldModel,
    intents: Seq<IntentModel>,
    verdicts: Seq<Result<(), Seq<char>>>,
) -> PlanModel
    decreases intents.len(),
{
    if intents.len() == 0 {
        PlanModel { base, tail: base, outcomes: Seq::empty(), frames: Seq::empty() }
    } else {
        extended(
            chained(base, intents.drop_last(), verdicts),
            intents.last(),
            verdicts[intents.len() - 1],
        )
    }
}

/// Verdicts that the validators may have given on the proposals of an epoch.
#[verifier::opaque]
pub open spec fn may_settle(
    validators: Seq<Rule>,
    base: WorldModel,
    intents: Seq<IntentModel>,
    verdicts: Seq<Result<(), Seq<char>>>,
) -> bool {
    forall|i: int|
        0 <= i < intents.len() ==> (proposal(
            chained(base, intents.take(i), verdicts).tail,
            #[trigger] intents[i],
        ) matches Ok((candidate, _)) ==> may_judge(validators, candidate, verdicts[i]))
}

/// No validator objects to anything.
pub open spec fn unopposed(count: nat) -> Seq<Result<(), Seq<char>>> {
    Seq::new(count, |i: int| Ok::<(), Seq<char>>(()))
}

/// The operations of a list of frames, in order.
pub open spec fn joined_operations(frames: Seq<FrameModel>) -> Seq<OperationModel>
    decreases frames.len(),
{
    if frames.len() == 0 {
        Seq::empty()
    } else {
        joined_operations(frames.drop_last()) + frames.last().operations
    }
}

/// An accepted intent observes the world of the whole epoch.
pub open spec fn moved(outcome: OutcomeModel, world: WorldModel, frame: FrameModel) -> OutcomeModel {
    match outcome {
        OutcomeModel::Accepted { position, world: _, frame: _, namespace, entities } =>
            OutcomeModel::Accepted { position, world, frame, namespace, entities },
        OutcomeModel::Rejected { position, error } => OutcomeModel::Rejected { position, error },
    }
}

/// The same epoch with all accepted operations in one frame.
pub open spec fn collapsed(plan: PlanModel) -> PlanModel {
    if plan.frames.len() == 0 {
        plan
    } else {
        let operations = joined_operations(plan.frames);
        let world = epoch_world_of(plan.base, operations, plan.tail.kernel);
        let frame = commit_frame_of(
            plan.base.id,
            plan.base.version,
            operations,
            plan.tail.kernel.next_entity,
        );
        PlanModel {
            base: plan.base,
            tail: world,
            outcomes: Seq::new(
                plan.outcomes.len(),
                |i: int| moved(plan.outcomes[i], world, frame),
            ),
            frames: seq![frame],
        }
    }
}

/// How many operations the intents of an epoch have together.
pub open spec fn total_steps(intents: Seq<IntentModel>) -> nat
    decreases intents.len(),
{
    if intents.len() == 0 {
        0
    } else {
        total_steps(intents.drop_last()) + intents.last().operations.len()
    }
}

/// There is room to count the effects of an epoch.
pub open spec fn has_epoch_room(base: WorldModel, intents: Seq<IntentModel>) -> bool {
    &&& base.version + intents.len() < u64::MAX
    &&& base.operation_count + total_steps(intents) <= usize::MAX
    &&& base.kernel.records + total_steps(intents) <= usize::MAX
    &&& base.kernel.next_entity + total_steps(intents) <= u64::MAX
}

pub proof fn total_steps_monotone(intents: Seq<IntentModel>, count: int)
    requires
        0 <= count <= intents.len(),
    ensures
        total_steps(intents.take(count)) <= total_steps(intents),
    decreases intents.len(),
{
    if count == intents.len() {
        assert(intents.take(count) =~= intents);
    } else {
        assert(intents.drop_last().take(count) =~= intents.take(count));
        total_steps_monotone(intents.drop_last(), count);
    }
}

/// Resolving keeps the number of operations, hands out identities in order, and gives operations
/// that apply to every state with that next identity.
pub proof fn resolved_applies(
    next_entity: nat,
    namespace: u64,
    operations: Seq<IntentOperationModel>,
    kernel: KernelModel,
)
    requires
        kernel.next_entity == next_entity,
        next_entity + operations.len() <= u64::MAX,
    ensures
        resolved(next_entity, namespace, operations) matches Ok(done) ==> done.operations.len()
            == operations.len() && next_entity <= done.next_entity <= next_entity
            + operations.len() && (replayed(kernel, done.operations) matches Ok(next)
            && next.next_entity == done.next_entity),
    decreases operations.len(),
{
    if operations.len() > 0 {
        resolved_applies(next_entity, namespace, operations.drop_last(), kernel);
        if let Ok(done) = resolved(next_entity, namespace, operations.drop_last()) {
            if let Ok(more) = resolved_step(done, namespace, operations.last()) {
                assert(more.operations.drop_last() =~= done.operations);
            }
        }
    }
}

proof fn demands_name_their_fault(
    id: WorldId,
    live: Seq<DefinitionModel>,
    preconditions: Seq<PreconditionModel>,
)
    ensures
        preconditions_fault(id, live, preconditions) matches Some(fault)
            ==> fault is WorldPrecondition || fault is SlotPrecondition,
    decreases preconditions.len(),
{
    if preconditions.len() > 0 {
        demands_name_their_fault(id, live, preconditions.drop_last());
    }
}

/// A proposal never fails on its operations: only preconditions, unknown handles and validators
/// turn an intent down.
pub proof fn proposals_always_apply(world: WorldModel, intent: IntentModel)
    requires
        world.kernel.next_entity + intent.operations.len() <= u64::MAX,
    ensures
        proposal(world, intent) matches Err(error) ==> !(error is Candidate),
{
    reveal(proposal);
    demands_name_their_fault(world.id, world.kernel.live, intent.preconditions);
    resolved_applies(
        world.kernel.next_entity,
        intent.namespace,
        intent.operations,
        world.kernel,
    );
}

/// What one more intent does to the tail of a plan.
pub proof fn extended_facts(
    plan: PlanModel,
    intent: IntentModel,
    verdict: Result<(), Seq<char>>,
)
    requires
        has_room(plan.tail, intent.operations.len()),
    ensures
        ({
            let more = extended(plan, intent, verdict);
            let steps = intent.operations.len();
            &&& numbered(plan.tail.kernel) ==> numbered(more.tail.kernel)
            &&& plan.tail.version <= more.tail.version <= plan.tail.version + 1
            &&& more.tail.operation_count <= plan.tail.operation_count + steps
            &&& more.tail.kernel.records <= plan.tail.kernel.records + steps
            &&& more.tail.kernel.next_entity <= plan.tail.kernel.next_entity + steps
        }),
        settled(plan.tail, intent, verdict) matches Ok((candidate, _))
            ==> candidate.frame.operations.len() == intent.operations.len()
            && candidate.base_operation_count == plan.tail.operation_count,
{
    reveal(proposal);
    resolved_applies(
        plan.tail.kernel.next_entity,
        intent.namespace,
        intent.operations,
        plan.tail.kernel,
    );
    if let Ok(done) = resolved(plan.tail.kernel.next_entity, intent.namespace, intent.operations) {
        replayed_keeps_order(plan.tail.kernel, done.operations);
    }
}

/// Along an epoch there is room for every intent.
pub proof fn chained_room(
    base: WorldModel,
    intents: Seq<IntentModel>,
    verdicts: Seq<Result<(), Seq<char>>>,
    count: int,
)
    requires
        has_epoch_room(base, intents),
        0 <= count <= intents.len(),
    ensures
        ({
            let tail = chained(base, intents.take(count), verdicts).tail;
            let steps = total_steps(intents.take(count));
            &&& numbered(base.kernel) ==> numbered(tail.kernel)
            &&& base.version <= tail.version <= base.version + count
            &&& tail.operation_count <= base.operation_count + steps
            &&& tail.kernel.records <= base.kernel.records + steps
            &&& tail.kernel.next_entity <= base.kernel.next_entity + steps
        }),
        count < intents.len() ==> has_room(
            chained(base, intents.take(count), verdicts).tail,
            intents[count].operations.len(),
        ),
    decreases count,
{
    total_steps_monotone(intents, count);
    if count < intents.len() {
        total_steps_monotone(intents, count + 1);
        assert(intents.take(count + 1).drop_last() =~= intents.take(count));
        assert(intents.take(count + 1).last() == intents[count]);
    }
    if count > 0 {
        chained_room(base, intents, verdicts, count - 1);
        let before = intents.take(count - 1);
        assert(intents.take(count).drop_last() =~= before);
        assert(intents.take(count).last() == intents[count - 1]);
        extended_facts(
            chained(base, before, verdicts),
            intents[count - 1],
            verdicts[count - 1],
        );
    }
}

/// Later verdicts have no bearing on earlier intents.
pub proof fn chained_ignores_later_verdicts(
    base: WorldModel,
    intents: Seq<IntentModel>,
    left: Seq<Result<(), Seq<char>>>,
    right: Seq<Result<(), Seq<char>>>,
)
    requires
        forall|i: int| 0 <= i < intents.len() ==> left[i] == right[i],
    ensures
        chained(base, intents, left) == chained(base, intents, right),
    decreases intents.len(),
{
    if intents.len() > 0 {
        chained_ignores_later_verdicts(base, intents.drop_last(), left, right);
    }
}

/// Fair verdicts with a fair verdict behind them are fair.
proof fn settle_one_more(
    validators: Seq<Rule>,
    base: WorldModel,
    intents: Seq<IntentModel>,
    intent: IntentModel,
    verdicts: Seq<Result<(), Seq<char>>>,
    verdict: Result<(), Seq<char>>,
)
    requires
        verdicts.len() == intents.len(),
        may_settle(validators, base, intents, verdicts),
        proposal(chained(base, intents, verdicts).tail, intent) matches Ok((candidate, _))
            ==> may_judge(validators, candidate, verdict),
    ensures
        may_settle(validators, base, intents.push(intent), verdicts.push(verdict)),
{
    reveal(may_settle);
    let more = intents.push(intent);
    let answers = verdicts.push(verdict);
    assert forall|i: int| 0 <= i < more.len() implies (proposal(
        chained(base, more.take(i), answers).tail,
        #[trigger] more[i],
    ) matches Ok((candidate, _)) ==> may_judge(validators, candidate, answers[i])) by {
        assert(more.take(i) =~= intents.take(i));
        assert(intents.take(intents.len() as int) =~= intents);
        chained_ignores_later_verdicts(base, intents.take(i), verdicts, answers);
        if i < intents.len() {
            assert(more[i] == intents[i]);
        }
    }
}

/// `plan` is the plan of the first `count` intents under fair verdicts.
#[verifier::opaque]
pub open spec fn planned(
    validators: Seq<Rule>,
    base: WorldModel,
    intents: Seq<IntentModel>,
    count: int,
    verdicts: Seq<Result<(), Seq<char>>>,
    plan: PlanModel,
) -> bool {
    &&& 0 <= count <= intents.len()
    &&& verdicts.len() == count
    &&& may_settle(validators, base, intents.take(count), verdicts)
    &&& plan == chained(base, intents.take(count), verdicts)
    &&& validators.len() == 0 ==> verdicts == unopposed(count as nat)
}

pub proof fn planned_start(validators: Seq<Rule>, base: WorldModel, intents: Seq<IntentModel>)
    ensures
        planned(
            validators,
            base,
            intents,
            0,
            Seq::empty(),
            PlanModel { base, tail: base, outcomes: Seq::empty(), frames: Seq::empty() },
        ),
{
    reveal(planned);
    reveal(may_settle);
    assert(intents.take(0) =~= Seq::empty());
    assert(unopposed(0) =~= Seq::empty());
}

/// What is known in the middle of planning.
pub proof fn planned_facts(
    validators: Seq<Rule>,
    base: WorldModel,
    intents: Seq<IntentModel>,
    count: int,
    verdicts: Seq<Result<(), Seq<char>>>,
    plan: PlanModel,
)
    requires
        planned(validators, base, intents, count, verdicts, plan),
        has_epoch_room(base, intents),
    ensures
        plan.base == base,
        plan.outcomes.len() == count,
        plan.frames.len() <= count,
        count < intents.len() ==> has_room(plan.tail, intents[count].operations.len()),
        plan.frames.len() == 0 ==> plan.tail == base && (forall|i: int|
            0 <= i < count ==> (#[trigger] plan.outcomes[i]) is Rejected),
{
    reveal(planned);
    chained_room(base, intents, verdicts, count);
    outcomes_follow_intents(base, intents.take(count), verdicts);
    if plan.frames.len() == 0 {
        no_frames_keep_base(base, intents.take(count), verdicts);
    }
}

/// One more intent and the verdict on it.
pub proof fn planned_step(
    validators: Seq<Rule>,
    base: WorldModel,
    intents: Seq<IntentModel>,
    count: int,
    verdicts: Seq<Result<(), Seq<char>>>,
    plan: PlanModel,
    verdict: Result<(), Seq<char>>,
)
    requires
        planned(validators, base, intents, count, verdicts, plan),
        count < intents.len(),
        proposal(plan.tail, intents[count]) matches Ok((candidate, _)) ==> may_judge(
            validators,
            candidate,
            verdict,
        ),
        validators.len() == 0 ==> verdict == Ok::<(), Seq<char>>(()),
    ensures
        planned(
            validators,
            base,
            intents,
            count + 1,
            verdicts.push(verdict),
            extended(plan, intents[count], verdict),
        ),
{
    reveal(planned);
    let before = intents.take(count);
    settle_one_more(validators, base, before, intents[count], verdicts, verdict);
    chained_ignores_later_verdicts(base, before, verdicts, verdicts.push(verdict));
    assert(before.push(intents[count]) =~= intents.take(count + 1));
    assert(intents.take(count + 1).drop_last() =~= before);
    if validators.len() == 0 {
        assert(verdicts.push(verdict) =~= unopposed((count + 1) as nat));
    }
}

/// The finished plan.
pub proof fn planned_end(
    validators: Seq<Rule>,
    base: WorldModel,
    intents: Seq<IntentModel>,
    verdicts: Seq<Result<(), Seq<char>>>,
    plan: PlanModel,
)
    requires
        planned(validators, base, intents, intents.len() as int, verdicts, plan),
    ensures
        verdicts.len() == intents.len(),
        may_settle(validators, base, intents, verdicts),
        plan == chained(base, intents, verdicts),
        validators.len() == 0 ==> verdicts == unopposed(intents.len()),
{
    reveal(planned);
    assert(intents.take(intents.len() as int) =~= intents);
}

/// An epoch without frames is one in which every intent was rejected.
pub proof fn no_frames_keep_base(
    base: WorldModel,
    intents: Seq<IntentModel>,
    verdicts: Seq<Result<(), Seq<char>>>,
)
    requires
        chained(base, intents, verdicts).frames.len() == 0,
    ensures
        chained(base, intents, verdicts).tail == base,
        forall|i: int|
            0 <= i < chained(base, intents, verdicts).outcomes.len() ==> (#[trigger] chained(
                base,
                intents,
                verdicts,
            ).outcomes[i]) is Rejected,
    decreases intents.len(),
{
    if intents.len() > 0 {
        let before = chained(base, intents.drop_last(), verdicts);
        let plan = chained(base, intents, verdicts);
        no_frames_keep_base(base, intents.drop_last(), verdicts);
        assert forall|i: int| 0 <= i < plan.outcomes.len() implies (
        #[trigger] plan.outcomes[i]) is Rejected by {
            if i < before.outcomes.len() {
                assert(plan.outcomes[i] == before.outcomes[i]);
            }
        }
    }
}

/// A rejected intent consumes neither a version nor an entity identity, and leaves no frame.
pub proof fn rejection_consumes_nothing(
    plan: PlanModel,
    intent: IntentModel,
    verdict: Result<(), Seq<char>>,
)
    requires
        settled(plan.tail, intent, verdict) is Err,
    ensures
        extended(plan, intent, verdict).tail == plan.tail,
        extended(plan, intent, verdict).frames == plan.frames,
{
}

/// Every intent has one outcome, at its own position, and each accepted one has one frame.
pub proof fn outcomes_follow_intents(
    base: WorldModel,
    intents: Seq<IntentModel>,
    verdicts: Seq<Result<(), Seq<char>>>,
)
    ensures
        ({
            let plan = chained(base, intents, verdicts);
            &&& plan.base == base
            &&& plan.outcomes.len() == intents.len()
            &&& forall|i: int|
                0 <= i < intents.len() ==> outcome_position(#[trigger] plan.outcomes[i]) == i
            &&& plan.frames.len() <= intents.len()
        }),
        collapsed(chained(base, intents, verdicts)).outcomes.len() == intents.len(),
        forall|i: int|
            0 <= i < intents.len() ==> outcome_position(
                #[trigger] collapsed(chained(base, intents, verdicts)).outcomes[i],
            ) == i,
    decreases intents.len(),
{
    if intents.len() > 0 {
        outcomes_follow_intents(base, intents.drop_last(), verdicts);
        let before = chained(base, intents.drop_last(), verdicts);
        let plan = chained(base, intents, verdicts);
        assert forall|i: int| 0 <= i < intents.len() implies outcome_position(
            #[trigger] plan.outcomes[i],
        ) == i by {
            if i < intents.len() - 1 {
                assert(plan.outcomes[i] == before.outcomes[i]);
            }
        }
    }
    let plan = chained(base, intents, verdicts);
    assert forall|i: int| 0 <= i < intents.len() implies outcome_position(
        #[trigger] collapsed(plan).outcomes[i],
    ) == i by {
        assert(outcome_position(plan.outcomes[i]) == i);
    }
}

pub open spec fn outcome_position(outcome: OutcomeModel) -> int {
    match outcome {
        OutcomeModel::Accepted { position, world: _, frame: _, namespace: _, entities: _ } =>
            position as int,
        OutcomeModel::Rejected { position, error: _ } => position as int,
    }
}

/// An epoch in which every intent is rejected keeps the base and emits no frame.
pub proof fn all_rejected_keeps_base(
    base: WorldModel,
    intents: Seq<IntentModel>,
    verdicts: Seq<Result<(), Seq<char>>>,
)
    requires
        forall|i: int|
            0 <= i < intents.len() ==> chained(base, intents, verdicts).outcomes[i] is Rejected,
    ensures
        chained(base, intents, verdicts).tail == base,
        chained(base, intents, verdicts).frames.len() == 0,
        collapsed(chained(base, intents, verdicts)).tail == base,
        collapsed(chained(base, intents, verdicts)).frames.len() == 0,
    decreases intents.len(),
{
    if intents.len() > 0 {
        let plan = chained(base, intents, verdicts);
        let before = chained(base, intents.drop_last(), verdicts);
        outcomes_follow_intents(base, intents.drop_last(), verdicts);
        assert forall|i: int| 0 <= i < intents.len() - 1 implies before.outcomes[i] is Rejected by {
            assert(plan.outcomes[i] == before.outcomes[i]);
        }
        all_rejected_keeps_base(base, intents.drop_last(), verdicts);
        assert(plan.outcomes[intents.len() - 1] is Rejected);
    }
}

/// In a collapsed epoch every accepted intent observes the one published world and its frame.
pub proof fn accepted_share_the_epoch_world(plan: PlanModel, index: int)
    requires
        0 <= index < plan.outcomes.len(),
        plan.frames.len() > 0,
    ensures
        collapsed(plan).outcomes[index] matches OutcomeModel::Accepted { world, frame, .. }
            ==> world == collapsed(plan).tail && frame == collapsed(plan).frames[0],
        collapsed(plan).frames.len() == 1,
        collapsed(plan).tail.version == (plan.base.version + 1) as u64,
{
}

/// The accepted operations, one after the other, lead from the base to the tail.
pub proof fn chained_replays(
    base: WorldModel,
    intents: Seq<IntentModel>,
    verdicts: Seq<Result<(), Seq<char>>>,
)
    requires
        has_epoch_room(base, intents),
    ensures
        ({
            let plan = chained(base, intents, verdicts);
            &&& replayed(base.kernel, joined_operations(plan.frames)) == Ok::<
                KernelModel,
                CandidateErrorModel,
            >(plan.tail.kernel)
            &&& joined_operations(plan.frames).len() <= total_steps(intents)
            &&& plan.tail.operation_count == base.operation_count + joined_operations(
                plan.frames,
            ).len()
        }),
    decreases intents.len(),
{
    let plan = chained(base, intents, verdicts);
    if intents.len() > 0 {
        let front = intents.drop_last();
        assert(front =~= intents.take(intents.len() - 1));
        total_steps_monotone(intents, intents.len() - 1);
        chained_replays(base, front, verdicts);
        let before = chained(base, front, verdicts);
        chained_room(base, intents, verdicts, intents.len() - 1);
        let intent = intents.last();
        extended_facts(before, intent, verdicts[intents.len() - 1]);
        if let Ok((candidate, entities)) = settled(
            before.tail,
            intent,
            verdicts[intents.len() - 1],
        ) {
            reveal(proposal);
            assert(plan.frames.drop_last() =~= before.frames);
            replayed_concat(
                base.kernel,
                joined_operations(before.frames),
                candidate.frame.operations,
            );
        }
    }
}

/// The frames of a plan replay to its tail, wherever the base's history replays to the base.
pub proof fn plan_replays(
    base: WorldModel,
    intents: Seq<IntentModel>,
    verdicts: Seq<Result<(), Seq<char>>>,
)
    requires
        has_epoch_room(base, intents),
        reconstructed(base.history) == Ok::<WorldModel, CandidateErrorModel>(base),
    ensures
        ({
            let plan = chained(base, intents, verdicts);
            &&& plan.tail.history == base.history + plan.frames
            &&& reconstructed(base.history + plan.frames) == Ok::<
                WorldModel,
                CandidateErrorModel,
            >(plan.tail)
            &&& replayed(base.kernel, joined_operations(plan.frames)) == Ok::<
                KernelModel,
                CandidateErrorModel,
            >(plan.tail.kernel)
            &&& joined_operations(plan.frames).len() <= total_steps(intents)
        }),
    decreases intents.len(),
{
    let plan = chained(base, intents, verdicts);
    if intents.len() == 0 {
        assert(base.history + plan.frames =~= base.history);
    } else {
        let front = intents.drop_last();
        assert(front =~= intents.take(intents.len() - 1));
        total_steps_monotone(intents, intents.len() - 1);
        plan_replays(base, front, verdicts);
        let before = chained(base, front, verdicts);
        chained_room(base, intents, verdicts, intents.len() - 1);
        let intent = intents.last();
        resolved_applies(
            before.tail.kernel.next_entity,
            intent.namespace,
            intent.operations,
            before.tail.kernel,
        );
        if let Ok((candidate, entities)) = settled(
            before.tail,
            intent,
            verdicts[intents.len() - 1],
        ) {
            reveal(proposal);
            let operations = candidate.frame.operations;
            publishing_is_replaying(before.tail, operations);
            assert(base.history + plan.frames =~= (base.history + before.frames).push(
                candidate.frame,
            ));
            assert((base.history + plan.frames).drop_last() =~= base.history + before.frames);
            assert(plan.frames.drop_last() =~= before.frames);
            replayed_concat(base.kernel, joined_operations(before.frames), operations);
        }
    }
}

/// The single frame of a collapsed epoch replays to the collapsed world: nothing is lost by
/// putting all accepted operations into one frame.
pub proof fn collapsed_plan_replays(
    base: WorldModel,
    intents: Seq<IntentModel>,
    verdicts: Seq<Result<(), Seq<char>>>,
)
    requires
        has_epoch_room(base, intents),
        reconstructed(base.history) == Ok::<WorldModel, CandidateErrorModel>(base),
    ensures
        ({
            let plan = collapsed(chained(base, intents, verdicts));
            &&& plan.tail.history == base.history + plan.frames
            &&& reconstructed(base.history + plan.frames) == Ok::<
                WorldModel,
                CandidateErrorModel,
            >(plan.tail)
        }),
        collapsed(chained(base, intents, verdicts)).tail.kernel == chained(
            base,
            intents,
            verdicts,
        ).tail.kernel,
{
    plan_replays(base, intents, verdicts);
    let chain = chained(base, intents, verdicts);
    let plan = collapsed(chain);
    outcomes_follow_intents(base, intents, verdicts);
    if chain.frames.len() > 0 {
        let operations = joined_operations(chain.frames);
        let frame = plan.frames[0];
        assert(base.history + plan.frames =~= base.history.push(frame));
        assert((base.history + plan.frames).drop_last() =~= base.history);
        replayed_keeps_order(base.kernel, operations);
    }
}

} // verus!
