//! Planning an epoch: a private chain of worlds, or one world for all accepted intents.

use crate::database::{Database, MemoryCommitStore, Rule, judge, may_judge, verdict_model};
use crate::errors::CandidateErrorModel;
use crate::fact::{
    Atom, EntityId, Fact, Literal, Operation, clone_operations, views, views_concat, views_push,
};
use crate::frame::{CommitFrame, WorldId, share};
use crate::intent::{
    IntentAtom, IntentFact, IntentOperation, IntentOperationModel, IntentPrecondition,
    PreconditionModel, QueuedIntent, TempEntity, clone_optional_fact, optional_fact,
};
use crate::kernel::{DefinitionModel, Kernel, KernelModel, replayed};
use crate::plan_model::{
    IntentRejection, OutcomeModel, PlanModel, RejectionModel, ResolvedModel, chained, collapsed,
    extended, extended_facts, has_epoch_room, joined_operations, may_settle, moved,
    outcome_position, plan_replays, planned, planned_end, planned_facts, planned_start,
    planned_step, preconditions_fault, proposal, resolved, resolved_applies, resolved_atom,
    resolved_fact, settled, unopposed,
};
use crate::world::{
    CandidateModel, CandidateWorld, World, WorldModel, has_room, reconstructed_facts,
};
use std::collections::BTreeMap;
use std::sync::Arc;
use vstd::prelude::*;

verus! {

/// An intent that was accepted.
pub struct AcceptedIntent {
    position: usize,
    world: Arc<World>,
    frame: Arc<CommitFrame>,
    namespace: u64,
    entities: BTreeMap<u32, EntityId>,
}

impl View for AcceptedIntent {
    type V = OutcomeModel;

    closed spec fn view(&self) -> OutcomeModel {
        OutcomeModel::Accepted {
            position: self.position as nat,
            world: self.world@,
            frame: self.frame@,
            namespace: self.namespace,
            entities: self.entities@,
        }
    }
}

impl AcceptedIntent {
    pub(crate) fn new(
        position: usize,
        world: Arc<World>,
        frame: Arc<CommitFrame>,
        namespace: u64,
        entities: BTreeMap<u32, EntityId>,
    ) -> (result: Self)
        ensures
            result@ == (OutcomeModel::Accepted {
                position: position as nat,
                world: world@,
                frame: frame@,
                namespace,
                entities: entities@,
            }),
    {
        AcceptedIntent { position, world, frame, namespace, entities }
    }

    pub fn position(&self) -> (result: usize)
        ensures
            result == self@->Accepted_position,
    {
        self.position
    }

    pub fn world(&self) -> (result: Arc<World>)
        ensures
            result@ == self@->Accepted_world,
    {
        share(&self.world)
    }

    pub fn frame(&self) -> (result: Arc<CommitFrame>)
        ensures
            result@ == self@->Accepted_frame,
    {
        share(&self.frame)
    }

    /// The identity that a temporary entity of this intent got.
    pub fn entity(&self, temporary: TempEntity) -> (result: Option<EntityId>)
        ensures
            result == if temporary.scope() == self@->namespace
                && self@->entities.contains_key(temporary.number()) {
                Some(self@->entities[temporary.number()])
            } else {
                None
            },
    {
        broadcast use vstd::std_specs::btree::group_btree_axioms;

        if temporary.namespace() != self.namespace {
            return None;
        }
        let index: u32 = temporary.index();
        match self.entities.get(&index) {
            Some(entity) => Some(*entity),
            None => None,
        }
    }

    /// The identities of this intent's temporary entities, by their index.
    pub fn entities(&self) -> (result: &BTreeMap<u32, EntityId>)
        ensures
            result@ == self@->entities,
    {
        &self.entities
    }
}

/// An intent that was turned down.
#[derive(Debug)]
pub struct RejectedIntent {
    position: usize,
    error: IntentRejection,
}

impl View for RejectedIntent {
    type V = OutcomeModel;

    closed spec fn view(&self) -> OutcomeModel {
        OutcomeModel::Rejected { position: self.position as nat, error: self.error@ }
    }
}

impl RejectedIntent {
    pub(crate) fn new(position: usize, error: IntentRejection) -> (result: Self)
        ensures
            result@ == (OutcomeModel::Rejected { position: position as nat, error: error@ }),
    {
        RejectedIntent { position, error }
    }

    pub fn position(&self) -> (result: usize)
        ensures
            result == self@->Rejected_position,
    {
        self.position
    }

    pub fn error(&self) -> (result: &IntentRejection)
        ensures
            result@ == self@->error,
    {
        &self.error
    }

    pub(crate) fn into_error(self) -> (result: IntentRejection)
        ensures
            result@ == self@->error,
    {
        self.error
    }
}

/// What became of one intent.
pub enum EpochOutcome {
    Accepted(AcceptedIntent),
    Rejected(RejectedIntent),
}

impl View for EpochOutcome {
    type V = OutcomeModel;

    open spec fn view(&self) -> OutcomeModel {
        match self {
            EpochOutcome::Accepted(accepted) => accepted@,
            EpochOutcome::Rejected(rejected) => rejected@,
        }
    }
}

impl EpochOutcome {
    pub fn position(&self) -> (result: usize)
        ensures
            result == outcome_position(self@),
    {
        proof {
            outcome_shapes(self);
        }
        match self {
            EpochOutcome::Accepted(accepted) => accepted.position(),
            EpochOutcome::Rejected(rejected) => rejected.position(),
        }
    }

    pub fn accepted(&self) -> (result: Option<&AcceptedIntent>)
        ensures
            match result {
                Some(accepted) => self@ == accepted@,
                None => self@ is Rejected,
            },
            result is Some <==> self@ is Accepted,
    {
        proof {
            outcome_shapes(self);
        }
        match self {
            EpochOutcome::Accepted(accepted) => Some(accepted),
            EpochOutcome::Rejected(_) => None,
        }
    }

    pub fn rejected(&self) -> (result: Option<&RejectedIntent>)
        ensures
            match result {
                Some(rejected) => self@ == rejected@,
                None => self@ is Accepted,
            },
            result is Some <==> self@ is Rejected,
    {
        proof {
            outcome_shapes(self);
        }
        match self {
            EpochOutcome::Accepted(_) => None,
            EpochOutcome::Rejected(rejected) => Some(rejected),
        }
    }
}

/// The two kinds of outcome are told apart by their values.
pub proof fn outcome_shapes(outcome: &EpochOutcome)
    ensures
        outcome is Accepted <==> outcome@ is Accepted,
        outcome is Rejected <==> outcome@ is Rejected,
{
}

/// A deterministic private chain of successors. Planning never changes the base and publishes
/// nothing.
pub struct EpochPlan {
    base: Arc<World>,
    tail: Arc<World>,
    outcomes: Vec<EpochOutcome>,
    frames: Vec<Arc<CommitFrame>>,
}

impl View for EpochPlan {
    type V = PlanModel;

    closed spec fn view(&self) -> PlanModel {
        PlanModel {
            base: self.base@,
            tail: self.tail@,
            outcomes: views(self.outcomes@),
            frames: views(self.frames@),
        }
    }
}

impl EpochPlan {
    pub(crate) fn assemble(
        base: Arc<World>,
        tail: Arc<World>,
        outcomes: Vec<EpochOutcome>,
        frames: Vec<Arc<CommitFrame>>,
    ) -> (result: Self)
        ensures
            result@ == (PlanModel {
                base: base@,
                tail: tail@,
                outcomes: views(outcomes@),
                frames: views(frames@),
            }),
    {
        EpochPlan { base, tail, outcomes, frames }
    }

    pub fn base(&self) -> (result: Arc<World>)
        ensures
            result@ == self@.base,
    {
        share(&self.base)
    }

    pub fn tail(&self) -> (result: Arc<World>)
        ensures
            result@ == self@.tail,
    {
        share(&self.tail)
    }

    pub fn outcomes(&self) -> (result: &[EpochOutcome])
        ensures
            views(result@) == self@.outcomes,
    {
        self.outcomes.as_slice()
    }

    pub(crate) fn into_outcomes(self) -> (result: Vec<EpochOutcome>)
        ensures
            views(result@) == self@.outcomes,
    {
        self.outcomes
    }

    pub fn frames(&self) -> (result: &[Arc<CommitFrame>])
        ensures
            views(result@) == self@.frames,
    {
        self.frames.as_slice()
    }

    /// How many frames the plan appends.
    pub fn accepted_count(&self) -> (result: usize)
        ensures
            result == self@.frames.len(),
    {
        self.frames.len()
    }

    /// How many outcomes have no frame of their own.
    pub fn rejected_count(&self) -> (result: usize)
        requires
            self@.frames.len() <= self@.outcomes.len(),
        ensures
            result == self@.outcomes.len() - self@.frames.len(),
    {
        proof {
            assert(self@.outcomes.len() == self.outcomes.len());
            assert(self@.frames.len() == self.frames.len());
        }
        self.outcomes.len() - self.frames.len()
    }

    pub fn is_empty(&self) -> (result: bool)
        ensures
            result == (self@.frames.len() == 0),
    {
        self.frames.len() == 0
    }
}

/// Whether an optional fact is another.
fn same_optional_fact(left: Option<&Fact>, right: &Option<Fact>) -> (result: bool)
    ensures
        result == (match left {
            Some(fact) => Some(fact@),
            None => None,
        } == optional_fact(*right)),
{
    match (left, right) {
        (Some(left), Some(right)) => left.same(right),
        (None, None) => true,
        _ => false,
    }
}

/// Tests the demands of an intent in order.
pub(crate) fn check_preconditions(
    id: WorldId,
    kernel: &Kernel,
    preconditions: &[IntentPrecondition],
) -> (result: Result<(), IntentRejection>)
    ensures
        match result {
            Ok(()) => preconditions_fault(id, kernel@.live, views(preconditions@)) is None,
            Err(error) => preconditions_fault(id, kernel@.live, views(preconditions@)) == Some(
                error@,
            ),
        },
{
    let ghost models = views(preconditions@);
    let mut index: usize = 0;
    proof {
        assert(models.take(0) =~= Seq::empty());
    }
    while index < preconditions.len()
        invariant
            index <= preconditions.len(),
            models == views(preconditions@),
            preconditions_fault(id, kernel@.live, models.take(index as int)) is None,
        decreases preconditions.len() - index,
    {
        proof {
            assert(models.take(index + 1).drop_last() =~= models.take(index as int));
            assert(models.take(index + 1).last() == preconditions@[index as int]@);
        }
        let failed: Option<IntentRejection> = match &preconditions[index] {
            IntentPrecondition::ExpectedWorld(expected) => if expected.0 != id.0 {
                Some(IntentRejection::WorldPrecondition { expected: *expected, actual: id })
            } else {
                None
            },
            IntentPrecondition::ExpectedSlot { slot, expected } => {
                let actual = kernel.resolve(slot);
                if same_optional_fact(actual, expected) {
                    None
                } else {
                    let actual = match actual {
                        Some(fact) => Some(fact.clone()),
                        None => None,
                    };
                    Some(
                        IntentRejection::SlotPrecondition {
                            slot: slot.clone(),
                            expected: clone_optional_fact(expected),
                            actual,
                        },
                    )
                }
            },
        };
        if let Some(error) = failed {
            proof {
                first_fault_stays(id, kernel@.live, models, index + 1);
            }
            return Err(error);
        }
        index += 1;
    }
    proof {
        assert(models.take(index as int) =~= models);
    }
    Ok(())
}

pub proof fn first_fault_stays(
    id: WorldId,
    live: Seq<DefinitionModel>,
    preconditions: Seq<PreconditionModel>,
    count: int,
)
    requires
        0 <= count <= preconditions.len(),
        preconditions_fault(id, live, preconditions.take(count)) is Some,
    ensures
        preconditions_fault(id, live, preconditions) == preconditions_fault(
            id,
            live,
            preconditions.take(count),
        ),
    decreases preconditions.len(),
{
    if count == preconditions.len() {
        assert(preconditions.take(count) =~= preconditions);
    } else {
        assert(preconditions.drop_last().take(count) =~= preconditions.take(count));
        first_fault_stays(id, live, preconditions.drop_last(), count);
    }
}

fn resolve_atom(atom: &IntentAtom, namespace: u64, entities: &BTreeMap<u32, EntityId>) -> (result:
    Result<Atom, TempEntity>)
    ensures
        match (result, resolved_atom(atom@, namespace, entities@)) {
            (Ok(atom), Ok(model)) => atom@ == model,
            (Err(temporary), Err(model)) => temporary == model,
            _ => false,
        },
{
    broadcast use vstd::std_specs::btree::group_btree_axioms;

    match atom {
        IntentAtom::Entity(entity) => Ok(Atom::Entity(*entity)),
        IntentAtom::Literal(literal) => Ok(Atom::Literal(literal.clone())),
        IntentAtom::Temporary(temporary) => {
            if temporary.namespace() != namespace {
                return Err(*temporary);
            }
            let index: u32 = temporary.index();
            match entities.get(&index) {
                Some(entity) => Ok(Atom::Entity(*entity)),
                None => Err(*temporary),
            }
        },
    }
}

fn resolve_fact(fact: &IntentFact, namespace: u64, entities: &BTreeMap<u32, EntityId>) -> (result:
    Result<Fact, TempEntity>)
    ensures
        match (result, resolved_fact(fact@, namespace, entities@)) {
            (Ok(fact), Ok(model)) => fact@ == model,
            (Err(temporary), Err(model)) => temporary == model,
            _ => false,
        },
{
    let subject = resolve_atom(&fact.subject, namespace, entities)?;
    let object = resolve_atom(&fact.object, namespace, entities)?;
    Ok(Fact::new(subject, fact.predicate.clone(), object))
}

pub proof fn unknown_handle_stays(
    next_entity: nat,
    namespace: u64,
    operations: Seq<IntentOperationModel>,
    count: int,
)
    requires
        0 <= count <= operations.len(),
        resolved(next_entity, namespace, operations.take(count)) is Err,
    ensures
        resolved(next_entity, namespace, operations) == resolved(
            next_entity,
            namespace,
            operations.take(count),
        ),
    decreases operations.len(),
{
    if count == operations.len() {
        assert(operations.take(count) =~= operations);
    } else {
        assert(operations.drop_last().take(count) =~= operations.take(count));
        unknown_handle_stays(next_entity, namespace, operations.drop_last(), count);
    }
}

/// Resolves the temporary entities of an intent, with identities from `next_entity` on.
pub(crate) fn resolve_operations_from(
    next_entity: u64,
    namespace: u64,
    intent_operations: &[IntentOperation],
) -> (result: Result<(Vec<Operation>, BTreeMap<u32, EntityId>), TempEntity>)
    requires
        next_entity + intent_operations.len() <= u64::MAX,
    ensures
        match (result, resolved(next_entity as nat, namespace, views(intent_operations@))) {
            (Ok((operations, entities)), Ok(done)) => views(operations@) == done.operations
                && entities@ == done.entities,
            (Err(temporary), Err(model)) => temporary == model,
            _ => false,
        },
{
    broadcast use vstd::std_specs::btree::group_btree_axioms;

    let ghost models = views(intent_operations@);
    let mut entities: BTreeMap<u32, EntityId> = BTreeMap::new();
    let mut operations: Vec<Operation> = Vec::new();
    let mut upcoming: u64 = next_entity;
    let mut index: usize = 0;
    proof {
        assert(models.take(0) =~= Seq::empty());
        assert(views(operations@) =~= Seq::empty());
    }
    while index < intent_operations.len()
        invariant
            index <= intent_operations.len(),
            models == views(intent_operations@),
            next_entity + intent_operations.len() <= u64::MAX,
            upcoming <= next_entity + index,
            resolved(next_entity as nat, namespace, models.take(index as int)) == Ok::<
                ResolvedModel,
                TempEntity,
            >(
                ResolvedModel {
                    operations: views(operations@),
                    entities: entities@,
                    next_entity: upcoming as nat,
                },
            ),
        decreases intent_operations.len() - index,
    {
        proof {
            assert(models.take(index + 1).drop_last() =~= models.take(index as int));
            assert(models.take(index + 1).last() == intent_operations@[index as int]@);
        }
        match &intent_operations[index] {
            IntentOperation::AllocateEntity { temporary } => {
                if temporary.namespace() != namespace {
                    proof {
                        unknown_handle_stays(next_entity as nat, namespace, models, index + 1);
                    }
                    return Err(*temporary);
                }
                let entity = EntityId(upcoming);
                upcoming = upcoming + 1;
                entities.insert(temporary.index(), entity);
                let operation = Operation::AllocateEntity { entity };
                proof {
                    views_push(operations@, operation);
                }
                operations.push(operation);
            },
            IntentOperation::Define { slot, fact } => {
                match resolve_fact(fact, namespace, &entities) {
                    Ok(fact) => {
                        let operation = Operation::Define { slot: slot.clone(), fact };
                        proof {
                            views_push(operations@, operation);
                        }
                        operations.push(operation);
                    },
                    Err(temporary) => {
                        proof {
                            unknown_handle_stays(next_entity as nat, namespace, models, index + 1);
                        }
                        return Err(temporary);
                    },
                }
            },
            IntentOperation::Forget { slot } => {
                let operation = Operation::Forget { slot: slot.clone() };
                proof {
                    views_push(operations@, operation);
                }
                operations.push(operation);
            },
        }
        index += 1;
    }
    proof {
        assert(models.take(index as int) =~= models);
    }
    Ok((operations, entities))
}

/// An accepted proposal, before it is published.
pub(crate) struct Proposed {
    pub(crate) candidate: CandidateWorld,
    pub(crate) entities: BTreeMap<u32, EntityId>,
}

/// A proposal agrees with what the intent makes of the state.
pub(crate) open spec fn proposes(
    result: Result<Proposed, IntentRejection>,
    expected: Result<(CandidateModel, Map<u32, EntityId>), RejectionModel>,
) -> bool {
    match (result, expected) {
        (Ok(proposed), Ok((candidate, entities))) => proposed.candidate@ == candidate
            && proposed.entities@ == entities,
        (Err(error), Err(model)) => error@ == model,
        _ => false,
    }
}

/// Builds the candidate that an intent makes of a state, and has it judged.
pub(crate) fn derive_candidate(
    id: WorldId,
    version: u64,
    operation_count: usize,
    kernel: &Kernel,
    intent: &QueuedIntent,
    validators: &[Rule],
    Ghost(world): Ghost<WorldModel>,
) -> (result: (Result<Proposed, IntentRejection>, Ghost<Result<(), Seq<char>>>))
    requires
        has_room(world, intent@.operations.len()),
        world.id == id,
        world.version == version,
        world.operation_count == operation_count,
        world.kernel == kernel@,
    ensures
        proposes(result.0, settled(world, intent@, result.1@)),
        proposal(world, intent@) matches Ok((candidate, _)) ==> may_judge(
            validators@,
            candidate,
            result.1@,
        ),
        validators@.len() == 0 ==> result.1@ == Ok::<(), Seq<char>>(()),
{
    proof {
        reveal(proposal);
    }
    let ghost accepted: Result<(), Seq<char>> = Ok(());
    match check_preconditions(id, kernel, intent.preconditions()) {
        Ok(()) => {},
        Err(error) => {
            return (Err(error), Ghost(accepted));
        },
    }
    proof {
        resolved_applies(
            kernel@.next_entity,
            intent@.namespace,
            intent@.operations,
            kernel@,
        );
        assert(intent@.operations.len() <= u64::MAX);
    }
    let steps = intent.operations();
    proof {
        assert(steps.len() == views(steps@).len());
    }
    let (operations, entities) = match resolve_operations_from(
        kernel.next_entity(),
        intent.namespace(),
        steps,
    ) {
        Ok(done) => done,
        Err(temporary) => {
            return (
                Err(IntentRejection::UnknownTemporaryEntity(temporary)),
                Ghost(accepted),
            );
        },
    };
    proof {
        assert(operations.len() == views(operations@).len());
    }
    let candidate = match CandidateWorld::construct_from_state(
        id,
        version,
        operation_count,
        kernel,
        operations,
    ) {
        Ok(candidate) => candidate,
        Err(error) => {
            return (Err(IntentRejection::Candidate(error)), Ghost(accepted));
        },
    };
    let verdict = judge(validators, &candidate);
    let ghost answer = verdict_model(verdict);
    match verdict {
        Ok(()) => (Ok(Proposed { candidate, entities }), Ghost(answer)),
        Err(message) => (Err(IntentRejection::Validation(message)), Ghost(answer)),
    }
}

/// Plans an epoch in which each accepted intent gets a world and a frame of its own.
///
/// Preconditions and validators see the predecessor that is assigned to each intent. A rejected
/// intent consumes neither a version nor an entity identity, and the next one continues from the
/// last accepted world.
pub fn derive_epoch(
    base: Arc<World>,
    intents: Vec<QueuedIntent>,
    validators: &[Rule],
) -> (result: EpochPlan)
    requires
        has_epoch_room(base@, views(intents@)),
    ensures
        exists|verdicts: Seq<Result<(), Seq<char>>>|
            verdicts.len() == intents.len() && may_settle(
                validators@,
                base@,
                views(intents@),
                verdicts,
            ) && result@ == chained(base@, views(intents@), verdicts),
        validators@.len() == 0 ==> result@ == chained(
            base@,
            views(intents@),
            unopposed(intents.len() as nat),
        ),
        result@.frames.len() <= result@.outcomes.len(),
{
    let ghost models = views(intents@);
    let mut tail = share(&base);
    let mut outcomes: Vec<EpochOutcome> = Vec::new();
    let mut frames: Vec<Arc<CommitFrame>> = Vec::new();
    let ghost mut verdicts: Seq<Result<(), Seq<char>>> = Seq::empty();
    let ghost mut plan = PlanModel {
        base: base@,
        tail: base@,
        outcomes: Seq::empty(),
        frames: Seq::empty(),
    };
    let mut position: usize = 0;
    proof {
        planned_start(validators@, base@, models);
        assert(views(outcomes@) =~= Seq::empty());
        assert(views(frames@) =~= Seq::empty());
    }
    while position < intents.len()
        invariant
            position <= intents.len(),
            models == views(intents@),
            has_epoch_room(base@, models),
            planned(validators@, base@, models, position as int, verdicts, plan),
            plan.tail == tail@,
            plan.outcomes == views(outcomes@),
            plan.frames == views(frames@),
            plan.outcomes.len() == position,
        decreases intents.len() - position,
    {
        let intent = &intents[position];
        proof {
            planned_facts(validators@, base@, models, position as int, verdicts, plan);
            assert(models[position as int] == intent@);
        }
        let (derived, Ghost(verdict)) = derive_candidate(
            tail.id(),
            tail.version(),
            tail.operation_count(),
            tail.kernel(),
            intent,
            validators,
            Ghost(tail@),
        );
        let ghost earlier = plan;
        proof {
            planned_step(validators@, base@, models, position as int, verdicts, plan, verdict);
            extended_facts(plan, intent@, verdict);
            verdicts = verdicts.push(verdict);
            plan = extended(earlier, intent@, verdict);
        }
        match derived {
            Ok(proposed) => {
                let frame = proposed.candidate.commit_frame();
                let world = Arc::new(proposed.candidate.into_world(&tail));
                tail = share(&world);
                let outcome = EpochOutcome::Accepted(
                    AcceptedIntent::new(
                        position,
                        world,
                        share(&frame),
                        intent.namespace(),
                        proposed.entities,
                    ),
                );
                proof {
                    views_push(frames@, frame);
                    views_push(outcomes@, outcome);
                }
                frames.push(frame);
                outcomes.push(outcome);
            },
            Err(error) => {
                let outcome = EpochOutcome::Rejected(RejectedIntent::new(position, error));
                proof {
                    views_push(outcomes@, outcome);
                }
                outcomes.push(outcome);
            },
        }
        position += 1;
    }
    proof {
        planned_facts(validators@, base@, models, position as int, verdicts, plan);
        planned_end(validators@, base@, models, verdicts, plan);
    }
    EpochPlan::assemble(base, tail, outcomes, frames)
}

/// An outcome before the epoch's world is known.
pub(crate) enum Pending {
    Accepted { position: usize, namespace: u64, entities: BTreeMap<u32, EntityId> },
    Rejected(RejectedIntent),
}

/// A pending outcome stands for an outcome whose world is still open.
pub(crate) open spec fn pends(pending: Pending, outcome: OutcomeModel) -> bool {
    match pending {
        Pending::Accepted { position, namespace, entities } => outcome matches
            OutcomeModel::Accepted {
            position: at,
            world: _,
            frame: _,
            namespace: scope,
            entities: map,
        } && at == position && scope == namespace && map == entities@,
        Pending::Rejected(rejected) => outcome is Rejected && rejected@ == outcome,
    }
}

/// Gives every pending outcome the world and the frame of its epoch. An epoch that rejected every
/// intent has none.
fn resolve_pending(
    pending: Vec<Pending>,
    epoch: Option<(&Arc<World>, &Arc<CommitFrame>)>,
    Ghost(outcomes): Ghost<Seq<OutcomeModel>>,
) -> (result: Vec<EpochOutcome>)
    requires
        pending.len() == outcomes.len(),
        forall|i: int| 0 <= i < outcomes.len() ==> pends(#[trigger] pending@[i], outcomes[i]),
        epoch is None ==> forall|i: int|
            0 <= i < outcomes.len() ==> (#[trigger] outcomes[i]) is Rejected,
    ensures
        match epoch {
            Some((world, frame)) => views(result@) == Seq::new(
                outcomes.len(),
                |i: int| moved(outcomes[i], world@, frame@),
            ),
            None => views(result@) == outcomes,
        },
{
    let mut result: Vec<EpochOutcome> = Vec::new();
    let mut rest = pending;
    let ghost all = pending@;
    let mut done: usize = 0;
    while rest.len() > 0
        invariant
            all.len() == outcomes.len(),
            all.len() <= usize::MAX,
            forall|i: int| 0 <= i < outcomes.len() ==> pends(#[trigger] all[i], outcomes[i]),
            epoch is None ==> forall|i: int|
                0 <= i < outcomes.len() ==> (#[trigger] outcomes[i]) is Rejected,
            rest@ == all.skip(done as int),
            done <= all.len(),
            result.len() == done,
            forall|i: int|
                0 <= i < done ==> (#[trigger] result@[i])@ == match epoch {
                    Some((world, frame)) => moved(outcomes[i], world@, frame@),
                    None => outcomes[i],
                },
        decreases rest.len(),
    {
        let first = rest.remove(0);
        proof {
            assert(first == all[done as int]);
            assert(pends(all[done as int], outcomes[done as int]));
            assert(rest@ =~= all.skip(done + 1));
        }
        match (first, epoch) {
            (Pending::Rejected(rejected), _) => {
                result.push(EpochOutcome::Rejected(rejected));
            },
            (Pending::Accepted { position, namespace, entities }, Some((world, frame))) => {
                result.push(
                    EpochOutcome::Accepted(
                        AcceptedIntent::new(
                            position,
                            share(world),
                            share(frame),
                            namespace,
                            entities,
                        ),
                    ),
                );
            },
            (Pending::Accepted { .. }, None) => {
                proof {
                    assert(outcomes[done as int] is Rejected);
                    assert(false);
                }
            },
        }
        done += 1;
    }
    proof {
        match epoch {
            Some((world, frame)) => {
                assert(views(result@) =~= Seq::new(
                    outcomes.len(),
                    |i: int| moved(outcomes[i], world@, frame@),
                ));
            },
            None => {
                assert(views(result@) =~= outcomes);
            },
        }
    }
    result
}

/// Appends copies of operations.
pub(crate) fn extend_operations(target: &mut Vec<Operation>, more: &[Operation])
    ensures
        views(final(target)@) == views(old(target)@) + views(more@),
{
    let mut copy = clone_operations(more);
    proof {
        views_concat(target@, copy@);
    }
    target.append(&mut copy);
}

/// Plans an epoch that leads to one world, whichever intents are accepted.
///
/// Intents are evaluated in order against a private state, as in [`derive_epoch`]. The accepted
/// operations are then put into one frame on the base, and every accepted intent observes the
/// one world of the epoch.
pub fn derive_epoch_world(
    base: Arc<World>,
    intents: Vec<QueuedIntent>,
    validators: &[Rule],
) -> (result: EpochPlan)
    requires
        has_epoch_room(base@, views(intents@)),
    ensures
        exists|verdicts: Seq<Result<(), Seq<char>>>|
            verdicts.len() == intents.len() && may_settle(
                validators@,
                base@,
                views(intents@),
                verdicts,
            ) && result@ == collapsed(chained(base@, views(intents@), verdicts)),
        validators@.len() == 0 ==> result@ == collapsed(
            chained(base@, views(intents@), unopposed(intents.len() as nat)),
        ),
        result@.frames.len() <= result@.outcomes.len(),
{
    let ghost models = views(intents@);
    let mut id = base.id();
    let mut version: u64 = base.version();
    let mut operation_count: usize = base.operation_count();
    let mut kernel = base.kernel().duplicate();
    let mut operations: Vec<Operation> = Vec::new();
    let mut accepted_count: usize = 0;
    let mut pending: Vec<Pending> = Vec::new();
    let ghost mut verdicts: Seq<Result<(), Seq<char>>> = Seq::empty();
    let ghost mut plan = PlanModel {
        base: base@,
        tail: base@,
        outcomes: Seq::empty(),
        frames: Seq::empty(),
    };
    let mut position: usize = 0;
    proof {
        planned_start(validators@, base@, models);
        assert(views(operations@) =~= Seq::empty());
    }
    while position < intents.len()
        invariant
            position <= intents.len(),
            models == views(intents@),
            has_epoch_room(base@, models),
            planned(validators@, base@, models, position as int, verdicts, plan),
            plan.outcomes.len() == position,
            pending.len() == position,
            forall|i: int|
                0 <= i < position ==> pends(#[trigger] pending@[i], plan.outcomes[i]),
            plan.tail.id == id,
            plan.tail.version == version,
            plan.tail.operation_count == operation_count,
            plan.tail.kernel == kernel@,
            accepted_count == plan.frames.len(),
            accepted_count <= position,
            views(operations@) == joined_operations(plan.frames),
            operation_count == base@.operation_count + views(operations@).len(),
        decreases intents.len() - position,
    {
        let intent = &intents[position];
        proof {
            planned_facts(validators@, base@, models, position as int, verdicts, plan);
            assert(models[position as int] == intent@);
        }
        let (derived, Ghost(verdict)) = derive_candidate(
            id,
            version,
            operation_count,
            &kernel,
            intent,
            validators,
            Ghost(plan.tail),
        );
        let ghost earlier = plan;
        let ghost before = pending@;
        proof {
            planned_step(validators@, base@, models, position as int, verdicts, plan, verdict);
            extended_facts(plan, intent@, verdict);
            verdicts = verdicts.push(verdict);
            plan = extended(earlier, intent@, verdict);
        }
        match derived {
            Ok(proposed) => {
                let frame = proposed.candidate.commit_frame();
                let accepted = frame.operations();
                proof {
                    assert(plan.frames.drop_last() =~= earlier.frames);
                    assert(accepted.len() == views(accepted@).len());
                }
                id = frame.resulting_world();
                version = frame.resulting_version();
                operation_count = operation_count + accepted.len();
                extend_operations(&mut operations, accepted);
                kernel = proposed.candidate.into_kernel();
                accepted_count += 1;
                pending.push(
                    Pending::Accepted {
                        position,
                        namespace: intent.namespace(),
                        entities: proposed.entities,
                    },
                );
            },
            Err(error) => {
                pending.push(Pending::Rejected(RejectedIntent::new(position, error)));
            },
        }
        position += 1;
        proof {
            assert forall|i: int| 0 <= i < position implies pends(
                #[trigger] pending@[i],
                plan.outcomes[i],
            ) by {
                if i < position - 1 {
                    assert(pending@[i] == before[i]);
                    assert(plan.outcomes[i] == earlier.outcomes[i]);
                }
            }
        }
    }
    proof {
        planned_facts(validators@, base@, models, position as int, verdicts, plan);
        planned_end(validators@, base@, models, verdicts, plan);
    }
    finish_epoch_on(base, operations, kernel, accepted_count, pending, Ghost(plan))
}

/// Publishes the one world of an epoch, whose definitions are known.
fn finish_epoch_on(
    base: Arc<World>,
    operations: Vec<Operation>,
    kernel: Kernel,
    accepted_count: usize,
    pending: Vec<Pending>,
    Ghost(plan): Ghost<PlanModel>,
) -> (result: EpochPlan)
    requires
        plan.base == base@,
        accepted_count == plan.frames.len(),
        views(operations@) == joined_operations(plan.frames),
        kernel@ == plan.tail.kernel,
        pending.len() == plan.outcomes.len(),
        forall|i: int|
            0 <= i < plan.outcomes.len() ==> pends(#[trigger] pending@[i], plan.outcomes[i]),
        plan.frames.len() == 0 ==> plan.tail == base@ && forall|i: int|
            0 <= i < plan.outcomes.len() ==> (#[trigger] plan.outcomes[i]) is Rejected,
        base@.version < u64::MAX,
        base@.operation_count + operations.len() <= usize::MAX,
    ensures
        result@ == collapsed(plan),
{
    if accepted_count == 0 {
        let tail = share(&base);
        let frames: Vec<Arc<CommitFrame>> = Vec::new();
        proof {
            assert(views(frames@) =~= plan.frames);
        }
        let outcomes = resolve_pending(pending, None, Ghost(plan.outcomes));
        return EpochPlan::assemble(base, tail, outcomes, frames);
    }
    let (world, frame) = World::epoch_successor(&base, operations, kernel);
    let world = Arc::new(world);
    let outcomes = resolve_pending(pending, Some((&world, &frame)), Ghost(plan.outcomes));
    let mut frames: Vec<Arc<CommitFrame>> = Vec::new();
    frames.push(frame);
    proof {
        assert(views(frames@) =~= seq![frame@]);
    }
    EpochPlan::assemble(base, world, outcomes, frames)
}

/// Publishes the one world of an epoch, whose definitions are found by replaying its operations.
pub(crate) fn finish_epoch(
    base: Arc<World>,
    operations: Vec<Operation>,
    accepted_count: usize,
    pending: Vec<Pending>,
    Ghost(plan): Ghost<PlanModel>,
) -> (result: EpochPlan)
    requires
        plan.base == base@,
        accepted_count == plan.frames.len(),
        views(operations@) == joined_operations(plan.frames),
        replayed(base@.kernel, views(operations@)) == Ok::<KernelModel, CandidateErrorModel>(
            plan.tail.kernel,
        ),
        pending.len() == plan.outcomes.len(),
        forall|i: int|
            0 <= i < plan.outcomes.len() ==> pends(#[trigger] pending@[i], plan.outcomes[i]),
        plan.frames.len() == 0 ==> plan.tail == base@ && forall|i: int|
            0 <= i < plan.outcomes.len() ==> (#[trigger] plan.outcomes[i]) is Rejected,
        has_room(base@, views(operations@).len()),
    ensures
        result@ == collapsed(plan),
{
    let mut kernel = base.kernel().duplicate();
    proof {
        assert(views(operations@).len() == operations.len());
    }
    let _replayed = kernel.replay(operations.as_slice());
    finish_epoch_on(base, operations, kernel, accepted_count, pending, Ghost(plan))
}

impl Database<MemoryCommitStore> {
    /// Plans an epoch on the current world, appends every accepted frame, and then changes the
    /// published world once, to the tail of the plan.
    pub fn commit_queued_epoch(&mut self, intents: Vec<QueuedIntent>) -> (result: EpochPlan)
        requires
            has_epoch_room(old(self).world(), views(intents@)),
        ensures
            exists|verdicts: Seq<Result<(), Seq<char>>>|
                verdicts.len() == intents.len() && may_settle(
                    old(self).rules(),
                    old(self).world(),
                    views(intents@),
                    verdicts,
                ) && result@ == chained(old(self).world(), views(intents@), verdicts),
            old(self).rules().len() == 0 ==> result@ == chained(
                old(self).world(),
                views(intents@),
                unopposed(intents.len() as nat),
            ),
            result@.frames.len() <= result@.outcomes.len(),
            final(self).world() == result@.tail,
            final(self).log() == old(self).log() + result@.frames,
            final(self).rules() == old(self).rules(),
            old(self).sound() ==> final(self).sound(),
    {
        let base = self.snapshot();
        let plan = derive_epoch(base, intents, self.validators());
        proof {
            let verdicts = choose|verdicts: Seq<Result<(), Seq<char>>>|
                verdicts.len() == intents.len() && may_settle(
                    self.rules(),
                    self.world(),
                    views(intents@),
                    verdicts,
                ) && plan@ == chained(self.world(), views(intents@), verdicts);
            if self.sound() {
                reconstructed_facts(self.log());
                plan_replays(self.world(), views(intents@), verdicts);
            }
        }
        self.adopt(plan.frames(), plan.tail());
        plan
    }
}

} // verus!
