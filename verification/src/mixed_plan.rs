//! Planning epochs of queued and semantic intents on the token machine.

use crate::database::{Database, MemoryCommitStore, Rule, judge, verdict_model};
use crate::errors::CandidateErrorModel;
use crate::fact::{EntityId, Operation, clone_operations, views};
use crate::fact_text::show_candidate_error;
use crate::frame::{CommitFrame, WorldId, calculate_world_id, share};
use crate::intent::IntentModel;
use crate::kernel::{Kernel, KernelModel, replayed};
use crate::log_format::linked;
use crate::materializer::{VmEpochMaterializer, history_fault, kernel_after, operations_from};
use crate::mixed::{
    ControllerIntent, ControllerIntentModel, MixedModel, MixedOutcomeModel, MixedPlanModel,
    SemanticRejectionModel, SemanticTicketRejection, describe_vm_fault, has_mixed_room,
    intent_steps, may_settle_mixed, may_settle_unlowered, mixed_chain, mixed_extended,
    mixed_extended_facts, mixed_fair, mixed_moved, mixed_plan, mixed_plan_replays, mixed_planned,
    mixed_planned_end, mixed_planned_facts, mixed_planned_start, mixed_planned_step, mixed_steps,
    mixed_steps_monotone, queued_settled, queued_settled_facts, semantic_proposal, semantic_settled,
    semantic_settled_facts,
};
use crate::plan::{AcceptedIntent, RejectedIntent, derive_candidate, extend_operations};
use crate::plan_model::{
    IntentRejection, OutcomeModel, PlanModel, extended_facts, proposal, settled, unopposed,
};
use crate::semantic::{
    SemanticBindings, SemanticStep, TransactionOp, collect_operations, guarded_is_replay,
    lower_transaction, lowered_facts, step_fault_free, step_operations,
};
use crate::symbols::synthesize;
use crate::text::joined;
use crate::world::{CandidateWorld, World, WorldModel, has_room, reconstructed_facts};
use std::collections::BTreeMap;
use std::sync::Arc;
use vstd::prelude::*;
use vstd::string::*;

verus! {

/// A semantic intent that was accepted.
pub struct AcceptedSemanticIntent {
    position: usize,
    world: Arc<World>,
    frame: Arc<CommitFrame>,
    bindings: SemanticBindings,
}

impl View for AcceptedSemanticIntent {
    type V = MixedOutcomeModel;

    closed spec fn view(&self) -> MixedOutcomeModel {
        MixedOutcomeModel::SemanticAccepted {
            position: self.position as nat,
            world: self.world@,
            frame: self.frame@,
            bindings: self.bindings@,
        }
    }
}

impl AcceptedSemanticIntent {
    pub fn new(
        position: usize,
        world: Arc<World>,
        frame: Arc<CommitFrame>,
        bindings: SemanticBindings,
    ) -> (result: Self)
        ensures
            result@ == (MixedOutcomeModel::SemanticAccepted {
                position: position as nat,
                world: world@,
                frame: frame@,
                bindings: bindings@,
            }),
    {
        AcceptedSemanticIntent { position, world, frame, bindings }
    }

    pub fn position(&self) -> (result: usize)
        ensures
            result == self@->SemanticAccepted_position,
    {
        self.position
    }

    pub fn world(&self) -> (result: Arc<World>)
        ensures
            result@ == self@->SemanticAccepted_world,
    {
        share(&self.world)
    }

    pub fn frame(&self) -> (result: Arc<CommitFrame>)
        ensures
            result@ == self@->SemanticAccepted_frame,
    {
        share(&self.frame)
    }

    pub fn bindings(&self) -> (result: &SemanticBindings)
        ensures
            result@ == self@->SemanticAccepted_bindings,
    {
        &self.bindings
    }

    pub fn into_bindings(self) -> (result: SemanticBindings)
        ensures
            result@ == self@->SemanticAccepted_bindings,
    {
        self.bindings
    }
}

/// A semantic intent that was turned down.
#[derive(Debug)]
pub struct RejectedSemanticIntent {
    position: usize,
    error: SemanticTicketRejection,
}

impl View for RejectedSemanticIntent {
    type V = MixedOutcomeModel;

    closed spec fn view(&self) -> MixedOutcomeModel {
        MixedOutcomeModel::SemanticRejected { position: self.position as nat, error: self.error@ }
    }
}

impl RejectedSemanticIntent {
    pub fn new(position: usize, error: SemanticTicketRejection) -> (result: Self)
        ensures
            result@ == (MixedOutcomeModel::SemanticRejected {
                position: position as nat,
                error: error@,
            }),
    {
        RejectedSemanticIntent { position, error }
    }

    pub fn position(&self) -> (result: usize)
        ensures
            result == self@->SemanticRejected_position,
    {
        self.position
    }

    pub fn error(&self) -> (result: &SemanticTicketRejection)
        ensures
            result@ == self@->SemanticRejected_error,
    {
        &self.error
    }

    pub fn into_error(self) -> (result: SemanticTicketRejection)
        ensures
            result@ == self@->SemanticRejected_error,
    {
        self.error
    }
}

/// What became of one intent of either kind.
pub enum MixedEpochOutcome {
    QueuedAccepted(AcceptedIntent),
    QueuedRejected(RejectedIntent),
    SemanticAccepted(AcceptedSemanticIntent),
    SemanticRejected(RejectedSemanticIntent),
}

impl View for MixedEpochOutcome {
    type V = MixedOutcomeModel;

    open spec fn view(&self) -> MixedOutcomeModel {
        match self {
            MixedEpochOutcome::QueuedAccepted(accepted) => MixedOutcomeModel::Queued(accepted@),
            MixedEpochOutcome::QueuedRejected(rejected) => MixedOutcomeModel::Queued(rejected@),
            MixedEpochOutcome::SemanticAccepted(accepted) => accepted@,
            MixedEpochOutcome::SemanticRejected(rejected) => rejected@,
        }
    }
}

/// The plan of a mixed epoch.
pub struct MixedEpochPlan {
    base: Arc<World>,
    tail: Arc<World>,
    outcomes: Vec<MixedEpochOutcome>,
    frames: Vec<Arc<CommitFrame>>,
}

impl View for MixedEpochPlan {
    type V = MixedPlanModel;

    closed spec fn view(&self) -> MixedPlanModel {
        MixedPlanModel {
            base: self.base@,
            tail: self.tail@,
            outcomes: views(self.outcomes@),
            frames: views(self.frames@),
        }
    }
}

impl MixedEpochPlan {
    pub fn new(
        base: Arc<World>,
        tail: Arc<World>,
        outcomes: Vec<MixedEpochOutcome>,
        frames: Vec<Arc<CommitFrame>>,
    ) -> (result: Self)
        ensures
            result@ == (MixedPlanModel {
                base: base@,
                tail: tail@,
                outcomes: views(outcomes@),
                frames: views(frames@),
            }),
    {
        MixedEpochPlan { base, tail, outcomes, frames }
    }

    pub fn is_empty(&self) -> (result: bool)
        ensures
            result == (self@.frames.len() == 0),
    {
        self.frames.len() == 0
    }

    pub fn tail(&self) -> (result: Arc<World>)
        ensures
            result@ == self@.tail,
    {
        share(&self.tail)
    }

    pub fn frames(&self) -> (result: &[Arc<CommitFrame>])
        ensures
            views(result@) == self@.frames,
    {
        self.frames.as_slice()
    }

    pub fn outcomes(&self) -> (result: &[MixedEpochOutcome])
        ensures
            views(result@) == self@.outcomes,
    {
        self.outcomes.as_slice()
    }

    pub fn into_outcomes(self) -> (result: Vec<MixedEpochOutcome>)
        ensures
            views(result@) == self@.outcomes,
    {
        self.outcomes
    }
}

/// An outcome before the epoch's world is known.
enum MixedPending {
    QueuedAccepted { position: usize, namespace: u64, entities: BTreeMap<u32, EntityId> },
    QueuedRejected(RejectedIntent),
    SemanticAccepted { position: usize, bindings: SemanticBindings },
    SemanticRejected(RejectedSemanticIntent),
}

/// A pending outcome stands for an outcome whose world is still open.
spec fn mixed_pends(pending: MixedPending, outcome: MixedOutcomeModel) -> bool {
    match pending {
        MixedPending::QueuedAccepted { position, namespace, entities } => outcome matches
            MixedOutcomeModel::Queued(
            OutcomeModel::Accepted {
                position: at,
                world: _,
                frame: _,
                namespace: scope,
                entities: map,
            },
        ) && at == position && scope == namespace && map == entities@,
        MixedPending::QueuedRejected(rejected) => outcome matches MixedOutcomeModel::Queued(queued)
            && queued is Rejected && rejected@ == queued,
        MixedPending::SemanticAccepted { position, bindings } => outcome matches
            MixedOutcomeModel::SemanticAccepted { position: at, world: _, frame: _, bindings: map }
            && at == position && map == bindings@,
        MixedPending::SemanticRejected(rejected) => outcome is SemanticRejected && rejected@
            == outcome,
    }
}

/// No outcome is an acceptance.
pub open spec fn none_accepted(outcomes: Seq<MixedOutcomeModel>) -> bool {
    forall|i: int|
        0 <= i < outcomes.len() ==> match #[trigger] outcomes[i] {
            MixedOutcomeModel::Queued(queued) => queued is Rejected,
            MixedOutcomeModel::SemanticAccepted { .. } => false,
            MixedOutcomeModel::SemanticRejected { .. } => true,
        }
}

/// Gives every pending outcome the world and the frame of its epoch. An epoch that accepted nothing
/// has none.
fn resolve_mixed(
    pending: Vec<MixedPending>,
    epoch: Option<(&Arc<World>, &Arc<CommitFrame>)>,
    Ghost(outcomes): Ghost<Seq<MixedOutcomeModel>>,
) -> (result: Vec<MixedEpochOutcome>)
    requires
        pending.len() == outcomes.len(),
        forall|i: int| 0 <= i < outcomes.len() ==> mixed_pends(#[trigger] pending@[i], outcomes[i]),
        epoch is None ==> none_accepted(outcomes),
    ensures
        match epoch {
            Some((world, frame)) => views(result@) == Seq::new(
                outcomes.len(),
                |i: int| mixed_moved(outcomes[i], world@, frame@),
            ),
            None => views(result@) == outcomes,
        },
{
    let mut result: Vec<MixedEpochOutcome> = Vec::new();
    let mut rest = pending;
    let ghost all = pending@;
    let mut done: usize = 0;
    while rest.len() > 0
        invariant
            all.len() == outcomes.len(),
            all.len() <= usize::MAX,
            forall|i: int| 0 <= i < outcomes.len() ==> mixed_pends(#[trigger] all[i], outcomes[i]),
            epoch is None ==> none_accepted(outcomes),
            rest@ == all.skip(done as int),
            done <= all.len(),
            result.len() == done,
            forall|i: int|
                0 <= i < done ==> (#[trigger] result@[i])@ == match epoch {
                    Some((world, frame)) => mixed_moved(outcomes[i], world@, frame@),
                    None => outcomes[i],
                },
        decreases rest.len(),
    {
        let first = rest.remove(0);
        proof {
            assert(first == all[done as int]);
            assert(mixed_pends(all[done as int], outcomes[done as int]));
            assert(rest@ =~= all.skip(done + 1));
        }
        match (first, epoch) {
            (MixedPending::QueuedRejected(rejected), _) => {
                result.push(MixedEpochOutcome::QueuedRejected(rejected));
            },
            (MixedPending::SemanticRejected(rejected), _) => {
                result.push(MixedEpochOutcome::SemanticRejected(rejected));
            },
            (
                MixedPending::QueuedAccepted { position, namespace, entities },
                Some((world, frame)),
            ) => {
                result.push(
                    MixedEpochOutcome::QueuedAccepted(
                        AcceptedIntent::new(
                            position,
                            share(world),
                            share(frame),
                            namespace,
                            entities,
                        ),
                    ),
                );
            },
            (MixedPending::SemanticAccepted { position, bindings }, Some((world, frame))) => {
                result.push(
                    MixedEpochOutcome::SemanticAccepted(
                        AcceptedSemanticIntent::new(position, share(world), share(frame), bindings),
                    ),
                );
            },
            (MixedPending::QueuedAccepted { .. }, None) => {
                proof {
                    assert(outcomes[done as int] is Queued);
                    assert(false);
                }
            },
            (MixedPending::SemanticAccepted { .. }, None) => {
                proof {
                    assert(outcomes[done as int] is SemanticAccepted);
                    assert(false);
                }
            },
        }
        done += 1;
    }
    proof {
        match epoch {
            Some((world, frame)) => {
                assert(views(result@) =~= Seq::new(
                    outcomes.len(),
                    |i: int| mixed_moved(outcomes[i], world@, frame@),
                ));
            },
            None => {
                assert(views(result@) =~= outcomes);
            },
        }
    }
    result
}

/// An epoch that accepted nothing has only rejections.
pub proof fn nothing_accepted(
    base: WorldModel,
    intents: Seq<ControllerIntentModel>,
    verdicts: Seq<Result<(), Seq<char>>>,
)
    requires
        mixed_chain(base, intents, verdicts).accepted == 0,
    ensures
        none_accepted(mixed_chain(base, intents, verdicts).outcomes),
    decreases intents.len(),
{
    if intents.len() > 0 {
        let before = mixed_chain(base, intents.drop_last(), verdicts);
        let state = mixed_chain(base, intents, verdicts);
        nothing_accepted(base, intents.drop_last(), verdicts);
        assert forall|i: int| 0 <= i < state.outcomes.len() implies match #[trigger] state.outcomes[i] {
            MixedOutcomeModel::Queued(queued) => queued is Rejected,
            MixedOutcomeModel::SemanticAccepted { .. } => false,
            MixedOutcomeModel::SemanticRejected { .. } => true,
        } by {
            if i < before.outcomes.len() {
                assert(state.outcomes[i] == before.outcomes[i]);
            }
        }
    }
}

/// A lowered transaction that was judged.
struct JudgedSteps {
    steps: Vec<SemanticStep>,
    operations: Vec<Operation>,
    bindings: SemanticBindings,
}

/// Has a transaction judged that cannot be lowered.
fn judge_unlowered(
    id: WorldId,
    version: u64,
    operation_count: usize,
    kernel: &Kernel,
    operations: &[TransactionOp],
    validators: &[Rule],
    message: String,
    Ghost(world): Ghost<WorldModel>,
) -> (result: (Result<JudgedSteps, SemanticTicketRejection>, Ghost<Result<(), Seq<char>>>))
    requires
        has_room(world, operations@.len()),
        world.id == id,
        world.version == version,
        world.operation_count == operation_count,
        world.kernel == kernel@,
    ensures
        may_settle_unlowered(validators@, world, views(operations@), result.1@),
        result.0 matches Err(error) && error@ == match result.1@ {
            Ok(()) => SemanticRejectionModel::Lowering(message@),
            Err(refusal) => SemanticRejectionModel::Validation(refusal),
        },
{
    let ghost accepted: Result<(), Seq<char>> = Ok(());
    if validators.len() == 0 {
        return (Err(SemanticTicketRejection::Lowering(message)), Ghost(accepted));
    }
    let list = match synthesize(kernel.next_entity(), operations) {
        Some(list) => list,
        None => {
            return (Err(SemanticTicketRejection::Lowering(message)), Ghost(accepted));
        },
    };
    proof {
        assert(list.len() == views(list@).len());
        assert(operations.len() == views(operations@).len());
    }
    match CandidateWorld::construct_from_state(id, version, operation_count, kernel, list) {
        Err(error) => {
            let refusal = joined("candidate error: ", show_candidate_error(&error).as_str());
            let ghost answer: Result<(), Seq<char>> = Err(refusal@);
            (Err(SemanticTicketRejection::Validation(refusal)), Ghost(answer))
        },
        Ok(candidate) => {
            let verdict = judge(validators, &candidate);
            let ghost answer = verdict_model(verdict);
            match verdict {
                Ok(()) => (Err(SemanticTicketRejection::Lowering(message)), Ghost(answer)),
                Err(refusal) => (Err(SemanticTicketRejection::Validation(refusal)), Ghost(answer)),
            }
        },
    }
}

/// Lowers a transaction and has its candidate judged.
fn judge_semantic(
    id: WorldId,
    version: u64,
    operation_count: usize,
    kernel: &Kernel,
    operations: &[TransactionOp],
    validators: &[Rule],
    Ghost(world): Ghost<WorldModel>,
) -> (result: (Result<JudgedSteps, SemanticTicketRejection>, Ghost<Result<(), Seq<char>>>))
    requires
        has_room(world, operations@.len()),
        world.id == id,
        world.version == version,
        world.operation_count == operation_count,
        world.kernel == kernel@,
    ensures
        match (result.0, semantic_proposal(world, views(operations@))) {
            (Ok(judged), Ok((candidate, done))) => views(judged.steps@) == done.steps
                && judged.bindings@ == done.bindings && views(judged.operations@)
                == candidate.frame.operations && views(judged.operations@) == step_operations(
                done.steps,
            ) && result.1@ == Ok::<(), Seq<char>>(()),
            (Err(error), Ok((candidate, done))) => result.1@ matches Err(message) && error@
                == SemanticRejectionModel::Validation(message),
            (Err(error), Err(model)) => match result.1@ {
                Ok(()) => error@ == model,
                Err(message) => error@ == SemanticRejectionModel::Validation(message),
            },
            _ => false,
        },
        may_settle_mixed(
            validators@,
            world,
            ControllerIntentModel::Semantic(views(operations@)),
            result.1@,
        ),
        validators@.len() == 0 ==> result.1@ == Ok::<(), Seq<char>>(()),
{
    let ghost accepted: Result<(), Seq<char>> = Ok(());
    let ghost models = views(operations@);
    proof {
        lowered_facts(world.kernel.next_entity, models, world.kernel);
        assert(models.len() == operations.len());
    }
    let (steps, bindings) = match lower_transaction(kernel.next_entity(), operations) {
        Ok(done) => done,
        Err(message) => {
            return judge_unlowered(
                id,
                version,
                operation_count,
                kernel,
                operations,
                validators,
                message,
                Ghost(world),
            );
        },
    };
    let plain = collect_operations(steps.as_slice());
    proof {
        assert(plain.len() == views(plain@).len());
    }
    let copy = clone_operations(plain.as_slice());
    proof {
        assert(copy.len() == views(copy@).len());
    }
    let candidate = match CandidateWorld::construct_from_state(
        id,
        version,
        operation_count,
        kernel,
        copy,
    ) {
        Ok(candidate) => candidate,
        Err(error) => {
            return (
                Err(
                    SemanticTicketRejection::Validation(
                        joined("candidate error: ", show_candidate_error(&error).as_str()),
                    ),
                ),
                Ghost(accepted),
            );
        },
    };
    let verdict = judge(validators, &candidate);
    let ghost answer = verdict_model(verdict);
    match verdict {
        Ok(()) => (Ok(JudgedSteps { steps, operations: plain, bindings }), Ghost(answer)),
        Err(message) => (Err(SemanticTicketRejection::Validation(message)), Ghost(answer)),
    }
}

impl VmEpochMaterializer {
    /// Plans an epoch of queued and semantic intents. Each is evaluated against the state that
    /// the accepted ones before it lead to; a rejected one leaves no trace in the machine or in
    /// its dictionaries. One frame takes the base to the world of the epoch.
    pub fn materialize_mixed(
        &mut self,
        base: Arc<World>,
        intents: Vec<ControllerIntent>,
        validators: &[Rule],
    ) -> (result: MixedEpochPlan)
        requires
            old(self).wf(),
            old(self).in_step(base@.kernel),
            old(self).has_room(mixed_steps(views(intents@))),
            has_mixed_room(base@, views(intents@)),
        ensures
            final(self).wf(),
            final(self).synchronized_version() == old(self).synchronized_version(),
            final(self).in_step(result@.tail.kernel),
            exists|verdicts: Seq<Result<(), Seq<char>>>|
                verdicts.len() == intents.len() && mixed_fair(
                    validators@,
                    base@,
                    views(intents@),
                    verdicts,
                ) && result@ == mixed_plan(
                    base@,
                    #[trigger] mixed_chain(base@, views(intents@), verdicts),
                ),
            validators@.len() == 0 ==> result@ == mixed_plan(
                base@,
                mixed_chain(base@, views(intents@), unopposed(intents@.len())),
            ),
            forall|more: nat| #[trigger]
                old(self).spare_for(mixed_steps(views(intents@)), more) ==> final(self).has_room(
                    more,
                ),
    {
        let ghost models = views(intents@);
        let mut id = base.id();
        let mut version: u64 = base.version();
        let mut operation_count: usize = base.operation_count();
        let mut kernel = base.kernel().duplicate();
        let mut operations: Vec<Operation> = Vec::new();
        let mut accepted_count: usize = 0;
        let mut pending: Vec<MixedPending> = Vec::new();
        let ghost mut verdicts: Seq<Result<(), Seq<char>>> = Seq::empty();
        let ghost mut state = MixedModel {
            tail: base@,
            outcomes: Seq::empty(),
            operations: Seq::empty(),
            accepted: 0,
        };
        let mut position: usize = 0;
        proof {
            mixed_planned_start(validators@, base@, models);
            assert(views(operations@) =~= Seq::empty());
            assert(models.take(0) =~= Seq::empty());
        }
        while position < intents.len()
            invariant
                position <= intents.len(),
                models == views(intents@),
                has_mixed_room(base@, models),
                mixed_planned(validators@, base@, models, position as int, verdicts, state),
                state.outcomes.len() == position,
                pending.len() == position,
                forall|i: int|
                    0 <= i < position ==> mixed_pends(#[trigger] pending@[i], state.outcomes[i]),
                state.tail.id == id,
                state.tail.version == version,
                state.tail.operation_count == operation_count,
                state.tail.kernel == kernel@,
                self.wf(),
                self.in_step(kernel@),
                self.synchronized_version() == old(self).synchronized_version(),
                self.has_room(
                    (mixed_steps(models) - mixed_steps(models.take(position as int))) as nat,
                ),
                forall|more: nat| #[trigger]
                    old(self).spare_for(mixed_steps(models), more) ==> self.spare_for(
                        (mixed_steps(models) - mixed_steps(models.take(position as int))) as nat,
                        more,
                    ),
                accepted_count == state.accepted,
                accepted_count <= position,
                views(operations@) == state.operations,
            decreases intents.len() - position,
        {
            let ghost world = state.tail;
            let ghost before = pending@;
            let ghost earlier = state;
            let ghost machine = *self;
            let ghost rest = (mixed_steps(models) - mixed_steps(
                models.take(position + 1),
            )) as nat;
            proof {
                mixed_planned_facts(validators@, base@, models, position as int, verdicts, state);
                assert(models[position as int] == intents@[position as int]@);
                assert(models.take(position + 1).drop_last() =~= models.take(position as int));
                assert(models.take(position + 1).last() == intents@[position as int]@);
                mixed_steps_monotone(models, position + 1);
                let now = (mixed_steps(models) - mixed_steps(models.take(position as int))) as nat;
                self.weaken_room(now, rest);
                self.weaken_room(now, intent_steps(models[position as int]));
                assert(now == rest + intent_steps(models[position as int]));
            }
            let ghost mut used: nat = 0;
            match &intents[position] {
                ControllerIntent::Queued(queued) => {
                    let (derived, Ghost(verdict)) = derive_candidate(
                        id,
                        version,
                        operation_count,
                        &kernel,
                        queued,
                        validators,
                        Ghost(world),
                    );
                    proof {
                        mixed_planned_step(
                            validators@,
                            base@,
                            models,
                            position as int,
                            verdicts,
                            state,
                            verdict,
                        );
                        mixed_extended_facts(state, models[position as int], verdict);
                        queued_settled_facts(world, queued@, verdict);
                        verdicts = verdicts.push(verdict);
                        state = mixed_extended(earlier, models[position as int], verdict);
                        reveal(queued_settled);
                        extended_facts(
                            PlanModel {
                                base: world,
                                tail: world,
                                outcomes: Seq::empty(),
                                frames: Seq::empty(),
                            },
                            queued@,
                            verdict,
                        );
                        settled_replays(world, queued@, verdict);
                    }
                    match derived {
                        Err(error) => {
                            pending.push(
                                MixedPending::QueuedRejected(RejectedIntent::new(position, error)),
                            );
                        },
                        Ok(proposed) => {
                            let frame = proposed.candidate.commit_frame();
                            let accepted = frame.operations();
                            proof {
                                assert(accepted.len() == views(accepted@).len());
                                self.split_room(rest, queued@.operations.len(), accepted@.len());
                                used = accepted@.len();
                            }
                            match self.apply(accepted, Ghost(kernel@)) {
                                Ok(()) => {
                                    proof {
                                        assert(self.has_room(rest));
                                    }
                                    id = frame.resulting_world();
                                    version = frame.resulting_version();
                                    operation_count = operation_count + accepted.len();
                                    extend_operations(&mut operations, accepted);
                                    kernel = proposed.candidate.into_kernel();
                                    accepted_count += 1;
                                    pending.push(
                                        MixedPending::QueuedAccepted {
                                            position,
                                            namespace: queued.namespace(),
                                            entities: proposed.entities,
                                        },
                                    );
                                },
                                Err(message) => {
                                    proof {
                                        assert(self.has_room(rest));
                                    }
                                    pending.push(
                                        MixedPending::QueuedRejected(
                                            RejectedIntent::new(
                                                position,
                                                IntentRejection::Validation(message),
                                            ),
                                        ),
                                    );
                                },
                            }
                        },
                    }
                },
                ControllerIntent::Semantic(semantic) => {
                    let ghost steps_model = views(semantic.ast.operations@);
                    let (judged, Ghost(verdict)) = judge_semantic(
                        id,
                        version,
                        operation_count,
                        &kernel,
                        semantic.ast.operations.as_slice(),
                        validators,
                        Ghost(world),
                    );
                    proof {
                        mixed_planned_step(
                            validators@,
                            base@,
                            models,
                            position as int,
                            verdicts,
                            state,
                            verdict,
                        );
                        mixed_extended_facts(state, models[position as int], verdict);
                        semantic_settled_facts(world, steps_model, verdict);
                        verdicts = verdicts.push(verdict);
                        state = mixed_extended(earlier, models[position as int], verdict);
                        reveal(semantic_settled);
                        lowered_facts(world.kernel.next_entity, steps_model, world.kernel);
                    }
                    match judged {
                        Err(error) => {
                            pending.push(
                                MixedPending::SemanticRejected(
                                    RejectedSemanticIntent::new(position, error),
                                ),
                            );
                        },
                        Ok(judged) => {
                            proof {
                                assert(judged.steps@.len() == views(judged.steps@).len());
                                self.split_room(rest, steps_model.len(), judged.steps@.len());
                                used = judged.steps@.len();
                                guarded_is_replay(kernel@, views(judged.steps@));
                                assert forall|i: int|
                                    0 <= i < judged.steps@.len() implies step_fault_free(
                                    #[trigger] views(judged.steps@)[i],
                                ) by {}
                            }
                            match self.try_steps(judged.steps.as_slice(), Ghost(kernel@)) {
                                Ok(()) => {
                                    proof {
                                        assert(self.has_room(rest));
                                        assert(judged.operations.len() == views(
                                            judged.operations@,
                                        ).len());
                                    }
                                    let _replayed = kernel.replay(judged.operations.as_slice());
                                    version = version + 1;
                                    id = calculate_world_id(
                                        id,
                                        version,
                                        kernel.next_entity(),
                                        judged.operations.as_slice(),
                                    );
                                    operation_count = operation_count + judged.operations.len();
                                    extend_operations(
                                        &mut operations,
                                        judged.operations.as_slice(),
                                    );
                                    accepted_count += 1;
                                    pending.push(
                                        MixedPending::SemanticAccepted {
                                            position,
                                            bindings: judged.bindings,
                                        },
                                    );
                                },
                                Err(fault) => {
                                    proof {
                                        assert(self.has_room(rest));
                                    }
                                    pending.push(
                                        MixedPending::SemanticRejected(
                                            RejectedSemanticIntent::new(
                                                position,
                                                SemanticTicketRejection::Validation(
                                                    describe_vm_fault(fault),
                                                ),
                                            ),
                                        ),
                                    );
                                },
                            }
                        },
                    }
                },
            }
            proof {
                assert forall|more: nat| #[trigger]
                    old(self).spare_for(mixed_steps(models), more) implies self.spare_for(
                    rest,
                    more,
                ) by {
                    assert(machine.spare_for(rest + intent_steps(models[position as int]), more));
                    machine.weaken_room(
                        rest + intent_steps(models[position as int]) + more,
                        rest + more + used,
                    );
                    assert(self.has_room(rest + more));
                }
            }
            position += 1;
            proof {
                assert forall|i: int| 0 <= i < position implies mixed_pends(
                    #[trigger] pending@[i],
                    state.outcomes[i],
                ) by {
                    if i < position - 1 {
                        assert(pending@[i] == before[i]);
                        assert(state.outcomes[i] == earlier.outcomes[i]);
                    }
                }
            }
        }
        proof {
            assert(models.take(position as int) =~= models);
            mixed_planned_facts(validators@, base@, models, position as int, verdicts, state);
            mixed_planned_end(validators@, base@, models, verdicts, state);
        }
        finish_mixed(
            base,
            operations,
            kernel,
            accepted_count,
            pending,
            Ghost((models, verdicts, state)),
        )
    }

    proof fn split_room(&self, rest: nat, steps: nat, used: nat)
        requires
            self.has_room(rest + steps),
            used <= steps,
        ensures
            self.has_room(rest + used),
            self.has_room(used),
    {
        self.weaken_room(rest + steps, rest + used);
        self.weaken_room(rest + steps, used);
    }
}

/// An accepted queued intent's operations lead to its candidate's definitions.
proof fn settled_replays(world: WorldModel, intent: IntentModel, verdict: Result<(), Seq<char>>)
    requires
        has_room(world, intent.operations.len()),
    ensures
        settled(world, intent, verdict) matches Ok((candidate, _)) ==> replayed(
            world.kernel,
            candidate.frame.operations,
        ) == Ok::<KernelModel, CandidateErrorModel>(candidate.kernel),
{
    reveal(proposal);
}

/// Publishes the one world of a mixed epoch.
fn finish_mixed(
    base: Arc<World>,
    operations: Vec<Operation>,
    kernel: Kernel,
    accepted_count: usize,
    pending: Vec<MixedPending>,
    Ghost(run): Ghost<
        (Seq<ControllerIntentModel>, Seq<Result<(), Seq<char>>>, MixedModel),
    >,
) -> (result: MixedEpochPlan)
    requires
        run.2 == mixed_chain(base@, run.0, run.1),
        accepted_count == run.2.accepted,
        views(operations@) == run.2.operations,
        kernel@ == run.2.tail.kernel,
        pending.len() == run.2.outcomes.len(),
        forall|i: int|
            0 <= i < run.2.outcomes.len() ==> mixed_pends(
                #[trigger] pending@[i],
                run.2.outcomes[i],
            ),
        run.2.accepted == 0 ==> run.2.tail == base@,
        base@.version < u64::MAX,
        base@.operation_count + views(operations@).len() <= usize::MAX,
    ensures
        result@ == mixed_plan(base@, run.2),
        result@.tail.kernel == kernel@,
{
    let ghost state = run.2;
    proof {
        assert(operations.len() == views(operations@).len());
    }
    let start = share(&base);
    if accepted_count == 0 {
        proof {
            nothing_accepted(base@, run.0, run.1);
        }
        let outcomes = resolve_mixed(pending, None, Ghost(state.outcomes));
        let frames: Vec<Arc<CommitFrame>> = Vec::new();
        proof {
            assert(views(frames@) =~= Seq::empty());
        }
        return MixedEpochPlan::new(start, base, outcomes, frames);
    }
    let (world, frame) = World::epoch_successor(&base, operations, kernel);
    let world = Arc::new(world);
    let outcomes = resolve_mixed(pending, Some((&world, &frame)), Ghost(state.outcomes));
    let mut frames: Vec<Arc<CommitFrame>> = Vec::new();
    frames.push(frame);
    proof {
        assert(views(frames@) =~= seq![frame@]);
    }
    MixedEpochPlan::new(start, world, outcomes, frames)
}

impl Database<MemoryCommitStore> {
    /// Brings the machine up to the current world, plans a mixed epoch on it, appends its frame,
    /// and publishes its world.
    pub fn commit_mixed_epoch(
        &mut self,
        intents: Vec<ControllerIntent>,
        materializer: &mut VmEpochMaterializer,
    ) -> (result: MixedEpochPlan)
        requires
            old(self).sound(),
            linked(old(self).log()),
            old(materializer).wf(),
            old(materializer).synchronized_version() <= old(self).world().version,
            0 < old(materializer).synchronized_version() ==> old(materializer).in_step(
                kernel_after(old(self).log(), old(materializer).synchronized_version() as int),
            ),
            old(self).world().version == 0 ==> old(materializer).in_step(
                old(self).world().kernel,
            ),
            history_fault(
                old(self).log(),
                old(materializer).synchronized_version() as int,
            ) is None,
            old(materializer).spare(
                operations_from(old(self).log(), old(materializer).synchronized_version() as int),
                mixed_steps(views(intents@)),
            ),
            has_mixed_room(old(self).world(), views(intents@)),
        ensures
            exists|verdicts: Seq<Result<(), Seq<char>>>|
                verdicts.len() == intents.len() && mixed_fair(
                    old(self).rules(),
                    old(self).world(),
                    views(intents@),
                    verdicts,
                ) && result@ == mixed_plan(
                    old(self).world(),
                    #[trigger] mixed_chain(old(self).world(), views(intents@), verdicts),
                ),
            old(self).rules().len() == 0 ==> result@ == mixed_plan(
                old(self).world(),
                mixed_chain(old(self).world(), views(intents@), unopposed(intents@.len())),
            ),
            final(self).world() == result@.tail,
            final(self).log() == old(self).log() + result@.frames,
            final(self).rules() == old(self).rules(),
            final(self).sound(),
            final(materializer).wf(),
            final(materializer).in_step(result@.tail.kernel),
            final(materializer).synchronized_version() == result@.tail.version,
            forall|more: nat| #[trigger]
                old(materializer).spare_for(
                    operations_from(
                        old(self).log(),
                        old(materializer).synchronized_version() as int,
                    ) + mixed_steps(views(intents@)),
                    more,
                ) ==> final(materializer).has_room(more),
    {
        let base = self.snapshot();
        proof {
            reconstructed_facts(self.log());
        }
        let ghost later = mixed_steps(views(intents@));
        let ghost fresh = operations_from(
            self.log(),
            materializer.synchronized_version() as int,
        );
        proof {
            materializer.weaken_room(fresh + later, fresh);
        }
        let _synchronized = materializer.synchronize_to(&base);
        let ghost synchronized = *materializer;
        proof {
            assert(materializer.has_room(later));
            assert forall|more: nat| #[trigger]
                old(materializer).spare_for(fresh + later, more) implies materializer.spare_for(
                later,
                more,
            ) by {
                assert(old(materializer).spare(fresh, later + more));
            }
        }
        let plan = materializer.materialize_mixed(base, intents, self.validators());
        proof {
            let verdicts = choose|verdicts: Seq<Result<(), Seq<char>>>|
                verdicts.len() == intents.len() && mixed_fair(
                    self.rules(),
                    self.world(),
                    views(intents@),
                    verdicts,
                ) && plan@ == mixed_plan(
                    self.world(),
                    #[trigger] mixed_chain(self.world(), views(intents@), verdicts),
                );
            mixed_plan_replays(self.world(), views(intents@), verdicts);
        }
        self.adopt(plan.frames(), plan.tail());
        materializer.set_version(plan.tail().version());
        proof {
            assert forall|more: nat| #[trigger]
                old(materializer).spare_for(fresh + later, more) implies materializer.has_room(
                more,
            ) by {
                assert(synchronized.spare_for(later, more));
            }
        }
        plan
    }
}

} // verus!
