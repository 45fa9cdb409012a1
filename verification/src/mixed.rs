//! Epochs of queued and semantic intents together.

use crate::compile::operations_fault;
use crate::database::{Rule, may_judge};
use crate::errors::CandidateErrorModel;
use crate::fact::{EntityId, OperationModel, views};
use crate::fact_text::candidate_error_shown;
use crate::frame::FrameModel;
use crate::intent::{IntentModel, QueuedIntent};
use crate::kernel::{KernelModel, numbered, replayed, replayed_concat, replayed_keeps_order};
use crate::plan_model::{
    OutcomeModel, RejectionModel, moved, proposal, resolved, resolved_applies, settled, unopposed,
};
use crate::semantic::{
    LoweredModel, SemanticIntent, TransactionOpModel, guarded, lowered, lowered_facts,
    step_operations,
};
use crate::symbols::synthesized;
use crate::vm::VmFault;
use crate::world::{
    CandidateModel, WorldModel, candidate_of, commit_frame_of, epoch_world_of, has_room, published,
    reconstructed,
};
use std::sync::Arc;
use vstd::prelude::*;
use vstd::string::*;

verus! {

/// Why a semantic intent is turned down.
#[derive(Debug)]
pub enum SemanticTicketRejection {
    /// Its symbols do not resolve.
    Lowering(String),
    /// A validator or one of its own guards refuses it.
    Validation(String),
}

/// Mathematical value of a [`SemanticTicketRejection`].
pub enum SemanticRejectionModel {
    Lowering(Seq<char>),
    Validation(Seq<char>),
}

impl View for SemanticTicketRejection {
    type V = SemanticRejectionModel;

    open spec fn view(&self) -> SemanticRejectionModel {
        match *self {
            SemanticTicketRejection::Lowering(message) => SemanticRejectionModel::Lowering(
                message@,
            ),
            SemanticTicketRejection::Validation(message) => SemanticRejectionModel::Validation(
                message@,
            ),
        }
    }
}

/// An intent of either kind.
pub enum ControllerIntent {
    Queued(QueuedIntent),
    Semantic(SemanticIntent),
}

/// Mathematical value of a [`ControllerIntent`].
pub enum ControllerIntentModel {
    Queued(IntentModel),
    Semantic(Seq<TransactionOpModel>),
}

impl View for ControllerIntent {
    type V = ControllerIntentModel;

    open spec fn view(&self) -> ControllerIntentModel {
        match *self {
            ControllerIntent::Queued(intent) => ControllerIntentModel::Queued(intent@),
            ControllerIntent::Semantic(intent) => ControllerIntentModel::Semantic(
                views(intent.ast.operations@),
            ),
        }
    }
}

/// How many operations an intent has.
pub open spec fn intent_steps(intent: ControllerIntentModel) -> nat {
    match intent {
        ControllerIntentModel::Queued(queued) => queued.operations.len(),
        ControllerIntentModel::Semantic(operations) => operations.len(),
    }
}

pub open spec fn mixed_steps(intents: Seq<ControllerIntentModel>) -> nat
    decreases intents.len(),
{
    if intents.len() == 0 {
        0
    } else {
        mixed_steps(intents.drop_last()) + intent_steps(intents.last())
    }
}

pub open spec fn vm_fault_text(fault: VmFault) -> Seq<char> {
    match fault {
        VmFault::StackUnderflow => "StackUnderflow"@,
        VmFault::UnknownSlot => "UnknownSlot"@,
        VmFault::UnknownLocal => "UnknownLocal"@,
        VmFault::ExpectationFailed => "ExpectationFailed"@,
        VmFault::Rejected => "Rejected"@,
    }
}

/// The name of a fault.
pub fn describe_vm_fault(fault: VmFault) -> (result: String)
    ensures
        result@ == vm_fault_text(fault),
{
    match fault {
        VmFault::StackUnderflow => "StackUnderflow".to_owned(),
        VmFault::UnknownSlot => "UnknownSlot".to_owned(),
        VmFault::UnknownLocal => "UnknownLocal".to_owned(),
        VmFault::ExpectationFailed => "ExpectationFailed".to_owned(),
        VmFault::Rejected => "Rejected".to_owned(),
    }
}

/// The candidate that a lowered transaction makes of a world, before its guards are tested.
pub open spec fn semantic_proposal(
    world: WorldModel,
    operations: Seq<TransactionOpModel>,
) -> Result<(CandidateModel, LoweredModel), SemanticRejectionModel> {
    match lowered(world.kernel.next_entity, operations) {
        Err(message) => Err(SemanticRejectionModel::Lowering(message)),
        Ok(done) => match candidate_of(world, step_operations(done.steps)) {
            Err(error) => Err(
                SemanticRejectionModel::Validation(
                    "candidate error: "@ + candidate_error_shown(error),
                ),
            ),
            Ok(candidate) => Ok((candidate, done)),
        },
    }
}

/// A semantic intent with the validators' verdict on it, and with its guards tested.
#[verifier::opaque]
pub open spec fn semantic_settled(
    world: WorldModel,
    operations: Seq<TransactionOpModel>,
    verdict: Result<(), Seq<char>>,
) -> Result<(CandidateModel, Seq<(Seq<char>, u64)>), SemanticRejectionModel> {
    match semantic_proposal(world, operations) {
        Err(error) => match verdict {
            Err(message) => Err(SemanticRejectionModel::Validation(message)),
            Ok(()) => Err(error),
        },
        Ok((candidate, done)) => match verdict {
            Err(message) => Err(SemanticRejectionModel::Validation(message)),
            Ok(()) => match guarded(world.kernel, done.steps) {
                Err(fault) => Err(SemanticRejectionModel::Validation(vm_fault_text(fault))),
                Ok(_) => Ok((candidate, done.bindings)),
            },
        },
    }
}

/// A queued intent, which must also be representable on the machine.
#[verifier::opaque]
pub open spec fn queued_settled(
    world: WorldModel,
    intent: IntentModel,
    verdict: Result<(), Seq<char>>,
) -> Result<(CandidateModel, Map<u32, EntityId>), RejectionModel> {
    match settled(world, intent, verdict) {
        Err(error) => Err(error),
        Ok((candidate, entities)) => match operations_fault(candidate.frame.operations) {
            Some(message) => Err(RejectionModel::Validation(message)),
            None => Ok((candidate, entities)),
        },
    }
}

/// What became of one intent.
#[allow(inconsistent_fields)]
pub enum MixedOutcomeModel {
    Queued(OutcomeModel),
    SemanticAccepted {
        position: nat,
        world: WorldModel,
        frame: FrameModel,
        bindings: Seq<(Seq<char>, u64)>,
    },
    SemanticRejected { position: nat, error: SemanticRejectionModel },
}

/// An epoch so far: the private world that the accepted intents lead to, their outcomes, and
/// their operations.
pub struct MixedModel {
    pub tail: WorldModel,
    pub outcomes: Seq<MixedOutcomeModel>,
    pub operations: Seq<OperationModel>,
    pub accepted: nat,
}

/// An accepted intent moves the private world.
pub open spec fn mixed_accept(
    state: MixedModel,
    candidate: CandidateModel,
    outcome: MixedOutcomeModel,
) -> MixedModel {
    MixedModel {
        tail: published(candidate, state.tail.history),
        outcomes: state.outcomes.push(outcome),
        operations: state.operations + candidate.frame.operations,
        accepted: state.accepted + 1,
    }
}

/// One more intent.
pub open spec fn mixed_extended(
    state: MixedModel,
    intent: ControllerIntentModel,
    verdict: Result<(), Seq<char>>,
) -> MixedModel {
    let position = state.outcomes.len();
    match intent {
        ControllerIntentModel::Queued(queued) => match queued_settled(
            state.tail,
            queued,
            verdict,
        ) {
            Ok((candidate, entities)) => mixed_accept(
                state,
                candidate,
                MixedOutcomeModel::Queued(
                    OutcomeModel::Accepted {
                        position,
                        world: published(candidate, state.tail.history),
                        frame: candidate.frame,
                        namespace: queued.namespace,
                        entities,
                    },
                ),
            ),
            Err(error) => MixedModel {
                outcomes: state.outcomes.push(
                    MixedOutcomeModel::Queued(OutcomeModel::Rejected { position, error }),
                ),
                ..state
            },
        },
        ControllerIntentModel::Semantic(operations) => match semantic_settled(
            state.tail,
            operations,
            verdict,
        ) {
            Ok((candidate, bindings)) => mixed_accept(
                state,
                candidate,
                MixedOutcomeModel::SemanticAccepted {
                    position,
                    world: published(candidate, state.tail.history),
                    frame: candidate.frame,
                    bindings,
                },
            ),
            Err(error) => MixedModel {
                outcomes: state.outcomes.push(
                    MixedOutcomeModel::SemanticRejected { position, error },
                ),
                ..state
            },
        },
    }
}

/// The intents of an epoch in order, given the verdict on each.
pub open spec fn mixed_chain(
    base: WorldModel,
    intents: Seq<ControllerIntentModel>,
    verdicts: Seq<Result<(), Seq<char>>>,
) -> MixedModel
    decreases intents.len(),
{
    if intents.len() == 0 {
        MixedModel { tail: base, outcomes: Seq::empty(), operations: Seq::empty(), accepted: 0 }
    } else {
        mixed_extended(
            mixed_chain(base, intents.drop_last(), verdicts),
            intents.last(),
            verdicts[intents.len() - 1],
        )
    }
}

/// A verdict on a transaction that cannot be lowered. Where there are validators, they judge first
/// what its operations would do with every symbol bound from the start; a transaction that defines
/// with a symbol which is allocated nowhere has no such operations.
pub open spec fn may_settle_unlowered(
    validators: Seq<Rule>,
    world: WorldModel,
    operations: Seq<TransactionOpModel>,
    verdict: Result<(), Seq<char>>,
) -> bool {
    if validators.len() == 0 {
        verdict == Ok::<(), Seq<char>>(())
    } else {
        match synthesized(world.kernel.next_entity, operations, operations.len() as int) {
            None => verdict == Ok::<(), Seq<char>>(()),
            Some(list) => match candidate_of(world, list) {
                Err(error) => verdict == Err::<(), Seq<char>>(
                    "candidate error: "@ + candidate_error_shown(error),
                ),
                Ok(candidate) => may_judge(validators, candidate, verdict),
            },
        }
    }
}

/// A verdict that the validators may have given on an intent's candidate.
pub open spec fn may_settle_mixed(
    validators: Seq<Rule>,
    world: WorldModel,
    intent: ControllerIntentModel,
    verdict: Result<(), Seq<char>>,
) -> bool {
    match intent {
        ControllerIntentModel::Queued(queued) => proposal(world, queued) matches Ok((candidate, _))
            ==> may_judge(validators, candidate, verdict),
        ControllerIntentModel::Semantic(operations) => match semantic_proposal(world, operations) {
            Ok((candidate, _)) => may_judge(validators, candidate, verdict),
            Err(_) => may_settle_unlowered(validators, world, operations, verdict),
        },
    }
}

/// Verdicts that the validators may have given along an epoch.
#[verifier::opaque]
pub open spec fn mixed_fair(
    validators: Seq<Rule>,
    base: WorldModel,
    intents: Seq<ControllerIntentModel>,
    verdicts: Seq<Result<(), Seq<char>>>,
) -> bool {
    forall|i: int|
        0 <= i < intents.len() ==> may_settle_mixed(
            validators,
            mixed_chain(base, intents.take(i), verdicts).tail,
            #[trigger] intents[i],
            verdicts[i],
        )
}

/// What an epoch leads to.
pub struct MixedPlanModel {
    pub base: WorldModel,
    pub tail: WorldModel,
    pub outcomes: Seq<MixedOutcomeModel>,
    pub frames: Seq<FrameModel>,
}

/// An accepted intent observes the world of the whole epoch.
pub open spec fn mixed_moved(
    outcome: MixedOutcomeModel,
    world: WorldModel,
    frame: FrameModel,
) -> MixedOutcomeModel {
    match outcome {
        MixedOutcomeModel::Queued(queued) => MixedOutcomeModel::Queued(
            moved(queued, world, frame),
        ),
        MixedOutcomeModel::SemanticAccepted { position, world: _, frame: _, bindings } =>
            MixedOutcomeModel::SemanticAccepted { position, world, frame, bindings },
        MixedOutcomeModel::SemanticRejected { position, error } =>
            MixedOutcomeModel::SemanticRejected { position, error },
    }
}

/// The plan of an epoch: one frame with all accepted operations, if there are accepted intents.
pub open spec fn mixed_plan(base: WorldModel, state: MixedModel) -> MixedPlanModel {
    if state.accepted == 0 {
        MixedPlanModel { base, tail: base, outcomes: state.outcomes, frames: Seq::empty() }
    } else {
        let world = epoch_world_of(base, state.operations, state.tail.kernel);
        let frame = commit_frame_of(
            base.id,
            base.version,
            state.operations,
            state.tail.kernel.next_entity,
        );
        MixedPlanModel {
            base,
            tail: world,
            outcomes: Seq::new(
                state.outcomes.len(),
                |i: int| mixed_moved(state.outcomes[i], world, frame),
            ),
            frames: seq![frame],
        }
    }
}

/// There is room to count the effects of an epoch.
pub open spec fn has_mixed_room(base: WorldModel, intents: Seq<ControllerIntentModel>) -> bool {
    &&& base.version + intents.len() < u64::MAX
    &&& base.operation_count + mixed_steps(intents) <= usize::MAX
    &&& base.kernel.records + mixed_steps(intents) <= usize::MAX
    &&& base.kernel.next_entity + mixed_steps(intents) <= u64::MAX
}

pub proof fn mixed_steps_monotone(intents: Seq<ControllerIntentModel>, count: int)
    requires
        0 <= count <= intents.len(),
    ensures
        mixed_steps(intents.take(count)) <= mixed_steps(intents),
    decreases intents.len(),
{
    if count == intents.len() {
        assert(intents.take(count) =~= intents);
    } else {
        assert(intents.drop_last().take(count) =~= intents.take(count));
        mixed_steps_monotone(intents.drop_last(), count);
    }
}

/// What an accepted semantic intent's candidate is.
pub proof fn semantic_settled_facts(
    world: WorldModel,
    operations: Seq<TransactionOpModel>,
    verdict: Result<(), Seq<char>>,
)
    requires
        has_room(world, operations.len()),
    ensures
        semantic_settled(world, operations, verdict) matches Ok((candidate, _))
            ==> candidate.frame.operations.len() <= operations.len() && replayed(
            world.kernel,
            candidate.frame.operations,
        ) == Ok::<KernelModel, CandidateErrorModel>(candidate.kernel)
            && candidate.base_operation_count == world.operation_count && (numbered(world.kernel) ==> numbered(
            candidate.kernel,
        )) && candidate.kernel.records <= world.kernel.records + operations.len()
            && candidate.kernel.next_entity <= world.kernel.next_entity + operations.len()
            && candidate.frame == commit_frame_of(
            world.id,
            world.version,
            candidate.frame.operations,
            candidate.kernel.next_entity,
        ),
{
    reveal(semantic_settled);
    lowered_facts(world.kernel.next_entity, operations, world.kernel);
    if let Ok(done) = lowered(world.kernel.next_entity, operations) {
        replayed_keeps_order(world.kernel, step_operations(done.steps));
    }
}

/// What an accepted queued intent's candidate is.
pub proof fn queued_settled_facts(
    world: WorldModel,
    intent: IntentModel,
    verdict: Result<(), Seq<char>>,
)
    requires
        has_room(world, intent.operations.len()),
    ensures
        queued_settled(world, intent, verdict) matches Ok((candidate, _))
            ==> candidate.frame.operations.len() <= intent.operations.len() && replayed(
            world.kernel,
            candidate.frame.operations,
        ) == Ok::<KernelModel, CandidateErrorModel>(candidate.kernel)
            && candidate.base_operation_count == world.operation_count && (numbered(world.kernel) ==> numbered(
            candidate.kernel,
        )) && candidate.kernel.records <= world.kernel.records + intent.operations.len()
            && candidate.kernel.next_entity <= world.kernel.next_entity + intent.operations.len()
            && candidate.frame == commit_frame_of(
            world.id,
            world.version,
            candidate.frame.operations,
            candidate.kernel.next_entity,
        ) && operations_fault(candidate.frame.operations) is None,
{
    reveal(queued_settled);
    reveal(proposal);
    resolved_applies(
        world.kernel.next_entity,
        intent.namespace,
        intent.operations,
        world.kernel,
    );
    if let Ok(done) = resolved(world.kernel.next_entity, intent.namespace, intent.operations) {
        replayed_keeps_order(world.kernel, done.operations);
    }
}

/// What one more intent does to the private world.
pub proof fn mixed_extended_facts(
    state: MixedModel,
    intent: ControllerIntentModel,
    verdict: Result<(), Seq<char>>,
)
    requires
        has_room(state.tail, intent_steps(intent)),
    ensures
        ({
            let more = mixed_extended(state, intent, verdict);
            let steps = intent_steps(intent);
            &&& numbered(state.tail.kernel) ==> numbered(more.tail.kernel)
            &&& state.tail.version <= more.tail.version <= state.tail.version + 1
            &&& more.tail.operation_count <= state.tail.operation_count + steps
            &&& more.tail.operation_count - state.tail.operation_count
                == more.operations.len() - state.operations.len()
            &&& more.tail.kernel.records <= state.tail.kernel.records + steps
            &&& more.tail.kernel.next_entity <= state.tail.kernel.next_entity + steps
            &&& more.outcomes.len() == state.outcomes.len() + 1
            &&& state.accepted <= more.accepted <= state.accepted + 1
            &&& more.accepted == state.accepted ==> more.tail == state.tail && more.operations
                == state.operations
        }),
{
    match intent {
        ControllerIntentModel::Queued(queued) => {
            queued_settled_facts(state.tail, queued, verdict);
        },
        ControllerIntentModel::Semantic(operations) => {
            semantic_settled_facts(state.tail, operations, verdict);
        },
    }
}

/// Facts about the private world along an epoch.
pub proof fn mixed_chain_facts(
    base: WorldModel,
    intents: Seq<ControllerIntentModel>,
    verdicts: Seq<Result<(), Seq<char>>>,
    count: int,
)
    requires
        has_mixed_room(base, intents),
        0 <= count <= intents.len(),
    ensures
        ({
            let state = mixed_chain(base, intents.take(count), verdicts);
            let steps = mixed_steps(intents.take(count));
            &&& numbered(base.kernel) ==> numbered(state.tail.kernel)
            &&& base.version <= state.tail.version <= base.version + count
            &&& state.tail.operation_count <= base.operation_count + steps
            &&& state.tail.operation_count == base.operation_count + state.operations.len()
            &&& state.tail.kernel.records <= base.kernel.records + steps
            &&& state.tail.kernel.next_entity <= base.kernel.next_entity + steps
            &&& state.outcomes.len() == count
            &&& state.accepted <= count
            &&& state.accepted == 0 ==> state.tail == base && state.operations == Seq::<
                OperationModel,
            >::empty()
            &&& replayed(base.kernel, state.operations) == Ok::<KernelModel, CandidateErrorModel>(
                state.tail.kernel,
            )
        }),
        count < intents.len() ==> has_room(
            mixed_chain(base, intents.take(count), verdicts).tail,
            intent_steps(intents[count]),
        ),
    decreases count,
{
    mixed_steps_monotone(intents, count);
    if count < intents.len() {
        mixed_steps_monotone(intents, count + 1);
        assert(intents.take(count + 1).drop_last() =~= intents.take(count));
        assert(intents.take(count + 1).last() == intents[count]);
    }
    if count > 0 {
        mixed_chain_facts(base, intents, verdicts, count - 1);
        let before = mixed_chain(base, intents.take(count - 1), verdicts);
        assert(intents.take(count).drop_last() =~= intents.take(count - 1));
        assert(intents.take(count).last() == intents[count - 1]);
        let intent = intents[count - 1];
        let verdict = verdicts[count - 1];
        mixed_extended_facts(before, intent, verdict);
        match intent {
            ControllerIntentModel::Queued(queued) => {
                queued_settled_facts(before.tail, queued, verdict);
                if let Ok((candidate, _)) = queued_settled(before.tail, queued, verdict) {
                    replayed_concat(
                        base.kernel,
                        before.operations,
                        candidate.frame.operations,
                    );
                }
            },
            ControllerIntentModel::Semantic(operations) => {
                semantic_settled_facts(before.tail, operations, verdict);
                if let Ok((candidate, _)) = semantic_settled(before.tail, operations, verdict) {
                    replayed_concat(
                        base.kernel,
                        before.operations,
                        candidate.frame.operations,
                    );
                }
            },
        }
    }
}

/// Later verdicts have no bearing on earlier intents.
pub proof fn mixed_ignores_later_verdicts(
    base: WorldModel,
    intents: Seq<ControllerIntentModel>,
    left: Seq<Result<(), Seq<char>>>,
    right: Seq<Result<(), Seq<char>>>,
)
    requires
        forall|i: int| 0 <= i < intents.len() ==> left[i] == right[i],
    ensures
        mixed_chain(base, intents, left) == mixed_chain(base, intents, right),
    decreases intents.len(),
{
    if intents.len() > 0 {
        mixed_ignores_later_verdicts(base, intents.drop_last(), left, right);
    }
}

/// `state` is what the first `count` intents lead to under fair verdicts.
#[verifier::opaque]
pub open spec fn mixed_planned(
    validators: Seq<Rule>,
    base: WorldModel,
    intents: Seq<ControllerIntentModel>,
    count: int,
    verdicts: Seq<Result<(), Seq<char>>>,
    state: MixedModel,
) -> bool {
    &&& 0 <= count <= intents.len()
    &&& verdicts.len() == count
    &&& mixed_fair(validators, base, intents.take(count), verdicts)
    &&& state == mixed_chain(base, intents.take(count), verdicts)
    &&& validators.len() == 0 ==> verdicts == unopposed(count as nat)
}

pub proof fn mixed_planned_start(
    validators: Seq<Rule>,
    base: WorldModel,
    intents: Seq<ControllerIntentModel>,
)
    ensures
        mixed_planned(
            validators,
            base,
            intents,
            0,
            Seq::empty(),
            MixedModel {
                tail: base,
                outcomes: Seq::empty(),
                operations: Seq::empty(),
                accepted: 0,
            },
        ),
{
    reveal(mixed_planned);
    reveal(mixed_fair);
    assert(intents.take(0) =~= Seq::empty());
    assert(unopposed(0) =~= Seq::empty());
}

pub proof fn mixed_planned_facts(
    validators: Seq<Rule>,
    base: WorldModel,
    intents: Seq<ControllerIntentModel>,
    count: int,
    verdicts: Seq<Result<(), Seq<char>>>,
    state: MixedModel,
)
    requires
        mixed_planned(validators, base, intents, count, verdicts, state),
        has_mixed_room(base, intents),
    ensures
        state.outcomes.len() == count,
        state.accepted <= count,
        state.tail.operation_count == base.operation_count + state.operations.len(),
        state.tail.operation_count <= base.operation_count + mixed_steps(intents),
        state.accepted == 0 ==> state.tail == base,
        replayed(base.kernel, state.operations) == Ok::<KernelModel, CandidateErrorModel>(
            state.tail.kernel,
        ),
        count < intents.len() ==> has_room(state.tail, intent_steps(intents[count])),
{
    reveal(mixed_planned);
    mixed_chain_facts(base, intents, verdicts, count);
    mixed_steps_monotone(intents, count);
}

proof fn mixed_fair_one_more(
    validators: Seq<Rule>,
    base: WorldModel,
    intents: Seq<ControllerIntentModel>,
    intent: ControllerIntentModel,
    verdicts: Seq<Result<(), Seq<char>>>,
    verdict: Result<(), Seq<char>>,
)
    requires
        verdicts.len() == intents.len(),
        mixed_fair(validators, base, intents, verdicts),
        may_settle_mixed(
            validators,
            mixed_chain(base, intents, verdicts).tail,
            intent,
            verdict,
        ),
    ensures
        mixed_fair(validators, base, intents.push(intent), verdicts.push(verdict)),
{
    reveal(mixed_fair);
    let more = intents.push(intent);
    let answers = verdicts.push(verdict);
    assert forall|i: int| 0 <= i < more.len() implies may_settle_mixed(
        validators,
        mixed_chain(base, more.take(i), answers).tail,
        #[trigger] more[i],
        answers[i],
    ) by {
        assert(more.take(i) =~= intents.take(i));
        assert(intents.take(intents.len() as int) =~= intents);
        mixed_ignores_later_verdicts(base, intents.take(i), verdicts, answers);
        if i < intents.len() {
            assert(more[i] == intents[i]);
        }
    }
}

pub proof fn mixed_planned_step(
    validators: Seq<Rule>,
    base: WorldModel,
    intents: Seq<ControllerIntentModel>,
    count: int,
    verdicts: Seq<Result<(), Seq<char>>>,
    state: MixedModel,
    verdict: Result<(), Seq<char>>,
)
    requires
        mixed_planned(validators, base, intents, count, verdicts, state),
        count < intents.len(),
        may_settle_mixed(validators, state.tail, intents[count], verdict),
        validators.len() == 0 ==> verdict == Ok::<(), Seq<char>>(()),
    ensures
        mixed_planned(
            validators,
            base,
            intents,
            count + 1,
            verdicts.push(verdict),
            mixed_extended(state, intents[count], verdict),
        ),
{
    reveal(mixed_planned);
    let before = intents.take(count);
    mixed_fair_one_more(validators, base, before, intents[count], verdicts, verdict);
    mixed_ignores_later_verdicts(base, before, verdicts, verdicts.push(verdict));
    assert(before.push(intents[count]) =~= intents.take(count + 1));
    assert(intents.take(count + 1).drop_last() =~= before);
    if validators.len() == 0 {
        assert(verdicts.push(verdict) =~= unopposed((count + 1) as nat));
    }
}

pub proof fn mixed_planned_end(
    validators: Seq<Rule>,
    base: WorldModel,
    intents: Seq<ControllerIntentModel>,
    verdicts: Seq<Result<(), Seq<char>>>,
    state: MixedModel,
)
    requires
        mixed_planned(validators, base, intents, intents.len() as int, verdicts, state),
    ensures
        verdicts.len() == intents.len(),
        mixed_fair(validators, base, intents, verdicts),
        state == mixed_chain(base, intents, verdicts),
        validators.len() == 0 ==> verdicts == unopposed(intents.len()),
{
    reveal(mixed_planned);
    assert(intents.take(intents.len() as int) =~= intents);
}

/// The frame of a mixed epoch replays to its world.
pub proof fn mixed_plan_replays(
    base: WorldModel,
    intents: Seq<ControllerIntentModel>,
    verdicts: Seq<Result<(), Seq<char>>>,
)
    requires
        has_mixed_room(base, intents),
        reconstructed(base.history) == Ok::<WorldModel, CandidateErrorModel>(base),
    ensures
        ({
            let plan = mixed_plan(base, mixed_chain(base, intents, verdicts));
            &&& plan.tail.history == base.history + plan.frames
            &&& reconstructed(base.history + plan.frames) == Ok::<
                WorldModel,
                CandidateErrorModel,
            >(plan.tail)
        }),
{
    mixed_chain_facts(base, intents, verdicts, intents.len() as int);
    assert(intents.take(intents.len() as int) =~= intents);
    let state = mixed_chain(base, intents, verdicts);
    let plan = mixed_plan(base, state);
    if state.accepted == 0 {
        assert(base.history + plan.frames =~= base.history);
    } else {
        let frame = plan.frames[0];
        assert(base.history + plan.frames =~= base.history.push(frame));
        assert((base.history + plan.frames).drop_last() =~= base.history);
        replayed_keeps_order(base.kernel, state.operations);
    }
}

/// A nonempty mixed epoch advances the version exactly once; an empty one leaves the base.
pub proof fn mixed_epoch_versions(base: WorldModel, state: MixedModel)
    requires
        base.version < u64::MAX,
    ensures
        state.accepted > 0 ==> mixed_plan(base, state).tail.version == base.version + 1
            && mixed_plan(base, state).frames.len() == 1,
        state.accepted == 0 ==> mixed_plan(base, state).tail == base && mixed_plan(
            base,
            state,
        ).frames.len() == 0,
{
}

} // verus!
