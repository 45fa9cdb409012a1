//! How the intents of an epoch bear on each other.

use crate::database::{Rule, may_judge};
use crate::fact::{EntityId, OperationModel};
use crate::intent::IntentModel;
use crate::mixed::{
    ControllerIntentModel, MixedModel, MixedOutcomeModel, mixed_chain, mixed_plan, queued_settled,
    semantic_settled,
};
use crate::plan_model::{
    OutcomeModel, RejectionModel, chained, extended, may_settle, proposal, settled,
};
use crate::world::{CandidateModel, WorldModel};
use crate::world_laws::verdicts_are_of_every_rule;
use vstd::prelude::*;

verus! {

/// A later intent changes nothing of an earlier one: the outcomes and the frames of an epoch begin
/// with those of every beginning of it. A rejected intent leaves the world as it was; an accepted one
/// moves it on by its own frame.
pub proof fn later_intents_change_nothing_earlier(
    base: WorldModel,
    intents: Seq<IntentModel>,
    verdicts: Seq<Result<(), Seq<char>>>,
    count: int,
)
    requires
        0 <= count <= intents.len(),
    ensures
        ({
            let plan = chained(base, intents, verdicts);
            let less = chained(base, intents.take(count), verdicts);
            &&& plan.outcomes.len() == intents.len()
            &&& less.outcomes.len() == count
            &&& plan.outcomes.take(count) == less.outcomes
            &&& less.frames.len() <= plan.frames.len()
            &&& plan.frames.take(less.frames.len() as int) == less.frames
            &&& plan.base == base
        }),
    decreases intents.len(),
{
    if count == intents.len() {
        assert(intents.take(count) =~= intents);
        let plan = chained(base, intents, verdicts);
        if intents.len() > 0 {
            later_intents_change_nothing_earlier(base, intents.drop_last(), verdicts, 0);
        }
        assert(plan.outcomes.take(count) =~= plan.outcomes);
        assert(plan.frames.take(plan.frames.len() as int) =~= plan.frames);
    } else {
        let front = intents.drop_last();
        later_intents_change_nothing_earlier(base, front, verdicts, count);
        assert(front.take(count) =~= intents.take(count));
        let plan = chained(base, intents, verdicts);
        let before = chained(base, front, verdicts);
        let less = chained(base, intents.take(count), verdicts);
        assert(plan.outcomes.take(count) =~= before.outcomes.take(count));
        assert(plan.frames.take(less.frames.len() as int) =~= before.frames.take(
            less.frames.len() as int,
        ));
    }
}

/// What an intent meets is the world that the accepted intents in front of it lead to, and no other:
/// a rejected intent leaves that world to the next, an accepted one its successor.
pub proof fn intents_meet_their_predecessors(
    base: WorldModel,
    intents: Seq<IntentModel>,
    verdicts: Seq<Result<(), Seq<char>>>,
    index: int,
)
    requires
        0 <= index < intents.len(),
    ensures
        ({
            let before = chained(base, intents.take(index), verdicts);
            let after = chained(base, intents.take(index + 1), verdicts);
            &&& index == 0 ==> before.tail == base
            &&& match chained(base, intents, verdicts).outcomes[index] {
                OutcomeModel::Rejected { position, error } => {
                    &&& position == index
                    &&& after.tail == before.tail
                    &&& after.frames == before.frames
                    &&& settled(before.tail, intents[index], verdicts[index]) == Err::<
                        (CandidateModel, Map<u32, EntityId>),
                        RejectionModel,
                    >(error)
                },
                OutcomeModel::Accepted { position, world, frame, namespace, entities } => {
                    &&& position == index
                    &&& after.tail == world
                    &&& after.frames == before.frames.push(frame)
                    &&& frame.parent_world == before.tail.id
                    &&& frame.parent_version == before.tail.version
                    &&& world.history == before.tail.history.push(frame)
                    &&& namespace == intents[index].namespace
                    &&& verdicts[index] is Ok
                },
            }
        }),
{
    later_intents_change_nothing_earlier(base, intents, verdicts, index + 1);
    let short = intents.take(index + 1);
    assert(short.drop_last() =~= intents.take(index));
    assert(short.last() == intents[index]);
    later_intents_change_nothing_earlier(base, intents, verdicts, index);
    let plan = chained(base, intents, verdicts);
    let after = chained(base, short, verdicts);
    assert(plan.outcomes.take(index + 1)[index] == plan.outcomes[index]);
    assert(after.outcomes[index] == plan.outcomes[index]);
    let before = chained(base, intents.take(index), verdicts);
    assert(after == extended(before, intents[index], verdicts[index]));
    reveal(proposal);
}

/// An accepted intent passed every rule, and one that was rejected by a rule was rejected by one in
/// front of which every rule had accepted.
pub proof fn accepted_intents_pass_every_rule(
    validators: Seq<Rule>,
    base: WorldModel,
    intents: Seq<IntentModel>,
    verdicts: Seq<Result<(), Seq<char>>>,
    index: int,
    rule: int,
)
    requires
        may_settle(validators, base, intents, verdicts),
        0 <= index < intents.len(),
        0 <= rule < validators.len(),
    ensures
        ({
            let world = chained(base, intents.take(index), verdicts).tail;
            &&& chained(base, intents, verdicts).outcomes[index] matches OutcomeModel::Accepted {
                frame,
                ..
            } ==> proposal(world, intents[index]) matches Ok((candidate, _)) && candidate.frame
                == frame && validators[rule].0.may_answer(candidate, Ok::<(), Seq<char>>(()))
            &&& proposal(world, intents[index]) matches Ok((candidate, _)) ==> (
            chained(base, intents, verdicts).outcomes[index] matches OutcomeModel::Rejected {
                error,
                ..
            } ==> (error matches RejectionModel::Validation(message) && exists|i: int|
                0 <= i < validators.len() && (#[trigger] validators[i]).0.may_answer(
                    candidate,
                    Err::<(), Seq<char>>(message),
                ) && forall|j: int|
                    0 <= j < i ==> (#[trigger] validators[j]).0.may_answer(
                        candidate,
                        Ok::<(), Seq<char>>(()),
                    )))
        }),
{
    reveal(may_settle);
    intents_meet_their_predecessors(base, intents, verdicts, index);
    later_intents_change_nothing_earlier(base, intents, verdicts, index + 1);
    later_intents_change_nothing_earlier(base, intents, verdicts, index);
    let short = intents.take(index + 1);
    assert(short.drop_last() =~= intents.take(index));
    assert(short.last() == intents[index]);
    let plan = chained(base, intents, verdicts);
    let after = chained(base, short, verdicts);
    let before = chained(base, intents.take(index), verdicts);
    assert(after == extended(before, intents[index], verdicts[index]));
    assert(plan.outcomes.take(index + 1)[index] == plan.outcomes[index]);
    if let Ok((candidate, _)) = proposal(before.tail, intents[index]) {
        assert(may_judge(validators, candidate, verdicts[index]));
        match verdicts[index] {
            Ok(()) => {
                verdicts_are_of_every_rule(validators, candidate, Seq::empty());
            },
            Err(message) => {
                verdicts_are_of_every_rule(validators, candidate, message);
            },
        }
    }
}

/// An epoch has a frame for each accepted intent and for nothing else.
pub proof fn accepted_intents_have_frames(
    base: WorldModel,
    intents: Seq<IntentModel>,
    verdicts: Seq<Result<(), Seq<char>>>,
)
    ensures
        chained(base, intents, verdicts).frames.len() == chained(
            base,
            intents,
            verdicts,
        ).outcomes.filter(|outcome: OutcomeModel| outcome is Accepted).len(),
        chained(base, intents, verdicts).tail.history == base.history + chained(
            base,
            intents,
            verdicts,
        ).frames,
    decreases intents.len(),
{
    reveal(Seq::filter);
    let plan = chained(base, intents, verdicts);
    if intents.len() == 0 {
        assert(base.history + plan.frames =~= base.history);
    } else {
        accepted_intents_have_frames(base, intents.drop_last(), verdicts);
        let before = chained(base, intents.drop_last(), verdicts);
        assert(plan.outcomes.drop_last() =~= before.outcomes);
        assert(plan.tail.history =~= base.history + plan.frames);
    }
}

/// An outcome of a mixed epoch is an acceptance.
pub open spec fn is_accepted(outcome: MixedOutcomeModel) -> bool {
    match outcome {
        MixedOutcomeModel::Queued(queued) => queued is Accepted,
        MixedOutcomeModel::SemanticAccepted { .. } => true,
        MixedOutcomeModel::SemanticRejected { .. } => false,
    }
}

/// The operations that an outcome of a mixed epoch brings.
pub open spec fn accepted_operations(outcome: MixedOutcomeModel) -> Seq<OperationModel> {
    match outcome {
        MixedOutcomeModel::Queued(OutcomeModel::Accepted { frame, .. }) => frame.operations,
        MixedOutcomeModel::SemanticAccepted { frame, .. } => frame.operations,
        _ => Seq::empty(),
    }
}

/// The operations that the first outcomes of a mixed epoch bring, one after the other.
pub open spec fn outcome_operations(outcomes: Seq<MixedOutcomeModel>) -> Seq<OperationModel>
    decreases outcomes.len(),
{
    if outcomes.len() == 0 {
        Seq::empty()
    } else {
        outcome_operations(outcomes.drop_last()) + accepted_operations(outcomes.last())
    }
}

/// A mixed epoch has the operations of its accepted intents, in order, and counts them; a rejected
/// intent brings nothing. Every intent has an outcome at its own place, of its own kind.
pub proof fn mixed_epochs_add_up(
    base: WorldModel,
    intents: Seq<ControllerIntentModel>,
    verdicts: Seq<Result<(), Seq<char>>>,
)
    ensures
        ({
            let state = mixed_chain(base, intents, verdicts);
            &&& state.outcomes.len() == intents.len()
            &&& state.operations == outcome_operations(state.outcomes)
            &&& state.accepted == state.outcomes.filter(
                |outcome: MixedOutcomeModel| is_accepted(outcome),
            ).len()
            &&& forall|i: int|
                0 <= i < intents.len() ==> match (#[trigger] state.outcomes[i], intents[i]) {
                    (
                        MixedOutcomeModel::Queued(OutcomeModel::Accepted { position, namespace, .. }),
                        ControllerIntentModel::Queued(intent),
                    ) => position == i && namespace == intent.namespace && verdicts[i] is Ok,
                    (
                        MixedOutcomeModel::Queued(OutcomeModel::Rejected { position, .. }),
                        ControllerIntentModel::Queued(_),
                    ) => position == i,
                    (
                        MixedOutcomeModel::SemanticAccepted { position, .. },
                        ControllerIntentModel::Semantic(_),
                    ) => position == i && verdicts[i] is Ok,
                    (
                        MixedOutcomeModel::SemanticRejected { position, .. },
                        ControllerIntentModel::Semantic(_),
                    ) => position == i,
                    _ => false,
                }
        }),
    decreases intents.len(),
{
    reveal(Seq::filter);
    reveal(queued_settled);
    reveal(semantic_settled);
    if intents.len() > 0 {
        let front = intents.drop_last();
        mixed_epochs_add_up(base, front, verdicts);
        let state = mixed_chain(base, intents, verdicts);
        let before = mixed_chain(base, front, verdicts);
        assert(state.outcomes.drop_last() =~= before.outcomes);
        assert(state.operations =~= outcome_operations(state.outcomes));
        assert forall|i: int| 0 <= i < front.len() implies state.outcomes[i]
            == #[trigger] before.outcomes[i] && intents[i] == front[i] by {}
    }
}

/// A mixed epoch commits once: one frame with all accepted operations, behind the base, and every
/// accepted intent is told that frame and its world; without an accepted intent nothing is committed.
pub proof fn mixed_epochs_commit_once(base: WorldModel, state: MixedModel, index: int)
    requires
        base.version < u64::MAX,
        0 <= index < state.outcomes.len(),
    ensures
        ({
            let plan = mixed_plan(base, state);
            &&& plan.base == base
            &&& state.accepted == 0 ==> plan.tail == base && plan.frames.len() == 0
                && plan.outcomes == state.outcomes
            &&& state.accepted > 0 ==> {
                &&& plan.frames.len() == 1
                &&& plan.frames[0].parent_world == base.id
                &&& plan.frames[0].parent_version == base.version
                &&& plan.frames[0].resulting_version == base.version + 1
                &&& plan.frames[0].operations == state.operations
                &&& plan.tail.kernel == state.tail.kernel
                &&& plan.tail.version == base.version + 1
                &&& plan.tail.id == plan.frames[0].resulting_world
                &&& plan.tail.history == base.history.push(plan.frames[0])
                &&& plan.outcomes.len() == state.outcomes.len()
                &&& match (state.outcomes[index], plan.outcomes[index]) {
                    (
                        MixedOutcomeModel::Queued(
                            OutcomeModel::Accepted { position, namespace, entities, .. },
                        ),
                        MixedOutcomeModel::Queued(
                            OutcomeModel::Accepted {
                                position: place,
                                namespace: space,
                                entities: found,
                                world,
                                frame,
                            },
                        ),
                    ) => position == place && namespace == space && entities == found && world
                        == plan.tail && frame == plan.frames[0],
                    (
                        MixedOutcomeModel::SemanticAccepted { position, bindings, .. },
                        MixedOutcomeModel::SemanticAccepted {
                            position: place,
                            bindings: found,
                            world,
                            frame,
                        },
                    ) => position == place && bindings == found && world == plan.tail && frame
                        == plan.frames[0],
                    (MixedOutcomeModel::Queued(OutcomeModel::Rejected { .. }), shown) => shown
                        == state.outcomes[index],
                    (MixedOutcomeModel::SemanticRejected { .. }, shown) => shown
                        == state.outcomes[index],
                    _ => false,
                }
            }
        }),
{
}

} // verus!
