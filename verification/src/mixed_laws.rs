//! Which verdicts decide on the intents of a mixed epoch, and what symbols stand for before an
//! intent is lowered.

use crate::compile::operations_fault;
use crate::database::{Rule, may_judge};
use crate::fact::{AtomModel, Literal, OperationModel, Symbol};
use crate::fact_text::candidate_error_shown;
use crate::mixed::{
    ControllerIntentModel, MixedOutcomeModel, SemanticRejectionModel, may_settle_mixed, mixed_chain,
    mixed_extended, mixed_fair, queued_settled, semantic_proposal, semantic_settled, vm_fault_text,
};
use crate::plan_model::{OutcomeModel, RejectionModel, proposal};
use crate::semantic::{AtomRefModel, TransactionOpModel, guarded};
use crate::symbols::{allocations, assigned, last_allocation, synthesized};
use crate::world::{CandidateModel, WorldModel, candidate_of};
use crate::world_laws::verdicts_are_of_every_rule;
use vstd::prelude::*;
use vstd::string::*;

verus! {

/// A later intent of a mixed epoch changes nothing of an earlier one.
pub proof fn later_mixed_intents_change_nothing_earlier(
    base: WorldModel,
    intents: Seq<ControllerIntentModel>,
    verdicts: Seq<Result<(), Seq<char>>>,
    count: int,
)
    requires
        0 <= count <= intents.len(),
    ensures
        ({
            let state = mixed_chain(base, intents, verdicts);
            let less = mixed_chain(base, intents.take(count), verdicts);
            &&& state.outcomes.len() == intents.len()
            &&& less.outcomes.len() == count
            &&& state.outcomes.take(count) == less.outcomes
            &&& less.accepted <= state.accepted
        }),
    decreases intents.len(),
{
    let state = mixed_chain(base, intents, verdicts);
    if count == intents.len() {
        assert(intents.take(count) =~= intents);
        if intents.len() > 0 {
            later_mixed_intents_change_nothing_earlier(base, intents.drop_last(), verdicts, 0);
        }
        assert(state.outcomes.take(count) =~= state.outcomes);
    } else {
        let front = intents.drop_last();
        later_mixed_intents_change_nothing_earlier(base, front, verdicts, count);
        assert(front.take(count) =~= intents.take(count));
        let before = mixed_chain(base, front, verdicts);
        assert(state.outcomes.take(count) =~= before.outcomes.take(count));
    }
}

/// An outcome of a mixed epoch is decided on the world that the accepted intents in front of it lead
/// to.
proof fn mixed_outcome_is_decided(
    base: WorldModel,
    intents: Seq<ControllerIntentModel>,
    verdicts: Seq<Result<(), Seq<char>>>,
    index: int,
)
    requires
        0 <= index < intents.len(),
    ensures
        ({
            let before = mixed_chain(base, intents.take(index), verdicts);
            mixed_chain(base, intents, verdicts).outcomes[index] == mixed_extended(
                before,
                intents[index],
                verdicts[index],
            ).outcomes.last()
        }),
{
    later_mixed_intents_change_nothing_earlier(base, intents, verdicts, index + 1);
    later_mixed_intents_change_nothing_earlier(base, intents, verdicts, index);
    let short = intents.take(index + 1);
    assert(short.drop_last() =~= intents.take(index));
    assert(short.last() == intents[index]);
    let state = mixed_chain(base, intents, verdicts);
    assert(state.outcomes.take(index + 1)[index] == state.outcomes[index]);
}

/// All rules may accept a candidate.
pub open spec fn all_may_accept(validators: Seq<Rule>, candidate: CandidateModel) -> bool {
    forall|i: int|
        0 <= i < validators.len() ==> (#[trigger] validators[i]).0.may_answer(
            candidate,
            Ok::<(), Seq<char>>(()),
        )
}

/// Some rule may refuse a candidate with a message, after those in front of it accepted.
pub open spec fn one_may_refuse(
    validators: Seq<Rule>,
    candidate: CandidateModel,
    message: Seq<char>,
) -> bool {
    exists|i: int|
        0 <= i < validators.len() && (#[trigger] validators[i]).0.may_answer(
            candidate,
            Err::<(), Seq<char>>(message),
        ) && forall|j: int|
            0 <= j < i ==> (#[trigger] validators[j]).0.may_answer(
                candidate,
                Ok::<(), Seq<char>>(()),
            )
}

/// A queued intent of a mixed epoch is accepted only if every rule accepted its candidate.
pub proof fn accepted_mixed_intents_pass_every_rule(
    validators: Seq<Rule>,
    base: WorldModel,
    intents: Seq<ControllerIntentModel>,
    verdicts: Seq<Result<(), Seq<char>>>,
    index: int,
)
    requires
        mixed_fair(validators, base, intents, verdicts),
        0 <= index < intents.len(),
    ensures
        ({
            let world = mixed_chain(base, intents.take(index), verdicts).tail;
            match (mixed_chain(base, intents, verdicts).outcomes[index], intents[index]) {
                (
                    MixedOutcomeModel::Queued(OutcomeModel::Accepted { frame, .. }),
                    ControllerIntentModel::Queued(intent),
                ) => proposal(world, intent) matches Ok((candidate, _)) && candidate.frame == frame
                    && all_may_accept(validators, candidate),
                (
                    MixedOutcomeModel::Queued(OutcomeModel::Rejected { error, .. }),
                    ControllerIntentModel::Queued(intent),
                ) => proposal(world, intent) matches Ok((candidate, _)) ==> (error matches
                    RejectionModel::Validation(message) && (one_may_refuse(
                    validators,
                    candidate,
                    message,
                ) || operations_fault(candidate.frame.operations) == Some(message)
                    && all_may_accept(validators, candidate))),
                (
                    MixedOutcomeModel::SemanticAccepted { frame, .. },
                    ControllerIntentModel::Semantic(operations),
                ) => semantic_proposal(world, operations) matches Ok((candidate, _))
                    && candidate.frame == frame && all_may_accept(validators, candidate),
                (
                    MixedOutcomeModel::SemanticRejected { error, .. },
                    ControllerIntentModel::Semantic(operations),
                ) => semantic_proposal(world, operations) matches Ok((candidate, done)) ==> (
                error matches SemanticRejectionModel::Validation(message) && (one_may_refuse(
                    validators,
                    candidate,
                    message,
                ) || all_may_accept(validators, candidate) && (guarded(
                    world.kernel,
                    done.steps,
                ) matches Err(fault) && message == vm_fault_text(fault)))),
                _ => false,
            }
        }),
{
    reveal(mixed_fair);
    reveal(queued_settled);
    reveal(semantic_settled);
    mixed_outcome_is_decided(base, intents, verdicts, index);
    let world = mixed_chain(base, intents.take(index), verdicts).tail;
    assert(may_settle_mixed(validators, world, intents[index], verdicts[index]));
    match intents[index] {
        ControllerIntentModel::Queued(intent) => {
            if let Ok((candidate, _)) = proposal(world, intent) {
                judged_by_all(validators, candidate, verdicts[index]);
            }
        },
        ControllerIntentModel::Semantic(operations) => {
            if let Ok((candidate, _)) = semantic_proposal(world, operations) {
                judged_by_all(validators, candidate, verdicts[index]);
            }
        },
    }
}

proof fn judged_by_all(
    validators: Seq<Rule>,
    candidate: CandidateModel,
    verdict: Result<(), Seq<char>>,
)
    requires
        may_judge(validators, candidate, verdict),
    ensures
        verdict is Ok ==> all_may_accept(validators, candidate),
        verdict matches Err(message) ==> one_may_refuse(validators, candidate, message),
{
    match verdict {
        Ok(()) => {
            verdicts_are_of_every_rule(validators, candidate, Seq::empty());
        },
        Err(message) => {
            verdicts_are_of_every_rule(validators, candidate, message);
        },
    }
}

/// What is said of a transaction that cannot be lowered or applied. Without rules, why. With rules,
/// they judge first what its operations would do with every symbol bound from the start: if one of
/// them refuses that, its message is given; if that cannot be applied, why not; and otherwise why the
/// transaction itself cannot be lowered or applied.
pub proof fn unlowered_transactions_are_judged_first(
    validators: Seq<Rule>,
    base: WorldModel,
    intents: Seq<ControllerIntentModel>,
    verdicts: Seq<Result<(), Seq<char>>>,
    index: int,
    operations: Seq<TransactionOpModel>,
)
    requires
        mixed_fair(validators, base, intents, verdicts),
        0 <= index < intents.len(),
        intents[index] == ControllerIntentModel::Semantic(operations),
        semantic_proposal(
            mixed_chain(base, intents.take(index), verdicts).tail,
            operations,
        ) is Err,
    ensures
        ({
            let world = mixed_chain(base, intents.take(index), verdicts).tail;
            let fault = semantic_proposal(world, operations)->Err_0;
            let bound_first = synthesized(
                world.kernel.next_entity,
                operations,
                operations.len() as int,
            );
            &&& mixed_chain(base, intents, verdicts).outcomes[index] matches
                MixedOutcomeModel::SemanticRejected { position, error }
            &&& position == index
            &&& validators.len() == 0 ==> error == fault
            &&& validators.len() > 0 ==> match bound_first {
                None => error == fault,
                Some(list) => match candidate_of(world, list) {
                    Err(why) => error == SemanticRejectionModel::Validation(
                        "candidate error: "@ + candidate_error_shown(why),
                    ),
                    Ok(candidate) => error == fault && all_may_accept(validators, candidate) || (
                    error matches SemanticRejectionModel::Validation(message) && one_may_refuse(
                        validators,
                        candidate,
                        message,
                    )),
                },
            }
        }),
{
    reveal(mixed_fair);
    reveal(semantic_settled);
    later_mixed_intents_change_nothing_earlier(base, intents, verdicts, index);
    mixed_outcome_is_decided(base, intents, verdicts, index);
    let world = mixed_chain(base, intents.take(index), verdicts).tail;
    assert(may_settle_mixed(validators, world, intents[index], verdicts[index]));
    if validators.len() > 0 {
        if let Some(list) = synthesized(
            world.kernel.next_entity,
            operations,
            operations.len() as int,
        ) {
            if let Ok(candidate) = candidate_of(world, list) {
                judged_by_all(validators, candidate, verdicts[index]);
            }
        }
    }
}

/// What a symbol stands for before a transaction is lowered: the entity of its last allocation, which
/// is the first free number and the allocations in front of it; nothing, if it is not allocated.
pub proof fn symbols_stand_for_their_last_allocation(
    next_entity: nat,
    operations: Seq<TransactionOpModel>,
    symbol: Seq<char>,
)
    ensures
        match assigned(next_entity, operations, symbol) {
            Some(entity) => exists|i: int|
                0 <= i < operations.len() && #[trigger] operations[i] == (
                TransactionOpModel::Allocate { result: symbol }) && (forall|j: int|
                    i < j < operations.len() ==> #[trigger] operations[j] != (
                    TransactionOpModel::Allocate { result: symbol })) && entity == (next_entity
                    + operations.take(i).filter(
                    |operation: TransactionOpModel| operation is Allocate,
                ).len()) as u64,
            None => forall|i: int|
                0 <= i < operations.len() ==> #[trigger] operations[i] != (
                TransactionOpModel::Allocate { result: symbol }),
        },
{
    last_allocations(operations, symbol, operations.len() as int);
    let last = last_allocation(operations, symbol, operations.len() as int);
    if last >= 0 {
        allocations_by_filter(operations, last);
        assert(operations[last] == (TransactionOpModel::Allocate { result: symbol }));
    }
}

proof fn last_allocations(operations: Seq<TransactionOpModel>, symbol: Seq<char>, count: int)
    requires
        0 <= count <= operations.len(),
    ensures
        ({
            let last = last_allocation(operations, symbol, count);
            &&& -1 <= last < count
            &&& last >= 0 ==> operations[last] == (TransactionOpModel::Allocate { result: symbol })
            &&& forall|j: int|
                last < j < count ==> #[trigger] operations[j] != (TransactionOpModel::Allocate {
                    result: symbol,
                })
        }),
    decreases count,
{
    if count > 0 {
        last_allocations(operations, symbol, count - 1);
    }
}

proof fn allocations_by_filter(operations: Seq<TransactionOpModel>, count: int)
    requires
        0 <= count <= operations.len(),
    ensures
        allocations(operations, count) == operations.take(count).filter(
            |operation: TransactionOpModel| operation is Allocate,
        ).len(),
    decreases count,
{
    reveal(Seq::filter);
    if count > 0 {
        allocations_by_filter(operations, count - 1);
        assert(operations.take(count).drop_last() =~= operations.take(count - 1));
        assert(operations.take(count).last() == operations[count - 1]);
    }
}

/// What an operation of a transaction does with every symbol bound from the start.
pub open spec fn bound_first(
    next_entity: nat,
    operations: Seq<TransactionOpModel>,
    asked: TransactionOpModel,
    given: OperationModel,
) -> bool {
    let stands = |reference: AtomRefModel, atom: AtomModel|
        match reference {
            AtomRefModel::Entity(entity) => atom == AtomModel::Entity(entity),
            AtomRefModel::Literal(literal) => atom == AtomModel::Literal(literal),
            AtomRefModel::Symbol(symbol) => assigned(next_entity, operations, symbol) matches Some(
                entity,
            ) && atom == AtomModel::Entity(entity),
        };
    match (asked, given) {
        (TransactionOpModel::Allocate { result }, OperationModel::AllocateEntity { entity }) =>
            assigned(next_entity, operations, result) == Some(entity),
        (
            TransactionOpModel::Define { slot, subject, predicate, object },
            OperationModel::Define { slot: own, fact },
        ) => own == slot && fact.predicate == predicate && stands(subject, fact.subject) && stands(
            object,
            fact.object,
        ),
        (TransactionOpModel::Forget { slot }, OperationModel::Forget { slot: own }) => own == slot,
        _ => false,
    }
}

/// What the operations of a transaction do with every symbol bound from the start: each allocation,
/// definition and forgetting, in order, and nothing else.
pub proof fn synthesis_takes_every_operation(
    next_entity: nat,
    operations: Seq<TransactionOpModel>,
    count: int,
)
    requires
        0 <= count <= operations.len(),
    ensures
        synthesized(next_entity, operations, count) matches Some(list) ==> {
            let asked = operations.take(count).filter(
                |operation: TransactionOpModel|
                    operation is Allocate || operation is Define || operation is Forget,
            );
            &&& list.len() == asked.len()
            &&& forall|k: int|
                0 <= k < list.len() ==> bound_first(
                    next_entity,
                    operations,
                    asked[k],
                    #[trigger] list[k],
                )
        },
    decreases count,
{
    reveal(Seq::filter);
    if count > 0 {
        synthesis_takes_every_operation(next_entity, operations, count - 1);
        assert(operations.take(count).drop_last() =~= operations.take(count - 1));
        assert(operations.take(count).last() == operations[count - 1]);
    }
}

} // verus!
