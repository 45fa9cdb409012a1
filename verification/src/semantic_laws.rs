//! What a semantic transaction does: its steps are what it says, one for one, with every symbol
//! standing for the entity that the transaction allocated under it.

use crate::errors::CandidateErrorModel;
use crate::fact::{AtomModel, Literal, Operation, OperationModel, Symbol};
use crate::kernel::{KernelModel, active_fact, replayed};
use crate::mixed::{SemanticRejectionModel, semantic_settled};
use crate::semantic::{
    AtomRefModel, LoweredModel, StepModel, TransactionOpModel, bound, guarded, guarded_is_replay,
    lowered, lowered_facts, lowered_ref, lowered_step, lowering_fault_stays, step_operations,
};
use crate::symbols::{allocations, assigned_ref, last_allocation, synthesized};
use crate::vm::{VM_LITERAL_BASE, VmFault};
use crate::world::{WorldModel, has_room};
use vstd::prelude::*;

verus! {

/// The operations of a transaction that are steps: all but the worlds that it expects.
pub open spec fn effective(operations: Seq<TransactionOpModel>) -> Seq<TransactionOpModel> {
    operations.filter(|operation: TransactionOpModel| !(operation is ExpectWorld))
}

/// The atom of a step is the one that is referred to: itself, or the entity that an allocation in
/// front got under the symbol.
pub open spec fn reference_is_meant(
    asked: Seq<TransactionOpModel>,
    steps: Seq<StepModel>,
    index: int,
    reference: AtomRefModel,
    given: AtomModel,
) -> bool {
    match reference {
        AtomRefModel::Entity(entity) => given == AtomModel::Entity(entity),
        AtomRefModel::Literal(literal) => given == AtomModel::Literal(literal),
        AtomRefModel::Symbol(symbol) => exists|j: int|
            0 <= j < index && #[trigger] asked[j] == (TransactionOpModel::Allocate {
                result: symbol,
            }) && (steps[j] matches StepModel::Operation(OperationModel::AllocateEntity { entity })
                && given == AtomModel::Entity(entity)),
    }
}

/// A step does what the transaction says at its place.
pub open spec fn step_is_meant(
    asked: Seq<TransactionOpModel>,
    steps: Seq<StepModel>,
    index: int,
) -> bool {
    match asked[index] {
        TransactionOpModel::Allocate { result } => {
            &&& steps[index] matches StepModel::Operation(OperationModel::AllocateEntity { entity })
            &&& entity < VM_LITERAL_BASE
            &&& forall|j: int|
                0 <= j < index ==> #[trigger] asked[j] != (TransactionOpModel::Allocate { result })
        },
        TransactionOpModel::ExpectWorld { .. } => false,
        TransactionOpModel::ExpectObject { slot, expected } => {
            &&& steps[index] matches StepModel::ExpectObject { slot: own, expected: given }
            &&& own == slot
            &&& reference_is_meant(asked, steps, index, expected, given)
        },
        TransactionOpModel::Define { slot, subject, predicate, object } => {
            &&& steps[index] matches StepModel::Operation(OperationModel::Define {
                slot: own,
                fact,
            })
            &&& own == slot
            &&& fact.predicate == predicate
            &&& reference_is_meant(asked, steps, index, subject, fact.subject)
            &&& reference_is_meant(asked, steps, index, object, fact.object)
        },
        TransactionOpModel::Forget { slot } => steps[index] == StepModel::Operation(
            OperationModel::Forget { slot },
        ),
        TransactionOpModel::Reject => steps[index] == StepModel::Reject,
    }
}

/// A symbol that is referred to is allocated in front.
pub open spec fn reference_is_known(
    asked: Seq<TransactionOpModel>,
    index: int,
    reference: AtomRefModel,
) -> bool {
    reference matches AtomRefModel::Symbol(symbol) ==> exists|j: int|
        0 <= j < index && #[trigger] asked[j] == (TransactionOpModel::Allocate { result: symbol })
}

/// A step can be taken: it allocates a symbol that is new while entities are left, and what it
/// refers to is known.
pub open spec fn step_is_possible(
    asked: Seq<TransactionOpModel>,
    index: int,
    next_entity: nat,
) -> bool {
    match asked[index] {
        TransactionOpModel::Allocate { result } => {
            &&& next_entity + asked.take(index).filter(
                |operation: TransactionOpModel| operation is Allocate,
            ).len() < VM_LITERAL_BASE
            &&& forall|j: int|
                0 <= j < index ==> #[trigger] asked[j] != (TransactionOpModel::Allocate { result })
        },
        TransactionOpModel::ExpectObject { expected, .. } => reference_is_known(
            asked,
            index,
            expected,
        ),
        TransactionOpModel::Define { subject, object, .. } => reference_is_known(
            asked,
            index,
            subject,
        ) && reference_is_known(asked, index, object),
        _ => true,
    }
}

/// The bindings of a lowered transaction, by its allocations.
pub open spec fn bindings_are_meant(
    asked: Seq<TransactionOpModel>,
    steps: Seq<StepModel>,
    bindings: Seq<(Seq<char>, u64)>,
) -> bool {
    &&& forall|k: int|
        0 <= k < asked.len() ==> (#[trigger] asked[k] matches TransactionOpModel::Allocate { result }
            ==> (steps[k] matches StepModel::Operation(OperationModel::AllocateEntity { entity })
            && bound(bindings, result) == Some(entity) && bindings.contains((result, entity))))
    &&& forall|symbol: Seq<char>|
        (#[trigger] bound(bindings, symbol)) is Some ==> exists|k: int|
            0 <= k < asked.len() && #[trigger] asked[k] == (TransactionOpModel::Allocate {
                result: symbol,
            }) && steps[k] == StepModel::Operation(
                OperationModel::AllocateEntity { entity: bound(bindings, symbol)->Some_0 },
            )
}

proof fn effective_grows(operations: Seq<TransactionOpModel>)
    requires
        operations.len() > 0,
    ensures
        effective(operations) == if operations.last() is ExpectWorld {
            effective(operations.drop_last())
        } else {
            effective(operations.drop_last()).push(operations.last())
        },
{
    reveal(Seq::filter);
}

proof fn allocations_grow(asked: Seq<TransactionOpModel>)
    requires
        asked.len() > 0,
    ensures
        asked.filter(|operation: TransactionOpModel| operation is Allocate).len()
            == asked.drop_last().filter(
            |operation: TransactionOpModel| operation is Allocate,
        ).len() + if asked.last() is Allocate {
            1int
        } else {
            0
        },
{
    reveal(Seq::filter);
}

proof fn meant_stays(
    asked: Seq<TransactionOpModel>,
    steps: Seq<StepModel>,
    more_asked: Seq<TransactionOpModel>,
    more_steps: Seq<StepModel>,
    index: int,
    reference: AtomRefModel,
    given: AtomModel,
)
    requires
        index <= asked.len() <= more_asked.len(),
        steps.len() == asked.len(),
        more_asked.take(asked.len() as int) == asked,
        more_steps.len() >= steps.len(),
        more_steps.take(steps.len() as int) == steps,
        reference_is_meant(asked, steps, index, reference, given),
    ensures
        reference_is_meant(more_asked, more_steps, index, reference, given),
{
    if let AtomRefModel::Symbol(symbol) = reference {
        let j = choose|j: int|
            0 <= j < index && #[trigger] asked[j] == (TransactionOpModel::Allocate {
                result: symbol,
            }) && (steps[j] matches StepModel::Operation(OperationModel::AllocateEntity { entity })
                && given == AtomModel::Entity(entity));
        assert(more_asked.take(asked.len() as int)[j] == more_asked[j]);
        assert(more_steps.take(steps.len() as int)[j] == more_steps[j]);
    }
}

proof fn step_stays_meant(
    asked: Seq<TransactionOpModel>,
    steps: Seq<StepModel>,
    operation: TransactionOpModel,
    step: StepModel,
    index: int,
)
    requires
        0 <= index < asked.len(),
        steps.len() == asked.len(),
        step_is_meant(asked, steps, index),
    ensures
        step_is_meant(asked.push(operation), steps.push(step), index),
{
    let more_asked = asked.push(operation);
    let more_steps = steps.push(step);
    assert(more_asked.take(asked.len() as int) =~= asked);
    assert(more_steps.take(steps.len() as int) =~= steps);
    assert(more_asked[index] == asked[index]);
    assert(more_steps[index] == steps[index]);
    match asked[index] {
        TransactionOpModel::Allocate { result } => {
            assert forall|j: int| 0 <= j < index implies #[trigger] more_asked[j]
                != (TransactionOpModel::Allocate { result }) by {
                assert(asked[j] == more_asked[j]);
            }
        },
        TransactionOpModel::ExpectObject { slot: _, expected } => {
            let given = steps[index]->ExpectObject_expected;
            meant_stays(asked, steps, more_asked, more_steps, index, expected, given);
        },
        TransactionOpModel::Define { slot: _, subject, predicate: _, object } => {
            let fact = steps[index]->Operation_0->Define_fact;
            meant_stays(asked, steps, more_asked, more_steps, index, subject, fact.subject);
            meant_stays(asked, steps, more_asked, more_steps, index, object, fact.object);
        },
        _ => {},
    }
}

proof fn possible_stays(
    asked: Seq<TransactionOpModel>,
    operation: TransactionOpModel,
    index: int,
    next_entity: nat,
)
    requires
        0 <= index < asked.len(),
    ensures
        step_is_possible(asked.push(operation), index, next_entity) == step_is_possible(
            asked,
            index,
            next_entity,
        ),
{
    let more = asked.push(operation);
    assert(more.take(index) =~= asked.take(index));
    assert(more[index] == asked[index]);
    match asked[index] {
        TransactionOpModel::Allocate { result } => {
            if step_is_possible(asked, index, next_entity) {
                assert forall|j: int| 0 <= j < index implies #[trigger] more[j]
                    != (TransactionOpModel::Allocate { result }) by {
                    assert(asked[j] == more[j]);
                }
            }
            if step_is_possible(more, index, next_entity) {
                assert forall|j: int| 0 <= j < index implies #[trigger] asked[j]
                    != (TransactionOpModel::Allocate { result }) by {
                    assert(asked[j] == more[j]);
                }
            }
        },
        TransactionOpModel::ExpectObject { slot: _, expected } => {
            known_stays(asked, operation, index, expected);
        },
        TransactionOpModel::Define { slot: _, subject, predicate: _, object } => {
            known_stays(asked, operation, index, subject);
            known_stays(asked, operation, index, object);
        },
        _ => {},
    }
}

proof fn known_stays(
    asked: Seq<TransactionOpModel>,
    operation: TransactionOpModel,
    index: int,
    reference: AtomRefModel,
)
    requires
        0 <= index <= asked.len(),
    ensures
        reference_is_known(asked.push(operation), index, reference) == reference_is_known(
            asked,
            index,
            reference,
        ),
{
    let more = asked.push(operation);
    if let AtomRefModel::Symbol(symbol) = reference {
        if reference_is_known(asked, index, reference) {
            let j = choose|j: int|
                0 <= j < index && #[trigger] asked[j] == (TransactionOpModel::Allocate {
                    result: symbol,
                });
            assert(more[j] == asked[j]);
        }
        if reference_is_known(more, index, reference) {
            let j = choose|j: int|
                0 <= j < index && #[trigger] more[j] == (TransactionOpModel::Allocate {
                    result: symbol,
                });
            assert(more[j] == asked[j]);
        }
    }
}

/// A reference behind lowered steps resolves exactly when it is known, and to what is meant.
proof fn reference_resolves(
    asked: Seq<TransactionOpModel>,
    steps: Seq<StepModel>,
    bindings: Seq<(Seq<char>, u64)>,
    reference: AtomRefModel,
)
    requires
        steps.len() == asked.len(),
        bindings_are_meant(asked, steps, bindings),
    ensures
        lowered_ref(reference, bindings) is Ok <==> reference_is_known(
            asked,
            asked.len() as int,
            reference,
        ),
        lowered_ref(reference, bindings) matches Ok(given) ==> reference_is_meant(
            asked,
            steps,
            asked.len() as int,
            reference,
            given,
        ),
{
    if let AtomRefModel::Symbol(symbol) = reference {
        if bound(bindings, symbol) is Some {
            let k = choose|k: int|
                0 <= k < asked.len() && #[trigger] asked[k] == (TransactionOpModel::Allocate {
                    result: symbol,
                }) && steps[k] == StepModel::Operation(
                    OperationModel::AllocateEntity { entity: bound(bindings, symbol)->Some_0 },
                );
            assert(asked[k] == (TransactionOpModel::Allocate { result: symbol }));
        }
    }
}

/// Allocating a new symbol adds its binding.
proof fn binding_is_added(
    asked: Seq<TransactionOpModel>,
    steps: Seq<StepModel>,
    bindings: Seq<(Seq<char>, u64)>,
    result: Seq<char>,
    entity: u64,
)
    requires
        steps.len() == asked.len(),
        bindings_are_meant(asked, steps, bindings),
        bound(bindings, result) is None,
    ensures
        bindings_are_meant(
            asked.push(TransactionOpModel::Allocate { result }),
            steps.push(StepModel::Operation(OperationModel::AllocateEntity { entity })),
            bindings.push((result, entity)),
        ),
        forall|j: int|
            0 <= j < asked.len() ==> #[trigger] asked[j] != (TransactionOpModel::Allocate {
                result,
            }),
{
    let operation = TransactionOpModel::Allocate { result };
    let step = StepModel::Operation(OperationModel::AllocateEntity { entity });
    let more_asked = asked.push(operation);
    let more_steps = steps.push(step);
    let more = bindings.push((result, entity));
    assert(more.drop_last() =~= bindings);
    assert forall|k: int| 0 <= k < more_asked.len() implies (#[trigger] more_asked[k] matches
        TransactionOpModel::Allocate { result: own } ==> (more_steps[k] matches
        StepModel::Operation(OperationModel::AllocateEntity { entity: given }) && bound(more, own)
        == Some(given) && more.contains((own, given)))) by {
        if k < asked.len() {
            assert(more_asked[k] == asked[k]);
            assert(more_steps[k] == steps[k]);
            if let TransactionOpModel::Allocate { result: own } = asked[k] {
                let given = steps[k]->Operation_0->AllocateEntity_entity;
                let place = choose|place: int|
                    0 <= place < bindings.len() && bindings[place] == (own, given);
                assert(more[place] == (own, given));
            }
        } else {
            assert(more[bindings.len() as int] == (result, entity));
        }
    }
    assert forall|symbol: Seq<char>| (#[trigger] bound(more, symbol)) is Some implies exists|
        k: int,
    |
        0 <= k < more_asked.len() && #[trigger] more_asked[k] == (TransactionOpModel::Allocate {
            result: symbol,
        }) && more_steps[k] == StepModel::Operation(
            OperationModel::AllocateEntity { entity: bound(more, symbol)->Some_0 },
        ) by {
        if symbol == result {
            assert(more_asked[asked.len() as int] == operation);
        } else {
            assert(bound(more, symbol) == bound(bindings, symbol));
            let k = choose|k: int|
                0 <= k < asked.len() && #[trigger] asked[k] == (TransactionOpModel::Allocate {
                    result: symbol,
                }) && steps[k] == StepModel::Operation(
                    OperationModel::AllocateEntity { entity: bound(bindings, symbol)->Some_0 },
                );
            assert(more_asked[k] == asked[k]);
        }
    }
}

/// A step that allocates nothing leaves the bindings.
proof fn bindings_stay(
    asked: Seq<TransactionOpModel>,
    steps: Seq<StepModel>,
    bindings: Seq<(Seq<char>, u64)>,
    operation: TransactionOpModel,
    step: StepModel,
)
    requires
        steps.len() == asked.len(),
        bindings_are_meant(asked, steps, bindings),
        !(operation is Allocate),
    ensures
        bindings_are_meant(asked.push(operation), steps.push(step), bindings),
{
    let more_asked = asked.push(operation);
    let more_steps = steps.push(step);
    assert forall|k: int| 0 <= k < more_asked.len() implies (#[trigger] more_asked[k] matches
        TransactionOpModel::Allocate { result: own } ==> (more_steps[k] matches
        StepModel::Operation(OperationModel::AllocateEntity { entity: given }) && bound(
        bindings,
        own,
    ) == Some(given) && bindings.contains((own, given)))) by {
        if k < asked.len() {
            assert(more_asked[k] == asked[k]);
            assert(more_steps[k] == steps[k]);
        }
    }
    assert forall|symbol: Seq<char>| (#[trigger] bound(bindings, symbol)) is Some implies exists|
        k: int,
    |
        0 <= k < more_asked.len() && #[trigger] more_asked[k] == (TransactionOpModel::Allocate {
            result: symbol,
        }) && more_steps[k] == StepModel::Operation(
            OperationModel::AllocateEntity { entity: bound(bindings, symbol)->Some_0 },
        ) by {
        let k = choose|k: int|
            0 <= k < asked.len() && #[trigger] asked[k] == (TransactionOpModel::Allocate {
                result: symbol,
            }) && steps[k] == StepModel::Operation(
                OperationModel::AllocateEntity { entity: bound(bindings, symbol)->Some_0 },
            );
        assert(more_asked[k] == asked[k]);
    }
}

/// What lowering gives for one more operation.
proof fn lowered_one_more(
    asked: Seq<TransactionOpModel>,
    done: LoweredModel,
    operation: TransactionOpModel,
    next_entity: nat,
)
    requires
        done.steps.len() == asked.len(),
        bindings_are_meant(asked, done.steps, done.bindings),
        done.next_entity == next_entity + asked.filter(
            |operation: TransactionOpModel| operation is Allocate,
        ).len(),
        !(operation is ExpectWorld),
    ensures
        ({
            let more = asked.push(operation);
            match lowered_step(done, operation) {
                Ok(next) => {
                    &&& step_is_possible(more, asked.len() as int, next_entity)
                    &&& next.steps.len() == more.len()
                    &&& next.steps.drop_last() == done.steps
                    &&& step_is_meant(more, next.steps, asked.len() as int)
                    &&& bindings_are_meant(more, next.steps, next.bindings)
                    &&& next.next_entity == next_entity + more.filter(
                        |operation: TransactionOpModel| operation is Allocate,
                    ).len()
                },
                Err(_) => !step_is_possible(more, asked.len() as int, next_entity),
            }
        }),
{
    let more = asked.push(operation);
    let last = asked.len() as int;
    assert(more.drop_last() =~= asked);
    assert(more.take(last) =~= asked);
    allocations_grow(more);
    let outcome = lowered_step(done, operation);
    if let Ok(next) = outcome {
        assert(next.steps.drop_last() =~= done.steps);
    }
    match operation {
        TransactionOpModel::Allocate { result } => {
            if bound(done.bindings, result) is None {
                binding_is_added(
                    asked,
                    done.steps,
                    done.bindings,
                    result,
                    done.next_entity as u64,
                );
                assert forall|j: int| 0 <= j < last implies #[trigger] more[j] != operation by {
                    assert(asked[j] == more[j]);
                }
            } else {
                let k = choose|k: int|
                    0 <= k < asked.len() && #[trigger] asked[k] == (TransactionOpModel::Allocate {
                        result,
                    }) && done.steps[k] == StepModel::Operation(
                        OperationModel::AllocateEntity {
                            entity: bound(done.bindings, result)->Some_0,
                        },
                    );
                assert(more[k] == asked[k]);
            }
        },
        TransactionOpModel::ExpectObject { slot, expected } => {
            reference_resolves(asked, done.steps, done.bindings, expected);
            known_stays(asked, operation, last, expected);
            if let Ok(next) = outcome {
                let given = lowered_ref(expected, done.bindings)->Ok_0;
                bindings_stay(
                    asked,
                    done.steps,
                    done.bindings,
                    operation,
                    StepModel::ExpectObject { slot, expected: given },
                );
                assert(next.steps.take(last) =~= done.steps);
                meant_stays(asked, done.steps, more, next.steps, last, expected, given);
            }
        },
        TransactionOpModel::Define { slot, subject, predicate, object } => {
            reference_resolves(asked, done.steps, done.bindings, subject);
            reference_resolves(asked, done.steps, done.bindings, object);
            known_stays(asked, operation, last, subject);
            known_stays(asked, operation, last, object);
            if let Ok(next) = outcome {
                let fact = next.steps[last]->Operation_0->Define_fact;
                bindings_stay(asked, done.steps, done.bindings, operation, next.steps[last]);
                assert(next.steps =~= done.steps.push(next.steps[last]));
                assert(next.steps.take(last) =~= done.steps);
                meant_stays(asked, done.steps, more, next.steps, last, subject, fact.subject);
                meant_stays(asked, done.steps, more, next.steps, last, object, fact.object);
            }
        },
        TransactionOpModel::Forget { slot } => {
            bindings_stay(
                asked,
                done.steps,
                done.bindings,
                operation,
                StepModel::Operation(OperationModel::Forget { slot }),
            );
        },
        TransactionOpModel::Reject => {
            bindings_stay(asked, done.steps, done.bindings, operation, StepModel::Reject);
        },
        TransactionOpModel::ExpectWorld { .. } => {},
    }
}

/// A transaction is lowered exactly when all its steps are possible; and then its steps are, one
/// for one and in order, what it says: allocations under new symbols, guards and definitions with
/// what is referred to, removals, and rejections. Its bindings are those of its allocations, and
/// the entities follow one another.
pub proof fn transactions_mean_their_steps(
    next_entity: nat,
    operations: Seq<TransactionOpModel>,
)
    ensures
        ({
            let asked = effective(operations);
            &&& lowered(next_entity, operations) is Ok <==> forall|k: int|
                0 <= k < asked.len() ==> #[trigger] step_is_possible(asked, k, next_entity)
            &&& lowered(next_entity, operations) matches Ok(done) ==> {
                &&& done.steps.len() == asked.len()
                &&& forall|k: int|
                    0 <= k < asked.len() ==> #[trigger] step_is_meant(asked, done.steps, k)
                &&& bindings_are_meant(asked, done.steps, done.bindings)
                &&& done.next_entity == next_entity + asked.filter(
                    |operation: TransactionOpModel| operation is Allocate,
                ).len()
            }
        }),
    decreases operations.len(),
{
    let asked = effective(operations);
    if operations.len() == 0 {
        reveal(Seq::filter);
        assert(asked =~= Seq::empty());
    } else {
        let front = operations.drop_last();
        let before = effective(front);
        let last = before.len() as int;
        transactions_mean_their_steps(next_entity, front);
        effective_grows(operations);
        if !(operations.last() is ExpectWorld) {
            assert forall|k: int| 0 <= k < last implies #[trigger] step_is_possible(
                asked,
                k,
                next_entity,
            ) == step_is_possible(before, k, next_entity) by {
                possible_stays(before, operations.last(), k, next_entity);
            }
            if let Ok(done) = lowered(next_entity, front) {
                lowered_one_more(before, done, operations.last(), next_entity);
                if let Ok(next) = lowered_step(done, operations.last()) {
                    assert forall|k: int| 0 <= k < asked.len() implies #[trigger] step_is_possible(
                        asked,
                        k,
                        next_entity,
                    ) by {
                        if k < last {
                            assert(step_is_possible(before, k, next_entity));
                        }
                    }
                    assert(next.steps =~= done.steps.push(next.steps.last()));
                    assert forall|k: int| 0 <= k < asked.len() implies #[trigger] step_is_meant(
                        asked,
                        next.steps,
                        k,
                    ) by {
                        if k < last {
                            assert(step_is_meant(before, done.steps, k));
                            step_stays_meant(
                                before,
                                done.steps,
                                operations.last(),
                                next.steps.last(),
                                k,
                            );
                        }
                    }
                } else {
                    assert(!step_is_possible(asked, last, next_entity));
                }
            } else {
                let k = choose|k: int|
                    0 <= k < before.len() && !(#[trigger] step_is_possible(before, k, next_entity));
                assert(!step_is_possible(asked, k, next_entity));
            }
        }
    }
}

/// The operations among steps are those steps that are operations, in order.
pub proof fn step_operations_are_the_operations(steps: Seq<StepModel>)
    ensures
        ({
            let kept = steps.filter(|step: StepModel| step is Operation);
            &&& step_operations(steps).len() == kept.len()
            &&& forall|k: int|
                0 <= k < kept.len() ==> #[trigger] kept[k] == StepModel::Operation(
                    step_operations(steps)[k],
                )
        }),
    decreases steps.len(),
{
    reveal(Seq::filter);
    if steps.len() > 0 {
        step_operations_are_the_operations(steps.drop_last());
    }
}

/// The operations of an accepted transaction are, in order, its allocations, definitions and
/// removals, one for one: the same slots and predicates, with what is referred to.
pub proof fn transactions_mean_their_operations(
    next_entity: nat,
    operations: Seq<TransactionOpModel>,
)
    ensures
        lowered(next_entity, operations) matches Ok(done) ==> {
            let asked = operations.filter(
                |operation: TransactionOpModel|
                    operation is Allocate || operation is Define || operation is Forget,
            );
            let given = step_operations(done.steps);
            &&& given.len() == asked.len()
            &&& forall|k: int|
                0 <= k < asked.len() ==> match #[trigger] asked[k] {
                    TransactionOpModel::Allocate { .. } => given[k] is AllocateEntity,
                    TransactionOpModel::Define { slot, subject, predicate, object } => {
                        &&& given[k] matches OperationModel::Define { slot: own, fact }
                        &&& own == slot
                        &&& fact.predicate == predicate
                        &&& subject matches AtomRefModel::Entity(entity) ==> fact.subject
                            == AtomModel::Entity(entity)
                        &&& subject matches AtomRefModel::Literal(literal) ==> fact.subject
                            == AtomModel::Literal(literal)
                        &&& subject is Symbol ==> fact.subject is Entity
                        &&& object matches AtomRefModel::Entity(entity) ==> fact.object
                            == AtomModel::Entity(entity)
                        &&& object matches AtomRefModel::Literal(literal) ==> fact.object
                            == AtomModel::Literal(literal)
                        &&& object is Symbol ==> fact.object is Entity
                    },
                    TransactionOpModel::Forget { slot } => given[k] == (OperationModel::Forget {
                        slot,
                    }),
                    _ => false,
                }
        },
    decreases operations.len(),
{
    reveal(Seq::filter);
    if operations.len() > 0 {
        transactions_mean_their_operations(next_entity, operations.drop_last());
        if let Ok(done) = lowered(next_entity, operations.drop_last()) {
            if let Ok(next) = lowered_step(done, operations.last()) {
                if next.steps.len() > done.steps.len() {
                    assert(next.steps.drop_last() =~= done.steps);
                }
            }
        }
    }
}

/// What a symbol is bound to while a transaction is lowered, by the places of its operations.
proof fn bound_by_place(
    next_entity: nat,
    operations: Seq<TransactionOpModel>,
    count: int,
    symbol: Seq<char>,
)
    requires
        0 <= count <= operations.len(),
        lowered(next_entity, operations.take(count)) is Ok,
    ensures
        ({
            let done = lowered(next_entity, operations.take(count))->Ok_0;
            let last = last_allocation(operations, symbol, count);
            &&& done.next_entity == next_entity + allocations(operations, count)
            &&& -1 <= last < count
            &&& bound(done.bindings, symbol) == if last < 0 {
                None
            } else {
                Some((next_entity + allocations(operations, last)) as u64)
            }
        }),
    decreases count,
{
    let taken = operations.take(count);
    if count > 0 {
        assert(taken.drop_last() =~= operations.take(count - 1));
        assert(taken.last() == operations[count - 1]);
        bound_by_place(next_entity, operations, count - 1, symbol);
        let before = lowered(next_entity, operations.take(count - 1))->Ok_0;
        let done = lowered(next_entity, taken)->Ok_0;
        if let TransactionOpModel::Allocate { result } = operations[count - 1] {
            assert(done.bindings.drop_last() =~= before.bindings);
        }
    }
}

/// Where a transaction is lowered, no symbol is allocated behind its last allocation so far.
proof fn last_allocation_stays(
    next_entity: nat,
    operations: Seq<TransactionOpModel>,
    count: int,
    symbol: Seq<char>,
)
    requires
        0 <= count <= operations.len(),
        lowered(next_entity, operations) is Ok,
        last_allocation(operations, symbol, count) >= 0,
    ensures
        last_allocation(operations, symbol, operations.len() as int) == last_allocation(
            operations,
            symbol,
            count,
        ),
    decreases operations.len() - count,
{
    if count < operations.len() {
        lowered_fronts(next_entity, operations, count);
        lowered_fronts(next_entity, operations, count + 1);
        bound_by_place(next_entity, operations, count, symbol);
        assert(operations.take(count + 1).drop_last() =~= operations.take(count));
        assert(operations.take(count + 1).last() == operations[count]);
        assert(operations[count] != (TransactionOpModel::Allocate { result: symbol }));
        last_allocation_stays(next_entity, operations, count + 1, symbol);
    }
}

/// Every beginning of a transaction that is lowered is lowered.
proof fn lowered_fronts(next_entity: nat, operations: Seq<TransactionOpModel>, count: int)
    requires
        0 <= count <= operations.len(),
        lowered(next_entity, operations) is Ok,
    ensures
        lowered(next_entity, operations.take(count)) is Ok,
{
    if lowered(next_entity, operations.take(count)) is Err {
        lowering_fault_stays(next_entity, operations, count);
    }
}

/// What a transaction does is what it does with every symbol bound from the start.
pub proof fn lowering_agrees_with_synthesis(
    next_entity: nat,
    operations: Seq<TransactionOpModel>,
)
    ensures
        lowered(next_entity, operations) matches Ok(done) ==> synthesized(
            next_entity,
            operations,
            operations.len() as int,
        ) == Some(step_operations(done.steps)),
{
    if lowered(next_entity, operations) is Ok {
        synthesis_by_place(next_entity, operations, operations.len() as int);
        assert(operations.take(operations.len() as int) =~= operations);
    }
}

proof fn synthesis_by_place(next_entity: nat, operations: Seq<TransactionOpModel>, count: int)
    requires
        0 <= count <= operations.len(),
        lowered(next_entity, operations) is Ok,
    ensures
        lowered(next_entity, operations.take(count)) is Ok,
        synthesized(next_entity, operations, count) == Some(
            step_operations(lowered(next_entity, operations.take(count))->Ok_0.steps),
        ),
    decreases count,
{
    lowered_fronts(next_entity, operations, count);
    if count == 0 {
        assert(operations.take(0) =~= Seq::empty());
    } else {
        synthesis_by_place(next_entity, operations, count - 1);
        let taken = operations.take(count);
        assert(taken.drop_last() =~= operations.take(count - 1));
        assert(taken.last() == operations[count - 1]);
        let before = lowered(next_entity, operations.take(count - 1))->Ok_0;
        let done = lowered(next_entity, taken)->Ok_0;
        if done.steps.len() > before.steps.len() {
            assert(done.steps.drop_last() =~= before.steps);
        }
        match operations[count - 1] {
            TransactionOpModel::Allocate { result } => {
                bound_by_place(next_entity, operations, count - 1, result);
                assert(last_allocation(operations, result, count) == count - 1);
                last_allocation_stays(next_entity, operations, count, result);
            },
            TransactionOpModel::Define { slot: _, subject, predicate: _, object } => {
                reference_by_place(next_entity, operations, count - 1, subject);
                reference_by_place(next_entity, operations, count - 1, object);
            },
            _ => {},
        }
    }
}

proof fn reference_by_place(
    next_entity: nat,
    operations: Seq<TransactionOpModel>,
    count: int,
    reference: AtomRefModel,
)
    requires
        0 <= count <= operations.len(),
        lowered(next_entity, operations) is Ok,
        lowered(next_entity, operations.take(count)) is Ok,
    ensures
        lowered_ref(
            reference,
            lowered(next_entity, operations.take(count))->Ok_0.bindings,
        ) matches Ok(atom) ==> assigned_ref(next_entity, operations, reference) == Some(atom),
{
    if let AtomRefModel::Symbol(symbol) = reference {
        bound_by_place(next_entity, operations, count, symbol);
        if last_allocation(operations, symbol, count) >= 0 {
            last_allocation_stays(next_entity, operations, count, symbol);
        }
    }
}

/// The guards of a transaction are tested one by one, each behind the operations in front of it: a
/// transaction goes through exactly when it rejects nowhere and every slot that it names holds a
/// fact with the expected object at that moment. Then it does what its operations do.
pub proof fn guards_are_tested_in_place(kernel: KernelModel, steps: Seq<StepModel>)
    requires
        replayed(kernel, step_operations(steps)) is Ok,
    ensures
        guarded(kernel, steps) is Ok <==> forall|k: int|
            0 <= k < steps.len() ==> match #[trigger] steps[k] {
                StepModel::Operation(_) => true,
                StepModel::ExpectObject { slot, expected } => replayed(
                    kernel,
                    step_operations(steps.take(k)),
                ) matches Ok(now) && (active_fact(now.live, slot) matches Some(fact) && fact.object
                    == expected),
                StepModel::Reject => false,
            },
        guarded(kernel, steps) matches Ok(next) ==> replayed(kernel, step_operations(steps)) == Ok::<
            KernelModel,
            CandidateErrorModel,
        >(next),
        guarded(kernel, steps) matches Err(fault) ==> (fault == VmFault::ExpectationFailed || fault
            == VmFault::Rejected),
        guarded(kernel, steps) == Err::<KernelModel, VmFault>(VmFault::Rejected) ==> exists|k: int|
            0 <= k < steps.len() && #[trigger] steps[k] is Reject,
        guarded(kernel, steps) == Err::<KernelModel, VmFault>(VmFault::ExpectationFailed)
            ==> exists|k: int| 0 <= k < steps.len() && #[trigger] steps[k] is ExpectObject,
    decreases steps.len(),
{
    if steps.len() > 0 {
        let front = steps.drop_last();
        let last = steps.len() - 1;
        if steps.last() is Operation {
            assert(step_operations(steps).drop_last() =~= step_operations(front));
        }
        guards_are_tested_in_place(kernel, front);
        guarded_is_replay(kernel, front);
        guarded_is_replay(kernel, steps);
        assert(steps.take(last) =~= front);
        assert(steps[last] == steps.last());
        assert forall|k: int| 0 <= k < last implies front[k] == #[trigger] steps[k]
            && front.take(k) == steps.take(k) by {
            assert(front.take(k) =~= steps.take(k));
        }
        if guarded(kernel, steps) is Ok {
            assert forall|k: int| 0 <= k < steps.len() implies match #[trigger] steps[k] {
                StepModel::Operation(_) => true,
                StepModel::ExpectObject { slot, expected } => replayed(
                    kernel,
                    step_operations(steps.take(k)),
                ) matches Ok(now) && (active_fact(now.live, slot) matches Some(fact) && fact.object
                    == expected),
                StepModel::Reject => false,
            } by {
                if k < last {
                    assert(front[k] == steps[k]);
                }
            }
        }
        match guarded(kernel, front) {
            Err(fault) => {
                let k = choose|k: int|
                    0 <= k < front.len() && !(match #[trigger] front[k] {
                        StepModel::Operation(_) => true,
                        StepModel::ExpectObject { slot, expected } => replayed(
                            kernel,
                            step_operations(front.take(k)),
                        ) matches Ok(now) && (active_fact(now.live, slot) matches Some(fact)
                            && fact.object == expected),
                        StepModel::Reject => false,
                    });
                assert(steps[k] == front[k]);
                if fault == VmFault::Rejected {
                    let k = choose|k: int| 0 <= k < front.len() && #[trigger] front[k] is Reject;
                    assert(steps[k] == front[k]);
                } else {
                    let k = choose|k: int|
                        0 <= k < front.len() && #[trigger] front[k] is ExpectObject;
                    assert(steps[k] == front[k]);
                }
            },
            Ok(_) => {},
        }
    }
}

/// A semantic intent is accepted only if its transaction is lowered, the validators accept what it
/// does, and all its guards hold; its frame then holds exactly its operations. It is turned down by
/// the validators in their own words, for what cannot be lowered, or for a guard.
pub proof fn semantic_outcomes_mean_what_they_say(
    world: WorldModel,
    operations: Seq<TransactionOpModel>,
    verdict: Result<(), Seq<char>>,
)
    requires
        has_room(world, operations.len()),
    ensures
        ({
            let lowering = lowered(world.kernel.next_entity, operations);
            match semantic_settled(world, operations, verdict) {
                Ok((candidate, bindings)) => {
                    &&& verdict is Ok
                    &&& lowering matches Ok(done)
                    &&& bindings == done.bindings
                    &&& guarded(world.kernel, done.steps) == Ok::<KernelModel, VmFault>(
                        candidate.kernel,
                    )
                    &&& candidate.frame.operations == step_operations(done.steps)
                    &&& candidate.frame.parent_world == world.id
                    &&& candidate.frame.parent_version == world.version
                    &&& candidate.frame.resulting_version == world.version + 1
                },
                Err(SemanticRejectionModel::Lowering(message)) => verdict is Ok && lowering == Err::<
                    LoweredModel,
                    Seq<char>,
                >(message),
                Err(SemanticRejectionModel::Validation(message)) => match verdict {
                    Err(words) => message == words,
                    Ok(()) => lowering matches Ok(done) && guarded(world.kernel, done.steps) is Err,
                },
            }
        }),
{
    reveal(semantic_settled);
    lowered_facts(world.kernel.next_entity, operations, world.kernel);
    if let Ok(done) = lowered(world.kernel.next_entity, operations) {
        guarded_is_replay(world.kernel, done.steps);
    }
}

} // verus!
