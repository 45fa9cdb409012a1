//! What the acceptance of a queued intent means: every demand that it makes holds where it is
//! applied, and its operations are what it asked for.

use crate::compile::operations_fault;
use crate::errors::CandidateErrorModel;
use crate::fact::{AtomModel, Literal, OperationModel};
use crate::frame::WorldId;
use crate::intent::{
    IntentAtomModel, IntentModel, IntentOperationModel, PreconditionModel, TempEntity, handle_is,
};
use crate::kernel::{DefinitionModel, KernelModel, active_fact, replayed};
use crate::mixed::{
    ControllerIntentModel, MixedModel, MixedOutcomeModel, mixed_extended, queued_settled,
};
use crate::plan_model::{
    OutcomeModel, RejectionModel, chained, chained_room, has_epoch_room, outcomes_follow_intents,
    preconditions_fault, proposal, resolved, resolved_applies, resolved_atom, settled,
    total_steps_monotone,
};
use crate::vm::VM_LITERAL_BASE;
use crate::world::{WorldModel, has_room, published};
use vstd::prelude::*;

verus! {

/// The faults of demands, by position: none where all hold, else that of the first that does not.
proof fn demands_by_position(
    id: WorldId,
    live: Seq<DefinitionModel>,
    preconditions: Seq<PreconditionModel>,
)
    ensures
        match preconditions_fault(id, live, preconditions) {
            None => forall|i: int|
                0 <= i < preconditions.len() ==> match #[trigger] preconditions[i] {
                    PreconditionModel::ExpectedWorld(expected) => id == expected,
                    PreconditionModel::ExpectedSlot { slot, expected } => active_fact(live, slot)
                        == expected,
                },
            Some(fault) => exists|i: int|
                0 <= i < preconditions.len() && match #[trigger] preconditions[i] {
                    PreconditionModel::ExpectedWorld(expected) => id != expected && fault
                        == (RejectionModel::WorldPrecondition { expected, actual: id }),
                    PreconditionModel::ExpectedSlot { slot, expected } => active_fact(live, slot)
                        != expected && fault == (RejectionModel::SlotPrecondition {
                        slot,
                        expected,
                        actual: active_fact(live, slot),
                    }),
                } && forall|j: int|
                    0 <= j < i ==> match #[trigger] preconditions[j] {
                        PreconditionModel::ExpectedWorld(expected) => id == expected,
                        PreconditionModel::ExpectedSlot { slot, expected } => active_fact(
                            live,
                            slot,
                        ) == expected,
                    },
        },
    decreases preconditions.len(),
{
    if preconditions.len() > 0 {
        let front = preconditions.drop_last();
        let last = preconditions.len() - 1;
        demands_by_position(id, live, front);
        assert forall|i: int| 0 <= i < front.len() implies front[i] == #[trigger]
            preconditions[i] by {}
        match preconditions_fault(id, live, front) {
            Some(fault) => {
                let i = choose|i: int|
                    0 <= i < front.len() && match #[trigger] front[i] {
                        PreconditionModel::ExpectedWorld(expected) => id != expected && fault
                            == (RejectionModel::WorldPrecondition { expected, actual: id }),
                        PreconditionModel::ExpectedSlot { slot, expected } => active_fact(
                            live,
                            slot,
                        ) != expected && fault == (RejectionModel::SlotPrecondition {
                            slot,
                            expected,
                            actual: active_fact(live, slot),
                        }),
                    } && forall|j: int|
                        0 <= j < i ==> match #[trigger] front[j] {
                            PreconditionModel::ExpectedWorld(expected) => id == expected,
                            PreconditionModel::ExpectedSlot { slot, expected } => active_fact(
                                live,
                                slot,
                            ) == expected,
                        };
                assert(preconditions[i] == front[i]);
                assert forall|j: int| 0 <= j < i implies match #[trigger] preconditions[j] {
                    PreconditionModel::ExpectedWorld(expected) => id == expected,
                    PreconditionModel::ExpectedSlot { slot, expected } => active_fact(live, slot)
                        == expected,
                } by {
                    assert(front[j] == preconditions[j]);
                }
            },
            None => {
                assert forall|j: int| 0 <= j < last implies match #[trigger] preconditions[j] {
                    PreconditionModel::ExpectedWorld(expected) => id == expected,
                    PreconditionModel::ExpectedSlot { slot, expected } => active_fact(live, slot)
                        == expected,
                } by {
                    assert(front[j] == preconditions[j]);
                }
                assert(preconditions[last] == preconditions.last());
            },
        }
    }
}

/// An intent is accepted only where every one of its preconditions holds: the world is each one
/// that it expects, and each slot holds exactly what it expects there. Where all hold, it is not
/// turned down for a precondition; where one does not, it is turned down for the first of those,
/// with what was expected and what was found.
pub proof fn acceptance_needs_every_precondition(
    world: WorldModel,
    intent: IntentModel,
    verdict: Result<(), Seq<char>>,
)
    requires
        world.kernel.next_entity + intent.operations.len() <= u64::MAX,
    ensures
        settled(world, intent, verdict) is Ok ==> forall|i: int|
            0 <= i < intent.preconditions.len() ==> match #[trigger] intent.preconditions[i] {
                PreconditionModel::ExpectedWorld(expected) => world.id == expected,
                PreconditionModel::ExpectedSlot { slot, expected } => active_fact(
                    world.kernel.live,
                    slot,
                ) == expected,
            },
        (forall|i: int|
            0 <= i < intent.preconditions.len() ==> match #[trigger] intent.preconditions[i] {
                PreconditionModel::ExpectedWorld(expected) => world.id == expected,
                PreconditionModel::ExpectedSlot { slot, expected } => active_fact(
                    world.kernel.live,
                    slot,
                ) == expected,
            }) ==> (settled(world, intent, verdict) matches Err(error) ==> !(error
            is WorldPrecondition) && !(error is SlotPrecondition)),
        (settled(world, intent, verdict) matches Err(error) && (error is WorldPrecondition || error
            is SlotPrecondition)) ==> exists|i: int|
            0 <= i < intent.preconditions.len() && match #[trigger] intent.preconditions[i] {
                PreconditionModel::ExpectedWorld(expected) => world.id != expected && settled(
                    world,
                    intent,
                    verdict,
                )->Err_0 == (RejectionModel::WorldPrecondition { expected, actual: world.id }),
                PreconditionModel::ExpectedSlot { slot, expected } => active_fact(
                    world.kernel.live,
                    slot,
                ) != expected && settled(world, intent, verdict)->Err_0
                    == (RejectionModel::SlotPrecondition {
                    slot,
                    expected,
                    actual: active_fact(world.kernel.live, slot),
                }),
            } && forall|j: int|
                0 <= j < i ==> match #[trigger] intent.preconditions[j] {
                    PreconditionModel::ExpectedWorld(expected) => world.id == expected,
                    PreconditionModel::ExpectedSlot { slot, expected } => active_fact(
                        world.kernel.live,
                        slot,
                    ) == expected,
                },
        (exists|i: int|
            0 <= i < intent.preconditions.len() && !(match #[trigger] intent.preconditions[i] {
                PreconditionModel::ExpectedWorld(expected) => world.id == expected,
                PreconditionModel::ExpectedSlot { slot, expected } => active_fact(
                    world.kernel.live,
                    slot,
                ) == expected,
            })) ==> (settled(world, intent, verdict) matches Err(error) && (error
            is WorldPrecondition || error is SlotPrecondition)),
{
    reveal(proposal);
    demands_by_position(world.id, world.kernel.live, intent.preconditions);
    resolved_applies(
        world.kernel.next_entity,
        intent.namespace,
        intent.operations,
        world.kernel,
    );
}

/// The atom of a resolved operation is the one that the intent names: itself, or the entity that
/// the last allocation of a handle in front of it got.
pub open spec fn atom_is_meant(
    operations: Seq<IntentOperationModel>,
    done: Seq<OperationModel>,
    namespace: u64,
    index: int,
    asked: IntentAtomModel,
    given: AtomModel,
) -> bool {
    match asked {
        IntentAtomModel::Entity(entity) => given == AtomModel::Entity(entity),
        IntentAtomModel::Literal(literal) => given == AtomModel::Literal(literal),
        IntentAtomModel::Temporary(temporary) => exists|j: int|
            0 <= j < index && #[trigger] operations[j] == (IntentOperationModel::AllocateEntity {
                temporary,
            }) && temporary.scope() == namespace && (done[j] matches OperationModel::AllocateEntity {
                entity,
            } && given == AtomModel::Entity(entity)) && forall|k: int|
                j < k < index ==> #[trigger] operations[k] != (IntentOperationModel::AllocateEntity {
                    temporary,
                }),
    }
}

/// A handle is known in front of an operation: it is of the intent's own scope, and an operation
/// in front allocates it.
pub open spec fn atom_is_known(
    operations: Seq<IntentOperationModel>,
    namespace: u64,
    index: int,
    asked: IntentAtomModel,
) -> bool {
    asked matches IntentAtomModel::Temporary(temporary) ==> temporary.scope() == namespace
        && exists|j: int|
        0 <= j < index && #[trigger] operations[j] == (IntentOperationModel::AllocateEntity {
            temporary,
        })
}

/// The handles of an operation are known.
pub open spec fn operation_is_known(
    operations: Seq<IntentOperationModel>,
    namespace: u64,
    index: int,
) -> bool {
    match operations[index] {
        IntentOperationModel::AllocateEntity { temporary } => temporary.scope() == namespace,
        IntentOperationModel::Define { fact, .. } => atom_is_known(
            operations,
            namespace,
            index,
            fact.subject,
        ) && atom_is_known(operations, namespace, index, fact.object),
        IntentOperationModel::Forget { .. } => true,
    }
}

/// An operation does what the intent asks: it allocates, defines the same slot with the same
/// predicate and the atoms that are meant, or forgets the same slot.
pub open spec fn operation_is_meant(
    operations: Seq<IntentOperationModel>,
    done: Seq<OperationModel>,
    namespace: u64,
    index: int,
) -> bool {
    match operations[index] {
        IntentOperationModel::AllocateEntity { temporary } => temporary.scope() == namespace
            && done[index] is AllocateEntity,
        IntentOperationModel::Define { slot, fact } => done[index] matches OperationModel::Define {
            slot: own,
            fact: given,
        } && own == slot && given.predicate == fact.predicate && atom_is_meant(
            operations,
            done,
            namespace,
            index,
            fact.subject,
            given.subject,
        ) && atom_is_meant(operations, done, namespace, index, fact.object, given.object),
        IntentOperationModel::Forget { slot } => done[index] == (OperationModel::Forget { slot }),
    }
}

/// The entities that handles got, by the operations: each key is the number of an allocation.
proof fn entities_by_position(
    next_entity: nat,
    namespace: u64,
    operations: Seq<IntentOperationModel>,
)
    ensures
        resolved(next_entity, namespace, operations) matches Ok(done) ==> {
            &&& done.operations.len() == operations.len()
            &&& forall|temporary: TempEntity|
                temporary.scope() == namespace && #[trigger] done.entities.contains_key(
                    temporary.number(),
                ) ==> exists|j: int|
                    0 <= j < operations.len() && #[trigger] operations[j]
                        == (IntentOperationModel::AllocateEntity { temporary })
                        && done.operations[j] == (OperationModel::AllocateEntity {
                        entity: done.entities[temporary.number()].0,
                    }) && forall|k: int|
                        j < k < operations.len() ==> #[trigger] operations[k]
                            != (IntentOperationModel::AllocateEntity { temporary })
            &&& forall|j: int|
                0 <= j < operations.len() ==> (#[trigger] operations[j] matches
                    IntentOperationModel::AllocateEntity { temporary } ==> temporary.scope()
                    == namespace && done.entities.contains_key(temporary.number()))
        },
    decreases operations.len(),
{
    if operations.len() > 0 {
        let front = operations.drop_last();
        let last = operations.len() - 1;
        entities_by_position(next_entity, namespace, front);
        if let Ok(done) = resolved(next_entity, namespace, operations) {
            let before = resolved(next_entity, namespace, front)->Ok_0;
            assert(done.operations.drop_last() =~= before.operations);
            assert forall|temporary: TempEntity|
                temporary.scope() == namespace && #[trigger] done.entities.contains_key(
                    temporary.number(),
                ) implies exists|j: int|
                0 <= j < operations.len() && #[trigger] operations[j]
                    == (IntentOperationModel::AllocateEntity { temporary }) && done.operations[j]
                    == (OperationModel::AllocateEntity {
                    entity: done.entities[temporary.number()].0,
                }) && forall|k: int|
                    j < k < operations.len() ==> #[trigger] operations[k]
                        != (IntentOperationModel::AllocateEntity { temporary }) by {
                let fresh = operations[last] matches IntentOperationModel::AllocateEntity {
                    temporary: own,
                } && own.number() == temporary.number();
                if fresh {
                    let own = operations[last]->AllocateEntity_temporary;
                    handle_is(own);
                    handle_is(temporary);
                    assert(own == temporary);
                    assert(operations[last] == (IntentOperationModel::AllocateEntity {
                        temporary,
                    }));
                    assert(done.operations[last] == done.operations.last());
                } else {
                    assert(before.entities.contains_key(temporary.number()));
                    let j = choose|j: int|
                        0 <= j < front.len() && #[trigger] front[j]
                            == (IntentOperationModel::AllocateEntity { temporary })
                            && before.operations[j] == (OperationModel::AllocateEntity {
                            entity: before.entities[temporary.number()].0,
                        }) && forall|k: int|
                            j < k < front.len() ==> #[trigger] front[k]
                                != (IntentOperationModel::AllocateEntity { temporary });
                    assert(operations[j] == front[j]);
                    assert(done.operations[j] == before.operations[j]);
                    assert forall|k: int| j < k < operations.len() implies #[trigger] operations[k]
                        != (IntentOperationModel::AllocateEntity { temporary }) by {
                        if k < last {
                            assert(front[k] == operations[k]);
                        }
                    }
                }
            }
            assert forall|j: int| 0 <= j < operations.len() implies (#[trigger] operations[j] matches
                IntentOperationModel::AllocateEntity { temporary } ==> temporary.scope()
                == namespace && done.entities.contains_key(temporary.number())) by {
                if j < last {
                    assert(front[j] == operations[j]);
                }
            }
        }
    }
}

/// An intent whose handles are all known, and no other, is resolved; and its operations are, one
/// for one and in order, what it asks for.
pub proof fn intents_mean_their_operations(
    next_entity: nat,
    namespace: u64,
    operations: Seq<IntentOperationModel>,
)
    ensures
        resolved(next_entity, namespace, operations) is Ok <==> forall|i: int|
            0 <= i < operations.len() ==> #[trigger] operation_is_known(operations, namespace, i),
        resolved(next_entity, namespace, operations) matches Ok(done) ==> done.operations.len()
            == operations.len() && forall|i: int|
            0 <= i < operations.len() ==> #[trigger] operation_is_meant(
                operations,
                done.operations,
                namespace,
                i,
            ),
    decreases operations.len(),
{
    if operations.len() > 0 {
        let front = operations.drop_last();
        let last = operations.len() - 1;
        intents_mean_their_operations(next_entity, namespace, front);
        entities_by_position(next_entity, namespace, front);
        entities_by_position(next_entity, namespace, operations);
        assert forall|i: int| 0 <= i < last implies operation_is_known(operations, namespace, i)
            == #[trigger] operation_is_known(front, namespace, i) by {
            assert(front[i] == operations[i]);
            if let IntentOperationModel::Define { fact, .. } = operations[i] {
                known_in_front(operations, namespace, i, fact.subject);
                known_in_front(operations, namespace, i, fact.object);
            }
        }
        if forall|i: int| 0 <= i < operations.len() ==> operation_is_known(operations, namespace, i) {
            assert forall|i: int| 0 <= i < front.len() implies #[trigger] operation_is_known(
                front,
                namespace,
                i,
            ) by {
                assert(operation_is_known(operations, namespace, i));
            }
            assert(operation_is_known(operations, namespace, last));
        }
        if let Ok(before) = resolved(next_entity, namespace, front) {
            if let IntentOperationModel::Define { fact, .. } = operations[last] {
                handle_resolves(next_entity, namespace, operations, fact.subject);
                handle_resolves(next_entity, namespace, operations, fact.object);
            }
            if let Ok(done) = resolved(next_entity, namespace, operations) {
                assert(done.operations.drop_last() =~= before.operations);
                assert(operation_is_known(operations, namespace, last));
                assert forall|i: int| 0 <= i < operations.len() implies #[trigger]
                    operation_is_known(operations, namespace, i) by {
                    if i < last {
                        assert(operation_is_known(front, namespace, i));
                    }
                }
                assert forall|i: int| 0 <= i < operations.len() implies #[trigger]
                    operation_is_meant(operations, done.operations, namespace, i) by {
                    if i < last {
                        assert(operation_is_meant(front, before.operations, namespace, i));
                        meant_in_front(operations, done.operations, namespace, i);
                    } else {
                        assert(operations[last] == operations.last());
                        assert(done.operations[last] == done.operations.last());
                        if let IntentOperationModel::Define { fact, .. } = operations[last] {
                            let given = done.operations[last]->Define_fact;
                            meant_behind(
                                next_entity,
                                namespace,
                                operations,
                                fact.subject,
                                given.subject,
                            );
                            meant_behind(
                                next_entity,
                                namespace,
                                operations,
                                fact.object,
                                given.object,
                            );
                        }
                    }
                }
            }
        }
    }
}

proof fn known_in_front(
    operations: Seq<IntentOperationModel>,
    namespace: u64,
    index: int,
    asked: IntentAtomModel,
)
    requires
        0 <= index < operations.len() - 1,
    ensures
        atom_is_known(operations, namespace, index, asked) == atom_is_known(
            operations.drop_last(),
            namespace,
            index,
            asked,
        ),
{
    let front = operations.drop_last();
    if let IntentAtomModel::Temporary(temporary) = asked {
        if atom_is_known(operations, namespace, index, asked) {
            let j = choose|j: int|
                0 <= j < index && #[trigger] operations[j]
                    == (IntentOperationModel::AllocateEntity { temporary });
            assert(front[j] == operations[j]);
        }
        if atom_is_known(front, namespace, index, asked) {
            let j = choose|j: int|
                0 <= j < index && #[trigger] front[j] == (IntentOperationModel::AllocateEntity {
                    temporary,
                });
            assert(front[j] == operations[j]);
        }
    }
}

proof fn meant_atom_in_front(
    operations: Seq<IntentOperationModel>,
    done: Seq<OperationModel>,
    namespace: u64,
    index: int,
    asked: IntentAtomModel,
    given: AtomModel,
)
    requires
        0 <= index < operations.len() - 1,
        done.len() == operations.len(),
        atom_is_meant(operations.drop_last(), done.drop_last(), namespace, index, asked, given),
    ensures
        atom_is_meant(operations, done, namespace, index, asked, given),
{
    let front = operations.drop_last();
    let before = done.drop_last();
    if let IntentAtomModel::Temporary(temporary) = asked {
        let j = choose|j: int|
            0 <= j < index && #[trigger] front[j] == (IntentOperationModel::AllocateEntity {
                temporary,
            }) && temporary.scope() == namespace && (before[j] matches
                OperationModel::AllocateEntity { entity } && given == AtomModel::Entity(entity))
                && forall|k: int|
                j < k < index ==> #[trigger] front[k] != (IntentOperationModel::AllocateEntity {
                    temporary,
                });
        assert(operations[j] == front[j]);
        assert(done[j] == before[j]);
        assert forall|k: int| j < k < index implies #[trigger] operations[k]
            != (IntentOperationModel::AllocateEntity { temporary }) by {
            assert(front[k] == operations[k]);
        }
    }
}

proof fn meant_in_front(
    operations: Seq<IntentOperationModel>,
    done: Seq<OperationModel>,
    namespace: u64,
    index: int,
)
    requires
        0 <= index < operations.len() - 1,
        done.len() == operations.len(),
        operation_is_meant(operations.drop_last(), done.drop_last(), namespace, index),
    ensures
        operation_is_meant(operations, done, namespace, index),
{
    assert(operations.drop_last()[index] == operations[index]);
    assert(done.drop_last()[index] == done[index]);
    if let IntentOperationModel::Define { fact, .. } = operations[index] {
        let given = done[index]->Define_fact;
        meant_atom_in_front(operations, done, namespace, index, fact.subject, given.subject);
        meant_atom_in_front(operations, done, namespace, index, fact.object, given.object);
    }
}

/// A handle of the last operation resolves exactly when it is known.
proof fn handle_resolves(
    next_entity: nat,
    namespace: u64,
    operations: Seq<IntentOperationModel>,
    asked: IntentAtomModel,
)
    requires
        operations.len() > 0,
        resolved(next_entity, namespace, operations.drop_last()) is Ok,
    ensures
        resolved_atom(
            asked,
            namespace,
            resolved(next_entity, namespace, operations.drop_last())->Ok_0.entities,
        ) is Ok <==> atom_is_known(operations, namespace, operations.len() - 1, asked),
{
    let front = operations.drop_last();
    let before = resolved(next_entity, namespace, front)->Ok_0;
    entities_by_position(next_entity, namespace, front);
    if let IntentAtomModel::Temporary(temporary) = asked {
        if temporary.scope() == namespace && before.entities.contains_key(temporary.number()) {
            let j = choose|j: int|
                0 <= j < front.len() && #[trigger] front[j]
                    == (IntentOperationModel::AllocateEntity { temporary }) && before.operations[j]
                    == (OperationModel::AllocateEntity {
                    entity: before.entities[temporary.number()].0,
                }) && forall|k: int|
                    j < k < front.len() ==> #[trigger] front[k]
                        != (IntentOperationModel::AllocateEntity { temporary });
            assert(operations[j] == front[j]);
        }
        if atom_is_known(operations, namespace, operations.len() - 1, asked) {
            let j = choose|j: int|
                0 <= j < operations.len() - 1 && #[trigger] operations[j]
                    == (IntentOperationModel::AllocateEntity { temporary });
            assert(front[j] == operations[j]);
        }
    }
}

/// What the last operation gives an atom is what is meant.
proof fn meant_behind(
    next_entity: nat,
    namespace: u64,
    operations: Seq<IntentOperationModel>,
    asked: IntentAtomModel,
    given: AtomModel,
)
    requires
        operations.len() > 0,
        resolved(next_entity, namespace, operations) is Ok,
        resolved(next_entity, namespace, operations.drop_last()) is Ok,
        resolved_atom(
            asked,
            namespace,
            resolved(next_entity, namespace, operations.drop_last())->Ok_0.entities,
        ) == Ok::<AtomModel, TempEntity>(given),
    ensures
        atom_is_meant(
            operations,
            resolved(next_entity, namespace, operations)->Ok_0.operations,
            namespace,
            operations.len() - 1,
            asked,
            given,
        ),
{
    let front = operations.drop_last();
    let before = resolved(next_entity, namespace, front)->Ok_0;
    let done = resolved(next_entity, namespace, operations)->Ok_0;
    entities_by_position(next_entity, namespace, front);
    assert(done.operations.drop_last() =~= before.operations);
    if let IntentAtomModel::Temporary(temporary) = asked {
        assert(before.entities.contains_key(temporary.number()));
        let j = choose|j: int|
            0 <= j < front.len() && #[trigger] front[j] == (IntentOperationModel::AllocateEntity {
                temporary,
            }) && before.operations[j] == (OperationModel::AllocateEntity {
                entity: before.entities[temporary.number()].0,
            }) && forall|k: int|
                j < k < front.len() ==> #[trigger] front[k]
                    != (IntentOperationModel::AllocateEntity { temporary });
        assert(operations[j] == front[j]);
        assert(done.operations[j] == before.operations[j]);
        assert forall|k: int| j < k < operations.len() - 1 implies #[trigger] operations[k]
            != (IntentOperationModel::AllocateEntity { temporary }) by {
            assert(front[k] == operations[k]);
        }
    }
}

/// What the outcome of one intent says: it was accepted, and then every demand holds in the world
/// where it was applied, the validators accepted it, its frame continues that world and its
/// operations are what it asks for; or it was turned down, and then for a demand that does not
/// hold, for a handle that is not known, or by the validators in their own words.
pub open spec fn outcome_is_meant(
    world: WorldModel,
    intent: IntentModel,
    verdict: Result<(), Seq<char>>,
    outcome: OutcomeModel,
) -> bool {
    let demands = forall|k: int|
        0 <= k < intent.preconditions.len() ==> match #[trigger] intent.preconditions[k] {
            PreconditionModel::ExpectedWorld(expected) => world.id == expected,
            PreconditionModel::ExpectedSlot { slot, expected } => active_fact(
                world.kernel.live,
                slot,
            ) == expected,
        };
    let known = forall|k: int|
        0 <= k < intent.operations.len() ==> #[trigger] operation_is_known(
            intent.operations,
            intent.namespace,
            k,
        );
    match outcome {
        OutcomeModel::Accepted { position: _, world: after, frame, namespace, entities } => {
            &&& demands
            &&& known
            &&& verdict is Ok
            &&& namespace == intent.namespace
            &&& frame.parent_world == world.id
            &&& frame.parent_version == world.version
            &&& frame.resulting_version == world.version + 1
            &&& frame.operations.len() == intent.operations.len()
            &&& forall|k: int|
                0 <= k < intent.operations.len() ==> #[trigger] operation_is_meant(
                    intent.operations,
                    frame.operations,
                    intent.namespace,
                    k,
                )
            &&& forall|k: int|
                0 <= k < intent.operations.len() ==> (#[trigger] intent.operations[k] matches
                    IntentOperationModel::AllocateEntity { temporary } ==> entities.contains_key(
                    temporary.number(),
                ))
            &&& after.id == frame.resulting_world
            &&& after.version == frame.resulting_version
            &&& after.history == world.history.push(frame)
            &&& after.operation_count == world.operation_count + intent.operations.len()
            &&& replayed(world.kernel, frame.operations) == Ok::<KernelModel, CandidateErrorModel>(
                after.kernel,
            )
        },
        OutcomeModel::Rejected { position: _, error } => match error {
            RejectionModel::WorldPrecondition { .. } => !demands,
            RejectionModel::SlotPrecondition { .. } => !demands,
            RejectionModel::UnknownTemporaryEntity(_) => demands && !known,
            RejectionModel::Candidate(_) => false,
            RejectionModel::Validation(message) => demands && known && verdict == Err::<
                (),
                Seq<char>,
            >(message),
        },
    }
}

/// One more intent is settled in the world that the intents in front of it lead to.
proof fn settled_is_meant(
    world: WorldModel,
    intent: IntentModel,
    verdict: Result<(), Seq<char>>,
)
    requires
        has_room(world, intent.operations.len()),
    ensures
        match settled(world, intent, verdict) {
            Ok((candidate, entities)) => forall|position: nat| #[trigger]
                outcome_is_meant(
                    world,
                    intent,
                    verdict,
                    OutcomeModel::Accepted {
                        position,
                        world: published(candidate, world.history),
                        frame: candidate.frame,
                        namespace: intent.namespace,
                        entities,
                    },
                ),
            Err(error) => forall|position: nat| #[trigger]
                outcome_is_meant(
                    world,
                    intent,
                    verdict,
                    OutcomeModel::Rejected { position, error },
                ),
        },
{
    acceptance_needs_every_precondition(world, intent, verdict);
    demands_by_position(world.id, world.kernel.live, intent.preconditions);
    intents_mean_their_operations(
        world.kernel.next_entity,
        intent.namespace,
        intent.operations,
    );
    entities_by_position(world.kernel.next_entity, intent.namespace, intent.operations);
    resolved_applies(
        world.kernel.next_entity,
        intent.namespace,
        intent.operations,
        world.kernel,
    );
    reveal(proposal);
}

/// Every intent of an epoch is settled in the private world that the accepted intents in front of
/// it lead to, and its outcome means what it says there.
pub proof fn outcomes_mean_what_they_say(
    base: WorldModel,
    intents: Seq<IntentModel>,
    verdicts: Seq<Result<(), Seq<char>>>,
    index: int,
)
    requires
        has_epoch_room(base, intents),
        0 <= index < intents.len(),
    ensures
        ({
            let plan = chained(base, intents, verdicts);
            let before = chained(base, intents.take(index), verdicts);
            let after = chained(base, intents.take(index + 1), verdicts);
            let outcome = plan.outcomes[index];
            &&& plan.outcomes.len() == intents.len()
            &&& outcome_is_meant(before.tail, intents[index], verdicts[index], outcome)
            &&& outcome matches OutcomeModel::Accepted { position, world, frame, .. } ==> position
                == index && after.tail == world && after.frames == before.frames.push(frame)
            &&& outcome matches OutcomeModel::Rejected { position, .. } ==> position == index
                && after.tail == before.tail && after.frames == before.frames
        }),
    decreases intents.len(),
{
    let plan = chained(base, intents, verdicts);
    let front = intents.drop_last();
    let last = intents.len() - 1;
    let before = chained(base, front, verdicts);
    outcomes_follow_intents(base, intents, verdicts);
    outcomes_follow_intents(base, front, verdicts);
    total_steps_monotone(intents, last);
    assert(intents.take(last) =~= front);
    if index < last {
        outcomes_mean_what_they_say(base, front, verdicts, index);
        assert(front.take(index) =~= intents.take(index));
        assert(front.take(index + 1) =~= intents.take(index + 1));
        assert(plan.outcomes[index] == before.outcomes[index]);
        assert(front[index] == intents[index]);
    } else {
        assert(intents.take(index + 1) =~= intents);
        chained_room(base, intents, verdicts, last);
        settled_is_meant(before.tail, intents.last(), verdicts[last]);
    }
}

/// Every queued intent of a mixed epoch is settled in the private world that the accepted intents
/// in front of it lead to; one that the machine cannot represent is turned down besides.
pub proof fn mixed_outcomes_mean_what_they_say(
    state: MixedModel,
    intent: IntentModel,
    verdict: Result<(), Seq<char>>,
)
    requires
        has_room(state.tail, intent.operations.len()),
    ensures
        ({
            let after = mixed_extended(state, ControllerIntentModel::Queued(intent), verdict);
            &&& after.outcomes.len() == state.outcomes.len() + 1
            &&& after.outcomes.drop_last() == state.outcomes
            &&& after.outcomes.last() matches MixedOutcomeModel::Queued(outcome)
            &&& match outcome {
                OutcomeModel::Accepted { position, world, frame, .. } => {
                    &&& position == state.outcomes.len()
                    &&& outcome_is_meant(state.tail, intent, verdict, outcome)
                    &&& after.tail == world
                    &&& after.operations == state.operations + frame.operations
                    &&& after.accepted == state.accepted + 1
                    &&& forall|k: int|
                        0 <= k < frame.operations.len() ==> match #[trigger] frame.operations[k] {
                            OperationModel::AllocateEntity { entity } => entity < VM_LITERAL_BASE,
                            OperationModel::Define { fact, .. } => (fact.subject matches
                                AtomModel::Entity(entity) ==> entity < VM_LITERAL_BASE) && (
                            fact.object matches AtomModel::Entity(entity) ==> entity
                                < VM_LITERAL_BASE),
                            OperationModel::Forget { .. } => true,
                        }
                },
                OutcomeModel::Rejected { position, .. } => {
                    &&& position == state.outcomes.len()
                    &&& after.tail == state.tail
                    &&& after.operations == state.operations
                    &&& after.accepted == state.accepted
                    &&& settled(state.tail, intent, verdict) is Err ==> outcome_is_meant(
                        state.tail,
                        intent,
                        verdict,
                        outcome,
                    )
                },
            }
        }),
{
    reveal(queued_settled);
    settled_is_meant(state.tail, intent, verdict);
    let after = mixed_extended(state, ControllerIntentModel::Queued(intent), verdict);
    assert(after.outcomes.drop_last() =~= state.outcomes);
    if let Ok((candidate, _)) = settled(state.tail, intent, verdict) {
        representable_by_position(candidate.frame.operations);
    }
}

/// Operations without a fault are representable one by one.
proof fn representable_by_position(operations: Seq<OperationModel>)
    ensures
        operations_fault(operations) is None <==> forall|k: int|
            0 <= k < operations.len() ==> match #[trigger] operations[k] {
                OperationModel::AllocateEntity { entity } => entity < VM_LITERAL_BASE,
                OperationModel::Define { fact, .. } => (fact.subject matches AtomModel::Entity(
                    entity,
                ) ==> entity < VM_LITERAL_BASE) && (fact.object matches AtomModel::Entity(entity)
                    ==> entity < VM_LITERAL_BASE),
                OperationModel::Forget { .. } => true,
            },
    decreases operations.len(),
{
    if operations.len() > 0 {
        let front = operations.drop_last();
        let last = operations.len() - 1;
        representable_by_position(front);
        assert forall|k: int| 0 <= k < last implies front[k] == #[trigger] operations[k] by {}
        assert(operations[last] == operations.last());
        if operations_fault(operations) is None {
            assert forall|k: int| 0 <= k < operations.len() implies match #[trigger] operations[k] {
                OperationModel::AllocateEntity { entity } => entity < VM_LITERAL_BASE,
                OperationModel::Define { fact, .. } => (fact.subject matches AtomModel::Entity(
                    entity,
                ) ==> entity < VM_LITERAL_BASE) && (fact.object matches AtomModel::Entity(entity)
                    ==> entity < VM_LITERAL_BASE),
                OperationModel::Forget { .. } => true,
            } by {
                if k < last {
                    assert(front[k] == operations[k]);
                }
            }
        }
    }
}

} // verus!
