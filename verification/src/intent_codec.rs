//! Queued intents as bytes.

use crate::cursor::{
    Taken, put_text32, short, take_text, take_u32, take_u64, take_u8, taken_text, taken_u32,
    taken_u64, taken_u8, takes, text32, text32_stands, u32_stands, u64_stands, u8_stands,
};
use crate::fact::{
    Atom, AtomModel, EntityId, Fact, FactModel, Literal, Predicate, SlotId, views, views_push,
};
use crate::frame::WorldId;
use crate::intent::{
    IntentAtom, IntentAtomModel, IntentFact, IntentFactModel, IntentModel, IntentNamespaces,
    IntentOperation, IntentOperationModel, IntentPrecondition, PreconditionModel, QueuedIntent,
    TempEntity, handle, handle_is, handle_parts, observed,
};
use crate::text::{decimal, labelled};
use crate::wire::{le32, le64, put_byte, put_u32, put_u64, stands_at, stands_at_split, u32_at};
use vstd::prelude::*;
use vstd::string::*;

verus! {

pub open spec fn atom32_bytes(atom: AtomModel) -> Seq<u8> {
    match atom {
        AtomModel::Entity(entity) => seq![0u8] + le64(entity),
        AtomModel::Literal(literal) => seq![1u8] + text32(literal),
    }
}

pub open spec fn fact32_bytes(fact: FactModel) -> Seq<u8> {
    atom32_bytes(fact.subject) + (text32(fact.predicate) + atom32_bytes(fact.object))
}

pub open spec fn temporary_bytes(temporary: TempEntity) -> Seq<u8> {
    le64(temporary.scope()) + le32(temporary.number())
}

pub open spec fn intent_atom_bytes(atom: IntentAtomModel) -> Seq<u8> {
    match atom {
        IntentAtomModel::Entity(entity) => seq![0u8] + le64(entity),
        IntentAtomModel::Temporary(temporary) => seq![1u8] + temporary_bytes(temporary),
        IntentAtomModel::Literal(literal) => seq![2u8] + text32(literal),
    }
}

pub open spec fn intent_fact_bytes(fact: IntentFactModel) -> Seq<u8> {
    intent_atom_bytes(fact.subject) + (text32(fact.predicate) + intent_atom_bytes(fact.object))
}

pub open spec fn precondition_bytes(precondition: PreconditionModel) -> Seq<u8> {
    match precondition {
        PreconditionModel::ExpectedWorld(world) => seq![0u8] + le64(world.0),
        PreconditionModel::ExpectedSlot { slot, expected } => seq![1u8] + (text32(slot)
            + match expected {
            Some(fact) => seq![1u8] + fact32_bytes(fact),
            None => seq![0u8],
        }),
    }
}

pub open spec fn step_bytes(operation: IntentOperationModel) -> Seq<u8> {
    match operation {
        IntentOperationModel::AllocateEntity { temporary } => seq![0u8] + temporary_bytes(
            temporary,
        ),
        IntentOperationModel::Define { slot, fact } => seq![1u8] + (text32(slot)
            + intent_fact_bytes(fact)),
        IntentOperationModel::Forget { slot } => seq![2u8] + text32(slot),
    }
}

pub open spec fn preconditions_bytes(preconditions: Seq<PreconditionModel>) -> Seq<u8>
    decreases preconditions.len(),
{
    if preconditions.len() == 0 {
        Seq::empty()
    } else {
        preconditions_bytes(preconditions.drop_last()) + precondition_bytes(preconditions.last())
    }
}

pub open spec fn steps_bytes(operations: Seq<IntentOperationModel>) -> Seq<u8>
    decreases operations.len(),
{
    if operations.len() == 0 {
        Seq::empty()
    } else {
        steps_bytes(operations.drop_last()) + step_bytes(operations.last())
    }
}

/// Namespace, next temporary, and the two counted lists.
pub open spec fn intent_bytes(intent: IntentModel) -> Seq<u8> {
    le64(intent.namespace) + (le32(intent.next_temporary) + (le32(
        intent.preconditions.len() as u32,
    ) + (preconditions_bytes(intent.preconditions) + (le32(intent.operations.len() as u32)
        + steps_bytes(intent.operations)))))
}

pub open spec fn atom_fits(atom: AtomModel) -> bool {
    atom matches AtomModel::Literal(literal) ==> short(literal)
}

pub open spec fn fact_fits(fact: FactModel) -> bool {
    atom_fits(fact.subject) && short(fact.predicate) && atom_fits(fact.object)
}

pub open spec fn intent_atom_fits(atom: IntentAtomModel) -> bool {
    atom matches IntentAtomModel::Literal(literal) ==> short(literal)
}

pub open spec fn intent_fact_fits(fact: IntentFactModel) -> bool {
    intent_atom_fits(fact.subject) && short(fact.predicate) && intent_atom_fits(fact.object)
}

pub open spec fn precondition_fits(precondition: PreconditionModel) -> bool {
    match precondition {
        PreconditionModel::ExpectedWorld(_) => true,
        PreconditionModel::ExpectedSlot { slot, expected } => short(slot) && (expected matches Some(
            fact,
        ) ==> fact_fits(fact)),
    }
}

pub open spec fn step_fits(operation: IntentOperationModel) -> bool {
    match operation {
        IntentOperationModel::AllocateEntity { .. } => true,
        IntentOperationModel::Define { slot, fact } => short(slot) && intent_fact_fits(fact),
        IntentOperationModel::Forget { slot } => short(slot),
    }
}

pub open spec fn preconditions_fit(preconditions: Seq<PreconditionModel>) -> bool
    decreases preconditions.len(),
{
    preconditions.len() == 0 || (preconditions_fit(preconditions.drop_last()) && precondition_fits(
        preconditions.last(),
    ))
}

pub open spec fn steps_fit(operations: Seq<IntentOperationModel>) -> bool
    decreases operations.len(),
{
    operations.len() == 0 || (steps_fit(operations.drop_last()) && step_fits(operations.last()))
}

/// Every string and both lists have a length that four bytes can hold.
pub open spec fn intent_fits(intent: IntentModel) -> bool {
    &&& intent.preconditions.len() <= u32::MAX
    &&& intent.operations.len() <= u32::MAX
    &&& preconditions_fit(intent.preconditions)
    &&& steps_fit(intent.operations)
}

pub open spec fn taken_intent_text(bytes: Seq<u8>, at: int) -> Taken<Seq<char>> {
    taken_text(bytes, at, "intent string length overflow"@, "truncated intent string"@)
}

pub open spec fn taken_atom32(bytes: Seq<u8>, at: int) -> Taken<AtomModel> {
    match taken_u8(bytes, at) {
        Err(message) => Err(message),
        Ok((tag, next)) => if tag == 0 {
            match taken_u64(bytes, next) {
                Err(message) => Err(message),
                Ok((entity, end)) => Ok((AtomModel::Entity(entity), end)),
            }
        } else if tag == 1 {
            match taken_intent_text(bytes, next) {
                Err(message) => Err(message),
                Ok((literal, end)) => Ok((AtomModel::Literal(literal), end)),
            }
        } else {
            Err("invalid fact atom tag "@ + decimal(tag as nat))
        },
    }
}

pub open spec fn taken_fact32(bytes: Seq<u8>, at: int) -> Taken<FactModel> {
    match taken_atom32(bytes, at) {
        Err(message) => Err(message),
        Ok((subject, next)) => match taken_intent_text(bytes, next) {
            Err(message) => Err(message),
            Ok((predicate, after)) => match taken_atom32(bytes, after) {
                Err(message) => Err(message),
                Ok((object, end)) => Ok((FactModel { subject, predicate, object }, end)),
            },
        },
    }
}

pub open spec fn taken_temporary(bytes: Seq<u8>, at: int) -> Taken<TempEntity> {
    match taken_u64(bytes, at) {
        Err(message) => Err(message),
        Ok((namespace, next)) => match taken_u32(bytes, next) {
            Err(message) => Err(message),
            Ok((index, end)) => Ok((handle(namespace, index), end)),
        },
    }
}

pub open spec fn taken_intent_atom(bytes: Seq<u8>, at: int) -> Taken<IntentAtomModel> {
    match taken_u8(bytes, at) {
        Err(message) => Err(message),
        Ok((tag, next)) => if tag == 0 {
            match taken_u64(bytes, next) {
                Err(message) => Err(message),
                Ok((entity, end)) => Ok((IntentAtomModel::Entity(entity), end)),
            }
        } else if tag == 1 {
            match taken_temporary(bytes, next) {
                Err(message) => Err(message),
                Ok((temporary, end)) => Ok((IntentAtomModel::Temporary(temporary), end)),
            }
        } else if tag == 2 {
            match taken_intent_text(bytes, next) {
                Err(message) => Err(message),
                Ok((literal, end)) => Ok((IntentAtomModel::Literal(literal), end)),
            }
        } else {
            Err("invalid intent atom tag "@ + decimal(tag as nat))
        },
    }
}

pub open spec fn taken_intent_fact(bytes: Seq<u8>, at: int) -> Taken<IntentFactModel> {
    match taken_intent_atom(bytes, at) {
        Err(message) => Err(message),
        Ok((subject, next)) => match taken_intent_text(bytes, next) {
            Err(message) => Err(message),
            Ok((predicate, after)) => match taken_intent_atom(bytes, after) {
                Err(message) => Err(message),
                Ok((object, end)) => Ok((IntentFactModel { subject, predicate, object }, end)),
            },
        },
    }
}

pub open spec fn taken_expectation(bytes: Seq<u8>, at: int) -> Taken<Option<FactModel>> {
    match taken_u8(bytes, at) {
        Err(message) => Err(message),
        Ok((tag, next)) => if tag == 0 {
            Ok((None, next))
        } else if tag == 1 {
            match taken_fact32(bytes, next) {
                Err(message) => Err(message),
                Ok((fact, end)) => Ok((Some(fact), end)),
            }
        } else {
            Err("invalid expected-fact tag "@ + decimal(tag as nat))
        },
    }
}

pub open spec fn taken_precondition(bytes: Seq<u8>, at: int) -> Taken<PreconditionModel> {
    match taken_u8(bytes, at) {
        Err(message) => Err(message),
        Ok((tag, next)) => if tag == 0 {
            match taken_u64(bytes, next) {
                Err(message) => Err(message),
                Ok((world, end)) => Ok((PreconditionModel::ExpectedWorld(WorldId(world)), end)),
            }
        } else if tag == 1 {
            match taken_intent_text(bytes, next) {
                Err(message) => Err(message),
                Ok((slot, after)) => match taken_expectation(bytes, after) {
                    Err(message) => Err(message),
                    Ok((expected, end)) => Ok(
                        (PreconditionModel::ExpectedSlot { slot, expected }, end),
                    ),
                },
            }
        } else {
            Err("invalid intent precondition tag "@ + decimal(tag as nat))
        },
    }
}

pub open spec fn taken_step(bytes: Seq<u8>, at: int) -> Taken<IntentOperationModel> {
    match taken_u8(bytes, at) {
        Err(message) => Err(message),
        Ok((tag, next)) => if tag == 0 {
            match taken_temporary(bytes, next) {
                Err(message) => Err(message),
                Ok((temporary, end)) => Ok(
                    (IntentOperationModel::AllocateEntity { temporary }, end),
                ),
            }
        } else if tag == 1 {
            match taken_intent_text(bytes, next) {
                Err(message) => Err(message),
                Ok((slot, after)) => match taken_intent_fact(bytes, after) {
                    Err(message) => Err(message),
                    Ok((fact, end)) => Ok((IntentOperationModel::Define { slot, fact }, end)),
                },
            }
        } else if tag == 2 {
            match taken_intent_text(bytes, next) {
                Err(message) => Err(message),
                Ok((slot, end)) => Ok((IntentOperationModel::Forget { slot }, end)),
            }
        } else {
            Err("invalid intent operation tag "@ + decimal(tag as nat))
        },
    }
}

pub open spec fn taken_preconditions(bytes: Seq<u8>, at: int, count: nat) -> Taken<
    Seq<PreconditionModel>,
>
    decreases count,
{
    if count == 0 {
        Ok((Seq::empty(), at))
    } else {
        match taken_preconditions(bytes, at, (count - 1) as nat) {
            Err(message) => Err(message),
            Ok((list, next)) => match taken_precondition(bytes, next) {
                Err(message) => Err(message),
                Ok((precondition, end)) => Ok((list.push(precondition), end)),
            },
        }
    }
}

pub open spec fn taken_steps(bytes: Seq<u8>, at: int, count: nat) -> Taken<
    Seq<IntentOperationModel>,
>
    decreases count,
{
    if count == 0 {
        Ok((Seq::empty(), at))
    } else {
        match taken_steps(bytes, at, (count - 1) as nat) {
            Err(message) => Err(message),
            Ok((list, next)) => match taken_step(bytes, next) {
                Err(message) => Err(message),
                Ok((operation, end)) => Ok((list.push(operation), end)),
            },
        }
    }
}

/// Reads one intent.
#[verifier::opaque]
pub open spec fn taken_intent(bytes: Seq<u8>, at: int) -> Taken<IntentModel> {
    match taken_u64(bytes, at) {
        Err(message) => Err(message),
        Ok((namespace, a)) => match taken_u32(bytes, a) {
            Err(message) => Err(message),
            Ok((next_temporary, b)) => match taken_u32(bytes, b) {
                Err(message) => Err(message),
                Ok((precondition_count, c)) => match taken_preconditions(
                    bytes,
                    c,
                    precondition_count as nat,
                ) {
                    Err(message) => Err(message),
                    Ok((preconditions, d)) => match taken_u32(bytes, d) {
                        Err(message) => Err(message),
                        Ok((operation_count, e)) => match taken_steps(
                            bytes,
                            e,
                            operation_count as nat,
                        ) {
                            Err(message) => Err(message),
                            Ok((operations, end)) => Ok(
                                (
                                    IntentModel {
                                        namespace,
                                        next_temporary,
                                        preconditions,
                                        operations,
                                    },
                                    end,
                                ),
                            ),
                        },
                    },
                },
            },
        },
    }
}

proof fn intent_text_stands(bytes: Seq<u8>, at: int, text: Seq<char>, end: int)
    requires
        0 <= at,
        bytes.len() <= usize::MAX,
    ensures
        taken_intent_text(bytes, at) == Ok::<(Seq<char>, int), Seq<char>>((text, end)) <==> (short(
            text,
        ) && stands_at(bytes, at, text32(text)) && end == at + text32(text).len()),
{
    text32_stands(
        bytes,
        at,
        text,
        end,
        "intent string length overflow"@,
        "truncated intent string"@,
    );
}

pub proof fn atom32_stands(bytes: Seq<u8>, at: int, atom: AtomModel, end: int)
    requires
        0 <= at,
        bytes.len() <= usize::MAX,
    ensures
        taken_atom32(bytes, at) == Ok::<(AtomModel, int), Seq<char>>((atom, end)) <==> (atom_fits(
            atom,
        ) && stands_at(bytes, at, atom32_bytes(atom)) && end == at + atom32_bytes(atom).len()),
{
    match atom {
        AtomModel::Entity(entity) => {
            u8_stands(bytes, at, 0, at + 1);
            u64_stands(bytes, at + 1, entity, end);
            stands_at_split(bytes, at, seq![0u8], le64(entity));
        },
        AtomModel::Literal(literal) => {
            u8_stands(bytes, at, 1, at + 1);
            intent_text_stands(bytes, at + 1, literal, end);
            stands_at_split(bytes, at, seq![1u8], text32(literal));
        },
    }
}

pub proof fn fact32_stands(bytes: Seq<u8>, at: int, fact: FactModel, end: int)
    requires
        0 <= at,
        bytes.len() <= usize::MAX,
    ensures
        taken_fact32(bytes, at) == Ok::<(FactModel, int), Seq<char>>((fact, end)) <==> (fact_fits(
            fact,
        ) && stands_at(bytes, at, fact32_bytes(fact)) && end == at + fact32_bytes(fact).len()),
{
    let subject = atom32_bytes(fact.subject);
    let predicate = text32(fact.predicate);
    stands_at_split(bytes, at, subject, predicate + atom32_bytes(fact.object));
    stands_at_split(bytes, at + subject.len(), predicate, atom32_bytes(fact.object));
    atom32_stands(bytes, at, fact.subject, at + subject.len());
    intent_text_stands(
        bytes,
        at + subject.len(),
        fact.predicate,
        at + subject.len() + predicate.len(),
    );
    atom32_stands(bytes, at + subject.len() + predicate.len(), fact.object, end);
    if taken_fact32(bytes, at) == Ok::<(FactModel, int), Seq<char>>((fact, end)) {
        let next = taken_atom32(bytes, at)->Ok_0.1;
        atom32_stands(bytes, at, fact.subject, next);
        let after = taken_intent_text(bytes, next)->Ok_0.1;
        intent_text_stands(bytes, next, fact.predicate, after);
    }
}

proof fn temporary_stands(bytes: Seq<u8>, at: int, temporary: TempEntity, end: int)
    requires
        0 <= at,
    ensures
        taken_temporary(bytes, at) == Ok::<(TempEntity, int), Seq<char>>((temporary, end)) <==> (
        stands_at(bytes, at, temporary_bytes(temporary)) && end == at + temporary_bytes(
            temporary,
        ).len()),
        temporary_bytes(temporary).len() == 12,
{
    broadcast use handle_parts;

    handle_is(temporary);
    u64_stands(bytes, at, temporary.scope(), at + 8);
    u32_stands(bytes, at + 8, temporary.number(), end);
    stands_at_split(bytes, at, le64(temporary.scope()), le32(temporary.number()));
}

proof fn intent_atom_stands(bytes: Seq<u8>, at: int, atom: IntentAtomModel, end: int)
    requires
        0 <= at,
        bytes.len() <= usize::MAX,
    ensures
        taken_intent_atom(bytes, at) == Ok::<(IntentAtomModel, int), Seq<char>>((atom, end)) <==> (
        intent_atom_fits(atom) && stands_at(bytes, at, intent_atom_bytes(atom)) && end == at
            + intent_atom_bytes(atom).len()),
{
    match atom {
        IntentAtomModel::Entity(entity) => {
            u8_stands(bytes, at, 0, at + 1);
            u64_stands(bytes, at + 1, entity, end);
            stands_at_split(bytes, at, seq![0u8], le64(entity));
        },
        IntentAtomModel::Temporary(temporary) => {
            u8_stands(bytes, at, 1, at + 1);
            temporary_stands(bytes, at + 1, temporary, end);
            stands_at_split(bytes, at, seq![1u8], temporary_bytes(temporary));
        },
        IntentAtomModel::Literal(literal) => {
            u8_stands(bytes, at, 2, at + 1);
            intent_text_stands(bytes, at + 1, literal, end);
            stands_at_split(bytes, at, seq![2u8], text32(literal));
        },
    }
}

proof fn intent_fact_stands(bytes: Seq<u8>, at: int, fact: IntentFactModel, end: int)
    requires
        0 <= at,
        bytes.len() <= usize::MAX,
    ensures
        taken_intent_fact(bytes, at) == Ok::<(IntentFactModel, int), Seq<char>>((fact, end)) <==> (
        intent_fact_fits(fact) && stands_at(bytes, at, intent_fact_bytes(fact)) && end == at
            + intent_fact_bytes(fact).len()),
{
    let subject = intent_atom_bytes(fact.subject);
    let predicate = text32(fact.predicate);
    stands_at_split(bytes, at, subject, predicate + intent_atom_bytes(fact.object));
    stands_at_split(bytes, at + subject.len(), predicate, intent_atom_bytes(fact.object));
    intent_atom_stands(bytes, at, fact.subject, at + subject.len());
    intent_text_stands(
        bytes,
        at + subject.len(),
        fact.predicate,
        at + subject.len() + predicate.len(),
    );
    intent_atom_stands(bytes, at + subject.len() + predicate.len(), fact.object, end);
    if taken_intent_fact(bytes, at) == Ok::<(IntentFactModel, int), Seq<char>>((fact, end)) {
        let next = taken_intent_atom(bytes, at)->Ok_0.1;
        intent_atom_stands(bytes, at, fact.subject, next);
        let after = taken_intent_text(bytes, next)->Ok_0.1;
        intent_text_stands(bytes, next, fact.predicate, after);
    }
}

pub open spec fn expectation_bytes(expected: Option<FactModel>) -> Seq<u8> {
    match expected {
        Some(fact) => seq![1u8] + fact32_bytes(fact),
        None => seq![0u8],
    }
}

proof fn expectation_stands(bytes: Seq<u8>, at: int, expected: Option<FactModel>, end: int)
    requires
        0 <= at,
        bytes.len() <= usize::MAX,
    ensures
        taken_expectation(bytes, at) == Ok::<(Option<FactModel>, int), Seq<char>>((expected, end))
            <==> ((expected matches Some(fact) ==> fact_fits(fact)) && stands_at(
            bytes,
            at,
            expectation_bytes(expected),
        ) && end == at + expectation_bytes(expected).len()),
{
    match expected {
        Some(fact) => {
            u8_stands(bytes, at, 1, at + 1);
            fact32_stands(bytes, at + 1, fact, end);
            stands_at_split(bytes, at, seq![1u8], fact32_bytes(fact));
        },
        None => {
            u8_stands(bytes, at, 0, at + 1);
        },
    }
}

proof fn precondition_stands(
    bytes: Seq<u8>,
    at: int,
    precondition: PreconditionModel,
    end: int,
)
    requires
        0 <= at,
        bytes.len() <= usize::MAX,
    ensures
        taken_precondition(bytes, at) == Ok::<(PreconditionModel, int), Seq<char>>(
            (precondition, end),
        ) <==> (precondition_fits(precondition) && stands_at(
            bytes,
            at,
            precondition_bytes(precondition),
        ) && end == at + precondition_bytes(precondition).len()),
{
    match precondition {
        PreconditionModel::ExpectedWorld(world) => {
            u8_stands(bytes, at, 0, at + 1);
            u64_stands(bytes, at + 1, world.0, end);
            stands_at_split(bytes, at, seq![0u8], le64(world.0));
        },
        PreconditionModel::ExpectedSlot { slot, expected } => {
            let name = text32(slot);
            let rest = expectation_bytes(expected);
            assert(precondition_bytes(precondition) == seq![1u8] + (name + rest));
            u8_stands(bytes, at, 1, at + 1);
            stands_at_split(bytes, at, seq![1u8], name + rest);
            stands_at_split(bytes, at + 1, name, rest);
            intent_text_stands(bytes, at + 1, slot, at + 1 + name.len());
            expectation_stands(bytes, at + 1 + name.len(), expected, end);
            if taken_precondition(bytes, at) == Ok::<(PreconditionModel, int), Seq<char>>(
                (precondition, end),
            ) {
                let after = taken_intent_text(bytes, at + 1)->Ok_0.1;
                intent_text_stands(bytes, at + 1, slot, after);
            }
        },
    }
}

proof fn step_stands(bytes: Seq<u8>, at: int, operation: IntentOperationModel, end: int)
    requires
        0 <= at,
        bytes.len() <= usize::MAX,
    ensures
        taken_step(bytes, at) == Ok::<(IntentOperationModel, int), Seq<char>>((operation, end))
            <==> (step_fits(operation) && stands_at(bytes, at, step_bytes(operation)) && end == at
            + step_bytes(operation).len()),
{
    match operation {
        IntentOperationModel::AllocateEntity { temporary } => {
            u8_stands(bytes, at, 0, at + 1);
            temporary_stands(bytes, at + 1, temporary, end);
            stands_at_split(bytes, at, seq![0u8], temporary_bytes(temporary));
        },
        IntentOperationModel::Define { slot, fact } => {
            let name = text32(slot);
            let rest = intent_fact_bytes(fact);
            u8_stands(bytes, at, 1, at + 1);
            stands_at_split(bytes, at, seq![1u8], name + rest);
            stands_at_split(bytes, at + 1, name, rest);
            intent_text_stands(bytes, at + 1, slot, at + 1 + name.len());
            intent_fact_stands(bytes, at + 1 + name.len(), fact, end);
            if taken_step(bytes, at) == Ok::<(IntentOperationModel, int), Seq<char>>(
                (operation, end),
            ) {
                let after = taken_intent_text(bytes, at + 1)->Ok_0.1;
                intent_text_stands(bytes, at + 1, slot, after);
            }
        },
        IntentOperationModel::Forget { slot } => {
            u8_stands(bytes, at, 2, at + 1);
            intent_text_stands(bytes, at + 1, slot, end);
            stands_at_split(bytes, at, seq![2u8], text32(slot));
        },
    }
}

proof fn preconditions_stand(
    bytes: Seq<u8>,
    at: int,
    list: Seq<PreconditionModel>,
    end: int,
)
    requires
        0 <= at <= bytes.len(),
        bytes.len() <= usize::MAX,
    ensures
        taken_preconditions(bytes, at, list.len()) == Ok::<
            (Seq<PreconditionModel>, int),
            Seq<char>,
        >((list, end)) <==> (preconditions_fit(list) && stands_at(
            bytes,
            at,
            preconditions_bytes(list),
        ) && end == at + preconditions_bytes(list).len()),
    decreases list.len(),
{
    if list.len() == 0 {
        assert(list =~= Seq::empty());
        assert(bytes.subrange(at, at) =~= preconditions_bytes(list));
    } else {
        let front = list.drop_last();
        let first = preconditions_bytes(front);
        assert(front.push(list.last()) =~= list);
        preconditions_stand(bytes, at, front, at + first.len());
        stands_at_split(bytes, at, first, precondition_bytes(list.last()));
        precondition_stands(bytes, at + first.len(), list.last(), end);
        if taken_preconditions(bytes, at, list.len()) == Ok::<
            (Seq<PreconditionModel>, int),
            Seq<char>,
        >((list, end)) {
            let taken = taken_preconditions(bytes, at, front.len())->Ok_0;
            assert(taken.0.push(taken_precondition(bytes, taken.1)->Ok_0.0).drop_last()
                =~= taken.0);
            preconditions_stand(bytes, at, front, taken.1);
        }
    }
}

proof fn steps_stand(bytes: Seq<u8>, at: int, list: Seq<IntentOperationModel>, end: int)
    requires
        0 <= at <= bytes.len(),
        bytes.len() <= usize::MAX,
    ensures
        taken_steps(bytes, at, list.len()) == Ok::<(Seq<IntentOperationModel>, int), Seq<char>>(
            (list, end),
        ) <==> (steps_fit(list) && stands_at(bytes, at, steps_bytes(list)) && end == at
            + steps_bytes(list).len()),
    decreases list.len(),
{
    if list.len() == 0 {
        assert(list =~= Seq::empty());
        assert(bytes.subrange(at, at) =~= steps_bytes(list));
    } else {
        let front = list.drop_last();
        let first = steps_bytes(front);
        assert(front.push(list.last()) =~= list);
        steps_stand(bytes, at, front, at + first.len());
        stands_at_split(bytes, at, first, step_bytes(list.last()));
        step_stands(bytes, at + first.len(), list.last(), end);
        if taken_steps(bytes, at, list.len()) == Ok::<
            (Seq<IntentOperationModel>, int),
            Seq<char>,
        >((list, end)) {
            let taken = taken_steps(bytes, at, front.len())->Ok_0;
            assert(taken.0.push(taken_step(bytes, taken.1)->Ok_0.0).drop_last() =~= taken.0);
            steps_stand(bytes, at, front, taken.1);
        }
    }
}

proof fn taken_lengths(bytes: Seq<u8>, at: int, count: nat)
    ensures
        taken_preconditions(bytes, at, count) matches Ok((list, end)) ==> list.len() == count
            && at <= end && (at <= bytes.len() ==> end <= bytes.len()),
        taken_steps(bytes, at, count) matches Ok((list, end)) ==> list.len() == count && at <= end
            && (at <= bytes.len() ==> end <= bytes.len()),
    decreases count,
{
    if count > 0 {
        taken_lengths(bytes, at, (count - 1) as nat);
    }
}

/// An intent is read at a position exactly when it fits the format and its bytes stand there.
pub proof fn intent_stands(bytes: Seq<u8>, at: int, intent: IntentModel, end: int)
    requires
        0 <= at,
        bytes.len() <= usize::MAX,
    ensures
        taken_intent(bytes, at) == Ok::<(IntentModel, int), Seq<char>>((intent, end)) <==> (
        intent_fits(intent) && stands_at(bytes, at, intent_bytes(intent)) && end == at
            + intent_bytes(intent).len()),
{
    reveal(taken_intent);
    let before = intent.preconditions;
    let after = intent.operations;
    let p = preconditions_bytes(before);
    let q = steps_bytes(after);
    let np = before.len() as u32;
    let nq = after.len() as u32;
    u64_stands(bytes, at, intent.namespace, at + 8);
    u32_stands(bytes, at + 8, intent.next_temporary, at + 12);
    u32_stands(bytes, at + 12, np, at + 16);
    u32_stands(bytes, at + 16 + p.len(), nq, at + 20 + p.len());
    let t4 = le32(nq) + q;
    let t3 = p + t4;
    let t2 = le32(np) + t3;
    let t1 = le32(intent.next_temporary) + t2;
    assert(intent_bytes(intent) == le64(intent.namespace) + t1);
    stands_at_split(bytes, at, le64(intent.namespace), t1);
    stands_at_split(bytes, at + 8, le32(intent.next_temporary), t2);
    stands_at_split(bytes, at + 12, le32(np), t3);
    stands_at_split(bytes, at + 16, p, t4);
    stands_at_split(bytes, at + 16 + p.len(), le32(nq), q);
    if at + 16 <= bytes.len() {
        preconditions_stand(bytes, at + 16, before, at + 16 + p.len());
    }
    if at + 20 + p.len() <= bytes.len() {
        steps_stand(bytes, at + 20 + p.len(), after, end);
    }
    if taken_intent(bytes, at) == Ok::<(IntentModel, int), Seq<char>>((intent, end)) {
        let count = u32_at(bytes, at + 12);
        taken_lengths(bytes, at + 16, count as nat);
        let d = taken_preconditions(bytes, at + 16, count as nat)->Ok_0.1;
        preconditions_stand(bytes, at + 16, before, d);
        taken_lengths(bytes, d + 4, u32_at(bytes, d) as nat);
    }
}

fn put_atom32(out: &mut Vec<u8>, atom: &Atom)
    ensures
        final(out)@ == old(out)@ + atom32_bytes(atom@),
{
    match atom {
        Atom::Entity(entity) => {
            put_byte(out, 0);
            put_u64(out, entity.0);
        },
        Atom::Literal(literal) => {
            put_byte(out, 1);
            put_text32(out, literal.as_str());
        },
    }
    proof {
        assert(out@ =~= old(out)@ + atom32_bytes(atom@));
    }
}

pub(crate) fn put_fact32(out: &mut Vec<u8>, fact: &Fact)
    ensures
        final(out)@ == old(out)@ + fact32_bytes(fact@),
{
    put_atom32(out, &fact.subject);
    put_text32(out, fact.predicate.as_str());
    put_atom32(out, &fact.object);
    proof {
        assert(out@ =~= old(out)@ + fact32_bytes(fact@));
    }
}

fn put_temporary(out: &mut Vec<u8>, temporary: TempEntity)
    ensures
        final(out)@ == old(out)@ + temporary_bytes(temporary),
{
    put_u64(out, temporary.namespace());
    put_u32(out, temporary.index());
    proof {
        assert(out@ =~= old(out)@ + temporary_bytes(temporary));
    }
}

fn put_intent_atom(out: &mut Vec<u8>, atom: &IntentAtom)
    ensures
        final(out)@ == old(out)@ + intent_atom_bytes(atom@),
{
    match atom {
        IntentAtom::Entity(entity) => {
            put_byte(out, 0);
            put_u64(out, entity.0);
        },
        IntentAtom::Temporary(temporary) => {
            put_byte(out, 1);
            put_temporary(out, *temporary);
        },
        IntentAtom::Literal(literal) => {
            put_byte(out, 2);
            put_text32(out, literal.as_str());
        },
    }
    proof {
        assert(out@ =~= old(out)@ + intent_atom_bytes(atom@));
    }
}

fn put_intent_fact(out: &mut Vec<u8>, fact: &IntentFact)
    ensures
        final(out)@ == old(out)@ + intent_fact_bytes(fact@),
{
    put_intent_atom(out, &fact.subject);
    put_text32(out, fact.predicate.as_str());
    put_intent_atom(out, &fact.object);
    proof {
        assert(out@ =~= old(out)@ + intent_fact_bytes(fact@));
    }
}

fn put_precondition(out: &mut Vec<u8>, precondition: &IntentPrecondition)
    ensures
        final(out)@ == old(out)@ + precondition_bytes(precondition@),
{
    match precondition {
        IntentPrecondition::ExpectedWorld(world) => {
            put_byte(out, 0);
            put_u64(out, world.0);
        },
        IntentPrecondition::ExpectedSlot { slot, expected } => {
            put_byte(out, 1);
            put_text32(out, slot.as_str());
            match expected {
                Some(fact) => {
                    put_byte(out, 1);
                    put_fact32(out, fact);
                },
                None => {
                    put_byte(out, 0);
                },
            }
        },
    }
    proof {
        assert(out@ =~= old(out)@ + precondition_bytes(precondition@));
    }
}

fn put_step(out: &mut Vec<u8>, operation: &IntentOperation)
    ensures
        final(out)@ == old(out)@ + step_bytes(operation@),
{
    match operation {
        IntentOperation::AllocateEntity { temporary } => {
            put_byte(out, 0);
            put_temporary(out, *temporary);
        },
        IntentOperation::Define { slot, fact } => {
            put_byte(out, 1);
            put_text32(out, slot.as_str());
            put_intent_fact(out, fact);
        },
        IntentOperation::Forget { slot } => {
            put_byte(out, 2);
            put_text32(out, slot.as_str());
        },
    }
    proof {
        assert(out@ =~= old(out)@ + step_bytes(operation@));
    }
}

/// Appends an intent.
pub fn encode_queued_intent(intent: &QueuedIntent, out: &mut Vec<u8>)
    ensures
        final(out)@ == old(out)@ + intent_bytes(intent@),
{
    put_u64(out, intent.namespace());
    put_u32(out, intent.next_temporary());
    let preconditions = intent.preconditions();
    put_u32(out, preconditions.len() as u32);
    let ghost demands = views(preconditions@);
    let ghost head = out@;
    let mut index: usize = 0;
    proof {
        assert(demands.take(0) =~= Seq::empty());
        assert(out@ =~= head + preconditions_bytes(demands.take(0)));
    }
    while index < preconditions.len()
        invariant
            index <= preconditions.len(),
            demands == views(preconditions@),
            out@ == head + preconditions_bytes(demands.take(index as int)),
        decreases preconditions.len() - index,
    {
        put_precondition(out, &preconditions[index]);
        index += 1;
        proof {
            let done = demands.take(index as int);
            assert(done.drop_last() =~= demands.take(index - 1));
            assert(out@ =~= head + preconditions_bytes(done));
        }
    }
    proof {
        assert(demands.take(index as int) =~= demands);
    }
    let operations = intent.operations();
    put_u32(out, operations.len() as u32);
    let ghost steps = views(operations@);
    let ghost body = out@;
    let mut place: usize = 0;
    proof {
        assert(steps.take(0) =~= Seq::empty());
        assert(out@ =~= body + steps_bytes(steps.take(0)));
    }
    while place < operations.len()
        invariant
            place <= operations.len(),
            steps == views(operations@),
            out@ == body + steps_bytes(steps.take(place as int)),
        decreases operations.len() - place,
    {
        put_step(out, &operations[place]);
        place += 1;
        proof {
            let done = steps.take(place as int);
            assert(done.drop_last() =~= steps.take(place - 1));
            assert(out@ =~= body + steps_bytes(done));
        }
    }
    proof {
        assert(steps.take(place as int) =~= steps);
        assert(out@ =~= old(out)@ + intent_bytes(intent@));
    }
}

fn take_intent_text(bytes: &[u8], at: usize) -> (result: Result<(String, usize), String>)
    requires
        at <= bytes.len(),
    ensures
        takes(result, taken_intent_text(bytes@, at as int), bytes@),
{
    take_text(bytes, at, "intent string length overflow", "truncated intent string")
}

fn take_atom32(bytes: &[u8], at: usize) -> (result: Result<(Atom, usize), String>)
    requires
        at <= bytes.len(),
    ensures
        takes(result, taken_atom32(bytes@, at as int), bytes@),
{
    let (tag, next) = take_u8(bytes, at)?;
    if tag == 0 {
        let (entity, end) = take_u64(bytes, next)?;
        Ok((Atom::Entity(EntityId(entity)), end))
    } else if tag == 1 {
        let (literal, end) = take_intent_text(bytes, next)?;
        Ok((Atom::Literal(Literal::from_text(literal)), end))
    } else {
        Err(labelled("invalid fact atom tag ", tag as u64))
    }
}

fn take_fact32(bytes: &[u8], at: usize) -> (result: Result<(Fact, usize), String>)
    requires
        at <= bytes.len(),
    ensures
        takes(result, taken_fact32(bytes@, at as int), bytes@),
{
    let (subject, next) = take_atom32(bytes, at)?;
    let (predicate, after) = take_intent_text(bytes, next)?;
    let (object, end) = take_atom32(bytes, after)?;
    Ok((Fact::new(subject, Predicate::from_text(predicate), object), end))
}

fn take_temporary(bytes: &[u8], at: usize) -> (result: Result<(TempEntity, usize), String>)
    requires
        at <= bytes.len(),
    ensures
        match (result, taken_temporary(bytes@, at as int)) {
            (Ok((temporary, next)), Ok((model, end))) => temporary == model && next == end && next
                <= bytes.len(),
            (Err(message), Err(model)) => message@ == model,
            _ => false,
        },
{
    let (namespace, next) = take_u64(bytes, at)?;
    let (index, end) = take_u32(bytes, next)?;
    Ok((TempEntity::new(namespace, index), end))
}

fn take_intent_atom(bytes: &[u8], at: usize) -> (result: Result<(IntentAtom, usize), String>)
    requires
        at <= bytes.len(),
    ensures
        takes(result, taken_intent_atom(bytes@, at as int), bytes@),
{
    let (tag, next) = take_u8(bytes, at)?;
    if tag == 0 {
        let (entity, end) = take_u64(bytes, next)?;
        Ok((IntentAtom::Entity(EntityId(entity)), end))
    } else if tag == 1 {
        let (temporary, end) = take_temporary(bytes, next)?;
        Ok((IntentAtom::Temporary(temporary), end))
    } else if tag == 2 {
        let (literal, end) = take_intent_text(bytes, next)?;
        Ok((IntentAtom::Literal(Literal::from_text(literal)), end))
    } else {
        Err(labelled("invalid intent atom tag ", tag as u64))
    }
}

fn take_intent_fact(bytes: &[u8], at: usize) -> (result: Result<(IntentFact, usize), String>)
    requires
        at <= bytes.len(),
    ensures
        takes(result, taken_intent_fact(bytes@, at as int), bytes@),
{
    let (subject, next) = take_intent_atom(bytes, at)?;
    let (predicate, after) = take_intent_text(bytes, next)?;
    let (object, end) = take_intent_atom(bytes, after)?;
    Ok((IntentFact { subject, predicate: Predicate::from_text(predicate), object }, end))
}

fn take_precondition(bytes: &[u8], at: usize) -> (result: Result<
    (IntentPrecondition, usize),
    String,
>)
    requires
        at <= bytes.len(),
    ensures
        takes(result, taken_precondition(bytes@, at as int), bytes@),
{
    let (tag, next) = take_u8(bytes, at)?;
    if tag == 0 {
        let (world, end) = take_u64(bytes, next)?;
        Ok((IntentPrecondition::ExpectedWorld(WorldId(world)), end))
    } else if tag == 1 {
        let (slot, after) = take_intent_text(bytes, next)?;
        let slot = SlotId::from_text(slot);
        let (kind, behind) = take_u8(bytes, after)?;
        if kind == 0 {
            Ok((IntentPrecondition::ExpectedSlot { slot, expected: None }, behind))
        } else if kind == 1 {
            let (fact, end) = take_fact32(bytes, behind)?;
            Ok((IntentPrecondition::ExpectedSlot { slot, expected: Some(fact) }, end))
        } else {
            Err(labelled("invalid expected-fact tag ", kind as u64))
        }
    } else {
        Err(labelled("invalid intent precondition tag ", tag as u64))
    }
}

fn take_step(bytes: &[u8], at: usize) -> (result: Result<(IntentOperation, usize), String>)
    requires
        at <= bytes.len(),
    ensures
        takes(result, taken_step(bytes@, at as int), bytes@),
{
    let (tag, next) = take_u8(bytes, at)?;
    if tag == 0 {
        let (temporary, end) = take_temporary(bytes, next)?;
        Ok((IntentOperation::AllocateEntity { temporary }, end))
    } else if tag == 1 {
        let (slot, after) = take_intent_text(bytes, next)?;
        let (fact, end) = take_intent_fact(bytes, after)?;
        Ok((IntentOperation::Define { slot: SlotId::from_text(slot), fact }, end))
    } else if tag == 2 {
        let (slot, end) = take_intent_text(bytes, next)?;
        Ok((IntentOperation::Forget { slot: SlotId::from_text(slot) }, end))
    } else {
        Err(labelled("invalid intent operation tag ", tag as u64))
    }
}

proof fn precondition_fault_stays(bytes: Seq<u8>, at: int, some: nat, count: nat)
    requires
        some <= count,
        taken_preconditions(bytes, at, some) is Err,
    ensures
        taken_preconditions(bytes, at, count) == taken_preconditions(bytes, at, some),
    decreases count,
{
    if some < count {
        precondition_fault_stays(bytes, at, some, (count - 1) as nat);
    }
}

proof fn step_fault_stays(bytes: Seq<u8>, at: int, some: nat, count: nat)
    requires
        some <= count,
        taken_steps(bytes, at, some) is Err,
    ensures
        taken_steps(bytes, at, count) == taken_steps(bytes, at, some),
    decreases count,
{
    if some < count {
        step_fault_stays(bytes, at, some, (count - 1) as nat);
    }
}

/// `views` of a list that was read, with the position behind it.
spec fn takes_list<T: View>(
    result: Result<(Vec<T>, usize), String>,
    expected: Taken<Seq<T::V>>,
    bytes: Seq<u8>,
) -> bool {
    match (result, expected) {
        (Ok((list, next)), Ok((models, end))) => views(list@) == models && next == end && next
            <= bytes.len(),
        (Err(message), Err(model)) => message@ == model,
        _ => false,
    }
}

fn take_preconditions(bytes: &[u8], at: usize, count: u32) -> (result: Result<
    (Vec<IntentPrecondition>, usize),
    String,
>)
    requires
        at <= bytes.len(),
    ensures
        takes_list(result, taken_preconditions(bytes@, at as int, count as nat), bytes@),
{
    let mut list: Vec<IntentPrecondition> = Vec::new();
    let mut next: usize = at;
    let mut index: u32 = 0;
    proof {
        assert(views(list@) =~= Seq::empty());
    }
    while index < count
        invariant
            index <= count,
            next <= bytes.len(),
            taken_preconditions(bytes@, at as int, index as nat) == Ok::<
                (Seq<PreconditionModel>, int),
                Seq<char>,
            >((views(list@), next as int)),
        decreases count - index,
    {
        match take_precondition(bytes, next) {
            Ok((precondition, end)) => {
                proof {
                    views_push(list@, precondition);
                }
                list.push(precondition);
                next = end;
            },
            Err(message) => {
                proof {
                    precondition_fault_stays(bytes@, at as int, (index + 1) as nat, count as nat);
                }
                return Err(message);
            },
        }
        index += 1;
    }
    Ok((list, next))
}

fn take_steps(bytes: &[u8], at: usize, count: u32) -> (result: Result<
    (Vec<IntentOperation>, usize),
    String,
>)
    requires
        at <= bytes.len(),
    ensures
        takes_list(result, taken_steps(bytes@, at as int, count as nat), bytes@),
{
    let mut list: Vec<IntentOperation> = Vec::new();
    let mut next: usize = at;
    let mut index: u32 = 0;
    proof {
        assert(views(list@) =~= Seq::empty());
    }
    while index < count
        invariant
            index <= count,
            next <= bytes.len(),
            taken_steps(bytes@, at as int, index as nat) == Ok::<
                (Seq<IntentOperationModel>, int),
                Seq<char>,
            >((views(list@), next as int)),
        decreases count - index,
    {
        match take_step(bytes, next) {
            Ok((operation, end)) => {
                proof {
                    views_push(list@, operation);
                }
                list.push(operation);
                next = end;
            },
            Err(message) => {
                proof {
                    step_fault_stays(bytes@, at as int, (index + 1) as nat, count as nat);
                }
                return Err(message);
            },
        }
        index += 1;
    }
    Ok((list, next))
}

/// Reads an intent; `namespaces` will not hand out its namespace again.
pub fn decode_queued_intent(
    bytes: &[u8],
    at: usize,
    namespaces: &mut IntentNamespaces,
) -> (result: Result<(QueuedIntent, usize), String>)
    requires
        at <= bytes.len(),
    ensures
        takes(result, taken_intent(bytes@, at as int), bytes@),
        result matches Ok((intent, _)) ==> final(namespaces).upcoming() == observed(
            old(namespaces).upcoming(),
            intent@.namespace,
        ),
        result is Err ==> final(namespaces).upcoming() == old(namespaces).upcoming(),
{
    proof {
        reveal(taken_intent);
    }
    let (namespace, a) = take_u64(bytes, at)?;
    let (next_temporary, b) = take_u32(bytes, a)?;
    let (precondition_count, c) = take_u32(bytes, b)?;
    let (preconditions, d) = take_preconditions(bytes, c, precondition_count)?;
    let (operation_count, e) = take_u32(bytes, d)?;
    let (operations, end) = take_steps(bytes, e, operation_count)?;
    namespaces.observe(namespace);
    Ok((QueuedIntent::assemble(namespace, next_temporary, preconditions, operations), end))
}

} // verus!
