//! What instructions of a stream mean for the intent that is read from it.

use crate::fact::{Atom, AtomModel, Literal};
use crate::frame::WorldId;
use crate::intent::{
    IntentAtomModel, IntentFactModel, IntentOperationModel, PreconditionModel, handle,
};
use crate::stream::{DictionaryModel, NameModel, StreamModel};
use crate::stream_intents::{
    LiftModel, StackModel, intent_lifted, lift_run, lift_run_concat, lift_step, lifted_atom,
    lifted_predicate, looked_up, settled_atom, settled_fact,
};
use crate::text::decimal;
use crate::vm::{Instruction, Opcode};
use vstd::prelude::*;

verus! {

/// A name of a dictionary is that of the last entry with its number, and there is none exactly if no
/// entry has it.
pub proof fn last_names_count(entries: Seq<NameModel>, number: u64)
    ensures
        match looked_up(entries, number) {
            Some(name) => exists|i: int|
                0 <= i < entries.len() && (#[trigger] entries[i]).number == number
                    && entries[i].name == name && forall|j: int|
                    i < j < entries.len() ==> (#[trigger] entries[j]).number != number,
            None => forall|i: int|
                0 <= i < entries.len() ==> (#[trigger] entries[i]).number != number,
        },
    decreases entries.len(),
{
    if entries.len() > 0 {
        let front = entries.drop_last();
        let last = entries.len() - 1;
        last_names_count(front, number);
        assert(entries[last] == entries.last());
        if entries.last().number != number {
            match looked_up(front, number) {
                Some(name) => {
                    let i = choose|i: int|
                        0 <= i < front.len() && (#[trigger] front[i]).number == number
                            && front[i].name == name && forall|j: int|
                            i < j < front.len() ==> (#[trigger] front[j]).number != number;
                    assert(entries[i] == front[i]);
                    assert forall|j: int| i < j < entries.len() implies (
                    #[trigger] entries[j]).number != number by {
                        if j < last {
                            assert(entries[j] == front[j]);
                        }
                    }
                },
                None => {
                    assert forall|i: int| 0 <= i < entries.len() implies (
                    #[trigger] entries[i]).number != number by {
                        if i < last {
                            assert(entries[i] == front[i]);
                        }
                    }
                },
            }
        }
    }
}

/// What an instruction adds to the intent: an allocation the next temporary entity; a definition, a
/// forgetting and an expectation what they say of the slot that the dictionary names, with the three
/// topmost entries as subject, predicate and object; nothing else adds anything, and nothing that was
/// there is taken away. A slot that the dictionary does not name is refused.
pub proof fn instructions_add_what_they_say(
    dictionary: DictionaryModel,
    state: LiftModel,
    instruction: Instruction,
)
    requires
        state.intent.next_temporary < u32::MAX,
    ensures
        ({
            let intent = state.intent;
            let slot = looked_up(dictionary.slots, instruction.argument as u64);
            let deep = state.stack.len() >= 3;
            let top = state.stack.len() as int;
            let step = lift_step(dictionary, state, instruction);
            match instruction.opcode {
                Opcode::Allocate | Opcode::AllocateDiscard => {
                    &&& step matches Ok(after)
                    &&& after.stack == state.stack
                    &&& after.intent.namespace == intent.namespace
                    &&& after.intent.next_temporary == intent.next_temporary + 1
                    &&& after.intent.preconditions == intent.preconditions
                    &&& after.intent.operations.len() == intent.operations.len() + 1
                    &&& after.intent.operations.drop_last() == intent.operations
                    &&& after.intent.operations.last() == (IntentOperationModel::AllocateEntity {
                        temporary: handle(intent.namespace, intent.next_temporary),
                    })
                },
                Opcode::PushCell => step matches Ok(after) && after.intent == intent && after.stack
                    == state.stack.push(StackModel::Cell(instruction.immediate)),
                Opcode::LoadLocal => step matches Ok(after) && after.intent == intent && after.stack
                    == state.stack.push(
                    StackModel::Atom(
                        IntentAtomModel::Temporary(
                            handle(intent.namespace, instruction.argument),
                        ),
                    ),
                ),
                Opcode::Define => {
                    &&& !deep ==> step == Ok::<LiftModel, Seq<char>>(state)
                    &&& deep && slot is None ==> step is Err
                    &&& deep && slot is Some ==> (step matches Ok(after) && after.stack
                        == state.stack.take(top - 3) && after.intent.preconditions
                        == intent.preconditions && after.intent.next_temporary
                        == intent.next_temporary && after.intent.operations.len()
                        == intent.operations.len() + 1 && after.intent.operations.drop_last()
                        == intent.operations && after.intent.operations.last() == (
                    IntentOperationModel::Define {
                        slot: slot->Some_0,
                        fact: IntentFactModel {
                            subject: lifted_atom(dictionary, state.stack[top - 3]),
                            predicate: lifted_predicate(dictionary, state.stack[top - 2]),
                            object: lifted_atom(dictionary, state.stack[top - 1]),
                        },
                    }))
                },
                Opcode::Forget => {
                    &&& slot is None ==> step is Err
                    &&& slot is Some ==> (step matches Ok(after) && after.stack == state.stack
                        && after.intent.preconditions == intent.preconditions
                        && after.intent.operations.len() == intent.operations.len() + 1
                        && after.intent.operations.drop_last() == intent.operations
                        && after.intent.operations.last() == (IntentOperationModel::Forget {
                        slot: slot->Some_0,
                    }))
                },
                Opcode::ExpectObject => if instruction.argument == 0xffff_ffff {
                    step matches Ok(after) && after.stack == state.stack && after.intent.operations
                        == intent.operations && after.intent.preconditions
                        == intent.preconditions.push(
                        PreconditionModel::ExpectedWorld(WorldId(instruction.immediate)),
                    )
                } else {
                    &&& slot is None ==> step is Err
                    &&& slot is Some && instruction.immediate == 0 ==> (step matches Ok(after)
                        && after.stack == state.stack && after.intent.operations
                        == intent.operations && after.intent.preconditions
                        == intent.preconditions.push(
                        PreconditionModel::ExpectedSlot { slot: slot->Some_0, expected: None },
                    ))
                    &&& slot is Some && instruction.immediate != 0 && deep ==> (step matches Ok(
                        after,
                    ) && after.stack == state.stack.take(top - 3) && after.intent.operations
                        == intent.operations && after.intent.preconditions.len()
                        == intent.preconditions.len() + 1 && (
                    after.intent.preconditions.last() matches PreconditionModel::ExpectedSlot {
                        slot: own,
                        expected: Some(fact),
                    } && own == slot->Some_0 && fact.predicate == lifted_predicate(
                        dictionary,
                        state.stack[top - 2],
                    ) && fact.subject == settled_atom(
                        lifted_atom(dictionary, state.stack[top - 3]),
                    ) && fact.object == settled_atom(
                        lifted_atom(dictionary, state.stack[top - 1]),
                    )))
                    &&& slot is Some && instruction.immediate != 0 && !deep ==> step == Ok::<
                        LiftModel,
                        Seq<char>,
                    >(state)
                },
                Opcode::StoreLocal | Opcode::Reject => step == Ok::<LiftModel, Seq<char>>(state),
            }
        }),
{
    let intent = state.intent;
    if let Ok(after) = lift_step(dictionary, state, instruction) {
        if after.intent.operations.len() > intent.operations.len() {
            assert(after.intent.operations.drop_last() =~= intent.operations);
        }
    }
}

/// What a stack entry stands for: a small cell the entity of that number, a cell of a literal the
/// literal that the dictionary names, and an atom itself.
pub proof fn entries_stand_for_atoms(dictionary: DictionaryModel, cell: u64, atom: IntentAtomModel)
    ensures
        lifted_atom(dictionary, StackModel::Atom(atom)) == atom,
        cell < 0x8000_0000_0000_0000 ==> lifted_atom(dictionary, StackModel::Cell(cell))
            == IntentAtomModel::Entity(cell),
        cell >= 0x8000_0000_0000_0000 ==> lifted_atom(dictionary, StackModel::Cell(cell))
            == match looked_up(dictionary.literals, cell) {
            Some(literal) => IntentAtomModel::Literal(literal),
            None => IntentAtomModel::Literal("lit_"@ + decimal(cell as nat)),
        },
        lifted_predicate(dictionary, StackModel::Cell(cell)) == match looked_up(
            dictionary.predicates,
            cell,
        ) {
            Some(predicate) => predicate,
            None => "pred_"@ + decimal(cell as nat),
        },
        atom matches IntentAtomModel::Literal(literal) ==> lifted_predicate(
            dictionary,
            StackModel::Atom(atom),
        ) == literal,
{
}

/// A stream is read instruction by instruction from its first, from an intent of its namespace that
/// has nothing, up to the first instruction that is refused.
pub proof fn streams_are_read_in_order(
    dictionary: DictionaryModel,
    state: LiftModel,
    first: Instruction,
    rest: Seq<Instruction>,
    namespace: u64,
    version: u32,
    local_count: u32,
)
    ensures
        lift_run(dictionary, state, seq![first] + rest) == match lift_step(
            dictionary,
            state,
            first,
        ) {
            Err(message) => Err(message),
            Ok(next) => lift_run(dictionary, next, rest),
        },
        ({
            let nothing = StreamModel {
                version,
                namespace,
                dictionary,
                local_count,
                instructions: Seq::empty(),
            };
            &&& intent_lifted(nothing) matches Ok(intent)
            &&& intent.namespace == namespace
            &&& intent.next_temporary == 0
            &&& intent.preconditions.len() == 0
            &&& intent.operations.len() == 0
        }),
{
    let one = seq![first];
    lift_run_concat(dictionary, state, one, rest);
    assert(one.drop_last() =~= Seq::empty());
    assert(one.last() == first);
    assert(lift_run(dictionary, state, Seq::empty()) == Ok::<LiftModel, Seq<char>>(state));
}

/// What an atom of an expectation stands for: itself, and the entity of number nought where it is a
/// temporary entity, which has no meaning there.
pub proof fn expectations_have_no_temporaries(atom: IntentAtomModel, fact: IntentFactModel)
    ensures
        settled_atom(atom) == match atom {
            IntentAtomModel::Entity(entity) => AtomModel::Entity(entity),
            IntentAtomModel::Literal(literal) => AtomModel::Literal(literal),
            IntentAtomModel::Temporary(_) => AtomModel::Entity(0),
        },
        settled_fact(fact).subject == settled_atom(fact.subject),
        settled_fact(fact).predicate == fact.predicate,
        settled_fact(fact).object == settled_atom(fact.object),
{
}

} // verus!
