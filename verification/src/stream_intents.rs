//! Intents as instruction streams.

use crate::compile::{Vocabulary, knows_more_chain, whole_lists};
use crate::fact::{Atom, AtomModel, FactModel, Literal, Predicate, views};
use crate::frame::WorldId;
use crate::intent::{
    IntentAtom, IntentAtomModel, IntentFactModel, IntentModel, IntentOperation,
    IntentOperationModel, IntentPrecondition, PreconditionModel, QueuedIntent, handle, plain_atom,
    plain_fact,
};
use crate::stream::{
    DictionaryModel, InstructionStreamFrame, LiteralEntry, NameModel, PredicateEntry,
    SEMANTIC_ISA_VERSION_1, SlotEntry, StreamDictionary, StreamModel,
};
use crate::text::decimal;
use crate::vm::{
    Instruction, NONE, Opcode, VM_CELL_LIMIT, VM_LITERAL_BASE, define_slot, expect_cell,
    forget_slot, push_cell,
};
use crate::vocabulary::{
    VocabularyModel, distinct, knows_more, token_facts, token_is, token_of, vocabulary_ok,
    with_name, with_name_facts,
};
use vstd::prelude::*;
use vstd::string::*;

verus! {

pub open spec fn load_local(index: u32) -> Instruction {
    Instruction { opcode: Opcode::LoadLocal, argument: index, immediate: 0 }
}

pub open spec fn store_local(index: u32) -> Instruction {
    Instruction { opcode: Opcode::StoreLocal, argument: index, immediate: 0 }
}

pub open spec fn allocate_entity() -> Instruction {
    Instruction { opcode: Opcode::Allocate, argument: 0, immediate: 0 }
}

impl Instruction {
    pub fn load_local(index: u32) -> (result: Self)
        ensures
            result == load_local(index),
    {
        Instruction { opcode: Opcode::LoadLocal, argument: index, immediate: 0 }
    }

    pub fn store_local(index: u32) -> (result: Self)
        ensures
            result == store_local(index),
    {
        Instruction { opcode: Opcode::StoreLocal, argument: index, immediate: 0 }
    }

    pub fn allocate() -> (result: Self)
        ensures
            result == allocate_entity(),
    {
        Instruction { opcode: Opcode::Allocate, argument: 0, immediate: 0 }
    }

    pub fn opcode(self) -> (result: Opcode)
        ensures
            result == self.opcode,
    {
        self.opcode
    }

    pub fn argument(self) -> (result: u32)
        ensures
            result == self.argument,
    {
        self.argument
    }

    pub fn immediate(self) -> (result: u64)
        ensures
            result == self.immediate,
    {
        self.immediate
    }
}

/// The names after an atom was written.
pub open spec fn atom_learned(names: VocabularyModel, atom: IntentAtomModel) -> VocabularyModel {
    match atom {
        IntentAtomModel::Literal(literal) => VocabularyModel {
            literals: with_name(names.literals, literal),
            ..names
        },
        _ => names,
    }
}

/// The instruction that pushes an atom, whose name is known.
pub open spec fn atom_instruction(names: VocabularyModel, atom: IntentAtomModel) -> Instruction {
    match atom {
        IntentAtomModel::Entity(entity) => push_cell(entity),
        IntentAtomModel::Temporary(temporary) => load_local(temporary.number()),
        IntentAtomModel::Literal(literal) => push_cell(
            (VM_LITERAL_BASE + token_of(names.literals, literal)) as u64,
        ),
    }
}

pub open spec fn predicate_learned(names: VocabularyModel, predicate: Seq<char>) -> VocabularyModel {
    VocabularyModel { predicates: with_name(names.predicates, predicate), ..names }
}

pub open spec fn slot_learned(names: VocabularyModel, slot: Seq<char>) -> VocabularyModel {
    VocabularyModel { slots: with_name(names.slots, slot), ..names }
}

/// The names after a fact was written: of its subject, its predicate and its object.
pub open spec fn fact_learned(names: VocabularyModel, fact: IntentFactModel) -> VocabularyModel {
    atom_learned(
        predicate_learned(atom_learned(names, fact.subject), fact.predicate),
        fact.object,
    )
}

/// The instructions that push a fact, whose names are known.
pub open spec fn fact_program(names: VocabularyModel, fact: IntentFactModel) -> Seq<Instruction> {
    seq![
        atom_instruction(names, fact.subject),
        push_cell(token_of(names.predicates, fact.predicate) as u64),
        atom_instruction(names, fact.object),
    ]
}

/// The names after a precondition was written.
pub open spec fn precondition_learned(
    names: VocabularyModel,
    precondition: PreconditionModel,
) -> VocabularyModel {
    match precondition {
        PreconditionModel::ExpectedWorld(_) => names,
        PreconditionModel::ExpectedSlot { slot, expected } => match expected {
            None => slot_learned(names, slot),
            Some(fact) => fact_learned(slot_learned(names, slot), plain_fact(fact)),
        },
    }
}

/// The program of a precondition, whose names are known.
pub open spec fn precondition_program(
    names: VocabularyModel,
    precondition: PreconditionModel,
) -> Seq<Instruction> {
    match precondition {
        PreconditionModel::ExpectedWorld(world) => seq![expect_cell(u32::MAX, world.0)],
        PreconditionModel::ExpectedSlot { slot, expected } => {
            let token = token_of(names.slots, slot) as u32;
            match expected {
                None => seq![expect_cell(token, 0)],
                Some(fact) => fact_program(names, plain_fact(fact)).push(expect_cell(token, 1)),
            }
        },
    }
}

/// The names after an operation was written.
pub open spec fn intent_operation_learned(
    names: VocabularyModel,
    operation: IntentOperationModel,
) -> VocabularyModel {
    match operation {
        IntentOperationModel::AllocateEntity { .. } => names,
        IntentOperationModel::Define { slot, fact } => fact_learned(
            slot_learned(names, slot),
            fact,
        ),
        IntentOperationModel::Forget { slot } => slot_learned(names, slot),
    }
}

/// The program of an operation, whose names are known.
pub open spec fn intent_operation_program(
    names: VocabularyModel,
    operation: IntentOperationModel,
) -> Seq<Instruction> {
    match operation {
        IntentOperationModel::AllocateEntity { temporary } => seq![
            allocate_entity(),
            store_local(temporary.number()),
        ],
        IntentOperationModel::Define { slot, fact } => fact_program(names, fact).push(
            define_slot(token_of(names.slots, slot) as u32),
        ),
        IntentOperationModel::Forget { slot } => seq![
            forget_slot(token_of(names.slots, slot) as u32),
        ],
    }
}

/// No names.
pub open spec fn no_names() -> VocabularyModel {
    VocabularyModel {
        slots: Seq::empty(),
        predicates: Seq::empty(),
        literals: Seq::empty(),
        displaced: Seq::empty(),
    }
}

/// The names and the program of preconditions.
pub open spec fn preconditions_streamed(preconditions: Seq<PreconditionModel>) -> (
    VocabularyModel,
    Seq<Instruction>,
)
    decreases preconditions.len(),
{
    if preconditions.len() == 0 {
        (no_names(), Seq::empty())
    } else {
        let (names, program) = preconditions_streamed(preconditions.drop_last());
        let more = precondition_learned(names, preconditions.last());
        (more, program + precondition_program(more, preconditions.last()))
    }
}

/// The names and the program of operations behind preconditions.
pub open spec fn operations_streamed(
    preconditions: Seq<PreconditionModel>,
    operations: Seq<IntentOperationModel>,
) -> (VocabularyModel, Seq<Instruction>)
    decreases operations.len(),
{
    if operations.len() == 0 {
        preconditions_streamed(preconditions)
    } else {
        let (names, program) = operations_streamed(preconditions, operations.drop_last());
        let more = intent_operation_learned(names, operations.last());
        (more, program + intent_operation_program(more, operations.last()))
    }
}

/// The dictionary of names: slots and predicates from zero, literals from where literals begin.
pub open spec fn dictionary_of(names: VocabularyModel) -> DictionaryModel {
    DictionaryModel {
        slots: Seq::new(
            names.slots.len(),
            |i: int| NameModel { number: i as u64, name: names.slots[i] },
        ),
        predicates: Seq::new(
            names.predicates.len(),
            |i: int| NameModel { number: i as u64, name: names.predicates[i] },
        ),
        literals: Seq::new(
            names.literals.len(),
            |i: int|
                NameModel { number: (VM_LITERAL_BASE + i) as u64, name: names.literals[i] },
        ),
    }
}

/// The frame of an intent.
pub open spec fn intent_streamed(intent: IntentModel) -> StreamModel {
    let (names, program) = operations_streamed(intent.preconditions, intent.operations);
    StreamModel {
        version: SEMANTIC_ISA_VERSION_1,
        namespace: intent.namespace,
        dictionary: dictionary_of(names),
        local_count: intent.next_temporary,
        instructions: program,
    }
}

/// The name of a number: the last entry counts.
pub open spec fn looked_up(entries: Seq<NameModel>, number: u64) -> Option<Seq<char>>
    decreases entries.len(),
{
    if entries.len() == 0 {
        None
    } else if entries.last().number == number {
        Some(entries.last().name)
    } else {
        looked_up(entries.drop_last(), number)
    }
}

/// What stands on the stack while a stream is read.
pub enum StackModel {
    Atom(IntentAtomModel),
    Cell(u64),
}

/// An intent that is being read.
pub struct LiftModel {
    pub intent: IntentModel,
    pub stack: Seq<StackModel>,
}

/// The atom of a stack entry.
pub open spec fn lifted_atom(dictionary: DictionaryModel, entry: StackModel) -> IntentAtomModel {
    match entry {
        StackModel::Atom(atom) => atom,
        StackModel::Cell(cell) => if cell < VM_LITERAL_BASE {
            IntentAtomModel::Entity(cell)
        } else {
            match looked_up(dictionary.literals, cell) {
                Some(literal) => IntentAtomModel::Literal(literal),
                None => IntentAtomModel::Literal("lit_"@ + decimal(cell as nat)),
            }
        },
    }
}

/// The predicate of a stack entry.
pub open spec fn lifted_predicate(dictionary: DictionaryModel, entry: StackModel) -> Seq<char> {
    match entry {
        StackModel::Cell(cell) => match looked_up(dictionary.predicates, cell) {
            Some(predicate) => predicate,
            None => "pred_"@ + decimal(cell as nat),
        },
        StackModel::Atom(IntentAtomModel::Literal(literal)) => literal,
        StackModel::Atom(_) => "predicate"@,
    }
}

/// The fact of the three topmost entries.
pub open spec fn lifted_fact(dictionary: DictionaryModel, stack: Seq<StackModel>) -> IntentFactModel {
    let top = stack.len() as int;
    IntentFactModel {
        subject: lifted_atom(dictionary, stack[top - 3]),
        predicate: lifted_predicate(dictionary, stack[top - 2]),
        object: lifted_atom(dictionary, stack[top - 1]),
    }
}

/// A temporary entity has no meaning in a precondition.
pub open spec fn settled_atom(atom: IntentAtomModel) -> AtomModel {
    match atom {
        IntentAtomModel::Entity(entity) => AtomModel::Entity(entity),
        IntentAtomModel::Literal(literal) => AtomModel::Literal(literal),
        IntentAtomModel::Temporary(_) => AtomModel::Entity(0),
    }
}

pub open spec fn settled_fact(fact: IntentFactModel) -> FactModel {
    FactModel {
        subject: settled_atom(fact.subject),
        predicate: fact.predicate,
        object: settled_atom(fact.object),
    }
}

pub open spec fn unknown_slot_text(token: u32) -> Seq<char> {
    "unknown slot token "@ + decimal(token as nat)
}

/// An intent with one more entity.
pub open spec fn with_entity(intent: IntentModel) -> IntentModel {
    IntentModel {
        next_temporary: (intent.next_temporary + 1) as u32,
        operations: intent.operations.push(
            IntentOperationModel::AllocateEntity {
                temporary: handle(intent.namespace, intent.next_temporary),
            },
        ),
        ..intent
    }
}

pub open spec fn with_precondition(intent: IntentModel, precondition: PreconditionModel) -> IntentModel {
    IntentModel { preconditions: intent.preconditions.push(precondition), ..intent }
}

pub open spec fn with_operation(intent: IntentModel, operation: IntentOperationModel) -> IntentModel {
    IntentModel { operations: intent.operations.push(operation), ..intent }
}

/// Reads one instruction.
pub open spec fn lift_step(
    dictionary: DictionaryModel,
    state: LiftModel,
    instruction: Instruction,
) -> Result<LiftModel, Seq<char>> {
    let slot = looked_up(dictionary.slots, instruction.argument as u64);
    let unknown = unknown_slot_text(instruction.argument);
    let deep = state.stack.len() >= 3;
    let popped = state.stack.take(state.stack.len() - 3);
    match instruction.opcode {
        Opcode::Allocate => Ok(LiftModel { intent: with_entity(state.intent), ..state }),
        Opcode::AllocateDiscard => Ok(LiftModel { intent: with_entity(state.intent), ..state }),
        Opcode::PushCell => Ok(
            LiftModel { stack: state.stack.push(StackModel::Cell(instruction.immediate)), ..state },
        ),
        Opcode::LoadLocal => Ok(
            LiftModel {
                stack: state.stack.push(
                    StackModel::Atom(
                        IntentAtomModel::Temporary(
                            handle(state.intent.namespace, instruction.argument),
                        ),
                    ),
                ),
                ..state
            },
        ),
        Opcode::Define => if !deep {
            Ok(state)
        } else {
            match slot {
                None => Err(unknown),
                Some(slot) => Ok(
                    LiftModel {
                        intent: with_operation(
                            state.intent,
                            IntentOperationModel::Define {
                                slot,
                                fact: lifted_fact(dictionary, state.stack),
                            },
                        ),
                        stack: popped,
                    },
                ),
            }
        },
        Opcode::Forget => match slot {
            None => Err(unknown),
            Some(slot) => Ok(
                LiftModel {
                    intent: with_operation(state.intent, IntentOperationModel::Forget { slot }),
                    ..state
                },
            ),
        },
        Opcode::ExpectObject => if instruction.argument == u32::MAX {
            Ok(
                LiftModel {
                    intent: with_precondition(
                        state.intent,
                        PreconditionModel::ExpectedWorld(WorldId(instruction.immediate)),
                    ),
                    ..state
                },
            )
        } else {
            match slot {
                None => Err(unknown),
                Some(slot) => if instruction.immediate == 0 {
                    Ok(
                        LiftModel {
                            intent: with_precondition(
                                state.intent,
                                PreconditionModel::ExpectedSlot { slot, expected: None },
                            ),
                            ..state
                        },
                    )
                } else if deep {
                    Ok(
                        LiftModel {
                            intent: with_precondition(
                                state.intent,
                                PreconditionModel::ExpectedSlot {
                                    slot,
                                    expected: Some(
                                        settled_fact(lifted_fact(dictionary, state.stack)),
                                    ),
                                },
                            ),
                            stack: popped,
                        },
                    )
                } else {
                    Ok(state)
                },
            }
        },
        _ => Ok(state),
    }
}

/// Reads a program.
pub open spec fn lift_run(
    dictionary: DictionaryModel,
    state: LiftModel,
    program: Seq<Instruction>,
) -> Result<LiftModel, Seq<char>>
    decreases program.len(),
{
    if program.len() == 0 {
        Ok(state)
    } else {
        match lift_run(dictionary, state, program.drop_last()) {
            Err(message) => Err(message),
            Ok(next) => lift_step(dictionary, next, program.last()),
        }
    }
}

/// The intent of a frame.
pub open spec fn intent_lifted(frame: StreamModel) -> Result<IntentModel, Seq<char>> {
    let start = LiftModel {
        intent: IntentModel {
            namespace: frame.namespace,
            next_temporary: 0,
            preconditions: Seq::empty(),
            operations: Seq::empty(),
        },
        stack: Seq::empty(),
    };
    match lift_run(frame.dictionary, start, frame.instructions) {
        Err(message) => Err(message),
        Ok(state) => Ok(state.intent),
    }
}

pub proof fn lift_run_concat(
    dictionary: DictionaryModel,
    state: LiftModel,
    first: Seq<Instruction>,
    second: Seq<Instruction>,
)
    ensures
        lift_run(dictionary, state, first + second) == match lift_run(dictionary, state, first) {
            Err(message) => Err(message),
            Ok(next) => lift_run(dictionary, next, second),
        },
    decreases second.len(),
{
    if second.len() == 0 {
        assert(first + second =~= first);
    } else {
        assert((first + second).drop_last() =~= first + second.drop_last());
        lift_run_concat(dictionary, state, first, second.drop_last());
    }
}

pub proof fn lift_fault_stays(
    dictionary: DictionaryModel,
    state: LiftModel,
    program: Seq<Instruction>,
    count: int,
)
    requires
        0 <= count <= program.len(),
        lift_run(dictionary, state, program.take(count)) is Err,
    ensures
        lift_run(dictionary, state, program) == lift_run(dictionary, state, program.take(count)),
{
    assert(program =~= program.take(count) + program.skip(count));
    lift_run_concat(dictionary, state, program.take(count), program.skip(count));
}

/// A literal keeps its instruction while more is learned.
pub proof fn instruction_stays(names: VocabularyModel, more: VocabularyModel, atom: IntentAtomModel)
    requires
        vocabulary_ok(more),
        distinct(names.literals),
        knows_more(names, more),
        atom matches IntentAtomModel::Literal(literal) ==> token_of(names.literals, literal) >= 0,
    ensures
        atom_instruction(more, atom) == atom_instruction(names, atom),
{
    if let IntentAtomModel::Literal(literal) = atom {
        token_stays(names.literals, more.literals, literal);
    }
}

/// A name keeps its token while more is learned.
pub proof fn token_stays(names: Seq<Seq<char>>, more: Seq<Seq<char>>, name: Seq<char>)
    requires
        distinct(more),
        names.len() <= more.len(),
        more.take(names.len() as int) == names,
        token_of(names, name) >= 0,
    ensures
        token_of(more, name) == token_of(names, name),
{
    token_facts(names, name);
    let token = token_of(names, name);
    assert(more.take(names.len() as int)[token] == more[token]);
    token_is(more, token);
}

fn put_atom(names: &mut Vocabulary, program: &mut Vec<Instruction>, atom: &IntentAtom)
    requires
        vocabulary_ok(old(names)@),
        old(names)@.literals.len() + 1 < NONE,
    ensures
        vocabulary_ok(final(names)@),
        final(names)@ == atom_learned(old(names)@, atom@),
        knows_more(old(names)@, final(names)@),
        final(names)@.literals.len() <= old(names)@.literals.len() + 1,
        final(program)@ == old(program)@.push(atom_instruction(final(names)@, atom@)),
        atom@ matches IntentAtomModel::Literal(literal) ==> token_of(
            final(names)@.literals,
            literal,
        ) >= 0,
{
    match atom {
        IntentAtom::Entity(entity) => {
            proof {
                whole_lists(names@);
            }
            program.push(Instruction::push(entity.0));
        },
        IntentAtom::Temporary(temporary) => {
            proof {
                whole_lists(names@);
            }
            program.push(Instruction::load_local(temporary.index()));
        },
        IntentAtom::Literal(literal) => {
            proof {
                with_name_facts(names@.literals, literal@);
            }
            let cell: u64 = names.learn_literal(literal);
            program.push(Instruction::push(cell));
        },
    }
}

/// Writes a fact: its subject, its predicate and its object.
fn put_fact(
    names: &mut Vocabulary,
    program: &mut Vec<Instruction>,
    subject: &IntentAtom,
    predicate: &Predicate,
    object: &IntentAtom,
)
    requires
        vocabulary_ok(old(names)@),
        old(names)@.predicates.len() + 1 < NONE,
        old(names)@.literals.len() + 2 < NONE,
    ensures
        vocabulary_ok(final(names)@),
        knows_more(old(names)@, final(names)@),
        final(names)@.slots == old(names)@.slots,
        final(names)@.predicates.len() <= old(names)@.predicates.len() + 1,
        final(names)@.literals.len() <= old(names)@.literals.len() + 2,
        ({
            let fact = IntentFactModel {
                subject: subject@,
                predicate: predicate@,
                object: object@,
            };
            &&& final(names)@ == fact_learned(old(names)@, fact)
            &&& final(program)@ == old(program)@ + fact_program(final(names)@, fact)
        }),
{
    let ghost start = names@;
    let ghost before = program@;
    put_atom(names, program, subject);
    let ghost first = names@;
    proof {
        with_name_facts(names@.predicates, predicate@);
    }
    let cell: u64 = names.learn_predicate(predicate);
    program.push(Instruction::push(cell));
    let ghost second = names@;
    put_atom(names, program, object);
    proof {
        knows_more_chain(start, first, second);
        knows_more_chain(start, second, names@);
        knows_more_chain(first, second, names@);
        instruction_stays(first, names@, subject@);
        let fact = IntentFactModel {
            subject: subject@,
            predicate: predicate@,
            object: object@,
        };
        assert(program@ =~= before + fact_program(names@, fact));
    }
}

fn intent_atom(atom: &Atom) -> (result: IntentAtom)
    ensures
        result@ == plain_atom(atom@),
{
    match atom {
        Atom::Entity(entity) => IntentAtom::Entity(*entity),
        Atom::Literal(literal) => IntentAtom::Literal(literal.clone()),
    }
}

fn put_precondition(
    names: &mut Vocabulary,
    program: &mut Vec<Instruction>,
    precondition: &IntentPrecondition,
)
    requires
        vocabulary_ok(old(names)@),
        old(names)@.slots.len() + 1 < NONE,
        old(names)@.predicates.len() + 1 < NONE,
        old(names)@.literals.len() + 2 < NONE,
    ensures
        vocabulary_ok(final(names)@),
        knows_more(old(names)@, final(names)@),
        final(names)@ == precondition_learned(old(names)@, precondition@),
        final(names)@.slots.len() <= old(names)@.slots.len() + 1,
        final(names)@.predicates.len() <= old(names)@.predicates.len() + 1,
        final(names)@.literals.len() <= old(names)@.literals.len() + 2,
        final(program)@ == old(program)@ + precondition_program(final(names)@, precondition@),
{
    let ghost start = names@;
    let ghost before = program@;
    match precondition {
        IntentPrecondition::ExpectedWorld(world) => {
            program.push(Instruction::raw(Opcode::ExpectObject, u32::MAX, world.0));
            proof {
                whole_lists(start);
                assert(program@ =~= before + precondition_program(names@, precondition@));
            }
        },
        IntentPrecondition::ExpectedSlot { slot, expected } => {
            proof {
                with_name_facts(names@.slots, slot@);
            }
            let token: u32 = names.learn_slot(slot);
            let ghost first = names@;
            match expected {
                None => {
                    program.push(Instruction::expect_object(token, 0));
                    proof {
                        assert(program@ =~= before + precondition_program(names@, precondition@));
                    }
                },
                Some(fact) => {
                    let subject = intent_atom(&fact.subject);
                    let object = intent_atom(&fact.object);
                    put_fact(names, program, &subject, &fact.predicate, &object);
                    program.push(Instruction::expect_object(token, 1));
                    proof {
                        knows_more_chain(start, first, names@);
                        assert(program@ =~= before + precondition_program(names@, precondition@));
                    }
                },
            }
        },
    }
}

fn put_operation(
    names: &mut Vocabulary,
    program: &mut Vec<Instruction>,
    operation: &IntentOperation,
)
    requires
        vocabulary_ok(old(names)@),
        old(names)@.slots.len() + 1 < NONE,
        old(names)@.predicates.len() + 1 < NONE,
        old(names)@.literals.len() + 2 < NONE,
    ensures
        vocabulary_ok(final(names)@),
        knows_more(old(names)@, final(names)@),
        final(names)@ == intent_operation_learned(old(names)@, operation@),
        final(names)@.slots.len() <= old(names)@.slots.len() + 1,
        final(names)@.predicates.len() <= old(names)@.predicates.len() + 1,
        final(names)@.literals.len() <= old(names)@.literals.len() + 2,
        final(program)@ == old(program)@ + intent_operation_program(final(names)@, operation@),
{
    let ghost start = names@;
    let ghost before = program@;
    match operation {
        IntentOperation::AllocateEntity { temporary } => {
            program.push(Instruction::allocate());
            program.push(Instruction::store_local(temporary.index()));
            proof {
                whole_lists(start);
                assert(program@ =~= before + intent_operation_program(names@, operation@));
            }
        },
        IntentOperation::Define { slot, fact } => {
            proof {
                with_name_facts(names@.slots, slot@);
            }
            let token: u32 = names.learn_slot(slot);
            let ghost first = names@;
            put_fact(names, program, &fact.subject, &fact.predicate, &fact.object);
            program.push(Instruction::define(token));
            proof {
                knows_more_chain(start, first, names@);
                assert(program@ =~= before + intent_operation_program(names@, operation@));
            }
        },
        IntentOperation::Forget { slot } => {
            proof {
                with_name_facts(names@.slots, slot@);
            }
            let token: u32 = names.learn_slot(slot);
            program.push(Instruction::forget(token));
            proof {
                assert(program@ =~= before + intent_operation_program(names@, operation@));
            }
        },
    }
}

/// The dictionary of learned names.
fn list_dictionary(names: Vocabulary) -> (result: StreamDictionary)
    requires
        vocabulary_ok(names@),
    ensures
        result@ == dictionary_of(names@),
{
    let ghost model = names@;
    let (slots, predicates, literals) = names.into_lists();
    proof {
        assert(slots.len() == views(slots@).len());
        assert(predicates.len() == views(predicates@).len());
        assert(literals.len() == views(literals@).len());
    }
    let mut slot_entries: Vec<SlotEntry> = Vec::new();
    let mut index: usize = 0;
    while index < slots.len()
        invariant
            index <= slots.len(),
            slots.len() < NONE,
            slot_entries.len() == index,
            forall|i: int|
                0 <= i < index ==> (#[trigger] slot_entries@[i])@ == (NameModel {
                    number: i as u64,
                    name: slots@[i]@,
                }),
        decreases slots.len() - index,
    {
        slot_entries.push(SlotEntry { token: index as u32, slot: slots[index].clone() });
        index += 1;
    }
    let mut predicate_entries: Vec<PredicateEntry> = Vec::new();
    let mut place: usize = 0;
    while place < predicates.len()
        invariant
            place <= predicates.len(),
            predicate_entries.len() == place,
            forall|i: int|
                0 <= i < place ==> (#[trigger] predicate_entries@[i])@ == (NameModel {
                    number: i as u64,
                    name: predicates@[i]@,
                }),
        decreases predicates.len() - place,
    {
        predicate_entries.push(
            PredicateEntry { cell: place as u64, predicate: predicates[place].clone() },
        );
        place += 1;
    }
    let mut literal_entries: Vec<LiteralEntry> = Vec::new();
    let mut spot: usize = 0;
    while spot < literals.len()
        invariant
            spot <= literals.len(),
            literals.len() < VM_CELL_LIMIT,
            literal_entries.len() == spot,
            forall|i: int|
                0 <= i < spot ==> (#[trigger] literal_entries@[i])@ == (NameModel {
                    number: (VM_LITERAL_BASE + i) as u64,
                    name: literals@[i]@,
                }),
        decreases literals.len() - spot,
    {
        literal_entries.push(
            LiteralEntry {
                cell: VM_LITERAL_BASE + spot as u64,
                literal: literals[spot].clone(),
            },
        );
        spot += 1;
    }
    let result = StreamDictionary {
        slots: slot_entries,
        predicates: predicate_entries,
        literals: literal_entries,
    };
    proof {
        assert(result@.slots =~= dictionary_of(model).slots);
        assert(result@.predicates =~= dictionary_of(model).predicates);
        assert(result@.literals =~= dictionary_of(model).literals);
    }
    result
}

impl QueuedIntent {
    /// The instruction stream of the intent.
    pub fn compile_to_stream_frame(&self) -> (result: InstructionStreamFrame)
        requires
            2 * (self@.preconditions.len() + self@.operations.len()) + 2 < NONE,
        ensures
            result@ == intent_streamed(self@),
    {
        let ghost preconditions = self@.preconditions;
        let ghost operations = self@.operations;
        let list = self.preconditions();
        let steps = self.operations();
        let mut names = Vocabulary::new();
        let mut program: Vec<Instruction> = Vec::new();
        let mut index: usize = 0;
        proof {
            assert(list.len() == preconditions.len());
            assert(steps.len() == operations.len());
            assert(preconditions.take(0) =~= Seq::empty());
            assert(program@ =~= Seq::empty());
        }
        while index < list.len()
            invariant
                index <= list.len(),
                preconditions == views(list@),
                list.len() == preconditions.len(),
                2 * (preconditions.len() + operations.len()) + 2 < NONE,
                vocabulary_ok(names@),
                names@.slots.len() <= index,
                names@.predicates.len() <= index,
                names@.literals.len() <= 2 * index,
                (names@, program@) == preconditions_streamed(preconditions.take(index as int)),
            decreases list.len() - index,
        {
            proof {
                assert(preconditions.take(index + 1).drop_last() =~= preconditions.take(
                    index as int,
                ));
                assert(preconditions.take(index + 1).last() == list@[index as int]@);
            }
            put_precondition(&mut names, &mut program, &list[index]);
            index += 1;
        }
        let mut place: usize = 0;
        proof {
            assert(preconditions.take(index as int) =~= preconditions);
            assert(operations.take(0) =~= Seq::empty());
        }
        while place < steps.len()
            invariant
                place <= steps.len(),
                operations == views(steps@),
                steps.len() == operations.len(),
                2 * (preconditions.len() + operations.len()) + 2 < NONE,
                vocabulary_ok(names@),
                names@.slots.len() <= preconditions.len() + place,
                names@.predicates.len() <= preconditions.len() + place,
                names@.literals.len() <= 2 * (preconditions.len() + place),
                (names@, program@) == operations_streamed(
                    preconditions,
                    operations.take(place as int),
                ),
            decreases steps.len() - place,
        {
            proof {
                assert(operations.take(place + 1).drop_last() =~= operations.take(place as int));
                assert(operations.take(place + 1).last() == steps@[place as int]@);
            }
            put_operation(&mut names, &mut program, &steps[place]);
            place += 1;
        }
        proof {
            assert(operations.take(place as int) =~= operations);
        }
        InstructionStreamFrame::new(
            self.namespace(),
            list_dictionary(names),
            self.next_temporary(),
            program,
        )
    }
}

} // verus!
