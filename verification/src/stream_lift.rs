//! Reading an intent back from its instruction stream.

use crate::compile::{knows_more_chain, whole_lists};
use crate::fact::{Atom, EntityId, Fact, Literal, Predicate, SlotId, views};
use crate::frame::WorldId;
use crate::intent::{
    IntentAtom, IntentAtomModel, IntentFact, IntentFactModel, IntentModel, IntentOperationModel,
    PreconditionModel, QueuedIntent, TempEntity, handle, handle_is, plain_fact,
};
use crate::stream::{DictionaryModel, InstructionStreamFrame, NameModel, StreamDictionary};
use crate::stream_intents::{
    LiftModel, StackModel, allocate_entity, atom_learned, dictionary_of, fact_learned, fact_program,
    instruction_stays, intent_lifted, intent_operation_learned, intent_operation_program,
    intent_streamed, lift_fault_stays, lift_run, lift_run_concat, lift_step, lifted_atom,
    lifted_fact, lifted_predicate, looked_up, operations_streamed, precondition_learned,
    precondition_program, preconditions_streamed, predicate_learned, settled_atom, settled_fact,
    slot_learned, store_local, token_stays, unknown_slot_text, with_entity, with_operation,
    with_precondition,
};
use crate::text::labelled;
use crate::vm::{Instruction, NONE, Opcode, VM_LITERAL_BASE, define_slot, expect_cell, forget_slot};
use crate::vocabulary::{
    VocabularyModel, distinct, knows_more, token_facts, token_of, vocabulary_ok, with_name,
    with_name_facts,
};
use vstd::prelude::*;
use vstd::string::*;

verus! {

/// What stands on the stack while a stream is read.
enum StackEntry {
    Atom(IntentAtom),
    Cell(u64),
}

impl View for StackEntry {
    type V = StackModel;

    closed spec fn view(&self) -> StackModel {
        match self {
            StackEntry::Atom(atom) => StackModel::Atom(atom@),
            StackEntry::Cell(cell) => StackModel::Cell(*cell),
        }
    }
}

impl StreamDictionary {
    /// The slot of a token.
    pub fn slot(&self, token: u32) -> (result: Option<&SlotId>)
        ensures
            match result {
                Some(slot) => looked_up(self@.slots, token as u64) == Some(slot@),
                None => looked_up(self@.slots, token as u64) is None,
            },
    {
        let ghost models = views(self.slots@);
        let mut index: usize = self.slots.len();
        proof {
            assert(models.take(index as int) =~= models);
        }
        while index > 0
            invariant
                index <= self.slots.len(),
                models == views(self.slots@),
                looked_up(models, token as u64) == looked_up(
                    models.take(index as int),
                    token as u64,
                ),
            decreases index,
        {
            proof {
                assert(models.take(index as int).drop_last() =~= models.take(index - 1));
                assert(models.take(index as int).last() == self.slots@[index - 1]@);
            }
            if self.slots[index - 1].token == token {
                return Some(&self.slots[index - 1].slot);
            }
            index -= 1;
        }
        None
    }

    /// The predicate of a cell.
    pub fn predicate(&self, cell: u64) -> (result: Option<&Predicate>)
        ensures
            match result {
                Some(predicate) => looked_up(self@.predicates, cell) == Some(predicate@),
                None => looked_up(self@.predicates, cell) is None,
            },
    {
        let ghost models = views(self.predicates@);
        let mut index: usize = self.predicates.len();
        proof {
            assert(models.take(index as int) =~= models);
        }
        while index > 0
            invariant
                index <= self.predicates.len(),
                models == views(self.predicates@),
                looked_up(models, cell) == looked_up(models.take(index as int), cell),
            decreases index,
        {
            proof {
                assert(models.take(index as int).drop_last() =~= models.take(index - 1));
                assert(models.take(index as int).last() == self.predicates@[index - 1]@);
            }
            if self.predicates[index - 1].cell == cell {
                return Some(&self.predicates[index - 1].predicate);
            }
            index -= 1;
        }
        None
    }

    /// The literal of a cell.
    pub fn literal(&self, cell: u64) -> (result: Option<&Literal>)
        ensures
            match result {
                Some(literal) => looked_up(self@.literals, cell) == Some(literal@),
                None => looked_up(self@.literals, cell) is None,
            },
    {
        let ghost models = views(self.literals@);
        let mut index: usize = self.literals.len();
        proof {
            assert(models.take(index as int) =~= models);
        }
        while index > 0
            invariant
                index <= self.literals.len(),
                models == views(self.literals@),
                looked_up(models, cell) == looked_up(models.take(index as int), cell),
            decreases index,
        {
            proof {
                assert(models.take(index as int).drop_last() =~= models.take(index - 1));
                assert(models.take(index as int).last() == self.literals@[index - 1]@);
            }
            if self.literals[index - 1].cell == cell {
                return Some(&self.literals[index - 1].literal);
            }
            index -= 1;
        }
        None
    }

    fn lift_atom(&self, entry: &StackEntry) -> (result: IntentAtom)
        ensures
            result@ == lifted_atom(self@, entry@),
    {
        match entry {
            StackEntry::Atom(atom) => atom.clone(),
            StackEntry::Cell(cell) => if *cell < VM_LITERAL_BASE {
                IntentAtom::Entity(EntityId(*cell))
            } else {
                match self.literal(*cell) {
                    Some(literal) => IntentAtom::Literal(literal.clone()),
                    None => IntentAtom::Literal(Literal::from_text(labelled("lit_", *cell))),
                }
            },
        }
    }

    fn lift_predicate(&self, entry: &StackEntry) -> (result: Predicate)
        ensures
            result@ == lifted_predicate(self@, entry@),
    {
        match entry {
            StackEntry::Cell(cell) => match self.predicate(*cell) {
                Some(predicate) => predicate.clone(),
                None => Predicate::from_text(labelled("pred_", *cell)),
            },
            StackEntry::Atom(IntentAtom::Literal(literal)) => Predicate::new(literal.as_str()),
            StackEntry::Atom(_) => Predicate::new("predicate"),
        }
    }

    fn slot_or_fault(&self, token: u32) -> (result: Result<SlotId, String>)
        ensures
            match (result, looked_up(self@.slots, token as u64)) {
                (Ok(slot), Some(name)) => slot@ == name,
                (Err(message), None) => message@ == unknown_slot_text(token),
                _ => false,
            },
    {
        match self.slot(token) {
            Some(slot) => Ok(slot.clone()),
            None => Err(labelled("unknown slot token ", token as u64)),
        }
    }

    /// Takes the three topmost entries as a fact.
    fn pop_fact(&self, stack: &mut Vec<StackEntry>) -> (result: IntentFact)
        requires
            old(stack)@.len() >= 3,
        ensures
            result@ == lifted_fact(self@, views(old(stack)@)),
            views(final(stack)@) == views(old(stack)@).take(old(stack)@.len() - 3),
    {
        let ghost before = views(stack@);
        let top: usize = stack.len();
        let subject = self.lift_atom(&stack[top - 3]);
        let predicate = self.lift_predicate(&stack[top - 2]);
        let object = self.lift_atom(&stack[top - 1]);
        stack.truncate(top - 3);
        proof {
            assert(views(stack@) =~= before.take(top - 3));
        }
        IntentFact { subject, predicate, object }
    }
}

fn settle_atom(atom: IntentAtom) -> (result: Atom)
    ensures
        result@ == settled_atom(atom@),
{
    match atom {
        IntentAtom::Entity(entity) => Atom::Entity(entity),
        IntentAtom::Literal(literal) => Atom::Literal(literal),
        IntentAtom::Temporary(_) => Atom::Entity(EntityId(0)),
    }
}

/// An instruction takes a temporary entity.
pub open spec fn allocates(instruction: Instruction) -> bool {
    instruction.opcode == Opcode::Allocate || instruction.opcode == Opcode::AllocateDiscard
}

/// How many temporary entities a program takes.
pub open spec fn allocated(program: Seq<Instruction>) -> nat
    decreases program.len(),
{
    if program.len() == 0 {
        0
    } else if allocates(program.last()) {
        allocated(program.drop_last()) + 1
    } else {
        allocated(program.drop_last())
    }
}

proof fn allocated_grows(program: Seq<Instruction>, count: int)
    requires
        0 <= count <= program.len(),
    ensures
        allocated(program.take(count)) <= allocated(program),
    decreases program.len(),
{
    if count < program.len() {
        allocated_grows(program.drop_last(), count);
        assert(program.drop_last().take(count) =~= program.take(count));
    } else {
        assert(program.take(count) =~= program);
    }
}

fn lift_instruction(
    dictionary: &StreamDictionary,
    intent: &mut QueuedIntent,
    stack: &mut Vec<StackEntry>,
    instruction: Instruction,
) -> (result: Result<(), String>)
    requires
        allocates(instruction) ==> old(intent)@.next_temporary < u32::MAX,
    ensures
        final(intent)@.next_temporary <= old(intent)@.next_temporary + if allocates(instruction) {
            1int
        } else {
            0
        },
        match (
            result,
            lift_step(
                dictionary@,
                LiftModel { intent: old(intent)@, stack: views(old(stack)@) },
                instruction,
            ),
        ) {
            (Ok(()), Ok(state)) => state == (LiftModel {
                intent: final(intent)@,
                stack: views(final(stack)@),
            }),
            (Err(message), Err(model)) => message@ == model,
            _ => false,
        },
{
    let ghost before = stack@;
    proof {
        assert(stack.len() == views(stack@).len());
    }
    match instruction.opcode() {
        Opcode::Allocate => {
            let _ = intent.entity();
        },
        Opcode::AllocateDiscard => {
            let _ = intent.entity();
        },
        Opcode::PushCell => {
            stack.push(StackEntry::Cell(instruction.immediate()));
            proof {
                assert(views(stack@) =~= views(before).push(
                    StackModel::Cell(instruction.immediate),
                ));
            }
        },
        Opcode::LoadLocal => {
            let temporary = TempEntity::new(intent.namespace(), instruction.argument());
            stack.push(StackEntry::Atom(IntentAtom::Temporary(temporary)));
            proof {
                assert(views(stack@) =~= views(before).push(
                    StackModel::Atom(
                        IntentAtomModel::Temporary(
                            handle(intent@.namespace, instruction.argument),
                        ),
                    ),
                ));
            }
        },
        Opcode::Define => {
            if stack.len() >= 3 {
                let slot = dictionary.slot_or_fault(instruction.argument())?;
                let fact = dictionary.pop_fact(stack);
                intent.define(slot, fact);
            }
        },
        Opcode::Forget => {
            let slot = dictionary.slot_or_fault(instruction.argument())?;
            intent.forget(slot);
        },
        Opcode::ExpectObject => {
            if instruction.argument() == u32::MAX {
                intent.expect_world(WorldId(instruction.immediate()));
            } else {
                let slot = dictionary.slot_or_fault(instruction.argument())?;
                if instruction.immediate() == 0 {
                    intent.expect_absent(slot);
                } else if stack.len() >= 3 {
                    let fact = dictionary.pop_fact(stack);
                    intent.expect_value(
                        slot,
                        Fact::new(
                            settle_atom(fact.subject),
                            fact.predicate,
                            settle_atom(fact.object),
                        ),
                    );
                }
            }
        },
        Opcode::StoreLocal => {},
        Opcode::Reject => {},
    }
    Ok(())
}

impl QueuedIntent {
    /// The intent of an instruction stream.
    pub fn from_stream_frame(frame: &InstructionStreamFrame) -> (result: Result<Self, String>)
        requires
            allocated(frame@.instructions) <= u32::MAX,
        ensures
            match (result, intent_lifted(frame@)) {
                (Ok(intent), Ok(model)) => intent@ == model,
                (Err(message), Err(model)) => message@ == model,
                _ => false,
            },
    {
        let ghost program = frame@.instructions;
        let mut intent = QueuedIntent::new(frame.namespace);
        let mut stack: Vec<StackEntry> = Vec::new();
        let ghost start = LiftModel { intent: intent@, stack: Seq::empty() };
        let mut index: usize = 0;
        proof {
            assert(views(stack@) =~= Seq::empty());
            assert(program.take(0) =~= Seq::empty());
        }
        while index < frame.instructions.len()
            invariant
                index <= frame.instructions.len(),
                allocated(program) <= u32::MAX,
                program == frame.instructions@,
                intent@.next_temporary <= allocated(program.take(index as int)),
                start == (LiftModel {
                    intent: IntentModel {
                        namespace: frame@.namespace,
                        next_temporary: 0,
                        preconditions: Seq::empty(),
                        operations: Seq::empty(),
                    },
                    stack: Seq::empty(),
                }),
                lift_run(frame@.dictionary, start, program.take(index as int)) == Ok::<
                    LiftModel,
                    Seq<char>,
                >(LiftModel { intent: intent@, stack: views(stack@) }),
            decreases frame.instructions.len() - index,
        {
            let instruction = frame.instructions[index];
            proof {
                assert(program.take(index + 1).drop_last() =~= program.take(index as int));
                assert(program.take(index + 1).last() == instruction);
                allocated_grows(program, index + 1);
                if lift_run(frame@.dictionary, start, program.take(index + 1)) is Err {
                    lift_fault_stays(frame@.dictionary, start, program, index + 1);
                }
            }
            lift_instruction(&frame.dictionary, &mut intent, &mut stack, instruction)?;
            index += 1;
        }
        proof {
            assert(program.take(index as int) =~= program);
        }
        Ok(intent)
    }
}

/// An atom that a stream can hold: an entity below the literals, a temporary entity of the intent,
/// or a literal.
pub open spec fn atom_streams(namespace: u64, atom: IntentAtomModel) -> bool {
    match atom {
        IntentAtomModel::Entity(entity) => entity < VM_LITERAL_BASE,
        IntentAtomModel::Temporary(temporary) => temporary.scope() == namespace,
        IntentAtomModel::Literal(_) => true,
    }
}

pub open spec fn fact_streams(namespace: u64, fact: IntentFactModel) -> bool {
    atom_streams(namespace, fact.subject) && atom_streams(namespace, fact.object)
}

/// A precondition that a stream can hold.
pub open spec fn precondition_streams(namespace: u64, precondition: PreconditionModel) -> bool {
    precondition matches PreconditionModel::ExpectedSlot { expected: Some(fact), .. }
        ==> fact_streams(namespace, plain_fact(fact))
}

/// Operations that a stream can hold: their entities are allocated in order.
pub open spec fn operations_stream(
    namespace: u64,
    operations: Seq<IntentOperationModel>,
    allocated: u32,
) -> bool
    decreases operations.len(),
{
    if operations.len() == 0 {
        allocated == 0
    } else {
        match operations.last() {
            IntentOperationModel::AllocateEntity { temporary } => {
                &&& allocated > 0
                &&& temporary == handle(namespace, (allocated - 1) as u32)
                &&& operations_stream(namespace, operations.drop_last(), (allocated - 1) as u32)
            },
            IntentOperationModel::Define { fact, .. } => fact_streams(namespace, fact)
                && operations_stream(namespace, operations.drop_last(), allocated),
            IntentOperationModel::Forget { .. } => operations_stream(
                namespace,
                operations.drop_last(),
                allocated,
            ),
        }
    }
}

/// An intent that a stream can hold.
pub open spec fn intent_streams(intent: IntentModel) -> bool {
    &&& forall|i: int|
        0 <= i < intent.preconditions.len() ==> precondition_streams(
            intent.namespace,
            #[trigger] intent.preconditions[i],
        )
    &&& operations_stream(intent.namespace, intent.operations, intent.next_temporary)
    &&& 2 * (intent.preconditions.len() + intent.operations.len()) + 2 < NONE
}

proof fn listed_lookup(entries: Seq<NameModel>, index: int)
    requires
        0 <= index < entries.len(),
        forall|i: int, j: int|
            0 <= i < j < entries.len() ==> (#[trigger] entries[i]).number != (
            #[trigger] entries[j]).number,
    ensures
        looked_up(entries, entries[index].number) == Some(entries[index].name),
    decreases entries.len(),
{
    if index < entries.len() - 1 {
        let front = entries.drop_last();
        assert(entries[index].number != entries[entries.len() - 1].number);
        assert forall|i: int, j: int| 0 <= i < j < front.len() implies (
        #[trigger] front[i]).number != (#[trigger] front[j]).number by {
            assert(entries[i].number != entries[j].number);
        }
        listed_lookup(front, index);
        assert(front[index] == entries[index]);
    }
}

/// The names of a dictionary are found by their numbers.
proof fn dictionary_finds(names: VocabularyModel, name: Seq<char>)
    requires
        vocabulary_ok(names),
    ensures
        token_of(names.slots, name) >= 0 ==> looked_up(
            dictionary_of(names).slots,
            token_of(names.slots, name) as u32 as u64,
        ) == Some(name),
        token_of(names.predicates, name) >= 0 ==> looked_up(
            dictionary_of(names).predicates,
            token_of(names.predicates, name) as u64,
        ) == Some(name),
        token_of(names.literals, name) >= 0 ==> looked_up(
            dictionary_of(names).literals,
            (VM_LITERAL_BASE + token_of(names.literals, name)) as u64,
        ) == Some(name),
{
    let dictionary = dictionary_of(names);
    token_facts(names.slots, name);
    token_facts(names.predicates, name);
    token_facts(names.literals, name);
    if token_of(names.slots, name) >= 0 {
        listed_lookup(dictionary.slots, token_of(names.slots, name));
    }
    if token_of(names.predicates, name) >= 0 {
        listed_lookup(dictionary.predicates, token_of(names.predicates, name));
    }
    if token_of(names.literals, name) >= 0 {
        listed_lookup(dictionary.literals, token_of(names.literals, name));
    }
}

/// The names of a fact are known.
spec fn fact_named(names: VocabularyModel, fact: IntentFactModel) -> bool {
    &&& fact.subject matches IntentAtomModel::Literal(literal) ==> token_of(
        names.literals,
        literal,
    ) >= 0
    &&& token_of(names.predicates, fact.predicate) >= 0
    &&& fact.object matches IntentAtomModel::Literal(literal) ==> token_of(
        names.literals,
        literal,
    ) >= 0
}

/// The stack entry that an atom leaves.
spec fn pushed(names: VocabularyModel, namespace: u64, atom: IntentAtomModel) -> StackModel {
    match atom {
        IntentAtomModel::Entity(entity) => StackModel::Cell(entity),
        IntentAtomModel::Temporary(temporary) => StackModel::Atom(
            IntentAtomModel::Temporary(handle(namespace, temporary.number())),
        ),
        IntentAtomModel::Literal(literal) => StackModel::Cell(
            (VM_LITERAL_BASE + token_of(names.literals, literal)) as u64,
        ),
    }
}

proof fn pushed_lifts(names: VocabularyModel, namespace: u64, atom: IntentAtomModel)
    requires
        vocabulary_ok(names),
        atom_streams(namespace, atom),
        atom matches IntentAtomModel::Literal(literal) ==> token_of(names.literals, literal) >= 0,
    ensures
        lifted_atom(dictionary_of(names), pushed(names, namespace, atom)) == atom,
{
    match atom {
        IntentAtomModel::Literal(literal) => {
            token_facts(names.literals, literal);
            dictionary_finds(names, literal);
        },
        IntentAtomModel::Temporary(temporary) => {
            handle_is(temporary);
        },
        IntentAtomModel::Entity(_) => {},
    }
}

/// Reading the program of a fact leaves the fact on the stack.
proof fn fact_lifts(
    names: VocabularyModel,
    state: LiftModel,
    fact: IntentFactModel,
)
    requires
        vocabulary_ok(names),
        fact_named(names, fact),
        fact_streams(state.intent.namespace, fact),
        state.stack.len() == 0,
    ensures
        lift_run(dictionary_of(names), state, fact_program(names, fact)) matches Ok(next)
            && next.intent == state.intent && next.stack.len() == 3 && lifted_fact(
            dictionary_of(names),
            next.stack,
        ) == fact,
{
    let dictionary = dictionary_of(names);
    let namespace = state.intent.namespace;
    let program = fact_program(names, fact);
    let one = program.take(1);
    let two = program.take(2);
    let first = LiftModel {
        stack: state.stack.push(pushed(names, namespace, fact.subject)),
        ..state
    };
    let second = LiftModel {
        stack: first.stack.push(
            StackModel::Cell(token_of(names.predicates, fact.predicate) as u64),
        ),
        ..state
    };
    let third = LiftModel {
        stack: second.stack.push(pushed(names, namespace, fact.object)),
        ..state
    };
    assert(program.drop_last() =~= two);
    assert(two.drop_last() =~= one);
    assert(one.drop_last() =~= Seq::empty());
    assert(lift_run(dictionary, state, one.drop_last()) == Ok::<LiftModel, Seq<char>>(state));
    assert(lift_run(dictionary, state, one) == Ok::<LiftModel, Seq<char>>(first));
    assert(lift_run(dictionary, state, two) == Ok::<LiftModel, Seq<char>>(second));
    assert(lift_run(dictionary, state, program) == Ok::<LiftModel, Seq<char>>(third));
    pushed_lifts(names, namespace, fact.subject);
    pushed_lifts(names, namespace, fact.object);
    dictionary_finds(names, fact.predicate);
    token_facts(names.predicates, fact.predicate);
}

/// One more instruction.
proof fn lift_one_more(
    dictionary: DictionaryModel,
    state: LiftModel,
    program: Seq<Instruction>,
    instruction: Instruction,
)
    ensures
        lift_run(dictionary, state, program.push(instruction)) == match lift_run(
            dictionary,
            state,
            program,
        ) {
            Err(message) => Err(message),
            Ok(next) => lift_step(dictionary, next, instruction),
        },
{
    assert(program.push(instruction).drop_last() =~= program);
}

/// The names of a precondition are known.
spec fn precondition_named(names: VocabularyModel, precondition: PreconditionModel) -> bool {
    match precondition {
        PreconditionModel::ExpectedWorld(_) => true,
        PreconditionModel::ExpectedSlot { slot, expected } => token_of(names.slots, slot) >= 0 && (
        expected matches Some(fact) ==> fact_named(names, plain_fact(fact))),
    }
}

spec fn operation_named(names: VocabularyModel, operation: IntentOperationModel) -> bool {
    match operation {
        IntentOperationModel::AllocateEntity { .. } => true,
        IntentOperationModel::Define { slot, fact } => token_of(names.slots, slot) >= 0
            && fact_named(names, fact),
        IntentOperationModel::Forget { slot } => token_of(names.slots, slot) >= 0,
    }
}

proof fn precondition_lifts(
    names: VocabularyModel,
    state: LiftModel,
    precondition: PreconditionModel,
)
    requires
        vocabulary_ok(names),
        precondition_named(names, precondition),
        precondition_streams(state.intent.namespace, precondition),
        state.stack.len() == 0,
    ensures
        lift_run(
            dictionary_of(names),
            state,
            precondition_program(names, precondition),
        ) == Ok::<LiftModel, Seq<char>>(
            LiftModel { intent: with_precondition(state.intent, precondition), ..state },
        ),
{
    let dictionary = dictionary_of(names);
    match precondition {
        PreconditionModel::ExpectedWorld(world) => {
            let instruction = expect_cell(u32::MAX, world.0);
            assert(precondition_program(names, precondition) =~= Seq::empty().push(instruction));
            lift_one_more(dictionary, state, Seq::empty(), instruction);
        },
        PreconditionModel::ExpectedSlot { slot, expected } => {
            dictionary_finds(names, slot);
            token_facts(names.slots, slot);
            let token = token_of(names.slots, slot) as u32;
            match expected {
                None => {
                    let instruction = expect_cell(token, 0);
                    assert(precondition_program(names, precondition) =~= Seq::empty().push(
                        instruction,
                    ));
                    lift_one_more(dictionary, state, Seq::empty(), instruction);
                },
                Some(fact) => {
                    fact_lifts(names, state, plain_fact(fact));
                    lift_one_more(
                        dictionary,
                        state,
                        fact_program(names, plain_fact(fact)),
                        expect_cell(token, 1),
                    );
                    let next = lift_run(
                        dictionary,
                        state,
                        fact_program(names, plain_fact(fact)),
                    )->Ok_0;
                    assert(next.stack.take(next.stack.len() - 3) =~= state.stack);
                    assert(settled_fact(plain_fact(fact)) == fact);
                },
            }
        },
    }
}

proof fn operation_lifts(
    names: VocabularyModel,
    state: LiftModel,
    operation: IntentOperationModel,
)
    requires
        vocabulary_ok(names),
        operation_named(names, operation),
        state.stack.len() == 0,
        match operation {
            IntentOperationModel::AllocateEntity { temporary } => state.intent.next_temporary
                < u32::MAX && temporary == handle(
                state.intent.namespace,
                state.intent.next_temporary,
            ),
            IntentOperationModel::Define { fact, .. } => fact_streams(
                state.intent.namespace,
                fact,
            ),
            IntentOperationModel::Forget { .. } => true,
        },
    ensures
        lift_run(
            dictionary_of(names),
            state,
            intent_operation_program(names, operation),
        ) == Ok::<LiftModel, Seq<char>>(
            LiftModel {
                intent: if operation is AllocateEntity {
                    with_entity(state.intent)
                } else {
                    with_operation(state.intent, operation)
                },
                ..state
            },
        ),
{
    let dictionary = dictionary_of(names);
    match operation {
        IntentOperationModel::AllocateEntity { temporary } => {
            let store = store_local(temporary.number());
            let first = Seq::empty().push(allocate_entity());
            assert(intent_operation_program(names, operation) =~= first.push(store));
            lift_one_more(dictionary, state, Seq::empty(), allocate_entity());
            lift_one_more(dictionary, state, first, store);
        },
        IntentOperationModel::Define { slot, fact } => {
            dictionary_finds(names, slot);
            token_facts(names.slots, slot);
            fact_lifts(names, state, fact);
            lift_one_more(
                dictionary,
                state,
                fact_program(names, fact),
                define_slot(token_of(names.slots, slot) as u32),
            );
            let next = lift_run(dictionary, state, fact_program(names, fact))->Ok_0;
            assert(next.stack.take(next.stack.len() - 3) =~= state.stack);
        },
        IntentOperationModel::Forget { slot } => {
            dictionary_finds(names, slot);
            token_facts(names.slots, slot);
            let instruction = forget_slot(token_of(names.slots, slot) as u32);
            assert(intent_operation_program(names, operation) =~= Seq::empty().push(instruction));
            lift_one_more(dictionary, state, Seq::empty(), instruction);
        },
    }
}

/// Learning one more name keeps what is known.
proof fn one_name(names: Seq<Seq<char>>, name: Seq<char>)
    requires
        distinct(names),
    ensures
        distinct(with_name(names, name)),
        names.len() <= with_name(names, name).len() <= names.len() + 1,
        with_name(names, name).take(names.len() as int) == names,
        token_of(with_name(names, name), name) >= 0,
{
    with_name_facts(names, name);
    assert(with_name(names, name).take(names.len() as int) =~= names);
}

proof fn atom_learning(names: VocabularyModel, atom: IntentAtomModel)
    requires
        vocabulary_ok(names),
        names.literals.len() + 1 < NONE,
    ensures
        ({
            let more = atom_learned(names, atom);
            &&& vocabulary_ok(more)
            &&& knows_more(names, more)
            &&& more.slots == names.slots
            &&& more.predicates == names.predicates
            &&& more.literals.len() <= names.literals.len() + 1
            &&& atom matches IntentAtomModel::Literal(literal) ==> token_of(
                more.literals,
                literal,
            ) >= 0
        }),
{
    whole_lists(names);
    if let IntentAtomModel::Literal(literal) = atom {
        one_name(names.literals, literal);
    }
}

proof fn fact_learning(names: VocabularyModel, fact: IntentFactModel)
    requires
        vocabulary_ok(names),
        names.predicates.len() + 1 < NONE,
        names.literals.len() + 2 < NONE,
    ensures
        ({
            let more = fact_learned(names, fact);
            &&& vocabulary_ok(more)
            &&& knows_more(names, more)
            &&& fact_named(more, fact)
            &&& more.slots == names.slots
            &&& more.predicates.len() <= names.predicates.len() + 1
            &&& more.literals.len() <= names.literals.len() + 2
        }),
{
    let first = atom_learned(names, fact.subject);
    let second = predicate_learned(first, fact.predicate);
    let third = atom_learned(second, fact.object);
    atom_learning(names, fact.subject);
    whole_lists(first);
    one_name(first.predicates, fact.predicate);
    atom_learning(second, fact.object);
    knows_more_chain(names, first, second);
    knows_more_chain(names, second, third);
    if let IntentAtomModel::Literal(literal) = fact.subject {
        token_stays(first.literals, third.literals, literal);
    }
}

proof fn slot_learning(names: VocabularyModel, slot: Seq<char>)
    requires
        vocabulary_ok(names),
        names.slots.len() + 1 < NONE,
    ensures
        ({
            let more = slot_learned(names, slot);
            &&& vocabulary_ok(more)
            &&& knows_more(names, more)
            &&& token_of(more.slots, slot) >= 0
            &&& more.slots.len() <= names.slots.len() + 1
        }),
{
    whole_lists(names);
    one_name(names.slots, slot);
}

proof fn precondition_learning(names: VocabularyModel, precondition: PreconditionModel)
    requires
        vocabulary_ok(names),
        names.slots.len() + 1 < NONE,
        names.predicates.len() + 1 < NONE,
        names.literals.len() + 2 < NONE,
    ensures
        ({
            let more = precondition_learned(names, precondition);
            &&& vocabulary_ok(more)
            &&& knows_more(names, more)
            &&& precondition_named(more, precondition)
            &&& more.slots.len() <= names.slots.len() + 1
            &&& more.predicates.len() <= names.predicates.len() + 1
            &&& more.literals.len() <= names.literals.len() + 2
        }),
{
    whole_lists(names);
    if let PreconditionModel::ExpectedSlot { slot, expected } = precondition {
        slot_learning(names, slot);
        if let Some(fact) = expected {
            let first = slot_learned(names, slot);
            fact_learning(first, plain_fact(fact));
            knows_more_chain(names, first, precondition_learned(names, precondition));
        }
    }
}

proof fn operation_learning(names: VocabularyModel, operation: IntentOperationModel)
    requires
        vocabulary_ok(names),
        names.slots.len() + 1 < NONE,
        names.predicates.len() + 1 < NONE,
        names.literals.len() + 2 < NONE,
    ensures
        ({
            let more = intent_operation_learned(names, operation);
            &&& vocabulary_ok(more)
            &&& knows_more(names, more)
            &&& operation_named(more, operation)
            &&& more.slots.len() <= names.slots.len() + 1
            &&& more.predicates.len() <= names.predicates.len() + 1
            &&& more.literals.len() <= names.literals.len() + 2
        }),
{
    whole_lists(names);
    match operation {
        IntentOperationModel::AllocateEntity { .. } => {},
        IntentOperationModel::Define { slot, fact } => {
            slot_learning(names, slot);
            let first = slot_learned(names, slot);
            fact_learning(first, fact);
            knows_more_chain(names, first, intent_operation_learned(names, operation));
        },
        IntentOperationModel::Forget { slot } => {
            slot_learning(names, slot);
        },
    }
}

/// What is named stays named, and keeps its program.
proof fn fact_stays(names: VocabularyModel, more: VocabularyModel, fact: IntentFactModel)
    requires
        vocabulary_ok(names),
        vocabulary_ok(more),
        knows_more(names, more),
        fact_named(names, fact),
    ensures
        fact_named(more, fact),
        fact_program(more, fact) == fact_program(names, fact),
{
    instruction_stays(names, more, fact.subject);
    instruction_stays(names, more, fact.object);
    token_stays(names.predicates, more.predicates, fact.predicate);
    if let IntentAtomModel::Literal(literal) = fact.subject {
        token_stays(names.literals, more.literals, literal);
    }
    if let IntentAtomModel::Literal(literal) = fact.object {
        token_stays(names.literals, more.literals, literal);
    }
}

proof fn precondition_stays(
    names: VocabularyModel,
    more: VocabularyModel,
    precondition: PreconditionModel,
)
    requires
        vocabulary_ok(names),
        vocabulary_ok(more),
        knows_more(names, more),
        precondition_named(names, precondition),
    ensures
        precondition_named(more, precondition),
        precondition_program(more, precondition) == precondition_program(names, precondition),
{
    if let PreconditionModel::ExpectedSlot { slot, expected } = precondition {
        token_stays(names.slots, more.slots, slot);
        if let Some(fact) = expected {
            fact_stays(names, more, plain_fact(fact));
        }
    }
}

proof fn operation_stays(
    names: VocabularyModel,
    more: VocabularyModel,
    operation: IntentOperationModel,
)
    requires
        vocabulary_ok(names),
        vocabulary_ok(more),
        knows_more(names, more),
        operation_named(names, operation),
    ensures
        operation_named(more, operation),
        intent_operation_program(more, operation) == intent_operation_program(names, operation),
{
    match operation {
        IntentOperationModel::AllocateEntity { .. } => {},
        IntentOperationModel::Define { slot, fact } => {
            token_stays(names.slots, more.slots, slot);
            fact_stays(names, more, fact);
        },
        IntentOperationModel::Forget { slot } => {
            token_stays(names.slots, more.slots, slot);
        },
    }
}

/// The names of preconditions are in order.
proof fn precondition_names(preconditions: Seq<PreconditionModel>)
    requires
        2 * preconditions.len() + 2 < NONE,
    ensures
        ({
            let names = preconditions_streamed(preconditions).0;
            &&& vocabulary_ok(names)
            &&& names.slots.len() <= preconditions.len()
            &&& names.predicates.len() <= preconditions.len()
            &&& names.literals.len() <= 2 * preconditions.len()
        }),
    decreases preconditions.len(),
{
    if preconditions.len() > 0 {
        precondition_names(preconditions.drop_last());
        precondition_learning(
            preconditions_streamed(preconditions.drop_last()).0,
            preconditions.last(),
        );
    }
}

proof fn operation_names(
    preconditions: Seq<PreconditionModel>,
    operations: Seq<IntentOperationModel>,
)
    requires
        2 * (preconditions.len() + operations.len()) + 2 < NONE,
    ensures
        ({
            let names = operations_streamed(preconditions, operations).0;
            let count = preconditions.len() + operations.len();
            &&& vocabulary_ok(names)
            &&& names.slots.len() <= count
            &&& names.predicates.len() <= count
            &&& names.literals.len() <= 2 * count
            &&& knows_more(preconditions_streamed(preconditions).0, names)
        }),
    decreases operations.len(),
{
    if operations.len() > 0 {
        let front = operations.drop_last();
        operation_names(preconditions, front);
        let names = operations_streamed(preconditions, front).0;
        operation_learning(names, operations.last());
        knows_more_chain(
            preconditions_streamed(preconditions).0,
            names,
            operations_streamed(preconditions, operations).0,
        );
    } else {
        precondition_names(preconditions);
        whole_lists(preconditions_streamed(preconditions).0);
    }
}

/// Reading the program of preconditions gives the preconditions.
proof fn preconditions_lift(
    names: VocabularyModel,
    start: LiftModel,
    preconditions: Seq<PreconditionModel>,
)
    requires
        2 * preconditions.len() + 2 < NONE,
        vocabulary_ok(names),
        knows_more(preconditions_streamed(preconditions).0, names),
        start.stack.len() == 0,
        start.intent.preconditions.len() == 0,
        forall|i: int|
            0 <= i < preconditions.len() ==> precondition_streams(
                start.intent.namespace,
                #[trigger] preconditions[i],
            ),
    ensures
        lift_run(
            dictionary_of(names),
            start,
            preconditions_streamed(preconditions).1,
        ) == Ok::<LiftModel, Seq<char>>(
            LiftModel {
                intent: IntentModel { preconditions, ..start.intent },
                ..start
            },
        ),
    decreases preconditions.len(),
{
    if preconditions.len() > 0 {
        let front = preconditions.drop_last();
        let last = preconditions.last();
        let (before, program) = preconditions_streamed(front);
        let after = preconditions_streamed(preconditions).0;
        precondition_names(front);
        precondition_names(preconditions);
        precondition_learning(before, last);
        knows_more_chain(before, after, names);
        assert forall|i: int| 0 <= i < front.len() implies precondition_streams(
            start.intent.namespace,
            #[trigger] front[i],
        ) by {
            assert(front[i] == preconditions[i]);
        }
        preconditions_lift(names, start, front);
        precondition_stays(after, names, last);
        let middle = LiftModel {
            intent: IntentModel { preconditions: front, ..start.intent },
            ..start
        };
        assert(preconditions[preconditions.len() - 1] == last);
        precondition_lifts(names, middle, last);
        lift_run_concat(
            dictionary_of(names),
            start,
            program,
            precondition_program(after, last),
        );
        assert(front.push(last) =~= preconditions);
    } else {
        assert(preconditions =~= start.intent.preconditions);
    }
}

/// Reading the program of operations behind preconditions gives both.
proof fn operations_lift(
    names: VocabularyModel,
    start: LiftModel,
    preconditions: Seq<PreconditionModel>,
    operations: Seq<IntentOperationModel>,
    allocated: u32,
)
    requires
        2 * (preconditions.len() + operations.len()) + 2 < NONE,
        vocabulary_ok(names),
        knows_more(operations_streamed(preconditions, operations).0, names),
        start.stack.len() == 0,
        start.intent.preconditions.len() == 0,
        start.intent.operations.len() == 0,
        start.intent.next_temporary == 0,
        forall|i: int|
            0 <= i < preconditions.len() ==> precondition_streams(
                start.intent.namespace,
                #[trigger] preconditions[i],
            ),
        operations_stream(start.intent.namespace, operations, allocated),
    ensures
        lift_run(
            dictionary_of(names),
            start,
            operations_streamed(preconditions, operations).1,
        ) == Ok::<LiftModel, Seq<char>>(
            LiftModel {
                intent: IntentModel {
                    preconditions,
                    operations,
                    next_temporary: allocated,
                    ..start.intent
                },
                ..start
            },
        ),
    decreases operations.len(),
{
    if operations.len() > 0 {
        let front = operations.drop_last();
        let last = operations.last();
        let (before, program) = operations_streamed(preconditions, front);
        let after = operations_streamed(preconditions, operations).0;
        operation_names(preconditions, front);
        operation_names(preconditions, operations);
        operation_learning(before, last);
        knows_more_chain(before, after, names);
        let earlier = if last is AllocateEntity {
            (allocated - 1) as u32
        } else {
            allocated
        };
        operations_lift(names, start, preconditions, front, earlier);
        operation_stays(after, names, last);
        let middle = LiftModel {
            intent: IntentModel {
                preconditions,
                operations: front,
                next_temporary: earlier,
                ..start.intent
            },
            ..start
        };
        operation_lifts(names, middle, last);
        lift_run_concat(
            dictionary_of(names),
            start,
            program,
            intent_operation_program(after, last),
        );
        assert(front.push(last) =~= operations);
    } else {
        operation_names(preconditions, operations);
        preconditions_lift(names, start, preconditions);
        assert(operations =~= start.intent.operations);
    }
}

proof fn allocated_joins(first: Seq<Instruction>, second: Seq<Instruction>)
    ensures
        allocated(first + second) == allocated(first) + allocated(second),
    decreases second.len(),
{
    if second.len() == 0 {
        assert(first + second =~= first);
    } else {
        assert((first + second).drop_last() =~= first + second.drop_last());
        allocated_joins(first, second.drop_last());
    }
}

proof fn allocates_nothing(program: Seq<Instruction>)
    requires
        forall|i: int| 0 <= i < program.len() ==> !allocates(#[trigger] program[i]),
    ensures
        allocated(program) == 0,
    decreases program.len(),
{
    if program.len() > 0 {
        assert(!allocates(program[program.len() - 1]));
        assert forall|i: int| 0 <= i < program.drop_last().len() implies !allocates(
            #[trigger] program.drop_last()[i],
        ) by {
            assert(!allocates(program[i]));
        }
        allocates_nothing(program.drop_last());
    }
}

proof fn preconditions_allocate_nothing(preconditions: Seq<PreconditionModel>)
    ensures
        allocated(preconditions_streamed(preconditions).1) == 0,
    decreases preconditions.len(),
{
    if preconditions.len() > 0 {
        let front = preconditions.drop_last();
        let names = preconditions_streamed(front).0;
        let more = precondition_learned(names, preconditions.last());
        preconditions_allocate_nothing(front);
        allocates_nothing(precondition_program(more, preconditions.last()));
        allocated_joins(
            preconditions_streamed(front).1,
            precondition_program(more, preconditions.last()),
        );
    }
}

/// The stream of an intent takes no more temporary entities than the intent has operations.
proof fn operations_allocate_their_own(
    preconditions: Seq<PreconditionModel>,
    operations: Seq<IntentOperationModel>,
)
    ensures
        allocated(operations_streamed(preconditions, operations).1) <= operations.len(),
    decreases operations.len(),
{
    if operations.len() == 0 {
        preconditions_allocate_nothing(preconditions);
    } else {
        let front = operations.drop_last();
        let names = operations_streamed(preconditions, front).0;
        let more = intent_operation_learned(names, operations.last());
        let last = intent_operation_program(more, operations.last());
        operations_allocate_their_own(preconditions, front);
        if let IntentOperationModel::AllocateEntity { .. } = operations.last() {
            reveal_with_fuel(allocated, 3);
            assert(last.drop_last().len() == 1);
        } else {
            allocates_nothing(last);
        }
        allocated_joins(operations_streamed(preconditions, front).1, last);
    }
}

/// An intent that a stream can hold is read back from its stream.
pub proof fn streamed_intent_reads_back(intent: IntentModel)
    requires
        intent_streams(intent),
    ensures
        allocated(intent_streamed(intent).instructions) <= u32::MAX,
        intent_lifted(intent_streamed(intent)) == Ok::<IntentModel, Seq<char>>(intent),
{
    operations_allocate_their_own(intent.preconditions, intent.operations);
    let names = operations_streamed(intent.preconditions, intent.operations).0;
    let start = LiftModel {
        intent: IntentModel {
            namespace: intent.namespace,
            next_temporary: 0,
            preconditions: Seq::empty(),
            operations: Seq::empty(),
        },
        stack: Seq::empty(),
    };
    operation_names(intent.preconditions, intent.operations);
    whole_lists(names);
    operations_lift(
        names,
        start,
        intent.preconditions,
        intent.operations,
        intent.next_temporary,
    );
}

} // verus!
