//! Operations as programs of the token machine.

use crate::fact::{
    Atom, AtomModel, EntityId, Literal, Operation, OperationModel, Predicate, SlotId, views,
    views_push, views_take,
};
use crate::kernel::{KernelModel, applied, replayed};
use crate::vm::{
    Instruction, NONE, RunModel, Triple, VM_CELL_LIMIT, VM_DISPLACED_BASE, VM_LITERAL_BASE, VmFault,
    VmModel, define_slot, discard_entity, effects, effects_join, forget_slot, push_cell, vm_run,
    vm_run_concat, vm_step,
};
use crate::vocabulary::{
    VocabularyModel, atom_cell_of, cell_atom, cell_ok, distinct, knows_more, mirrors,
    mirrors_allocate, mirrors_define, mirrors_forget, mirrors_resolves, token_facts, token_is,
    token_of, triple_fact, vocabulary_ok, with_name, with_name_facts,
};
use vstd::prelude::*;
use vstd::string::*;

verus! {

/// Why an atom has no cell.
pub open spec fn atom_fault(atom: AtomModel) -> Option<Seq<char>> {
    match atom {
        AtomModel::Entity(entity) => if entity >= VM_LITERAL_BASE {
            Some("entity identifier overlaps the VM literal namespace"@)
        } else {
            None
        },
        AtomModel::Literal(_) => None,
    }
}

/// Why an operation cannot be compiled.
pub open spec fn operation_fault(operation: OperationModel) -> Option<Seq<char>> {
    match operation {
        OperationModel::AllocateEntity { entity } => if entity >= VM_LITERAL_BASE {
            Some("entity allocator exhausted the VM atom namespace"@)
        } else {
            None
        },
        OperationModel::Define { slot, fact } => match atom_fault(fact.subject) {
            Some(message) => Some(message),
            None => atom_fault(fact.object),
        },
        OperationModel::Forget { slot } => None,
    }
}

/// The first operation that cannot be compiled.
pub open spec fn operations_fault(operations: Seq<OperationModel>) -> Option<Seq<char>>
    decreases operations.len(),
{
    if operations.len() == 0 {
        None
    } else {
        match operations_fault(operations.drop_last()) {
            Some(message) => Some(message),
            None => operation_fault(operations.last()),
        }
    }
}

pub open spec fn atom_known(vocabulary: VocabularyModel, atom: AtomModel) -> bool {
    match atom {
        AtomModel::Entity(entity) => entity < VM_LITERAL_BASE || token_of(
            vocabulary.displaced,
            entity,
        ) >= 0,
        AtomModel::Literal(literal) => token_of(vocabulary.literals, literal) >= 0,
    }
}

/// Every name of an operation has a token.
pub open spec fn operation_known(vocabulary: VocabularyModel, operation: OperationModel) -> bool {
    match operation {
        OperationModel::AllocateEntity { entity } => entity < VM_LITERAL_BASE,
        OperationModel::Define { slot, fact } => token_of(vocabulary.slots, slot) >= 0
            && atom_known(vocabulary, fact.subject) && token_of(
            vocabulary.predicates,
            fact.predicate,
        ) >= 0 && atom_known(vocabulary, fact.object),
        OperationModel::Forget { slot } => token_of(vocabulary.slots, slot) >= 0,
    }
}

pub open spec fn all_known(vocabulary: VocabularyModel, operations: Seq<OperationModel>) -> bool {
    forall|i: int|
        0 <= i < operations.len() ==> operation_known(vocabulary, #[trigger] operations[i])
}

/// The program of one operation.
pub open spec fn compiled(vocabulary: VocabularyModel, operation: OperationModel) -> Seq<
    Instruction,
> {
    match operation {
        OperationModel::AllocateEntity { entity } => seq![discard_entity()],
        OperationModel::Define { slot, fact } => seq![
            push_cell(atom_cell_of(vocabulary, fact.subject)),
            push_cell(token_of(vocabulary.predicates, fact.predicate) as u64),
            push_cell(atom_cell_of(vocabulary, fact.object)),
            define_slot(token_of(vocabulary.slots, slot) as u32),
        ],
        OperationModel::Forget { slot } => seq![
            forget_slot(token_of(vocabulary.slots, slot) as u32),
        ],
    }
}

/// The program of a list of operations.
pub open spec fn compiled_all(
    vocabulary: VocabularyModel,
    operations: Seq<OperationModel>,
) -> Seq<Instruction>
    decreases operations.len(),
{
    if operations.len() == 0 {
        Seq::empty()
    } else {
        compiled_all(vocabulary, operations.drop_last()) + compiled(vocabulary, operations.last())
    }
}

/// An operation takes one record or one entity.
pub proof fn compiled_effect(vocabulary: VocabularyModel, operation: OperationModel)
    ensures
        effects(compiled(vocabulary, operation)) == 1,
{
    reveal_with_fuel(effects, 5);
    let program = compiled(vocabulary, operation);
    if program.len() == 4 {
        let three = program.drop_last();
        let two = three.drop_last();
        let one = two.drop_last();
        assert(three.last() == program[2] && two.last() == program[1] && one.last() == program[0]);
    }
}

/// A program of operations takes as many records and entities as there are operations.
pub proof fn compiled_effects(vocabulary: VocabularyModel, operations: Seq<OperationModel>)
    ensures
        effects(compiled_all(vocabulary, operations)) == operations.len(),
    decreases operations.len(),
{
    if operations.len() > 0 {
        let front = operations.drop_last();
        compiled_effects(vocabulary, front);
        compiled_effect(vocabulary, operations.last());
        effects_join(
            compiled_all(vocabulary, front),
            compiled(vocabulary, operations.last()),
        );
    }
}

/// A name keeps its token when more names are learned.
pub proof fn token_is_stable<T>(less: Seq<T>, more: Seq<T>, name: T)
    requires
        less.len() <= more.len(),
        more.take(less.len() as int) == less,
        distinct(more),
        token_of(less, name) >= 0,
    ensures
        token_of(more, name) == token_of(less, name),
{
    token_facts(less, name);
    let t = token_of(less, name);
    assert(more.take(less.len() as int)[t] == more[t]);
    token_is(more, t);
}

pub proof fn known_is_stable(
    less: VocabularyModel,
    more: VocabularyModel,
    operation: OperationModel,
)
    requires
        knows_more(less, more),
        vocabulary_ok(more),
        operation_known(less, operation),
    ensures
        operation_known(more, operation),
{
    match operation {
        OperationModel::Define { slot, fact } => {
            token_is_stable(less.slots, more.slots, slot);
            token_is_stable(less.predicates, more.predicates, fact.predicate);
            atom_known_is_stable(less, more, fact.subject);
            atom_known_is_stable(less, more, fact.object);
        },
        OperationModel::Forget { slot } => {
            token_is_stable(less.slots, more.slots, slot);
        },
        _ => {},
    }
}

pub proof fn atom_known_is_stable(less: VocabularyModel, more: VocabularyModel, atom: AtomModel)
    requires
        knows_more(less, more),
        vocabulary_ok(more),
        atom_known(less, atom),
    ensures
        atom_known(more, atom),
{
    match atom {
        AtomModel::Literal(literal) => {
            token_is_stable(less.literals, more.literals, literal);
        },
        AtomModel::Entity(entity) => {
            if entity >= VM_LITERAL_BASE {
                token_is_stable(less.displaced, more.displaced, entity);
            }
        },
    }
}

/// The cell of a known atom stands for it.
pub proof fn cell_stands_for_atom(vocabulary: VocabularyModel, atom: AtomModel)
    requires
        vocabulary_ok(vocabulary),
        atom_known(vocabulary, atom),
    ensures
        cell_ok(vocabulary, atom_cell_of(vocabulary, atom)),
        cell_atom(vocabulary, atom_cell_of(vocabulary, atom)) == atom,
{
    match atom {
        AtomModel::Literal(literal) => {
            token_facts(vocabulary.literals, literal);
        },
        AtomModel::Entity(entity) => {
            token_facts(vocabulary.displaced, entity);
        },
    }
}

/// The program of one operation does to a machine what the operation does to the definitions.
pub proof fn compiled_runs(
    vocabulary: VocabularyModel,
    vm: VmModel,
    kernel: KernelModel,
    operation: OperationModel,
)
    requires
        mirrors(vocabulary, vm, kernel),
        vocabulary_ok(vocabulary),
        operation_known(vocabulary, operation),
        applied(kernel, operation) is Ok,
    ensures
        ({
            let run = vm_run(
                RunModel { vm, stack: Seq::empty() },
                compiled(vocabulary, operation),
            );
            &&& run is Ok
            &&& run->Ok_0.stack == Seq::<u64>::empty()
            &&& mirrors(vocabulary, run->Ok_0.vm, applied(kernel, operation)->Ok_0)
        }),
{
    let start = RunModel { vm, stack: Seq::empty() };
    let program = compiled(vocabulary, operation);
    match operation {
        OperationModel::AllocateEntity { entity } => {
            one_instruction(start, program[0]);
            assert(program =~= seq![program[0]]);
            mirrors_allocate(vocabulary, vm, kernel);
        },
        OperationModel::Define { slot, fact } => {
            cell_stands_for_atom(vocabulary, fact.subject);
            cell_stands_for_atom(vocabulary, fact.object);
            token_facts(vocabulary.slots, slot);
            token_facts(vocabulary.predicates, fact.predicate);
            mirrors_resolves(vocabulary, vm, kernel, slot);
            let token = token_of(vocabulary.slots, slot);
            let triple = Triple {
                subject: atom_cell_of(vocabulary, fact.subject),
                predicate: token_of(vocabulary.predicates, fact.predicate) as u64,
                object: atom_cell_of(vocabulary, fact.object),
            };
            assert(triple_fact(vocabulary, triple) == fact);
            mirrors_define(vocabulary, vm, kernel, token, triple);
            assert(program.drop_last() =~= seq![program[0], program[1], program[2]]);
            assert(program.drop_last().drop_last() =~= seq![program[0], program[1]]);
            assert(program.drop_last().drop_last().drop_last() =~= seq![program[0]]);
            one_instruction(start, program[0]);
            let first = RunModel { vm, stack: seq![triple.subject] };
            assert(start.stack.push(triple.subject) =~= first.stack);
            let second = RunModel { vm, stack: seq![triple.subject, triple.predicate] };
            assert(first.stack.push(triple.predicate) =~= second.stack);
            let third = RunModel {
                vm,
                stack: seq![triple.subject, triple.predicate, triple.object],
            };
            assert(second.stack.push(triple.object) =~= third.stack);
            assert(vm_run(start, seq![program[0]]) == Ok::<RunModel, VmFault>(first));
            assert(vm_run(start, seq![program[0], program[1]]) == Ok::<RunModel, VmFault>(second));
            assert(vm_run(start, seq![program[0], program[1], program[2]]) == Ok::<
                RunModel,
                VmFault,
            >(third));
            assert(third.stack.take(0) =~= Seq::empty());
        },
        OperationModel::Forget { slot } => {
            token_facts(vocabulary.slots, slot);
            mirrors_resolves(vocabulary, vm, kernel, slot);
            one_instruction(start, program[0]);
            assert(program =~= seq![program[0]]);
            mirrors_forget(vocabulary, vm, kernel, token_of(vocabulary.slots, slot));
        },
    }
}

pub proof fn one_instruction(run: RunModel, instruction: Instruction)
    ensures
        vm_run(run, seq![instruction]) == vm_step(run, instruction),
{
    assert(seq![instruction].drop_last() =~= Seq::empty());
    reveal_with_fuel(vm_run, 2);
}

/// Executing the program of operations is replaying the operations.
pub proof fn execution_mirrors_replay(
    vocabulary: VocabularyModel,
    vm: VmModel,
    kernel: KernelModel,
    operations: Seq<OperationModel>,
)
    requires
        mirrors(vocabulary, vm, kernel),
        vocabulary_ok(vocabulary),
        all_known(vocabulary, operations),
        replayed(kernel, operations) is Ok,
    ensures
        ({
            let run = vm_run(
                RunModel { vm, stack: Seq::empty() },
                compiled_all(vocabulary, operations),
            );
            &&& run is Ok
            &&& run->Ok_0.stack == Seq::<u64>::empty()
            &&& mirrors(vocabulary, run->Ok_0.vm, replayed(kernel, operations)->Ok_0)
        }),
    decreases operations.len(),
{
    if operations.len() > 0 {
        let front = operations.drop_last();
        assert forall|i: int| 0 <= i < front.len() implies operation_known(
            vocabulary,
            #[trigger] front[i],
        ) by {
            assert(front[i] == operations[i]);
        }
        execution_mirrors_replay(vocabulary, vm, kernel, front);
        let start = RunModel { vm, stack: Seq::empty() };
        vm_run_concat(
            start,
            compiled_all(vocabulary, front),
            compiled(vocabulary, operations.last()),
        );
        let middle = vm_run(start, compiled_all(vocabulary, front))->Ok_0;
        assert(operation_known(vocabulary, operations[operations.len() - 1]));
        compiled_runs(
            vocabulary,
            middle.vm,
            replayed(kernel, front)->Ok_0,
            operations.last(),
        );
        assert(middle == RunModel { vm: middle.vm, stack: Seq::<u64>::empty() });
    }
}

/// The names of the token machine.
pub struct Vocabulary {
    slots: Vec<SlotId>,
    predicates: Vec<Predicate>,
    literals: Vec<Literal>,
    displaced: Vec<u64>,
}

impl View for Vocabulary {
    type V = VocabularyModel;

    closed spec fn view(&self) -> VocabularyModel {
        VocabularyModel {
            slots: views(self.slots@),
            predicates: views(self.predicates@),
            literals: views(self.literals@),
            displaced: self.displaced@,
        }
    }
}

/// How many names there are of each kind.
#[derive(Clone, Copy)]
pub struct VocabularyMark {
    pub slots: usize,
    pub predicates: usize,
    pub literals: usize,
    pub displaced: usize,
}

impl Vocabulary {
    pub fn new() -> (result: Self)
        ensures
            result@ == (VocabularyModel {
                slots: Seq::empty(),
                predicates: Seq::empty(),
                literals: Seq::empty(),
                displaced: Seq::empty(),
            }),
            vocabulary_ok(result@),
    {
        let result = Vocabulary {
            slots: Vec::new(),
            predicates: Vec::new(),
            literals: Vec::new(),
            displaced: Vec::new(),
        };
        proof {
            assert(result@.slots =~= Seq::empty());
            assert(result@.predicates =~= Seq::empty());
            assert(result@.literals =~= Seq::empty());
            assert(result@.displaced =~= Seq::empty());
        }
        result
    }

    /// A vocabulary that starts with given names.
    pub(crate) fn assemble(
        slots: Vec<SlotId>,
        predicates: Vec<Predicate>,
        literals: Vec<Literal>,
    ) -> (result: Self)
        ensures
            result@ == (VocabularyModel {
                slots: views(slots@),
                predicates: views(predicates@),
                literals: views(literals@),
                displaced: Seq::empty(),
            }),
    {
        let result = Vocabulary { slots, predicates, literals, displaced: Vec::new() };
        proof {
            assert(result@.displaced =~= Seq::empty());
        }
        result
    }

    /// The names, in the order in which they were learned.
    pub(crate) fn into_lists(self) -> (result: (Vec<SlotId>, Vec<Predicate>, Vec<Literal>))
        ensures
            self@ == (VocabularyModel {
                slots: views(result.0@),
                predicates: views(result.1@),
                literals: views(result.2@),
                displaced: self@.displaced,
            }),
    {
        (self.slots, self.predicates, self.literals)
    }

    pub fn slot_count(&self) -> (result: usize)
        ensures
            result == self@.slots.len(),
    {
        self.slots.len()
    }

    /// The sizes of the dictionaries.
    pub fn mark(&self) -> (result: VocabularyMark)
        ensures
            result.slots == self@.slots.len(),
            result.predicates == self@.predicates.len(),
            result.literals == self@.literals.len(),
            result.displaced == self@.displaced.len(),
    {
        VocabularyMark {
            slots: self.slots.len(),
            predicates: self.predicates.len(),
            literals: self.literals.len(),
            displaced: self.displaced.len(),
        }
    }

    /// Unlearns what was learned since a mark was taken.
    pub fn reset(&mut self, mark: VocabularyMark)
        requires
            mark.slots <= old(self)@.slots.len(),
            mark.predicates <= old(self)@.predicates.len(),
            mark.literals <= old(self)@.literals.len(),
            mark.displaced <= old(self)@.displaced.len(),
        ensures
            final(self)@ == (VocabularyModel {
                slots: old(self)@.slots.take(mark.slots as int),
                predicates: old(self)@.predicates.take(mark.predicates as int),
                literals: old(self)@.literals.take(mark.literals as int),
                displaced: old(self)@.displaced.take(mark.displaced as int),
            }),
    {
        proof {
            assert(self@.slots.len() == self.slots@.len());
            assert(self@.predicates.len() == self.predicates@.len());
            assert(self@.literals.len() == self.literals@.len());
            views_take(self.slots@, mark.slots as int);
            views_take(self.predicates@, mark.predicates as int);
            views_take(self.literals@, mark.literals as int);
        }
        self.slots.truncate(mark.slots);
        self.predicates.truncate(mark.predicates);
        self.literals.truncate(mark.literals);
        self.displaced.truncate(mark.displaced);
    }

    /// The token of a slot.
    pub fn find_slot(&self, slot: &SlotId) -> (result: Option<u32>)
        requires
            vocabulary_ok(self@),
        ensures
            match result {
                Some(token) => token == token_of(self@.slots, slot@),
                None => token_of(self@.slots, slot@) < 0,
            },
    {
        proof {
            token_facts(self@.slots, slot@);
            assert(self@.slots.len() == self.slots@.len());
        }
        let mut index: usize = 0;
        while index < self.slots.len()
            invariant
                index <= self.slots.len(),
                vocabulary_ok(self@),
                self@.slots == views(self.slots@),
                self.slots.len() < NONE,
                forall|i: int| 0 <= i < index ==> #[trigger] self@.slots[i] != slot@,
            decreases self.slots.len() - index,
        {
            if self.slots[index].same(slot) {
                proof {
                    token_is(self@.slots, index as int);
                }
                return Some(index as u32);
            }
            index += 1;
        }
        proof {
            let t = token_of(self@.slots, slot@);
            if t >= 0 {
                assert(self@.slots[t] != slot@);
            }
        }
        None
    }

    /// The token of a predicate.
    pub fn find_predicate(&self, predicate: &Predicate) -> (result: Option<u32>)
        requires
            vocabulary_ok(self@),
        ensures
            match result {
                Some(token) => token == token_of(self@.predicates, predicate@),
                None => token_of(self@.predicates, predicate@) < 0,
            },
    {
        proof {
            token_facts(self@.predicates, predicate@);
            assert(self@.predicates.len() == self.predicates@.len());
        }
        let mut index: usize = 0;
        while index < self.predicates.len()
            invariant
                index <= self.predicates.len(),
                vocabulary_ok(self@),
                self@.predicates == views(self.predicates@),
                self.predicates.len() < NONE,
                forall|i: int| 0 <= i < index ==> #[trigger] self@.predicates[i] != predicate@,
            decreases self.predicates.len() - index,
        {
            if self.predicates[index].same(predicate) {
                proof {
                    token_is(self@.predicates, index as int);
                }
                return Some(index as u32);
            }
            index += 1;
        }
        proof {
            let t = token_of(self@.predicates, predicate@);
            if t >= 0 {
                assert(self@.predicates[t] != predicate@);
            }
        }
        None
    }

    /// The token of a literal.
    pub fn find_literal(&self, literal: &Literal) -> (result: Option<usize>)
        requires
            vocabulary_ok(self@),
        ensures
            match result {
                Some(token) => token == token_of(self@.literals, literal@) && token
                    < self@.literals.len(),
                None => token_of(self@.literals, literal@) < 0,
            },
    {
        proof {
            token_facts(self@.literals, literal@);
            assert(self@.literals.len() == self.literals@.len());
        }
        let mut index: usize = 0;
        while index < self.literals.len()
            invariant
                index <= self.literals.len(),
                vocabulary_ok(self@),
                self@.literals == views(self.literals@),
                self.literals.len() < VM_CELL_LIMIT,
                forall|i: int| 0 <= i < index ==> #[trigger] self@.literals[i] != literal@,
            decreases self.literals.len() - index,
        {
            if self.literals[index].same(literal) {
                proof {
                    token_is(self@.literals, index as int);
                }
                return Some(index);
            }
            index += 1;
        }
        proof {
            let t = token_of(self@.literals, literal@);
            if t >= 0 {
                assert(self@.literals[t] != literal@);
            }
        }
        None
    }

    /// Learns a slot, if it is new.
    pub fn learn_slot(&mut self, slot: &SlotId) -> (result: u32)
        requires
            vocabulary_ok(old(self)@),
            old(self)@.slots.len() + 1 < NONE,
        ensures
            final(self)@ == (VocabularyModel {
                slots: with_name(old(self)@.slots, slot@),
                ..old(self)@
            }),
            result == token_of(final(self)@.slots, slot@),
            vocabulary_ok(final(self)@),
            knows_more(old(self)@, final(self)@),
    {
        proof {
            with_name_facts(self@.slots, slot@);
            with_name_prefix(self@.slots, slot@);
            whole_lists(self@);
        }
        match self.find_slot(slot) {
            Some(token) => token,
            None => {
                let token: u32 = self.slots.len() as u32;
                let name = slot.clone();
                proof {
                    views_push(self.slots@, name);
                    assert(self@.slots.len() == self.slots@.len());
                    assert(self@.slots.push(slot@).last() == slot@);
                }
                self.slots.push(name);
                token
            },
        }
    }

    /// Learns a predicate, if it is new.
    pub fn learn_predicate(&mut self, predicate: &Predicate) -> (result: u64)
        requires
            vocabulary_ok(old(self)@),
            old(self)@.predicates.len() + 1 < NONE,
        ensures
            final(self)@ == (VocabularyModel {
                predicates: with_name(old(self)@.predicates, predicate@),
                ..old(self)@
            }),
            result == token_of(final(self)@.predicates, predicate@),
            vocabulary_ok(final(self)@),
            knows_more(old(self)@, final(self)@),
    {
        proof {
            with_name_facts(self@.predicates, predicate@);
            with_name_prefix(self@.predicates, predicate@);
            whole_lists(self@);
        }
        match self.find_predicate(predicate) {
            Some(token) => token as u64,
            None => {
                let token: u64 = self.predicates.len() as u64;
                let name = predicate.clone();
                proof {
                    views_push(self.predicates@, name);
                    assert(self@.predicates.len() == self.predicates@.len());
                    assert(self@.predicates.push(predicate@).last() == predicate@);
                }
                self.predicates.push(name);
                token
            },
        }
    }

    /// Learns a literal, if it is new.
    pub fn learn_literal(&mut self, literal: &Literal) -> (result: u64)
        requires
            vocabulary_ok(old(self)@),
            old(self)@.literals.len() + 1 < VM_CELL_LIMIT,
        ensures
            final(self)@ == (VocabularyModel {
                literals: with_name(old(self)@.literals, literal@),
                ..old(self)@
            }),
            result == VM_LITERAL_BASE + token_of(final(self)@.literals, literal@),
            vocabulary_ok(final(self)@),
            knows_more(old(self)@, final(self)@),
    {
        proof {
            with_name_facts(self@.literals, literal@);
            with_name_prefix(self@.literals, literal@);
            whole_lists(self@);
        }
        match self.find_literal(literal) {
            Some(token) => VM_LITERAL_BASE + token as u64,
            None => {
                proof {
                    assert(self@.literals.len() == self.literals@.len());
                }
                let cell: u64 = VM_LITERAL_BASE + self.literals.len() as u64;
                let name = literal.clone();
                proof {
                    views_push(self.literals@, name);
                    assert(self@.literals.push(literal@).last() == literal@);
                }
                self.literals.push(name);
                cell
            },
        }
    }

    /// The atom that a cell stands for.
    pub fn atom_from_cell(&self, cell: u64) -> (result: Option<Atom>)
        ensures
            match result {
                Some(atom) => cell_ok(self@, cell) && atom@ == cell_atom(self@, cell),
                None => !cell_ok(self@, cell),
            },
    {
        proof {
            assert(self@.literals.len() == self.literals@.len());
        }
        if cell < VM_LITERAL_BASE {
            return Some(Atom::Entity(EntityId(cell)));
        }
        if cell >= VM_DISPLACED_BASE {
            let token: u64 = cell - VM_DISPLACED_BASE;
            if token >= self.displaced.len() as u64 {
                return None;
            }
            return Some(Atom::Entity(EntityId(self.displaced[token as usize])));
        }
        let token: u64 = cell - VM_LITERAL_BASE;
        if token >= self.literals.len() as u64 {
            return None;
        }
        Some(Atom::Literal(self.literals[token as usize].clone()))
    }

    /// The predicate that a cell stands for.
    pub fn predicate_from_cell(&self, cell: u64) -> (result: Option<Predicate>)
        ensures
            match result {
                Some(predicate) => cell < self@.predicates.len() && predicate@
                    == self@.predicates[cell as int],
                None => cell >= self@.predicates.len(),
            },
    {
        proof {
            assert(self@.predicates.len() == self.predicates@.len());
        }
        if cell >= self.predicates.len() as u64 {
            return None;
        }
        Some(self.predicates[cell as usize].clone())
    }

    /// The token of an entity that is not its own cell.
    fn find_displaced(&self, entity: u64) -> (result: Option<usize>)
        requires
            vocabulary_ok(self@),
        ensures
            match result {
                Some(token) => token == token_of(self@.displaced, entity) && token
                    < self@.displaced.len(),
                None => token_of(self@.displaced, entity) < 0,
            },
    {
        proof {
            token_facts(self@.displaced, entity);
        }
        let mut index: usize = 0;
        while index < self.displaced.len()
            invariant
                index <= self.displaced.len(),
                vocabulary_ok(self@),
                self@.displaced == self.displaced@,
                forall|i: int| 0 <= i < index ==> #[trigger] self@.displaced[i] != entity,
            decreases self.displaced.len() - index,
        {
            if self.displaced[index] == entity {
                proof {
                    token_is(self@.displaced, index as int);
                }
                return Some(index);
            }
            index += 1;
        }
        None
    }

    /// Learns an entity that is not its own cell, if it is new.
    fn learn_displaced(&mut self, entity: u64)
        requires
            vocabulary_ok(old(self)@),
            old(self)@.displaced.len() + 1 < VM_CELL_LIMIT,
            entity >= VM_LITERAL_BASE,
        ensures
            final(self)@ == (VocabularyModel {
                displaced: with_name(old(self)@.displaced, entity),
                ..old(self)@
            }),
            vocabulary_ok(final(self)@),
            knows_more(old(self)@, final(self)@),
            token_of(final(self)@.displaced, entity) >= 0,
    {
        proof {
            with_name_facts(self@.displaced, entity);
            with_name_prefix(self@.displaced, entity);
            whole_lists(self@);
        }
        if self.find_displaced(entity).is_none() {
            self.displaced.push(entity);
        }
    }

    /// Learns an atom. Where `wide` does not allow it, an entity that is not its own cell has none.
    pub(crate) fn learn_atom(&mut self, atom: &Atom, wide: bool) -> (result: Result<(), String>)
        requires
            vocabulary_ok(old(self)@),
            old(self)@.literals.len() + 1 < VM_CELL_LIMIT,
            old(self)@.displaced.len() + 1 < VM_CELL_LIMIT,
        ensures
            vocabulary_ok(final(self)@),
            knows_more(old(self)@, final(self)@),
            final(self)@.slots == old(self)@.slots,
            final(self)@.predicates == old(self)@.predicates,
            final(self)@.literals.len() <= old(self)@.literals.len() + 1,
            final(self)@.displaced.len() <= old(self)@.displaced.len() + 1,
            match atom_fault(atom@) {
                Some(message) if !wide => result matches Err(found) && found@ == message
                    && final(self)@ == old(self)@,
                _ => result is Ok && atom_known(final(self)@, atom@),
            },
    {
        match atom {
            Atom::Entity(entity) => {
                proof {
                    whole_lists(self@);
                    with_name_facts(self@.displaced, entity.0);
                }
                if entity.0 >= VM_LITERAL_BASE {
                    if !wide {
                        return Err(
                            "entity identifier overlaps the VM literal namespace".to_owned(),
                        );
                    }
                    self.learn_displaced(entity.0);
                }
            },
            Atom::Literal(literal) => {
                proof {
                    with_name_facts(self@.literals, literal@);
                }
                let _cell = self.learn_literal(literal);
            },
        }
        Ok(())
    }

    /// Learns the names of an operation.
    pub(crate) fn learn_operation(&mut self, operation: &Operation, wide: bool) -> (result: Result<
        (),
        String,
    >)
        requires
            vocabulary_ok(old(self)@),
            old(self)@.slots.len() + 1 < NONE,
            old(self)@.predicates.len() + 1 < NONE,
            old(self)@.literals.len() + 2 < VM_CELL_LIMIT,
            old(self)@.displaced.len() + 2 < VM_CELL_LIMIT,
        ensures
            vocabulary_ok(final(self)@),
            knows_more(old(self)@, final(self)@),
            final(self)@.slots.len() <= old(self)@.slots.len() + 1,
            final(self)@.predicates.len() <= old(self)@.predicates.len() + 1,
            final(self)@.literals.len() <= old(self)@.literals.len() + 2,
            final(self)@.displaced.len() <= old(self)@.displaced.len() + 2,
            match operation_fault(operation@) {
                Some(message) if !wide || operation@ is AllocateEntity => result matches Err(found)
                    && found@ == message,
                _ => result is Ok && operation_known(final(self)@, operation@),
            },
    {
        match operation {
            Operation::AllocateEntity { entity } => {
                proof {
                    whole_lists(self@);
                }
                if entity.0 >= VM_LITERAL_BASE {
                    return Err("entity allocator exhausted the VM atom namespace".to_owned());
                }
            },
            Operation::Define { slot, fact } => {
                proof {
                    with_name_facts(self@.slots, slot@);
                    with_name_facts(self@.predicates, fact.predicate@);
                }
                let ghost v0 = self@;
                let _slot = self.learn_slot(slot);
                let ghost v1 = self@;
                self.learn_atom(&fact.subject, wide)?;
                let ghost v2 = self@;
                proof {
                    knows_more_chain(v0, v1, v2);
                }
                let _predicate = self.learn_predicate(&fact.predicate);
                let ghost v3 = self@;
                proof {
                    knows_more_chain(v0, v2, v3);
                    knows_more_chain(v1, v2, v3);
                    atom_known_is_stable(v2, v3, fact.subject@);
                    token_is_stable(v1.slots, v3.slots, slot@);
                }
                self.learn_atom(&fact.object, wide)?;
                proof {
                    let v4 = self@;
                    knows_more_chain(v0, v3, v4);
                    atom_known_is_stable(v3, v4, fact.subject@);
                    token_is_stable(v3.slots, v4.slots, slot@);
                    token_is_stable(v3.predicates, v4.predicates, fact.predicate@);
                }
            },
            Operation::Forget { slot } => {
                proof {
                    with_name_facts(self@.slots, slot@);
                }
                let _slot = self.learn_slot(slot);
            },
        }
        Ok(())
    }

    /// Learns the names of a list of operations, up to the first that cannot be compiled.
    pub fn learn_operations(&mut self, operations: &[Operation]) -> (result: Result<(), String>)
        requires
            vocabulary_ok(old(self)@),
            old(self)@.slots.len() + operations.len() < NONE,
            old(self)@.predicates.len() + operations.len() < NONE,
            old(self)@.literals.len() + 2 * operations.len() < VM_CELL_LIMIT,
            old(self)@.displaced.len() + 2 * operations.len() < VM_CELL_LIMIT,
        ensures
            vocabulary_ok(final(self)@),
            knows_more(old(self)@, final(self)@),
            final(self)@.slots.len() <= old(self)@.slots.len() + operations.len(),
            final(self)@.predicates.len() <= old(self)@.predicates.len() + operations.len(),
            final(self)@.literals.len() <= old(self)@.literals.len() + 2 * operations.len(),
            final(self)@.displaced.len() <= old(self)@.displaced.len() + 2 * operations.len(),
            match operations_fault(views(operations@)) {
                Some(message) => result matches Err(found) && found@ == message,
                None => result is Ok && all_known(final(self)@, views(operations@)),
            },
    {
        let ghost models = views(operations@);
        let ghost start = self@;
        let mut index: usize = 0;
        proof {
            assert(models.take(0) =~= Seq::empty());
            whole_lists(self@);
        }
        while index < operations.len()
            invariant
                index <= operations.len(),
                models == views(operations@),
                start == old(self)@,
                vocabulary_ok(self@),
                knows_more(start, self@),
                start.slots.len() + operations.len() < NONE,
                start.predicates.len() + operations.len() < NONE,
                start.literals.len() + 2 * operations.len() < VM_CELL_LIMIT,
                start.displaced.len() + 2 * operations.len() < VM_CELL_LIMIT,
                self@.slots.len() <= start.slots.len() + index,
                self@.predicates.len() <= start.predicates.len() + index,
                self@.literals.len() <= start.literals.len() + 2 * index,
                self@.displaced.len() <= start.displaced.len() + 2 * index,
                operations_fault(models.take(index as int)) is None,
                forall|i: int| 0 <= i < index ==> operation_known(self@, #[trigger] models[i]),
            decreases operations.len() - index,
        {
            let ghost before = self@;
            proof {
                assert(models.take(index + 1).drop_last() =~= models.take(index as int));
                assert(models.take(index + 1).last() == operations@[index as int]@);
            }
            let learned = self.learn_operation(&operations[index], false);
            proof {
                knows_more_chain(start, before, self@);
                assert forall|i: int| 0 <= i < index implies operation_known(
                    self@,
                    #[trigger] models[i],
                ) by {
                    known_is_stable(before, self@, models[i]);
                }
            }
            match learned {
                Ok(()) => {},
                Err(message) => {
                    proof {
                        operations_fault_stays(models, index + 1);
                    }
                    return Err(message);
                },
            }
            index += 1;
        }
        proof {
            assert(models.take(index as int) =~= models);
        }
        Ok(())
    }

    pub(crate) fn known_cell(&self, atom: &Atom) -> (result: u64)
        requires
            vocabulary_ok(self@),
            atom_known(self@, atom@),
        ensures
            result == atom_cell_of(self@, atom@),
    {
        match atom {
            Atom::Entity(entity) => if entity.0 < VM_LITERAL_BASE {
                entity.0
            } else {
                match self.find_displaced(entity.0) {
                    Some(token) => VM_DISPLACED_BASE + token as u64,
                    None => 0,
                }
            },
            Atom::Literal(literal) => match self.find_literal(literal) {
                Some(token) => VM_LITERAL_BASE + token as u64,
                None => 0,
            },
        }
    }

    /// Appends the program of an operation whose names are known.
    pub(crate) fn translate_one(&self, operation: &Operation, program: &mut Vec<Instruction>)
        requires
            vocabulary_ok(self@),
            operation_known(self@, operation@),
        ensures
            final(program)@ == old(program)@ + compiled(self@, operation@),
    {
        match operation {
            Operation::AllocateEntity { entity } => {
                program.push(Instruction::allocate_discard());
            },
            Operation::Define { slot, fact } => {
                let subject: u64 = self.known_cell(&fact.subject);
                let object: u64 = self.known_cell(&fact.object);
                let predicate: u32 = match self.find_predicate(&fact.predicate) {
                    Some(token) => token,
                    None => 0,
                };
                let token: u32 = match self.find_slot(slot) {
                    Some(token) => token,
                    None => 0,
                };
                program.push(Instruction::push(subject));
                program.push(Instruction::push(predicate as u64));
                program.push(Instruction::push(object));
                program.push(Instruction::define(token));
            },
            Operation::Forget { slot } => {
                let token: u32 = match self.find_slot(slot) {
                    Some(token) => token,
                    None => 0,
                };
                program.push(Instruction::forget(token));
            },
        }
        proof {
            assert(program@ =~= old(program)@ + compiled(self@, operation@));
        }
    }

    /// The program of operations whose names are known.
    pub fn translate(&self, operations: &[Operation]) -> (result: Vec<Instruction>)
        requires
            vocabulary_ok(self@),
            all_known(self@, views(operations@)),
        ensures
            result@ == compiled_all(self@, views(operations@)),
    {
        let ghost models = views(operations@);
        let mut program: Vec<Instruction> = Vec::new();
        let mut index: usize = 0;
        proof {
            assert(models.take(0) =~= Seq::empty());
        }
        while index < operations.len()
            invariant
                index <= operations.len(),
                models == views(operations@),
                vocabulary_ok(self@),
                all_known(self@, models),
                program@ == compiled_all(self@, models.take(index as int)),
            decreases operations.len() - index,
        {
            proof {
                assert(models.take(index + 1).drop_last() =~= models.take(index as int));
                assert(models.take(index + 1).last() == operations@[index as int]@);
                assert(operation_known(self@, models[index as int]));
            }
            self.translate_one(&operations[index], &mut program);
            index += 1;
        }
        proof {
            assert(models.take(index as int) =~= models);
        }
        program
    }
}

/// Why an atom has no cell of its own.
fn find_atom_fault(atom: &Atom) -> (result: Option<String>)
    ensures
        match result {
            Some(message) => atom_fault(atom@) == Some(message@),
            None => atom_fault(atom@) is None,
        },
{
    match atom {
        Atom::Entity(entity) => if entity.0 >= VM_LITERAL_BASE {
            Some("entity identifier overlaps the VM literal namespace".to_owned())
        } else {
            None
        },
        Atom::Literal(_) => None,
    }
}

/// The first operation that cannot be compiled.
pub fn find_fault(operations: &[Operation]) -> (result: Option<String>)
    ensures
        match result {
            Some(message) => operations_fault(views(operations@)) == Some(message@),
            None => operations_fault(views(operations@)) is None,
        },
{
    let ghost models = views(operations@);
    let mut index: usize = 0;
    proof {
        assert(models.take(0) =~= Seq::empty());
    }
    while index < operations.len()
        invariant
            index <= operations.len(),
            models == views(operations@),
            operations_fault(models.take(index as int)) is None,
        decreases operations.len() - index,
    {
        proof {
            assert(models.take(index + 1).drop_last() =~= models.take(index as int));
            assert(models.take(index + 1).last() == operations@[index as int]@);
        }
        let fault: Option<String> = match &operations[index] {
            Operation::AllocateEntity { entity } => if entity.0 >= VM_LITERAL_BASE {
                Some("entity allocator exhausted the VM atom namespace".to_owned())
            } else {
                None
            },
            Operation::Define { slot, fact } => match find_atom_fault(&fact.subject) {
                Some(message) => Some(message),
                None => find_atom_fault(&fact.object),
            },
            Operation::Forget { slot } => None,
        };
        if let Some(message) = fault {
            proof {
                operations_fault_stays(models, index + 1);
            }
            return Some(message);
        }
        index += 1;
    }
    proof {
        assert(models.take(index as int) =~= models);
    }
    None
}

pub proof fn operations_fault_stays(operations: Seq<OperationModel>, count: int)
    requires
        0 <= count <= operations.len(),
        operations_fault(operations.take(count)) is Some,
    ensures
        operations_fault(operations) == operations_fault(operations.take(count)),
    decreases operations.len(),
{
    if count == operations.len() {
        assert(operations.take(count) =~= operations);
    } else {
        assert(operations.drop_last().take(count) =~= operations.take(count));
        operations_fault_stays(operations.drop_last(), count);
    }
}

proof fn with_name_prefix<T>(names: Seq<T>, name: T)
    ensures
        with_name(names, name).take(names.len() as int) == names,
{
    assert(with_name(names, name).take(names.len() as int) =~= names);
}

pub proof fn whole_lists(vocabulary: VocabularyModel)
    ensures
        knows_more(vocabulary, vocabulary),
{
    assert(vocabulary.slots.take(vocabulary.slots.len() as int) =~= vocabulary.slots);
    assert(vocabulary.predicates.take(vocabulary.predicates.len() as int)
        =~= vocabulary.predicates);
    assert(vocabulary.literals.take(vocabulary.literals.len() as int) =~= vocabulary.literals);
    assert(vocabulary.displaced.take(vocabulary.displaced.len() as int) =~= vocabulary.displaced);
}

pub proof fn knows_more_chain(a: VocabularyModel, b: VocabularyModel, c: VocabularyModel)
    requires
        knows_more(a, b),
        knows_more(b, c),
    ensures
        knows_more(a, c),
{
    assert(c.slots.take(a.slots.len() as int) =~= c.slots.take(b.slots.len() as int).take(
        a.slots.len() as int,
    ));
    assert(c.predicates.take(a.predicates.len() as int) =~= c.predicates.take(
        b.predicates.len() as int,
    ).take(a.predicates.len() as int));
    assert(c.displaced.take(a.displaced.len() as int) =~= c.displaced.take(
        b.displaced.len() as int,
    ).take(a.displaced.len() as int));
    assert(c.literals.take(a.literals.len() as int) =~= c.literals.take(
        b.literals.len() as int,
    ).take(a.literals.len() as int));
}

} // verus!
