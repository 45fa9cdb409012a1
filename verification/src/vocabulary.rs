//! Names as numbers: the dictionaries of the token machine, and how its state stands for
//! definitions.

use crate::fact::{AtomModel, FactModel, Literal};
use crate::kernel::{
    KernelModel, active_fact, active_fact_is_newest, define_then_resolve, defined, empty_kernel,
    forget_reveals_previous, forgotten, slot_facts,
};
use crate::vm::{
    NONE, Triple, VM_CELL_LIMIT, VM_DISPLACED_BASE, VM_LITERAL_BASE, VmModel, without_newest,
};
use vstd::prelude::*;
use vstd::string::*;

verus! {

/// Mathematical value of a [`Vocabulary`]: the name of every token.
pub struct VocabularyModel {
    pub slots: Seq<Seq<char>>,
    pub predicates: Seq<Seq<char>>,
    pub literals: Seq<Seq<char>>,
    /// Entities whose numbers are the cells of something else.
    pub displaced: Seq<u64>,
}

/// Position of a name, or `-1`.
pub open spec fn token_of<T>(names: Seq<T>, name: T) -> int
    decreases names.len(),
{
    if names.len() == 0 {
        -1
    } else if names.last() == name {
        names.len() - 1
    } else {
        token_of(names.drop_last(), name)
    }
}

/// The list with a name that it has now.
pub open spec fn with_name<T>(names: Seq<T>, name: T) -> Seq<T> {
    if token_of(names, name) >= 0 {
        names
    } else {
        names.push(name)
    }
}

/// No name occurs twice.
pub open spec fn distinct<T>(names: Seq<T>) -> bool {
    forall|i: int, j: int|
        0 <= i < j < names.len() ==> #[trigger] names[i] != #[trigger] names[j]
}

pub proof fn token_facts<T>(names: Seq<T>, name: T)
    ensures
        -1 <= token_of(names, name) < names.len(),
        token_of(names, name) >= 0 ==> names[token_of(names, name)] == name,
        token_of(names, name) < 0 ==> forall|i: int|
            0 <= i < names.len() ==> #[trigger] names[i] != name,
    decreases names.len(),
{
    if names.len() > 0 && names.last() != name {
        token_facts(names.drop_last(), name);
        assert forall|i: int|
            token_of(names, name) < 0 && 0 <= i < names.len() implies #[trigger] names[i]
            != name by {
            if i < names.len() - 1 {
                assert(names.drop_last()[i] == names[i]);
            }
        }
    }
}

/// The token of a name that occurs once.
pub proof fn token_is<T>(names: Seq<T>, index: int)
    requires
        distinct(names),
        0 <= index < names.len(),
    ensures
        token_of(names, names[index]) == index,
{
    let name = names[index];
    token_facts(names, name);
    let found = token_of(names, name);
    if found < 0 {
        assert(names[index] != name);
    } else if found < index {
        assert(names[found] != names[index]);
    } else if found > index {
        assert(names[index] != names[found]);
    }
}

/// Learning a name keeps the tokens of the others.
pub proof fn with_name_facts<T>(names: Seq<T>, name: T)
    requires
        distinct(names),
    ensures
        distinct(with_name(names, name)),
        names.len() <= with_name(names, name).len() <= names.len() + 1,
        forall|i: int| 0 <= i < names.len() ==> with_name(names, name)[i] == names[i],
        0 <= token_of(with_name(names, name), name) < with_name(names, name).len(),
        forall|other: T|
            token_of(names, other) >= 0 ==> #[trigger] token_of(with_name(names, name), other)
                == token_of(names, other),
        forall|other: T|
            other != name ==> #[trigger] token_of(with_name(names, name), other) == token_of(
                names,
                other,
            ),
{
    token_facts(names, name);
    let more = with_name(names, name);
    if token_of(names, name) < 0 {
        assert(more.drop_last() =~= names);
        assert forall|i: int, j: int| 0 <= i < j < more.len() implies #[trigger] more[i]
            != #[trigger] more[j] by {
            if j == names.len() {
                assert(names[i] != name);
            } else {
                assert(names[i] != names[j]);
            }
        }
    }
}

pub open spec fn vocabulary_ok(vocabulary: VocabularyModel) -> bool {
    &&& distinct(vocabulary.slots)
    &&& distinct(vocabulary.predicates)
    &&& distinct(vocabulary.literals)
    &&& distinct(vocabulary.displaced)
    &&& vocabulary.slots.len() < NONE
    &&& vocabulary.predicates.len() < NONE
    &&& vocabulary.literals.len() < VM_CELL_LIMIT
    &&& vocabulary.displaced.len() < VM_CELL_LIMIT
    &&& forall|i: int|
        0 <= i < vocabulary.displaced.len() ==> #[trigger] vocabulary.displaced[i]
            >= VM_LITERAL_BASE
}

/// A vocabulary whose tokens are all narrow, and in which every entity is its own cell.
pub open spec fn tables_ok(vocabulary: VocabularyModel) -> bool {
    &&& vocabulary_ok(vocabulary)
    &&& vocabulary.literals.len() < NONE
    &&& vocabulary.displaced == Seq::<u64>::empty()
}

/// The cell of an atom whose name is known. An entity is its own cell, unless that is the cell of
/// something else.
pub open spec fn atom_cell_of(vocabulary: VocabularyModel, atom: AtomModel) -> u64 {
    match atom {
        AtomModel::Entity(entity) => if entity < VM_LITERAL_BASE {
            entity
        } else {
            (VM_DISPLACED_BASE + token_of(vocabulary.displaced, entity)) as u64
        },
        AtomModel::Literal(literal) => (VM_LITERAL_BASE + token_of(
            vocabulary.literals,
            literal,
        )) as u64,
    }
}

/// The atom that a cell stands for.
pub open spec fn cell_atom(vocabulary: VocabularyModel, cell: u64) -> AtomModel {
    if cell < VM_LITERAL_BASE {
        AtomModel::Entity(cell)
    } else if cell < VM_DISPLACED_BASE {
        AtomModel::Literal(vocabulary.literals[cell - VM_LITERAL_BASE])
    } else {
        AtomModel::Entity(vocabulary.displaced[cell - VM_DISPLACED_BASE])
    }
}

pub open spec fn cell_ok(vocabulary: VocabularyModel, cell: u64) -> bool {
    if cell < VM_LITERAL_BASE {
        true
    } else if cell < VM_DISPLACED_BASE {
        cell - VM_LITERAL_BASE < vocabulary.literals.len()
    } else {
        cell - VM_DISPLACED_BASE < vocabulary.displaced.len()
    }
}

/// The fact that a triple of cells stands for.
pub open spec fn triple_fact(vocabulary: VocabularyModel, triple: Triple) -> FactModel {
    FactModel {
        subject: cell_atom(vocabulary, triple.subject),
        predicate: vocabulary.predicates[triple.predicate as int],
        object: cell_atom(vocabulary, triple.object),
    }
}

pub open spec fn triple_ok(vocabulary: VocabularyModel, triple: Triple) -> bool {
    &&& cell_ok(vocabulary, triple.subject)
    &&& triple.predicate < vocabulary.predicates.len()
    &&& cell_ok(vocabulary, triple.object)
}

pub open spec fn triple_facts(vocabulary: VocabularyModel, stack: Seq<Triple>) -> Seq<FactModel> {
    Seq::new(stack.len(), |i: int| triple_fact(vocabulary, stack[i]))
}

/// The machine's state stands for the definitions of a kernel.
#[verifier::opaque]
pub open spec fn mirrors(
    vocabulary: VocabularyModel,
    vm: VmModel,
    kernel: KernelModel,
) -> bool {
    &&& vm.next_entity == kernel.next_entity
    &&& vm.deltas == kernel.records
    &&& vm.stacks.len() >= vocabulary.slots.len()
    &&& forall|t: int, i: int|
        0 <= t < vm.stacks.len() && 0 <= i < vm.stacks[t].len() ==> triple_ok(
            vocabulary,
            #[trigger] vm.stacks[t][i],
        )
    &&& forall|t: int|
        0 <= t < vocabulary.slots.len() ==> triple_facts(vocabulary, #[trigger] vm.stacks[t])
            == slot_facts(kernel.live, vocabulary.slots[t])
    &&& forall|t: int|
        vocabulary.slots.len() <= t < vm.stacks.len() ==> (#[trigger] vm.stacks[t]).len() == 0
    &&& forall|name: Seq<char>|
        token_of(vocabulary.slots, name) < 0 ==> (#[trigger] slot_facts(kernel.live, name)).len()
            == 0
}

/// A machine without facts stands for an empty kernel.
pub proof fn mirrors_empty(vocabulary: VocabularyModel, slots: nat)
    requires
        slots >= vocabulary.slots.len(),
    ensures
        mirrors(
            vocabulary,
            VmModel {
                stacks: Seq::new(slots, |i: int| Seq::<Triple>::empty()),
                next_entity: 1,
                deltas: 0,
            },
            empty_kernel(),
        ),
{
    reveal(mirrors);
    assert forall|t: int| 0 <= t < vocabulary.slots.len() implies triple_facts(
        vocabulary,
        Seq::<Triple>::empty(),
    ) == slot_facts(empty_kernel().live, #[trigger] vocabulary.slots[t]) by {
        assert(triple_facts(vocabulary, Seq::<Triple>::empty()) =~= slot_facts(
            empty_kernel().live,
            vocabulary.slots[t],
        ));
    }
}

/// What a machine resolves is what the kernel resolves.
pub proof fn mirrors_resolves(
    vocabulary: VocabularyModel,
    vm: VmModel,
    kernel: KernelModel,
    slot: Seq<char>,
)
    requires
        mirrors(vocabulary, vm, kernel),
        vocabulary_ok(vocabulary),
    ensures
        vm.next_entity == kernel.next_entity,
        vm.deltas == kernel.records,
        vm.stacks.len() >= vocabulary.slots.len(),
        ({
            let token = token_of(vocabulary.slots, slot);
            active_fact(kernel.live, slot) == if token < 0 || vm.stacks[token].len() == 0 {
                None
            } else {
                Some(triple_fact(vocabulary, vm.stacks[token][0]))
            }
        }),
        ({
            let token = token_of(vocabulary.slots, slot);
            token >= 0 && vm.stacks[token].len() > 0 ==> triple_ok(
                vocabulary,
                vm.stacks[token][0],
            )
        }),
{
    reveal(mirrors);
    active_fact_is_newest(kernel.live, slot);
    token_facts(vocabulary.slots, slot);
    let token = token_of(vocabulary.slots, slot);
    if token >= 0 {
        assert(triple_facts(vocabulary, vm.stacks[token]) == slot_facts(kernel.live, slot));
        assert(triple_facts(vocabulary, vm.stacks[token]).len() == vm.stacks[token].len());
    }
}

/// One vocabulary knows at least what another does, under the same tokens.
pub open spec fn knows_more(less: VocabularyModel, more: VocabularyModel) -> bool {
    &&& less.slots.len() <= more.slots.len()
    &&& less.predicates.len() <= more.predicates.len()
    &&& less.literals.len() <= more.literals.len()
    &&& less.displaced.len() <= more.displaced.len()
    &&& more.slots.take(less.slots.len() as int) == less.slots
    &&& more.predicates.take(less.predicates.len() as int) == less.predicates
    &&& more.literals.take(less.literals.len() as int) == less.literals
    &&& more.displaced.take(less.displaced.len() as int) == less.displaced
}

/// A cell keeps its meaning when more names are learned.
proof fn cell_keeps_atom(less: VocabularyModel, more: VocabularyModel, cell: u64)
    requires
        knows_more(less, more),
        cell_ok(less, cell),
    ensures
        cell_ok(more, cell),
        cell_atom(more, cell) == cell_atom(less, cell),
{
    if VM_LITERAL_BASE <= cell < VM_DISPLACED_BASE {
        let token = cell - VM_LITERAL_BASE;
        assert(more.literals.take(less.literals.len() as int)[token] == less.literals[token]);
    } else if cell >= VM_DISPLACED_BASE {
        let token = cell - VM_DISPLACED_BASE;
        assert(more.displaced.take(less.displaced.len() as int)[token] == less.displaced[token]);
    }
}

/// Learning names changes nothing that a machine stands for, once it has the slots.
pub proof fn mirrors_learned(
    less: VocabularyModel,
    more: VocabularyModel,
    vm: VmModel,
    wider: VmModel,
    kernel: KernelModel,
)
    requires
        mirrors(less, vm, kernel),
        knows_more(less, more),
        vocabulary_ok(more),
        wider.next_entity == vm.next_entity,
        wider.deltas == vm.deltas,
        wider.stacks.len() >= more.slots.len(),
        wider.stacks.len() >= vm.stacks.len(),
        forall|t: int| 0 <= t < vm.stacks.len() ==> wider.stacks[t] == vm.stacks[t],
        forall|t: int|
            vm.stacks.len() <= t < wider.stacks.len() ==> (#[trigger] wider.stacks[t]).len() == 0,
    ensures
        mirrors(more, wider, kernel),
{
    reveal(mirrors);
    assert forall|name: Seq<char>| token_of(more.slots, name) < 0 implies (#[trigger] slot_facts(
        kernel.live,
        name,
    )).len() == 0 by {
        token_facts(more.slots, name);
        token_facts(less.slots, name);
        if token_of(less.slots, name) >= 0 {
            let t = token_of(less.slots, name);
            assert(more.slots.take(less.slots.len() as int)[t] == name);
            assert(more.slots[t] == name);
        }
    }
    assert forall|t: int, i: int|
        0 <= t < wider.stacks.len() && 0 <= i < wider.stacks[t].len() implies triple_ok(
        more,
        #[trigger] wider.stacks[t][i],
    ) by {
        assert(t < vm.stacks.len());
        assert(wider.stacks[t] == vm.stacks[t]);
        assert(triple_ok(less, vm.stacks[t][i]));
    }
    assert forall|t: int| 0 <= t < more.slots.len() implies triple_facts(
        more,
        #[trigger] wider.stacks[t],
    ) == slot_facts(kernel.live, more.slots[t]) by {
        if t < less.slots.len() {
            assert(wider.stacks[t] == vm.stacks[t]);
            assert(more.slots.take(less.slots.len() as int)[t] == less.slots[t]);
            assert(triple_facts(less, vm.stacks[t]) == slot_facts(kernel.live, less.slots[t]));
            assert forall|i: int| 0 <= i < vm.stacks[t].len() implies triple_fact(
                more,
                vm.stacks[t][i],
            ) == triple_fact(less, #[trigger] vm.stacks[t][i]) by {
                let triple = vm.stacks[t][i];
                assert(triple_ok(less, triple));
                assert(more.predicates.take(less.predicates.len() as int)[triple.predicate as int]
                    == less.predicates[triple.predicate as int]);
                cell_keeps_atom(less, more, triple.subject);
                cell_keeps_atom(less, more, triple.object);
            }
            assert(triple_facts(more, wider.stacks[t]) =~= triple_facts(less, vm.stacks[t]));
        } else {
            let name = more.slots[t];
            token_facts(less.slots, name);
            token_is(more.slots, t);
            if token_of(less.slots, name) >= 0 {
                let u = token_of(less.slots, name);
                assert(more.slots.take(less.slots.len() as int)[u] == name);
                assert(more.slots[u] != more.slots[t]);
            }
            assert(slot_facts(kernel.live, name).len() == 0);
            assert(wider.stacks[t].len() == 0);
            assert(triple_facts(more, wider.stacks[t]) =~= slot_facts(kernel.live, name));
        }
    }
    assert forall|t: int| more.slots.len() <= t < wider.stacks.len() implies (
    #[trigger] wider.stacks[t]).len() == 0 by {
        if t < vm.stacks.len() {
            assert(wider.stacks[t] == vm.stacks[t]);
        }
    }
}

/// A definition by tokens is a definition by names.
pub proof fn mirrors_define(
    vocabulary: VocabularyModel,
    vm: VmModel,
    kernel: KernelModel,
    token: int,
    triple: Triple,
)
    requires
        mirrors(vocabulary, vm, kernel),
        vocabulary_ok(vocabulary),
        0 <= token < vocabulary.slots.len(),
        triple_ok(vocabulary, triple),
    ensures
        mirrors(
            vocabulary,
            VmModel {
                stacks: vm.stacks.update(token, seq![triple] + vm.stacks[token]),
                deltas: vm.deltas + 1,
                ..vm
            },
            defined(kernel, vocabulary.slots[token], triple_fact(vocabulary, triple)),
        ),
{
    reveal(mirrors);
    let slot = vocabulary.slots[token];
    let fact = triple_fact(vocabulary, triple);
    let after = defined(kernel, slot, fact);
    let stack = seq![triple] + vm.stacks[token];
    let stacks = vm.stacks.update(token, stack);
    assert forall|t: int, i: int| 0 <= t < stacks.len() && 0 <= i < stacks[t].len() implies triple_ok(
        vocabulary,
        #[trigger] stacks[t][i],
    ) by {
        if t == token {
            if i > 0 {
                assert(stacks[t][i] == vm.stacks[t][i - 1]);
            }
        } else {
            assert(stacks[t] == vm.stacks[t]);
            assert(triple_ok(vocabulary, vm.stacks[t][i]));
        }
    }
    assert forall|t: int| 0 <= t < vocabulary.slots.len() implies triple_facts(
        vocabulary,
        #[trigger] stacks[t],
    ) == slot_facts(after.live, vocabulary.slots[t]) by {
        define_then_resolve(kernel, slot, fact, vocabulary.slots[t]);
        assert(triple_facts(vocabulary, vm.stacks[t]) == slot_facts(
            kernel.live,
            vocabulary.slots[t],
        ));
        if t == token {
            assert(triple_facts(vocabulary, stack) =~= seq![fact] + triple_facts(
                vocabulary,
                vm.stacks[token],
            ));
        } else {
            token_is(vocabulary.slots, t);
            token_is(vocabulary.slots, token);
        }
    }
    assert forall|t: int| vocabulary.slots.len() <= t < stacks.len() implies (
    #[trigger] stacks[t]).len() == 0 by {
        assert(stacks[t] == vm.stacks[t]);
    }
    assert forall|name: Seq<char>| token_of(vocabulary.slots, name) < 0 implies (
    #[trigger] slot_facts(after.live, name)).len() == 0 by {
        token_facts(vocabulary.slots, name);
        assert(vocabulary.slots[token] != name);
        define_then_resolve(kernel, slot, fact, name);
        assert(slot_facts(kernel.live, name).len() == 0);
    }
}

/// A removal by token is a removal by name.
pub proof fn mirrors_forget(
    vocabulary: VocabularyModel,
    vm: VmModel,
    kernel: KernelModel,
    token: int,
)
    requires
        mirrors(vocabulary, vm, kernel),
        vocabulary_ok(vocabulary),
        0 <= token < vocabulary.slots.len(),
    ensures
        mirrors(
            vocabulary,
            VmModel {
                stacks: vm.stacks.update(token, without_newest(vm.stacks[token])),
                deltas: vm.deltas + 1,
                ..vm
            },
            forgotten(kernel, vocabulary.slots[token]),
        ),
{
    reveal(mirrors);
    let slot = vocabulary.slots[token];
    let after = forgotten(kernel, slot);
    let stack = without_newest(vm.stacks[token]);
    let stacks = vm.stacks.update(token, stack);
    assert forall|t: int, i: int| 0 <= t < stacks.len() && 0 <= i < stacks[t].len() implies triple_ok(
        vocabulary,
        #[trigger] stacks[t][i],
    ) by {
        if t == token {
            assert(stacks[t][i] == vm.stacks[t][i + 1]);
        } else {
            assert(stacks[t] == vm.stacks[t]);
            assert(triple_ok(vocabulary, vm.stacks[t][i]));
        }
    }
    assert forall|t: int| 0 <= t < vocabulary.slots.len() implies triple_facts(
        vocabulary,
        #[trigger] stacks[t],
    ) == slot_facts(after.live, vocabulary.slots[t]) by {
        forget_reveals_previous(kernel, slot, vocabulary.slots[t]);
        assert(triple_facts(vocabulary, vm.stacks[t]) == slot_facts(
            kernel.live,
            vocabulary.slots[t],
        ));
        if t == token {
            assert(triple_facts(vocabulary, vm.stacks[t]).len() == vm.stacks[t].len());
            if vm.stacks[t].len() > 0 {
                assert(triple_facts(vocabulary, stack) =~= triple_facts(
                    vocabulary,
                    vm.stacks[t],
                ).drop_first());
            } else {
                assert(stack =~= vm.stacks[t]);
            }
        } else {
            token_is(vocabulary.slots, t);
            token_is(vocabulary.slots, token);
        }
    }
    assert forall|t: int| vocabulary.slots.len() <= t < stacks.len() implies (
    #[trigger] stacks[t]).len() == 0 by {
        assert(stacks[t] == vm.stacks[t]);
    }
    assert forall|name: Seq<char>| token_of(vocabulary.slots, name) < 0 implies (
    #[trigger] slot_facts(after.live, name)).len() == 0 by {
        token_facts(vocabulary.slots, name);
        assert(vocabulary.slots[token] != name);
        forget_reveals_previous(kernel, slot, name);
        assert(slot_facts(kernel.live, name).len() == 0);
    }
}

/// Allocations are the same on both sides.
pub proof fn mirrors_allocate(
    vocabulary: VocabularyModel,
    vm: VmModel,
    kernel: KernelModel,
)
    requires
        mirrors(vocabulary, vm, kernel),
    ensures
        mirrors(
            vocabulary,
            VmModel { next_entity: vm.next_entity + 1, ..vm },
            KernelModel { next_entity: kernel.next_entity + 1, ..kernel },
        ),
{
    reveal(mirrors);
}

} // verus!
