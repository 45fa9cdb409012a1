//! Lowered transactions as programs of the token machine.

use crate::compile::{
    Vocabulary, atom_known, atom_known_is_stable, cell_stands_for_atom, compiled, compiled_effect,
    compiled_runs, known_is_stable, knows_more_chain, one_instruction, operation_known,
    token_is_stable, whole_lists,
};
use crate::fact::{AtomModel, Operation, views};
use crate::kernel::{KernelModel, applied, replayed};
use crate::semantic::{
    SemanticStep, StepModel, guarded, guarded_is_replay, guarded_step, step_fault_free,
    step_operations,
};
use crate::vm::{
    Instruction, NONE, RunModel, VM_CELL_LIMIT, VM_DISPLACED_BASE, VM_LITERAL_BASE, VmFault,
    VmModel, effects, effects_grow, effects_join, expect_cell, reject_all, vm_run, vm_run_concat,
};
use crate::vocabulary::{
    VocabularyModel, atom_cell_of, cell_atom, cell_ok, knows_more, mirrors, mirrors_resolves,
    token_facts, token_is, token_of, vocabulary_ok, with_name_facts,
};
use vstd::prelude::*;

verus! {

/// Every name of a step has a token.
pub open spec fn step_known(vocabulary: VocabularyModel, step: StepModel) -> bool {
    match step {
        StepModel::Operation(operation) => operation_known(vocabulary, operation),
        StepModel::ExpectObject { slot, expected } => token_of(vocabulary.slots, slot) >= 0
            && atom_known(vocabulary, expected),
        StepModel::Reject => true,
    }
}

pub open spec fn steps_known(vocabulary: VocabularyModel, steps: Seq<StepModel>) -> bool {
    forall|i: int| 0 <= i < steps.len() ==> step_known(vocabulary, #[trigger] steps[i])
}

/// The program of one step.
pub open spec fn compiled_step(vocabulary: VocabularyModel, step: StepModel) -> Seq<Instruction> {
    match step {
        StepModel::Operation(operation) => compiled(vocabulary, operation),
        StepModel::ExpectObject { slot, expected } => seq![
            expect_cell(
                token_of(vocabulary.slots, slot) as u32,
                atom_cell_of(vocabulary, expected),
            ),
        ],
        StepModel::Reject => seq![reject_all()],
    }
}

/// The program of a list of steps.
pub open spec fn compiled_steps(vocabulary: VocabularyModel, steps: Seq<StepModel>) -> Seq<
    Instruction,
>
    decreases steps.len(),
{
    if steps.len() == 0 {
        Seq::empty()
    } else {
        compiled_steps(vocabulary, steps.drop_last()) + compiled_step(vocabulary, steps.last())
    }
}

/// A program of steps takes no more records and entities than there are steps.
pub proof fn compiled_steps_effects(vocabulary: VocabularyModel, steps: Seq<StepModel>)
    ensures
        effects(compiled_steps(vocabulary, steps)) <= steps.len(),
    decreases steps.len(),
{
    if steps.len() > 0 {
        let front = steps.drop_last();
        let last = compiled_step(vocabulary, steps.last());
        compiled_steps_effects(vocabulary, front);
        if let StepModel::Operation(operation) = steps.last() {
            compiled_effect(vocabulary, operation);
        } else {
            effects_grow(last, 0);
        }
        effects_join(compiled_steps(vocabulary, front), last);
    }
}

/// Different cells stand for different atoms.
pub proof fn cells_are_faithful(vocabulary: VocabularyModel, cell: u64, atom: AtomModel)
    requires
        vocabulary_ok(vocabulary),
        cell_ok(vocabulary, cell),
        atom_known(vocabulary, atom),
    ensures
        cell_atom(vocabulary, cell) == atom <==> cell == atom_cell_of(vocabulary, atom),
{
    cell_stands_for_atom(vocabulary, atom);
    if VM_LITERAL_BASE <= cell < VM_DISPLACED_BASE {
        token_is(vocabulary.literals, cell - VM_LITERAL_BASE);
    } else if cell >= VM_DISPLACED_BASE {
        token_is(vocabulary.displaced, cell - VM_DISPLACED_BASE);
    }
}

/// The program of a step does what the step does.
proof fn step_runs(
    vocabulary: VocabularyModel,
    vm: VmModel,
    kernel: KernelModel,
    step: StepModel,
)
    requires
        mirrors(vocabulary, vm, kernel),
        vocabulary_ok(vocabulary),
        step_known(vocabulary, step),
        step matches StepModel::Operation(operation) ==> applied(kernel, operation) is Ok,
    ensures
        ({
            let run = vm_run(
                RunModel { vm, stack: Seq::empty() },
                compiled_step(vocabulary, step),
            );
            match guarded_step(kernel, step) {
                Ok(next) => run matches Ok(end) && end.stack == Seq::<u64>::empty() && mirrors(
                    vocabulary,
                    end.vm,
                    next,
                ),
                Err(fault) => run == Err::<RunModel, VmFault>(fault),
            }
        }),
{
    let start = RunModel { vm, stack: Seq::empty() };
    match step {
        StepModel::Operation(operation) => {
            compiled_runs(vocabulary, vm, kernel, operation);
        },
        StepModel::ExpectObject { slot, expected } => {
            let program = compiled_step(vocabulary, step);
            token_facts(vocabulary.slots, slot);
            mirrors_resolves(vocabulary, vm, kernel, slot);
            one_instruction(start, program[0]);
            assert(program =~= seq![program[0]]);
            let token = token_of(vocabulary.slots, slot);
            if vm.stacks[token].len() > 0 {
                cells_are_faithful(vocabulary, vm.stacks[token][0].object, expected);
            }
        },
        StepModel::Reject => {
            one_instruction(start, reject_all());
        },
    }
}

/// The program of a transaction runs exactly when its guards hold, and does what it does.
pub proof fn steps_run(
    vocabulary: VocabularyModel,
    vm: VmModel,
    kernel: KernelModel,
    steps: Seq<StepModel>,
)
    requires
        mirrors(vocabulary, vm, kernel),
        vocabulary_ok(vocabulary),
        steps_known(vocabulary, steps),
        replayed(kernel, step_operations(steps)) is Ok,
    ensures
        ({
            let run = vm_run(
                RunModel { vm, stack: Seq::empty() },
                compiled_steps(vocabulary, steps),
            );
            match guarded(kernel, steps) {
                Ok(next) => run matches Ok(end) && end.stack == Seq::<u64>::empty() && mirrors(
                    vocabulary,
                    end.vm,
                    next,
                ),
                Err(fault) => run == Err::<RunModel, VmFault>(fault),
            }
        }),
    decreases steps.len(),
{
    if steps.len() > 0 {
        let front = steps.drop_last();
        let last = steps.last();
        assert forall|i: int| 0 <= i < front.len() implies step_known(
            vocabulary,
            #[trigger] front[i],
        ) by {
            assert(front[i] == steps[i]);
        }
        if let StepModel::Operation(operation) = last {
            assert(step_operations(steps).drop_last() =~= step_operations(front));
        }
        steps_run(vocabulary, vm, kernel, front);
        let start = RunModel { vm, stack: Seq::empty() };
        vm_run_concat(
            start,
            compiled_steps(vocabulary, front),
            compiled_step(vocabulary, last),
        );
        if let Ok(next) = guarded(kernel, front) {
            guarded_is_replay(kernel, front);
            let middle = vm_run(start, compiled_steps(vocabulary, front))->Ok_0;
            assert(step_known(vocabulary, steps[steps.len() - 1]));
            step_runs(vocabulary, middle.vm, next, last);
            assert(middle == RunModel { vm: middle.vm, stack: Seq::<u64>::empty() });
        }
    }
}

pub proof fn step_known_is_stable(less: VocabularyModel, more: VocabularyModel, step: StepModel)
    requires
        knows_more(less, more),
        vocabulary_ok(more),
        step_known(less, step),
    ensures
        step_known(more, step),
{
    match step {
        StepModel::Operation(operation) => {
            known_is_stable(less, more, operation);
        },
        StepModel::ExpectObject { slot, expected } => {
            token_is_stable(less.slots, more.slots, slot);
            atom_known_is_stable(less, more, expected);
        },
        StepModel::Reject => {},
    }
}

impl Vocabulary {
    fn learn_step(&mut self, step: &SemanticStep)
        requires
            vocabulary_ok(old(self)@),
            old(self)@.slots.len() + 1 < NONE,
            old(self)@.predicates.len() + 1 < NONE,
            old(self)@.literals.len() + 2 < VM_CELL_LIMIT,
            old(self)@.displaced.len() + 2 < VM_CELL_LIMIT,
            step_fault_free(step@),
        ensures
            vocabulary_ok(final(self)@),
            knows_more(old(self)@, final(self)@),
            final(self)@.slots.len() <= old(self)@.slots.len() + 1,
            final(self)@.predicates.len() <= old(self)@.predicates.len() + 1,
            final(self)@.literals.len() <= old(self)@.literals.len() + 2,
            final(self)@.displaced.len() <= old(self)@.displaced.len() + 2,
            step_known(final(self)@, step@),
    {
        match step {
            SemanticStep::Operation(operation) => {
                let _learned = self.learn_operation(operation, true);
            },
            SemanticStep::ExpectObject { slot, expected } => {
                let ghost v0 = self@;
                proof {
                    with_name_facts(self@.slots, slot@);
                }
                let _slot = self.learn_slot(slot);
                let ghost v1 = self@;
                let _learned = self.learn_atom(expected, true);
                proof {
                    knows_more_chain(v0, v1, self@);
                    token_is_stable(v1.slots, self@.slots, slot@);
                }
            },
            SemanticStep::Reject => {
                proof {
                    whole_lists(self@);
                }
            },
        }
    }

    /// Learns the names of a transaction.
    pub fn learn_steps(&mut self, steps: &[SemanticStep])
        requires
            vocabulary_ok(old(self)@),
            old(self)@.slots.len() + steps.len() < NONE,
            old(self)@.predicates.len() + steps.len() < NONE,
            old(self)@.literals.len() + 2 * steps.len() < VM_CELL_LIMIT,
            old(self)@.displaced.len() + 2 * steps.len() < VM_CELL_LIMIT,
            forall|i: int| 0 <= i < steps.len() ==> step_fault_free(#[trigger] views(steps@)[i]),
        ensures
            vocabulary_ok(final(self)@),
            knows_more(old(self)@, final(self)@),
            final(self)@.slots.len() <= old(self)@.slots.len() + steps.len(),
            final(self)@.predicates.len() <= old(self)@.predicates.len() + steps.len(),
            final(self)@.literals.len() <= old(self)@.literals.len() + 2 * steps.len(),
            final(self)@.displaced.len() <= old(self)@.displaced.len() + 2 * steps.len(),
            steps_known(final(self)@, views(steps@)),
    {
        let ghost models = views(steps@);
        let ghost start = self@;
        let mut index: usize = 0;
        proof {
            whole_lists(self@);
        }
        while index < steps.len()
            invariant
                index <= steps.len(),
                models == views(steps@),
                vocabulary_ok(self@),
                knows_more(start, self@),
                start.slots.len() + steps.len() < NONE,
                start.predicates.len() + steps.len() < NONE,
                start.literals.len() + 2 * steps.len() < VM_CELL_LIMIT,
                start.displaced.len() + 2 * steps.len() < VM_CELL_LIMIT,
                self@.slots.len() <= start.slots.len() + index,
                self@.predicates.len() <= start.predicates.len() + index,
                self@.literals.len() <= start.literals.len() + 2 * index,
                self@.displaced.len() <= start.displaced.len() + 2 * index,
                forall|i: int| 0 <= i < steps.len() ==> step_fault_free(#[trigger] models[i]),
                forall|i: int| 0 <= i < index ==> step_known(self@, #[trigger] models[i]),
            decreases steps.len() - index,
        {
            let ghost before = self@;
            proof {
                assert(models[index as int] == steps@[index as int]@);
            }
            self.learn_step(&steps[index]);
            proof {
                knows_more_chain(start, before, self@);
                assert forall|i: int| 0 <= i < index implies step_known(
                    self@,
                    #[trigger] models[i],
                ) by {
                    step_known_is_stable(before, self@, models[i]);
                }
            }
            index += 1;
        }
    }

    /// The program of a transaction whose names are known.
    pub fn translate_steps(&self, steps: &[SemanticStep]) -> (result: Vec<Instruction>)
        requires
            vocabulary_ok(self@),
            steps_known(self@, views(steps@)),
        ensures
            result@ == compiled_steps(self@, views(steps@)),
    {
        let ghost models = views(steps@);
        let mut program: Vec<Instruction> = Vec::new();
        let mut index: usize = 0;
        proof {
            assert(models.take(0) =~= Seq::empty());
        }
        while index < steps.len()
            invariant
                index <= steps.len(),
                models == views(steps@),
                vocabulary_ok(self@),
                steps_known(self@, models),
                program@ == compiled_steps(self@, models.take(index as int)),
            decreases steps.len() - index,
        {
            let ghost before = program@;
            proof {
                assert(models.take(index + 1).drop_last() =~= models.take(index as int));
                assert(models.take(index + 1).last() == steps@[index as int]@);
                assert(step_known(self@, models[index as int]));
            }
            match &steps[index] {
                SemanticStep::Operation(operation) => {
                    self.translate_one(operation, &mut program);
                },
                SemanticStep::ExpectObject { slot, expected } => {
                    let cell: u64 = self.known_cell(expected);
                    let token: u32 = match self.find_slot(slot) {
                        Some(token) => token,
                        None => 0,
                    };
                    program.push(Instruction::expect_object(token, cell));
                },
                SemanticStep::Reject => {
                    program.push(Instruction::reject());
                },
            }
            proof {
                assert(program@ =~= before + compiled_step(self@, models[index as int]));
            }
            index += 1;
        }
        proof {
            assert(models.take(index as int) =~= models);
        }
        program
    }
}

} // verus!
