//! What the machine can run, and that it gives an epoch the meaning that the worlds give it.

use crate::admission::{EpochMaterializer, meaning_fault};
use crate::compile::{operation_fault, operations_fault};
use crate::database::Rule;
use crate::fact::{AtomModel, OperationModel};
use crate::frame::FrameModel;
use crate::intent::IntentModel;
use crate::materializer::{history_fault, materializes, operations_from, vm_epoch_fault};
use crate::plan_model::{PlanModel, chained, collapsed, may_settle, settled, total_steps, unopposed};
use crate::vm::{Instruction, RunModel, VmFault, VmModel, vm_executed, vm_run};
use crate::world::{World, WorldModel};
use crate::world_laws::operations_up_to;
use vstd::prelude::*;

verus! {

/// An operation is one that the machine can run: no entity in it reaches the cells of literals.
pub open spec fn runs_on_machine(operation: OperationModel) -> bool {
    match operation {
        OperationModel::AllocateEntity { entity } => entity < 0x8000_0000_0000_0000,
        OperationModel::Define { slot, fact } => (fact.subject matches AtomModel::Entity(entity)
            ==> entity < 0x8000_0000_0000_0000) && (fact.object matches AtomModel::Entity(entity)
            ==> entity < 0x8000_0000_0000_0000),
        OperationModel::Forget { slot } => true,
    }
}

/// The machine refuses operations exactly if one of them, wherever it stands, is none that it can
/// run.
pub proof fn machines_refuse_large_entities(operations: Seq<OperationModel>)
    ensures
        operations_fault(operations) is None <==> forall|k: int|
            0 <= k < operations.len() ==> runs_on_machine(#[trigger] operations[k]),
    decreases operations.len(),
{
    if operations.len() > 0 {
        let front = operations.drop_last();
        let last = operations.len() - 1;
        machines_refuse_large_entities(front);
        assert(operation_fault(operations.last()) is None <==> runs_on_machine(operations[last]));
        if operations_fault(operations) is None {
            assert forall|k: int| 0 <= k < operations.len() implies runs_on_machine(
                #[trigger] operations[k],
            ) by {
                if k < last {
                    assert(front[k] == operations[k]);
                }
            }
        }
        if forall|k: int|
            0 <= k < operations.len() ==> runs_on_machine(#[trigger] operations[k]) {
            assert forall|k: int| 0 <= k < front.len() implies runs_on_machine(
                #[trigger] front[k],
            ) by {
                assert(front[k] == operations[k]);
            }
        }
    }
}

/// The machine can run what an intent of an epoch commits, if it commits anything.
pub open spec fn intent_runs_on_machine(
    base: WorldModel,
    intents: Seq<IntentModel>,
    k: int,
) -> bool {
    let verdicts = Seq::new(k as nat, |i: int| Ok::<(), Seq<char>>(()));
    settled(chained(base, intents.take(k), verdicts).tail, intents[k], Ok(())) matches Ok(
        (candidate, _),
    ) ==> forall|j: int|
        0 <= j < candidate.frame.operations.len() ==> runs_on_machine(
            #[trigger] candidate.frame.operations[j],
        )
}

proof fn last_intent_runs(base: WorldModel, intents: Seq<IntentModel>)
    requires
        intents.len() > 0,
    ensures
        vm_epoch_fault(base, intents) is None <==> vm_epoch_fault(base, intents.drop_last()) is None
            && intent_runs_on_machine(base, intents, intents.len() - 1),
{
    let front = intents.drop_last();
    assert(intents.take(intents.len() - 1) =~= front);
    assert(unopposed(front.len()) =~= Seq::new(
        front.len(),
        |i: int| Ok::<(), Seq<char>>(()),
    ));
    if let Ok((candidate, _)) = settled(
        chained(base, front, unopposed(front.len())).tail,
        intents.last(),
        Ok(()),
    ) {
        machines_refuse_large_entities(candidate.frame.operations);
    }
}

proof fn earlier_intent_runs(base: WorldModel, intents: Seq<IntentModel>, k: int)
    requires
        0 <= k < intents.len() - 1,
    ensures
        intent_runs_on_machine(base, intents.drop_last(), k) == intent_runs_on_machine(
            base,
            intents,
            k,
        ),
{
    assert(intents.drop_last().take(k) =~= intents.take(k));
    assert(intents.drop_last()[k] == intents[k]);
}

/// The machine refuses an epoch exactly if one of its intents, wherever it stands, would commit
/// something that the machine cannot run.
pub proof fn machines_refuse_by_intent(base: WorldModel, intents: Seq<IntentModel>)
    ensures
        vm_epoch_fault(base, intents) is None <==> forall|k: int|
            0 <= k < intents.len() ==> #[trigger] intent_runs_on_machine(base, intents, k),
    decreases intents.len(),
{
    if intents.len() > 0 {
        let front = intents.drop_last();
        machines_refuse_by_intent(base, front);
        last_intent_runs(base, intents);
        assert forall|k: int| 0 <= k < front.len() implies intent_runs_on_machine(base, front, k)
            == #[trigger] intent_runs_on_machine(base, intents, k) by {
            earlier_intent_runs(base, intents, k);
        }
        if forall|k: int|
            0 <= k < intents.len() ==> #[trigger] intent_runs_on_machine(base, intents, k) {
            assert forall|k: int| 0 <= k < front.len() implies #[trigger] intent_runs_on_machine(
                base,
                front,
                k,
            ) by {
                assert(intent_runs_on_machine(base, intents, k));
            }
        }
    }
}

/// The machine gives an epoch the plan that worlds give it: without rules the one in which nothing is
/// opposed, with rules one that their verdicts allow. It refuses only what it cannot run.
pub proof fn machines_plan_as_worlds_do(
    rules: Seq<Rule>,
    world: WorldModel,
    intents: Seq<IntentModel>,
    plan: PlanModel,
    message: Seq<char>,
)
    ensures
        rules.len() == 0 ==> (materializes(rules, world, intents, Ok(plan)) <==> plan == collapsed(
            chained(
                world,
                intents,
                Seq::new(intents.len(), |i: int| Ok::<(), Seq<char>>(())),
            ),
        ) && forall|k: int|
            0 <= k < intents.len() ==> #[trigger] intent_runs_on_machine(world, intents, k)),
        rules.len() == 0 && materializes(rules, world, intents, Err(message)) ==> exists|k: int|
            0 <= k < intents.len() && !#[trigger] intent_runs_on_machine(world, intents, k),
        rules.len() > 0 && materializes(rules, world, intents, Ok(plan)) ==> exists|
            verdicts: Seq<Result<(), Seq<char>>>,
        |
            verdicts.len() == intents.len() && may_settle(rules, world, intents, verdicts) && plan
                == #[trigger] collapsed(chained(world, intents, verdicts)),
        rules.len() > 0 && materializes(rules, world, intents, Ok(plan)) && plan.frames.len() > 0
            ==> forall|j: int|
            0 <= j < plan.frames[0].operations.len() ==> runs_on_machine(
                #[trigger] plan.frames[0].operations[j],
            ),
{
    machines_refuse_by_intent(world, intents);
    assert(unopposed(intents.len()) =~= Seq::new(
        intents.len(),
        |i: int| Ok::<(), Seq<char>>(()),
    ));
    if plan.frames.len() > 0 {
        machines_refuse_large_entities(plan.frames[0].operations);
    }
}

/// The machine refuses a history from a frame on exactly if one of those frames, wherever it stands,
/// has an operation that the machine cannot run.
pub proof fn machines_refuse_by_frame(history: Seq<FrameModel>, from: int)
    requires
        0 <= from,
    ensures
        history_fault(history, from) is None <==> forall|k: int, j: int|
            from <= k < history.len() && 0 <= j < history[k].operations.len() ==> runs_on_machine(
                #[trigger] history[k].operations[j],
            ),
        from <= history.len() ==> operations_from(history, from) + operations_up_to(
            history,
            from,
        ).len() == operations_up_to(history, history.len() as int).len(),
    decreases history.len() - from,
{
    if from < history.len() {
        machines_refuse_by_frame(history, from + 1);
        machines_refuse_large_entities(history[from].operations);
        if history_fault(history, from) is None {
            assert forall|k: int, j: int|
                from <= k < history.len() && 0 <= j
                    < history[k].operations.len() implies runs_on_machine(
                #[trigger] history[k].operations[j],
            ) by {
                if k == from {
                    assert(runs_on_machine(history[from].operations[j]));
                }
            }
        }
    }
}

/// A program starts on an empty stack, and what it leaves is what its last instruction left; one that
/// fails leaves nothing.
pub proof fn programs_start_empty(vm: VmModel, program: Seq<Instruction>)
    ensures
        vm_executed(vm, program) is Ok <==> vm_run(
            RunModel { vm, stack: Seq::empty() },
            program,
        ) is Ok,
        vm_executed(vm, program) matches Ok(after) ==> vm_run(
            RunModel { vm, stack: Seq::empty() },
            program,
        )->Ok_0.vm == after,
        vm_executed(vm, Seq::<Instruction>::empty()) == Ok::<VmModel, VmFault>(vm),
        vm_executed(vm, program) matches Err(fault) ==> vm_run(
            RunModel { vm, stack: Seq::empty() },
            program,
        ) == Err::<RunModel, VmFault>(fault),
{
}

/// Whether an epoch has a meaning: always for worlds; for a machine if it has room and can run it.
pub proof fn meanings_depend_on_the_machine(
    materializer: EpochMaterializer,
    base: WorldModel,
    intents: Seq<IntentModel>,
)
    ensures
        materializer is World ==> meaning_fault(materializer, base, intents) is None,
        materializer is TokenVm ==> (meaning_fault(materializer, base, intents) is None
            <==> materializer.has_room(total_steps(intents)) && forall|k: int|
            0 <= k < intents.len() ==> #[trigger] intent_runs_on_machine(base, intents, k)),
{
    machines_refuse_by_intent(base, intents);
}

/// The operations of an epoch's intents together are as many as each of them has.
pub proof fn steps_add_up(intents: Seq<IntentModel>, intent: IntentModel)
    ensures
        total_steps(intents.push(intent)) == total_steps(intents) + intent.operations.len(),
        total_steps(Seq::<IntentModel>::empty()) == 0,
{
    assert(intents.push(intent).drop_last() =~= intents);
}

} // verus!
