//! Epochs through the token machine.

use crate::compile::{
    Vocabulary, compiled_effects, execution_mirrors_replay, operations_fault, whole_lists,
};
use crate::compile_steps::{compiled_steps_effects, steps_run};
use crate::database::Rule;
use crate::errors::{CandidateErrorModel, describe_numbers, two_numbers};
use crate::fact::{EntityId, Fact, Operation, SlotId, views};
use crate::frame::{FrameModel, WorldId, calculate_world_id, share, successor_id};
use crate::intent::{
    IntentModel, IntentPrecondition, QueuedIntent, clone_optional_fact, optional_fact,
};
use crate::kernel::{KernelModel, active_fact, empty_kernel, numbered, replayed};
use crate::log_format::linked;
use crate::plan::{
    EpochPlan, Pending, RejectedIntent, check_preconditions, derive_epoch_world, extend_operations,
    finish_epoch, first_fault_stays, pends, resolve_operations_from,
};
use crate::plan_model::{
    IntentRejection, PlanModel, chained, chained_replays, collapsed, extended, extended_facts,
    has_epoch_room, joined_operations, may_settle, no_frames_keep_base, outcomes_follow_intents,
    planned, planned_end, planned_facts, planned_start, planned_step, preconditions_fault, proposal,
    resolved_applies, settled, total_steps, total_steps_monotone, unopposed,
};
use crate::semantic::{SemanticStep, guarded, step_fault_free, step_operations};
use crate::vm::{NONE, Triple, VM_CELL_LIMIT, VmFault, Workspace, effects};
use crate::vocabulary::{
    VocabularyModel, knows_more, mirrors, mirrors_empty, mirrors_learned, mirrors_resolves,
    token_facts, token_of, vocabulary_ok,
};
use crate::world::{
    World, WorldModel, has_room, prefix_reconstructs, reconstructed, reconstructed_facts,
};
use std::collections::BTreeMap;
use std::sync::Arc;
use vstd::prelude::*;
use vstd::string::*;

verus! {

/// The first accepted intent of an epoch that the machine cannot represent.
pub open spec fn vm_epoch_fault(base: WorldModel, intents: Seq<IntentModel>) -> Option<Seq<char>>
    decreases intents.len(),
{
    if intents.len() == 0 {
        None
    } else {
        let front = intents.drop_last();
        match vm_epoch_fault(base, front) {
            Some(message) => Some(message),
            None => match settled(
                chained(base, front, unopposed(front.len())).tail,
                intents.last(),
                Ok(()),
            ) {
                Err(_) => None,
                Ok((candidate, _)) => operations_fault(candidate.frame.operations),
            },
        }
    }
}

pub proof fn vm_epoch_fault_stays(base: WorldModel, intents: Seq<IntentModel>, count: int)
    requires
        0 <= count <= intents.len(),
        vm_epoch_fault(base, intents.take(count)) is Some,
    ensures
        vm_epoch_fault(base, intents) == vm_epoch_fault(base, intents.take(count)),
    decreases intents.len(),
{
    if count == intents.len() {
        assert(intents.take(count) =~= intents);
    } else {
        assert(intents.drop_last().take(count) =~= intents.take(count));
        vm_epoch_fault_stays(base, intents.drop_last(), count);
    }
}

/// Persistent dictionaries and state of the token machine.
pub struct VmEpochMaterializer {
    workspace: Workspace,
    version: u64,
    vocabulary: Vocabulary,
}

/// What a machine makes of a plan that was judged by validators: it takes in what was accepted, or
/// says why it cannot.
pub open spec fn taken_in(plan: PlanModel) -> Result<PlanModel, Seq<char>> {
    if plan.frames.len() == 0 {
        Ok(plan)
    } else {
        match operations_fault(plan.frames[0].operations) {
            Some(fault) => Err(fault),
            None => Ok(plan),
        }
    }
}

/// What planning an epoch with a machine leads to: without validators the one plan, or the fault of
/// the machine; with validators a plan that some of their verdicts give, unless the machine cannot
/// take it in.
pub open spec fn materializes(
    rules: Seq<Rule>,
    world: WorldModel,
    intents: Seq<IntentModel>,
    result: Result<PlanModel, Seq<char>>,
) -> bool {
    if rules.len() == 0 {
        result == match vm_epoch_fault(world, intents) {
            Some(fault) => Err::<PlanModel, Seq<char>>(fault),
            None => Ok(collapsed(chained(world, intents, unopposed(intents.len())))),
        }
    } else {
        exists|verdicts: Seq<Result<(), Seq<char>>>|
            verdicts.len() == intents.len() && may_settle(rules, world, intents, verdicts)
                && result == taken_in(#[trigger] collapsed(chained(world, intents, verdicts)))
    }
}

/// The plan or the message of a result.
pub open spec fn planned_model(result: Result<(EpochPlan, bool), String>) -> Result<
    PlanModel,
    Seq<char>,
> {
    match result {
        Ok((plan, _)) => Ok(plan@),
        Err(message) => Err(message@),
    }
}

impl VmEpochMaterializer {
    pub closed spec fn wf(&self) -> bool {
        self.workspace.wf() && vocabulary_ok(self.vocabulary@)
    }

    /// There is room for the names and records of `steps` more operations.
    pub closed spec fn has_room(&self, steps: nat) -> bool {
        &&& self.vocabulary@.slots.len() + steps < NONE
        &&& self.vocabulary@.predicates.len() + steps < NONE
        &&& self.vocabulary@.literals.len() + 2 * steps < VM_CELL_LIMIT
        &&& self.vocabulary@.displaced.len() + 2 * steps < VM_CELL_LIMIT
        &&& self.workspace.has_room(steps)
    }

    /// There is room for so many operations and for more behind them.
    pub open spec fn spare_for(&self, steps: nat, more: nat) -> bool {
        self.has_room(steps + more)
    }

    /// There is room for `steps` more operations behind `total` others.
    pub open spec fn spare(&self, total: nat, steps: nat) -> bool {
        self.has_room(total + steps)
    }

    /// The machine's state stands for the definitions of a kernel.
    pub closed spec fn in_step(&self, kernel: KernelModel) -> bool {
        mirrors(self.vocabulary@, self.workspace@, kernel)
    }

    /// The names that have a token.
    pub closed spec fn vocabulary(&self) -> VocabularyModel {
        self.vocabulary@
    }

    /// The version up to which committed frames have been taken in.
    pub closed spec fn synchronized_version(&self) -> u64 {
        self.version
    }

    /// The next identity that the machine hands out.
    pub closed spec fn upcoming_entity(&self) -> u64 {
        self.workspace@.next_entity as u64
    }

    /// A machine without definitions.
    pub fn new(next_entity: u64) -> (result: Self)
        ensures
            result.wf(),
            result.synchronized_version() == 0,
            result.upcoming_entity() == next_entity,
            next_entity == 1 ==> result.in_step(empty_kernel()),
            forall|steps: nat|
                steps < NONE && next_entity + steps <= u64::MAX ==> #[trigger]
                    result.has_room(steps),
    {
        let result = VmEpochMaterializer {
            workspace: Workspace::new(next_entity),
            version: 0,
            vocabulary: Vocabulary::new(),
        };
        proof {
            if next_entity == 1 {
                mirrors_empty(result.vocabulary@, 0);
                assert(Seq::new(0, |i: int| Seq::<Triple>::empty()) =~= Seq::empty());
            }
        }
        result
    }

    /// A machine that starts with given names and records.
    pub(crate) fn from_parts(workspace: Workspace, vocabulary: Vocabulary) -> (result: Self)
        requires
            workspace.wf(),
            vocabulary_ok(vocabulary@),
        ensures
            result.wf(),
            result.synchronized_version() == 0,
            result.vocabulary() == vocabulary@,
            forall|kernel: KernelModel|
                mirrors(vocabulary@, workspace@, kernel) ==> result.in_step(kernel),
    {
        VmEpochMaterializer { workspace, version: 0, vocabulary }
    }

    /// Whether there is room for the names and records of `steps` more operations.
    pub fn can_take(&self, steps: usize) -> (result: bool)
        requires
            self.wf(),
        ensures
            result == self.has_room(steps as nat),
    {
        if steps >= NONE as usize {
            return false;
        }
        let mark = self.vocabulary.mark();
        steps < (NONE as usize) - mark.slots && steps < (NONE as usize) - mark.predicates && 2 * (
        steps as u64) < VM_CELL_LIMIT - mark.literals as u64 && 2 * (steps as u64) < VM_CELL_LIMIT
            - mark.displaced as u64 && self.workspace.can_take(steps)
    }

    pub fn next_entity(&self) -> (result: u64)
        ensures
            result == self.upcoming_entity(),
    {
        self.workspace.next_entity()
    }

    /// Whether a slot has a token.
    pub fn knows_slot(&self, slot: &SlotId) -> (result: bool)
        requires
            self.wf(),
        ensures
            result == (token_of(self.vocabulary().slots, slot@) >= 0),
    {
        self.vocabulary.find_slot(slot).is_some()
    }

    /// The token of a slot.
    pub fn slot_token(&self, slot: &SlotId) -> (result: Option<u32>)
        requires
            self.wf(),
        ensures
            match result {
                Some(token) => token == token_of(self.vocabulary().slots, slot@),
                None => token_of(self.vocabulary().slots, slot@) < 0,
            },
    {
        self.vocabulary.find_slot(slot)
    }

    pub(crate) fn set_version(&mut self, version: u64)
        ensures
            final(self).synchronized_version() == version,
            final(self).wf() == old(self).wf(),
            final(self).vocabulary() == old(self).vocabulary(),
            final(self).upcoming_entity() == old(self).upcoming_entity(),
            forall|kernel: KernelModel|
                final(self).in_step(kernel) == old(self).in_step(kernel),
            forall|steps: nat| final(self).has_room(steps) == old(self).has_room(steps),
    {
        self.version = version;
    }

    /// The active fact of a slot.
    fn resolve_fact(&self, slot: &SlotId, Ghost(kernel): Ghost<KernelModel>) -> (result: Option<
        Fact,
    >)
        requires
            self.wf(),
            self.in_step(kernel),
        ensures
            optional_fact(result) == active_fact(kernel.live, slot@),
    {
        proof {
            mirrors_resolves(self.vocabulary@, self.workspace@, kernel, slot@);
            token_facts(self.vocabulary@.slots, slot@);
        }
        let token = match self.vocabulary.find_slot(slot) {
            Some(token) => token,
            None => {
                return None;
            },
        };
        let triple = match self.workspace.resolve_fact_cells(token) {
            Some(triple) => triple,
            None => {
                return None;
            },
        };
        let subject = match self.vocabulary.atom_from_cell(triple.subject) {
            Some(atom) => atom,
            None => {
                return None;
            },
        };
        let predicate = match self.vocabulary.predicate_from_cell(triple.predicate) {
            Some(predicate) => predicate,
            None => {
                return None;
            },
        };
        let object = match self.vocabulary.atom_from_cell(triple.object) {
            Some(atom) => atom,
            None => {
                return None;
            },
        };
        Some(Fact::new(subject, predicate, object))
    }

    /// Tests the demands of an intent in order.
    fn check_preconditions(
        &self,
        id: WorldId,
        preconditions: &[IntentPrecondition],
        Ghost(kernel): Ghost<KernelModel>,
    ) -> (result: Result<(), IntentRejection>)
        requires
            self.wf(),
            self.in_step(kernel),
        ensures
            match result {
                Ok(()) => preconditions_fault(id, kernel.live, views(preconditions@)) is None,
                Err(error) => preconditions_fault(id, kernel.live, views(preconditions@)) == Some(
                    error@,
                ),
            },
    {
        let ghost models = views(preconditions@);
        let mut index: usize = 0;
        proof {
            assert(models.take(0) =~= Seq::empty());
        }
        while index < preconditions.len()
            invariant
                index <= preconditions.len(),
                models == views(preconditions@),
                self.wf(),
                self.in_step(kernel),
                preconditions_fault(id, kernel.live, models.take(index as int)) is None,
            decreases preconditions.len() - index,
        {
            proof {
                assert(models.take(index + 1).drop_last() =~= models.take(index as int));
                assert(models.take(index + 1).last() == preconditions@[index as int]@);
            }
            let failed: Option<IntentRejection> = match &preconditions[index] {
                IntentPrecondition::ExpectedWorld(expected) => if expected.0 != id.0 {
                    Some(IntentRejection::WorldPrecondition { expected: *expected, actual: id })
                } else {
                    None
                },
                IntentPrecondition::ExpectedSlot { slot, expected } => {
                    let actual = self.resolve_fact(slot, Ghost(kernel));
                    let equal = match (&actual, expected) {
                        (Some(left), Some(right)) => left.same(right),
                        (None, None) => true,
                        _ => false,
                    };
                    if equal {
                        None
                    } else {
                        Some(
                            IntentRejection::SlotPrecondition {
                                slot: slot.clone(),
                                expected: clone_optional_fact(expected),
                                actual,
                            },
                        )
                    }
                },
            };
            if let Some(error) = failed {
                proof {
                    first_fault_stays(id, kernel.live, models, index + 1);
                }
                return Err(error);
            }
            index += 1;
        }
        proof {
            assert(models.take(index as int) =~= models);
        }
        Ok(())
    }

    /// Compiles operations and runs them.
    pub(crate) fn apply(&mut self, operations: &[Operation], Ghost(kernel): Ghost<KernelModel>) -> (
        result: Result<(), String>)
        requires
            old(self).wf(),
            old(self).in_step(kernel),
            old(self).has_room(operations@.len()),
            replayed(kernel, views(operations@)) is Ok,
        ensures
            final(self).wf(),
            final(self).synchronized_version() == old(self).synchronized_version(),
            knows_more(old(self).vocabulary(), final(self).vocabulary()),
            forall|steps: nat|
                old(self).has_room(steps + operations@.len()) ==> #[trigger] final(self).has_room(
                    steps,
                ),
            match operations_fault(views(operations@)) {
                Some(message) => result matches Err(found) && found@ == message && final(self).in_step(kernel),
                None => result is Ok && final(self).in_step(
                    replayed(kernel, views(operations@))->Ok_0,
                ),
            },
    {
        let ghost models = views(operations@);
        let ghost before = self.vocabulary@;
        let ghost machine = self.workspace@;
        let learned = self.vocabulary.learn_operations(operations);
        let count: usize = self.vocabulary.slot_count();
        self.workspace.ensure_slot_count(count);
        proof {
            mirrors_resolves(before, machine, kernel, Seq::empty());
            mirrors_learned(before, self.vocabulary@, machine, self.workspace@, kernel);
        }
        match learned {
            Ok(()) => {},
            Err(message) => {
                proof {
                    assert forall|steps: nat| old(self).has_room(
                        steps + operations@.len(),
                    ) implies #[trigger] self.has_room(steps) by {
                        room_shrinks(
                            self.workspace,
                            steps,
                            steps + operations@.len(),
                        );
                    }
                }
                return Err(message);
            },
        }
        let program = self.vocabulary.translate(operations);
        proof {
            compiled_effects(self.vocabulary@, models);
            execution_mirrors_replay(self.vocabulary@, self.workspace@, kernel, models);
            room_shrinks(self.workspace, effects(program@), operations@.len());
        }
        let ghost wide = *self;
        match self.workspace.execute(program.as_slice()) {
            Ok(()) => {
                proof {
                    assert forall|steps: nat| old(self).has_room(
                        steps + operations@.len(),
                    ) implies #[trigger] self.has_room(steps) by {
                        assert(wide.workspace.has_room(steps + operations@.len()));
                        room_shrinks(
                            wide.workspace,
                            steps + effects(program@),
                            steps + operations@.len(),
                        );
                    }
                }
                Ok(())
            },
            Err(_) => Err("validated committed operations were rejected by the VM".to_owned()),
        }
    }

    /// Compiles a transaction and runs it; a refused one leaves nothing behind.
    pub(crate) fn try_steps(
        &mut self,
        steps: &[SemanticStep],
        Ghost(kernel): Ghost<KernelModel>,
    ) -> (result: Result<(), VmFault>)
        requires
            old(self).wf(),
            old(self).in_step(kernel),
            old(self).has_room(steps@.len()),
            forall|i: int| 0 <= i < steps@.len() ==> step_fault_free(#[trigger] views(steps@)[i]),
            replayed(kernel, step_operations(views(steps@))) is Ok,
        ensures
            final(self).wf(),
            final(self).synchronized_version() == old(self).synchronized_version(),
            forall|more: nat|
                old(self).has_room(more + steps@.len()) ==> #[trigger] final(self).has_room(more),
            match guarded(kernel, views(steps@)) {
                Ok(next) => result is Ok && final(self).in_step(next) && knows_more(
                    old(self).vocabulary(),
                    final(self).vocabulary(),
                ),
                Err(fault) => result == Err::<(), VmFault>(fault) && final(self).in_step(kernel)
                    && final(self).vocabulary() == old(self).vocabulary(),
            },
    {
        let ghost models = views(steps@);
        let ghost before = self.vocabulary@;
        let ghost machine = self.workspace@;
        let mark = self.vocabulary.mark();
        self.vocabulary.learn_steps(steps);
        let count: usize = self.vocabulary.slot_count();
        self.workspace.ensure_slot_count(count);
        proof {
            mirrors_resolves(before, machine, kernel, Seq::empty());
            mirrors_learned(before, self.vocabulary@, machine, self.workspace@, kernel);
            whole_lists(before);
            mirrors_learned(before, before, machine, self.workspace@, kernel);
        }
        let program = self.vocabulary.translate_steps(steps);
        proof {
            compiled_steps_effects(self.vocabulary@, models);
            steps_run(self.vocabulary@, self.workspace@, kernel, models);
            room_shrinks(self.workspace, effects(program@), steps@.len());
        }
        let ghost wide = *self;
        let outcome = self.workspace.execute(program.as_slice());
        let result = match outcome {
            Ok(()) => Ok(()),
            Err(fault) => {
                self.vocabulary.reset(mark);
                Err(fault)
            },
        };
        proof {
            assert forall|more: nat| old(self).has_room(
                more + steps@.len(),
            ) implies #[trigger] self.has_room(more) by {
                assert(wide.workspace.has_room(more + steps@.len()));
                room_shrinks(
                    wide.workspace,
                    more + effects(program@),
                    more + steps@.len(),
                );
            }
        }
        result
    }

    /// Plans an epoch without validators: the accepted intents, one after the other, run on the
    /// machine, and one frame takes the base to where the machine is then.
    pub fn derive_vm_epoch(&mut self, base: Arc<World>, intents: Vec<QueuedIntent>) -> (result:
        Result<EpochPlan, String>)
        requires
            old(self).wf(),
            old(self).upcoming_entity() == base@.kernel.next_entity ==> old(self).in_step(
                base@.kernel,
            ),
            old(self).has_room(total_steps(views(intents@))),
            has_epoch_room(base@, views(intents@)),
        ensures
            final(self).wf(),
            final(self).synchronized_version() == old(self).synchronized_version(),
            if old(self).upcoming_entity() != base@.kernel.next_entity {
                result matches Err(message) && message@ == two_numbers(
                    "VM allocator "@,
                    old(self).upcoming_entity() as nat,
                    ", published world allocator "@,
                    base@.kernel.next_entity,
                )
            } else {
                match vm_epoch_fault(base@, views(intents@)) {
                    Some(fault) => result matches Err(message) && message@ == fault,
                    None => result matches Ok(plan) && plan@ == collapsed(
                        chained(base@, views(intents@), unopposed(intents@.len())),
                    ) && final(self).in_step(plan@.tail.kernel) && plan@.frames.len()
                        <= plan@.outcomes.len(),
                }
            },
            result is Ok ==> forall|more: nat| #[trigger]
                old(self).spare_for(total_steps(views(intents@)), more) ==> final(self).has_room(
                    more,
                ),
    {
        if self.workspace.next_entity() != base.next_entity() {
            return Err(
                describe_numbers(
                    "VM allocator ",
                    self.workspace.next_entity(),
                    ", published world allocator ",
                    base.next_entity(),
                ),
            );
        }
        let ghost models = views(intents@);
        let ghost nobody: Seq<Rule> = Seq::empty();
        let mut id = base.id();
        let mut version: u64 = base.version();
        let mut operations: Vec<Operation> = Vec::new();
        let mut accepted_count: usize = 0;
        let mut pending: Vec<Pending> = Vec::new();
        let ghost mut verdicts: Seq<Result<(), Seq<char>>> = Seq::empty();
        let ghost mut plan = PlanModel {
            base: base@,
            tail: base@,
            outcomes: Seq::empty(),
            frames: Seq::empty(),
        };
        let mut position: usize = 0;
        proof {
            planned_start(nobody, base@, models);
            assert(views(operations@) =~= Seq::empty());
            assert(models.take(0) =~= Seq::empty());
        }
        while position < intents.len()
            invariant
                position <= intents.len(),
                models == views(intents@),
                nobody == Seq::<Rule>::empty(),
                has_epoch_room(base@, models),
                planned(nobody, base@, models, position as int, verdicts, plan),
                vm_epoch_fault(base@, models.take(position as int)) is None,
                plan.outcomes.len() == position,
                pending.len() == position,
                forall|i: int|
                    0 <= i < position ==> pends(#[trigger] pending@[i], plan.outcomes[i]),
                plan.tail.id == id,
                plan.tail.version == version,
                self.wf(),
                self.in_step(plan.tail.kernel),
                self.synchronized_version() == old(self).synchronized_version(),
                self.has_room(
                    (total_steps(models) - total_steps(models.take(position as int))) as nat,
                ),
                forall|more: nat| #[trigger]
                    old(self).spare_for(total_steps(models), more) ==> self.spare_for(
                        (total_steps(models) - total_steps(models.take(position as int))) as nat,
                        more,
                    ),
                accepted_count == plan.frames.len(),
                accepted_count <= position,
                views(operations@) == joined_operations(plan.frames),
                old(self).upcoming_entity() == base@.kernel.next_entity,
            decreases intents.len() - position,
        {
            let intent = &intents[position];
            let ghost world = plan.tail;
            let ghost front = models.take(position as int);
            proof {
                planned_facts(nobody, base@, models, position as int, verdicts, plan);
                planned_is_unopposed(base@, models, position as int, verdicts, plan);
                assert(models[position as int] == intent@);
                assert(models.take(position + 1).drop_last() =~= front);
                assert(models.take(position + 1).last() == intent@);
                total_steps_monotone(models, position + 1);
                resolved_applies(
                    world.kernel.next_entity,
                    intent@.namespace,
                    intent@.operations,
                    world.kernel,
                );
                mirrors_resolves(
                    self.vocabulary@,
                    self.workspace@,
                    world.kernel,
                    Seq::empty(),
                );
                planned_step(
                    nobody,
                    base@,
                    models,
                    position as int,
                    verdicts,
                    plan,
                    Ok::<(), Seq<char>>(()),
                );
                extended_facts(plan, intent@, Ok::<(), Seq<char>>(()));
                self.weaken_room(
                    (total_steps(models) - total_steps(front)) as nat,
                    (total_steps(models) - total_steps(models.take(position + 1))) as nat,
                );
            }
            let ghost earlier = plan;
            let ghost before = pending@;
            let ghost left = (total_steps(models) - total_steps(front)) as nat;
            let ghost after = (total_steps(models) - total_steps(
                models.take(position + 1),
            )) as nat;
            let ghost machine = *self;
            proof {
                verdicts = verdicts.push(Ok::<(), Seq<char>>(()));
                plan = extended(earlier, intent@, Ok::<(), Seq<char>>(()));
            }
            match self.propose(id, intent, Ghost(world)) {
                Err(error) => {
                    proof {
                        assert forall|more: nat| #[trigger]
                            old(self).spare_for(total_steps(models), more) implies self.spare_for(
                            after,
                            more,
                        ) by {
                            assert(machine.spare_for(left, more));
                            self.weaken_room(left + more, after + more);
                        }
                    }
                    pending.push(Pending::Rejected(RejectedIntent::new(position, error)));
                },
                Ok((intent_operations, entities)) => {
                    proof {
                        assert(intent_operations.len() == views(intent_operations@).len());
                        self.weaken_room(
                            (total_steps(models) - total_steps(front)) as nat,
                            intent_operations@.len(),
                        );
                    }
                    match self.apply(intent_operations.as_slice(), Ghost(world.kernel)) {
                        Ok(()) => {},
                        Err(message) => {
                            proof {
                                vm_epoch_fault_stays(base@, models, position + 1);
                            }
                            return Err(message);
                        },
                    }
                    proof {
                        mirrors_resolves(
                            self.vocabulary@,
                            self.workspace@,
                            plan.tail.kernel,
                            Seq::empty(),
                        );
                        assert(plan.frames.drop_last() =~= earlier.frames);
                        assert forall|more: nat| #[trigger]
                            old(self).spare_for(total_steps(models), more) implies self.spare_for(
                            after,
                            more,
                        ) by {
                            assert(machine.spare_for(left, more));
                            machine.weaken_room(
                                left + more,
                                after + more + intent_operations@.len(),
                            );
                            assert(self.has_room(after + more));
                        }
                    }
                    version = version + 1;
                    id = calculate_world_id(
                        id,
                        version,
                        self.workspace.next_entity(),
                        intent_operations.as_slice(),
                    );
                    extend_operations(&mut operations, intent_operations.as_slice());
                    accepted_count += 1;
                    pending.push(
                        Pending::Accepted { position, namespace: intent.namespace(), entities },
                    );
                },
            }
            position += 1;
            proof {
                assert forall|i: int| 0 <= i < position implies pends(
                    #[trigger] pending@[i],
                    plan.outcomes[i],
                ) by {
                    if i < position - 1 {
                        assert(pending@[i] == before[i]);
                        assert(plan.outcomes[i] == earlier.outcomes[i]);
                    }
                }
            }
        }
        proof {
            assert(models.take(position as int) =~= models);
            planned_facts(nobody, base@, models, position as int, verdicts, plan);
            planned_end(nobody, base@, models, verdicts, plan);
            chained_replays(base@, models, verdicts);
        }
        Ok(finish_epoch(base, operations, accepted_count, pending, Ghost(plan)))
    }

    /// Tests the demands of an intent and resolves its operations.
    fn propose(&self, id: WorldId, intent: &QueuedIntent, Ghost(world): Ghost<WorldModel>) -> (
        result: Result<(Vec<Operation>, BTreeMap<u32, EntityId>), IntentRejection>)
        requires
            self.wf(),
            self.in_step(world.kernel),
            world.id == id,
            has_room(world, intent@.operations.len()),
        ensures
            match (result, settled(world, intent@, Ok::<(), Seq<char>>(()))) {
                (Ok((operations, entities)), Ok((candidate, map))) => views(operations@)
                    == candidate.frame.operations && entities@ == map && replayed(
                    world.kernel,
                    views(operations@),
                ) == Ok::<KernelModel, CandidateErrorModel>(candidate.kernel)
                    && candidate.frame.resulting_world == successor_id(
                    world.id,
                    (world.version + 1) as u64,
                    candidate.kernel.next_entity as u64,
                    views(operations@),
                ) && candidate.frame.resulting_version == world.version + 1,
                (Err(error), Err(model)) => error@ == model,
                _ => false,
            },
    {
        proof {
            reveal(proposal);
            mirrors_resolves(self.vocabulary@, self.workspace@, world.kernel, Seq::empty());
            resolved_applies(
                world.kernel.next_entity,
                intent@.namespace,
                intent@.operations,
                world.kernel,
            );
        }
        self.check_preconditions(id, intent.preconditions(), Ghost(world.kernel))?;
        let steps = intent.operations();
        proof {
            assert(steps.len() == views(steps@).len());
        }
        match resolve_operations_from(self.workspace.next_entity(), intent.namespace(), steps) {
            Ok(done) => Ok(done),
            Err(temporary) => Err(IntentRejection::UnknownTemporaryEntity(temporary)),
        }
    }

    pub proof fn weaken_room(&self, large: nat, small: nat)
        requires
            self.has_room(large),
            small <= large,
        ensures
            self.has_room(small),
    {
        room_shrinks(self.workspace, small, large);
    }

    /// Plans an epoch: on the machine where there are no validators, and otherwise on the
    /// definitions, after which the machine takes in the accepted operations.
    pub fn materialize(
        &mut self,
        base: Arc<World>,
        intents: Vec<QueuedIntent>,
        validators: &[Rule],
    ) -> (result: Result<(EpochPlan, bool), String>)
        requires
            old(self).wf(),
            old(self).upcoming_entity() == base@.kernel.next_entity ==> old(self).in_step(
                base@.kernel,
            ),
            validators@.len() > 0 ==> old(self).in_step(base@.kernel),
            old(self).has_room(total_steps(views(intents@))),
            has_epoch_room(base@, views(intents@)),
        ensures
            final(self).wf(),
            final(self).synchronized_version() == old(self).synchronized_version(),
            result matches Ok((plan, used_vm)) ==> used_vm == (validators@.len() == 0)
                && final(self).in_step(plan@.tail.kernel) && plan@.frames.len()
                <= plan@.outcomes.len() && exists|verdicts: Seq<Result<(), Seq<char>>>|
                verdicts.len() == intents.len() && may_settle(
                    validators@,
                    base@,
                    views(intents@),
                    verdicts,
                ) && plan@ == #[trigger] collapsed(chained(base@, views(intents@), verdicts)),
            validators@.len() == 0 && old(self).upcoming_entity() == base@.kernel.next_entity
                ==> match vm_epoch_fault(base@, views(intents@)) {
                Some(fault) => result matches Err(message) && message@ == fault,
                None => result matches Ok((plan, _)) && plan@ == collapsed(
                    chained(base@, views(intents@), unopposed(intents@.len())),
                ),
            },
            validators@.len() > 0 || old(self).upcoming_entity() == base@.kernel.next_entity
                ==> materializes(
                validators@,
                base@,
                views(intents@),
                planned_model(result),
            ),
            result is Ok ==> forall|more: nat| #[trigger]
                old(self).spare_for(total_steps(views(intents@)), more) ==> final(self).has_room(
                    more,
                ),
    {
        let ghost models = views(intents@);
        if validators.len() > 0 {
            let start = share(&base);
            let plan = derive_epoch_world(start, intents, validators);
            proof {
                let verdicts = choose|verdicts: Seq<Result<(), Seq<char>>>|
                    verdicts.len() == intents.len() && may_settle(
                        validators@,
                        base@,
                        models,
                        verdicts,
                    ) && plan@ == collapsed(chained(base@, models, verdicts));
                chained_replays(base@, models, verdicts);
                outcomes_follow_intents(base@, models, verdicts);
                if plan@.frames.len() == 0 {
                    empty_collapse(base@, models, verdicts);
                }
            }
            let frames = plan.frames();
            proof {
                assert(frames.len() == views(frames@).len());
            }
            if frames.len() > 0 {
                let operations = frames[0].operations();
                proof {
                    assert(plan@.frames[0] == frames@[0]@);
                    assert(operations.len() == views(operations@).len());
                    self.weaken_room(total_steps(models), operations@.len());
                }
                let ghost machine = *self;
                match self.apply(operations, Ghost(base@.kernel)) {
                    Ok(()) => {},
                    Err(message) => {
                        proof {
                            let verdicts = choose|verdicts: Seq<Result<(), Seq<char>>>|
                                verdicts.len() == models.len() && may_settle(
                                    validators@,
                                    base@,
                                    models,
                                    verdicts,
                                ) && plan@ == collapsed(chained(base@, models, verdicts));
                            assert(taken_in(collapsed(chained(base@, models, verdicts))) == Err::<
                                PlanModel,
                                Seq<char>,
                            >(message@));
                        }
                        return Err(message);
                    },
                }
                proof {
                    assert forall|more: nat| #[trigger]
                        old(self).spare_for(total_steps(models), more) implies self.has_room(
                        more,
                    ) by {
                        machine.weaken_room(total_steps(models) + more, more + operations@.len());
                    }
                }
            } else {
                proof {
                    assert forall|more: nat| #[trigger]
                        old(self).spare_for(total_steps(models), more) implies self.has_room(
                        more,
                    ) by {
                        self.weaken_room(total_steps(models) + more, more);
                    }
                }
            }
            return Ok((plan, false));
        }
        match self.derive_vm_epoch(base, intents) {
            Ok(plan) => {
                proof {
                    unopposed_settles(validators@, base@, models);
                }
                Ok((plan, true))
            },
            Err(message) => Err(message),
        }
    }
}

/// The definitions after the first `count` frames of a history.
pub open spec fn kernel_after(history: Seq<FrameModel>, count: int) -> KernelModel {
    reconstructed(history.take(count))->Ok_0.kernel
}

/// Versions count the frames of a linear history.
pub proof fn versions_count_frames(history: Seq<FrameModel>, index: int)
    requires
        linked(history),
        0 <= index < history.len(),
    ensures
        history[index].parent_version == index,
        history[index].resulting_version == index + 1,
    decreases history.len(),
{
    let front = history.drop_last();
    if index < front.len() {
        versions_count_frames(front, index);
        assert(front[index] == history[index]);
    } else if front.len() > 0 {
        versions_count_frames(front, front.len() - 1);
    }
}

/// One more frame of a sound history.
proof fn kernel_after_next(history: Seq<FrameModel>, index: int)
    requires
        reconstructed(history) is Ok,
        0 <= index < history.len(),
    ensures
        replayed(kernel_after(history, index), history[index].operations) == Ok::<
            KernelModel,
            CandidateErrorModel,
        >(kernel_after(history, index + 1)),
        numbered(kernel_after(history, index)),
{
    prefix_reconstructs(history, index);
    prefix_reconstructs(history, index + 1);
    assert(history.take(index + 1).drop_last() =~= history.take(index));
    assert(history.take(index + 1).last() == history[index]);
    reconstructed_facts(history.take(index));
}

/// The first frame from `from` on that the machine cannot represent.
pub open spec fn history_fault(history: Seq<FrameModel>, from: int) -> Option<Seq<char>>
    decreases history.len() - from,
{
    if from < 0 || from >= history.len() {
        None
    } else {
        match operations_fault(history[from].operations) {
            Some(message) => Some(message),
            None => history_fault(history, from + 1),
        }
    }
}

/// How many operations the frames from `from` on have.
pub open spec fn operations_from(history: Seq<FrameModel>, from: int) -> nat
    decreases history.len() - from,
{
    if from < 0 || from >= history.len() {
        0
    } else {
        history[from].operations.len() + operations_from(history, from + 1)
    }
}

impl VmEpochMaterializer {
    /// Takes in the frames of a world that are newer than what the machine has seen.
    pub fn synchronize_to(&mut self, base: &World) -> (result: Result<(), String>)
        requires
            old(self).wf(),
            linked(base@.history),
            reconstructed(base@.history) == Ok::<WorldModel, CandidateErrorModel>(base@),
            0 < old(self).synchronized_version() <= base@.version ==> old(self).in_step(
                kernel_after(base@.history, old(self).synchronized_version() as int),
            ),
            base@.version == 0 ==> old(self).in_step(base@.kernel),
            old(self).has_room(
                operations_from(base@.history, old(self).synchronized_version() as int),
            ),
        ensures
            final(self).wf(),
            result is Ok ==> forall|steps: nat| #[trigger]
                old(self).spare(
                    operations_from(base@.history, old(self).synchronized_version() as int),
                    steps,
                ) ==> final(self).has_room(steps),
            if old(self).synchronized_version() > base@.version {
                result matches Err(message) && message@ == "VM materializer cannot rewind"@
            } else {
                match history_fault(base@.history, old(self).synchronized_version() as int) {
                    Some(fault) => result matches Err(message) && message@ == fault,
                    None => result is Ok && final(self).in_step(base@.kernel)
                        && final(self).synchronized_version() == base@.version,
                }
            },
    {
        let ghost history = base@.history;
        let ghost seen = self.version as int;
        proof {
            reconstructed_facts(history);
            if history.len() > 0 {
                versions_count_frames(history, history.len() - 1);
            }
            assert(base@.version == history.len());
            assert(history.take(history.len() as int) =~= history);
        }
        if self.version > base.version() {
            return Err("VM materializer cannot rewind".to_owned());
        }
        let ghost total = operations_from(history, seen);
        if self.version == base.version() {
            proof {
                assert forall|steps: nat| #[trigger]
                    self.spare(total, steps) implies self.has_room(steps) by {
                    self.weaken_room(total + steps, steps);
                }
            }
            return Ok(());
        }
        if self.version == 0 {
            self.workspace = Workspace::new(1);
            let count: usize = self.vocabulary.slot_count();
            self.workspace.ensure_slot_count(count);
            proof {
                mirrors_empty(self.vocabulary@, count as nat);
                assert(self.workspace@.stacks =~= Seq::new(
                    count as nat,
                    |i: int| Seq::<Triple>::empty(),
                ));
                assert(history.take(0) =~= Seq::empty());
            }
        }
        let frames = base.frames();
        let mut index: usize = 0;
        proof {
            assert(frames.len() == views(frames@).len());
            assert forall|steps: nat| #[trigger] old(self).spare(total, steps) implies self.has_room(
                operations_from(history, seen) + steps,
            ) by {
                assert(self.has_room(total + steps));
                            }
        }
        while index < frames.len()
            invariant
                index <= frames.len(),
                history == base@.history,
                history == views(frames@),
                linked(history),
                reconstructed(history) is Ok,
                0 <= seen < history.len(),
                seen == old(self).synchronized_version(),
                base@.version == history.len(),
                self.wf(),
                self.version == if index < seen {
                    seen
                } else {
                    index as int
                },
                self.in_step(kernel_after(history, self.version as int)),
                self.has_room(operations_from(history, self.version as int)),
                total == operations_from(history, seen),
                forall|steps: nat| #[trigger]
                    old(self).spare(total, steps) ==> self.has_room(
                        operations_from(history, self.version as int) + steps,
                    ),
                history_fault(history, self.version as int) == history_fault(history, seen),
            decreases frames.len() - index,
        {
            let frame = &frames[index];
            proof {
                versions_count_frames(history, index as int);
                assert(history[index as int] == frame@);
            }
            if frame.parent_version() + 1 > self.version {
                let operations = frame.operations();
                proof {
                    assert(self.version == index);
                    kernel_after_next(history, index as int);
                    assert(operations.len() == views(operations@).len());
                    self.weaken_room(
                        operations_from(history, index as int),
                        operations@.len(),
                    );
                    assert(operations_from(history, index as int) == operations_from(
                        history,
                        index + 1,
                    ) + operations@.len());
                }
                let ghost rest = operations_from(history, index + 1);
                let ghost before = *self;
                proof {
                    assert(self.has_room(rest + operations@.len()));
                }
                self.apply(operations, Ghost(kernel_after(history, index as int)))?;
                proof {
                    assert(self.has_room(rest));
                    assert forall|steps: nat| #[trigger]
                        old(self).spare(total, steps) implies self.has_room(rest + steps) by {
                        assert(before.has_room(operations_from(history, index as int) + steps));
                        assert(operations_from(history, index as int) + steps == (rest + steps)
                            + operations@.len());
                    }
                }
                self.version = frame.parent_version() + 1;
            }
            index += 1;
        }
        Ok(())
    }

    /// A machine that is in step with a world.
    pub fn from_world(base: &World) -> (result: Result<Self, String>)
        requires
            linked(base@.history),
            reconstructed(base@.history) == Ok::<WorldModel, CandidateErrorModel>(base@),
            operations_from(base@.history, 0) < NONE,
            base@.kernel.next_entity + operations_from(base@.history, 0) <= u64::MAX,
        ensures
            match history_fault(base@.history, 0) {
                Some(fault) => result matches Err(message) && message@ == fault,
                None => result matches Ok(materializer) && materializer.wf()
                    && materializer.in_step(base@.kernel)
                    && materializer.synchronized_version() == base@.version,
            },
            result matches Ok(materializer) ==> forall|steps: nat|
                operations_from(base@.history, 0) + steps < NONE
                    && base@.kernel.next_entity + operations_from(base@.history, 0) + steps
                    <= u64::MAX ==> #[trigger] materializer.has_room(steps),
    {
        let mut materializer = VmEpochMaterializer::new(base.next_entity());
        let ghost fresh = materializer;
        proof {
            reconstructed_facts(base@.history);
            if base@.history.len() > 0 {
                versions_count_frames(base@.history, base@.history.len() - 1);
            } else {
                assert(base@.history =~= Seq::empty());
            }
        }
        materializer.synchronize_to(base)?;
        proof {
            let total = operations_from(base@.history, 0);
            assert forall|steps: nat|
                total + steps < NONE && base@.kernel.next_entity + total + steps
                    <= u64::MAX implies #[trigger] materializer.has_room(steps) by {
                assert(fresh.has_room(total + steps));
                assert(fresh.spare(total, steps));
            }
        }
        Ok(materializer)
    }

    /// A machine that is in step allocates the entity that the kernel allocates.
    pub proof fn in_step_allocates(&self, kernel: KernelModel)
        requires
            self.wf(),
            self.in_step(kernel),
            kernel.next_entity <= u64::MAX,
        ensures
            self.upcoming_entity() == kernel.next_entity,
    {
        mirrors_resolves(self.vocabulary@, self.workspace@, kernel, Seq::empty());
    }
}

pub proof fn room_shrinks(workspace: Workspace, small: nat, large: nat)
    requires
        workspace.has_room(large),
        small <= large,
    ensures
        workspace.has_room(small),
{
    workspace.room_is_monotone(small, large);
}

/// Without validators every verdict is acceptance.
pub proof fn planned_is_unopposed(
    base: WorldModel,
    intents: Seq<IntentModel>,
    count: int,
    verdicts: Seq<Result<(), Seq<char>>>,
    plan: PlanModel,
)
    requires
        planned(Seq::<Rule>::empty(), base, intents, count, verdicts, plan),
    ensures
        plan == chained(base, intents.take(count), unopposed(count as nat)),
{
    reveal(planned);
}

/// Where there are no validators, acceptance is the verdict that they may come to.
pub proof fn unopposed_settles(
    validators: Seq<Rule>,
    base: WorldModel,
    intents: Seq<IntentModel>,
)
    requires
        validators.len() == 0,
    ensures
        may_settle(validators, base, intents, unopposed(intents.len())),
        unopposed(intents.len()).len() == intents.len(),
{
    reveal(may_settle);
}

/// An epoch without frames leaves the base.
pub proof fn empty_collapse(
    base: WorldModel,
    intents: Seq<IntentModel>,
    verdicts: Seq<Result<(), Seq<char>>>,
)
    requires
        collapsed(chained(base, intents, verdicts)).frames.len() == 0,
    ensures
        collapsed(chained(base, intents, verdicts)).tail == base,
{
    no_frames_keep_base(base, intents, verdicts);
}

} // verus!
