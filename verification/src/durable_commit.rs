//! Committing an epoch to a store that may fail.

use crate::compile::{find_fault, operations_fault};
use crate::database::{Database, Rule};
use crate::epoch_io::EpochFileIo;
use crate::epoch_store::{FileEpochStore, FileEpochStoreError, epoch_appended};
use crate::fact::{OperationModel, views};
use crate::intent::{IntentModel, QueuedIntent};
use crate::materializer::{
    empty_collapse, materializes, taken_in, unopposed_settles, vm_epoch_fault,
};
use crate::plan::{EpochPlan, derive_epoch_world};
use crate::plan_model::{
    PlanModel, chained, chained_ignores_later_verdicts, collapsed, collapsed_plan_replays,
    has_epoch_room, joined_operations, may_settle, outcomes_follow_intents, settled, total_steps,
    total_steps_monotone, unopposed,
};
use crate::text::joined;
use crate::world::{World, WorldModel, reconstructed_facts};
use std::sync::Arc;
use vstd::prelude::*;
use vstd::string::*;

verus! {

/// What became of an epoch.
pub enum DurableCommit {
    /// It is stored and published; or it changes nothing.
    Committed(EpochPlan),
    /// It could not be stored, and is not published.
    Failed(EpochPlan, FileEpochStoreError),
    /// It could not be planned.
    Broken(String),
}

/// The world of a database is the replay of its log, and its store is in order.
pub open spec fn durable_sound<I: EpochFileIo>(database: Database<FileEpochStore<I>>) -> bool {
    &&& database.sound()
    &&& database.epoch_store().wf()
    &&& database.log() == database.epoch_store()@.history
}

/// What went wrong in planning.
pub open spec fn broken_text(fault: Seq<char>) -> Seq<char> {
    "vm materialize: \""@ + fault + "\""@
}

/// A plan that planning leads to is one that some verdicts of the validators give.
pub proof fn led_to_plans(
    rules: Seq<Rule>,
    world: WorldModel,
    intents: Seq<IntentModel>,
    plan: PlanModel,
)
    requires
        materializes(rules, world, intents, Ok(plan)),
    ensures
        plans(rules, world, intents, plan),
{
    if rules.len() == 0 {
        unopposed_settles(rules, world, intents);
    } else {
        let verdicts = choose|verdicts: Seq<Result<(), Seq<char>>>|
            verdicts.len() == intents.len() && may_settle(rules, world, intents, verdicts) && Ok::<
                PlanModel,
                Seq<char>,
            >(plan) == taken_in(#[trigger] collapsed(chained(world, intents, verdicts)));
        assert(plan == collapsed(chained(world, intents, verdicts)));
    }
}

/// A plan of intents on a world, as some verdicts of the validators have it.
pub open spec fn plans(
    rules: Seq<Rule>,
    world: WorldModel,
    intents: Seq<IntentModel>,
    plan: PlanModel,
) -> bool {
    &&& exists|verdicts: Seq<Result<(), Seq<char>>>|
        verdicts.len() == intents.len() && may_settle(rules, world, intents, verdicts) && plan
            == #[trigger] collapsed(chained(world, intents, verdicts))
    &&& rules.len() == 0 ==> plan == collapsed(
        chained(world, intents, unopposed(intents.len())),
    )
}

pub fn sum_steps(intents: &Vec<QueuedIntent>) -> (result: usize)
    requires
        total_steps(views(intents@)) <= usize::MAX,
    ensures
        result == total_steps(views(intents@)),
{
    let ghost models = views(intents@);
    let mut total: usize = 0;
    let mut index: usize = 0;
    proof {
        assert(models.take(0) =~= Seq::empty());
    }
    while index < intents.len()
        invariant
            index <= intents.len(),
            models == views(intents@),
            total_steps(models) <= usize::MAX,
            total == total_steps(models.take(index as int)),
        decreases intents.len() - index,
    {
        proof {
            assert(models.take(index + 1).drop_last() =~= models.take(index as int));
            assert(models.take(index + 1).last() == intents@[index as int]@);
            total_steps_monotone(models, index + 1);
        }
        total = total + intents[index].operation_count();
        index += 1;
    }
    proof {
        assert(models.take(index as int) =~= models);
    }
    total
}

/// What the machine cannot represent of an epoch without validators is what it cannot represent of
/// the operations that its intents have together.
pub proof fn epoch_fault_is_joint(base: WorldModel, intents: Seq<IntentModel>)
    ensures
        vm_epoch_fault(base, intents) == operations_fault(
            joined_operations(chained(base, intents, unopposed(intents.len())).frames),
        ),
    decreases intents.len(),
{
    if intents.len() > 0 {
        let front = intents.drop_last();
        epoch_fault_is_joint(base, front);
        chained_ignores_later_verdicts(
            base,
            front,
            unopposed(front.len()),
            unopposed(intents.len()),
        );
        let before = chained(base, front, unopposed(front.len()));
        let after = chained(base, intents, unopposed(intents.len()));
        if let Ok((candidate, _)) = settled(before.tail, intents.last(), Ok(())) {
            assert(after.frames.drop_last() =~= before.frames);
            operations_fault_joins(
                joined_operations(before.frames),
                candidate.frame.operations,
            );
        }
    }
}

/// The first fault of two lists of operations.
proof fn operations_fault_joins(first: Seq<OperationModel>, second: Seq<OperationModel>)
    ensures
        operations_fault(first + second) == match operations_fault(first) {
            Some(message) => Some(message),
            None => operations_fault(second),
        },
    decreases second.len(),
{
    if second.len() == 0 {
        assert(first + second =~= first);
    } else {
        assert((first + second).drop_last() =~= first + second.drop_last());
        operations_fault_joins(first, second.drop_last());
    }
}

/// A plan that some verdicts give is what planning leads to, unless the machine cannot represent it.
proof fn planned_is_taken_in(
    rules: Seq<Rule>,
    world: WorldModel,
    intents: Seq<IntentModel>,
    plan: PlanModel,
)
    requires
        exists|verdicts: Seq<Result<(), Seq<char>>>|
            verdicts.len() == intents.len() && may_settle(rules, world, intents, verdicts) && plan
                == #[trigger] collapsed(chained(world, intents, verdicts)),
        rules.len() == 0 ==> plan == collapsed(
            chained(world, intents, unopposed(intents.len())),
        ),
    ensures
        materializes(rules, world, intents, taken_in(plan)),
        plans(rules, world, intents, plan),
        plan.outcomes.len() == intents.len(),
{
    let verdicts = choose|verdicts: Seq<Result<(), Seq<char>>>|
        verdicts.len() == intents.len() && may_settle(rules, world, intents, verdicts) && plan
            == #[trigger] collapsed(chained(world, intents, verdicts));
    outcomes_follow_intents(world, intents, verdicts);
    if rules.len() == 0 {
        let chain = chained(world, intents, unopposed(intents.len()));
        epoch_fault_is_joint(world, intents);
        if chain.frames.len() > 0 {
            assert(plan.frames[0].operations == joined_operations(chain.frames));
        } else {
            assert(joined_operations(chain.frames) == Seq::<OperationModel>::empty());
        }
    }
}

/// Plans an epoch on the definitions of a world. What the machine could not represent of its
/// operations is an error; what the world's history holds is none.
pub fn plan_epoch(base: Arc<World>, intents: Vec<QueuedIntent>, validators: &[Rule]) -> (result:
    Result<EpochPlan, String>)
    requires
        has_epoch_room(base@, views(intents@)),
    ensures
        materializes(
            validators@,
            base@,
            views(intents@),
            match result {
                Ok(plan) => Ok(plan@),
                Err(message) => Err(message@),
            },
        ),
        result matches Ok(plan) ==> plans(validators@, base@, views(intents@), plan@)
            && plan@.frames.len() <= plan@.outcomes.len() && plan@.outcomes.len()
            == intents.len(),
{
    let ghost models = views(intents@);
    let ghost world = base@;
    let plan = derive_epoch_world(base, intents, validators);
    proof {
        planned_is_taken_in(validators@, world, models, plan@);
    }
    if plan.is_empty() {
        return Ok(plan);
    }
    let operations = plan.frames()[0].operations();
    proof {
        assert(views(operations@) == plan@.frames[0].operations);
    }
    match find_fault(operations) {
        Some(fault) => Err(fault),
        None => Ok(plan),
    }
}

/// What became of an epoch of intents.
pub open spec fn durably_commits<I: EpochFileIo>(
    before: Database<FileEpochStore<I>>,
    after: Database<FileEpochStore<I>>,
    intents: Seq<IntentModel>,
    commit: DurableCommit,
) -> bool {
    &&& after.rules() == before.rules()
    &&& match commit {
        DurableCommit::Committed(plan) => {
            &&& plans(before.rules(), before.world(), intents, plan@)
            &&& materializes(before.rules(), before.world(), intents, Ok(plan@))
            &&& plan@.outcomes.len() == intents.len()
            &&& after.world() == plan@.tail
            &&& after.log() == before.log() + plan@.frames
            &&& plan@.frames.len() == 0 ==> after == before
            &&& plan@.frames.len() > 0 ==> epoch_appended(
                before.epoch_store(),
                after.epoch_store(),
                plan@.frames,
                Ok(()),
            )
        },
        DurableCommit::Failed(plan, error) => {
            &&& plans(before.rules(), before.world(), intents, plan@)
            &&& materializes(before.rules(), before.world(), intents, Ok(plan@))
            &&& plan@.outcomes.len() == intents.len()
            &&& plan@.frames.len() > 0
            &&& after.world() == before.world()
            &&& after.log() == before.log()
            &&& epoch_appended(
                before.epoch_store(),
                after.epoch_store(),
                plan@.frames,
                Err(error),
            )
        },
        DurableCommit::Broken(message) => {
            &&& after == before
            &&& exists|fault: Seq<char>| #[trigger]
                materializes(before.rules(), before.world(), intents, Err(fault)) && message@
                    == broken_text(fault)
        },
    }
}

/// Text between quotes, behind a label.
pub fn quoted(label: &str, text: &str) -> (result: String)
    ensures
        result@ == label@ + text@ + "\""@,
{
    let mut out = joined(label, text);
    out.append("\"");
    out
}

/// A source of times, in nanoseconds. Nothing is promised of them.
pub trait Clock {
    fn now(&mut self) -> u64;
}

/// How long the parts of a commit took.
#[derive(Clone, Copy, Debug, PartialEq, Eq, Structural)]
pub struct CommitTimes {
    pub derive: u64,
    pub persist: u64,
    pub publish: u64,
}

impl<I: EpochFileIo> Database<FileEpochStore<I>> {
    /// Plans an epoch on the current world, stores it, and then publishes its world. Nothing of an
    /// epoch that could not be stored is published.
    pub fn commit_durable_epoch<C: Clock>(&mut self, intents: Vec<QueuedIntent>, clock: &mut C) -> (
        result: (DurableCommit, CommitTimes))
        requires
            durable_sound(*old(self)),
            has_epoch_room(old(self).world(), views(intents@)),
        ensures
            durable_sound(*final(self)),
            durably_commits(*old(self), *final(self), views(intents@), result.0),
    {
        let ghost models = views(intents@);
        let started: u64 = clock.now();
        let base = self.snapshot();
        proof {
            self.epoch_store().wf_is_linked();
            reconstructed_facts(self.log());
        }
        let planned = plan_epoch(base, intents, self.validators());
        let derived: u64 = clock.now();
        let derive: u64 = derived.saturating_sub(started);
        let plan = match planned {
            Ok(plan) => plan,
            Err(error) => {
                let message = quoted("vm materialize: \"", error.as_str());
                proof {
                    assert(message@ == broken_text(error@));
                    assert(materializes(self.rules(), self.world(), models, Err(error@)));
                }
                return (
                    DurableCommit::Broken(message),
                    CommitTimes { derive, persist: 0, publish: 0 },
                );
            },
        };
        proof {
            let verdicts = choose|verdicts: Seq<Result<(), Seq<char>>>|
                verdicts.len() == models.len() && may_settle(
                    self.rules(),
                    self.world(),
                    models,
                    verdicts,
                ) && plan@ == #[trigger] collapsed(chained(self.world(), models, verdicts));
            collapsed_plan_replays(self.world(), models, verdicts);
            if plan@.frames.len() == 0 {
                empty_collapse(self.world(), models, verdicts);
                assert(self.log() + plan@.frames =~= self.log());
            }
        }
        if plan.is_empty() {
            return (
                DurableCommit::Committed(plan),
                CommitTimes { derive, persist: 0, publish: 0 },
            );
        }
        let appended = self.append_frames(plan.frames());
        let stored: u64 = clock.now();
        let persist: u64 = stored.saturating_sub(derived);
        match appended {
            Ok(()) => {
                self.publish_world(plan.tail());
                let publish: u64 = clock.now().saturating_sub(stored);
                (DurableCommit::Committed(plan), CommitTimes { derive, persist, publish })
            },
            Err(error) => (
                DurableCommit::Failed(plan, error),
                CommitTimes { derive, persist, publish: 0 },
            ),
        }
    }
}

} // verus!
