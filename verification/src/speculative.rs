//! Planning one epoch ahead: while an epoch is being stored, its successor is planned on the world
//! that will be, and planned again if that world does not come to be.

use crate::database::{Database, Rule};
use crate::durable_commit::{broken_text, durable_sound, plan_epoch, plans, quoted};
use crate::epoch_io::EpochFileIo;
use crate::epoch_store::{
    FileEpochStore, FileEpochStoreError, FlyingEpoch, PreparedEpoch, epoch_appended, epoch_prepared,
    epoch_refusal, epoch_settled, epoch_submitted, flying_for, prepared_for,
    preparing_changes_nothing, submitting_changes_nothing,
};
use crate::errors::CandidateErrorModel;
use crate::fact::views;
use crate::frame::FrameModel;
use crate::intent::{IntentModel, QueuedIntent};
use crate::log_format::linked;
use crate::materializer::{empty_collapse, materializes};
use crate::plan::EpochPlan;
use crate::plan_model::{
    PlanModel, chained, collapsed, collapsed_plan_replays, has_epoch_room, may_settle,
    outcomes_follow_intents, total_steps, total_steps_monotone,
};
use crate::text::joined;
use crate::world::{World, WorldModel, reconstructed, reconstructed_facts};
use std::sync::Arc;
use vstd::prelude::*;
use vstd::string::*;

verus! {

/// A batch with its plan.
pub struct PreparedBatch {
    pub tickets: Vec<u64>,
    pub intents: Vec<QueuedIntent>,
    pub plan: EpochPlan,
}

/// A batch without a plan.
pub struct UnplannedBatch {
    pub tickets: Vec<u64>,
    pub intents: Vec<QueuedIntent>,
}

/// The plan of a batch was made on a world.
pub open spec fn prepared_on(rules: Seq<Rule>, world: WorldModel, batch: PreparedBatch) -> bool {
    &&& plans(rules, world, views(batch.intents@), batch.plan@)
    &&& batch.plan@.outcomes.len() == batch.intents@.len()
    &&& batch.tickets@.len() == batch.intents@.len()
    &&& has_epoch_room(world, views(batch.intents@))
}

pub fn clone_intents(intents: &Vec<QueuedIntent>) -> (result: Vec<QueuedIntent>)
    ensures
        views(result@) == views(intents@),
        result.len() == intents.len(),
{
    let mut output: Vec<QueuedIntent> = Vec::new();
    let mut index: usize = 0;
    while index < intents.len()
        invariant
            index <= intents.len(),
            output.len() == index,
            forall|i: int| 0 <= i < index ==> (#[trigger] output@[i])@ == intents@[i]@,
        decreases intents.len() - index,
    {
        output.push(intents[index].clone());
        index += 1;
    }
    proof {
        assert(views(output@) =~= views(intents@));
    }
    output
}

/// Whether an epoch of intents can be counted.
pub fn intents_fit(world: &World, intents: &Vec<QueuedIntent>) -> (result: bool)
    ensures
        result == has_epoch_room(world@, views(intents@)),
{
    let ghost models = views(intents@);
    let mut total: usize = 0;
    let mut index: usize = 0;
    proof {
        assert(models.take(0) =~= Seq::empty());
        assert(models.len() == intents.len());
    }
    while index < intents.len()
        invariant
            index <= intents.len(),
            models == views(intents@),
            total == total_steps(models.take(index as int)),
        decreases intents.len() - index,
    {
        proof {
            assert(models.take(index + 1).drop_last() =~= models.take(index as int));
            assert(models.take(index + 1).last() == intents@[index as int]@);
            total_steps_monotone(models, index + 1);
        }
        match total.checked_add(intents[index].operation_count()) {
            Some(more) => total = more,
            None => return false,
        }
        index += 1;
    }
    proof {
        assert(models.take(index as int) =~= models);
    }
    let room: u64 = u64::MAX - world.version();
    (intents.len() as u64) < room && total <= usize::MAX - world.operation_count() && total
        <= usize::MAX - world.record_count() && total as u64 <= u64::MAX - world.next_entity()
}

/// What deriving the plan of a batch on a world leads to.
pub open spec fn derivation_leads_to(
    rules: Seq<Rule>,
    world: WorldModel,
    intents: Seq<IntentModel>,
    result: Result<PlanModel, Seq<char>>,
) -> bool {
    if !has_epoch_room(world, intents) {
        result == Err::<PlanModel, Seq<char>>(
            "speculative epoch derivation failed: epoch is too long"@,
        )
    } else {
        match result {
            Ok(plan) => materializes(rules, world, intents, Ok(plan)),
            Err(message) => exists|fault: Seq<char>| #[trigger]
                materializes(rules, world, intents, Err(fault)) && message
                    == "speculative epoch derivation failed: "@ + broken_text(fault),
        }
    }
}

/// A batch was planned on a world, or handed back with the reason why it could not be.
pub open spec fn derives(
    rules: Seq<Rule>,
    world: WorldModel,
    tickets: Seq<u64>,
    intents: Seq<IntentModel>,
    result: Result<PreparedBatch, (UnplannedBatch, String)>,
) -> bool {
    match result {
        Ok(prepared) => {
            &&& prepared_on(rules, world, prepared)
            &&& prepared.tickets@ == tickets
            &&& views(prepared.intents@) == intents
            &&& derivation_leads_to(rules, world, intents, Ok(prepared.plan@))
        },
        Err((handed_back, message)) => {
            &&& handed_back.tickets@ == tickets
            &&& views(handed_back.intents@) == intents
            &&& derivation_leads_to(rules, world, intents, Err(message@))
        },
    }
}

/// Plans a batch on a world.
pub fn derive_prepared_batch(source: UnplannedBatch, base: Arc<World>, validators: &[Rule]) -> (
    result: Result<PreparedBatch, (UnplannedBatch, String)>)
    requires
        source.tickets.len() == source.intents.len(),
        linked(base@.history),
        reconstructed(base@.history) == Ok::<WorldModel, CandidateErrorModel>(base@),
    ensures
        derives(validators@, base@, source.tickets@, views(source.intents@), result),
{
    proof {
        reconstructed_facts(base@.history);
    }
    if !intents_fit(&base, &source.intents) {
        return Err((source, "speculative epoch derivation failed: epoch is too long".to_owned()));
    }
    let ghost world = base@;
    let intents = clone_intents(&source.intents);
    match plan_epoch(base, intents, validators) {
        Ok(plan) => Ok(
            PreparedBatch { tickets: source.tickets, intents: source.intents, plan },
        ),
        Err(error) => {
            let text = quoted("vm materialize: \"", error.as_str());
            let message = joined("speculative epoch derivation failed: ", text.as_str());
            proof {
                assert(materializes(
                    validators@,
                    world,
                    views(source.intents@),
                    Err(error@),
                ));
                assert(text@ == broken_text(error@));
            }
            Err((source, message))
        },
    }
}

/// A plan leads to a world that is the replay of a linked history.
proof fn tail_is_sound(
    rules: Seq<Rule>,
    world: WorldModel,
    intents: Seq<IntentModel>,
    plan: PlanModel,
)
    requires
        plans(rules, world, intents, plan),
        has_epoch_room(world, intents),
        linked(world.history),
        reconstructed(world.history) == Ok::<WorldModel, CandidateErrorModel>(world),
    ensures
        linked(plan.tail.history),
        plan.tail.history == world.history + plan.frames,
        reconstructed(plan.tail.history) == Ok::<WorldModel, CandidateErrorModel>(plan.tail),
        plan.frames.len() == 0 ==> plan.tail == world,
{
    let verdicts = choose|verdicts: Seq<Result<(), Seq<char>>>|
        verdicts.len() == intents.len() && may_settle(rules, world, intents, verdicts) && plan
            == #[trigger] collapsed(chained(world, intents, verdicts));
    collapsed_plan_replays(world, intents, verdicts);
    outcomes_follow_intents(world, intents, verdicts);
    reconstructed_facts(world.history);
    if plan.frames.len() == 0 {
        empty_collapse(world, intents, verdicts);
    } else {
        assert(plan.tail.history.drop_last() =~= world.history);
        assert(plan.tail.history.last() == plan.frames[0]);
    }
}

/// What settling a prepared batch leads to.
pub struct SettledBatch {
    /// The plan of the batch, with its outcomes.
    pub plan: EpochPlan,
    pub tickets: Vec<u64>,
    /// Why the epoch could not be stored.
    pub failure: Option<FileEpochStoreError>,
    /// The batch after it, planned on the world as it is now; or why it could not be planned.
    pub successor: Option<Result<PreparedBatch, (UnplannedBatch, String)>>,
    /// The successor was planned before the epoch was stored.
    pub speculated: bool,
    /// The successor was planned a second time.
    pub rederived: bool,
}

/// What became of the batch after a prepared one. While an epoch is stored, it is planned on the
/// world that the epoch leads to. Where the epoch was not stored, a plan made so is dropped and the
/// batch is planned again on the world that stays; a batch that could not be planned ahead is not
/// tried again.
pub open spec fn successor_follows(
    rules: Seq<Rule>,
    world: WorldModel,
    plan: PlanModel,
    stored: bool,
    tickets: Seq<u64>,
    intents: Seq<IntentModel>,
    successor: Result<PreparedBatch, (UnplannedBatch, String)>,
    rederived: bool,
) -> bool {
    if stored {
        derives(rules, plan.tail, tickets, intents, successor) && !rederived
    } else if rederived {
        &&& derives(rules, world, tickets, intents, successor)
        &&& exists|ahead: PlanModel| #[trigger]
            derivation_leads_to(rules, plan.tail, intents, Ok(ahead))
    } else {
        successor is Err && derives(rules, plan.tail, tickets, intents, successor)
    }
}

/// What storing an epoch came to.
pub open spec fn storing_result(failure: Option<FileEpochStoreError>) -> Result<
    (),
    FileEpochStoreError,
> {
    match failure {
        None => Ok(()),
        Some(error) => Err(error),
    }
}

/// The store refused an epoch before its device was asked to write anything.
pub open spec fn refused_at_once<I: EpochFileIo>(
    before: FileEpochStore<I>,
    frames: Seq<FrameModel>,
    failure: Option<FileEpochStoreError>,
) -> bool {
    failure matches Some(error) && (error@ is Io || epoch_refusal(before@, frames) is Some)
}

/// Whether an epoch goes underway: not if the store refuses it, nor if its device does not begin to
/// write it, which only one does that writes in the background.
pub open spec fn goes_underway<I: EpochFileIo>(
    before: FileEpochStore<I>,
    after: FileEpochStore<I>,
    frames: Seq<FrameModel>,
    failure: Option<FileEpochStoreError>,
    underway: bool,
) -> bool {
    let refused = refused_at_once(before, frames, failure);
    &&& refused ==> !underway
    &&& failure is None ==> underway
    &&& !before.device().transports() ==> underway == !refused
    &&& before.device().logs() ==> underway == !(refused || after.device().log().refused
        > before.device().log().refused)
}

/// An epoch was laid out and is on its way.
#[verifier::opaque]
pub open spec fn batch_begun<I: EpochFileIo>(
    before: FileEpochStore<I>,
    begun: FileEpochStore<I>,
    frames: Seq<FrameModel>,
) -> bool {
    exists|ready: FileEpochStore<I>, epoch: PreparedEpoch, flying: FlyingEpoch|
        #![trigger epoch_prepared(before, ready, frames, Ok(epoch)), epoch_submitted(
            ready,
            begun,
            frames,
            Ok(flying),
        )]
        epoch_prepared(before, ready, frames, Ok(epoch)) && epoch_submitted(
            ready,
            begun,
            frames,
            Ok(flying),
        )
}

/// An epoch that was begun and is settled was appended or not as the settling says.
pub proof fn begun_epoch_is_appended<I: EpochFileIo>(
    before: FileEpochStore<I>,
    begun: FileEpochStore<I>,
    after: FileEpochStore<I>,
    frames: Seq<FrameModel>,
    failure: Option<FileEpochStoreError>,
)
    requires
        frames.len() > 0,
        batch_begun(before, begun, frames),
        epoch_settled(begun, begun@, after, frames, storing_result(failure)),
        begun.device().logs() ==> after.device().log().refused == begun.device().log().refused,
    ensures
        epoch_appended(before, after, frames, storing_result(failure)),
        goes_underway(before, after, frames, failure, true),
{
    reveal(batch_begun);
    let (ready, epoch, flying) = choose|
        ready: FileEpochStore<I>,
        epoch: PreparedEpoch,
        flying: FlyingEpoch,
    |
        #![trigger epoch_prepared(before, ready, frames, Ok(epoch)), epoch_submitted(
            ready,
            begun,
            frames,
            Ok(flying),
        )]
        epoch_prepared(before, ready, frames, Ok(epoch)) && epoch_submitted(
            ready,
            begun,
            frames,
            Ok(flying),
        );
    submitting_changes_nothing(ready, begun, after, frames, storing_result(failure));
    preparing_changes_nothing(before, ready, after, frames, storing_result(failure));
}

/// The epoch that a prepared batch needs is on its way; a batch that changes nothing needs none.
pub open spec fn epoch_ready<I: EpochFileIo>(
    database: Database<FileEpochStore<I>>,
    plan: PlanModel,
    epoch: Option<FlyingEpoch>,
) -> bool {
    match epoch {
        None => plan.frames.len() == 0,
        Some(flying) => flying_for(database.epoch_store(), plan.frames, flying),
    }
}

impl<I: EpochFileIo> Database<FileEpochStore<I>> {
    /// Lays out the epoch of a plan for the store, if the plan changes anything. Nothing is
    /// written.
    pub fn prepare_batch(&mut self, plan: &EpochPlan) -> (result: Result<
        Option<PreparedEpoch>,
        FileEpochStoreError,
    >)
        requires
            durable_sound(*old(self)),
        ensures
            durable_sound(*final(self)),
            final(self).rules() == old(self).rules(),
            final(self).world() == old(self).world(),
            final(self).log() == old(self).log(),
            plan@.frames.len() == 0 ==> *final(self) == *old(self) && result
                == Ok::<Option<PreparedEpoch>, FileEpochStoreError>(None),
            plan@.frames.len() > 0 ==> match result {
                Ok(epoch) => epoch matches Some(laid_out) && epoch_prepared(
                    old(self).epoch_store(),
                    final(self).epoch_store(),
                    plan@.frames,
                    Ok(laid_out),
                ),
                Err(error) => epoch_prepared(
                    old(self).epoch_store(),
                    final(self).epoch_store(),
                    plan@.frames,
                    Err(error),
                ),
            },
    {
        let frames = plan.frames();
        proof {
            assert(frames.len() == views(frames@).len());
            self.log_is_history();
        }
        if frames.len() == 0 {
            return Ok(None);
        }
        match self.prepare_frames(frames) {
            Ok(epoch) => Ok(Some(epoch)),
            Err(error) => Err(error),
        }
    }

    /// Has the store begin to write the epoch of a plan, if the plan changes anything. An epoch that
    /// the store does not begin is taken back.
    pub fn submit_batch(&mut self, plan: &EpochPlan, epoch: Option<PreparedEpoch>) -> (result:
        Result<Option<FlyingEpoch>, FileEpochStoreError>)
        requires
            durable_sound(*old(self)),
            match epoch {
                None => plan@.frames.len() == 0,
                Some(laid_out) => prepared_for(old(self).epoch_store(), plan@.frames, laid_out),
            },
        ensures
            durable_sound(*final(self)),
            final(self).rules() == old(self).rules(),
            final(self).world() == old(self).world(),
            final(self).log() == old(self).log(),
            epoch is None ==> *final(self) == *old(self),
            match result {
                Ok(flying) => epoch_ready(*final(self), plan@, flying) && flying is Some
                    == epoch is Some,
                Err(_) => epoch is Some,
            },
            epoch is Some ==> epoch_submitted(
                old(self).epoch_store(),
                final(self).epoch_store(),
                plan@.frames,
                match result {
                    Ok(flying) => Ok(flying->Some_0),
                    Err(error) => Err(error),
                },
            ),
    {
        proof {
            self.log_is_history();
        }
        match epoch {
            None => Ok(None),
            Some(laid_out) => match self.submit_frames(plan.frames(), laid_out) {
                Ok(flying) => Ok(Some(flying)),
                Err(error) => Err(error),
            },
        }
    }

    /// Lays out the epoch of a plan and has the store begin to write it, if the plan changes
    /// anything.
    pub fn begin_batch(&mut self, plan: &EpochPlan) -> (result: Result<
        Option<FlyingEpoch>,
        FileEpochStoreError,
    >)
        requires
            durable_sound(*old(self)),
        ensures
            durable_sound(*final(self)),
            final(self).rules() == old(self).rules(),
            final(self).world() == old(self).world(),
            final(self).log() == old(self).log(),
            plan@.frames.len() == 0 ==> *final(self) == *old(self) && result is Ok,
            match result {
                Ok(flying) => epoch_ready(*final(self), plan@, flying) && (plan@.frames.len() > 0
                    ==> batch_begun(
                    old(self).epoch_store(),
                    final(self).epoch_store(),
                    plan@.frames,
                )),
                Err(error) => epoch_appended(
                    old(self).epoch_store(),
                    final(self).epoch_store(),
                    plan@.frames,
                    Err(error),
                ) && goes_underway(
                    old(self).epoch_store(),
                    final(self).epoch_store(),
                    plan@.frames,
                    Some(error),
                    false,
                ),
            },
    {
        let ghost before = self.epoch_store();
        let epoch = match self.prepare_batch(plan) {
            Ok(epoch) => epoch,
            Err(error) => return Err(error),
        };
        let ghost ready = self.epoch_store();
        match self.submit_batch(plan, epoch) {
            Ok(flying) => {
                proof {
                    reveal(batch_begun);
                    if plan@.frames.len() > 0 {
                        assert(epoch_prepared(before, ready, plan@.frames, Ok(epoch->Some_0)));
                        assert(epoch_submitted(
                            ready,
                            self.epoch_store(),
                            plan@.frames,
                            Ok(flying->Some_0),
                        ));
                    }
                }
                Ok(flying)
            },
            Err(error) => {
                proof {
                    preparing_changes_nothing(
                        before,
                        ready,
                        self.epoch_store(),
                        plan@.frames,
                        Err(error),
                    );
                }
                Err(error)
            },
        }
    }

    /// Stores the epoch of a prepared batch, makes it durable, and then publishes its world. The
    /// batch after it is planned before that, on the world that the epoch leads to; if the epoch
    /// cannot be stored, nothing is published, and the batch is planned again on the world that
    /// stays.
    pub fn settle_prepared(
        &mut self,
        prepared: PreparedBatch,
        epoch: Option<FlyingEpoch>,
        next: Option<UnplannedBatch>,
    ) -> (result: SettledBatch)
        requires
            durable_sound(*old(self)),
            prepared_on(old(self).rules(), old(self).world(), prepared),
            epoch_ready(*old(self), prepared.plan@, epoch),
            next matches Some(batch) ==> batch.tickets.len() == batch.intents.len(),
        ensures
            durable_sound(*final(self)),
            final(self).rules() == old(self).rules(),
            result.plan == prepared.plan,
            result.tickets@ == prepared.tickets@,
            match result.failure {
                None => final(self).world() == prepared.plan@.tail && final(self).log() == old(
                    self,
                ).log() + prepared.plan@.frames,
                Some(error) => prepared.plan@.frames.len() > 0 && final(self).world() == old(
                    self,
                ).world() && final(self).log() == old(self).log(),
            },
            prepared.plan@.frames.len() == 0 ==> *final(self) == *old(self) && result.failure
                is None,
            prepared.plan@.frames.len() > 0 ==> epoch_settled(
                old(self).epoch_store(),
                old(self).epoch_store()@,
                final(self).epoch_store(),
                prepared.plan@.frames,
                match result.failure {
                    None => Ok(()),
                    Some(error) => Err(error),
                },
            ),
            old(self).epoch_store().device().logs()
                ==> final(self).epoch_store().device().log().refused == old(
                self,
            ).epoch_store().device().log().refused,
            match next {
                None => result.successor is None && !result.rederived,
                Some(batch) => result.successor matches Some(successor) && successor_follows(
                    old(self).rules(),
                    old(self).world(),
                    prepared.plan@,
                    result.failure is None,
                    batch.tickets@,
                    views(batch.intents@),
                    successor,
                    result.rederived,
                ),
            },
            result.successor matches Some(Ok(batch)) ==> prepared_on(
                final(self).rules(),
                final(self).world(),
                batch,
            ),
            result.speculated == (next is Some && prepared.plan@.frames.len() > 0),
    {
        let PreparedBatch { tickets, intents, plan } = prepared;
        let ghost world = self.world();
        let ghost rules = self.rules();
        proof {
            self.epoch_store().wf_is_linked();
            reconstructed_facts(self.log());
            self.log_is_history();
            tail_is_sound(rules, world, views(intents@), plan@);
        }
        let epoch = match epoch {
            None => {
                proof {
                    assert(self.log() + plan@.frames =~= self.log());
                }
                let successor = match next {
                    None => None,
                    Some(batch) => Some(
                        derive_prepared_batch(batch, self.snapshot(), self.validators()),
                    ),
                };
                return SettledBatch {
                    plan,
                    tickets,
                    failure: None,
                    successor,
                    speculated: false,
                    rederived: false,
                };
            },
            Some(epoch) => epoch,
        };
        let speculated = next.is_some();
        let speculative = match next {
            None => None,
            Some(batch) => Some(derive_prepared_batch(batch, plan.tail(), self.validators())),
        };
        match self.finish_frames(plan.frames(), epoch) {
            Ok(()) => {
                self.publish_world(plan.tail());
                SettledBatch {
                    plan,
                    tickets,
                    failure: None,
                    successor: speculative,
                    speculated,
                    rederived: false,
                }
            },
            Err(error) => match speculative {
                None => SettledBatch {
                    plan,
                    tickets,
                    failure: Some(error),
                    successor: None,
                    speculated,
                    rederived: false,
                },
                Some(Err((batch, message))) => SettledBatch {
                    plan,
                    tickets,
                    failure: Some(error),
                    successor: Some(Err((batch, message))),
                    speculated,
                    rederived: false,
                },
                Some(Ok(batch)) => {
                    let ghost ahead = batch.plan@;
                    let source = UnplannedBatch { tickets: batch.tickets, intents: batch.intents };
                    proof {
                        assert(derivation_leads_to(
                            rules,
                            plan@.tail,
                            views(source.intents@),
                            Ok(ahead),
                        ));
                    }
                    let again = derive_prepared_batch(
                        source,
                        self.snapshot(),
                        self.validators(),
                    );
                    SettledBatch {
                        plan,
                        tickets,
                        failure: Some(error),
                        successor: Some(again),
                        speculated,
                        rederived: true,
                    }
                },
            },
        }
    }
}

} // verus!
