//! A database: the current world, the store of its history, and the rules for a successor.

use crate::epoch_io::{EpochFileIo, FileEpochMetrics, FileEpochState};
use crate::epoch_store::{
    EpochStoreModel, FileEpochStore, FileEpochStoreError, FlyingEpoch, PreparedEpoch,
    epoch_appended, epoch_prepared, epoch_settled, epoch_submitted, flying_for, prepared_for,
};
use crate::errors::{CandidateError, CandidateErrorModel};
use crate::fact::{views, views_push};
use crate::frame::{CommitFrame, FrameModel, WorldId, share, share_all};
use crate::plan_laws::{CommitState, commit_leads_to};
use crate::world::{
    CandidateModel, CandidateWorld, Transaction, TransactionModel, World, WorldModel, applies,
    candidate_of, has_room, published, publishing_is_replaying, reconstructed, total_operations,
};
use std::convert::Infallible;
use std::sync::Arc;
use vstd::prelude::*;

verus! {

/// Where commit frames are kept.
pub trait CommitStore: Sized {
    type Error;

    /// The frames in the store, oldest first.
    open spec fn stored(&self) -> Seq<FrameModel> {
        Seq::empty()
    }

    /// Whether appending a frame may fail.
    open spec fn may_fail(&self, frame: FrameModel) -> bool {
        true
    }

    /// Whether a restart finds exactly the stored frames.
    open spec fn recoverable(&self) -> bool {
        false
    }

    /// Whether everything stored has been made durable, as far as the store can.
    open spec fn flushed(&self) -> bool {
        true
    }

    /// Adds a frame at the end, or fails and keeps what is there.
    fn append(&mut self, frame: Arc<CommitFrame>) -> (result: Result<(), Self::Error>)
        ensures
            result is Ok ==> final(self).flushed(),
            result is Ok && old(self).recoverable() ==> final(self).recoverable(),
            result is Ok ==> final(self).stored() == old(self).stored().push(frame@),
            result is Err ==> final(self).stored() == old(self).stored() && old(self).may_fail(
                frame@,
            ),
    ;

    fn frames(&self) -> (result: Vec<Arc<CommitFrame>>)
        ensures
            views(result@) == self.stored(),
    ;

    fn len(&self) -> (result: usize)
        ensures
            result == self.stored().len(),
    {
        let frames = self.frames();
        proof {
            assert(views(frames@).len() == frames.len());
        }
        frames.len()
    }

    fn is_empty(&self) -> (result: bool)
        ensures
            result == (self.stored().len() == 0),
    {
        self.len() == 0
    }
}

/// Keeps frames in memory.
pub struct MemoryCommitStore {
    frames: Vec<Arc<CommitFrame>>,
}

impl MemoryCommitStore {
    pub fn new() -> (result: Self)
        ensures
            result.stored() == Seq::<FrameModel>::empty(),
    {
        let result = MemoryCommitStore { frames: Vec::new() };
        proof {
            assert(result.stored() =~= Seq::empty());
        }
        result
    }

    pub fn as_slice(&self) -> (result: &[Arc<CommitFrame>])
        ensures
            views(result@) == self.stored(),
    {
        self.frames.as_slice()
    }
}

impl CommitStore for MemoryCommitStore {
    type Error = Infallible;

    closed spec fn stored(&self) -> Seq<FrameModel> {
        views(self.frames@)
    }

    open spec fn may_fail(&self, frame: FrameModel) -> bool {
        false
    }

    fn append(&mut self, frame: Arc<CommitFrame>) -> (result: Result<(), Infallible>) {
        proof {
            views_push(self.frames@, frame);
        }
        self.frames.push(frame);
        Ok(())
    }

    fn frames(&self) -> (result: Vec<Arc<CommitFrame>>) {
        share_all(self.frames.as_slice())
    }

    fn len(&self) -> (result: usize) {
        self.frames.len()
    }
}

/// A verdict, with its message as characters.
pub open spec fn verdict_model(verdict: Result<(), String>) -> Result<(), Seq<char>> {
    match verdict {
        Ok(()) => Ok(()),
        Err(message) => Err(message@),
    }
}

/// An application's rule for candidate worlds.
pub trait Validator: Send + Sync {
    /// The verdicts that this rule may give on a candidate.
    open spec fn may_answer(&self, candidate: CandidateModel, verdict: Result<(), Seq<char>>) -> bool {
        true
    }

    fn validate(&self, candidate: &CandidateWorld) -> (result: Result<(), String>)
        ensures
            self.may_answer(candidate@, verdict_model(result)),
    ;
}

/// A registered validator.
pub struct Rule(pub Arc<dyn Validator>);

/// Why a transaction was not committed.
#[derive(Debug)]
pub enum CommitError<E> {
    StaleTransaction { based_on: WorldId, current: WorldId },
    Candidate(CandidateError),
    Validation(String),
    Store(E),
}

/// The first `count` validators may all have accepted a candidate.
pub open spec fn may_accept(
    validators: Seq<Rule>,
    count: int,
    candidate: CandidateModel,
) -> bool {
    forall|i: int|
        0 <= i < count ==> (#[trigger] validators[i]).0.may_answer(
            candidate,
            Ok::<(), Seq<char>>(()),
        )
}

/// Some validator may have refused a candidate with `message` after those before it accepted.
pub open spec fn may_refuse(
    validators: Seq<Rule>,
    candidate: CandidateModel,
    message: Seq<char>,
) -> bool {
    exists|i: int|
        0 <= i < validators.len() && may_accept(validators, i, candidate) && (
        #[trigger] validators[i]).0.may_answer(candidate, Err::<(), Seq<char>>(message))
}

/// A verdict that the validators may have come to together.
pub open spec fn may_judge(
    validators: Seq<Rule>,
    candidate: CandidateModel,
    verdict: Result<(), Seq<char>>,
) -> bool {
    match verdict {
        Ok(()) => may_accept(validators, validators.len() as int, candidate),
        Err(message) => may_refuse(validators, candidate, message),
    }
}

/// Asks the validators in order, up to the first refusal.
pub fn judge(validators: &[Rule], candidate: &CandidateWorld) -> (result: Result<(), String>)
    ensures
        may_judge(validators@, candidate@, verdict_model(result)),
{
    let mut index: usize = 0;
    while index < validators.len()
        invariant
            index <= validators.len(),
            may_accept(validators@, index as int, candidate@),
        decreases validators.len() - index,
    {
        let validator = &validators[index];
        match validator.0.validate(candidate) {
            Ok(()) => {},
            Err(message) => {
                return Err(message);
            },
        }
        index += 1;
    }
    Ok(())
}

/// The current world, its store and its validators.
pub struct Database<S: CommitStore> {
    current: Arc<World>,
    store: S,
    validators: Vec<Rule>,
}

impl Database<MemoryCommitStore> {
    /// A store in memory takes every frame.
    pub proof fn memory_never_fails(&self, frame: FrameModel)
        ensures
            !self.store_may_fail(frame),
    {
    }

    /// Appends the frames of a plan and publishes its tail.
    pub(crate) fn adopt(&mut self, frames: &[Arc<CommitFrame>], tail: Arc<World>)
        ensures
            final(self).world() == tail@,
            final(self).log() == old(self).log() + views(frames@),
            final(self).rules() == old(self).rules(),
    {
        let ghost models = views(frames@);
        let mut index: usize = 0;
        proof {
            assert(self.log() + models.take(0) =~= self.log());
        }
        while index < frames.len()
            invariant
                index <= frames.len(),
                models == views(frames@),
                self.log() == old(self).log() + models.take(index as int),
                self.rules() == old(self).rules(),
            decreases frames.len() - index,
        {
            let _appended = self.store.append(share(&frames[index]));
            proof {
                assert(models.take(index + 1) =~= models.take(index as int).push(
                    frames@[index as int]@,
                ));
                assert(self.log() =~= old(self).log() + models.take(index + 1));
            }
            index += 1;
        }
        proof {
            assert(models.take(index as int) =~= models);
        }
        self.current = tail;
    }
}

impl<I: EpochFileIo> Database<FileEpochStore<I>> {
    /// The store behind the database.
    pub open spec fn epoch_store(&self) -> FileEpochStore<I> {
        self.backing()
    }

    /// The log is the history of the store.
    pub proof fn log_is_history(&self)
        ensures
            self.log() == self.epoch_store()@.history,
    {
        self.store.stored_is_history();
    }

    pub fn store_state(&self) -> (result: FileEpochState)
        ensures
            result == self.epoch_store()@.state,
    {
        self.store.state()
    }

    pub fn store_metrics(&self) -> (result: FileEpochMetrics)
        ensures
            result == self.epoch_store()@.metrics,
    {
        self.store.metrics()
    }

    /// Appends an epoch to the store; publishes nothing.
    pub(crate) fn append_frames(&mut self, frames: &[Arc<CommitFrame>]) -> (result: Result<
        (),
        FileEpochStoreError,
    >)
        ensures
            epoch_appended(
                old(self).epoch_store(),
                final(self).epoch_store(),
                views(frames@),
                result,
            ),
            final(self).rules() == old(self).rules(),
            final(self).world() == old(self).world(),
            final(self).log() == final(self).epoch_store()@.history,
    {
        let appended = self.store.append_epoch(frames);
        proof {
            self.log_is_history();
        }
        appended
    }

    /// Lays out an epoch for the store; nothing is written.
    pub(crate) fn prepare_frames(&mut self, frames: &[Arc<CommitFrame>]) -> (result: Result<
        PreparedEpoch,
        FileEpochStoreError,
    >)
        requires
            frames.len() > 0,
        ensures
            epoch_prepared(
                old(self).epoch_store(),
                final(self).epoch_store(),
                views(frames@),
                result,
            ),
            final(self).rules() == old(self).rules(),
            final(self).world() == old(self).world(),
            final(self).log() == final(self).epoch_store()@.history,
    {
        let prepared = self.store.prepare_epoch(frames);
        proof {
            self.log_is_history();
        }
        prepared
    }

    /// Has the store begin to write a prepared epoch; publishes nothing.
    pub(crate) fn submit_frames(&mut self, frames: &[Arc<CommitFrame>], epoch: PreparedEpoch) -> (
        result: Result<FlyingEpoch, FileEpochStoreError>)
        requires
            prepared_for(old(self).epoch_store(), views(frames@), epoch),
        ensures
            epoch_submitted(
                old(self).epoch_store(),
                final(self).epoch_store(),
                views(frames@),
                result,
            ),
            final(self).rules() == old(self).rules(),
            final(self).world() == old(self).world(),
            final(self).log() == final(self).epoch_store()@.history,
    {
        let submitted = self.store.submit_epoch(frames, epoch);
        proof {
            self.log_is_history();
        }
        submitted
    }

    /// Has an epoch written to the store; publishes nothing.
    pub(crate) fn finish_frames(&mut self, frames: &[Arc<CommitFrame>], flying: FlyingEpoch) -> (
        result: Result<(), FileEpochStoreError>)
        requires
            flying_for(old(self).epoch_store(), views(frames@), flying),
        ensures
            epoch_settled(
                old(self).epoch_store(),
                old(self).epoch_store()@,
                final(self).epoch_store(),
                views(frames@),
                result,
            ),
            old(self).epoch_store().device().logs()
                ==> final(self).epoch_store().device().log().refused == old(
                self,
            ).epoch_store().device().log().refused,
            final(self).rules() == old(self).rules(),
            final(self).world() == old(self).world(),
            final(self).log() == final(self).epoch_store()@.history,
    {
        let stored = self.store.finish_epoch(frames, flying);
        proof {
            self.log_is_history();
        }
        stored
    }

    /// Publishes a world.
    pub(crate) fn publish_world(&mut self, tail: Arc<World>)
        ensures
            final(self).world() == tail@,
            final(self).log() == old(self).log(),
            final(self).rules() == old(self).rules(),
            final(self).epoch_store() == old(self).epoch_store(),
    {
        self.current = tail;
    }

    /// Lets the store refuse everything from now on.
    pub(crate) fn poison_store(&mut self, reason: &str)
        ensures
            final(self).epoch_store()@ == (EpochStoreModel {
                state: FileEpochState::Poisoned,
                poison_reason: Some(reason@),
                ..old(self).epoch_store()@
            }),
            final(self).world() == old(self).world(),
            final(self).log() == old(self).log(),
            final(self).rules() == old(self).rules(),
            old(self).epoch_store().wf() ==> final(self).epoch_store().wf(),
    {
        proof {
            self.log_is_history();
        }
        self.store.poison_external(reason.to_owned());
        proof {
            self.log_is_history();
        }
    }
}

impl<S: CommitStore> Database<S> {
    pub fn validators(&self) -> (result: &[Rule])
        ensures
            result@ == self.rules(),
    {
        self.validators.as_slice()
    }

    /// The published world.
    pub closed spec fn world(&self) -> WorldModel {
        self.current@
    }

    /// The frames in the store.
    pub closed spec fn log(&self) -> Seq<FrameModel> {
        self.store.stored()
    }

    /// The store behind the database.
    pub closed spec fn backing(&self) -> S {
        self.store
    }

    /// The log is what the store holds.
    pub proof fn log_is_stored(&self)
        ensures
            self.log() == self.backing().stored(),
    {
    }

    /// Whether the store may fail to take a frame.
    pub closed spec fn store_may_fail(&self, frame: FrameModel) -> bool {
        self.store.may_fail(frame)
    }

    pub closed spec fn rules(&self) -> Seq<Rule> {
        self.validators@
    }

    /// The published world is the one that the stored history rebuilds.
    pub open spec fn sound(&self) -> bool {
        reconstructed(self.log()) == Ok::<WorldModel, CandidateErrorModel>(self.world())
    }

    /// Opens a database on the history in a store.
    pub fn new(store: S) -> (result: Result<Self, CandidateError>)
        requires
            total_operations(store.stored()) < usize::MAX,
        ensures
            match (result, reconstructed(store.stored())) {
                (Ok(database), Ok(world)) => database.sound() && database.world() == world
                    && database.log() == store.stored() && database.rules() == Seq::<Rule>::empty()
                    && database.backing() == store,
                (Err(error), Err(model)) => error@ == model,
                _ => false,
            },
    {
        let frames = store.frames();
        let world = World::reconstruct(frames.as_slice())?;
        let validators: Vec<Rule> = Vec::new();
        Ok(Database { current: Arc::new(world), store, validators })
    }

    /// The current world; it stays as it is whatever is committed later.
    pub fn snapshot(&self) -> (result: Arc<World>)
        ensures
            result@ == self.world(),
    {
        share(&self.current)
    }

    /// Starts a transaction on the current world.
    pub fn begin(&self) -> (result: Transaction)
        ensures
            result@ == (TransactionModel {
                base: self.world(),
                next_entity: self.world().kernel.next_entity as u64,
                operations: Seq::empty(),
            }),
            applies(result@),
    {
        Transaction::new(self.snapshot())
    }

    /// Adds a rule that every later candidate must pass.
    pub fn register_validator(&mut self, validator: Rule)
        ensures
            final(self).world() == old(self).world(),
            final(self).log() == old(self).log(),
            final(self).rules() == old(self).rules().push(validator),
            final(self).backing() == old(self).backing(),
    {
        self.validators.push(validator);
    }

    pub fn frame_count(&self) -> (result: usize)
        ensures
            result == self.log().len(),
    {
        self.store.len()
    }

    pub fn frames(&self) -> (result: Vec<Arc<CommitFrame>>)
        ensures
            views(result@) == self.log(),
    {
        self.store.frames()
    }

    /// Publishes a candidate for which a verdict has been given: a refusal changes nothing, and
    /// an accepted candidate is published exactly when the store takes its frame.
    pub fn publish(&mut self, candidate: CandidateWorld, verdict: Result<(), String>) -> (result:
        Result<Arc<World>, CommitError<S::Error>>)
        requires
            candidate@.base_operation_count + candidate@.frame.operations.len() <= usize::MAX,
        ensures
            final(self).rules() == old(self).rules(),
            match verdict {
                Err(message) => result matches Err(CommitError::Validation(reason)) && reason
                    == message,
                Ok(()) => result is Ok || (result matches Err(CommitError::Store(_)) && old(
                    self,
                ).store_may_fail(candidate@.frame)),
            },
            match result {
                Ok(world) => world@ == published(candidate@, old(self).world().history)
                    && final(self).world() == world@ && final(self).log() == old(self).log().push(
                    candidate@.frame,
                ),
                Err(_) => final(self).world() == old(self).world() && final(self).log() == old(
                    self,
                ).log(),
            },
            old(self).backing().recoverable() && !(result matches Err(CommitError::Store(_)))
                ==> final(self).backing().recoverable(),
            result is Ok ==> final(self).backing().flushed(),
            result is Err && !(result matches Err(CommitError::Store(_))) ==> final(self).backing() == old(self).backing(),
    {
        match verdict {
            Ok(()) => {},
            Err(message) => {
                return Err(CommitError::Validation(message));
            },
        }
        let frame = candidate.commit_frame();
        match self.store.append(frame) {
            Ok(()) => {},
            Err(error) => {
                return Err(CommitError::Store(error));
            },
        }
        let world = Arc::new(candidate.into_world(&self.current));
        self.current = share(&world);
        Ok(world)
    }

    /// Commits a transaction: it must be based on the current world, its operations must apply,
    /// every validator must accept the candidate, and the store must take its frame.
    pub fn commit(&mut self, transaction: Transaction) -> (result: Result<
        Arc<World>,
        CommitError<S::Error>,
    >)
        requires
            transaction@.base.id == old(self).world().id ==> has_room(
                transaction@.base,
                transaction@.operations.len(),
            ),
        ensures
            final(self).rules() == old(self).rules(),
            transaction@.base.id != old(self).world().id <==> result matches Err(
                CommitError::StaleTransaction { .. },
            ),
            result matches Err(CommitError::StaleTransaction { based_on, current }) ==> based_on
                == transaction@.base.id && current == old(self).world().id,
            transaction@.base.id == old(self).world().id ==> match candidate_of(
                transaction@.base,
                transaction@.operations,
            ) {
                Err(error) => result matches Err(CommitError::Candidate(found)) && found@ == error,
                Ok(candidate) => match result {
                    Ok(world) => may_accept(
                        old(self).rules(),
                        old(self).rules().len() as int,
                        candidate,
                    ) && world@ == published(candidate, old(self).world().history)
                        && final(self).world() == world@ && final(self).log() == old(
                        self,
                    ).log().push(candidate.frame),
                    Err(CommitError::Validation(message)) => may_refuse(
                        old(self).rules(),
                        candidate,
                        message@,
                    ),
                    Err(CommitError::Store(_)) => may_accept(
                        old(self).rules(),
                        old(self).rules().len() as int,
                        candidate,
                    ) && old(self).store_may_fail(candidate.frame),
                    _ => false,
                },
            },
            result is Err ==> final(self).world() == old(self).world() && final(self).log() == old(
                self,
            ).log(),
            old(self).sound() && transaction@.base == old(self).world() ==> final(self).sound(),
            transaction@.base == old(self).world() && result is Ok ==> commit_leads_to(
                CommitState { world: old(self).world(), log: old(self).log() },
                transaction@.operations,
                CommitState { world: final(self).world(), log: final(self).log() },
            ),
            old(self).backing().recoverable() && !(result matches Err(CommitError::Store(_)))
                ==> final(self).backing().recoverable(),
            result is Ok ==> final(self).backing().flushed(),
            result is Err && !(result matches Err(CommitError::Store(_))) ==> final(self).backing() == old(self).backing(),
    {
        if transaction.base_world().0 != self.current.id().0 {
            return Err(
                CommitError::StaleTransaction {
                    based_on: transaction.base_world(),
                    current: self.current.id(),
                },
            );
        }
        let candidate = match transaction.candidate() {
            Ok(candidate) => candidate,
            Err(error) => {
                return Err(CommitError::Candidate(error));
            },
        };
        let verdict = judge(self.validators.as_slice(), &candidate);
        proof {
            publishing_is_replaying(transaction@.base, transaction@.operations);
            let log = self.log().push(candidate@.frame);
            assert(log.drop_last() =~= self.log());
        }
        self.publish(candidate, verdict)
    }
}

} // verus!
