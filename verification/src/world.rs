//! Committed worlds, the candidates for their successors, and the transactions that stage them.

use crate::digest::FNV_OFFSET;
use crate::errors::{CandidateError, CandidateErrorModel};
use crate::fact::{
    Atom, AtomModel, EntityId, Fact, FactModel, Literal, Operation, OperationModel, Predicate,
    SlotId, Symbol, clone_operations, views, views_push,
};
use crate::frame::{
    CommitFrame, FrameModel, WorldId, calculate_world_id, share, share_all, successor_id,
};
use crate::kernel::{
    DefinitionModel, Kernel, KernelModel, active, active_fact, empty_kernel, numbered, replayed,
    replayed_keeps_order, slot_facts,
};
use crate::log_format::tail_of;
use crate::text::{decimal, joined, labelled};
use std::sync::Arc;
use vstd::prelude::*;
use vstd::string::*;

verus! {

/// Mathematical value of a [`World`].
pub struct WorldModel {
    pub id: WorldId,
    pub version: u64,
    pub operation_count: nat,
    pub kernel: KernelModel,
    pub history: Seq<FrameModel>,
}

/// The world before every commit.
pub open spec fn genesis_world() -> WorldModel {
    WorldModel {
        id: WorldId(FNV_OFFSET),
        version: 0,
        operation_count: 0,
        kernel: empty_kernel(),
        history: Seq::empty(),
    }
}

/// The world that a frame leads to, once its operations have been applied.
pub open spec fn advanced(world: WorldModel, frame: FrameModel, kernel: KernelModel) -> WorldModel {
    WorldModel {
        id: frame.resulting_world,
        version: frame.resulting_version,
        operation_count: world.operation_count + frame.operations.len(),
        kernel,
        history: world.history.push(frame),
    }
}

/// Replays one stored frame on a world, with every claim of the frame checked.
pub open spec fn stepped(world: WorldModel, frame: FrameModel) -> Result<
    WorldModel,
    CandidateErrorModel,
> {
    if frame.parent_world != world.id {
        Err(
            CandidateErrorModel::HistoryParentMismatch {
                expected: world.id,
                actual: frame.parent_world,
            },
        )
    } else if frame.parent_version != world.version {
        Err(
            CandidateErrorModel::HistoryVersionMismatch {
                expected: world.version,
                actual: frame.parent_version,
            },
        )
    } else {
        match replayed(world.kernel, frame.operations) {
            Err(error) => Err(error),
            Ok(kernel) => if kernel.next_entity != frame.resulting_allocator {
                Err(
                    CandidateErrorModel::AllocatorStateMismatch {
                        expected: frame.resulting_allocator,
                        actual: kernel.next_entity as u64,
                    },
                )
            } else {
                let id = successor_id(
                    frame.parent_world,
                    frame.resulting_version,
                    frame.resulting_allocator,
                    frame.operations,
                );
                if id != frame.resulting_world {
                    Err(
                        CandidateErrorModel::WorldIdentityMismatch {
                            expected: id,
                            actual: frame.resulting_world,
                        },
                    )
                } else {
                    Ok(advanced(world, frame, kernel))
                }
            },
        }
    }
}

/// Replays a stored history from the beginning.
pub open spec fn reconstructed(frames: Seq<FrameModel>) -> Result<WorldModel, CandidateErrorModel>
    decreases frames.len(),
{
    if frames.len() == 0 {
        Ok(genesis_world())
    } else {
        match reconstructed(frames.drop_last()) {
            Err(error) => Err(error),
            Ok(world) => stepped(world, frames.last()),
        }
    }
}

/// How many operations a history holds.
pub open spec fn total_operations(frames: Seq<FrameModel>) -> nat
    decreases frames.len(),
{
    if frames.len() == 0 {
        0
    } else {
        total_operations(frames.drop_last()) + frames.last().operations.len()
    }
}

/// What a reconstructed world has in common with its history.
pub proof fn reconstructed_facts(frames: Seq<FrameModel>)
    ensures
        reconstructed(frames) matches Ok(world) ==> world.history == frames
            && world.operation_count == total_operations(frames) && numbered(world.kernel)
            && world.kernel.records <= world.operation_count && 1 <= world.kernel.next_entity
            <= world.operation_count + 1 && (world.id, world.version) == tail_of(frames),
    decreases frames.len(),
{
    if frames.len() == 0 {
        assert(frames =~= Seq::empty());
    } else {
        reconstructed_facts(frames.drop_last());
        if let Ok(world) = reconstructed(frames.drop_last()) {
            replayed_keeps_order(world.kernel, frames.last().operations);
            assert(frames.drop_last().push(frames.last()) =~= frames);
        }
    }
}

/// A history that is refused stays refused, whatever is appended to it.
pub proof fn broken_history_stays_broken(frames: Seq<FrameModel>, count: int)
    requires
        0 <= count <= frames.len(),
        reconstructed(frames.take(count)) is Err,
    ensures
        reconstructed(frames) == reconstructed(frames.take(count)),
    decreases frames.len(),
{
    if count == frames.len() {
        assert(frames.take(count) =~= frames);
    } else {
        assert(frames.drop_last().take(count) =~= frames.take(count));
        broken_history_stays_broken(frames.drop_last(), count);
    }
}

/// A prefix of a sound history is a sound history: the world of every earlier commit can be
/// rebuilt.
pub proof fn prefix_reconstructs(frames: Seq<FrameModel>, count: int)
    requires
        0 <= count <= frames.len(),
        reconstructed(frames) is Ok,
    ensures
        reconstructed(frames.take(count)) is Ok,
{
    if reconstructed(frames.take(count)) is Err {
        broken_history_stays_broken(frames, count);
    }
}

pub proof fn total_operations_monotone(frames: Seq<FrameModel>, count: int)
    requires
        0 <= count <= frames.len(),
    ensures
        total_operations(frames.take(count)) <= total_operations(frames),
    decreases frames.len(),
{
    if count == frames.len() {
        assert(frames.take(count) =~= frames);
    } else {
        assert(frames.drop_last().take(count) =~= frames.take(count));
        total_operations_monotone(frames.drop_last(), count);
    }
}

/// A committed, immutable world.
pub struct World {
    id: WorldId,
    version: u64,
    operation_count: usize,
    kernel: Kernel,
    history: Vec<Arc<CommitFrame>>,
}

impl View for World {
    type V = WorldModel;

    closed spec fn view(&self) -> WorldModel {
        WorldModel {
            id: self.id,
            version: self.version,
            operation_count: self.operation_count as nat,
            kernel: self.kernel@,
            history: views(self.history@),
        }
    }
}

impl World {
    /// The world before every commit.
    pub fn genesis() -> (result: Self)
        ensures
            result@ == genesis_world(),
    {
        let result = World {
            id: WorldId::genesis(),
            version: 0,
            operation_count: 0,
            kernel: Kernel::new(),
            history: Vec::new(),
        };
        proof {
            assert(result@.history =~= Seq::empty());
        }
        result
    }

    /// Rebuilds the world of a stored history, or says what is wrong with it.
    pub fn reconstruct(frames: &[Arc<CommitFrame>]) -> (result: Result<Self, CandidateError>)
        requires
            total_operations(views(frames@)) < usize::MAX,
        ensures
            match (result, reconstructed(views(frames@))) {
                (Ok(world), Ok(model)) => world@ == model,
                (Err(error), Err(model)) => error@ == model,
                _ => false,
            },
    {
        let ghost models = views(frames@);
        let mut world = World::genesis();
        let mut index: usize = 0;
        proof {
            assert(models.take(0) =~= Seq::empty());
        }
        while index < frames.len()
            invariant
                index <= frames.len(),
                models == views(frames@),
                total_operations(models) < usize::MAX,
                reconstructed(models.take(index as int)) == Ok::<WorldModel, CandidateErrorModel>(
                    world@,
                ),
            decreases frames.len() - index,
        {
            let frame = &frames[index];
            proof {
                assert(models.take(index + 1).drop_last() =~= models.take(index as int));
                assert(models.take(index + 1).last() == frame@);
                reconstructed_facts(models.take(index as int));
                total_operations_monotone(models, index + 1);
            }
            match world.step(frame) {
                Ok(()) => {},
                Err(error) => {
                    proof {
                        broken_history_stays_broken(models, index + 1);
                    }
                    return Err(error);
                },
            }
            index += 1;
        }
        proof {
            assert(models.take(index as int) =~= models);
        }
        Ok(world)
    }

    pub(crate) fn assemble(
        id: WorldId,
        version: u64,
        operation_count: usize,
        kernel: Kernel,
        history: Vec<Arc<CommitFrame>>,
    ) -> (result: Self)
        ensures
            result@ == (WorldModel {
                id,
                version,
                operation_count: operation_count as nat,
                kernel: kernel@,
                history: views(history@),
            }),
    {
        World { id, version, operation_count, kernel, history }
    }

    fn step(&mut self, frame: &Arc<CommitFrame>) -> (result: Result<(), CandidateError>)
        requires
            old(self)@.kernel.records <= old(self)@.operation_count,
            old(self)@.kernel.next_entity <= old(self)@.operation_count + 1,
            old(self)@.operation_count + frame@.operations.len() < usize::MAX,
        ensures
            match (result, stepped(old(self)@, frame@)) {
                (Ok(()), Ok(next)) => final(self)@ == next,
                (Err(error), Err(model)) => error@ == model,
                _ => false,
            },
    {
        if frame.parent_world().0 != self.id.0 {
            return Err(
                CandidateError::HistoryParentMismatch {
                    expected: self.id,
                    actual: frame.parent_world(),
                },
            );
        }
        if frame.parent_version() != self.version {
            return Err(
                CandidateError::HistoryVersionMismatch {
                    expected: self.version,
                    actual: frame.parent_version(),
                },
            );
        }
        let operations = frame.operations();
        proof {
            assert(operations.len() == frame@.operations.len());
            replayed_keeps_order(self.kernel@, frame@.operations);
        }
        self.kernel.replay(operations)?;
        if self.kernel.next_entity() != frame.resulting_allocator() {
            return Err(
                CandidateError::AllocatorStateMismatch {
                    expected: frame.resulting_allocator(),
                    actual: self.kernel.next_entity(),
                },
            );
        }
        let id = calculate_world_id(
            frame.parent_world(),
            frame.resulting_version(),
            frame.resulting_allocator(),
            operations,
        );
        if id.0 != frame.resulting_world().0 {
            return Err(
                CandidateError::WorldIdentityMismatch {
                    expected: id,
                    actual: frame.resulting_world(),
                },
            );
        }
        self.id = frame.resulting_world();
        self.version = frame.resulting_version();
        self.operation_count = self.operation_count + operations.len();
        let shared = share(frame);
        proof {
            views_push(self.history@, shared);
        }
        self.history.push(shared);
        Ok(())
    }

    /// Publishes one frame of `operations`, whose effect on `base` is already in `kernel`.
    pub(crate) fn epoch_successor(base: &World, operations: Vec<Operation>, kernel: Kernel) -> (
        result: (World, Arc<CommitFrame>))
        requires
            base@.version < u64::MAX,
            base@.operation_count + operations.len() <= usize::MAX,
        ensures
            result.0@ == epoch_world_of(base@, views(operations@), kernel@),
            result.1@ == commit_frame_of(
                base@.id,
                base@.version,
                views(operations@),
                kernel@.next_entity,
            ),
    {
        let count: usize = base.operation_count + operations.len();
        let frame = Arc::new(successor_frame(base.id, base.version, &kernel, operations));
        let mut history = share_all(base.history.as_slice());
        proof {
            views_push(history@, frame);
        }
        history.push(share(&frame));
        let world = World {
            id: frame.resulting_world(),
            version: frame.resulting_version(),
            operation_count: count,
            kernel,
            history,
        };
        (world, frame)
    }

    pub fn id(&self) -> (result: WorldId)
        ensures
            result == self@.id,
    {
        self.id
    }

    pub fn version(&self) -> (result: u64)
        ensures
            result == self@.version,
    {
        self.version
    }

    pub fn next_entity(&self) -> (result: u64)
        ensures
            result == self@.kernel.next_entity,
    {
        self.kernel.next_entity()
    }

    pub fn operation_count(&self) -> (result: usize)
        ensures
            result == self@.operation_count,
    {
        self.operation_count
    }

    pub fn active_slot_count(&self) -> (result: usize)
        ensures
            result == active(self@.kernel.live).len(),
    {
        self.kernel.active_slot_count()
    }

    pub fn record_count(&self) -> (result: usize)
        ensures
            result == self@.kernel.records,
    {
        self.kernel.record_count()
    }

    /// The active fact of a slot.
    pub fn resolve(&self, slot: &SlotId) -> (result: Option<&Fact>)
        ensures
            match result {
                Some(fact) => active_fact(self@.kernel.live, slot@) == Some(fact@),
                None => active_fact(self@.kernel.live, slot@) is None,
            },
    {
        self.kernel.resolve(slot)
    }

    /// The facts that define a slot, newest first.
    pub fn definitions(&self, slot: &SlotId) -> (result: Vec<&Fact>)
        ensures
            views(result@) == slot_facts(self@.kernel.live, slot@),
    {
        self.kernel.definitions(slot)
    }

    /// The frames that lead to this world, oldest first.
    pub fn frames(&self) -> (result: Vec<Arc<CommitFrame>>)
        ensures
            views(result@) == self@.history,
    {
        share_all(self.history.as_slice())
    }

    /// The definitions of this world.
    pub fn kernel(&self) -> (result: &Kernel)
        ensures
            result@ == self@.kernel,
    {
        &self.kernel
    }

    /// The name under which an entity is shown: its display name, or its identity in digits.
    pub fn display_name(&self, entity: EntityId) -> (result: String)
        ensures
            result@ == shown_name(self@.kernel.live, entity.0),
    {
        let slot = display_slot(entity);
        match self.kernel.resolve(&slot) {
            Some(fact) => match &fact.object {
                Atom::Literal(literal) => literal.as_str().to_owned(),
                Atom::Entity(_) => entity_name(entity),
            },
            None => entity_name(entity),
        }
    }
}

/// How an entity reads where it has no display name.
pub open spec fn entity_text(entity: u64) -> Seq<char> {
    "Entity_"@ + decimal(entity as nat)
}

pub open spec fn shown_name(live: Seq<DefinitionModel>, entity: u64) -> Seq<char> {
    match active_fact(live, display_slot_text(entity)) {
        Some(fact) => match fact.object {
            AtomModel::Literal(name) => name,
            AtomModel::Entity(_) => entity_text(entity),
        },
        None => entity_text(entity),
    }
}

pub fn entity_name(entity: EntityId) -> (result: String)
    ensures
        result@ == entity_text(entity.0),
{
    labelled("Entity_", entity.0)
}

/// Name of the slot that holds an entity's display name.
pub open spec fn display_slot_text(entity: u64) -> Seq<char> {
    "display:"@ + entity_text(entity)
}

/// Name of the slot that binds a symbol in a namespace.
pub open spec fn symbol_slot_text(namespace: Seq<char>, symbol: Seq<char>) -> Seq<char> {
    "symbol:"@ + namespace + ":"@ + symbol
}

/// The slot that holds an entity's display name.
pub fn display_slot(entity: EntityId) -> (result: SlotId)
    ensures
        result@ == display_slot_text(entity.0),
{
    SlotId::from_text(joined("display:", entity_name(entity).as_str()))
}

/// The slot that binds a symbol in a namespace.
pub fn symbol_slot(namespace: &str, symbol: &Symbol) -> (result: SlotId)
    ensures
        result@ == symbol_slot_text(namespace@, symbol@),
{
    let mut out = joined("symbol:", namespace);
    out.append(":");
    out.append(symbol.as_str());
    SlotId::from_text(out)
}

/// Mathematical value of a [`CandidateWorld`].
pub struct CandidateModel {
    pub frame: FrameModel,
    pub kernel: KernelModel,
    pub base_operation_count: nat,
}

/// The frame that commits `operations` on a world.
pub open spec fn commit_frame_of(
    id: WorldId,
    version: u64,
    operations: Seq<OperationModel>,
    next_entity: nat,
) -> FrameModel {
    FrameModel {
        parent_world: id,
        resulting_world: successor_id(
            id,
            (version + 1) as u64,
            next_entity as u64,
            operations,
        ),
        parent_version: version,
        resulting_version: (version + 1) as u64,
        resulting_allocator: next_entity as u64,
        operations,
    }
}

/// The candidate that `operations` make of a state, or the refusal of one of them.
pub open spec fn candidate_from(
    id: WorldId,
    version: u64,
    operation_count: nat,
    base: KernelModel,
    operations: Seq<OperationModel>,
) -> Result<CandidateModel, CandidateErrorModel> {
    match replayed(base, operations) {
        Err(error) => Err(error),
        Ok(kernel) => Ok(
            CandidateModel {
                frame: commit_frame_of(id, version, operations, kernel.next_entity),
                kernel,
                base_operation_count: operation_count,
            },
        ),
    }
}

/// The candidate that `operations` make of a world, or the refusal of one of them.
pub open spec fn candidate_of(world: WorldModel, operations: Seq<OperationModel>) -> Result<
    CandidateModel,
    CandidateErrorModel,
> {
    candidate_from(world.id, world.version, world.operation_count, world.kernel, operations)
}

/// The world that a candidate becomes behind `history`.
pub open spec fn published(candidate: CandidateModel, history: Seq<FrameModel>) -> WorldModel {
    WorldModel {
        id: candidate.frame.resulting_world,
        version: candidate.frame.resulting_version,
        operation_count: candidate.base_operation_count + candidate.frame.operations.len(),
        kernel: candidate.kernel,
        history: history.push(candidate.frame),
    }
}

/// There is room to count the effects of `operations`.
pub open spec fn has_room(world: WorldModel, operations: nat) -> bool {
    &&& world.version < u64::MAX
    &&& world.operation_count + operations <= usize::MAX
    &&& world.kernel.records + operations <= usize::MAX
    &&& world.kernel.next_entity + operations <= u64::MAX
}

/// Publishing a candidate and replaying its frame give the same world.
pub proof fn publishing_is_replaying(world: WorldModel, operations: Seq<OperationModel>)
    requires
        has_room(world, operations.len()),
    ensures
        match candidate_of(world, operations) {
            Ok(candidate) => stepped(world, candidate.frame) == Ok::<
                WorldModel,
                CandidateErrorModel,
            >(published(candidate, world.history)),
            Err(error) => replayed(world.kernel, operations) == Err::<
                KernelModel,
                CandidateErrorModel,
            >(error),
        },
{
    replayed_keeps_order(world.kernel, operations);
}

/// The frame that commits `operations`, which lead to `kernel`.
fn successor_frame(
    base_world: WorldId,
    base_version: u64,
    kernel: &Kernel,
    operations: Vec<Operation>,
) -> (result: CommitFrame)
    requires
        base_version < u64::MAX,
    ensures
        result@ == commit_frame_of(
            base_world,
            base_version,
            views(operations@),
            kernel@.next_entity,
        ),
{
    let version: u64 = base_version + 1;
    let id = calculate_world_id(
        base_world,
        version,
        kernel.next_entity(),
        operations.as_slice(),
    );
    CommitFrame::assemble(
        base_world,
        id,
        base_version,
        version,
        kernel.next_entity(),
        operations,
    )
}

/// The world that one frame of `operations` leads to, where the resulting definitions are known.
pub open spec fn epoch_world_of(
    base: WorldModel,
    operations: Seq<OperationModel>,
    kernel: KernelModel,
) -> WorldModel {
    advanced(
        base,
        commit_frame_of(base.id, base.version, operations, kernel.next_entity),
        kernel,
    )
}

/// A successor of a sound history's world, not yet committed.
pub struct CandidateWorld {
    frame: Arc<CommitFrame>,
    kernel: Kernel,
    base_operation_count: usize,
}

impl View for CandidateWorld {
    type V = CandidateModel;

    closed spec fn view(&self) -> CandidateModel {
        CandidateModel {
            frame: self.frame@,
            kernel: self.kernel@,
            base_operation_count: self.base_operation_count as nat,
        }
    }
}

impl CandidateWorld {
    /// Applies `operations` to a copy of `base`.
    pub fn construct(base: &World, operations: Vec<Operation>) -> (result: Result<
        Self,
        CandidateError,
    >)
        requires
            has_room(base@, operations.len() as nat),
        ensures
            match (result, candidate_of(base@, views(operations@))) {
                (Ok(candidate), Ok(model)) => candidate@ == model,
                (Err(error), Err(model)) => error@ == model,
                _ => false,
            },
    {
        CandidateWorld::construct_from_state(
            base.id,
            base.version,
            base.operation_count,
            &base.kernel,
            operations,
        )
    }

    /// Applies `operations` to a copy of a state that need not be a published world.
    pub fn construct_from_state(
        base_world: WorldId,
        base_version: u64,
        base_operation_count: usize,
        base_kernel: &Kernel,
        operations: Vec<Operation>,
    ) -> (result: Result<Self, CandidateError>)
        requires
            base_version < u64::MAX,
            base_kernel@.records + operations.len() <= usize::MAX,
            base_kernel@.next_entity + operations.len() <= u64::MAX,
        ensures
            match (
                result,
                candidate_from(
                    base_world,
                    base_version,
                    base_operation_count as nat,
                    base_kernel@,
                    views(operations@),
                ),
            ) {
                (Ok(candidate), Ok(model)) => candidate@ == model,
                (Err(error), Err(model)) => error@ == model,
                _ => false,
            },
    {
        let mut kernel = base_kernel.duplicate();
        proof {
            replayed_keeps_order(base_kernel@, views(operations@));
        }
        kernel.replay(operations.as_slice())?;
        let frame = successor_frame(base_world, base_version, &kernel, operations);
        Ok(CandidateWorld { frame: Arc::new(frame), kernel, base_operation_count })
    }

    pub fn base_world(&self) -> (result: WorldId)
        ensures
            result == self@.frame.parent_world,
    {
        self.frame.parent_world()
    }

    pub fn id(&self) -> (result: WorldId)
        ensures
            result == self@.frame.resulting_world,
    {
        self.frame.resulting_world()
    }

    pub fn version(&self) -> (result: u64)
        ensures
            result == self@.frame.resulting_version,
    {
        self.frame.resulting_version()
    }

    pub fn next_entity(&self) -> (result: u64)
        ensures
            result == self@.kernel.next_entity,
    {
        self.kernel.next_entity()
    }

    pub fn operations(&self) -> (result: &[Operation])
        ensures
            views(result@) == self@.frame.operations,
    {
        self.frame.operations()
    }

    pub fn active_slot_count(&self) -> (result: usize)
        ensures
            result == active(self@.kernel.live).len(),
    {
        self.kernel.active_slot_count()
    }

    pub fn record_count(&self) -> (result: usize)
        ensures
            result == self@.kernel.records,
    {
        self.kernel.record_count()
    }

    /// The active fact of a slot.
    pub fn resolve(&self, slot: &SlotId) -> (result: Option<&Fact>)
        ensures
            match result {
                Some(fact) => active_fact(self@.kernel.live, slot@) == Some(fact@),
                None => active_fact(self@.kernel.live, slot@) is None,
            },
    {
        self.kernel.resolve(slot)
    }

    /// The facts that define a slot, newest first.
    pub fn definitions(&self, slot: &SlotId) -> (result: Vec<&Fact>)
        ensures
            views(result@) == slot_facts(self@.kernel.live, slot@),
    {
        self.kernel.definitions(slot)
    }

    /// The definitions of this candidate.
    pub fn kernel(&self) -> (result: &Kernel)
        ensures
            result@ == self@.kernel,
    {
        &self.kernel
    }

    /// The frame that commits this candidate.
    pub fn commit_frame(&self) -> (result: Arc<CommitFrame>)
        ensures
            result@ == self@.frame,
    {
        share(&self.frame)
    }

    /// Gives up the candidate for its definitions.
    pub(crate) fn into_kernel(self) -> (result: Kernel)
        ensures
            result@ == self@.kernel,
    {
        self.kernel
    }

    /// Turns this candidate into a world behind the history of its base.
    pub fn into_world(self, base: &World) -> (result: World)
        requires
            self@.base_operation_count + self@.frame.operations.len() <= usize::MAX,
        ensures
            result@ == published(self@, base@.history),
    {
        let mut history = share_all(base.history.as_slice());
        proof {
            views_push(history@, self.frame);
        }
        let count: usize = self.frame.operations().len();
        proof {
            assert(count == self@.frame.operations.len());
        }
        history.push(share(&self.frame));
        World {
            id: self.frame.resulting_world(),
            version: self.frame.resulting_version(),
            operation_count: self.base_operation_count + count,
            kernel: self.kernel,
            history,
        }
    }
}

/// Mathematical value of a [`Transaction`].
pub struct TransactionModel {
    pub base: WorldModel,
    pub next_entity: u64,
    pub operations: Seq<OperationModel>,
}

/// Operations staged on one committed world.
pub struct Transaction {
    base: Arc<World>,
    next_entity: u64,
    operations: Vec<Operation>,
}

impl View for Transaction {
    type V = TransactionModel;

    closed spec fn view(&self) -> TransactionModel {
        TransactionModel {
            base: self.base@,
            next_entity: self.next_entity,
            operations: views(self.operations@),
        }
    }
}

/// The staged operations apply to the base, and the next identity is the one that they leave.
pub open spec fn applies(transaction: TransactionModel) -> bool {
    replayed(transaction.base.kernel, transaction.operations) matches Ok(kernel)
        && kernel.next_entity == transaction.next_entity
}

impl Transaction {
    /// Nothing staged yet.
    pub fn new(base: Arc<World>) -> (result: Self)
        ensures
            result@ == (TransactionModel {
                base: base@,
                next_entity: base@.kernel.next_entity as u64,
                operations: Seq::empty(),
            }),
            applies(result@),
    {
        let next_entity: u64 = base.next_entity();
        let result = Transaction { base, next_entity, operations: Vec::new() };
        proof {
            assert(result@.operations =~= Seq::empty());
        }
        result
    }

    pub fn base_world(&self) -> (result: WorldId)
        ensures
            result == self@.base.id,
    {
        self.base.id()
    }

    pub fn operation_count(&self) -> (result: usize)
        ensures
            result == self@.operations.len(),
    {
        self.operations.len()
    }

    fn stage(&mut self, operation: Operation)
        ensures
            final(self)@ == (TransactionModel {
                operations: old(self)@.operations.push(operation@),
                ..old(self)@
            }),
    {
        proof {
            views_push(self.operations@, operation);
        }
        self.operations.push(operation);
    }

    /// Stages the allocation of a new entity.
    pub fn entity(&mut self) -> (result: EntityId)
        requires
            old(self)@.next_entity < u64::MAX,
        ensures
            result.0 == old(self)@.next_entity,
            final(self)@ == (TransactionModel {
                base: old(self)@.base,
                next_entity: (old(self)@.next_entity + 1) as u64,
                operations: old(self)@.operations.push(
                    OperationModel::AllocateEntity { entity: old(self)@.next_entity },
                ),
            }),
            applies(old(self)@) ==> applies(final(self)@),
    {
        let entity = EntityId(self.next_entity);
        self.next_entity = self.next_entity + 1;
        self.stage(Operation::AllocateEntity { entity });
        proof {
            assert(self@.operations.drop_last() =~= old(self)@.operations);
        }
        entity
    }

    /// Stages a definition.
    pub fn define(&mut self, slot: SlotId, fact: Fact)
        ensures
            final(self)@ == (TransactionModel {
                operations: old(self)@.operations.push(
                    OperationModel::Define { slot: slot@, fact: fact@ },
                ),
                ..old(self)@
            }),
            applies(old(self)@) ==> applies(final(self)@),
    {
        self.stage(Operation::Define { slot, fact });
        proof {
            assert(self@.operations.drop_last() =~= old(self)@.operations);
        }
    }

    /// Stages the removal of a slot's active definition.
    pub fn forget(&mut self, slot: SlotId)
        ensures
            final(self)@ == (TransactionModel {
                operations: old(self)@.operations.push(OperationModel::Forget { slot: slot@ }),
                ..old(self)@
            }),
            applies(old(self)@) ==> applies(final(self)@),
    {
        self.stage(Operation::Forget { slot });
        proof {
            assert(self@.operations.drop_last() =~= old(self)@.operations);
        }
    }

    /// Stages a display name for an entity.
    pub fn define_display_name(&mut self, entity: EntityId, name: &str)
        ensures
            final(self)@ == (TransactionModel {
                operations: old(self)@.operations.push(
                    OperationModel::Define {
                        slot: display_slot_text(entity.0),
                        fact: FactModel {
                            subject: AtomModel::Entity(entity.0),
                            predicate: "display_name"@,
                            object: AtomModel::Literal(name@),
                        },
                    },
                ),
                ..old(self)@
            }),
            applies(old(self)@) ==> applies(final(self)@),
    {
        self.define(
            display_slot(entity),
            Fact::new(
                Atom::Entity(entity),
                Predicate::new("display_name"),
                Atom::Literal(Literal::new(name)),
            ),
        );
    }

    /// Stages the binding of a symbol to an entity.
    pub fn bind_symbol(&mut self, namespace: &str, symbol: Symbol, entity: EntityId)
        ensures
            final(self)@ == (TransactionModel {
                operations: old(self)@.operations.push(
                    OperationModel::Define {
                        slot: symbol_slot_text(namespace@, symbol@),
                        fact: FactModel {
                            subject: AtomModel::Literal(namespace@ + ":"@ + symbol@),
                            predicate: "resolves_to"@,
                            object: AtomModel::Entity(entity.0),
                        },
                    },
                ),
                ..old(self)@
            }),
            applies(old(self)@) ==> applies(final(self)@),
    {
        let mut name = joined(namespace, ":");
        name.append(symbol.as_str());
        self.define(
            symbol_slot(namespace, &symbol),
            Fact::new(
                Atom::Literal(Literal::from_text(name)),
                Predicate::new("resolves_to"),
                Atom::Entity(entity),
            ),
        );
    }

    /// The candidate that the staged operations make of the base.
    pub fn candidate(&self) -> (result: Result<CandidateWorld, CandidateError>)
        requires
            has_room(self@.base, self@.operations.len()),
        ensures
            match (result, candidate_of(self@.base, self@.operations)) {
                (Ok(candidate), Ok(model)) => candidate@ == model,
                (Err(error), Err(model)) => error@ == model,
                _ => false,
            },
            applies(self@) ==> result is Ok,
    {
        CandidateWorld::construct(&self.base, clone_operations(self.operations.as_slice()))
    }
}

} // verus!
