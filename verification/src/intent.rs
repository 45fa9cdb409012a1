//! Queued intents: operations whose predecessor world is assigned when an epoch is planned.

use crate::fact::{
    Atom, AtomModel, EntityId, Fact, FactModel, Literal, Predicate, SlotId, views, views_push,
};
use crate::frame::WorldId;
use vstd::prelude::*;
use vstd::std_specs::convert::{FromSpecImpl, IntoSpec};

verus! {

/// An entity handle local to exactly one queued intent.
///
/// Two intents may both allocate temporary index zero, but their handles remain distinct and
/// cannot alias: the namespace keeps them apart.
#[derive(Clone, Copy, Debug, PartialEq, Eq, PartialOrd, Ord, Hash, Structural)]
pub struct TempEntity {
    pub(crate) namespace: u64,
    pub(crate) index: u32,
}

impl TempEntity {
    pub closed spec fn scope(self) -> u64 {
        self.namespace
    }

    pub closed spec fn number(self) -> u32 {
        self.index
    }

    pub(crate) fn namespace(self) -> (result: u64)
        ensures
            result == self.scope(),
    {
        self.namespace
    }

    pub(crate) fn new(namespace: u64, index: u32) -> (result: Self)
        ensures
            result == handle(namespace, index),
    {
        TempEntity { namespace, index }
    }

    pub fn index(self) -> (result: u32)
        ensures
            result == self.number(),
    {
        self.index
    }
}

/// The subject or object of a fact that an intent defines.
#[derive(Debug, PartialEq, Eq, PartialOrd, Ord, Hash)]
pub enum IntentAtom {
    Entity(EntityId),
    Temporary(TempEntity),
    Literal(Literal),
}

/// Mathematical value of an [`IntentAtom`].
pub enum IntentAtomModel {
    Entity(u64),
    Temporary(TempEntity),
    Literal(Seq<char>),
}

impl View for IntentAtom {
    type V = IntentAtomModel;

    open spec fn view(&self) -> IntentAtomModel {
        match self {
            IntentAtom::Entity(entity) => IntentAtomModel::Entity(entity.0),
            IntentAtom::Temporary(temporary) => IntentAtomModel::Temporary(*temporary),
            IntentAtom::Literal(literal) => IntentAtomModel::Literal(literal@),
        }
    }
}

impl Clone for IntentAtom {
    fn clone(&self) -> (result: Self)
        ensures
            result@ == self@,
    {
        match self {
            IntentAtom::Entity(entity) => IntentAtom::Entity(*entity),
            IntentAtom::Temporary(temporary) => IntentAtom::Temporary(*temporary),
            IntentAtom::Literal(literal) => IntentAtom::Literal(literal.clone()),
        }
    }
}

impl From<EntityId> for IntentAtom {
    fn from(value: EntityId) -> (result: Self) {
        IntentAtom::Entity(value)
    }
}

impl FromSpecImpl<EntityId> for IntentAtom {
    open spec fn obeys_from_spec() -> bool {
        true
    }

    open spec fn from_spec(value: EntityId) -> Self {
        IntentAtom::Entity(value)
    }
}

impl From<TempEntity> for IntentAtom {
    fn from(value: TempEntity) -> (result: Self) {
        IntentAtom::Temporary(value)
    }
}

impl FromSpecImpl<TempEntity> for IntentAtom {
    open spec fn obeys_from_spec() -> bool {
        true
    }

    open spec fn from_spec(value: TempEntity) -> Self {
        IntentAtom::Temporary(value)
    }
}

impl From<Literal> for IntentAtom {
    fn from(value: Literal) -> (result: Self) {
        IntentAtom::Literal(value)
    }
}

impl FromSpecImpl<Literal> for IntentAtom {
    open spec fn obeys_from_spec() -> bool {
        true
    }

    open spec fn from_spec(value: Literal) -> Self {
        IntentAtom::Literal(value)
    }
}

impl From<Atom> for IntentAtom {
    fn from(value: Atom) -> (result: Self) {
        match value {
            Atom::Entity(entity) => IntentAtom::Entity(entity),
            Atom::Literal(literal) => IntentAtom::Literal(literal),
        }
    }
}

impl FromSpecImpl<Atom> for IntentAtom {
    open spec fn obeys_from_spec() -> bool {
        true
    }

    open spec fn from_spec(value: Atom) -> Self {
        match value {
            Atom::Entity(entity) => IntentAtom::Entity(entity),
            Atom::Literal(literal) => IntentAtom::Literal(literal),
        }
    }
}

/// A fact that may name temporary entities.
#[derive(Debug, PartialEq, Eq, PartialOrd, Ord, Hash)]
pub struct IntentFact {
    pub subject: IntentAtom,
    pub predicate: Predicate,
    pub object: IntentAtom,
}

/// Mathematical value of an [`IntentFact`].
pub struct IntentFactModel {
    pub subject: IntentAtomModel,
    pub predicate: Seq<char>,
    pub object: IntentAtomModel,
}

impl View for IntentFact {
    type V = IntentFactModel;

    open spec fn view(&self) -> IntentFactModel {
        IntentFactModel {
            subject: self.subject@,
            predicate: self.predicate@,
            object: self.object@,
        }
    }
}

impl Clone for IntentFact {
    fn clone(&self) -> (result: Self)
        ensures
            result@ == self@,
    {
        IntentFact {
            subject: self.subject.clone(),
            predicate: self.predicate.clone(),
            object: self.object.clone(),
        }
    }
}

impl IntentFact {
    pub fn new<S: Into<IntentAtom>, O: Into<IntentAtom>>(
        subject: S,
        predicate: Predicate,
        object: O,
    ) -> (result: Self)
        ensures
            S::obeys_into_spec() ==> result.subject == subject.into_spec(),
            O::obeys_into_spec() ==> result.object == object.into_spec(),
            result.predicate == predicate,
    {
        IntentFact { subject: subject.into(), predicate, object: object.into() }
    }
}

/// A fact without temporary entities, as one that may have some.
pub open spec fn plain_fact(fact: FactModel) -> IntentFactModel {
    IntentFactModel {
        subject: plain_atom(fact.subject),
        predicate: fact.predicate,
        object: plain_atom(fact.object),
    }
}

pub open spec fn plain_atom(atom: AtomModel) -> IntentAtomModel {
    match atom {
        AtomModel::Entity(entity) => IntentAtomModel::Entity(entity),
        AtomModel::Literal(literal) => IntentAtomModel::Literal(literal),
    }
}

impl From<Fact> for IntentFact {
    fn from(value: Fact) -> (result: Self) {
        IntentFact {
            subject: IntentAtom::from(value.subject),
            predicate: value.predicate,
            object: IntentAtom::from(value.object),
        }
    }
}

impl FromSpecImpl<Fact> for IntentFact {
    open spec fn obeys_from_spec() -> bool {
        true
    }

    open spec fn from_spec(value: Fact) -> Self {
        IntentFact {
            subject: <IntentAtom as vstd::std_specs::convert::FromSpec<Atom>>::from_spec(
                value.subject,
            ),
            predicate: value.predicate,
            object: <IntentAtom as vstd::std_specs::convert::FromSpec<Atom>>::from_spec(
                value.object,
            ),
        }
    }
}

/// What an intent demands of the world that it is applied to.
#[derive(Debug, PartialEq, Eq)]
pub enum IntentPrecondition {
    ExpectedWorld(WorldId),
    ExpectedSlot { slot: SlotId, expected: Option<Fact> },
}

/// Mathematical value of an [`IntentPrecondition`].
pub enum PreconditionModel {
    ExpectedWorld(WorldId),
    ExpectedSlot { slot: Seq<char>, expected: Option<FactModel> },
}

/// An optional fact by its value.
pub open spec fn optional_fact(fact: Option<Fact>) -> Option<FactModel> {
    match fact {
        Some(fact) => Some(fact@),
        None => None,
    }
}

impl View for IntentPrecondition {
    type V = PreconditionModel;

    open spec fn view(&self) -> PreconditionModel {
        match *self {
            IntentPrecondition::ExpectedWorld(world) => PreconditionModel::ExpectedWorld(world),
            IntentPrecondition::ExpectedSlot { slot, expected } => PreconditionModel::ExpectedSlot {
                slot: slot@,
                expected: optional_fact(expected),
            },
        }
    }
}

pub fn clone_optional_fact(fact: &Option<Fact>) -> (result: Option<Fact>)
    ensures
        optional_fact(result) == optional_fact(*fact),
{
    match fact {
        Some(fact) => Some(fact.clone()),
        None => None,
    }
}

impl Clone for IntentPrecondition {
    fn clone(&self) -> (result: Self)
        ensures
            result@ == self@,
    {
        match self {
            IntentPrecondition::ExpectedWorld(world) => IntentPrecondition::ExpectedWorld(*world),
            IntentPrecondition::ExpectedSlot { slot, expected } =>
                IntentPrecondition::ExpectedSlot {
                slot: slot.clone(),
                expected: clone_optional_fact(expected),
            },
        }
    }
}

/// One step of an intent.
#[derive(Debug, PartialEq, Eq)]
pub enum IntentOperation {
    AllocateEntity { temporary: TempEntity },
    Define { slot: SlotId, fact: IntentFact },
    Forget { slot: SlotId },
}

/// Mathematical value of an [`IntentOperation`].
pub enum IntentOperationModel {
    AllocateEntity { temporary: TempEntity },
    Define { slot: Seq<char>, fact: IntentFactModel },
    Forget { slot: Seq<char> },
}

impl View for IntentOperation {
    type V = IntentOperationModel;

    open spec fn view(&self) -> IntentOperationModel {
        match *self {
            IntentOperation::AllocateEntity { temporary } => IntentOperationModel::AllocateEntity {
                temporary,
            },
            IntentOperation::Define { slot, fact } => IntentOperationModel::Define {
                slot: slot@,
                fact: fact@,
            },
            IntentOperation::Forget { slot } => IntentOperationModel::Forget { slot: slot@ },
        }
    }
}

impl Clone for IntentOperation {
    fn clone(&self) -> (result: Self)
        ensures
            result@ == self@,
    {
        match self {
            IntentOperation::AllocateEntity { temporary } => IntentOperation::AllocateEntity {
                temporary: *temporary,
            },
            IntentOperation::Define { slot, fact } => IntentOperation::Define {
                slot: slot.clone(),
                fact: fact.clone(),
            },
            IntentOperation::Forget { slot } => IntentOperation::Forget { slot: slot.clone() },
        }
    }
}

/// The next namespace to hand out once `namespace` has been seen in use.
pub open spec fn observed(upcoming: u64, namespace: u64) -> u64 {
    if namespace < upcoming {
        upcoming
    } else if namespace == u64::MAX {
        u64::MAX
    } else {
        (namespace + 1) as u64
    }
}

/// Whether none of the namespaces of `intents` will be handed out, unless it is the last one there
/// is, at which the numbers start over.
pub open spec fn clear_of(upcoming: u64, intents: Seq<IntentModel>) -> bool {
    forall|i: int|
        0 <= i < intents.len() ==> (#[trigger] intents[i]).namespace < upcoming
            || intents[i].namespace == u64::MAX
}

/// The same of every epoch.
pub open spec fn clear_of_epochs(upcoming: u64, epochs: Seq<Seq<IntentModel>>) -> bool {
    forall|i: int| 0 <= i < epochs.len() ==> clear_of(upcoming, #[trigger] epochs[i])
}

/// What is clear of a set of intents stays so as more namespaces are seen.
pub proof fn stays_clear(upcoming: u64, later: u64, epochs: Seq<Seq<IntentModel>>)
    requires
        upcoming <= later,
        clear_of_epochs(upcoming, epochs),
    ensures
        clear_of_epochs(later, epochs),
{
    assert forall|i: int| 0 <= i < epochs.len() implies clear_of(later, #[trigger] epochs[i]) by {
        assert(clear_of(upcoming, epochs[i]));
    }
}

/// Hands out intent namespaces, each once.
pub struct IntentNamespaces {
    next: u64,
}

impl IntentNamespaces {
    /// The namespace that is handed out next.
    pub closed spec fn upcoming(&self) -> u64 {
        self.next
    }

    pub fn new() -> (result: Self)
        ensures
            result.upcoming() == 1,
    {
        IntentNamespaces { next: 1 }
    }

    /// Hands out the next namespace; after the last one it starts over.
    pub fn issue(&mut self) -> (result: u64)
        ensures
            result == old(self).upcoming(),
            final(self).upcoming() == if old(self).upcoming() == u64::MAX {
                0
            } else {
                (old(self).upcoming() + 1) as u64
            },
    {
        let namespace: u64 = self.next;
        self.next = namespace.wrapping_add(1);
        namespace
    }

    /// Never hands out a namespace again that has been seen in a recovered intent.
    pub fn observe(&mut self, namespace: u64)
        ensures
            final(self).upcoming() == observed(old(self).upcoming(), namespace),
    {
        let floor: u64 = namespace.saturating_add(1);
        if self.next < floor {
            self.next = floor;
        }
    }
}

/// Operations that leave the choice of their predecessor world to an epoch planner.
#[derive(Debug, PartialEq, Eq)]
pub struct QueuedIntent {
    pub(crate) namespace: u64,
    pub(crate) next_temporary: u32,
    pub(crate) preconditions: Vec<IntentPrecondition>,
    pub(crate) operations: Vec<IntentOperation>,
}

/// Mathematical value of a [`QueuedIntent`].
pub struct IntentModel {
    pub namespace: u64,
    pub next_temporary: u32,
    pub preconditions: Seq<PreconditionModel>,
    pub operations: Seq<IntentOperationModel>,
}

impl View for QueuedIntent {
    type V = IntentModel;

    closed spec fn view(&self) -> IntentModel {
        IntentModel {
            namespace: self.namespace,
            next_temporary: self.next_temporary,
            preconditions: views(self.preconditions@),
            operations: views(self.operations@),
        }
    }
}

/// The handle with number `index` in `namespace`.
pub closed spec fn handle(namespace: u64, index: u32) -> TempEntity {
    TempEntity { namespace, index }
}

/// A handle is its namespace and its index.
pub proof fn handle_is(temporary: TempEntity)
    ensures
        handle(temporary.scope(), temporary.number()) == temporary,
{
}

pub broadcast proof fn handle_parts(namespace: u64, index: u32)
    ensures
        (#[trigger] handle(namespace, index)).scope() == namespace,
        handle(namespace, index).number() == index,
{
}

/// Handles of different namespaces, or with different numbers, never alias.
pub proof fn handles_never_alias(left: TempEntity, right: TempEntity)
    ensures
        left == right <==> left.scope() == right.scope() && left.number() == right.number(),
{
}

impl QueuedIntent {
    /// An empty intent with a namespace of its own.
    pub fn new(namespace: u64) -> (result: Self)
        ensures
            result@ == (IntentModel {
                namespace,
                next_temporary: 0,
                preconditions: Seq::empty(),
                operations: Seq::empty(),
            }),
    {
        let result = QueuedIntent {
            namespace,
            next_temporary: 0,
            preconditions: Vec::new(),
            operations: Vec::new(),
        };
        proof {
            assert(result@.preconditions =~= Seq::empty());
            assert(result@.operations =~= Seq::empty());
        }
        result
    }

    pub(crate) fn assemble(
        namespace: u64,
        next_temporary: u32,
        preconditions: Vec<IntentPrecondition>,
        operations: Vec<IntentOperation>,
    ) -> (result: Self)
        ensures
            result@ == (IntentModel {
                namespace,
                next_temporary,
                preconditions: views(preconditions@),
                operations: views(operations@),
            }),
    {
        QueuedIntent { namespace, next_temporary, preconditions, operations }
    }

    pub fn namespace(&self) -> (result: u64)
        ensures
            result == self@.namespace,
    {
        self.namespace
    }

    pub(crate) fn next_temporary(&self) -> (result: u32)
        ensures
            result == self@.next_temporary,
    {
        self.next_temporary
    }

    pub(crate) fn preconditions(&self) -> (result: &[IntentPrecondition])
        ensures
            views(result@) == self@.preconditions,
    {
        self.preconditions.as_slice()
    }

    pub(crate) fn operations(&self) -> (result: &[IntentOperation])
        ensures
            views(result@) == self@.operations,
    {
        self.operations.as_slice()
    }

    pub fn operation_count(&self) -> (result: usize)
        ensures
            result == self@.operations.len(),
    {
        self.operations.len()
    }

    pub fn precondition_count(&self) -> (result: usize)
        ensures
            result == self@.preconditions.len(),
    {
        self.preconditions.len()
    }

    fn demand(&mut self, precondition: IntentPrecondition)
        ensures
            final(self)@ == (IntentModel {
                preconditions: old(self)@.preconditions.push(precondition@),
                ..old(self)@
            }),
    {
        proof {
            views_push(self.preconditions@, precondition);
        }
        self.preconditions.push(precondition);
    }

    fn stage(&mut self, operation: IntentOperation)
        ensures
            final(self)@ == (IntentModel {
                operations: old(self)@.operations.push(operation@),
                ..old(self)@
            }),
    {
        proof {
            views_push(self.operations@, operation);
        }
        self.operations.push(operation);
    }

    /// Demands a particular predecessor world.
    pub fn expect_world(&mut self, world: WorldId)
        ensures
            final(self)@ == (IntentModel {
                preconditions: old(self)@.preconditions.push(
                    PreconditionModel::ExpectedWorld(world),
                ),
                ..old(self)@
            }),
    {
        self.demand(IntentPrecondition::ExpectedWorld(world));
    }

    /// Demands that a slot's active fact is `fact`.
    pub fn expect_value(&mut self, slot: SlotId, fact: Fact)
        ensures
            final(self)@ == (IntentModel {
                preconditions: old(self)@.preconditions.push(
                    PreconditionModel::ExpectedSlot { slot: slot@, expected: Some(fact@) },
                ),
                ..old(self)@
            }),
    {
        self.demand(IntentPrecondition::ExpectedSlot { slot, expected: Some(fact) });
    }

    /// Demands that a slot has no active fact.
    pub fn expect_absent(&mut self, slot: SlotId)
        ensures
            final(self)@ == (IntentModel {
                preconditions: old(self)@.preconditions.push(
                    PreconditionModel::ExpectedSlot { slot: slot@, expected: None },
                ),
                ..old(self)@
            }),
    {
        self.demand(IntentPrecondition::ExpectedSlot { slot, expected: None });
    }

    /// Stages the allocation of an entity and gives its handle.
    pub fn entity(&mut self) -> (result: TempEntity)
        requires
            old(self)@.next_temporary < u32::MAX,
        ensures
            result == handle(old(self)@.namespace, old(self)@.next_temporary),
            final(self)@ == (IntentModel {
                next_temporary: (old(self)@.next_temporary + 1) as u32,
                operations: old(self)@.operations.push(
                    IntentOperationModel::AllocateEntity { temporary: result },
                ),
                ..old(self)@
            }),
    {
        let temporary = TempEntity { namespace: self.namespace, index: self.next_temporary };
        self.next_temporary = self.next_temporary + 1;
        self.stage(IntentOperation::AllocateEntity { temporary });
        temporary
    }

    /// Stages a definition that may name temporary entities.
    pub fn define(&mut self, slot: SlotId, fact: IntentFact)
        ensures
            final(self)@ == (IntentModel {
                operations: old(self)@.operations.push(
                    IntentOperationModel::Define { slot: slot@, fact: fact@ },
                ),
                ..old(self)@
            }),
    {
        self.stage(IntentOperation::Define { slot, fact });
    }

    /// Stages the definition of a plain fact.
    pub fn define_fact(&mut self, slot: SlotId, fact: Fact)
        ensures
            final(self)@ == (IntentModel {
                operations: old(self)@.operations.push(
                    IntentOperationModel::Define { slot: slot@, fact: plain_fact(fact@) },
                ),
                ..old(self)@
            }),
    {
        self.define(slot, IntentFact::from(fact));
    }

    /// Stages the removal of a slot's active definition.
    pub fn forget(&mut self, slot: SlotId)
        ensures
            final(self)@ == (IntentModel {
                operations: old(self)@.operations.push(IntentOperationModel::Forget { slot: slot@ }),
                ..old(self)@
            }),
    {
        self.stage(IntentOperation::Forget { slot });
    }
}

impl Clone for QueuedIntent {
    fn clone(&self) -> (result: Self)
        ensures
            result@ == self@,
    {
        let mut result = QueuedIntent {
            namespace: self.namespace,
            next_temporary: self.next_temporary,
            preconditions: Vec::new(),
            operations: Vec::new(),
        };
        let mut index: usize = 0;
        while index < self.preconditions.len()
            invariant
                index <= self.preconditions.len(),
                result.preconditions.len() == index,
                result.namespace == self.namespace,
                result.next_temporary == self.next_temporary,
                result.operations.len() == 0,
                forall|k: int|
                    0 <= k < index ==> (#[trigger] result.preconditions@[k])@
                        == self.preconditions@[k]@,
            decreases self.preconditions.len() - index,
        {
            result.preconditions.push(self.preconditions[index].clone());
            index += 1;
        }
        let mut place: usize = 0;
        while place < self.operations.len()
            invariant
                place <= self.operations.len(),
                result.operations.len() == place,
                result.namespace == self.namespace,
                result.next_temporary == self.next_temporary,
                result.preconditions.len() == self.preconditions.len(),
                forall|k: int|
                    0 <= k < self.preconditions.len() ==> (#[trigger] result.preconditions@[k])@
                        == self.preconditions@[k]@,
                forall|k: int|
                    0 <= k < place ==> (#[trigger] result.operations@[k])@
                        == self.operations@[k]@,
            decreases self.operations.len() - place,
        {
            result.operations.push(self.operations[place].clone());
            place += 1;
        }
        proof {
            assert(result@.preconditions =~= self@.preconditions);
            assert(result@.operations =~= self@.operations);
        }
        result
    }
}

} // verus!
