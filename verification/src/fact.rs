//! Entities, names, facts and the operations on them.

use vstd::prelude::*;

verus! {

/// The views of a sequence of values, element by element.
pub open spec fn views<T: View>(values: Seq<T>) -> Seq<T::V> {
    Seq::new(values.len(), |i: int| values[i]@)
}

pub proof fn views_push<T: View>(values: Seq<T>, value: T)
    ensures
        views(values.push(value)) == views(values).push(value@),
{
    assert(views(values.push(value)) =~= views(values).push(value@));
}

pub proof fn views_take<T: View>(values: Seq<T>, count: int)
    requires
        0 <= count <= values.len(),
    ensures
        views(values.take(count)) == views(values).take(count),
{
    assert(views(values.take(count)) =~= views(values).take(count));
}

pub proof fn views_concat<T: View>(left: Seq<T>, right: Seq<T>)
    ensures
        views(left + right) == views(left) + views(right),
{
    assert(views(left + right) =~= views(left) + views(right));
}

/// Stable identity of an entity.
#[derive(Clone, Copy, Debug, PartialEq, Eq, PartialOrd, Ord, Hash, Structural)]
pub struct EntityId(pub u64);

impl EntityId {
    pub fn new(value: u64) -> (result: Self)
        ensures
            result == EntityId(value),
    {
        EntityId(value)
    }

    pub fn value(self) -> (result: u64)
        ensures
            result == self.0,
    {
        self.0
    }
}

/// Name of a slot: at most one definition of a slot is active at a time.
#[derive(Debug, PartialEq, Eq, PartialOrd, Ord, Hash)]
pub struct SlotId {
    text: String,
}

/// Name of a relation between a subject and an object.
#[derive(Debug, PartialEq, Eq, PartialOrd, Ord, Hash)]
pub struct Predicate {
    text: String,
}

/// A literal value.
#[derive(Debug, PartialEq, Eq, PartialOrd, Ord, Hash)]
pub struct Literal {
    text: String,
}

/// A human-readable name that a namespace resolves to an entity.
#[derive(Debug, PartialEq, Eq, PartialOrd, Ord, Hash)]
pub struct Symbol {
    text: String,
}

/// A query variable.
#[derive(Debug, PartialEq, Eq, PartialOrd, Ord, Hash)]
pub struct Variable {
    text: String,
}

impl View for SlotId {
    type V = Seq<char>;

    closed spec fn view(&self) -> Seq<char> {
        self.text@
    }
}

impl View for Predicate {
    type V = Seq<char>;

    closed spec fn view(&self) -> Seq<char> {
        self.text@
    }
}

impl View for Literal {
    type V = Seq<char>;

    closed spec fn view(&self) -> Seq<char> {
        self.text@
    }
}

impl View for Symbol {
    type V = Seq<char>;

    closed spec fn view(&self) -> Seq<char> {
        self.text@
    }
}

impl View for Variable {
    type V = Seq<char>;

    closed spec fn view(&self) -> Seq<char> {
        self.text@
    }
}

impl Clone for SlotId {
    fn clone(&self) -> (result: Self)
        ensures
            result@ == self@,
    {
        SlotId { text: self.text.clone() }
    }
}

impl Clone for Predicate {
    fn clone(&self) -> (result: Self)
        ensures
            result@ == self@,
    {
        Predicate { text: self.text.clone() }
    }
}

impl Clone for Literal {
    fn clone(&self) -> (result: Self)
        ensures
            result@ == self@,
    {
        Literal { text: self.text.clone() }
    }
}

impl Clone for Symbol {
    fn clone(&self) -> (result: Self)
        ensures
            result@ == self@,
    {
        Symbol { text: self.text.clone() }
    }
}

impl Clone for Variable {
    fn clone(&self) -> (result: Self)
        ensures
            result@ == self@,
    {
        Variable { text: self.text.clone() }
    }
}

/// Whether two strings hold the same characters.
pub fn same_text(left: &str, right: &str) -> (result: bool)
    ensures
        result == (left@ == right@),
{
    proof {
        vstd::utf8::encode_utf8_decode_utf8(left@);
        vstd::utf8::encode_utf8_decode_utf8(right@);
    }
    same_bytes(left.as_bytes(), right.as_bytes())
}

/// Whether two byte strings are equal.
pub fn same_bytes(left: &[u8], right: &[u8]) -> (result: bool)
    ensures
        result == (left@ == right@),
{
    if left.len() != right.len() {
        return false;
    }
    let mut index: usize = 0;
    while index < left.len()
        invariant
            left.len() == right.len(),
            index <= left.len(),
            forall|k: int| 0 <= k < index ==> left@[k] == right@[k],
        decreases left.len() - index,
    {
        if left[index] != right[index] {
            return false;
        }
        index += 1;
    }
    proof {
        assert(left@ =~= right@);
    }
    true
}

impl SlotId {
    pub fn new(value: &str) -> (result: Self)
        ensures
            result@ == value@,
    {
        SlotId { text: value.to_owned() }
    }

    pub fn from_text(text: String) -> (result: Self)
        ensures
            result@ == text@,
    {
        SlotId { text }
    }

    pub fn as_str(&self) -> (result: &str)
        ensures
            result@ == self@,
    {
        self.text.as_str()
    }

    pub fn same(&self, other: &Self) -> (result: bool)
        ensures
            result == (self@ == other@),
    {
        same_text(self.as_str(), other.as_str())
    }
}

impl Predicate {
    pub fn new(value: &str) -> (result: Self)
        ensures
            result@ == value@,
    {
        Predicate { text: value.to_owned() }
    }

    pub fn from_text(text: String) -> (result: Self)
        ensures
            result@ == text@,
    {
        Predicate { text }
    }

    pub fn as_str(&self) -> (result: &str)
        ensures
            result@ == self@,
    {
        self.text.as_str()
    }

    pub fn same(&self, other: &Self) -> (result: bool)
        ensures
            result == (self@ == other@),
    {
        same_text(self.as_str(), other.as_str())
    }
}

impl Literal {
    pub fn new(value: &str) -> (result: Self)
        ensures
            result@ == value@,
    {
        Literal { text: value.to_owned() }
    }

    pub fn from_text(text: String) -> (result: Self)
        ensures
            result@ == text@,
    {
        Literal { text }
    }

    pub fn as_str(&self) -> (result: &str)
        ensures
            result@ == self@,
    {
        self.text.as_str()
    }

    pub fn same(&self, other: &Self) -> (result: bool)
        ensures
            result == (self@ == other@),
    {
        same_text(self.as_str(), other.as_str())
    }
}

impl Symbol {
    pub fn new(value: &str) -> (result: Self)
        ensures
            result@ == value@,
    {
        Symbol { text: value.to_owned() }
    }

    pub fn as_str(&self) -> (result: &str)
        ensures
            result@ == self@,
    {
        self.text.as_str()
    }
}

impl Variable {
    pub fn new(value: &str) -> (result: Self)
        ensures
            result@ == value@,
    {
        Variable { text: value.to_owned() }
    }

    pub fn as_str(&self) -> (result: &str)
        ensures
            result@ == self@,
    {
        self.text.as_str()
    }
}

/// The subject or object of a fact.
#[derive(Debug, PartialEq, Eq, PartialOrd, Ord, Hash)]
pub enum Atom {
    Entity(EntityId),
    Literal(Literal),
}

/// Mathematical value of an [`Atom`].
pub enum AtomModel {
    Entity(u64),
    Literal(Seq<char>),
}

impl View for Atom {
    type V = AtomModel;

    open spec fn view(&self) -> AtomModel {
        match self {
            Atom::Entity(entity) => AtomModel::Entity(entity.0),
            Atom::Literal(literal) => AtomModel::Literal(literal@),
        }
    }
}

impl Clone for Atom {
    fn clone(&self) -> (result: Self)
        ensures
            result@ == self@,
    {
        match self {
            Atom::Entity(entity) => Atom::Entity(*entity),
            Atom::Literal(literal) => Atom::Literal(literal.clone()),
        }
    }
}

impl Atom {
    pub fn same(&self, other: &Self) -> (result: bool)
        ensures
            result == (self@ == other@),
    {
        match (self, other) {
            (Atom::Entity(left), Atom::Entity(right)) => left.0 == right.0,
            (Atom::Literal(left), Atom::Literal(right)) => left.same(right),
            _ => false,
        }
    }
}

/// A subject, a predicate and an object.
#[derive(Debug, PartialEq, Eq, PartialOrd, Ord, Hash)]
pub struct Fact {
    pub subject: Atom,
    pub predicate: Predicate,
    pub object: Atom,
}

/// Mathematical value of a [`Fact`].
pub struct FactModel {
    pub subject: AtomModel,
    pub predicate: Seq<char>,
    pub object: AtomModel,
}

impl View for Fact {
    type V = FactModel;

    open spec fn view(&self) -> FactModel {
        FactModel {
            subject: self.subject@,
            predicate: self.predicate@,
            object: self.object@,
        }
    }
}

impl Clone for Fact {
    fn clone(&self) -> (result: Self)
        ensures
            result@ == self@,
    {
        Fact {
            subject: self.subject.clone(),
            predicate: self.predicate.clone(),
            object: self.object.clone(),
        }
    }
}

impl Fact {
    pub fn new(subject: Atom, predicate: Predicate, object: Atom) -> (result: Self)
        ensures
            result@ == (FactModel {
                subject: subject@,
                predicate: predicate@,
                object: object@,
            }),
            result == (Fact { subject, predicate, object }),
    {
        Fact { subject, predicate, object }
    }

    pub fn same(&self, other: &Self) -> (result: bool)
        ensures
            result == (self@ == other@),
    {
        self.subject.same(&other.subject) && self.predicate.same(&other.predicate)
            && self.object.same(&other.object)
    }
}

/// One step of a transaction.
#[derive(Debug, PartialEq, Eq, PartialOrd, Ord, Hash)]
pub enum Operation {
    /// Takes the next identity of the allocator.
    AllocateEntity { entity: EntityId },
    /// Makes `fact` the active definition of `slot`.
    Define { slot: SlotId, fact: Fact },
    /// Drops the active definition of `slot`, which reveals the one before it.
    Forget { slot: SlotId },
}

/// Mathematical value of an [`Operation`].
pub enum OperationModel {
    AllocateEntity { entity: u64 },
    Define { slot: Seq<char>, fact: FactModel },
    Forget { slot: Seq<char> },
}

impl View for Operation {
    type V = OperationModel;

    open spec fn view(&self) -> OperationModel {
        match self {
            Operation::AllocateEntity { entity } => OperationModel::AllocateEntity {
                entity: entity.0,
            },
            Operation::Define { slot, fact } => OperationModel::Define { slot: slot@, fact: fact@ },
            Operation::Forget { slot } => OperationModel::Forget { slot: slot@ },
        }
    }
}

impl Clone for Operation {
    fn clone(&self) -> (result: Self)
        ensures
            result@ == self@,
    {
        match self {
            Operation::AllocateEntity { entity } => Operation::AllocateEntity { entity: *entity },
            Operation::Define { slot, fact } => Operation::Define {
                slot: slot.clone(),
                fact: fact.clone(),
            },
            Operation::Forget { slot } => Operation::Forget { slot: slot.clone() },
        }
    }
}

/// Copies a list of operations.
pub fn clone_operations(operations: &[Operation]) -> (result: Vec<Operation>)
    ensures
        views(result@) == views(operations@),
{
    let mut result: Vec<Operation> = Vec::new();
    let mut index: usize = 0;
    while index < operations.len()
        invariant
            index <= operations.len(),
            result.len() == index,
            forall|k: int| 0 <= k < index ==> (#[trigger] result@[k])@ == operations@[k]@,
        decreases operations.len() - index,
    {
        result.push(operations[index].clone());
        index += 1;
    }
    proof {
        assert(views(result@) =~= views(operations@));
    }
    result
}

} // verus!
