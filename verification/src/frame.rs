//! Commit frames and the identity of the worlds that they lead to.

use crate::digest::{FNV_OFFSET, digest, fnv};
use crate::fact::{Atom, AtomModel, FactModel, Literal, Operation, OperationModel, views};
use crate::text::{hex_digits, push_hex};
use crate::wire::{le64, put_byte, put_bytes, put_u64};
use std::sync::Arc;
use vstd::prelude::*;
use vstd::string::*;
use vstd::utf8::*;

verus! {

/// Identity of a committed world: a digest of the history that leads to it.
#[derive(Clone, Copy, Debug, PartialEq, Eq, PartialOrd, Ord, Hash, Structural)]
pub struct WorldId(pub u64);

/// How a world identity reads in messages.
pub open spec fn world_text(world: WorldId) -> Seq<char> {
    "World_"@ + hex_digits(world.0 as nat, 16)
}

impl WorldId {
    pub fn new(value: u64) -> (result: Self)
        ensures
            result == WorldId(value),
    {
        WorldId(value)
    }

    /// The world before every commit.
    pub fn genesis() -> (result: Self)
        ensures
            result == WorldId(FNV_OFFSET),
    {
        WorldId(FNV_OFFSET)
    }

    pub fn value(self) -> (result: u64)
        ensures
            result == self.0,
    {
        self.0
    }

    /// `World_` and sixteen hexadecimal digits.
    pub fn describe(self) -> (result: String)
        ensures
            result@ == world_text(self),
    {
        let mut out = "World_".to_owned();
        push_hex(&mut out, self.0, 16);
        out
    }
}

/// One committed step from a parent world to its successor.
#[derive(Debug, PartialEq, Eq)]
pub struct CommitFrame {
    pub(crate) parent_world: WorldId,
    pub(crate) resulting_world: WorldId,
    pub(crate) parent_version: u64,
    pub(crate) resulting_version: u64,
    pub(crate) resulting_allocator: u64,
    pub(crate) operations: Vec<Operation>,
}

/// Mathematical value of a [`CommitFrame`].
pub struct FrameModel {
    pub parent_world: WorldId,
    pub resulting_world: WorldId,
    pub parent_version: u64,
    pub resulting_version: u64,
    pub resulting_allocator: u64,
    pub operations: Seq<OperationModel>,
}

impl View for CommitFrame {
    type V = FrameModel;

    closed spec fn view(&self) -> FrameModel {
        FrameModel {
            parent_world: self.parent_world,
            resulting_world: self.resulting_world,
            parent_version: self.parent_version,
            resulting_version: self.resulting_version,
            resulting_allocator: self.resulting_allocator,
            operations: views(self.operations@),
        }
    }
}

impl CommitFrame {
    pub(crate) fn assemble(
        parent_world: WorldId,
        resulting_world: WorldId,
        parent_version: u64,
        resulting_version: u64,
        resulting_allocator: u64,
        operations: Vec<Operation>,
    ) -> (result: Self)
        ensures
            result@ == (FrameModel {
                parent_world,
                resulting_world,
                parent_version,
                resulting_version,
                resulting_allocator,
                operations: views(operations@),
            }),
    {
        CommitFrame {
            parent_world,
            resulting_world,
            parent_version,
            resulting_version,
            resulting_allocator,
            operations,
        }
    }

    pub fn parent_world(&self) -> (result: WorldId)
        ensures
            result == self@.parent_world,
    {
        self.parent_world
    }

    pub fn resulting_world(&self) -> (result: WorldId)
        ensures
            result == self@.resulting_world,
    {
        self.resulting_world
    }

    pub fn parent_version(&self) -> (result: u64)
        ensures
            result == self@.parent_version,
    {
        self.parent_version
    }

    pub fn resulting_version(&self) -> (result: u64)
        ensures
            result == self@.resulting_version,
    {
        self.resulting_version
    }

    pub fn resulting_allocator(&self) -> (result: u64)
        ensures
            result == self@.resulting_allocator,
    {
        self.resulting_allocator
    }

    pub fn operations(&self) -> (result: &[Operation])
        ensures
            views(result@) == self@.operations,
    {
        self.operations.as_slice()
    }
}

/// `Arc::clone`: one more handle to the same value.
#[verifier::external_body]
pub(crate) fn share<T>(value: &Arc<T>) -> (result: Arc<T>)
    ensures
        result == *value,
{
    value.clone()
}

/// Shares every element of a list.
pub(crate) fn share_all<T>(values: &[Arc<T>]) -> (result: Vec<Arc<T>>)
    ensures
        result@ == values@,
{
    let mut result: Vec<Arc<T>> = Vec::new();
    let mut index: usize = 0;
    while index < values.len()
        invariant
            index <= values.len(),
            result@ == values@.take(index as int),
        decreases values.len() - index,
    {
        result.push(share(&values[index]));
        index += 1;
        proof {
            assert(values@.take(index as int) =~= values@.take(index - 1).push(values@[index - 1]));
        }
    }
    proof {
        assert(values@.take(index as int) =~= values@);
    }
    result
}

/// A string with its byte length in front.
pub open spec fn text_bytes(text: Seq<char>) -> Seq<u8> {
    le64(encode_utf8(text).len() as u64) + encode_utf8(text)
}

pub open spec fn atom_bytes(atom: AtomModel) -> Seq<u8> {
    match atom {
        AtomModel::Entity(entity) => seq![0u8] + le64(entity),
        AtomModel::Literal(literal) => seq![1u8] + text_bytes(literal),
    }
}

pub open spec fn fact_bytes(fact: FactModel) -> Seq<u8> {
    atom_bytes(fact.subject) + (text_bytes(fact.predicate) + atom_bytes(fact.object))
}

pub open spec fn operation_bytes(operation: OperationModel) -> Seq<u8> {
    match operation {
        OperationModel::AllocateEntity { entity } => seq![0u8] + le64(entity),
        OperationModel::Define { slot, fact } => seq![1u8] + (text_bytes(slot) + fact_bytes(fact)),
        OperationModel::Forget { slot } => seq![2u8] + text_bytes(slot),
    }
}

/// The operations one after the other, without their count.
pub open spec fn operations_bytes(operations: Seq<OperationModel>) -> Seq<u8>
    decreases operations.len(),
{
    if operations.len() == 0 {
        Seq::empty()
    } else {
        operations_bytes(operations.drop_last()) + operation_bytes(operations.last())
    }
}

/// The bytes whose digest is the identity of a successor world.
pub open spec fn identity_bytes(
    parent: WorldId,
    resulting_version: u64,
    resulting_allocator: u64,
    operations: Seq<OperationModel>,
) -> Seq<u8> {
    le64(parent.0) + le64(resulting_version) + le64(resulting_allocator) + le64(
        operations.len() as u64,
    ) + operations_bytes(operations)
}

/// The identity of the world that `operations` lead to.
pub open spec fn successor_id(
    parent: WorldId,
    resulting_version: u64,
    resulting_allocator: u64,
    operations: Seq<OperationModel>,
) -> WorldId {
    WorldId(fnv(identity_bytes(parent, resulting_version, resulting_allocator, operations)))
}

/// The payload of a frame record.
pub open spec fn payload_bytes(frame: FrameModel) -> Seq<u8> {
    le64(frame.parent_world.0) + le64(frame.resulting_world.0) + le64(frame.parent_version) + le64(
        frame.resulting_version,
    ) + le64(frame.resulting_allocator) + le64(frame.operations.len() as u64) + operations_bytes(
        frame.operations,
    )
}

fn put_text(out: &mut Vec<u8>, text: &str)
    ensures
        final(out)@ == old(out)@ + text_bytes(text@),
{
    let bytes = text.as_bytes();
    put_u64(out, bytes.len() as u64);
    put_bytes(out, bytes);
    proof {
        assert(out@ =~= old(out)@ + text_bytes(text@));
    }
}

fn put_atom(out: &mut Vec<u8>, atom: &Atom)
    ensures
        final(out)@ == old(out)@ + atom_bytes(atom@),
{
    match atom {
        Atom::Entity(entity) => {
            put_byte(out, 0);
            put_u64(out, entity.0);
        },
        Atom::Literal(literal) => {
            put_byte(out, 1);
            put_text(out, literal.as_str());
        },
    }
    proof {
        assert(out@ =~= old(out)@ + atom_bytes(atom@));
    }
}

fn put_operation(out: &mut Vec<u8>, operation: &Operation)
    ensures
        final(out)@ == old(out)@ + operation_bytes(operation@),
{
    match operation {
        Operation::AllocateEntity { entity } => {
            put_byte(out, 0);
            put_u64(out, entity.0);
        },
        Operation::Define { slot, fact } => {
            put_byte(out, 1);
            put_text(out, slot.as_str());
            put_atom(out, &fact.subject);
            put_text(out, fact.predicate.as_str());
            put_atom(out, &fact.object);
        },
        Operation::Forget { slot } => {
            put_byte(out, 2);
            put_text(out, slot.as_str());
        },
    }
    proof {
        assert(out@ =~= old(out)@ + operation_bytes(operation@));
    }
}

fn put_operations(out: &mut Vec<u8>, operations: &[Operation])
    ensures
        final(out)@ == old(out)@ + operations_bytes(views(operations@)),
{
    let mut index: usize = 0;
    proof {
        assert(views(operations@).take(0) =~= Seq::empty());
        assert(out@ =~= old(out)@ + operations_bytes(views(operations@).take(0)));
    }
    while index < operations.len()
        invariant
            index <= operations.len(),
            out@ == old(out)@ + operations_bytes(views(operations@).take(index as int)),
        decreases operations.len() - index,
    {
        put_operation(out, &operations[index]);
        index += 1;
        proof {
            let done = views(operations@).take(index as int);
            assert(done.drop_last() =~= views(operations@).take(index - 1));
            assert(out@ =~= old(out)@ + operations_bytes(done));
        }
    }
    proof {
        assert(views(operations@).take(index as int) =~= views(operations@));
    }
}

/// The identity of the world that `operations` lead to from `parent`.
pub fn calculate_world_id(
    parent: WorldId,
    resulting_version: u64,
    resulting_allocator: u64,
    operations: &[Operation],
) -> (result: WorldId)
    ensures
        result == successor_id(
            parent,
            resulting_version,
            resulting_allocator,
            views(operations@),
        ),
{
    let mut out: Vec<u8> = Vec::new();
    put_u64(&mut out, parent.0);
    put_u64(&mut out, resulting_version);
    put_u64(&mut out, resulting_allocator);
    put_u64(&mut out, operations.len() as u64);
    put_operations(&mut out, operations);
    proof {
        assert(out@ =~= identity_bytes(
            parent,
            resulting_version,
            resulting_allocator,
            views(operations@),
        ));
    }
    WorldId(digest(out.as_slice()))
}

/// Encodes the payload of a frame record.
pub fn encode_payload(frame: &CommitFrame) -> (result: Vec<u8>)
    ensures
        result@ == payload_bytes(frame@),
{
    let mut out: Vec<u8> = Vec::new();
    put_u64(&mut out, frame.parent_world.0);
    put_u64(&mut out, frame.resulting_world.0);
    put_u64(&mut out, frame.parent_version);
    put_u64(&mut out, frame.resulting_version);
    put_u64(&mut out, frame.resulting_allocator);
    put_u64(&mut out, frame.operations.len() as u64);
    put_operations(&mut out, frame.operations.as_slice());
    proof {
        assert(out@ =~= payload_bytes(frame@));
    }
    out
}

} // verus!
