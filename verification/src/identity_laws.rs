//! What the identity of a world takes in, and how checksums and frames are laid out in bytes.

use crate::digest::{FNV_OFFSET, fnv, fnv_from, fnv_from_concat};
use crate::errors::CandidateErrorModel;
use crate::fact::{AtomModel, Literal, OperationModel};
use crate::frame::{
    FrameModel, WorldId, atom_bytes, identity_bytes, operation_bytes, operations_bytes,
    payload_bytes, text_bytes,
};
use crate::kernel::{KernelModel, replayed};
use crate::log_format::{end_magic, frame_magic, framed_bytes, log_bytes, record_bytes};
use crate::log_laws::{framed_length, framed_parts};
use crate::payload::operations_stand;
use crate::wire::{
    le32, le64, le64_facts, le64_stands, stands_at, stands_at_split, u64_at, whole_stands,
};
use crate::world::{WorldModel, candidate_of, published};
use vstd::prelude::*;
use vstd::utf8::*;

verus! {

/// The parts of an identity, by where they stand in the bytes that are digested.
proof fn identity_parts(
    parent: WorldId,
    version: u64,
    allocator: u64,
    operations: Seq<OperationModel>,
)
    ensures
        ({
            let bytes = identity_bytes(parent, version, allocator, operations);
            &&& bytes.len() >= 32
            &&& u64_at(bytes, 0) == parent.0
            &&& u64_at(bytes, 8) == version
            &&& u64_at(bytes, 16) == allocator
            &&& u64_at(bytes, 24) == operations.len() as u64
            &&& bytes.skip(32) == operations_bytes(operations)
        }),
{
    let bytes = identity_bytes(parent, version, allocator, operations);
    let count = operations.len() as u64;
    le64_facts(parent.0);
    le64_facts(version);
    le64_facts(allocator);
    le64_facts(count);
    whole_stands(bytes);
    let p1 = le64(parent.0);
    let p2 = p1 + le64(version);
    let p3 = p2 + le64(allocator);
    let p4 = p3 + le64(count);
    stands_at_split(bytes, 0, p4, operations_bytes(operations));
    stands_at_split(bytes, 0, p3, le64(count));
    stands_at_split(bytes, 0, p2, le64(allocator));
    stands_at_split(bytes, 0, p1, le64(version));
    le64_stands(bytes, 0, parent.0);
    le64_stands(bytes, 8, version);
    le64_stands(bytes, 16, allocator);
    le64_stands(bytes, 24, count);
    assert(bytes.skip(32) =~= operations_bytes(operations));
}

/// Lists of operations whose bytes are equal are equal, if they are equally long.
proof fn operations_bytes_injective(left: Seq<OperationModel>, right: Seq<OperationModel>)
    requires
        left.len() == right.len(),
        operations_bytes(left) == operations_bytes(right),
        operations_bytes(left).len() <= usize::MAX,
    ensures
        left == right,
{
    let bytes = operations_bytes(left);
    whole_stands(bytes);
    operations_stand(bytes, 0, left, bytes.len() as int);
    operations_stand(bytes, 0, right, bytes.len() as int);
}

/// Every operation takes a byte at least.
proof fn operations_take_room(operations: Seq<OperationModel>)
    ensures
        operations.len() <= operations_bytes(operations).len(),
    decreases operations.len(),
{
    if operations.len() > 0 {
        operations_take_room(operations.drop_last());
    }
}

/// The bytes that are digested for the identity of a world determine everything that led to it: the
/// identity of its parent, its version, its next entity and its operations.
pub proof fn identities_take_everything_in(
    left_parent: WorldId,
    left_version: u64,
    left_allocator: u64,
    left: Seq<OperationModel>,
    right_parent: WorldId,
    right_version: u64,
    right_allocator: u64,
    right: Seq<OperationModel>,
)
    requires
        identity_bytes(left_parent, left_version, left_allocator, left).len() <= usize::MAX,
        identity_bytes(left_parent, left_version, left_allocator, left) == identity_bytes(
            right_parent,
            right_version,
            right_allocator,
            right,
        ),
    ensures
        left_parent == right_parent,
        left_version == right_version,
        left_allocator == right_allocator,
        left == right,
{
    identity_parts(left_parent, left_version, left_allocator, left);
    identity_parts(right_parent, right_version, right_allocator, right);
    operations_take_room(left);
    operations_take_room(right);
    operations_bytes_injective(left, right);
}

/// The frame of a candidate says where it starts, where it leads and how: from the world and the
/// version that it is based on, by its operations, to the next version and the next entity behind
/// them, under the identity that digests all of that.
pub proof fn frames_tell_their_step(world: WorldModel, operations: Seq<OperationModel>)
    requires
        world.version < u64::MAX,
    ensures
        candidate_of(world, operations) matches Ok(candidate) ==> {
            let frame = candidate.frame;
            let next = published(candidate, world.history);
            let bytes = identity_bytes(
                world.id,
                frame.resulting_version,
                frame.resulting_allocator,
                operations,
            );
            &&& replayed(world.kernel, operations) == Ok::<KernelModel, CandidateErrorModel>(
                candidate.kernel,
            )
            &&& frame.operations == operations
            &&& frame.parent_world == world.id
            &&& frame.parent_version == world.version
            &&& frame.resulting_version == world.version + 1
            &&& frame.resulting_allocator == candidate.kernel.next_entity as u64
            &&& frame.resulting_world.0 == fnv(bytes)
            &&& u64_at(bytes, 0) == world.id.0
            &&& next.id == frame.resulting_world
            &&& next.version == world.version + 1
            &&& next.operation_count == world.operation_count + operations.len()
            &&& next.kernel == candidate.kernel
            &&& next.history == world.history.push(frame)
        },
        candidate_of(world, operations) matches Err(error) ==> replayed(world.kernel, operations)
            == Err::<KernelModel, CandidateErrorModel>(error),
{
    if let Ok(candidate) = candidate_of(world, operations) {
        identity_parts(
            world.id,
            candidate.frame.resulting_version,
            candidate.frame.resulting_allocator,
            operations,
        );
    }
}

/// The checksum of nothing is the offset basis of FNV-1a, and every further byte is mixed in and
/// multiplied by its prime, modulo 2^64. It can be taken piece by piece.
pub proof fn checksums_are_fnv1a(bytes: Seq<u8>, byte: u8, more: Seq<u8>)
    ensures
        fnv(Seq::<u8>::empty()) == 0xcbf2_9ce4_8422_2325u64,
        fnv(bytes.push(byte)) as int == ((fnv(bytes) ^ (byte as u64)) as int * 0x100_0000_01b3)
            % 0x1_0000_0000_0000_0000,
        fnv_from(fnv(bytes), more) == fnv(bytes + more),
        fnv_from(0xcbf2_9ce4_8422_2325u64, bytes) == fnv(bytes),
{
    assert(bytes.push(byte).drop_last() =~= bytes);
    fnv_from_concat(FNV_OFFSET, bytes, more);
    let mixed = fnv(bytes) ^ (byte as u64);
    assert(0 <= (mixed as int * 0x100_0000_01b3) % 0x1_0000_0000_0000_0000
        < 0x1_0000_0000_0000_0000) by (nonlinear_arith);
}

/// How operations are laid out: a tag, then the entity in eight bytes, or a slot and a fact, or a
/// slot; text behind its length in eight bytes; and an atom behind its own tag.
pub proof fn operations_are_tagged(
    operation: OperationModel,
    atom: AtomModel,
    text: Seq<char>,
    front: Seq<OperationModel>,
)
    ensures
        match operation {
            OperationModel::AllocateEntity { entity } => operation_bytes(operation).len() == 9
                && operation_bytes(operation)[0] == 0 && operation_bytes(operation).skip(1)
                == le64(entity),
            OperationModel::Define { slot, fact } => operation_bytes(operation)[0] == 1
                && operation_bytes(operation).skip(1) == text_bytes(slot) + atom_bytes(fact.subject)
                + text_bytes(fact.predicate) + atom_bytes(fact.object),
            OperationModel::Forget { slot } => operation_bytes(operation)[0] == 2
                && operation_bytes(operation).skip(1) == text_bytes(slot),
        },
        match atom {
            AtomModel::Entity(entity) => atom_bytes(atom)[0] == 0 && atom_bytes(atom).skip(1)
                == le64(entity),
            AtomModel::Literal(literal) => atom_bytes(atom)[0] == 1 && atom_bytes(atom).skip(1)
                == text_bytes(literal),
        },
        text_bytes(text).take(8) == le64(encode_utf8(text).len() as u64),
        text_bytes(text).skip(8) == encode_utf8(text),
        operations_bytes(front.push(operation)) == operations_bytes(front) + operation_bytes(
            operation,
        ),
        operations_bytes(Seq::<OperationModel>::empty()).len() == 0,
{
    let bytes = operation_bytes(operation);
    match operation {
        OperationModel::AllocateEntity { entity } => {
            le64_facts(entity);
            assert(bytes.skip(1) =~= le64(entity));
        },
        OperationModel::Define { slot, fact } => {
            assert(bytes.skip(1) =~= text_bytes(slot) + atom_bytes(fact.subject) + text_bytes(
                fact.predicate,
            ) + atom_bytes(fact.object));
        },
        OperationModel::Forget { slot } => {
            assert(bytes.skip(1) =~= text_bytes(slot));
        },
    }
    match atom {
        AtomModel::Entity(entity) => {
            assert(atom_bytes(atom).skip(1) =~= le64(entity));
        },
        AtomModel::Literal(literal) => {
            assert(atom_bytes(atom).skip(1) =~= text_bytes(literal));
        },
    }
    le64_facts(encode_utf8(text).len() as u64);
    assert(text_bytes(text).take(8) =~= le64(encode_utf8(text).len() as u64));
    assert(text_bytes(text).skip(8) =~= encode_utf8(text));
    assert(front.push(operation).drop_last() =~= front);
}

/// How a log is laid out: `FTHDB001`, the version and no flags; then the record of each frame.
pub proof fn logs_begin_with_their_mark(frames: Seq<FrameModel>, frame: FrameModel)
    ensures
        log_bytes(Seq::<FrameModel>::empty()) == seq![
            0x46u8, 0x54, 0x48, 0x44, 0x42, 0x30, 0x30, 0x31,
        ] + le32(1) + le32(0),
        log_bytes(frames.push(frame)) == log_bytes(frames) + record_bytes(frame),
{
    assert(log_bytes(Seq::<FrameModel>::empty()) =~= seq![
        0x46u8, 0x54, 0x48, 0x44, 0x42, 0x30, 0x30, 0x31,
    ] + le32(1) + le32(0));
    assert(frames.push(frame).drop_last() =~= frames);
    assert(log_bytes(frames.push(frame)) =~= log_bytes(frames) + record_bytes(frame));
}

/// How a record is laid out: `FRM1`, the length and the checksum of its payload, the payload, and
/// `END1`.
pub proof fn records_are_framed(frame: FrameModel)
    requires
        payload_bytes(frame).len() <= u64::MAX,
    ensures
        ({
            let record = record_bytes(frame);
            let payload = payload_bytes(frame);
            &&& record.len() == payload.len() + 24
            &&& record.take(4) == seq![0x46u8, 0x52, 0x4d, 0x31]
            &&& u64_at(record, 4) == payload.len()
            &&& u64_at(record, 12) == fnv(payload)
            &&& record.subrange(20, 20 + payload.len() as int) == payload
            &&& record.skip(20 + payload.len() as int) == seq![0x45u8, 0x4e, 0x44, 0x31]
        }),
{
    let payload = payload_bytes(frame);
    payload_is_framed(record_bytes(frame), frame_magic(), payload);
    assert(frame_magic() =~= seq![0x46u8, 0x52, 0x4d, 0x31]);
    assert(end_magic() =~= seq![0x45u8, 0x4e, 0x44, 0x31]);
}

proof fn payload_is_framed(record: Seq<u8>, magic: Seq<u8>, payload: Seq<u8>)
    requires
        magic.len() == 4,
        payload.len() <= u64::MAX,
        record == framed_bytes(magic, payload),
    ensures
        record.len() == payload.len() + 24,
        record.take(4) == magic,
        u64_at(record, 4) == payload.len(),
        u64_at(record, 12) == fnv(payload),
        record.subrange(20, 20 + payload.len() as int) == payload,
        record.skip(20 + payload.len() as int) == end_magic(),
{
    whole_stands(record);
    framed_length(magic, payload);
    framed_parts(record, 0, magic, payload);
    pieces_are_parts(record, magic, payload, fnv(payload));
}

proof fn pieces_are_parts(record: Seq<u8>, magic: Seq<u8>, payload: Seq<u8>, checksum: u64)
    requires
        magic.len() == 4,
        payload.len() <= u64::MAX,
        record.len() == payload.len() + 24,
        stands_at(record, 0, magic),
        stands_at(record, 4, le64(payload.len() as u64)),
        stands_at(record, 12, le64(checksum)),
        stands_at(record, 20, payload),
        stands_at(record, 20 + payload.len() as int, end_magic()),
    ensures
        record.take(4) == magic,
        u64_at(record, 4) == payload.len(),
        u64_at(record, 12) == checksum,
        record.subrange(20, 20 + payload.len() as int) == payload,
        record.skip(20 + payload.len() as int) == end_magic(),
{
    let length = payload.len() as int;
    le64_stands(record, 4, payload.len() as u64);
    le64_stands(record, 12, checksum);
    assert(record.take(4) =~= record.subrange(0, 4));
    assert(record.skip(20 + length) =~= record.subrange(20 + length, 24 + length));
}

/// How a payload is laid out: both worlds, both versions, the next entity, the number of operations
/// and the operations.
pub proof fn payload_parts(frame: FrameModel)
    ensures
        ({
            let payload = payload_bytes(frame);
            &&& payload.len() >= 48
            &&& u64_at(payload, 0) == frame.parent_world.0
            &&& u64_at(payload, 8) == frame.resulting_world.0
            &&& u64_at(payload, 16) == frame.parent_version
            &&& u64_at(payload, 24) == frame.resulting_version
            &&& u64_at(payload, 32) == frame.resulting_allocator
            &&& u64_at(payload, 40) == frame.operations.len() as u64
            &&& payload.skip(48) == operations_bytes(frame.operations)
        }),
{
    let bytes = payload_bytes(frame);
    let count = frame.operations.len() as u64;
    let tail = operations_bytes(frame.operations);
    le64_facts(frame.parent_world.0);
    le64_facts(frame.resulting_world.0);
    le64_facts(frame.parent_version);
    le64_facts(frame.resulting_version);
    le64_facts(frame.resulting_allocator);
    le64_facts(count);
    whole_stands(bytes);
    let p1 = le64(frame.parent_world.0);
    let p2 = p1 + le64(frame.resulting_world.0);
    let p3 = p2 + le64(frame.parent_version);
    let p4 = p3 + le64(frame.resulting_version);
    let p5 = p4 + le64(frame.resulting_allocator);
    let p6 = p5 + le64(count);
    stands_at_split(bytes, 0, p6, tail);
    stands_at_split(bytes, 0, p5, le64(count));
    stands_at_split(bytes, 0, p4, le64(frame.resulting_allocator));
    stands_at_split(bytes, 0, p3, le64(frame.resulting_version));
    stands_at_split(bytes, 0, p2, le64(frame.parent_version));
    stands_at_split(bytes, 0, p1, le64(frame.resulting_world.0));
    le64_stands(bytes, 0, frame.parent_world.0);
    le64_stands(bytes, 8, frame.resulting_world.0);
    le64_stands(bytes, 16, frame.parent_version);
    le64_stands(bytes, 24, frame.resulting_version);
    le64_stands(bytes, 32, frame.resulting_allocator);
    le64_stands(bytes, 40, count);
    assert(bytes.skip(48) =~= tail);
}

} // verus!
