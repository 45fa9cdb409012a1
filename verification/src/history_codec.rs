//! The commit history inside a snapshot.

use crate::cursor::{
    Taken, end_text, put_text32, short, take_text, take_u32, take_u64, take_u8, taken_text,
    taken_u32, taken_u64, taken_u8, takes, text32, text32_stands, u32_stands, u64_stands, u8_stands,
};
use crate::fact::{
    Atom, AtomModel, EntityId, Fact, FactModel, Literal, Operation, OperationModel, Predicate,
    SlotId, views, views_push,
};
use crate::frame::{CommitFrame, FrameModel, WorldId};
use crate::intent_codec::{atom32_bytes, atom_fits, fact32_bytes, fact_fits, put_fact32};
use crate::text::{decimal, labelled};
use crate::wire::{
    fixed_u64, le32, le64, put_byte, put_u32, put_u64, stands_at, stands_at_split, u32_at, u64_at,
    whole_stands,
};
use std::sync::Arc;
use vstd::prelude::*;
use vstd::string::*;

verus! {

pub open spec fn operation32_bytes(operation: OperationModel) -> Seq<u8> {
    match operation {
        OperationModel::AllocateEntity { entity } => seq![0u8] + le64(entity),
        OperationModel::Define { slot, fact } => seq![1u8] + (text32(slot) + fact32_bytes(fact)),
        OperationModel::Forget { slot } => seq![2u8] + text32(slot),
    }
}

pub open spec fn operations32_bytes(operations: Seq<OperationModel>) -> Seq<u8>
    decreases operations.len(),
{
    if operations.len() == 0 {
        Seq::empty()
    } else {
        operations32_bytes(operations.drop_last()) + operation32_bytes(operations.last())
    }
}

pub open spec fn frame32_bytes(frame: FrameModel) -> Seq<u8> {
    le64(frame.parent_world.0) + (le64(frame.resulting_world.0) + (le64(frame.parent_version) + (
    le64(frame.resulting_version) + (le64(frame.resulting_allocator) + (le32(
        frame.operations.len() as u32,
    ) + operations32_bytes(frame.operations))))))
}

pub open spec fn frames32_bytes(frames: Seq<FrameModel>) -> Seq<u8>
    decreases frames.len(),
{
    if frames.len() == 0 {
        Seq::empty()
    } else {
        frames32_bytes(frames.drop_last()) + frame32_bytes(frames.last())
    }
}

/// The frames with their count in front.
pub open spec fn history_bytes(frames: Seq<FrameModel>) -> Seq<u8> {
    le64(frames.len() as u64) + frames32_bytes(frames)
}

pub open spec fn operation_fits(operation: OperationModel) -> bool {
    match operation {
        OperationModel::AllocateEntity { .. } => true,
        OperationModel::Define { slot, fact } => short(slot) && fact_fits(fact),
        OperationModel::Forget { slot } => short(slot),
    }
}

pub open spec fn operations_fit(operations: Seq<OperationModel>) -> bool
    decreases operations.len(),
{
    operations.len() == 0 || (operations_fit(operations.drop_last()) && operation_fits(
        operations.last(),
    ))
}

pub open spec fn frame_fits(frame: FrameModel) -> bool {
    frame.operations.len() <= u32::MAX && operations_fit(frame.operations)
}

/// Every length of a history fits the format.
pub open spec fn frames_fit(frames: Seq<FrameModel>) -> bool
    decreases frames.len(),
{
    frames.len() == 0 || (frames_fit(frames.drop_last()) && frame_fits(frames.last()))
}

pub open spec fn taken_history_text(bytes: Seq<u8>, at: int) -> Taken<Seq<char>> {
    taken_text(bytes, at, "mapped history string overflow"@, "truncated mapped history string"@)
}

pub open spec fn taken_history_atom(bytes: Seq<u8>, at: int) -> Taken<AtomModel> {
    match taken_u8(bytes, at) {
        Err(message) => Err(message),
        Ok((tag, next)) => if tag == 0 {
            match taken_u64(bytes, next) {
                Err(message) => Err(message),
                Ok((entity, end)) => Ok((AtomModel::Entity(entity), end)),
            }
        } else if tag == 1 {
            match taken_history_text(bytes, next) {
                Err(message) => Err(message),
                Ok((literal, end)) => Ok((AtomModel::Literal(literal), end)),
            }
        } else {
            Err("unknown mapped history atom "@ + decimal(tag as nat))
        },
    }
}

pub open spec fn taken_history_fact(bytes: Seq<u8>, at: int) -> Taken<FactModel> {
    match taken_history_atom(bytes, at) {
        Err(message) => Err(message),
        Ok((subject, next)) => match taken_history_text(bytes, next) {
            Err(message) => Err(message),
            Ok((predicate, after)) => match taken_history_atom(bytes, after) {
                Err(message) => Err(message),
                Ok((object, end)) => Ok((FactModel { subject, predicate, object }, end)),
            },
        },
    }
}

pub open spec fn taken_history_operation(bytes: Seq<u8>, at: int) -> Taken<OperationModel> {
    match taken_u8(bytes, at) {
        Err(message) => Err(message),
        Ok((tag, next)) => if tag == 0 {
            match taken_u64(bytes, next) {
                Err(message) => Err(message),
                Ok((entity, end)) => Ok((OperationModel::AllocateEntity { entity }, end)),
            }
        } else if tag == 1 {
            match taken_history_text(bytes, next) {
                Err(message) => Err(message),
                Ok((slot, after)) => match taken_history_fact(bytes, after) {
                    Err(message) => Err(message),
                    Ok((fact, end)) => Ok((OperationModel::Define { slot, fact }, end)),
                },
            }
        } else if tag == 2 {
            match taken_history_text(bytes, next) {
                Err(message) => Err(message),
                Ok((slot, end)) => Ok((OperationModel::Forget { slot }, end)),
            }
        } else {
            Err("unknown mapped history operation "@ + decimal(tag as nat))
        },
    }
}

pub open spec fn taken_history_operations(bytes: Seq<u8>, at: int, count: nat) -> Taken<
    Seq<OperationModel>,
>
    decreases count,
{
    if count == 0 {
        Ok((Seq::empty(), at))
    } else {
        match taken_history_operations(bytes, at, (count - 1) as nat) {
            Err(message) => Err(message),
            Ok((list, next)) => match taken_history_operation(bytes, next) {
                Err(message) => Err(message),
                Ok((operation, end)) => Ok((list.push(operation), end)),
            },
        }
    }
}

/// One frame: five numbers, a count, and the operations.
#[verifier::opaque]
pub open spec fn taken_frame(bytes: Seq<u8>, at: int) -> Taken<FrameModel> {
    if at + 40 > bytes.len() {
        Err(end_text())
    } else {
        match taken_u32(bytes, at + 40) {
            Err(message) => Err(message),
            Ok((count, next)) => match taken_history_operations(bytes, next, count as nat) {
                Err(message) => Err(message),
                Ok((operations, end)) => Ok(
                    (
                        FrameModel {
                            parent_world: WorldId(u64_at(bytes, at)),
                            resulting_world: WorldId(u64_at(bytes, at + 8)),
                            parent_version: u64_at(bytes, at + 16),
                            resulting_version: u64_at(bytes, at + 24),
                            resulting_allocator: u64_at(bytes, at + 32),
                            operations,
                        },
                        end,
                    ),
                ),
            },
        }
    }
}

pub open spec fn taken_frames(bytes: Seq<u8>, at: int, count: nat) -> Taken<Seq<FrameModel>>
    decreases count,
{
    if count == 0 {
        Ok((Seq::empty(), at))
    } else {
        match taken_frames(bytes, at, (count - 1) as nat) {
            Err(message) => Err(message),
            Ok((list, next)) => match taken_frame(bytes, next) {
                Err(message) => Err(message),
                Ok((frame, end)) => Ok((list.push(frame), end)),
            },
        }
    }
}

/// Reads a whole history.
pub open spec fn taken_history(bytes: Seq<u8>) -> Result<Seq<FrameModel>, Seq<char>> {
    match taken_u64(bytes, 0) {
        Err(message) => Err(message),
        Ok((count, next)) => match taken_frames(bytes, next, count as nat) {
            Err(message) => Err(message),
            Ok((frames, end)) => if end != bytes.len() {
                Err("trailing mapped history bytes"@)
            } else {
                Ok(frames)
            },
        },
    }
}

proof fn history_text_stands(bytes: Seq<u8>, at: int, text: Seq<char>, end: int)
    requires
        0 <= at,
        bytes.len() <= usize::MAX,
    ensures
        taken_history_text(bytes, at) == Ok::<(Seq<char>, int), Seq<char>>((text, end)) <==> (short(
            text,
        ) && stands_at(bytes, at, text32(text)) && end == at + text32(text).len()),
{
    text32_stands(
        bytes,
        at,
        text,
        end,
        "mapped history string overflow"@,
        "truncated mapped history string"@,
    );
}

proof fn history_atom_stands(bytes: Seq<u8>, at: int, atom: AtomModel, end: int)
    requires
        0 <= at,
        bytes.len() <= usize::MAX,
    ensures
        taken_history_atom(bytes, at) == Ok::<(AtomModel, int), Seq<char>>((atom, end)) <==> (
        atom_fits(atom) && stands_at(bytes, at, atom32_bytes(atom)) && end == at + atom32_bytes(
            atom,
        ).len()),
{
    match atom {
        AtomModel::Entity(entity) => {
            u8_stands(bytes, at, 0, at + 1);
            u64_stands(bytes, at + 1, entity, end);
            stands_at_split(bytes, at, seq![0u8], le64(entity));
        },
        AtomModel::Literal(literal) => {
            u8_stands(bytes, at, 1, at + 1);
            history_text_stands(bytes, at + 1, literal, end);
            stands_at_split(bytes, at, seq![1u8], text32(literal));
        },
    }
}

proof fn history_fact_stands(bytes: Seq<u8>, at: int, fact: FactModel, end: int)
    requires
        0 <= at,
        bytes.len() <= usize::MAX,
    ensures
        taken_history_fact(bytes, at) == Ok::<(FactModel, int), Seq<char>>((fact, end)) <==> (
        fact_fits(fact) && stands_at(bytes, at, fact32_bytes(fact)) && end == at + fact32_bytes(
            fact,
        ).len()),
{
    let subject = atom32_bytes(fact.subject);
    let predicate = text32(fact.predicate);
    stands_at_split(bytes, at, subject, predicate + atom32_bytes(fact.object));
    stands_at_split(bytes, at + subject.len(), predicate, atom32_bytes(fact.object));
    history_atom_stands(bytes, at, fact.subject, at + subject.len());
    history_text_stands(
        bytes,
        at + subject.len(),
        fact.predicate,
        at + subject.len() + predicate.len(),
    );
    history_atom_stands(bytes, at + subject.len() + predicate.len(), fact.object, end);
    if taken_history_fact(bytes, at) == Ok::<(FactModel, int), Seq<char>>((fact, end)) {
        let next = taken_history_atom(bytes, at)->Ok_0.1;
        history_atom_stands(bytes, at, fact.subject, next);
        let after = taken_history_text(bytes, next)->Ok_0.1;
        history_text_stands(bytes, next, fact.predicate, after);
    }
}

proof fn history_operation_stands(bytes: Seq<u8>, at: int, operation: OperationModel, end: int)
    requires
        0 <= at,
        bytes.len() <= usize::MAX,
    ensures
        taken_history_operation(bytes, at) == Ok::<(OperationModel, int), Seq<char>>(
            (operation, end),
        ) <==> (operation_fits(operation) && stands_at(bytes, at, operation32_bytes(operation))
            && end == at + operation32_bytes(operation).len()),
{
    match operation {
        OperationModel::AllocateEntity { entity } => {
            u8_stands(bytes, at, 0, at + 1);
            u64_stands(bytes, at + 1, entity, end);
            stands_at_split(bytes, at, seq![0u8], le64(entity));
        },
        OperationModel::Define { slot, fact } => {
            let name = text32(slot);
            let rest = fact32_bytes(fact);
            u8_stands(bytes, at, 1, at + 1);
            stands_at_split(bytes, at, seq![1u8], name + rest);
            stands_at_split(bytes, at + 1, name, rest);
            history_text_stands(bytes, at + 1, slot, at + 1 + name.len());
            history_fact_stands(bytes, at + 1 + name.len(), fact, end);
            if taken_history_operation(bytes, at) == Ok::<(OperationModel, int), Seq<char>>(
                (operation, end),
            ) {
                let after = taken_history_text(bytes, at + 1)->Ok_0.1;
                history_text_stands(bytes, at + 1, slot, after);
            }
        },
        OperationModel::Forget { slot } => {
            u8_stands(bytes, at, 2, at + 1);
            history_text_stands(bytes, at + 1, slot, end);
            stands_at_split(bytes, at, seq![2u8], text32(slot));
        },
    }
}

proof fn history_operations_stand(
    bytes: Seq<u8>,
    at: int,
    list: Seq<OperationModel>,
    end: int,
)
    requires
        0 <= at <= bytes.len(),
        bytes.len() <= usize::MAX,
    ensures
        taken_history_operations(bytes, at, list.len()) == Ok::<
            (Seq<OperationModel>, int),
            Seq<char>,
        >((list, end)) <==> (operations_fit(list) && stands_at(
            bytes,
            at,
            operations32_bytes(list),
        ) && end == at + operations32_bytes(list).len()),
    decreases list.len(),
{
    if list.len() == 0 {
        assert(list =~= Seq::empty());
        assert(bytes.subrange(at, at) =~= operations32_bytes(list));
    } else {
        let front = list.drop_last();
        let first = operations32_bytes(front);
        assert(front.push(list.last()) =~= list);
        history_operations_stand(bytes, at, front, at + first.len());
        stands_at_split(bytes, at, first, operation32_bytes(list.last()));
        history_operation_stands(bytes, at + first.len(), list.last(), end);
        if taken_history_operations(bytes, at, list.len()) == Ok::<
            (Seq<OperationModel>, int),
            Seq<char>,
        >((list, end)) {
            let taken = taken_history_operations(bytes, at, front.len())->Ok_0;
            assert(taken.0.push(taken_history_operation(bytes, taken.1)->Ok_0.0).drop_last()
                =~= taken.0);
            history_operations_stand(bytes, at, front, taken.1);
        }
    }
}

proof fn taken_operation_count(bytes: Seq<u8>, at: int, count: nat)
    ensures
        taken_history_operations(bytes, at, count) matches Ok((list, end)) ==> list.len() == count
            && at <= end,
    decreases count,
{
    if count > 0 {
        taken_operation_count(bytes, at, (count - 1) as nat);
    }
}

proof fn frame_stands(bytes: Seq<u8>, at: int, frame: FrameModel, end: int)
    requires
        0 <= at,
        bytes.len() <= usize::MAX,
    ensures
        taken_frame(bytes, at) == Ok::<(FrameModel, int), Seq<char>>((frame, end)) <==> (frame_fits(
            frame,
        ) && stands_at(bytes, at, frame32_bytes(frame)) && end == at + frame32_bytes(frame).len()),
{
    reveal(taken_frame);
    let n = frame.operations.len() as u32;
    let body = operations32_bytes(frame.operations);
    let t5 = le32(n) + body;
    let t4 = le64(frame.resulting_allocator) + t5;
    let t3 = le64(frame.resulting_version) + t4;
    let t2 = le64(frame.parent_version) + t3;
    let t1 = le64(frame.resulting_world.0) + t2;
    assert(frame32_bytes(frame) == le64(frame.parent_world.0) + t1);
    u64_stands(bytes, at, frame.parent_world.0, at + 8);
    u64_stands(bytes, at + 8, frame.resulting_world.0, at + 16);
    u64_stands(bytes, at + 16, frame.parent_version, at + 24);
    u64_stands(bytes, at + 24, frame.resulting_version, at + 32);
    u64_stands(bytes, at + 32, frame.resulting_allocator, at + 40);
    u32_stands(bytes, at + 40, n, at + 44);
    stands_at_split(bytes, at, le64(frame.parent_world.0), t1);
    stands_at_split(bytes, at + 8, le64(frame.resulting_world.0), t2);
    stands_at_split(bytes, at + 16, le64(frame.parent_version), t3);
    stands_at_split(bytes, at + 24, le64(frame.resulting_version), t4);
    stands_at_split(bytes, at + 32, le64(frame.resulting_allocator), t5);
    stands_at_split(bytes, at + 40, le32(n), body);
    if at + 44 <= bytes.len() {
        history_operations_stand(bytes, at + 44, frame.operations, end);
        taken_operation_count(bytes, at + 44, u32_at(bytes, at + 40) as nat);
    }
}

proof fn frames_stand(bytes: Seq<u8>, at: int, list: Seq<FrameModel>, end: int)
    requires
        0 <= at <= bytes.len(),
        bytes.len() <= usize::MAX,
    ensures
        taken_frames(bytes, at, list.len()) == Ok::<(Seq<FrameModel>, int), Seq<char>>((list, end))
            <==> (frames_fit(list) && stands_at(bytes, at, frames32_bytes(list)) && end == at
            + frames32_bytes(list).len()),
    decreases list.len(),
{
    if list.len() == 0 {
        assert(list =~= Seq::empty());
        assert(bytes.subrange(at, at) =~= frames32_bytes(list));
    } else {
        let front = list.drop_last();
        let first = frames32_bytes(front);
        assert(front.push(list.last()) =~= list);
        frames_stand(bytes, at, front, at + first.len());
        stands_at_split(bytes, at, first, frame32_bytes(list.last()));
        frame_stands(bytes, at + first.len(), list.last(), end);
        if taken_frames(bytes, at, list.len()) == Ok::<(Seq<FrameModel>, int), Seq<char>>(
            (list, end),
        ) {
            let taken = taken_frames(bytes, at, front.len())->Ok_0;
            assert(taken.0.push(taken_frame(bytes, taken.1)->Ok_0.0).drop_last() =~= taken.0);
            frames_stand(bytes, at, front, taken.1);
        }
    }
}

proof fn taken_frame_count(bytes: Seq<u8>, at: int, count: nat)
    ensures
        taken_frames(bytes, at, count) matches Ok((list, _)) ==> list.len() == count,
    decreases count,
{
    if count > 0 {
        taken_frame_count(bytes, at, (count - 1) as nat);
    }
}

/// Bytes hold a history exactly when reading them gives it.
pub proof fn history_reads(bytes: Seq<u8>, frames: Seq<FrameModel>)
    requires
        bytes.len() <= usize::MAX,
        frames.len() <= u64::MAX,
    ensures
        taken_history(bytes) == Ok::<Seq<FrameModel>, Seq<char>>(frames) <==> (bytes
            == history_bytes(frames) && frames_fit(frames)),
{
    let n = frames.len() as u64;
    let rest = frames32_bytes(frames);
    u64_stands(bytes, 0, n, 8);
    stands_at_split(bytes, 0, le64(n), rest);
    if bytes.len() >= 8 {
        frames_stand(bytes, 8, frames, bytes.len() as int);
        taken_frame_count(bytes, 8, u64_at(bytes, 0) as nat);
    }
    if bytes == history_bytes(frames) {
        whole_stands(bytes);
    }
    if taken_history(bytes) == Ok::<Seq<FrameModel>, Seq<char>>(frames) {
        assert(stands_at(bytes, 0, history_bytes(frames)));
        whole_stands(bytes);
    }
}

/// Why an operation cannot be put into a snapshot.
pub open spec fn operation_fit_fault(operation: OperationModel) -> Option<Seq<char>> {
    if operation_fits(operation) {
        None
    } else {
        Some("snapshot string too long"@)
    }
}

pub open spec fn operations_fit_fault(operations: Seq<OperationModel>) -> Option<Seq<char>>
    decreases operations.len(),
{
    if operations.len() == 0 {
        None
    } else {
        match operations_fit_fault(operations.drop_last()) {
            Some(message) => Some(message),
            None => operation_fit_fault(operations.last()),
        }
    }
}

pub open spec fn frame_fit_fault(frame: FrameModel) -> Option<Seq<char>> {
    if frame.operations.len() > u32::MAX {
        Some("snapshot frame has too many operations"@)
    } else {
        operations_fit_fault(frame.operations)
    }
}

/// The first frame that cannot be put into a snapshot.
pub open spec fn frames_fit_fault(frames: Seq<FrameModel>) -> Option<Seq<char>>
    decreases frames.len(),
{
    if frames.len() == 0 {
        None
    } else {
        match frames_fit_fault(frames.drop_last()) {
            Some(message) => Some(message),
            None => frame_fit_fault(frames.last()),
        }
    }
}

proof fn operations_without_fault_fit(operations: Seq<OperationModel>)
    ensures
        operations_fit_fault(operations) is None <==> operations_fit(operations),
    decreases operations.len(),
{
    if operations.len() > 0 {
        operations_without_fault_fit(operations.drop_last());
    }
}

/// A history without a fault fits.
pub proof fn frames_without_fault_fit(frames: Seq<FrameModel>)
    ensures
        frames_fit_fault(frames) is None <==> frames_fit(frames),
    decreases frames.len(),
{
    if frames.len() > 0 {
        frames_without_fault_fit(frames.drop_last());
        operations_without_fault_fit(frames.last().operations);
    }
}

fn short_text(text: &str) -> (result: bool)
    ensures
        result == short(text@),
{
    text.as_bytes().len() as u64 <= u32::MAX as u64
}

fn short_atom(atom: &Atom) -> (result: bool)
    ensures
        result == atom_fits(atom@),
{
    match atom {
        Atom::Entity(_) => true,
        Atom::Literal(literal) => short_text(literal.as_str()),
    }
}

fn put_history_operation(out: &mut Vec<u8>, operation: &Operation) -> (result: Result<(), String>)
    ensures
        match operation_fit_fault(operation@) {
            None => result is Ok && final(out)@ == old(out)@ + operation32_bytes(operation@),
            Some(fault) => result matches Err(message) && message@ == fault,
        },
{
    match operation {
        Operation::AllocateEntity { entity } => {
            put_byte(out, 0);
            put_u64(out, entity.0);
        },
        Operation::Define { slot, fact } => {
            if !short_text(slot.as_str()) || !short_atom(&fact.subject) || !short_text(
                fact.predicate.as_str(),
            ) || !short_atom(&fact.object) {
                return Err("snapshot string too long".to_owned());
            }
            put_byte(out, 1);
            put_text32(out, slot.as_str());
            put_fact32(out, fact);
        },
        Operation::Forget { slot } => {
            if !short_text(slot.as_str()) {
                return Err("snapshot string too long".to_owned());
            }
            put_byte(out, 2);
            put_text32(out, slot.as_str());
        },
    }
    proof {
        assert(out@ =~= old(out)@ + operation32_bytes(operation@));
    }
    Ok(())
}

proof fn operation_fit_fault_stays(operations: Seq<OperationModel>, count: int)
    requires
        0 <= count <= operations.len(),
        operations_fit_fault(operations.take(count)) is Some,
    ensures
        operations_fit_fault(operations) == operations_fit_fault(operations.take(count)),
    decreases operations.len(),
{
    if count == operations.len() {
        assert(operations.take(count) =~= operations);
    } else {
        assert(operations.drop_last().take(count) =~= operations.take(count));
        operation_fit_fault_stays(operations.drop_last(), count);
    }
}

proof fn frame_fit_fault_stays(frames: Seq<FrameModel>, count: int)
    requires
        0 <= count <= frames.len(),
        frames_fit_fault(frames.take(count)) is Some,
    ensures
        frames_fit_fault(frames) == frames_fit_fault(frames.take(count)),
    decreases frames.len(),
{
    if count == frames.len() {
        assert(frames.take(count) =~= frames);
    } else {
        assert(frames.drop_last().take(count) =~= frames.take(count));
        frame_fit_fault_stays(frames.drop_last(), count);
    }
}

fn put_history_frame(out: &mut Vec<u8>, frame: &CommitFrame) -> (result: Result<(), String>)
    ensures
        match frame_fit_fault(frame@) {
            None => result is Ok && final(out)@ == old(out)@ + frame32_bytes(frame@),
            Some(fault) => result matches Err(message) && message@ == fault,
        },
{
    put_u64(out, frame.parent_world().0);
    put_u64(out, frame.resulting_world().0);
    put_u64(out, frame.parent_version());
    put_u64(out, frame.resulting_version());
    put_u64(out, frame.resulting_allocator());
    let operations = frame.operations();
    let ghost models = frame@.operations;
    proof {
        assert(operations.len() == views(operations@).len());
    }
    if operations.len() as u64 > u32::MAX as u64 {
        return Err("snapshot frame has too many operations".to_owned());
    }
    put_u32(out, operations.len() as u32);
    let ghost head = out@;
    let mut index: usize = 0;
    proof {
        assert(models.take(0) =~= Seq::empty());
        assert(out@ =~= head + operations32_bytes(models.take(0)));
    }
    while index < operations.len()
        invariant
            index <= operations.len(),
            models == views(operations@),
            models == frame@.operations,
            models.len() <= u32::MAX,
            operations_fit_fault(models.take(index as int)) is None,
            out@ == head + operations32_bytes(models.take(index as int)),
        decreases operations.len() - index,
    {
        proof {
            assert(models.take(index + 1).drop_last() =~= models.take(index as int));
            assert(models.take(index + 1).last() == operations@[index as int]@);
            if operations_fit_fault(models.take(index + 1)) is Some {
                operation_fit_fault_stays(models, index + 1);
            }
        }
        put_history_operation(out, &operations[index])?;
        index += 1;
        proof {
            assert(out@ =~= head + operations32_bytes(models.take(index as int)));
        }
    }
    proof {
        assert(models.take(index as int) =~= models);
        assert(out@ =~= old(out)@ + frame32_bytes(frame@));
    }
    Ok(())
}

/// Encodes a history for a snapshot.
pub fn encode_frames(frames: &[Arc<CommitFrame>]) -> (result: Result<Vec<u8>, String>)
    ensures
        match frames_fit_fault(views(frames@)) {
            None => result matches Ok(bytes) && bytes@ == history_bytes(views(frames@)),
            Some(fault) => result matches Err(message) && message@ == fault,
        },
{
    let ghost models = views(frames@);
    let mut out: Vec<u8> = Vec::new();
    put_u64(&mut out, frames.len() as u64);
    let ghost head = out@;
    let mut index: usize = 0;
    proof {
        assert(models.take(0) =~= Seq::empty());
        assert(out@ =~= head + frames32_bytes(models.take(0)));
    }
    while index < frames.len()
        invariant
            index <= frames.len(),
            models == views(frames@),
            frames_fit_fault(models.take(index as int)) is None,
            out@ == head + frames32_bytes(models.take(index as int)),
        decreases frames.len() - index,
    {
        proof {
            assert(models.take(index + 1).drop_last() =~= models.take(index as int));
            assert(models.take(index + 1).last() == frames@[index as int]@);
            if frames_fit_fault(models.take(index + 1)) is Some {
                frame_fit_fault_stays(models, index + 1);
            }
        }
        put_history_frame(&mut out, &frames[index])?;
        index += 1;
        proof {
            assert(out@ =~= head + frames32_bytes(models.take(index as int)));
        }
    }
    proof {
        assert(models.take(index as int) =~= models);
        assert(out@ =~= history_bytes(models));
    }
    Ok(out)
}

fn take_history_text(bytes: &[u8], at: usize) -> (result: Result<(String, usize), String>)
    requires
        at <= bytes.len(),
    ensures
        takes(result, taken_history_text(bytes@, at as int), bytes@),
{
    take_text(bytes, at, "mapped history string overflow", "truncated mapped history string")
}

fn take_history_atom(bytes: &[u8], at: usize) -> (result: Result<(Atom, usize), String>)
    requires
        at <= bytes.len(),
    ensures
        takes(result, taken_history_atom(bytes@, at as int), bytes@),
{
    let (tag, next) = take_u8(bytes, at)?;
    if tag == 0 {
        let (entity, end) = take_u64(bytes, next)?;
        Ok((Atom::Entity(EntityId(entity)), end))
    } else if tag == 1 {
        let (literal, end) = take_history_text(bytes, next)?;
        Ok((Atom::Literal(Literal::from_text(literal)), end))
    } else {
        Err(labelled("unknown mapped history atom ", tag as u64))
    }
}

fn take_history_fact(bytes: &[u8], at: usize) -> (result: Result<(Fact, usize), String>)
    requires
        at <= bytes.len(),
    ensures
        takes(result, taken_history_fact(bytes@, at as int), bytes@),
{
    let (subject, next) = take_history_atom(bytes, at)?;
    let (predicate, after) = take_history_text(bytes, next)?;
    let (object, end) = take_history_atom(bytes, after)?;
    Ok((Fact::new(subject, Predicate::from_text(predicate), object), end))
}

fn take_history_operation(bytes: &[u8], at: usize) -> (result: Result<(Operation, usize), String>)
    requires
        at <= bytes.len(),
    ensures
        takes(result, taken_history_operation(bytes@, at as int), bytes@),
{
    let (tag, next) = take_u8(bytes, at)?;
    if tag == 0 {
        let (entity, end) = take_u64(bytes, next)?;
        Ok((Operation::AllocateEntity { entity: EntityId(entity) }, end))
    } else if tag == 1 {
        let (slot, after) = take_history_text(bytes, next)?;
        let (fact, end) = take_history_fact(bytes, after)?;
        Ok((Operation::Define { slot: SlotId::from_text(slot), fact }, end))
    } else if tag == 2 {
        let (slot, end) = take_history_text(bytes, next)?;
        Ok((Operation::Forget { slot: SlotId::from_text(slot) }, end))
    } else {
        Err(labelled("unknown mapped history operation ", tag as u64))
    }
}

proof fn taken_operation_fault_stays(bytes: Seq<u8>, at: int, some: nat, count: nat)
    requires
        some <= count,
        taken_history_operations(bytes, at, some) is Err,
    ensures
        taken_history_operations(bytes, at, count) == taken_history_operations(bytes, at, some),
    decreases count,
{
    if some < count {
        taken_operation_fault_stays(bytes, at, some, (count - 1) as nat);
    }
}

proof fn taken_frame_fault_stays(bytes: Seq<u8>, at: int, some: nat, count: nat)
    requires
        some <= count,
        taken_frames(bytes, at, some) is Err,
    ensures
        taken_frames(bytes, at, count) == taken_frames(bytes, at, some),
    decreases count,
{
    if some < count {
        taken_frame_fault_stays(bytes, at, some, (count - 1) as nat);
    }
}

fn take_history_operations(bytes: &[u8], at: usize, count: u32) -> (result: Result<
    (Vec<Operation>, usize),
    String,
>)
    requires
        at <= bytes.len(),
    ensures
        match (result, taken_history_operations(bytes@, at as int, count as nat)) {
            (Ok((list, next)), Ok((models, end))) => views(list@) == models && next == end && next
                <= bytes.len(),
            (Err(message), Err(model)) => message@ == model,
            _ => false,
        },
{
    let mut list: Vec<Operation> = Vec::new();
    let mut next: usize = at;
    let mut index: u32 = 0;
    proof {
        assert(views(list@) =~= Seq::empty());
    }
    while index < count
        invariant
            index <= count,
            next <= bytes.len(),
            taken_history_operations(bytes@, at as int, index as nat) == Ok::<
                (Seq<OperationModel>, int),
                Seq<char>,
            >((views(list@), next as int)),
        decreases count - index,
    {
        match take_history_operation(bytes, next) {
            Ok((operation, end)) => {
                proof {
                    views_push(list@, operation);
                }
                list.push(operation);
                next = end;
            },
            Err(message) => {
                proof {
                    taken_operation_fault_stays(
                        bytes@,
                        at as int,
                        (index + 1) as nat,
                        count as nat,
                    );
                }
                return Err(message);
            },
        }
        index += 1;
    }
    Ok((list, next))
}

fn take_frame(bytes: &[u8], at: usize) -> (result: Result<(CommitFrame, usize), String>)
    requires
        at <= bytes.len(),
    ensures
        takes(result, taken_frame(bytes@, at as int), bytes@),
        result matches Ok((_, next)) ==> at < next,
{
    proof {
        reveal(taken_frame);
    }
    if bytes.len() - at < 40 {
        return Err("failed to fill whole buffer".to_owned());
    }
    let (count, next) = take_u32(bytes, at + 40)?;
    let (operations, end) = take_history_operations(bytes, next, count)?;
    proof {
        taken_operation_count(bytes@, next as int, count as nat);
    }
    Ok(
        (
            CommitFrame::assemble(
                WorldId(fixed_u64(bytes, at)),
                WorldId(fixed_u64(bytes, at + 8)),
                fixed_u64(bytes, at + 16),
                fixed_u64(bytes, at + 24),
                fixed_u64(bytes, at + 32),
                operations,
            ),
            end,
        ),
    )
}

/// Reads the history of a snapshot.
pub fn decode_frames(bytes: &[u8]) -> (result: Result<Vec<Arc<CommitFrame>>, String>)
    ensures
        match (result, taken_history(bytes@)) {
            (Ok(frames), Ok(models)) => views(frames@) == models,
            (Err(message), Err(model)) => message@ == model,
            _ => false,
        },
{
    let (count, start) = take_u64(bytes, 0)?;
    let mut frames: Vec<Arc<CommitFrame>> = Vec::new();
    let mut next: usize = start;
    let mut index: u64 = 0;
    proof {
        assert(views(frames@) =~= Seq::empty());
    }
    while index < count
        invariant
            index <= count,
            next <= bytes.len(),
            taken_u64(bytes@, 0) == Ok::<(u64, int), Seq<char>>((count, start as int)),
            taken_frames(bytes@, start as int, index as nat) == Ok::<
                (Seq<FrameModel>, int),
                Seq<char>,
            >((views(frames@), next as int)),
        decreases count - index,
    {
        match take_frame(bytes, next) {
            Ok((frame, end)) => {
                let shared = Arc::new(frame);
                proof {
                    views_push(frames@, shared);
                }
                frames.push(shared);
                next = end;
            },
            Err(message) => {
                proof {
                    taken_frame_fault_stays(
                        bytes@,
                        start as int,
                        (index + 1) as nat,
                        count as nat,
                    );
                }
                return Err(message);
            },
        }
        index += 1;
    }
    if next != bytes.len() {
        return Err("trailing mapped history bytes".to_owned());
    }
    Ok(frames)
}

} // verus!
