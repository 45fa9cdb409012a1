//! Reading a frame payload back from its bytes.

use crate::fact::{
    Atom, AtomModel, EntityId, Fact, FactModel, Literal, Operation, OperationModel, Predicate,
    SlotId, views, views_push,
};
use crate::frame::{
    CommitFrame, FrameModel, WorldId, atom_bytes, fact_bytes, operation_bytes, operations_bytes,
    payload_bytes, text_bytes,
};
use crate::wire::{
    fixed_u64, le64, le64_facts, le64_stands, stands_at, stands_at_split, text_from_utf8, u64_at,
    utf8_error_text, utf8_round_trip,
};
use vstd::prelude::*;
use vstd::string::*;
use vstd::utf8::*;

verus! {

/// Most operations that one stored frame may hold.
pub const MAX_OPERATIONS_PER_FRAME: u64 = 1_000_000;

/// Why bytes are not a frame payload.
#[derive(Debug)]
pub enum PayloadFault {
    /// A string's length does not fit the address space.
    LengthUnsupported,
    /// A string would end beyond the address space.
    LengthOverflow,
    /// The payload ends before a value that it promises.
    UnexpectedEnd { position: usize, needed: usize, in_string: bool },
    /// A string is not UTF-8.
    InvalidText { message: String },
    UnknownOperation { tag: u8 },
    UnknownAtom { tag: u8 },
    TooManyOperations { count: u64 },
    TrailingBytes { extra: usize },
}

/// Mathematical value of a [`PayloadFault`].
pub enum PayloadFaultModel {
    LengthUnsupported,
    LengthOverflow,
    UnexpectedEnd { position: int, needed: int, in_string: bool },
    InvalidText { message: Seq<char> },
    UnknownOperation { tag: u8 },
    UnknownAtom { tag: u8 },
    TooManyOperations { count: u64 },
    TrailingBytes { extra: int },
}

impl View for PayloadFault {
    type V = PayloadFaultModel;

    open spec fn view(&self) -> PayloadFaultModel {
        match self {
            PayloadFault::LengthUnsupported => PayloadFaultModel::LengthUnsupported,
            PayloadFault::LengthOverflow => PayloadFaultModel::LengthOverflow,
            PayloadFault::UnexpectedEnd { position, needed, in_string } =>
                PayloadFaultModel::UnexpectedEnd {
                position: *position as int,
                needed: *needed as int,
                in_string: *in_string,
            },
            PayloadFault::InvalidText { message } => PayloadFaultModel::InvalidText {
                message: message@,
            },
            PayloadFault::UnknownOperation { tag } => PayloadFaultModel::UnknownOperation {
                tag: *tag,
            },
            PayloadFault::UnknownAtom { tag } => PayloadFaultModel::UnknownAtom { tag: *tag },
            PayloadFault::TooManyOperations { count } => PayloadFaultModel::TooManyOperations {
                count: *count,
            },
            PayloadFault::TrailingBytes { extra } => PayloadFaultModel::TrailingBytes {
                extra: *extra as int,
            },
        }
    }
}

/// A value and the position behind it, or why there is none.
pub type Parsed<T> = Result<(T, int), PayloadFaultModel>;

/// A read value and the position behind it agree with what the bytes hold.
pub open spec fn agrees<T: View>(
    result: Result<(T, usize), PayloadFault>,
    expected: Parsed<T::V>,
    bytes: Seq<u8>,
) -> bool {
    match (result, expected) {
        (Ok((value, next)), Ok((model, end))) => value@ == model && next == end && next
            <= bytes.len(),
        (Err(fault), Err(model)) => fault@ == model,
        _ => false,
    }
}

pub open spec fn parse_byte(bytes: Seq<u8>, at: int) -> Parsed<u8> {
    if at < bytes.len() {
        Ok((bytes[at], at + 1))
    } else {
        Err(PayloadFaultModel::UnexpectedEnd { position: at, needed: 1, in_string: false })
    }
}

pub open spec fn parse_u64(bytes: Seq<u8>, at: int) -> Parsed<u64> {
    if at + 8 <= bytes.len() {
        Ok((u64_at(bytes, at), at + 8))
    } else {
        Err(PayloadFaultModel::UnexpectedEnd { position: at, needed: 8, in_string: false })
    }
}

/// A length, then that many bytes of UTF-8.
pub open spec fn parse_text(bytes: Seq<u8>, at: int) -> Parsed<Seq<char>> {
    match parse_u64(bytes, at) {
        Err(fault) => Err(fault),
        Ok((length, start)) => if length > usize::MAX {
            Err(PayloadFaultModel::LengthUnsupported)
        } else if start + length > usize::MAX {
            Err(PayloadFaultModel::LengthOverflow)
        } else if start + length > bytes.len() {
            Err(
                PayloadFaultModel::UnexpectedEnd {
                    position: start,
                    needed: length as int,
                    in_string: true,
                },
            )
        } else {
            let piece = bytes.subrange(start, start + length);
            if valid_utf8(piece) {
                Ok((decode_utf8(piece), start + length))
            } else {
                Err(PayloadFaultModel::InvalidText { message: utf8_error_text(piece) })
            }
        },
    }
}

pub open spec fn parse_atom(bytes: Seq<u8>, at: int) -> Parsed<AtomModel> {
    match parse_byte(bytes, at) {
        Err(fault) => Err(fault),
        Ok((tag, next)) => if tag == 0 {
            match parse_u64(bytes, next) {
                Err(fault) => Err(fault),
                Ok((entity, end)) => Ok((AtomModel::Entity(entity), end)),
            }
        } else if tag == 1 {
            match parse_text(bytes, next) {
                Err(fault) => Err(fault),
                Ok((literal, end)) => Ok((AtomModel::Literal(literal), end)),
            }
        } else {
            Err(PayloadFaultModel::UnknownAtom { tag })
        },
    }
}

pub open spec fn parse_fact(bytes: Seq<u8>, at: int) -> Parsed<FactModel> {
    match parse_atom(bytes, at) {
        Err(fault) => Err(fault),
        Ok((subject, next)) => match parse_text(bytes, next) {
            Err(fault) => Err(fault),
            Ok((predicate, after)) => match parse_atom(bytes, after) {
                Err(fault) => Err(fault),
                Ok((object, end)) => Ok((FactModel { subject, predicate, object }, end)),
            },
        },
    }
}

pub open spec fn parse_operation(bytes: Seq<u8>, at: int) -> Parsed<OperationModel> {
    match parse_byte(bytes, at) {
        Err(fault) => Err(fault),
        Ok((tag, next)) => if tag == 0 {
            match parse_u64(bytes, next) {
                Err(fault) => Err(fault),
                Ok((entity, end)) => Ok((OperationModel::AllocateEntity { entity }, end)),
            }
        } else if tag == 1 {
            match parse_text(bytes, next) {
                Err(fault) => Err(fault),
                Ok((slot, after)) => match parse_fact(bytes, after) {
                    Err(fault) => Err(fault),
                    Ok((fact, end)) => Ok((OperationModel::Define { slot, fact }, end)),
                },
            }
        } else if tag == 2 {
            match parse_text(bytes, next) {
                Err(fault) => Err(fault),
                Ok((slot, end)) => Ok((OperationModel::Forget { slot }, end)),
            }
        } else {
            Err(PayloadFaultModel::UnknownOperation { tag })
        },
    }
}

/// `count` operations one after the other.
pub open spec fn parse_operations(bytes: Seq<u8>, at: int, count: nat) -> Parsed<
    Seq<OperationModel>,
>
    decreases count,
{
    if count == 0 {
        Ok((Seq::empty(), at))
    } else {
        match parse_operations(bytes, at, (count - 1) as nat) {
            Err(fault) => Err(fault),
            Ok((operations, next)) => match parse_operation(bytes, next) {
                Err(fault) => Err(fault),
                Ok((operation, end)) => Ok((operations.push(operation), end)),
            },
        }
    }
}

/// Six numbers, as many operations as the last says, and nothing behind them.
pub open spec fn parse_payload(bytes: Seq<u8>) -> Result<FrameModel, PayloadFaultModel> {
    if bytes.len() < 48 {
        Err(
            PayloadFaultModel::UnexpectedEnd {
                position: bytes.len() as int / 8 * 8,
                needed: 8,
                in_string: false,
            },
        )
    } else if u64_at(bytes, 40) > MAX_OPERATIONS_PER_FRAME {
        Err(PayloadFaultModel::TooManyOperations { count: u64_at(bytes, 40) })
    } else {
        match parse_operations(bytes, 48, u64_at(bytes, 40) as nat) {
            Err(fault) => Err(fault),
            Ok((operations, end)) => if end != bytes.len() {
                Err(PayloadFaultModel::TrailingBytes { extra: bytes.len() - end })
            } else {
                Ok(
                    FrameModel {
                        parent_world: WorldId(u64_at(bytes, 0)),
                        resulting_world: WorldId(u64_at(bytes, 8)),
                        parent_version: u64_at(bytes, 16),
                        resulting_version: u64_at(bytes, 24),
                        resulting_allocator: u64_at(bytes, 32),
                        operations,
                    },
                )
            },
        }
    }
}

/// Where parsing text succeeds, the encoding of the result stands there; and the other way round.
pub proof fn text_stands(bytes: Seq<u8>, at: int, text: Seq<char>, end: int)
    requires
        0 <= at,
        bytes.len() <= usize::MAX,
    ensures
        parse_text(bytes, at) == Ok::<(Seq<char>, int), PayloadFaultModel>((text, end)) <==> (
        stands_at(bytes, at, text_bytes(text)) && end == at + text_bytes(text).len()),
{
    let body = encode_utf8(text);
    le64_facts(body.len() as u64);
    stands_at_split(bytes, at, le64(body.len() as u64), body);
    le64_stands(bytes, at, body.len() as u64);
    utf8_round_trip(text);
    if parse_text(bytes, at) == Ok::<(Seq<char>, int), PayloadFaultModel>((text, end)) {
        let length = u64_at(bytes, at);
        let piece = bytes.subrange(at + 8, at + 8 + length);
        decode_utf8_encode_utf8(piece);
        assert(piece == body);
    }
}

pub proof fn atom_stands(bytes: Seq<u8>, at: int, atom: AtomModel, end: int)
    requires
        0 <= at,
        bytes.len() <= usize::MAX,
    ensures
        parse_atom(bytes, at) == Ok::<(AtomModel, int), PayloadFaultModel>((atom, end)) <==> (
        stands_at(bytes, at, atom_bytes(atom)) && end == at + atom_bytes(atom).len()),
{
    match atom {
        AtomModel::Entity(entity) => {
            stands_at_split(bytes, at, seq![0u8], le64(entity));
            le64_stands(bytes, at + 1, entity);
            le64_facts(entity);
            byte_stands(bytes, at, 0);
        },
        AtomModel::Literal(literal) => {
            stands_at_split(bytes, at, seq![1u8], text_bytes(literal));
            text_stands(bytes, at + 1, literal, end);
            byte_stands(bytes, at, 1);
        },
    }
}

pub proof fn byte_stands(bytes: Seq<u8>, at: int, value: u8)
    ensures
        stands_at(bytes, at, seq![value]) <==> (0 <= at < bytes.len() && bytes[at] == value),
{
    if 0 <= at < bytes.len() {
        let piece = bytes.subrange(at, at + 1);
        assert(piece[0] == bytes[at]);
        if bytes[at] == value {
            assert(piece =~= seq![value]);
        } else {
            assert(piece != seq![value]) by {
                assert(seq![value][0] == value);
            }
        }
    }
}

pub proof fn fact_stands(bytes: Seq<u8>, at: int, fact: FactModel, end: int)
    requires
        0 <= at,
        bytes.len() <= usize::MAX,
    ensures
        parse_fact(bytes, at) == Ok::<(FactModel, int), PayloadFaultModel>((fact, end)) <==> (
        stands_at(bytes, at, fact_bytes(fact)) && end == at + fact_bytes(fact).len()),
{
    let subject = atom_bytes(fact.subject);
    let predicate = text_bytes(fact.predicate);
    let object = atom_bytes(fact.object);
    stands_at_split(bytes, at, subject, predicate + object);
    stands_at_split(bytes, at + subject.len(), predicate, object);
    atom_stands(bytes, at, fact.subject, at + subject.len());
    text_stands(
        bytes,
        at + subject.len(),
        fact.predicate,
        at + subject.len() + predicate.len(),
    );
    atom_stands(bytes, at + subject.len() + predicate.len(), fact.object, end);
    if parse_fact(bytes, at) == Ok::<(FactModel, int), PayloadFaultModel>((fact, end)) {
        let next = parse_atom(bytes, at)->Ok_0.1;
        atom_stands(bytes, at, fact.subject, next);
        let after = parse_text(bytes, next)->Ok_0.1;
        text_stands(bytes, next, fact.predicate, after);
    }
}

pub proof fn operation_stands(bytes: Seq<u8>, at: int, operation: OperationModel, end: int)
    requires
        0 <= at,
        bytes.len() <= usize::MAX,
    ensures
        parse_operation(bytes, at) == Ok::<(OperationModel, int), PayloadFaultModel>(
            (operation, end),
        ) <==> (stands_at(bytes, at, operation_bytes(operation)) && end == at + operation_bytes(
            operation,
        ).len()),
{
    match operation {
        OperationModel::AllocateEntity { entity } => {
            stands_at_split(bytes, at, seq![0u8], le64(entity));
            le64_stands(bytes, at + 1, entity);
            le64_facts(entity);
            byte_stands(bytes, at, 0);
        },
        OperationModel::Define { slot, fact } => {
            let name = text_bytes(slot);
            stands_at_split(bytes, at, seq![1u8], name + fact_bytes(fact));
            stands_at_split(bytes, at + 1, name, fact_bytes(fact));
            byte_stands(bytes, at, 1);
            text_stands(bytes, at + 1, slot, at + 1 + name.len());
            fact_stands(bytes, at + 1 + name.len(), fact, end);
            if parse_operation(bytes, at) == Ok::<(OperationModel, int), PayloadFaultModel>(
                (operation, end),
            ) {
                let after = parse_text(bytes, at + 1)->Ok_0.1;
                text_stands(bytes, at + 1, slot, after);
            }
        },
        OperationModel::Forget { slot } => {
            stands_at_split(bytes, at, seq![2u8], text_bytes(slot));
            text_stands(bytes, at + 1, slot, end);
            byte_stands(bytes, at, 2);
        },
    }
}

pub proof fn operations_stand(
    bytes: Seq<u8>,
    at: int,
    operations: Seq<OperationModel>,
    end: int,
)
    requires
        0 <= at <= bytes.len(),
        bytes.len() <= usize::MAX,
    ensures
        parse_operations(bytes, at, operations.len()) == Ok::<
            (Seq<OperationModel>, int),
            PayloadFaultModel,
        >((operations, end)) <==> (stands_at(bytes, at, operations_bytes(operations)) && end == at
            + operations_bytes(operations).len()),
    decreases operations.len(),
{
    if operations.len() == 0 {
        assert(operations =~= Seq::empty());
        assert(bytes.subrange(at, at) =~= operations_bytes(operations));
    } else {
        let front = operations.drop_last();
        let last = operations.last();
        let first = operations_bytes(front);
        assert(front.push(last) =~= operations);
        operations_stand(bytes, at, front, at + first.len());
        stands_at_split(bytes, at, first, operation_bytes(last));
        operation_stands(bytes, at + first.len(), last, end);
        if parse_operations(bytes, at, operations.len()) == Ok::<
            (Seq<OperationModel>, int),
            PayloadFaultModel,
        >((operations, end)) {
            let parsed = parse_operations(bytes, at, front.len())->Ok_0;
            assert(parsed.0.push(parse_operation(bytes, parsed.1)->Ok_0.0).drop_last()
                =~= parsed.0);
            assert(parsed.0 == front);
            operations_stand(bytes, at, front, parsed.1);
        }
    }
}

/// Bytes are the payload of `frame` exactly when parsing them gives `frame`.
pub proof fn payload_parses(bytes: Seq<u8>, frame: FrameModel)
    requires
        bytes.len() <= usize::MAX,
    ensures
        parse_payload(bytes) == Ok::<FrameModel, PayloadFaultModel>(frame) <==> (bytes
            == payload_bytes(frame) && frame.operations.len() <= MAX_OPERATIONS_PER_FRAME),
{
    let count = frame.operations.len() as u64;
    let tail = operations_bytes(frame.operations);
    le64_facts(frame.parent_world.0);
    le64_facts(frame.resulting_world.0);
    le64_facts(frame.parent_version);
    le64_facts(frame.resulting_version);
    le64_facts(frame.resulting_allocator);
    le64_facts(count);
    let p1 = le64(frame.parent_world.0);
    let p2 = p1 + le64(frame.resulting_world.0);
    let p3 = p2 + le64(frame.parent_version);
    let p4 = p3 + le64(frame.resulting_version);
    let p5 = p4 + le64(frame.resulting_allocator);
    let p6 = p5 + le64(count);
    assert(payload_bytes(frame) == p6 + tail);
    stands_at_split(bytes, 0, p6, tail);
    stands_at_split(bytes, 0, p5, le64(count));
    stands_at_split(bytes, 0, p4, le64(frame.resulting_allocator));
    stands_at_split(bytes, 0, p3, le64(frame.resulting_version));
    stands_at_split(bytes, 0, p2, le64(frame.parent_version));
    stands_at_split(bytes, 0, p1, le64(frame.resulting_world.0));
    le64_stands(bytes, 0, frame.parent_world.0);
    le64_stands(bytes, 8, frame.resulting_world.0);
    le64_stands(bytes, 16, frame.parent_version);
    le64_stands(bytes, 24, frame.resulting_version);
    le64_stands(bytes, 32, frame.resulting_allocator);
    le64_stands(bytes, 40, count);
    if bytes.len() >= 48 {
        operations_stand(bytes, 48, frame.operations, bytes.len() as int);
    }
    if bytes == payload_bytes(frame) {
        assert(bytes.subrange(0, bytes.len() as int) =~= bytes);
        assert(stands_at(bytes, 0, p6 + tail));
    }
    if parse_payload(bytes) == Ok::<FrameModel, PayloadFaultModel>(frame) {
        parsed_count(bytes, 48, u64_at(bytes, 40) as nat);
        assert(stands_at(bytes, 0, p6 + tail));
        assert(bytes.subrange(0, bytes.len() as int) =~= bytes);
    }
}

proof fn parsed_count(bytes: Seq<u8>, at: int, count: nat)
    ensures
        parse_operations(bytes, at, count) matches Ok((operations, _)) ==> operations.len()
            == count,
    decreases count,
{
    if count > 0 {
        parsed_count(bytes, at, (count - 1) as nat);
    }
}

fn read_byte(bytes: &[u8], at: usize) -> (result: Result<(u8, usize), PayloadFault>)
    requires
        at <= bytes.len(),
    ensures
        agrees(result, parse_byte(bytes@, at as int), bytes@),
{
    if at < bytes.len() {
        Ok((bytes[at], at + 1))
    } else {
        Err(PayloadFault::UnexpectedEnd { position: at, needed: 1, in_string: false })
    }
}

fn read_u64(bytes: &[u8], at: usize) -> (result: Result<(u64, usize), PayloadFault>)
    requires
        at <= bytes.len(),
    ensures
        agrees(result, parse_u64(bytes@, at as int), bytes@),
{
    if bytes.len() - at >= 8 {
        Ok((fixed_u64(bytes, at), at + 8))
    } else {
        Err(PayloadFault::UnexpectedEnd { position: at, needed: 8, in_string: false })
    }
}

fn read_text(bytes: &[u8], at: usize) -> (result: Result<(String, usize), PayloadFault>)
    requires
        at <= bytes.len(),
    ensures
        agrees(result, parse_text(bytes@, at as int), bytes@),
{
    let (length, start) = read_u64(bytes, at)?;
    if length > usize::MAX as u64 {
        return Err(PayloadFault::LengthUnsupported);
    }
    let length: usize = length as usize;
    if length > usize::MAX - start {
        return Err(PayloadFault::LengthOverflow);
    }
    if length > bytes.len() - start {
        return Err(
            PayloadFault::UnexpectedEnd { position: start, needed: length, in_string: true },
        );
    }
    match text_from_utf8(vstd::slice::slice_subrange(bytes, start, start + length)) {
        Ok(text) => Ok((text, start + length)),
        Err(message) => Err(PayloadFault::InvalidText { message }),
    }
}

fn read_atom(bytes: &[u8], at: usize) -> (result: Result<(Atom, usize), PayloadFault>)
    requires
        at <= bytes.len(),
    ensures
        agrees(result, parse_atom(bytes@, at as int), bytes@),
{
    let (tag, next) = read_byte(bytes, at)?;
    if tag == 0 {
        let (entity, end) = read_u64(bytes, next)?;
        Ok((Atom::Entity(EntityId(entity)), end))
    } else if tag == 1 {
        let (literal, end) = read_text(bytes, next)?;
        Ok((Atom::Literal(Literal::from_text(literal)), end))
    } else {
        Err(PayloadFault::UnknownAtom { tag })
    }
}

fn read_fact(bytes: &[u8], at: usize) -> (result: Result<(Fact, usize), PayloadFault>)
    requires
        at <= bytes.len(),
    ensures
        agrees(result, parse_fact(bytes@, at as int), bytes@),
{
    let (subject, next) = read_atom(bytes, at)?;
    let (predicate, after) = read_text(bytes, next)?;
    let (object, end) = read_atom(bytes, after)?;
    Ok((Fact::new(subject, Predicate::from_text(predicate), object), end))
}

fn read_operation(bytes: &[u8], at: usize) -> (result: Result<(Operation, usize), PayloadFault>)
    requires
        at <= bytes.len(),
    ensures
        agrees(result, parse_operation(bytes@, at as int), bytes@),
{
    let (tag, next) = read_byte(bytes, at)?;
    if tag == 0 {
        let (entity, end) = read_u64(bytes, next)?;
        Ok((Operation::AllocateEntity { entity: EntityId(entity) }, end))
    } else if tag == 1 {
        let (slot, after) = read_text(bytes, next)?;
        let (fact, end) = read_fact(bytes, after)?;
        Ok((Operation::Define { slot: SlotId::from_text(slot), fact }, end))
    } else if tag == 2 {
        let (slot, end) = read_text(bytes, next)?;
        Ok((Operation::Forget { slot: SlotId::from_text(slot) }, end))
    } else {
        Err(PayloadFault::UnknownOperation { tag })
    }
}

/// A fault among the first operations is the fault of the whole list.
proof fn fault_persists(bytes: Seq<u8>, at: int, some: nat, count: nat)
    requires
        some <= count,
        parse_operations(bytes, at, some) is Err,
    ensures
        parse_operations(bytes, at, count) == parse_operations(bytes, at, some),
    decreases count,
{
    if some < count {
        fault_persists(bytes, at, some, (count - 1) as nat);
    }
}

/// Reads a frame payload.
pub fn decode_payload(bytes: &[u8]) -> (result: Result<CommitFrame, PayloadFault>)
    ensures
        match (result, parse_payload(bytes@)) {
            (Ok(frame), Ok(model)) => frame@ == model,
            (Err(fault), Err(model)) => fault@ == model,
            _ => false,
        },
{
    if bytes.len() < 48 {
        return Err(
            PayloadFault::UnexpectedEnd {
                position: bytes.len() / 8 * 8,
                needed: 8,
                in_string: false,
            },
        );
    }
    let count: u64 = fixed_u64(bytes, 40);
    if count > MAX_OPERATIONS_PER_FRAME {
        return Err(PayloadFault::TooManyOperations { count });
    }
    let mut operations: Vec<Operation> = Vec::new();
    let mut at: usize = 48;
    let mut index: u64 = 0;
    proof {
        assert(views(operations@) =~= Seq::empty());
    }
    while index < count
        invariant
            index <= count,
            48 <= at <= bytes.len(),
            parse_operations(bytes@, 48, index as nat) == Ok::<
                (Seq<OperationModel>, int),
                PayloadFaultModel,
            >((views(operations@), at as int)),
            count == u64_at(bytes@, 40),
            count <= MAX_OPERATIONS_PER_FRAME,
        decreases count - index,
    {
        match read_operation(bytes, at) {
            Ok((operation, next)) => {
                proof {
                    views_push(operations@, operation);
                }
                operations.push(operation);
                at = next;
                index += 1;
            },
            Err(fault) => {
                proof {
                    fault_persists(bytes@, 48, (index + 1) as nat, count as nat);
                }
                return Err(fault);
            },
        }
        proof {
            operation_moves(bytes@, 48, index as nat);
        }
    }
    if at != bytes.len() {
        return Err(PayloadFault::TrailingBytes { extra: bytes.len() - at });
    }
    Ok(
        CommitFrame::assemble(
            WorldId(fixed_u64(bytes, 0)),
            WorldId(fixed_u64(bytes, 8)),
            fixed_u64(bytes, 16),
            fixed_u64(bytes, 24),
            fixed_u64(bytes, 32),
            operations,
        ),
    )
}

proof fn operation_moves(bytes: Seq<u8>, at: int, count: nat)
    requires
        0 <= at,
    ensures
        parse_operations(bytes, at, count) matches Ok((_, end)) ==> at <= end,
    decreases count,
{
    if count > 0 {
        operation_moves(bytes, at, (count - 1) as nat);
    }
}

} // verus!
