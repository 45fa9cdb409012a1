//! Frames of instruction streams: a dictionary and a program, as bytes.

use crate::cursor::{
    Taken, end_text, put_text32, short, take_text, take_u32, take_u64, take_u8, taken_text,
    taken_u32, taken_u64, taken_u8, takes, text32, text32_stands, u32_stands, u64_stands, u8_stands,
};
use crate::fact::{Literal, Predicate, SlotId, views};
use crate::log_format::four_at;
use crate::text::{decimal, joined, labelled, push_decimal};
use crate::vm::{Instruction, Opcode};
use crate::wire::{
    concat_assoc, le32, le32_facts, le64, put_byte, put_bytes, put_u32, put_u64, stands_at,
    stands_at_split,
};
use vstd::prelude::*;
use vstd::string::*;

verus! {

pub const SEMANTIC_ISA_VERSION_1: u32 = 1;

/// `SISA`
pub open spec fn stream_magic() -> Seq<u8> {
    seq![0x53u8, 0x49, 0x53, 0x41]
}

/// A slot of a stream and its token.
#[derive(Debug)]
pub struct SlotEntry {
    pub token: u32,
    pub slot: SlotId,
}

/// A predicate of a stream and its cell.
#[derive(Debug)]
pub struct PredicateEntry {
    pub cell: u64,
    pub predicate: Predicate,
}

/// A literal of a stream and its cell.
#[derive(Debug)]
pub struct LiteralEntry {
    pub cell: u64,
    pub literal: Literal,
}

/// A number and the name behind it.
pub struct NameModel {
    pub number: u64,
    pub name: Seq<char>,
}

impl View for SlotEntry {
    type V = NameModel;

    open spec fn view(&self) -> NameModel {
        NameModel { number: self.token as u64, name: self.slot@ }
    }
}

impl View for PredicateEntry {
    type V = NameModel;

    open spec fn view(&self) -> NameModel {
        NameModel { number: self.cell, name: self.predicate@ }
    }
}

impl View for LiteralEntry {
    type V = NameModel;

    open spec fn view(&self) -> NameModel {
        NameModel { number: self.cell, name: self.literal@ }
    }
}

/// An entry of a dictionary: a number, which is narrow or wide, and the name behind it.
pub(crate) trait DictionaryEntry: View<V = NameModel> + Sized {
    spec fn wide() -> bool;

    fn has_wide_numbers() -> (result: bool)
        ensures
            result == Self::wide(),
    ;

    fn number(&self) -> (result: u64)
        ensures
            result == self@.number,
            !Self::wide() ==> result <= u32::MAX,
    ;

    fn name(&self) -> (result: &str)
        ensures
            result@ == self@.name,
    ;

    fn entry(number: u64, name: String) -> (result: Self)
        requires
            !Self::wide() ==> number <= u32::MAX,
        ensures
            result@ == (NameModel { number, name: name@ }),
    ;
}

impl DictionaryEntry for SlotEntry {
    open spec fn wide() -> bool {
        false
    }

    fn has_wide_numbers() -> bool {
        false
    }

    fn number(&self) -> u64 {
        self.token as u64
    }

    fn name(&self) -> &str {
        self.slot.as_str()
    }

    fn entry(number: u64, name: String) -> Self {
        SlotEntry { token: number as u32, slot: SlotId::from_text(name) }
    }
}

impl DictionaryEntry for PredicateEntry {
    open spec fn wide() -> bool {
        true
    }

    fn has_wide_numbers() -> bool {
        true
    }

    fn number(&self) -> u64 {
        self.cell
    }

    fn name(&self) -> &str {
        self.predicate.as_str()
    }

    fn entry(number: u64, name: String) -> Self {
        PredicateEntry { cell: number, predicate: Predicate::from_text(name) }
    }
}

impl DictionaryEntry for LiteralEntry {
    open spec fn wide() -> bool {
        true
    }

    fn has_wide_numbers() -> bool {
        true
    }

    fn number(&self) -> u64 {
        self.cell
    }

    fn name(&self) -> &str {
        self.literal.as_str()
    }

    fn entry(number: u64, name: String) -> Self {
        LiteralEntry { cell: number, literal: Literal::from_text(name) }
    }
}

/// What the tokens and cells of a program stand for.
#[derive(Debug)]
pub struct StreamDictionary {
    pub slots: Vec<SlotEntry>,
    pub predicates: Vec<PredicateEntry>,
    pub literals: Vec<LiteralEntry>,
}

pub struct DictionaryModel {
    pub slots: Seq<NameModel>,
    pub predicates: Seq<NameModel>,
    pub literals: Seq<NameModel>,
}

impl View for StreamDictionary {
    type V = DictionaryModel;

    open spec fn view(&self) -> DictionaryModel {
        DictionaryModel {
            slots: views(self.slots@),
            predicates: views(self.predicates@),
            literals: views(self.literals@),
        }
    }
}

impl StreamDictionary {
    pub fn new() -> (result: Self)
        ensures
            result@ == (DictionaryModel {
                slots: Seq::empty(),
                predicates: Seq::empty(),
                literals: Seq::empty(),
            }),
    {
        let result = StreamDictionary {
            slots: Vec::new(),
            predicates: Vec::new(),
            literals: Vec::new(),
        };
        proof {
            assert(result@.slots =~= Seq::empty());
            assert(result@.predicates =~= Seq::empty());
            assert(result@.literals =~= Seq::empty());
        }
        result
    }
}

/// A program with its dictionary.
#[derive(Debug)]
pub struct InstructionStreamFrame {
    pub version: u32,
    pub namespace: u64,
    pub dictionary: StreamDictionary,
    pub local_count: u32,
    pub instructions: Vec<Instruction>,
}

pub struct StreamModel {
    pub version: u32,
    pub namespace: u64,
    pub dictionary: DictionaryModel,
    pub local_count: u32,
    pub instructions: Seq<Instruction>,
}

impl View for InstructionStreamFrame {
    type V = StreamModel;

    open spec fn view(&self) -> StreamModel {
        StreamModel {
            version: self.version,
            namespace: self.namespace,
            dictionary: self.dictionary@,
            local_count: self.local_count,
            instructions: self.instructions@,
        }
    }
}

impl InstructionStreamFrame {
    pub fn new(
        namespace: u64,
        dictionary: StreamDictionary,
        local_count: u32,
        instructions: Vec<Instruction>,
    ) -> (result: Self)
        ensures
            result@ == (StreamModel {
                version: SEMANTIC_ISA_VERSION_1,
                namespace,
                dictionary: dictionary@,
                local_count,
                instructions: instructions@,
            }),
    {
        InstructionStreamFrame {
            version: SEMANTIC_ISA_VERSION_1,
            namespace,
            dictionary,
            local_count,
            instructions,
        }
    }

    pub fn instructions(&self) -> (result: &[Instruction])
        ensures
            result@ == self@.instructions,
    {
        self.instructions.as_slice()
    }

    pub fn local_count(&self) -> (result: u32)
        ensures
            result == self@.local_count,
    {
        self.local_count
    }
}

/// The number of an opcode in a stream.
pub open spec fn opcode_byte(opcode: Opcode) -> u8 {
    match opcode {
        Opcode::PushCell => 0,
        Opcode::LoadLocal => 1,
        Opcode::StoreLocal => 2,
        Opcode::Allocate => 3,
        Opcode::AllocateDiscard => 4,
        Opcode::Define => 5,
        Opcode::Forget => 6,
        Opcode::ExpectObject => 7,
        Opcode::Reject => 8,
    }
}

/// The opcode of a number.
pub open spec fn opcode_of(byte: u8) -> Option<Opcode> {
    if byte == 0 {
        Some(Opcode::PushCell)
    } else if byte == 1 {
        Some(Opcode::LoadLocal)
    } else if byte == 2 {
        Some(Opcode::StoreLocal)
    } else if byte == 3 {
        Some(Opcode::Allocate)
    } else if byte == 4 {
        Some(Opcode::AllocateDiscard)
    } else if byte == 5 {
        Some(Opcode::Define)
    } else if byte == 6 {
        Some(Opcode::Forget)
    } else if byte == 7 {
        Some(Opcode::ExpectObject)
    } else if byte == 8 {
        Some(Opcode::Reject)
    } else {
        None
    }
}

/// Numbers and opcodes stand for each other.
pub proof fn opcodes_are_numbered(opcode: Opcode)
    ensures
        opcode_of(opcode_byte(opcode)) == Some(opcode),
{
}

impl Opcode {
    pub fn to_u8(self) -> (result: u8)
        ensures
            result == opcode_byte(self),
    {
        match self {
            Opcode::PushCell => 0,
            Opcode::LoadLocal => 1,
            Opcode::StoreLocal => 2,
            Opcode::Allocate => 3,
            Opcode::AllocateDiscard => 4,
            Opcode::Define => 5,
            Opcode::Forget => 6,
            Opcode::ExpectObject => 7,
            Opcode::Reject => 8,
        }
    }

    pub fn from_u8(byte: u8) -> (result: Result<Self, String>)
        ensures
            match (result, opcode_of(byte)) {
                (Ok(opcode), Some(expected)) => opcode == expected,
                (Err(message), None) => message@ == "unknown opcode "@ + decimal(byte as nat),
                _ => false,
            },
    {
        match byte {
            0 => Ok(Opcode::PushCell),
            1 => Ok(Opcode::LoadLocal),
            2 => Ok(Opcode::StoreLocal),
            3 => Ok(Opcode::Allocate),
            4 => Ok(Opcode::AllocateDiscard),
            5 => Ok(Opcode::Define),
            6 => Ok(Opcode::Forget),
            7 => Ok(Opcode::ExpectObject),
            8 => Ok(Opcode::Reject),
            _ => Err(labelled("unknown opcode ", byte as u64)),
        }
    }
}

pub open spec fn instruction_bytes(instruction: Instruction) -> Seq<u8> {
    seq![opcode_byte(instruction.opcode)] + (le32(instruction.argument) + le64(
        instruction.immediate,
    ))
}

pub open spec fn instructions_bytes(instructions: Seq<Instruction>) -> Seq<u8>
    decreases instructions.len(),
{
    if instructions.len() == 0 {
        Seq::empty()
    } else {
        instructions_bytes(instructions.drop_last()) + instruction_bytes(instructions.last())
    }
}

/// A name behind its number, which is narrow or wide.
pub open spec fn name_bytes(entry: NameModel, wide: bool) -> Seq<u8> {
    if wide {
        le64(entry.number) + text32(entry.name)
    } else {
        le32(entry.number as u32) + text32(entry.name)
    }
}

pub open spec fn names_bytes(entries: Seq<NameModel>, wide: bool) -> Seq<u8>
    decreases entries.len(),
{
    if entries.len() == 0 {
        Seq::empty()
    } else {
        names_bytes(entries.drop_last(), wide) + name_bytes(entries.last(), wide)
    }
}

pub open spec fn stream_body(frame: StreamModel) -> Seq<u8> {
    le32(frame.local_count) + (le32(frame.instructions.len() as u32) + instructions_bytes(
        frame.instructions,
    ))
}

pub open spec fn dictionary_part(entries: Seq<NameModel>, wide: bool) -> Seq<u8> {
    le32(entries.len() as u32) + names_bytes(entries, wide)
}

/// The bytes of a frame.
pub open spec fn stream_bytes(frame: StreamModel) -> Seq<u8> {
    stream_magic() + (le32(frame.version) + (le64(frame.namespace) + (dictionary_part(
        frame.dictionary.slots,
        false,
    ) + (dictionary_part(frame.dictionary.predicates, true) + (dictionary_part(
        frame.dictionary.literals,
        true,
    ) + stream_body(frame))))))
}

/// A message with a label.
pub open spec fn prefixed<T>(taken: Taken<T>, label: Seq<char>) -> Taken<T> {
    match taken {
        Ok(value) => Ok(value),
        Err(message) => Err(label + message),
    }
}

pub open spec fn stream_u8(bytes: Seq<u8>, at: int) -> Taken<u8> {
    prefixed(taken_u8(bytes, at), "read_u8 failed: "@)
}

pub open spec fn stream_u32(bytes: Seq<u8>, at: int) -> Taken<u32> {
    prefixed(taken_u32(bytes, at), "read_u32 failed: "@)
}

pub open spec fn stream_u64(bytes: Seq<u8>, at: int) -> Taken<u64> {
    prefixed(taken_u64(bytes, at), "read_u64 failed: "@)
}

pub open spec fn stream_text(bytes: Seq<u8>, at: int) -> Taken<Seq<char>> {
    if at + 4 > bytes.len() {
        Err("read_u32 failed: "@ + end_text())
    } else {
        taken_text(bytes, at, "string length overflow"@, "truncated string in stream"@)
    }
}

pub open spec fn taken_name(bytes: Seq<u8>, at: int, wide: bool) -> Taken<NameModel> {
    let number = if wide {
        stream_u64(bytes, at)
    } else {
        match stream_u32(bytes, at) {
            Ok((number, next)) => Ok((number as u64, next)),
            Err(message) => Err(message),
        }
    };
    match number {
        Err(message) => Err(message),
        Ok((number, next)) => match stream_text(bytes, next) {
            Err(message) => Err(message),
            Ok((name, end)) => Ok((NameModel { number, name }, end)),
        },
    }
}

pub open spec fn taken_stream_names(bytes: Seq<u8>, at: int, count: nat, wide: bool) -> Taken<
    Seq<NameModel>,
>
    decreases count,
{
    if count == 0 {
        Ok((Seq::empty(), at))
    } else {
        match taken_stream_names(bytes, at, (count - 1) as nat, wide) {
            Err(message) => Err(message),
            Ok((list, next)) => match taken_name(bytes, next, wide) {
                Err(message) => Err(message),
                Ok((entry, end)) => Ok((list.push(entry), end)),
            },
        }
    }
}

pub open spec fn taken_dictionary_part(bytes: Seq<u8>, at: int, wide: bool) -> Taken<
    Seq<NameModel>,
> {
    match stream_u32(bytes, at) {
        Err(message) => Err(message),
        Ok((count, next)) => taken_stream_names(bytes, next, count as nat, wide),
    }
}

pub open spec fn taken_instruction(bytes: Seq<u8>, at: int) -> Taken<Instruction> {
    match stream_u8(bytes, at) {
        Err(message) => Err(message),
        Ok((byte, next)) => match stream_u32(bytes, next) {
            Err(message) => Err(message),
            Ok((argument, after)) => match stream_u64(bytes, after) {
                Err(message) => Err(message),
                Ok((immediate, end)) => match opcode_of(byte) {
                    None => Err("unknown opcode "@ + decimal(byte as nat)),
                    Some(opcode) => Ok((Instruction { opcode, argument, immediate }, end)),
                },
            },
        },
    }
}

pub open spec fn taken_instructions(bytes: Seq<u8>, at: int, count: nat) -> Taken<
    Seq<Instruction>,
>
    decreases count,
{
    if count == 0 {
        Ok((Seq::empty(), at))
    } else {
        match taken_instructions(bytes, at, (count - 1) as nat) {
            Err(message) => Err(message),
            Ok((list, next)) => match taken_instruction(bytes, next) {
                Err(message) => Err(message),
                Ok((instruction, end)) => Ok((list.push(instruction), end)),
            },
        }
    }
}

/// Four bytes as a list of numbers.
pub open spec fn bytes_text(bytes: Seq<u8>) -> Seq<char> {
    "["@ + decimal(bytes[0] as nat) + ", "@ + decimal(bytes[1] as nat) + ", "@ + decimal(
        bytes[2] as nat,
    ) + ", "@ + decimal(bytes[3] as nat) + "]"@
}

/// Reads the program of a frame.
pub open spec fn taken_body(
    bytes: Seq<u8>,
    at: int,
    namespace: u64,
    dictionary: DictionaryModel,
) -> Taken<StreamModel> {
    match stream_u32(bytes, at) {
        Err(message) => Err(message),
        Ok((local_count, next)) => match stream_u32(bytes, next) {
            Err(message) => Err(message),
            Ok((count, after)) => match taken_instructions(bytes, after, count as nat) {
                Err(message) => Err(message),
                Ok((instructions, end)) => Ok(
                    (
                        StreamModel {
                            version: SEMANTIC_ISA_VERSION_1,
                            namespace,
                            dictionary,
                            local_count,
                            instructions,
                        },
                        end,
                    ),
                ),
            },
        },
    }
}

/// Reads the dictionary of a frame.
pub open spec fn taken_dictionary(bytes: Seq<u8>, at: int) -> Taken<DictionaryModel> {
    match taken_dictionary_part(bytes, at, false) {
        Err(message) => Err(message),
        Ok((slots, next)) => match taken_dictionary_part(bytes, next, true) {
            Err(message) => Err(message),
            Ok((predicates, after)) => match taken_dictionary_part(bytes, after, true) {
                Err(message) => Err(message),
                Ok((literals, end)) => Ok((DictionaryModel { slots, predicates, literals }, end)),
            },
        },
    }
}

/// Reads a frame.
pub open spec fn taken_stream(bytes: Seq<u8>, at: int) -> Taken<StreamModel> {
    if at + 4 > bytes.len() {
        Err("failed to read stream magic: "@ + end_text())
    } else if bytes.subrange(at, at + 4) != stream_magic() {
        Err("invalid instruction stream magic "@ + bytes_text(bytes.subrange(at, at + 4)))
    } else {
        match stream_u32(bytes, at + 4) {
            Err(message) => Err(message),
            Ok((version, next)) => if version != SEMANTIC_ISA_VERSION_1 {
                Err("unsupported semantic ISA version "@ + decimal(version as nat))
            } else {
                match stream_u64(bytes, next) {
                    Err(message) => Err(message),
                    Ok((namespace, after)) => match taken_dictionary(bytes, after) {
                        Err(message) => Err(message),
                        Ok((dictionary, end)) => taken_body(bytes, end, namespace, dictionary),
                    },
                }
            },
        }
    }
}

/// The names of a dictionary can be written.
pub open spec fn names_fit(entries: Seq<NameModel>, wide: bool) -> bool {
    &&& entries.len() <= u32::MAX
    &&& forall|i: int|
        0 <= i < entries.len() ==> short((#[trigger] entries[i]).name) && (!wide
            ==> entries[i].number <= u32::MAX)
}

/// A frame can be written.
pub open spec fn stream_fits(frame: StreamModel) -> bool {
    &&& frame.version == SEMANTIC_ISA_VERSION_1
    &&& names_fit(frame.dictionary.slots, false)
    &&& names_fit(frame.dictionary.predicates, true)
    &&& names_fit(frame.dictionary.literals, true)
    &&& frame.instructions.len() <= u32::MAX
}

proof fn name_reads(bytes: Seq<u8>, at: int, entry: NameModel, wide: bool)
    requires
        0 <= at,
        bytes.len() <= usize::MAX,
        stands_at(bytes, at, name_bytes(entry, wide)),
        short(entry.name),
        !wide ==> entry.number <= u32::MAX,
    ensures
        taken_name(bytes, at, wide) == Ok::<(NameModel, int), Seq<char>>(
            (entry, at + name_bytes(entry, wide).len()),
        ),
{
    let text = text32(entry.name);
    if wide {
        stands_at_split(bytes, at, le64(entry.number), text);
        u64_stands(bytes, at, entry.number, at + 8);
        text32_stands(
            bytes,
            at + 8,
            entry.name,
            at + 8 + text.len(),
            "string length overflow"@,
            "truncated string in stream"@,
        );
        le32_facts(vstd::utf8::encode_utf8(entry.name).len() as u32);
    } else {
        stands_at_split(bytes, at, le32(entry.number as u32), text);
        u32_stands(bytes, at, entry.number as u32, at + 4);
        text32_stands(
            bytes,
            at + 4,
            entry.name,
            at + 4 + text.len(),
            "string length overflow"@,
            "truncated string in stream"@,
        );
        le32_facts(vstd::utf8::encode_utf8(entry.name).len() as u32);
    }
}

proof fn names_read(bytes: Seq<u8>, at: int, entries: Seq<NameModel>, wide: bool)
    requires
        0 <= at,
        bytes.len() <= usize::MAX,
        stands_at(bytes, at, names_bytes(entries, wide)),
        names_fit(entries, wide),
    ensures
        taken_stream_names(bytes, at, entries.len(), wide) == Ok::<
            (Seq<NameModel>, int),
            Seq<char>,
        >((entries, at + names_bytes(entries, wide).len())),
    decreases entries.len(),
{
    if entries.len() > 0 {
        let front = entries.drop_last();
        stands_at_split(
            bytes,
            at,
            names_bytes(front, wide),
            name_bytes(entries.last(), wide),
        );
        assert forall|i: int| 0 <= i < front.len() implies short((#[trigger] front[i]).name) && (
        !wide ==> front[i].number <= u32::MAX) by {
            assert(front[i] == entries[i]);
        }
        names_read(bytes, at, front, wide);
        assert(entries[entries.len() - 1] == entries.last());
        name_reads(bytes, at + names_bytes(front, wide).len(), entries.last(), wide);
        assert(front.push(entries.last()) =~= entries);
    } else {
        assert(entries =~= Seq::empty());
    }
}

proof fn part_reads(bytes: Seq<u8>, at: int, entries: Seq<NameModel>, wide: bool)
    requires
        0 <= at,
        bytes.len() <= usize::MAX,
        stands_at(bytes, at, dictionary_part(entries, wide)),
        names_fit(entries, wide),
    ensures
        taken_dictionary_part(bytes, at, wide) == Ok::<(Seq<NameModel>, int), Seq<char>>(
            (entries, at + dictionary_part(entries, wide).len()),
        ),
{
    stands_at_split(bytes, at, le32(entries.len() as u32), names_bytes(entries, wide));
    u32_stands(bytes, at, entries.len() as u32, at + 4);
    names_read(bytes, at + 4, entries, wide);
}

proof fn instructions_read(bytes: Seq<u8>, at: int, instructions: Seq<Instruction>)
    requires
        0 <= at,
        stands_at(bytes, at, instructions_bytes(instructions)),
    ensures
        taken_instructions(bytes, at, instructions.len()) == Ok::<
            (Seq<Instruction>, int),
            Seq<char>,
        >((instructions, at + instructions_bytes(instructions).len())),
    decreases instructions.len(),
{
    if instructions.len() > 0 {
        let front = instructions.drop_last();
        let last = instructions.last();
        stands_at_split(bytes, at, instructions_bytes(front), instruction_bytes(last));
        instructions_read(bytes, at, front);
        let place = at + instructions_bytes(front).len();
        let tail = le32(last.argument) + le64(last.immediate);
        stands_at_split(bytes, place, seq![opcode_byte(last.opcode)], tail);
        u8_stands(bytes, place, opcode_byte(last.opcode), place + 1);
        u32_stands(bytes, place + 1, last.argument, place + 5);
        stands_at_split(bytes, place + 1, le32(last.argument), le64(last.immediate));
        u64_stands(bytes, place + 5, last.immediate, place + 13);
        opcodes_are_numbered(last.opcode);
        assert(front.push(last) =~= instructions);
    } else {
        assert(instructions =~= Seq::empty());
    }
}

/// A frame that was written is read back.
pub proof fn written_stream_reads_back(bytes: Seq<u8>, at: int, frame: StreamModel)
    requires
        0 <= at,
        bytes.len() <= usize::MAX,
        stream_fits(frame),
        stands_at(bytes, at, stream_bytes(frame)),
    ensures
        taken_stream(bytes, at) == Ok::<(StreamModel, int), Seq<char>>(
            (frame, at + stream_bytes(frame).len()),
        ),
{
    let body = stream_body(frame);
    let literals = dictionary_part(frame.dictionary.literals, true);
    let predicates = dictionary_part(frame.dictionary.predicates, true);
    let slots = dictionary_part(frame.dictionary.slots, false);
    let d = literals + body;
    let c = predicates + d;
    let b = slots + c;
    let a = le64(frame.namespace) + b;
    stands_at_split(bytes, at, stream_magic(), le32(frame.version) + a);
    stands_at_split(bytes, at + 4, le32(frame.version), a);
    u32_stands(bytes, at + 4, frame.version, at + 8);
    stands_at_split(bytes, at + 8, le64(frame.namespace), b);
    u64_stands(bytes, at + 8, frame.namespace, at + 16);
    let p1 = at + 16;
    stands_at_split(bytes, p1, slots, c);
    part_reads(bytes, p1, frame.dictionary.slots, false);
    let p2 = p1 + slots.len();
    stands_at_split(bytes, p2, predicates, d);
    part_reads(bytes, p2, frame.dictionary.predicates, true);
    let p3 = p2 + predicates.len();
    stands_at_split(bytes, p3, literals, body);
    part_reads(bytes, p3, frame.dictionary.literals, true);
    let p4 = p3 + literals.len();
    let program = instructions_bytes(frame.instructions);
    stands_at_split(
        bytes,
        p4,
        le32(frame.local_count),
        le32(frame.instructions.len() as u32) + program,
    );
    u32_stands(bytes, p4, frame.local_count, p4 + 4);
    stands_at_split(bytes, p4 + 4, le32(frame.instructions.len() as u32), program);
    u32_stands(bytes, p4 + 4, frame.instructions.len() as u32, p4 + 8);
    instructions_read(bytes, p4 + 8, frame.instructions);
}

/// Puts how many entries there are, then each number and its name.
fn put_names<T: DictionaryEntry>(out: &mut Vec<u8>, entries: &Vec<T>)
    ensures
        final(out)@ == old(out)@ + dictionary_part(views(entries@), T::wide()),
{
    let ghost models = views(entries@);
    let ghost start = out@;
    put_u32(out, entries.len() as u32);
    let ghost head = out@;
    let wide = T::has_wide_numbers();
    let mut index: usize = 0;
    proof {
        assert(models.take(0) =~= Seq::empty());
        assert(out@ =~= head + names_bytes(models.take(0), wide));
    }
    while index < entries.len()
        invariant
            index <= entries.len(),
            wide == T::wide(),
            models == views(entries@),
            out@ == head + names_bytes(models.take(index as int), wide),
        decreases entries.len() - index,
    {
        if wide {
            put_u64(out, entries[index].number());
        } else {
            put_u32(out, entries[index].number() as u32);
        }
        put_text32(out, entries[index].name());
        proof {
            assert(models.take(index + 1).drop_last() =~= models.take(index as int));
            assert(models.take(index + 1).last() == entries@[index as int]@);
            assert(out@ =~= head + names_bytes(models.take(index + 1), wide));
        }
        index += 1;
    }
    proof {
        assert(models.take(index as int) =~= models);
        assert(out@ =~= start + dictionary_part(models, wide));
    }
}

fn put_instructions(out: &mut Vec<u8>, instructions: &Vec<Instruction>)
    ensures
        final(out)@ == old(out)@ + instructions_bytes(instructions@),
{
    let ghost start = out@;
    let mut index: usize = 0;
    proof {
        assert(instructions@.take(0) =~= Seq::empty());
        assert(out@ =~= start + instructions_bytes(instructions@.take(0)));
    }
    while index < instructions.len()
        invariant
            index <= instructions.len(),
            out@ == start + instructions_bytes(instructions@.take(index as int)),
        decreases instructions.len() - index,
    {
        let instruction = instructions[index];
        put_byte(out, instruction.opcode.to_u8());
        put_u32(out, instruction.argument);
        put_u64(out, instruction.immediate);
        proof {
            assert(instructions@.take(index + 1).drop_last() =~= instructions@.take(index as int));
            assert(instructions@.take(index + 1).last() == instruction);
            assert(out@ =~= start + instructions_bytes(instructions@.take(index + 1)));
        }
        index += 1;
    }
    proof {
        assert(instructions@.take(index as int) =~= instructions@);
    }
}

/// Encodes a frame.
pub fn encode_instruction_stream_frame(frame: &InstructionStreamFrame, output: &mut Vec<u8>)
    ensures
        final(output)@ == old(output)@ + stream_bytes(frame@),
{
    let ghost start = output@;
    put_bytes(output, &[0x53u8, 0x49, 0x53, 0x41]);
    put_u32(output, frame.version);
    put_u64(output, frame.namespace);
    put_names(output, &frame.dictionary.slots);
    put_names(output, &frame.dictionary.predicates);
    put_names(output, &frame.dictionary.literals);
    put_u32(output, frame.local_count);
    put_u32(output, frame.instructions.len() as u32);
    put_instructions(output, &frame.instructions);
    proof {
        assert([0x53u8, 0x49, 0x53, 0x41]@ =~= stream_magic());
        let model = frame@;
        let program = instructions_bytes(model.instructions);
        let count = le32(model.instructions.len() as u32);
        let literals = dictionary_part(model.dictionary.literals, true);
        let predicates = dictionary_part(model.dictionary.predicates, true);
        let slots = dictionary_part(model.dictionary.slots, false);
        let body = stream_body(model);
        let d = literals + body;
        let c = predicates + d;
        let b = slots + c;
        let a = le64(model.namespace) + b;
        let s1 = start + stream_magic();
        let s2 = s1 + le32(model.version);
        let s3 = s2 + le64(model.namespace);
        let s4 = s3 + slots;
        let s5 = s4 + predicates;
        let s6 = s5 + literals;
        let s7 = s6 + le32(model.local_count);
        concat_assoc(s7, count, program);
        concat_assoc(s6, le32(model.local_count), count + program);
        concat_assoc(s5, literals, body);
        concat_assoc(s4, predicates, d);
        concat_assoc(s3, slots, c);
        concat_assoc(s2, le64(model.namespace), b);
        concat_assoc(s1, le32(model.version), a);
        concat_assoc(start, stream_magic(), le32(model.version) + a);
    }
}

fn take_stream_u8(bytes: &[u8], at: usize) -> (result: Result<(u8, usize), String>)
    requires
        at <= bytes.len(),
    ensures
        takes(result, stream_u8(bytes@, at as int), bytes@),
{
    match take_u8(bytes, at) {
        Ok(taken) => Ok(taken),
        Err(message) => Err(joined("read_u8 failed: ", message.as_str())),
    }
}

fn take_stream_u32(bytes: &[u8], at: usize) -> (result: Result<(u32, usize), String>)
    requires
        at <= bytes.len(),
    ensures
        takes(result, stream_u32(bytes@, at as int), bytes@),
{
    match take_u32(bytes, at) {
        Ok(taken) => Ok(taken),
        Err(message) => Err(joined("read_u32 failed: ", message.as_str())),
    }
}

fn take_stream_u64(bytes: &[u8], at: usize) -> (result: Result<(u64, usize), String>)
    requires
        at <= bytes.len(),
    ensures
        takes(result, stream_u64(bytes@, at as int), bytes@),
{
    match take_u64(bytes, at) {
        Ok(taken) => Ok(taken),
        Err(message) => Err(joined("read_u64 failed: ", message.as_str())),
    }
}

fn take_stream_text(bytes: &[u8], at: usize) -> (result: Result<(String, usize), String>)
    requires
        at <= bytes.len(),
    ensures
        takes(result, stream_text(bytes@, at as int), bytes@),
{
    if bytes.len() - at < 4 {
        return Err(joined("read_u32 failed: ", "failed to fill whole buffer"));
    }
    take_text(bytes, at, "string length overflow", "truncated string in stream")
}

/// A list was read, or why not.
pub open spec fn takes_list<T: View>(
    result: Result<(Vec<T>, usize), String>,
    expected: Taken<Seq<T::V>>,
    bytes: Seq<u8>,
) -> bool {
    match (result, expected) {
        (Ok((list, next)), Ok((models, end))) => views(list@) == models && next == end && next
            <= bytes.len(),
        (Err(message), Err(model)) => message@ == model,
        _ => false,
    }
}

proof fn stream_name_fault_stays(bytes: Seq<u8>, at: int, some: nat, count: nat, wide: bool)
    requires
        some <= count,
        taken_stream_names(bytes, at, some, wide) is Err,
    ensures
        taken_stream_names(bytes, at, count, wide) == taken_stream_names(bytes, at, some, wide),
    decreases count,
{
    if some < count {
        stream_name_fault_stays(bytes, at, some, (count - 1) as nat, wide);
    }
}

proof fn instruction_fault_stays(bytes: Seq<u8>, at: int, some: nat, count: nat)
    requires
        some <= count,
        taken_instructions(bytes, at, some) is Err,
    ensures
        taken_instructions(bytes, at, count) == taken_instructions(bytes, at, some),
    decreases count,
{
    if some < count {
        instruction_fault_stays(bytes, at, some, (count - 1) as nat);
    }
}

/// Reads a number of the width that the entries of a list have.
fn take_number(bytes: &[u8], at: usize, wide: bool) -> (result: Result<(u64, usize), String>)
    requires
        at <= bytes.len(),
    ensures
        wide ==> takes(result, stream_u64(bytes@, at as int), bytes@),
        !wide ==> match (result, stream_u32(bytes@, at as int)) {
            (Ok((number, next)), Ok((model, end))) => number == model && next == end && next
                <= bytes.len(),
            (Err(message), Err(model)) => message@ == model,
            _ => false,
        },
{
    if wide {
        return take_stream_u64(bytes, at);
    }
    let (number, next) = take_stream_u32(bytes, at)?;
    Ok((number as u64, next))
}

/// Reads how many entries there are, then each number and its name.
fn take_names<T: DictionaryEntry>(bytes: &[u8], at: usize) -> (result: Result<
    (Vec<T>, usize),
    String,
>)
    requires
        at <= bytes.len(),
    ensures
        takes_list(result, taken_dictionary_part(bytes@, at as int, T::wide()), bytes@),
{
    let (count, start) = take_stream_u32(bytes, at)?;
    let wide = T::has_wide_numbers();
    let mut entries: Vec<T> = Vec::new();
    let mut next: usize = start;
    let mut index: u32 = 0;
    proof {
        assert(views(entries@) =~= Seq::empty());
    }
    while index < count
        invariant
            index <= count,
            next <= bytes.len(),
            start <= bytes.len(),
            wide == T::wide(),
            taken_stream_names(bytes@, start as int, index as nat, wide) == Ok::<
                (Seq<NameModel>, int),
                Seq<char>,
            >((views(entries@), next as int)),
            taken_dictionary_part(bytes@, at as int, wide) == taken_stream_names(
                bytes@,
                start as int,
                count as nat,
                wide,
            ),
        decreases count - index,
    {
        proof {
            if taken_name(bytes@, next as int, wide) is Err {
                stream_name_fault_stays(
                    bytes@,
                    start as int,
                    (index + 1) as nat,
                    count as nat,
                    wide,
                );
            }
        }
        let (number, after) = take_number(bytes, next, wide)?;
        let (text, end) = take_stream_text(bytes, after)?;
        let entry = T::entry(number, text);
        let ghost before = entries@;
        entries.push(entry);
        proof {
            assert(views(entries@) =~= views(before).push(entry@));
        }
        next = end;
        index += 1;
    }
    Ok((entries, next))
}

fn take_instruction(bytes: &[u8], at: usize) -> (result: Result<(Instruction, usize), String>)
    requires
        at <= bytes.len(),
    ensures
        match (result, taken_instruction(bytes@, at as int)) {
            (Ok((instruction, next)), Ok((model, end))) => instruction == model && next == end
                && next <= bytes.len(),
            (Err(message), Err(model)) => message@ == model,
            _ => false,
        },
{
    let (byte, next) = take_stream_u8(bytes, at)?;
    let (argument, after) = take_stream_u32(bytes, next)?;
    let (immediate, end) = take_stream_u64(bytes, after)?;
    let opcode = Opcode::from_u8(byte)?;
    Ok((Instruction::raw(opcode, argument, immediate), end))
}

fn take_instructions(bytes: &[u8], at: usize, count: u32) -> (result: Result<
    (Vec<Instruction>, usize),
    String,
>)
    requires
        at <= bytes.len(),
    ensures
        match (result, taken_instructions(bytes@, at as int, count as nat)) {
            (Ok((instructions, next)), Ok((models, end))) => instructions@ == models && next == end
                && next <= bytes.len(),
            (Err(message), Err(model)) => message@ == model,
            _ => false,
        },
{
    let mut instructions: Vec<Instruction> = Vec::new();
    let mut next: usize = at;
    let mut index: u32 = 0;
    proof {
        assert(instructions@ =~= Seq::empty());
    }
    while index < count
        invariant
            index <= count,
            next <= bytes.len(),
            taken_instructions(bytes@, at as int, index as nat) == Ok::<
                (Seq<Instruction>, int),
                Seq<char>,
            >((instructions@, next as int)),
        decreases count - index,
    {
        proof {
            if taken_instruction(bytes@, next as int) is Err {
                instruction_fault_stays(bytes@, at as int, (index + 1) as nat, count as nat);
            }
        }
        let (instruction, end) = take_instruction(bytes, next)?;
        instructions.push(instruction);
        next = end;
        index += 1;
    }
    Ok((instructions, next))
}

fn take_dictionary(bytes: &[u8], at: usize) -> (result: Result<(StreamDictionary, usize), String>)
    requires
        at <= bytes.len(),
    ensures
        takes(result, taken_dictionary(bytes@, at as int), bytes@),
{
    let (slots, next) = take_names(bytes, at)?;
    let (predicates, after) = take_names(bytes, next)?;
    let (literals, end) = take_names(bytes, after)?;
    Ok((StreamDictionary { slots, predicates, literals }, end))
}

/// Four bytes as a list of numbers.
fn describe_bytes(bytes: &[u8], at: usize) -> (result: String)
    requires
        at + 4 <= bytes.len(),
    ensures
        result@ == "invalid instruction stream magic "@ + bytes_text(
            bytes@.subrange(at as int, at + 4),
        ),
{
    let mut out = "[".to_owned();
    push_decimal(&mut out, bytes[at] as u64);
    out.append(", ");
    push_decimal(&mut out, bytes[at + 1] as u64);
    out.append(", ");
    push_decimal(&mut out, bytes[at + 2] as u64);
    out.append(", ");
    push_decimal(&mut out, bytes[at + 3] as u64);
    out.append("]");
    joined("invalid instruction stream magic ", out.as_str())
}

/// Decodes a frame; returns it and where it ends.
pub fn decode_instruction_stream_frame(bytes: &[u8], at: usize) -> (result: Result<
    (InstructionStreamFrame, usize),
    String,
>)
    requires
        at <= bytes.len(),
    ensures
        takes(result, taken_stream(bytes@, at as int), bytes@),
{
    if bytes.len() - at < 4 {
        return Err(joined("failed to read stream magic: ", "failed to fill whole buffer"));
    }
    let magic: [u8; 4] = [0x53u8, 0x49, 0x53, 0x41];
    proof {
        assert(magic@ =~= stream_magic());
    }
    if !four_at(bytes, at, magic) {
        return Err(describe_bytes(bytes, at));
    }
    let (version, next) = take_stream_u32(bytes, at + 4)?;
    if version != SEMANTIC_ISA_VERSION_1 {
        return Err(labelled("unsupported semantic ISA version ", version as u64));
    }
    let (namespace, after) = take_stream_u64(bytes, next)?;
    let (dictionary, end) = take_dictionary(bytes, after)?;
    let (local_count, begin) = take_stream_u32(bytes, end)?;
    let (count, program) = take_stream_u32(bytes, begin)?;
    let (instructions, last) = take_instructions(bytes, program, count)?;
    Ok(
        (
            InstructionStreamFrame { version, namespace, dictionary, local_count, instructions },
            last,
        ),
    )
}

} // verus!
