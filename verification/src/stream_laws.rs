//! Which bytes are read as instruction streams, and what machine instructions do.

use crate::compile::one_instruction;
use crate::cursor::{text32, text32_stands, u32_stands, u64_stands, u8_stands};
use crate::fact::{AtomModel, Literal};
use crate::stream::{
    dictionary_part, instruction_bytes, instructions_bytes, name_bytes, names_bytes, opcode_byte,
    opcode_of, stream_body, stream_bytes, stream_magic, stream_u32, taken_dictionary,
    taken_dictionary_part, taken_instruction, taken_instructions, taken_name, taken_stream,
    taken_stream_names,
};
use crate::vm::{Instruction, Opcode, RunModel, VmFault, vm_run, vm_run_concat, vm_step};
use crate::vocabulary::{VocabularyModel, atom_cell_of, cell_atom, token_is, vocabulary_ok};
use crate::wire::{le32, le32_facts, le64, le64_facts, stands_at, stands_at_split, u32_at, u64_at};
use vstd::prelude::*;

verus! {

proof fn read_name_stands(bytes: Seq<u8>, at: int, wide: bool)
    requires
        0 <= at,
        bytes.len() <= usize::MAX,
    ensures
        taken_name(bytes, at, wide) matches Ok((entry, end)) ==> stands_at(
            bytes,
            at,
            name_bytes(entry, wide),
        ) && end == at + name_bytes(entry, wide).len() && (!wide ==> entry.number <= u32::MAX),
{
    if let Ok((entry, end)) = taken_name(bytes, at, wide) {
        let text = text32(entry.name);
        if wide {
            u64_stands(bytes, at, entry.number, at + 8);
            text32_stands(
                bytes,
                at + 8,
                entry.name,
                end,
                "string length overflow"@,
                "truncated string in stream"@,
            );
            stands_at_split(bytes, at, le64(entry.number), text);
        } else {
            u32_stands(bytes, at, entry.number as u32, at + 4);
            text32_stands(
                bytes,
                at + 4,
                entry.name,
                end,
                "string length overflow"@,
                "truncated string in stream"@,
            );
            stands_at_split(bytes, at, le32(entry.number as u32), text);
        }
    }
}

proof fn read_names_stand(bytes: Seq<u8>, at: int, count: nat, wide: bool)
    requires
        0 <= at <= bytes.len(),
        bytes.len() <= usize::MAX,
    ensures
        taken_stream_names(bytes, at, count, wide) matches Ok((entries, end)) ==> stands_at(
            bytes,
            at,
            names_bytes(entries, wide),
        ) && end == at + names_bytes(entries, wide).len() && entries.len() == count,
    decreases count,
{
    if count == 0 {
        assert(bytes.subrange(at, at) =~= Seq::empty());
    } else {
        read_names_stand(bytes, at, (count - 1) as nat, wide);
        if let Ok((list, next)) = taken_stream_names(bytes, at, (count - 1) as nat, wide) {
            read_name_stands(bytes, next, wide);
            if let Ok((entry, end)) = taken_name(bytes, next, wide) {
                assert(list.push(entry).drop_last() =~= list);
                stands_at_split(bytes, at, names_bytes(list, wide), name_bytes(entry, wide));
            }
        }
    }
}

proof fn read_part_stands(bytes: Seq<u8>, at: int, wide: bool)
    requires
        0 <= at,
        bytes.len() <= usize::MAX,
    ensures
        taken_dictionary_part(bytes, at, wide) matches Ok((entries, end)) ==> stands_at(
            bytes,
            at,
            dictionary_part(entries, wide),
        ) && end == at + dictionary_part(entries, wide).len(),
{
    if let Ok((count, next)) = stream_u32(bytes, at) {
        u32_stands(bytes, at, count, next);
        read_names_stand(bytes, next, count as nat, wide);
        if let Ok((entries, end)) = taken_stream_names(bytes, next, count as nat, wide) {
            stands_at_split(bytes, at, le32(count), names_bytes(entries, wide));
        }
    }
}

proof fn read_instruction_stands(bytes: Seq<u8>, at: int)
    requires
        0 <= at,
    ensures
        taken_instruction(bytes, at) matches Ok((instruction, end)) ==> stands_at(
            bytes,
            at,
            instruction_bytes(instruction),
        ) && end == at + instruction_bytes(instruction).len(),
{
    if let Ok((instruction, end)) = taken_instruction(bytes, at) {
        let byte = opcode_byte(instruction.opcode);
        u8_stands(bytes, at, byte, at + 1);
        u32_stands(bytes, at + 1, instruction.argument, at + 5);
        u64_stands(bytes, at + 5, instruction.immediate, at + 13);
        let tail = le32(instruction.argument) + le64(instruction.immediate);
        stands_at_split(bytes, at + 1, le32(instruction.argument), le64(instruction.immediate));
        stands_at_split(bytes, at, seq![byte], tail);
    }
}

proof fn read_instructions_stand(bytes: Seq<u8>, at: int, count: nat)
    requires
        0 <= at <= bytes.len(),
    ensures
        taken_instructions(bytes, at, count) matches Ok((list, end)) ==> stands_at(
            bytes,
            at,
            instructions_bytes(list),
        ) && end == at + instructions_bytes(list).len() && list.len() == count,
    decreases count,
{
    if count == 0 {
        assert(bytes.subrange(at, at) =~= Seq::empty());
    } else {
        read_instructions_stand(bytes, at, (count - 1) as nat);
        if let Ok((list, next)) = taken_instructions(bytes, at, (count - 1) as nat) {
            read_instruction_stands(bytes, next);
            if let Ok((instruction, end)) = taken_instruction(bytes, next) {
                assert(list.push(instruction).drop_last() =~= list);
                stands_at_split(
                    bytes,
                    at,
                    instructions_bytes(list),
                    instruction_bytes(instruction),
                );
            }
        }
    }
}

proof fn read_dictionary_stands(bytes: Seq<u8>, at: int)
    requires
        0 <= at,
        bytes.len() <= usize::MAX,
    ensures
        taken_dictionary(bytes, at) matches Ok((dictionary, end)) ==> {
            let slots = dictionary_part(dictionary.slots, false);
            let predicates = dictionary_part(dictionary.predicates, true);
            let literals = dictionary_part(dictionary.literals, true);
            &&& stands_at(bytes, at, slots)
            &&& stands_at(bytes, at + slots.len(), predicates)
            &&& stands_at(bytes, at + slots.len() + predicates.len(), literals)
            &&& end == at + slots.len() + predicates.len() + literals.len()
        },
{
    if let Ok((dictionary, end)) = taken_dictionary(bytes, at) {
        read_part_stands(bytes, at, false);
        let slots = dictionary_part(dictionary.slots, false);
        let predicates = dictionary_part(dictionary.predicates, true);
        read_part_stands(bytes, at + slots.len(), true);
        read_part_stands(bytes, at + slots.len() + predicates.len(), true);
    }
}

/// What is read as a stream is exactly the stream's bytes: nothing else is read as it, and nothing in
/// it is passed over.
pub proof fn read_streams_are_exact(bytes: Seq<u8>, at: int)
    requires
        0 <= at,
        bytes.len() <= usize::MAX,
    ensures
        taken_stream(bytes, at) matches Ok((frame, end)) ==> {
            &&& stands_at(bytes, at, stream_bytes(frame))
            &&& end == at + stream_bytes(frame).len()
            &&& bytes.subrange(at, at + 4) == seq![0x53u8, 0x49, 0x53, 0x41]
            &&& u32_at(bytes, at + 4) == 1
            &&& frame.version == 1
            &&& frame.namespace == u64_at(bytes, at + 8)
        },
{
    if let Ok((frame, end)) = taken_stream(bytes, at) {
        let slots = dictionary_part(frame.dictionary.slots, false);
        let predicates = dictionary_part(frame.dictionary.predicates, true);
        let literals = dictionary_part(frame.dictionary.literals, true);
        let body = stream_body(frame);
        u32_stands(bytes, at + 4, 1, at + 8);
        u64_stands(bytes, at + 8, frame.namespace, at + 16);
        read_dictionary_stands(bytes, at + 16);
        let start = at + 16 + slots.len() + predicates.len() + literals.len();
        let count = frame.instructions.len() as u32;
        read_instructions_stand(bytes, start + 8, u32_at(bytes, start + 4) as nat);
        u32_stands(bytes, start, frame.local_count, start + 4);
        u32_stands(bytes, start + 4, count, start + 8);
        stands_at_split(bytes, start + 4, le32(count), instructions_bytes(frame.instructions));
        stands_at_split(
            bytes,
            start,
            le32(frame.local_count),
            le32(count) + instructions_bytes(frame.instructions),
        );
        stands_at_split(bytes, at + 16 + slots.len() + predicates.len(), literals, body);
        stands_at_split(bytes, at + 16 + slots.len(), predicates, literals + body);
        stands_at_split(bytes, at + 16, slots, predicates + (literals + body));
        stands_at_split(
            bytes,
            at + 8,
            le64(frame.namespace),
            slots + (predicates + (literals + body)),
        );
        stands_at_split(
            bytes,
            at + 4,
            le32(frame.version),
            le64(frame.namespace) + (slots + (predicates + (literals + body))),
        );
        stands_at_split(
            bytes,
            at,
            stream_magic(),
            le32(frame.version) + (le64(frame.namespace) + (slots + (predicates + (literals
                + body)))),
        );
        assert(stream_magic() =~= seq![0x53u8, 0x49, 0x53, 0x41]);
        le32_facts(1);
        le64_facts(frame.namespace);
    }
}

/// An instruction has thirteen bytes: its number, its argument and its immediate. The numbers go from
/// nought to eight in this order, and no other byte is an instruction.
pub proof fn instructions_are_numbered(instruction: Instruction, byte: u8)
    ensures
        instruction_bytes(instruction).len() == 13,
        instruction_bytes(instruction)[0] == match instruction.opcode {
            Opcode::PushCell => 0u8,
            Opcode::LoadLocal => 1,
            Opcode::StoreLocal => 2,
            Opcode::Allocate => 3,
            Opcode::AllocateDiscard => 4,
            Opcode::Define => 5,
            Opcode::Forget => 6,
            Opcode::ExpectObject => 7,
            Opcode::Reject => 8,
        },
        instruction_bytes(instruction).subrange(1, 5) == le32(instruction.argument),
        instruction_bytes(instruction).subrange(5, 13) == le64(instruction.immediate),
        opcode_of(byte) is Some <==> byte <= 8,
        opcode_of(byte) matches Some(opcode) ==> opcode_byte(opcode) == byte,
{
    le32_facts(instruction.argument);
    le64_facts(instruction.immediate);
    assert(instruction_bytes(instruction).subrange(1, 5) =~= le32(instruction.argument));
    assert(instruction_bytes(instruction).subrange(5, 13) =~= le64(instruction.immediate));
}

/// What one instruction does: a definition takes the three topmost cells as subject, predicate and
/// object and puts them in front of its slot; a forgetting takes the front of its slot away, if there
/// is one; each is counted; an allocation takes the next number and counts on; an expectation changes
/// nothing and holds exactly if the front of its slot has the object; and nothing else touches a
/// slot.
pub proof fn instructions_do_one_thing(run: RunModel, instruction: Instruction, other: int)
    requires
        0 <= other < run.vm.stacks.len(),
        run.vm.next_entity <= u64::MAX,
    ensures
        ({
            let slot = instruction.argument as int;
            let known = slot < run.vm.stacks.len();
            let depth = run.stack.len();
            let step = vm_step(run, instruction);
            match instruction.opcode {
                Opcode::PushCell => step matches Ok(after) && after.vm == run.vm && after.stack
                    == run.stack.push(instruction.immediate),
                Opcode::LoadLocal | Opcode::StoreLocal => step == Err::<RunModel, VmFault>(
                    VmFault::UnknownLocal,
                ),
                Opcode::Allocate => step matches Ok(after) && after.vm.next_entity
                    == run.vm.next_entity + 1 && after.vm.stacks == run.vm.stacks && after.vm.deltas
                    == run.vm.deltas && after.stack.len() == depth + 1 && after.stack.last()
                    == run.vm.next_entity && after.stack.drop_last() == run.stack,
                Opcode::AllocateDiscard => step matches Ok(after) && after.vm.next_entity
                    == run.vm.next_entity + 1 && after.vm.stacks == run.vm.stacks && after.vm.deltas
                    == run.vm.deltas && after.stack == run.stack,
                Opcode::Define => {
                    &&& step is Ok <==> depth >= 3 && known
                    &&& step matches Err(fault) ==> fault == if depth < 3 {
                        VmFault::StackUnderflow
                    } else {
                        VmFault::UnknownSlot
                    }
                    &&& step matches Ok(after) ==> {
                        &&& after.vm.stacks.len() == run.vm.stacks.len()
                        &&& after.vm.stacks[slot].len() == run.vm.stacks[slot].len() + 1
                        &&& after.vm.stacks[slot].drop_first() == run.vm.stacks[slot]
                        &&& after.vm.stacks[slot][0].subject == run.stack[depth - 3]
                        &&& after.vm.stacks[slot][0].predicate == run.stack[depth - 2]
                        &&& after.vm.stacks[slot][0].object == run.stack[depth - 1]
                        &&& other != slot ==> after.vm.stacks[other] == run.vm.stacks[other]
                        &&& after.vm.deltas == run.vm.deltas + 1
                        &&& after.vm.next_entity == run.vm.next_entity
                        &&& after.stack == run.stack.take(depth - 3)
                    }
                },
                Opcode::Forget => {
                    &&& step is Ok <==> known
                    &&& step matches Err(fault) ==> fault == VmFault::UnknownSlot
                    &&& step matches Ok(after) ==> {
                        &&& after.vm.stacks.len() == run.vm.stacks.len()
                        &&& run.vm.stacks[slot].len() > 0 ==> after.vm.stacks[slot]
                            == run.vm.stacks[slot].skip(1)
                        &&& run.vm.stacks[slot].len() == 0 ==> after.vm.stacks[slot].len() == 0
                        &&& other != slot ==> after.vm.stacks[other] == run.vm.stacks[other]
                        &&& after.vm.deltas == run.vm.deltas + 1
                        &&& after.vm.next_entity == run.vm.next_entity
                        &&& after.stack == run.stack
                    }
                },
                Opcode::ExpectObject => {
                    &&& step is Ok <==> known && run.vm.stacks[slot].len() > 0
                        && run.vm.stacks[slot][0].object == instruction.immediate
                    &&& step matches Ok(after) ==> after == run
                    &&& step matches Err(fault) ==> fault == if known {
                        VmFault::ExpectationFailed
                    } else {
                        VmFault::UnknownSlot
                    }
                },
                Opcode::Reject => step == Err::<RunModel, VmFault>(VmFault::Rejected),
            }
        }),
{
    let slot = instruction.argument as int;
    if slot < run.vm.stacks.len() {
        let facts = run.vm.stacks[slot];
        if facts.len() > 0 {
            assert(facts.skip(1) =~= facts.drop_first());
        }
        if run.stack.len() >= 3 && instruction.opcode == Opcode::Define {
            let after = vm_step(run, instruction)->Ok_0;
            assert(after.vm.stacks[slot].drop_first() =~= facts);
        }
    }
    assert(run.stack.push(run.vm.next_entity as u64).drop_last() =~= run.stack);
}

/// A program runs instruction by instruction from its first, up to the first that fails.
pub proof fn programs_run_in_order(run: RunModel, first: Instruction, rest: Seq<Instruction>)
    ensures
        vm_run(run, seq![first] + rest) == match vm_step(run, first) {
            Err(fault) => Err(fault),
            Ok(next) => vm_run(next, rest),
        },
        vm_run(run, Seq::<Instruction>::empty()) == Ok::<RunModel, VmFault>(run),
{
    vm_run_concat(run, seq![first], rest);
    one_instruction(run, first);
}

/// Cells: an entity is its own cell where it is small enough, literals count from the base of
/// literals, and every cell of a known atom stands for that atom again.
pub proof fn cells_count_from_their_base(vocabulary: VocabularyModel, entity: u64, index: int)
    requires
        vocabulary_ok(vocabulary),
    ensures
        entity < 0x8000_0000_0000_0000 ==> atom_cell_of(vocabulary, AtomModel::Entity(entity))
            == entity && cell_atom(vocabulary, entity) == AtomModel::Entity(entity),
        0 <= index < vocabulary.literals.len() ==> {
            let cell = (0x8000_0000_0000_0000 + index) as u64;
            &&& atom_cell_of(vocabulary, AtomModel::Literal(vocabulary.literals[index])) == cell
            &&& cell_atom(vocabulary, cell) == AtomModel::Literal(vocabulary.literals[index])
        },
{
    if 0 <= index < vocabulary.literals.len() {
        token_is(vocabulary.literals, index);
    }
}

} // verus!
