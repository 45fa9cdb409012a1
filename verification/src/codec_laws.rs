//! How intents and histories are laid out in bytes, and what numbers look like in text.

use crate::fact::{AtomModel, FactModel, Literal, OperationModel};
use crate::frame::FrameModel;
use crate::history_codec::{
    frame32_bytes, frames32_bytes, frames_fit, history_bytes, history_reads, operation32_bytes,
    operations32_bytes, taken_history,
};
use crate::intent::{IntentAtomModel, IntentModel, IntentOperationModel, PreconditionModel};
use crate::intent_codec::{
    atom32_bytes, fact32_bytes, intent_atom_bytes, intent_bytes, intent_fits, intent_stands,
    precondition_bytes, preconditions_bytes, step_bytes, steps_bytes,
};
use crate::text::{decimal, digit_char, hex_digits};
use crate::wire::{concat_stands, le32, le64};
use vstd::prelude::*;
use vstd::utf8::*;

verus! {

/// Different intents never have the same bytes, nor does one begin with another.
pub proof fn intents_are_told_apart(
    left: IntentModel,
    right: IntentModel,
    behind: Seq<u8>,
    after: Seq<u8>,
)
    requires
        intent_fits(left),
        intent_fits(right),
        intent_bytes(left) + behind == intent_bytes(right) + after,
        intent_bytes(left).len() + behind.len() <= usize::MAX,
    ensures
        left == right,
        behind == after,
{
    let bytes = intent_bytes(left) + behind;
    let none: Seq<u8> = Seq::empty();
    concat_stands(none, intent_bytes(left), behind);
    concat_stands(none, intent_bytes(right), after);
    assert(none + intent_bytes(left) + behind =~= bytes);
    assert(none + intent_bytes(right) + after =~= bytes);
    intent_stands(bytes, 0, left, intent_bytes(left).len() as int);
    intent_stands(bytes, 0, right, intent_bytes(right).len() as int);
    assert(behind =~= bytes.skip(intent_bytes(left).len() as int));
    assert(after =~= bytes.skip(intent_bytes(right).len() as int));
}

/// How an intent is laid out: its namespace, its next temporary, then its preconditions behind their
/// number and its operations behind theirs. A list that gets longer keeps the bytes that it had.
pub proof fn intents_are_laid_out(
    intent: IntentModel,
    preconditions: Seq<PreconditionModel>,
    precondition: PreconditionModel,
    operations: Seq<IntentOperationModel>,
    operation: IntentOperationModel,
)
    ensures
        intent_bytes(intent) == le64(intent.namespace) + le32(intent.next_temporary) + le32(
            intent.preconditions.len() as u32,
        ) + preconditions_bytes(intent.preconditions) + le32(intent.operations.len() as u32)
            + steps_bytes(intent.operations),
        preconditions_bytes(preconditions.push(precondition)) == preconditions_bytes(preconditions)
            + match precondition {
            PreconditionModel::ExpectedWorld(world) => seq![0u8] + le64(world.0),
            PreconditionModel::ExpectedSlot { slot, expected: None } => seq![1u8] + le32(
                encode_utf8(slot).len() as u32,
            ) + encode_utf8(slot) + seq![0u8],
            PreconditionModel::ExpectedSlot { slot, expected: Some(fact) } => seq![1u8] + le32(
                encode_utf8(slot).len() as u32,
            ) + encode_utf8(slot) + seq![1u8] + fact32_bytes(fact),
        },
        steps_bytes(operations.push(operation)) == steps_bytes(operations) + match operation {
            IntentOperationModel::AllocateEntity { temporary } => seq![0u8] + le64(
                temporary.scope(),
            ) + le32(temporary.number()),
            IntentOperationModel::Define { slot, fact } => seq![1u8] + le32(
                encode_utf8(slot).len() as u32,
            ) + encode_utf8(slot) + intent_atom_bytes(fact.subject) + le32(
                encode_utf8(fact.predicate).len() as u32,
            ) + encode_utf8(fact.predicate) + intent_atom_bytes(fact.object),
            IntentOperationModel::Forget { slot } => seq![2u8] + le32(
                encode_utf8(slot).len() as u32,
            ) + encode_utf8(slot),
        },
        preconditions_bytes(Seq::<PreconditionModel>::empty()).len() == 0,
        steps_bytes(Seq::<IntentOperationModel>::empty()).len() == 0,
{
    assert(preconditions.push(precondition).drop_last() =~= preconditions);
    assert(operations.push(operation).drop_last() =~= operations);
    assert(intent_bytes(intent) =~= le64(intent.namespace) + le32(intent.next_temporary) + le32(
        intent.preconditions.len() as u32,
    ) + preconditions_bytes(intent.preconditions) + le32(intent.operations.len() as u32)
        + steps_bytes(intent.operations));
    match precondition {
        PreconditionModel::ExpectedWorld(world) => {},
        PreconditionModel::ExpectedSlot { slot, expected: None } => {
            assert(precondition_bytes(precondition) =~= seq![1u8] + le32(
                encode_utf8(slot).len() as u32,
            ) + encode_utf8(slot) + seq![0u8]);
        },
        PreconditionModel::ExpectedSlot { slot, expected: Some(fact) } => {
            assert(precondition_bytes(precondition) =~= seq![1u8] + le32(
                encode_utf8(slot).len() as u32,
            ) + encode_utf8(slot) + seq![1u8] + fact32_bytes(fact));
        },
    }
    match operation {
        IntentOperationModel::AllocateEntity { temporary } => {
            assert(step_bytes(operation) =~= seq![0u8] + le64(temporary.scope()) + le32(
                temporary.number(),
            ));
        },
        IntentOperationModel::Define { slot, fact } => {
            assert(step_bytes(operation) =~= seq![1u8] + le32(encode_utf8(slot).len() as u32)
                + encode_utf8(slot) + intent_atom_bytes(fact.subject) + le32(
                encode_utf8(fact.predicate).len() as u32,
            ) + encode_utf8(fact.predicate) + intent_atom_bytes(fact.object));
        },
        IntentOperationModel::Forget { slot } => {
            assert(step_bytes(operation) =~= seq![2u8] + le32(encode_utf8(slot).len() as u32)
                + encode_utf8(slot));
        },
    }
}

/// How atoms and facts of intents and of snapshots are laid out.
pub proof fn atoms_are_laid_out(atom: IntentAtomModel, known: AtomModel, fact: FactModel)
    ensures
        intent_atom_bytes(atom) == match atom {
            IntentAtomModel::Entity(entity) => seq![0u8] + le64(entity),
            IntentAtomModel::Temporary(temporary) => seq![1u8] + le64(temporary.scope()) + le32(
                temporary.number(),
            ),
            IntentAtomModel::Literal(literal) => seq![2u8] + le32(
                encode_utf8(literal).len() as u32,
            ) + encode_utf8(literal),
        },
        atom32_bytes(known) == match known {
            AtomModel::Entity(entity) => seq![0u8] + le64(entity),
            AtomModel::Literal(literal) => seq![1u8] + le32(encode_utf8(literal).len() as u32)
                + encode_utf8(literal),
        },
        fact32_bytes(fact) == atom32_bytes(fact.subject) + le32(
            encode_utf8(fact.predicate).len() as u32,
        ) + encode_utf8(fact.predicate) + atom32_bytes(fact.object),
{
    match atom {
        IntentAtomModel::Entity(entity) => {},
        IntentAtomModel::Temporary(temporary) => {
            assert(intent_atom_bytes(atom) =~= seq![1u8] + le64(temporary.scope()) + le32(
                temporary.number(),
            ));
        },
        IntentAtomModel::Literal(literal) => {
            assert(intent_atom_bytes(atom) =~= seq![2u8] + le32(
                encode_utf8(literal).len() as u32,
            ) + encode_utf8(literal));
        },
    }
    if let AtomModel::Literal(literal) = known {
        assert(atom32_bytes(known) =~= seq![1u8] + le32(encode_utf8(literal).len() as u32)
            + encode_utf8(literal));
    }
    assert(fact32_bytes(fact) =~= atom32_bytes(fact.subject) + le32(
        encode_utf8(fact.predicate).len() as u32,
    ) + encode_utf8(fact.predicate) + atom32_bytes(fact.object));
}

/// The history of a snapshot is read only from its own bytes, all of them; so no two histories have
/// the same bytes.
pub proof fn histories_are_told_apart(left: Seq<FrameModel>, right: Seq<FrameModel>)
    requires
        history_bytes(left).len() <= usize::MAX,
        left.len() <= u64::MAX,
        right.len() <= u64::MAX,
        frames_fit(left),
        frames_fit(right),
    ensures
        taken_history(history_bytes(left)) == Ok::<Seq<FrameModel>, Seq<char>>(left),
        history_bytes(left) == history_bytes(right) ==> left == right,
{
    history_reads(history_bytes(left), left);
    if history_bytes(left) == history_bytes(right) {
        history_reads(history_bytes(right), right);
    }
}

/// How the history of a snapshot is laid out: the number of its frames, then each frame: five numbers,
/// the number of its operations, and the operations behind their tags.
pub proof fn histories_are_laid_out(
    frames: Seq<FrameModel>,
    frame: FrameModel,
    operations: Seq<OperationModel>,
    operation: OperationModel,
)
    ensures
        history_bytes(frames) == le64(frames.len() as u64) + frames32_bytes(frames),
        frames32_bytes(Seq::<FrameModel>::empty()).len() == 0,
        frames32_bytes(frames.push(frame)) == frames32_bytes(frames) + (le64(frame.parent_world.0)
            + le64(frame.resulting_world.0) + le64(frame.parent_version) + le64(
            frame.resulting_version,
        ) + le64(frame.resulting_allocator) + le32(frame.operations.len() as u32)
            + operations32_bytes(frame.operations)),
        operations32_bytes(Seq::<OperationModel>::empty()).len() == 0,
        operations32_bytes(operations.push(operation)) == operations32_bytes(operations)
            + match operation {
            OperationModel::AllocateEntity { entity } => seq![0u8] + le64(entity),
            OperationModel::Define { slot, fact } => seq![1u8] + le32(
                encode_utf8(slot).len() as u32,
            ) + encode_utf8(slot) + fact32_bytes(fact),
            OperationModel::Forget { slot } => seq![2u8] + le32(encode_utf8(slot).len() as u32)
                + encode_utf8(slot),
        },
{
    assert(frames.push(frame).drop_last() =~= frames);
    assert(operations.push(operation).drop_last() =~= operations);
    assert(frame32_bytes(frame) =~= le64(frame.parent_world.0) + le64(frame.resulting_world.0)
        + le64(frame.parent_version) + le64(frame.resulting_version) + le64(
        frame.resulting_allocator,
    ) + le32(frame.operations.len() as u32) + operations32_bytes(frame.operations));
    match operation {
        OperationModel::AllocateEntity { entity } => {},
        OperationModel::Define { slot, fact } => {
            assert(operation32_bytes(operation) =~= seq![1u8] + le32(
                encode_utf8(slot).len() as u32,
            ) + encode_utf8(slot) + fact32_bytes(fact));
        },
        OperationModel::Forget { slot } => {
            assert(operation32_bytes(operation) =~= seq![2u8] + le32(
                encode_utf8(slot).len() as u32,
            ) + encode_utf8(slot));
        },
    }
}

/// The value of a digit: `0` to `9` and `a` to `f`.
pub open spec fn digit_value(digit: char) -> int {
    if '0' <= digit <= '9' {
        digit as int - 48
    } else if 'a' <= digit <= 'f' {
        digit as int - 87
    } else {
        -1
    }
}

/// The number that digits stand for.
pub open spec fn digits_value(digits: Seq<char>, base: int) -> int
    decreases digits.len(),
{
    if digits.len() == 0 {
        0
    } else {
        digits_value(digits.drop_last(), base) * base + digit_value(digits.last())
    }
}

/// A number in text stands for itself: its digits are digits of base ten, there is at least one, and
/// the first is no nought unless it is the only one.
pub proof fn decimals_stand_for_themselves(value: nat)
    ensures
        digits_value(decimal(value), 10) == value,
        decimal(value).len() >= 1,
        decimal(value).len() > 1 ==> digit_value(decimal(value)[0]) > 0,
        forall|i: int|
            0 <= i < decimal(value).len() ==> 0 <= digit_value(#[trigger] decimal(value)[i]) < 10,
    decreases value,
{
    let text = decimal(value);
    if value < 10 {
        assert(text.drop_last() =~= Seq::empty());
        assert(digits_value(Seq::<char>::empty(), 10) == 0);
        assert(text.last() == digit_char(value as int));
    } else {
        let front = decimal(value / 10);
        decimals_stand_for_themselves(value / 10);
        assert(text.drop_last() =~= front);
        assert(text[0] == front[0]);
        if front.len() == 1 {
            assert(digits_value(front.drop_last(), 10) == 0) by {
                assert(front.drop_last() =~= Seq::empty());
            }
            assert(front[0] == front.last());
        }
        assert forall|i: int| 0 <= i < text.len() implies 0 <= digit_value(#[trigger] text[i])
            < 10 by {
            if i < front.len() {
                assert(text[i] == front[i]);
            }
        }
    }
}

/// Hexadecimal digits stand for the number that they are of, as far as there are enough of them.
pub proof fn hexadecimals_stand_for_themselves(value: nat, width: nat)
    ensures
        hex_digits(value, width).len() == width,
        digits_value(hex_digits(value, width), 16) == value % vstd::arithmetic::power::pow(
            16,
            width,
        ) as nat,
        vstd::arithmetic::power::pow(16, width) > 0,
    decreases width,
{
    vstd::arithmetic::power::lemma_pow_positive(16, width);
    if width == 0 {
        vstd::arithmetic::power::lemma_pow0(16);
    } else {
        let less = (width - 1) as nat;
        let front = hex_digits(value / 16, less);
        hexadecimals_stand_for_themselves(value / 16, less);
        assert(hex_digits(value, width).drop_last() =~= front);
        let power = vstd::arithmetic::power::pow(16, less);
        assert(vstd::arithmetic::power::pow(16, width) == 16 * power) by {
            reveal(vstd::arithmetic::power::pow);
        }
        vstd::arithmetic::div_mod::lemma_mod_breakdown(value as int, 16, power);
    }
}

} // verus!
