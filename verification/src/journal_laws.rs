//! What recovery of a journal keeps and what it refuses, and how a journal is laid out.

use crate::digest::fnv;
use crate::intent::IntentModel;
use crate::intent_codec::intent_bytes;
use crate::journal::{
    EntryModel, all_epochs_storable, entries_bytes, epoch_at, epoch_fits, epoch_magic,
    epoch_payload, epoch_payload_reads, epoch_record, epoch_stands, epoch_storable, epochs_bytes,
    journal_bytes, journal_header, journal_header_stands, journal_magic, journal_passes,
    journal_scan, read_journal,
};
use crate::log_format::end_magic;
use crate::log_laws::{framed_length, framed_parts};
use crate::wire::{concat_assoc, concat_stands, le32, le32_facts, le64, le64_facts, u32_at, u64_at};
use vstd::prelude::*;
use vstd::utf8::*;

verus! {

/// Reading epochs keeps exactly the bytes in front of where it stops, and stops only where an epoch
/// has been begun at most.
proof fn epochs_stop_at_a_torn_end(bytes: Seq<u8>, offset: int, done: Seq<Seq<IntentModel>>)
    requires
        bytes.len() <= usize::MAX,
        16 <= offset <= bytes.len(),
        all_epochs_storable(done),
        done.len() + bytes.len() - offset < u64::MAX,
        bytes.skip(16).take(offset - 16) == epochs_bytes(done),
    ensures
        journal_scan(bytes, offset, done) matches Ok((epochs, end)) ==> {
            &&& offset <= end <= bytes.len()
            &&& all_epochs_storable(epochs)
            &&& epochs.len() >= done.len()
            &&& bytes.skip(16).take(end - 16) == epochs_bytes(epochs)
            &&& bytes.len() - end < 20 || bytes.subrange(end, end + 4) == seq![
                0x41u8, 0x45, 0x50, 0x31,
            ] && u64_at(bytes, end + 4) <= 67_108_864 && bytes.len() - end < 24 + u64_at(
                bytes,
                end + 4,
            )
        },
    decreases bytes.len() - offset,
{
    let id = (done.len() + 1) as u64;
    match epoch_at(bytes, offset, id) {
        EntryModel::Complete(intents, next) => {
            epoch_stands(bytes, offset, id, intents, next);
            let more = done.push(intents);
            assert(more.drop_last() =~= done);
            assert(bytes.skip(16).take(next - 16) =~= bytes.skip(16).take(offset - 16)
                + bytes.subrange(offset, next));
            assert forall|i: int| 0 <= i < more.len() implies epoch_storable(
                (i + 1) as u64,
                #[trigger] more[i],
            ) by {
                if i < done.len() {
                    assert(more[i] == done[i]);
                }
            }
            epochs_stop_at_a_torn_end(bytes, next, more);
        },
        EntryModel::Incomplete => {
            assert(epoch_magic() =~= seq![0x41u8, 0x45, 0x50, 0x31]);
        },
        EntryModel::Invalid(_) => {},
    }
}

/// What a journal is cut to is never more than an epoch that was not finished: if reading it
/// succeeds, what is kept is exactly the epochs, and the bytes behind them are too short for the
/// epoch that they begin.
pub proof fn only_torn_epochs_are_cut(bytes: Seq<u8>)
    requires
        bytes.len() <= usize::MAX,
        bytes.len() < u64::MAX,
    ensures
        read_journal(bytes) matches Ok((epochs, end)) ==> {
            &&& 16 <= end <= bytes.len()
            &&& bytes.take(8) == seq![0x46u8, 0x54, 0x48, 0x41, 0x44, 0x4d, 0x30, 0x31]
            &&& u32_at(bytes, 8) == 1
            &&& bytes.subrange(16, end) == epochs_bytes(epochs)
            &&& all_epochs_storable(epochs)
            &&& bytes.len() - end < 20 || bytes.subrange(end, end + 4) == seq![
                0x41u8, 0x45, 0x50, 0x31,
            ] && u64_at(bytes, end + 4) <= 67_108_864 && bytes.len() - end < 24 + u64_at(
                bytes,
                end + 4,
            )
        },
        (bytes.len() < 16 || bytes.take(8) != seq![
            0x46u8, 0x54, 0x48, 0x41, 0x44, 0x4d, 0x30, 0x31,
        ] || u32_at(bytes, 8) != 1) ==> read_journal(bytes) is Err,
{
    assert(journal_magic() =~= seq![0x46u8, 0x54, 0x48, 0x41, 0x44, 0x4d, 0x30, 0x31]);
    if bytes.len() >= 8 {
        assert(bytes.take(8) =~= bytes.subrange(0, 8));
    }
    if bytes.len() >= 16 {
        let none: Seq<Seq<IntentModel>> = Seq::empty();
        assert(bytes.skip(16).take(0) =~= epochs_bytes(none));
        epochs_stop_at_a_torn_end(bytes, 16, none);
        if let Ok((epochs, end)) = read_journal(bytes) {
            assert(bytes.subrange(16, end) =~= bytes.skip(16).take(end - 16));
        }
    }
}

/// Corruption of a journal fails closed: where a complete epoch is expected behind others and
/// something else stands there, reading fails, however many epochs stand in front of it.
pub proof fn damaged_epochs_fail_closed(epochs: Seq<Seq<IntentModel>>, rest: Seq<u8>)
    requires
        all_epochs_storable(epochs),
        epochs.len() + 1 < u64::MAX,
        journal_bytes(epochs).len() + rest.len() + 67_108_864 + 24 <= usize::MAX,
        rest.len() >= 20,
        ({
            let length = u64_at(rest, 4);
            ||| rest.take(4) != seq![0x41u8, 0x45, 0x50, 0x31]
            ||| length > 67_108_864
            ||| rest.len() >= 24 + length && (rest.subrange(20 + length, 24 + length) != seq![
                0x45u8, 0x4e, 0x44, 0x31,
            ] || fnv(rest.subrange(20, 20 + length)) != u64_at(rest, 12) || !(exists|
                intents: Seq<IntentModel>,
            |
                rest.subrange(20, 20 + length) == #[trigger] epoch_payload(
                    (epochs.len() + 1) as u64,
                    intents,
                ) && epoch_fits(intents)))
        }),
    ensures
        read_journal(journal_bytes(epochs) + rest) is Err,
{
    let before = journal_bytes(epochs);
    let bytes = before + rest;
    let at = before.len() as int;
    let id = (epochs.len() + 1) as u64;
    epochs_are_passed(epochs, rest);
    epoch_pieces_behind(before, rest);
    match epoch_at(bytes, at, id) {
        EntryModel::Complete(intents, next) => {
            epoch_stands(bytes, at, id, intents, next);
            framed_length(epoch_magic(), epoch_payload(id, intents));
            framed_parts(bytes, at, epoch_magic(), epoch_payload(id, intents));
            epoch_payload_reads(rest.subrange(20, 20 + u64_at(rest, 4)), id, intents);
        },
        _ => {},
    }
}

/// Reading goes on behind the epochs of a journal.
proof fn epochs_are_passed(epochs: Seq<Seq<IntentModel>>, rest: Seq<u8>)
    requires
        all_epochs_storable(epochs),
        epochs.len() < u64::MAX,
        journal_bytes(epochs).len() + rest.len() <= usize::MAX,
    ensures
        read_journal(journal_bytes(epochs) + rest) == journal_scan(
            journal_bytes(epochs) + rest,
            journal_bytes(epochs).len() as int,
            epochs,
        ),
{
    concat_assoc(journal_header(), epochs_bytes(epochs), rest);
    journal_header_stands(epochs_bytes(epochs) + rest);
    concat_stands(journal_header(), epochs_bytes(epochs), rest);
    journal_passes(journal_bytes(epochs) + rest, epochs);
}

proof fn epoch_pieces_behind(before: Seq<u8>, rest: Seq<u8>)
    requires
        rest.len() >= 20,
    ensures
        ({
            let at = before.len() as int;
            let length = u64_at(rest, 4);
            &&& (before + rest).subrange(at, at + 4) == rest.take(4)
            &&& u64_at(before + rest, at + 4) == length
            &&& u64_at(before + rest, at + 12) == u64_at(rest, 12)
            &&& rest.len() >= 24 + length ==> (before + rest).subrange(
                at + 20,
                at + 20 + length,
            ) == rest.subrange(20, 20 + length) && (before + rest).subrange(
                at + 20 + length,
                at + 24 + length,
            ) == rest.subrange(20 + length, 24 + length)
        }),
        epoch_magic() == seq![0x41u8, 0x45, 0x50, 0x31],
        end_magic() == seq![0x45u8, 0x4e, 0x44, 0x31],
{
    let bytes = before + rest;
    let at = before.len() as int;
    let length = u64_at(rest, 4);
    assert(bytes.subrange(at, at + 4) =~= rest.take(4));
    assert(bytes.subrange(at + 4, at + 12) =~= rest.subrange(4, 12));
    assert(bytes.subrange(at + 12, at + 20) =~= rest.subrange(12, 20));
    if rest.len() >= 24 + length {
        assert(bytes.subrange(at + 20, at + 20 + length) =~= rest.subrange(20, 20 + length));
        assert(bytes.subrange(at + 20 + length, at + 24 + length) =~= rest.subrange(
            20 + length,
            24 + length,
        ));
    }
    assert(epoch_magic() =~= seq![0x41u8, 0x45, 0x50, 0x31]);
    assert(end_magic() =~= seq![0x45u8, 0x4e, 0x44, 0x31]);
}

/// How a journal is laid out: `FTHADM01`, the version and no flags; then each epoch, numbered from
/// one, between `AEP1`, the length and the checksum of its payload, and `END1`. A payload is the
/// number of its epoch, the number of its intents, and each intent behind its length.
pub proof fn journals_are_framed(
    epochs: Seq<Seq<IntentModel>>,
    intents: Seq<IntentModel>,
    intent: IntentModel,
    id: u64,
)
    ensures
        journal_bytes(Seq::<Seq<IntentModel>>::empty()) == seq![
            0x46u8, 0x54, 0x48, 0x41, 0x44, 0x4d, 0x30, 0x31,
        ] + le32(1) + le32(0),
        journal_bytes(epochs.push(intents)) == journal_bytes(epochs) + epoch_record(
            (epochs.len() + 1) as u64,
            intents,
        ),
        epoch_record(id, intents) == seq![0x41u8, 0x45, 0x50, 0x31] + le64(
            epoch_payload(id, intents).len() as u64,
        ) + le64(fnv(epoch_payload(id, intents))) + epoch_payload(id, intents) + seq![
            0x45u8, 0x4e, 0x44, 0x31,
        ],
        epoch_payload(id, Seq::<IntentModel>::empty()) == le64(id) + le32(0),
        entries_bytes(intents.push(intent)) == entries_bytes(intents) + le32(
            intent_bytes(intent).len() as u32,
        ) + intent_bytes(intent),
        epoch_payload(id, intents).skip(12) == entries_bytes(intents),
{
    assert(journal_bytes(Seq::<Seq<IntentModel>>::empty()) =~= seq![
        0x46u8, 0x54, 0x48, 0x41, 0x44, 0x4d, 0x30, 0x31,
    ] + le32(1) + le32(0));
    assert(epochs.push(intents).drop_last() =~= epochs);
    assert(journal_bytes(epochs.push(intents)) =~= journal_bytes(epochs) + epoch_record(
        (epochs.len() + 1) as u64,
        intents,
    ));
    assert(epoch_magic() =~= seq![0x41u8, 0x45, 0x50, 0x31]);
    assert(end_magic() =~= seq![0x45u8, 0x4e, 0x44, 0x31]);
    assert(epoch_payload(id, Seq::<IntentModel>::empty()) =~= le64(id) + le32(0));
    assert(intents.push(intent).drop_last() =~= intents);
    assert(entries_bytes(intents.push(intent)) =~= entries_bytes(intents) + le32(
        intent_bytes(intent).len() as u32,
    ) + intent_bytes(intent));
    le64_facts(id);
    le32_facts(intents.len() as u32);
    assert(epoch_payload(id, intents).skip(12) =~= entries_bytes(intents));
}

} // verus!
