//! The admission journal: a file of epochs of intents, each durable before it is applied.

use crate::cursor::{Taken, take_u32, take_u64, taken_u32, taken_u64, takes, u32_stands, u64_stands};
use crate::digest::{digest, fnv};
use crate::errors::{IoFault, IoFaultModel, describe_numbers, two_numbers};
use crate::fact::{views, views_push};
use crate::intent::{
    IntentModel, IntentNamespaces, QueuedIntent, clear_of, clear_of_epochs, stays_clear,
};
use crate::intent_codec::{
    decode_queued_intent, encode_queued_intent, intent_bytes, intent_fits, intent_stands,
    taken_intent,
};
use crate::log_format::{eight_at, end_magic, four_at, frame_with, framed_bytes};
use crate::log_laws::{framed_length, framed_parts, framed_prefix, piece_of_prefix};
use crate::text::{decimal, joined, labelled};
use crate::wire::{
    concat_assoc, concat_stands, fixed_u32, fixed_u64, le32, le32_facts, le32_stands, le64,
    le64_stands, put_bytes, put_u32, put_u64, stands_at, stands_at_split, u32_at, u64_at,
    whole_stands,
};
use std::sync::Arc;
use vstd::prelude::*;
use vstd::string::*;

verus! {

/// Length of the journal header.
pub const JOURNAL_HEADER_LEN: usize = 16;

/// The only journal version.
pub const JOURNAL_VERSION: u32 = 1;

/// Longest payload of an epoch.
pub const MAX_EPOCH_BYTES: u64 = 67_108_864;

/// `FTHADM01`.
pub open spec fn journal_magic() -> Seq<u8> {
    seq![0x46u8, 0x54, 0x48, 0x41, 0x44, 0x4d, 0x30, 0x31]
}

/// `AEP1`.
pub open spec fn epoch_magic() -> Seq<u8> {
    seq![0x41u8, 0x45, 0x50, 0x31]
}

pub open spec fn journal_header() -> Seq<u8> {
    journal_magic() + le32(JOURNAL_VERSION) + le32(0)
}

/// An intent with its length in front.
pub open spec fn entry_bytes(intent: IntentModel) -> Seq<u8> {
    le32(intent_bytes(intent).len() as u32) + intent_bytes(intent)
}

pub open spec fn entries_bytes(intents: Seq<IntentModel>) -> Seq<u8>
    decreases intents.len(),
{
    if intents.len() == 0 {
        Seq::empty()
    } else {
        entries_bytes(intents.drop_last()) + entry_bytes(intents.last())
    }
}

/// The payload of an epoch.
pub open spec fn epoch_payload(id: u64, intents: Seq<IntentModel>) -> Seq<u8> {
    le64(id) + (le32(intents.len() as u32) + entries_bytes(intents))
}

/// The record of an epoch.
pub open spec fn epoch_record(id: u64, intents: Seq<IntentModel>) -> Seq<u8> {
    framed_bytes(epoch_magic(), epoch_payload(id, intents))
}

/// The records of epochs that are numbered from one.
pub open spec fn epochs_bytes(epochs: Seq<Seq<IntentModel>>) -> Seq<u8>
    decreases epochs.len(),
{
    if epochs.len() == 0 {
        Seq::empty()
    } else {
        epochs_bytes(epochs.drop_last()) + epoch_record(epochs.len() as u64, epochs.last())
    }
}

/// The whole journal that holds `epochs`.
pub open spec fn journal_bytes(epochs: Seq<Seq<IntentModel>>) -> Seq<u8> {
    journal_header() + epochs_bytes(epochs)
}

pub open spec fn entry_fits(intent: IntentModel) -> bool {
    intent_fits(intent) && intent_bytes(intent).len() <= u32::MAX
}

pub open spec fn entries_fit(intents: Seq<IntentModel>) -> bool
    decreases intents.len(),
{
    intents.len() == 0 || (entries_fit(intents.drop_last()) && entry_fits(intents.last()))
}

/// The lengths of an epoch fit the format.
pub open spec fn epoch_fits(intents: Seq<IntentModel>) -> bool {
    intents.len() <= u32::MAX && entries_fit(intents)
}

/// An epoch that the journal can hold.
pub open spec fn epoch_storable(id: u64, intents: Seq<IntentModel>) -> bool {
    epoch_fits(intents) && epoch_payload(id, intents).len() <= MAX_EPOCH_BYTES
}

#[verifier::opaque]
pub open spec fn taken_entry(bytes: Seq<u8>, at: int) -> Taken<IntentModel> {
    match taken_u32(bytes, at) {
        Err(message) => Err(message),
        Ok((length, start)) => if start + length > usize::MAX {
            Err("intent length overflow"@)
        } else if start + length > bytes.len() {
            Err("truncated intent in admission epoch"@)
        } else {
            match taken_intent(bytes.subrange(start, start + length), 0) {
                Err(message) => Err(message),
                Ok((intent, end)) => if end != length {
                    Err("intent decoder did not consume its canonical bytes"@)
                } else {
                    Ok((intent, start + length))
                },
            }
        },
    }
}

pub open spec fn taken_entries(bytes: Seq<u8>, at: int, count: nat) -> Taken<Seq<IntentModel>>
    decreases count,
{
    if count == 0 {
        Ok((Seq::empty(), at))
    } else {
        match taken_entries(bytes, at, (count - 1) as nat) {
            Err(message) => Err(message),
            Ok((list, next)) => match taken_entry(bytes, next) {
                Err(message) => Err(message),
                Ok((intent, end)) => Ok((list.push(intent), end)),
            },
        }
    }
}

/// Reads the payload of an epoch.
#[verifier::opaque]
pub open spec fn taken_epoch(bytes: Seq<u8>) -> Result<(u64, Seq<IntentModel>), Seq<char>> {
    match taken_u64(bytes, 0) {
        Err(message) => Err(message),
        Ok((id, a)) => match taken_u32(bytes, a) {
            Err(message) => Err(message),
            Ok((count, b)) => match taken_entries(bytes, b, count as nat) {
                Err(message) => Err(message),
                Ok((intents, end)) => if end != bytes.len() {
                    Err("trailing admission epoch payload bytes"@)
                } else {
                    Ok((id, intents))
                },
            },
        },
    }
}

proof fn entry_stands(bytes: Seq<u8>, at: int, intent: IntentModel, end: int)
    requires
        0 <= at,
        bytes.len() <= usize::MAX,
    ensures
        taken_entry(bytes, at) == Ok::<(IntentModel, int), Seq<char>>((intent, end)) <==> (
        entry_fits(intent) && stands_at(bytes, at, entry_bytes(intent)) && end == at + entry_bytes(
            intent,
        ).len()),
{
    reveal(taken_entry);
    let body = intent_bytes(intent);
    let n = body.len() as u32;
    u32_stands(bytes, at, n, at + 4);
    stands_at_split(bytes, at, le32(n), body);
    if at + 4 <= bytes.len() {
        let length = u32_at(bytes, at) as int;
        if at + 4 + length <= bytes.len() {
            let piece = bytes.subrange(at + 4, at + 4 + length);
            intent_stands(piece, 0, intent, length);
            if stands_at(piece, 0, body) && length == body.len() {
                assert(piece.subrange(0, length) =~= piece);
                assert(piece == body);
            }
            if piece == body {
                whole_stands(body);
            }
        }
    }
}

proof fn entries_stand(bytes: Seq<u8>, at: int, list: Seq<IntentModel>, end: int)
    requires
        0 <= at <= bytes.len(),
        bytes.len() <= usize::MAX,
    ensures
        taken_entries(bytes, at, list.len()) == Ok::<(Seq<IntentModel>, int), Seq<char>>(
            (list, end),
        ) <==> (entries_fit(list) && stands_at(bytes, at, entries_bytes(list)) && end == at
            + entries_bytes(list).len()),
    decreases list.len(),
{
    if list.len() == 0 {
        assert(list =~= Seq::empty());
        assert(bytes.subrange(at, at) =~= entries_bytes(list));
    } else {
        let front = list.drop_last();
        let first = entries_bytes(front);
        assert(front.push(list.last()) =~= list);
        entries_stand(bytes, at, front, at + first.len());
        stands_at_split(bytes, at, first, entry_bytes(list.last()));
        entry_stands(bytes, at + first.len(), list.last(), end);
        if taken_entries(bytes, at, list.len()) == Ok::<(Seq<IntentModel>, int), Seq<char>>(
            (list, end),
        ) {
            let taken = taken_entries(bytes, at, front.len())->Ok_0;
            assert(taken.0.push(taken_entry(bytes, taken.1)->Ok_0.0).drop_last() =~= taken.0);
            entries_stand(bytes, at, front, taken.1);
        }
    }
}

proof fn taken_entries_count(bytes: Seq<u8>, at: int, count: nat)
    ensures
        taken_entries(bytes, at, count) matches Ok((list, _)) ==> list.len() == count,
    decreases count,
{
    if count > 0 {
        taken_entries_count(bytes, at, (count - 1) as nat);
    }
}

/// Bytes are the payload of an epoch exactly when reading them gives it.
pub proof fn epoch_payload_reads(bytes: Seq<u8>, id: u64, intents: Seq<IntentModel>)
    requires
        bytes.len() <= usize::MAX,
    ensures
        taken_epoch(bytes) == Ok::<(u64, Seq<IntentModel>), Seq<char>>((id, intents)) <==> (bytes
            == epoch_payload(id, intents) && epoch_fits(intents)),
{
    reveal(taken_epoch);
    let n = intents.len() as u32;
    let rest = entries_bytes(intents);
    u64_stands(bytes, 0, id, 8);
    u32_stands(bytes, 8, n, 12);
    stands_at_split(bytes, 0, le64(id), le32(n) + rest);
    stands_at_split(bytes, 8, le32(n), rest);
    if bytes.len() >= 12 {
        entries_stand(bytes, 12, intents, bytes.len() as int);
    }
    if bytes == epoch_payload(id, intents) {
        whole_stands(bytes);
    }
    if taken_epoch(bytes) == Ok::<(u64, Seq<IntentModel>), Seq<char>>((id, intents)) {
        taken_entries_count(bytes, 12, u32_at(bytes, 8) as nat);
        assert(stands_at(bytes, 0, epoch_payload(id, intents)));
        assert(epoch_payload(id, intents).len() == bytes.len());
        whole_stands(bytes);
    }
}

/// What stands in a journal at one position.
pub enum EntryModel {
    /// The file ends before an epoch does.
    Incomplete,
    Invalid(Seq<char>),
    /// An epoch and the position behind its record.
    Complete(Seq<IntentModel>, int),
}

/// Reads one epoch, which must have number `expected`.
pub open spec fn epoch_at(bytes: Seq<u8>, offset: int, expected: u64) -> EntryModel {
    let remaining = bytes.len() - offset;
    let length = u64_at(bytes, offset + 4);
    let payload = bytes.subrange(offset + 20, offset + 20 + length);
    if remaining < 20 {
        EntryModel::Incomplete
    } else if bytes.subrange(offset, offset + 4) != epoch_magic() {
        EntryModel::Invalid("invalid epoch magic at "@ + decimal(offset as nat))
    } else if length > MAX_EPOCH_BYTES {
        EntryModel::Invalid("epoch exceeds size limit"@)
    } else if offset + 24 + length > usize::MAX {
        EntryModel::Invalid("epoch length overflow"@)
    } else if remaining < 24 + length {
        EntryModel::Incomplete
    } else if bytes.subrange(offset + 20 + length, offset + 24 + length) != end_magic() {
        EntryModel::Invalid("invalid epoch trailer at "@ + decimal(offset as nat))
    } else if fnv(payload) != u64_at(bytes, offset + 12) {
        EntryModel::Invalid("epoch checksum mismatch at "@ + decimal(offset as nat))
    } else {
        match taken_epoch(payload) {
            Err(message) => EntryModel::Invalid(message),
            Ok((id, intents)) => if id != expected {
                EntryModel::Invalid(
                    two_numbers(
                        "expected admission epoch "@,
                        expected as nat,
                        ", found "@,
                        id as nat,
                    ),
                )
            } else {
                EntryModel::Complete(intents, offset + 24 + length)
            },
        }
    }
}

/// Reads epochs from `offset` on, behind those in `done`.
pub open spec fn journal_scan(
    bytes: Seq<u8>,
    offset: int,
    done: Seq<Seq<IntentModel>>,
) -> Result<(Seq<Seq<IntentModel>>, int), Seq<char>>
    decreases bytes.len() - offset,
{
    match epoch_at(bytes, offset, (done.len() + 1) as u64) {
        EntryModel::Incomplete => Ok((done, offset)),
        EntryModel::Invalid(message) => Err(message),
        EntryModel::Complete(intents, next) => if next > offset {
            journal_scan(bytes, next, done.push(intents))
        } else {
            Ok((done, offset))
        },
    }
}

/// Reads a whole journal: its epochs, and where the last complete one ends.
pub open spec fn read_journal(bytes: Seq<u8>) -> Result<
    (Seq<Seq<IntentModel>>, int),
    Seq<char>,
> {
    if bytes.len() < 16 || bytes.subrange(0, 8) != journal_magic() {
        Err("invalid journal header"@)
    } else if u32_at(bytes, 8) != JOURNAL_VERSION {
        Err("unsupported journal version"@)
    } else {
        journal_scan(bytes, 16, Seq::empty())
    }
}

/// An epoch is read at a position exactly when its record stands there.
pub proof fn epoch_stands(
    bytes: Seq<u8>,
    offset: int,
    id: u64,
    intents: Seq<IntentModel>,
    next: int,
)
    requires
        bytes.len() <= usize::MAX,
        0 <= offset,
    ensures
        epoch_at(bytes, offset, id) == EntryModel::Complete(intents, next) <==> (stands_at(
            bytes,
            offset,
            epoch_record(id, intents),
        ) && next == offset + epoch_record(id, intents).len() && epoch_storable(id, intents)),
        epoch_record(id, intents).len() == epoch_payload(id, intents).len() + 24,
{
    let payload = epoch_payload(id, intents);
    framed_length(epoch_magic(), payload);
    framed_parts(bytes, offset, epoch_magic(), payload);
    le64_stands(bytes, offset + 4, payload.len() as u64);
    le64_stands(bytes, offset + 12, fnv(payload));
    if stands_at(bytes, offset, epoch_record(id, intents)) && epoch_storable(id, intents) {
        epoch_payload_reads(payload, id, intents);
        assert(u64_at(bytes, offset + 4) == payload.len());
        assert(bytes.subrange(offset + 20, offset + 20 + payload.len()) == payload);
    }
    if epoch_at(bytes, offset, id) == EntryModel::Complete(intents, next) {
        let length = u64_at(bytes, offset + 4);
        let found = bytes.subrange(offset + 20, offset + 20 + length);
        epoch_payload_reads(found, id, intents);
        assert(found == payload);
    }
}

/// Every epoch of a journal can be held by it.
pub open spec fn all_epochs_storable(epochs: Seq<Seq<IntentModel>>) -> bool {
    forall|i: int|
        0 <= i < epochs.len() ==> epoch_storable((i + 1) as u64, #[trigger] epochs[i])
}

pub proof fn journal_passes(bytes: Seq<u8>, epochs: Seq<Seq<IntentModel>>)
    requires
        bytes.len() <= usize::MAX,
        stands_at(bytes, 16, epochs_bytes(epochs)),
        all_epochs_storable(epochs),
        epochs.len() < u64::MAX,
    ensures
        journal_scan(bytes, 16, Seq::empty()) == journal_scan(
            bytes,
            (16 + epochs_bytes(epochs).len()) as int,
            epochs,
        ),
    decreases epochs.len(),
{
    if epochs.len() == 0 {
        assert(epochs =~= Seq::empty());
    } else {
        let front = epochs.drop_last();
        let last = epochs.last();
        let id = epochs.len() as u64;
        stands_at_split(bytes, 16, epochs_bytes(front), epoch_record(id, last));
        assert forall|i: int| 0 <= i < front.len() implies epoch_storable(
            (i + 1) as u64,
            #[trigger] front[i],
        ) by {
            assert(front[i] == epochs[i]);
        }
        journal_passes(bytes, front);
        assert(epoch_storable((epochs.len() - 1 + 1) as u64, epochs[epochs.len() - 1]));
        let middle = 16 + epochs_bytes(front).len();
        epoch_stands(
            bytes,
            middle as int,
            id,
            last,
            (middle + epoch_record(id, last).len()) as int,
        );
        assert(front.push(last) =~= epochs);
    }
}

pub proof fn journal_header_stands(rest: Seq<u8>)
    ensures
        read_journal(journal_header() + rest) == journal_scan(
            journal_header() + rest,
            16,
            Seq::empty(),
        ),
        journal_header().len() == 16,
{
    let bytes = journal_header() + rest;
    le32_facts(JOURNAL_VERSION);
    le32_facts(0);
    assert(bytes.subrange(0, 16) =~= journal_header());
    stands_at_split(bytes, 0, journal_magic() + le32(JOURNAL_VERSION), le32(0));
    stands_at_split(bytes, 0, journal_magic(), le32(JOURNAL_VERSION));
    le32_stands(bytes, 8, JOURNAL_VERSION);
}

/// A written journal reads back to its epochs, and an incomplete epoch behind them is left out.
pub proof fn written_journal_reads_back(epochs: Seq<Seq<IntentModel>>, rest: Seq<u8>)
    requires
        all_epochs_storable(epochs),
        epochs.len() < u64::MAX,
        journal_bytes(epochs).len() + rest.len() <= usize::MAX,
        epoch_at(
            journal_bytes(epochs) + rest,
            journal_bytes(epochs).len() as int,
            (epochs.len() + 1) as u64,
        ) == EntryModel::Incomplete,
    ensures
        read_journal(journal_bytes(epochs) + rest) == Ok::<
            (Seq<Seq<IntentModel>>, int),
            Seq<char>,
        >((epochs, journal_bytes(epochs).len() as int)),
{
    concat_assoc(journal_header(), epochs_bytes(epochs), rest);
    journal_header_stands(epochs_bytes(epochs) + rest);
    concat_stands(journal_header(), epochs_bytes(epochs), rest);
    journal_passes(journal_bytes(epochs) + rest, epochs);
}

/// A crash in the middle of writing an epoch loses that epoch and nothing else.
pub proof fn torn_epoch_keeps_journal(
    epochs: Seq<Seq<IntentModel>>,
    intents: Seq<IntentModel>,
    cut: int,
)
    requires
        all_epochs_storable(epochs),
        epochs.len() < u64::MAX,
        epoch_storable((epochs.len() + 1) as u64, intents),
        0 <= cut < epoch_record((epochs.len() + 1) as u64, intents).len(),
        journal_bytes(epochs).len() + epoch_record((epochs.len() + 1) as u64, intents).len()
            <= usize::MAX,
    ensures
        read_journal(
            journal_bytes(epochs) + epoch_record((epochs.len() + 1) as u64, intents).take(cut),
        ) == Ok::<(Seq<Seq<IntentModel>>, int), Seq<char>>(
            (epochs, journal_bytes(epochs).len() as int),
        ),
{
    let before = journal_bytes(epochs);
    let id = (epochs.len() + 1) as u64;
    let payload = epoch_payload(id, intents);
    let record = epoch_record(id, intents);
    framed_length(epoch_magic(), payload);
    whole_stands(record);
    framed_prefix(record, 0, epoch_magic(), payload);
    if cut >= 20 {
        piece_of_prefix(before, record, cut, 0, 4);
        piece_of_prefix(before, record, cut, 4, 12);
    }
    written_journal_reads_back(epochs, record.take(cut));
}

/// Appending an epoch's record adds that epoch and changes nothing before it.
pub proof fn epoch_append_extends_journal(
    epochs: Seq<Seq<IntentModel>>,
    intents: Seq<IntentModel>,
)
    requires
        all_epochs_storable(epochs),
        epochs.len() + 1 < u64::MAX,
        epoch_storable((epochs.len() + 1) as u64, intents),
        journal_bytes(epochs).len() + epoch_record((epochs.len() + 1) as u64, intents).len()
            <= usize::MAX,
    ensures
        read_journal(
            journal_bytes(epochs) + epoch_record((epochs.len() + 1) as u64, intents),
        ) == Ok::<(Seq<Seq<IntentModel>>, int), Seq<char>>(
            (
                epochs.push(intents),
                (journal_bytes(epochs).len() + epoch_record(
                    (epochs.len() + 1) as u64,
                    intents,
                ).len()) as int,
            ),
        ),
{
    let more = epochs.push(intents);
    assert(more.drop_last() =~= epochs);
    assert forall|i: int| 0 <= i < more.len() implies epoch_storable(
        (i + 1) as u64,
        #[trigger] more[i],
    ) by {
        if i < epochs.len() {
            assert(more[i] == epochs[i]);
        }
    }
    concat_assoc(
        journal_header(),
        epochs_bytes(epochs),
        epoch_record((epochs.len() + 1) as u64, intents),
    );
    assert(journal_bytes(more) + Seq::<u8>::empty() =~= journal_bytes(more));
    written_journal_reads_back(more, Seq::empty());
}

/// Why an admission controller cannot be opened.
#[derive(Debug)]
pub enum AdmissionEpochOpenError {
    Io(IoFault),
    Format(String),
    Config(String),
    Writer(String),
}

/// Mathematical value of an [`AdmissionEpochOpenError`].
pub enum OpenErrorModel {
    Io(IoFaultModel),
    Format(Seq<char>),
    Config(Seq<char>),
    Writer(Seq<char>),
}

impl View for AdmissionEpochOpenError {
    type V = OpenErrorModel;

    open spec fn view(&self) -> OpenErrorModel {
        match *self {
            AdmissionEpochOpenError::Io(fault) => OpenErrorModel::Io(fault@),
            AdmissionEpochOpenError::Format(message) => OpenErrorModel::Format(message@),
            AdmissionEpochOpenError::Config(message) => OpenErrorModel::Config(message@),
            AdmissionEpochOpenError::Writer(message) => OpenErrorModel::Writer(message@),
        }
    }
}

/// The message of an open error.
pub open spec fn open_error_text(error: OpenErrorModel) -> Seq<char> {
    match error {
        OpenErrorModel::Io(fault) => "admission journal I/O failed: "@ + fault.message,
        OpenErrorModel::Format(message) => "admission journal is invalid: "@ + message,
        OpenErrorModel::Config(message) => "admission controller configuration failed: "@ + message,
        OpenErrorModel::Writer(message) => "admission writer lease failed: "@ + message,
    }
}

impl AdmissionEpochOpenError {
    pub fn describe(&self) -> (result: String)
        ensures
            result@ == open_error_text(self@),
    {
        match self {
            AdmissionEpochOpenError::Io(fault) => joined(
                "admission journal I/O failed: ",
                fault.message.as_str(),
            ),
            AdmissionEpochOpenError::Format(message) => joined(
                "admission journal is invalid: ",
                message.as_str(),
            ),
            AdmissionEpochOpenError::Config(message) => joined(
                "admission controller configuration failed: ",
                message.as_str(),
            ),
            AdmissionEpochOpenError::Writer(message) => joined(
                "admission writer lease failed: ",
                message.as_str(),
            ),
        }
    }
}

/// Encodes the record of an epoch.
pub fn encode_epoch(id: u64, intents: &[QueuedIntent]) -> (result: Vec<u8>)
    ensures
        result@ == epoch_record(id, views(intents@)),
{
    let ghost models = views(intents@);
    let mut payload: Vec<u8> = Vec::new();
    put_u64(&mut payload, id);
    put_u32(&mut payload, intents.len() as u32);
    let ghost head = payload@;
    let mut index: usize = 0;
    proof {
        assert(models.take(0) =~= Seq::empty());
        assert(payload@ =~= head + entries_bytes(models.take(0)));
    }
    while index < intents.len()
        invariant
            index <= intents.len(),
            models == views(intents@),
            payload@ == head + entries_bytes(models.take(index as int)),
        decreases intents.len() - index,
    {
        let mut encoded: Vec<u8> = Vec::new();
        encode_queued_intent(&intents[index], &mut encoded);
        proof {
            assert(encoded@ =~= intent_bytes(intents@[index as int]@));
        }
        put_u32(&mut payload, encoded.len() as u32);
        put_bytes(&mut payload, encoded.as_slice());
        index += 1;
        proof {
            let done = models.take(index as int);
            assert(done.drop_last() =~= models.take(index - 1));
            assert(payload@ =~= head + entries_bytes(done));
        }
    }
    proof {
        assert(models.take(index as int) =~= models);
        assert(payload@ =~= epoch_payload(id, models));
    }
    let magic: [u8; 4] = [0x41u8, 0x45, 0x50, 0x31];
    proof {
        assert(magic@ =~= epoch_magic());
    }
    frame_with(magic, payload.as_slice())
}

/// The header of a new journal.
pub fn encode_journal_header() -> (result: Vec<u8>)
    ensures
        result@ == journal_header(),
{
    let mut out: Vec<u8> = vec![0x46u8, 0x54, 0x48, 0x41, 0x44, 0x4d, 0x30, 0x31];
    proof {
        assert(out@ =~= journal_magic());
    }
    put_u32(&mut out, JOURNAL_VERSION);
    put_u32(&mut out, 0);
    out
}

proof fn entry_fault_stays(bytes: Seq<u8>, at: int, some: nat, count: nat)
    requires
        some <= count,
        taken_entries(bytes, at, some) is Err,
    ensures
        taken_entries(bytes, at, count) == taken_entries(bytes, at, some),
    decreases count,
{
    if some < count {
        entry_fault_stays(bytes, at, some, (count - 1) as nat);
    }
}

fn take_entry(bytes: &[u8], at: usize, namespaces: &mut IntentNamespaces) -> (result: Result<
    (QueuedIntent, usize),
    String,
>)
    requires
        at <= bytes.len(),
    ensures
        takes(result, taken_entry(bytes@, at as int), bytes@),
        final(namespaces).upcoming() >= old(namespaces).upcoming(),
        result matches Ok((intent, _)) ==> intent@.namespace < final(namespaces).upcoming()
            || intent@.namespace == u64::MAX,
{
    proof {
        reveal(taken_entry);
    }
    let (length, start) = take_u32(bytes, at)?;
    let length: usize = length as usize;
    if length > usize::MAX - start {
        return Err("intent length overflow".to_owned());
    }
    if length > bytes.len() - start {
        return Err("truncated intent in admission epoch".to_owned());
    }
    let piece = vstd::slice::slice_subrange(bytes, start, start + length);
    let (intent, end) = decode_queued_intent(piece, 0, namespaces)?;
    if end != length {
        return Err("intent decoder did not consume its canonical bytes".to_owned());
    }
    Ok((intent, start + length))
}

fn take_entries(
    bytes: &[u8],
    at: usize,
    count: u32,
    namespaces: &mut IntentNamespaces,
) -> (result: Result<(Vec<QueuedIntent>, usize), String>)
    requires
        at <= bytes.len(),
    ensures
        match (result, taken_entries(bytes@, at as int, count as nat)) {
            (Ok((intents, next)), Ok((models, end))) => views(intents@) == models && next == end
                && next <= bytes.len(),
            (Err(message), Err(model)) => message@ == model,
            _ => false,
        },
        final(namespaces).upcoming() >= old(namespaces).upcoming(),
        result matches Ok((intents, _)) ==> clear_of(final(namespaces).upcoming(), views(intents@)),
{
    let mut intents: Vec<QueuedIntent> = Vec::new();
    let mut next: usize = at;
    let mut index: u32 = 0;
    proof {
        assert(views(intents@) =~= Seq::empty());
    }
    while index < count
        invariant
            index <= count,
            next <= bytes.len(),
            namespaces.upcoming() >= old(namespaces).upcoming(),
            clear_of(namespaces.upcoming(), views(intents@)),
            taken_entries(bytes@, at as int, index as nat) == Ok::<
                (Seq<IntentModel>, int),
                Seq<char>,
            >((views(intents@), next as int)),
        decreases count - index,
    {
        match take_entry(bytes, next, namespaces) {
            Ok((intent, end)) => {
                proof {
                    views_push(intents@, intent);
                }
                intents.push(intent);
                next = end;
            },
            Err(message) => {
                proof {
                    entry_fault_stays(bytes@, at as int, (index + 1) as nat, count as nat);
                }
                return Err(message);
            },
        }
        index += 1;
    }
    Ok((intents, next))
}

/// Reads the payload of an epoch.
pub fn decode_epoch_payload(bytes: &[u8], namespaces: &mut IntentNamespaces) -> (result: Result<
    (u64, Vec<QueuedIntent>),
    String,
>)
    ensures
        match (result, taken_epoch(bytes@)) {
            (Ok((id, intents)), Ok((number, models))) => id == number && views(intents@) == models,
            (Err(message), Err(model)) => message@ == model,
            _ => false,
        },
        final(namespaces).upcoming() >= old(namespaces).upcoming(),
        result matches Ok((_, intents)) ==> clear_of(final(namespaces).upcoming(), views(intents@)),
{
    proof {
        reveal(taken_epoch);
    }
    let (id, a) = take_u64(bytes, 0)?;
    let (count, b) = take_u32(bytes, a)?;
    let (intents, next) = take_entries(bytes, b, count, namespaces)?;
    if next != bytes.len() {
        return Err("trailing admission epoch payload bytes".to_owned());
    }
    Ok((id, intents))
}

/// The epochs of a list of lists of intents.
pub open spec fn epoch_views(epochs: Seq<Vec<QueuedIntent>>) -> Seq<Seq<IntentModel>> {
    Seq::new(epochs.len(), |i: int| views(epochs[i]@))
}

/// What is kept of a journal.
pub struct RecoveredJournal {
    pub epochs: Vec<Vec<QueuedIntent>>,
    /// Where the last complete epoch ends; the file is to be cut there.
    pub file_len: usize,
    pub total_epochs: u64,
}

enum EntryRead {
    Incomplete,
    Invalid(String),
    Complete(Vec<QueuedIntent>, usize),
}

fn read_epoch(
    bytes: &[u8],
    offset: usize,
    expected: u64,
    namespaces: &mut IntentNamespaces,
) -> (result: EntryRead)
    requires
        offset <= bytes.len(),
    ensures
        match (result, epoch_at(bytes@, offset as int, expected)) {
            (EntryRead::Incomplete, EntryModel::Incomplete) => true,
            (EntryRead::Invalid(message), EntryModel::Invalid(model)) => message@ == model,
            (EntryRead::Complete(intents, next), EntryModel::Complete(models, end)) => views(
                intents@,
            ) == models && next == end && offset < next <= bytes.len(),
            _ => false,
        },
        final(namespaces).upcoming() >= old(namespaces).upcoming(),
        result matches EntryRead::Complete(intents, _) ==> clear_of(
            final(namespaces).upcoming(),
            views(intents@),
        ),
{
    let remaining: usize = bytes.len() - offset;
    if remaining < 20 {
        return EntryRead::Incomplete;
    }
    let magic: [u8; 4] = [0x41u8, 0x45, 0x50, 0x31];
    let trailer: [u8; 4] = [0x45u8, 0x4e, 0x44, 0x31];
    proof {
        assert(magic@ =~= epoch_magic());
        assert(trailer@ =~= end_magic());
    }
    if !four_at(bytes, offset, magic) {
        return EntryRead::Invalid(labelled("invalid epoch magic at ", offset as u64));
    }
    let length: u64 = fixed_u64(bytes, offset + 4);
    if length > MAX_EPOCH_BYTES {
        return EntryRead::Invalid("epoch exceeds size limit".to_owned());
    }
    let length: usize = length as usize;
    let checksum: u64 = fixed_u64(bytes, offset + 12);
    if 24 + length > usize::MAX - offset {
        return EntryRead::Invalid("epoch length overflow".to_owned());
    }
    if remaining < 24 + length {
        return EntryRead::Incomplete;
    }
    if !four_at(bytes, offset + 20 + length, trailer) {
        return EntryRead::Invalid(labelled("invalid epoch trailer at ", offset as u64));
    }
    let payload = vstd::slice::slice_subrange(bytes, offset + 20, offset + 20 + length);
    if digest(payload) != checksum {
        return EntryRead::Invalid(labelled("epoch checksum mismatch at ", offset as u64));
    }
    match decode_epoch_payload(payload, namespaces) {
        Err(message) => EntryRead::Invalid(message),
        Ok((id, intents)) => {
            if id != expected {
                return EntryRead::Invalid(
                    describe_numbers("expected admission epoch ", expected, ", found ", id),
                );
            }
            EntryRead::Complete(intents, offset + 24 + length)
        },
    }
}

/// Reads a journal: its epochs, and where the last complete one ends.
pub fn recover_journal(bytes: &[u8], namespaces: &mut IntentNamespaces) -> (result: Result<
    RecoveredJournal,
    AdmissionEpochOpenError,
>)
    ensures
        match (result, read_journal(bytes@)) {
            (Ok(journal), Ok((epochs, end))) => epoch_views(journal.epochs@) == epochs
                && journal.file_len == end && journal.file_len <= bytes.len()
                && journal.total_epochs == epochs.len(),
            (Err(error), Err(message)) => error@ == OpenErrorModel::Format(message),
            _ => false,
        },
        final(namespaces).upcoming() >= old(namespaces).upcoming(),
        result matches Ok(journal) ==> clear_of_epochs(
            final(namespaces).upcoming(),
            epoch_views(journal.epochs@),
        ),
{
    let magic: [u8; 8] = [0x46u8, 0x54, 0x48, 0x41, 0x44, 0x4d, 0x30, 0x31];
    proof {
        assert(magic@ =~= journal_magic());
    }
    if bytes.len() < 16 || !eight_at(bytes, 0, magic) {
        return Err(AdmissionEpochOpenError::Format("invalid journal header".to_owned()));
    }
    if fixed_u32(bytes, 8) != JOURNAL_VERSION {
        return Err(AdmissionEpochOpenError::Format("unsupported journal version".to_owned()));
    }
    let mut epochs: Vec<Vec<QueuedIntent>> = Vec::new();
    let mut offset: usize = 16;
    proof {
        assert(epoch_views(epochs@) =~= Seq::empty());
    }
    loop
        invariant
            16 <= offset <= bytes.len(),
            epochs.len() <= offset,
            namespaces.upcoming() >= old(namespaces).upcoming(),
            clear_of_epochs(namespaces.upcoming(), epoch_views(epochs@)),
            read_journal(bytes@) == journal_scan(bytes@, offset as int, epoch_views(epochs@)),
        decreases bytes.len() - offset,
    {
        proof {
            assert(epoch_views(epochs@).len() == epochs.len());
        }
        if offset == bytes.len() {
            return Ok(
                RecoveredJournal {
                    total_epochs: epochs.len() as u64,
                    epochs,
                    file_len: offset,
                },
            );
        }
        let expected: u64 = epochs.len() as u64 + 1;
        let ghost before = namespaces.upcoming();
        match read_epoch(bytes, offset, expected, namespaces) {
            EntryRead::Incomplete => {
                return Ok(
                    RecoveredJournal {
                        total_epochs: epochs.len() as u64,
                        epochs,
                        file_len: offset,
                    },
                );
            },
            EntryRead::Invalid(message) => {
                return Err(AdmissionEpochOpenError::Format(message));
            },
            EntryRead::Complete(intents, next) => {
                proof {
                    stays_clear(before, namespaces.upcoming(), epoch_views(epochs@));
                    assert(epoch_views(epochs@.push(intents)) =~= epoch_views(epochs@).push(
                        views(intents@),
                    ));
                }
                epochs.push(intents);
                offset = next;
            },
        }
    }
}

} // verus!
