//! The bytes of a snapshot: a header, ten aligned sections, and a trailer.

use crate::digest::fnv;
use crate::frame::WorldId;
use crate::image::{ImageModel, IndexEntry, key_le};
use crate::rows::{
    entry_rows, number_rows, read_entries, read_numbers, read_records, record_rows, rows_bytes,
    word_rows,
};
use crate::string_table::{table_bytes, taken_table};
use crate::text::decimal;
use crate::vm::NONE;
use crate::vocabulary::{VocabularyModel, cell_ok};
use crate::wire::{le32, stands_at, u32_at, u64_at};
use vstd::prelude::*;
use vstd::string::*;

verus! {

pub const MAX_SNAPSHOT_BYTES: usize = 536_870_912;

/// `FTHVMS01`
pub open spec fn snapshot_magic() -> Seq<u8> {
    seq![70u8, 84, 72, 86, 77, 83, 48, 49]
}

/// `VMSEND01`
pub open spec fn snapshot_trailer() -> Seq<u8> {
    seq![86u8, 77, 83, 69, 78, 68, 48, 49]
}

/// What a snapshot holds.
pub struct SnapshotModel {
    pub epoch_count: u64,
    pub journal_offset: u64,
    pub world_id: WorldId,
    pub world_version: u64,
    pub next_entity: u64,
    pub operation_count: nat,
    pub record_count: nat,
    pub frame_count: nat,
    pub image: ImageModel,
    /// The encoded history.
    pub history: Seq<u8>,
}

/// The sections in their order.
pub open spec fn sections_of(image: ImageModel, history: Seq<u8>) -> Seq<Seq<u8>> {
    seq![
        table_bytes(image.names.slots),
        table_bytes(image.names.predicates),
        table_bytes(image.names.literals),
        rows_bytes(record_rows(image.records)),
        rows_bytes(number_rows(image.heads)),
        rows_bytes(number_rows(image.active)),
        rows_bytes(entry_rows(image.spo)),
        rows_bytes(entry_rows(image.pos)),
        rows_bytes(entry_rows(image.osp)),
        history,
    ]
}

/// How many bytes bring a length to a multiple of eight.
pub open spec fn padding(length: nat) -> nat {
    ((8 - (length % 8) as int) % 8) as nat
}

pub open spec fn zeros(count: nat) -> Seq<u8> {
    Seq::new(count, |i: int| 0u8)
}

/// The first sections, each aligned.
pub open spec fn laid(sections: Seq<Seq<u8>>, count: nat) -> Seq<u8>
    decreases count,
{
    if count == 0 {
        Seq::empty()
    } else {
        let front = laid(sections, (count - 1) as nat);
        front + zeros(padding(front.len())) + sections[count - 1]
    }
}

/// Where a section starts in the file.
pub open spec fn section_start(sections: Seq<Seq<u8>>, index: int) -> int {
    let front = laid(sections, index as nat).len();
    (320 + front + padding(front)) as int
}

/// What stands behind the header.
pub open spec fn snapshot_body(sections: Seq<Seq<u8>>) -> Seq<u8> {
    laid(sections, sections.len()) + snapshot_trailer()
}

/// The words of the header behind its first sixteen bytes.
pub open spec fn header_word(
    snapshot: SnapshotModel,
    journal: Seq<u8>,
    sections: Seq<Seq<u8>>,
    index: int,
) -> u64 {
    if index == 0 {
        (320 + snapshot_body(sections).len()) as u64
    } else if index == 1 {
        fnv(snapshot_body(sections))
    } else if index == 2 {
        snapshot.epoch_count
    } else if index == 3 {
        snapshot.journal_offset
    } else if index == 4 {
        fnv(journal)
    } else if index == 5 {
        snapshot.world_id.0
    } else if index == 6 {
        snapshot.world_version
    } else if index == 7 {
        snapshot.next_entity
    } else if index == 8 {
        snapshot.operation_count as u64
    } else if index == 9 {
        snapshot.image.active.len() as u64
    } else if index == 10 {
        snapshot.record_count as u64
    } else if index == 11 {
        snapshot.frame_count as u64
    } else if index < 32 {
        if index % 2 == 0 {
            section_start(sections, (index - 12) / 2) as u64
        } else {
            sections[(index - 12) / 2].len() as u64
        }
    } else {
        0
    }
}

pub open spec fn header_words(
    snapshot: SnapshotModel,
    journal: Seq<u8>,
    sections: Seq<Seq<u8>>,
) -> Seq<u64> {
    Seq::new(38, |i: int| header_word(snapshot, journal, sections, i))
}

pub open spec fn snapshot_header(
    snapshot: SnapshotModel,
    journal: Seq<u8>,
    sections: Seq<Seq<u8>>,
) -> Seq<u8> {
    snapshot_magic() + (le32(1) + (le32(320) + rows_bytes(
        word_rows(header_words(snapshot, journal, sections)),
    )))
}

/// The whole file of a snapshot that was made behind a journal.
pub open spec fn snapshot_file(snapshot: SnapshotModel, journal: Seq<u8>) -> Seq<u8> {
    let sections = sections_of(snapshot.image, snapshot.history);
    snapshot_header(snapshot, journal, sections) + snapshot_body(sections)
}

/// The outer frame of a file is that of a snapshot.
pub open spec fn envelope_ok(bytes: Seq<u8>) -> bool {
    &&& 328 <= bytes.len() <= MAX_SNAPSHOT_BYTES
    &&& stands_at(bytes, 0, snapshot_magic())
    &&& u32_at(bytes, 8) == 1
    &&& u32_at(bytes, 12) == 320
    &&& u64_at(bytes, 16) == bytes.len()
    &&& stands_at(bytes, bytes.len() - 8, snapshot_trailer())
    &&& u64_at(bytes, 24) == fnv(bytes.subrange(320, bytes.len() as int))
}

pub open spec fn journal_fault(bytes: Seq<u8>, journal: Seq<u8>) -> Option<Seq<char>> {
    let offset = u64_at(bytes, 40);
    if offset > usize::MAX {
        Some("snapshot journal offset exceeds address space"@)
    } else if offset < 16 || offset > journal.len() || fnv(journal.take(offset as int)) != u64_at(
        bytes,
        48,
    ) {
        Some("mmap VM snapshot does not match the journal prefix"@)
    } else {
        None
    }
}

/// Where a section starts, as the header says.
pub open spec fn start_word(bytes: Seq<u8>, index: int) -> u64 {
    u64_at(bytes, 112 + 16 * index)
}

/// How long a section is, as the header says.
pub open spec fn length_word(bytes: Seq<u8>, index: int) -> u64 {
    u64_at(bytes, 120 + 16 * index)
}

pub open spec fn section_fault(bytes: Seq<u8>, index: int) -> Option<Seq<char>> {
    let start = start_word(bytes, index);
    let length = length_word(bytes, index);
    if start > usize::MAX {
        Some("snapshot section offset exceeds address space"@)
    } else if length > usize::MAX {
        Some("snapshot section length exceeds address space"@)
    } else if start + length > usize::MAX {
        Some("snapshot section length overflow"@)
    } else if start < 320 || start + length > bytes.len() - 8 {
        Some("snapshot section is out of range"@)
    } else {
        None
    }
}

/// The fault of the first bad section.
pub open spec fn sections_fault(bytes: Seq<u8>, count: nat) -> Option<Seq<char>>
    decreases count,
{
    if count == 0 {
        None
    } else {
        match sections_fault(bytes, (count - 1) as nat) {
            Some(message) => Some(message),
            None => section_fault(bytes, count - 1),
        }
    }
}

/// One section lies before another; of two that start together, the first.
pub open spec fn lies_before(bytes: Seq<u8>, left: int, right: int) -> bool {
    start_word(bytes, left) < start_word(bytes, right) || (start_word(bytes, left) == start_word(
        bytes,
        right,
    ) && left < right)
}

/// One section reaches into the next.
pub open spec fn reaches_into(bytes: Seq<u8>, left: int, right: int) -> bool {
    lies_before(bytes, left, right) && start_word(bytes, left) + length_word(bytes, left)
        > start_word(bytes, right)
}

pub open spec fn sections_overlap(bytes: Seq<u8>) -> bool {
    exists|i: int, j: int|
        0 <= i < 10 && 0 <= j < 10 && #[trigger] reaches_into(bytes, i, j)
}

/// The bytes of a section.
pub open spec fn section_at(bytes: Seq<u8>, index: int) -> Seq<u8> {
    bytes.subrange(
        start_word(bytes, index) as int,
        start_word(bytes, index) + length_word(bytes, index),
    )
}

/// The names of a snapshot.
pub open spec fn taken_snapshot_names(bytes: Seq<u8>) -> Result<VocabularyModel, Seq<char>> {
    match taken_table(section_at(bytes, 0)) {
        Err(message) => Err(message),
        Ok(slots) => match taken_table(section_at(bytes, 1)) {
            Err(message) => Err(message),
            Ok(predicates) => match taken_table(section_at(bytes, 2)) {
                Err(message) => Err(message),
                Ok(literals) => Ok(
                    VocabularyModel { slots, predicates, literals, displaced: Seq::empty() },
                ),
            },
        },
    }
}

/// The counts of a snapshot agree with its sections.
pub open spec fn counts_fault(bytes: Seq<u8>, slots: nat) -> Option<Seq<char>> {
    let active = length_word(bytes, 5) / 4;
    if length_word(bytes, 3) % 48 != 0 || length_word(bytes, 4) != 4 * slots || length_word(
        bytes,
        5,
    ) % 4 != 0 || length_word(bytes, 6) % 32 != 0 || length_word(bytes, 7) % 32 != 0 || length_word(
        bytes,
        8,
    ) % 32 != 0 {
        Some("snapshot fixed-width section has an invalid length"@)
    } else if active != u64_at(bytes, 88) || length_word(bytes, 6) / 32 != active || length_word(
        bytes,
        7,
    ) / 32 != active || length_word(bytes, 8) / 32 != active {
        Some("snapshot active index counts disagree"@)
    } else if u64_at(bytes, 80) > usize::MAX {
        Some("snapshot operation count exceeds address space"@)
    } else if u64_at(bytes, 96) > usize::MAX {
        Some("snapshot record count exceeds address space"@)
    } else if u64_at(bytes, 104) > usize::MAX {
        Some("snapshot frame count exceeds address space"@)
    } else if length_word(bytes, 9) < 8 {
        Some("snapshot history count disagrees with metadata"@)
    } else if u64_at(section_at(bytes, 9), 0) > usize::MAX {
        Some("snapshot history count exceeds address space"@)
    } else if u64_at(section_at(bytes, 9), 0) != u64_at(bytes, 104) {
        Some("snapshot history count disagrees with metadata"@)
    } else {
        None
    }
}

/// A record names what there is, and comes after the record it points back to.
pub open spec fn record_ok(image: ImageModel, index: int) -> bool {
    let record = image.records[index];
    &&& record.slot < image.names.slots.len()
    &&& record.predicate < image.names.predicates.len()
    &&& record.previous == NONE || record.previous < index
    &&& cell_ok(image.names, record.subject)
    &&& cell_ok(image.names, record.object)
}

/// The fault of the first bad record.
pub open spec fn records_fault(image: ImageModel, count: nat) -> Option<Seq<char>>
    decreases count,
{
    if count == 0 {
        None
    } else {
        match records_fault(image, (count - 1) as nat) {
            Some(message) => Some(message),
            None => if record_ok(image, count - 1) {
                None
            } else {
                Some("invalid mapped fact record "@ + decimal((count - 1) as nat))
            },
        }
    }
}

pub open spec fn entry_fault(
    records: nat,
    entries: Seq<IndexEntry>,
    index: int,
) -> Option<Seq<char>> {
    if entries[index].record >= records {
        Some("mapped index record exceeds arena"@)
    } else if index > 0 && !key_le(entries[index - 1], entries[index]) {
        Some("mapped index is not sorted"@)
    } else {
        None
    }
}

/// The fault of the first bad entry of an index.
pub open spec fn index_fault(records: nat, entries: Seq<IndexEntry>, count: nat) -> Option<
    Seq<char>,
>
    decreases count,
{
    if count == 0 {
        None
    } else {
        match index_fault(records, entries, (count - 1) as nat) {
            Some(message) => Some(message),
            None => entry_fault(records, entries, count - 1),
        }
    }
}

/// Every slot has no record, or one that there is.
pub open spec fn heads_in_range(image: ImageModel) -> bool {
    forall|t: int|
        0 <= t < image.heads.len() ==> #[trigger] image.heads[t] == NONE || image.heads[t]
            < image.records.len()
}

pub open spec fn image_fault(image: ImageModel) -> Option<Seq<char>> {
    match records_fault(image, image.records.len()) {
        Some(message) => Some(message),
        None => if !heads_in_range(image) {
            Some("mapped slot head exceeds record section"@)
        } else {
            match index_fault(image.records.len(), image.spo, image.spo.len()) {
                Some(message) => Some(message),
                None => match index_fault(image.records.len(), image.pos, image.pos.len()) {
                    Some(message) => Some(message),
                    None => index_fault(image.records.len(), image.osp, image.osp.len()),
                },
            }
        },
    }
}

/// The tables of a snapshot file.
pub open spec fn image_in(bytes: Seq<u8>, names: VocabularyModel) -> ImageModel {
    ImageModel {
        names,
        records: read_records(section_at(bytes, 3)),
        heads: read_numbers(section_at(bytes, 4)),
        active: read_numbers(section_at(bytes, 5)),
        spo: read_entries(section_at(bytes, 6)),
        pos: read_entries(section_at(bytes, 7)),
        osp: read_entries(section_at(bytes, 8)),
    }
}

pub open spec fn snapshot_in(bytes: Seq<u8>, names: VocabularyModel) -> SnapshotModel {
    SnapshotModel {
        epoch_count: u64_at(bytes, 32),
        journal_offset: u64_at(bytes, 40),
        world_id: WorldId(u64_at(bytes, 56)),
        world_version: u64_at(bytes, 64),
        next_entity: u64_at(bytes, 72),
        operation_count: u64_at(bytes, 80) as nat,
        record_count: u64_at(bytes, 96) as nat,
        frame_count: u64_at(bytes, 104) as nat,
        image: image_in(bytes, names),
        history: section_at(bytes, 9),
    }
}

/// What is wrong with the frame of a snapshot file, if anything.
pub open spec fn outer_fault(bytes: Seq<u8>, journal: Seq<u8>) -> Option<Seq<char>> {
    if !envelope_ok(bytes) {
        Some("invalid mmap VM snapshot envelope"@)
    } else {
        match journal_fault(bytes, journal) {
            Some(message) => Some(message),
            None => match sections_fault(bytes, 10) {
                Some(message) => Some(message),
                None => if sections_overlap(bytes) {
                    Some("snapshot sections overlap"@)
                } else {
                    None
                },
            },
        }
    }
}

/// Reads a snapshot that belongs to a journal.
pub open spec fn opened(bytes: Seq<u8>, journal: Seq<u8>) -> Result<SnapshotModel, Seq<char>> {
    match outer_fault(bytes, journal) {
        Some(message) => Err(message),
        None => match taken_snapshot_names(bytes) {
            Err(message) => Err(message),
            Ok(names) => match counts_fault(bytes, names.slots.len()) {
                Some(message) => Err(message),
                None => match image_fault(image_in(bytes, names)) {
                    Some(message) => Err(message),
                    None => Ok(snapshot_in(bytes, names)),
                },
            },
        },
    }
}

/// A section that has no fault lies in the file.
pub proof fn faultless_section(bytes: Seq<u8>, count: nat, index: int)
    requires
        sections_fault(bytes, count) is None,
        0 <= index < count,
    ensures
        section_fault(bytes, index) is None,
    decreases count,
{
    if index < count - 1 {
        faultless_section(bytes, (count - 1) as nat, index);
    }
}

pub proof fn first_section_fault_stays(bytes: Seq<u8>, some: nat, count: nat)
    requires
        some <= count,
        sections_fault(bytes, some) is Some,
    ensures
        sections_fault(bytes, count) == sections_fault(bytes, some),
    decreases count,
{
    if some < count {
        first_section_fault_stays(bytes, some, (count - 1) as nat);
    }
}

pub proof fn record_fault_stays(image: ImageModel, some: nat, count: nat)
    requires
        some <= count,
        records_fault(image, some) is Some,
    ensures
        records_fault(image, count) == records_fault(image, some),
    decreases count,
{
    if some < count {
        record_fault_stays(image, some, (count - 1) as nat);
    }
}

pub proof fn index_fault_stays(records: nat, entries: Seq<IndexEntry>, some: nat, count: nat)
    requires
        some <= count,
        index_fault(records, entries, some) is Some,
    ensures
        index_fault(records, entries, count) == index_fault(records, entries, some),
    decreases count,
{
    if some < count {
        index_fault_stays(records, entries, some, (count - 1) as nat);
    }
}

/// Records without a fault.
pub proof fn faultless_records(image: ImageModel, count: nat)
    requires
        count <= image.records.len(),
    ensures
        records_fault(image, count) is None <==> forall|i: int|
            0 <= i < count ==> #[trigger] record_ok(image, i),
    decreases count,
{
    if count > 0 {
        faultless_records(image, (count - 1) as nat);
        if records_fault(image, count) is None {
            assert forall|i: int| 0 <= i < count implies #[trigger] record_ok(image, i) by {
                if i < count - 1 {
                }
            }
        } else {
            assert(!record_ok(image, count - 1) || records_fault(image, (count - 1) as nat)
                is Some);
        }
    }
}

/// An index without a fault points at records and ascends.
pub proof fn faultless_index(records: nat, entries: Seq<IndexEntry>, count: nat)
    requires
        count <= entries.len(),
    ensures
        index_fault(records, entries, count) is None <==> forall|i: int|
            0 <= i < count ==> #[trigger] entry_fault(records, entries, i) is None,
    decreases count,
{
    if count > 0 {
        faultless_index(records, entries, (count - 1) as nat);
        if index_fault(records, entries, count) is None {
            assert forall|i: int| 0 <= i < count implies #[trigger] entry_fault(
                records,
                entries,
                i,
            ) is None by {
                if i < count - 1 {
                }
            }
        } else {
            assert(entry_fault(records, entries, count - 1) is Some || index_fault(
                records,
                entries,
                (count - 1) as nat,
            ) is Some);
        }
    }
}

} // verus!
