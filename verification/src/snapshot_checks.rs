//! What a file must satisfy to be opened as a snapshot, and where its parts stand.

use crate::digest::fnv;
use crate::image::{IndexEntry, key_le};
use crate::ordered::ascending;
use crate::rows::{read_entries, read_numbers, read_records};
use crate::snapshot_format::{
    counts_fault, entry_fault, faultless_index, faultless_records, faultless_section,
    heads_in_range, index_fault, length_word, opened, reaches_into, record_ok, section_at,
    snapshot_magic, snapshot_trailer, taken_snapshot_names,
};
use crate::string_table::{name_piece, offset_at, taken_names, taken_table, taken_table_ascends};
use crate::vocabulary::cell_ok;
use crate::wire::{u32_at, u64_at};
use vstd::prelude::*;
use vstd::utf8::*;

verus! {

/// A file opens as a snapshot only if it is whole and belongs to the journal: it begins with
/// `FTHVMS01`, version one and the length of the header, says its own length and the checksum of all
/// behind the header, ends with `VMSEND01`, and says the checksum of the journal up to the place that
/// it stands for, which is at least the header of a journal.
pub proof fn opened_snapshots_are_whole(bytes: Seq<u8>, journal: Seq<u8>)
    requires
        opened(bytes, journal) is Ok,
    ensures
        328 <= bytes.len() <= 536_870_912,
        bytes.take(8) == seq![0x46u8, 0x54, 0x48, 0x56, 0x4d, 0x53, 0x30, 0x31],
        u32_at(bytes, 8) == 1,
        u32_at(bytes, 12) == 320,
        u64_at(bytes, 16) == bytes.len(),
        u64_at(bytes, 24) == fnv(bytes.skip(320)),
        bytes.skip(bytes.len() - 8) == seq![0x56u8, 0x4d, 0x53, 0x45, 0x4e, 0x44, 0x30, 0x31],
        16 <= u64_at(bytes, 40) <= journal.len(),
        fnv(journal.take(u64_at(bytes, 40) as int)) == u64_at(bytes, 48),
{
    assert(bytes.take(8) =~= bytes.subrange(0, 8));
    assert(snapshot_magic() =~= seq![0x46u8, 0x54, 0x48, 0x56, 0x4d, 0x53, 0x30, 0x31]);
    assert(snapshot_trailer() =~= seq![0x56u8, 0x4d, 0x53, 0x45, 0x4e, 0x44, 0x30, 0x31]);
    assert(bytes.skip(320) =~= bytes.subrange(320, bytes.len() as int));
    assert(bytes.skip(bytes.len() - 8) =~= bytes.subrange(
        bytes.len() - 8,
        bytes.len() as int,
    ));
}

/// The ten sections of a snapshot lie between its header and its end, and no two of them share a
/// byte. Section `i` starts where the word at `112 + 16 i` says, and is as long as the next word.
pub proof fn sections_lie_apart(bytes: Seq<u8>, journal: Seq<u8>, i: int, j: int)
    requires
        opened(bytes, journal) is Ok,
        0 <= i < 10,
        0 <= j < 10,
    ensures
        320 <= u64_at(bytes, 112 + 16 * i),
        u64_at(bytes, 112 + 16 * i) + u64_at(bytes, 120 + 16 * i) <= bytes.len() - 8,
        i != j ==> {
            ||| u64_at(bytes, 112 + 16 * i) + u64_at(bytes, 120 + 16 * i) <= u64_at(
                bytes,
                112 + 16 * j,
            )
            ||| u64_at(bytes, 112 + 16 * j) + u64_at(bytes, 120 + 16 * j) <= u64_at(
                bytes,
                112 + 16 * i,
            )
        },
{
    faultless_section(bytes, 10, i);
    faultless_section(bytes, 10, j);
    assert(!reaches_into(bytes, i, j));
    assert(!reaches_into(bytes, j, i));
}

/// What a snapshot says stands at fixed places of its header: the epochs at 32, the place in the
/// journal at 40, the world at 56, its version at 64, the next number at 72, the operations at 80,
/// the active definitions at 88, the records at 96 and the frames at 104; the frames are as many as
/// the history in the last section says.
pub proof fn headers_say_what_snapshots_hold(bytes: Seq<u8>, journal: Seq<u8>)
    requires
        opened(bytes, journal) is Ok,
    ensures
        ({
            let snapshot = opened(bytes, journal)->Ok_0;
            let history = u64_at(bytes, 256) as int;
            &&& snapshot.epoch_count == u64_at(bytes, 32)
            &&& snapshot.journal_offset == u64_at(bytes, 40)
            &&& snapshot.world_id.0 == u64_at(bytes, 56)
            &&& snapshot.world_version == u64_at(bytes, 64)
            &&& snapshot.next_entity == u64_at(bytes, 72)
            &&& snapshot.operation_count == u64_at(bytes, 80)
            &&& snapshot.image.active.len() == u64_at(bytes, 88)
            &&& snapshot.record_count == u64_at(bytes, 96)
            &&& snapshot.frame_count == u64_at(bytes, 104)
            &&& snapshot.history == bytes.subrange(history, history + u64_at(bytes, 264))
            &&& snapshot.history.len() >= 8
            &&& u64_at(snapshot.history, 0) == snapshot.frame_count
            &&& snapshot.image.spo.len() == snapshot.image.active.len()
            &&& snapshot.image.pos.len() == snapshot.image.active.len()
            &&& snapshot.image.osp.len() == snapshot.image.active.len()
            &&& snapshot.image.heads.len() == snapshot.image.names.slots.len()
            &&& snapshot.image.records.len() * 48 == u64_at(bytes, 168)
        }),
{
    let names = taken_snapshot_names(bytes)->Ok_0;
    faultless_section(bytes, 10, 9);
    faultless_section(bytes, 10, 8);
    faultless_section(bytes, 10, 7);
    faultless_section(bytes, 10, 6);
    faultless_section(bytes, 10, 5);
    faultless_section(bytes, 10, 4);
    faultless_section(bytes, 10, 3);
    assert(counts_fault(bytes, names.slots.len()) is None);
    assert(section_at(bytes, 3).len() == length_word(bytes, 3));
    assert(section_at(bytes, 4).len() == length_word(bytes, 4));
    assert(section_at(bytes, 5).len() == length_word(bytes, 5));
    assert(section_at(bytes, 6).len() == length_word(bytes, 6));
    assert(section_at(bytes, 7).len() == length_word(bytes, 7));
    assert(section_at(bytes, 8).len() == length_word(bytes, 8));
}

/// Every record of a snapshot names a slot, a predicate and atoms that there are, and points back to
/// nothing or to an earlier record; every slot has no newest record or one that there is.
pub proof fn snapshot_records_are_in_range(bytes: Seq<u8>, journal: Seq<u8>, index: int)
    requires
        opened(bytes, journal) is Ok,
    ensures
        ({
            let image = opened(bytes, journal)->Ok_0.image;
            &&& 0 <= index < image.records.len() ==> {
                let record = image.records[index];
                &&& record.slot < image.names.slots.len()
                &&& record.predicate < image.names.predicates.len()
                &&& record.previous == 0xffff_ffff || record.previous < index
                &&& cell_ok(image.names, record.subject)
                &&& cell_ok(image.names, record.object)
            }
            &&& 0 <= index < image.heads.len() ==> image.heads[index] == 0xffff_ffff
                || image.heads[index] < image.records.len()
        }),
{
    let image = opened(bytes, journal)->Ok_0.image;
    faultless_records(image, image.records.len());
    if 0 <= index < image.records.len() {
        assert(record_ok(image, index));
    }
    if 0 <= index < image.heads.len() {
        assert(heads_in_range(image));
    }
}

/// Entries ascend from any place to any later one, and name records that there are.
pub open spec fn sorted_entries(records: nat, entries: Seq<IndexEntry>) -> bool {
    &&& forall|i: int| 0 <= i < entries.len() ==> (#[trigger] entries[i]).record < records
    &&& forall|i: int, j: int|
        0 <= i < j < entries.len() ==> {
            let left = #[trigger] entries[i];
            let right = #[trigger] entries[j];
            ||| left.first < right.first
            ||| left.first == right.first && left.second < right.second
            ||| left.first == right.first && left.second == right.second && left.third
                <= right.third
        }
}

proof fn faultless_entries_ascend(records: nat, entries: Seq<IndexEntry>)
    requires
        index_fault(records, entries, entries.len()) is None,
    ensures
        sorted_entries(records, entries),
{
    faultless_index(records, entries, entries.len());
    assert forall|i: int| 0 <= i < entries.len() implies (#[trigger] entries[i]).record
        < records by {
        assert(entry_fault(records, entries, i) is None);
    }
    assert forall|i: int, j: int| 0 <= i < j < entries.len() implies ({
        let left = #[trigger] entries[i];
        let right = #[trigger] entries[j];
        ||| left.first < right.first
        ||| left.first == right.first && left.second < right.second
        ||| left.first == right.first && left.second == right.second && left.third <= right.third
    }) by {
        entries_climb(records, entries, i, j);
    }
}

proof fn entries_climb(records: nat, entries: Seq<IndexEntry>, i: int, j: int)
    requires
        forall|k: int|
            0 <= k < entries.len() ==> #[trigger] entry_fault(records, entries, k) is None,
        0 <= i < j < entries.len(),
    ensures
        key_le(entries[i], entries[j]),
    decreases j - i,
{
    assert(entry_fault(records, entries, j) is None);
    if i < j - 1 {
        entries_climb(records, entries, i, j - 1);
    }
}

/// The three indexes of a snapshot are sorted and name records that there are.
pub proof fn snapshot_indexes_are_sorted(bytes: Seq<u8>, journal: Seq<u8>)
    requires
        opened(bytes, journal) is Ok,
    ensures
        ({
            let image = opened(bytes, journal)->Ok_0.image;
            &&& sorted_entries(image.records.len(), image.spo)
            &&& sorted_entries(image.records.len(), image.pos)
            &&& sorted_entries(image.records.len(), image.osp)
        }),
{
    let image = opened(bytes, journal)->Ok_0.image;
    faultless_entries_ascend(image.records.len(), image.spo);
    faultless_entries_ascend(image.records.len(), image.pos);
    faultless_entries_ascend(image.records.len(), image.osp);
}

/// The names of a snapshot stand in its first three sections, and each table ascends.
pub proof fn snapshot_names_ascend(bytes: Seq<u8>, journal: Seq<u8>)
    requires
        opened(bytes, journal) is Ok,
    ensures
        ({
            let names = opened(bytes, journal)->Ok_0.image.names;
            let section = |i: int|
                bytes.subrange(
                    u64_at(bytes, 112 + 16 * i) as int,
                    u64_at(bytes, 112 + 16 * i) + u64_at(bytes, 120 + 16 * i),
                );
            &&& taken_table(section(0)) == Ok::<Seq<Seq<char>>, Seq<char>>(names.slots)
            &&& taken_table(section(1)) == Ok::<Seq<Seq<char>>, Seq<char>>(names.predicates)
            &&& taken_table(section(2)) == Ok::<Seq<Seq<char>>, Seq<char>>(names.literals)
            &&& ascending(names.slots)
            &&& ascending(names.predicates)
            &&& ascending(names.literals)
            &&& names.displaced.len() == 0
        }),
{
    taken_table_ascends(section_at(bytes, 0));
    taken_table_ascends(section_at(bytes, 1));
    taken_table_ascends(section_at(bytes, 2));
}

/// A table is read only if its directory leads through all of it: name `i` is the text between the
/// words at `8 + 8 i` and behind, the first starts at nothing, none starts in front of the one before,
/// and the last ends with the table.
pub proof fn tables_are_read_whole(section: Seq<u8>, index: int)
    requires
        taken_table(section) is Ok,
        0 <= index < taken_table(section)->Ok_0.len(),
    ensures
        ({
            let names = taken_table(section)->Ok_0;
            let start = 16 + 8 * names.len() as int;
            let from = u64_at(section, 8 + 8 * index);
            let to = u64_at(section, 16 + 8 * index);
            &&& names.len() == u32_at(section, 0)
            &&& from <= to
            &&& index == 0 ==> from == 0
            &&& index == names.len() - 1 ==> start + to == section.len()
            &&& valid_utf8(section.subrange(start + from, start + to))
            &&& names[index] == decode_utf8(section.subrange(start + from, start + to))
        }),
{
    reveal(taken_table);
    taken_table_ascends(section);
    let count = u32_at(section, 0);
    assert(offset_at(section, index) <= offset_at(section, index + 1));
    names_stand_in_order(section, count as nat, index);
}

proof fn names_stand_in_order(section: Seq<u8>, count: nat, index: int)
    requires
        taken_names(section, count) is Ok,
        0 <= index < count,
    ensures
        taken_names(section, count)->Ok_0.len() == count,
        valid_utf8(name_piece(section, index)),
        taken_names(section, count)->Ok_0[index] == decode_utf8(name_piece(section, index)),
    decreases count,
{
    let less = (count - 1) as nat;
    if less > 0 {
        names_stand_in_order(
            section,
            less,
            if index < less {
                index
            } else {
                0
            },
        );
    } else {
        assert(taken_names(section, 0) == Ok::<Seq<Seq<char>>, Seq<char>>(Seq::empty()));
    }
}

/// A row of a record has 48 bytes, one of an index 32, one of a number 4; each field stands at its
/// place in the row.
pub proof fn rows_stand_in_place(section: Seq<u8>, index: int)
    requires
        0 <= index,
    ensures
        48 * (index + 1) <= section.len() ==> {
            let record = read_records(section)[index];
            &&& record.original_id == u64_at(section, 48 * index)
            &&& record.slot == u32_at(section, 48 * index + 8)
            &&& record.previous == u32_at(section, 48 * index + 12)
            &&& record.subject == u64_at(section, 48 * index + 16)
            &&& record.predicate == u32_at(section, 48 * index + 24)
            &&& record.object == u64_at(section, 48 * index + 32)
        },
        32 * (index + 1) <= section.len() ==> {
            let entry = read_entries(section)[index];
            &&& entry.first == u64_at(section, 32 * index)
            &&& entry.second == u64_at(section, 32 * index + 8)
            &&& entry.third == u64_at(section, 32 * index + 16)
            &&& entry.record == u32_at(section, 32 * index + 24)
        },
        4 * (index + 1) <= section.len() ==> read_numbers(section)[index] == u32_at(
            section,
            4 * index,
        ),
{
}

} // verus!
