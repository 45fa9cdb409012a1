//! What holds of every snapshot file.

use crate::digest::fnv;
use crate::frame::FrameModel;
use crate::history_codec::{frames32_bytes, frames_fit, history_bytes, history_reads, taken_history};
use crate::image::{
    ImageModel, IndexEntry, IndexShape, MappedRecord, entry_le, entry_of, image_holds_definitions,
    image_records, image_records_grow, images, index_of, mapped_active, mapped_definitions,
    record_of, records_stand_for_facts, slot_definitions, slot_definitions_facts, unmappable,
};
use crate::image_build::active_has_head;
use crate::kernel::{DefinitionModel, active, active_fact, slot_facts};
use crate::ordered::ascending;
use crate::rows::{
    entries_read_back, numbers_read_back, records_read_back, rows_bytes, word_rows, words_stand,
};
use crate::snapshot_format::{
    MAX_SNAPSHOT_BYTES, SnapshotModel, counts_fault, entry_fault, envelope_ok, faultless_index,
    faultless_records, header_word, header_words, image_fault, image_in, index_fault, laid,
    length_word, opened, outer_fault, padding, reaches_into, record_ok, section_at, section_start,
    sections_fault, sections_of, sections_overlap, snapshot_body, snapshot_file, snapshot_header,
    snapshot_in, snapshot_magic, snapshot_trailer, start_word, taken_snapshot_names, zeros,
};
use crate::string_table::table_reads_back;
use crate::vm::NONE;
use crate::vocabulary::{VocabularyModel, tables_ok, token_facts, token_of};
use crate::wire::{
    le32, le32_facts, le32_stands, le64, le64_facts, le64_stands, stands_at, stands_at_split,
    u32_at, u64_at, whole_stands,
};
use crate::world::WorldModel;
use vstd::prelude::*;
use vstd::string::*;

verus! {

/// The tables of definitions have no fault.
pub proof fn image_has_no_fault(image: ImageModel, live: Seq<DefinitionModel>)
    requires
        images(image, live),
        tables_ok(image.names),
        !unmappable(live),
        image.records.len() < NONE,
    ensures
        image_fault(image) is None,
        image.heads.len() == image.names.slots.len(),
        image.spo.len() == image.active.len(),
        image.pos.len() == image.active.len(),
        image.osp.len() == image.active.len(),
{
    let names = image.names;
    assert forall|i: int| 0 <= i < image.records.len() implies #[trigger] record_ok(image, i) by {
        image_record_ok(image, live, names.slots.len(), i);
    }
    faultless_records(image, image.records.len());
    assert forall|t: int| 0 <= t < image.heads.len() implies #[trigger] image.heads[t] == NONE
        || image.heads[t] < image.records.len() by {
        image_records_grow(names, live, (t + 1) as nat, names.slots.len());
    }
    assert forall|i: int| 0 <= i < image.active.len() implies (#[trigger] image.active[i])
        < image.records.len() by {
        active_has_head(names, live, i);
        let slot = active(live)[i].slot;
        token_facts(names.slots, slot);
        image_records_grow(
            names,
            live,
            (token_of(names.slots, slot) + 1) as nat,
            names.slots.len(),
        );
    }
    index_has_no_fault(
        image.records,
        image.active,
        image.spo,
        IndexShape::SubjectPredicateObject,
    );
    index_has_no_fault(
        image.records,
        image.active,
        image.pos,
        IndexShape::PredicateObjectSubject,
    );
    index_has_no_fault(
        image.records,
        image.active,
        image.osp,
        IndexShape::ObjectSubjectPredicate,
    );
}

proof fn image_record_ok(image: ImageModel, live: Seq<DefinitionModel>, count: nat, index: int)
    requires
        images(image, live),
        tables_ok(image.names),
        !unmappable(live),
        image.records.len() < NONE,
        count <= image.names.slots.len(),
        0 <= index < image_records(image.names, live, count).len(),
    ensures
        record_ok(image, index),
    decreases count,
{
    let names = image.names;
    if count > 0 {
        let front = image_records(names, live, (count - 1) as nat);
        let upto = image_records(names, live, count);
        image_records_grow(names, live, count, names.slots.len());
        assert(image.records.take(upto.len() as int)[index] == image.records[index]);
        if index < front.len() {
            image_record_ok(image, live, (count - 1) as nat, index);
        } else {
            let slot = names.slots[count - 1];
            let definitions = slot_definitions(live, slot);
            let place = index - front.len();
            slot_definitions_facts(live, slot);
            let previous = if place == 0 {
                NONE
            } else {
                (front.len() + place - 1) as u32
            };
            assert(upto[index] == record_of(
                names,
                definitions[place],
                (count - 1) as u32,
                previous,
            ));
            let j = choose|j: int|
                0 <= j < live.len() && live[j] == #[trigger] definitions[place] && live[j].slot
                    == slot;
            assert(live[j] == definitions[place]);
            records_stand_for_facts(
                names,
                live,
                definitions[place],
                (count - 1) as u32,
                previous,
            );
        }
    }
}

proof fn index_has_no_fault(
    records: Seq<MappedRecord>,
    active: Seq<u32>,
    entries: Seq<IndexEntry>,
    shape: IndexShape,
)
    requires
        index_of(records, active, entries, shape),
        forall|i: int| 0 <= i < active.len() ==> (#[trigger] active[i]) < records.len(),
    ensures
        index_fault(records.len(), entries, entries.len()) is None,
        entries.len() == active.len(),
{
    let listed = Seq::new(active.len(), |i: int| entry_of(records, active[i], shape));
    entries.to_multiset_ensures();
    listed.to_multiset_ensures();
    assert(entries.len() == entries.to_multiset().len());
    assert(listed.len() == listed.to_multiset().len());
    assert forall|i: int| 0 <= i < entries.len() implies #[trigger] entry_fault(
        records.len(),
        entries,
        i,
    ) is None by {
        assert(entries.contains(entries[i]));
        assert(entries.to_multiset().count(entries[i]) > 0);
        assert(listed.contains(entries[i]));
        let j = choose|j: int| 0 <= j < listed.len() && listed[j] == entries[i];
        assert(entries[i].record == active[j]);
        if i > 0 {
            assert(entry_le(records, entries[i - 1], entries[i]));
        }
    }
    faultless_index(records.len(), entries, entries.len());
}

/// Where the sections of a file stand.
proof fn sections_stand(bytes: Seq<u8>, sections: Seq<Seq<u8>>, count: nat, index: int)
    requires
        stands_at(bytes, 320, laid(sections, count)),
        0 <= index < count,
    ensures
        stands_at(bytes, section_start(sections, index), sections[index]),
        section_start(sections, index) + sections[index].len() == 320 + laid(
            sections,
            (index + 1) as nat,
        ).len(),
        laid(sections, (index + 1) as nat).len() <= laid(sections, count).len(),
    decreases count,
{
    let front = laid(sections, (count - 1) as nat);
    let gap = zeros(padding(front.len()));
    stands_at_split(bytes, 320, front + gap, sections[count - 1]);
    stands_at_split(bytes, 320, front, gap);
    if index < count - 1 {
        sections_stand(bytes, sections, (count - 1) as nat, index);
    }
}

/// What the header of a file says.
proof fn header_reads(snapshot: SnapshotModel, journal: Seq<u8>)
    ensures
        ({
            let sections = sections_of(snapshot.image, snapshot.history);
            let bytes = snapshot_file(snapshot, journal);
            &&& bytes.len() == 320 + snapshot_body(sections).len()
            &&& stands_at(bytes, 0, snapshot_magic())
            &&& u32_at(bytes, 8) == 1
            &&& u32_at(bytes, 12) == 320
            &&& forall|i: int|
                0 <= i < 38 ==> #[trigger] u64_at(bytes, 16 + 8 * i) == header_word(
                    snapshot,
                    journal,
                    sections,
                    i,
                )
            &&& stands_at(bytes, 320, snapshot_body(sections))
        }),
{
    let sections = sections_of(snapshot.image, snapshot.history);
    let bytes = snapshot_file(snapshot, journal);
    let header = snapshot_header(snapshot, journal, sections);
    let body = snapshot_body(sections);
    let words = header_words(snapshot, journal, sections);
    let w = rows_bytes(word_rows(words));
    le32_facts(1);
    le32_facts(320);
    whole_stands(bytes);
    stands_at_split(bytes, 0, header, body);
    stands_at_split(bytes, 0, snapshot_magic(), le32(1) + (le32(320) + w));
    stands_at_split(bytes, 8, le32(1), le32(320) + w);
    stands_at_split(bytes, 12, le32(320), w);
    le32_stands(bytes, 8, 1);
    le32_stands(bytes, 12, 320);
    words_stand(bytes, 16, words);
    assert forall|i: int| 0 <= i < 38 implies #[trigger] u64_at(bytes, 16 + 8 * i) == header_word(
        snapshot,
        journal,
        sections,
        i,
    ) by {
        assert(words[i] == header_word(snapshot, journal, sections, i));
    }
}

/// A snapshot that a file can hold.
pub open spec fn snapshot_ok(snapshot: SnapshotModel, journal: Seq<u8>) -> bool {
    &&& snapshot_file(snapshot, journal).len() <= MAX_SNAPSHOT_BYTES
    &&& snapshot.journal_offset == journal.len()
    &&& journal.len() >= 16
    &&& snapshot.operation_count <= usize::MAX
    &&& snapshot.record_count <= usize::MAX
    &&& snapshot.frame_count <= usize::MAX
    &&& snapshot.history.len() >= 8
    &&& u64_at(snapshot.history, 0) == snapshot.frame_count
    &&& ascending(snapshot.image.names.slots)
    &&& ascending(snapshot.image.names.predicates)
    &&& ascending(snapshot.image.names.literals)
    &&& tables_ok(snapshot.image.names)
    &&& image_fault(snapshot.image) is None
    &&& snapshot.image.heads.len() == snapshot.image.names.slots.len()
    &&& snapshot.image.spo.len() == snapshot.image.active.len()
    &&& snapshot.image.pos.len() == snapshot.image.active.len()
    &&& snapshot.image.osp.len() == snapshot.image.active.len()
}

/// The words of the header say what the snapshot holds.
spec fn words_hold(
    bytes: Seq<u8>,
    snapshot: SnapshotModel,
    journal: Seq<u8>,
    sections: Seq<Seq<u8>>,
) -> bool {
    &&& u64_at(bytes, 16) == bytes.len()
    &&& u64_at(bytes, 24) == fnv(snapshot_body(sections))
    &&& u64_at(bytes, 32) == snapshot.epoch_count
    &&& u64_at(bytes, 40) == snapshot.journal_offset
    &&& u64_at(bytes, 48) == fnv(journal)
    &&& u64_at(bytes, 56) == snapshot.world_id.0
    &&& u64_at(bytes, 64) == snapshot.world_version
    &&& u64_at(bytes, 72) == snapshot.next_entity
    &&& u64_at(bytes, 80) == snapshot.operation_count as u64
    &&& u64_at(bytes, 88) == snapshot.image.active.len() as u64
    &&& u64_at(bytes, 96) == snapshot.record_count as u64
    &&& u64_at(bytes, 104) == snapshot.frame_count as u64
}

/// A section stands where the header says.
spec fn section_holds(bytes: Seq<u8>, sections: Seq<Seq<u8>>, index: int) -> bool {
    &&& start_word(bytes, index) == section_start(sections, index)
    &&& length_word(bytes, index) == sections[index].len()
    &&& section_at(bytes, index) == sections[index]
    &&& section_start(sections, index) + sections[index].len() <= bytes.len() - 8
    &&& section_start(sections, index) >= 320
}

proof fn words_are_held(snapshot: SnapshotModel, journal: Seq<u8>)
    requires
        snapshot_file(snapshot, journal).len() <= MAX_SNAPSHOT_BYTES,
    ensures
        words_hold(
            snapshot_file(snapshot, journal),
            snapshot,
            journal,
            sections_of(snapshot.image, snapshot.history),
        ),
{
    let sections = sections_of(snapshot.image, snapshot.history);
    header_reads(snapshot, journal);
    let bytes = snapshot_file(snapshot, journal);
    assert forall|i: int| 0 <= i < 12 implies #[trigger] u64_at(bytes, 16 + 8 * i) == header_word(
        snapshot,
        journal,
        sections,
        i,
    ) by {}
    words_one_by_one(bytes, snapshot, journal, sections);
}

proof fn words_one_by_one(
    bytes: Seq<u8>,
    snapshot: SnapshotModel,
    journal: Seq<u8>,
    sections: Seq<Seq<u8>>,
)
    requires
        bytes.len() <= MAX_SNAPSHOT_BYTES,
        bytes.len() == 320 + snapshot_body(sections).len(),
        forall|i: int|
            0 <= i < 12 ==> #[trigger] u64_at(bytes, 16 + 8 * i) == header_word(
                snapshot,
                journal,
                sections,
                i,
            ),
    ensures
        words_hold(bytes, snapshot, journal, sections),
{
    assert(u64_at(bytes, 16int + 8int * 0) == header_word(snapshot, journal, sections, 0));
    assert(u64_at(bytes, 16int + 8int * 1) == header_word(snapshot, journal, sections, 1));
    assert(u64_at(bytes, 16int + 8int * 2) == header_word(snapshot, journal, sections, 2));
    assert(u64_at(bytes, 16int + 8int * 3) == header_word(snapshot, journal, sections, 3));
    assert(u64_at(bytes, 16int + 8int * 4) == header_word(snapshot, journal, sections, 4));
    assert(u64_at(bytes, 16int + 8int * 5) == header_word(snapshot, journal, sections, 5));
    assert(u64_at(bytes, 16int + 8int * 6) == header_word(snapshot, journal, sections, 6));
    assert(u64_at(bytes, 16int + 8int * 7) == header_word(snapshot, journal, sections, 7));
    assert(u64_at(bytes, 16int + 8int * 8) == header_word(snapshot, journal, sections, 8));
    assert(u64_at(bytes, 16int + 8int * 9) == header_word(snapshot, journal, sections, 9));
    assert(u64_at(bytes, 16int + 8int * 10) == header_word(snapshot, journal, sections, 10));
    assert(u64_at(bytes, 16int + 8int * 11) == header_word(snapshot, journal, sections, 11));
}

proof fn sections_are_held(snapshot: SnapshotModel, journal: Seq<u8>, index: int)
    requires
        snapshot_file(snapshot, journal).len() <= MAX_SNAPSHOT_BYTES,
        0 <= index < 10,
    ensures
        section_holds(
            snapshot_file(snapshot, journal),
            sections_of(snapshot.image, snapshot.history),
            index,
        ),
{
    let sections = sections_of(snapshot.image, snapshot.history);
    let bytes = snapshot_file(snapshot, journal);
    header_reads(snapshot, journal);
    section_is_held(bytes, snapshot, journal, sections, index);
}

proof fn section_is_held(
    bytes: Seq<u8>,
    snapshot: SnapshotModel,
    journal: Seq<u8>,
    sections: Seq<Seq<u8>>,
    index: int,
)
    requires
        bytes.len() <= MAX_SNAPSHOT_BYTES,
        sections.len() == 10,
        0 <= index < 10,
        bytes.len() == 320 + snapshot_body(sections).len(),
        stands_at(bytes, 320, snapshot_body(sections)),
        forall|i: int|
            0 <= i < 38 ==> #[trigger] u64_at(bytes, 16 + 8 * i) == header_word(
                snapshot,
                journal,
                sections,
                i,
            ),
    ensures
        section_holds(bytes, sections, index),
{
    stands_at_split(bytes, 320, laid(sections, sections.len()), snapshot_trailer());
    sections_stand(bytes, sections, sections.len(), index);
    let place = 12 + 2 * index;
    assert(112 + 16 * index == 16 + 8 * place);
    assert(120 + 16 * index == 16 + 8 * (place + 1));
    assert(u64_at(bytes, 16 + 8 * place) == header_word(snapshot, journal, sections, place));
    assert(u64_at(bytes, 16 + 8 * (place + 1)) == header_word(
        snapshot,
        journal,
        sections,
        place + 1,
    ));
    assert(place % 2 == 0 && (place - 12) / 2 == index);
    assert((place + 1) % 2 == 1 && (place + 1 - 12) / 2 == index);
}

proof fn laid_order(sections: Seq<Seq<u8>>, i: int, j: int)
    requires
        0 <= i < j,
    ensures
        section_start(sections, i) + sections[i].len() <= section_start(sections, j),
    decreases j - i,
{
    let front = laid(sections, i as nat);
    let next = laid(sections, (i + 1) as nat);
    assert(next == front + zeros(padding(front.len())) + sections[i]);
    assert(320 + next.len() == section_start(sections, i) + sections[i].len());
    if i + 1 < j {
        laid_order(sections, i + 1, j);
    }
}

proof fn no_section_fault(bytes: Seq<u8>, sections: Seq<Seq<u8>>, count: nat)
    requires
        count <= 10,
        bytes.len() <= MAX_SNAPSHOT_BYTES,
        forall|k: int| 0 <= k < 10 ==> #[trigger] section_holds(bytes, sections, k),
    ensures
        sections_fault(bytes, count) is None,
    decreases count,
{
    if count > 0 {
        no_section_fault(bytes, sections, (count - 1) as nat);
        assert(section_holds(bytes, sections, count - 1));
    }
}

proof fn no_overlap(bytes: Seq<u8>, sections: Seq<Seq<u8>>)
    requires
        forall|k: int| 0 <= k < 10 ==> #[trigger] section_holds(bytes, sections, k),
    ensures
        !sections_overlap(bytes),
{
    assert forall|i: int, j: int| 0 <= i < 10 && 0 <= j < 10 implies !#[trigger] reaches_into(
        bytes,
        i,
        j,
    ) by {
        assert(section_holds(bytes, sections, i));
        assert(section_holds(bytes, sections, j));
        if i < j {
            laid_order(sections, i, j);
        } else if j < i {
            laid_order(sections, j, i);
        }
    }
}

proof fn written_envelope(snapshot: SnapshotModel, journal: Seq<u8>)
    requires
        snapshot_file(snapshot, journal).len() <= MAX_SNAPSHOT_BYTES,
    ensures
        envelope_ok(snapshot_file(snapshot, journal)),
{
    let sections = sections_of(snapshot.image, snapshot.history);
    let bytes = snapshot_file(snapshot, journal);
    header_reads(snapshot, journal);
    words_are_held(snapshot, journal);
    envelope_of(bytes, snapshot, journal, sections);
}

proof fn envelope_of(
    bytes: Seq<u8>,
    snapshot: SnapshotModel,
    journal: Seq<u8>,
    sections: Seq<Seq<u8>>,
)
    requires
        bytes.len() <= MAX_SNAPSHOT_BYTES,
        bytes.len() == 320 + snapshot_body(sections).len(),
        stands_at(bytes, 0, snapshot_magic()),
        u32_at(bytes, 8) == 1,
        u32_at(bytes, 12) == 320,
        stands_at(bytes, 320, snapshot_body(sections)),
        words_hold(bytes, snapshot, journal, sections),
    ensures
        envelope_ok(bytes),
{
    stands_at_split(bytes, 320, laid(sections, sections.len()), snapshot_trailer());
    assert(bytes.subrange(320, bytes.len() as int) == snapshot_body(sections));
}

/// What was written as a snapshot is read back, and it fits every journal that continues the one
/// behind which it was made.
pub proof fn written_snapshot_reads_back(
    snapshot: SnapshotModel,
    journal: Seq<u8>,
    longer: Seq<u8>,
)
    requires
        snapshot_ok(snapshot, journal),
        longer.len() >= journal.len(),
        longer.take(journal.len() as int) == journal,
        longer.len() <= usize::MAX,
    ensures
        opened(snapshot_file(snapshot, journal), longer) == Ok::<SnapshotModel, Seq<char>>(
            snapshot,
        ),
{
    let sections = sections_of(snapshot.image, snapshot.history);
    let bytes = snapshot_file(snapshot, journal);
    written_envelope(snapshot, journal);
    words_are_held(snapshot, journal);
    assert forall|k: int| 0 <= k < 10 implies #[trigger] section_holds(bytes, sections, k) by {
        sections_are_held(snapshot, journal, k);
    }
    held_snapshot_opens(bytes, snapshot, journal, longer, sections);
}

/// A file that holds a snapshot opens as it.
proof fn held_snapshot_opens(
    bytes: Seq<u8>,
    snapshot: SnapshotModel,
    journal: Seq<u8>,
    longer: Seq<u8>,
    sections: Seq<Seq<u8>>,
)
    requires
        snapshot_ok(snapshot, journal),
        bytes.len() <= MAX_SNAPSHOT_BYTES,
        longer.len() >= journal.len(),
        longer.take(journal.len() as int) == journal,
        longer.len() <= usize::MAX,
        sections == sections_of(snapshot.image, snapshot.history),
        envelope_ok(bytes),
        words_hold(bytes, snapshot, journal, sections),
        forall|k: int| 0 <= k < 10 ==> #[trigger] section_holds(bytes, sections, k),
    ensures
        opened(bytes, longer) == Ok::<SnapshotModel, Seq<char>>(snapshot),
{
    let image = snapshot.image;
    let names = image.names;
    no_section_fault(bytes, sections, 10);
    no_overlap(bytes, sections);
    assert(outer_fault(bytes, longer) is None);
    assert(section_holds(bytes, sections, 0));
    assert(section_holds(bytes, sections, 1));
    assert(section_holds(bytes, sections, 2));
    assert(section_holds(bytes, sections, 3));
    assert(section_holds(bytes, sections, 4));
    assert(section_holds(bytes, sections, 5));
    assert(section_holds(bytes, sections, 6));
    assert(section_holds(bytes, sections, 7));
    assert(section_holds(bytes, sections, 8));
    assert(section_holds(bytes, sections, 9));
    table_reads_back(names.slots);
    table_reads_back(names.predicates);
    table_reads_back(names.literals);
    records_read_back(image.records);
    numbers_read_back(image.heads);
    numbers_read_back(image.active);
    entries_read_back(image.spo);
    entries_read_back(image.pos);
    entries_read_back(image.osp);
    assert(taken_snapshot_names(bytes) == Ok::<VocabularyModel, Seq<char>>(names));
    assert(image_in(bytes, names) == image);
    assert(counts_fault(bytes, names.slots.len()) is None);
    assert(snapshot_in(bytes, names) == snapshot);
}

/// The snapshot of a world behind a journal.
pub open spec fn snapshot_of(
    world: WorldModel,
    epoch_count: u64,
    journal: Seq<u8>,
    image: ImageModel,
) -> SnapshotModel {
    SnapshotModel {
        epoch_count,
        journal_offset: journal.len() as u64,
        world_id: world.id,
        world_version: world.version,
        next_entity: world.kernel.next_entity as u64,
        operation_count: world.operation_count,
        record_count: world.kernel.records,
        frame_count: world.history.len(),
        image,
        history: history_bytes(world.history),
    }
}

/// The snapshot of a world reads back, and holds the world's history and, for every slot, the
/// facts that the world holds.
pub proof fn snapshot_keeps_world(
    world: WorldModel,
    epoch_count: u64,
    journal: Seq<u8>,
    longer: Seq<u8>,
    image: ImageModel,
)
    requires
        images(image, world.kernel.live),
        tables_ok(image.names),
        !unmappable(world.kernel.live),
        image.records.len() < NONE,
        frames_fit(world.history),
        world.history.len() <= usize::MAX,
        world.operation_count <= usize::MAX,
        world.kernel.records <= usize::MAX,
        16 <= journal.len() <= longer.len() <= usize::MAX,
        longer.take(journal.len() as int) == journal,
        snapshot_file(snapshot_of(world, epoch_count, journal, image), journal).len()
            <= MAX_SNAPSHOT_BYTES,
    ensures
        ({
            let snapshot = snapshot_of(world, epoch_count, journal, image);
            &&& opened(snapshot_file(snapshot, journal), longer) == Ok::<
                SnapshotModel,
                Seq<char>,
            >(snapshot)
            &&& taken_history(snapshot.history) == Ok::<Seq<FrameModel>, Seq<char>>(world.history)
            &&& forall|slot: Seq<char>| #[trigger]
                mapped_active(snapshot.image, slot) == active_fact(world.kernel.live, slot)
            &&& forall|slot: Seq<char>| #[trigger]
                mapped_definitions(snapshot.image, slot) == slot_facts(world.kernel.live, slot)
        }),
{
    let snapshot = snapshot_of(world, epoch_count, journal, image);
    let sections = sections_of(snapshot.image, snapshot.history);
    let bytes = snapshot_file(snapshot, journal);
    image_has_no_fault(image, world.kernel.live);
    le64_facts(world.history.len() as u64);
    whole_stands(snapshot.history);
    stands_at_split(
        snapshot.history,
        0,
        le64(world.history.len() as u64),
        frames32_bytes(world.history),
    );
    le64_stands(snapshot.history, 0, world.history.len() as u64);
    sections_are_held(snapshot, journal, 9);
    assert(snapshot.history.len() <= bytes.len()) by {
        assert(sections[9] == snapshot.history);
    }
    history_reads(snapshot.history, world.history);
    written_snapshot_reads_back(snapshot, journal, longer);
    assert forall|slot: Seq<char>| #[trigger]
        mapped_active(snapshot.image, slot) == active_fact(world.kernel.live, slot) by {
        image_holds_definitions(image, world.kernel.live, slot);
    }
    assert forall|slot: Seq<char>| #[trigger]
        mapped_definitions(snapshot.image, slot) == slot_facts(world.kernel.live, slot) by {
        image_holds_definitions(image, world.kernel.live, slot);
    }
}

} // verus!
