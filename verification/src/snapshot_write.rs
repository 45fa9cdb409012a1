//! Writing a snapshot of a world.

use crate::digest::digest;
use crate::fact::views;
use crate::frame::WorldId;
use crate::history_codec::{
    encode_frames, frames_fit, frames_fit_fault, frames_without_fault_fit, history_bytes,
};
use crate::image::{
    ImageModel, image_records, images, names_literal, names_predicate, names_slot,
    occurring_has_token, unmappable,
};
use crate::image_build::{
    SnapshotImage, all_mappable, build_image, no_definitions_no_records, one_definition_one_record,
};
use crate::kernel::{DefinitionModel, active};
use crate::ordered::{
    ascending, ascending_is_distinct, before, before_asymmetric, before_irreflexive, occurs,
};
use crate::rows::{
    encode_indexes, encode_records, encode_u32s, entries_read_back, put_words, records_read_back,
    rows_bytes, word_rows, words_stand,
};
use crate::snapshot_format::{
    MAX_SNAPSHOT_BYTES, SnapshotModel, header_word, header_words, laid, padding, section_start,
    sections_of, snapshot_body, snapshot_file, snapshot_header, snapshot_magic, snapshot_trailer,
    zeros,
};
use crate::snapshot_laws::snapshot_of;
use crate::string_table::encode_string_table;
use crate::vm::NONE;
use crate::vocabulary::{VocabularyModel, distinct, tables_ok, token_facts, token_of};
use crate::wire::{concat_assoc, le32, le32_facts, put_bytes, put_u32, whole_stands};
use crate::world::{World, WorldModel};
use std::sync::Arc;
use vstd::prelude::*;
use vstd::string::*;

verus! {

/// What is said of a snapshot that was made.
#[derive(Clone, Copy, Debug, PartialEq, Eq, Structural)]
pub struct MmapSnapshotMetadata {
    pub epoch_count: u64,
    pub journal_offset: u64,
    pub snapshot_bytes: u64,
    pub world_id: WorldId,
    pub world_version: u64,
}

/// Two ascending lists of the same names are one list.
pub proof fn ascending_is_unique(left: Seq<Seq<char>>, right: Seq<Seq<char>>)
    requires
        ascending(left),
        ascending(right),
        forall|name: Seq<char>| #[trigger] occurs(left, name) <==> occurs(right, name),
    ensures
        left == right,
    decreases left.len(),
{
    if left.len() == 0 {
        if right.len() > 0 {
            assert(occurs(right, right[0]));
            assert(occurs(left, right[0]));
        }
        assert(left =~= right);
    } else {
        assert(occurs(left, left.last()));
        assert(occurs(right, left.last()));
        let i = choose|i: int| 0 <= i < right.len() && #[trigger] right[i] == left.last();
        assert(occurs(right, right.last()));
        assert(occurs(left, right.last()));
        let j = choose|j: int| 0 <= j < left.len() && #[trigger] left[j] == right.last();
        if i < right.len() - 1 {
            assert(before(right[i], right[right.len() - 1]));
            if j < left.len() - 1 {
                assert(before(left[j], left[left.len() - 1]));
                before_asymmetric(left[j], left[left.len() - 1]);
            } else {
                before_irreflexive(left.last());
            }
        }
        assert(left.last() == right.last());
        let front = left.drop_last();
        let back = right.drop_last();
        assert forall|name: Seq<char>| #[trigger] occurs(front, name) <==> occurs(back, name) by {
            assert(occurs(left, name) <==> occurs(right, name));
            if occurs(front, name) {
                let k = choose|k: int| 0 <= k < front.len() && #[trigger] front[k] == name;
                assert(left[k] == name);
                assert(before(left[k], left[left.len() - 1]));
                before_asymmetric(left[k], left[left.len() - 1]);
                let m = choose|m: int| 0 <= m < right.len() && #[trigger] right[m] == name;
                assert(m < right.len() - 1);
                assert(back[m] == name);
            }
            if occurs(back, name) {
                let k = choose|k: int| 0 <= k < back.len() && #[trigger] back[k] == name;
                assert(right[k] == name);
                assert(before(right[k], right[right.len() - 1]));
                before_asymmetric(right[k], right[right.len() - 1]);
                let m = choose|m: int| 0 <= m < left.len() && #[trigger] left[m] == name;
                assert(m < left.len() - 1);
                assert(front[m] == name);
            }
        }
        assert forall|a: int, b: int| 0 <= a < b < front.len() implies before(
            #[trigger] front[a],
            #[trigger] front[b],
        ) by {
            assert(before(left[a], left[b]));
        }
        assert forall|a: int, b: int| 0 <= a < b < back.len() implies before(
            #[trigger] back[a],
            #[trigger] back[b],
        ) by {
            assert(before(right[a], right[b]));
        }
        ascending_is_unique(front, back);
        assert(left =~= front.push(left.last()));
        assert(right =~= back.push(right.last()));
    }
}

/// The names, records, heads and active records of definitions are determined.
pub proof fn image_tables_are_unique(left: ImageModel, right: ImageModel, live: Seq<
    DefinitionModel,
>)
    requires
        images(left, live),
        images(right, live),
    ensures
        left.names == right.names,
        left.records == right.records,
        left.heads == right.heads,
        left.active == right.active,
        left.spo.len() == right.spo.len(),
        left.pos.len() == right.pos.len(),
        left.osp.len() == right.osp.len(),
{
    assert forall|name: Seq<char>| #[trigger] occurs(left.names.slots, name) <==> occurs(
        right.names.slots,
        name,
    ) by {
        assert(names_slot(live, name) <==> occurs(right.names.slots, name));
    }
    assert forall|name: Seq<char>| #[trigger] occurs(left.names.predicates, name) <==> occurs(
        right.names.predicates,
        name,
    ) by {
        assert(names_predicate(live, name) <==> occurs(right.names.predicates, name));
    }
    assert forall|name: Seq<char>| #[trigger] occurs(left.names.literals, name) <==> occurs(
        right.names.literals,
        name,
    ) by {
        assert(names_literal(live, name) <==> occurs(right.names.literals, name));
    }
    ascending_is_unique(left.names.slots, right.names.slots);
    ascending_is_unique(left.names.predicates, right.names.predicates);
    ascending_is_unique(left.names.literals, right.names.literals);
    left.spo.to_multiset_ensures();
    right.spo.to_multiset_ensures();
    left.pos.to_multiset_ensures();
    right.pos.to_multiset_ensures();
    left.osp.to_multiset_ensures();
    right.osp.to_multiset_ensures();
}

proof fn same_sections_same_size(left: Seq<Seq<u8>>, right: Seq<Seq<u8>>, count: nat)
    requires
        count <= left.len(),
        left.len() == right.len(),
        forall|k: int| 0 <= k < left.len() ==> (#[trigger] left[k]).len() == right[k].len(),
    ensures
        laid(left, count).len() == laid(right, count).len(),
    decreases count,
{
    if count > 0 {
        same_sections_same_size(left, right, (count - 1) as nat);
        assert(left[count - 1].len() == right[count - 1].len());
    }
}

pub proof fn file_length(snapshot: SnapshotModel, journal: Seq<u8>)
    ensures
        snapshot_file(snapshot, journal).len() == 328 + laid(
            sections_of(snapshot.image, snapshot.history),
            10,
        ).len(),
{
    let words = header_words(
        snapshot,
        journal,
        sections_of(snapshot.image, snapshot.history),
    );
    let w = rows_bytes(word_rows(words));
    whole_stands(w);
    words_stand(w, 0, words);
    le32_facts(1);
    le32_facts(320);
}

/// All snapshots of a world behind a journal have one size.
pub proof fn snapshot_size_is_unique(
    world: WorldModel,
    epoch_count: u64,
    journal: Seq<u8>,
    left: ImageModel,
    right: ImageModel,
)
    requires
        images(left, world.kernel.live),
        images(right, world.kernel.live),
    ensures
        snapshot_file(snapshot_of(world, epoch_count, journal, left), journal).len()
            == snapshot_file(snapshot_of(world, epoch_count, journal, right), journal).len(),
{
    image_tables_are_unique(left, right, world.kernel.live);
    let one = sections_of(left, history_bytes(world.history));
    let other = sections_of(right, history_bytes(world.history));
    file_length(snapshot_of(world, epoch_count, journal, left), journal);
    file_length(snapshot_of(world, epoch_count, journal, right), journal);
    entries_read_back(left.spo);
    entries_read_back(right.spo);
    entries_read_back(left.pos);
    entries_read_back(right.pos);
    entries_read_back(left.osp);
    entries_read_back(right.osp);
    assert forall|k: int| 0 <= k < one.len() implies (#[trigger] one[k]).len()
        == other[k].len() by {
        if k == 0 || k == 1 || k == 2 || k == 3 || k == 4 || k == 5 || k == 9 {
        } else if k == 6 {
        } else if k == 7 {
        } else {
            assert(k == 8);
        }
    }
    same_sections_same_size(one, other, 10);
}

proof fn laid_holds(sections: Seq<Seq<u8>>, count: nat, index: int)
    requires
        0 <= index < count,
    ensures
        sections[index].len() <= laid(sections, count).len(),
    decreases count,
{
    if index < count - 1 {
        laid_holds(sections, (count - 1) as nat, index);
    }
}

/// Every definition has its record.
proof fn every_definition_has_a_record(names: VocabularyModel, live: Seq<DefinitionModel>)
    requires
        distinct(names.slots),
        forall|i: int|
            0 <= i < live.len() ==> token_of(names.slots, (#[trigger] live[i]).slot) >= 0,
    ensures
        image_records(names, live, names.slots.len()).len() == live.len(),
    decreases live.len(),
{
    if live.len() == 0 {
        no_definitions_no_records(names, live, names.slots.len());
    } else {
        let front = live.drop_last();
        assert forall|i: int| 0 <= i < front.len() implies token_of(
            names.slots,
            (#[trigger] front[i]).slot,
        ) >= 0 by {
            assert(front[i] == live[i]);
        }
        every_definition_has_a_record(names, front);
        one_definition_one_record(names, live, names.slots.len());
        assert(live[live.len() - 1] == live.last());
        token_facts(names.slots, live.last().slot);
    }
}

/// So many definitions that no file can hold them.
proof fn too_many_definitions(
    world: WorldModel,
    epoch_count: u64,
    journal: Seq<u8>,
    image: ImageModel,
)
    requires
        images(image, world.kernel.live),
        48 * world.kernel.live.len() > MAX_SNAPSHOT_BYTES,
    ensures
        snapshot_file(snapshot_of(world, epoch_count, journal, image), journal).len()
            > MAX_SNAPSHOT_BYTES,
{
    let live = world.kernel.live;
    let names = image.names;
    ascending_is_distinct(names.slots);
    assert forall|i: int| 0 <= i < live.len() implies token_of(
        names.slots,
        (#[trigger] live[i]).slot,
    ) >= 0 by {
        assert(names_slot(live, live[i].slot));
        assert(occurs(names.slots, live[i].slot));
        occurring_has_token(names.slots, live[i].slot);
    }
    every_definition_has_a_record(names, live);
    records_read_back(image.records);
    let sections = sections_of(image, history_bytes(world.history));
    laid_holds(sections, 10, 3);
    file_length(snapshot_of(world, epoch_count, journal, image), journal);
}

/// Brings a length to a multiple of eight.
fn align_eight(out: &mut Vec<u8>)
    ensures
        final(out)@ == old(out)@ + zeros(padding(old(out)@.len())),
{
    let ghost start = out@;
    let gap: usize = (8 - out.len() % 8) % 8;
    let mut index: usize = 0;
    proof {
        assert(out@ =~= start + zeros(0));
    }
    while index < gap
        invariant
            index <= gap,
            out@ == start + zeros(index as nat),
        decreases gap - index,
    {
        out.push(0);
        index += 1;
        proof {
            assert(out@ =~= start + zeros(index as nat));
        }
    }
}

/// The bytes of the sections of an image.
fn encode_sections(image: &SnapshotImage, history: Vec<u8>) -> (result: Vec<Vec<u8>>)
    ensures
        result.len() == 10,
        forall|k: int|
            0 <= k < 10 ==> (#[trigger] result@[k])@ == sections_of(image@, history@)[k],
{
    let mut sections: Vec<Vec<u8>> = Vec::new();
    sections.push(encode_string_table(&image.slots));
    sections.push(encode_string_table(&image.predicates));
    sections.push(encode_string_table(&image.literals));
    sections.push(encode_records(&image.records));
    sections.push(encode_u32s(&image.heads));
    sections.push(encode_u32s(&image.active));
    sections.push(encode_indexes(&image.spo));
    sections.push(encode_indexes(&image.pos));
    sections.push(encode_indexes(&image.osp));
    sections.push(history);
    sections
}

/// Lays sections out one after the other; returns the bytes and where each section starts.
fn lay_sections(sections: &Vec<Vec<u8>>, Ghost(models): Ghost<Seq<Seq<u8>>>) -> (result: (
    Vec<u8>,
    Vec<usize>,
))
    requires
        models.len() == sections.len(),
        forall|k: int| 0 <= k < models.len() ==> (#[trigger] sections@[k])@ == models[k],
    ensures
        result.0@ == laid(models, models.len()),
        result.1.len() == models.len(),
        forall|k: int|
            0 <= k < models.len() ==> 320 + (#[trigger] result.1@[k]) == section_start(models, k),
{
    let mut out: Vec<u8> = Vec::new();
    let mut starts: Vec<usize> = Vec::new();
    let mut index: usize = 0;
    proof {
        assert(out@ =~= laid(models, 0));
    }
    while index < sections.len()
        invariant
            index <= sections.len(),
            models.len() == sections.len(),
            forall|k: int| 0 <= k < models.len() ==> (#[trigger] sections@[k])@ == models[k],
            out@ == laid(models, index as nat),
            starts.len() == index,
            forall|k: int|
                0 <= k < index ==> 320 + (#[trigger] starts@[k]) == section_start(models, k),
        decreases sections.len() - index,
    {
        align_eight(&mut out);
        starts.push(out.len());
        put_bytes(&mut out, sections[index].as_slice());
        proof {
            assert(sections@[index as int]@ == models[index as int]);
        }
        index += 1;
    }
    (out, starts)
}

/// Appends the words that say where the sections are.
fn put_directory(
    words: &mut Vec<u64>,
    sections: &Vec<Vec<u8>>,
    starts: &Vec<usize>,
    Ghost(models): Ghost<Seq<Seq<u8>>>,
)
    requires
        models.len() == 10,
        sections.len() == 10,
        starts.len() == 10,
        laid(models, 10).len() <= MAX_SNAPSHOT_BYTES,
        forall|k: int| 0 <= k < 10 ==> (#[trigger] sections@[k])@ == models[k],
        forall|k: int| 0 <= k < 10 ==> 320 + (#[trigger] starts@[k]) == section_start(models, k),
    ensures
        final(words)@ == old(words)@ + Seq::new(
            20,
            |i: int|
                if i % 2 == 0 {
                    section_start(models, i / 2) as u64
                } else {
                    models[i / 2].len() as u64
                },
        ),
{
    let ghost start = words@;
    let mut index: usize = 0;
    let ghost listed = Seq::new(
        20,
        |i: int|
            if i % 2 == 0 {
                section_start(models, i / 2) as u64
            } else {
                models[i / 2].len() as u64
            },
    );
    proof {
        assert(words@ =~= start + listed.take(0));
    }
    while index < 10
        invariant
            index <= 10,
            models.len() == 10,
            sections.len() == 10,
            starts.len() == 10,
            laid(models, 10).len() <= MAX_SNAPSHOT_BYTES,
            forall|k: int| 0 <= k < 10 ==> (#[trigger] sections@[k])@ == models[k],
            forall|k: int|
                0 <= k < 10 ==> 320 + (#[trigger] starts@[k]) == section_start(models, k),
            listed == Seq::new(
                20,
                |i: int|
                    if i % 2 == 0 {
                        section_start(models, i / 2) as u64
                    } else {
                        models[i / 2].len() as u64
                    },
            ),
            words@ == start + listed.take(2 * index),
        decreases 10 - index,
    {
        proof {
            start_is_bounded(models, 10, index as int);
        }
        words.push(320 + starts[index] as u64);
        words.push(sections[index].len() as u64);
        proof {
            let k = index as int;
            assert(sections@[k]@ == models[k]);
            assert((2 * k) % 2 == 0 && (2 * k) / 2 == k);
            assert((2 * k + 1) % 2 == 1 && (2 * k + 1) / 2 == k);
            assert(listed[2 * k] == section_start(models, k) as u64);
            assert(listed[2 * k + 1] == models[k].len() as u64);
            assert(words@ =~= start + listed.take(2 * (k + 1)));
        }
        index += 1;
    }
    proof {
        assert(listed.take(20) =~= listed);
    }
}

proof fn start_is_bounded(sections: Seq<Seq<u8>>, count: nat, index: int)
    requires
        0 <= index < count,
    ensures
        section_start(sections, index) <= 320 + laid(sections, count).len(),
    decreases count,
{
    if index < count - 1 {
        start_is_bounded(sections, (count - 1) as nat, index);
    }
}

/// Makes the snapshot of a world that stands behind a journal: its bytes, and what is said of
/// them.
pub fn create_snapshot(journal: &[u8], epoch_count: u64, world: &World) -> (result: Result<
    (Vec<u8>, MmapSnapshotMetadata),
    String,
>)
    ensures
        match result {
            Ok((bytes, metadata)) => {
                &&& !unmappable(world@.kernel.live)
                &&& frames_fit(world@.history)
                &&& bytes.len() <= MAX_SNAPSHOT_BYTES
                &&& metadata == (MmapSnapshotMetadata {
                    epoch_count,
                    journal_offset: journal@.len() as u64,
                    snapshot_bytes: bytes@.len() as u64,
                    world_id: world@.id,
                    world_version: world@.version,
                })
                &&& exists|image: ImageModel|
                    {
                        &&& images(image, world@.kernel.live)
                        &&& tables_ok(image.names)
                        &&& image.records.len() < NONE
                        &&& bytes@ == #[trigger] snapshot_file(
                            snapshot_of(world@, epoch_count, journal@, image),
                            journal@,
                        )
                    }
            },
            Err(message) => if unmappable(world@.kernel.live) {
                message@ == "entity overlaps physical snapshot literal namespace"@
            } else {
                match frames_fit_fault(world@.history) {
                    Some(fault) => message@ == fault,
                    None => message@ == "mmap VM snapshot exceeds size limit"@ && forall|
                        image: ImageModel,
                    |
                        images(image, world@.kernel.live) ==> #[trigger] snapshot_file(
                            snapshot_of(world@, epoch_count, journal@, image),
                            journal@,
                        ).len() > MAX_SNAPSHOT_BYTES,
                }
            },
        },
{
    let live = world.kernel().live();
    proof {
        assert(live.len() == views(live@).len());
        frames_without_fault_fit(world@.history);
    }
    if !all_mappable(live) {
        return Err("entity overlaps physical snapshot literal namespace".to_owned());
    }
    let frames = world.frames();
    let history = encode_frames(frames.as_slice())?;
    if live.len() > MAX_SNAPSHOT_BYTES / 48 {
        proof {
            assert forall|image: ImageModel| images(image, world@.kernel.live) implies
                #[trigger] snapshot_file(
                snapshot_of(world@, epoch_count, journal@, image),
                journal@,
            ).len() > MAX_SNAPSHOT_BYTES by {
                too_many_definitions(world@, epoch_count, journal@, image);
            }
        }
        return Err("mmap VM snapshot exceeds size limit".to_owned());
    }
    let image = build_image(world.kernel())?;
    write_image(journal, epoch_count, world, &image, history, frames.len())
}

/// The words of a header.
fn list_words(
    journal: &[u8],
    epoch_count: u64,
    world: &World,
    frame_count: usize,
    sections: &Vec<Vec<u8>>,
    starts: &Vec<usize>,
    body: &Vec<u8>,
    Ghost(snapshot): Ghost<SnapshotModel>,
    Ghost(models): Ghost<Seq<Seq<u8>>>,
) -> (result: Vec<u64>)
    requires
        snapshot == snapshot_of(world@, epoch_count, journal@, snapshot.image),
        snapshot.image.active.len() == active(world@.kernel.live).len(),
        frame_count == world@.history.len(),
        body@ == snapshot_body(models),
        body.len() <= MAX_SNAPSHOT_BYTES - 320,
        models.len() == 10,
        sections.len() == 10,
        starts.len() == 10,
        forall|k: int| 0 <= k < 10 ==> (#[trigger] sections@[k])@ == models[k],
        forall|k: int| 0 <= k < 10 ==> 320 + (#[trigger] starts@[k]) == section_start(models, k),
    ensures
        result@ == header_words(snapshot, journal@, models),
{
    let mut words: Vec<u64> = vec![
        320 + body.len() as u64,
        digest(body.as_slice()),
        epoch_count,
        journal.len() as u64,
        digest(journal),
        world.id().0,
        world.version(),
        world.next_entity(),
        world.operation_count() as u64,
        world.active_slot_count() as u64,
        world.record_count() as u64,
        frame_count as u64,
    ];
    let ghost first = words@;
    proof {
        assert(first.len() == 12);
        assert forall|i: int| 0 <= i < 12 implies first[i] == header_word(
            snapshot,
            journal@,
            models,
            i,
        ) by {}
    }
    put_directory(&mut words, sections, starts, Ghost(models));
    let ghost second = words@;
    proof {
        assert(second.len() == 32);
        assert forall|i: int| 12 <= i < 32 implies second[i] == header_word(
            snapshot,
            journal@,
            models,
            i,
        ) by {
            assert(i % 2 == (i - 12) % 2);
        }
    }
    words.push(0);
    words.push(0);
    words.push(0);
    words.push(0);
    words.push(0);
    words.push(0);
    proof {
        let expected = header_words(snapshot, journal@, models);
        assert forall|i: int| 0 <= i < 38 implies words@[i] == expected[i] by {
            if i < 12 {
                assert(second[i] == first[i]);
                assert(words@[i] == second[i]);
            } else if i < 32 {
                assert(words@[i] == second[i]);
            }
        }
        assert(words@ =~= expected);
    }
    words
}

fn encode_snapshot_header(words: &Vec<u64>) -> (result: Vec<u8>)
    ensures
        result@ == snapshot_magic() + (le32(1) + (le32(320) + rows_bytes(word_rows(words@)))),
{
    let mut out: Vec<u8> = Vec::new();
    put_bytes(&mut out, &[70u8, 84, 72, 86, 77, 83, 48, 49]);
    put_u32(&mut out, 1);
    put_u32(&mut out, 320);
    put_words(&mut out, words);
    proof {
        assert([70u8, 84, 72, 86, 77, 83, 48, 49]@ =~= snapshot_magic());
        let w = rows_bytes(word_rows(words@));
        assert(Seq::<u8>::empty() + snapshot_magic() =~= snapshot_magic());
        concat_assoc(snapshot_magic() + le32(1), le32(320), w);
        concat_assoc(snapshot_magic(), le32(1), le32(320) + w);
    }
    out
}

/// Writes the tables and the history of a world.
fn write_image(
    journal: &[u8],
    epoch_count: u64,
    world: &World,
    image: &SnapshotImage,
    history: Vec<u8>,
    frame_count: usize,
) -> (result: Result<(Vec<u8>, MmapSnapshotMetadata), String>)
    requires
        images(image@, world@.kernel.live),
        history@ == history_bytes(world@.history),
        frame_count == world@.history.len(),
    ensures
        ({
            let file = snapshot_file(
                snapshot_of(world@, epoch_count, journal@, image@),
                journal@,
            );
            match result {
                Ok((bytes, metadata)) => {
                    &&& bytes.len() <= MAX_SNAPSHOT_BYTES
                    &&& bytes@ == file
                    &&& metadata == (MmapSnapshotMetadata {
                        epoch_count,
                        journal_offset: journal@.len() as u64,
                        snapshot_bytes: bytes@.len() as u64,
                        world_id: world@.id,
                        world_version: world@.version,
                    })
                },
                Err(message) => message@ == "mmap VM snapshot exceeds size limit"@ && forall|
                    other: ImageModel,
                |
                    images(other, world@.kernel.live) ==> #[trigger] snapshot_file(
                        snapshot_of(world@, epoch_count, journal@, other),
                        journal@,
                    ).len() > MAX_SNAPSHOT_BYTES,
            }
        }),
{
    let ghost snapshot = snapshot_of(world@, epoch_count, journal@, image@);
    let ghost models = sections_of(image@, history@);
    let sections = encode_sections(image, history);
    let (mut body, starts) = lay_sections(&sections, Ghost(models));
    proof {
        file_length(snapshot, journal@);
    }
    if body.len() > MAX_SNAPSHOT_BYTES - 328 {
        proof {
            assert forall|other: ImageModel| images(other, world@.kernel.live) implies
                #[trigger] snapshot_file(
                snapshot_of(world@, epoch_count, journal@, other),
                journal@,
            ).len() > MAX_SNAPSHOT_BYTES by {
                snapshot_size_is_unique(world@, epoch_count, journal@, image@, other);
            }
        }
        return Err("mmap VM snapshot exceeds size limit".to_owned());
    }
    put_bytes(&mut body, &[86u8, 77, 83, 69, 78, 68, 48, 49]);
    proof {
        assert([86u8, 77, 83, 69, 78, 68, 48, 49]@ =~= snapshot_trailer());
        assert(body@ == snapshot_body(models));
    }
    let file_len: u64 = 320 + body.len() as u64;
    let words = list_words(
        journal,
        epoch_count,
        world,
        frame_count,
        &sections,
        &starts,
        &body,
        Ghost(snapshot),
        Ghost(models),
    );
    let mut out = encode_snapshot_header(&words);
    proof {
        assert(out@ == snapshot_header(snapshot, journal@, models));
    }
    put_bytes(&mut out, body.as_slice());
    Ok(
        (
            out,
            MmapSnapshotMetadata {
                epoch_count,
                journal_offset: journal.len() as u64,
                snapshot_bytes: file_len,
                world_id: world.id(),
                world_version: world.version(),
            },
        ),
    )
}

} // verus!
