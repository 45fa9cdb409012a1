//! Opening a snapshot and reading from it.

use crate::digest::digest;
use crate::fact::{Atom, AtomModel, EntityId, Fact, Literal, Predicate, SlotId, views};
use crate::frame::{CommitFrame, FrameModel, WorldId};
use crate::history_codec::{decode_frames, taken_history};
use crate::image::{
    ImageModel, IndexEntry, mapped_active, mapped_definitions, mapped_stack, occurring_has_token,
    record_fact,
};
use crate::image_build::{SnapshotImage, names_of};
use crate::intent::optional_fact;
use crate::log_format::eight_at;
use crate::ordered::{ascending, ascending_is_distinct, find_name, texts};
use crate::rows::{decode_indexes, decode_records, decode_u32s};
use crate::snapshot_format::{
    MAX_SNAPSHOT_BYTES, SnapshotModel, counts_fault, entry_fault, envelope_ok, faultless_records,
    faultless_section, first_section_fault_stays, heads_in_range, image_fault, image_in,
    index_fault, index_fault_stays, journal_fault, length_word, opened, reaches_into,
    record_fault_stays, record_ok, records_fault, section_at, section_fault, sections_fault,
    sections_overlap, snapshot_in, snapshot_magic, snapshot_trailer, start_word,
    taken_snapshot_names,
};
use crate::string_table::{parse_string_table, taken_table_ascends};
use crate::text::labelled;
use crate::vm::{NONE, VM_DISPLACED_BASE, VM_LITERAL_BASE};
use crate::vocabulary::{VocabularyModel, cell_atom, cell_ok, tables_ok, token_facts, token_of};
use crate::wire::{fixed_u32, fixed_u64, put_bytes};
use crate::world::{display_slot, display_slot_text, entity_name, entity_text};
use std::sync::Arc;
use vstd::prelude::*;
use vstd::string::*;

verus! {

/// A snapshot that was opened.
pub struct MmapVmSnapshot {
    epoch_count: u64,
    journal_offset: u64,
    world_id: WorldId,
    world_version: u64,
    next_entity: u64,
    operation_count: usize,
    record_count: usize,
    frame_count: usize,
    length: usize,
    image: SnapshotImage,
    history: Vec<u8>,
}

impl View for MmapVmSnapshot {
    type V = SnapshotModel;

    closed spec fn view(&self) -> SnapshotModel {
        SnapshotModel {
            epoch_count: self.epoch_count,
            journal_offset: self.journal_offset,
            world_id: self.world_id,
            world_version: self.world_version,
            next_entity: self.next_entity,
            operation_count: self.operation_count as nat,
            record_count: self.record_count as nat,
            frame_count: self.frame_count as nat,
            image: self.image@,
            history: self.history@,
        }
    }
}

/// Tables that can be read without leaving them.
pub open spec fn image_ok(image: ImageModel) -> bool {
    &&& ascending(image.names.slots)
    &&& ascending(image.names.predicates)
    &&& ascending(image.names.literals)
    &&& tables_ok(image.names)
    &&& image_fault(image) is None
    &&& image.records.len() < NONE
    &&& image.heads.len() == image.names.slots.len()
    &&& image.spo.len() == image.active.len()
    &&& image.pos.len() == image.active.len()
    &&& image.osp.len() == image.active.len()
}

fn check_envelope(bytes: &[u8]) -> (result: bool)
    ensures
        result == envelope_ok(bytes@),
{
    if bytes.len() < 328 || bytes.len() > MAX_SNAPSHOT_BYTES {
        return false;
    }
    let magic = [70u8, 84, 72, 86, 77, 83, 48, 49];
    let trailer = [86u8, 77, 83, 69, 78, 68, 48, 49];
    proof {
        assert(magic@ =~= snapshot_magic());
        assert(trailer@ =~= snapshot_trailer());
    }
    eight_at(bytes, 0, magic) && fixed_u32(bytes, 8) == 1 && fixed_u32(bytes, 12) == 320
        && fixed_u64(bytes, 16) == bytes.len() as u64 && eight_at(bytes, bytes.len() - 8, trailer)
        && fixed_u64(bytes, 24) == digest(
        vstd::slice::slice_subrange(bytes, 320, bytes.len()),
    )
}

fn check_journal(bytes: &[u8], journal: &[u8]) -> (result: Result<(), String>)
    requires
        bytes.len() >= 328,
    ensures
        match journal_fault(bytes@, journal@) {
            None => result is Ok,
            Some(fault) => result matches Err(message) && message@ == fault,
        },
{
    let offset: u64 = fixed_u64(bytes, 40);
    if offset > usize::MAX as u64 {
        return Err("snapshot journal offset exceeds address space".to_owned());
    }
    if offset < 16 || offset > journal.len() as u64 {
        return Err("mmap VM snapshot does not match the journal prefix".to_owned());
    }
    let prefix = vstd::slice::slice_subrange(journal, 0, offset as usize);
    proof {
        assert(prefix@ =~= journal@.take(offset as int));
    }
    if digest(prefix) != fixed_u64(bytes, 48) {
        return Err("mmap VM snapshot does not match the journal prefix".to_owned());
    }
    Ok(())
}

fn check_section(bytes: &[u8], index: usize) -> (result: Result<(), String>)
    requires
        bytes.len() >= 328,
        index < 10,
    ensures
        match section_fault(bytes@, index as int) {
            None => result is Ok,
            Some(fault) => result matches Err(message) && message@ == fault,
        },
{
    let start: u64 = fixed_u64(bytes, 112 + 16 * index);
    let length: u64 = fixed_u64(bytes, 120 + 16 * index);
    if start > usize::MAX as u64 {
        return Err("snapshot section offset exceeds address space".to_owned());
    }
    if length > usize::MAX as u64 {
        return Err("snapshot section length exceeds address space".to_owned());
    }
    match (start as usize).checked_add(length as usize) {
        None => Err("snapshot section length overflow".to_owned()),
        Some(end) => if start < 320 || end > bytes.len() - 8 {
            Err("snapshot section is out of range".to_owned())
        } else {
            Ok(())
        },
    }
}

fn check_sections(bytes: &[u8]) -> (result: Result<(), String>)
    requires
        bytes.len() >= 328,
    ensures
        match sections_fault(bytes@, 10) {
            None => result is Ok,
            Some(fault) => result matches Err(message) && message@ == fault,
        },
{
    let mut index: usize = 0;
    while index < 10
        invariant
            index <= 10,
            bytes.len() >= 328,
            sections_fault(bytes@, index as nat) is None,
        decreases 10 - index,
    {
        proof {
            if section_fault(bytes@, index as int) is Some {
                first_section_fault_stays(bytes@, (index + 1) as nat, 10);
            }
        }
        check_section(bytes, index)?;
        index += 1;
    }
    Ok(())
}

/// Tests whether one of the sections reaches into another.
fn check_overlap(bytes: &[u8]) -> (result: bool)
    requires
        328 <= bytes.len(),
        sections_fault(bytes@, 10) is None,
    ensures
        result == sections_overlap(bytes@),
{
    let mut left: usize = 0;
    while left < 10
        invariant
            left <= 10,
            328 <= bytes.len(),
            sections_fault(bytes@, 10) is None,
            forall|i: int, j: int|
                0 <= i < left && 0 <= j < 10 ==> !#[trigger] reaches_into(bytes@, i, j),
        decreases 10 - left,
    {
        let start: u64 = fixed_u64(bytes, 112 + 16 * left);
        proof {
            faultless_section(bytes@, 10, left as int);
        }
        let end: u64 = start + fixed_u64(bytes, 120 + 16 * left);
        let mut right: usize = 0;
        while right < 10
            invariant
                left < 10,
                right <= 10,
                328 <= bytes.len(),
                start == start_word(bytes@, left as int),
                end == start + length_word(bytes@, left as int),
                forall|j: int| 0 <= j < right ==> !#[trigger] reaches_into(bytes@, left as int, j),
            decreases 10 - right,
        {
            let other: u64 = fixed_u64(bytes, 112 + 16 * right);
            if (start < other || (start == other && left < right)) && end > other {
                proof {
                    assert(reaches_into(bytes@, left as int, right as int));
                }
                return true;
            }
            right += 1;
        }
        left += 1;
    }
    false
}

/// The bytes of a section.
fn section_slice(bytes: &[u8], index: usize) -> (result: &[u8])
    requires
        328 <= bytes.len(),
        sections_fault(bytes@, 10) is None,
        index < 10,
    ensures
        result@ == section_at(bytes@, index as int),
        result.len() == length_word(bytes@, index as int),
{
    proof {
        faultless_section(bytes@, 10, index as int);
    }
    let start: usize = fixed_u64(bytes, 112 + 16 * index) as usize;
    let length: usize = fixed_u64(bytes, 120 + 16 * index) as usize;
    vstd::slice::slice_subrange(bytes, start, start + length)
}

fn check_counts(bytes: &[u8], slots: usize) -> (result: Result<(), String>)
    requires
        328 <= bytes.len() <= MAX_SNAPSHOT_BYTES,
        slots <= MAX_SNAPSHOT_BYTES,
        sections_fault(bytes@, 10) is None,
    ensures
        match counts_fault(bytes@, slots as nat) {
            None => result is Ok,
            Some(fault) => result matches Err(message) && message@ == fault,
        },
{
    let records: usize = section_slice(bytes, 3).len();
    let heads: usize = section_slice(bytes, 4).len();
    let active_bytes: usize = section_slice(bytes, 5).len();
    let spo: usize = section_slice(bytes, 6).len();
    let pos: usize = section_slice(bytes, 7).len();
    let osp: usize = section_slice(bytes, 8).len();
    let history = section_slice(bytes, 9);
    if records % 48 != 0 || heads != slots * 4 || active_bytes % 4 != 0 || spo % 32 != 0 || pos % 32
        != 0 || osp % 32 != 0 {
        return Err("snapshot fixed-width section has an invalid length".to_owned());
    }
    let count: usize = active_bytes / 4;
    if count as u64 != fixed_u64(bytes, 88) || spo / 32 != count || pos / 32 != count || osp / 32
        != count {
        return Err("snapshot active index counts disagree".to_owned());
    }
    if fixed_u64(bytes, 80) > usize::MAX as u64 {
        return Err("snapshot operation count exceeds address space".to_owned());
    }
    if fixed_u64(bytes, 96) > usize::MAX as u64 {
        return Err("snapshot record count exceeds address space".to_owned());
    }
    if fixed_u64(bytes, 104) > usize::MAX as u64 {
        return Err("snapshot frame count exceeds address space".to_owned());
    }
    if history.len() < 8 {
        return Err("snapshot history count disagrees with metadata".to_owned());
    }
    if fixed_u64(history, 0) > usize::MAX as u64 {
        return Err("snapshot history count exceeds address space".to_owned());
    }
    if fixed_u64(history, 0) != fixed_u64(bytes, 104) {
        return Err("snapshot history count disagrees with metadata".to_owned());
    }
    Ok(())
}

fn cell_in_range(cell: u64, literals: usize) -> (result: bool)
    ensures
        result == (cell < VM_LITERAL_BASE || cell < VM_DISPLACED_BASE && cell - VM_LITERAL_BASE
            < literals),
{
    cell < VM_LITERAL_BASE || cell < VM_DISPLACED_BASE && cell - VM_LITERAL_BASE < literals as u64
}

fn check_records(image: &SnapshotImage) -> (result: Result<(), String>)
    ensures
        match records_fault(image@, image@.records.len()) {
            None => result is Ok,
            Some(fault) => result matches Err(message) && message@ == fault,
        },
{
    let mut index: usize = 0;
    while index < image.records.len()
        invariant
            index <= image.records.len(),
            records_fault(image@, index as nat) is None,
        decreases image.records.len() - index,
    {
        let record = image.records[index];
        let good = (record.slot as usize) < image.slots.len() && (record.predicate as usize)
            < image.predicates.len() && (record.previous == NONE || (record.previous as usize)
            < index) && cell_in_range(record.subject, image.literals.len()) && cell_in_range(
            record.object,
            image.literals.len(),
        );
        proof {
            assert(good == record_ok(image@, index as int));
        }
        if !good {
            proof {
                record_fault_stays(image@, (index + 1) as nat, image@.records.len());
            }
            return Err(labelled("invalid mapped fact record ", index as u64));
        }
        index += 1;
    }
    Ok(())
}

fn check_heads(image: &SnapshotImage) -> (result: bool)
    ensures
        result == heads_in_range(image@),
{
    let mut index: usize = 0;
    while index < image.heads.len()
        invariant
            index <= image.heads.len(),
            forall|t: int|
                0 <= t < index ==> #[trigger] image.heads@[t] == NONE || image.heads@[t]
                    < image.records.len(),
        decreases image.heads.len() - index,
    {
        let head: u32 = image.heads[index];
        if head != NONE && head as usize >= image.records.len() {
            proof {
                assert(image@.heads[index as int] == head);
            }
            return false;
        }
        index += 1;
    }
    true
}

fn check_index(records: usize, entries: &Vec<IndexEntry>) -> (result: Result<(), String>)
    ensures
        match index_fault(records as nat, entries@, entries@.len()) {
            None => result is Ok,
            Some(fault) => result matches Err(message) && message@ == fault,
        },
{
    let mut index: usize = 0;
    while index < entries.len()
        invariant
            index <= entries.len(),
            index_fault(records as nat, entries@, index as nat) is None,
        decreases entries.len() - index,
    {
        let entry = entries[index];
        proof {
            if entry_fault(records as nat, entries@, index as int) is Some {
                index_fault_stays(records as nat, entries@, (index + 1) as nat, entries@.len());
            }
        }
        if entry.record as usize >= records {
            return Err("mapped index record exceeds arena".to_owned());
        }
        if index > 0 {
            let previous = entries[index - 1];
            let sorted = previous.first < entry.first || (previous.first == entry.first && (
            previous.second < entry.second || (previous.second == entry.second && previous.third
                <= entry.third)));
            if !sorted {
                return Err("mapped index is not sorted".to_owned());
            }
        }
        index += 1;
    }
    Ok(())
}

/// Tests that every token, link and index entry of the tables points at what there is.
fn validate_records_and_indexes(image: &SnapshotImage) -> (result: Result<(), String>)
    ensures
        match image_fault(image@) {
            None => result is Ok,
            Some(fault) => result matches Err(message) && message@ == fault,
        },
{
    check_records(image)?;
    if !check_heads(image) {
        return Err("mapped slot head exceeds record section".to_owned());
    }
    check_index(image.records.len(), &image.spo)?;
    check_index(image.records.len(), &image.pos)?;
    check_index(image.records.len(), &image.osp)
}

impl MmapVmSnapshot {
    /// The tables can be read without leaving them.
    pub open spec fn wf(&self) -> bool {
        image_ok(self@.image)
    }

    /// How many bytes the file has.
    pub closed spec fn size(&self) -> nat {
        self.length as nat
    }

    /// Opens the bytes of a snapshot that belongs to a journal.
    pub fn open(bytes: &[u8], journal: &[u8]) -> (result: Result<Self, String>)
        ensures
            match (result, opened(bytes@, journal@)) {
                (Ok(snapshot), Ok(model)) => snapshot@ == model && snapshot.wf() && snapshot.size()
                    == bytes@.len(),
                (Err(message), Err(model)) => message@ == model,
                _ => false,
            },
    {
        if !check_envelope(bytes) {
            return Err("invalid mmap VM snapshot envelope".to_owned());
        }
        check_journal(bytes, journal)?;
        check_sections(bytes)?;
        if check_overlap(bytes) {
            return Err("snapshot sections overlap".to_owned());
        }
        let slots = parse_string_table(section_slice(bytes, 0))?;
        let predicates = parse_string_table(section_slice(bytes, 1))?;
        let literals = parse_string_table(section_slice(bytes, 2))?;
        let ghost names = names_of(slots@, predicates@, literals@);
        proof {
            assert(taken_snapshot_names(bytes@) == Ok::<VocabularyModel, Seq<char>>(names));
            faultless_section(bytes@, 10, 0);
            faultless_section(bytes@, 10, 1);
            faultless_section(bytes@, 10, 2);
            faultless_section(bytes@, 10, 3);
            taken_table_ascends(section_at(bytes@, 0));
            taken_table_ascends(section_at(bytes@, 1));
            taken_table_ascends(section_at(bytes@, 2));
            ascending_is_distinct(names.slots);
            ascending_is_distinct(names.predicates);
            ascending_is_distinct(names.literals);
        }
        check_counts(bytes, slots.len())?;
        let image = SnapshotImage {
            slots,
            predicates,
            literals,
            records: decode_records(section_slice(bytes, 3)),
            heads: decode_u32s(section_slice(bytes, 4)),
            active: decode_u32s(section_slice(bytes, 5)),
            spo: decode_indexes(section_slice(bytes, 6)),
            pos: decode_indexes(section_slice(bytes, 7)),
            osp: decode_indexes(section_slice(bytes, 8)),
        };
        proof {
            assert(image@ == image_in(bytes@, names));
        }
        validate_records_and_indexes(&image)?;
        let mut history: Vec<u8> = Vec::new();
        put_bytes(&mut history, section_slice(bytes, 9));
        proof {
            assert(history@ =~= section_at(bytes@, 9));
        }
        let result = MmapVmSnapshot {
            epoch_count: fixed_u64(bytes, 32),
            journal_offset: fixed_u64(bytes, 40),
            world_id: WorldId(fixed_u64(bytes, 56)),
            world_version: fixed_u64(bytes, 64),
            next_entity: fixed_u64(bytes, 72),
            operation_count: fixed_u64(bytes, 80) as usize,
            record_count: fixed_u64(bytes, 96) as usize,
            frame_count: fixed_u64(bytes, 104) as usize,
            length: bytes.len(),
            image,
            history,
        };
        proof {
            assert(result@ == snapshot_in(bytes@, names));
            assert(result@.image == image@);
        }
        Ok(result)
    }

    pub fn epoch_count(&self) -> (result: u64)
        ensures
            result == self@.epoch_count,
    {
        self.epoch_count
    }

    pub fn journal_offset(&self) -> (result: u64)
        ensures
            result == self@.journal_offset,
    {
        self.journal_offset
    }

    pub fn world_id(&self) -> (result: WorldId)
        ensures
            result == self@.world_id,
    {
        self.world_id
    }

    pub fn world_version(&self) -> (result: u64)
        ensures
            result == self@.world_version,
    {
        self.world_version
    }

    pub fn next_entity(&self) -> (result: u64)
        ensures
            result == self@.next_entity,
    {
        self.next_entity
    }

    pub fn operation_count(&self) -> (result: usize)
        ensures
            result == self@.operation_count,
    {
        self.operation_count
    }

    pub fn active_slot_count(&self) -> (result: usize)
        ensures
            result == self@.image.active.len(),
    {
        self.image.active.len()
    }

    pub fn record_count(&self) -> (result: usize)
        ensures
            result == self@.record_count,
    {
        self.record_count
    }

    pub fn snapshot_bytes(&self) -> (result: u64)
        ensures
            result == self.size(),
    {
        self.length as u64
    }

    pub(crate) fn image(&self) -> (result: &SnapshotImage)
        ensures
            result@ == self@.image,
    {
        &self.image
    }

    pub fn slot_token(&self, value: &str) -> (result: Option<u32>)
        requires
            self.wf(),
        ensures
            match result {
                Some(token) => token_of(self@.image.names.slots, value@) == token,
                None => token_of(self@.image.names.slots, value@) < 0,
            },
    {
        self.image.slot_token(value)
    }

    /// The active fact of a slot.
    pub fn resolve(&self, slot: &SlotId) -> (result: Option<Fact>)
        requires
            self.wf(),
        ensures
            optional_fact(result) == mapped_active(self@.image, slot@),
    {
        let token: u32 = self.image.slot_token(slot.as_str())?;
        proof {
            token_facts(self@.image.names.slots, slot@);
        }
        let head: u32 = self.image.heads[token as usize];
        proof {
            assert(self@.image.heads[token as int] == head);
        }
        if head == NONE {
            None
        } else {
            Some(self.image.fact(head))
        }
    }

    /// All facts that define a slot, newest first.
    pub fn definitions(&self, slot: &SlotId) -> (result: Vec<Fact>)
        requires
            self.wf(),
        ensures
            views(result@) == mapped_definitions(self@.image, slot@),
    {
        let mut output: Vec<Fact> = Vec::new();
        let token: u32 = match self.image.slot_token(slot.as_str()) {
            Some(token) => token,
            None => {
                proof {
                    assert(views(output@) =~= mapped_definitions(self@.image, slot@));
                }
                return output;
            },
        };
        proof {
            token_facts(self@.image.names.slots, slot@);
        }
        let mut record: u32 = self.image.heads[token as usize];
        let ghost names = self@.image.names;
        let ghost records = self@.image.records;
        proof {
            assert(self@.image.heads[token as int] == record);
            faultless_records(self@.image, records.len());
            assert(views(output@) + mapped_stack(names, records, record) =~= mapped_stack(
                names,
                records,
                record,
            ));
        }
        while record != NONE
            invariant
                self.wf(),
                names == self@.image.names,
                records == self@.image.records,
                record == NONE || record < records.len(),
                forall|i: int| 0 <= i < records.len() ==> #[trigger] record_ok(self@.image, i),
                views(output@) + mapped_stack(names, records, record) == mapped_definitions(
                    self@.image,
                    slot@,
                ),
            decreases
                    if record == NONE {
                        0int
                    } else {
                        record + 1int
                    },
        {
            let ghost before = output@;
            let fact = self.image.fact(record);
            output.push(fact);
            let previous: u32 = self.image.records[record as usize].previous;
            proof {
                assert(record_ok(self@.image, record as int));
                assert(views(output@) =~= views(before).push(fact@));
                assert(views(before) + (seq![fact@] + mapped_stack(names, records, previous))
                    =~= views(output@) + mapped_stack(names, records, previous));
                assert(views(before) + seq![fact@] =~= views(output@) + mapped_stack(
                    names,
                    records,
                    NONE,
                ));
            }
            record = previous;
        }
        proof {
            assert(views(output@) + mapped_stack(names, records, record) =~= views(output@));
        }
        output
    }

    /// How an entity is shown.
    pub fn display_name(&self, entity: EntityId) -> (result: String)
        requires
            self.wf(),
        ensures
            result@ == match mapped_active(self@.image, display_slot_text(entity.0)) {
                Some(fact) => match fact.object {
                    AtomModel::Literal(name) => name,
                    AtomModel::Entity(_) => entity_text(entity.0),
                },
                None => entity_text(entity.0),
            },
    {
        match self.resolve(&display_slot(entity)) {
            Some(fact) => match fact.object {
                Atom::Literal(value) => value.as_str().to_owned(),
                Atom::Entity(_) => entity_name(entity),
            },
            None => entity_name(entity),
        }
    }

    /// Whether the history can be read.
    pub fn has_history(&self) -> (result: bool)
        ensures
            result == (taken_history(self@.history) is Ok),
    {
        decode_frames(self.history.as_slice()).is_ok()
    }

    /// The history of the world.
    pub fn frames(&self) -> (result: Vec<Arc<CommitFrame>>)
        requires
            taken_history(self@.history) is Ok,
        ensures
            taken_history(self@.history) == Ok::<Seq<FrameModel>, Seq<char>>(views(result@)),
    {
        match decode_frames(self.history.as_slice()) {
            Ok(frames) => frames,
            Err(_) => Vec::new(),
        }
    }
}

impl SnapshotImage {
    pub fn slot_token(&self, value: &str) -> (result: Option<u32>)
        requires
            image_ok(self@),
        ensures
            match result {
                Some(token) => token_of(self@.names.slots, value@) == token,
                None => token_of(self@.names.slots, value@) < 0,
            },
    {
        find_token(&self.slots, value)
    }

    pub fn predicate_token(&self, value: &str) -> (result: Option<u32>)
        requires
            image_ok(self@),
        ensures
            match result {
                Some(token) => token_of(self@.names.predicates, value@) == token,
                None => token_of(self@.names.predicates, value@) < 0,
            },
    {
        find_token(&self.predicates, value)
    }

    pub fn literal_token(&self, value: &str) -> (result: Option<u32>)
        requires
            image_ok(self@),
        ensures
            match result {
                Some(token) => token_of(self@.names.literals, value@) == token,
                None => token_of(self@.names.literals, value@) < 0,
            },
    {
        find_token(&self.literals, value)
    }

    /// The atom of a cell.
    pub fn atom_value(&self, cell: u64) -> (result: Atom)
        requires
            cell_ok(self@.names, cell),
        ensures
            result@ == cell_atom(self@.names, cell),
    {
        proof {
            assert(self.literals.len() == self@.names.literals.len());
        }
        if cell < VM_LITERAL_BASE {
            Atom::Entity(EntityId(cell))
        } else {
            Atom::Literal(Literal::new(self.literals[(cell - VM_LITERAL_BASE) as usize].as_str()))
        }
    }

    /// The fact of a record.
    pub fn fact(&self, index: u32) -> (result: Fact)
        requires
            image_ok(self@),
            index < self@.records.len(),
        ensures
            result@ == record_fact(self@.names, self@.records[index as int]),
    {
        proof {
            faultless_records(self@, self@.records.len());
            assert(record_ok(self@, index as int));
        }
        let record = self.records[index as usize];
        Fact::new(
            self.atom_value(record.subject),
            Predicate::new(self.predicates[record.predicate as usize].as_str()),
            self.atom_value(record.object),
        )
    }
}

/// The place of a name in an ascending table.
fn find_token(names: &Vec<String>, value: &str) -> (result: Option<u32>)
    requires
        ascending(texts(names@)),
        names.len() < NONE,
    ensures
        match result {
            Some(token) => token_of(texts(names@), value@) == token,
            None => token_of(texts(names@), value@) < 0,
        },
{
    proof {
        token_facts(texts(names@), value@);
        occurring_has_token(texts(names@), value@);
        ascending_is_distinct(texts(names@));
    }
    match find_name(names, value) {
        Ok(token) => Some(token as u32),
        Err(_) => None,
    }
}

} // verus!
