//! Building the tables of a snapshot.

use crate::compile::{atom_fault, atom_known};
use crate::fact::{Atom, AtomModel, Literal, same_text, views};
use crate::image::{
    ImageModel, IndexEntry, IndexShape, MappedRecord, entry_le, entry_of, image_active, image_head,
    image_heads, image_records, image_records_grow, images, index_of, names_exactly, names_literal,
    names_predicate, names_slot, occurring_has_token, record_of, records_stand_for_facts,
    slot_definitions, slot_definitions_facts, slot_records, unmappable,
};
use crate::kernel::{Definition, DefinitionModel, Kernel, active, active_before};
use crate::ordered::{ascending, ascending_is_distinct, find_name, insert_name, occurs, texts};
use crate::vm::{NONE, VM_LITERAL_BASE};
use crate::vocabulary::{
    VocabularyModel, atom_cell_of, distinct, tables_ok, token_facts, token_is, token_of,
};
use std::sync::Arc;
use vstd::prelude::*;
use vstd::string::*;

verus! {

/// The tables of a snapshot.
pub struct SnapshotImage {
    pub slots: Vec<String>,
    pub predicates: Vec<String>,
    pub literals: Vec<String>,
    pub records: Vec<MappedRecord>,
    pub heads: Vec<u32>,
    pub active: Vec<u32>,
    pub spo: Vec<IndexEntry>,
    pub pos: Vec<IndexEntry>,
    pub osp: Vec<IndexEntry>,
}

impl View for SnapshotImage {
    type V = ImageModel;

    open spec fn view(&self) -> ImageModel {
        ImageModel {
            names: names_of(self.slots@, self.predicates@, self.literals@),
            records: self.records@,
            heads: self.heads@,
            active: self.active@,
            spo: self.spo@,
            pos: self.pos@,
            osp: self.osp@,
        }
    }
}

pub open spec fn names_of(
    slots: Seq<String>,
    predicates: Seq<String>,
    literals: Seq<String>,
) -> VocabularyModel {
    VocabularyModel {
        slots: texts(slots),
        predicates: texts(predicates),
        literals: texts(literals),
        displaced: Seq::empty(),
    }
}

/// The three sorted tables of names.
struct NameTables {
    slots: Vec<String>,
    predicates: Vec<String>,
    literals: Vec<String>,
}

fn insert_literal(literals: &mut Vec<String>, atom: &Atom)
    requires
        ascending(texts(old(literals)@)),
    ensures
        ascending(texts(final(literals)@)),
        forall|name: Seq<char>| #[trigger]
            occurs(texts(final(literals)@), name) <==> (occurs(texts(old(literals)@), name)
                || atom@ == AtomModel::Literal(name)),
        final(literals)@.len() <= old(literals)@.len() + 1,
{
    if let Atom::Literal(literal) = atom {
        insert_name(literals, literal.as_str());
    }
}

/// Collects the names of definitions.
fn collect_names(live: &[Arc<Definition>]) -> (result: NameTables)
    ensures
        names_exactly(
            names_of(result.slots@, result.predicates@, result.literals@),
            views(live@),
        ),
        result.slots.len() <= live.len(),
        result.predicates.len() <= live.len(),
        result.literals.len() <= 2 * live.len(),
{
    let ghost models = views(live@);
    let mut slots: Vec<String> = Vec::new();
    let mut predicates: Vec<String> = Vec::new();
    let mut literals: Vec<String> = Vec::new();
    let mut index: usize = 0;
    while index < live.len()
        invariant
            index <= live.len(),
            models == views(live@),
            slots.len() <= index,
            predicates.len() <= index,
            literals.len() <= 2 * index,
            ascending(texts(slots@)),
            ascending(texts(predicates@)),
            ascending(texts(literals@)),
            forall|name: Seq<char>| #[trigger]
                occurs(texts(slots@), name) <==> names_slot(models.take(index as int), name),
            forall|name: Seq<char>| #[trigger]
                occurs(texts(predicates@), name) <==> names_predicate(
                    models.take(index as int),
                    name,
                ),
            forall|name: Seq<char>| #[trigger]
                occurs(texts(literals@), name) <==> names_literal(
                    models.take(index as int),
                    name,
                ),
        decreases live.len() - index,
    {
        let definition = &live[index];
        let ghost before_slots = texts(slots@);
        let ghost before_predicates = texts(predicates@);
        let ghost before_literals = texts(literals@);
        insert_name(&mut slots, definition.slot().as_str());
        insert_name(&mut predicates, definition.fact().predicate.as_str());
        insert_literal(&mut literals, &definition.fact().subject);
        insert_literal(&mut literals, &definition.fact().object);
        proof {
            let model = models[index as int];
            assert(model == definition@);
            let done = models.take(index as int);
            let more = models.take(index + 1);
            assert(more =~= done.push(model));
            assert forall|name: Seq<char>| #[trigger] occurs(texts(slots@), name) <==> names_slot(
                more,
                name,
            ) by {
                assert(occurs(before_slots, name) <==> names_slot(done, name));
                names_grow(done, model, name);
            }
            assert forall|name: Seq<char>| #[trigger]
                occurs(texts(predicates@), name) <==> names_predicate(more, name) by {
                assert(occurs(before_predicates, name) <==> names_predicate(done, name));
                names_grow(done, model, name);
            }
            assert forall|name: Seq<char>| #[trigger]
                occurs(texts(literals@), name) <==> names_literal(more, name) by {
                assert(occurs(before_literals, name) <==> names_literal(done, name));
                names_grow(done, model, name);
            }
        }
        index += 1;
    }
    proof {
        assert(models.take(index as int) =~= models);
    }
    NameTables { slots, predicates, literals }
}

/// What one more definition names.
proof fn names_grow(live: Seq<DefinitionModel>, definition: DefinitionModel, name: Seq<char>)
    ensures
        names_slot(live.push(definition), name) <==> (names_slot(live, name) || definition.slot
            == name),
        names_predicate(live.push(definition), name) <==> (names_predicate(live, name)
            || definition.fact.predicate == name),
        names_literal(live.push(definition), name) <==> (names_literal(live, name)
            || definition.fact.subject == AtomModel::Literal(name) || definition.fact.object
            == AtomModel::Literal(name)),
{
    let more = live.push(definition);
    assert(more[live.len() as int] == definition);
    assert forall|i: int| 0 <= i < live.len() implies #[trigger] more[i] == live[i] by {}
    if names_slot(live, name) {
        let i = choose|i: int| 0 <= i < live.len() && (#[trigger] live[i]).slot == name;
        assert(more[i].slot == name);
    }
    if names_predicate(live, name) {
        let i = choose|i: int| 0 <= i < live.len() && (#[trigger] live[i]).fact.predicate == name;
        assert(more[i].fact.predicate == name);
    }
    if names_literal(live, name) {
        let i = choose|i: int|
            0 <= i < live.len() && ((#[trigger] live[i]).fact.subject == AtomModel::Literal(name)
                || live[i].fact.object == AtomModel::Literal(name));
        assert(more[i] == live[i]);
    }
    if names_slot(more, name) {
        let i = choose|i: int| 0 <= i < more.len() && (#[trigger] more[i]).slot == name;
        if i < live.len() {
            assert(live[i].slot == name);
        }
    }
    if names_predicate(more, name) {
        let i = choose|i: int| 0 <= i < more.len() && (#[trigger] more[i]).fact.predicate == name;
        if i < live.len() {
            assert(live[i].fact.predicate == name);
        }
    }
    if names_literal(more, name) {
        let i = choose|i: int|
            0 <= i < more.len() && ((#[trigger] more[i]).fact.subject == AtomModel::Literal(name)
                || more[i].fact.object == AtomModel::Literal(name));
        if i < live.len() {
            assert(live[i] == more[i]);
        }
    }
}

fn mappable_atom(atom: &Atom) -> (result: bool)
    ensures
        result == (atom_fault(atom@) is None),
{
    match atom {
        Atom::Entity(entity) => entity.0 < VM_LITERAL_BASE,
        Atom::Literal(_) => true,
    }
}

pub fn all_mappable(live: &[Arc<Definition>]) -> (result: bool)
    ensures
        result == !unmappable(views(live@)),
{
    let ghost models = views(live@);
    let mut index: usize = 0;
    while index < live.len()
        invariant
            index <= live.len(),
            models == views(live@),
            forall|i: int|
                0 <= i < index ==> atom_fault((#[trigger] models[i]).fact.subject) is None
                    && atom_fault(models[i].fact.object) is None,
        decreases live.len() - index,
    {
        let fact = live[index].fact();
        proof {
            assert(models[index as int].fact == fact@);
        }
        if !mappable_atom(&fact.subject) || !mappable_atom(&fact.object) {
            return false;
        }
        index += 1;
    }
    true
}

fn mapped_cell(literals: &Vec<String>, atom: &Atom, Ghost(names): Ghost<VocabularyModel>) -> (
    result: u64)
    requires
        ascending(texts(literals@)),
        names.literals == texts(literals@),
        tables_ok(names),
        atom_known(names, atom@),
    ensures
        result == atom_cell_of(names, atom@),
{
    match atom {
        Atom::Entity(entity) => entity.0,
        Atom::Literal(literal) => match find_name(literals, literal.as_str()) {
            Ok(token) => VM_LITERAL_BASE + token as u64,
            Err(_) => 0,
        },
    }
}

/// Appends the records of one slot.
fn push_slot_records(
    tables: &NameTables,
    live: &[Arc<Definition>],
    token: usize,
    records: &mut Vec<MappedRecord>,
    Ghost(names): Ghost<VocabularyModel>,
) -> (result: u32)
    requires
        names == names_of(tables.slots@, tables.predicates@, tables.literals@),
        names_exactly(names, views(live@)),
        tables_ok(names),
        !unmappable(views(live@)),
        token < tables.slots.len(),
        2 * live.len() < NONE,
        old(records)@ == image_records(names, views(live@), token as nat),
        old(records)@.len() + slot_definitions(views(live@), names.slots[token as int]).len()
            < NONE,
    ensures
        final(records)@ == image_records(names, views(live@), (token + 1) as nat),
        result == image_head(names, views(live@), token as int),
{
    let ghost models = views(live@);
    let ghost slot = names.slots[token as int];
    let ghost front = records@;
    let start: usize = records.len();
    let name = tables.slots[token].as_str();
    let mut previous: u32 = NONE;
    let mut index: usize = 0;
    proof {
        assert(name@ == slot);
        assert(models.take(0) =~= Seq::empty());
        assert(records@ =~= front + slot_records(
            names,
            slot_definitions(models.take(0), slot),
            token as u32,
            start as int,
        ));
    }
    while index < live.len()
        invariant
            index <= live.len(),
            models == views(live@),
            names == names_of(tables.slots@, tables.predicates@, tables.literals@),
            names_exactly(names, models),
            tables_ok(names),
            !unmappable(models),
            token < tables.slots.len(),
            slot == names.slots[token as int],
            name@ == slot,
            start == front.len(),
            start + slot_definitions(models, slot).len() < NONE,
            ({
                let done = slot_definitions(models.take(index as int), slot);
                &&& records@ == front + slot_records(names, done, token as u32, start as int)
                &&& previous == if done.len() == 0 {
                    NONE
                } else {
                    (start + done.len() - 1) as u32
                }
                &&& done.len() <= slot_definitions(models, slot).len()
            }),
        decreases live.len() - index,
    {
        let definition = &live[index];
        let ghost done = slot_definitions(models.take(index as int), slot);
        proof {
            assert(models.take(index + 1).drop_last() =~= models.take(index as int));
            assert(models.take(index + 1).last() == definition@);
            slot_definitions_grow(models, slot, index + 1);
        }
        if same_text(definition.slot().as_str(), name) {
            let fact = definition.fact();
            proof {
                assert(models[index as int] == definition@);
                records_stand_for_facts(names, models, definition@, token as u32, previous);
            }
            let subject: u64 = mapped_cell(&tables.literals, &fact.subject, Ghost(names));
            let object: u64 = mapped_cell(&tables.literals, &fact.object, Ghost(names));
            let predicate: u32 = match find_name(&tables.predicates, fact.predicate.as_str()) {
                Ok(found) => found as u32,
                Err(_) => 0,
            };
            let record = MappedRecord {
                original_id: definition.record() as u64,
                slot: token as u32,
                previous,
                subject,
                predicate,
                object,
            };
            let ghost before = records@;
            let place: u32 = records.len() as u32;
            records.push(record);
            proof {
                let more = done.push(definition@);
                assert(record == record_of(names, definition@, token as u32, previous));
                assert(records@ =~= front + slot_records(names, more, token as u32, start as int));
            }
            previous = place;
        }
        index += 1;
    }
    proof {
        assert(models.take(index as int) =~= models);
    }
    previous
}

proof fn slot_definitions_grow(live: Seq<DefinitionModel>, slot: Seq<char>, count: int)
    requires
        0 <= count <= live.len(),
    ensures
        slot_definitions(live.take(count), slot).len() <= slot_definitions(live, slot).len(),
    decreases live.len(),
{
    if count == live.len() {
        assert(live.take(count) =~= live);
    } else {
        assert(live.drop_last().take(count) =~= live.take(count));
        slot_definitions_grow(live.drop_last(), slot, count);
    }
}

/// How many definitions the first `count` slots have.
pub proof fn records_are_definitions(
    names: VocabularyModel,
    live: Seq<DefinitionModel>,
    count: nat,
)
    requires
        distinct(names.slots),
        count <= names.slots.len(),
    ensures
        image_records(names, live, count).len() <= live.len(),
    decreases live.len(),
{
    if live.len() == 0 {
        no_definitions_no_records(names, live, count);
    } else {
        records_are_definitions(names, live.drop_last(), count);
        one_definition_one_record(names, live, count);
    }
}

pub proof fn no_definitions_no_records(
    names: VocabularyModel,
    live: Seq<DefinitionModel>,
    count: nat,
)
    requires
        live.len() == 0,
    ensures
        image_records(names, live, count).len() == 0,
    decreases count,
{
    if count > 0 {
        no_definitions_no_records(names, live, (count - 1) as nat);
    }
}

/// A definition adds a record to at most one slot.
pub proof fn one_definition_one_record(
    names: VocabularyModel,
    live: Seq<DefinitionModel>,
    count: nat,
)
    requires
        live.len() > 0,
        distinct(names.slots),
        count <= names.slots.len(),
    ensures
        image_records(names, live, count).len() == image_records(
            names,
            live.drop_last(),
            count,
        ).len() + if 0 <= token_of(names.slots, live.last().slot) < count {
            1int
        } else {
            0int
        },
    decreases count,
{
    if count > 0 {
        one_definition_one_record(names, live, (count - 1) as nat);
        token_facts(names.slots, live.last().slot);
        token_is(names.slots, count - 1);
    }
}

/// One entry does not come after another.
fn not_after(records: &Vec<MappedRecord>, left: IndexEntry, right: IndexEntry) -> (result: bool)
    requires
        left.record < records.len(),
        right.record < records.len(),
    ensures
        result == entry_le(records@, left, right),
{
    if left.first != right.first {
        left.first < right.first
    } else if left.second != right.second {
        left.second < right.second
    } else if left.third != right.third {
        left.third < right.third
    } else {
        records[left.record as usize].original_id <= records[right.record as usize].original_id
    }
}

proof fn entry_le_transitive(
    records: Seq<MappedRecord>,
    a: IndexEntry,
    b: IndexEntry,
    c: IndexEntry,
)
    requires
        entry_le(records, a, b),
        entry_le(records, b, c),
    ensures
        entry_le(records, a, c),
{
}

fn make_entry(records: &Vec<MappedRecord>, record: u32, shape: IndexShape) -> (result: IndexEntry)
    requires
        record < records.len(),
    ensures
        result == entry_of(records@, record, shape),
{
    let fact = records[record as usize];
    match shape {
        IndexShape::SubjectPredicateObject => IndexEntry {
            first: fact.subject,
            second: fact.predicate as u64,
            third: fact.object,
            record,
        },
        IndexShape::PredicateObjectSubject => IndexEntry {
            first: fact.predicate as u64,
            second: fact.object,
            third: fact.subject,
            record,
        },
        IndexShape::ObjectSubjectPredicate => IndexEntry {
            first: fact.object,
            second: fact.subject,
            third: fact.predicate as u64,
            record,
        },
    }
}

/// Builds a sorted index of the active records.
fn build_index(records: &Vec<MappedRecord>, active: &Vec<u32>, shape: IndexShape) -> (result: Vec<
    IndexEntry,
>)
    requires
        forall|i: int| 0 <= i < active.len() ==> (#[trigger] active@[i]) < records.len(),
    ensures
        index_of(records@, active@, result@, shape),
        result.len() == active.len(),
        forall|i: int| 0 <= i < result.len() ==> (#[trigger] result@[i]).record < records.len(),
{
    let mut entries: Vec<IndexEntry> = Vec::new();
    let mut index: usize = 0;
    proof {
        assert(entries@ =~= Seq::new(0, |i: int| entry_of(records@, active@[i], shape)));
    }
    while index < active.len()
        invariant
            index <= active.len(),
            entries.len() == index,
            forall|i: int| 0 <= i < active.len() ==> (#[trigger] active@[i]) < records.len(),
            forall|i: int|
                0 <= i < entries.len() ==> (#[trigger] entries@[i]).record < records.len(),
            entries@.to_multiset() == Seq::new(
                index as nat,
                |i: int| entry_of(records@, active@[i], shape),
            ).to_multiset(),
            forall|i: int, j: int|
                0 <= i < j < entries.len() ==> entry_le(
                    records@,
                    #[trigger] entries@[i],
                    #[trigger] entries@[j],
                ),
        decreases active.len() - index,
    {
        let entry = make_entry(records, active[index], shape);
        let ghost before = entries@;
        let ghost listed = Seq::new(
            index as nat,
            |i: int| entry_of(records@, active@[i], shape),
        );
        let mut place: usize = entries.len();
        while place > 0 && !not_after(records, entries[place - 1], entry)
            invariant
                place <= entries.len(),
                entries@ == before,
                entry.record < records.len(),
                forall|i: int|
                    0 <= i < entries.len() ==> (#[trigger] entries@[i]).record < records.len(),
                forall|i: int|
                    place <= i < entries.len() ==> !entry_le(
                        records@,
                        #[trigger] entries@[i],
                        entry,
                    ),
            decreases place,
        {
            place -= 1;
        }
        entries.insert(place, entry);
        proof {
            before.to_multiset_ensures();
            listed.to_multiset_ensures();
            vstd::seq_lib::to_multiset_insert(before, place as int, entry);
            let more = Seq::new(
                (index + 1) as nat,
                |i: int| entry_of(records@, active@[i], shape),
            );
            assert(more =~= listed.push(entry));
            assert forall|i: int, j: int| 0 <= i < j < entries.len() implies entry_le(
                records@,
                #[trigger] entries@[i],
                #[trigger] entries@[j],
            ) by {
                let from_i = if i < place {
                    i
                } else {
                    i - 1
                };
                let from_j = if j < place {
                    j
                } else {
                    j - 1
                };
                if i == place {
                    assert(entries@[j] == before[from_j]);
                    assert(!entry_le(records@, before[from_j], entry));
                } else if j == place {
                    assert(entries@[i] == before[from_i]);
                    if i < place - 1 {
                        assert(entry_le(records@, before[i], before[place - 1]));
                        entry_le_transitive(records@, before[i], before[place - 1], entry);
                    }
                } else {
                    assert(entries@[i] == before[from_i]);
                    assert(entries@[j] == before[from_j]);
                }
            }
            assert forall|i: int| 0 <= i < entries.len() implies (
            #[trigger] entries@[i]).record < records.len() by {
                if i < place {
                    assert(entries@[i] == before[i]);
                } else if i > place {
                    assert(entries@[i] == before[i - 1]);
                }
            }
        }
        index += 1;
    }
    entries
}

/// Every active slot has a record in an image.
pub proof fn active_has_head(
    names: VocabularyModel,
    live: Seq<DefinitionModel>,
    index: int,
)
    requires
        names_exactly(names, live),
        0 <= index < active(live).len(),
    ensures
        token_of(names.slots, active(live)[index].slot) >= 0,
        slot_definitions(live, active(live)[index].slot).len() > 0,
{
    let slot = active(live)[index].slot;
    active_is_live(live, live.len(), index);
    let j = choose|j: int| 0 <= j < live.len() && #[trigger] live[j] == active(live)[index];
    assert(names_slot(live, slot)) by {
        assert(live[j].slot == slot);
    }
    assert(occurs(names.slots, slot));
    occurring_has_token(names.slots, slot);
    slot_definitions_facts(live, slot);
}

proof fn active_is_live(live: Seq<DefinitionModel>, count: nat, index: int)
    requires
        count <= live.len(),
        0 <= index < active_before(live, count).len(),
    ensures
        exists|j: int| 0 <= j < live.len() && #[trigger] live[j] == active_before(live, count)[index],
    decreases count,
{
    if count > 0 {
        let front = active_before(live, (count - 1) as nat);
        if index < front.len() {
            active_is_live(live, (count - 1) as nat, index);
        } else {
            assert(live[count - 1] == active_before(live, count)[index]);
        }
    }
}

/// Builds the tables of the definitions of a kernel, unless an entity has no cell.
pub fn build_image(kernel: &Kernel) -> (result: Result<SnapshotImage, String>)
    requires
        2 * kernel@.live.len() < NONE,
    ensures
        match result {
            Ok(image) => images(image@, kernel@.live) && !unmappable(kernel@.live)
                && tables_ok(image@.names) && image@.records.len() <= kernel@.live.len(),
            Err(message) => unmappable(kernel@.live) && message@
                == "entity overlaps physical snapshot literal namespace"@,
        },
{
    let live = kernel.live();
    let ghost models = kernel@.live;
    proof {
        assert(live.len() == views(live@).len());
    }
    if !all_mappable(live) {
        return Err("entity overlaps physical snapshot literal namespace".to_owned());
    }
    let tables = collect_names(live);
    let ghost names = names_of(tables.slots@, tables.predicates@, tables.literals@);
    proof {
        ascending_is_distinct(names.slots);
        ascending_is_distinct(names.predicates);
        ascending_is_distinct(names.literals);
    }
    let mut records: Vec<MappedRecord> = Vec::new();
    let mut heads: Vec<u32> = Vec::new();
    let mut token: usize = 0;
    while token < tables.slots.len()
        invariant
            token <= tables.slots.len(),
            models == views(live@),
            2 * models.len() < NONE,
            names == names_of(tables.slots@, tables.predicates@, tables.literals@),
            names_exactly(names, models),
            tables_ok(names),
            !unmappable(models),
            records@ == image_records(names, models, token as nat),
            heads.len() == token,
            forall|t: int| 0 <= t < token ==> #[trigger] heads@[t] == image_head(names, models, t),
        decreases tables.slots.len() - token,
    {
        proof {
            records_are_definitions(names, models, (token + 1) as nat);
        }
        let head: u32 = push_slot_records(&tables, live, token, &mut records, Ghost(names));
        heads.push(head);
        token += 1;
    }
    proof {
        assert(heads@ =~= image_heads(names, models));
        records_are_definitions(names, models, names.slots.len());
    }
    let current = kernel.active();
    let mut active_list: Vec<u32> = Vec::new();
    let mut index: usize = 0;
    proof {
        assert(current.len() == views(current@).len());
    }
    while index < current.len()
        invariant
            index <= current.len(),
            views(current@) == active(models),
            names == names_of(tables.slots@, tables.predicates@, tables.literals@),
            names_exactly(names, models),
            distinct(names.slots),
            heads@ == image_heads(names, models),
            records@ == image_records(names, models, names.slots.len()),
            records.len() < NONE,
            active_list.len() == index,
            forall|i: int|
                0 <= i < index ==> (#[trigger] active_list@[i]) == image_head(
                    names,
                    models,
                    token_of(names.slots, active(models)[i].slot),
                ) && active_list@[i] < records.len(),
        decreases current.len() - index,
    {
        proof {
            assert(active(models)[index as int] == current@[index as int]@);
            active_has_head(names, models, index as int);
        }
        let found: usize = match find_name(&tables.slots, current[index].slot().as_str()) {
            Ok(found) => found,
            Err(_) => 0,
        };
        proof {
            let slot = active(models)[index as int].slot;
            token_facts(names.slots, slot);
            assert(found == token_of(names.slots, slot));
            image_records_grow(names, models, (found + 1) as nat, names.slots.len());
        }
        active_list.push(heads[found]);
        index += 1;
    }
    proof {
        assert(active_list@ =~= image_active(names, models));
    }
    let spo = build_index(&records, &active_list, IndexShape::SubjectPredicateObject);
    let pos = build_index(&records, &active_list, IndexShape::PredicateObjectSubject);
    let osp = build_index(&records, &active_list, IndexShape::ObjectSubjectPredicate);
    Ok(
        SnapshotImage {
            slots: tables.slots,
            predicates: tables.predicates,
            literals: tables.literals,
            records,
            heads,
            active: active_list,
            spo,
            pos,
            osp,
        },
    )
}

} // verus!
