//! The tables of a snapshot: the definitions of a world as sorted names, linked records and
//! sorted indexes.

use crate::compile::{atom_fault, atom_known, cell_stands_for_atom};
use crate::fact::{AtomModel, FactModel, Literal};
use crate::kernel::{DefinitionModel, active, active_fact, active_fact_is_newest, slot_facts};
use crate::ordered::{ascending, occurs};
use crate::vm::{NONE, VM_LITERAL_BASE};
use crate::vocabulary::{
    VocabularyModel, atom_cell_of, cell_atom, cell_ok, tables_ok, token_facts, token_of,
};
use std::sync::Arc;
use vstd::prelude::*;
use vstd::string::*;

verus! {

/// One definition in a snapshot.
#[derive(Clone, Copy, Debug, PartialEq, Eq, Structural)]
pub struct MappedRecord {
    /// The number of the definition in its world.
    pub original_id: u64,
    pub slot: u32,
    /// The definition of the same slot before this one.
    pub previous: u32,
    pub subject: u64,
    pub predicate: u32,
    pub object: u64,
}

/// One entry of an index: three cells in the order of the index, and a record.
#[derive(Clone, Copy, Debug, PartialEq, Eq, Structural)]
pub struct IndexEntry {
    pub first: u64,
    pub second: u64,
    pub third: u64,
    pub record: u32,
}

/// The tables of a snapshot.
pub struct ImageModel {
    pub names: VocabularyModel,
    pub records: Seq<MappedRecord>,
    pub heads: Seq<u32>,
    pub active: Seq<u32>,
    pub spo: Seq<IndexEntry>,
    pub pos: Seq<IndexEntry>,
    pub osp: Seq<IndexEntry>,
}

/// The definitions of a slot, oldest first.
pub open spec fn slot_definitions(live: Seq<DefinitionModel>, slot: Seq<char>) -> Seq<
    DefinitionModel,
>
    decreases live.len(),
{
    if live.len() == 0 {
        Seq::empty()
    } else if live.last().slot == slot {
        slot_definitions(live.drop_last(), slot).push(live.last())
    } else {
        slot_definitions(live.drop_last(), slot)
    }
}

/// The record of a definition.
pub open spec fn record_of(
    names: VocabularyModel,
    definition: DefinitionModel,
    token: u32,
    previous: u32,
) -> MappedRecord {
    MappedRecord {
        original_id: definition.record as u64,
        slot: token,
        previous,
        subject: atom_cell_of(names, definition.fact.subject),
        predicate: token_of(names.predicates, definition.fact.predicate) as u32,
        object: atom_cell_of(names, definition.fact.object),
    }
}

/// The records of one slot, behind `start` others.
pub open spec fn slot_records(
    names: VocabularyModel,
    definitions: Seq<DefinitionModel>,
    token: u32,
    start: int,
) -> Seq<MappedRecord> {
    Seq::new(
        definitions.len(),
        |i: int|
            record_of(
                names,
                definitions[i],
                token,
                if i == 0 {
                    NONE
                } else {
                    (start + i - 1) as u32
                },
            ),
    )
}

/// The records of the first `count` slots.
pub open spec fn image_records(
    names: VocabularyModel,
    live: Seq<DefinitionModel>,
    count: nat,
) -> Seq<MappedRecord>
    decreases count,
{
    if count == 0 {
        Seq::empty()
    } else {
        let front = image_records(names, live, (count - 1) as nat);
        front + slot_records(
            names,
            slot_definitions(live, names.slots[count - 1]),
            (count - 1) as u32,
            front.len() as int,
        )
    }
}

/// The newest record of a slot.
pub open spec fn image_head(
    names: VocabularyModel,
    live: Seq<DefinitionModel>,
    token: int,
) -> u32 {
    if slot_definitions(live, names.slots[token]).len() == 0 {
        NONE
    } else {
        (image_records(names, live, (token + 1) as nat).len() - 1) as u32
    }
}

pub open spec fn image_heads(names: VocabularyModel, live: Seq<DefinitionModel>) -> Seq<u32> {
    Seq::new(names.slots.len(), |t: int| image_head(names, live, t))
}

/// The newest records of all defined slots, in the order in which they were defined.
pub open spec fn image_active(names: VocabularyModel, live: Seq<DefinitionModel>) -> Seq<u32> {
    Seq::new(
        active(live).len(),
        |i: int| image_head(names, live, token_of(names.slots, active(live)[i].slot)),
    )
}

/// Which of the three orders an index has.
#[derive(Clone, Copy, Debug, PartialEq, Eq, Structural)]
pub enum IndexShape {
    SubjectPredicateObject,
    PredicateObjectSubject,
    ObjectSubjectPredicate,
}

/// The index entry of a record.
pub open spec fn entry_of(
    records: Seq<MappedRecord>,
    record: u32,
    shape: IndexShape,
) -> IndexEntry {
    let fact = records[record as int];
    match shape {
        IndexShape::SubjectPredicateObject => IndexEntry {
            first: fact.subject,
            second: fact.predicate as u64,
            third: fact.object,
            record,
        },
        IndexShape::PredicateObjectSubject => IndexEntry {
            first: fact.predicate as u64,
            second: fact.object,
            third: fact.subject,
            record,
        },
        IndexShape::ObjectSubjectPredicate => IndexEntry {
            first: fact.object,
            second: fact.subject,
            third: fact.predicate as u64,
            record,
        },
    }
}

/// One key does not come after another.
pub open spec fn key_le(left: IndexEntry, right: IndexEntry) -> bool {
    ||| left.first < right.first
    ||| left.first == right.first && left.second < right.second
    ||| left.first == right.first && left.second == right.second && left.third <= right.third
}

/// One entry does not come after another: by key, and then by the age of the definition.
pub open spec fn entry_le(
    records: Seq<MappedRecord>,
    left: IndexEntry,
    right: IndexEntry,
) -> bool {
    if left.first == right.first && left.second == right.second && left.third == right.third {
        records[left.record as int].original_id <= records[right.record as int].original_id
    } else {
        key_le(left, right)
    }
}

/// An index holds the entries of the active records, in order.
pub open spec fn index_of(
    records: Seq<MappedRecord>,
    active: Seq<u32>,
    entries: Seq<IndexEntry>,
    shape: IndexShape,
) -> bool {
    &&& entries.to_multiset() == Seq::new(
        active.len(),
        |i: int| entry_of(records, active[i], shape),
    ).to_multiset()
    &&& forall|i: int, j: int|
        0 <= i < j < entries.len() ==> entry_le(
            records,
            #[trigger] entries[i],
            #[trigger] entries[j],
        )
}

/// Names of the atoms of some definitions.
pub open spec fn names_literal(live: Seq<DefinitionModel>, name: Seq<char>) -> bool {
    exists|i: int|
        0 <= i < live.len() && ((#[trigger] live[i]).fact.subject == AtomModel::Literal(name)
            || live[i].fact.object == AtomModel::Literal(name))
}

pub open spec fn names_predicate(live: Seq<DefinitionModel>, name: Seq<char>) -> bool {
    exists|i: int| 0 <= i < live.len() && (#[trigger] live[i]).fact.predicate == name
}

pub open spec fn names_slot(live: Seq<DefinitionModel>, name: Seq<char>) -> bool {
    exists|i: int| 0 <= i < live.len() && (#[trigger] live[i]).slot == name
}

/// The tables name exactly what the definitions name, in ascending order.
pub open spec fn names_exactly(names: VocabularyModel, live: Seq<DefinitionModel>) -> bool {
    &&& ascending(names.slots)
    &&& ascending(names.predicates)
    &&& ascending(names.literals)
    &&& forall|name: Seq<char>| #[trigger] occurs(names.slots, name) <==> names_slot(live, name)
    &&& forall|name: Seq<char>| #[trigger]
        occurs(names.predicates, name) <==> names_predicate(live, name)
    &&& forall|name: Seq<char>| #[trigger]
        occurs(names.literals, name) <==> names_literal(live, name)
}

/// The tables are those of some definitions.
pub open spec fn images(image: ImageModel, live: Seq<DefinitionModel>) -> bool {
    &&& names_exactly(image.names, live)
    &&& image.names.displaced == Seq::<u64>::empty()
    &&& image.records == image_records(image.names, live, image.names.slots.len())
    &&& image.heads == image_heads(image.names, live)
    &&& image.active == image_active(image.names, live)
    &&& index_of(image.records, image.active, image.spo, IndexShape::SubjectPredicateObject)
    &&& index_of(image.records, image.active, image.pos, IndexShape::PredicateObjectSubject)
    &&& index_of(image.records, image.active, image.osp, IndexShape::ObjectSubjectPredicate)
}

/// An entity that has no cell.
pub open spec fn unmappable(live: Seq<DefinitionModel>) -> bool {
    exists|i: int|
        0 <= i < live.len() && (atom_fault((#[trigger] live[i]).fact.subject) is Some || atom_fault(
            live[i].fact.object,
        ) is Some)
}

/// The facts behind a record, newest first.
pub open spec fn mapped_stack(
    names: VocabularyModel,
    records: Seq<MappedRecord>,
    head: u32,
) -> Seq<FactModel>
    decreases head,
{
    if head >= records.len() {
        Seq::empty()
    } else {
        let fact = record_fact(names, records[head as int]);
        if records[head as int].previous < head {
            seq![fact] + mapped_stack(names, records, records[head as int].previous)
        } else {
            seq![fact]
        }
    }
}

/// The fact of a record.
pub open spec fn record_fact(names: VocabularyModel, record: MappedRecord) -> FactModel {
    FactModel {
        subject: cell_atom(names, record.subject),
        predicate: names.predicates[record.predicate as int],
        object: cell_atom(names, record.object),
    }
}

/// The facts that define a slot in a snapshot, newest first.
pub open spec fn mapped_definitions(image: ImageModel, slot: Seq<char>) -> Seq<FactModel> {
    let token = token_of(image.names.slots, slot);
    if token < 0 {
        Seq::empty()
    } else {
        mapped_stack(image.names, image.records, image.heads[token])
    }
}

/// The active fact of a slot in a snapshot.
pub open spec fn mapped_active(image: ImageModel, slot: Seq<char>) -> Option<FactModel> {
    let token = token_of(image.names.slots, slot);
    if token < 0 || image.heads[token] >= image.records.len() {
        None
    } else {
        Some(record_fact(image.names, image.records[image.heads[token] as int]))
    }
}

pub proof fn slot_definitions_facts(live: Seq<DefinitionModel>, slot: Seq<char>)
    ensures
        slot_definitions(live, slot).len() <= live.len(),
        slot_facts(live, slot).len() == slot_definitions(live, slot).len(),
        forall|i: int|
            0 <= i < slot_facts(live, slot).len() ==> #[trigger] slot_facts(live, slot)[i]
                == slot_definitions(live, slot)[slot_definitions(live, slot).len() - 1 - i].fact,
        forall|i: int|
            0 <= i < slot_definitions(live, slot).len() ==> exists|j: int|
                0 <= j < live.len() && live[j] == #[trigger] slot_definitions(live, slot)[i]
                    && live[j].slot == slot,
        names_slot(live, slot) <==> slot_definitions(live, slot).len() > 0,
    decreases live.len(),
{
    if live.len() > 0 {
        let front = live.drop_last();
        slot_definitions_facts(front, slot);
        let before = slot_definitions(front, slot);
        let all = slot_definitions(live, slot);
        assert forall|i: int| 0 <= i < all.len() implies exists|j: int|
            0 <= j < live.len() && live[j] == #[trigger] all[i] && live[j].slot == slot by {
            if i < before.len() {
                assert(all[i] == before[i]);
                let j = choose|j: int|
                    0 <= j < front.len() && front[j] == before[i] && front[j].slot == slot;
                assert(live[j] == front[j]);
            } else {
                assert(live[live.len() - 1] == all[i]);
            }
        }
        assert forall|i: int| 0 <= i < slot_facts(live, slot).len() implies #[trigger] slot_facts(
            live,
            slot,
        )[i] == all[all.len() - 1 - i].fact by {
            if live.last().slot == slot {
                if i > 0 {
                    assert(slot_facts(live, slot)[i] == slot_facts(front, slot)[i - 1]);
                }
            }
        }
        if names_slot(live, slot) {
            let i = choose|i: int| 0 <= i < live.len() && (#[trigger] live[i]).slot == slot;
            if i < front.len() {
                assert(front[i] == live[i]);
                assert(names_slot(front, slot));
            }
        }
        if all.len() > 0 {
            let j = choose|j: int|
                0 <= j < live.len() && live[j] == #[trigger] all[0] && live[j].slot == slot;
            assert(names_slot(live, slot));
        }
    }
}

/// Records of later slots do not change those of earlier ones.
pub proof fn image_records_grow(
    names: VocabularyModel,
    live: Seq<DefinitionModel>,
    some: nat,
    count: nat,
)
    requires
        some <= count,
    ensures
        image_records(names, live, some).len() <= image_records(names, live, count).len(),
        image_records(names, live, count).take(image_records(names, live, some).len() as int)
            == image_records(names, live, some),
    decreases count,
{
    let less = image_records(names, live, some);
    let more = image_records(names, live, count);
    if some == count {
        assert(more.take(less.len() as int) =~= less);
    } else {
        image_records_grow(names, live, some, (count - 1) as nat);
        let front = image_records(names, live, (count - 1) as nat);
        assert(more.take(less.len() as int) =~= front.take(less.len() as int));
    }
}

/// The chain behind the record of a slot's definition `index`.
proof fn mapped_chain(
    names: VocabularyModel,
    live: Seq<DefinitionModel>,
    records: Seq<MappedRecord>,
    start: int,
    token: int,
    index: int,
)
    requires
        0 <= token < names.slots.len(),
        0 <= start,
        records.len() < NONE,
        ({
            let definitions = slot_definitions(live, names.slots[token]);
            let group = slot_records(names, definitions, token as u32, start);
            &&& 0 <= index < definitions.len()
            &&& start + definitions.len() <= records.len()
            &&& records.subrange(start, start + definitions.len()) == group
            &&& forall|i: int|
                0 <= i < definitions.len() ==> record_fact(names, #[trigger] group[i])
                    == definitions[i].fact
        }),
    ensures
        ({
            let definitions = slot_definitions(live, names.slots[token]);
            mapped_stack(names, records, (start + index) as u32) == Seq::new(
                (index + 1) as nat,
                |i: int| definitions[index - i].fact,
            )
        }),
    decreases index,
{
    let definitions = slot_definitions(live, names.slots[token]);
    let group = slot_records(names, definitions, token as u32, start);
    let head = (start + index) as u32;
    assert(records[start + index] == records.subrange(start, start + definitions.len())[index]);
    let expected = Seq::new((index + 1) as nat, |i: int| definitions[index - i].fact);
    if index == 0 {
        assert(mapped_stack(names, records, head) =~= expected);
    } else {
        mapped_chain(names, live, records, start, token, index - 1);
        let rest = Seq::new(index as nat, |i: int| definitions[index - 1 - i].fact);
        assert(seq![definitions[index].fact] + rest =~= expected);
    }
}

/// Every atom and predicate of the definitions has a cell that stands for it.
pub proof fn records_stand_for_facts(
    names: VocabularyModel,
    live: Seq<DefinitionModel>,
    definition: DefinitionModel,
    token: u32,
    previous: u32,
)
    requires
        names_exactly(names, live),
        tables_ok(names),
        !unmappable(live),
        exists|j: int| 0 <= j < live.len() && #[trigger] live[j] == definition,
    ensures
        record_fact(names, record_of(names, definition, token, previous)) == definition.fact,
        atom_known(names, definition.fact.subject),
        atom_known(names, definition.fact.object),
        token_of(names.predicates, definition.fact.predicate) >= 0,
        cell_ok(names, atom_cell_of(names, definition.fact.subject)),
        cell_ok(names, atom_cell_of(names, definition.fact.object)),
        record_of(names, definition, token, previous).predicate < names.predicates.len(),
{
    let j = choose|j: int| 0 <= j < live.len() && #[trigger] live[j] == definition;
    let fact = definition.fact;
    assert(live[j].fact == fact);
    assert(names_predicate(live, fact.predicate));
    assert(occurs(names.predicates, fact.predicate));
    occurring_has_token(names.predicates, fact.predicate);
    atom_is_known(names, live, fact.subject, j);
    atom_is_known(names, live, fact.object, j);
    cell_stands_for_atom(names, fact.subject);
    cell_stands_for_atom(names, fact.object);
    token_facts(names.predicates, fact.predicate);
}

proof fn atom_is_known(
    names: VocabularyModel,
    live: Seq<DefinitionModel>,
    atom: AtomModel,
    index: int,
)
    requires
        names_exactly(names, live),
        !unmappable(live),
        0 <= index < live.len(),
        live[index].fact.subject == atom || live[index].fact.object == atom,
    ensures
        atom_known(names, atom),
{
    match atom {
        AtomModel::Entity(entity) => {
            if entity >= VM_LITERAL_BASE {
                assert(atom_fault(live[index].fact.subject) is Some || atom_fault(
                    live[index].fact.object,
                ) is Some);
                assert(unmappable(live));
            }
        },
        AtomModel::Literal(literal) => {
            assert(names_literal(live, literal));
            assert(occurs(names.literals, literal));
            occurring_has_token(names.literals, literal);
        },
    }
}

/// A name that occurs has a token.
pub proof fn occurring_has_token(names: Seq<Seq<char>>, name: Seq<char>)
    ensures
        occurs(names, name) <==> token_of(names, name) >= 0,
{
    token_facts(names, name);
    if occurs(names, name) {
        let i = choose|i: int| 0 <= i < names.len() && #[trigger] names[i] == name;
        if token_of(names, name) < 0 {
            assert(names[i] != name);
        }
    }
    if token_of(names, name) >= 0 {
        assert(names[token_of(names, name)] == name);
    }
}

/// A snapshot holds the facts of every slot: what it resolves is what the world resolves.
pub proof fn image_holds_definitions(
    image: ImageModel,
    live: Seq<DefinitionModel>,
    slot: Seq<char>,
)
    requires
        images(image, live),
        tables_ok(image.names),
        !unmappable(live),
        image.records.len() < NONE,
    ensures
        mapped_definitions(image, slot) == slot_facts(live, slot),
        mapped_active(image, slot) == active_fact(live, slot),
{
    let names = image.names;
    let token = token_of(names.slots, slot);
    token_facts(names.slots, slot);
    occurring_has_token(names.slots, slot);
    slot_definitions_facts(live, slot);
    active_fact_is_newest(live, slot);
    if token >= 0 {
        assert(occurs(names.slots, slot));
        let definitions = slot_definitions(live, slot);
        let front = image_records(names, live, token as nat);
        let upto = image_records(names, live, (token + 1) as nat);
        let group = slot_records(names, definitions, token as u32, front.len() as int);
        assert(upto == front + group);
        image_records_grow(names, live, (token + 1) as nat, names.slots.len());
        let start = front.len() as int;
        let records = image.records;
        assert(records.subrange(start, start + definitions.len()) =~= group) by {
            assert(records.take(upto.len() as int) == upto);
            assert forall|i: int| 0 <= i < group.len() implies records[start + i] == group[i] by {
                assert(records.take(upto.len() as int)[start + i] == upto[start + i]);
            }
        }
        assert forall|i: int| 0 <= i < definitions.len() implies record_fact(
            names,
            #[trigger] group[i],
        ) == definitions[i].fact by {
            let j = choose|j: int|
                0 <= j < live.len() && live[j] == #[trigger] definitions[i] && live[j].slot
                    == slot;
            assert(live[j] == definitions[i]);
            records_stand_for_facts(
                names,
                live,
                definitions[i],
                token as u32,
                if i == 0 {
                    NONE
                } else {
                    (start + i - 1) as u32
                },
            );
        }
        let last = definitions.len() - 1;
        mapped_chain(names, live, records, start, token, last);
        let stack = mapped_stack(names, records, image.heads[token]);
        assert(image.heads[token] == (start + last) as u32);
        assert(stack =~= slot_facts(live, slot));
        assert(records[start + last] == records.subrange(start, start + definitions.len())[last]);
    } else {
        assert(mapped_definitions(image, slot) =~= slot_facts(live, slot));
    }
}

} // verus!
