//! Going on from a snapshot: its world and its machine.

use crate::compile::Vocabulary;
use crate::fact::{Fact, Literal, Predicate, SlotId, views};
use crate::frame::FrameModel;
use crate::history_codec::{frames_fit, history_bytes, history_reads, taken_history};
use crate::image::{
    ImageModel, MappedRecord, image_holds_definitions, image_records, image_records_grow, images,
    mapped_definitions, mapped_stack, names_slot, occurring_has_token, record_fact, record_of,
    records_stand_for_facts, slot_definitions, slot_definitions_facts, slot_records, unmappable,
};
use crate::image_build::{SnapshotImage, records_are_definitions};
use crate::kernel::{Definition, DefinitionModel, Kernel, KernelModel, numbered, slot_facts};
use crate::materializer::VmEpochMaterializer;
use crate::ordered::{ascending_is_distinct, occurs, texts};
use crate::snapshot_format::{SnapshotModel, faultless_records, record_ok};
use crate::snapshot_laws::snapshot_of;
use crate::snapshot_open::{MmapVmSnapshot, image_ok};
use crate::vm::{FactRecord, NONE, RecordKind, Triple, VmModel, Workspace, stacks_of, visible};
use crate::vocabulary::{
    VocabularyModel, mirrors, tables_ok, token_facts, token_is, token_of, triple_fact, triple_facts,
    triple_ok,
};
use crate::world::{World, WorldModel};
use std::sync::Arc;
use vstd::prelude::*;
use vstd::string::*;

verus! {

/// The number of the definition behind a record.
pub open spec fn number_of(record: MappedRecord) -> nat {
    record.original_id as usize as nat
}

/// The definition behind a record.
pub open spec fn definition_of(names: VocabularyModel, record: MappedRecord) -> DefinitionModel {
    DefinitionModel {
        record: number_of(record),
        slot: names.slots[record.slot as int],
        fact: record_fact(names, record),
    }
}

/// No two definitions have one number, and all numbers are below the count of records.
pub open spec fn numbers_definitions(image: ImageModel, record_count: nat) -> bool {
    &&& forall|i: int, j: int|
        0 <= i < j < image.records.len() ==> number_of(#[trigger] image.records[i]) != number_of(#[trigger] image.records[j])
    &&& forall|i: int|
        0 <= i < image.records.len() ==> number_of(#[trigger] image.records[i])
            < record_count
}

/// Definitions are in the order of their numbers.
pub open spec fn in_order(live: Seq<DefinitionModel>) -> bool {
    forall|i: int, j: int|
        0 <= i < j < live.len() ==> (#[trigger] live[i]).record < (#[trigger] live[j]).record
}

pub open spec fn holds_definition(
    image: ImageModel,
    count: int,
    definition: DefinitionModel,
) -> bool {
    exists|i: int|
        0 <= i < count && definition == definition_of(image.names, #[trigger] image.records[i])
}

/// The definitions are those of the first records, in the order of their numbers.
pub open spec fn restores(image: ImageModel, count: int, live: Seq<DefinitionModel>) -> bool {
    &&& in_order(live)
    &&& forall|definition: DefinitionModel| #[trigger]
        live.contains(definition) <==> holds_definition(image, count, definition)
}

/// Two lists in order of the same definitions are one list.
proof fn order_is_unique(left: Seq<DefinitionModel>, right: Seq<DefinitionModel>)
    requires
        in_order(left),
        in_order(right),
        forall|definition: DefinitionModel| #[trigger]
            left.contains(definition) <==> right.contains(definition),
    ensures
        left == right,
    decreases left.len(),
{
    if left.len() == 0 {
        if right.len() > 0 {
            assert(right.contains(right[0]));
            assert(left.contains(right[0]));
        }
        assert(left =~= right);
    } else {
        assert(left.contains(left.last()));
        assert(right.contains(left.last()));
        let i = choose|i: int| 0 <= i < right.len() && right[i] == left.last();
        assert(right.contains(right.last()));
        assert(left.contains(right.last()));
        let j = choose|j: int| 0 <= j < left.len() && left[j] == right.last();
        if i < right.len() - 1 {
            assert(right[i].record < right[right.len() - 1].record);
            if j < left.len() - 1 {
                assert(left[j].record < left[left.len() - 1].record);
            }
        }
        assert(left.last() == right.last());
        let front = left.drop_last();
        let back = right.drop_last();
        assert forall|definition: DefinitionModel| #[trigger]
            front.contains(definition) <==> back.contains(definition) by {
            assert(left.contains(definition) <==> right.contains(definition));
            if front.contains(definition) {
                let k = choose|k: int| 0 <= k < front.len() && front[k] == definition;
                assert(left[k] == definition);
                assert(left[k].record < left[left.len() - 1].record);
                let m = choose|m: int| 0 <= m < right.len() && right[m] == definition;
                assert(m < right.len() - 1);
                assert(back[m] == definition);
            }
            if back.contains(definition) {
                let k = choose|k: int| 0 <= k < back.len() && back[k] == definition;
                assert(right[k] == definition);
                assert(right[k].record < right[right.len() - 1].record);
                let m = choose|m: int| 0 <= m < left.len() && left[m] == definition;
                assert(m < left.len() - 1);
                assert(front[m] == definition);
            }
        }
        assert forall|a: int, b: int| 0 <= a < b < front.len() implies (
        #[trigger] front[a]).record < (#[trigger] front[b]).record by {
            assert(left[a].record < left[b].record);
        }
        assert forall|a: int, b: int| 0 <= a < b < back.len() implies (
        #[trigger] back[a]).record < (#[trigger] back[b]).record by {
            assert(right[a].record < right[b].record);
        }
        order_is_unique(front, back);
        assert(left =~= front.push(left.last()));
        assert(right =~= back.push(right.last()));
    }
}

/// Where the record of a definition stands: behind the records of earlier slots.
proof fn record_of_definition(
    image: ImageModel,
    live: Seq<DefinitionModel>,
    index: int,
)
    requires
        images(image, live),
        tables_ok(image.names),
        !unmappable(live),
        0 <= index < live.len(),
        live[index].record <= usize::MAX,
    ensures
        holds_definition(image, image.records.len() as int, live[index]),
{
    let names = image.names;
    let definition = live[index];
    let slot = definition.slot;
    assert(names_slot(live, slot));
    assert(occurs(names.slots, slot));
    occurring_has_token(names.slots, slot);
    token_facts(names.slots, slot);
    let token = token_of(names.slots, slot);
    let definitions = slot_definitions(live, slot);
    slot_definitions_contain(live, slot, index);
    let place = choose|place: int|
        0 <= place < definitions.len() && #[trigger] definitions[place] == definition;
    let front = image_records(names, live, token as nat);
    let upto = image_records(names, live, (token + 1) as nat);
    let group = slot_records(names, definitions, token as u32, front.len() as int);
    image_records_grow(names, live, (token + 1) as nat, names.slots.len());
    let at = front.len() + place;
    assert(image.records.take(upto.len() as int)[at] == image.records[at]);
    assert(upto[at] == group[place]);
    let previous = if place == 0 {
        NONE
    } else {
        (front.len() + place - 1) as u32
    };
    assert(live[index] == definition);
    records_stand_for_facts(names, live, definition, token as u32, previous);
    assert(definition_of(names, image.records[at]) == definition);
}

proof fn slot_definitions_contain(live: Seq<DefinitionModel>, slot: Seq<char>, index: int)
    requires
        0 <= index < live.len(),
        live[index].slot == slot,
    ensures
        exists|place: int|
            0 <= place < slot_definitions(live, slot).len() && #[trigger] slot_definitions(
                live,
                slot,
            )[place] == live[index],
    decreases live.len(),
{
    let all = slot_definitions(live, slot);
    if index == live.len() - 1 {
        assert(all[all.len() - 1] == live[index]);
    } else {
        slot_definitions_contain(live.drop_last(), slot, index);
        let before = slot_definitions(live.drop_last(), slot);
        let place = choose|place: int|
            0 <= place < before.len() && #[trigger] before[place] == live.drop_last()[index];
        assert(all[place] == live[index]);
    }
}

/// Every record of an image is that of a live definition.
proof fn definition_of_record(
    image: ImageModel,
    live: Seq<DefinitionModel>,
    count: nat,
    index: int,
) -> (result: int)
    requires
        images(image, live),
        tables_ok(image.names),
        !unmappable(live),
        count <= image.names.slots.len(),
        0 <= index < image_records(image.names, live, count).len(),
        forall|i: int| 0 <= i < live.len() ==> (#[trigger] live[i]).record <= usize::MAX,
    ensures
        0 <= result < live.len(),
        definition_of(image.names, image.records[index]) == live[result],
        image.records[index].original_id == live[result].record,
    decreases count,
{
    let names = image.names;
    let front = image_records(names, live, (count - 1) as nat);
    let upto = image_records(names, live, count);
    image_records_grow(names, live, count, names.slots.len());
    assert(image.records.take(upto.len() as int)[index] == image.records[index]);
    if index < front.len() {
        definition_of_record(image, live, (count - 1) as nat, index)
    } else {
        let slot = names.slots[count - 1];
        let definitions = slot_definitions(live, slot);
        let place = index - front.len();
        slot_definitions_facts(live, slot);
        let previous = if place == 0 {
            NONE
        } else {
            (front.len() + place - 1) as u32
        };
        assert(upto[index] == record_of(names, definitions[place], (count - 1) as u32, previous));
        let j = choose|j: int|
            0 <= j < live.len() && live[j] == #[trigger] definitions[place] && live[j].slot
                == slot;
        assert(live[j] == definitions[place]);
        records_stand_for_facts(names, live, definitions[place], (count - 1) as u32, previous);
        assert(live[j].record <= usize::MAX);
        j
    }
}

/// The definitions of a snapshot of a kernel are the definitions of the kernel, and no others.
pub proof fn snapshot_restores_kernel(
    image: ImageModel,
    kernel: KernelModel,
    live: Seq<DefinitionModel>,
)
    requires
        images(image, kernel.live),
        tables_ok(image.names),
        !unmappable(kernel.live),
        numbered(kernel),
        kernel.records <= usize::MAX,
        restores(image, image.records.len() as int, live),
    ensures
        live == kernel.live,
{
    assert forall|definition: DefinitionModel| #[trigger]
        live.contains(definition) <==> kernel.live.contains(definition) by {
        if live.contains(definition) {
            assert(holds_definition(image, image.records.len() as int, definition));
            let i = choose|i: int|
                0 <= i < image.records.len() && definition == definition_of(
                    image.names,
                    #[trigger] image.records[i],
                );
            let j = definition_of_record(image, kernel.live, image.names.slots.len(), i);
            assert(kernel.live[j] == definition);
        }
        if kernel.live.contains(definition) {
            let i = choose|i: int| 0 <= i < kernel.live.len() && kernel.live[i] == definition;
            assert(kernel.live[i].record < kernel.records);
            record_of_definition(image, kernel.live, i);
        }
    }
    order_is_unique(live, kernel.live);
}

/// A snapshot of a kernel numbers its definitions as the kernel does.
pub proof fn snapshot_numbers_definitions(image: ImageModel, kernel: KernelModel)
    requires
        images(image, kernel.live),
        tables_ok(image.names),
        !unmappable(kernel.live),
        numbered(kernel),
        kernel.records <= usize::MAX,
    ensures
        numbers_definitions(image, kernel.records),
{
    let live = kernel.live;
    let names = image.names;
    assert forall|i: int| 0 <= i < image.records.len() implies number_of(#[trigger] image.records[i]) < kernel.records by {
        let j = definition_of_record(image, live, names.slots.len(), i);
        assert(live[j].record < kernel.records);
    }
    assert forall|i: int, j: int| 0 <= i < j < image.records.len() implies number_of(#[trigger] image.records[i]) != number_of(#[trigger] image.records[j]) by {
        let a = definition_of_record(image, live, names.slots.len(), i);
        let b = definition_of_record(image, live, names.slots.len(), j);
        assert(live[a].record < kernel.records);
        assert(live[b].record < kernel.records);
        if image.records[i].original_id == image.records[j].original_id {
            if a < b {
                assert(live[a].record < live[b].record);
            } else if b < a {
                assert(live[b].record < live[a].record);
            }
            assert(a == b);
            records_differ(image, live, names.slots.len(), i, j);
            earlier_slots(names, live, names.slots.len(), i);
            earlier_slots(names, live, names.slots.len(), j);
            let one = image.records[i].slot as int;
            let other = image.records[j].slot as int;
            assert(names.slots[one] == names.slots[other]);
            if one < other {
                assert(names.slots[one] != names.slots[other]);
            } else if other < one {
                assert(names.slots[other] != names.slots[one]);
            }
        }
    }
}

/// Two records are not those of one definition.
proof fn records_differ(
    image: ImageModel,
    live: Seq<DefinitionModel>,
    count: nat,
    i: int,
    j: int,
)
    requires
        images(image, live),
        tables_ok(image.names),
        forall|a: int, b: int|
            0 <= a < b < live.len() ==> (#[trigger] live[a]).record < (#[trigger] live[b]).record,
        forall|a: int| 0 <= a < live.len() ==> (#[trigger] live[a]).record < usize::MAX,
        count <= image.names.slots.len(),
        0 <= i < j < image_records(image.names, live, count).len(),
    ensures
        image.records[i].original_id != image.records[j].original_id || image.records[i].slot
            != image.records[j].slot,
    decreases count,
{
    let names = image.names;
    let front = image_records(names, live, (count - 1) as nat);
    let upto = image_records(names, live, count);
    image_records_grow(names, live, count, names.slots.len());
    assert(image.records.take(upto.len() as int)[i] == image.records[i]);
    assert(image.records.take(upto.len() as int)[j] == image.records[j]);
    if j < front.len() {
        records_differ(image, live, (count - 1) as nat, i, j);
    } else if i < front.len() {
        earlier_slots(names, live, (count - 1) as nat, i);
        assert(upto[i] == front[i]);
        assert(upto[j].slot == (count - 1) as u32);
    } else {
        let slot = names.slots[count - 1];
        slot_definitions_order(live, slot, i - front.len(), j - front.len());
        let definitions = slot_definitions(live, slot);
        slot_definitions_facts(live, slot);
        let a = choose|a: int|
            0 <= a < live.len() && live[a] == #[trigger] definitions[i - front.len()]
                && live[a].slot == slot;
        let b = choose|b: int|
            0 <= b < live.len() && live[b] == #[trigger] definitions[j - front.len()]
                && live[b].slot == slot;
        assert(live[a].record < usize::MAX && live[b].record < usize::MAX);
        assert(upto[i].original_id == definitions[i - front.len()].record as u64);
        assert(upto[j].original_id == definitions[j - front.len()].record as u64);
    }
}

proof fn earlier_slots(
    names: VocabularyModel,
    live: Seq<DefinitionModel>,
    count: nat,
    index: int,
)
    requires
        0 <= index < image_records(names, live, count).len(),
        count <= names.slots.len() < NONE,
    ensures
        image_records(names, live, count)[index].slot < count,
    decreases count,
{
    let front = image_records(names, live, (count - 1) as nat);
    if index < front.len() {
        earlier_slots(names, live, (count - 1) as nat, index);
    }
}

proof fn slot_definitions_order(live: Seq<DefinitionModel>, slot: Seq<char>, i: int, j: int)
    requires
        forall|a: int, b: int|
            0 <= a < b < live.len() ==> (#[trigger] live[a]).record < (#[trigger] live[b]).record,
        0 <= i < j < slot_definitions(live, slot).len(),
    ensures
        slot_definitions(live, slot)[i].record < slot_definitions(live, slot)[j].record,
    decreases live.len(),
{
    let front = live.drop_last();
    let before = slot_definitions(front, slot);
    assert forall|a: int, b: int| 0 <= a < b < front.len() implies (#[trigger] front[a]).record < (
    #[trigger] front[b]).record by {
        assert(live[a].record < live[b].record);
    }
    if j < before.len() {
        slot_definitions_order(front, slot, i, j);
    } else {
        slot_definitions_facts(front, slot);
        let a = choose|a: int|
            0 <= a < front.len() && front[a] == #[trigger] before[i] && front[a].slot == slot;
        assert(live[a].record < live[live.len() - 1].record);
    }
}

/// Restores the definitions of an image, unless two of them have one number or a number is too
/// high.
fn restore_definitions(image: &SnapshotImage, record_count: usize) -> (result: Option<
    Vec<Arc<Definition>>,
>)
    requires
        image_ok(image@),
    ensures
        match result {
            Some(live) => numbers_definitions(image@, record_count as nat) && restores(
                image@,
                image@.records.len() as int,
                views(live@),
            ),
            None => !numbers_definitions(image@, record_count as nat),
        },
{
    let mut live: Vec<Arc<Definition>> = Vec::new();
    let mut index: usize = 0;
    proof {
        faultless_records(image@, image@.records.len());
    }
    while index < image.records.len()
        invariant
            index <= image.records.len(),
            image_ok(image@),
            forall|i: int|
                0 <= i < image@.records.len() ==> #[trigger] record_ok(image@, i),
            restores(image@, index as int, views(live@)),
            forall|i: int, j: int|
                0 <= i < j < index ==> number_of(#[trigger] image@.records[i]) != number_of(#[trigger] image@.records[j]),
            forall|i: int|
                0 <= i < index ==> number_of(#[trigger] image@.records[i])
                    < record_count,
        decreases image.records.len() - index,
    {
        let record = image.records[index];
        let number: usize = record.original_id as usize;
        proof {
            assert(record_ok(image@, index as int));
            assert(image@.records[index as int] == record);
        }
        if number >= record_count {
            return None;
        }
        let ghost before = views(live@);
        let mut place: usize = live.len();
        while place > 0 && live[place - 1].record() > number
            invariant
                place <= live.len(),
                before == views(live@),
                forall|i: int| place <= i < before.len() ==> (#[trigger] before[i]).record > number,
            decreases place,
        {
            place -= 1;
        }
        if place > 0 && live[place - 1].record() == number {
            proof {
                assert(before.contains(before[place - 1]));
                assert(holds_definition(image@, index as int, before[place - 1]));
                let i = choose|i: int|
                    0 <= i < index && before[place - 1] == definition_of(
                        image@.names,
                        #[trigger] image@.records[i],
                    );
                assert(number_of(image@.records[i])
                    == number_of(image@.records[index as int]));
            }
            return None;
        }
        let definition = Definition::assemble(
            number,
            SlotId::new(image.slots[record.slot as usize].as_str()),
            image.fact(index as u32),
        );
        let ghost added = definition_of(image@.names, record);
        proof {
            assert(definition@ == added);
        }
        live.insert(place, Arc::new(definition));
        proof {
            let after = views(live@);
            assert(after =~= before.insert(place as int, added));
            assert(in_order(after)) by {
                assert forall|i: int, j: int| 0 <= i < j < after.len() implies (
                #[trigger] after[i]).record < (#[trigger] after[j]).record by {
                    let a = if i < place {
                        i
                    } else {
                        i - 1
                    };
                    let b = if j < place {
                        j
                    } else {
                        j - 1
                    };
                    if i == place {
                        assert(after[j] == before[b]);
                    } else if j == place {
                        assert(after[i] == before[i]);
                        if i < place - 1 {
                            assert(before[i].record < before[place - 1].record);
                        }
                    } else {
                        assert(after[i] == before[a]);
                        assert(after[j] == before[b]);
                    }
                }
            }
            assert forall|other: DefinitionModel| #[trigger]
                after.contains(other) <==> holds_definition(image@, index + 1, other) by {
                assert(before.contains(other) <==> holds_definition(image@, index as int, other));
                if after.contains(other) {
                    let k = choose|k: int| 0 <= k < after.len() && after[k] == other;
                    if k < place {
                        assert(before[k] == other);
                    } else if k > place {
                        assert(before[k - 1] == other);
                    } else {
                        assert(other == definition_of(
                            image@.names,
                            image@.records[index as int],
                        ));
                    }
                    if before.contains(other) {
                        let i = choose|i: int|
                            0 <= i < index && other == definition_of(
                                image@.names,
                                #[trigger] image@.records[i],
                            );
                        assert(holds_definition(image@, index + 1, other));
                    }
                }
                if holds_definition(image@, index + 1, other) {
                    let i = choose|i: int|
                        0 <= i < index + 1 && other == definition_of(
                            image@.names,
                            #[trigger] image@.records[i],
                        );
                    if i < index {
                        assert(holds_definition(image@, index as int, other));
                        let k = choose|k: int| 0 <= k < before.len() && before[k] == other;
                        if k < place {
                            assert(after[k] == other);
                        } else {
                            assert(after[k + 1] == other);
                        }
                    } else {
                        assert(after[place as int] == other);
                    }
                }
            }
            assert forall|i: int, j: int| 0 <= i < j < index + 1 implies number_of(#[trigger] image@.records[i]) != number_of(#[trigger] image@.records[j]) by {
                if j == index {
                    let older = definition_of(image@.names, image@.records[i]);
                    assert(holds_definition(image@, index as int, older));
                    assert(before.contains(older));
                    let k = choose|k: int| 0 <= k < before.len() && before[k] == older;
                    if k < place {
                        if k < place - 1 {
                            assert(before[k].record < before[place - 1].record);
                        }
                    }
                    assert(older.record != number);
                }
            }
        }
        index += 1;
    }
    Some(live)
}

/// The world of a snapshot, with the definitions and the history given.
pub open spec fn snapshot_world(
    snapshot: SnapshotModel,
    live: Seq<DefinitionModel>,
    history: Seq<FrameModel>,
) -> WorldModel {
    WorldModel {
        id: snapshot.world_id,
        version: snapshot.world_version,
        operation_count: snapshot.operation_count,
        kernel: KernelModel {
            live,
            records: snapshot.record_count,
            next_entity: snapshot.next_entity as nat,
        },
        history,
    }
}

/// The linked records of every slot are the definitions of that slot.
pub open spec fn links_definitions(image: ImageModel, live: Seq<DefinitionModel>) -> bool {
    forall|slot: Seq<char>| #[trigger]
        mapped_definitions(image, slot) == slot_facts(live, slot)
}

/// A world can go on from a snapshot: its history can be read, its definitions are numbered and
/// counted as those of a world, and its records are linked in the order of the definitions.
pub open spec fn restorable(snapshot: SnapshotModel) -> bool {
    &&& taken_history(snapshot.history) is Ok
    &&& numbers_definitions(snapshot.image, snapshot.record_count)
    &&& snapshot.record_count >= snapshot.image.records.len()
    &&& forall|live: Seq<DefinitionModel>| #[trigger]
        restores(snapshot.image, snapshot.image.records.len() as int, live) ==> links_definitions(
            snapshot.image,
            live,
        )
}

/// The definitions of a snapshot are determined.
pub proof fn restored_is_unique(
    image: ImageModel,
    count: int,
    left: Seq<DefinitionModel>,
    right: Seq<DefinitionModel>,
)
    requires
        restores(image, count, left),
        restores(image, count, right),
    ensures
        left == right,
{
    assert forall|definition: DefinitionModel| #[trigger]
        left.contains(definition) <==> right.contains(definition) by {
        assert(holds_definition(image, count, definition) <==> right.contains(definition));
    }
    order_is_unique(left, right);
}

/// The snapshot of a world is one that a world can go on from.
pub proof fn snapshots_are_restorable(
    world: WorldModel,
    epoch_count: u64,
    journal: Seq<u8>,
    image: ImageModel,
)
    requires
        images(image, world.kernel.live),
        tables_ok(image.names),
        !unmappable(world.kernel.live),
        image.records.len() < NONE,
        numbered(world.kernel),
        world.kernel.live.len() <= world.kernel.records <= usize::MAX,
        frames_fit(world.history),
        world.history.len() <= u64::MAX,
        history_bytes(world.history).len() <= usize::MAX,
    ensures
        restorable(snapshot_of(world, epoch_count, journal, image)),
{
    let snapshot = snapshot_of(world, epoch_count, journal, image);
    history_reads(snapshot.history, world.history);
    snapshot_numbers_definitions(image, world.kernel);
    ascending_is_distinct(image.names.slots);
    records_are_definitions(image.names, world.kernel.live, image.names.slots.len());
    assert forall|live: Seq<DefinitionModel>| #[trigger]
        restores(image, image.records.len() as int, live) implies links_definitions(
        image,
        live,
    ) by {
        snapshot_restores_kernel(image, world.kernel, live);
        assert forall|slot: Seq<char>| #[trigger]
            mapped_definitions(image, slot) == slot_facts(live, slot) by {
            image_holds_definitions(image, live, slot);
        }
    }
}

/// A slot that no definition has.
proof fn undefined_slot(image: ImageModel, live: Seq<DefinitionModel>, slot: Seq<char>)
    requires
        image_ok(image),
        restores(image, image.records.len() as int, live),
        token_of(image.names.slots, slot) < 0,
    ensures
        slot_facts(live, slot).len() == 0,
{
    slot_definitions_facts(live, slot);
    if slot_definitions(live, slot).len() > 0 {
        let definition = slot_definitions(live, slot)[0];
        let j = choose|j: int|
            0 <= j < live.len() && live[j] == definition && live[j].slot == slot;
        assert(live.contains(definition));
        assert(holds_definition(image, image.records.len() as int, definition));
        let i = choose|i: int|
            0 <= i < image.records.len() && definition == definition_of(
                image.names,
                #[trigger] image.records[i],
            );
        faultless_records(image, image.records.len());
        assert(record_ok(image, i));
        token_facts(image.names.slots, slot);
        assert(image.names.slots[image.records[i].slot as int] == slot);
    }
}

fn same_facts(left: &Vec<&Fact>, right: &Vec<Fact>) -> (result: bool)
    ensures
        result == (views(left@) == views(right@)),
{
    proof {
        assert(left.len() == views(left@).len());
        assert(right.len() == views(right@).len());
    }
    if left.len() != right.len() {
        return false;
    }
    let mut index: usize = 0;
    while index < left.len()
        invariant
            index <= left.len(),
            left.len() == right.len(),
            forall|i: int| 0 <= i < index ==> (#[trigger] left@[i])@ == right@[i]@,
        decreases left.len() - index,
    {
        if !left[index].same(&right[index]) {
            proof {
                assert(views(left@)[index as int] != views(right@)[index as int]);
            }
            return false;
        }
        index += 1;
    }
    proof {
        assert(views(left@) =~= views(right@));
    }
    true
}

impl MmapVmSnapshot {
    /// Whether the records of every slot are linked in the order of the definitions.
    fn links(&self, kernel: &Kernel) -> (result: bool)
        requires
            self.wf(),
            restores(
                self@.image,
                self@.image.records.len() as int,
                kernel@.live,
            ),
        ensures
            result == links_definitions(self@.image, kernel@.live),
    {
        let image = self.image();
        let ghost names = self@.image.names.slots;
        let mut index: usize = 0;
        while index < image.slots.len()
            invariant
                index <= image.slots.len(),
                self.wf(),
                image@ == self@.image,
                names == texts(image.slots@),
                forall|t: int|
                    0 <= t < index ==> mapped_definitions(self@.image, #[trigger] names[t])
                        == slot_facts(kernel@.live, names[t]),
            decreases image.slots.len() - index,
        {
            let slot = SlotId::new(image.slots[index].as_str());
            proof {
                assert(names[index as int] == slot@);
            }
            if !same_facts(&kernel.definitions(&slot), &self.definitions(&slot)) {
                return false;
            }
            index += 1;
        }
        proof {
            assert forall|slot: Seq<char>| #[trigger]
                mapped_definitions(self@.image, slot) == slot_facts(kernel@.live, slot) by {
                token_facts(names, slot);
                if token_of(names, slot) >= 0 {
                    assert(names[token_of(names, slot)] == slot);
                } else {
                    undefined_slot(self@.image, kernel@.live, slot);
                    assert(mapped_definitions(self@.image, slot) =~= slot_facts(
                        kernel@.live,
                        slot,
                    ));
                }
            }
        }
        true
    }

    /// Whether a world can go on from the snapshot.
    pub fn can_restore(&self) -> (result: bool)
        requires
            self.wf(),
        ensures
            result == restorable(self@),
    {
        if self.record_count() < self.image().records.len() {
            return false;
        }
        if !self.has_history() {
            return false;
        }
        let live = match restore_definitions(self.image(), self.record_count()) {
            Some(live) => live,
            None => return false,
        };
        let kernel = Kernel::assemble(live, self.record_count(), self.next_entity());
        let linked_up = self.links(&kernel);
        proof {
            let count = self@.image.records.len() as int;
            assert forall|other: Seq<DefinitionModel>| #[trigger]
                restores(self@.image, count, other) implies other == kernel@.live by {
                restored_is_unique(self@.image, count, other, kernel@.live);
            }
        }
        linked_up
    }
}

impl World {
    /// The world of a snapshot, unless the snapshot does not number its definitions as a world
    /// does.
    pub fn from_mmap(snapshot: &MmapVmSnapshot) -> (result: Option<Self>)
        requires
            snapshot.wf(),
            taken_history(snapshot@.history) is Ok,
        ensures
            match result {
                Some(world) => {
                    &&& numbers_definitions(snapshot@.image, snapshot@.record_count)
                    &&& restores(
                        snapshot@.image,
                        snapshot@.image.records.len() as int,
                        world@.kernel.live,
                    )
                    &&& world@ == snapshot_world(
                        snapshot@,
                        world@.kernel.live,
                        taken_history(snapshot@.history)->Ok_0,
                    )
                    &&& numbered(world@.kernel)
                },
                None => !numbers_definitions(snapshot@.image, snapshot@.record_count),
            },
    {
        let live = restore_definitions(snapshot.image(), snapshot.record_count())?;
        let ghost models = views(live@);
        let kernel = Kernel::assemble(live, snapshot.record_count(), snapshot.next_entity());
        proof {
            assert forall|i: int| 0 <= i < models.len() implies (#[trigger] models[i]).record
                < snapshot@.record_count by {
                assert(models.contains(models[i]));
                assert(holds_definition(
                    snapshot@.image,
                    snapshot@.image.records.len() as int,
                    models[i],
                ));
                let k = choose|k: int|
                    0 <= k < snapshot@.image.records.len() && models[i] == definition_of(
                        snapshot@.image.names,
                        #[trigger] snapshot@.image.records[k],
                    );
            }
        }
        Some(
            World::assemble(
                snapshot.world_id(),
                snapshot.world_version(),
                snapshot.operation_count(),
                kernel,
                snapshot.frames(),
            ),
        )
    }
}

/// The snapshot of a world gives back that world.
pub proof fn snapshot_restores_world(
    world: WorldModel,
    epoch_count: u64,
    journal: Seq<u8>,
    image: ImageModel,
    live: Seq<DefinitionModel>,
)
    requires
        images(image, world.kernel.live),
        tables_ok(image.names),
        !unmappable(world.kernel.live),
        numbered(world.kernel),
        world.kernel.records <= usize::MAX,
        world.kernel.next_entity <= u64::MAX,
        restores(image, image.records.len() as int, live),
    ensures
        numbers_definitions(image, world.kernel.records),
        snapshot_world(snapshot_of(world, epoch_count, journal, image), live, world.history)
            == world,
{
    snapshot_restores_kernel(image, world.kernel, live);
    snapshot_numbers_definitions(image, world.kernel);
}

/// The machine's record of a record.
pub open spec fn machine_record(record: MappedRecord, index: int) -> FactRecord {
    FactRecord {
        kind: RecordKind::Define,
        slot: record.slot,
        triple: Triple {
            subject: record.subject,
            predicate: record.predicate as u64,
            object: record.object,
        },
        previous_visible: record.previous,
        resulting_visible: index as u32,
    }
}

pub open spec fn machine_records(records: Seq<MappedRecord>) -> Seq<FactRecord> {
    Seq::new(records.len(), |i: int| machine_record(records[i], i))
}

/// What is visible in the machine is what the snapshot holds.
proof fn visible_is_mapped(image: ImageModel, head: u32)
    requires
        image_ok(image),
        head == NONE || head < image.records.len(),
    ensures
        triple_facts(image.names, visible(machine_records(image.records), head)) == mapped_stack(
            image.names,
            image.records,
            head,
        ),
        forall|i: int|
            0 <= i < visible(machine_records(image.records), head).len() ==> triple_ok(
                image.names,
                #[trigger] visible(machine_records(image.records), head)[i],
            ),
    decreases head,
{
    let names = image.names;
    let records = machine_records(image.records);
    let stack = visible(records, head);
    if head < image.records.len() {
        faultless_records(image, image.records.len());
        assert(record_ok(image, head as int));
        let record = image.records[head as int];
        let first = records[head as int].triple;
        assert(triple_ok(names, first));
        if record.previous < head {
            visible_is_mapped(image, record.previous);
            let rest = visible(records, record.previous);
            assert(stack == seq![first] + rest);
            assert forall|i: int| 0 <= i < stack.len() implies triple_ok(
                names,
                #[trigger] stack[i],
            ) by {
                if i > 0 {
                    assert(stack[i] == rest[i - 1]);
                }
            }
            assert(triple_facts(names, stack) =~= seq![triple_fact(names, first)] + triple_facts(
                names,
                rest,
            ));
        } else {
            assert(triple_facts(names, stack) =~= seq![triple_fact(names, first)]);
        }
    } else {
        assert(triple_facts(names, stack) =~= Seq::empty());
    }
}

/// A kernel that a snapshot stands for.
pub open spec fn stands_for_kernel(snapshot: SnapshotModel, kernel: KernelModel) -> bool {
    &&& kernel.next_entity == snapshot.next_entity
    &&& kernel.records == snapshot.record_count
    &&& forall|slot: Seq<char>| #[trigger]
        mapped_definitions(snapshot.image, slot) == slot_facts(kernel.live, slot)
}

proof fn snapshot_machine_mirrors(snapshot: SnapshotModel, vm: VmModel, kernel: KernelModel)
    requires
        image_ok(snapshot.image),
        stands_for_kernel(snapshot, kernel),
        vm == (VmModel {
            stacks: stacks_of(machine_records(snapshot.image.records), snapshot.image.heads),
            next_entity: snapshot.next_entity as nat,
            deltas: snapshot.record_count,
        }),
    ensures
        mirrors(snapshot.image.names, vm, kernel),
{
    reveal(mirrors);
    let image = snapshot.image;
    let names = image.names;
    let records = machine_records(image.records);
    assert forall|t: int, i: int|
        0 <= t < vm.stacks.len() && 0 <= i < vm.stacks[t].len() implies triple_ok(
        names,
        #[trigger] vm.stacks[t][i],
    ) by {
        assert(image.heads[t] == NONE || image.heads[t] < image.records.len());
        visible_is_mapped(image, image.heads[t]);
    }
    assert forall|t: int| 0 <= t < names.slots.len() implies triple_facts(
        names,
        #[trigger] vm.stacks[t],
    ) == slot_facts(kernel.live, names.slots[t]) by {
        assert(image.heads[t] == NONE || image.heads[t] < image.records.len());
        visible_is_mapped(image, image.heads[t]);
        token_is(names.slots, t);
        assert(mapped_definitions(image, names.slots[t]) == slot_facts(
            kernel.live,
            names.slots[t],
        ));
    }
    assert forall|name: Seq<char>| token_of(names.slots, name) < 0 implies (
    #[trigger] slot_facts(kernel.live, name)).len() == 0 by {
        assert(mapped_definitions(image, name) == slot_facts(kernel.live, name));
    }
}

/// Copies names.
fn slot_names(names: &Vec<String>) -> (result: Vec<SlotId>)
    ensures
        views(result@) == texts(names@),
{
    let mut output: Vec<SlotId> = Vec::new();
    let mut index: usize = 0;
    while index < names.len()
        invariant
            index <= names.len(),
            output.len() == index,
            forall|i: int| 0 <= i < index ==> (#[trigger] output@[i])@ == names@[i]@,
        decreases names.len() - index,
    {
        output.push(SlotId::new(names[index].as_str()));
        index += 1;
    }
    proof {
        assert(views(output@) =~= texts(names@));
    }
    output
}

fn predicate_names(names: &Vec<String>) -> (result: Vec<Predicate>)
    ensures
        views(result@) == texts(names@),
{
    let mut output: Vec<Predicate> = Vec::new();
    let mut index: usize = 0;
    while index < names.len()
        invariant
            index <= names.len(),
            output.len() == index,
            forall|i: int| 0 <= i < index ==> (#[trigger] output@[i])@ == names@[i]@,
        decreases names.len() - index,
    {
        output.push(Predicate::new(names[index].as_str()));
        index += 1;
    }
    proof {
        assert(views(output@) =~= texts(names@));
    }
    output
}

fn literal_names(names: &Vec<String>) -> (result: Vec<Literal>)
    ensures
        views(result@) == texts(names@),
{
    let mut output: Vec<Literal> = Vec::new();
    let mut index: usize = 0;
    while index < names.len()
        invariant
            index <= names.len(),
            output.len() == index,
            forall|i: int| 0 <= i < index ==> (#[trigger] output@[i])@ == names@[i]@,
        decreases names.len() - index,
    {
        output.push(Literal::new(names[index].as_str()));
        index += 1;
    }
    proof {
        assert(views(output@) =~= texts(names@));
    }
    output
}

impl MmapVmSnapshot {
    /// The records and heads of a machine that goes on from the snapshot.
    pub fn workspace_image(&self) -> (result: (Vec<FactRecord>, Vec<u32>))
        requires
            self.wf(),
        ensures
            result.0@ == machine_records(self@.image.records),
            result.1@ == self@.image.heads,
    {
        let image = self.image();
        let mut records: Vec<FactRecord> = Vec::new();
        let mut index: usize = 0;
        while index < image.records.len()
            invariant
                index <= image.records.len(),
                image.records.len() < NONE,
                records@ == machine_records(image.records@).take(index as int),
            decreases image.records.len() - index,
        {
            let record = image.records[index];
            records.push(
                FactRecord {
                    kind: RecordKind::Define,
                    slot: record.slot,
                    triple: Triple {
                        subject: record.subject,
                        predicate: record.predicate as u64,
                        object: record.object,
                    },
                    previous_visible: record.previous,
                    resulting_visible: index as u32,
                },
            );
            proof {
                assert(records@ =~= machine_records(image.records@).take(index + 1));
            }
            index += 1;
        }
        let mut heads: Vec<u32> = Vec::new();
        let mut token: usize = 0;
        while token < image.heads.len()
            invariant
                token <= image.heads.len(),
                heads@ == image.heads@.take(token as int),
            decreases image.heads.len() - token,
        {
            heads.push(image.heads[token]);
            proof {
                assert(heads@ =~= image.heads@.take(token + 1));
            }
            token += 1;
        }
        proof {
            assert(machine_records(image.records@).take(index as int) =~= machine_records(
                image.records@,
            ));
            assert(image.heads@.take(token as int) =~= image.heads@);
        }
        (records, heads)
    }
}

impl VmEpochMaterializer {
    /// A materializer that goes on from a snapshot. It is in step with every kernel that the
    /// snapshot stands for.
    pub fn from_mmap(snapshot: &MmapVmSnapshot) -> (result: Result<Self, String>)
        requires
            snapshot.wf(),
        ensures
            result is Ok <==> snapshot@.record_count >= snapshot@.image.records.len(),
            result matches Ok(materializer) ==> {
                &&& materializer.wf()
                &&& materializer.synchronized_version() == 0
                &&& materializer.vocabulary() == snapshot@.image.names
                &&& forall|kernel: KernelModel| #[trigger]
                    stands_for_kernel(snapshot@, kernel) ==> materializer.in_step(kernel)
            },
    {
        let (records, heads) = snapshot.workspace_image();
        proof {
            let image = snapshot@.image;
            faultless_records(image, image.records.len());
            assert forall|i: int| 0 <= i < records@.len() implies (
            #[trigger] records@[i]).previous_visible == NONE || records@[i].previous_visible
                < i by {
                assert(record_ok(image, i));
            }
            assert forall|i: int| 0 <= i < heads@.len() implies (#[trigger] heads@[i]) == NONE
                || heads@[i] < records@.len() by {
                assert(image.heads[i] == heads@[i]);
            }
        }
        let workspace = match Workspace::from_image(
            snapshot.next_entity(),
            records,
            heads,
            snapshot.record_count(),
        ) {
            Some(workspace) => workspace,
            None => return Err(
                "physical snapshot holds more records than it counts".to_owned(),
            ),
        };
        let image = snapshot.image();
        let vocabulary = Vocabulary::assemble(
            slot_names(&image.slots),
            predicate_names(&image.predicates),
            literal_names(&image.literals),
        );
        proof {
            assert forall|kernel: KernelModel| #[trigger]
                stands_for_kernel(snapshot@, kernel) implies mirrors(
                vocabulary@,
                workspace@,
                kernel,
            ) by {
                snapshot_machine_mirrors(snapshot@, workspace@, kernel);
            }
        }
        Ok(VmEpochMaterializer::from_parts(workspace, vocabulary))
    }
}

} // verus!
