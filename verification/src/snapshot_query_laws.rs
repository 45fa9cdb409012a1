//! A snapshot answers as its world does.

use crate::fact::Variable;
use crate::image::{
    ImageModel, IndexEntry, IndexShape, MappedRecord, entry_of, image_head, image_holds_definitions,
    images, index_of, mapped_active, record_fact, unmappable,
};
use crate::image_build::active_has_head;
use crate::kernel::{DefinitionModel, active, active_before, active_fact};
use crate::query::ActiveFacts;
use crate::query_laws::{
    active_facts_offer, all_satisfiable, extends, offers_what_fits, predicate_is, satisfiable,
    satisfied, term_is, unification_is_exact,
};
use crate::query_match::equal_facts_have_equal_answers;
use crate::query_model::{
    BoundVariableModel, FactSource, PatternModel, PredicateTermModel, QueryOptions, TermModel,
    WalkModel, binding_ok, bound_before, unified, value_of, whole_walk,
};
use crate::snapshot_format::{entry_fault, faultless_index, faultless_records, record_ok};
use crate::snapshot_open::{MmapVmSnapshot, image_ok};
use crate::snapshot_query::{
    CandidateSpec, IndexKey, Resolved, candidate_spec_of, has_key, index_with, keyed, mapped_picks,
    mentioned, present, sought_atom, sought_predicate_term, sought_term,
};
use crate::vm::VM_LITERAL_BASE;
use crate::vocabulary::{
    VocabularyModel, cell_atom, cell_ok, tables_ok, token_facts, token_is, token_of,
};
use vstd::prelude::*;
use vstd::string::*;

verus! {

proof fn cell_is_sought(names: VocabularyModel, cell: u64)
    requires
        tables_ok(names),
        cell_ok(names, cell),
    ensures
        sought_atom(names, cell_atom(names, cell)) == Resolved::Value(cell),
{
    if cell >= VM_LITERAL_BASE {
        token_is(names.literals, cell - VM_LITERAL_BASE);
    }
}

proof fn term_is_sought(
    names: VocabularyModel,
    term: TermModel,
    binding: Seq<BoundVariableModel>,
    more: Seq<BoundVariableModel>,
    cell: u64,
)
    requires
        tables_ok(names),
        cell_ok(names, cell),
        extends(binding, more),
        term_is(term, more, cell_atom(names, cell)),
    ensures
        sought_term(names, term, binding) == Resolved::Unbound || sought_term(names, term, binding)
            == Resolved::Value(cell),
{
    cell_is_sought(names, cell);
    if let TermModel::Variable(name) = term {
        if value_of(binding, name) is Some {
            assert(value_of(more, name) == value_of(binding, name));
        }
    }
}

proof fn predicate_is_sought(
    names: VocabularyModel,
    term: PredicateTermModel,
    binding: Seq<BoundVariableModel>,
    more: Seq<BoundVariableModel>,
    token: u32,
)
    requires
        tables_ok(names),
        token < names.predicates.len(),
        extends(binding, more),
        predicate_is(term, more, names.predicates[token as int]),
    ensures
        sought_predicate_term(names, term, binding) == Resolved::Unbound || sought_predicate_term(
            names,
            term,
            binding,
        ) == Resolved::Value(token as u64),
{
    token_is(names.predicates, token as int);
    if let PredicateTermModel::Variable(name) = term {
        if value_of(binding, name) is Some {
            assert(value_of(more, name) == value_of(binding, name));
        }
    }
}

proof fn keyed_contains(entries: Seq<IndexEntry>, key: IndexKey, count: nat, index: int)
    requires
        0 <= index < count <= entries.len(),
        has_key(entries[index], key),
    ensures
        keyed(entries, key, count).contains(entries[index].record as int),
    decreases count,
{
    let list = keyed(entries, key, count);
    if index == count - 1 {
        assert(list[list.len() - 1] == entries[index].record);
    } else {
        keyed_contains(entries, key, (count - 1) as nat, index);
        let front = keyed(entries, key, (count - 1) as nat);
        let k = choose|k: int| 0 <= k < front.len() && front[k] == entries[index].record;
        assert(list[k] == front[k]);
    }
}

proof fn keyed_mentions(entries: Seq<IndexEntry>, key: IndexKey, count: nat, place: int)
    requires
        count <= entries.len(),
        0 <= place < keyed(entries, key, count).len(),
    ensures
        exists|i: int|
            0 <= i < count && (#[trigger] entries[i]).record == keyed(entries, key, count)[place],
    decreases count,
{
    let front = keyed(entries, key, (count - 1) as nat);
    if place < front.len() {
        keyed_mentions(entries, key, (count - 1) as nat, place);
        let i = choose|i: int|
            0 <= i < count - 1 && (#[trigger] entries[i]).record == front[place];
        assert(entries[i].record == keyed(entries, key, count)[place]);
    } else {
        assert(entries[count - 1].record == keyed(entries, key, count)[place]);
    }
}

proof fn present_contains(active: Seq<u32>, records: nat, count: nat, index: int)
    requires
        0 <= index < count <= active.len(),
        active[index] < records,
    ensures
        present(active, records, count).contains(active[index] as int),
    decreases count,
{
    let list = present(active, records, count);
    if index == count - 1 {
        assert(list[list.len() - 1] == active[index]);
    } else {
        present_contains(active, records, (count - 1) as nat, index);
        let front = present(active, records, (count - 1) as nat);
        let k = choose|k: int| 0 <= k < front.len() && front[k] == active[index];
        assert(list[k] == front[k]);
    }
}

proof fn present_mentions(active: Seq<u32>, records: nat, count: nat, place: int)
    requires
        count <= active.len(),
        0 <= place < present(active, records, count).len(),
    ensures
        0 <= present(active, records, count)[place] < records,
        exists|i: int| 0 <= i < count && #[trigger] active[i] == present(active, records, count)[place],
    decreases count,
{
    let front = present(active, records, (count - 1) as nat);
    if place < front.len() {
        present_mentions(active, records, (count - 1) as nat, place);
        let i = choose|i: int| 0 <= i < count - 1 && #[trigger] active[i] == front[place];
        assert(active[i] == present(active, records, count)[place]);
    } else {
        assert(active[count - 1] == present(active, records, count)[place]);
    }
}

/// An index of active records has an entry of each, and of no other.
proof fn index_covers(
    records: Seq<MappedRecord>,
    active: Seq<u32>,
    entries: Seq<IndexEntry>,
    shape: IndexShape,
)
    requires
        index_of(records, active, entries, shape),
    ensures
        forall|k: int|
            0 <= k < active.len() ==> entries.contains(
                entry_of(records, #[trigger] active[k], shape),
            ),
        forall|i: int|
            0 <= i < entries.len() ==> active.contains((#[trigger] entries[i]).record),
{
    let listed = Seq::new(active.len(), |i: int| entry_of(records, active[i], shape));
    entries.to_multiset_ensures();
    listed.to_multiset_ensures();
    assert forall|k: int| 0 <= k < active.len() implies entries.contains(
        entry_of(records, #[trigger] active[k], shape),
    ) by {
        assert(listed[k] == entry_of(records, active[k], shape));
        assert(listed.contains(listed[k]));
        assert(listed.to_multiset().count(listed[k]) > 0);
    }
    assert forall|i: int| 0 <= i < entries.len() implies active.contains(
        (#[trigger] entries[i]).record,
    ) by {
        assert(entries.contains(entries[i]));
        assert(entries.to_multiset().count(entries[i]) > 0);
        assert(listed.contains(entries[i]));
        let k = choose|k: int| 0 <= k < listed.len() && listed[k] == entries[i];
        assert(active[k] == entries[i].record);
    }
}

/// In the tables of definitions, what is mentioned is what is active.
proof fn mentioned_is_active(image: ImageModel, live: Seq<DefinitionModel>, record: int)
    requires
        images(image, live),
        mentioned(image, record),
    ensures
        exists|k: int| 0 <= k < image.active.len() && #[trigger] image.active[k] == record,
{
    index_covers(
        image.records,
        image.active,
        image.spo,
        IndexShape::SubjectPredicateObject,
    );
    index_covers(
        image.records,
        image.active,
        image.pos,
        IndexShape::PredicateObjectSubject,
    );
    index_covers(
        image.records,
        image.active,
        image.osp,
        IndexShape::ObjectSubjectPredicate,
    );
    if exists|i: int| 0 <= i < image.spo.len() && (#[trigger] image.spo[i]).record == record {
        let i = choose|i: int|
            0 <= i < image.spo.len() && (#[trigger] image.spo[i]).record == record;
        assert(image.active.contains(image.spo[i].record));
    } else if exists|i: int|
        0 <= i < image.pos.len() && (#[trigger] image.pos[i]).record == record {
        let i = choose|i: int|
            0 <= i < image.pos.len() && (#[trigger] image.pos[i]).record == record;
        assert(image.active.contains(image.pos[i].record));
    } else if exists|i: int|
        0 <= i < image.osp.len() && (#[trigger] image.osp[i]).record == record {
        let i = choose|i: int|
            0 <= i < image.osp.len() && (#[trigger] image.osp[i]).record == record;
        assert(image.active.contains(image.osp[i].record));
    }
}

proof fn index_offers(
    image: ImageModel,
    live: Seq<DefinitionModel>,
    shape: IndexShape,
    key: IndexKey,
    record: u32,
)
    requires
        images(image, live),
        image.active.contains(record),
        has_key(entry_of(image.records, record, shape), key),
    ensures
        keyed(index_with(image, shape), key, index_with(image, shape).len()).contains(
            record as int,
        ),
{
    let entries = index_with(image, shape);
    index_covers(image.records, image.active, entries, shape);
    let k = choose|k: int| 0 <= k < image.active.len() && image.active[k] == record;
    let entry = entry_of(image.records, image.active[k], shape);
    assert(entries.contains(entry));
    let i = choose|i: int| 0 <= i < entries.len() && entries[i] == entry;
    keyed_contains(entries, key, entries.len(), i);
}

/// A pattern that can meet the fact of an active record is offered that record.
proof fn snapshot_offers_record(
    image: ImageModel,
    live: Seq<DefinitionModel>,
    pattern: PatternModel,
    binding: Seq<BoundVariableModel>,
    record: int,
)
    requires
        images(image, live),
        image_ok(image),
        mentioned(image, record),
        binding_ok(binding),
        unified(pattern, record_fact(image.names, image.records[record]), binding) is Some,
    ensures
        mapped_picks(image, pattern, binding).contains(record),
{
    let names = image.names;
    let row = image.records[record];
    let fact = record_fact(names, row);
    let more = unified(pattern, fact, binding)->Some_0;
    faultless_records(image, image.records.len());
    assert(record_ok(image, record));
    unification_is_exact(pattern, fact, binding, more);
    term_is_sought(names, pattern.subject, binding, more, row.subject);
    predicate_is_sought(names, pattern.predicate, binding, more, row.predicate);
    term_is_sought(names, pattern.object, binding, more, row.object);
    mentioned_is_active(image, live, record);
    let k = choose|k: int| 0 <= k < image.active.len() && #[trigger] image.active[k] == record;
    assert(image.active.contains(record as u32));
    match candidate_spec_of(image, pattern, binding) {
        CandidateSpec::All => {
            present_contains(image.active, image.records.len(), image.active.len(), k);
        },
        CandidateSpec::Empty => {},
        CandidateSpec::Range(shape, key) => {
            assert(has_key(entry_of(image.records, record as u32, shape), key));
            index_offers(image, live, shape, key, record as u32);
        },
    }
}

proof fn active_is_newest(live: Seq<DefinitionModel>, count: nat, index: int)
    requires
        count <= live.len(),
        0 <= index < active_before(live, count).len(),
    ensures
        active_fact(live, active_before(live, count)[index].slot) == Some(
            active_before(live, count)[index].fact,
        ),
    decreases count,
{
    let front = active_before(live, (count - 1) as nat);
    if index < front.len() {
        active_is_newest(live, (count - 1) as nat, index);
    }
}

/// The active record at a place holds the active fact at that place.
proof fn active_record_holds(image: ImageModel, live: Seq<DefinitionModel>, index: int)
    requires
        images(image, live),
        image_ok(image),
        !unmappable(live),
        0 <= index < active(live).len(),
    ensures
        image.active.len() == active(live).len(),
        image.active[index] < image.records.len(),
        record_fact(image.names, image.records[image.active[index] as int]) == active(
            live,
        )[index].fact,
        mentioned(image, image.active[index] as int),
{
    let names = image.names;
    let slot = active(live)[index].slot;
    active_is_newest(live, live.len(), index);
    image_holds_definitions(image, live, slot);
    active_has_head(names, live, index);
    token_facts(names.slots, slot);
    let token = token_of(names.slots, slot);
    assert(image.active[index] == image_head(names, live, token));
    assert(image.heads[token] == image_head(names, live, token));
    assert(mapped_active(image, slot) is Some);
}

/// The snapshot of a kernel offers for every pattern what the pattern can meet, and its facts are
/// the active facts of the kernel.
pub proof fn snapshot_answers_as_kernel(
    snapshot: MmapVmSnapshot,
    source: ActiveFacts,
    live: Seq<DefinitionModel>,
)
    requires
        snapshot.wf(),
        images(snapshot@.image, live),
        !unmappable(live),
        source.listed() == active(live),
    ensures
        offers_what_fits(snapshot),
        offers_what_fits(source),
        forall|patterns: Seq<PatternModel>, binding: Seq<BoundVariableModel>|
            all_satisfiable(snapshot.facts(), patterns, binding) <==> #[trigger] all_satisfiable(
                source.facts(),
                patterns,
                binding,
            ),
{
    let image = snapshot@.image;
    active_facts_offer(source);
    assert forall|pattern: PatternModel, binding: Seq<BoundVariableModel>, i: int|
        0 <= i < snapshot.picks(pattern, binding).len() implies snapshot.facts().contains_key(
        #[trigger] snapshot.picks(pattern, binding)[i],
    ) by {
        picks_are_mentioned(image, pattern, binding, i);
    }
    assert forall|pattern: PatternModel, binding: Seq<BoundVariableModel>, i: int|
        snapshot.facts().contains_key(i) && #[trigger] unified(
            pattern,
            snapshot.facts()[i].fact,
            binding,
        ) is Some && binding_ok(binding) implies snapshot.picks(pattern, binding).contains(i) by {
        snapshot_offers_record(image, live, pattern, binding, i);
    }
    assert forall|patterns: Seq<PatternModel>, binding: Seq<BoundVariableModel>|
        all_satisfiable(snapshot.facts(), patterns, binding) <==> #[trigger] all_satisfiable(
            source.facts(),
            patterns,
            binding,
        ) by {
        assert forall|k: int| 0 <= k < patterns.len() implies (satisfiable(
            snapshot.facts(),
            #[trigger] patterns[k],
            binding,
        ) <==> satisfiable(source.facts(), patterns[k], binding)) by {
            same_facts_satisfy(snapshot, source, live, patterns[k], binding);
        }
    }
}

proof fn same_facts_satisfy(
    snapshot: MmapVmSnapshot,
    source: ActiveFacts,
    live: Seq<DefinitionModel>,
    pattern: PatternModel,
    binding: Seq<BoundVariableModel>,
)
    requires
        snapshot.wf(),
        images(snapshot@.image, live),
        !unmappable(live),
        source.listed() == active(live),
    ensures
        satisfiable(snapshot.facts(), pattern, binding) <==> satisfiable(
            source.facts(),
            pattern,
            binding,
        ),
{
    let image = snapshot@.image;
    let mapped = FactSource::facts(&snapshot);
    let own = FactSource::facts(&source);
    if satisfiable(mapped, pattern, binding) {
        let i = choose|i: int|
            mapped.contains_key(i) && satisfied(pattern, binding, #[trigger] mapped[i].fact);
        mentioned_is_active(image, live, i);
        let k = choose|k: int| 0 <= k < image.active.len() && #[trigger] image.active[k] == i;
        active_record_holds(image, live, k);
        assert(own.contains_key(k) && own[k].fact == mapped[i].fact);
    }
    if satisfiable(own, pattern, binding) {
        let k = choose|k: int|
            own.contains_key(k) && satisfied(pattern, binding, #[trigger] own[k].fact);
        active_record_holds(image, live, k);
        let i = image.active[k] as int;
        assert(mapped.contains_key(i) && mapped[i].fact == own[k].fact);
    }
}

proof fn picks_are_mentioned(
    image: ImageModel,
    pattern: PatternModel,
    binding: Seq<BoundVariableModel>,
    index: int,
)
    requires
        image_ok(image),
        0 <= index < mapped_picks(image, pattern, binding).len(),
    ensures
        mentioned(image, mapped_picks(image, pattern, binding)[index]),
{
    match candidate_spec_of(image, pattern, binding) {
        CandidateSpec::All => {
            present_mentions(image.active, image.records.len(), image.active.len(), index);
        },
        CandidateSpec::Empty => {},
        CandidateSpec::Range(shape, key) => {
            let entries = index_with(image, shape);
            keyed_mentions(entries, key, entries.len(), index);
            let i = choose|i: int|
                0 <= i < entries.len() && (#[trigger] entries[i]).record == keyed(
                    entries,
                    key,
                    entries.len(),
                )[index];
            faultless_index(image.records.len(), entries, entries.len());
            assert(entry_fault(image.records.len(), entries, i) is None);
            match shape {
                IndexShape::SubjectPredicateObject => {
                    assert(image.spo[i] == entries[i]);
                },
                IndexShape::PredicateObjectSubject => {
                    assert(image.pos[i] == entries[i]);
                },
                IndexShape::ObjectSubjectPredicate => {
                    assert(image.osp[i] == entries[i]);
                },
            }
        },
    }
}

/// Every answer of one walk has the values of an answer of the other.
pub open spec fn finds_all(left: WalkModel, right: WalkModel) -> bool {
    forall|i: int|
        0 <= i < left.output.len() ==> bound_before(
            right.output,
            (#[trigger] left.output[i]).binding,
        )
}

/// A query without a limit finds the same values in the snapshot of a kernel and in the kernel.
pub proof fn snapshot_finds_what_the_kernel_finds(
    snapshot: MmapVmSnapshot,
    source: ActiveFacts,
    live: Seq<DefinitionModel>,
    patterns: Seq<PatternModel>,
    options: QueryOptions,
)
    requires
        snapshot.wf(),
        images(snapshot@.image, live),
        !unmappable(live),
        source.listed() == active(live),
        options.limit is None,
    ensures
        finds_all(
            whole_walk(snapshot, patterns, options),
            whole_walk(source, patterns, options),
        ),
        finds_all(
            whole_walk(source, patterns, options),
            whole_walk(snapshot, patterns, options),
        ),
{
    snapshot_answers_as_kernel(snapshot, source, live);
    let mapped = whole_walk(snapshot, patterns, options);
    let listed = whole_walk(source, patterns, options);
    assert forall|i: int| 0 <= i < mapped.output.len() implies bound_before(
        listed.output,
        (#[trigger] mapped.output[i]).binding,
    ) by {
        equal_facts_have_equal_answers(snapshot, source, patterns, options, options, i);
    }
    assert forall|i: int| 0 <= i < listed.output.len() implies bound_before(
        mapped.output,
        (#[trigger] listed.output[i]).binding,
    ) by {
        equal_facts_have_equal_answers(source, snapshot, patterns, options, options, i);
    }
}

} // verus!
