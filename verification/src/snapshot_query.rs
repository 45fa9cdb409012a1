//! Queries on a snapshot, by its sorted indexes.

use crate::epoch_store::readable;
use crate::fact::{Atom, AtomModel, Fact, Literal, Predicate, SlotId, Variable, views};
use crate::image::{ImageModel, IndexEntry, IndexShape, key_le};
use crate::image_build::SnapshotImage;
use crate::kernel::DefinitionModel;
use crate::query::{QueryResult, finds, query_source};
use crate::query_model::{
    Binding, BoundModel, BoundValue, BoundVariableModel, FactSource, Pattern, PatternModel,
    PredicateTerm, PredicateTermModel, QueryOptions, Term, TermModel, value_of,
};
use crate::snapshot_format::{
    entry_fault, faultless_index, faultless_records, index_fault, record_ok,
};
use crate::snapshot_open::{MmapVmSnapshot, image_ok};
use crate::snapshot_world::definition_of;
use crate::vm::VM_LITERAL_BASE;
use crate::vocabulary::{VocabularyModel, token_of};
use vstd::prelude::*;
use vstd::string::*;

verus! {

/// What is known of a place of a pattern.
#[derive(Clone, Copy, Debug, PartialEq, Eq, Structural)]
pub enum Resolved {
    /// Anything may stand there.
    Unbound,
    /// Only something that the snapshot does not hold may stand there.
    Missing,
    Value(u64),
}

/// The cell of an atom.
pub open spec fn sought_atom(names: VocabularyModel, atom: AtomModel) -> Resolved {
    match atom {
        AtomModel::Entity(entity) => if entity < VM_LITERAL_BASE {
            Resolved::Value(entity)
        } else {
            Resolved::Missing
        },
        AtomModel::Literal(literal) => if token_of(names.literals, literal) >= 0 {
            Resolved::Value((VM_LITERAL_BASE + token_of(names.literals, literal)) as u64)
        } else {
            Resolved::Missing
        },
    }
}

pub open spec fn sought_predicate(names: VocabularyModel, predicate: Seq<char>) -> Resolved {
    if token_of(names.predicates, predicate) >= 0 {
        Resolved::Value(token_of(names.predicates, predicate) as u64)
    } else {
        Resolved::Missing
    }
}

/// What is known of a term.
pub open spec fn sought_term(
    names: VocabularyModel,
    term: TermModel,
    binding: Seq<BoundVariableModel>,
) -> Resolved {
    match term {
        TermModel::Atom(atom) => sought_atom(names, atom),
        TermModel::Variable(name) => match value_of(binding, name) {
            Some(BoundModel::Atom(atom)) => sought_atom(names, atom),
            Some(BoundModel::Predicate(_)) => Resolved::Missing,
            None => Resolved::Unbound,
        },
    }
}

/// What is known of a predicate.
pub open spec fn sought_predicate_term(
    names: VocabularyModel,
    term: PredicateTermModel,
    binding: Seq<BoundVariableModel>,
) -> Resolved {
    match term {
        PredicateTermModel::Predicate(predicate) => sought_predicate(names, predicate),
        PredicateTermModel::Variable(name) => match value_of(binding, name) {
            Some(BoundModel::Predicate(predicate)) => sought_predicate(names, predicate),
            Some(BoundModel::Atom(_)) => Resolved::Missing,
            None => Resolved::Unbound,
        },
    }
}

/// A key of an index: the first `length` of three cells.
#[derive(Clone, Copy, Debug, PartialEq, Eq, Structural)]
pub struct IndexKey {
    pub first: u64,
    pub second: u64,
    pub third: u64,
    pub length: u8,
}

/// Where the candidates of a pattern are found.
#[derive(Clone, Copy, Debug, PartialEq, Eq, Structural)]
pub enum CandidateSpec {
    All,
    Empty,
    Range(IndexShape, IndexKey),
}

/// The index that serves what is known.
pub open spec fn serving(subject: Resolved, predicate: Resolved, object: Resolved) -> CandidateSpec {
    match (subject, predicate, object) {
        (Resolved::Missing, _, _) => CandidateSpec::Empty,
        (_, Resolved::Missing, _) => CandidateSpec::Empty,
        (_, _, Resolved::Missing) => CandidateSpec::Empty,
        (Resolved::Value(s), Resolved::Value(p), Resolved::Value(o)) => CandidateSpec::Range(
            IndexShape::SubjectPredicateObject,
            IndexKey { first: s, second: p, third: o, length: 3 },
        ),
        (Resolved::Value(s), Resolved::Value(p), Resolved::Unbound) => CandidateSpec::Range(
            IndexShape::SubjectPredicateObject,
            IndexKey { first: s, second: p, third: 0, length: 2 },
        ),
        (Resolved::Value(s), Resolved::Unbound, Resolved::Value(o)) => CandidateSpec::Range(
            IndexShape::ObjectSubjectPredicate,
            IndexKey { first: o, second: s, third: 0, length: 2 },
        ),
        (Resolved::Unbound, Resolved::Value(p), Resolved::Value(o)) => CandidateSpec::Range(
            IndexShape::PredicateObjectSubject,
            IndexKey { first: p, second: o, third: 0, length: 2 },
        ),
        (Resolved::Value(s), Resolved::Unbound, Resolved::Unbound) => CandidateSpec::Range(
            IndexShape::SubjectPredicateObject,
            IndexKey { first: s, second: 0, third: 0, length: 1 },
        ),
        (Resolved::Unbound, Resolved::Value(p), Resolved::Unbound) => CandidateSpec::Range(
            IndexShape::PredicateObjectSubject,
            IndexKey { first: p, second: 0, third: 0, length: 1 },
        ),
        (Resolved::Unbound, Resolved::Unbound, Resolved::Value(o)) => CandidateSpec::Range(
            IndexShape::ObjectSubjectPredicate,
            IndexKey { first: o, second: 0, third: 0, length: 1 },
        ),
        (Resolved::Unbound, Resolved::Unbound, Resolved::Unbound) => CandidateSpec::All,
    }
}

/// An entry has a key.
pub open spec fn has_key(entry: IndexEntry, key: IndexKey) -> bool {
    &&& entry.first == key.first
    &&& key.length >= 2 ==> entry.second == key.second
    &&& key.length >= 3 ==> entry.third == key.third
}

/// An entry lies before a key.
pub open spec fn lies_before_key(entry: IndexEntry, key: IndexKey) -> bool {
    ||| entry.first < key.first
    ||| key.length >= 2 && entry.first == key.first && entry.second < key.second
    ||| key.length >= 3 && entry.first == key.first && entry.second == key.second && entry.third
        < key.third
}

/// The records of the entries with a key, among the first `count`.
pub open spec fn keyed(entries: Seq<IndexEntry>, key: IndexKey, count: nat) -> Seq<int>
    decreases count,
{
    if count == 0 {
        Seq::empty()
    } else {
        let front = keyed(entries, key, (count - 1) as nat);
        if has_key(entries[count - 1], key) {
            front.push(entries[count - 1].record as int)
        } else {
            front
        }
    }
}

/// The active records that there are, among the first `count`.
pub open spec fn present(active: Seq<u32>, records: nat, count: nat) -> Seq<int>
    decreases count,
{
    if count == 0 {
        Seq::empty()
    } else {
        let front = present(active, records, (count - 1) as nat);
        if active[count - 1] < records {
            front.push(active[count - 1] as int)
        } else {
            front
        }
    }
}

pub open spec fn index_with(image: ImageModel, shape: IndexShape) -> Seq<IndexEntry> {
    match shape {
        IndexShape::SubjectPredicateObject => image.spo,
        IndexShape::PredicateObjectSubject => image.pos,
        IndexShape::ObjectSubjectPredicate => image.osp,
    }
}

/// Where the candidates of a pattern are found.
pub open spec fn candidate_spec_of(
    image: ImageModel,
    pattern: PatternModel,
    binding: Seq<BoundVariableModel>,
) -> CandidateSpec {
    serving(
        sought_term(image.names, pattern.subject, binding),
        sought_predicate_term(image.names, pattern.predicate, binding),
        sought_term(image.names, pattern.object, binding),
    )
}

/// The records that are tried for a pattern, in the order of the index.
pub open spec fn mapped_picks(
    image: ImageModel,
    pattern: PatternModel,
    binding: Seq<BoundVariableModel>,
) -> Seq<int> {
    match candidate_spec_of(image, pattern, binding) {
        CandidateSpec::All => present(image.active, image.records.len(), image.active.len()),
        CandidateSpec::Empty => Seq::empty(),
        CandidateSpec::Range(shape, key) => keyed(
            index_with(image, shape),
            key,
            index_with(image, shape).len(),
        ),
    }
}

/// A record that the active list or an index speaks of.
pub open spec fn mentioned(image: ImageModel, record: int) -> bool {
    &&& 0 <= record < image.records.len()
    &&& {
        ||| exists|i: int| 0 <= i < image.active.len() && #[trigger] image.active[i] == record
        ||| exists|i: int| 0 <= i < image.spo.len() && (#[trigger] image.spo[i]).record == record
        ||| exists|i: int| 0 <= i < image.pos.len() && (#[trigger] image.pos[i]).record == record
        ||| exists|i: int| 0 <= i < image.osp.len() && (#[trigger] image.osp[i]).record == record
    }
}

/// The facts of a snapshot, by record.
pub open spec fn mapped_facts(image: ImageModel) -> Map<int, DefinitionModel> {
    Map::new(
        |record: int| mentioned(image, record),
        |record: int| definition_of(image.names, image.records[record]),
    )
}

proof fn sorted_entries(records: nat, entries: Seq<IndexEntry>, i: int, j: int)
    requires
        index_fault(records, entries, entries.len()) is None,
        0 <= i <= j < entries.len(),
    ensures
        key_le(entries[i], entries[j]),
    decreases j - i,
{
    if i < j {
        faultless_index(records, entries, entries.len());
        assert(entry_fault(records, entries, j) is None);
        sorted_entries(records, entries, i, j - 1);
    }
}

/// The first entry that does not lie before a key.
fn lower_bound(entries: &Vec<IndexEntry>, key: IndexKey, Ghost(records): Ghost<nat>) -> (result:
    usize)
    requires
        index_fault(records, entries@, entries@.len()) is None,
        1 <= key.length <= 3,
    ensures
        result <= entries.len(),
        forall|i: int| 0 <= i < result ==> lies_before_key(#[trigger] entries@[i], key),
        forall|i: int| result <= i < entries.len() ==> !lies_before_key(#[trigger] entries@[i], key),
{
    let mut low: usize = 0;
    let mut high: usize = entries.len();
    while low < high
        invariant
            low <= high <= entries.len(),
            index_fault(records, entries@, entries@.len()) is None,
            1 <= key.length <= 3,
            forall|i: int| 0 <= i < low ==> lies_before_key(#[trigger] entries@[i], key),
            forall|i: int|
                high <= i < entries.len() ==> !lies_before_key(#[trigger] entries@[i], key),
        decreases high - low,
    {
        let middle: usize = low + (high - low) / 2;
        let entry = entries[middle];
        let less = entry.first < key.first || (key.length >= 2 && entry.first == key.first
            && entry.second < key.second) || (key.length >= 3 && entry.first == key.first
            && entry.second == key.second && entry.third < key.third);
        if less {
            proof {
                assert forall|i: int| 0 <= i < middle + 1 implies lies_before_key(
                    #[trigger] entries@[i],
                    key,
                ) by {
                    sorted_entries(records, entries@, i, middle as int);
                }
            }
            low = middle + 1;
        } else {
            proof {
                assert forall|i: int| middle <= i < entries.len() implies !lies_before_key(
                    #[trigger] entries@[i],
                    key,
                ) by {
                    sorted_entries(records, entries@, middle as int, i);
                }
            }
            high = middle;
        }
    }
    low
}

/// The entries with a key, from where to where.
fn index_range(entries: &Vec<IndexEntry>, key: IndexKey, Ghost(records): Ghost<nat>) -> (result: (
    usize,
    usize,
))
    requires
        index_fault(records, entries@, entries@.len()) is None,
        1 <= key.length <= 3,
        key.first < u64::MAX,
        key.second < u64::MAX,
        key.third < u64::MAX,
    ensures
        result.0 <= result.1 <= entries.len(),
        forall|i: int|
            0 <= i < entries.len() ==> (has_key(#[trigger] entries@[i], key) <==> result.0 <= i
                < result.1),
{
    let lower: usize = lower_bound(entries, key, Ghost(records));
    let next = if key.length == 1 {
        IndexKey { first: key.first + 1, ..key }
    } else if key.length == 2 {
        IndexKey { second: key.second + 1, ..key }
    } else {
        IndexKey { third: key.third + 1, ..key }
    };
    let upper: usize = lower_bound(entries, next, Ghost(records));
    proof {
        if upper < lower {
            assert(lies_before_key(entries@[upper as int], key));
            assert(!lies_before_key(entries@[upper as int], next));
        }
    }
    (lower, upper)
}

/// The keyed entries are those of the range.
proof fn keyed_is_range(
    entries: Seq<IndexEntry>,
    key: IndexKey,
    lower: int,
    upper: int,
    count: nat,
)
    requires
        0 <= lower <= upper <= entries.len(),
        count <= entries.len(),
        forall|i: int|
            0 <= i < entries.len() ==> (has_key(#[trigger] entries[i], key) <==> lower <= i
                < upper),
    ensures
        ({
            let list = keyed(entries, key, count);
            let found = if count <= lower {
                0
            } else if count >= upper {
                upper - lower
            } else {
                count - lower
            };
            &&& list.len() == found
            &&& forall|i: int|
                0 <= i < found ==> #[trigger] list[i] == entries[lower + i].record
        }),
    decreases count,
{
    if count > 0 {
        keyed_is_range(entries, key, lower, upper, (count - 1) as nat);
        assert(has_key(entries[count - 1], key) <==> lower <= count - 1 < upper);
    }
}

fn find_atom(image: &SnapshotImage, atom: &Atom) -> (result: Resolved)
    requires
        image_ok(image@),
    ensures
        result == sought_atom(image@.names, atom@),
        result matches Resolved::Value(cell) ==> cell < u64::MAX,
{
    match atom {
        Atom::Entity(entity) => if entity.0 < VM_LITERAL_BASE {
            Resolved::Value(entity.0)
        } else {
            Resolved::Missing
        },
        Atom::Literal(literal) => match image.literal_token(literal.as_str()) {
            Some(token) => Resolved::Value(VM_LITERAL_BASE + token as u64),
            None => Resolved::Missing,
        },
    }
}

fn find_predicate(image: &SnapshotImage, predicate: &Predicate) -> (result: Resolved)
    requires
        image_ok(image@),
    ensures
        result == sought_predicate(image@.names, predicate@),
        result matches Resolved::Value(cell) ==> cell < u64::MAX,
{
    match image.predicate_token(predicate.as_str()) {
        Some(token) => Resolved::Value(token as u64),
        None => Resolved::Missing,
    }
}

fn resolved_atom_cell(image: &SnapshotImage, term: &Term, binding: &Binding) -> (result: Resolved)
    requires
        image_ok(image@),
    ensures
        result == sought_term(image@.names, term@, binding@),
        result matches Resolved::Value(cell) ==> cell < u64::MAX,
{
    match term {
        Term::Atom(atom) => find_atom(image, atom),
        Term::Variable(variable) => match binding.get(variable.as_str()) {
            Some(BoundValue::Atom(atom)) => find_atom(image, atom),
            Some(BoundValue::Predicate(_)) => Resolved::Missing,
            None => Resolved::Unbound,
        },
    }
}

fn resolved_predicate_cell(image: &SnapshotImage, term: &PredicateTerm, binding: &Binding) -> (
    result: Resolved)
    requires
        image_ok(image@),
    ensures
        result == sought_predicate_term(image@.names, term@, binding@),
        result matches Resolved::Value(cell) ==> cell < u64::MAX,
{
    match term {
        PredicateTerm::Predicate(predicate) => find_predicate(image, predicate),
        PredicateTerm::Variable(variable) => match binding.get(variable.as_str()) {
            Some(BoundValue::Predicate(predicate)) => find_predicate(image, predicate),
            Some(BoundValue::Atom(_)) => Resolved::Missing,
            None => Resolved::Unbound,
        },
    }
}

/// The index that serves what is known.
pub fn candidate_spec(subject: Resolved, predicate: Resolved, object: Resolved) -> (result:
    CandidateSpec)
    ensures
        result == serving(subject, predicate, object),
{
    match (subject, predicate, object) {
        (Resolved::Missing, _, _) => CandidateSpec::Empty,
        (_, Resolved::Missing, _) => CandidateSpec::Empty,
        (_, _, Resolved::Missing) => CandidateSpec::Empty,
        (Resolved::Value(s), Resolved::Value(p), Resolved::Value(o)) => CandidateSpec::Range(
            IndexShape::SubjectPredicateObject,
            IndexKey { first: s, second: p, third: o, length: 3 },
        ),
        (Resolved::Value(s), Resolved::Value(p), Resolved::Unbound) => CandidateSpec::Range(
            IndexShape::SubjectPredicateObject,
            IndexKey { first: s, second: p, third: 0, length: 2 },
        ),
        (Resolved::Value(s), Resolved::Unbound, Resolved::Value(o)) => CandidateSpec::Range(
            IndexShape::ObjectSubjectPredicate,
            IndexKey { first: o, second: s, third: 0, length: 2 },
        ),
        (Resolved::Unbound, Resolved::Value(p), Resolved::Value(o)) => CandidateSpec::Range(
            IndexShape::PredicateObjectSubject,
            IndexKey { first: p, second: o, third: 0, length: 2 },
        ),
        (Resolved::Value(s), Resolved::Unbound, Resolved::Unbound) => CandidateSpec::Range(
            IndexShape::SubjectPredicateObject,
            IndexKey { first: s, second: 0, third: 0, length: 1 },
        ),
        (Resolved::Unbound, Resolved::Value(p), Resolved::Unbound) => CandidateSpec::Range(
            IndexShape::PredicateObjectSubject,
            IndexKey { first: p, second: 0, third: 0, length: 1 },
        ),
        (Resolved::Unbound, Resolved::Unbound, Resolved::Value(o)) => CandidateSpec::Range(
            IndexShape::ObjectSubjectPredicate,
            IndexKey { first: o, second: 0, third: 0, length: 1 },
        ),
        (Resolved::Unbound, Resolved::Unbound, Resolved::Unbound) => CandidateSpec::All,
    }
}

/// The active records that there are.
fn all_candidates(image: &SnapshotImage) -> (result: Vec<usize>)
    ensures
        ({
            let list = present(image@.active, image@.records.len(), image@.active.len());
            &&& result.len() == list.len()
            &&& forall|i: int|
                0 <= i < result.len() ==> #[trigger] result@[i] == list[i] && mentioned(
                    image@,
                    result@[i] as int,
                )
        }),
{
    let mut found: Vec<usize> = Vec::new();
    let mut index: usize = 0;
    while index < image.active.len()
        invariant
            index <= image.active.len(),
            ({
                let list = present(image@.active, image@.records.len(), index as nat);
                &&& found.len() == list.len()
                &&& forall|i: int|
                    0 <= i < found.len() ==> #[trigger] found@[i] == list[i] && mentioned(
                        image@,
                        found@[i] as int,
                    )
            }),
        decreases image.active.len() - index,
    {
        let record: u32 = image.active[index];
        if (record as usize) < image.records.len() {
            proof {
                assert(image@.active[index as int] == record);
                assert(mentioned(image@, record as int));
            }
            found.push(record as usize);
        }
        index += 1;
    }
    found
}

/// The records of the entries with a key.
fn range_candidates(image: &SnapshotImage, shape: IndexShape, key: IndexKey) -> (result: Vec<
    usize,
>)
    requires
        image_ok(image@),
        1 <= key.length <= 3,
        key.first < u64::MAX,
        key.second < u64::MAX,
        key.third < u64::MAX,
    ensures
        ({
            let entries = index_with(image@, shape);
            let list = keyed(entries, key, entries.len());
            &&& result.len() == list.len()
            &&& forall|i: int|
                0 <= i < result.len() ==> #[trigger] result@[i] == list[i] && mentioned(
                    image@,
                    result@[i] as int,
                )
        }),
{
    let entries = match shape {
        IndexShape::SubjectPredicateObject => &image.spo,
        IndexShape::PredicateObjectSubject => &image.pos,
        IndexShape::ObjectSubjectPredicate => &image.osp,
    };
    let ghost records = image@.records.len();
    let (lower, upper) = index_range(entries, key, Ghost(records));
    let mut found: Vec<usize> = Vec::new();
    let mut index: usize = lower;
    proof {
        faultless_index(records, entries@, entries@.len());
    }
    while index < upper
        invariant
            lower <= index <= upper <= entries.len(),
            entries@ == index_with(image@, shape),
            records == image@.records.len(),
            forall|i: int|
                0 <= i < entries@.len() ==> #[trigger] entry_fault(records, entries@, i) is None,
            found.len() == index - lower,
            forall|i: int|
                0 <= i < found.len() ==> #[trigger] found@[i] == entries@[lower + i].record
                    && mentioned(image@, found@[i] as int),
        decreases upper - index,
    {
        proof {
            assert(entry_fault(records, entries@, index as int) is None);
            match shape {
                IndexShape::SubjectPredicateObject => {
                    assert(image@.spo[index as int] == entries@[index as int]);
                },
                IndexShape::PredicateObjectSubject => {
                    assert(image@.pos[index as int] == entries@[index as int]);
                },
                IndexShape::ObjectSubjectPredicate => {
                    assert(image@.osp[index as int] == entries@[index as int]);
                },
            }
            assert(mentioned(image@, entries@[index as int].record as int));
        }
        found.push(entries[index].record as usize);
        index += 1;
    }
    proof {
        keyed_is_range(entries@, key, lower as int, upper as int, entries@.len());
    }
    found
}

impl FactSource for MmapVmSnapshot {
    open spec fn facts(&self) -> Map<int, DefinitionModel> {
        mapped_facts(self@.image)
    }

    open spec fn picks(&self, pattern: PatternModel, binding: Seq<BoundVariableModel>) -> Seq<
        int,
    > {
        mapped_picks(self@.image, pattern, binding)
    }

    open spec fn readable(&self) -> bool {
        self.wf()
    }

    fn candidates(&self, pattern: &Pattern, binding: &Binding) -> (result: Vec<usize>) {
        let image = self.image();
        let subject = resolved_atom_cell(image, &pattern.subject, binding);
        let predicate = resolved_predicate_cell(image, &pattern.predicate, binding);
        let object = resolved_atom_cell(image, &pattern.object, binding);
        match candidate_spec(subject, predicate, object) {
            CandidateSpec::All => all_candidates(image),
            CandidateSpec::Empty => Vec::new(),
            CandidateSpec::Range(shape, key) => range_candidates(image, shape, key),
        }
    }

    fn fact_at(&self, index: usize) -> (result: Fact) {
        self.image().fact(index as u32)
    }

    fn slot_at(&self, index: usize) -> (result: SlotId) {
        let image = self.image();
        proof {
            faultless_records(image@, image@.records.len());
            assert(record_ok(image@, index as int));
        }
        SlotId::new(image.slots[image.records[index].slot as usize].as_str())
    }
}

impl MmapVmSnapshot {
    /// Finds all ways to answer patterns with the facts of the snapshot.
    pub fn query(&self, patterns: &[Pattern], options: QueryOptions) -> (result: QueryResult)
        requires
            self.wf(),
        ensures
            finds(*self, views(patterns@), options, result),
    {
        query_source(self, patterns, options)
    }
}

} // verus!
