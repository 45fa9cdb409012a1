//! Which records of a snapshot are tried for a pattern.

use crate::fact::{Atom, AtomModel, Literal, Predicate, Variable};
use crate::image::{IndexEntry, MappedRecord, entry_of};
use crate::query_model::{BoundModel, BoundVariableModel, PredicateTermModel, TermModel, value_of};
use crate::snapshot_query::{
    CandidateSpec, IndexKey, Resolved, has_key, keyed, present, serving, sought_predicate_term,
    sought_term,
};
use crate::vocabulary::{VocabularyModel, token_facts, token_is, vocabulary_ok};
use vstd::prelude::*;

verus! {

/// What is known of a place of a pattern admits a cell.
pub open spec fn admits(known: Resolved, cell: u64) -> bool {
    known matches Resolved::Value(value) ==> value == cell
}

/// The index and the key that serve a pattern use everything that is known: an entry has the key
/// exactly if its record has every known cell at its place. Nothing is tried exactly if something is
/// known to be missing, and everything exactly if nothing is known.
pub proof fn keys_hold_all_that_is_known(
    subject: Resolved,
    predicate: Resolved,
    object: Resolved,
    records: Seq<MappedRecord>,
    record: u32,
)
    requires
        record < records.len(),
    ensures
        match serving(subject, predicate, object) {
            CandidateSpec::Empty => subject is Missing || predicate is Missing || object is Missing,
            CandidateSpec::All => subject is Unbound && predicate is Unbound && object is Unbound,
            CandidateSpec::Range(shape, key) => {
                &&& !(subject is Missing) && !(predicate is Missing) && !(object is Missing)
                &&& subject is Value || predicate is Value || object is Value
                &&& has_key(entry_of(records, record, shape), key) <==> {
                    &&& admits(subject, records[record as int].subject)
                    &&& admits(predicate, records[record as int].predicate as u64)
                    &&& admits(object, records[record as int].object)
                }
            },
        },
{
}

/// The records that an index gives for a key are those of its entries with the key, in their order;
/// without a key those of the active list that there are.
pub proof fn indexes_give_what_has_the_key(
    entries: Seq<IndexEntry>,
    key: IndexKey,
    active: Seq<u32>,
    records: nat,
    count: nat,
    spare: nat,
)
    requires
        count <= entries.len(),
        spare <= active.len(),
    ensures
        ({
            let found = entries.take(count as int).filter(|entry: IndexEntry| has_key(entry, key));
            &&& keyed(entries, key, count).len() == found.len()
            &&& forall|k: int|
                0 <= k < found.len() ==> keyed(entries, key, count)[k] == (
                #[trigger] found[k]).record
        }),
        ({
            let found = active.take(spare as int).filter(|record: u32| record < records);
            &&& present(active, records, spare).len() == found.len()
            &&& forall|k: int|
                0 <= k < found.len() ==> present(active, records, spare)[k] == #[trigger] found[k]
        }),
    decreases count + spare,
{
    reveal(Seq::filter);
    if count > 0 {
        indexes_give_what_has_the_key(entries, key, active, records, (count - 1) as nat, spare);
        assert(entries.take(count as int).drop_last() =~= entries.take(count - 1));
        assert(entries.take(count as int).last() == entries[count - 1]);
    } else if spare > 0 {
        indexes_give_what_has_the_key(entries, key, active, records, count, (spare - 1) as nat);
        assert(active.take(spare as int).drop_last() =~= active.take(spare - 1));
        assert(active.take(spare as int).last() == active[spare - 1]);
    }
}

/// The cells that are sought for what is known: an entity by its number where it has a cell of its own,
/// a name by its place in its table; what the tables do not hold is missing, and so is a value of
/// the other kind.
pub proof fn known_values_are_sought_by_cell(
    names: VocabularyModel,
    entity: u64,
    index: int,
    name: Seq<char>,
    binding: Seq<BoundVariableModel>,
)
    requires
        vocabulary_ok(names),
    ensures
        entity < 0x8000_0000_0000_0000 ==> sought_term(
            names,
            TermModel::Atom(AtomModel::Entity(entity)),
            binding,
        ) == Resolved::Value(entity),
        entity >= 0x8000_0000_0000_0000 ==> sought_term(
            names,
            TermModel::Atom(AtomModel::Entity(entity)),
            binding,
        ) == Resolved::Missing,
        0 <= index < names.literals.len() ==> sought_term(
            names,
            TermModel::Atom(AtomModel::Literal(names.literals[index])),
            binding,
        ) == Resolved::Value((0x8000_0000_0000_0000 + index) as u64),
        0 <= index < names.predicates.len() ==> sought_predicate_term(
            names,
            PredicateTermModel::Predicate(names.predicates[index]),
            binding,
        ) == Resolved::Value(index as u64),
        (forall|i: int| 0 <= i < names.literals.len() ==> #[trigger] names.literals[i] != name)
            ==> sought_term(names, TermModel::Atom(AtomModel::Literal(name)), binding)
            == Resolved::Missing,
        (forall|i: int| 0 <= i < names.predicates.len() ==> #[trigger] names.predicates[i] != name)
            ==> sought_predicate_term(names, PredicateTermModel::Predicate(name), binding)
            == Resolved::Missing,
        value_of(binding, name) is None ==> sought_term(names, TermModel::Variable(name), binding)
            == Resolved::Unbound && sought_predicate_term(
            names,
            PredicateTermModel::Variable(name),
            binding,
        ) == Resolved::Unbound,
        value_of(binding, name) matches Some(BoundModel::Atom(atom)) ==> sought_term(
            names,
            TermModel::Variable(name),
            binding,
        ) == sought_term(names, TermModel::Atom(atom), binding) && sought_predicate_term(
            names,
            PredicateTermModel::Variable(name),
            binding,
        ) == Resolved::Missing,
        value_of(binding, name) matches Some(BoundModel::Predicate(own)) ==> sought_term(
            names,
            TermModel::Variable(name),
            binding,
        ) == Resolved::Missing && sought_predicate_term(
            names,
            PredicateTermModel::Variable(name),
            binding,
        ) == sought_predicate_term(names, PredicateTermModel::Predicate(own), binding),
{
    if 0 <= index < names.literals.len() {
        token_is(names.literals, index);
    }
    if 0 <= index < names.predicates.len() {
        token_is(names.predicates, index);
    }
    token_facts(names.literals, name);
    token_facts(names.predicates, name);
}

} // verus!
