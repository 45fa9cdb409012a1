//! What a query asks for and what it finds.

use crate::epoch_io::counted;
use crate::epoch_store::readable;
use crate::fact::{
    Atom, AtomModel, Fact, FactModel, Literal, Predicate, SlotId, Variable, same_text, views,
};
use crate::kernel::DefinitionModel;
use crate::ordered::{
    Rank, before, before_asymmetric, before_irreflexive, before_total, before_transitive, rank,
    rank_of,
};
use vstd::prelude::*;
use vstd::string::*;

verus! {

/// A place of a pattern that an atom fills.
#[derive(Debug, PartialEq, Eq)]
pub enum Term {
    Atom(Atom),
    Variable(Variable),
}

pub enum TermModel {
    Atom(AtomModel),
    Variable(Seq<char>),
}

impl View for Term {
    type V = TermModel;

    open spec fn view(&self) -> TermModel {
        match self {
            Term::Atom(atom) => TermModel::Atom(atom@),
            Term::Variable(variable) => TermModel::Variable(variable@),
        }
    }
}

impl Clone for Term {
    fn clone(&self) -> (result: Self)
        ensures
            result@ == self@,
    {
        match self {
            Term::Atom(atom) => Term::Atom(atom.clone()),
            Term::Variable(variable) => Term::Variable(variable.clone()),
        }
    }
}

/// The place of a pattern that a predicate fills.
#[derive(Debug, PartialEq, Eq)]
pub enum PredicateTerm {
    Predicate(Predicate),
    Variable(Variable),
}

pub enum PredicateTermModel {
    Predicate(Seq<char>),
    Variable(Seq<char>),
}

impl View for PredicateTerm {
    type V = PredicateTermModel;

    open spec fn view(&self) -> PredicateTermModel {
        match self {
            PredicateTerm::Predicate(predicate) => PredicateTermModel::Predicate(predicate@),
            PredicateTerm::Variable(variable) => PredicateTermModel::Variable(variable@),
        }
    }
}

impl Clone for PredicateTerm {
    fn clone(&self) -> (result: Self)
        ensures
            result@ == self@,
    {
        match self {
            PredicateTerm::Predicate(predicate) => PredicateTerm::Predicate(predicate.clone()),
            PredicateTerm::Variable(variable) => PredicateTerm::Variable(variable.clone()),
        }
    }
}

/// A fact with variables.
#[derive(Debug, PartialEq, Eq)]
pub struct Pattern {
    pub subject: Term,
    pub predicate: PredicateTerm,
    pub object: Term,
}

pub struct PatternModel {
    pub subject: TermModel,
    pub predicate: PredicateTermModel,
    pub object: TermModel,
}

impl View for Pattern {
    type V = PatternModel;

    open spec fn view(&self) -> PatternModel {
        PatternModel {
            subject: self.subject@,
            predicate: self.predicate@,
            object: self.object@,
        }
    }
}

impl Clone for Pattern {
    fn clone(&self) -> (result: Self)
        ensures
            result@ == self@,
    {
        Pattern {
            subject: self.subject.clone(),
            predicate: self.predicate.clone(),
            object: self.object.clone(),
        }
    }
}

impl Pattern {
    pub fn new(subject: Term, predicate: PredicateTerm, object: Term) -> (result: Self)
        ensures
            result@ == (PatternModel {
                subject: subject@,
                predicate: predicate@,
                object: object@,
            }),
    {
        Pattern { subject, predicate, object }
    }
}

/// What a variable stands for.
#[derive(Debug, PartialEq, Eq)]
pub enum BoundValue {
    Atom(Atom),
    Predicate(Predicate),
}

pub enum BoundModel {
    Atom(AtomModel),
    Predicate(Seq<char>),
}

impl View for BoundValue {
    type V = BoundModel;

    open spec fn view(&self) -> BoundModel {
        match self {
            BoundValue::Atom(atom) => BoundModel::Atom(atom@),
            BoundValue::Predicate(predicate) => BoundModel::Predicate(predicate@),
        }
    }
}

impl Clone for BoundValue {
    fn clone(&self) -> (result: Self)
        ensures
            result@ == self@,
    {
        match self {
            BoundValue::Atom(atom) => BoundValue::Atom(atom.clone()),
            BoundValue::Predicate(predicate) => BoundValue::Predicate(predicate.clone()),
        }
    }
}

impl BoundValue {
    pub fn same(&self, other: &Self) -> (result: bool)
        ensures
            result == (self@ == other@),
    {
        match (self, other) {
            (BoundValue::Atom(left), BoundValue::Atom(right)) => left.same(right),
            (BoundValue::Predicate(left), BoundValue::Predicate(right)) => left.same(right),
            _ => false,
        }
    }
}

/// The variables that have values, in ascending order of their names.
#[derive(Debug, PartialEq, Eq)]
pub struct Binding {
    entries: Vec<BoundVariable>,
}

/// A variable and its value.
#[derive(Debug, PartialEq, Eq)]
pub struct BoundVariable {
    pub name: String,
    pub value: BoundValue,
}

pub struct BoundVariableModel {
    pub name: Seq<char>,
    pub value: BoundModel,
}

impl View for BoundVariable {
    type V = BoundVariableModel;

    open spec fn view(&self) -> BoundVariableModel {
        BoundVariableModel { name: self.name@, value: self.value@ }
    }
}

impl View for Binding {
    type V = Seq<BoundVariableModel>;

    closed spec fn view(&self) -> Seq<BoundVariableModel> {
        views(self.entries@)
    }
}

/// Every variable has one value, and the names ascend.
pub open spec fn binding_ok(binding: Seq<BoundVariableModel>) -> bool {
    forall|i: int, j: int|
        0 <= i < j < binding.len() ==> before(
            (#[trigger] binding[i]).name,
            (#[trigger] binding[j]).name,
        )
}

/// The value of a variable.
pub open spec fn value_of(binding: Seq<BoundVariableModel>, name: Seq<char>) -> Option<BoundModel>
    decreases binding.len(),
{
    if binding.len() == 0 {
        None
    } else if binding.last().name == name {
        Some(binding.last().value)
    } else {
        value_of(binding.drop_last(), name)
    }
}

/// Where the name belongs.
pub open spec fn place_of(binding: Seq<BoundVariableModel>, name: Seq<char>) -> int
    decreases binding.len(),
{
    if binding.len() == 0 {
        0
    } else if before(binding.last().name, name) {
        binding.len() as int
    } else {
        place_of(binding.drop_last(), name)
    }
}

/// One more variable has a value.
pub open spec fn with_value(
    binding: Seq<BoundVariableModel>,
    name: Seq<char>,
    value: BoundModel,
) -> Seq<BoundVariableModel> {
    binding.insert(place_of(binding, name), BoundVariableModel { name, value })
}

pub proof fn bound_facts(binding: Seq<BoundVariableModel>, name: Seq<char>)
    ensures
        match value_of(binding, name) {
            Some(value) => exists|i: int|
                0 <= i < binding.len() && #[trigger] binding[i] == (BoundVariableModel {
                    name,
                    value,
                }),
            None => forall|i: int| 0 <= i < binding.len() ==> (#[trigger] binding[i]).name != name,
        },
    decreases binding.len(),
{
    if binding.len() > 0 {
        let front = binding.drop_last();
        bound_facts(front, name);
        if binding.last().name == name {
            assert(binding[binding.len() - 1].name == name);
        } else {
            match value_of(front, name) {
                Some(value) => {
                    let i = choose|i: int|
                        0 <= i < front.len() && #[trigger] front[i] == (BoundVariableModel {
                            name,
                            value,
                        });
                    assert(binding[i] == (BoundVariableModel { name, value }));
                },
                None => {
                    assert forall|i: int| 0 <= i < binding.len() implies (
                    #[trigger] binding[i]).name != name by {
                        if i < front.len() {
                            assert(front[i].name != name);
                        }
                    }
                },
            }
        }
    }
}

/// A variable that stands in a binding has the value that stands there.
pub proof fn bound_is(binding: Seq<BoundVariableModel>, index: int)
    requires
        binding_ok(binding),
        0 <= index < binding.len(),
    ensures
        value_of(binding, binding[index].name) == Some(binding[index].value),
    decreases binding.len(),
{
    if index < binding.len() - 1 {
        let last = binding.len() - 1;
        assert(before(binding[index].name, binding[last].name));
        before_asymmetric(binding[index].name, binding[last].name);
        let front = binding.drop_last();
        assert forall|i: int, j: int| 0 <= i < j < front.len() implies before(
            (#[trigger] front[i]).name,
            (#[trigger] front[j]).name,
        ) by {
            assert(before(binding[i].name, binding[j].name));
        }
        bound_is(front, index);
        assert(front[index] == binding[index]);
    }
}

pub proof fn place_facts(binding: Seq<BoundVariableModel>, name: Seq<char>)
    requires
        binding_ok(binding),
        value_of(binding, name) is None,
    ensures
        0 <= place_of(binding, name) <= binding.len(),
        forall|i: int|
            0 <= i < place_of(binding, name) ==> before((#[trigger] binding[i]).name, name),
        forall|i: int|
            place_of(binding, name) <= i < binding.len() ==> before(
                name,
                (#[trigger] binding[i]).name,
            ),
    decreases binding.len(),
{
    if binding.len() > 0 {
        let last = binding.len() - 1;
        let front = binding.drop_last();
        assert forall|i: int, j: int| 0 <= i < j < front.len() implies before(
            (#[trigger] front[i]).name,
            (#[trigger] front[j]).name,
        ) by {
            assert(before(binding[i].name, binding[j].name));
        }
        if before(binding.last().name, name) {
            assert forall|i: int| 0 <= i < binding.len() implies before(
                (#[trigger] binding[i]).name,
                name,
            ) by {
                if i < last {
                    assert(before(binding[i].name, binding[last].name));
                    before_transitive(binding[i].name, binding[last].name, name);
                }
            }
        } else {
            place_facts(front, name);
            before_total(binding.last().name, name);
            let place = place_of(front, name);
            assert forall|i: int| 0 <= i < place implies before(
                (#[trigger] binding[i]).name,
                name,
            ) by {
                assert(front[i] == binding[i]);
            }
            assert forall|i: int| place <= i < binding.len() implies before(
                name,
                (#[trigger] binding[i]).name,
            ) by {
                if i < last {
                    assert(front[i] == binding[i]);
                }
            }
        }
    }
}

/// One more value changes no other.
pub proof fn with_value_facts(
    binding: Seq<BoundVariableModel>,
    name: Seq<char>,
    value: BoundModel,
)
    requires
        binding_ok(binding),
        value_of(binding, name) is None,
    ensures
        binding_ok(with_value(binding, name, value)),
        value_of(with_value(binding, name, value), name) == Some(value),
        forall|other: Seq<char>|
            other != name ==> #[trigger] value_of(with_value(binding, name, value), other) == value_of(
                binding,
                other,
            ),
{
    let more = with_value(binding, name, value);
    let place = place_of(binding, name);
    place_facts(binding, name);
    assert forall|i: int, j: int| 0 <= i < j < more.len() implies before(
        (#[trigger] more[i]).name,
        (#[trigger] more[j]).name,
    ) by {
        let a = if i < place {
            i
        } else {
            i - 1
        };
        let b = if j < place {
            j
        } else {
            j - 1
        };
        if i == place {
            assert(more[j] == binding[b]);
        } else if j == place {
            assert(more[i] == binding[a]);
        } else {
            assert(more[i] == binding[a]);
            assert(more[j] == binding[b]);
            assert(before(binding[a].name, binding[b].name));
        }
    }
    assert(more[place] == (BoundVariableModel { name, value }));
    bound_is(more, place);
    assert forall|other: Seq<char>| other != name implies #[trigger] value_of(more, other) == value_of(
        binding,
        other,
    ) by {
        bound_facts(binding, other);
        bound_facts(more, other);
        match value_of(binding, other) {
            Some(found) => {
                let i = choose|i: int|
                    0 <= i < binding.len() && #[trigger] binding[i] == (BoundVariableModel {
                        name: other,
                        value: found,
                    });
                if i < place {
                    assert(more[i] == binding[i]);
                    bound_is(more, i);
                } else {
                    assert(more[i + 1] == binding[i]);
                    bound_is(more, i + 1);
                }
            },
            None => match value_of(more, other) {
                Some(found) => {
                    let i = choose|i: int|
                        0 <= i < more.len() && #[trigger] more[i] == (BoundVariableModel {
                            name: other,
                            value: found,
                        });
                    if i < place {
                        assert(binding[i] == more[i]);
                    } else if i > place {
                        assert(binding[i - 1] == more[i]);
                    }
                },
                None => {},
            },
        }
    }
}

/// The atom that a term stands for, as far as it is known.
pub open spec fn resolved_atom_of(
    term: TermModel,
    binding: Seq<BoundVariableModel>,
) -> Option<AtomModel> {
    match term {
        TermModel::Atom(atom) => Some(atom),
        TermModel::Variable(name) => match value_of(binding, name) {
            Some(BoundModel::Atom(atom)) => Some(atom),
            _ => None,
        },
    }
}

/// The predicate that a term stands for, as far as it is known.
pub open spec fn resolved_predicate_of(
    term: PredicateTermModel,
    binding: Seq<BoundVariableModel>,
) -> Option<Seq<char>> {
    match term {
        PredicateTermModel::Predicate(predicate) => Some(predicate),
        PredicateTermModel::Variable(name) => match value_of(binding, name) {
            Some(BoundModel::Predicate(predicate)) => Some(predicate),
            _ => None,
        },
    }
}

/// A fact agrees with what is known of a pattern.
pub open spec fn fact_agrees(
    pattern: PatternModel,
    binding: Seq<BoundVariableModel>,
    fact: FactModel,
) -> bool {
    &&& resolved_atom_of(pattern.subject, binding) matches Some(atom) ==> atom == fact.subject
    &&& resolved_predicate_of(pattern.predicate, binding) matches Some(predicate) ==> predicate
        == fact.predicate
    &&& resolved_atom_of(pattern.object, binding) matches Some(atom) ==> atom == fact.object
}

/// A variable meets a value.
pub open spec fn unified_variable(
    name: Seq<char>,
    value: BoundModel,
    binding: Seq<BoundVariableModel>,
) -> Option<Seq<BoundVariableModel>> {
    match value_of(binding, name) {
        Some(existing) => if existing == value {
            Some(binding)
        } else {
            None
        },
        None => Some(with_value(binding, name, value)),
    }
}

pub open spec fn unified_term(
    term: TermModel,
    atom: AtomModel,
    binding: Seq<BoundVariableModel>,
) -> Option<Seq<BoundVariableModel>> {
    match term {
        TermModel::Atom(own) => if own == atom {
            Some(binding)
        } else {
            None
        },
        TermModel::Variable(name) => unified_variable(name, BoundModel::Atom(atom), binding),
    }
}

pub open spec fn unified_predicate(
    term: PredicateTermModel,
    predicate: Seq<char>,
    binding: Seq<BoundVariableModel>,
) -> Option<Seq<BoundVariableModel>> {
    match term {
        PredicateTermModel::Predicate(own) => if own == predicate {
            Some(binding)
        } else {
            None
        },
        PredicateTermModel::Variable(name) => unified_variable(
            name,
            BoundModel::Predicate(predicate),
            binding,
        ),
    }
}

/// A pattern meets a fact.
pub open spec fn unified(
    pattern: PatternModel,
    fact: FactModel,
    binding: Seq<BoundVariableModel>,
) -> Option<Seq<BoundVariableModel>> {
    match unified_term(pattern.subject, fact.subject, binding) {
        None => None,
        Some(first) => match unified_predicate(pattern.predicate, fact.predicate, first) {
            None => None,
            Some(second) => unified_term(pattern.object, fact.object, second),
        },
    }
}

/// How a query is run.
#[derive(Clone, Copy, Debug, PartialEq, Eq, Structural)]
pub struct QueryOptions {
    /// Take the pattern with the fewest candidates first.
    pub optimize: bool,
    /// Keep one row of each binding.
    pub distinct: bool,
    pub include_provenance: bool,
    pub limit: Option<usize>,
}

/// What a query did.
#[derive(Clone, Copy, Debug, PartialEq, Eq, Structural)]
pub struct QueryMetrics {
    pub candidate_facts: u64,
    pub bindings_emitted: u64,
}

/// A partial answer: the values so far, and the slots that gave them.
pub struct AnswerModel {
    pub binding: Seq<BoundVariableModel>,
    pub provenance: Seq<Seq<char>>,
}

/// The state of a query.
pub struct WalkModel {
    pub output: Seq<AnswerModel>,
    pub first_path: Seq<PatternModel>,
    pub metrics: QueryMetrics,
    pub done: bool,
}

/// Where the facts of a query come from.
pub trait FactSource: Sized {
    /// The facts and their slots, by number.
    spec fn facts(&self) -> Map<int, DefinitionModel>;

    /// Which facts are tried for a pattern, in which order.
    spec fn picks(&self, pattern: PatternModel, binding: Seq<BoundVariableModel>) -> Seq<int>;

    /// The source can be read.
    spec fn readable(&self) -> bool;

    fn candidates(&self, pattern: &Pattern, binding: &Binding) -> (result: Vec<usize>)
        requires
            self.readable(),
            binding_ok(binding@),
        ensures
            result.len() == self.picks(pattern@, binding@).len(),
            forall|i: int|
                0 <= i < result.len() ==> #[trigger] result@[i] == self.picks(
                    pattern@,
                    binding@,
                )[i] && self.facts().contains_key(result@[i] as int),
    ;

    fn fact_at(&self, index: usize) -> (result: Fact)
        requires
            self.readable(),
            self.facts().contains_key(index as int),
        ensures
            result@ == self.facts()[index as int].fact,
    ;

    fn slot_at(&self, index: usize) -> (result: SlotId)
        requires
            self.readable(),
            self.facts().contains_key(index as int),
        ensures
            result@ == self.facts()[index as int].slot,
    ;
}

/// The first of the patterns with the fewest candidates.
pub open spec fn fewest<S: FactSource>(
    source: S,
    patterns: Seq<PatternModel>,
    binding: Seq<BoundVariableModel>,
) -> int
    decreases patterns.len(),
{
    if patterns.len() <= 1 {
        0
    } else {
        let front = fewest(source, patterns.drop_last(), binding);
        if source.picks(patterns.last(), binding).len() < source.picks(
            patterns[front],
            binding,
        ).len() {
            patterns.len() - 1
        } else {
            front
        }
    }
}

/// The pattern that is taken next.
pub open spec fn chosen_index<S: FactSource>(
    source: S,
    patterns: Seq<PatternModel>,
    binding: Seq<BoundVariableModel>,
    options: QueryOptions,
) -> int {
    if options.optimize {
        fewest(source, patterns, binding)
    } else {
        0
    }
}

pub proof fn fewest_in_range<S: FactSource>(
    source: S,
    patterns: Seq<PatternModel>,
    binding: Seq<BoundVariableModel>,
)
    requires
        patterns.len() > 0,
    ensures
        0 <= fewest(source, patterns, binding) < patterns.len(),
    decreases patterns.len(),
{
    if patterns.len() > 1 {
        fewest_in_range(source, patterns.drop_last(), binding);
    }
}

/// Walks all ways to answer the remaining patterns.
pub open spec fn walked<S: FactSource>(
    source: S,
    answer: AnswerModel,
    remaining: Seq<PatternModel>,
    depth: nat,
    options: QueryOptions,
    state: WalkModel,
) -> WalkModel
    decreases 2 * remaining.len(), 0nat,
{
    if remaining.len() == 0 {
        let output = state.output.push(answer);
        WalkModel {
            output,
            done: options.limit matches Some(limit) && output.len() >= limit,
            ..state
        }
    } else {
        let index = chosen_index(source, remaining, answer.binding, options);
        let chosen = remaining[index];
        let rest = remaining.take(index) + remaining.skip(index + 1);
        let picks = source.picks(chosen, answer.binding);
        let begun = WalkModel {
            first_path: if depth == state.first_path.len() {
                state.first_path.push(chosen)
            } else {
                state.first_path
            },
            metrics: QueryMetrics {
                candidate_facts: counted(state.metrics.candidate_facts, picks.len()),
                ..state.metrics
            },
            ..state
        };
        if rest.len() < remaining.len() {
            walked_picks(source, answer, chosen, rest, depth, options, picks, picks.len(), begun)
        } else {
            begun
        }
    }
}

/// Tries the first `count` picks for a pattern.
pub open spec fn walked_picks<S: FactSource>(
    source: S,
    answer: AnswerModel,
    chosen: PatternModel,
    rest: Seq<PatternModel>,
    depth: nat,
    options: QueryOptions,
    picks: Seq<int>,
    count: nat,
    state: WalkModel,
) -> WalkModel
    decreases 2 * rest.len() + 1, count,
{
    if count == 0 {
        state
    } else {
        let before = walked_picks(
            source,
            answer,
            chosen,
            rest,
            depth,
            options,
            picks,
            (count - 1) as nat,
            state,
        );
        if before.done {
            before
        } else {
            let entry = source.facts()[picks[count - 1]];
            match unified(chosen, entry.fact, answer.binding) {
                None => before,
                Some(binding) => walked(
                    source,
                    AnswerModel { binding, provenance: answer.provenance.push(entry.slot) },
                    rest,
                    depth + 1,
                    options,
                    WalkModel {
                        metrics: QueryMetrics {
                            bindings_emitted: counted(before.metrics.bindings_emitted, 1),
                            ..before.metrics
                        },
                        ..before
                    },
                ),
            }
        }
    }
}

/// Nothing done yet.
pub open spec fn fresh_walk() -> WalkModel {
    WalkModel {
        output: Seq::empty(),
        first_path: Seq::empty(),
        metrics: QueryMetrics { candidate_facts: 0, bindings_emitted: 0 },
        done: false,
    }
}

/// The whole walk of a query.
#[verifier::opaque]
pub open spec fn whole_walk<S: FactSource>(
    source: S,
    patterns: Seq<PatternModel>,
    options: QueryOptions,
) -> WalkModel {
    walked(
        source,
        AnswerModel { binding: Seq::empty(), provenance: Seq::empty() },
        patterns,
        0,
        options,
        fresh_walk(),
    )
}

/// An earlier answer has the same binding.
pub open spec fn bound_before(
    answers: Seq<AnswerModel>,
    binding: Seq<BoundVariableModel>,
) -> bool {
    exists|i: int| 0 <= i < answers.len() && (#[trigger] answers[i]).binding == binding
}

/// The first answer of each binding.
pub open spec fn distinct_answers(answers: Seq<AnswerModel>) -> Seq<AnswerModel>
    decreases answers.len(),
{
    if answers.len() == 0 {
        Seq::empty()
    } else {
        let front = distinct_answers(answers.drop_last());
        if bound_before(front, answers.last().binding) {
            front
        } else {
            front.push(answers.last())
        }
    }
}

/// The rank of one value against another.
pub open spec fn value_rank(left: BoundModel, right: BoundModel) -> Rank {
    match (left, right) {
        (BoundModel::Atom(AtomModel::Entity(a)), BoundModel::Atom(AtomModel::Entity(b))) => if a
            < b {
            Rank::Before
        } else if a == b {
            Rank::Same
        } else {
            Rank::After
        },
        (BoundModel::Atom(AtomModel::Literal(a)), BoundModel::Atom(AtomModel::Literal(b))) =>
            rank_of(a, b),
        (BoundModel::Predicate(a), BoundModel::Predicate(b)) => rank_of(a, b),
        (BoundModel::Atom(AtomModel::Entity(_)), _) => Rank::Before,
        (_, BoundModel::Atom(AtomModel::Entity(_))) => Rank::After,
        (BoundModel::Atom(_), BoundModel::Predicate(_)) => Rank::Before,
        (BoundModel::Predicate(_), BoundModel::Atom(_)) => Rank::After,
    }
}

pub open spec fn variable_rank(left: BoundVariableModel, right: BoundVariableModel) -> Rank {
    match rank_of(left.name, right.name) {
        Rank::Same => value_rank(left.value, right.value),
        other => other,
    }
}

/// The rank of one binding against another, from a place on: variable by variable, and a binding
/// before one that goes on.
pub open spec fn binding_rank(
    left: Seq<BoundVariableModel>,
    right: Seq<BoundVariableModel>,
    from: int,
) -> Rank
    decreases left.len() - from,
{
    if from >= left.len() && from >= right.len() {
        Rank::Same
    } else if from >= left.len() {
        Rank::Before
    } else if from >= right.len() {
        Rank::After
    } else {
        match variable_rank(left[from], right[from]) {
            Rank::Same => binding_rank(left, right, from + 1),
            other => other,
        }
    }
}

/// The rank of one list of slots against another.
pub open spec fn provenance_rank(left: Seq<Seq<char>>, right: Seq<Seq<char>>, from: int) -> Rank
    decreases left.len() - from,
{
    if from >= left.len() && from >= right.len() {
        Rank::Same
    } else if from >= left.len() {
        Rank::Before
    } else if from >= right.len() {
        Rank::After
    } else {
        match rank_of(left[from], right[from]) {
            Rank::Same => provenance_rank(left, right, from + 1),
            other => other,
        }
    }
}

/// The rank of one answer against another: by binding, and by provenance.
#[verifier::opaque]
pub open spec fn answer_rank(left: AnswerModel, right: AnswerModel) -> Rank {
    match binding_rank(left.binding, right.binding, 0) {
        Rank::Same => provenance_rank(left.provenance, right.provenance, 0),
        other => other,
    }
}

/// An answer does not come after the next.
pub open spec fn in_turn(rows: Seq<AnswerModel>, index: int) -> bool {
    answer_rank(rows[index], rows[index + 1]) != Rank::After
}

/// Answers are in order.
pub open spec fn in_rank(rows: Seq<AnswerModel>) -> bool {
    forall|i: int| 0 <= i < rows.len() - 1 ==> #[trigger] in_turn(rows, i)
}

/// The rows are the answers in order.
pub open spec fn sorts(answers: Seq<AnswerModel>, rows: Seq<AnswerModel>) -> bool {
    &&& rows.to_multiset() == answers.to_multiset()
    &&& in_rank(rows)
}

/// The answers that a query keeps.
pub open spec fn kept_answers(answers: Seq<AnswerModel>, distinct: bool) -> Seq<AnswerModel> {
    if distinct {
        distinct_answers(answers)
    } else {
        answers
    }
}

/// The row of an answer.
pub open spec fn row_of(answer: AnswerModel, include_provenance: bool) -> AnswerModel {
    AnswerModel {
        provenance: if include_provenance {
            answer.provenance
        } else {
            Seq::empty()
        },
        ..answer
    }
}

impl Binding {
    pub fn new() -> (result: Self)
        ensures
            result@ == Seq::<BoundVariableModel>::empty(),
            binding_ok(result@),
    {
        let result = Binding { entries: Vec::new() };
        proof {
            assert(result@ =~= Seq::empty());
        }
        result
    }

    /// How many variables have a value.
    pub fn len(&self) -> (result: usize)
        ensures
            result == self@.len(),
    {
        self.entries.len()
    }

    /// One of the variables.
    pub fn entry(&self, index: usize) -> (result: &BoundVariable)
        requires
            index < self@.len(),
        ensures
            result@ == self@[index as int],
    {
        &self.entries[index]
    }

    /// The value of a variable.
    pub fn get(&self, name: &str) -> (result: Option<&BoundValue>)
        ensures
            match result {
                Some(value) => value_of(self@, name@) == Some(value@),
                None => value_of(self@, name@) is None,
            },
    {
        let mut index: usize = self.entries.len();
        let ghost all = views(self.entries@);
        proof {
            assert(all.take(index as int) =~= all);
        }
        while index > 0
            invariant
                index <= self.entries.len(),
                all == views(self.entries@),
                value_of(all, name@) == value_of(all.take(index as int), name@),
            decreases index,
        {
            let entry = &self.entries[index - 1];
            proof {
                assert(all.take(index as int).drop_last() =~= all.take(index - 1));
                assert(all.take(index as int).last() == entry@);
            }
            if same_text(entry.name.as_str(), name) {
                return Some(&entry.value);
            }
            index -= 1;
        }
        None
    }

    pub fn duplicate(&self) -> (result: Self)
        ensures
            result@ == self@,
    {
        let mut entries: Vec<BoundVariable> = Vec::new();
        let mut index: usize = 0;
        while index < self.entries.len()
            invariant
                index <= self.entries.len(),
                entries.len() == index,
                forall|i: int| 0 <= i < index ==> (#[trigger] entries@[i])@ == self.entries@[i]@,
            decreases self.entries.len() - index,
        {
            let entry = &self.entries[index];
            entries.push(BoundVariable { name: entry.name.clone(), value: entry.value.clone() });
            index += 1;
        }
        let result = Binding { entries };
        proof {
            assert(result@ =~= self@);
        }
        result
    }

    /// Gives a value to a variable that has none.
    fn insert(&mut self, name: &str, value: BoundValue)
        requires
            binding_ok(old(self)@),
            value_of(old(self)@, name@) is None,
        ensures
            final(self)@ == with_value(old(self)@, name@, value@),
    {
        let ghost all = views(self.entries@);
        let mut place: usize = self.entries.len();
        proof {
            assert(all.take(place as int) =~= all);
            place_facts(all, name@);
        }
        while place > 0 && !matches!(rank(self.entries[place - 1].name.as_str(), name), Rank::Before)
            invariant
                place <= self.entries.len(),
                all == views(self.entries@),
                all == old(self)@,
                place_of(all, name@) == place_of(all.take(place as int), name@),
            decreases place,
        {
            proof {
                assert(all.take(place as int).drop_last() =~= all.take(place - 1));
                assert(all.take(place as int).last() == self.entries@[place - 1]@);
                before_irreflexive(name@);
            }
            place -= 1;
        }
        proof {
            if place > 0 {
                assert(all.take(place as int).last() == self.entries@[place - 1]@);
            }
            assert(place_of(all, name@) == place);
        }
        let entry = BoundVariable { name: name.to_owned(), value };
        let ghost added = entry@;
        self.entries.insert(place, entry);
        proof {
            assert(views(self.entries@) =~= all.insert(place as int, added));
        }
    }

    /// Meets a variable with a value.
    pub fn unify_variable(&self, name: &str, value: BoundValue) -> (result: Option<Self>)
        requires
            binding_ok(self@),
        ensures
            match result {
                Some(binding) => unified_variable(name@, value@, self@) == Some(binding@),
                None => unified_variable(name@, value@, self@) is None,
            },
    {
        match self.get(name) {
            Some(existing) => if existing.same(&value) {
                Some(self.duplicate())
            } else {
                None
            },
            None => {
                let mut extended = self.duplicate();
                extended.insert(name, value);
                Some(extended)
            },
        }
    }
}

} // verus!
