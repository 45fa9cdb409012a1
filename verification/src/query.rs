//! Running a query.

use crate::epoch_io::counted_twice;
use crate::epoch_store::readable;
use crate::fact::{
    Atom, AtomModel, Fact, FactModel, Literal, Predicate, SlotId, Variable, same_text, views,
};
use crate::kernel::{Definition, DefinitionModel, Kernel, active};
use crate::ordered::{Rank, before, before_asymmetric, before_total, rank, rank_of};
use crate::query_model::{
    AnswerModel, Binding, BoundModel, BoundValue, BoundVariableModel, FactSource, Pattern,
    PatternModel, PredicateTerm, PredicateTermModel, QueryMetrics, QueryOptions, Term, TermModel,
    WalkModel, answer_rank, binding_ok, binding_rank, bound_before, chosen_index, distinct_answers,
    fact_agrees, fewest, fresh_walk, in_rank, in_turn, kept_answers, provenance_rank,
    resolved_atom_of, resolved_predicate_of, row_of, sorts, unified, unified_predicate,
    unified_term, value_of, value_rank, variable_rank, walked, walked_picks, whole_walk,
    with_value_facts,
};
use crate::world::{CandidateWorld, World};
use std::sync::Arc;
use vstd::prelude::*;
use vstd::string::*;

verus! {

/// One answer of a query.
#[derive(Debug, PartialEq, Eq)]
pub struct QueryRow {
    pub binding: Binding,
    pub provenance: Vec<SlotId>,
}

impl View for QueryRow {
    type V = AnswerModel;

    open spec fn view(&self) -> AnswerModel {
        AnswerModel { binding: self.binding@, provenance: views(self.provenance@) }
    }
}

/// What a query found.
#[derive(Debug, PartialEq, Eq)]
pub struct QueryResult {
    pub rows: Vec<QueryRow>,
    pub chosen_first_path: Vec<Pattern>,
    pub metrics: QueryMetrics,
}

/// The state of a query.
struct Walk {
    output: Vec<QueryRow>,
    first_path: Vec<Pattern>,
    metrics: QueryMetrics,
}

spec fn walk_model(walk: Walk, done: bool) -> WalkModel {
    WalkModel {
        output: views(walk.output@),
        first_path: views(walk.first_path@),
        metrics: walk.metrics,
        done,
    }
}

/// The atom that a term stands for, as far as it is known.
pub fn known_atom(term: &Term, binding: &Binding) -> (result: Option<Atom>)
    ensures
        match result {
            Some(atom) => resolved_atom_of(term@, binding@) == Some(atom@),
            None => resolved_atom_of(term@, binding@) is None,
        },
{
    match term {
        Term::Atom(atom) => Some(atom.clone()),
        Term::Variable(variable) => match binding.get(variable.as_str()) {
            Some(BoundValue::Atom(atom)) => Some(atom.clone()),
            _ => None,
        },
    }
}

/// The predicate that a term stands for, as far as it is known.
pub fn known_predicate(term: &PredicateTerm, binding: &Binding) -> (result: Option<Predicate>)
    ensures
        match result {
            Some(predicate) => resolved_predicate_of(term@, binding@) == Some(predicate@),
            None => resolved_predicate_of(term@, binding@) is None,
        },
{
    match term {
        PredicateTerm::Predicate(predicate) => Some(predicate.clone()),
        PredicateTerm::Variable(variable) => match binding.get(variable.as_str()) {
            Some(BoundValue::Predicate(predicate)) => Some(predicate.clone()),
            _ => None,
        },
    }
}

/// Unifying keeps a binding in order.
pub proof fn unified_is_ok(
    pattern: PatternModel,
    fact: FactModel,
    binding: Seq<BoundVariableModel>,
)
    requires
        binding_ok(binding),
    ensures
        unified(pattern, fact, binding) matches Some(more) ==> binding_ok(more),
        unified_term(pattern.subject, fact.subject, binding) matches Some(more) ==> binding_ok(
            more,
        ),
        unified_term(pattern.subject, fact.subject, binding) matches Some(first)
            ==> (unified_predicate(pattern.predicate, fact.predicate, first) matches Some(more)
            ==> binding_ok(more)),
{
    if let TermModel::Variable(name) = pattern.subject {
        if value_of(binding, name) is None {
            with_value_facts(binding, name, BoundModel::Atom(fact.subject));
        }
    }
    if let Some(first) = unified_term(pattern.subject, fact.subject, binding) {
        if let PredicateTermModel::Variable(name) = pattern.predicate {
            if value_of(first, name) is None {
                with_value_facts(first, name, BoundModel::Predicate(fact.predicate));
            }
        }
        if let Some(second) = unified_predicate(pattern.predicate, fact.predicate, first) {
            if let TermModel::Variable(name) = pattern.object {
                if value_of(second, name) is None {
                    with_value_facts(second, name, BoundModel::Atom(fact.object));
                }
            }
        }
    }
}

fn unify_term(term: &Term, atom: &Atom, binding: &Binding) -> (result: Option<Binding>)
    requires
        binding_ok(binding@),
    ensures
        match result {
            Some(more) => unified_term(term@, atom@, binding@) == Some(more@),
            None => unified_term(term@, atom@, binding@) is None,
        },
{
    match term {
        Term::Atom(own) => if own.same(atom) {
            Some(binding.duplicate())
        } else {
            None
        },
        Term::Variable(variable) => binding.unify_variable(
            variable.as_str(),
            BoundValue::Atom(atom.clone()),
        ),
    }
}

fn unify_predicate(term: &PredicateTerm, predicate: &Predicate, binding: &Binding) -> (result:
    Option<Binding>)
    requires
        binding_ok(binding@),
    ensures
        match result {
            Some(more) => unified_predicate(term@, predicate@, binding@) == Some(more@),
            None => unified_predicate(term@, predicate@, binding@) is None,
        },
{
    match term {
        PredicateTerm::Predicate(own) => if own.same(predicate) {
            Some(binding.duplicate())
        } else {
            None
        },
        PredicateTerm::Variable(variable) => binding.unify_variable(
            variable.as_str(),
            BoundValue::Predicate(predicate.clone()),
        ),
    }
}

/// Meets a pattern with a fact.
pub fn unify_pattern(pattern: &Pattern, fact: &Fact, binding: &Binding) -> (result: Option<
    Binding,
>)
    requires
        binding_ok(binding@),
    ensures
        match result {
            Some(more) => unified(pattern@, fact@, binding@) == Some(more@) && binding_ok(more@),
            None => unified(pattern@, fact@, binding@) is None,
        },
{
    proof {
        unified_is_ok(pattern@, fact@, binding@);
    }
    let first = unify_term(&pattern.subject, &fact.subject, binding)?;
    let second = unify_predicate(&pattern.predicate, &fact.predicate, &first)?;
    unify_term(&pattern.object, &fact.object, &second)
}

fn clone_patterns(patterns: &[Pattern]) -> (result: Vec<Pattern>)
    ensures
        views(result@) == views(patterns@),
{
    let mut output: Vec<Pattern> = Vec::new();
    let mut index: usize = 0;
    while index < patterns.len()
        invariant
            index <= patterns.len(),
            output.len() == index,
            forall|i: int| 0 <= i < index ==> (#[trigger] output@[i])@ == patterns@[i]@,
        decreases patterns.len() - index,
    {
        output.push(patterns[index].clone());
        index += 1;
    }
    proof {
        assert(views(output@) =~= views(patterns@));
    }
    output
}

fn clone_slots(slots: &Vec<SlotId>) -> (result: Vec<SlotId>)
    ensures
        views(result@) == views(slots@),
{
    let mut output: Vec<SlotId> = Vec::new();
    let mut index: usize = 0;
    while index < slots.len()
        invariant
            index <= slots.len(),
            output.len() == index,
            forall|i: int| 0 <= i < index ==> (#[trigger] output@[i])@ == slots@[i]@,
        decreases slots.len() - index,
    {
        output.push(slots[index].clone());
        index += 1;
    }
    proof {
        assert(views(output@) =~= views(slots@));
    }
    output
}

/// The pattern that is taken next.
fn choose_pattern<S: FactSource>(
    source: &S,
    patterns: &Vec<Pattern>,
    binding: &Binding,
    options: QueryOptions,
) -> (result: usize)
    requires
        source.readable(),
        binding_ok(binding@),
        patterns.len() > 0,
    ensures
        result == chosen_index(*source, views(patterns@), binding@, options),
        result < patterns.len(),
{
    if !options.optimize {
        return 0;
    }
    let ghost models = views(patterns@);
    let mut best: usize = 0;
    let mut fewest_count: usize = source.candidates(&patterns[0], binding).len();
    let mut index: usize = 1;
    while index < patterns.len()
        invariant
            source.readable(),
            binding_ok(binding@),
            models == views(patterns@),
            1 <= index <= patterns.len(),
            best < index,
            best == fewest(*source, models.take(index as int), binding@),
            fewest_count == source.picks(models[best as int], binding@).len(),
        decreases patterns.len() - index,
    {
        let count: usize = source.candidates(&patterns[index], binding).len();
        proof {
            let more = models.take(index + 1);
            assert(more.drop_last() =~= models.take(index as int));
            assert(more.last() == patterns@[index as int]@);
            assert(more[best as int] == models[best as int]);
        }
        if count < fewest_count {
            best = index;
            fewest_count = count;
        }
        index += 1;
    }
    proof {
        assert(models.take(index as int) =~= models);
    }
    best
}

/// Walks all ways to answer the remaining patterns; returns whether the limit is reached.
fn walk_query<S: FactSource>(
    source: &S,
    answer: QueryRow,
    remaining: Vec<Pattern>,
    depth: usize,
    options: QueryOptions,
    walk: &mut Walk,
) -> (result: bool)
    requires
        source.readable(),
        binding_ok(answer.binding@),
        depth + remaining.len() <= usize::MAX,
    ensures
        walk_model(*final(walk), result) == walked(
            *source,
            answer@,
            views(remaining@),
            depth as nat,
            options,
            walk_model(*old(walk), false),
        ),
    decreases 2 * remaining.len(),
{
    let ghost models = views(remaining@);
    if remaining.len() == 0 {
        let ghost before = walk.output@;
        walk.output.push(answer);
        proof {
            assert(views(walk.output@) =~= views(before).push(answer@));
        }
        return match options.limit {
            Some(limit) => walk.output.len() >= limit,
            None => false,
        };
    }
    let place: usize = choose_pattern(source, &remaining, &answer.binding, options);
    let mut rest = remaining;
    let chosen = rest.remove(place);
    proof {
        assert(views(rest@) =~= models.take(place as int) + models.skip(place + 1));
        assert(chosen@ == models[place as int]);
    }
    if depth == walk.first_path.len() {
        let ghost before = walk.first_path@;
        walk.first_path.push(chosen.clone());
        proof {
            assert(views(walk.first_path@) =~= views(before).push(chosen@));
        }
    }
    let candidates = source.candidates(&chosen, &answer.binding);
    let ghost picks = source.picks(chosen@, answer.binding@);
    proof {
        counted_twice(walk.metrics.candidate_facts, 0, candidates.len() as nat);
    }
    walk.metrics.candidate_facts = walk.metrics.candidate_facts.wrapping_add(
        candidates.len() as u64,
    );
    walk_candidates(source, &answer, &chosen, &rest, depth, options, &candidates, walk)
}

/// Tries the candidates of a pattern.
fn walk_candidates<S: FactSource>(
    source: &S,
    answer: &QueryRow,
    chosen: &Pattern,
    rest: &Vec<Pattern>,
    depth: usize,
    options: QueryOptions,
    candidates: &Vec<usize>,
    walk: &mut Walk,
) -> (result: bool)
    requires
        source.readable(),
        binding_ok(answer.binding@),
        depth + 1 + rest.len() <= usize::MAX,
        candidates.len() == source.picks(chosen@, answer.binding@).len(),
        forall|i: int|
            0 <= i < candidates.len() ==> #[trigger] candidates@[i] == source.picks(
                chosen@,
                answer.binding@,
            )[i] && source.facts().contains_key(candidates@[i] as int),
    ensures
        walk_model(*final(walk), result) == walked_picks(
            *source,
            answer@,
            chosen@,
            views(rest@),
            depth as nat,
            options,
            source.picks(chosen@, answer.binding@),
            candidates@.len(),
            walk_model(*old(walk), false),
        ),
    decreases 2 * rest.len() + 1,
{
    let ghost picks = source.picks(chosen@, answer.binding@);
    let ghost start = walk_model(*walk, false);
    let ghost models = views(rest@);
    let mut index: usize = 0;
    while index < candidates.len()
        invariant
            source.readable(),
            binding_ok(answer.binding@),
            depth + 1 + rest.len() <= usize::MAX,
            models == views(rest@),
            picks == source.picks(chosen@, answer.binding@),
            candidates.len() == picks.len(),
            forall|i: int|
                0 <= i < candidates.len() ==> #[trigger] candidates@[i] == picks[i]
                    && source.facts().contains_key(candidates@[i] as int),
            index <= candidates.len(),
            start == walk_model(*old(walk), false),
            walk_model(*walk, false) == walked_picks(
                *source,
                answer@,
                chosen@,
                models,
                depth as nat,
                options,
                picks,
                index as nat,
                start,
            ),
        decreases candidates.len() - index,
    {
        let place: usize = candidates[index];
        let fact = source.fact_at(place);
        if let Some(binding) = unify_pattern(chosen, &fact, &answer.binding) {
            proof {
                counted_twice(walk.metrics.bindings_emitted, 0, 1);
            }
            walk.metrics.bindings_emitted = walk.metrics.bindings_emitted.wrapping_add(1);
            let mut provenance = clone_slots(&answer.provenance);
            let slot = source.slot_at(place);
            let ghost before = provenance@;
            provenance.push(slot);
            proof {
                assert(views(provenance@) =~= views(before).push(slot@));
            }
            let deeper = QueryRow { binding, provenance };
            let patterns = clone_patterns(rest.as_slice());
            proof {
                assert(patterns.len() == views(patterns@).len());
                assert(rest.len() == models.len());
            }
            if walk_query(
                source,
                deeper,
                patterns,
                depth + 1,
                options,
                walk,
            ) {
                proof {
                    finished_walk_stays(
                        *source,
                        answer@,
                        chosen@,
                        models,
                        depth as nat,
                        options,
                        picks,
                        (index + 1) as nat,
                        candidates@.len(),
                        start,
                    );
                }
                return true;
            }
        }
        index += 1;
    }
    false
}

/// A walk that is done does no more.
proof fn finished_walk_stays<S: FactSource>(
    source: S,
    answer: AnswerModel,
    chosen: PatternModel,
    rest: Seq<PatternModel>,
    depth: nat,
    options: QueryOptions,
    picks: Seq<int>,
    some: nat,
    count: nat,
    state: WalkModel,
)
    requires
        some <= count,
        walked_picks(source, answer, chosen, rest, depth, options, picks, some, state).done,
    ensures
        walked_picks(source, answer, chosen, rest, depth, options, picks, count, state)
            == walked_picks(source, answer, chosen, rest, depth, options, picks, some, state),
    decreases count,
{
    if some < count {
        finished_walk_stays(
            source,
            answer,
            chosen,
            rest,
            depth,
            options,
            picks,
            some,
            (count - 1) as nat,
            state,
        );
    }
}

/// The other way round.
pub open spec fn flipped(rank: Rank) -> Rank {
    match rank {
        Rank::Before => Rank::After,
        Rank::Same => Rank::Same,
        Rank::After => Rank::Before,
    }
}

proof fn text_rank_flips(left: Seq<char>, right: Seq<char>)
    ensures
        rank_of(right, left) == flipped(rank_of(left, right)),
{
    before_total(left, right);
    if before(left, right) {
        before_asymmetric(left, right);
    }
    if before(right, left) {
        before_asymmetric(right, left);
    }
}

proof fn variable_rank_flips(left: BoundVariableModel, right: BoundVariableModel)
    ensures
        variable_rank(right, left) == flipped(variable_rank(left, right)),
{
    text_rank_flips(left.name, right.name);
    match (left.value, right.value) {
        (BoundModel::Atom(AtomModel::Literal(a)), BoundModel::Atom(AtomModel::Literal(b))) => {
            text_rank_flips(a, b);
        },
        (BoundModel::Predicate(a), BoundModel::Predicate(b)) => {
            text_rank_flips(a, b);
        },
        _ => {},
    }
}

proof fn binding_rank_flips(
    left: Seq<BoundVariableModel>,
    right: Seq<BoundVariableModel>,
    from: int,
)
    requires
        0 <= from,
    ensures
        binding_rank(right, left, from) == flipped(binding_rank(left, right, from)),
    decreases left.len() - from,
{
    if from < left.len() && from < right.len() {
        variable_rank_flips(left[from], right[from]);
        binding_rank_flips(left, right, from + 1);
    }
}

proof fn provenance_rank_flips(left: Seq<Seq<char>>, right: Seq<Seq<char>>, from: int)
    requires
        0 <= from,
    ensures
        provenance_rank(right, left, from) == flipped(provenance_rank(left, right, from)),
    decreases left.len() - from,
{
    if from < left.len() && from < right.len() {
        text_rank_flips(left[from], right[from]);
        provenance_rank_flips(left, right, from + 1);
    }
}

/// Of two answers one does not come after the other.
pub proof fn answer_rank_flips(left: AnswerModel, right: AnswerModel)
    ensures
        answer_rank(right, left) == flipped(answer_rank(left, right)),
{
    reveal(answer_rank);
    binding_rank_flips(left.binding, right.binding, 0);
    provenance_rank_flips(left.provenance, right.provenance, 0);
}

fn rank_values(left: &BoundValue, right: &BoundValue) -> (result: Rank)
    ensures
        result == value_rank(left@, right@),
{
    match (left, right) {
        (BoundValue::Atom(Atom::Entity(a)), BoundValue::Atom(Atom::Entity(b))) => if a.0 < b.0 {
            Rank::Before
        } else if a.0 == b.0 {
            Rank::Same
        } else {
            Rank::After
        },
        (BoundValue::Atom(Atom::Literal(a)), BoundValue::Atom(Atom::Literal(b))) => rank(
            a.as_str(),
            b.as_str(),
        ),
        (BoundValue::Predicate(a), BoundValue::Predicate(b)) => rank(a.as_str(), b.as_str()),
        (BoundValue::Atom(Atom::Entity(_)), _) => Rank::Before,
        (_, BoundValue::Atom(Atom::Entity(_))) => Rank::After,
        (BoundValue::Atom(_), BoundValue::Predicate(_)) => Rank::Before,
        (BoundValue::Predicate(_), BoundValue::Atom(_)) => Rank::After,
    }
}

fn rank_bindings(left: &Binding, right: &Binding) -> (result: Rank)
    ensures
        result == binding_rank(left@, right@, 0),
{
    let mut index: usize = 0;
    while index < left.len() && index < right.len()
        invariant
            index <= left@.len(),
            index <= right@.len(),
            binding_rank(left@, right@, 0) == binding_rank(left@, right@, index as int),
        decreases left@.len() - index,
    {
        let a = left.entry(index);
        let b = right.entry(index);
        match rank(a.name.as_str(), b.name.as_str()) {
            Rank::Before => return Rank::Before,
            Rank::After => return Rank::After,
            Rank::Same => match rank_values(&a.value, &b.value) {
                Rank::Before => return Rank::Before,
                Rank::After => return Rank::After,
                Rank::Same => {},
            },
        }
        index += 1;
    }
    if index >= left.len() && index >= right.len() {
        Rank::Same
    } else if index >= left.len() {
        Rank::Before
    } else {
        Rank::After
    }
}

fn rank_provenances(left: &Vec<SlotId>, right: &Vec<SlotId>) -> (result: Rank)
    ensures
        result == provenance_rank(views(left@), views(right@), 0),
{
    let ghost one = views(left@);
    let ghost other = views(right@);
    let mut index: usize = 0;
    while index < left.len() && index < right.len()
        invariant
            index <= left.len(),
            index <= right.len(),
            one == views(left@),
            other == views(right@),
            provenance_rank(one, other, 0) == provenance_rank(one, other, index as int),
        decreases left.len() - index,
    {
        proof {
            assert(one[index as int] == left@[index as int]@);
            assert(other[index as int] == right@[index as int]@);
        }
        match rank(left[index].as_str(), right[index].as_str()) {
            Rank::Before => return Rank::Before,
            Rank::After => return Rank::After,
            Rank::Same => {},
        }
        index += 1;
    }
    if index >= left.len() && index >= right.len() {
        Rank::Same
    } else if index >= left.len() {
        Rank::Before
    } else {
        Rank::After
    }
}

fn rank_answers(left: &QueryRow, right: &QueryRow) -> (result: Rank)
    ensures
        result == answer_rank(left@, right@),
{
    proof {
        reveal(answer_rank);
    }
    match rank_bindings(&left.binding, &right.binding) {
        Rank::Same => rank_provenances(&left.provenance, &right.provenance),
        other => other,
    }
}

fn same_binding(left: &Binding, right: &Binding) -> (result: bool)
    ensures
        result == (left@ == right@),
{
    if left.len() != right.len() {
        return false;
    }
    let mut index: usize = 0;
    while index < left.len()
        invariant
            index <= left@.len(),
            left@.len() == right@.len(),
            forall|i: int| 0 <= i < index ==> left@[i] == right@[i],
        decreases left@.len() - index,
    {
        let a = left.entry(index);
        let b = right.entry(index);
        if !same_text(a.name.as_str(), b.name.as_str()) || !a.value.same(&b.value) {
            return false;
        }
        index += 1;
    }
    proof {
        assert(left@ =~= right@);
    }
    true
}

/// Keeps the first answer of each binding.
fn keep_distinct(answers: Vec<QueryRow>) -> (result: Vec<QueryRow>)
    ensures
        views(result@) == distinct_answers(views(answers@)),
{
    let ghost models = views(answers@);
    let mut kept: Vec<QueryRow> = Vec::new();
    let mut index: usize = 0;
    proof {
        assert(views(kept@) =~= distinct_answers(models.take(0)));
    }
    while index < answers.len()
        invariant
            index <= answers.len(),
            models == views(answers@),
            views(kept@) == distinct_answers(models.take(index as int)),
        decreases answers.len() - index,
    {
        let answer = &answers[index];
        let ghost front = views(kept@);
        let mut seen = false;
        let mut place: usize = 0;
        while place < kept.len() && !seen
            invariant
                place <= kept.len(),
                front == views(kept@),
                seen ==> bound_before(front, answer@.binding),
                !seen ==> forall|i: int|
                    0 <= i < place ==> (#[trigger] front[i]).binding != answer@.binding,
            decreases kept.len() - place,
        {
            proof {
                assert(front[place as int] == kept@[place as int]@);
            }
            if same_binding(&kept[place].binding, &answer.binding) {
                proof {
                    assert(front[place as int].binding == answer@.binding);
                }
                seen = true;
            }
            place += 1;
        }
        proof {
            assert(models.take(index + 1).drop_last() =~= models.take(index as int));
            assert(models.take(index + 1).last() == answer@);
        }
        if !seen {
            let row = QueryRow {
                binding: answer.binding.duplicate(),
                provenance: clone_slots(&answer.provenance),
            };
            let ghost before = kept@;
            kept.push(row);
            proof {
                assert(row@ == answer@);
                assert(views(kept@) =~= views(before).push(answer@));
            }
        }
        index += 1;
    }
    proof {
        assert(models.take(index as int) =~= models);
    }
    kept
}

/// An answer that goes where it belongs keeps the order.
proof fn insertion_keeps_rank(rows: Seq<AnswerModel>, place: int, answer: AnswerModel)
    requires
        in_rank(rows),
        0 <= place <= rows.len(),
        place > 0 ==> answer_rank(rows[place - 1], answer) != Rank::After,
        place < rows.len() ==> answer_rank(rows[place], answer) == Rank::After,
    ensures
        in_rank(rows.insert(place, answer)),
        rows.insert(place, answer).to_multiset() == rows.to_multiset().insert(answer),
{
    let after = rows.insert(place, answer);
    vstd::seq_lib::to_multiset_insert(rows, place, answer);
    assert forall|i: int| 0 <= i < after.len() - 1 implies #[trigger] in_turn(after, i) by {
        if i + 1 < place {
            assert(after[i] == rows[i] && after[i + 1] == rows[i + 1]);
            assert(in_turn(rows, i));
        } else if i + 1 == place {
            assert(after[i] == rows[i]);
        } else if i == place {
            assert(after[i + 1] == rows[i]);
            answer_rank_flips(rows[i], answer);
        } else {
            assert(after[i] == rows[i - 1] && after[i + 1] == rows[i]);
            assert(in_turn(rows, i - 1));
        }
    }
}

/// Puts one answer where it belongs.
fn insert_answer(rows: &mut Vec<QueryRow>, row: QueryRow)
    requires
        in_rank(views(old(rows)@)),
    ensures
        in_rank(views(final(rows)@)),
        views(final(rows)@).to_multiset() == views(old(rows)@).to_multiset().insert(row@),
{
    let ghost before = views(rows@);
    let mut place: usize = rows.len();
    while place > 0 && matches!(rank_answers(&rows[place - 1], &row), Rank::After)
        invariant
            place <= rows.len(),
            before == views(rows@),
            place < rows.len() ==> answer_rank(before[place as int], row@) == Rank::After,
        decreases place,
    {
        place -= 1;
    }
    let ghost model = row@;
    rows.insert(place, row);
    proof {
        assert(views(rows@) =~= before.insert(place as int, model));
        insertion_keeps_rank(before, place as int, model);
    }
}

/// Puts answers in order.
fn sort_answers(answers: Vec<QueryRow>) -> (result: Vec<QueryRow>)
    ensures
        sorts(views(answers@), views(result@)),
{
    let ghost models = views(answers@);
    let mut waiting = answers;
    let mut rows: Vec<QueryRow> = Vec::new();
    proof {
        assert(views(rows@) =~= Seq::empty());
        Seq::<AnswerModel>::empty().to_multiset_ensures();
        assert(Seq::<AnswerModel>::empty().to_multiset() =~= vstd::multiset::Multiset::empty());
        assert(models.to_multiset() =~= models.to_multiset().add(
            Seq::<AnswerModel>::empty().to_multiset(),
        ));
    }
    while waiting.len() > 0
        invariant
            models.to_multiset() == views(waiting@).to_multiset().add(views(rows@).to_multiset()),
            in_rank(views(rows@)),
        decreases waiting.len(),
    {
        let ghost all = views(waiting@);
        let ghost before = views(rows@);
        if let Some(row) = waiting.pop() {
            let ghost model = row@;
            insert_answer(&mut rows, row);
            proof {
                let left = views(waiting@);
                assert(all =~= left.push(model));
                vstd::seq_lib::to_multiset_build(left, model);
                assert(left.to_multiset().insert(model).add(before.to_multiset())
                    =~= left.to_multiset().add(before.to_multiset().insert(model)));
            }
        }
    }
    proof {
        assert(views(waiting@) =~= Seq::empty());
        Seq::<AnswerModel>::empty().to_multiset_ensures();
        assert(Seq::<AnswerModel>::empty().to_multiset() =~= vstd::multiset::Multiset::empty());
        assert(models.to_multiset() =~= views(rows@).to_multiset());
    }
    rows
}

/// Drops what is not asked for.
fn finish_rows(rows: Vec<QueryRow>, include_provenance: bool) -> (result: Vec<QueryRow>)
    ensures
        result.len() == rows.len(),
        forall|i: int|
            0 <= i < rows.len() ==> (#[trigger] result@[i])@ == row_of(
                rows@[i]@,
                include_provenance,
            ),
{
    if include_provenance {
        return rows;
    }
    let mut output: Vec<QueryRow> = Vec::new();
    let mut index: usize = 0;
    while index < rows.len()
        invariant
            index <= rows.len(),
            output.len() == index,
            forall|i: int|
                0 <= i < index ==> (#[trigger] output@[i])@ == row_of(rows@[i]@, false),
        decreases rows.len() - index,
    {
        let provenance: Vec<SlotId> = Vec::new();
        proof {
            assert(views(provenance@) =~= Seq::empty());
        }
        output.push(QueryRow { binding: rows[index].binding.duplicate(), provenance });
        index += 1;
    }
    output
}

/// What a query of a source finds: the answers of its walk, thinned, in order.
pub open spec fn finds<S: FactSource>(
    source: S,
    patterns: Seq<PatternModel>,
    options: QueryOptions,
    result: QueryResult,
) -> bool {
    let walk = whole_walk(source, patterns, options);
    &&& views(result.chosen_first_path@) == walk.first_path
    &&& result.metrics == walk.metrics
    &&& exists|rows: Seq<AnswerModel>|
        {
            &&& #[trigger] sorts(kept_answers(walk.output, options.distinct), rows)
            &&& views(result.rows@) == Seq::new(
                rows.len(),
                |i: int| row_of(rows[i], options.include_provenance),
            )
        }
}

/// Walks a whole query.
fn run_walk<S: FactSource>(source: &S, patterns: &[Pattern], options: QueryOptions) -> (result:
    Walk)
    requires
        source.readable(),
    ensures
        ({
            let walk = whole_walk(*source, views(patterns@), options);
            &&& views(result.output@) == walk.output
            &&& views(result.first_path@) == walk.first_path
            &&& result.metrics == walk.metrics
        }),
{
    let mut walk = Walk {
        output: Vec::new(),
        first_path: Vec::new(),
        metrics: QueryMetrics { candidate_facts: 0, bindings_emitted: 0 },
    };
    let provenance: Vec<SlotId> = Vec::new();
    let start = QueryRow { binding: Binding::new(), provenance };
    proof {
        assert(views(provenance@) =~= Seq::empty());
        assert(views(walk.output@) =~= Seq::empty());
        assert(views(walk.first_path@) =~= Seq::empty());
        reveal(whole_walk);
        assert(walk_model(walk, false) == fresh_walk());
        assert(start@ == (AnswerModel { binding: Seq::empty(), provenance: Seq::empty() }));
    }
    let done = walk_query(source, start, clone_patterns(patterns), 0, options, &mut walk);
    proof {
        assert(walk_model(walk, done) == whole_walk(*source, views(patterns@), options));
    }
    walk
}

/// Thins and orders the answers of a walk.
fn arrange(answers: Vec<QueryRow>, options: QueryOptions) -> (result: Vec<QueryRow>)
    ensures
        exists|rows: Seq<AnswerModel>|
            {
                &&& #[trigger] sorts(kept_answers(views(answers@), options.distinct), rows)
                &&& views(result@) == Seq::new(
                    rows.len(),
                    |i: int| row_of(rows[i], options.include_provenance),
                )
            },
{
    let ghost models = views(answers@);
    let kept = if options.distinct {
        keep_distinct(answers)
    } else {
        answers
    };
    let sorted = sort_answers(kept);
    let ghost rows = views(sorted@);
    let finished = finish_rows(sorted, options.include_provenance);
    proof {
        assert(sorts(kept_answers(models, options.distinct), rows));
        assert(views(finished@) =~= Seq::new(
            rows.len(),
            |i: int| row_of(rows[i], options.include_provenance),
        ));
    }
    finished
}

/// Runs a query on a source of facts.
pub fn query_source<S: FactSource>(source: &S, patterns: &[Pattern], options: QueryOptions) -> (
    result: QueryResult)
    requires
        source.readable(),
    ensures
        finds(*source, views(patterns@), options, result),
{
    let walk = run_walk(source, patterns, options);
    QueryResult {
        rows: arrange(walk.output, options),
        chosen_first_path: walk.first_path,
        metrics: walk.metrics,
    }
}

/// The facts that agree with a pattern, among the first `count`, in their order.
pub open spec fn agreeing(
    facts: Seq<DefinitionModel>,
    pattern: PatternModel,
    binding: Seq<BoundVariableModel>,
    count: nat,
) -> Seq<int>
    decreases count,
{
    if count == 0 {
        Seq::empty()
    } else {
        let front = agreeing(facts, pattern, binding, (count - 1) as nat);
        if fact_agrees(pattern, binding, facts[count - 1].fact) {
            front.push(count - 1)
        } else {
            front
        }
    }
}

/// The active facts of a kernel.
pub struct ActiveFacts {
    active: Vec<Arc<Definition>>,
}

impl ActiveFacts {
    pub closed spec fn listed(&self) -> Seq<DefinitionModel> {
        views(self.active@)
    }

    pub fn of(kernel: &Kernel) -> (result: Self)
        ensures
            result.listed() == active(kernel@.live),
    {
        ActiveFacts { active: kernel.active() }
    }
}

fn agrees_or_unknown(known: &Option<Atom>, atom: &Atom) -> (result: bool)
    ensures
        result == (known matches Some(own) ==> own@ == atom@),
{
    match known {
        Some(own) => own.same(atom),
        None => true,
    }
}

impl FactSource for ActiveFacts {
    open spec fn facts(&self) -> Map<int, DefinitionModel> {
        Map::new(|i: int| 0 <= i < self.listed().len(), |i: int| self.listed()[i])
    }

    open spec fn picks(&self, pattern: PatternModel, binding: Seq<BoundVariableModel>) -> Seq<
        int,
    > {
        agreeing(self.listed(), pattern, binding, self.listed().len())
    }

    open spec fn readable(&self) -> bool {
        true
    }

    fn candidates(&self, pattern: &Pattern, binding: &Binding) -> (result: Vec<usize>) {
        let subject = known_atom(&pattern.subject, binding);
        let predicate = known_predicate(&pattern.predicate, binding);
        let object = known_atom(&pattern.object, binding);
        let ghost listed = self.listed();
        let mut found: Vec<usize> = Vec::new();
        let mut index: usize = 0;
        while index < self.active.len()
            invariant
                index <= self.active.len(),
                listed == self.listed(),
                listed == views(self.active@),
                match subject {
                    Some(atom) => resolved_atom_of(pattern@.subject, binding@) == Some(atom@),
                    None => resolved_atom_of(pattern@.subject, binding@) is None,
                },
                match predicate {
                    Some(name) => resolved_predicate_of(pattern@.predicate, binding@) == Some(
                        name@,
                    ),
                    None => resolved_predicate_of(pattern@.predicate, binding@) is None,
                },
                match object {
                    Some(atom) => resolved_atom_of(pattern@.object, binding@) == Some(atom@),
                    None => resolved_atom_of(pattern@.object, binding@) is None,
                },
                found.len() == agreeing(listed, pattern@, binding@, index as nat).len(),
                forall|i: int|
                    0 <= i < found.len() ==> #[trigger] found@[i] == agreeing(
                        listed,
                        pattern@,
                        binding@,
                        index as nat,
                    )[i] && found@[i] < index,
            decreases self.active.len() - index,
        {
            let fact = self.active[index].fact();
            proof {
                assert(listed[index as int] == self.active@[index as int]@);
            }
            let named = match &predicate {
                Some(name) => name.same(&fact.predicate),
                None => true,
            };
            if named && agrees_or_unknown(&subject, &fact.subject) && agrees_or_unknown(
                &object,
                &fact.object,
            ) {
                found.push(index);
            }
            index += 1;
        }
        found
    }

    fn fact_at(&self, index: usize) -> (result: Fact) {
        self.active[index].fact().clone()
    }

    fn slot_at(&self, index: usize) -> (result: SlotId) {
        self.active[index].slot().clone()
    }
}

/// What a query of live definitions finds: what it finds in the active ones.
pub open spec fn finds_active(
    live: Seq<DefinitionModel>,
    patterns: Seq<PatternModel>,
    options: QueryOptions,
    result: QueryResult,
) -> bool {
    exists|source: ActiveFacts|
        source.listed() == active(live) && #[trigger] finds(source, patterns, options, result)
}

impl Kernel {
    /// Finds all ways to answer patterns with active facts.
    pub fn query(&self, patterns: &[Pattern], options: QueryOptions) -> (result: QueryResult)
        ensures
            finds_active(self@.live, views(patterns@), options, result),
    {
        let source = ActiveFacts::of(self);
        query_source(&source, patterns, options)
    }
}

impl World {
    /// Finds all ways to answer patterns with active facts.
    pub fn query(&self, patterns: &[Pattern], options: QueryOptions) -> (result: QueryResult)
        ensures
            finds_active(self@.kernel.live, views(patterns@), options, result),
    {
        self.kernel().query(patterns, options)
    }
}

impl CandidateWorld {
    /// Finds all ways to answer patterns with the active facts of the proposed world.
    pub fn query(&self, patterns: &[Pattern], options: QueryOptions) -> (result: QueryResult)
        ensures
            finds_active(self@.kernel.live, views(patterns@), options, result),
    {
        self.kernel().query(patterns, options)
    }
}

} // verus!
