//! What a query finds does not depend on how it is run: answers are determined by the facts.

use crate::epoch_io::counted;
use crate::fact::{Atom, FactModel, Predicate, Variable};
use crate::ordered::occurs;
use crate::query_laws::{
    all_satisfiable, every_answer_is_true, every_truth_is_answered, extends, offers_what_fits,
    satisfiable, satisfied,
};
use crate::query_model::{
    AnswerModel, BoundModel, BoundVariableModel, FactSource, PatternModel, PredicateTermModel,
    QueryMetrics, QueryOptions, TermModel, WalkModel, binding_ok, bound_facts, bound_is,
    chosen_index, fewest_in_range, fresh_walk, unified, unified_predicate, unified_term, value_of,
    walked, walked_picks, whole_walk, with_value_facts,
};
use crate::snapshot_write::ascending_is_unique;
use vstd::prelude::*;

verus! {

/// A variable stands in a pattern.
pub open spec fn mentions(pattern: PatternModel, name: Seq<char>) -> bool {
    ||| pattern.subject == TermModel::Variable(name)
    ||| pattern.predicate == PredicateTermModel::Variable(name)
    ||| pattern.object == TermModel::Variable(name)
}

/// A variable stands in one of the patterns.
pub open spec fn free_in(patterns: Seq<PatternModel>, name: Seq<char>) -> bool {
    exists|k: int| 0 <= k < patterns.len() && mentions(#[trigger] patterns[k], name)
}

/// Only variables that had a value, or that stand in a pattern, have one.
spec fn binds_only(
    patterns: Seq<PatternModel>,
    start: Seq<BoundVariableModel>,
    found: Seq<BoundVariableModel>,
) -> bool {
    &&& binding_ok(found)
    &&& forall|name: Seq<char>|
        (#[trigger] value_of(found, name)) is Some ==> value_of(start, name) is Some || free_in(
            patterns,
            name,
        )
}

/// All new answers bind only what they may.
spec fn adds_bound(
    patterns: Seq<PatternModel>,
    start: Seq<BoundVariableModel>,
    before: Seq<AnswerModel>,
    after: Seq<AnswerModel>,
) -> bool {
    &&& before.len() <= after.len()
    &&& forall|j: int| 0 <= j < before.len() ==> #[trigger] after[j] == before[j]
    &&& forall|j: int|
        before.len() <= j < after.len() ==> binds_only(
            patterns,
            start,
            (#[trigger] after[j]).binding,
        )
}

/// Unifying gives values to the variables of a pattern and to no others.
proof fn unified_binds_only(
    pattern: PatternModel,
    fact: FactModel,
    binding: Seq<BoundVariableModel>,
)
    requires
        binding_ok(binding),
    ensures
        unified(pattern, fact, binding) matches Some(more) ==> {
            &&& binding_ok(more)
            &&& forall|name: Seq<char>|
                (#[trigger] value_of(more, name)) is Some ==> value_of(binding, name) is Some
                    || mentions(pattern, name)
        },
{
    if let Some(first) = unified_term(pattern.subject, fact.subject, binding) {
        if let TermModel::Variable(name) = pattern.subject {
            if value_of(binding, name) is None {
                with_value_facts(binding, name, BoundModel::Atom(fact.subject));
            }
        }
        if let Some(second) = unified_predicate(pattern.predicate, fact.predicate, first) {
            if let PredicateTermModel::Variable(name) = pattern.predicate {
                if value_of(first, name) is None {
                    with_value_facts(first, name, BoundModel::Predicate(fact.predicate));
                }
            }
            if let TermModel::Variable(name) = pattern.object {
                if value_of(second, name) is None {
                    with_value_facts(second, name, BoundModel::Atom(fact.object));
                }
            }
            if let Some(more) = unified_term(pattern.object, fact.object, second) {
                assert forall|name: Seq<char>| (#[trigger] value_of(more, name)) is Some implies
                    value_of(binding, name) is Some || mentions(pattern, name) by {
                    if !mentions(pattern, name) {
                        assert(value_of(second, name) == value_of(more, name));
                        assert(value_of(first, name) == value_of(second, name));
                        assert(value_of(binding, name) == value_of(first, name));
                    }
                }
            }
        }
    }
}

proof fn walk_binds_only<S: FactSource>(
    source: S,
    answer: AnswerModel,
    remaining: Seq<PatternModel>,
    depth: nat,
    options: QueryOptions,
    state: WalkModel,
)
    requires
        binding_ok(answer.binding),
    ensures
        adds_bound(
            remaining,
            answer.binding,
            state.output,
            walked(source, answer, remaining, depth, options, state).output,
        ),
    decreases 2 * remaining.len(), 0nat,
{
    if remaining.len() > 0 {
        let index = chosen_index(source, remaining, answer.binding, options);
        fewest_in_range(source, remaining, answer.binding);
        let chosen = remaining[index];
        let rest = remaining.take(index) + remaining.skip(index + 1);
        let picks = source.picks(chosen, answer.binding);
        let begun = WalkModel {
            first_path: if depth == state.first_path.len() {
                state.first_path.push(chosen)
            } else {
                state.first_path
            },
            metrics: QueryMetrics {
                candidate_facts: counted(state.metrics.candidate_facts, picks.len()),
                ..state.metrics
            },
            ..state
        };
        picks_bind_only(source, answer, chosen, rest, depth, options, picks, picks.len(), begun);
        let after = walked(source, answer, remaining, depth, options, state).output;
        assert forall|j: int| state.output.len() <= j < after.len() implies binds_only(
            remaining,
            answer.binding,
            (#[trigger] after[j]).binding,
        ) by {
            let all = seq![chosen] + rest;
            assert forall|name: Seq<char>| free_in(all, name) implies #[trigger] free_in(
                remaining,
                name,
            ) by {
                let k = choose|k: int| 0 <= k < all.len() && mentions(#[trigger] all[k], name);
                if k == 0 {
                    assert(mentions(remaining[index], name));
                } else if k - 1 < index {
                    assert(all[k] == remaining[k - 1]);
                } else {
                    assert(all[k] == remaining[k]);
                }
            }
            assert(binds_only(all, answer.binding, after[j].binding));
        }
    }
}

proof fn picks_bind_only<S: FactSource>(
    source: S,
    answer: AnswerModel,
    chosen: PatternModel,
    rest: Seq<PatternModel>,
    depth: nat,
    options: QueryOptions,
    picks: Seq<int>,
    count: nat,
    state: WalkModel,
)
    requires
        binding_ok(answer.binding),
        count <= picks.len(),
    ensures
        adds_bound(
            seq![chosen] + rest,
            answer.binding,
            state.output,
            walked_picks(
                source,
                answer,
                chosen,
                rest,
                depth,
                options,
                picks,
                count,
                state,
            ).output,
        ),
    decreases 2 * rest.len() + 1, count,
{
    if count > 0 {
        picks_bind_only(
            source,
            answer,
            chosen,
            rest,
            depth,
            options,
            picks,
            (count - 1) as nat,
            state,
        );
        let before = walked_picks(
            source,
            answer,
            chosen,
            rest,
            depth,
            options,
            picks,
            (count - 1) as nat,
            state,
        );
        let entry = source.facts()[picks[count - 1]];
        if !before.done {
            unified_binds_only(chosen, entry.fact, answer.binding);
            if let Some(binding) = unified(chosen, entry.fact, answer.binding) {
                let deeper = AnswerModel {
                    binding,
                    provenance: answer.provenance.push(entry.slot),
                };
                let begun = WalkModel {
                    metrics: QueryMetrics {
                        bindings_emitted: counted(before.metrics.bindings_emitted, 1),
                        ..before.metrics
                    },
                    ..before
                };
                walk_binds_only(source, deeper, rest, depth + 1, options, begun);
                let after = walked(source, deeper, rest, depth + 1, options, begun).output;
                let all = seq![chosen] + rest;
                assert forall|j: int| 0 <= j < state.output.len() implies #[trigger] after[j]
                    == state.output[j] by {
                    assert(after[j] == before.output[j]);
                }
                assert forall|j: int| state.output.len() <= j < after.len() implies binds_only(
                    all,
                    answer.binding,
                    (#[trigger] after[j]).binding,
                ) by {
                    if j < before.output.len() {
                        assert(after[j] == before.output[j]);
                    } else {
                        let found = after[j].binding;
                        assert(binds_only(rest, binding, found));
                        assert forall|name: Seq<char>|
                            (#[trigger] value_of(found, name)) is Some implies value_of(
                            answer.binding,
                            name,
                        ) is Some || free_in(all, name) by {
                            if free_in(rest, name) {
                                let k = choose|k: int|
                                    0 <= k < rest.len() && mentions(#[trigger] rest[k], name);
                                assert(all[k + 1] == rest[k]);
                                assert(mentions(all[k + 1], name));
                            } else {
                                assert(value_of(binding, name) is Some);
                                if mentions(chosen, name) {
                                    assert(mentions(all[0], name));
                                }
                            }
                        }
                    }
                }
            }
        }
    }
}

/// An answer gives a value to every variable of the patterns, and to no other.
pub proof fn answers_bind_the_variables<S: FactSource>(
    source: S,
    patterns: Seq<PatternModel>,
    options: QueryOptions,
    index: int,
    name: Seq<char>,
)
    requires
        offers_what_fits(source),
        0 <= index < whole_walk(source, patterns, options).output.len(),
    ensures
        binding_ok(whole_walk(source, patterns, options).output[index].binding),
        value_of(whole_walk(source, patterns, options).output[index].binding, name) is Some
            <==> free_in(patterns, name),
{
    let found = whole_walk(source, patterns, options).output[index].binding;
    every_answer_is_true(source, patterns, options, index);
    reveal(whole_walk);
    let start = AnswerModel { binding: Seq::empty(), provenance: Seq::empty() };
    walk_binds_only(source, start, patterns, 0, options, fresh_walk());
    assert(binds_only(patterns, start.binding, found));
    if free_in(patterns, name) {
        let k = choose|k: int| 0 <= k < patterns.len() && mentions(#[trigger] patterns[k], name);
        assert(satisfiable(source.facts(), patterns[k], found));
        let i = choose|i: int|
            source.facts().contains_key(i) && satisfied(
                patterns[k],
                found,
                #[trigger] source.facts()[i].fact,
            );
        assert(satisfied(patterns[k], found, source.facts()[i].fact));
    }
}

/// Bindings with the same values are the same.
pub proof fn values_determine_bindings(
    left: Seq<BoundVariableModel>,
    right: Seq<BoundVariableModel>,
)
    requires
        binding_ok(left),
        binding_ok(right),
        forall|name: Seq<char>| #[trigger] value_of(left, name) == value_of(right, name),
    ensures
        left == right,
{
    let names = left.map_values(|bound: BoundVariableModel| bound.name);
    let others = right.map_values(|bound: BoundVariableModel| bound.name);
    assert forall|name: Seq<char>| #[trigger] occurs(names, name) <==> occurs(others, name) by {
        bound_facts(left, name);
        bound_facts(right, name);
        if occurs(names, name) {
            let i = choose|i: int| 0 <= i < names.len() && names[i] == name;
            assert(left[i].name == name);
            assert(value_of(right, name) is Some);
            let j = choose|j: int| 0 <= j < right.len() && (#[trigger] right[j]).name == name;
            assert(others[j] == name);
        }
        if occurs(others, name) {
            let i = choose|i: int| 0 <= i < others.len() && others[i] == name;
            assert(right[i].name == name);
            assert(value_of(left, name) is Some);
            let j = choose|j: int| 0 <= j < left.len() && (#[trigger] left[j]).name == name;
            assert(names[j] == name);
        }
    }
    ascending_is_unique(names, others);
    assert forall|i: int| 0 <= i < left.len() implies left[i] == right[i] by {
        assert(names[i] == others[i]);
        bound_is(left, i);
        bound_is(right, i);
    }
    assert(left =~= right);
}

/// Two queries without a limit find the same values, in whatever order they take the patterns and
/// the facts, wherever the same values make the patterns facts of both sources.
pub proof fn equal_facts_have_equal_answers<S: FactSource, T: FactSource>(
    left: S,
    right: T,
    patterns: Seq<PatternModel>,
    options: QueryOptions,
    others: QueryOptions,
    index: int,
)
    requires
        offers_what_fits(left),
        offers_what_fits(right),
        others.limit is None,
        forall|binding: Seq<BoundVariableModel>|
            all_satisfiable(left.facts(), patterns, binding) ==> #[trigger] all_satisfiable(
                right.facts(),
                patterns,
                binding,
            ),
        0 <= index < whole_walk(left, patterns, options).output.len(),
    ensures
        exists|j: int|
            0 <= j < whole_walk(right, patterns, others).output.len() && (
            #[trigger] whole_walk(right, patterns, others).output[j]).binding == whole_walk(
                left,
                patterns,
                options,
            ).output[index].binding,
{
    let found = whole_walk(left, patterns, options).output[index].binding;
    every_answer_is_true(left, patterns, options, index);
    every_truth_is_answered(right, patterns, others, found);
    let output = whole_walk(right, patterns, others).output;
    let j = choose|j: int| 0 <= j < output.len() && extends((#[trigger] output[j]).binding, found);
    let other = output[j].binding;
    assert forall|name: Seq<char>| #[trigger] value_of(other, name) == value_of(found, name) by {
        answers_bind_the_variables(left, patterns, options, index, name);
        answers_bind_the_variables(right, patterns, others, j, name);
    }
    answers_bind_the_variables(left, patterns, options, index, Seq::empty());
    answers_bind_the_variables(right, patterns, others, j, Seq::empty());
    values_determine_bindings(other, found);
}

/// Which pattern is taken first changes nothing that a query without a limit finds.
pub proof fn optimizing_keeps_answers<S: FactSource>(
    source: S,
    patterns: Seq<PatternModel>,
    options: QueryOptions,
    others: QueryOptions,
    index: int,
)
    requires
        offers_what_fits(source),
        others.limit is None,
        0 <= index < whole_walk(source, patterns, options).output.len(),
    ensures
        exists|j: int|
            0 <= j < whole_walk(source, patterns, others).output.len() && (
            #[trigger] whole_walk(source, patterns, others).output[j]).binding == whole_walk(
                source,
                patterns,
                options,
            ).output[index].binding,
{
    equal_facts_have_equal_answers(source, source, patterns, options, others, index);
}

} // verus!
