//! What holds of every answer.

use crate::epoch_io::counted;
use crate::fact::{Atom, AtomModel, FactModel, Predicate, Variable};
use crate::kernel::DefinitionModel;
use crate::query::{ActiveFacts, agreeing};
use crate::query_model::{
    AnswerModel, BoundModel, BoundVariableModel, FactSource, PatternModel, PredicateTermModel,
    QueryMetrics, QueryOptions, TermModel, WalkModel, binding_ok, chosen_index, fact_agrees,
    fewest_in_range, fresh_walk, unified, unified_predicate, unified_term, unified_variable,
    value_of, walked, walked_picks, whole_walk, with_value, with_value_facts,
};
use vstd::prelude::*;
use vstd::string::*;

verus! {

/// A term stands for an atom.
pub open spec fn term_is(
    term: TermModel,
    binding: Seq<BoundVariableModel>,
    atom: AtomModel,
) -> bool {
    match term {
        TermModel::Atom(own) => own == atom,
        TermModel::Variable(name) => value_of(binding, name) == Some(BoundModel::Atom(atom)),
    }
}

/// A term stands for a predicate.
pub open spec fn predicate_is(
    term: PredicateTermModel,
    binding: Seq<BoundVariableModel>,
    predicate: Seq<char>,
) -> bool {
    match term {
        PredicateTermModel::Predicate(own) => own == predicate,
        PredicateTermModel::Variable(name) => value_of(binding, name) == Some(
            BoundModel::Predicate(predicate),
        ),
    }
}

/// With the values of a binding, a pattern is a fact.
pub open spec fn satisfied(
    pattern: PatternModel,
    binding: Seq<BoundVariableModel>,
    fact: FactModel,
) -> bool {
    &&& term_is(pattern.subject, binding, fact.subject)
    &&& predicate_is(pattern.predicate, binding, fact.predicate)
    &&& term_is(pattern.object, binding, fact.object)
}

/// One binding has all values of another.
pub open spec fn extends(
    less: Seq<BoundVariableModel>,
    more: Seq<BoundVariableModel>,
) -> bool {
    forall|name: Seq<char>|
        (#[trigger] value_of(less, name)) is Some ==> value_of(more, name) == value_of(less, name)
}

/// Some fact of the source is the pattern.
pub open spec fn satisfiable(
    facts: Map<int, DefinitionModel>,
    pattern: PatternModel,
    binding: Seq<BoundVariableModel>,
) -> bool {
    exists|i: int| facts.contains_key(i) && satisfied(pattern, binding, #[trigger] facts[i].fact)
}

/// All patterns are facts of the source.
pub open spec fn all_satisfiable(
    facts: Map<int, DefinitionModel>,
    patterns: Seq<PatternModel>,
    binding: Seq<BoundVariableModel>,
) -> bool {
    forall|k: int|
        0 <= k < patterns.len() ==> satisfiable(facts, #[trigger] patterns[k], binding)
}

/// A source offers for a pattern only facts that it has, and each fact that the pattern can meet.
pub open spec fn offers_what_fits<S: FactSource>(source: S) -> bool {
    &&& forall|pattern: PatternModel, binding: Seq<BoundVariableModel>, i: int|
        0 <= i < source.picks(pattern, binding).len() ==> source.facts().contains_key(
            #[trigger] source.picks(pattern, binding)[i],
        )
    &&& forall|pattern: PatternModel, binding: Seq<BoundVariableModel>, i: int|
        source.facts().contains_key(i) && #[trigger] unified(
            pattern,
            source.facts()[i].fact,
            binding,
        ) is Some && binding_ok(binding) ==> source.picks(pattern, binding).contains(i)
}

proof fn unified_variable_facts(
    name: Seq<char>,
    value: BoundModel,
    binding: Seq<BoundVariableModel>,
    all: Seq<BoundVariableModel>,
)
    requires
        binding_ok(binding),
    ensures
        unified_variable(name, value, binding) matches Some(more) ==> {
            &&& binding_ok(more)
            &&& extends(binding, more)
            &&& value_of(more, name) == Some(value)
            &&& extends(binding, all) && value_of(all, name) == Some(value) ==> extends(more, all)
        },
        extends(binding, all) && value_of(all, name) == Some(value) ==> unified_variable(
            name,
            value,
            binding,
        ) is Some,
{
    if value_of(binding, name) is None {
        with_value_facts(binding, name, value);
        let more = with_value(binding, name, value);
        assert forall|other: Seq<char>| (#[trigger] value_of(binding, other)) is Some implies
            value_of(more, other) == value_of(binding, other) by {
            assert(other != name);
        }
        if extends(binding, all) && value_of(all, name) == Some(value) {
            assert forall|other: Seq<char>| (#[trigger] value_of(more, other)) is Some implies
                value_of(all, other) == value_of(more, other) by {
                if other != name {
                    assert(value_of(more, other) == value_of(binding, other));
                }
            }
        }
    } else if extends(binding, all) {
        assert(value_of(all, name) == value_of(binding, name));
    }
}

proof fn unified_term_facts(
    term: TermModel,
    atom: AtomModel,
    binding: Seq<BoundVariableModel>,
    all: Seq<BoundVariableModel>,
)
    requires
        binding_ok(binding),
    ensures
        unified_term(term, atom, binding) matches Some(more) ==> {
            &&& binding_ok(more)
            &&& extends(binding, more)
            &&& term_is(term, more, atom)
            &&& extends(binding, all) && term_is(term, all, atom) ==> extends(more, all)
        },
        extends(binding, all) && term_is(term, all, atom) ==> unified_term(
            term,
            atom,
            binding,
        ) is Some,
{
    if let TermModel::Variable(name) = term {
        unified_variable_facts(name, BoundModel::Atom(atom), binding, all);
    }
}

proof fn unified_predicate_facts(
    term: PredicateTermModel,
    predicate: Seq<char>,
    binding: Seq<BoundVariableModel>,
    all: Seq<BoundVariableModel>,
)
    requires
        binding_ok(binding),
    ensures
        unified_predicate(term, predicate, binding) matches Some(more) ==> {
            &&& binding_ok(more)
            &&& extends(binding, more)
            &&& predicate_is(term, more, predicate)
            &&& extends(binding, all) && predicate_is(term, all, predicate) ==> extends(more, all)
        },
        extends(binding, all) && predicate_is(term, all, predicate) ==> unified_predicate(
            term,
            predicate,
            binding,
        ) is Some,
{
    if let PredicateTermModel::Variable(name) = term {
        unified_variable_facts(name, BoundModel::Predicate(predicate), binding, all);
    }
}

/// More values keep what was satisfied.
pub proof fn satisfied_stays(
    pattern: PatternModel,
    less: Seq<BoundVariableModel>,
    more: Seq<BoundVariableModel>,
    fact: FactModel,
)
    requires
        satisfied(pattern, less, fact),
        extends(less, more),
    ensures
        satisfied(pattern, more, fact),
{
    if let TermModel::Variable(name) = pattern.subject {
        assert(value_of(less, name) is Some);
    }
    if let PredicateTermModel::Variable(name) = pattern.predicate {
        assert(value_of(less, name) is Some);
    }
    if let TermModel::Variable(name) = pattern.object {
        assert(value_of(less, name) is Some);
    }
}

proof fn extends_chain(
    a: Seq<BoundVariableModel>,
    b: Seq<BoundVariableModel>,
    c: Seq<BoundVariableModel>,
)
    requires
        extends(a, b),
        extends(b, c),
    ensures
        extends(a, c),
{
    assert forall|name: Seq<char>| (#[trigger] value_of(a, name)) is Some implies value_of(
        c,
        name,
    ) == value_of(a, name) by {
        assert(value_of(b, name) == value_of(a, name));
    }
}

/// Unifying gives a pattern the values that make it the fact, no others, and fails only where no
/// values do.
pub proof fn unification_is_exact(
    pattern: PatternModel,
    fact: FactModel,
    binding: Seq<BoundVariableModel>,
    all: Seq<BoundVariableModel>,
)
    requires
        binding_ok(binding),
    ensures
        unified(pattern, fact, binding) matches Some(more) ==> {
            &&& binding_ok(more)
            &&& extends(binding, more)
            &&& satisfied(pattern, more, fact)
            &&& extends(binding, all) && satisfied(pattern, all, fact) ==> extends(more, all)
        },
        extends(binding, all) && satisfied(pattern, all, fact) ==> unified(
            pattern,
            fact,
            binding,
        ) is Some && fact_agrees(pattern, binding, fact),
{
    unified_term_facts(pattern.subject, fact.subject, binding, all);
    if let Some(first) = unified_term(pattern.subject, fact.subject, binding) {
        unified_predicate_facts(pattern.predicate, fact.predicate, first, all);
        if let Some(second) = unified_predicate(pattern.predicate, fact.predicate, first) {
            unified_term_facts(pattern.object, fact.object, second, all);
            if let Some(more) = unified_term(pattern.object, fact.object, second) {
                extends_chain(first, second, more);
                extends_chain(binding, first, more);
                if let TermModel::Variable(name) = pattern.subject {
                    assert(value_of(first, name) is Some);
                }
                if let PredicateTermModel::Variable(name) = pattern.predicate {
                    assert(value_of(second, name) is Some);
                }
            }
        }
    }
    if extends(binding, all) && satisfied(pattern, all, fact) {
        if let TermModel::Variable(name) = pattern.subject {
            if value_of(binding, name) is Some {
                assert(value_of(all, name) == value_of(binding, name));
            }
        }
        if let PredicateTermModel::Variable(name) = pattern.predicate {
            if value_of(binding, name) is Some {
                assert(value_of(all, name) == value_of(binding, name));
            }
        }
        if let TermModel::Variable(name) = pattern.object {
            if value_of(binding, name) is Some {
                assert(value_of(all, name) == value_of(binding, name));
            }
        }
    }
}

/// An answer has the values so far, and makes the patterns facts.
pub open spec fn answers(
    facts: Map<int, DefinitionModel>,
    patterns: Seq<PatternModel>,
    start: Seq<BoundVariableModel>,
    binding: Seq<BoundVariableModel>,
) -> bool {
    extends(start, binding) && all_satisfiable(facts, patterns, binding)
}

/// The walk keeps the answers it had, and all new ones answer the patterns.
spec fn adds_answers(
    facts: Map<int, DefinitionModel>,
    patterns: Seq<PatternModel>,
    start: Seq<BoundVariableModel>,
    before: Seq<AnswerModel>,
    after: Seq<AnswerModel>,
) -> bool {
    &&& before.len() <= after.len()
    &&& forall|j: int| 0 <= j < before.len() ==> #[trigger] after[j] == before[j]
    &&& forall|j: int|
        before.len() <= j < after.len() ==> answers(
            facts,
            patterns,
            start,
            (#[trigger] after[j]).binding,
        )
}

proof fn removed_pattern_stays(
    facts: Map<int, DefinitionModel>,
    patterns: Seq<PatternModel>,
    index: int,
    binding: Seq<BoundVariableModel>,
)
    requires
        0 <= index < patterns.len(),
    ensures
        all_satisfiable(facts, patterns, binding) <==> (satisfiable(
            facts,
            patterns[index],
            binding,
        ) && all_satisfiable(facts, patterns.take(index) + patterns.skip(index + 1), binding)),
{
    let rest = patterns.take(index) + patterns.skip(index + 1);
    if all_satisfiable(facts, patterns, binding) {
        assert forall|k: int| 0 <= k < rest.len() implies satisfiable(
            facts,
            #[trigger] rest[k],
            binding,
        ) by {
            if k < index {
                assert(rest[k] == patterns[k]);
            } else {
                assert(rest[k] == patterns[k + 1]);
            }
        }
    }
    if satisfiable(facts, patterns[index], binding) && all_satisfiable(facts, rest, binding) {
        assert forall|k: int| 0 <= k < patterns.len() implies satisfiable(
            facts,
            #[trigger] patterns[k],
            binding,
        ) by {
            if k < index {
                assert(rest[k] == patterns[k]);
            } else if k > index {
                assert(rest[k - 1] == patterns[k]);
            }
        }
    }
}

proof fn walk_is_sound<S: FactSource>(
    source: S,
    answer: AnswerModel,
    remaining: Seq<PatternModel>,
    depth: nat,
    options: QueryOptions,
    state: WalkModel,
)
    requires
        offers_what_fits(source),
        binding_ok(answer.binding),
    ensures
        adds_answers(
            source.facts(),
            remaining,
            answer.binding,
            state.output,
            walked(source, answer, remaining, depth, options, state).output,
        ),
    decreases 2 * remaining.len(), 0nat,
{
    if remaining.len() > 0 {
        let index = chosen_index(source, remaining, answer.binding, options);
        fewest_in_range(source, remaining, answer.binding);
        let chosen = remaining[index];
        let rest = remaining.take(index) + remaining.skip(index + 1);
        let picks = source.picks(chosen, answer.binding);
        let begun = WalkModel {
            first_path: if depth == state.first_path.len() {
                state.first_path.push(chosen)
            } else {
                state.first_path
            },
            metrics: QueryMetrics {
                candidate_facts: counted(state.metrics.candidate_facts, picks.len()),
                ..state.metrics
            },
            ..state
        };
        picks_are_sound(source, answer, chosen, rest, depth, options, picks, picks.len(), begun);
        let after = walked(source, answer, remaining, depth, options, state).output;
        assert forall|j: int| state.output.len() <= j < after.len() implies answers(
            source.facts(),
            remaining,
            answer.binding,
            (#[trigger] after[j]).binding,
        ) by {
            removed_pattern_stays(source.facts(), remaining, index, after[j].binding);
            whole_pattern(source.facts(), chosen, rest, after[j].binding);
        }
    }
}

/// A pattern put in front of others.
proof fn whole_pattern(
    facts: Map<int, DefinitionModel>,
    chosen: PatternModel,
    rest: Seq<PatternModel>,
    binding: Seq<BoundVariableModel>,
)
    ensures
        all_satisfiable(facts, seq![chosen] + rest, binding) <==> (satisfiable(
            facts,
            chosen,
            binding,
        ) && all_satisfiable(facts, rest, binding)),
{
    let all = seq![chosen] + rest;
    if all_satisfiable(facts, all, binding) {
        assert(satisfiable(facts, all[0], binding));
        assert forall|k: int| 0 <= k < rest.len() implies satisfiable(
            facts,
            #[trigger] rest[k],
            binding,
        ) by {
            assert(all[k + 1] == rest[k]);
        }
    }
    if satisfiable(facts, chosen, binding) && all_satisfiable(facts, rest, binding) {
        assert forall|k: int| 0 <= k < all.len() implies satisfiable(
            facts,
            #[trigger] all[k],
            binding,
        ) by {
            if k > 0 {
                assert(all[k] == rest[k - 1]);
            }
        }
    }
}

proof fn picks_are_sound<S: FactSource>(
    source: S,
    answer: AnswerModel,
    chosen: PatternModel,
    rest: Seq<PatternModel>,
    depth: nat,
    options: QueryOptions,
    picks: Seq<int>,
    count: nat,
    state: WalkModel,
)
    requires
        offers_what_fits(source),
        binding_ok(answer.binding),
        picks == source.picks(chosen, answer.binding),
        count <= picks.len(),
    ensures
        adds_answers(
            source.facts(),
            seq![chosen] + rest,
            answer.binding,
            state.output,
            walked_picks(
                source,
                answer,
                chosen,
                rest,
                depth,
                options,
                picks,
                count,
                state,
            ).output,
        ),
    decreases 2 * rest.len() + 1, count,
{
    if count > 0 {
        picks_are_sound(
            source,
            answer,
            chosen,
            rest,
            depth,
            options,
            picks,
            (count - 1) as nat,
            state,
        );
        let before = walked_picks(
            source,
            answer,
            chosen,
            rest,
            depth,
            options,
            picks,
            (count - 1) as nat,
            state,
        );
        let facts = source.facts();
        let place = picks[count - 1];
        let entry = facts[place];
        if !before.done {
            unification_is_exact(chosen, entry.fact, answer.binding, answer.binding);
            if let Some(binding) = unified(chosen, entry.fact, answer.binding) {
                let deeper = AnswerModel {
                    binding,
                    provenance: answer.provenance.push(entry.slot),
                };
                let begun = WalkModel {
                    metrics: QueryMetrics {
                        bindings_emitted: counted(before.metrics.bindings_emitted, 1),
                        ..before.metrics
                    },
                    ..before
                };
                walk_is_sound(source, deeper, rest, depth + 1, options, begun);
                let after = walked(source, deeper, rest, depth + 1, options, begun).output;
                assert forall|j: int| before.output.len() <= j < after.len() implies answers(
                    facts,
                    seq![chosen] + rest,
                    answer.binding,
                    (#[trigger] after[j]).binding,
                ) by {
                    let found = after[j].binding;
                    assert(answers(facts, rest, binding, found));
                    extends_chain(answer.binding, binding, found);
                    satisfied_stays(chosen, binding, found, entry.fact);
                    assert(satisfied(chosen, found, facts[place].fact));
                    whole_pattern(facts, chosen, rest, found);
                }
                assert forall|j: int| 0 <= j < state.output.len() implies #[trigger] after[j]
                    == state.output[j] by {
                    assert(after[j] == before.output[j]);
                }
                assert forall|j: int| state.output.len() <= j < after.len() implies answers(
                    facts,
                    seq![chosen] + rest,
                    answer.binding,
                    (#[trigger] after[j]).binding,
                ) by {
                    if j < before.output.len() {
                        assert(after[j] == before.output[j]);
                    }
                }
            }
        }
    }
}

/// Every answer of a query makes every pattern a fact of the source.
pub proof fn every_answer_is_true<S: FactSource>(
    source: S,
    patterns: Seq<PatternModel>,
    options: QueryOptions,
    index: int,
)
    requires
        offers_what_fits(source),
        0 <= index < whole_walk(source, patterns, options).output.len(),
    ensures
        all_satisfiable(
            source.facts(),
            patterns,
            whole_walk(source, patterns, options).output[index].binding,
        ),
{
    reveal(whole_walk);
    let start = AnswerModel { binding: Seq::empty(), provenance: Seq::empty() };
    walk_is_sound(source, start, patterns, 0, options, fresh_walk());
}

/// Among the new answers is one whose values are among the given.
spec fn found_in(
    before: Seq<AnswerModel>,
    after: Seq<AnswerModel>,
    all: Seq<BoundVariableModel>,
) -> bool {
    exists|j: int| before.len() <= j < after.len() && extends((#[trigger] after[j]).binding, all)
}

proof fn walk_is_complete<S: FactSource>(
    source: S,
    answer: AnswerModel,
    remaining: Seq<PatternModel>,
    depth: nat,
    options: QueryOptions,
    state: WalkModel,
    all: Seq<BoundVariableModel>,
)
    requires
        offers_what_fits(source),
        options.limit is None,
        !state.done,
        binding_ok(answer.binding),
    ensures
        ({
            let walk = walked(source, answer, remaining, depth, options, state);
            &&& !walk.done
            &&& extends(answer.binding, all) && all_satisfiable(source.facts(), remaining, all)
                ==> found_in(state.output, walk.output, all)
        }),
    decreases 2 * remaining.len(), 0nat,
{
    if remaining.len() > 0 {
        let index = chosen_index(source, remaining, answer.binding, options);
        fewest_in_range(source, remaining, answer.binding);
        let chosen = remaining[index];
        let rest = remaining.take(index) + remaining.skip(index + 1);
        let picks = source.picks(chosen, answer.binding);
        let facts = source.facts();
        let begun = WalkModel {
            first_path: if depth == state.first_path.len() {
                state.first_path.push(chosen)
            } else {
                state.first_path
            },
            metrics: QueryMetrics {
                candidate_facts: counted(state.metrics.candidate_facts, picks.len()),
                ..state.metrics
            },
            ..state
        };
        let looking = extends(answer.binding, all) && all_satisfiable(facts, remaining, all);
        removed_pattern_stays(facts, remaining, index, all);
        let target = if looking {
            let i = choose|i: int|
                facts.contains_key(i) && satisfied(chosen, all, #[trigger] facts[i].fact);
            unification_is_exact(chosen, facts[i].fact, answer.binding, all);
            assert(unified(chosen, source.facts()[i].fact, answer.binding) is Some);
            assert(picks.contains(i));
            let k = choose|k: int| 0 <= k < picks.len() && picks[k] == i;
            k
        } else {
            -1
        };
        picks_are_complete(
            source,
            answer,
            chosen,
            rest,
            depth,
            options,
            picks,
            picks.len(),
            begun,
            all,
            target,
        );
    } else {
        let after = state.output.push(answer);
        if extends(answer.binding, all) {
            assert(extends(after[state.output.len() as int].binding, all));
        }
    }
}

proof fn picks_are_complete<S: FactSource>(
    source: S,
    answer: AnswerModel,
    chosen: PatternModel,
    rest: Seq<PatternModel>,
    depth: nat,
    options: QueryOptions,
    picks: Seq<int>,
    count: nat,
    state: WalkModel,
    all: Seq<BoundVariableModel>,
    target: int,
)
    requires
        offers_what_fits(source),
        options.limit is None,
        !state.done,
        binding_ok(answer.binding),
        picks == source.picks(chosen, answer.binding),
        count <= picks.len(),
        target >= 0 ==> target < picks.len() && extends(answer.binding, all) && satisfied(
            chosen,
            all,
            source.facts()[picks[target]].fact,
        ) && all_satisfiable(source.facts(), rest, all),
    ensures
        ({
            let walk = walked_picks(
                source,
                answer,
                chosen,
                rest,
                depth,
                options,
                picks,
                count,
                state,
            );
            &&& !walk.done
            &&& 0 <= target < count ==> found_in(state.output, walk.output, all)
        }),
    decreases 2 * rest.len() + 1, count,
{
    if count > 0 {
        picks_are_complete(
            source,
            answer,
            chosen,
            rest,
            depth,
            options,
            picks,
            (count - 1) as nat,
            state,
            all,
            target,
        );
        picks_are_sound(
            source,
            answer,
            chosen,
            rest,
            depth,
            options,
            picks,
            (count - 1) as nat,
            state,
        );
        let before = walked_picks(
            source,
            answer,
            chosen,
            rest,
            depth,
            options,
            picks,
            (count - 1) as nat,
            state,
        );
        let entry = source.facts()[picks[count - 1]];
        unification_is_exact(chosen, entry.fact, answer.binding, all);
        if let Some(binding) = unified(chosen, entry.fact, answer.binding) {
            let deeper = AnswerModel { binding, provenance: answer.provenance.push(entry.slot) };
            let begun = WalkModel {
                metrics: QueryMetrics {
                    bindings_emitted: counted(before.metrics.bindings_emitted, 1),
                    ..before.metrics
                },
                ..before
            };
            walk_is_complete(source, deeper, rest, depth + 1, options, begun, all);
            walk_is_sound(source, deeper, rest, depth + 1, options, begun);
            let after = walked(source, deeper, rest, depth + 1, options, begun).output;
            if 0 <= target < count {
                if target < count - 1 {
                    let j = choose|j: int|
                        state.output.len() <= j < before.output.len() && extends(
                            (#[trigger] before.output[j]).binding,
                            all,
                        );
                    assert(after[j] == before.output[j]);
                    assert(extends(after[j].binding, all));
                } else {
                    let j = choose|j: int|
                        before.output.len() <= j < after.len() && extends(
                            (#[trigger] after[j]).binding,
                            all,
                        );
                    assert(extends(after[j].binding, all));
                }
            }
        }
    }
}

/// Whatever values make every pattern a fact of the source, a query without a limit has an answer
/// with those values.
pub proof fn every_truth_is_answered<S: FactSource>(
    source: S,
    patterns: Seq<PatternModel>,
    options: QueryOptions,
    values: Seq<BoundVariableModel>,
)
    requires
        offers_what_fits(source),
        options.limit is None,
        all_satisfiable(source.facts(), patterns, values),
    ensures
        exists|j: int|
            0 <= j < whole_walk(source, patterns, options).output.len() && extends(
                (#[trigger] whole_walk(source, patterns, options).output[j]).binding,
                values,
            ),
{
    reveal(whole_walk);
    let start = AnswerModel { binding: Seq::empty(), provenance: Seq::empty() };
    walk_is_complete(source, start, patterns, 0, options, fresh_walk(), values);
    let output = whole_walk(source, patterns, options).output;
    let j = choose|j: int|
        0 <= j < output.len() && extends((#[trigger] output[j]).binding, values);
    assert(extends(output[j].binding, values));
}

proof fn agreeing_facts(
    facts: Seq<DefinitionModel>,
    pattern: PatternModel,
    binding: Seq<BoundVariableModel>,
    count: nat,
)
    requires
        count <= facts.len(),
    ensures
        forall|i: int|
            0 <= i < agreeing(facts, pattern, binding, count).len() ==> 0 <= #[trigger] agreeing(
                facts,
                pattern,
                binding,
                count,
            )[i] < count,
        forall|i: int|
            0 <= i < count && fact_agrees(pattern, binding, #[trigger] facts[i].fact) ==> agreeing(
                facts,
                pattern,
                binding,
                count,
            ).contains(i),
    decreases count,
{
    if count > 0 {
        agreeing_facts(facts, pattern, binding, (count - 1) as nat);
        let front = agreeing(facts, pattern, binding, (count - 1) as nat);
        let list = agreeing(facts, pattern, binding, count);
        assert forall|i: int|
            0 <= i < count && fact_agrees(
                pattern,
                binding,
                #[trigger] facts[i].fact,
            ) implies list.contains(i) by {
            if i < count - 1 {
                assert(front.contains(i));
                let k = choose|k: int| 0 <= k < front.len() && front[k] == i;
                assert(list[k] == i);
            } else {
                assert(list[list.len() - 1] == i);
            }
        }
    }
}

/// The active facts of a kernel offer what fits.
pub proof fn active_facts_offer(source: ActiveFacts)
    ensures
        offers_what_fits(source),
{
    let listed = source.listed();
    assert forall|pattern: PatternModel, binding: Seq<BoundVariableModel>, i: int|
        0 <= i < source.picks(pattern, binding).len() implies source.facts().contains_key(
        #[trigger] source.picks(pattern, binding)[i],
    ) by {
        agreeing_facts(listed, pattern, binding, listed.len());
    }
    assert forall|pattern: PatternModel, binding: Seq<BoundVariableModel>, i: int|
        source.facts().contains_key(i) && #[trigger] unified(
            pattern,
            source.facts()[i].fact,
            binding,
        ) is Some && binding_ok(binding) implies source.picks(pattern, binding).contains(i) by {
        agreeing_facts(listed, pattern, binding, listed.len());
        let fact = listed[i].fact;
        let more = unified(pattern, fact, binding)->Some_0;
        unification_is_exact(pattern, fact, binding, more);
        assert(extends(more, more));
        unification_is_exact(pattern, fact, binding, more);
    }
}

} // verus!
