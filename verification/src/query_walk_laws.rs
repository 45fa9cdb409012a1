//! Which ways to answer a query are walked, in which order, and what is counted on the way.

use crate::epoch_io::{counted, counted_twice};
use crate::fact::{Atom, Predicate, Variable};
use crate::kernel::DefinitionModel;
use crate::query::{ActiveFacts, agreeing};
use crate::query_laws::{extends, offers_what_fits, satisfied, unification_is_exact};
use crate::query_limits::{picks_add, walk_adds};
use crate::query_model::{
    AnswerModel, BoundModel, BoundVariableModel, FactSource, PatternModel, PredicateTermModel,
    QueryMetrics, QueryOptions, TermModel, WalkModel, binding_ok, chosen_index, fact_agrees,
    fewest_in_range, fresh_walk, unified, value_of, walked, walked_picks, whole_walk,
};
use vstd::prelude::*;

verus! {

/// Facts that answer the patterns one by one, with the same values.
pub open spec fn way<S: FactSource>(
    source: S,
    patterns: Seq<PatternModel>,
    places: Seq<int>,
    values: Seq<BoundVariableModel>,
) -> bool {
    &&& places.len() == patterns.len()
    &&& forall|k: int|
        0 <= k < places.len() ==> source.facts().contains_key(#[trigger] places[k]) && satisfied(
            patterns[k],
            values,
            source.facts()[places[k]].fact,
        )
}

/// The slots of facts.
pub open spec fn slots_at<S: FactSource>(source: S, places: Seq<int>) -> Seq<Seq<char>> {
    Seq::new(places.len(), |k: int| source.facts()[places[k]].slot)
}

/// Among the new answers is one with the slots, whose values are among the given.
spec fn reached(
    before: Seq<AnswerModel>,
    after: Seq<AnswerModel>,
    slots: Seq<Seq<char>>,
    values: Seq<BoundVariableModel>,
) -> bool {
    exists|j: int|
        before.len() <= j < after.len() && (#[trigger] after[j]).provenance == slots && extends(
            after[j].binding,
            values,
        )
}

proof fn walk_reaches<S: FactSource>(
    source: S,
    answer: AnswerModel,
    remaining: Seq<PatternModel>,
    depth: nat,
    options: QueryOptions,
    state: WalkModel,
    places: Seq<int>,
    values: Seq<BoundVariableModel>,
)
    requires
        offers_what_fits(source),
        options.limit is None,
        !options.optimize,
        !state.done,
        binding_ok(answer.binding),
        extends(answer.binding, values),
        way(source, remaining, places, values),
    ensures
        reached(
            state.output,
            walked(source, answer, remaining, depth, options, state).output,
            answer.provenance + slots_at(source, places),
            values,
        ),
    decreases 2 * remaining.len(), 0nat,
{
    if remaining.len() == 0 {
        let after = state.output.push(answer);
        assert(answer.provenance + slots_at(source, places) =~= answer.provenance);
        assert(after[state.output.len() as int].provenance == answer.provenance);
    } else {
        let chosen = remaining[0];
        let rest = remaining.take(0) + remaining.skip(1);
        let picks = source.picks(chosen, answer.binding);
        let begun = WalkModel {
            first_path: if depth == state.first_path.len() {
                state.first_path.push(chosen)
            } else {
                state.first_path
            },
            metrics: QueryMetrics {
                candidate_facts: counted(state.metrics.candidate_facts, picks.len()),
                ..state.metrics
            },
            ..state
        };
        let place = places[0];
        unification_is_exact(chosen, source.facts()[place].fact, answer.binding, values);
        assert(unified(chosen, source.facts()[place].fact, answer.binding) is Some);
        assert(picks.contains(place));
        let target = choose|k: int| 0 <= k < picks.len() && picks[k] == place;
        let later = places.skip(1);
        assert(way(source, rest, later, values)) by {
            assert forall|k: int| 0 <= k < later.len() implies source.facts().contains_key(
                #[trigger] later[k],
            ) && satisfied(rest[k], values, source.facts()[later[k]].fact) by {
                assert(later[k] == places[k + 1]);
                assert(rest[k] == remaining[k + 1]);
            }
        }
        picks_reach(
            source,
            answer,
            chosen,
            rest,
            depth,
            options,
            picks,
            picks.len(),
            begun,
            target,
            later,
            values,
        );
        assert(answer.provenance.push(source.facts()[place].slot) + slots_at(source, later)
            =~= answer.provenance + slots_at(source, places));
    }
}

proof fn picks_reach<S: FactSource>(
    source: S,
    answer: AnswerModel,
    chosen: PatternModel,
    rest: Seq<PatternModel>,
    depth: nat,
    options: QueryOptions,
    picks: Seq<int>,
    count: nat,
    state: WalkModel,
    target: int,
    later: Seq<int>,
    values: Seq<BoundVariableModel>,
)
    requires
        offers_what_fits(source),
        options.limit is None,
        !options.optimize,
        !state.done,
        binding_ok(answer.binding),
        extends(answer.binding, values),
        picks == source.picks(chosen, answer.binding),
        0 <= target < count <= picks.len(),
        satisfied(chosen, values, source.facts()[picks[target]].fact),
        way(source, rest, later, values),
    ensures
        reached(
            state.output,
            walked_picks(
                source,
                answer,
                chosen,
                rest,
                depth,
                options,
                picks,
                count,
                state,
            ).output,
            answer.provenance.push(source.facts()[picks[target]].slot) + slots_at(source, later),
            values,
        ),
    decreases 2 * rest.len() + 1, count,
{
    let fewer = (count - 1) as nat;
    let before = walked_picks(source, answer, chosen, rest, depth, options, picks, fewer, state);
    picks_add(source, answer, chosen, rest, depth, options, picks, fewer, state);
    let slots = answer.provenance.push(source.facts()[picks[target]].slot) + slots_at(
        source,
        later,
    );
    let entry = source.facts()[picks[count - 1]];
    unification_is_exact(chosen, entry.fact, answer.binding, values);
    if target == count - 1 {
        let binding = unified(chosen, entry.fact, answer.binding)->Some_0;
        let deeper = AnswerModel { binding, provenance: answer.provenance.push(entry.slot) };
        let begun = WalkModel {
            metrics: QueryMetrics {
                bindings_emitted: counted(before.metrics.bindings_emitted, 1),
                ..before.metrics
            },
            ..before
        };
        walk_reaches(source, deeper, rest, depth + 1, options, begun, later, values);
        let after = walked(source, deeper, rest, depth + 1, options, begun).output;
        let j = choose|j: int|
            before.output.len() <= j < after.len() && (#[trigger] after[j]).provenance == slots
                && extends(after[j].binding, values);
        assert(after[j].provenance == slots);
    } else {
        picks_reach(
            source,
            answer,
            chosen,
            rest,
            depth,
            options,
            picks,
            fewer,
            state,
            target,
            later,
            values,
        );
        let j = choose|j: int|
            state.output.len() <= j < before.output.len() && (
            #[trigger] before.output[j]).provenance == slots && extends(
                before.output[j].binding,
                values,
            );
        if let Some(binding) = unified(chosen, entry.fact, answer.binding) {
            let deeper = AnswerModel { binding, provenance: answer.provenance.push(entry.slot) };
            let begun = WalkModel {
                metrics: QueryMetrics {
                    bindings_emitted: counted(before.metrics.bindings_emitted, 1),
                    ..before.metrics
                },
                ..before
            };
            walk_adds(source, deeper, rest, depth + 1, options, begun);
            let after = walked(source, deeper, rest, depth + 1, options, begun).output;
            assert(after.take(before.output.len() as int)[j] == before.output[j]);
            assert(after[j].provenance == slots);
        }
    }
}

/// Every way to answer the patterns is an answer of its own: for facts that are the patterns with the
/// same values there is an answer that names the slots of exactly those facts, in order, and has no
/// other values.
pub proof fn every_way_is_answered<S: FactSource>(
    source: S,
    patterns: Seq<PatternModel>,
    options: QueryOptions,
    places: Seq<int>,
    values: Seq<BoundVariableModel>,
)
    requires
        offers_what_fits(source),
        options.limit is None,
        !options.optimize,
        way(source, patterns, places, values),
    ensures
        exists|j: int|
            0 <= j < whole_walk(source, patterns, options).output.len() && (
            #[trigger] whole_walk(source, patterns, options).output[j]).provenance == slots_at(
                source,
                places,
            ) && extends(whole_walk(source, patterns, options).output[j].binding, values),
{
    reveal(whole_walk);
    let start = AnswerModel { binding: Seq::empty(), provenance: Seq::empty() };
    walk_reaches(source, start, patterns, 0, options, fresh_walk(), places, values);
    assert(start.provenance + slots_at(source, places) =~= slots_at(source, places));
    let output = whole_walk(source, patterns, options).output;
    let j = choose|j: int|
        0 <= j < output.len() && (#[trigger] output[j]).provenance == slots_at(source, places)
            && extends(output[j].binding, values);
    assert(output[j].provenance == slots_at(source, places));
}

/// The first path of a walk that takes the patterns in order.
proof fn paths_follow_patterns<S: FactSource>(
    source: S,
    patterns: Seq<PatternModel>,
    answer: AnswerModel,
    depth: nat,
    options: QueryOptions,
    state: WalkModel,
)
    requires
        !options.optimize,
        depth <= state.first_path.len() <= patterns.len(),
        state.first_path == patterns.take(state.first_path.len() as int),
    ensures
        ({
            let after = walked(
                source,
                answer,
                patterns.skip(depth as int),
                depth,
                options,
                state,
            );
            &&& state.first_path.len() <= after.first_path.len() <= patterns.len()
            &&& after.first_path == patterns.take(after.first_path.len() as int)
            &&& depth < patterns.len() ==> after.first_path.len() > depth
            &&& after.output.len() > state.output.len() ==> after.first_path.len()
                == patterns.len()
            &&& after.output.len() >= state.output.len()
        }),
    decreases 2 * (patterns.len() - depth), 0nat,
{
    let remaining = patterns.skip(depth as int);
    if remaining.len() > 0 {
        let chosen = remaining[0];
        let rest = remaining.take(0) + remaining.skip(1);
        assert(rest =~= patterns.skip(depth as int + 1));
        let picks = source.picks(chosen, answer.binding);
        let begun = WalkModel {
            first_path: if depth == state.first_path.len() {
                state.first_path.push(chosen)
            } else {
                state.first_path
            },
            metrics: QueryMetrics {
                candidate_facts: counted(state.metrics.candidate_facts, picks.len()),
                ..state.metrics
            },
            ..state
        };
        assert(begun.first_path =~= patterns.take(begun.first_path.len() as int));
        picks_follow_patterns(
            source,
            patterns,
            answer,
            depth,
            options,
            picks,
            picks.len(),
            begun,
        );
    }
}

proof fn picks_follow_patterns<S: FactSource>(
    source: S,
    patterns: Seq<PatternModel>,
    answer: AnswerModel,
    depth: nat,
    options: QueryOptions,
    picks: Seq<int>,
    count: nat,
    state: WalkModel,
)
    requires
        !options.optimize,
        depth < state.first_path.len() <= patterns.len(),
        state.first_path == patterns.take(state.first_path.len() as int),
        count <= picks.len(),
    ensures
        ({
            let after = walked_picks(
                source,
                answer,
                patterns[depth as int],
                patterns.skip(depth as int + 1),
                depth,
                options,
                picks,
                count,
                state,
            );
            &&& state.first_path.len() <= after.first_path.len() <= patterns.len()
            &&& after.first_path == patterns.take(after.first_path.len() as int)
            &&& after.output.len() > state.output.len() ==> after.first_path.len()
                == patterns.len()
            &&& after.output.len() >= state.output.len()
        }),
    decreases 2 * (patterns.len() - depth - 1) + 1, count,
{
    if count > 0 {
        let fewer = (count - 1) as nat;
        let chosen = patterns[depth as int];
        let rest = patterns.skip(depth as int + 1);
        picks_follow_patterns(source, patterns, answer, depth, options, picks, fewer, state);
        let before = walked_picks(
            source,
            answer,
            chosen,
            rest,
            depth,
            options,
            picks,
            fewer,
            state,
        );
        if !before.done {
            let entry = source.facts()[picks[count - 1]];
            if let Some(binding) = unified(chosen, entry.fact, answer.binding) {
                let deeper = AnswerModel {
                    binding,
                    provenance: answer.provenance.push(entry.slot),
                };
                let begun = WalkModel {
                    metrics: QueryMetrics {
                        bindings_emitted: counted(before.metrics.bindings_emitted, 1),
                        ..before.metrics
                    },
                    ..before
                };
                paths_follow_patterns(source, patterns, deeper, depth + 1, options, begun);
            }
        }
    }
}

/// Without optimizing, the first path takes the patterns in their order, as far as the walk went; all
/// of them, if there is an answer.
pub proof fn first_paths_follow_the_patterns<S: FactSource>(
    source: S,
    patterns: Seq<PatternModel>,
    options: QueryOptions,
)
    requires
        !options.optimize,
    ensures
        ({
            let walk = whole_walk(source, patterns, options);
            &&& walk.first_path.len() <= patterns.len()
            &&& walk.first_path == patterns.take(walk.first_path.len() as int)
            &&& patterns.len() > 0 ==> walk.first_path.len() > 0
            &&& walk.output.len() > 0 ==> walk.first_path == patterns
        }),
{
    reveal(whole_walk);
    let start = AnswerModel { binding: Seq::empty(), provenance: Seq::empty() };
    assert(patterns.skip(0) =~= patterns);
    assert(fresh_walk().first_path =~= patterns.take(0));
    paths_follow_patterns(source, patterns, start, 0, options, fresh_walk());
    assert(patterns.take(patterns.len() as int) =~= patterns);
}

proof fn single_picks_are_counted<S: FactSource>(
    source: S,
    answer: AnswerModel,
    pattern: PatternModel,
    options: QueryOptions,
    picks: Seq<int>,
    count: nat,
    state: WalkModel,
)
    requires
        options.limit is None,
        !state.done,
        count <= picks.len(),
    ensures
        ({
            let after = walked_picks(
                source,
                answer,
                pattern,
                Seq::empty(),
                0,
                options,
                picks,
                count,
                state,
            );
            let found = picks.take(count as int).filter(
                |place: int|
                    unified(pattern, source.facts()[place].fact, answer.binding) is Some,
            ).len();
            &&& !after.done
            &&& after.output.len() == state.output.len() + found
            &&& after.metrics.bindings_emitted == counted(state.metrics.bindings_emitted, found)
            &&& after.metrics.candidate_facts == state.metrics.candidate_facts
        }),
    decreases count,
{
    reveal(Seq::filter);
    if count > 0 {
        let fewer = (count - 1) as nat;
        single_picks_are_counted(source, answer, pattern, options, picks, fewer, state);
        assert(picks.take(count as int).drop_last() =~= picks.take(fewer as int));
        assert(picks.take(count as int).last() == picks[count - 1]);
        let found = picks.take(fewer as int).filter(
            |place: int| unified(pattern, source.facts()[place].fact, answer.binding) is Some,
        ).len();
        counted_twice(state.metrics.bindings_emitted, found, 1);
        let before = walked_picks(
            source,
            answer,
            pattern,
            Seq::empty(),
            0,
            options,
            picks,
            fewer,
            state,
        );
        let entry = source.facts()[picks[count - 1]];
        if let Some(binding) = unified(pattern, entry.fact, answer.binding) {
            let deeper = AnswerModel { binding, provenance: answer.provenance.push(entry.slot) };
            let begun = WalkModel {
                metrics: QueryMetrics {
                    bindings_emitted: counted(before.metrics.bindings_emitted, 1),
                    ..before.metrics
                },
                ..before
            };
            let none: Seq<PatternModel> = Seq::empty();
            let after = walked(source, deeper, none, 1, options, begun);
            assert(after.output == before.output.push(deeper));
            assert(after.first_path == before.first_path);
            assert(after.metrics == begun.metrics);
        }
    } else {
        assert(picks.take(0) =~= Seq::empty());
        counted_twice(state.metrics.bindings_emitted, 0, 0);
    }
}

/// A query of one pattern without a limit counts the candidates that it was offered, and a binding and
/// an answer for each candidate that the pattern meets. A query without patterns has one answer, of
/// nothing, and counts nothing.
pub proof fn single_patterns_are_counted<S: FactSource>(
    source: S,
    pattern: PatternModel,
    options: QueryOptions,
)
    requires
        options.limit is None,
    ensures
        ({
            let walk = whole_walk(source, seq![pattern], options);
            let picks = source.picks(pattern, Seq::empty());
            let found = picks.filter(
                |place: int| unified(pattern, source.facts()[place].fact, Seq::empty()) is Some,
            ).len();
            let modulus: int = 0x1_0000_0000_0000_0000;
            &&& walk.output.len() == found
            &&& walk.metrics.bindings_emitted == found as int % modulus
            &&& walk.metrics.candidate_facts == picks.len() as int % modulus
            &&& walk.first_path == seq![pattern]
        }),
        ({
            let walk = whole_walk(source, Seq::empty(), options);
            &&& walk.output.len() == 1
            &&& walk.output[0].binding.len() == 0
            &&& walk.output[0].provenance.len() == 0
            &&& walk.metrics.bindings_emitted == 0
            &&& walk.metrics.candidate_facts == 0
            &&& walk.first_path.len() == 0
        }),
{
    reveal(whole_walk);
    let start = AnswerModel { binding: Seq::empty(), provenance: Seq::empty() };
    let none: Seq<BoundVariableModel> = Seq::empty();
    let picks = source.picks(pattern, none);
    let patterns = seq![pattern];
    fewest_in_range(source, patterns, none);
    let index = chosen_index(source, patterns, none, options);
    assert(index == 0);
    assert(patterns.take(0) + patterns.skip(1) =~= Seq::empty());
    let begun = WalkModel {
        first_path: fresh_walk().first_path.push(pattern),
        metrics: QueryMetrics {
            candidate_facts: counted(0, picks.len()),
            ..fresh_walk().metrics
        },
        ..fresh_walk()
    };
    single_picks_are_counted(source, start, pattern, options, picks, picks.len(), begun);
    assert(picks.take(picks.len() as int) =~= picks);
    single_path_stays(source, start, pattern, options, picks, picks.len(), begun);
    assert(begun.first_path =~= seq![pattern]);
}

proof fn single_path_stays<S: FactSource>(
    source: S,
    answer: AnswerModel,
    pattern: PatternModel,
    options: QueryOptions,
    picks: Seq<int>,
    count: nat,
    state: WalkModel,
)
    requires
        count <= picks.len(),
    ensures
        walked_picks(
            source,
            answer,
            pattern,
            Seq::empty(),
            0,
            options,
            picks,
            count,
            state,
        ).first_path == state.first_path,
    decreases count,
{
    if count > 0 {
        single_path_stays(source, answer, pattern, options, picks, (count - 1) as nat, state);
        let before = walked_picks(
            source,
            answer,
            pattern,
            Seq::empty(),
            0,
            options,
            picks,
            (count - 1) as nat,
            state,
        );
        let entry = source.facts()[picks[count - 1]];
        if let Some(binding) = unified(pattern, entry.fact, answer.binding) {
            let deeper = AnswerModel { binding, provenance: answer.provenance.push(entry.slot) };
            let begun = WalkModel {
                metrics: QueryMetrics {
                    bindings_emitted: counted(before.metrics.bindings_emitted, 1),
                    ..before.metrics
                },
                ..before
            };
            let none: Seq<PatternModel> = Seq::empty();
            let after = walked(source, deeper, none, 1, options, begun);
            assert(after.output == before.output.push(deeper));
            assert(after.first_path == before.first_path);
            assert(after.metrics == begun.metrics);
        }
    }
}

/// The candidates that active facts offer for a pattern: exactly the facts that agree with what is
/// known of each of its places, in the order in which they are listed.
pub proof fn candidates_are_those_that_agree(
    source: ActiveFacts,
    pattern: PatternModel,
    binding: Seq<BoundVariableModel>,
    index: int,
)
    requires
        0 <= index < source.listed().len(),
    ensures
        ({
            let picks = source.picks(pattern, binding);
            let fact = source.listed()[index].fact;
            &&& forall|a: int, b: int|
                0 <= a < b < picks.len() ==> #[trigger] picks[a] < #[trigger] picks[b]
            &&& picks.contains(index) <==> {
                &&& match pattern.subject {
                    TermModel::Atom(atom) => atom == fact.subject,
                    TermModel::Variable(name) => value_of(binding, name) matches Some(
                        BoundModel::Atom(atom),
                    ) ==> atom == fact.subject,
                }
                &&& match pattern.predicate {
                    PredicateTermModel::Predicate(own) => own == fact.predicate,
                    PredicateTermModel::Variable(name) => value_of(binding, name) matches Some(
                        BoundModel::Predicate(own),
                    ) ==> own == fact.predicate,
                }
                &&& match pattern.object {
                    TermModel::Atom(atom) => atom == fact.object,
                    TermModel::Variable(name) => value_of(binding, name) matches Some(
                        BoundModel::Atom(atom),
                    ) ==> atom == fact.object,
                }
            }
        }),
{
    agreeing_in_order(source.listed(), pattern, binding, source.listed().len(), index);
}

proof fn agreeing_in_order(
    facts: Seq<DefinitionModel>,
    pattern: PatternModel,
    binding: Seq<BoundVariableModel>,
    count: nat,
    index: int,
)
    requires
        count <= facts.len(),
        0 <= index,
    ensures
        ({
            let list = agreeing(facts, pattern, binding, count);
            &&& forall|a: int| 0 <= a < list.len() ==> 0 <= #[trigger] list[a] < count
            &&& forall|a: int, b: int|
                0 <= a < b < list.len() ==> #[trigger] list[a] < #[trigger] list[b]
            &&& index < count ==> (list.contains(index) <==> fact_agrees(
                pattern,
                binding,
                facts[index].fact,
            ))
        }),
    decreases count,
{
    if count > 0 {
        let less = (count - 1) as nat;
        agreeing_in_order(facts, pattern, binding, less, index);
        let front = agreeing(facts, pattern, binding, less);
        let list = agreeing(facts, pattern, binding, count);
        if index < count {
            if fact_agrees(pattern, binding, facts[index].fact) {
                if index < less {
                    let k = choose|k: int| 0 <= k < front.len() && front[k] == index;
                    assert(list[k] == index);
                } else {
                    assert(list[list.len() - 1] == index);
                }
            } else if list.contains(index) {
                let k = choose|k: int| 0 <= k < list.len() && list[k] == index;
                if k < front.len() {
                    assert(front[k] == index);
                    assert(front.contains(index));
                }
            }
        }
    }
}

} // verus!
