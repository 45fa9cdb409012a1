//! What a limit does to a query: it ends the walk, and changes nothing in front of that.

use crate::epoch_io::counted;
use crate::fact::views;
use crate::query::{QueryResult, finds};
use crate::query_model::{
    AnswerModel, FactSource, PatternModel, QueryMetrics, QueryOptions, WalkModel, chosen_index,
    fresh_walk, kept_answers, row_of, sorts, unified, walked, walked_picks, whole_walk,
};
use vstd::prelude::*;

verus! {

/// A walk only adds answers, and without a limit it is never done.
pub proof fn walk_adds<S: FactSource>(
    source: S,
    answer: AnswerModel,
    remaining: Seq<PatternModel>,
    depth: nat,
    options: QueryOptions,
    state: WalkModel,
)
    requires
        options.limit is None,
        !state.done,
    ensures
        ({
            let after = walked(source, answer, remaining, depth, options, state);
            &&& !after.done
            &&& after.output.len() >= state.output.len()
            &&& after.output.take(state.output.len() as int) == state.output
        }),
    decreases 2 * remaining.len(), 0nat,
{
    let after = walked(source, answer, remaining, depth, options, state);
    if remaining.len() == 0 {
        assert(after.output.take(state.output.len() as int) =~= state.output);
    } else {
        let index = chosen_index(source, remaining, answer.binding, options);
        let chosen = remaining[index];
        let rest = remaining.take(index) + remaining.skip(index + 1);
        let picks = source.picks(chosen, answer.binding);
        let begun = WalkModel {
            first_path: if depth == state.first_path.len() {
                state.first_path.push(chosen)
            } else {
                state.first_path
            },
            metrics: QueryMetrics {
                candidate_facts: counted(state.metrics.candidate_facts, picks.len()),
                ..state.metrics
            },
            ..state
        };
        if rest.len() < remaining.len() {
            picks_add(source, answer, chosen, rest, depth, options, picks, picks.len(), begun);
        } else {
            assert(after.output.take(state.output.len() as int) =~= state.output);
        }
    }
}

pub proof fn picks_add<S: FactSource>(
    source: S,
    answer: AnswerModel,
    chosen: PatternModel,
    rest: Seq<PatternModel>,
    depth: nat,
    options: QueryOptions,
    picks: Seq<int>,
    count: nat,
    state: WalkModel,
)
    requires
        options.limit is None,
        !state.done,
    ensures
        ({
            let after = walked_picks(
                source,
                answer,
                chosen,
                rest,
                depth,
                options,
                picks,
                count,
                state,
            );
            &&& !after.done
            &&& after.output.len() >= state.output.len()
            &&& after.output.take(state.output.len() as int) == state.output
        }),
    decreases 2 * rest.len() + 1, count,
{
    let after = walked_picks(source, answer, chosen, rest, depth, options, picks, count, state);
    if count == 0 {
        assert(after.output.take(state.output.len() as int) =~= state.output);
    } else {
        let less = (count - 1) as nat;
        picks_add(source, answer, chosen, rest, depth, options, picks, less, state);
        let before = walked_picks(
            source,
            answer,
            chosen,
            rest,
            depth,
            options,
            picks,
            less,
            state,
        );
        let entry = source.facts()[picks[count - 1]];
        if let Some(binding) = unified(chosen, entry.fact, answer.binding) {
            let deeper = AnswerModel { binding, provenance: answer.provenance.push(entry.slot) };
            let begun = WalkModel {
                metrics: QueryMetrics {
                    bindings_emitted: counted(before.metrics.bindings_emitted, 1),
                    ..before.metrics
                },
                ..before
            };
            walk_adds(source, deeper, rest, depth + 1, options, begun);
            assert(after.output.take(state.output.len() as int) =~= after.output.take(
                before.output.len() as int,
            ).take(state.output.len() as int));
        }
    }
}

/// A walk with a limit is the walk without one up to where that has as many answers.
pub open spec fn limits(limit: nat, limited: WalkModel, whole: WalkModel) -> bool {
    if whole.output.len() < limit {
        limited == whole
    } else {
        limited.done && limited.output == whole.output.take(limit as int)
    }
}

proof fn walk_is_limited<S: FactSource>(
    source: S,
    answer: AnswerModel,
    remaining: Seq<PatternModel>,
    depth: nat,
    options: QueryOptions,
    whole: QueryOptions,
    limit: nat,
    state: WalkModel,
)
    requires
        options.limit matches Some(own) && limit == if own == 0 {
            1
        } else {
            own as int
        },
        whole == (QueryOptions { limit: None, ..options }),
        !state.done,
        state.output.len() < limit,
    ensures
        limits(
            limit,
            walked(source, answer, remaining, depth, options, state),
            walked(source, answer, remaining, depth, whole, state),
        ),
    decreases 2 * remaining.len(), 0nat,
{
    if remaining.len() == 0 {
        let output = state.output.push(answer);
        if output.len() >= limit {
            assert(output.take(limit as int) =~= output);
        }
    } else {
        let index = chosen_index(source, remaining, answer.binding, options);
        let chosen = remaining[index];
        let rest = remaining.take(index) + remaining.skip(index + 1);
        let picks = source.picks(chosen, answer.binding);
        let begun = WalkModel {
            first_path: if depth == state.first_path.len() {
                state.first_path.push(chosen)
            } else {
                state.first_path
            },
            metrics: QueryMetrics {
                candidate_facts: counted(state.metrics.candidate_facts, picks.len()),
                ..state.metrics
            },
            ..state
        };
        if rest.len() < remaining.len() {
            picks_are_limited(
                source,
                answer,
                chosen,
                rest,
                depth,
                options,
                whole,
                limit,
                picks,
                picks.len(),
                begun,
            );
        }
    }
}

proof fn picks_are_limited<S: FactSource>(
    source: S,
    answer: AnswerModel,
    chosen: PatternModel,
    rest: Seq<PatternModel>,
    depth: nat,
    options: QueryOptions,
    whole: QueryOptions,
    limit: nat,
    picks: Seq<int>,
    count: nat,
    state: WalkModel,
)
    requires
        options.limit matches Some(own) && limit == if own == 0 {
            1
        } else {
            own as int
        },
        whole == (QueryOptions { limit: None, ..options }),
        !state.done,
        state.output.len() < limit,
    ensures
        limits(
            limit,
            walked_picks(source, answer, chosen, rest, depth, options, picks, count, state),
            walked_picks(source, answer, chosen, rest, depth, whole, picks, count, state),
        ),
    decreases 2 * rest.len() + 1, count,
{
    if count > 0 {
        let less = (count - 1) as nat;
        picks_are_limited(
            source,
            answer,
            chosen,
            rest,
            depth,
            options,
            whole,
            limit,
            picks,
            less,
            state,
        );
        picks_add(source, answer, chosen, rest, depth, whole, picks, less, state);
        let before = walked_picks(source, answer, chosen, rest, depth, whole, picks, less, state);
        let after = walked_picks(source, answer, chosen, rest, depth, whole, picks, count, state);
        let entry = source.facts()[picks[count - 1]];
        if let Some(binding) = unified(chosen, entry.fact, answer.binding) {
            let deeper = AnswerModel { binding, provenance: answer.provenance.push(entry.slot) };
            let begun = WalkModel {
                metrics: QueryMetrics {
                    bindings_emitted: counted(before.metrics.bindings_emitted, 1),
                    ..before.metrics
                },
                ..before
            };
            walk_adds(source, deeper, rest, depth + 1, whole, begun);
            if before.output.len() < limit {
                walk_is_limited(
                    source,
                    deeper,
                    rest,
                    depth + 1,
                    options,
                    whole,
                    limit,
                    begun,
                );
            } else {
                assert(after.output.take(limit as int) =~= after.output.take(
                    before.output.len() as int,
                ).take(limit as int));
            }
        }
    }
}

/// A query with a limit walks to the first answers that the same query without one walks to, in the
/// same order: as many as the limit says, or all where there are fewer. A limit of nothing still
/// gives the first answer. Where the limit is not reached it changes nothing at all.
pub proof fn limits_keep_the_first_answers<S: FactSource>(
    source: S,
    patterns: Seq<PatternModel>,
    options: QueryOptions,
)
    requires
        options.limit is Some,
    ensures
        ({
            let limited = whole_walk(source, patterns, options);
            let whole = whole_walk(source, patterns, QueryOptions { limit: None, ..options });
            let limit = options.limit->Some_0 as int;
            let most = if limit == 0 {
                1
            } else {
                limit
            };
            &&& limited.output == whole.output.take(
                if whole.output.len() < most {
                    whole.output.len() as int
                } else {
                    most
                },
            )
            &&& whole.output.len() < most ==> limited == whole
        }),
{
    reveal(whole_walk);
    let own = options.limit->Some_0;
    let limit: nat = if own == 0 {
        1
    } else {
        own as nat
    };
    let whole = QueryOptions { limit: None, ..options };
    let start = AnswerModel { binding: Seq::empty(), provenance: Seq::empty() };
    walk_is_limited(source, start, patterns, 0, options, whole, limit, fresh_walk());
    let output = whole_walk(source, patterns, whole).output;
    assert(output.take(output.len() as int) =~= output);
}

/// How many rows a query gives: without `distinct` one for each answer of the walk, so with a limit
/// the smaller of the two numbers.
pub proof fn limited_rows_are_counted<S: FactSource>(
    source: S,
    patterns: Seq<PatternModel>,
    options: QueryOptions,
    limited: QueryResult,
    whole: QueryResult,
)
    requires
        options.limit is Some,
        !options.distinct,
        finds(source, patterns, options, limited),
        finds(source, patterns, QueryOptions { limit: None, ..options }, whole),
    ensures
        ({
            let limit = options.limit->Some_0 as int;
            let most = if limit == 0 {
                1
            } else {
                limit
            };
            limited.rows@.len() == if whole.rows@.len() < most {
                whole.rows@.len() as int
            } else {
                most
            }
        }),
{
    limits_keep_the_first_answers(source, patterns, options);
    row_count(source, patterns, options, limited);
    row_count(source, patterns, QueryOptions { limit: None, ..options }, whole);
}

/// Without `distinct` there is one row for each answer of the walk.
pub proof fn row_count<S: FactSource>(
    source: S,
    patterns: Seq<PatternModel>,
    options: QueryOptions,
    result: QueryResult,
)
    requires
        !options.distinct,
        finds(source, patterns, options, result),
    ensures
        result.rows@.len() == whole_walk(source, patterns, options).output.len(),
{
    let output = whole_walk(source, patterns, options).output;
    let kept = kept_answers(output, options.distinct);
    let rows = choose|rows: Seq<AnswerModel>|
        {
            &&& #[trigger] sorts(kept, rows)
            &&& views(result.rows@) == Seq::new(
                rows.len(),
                |i: int| row_of(rows[i], options.include_provenance),
            )
        };
    rows.to_multiset_ensures();
    kept.to_multiset_ensures();
    assert(views(result.rows@).len() == result.rows@.len());
}

} // verus!
