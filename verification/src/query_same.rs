//! Equal facts have equal answers: a query has one result, and the facts alone decide it.

use crate::epoch_io::counted;
use crate::fact::{Atom, AtomModel, Literal, Predicate, views};
use crate::kernel::active;
use crate::ordered::{Rank, before, before_irreflexive, before_transitive, rank_of};
use crate::query::{ActiveFacts, QueryResult, answer_rank_flips, finds, finds_active};
use crate::query_model::{
    AnswerModel, BoundModel, BoundVariableModel, FactSource, PatternModel, QueryMetrics,
    QueryOptions, WalkModel, answer_rank, binding_rank, chosen_index, fewest, fresh_walk, in_rank,
    in_turn, kept_answers, provenance_rank, row_of, sorts, unified, variable_rank, walked,
    walked_picks, whole_walk,
};
use crate::world::WorldModel;
use vstd::prelude::*;

verus! {

/// Two sources hold the same facts and try them in the same order.
pub open spec fn same_offers<S: FactSource, T: FactSource>(left: S, right: T) -> bool {
    &&& left.facts() == right.facts()
    &&& forall|pattern: PatternModel, binding: Seq<BoundVariableModel>|
        #[trigger] left.picks(pattern, binding) == right.picks(pattern, binding)
}

proof fn same_choice<S: FactSource, T: FactSource>(
    left: S,
    right: T,
    patterns: Seq<PatternModel>,
    binding: Seq<BoundVariableModel>,
)
    requires
        same_offers(left, right),
    ensures
        fewest(left, patterns, binding) == fewest(right, patterns, binding),
    decreases patterns.len(),
{
    if patterns.len() > 1 {
        same_choice(left, right, patterns.drop_last(), binding);
        let front = fewest(left, patterns.drop_last(), binding);
        assert(left.picks(patterns.last(), binding) == right.picks(patterns.last(), binding));
        assert(left.picks(patterns[front], binding) == right.picks(patterns[front], binding));
    }
}

proof fn same_walk<S: FactSource, T: FactSource>(
    left: S,
    right: T,
    answer: AnswerModel,
    remaining: Seq<PatternModel>,
    depth: nat,
    options: QueryOptions,
    state: WalkModel,
)
    requires
        same_offers(left, right),
    ensures
        walked(left, answer, remaining, depth, options, state) == walked(
            right,
            answer,
            remaining,
            depth,
            options,
            state,
        ),
    decreases 2 * remaining.len(), 0nat,
{
    if remaining.len() > 0 {
        same_choice(left, right, remaining, answer.binding);
        let index = chosen_index(left, remaining, answer.binding, options);
        let chosen = remaining[index];
        let rest = remaining.take(index) + remaining.skip(index + 1);
        let picks = left.picks(chosen, answer.binding);
        assert(picks == right.picks(chosen, answer.binding));
        let begun = WalkModel {
            first_path: if depth == state.first_path.len() {
                state.first_path.push(chosen)
            } else {
                state.first_path
            },
            metrics: QueryMetrics {
                candidate_facts: counted(state.metrics.candidate_facts, picks.len()),
                ..state.metrics
            },
            ..state
        };
        if rest.len() < remaining.len() {
            same_picks(
                left,
                right,
                answer,
                chosen,
                rest,
                depth,
                options,
                picks,
                picks.len(),
                begun,
            );
        }
    }
}

proof fn same_picks<S: FactSource, T: FactSource>(
    left: S,
    right: T,
    answer: AnswerModel,
    chosen: PatternModel,
    rest: Seq<PatternModel>,
    depth: nat,
    options: QueryOptions,
    picks: Seq<int>,
    count: nat,
    state: WalkModel,
)
    requires
        same_offers(left, right),
    ensures
        walked_picks(left, answer, chosen, rest, depth, options, picks, count, state)
            == walked_picks(right, answer, chosen, rest, depth, options, picks, count, state),
    decreases 2 * rest.len() + 1, count,
{
    if count > 0 {
        let less = (count - 1) as nat;
        same_picks(left, right, answer, chosen, rest, depth, options, picks, less, state);
        let before = walked_picks(
            left,
            answer,
            chosen,
            rest,
            depth,
            options,
            picks,
            less,
            state,
        );
        let entry = left.facts()[picks[count - 1]];
        if !before.done {
            if let Some(binding) = unified(chosen, entry.fact, answer.binding) {
                let deeper = AnswerModel {
                    binding,
                    provenance: answer.provenance.push(entry.slot),
                };
                let begun = WalkModel {
                    metrics: QueryMetrics {
                        bindings_emitted: counted(before.metrics.bindings_emitted, 1),
                        ..before.metrics
                    },
                    ..before
                };
                same_walk(left, right, deeper, rest, depth + 1, options, begun);
            }
        }
    }
}

/// Ranks along a chain: what comes before or with something else comes before or with what that
/// comes before or with.
pub open spec fn chains(first: Rank, second: Rank, both: Rank) -> bool {
    &&& first == Rank::Same ==> both == second
    &&& second == Rank::Same ==> both == first
    &&& first == Rank::Before && second == Rank::Before ==> both == Rank::Before
}

proof fn text_ranks_chain(a: Seq<char>, b: Seq<char>, c: Seq<char>)
    ensures
        chains(rank_of(a, b), rank_of(b, c), rank_of(a, c)),
{
    if before(a, b) && before(b, c) {
        before_transitive(a, b, c);
        before_irreflexive(a);
    }
}

proof fn variable_ranks_chain(
    a: BoundVariableModel,
    b: BoundVariableModel,
    c: BoundVariableModel,
)
    ensures
        chains(variable_rank(a, b), variable_rank(b, c), variable_rank(a, c)),
        variable_rank(a, b) == Rank::Same ==> a == b,
{
    text_ranks_chain(a.name, b.name, c.name);
    match (a.value, b.value, c.value) {
        (
            BoundModel::Atom(AtomModel::Literal(x)),
            BoundModel::Atom(AtomModel::Literal(y)),
            BoundModel::Atom(AtomModel::Literal(z)),
        ) => {
            text_ranks_chain(x, y, z);
        },
        (BoundModel::Predicate(x), BoundModel::Predicate(y), BoundModel::Predicate(z)) => {
            text_ranks_chain(x, y, z);
        },
        _ => {},
    }
}

proof fn binding_ranks_chain(
    a: Seq<BoundVariableModel>,
    b: Seq<BoundVariableModel>,
    c: Seq<BoundVariableModel>,
    from: int,
)
    requires
        0 <= from,
    ensures
        chains(binding_rank(a, b, from), binding_rank(b, c, from), binding_rank(a, c, from)),
    decreases a.len() - from,
{
    if from < a.len() && from < b.len() && from < c.len() {
        variable_ranks_chain(a[from], b[from], c[from]);
        variable_ranks_chain(b[from], c[from], a[from]);
        binding_ranks_chain(a, b, c, from + 1);
    }
}

proof fn same_bindings(a: Seq<BoundVariableModel>, b: Seq<BoundVariableModel>, from: int)
    requires
        0 <= from <= a.len(),
        from <= b.len(),
        binding_rank(a, b, from) == Rank::Same,
    ensures
        a.len() == b.len(),
        forall|i: int| from <= i < a.len() ==> a[i] == b[i],
    decreases a.len() - from,
{
    if from < a.len() && from < b.len() {
        variable_ranks_chain(a[from], b[from], b[from]);
        same_bindings(a, b, from + 1);
    }
}

proof fn provenance_ranks_chain(a: Seq<Seq<char>>, b: Seq<Seq<char>>, c: Seq<Seq<char>>, from: int)
    requires
        0 <= from,
    ensures
        chains(
            provenance_rank(a, b, from),
            provenance_rank(b, c, from),
            provenance_rank(a, c, from),
        ),
    decreases a.len() - from,
{
    if from < a.len() && from < b.len() && from < c.len() {
        text_ranks_chain(a[from], b[from], c[from]);
        provenance_ranks_chain(a, b, c, from + 1);
    }
}

proof fn same_provenances(a: Seq<Seq<char>>, b: Seq<Seq<char>>, from: int)
    requires
        0 <= from <= a.len(),
        from <= b.len(),
        provenance_rank(a, b, from) == Rank::Same,
    ensures
        a.len() == b.len(),
        forall|i: int| from <= i < a.len() ==> a[i] == b[i],
    decreases a.len() - from,
{
    if from < a.len() && from < b.len() {
        same_provenances(a, b, from + 1);
    }
}

proof fn answer_ranks_chain(a: AnswerModel, b: AnswerModel, c: AnswerModel)
    ensures
        chains(answer_rank(a, b), answer_rank(b, c), answer_rank(a, c)),
        answer_rank(a, b) == Rank::Same ==> a == b,
{
    reveal(answer_rank);
    binding_ranks_chain(a.binding, b.binding, c.binding, 0);
    provenance_ranks_chain(a.provenance, b.provenance, c.provenance, 0);
    if answer_rank(a, b) == Rank::Same {
        same_bindings(a.binding, b.binding, 0);
        same_provenances(a.provenance, b.provenance, 0);
        assert(a.binding =~= b.binding);
        assert(a.provenance =~= b.provenance);
    }
}

/// Does not come after.
pub open spec fn not_after(left: AnswerModel, right: AnswerModel) -> bool {
    answer_rank(left, right) != Rank::After
}

pub proof fn ranked_rows(rows: Seq<AnswerModel>, i: int, j: int)
    requires
        in_rank(rows),
        0 <= i < j < rows.len(),
    ensures
        not_after(rows[i], rows[j]),
    decreases j - i,
{
    assert(in_turn(rows, j - 1));
    if i < j - 1 {
        ranked_rows(rows, i, j - 1);
        answer_ranks_chain(rows[i], rows[j - 1], rows[j]);
    }
}

/// There is one order of the answers.
pub proof fn order_of_answers_is_unique(
    answers: Seq<AnswerModel>,
    left: Seq<AnswerModel>,
    right: Seq<AnswerModel>,
)
    requires
        sorts(answers, left),
        sorts(answers, right),
    ensures
        left == right,
{
    let order = |a: AnswerModel, b: AnswerModel| not_after(a, b);
    assert forall|a: AnswerModel| #[trigger] order(a, a) by {
        answer_rank_flips(a, a);
    }
    assert forall|a: AnswerModel, b: AnswerModel| #[trigger] order(a, b) || #[trigger] order(b, a) by {
        answer_rank_flips(a, b);
    }
    assert forall|a: AnswerModel, b: AnswerModel| #[trigger] order(a, b) && #[trigger] order(b, a)
        implies a == b by {
        answer_rank_flips(a, b);
        answer_ranks_chain(a, b, b);
    }
    assert forall|a: AnswerModel, b: AnswerModel, c: AnswerModel| #[trigger]
        order(a, b) && #[trigger] order(b, c) implies order(a, c) by {
        answer_ranks_chain(a, b, c);
    }
    assert forall|i: int, j: int| 0 <= i < j < left.len() implies #[trigger] order(
        left[i],
        left[j],
    ) by {
        ranked_rows(left, i, j);
    }
    assert forall|i: int, j: int| 0 <= i < j < right.len() implies #[trigger] order(
        right[i],
        right[j],
    ) by {
        ranked_rows(right, i, j);
    }
    vstd::seq_lib::lemma_sorted_unique(left, right, order);
}

/// Two sources of the same facts give a query the same result: the same rows in the same order, the
/// same metrics, and the same path.
pub proof fn equal_sources_answer_equally<S: FactSource, T: FactSource>(
    left: S,
    right: T,
    patterns: Seq<PatternModel>,
    options: QueryOptions,
    first: QueryResult,
    second: QueryResult,
)
    requires
        same_offers(left, right),
        finds(left, patterns, options, first),
        finds(right, patterns, options, second),
    ensures
        views(first.rows@) == views(second.rows@),
        views(first.chosen_first_path@) == views(second.chosen_first_path@),
        first.metrics == second.metrics,
{
    reveal(whole_walk);
    let start = AnswerModel { binding: Seq::empty(), provenance: Seq::empty() };
    same_walk(left, right, start, patterns, 0, options, fresh_walk());
    let walk = whole_walk(left, patterns, options);
    let kept = kept_answers(walk.output, options.distinct);
    let rows = choose|rows: Seq<AnswerModel>|
        {
            &&& #[trigger] sorts(kept, rows)
            &&& views(first.rows@) == Seq::new(
                rows.len(),
                |i: int| row_of(rows[i], options.include_provenance),
            )
        };
    let others = choose|rows: Seq<AnswerModel>|
        {
            &&& #[trigger] sorts(kept, rows)
            &&& views(second.rows@) == Seq::new(
                rows.len(),
                |i: int| row_of(rows[i], options.include_provenance),
            )
        };
    order_of_answers_is_unique(kept, rows, others);
}

/// Worlds with the same live facts answer every query alike, whatever led to them.
pub proof fn equal_worlds_answer_equally(
    left: WorldModel,
    right: WorldModel,
    patterns: Seq<PatternModel>,
    options: QueryOptions,
    first: QueryResult,
    second: QueryResult,
)
    requires
        left.kernel.live == right.kernel.live,
        finds_active(left.kernel.live, patterns, options, first),
        finds_active(right.kernel.live, patterns, options, second),
    ensures
        views(first.rows@) == views(second.rows@),
        views(first.chosen_first_path@) == views(second.chosen_first_path@),
        first.metrics == second.metrics,
{
    let live = left.kernel.live;
    let one = choose|source: ActiveFacts|
        source.listed() == active(live) && #[trigger] finds(source, patterns, options, first);
    let other = choose|source: ActiveFacts|
        source.listed() == active(live) && #[trigger] finds(source, patterns, options, second);
    assert(one.facts() =~= other.facts());
    equal_sources_answer_equally(one, other, patterns, options, first, second);
}

} // verus!
