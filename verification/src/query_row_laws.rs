//! Where the rows of a query come from, which of them are kept and how they are ordered.

use crate::epoch_io::counted;
use crate::fact::{Atom, AtomModel, Literal, Predicate, views};
use crate::ordered::{Rank, before, before_irreflexive};
use crate::query::{QueryResult, answer_rank_flips, finds};
use crate::query_laws::{
    extends, offers_what_fits, satisfied, satisfied_stays, unification_is_exact,
};
use crate::query_model::{
    AnswerModel, BoundModel, BoundVariableModel, FactSource, PatternModel, QueryMetrics,
    QueryOptions, WalkModel, answer_rank, binding_ok, binding_rank, bound_before, chosen_index,
    fewest, fewest_in_range, fresh_walk, kept_answers, provenance_rank, row_of, sorts, unified,
    value_of, value_rank, variable_rank, walked, walked_picks, whole_walk,
};
use crate::query_same::{not_after, ranked_rows};
use vstd::prelude::*;

verus! {

/// A slot holds a fact of the source that is the pattern.
pub open spec fn given_by<S: FactSource>(
    source: S,
    pattern: PatternModel,
    slot: Seq<char>,
    binding: Seq<BoundVariableModel>,
) -> bool {
    exists|i: int|
        source.facts().contains_key(i) && (#[trigger] source.facts()[i]).slot == slot
            && satisfied(pattern, binding, source.facts()[i].fact)
}

/// An answer has a binding.
pub open spec fn has_binding(
    answers: Seq<AnswerModel>,
    binding: Seq<BoundVariableModel>,
) -> bool {
    exists|k: int| 0 <= k < answers.len() && (#[trigger] answers[k]).binding == binding
}

/// The slots of an answer are those of facts that are the patterns, one by one.
pub open spec fn gives<S: FactSource>(
    source: S,
    patterns: Seq<PatternModel>,
    slots: Seq<Seq<char>>,
    binding: Seq<BoundVariableModel>,
) -> bool {
    &&& slots.len() == patterns.len()
    &&& forall|k: int|
        0 <= k < patterns.len() ==> given_by(source, #[trigger] patterns[k], slots[k], binding)
}

/// An answer goes on from a partial one: it has its values and its slots, and further slots for the
/// remaining patterns, in some order.
pub open spec fn goes_on<S: FactSource>(
    source: S,
    start: AnswerModel,
    taken: Seq<PatternModel>,
    answer: AnswerModel,
) -> bool {
    &&& binding_ok(answer.binding)
    &&& extends(start.binding, answer.binding)
    &&& start.provenance.len() + taken.len() == answer.provenance.len()
    &&& answer.provenance.take(start.provenance.len() as int) == start.provenance
    &&& gives(
        source,
        taken,
        answer.provenance.skip(start.provenance.len() as int),
        answer.binding,
    )
}

/// The new answers of a walk go on from where it began.
spec fn all_go_on<S: FactSource>(
    source: S,
    start: AnswerModel,
    remaining: Seq<PatternModel>,
    options: QueryOptions,
    before: Seq<AnswerModel>,
    after: Seq<AnswerModel>,
) -> bool {
    &&& before.len() <= after.len()
    &&& forall|j: int| 0 <= j < before.len() ==> #[trigger] after[j] == before[j]
    &&& forall|j: int|
        before.len() <= j < after.len() ==> one_goes_on(
            source,
            start,
            remaining,
            options,
            #[trigger] after[j],
        )
}

spec fn one_goes_on<S: FactSource>(
    source: S,
    start: AnswerModel,
    remaining: Seq<PatternModel>,
    options: QueryOptions,
    answer: AnswerModel,
) -> bool {
    exists|taken: Seq<PatternModel>|
        {
            &&& #[trigger] goes_on(source, start, taken, answer)
            &&& taken.to_multiset() == remaining.to_multiset()
            &&& !options.optimize ==> taken == remaining
        }
}

/// One more fact in front of the slots.
proof fn one_more_slot<S: FactSource>(
    source: S,
    start: AnswerModel,
    chosen: PatternModel,
    place: int,
    binding: Seq<BoundVariableModel>,
    taken: Seq<PatternModel>,
    answer: AnswerModel,
)
    requires
        binding_ok(start.binding),
        source.facts().contains_key(place),
        unified(chosen, source.facts()[place].fact, start.binding) == Some(binding),
        goes_on(
            source,
            AnswerModel {
                binding,
                provenance: start.provenance.push(source.facts()[place].slot),
            },
            taken,
            answer,
        ),
    ensures
        goes_on(source, start, seq![chosen] + taken, answer),
{
    let entry = source.facts()[place];
    unification_is_exact(chosen, entry.fact, start.binding, binding);
    assert(extends(start.binding, answer.binding)) by {
        assert forall|name: Seq<char>| (#[trigger] value_of(start.binding, name)) is Some implies
            value_of(answer.binding, name) == value_of(start.binding, name) by {
            assert(value_of(binding, name) == value_of(start.binding, name));
        }
    }
    satisfied_stays(chosen, binding, answer.binding, entry.fact);
    let n = start.provenance.len() as int;
    let longer = start.provenance.push(entry.slot);
    assert(answer.provenance.take(n) =~= answer.provenance.take(n + 1).take(n));
    assert(longer.take(n) =~= start.provenance);
    assert(answer.provenance.take(n + 1) == longer);
    assert(answer.provenance.take(n) == start.provenance);
    assert(answer.provenance.take(n + 1)[n] == entry.slot);
    let all = seq![chosen] + taken;
    let slots = answer.provenance.skip(n);
    let less = answer.provenance.skip(n + 1);
    assert forall|k: int| 0 <= k < all.len() implies given_by(
        source,
        #[trigger] all[k],
        slots[k],
        answer.binding,
    ) by {
        if k == 0 {
            assert(source.facts()[place].slot == slots[k]);
        } else {
            assert(all[k] == taken[k - 1]);
            assert(slots[k] == less[k - 1]);
        }
    }
    assert(gives(source, all, slots, answer.binding));
}

proof fn walk_goes_on<S: FactSource>(
    source: S,
    answer: AnswerModel,
    remaining: Seq<PatternModel>,
    depth: nat,
    options: QueryOptions,
    state: WalkModel,
)
    requires
        offers_what_fits(source),
        binding_ok(answer.binding),
    ensures
        all_go_on(
            source,
            answer,
            remaining,
            options,
            state.output,
            walked(source, answer, remaining, depth, options, state).output,
        ),
    decreases 2 * remaining.len(), 0nat,
{
    if remaining.len() == 0 {
        assert(remaining =~= Seq::<PatternModel>::empty());
        assert(answer.provenance.take(answer.provenance.len() as int) =~= answer.provenance);
        assert(goes_on(source, answer, remaining, answer));
        assert(one_goes_on(source, answer, remaining, options, answer));
    } else {
        fewest_in_range(source, remaining, answer.binding);
        let index = chosen_index(source, remaining, answer.binding, options);
        let chosen = remaining[index];
        let rest = remaining.take(index) + remaining.skip(index + 1);
        let picks = source.picks(chosen, answer.binding);
        let begun = WalkModel {
            first_path: if depth == state.first_path.len() {
                state.first_path.push(chosen)
            } else {
                state.first_path
            },
            metrics: QueryMetrics {
                candidate_facts: counted(state.metrics.candidate_facts, picks.len()),
                ..state.metrics
            },
            ..state
        };
        picks_go_on(source, answer, chosen, rest, depth, options, picks, picks.len(), begun);
        let after = walked(source, answer, remaining, depth, options, state).output;
        assert forall|j: int| state.output.len() <= j < after.len() implies one_goes_on(
            source,
            answer,
            remaining,
            options,
            #[trigger] after[j],
        ) by {
            let all = seq![chosen] + rest;
            assert(one_goes_on(source, answer, all, options, after[j]));
            let taken = choose|taken: Seq<PatternModel>|
                {
                    &&& #[trigger] goes_on(source, answer, taken, after[j])
                    &&& taken.to_multiset() == all.to_multiset()
                    &&& !options.optimize ==> taken == all
                };
            first_is_moved(remaining, index);
            if !options.optimize {
                assert(all =~= remaining);
            }
            assert(goes_on(source, answer, taken, after[j]));
        }
    }
}

/// Taking a pattern out and putting it in front changes the order alone.
proof fn first_is_moved(patterns: Seq<PatternModel>, index: int)
    requires
        0 <= index < patterns.len(),
    ensures
        (seq![patterns[index]] + (patterns.take(index) + patterns.skip(index + 1))).to_multiset()
            == patterns.to_multiset(),
{
    let rest = patterns.take(index) + patterns.skip(index + 1);
    assert(rest =~= patterns.remove(index));
    vstd::seq_lib::to_multiset_remove(patterns, index);
    let one = seq![patterns[index]];
    vstd::seq_lib::lemma_multiset_commutative(one, rest);
    assert(one =~= Seq::empty().push(patterns[index]));
    vstd::seq_lib::to_multiset_build(Seq::<PatternModel>::empty(), patterns[index]);
    Seq::<PatternModel>::empty().to_multiset_ensures();
    patterns.to_multiset_ensures();
    assert(patterns.contains(patterns[index]));
    assert(Seq::<PatternModel>::empty().to_multiset() =~= vstd::multiset::Multiset::empty());
    assert((one + rest).to_multiset() =~= patterns.to_multiset());
}

proof fn picks_go_on<S: FactSource>(
    source: S,
    answer: AnswerModel,
    chosen: PatternModel,
    rest: Seq<PatternModel>,
    depth: nat,
    options: QueryOptions,
    picks: Seq<int>,
    count: nat,
    state: WalkModel,
)
    requires
        offers_what_fits(source),
        binding_ok(answer.binding),
        picks == source.picks(chosen, answer.binding),
        count <= picks.len(),
    ensures
        all_go_on(
            source,
            answer,
            seq![chosen] + rest,
            options,
            state.output,
            walked_picks(
                source,
                answer,
                chosen,
                rest,
                depth,
                options,
                picks,
                count,
                state,
            ).output,
        ),
    decreases 2 * rest.len() + 1, count,
{
    if count > 0 {
        let fewer = (count - 1) as nat;
        picks_go_on(source, answer, chosen, rest, depth, options, picks, fewer, state);
        let before = walked_picks(
            source,
            answer,
            chosen,
            rest,
            depth,
            options,
            picks,
            fewer,
            state,
        );
        let place = picks[count - 1];
        let entry = source.facts()[place];
        if !before.done {
            unification_is_exact(chosen, entry.fact, answer.binding, answer.binding);
            if let Some(binding) = unified(chosen, entry.fact, answer.binding) {
                let deeper = AnswerModel {
                    binding,
                    provenance: answer.provenance.push(entry.slot),
                };
                let begun = WalkModel {
                    metrics: QueryMetrics {
                        bindings_emitted: counted(before.metrics.bindings_emitted, 1),
                        ..before.metrics
                    },
                    ..before
                };
                walk_goes_on(source, deeper, rest, depth + 1, options, begun);
                let after = walked(source, deeper, rest, depth + 1, options, begun).output;
                let all = seq![chosen] + rest;
                assert forall|j: int| 0 <= j < state.output.len() implies #[trigger] after[j]
                    == state.output[j] by {
                    assert(after[j] == before.output[j]);
                }
                assert forall|j: int| state.output.len() <= j < after.len() implies one_goes_on(
                    source,
                    answer,
                    all,
                    options,
                    #[trigger] after[j],
                ) by {
                    if j < before.output.len() {
                        assert(after[j] == before.output[j]);
                    } else {
                        assert(one_goes_on(source, deeper, rest, options, after[j]));
                        let taken = choose|taken: Seq<PatternModel>|
                            {
                                &&& #[trigger] goes_on(source, deeper, taken, after[j])
                                &&& taken.to_multiset() == rest.to_multiset()
                                &&& !options.optimize ==> taken == rest
                            };
                        one_more_slot(source, answer, chosen, place, binding, taken, after[j]);
                        let more = seq![chosen] + taken;
                        vstd::seq_lib::lemma_multiset_commutative(seq![chosen], taken);
                        vstd::seq_lib::lemma_multiset_commutative(seq![chosen], rest);
                        assert(goes_on(source, answer, more, after[j]));
                    }
                }
            }
        }
    }
}

/// An answer names, for each pattern once, the slot of a fact that is the pattern with the values of
/// the answer: in the order of the patterns, or in another order where the patterns are reordered.
pub proof fn each_answer_names_its_facts<S: FactSource>(
    source: S,
    patterns: Seq<PatternModel>,
    options: QueryOptions,
    index: int,
)
    requires
        offers_what_fits(source),
        0 <= index < whole_walk(source, patterns, options).output.len(),
    ensures
        ({
            let answer = whole_walk(source, patterns, options).output[index];
            &&& !options.optimize ==> gives(source, patterns, answer.provenance, answer.binding)
            &&& exists|taken: Seq<PatternModel>|
                taken.to_multiset() == patterns.to_multiset() && #[trigger] gives(
                    source,
                    taken,
                    answer.provenance,
                    answer.binding,
                )
        }),
{
    reveal(whole_walk);
    let start = AnswerModel { binding: Seq::empty(), provenance: Seq::empty() };
    walk_goes_on(source, start, patterns, 0, options, fresh_walk());
    let output = whole_walk(source, patterns, options).output;
    let answer = output[index];
    assert(one_goes_on(source, start, patterns, options, output[index]));
    let taken = choose|taken: Seq<PatternModel>|
        {
            &&& #[trigger] goes_on(source, start, taken, answer)
            &&& taken.to_multiset() == patterns.to_multiset()
            &&& !options.optimize ==> taken == patterns
        };
    assert(answer.provenance.skip(0) =~= answer.provenance);
    assert(gives(source, taken, answer.provenance, answer.binding));
}

/// The kept answers stand at these places, in order, and none of them has its binding at an earlier
/// place.
pub open spec fn first_places(
    all: Seq<AnswerModel>,
    kept: Seq<AnswerModel>,
    places: Seq<int>,
) -> bool {
    &&& places.len() == kept.len()
    &&& forall|a: int, b: int|
        0 <= a < b < places.len() ==> #[trigger] places[a] < #[trigger] places[b]
    &&& forall|a: int|
        0 <= a < places.len() ==> 0 <= #[trigger] places[a] < all.len() && kept[a]
            == all[places[a]] && forall|k: int|
            0 <= k < places[a] ==> (#[trigger] all[k]).binding != all[places[a]].binding
}

/// `distinct` keeps the first answer of each binding and nothing else: no binding is kept twice,
/// none is lost, what is kept keeps its order. Without it every answer is kept.
pub proof fn distinct_keeps_first_answers(all: Seq<AnswerModel>)
    ensures
        kept_answers(all, false) == all,
        forall|i: int, j: int|
            0 <= i < j < kept_answers(all, true).len() ==> (#[trigger] kept_answers(
                all,
                true,
            )[i]).binding != (#[trigger] kept_answers(all, true)[j]).binding,
        forall|i: int|
            0 <= i < all.len() ==> has_binding(
                kept_answers(all, true),
                (#[trigger] all[i]).binding,
            ),
        exists|places: Seq<int>| #[trigger] first_places(all, kept_answers(all, true), places),
    decreases all.len(),
{
    let kept = kept_answers(all, true);
    if all.len() == 0 {
        let none: Seq<int> = Seq::empty();
        assert(first_places(all, kept, none));
    } else {
        let front = all.drop_last();
        let less = kept_answers(front, true);
        distinct_keeps_first_answers(front);
        let places = choose|places: Seq<int>| #[trigger] first_places(front, less, places);
        let own = all.last();
        assert forall|a: int| 0 <= a < places.len() implies 0 <= #[trigger] places[a] < all.len()
            && less[a] == all[places[a]] && forall|k: int|
            0 <= k < places[a] ==> (#[trigger] all[k]).binding != all[places[a]].binding by {
            assert(front[places[a]] == all[places[a]]);
            assert forall|k: int| 0 <= k < places[a] implies (#[trigger] all[k]).binding
                != all[places[a]].binding by {
                assert(front[k] == all[k]);
            }
        }
        assert forall|i: int| 0 <= i < all.len() implies has_binding(
            kept,
            (#[trigger] all[i]).binding,
        ) by {
            if i < front.len() {
                assert(front[i] == all[i]);
                assert(has_binding(less, front[i].binding));
                let j = choose|j: int|
                    0 <= j < less.len() && (#[trigger] less[j]).binding == front[i].binding;
                assert(kept[j].binding == all[i].binding);
            } else if bound_before(less, own.binding) {
                let j = choose|j: int|
                    0 <= j < less.len() && (#[trigger] less[j]).binding == own.binding;
                assert(kept[j].binding == all[i].binding);
            } else {
                assert(kept[kept.len() - 1].binding == all[i].binding);
            }
        }
        if bound_before(less, own.binding) {
            assert(kept == less);
            assert(first_places(all, kept, places));
        } else {
            let more = places.push(all.len() - 1);
            assert forall|k: int| 0 <= k < all.len() - 1 implies (#[trigger] all[k]).binding
                != own.binding by {
                assert(front[k] == all[k]);
                assert(has_binding(less, front[k].binding));
                let j = choose|j: int|
                    0 <= j < less.len() && (#[trigger] less[j]).binding == front[k].binding;
                assert(less[j].binding == all[k].binding);
            }
            assert forall|a: int| 0 <= a < more.len() implies 0 <= #[trigger] more[a] < all.len()
                && kept[a] == all[more[a]] && forall|k: int|
                0 <= k < more[a] ==> (#[trigger] all[k]).binding != all[more[a]].binding by {
                if a < places.len() {
                    assert(more[a] == places[a]);
                    assert(less[a] == kept[a]);
                }
            }
            assert(first_places(all, kept, more));
        }
    }
}

/// Rows ascend: the first variable in which two bindings differ decides, by its name and then by its
/// value; a binding that goes on comes after one that ends. An entity comes before a literal and a
/// literal before a predicate; entities ascend by number, literals and predicates by their bytes.
/// Slots decide between equal bindings, in the same way.
pub proof fn first_differences_decide(left: AnswerModel, right: AnswerModel, at: int)
    ensures
        ({
            let a = left.binding;
            let b = right.binding;
            0 <= at <= a.len() && at <= b.len() && a.take(at) == b.take(at) ==> {
                &&& at == a.len() && at < b.len() ==> answer_rank(left, right) == Rank::Before
                &&& at < a.len() && at == b.len() ==> answer_rank(left, right) == Rank::After
                &&& at < a.len() && at < b.len() && before(a[at].name, b[at].name) ==> answer_rank(
                    left,
                    right,
                ) == Rank::Before
                &&& at < a.len() && at < b.len() && a[at].name == b[at].name ==> match (
                    a[at].value,
                    b[at].value,
                ) {
                    (
                        BoundModel::Atom(AtomModel::Entity(x)),
                        BoundModel::Atom(AtomModel::Entity(y)),
                    ) => x < y ==> answer_rank(left, right) == Rank::Before,
                    (BoundModel::Atom(AtomModel::Entity(x)), _) => answer_rank(left, right)
                        == Rank::Before,
                    (
                        BoundModel::Atom(AtomModel::Literal(x)),
                        BoundModel::Atom(AtomModel::Literal(y)),
                    ) => before(x, y) ==> answer_rank(left, right) == Rank::Before,
                    (
                        BoundModel::Atom(AtomModel::Literal(x)),
                        BoundModel::Predicate(y),
                    ) => answer_rank(left, right) == Rank::Before,
                    (BoundModel::Predicate(x), BoundModel::Predicate(y)) => before(x, y)
                        ==> answer_rank(left, right) == Rank::Before,
                    _ => true,
                }
            }
        }),
        ({
            let a = left.provenance;
            let b = right.provenance;
            left.binding == right.binding && 0 <= at <= a.len() && at <= b.len() && a.take(at)
                == b.take(at) ==> {
                &&& at == a.len() && at < b.len() ==> answer_rank(left, right) == Rank::Before
                &&& at < a.len() && at == b.len() ==> answer_rank(left, right) == Rank::After
                &&& at < a.len() && at < b.len() && before(a[at], b[at]) ==> answer_rank(
                    left,
                    right,
                ) == Rank::Before
                &&& at == a.len() && at == b.len() ==> answer_rank(left, right) == Rank::Same
            }
        }),
        answer_rank(left, right) == Rank::Before <==> answer_rank(right, left) == Rank::After,
{
    reveal(answer_rank);
    answer_rank_flips(left, right);
    let n = left.binding.len() as int;
    if left.binding == right.binding {
        assert(left.binding.take(n) == right.binding.take(n));
        equal_variables_are_passed(left.binding, right.binding, 0, n);
        if 0 <= at <= left.provenance.len() && at <= right.provenance.len()
            && left.provenance.take(at) == right.provenance.take(at) {
            equal_slots_are_passed(left.provenance, right.provenance, 0, at);
        }
    }
    if 0 <= at <= n && at <= right.binding.len() && left.binding.take(at) == right.binding.take(
        at,
    ) {
        equal_variables_are_passed(left.binding, right.binding, 0, at);
        if at < n && at < right.binding.len() {
            before_irreflexive(left.binding[at].name);
        }
    }
}

proof fn equal_variables_are_passed(
    left: Seq<BoundVariableModel>,
    right: Seq<BoundVariableModel>,
    from: int,
    at: int,
)
    requires
        0 <= from <= at <= left.len(),
        at <= right.len(),
        left.take(at) == right.take(at),
    ensures
        binding_rank(left, right, from) == binding_rank(left, right, at),
    decreases at - from,
{
    if from < at {
        assert(left.take(at)[from] == right.take(at)[from]);
        before_irreflexive(left[from].name);
        match left[from].value {
            BoundModel::Atom(AtomModel::Literal(text)) => {
                before_irreflexive(text);
            },
            BoundModel::Predicate(text) => {
                before_irreflexive(text);
            },
            _ => {},
        }
        assert(left.take(at)[from] == left[from]);
        assert(right.take(at)[from] == right[from]);
        assert(value_rank(left[from].value, right[from].value) == Rank::Same);
        assert(variable_rank(left[from], right[from]) == Rank::Same);
        equal_variables_are_passed(left, right, from + 1, at);
    }
}

proof fn equal_slots_are_passed(
    left: Seq<Seq<char>>,
    right: Seq<Seq<char>>,
    from: int,
    at: int,
)
    requires
        0 <= from <= at <= left.len(),
        at <= right.len(),
        left.take(at) == right.take(at),
    ensures
        provenance_rank(left, right, from) == provenance_rank(left, right, at),
    decreases at - from,
{
    if from < at {
        assert(left.take(at)[from] == right.take(at)[from]);
        before_irreflexive(left[from]);
        equal_slots_are_passed(left, right, from + 1, at);
    }
}

/// The rows of a query: each row is a kept answer and each kept answer a row, none comes after a
/// later one, and slots are given if they are asked for.
pub proof fn rows_are_the_kept_answers<S: FactSource>(
    source: S,
    patterns: Seq<PatternModel>,
    options: QueryOptions,
    result: QueryResult,
)
    requires
        finds(source, patterns, options, result),
    ensures
        ({
            let kept = kept_answers(
                whole_walk(source, patterns, options).output,
                options.distinct,
            );
            let rows = views(result.rows@);
            &&& rows.len() == kept.len()
            &&& options.include_provenance ==> rows.to_multiset() == kept.to_multiset()
            &&& options.include_provenance ==> forall|i: int, j: int|
                0 <= i < j < rows.len() ==> answer_rank(#[trigger] rows[i], #[trigger] rows[j])
                    != Rank::After
            &&& !options.include_provenance ==> forall|i: int|
                0 <= i < rows.len() ==> (#[trigger] rows[i]).provenance.len() == 0
            &&& forall|i: int|
                0 <= i < rows.len() ==> has_binding(kept, (#[trigger] rows[i]).binding)
            &&& forall|k: int|
                0 <= k < kept.len() ==> has_binding(rows, (#[trigger] kept[k]).binding)
        }),
{
    let kept = kept_answers(whole_walk(source, patterns, options).output, options.distinct);
    let models = views(result.rows@);
    let rows = choose|rows: Seq<AnswerModel>|
        {
            &&& #[trigger] sorts(kept, rows)
            &&& models == Seq::new(
                rows.len(),
                |i: int| row_of(rows[i], options.include_provenance),
            )
        };
    rows.to_multiset_ensures();
    kept.to_multiset_ensures();
    assert(models.len() == rows.len());
    assert(rows.len() == kept.len());
    if !options.include_provenance {
        assert forall|i: int| 0 <= i < models.len() implies (
        #[trigger] models[i]).provenance.len() == 0 by {
            assert(models[i] == row_of(rows[i], false));
        }
    }
    if options.include_provenance {
        assert(models =~= rows);
        assert forall|i: int, j: int| 0 <= i < j < models.len() implies answer_rank(
            #[trigger] models[i],
            #[trigger] models[j],
        ) != Rank::After by {
            ranked_rows(rows, i, j);
            assert(not_after(rows[i], rows[j]));
        }
    }
    assert forall|i: int| 0 <= i < models.len() implies has_binding(
        kept,
        (#[trigger] models[i]).binding,
    ) by {
        assert(rows.contains(rows[i]));
        assert(kept.to_multiset().count(rows[i]) > 0);
        assert(kept.contains(rows[i]));
        let k = choose|k: int| 0 <= k < kept.len() && kept[k] == rows[i];
        assert(kept[k].binding == models[i].binding);
    }
    assert forall|k: int| 0 <= k < kept.len() implies has_binding(
        models,
        (#[trigger] kept[k]).binding,
    ) by {
        assert(kept.contains(kept[k]));
        assert(rows.to_multiset().count(kept[k]) > 0);
        assert(rows.contains(kept[k]));
        let i = choose|i: int| 0 <= i < rows.len() && rows[i] == kept[k];
        assert(models[i].binding == kept[k].binding);
    }
}

/// The pattern that is taken next has as few candidates as any, and fewer than each in front of it;
/// without optimizing it is the first.
pub proof fn fewest_is_least_and_first<S: FactSource>(
    source: S,
    patterns: Seq<PatternModel>,
    binding: Seq<BoundVariableModel>,
    options: QueryOptions,
    other: int,
)
    requires
        0 <= other < patterns.len(),
    ensures
        ({
            let index = chosen_index(source, patterns, binding, options);
            &&& 0 <= index < patterns.len()
            &&& !options.optimize ==> index == 0
            &&& options.optimize ==> source.picks(patterns[index], binding).len() <= source.picks(
                patterns[other],
                binding,
            ).len()
            &&& options.optimize && other < index ==> source.picks(patterns[index], binding).len()
                < source.picks(patterns[other], binding).len()
        }),
    decreases patterns.len(),
{
    if patterns.len() > 1 {
        let front = patterns.drop_last();
        fewest_in_range(source, front, binding);
        let least = fewest(source, front, binding);
        fewest_is_least_and_first(
            source,
            front,
            binding,
            options,
            if other < front.len() {
                other
            } else {
                least
            },
        );
        assert(front[least] == patterns[least]);
    }
}

} // verus!
