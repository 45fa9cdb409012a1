//! What the operations of a history make of a world, and which histories are sound.

use crate::database::{Rule, may_accept, may_judge, may_refuse};
use crate::errors::CandidateErrorModel;
use crate::fact::{AtomModel, FactModel, Literal, OperationModel};
use crate::frame::{FrameModel, WorldId, successor_id};
use crate::kernel::{
    DefinitionModel, KernelModel, active, active_before, active_fact, active_fact_is_newest,
    applied, define_then_resolve, defined, forget_reveals_previous, is_active, newest,
    newest_bounds, newest_is, numbered, replayed, replayed_concat, replayed_keeps_order, slot_facts,
};
use crate::text::decimal;
use crate::world::{
    CandidateModel, WorldModel, candidate_of, display_slot_text, published, reconstructed,
    shown_name, stepped, symbol_slot_text,
};
use vstd::prelude::*;

verus! {

/// The active definitions stand at these places, in order: at each place behind which its slot is
/// not defined again, and at no other.
pub open spec fn last_places(
    live: Seq<DefinitionModel>,
    listed: Seq<DefinitionModel>,
    places: Seq<int>,
) -> bool {
    &&& places.len() == listed.len()
    &&& forall|a: int, b: int|
        0 <= a < b < places.len() ==> #[trigger] places[a] < #[trigger] places[b]
    &&& forall|a: int|
        0 <= a < places.len() ==> 0 <= #[trigger] places[a] < live.len() && listed[a]
            == live[places[a]]
    &&& forall|i: int|
        0 <= i < live.len() ==> (places.contains(i) <==> forall|j: int|
            i < j < live.len() ==> (#[trigger] live[j]).slot != (#[trigger] live[i]).slot)
}

proof fn places_before(live: Seq<DefinitionModel>, count: nat) -> (places: Seq<int>)
    requires
        count <= live.len(),
    ensures
        places.len() == active_before(live, count).len(),
        forall|a: int, b: int|
            0 <= a < b < places.len() ==> #[trigger] places[a] < #[trigger] places[b],
        forall|a: int|
            0 <= a < places.len() ==> 0 <= #[trigger] places[a] < count && active_before(
                live,
                count,
            )[a] == live[places[a]],
        forall|i: int|
            0 <= i < count ==> (#[trigger] places.contains(i) <==> newest(live, live[i].slot)
                == i),
    decreases count,
{
    if count == 0 {
        Seq::empty()
    } else {
        let less = (count - 1) as nat;
        let front = places_before(live, less);
        if is_active(live, count - 1) {
            let places = front.push(count - 1);
            assert forall|i: int| 0 <= i < count implies (#[trigger] places.contains(i) <==> newest(
                live,
                live[i].slot,
            ) == i) by {
                if i == count - 1 {
                    assert(places[places.len() - 1] == i);
                } else {
                    if front.contains(i) {
                        let k = choose|k: int| 0 <= k < front.len() && front[k] == i;
                        assert(places[k] == i);
                    }
                    if places.contains(i) {
                        let k = choose|k: int| 0 <= k < places.len() && places[k] == i;
                        assert(front[k] == i);
                    }
                    assert(front.contains(i) <==> newest(live, live[i].slot) == i);
                }
            }
            places
        } else {
            assert forall|i: int| 0 <= i < count implies (#[trigger] front.contains(i) <==> newest(
                live,
                live[i].slot,
            ) == i) by {
                if i == count - 1 && front.contains(i) {
                    let k = choose|k: int| 0 <= k < front.len() && front[k] == i;
                    assert(front[k] < less);
                }
            }
            front
        }
    }
}

/// The active definitions are those behind which their slot is not defined again, oldest first: one
/// for each slot that is defined, and it is the one that the slot resolves to.
pub proof fn active_definitions_are_the_last(live: Seq<DefinitionModel>, slot: Seq<char>)
    ensures
        exists|places: Seq<int>| #[trigger] last_places(live, active(live), places),
        forall|a: int, b: int|
            0 <= a < b < active(live).len() ==> (#[trigger] active(live)[a]).slot != (
            #[trigger] active(live)[b]).slot,
        forall|a: int|
            0 <= a < active(live).len() ==> active_fact(live, (#[trigger] active(live)[a]).slot)
                == Some(active(live)[a].fact),
        active_fact(live, slot) is Some <==> exists|i: int|
            0 <= i < live.len() && (#[trigger] live[i]).slot == slot,
        active_fact(live, slot) is Some ==> exists|a: int|
            0 <= a < active(live).len() && (#[trigger] active(live)[a]).slot == slot,
{
    let places = places_before(live, live.len());
    let listed = active(live);
    assert forall|i: int| 0 <= i < live.len() implies (places.contains(i) <==> forall|j: int|
        i < j < live.len() ==> (#[trigger] live[j]).slot != (#[trigger] live[i]).slot) by {
        newest_bounds(live, live[i].slot);
        if forall|j: int|
            i < j < live.len() ==> (#[trigger] live[j]).slot != (#[trigger] live[i]).slot {
            newest_is(live, live[i].slot, i);
        }
    }
    assert(last_places(live, listed, places));
    assert forall|a: int, b: int| 0 <= a < b < listed.len() implies (#[trigger] listed[a]).slot != (
    #[trigger] listed[b]).slot by {
        assert(places.contains(places[a]));
        assert(places.contains(places[b]));
        assert(places[a] < places[b]);
    }
    assert forall|a: int| 0 <= a < listed.len() implies active_fact(
        live,
        (#[trigger] listed[a]).slot,
    ) == Some(listed[a].fact) by {
        assert(places.contains(places[a]));
    }
    newest_bounds(live, slot);
    let last = newest(live, slot);
    if last >= 0 {
        assert(live[last].slot == slot);
        assert(places.contains(last));
        let a = choose|a: int| 0 <= a < places.len() && places[a] == last;
        assert(listed[a].slot == slot);
    }
}

/// How many of the operations are allocations.
pub open spec fn allocated_in(operations: Seq<OperationModel>) -> nat {
    operations.filter(|operation: OperationModel| operation is AllocateEntity).len()
}

/// Operations replay exactly if each allocation takes the next number: the first number that was
/// free, plus the allocations in front of it. Every other operation makes one record, and nothing
/// but a definition adds a definition.
pub proof fn replays_number_in_order(kernel: KernelModel, operations: Seq<OperationModel>)
    ensures
        replayed(kernel, operations) is Ok <==> forall|k: int|
            0 <= k < operations.len() ==> match #[trigger] operations[k] {
                OperationModel::AllocateEntity { entity } => entity == kernel.next_entity
                    + allocated_in(operations.take(k)),
                _ => true,
            },
        replayed(kernel, operations) matches Ok(next) ==> {
            &&& next.next_entity == kernel.next_entity + allocated_in(operations)
            &&& next.records == kernel.records + operations.len() - allocated_in(operations)
            &&& allocated_in(operations) <= operations.len()
        },
        replayed(kernel, operations) matches Err(error) ==> error matches
            CandidateErrorModel::AllocatorOperationMismatch { .. },
    decreases operations.len(),
{
    reveal(Seq::filter);
    if operations.len() > 0 {
        let front = operations.drop_last();
        let last = operations.last();
        replays_number_in_order(kernel, front);
        assert forall|k: int| 0 <= k < front.len() implies operations.take(k) == #[trigger] front.take(
            k,
        ) by {
            assert(operations.take(k) =~= front.take(k));
        }
        assert(operations.take(operations.len() - 1) =~= front);
        let numbered = |list: Seq<OperationModel>|
            forall|k: int|
                0 <= k < list.len() ==> match #[trigger] list[k] {
                    OperationModel::AllocateEntity { entity } => entity == kernel.next_entity
                        + allocated_in(list.take(k)),
                    _ => true,
                };
        if numbered(operations) {
            assert forall|k: int| 0 <= k < front.len() implies match #[trigger] front[k] {
                OperationModel::AllocateEntity { entity } => entity == kernel.next_entity
                    + allocated_in(front.take(k)),
                _ => true,
            } by {
                assert(operations[k] == front[k]);
            }
            assert(operations[operations.len() - 1] == last);
        }
        if replayed(kernel, operations) is Ok {
            assert forall|k: int| 0 <= k < operations.len() implies match #[trigger] operations[k] {
                OperationModel::AllocateEntity { entity } => entity == kernel.next_entity
                    + allocated_in(operations.take(k)),
                _ => true,
            } by {
                if k < front.len() {
                    assert(operations[k] == front[k]);
                }
            }
        }
    }
}

/// What one operation does to a slot's definitions, newest first: a definition comes in front, a
/// forgetting takes the front away, and nothing else touches any slot.
pub proof fn operations_stack_definitions(
    kernel: KernelModel,
    operation: OperationModel,
    slot: Seq<char>,
)
    ensures
        applied(kernel, operation) matches Ok(next) ==> {
            let old_facts = slot_facts(kernel.live, slot);
            let new_facts = slot_facts(next.live, slot);
            match operation {
                OperationModel::Define { slot: own, fact } => if own == slot {
                    new_facts == seq![fact] + old_facts
                } else {
                    new_facts == old_facts
                },
                OperationModel::Forget { slot: own } => if own == slot && old_facts.len() > 0 {
                    new_facts == old_facts.skip(1)
                } else {
                    new_facts == old_facts
                },
                OperationModel::AllocateEntity { entity } => new_facts == old_facts && next.live
                    == kernel.live,
            }
        },
        active_fact(kernel.live, slot) == if slot_facts(kernel.live, slot).len() == 0 {
            None
        } else {
            Some(slot_facts(kernel.live, slot).first())
        },
{
    active_fact_is_newest(kernel.live, slot);
    match operation {
        OperationModel::Define { slot: own, fact } => {
            define_then_resolve(kernel, own, fact, slot);
        },
        OperationModel::Forget { slot: own } => {
            forget_reveals_previous(kernel, own, slot);
            let facts = slot_facts(kernel.live, slot);
            if facts.len() > 0 {
                assert(facts.skip(1) =~= facts.drop_first());
            }
        },
        _ => {},
    }
}

/// The operations of the first frames of a history, one after the other.
pub open spec fn operations_up_to(frames: Seq<FrameModel>, count: int) -> Seq<OperationModel>
    decreases count,
{
    if count <= 0 {
        Seq::empty()
    } else {
        operations_up_to(frames, count - 1) + frames[count - 1].operations
    }
}

/// One link of a history: it starts where the link in front of it ended, its operations replay
/// behind all the earlier ones and leave the number that it says, and its identity is the one that
/// its parent and its contents make.
pub open spec fn links_on(frames: Seq<FrameModel>, k: int) -> bool {
    &&& frames[k].parent_world == if k == 0 {
        WorldId(0xcbf2_9ce4_8422_2325)
    } else {
        frames[k - 1].resulting_world
    }
    &&& frames[k].parent_version == if k == 0 {
        0
    } else {
        frames[k - 1].resulting_version
    }
    &&& replayed(
        KernelModel { live: Seq::empty(), records: 0, next_entity: 1 },
        operations_up_to(frames, k + 1),
    ) matches Ok(kernel) && kernel.next_entity == frames[k].resulting_allocator
    &&& frames[k].resulting_world == successor_id(
        frames[k].parent_world,
        frames[k].resulting_version,
        frames[k].resulting_allocator,
        frames[k].operations,
    )
}

/// A history is taken exactly if every one of its frames is a link, wherever it stands; and the
/// world is what the last frame says it is, with all operations replayed on nothing.
pub proof fn histories_are_chains(frames: Seq<FrameModel>)
    ensures
        reconstructed(frames) is Ok <==> forall|k: int|
            0 <= k < frames.len() ==> #[trigger] links_on(frames, k),
        reconstructed(frames) matches Ok(world) ==> {
            &&& world.history == frames
            &&& replayed(
                KernelModel { live: Seq::empty(), records: 0, next_entity: 1 },
                operations_up_to(frames, frames.len() as int),
            ) == Ok::<KernelModel, CandidateErrorModel>(world.kernel)
            &&& world.operation_count == operations_up_to(frames, frames.len() as int).len()
            &&& frames.len() > 0 ==> world.id == frames.last().resulting_world && world.version
                == frames.last().resulting_version
            &&& frames.len() == 0 ==> world.id == WorldId(0xcbf2_9ce4_8422_2325) && world.version
                == 0
        },
    decreases frames.len(),
{
    let nothing = KernelModel { live: Seq::empty(), records: 0, next_entity: 1 };
    if frames.len() == 0 {
        assert(frames =~= Seq::empty());
        assert(operations_up_to(frames, 0) =~= Seq::empty());
    } else {
        let front = frames.drop_last();
        let last = frames.len() - 1;
        histories_are_chains(front);
        assert forall|k: int| 0 <= k <= front.len() implies #[trigger] operations_up_to(frames, k)
            == operations_up_to(front, k) by {
            same_operations_up_to(frames, front, k);
        }
        assert forall|k: int| 0 <= k < front.len() implies links_on(frames, k) == #[trigger] links_on(
            front,
            k,
        ) by {
            assert(frames[k] == front[k]);
            assert(operations_up_to(frames, k + 1) == operations_up_to(front, k + 1));
            if k > 0 {
                assert(frames[k - 1] == front[k - 1]);
            }
        }
        replayed_concat(nothing, operations_up_to(frames, last), frames.last().operations);
        replayed_keeps_order(nothing, operations_up_to(frames, frames.len() as int));
        if let Ok(world) = reconstructed(front) {
            assert(front.push(frames.last()) =~= frames);
            if front.len() > 0 {
                assert(front.last() == frames[last - 1]);
            }
            assert(stepped(world, frames.last()) is Ok <==> links_on(frames, last));
            if reconstructed(frames) is Ok {
                assert forall|k: int| 0 <= k < frames.len() implies #[trigger] links_on(
                    frames,
                    k,
                ) by {
                    if k < last {
                        assert(links_on(front, k));
                    }
                }
            }
            if forall|k: int| 0 <= k < frames.len() ==> #[trigger] links_on(frames, k) {
                assert(links_on(frames, last));
            }
        } else {
            let k = choose|k: int| 0 <= k < front.len() && !#[trigger] links_on(front, k);
            assert(!links_on(frames, k));
        }
    }
}

pub proof fn same_operations_up_to(left: Seq<FrameModel>, right: Seq<FrameModel>, count: int)
    requires
        count <= left.len(),
        count <= right.len(),
        forall|k: int| 0 <= k < count ==> #[trigger] left[k] == right[k],
    ensures
        operations_up_to(left, count) == operations_up_to(right, count),
    decreases count,
{
    if count > 0 {
        same_operations_up_to(left, right, count - 1);
        assert(left[count - 1] == right[count - 1]);
    }
}

/// A candidate stands on what it was made from: it names its parent, counts one version on, has all
/// the operations in their order and the next free number, and publishing it puts its frame behind
/// the history and nothing else.
pub proof fn candidates_stand_on_their_base(world: WorldModel, operations: Seq<OperationModel>)
    requires
        world.version < u64::MAX,
    ensures
        candidate_of(world, operations) matches Ok(candidate) ==> {
            let after = published(candidate, world.history);
            &&& replayed(world.kernel, operations) == Ok::<KernelModel, CandidateErrorModel>(
                candidate.kernel,
            )
            &&& candidate.frame.parent_world == world.id
            &&& candidate.frame.parent_version == world.version
            &&& candidate.frame.resulting_version == world.version + 1
            &&& candidate.frame.operations == operations
            &&& candidate.kernel.next_entity <= u64::MAX ==> candidate.frame.resulting_allocator
                == candidate.kernel.next_entity
            &&& after.history.len() == world.history.len() + 1
            &&& after.history.drop_last() == world.history
            &&& after.history.last() == candidate.frame
            &&& after.kernel == candidate.kernel
            &&& after.id == candidate.frame.resulting_world
            &&& after.version == world.version + 1
            &&& after.operation_count == world.operation_count + operations.len()
        },
        candidate_of(world, operations) is Ok <==> replayed(world.kernel, operations) is Ok,
{
    if let Ok(candidate) = candidate_of(world, operations) {
        assert(world.history.push(candidate.frame).drop_last() =~= world.history);
    }
}

/// A verdict is that of all rules together: an acceptance is one of every rule, and a refusal is one
/// of some rule in front of which every rule accepted.
pub proof fn verdicts_are_of_every_rule(
    validators: Seq<Rule>,
    candidate: CandidateModel,
    message: Seq<char>,
)
    ensures
        may_judge(validators, candidate, Ok(())) <==> forall|i: int|
            0 <= i < validators.len() ==> (#[trigger] validators[i]).0.may_answer(
                candidate,
                Ok::<(), Seq<char>>(()),
            ),
        may_judge(validators, candidate, Err(message)) <==> exists|i: int|
            0 <= i < validators.len() && (#[trigger] validators[i]).0.may_answer(
                candidate,
                Err::<(), Seq<char>>(message),
            ) && forall|j: int|
                0 <= j < i ==> (#[trigger] validators[j]).0.may_answer(
                    candidate,
                    Ok::<(), Seq<char>>(()),
                ),
        may_accept(validators, validators.len() as int, candidate) <==> may_judge(
            validators,
            candidate,
            Ok(()),
        ),
        may_refuse(validators, candidate, message) <==> may_judge(
            validators,
            candidate,
            Err(message),
        ),
{
}

/// An entity shows the name that its display slot holds as a literal, and its number otherwise.
pub proof fn shown_names_follow_their_slot(
    live: Seq<DefinitionModel>,
    entity: u64,
    fact: FactModel,
    kernel: KernelModel,
)
    ensures
        (forall|i: int|
            0 <= i < live.len() ==> (#[trigger] live[i]).slot != "display:Entity_"@ + decimal(
                entity as nat,
            )) ==> shown_name(live, entity) == "Entity_"@ + decimal(entity as nat),
        shown_name(
            defined(kernel, "display:Entity_"@ + decimal(entity as nat), fact).live,
            entity,
        ) == match fact.object {
            AtomModel::Literal(name) => name,
            AtomModel::Entity(_) => "Entity_"@ + decimal(entity as nat),
        },
{
    reveal_strlit("display:");
    reveal_strlit("Entity_");
    reveal_strlit("display:Entity_");
    let slot = "display:Entity_"@ + decimal(entity as nat);
    assert(slot =~= display_slot_text(entity));
    define_then_resolve(kernel, slot, fact, slot);
    newest_bounds(live, slot);
}

/// What is said of a frame that is refused: the first thing that is wrong with it, in this order, with
/// what was expected and what was found.
pub proof fn refused_frames_say_why(world: WorldModel, frame: FrameModel)
    ensures
        stepped(world, frame) matches Err(error) ==> error == if frame.parent_world != world.id {
            CandidateErrorModel::HistoryParentMismatch {
                expected: world.id,
                actual: frame.parent_world,
            }
        } else if frame.parent_version != world.version {
            CandidateErrorModel::HistoryVersionMismatch {
                expected: world.version,
                actual: frame.parent_version,
            }
        } else {
            match replayed(world.kernel, frame.operations) {
                Err(fault) => fault,
                Ok(kernel) => if kernel.next_entity != frame.resulting_allocator {
                    CandidateErrorModel::AllocatorStateMismatch {
                        expected: frame.resulting_allocator,
                        actual: kernel.next_entity as u64,
                    }
                } else {
                    CandidateErrorModel::WorldIdentityMismatch {
                        expected: successor_id(
                            frame.parent_world,
                            frame.resulting_version,
                            frame.resulting_allocator,
                            frame.operations,
                        ),
                        actual: frame.resulting_world,
                    }
                },
            }
        },
        stepped(world, frame) matches Ok(after) ==> after.id == frame.resulting_world
            && after.version == frame.resulting_version && after.history == world.history.push(
            frame,
        ) && after.operation_count == world.operation_count + frame.operations.len(),
{
}

/// A history that is refused is refused for its first frame that does not follow from those in front
/// of it, and for what is wrong with that one.
pub proof fn histories_fail_at_their_first_break(frames: Seq<FrameModel>)
    ensures
        reconstructed(frames) matches Err(error) ==> exists|k: int|
            0 <= k < frames.len() && (reconstructed(#[trigger] frames.take(k)) matches Ok(world)
                && stepped(world, frames[k]) == Err::<WorldModel, CandidateErrorModel>(error)),
    decreases frames.len(),
{
    if frames.len() > 0 {
        let front = frames.drop_last();
        let last = frames.len() - 1;
        if let Err(error) = reconstructed(frames) {
            if reconstructed(front) is Ok {
                assert(frames.take(last) =~= front);
            } else {
                histories_fail_at_their_first_break(front);
                let k = choose|k: int|
                    0 <= k < front.len() && (reconstructed(#[trigger] front.take(k)) matches Ok(
                        world,
                    ) && stepped(world, front[k]) == Err::<WorldModel, CandidateErrorModel>(
                        error,
                    ));
                assert(front.take(k) =~= frames.take(k));
                assert(front[k] == frames[k]);
            }
        }
    }
}

/// The slot that binds a symbol is named after its namespace and its own name.
pub proof fn symbols_have_their_slot(namespace: Seq<char>, symbol: Seq<char>)
    ensures
        symbol_slot_text(namespace, symbol) == "symbol:"@ + namespace + ":"@ + symbol,
{
}

} // verus!
