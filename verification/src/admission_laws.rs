//! What is told of admitted epochs, what is counted of them, and where their replay leads.

use crate::admission::{
    AdmissionEpochMetrics, AdmissionMaterializer, AdmissionOutcomeModel, admitted_metrics,
    epoch_replay_fault, replay_fault, unopposed_world, world_after,
};
use crate::admission_core::{
    AdmissionResolution, BatchModel, applied_metrics, fails, receipts, resolves_admission, usable,
};
use crate::admission_ingress::ticketed;
use crate::controller_laws::acceptances_are_counted;
use crate::frame::FrameModel;
use crate::intent::IntentModel;
use crate::plan_model::{OutcomeModel, PlanModel, chained, collapsed, joined_operations, unopposed};
use crate::rejection::told;
use crate::snapshot_format::SnapshotModel;
use crate::snapshot_world::restorable;
use crate::world::WorldModel;
use crate::world_laws::{operations_up_to, same_operations_up_to};
use vstd::prelude::*;

verus! {

/// Every ticket of a durable epoch is told the number of its epoch and its own place in it, and
/// later, with the same receipt, what became of its intent.
pub proof fn receipts_name_their_place(
    batch: BatchModel,
    resolutions: Seq<AdmissionResolution>,
    outcomes: Seq<OutcomeModel>,
    message: Seq<char>,
    index: int,
)
    requires
        0 <= index < batch.tickets.len(),
        batch.tickets.len() <= usize::MAX,
    ensures
        receipts(batch).len() == batch.tickets.len(),
        receipts(batch)[index].ticket == batch.tickets[index],
        receipts(batch)[index].receipt.epoch_id == batch.id,
        receipts(batch)[index].receipt.position == index,
        resolves_admission(resolutions, batch, outcomes) ==> {
            &&& resolutions.len() == batch.tickets.len()
            &&& resolutions[index].ticket == batch.tickets[index]
            &&& match (resolutions[index].outcome@, outcomes[index]) {
                (
                    AdmissionOutcomeModel::Accepted { receipt, outcome },
                    OutcomeModel::Accepted { .. },
                ) => receipt == receipts(batch)[index].receipt && outcome == outcomes[index],
                (
                    AdmissionOutcomeModel::Rejected { receipt, error },
                    OutcomeModel::Rejected { error: own, .. },
                ) => receipt == receipts(batch)[index].receipt && error == told(own),
                _ => false,
            }
        },
        fails(resolutions, batch.tickets, message) ==> {
            &&& resolutions.len() == batch.tickets.len()
            &&& resolutions[index].ticket == batch.tickets[index]
            &&& resolutions[index].outcome@ == AdmissionOutcomeModel::Failed(message)
        },
{
}

/// What an epoch that got its meaning counts: each outcome once, as accepted or as rejected, one
/// applied epoch, one epoch of the way in which it was run, and a published world if it changed
/// anything. What an epoch that became durable counts: itself, its bytes, and how far its meaning
/// lags behind, if it never lagged further.
pub proof fn admitted_epochs_are_counted(
    metrics: AdmissionEpochMetrics,
    plan: PlanModel,
    used_vm: bool,
    bytes: u64,
)
    ensures
        ({
            let after = applied_metrics(metrics, plan, used_vm);
            let accepted = plan.outcomes.filter(|outcome: OutcomeModel| outcome is Accepted).len();
            let rejected = plan.outcomes.filter(|outcome: OutcomeModel| outcome is Rejected).len();
            let modulus: int = 0x1_0000_0000_0000_0000;
            &&& accepted + rejected == plan.outcomes.len()
            &&& after.accepted_intents == (metrics.accepted_intents + accepted) % modulus
            &&& after.rejected_intents == (metrics.rejected_intents + rejected) % modulus
            &&& after.applied_epochs == (metrics.applied_epochs + 1) % modulus
            &&& after.published_worlds == (metrics.published_worlds + if plan.frames.len() == 0 {
                0int
            } else {
                1
            }) % modulus
            &&& after.vm_materialized_epochs == (metrics.vm_materialized_epochs + if used_vm {
                1int
            } else {
                0
            }) % modulus
            &&& after.world_materialized_epochs == (metrics.world_materialized_epochs
                + if used_vm {
                0int
            } else {
                1
            }) % modulus
            &&& after.durable_epochs == metrics.durable_epochs
            &&& after.submitted_intents == metrics.submitted_intents
            &&& after.maximum_semantic_lag == metrics.maximum_semantic_lag
        }),
        ({
            let after = admitted_metrics(metrics, bytes);
            let modulus: int = 0x1_0000_0000_0000_0000;
            &&& after.durable_epochs == (metrics.durable_epochs + 1) % modulus
            &&& after.admitted_bytes == (metrics.admitted_bytes + bytes) % modulus
            &&& after.applied_epochs == metrics.applied_epochs
            &&& after.maximum_semantic_lag >= metrics.maximum_semantic_lag
            &&& after.maximum_semantic_lag >= after.durable_epochs - after.applied_epochs
            &&& after.maximum_semantic_lag == metrics.maximum_semantic_lag
                || after.maximum_semantic_lag == after.durable_epochs - after.applied_epochs
        }),
{
    acceptances_are_counted(plan.outcomes);
}

/// The intents of an epoch get tickets one after the other, in their order, and keep their contents.
pub proof fn tickets_are_consecutive(
    intents: Seq<IntentModel>,
    first: u64,
    now: u64,
    index: int,
)
    requires
        0 <= index < intents.len(),
        first + intents.len() <= u64::MAX,
    ensures
        ticketed(intents, first, now).len() == intents.len(),
        ticketed(intents, first, now)[index].ticket == first + index,
        ticketed(intents, first, now)[index].intent == intents[index],
        ticketed(intents, first, now)[index].enqueued_at == now,
{
}

/// Replaying epochs goes from world to world: replaying some and then more is replaying them all, and
/// one epoch leads where its plan leads.
pub proof fn replays_go_on(
    start: WorldModel,
    first: Seq<Seq<IntentModel>>,
    second: Seq<Seq<IntentModel>>,
    earlier: Seq<Seq<Result<(), Seq<char>>>>,
    later: Seq<Seq<Result<(), Seq<char>>>>,
    epoch: Seq<IntentModel>,
    verdict: Seq<Result<(), Seq<char>>>,
)
    requires
        first.len() == earlier.len(),
        second.len() == later.len(),
    ensures
        world_after(start, first + second, earlier + later) == world_after(
            world_after(start, first, earlier),
            second,
            later,
        ),
        world_after(start, seq![epoch], seq![verdict]) == collapsed(
            chained(start, epoch, verdict),
        ).tail,
        unopposed_world(start, first + second) == unopposed_world(
            unopposed_world(start, first),
            second,
        ),
        unopposed_world(start, seq![epoch]) == collapsed(
            chained(start, epoch, Seq::new(epoch.len(), |i: int| Ok::<(), Seq<char>>(()))),
        ).tail,
    decreases second.len(),
{
    assert(seq![epoch].drop_last() =~= Seq::empty());
    assert(seq![verdict].drop_last() =~= Seq::empty());
    assert(seq![epoch].last() == epoch);
    assert(seq![verdict].last() == verdict);
    assert(unopposed(epoch.len()) =~= Seq::new(
        epoch.len(),
        |i: int| Ok::<(), Seq<char>>(()),
    ));
    assert(world_after(start, Seq::empty(), Seq::empty()) == start);
    assert(unopposed_world(start, Seq::empty()) == start);
    if second.len() == 0 {
        assert(first + second =~= first);
        assert(earlier + later =~= earlier);
    } else {
        replays_go_on(
            start,
            first,
            second.drop_last(),
            earlier,
            later.drop_last(),
            epoch,
            verdict,
        );
        assert((first + second).drop_last() =~= first + second.drop_last());
        assert((earlier + later).drop_last() =~= earlier + later.drop_last());
        assert((first + second).last() == second.last());
        assert((earlier + later).last() == later.last());
    }
}

/// An epoch has a meaning on the world that those in front of it lead to.
pub open spec fn meaningful_at(
    start: WorldModel,
    epochs: Seq<Seq<IntentModel>>,
    kind: AdmissionMaterializer,
    k: int,
) -> bool {
    epoch_replay_fault(unopposed_world(start, epochs.take(k)), epochs[k], kind) is None
}

proof fn meanings_stay(
    start: WorldModel,
    epochs: Seq<Seq<IntentModel>>,
    kind: AdmissionMaterializer,
    k: int,
)
    requires
        0 <= k < epochs.len() - 1,
    ensures
        meaningful_at(start, epochs.drop_last(), kind, k) == meaningful_at(start, epochs, kind, k),
{
    assert(epochs.drop_last().take(k) =~= epochs.take(k));
    assert(epochs.drop_last()[k] == epochs[k]);
}

proof fn last_meaning(
    start: WorldModel,
    epochs: Seq<Seq<IntentModel>>,
    kind: AdmissionMaterializer,
)
    requires
        epochs.len() > 0,
    ensures
        replay_fault(start, epochs, kind) is None <==> replay_fault(
            start,
            epochs.drop_last(),
            kind,
        ) is None && meaningful_at(start, epochs, kind, epochs.len() - 1),
{
    assert(epochs.take(epochs.len() - 1) =~= epochs.drop_last());
}

/// A replay without validators stops exactly if one of the epochs has no meaning on the world that
/// those in front of it lead to, wherever it stands.
pub proof fn replays_stop_at_faults(
    start: WorldModel,
    epochs: Seq<Seq<IntentModel>>,
    kind: AdmissionMaterializer,
)
    ensures
        replay_fault(start, epochs, kind) is None <==> forall|k: int|
            0 <= k < epochs.len() ==> #[trigger] meaningful_at(start, epochs, kind, k),
    decreases epochs.len(),
{
    if epochs.len() > 0 {
        let front = epochs.drop_last();
        replays_stop_at_faults(start, front, kind);
        last_meaning(start, epochs, kind);
        assert forall|k: int| 0 <= k < epochs.len() - 1 implies meaningful_at(
            start,
            front,
            kind,
            k,
        ) == #[trigger] meaningful_at(start, epochs, kind, k) by {
            meanings_stay(start, epochs, kind, k);
        }
        if forall|k: int| 0 <= k < epochs.len() ==> #[trigger] meaningful_at(start, epochs, kind, k) {
            assert forall|k: int| 0 <= k < front.len() implies #[trigger] meaningful_at(
                start,
                front,
                kind,
                k,
            ) by {
                assert(meaningful_at(start, epochs, kind, k));
            }
        }
    }
}

/// A whole epoch commits once: its frame has the operations of all accepted intents in their order,
/// starts at the base and is one version on; without an accepted intent nothing is committed. Every
/// accepted intent is told that frame, and its world.
pub proof fn epochs_commit_once(plan: PlanModel, index: int)
    requires
        plan.base.version < u64::MAX,
        0 <= index < plan.outcomes.len(),
    ensures
        plan.frames.len() == 0 ==> collapsed(plan) == plan,
        plan.frames.len() > 0 ==> {
            let once = collapsed(plan);
            &&& once.frames.len() == 1
            &&& once.frames[0].parent_world == plan.base.id
            &&& once.frames[0].parent_version == plan.base.version
            &&& once.frames[0].resulting_version == plan.base.version + 1
            &&& once.frames[0].operations == operations_up_to(
                plan.frames,
                plan.frames.len() as int,
            )
            &&& once.tail.kernel == plan.tail.kernel
            &&& once.tail.version == plan.base.version + 1
            &&& once.tail.id == once.frames[0].resulting_world
            &&& once.tail.history == plan.base.history.push(once.frames[0])
            &&& once.base == plan.base
            &&& once.outcomes.len() == plan.outcomes.len()
            &&& match (plan.outcomes[index], once.outcomes[index]) {
                (
                    OutcomeModel::Accepted { position, namespace, entities, .. },
                    OutcomeModel::Accepted {
                        position: place,
                        namespace: space,
                        entities: found,
                        world,
                        frame,
                    },
                ) => position == place && namespace == space && entities == found && world
                    == once.tail && frame == once.frames[0],
                (OutcomeModel::Rejected { .. }, told) => told == plan.outcomes[index],
                _ => false,
            }
        },
{
    joined_in_order(plan.frames);
}

proof fn joined_in_order(frames: Seq<FrameModel>)
    ensures
        joined_operations(frames) == operations_up_to(frames, frames.len() as int),
    decreases frames.len(),
{
    if frames.len() > 0 {
        joined_in_order(frames.drop_last());
        same_operations_up_to(frames, frames.drop_last(), frames.len() - 1);
    }
}

/// A snapshot stands for a journal only if it ends where the journal ends.
pub proof fn usable_snapshots_end_with_the_journal(snapshot: SnapshotModel, journal: Seq<u8>)
    ensures
        usable(snapshot, journal) ==> snapshot.journal_offset == journal.len(),
        usable(snapshot, journal) <==> snapshot.journal_offset == journal.len() && restorable(
            snapshot,
        ),
{
}

} // verus!
