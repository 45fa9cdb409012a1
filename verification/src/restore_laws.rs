//! What a world that goes on from a snapshot has, and in which order names and numbers stand.

use crate::admission::{EpochMaterializer, gives_meaning};
use crate::admission_core::recovered_metrics;
use crate::database::Rule;
use crate::frame::FrameModel;
use crate::history_codec::taken_history;
use crate::image::ImageModel;
use crate::intent::{IntentModel, clear_of, clear_of_epochs};
use crate::kernel::DefinitionModel;
use crate::materializer::materializes;
use crate::ordered::{Rank, before, before_asymmetric, parts_at, rank_of};
use crate::plan_model::{PlanModel, chained, collapsed, may_settle, total_steps};
use crate::snapshot_format::SnapshotModel;
use crate::snapshot_world::{
    definition_of, holds_definition, number_of, restorable, restores, snapshot_world,
};
use crate::vocabulary::cell_atom;
use crate::world::{World, WorldModel};
use vstd::prelude::*;
use vstd::utf8::*;

verus! {

/// The definitions that are restored from a snapshot: for each of its records one, with the number of
/// the record and the slot and the fact that it names, and no others; in the order of their numbers.
pub proof fn restored_definitions_are_the_records(
    image: ImageModel,
    live: Seq<DefinitionModel>,
    index: int,
    place: int,
)
    requires
        restores(image, image.records.len() as int, live),
        0 <= index < image.records.len(),
        0 <= place < live.len(),
    ensures
        ({
            let record = image.records[index];
            exists|k: int|
                0 <= k < live.len() && (#[trigger] live[k]).record == record.original_id as usize
                    && live[k].slot == image.names.slots[record.slot as int]
                    && live[k].fact.predicate == image.names.predicates[record.predicate as int]
                    && live[k].fact.subject == cell_atom(image.names, record.subject)
                    && live[k].fact.object == cell_atom(image.names, record.object)
        }),
        exists|i: int|
            0 <= i < image.records.len() && (#[trigger] image.records[i]).original_id as usize
                == live[place].record && image.names.slots[image.records[i].slot as int]
                == live[place].slot,
        forall|i: int, j: int|
            0 <= i < j < live.len() ==> (#[trigger] live[i]).record < (#[trigger] live[j]).record,
{
    let count = image.records.len() as int;
    let definition = definition_of(image.names, image.records[index]);
    assert(holds_definition(image, count, definition));
    assert(live.contains(definition));
    let k = choose|k: int| 0 <= k < live.len() && live[k] == definition;
    assert(live[k].record == image.records[index].original_id as usize);
    assert(live.contains(live[place]));
    assert(holds_definition(image, count, live[place]));
    let i = choose|i: int|
        0 <= i < count && live[place] == definition_of(image.names, #[trigger] image.records[i]);
    assert(image.records[i].original_id as usize == live[place].record);
}

/// A snapshot that a world can go on from has a history that can be read, numbers that are below its
/// count and none of them twice.
pub proof fn restorable_snapshots_are_numbered(snapshot: SnapshotModel, left: int, right: int)
    requires
        restorable(snapshot),
        0 <= left < snapshot.image.records.len(),
        0 <= right < snapshot.image.records.len(),
    ensures
        taken_history(snapshot.history) is Ok,
        (snapshot.image.records[left].original_id as usize) < snapshot.record_count,
        left != right ==> snapshot.image.records[left].original_id as usize
            != snapshot.image.records[right].original_id as usize,
        snapshot.image.records.len() <= snapshot.record_count,
{
    assert(number_of(snapshot.image.records[left]) < snapshot.record_count);
    if left < right {
        assert(number_of(snapshot.image.records[left]) != number_of(
            snapshot.image.records[right],
        ));
    } else if right < left {
        assert(number_of(snapshot.image.records[right]) != number_of(
            snapshot.image.records[left],
        ));
    }
}

/// The world of a snapshot is the one that its header names.
pub proof fn snapshot_worlds_are_named(
    snapshot: SnapshotModel,
    live: Seq<DefinitionModel>,
    history: Seq<FrameModel>,
)
    ensures
        ({
            let world = snapshot_world(snapshot, live, history);
            &&& world.id == snapshot.world_id
            &&& world.version == snapshot.world_version
            &&& world.operation_count == snapshot.operation_count
            &&& world.kernel.live == live
            &&& world.kernel.records == snapshot.record_count
            &&& world.kernel.next_entity == snapshot.next_entity
            &&& world.history == history
        }),
{
}

/// Names ascend by their bytes: the first byte in which two names differ decides, and a name comes
/// before one that goes on behind it.
pub proof fn names_ascend_by_bytes(left: Seq<char>, right: Seq<char>, at: int)
    requires
        ({
            let x = encode_utf8(left);
            let y = encode_utf8(right);
            &&& 0 <= at <= x.len()
            &&& at <= y.len()
            &&& x.take(at) == y.take(at)
        }),
    ensures
        ({
            let x = encode_utf8(left);
            let y = encode_utf8(right);
            &&& at < x.len() && at < y.len() && x[at] < y[at] ==> before(left, right) && !before(
                right,
                left,
            )
            &&& at == x.len() && at < y.len() ==> before(left, right) && !before(right, left)
            &&& at < x.len() && at < y.len() && x[at] < y[at] ==> rank_of(left, right)
                == Rank::Before && rank_of(right, left) == Rank::After
        }),
{
    let x = encode_utf8(left);
    let y = encode_utf8(right);
    assert forall|i: int| 0 <= i < at implies x[i] == y[i] by {
        assert(x.take(at)[i] == y.take(at)[i]);
    }
    if at < y.len() && (at == x.len() || x[at] < y[at]) {
        assert(parts_at(x, y, at));
        before_asymmetric(left, right);
    }
}

/// What is recovered counts as durable and as applied; a world counts for each version; a snapshot
/// counts with its epochs and its bytes, if there was one.
pub proof fn recovered_epochs_are_counted(
    total_epochs: u64,
    version: u64,
    snapshot: Option<(u64, u64)>,
)
    ensures
        ({
            let metrics = recovered_metrics(total_epochs, version, snapshot);
            &&& metrics.durable_epochs == total_epochs
            &&& metrics.applied_epochs == total_epochs
            &&& metrics.published_worlds == version
            &&& metrics.mmap_snapshot_loaded <==> snapshot is Some
            &&& snapshot matches Some((epochs, bytes)) ==> metrics.mmap_snapshot_epochs_skipped
                == epochs && metrics.mmap_snapshot_bytes == bytes
            &&& snapshot is None ==> metrics.mmap_snapshot_epochs_skipped == 0
                && metrics.mmap_snapshot_bytes == 0
            &&& metrics.accepted_intents == 0
            &&& metrics.rejected_intents == 0
            &&& metrics.submitted_intents == 0
            &&& metrics.maximum_semantic_lag == 0
        }),
{
}

/// Worlds give every epoch a plan that the rules allow; a machine one of those, or says why not.
pub proof fn meanings_are_plans(
    materializer: EpochMaterializer,
    rules: Seq<Rule>,
    base: WorldModel,
    intents: Seq<IntentModel>,
    plan: PlanModel,
    message: Seq<char>,
)
    ensures
        materializer is World ==> !gives_meaning(materializer, rules, base, intents, Err(message)),
        materializer is World && gives_meaning(materializer, rules, base, intents, Ok(plan))
            ==> exists|verdicts: Seq<Result<(), Seq<char>>>|
            verdicts.len() == intents.len() && may_settle(rules, base, intents, verdicts) && plan
                == #[trigger] collapsed(chained(base, intents, verdicts)),
        materializer is TokenVm && materializer.has_room(total_steps(intents)) ==> (gives_meaning(
            materializer,
            rules,
            base,
            intents,
            Ok(plan),
        ) <==> materializes(rules, base, intents, Ok(plan))),
        materializer is TokenVm && !materializer.has_room(total_steps(intents)) ==> !gives_meaning(
            materializer,
            rules,
            base,
            intents,
            Ok(plan),
        ),
{
}

/// A namespace that is given out after a recovery is that of no intent that was recovered, wherever the
/// intent stands.
pub proof fn new_namespaces_are_fresh(
    upcoming: u64,
    epochs: Seq<Seq<IntentModel>>,
    epoch: int,
    index: int,
)
    requires
        clear_of_epochs(upcoming, epochs),
        upcoming < u64::MAX,
        0 <= epoch < epochs.len(),
        0 <= index < epochs[epoch].len(),
    ensures
        epochs[epoch][index].namespace != upcoming,
        epochs[epoch][index].namespace < upcoming || epochs[epoch][index].namespace
            == 0xffff_ffff_ffff_ffff,
{
    assert(clear_of(upcoming, epochs[epoch]));
}

} // verus!
