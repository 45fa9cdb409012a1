//! What a restart finds.

use crate::admission::{replay_is_deterministic, replays_to};
use crate::admission_core::usable;
use crate::database::Database;
use crate::durable_commit::{DurableCommit, durable_sound, durably_commits};
use crate::epoch_io::{EpochFileIo, FileEpochState};
use crate::epoch_store::{EpochErrorModel, FileEpochStore, opened_log, records_concat};
use crate::errors::CandidateErrorModel;
use crate::frame::FrameModel;
use crate::history_codec::{frames_fit, history_bytes, taken_history};
use crate::image::{ImageModel, images, unmappable};
use crate::intent::IntentModel;
use crate::journal::read_journal;
use crate::kernel::{DefinitionModel, numbered};
use crate::log_format::{Wording, log_bytes};
use crate::log_laws::{all_storable, complete_log_reads_back};
use crate::snapshot_format::{MAX_SNAPSHOT_BYTES, SnapshotModel, opened, snapshot_file};
use crate::snapshot_laws::{snapshot_keeps_world, snapshot_of};
use crate::snapshot_world::{
    restores, snapshot_restores_world, snapshot_world, snapshots_are_restorable,
};
use crate::vm::NONE;
use crate::vocabulary::tables_ok;
use crate::world::{WorldModel, genesis_world, reconstructed};
use vstd::prelude::*;

verus! {

/// A snapshot that was made behind a journal is opened beside that journal, and going on from it is
/// going on from the world that the replay of the journal gives.
pub proof fn snapshots_recover_what_the_journal_gives(
    epochs: Seq<Seq<IntentModel>>,
    world: WorldModel,
    replayed_world: WorldModel,
    journal: Seq<u8>,
    image: ImageModel,
    live: Seq<DefinitionModel>,
)
    requires
        read_journal(journal) == Ok::<(Seq<Seq<IntentModel>>, int), Seq<char>>(
            (epochs, journal.len() as int),
        ),
        replays_to(Seq::empty(), genesis_world(), epochs, world),
        replays_to(Seq::empty(), genesis_world(), epochs, replayed_world),
        numbered(world.kernel),
        world.kernel.live.len() <= world.kernel.records <= usize::MAX,
        world.kernel.next_entity <= u64::MAX,
        world.operation_count <= usize::MAX,
        images(image, world.kernel.live),
        tables_ok(image.names),
        image.records.len() < NONE,
        !unmappable(world.kernel.live),
        frames_fit(world.history),
        world.history.len() <= usize::MAX,
        16 <= journal.len() <= usize::MAX,
        epochs.len() <= u64::MAX,
        history_bytes(world.history).len() <= usize::MAX,
        snapshot_file(
            snapshot_of(world, epochs.len() as u64, journal, image),
            journal,
        ).len() <= MAX_SNAPSHOT_BYTES,
        restores(image, image.records.len() as int, live),
    ensures
        ({
            let snapshot = snapshot_of(world, epochs.len() as u64, journal, image);
            &&& opened(snapshot_file(snapshot, journal), journal) == Ok::<
                SnapshotModel,
                Seq<char>,
            >(snapshot)
            &&& usable(snapshot, journal)
            &&& snapshot.epoch_count == epochs.len()
            &&& snapshot_world(snapshot, live, taken_history(snapshot.history)->Ok_0)
                == replayed_world
        }),
{
    let count = epochs.len() as u64;
    assert(journal.take(journal.len() as int) =~= journal);
    snapshot_keeps_world(world, count, journal, journal, image);
    snapshots_are_restorable(world, count, journal, image);
    snapshot_restores_world(world, count, journal, image, live);
    replay_is_deterministic(Seq::empty(), genesis_world(), epochs, world, replayed_world);
}

/// A durable database whose file is in step with its store is found again after a restart: the
/// file opens to the stored history, and replaying it gives the published world.
pub proof fn durable_restarts_recover_the_world<I: EpochFileIo>(
    database: Database<FileEpochStore<I>>,
)
    requires
        durable_sound(database),
        database.epoch_store().in_step(),
        all_storable(database.log()),
        database.epoch_store().device().contents().len() <= usize::MAX,
    ensures
        opened_log(database.epoch_store().device().contents()) == Ok::<
            Seq<FrameModel>,
            EpochErrorModel,
        >(database.log()),
        reconstructed(database.log()) == Ok::<WorldModel, CandidateErrorModel>(database.world()),
{
    database.epoch_store().wf_is_linked();
    complete_log_reads_back(database.log(), Wording::Inspect);
}

/// Committing an epoch keeps the file in step with the store, unless the store had to be given up.
pub proof fn durable_commits_stay_in_step<I: EpochFileIo>(
    before: Database<FileEpochStore<I>>,
    after: Database<FileEpochStore<I>>,
    intents: Seq<IntentModel>,
    commit: DurableCommit,
)
    requires
        durable_sound(before),
        durably_commits(before, after, intents, commit),
        before.epoch_store().device().reliable(),
        before.epoch_store().in_step(),
        before.epoch_store()@.state == FileEpochState::Healthy,
        commit matches DurableCommit::Committed(plan) ==> log_bytes(
            before.log() + plan@.frames,
        ).len() <= u64::MAX,
        commit matches DurableCommit::Failed(plan, _) ==> log_bytes(
            before.log() + plan@.frames,
        ).len() <= u64::MAX,
    ensures
        after.epoch_store()@.state != FileEpochState::Poisoned ==> after.epoch_store().in_step(),
{
    match commit {
        DurableCommit::Committed(plan) => records_concat(before.log(), plan@.frames),
        DurableCommit::Failed(plan, _) => records_concat(before.log(), plan@.frames),
        DurableCommit::Broken(_) => {},
    }
}

} // verus!
