//! Intents on their way to a commit.

use crate::fact::views;
use crate::intent::{IntentModel, QueuedIntent};
use crate::plan_model::{has_epoch_room, total_steps, total_steps_monotone};
use crate::world::World;
use vstd::prelude::*;

verus! {

/// An intent that waits for its turn.
pub struct StagedIntent {
    pub ticket: u64,
    pub intent: QueuedIntent,
    /// When it was submitted, in nanoseconds.
    pub enqueued_at: u64,
}

pub struct StagedModel {
    pub ticket: u64,
    pub intent: IntentModel,
    pub enqueued_at: u64,
}

impl View for StagedIntent {
    type V = StagedModel;

    open spec fn view(&self) -> StagedModel {
        StagedModel { ticket: self.ticket, intent: self.intent@, enqueued_at: self.enqueued_at }
    }
}

/// What a controller is asked to do.
pub enum ControllerCommand {
    Intent(StagedIntent),
    /// Tell when everything before has been done.
    Barrier(u64),
}

pub enum CommandModel {
    Intent(StagedModel),
    Barrier(u64),
}

impl View for ControllerCommand {
    type V = CommandModel;

    open spec fn view(&self) -> CommandModel {
        match self {
            ControllerCommand::Intent(staged) => CommandModel::Intent(staged@),
            ControllerCommand::Barrier(barrier) => CommandModel::Barrier(*barrier),
        }
    }
}

/// The intents of a batch.
pub open spec fn batch_intents(batch: Seq<StagedModel>) -> Seq<IntentModel> {
    Seq::new(batch.len(), |i: int| batch[i].intent)
}

/// The tickets of a batch.
pub open spec fn batch_tickets(batch: Seq<StagedModel>) -> Seq<u64> {
    Seq::new(batch.len(), |i: int| batch[i].ticket)
}

/// How many intents wait.
pub open spec fn waiting_intents(queue: Seq<CommandModel>) -> nat
    decreases queue.len(),
{
    if queue.len() == 0 {
        0
    } else {
        waiting_intents(queue.drop_last()) + if queue.last() is Intent {
            1nat
        } else {
            0nat
        }
    }
}

/// No more intents wait than commands do.
pub proof fn waiting_bound(queue: Seq<CommandModel>)
    ensures
        waiting_intents(queue) <= queue.len(),
    decreases queue.len(),
{
    if queue.len() > 0 {
        waiting_bound(queue.drop_last());
    }
}

pub proof fn waiting_push(queue: Seq<CommandModel>, command: CommandModel)
    ensures
        waiting_intents(queue.push(command)) == waiting_intents(queue) + if command is Intent {
            1nat
        } else {
            0nat
        },
{
    assert(queue.push(command).drop_last() =~= queue);
}

pub proof fn waiting_remove_first(queue: Seq<CommandModel>)
    requires
        queue.len() > 0,
    ensures
        waiting_intents(queue) == waiting_intents(queue.drop_first()) + if queue[0] is Intent {
            1nat
        } else {
            0nat
        },
    decreases queue.len(),
{
    let rest = queue.drop_first();
    if queue.len() == 1 {
        assert(rest =~= Seq::empty());
        assert(queue.drop_last() =~= Seq::empty());
    } else {
        waiting_remove_first(queue.drop_last());
        assert(queue.drop_last().drop_first() =~= rest.drop_last());
        assert(rest.last() == queue.last());
    }
}

/// A batch that was sealed and taken out.
pub struct SealedBatch {
    pub tickets: Vec<u64>,
    pub intents: Vec<QueuedIntent>,
}

/// Takes a batch apart: tickets and intents, in order.
pub fn split_batch(batch: Vec<StagedIntent>) -> (result: (Vec<u64>, Vec<QueuedIntent>))
    ensures
        result.0@ == batch_tickets(views(batch@)),
        views(result.1@) == batch_intents(views(batch@)),
        result.1.len() == batch.len(),
{
    let ghost models = views(batch@);
    let mut waiting = batch;
    let mut tickets: Vec<u64> = Vec::new();
    let mut intents: Vec<QueuedIntent> = Vec::new();
    while waiting.len() > 0
        invariant
            tickets.len() + waiting.len() == models.len(),
            intents.len() == tickets.len(),
            forall|i: int| 0 <= i < tickets.len() ==> #[trigger] tickets@[i] == models[i].ticket,
            forall|i: int|
                0 <= i < intents.len() ==> (#[trigger] intents@[i])@ == models[i].intent,
            forall|i: int|
                0 <= i < waiting.len() ==> (#[trigger] waiting@[i])@ == models[tickets.len() + i],
        decreases waiting.len(),
    {
        let ghost before = waiting@;
        let staged = waiting.remove(0);
        proof {
            assert(staged@ == models[tickets.len() as int]);
            assert forall|i: int| 0 <= i < waiting.len() implies (#[trigger] waiting@[i])@
                == models[tickets.len() + 1 + i] by {
                assert(waiting@[i] == before[i + 1]);
            }
        }
        tickets.push(staged.ticket);
        intents.push(staged.intent);
    }
    proof {
        assert(tickets@ =~= batch_tickets(models));
        assert(views(intents@) =~= batch_intents(models));
    }
    (tickets, intents)
}

/// Whether an epoch of a batch can be counted.
pub fn batch_fits(world: &World, batch: &Vec<StagedIntent>) -> (result: bool)
    ensures
        result == has_epoch_room(world@, batch_intents(views(batch@))),
{
    let ghost intents = batch_intents(views(batch@));
    let mut total: usize = 0;
    let mut index: usize = 0;
    proof {
        assert(intents.take(0) =~= Seq::empty());
    }
    while index < batch.len()
        invariant
            index <= batch.len(),
            intents == batch_intents(views(batch@)),
            total == total_steps(intents.take(index as int)),
        decreases batch.len() - index,
    {
        proof {
            assert(intents.take(index + 1).drop_last() =~= intents.take(index as int));
            assert(intents.take(index + 1).last() == batch@[index as int].intent@);
            total_steps_monotone(intents, index + 1);
        }
        match total.checked_add(batch[index].intent.operation_count()) {
            Some(more) => total = more,
            None => return false,
        }
        index += 1;
    }
    proof {
        assert(intents.take(index as int) =~= intents);
    }
    let room: u64 = u64::MAX - world.version();
    (batch.len() as u64) < room && total <= usize::MAX - world.operation_count() && total
        <= usize::MAX - world.record_count() && total as u64 <= u64::MAX - world.next_entity()
}

} // verus!
