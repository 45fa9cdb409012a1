//! The way into an admission controller: a bounded queue of commands.

use crate::admission::{AdmissionEpochBatchSubmitError, AdmissionEpochSubmitError};
use crate::admission_worker::{AdmissionCommand, AdmissionCommandModel, WorkerEvent};
use crate::controller_metrics::{counted_more, counted_once};
use crate::epoch_io::{counted, counted_twice};
use crate::fact::views;
use crate::intent::{IntentModel, QueuedIntent};
use crate::staging::{StagedIntent, StagedModel, batch_tickets};
use vstd::prelude::*;
use vstd::string::*;

verus! {

/// The state of the way in.
pub struct IngressModel {
    pub capacity: nat,
    pub queue: Seq<AdmissionCommandModel>,
    pub closed: bool,
    pub next_ticket: u64,
    pub submitted_intents: u64,
    pub backpressured_intents: u64,
}

/// The way into an admission controller.
pub struct AdmissionIngress {
    capacity: usize,
    queue: Vec<AdmissionCommand>,
    closed: bool,
    next_ticket: u64,
    submitted_intents: u64,
    backpressured_intents: u64,
}

impl View for AdmissionIngress {
    type V = IngressModel;

    closed spec fn view(&self) -> IngressModel {
        IngressModel {
            capacity: self.capacity as nat,
            queue: views(self.queue@),
            closed: self.closed,
            next_ticket: self.next_ticket,
            submitted_intents: self.submitted_intents,
            backpressured_intents: self.backpressured_intents,
        }
    }
}

/// The intents of an epoch under tickets in a row.
pub open spec fn ticketed(intents: Seq<IntentModel>, first: u64, now: u64) -> Seq<StagedModel> {
    Seq::new(
        intents.len(),
        |i: int|
            StagedModel {
                ticket: counted(first, i as nat),
                intent: intents[i],
                enqueued_at: now,
            },
    )
}

impl AdmissionIngress {
    pub fn new(capacity: usize) -> (result: Self)
        ensures
            result@ == (IngressModel {
                capacity: capacity as nat,
                queue: Seq::empty(),
                closed: false,
                next_ticket: 1,
                submitted_intents: 0,
                backpressured_intents: 0,
            }),
    {
        let result = AdmissionIngress {
            capacity,
            queue: Vec::new(),
            closed: false,
            next_ticket: 1,
            submitted_intents: 0,
            backpressured_intents: 0,
        };
        proof {
            assert(views(result.queue@) =~= Seq::empty());
        }
        result
    }

    fn push(&mut self, command: AdmissionCommand)
        ensures
            final(self)@ == (IngressModel {
                queue: old(self)@.queue.push(command@),
                ..old(self)@
            }),
    {
        let ghost before = views(self.queue@);
        let ghost model = command@;
        self.queue.push(command);
        proof {
            assert(views(self.queue@) =~= before.push(model));
        }
    }

    /// Puts an intent in the queue, or hands it back at once.
    pub fn submit(&mut self, intent: QueuedIntent, now: u64) -> (result: Result<
        u64,
        AdmissionEpochSubmitError,
    >)
        ensures
            match result {
                Err(AdmissionEpochSubmitError::Closed(handed_back)) => old(self)@.closed
                    && handed_back@ == intent@ && final(self)@ == old(self)@,
                Err(AdmissionEpochSubmitError::Full(handed_back)) => !old(self)@.closed && old(
                    self,
                )@.queue.len() >= old(self)@.capacity && handed_back@ == intent@ && final(self)@
                    == (IngressModel {
                    backpressured_intents: counted(old(self)@.backpressured_intents, 1),
                    ..old(self)@
                }),
                Ok(ticket) => !old(self)@.closed && old(self)@.queue.len() < old(self)@.capacity
                    && ticket == old(self)@.next_ticket && final(self)@ == (IngressModel {
                    queue: old(self)@.queue.push(
                        AdmissionCommandModel::Intent(
                            StagedModel { ticket, intent: intent@, enqueued_at: now },
                        ),
                    ),
                    next_ticket: counted(ticket, 1),
                    submitted_intents: counted(old(self)@.submitted_intents, 1),
                    ..old(self)@
                }),
            },
    {
        if self.closed {
            return Err(AdmissionEpochSubmitError::Closed(intent));
        }
        proof {
            assert(self@.queue.len() == self.queue@.len());
        }
        if self.queue.len() >= self.capacity {
            self.backpressured_intents = counted_once(self.backpressured_intents);
            return Err(AdmissionEpochSubmitError::Full(intent));
        }
        let ticket: u64 = self.next_ticket;
        self.next_ticket = counted_once(ticket);
        self.submitted_intents = counted_once(self.submitted_intents);
        self.push(AdmissionCommand::Intent(StagedIntent { ticket, intent, enqueued_at: now }));
        Ok(ticket)
    }

    /// Puts intents in the queue as one epoch, or hands them back at once. No intents are no
    /// epoch.
    pub fn submit_epoch(&mut self, intents: Vec<QueuedIntent>, now: u64) -> (result: Result<
        Vec<u64>,
        AdmissionEpochBatchSubmitError,
    >)
        ensures
            ({
                let state = old(self)@;
                let models = views(intents@);
                match result {
                    Err(AdmissionEpochBatchSubmitError::Closed(handed_back)) => models.len() > 0
                        && state.closed && views(handed_back@) == models && final(self)@ == state,
                    Err(AdmissionEpochBatchSubmitError::Full(handed_back)) => models.len() > 0
                        && !state.closed && state.queue.len() >= state.capacity && views(
                        handed_back@,
                    ) == models && final(self)@ == (IngressModel {
                        backpressured_intents: counted(
                            state.backpressured_intents,
                            models.len(),
                        ),
                        ..state
                    }),
                    Ok(tickets) => tickets@ == batch_tickets(
                        ticketed(models, state.next_ticket, now),
                    ) && if models.len() == 0 {
                        final(self)@ == state
                    } else {
                        !state.closed && state.queue.len() < state.capacity && final(self)@ == (
                        IngressModel {
                            queue: state.queue.push(
                                AdmissionCommandModel::Epoch(
                                    ticketed(models, state.next_ticket, now),
                                ),
                            ),
                            next_ticket: counted(state.next_ticket, models.len()),
                            submitted_intents: counted(state.submitted_intents, models.len()),
                            ..state
                        })
                    },
                }
            }),
    {
        let ghost models = views(intents@);
        let ghost state = self@;
        proof {
            assert(models.len() == intents.len());
            assert(self@.queue.len() == self.queue@.len());
        }
        if intents.len() == 0 {
            let none: Vec<u64> = Vec::new();
            proof {
                assert(none@ =~= batch_tickets(ticketed(models, state.next_ticket, now)));
            }
            return Ok(none);
        }
        if self.closed {
            return Err(AdmissionEpochBatchSubmitError::Closed(intents));
        }
        let count: u64 = intents.len() as u64;
        if self.queue.len() >= self.capacity {
            self.backpressured_intents = counted_more(self.backpressured_intents, count);
            return Err(AdmissionEpochBatchSubmitError::Full(intents));
        }
        let mut tickets: Vec<u64> = Vec::new();
        let mut staged: Vec<StagedIntent> = Vec::new();
        let mut waiting = intents;
        proof {
            counted_twice(state.next_ticket, 0, 0);
        }
        while waiting.len() > 0
            invariant
                tickets.len() + waiting.len() == models.len(),
                staged.len() == tickets.len(),
                self@ == (IngressModel {
                    next_ticket: counted(state.next_ticket, tickets@.len()),
                    ..state
                }),
                forall|i: int|
                    0 <= i < waiting.len() ==> (#[trigger] waiting@[i])@ == models[tickets.len()
                        + i],
                forall|i: int|
                    0 <= i < tickets.len() ==> #[trigger] tickets@[i] == counted(
                        state.next_ticket,
                        i as nat,
                    ),
                forall|i: int|
                    0 <= i < staged.len() ==> (#[trigger] staged@[i])@ == ticketed(
                        models,
                        state.next_ticket,
                        now,
                    )[i],
            decreases waiting.len(),
        {
            let ghost before = waiting@;
            let ghost done = tickets.len() as int;
            let intent = waiting.remove(0);
            proof {
                assert(intent@ == models[done]);
                assert forall|i: int| 0 <= i < waiting.len() implies (#[trigger] waiting@[i])@
                    == models[done + 1 + i] by {
                    assert(waiting@[i] == before[i + 1]);
                }
                counted_twice(state.next_ticket, done as nat, 1);
            }
            let ticket: u64 = self.next_ticket;
            self.next_ticket = counted_once(ticket);
            tickets.push(ticket);
            staged.push(StagedIntent { ticket, intent, enqueued_at: now });
        }
        self.submitted_intents = counted_more(self.submitted_intents, count);
        proof {
            assert(tickets@ =~= batch_tickets(ticketed(models, state.next_ticket, now)));
            assert(views(staged@) =~= ticketed(models, state.next_ticket, now));
        }
        self.push(AdmissionCommand::Epoch(staged));
        Ok(tickets)
    }

    /// Puts a barrier in the queue.
    pub fn flush(&mut self) -> (result: Result<u64, String>)
        ensures
            match result {
                Err(message) => old(self)@.closed && message@ == "admission controller closed"@
                    && final(self)@ == old(self)@,
                Ok(barrier) => !old(self)@.closed && barrier == old(self)@.next_ticket && final(self)@ == (IngressModel {
                    queue: old(self)@.queue.push(AdmissionCommandModel::Barrier(barrier)),
                    next_ticket: counted(barrier, 1),
                    ..old(self)@
                }),
            },
    {
        if self.closed {
            return Err("admission controller closed".to_owned());
        }
        let barrier: u64 = self.next_ticket;
        self.next_ticket = counted_once(barrier);
        self.push(AdmissionCommand::Barrier(barrier));
        Ok(barrier)
    }

    /// Takes no more commands.
    pub fn close(&mut self)
        ensures
            final(self)@ == (IngressModel { closed: true, ..old(self)@ }),
    {
        self.closed = true;
    }

    /// The oldest command, if there is one.
    pub fn take(&mut self) -> (result: WorkerEvent)
        ensures
            match result {
                WorkerEvent::Command(command) => old(self)@.queue.len() > 0 && command@ == old(
                    self,
                )@.queue[0] && final(self)@ == (IngressModel {
                    queue: old(self)@.queue.drop_first(),
                    ..old(self)@
                }),
                WorkerEvent::Nothing => old(self)@.queue.len() == 0 && !old(self)@.closed && final(self)@ == old(self)@,
                WorkerEvent::Disconnected => old(self)@.queue.len() == 0 && old(self)@.closed
                    && final(self)@ == old(self)@,
            },
    {
        proof {
            assert(self@.queue.len() == self.queue@.len());
        }
        if self.queue.len() == 0 {
            return if self.closed {
                WorkerEvent::Disconnected
            } else {
                WorkerEvent::Nothing
            };
        }
        let ghost before = views(self.queue@);
        let command = self.queue.remove(0);
        proof {
            assert(views(self.queue@) =~= before.drop_first());
        }
        WorkerEvent::Command(command)
    }

    /// How many intents were taken, and how many were handed back because the queue was full.
    pub fn counts(&self) -> (result: (u64, u64))
        ensures
            result == (self@.submitted_intents, self@.backpressured_intents),
    {
        (self.submitted_intents, self.backpressured_intents)
    }
}

} // verus!
