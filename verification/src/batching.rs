//! When a batch of intents is full: policies, reasons, and the width that adapts.

use crate::epoch_io::{counted, counted_twice};
use vstd::prelude::*;

verus! {

/// How intents are gathered into batches. Times are in nanoseconds.
#[derive(Clone, Copy, Debug, PartialEq, Eq, Structural)]
#[allow(inconsistent_fields)]
pub enum BatchPolicy {
    /// Take what is there.
    ImmediateDrain { max_batch: usize },
    /// Wait a while for more.
    Coalesce { max_batch: usize, max_delay: u64 },
    /// Aim at a width that follows the traffic, within a latency budget.
    Adaptive { min_batch: usize, max_batch: usize, latency_budget: u64 },
}

/// Why a batch was sealed.
#[derive(Clone, Copy, Debug, PartialEq, Eq, Structural)]
pub enum BatchSealReason {
    Capacity,
    Timeout,
    Drain,
    Width,
    Latency,
    LowTraffic,
    SourceStalled,
    Barrier,
}

pub open spec fn max_batch_of(policy: BatchPolicy) -> usize {
    match policy {
        BatchPolicy::ImmediateDrain { max_batch } => max_batch,
        BatchPolicy::Coalesce { max_batch, .. } => max_batch,
        BatchPolicy::Adaptive { max_batch, .. } => max_batch,
    }
}

pub open spec fn min_batch_of(policy: BatchPolicy) -> usize {
    match policy {
        BatchPolicy::Adaptive { min_batch, .. } => min_batch,
        _ => 1,
    }
}

impl BatchPolicy {
    pub fn max_batch(self) -> (result: usize)
        ensures
            result == max_batch_of(self),
    {
        match self {
            BatchPolicy::ImmediateDrain { max_batch } => max_batch,
            BatchPolicy::Coalesce { max_batch, .. } => max_batch,
            BatchPolicy::Adaptive { max_batch, .. } => max_batch,
        }
    }

    pub fn min_batch(self) -> (result: usize)
        ensures
            result == min_batch_of(self),
    {
        match self {
            BatchPolicy::Adaptive { min_batch, .. } => min_batch,
            _ => 1,
        }
    }
}

pub open spec fn larger(a: int, b: int) -> int {
    if a >= b {
        a
    } else {
        b
    }
}

pub open spec fn smaller(a: int, b: int) -> int {
    if a <= b {
        a
    } else {
        b
    }
}

fn larger_of(a: usize, b: usize) -> (result: usize)
    ensures
        result == larger(a as int, b as int),
{
    if a >= b {
        a
    } else {
        b
    }
}

fn smaller_of(a: usize, b: usize) -> (result: usize)
    ensures
        result == smaller(a as int, b as int),
{
    if a <= b {
        a
    } else {
        b
    }
}

/// The width that batches aim at.
#[derive(Clone, Copy, Debug, PartialEq, Eq, Structural)]
pub struct AdaptiveState {
    pub target_width: usize,
    pub epochs_sealed: u64,
}

/// The larger of the bounds of a batch.
pub open spec fn widest_of(policy: BatchPolicy) -> usize {
    if min_batch_of(policy) > max_batch_of(policy) {
        min_batch_of(policy)
    } else {
        max_batch_of(policy)
    }
}

/// The width at the start.
pub open spec fn initial_target(policy: BatchPolicy) -> int {
    smaller(larger(min_batch_of(policy) as int, 16), max_batch_of(policy) as int)
}

/// The width after a batch was sealed.
pub open spec fn next_target(
    target: int,
    reason: BatchSealReason,
    achieved: int,
    min_batch: int,
    max_batch: int,
) -> int {
    match reason {
        BatchSealReason::Width => if achieved >= target {
            smaller(2 * (target + 1), max_batch)
        } else {
            smaller(target + larger(min_batch, 1), max_batch)
        },
        BatchSealReason::Latency => larger(target / 2, min_batch),
        BatchSealReason::SourceStalled => smaller(larger(achieved, min_batch), max_batch),
        BatchSealReason::LowTraffic => smaller(larger(achieved, min_batch), max_batch),
        _ => target,
    }
}

/// The width stays between the smallest and the largest batch.
pub proof fn target_stays_in_bounds(
    target: int,
    reason: BatchSealReason,
    achieved: int,
    min_batch: int,
    max_batch: int,
)
    requires
        0 <= min_batch,
        0 <= target <= larger(min_batch, max_batch),
        0 <= achieved,
    ensures
        next_target(target, reason, achieved, min_batch, max_batch) <= larger(
            min_batch,
            max_batch,
        ),
        min_batch <= target <= max_batch ==> min_batch <= next_target(
            target,
            reason,
            achieved,
            min_batch,
            max_batch,
        ) <= max_batch,
{
}

/// A new controller aims at a width between the smallest and the largest batch.
pub proof fn target_starts_in_bounds(policy: BatchPolicy)
    ensures
        initial_target(policy) <= max_batch_of(policy) <= widest_of(policy),
        min_batch_of(policy) <= max_batch_of(policy) ==> min_batch_of(policy) <= initial_target(
            policy,
        ),
{
}

/// Full batches make the width grow until it is the largest.
pub proof fn full_batches_widen(target: int, achieved: int, min_batch: int, max_batch: int)
    requires
        0 <= target < max_batch,
        achieved >= target,
    ensures
        next_target(target, BatchSealReason::Width, achieved, min_batch, max_batch) > target,
{
}

impl AdaptiveState {
    pub fn new(policy: BatchPolicy) -> (result: Self)
        ensures
            result.target_width == initial_target(policy),
            result.epochs_sealed == 0,
    {
        AdaptiveState {
            target_width: smaller_of(larger_of(policy.min_batch(), 16), policy.max_batch()),
            epochs_sealed: 0,
        }
    }

    /// Follows the traffic that a sealed batch shows.
    pub fn update_target(
        &mut self,
        reason: BatchSealReason,
        achieved_width: usize,
        min_batch: usize,
        max_batch: usize,
    )
        requires
            old(self).target_width < usize::MAX,
        ensures
            final(self).target_width == next_target(
                old(self).target_width as int,
                reason,
                achieved_width as int,
                min_batch as int,
                max_batch as int,
            ),
            final(self).epochs_sealed == counted(old(self).epochs_sealed, 1),
    {
        proof {
            counted_twice(self.epochs_sealed, 0, 1);
        }
        self.epochs_sealed = self.epochs_sealed.wrapping_add(1);
        match reason {
            BatchSealReason::Width => {
                if achieved_width >= self.target_width {
                    let next: usize = self.target_width + 1;
                    self.target_width = smaller_of(next.saturating_add(next), max_batch);
                } else {
                    self.target_width = smaller_of(
                        self.target_width.saturating_add(larger_of(min_batch, 1)),
                        max_batch,
                    );
                }
            },
            BatchSealReason::Latency => {
                self.target_width = larger_of(self.target_width / 2, min_batch);
            },
            BatchSealReason::SourceStalled => {
                self.target_width = smaller_of(larger_of(achieved_width, min_batch), max_batch);
            },
            BatchSealReason::LowTraffic => {
                self.target_width = smaller_of(larger_of(achieved_width, min_batch), max_batch);
            },
            _ => {},
        }
    }
}

/// How far the gathering of a batch has come.
#[derive(Clone, Copy, Debug, PartialEq, Eq, Structural)]
pub enum GatherStage {
    /// Takes what is there.
    Draining,
    /// Takes what came with an awaited intent.
    Topping,
    /// Takes no more.
    Ended(BatchSealReason),
}

/// A batch that is being gathered. It holds at least one intent.
#[derive(Clone, Copy, Debug, PartialEq, Eq, Structural)]
pub struct Gathering {
    pub policy: BatchPolicy,
    pub target_width: usize,
    /// How many intents the batch holds.
    pub width: usize,
    /// When the oldest of them was submitted.
    pub oldest: u64,
    /// When a batch that waits for more is sealed at the latest.
    pub deadline: u64,
    pub stage: GatherStage,
    /// Nothing has stopped the taking of intents that are there.
    pub open: bool,
}

/// What to do for a batch.
#[derive(Clone, Copy, Debug, PartialEq, Eq, Structural)]
pub enum GatherAction {
    /// Take the next command if there is one.
    Poll,
    /// Wait so long for the next command.
    Wait(u64),
    /// Wait so long for the next command, once.
    Probe(u64),
    Seal(BatchSealReason),
}

/// A batch of the largest size is sealed for that.
pub open spec fn capped(gathering: Gathering, reason: BatchSealReason) -> BatchSealReason {
    if gathering.width >= max_batch_of(gathering.policy) {
        BatchSealReason::Capacity
    } else {
        reason
    }
}

/// How long to wait once for the next intent: twice the time between two, at least ten and at
/// most 250 microseconds, within what is left of the budget.
pub open spec fn probe_wait(predicted: int, left: int) -> int {
    smaller(smaller(larger(2 * predicted, 10_000), 250_000), left)
}

/// How old the oldest intent of a batch is.
pub open spec fn age_of(oldest: u64, now: u64) -> int {
    if now >= oldest {
        now - oldest
    } else {
        0
    }
}

/// What to do for a batch, at a time, while the controller runs or not, with the predicted time
/// between two intents.
pub open spec fn gather_action(
    gathering: Gathering,
    now: u64,
    running: bool,
    predicted: u64,
) -> GatherAction {
    let max_batch = max_batch_of(gathering.policy);
    match gathering.policy {
        BatchPolicy::ImmediateDrain { .. } => if gathering.open && gathering.width < max_batch
            && running {
            GatherAction::Poll
        } else {
            GatherAction::Seal(capped(gathering, BatchSealReason::Drain))
        },
        BatchPolicy::Coalesce { .. } => if gathering.open && gathering.width < max_batch && running
            && now < gathering.deadline {
            GatherAction::Wait((gathering.deadline - now) as u64)
        } else {
            GatherAction::Seal(capped(gathering, BatchSealReason::Timeout))
        },
        BatchPolicy::Adaptive { latency_budget, .. } => match gathering.stage {
            GatherStage::Draining => if gathering.open && gathering.width < gathering.target_width
                && running {
                GatherAction::Poll
            } else if gathering.width >= gathering.target_width {
                GatherAction::Seal(capped(gathering, BatchSealReason::Width))
            } else if age_of(gathering.oldest, now) >= latency_budget {
                GatherAction::Seal(capped(gathering, BatchSealReason::Latency))
            } else {
                GatherAction::Probe(
                    probe_wait(
                        predicted as int,
                        latency_budget - age_of(gathering.oldest, now),
                    ) as u64,
                )
            },
            GatherStage::Topping => if gathering.open && gathering.width < gathering.target_width
                && running {
                GatherAction::Poll
            } else if gathering.width >= gathering.target_width {
                GatherAction::Seal(capped(gathering, BatchSealReason::Width))
            } else {
                GatherAction::Seal(capped(gathering, BatchSealReason::LowTraffic))
            },
            GatherStage::Ended(reason) => GatherAction::Seal(capped(gathering, reason)),
        },
    }
}

/// The batch has at least one intent, and no more than the larger of its bounds.
pub open spec fn gathering_ok(gathering: Gathering) -> bool {
    &&& 1 <= gathering.width <= widest_of(gathering.policy)
    &&& gathering.target_width <= widest_of(gathering.policy)
}

/// One more intent in the batch.
pub open spec fn joined_by(gathering: Gathering, enqueued_at: u64) -> Gathering {
    Gathering {
        width: (gathering.width + 1) as usize,
        oldest: if enqueued_at < gathering.oldest {
            enqueued_at
        } else {
            gathering.oldest
        },
        ..gathering
    }
}

/// Another intent is asked for only while there is room for it, so no batch is larger than the
/// larger of its bounds: the largest batch, wherever the smallest is no larger.
pub proof fn batches_never_overflow(
    gathering: Gathering,
    now: u64,
    running: bool,
    predicted: u64,
    enqueued_at: u64,
)
    requires
        gathering_ok(gathering),
        !(gather_action(gathering, now, running, predicted) is Seal),
    ensures
        gathering.width < widest_of(gathering.policy),
        gathering_ok(joined_by(gathering, enqueued_at)),
{
}

/// A batch is sealed for its size exactly when it has reached the largest size.
pub proof fn sealed_for_capacity_when_full(
    gathering: Gathering,
    now: u64,
    running: bool,
    predicted: u64,
)
    requires
        gathering_ok(gathering),
        !(gathering.stage matches GatherStage::Ended(reason) && reason == BatchSealReason::Capacity),
        gather_action(gathering, now, running, predicted) is Seal,
    ensures
        gather_action(gathering, now, running, predicted) == GatherAction::Seal(
            BatchSealReason::Capacity,
        ) <==> gathering.width >= max_batch_of(gathering.policy),
{
}

/// A controller that no longer runs takes no intent into a batch, but for one that an adaptive
/// batch already waits for.
pub proof fn stopped_controllers_seal(gathering: Gathering, now: u64, predicted: u64)
    ensures
        !(gather_action(gathering, now, false, predicted) is Poll),
        !(gather_action(gathering, now, false, predicted) is Wait),
{
}

impl Gathering {
    /// Starts a batch with its first intent.
    pub fn begin(policy: BatchPolicy, target_width: usize, enqueued_at: u64, now: u64) -> (result:
        Self)
        ensures
            result == (Gathering {
                policy,
                target_width,
                width: 1,
                oldest: enqueued_at,
                deadline: match policy {
                    BatchPolicy::Coalesce { max_delay, .. } => smaller(
                        now + max_delay,
                        u64::MAX as int,
                    ) as u64,
                    _ => now,
                },
                stage: GatherStage::Draining,
                open: true,
            }),
    {
        let deadline: u64 = match policy {
            BatchPolicy::Coalesce { max_delay, .. } => now.saturating_add(max_delay),
            _ => now,
        };
        Gathering {
            policy,
            target_width,
            width: 1,
            oldest: enqueued_at,
            deadline,
            stage: GatherStage::Draining,
            open: true,
        }
    }

    fn cap(&self, reason: BatchSealReason) -> (result: BatchSealReason)
        ensures
            result == capped(*self, reason),
    {
        if self.width >= self.policy.max_batch() {
            BatchSealReason::Capacity
        } else {
            reason
        }
    }

    /// What to do for the batch.
    pub fn decide(&self, now: u64, running: bool, predicted: u64) -> (result: GatherAction)
        ensures
            result == gather_action(*self, now, running, predicted),
    {
        let max_batch: usize = self.policy.max_batch();
        match self.policy {
            BatchPolicy::ImmediateDrain { .. } => if self.open && self.width < max_batch
                && running {
                GatherAction::Poll
            } else {
                GatherAction::Seal(self.cap(BatchSealReason::Drain))
            },
            BatchPolicy::Coalesce { .. } => if self.open && self.width < max_batch && running
                && now < self.deadline {
                GatherAction::Wait(self.deadline - now)
            } else {
                GatherAction::Seal(self.cap(BatchSealReason::Timeout))
            },
            BatchPolicy::Adaptive { latency_budget, .. } => match self.stage {
                GatherStage::Draining => if self.open && self.width < self.target_width
                    && running {
                    GatherAction::Poll
                } else if self.width >= self.target_width {
                    GatherAction::Seal(self.cap(BatchSealReason::Width))
                } else {
                    let age: u64 = now.saturating_sub(self.oldest);
                    if age >= latency_budget {
                        GatherAction::Seal(self.cap(BatchSealReason::Latency))
                    } else {
                        GatherAction::Probe(wait_once(predicted, latency_budget - age))
                    }
                },
                GatherStage::Topping => if self.open && self.width < self.target_width
                    && running {
                    GatherAction::Poll
                } else if self.width >= self.target_width {
                    GatherAction::Seal(self.cap(BatchSealReason::Width))
                } else {
                    GatherAction::Seal(self.cap(BatchSealReason::LowTraffic))
                },
                GatherStage::Ended(reason) => GatherAction::Seal(self.cap(reason)),
            },
        }
    }

    /// An intent came that was polled or waited for.
    pub fn take_intent(&mut self, enqueued_at: u64)
        requires
            old(self).width < usize::MAX,
        ensures
            *final(self) == joined_by(*old(self), enqueued_at),
    {
        self.width = self.width + 1;
        if enqueued_at < self.oldest {
            self.oldest = enqueued_at;
        }
    }

    /// Nothing came, or a barrier.
    pub fn take_nothing(&mut self)
        ensures
            *final(self) == (Gathering { open: false, ..*old(self) }),
    {
        self.open = false;
    }

    /// An intent came in answer to a probe.
    pub fn probe_intent(&mut self, enqueued_at: u64)
        requires
            old(self).width < usize::MAX,
        ensures
            *final(self) == (Gathering {
                stage: GatherStage::Topping,
                open: true,
                ..joined_by(*old(self), enqueued_at)
            }),
    {
        self.take_intent(enqueued_at);
        self.stage = GatherStage::Topping;
        self.open = true;
    }

    /// A barrier came in answer to a probe.
    pub fn probe_barrier(&mut self)
        ensures
            *final(self) == (Gathering {
                stage: GatherStage::Ended(BatchSealReason::Barrier),
                ..*old(self)
            }),
    {
        self.stage = GatherStage::Ended(BatchSealReason::Barrier);
    }

    /// Nothing came in answer to a probe: intents come seldom, or the source has stalled.
    pub fn probe_nothing(&mut self, predicted: u64)
        ensures
            *final(self) == (Gathering {
                stage: GatherStage::Ended(
                    if old(self).policy matches BatchPolicy::Adaptive { latency_budget, .. }
                        && predicted > latency_budget / 2 {
                        BatchSealReason::LowTraffic
                    } else {
                        BatchSealReason::SourceStalled
                    },
                ),
                ..*old(self)
            }),
    {
        let seldom = match self.policy {
            BatchPolicy::Adaptive { latency_budget, .. } => predicted > latency_budget / 2,
            _ => false,
        };
        self.stage = if seldom {
            GatherStage::Ended(BatchSealReason::LowTraffic)
        } else {
            GatherStage::Ended(BatchSealReason::SourceStalled)
        };
    }

    /// How old the oldest intent of the batch is.
    pub fn age(&self, now: u64) -> (result: u64)
        ensures
            result == age_of(self.oldest, now),
    {
        now.saturating_sub(self.oldest)
    }
}

fn wait_once(predicted: u64, left: u64) -> (result: u64)
    ensures
        result == probe_wait(predicted as int, left as int),
{
    let twice: u64 = predicted.saturating_add(predicted);
    let wait: u64 = if twice < 10_000 {
        10_000
    } else if twice > 250_000 {
        250_000
    } else {
        twice
    };
    if wait < left {
        wait
    } else {
        left
    }
}

} // verus!
