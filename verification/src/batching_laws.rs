//! How batches are sealed and how their width follows the traffic.

use crate::batching::{
    BatchPolicy, BatchSealReason, GatherAction, GatherStage, Gathering, age_of, gather_action,
    initial_target, joined_by, next_target,
};
use crate::queued_controller::{begun, unanswered};
use vstd::prelude::*;

verus! {

/// The width starts at sixteen, or at the bound that does not admit sixteen.
pub proof fn widths_start_near_sixteen(policy: BatchPolicy)
    ensures
        match policy {
            BatchPolicy::ImmediateDrain { max_batch } => initial_target(policy) == if max_batch
                < 16 {
                max_batch as int
            } else {
                16
            },
            BatchPolicy::Coalesce { max_batch, .. } => initial_target(policy) == if max_batch < 16 {
                max_batch as int
            } else {
                16
            },
            BatchPolicy::Adaptive { min_batch, max_batch, .. } => {
                &&& min_batch <= 16 <= max_batch ==> initial_target(policy) == 16
                &&& max_batch < 16 || max_batch < min_batch ==> initial_target(policy) == max_batch
                &&& 16 < min_batch <= max_batch ==> initial_target(policy) == min_batch
            },
        },
{
}

/// What a sealed batch does to the width: one that was full doubles it and one more, one that was
/// sealed for its width below the aim adds the smallest batch, a late one halves it, and one for
/// which nothing more came sets it to what the batch had; each within the bounds. Other reasons keep
/// it.
pub proof fn widths_follow_the_traffic(
    target: int,
    reason: BatchSealReason,
    achieved: int,
    min_batch: int,
    max_batch: int,
)
    requires
        0 <= min_batch <= max_batch,
        min_batch <= target <= max_batch,
        0 <= achieved,
    ensures
        ({
            let next = next_target(target, reason, achieved, min_batch, max_batch);
            let reached = target + 1 + target + 1;
            match reason {
                BatchSealReason::Width => {
                    &&& next >= target
                    &&& next == max_batch || achieved < target || next == reached
                    &&& achieved >= target && reached >= max_batch ==> next == max_batch
                    &&& achieved < target && min_batch > 0 && target + min_batch <= max_batch
                        ==> next == target + min_batch
                    &&& achieved < target && min_batch == 0 && target < max_batch ==> next == target
                        + 1
                    &&& achieved < target && target + min_batch > max_batch ==> next == max_batch
                },
                BatchSealReason::Latency => {
                    &&& next <= target
                    &&& next == min_batch || next == target / 2
                    &&& target >= 2 * min_batch ==> next == target / 2
                    &&& target < 2 * min_batch ==> next == min_batch
                },
                BatchSealReason::SourceStalled | BatchSealReason::LowTraffic => {
                    &&& min_batch <= achieved <= max_batch ==> next == achieved
                    &&& achieved < min_batch ==> next == min_batch
                    &&& achieved > max_batch ==> next == max_batch
                },
                BatchSealReason::Drain | BatchSealReason::Timeout | BatchSealReason::Barrier
                | BatchSealReason::Capacity => next == target,
            }
        }),
{
}

/// When a batch that takes what is there is sealed: not while there may be more, room for it and a
/// controller that runs. It never waits.
pub proof fn drains_never_wait(gathering: Gathering, now: u64, running: bool, predicted: u64)
    requires
        gathering.policy is ImmediateDrain,
    ensures
        ({
            let most = gathering.policy->ImmediateDrain_max_batch;
            match gather_action(gathering, now, running, predicted) {
                GatherAction::Poll => gathering.open && gathering.width < most && running,
                GatherAction::Seal(reason) => {
                    &&& !gathering.open || gathering.width >= most || !running
                    &&& gathering.width >= most ==> reason == BatchSealReason::Capacity
                    &&& gathering.width < most ==> reason == BatchSealReason::Drain
                },
                _ => false,
            }
        }),
{
}

/// When a batch that waits for more is sealed: not before its deadline, while there may be more,
/// room for it and a controller that runs; it waits for exactly what is left.
pub proof fn coalescing_waits_for_the_deadline(
    gathering: Gathering,
    now: u64,
    running: bool,
    predicted: u64,
)
    requires
        gathering.policy is Coalesce,
    ensures
        ({
            let most = gathering.policy->Coalesce_max_batch;
            match gather_action(gathering, now, running, predicted) {
                GatherAction::Wait(time) => gathering.open && gathering.width < most && running
                    && time > 0 && now + time == gathering.deadline,
                GatherAction::Seal(reason) => {
                    &&& !gathering.open || gathering.width >= most || !running || now
                        >= gathering.deadline
                    &&& gathering.width >= most ==> reason == BatchSealReason::Capacity
                    &&& gathering.width < most ==> reason == BatchSealReason::Timeout
                },
                _ => false,
            }
        }),
{
}

/// What an adaptive batch does: it polls up to the width it aims at; it probes at most once, in no
/// case for longer than its budget leaves, for at least ten and at most 250 microseconds where there
/// is as much left, and in between for twice the predicted time; and it is sealed for its width, its
/// age, the traffic, or whatever ended it.
pub proof fn adaptive_batches_keep_their_budget(
    gathering: Gathering,
    now: u64,
    running: bool,
    predicted: u64,
)
    requires
        gathering.policy is Adaptive,
    ensures
        ({
            let most = gathering.policy->Adaptive_max_batch;
            let budget = gathering.policy->Adaptive_latency_budget as int;
            let late = now - gathering.oldest >= budget || budget == 0;
            let wide = gathering.width >= gathering.target_width;
            match gather_action(gathering, now, running, predicted) {
                GatherAction::Poll => gathering.open && running && !wide && !(
                gathering.stage is Ended),
                GatherAction::Probe(time) => {
                    &&& gathering.stage is Draining
                    &&& !wide
                    &&& !late
                    &&& !gathering.open || !running
                    &&& time <= 250_000
                    &&& time <= budget
                    &&& now >= gathering.oldest ==> now + time <= gathering.oldest + budget
                    &&& time < 10_000 ==> time == budget || now + time == gathering.oldest + budget
                    &&& 10_000 < time < 2 * predicted ==> time == 250_000 || time == budget || now
                        + time == gathering.oldest + budget
                    &&& time > 10_000 ==> time <= 2 * predicted
                },
                GatherAction::Seal(reason) => {
                    &&& gathering.width >= most ==> reason == BatchSealReason::Capacity
                    &&& gathering.width < most ==> match gathering.stage {
                        GatherStage::Ended(ended) => reason == ended,
                        GatherStage::Draining => wide && reason == BatchSealReason::Width || !wide
                            && late && reason == BatchSealReason::Latency,
                        GatherStage::Topping => wide && reason == BatchSealReason::Width || !wide
                            && reason == BatchSealReason::LowTraffic,
                    }
                    &&& gathering.open && running && !wide ==> gathering.stage is Ended
                },
                GatherAction::Wait(_) => false,
            }
        }),
{
}

/// A batch is as old as the oldest of its intents, whichever came first.
pub proof fn batches_are_as_old_as_their_oldest(
    gathering: Gathering,
    first: u64,
    second: u64,
    now: u64,
)
    requires
        gathering.width + 2 <= usize::MAX,
    ensures
        joined_by(joined_by(gathering, first), second) == joined_by(
            joined_by(gathering, second),
            first,
        ),
        joined_by(gathering, first).width == gathering.width + 1,
        joined_by(gathering, first).oldest <= first,
        joined_by(gathering, first).oldest <= gathering.oldest,
        joined_by(gathering, first).oldest == first || joined_by(gathering, first).oldest
            == gathering.oldest,
        now >= gathering.oldest ==> gathering.oldest + age_of(gathering.oldest, now) == now,
        now < gathering.oldest ==> age_of(gathering.oldest, now) == 0,
{
}

/// What a probe without an answer means: little traffic, if the next intent was not to be expected
/// within half of the budget, and a source that has stalled otherwise. It ends the gathering and
/// changes nothing else of it.
pub proof fn unanswered_probes_end_the_gathering(gathering: Gathering, predicted: u64)
    ensures
        ({
            let after = unanswered(gathering, predicted);
            &&& gathering.policy matches BatchPolicy::Adaptive { latency_budget, .. } ==> {
                &&& latency_budget < 2 * predicted && latency_budget / 2 < predicted
                    ==> after.stage == GatherStage::Ended(BatchSealReason::LowTraffic)
                &&& latency_budget >= 2 * predicted ==> after.stage == GatherStage::Ended(
                    BatchSealReason::SourceStalled,
                )
            }
            &&& !(gathering.policy is Adaptive) ==> after.stage == GatherStage::Ended(
                BatchSealReason::SourceStalled,
            )
            &&& after.width == gathering.width
            &&& after.oldest == gathering.oldest
            &&& after.policy == gathering.policy
            &&& after.target_width == gathering.target_width
            &&& after.deadline == gathering.deadline
        }),
{
}

/// A gathering begins with one intent, which is its oldest, and takes what is there; where it may wait
/// for more it waits for as long as its policy says, but not beyond the end of time.
pub proof fn gatherings_begin_with_one_intent(
    policy: BatchPolicy,
    target_width: usize,
    enqueued_at: u64,
    now: u64,
)
    ensures
        ({
            let start = begun(policy, target_width, enqueued_at, now);
            &&& start.policy == policy
            &&& start.target_width == target_width
            &&& start.width == 1
            &&& start.oldest == enqueued_at
            &&& start.stage == GatherStage::Draining
            &&& start.open
            &&& match policy {
                BatchPolicy::Coalesce { max_delay, .. } => {
                    &&& now + max_delay <= u64::MAX ==> start.deadline == now + max_delay
                    &&& now + max_delay > u64::MAX ==> start.deadline == u64::MAX
                },
                _ => start.deadline == now,
            }
        }),
{
}

} // verus!
