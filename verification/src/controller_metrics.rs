//! What controllers count.

use crate::batching::{BatchSealReason, larger};
use crate::epoch_io::{counted, counted_twice};
use crate::tickets::DurableControllerState;
use vstd::prelude::*;

verus! {

/// A counter after one more event.
pub fn counted_once(count: u64) -> (result: u64)
    ensures
        result == counted(count, 1),
{
    proof {
        counted_twice(count, 0, 1);
    }
    count.wrapping_add(1)
}

/// A counter after more events.
pub fn counted_more(count: u64, more: u64) -> (result: u64)
    ensures
        result == counted(count, more as nat),
{
    proof {
        counted_twice(count, 0, more as nat);
    }
    count.wrapping_add(more)
}

/// What a controller in memory counts.
#[derive(Clone, Copy, Debug, PartialEq, Eq, Structural)]
pub struct QueuedControllerMetrics {
    pub capacity: usize,
    pub max_batch: usize,
    pub submitted: u64,
    pub backpressured: u64,
    pub claimed: u64,
    pub accepted: u64,
    pub rejected: u64,
    pub epochs: u64,
    pub abandoned_tickets: u64,
    pub completion_delivery_failures: u64,
    pub queue_depth: u64,
    pub maximum_queue_depth: u64,
    pub in_flight: u64,
    pub worker_alive: bool,
    pub batches_sealed_by_capacity: u64,
    pub batches_sealed_by_timeout: u64,
    pub batches_sealed_by_drain: u64,
    pub batches_sealed_by_width: u64,
    pub batches_sealed_by_latency: u64,
    pub batches_sealed_by_low_traffic: u64,
    pub batches_sealed_by_source_stalled: u64,
    pub batches_sealed_by_barrier: u64,
    pub maximum_target_width: usize,
    pub total_adaptive_probe_wait_ns: u64,
    pub maximum_oldest_age_at_seal_ns: u64,
}

/// Nothing counted yet; the worker is alive.
pub open spec fn fresh_queued(capacity: usize, max_batch: usize) -> QueuedControllerMetrics {
    QueuedControllerMetrics {
        capacity,
        max_batch,
        submitted: 0,
        backpressured: 0,
        claimed: 0,
        accepted: 0,
        rejected: 0,
        epochs: 0,
        abandoned_tickets: 0,
        completion_delivery_failures: 0,
        queue_depth: 0,
        maximum_queue_depth: 0,
        in_flight: 0,
        worker_alive: true,
        batches_sealed_by_capacity: 0,
        batches_sealed_by_timeout: 0,
        batches_sealed_by_drain: 0,
        batches_sealed_by_width: 0,
        batches_sealed_by_latency: 0,
        batches_sealed_by_low_traffic: 0,
        batches_sealed_by_source_stalled: 0,
        batches_sealed_by_barrier: 0,
        maximum_target_width: 0,
        total_adaptive_probe_wait_ns: 0,
        maximum_oldest_age_at_seal_ns: 0,
    }
}

/// One more batch was sealed.
pub open spec fn sealed_queued(metrics: QueuedControllerMetrics, reason: BatchSealReason) -> QueuedControllerMetrics {
    match reason {
        BatchSealReason::Capacity => QueuedControllerMetrics {
            batches_sealed_by_capacity: counted(metrics.batches_sealed_by_capacity, 1),
            ..metrics
        },
        BatchSealReason::Timeout => QueuedControllerMetrics {
            batches_sealed_by_timeout: counted(metrics.batches_sealed_by_timeout, 1),
            ..metrics
        },
        BatchSealReason::Drain => QueuedControllerMetrics {
            batches_sealed_by_drain: counted(metrics.batches_sealed_by_drain, 1),
            ..metrics
        },
        BatchSealReason::Width => QueuedControllerMetrics {
            batches_sealed_by_width: counted(metrics.batches_sealed_by_width, 1),
            ..metrics
        },
        BatchSealReason::Latency => QueuedControllerMetrics {
            batches_sealed_by_latency: counted(metrics.batches_sealed_by_latency, 1),
            ..metrics
        },
        BatchSealReason::LowTraffic => QueuedControllerMetrics {
            batches_sealed_by_low_traffic: counted(metrics.batches_sealed_by_low_traffic, 1),
            ..metrics
        },
        BatchSealReason::SourceStalled => QueuedControllerMetrics {
            batches_sealed_by_source_stalled: counted(metrics.batches_sealed_by_source_stalled, 1),
            ..metrics
        },
        BatchSealReason::Barrier => QueuedControllerMetrics {
            batches_sealed_by_barrier: counted(metrics.batches_sealed_by_barrier, 1),
            ..metrics
        },
    }
}

impl QueuedControllerMetrics {
    pub fn new(capacity: usize, max_batch: usize) -> (result: Self)
        ensures
            result == fresh_queued(capacity, max_batch),
    {
        QueuedControllerMetrics {
            capacity,
            max_batch,
            submitted: 0,
            backpressured: 0,
            claimed: 0,
            accepted: 0,
            rejected: 0,
            epochs: 0,
            abandoned_tickets: 0,
            completion_delivery_failures: 0,
            queue_depth: 0,
            maximum_queue_depth: 0,
            in_flight: 0,
            worker_alive: true,
            batches_sealed_by_capacity: 0,
            batches_sealed_by_timeout: 0,
            batches_sealed_by_drain: 0,
            batches_sealed_by_width: 0,
            batches_sealed_by_latency: 0,
            batches_sealed_by_low_traffic: 0,
            batches_sealed_by_source_stalled: 0,
            batches_sealed_by_barrier: 0,
            maximum_target_width: 0,
            total_adaptive_probe_wait_ns: 0,
            maximum_oldest_age_at_seal_ns: 0,
        }
    }

    /// Takes a place in the queue if one is free; returns how many are taken.
    pub fn reserve_ingress(&mut self) -> (result: Option<u64>)
        ensures
            match result {
                Some(depth) => old(self).queue_depth < old(self).capacity && depth == old(
                    self,
                ).queue_depth + 1 && *final(self) == (QueuedControllerMetrics {
                    queue_depth: depth,
                    ..*old(self)
                }),
                None => old(self).queue_depth >= old(self).capacity && *final(self) == *old(self),
            },
    {
        if self.queue_depth >= self.capacity as u64 {
            return None;
        }
        self.queue_depth = self.queue_depth + 1;
        Some(self.queue_depth)
    }

    /// Gives a place in the queue back.
    pub fn release_ingress(&mut self)
        requires
            old(self).queue_depth > 0,
        ensures
            *final(self) == (QueuedControllerMetrics {
                queue_depth: (old(self).queue_depth - 1) as u64,
                ..*old(self)
            }),
    {
        self.queue_depth = self.queue_depth - 1;
    }

    /// Remembers the largest depth.
    pub fn observe_queue_depth(&mut self, depth: u64)
        ensures
            *final(self) == (QueuedControllerMetrics {
                maximum_queue_depth: larger(
                    old(self).maximum_queue_depth as int,
                    depth as int,
                ) as u64,
                ..*old(self)
            }),
    {
        if depth > self.maximum_queue_depth {
            self.maximum_queue_depth = depth;
        }
    }

    /// Counts a sealed batch under its reason.
    pub fn record_seal_reason(&mut self, reason: BatchSealReason)
        ensures
            *final(self) == sealed_queued(*old(self), reason),
    {
        match reason {
            BatchSealReason::Capacity => {
                self.batches_sealed_by_capacity = counted_once(self.batches_sealed_by_capacity);
            },
            BatchSealReason::Timeout => {
                self.batches_sealed_by_timeout = counted_once(self.batches_sealed_by_timeout);
            },
            BatchSealReason::Drain => {
                self.batches_sealed_by_drain = counted_once(self.batches_sealed_by_drain);
            },
            BatchSealReason::Width => {
                self.batches_sealed_by_width = counted_once(self.batches_sealed_by_width);
            },
            BatchSealReason::Latency => {
                self.batches_sealed_by_latency = counted_once(self.batches_sealed_by_latency);
            },
            BatchSealReason::LowTraffic => {
                self.batches_sealed_by_low_traffic = counted_once(self.batches_sealed_by_low_traffic);
            },
            BatchSealReason::SourceStalled => {
                self.batches_sealed_by_source_stalled = counted_once(self.batches_sealed_by_source_stalled);
            },
            BatchSealReason::Barrier => {
                self.batches_sealed_by_barrier = counted_once(self.batches_sealed_by_barrier);
            },
        }
    }

    /// Remembers the largest width that was aimed at.
    pub fn record_max_target_width(&mut self, width: usize)
        ensures
            *final(self) == (QueuedControllerMetrics {
                maximum_target_width: larger(
                    old(self).maximum_target_width as int,
                    width as int,
                ) as usize,
                ..*old(self)
            }),
    {
        if width > self.maximum_target_width {
            self.maximum_target_width = width;
        }
    }

    /// Remembers the largest age of an intent when its batch was sealed.
    pub fn record_oldest_age_at_seal(&mut self, age: u64)
        ensures
            *final(self) == (QueuedControllerMetrics {
                maximum_oldest_age_at_seal_ns: larger(
                    old(self).maximum_oldest_age_at_seal_ns as int,
                    age as int,
                ) as u64,
                ..*old(self)
            }),
    {
        if age > self.maximum_oldest_age_at_seal_ns {
            self.maximum_oldest_age_at_seal_ns = age;
        }
    }
}

/// What a durable controller counts. Times are in nanoseconds.
#[derive(Clone, Copy, Debug, PartialEq, Eq, Structural)]
pub struct DurableQueuedControllerMetrics {
    pub capacity: usize,
    pub max_batch: usize,
    pub state: DurableControllerState,
    pub submitted: u64,
    pub backpressured: u64,
    pub claimed: u64,
    pub accepted: u64,
    pub rejected: u64,
    pub durability_failed: u64,
    pub shutdown_before_claim: u64,
    pub worker_failed: u64,
    pub epochs: u64,
    pub speculative_epochs_prepared: u64,
    pub speculative_epochs_rederived: u64,
    pub abandoned_tickets: u64,
    pub completion_delivery_failures: u64,
    pub queue_depth: u64,
    pub maximum_queue_depth: u64,
    pub in_flight: u64,
    pub worker_alive: bool,
    pub queue_wait_nanos: u64,
    pub derive_nanos: u64,
    pub persist_nanos: u64,
    pub publish_nanos: u64,
    pub delivery_nanos: u64,
    pub epoch_total_nanos: u64,
    pub batches_sealed_by_capacity: u64,
    pub batches_sealed_by_timeout: u64,
    pub batches_sealed_by_drain: u64,
    pub batches_sealed_by_width: u64,
    pub batches_sealed_by_latency: u64,
    pub batches_sealed_by_low_traffic: u64,
    pub batches_sealed_by_source_stalled: u64,
    pub batches_sealed_by_barrier: u64,
    pub maximum_target_width: usize,
    pub total_adaptive_probe_wait_ns: u64,
    pub maximum_oldest_age_at_seal_ns: u64,
}

/// Nothing counted yet; the worker is alive.
pub open spec fn fresh_durable(capacity: usize, max_batch: usize) -> DurableQueuedControllerMetrics {
    DurableQueuedControllerMetrics {
        capacity,
        max_batch,
        state: DurableControllerState::Starting,
        submitted: 0,
        backpressured: 0,
        claimed: 0,
        accepted: 0,
        rejected: 0,
        durability_failed: 0,
        shutdown_before_claim: 0,
        worker_failed: 0,
        epochs: 0,
        speculative_epochs_prepared: 0,
        speculative_epochs_rederived: 0,
        abandoned_tickets: 0,
        completion_delivery_failures: 0,
        queue_depth: 0,
        maximum_queue_depth: 0,
        in_flight: 0,
        worker_alive: true,
        queue_wait_nanos: 0,
        derive_nanos: 0,
        persist_nanos: 0,
        publish_nanos: 0,
        delivery_nanos: 0,
        epoch_total_nanos: 0,
        batches_sealed_by_capacity: 0,
        batches_sealed_by_timeout: 0,
        batches_sealed_by_drain: 0,
        batches_sealed_by_width: 0,
        batches_sealed_by_latency: 0,
        batches_sealed_by_low_traffic: 0,
        batches_sealed_by_source_stalled: 0,
        batches_sealed_by_barrier: 0,
        maximum_target_width: 0,
        total_adaptive_probe_wait_ns: 0,
        maximum_oldest_age_at_seal_ns: 0,
    }
}

/// One more batch was sealed.
pub open spec fn sealed_durable(metrics: DurableQueuedControllerMetrics, reason: BatchSealReason) -> DurableQueuedControllerMetrics {
    match reason {
        BatchSealReason::Capacity => DurableQueuedControllerMetrics {
            batches_sealed_by_capacity: counted(metrics.batches_sealed_by_capacity, 1),
            ..metrics
        },
        BatchSealReason::Timeout => DurableQueuedControllerMetrics {
            batches_sealed_by_timeout: counted(metrics.batches_sealed_by_timeout, 1),
            ..metrics
        },
        BatchSealReason::Drain => DurableQueuedControllerMetrics {
            batches_sealed_by_drain: counted(metrics.batches_sealed_by_drain, 1),
            ..metrics
        },
        BatchSealReason::Width => DurableQueuedControllerMetrics {
            batches_sealed_by_width: counted(metrics.batches_sealed_by_width, 1),
            ..metrics
        },
        BatchSealReason::Latency => DurableQueuedControllerMetrics {
            batches_sealed_by_latency: counted(metrics.batches_sealed_by_latency, 1),
            ..metrics
        },
        BatchSealReason::LowTraffic => DurableQueuedControllerMetrics {
            batches_sealed_by_low_traffic: counted(metrics.batches_sealed_by_low_traffic, 1),
            ..metrics
        },
        BatchSealReason::SourceStalled => DurableQueuedControllerMetrics {
            batches_sealed_by_source_stalled: counted(metrics.batches_sealed_by_source_stalled, 1),
            ..metrics
        },
        BatchSealReason::Barrier => DurableQueuedControllerMetrics {
            batches_sealed_by_barrier: counted(metrics.batches_sealed_by_barrier, 1),
            ..metrics
        },
    }
}

impl DurableQueuedControllerMetrics {
    pub fn new(capacity: usize, max_batch: usize) -> (result: Self)
        ensures
            result == fresh_durable(capacity, max_batch),
    {
        DurableQueuedControllerMetrics {
            capacity,
            max_batch,
            state: DurableControllerState::Starting,
            submitted: 0,
            backpressured: 0,
            claimed: 0,
            accepted: 0,
            rejected: 0,
            durability_failed: 0,
            shutdown_before_claim: 0,
            worker_failed: 0,
            epochs: 0,
            speculative_epochs_prepared: 0,
            speculative_epochs_rederived: 0,
            abandoned_tickets: 0,
            completion_delivery_failures: 0,
            queue_depth: 0,
            maximum_queue_depth: 0,
            in_flight: 0,
            worker_alive: true,
            queue_wait_nanos: 0,
            derive_nanos: 0,
            persist_nanos: 0,
            publish_nanos: 0,
            delivery_nanos: 0,
            epoch_total_nanos: 0,
            batches_sealed_by_capacity: 0,
            batches_sealed_by_timeout: 0,
            batches_sealed_by_drain: 0,
            batches_sealed_by_width: 0,
            batches_sealed_by_latency: 0,
            batches_sealed_by_low_traffic: 0,
            batches_sealed_by_source_stalled: 0,
            batches_sealed_by_barrier: 0,
            maximum_target_width: 0,
            total_adaptive_probe_wait_ns: 0,
            maximum_oldest_age_at_seal_ns: 0,
        }
    }

    /// Takes a place in the queue if one is free; returns how many are taken.
    pub fn reserve_ingress(&mut self) -> (result: Option<u64>)
        ensures
            match result {
                Some(depth) => old(self).queue_depth < old(self).capacity && depth == old(
                    self,
                ).queue_depth + 1 && *final(self) == (DurableQueuedControllerMetrics {
                    queue_depth: depth,
                    ..*old(self)
                }),
                None => old(self).queue_depth >= old(self).capacity && *final(self) == *old(self),
            },
    {
        if self.queue_depth >= self.capacity as u64 {
            return None;
        }
        self.queue_depth = self.queue_depth + 1;
        Some(self.queue_depth)
    }

    /// Gives a place in the queue back.
    pub fn release_ingress(&mut self)
        requires
            old(self).queue_depth > 0,
        ensures
            *final(self) == (DurableQueuedControllerMetrics {
                queue_depth: (old(self).queue_depth - 1) as u64,
                ..*old(self)
            }),
    {
        self.queue_depth = self.queue_depth - 1;
    }

    /// Remembers the largest depth.
    pub fn observe_queue_depth(&mut self, depth: u64)
        ensures
            *final(self) == (DurableQueuedControllerMetrics {
                maximum_queue_depth: larger(
                    old(self).maximum_queue_depth as int,
                    depth as int,
                ) as u64,
                ..*old(self)
            }),
    {
        if depth > self.maximum_queue_depth {
            self.maximum_queue_depth = depth;
        }
    }

    /// Counts a sealed batch under its reason.
    pub fn record_seal_reason(&mut self, reason: BatchSealReason)
        ensures
            *final(self) == sealed_durable(*old(self), reason),
    {
        match reason {
            BatchSealReason::Capacity => {
                self.batches_sealed_by_capacity = counted_once(self.batches_sealed_by_capacity);
            },
            BatchSealReason::Timeout => {
                self.batches_sealed_by_timeout = counted_once(self.batches_sealed_by_timeout);
            },
            BatchSealReason::Drain => {
                self.batches_sealed_by_drain = counted_once(self.batches_sealed_by_drain);
            },
            BatchSealReason::Width => {
                self.batches_sealed_by_width = counted_once(self.batches_sealed_by_width);
            },
            BatchSealReason::Latency => {
                self.batches_sealed_by_latency = counted_once(self.batches_sealed_by_latency);
            },
            BatchSealReason::LowTraffic => {
                self.batches_sealed_by_low_traffic = counted_once(self.batches_sealed_by_low_traffic);
            },
            BatchSealReason::SourceStalled => {
                self.batches_sealed_by_source_stalled = counted_once(self.batches_sealed_by_source_stalled);
            },
            BatchSealReason::Barrier => {
                self.batches_sealed_by_barrier = counted_once(self.batches_sealed_by_barrier);
            },
        }
    }

    /// Remembers the largest width that was aimed at.
    pub fn record_max_target_width(&mut self, width: usize)
        ensures
            *final(self) == (DurableQueuedControllerMetrics {
                maximum_target_width: larger(
                    old(self).maximum_target_width as int,
                    width as int,
                ) as usize,
                ..*old(self)
            }),
    {
        if width > self.maximum_target_width {
            self.maximum_target_width = width;
        }
    }

    /// Remembers the largest age of an intent when its batch was sealed.
    pub fn record_oldest_age_at_seal(&mut self, age: u64)
        ensures
            *final(self) == (DurableQueuedControllerMetrics {
                maximum_oldest_age_at_seal_ns: larger(
                    old(self).maximum_oldest_age_at_seal_ns as int,
                    age as int,
                ) as u64,
                ..*old(self)
            }),
    {
        if age > self.maximum_oldest_age_at_seal_ns {
            self.maximum_oldest_age_at_seal_ns = age;
        }
    }
}

} // verus!
