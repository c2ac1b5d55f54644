//! The background scheduler's cadence arithmetic: each periodic task
//! computes its next deadline from its last start, so cycle duration does
//! not drift the cadence.
use vstd::prelude::*;

use crate::instance::ClientConfig;

verus! {

/// The four periodic tasks an instance runs.
#[derive(Clone, Copy, PartialEq, Eq, Structural, Debug)]
pub enum ScheduledTask {
    /// Discover the naming-service address, when none was configured.
    FetchNameServerAddr,
    /// Refresh topic routes from the naming service.
    UpdateTopicRouteInfo,
    /// Prune offline brokers, then send heartbeats.
    SendHeartbeat,
    /// Persist consumer offsets.
    PersistConsumerOffset,
}

impl ScheduledTask {
    /// Delay before the first run, in milliseconds.
    pub fn initial_delay_millis(&self) -> (r: u64)
        ensures
            r == match *self {
                ScheduledTask::FetchNameServerAddr => 10_000u64,
                ScheduledTask::UpdateTopicRouteInfo => 10u64,
                ScheduledTask::SendHeartbeat => 1_000u64,
                ScheduledTask::PersistConsumerOffset => 10_000u64,
            },
    {
        match self {
            ScheduledTask::FetchNameServerAddr => 10_000,
            ScheduledTask::UpdateTopicRouteInfo => 10,
            ScheduledTask::SendHeartbeat => 1_000,
            ScheduledTask::PersistConsumerOffset => 10_000,
        }
    }

    /// Repeat interval, in milliseconds; three of the four come from the
    /// configuration.
    pub fn interval_millis(&self, config: &ClientConfig) -> (r: u64)
        ensures
            r == match *self {
                ScheduledTask::FetchNameServerAddr => 120_000u64,
                ScheduledTask::UpdateTopicRouteInfo => config.poll_name_server_interval as u64,
                ScheduledTask::SendHeartbeat => config.heartbeat_broker_interval as u64,
                ScheduledTask::PersistConsumerOffset => config.persist_consumer_offset_interval
                    as u64,
            },
    {
        match self {
            ScheduledTask::FetchNameServerAddr => 120_000,
            ScheduledTask::UpdateTopicRouteInfo => self.interval_from(
                config.poll_name_server_interval,
            ),
            ScheduledTask::SendHeartbeat => self.interval_from(config.heartbeat_broker_interval),
            ScheduledTask::PersistConsumerOffset => self.interval_from(
                config.persist_consumer_offset_interval,
            ),
        }
    }

    /// Widen a configured interval.
    fn interval_from(&self, v: u32) -> (r: u64)
        ensures
            r == v as u64,
    {
        v as u64
    }
}

/// The deadline of the next run: one interval after the last start.
pub fn next_execution_time(last_start: u64, interval: u64) -> (r: u64)
    requires
        last_start + interval <= u64::MAX,
    ensures
        r == last_start + interval,
{
    last_start + interval
}

/// How long to sleep until `next`: the residual, clamped at zero when the
/// deadline already passed.
pub fn residual_delay(next: u64, now: u64) -> (r: u64)
    ensures
        r == if now <= next {
            next - now
        } else {
            0
        },
{
    if now <= next {
        next - now
    } else {
        0
    }
}

/// When the n-th cycle starts under deadline scheduling: the next deadline
/// is one interval after the last start, and a cycle that overruns it
/// starts late.
pub open spec fn cadence_start(first: nat, interval: nat, durs: Seq<nat>, n: int) -> nat
    decreases n,
{
    if n <= 0 {
        first
    } else {
        let prev = cadence_start(first, interval, durs, n - 1);
        let deadline = prev + interval;
        let fin = prev + durs[n - 1];
        if fin > deadline {
            fin
        } else {
            deadline
        }
    }
}

/// Fixed cadence: as long as every cycle runs no longer than the
/// interval, the n-th cycle starts exactly at
/// `first_delay + n * interval`, whatever the individual durations.
pub proof fn lemma_fixed_cadence(first: nat, interval: nat, durs: Seq<nat>, n: int)
    requires
        0 <= n <= durs.len(),
        forall|k: int| 0 <= k < durs.len() ==> durs[k] <= interval,
    ensures
        cadence_start(first, interval, durs, n) == first + n * interval,
    decreases n,
{
    if n > 0 {
        lemma_fixed_cadence(first, interval, durs, n - 1);
        assert(durs[n - 1] <= interval);
        assert((n - 1) * interval + interval == n * interval) by (nonlinear_arith);
    } else {
        assert(n * interval == 0) by (nonlinear_arith)
            requires n == 0;
    }
}

} // verus!
