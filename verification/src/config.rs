//! Tunable limits for the ingestion pipeline.

use vstd::prelude::*;

verus! {

/// All limits the pipeline enforces.  Durations are in milliseconds, sizes in
/// bytes or events.
#[derive(Clone, Copy, Debug, PartialEq, Eq, Structural)]
pub struct Config {
    /// Oldest acceptable event timestamp, as distance into the past from now.
    pub max_skew_past: u64,
    /// Furthest acceptable event timestamp into the future from now.
    pub max_skew_future: u64,
    /// Largest serialized `properties` payload accepted per event.
    pub max_properties_bytes: usize,
    /// A batch is sealed as soon as it holds this many events.
    pub max_batch_size: usize,
    /// A batch is sealed once it has been open this long.
    pub max_batch_age: u64,
    /// Upper bound on admission tickets outstanding at any time.
    pub max_concurrency: u64,
    /// Consecutive dispatch failures that open the circuit breaker.
    pub breaker_threshold: u64,
    /// Time the breaker stays open before it allows a half-open probe.
    pub breaker_cooldown: u64,
    /// Dispatch attempts per batch before it is declared failed.
    pub max_attempts: u64,
    /// Base delay for exponential backoff between dispatch attempts.
    pub base_backoff: u64,
}

impl Config {
    /// A configuration the pipeline can run on: every bound is positive.
    pub open spec fn valid(self) -> bool {
        &&& self.max_batch_size >= 1
        &&& self.max_batch_age >= 1
        &&& self.max_concurrency >= 1
        &&& self.breaker_threshold >= 1
        &&& self.breaker_cooldown >= 1
        &&& self.max_attempts >= 1
    }

    /// The default limits: 24h past / 5min future skew, 16 KiB properties,
    /// batches of 500 events or 50ms, and a breaker that opens after 3
    /// consecutive failures.
    pub fn defaults() -> (c: Config)
        ensures
            c.valid(),
            c.max_skew_past == 86_400_000u64,
            c.max_skew_future == 300_000u64,
            c.max_properties_bytes == 16_384usize,
            c.max_batch_size == 500usize,
            c.max_batch_age == 50u64,
            c.max_concurrency == 10_000u64,
            c.breaker_threshold == 3u64,
            c.breaker_cooldown == 1_000u64,
            c.max_attempts == 3u64,
            c.base_backoff == 10u64,
    {
        Config {
            max_skew_past: 86_400_000,
            max_skew_future: 300_000,
            max_properties_bytes: 16_384,
            max_batch_size: 500,
            max_batch_age: 50,
            max_concurrency: 10_000,
            breaker_threshold: 3,
            breaker_cooldown: 1_000,
            max_attempts: 3,
            base_backoff: 10,
        }
    }
}

} // verus!
