//! Dispatch: drives a sealed batch to the durable log and the analytical
//! store, with bounded retries, exponential backoff and circuit-breaker
//! feedback.
//!
//! The collaborators are abstract ports: the durable log is written (and
//! must acknowledge) before the analytical store is attempted, so replay
//! from the log can always reconstruct analytical state.  Their
//! implementations live outside the verified core; the dispatcher states
//! what holds of its own state whatever the collaborators answer.

use vstd::prelude::*;

use crate::admission::AdmissionController;
use crate::batch::{Batch, BatchStatus};

verus! {

/// A transient fault reported by a downstream collaborator.
#[derive(Clone, Copy, Debug, PartialEq, Eq, Structural)]
pub struct DispatchError;

/// The ordered, replayable system of record.  Implementations acknowledge
/// an append only once the batch is durably queued.
pub trait DurableLog {
    fn append(&mut self, batch: &Batch) -> Result<(), DispatchError>;
}

/// The analytical store, written only after the durable log acknowledged.
pub trait AnalyticalStore {
    fn insert(&mut self, batch: &Batch) -> Result<(), DispatchError>;
}

/// Pacing between retry attempts; implementations sleep (or, under a
/// controlled clock, record the delay).
pub trait RetryPacer {
    fn wait(&mut self, delay: u64);
}

/// How a dispatched batch ended.
#[derive(Clone, Copy, Debug, PartialEq, Eq, Structural)]
pub enum DispatchResult {
    /// Both collaborators acknowledged; the batch is durable downstream.
    Acknowledged,
    /// Every attempt failed; the batch belongs on the dead-letter path.
    Failed,
}

/// The retry delay before attempt `attempt + 1`: the base delay doubled
/// `attempt` times, saturating at the largest representable delay.
pub open spec fn backoff_spec(base: u64, attempt: nat) -> u64
    decreases attempt,
{
    if attempt == 0 {
        base
    } else {
        let p = backoff_spec(base, (attempt - 1) as nat);
        if p + p > u64::MAX {
            u64::MAX
        } else {
            (p + p) as u64
        }
    }
}

/// Drives sealed batches downstream with bounded retries.
#[derive(Clone, Copy, Debug, PartialEq, Eq, Structural)]
pub struct Dispatcher {
    /// Attempts per batch before it is declared failed.
    pub max_attempts: u64,
    /// Base delay for exponential backoff.
    pub base_backoff: u64,
}

impl Dispatcher {
    /// The backoff delay used after the failed attempt numbered `attempt`
    /// (counting from zero).
    pub fn backoff_delay(&self, attempt: u64) -> (r: u64)
        ensures
            r == backoff_spec(self.base_backoff, attempt as nat),
    {
        let mut d: u64 = self.base_backoff;
        let mut i: u64 = 0;
        while i < attempt
            invariant
                i <= attempt,
                d == backoff_spec(self.base_backoff, i as nat),
            decreases attempt - i,
        {
            d = d.saturating_add(d);
            i = i + 1;
        }
        d
    }

    /// Dispatch one sealed batch: write the durable log first, then the
    /// analytical store; retry up to `max_attempts` times with backoff,
    /// reporting every attempt's outcome to the circuit breaker; on success
    /// or exhaustion, release the batch's admission tickets.
    ///
    /// Whatever the collaborators answer: the batch's contents survive
    /// unchanged, it ends in a terminal status matching the result, the
    /// breaker sees exactly the consecutive failures that happened (all of
    /// them on failure, a reset on success), and `inflight` drops by the
    /// batch's size.
    pub fn dispatch<L: DurableLog, S: AnalyticalStore, P: RetryPacer>(
        &self,
        batch: &mut Batch,
        log: &mut L,
        store: &mut S,
        pacer: &mut P,
        breaker: &mut AdmissionController,
        now: u64,
    ) -> (r: DispatchResult)
        requires
            old(batch).status is Sealed,
            old(breaker).wf(),
            self.max_attempts >= 1,
        ensures
            final(breaker).wf(),
            final(batch).seq_no == old(batch).seq_no,
            final(batch).key == old(batch).key,
            final(batch).created_at == old(batch).created_at,
            final(batch).events@ == old(batch).events@,
            final(breaker).max_concurrency == old(breaker).max_concurrency,
            final(breaker).threshold == old(breaker).threshold,
            final(breaker).cooldown == old(breaker).cooldown,
            final(breaker).inflight == if old(breaker).inflight >= old(batch).events@.len() {
                old(breaker).inflight - old(batch).events@.len()
            } else {
                0
            },
            match r {
                DispatchResult::Acknowledged => {
                    &&& final(batch).status is Acknowledged
                    &&& final(breaker).failures == 0
                    &&& final(breaker).state is Closed
                },
                DispatchResult::Failed => {
                    &&& final(batch).status is Failed
                    &&& ({
                        let worn = old(breaker).fail_times(self.max_attempts as nat, now);
                        &&& final(breaker).failures == worn.failures
                        &&& final(breaker).state == worn.state
                        &&& final(breaker).opened_at == worn.opened_at
                    })
                },
            },
    {
        batch.status = BatchStatus::Dispatching;
        let released: u64 = batch.events.len() as u64;
        let mut attempt: u64 = 0;
        while attempt < self.max_attempts
            invariant
                attempt <= self.max_attempts,
                self.max_attempts >= 1,
                batch.status is Dispatching,
                batch.seq_no == old(batch).seq_no,
                batch.key == old(batch).key,
                batch.created_at == old(batch).created_at,
                batch.events@ == old(batch).events@,
                released == old(batch).events@.len(),
                breaker.wf(),
                *breaker == old(breaker).fail_times(attempt as nat, now),
                breaker.max_concurrency == old(breaker).max_concurrency,
                breaker.threshold == old(breaker).threshold,
                breaker.cooldown == old(breaker).cooldown,
                breaker.inflight == old(breaker).inflight,
            decreases self.max_attempts - attempt,
        {
            let logged = log.append(batch);
            if logged.is_ok() {
                let stored = store.insert(batch);
                if stored.is_ok() {
                    batch.status = BatchStatus::Acknowledged;
                    breaker.record_success();
                    breaker.release(released);
                    return DispatchResult::Acknowledged;
                }
            }
            breaker.record_failure(now);
            attempt = attempt + 1;
            if attempt < self.max_attempts {
                pacer.wait(self.backoff_delay(attempt - 1));
            }
        }
        batch.status = BatchStatus::Failed;
        proof {
            crate::admission::lemma_failures_accumulate(
                *old(breaker),
                self.max_attempts as nat,
                now,
            );
        }
        breaker.release(released);
        DispatchResult::Failed
    }
}

} // verus!
