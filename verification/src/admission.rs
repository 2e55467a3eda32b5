//! Admission control: a concurrency bound plus a circuit breaker.
//!
//! Every event entering the pipeline reserves capacity here and the
//! reservation is given back once the event reaches a terminal state.  The
//! breaker watches dispatch outcomes: after `breaker_threshold` consecutive
//! failures it opens and admissions are refused until the cooldown has
//! elapsed, at which point a single half-open probe is let through.

use vstd::prelude::*;

use crate::config::Config;

verus! {

/// The circuit-breaker state machine.
#[derive(Clone, Copy, Debug, PartialEq, Eq, Structural)]
pub enum CircuitState {
    /// Downstream is healthy; admissions flow.
    Closed,
    /// Downstream kept failing; admissions are refused until the cooldown
    /// has elapsed.
    Open,
    /// One probe is in flight; everything else is refused until its outcome
    /// is recorded.
    HalfOpen,
}

/// Why an admission was refused.
#[derive(Clone, Copy, Debug, PartialEq, Eq, Structural)]
pub enum Rejected {
    /// The concurrency bound is exhausted.
    Overloaded,
    /// The circuit breaker is open or probing.
    DownstreamUnavailable,
}

/// Reserved capacity for `slots` events; surrendered back through
/// [`AdmissionController::release`].
#[derive(Clone, Copy, Debug, PartialEq, Eq, Structural)]
pub struct AdmissionTicket {
    pub slots: u64,
}

/// Tracks outstanding admission tickets and the downstream health signal.
#[derive(Clone, Copy, Debug, PartialEq, Eq, Structural)]
pub struct AdmissionController {
    /// Upper bound on outstanding ticket slots.
    pub max_concurrency: u64,
    /// Consecutive failures that open the breaker.
    pub threshold: u64,
    /// How long the breaker stays open before a probe is allowed.
    pub cooldown: u64,
    /// Ticket slots currently outstanding.
    pub inflight: u64,
    /// Consecutive dispatch failures seen so far, capped at `threshold`.
    pub failures: u64,
    pub state: CircuitState,
    /// When the breaker last opened.
    pub opened_at: u64,
}

impl AdmissionController {
    /// Internal invariant: the ticket bound holds and the breaker state
    /// agrees with the failure count.
    pub open spec fn wf(self) -> bool {
        &&& self.max_concurrency >= 1
        &&& self.threshold >= 1
        &&& self.cooldown >= 1
        &&& self.inflight <= self.max_concurrency
        &&& self.failures <= self.threshold
        &&& (self.state is Closed ==> self.failures < self.threshold)
        &&& (self.state is Open ==> self.failures == self.threshold)
        &&& (self.state is HalfOpen ==> self.failures == self.threshold)
    }

    /// Whether the open breaker's cooldown has elapsed at `now`.
    pub open spec fn cooldown_elapsed(self, now: u64) -> bool {
        now >= self.opened_at && now - self.opened_at >= self.cooldown
    }

    /// The verdict `admit` gives without changing the controller: refused
    /// while the breaker is open (or probing), refused when capacity is
    /// exhausted, granted otherwise.
    pub open spec fn admit_outcome(self, slots: u64, now: u64) -> Result<AdmissionTicket, Rejected> {
        if self.state is Open && !self.cooldown_elapsed(now) {
            Err(Rejected::DownstreamUnavailable)
        } else if self.state is HalfOpen {
            Err(Rejected::DownstreamUnavailable)
        } else if self.inflight + slots > self.max_concurrency {
            Err(Rejected::Overloaded)
        } else {
            Ok(AdmissionTicket { slots })
        }
    }

    /// The controller after `admit`: a granted ticket raises `inflight`, and
    /// a grant out of the open state is the half-open probe.
    pub open spec fn admit_next(self, slots: u64, now: u64) -> AdmissionController {
        if self.admit_outcome(slots, now) is Ok {
            AdmissionController {
                inflight: (self.inflight + slots) as u64,
                state: if self.state is Open {
                    CircuitState::HalfOpen
                } else {
                    self.state
                },
                ..self
            }
        } else {
            self
        }
    }

    /// The controller after one recorded dispatch failure: the consecutive
    /// count rises (capped at the threshold) and reaching the threshold opens
    /// the breaker, stamping the opening time.
    pub open spec fn fail_next(self, now: u64) -> AdmissionController {
        let f = if self.failures < self.threshold {
            (self.failures + 1) as u64
        } else {
            self.failures
        };
        if f >= self.threshold {
            AdmissionController { failures: f, state: CircuitState::Open, opened_at: now, ..self }
        } else {
            AdmissionController { failures: f, ..self }
        }
    }

    /// The controller after one recorded dispatch success: the breaker
    /// closes and the consecutive-failure count resets.
    pub open spec fn success_next(self) -> AdmissionController {
        AdmissionController { failures: 0, state: CircuitState::Closed, ..self }
    }

    /// The controller after `n` consecutive recorded failures, all at `now`.
    pub open spec fn fail_times(self, n: nat, now: u64) -> AdmissionController
        decreases n,
    {
        if n == 0 {
            self
        } else {
            self.fail_times((n - 1) as nat, now).fail_next(now)
        }
    }

    /// A fresh controller for the configured limits: nothing in flight, no
    /// failures, breaker closed.
    pub fn new(cfg: &Config) -> (a: AdmissionController)
        requires
            cfg.valid(),
        ensures
            a.wf(),
            a.max_concurrency == cfg.max_concurrency,
            a.threshold == cfg.breaker_threshold,
            a.cooldown == cfg.breaker_cooldown,
            a.inflight == 0,
            a.failures == 0,
            a.state is Closed,
            a.opened_at == 0,
    {
        AdmissionController {
            max_concurrency: cfg.max_concurrency,
            threshold: cfg.breaker_threshold,
            cooldown: cfg.breaker_cooldown,
            inflight: 0,
            failures: 0,
            state: CircuitState::Closed,
            opened_at: 0,
        }
    }

    /// Try to reserve `slots` units of capacity at time `now`.  Fail-fast:
    /// when refused, the controller is unchanged and the caller may retry
    /// later.
    pub fn try_admit(&mut self, slots: u64, now: u64) -> (r: Result<AdmissionTicket, Rejected>)
        requires
            old(self).wf(),
            slots >= 1,
        ensures
            final(self).wf(),
            r == old(self).admit_outcome(slots, now),
            *final(self) == old(self).admit_next(slots, now),
    {
        if self.state == CircuitState::Open {
            if !(now >= self.opened_at && now - self.opened_at >= self.cooldown) {
                return Err(Rejected::DownstreamUnavailable);
            }
        }
        if self.state == CircuitState::HalfOpen {
            return Err(Rejected::DownstreamUnavailable);
        }
        if slots > self.max_concurrency - self.inflight {
            return Err(Rejected::Overloaded);
        }
        self.inflight = self.inflight + slots;
        if self.state == CircuitState::Open {
            self.state = CircuitState::HalfOpen;
        }
        Ok(AdmissionTicket { slots })
    }

    /// Give back reserved capacity.  Saturates at zero, so a stray release
    /// can never corrupt the bound.
    pub fn release(&mut self, slots: u64)
        requires
            old(self).wf(),
        ensures
            final(self).wf(),
            final(self).inflight == if old(self).inflight >= slots {
                (old(self).inflight - slots) as u64
            } else {
                0u64
            },
            *final(self) == (AdmissionController { inflight: final(self).inflight, ..*old(self) }),
    {
        self.inflight = self.inflight.saturating_sub(slots);
    }

    /// Record one dispatch failure reported by the dispatcher.
    pub fn record_failure(&mut self, now: u64)
        requires
            old(self).wf(),
        ensures
            final(self).wf(),
            *final(self) == old(self).fail_next(now),
    {
        if self.failures < self.threshold {
            self.failures = self.failures + 1;
        }
        if self.failures >= self.threshold {
            self.state = CircuitState::Open;
            self.opened_at = now;
        }
    }

    /// Record one dispatch success reported by the dispatcher.
    pub fn record_success(&mut self)
        requires
            old(self).wf(),
        ensures
            final(self).wf(),
            *final(self) == old(self).success_next(),
    {
        self.failures = 0;
        self.state = CircuitState::Closed;
    }
}

/// Consecutive failures preserve the invariant, leave capacity accounting
/// alone, cap the failure count at the threshold, and open the breaker as
/// soon as the threshold is crossed, stamping the time of the failures.
pub proof fn lemma_failures_accumulate(a: AdmissionController, n: nat, now: u64)
    requires
        a.wf(),
    ensures
        a.fail_times(n, now).wf(),
        a.fail_times(n, now).failures == if a.failures + n >= a.threshold {
            a.threshold as int
        } else {
            a.failures + n
        },
        a.failures + n >= a.threshold && n >= 1 ==> a.fail_times(n, now).state is Open
            && a.fail_times(n, now).opened_at == now,
        a.fail_times(n, now).inflight == a.inflight,
        a.fail_times(n, now).max_concurrency == a.max_concurrency,
        a.fail_times(n, now).threshold == a.threshold,
        a.fail_times(n, now).cooldown == a.cooldown,
    decreases n,
{
    if n > 0 {
        lemma_failures_accumulate(a, (n - 1) as nat, now);
    }
}

/// Circuit-breaker law: from any well-formed controller, `threshold`
/// consecutive dispatch failures leave the breaker open, stamped with the
/// time of the failures; while the cooldown has not elapsed every admission
/// is refused with `DownstreamUnavailable`; once it has elapsed (and
/// capacity allows) exactly one probe is admitted, the breaker turns
/// half-open, and further admissions are refused until the probe's outcome
/// is recorded.
pub proof fn lemma_circuit_breaker(a: AdmissionController, now: u64, slots: u64, early: u64, late: u64)
    requires
        a.wf(),
        1 <= slots,
        a.inflight + slots <= a.max_concurrency,
        !a.fail_times(a.threshold as nat, now).cooldown_elapsed(early),
        a.fail_times(a.threshold as nat, now).cooldown_elapsed(late),
    ensures
        ({
            let b = a.fail_times(a.threshold as nat, now);
            &&& b.wf()
            &&& b.state is Open
            &&& b.opened_at == now
            &&& b.admit_outcome(slots, early) == Err::<AdmissionTicket, Rejected>(
                Rejected::DownstreamUnavailable,
            )
            &&& b.admit_outcome(slots, late) == Ok::<AdmissionTicket, Rejected>(
                AdmissionTicket { slots },
            )
            &&& b.admit_next(slots, late).state is HalfOpen
            &&& b.admit_next(slots, late).admit_outcome(slots, late) == Err::<
                AdmissionTicket,
                Rejected,
            >(Rejected::DownstreamUnavailable)
        }),
{
    lemma_failures_accumulate(a, a.threshold as nat, now);
}

} // verus!
