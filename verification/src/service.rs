//! The ingestion service: decode, admit, stamp, buffer, and hand sealed
//! batches to the dispatcher.
//!
//! A caller is acknowledged as soon as its event is decoded, admitted and
//! durably queued in memory — not once it is persisted downstream.  Sealed
//! batches wait in a ready queue; a driver (an HTTP server loop or a test)
//! pumps [`IngestionService::tick`] and [`IngestionService::dispatch_ready`]
//! with its own clock.

use vstd::prelude::*;

use crate::admission::{AdmissionController, AdmissionTicket, CircuitState, Rejected};
use crate::batch::{events_for_key, Accumulator, AdmittedEvent, Batch, EventId};
use crate::codec::{
    decode, decode_array, decode_spec, json_array_of, DecodeError, Event,
};
use crate::config::Config;
use crate::dispatch::{AnalyticalStore, Dispatcher, DispatchResult, DurableLog, RetryPacer};

verus! {

/// How one ingestion request ended.
#[derive(Clone, Debug, PartialEq, Eq)]
pub enum IngestOutcome {
    /// Decoded and admitted; carries the issued event identifier.
    Accepted(EventId),
    /// The payload was refused by the codec (a client fault).
    Invalid(DecodeError),
    /// Admission was refused (overload or open circuit).
    Busy(Rejected),
}

/// How one batch ingestion request ended.
#[derive(Clone, Debug, PartialEq, Eq)]
pub enum BatchIngestOutcome {
    /// Every element decoded and all were admitted; one identifier each.
    Accepted(Vec<EventId>),
    /// Some element was refused by the codec; nothing was admitted.
    Invalid(DecodeError),
    /// Admission was refused for the whole request; nothing was admitted.
    Busy(Rejected),
}

/// A liveness snapshot for the health endpoint.
#[derive(Clone, Copy, Debug, PartialEq, Eq, Structural)]
pub struct HealthReport {
    /// Admission ticket slots currently outstanding.
    pub inflight: u64,
    /// The circuit breaker's current state.
    pub circuit: CircuitState,
}

/// The decode verdicts of a whole batch payload, element by element: the
/// first refused element decides, otherwise all decoded envelopes in order.
pub open spec fn decode_all_spec(items: Seq<Vec<u8>>, now: u64, cfg: Config) -> Result<
    Seq<Event>,
    DecodeError,
>
    decreases items.len(),
{
    if items.len() == 0 {
        Ok(Seq::empty())
    } else {
        match decode_all_spec(items.drop_last(), now, cfg) {
            Err(e) => Err(e),
            Ok(rest) => match decode_spec(items.last()@, now, cfg) {
                Err(e) => Err(e),
                Ok(env) => Ok(rest.push(env)),
            },
        }
    }
}

/// Once some element up to `i` is refused, the whole batch verdict is that
/// refusal, whatever follows.
proof fn lemma_decode_all_err(
    items: Seq<Vec<u8>>,
    now: u64,
    cfg: Config,
    i: int,
    j: int,
    e: DecodeError,
)
    requires
        0 <= i < j <= items.len(),
        decode_all_spec(items.take(i), now, cfg) is Ok,
        decode_spec(items[i]@, now, cfg) == Err::<Event, DecodeError>(e),
    ensures
        decode_all_spec(items.take(j), now, cfg) == Err::<Seq<Event>, DecodeError>(e),
    decreases j,
{
    if j == i + 1 {
        assert(items.take(j).drop_last() =~= items.take(i));
        assert(items.take(j).last() == items[i]);
    } else {
        lemma_decode_all_err(items, now, cfg, i, j - 1, e);
        assert(items.take(j).drop_last() =~= items.take(j - 1));
    }
}

/// Whether an admitted event belongs to destination key `k`.
pub open spec fn keyed_as(k: Seq<char>) -> spec_fn(AdmittedEvent) -> bool {
    |ae: AdmittedEvent| ae.event.event_type@ == k
}

/// The submitted events paired one-to-one with their issued identifiers, in
/// submission order (empty unless the counts agree).
pub open spec fn stamped(ids: Seq<EventId>, envs: Seq<Event>) -> Seq<AdmittedEvent>
    decreases envs.len(),
{
    if envs.len() == 0 || ids.len() != envs.len() {
        Seq::empty()
    } else {
        stamped(ids.drop_last(), envs.drop_last()).push(
            (AdmittedEvent { id: ids.last(), event: envs.last() }),
        )
    }
}

/// Relies on uuid::Uuid::new_v4 and its hyphenated rendering: a fresh
/// random identifier, always 36 characters long.  If the operating system's
/// randomness source fails, uuid aborts the process — a machine-level
/// condition outside the library's no-panic promise.
#[verifier::external_body]
fn fresh_uuid() -> (r: String)
    ensures
        r@.len() == 36,
{
    uuid::Uuid::new_v4().hyphenated().to_string()
}

/// Issue the identifier for the `serial`-th accepted event of this
/// process: the serial carries uniqueness, the token unguessability.
fn make_event_id(serial: u64) -> (r: EventId)
    ensures
        r.serial == serial,
        r.token@.len() == 36,
{
    EventId { serial, token: fresh_uuid() }
}

/// Total number of events across the given batches.
pub open spec fn total_events(batches: Seq<Batch>) -> nat
    decreases batches.len(),
{
    if batches.len() == 0 {
        0
    } else {
        total_events(batches.drop_last()) + batches.last().events@.len()
    }
}

/// The entries of `added` are, in order, the batches of `ready` at the
/// strictly increasing positions `srcs` — contents intact, stamped Failed.
pub open spec fn failed_selection_of(ready: Seq<Batch>, added: Seq<Batch>, srcs: Seq<int>) -> bool {
    &&& srcs.len() == added.len()
    &&& (forall|x: int, y: int| 0 <= x < y < srcs.len() ==> srcs[x] < srcs[y])
    &&& (forall|x: int| 0 <= x < srcs.len() ==> 0 <= #[trigger] srcs[x] < ready.len())
    &&& (forall|x: int|
        0 <= x < added.len() ==> {
            let d = #[trigger] added[x];
            let s = ready[srcs[x]];
            &&& d.status is Failed
            &&& d.seq_no == s.seq_no
            &&& d.key@ == s.key@
            &&& d.created_at == s.created_at
            &&& d.events@ == s.events@
        })
}

/// The externally facing component: wires codec, admission, accumulation
/// and dispatch into a request/response cycle.
pub struct IngestionService {
    pub config: Config,
    pub admission: AdmissionController,
    pub accumulator: Accumulator,
    pub dispatcher: Dispatcher,
    /// Sealed batches waiting for the dispatch driver.
    pub ready: Vec<Batch>,
    /// Batches that exhausted their dispatch attempts.
    pub dead_letter: Vec<Batch>,
    /// Serial of the next event identifier to issue; strictly increasing,
    /// so no identifier is ever reused within this process.
    pub issued: u64,
}

impl IngestionService {
    /// Internal invariant: every component is well-formed and configured
    /// consistently, and everything in the ready queue is sealed.
    pub open spec fn wf(self) -> bool {
        &&& self.config.valid()
        &&& self.admission.wf()
        &&& self.accumulator.wf()
        &&& self.admission.max_concurrency == self.config.max_concurrency
        &&& self.admission.threshold == self.config.breaker_threshold
        &&& self.admission.cooldown == self.config.breaker_cooldown
        &&& self.accumulator.max_batch_size == self.config.max_batch_size
        &&& self.accumulator.max_batch_age == self.config.max_batch_age
        &&& self.dispatcher.max_attempts == self.config.max_attempts
        &&& self.dispatcher.base_backoff == self.config.base_backoff
        &&& (forall|i: int|
            0 <= i < self.ready@.len() ==> (#[trigger] self.ready@[i]).status
                is Sealed)
        &&& (forall|k: Seq<char>, i: int|
            0 <= i < self.accumulator.hist_of(k).len() ==> (
            #[trigger] self.accumulator.hist_of(k)[i]).id.serial < self.issued)
    }

    /// A fresh service for the given configuration: empty pipeline, closed
    /// breaker, nothing in flight.
    pub fn new(config: Config) -> (s: IngestionService)
        requires
            config.valid(),
        ensures
            s.wf(),
            s.config == config,
            s.admission.inflight == 0,
            s.admission.failures == 0,
            s.admission.state is Closed,
            forall|k: Seq<char>|
                #[trigger] s.accumulator.hist_of(k) == Seq::<AdmittedEvent>::empty(),
            s.ready@.len() == 0,
            s.dead_letter@.len() == 0,
            s.issued == 0,
    {
        let s = IngestionService {
            config,
            admission: AdmissionController::new(&config),
            accumulator: Accumulator::new(&config),
            dispatcher: Dispatcher {
                max_attempts: config.max_attempts,
                base_backoff: config.base_backoff,
            },
            ready: Vec::new(),
            dead_letter: Vec::new(),
            issued: 0,
        };
        proof {
            assert forall|k: Seq<char>, i: int|
                0 <= i < s.accumulator.hist_of(k).len() implies (
            #[trigger] s.accumulator.hist_of(k)[i]).id.serial < s.issued by {
                assert(s.accumulator.hist_of(k) == Seq::<AdmittedEvent>::empty());
            }
        }
        s
    }

    /// Ingest one event payload at time `now`: decode it, admit it, stamp a
    /// fresh identifier, and buffer it in its destination key's batch.
    /// Acknowledged as soon as it is queued; a batch sealed by this very
    /// addition moves to the ready queue.
    #[verifier::rlimit(100)]
    #[verifier::spinoff_prover]
    pub fn ingest(&mut self, payload: &[u8], now: u64) -> (r: IngestOutcome)
        requires
            old(self).wf(),
            old(self).issued < u64::MAX,
        ensures
            final(self).wf(),
            final(self).config == old(self).config,
            match r {
                IngestOutcome::Invalid(e) => {
                    &&& decode_spec(payload@, now, old(self).config) == Err::<Event, DecodeError>(e)
                    &&& *final(self) == *old(self)
                },
                IngestOutcome::Busy(rej) => {
                    &&& decode_spec(payload@, now, old(self).config) is Ok
                    &&& old(self).admission.admit_outcome(1, now) == Err::<
                        AdmissionTicket,
                        Rejected,
                    >(rej)
                    &&& *final(self) == *old(self)
                },
                IngestOutcome::Accepted(id) => {
                    &&& id.serial == old(self).issued
                    &&& id.token@.len() == 36
                    &&& final(self).issued == old(self).issued + 1
                    &&& decode_spec(payload@, now, old(self).config) matches Ok(env) && ({
                        let k = env.event_type@;
                        let ev = (AdmittedEvent { id: id, event: env });
                        &&& old(self).admission.admit_outcome(1, now) is Ok
                        &&& final(self).admission == old(self).admission.admit_next(1, now)
                        &&& final(self).accumulator.hist_of(k) == old(self).accumulator.hist_of(
                            k,
                        ).push(ev)
                        &&& (forall|k2: Seq<char>|
                            k2 != k ==> #[trigger] final(self).accumulator.hist_of(k2) == old(self).accumulator.hist_of(k2) && final(self).accumulator.sealed_of(k2)
                                == old(self).accumulator.sealed_of(k2) && final(self).accumulator.open_events(k2) == old(self).accumulator.open_events(k2))
                        &&& final(self).dead_letter == old(self).dead_letter
                        &&& (if old(self).accumulator.open_events(k).len() + 1 == old(self).config.max_batch_size {
                            &&& final(self).ready@.len() == old(self).ready@.len() + 1
                            &&& final(self).ready@.last().status is Sealed
                            &&& final(self).ready@.last().events@ == old(self).accumulator.open_events(k).push(ev)
                            &&& final(self).ready@.last().key@ == k
                            &&& final(self).ready@.subrange(0, old(self).ready@.len() as int)
                                == old(self).ready@
                            &&& final(self).accumulator.sealed_of(k) == old(self).accumulator.sealed_of(k) + final(self).ready@.last().events@
                            &&& !final(self).accumulator.has_open(k)
                        } else {
                            &&& final(self).ready@ == old(self).ready@
                            &&& final(self).accumulator.sealed_of(k) == old(self).accumulator.sealed_of(k)
                            &&& final(self).accumulator.open_events(k) == old(self).accumulator.open_events(k).push(ev)
                            &&& final(self).accumulator.has_open(k)
                        })
                    })
                },
            },
    {
        let env = match decode(payload, now, &self.config) {
            Err(e) => {
                return IngestOutcome::Invalid(e);
            },
            Ok(env) => env,
        };
        match self.admission.try_admit(1, now) {
            Err(rej) => {
                return IngestOutcome::Busy(rej);
            },
            Ok(_ticket) => {},
        }
        let id = make_event_id(self.issued);
        let ev = AdmittedEvent {
            id: EventId { serial: id.serial, token: id.token.clone() },
            event: env,
        };
        let ghost k = ev.event.event_type@;
        let ghost pre = *self;
        match self.accumulator.add(ev, now) {
            Some(b) => {
                self.ready.push(b);
                proof {
                    assert(self.ready@.subrange(0, old(self).ready@.len() as int)
                        =~= old(self).ready@);
                }
            },
            None => {},
        }
        self.issued = self.issued + 1;
        proof {
            assert forall|k2: Seq<char>, i: int|
                0 <= i < self.accumulator.hist_of(k2).len() implies (
            #[trigger] self.accumulator.hist_of(k2)[i]).id.serial < self.issued by {
                if k2 == k && i == self.accumulator.hist_of(k2).len() - 1 {
                } else {
                    assert(self.accumulator.hist_of(k2)[i] == pre.accumulator.hist_of(k2)[i]);
                    assert(pre.accumulator.hist_of(k2)[i].id.serial < pre.issued);
                }
            }
        }
        IngestOutcome::Accepted(id)
    }

    /// Ingest a whole array payload: every element must decode, the request
    /// is admitted as a whole, and each event is then stamped and buffered
    /// exactly as in single ingestion.
    pub fn ingest_batch(&mut self, payload: &[u8], now: u64) -> (r: BatchIngestOutcome)
        requires
            old(self).wf(),
            old(self).issued <= u64::MAX - old(self).config.max_concurrency,
        ensures
            final(self).wf(),
            final(self).config == old(self).config,
            match r {
                BatchIngestOutcome::Invalid(e) => {
                    &&& match json_array_of(payload@) {
                        Option::None => e is MalformedPayload,
                        Option::Some(items) => decode_all_spec(items@, now, old(self).config)
                            == Err::<Seq<Event>, DecodeError>(e),
                    }
                    &&& *final(self) == *old(self)
                },
                BatchIngestOutcome::Busy(rej) => {
                    &&& json_array_of(payload@) matches Some(items) && ({
                        &&& decode_all_spec(items@, now, old(self).config) matches Ok(envs)
                            && envs.len() >= 1
                        &&& old(self).admission.admit_outcome(
                            decode_all_spec(
                                items@,
                                now,
                                old(self).config,
                            )->Ok_0.len() as u64,
                            now,
                        ) == Err::<AdmissionTicket, Rejected>(rej)
                    })
                    &&& *final(self) == *old(self)
                },
                BatchIngestOutcome::Accepted(ids) => {
                    &&& json_array_of(payload@) matches Some(items) && ({
                        &&& decode_all_spec(items@, now, old(self).config) matches Ok(envs) && ({
                            &&& ids@.len() == envs.len()
                            &&& (forall|x: int|
                                0 <= x < ids@.len() ==> (#[trigger] ids@[x]).serial == old(self).issued + x && ids@[x].token@.len() == 36)
                            &&& final(self).issued == old(self).issued + envs.len()
                            &&& (envs.len() >= 1 ==> final(self).admission == old(self).admission.admit_next(envs.len() as u64, now))
                            &&& (envs.len() == 0 ==> *final(self) == *old(self))
                            &&& final(self).dead_letter == old(self).dead_letter
                            &&& final(self).ready@.subrange(0, old(self).ready@.len() as int)
                                == old(self).ready@
                            &&& (forall|i2: int|
                                old(self).ready@.len() <= i2 < final(self).ready@.len() ==> {
                                    let b = #[trigger] final(self).ready@[i2];
                                    &&& b.status is Sealed
                                    &&& b.events@.len() == old(self).config.max_batch_size
                                })
                            &&& (forall|k: Seq<char>|
                                #[trigger] final(self).accumulator.sealed_of(k)
                                    == old(self).accumulator.sealed_of(k) + events_for_key(
                                    final(self).ready@.subrange(
                                        old(self).ready@.len() as int,
                                        final(self).ready@.len() as int,
                                    ),
                                    k,
                                ))
                            &&& (forall|k: Seq<char>|
                                #[trigger] final(self).accumulator.hist_of(k)
                                    == old(self).accumulator.hist_of(k) + stamped(
                                    ids@,
                                    envs,
                                ).filter(keyed_as(k)))
                        })
                    })
                },
            },
    {
        let items = match decode_array(payload) {
            None => {
                return BatchIngestOutcome::Invalid(DecodeError::MalformedPayload);
            },
            Some(items) => items,
        };
        let mut envs: Vec<Event> = Vec::new();
        let mut i: usize = 0;
        while i < items.len()
            invariant
                old(self).wf(),
                *self == *old(self),
                i <= items@.len(),
                json_array_of(payload@) == Option::Some(items),
                decode_all_spec(items@.take(i as int), now, self.config) == Ok::<
                    Seq<Event>,
                    DecodeError,
                >(envs@),
            decreases items@.len() - i,
        {
            match decode(items[i].as_slice(), now, &self.config) {
                Err(e) => {
                    proof {
                        lemma_decode_all_err(
                            items@,
                            now,
                            self.config,
                            i as int,
                            items@.len() as int,
                            e,
                        );
                        assert(items@.take(items@.len() as int) =~= items@);
                    }
                    return BatchIngestOutcome::Invalid(e);
                },
                Ok(env) => {
                    envs.push(env);
                    proof {
                        assert(items@.take(i + 1).drop_last() =~= items@.take(i as int));
                        assert(items@.take(i + 1).last() == items@[i as int]);
                    }
                },
            }
            i = i + 1;
        }
        proof {
            assert(items@.take(items@.len() as int) =~= items@);
        }
        if envs.len() == 0 {
            proof {
                reveal_with_fuel(Seq::<AdmittedEvent>::filter, 1);
                assert forall|k: Seq<char>| #[trigger] self.accumulator.hist_of(k)
                    == old(self).accumulator.hist_of(k) + stamped(
                    Seq::<EventId>::empty(),
                    envs@,
                ).filter(keyed_as(k)) by {
                    assert(self.accumulator.hist_of(k) + Seq::<AdmittedEvent>::empty().filter(
                        keyed_as(k),
                    ) =~= self.accumulator.hist_of(k));
                }
                assert forall|k: Seq<char>| #[trigger] self.accumulator.sealed_of(k)
                    == old(self).accumulator.sealed_of(k) + events_for_key(
                    self.ready@.subrange(
                        old(self).ready@.len() as int,
                        self.ready@.len() as int,
                    ),
                    k,
                ) by {
                    assert(self.ready@.subrange(
                        old(self).ready@.len() as int,
                        self.ready@.len() as int,
                    ) =~= Seq::<Batch>::empty());
                    assert(self.accumulator.sealed_of(k) + events_for_key(
                        Seq::<Batch>::empty(),
                        k,
                    ) =~= self.accumulator.sealed_of(k));
                }
                assert(self.ready@.subrange(0, old(self).ready@.len() as int) =~= old(self).ready@);
            }
            return BatchIngestOutcome::Accepted(Vec::new());
        }
        let slots: u64 = envs.len() as u64;
        match self.admission.try_admit(slots, now) {
            Err(rej) => {
                return BatchIngestOutcome::Busy(rej);
            },
            Ok(_ticket) => {},
        }
        let ghost admitted_state = self.admission;
        let ghost base = *self;
        let ghost all_envs = envs@;
        let mut ids: Vec<EventId> = Vec::new();
        proof {
            reveal_with_fuel(Seq::<AdmittedEvent>::filter, 1);
            assert(envs@ =~= all_envs.subrange(0, all_envs.len() as int));
            assert forall|k: Seq<char>| #[trigger] self.accumulator.hist_of(k)
                == base.accumulator.hist_of(k) + stamped(ids@, all_envs.take(0)).filter(
                keyed_as(k),
            ) by {
                assert(base.accumulator.hist_of(k) + stamped(ids@, all_envs.take(0)).filter(
                    keyed_as(k),
                ) =~= base.accumulator.hist_of(k));
            }
            assert forall|k: Seq<char>| #[trigger] self.accumulator.sealed_of(k)
                == base.accumulator.sealed_of(k) + events_for_key(
                self.ready@.subrange(old(self).ready@.len() as int, self.ready@.len() as int),
                k,
            ) by {
                assert(self.ready@.subrange(
                    old(self).ready@.len() as int,
                    self.ready@.len() as int,
                ) =~= Seq::<Batch>::empty());
                assert(base.accumulator.sealed_of(k) + events_for_key(Seq::<Batch>::empty(), k)
                    =~= base.accumulator.sealed_of(k));
            }
        }
        while envs.len() > 0
            invariant
                self.wf(),
                self.config == old(self).config,
                self.admission == admitted_state,
                self.dispatcher == old(self).dispatcher,
                self.dead_letter == old(self).dead_letter,
                json_array_of(payload@) == Option::Some(items),
                decode_all_spec(items@, now, self.config) == Ok::<Seq<Event>, DecodeError>(
                    all_envs,
                ),
                all_envs.len() >= 1,
                slots == all_envs.len(),
                slots <= old(self).config.max_concurrency,
                old(self).issued <= u64::MAX - old(self).config.max_concurrency,
                old(self).admission.admit_outcome(slots, now) is Ok,
                admitted_state == old(self).admission.admit_next(slots, now),
                ids@.len() + envs@.len() == all_envs.len(),
                envs@ == all_envs.subrange(ids@.len() as int, all_envs.len() as int),
                base.accumulator == old(self).accumulator,
                base.ready@ == old(self).ready@,
                self.issued == old(self).issued + ids@.len(),
                forall|x: int|
                    0 <= x < ids@.len() ==> (#[trigger] ids@[x]).serial == old(self).issued + x
                        && ids@[x].token@.len() == 36,
                self.ready@.len() >= old(self).ready@.len(),
                self.ready@.subrange(0, old(self).ready@.len() as int) == old(self).ready@,
                forall|i2: int|
                    old(self).ready@.len() <= i2 < self.ready@.len() ==> {
                        let b = #[trigger] self.ready@[i2];
                        &&& b.status is Sealed
                        &&& b.events@.len() == old(self).config.max_batch_size
                    },
                forall|k: Seq<char>|
                    #[trigger] self.accumulator.sealed_of(k) == base.accumulator.sealed_of(k)
                        + events_for_key(
                        self.ready@.subrange(
                            old(self).ready@.len() as int,
                            self.ready@.len() as int,
                        ),
                        k,
                    ),
                forall|k: Seq<char>|
                    #[trigger] self.accumulator.hist_of(k) == base.accumulator.hist_of(k)
                        + stamped(ids@, all_envs.take(ids@.len() as int)).filter(keyed_as(k)),
            decreases envs@.len(),
        {
            let ghost j = ids@.len() as int;
            let ghost pre_ids = ids@;
            let ghost pre_ready = self.ready@;
            let ghost pre_issued = self.issued;
            let env = envs.remove(0);
            let ghost before = self.accumulator;
            let id = make_event_id(self.issued);
            let ev = AdmittedEvent {
                id: EventId { serial: id.serial, token: id.token.clone() },
                event: env,
            };
            let ghost k0 = ev.event.event_type@;
            let sealed = self.accumulator.add(ev, now);
            let ghost sealedg = sealed;
            match sealed {
                Some(b) => {
                    self.ready.push(b);
                },
                None => {},
            }
            self.issued = self.issued + 1;
            ids.push(id);
            proof {
                reveal_with_fuel(Seq::<AdmittedEvent>::filter, 1);
                assert(env == all_envs[j]);
                assert(envs@ =~= all_envs.subrange(j + 1, all_envs.len() as int));
                let t = stamped(ids@.drop_last(), all_envs.take(j));
                let t2 = stamped(ids@, all_envs.take(j + 1));
                assert(ids@.drop_last() =~= pre_ids);
                assert(all_envs.take(j + 1).drop_last() =~= all_envs.take(j));
                assert(all_envs.take(j + 1).last() == env);
                assert(ids@.last() == id);
                assert(t2 == t.push(ev));
                assert(t2.drop_last() =~= t);
                assert forall|k: Seq<char>| #[trigger] self.accumulator.hist_of(k)
                    == base.accumulator.hist_of(k) + t2.filter(keyed_as(k)) by {
                    let p = keyed_as(k);
                    assert(t2.filter(p) == if p(ev) {
                        t.filter(p).push(ev)
                    } else {
                        t.filter(p)
                    });
                    if k == k0 {
                        assert(self.accumulator.hist_of(k) == before.hist_of(k).push(ev));
                        assert(base.accumulator.hist_of(k) + t.filter(p).push(ev)
                            =~= (base.accumulator.hist_of(k) + t.filter(p)).push(ev));
                    } else {
                        assert(self.accumulator.hist_of(k) == before.hist_of(k));
                    }
                }
                let lo = old(self).ready@.len() as int;
                let added = pre_ready.subrange(lo, pre_ready.len() as int);
                match sealedg {
                    Some(b) => {
                        assert(self.ready@.subrange(lo, self.ready@.len() as int)
                            =~= added.push(b));
                        assert(self.ready@.subrange(0, lo) =~= pre_ready.subrange(0, lo));
                        assert forall|k: Seq<char>| #[trigger] self.accumulator.sealed_of(k)
                            == base.accumulator.sealed_of(k) + events_for_key(
                            added.push(b),
                            k,
                        ) by {
                            assert(added.push(b).drop_last() =~= added);
                            if k == b.key@ {
                                assert(self.accumulator.sealed_of(k) == before.sealed_of(k)
                                    + b.events@);
                                assert((base.accumulator.sealed_of(k) + events_for_key(added, k))
                                    + b.events@ =~= base.accumulator.sealed_of(k) + (
                                events_for_key(added, k) + b.events@));
                            } else {
                                assert(self.accumulator.hist_of(k) == before.hist_of(k).push(ev)
                                    || self.accumulator.hist_of(k) == before.hist_of(k));
                                assert(self.accumulator.sealed_of(k) == before.sealed_of(k));
                            }
                        }
                    },
                    None => {
                        assert(self.ready@ == pre_ready);
                        assert forall|k: Seq<char>| #[trigger] self.accumulator.sealed_of(k)
                            == base.accumulator.sealed_of(k) + events_for_key(added, k) by {
                            if k == k0 {
                            } else {
                                assert(self.accumulator.hist_of(k) == before.hist_of(k));
                            }
                            assert(self.accumulator.sealed_of(k) == before.sealed_of(k));
                        }
                    },
                }
                assert forall|k2: Seq<char>, i2: int|
                    0 <= i2 < self.accumulator.hist_of(k2).len() implies (
                #[trigger] self.accumulator.hist_of(k2)[i2]).id.serial < self.issued by {
                    if k2 == k0 && i2 == self.accumulator.hist_of(k2).len() - 1 {
                    } else {
                        assert(self.accumulator.hist_of(k2)[i2] == before.hist_of(k2)[i2]);
                        assert(before.hist_of(k2)[i2].id.serial < pre_issued);
                    }
                }
            }
        }
        proof {
            assert(all_envs.take(ids@.len() as int) =~= all_envs);
        }
        BatchIngestOutcome::Accepted(ids)
    }

    /// Seal every open batch whose age bound has passed, moving it — with
    /// exactly its buffered events — to the ready queue.  Afterwards no open
    /// batch is as old as `max_batch_age`: the latency ceiling under low
    /// traffic.
    pub fn tick(&mut self, now: u64)
        requires
            old(self).wf(),
        ensures
            final(self).wf(),
            final(self).config == old(self).config,
            final(self).admission == old(self).admission,
            final(self).dead_letter == old(self).dead_letter,
            final(self).issued == old(self).issued,
            forall|k: Seq<char>|
                #[trigger] final(self).accumulator.hist_of(k) == old(self).accumulator.hist_of(k),
            forall|i: int|
                0 <= i < final(self).accumulator.open_batches@.len() ==> !(
                #[trigger] final(self).accumulator.open_batches@[i]).due(
                    now,
                    final(self).config.max_batch_age,
                ),
            final(self).ready@.len() >= old(self).ready@.len(),
            final(self).ready@.subrange(0, old(self).ready@.len() as int) == old(self).ready@,
            forall|i: int|
                old(self).ready@.len() <= i < final(self).ready@.len() ==> {
                    let b = #[trigger] final(self).ready@[i];
                    &&& b.status is Sealed
                    &&& b.due(now, old(self).config.max_batch_age)
                    &&& old(self).accumulator.has_open(b.key@)
                    &&& b.events@ == old(self).accumulator.open_events(b.key@)
                    &&& 1 <= b.events@.len()
                },
            forall|k: Seq<char>|
                #[trigger] final(self).accumulator.sealed_of(k) == old(self).accumulator.sealed_of(k) + events_for_key(
                    final(self).ready@.subrange(
                        old(self).ready@.len() as int,
                        final(self).ready@.len() as int,
                    ),
                    k,
                ),
            forall|k: Seq<char>|
                #[trigger] final(self).accumulator.has_open(k) ==> old(self).accumulator.has_open(k) && final(self).accumulator.open_events(k) == old(self).accumulator.open_events(k),
    {
        let ghost lo = self.ready@.len() as int;
        proof {
            assert(self.ready@.subrange(lo, self.ready@.len() as int) =~= Seq::<Batch>::empty());
            assert forall|k: Seq<char>| #[trigger] self.accumulator.sealed_of(k)
                == old(self).accumulator.sealed_of(k) + events_for_key(
                self.ready@.subrange(lo, self.ready@.len() as int),
                k,
            ) by {
                assert(self.accumulator.sealed_of(k) + events_for_key(Seq::<Batch>::empty(), k)
                    =~= self.accumulator.sealed_of(k));
            }
        }
        let mut go = true;
        while go
            invariant
                self.wf(),
                self.config == old(self).config,
                self.admission == old(self).admission,
                self.dead_letter == old(self).dead_letter,
                self.dispatcher == old(self).dispatcher,
                self.issued == old(self).issued,
                lo == old(self).ready@.len(),
                forall|k: Seq<char>|
                    #[trigger] self.accumulator.hist_of(k) == old(self).accumulator.hist_of(k),
                self.ready@.len() >= old(self).ready@.len(),
                self.ready@.subrange(0, lo) == old(self).ready@,
                forall|i: int|
                    lo <= i < self.ready@.len() ==> {
                        let b = #[trigger] self.ready@[i];
                        &&& b.status is Sealed
                        &&& b.due(now, old(self).config.max_batch_age)
                        &&& old(self).accumulator.has_open(b.key@)
                        &&& b.events@ == old(self).accumulator.open_events(b.key@)
                        &&& 1 <= b.events@.len()
                    },
                forall|k: Seq<char>|
                    #[trigger] self.accumulator.sealed_of(k) == old(self).accumulator.sealed_of(k) + events_for_key(
                        self.ready@.subrange(lo, self.ready@.len() as int),
                        k,
                    ),
                forall|k: Seq<char>|
                    #[trigger] self.accumulator.has_open(k) ==> old(self).accumulator.has_open(k) && self.accumulator.open_events(k) == old(self).accumulator.open_events(k),
                !go ==> forall|i: int|
                    0 <= i < self.accumulator.open_batches@.len() ==> !(
                    #[trigger] self.accumulator.open_batches@[i]).due(
                        now,
                        self.config.max_batch_age,
                    ),
            decreases self.accumulator.open_batches@.len() + (if go {
                1int
            } else {
                0int
            }),
        {
            let ghost pre_ready = self.ready@;
            let ghost pre_acc = self.accumulator;
            match self.accumulator.seal_due(now) {
                Some(b) => {
                    let ghost k0 = b.key@;
                    self.ready.push(b);
                    proof {
                        assert(self.ready@.subrange(0, lo) =~= pre_ready.subrange(0, lo));
                        let added = pre_ready.subrange(lo, pre_ready.len() as int);
                        assert(self.ready@.subrange(lo, self.ready@.len() as int)
                            =~= added.push(b));
                        assert(added.push(b).drop_last() =~= added);
                        assert forall|k: Seq<char>| #[trigger] self.accumulator.sealed_of(k)
                            == old(self).accumulator.sealed_of(k) + events_for_key(
                            added.push(b),
                            k,
                        ) by {
                            if k == k0 {
                                assert(self.accumulator.sealed_of(k) == pre_acc.sealed_of(k)
                                    + b.events@);
                                assert((old(self).accumulator.sealed_of(k) + events_for_key(
                                    added,
                                    k,
                                )) + b.events@ =~= old(self).accumulator.sealed_of(k) + (
                                events_for_key(added, k) + b.events@));
                            } else {
                                assert(self.accumulator.sealed_of(k) == pre_acc.sealed_of(k));
                            }
                        }
                        assert forall|k: Seq<char>| #[trigger] self.accumulator.has_open(k)
                            implies old(self).accumulator.has_open(k)
                            && self.accumulator.open_events(k) == old(self).accumulator.open_events(k) by {
                            assert(k != k0);
                            assert(self.accumulator.sealed_of(k) == pre_acc.sealed_of(k));
                            assert(pre_acc.has_open(k));
                        }
                    }
                },
                None => {
                    go = false;
                },
            }
        }
    }

    /// Drain the ready queue, dispatching each batch — in queue order, with
    /// its contents intact — downstream.  Whatever the collaborators answer:
    /// every batch ends terminal, all its admission tickets are released (so
    /// `inflight` drops by the total queued event count), the breaker's
    /// configuration is untouched, and the dead-letter additions are exactly
    /// the failed batches, in order, events preserved.
    pub fn dispatch_ready<L: DurableLog, S: AnalyticalStore, P: RetryPacer>(
        &mut self,
        log: &mut L,
        store: &mut S,
        pacer: &mut P,
        now: u64,
    )
        requires
            old(self).wf(),
        ensures
            final(self).wf(),
            final(self).config == old(self).config,
            final(self).ready@.len() == 0,
            final(self).accumulator == old(self).accumulator,
            final(self).issued == old(self).issued,
            final(self).admission.max_concurrency == old(self).admission.max_concurrency,
            final(self).admission.threshold == old(self).admission.threshold,
            final(self).admission.cooldown == old(self).admission.cooldown,
            final(self).admission.inflight == if old(self).admission.inflight >= total_events(
                old(self).ready@,
            ) {
                (old(self).admission.inflight - total_events(old(self).ready@)) as u64
            } else {
                0u64
            },
            final(self).dead_letter@.len() >= old(self).dead_letter@.len(),
            final(self).dead_letter@.subrange(0, old(self).dead_letter@.len() as int) == old(self).dead_letter@,
            exists|srcs: Seq<int>|
                failed_selection_of(
                    old(self).ready@,
                    final(self).dead_letter@.subrange(
                        old(self).dead_letter@.len() as int,
                        final(self).dead_letter@.len() as int,
                    ),
                    srcs,
                ),
    {
        let ghost all = self.ready@;
        let ghost dlo = self.dead_letter@.len() as int;
        let ghost mut j: int = 0;
        let ghost mut srcs: Seq<int> = Seq::empty();
        proof {
            assert(self.ready@ =~= all.subrange(0, all.len() as int));
            assert(self.dead_letter@.subrange(dlo, self.dead_letter@.len() as int)
                =~= Seq::<Batch>::empty());
            assert(all.take(0) =~= Seq::<Batch>::empty());
        }
        while self.ready.len() > 0
            invariant
                self.wf(),
                self.config == old(self).config,
                self.accumulator == old(self).accumulator,
                self.dispatcher == old(self).dispatcher,
                self.issued == old(self).issued,
                all == old(self).ready@,
                dlo == old(self).dead_letter@.len(),
                0 <= j <= all.len(),
                self.ready@ == all.subrange(j, all.len() as int),
                self.admission.max_concurrency == old(self).admission.max_concurrency,
                self.admission.threshold == old(self).admission.threshold,
                self.admission.cooldown == old(self).admission.cooldown,
                self.admission.inflight == if old(self).admission.inflight >= total_events(
                    all.take(j),
                ) {
                    (old(self).admission.inflight - total_events(all.take(j))) as u64
                } else {
                    0u64
                },
                self.dead_letter@.len() >= dlo,
                self.dead_letter@.subrange(0, dlo) == old(self).dead_letter@,
                failed_selection_of(
                    all.take(j),
                    self.dead_letter@.subrange(dlo, self.dead_letter@.len() as int),
                    srcs,
                ),
            decreases self.ready@.len(),
        {
            let ghost pre_dead = self.dead_letter@;
            let ghost pre_inflight = self.admission.inflight;
            proof {
                assert(self.ready@[0] == all[j]);
            }
            let mut b = self.ready.remove(0);
            proof {
                assert(self.ready@ =~= all.subrange(j + 1, all.len() as int));
            }
            let r = self.dispatcher.dispatch(
                &mut b,
                log,
                store,
                pacer,
                &mut self.admission,
                now,
            );
            proof {
                assert(all.take(j + 1).drop_last() =~= all.take(j));
                assert(all.take(j + 1).last() == all[j]);
            }
            match r {
                DispatchResult::Failed => {
                    self.dead_letter.push(b);
                    proof {
                        srcs = srcs.push(j);
                        assert(self.dead_letter@.subrange(0, dlo) =~= pre_dead.subrange(0, dlo));
                        let before = pre_dead.subrange(dlo, pre_dead.len() as int);
                        let added = self.dead_letter@.subrange(
                            dlo,
                            self.dead_letter@.len() as int,
                        );
                        assert(added =~= before.push(self.dead_letter@.last()));
                        assert forall|x: int| 0 <= x < added.len() implies {
                            let d = #[trigger] added[x];
                            let q = all.take(j + 1)[srcs[x]];
                            &&& d.status is Failed
                            &&& d.seq_no == q.seq_no
                            &&& d.key@ == q.key@
                            &&& d.created_at == q.created_at
                            &&& d.events@ == q.events@
                        } by {
                            if x < added.len() - 1 {
                                assert(added[x] == before[x]);
                                assert(all.take(j)[srcs[x]] == all.take(j + 1)[srcs[x]]);
                            } else {
                                assert(srcs[x] == j);
                                assert(all.take(j + 1)[j] == all[j]);
                            }
                        }
                    }
                },
                DispatchResult::Acknowledged => {
                    proof {
                        let added = self.dead_letter@.subrange(
                            dlo,
                            self.dead_letter@.len() as int,
                        );
                        assert forall|x: int| 0 <= x < added.len() implies {
                            let d = #[trigger] added[x];
                            let q = all.take(j + 1)[srcs[x]];
                            &&& d.status is Failed
                            &&& d.seq_no == q.seq_no
                            &&& d.key@ == q.key@
                            &&& d.created_at == q.created_at
                            &&& d.events@ == q.events@
                        } by {
                            assert(all.take(j)[srcs[x]] == all.take(j + 1)[srcs[x]]);
                        }
                    }
                },
            }
            proof {
                j = j + 1;
            }
        }
        proof {
            assert(all.subrange(j, all.len() as int).len() == 0);
            assert(j == all.len());
            assert(all.take(j) =~= all);
            assert(failed_selection_of(
                old(self).ready@,
                self.dead_letter@.subrange(dlo, self.dead_letter@.len() as int),
                srcs,
            ));
        }
    }

    /// A snapshot for the health endpoint: how much capacity is in use and
    /// where the circuit breaker stands.
    pub fn health(&self) -> (h: HealthReport)
        ensures
            h.inflight == self.admission.inflight,
            h.circuit == self.admission.state,
    {
        HealthReport { inflight: self.admission.inflight, circuit: self.admission.state }
    }
}

/// Identifier law: every event the pipeline has accepted carries a serial
/// strictly below the service's `issued` counter, and each acceptance stamps
/// exactly the counter's current value before advancing it — so no two
/// accepted events within one process ever share an identifier serial.
pub proof fn lemma_ids_fresh(s: IngestionService, k: Seq<char>, i: int)
    requires
        s.wf(),
        0 <= i < s.accumulator.hist_of(k).len(),
    ensures
        s.accumulator.hist_of(k)[i].id.serial < s.issued,
{
}

impl IngestOutcome {
    /// The HTTP status this outcome maps to: 202 accepted, 400 client
    /// fault, 429 overloaded, 503 downstream unavailable.
    pub fn status_code(&self) -> (code: u16)
        ensures
            code == match self {
                IngestOutcome::Accepted(_) => 202u16,
                IngestOutcome::Invalid(_) => 400u16,
                IngestOutcome::Busy(Rejected::Overloaded) => 429u16,
                IngestOutcome::Busy(Rejected::DownstreamUnavailable) => 503u16,
            },
    {
        match self {
            IngestOutcome::Accepted(_) => 202,
            IngestOutcome::Invalid(_) => 400,
            IngestOutcome::Busy(Rejected::Overloaded) => 429,
            IngestOutcome::Busy(Rejected::DownstreamUnavailable) => 503,
        }
    }
}

impl BatchIngestOutcome {
    /// The HTTP status this outcome maps to, as for single ingestion.
    pub fn status_code(&self) -> (code: u16)
        ensures
            code == match self {
                BatchIngestOutcome::Accepted(_) => 202u16,
                BatchIngestOutcome::Invalid(_) => 400u16,
                BatchIngestOutcome::Busy(Rejected::Overloaded) => 429u16,
                BatchIngestOutcome::Busy(Rejected::DownstreamUnavailable) => 503u16,
            },
    {
        match self {
            BatchIngestOutcome::Accepted(_) => 202,
            BatchIngestOutcome::Invalid(_) => 400,
            BatchIngestOutcome::Busy(Rejected::Overloaded) => 429,
            BatchIngestOutcome::Busy(Rejected::DownstreamUnavailable) => 503,
        }
    }
}

} // verus!
