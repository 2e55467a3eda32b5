use event_ingestion::admission::{AdmissionController, CircuitState, Rejected};
use event_ingestion::batch::{Accumulator, AdmittedEvent, Batch, BatchStatus, EventId};
use event_ingestion::codec::Event;
use event_ingestion::config::Config;
use event_ingestion::dispatch::{
    AnalyticalStore, DispatchError, DispatchResult, Dispatcher, DurableLog, RetryPacer,
};
use event_ingestion::service::{BatchIngestOutcome, IngestOutcome, IngestionService};

const T0: u64 = 1_700_000_000_000;

fn small_cfg() -> Config {
    let mut cfg = Config::defaults();
    cfg.max_batch_size = 2;
    cfg.max_concurrency = 100;
    cfg
}

fn ev(event_type: &str, n: i64) -> AdmittedEvent {
    AdmittedEvent {
        id: EventId { serial: n as u64, token: "t".repeat(36) },
        event: Event {
            event_type: event_type.to_string(),
            user_id: "u1".to_string(),
            timestamp: T0 as i64,
            properties: b"{}".to_vec(),
        },
    }
}

fn payload(event_type: &str, user_id: &str) -> Vec<u8> {
    format!(
        "{{\"event_type\":\"{}\",\"user_id\":\"{}\",\"timestamp\":{},\"properties\":{{}}}}",
        event_type, user_id, T0
    )
    .into_bytes()
}

struct LogDouble {
    appended: Vec<Vec<u64>>,
    fail_remaining: usize,
    calls: usize,
}

impl LogDouble {
    fn healthy() -> LogDouble {
        LogDouble { appended: Vec::new(), fail_remaining: 0, calls: 0 }
    }
}

impl DurableLog for LogDouble {
    fn append(&mut self, batch: &Batch) -> Result<(), DispatchError> {
        self.calls += 1;
        if self.fail_remaining > 0 {
            self.fail_remaining -= 1;
            return Err(DispatchError);
        }
        self.appended
            .push(batch.events.iter().map(|e| e.id.serial).collect());
        Ok(())
    }
}

struct StoreDouble {
    inserted: usize,
    fail_remaining: usize,
}

impl StoreDouble {
    fn healthy() -> StoreDouble {
        StoreDouble { inserted: 0, fail_remaining: 0 }
    }
}

impl AnalyticalStore for StoreDouble {
    fn insert(&mut self, _batch: &Batch) -> Result<(), DispatchError> {
        if self.fail_remaining > 0 {
            self.fail_remaining -= 1;
            return Err(DispatchError);
        }
        self.inserted += 1;
        Ok(())
    }
}

struct PacerDouble {
    waits: Vec<u64>,
}

impl RetryPacer for PacerDouble {
    fn wait(&mut self, delay: u64) {
        self.waits.push(delay);
    }
}

#[test]
fn accumulator_conserves_events_in_order() {
    let cfg = small_cfg();
    let mut acc = Accumulator::new(&cfg);
    let mut sealed: Vec<Batch> = Vec::new();
    for n in 0..5 {
        if let Some(b) = acc.add(ev("k", n), T0) {
            sealed.push(b);
        }
    }
    assert_eq!(sealed.len(), 2);
    let flat: Vec<u64> = sealed
        .iter()
        .flat_map(|b| b.events.iter().map(|e| e.id.serial))
        .collect();
    let expect: Vec<u64> = (0..4).collect();
    assert_eq!(flat, expect);
    for b in &sealed {
        assert_eq!(b.status, BatchStatus::Sealed);
        assert_eq!(b.events.len(), 2);
        assert!(b.events.iter().all(|e| e.event.event_type == "k"));
    }
}

#[test]
fn accumulator_keeps_keys_separate() {
    let cfg = small_cfg();
    let mut acc = Accumulator::new(&cfg);
    assert!(acc.add(ev("a", 0), T0).is_none());
    assert!(acc.add(ev("b", 1), T0).is_none());
    let a = acc.add(ev("a", 2), T0).expect("second a seals");
    let b = acc.add(ev("b", 3), T0).expect("second b seals");
    assert_eq!(a.key, "a");
    assert_eq!(b.key, "b");
    assert_eq!(a.events.len(), 2);
    assert_eq!(b.events.len(), 2);
}

#[test]
fn accumulator_never_exceeds_batch_size() {
    let cfg = small_cfg();
    let mut acc = Accumulator::new(&cfg);
    for n in 0..100 {
        if let Some(b) = acc.add(ev("k", n), T0) {
            assert_eq!(b.events.len(), 2);
        }
    }
}

#[test]
fn accumulator_seals_by_age() {
    let cfg = small_cfg();
    let mut acc = Accumulator::new(&cfg);
    assert!(acc.add(ev("k", 0), T0).is_none());
    assert!(acc.seal_due(T0 + 49).is_none());
    let b = acc.seal_due(T0 + 50).expect("age bound passed");
    assert_eq!(b.status, BatchStatus::Sealed);
    assert_eq!(b.events.len(), 1);
    assert_eq!(b.created_at, T0);
    assert!(acc.seal_due(T0 + 50).is_none());
}

#[test]
fn breaker_opens_after_threshold_and_half_opens() {
    let cfg = small_cfg();
    let mut a = AdmissionController::new(&cfg);
    assert!(a.try_admit(1, T0).is_ok());
    a.record_failure(T0);
    a.record_failure(T0);
    assert_eq!(a.state, CircuitState::Closed);
    a.record_failure(T0);
    assert_eq!(a.state, CircuitState::Open);
    // refused while the cooldown runs
    assert_eq!(a.try_admit(1, T0 + 999), Err(Rejected::DownstreamUnavailable));
    // exactly one probe once it has elapsed
    assert!(a.try_admit(1, T0 + 1000).is_ok());
    assert_eq!(a.state, CircuitState::HalfOpen);
    assert_eq!(a.try_admit(1, T0 + 1000), Err(Rejected::DownstreamUnavailable));
    // the probe's success closes the circuit
    a.record_success();
    assert_eq!(a.state, CircuitState::Closed);
    assert!(a.try_admit(1, T0 + 1001).is_ok());
}

#[test]
fn breaker_failed_probe_reopens() {
    let cfg = small_cfg();
    let mut a = AdmissionController::new(&cfg);
    for _ in 0..3 {
        a.record_failure(T0);
    }
    assert!(a.try_admit(1, T0 + 1000).is_ok());
    a.record_failure(T0 + 1001);
    assert_eq!(a.state, CircuitState::Open);
    assert_eq!(
        a.try_admit(1, T0 + 2000),
        Err(Rejected::DownstreamUnavailable)
    );
    assert!(a.try_admit(1, T0 + 2001).is_ok());
}

#[test]
fn admission_bounds_inflight() {
    let mut cfg = small_cfg();
    cfg.max_concurrency = 2;
    let mut a = AdmissionController::new(&cfg);
    assert!(a.try_admit(1, T0).is_ok());
    assert!(a.try_admit(1, T0).is_ok());
    assert_eq!(a.try_admit(1, T0), Err(Rejected::Overloaded));
    a.release(1);
    assert!(a.try_admit(1, T0).is_ok());
}

#[test]
fn dispatcher_success_releases_and_closes() {
    let cfg = small_cfg();
    let mut a = AdmissionController::new(&cfg);
    assert!(a.try_admit(2, T0).is_ok());
    let mut acc = Accumulator::new(&cfg);
    acc.add(ev("k", 0), T0);
    let mut batch = acc.add(ev("k", 1), T0).expect("sealed by size");
    let d = Dispatcher { max_attempts: 3, base_backoff: 10 };
    let mut log = LogDouble::healthy();
    let mut store = StoreDouble::healthy();
    let mut pacer = PacerDouble { waits: Vec::new() };
    let r = d.dispatch(&mut batch, &mut log, &mut store, &mut pacer, &mut a, T0);
    assert_eq!(r, DispatchResult::Acknowledged);
    assert_eq!(batch.status, BatchStatus::Acknowledged);
    assert_eq!(log.appended.len(), 1);
    assert_eq!(store.inserted, 1);
    assert_eq!(a.inflight, 0);
    assert_eq!(a.state, CircuitState::Closed);
    assert!(pacer.waits.is_empty());
}

#[test]
fn dispatcher_exhaustion_fails_batch_and_opens_breaker() {
    let cfg = small_cfg();
    let mut a = AdmissionController::new(&cfg);
    assert!(a.try_admit(2, T0).is_ok());
    let mut acc = Accumulator::new(&cfg);
    acc.add(ev("k", 0), T0);
    let mut batch = acc.add(ev("k", 1), T0).expect("sealed by size");
    let d = Dispatcher { max_attempts: 3, base_backoff: 10 };
    let mut log = LogDouble { appended: Vec::new(), fail_remaining: 3, calls: 0 };
    let mut store = StoreDouble::healthy();
    let mut pacer = PacerDouble { waits: Vec::new() };
    let r = d.dispatch(&mut batch, &mut log, &mut store, &mut pacer, &mut a, T0);
    assert_eq!(r, DispatchResult::Failed);
    assert_eq!(batch.status, BatchStatus::Failed);
    assert_eq!(log.calls, 3);
    // the analytical store is never written before the log acknowledged
    assert_eq!(store.inserted, 0);
    assert_eq!(a.state, CircuitState::Open);
    assert_eq!(a.inflight, 0);
    // exponential backoff between attempts
    assert_eq!(pacer.waits, vec![10, 20]);
}

#[test]
fn dispatcher_retries_transient_failure() {
    let cfg = small_cfg();
    let mut a = AdmissionController::new(&cfg);
    assert!(a.try_admit(2, T0).is_ok());
    let mut acc = Accumulator::new(&cfg);
    acc.add(ev("k", 0), T0);
    let mut batch = acc.add(ev("k", 1), T0).expect("sealed by size");
    let d = Dispatcher { max_attempts: 3, base_backoff: 10 };
    let mut log = LogDouble { appended: Vec::new(), fail_remaining: 1, calls: 0 };
    let mut store = StoreDouble::healthy();
    let mut pacer = PacerDouble { waits: Vec::new() };
    let r = d.dispatch(&mut batch, &mut log, &mut store, &mut pacer, &mut a, T0);
    assert_eq!(r, DispatchResult::Acknowledged);
    assert_eq!(log.calls, 2);
    assert_eq!(a.failures, 0);
    assert_eq!(a.state, CircuitState::Closed);
}

#[test]
fn backoff_doubles_and_saturates() {
    let d = Dispatcher { max_attempts: 3, base_backoff: 10 };
    assert_eq!(d.backoff_delay(0), 10);
    assert_eq!(d.backoff_delay(1), 20);
    assert_eq!(d.backoff_delay(3), 80);
    let z = Dispatcher { max_attempts: 3, base_backoff: 0 };
    assert_eq!(z.backoff_delay(5), 0);
    let big = Dispatcher { max_attempts: 3, base_backoff: u64::MAX };
    assert_eq!(big.backoff_delay(1), u64::MAX);
}

#[test]
fn single_post_reaches_durable_log_within_age_bound() {
    let cfg = Config::defaults();
    let mut svc = IngestionService::new(cfg);
    let out = svc.ingest(&payload("click", "u1"), T0);
    assert_eq!(out.status_code(), 202);
    let id = match out {
        IngestOutcome::Accepted(id) => id,
        other => panic!("expected acceptance, got {:?}", other),
    };
    assert_eq!(id.serial, 0);
    assert_eq!(id.token.len(), 36);
    let rendered = format!("evt_{}-{}", id.serial, id.token);
    assert!(rendered.starts_with("evt_") && !rendered.is_empty());
    let mut log = LogDouble::healthy();
    let mut store = StoreDouble::healthy();
    let mut pacer = PacerDouble { waits: Vec::new() };
    svc.tick(T0 + 50);
    svc.dispatch_ready(&mut log, &mut store, &mut pacer, T0 + 50);
    assert_eq!(log.appended, vec![vec![id.serial]]);
    assert_eq!(store.inserted, 1);
    assert_eq!(svc.health().inflight, 0);
}

#[test]
fn five_hundred_one_events_make_exactly_two_batches() {
    let cfg = Config::defaults();
    assert_eq!(cfg.max_batch_size, 500);
    let mut svc = IngestionService::new(cfg);
    let mut ids: Vec<u64> = Vec::new();
    for _ in 0..501 {
        match svc.ingest(&payload("click", "u1"), T0) {
            IngestOutcome::Accepted(id) => ids.push(id.serial),
            other => panic!("expected acceptance, got {:?}", other),
        }
    }
    let mut log = LogDouble::healthy();
    let mut store = StoreDouble::healthy();
    let mut pacer = PacerDouble { waits: Vec::new() };
    // the first batch sealed by size is ready at once
    svc.dispatch_ready(&mut log, &mut store, &mut pacer, T0);
    assert_eq!(log.appended.len(), 1);
    assert_eq!(log.appended[0].len(), 500);
    // the second seals by age
    svc.tick(T0 + 50);
    svc.dispatch_ready(&mut log, &mut store, &mut pacer, T0 + 50);
    assert_eq!(log.appended.len(), 2);
    assert_eq!(log.appended[1].len(), 1);
    let flat: Vec<u64> = log.appended.concat();
    assert_eq!(flat, ids);
    let mut sorted = ids.clone();
    sorted.sort();
    sorted.dedup();
    assert_eq!(sorted.len(), 501);
}

#[test]
fn downstream_failures_trip_breaker_until_cooldown() {
    let mut cfg = small_cfg();
    cfg.breaker_threshold = 3;
    cfg.breaker_cooldown = 1_000;
    let mut svc = IngestionService::new(cfg);
    assert!(matches!(
        svc.ingest(&payload("click", "u1"), T0),
        IngestOutcome::Accepted(_)
    ));
    let mut log = LogDouble { appended: Vec::new(), fail_remaining: 3, calls: 0 };
    let mut store = StoreDouble::healthy();
    let mut pacer = PacerDouble { waits: Vec::new() };
    svc.tick(T0 + 50);
    svc.dispatch_ready(&mut log, &mut store, &mut pacer, T0 + 50);
    assert_eq!(svc.health().circuit, CircuitState::Open);
    assert_eq!(svc.dead_letter.len(), 1);
    // refused with 503 until the cooldown elapses
    let busy = svc.ingest(&payload("click", "u1"), T0 + 100);
    assert_eq!(busy, IngestOutcome::Busy(Rejected::DownstreamUnavailable));
    assert_eq!(busy.status_code(), 503);
    // after the cooldown exactly one probe goes through
    let probe = svc.ingest(&payload("click", "u1"), T0 + 50 + 1_000);
    assert!(matches!(probe, IngestOutcome::Accepted(_)));
    assert_eq!(svc.health().circuit, CircuitState::HalfOpen);
    let second = svc.ingest(&payload("click", "u1"), T0 + 50 + 1_000);
    assert_eq!(second, IngestOutcome::Busy(Rejected::DownstreamUnavailable));
    // the probe's successful dispatch closes the circuit again
    svc.tick(T0 + 50 + 1_050);
    svc.dispatch_ready(&mut log, &mut store, &mut pacer, T0 + 50 + 1_050);
    assert_eq!(svc.health().circuit, CircuitState::Closed);
    assert!(matches!(
        svc.ingest(&payload("click", "u1"), T0 + 50 + 1_060),
        IngestOutcome::Accepted(_)
    ));
}

#[test]
fn overload_returns_429_until_capacity_frees() {
    let mut cfg = small_cfg();
    cfg.max_concurrency = 2;
    let mut svc = IngestionService::new(cfg);
    assert!(matches!(
        svc.ingest(&payload("a", "u1"), T0),
        IngestOutcome::Accepted(_)
    ));
    assert!(matches!(
        svc.ingest(&payload("a", "u1"), T0),
        IngestOutcome::Accepted(_)
    ));
    let busy = svc.ingest(&payload("a", "u1"), T0);
    assert_eq!(busy, IngestOutcome::Busy(Rejected::Overloaded));
    assert_eq!(busy.status_code(), 429);
    // a dispatched batch releases its tickets
    let mut log = LogDouble::healthy();
    let mut store = StoreDouble::healthy();
    let mut pacer = PacerDouble { waits: Vec::new() };
    svc.dispatch_ready(&mut log, &mut store, &mut pacer, T0);
    assert_eq!(svc.health().inflight, 0);
    assert!(matches!(
        svc.ingest(&payload("a", "u1"), T0),
        IngestOutcome::Accepted(_)
    ));
}

#[test]
fn batch_endpoint_accepts_and_refuses() {
    let cfg = small_cfg();
    let mut svc = IngestionService::new(cfg);
    let one = String::from_utf8(payload("click", "u1")).unwrap();
    let two = format!("[{},{}]", one, one).into_bytes();
    match svc.ingest_batch(&two, T0) {
        BatchIngestOutcome::Accepted(ids) => {
            assert_eq!(ids.len(), 2);
            assert_eq!(ids[0].serial, 0);
            assert_eq!(ids[1].serial, 1);
            for id in &ids {
                assert_eq!(id.token.len(), 36);
            }
        },
        other => panic!("expected acceptance, got {:?}", other),
    }
    assert_eq!(svc.health().inflight, 2);
    // any malformed element refuses the whole request, admitting nothing
    let bad = format!("[{},{{\"user_id\":\"u1\"}}]", one).into_bytes();
    let r = svc.ingest_batch(&bad, T0);
    assert!(matches!(r, BatchIngestOutcome::Invalid(_)));
    assert_eq!(r.status_code(), 400);
    assert_eq!(svc.health().inflight, 2);
    // a non-array payload is malformed
    let r = svc.ingest_batch(b"{}", T0);
    assert!(matches!(r, BatchIngestOutcome::Invalid(_)));
    // an empty array is accepted with no identifiers
    match svc.ingest_batch(b"[]", T0) {
        BatchIngestOutcome::Accepted(ids) => assert!(ids.is_empty()),
        other => panic!("expected acceptance, got {:?}", other),
    }
}

#[test]
fn batch_endpoint_respects_capacity() {
    let mut cfg = small_cfg();
    cfg.max_concurrency = 1;
    let mut svc = IngestionService::new(cfg);
    let one = String::from_utf8(payload("click", "u1")).unwrap();
    let two = format!("[{},{}]", one, one).into_bytes();
    let r = svc.ingest_batch(&two, T0);
    assert_eq!(r, BatchIngestOutcome::Busy(Rejected::Overloaded));
    assert_eq!(svc.health().inflight, 0);
}

#[test]
fn invalid_payload_is_a_client_fault() {
    let cfg = Config::defaults();
    let mut svc = IngestionService::new(cfg);
    let r = svc.ingest(b"nonsense", T0);
    assert!(matches!(r, IngestOutcome::Invalid(_)));
    assert_eq!(r.status_code(), 400);
    assert_eq!(svc.health().inflight, 0);
}

#[test]
fn event_ids_are_never_reused() {
    let cfg = small_cfg();
    let mut svc = IngestionService::new(cfg);
    let mut serials: Vec<u64> = Vec::new();
    for _ in 0..5 {
        match svc.ingest(&payload("click", "u1"), T0) {
            IngestOutcome::Accepted(id) => serials.push(id.serial),
            other => panic!("expected acceptance, got {:?}", other),
        }
    }
    let one = String::from_utf8(payload("click", "u1")).unwrap();
    let arr = format!("[{},{}]", one, one).into_bytes();
    match svc.ingest_batch(&arr, T0) {
        BatchIngestOutcome::Accepted(ids) => {
            for id in ids {
                serials.push(id.serial);
            }
        },
        other => panic!("expected acceptance, got {:?}", other),
    }
    match svc.ingest(&payload("other", "u2"), T0) {
        IngestOutcome::Accepted(id) => serials.push(id.serial),
        other => panic!("expected acceptance, got {:?}", other),
    }
    assert_eq!(serials, (0..8).collect::<Vec<u64>>());
    let mut sorted = serials.clone();
    sorted.sort();
    sorted.dedup();
    assert_eq!(sorted.len(), serials.len());
}
