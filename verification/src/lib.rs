//! Event-ingestion front door: a validated, batched, backpressured write path.
//!
//! Incoming payloads are decoded and validated by the codec, admitted under a
//! concurrency bound guarded by a circuit breaker, buffered into per-key
//! batches, and handed to a dispatcher that drives them to the durable log and
//! the analytical store.

pub mod admission;
pub mod batch;
pub mod codec;
pub mod config;
pub mod dispatch;
pub mod service;
