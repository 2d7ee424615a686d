//! An event-ingestion gateway: per-identity admission control in front of a
//! store of sessions and timestamped events.
pub mod limiter;
pub mod bounds;
pub mod gateway;
