//! Core of a single-node MQTT router: per-topic commit logs in three replication
//! slots, a topics index, per-connection subscription trackers and a router that
//! serves data requests under per-connection backpressure.

pub mod commitlog;
pub mod connection;
pub mod datalog;
pub mod filter;
pub mod request;
pub mod router;
pub mod segment;
pub mod subscriptions;
pub mod topics;
