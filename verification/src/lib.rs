//! Metrics Aggregator Daemon: the verified core of the daemon.
pub mod model;
pub mod config;
pub mod daemon;
