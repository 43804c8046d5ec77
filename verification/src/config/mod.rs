//! Configuration of the daemon: its types and default values.
pub mod duration_serde;

use vstd::prelude::*;
use vstd::string::*;
use std::collections::HashMap;

verus! {

/// An opaque JSON value carried through the configuration unchanged.
#[verifier::external_type_specification]
#[verifier::external_body]
pub struct ExJsonValue(serde_json::Value);

/// An IP address to bind a server to.
#[derive(Debug, Clone, Copy, PartialEq, Eq, Structural)]
pub enum HostAddress {
    /// IPv4 address, octets in order.
    V4(u8, u8, u8, u8),
    /// IPv6 address, segments in order.
    V6(u16, u16, u16, u16, u16, u16, u16, u16),
}

/// A span of time: whole seconds and nanoseconds below one second.
#[derive(Debug, Clone, Copy, PartialEq, Eq, Structural)]
pub struct Interval {
    /// Whole seconds.
    pub secs: u64,
    /// Nanoseconds, below one second.
    pub nanos: u32,
}

/// Main MAD configuration.
#[derive(Debug, Clone)]
pub struct MadConfig {
    /// Directory containing pipeline configuration files.
    pub pipelines_directory: String,
    /// HTTP server bind address.
    pub http_host: HostAddress,
    /// HTTP server port.
    pub http_port: u16,
    /// HTTPS configuration (optional).
    pub https_config: Option<HttpsConfig>,
    /// Monitoring configuration.
    pub monitoring: MonitoringConfig,
    /// Log directory.
    pub log_directory: String,
    /// JVM metrics collection interval.
    pub jvm_metrics_collection_interval: Interval,
    /// Legacy Pekko configuration, passed through unchanged.
    pub pekko_configuration: HashMap<String, serde_json::Value>,
}

/// HTTPS configuration.
#[derive(Debug, Clone)]
pub struct HttpsConfig {
    /// HTTPS server bind address.
    pub https_host: HostAddress,
    /// HTTPS server port.
    pub https_port: u16,
    /// Path to the TLS certificate file.
    pub https_certificate_path: String,
    /// Path to the TLS private key file.
    pub https_key_path: String,
}

/// Monitoring configuration.
#[derive(Debug, Clone)]
pub struct MonitoringConfig {
    /// Monitoring cluster name.
    pub cluster: String,
    /// Monitoring service name.
    pub service: String,
    /// Monitoring host (optional).
    pub host: Option<String>,
    /// Monitoring sinks configuration.
    pub sinks: Vec<serde_json::Value>,
}

/// Default HTTP bind address: `0.0.0.0`.
pub fn default_http_host() -> (h: HostAddress)
    ensures
        h == HostAddress::V4(0, 0, 0, 0),
{
    HostAddress::V4(0, 0, 0, 0)
}

/// Default HTTP port.
pub fn default_http_port() -> (port: u16)
    ensures
        port == 7090,
{
    7090
}

/// Default log directory: `logs`.
pub fn default_log_directory() -> (dir: String)
    ensures
        dir@ == "logs"@,
{
    String::from_str("logs")
}

/// Default JVM metrics collection interval: one second.
pub fn default_jvm_metrics_interval() -> (i: Interval)
    ensures
        i == (Interval { secs: 1, nanos: 0 }),
{
    Interval { secs: 1, nanos: 0 }
}

/// Default monitoring cluster name: `mad`.
pub fn default_monitoring_cluster() -> (name: String)
    ensures
        name@ == "mad"@,
{
    String::from_str("mad")
}

/// Default monitoring service name: `mad`.
pub fn default_monitoring_service() -> (name: String)
    ensures
        name@ == "mad"@,
{
    String::from_str("mad")
}

impl Default for MonitoringConfig {
    fn default() -> (c: Self)
        ensures
            c.cluster@ == "mad"@,
            c.service@ == "mad"@,
            c.host is None,
            c.sinks@.len() == 0,
    {
        MonitoringConfig {
            cluster: default_monitoring_cluster(),
            service: default_monitoring_service(),
            host: None,
            sinks: Vec::new(),
        }
    }
}

} // verus!
