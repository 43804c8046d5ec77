//! Core data model for metrics aggregation: the kinds of metrics and units,
//! the sparse histogram that aggregates samples, and the keys of metric
//! series.
pub mod histogram;
pub mod metric_key;

pub use histogram::{default_precision_mask, SparseHistogram};
pub use metric_key::MetricKey;

use vstd::prelude::*;

verus! {

/// Type of metric.
#[derive(Debug, Clone, Copy, PartialEq, Eq, Hash, Structural)]
pub enum MetricType {
    /// Monotonically increasing counter.
    Counter,
    /// Point-in-time value.
    Gauge,
    /// Duration measurement.
    Timer,
}

/// Unit information for a quantity.
#[derive(Debug, Clone, PartialEq, Eq, Hash)]
pub struct Unit {
    /// The type of unit (e.g., time, data, etc.).
    pub unit_type: UnitType,
    /// The specific unit (e.g., second, byte, etc.).
    pub name: String,
}

/// Category of unit.
#[derive(Debug, Clone, Copy, PartialEq, Eq, Hash, Structural)]
pub enum UnitType {
    /// Time-based units (seconds, milliseconds, etc.).
    Time,
    /// Data size units (bytes, kilobytes, etc.).
    Data,
    /// Count units (items, requests, etc.).
    Count,
    /// Other units.
    Other,
}

} // verus!
