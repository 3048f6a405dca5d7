//! Monitoring boundary types: metric and alert classifications, and the
//! parsers that read them from query strings. Metric collection itself
//! happens outside the library.

use vstd::prelude::*;

verus! {

/// Kind of a collected metric.
#[derive(Clone, Debug, PartialEq, Eq)]
pub enum MetricType {
    Cpu,
    Memory,
    Disk,
    Network,
    Interface,
    Load,
    Temperature,
    Power,
    Custom,
}

/// Unit of a collected metric.
#[derive(Clone, Debug, PartialEq, Eq)]
pub enum MetricUnit {
    Percentage,
    Bytes,
    BytesPerSecond,
    BitsPerSecond,
    Count,
    Celsius,
    Fahrenheit,
    Volts,
    Amperes,
    Watts,
    Milliseconds,
    Seconds,
    Custom(String),
}

/// A key/value label on a metric.
#[derive(Clone, Debug, PartialEq, Eq)]
pub struct MetricLabel {
    pub key: String,
    pub value: String,
}

/// Overall health classification.
#[derive(Clone, Copy, Debug, PartialEq, Eq, Structural)]
pub enum HealthStatus {
    Healthy,
    Warning,
    Critical,
    Unknown,
}

/// Alert counts grouped by severity.
#[derive(Clone, Copy, Debug, PartialEq, Eq, Structural)]
pub struct AlertsBySeverity {
    pub critical: u32,
    pub warning: u32,
    pub info: u32,
}

/// Severity of an alert, ordered from informational to critical.
#[derive(Clone, Copy, Debug, PartialEq, Eq, PartialOrd, Ord)]
pub enum AlertSeverity {
    Info,
    Warning,
    Critical,
}

/// Lifecycle state of an alert.
#[derive(Clone, Copy, Debug, PartialEq, Eq, Structural)]
pub enum AlertStatus {
    Active,
    Acknowledged,
    Resolved,
    Suppressed,
}

/// Request to acknowledge an alert.
#[derive(Debug)]
pub struct AcknowledgeAlertRequest {
    pub comment: Option<String>,
}

/// Comparison operator of an alert rule.
#[derive(Clone, Copy, Debug, PartialEq, Eq, Structural)]
pub enum AlertOperator {
    GreaterThan,
    LessThan,
    GreaterThanOrEqual,
    LessThanOrEqual,
    Equal,
    NotEqual,
}

/// Kind of a node in the network topology.
#[derive(Clone, Copy, Debug, PartialEq, Eq, Structural)]
pub enum TopologyNodeType {
    Router,
    Switch,
    Firewall,
    Server,
    Workstation,
    Unknown,
}

/// Kind of a link in the network topology.
#[derive(Clone, Copy, Debug, PartialEq, Eq, Structural)]
pub enum TopologyLinkType {
    Ethernet,
    Fiber,
    Wireless,
    Vpn,
    Logical,
}

/// State of a topology link.
#[derive(Clone, Copy, Debug, PartialEq, Eq, Structural)]
pub enum LinkStatus {
    Up,
    Down,
    Unknown,
}

/// Request to aggregate metrics over nodes and a time window.
#[derive(Debug)]
pub struct MetricsAggregationRequest {
    pub node_ids: Vec<String>,
    pub metric_names: Vec<String>,
    pub function: AggregationFunction,
    pub time_window_seconds: u64,
    pub points: u32,
}

/// Aggregation function of a metrics request.
#[derive(Clone, Copy, Debug, PartialEq, Eq, Structural)]
pub enum AggregationFunction {
    Avg,
    Sum,
    Min,
    Max,
    Count,
    Rate,
}

/// Read an alert severity from an optional query value.
pub fn parse_alert_severity(value: &Option<String>) -> (r: Option<AlertSeverity>)
    ensures
        r == (match *value {
            Some(ref s) => if s@ == "critical"@ {
                Some(AlertSeverity::Critical)
            } else if s@ == "warning"@ {
                Some(AlertSeverity::Warning)
            } else if s@ == "info"@ {
                Some(AlertSeverity::Info)
            } else {
                None::<AlertSeverity>
            },
            None => None::<AlertSeverity>,
        }),
{
    match value {
        Some(s) => {
            if crate::order::str_eq(s.as_str(), "critical") {
                Some(AlertSeverity::Critical)
            } else if crate::order::str_eq(s.as_str(), "warning") {
                Some(AlertSeverity::Warning)
            } else if crate::order::str_eq(s.as_str(), "info") {
                Some(AlertSeverity::Info)
            } else {
                None
            }
        },
        None => None,
    }
}

/// Read an alert status from an optional query value.
pub fn parse_alert_status(value: &Option<String>) -> (r: Option<AlertStatus>)
    ensures
        r == (match *value {
            Some(ref s) => if s@ == "active"@ {
                Some(AlertStatus::Active)
            } else if s@ == "acknowledged"@ {
                Some(AlertStatus::Acknowledged)
            } else if s@ == "resolved"@ {
                Some(AlertStatus::Resolved)
            } else if s@ == "suppressed"@ {
                Some(AlertStatus::Suppressed)
            } else {
                None::<AlertStatus>
            },
            None => None::<AlertStatus>,
        }),
{
    match value {
        Some(s) => {
            if crate::order::str_eq(s.as_str(), "active") {
                Some(AlertStatus::Active)
            } else if crate::order::str_eq(s.as_str(), "acknowledged") {
                Some(AlertStatus::Acknowledged)
            } else if crate::order::str_eq(s.as_str(), "resolved") {
                Some(AlertStatus::Resolved)
            } else if crate::order::str_eq(s.as_str(), "suppressed") {
                Some(AlertStatus::Suppressed)
            } else {
                None
            }
        },
        None => None,
    }
}

} // verus!
