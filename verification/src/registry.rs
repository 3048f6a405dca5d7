//! Node-registry boundary types: managed devices, their status and the
//! requests that administer them. Probing the devices happens outside
//! the library.

use vstd::prelude::*;

verus! {

/// Connection state of a managed device.
#[derive(Clone, Copy, Debug, PartialEq, Eq, Structural)]
pub enum NodeStatus {
    /// Online and responding.
    Online,
    /// Offline or not responding.
    Offline,
    /// The connection is in an error state.
    Error,
    /// Currently being probed.
    Testing,
}

impl NodeStatus {
    /// The status as stored: its lower-case name.
    pub fn to_string(&self) -> (r: String)
        ensures
            r@ == match *self {
                NodeStatus::Online => "online"@,
                NodeStatus::Offline => "offline"@,
                NodeStatus::Error => "error"@,
                NodeStatus::Testing => "testing"@,
            },
    {
        match self {
            NodeStatus::Online => "online".to_owned(),
            NodeStatus::Offline => "offline".to_owned(),
            NodeStatus::Error => "error".to_owned(),
            NodeStatus::Testing => "testing".to_owned(),
        }
    }
}

/// Read a node status from its stored name, in any letter case;
/// anything unrecognized reads as offline.
pub fn parse_node_status(s: &str) -> (r: NodeStatus)
    ensures
        r == ({
            let folded = crate::search::lower_of(s@);
            if folded == "online"@ {
                NodeStatus::Online
            } else if folded == "error"@ {
                NodeStatus::Error
            } else if folded == "testing"@ {
                NodeStatus::Testing
            } else {
                NodeStatus::Offline
            }
        }),
{
    let folded = crate::search::fold_case(s);
    if crate::order::str_eq(folded.as_str(), "online") {
        NodeStatus::Online
    } else if crate::order::str_eq(folded.as_str(), "error") {
        NodeStatus::Error
    } else if crate::order::str_eq(folded.as_str(), "testing") {
        NodeStatus::Testing
    } else {
        NodeStatus::Offline
    }
}

/// Request to register a managed device.
#[derive(Debug)]
pub struct CreateNodeRequest {
    pub name: String,
    pub description: Option<String>,
    pub host: String,
    pub port: Option<u16>,
    pub api_key: String,
    pub use_https: Option<bool>,
    pub verify_ssl: Option<bool>,
    pub tags: Option<Vec<String>>,
    pub timeout: Option<u64>,
}

/// Request to update a managed device; absent fields stay as they are.
#[derive(Debug)]
pub struct UpdateNodeRequest {
    pub name: Option<String>,
    pub description: Option<String>,
    pub host: Option<String>,
    pub port: Option<u16>,
    pub api_key: Option<String>,
    pub use_https: Option<bool>,
    pub verify_ssl: Option<bool>,
    pub tags: Option<Vec<String>>,
    pub timeout: Option<u64>,
}

/// Query parameters of a device listing.
#[derive(Debug)]
pub struct NodeListQuery {
    pub page: Option<u32>,
    pub page_size: Option<u32>,
    pub status: Option<NodeStatus>,
    pub search: Option<String>,
    pub sort_by: Option<String>,
    pub sort_order: Option<String>,
}

/// Outcome of probing a device.
#[derive(Debug)]
pub struct NodeTestResult {
    pub success: bool,
    pub message: String,
    pub latency_ms: Option<u64>,
    pub version: Option<String>,
    pub hostname: Option<String>,
    pub uptime: Option<u64>,
}

/// Counts of devices by status.
#[derive(Clone, Copy, Debug, PartialEq, Eq, Structural)]
pub struct NodeStatistics {
    pub total_nodes: u64,
    pub online_nodes: u64,
    pub offline_nodes: u64,
    pub error_nodes: u64,
}

} // verus!
