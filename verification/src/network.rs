//! Network boundary types. Talking to interfaces, routes and firewalls
//! happens outside the library.

use vstd::prelude::*;

use crate::appconf::AppConfig;

verus! {

/// State of a monitored network interface.
#[derive(Clone, Copy, Debug, PartialEq, Eq, Structural)]
pub enum NetworkInterfaceStatus {
    Up,
    Down,
    Unknown,
}

/// Address family of an address.
#[derive(Clone, Copy, Debug, PartialEq, Eq, Structural)]
pub enum IpType {
    IPv4,
    IPv6,
}

/// An address with its prefix length, as reported by monitoring.
#[derive(Debug)]
pub struct IpAddressInfo {
    pub address: String,
    pub prefix_length: u8,
    pub ip_type: IpType,
}

/// State of a configured interface.
#[derive(Clone, Copy, Debug, PartialEq, Eq, Structural)]
pub enum InterfaceStatus {
    Up,
    Down,
    Unknown,
}

/// Kind of a configured interface.
#[derive(Clone, Copy, Debug, PartialEq, Eq, Structural)]
pub enum InterfaceType {
    Ethernet,
    Loopback,
    Vlan,
    Bridge,
    Bond,
    Wireless,
    Other,
}

/// An address assigned to an interface.
#[derive(Debug)]
pub struct IpAddress {
    pub address: String,
    pub prefix_length: u8,
    pub ip_type: IpType,
    pub is_primary: bool,
}

/// Origin of a route.
#[derive(Clone, Copy, Debug, PartialEq, Eq, Structural)]
pub enum RouteType {
    Connected,
    Static,
    Dynamic,
}

/// What a firewall rule does with a matching packet.
#[derive(Clone, Copy, Debug, PartialEq, Eq, Structural)]
pub enum FirewallAction {
    Accept,
    Drop,
    Reject,
}

/// The network service of the boundary, holding its configuration.
#[derive(Debug)]
pub struct NetworkService {
    pub config: AppConfig,
}

impl NetworkService {
    /// Build a network service over the given configuration.
    pub fn new(config: AppConfig) -> (s: Self)
        ensures
            s.config == config,
    {
        NetworkService { config }
    }

}

} // verus!
