//! Application configuration and the small query types of the service
//! boundary. Reading the environment happens outside the library; the
//! values arrive here as plain fields.

use vstd::prelude::*;

use crate::validate::dec_str;

verus! {

/// Application configuration, as loaded at startup.
#[derive(Debug)]
pub struct AppConfig {
    pub server_host: String,
    pub server_port: u16,
    pub app_env: String,
    pub database_url: String,
    pub jwt_secret_key: String,
    pub jwt_expiration_minutes: u64,
    pub log_level: String,
    pub vyos_api_url: Option<String>,
    pub vyos_api_username: Option<String>,
    pub vyos_api_password: Option<String>,
}

impl AppConfig {
    /// The server address, host and port joined by a colon.
    pub fn server_address(&self) -> (r: String)
        ensures
            r@ == self.server_host@ + seq![':'] + dec_str(self.server_port as int),
    {
        let mut s = self.server_host.clone();
        proof {
            reveal_strlit(":");
        }
        s.append(":");
        let port = crate::validate::u64_to_string(self.server_port as u64);
        s.append(port.as_str());
        proof {
            assert(s@ =~= self.server_host@ + seq![':'] + dec_str(self.server_port as int));
        }
        s
    }

    /// Whether the application runs in development mode.
    pub fn is_development(&self) -> (r: bool)
        ensures
            r == (self.app_env@ == "development"@),
    {
        crate::order::str_eq(self.app_env.as_str(), "development")
    }

    /// Whether the application runs in production mode.
    pub fn is_production(&self) -> (r: bool)
        ensures
            r == (self.app_env@ == "production"@),
    {
        crate::order::str_eq(self.app_env.as_str(), "production")
    }
}

/// Health check payload.
#[derive(Debug)]
pub struct HealthResponse {
    pub status: String,
    pub version: String,
    pub database: String,
}

/// Query parameters of a history listing.
#[derive(Debug)]
pub struct HistoryQueryParams {
    pub limit: Option<usize>,
}

/// Request for the value of one configuration node.
#[derive(Debug)]
pub struct ConfigValueRequest {
    pub path: String,
}

/// Request for a configuration subtree.
#[derive(Debug)]
pub struct ConfigSubtreeRequest {
    pub path: String,
}

/// Query parameters of a system metrics request.
#[derive(Debug)]
pub struct SystemMetricsQuery {
    pub node_id: Option<String>,
}

/// Query parameters of a network statistics request.
#[derive(Debug)]
pub struct NetworkQuery {
    pub node_id: Option<String>,
    pub interface: Option<String>,
}

/// Query parameters of an alert listing.
#[derive(Debug)]
pub struct AlertsQuery {
    pub node_id: Option<String>,
    pub severity: Option<String>,
    pub status: Option<String>,
    pub limit: Option<usize>,
}

} // verus!
