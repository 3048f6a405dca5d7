//! Request and response shapes of the configuration boundary, as
//! serialized at the edge of the service.

use vstd::prelude::*;

use crate::service::ConfigChangeFailure;

verus! {

/// Request to read the configuration, or a subtree of it.
#[derive(Debug)]
pub struct ConfigRetrieveRequest {
    pub path: Option<String>,
    pub include_defaults: bool,
    pub include_readonly: bool,
}

/// Request to set a value; no value means a delete.
#[derive(Debug)]
pub struct ConfigSetRequest {
    pub path: String,
    pub value: Option<String>,
    pub validate: bool,
}

/// Request to delete a subtree.
#[derive(Debug)]
pub struct ConfigDeleteRequest {
    pub path: String,
    pub validate: bool,
}

/// Response to a set or delete: the paths that changed.
#[derive(Debug)]
pub struct ConfigSetResponse {
    pub success: bool,
    pub message: String,
    pub changes_made: Vec<String>,
}

/// Request to commit the working tree.
#[derive(Debug)]
pub struct ConfigGenerateRequest {
    pub comment: String,
    pub save: bool,
    pub validate: bool,
}

/// Request to apply several changes in order.
#[derive(Debug)]
pub struct BulkConfigChangeRequest {
    pub changes: Vec<ConfigSetRequest>,
    pub comment: String,
    pub validate: bool,
    pub stop_on_error: bool,
}

/// Response to a bulk request: the applied and the failed changes.
#[derive(Debug)]
pub struct BulkConfigChangeResponse {
    pub success: bool,
    pub message: String,
    pub applied: Vec<String>,
    pub failed: Vec<ConfigChangeFailure>,
}

/// Request to search the configuration.
#[derive(Debug)]
pub struct ConfigSearchRequest {
    pub search_term: String,
    pub search_type: crate::model::SearchType,
    pub path_filter: Option<String>,
}

} // verus!
