//! Core of a hierarchical device-configuration manager.
//!
//! A configuration is a tree of nodes addressed by canonical,
//! forward-slash-delimited paths. The library keeps one mutable working
//! tree per device, produces immutable content-hashed snapshots of it,
//! records an append-only history of committed changes, computes
//! structural differences between snapshots, and restores earlier states.

pub mod appconf;
pub mod apperror;
pub mod auth;
pub mod diff;
pub mod encode;
pub mod history;
pub mod model;
pub mod monitoring;
pub mod network;
pub mod node;
pub mod order;
pub mod registry;
pub mod requests;
pub mod search;
pub mod service;
pub mod snapshot;
pub mod system;
pub mod tree;
pub mod users;
pub mod validate;
pub mod vyos;
